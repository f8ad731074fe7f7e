use vstd::prelude::*;
use crate::pixel::{Pixel, luma3, luma_from_pixel};

verus! {

broadcast use vstd::seq_lib::group_to_multiset_ensures;

/// `s` is in non-decreasing order of brightness.
pub open spec fn sorted_by_luma(s: Seq<Pixel>) -> bool {
    forall|i: int, j: int| 0 <= i <= j < s.len() ==> luma3(#[trigger] s[i]) <= luma3(#[trigger] s[j])
}

/// Sorts `pixels` by ascending brightness, by insertion into a new vector.
pub fn sort_by_luma(pixels: &Vec<Pixel>) -> (sorted: Vec<Pixel>)
    ensures
        sorted_by_luma(sorted@),
        sorted@.to_multiset() == pixels@.to_multiset(),
        sorted@.len() == pixels@.len(),
{
    let mut sorted: Vec<Pixel> = Vec::with_capacity(pixels.len());
    let mut i: usize = 0;
    while i < pixels.len()
        invariant
            i <= pixels@.len(),
            sorted@.len() == i,
            sorted_by_luma(sorted@),
            sorted@.to_multiset() == pixels@.subrange(0, i as int).to_multiset(),
        decreases pixels@.len() - i,
    {
        let p = pixels[i];
        let key: u16 = luma_from_pixel(p);
        let mut j: usize = 0;
        while j < sorted.len() && luma_from_pixel(sorted[j]) <= key
            invariant
                j <= sorted@.len(),
                key as int == luma3(p),
                forall|k: int| 0 <= k < j ==> luma3(#[trigger] sorted@[k]) <= luma3(p),
            decreases sorted@.len() - j,
        {
            j = j + 1;
        }
        proof {
            if j < sorted@.len() {
                assert forall|k: int| j <= k < sorted@.len() implies luma3(p) < luma3(
                    #[trigger] sorted@[k],
                ) by {
                    assert(luma3(sorted@[j as int]) <= luma3(sorted@[k]));
                }
            }
        }
        let ghost before = sorted@;
        sorted.insert(j, p);
        proof {
            assert(pixels@.subrange(0, i + 1) == pixels@.subrange(0, i as int).push(p));
            assert(sorted@ == before.insert(j as int, p));
            assert forall|a: int, b: int| 0 <= a <= b < sorted@.len() implies luma3(
                #[trigger] sorted@[a],
            ) <= luma3(#[trigger] sorted@[b]) by {
                if b < j {
                } else if b == j {
                } else if a < j {
                } else if a == j {
                    assert(sorted@[b] == before[b - 1]);
                } else {
                    assert(sorted@[a] == before[a - 1]);
                    assert(sorted@[b] == before[b - 1]);
                }
            }
        }
        i = i + 1;
    }
    assert(pixels@.subrange(0, i as int) == pixels@);
    sorted
}

} // verus!
