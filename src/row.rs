use vstd::prelude::*;
use crate::pixel::{Pixel, is_above, pixel_is_above};
use crate::sort::{sorted_by_luma, sort_by_luma};

verus! {

broadcast use vstd::seq_lib::group_to_multiset_ensures;

/// `row[start..end]` is a maximal run: a non-empty stretch of pixels that all
/// lie above the threshold, bounded on each side by an end of the row or by a
/// pixel that does not.
pub open spec fn is_maximal_run(row: Seq<Pixel>, threshold_thirds: int, start: int, end: int) -> bool {
    &&& 0 <= start < end <= row.len()
    &&& forall|k: int| start <= k < end ==> is_above(#[trigger] row[k], threshold_thirds)
    &&& start == 0 || !is_above(row[start - 1], threshold_thirds)
    &&& end == row.len() || !is_above(row[end], threshold_thirds)
}

/// In `output`, the stretch `start..end` holds the pixels of `input`'s
/// stretch in non-decreasing order of brightness.
pub open spec fn run_sorted(input: Seq<Pixel>, output: Seq<Pixel>, start: int, end: int) -> bool {
    &&& sorted_by_luma(output.subrange(start, end))
    &&& output.subrange(start, end).to_multiset() == input.subrange(start, end).to_multiset()
}

/// `output` is `input` pixel-sorted at the threshold: same length, every pixel
/// at or below the threshold kept in place, and every maximal run sorted by
/// brightness in place.
pub open spec fn row_sorted(input: Seq<Pixel>, output: Seq<Pixel>, threshold_thirds: int) -> bool {
    &&& output.len() == input.len()
    &&& forall|k: int|
        0 <= k < input.len() && !is_above(#[trigger] input[k], threshold_thirds) ==> output[k]
            == input[k]
    &&& forall|start: int, end: int|
        #[trigger] is_maximal_run(input, threshold_thirds, start, end) ==> run_sorted(
            input,
            output,
            start,
            end,
        )
}

/// Pixel-sorts one row: each maximal run of pixels above the threshold is
/// sorted by brightness, and every other pixel stays where it is.
pub fn sort_row(row: &[Pixel], threshold_thirds: i64) -> (out: Vec<Pixel>)
    ensures
        row_sorted(row@, out@, threshold_thirds as int),
{
    let ghost t = threshold_thirds as int;
    let mut out: Vec<Pixel> = Vec::with_capacity(row.len());
    let mut run: Vec<Pixel> = Vec::new();
    let mut run_start: usize = 0;
    let mut i: usize = 0;
    while i < row.len()
        invariant
            t == threshold_thirds as int,
            run_start <= i <= row@.len(),
            out@.len() == run_start,
            run@ == row@.subrange(run_start as int, i as int),
            forall|k: int| run_start <= k < i ==> is_above(#[trigger] row@[k], t),
            run_start == 0 || !is_above(row@[run_start - 1], t),
            forall|k: int|
                0 <= k < run_start && !is_above(#[trigger] row@[k], t) ==> out@[k] == row@[k],
            forall|s: int, e: int|
                #[trigger] is_maximal_run(row@, t, s, e) && e <= run_start ==> run_sorted(
                    row@,
                    out@,
                    s,
                    e,
                ),
        decreases row@.len() - i,
    {
        let p = row[i];
        assert(p == row@[i as int]);
        if pixel_is_above(p, threshold_thirds) {
            run.push(p);
            proof {
                assert(run@ == row@.subrange(run_start as int, i + 1));
            }
        } else {
            let ghost old_out = out@;
            let ghost old_start = run_start as int;
            let mut sorted = sort_by_luma(&run);
            let ghost old_sorted = sorted@;
            out.append(&mut sorted);
            out.push(p);
            run = Vec::new();
            run_start = i + 1;
            proof {
                assert(out@.subrange(0, old_start) == old_out);
                assert(out@.subrange(old_start, i as int) == old_sorted);
                lemma_flush(row@, t, old_out, out@, old_start, i as int);
            }
        }
        i = i + 1;
    }
    let ghost old_out = out@;
    let ghost old_start = run_start as int;
    let mut sorted = sort_by_luma(&run);
    let ghost old_sorted = sorted@;
    out.append(&mut sorted);
    proof {
        assert(out@.subrange(0, old_start) == old_out);
        assert(out@.subrange(old_start, row@.len() as int) == old_sorted);
        assert(row@.subrange(old_start, row@.len() as int) == run@);
        lemma_finish(row@, t, old_out, out@, old_start);
    }
    out
}

/// The row's pixels before `run_start` are done: those at or below the
/// threshold are in place and every maximal run that ends by then is sorted.
spec fn prefix_done(row: Seq<Pixel>, t: int, out: Seq<Pixel>, run_start: int) -> bool {
    &&& forall|k: int| 0 <= k < run_start && !is_above(#[trigger] row[k], t) ==> out[k] == row[k]
    &&& forall|s: int, e: int|
        #[trigger] is_maximal_run(row, t, s, e) && e <= run_start ==> run_sorted(row, out, s, e)
}

/// Appending the sorted run `row[start..end]` to a done prefix keeps what was
/// done and sorts that run.
proof fn lemma_extend(row: Seq<Pixel>, t: int, old_out: Seq<Pixel>, out: Seq<Pixel>, start: int, end: int)
    requires
        0 <= start <= end <= row.len(),
        old_out.len() == start,
        out.len() >= end,
        out.subrange(0, start) == old_out,
        sorted_by_luma(out.subrange(start, end)),
        out.subrange(start, end).to_multiset() == row.subrange(start, end).to_multiset(),
        forall|k: int| start <= k < end ==> is_above(#[trigger] row[k], t),
        start == 0 || !is_above(row[start - 1], t),
        prefix_done(row, t, old_out, start),
    ensures
        forall|k: int| 0 <= k < end && !is_above(#[trigger] row[k], t) ==> out[k] == row[k],
        forall|s: int, e: int|
            #[trigger] is_maximal_run(row, t, s, e) && e <= start ==> run_sorted(row, out, s, e),
        (end == row.len() || !is_above(row[end], t)) && start < end ==> run_sorted(row, out, start, end),
        forall|s: int, e: int|
            #[trigger] is_maximal_run(row, t, s, e) && start < e <= end ==> s == start && e == end,
{
    assert forall|k: int| 0 <= k < end && !is_above(#[trigger] row[k], t) implies out[k] == row[k] by {
        assert(k < start);
        assert(out[k] == out.subrange(0, start)[k]);
    }
    assert forall|s: int, e: int|
        #[trigger] is_maximal_run(row, t, s, e) && e <= start implies run_sorted(row, out, s, e) by {
        assert(run_sorted(row, old_out, s, e));
        assert(out.subrange(s, e) == old_out.subrange(s, e));
    }
    assert forall|s: int, e: int|
        #[trigger] is_maximal_run(row, t, s, e) && start < e <= end implies s == start && e == end by {
        if e < end {
            assert(is_above(row[e], t));
        }
        if s < start {
            assert(is_above(row[start - 1], t));
        }
        if s > start {
            assert(is_above(row[s - 1], t));
        }
    }
}

/// Flushing the run `row[start..i]` at the boundary pixel `row[i]`.
proof fn lemma_flush(row: Seq<Pixel>, t: int, old_out: Seq<Pixel>, out: Seq<Pixel>, start: int, i: int)
    requires
        0 <= start <= i < row.len(),
        !is_above(row[i], t),
        old_out.len() == start,
        out.len() == i + 1,
        out.subrange(0, start) == old_out,
        out[i] == row[i],
        sorted_by_luma(out.subrange(start, i)),
        out.subrange(start, i).to_multiset() == row.subrange(start, i).to_multiset(),
        forall|k: int| start <= k < i ==> is_above(#[trigger] row[k], t),
        start == 0 || !is_above(row[start - 1], t),
        prefix_done(row, t, old_out, start),
    ensures
        prefix_done(row, t, out, i + 1),
{
    lemma_extend(row, t, old_out, out, start, i);
    assert forall|s: int, e: int|
        #[trigger] is_maximal_run(row, t, s, e) && e <= i + 1 implies run_sorted(row, out, s, e) by {
        if e == i + 1 {
            assert(!is_above(row[i], t));
            assert(is_above(row[e - 1], t));
        }
    }
}

/// Flushing the last run `row[start..]` at the end of the row.
proof fn lemma_finish(row: Seq<Pixel>, t: int, old_out: Seq<Pixel>, out: Seq<Pixel>, start: int)
    requires
        0 <= start <= row.len(),
        old_out.len() == start,
        out.len() == row.len(),
        out.subrange(0, start) == old_out,
        sorted_by_luma(out.subrange(start, row.len() as int)),
        out.subrange(start, row.len() as int).to_multiset() == row.subrange(
            start,
            row.len() as int,
        ).to_multiset(),
        forall|k: int| start <= k < row.len() ==> is_above(#[trigger] row[k], t),
        start == 0 || !is_above(row[start - 1], t),
        prefix_done(row, t, old_out, start),
    ensures
        row_sorted(row, out, t),
{
    lemma_extend(row, t, old_out, out, start, row.len() as int);
}

} // verus!
