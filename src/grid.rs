use vstd::prelude::*;
use crate::pixel::{Pixel, is_above};
use crate::row::{row_sorted, sort_row};

verus! {

/// A rectangular image: `height` rows of `width` pixels each, stored row by
/// row in `pixels`.
pub struct ImageGrid {
    pub width: usize,
    pub height: usize,
    pub pixels: Vec<Pixel>,
}

/// Row `r` of an image `width` pixels wide, stored row by row in `pixels`.
pub open spec fn row_of(pixels: Seq<Pixel>, width: int, r: int) -> Seq<Pixel> {
    pixels.subrange(r * width, r * width + width)
}

/// `output` is the image `input` (`height` rows of `width` pixels) pixel-sorted
/// at the threshold: the same number of pixels, every pixel at or below the
/// threshold in its place, and each row pixel-sorted on its own.
pub open spec fn image_sorted(
    width: int,
    height: int,
    input: Seq<Pixel>,
    output: Seq<Pixel>,
    threshold_thirds: int,
) -> bool {
    &&& output.len() == input.len()
    &&& forall|k: int|
        0 <= k < input.len() && !is_above(#[trigger] input[k], threshold_thirds) ==> output[k]
            == input[k]
    &&& forall|r: int|
        0 <= r < height ==> row_sorted(
            row_of(input, width, r),
            #[trigger] row_of(output, width, r),
            threshold_thirds,
        )
}

/// Row `r` of an image with `height` rows lies within its pixels.
proof fn lemma_row_bounds(width: int, height: int, r: int)
    requires
        0 <= r < height,
        0 <= width,
    ensures
        r * width + width == (r + 1) * width,
        (r + 1) * width <= width * height,
        0 <= r * width,
{
    assert(r * width + width == (r + 1) * width) by (nonlinear_arith);
    assert((r + 1) * width <= height * width) by (nonlinear_arith)
        requires
            r + 1 <= height,
            0 <= width,
    ;
    assert(height * width == width * height) by (nonlinear_arith);
    assert(0 <= r * width) by (nonlinear_arith)
        requires
            0 <= r,
            0 <= width,
    ;
}

/// An earlier row ends where a later one starts, or before.
proof fn lemma_rows_ordered(width: int, a: int, b: int)
    requires
        0 <= a < b,
        0 <= width,
    ensures
        a * width + width <= b * width,
{
    assert(a * width + width <= b * width) by (nonlinear_arith)
        requires
            a + 1 <= b,
            0 <= width,
    ;
}

impl ImageGrid {
    /// The pixel count matches the dimensions.
    pub open spec fn wf(&self) -> bool {
        self.pixels@.len() == self.width as int * self.height as int
    }

    /// An image of the given dimensions holding `pixels` row by row; `None`
    /// when their number is not `width * height`.
    pub fn new(width: usize, height: usize, pixels: Vec<Pixel>) -> (g: Option<ImageGrid>)
        ensures
            g is Some <==> pixels@.len() == width as int * height as int,
            g matches Some(g) ==> g.width == width && g.height == height && g.pixels@
                == pixels@,
    {
        match width.checked_mul(height) {
            Some(n) => {
                if n == pixels.len() {
                    Some(ImageGrid { width, height, pixels })
                } else {
                    None
                }
            },
            None => {
                assert(pixels@.len() == pixels.len());
                None
            },
        }
    }

    /// Pixel-sorts every row of the image at the threshold, given in thirds of
    /// a brightness unit.
    pub fn pixel_sort(&self, threshold_thirds: i64) -> (out: ImageGrid)
        requires
            self.wf(),
        ensures
            out.wf(),
            out.width == self.width,
            out.height == self.height,
            image_sorted(
                self.width as int,
                self.height as int,
                self.pixels@,
                out.pixels@,
                threshold_thirds as int,
            ),
    {
        let ghost t = threshold_thirds as int;
        let ghost w = self.width as int;
        let ghost input = self.pixels@;
        let mut out: Vec<Pixel> = Vec::with_capacity(self.pixels.len());
        let mut r: usize = 0;
        while r < self.height
            invariant
                self.wf(),
                t == threshold_thirds as int,
                w == self.width as int,
                input == self.pixels@,
                r <= self.height,
                out@.len() == r as int * w,
                forall|k: int|
                    0 <= k < out@.len() && !is_above(#[trigger] input[k], t) ==> out@[k]
                        == input[k],
                forall|q: int|
                    0 <= q < r ==> row_sorted(
                        row_of(input, w, q),
                        #[trigger] row_of(out@, w, q),
                        t,
                    ),
            decreases self.height - r,
        {
            proof {
                lemma_row_bounds(w, self.height as int, r as int);
            }
            assert(self.pixels@.len() == self.pixels.len());
            let start: usize = r * self.width;
            let end: usize = start + self.width;
            let mut row_out = sort_row(&self.pixels.as_slice()[start..end], threshold_thirds);
            let ghost old_out = out@;
            let ghost row_in = input.subrange(start as int, end as int);
            let ghost new_row = row_out@;
            out.append(&mut row_out);
            proof {
                assert(row_of(input, w, r as int) == row_in);
                assert(row_of(out@, w, r as int) == new_row);
                assert forall|k: int|
                    0 <= k < out@.len() && !is_above(#[trigger] input[k], t) implies out@[k]
                        == input[k] by {
                    if k >= start {
                        assert(row_in[k - start] == input[k]);
                        assert(out@[k] == new_row[k - start]);
                    }
                }
                assert forall|q: int| 0 <= q < r + 1 implies row_sorted(
                    row_of(input, w, q),
                    #[trigger] row_of(out@, w, q),
                    t,
                ) by {
                    if q < r {
                        lemma_rows_ordered(w, q, r as int);
                        lemma_row_bounds(w, self.height as int, q);
                        assert(row_of(out@, w, q) == row_of(old_out, w, q));
                    }
                }
            }
            r = r + 1;
        }
        proof {
            assert(r as int * w == w * self.height as int) by (nonlinear_arith)
                requires
                    r == self.height,
            ;
            assert forall|q: int| 0 <= q < self.height implies row_sorted(
                row_of(input, w, q),
                #[trigger] row_of(out@, w, q),
                t,
            ) by {}
        }
        ImageGrid { width: self.width, height: self.height, pixels: out }
    }
}

} // verus!
