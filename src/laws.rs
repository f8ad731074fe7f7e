use vstd::prelude::*;
use crate::pixel::{Pixel, is_above};
use crate::sort::sorted_by_luma;
use crate::row::{is_maximal_run, row_sorted};
use crate::grid::{image_sorted, row_of};

verus! {

/// When no pixel of the image lies above the threshold, every pixel is a
/// boundary and pixel sorting leaves the image unchanged.
pub proof fn lemma_high_threshold_keeps_image(
    width: int,
    height: int,
    input: Seq<Pixel>,
    output: Seq<Pixel>,
    threshold_thirds: int,
)
    requires
        image_sorted(width, height, input, output, threshold_thirds),
        forall|k: int| 0 <= k < input.len() ==> !is_above(#[trigger] input[k], threshold_thirds),
    ensures
        output == input,
{
    assert forall|k: int| 0 <= k < input.len() implies output[k] == input[k] by {
        assert(!is_above(input[k], threshold_thirds));
    }
    assert(output =~= input);
}

/// When every pixel of a row lies above the threshold, the whole row is one
/// run, and its pixel-sorted form is the row sorted in full by brightness.
pub proof fn lemma_low_threshold_sorts_row(
    input: Seq<Pixel>,
    output: Seq<Pixel>,
    threshold_thirds: int,
)
    requires
        row_sorted(input, output, threshold_thirds),
        forall|k: int| 0 <= k < input.len() ==> is_above(#[trigger] input[k], threshold_thirds),
    ensures
        sorted_by_luma(output),
        output.to_multiset() == input.to_multiset(),
{
    if input.len() > 0 {
        assert(is_maximal_run(input, threshold_thirds, 0, input.len() as int));
        assert(output.subrange(0, output.len() as int) == output);
        assert(input.subrange(0, input.len() as int) == input);
    } else {
        assert(output =~= input);
    }
}

/// When every pixel of the image lies above the threshold, each row of the
/// pixel-sorted image is that row of the input sorted in full by brightness.
pub proof fn lemma_low_threshold_sorts_image(
    width: int,
    height: int,
    input: Seq<Pixel>,
    output: Seq<Pixel>,
    threshold_thirds: int,
)
    requires
        0 <= width,
        0 <= height,
        input.len() == width * height,
        image_sorted(width, height, input, output, threshold_thirds),
        forall|k: int| 0 <= k < input.len() ==> is_above(#[trigger] input[k], threshold_thirds),
    ensures
        forall|r: int|
            0 <= r < height ==> {
                &&& sorted_by_luma(#[trigger] row_of(output, width, r))
                &&& row_of(output, width, r).to_multiset() == row_of(
                    input,
                    width,
                    r,
                ).to_multiset()
            },
{
    assert forall|r: int| 0 <= r < height implies {
        &&& sorted_by_luma(#[trigger] row_of(output, width, r))
        &&& row_of(output, width, r).to_multiset() == row_of(input, width, r).to_multiset()
    } by {
        assert(r * width + width <= width * height && 0 <= r * width) by (nonlinear_arith)
            requires
                0 <= r < height,
                0 <= width,
        ;
        let row = row_of(input, width, r);
        assert forall|k: int| 0 <= k < row.len() implies is_above(
            #[trigger] row[k],
            threshold_thirds,
        ) by {
            assert(row[k] == input[r * width + k]);
        }
        lemma_low_threshold_sorts_row(row, row_of(output, width, r), threshold_thirds);
    }
}

} // verus!
