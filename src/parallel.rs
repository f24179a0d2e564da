//! The parallel renderer: one task per band, each writing its own disjoint
//! row of a single shared buffer.
use vstd::prelude::*;
use rayon::iter::{IndexedParallelIterator, ParallelIterator};
use rayon::slice::ParallelSliceMut;
use crate::grid::{fill_band, image_of, is_classifier, lemma_bands_make_image, row_of};

verus! {

/// Relies on rayon's `par_chunks_mut`, `enumerate` and `for_each`: the buffer
/// is cut into consecutive, non-overlapping chunks of exactly `width` bytes
/// (its length is a multiple of `width`), chunk `r` starting at `r * width`;
/// `enumerate` numbers them from 0 in that order; `for_each` runs the closure
/// once on each chunk and returns when all have run. Each chunk is filled by
/// `fill_band`. `par_chunks_mut` panics on a chunk size of 0.
#[verifier::external_body]
fn fill_bands_in_parallel<F: Fn(usize, usize) -> Option<usize> + Sync>(
    pixels: &mut Vec<u8>,
    width: usize,
    classify: &F,
)
    requires
        width > 0,
        old(pixels)@.len() as int % (width as int) == 0,
        is_classifier(*classify),
    ensures
        final(pixels)@.len() == old(pixels)@.len(),
        forall|r: usize|
            r * width + width <= old(pixels)@.len() ==> #[trigger] final(pixels)@.subrange(
                r * width,
                r * width + width,
            ) == row_of(*classify, width, r),
{
    pixels.par_chunks_mut(width).enumerate().for_each(|(row, band)| fill_band(band, row, classify));
}

/// Renders the `width` by `height` image with one concurrent task per row.
/// The result is exactly what the sequential renderer produces.
pub fn parallel_render_with<F: Fn(usize, usize) -> Option<usize> + Sync>(
    width: usize,
    height: usize,
    classify: &F,
) -> (r: Vec<u8>)
    requires
        width > 0,
        width * height <= usize::MAX,
        is_classifier(*classify),
    ensures
        r@ == image_of(*classify, width, height),
{
    let mut pixels: Vec<u8> = vec![0u8; width * height];
    proof {
        vstd::arithmetic::div_mod::lemma_mod_multiples_basic(height as int, width as int);
        assert((height as int) * (width as int) == width * height) by (nonlinear_arith);
    }
    fill_bands_in_parallel(&mut pixels, width, classify);
    proof {
        assert forall|r: usize| r < height implies #[trigger] pixels@.subrange(
            r * width,
            r * width + width,
        ) == row_of(*classify, width, r) by {
            assert(r * width + width <= width * height) by (nonlinear_arith)
                requires
                    r < height,
            ;
        }
        lemma_bands_make_image(*classify, width, height, pixels@);
    }
    pixels
}

} // verus!
