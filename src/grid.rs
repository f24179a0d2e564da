//! Pixel grids: the image that a per-pixel classifier determines, and the
//! sequential and band-by-band renderers that produce it.
//!
//! Pixels are stored row-major: pixel `(column, row)` of a `width`-wide image
//! sits at index `row * width + column`. A band is one row of the image.
use vstd::prelude::*;
use vstd::arithmetic::div_mod::{
    lemma_fundamental_div_mod, lemma_fundamental_div_mod_converse, lemma_mod_pos_bound,
};
use crate::shade::{lemma_black_iff_bounded, shade, shade_of, within_budget};

verus! {

/// `classify` can be called on every pixel `(column, row)`, is a function of
/// the pixel, and reports escape counts within the iteration budget.
pub open spec fn is_classifier<F: Fn(usize, usize) -> Option<usize>>(classify: F) -> bool {
    &&& forall|c: usize, r: usize| #[trigger] classify.requires((c, r))
    &&& forall|c: usize, r: usize, a: Option<usize>, b: Option<usize>|
        #[trigger] classify.ensures((c, r), a) && #[trigger] classify.ensures((c, r), b) ==> a == b
    &&& forall|c: usize, r: usize, e: Option<usize>|
        #[trigger] classify.ensures((c, r), e) ==> within_budget(e)
}

/// The escape classification of pixel `(column, row)`.
pub open spec fn pixel_escape<F: Fn(usize, usize) -> Option<usize>>(
    classify: F,
    column: usize,
    row: usize,
) -> Option<usize> {
    choose|e: Option<usize>| classify.ensures((column, row), e)
}

/// The byte of pixel `(column, row)`.
pub open spec fn pixel_shade<F: Fn(usize, usize) -> Option<usize>>(
    classify: F,
    column: int,
    row: int,
) -> u8 {
    shade_of(pixel_escape(classify, column as usize, row as usize))
}

/// The full `width` by `height` image, row-major.
pub open spec fn image_of<F: Fn(usize, usize) -> Option<usize>>(
    classify: F,
    width: usize,
    height: usize,
) -> Seq<u8> {
    Seq::new(
        (width * height) as nat,
        |i: int| pixel_shade(classify, i % width as int, i / width as int),
    )
}

/// The `width` bytes of row `row`.
pub open spec fn row_of<F: Fn(usize, usize) -> Option<usize>>(
    classify: F,
    width: usize,
    row: usize,
) -> Seq<u8> {
    Seq::new(width as nat, |c: int| pixel_shade(classify, c, row as int))
}

/// Byte `i` of the image is black exactly when the classification `escape`
/// reported for its pixel says that the point did not escape within the
/// iteration budget; otherwise it is `255 - count`, in `1..=255`.
pub proof fn lemma_image_black_iff_bounded<F: Fn(usize, usize) -> Option<usize>>(
    classify: F,
    width: usize,
    height: usize,
    i: int,
    escape: Option<usize>,
)
    requires
        is_classifier(classify),
        0 <= i < width * height,
        classify.ensures(((i % width as int) as usize, (i / width as int) as usize), escape),
    ensures
        image_of(classify, width, height)[i] == 0 <==> escape is None,
        forall|count: usize|
            escape == Some(count) ==> image_of(classify, width, height)[i] as int == 255 - count,
{
    let c = (i % width as int) as usize;
    let r = (i / width as int) as usize;
    assert(pixel_escape(classify, c, r) == escape);
    lemma_black_iff_bounded(escape);
}

/// Pixel `(column, row)` of a `width`-wide image sits at `row * width + column`.
pub proof fn lemma_pixel_index(width: usize, column: int, row: int)
    requires
        0 <= column < width,
        0 <= row,
    ensures
        (row * width + column) % (width as int) == column,
        (row * width + column) / (width as int) == row,
{
    lemma_fundamental_div_mod_converse(row * width + column, width as int, row, column);
}

/// Classifies one pixel and encodes it.
fn pixel_byte<F: Fn(usize, usize) -> Option<usize>>(classify: &F, column: usize, row: usize) -> (r:
    u8)
    requires
        is_classifier(*classify),
    ensures
        r == pixel_shade(*classify, column as int, row as int),
{
    let e = classify(column, row);
    assert(classify.ensures((column, row), pixel_escape(*classify, column, row)));
    shade(e)
}

/// Renders the `width` by `height` image in one row-major pass.
pub fn render_with<F: Fn(usize, usize) -> Option<usize>>(
    width: usize,
    height: usize,
    classify: &F,
) -> (r: Vec<u8>)
    requires
        width * height <= usize::MAX,
        is_classifier(*classify),
    ensures
        r@ == image_of(*classify, width, height),
{
    let mut pixels: Vec<u8> = Vec::new();
    let mut row: usize = 0;
    while row < height
        invariant
            is_classifier(*classify),
            width * height <= usize::MAX,
            row <= height,
            pixels@.len() == row * width,
            forall|i: int|
                0 <= i < pixels@.len() ==> #[trigger] pixels@[i] == pixel_shade(
                    *classify,
                    i % width as int,
                    i / width as int,
                ),
        decreases height - row,
    {
        let mut column: usize = 0;
        while column < width
            invariant
                is_classifier(*classify),
                width * height <= usize::MAX,
                row < height,
                column <= width,
                pixels@.len() == row * width + column,
                forall|i: int|
                    0 <= i < pixels@.len() ==> #[trigger] pixels@[i] == pixel_shade(
                        *classify,
                        i % width as int,
                        i / width as int,
                    ),
            decreases width - column,
        {
            let b = pixel_byte(classify, column, row);
            proof {
                lemma_pixel_index(width, column as int, row as int);
            }
            pixels.push(b);
            column = column + 1;
        }
        assert((row + 1) * width == row * width + width) by (nonlinear_arith);
        row = row + 1;
    }
    assert(row * width == width * height) by (nonlinear_arith)
        requires
            row == height,
    ;
    assert(pixels@ =~= image_of(*classify, width, height));
    pixels
}

/// Fills `band` with row `row` of the image: its length is the image width.
pub fn fill_band<F: Fn(usize, usize) -> Option<usize>>(band: &mut [u8], row: usize, classify: &F)
    requires
        is_classifier(*classify),
    ensures
        final(band)@ == row_of(*classify, old(band)@.len() as usize, row),
{
    let width = band.len();
    let mut column: usize = 0;
    while column < width
        invariant
            is_classifier(*classify),
            width == band@.len(),
            width == old(band)@.len(),
            column <= width,
            forall|c: int| 0 <= c < column ==> #[trigger] band@[c] == pixel_shade(*classify, c, row as int),
        decreases width - column,
    {
        let b = pixel_byte(classify, column, row);
        band[column] = b;
        column = column + 1;
    }
    assert(band@ =~= row_of(*classify, width, row));
}

/// A buffer whose every band holds its row of the image is that image: bands
/// computed separately assemble into exactly what the sequential renderer
/// produces.
pub proof fn lemma_bands_make_image<F: Fn(usize, usize) -> Option<usize>>(
    classify: F,
    width: usize,
    height: usize,
    pixels: Seq<u8>,
)
    requires
        width > 0,
        pixels.len() == width * height,
        forall|r: usize|
            r < height ==> #[trigger] pixels.subrange(r * width, r * width + width) == row_of(
                classify,
                width,
                r,
            ),
    ensures
        pixels == image_of(classify, width, height),
{
    let image = image_of(classify, width, height);
    assert forall|i: int| 0 <= i < pixels.len() implies pixels[i] == image[i] by {
        let w = width as int;
        let row = i / w;
        let column = i % w;
        lemma_fundamental_div_mod(i, w);
        lemma_mod_pos_bound(i, w);
        assert(i == row * w + column) by (nonlinear_arith)
            requires
                i == w * row + column,
        ;
        assert(0 <= row < height) by (nonlinear_arith)
            requires
                i == row * w + column,
                0 <= column < w,
                0 <= i < w * height,
        ;
        assert(row * w + w <= w * height) by (nonlinear_arith)
            requires
                0 <= row < height,
                w > 0,
        ;
        let r = row as usize;
        let band = pixels.subrange(r * width, r * width + width);
        assert(band == row_of(classify, width, r));
        assert(band[column] == pixels[r * width + column]);
        assert(pixels[i] == band[column]);
    }
    assert(pixels =~= image);
}

/// `pixels` with every pixel of row `row` set to its shade: the effect of
/// rendering that one band into a `width`-wide buffer.
pub open spec fn write_row<F: Fn(usize, usize) -> Option<usize>>(
    classify: F,
    width: usize,
    pixels: Seq<u8>,
    row: usize,
) -> Seq<u8> {
    Seq::new(
        pixels.len(),
        |i: int|
            if i / width as int == row as int {
                pixel_shade(classify, i % width as int, row as int)
            } else {
                pixels[i]
            },
    )
}

/// `pixels` after the bands listed in `order` were rendered, first to last.
pub open spec fn write_rows<F: Fn(usize, usize) -> Option<usize>>(
    classify: F,
    width: usize,
    pixels: Seq<u8>,
    order: Seq<usize>,
) -> Seq<u8>
    decreases order.len(),
{
    if order.len() == 0 {
        pixels
    } else {
        write_row(classify, width, write_rows(classify, width, pixels, order.drop_last()), order.last())
    }
}

/// After the bands of `order` are written, a pixel holds its shade if its row
/// was among them, and its old byte otherwise.
proof fn lemma_write_rows_pixels<F: Fn(usize, usize) -> Option<usize>>(
    classify: F,
    width: usize,
    height: usize,
    pixels: Seq<u8>,
    order: Seq<usize>,
)
    requires
        width > 0,
        pixels.len() == width * height,
    ensures
        write_rows(classify, width, pixels, order).len() == pixels.len(),
        forall|i: int|
            0 <= i < pixels.len() ==> #[trigger] write_rows(classify, width, pixels, order)[i] == if order.contains(
                (i / width as int) as usize,
            ) {
                pixel_shade(classify, i % width as int, i / width as int)
            } else {
                pixels[i]
            },
    decreases order.len(),
{
    if order.len() > 0 {
        let prefix = order.drop_last();
        let last = order.last();
        lemma_write_rows_pixels(classify, width, height, pixels, prefix);
        let before = write_rows(classify, width, pixels, prefix);
        let after = write_rows(classify, width, pixels, order);
        assert(after == write_row(classify, width, before, last));
        assert forall|i: int| 0 <= i < pixels.len() implies #[trigger] after[i] == if order.contains(
            (i / width as int) as usize,
        ) {
            pixel_shade(classify, i % width as int, i / width as int)
        } else {
            pixels[i]
        } by {
            let w = width as int;
            lemma_fundamental_div_mod(i, w);
            lemma_mod_pos_bound(i, w);
            assert(0 <= i / w < height) by (nonlinear_arith)
                requires
                    i == w * (i / w) + i % w,
                    0 <= i % w < w,
                    0 <= i < w * height,
            ;
            let r = (i / w) as usize;
            assert(order[order.len() - 1] == last);
            if prefix.contains(r) {
                let k = choose|k: int| 0 <= k < prefix.len() && prefix[k] == r;
                assert(order[k] == r);
            }
            if order.contains(r) && last != r {
                let k = choose|k: int| 0 <= k < order.len() && order[k] == r;
                assert(prefix[k] == r);
            }
        }
    }
}

/// Rendering the bands one at a time, in any order and with repetitions,
/// yields the same image as long as every band is rendered at least once:
/// the result does not depend on how band work is scheduled.
pub proof fn lemma_band_order_irrelevant<F: Fn(usize, usize) -> Option<usize>>(
    classify: F,
    width: usize,
    height: usize,
    pixels: Seq<u8>,
    order: Seq<usize>,
)
    requires
        width > 0,
        pixels.len() == width * height,
        forall|r: usize| r < height ==> #[trigger] order.contains(r),
    ensures
        write_rows(classify, width, pixels, order) == image_of(classify, width, height),
{
    lemma_write_rows_pixels(classify, width, height, pixels, order);
    let result = write_rows(classify, width, pixels, order);
    let image = image_of(classify, width, height);
    assert forall|i: int| 0 <= i < pixels.len() implies result[i] == image[i] by {
        let w = width as int;
        lemma_fundamental_div_mod(i, w);
        lemma_mod_pos_bound(i, w);
        assert(0 <= i / w < height) by (nonlinear_arith)
            requires
                i == w * (i / w) + i % w,
                0 <= i % w < w,
                0 <= i < w * height,
        ;
        assert(order.contains((i / w) as usize));
    }
    assert(result =~= image);
}

} // verus!
