//! Filling a band of the pixel buffer from per-pixel escape-time results.
use vstd::prelude::*;
use vstd::arithmetic::div_mod::{
    lemma_fundamental_div_mod,
    lemma_hoist_over_denominator,
    lemma_mod_multiples_vanish,
};
use crate::bands::{
    lemma_band_in_plan,
    band_count_of,
    band_rows_of,
    band_top_of,
    rows_per_band_of,
    valid_bounds,
};
use crate::shade::{intensity, intensity_of, shadeable};

verus! {

/// `value` is the shade of some result that `escape_at` may return for the
/// pixel at `column`, `row` of the band.
pub open spec fn shows_escape<F: Fn(usize, usize) -> Option<u32>>(
    escape_at: F,
    column: int,
    row: int,
    value: u8,
) -> bool {
    exists|e: Option<u32>|
        escape_at.ensures((column as usize, row as usize), e) && value == intensity_of(e)
}

/// Renders one band of `bounds.0` columns and `bounds.1` rows into `pixels`,
/// row-major: the pixel at `column`, `row` is stored at index
/// `row * bounds.0 + column` and receives the shade of
/// `escape_at(column, row)`, the escape-time result for the point that pixel
/// maps to. Every pixel of the band is written once.
pub fn render_band<F: Fn(usize, usize) -> Option<u32>>(
    pixels: &mut [u8],
    bounds: (usize, usize),
    escape_at: F,
)
    requires
        old(pixels)@.len() == bounds.0 * bounds.1,
        bounds.0 >= 1,
        forall|column: usize, row: usize|
            column < bounds.0 && row < bounds.1 ==> #[trigger] escape_at.requires((column, row)),
        forall|column: usize, row: usize, e: Option<u32>|
            #[trigger] escape_at.ensures((column, row), e) ==> shadeable(e),
    ensures
        final(pixels)@.len() == old(pixels)@.len(),
        forall|i: int|
            0 <= i < final(pixels)@.len() ==> shows_escape(
                escape_at,
                i % bounds.0 as int,
                i / bounds.0 as int,
                #[trigger] final(pixels)@[i],
            ),
{
    let (width, height) = bounds;
    let total = pixels.len();
    let mut row: usize = 0;
    while row < height
        invariant
            pixels@.len() == width * height,
            total == width * height,
            width >= 1,
            row <= height,
            forall|column: usize, row: usize|
                column < width && row < height ==> #[trigger] escape_at.requires((column, row)),
            forall|column: usize, row: usize, e: Option<u32>|
                #[trigger] escape_at.ensures((column, row), e) ==> shadeable(e),
            forall|i: int|
                0 <= i < row * width ==> shows_escape(
                    escape_at,
                    i % width as int,
                    i / width as int,
                    #[trigger] pixels@[i],
                ),
        decreases height - row,
    {
        let mut column: usize = 0;
        proof {
            assert(row * width + width <= width * height) by (nonlinear_arith)
                requires
                    row < height,
                    width >= 1,
            ;
        }
        while column < width
            invariant
                pixels@.len() == width * height,
                total == width * height,
                width >= 1,
                row < height,
                column <= width,
                row * width + width <= width * height,
                forall|column: usize, row: usize|
                    column < width && row < height ==> #[trigger] escape_at.requires(
                        (column, row),
                    ),
                forall|column: usize, row: usize, e: Option<u32>|
                    #[trigger] escape_at.ensures((column, row), e) ==> shadeable(e),
                forall|i: int|
                    0 <= i < row * width + column ==> shows_escape(
                        escape_at,
                        i % width as int,
                        i / width as int,
                        #[trigger] pixels@[i],
                    ),
            decreases width - column,
        {
            let offset = row * width + column;
            let e = escape_at(column, row);
            let shade = intensity(e);
            proof {
                lemma_fundamental_div_mod(offset as int, width as int);
                assert(offset as int % width as int == column as int && offset as int
                    / width as int == row as int) by (nonlinear_arith)
                    requires
                        offset == row * width + column,
                        column < width,
                        offset == width * (offset / width) + offset % width,
                        0 <= offset % width < width,
                ;
            }
            pixels[offset] = shade;
            column = column + 1;
        }
        proof {
            assert((row + 1) * width == row * width + width) by (nonlinear_arith);
        }
        row = row + 1;
    }
    proof {
        assert(row * width == width * height) by (nonlinear_arith)
            requires
                row == height,
        ;
    }
}

/// The grayscale image of `width` columns and `height` rows in which the pixel
/// at `column`, `row` shows the escape result `escape(column, row)`.
pub open spec fn image_of(width: int, height: int, escape: spec_fn(int, int) -> Option<u32>) -> Seq<
    u8,
> {
    Seq::new((width * height) as nat, |i: int| intensity_of(escape(i % width, i / width)))
}

/// The image of band `k` of the plan, with rows counted from the band's top.
pub open spec fn band_image_of(
    width: int,
    height: int,
    workers: int,
    escape: spec_fn(int, int) -> Option<u32>,
    k: int,
) -> Seq<u8> {
    let top = band_top_of(height, workers, k);
    image_of(width, band_rows_of(height, workers, k), |column: int, row: int| escape(column, row + top))
}

/// The images of the first `n` bands of the plan, one after the other.
pub open spec fn banded_image_of(
    width: int,
    height: int,
    workers: int,
    escape: spec_fn(int, int) -> Option<u32>,
    n: int,
) -> Seq<u8>
    decreases n,
{
    if n <= 0 {
        Seq::empty()
    } else {
        banded_image_of(width, height, workers, escape, n - 1) + band_image_of(
            width,
            height,
            workers,
            escape,
            n - 1,
        )
    }
}

/// A band renderer whose escape function always returns `escape`'s result
/// fills the band with exactly `image_of` that function.
pub proof fn lemma_render_band_is_image<F: Fn(usize, usize) -> Option<u32>>(
    escape_at: F,
    escape: spec_fn(int, int) -> Option<u32>,
    bounds: (usize, usize),
    pixels: Seq<u8>,
)
    requires
        bounds.0 >= 1,
        pixels.len() == bounds.0 * bounds.1,
        forall|column: usize, row: usize, e: Option<u32>|
            #[trigger] escape_at.ensures((column, row), e) ==> e == escape(
                column as int,
                row as int,
            ),
        forall|i: int|
            0 <= i < pixels.len() ==> shows_escape(
                escape_at,
                i % bounds.0 as int,
                i / bounds.0 as int,
                #[trigger] pixels[i],
            ),
    ensures
        pixels == image_of(bounds.0 as int, bounds.1 as int, escape),
{
    let w = bounds.0 as int;
    assert forall|i: int| 0 <= i < pixels.len() implies #[trigger] pixels[i] == intensity_of(
        escape(i % w, i / w),
    ) by {
        assert(shows_escape(escape_at, i % w, i / w, pixels[i]));
        let e = choose|e: Option<u32>|
            escape_at.ensures(((i % w) as usize, (i / w) as usize), e) && pixels[i]
                == intensity_of(e);
        lemma_fundamental_div_mod(i, w);
        assert(0 <= i / w <= i) by (nonlinear_arith)
            requires
                0 <= i,
                w >= 1,
        ;
        assert(0 <= i % w < w);
        assert(i / w < bounds.1) by (nonlinear_arith)
            requires
                i == w * (i / w) + i % w,
                0 <= i % w,
                i < w * bounds.1,
                w >= 1,
        ;
    }
    assert(pixels =~= image_of(w, bounds.1 as int, escape));
}

/// Splitting the image into the bands of the plan and rendering each band
/// from the escape results of its own rows gives, band after band, exactly
/// the image rendered in one piece: partitioning does not change a pixel.
pub proof fn lemma_bands_render_whole_image(
    width: int,
    height: int,
    workers: int,
    escape: spec_fn(int, int) -> Option<u32>,
)
    requires
        valid_bounds(width, height),
        workers >= 1,
    ensures
        banded_image_of(width, height, workers, escape, band_count_of(height, workers))
            == image_of(width, height, escape),
{
    let p = rows_per_band_of(height, workers);
    let count = band_count_of(height, workers);
    let q = (height + p - 1) / p;
    lemma_fundamental_div_mod(height + p - 1, p);
    assert(p >= 1) by (nonlinear_arith)
        requires
            p == height / workers + 1,
            height >= 1,
            workers >= 1,
    ;
    assert(count >= 1) by (nonlinear_arith)
        requires
            height + p - 1 == p * q + (height + p - 1) % p,
            (height + p - 1) % p < p,
            count == q,
            height >= 1,
    ;
    lemma_band_in_plan(height, workers, count - 1);
    lemma_banded_prefix(width, height, workers, escape, count);
    assert(p * count >= height) by (nonlinear_arith)
        requires
            height + p - 1 == p * q + (height + p - 1) % p,
            (height + p - 1) % p < p,
            count == q,
    ;
}

/// The first `n` bands render the first `min(rows_per_band * n, height)` rows.
proof fn lemma_banded_prefix(
    width: int,
    height: int,
    workers: int,
    escape: spec_fn(int, int) -> Option<u32>,
    n: int,
)
    requires
        valid_bounds(width, height),
        workers >= 1,
        0 <= n,
        n == 0 || band_top_of(height, workers, n - 1) < height,
    ensures
        banded_image_of(width, height, workers, escape, n) == image_of(
            width,
            if band_top_of(height, workers, n) < height {
                band_top_of(height, workers, n)
            } else {
                height
            },
            escape,
        ),
    decreases n,
{
    let p = rows_per_band_of(height, workers);
    assert(p >= 1) by (nonlinear_arith)
        requires
            p == height / workers + 1,
            height >= 1,
            workers >= 1,
    ;
    if n == 0 {
        assert(band_top_of(height, workers, 0) == 0);
        assert(image_of(width, 0, escape) =~= Seq::<u8>::empty());
    } else {
        let k = n - 1;
        let top = band_top_of(height, workers, k);
        assert(top == p * k);
        if k > 0 {
            assert(p * (k - 1) <= p * k) by (nonlinear_arith)
                requires
                    p >= 1,
                    k >= 1,
            ;
        }
        lemma_banded_prefix(width, height, workers, escape, k);
        assert(p * k == top);
        let rows = band_rows_of(height, workers, k);
        let end_row = if band_top_of(height, workers, n) < height {
            band_top_of(height, workers, n)
        } else {
            height
        };
        assert(band_top_of(height, workers, n) == p * k + p) by (nonlinear_arith)
            requires
                band_top_of(height, workers, n) == p * n,
                n == k + 1,
        ;
        assert(end_row == top + rows);
        let before = image_of(width, top, escape);
        let band = band_image_of(width, height, workers, escape, k);
        let whole = image_of(width, end_row, escape);
        assert(top * width + rows * width == end_row * width) by (nonlinear_arith)
            requires
                end_row == top + rows,
        ;
        assert(width * top >= 0 && width * rows >= 0) by (nonlinear_arith)
            requires
                width >= 1,
                top >= 0,
                rows >= 0,
        ;
        assert forall|i: int| 0 <= i < whole.len() implies #[trigger] whole[i] == (before
            + band)[i] by {
            if i < before.len() {
            } else {
                let j = i - width * top;
                lemma_mod_multiples_vanish(top, j, width);
                lemma_hoist_over_denominator(j, top, width as nat);
                assert(width * top + j == j + top * width) by (nonlinear_arith);
            }
        }
        assert(whole =~= before + band);
    }
}

} // verus!
