//! Partitioning an image into horizontal bands of whole rows, one per worker.
use vstd::prelude::*;
use vstd::arithmetic::div_mod::lemma_fundamental_div_mod;

verus! {

/// Image dimensions the renderer accepts: at least one pixel each way, and a
/// pixel count that a buffer in memory can hold.
pub open spec fn valid_bounds(width: int, height: int) -> bool {
    &&& width >= 1
    &&& height >= 1
    &&& width * height <= isize::MAX
}

/// Whether an image of `width` by `height` pixels satisfies `valid_bounds`.
pub fn bounds_fit(width: usize, height: usize) -> (r: bool)
    ensures
        r == valid_bounds(width as int, height as int),
{
    if width == 0 || height == 0 {
        return false;
    }
    let limit = isize::MAX as usize;
    let r = width <= limit / height;
    proof {
        let m = limit as int;
        let h = height as int;
        let q = m / h;
        lemma_fundamental_div_mod(m, h);
        assert(r == (width * height <= limit)) by (nonlinear_arith)
            requires
                r == (width <= q),
                m == h * q + m % h,
                0 <= m % h,
                m % h < h,
                h == height,
                m == limit,
                h >= 1,
        ;
    }
    r
}

/// Rows in every band but possibly the last. The extra row covers the rows
/// left over by the integer division and keeps bands non-empty when there
/// are more workers than rows.
pub open spec fn rows_per_band_of(height: int, workers: int) -> int {
    height / workers + 1
}

/// Number of bands: enough bands of `rows_per_band_of` rows to reach `height`.
pub open spec fn band_count_of(height: int, workers: int) -> int {
    let per = rows_per_band_of(height, workers);
    (height + per - 1) / per
}

/// First row of band `k`.
pub open spec fn band_top_of(height: int, workers: int, k: int) -> int {
    rows_per_band_of(height, workers) * k
}

/// Rows of band `k`: a full band, or what is left of the image.
pub open spec fn band_rows_of(height: int, workers: int, k: int) -> int {
    let per = rows_per_band_of(height, workers);
    let left = height - band_top_of(height, workers, k);
    if left < per {
        left
    } else {
        per
    }
}

/// Index in the pixel buffer at which band `k` starts.
pub open spec fn band_start_of(width: int, height: int, workers: int, k: int) -> int {
    band_top_of(height, workers, k) * width
}

/// Index in the pixel buffer one past the end of band `k`.
pub open spec fn band_end_of(width: int, height: int, workers: int, k: int) -> int {
    (band_top_of(height, workers, k) + band_rows_of(height, workers, k)) * width
}

/// Length of the buffer chunk handed to each band but possibly the last.
pub open spec fn chunk_len_of(width: int, height: int, workers: int) -> int {
    rows_per_band_of(height, workers) * width
}

/// One band: a run of whole image rows starting at row `top`.
#[derive(Clone, Copy, Debug, PartialEq, Eq)]
pub struct Band {
    pub top: usize,
    pub rows: usize,
}

impl Band {
    /// Pixel (column, row) of the band's upper-left corner in the whole image.
    pub fn upper_left_pixel(&self) -> (r: (usize, usize))
        ensures
            r == (0usize, self.top),
    {
        (0, self.top)
    }

    /// Pixel (column, row) just past the band's lower-right corner in the
    /// whole image: the band's viewport is the one spanned by these two pixels.
    pub fn lower_right_pixel(&self, width: usize) -> (r: (usize, usize))
        requires
            self.top + self.rows <= usize::MAX,
        ensures
            r == (width, (self.top + self.rows) as usize),
    {
        (width, self.top + self.rows)
    }
}

/// Rows per band for an image `height` rows high split among `workers`.
pub fn rows_per_band(height: usize, workers: usize) -> (r: usize)
    requires
        workers >= 1,
        height < usize::MAX,
    ensures
        r == rows_per_band_of(height as int, workers as int),
        r >= 1,
{
    height / workers + 1
}

proof fn lemma_rows_per_band_bounds(height: int, workers: int)
    requires
        height >= 1,
        workers >= 1,
    ensures
        1 <= rows_per_band_of(height, workers) <= height + 1,
{
    assert(height / workers <= height) by (nonlinear_arith)
        requires
            height >= 1,
            workers >= 1,
    ;
}

/// The bands are counted by the first multiple of `per` that reaches `height`.
proof fn lemma_band_count(height: int, per: int, k: int)
    requires
        per >= 1,
        height >= 1,
        per * (k - 1) < height <= per * k,
    ensures
        (height + per - 1) / per == k,
{
    let q = (height + per - 1) / per;
    let r = (height + per - 1) % per;
    lemma_fundamental_div_mod(height + per - 1, per);
    assert(0 <= r < per);
    assert(q == k) by (nonlinear_arith)
        requires
            height + per - 1 == per * q + r,
            0 <= r < per,
            per * (k - 1) < height <= per * k,
            per >= 1,
    ;
}

/// Index one past the end of the `k`-th chunk of `chunk_len_of` pixels: chunks
/// are consecutive and the last one is cut short at the end of the buffer.
pub open spec fn chunk_end_of(width: int, height: int, workers: int, k: int) -> int {
    let c = chunk_len_of(width, height, workers);
    if (k + 1) * c <= width * height {
        (k + 1) * c
    } else {
        width * height
    }
}

/// Band `k` covers the `k`-th chunk of `chunk_len_of` pixels, cut short at the
/// end of the buffer.
proof fn lemma_band_is_chunk(w: int, h: int, wk: int, j: int)
    requires
        valid_bounds(w, h),
        wk >= 1,
        0 <= j,
        band_top_of(h, wk, j) < h,
    ensures
        band_start_of(w, h, wk, j) == j * chunk_len_of(w, h, wk),
        band_end_of(w, h, wk, j) == chunk_end_of(w, h, wk, j),
{
    let p = rows_per_band_of(h, wk);
    lemma_rows_per_band_bounds(h, wk);
    assert(band_start_of(w, h, wk, j) == j * (p * w)) by (nonlinear_arith)
        requires
            band_start_of(w, h, wk, j) == (p * j) * w,
    ;
    let end_row = band_top_of(h, wk, j) + band_rows_of(h, wk, j);
    if p * (j + 1) <= h {
        assert(end_row == p * (j + 1)) by (nonlinear_arith)
            requires
                end_row == p * j + (if h - p * j < p { h - p * j } else { p }),
                p * (j + 1) <= h,
        ;
        assert(end_row * w == (j + 1) * (p * w)) by (nonlinear_arith)
            requires
                end_row == p * (j + 1),
        ;
        assert((j + 1) * (p * w) <= w * h) by (nonlinear_arith)
            requires
                p * (j + 1) <= h,
                w >= 1,
        ;
    } else {
        assert(end_row == h) by (nonlinear_arith)
            requires
                end_row == p * j + (if h - p * j < p { h - p * j } else { p }),
                p * (j + 1) > h,
        ;
        assert((j + 1) * (p * w) > w * h) by (nonlinear_arith)
            requires
                p * (j + 1) > h,
                w >= 1,
        ;
        assert(end_row * w == w * h) by (nonlinear_arith)
            requires
                end_row == h,
        ;
    }
}

/// Length of the buffer chunk of each band but possibly the last: `rows_per_band` whole rows.
pub fn chunk_len(width: usize, height: usize, workers: usize) -> (r: usize)
    requires
        valid_bounds(width as int, height as int),
        workers >= 1,
    ensures
        r == chunk_len_of(width as int, height as int, workers as int),
        r >= width,
{
    proof {
        lemma_rows_per_band_bounds(height as int, workers as int);
        assert(height <= width * height) by (nonlinear_arith)
            requires
                width >= 1,
                height >= 1,
        ;
        let per = rows_per_band_of(height as int, workers as int);
        assert(per * width <= (height + 1) * width) by (nonlinear_arith)
            requires
                per <= height + 1,
                width >= 1,
        ;
        assert((height + 1) * width == height * width + width) by (nonlinear_arith);
        assert(width <= width * height) by (nonlinear_arith)
            requires
                width >= 1,
                height >= 1,
        ;
        assert(per * width >= width) by (nonlinear_arith)
            requires
                per >= 1,
                width >= 1,
        ;
    }
    rows_per_band(height, workers) * width
}

/// The bands of an image `width` by `height` split among `workers`, top to
/// bottom. Band `k` starts at row `rows_per_band * k` and has
/// `rows_per_band` rows, the last one only what is left. Band `k` is the `k`-th
/// chunk of `chunk_len` pixels of the row-major buffer.
pub fn plan_bands(width: usize, height: usize, workers: usize) -> (r: Vec<Band>)
    requires
        valid_bounds(width as int, height as int),
        workers >= 1,
    ensures
        r@.len() == band_count_of(height as int, workers as int),
        forall|k: int|
            0 <= k < r@.len() ==> {
                &&& (#[trigger] r@[k]).top == band_top_of(height as int, workers as int, k)
                &&& r@[k].rows == band_rows_of(height as int, workers as int, k)
            },
        forall|k: int|
            0 <= k < r@.len() ==> #[trigger] band_start_of(
                width as int,
                height as int,
                workers as int,
                k,
            ) == k * chunk_len_of(width as int, height as int, workers as int),
        forall|k: int|
            0 <= k < r@.len() ==> #[trigger] band_end_of(width as int, height as int, workers as int, k)
                == chunk_end_of(width as int, height as int, workers as int, k),
{
    proof {
        lemma_rows_per_band_bounds(height as int, workers as int);
        assert(height <= width * height) by (nonlinear_arith)
            requires
                width >= 1,
                height >= 1,
        ;
    }
    let per = rows_per_band(height, workers);
    let ghost h = height as int;
    let ghost wk = workers as int;
    let mut bands: Vec<Band> = Vec::new();
    let mut top: usize = 0;
    let mut k: usize = 0;
    while top < height
        invariant
            per == rows_per_band_of(h, wk),
            1 <= per <= h + 1,
            h == height,
            wk == workers,
            h <= isize::MAX,
            bands@.len() == k,
            top == per * k,
            k <= top,
            top - per < h,
            forall|j: int|
                0 <= j < k ==> {
                    &&& (#[trigger] bands@[j]).top == band_top_of(h, wk, j)
                    &&& bands@[j].rows == band_rows_of(h, wk, j)
                },
        decreases height - k,
    {
        let left = height - top;
        let rows = if left < per {
            left
        } else {
            per
        };
        bands.push(Band { top, rows });
        proof {
            assert(per * (k + 1) == per * k + per) by (nonlinear_arith);
            assert(top + per <= usize::MAX) by (nonlinear_arith)
                requires
                    top < h,
                    per <= h + 1,
                    h <= isize::MAX,
            ;
        }
        top = top + per;
        k = k + 1;
    }
    proof {
        assert(per * (k - 1) == per * k - per) by (nonlinear_arith);
        lemma_band_count(h, per as int, k as int);
        assert forall|j: int|
            #![trigger band_start_of(width as int, height as int, workers as int, j)]
            #![trigger band_end_of(width as int, height as int, workers as int, j)]
            0 <= j < bands@.len() implies {
            &&& band_start_of(width as int, height as int, workers as int, j) == j
                * chunk_len_of(width as int, height as int, workers as int)
            &&& band_end_of(width as int, height as int, workers as int, j) == chunk_end_of(
                width as int,
                height as int,
                workers as int,
                j,
            )
        } by {
            assert(per * j <= per * (k - 1)) by (nonlinear_arith)
                requires
                    j <= k - 1,
                    per >= 1,
            ;
            lemma_band_is_chunk(width as int, height as int, workers as int, j);
        }
    }
    bands
}

/// Workers for `cpus` available CPUs: four per CPU, at least one, and no more
/// than a `usize` holds.
pub open spec fn workers_of(cpus: int) -> int {
    if cpus == 0 {
        1
    } else if 4 * cpus > usize::MAX {
        usize::MAX as int
    } else {
        4 * cpus
    }
}

/// Relies on num_cpus::get: the number of logical CPUs this process may run on.
/// Its value depends on the machine, so nothing is promised of it.
#[verifier::external_body]
fn available_cpus() -> (r: usize) {
    num_cpus::get()
}

/// Number of band workers for a machine with `cpus` available CPUs.
pub fn workers_for(cpus: usize) -> (r: usize)
    ensures
        r == workers_of(cpus as int),
        r >= 1,
{
    if cpus == 0 {
        1
    } else if cpus > usize::MAX / 4 {
        usize::MAX
    } else {
        4 * cpus
    }
}

/// Number of band workers for this machine; never zero.
pub fn worker_count() -> (r: usize)
    ensures
        r >= 1,
{
    workers_for(available_cpus())
}

/// A band index is in the plan exactly when the band starts inside the image.
pub(crate) proof fn lemma_band_in_plan(h: int, wk: int, j: int)
    requires
        h >= 1,
        wk >= 1,
        j >= 0,
    ensures
        j < band_count_of(h, wk) <==> band_top_of(h, wk, j) < h,
{
    let p = rows_per_band_of(h, wk);
    lemma_rows_per_band_bounds(h, wk);
    let q = (h + p - 1) / p;
    let r = (h + p - 1) % p;
    lemma_fundamental_div_mod(h + p - 1, p);
    assert(j < q <==> p * j < h) by (nonlinear_arith)
        requires
            h + p - 1 == p * q + r,
            0 <= r < p,
            p >= 1,
            j >= 0,
    ;
}

/// Every pixel index of the image lies in exactly one band of the plan: the
/// one whose chunk of the buffer holds it. Rendering every band therefore
/// writes every pixel once and no pixel twice.
pub proof fn lemma_pixel_in_one_band(width: int, height: int, workers: int, i: int)
    requires
        valid_bounds(width, height),
        workers >= 1,
        0 <= i < width * height,
    ensures
        ({
            let k = i / chunk_len_of(width, height, workers);
            &&& 0 <= k < band_count_of(height, workers)
            &&& band_start_of(width, height, workers, k) <= i < band_end_of(
                width,
                height,
                workers,
                k,
            )
        }),
        forall|j: int|
            0 <= j < band_count_of(height, workers) && band_start_of(width, height, workers, j)
                <= i < #[trigger] band_end_of(width, height, workers, j) ==> j == i
                / chunk_len_of(width, height, workers),
{
    let p = rows_per_band_of(height, workers);
    lemma_rows_per_band_bounds(height, workers);
    let c = chunk_len_of(width, height, workers);
    assert(c >= 1) by (nonlinear_arith)
        requires
            c == p * width,
            p >= 1,
            width >= 1,
    ;
    let k = i / c;
    lemma_fundamental_div_mod(i, c);
    assert(0 <= k) by (nonlinear_arith)
        requires
            i >= 0,
            c >= 1,
            k == i / c,
    ;
    assert(p * k < height) by (nonlinear_arith)
        requires
            i == c * k + i % c,
            0 <= i % c,
            c == p * width,
            i < width * height,
            width >= 1,
    ;
    lemma_band_in_plan(height, workers, k);
    lemma_band_is_chunk(width, height, workers, k);
    assert(k * c <= i < (k + 1) * c) by (nonlinear_arith)
        requires
            i == c * k + i % c,
            0 <= i % c < c,
    ;
    assert forall|j: int|
        0 <= j < band_count_of(height, workers) && band_start_of(width, height, workers, j) <= i
            < #[trigger] band_end_of(width, height, workers, j) implies j == k by {
        lemma_band_in_plan(height, workers, j);
        lemma_band_is_chunk(width, height, workers, j);
        assert(j * c <= i < (j + 1) * c);
        assert(j == k) by (nonlinear_arith)
            requires
                j * c <= i < (j + 1) * c,
                k * c <= i < (k + 1) * c,
                c >= 1,
        ;
    }
}

} // verus!
