//! Normalized grayscale intensity histograms of decoded images.
use vstd::prelude::*;
use crate::similarity::{hist_vector, sum, sum_prefix, HIST_SCALE};

verus! {

/// Number of intensity buckets.
pub const BUCKETS: usize = 256;

/// A 256-bucket intensity histogram, each bucket in units of `HIST_SCALE`.
pub struct ImageFeatures {
    pub color_histogram: Vec<u64>,
}

/// Luminance of one RGB pixel, `0.299 R + 0.587 G + 0.114 B`, truncated to
/// an integer bucket and clamped at 255.
pub open spec fn luma(r: u8, g: u8, b: u8) -> int {
    let y = (299 * r + 587 * g + 114 * b) / 1000;
    if y > 255 { 255 } else { y }
}

/// The bucket of pixel `p` of packed RGB samples.
pub open spec fn pixel_bucket(rgb: Seq<u8>, p: int) -> int {
    luma(rgb[3 * p], rgb[3 * p + 1], rgb[3 * p + 2])
}

/// How many of the first `n` pixels fall into bucket `b`.
pub open spec fn bucket_count(rgb: Seq<u8>, b: int, n: int) -> int
    decreases n,
{
    if n <= 0 {
        0
    } else {
        bucket_count(rgb, b, n - 1) + (if pixel_bucket(rgb, n - 1) == b { 1int } else { 0 })
    }
}

/// The normalized histogram of `n` pixels: each bucket's count over `n`,
/// in fixed point and rounded down; all zero when there are no pixels.
pub open spec fn histogram_spec(rgb: Seq<u8>, n: int) -> Seq<u64> {
    Seq::new(
        BUCKETS as nat,
        |b: int|
            if n == 0 {
                0u64
            } else {
                (bucket_count(rgb, b, n) * HIST_SCALE / n) as u64
            },
    )
}

proof fn lemma_bucket_count_bound(rgb: Seq<u8>, b: int, n: int)
    requires
        n >= 0,
    ensures
        0 <= bucket_count(rgb, b, n) <= n,
    decreases n,
{
    if n > 0 {
        lemma_bucket_count_bound(rgb, b, n - 1);
    }
}

/// Luminance of one pixel as a bucket index.
fn luminance(r: u8, g: u8, b: u8) -> (y: usize)
    ensures
        y == luma(r, g, b),
        y < BUCKETS,
{
    let v: u32 = (299 * (r as u32) + 587 * (g as u32) + 114 * (b as u32)) / 1000;
    if v > 255 {
        255
    } else {
        v as usize
    }
}

/// The intensity histogram of packed RGB samples (three bytes per pixel),
/// normalized by the pixel count.
pub fn compute_color_histogram(rgb: &Vec<u8>) -> (r: Vec<u64>)
    requires
        rgb@.len() % 3 == 0,
    ensures
        r@ == histogram_spec(rgb@, rgb@.len() as int / 3),
        hist_vector(r@),
{
    let len: usize = rgb.len();
    let n: usize = len / 3;
    let mut counts: Vec<u64> = Vec::new();
    let mut b: usize = 0;
    while b < BUCKETS
        invariant
            0 <= b <= BUCKETS,
            counts@.len() == b,
            forall|q: int| 0 <= q < b ==> counts@[q] == 0,
        decreases BUCKETS - b,
    {
        counts.push(0);
        b = b + 1;
    }
    let mut p: usize = 0;
    while p < n
        invariant
            n == rgb@.len() / 3,
            len == rgb@.len(),
            rgb@.len() % 3 == 0,
            0 <= p <= n,
            counts@.len() == BUCKETS,
            forall|q: int| 0 <= q < BUCKETS ==> counts@[q] == bucket_count(rgb@, q, p as int),
        decreases n - p,
    {
        assert(3 * p + 3 <= len) by (nonlinear_arith)
            requires
                p < n,
                n == len / 3,
                len % 3 == 0,
        ;
        let y = luminance(rgb[3 * p], rgb[3 * p + 1], rgb[3 * p + 2]);
        proof {
            lemma_bucket_count_bound(rgb@, y as int, p as int);
        }
        let c = counts[y] + 1;
        counts.set(y, c);
        p = p + 1;
        assert forall|q: int| 0 <= q < BUCKETS implies counts@[q] == bucket_count(
            rgb@,
            q,
            p as int,
        ) by {
            assert(pixel_bucket(rgb@, p - 1) == y);
        }
    }
    let mut hist: Vec<u64> = Vec::new();
    let mut q: usize = 0;
    while q < BUCKETS
        invariant
            n == rgb@.len() / 3,
            0 <= q <= BUCKETS,
            counts@.len() == BUCKETS,
            forall|k: int| 0 <= k < BUCKETS ==> counts@[k] == bucket_count(rgb@, k, n as int),
            hist@ == histogram_spec(rgb@, n as int).subrange(0, q as int),
        decreases BUCKETS - q,
    {
        let c = counts[q];
        proof {
            lemma_bucket_count_bound(rgb@, q as int, n as int);
        }
        let v: u64 = if n == 0 {
            0
        } else {
            assert(c * HIST_SCALE <= n * HIST_SCALE) by (nonlinear_arith)
                requires
                    c <= n,
            ;
            assert(c * HIST_SCALE <= u64::MAX * HIST_SCALE) by (nonlinear_arith)
                requires
                    c <= u64::MAX,
            ;
            assert(c * HIST_SCALE / (n as int) <= HIST_SCALE) by (nonlinear_arith)
                requires
                    c <= n,
                    n > 0,
            ;
            ((c as u128) * (HIST_SCALE as u128) / (n as u128)) as u64
        };
        hist.push(v);
        q = q + 1;
        assert(hist@ =~= histogram_spec(rgb@, n as int).subrange(0, q as int));
    }
    assert(hist@ =~= histogram_spec(rgb@, n as int));
    proof {
        assert forall|k: int| 0 <= k < BUCKETS implies hist@[k] <= HIST_SCALE by {
            lemma_bucket_count_bound(rgb@, k, n as int);
            if n > 0 {
                let c = bucket_count(rgb@, k, n as int);
                assert(c * HIST_SCALE / (n as int) <= HIST_SCALE) by (nonlinear_arith)
                    requires
                        0 <= c <= n,
                        n > 0,
                ;
            }
        }
    }
    hist
}

impl ImageFeatures {
    /// Features of a decoded image given as packed RGB samples.
    pub fn from_rgb(rgb: &Vec<u8>) -> (r: ImageFeatures)
        requires
            rgb@.len() % 3 == 0,
        ensures
            r.color_histogram@ == histogram_spec(rgb@, rgb@.len() as int / 3),
            hist_vector(r.color_histogram@),
    {
        ImageFeatures { color_histogram: compute_color_histogram(rgb) }
    }
}

/// Sum over the buckets below `m` of their counts among the first `n` pixels.
pub open spec fn count_sum(rgb: Seq<u8>, m: int, n: int) -> int
    decreases m,
{
    if m <= 0 {
        0
    } else {
        count_sum(rgb, m - 1, n) + bucket_count(rgb, m - 1, n)
    }
}

proof fn lemma_count_sum_step(rgb: Seq<u8>, m: int, n: int)
    requires
        m >= 0,
        n >= 0,
    ensures
        count_sum(rgb, m, n + 1) == count_sum(rgb, m, n) + (if pixel_bucket(rgb, n) < m { 1int } else { 0 }),
    decreases m,
{
    if m > 0 {
        lemma_count_sum_step(rgb, m - 1, n);
    }
}

proof fn lemma_counts_cover_pixels(rgb: Seq<u8>, n: int)
    requires
        n >= 0,
    ensures
        count_sum(rgb, BUCKETS as int, n) == n,
    decreases n,
{
    if n > 0 {
        lemma_counts_cover_pixels(rgb, n - 1);
        lemma_count_sum_step(rgb, BUCKETS as int, n - 1);
        assert(pixel_bucket(rgb, n - 1) < BUCKETS);
    } else {
        lemma_count_sum_zero(rgb, BUCKETS as int);
    }
}

proof fn lemma_count_sum_zero(rgb: Seq<u8>, m: int)
    requires
        m >= 0,
    ensures
        count_sum(rgb, m, 0) == 0,
    decreases m,
{
    if m > 0 {
        lemma_count_sum_zero(rgb, m - 1);
    }
}

proof fn lemma_floor_sum(rgb: Seq<u8>, m: int, n: int)
    requires
        0 <= m <= BUCKETS,
        n > 0,
    ensures
        n * sum_prefix(histogram_spec(rgb, n), m) <= HIST_SCALE * count_sum(rgb, m, n),
        n * sum_prefix(histogram_spec(rgb, n), m) > HIST_SCALE * count_sum(rgb, m, n) - m * n
            || m == 0,
    decreases m,
{
    if m > 0 {
        lemma_floor_sum(rgb, m - 1, n);
        let h = histogram_spec(rgb, n);
        let c = bucket_count(rgb, m - 1, n);
        lemma_bucket_count_bound(rgb, m - 1, n);
        let q = c * HIST_SCALE / n;
        assert(q <= HIST_SCALE) by (nonlinear_arith)
            requires
                0 <= c <= n,
                n > 0,
                q == c * HIST_SCALE / n,
        ;
        assert(h[m - 1] == q);
        assert(n * q <= c * HIST_SCALE && c * HIST_SCALE < n * q + n) by (nonlinear_arith)
            requires
                n > 0,
                c >= 0,
                q == c * HIST_SCALE / n,
        ;
        let f = sum_prefix(h, m - 1);
        let cs = count_sum(rgb, m - 1, n);
        assert(n * (f + q) == n * f + n * q) by (nonlinear_arith);
        assert(HIST_SCALE * (cs + c) == HIST_SCALE * cs + HIST_SCALE * c) by (nonlinear_arith);
        assert(m * n == (m - 1) * n + n) by (nonlinear_arith);
    }
}

/// The normalized histogram of at least one pixel sums to one (`HIST_SCALE`)
/// within 1e-9: short of it only by the rounding of each bucket, at most
/// one unit each.
pub proof fn lemma_histogram_mass(rgb: Seq<u8>, n: int)
    requires
        n > 0,
    ensures
        HIST_SCALE - BUCKETS < sum(histogram_spec(rgb, n)) <= HIST_SCALE,
        (HIST_SCALE - sum(histogram_spec(rgb, n))) * 1_000_000_000 <= HIST_SCALE,
{
    lemma_floor_sum(rgb, BUCKETS as int, n);
    lemma_counts_cover_pixels(rgb, n);
    let t = sum(histogram_spec(rgb, n));
    assert(t <= HIST_SCALE) by (nonlinear_arith)
        requires
            n * t <= HIST_SCALE * n,
            n > 0,
    ;
    assert(t > HIST_SCALE - BUCKETS) by (nonlinear_arith)
        requires
            n * t > HIST_SCALE * n - 256 * n,
            n > 0,
            BUCKETS == 256,
    ;
}

} // verus!
