//! Fixed-point similarity measures: cosine similarity of term-frequency
//! vectors and histogram intersection of intensity histograms.
use vstd::prelude::*;

verus! {

/// The fixed-point unit: a stored value `x` stands for the real number `x / SCALE`.
pub const SCALE: u64 = 1_000_000;

/// The largest dimension a feature vector may have, so that sums of
/// products of components stay within 64 bits.
pub const MAX_DIM: usize = 1_048_576;

/// The fixed-point unit of histogram bins, finer than `SCALE` so that a
/// histogram's bins sum to one within 1e-9.
pub const HIST_SCALE: u64 = 1_000_000_000_000;

/// `HIST_SCALE / SCALE`.
pub const SCALE_RATIO: u64 = 1_000_000;

/// A vector of at most `MAX_DIM` components, each at most `bound`.
pub open spec fn bounded_by(v: Seq<u64>, bound: int) -> bool {
    &&& v.len() <= MAX_DIM
    &&& forall|i: int| 0 <= i < v.len() ==> v[i] <= bound
}

/// A feature vector whose components lie in `[0, 1]`, in units of `SCALE`.
pub open spec fn unit_vector(v: Seq<u64>) -> bool {
    bounded_by(v, SCALE as int)
}

/// A histogram whose bins lie in `[0, 1]`, in units of `HIST_SCALE`.
pub open spec fn hist_vector(v: Seq<u64>) -> bool {
    bounded_by(v, HIST_SCALE as int)
}

/// Sum of `a[i] * b[i]` over the first `n` indices.
pub open spec fn dot_prefix(a: Seq<u64>, b: Seq<u64>, n: int) -> int
    decreases n,
{
    if n <= 0 {
        0
    } else {
        dot_prefix(a, b, n - 1) + a[n - 1] * b[n - 1]
    }
}

pub open spec fn dot(a: Seq<u64>, b: Seq<u64>) -> int {
    dot_prefix(a, b, a.len() as int)
}

pub open spec fn norm_sq(a: Seq<u64>) -> int {
    dot(a, a)
}

/// Integer square root: the largest `r` with `r * r <= n`.
pub open spec fn isqrt_spec(n: nat) -> nat
    decreases n,
{
    if n == 0 {
        0
    } else {
        let r = isqrt_spec((n - 1) as nat);
        if (r + 1) * (r + 1) <= n {
            r + 1
        } else {
            r
        }
    }
}

/// Cosine similarity in fixed point: `SCALE * dot(a, b) / sqrt(|a|^2 |b|^2)`,
/// the root rounded down, and zero whenever either vector is zero.
pub open spec fn cosine_spec(a: Seq<u64>, b: Seq<u64>) -> int {
    let na = norm_sq(a);
    let nb = norm_sq(b);
    if na == 0 || nb == 0 {
        0
    } else {
        (SCALE * dot(a, b)) / (isqrt_spec((na * nb) as nat) as int)
    }
}

/// Sum of `min(a[i], b[i])` over the first `n` indices.
pub open spec fn min_sum_prefix(a: Seq<u64>, b: Seq<u64>, n: int) -> int
    decreases n,
{
    if n <= 0 {
        0
    } else {
        let x = a[n - 1];
        let y = b[n - 1];
        min_sum_prefix(a, b, n - 1) + (if x <= y { x } else { y })
    }
}

/// Histogram intersection: the sum of elementwise minimums.
pub open spec fn intersection_spec(a: Seq<u64>, b: Seq<u64>) -> int {
    min_sum_prefix(a, b, a.len() as int)
}

/// Sum of the first `n` components.
pub open spec fn sum_prefix(a: Seq<u64>, n: int) -> int
    decreases n,
{
    if n <= 0 {
        0
    } else {
        sum_prefix(a, n - 1) + a[n - 1]
    }
}

pub open spec fn sum(a: Seq<u64>) -> int {
    sum_prefix(a, a.len() as int)
}

proof fn lemma_dot_prefix_bounds(a: Seq<u64>, b: Seq<u64>, n: int)
    requires
        unit_vector(a),
        unit_vector(b),
        0 <= n <= a.len(),
        n <= b.len(),
    ensures
        0 <= dot_prefix(a, b, n) <= n * (SCALE * SCALE),
    decreases n,
{
    if n > 0 {
        lemma_dot_prefix_bounds(a, b, n - 1);
        let x = a[n - 1];
        let y = b[n - 1];
        assert(0 <= x * y <= SCALE * SCALE) by (nonlinear_arith)
            requires
                x <= SCALE,
                y <= SCALE,
        ;
        assert((n - 1) * (SCALE * SCALE) + SCALE * SCALE == n * (SCALE * SCALE)) by (nonlinear_arith);
    }
}

proof fn lemma_min_sum_prefix_bounds(a: Seq<u64>, b: Seq<u64>, n: int)
    requires
        hist_vector(a),
        0 <= n <= a.len(),
        n <= b.len(),
    ensures
        0 <= min_sum_prefix(a, b, n) <= n * HIST_SCALE,
    decreases n,
{
    if n > 0 {
        lemma_min_sum_prefix_bounds(a, b, n - 1);
    }
}

proof fn lemma_isqrt_spec(n: nat)
    ensures
        isqrt_spec(n) * isqrt_spec(n) <= n,
        n < (isqrt_spec(n) + 1) * (isqrt_spec(n) + 1),
    decreases n,
{
    if n > 0 {
        lemma_isqrt_spec((n - 1) as nat);
        let r = isqrt_spec((n - 1) as nat);
        if (r + 1) * (r + 1) <= n {
            assert(isqrt_spec(n) == r + 1);
            assert(n < (r + 2) * (r + 2)) by (nonlinear_arith)
                requires
                    n - 1 < (r + 1) * (r + 1),
            ;
            assert(((r + 1) + 1) * ((r + 1) + 1) == (r + 2) * (r + 2));
            let s = isqrt_spec(n);
            assert(s * s <= n && n < (s + 1) * (s + 1));
        } else {
            assert(isqrt_spec(n) == r);
            let s = isqrt_spec(n);
            assert(s * s <= n && n < (s + 1) * (s + 1));
        }
    } else {
        assert(isqrt_spec(0) == 0);
        assert(0 * 0 == 0 && (0 + 1) * (0 + 1) == 1) by (nonlinear_arith);
    }
}

proof fn lemma_isqrt_unique(n: nat, r: nat)
    requires
        r * r <= n,
        n < (r + 1) * (r + 1),
    ensures
        isqrt_spec(n) == r,
{
    lemma_isqrt_spec(n);
    let s = isqrt_spec(n);
    if s < r {
        assert((s + 1) * (s + 1) <= r * r) by (nonlinear_arith)
            requires
                s + 1 <= r,
        ;
    } else if r < s {
        assert((r + 1) * (r + 1) <= s * s) by (nonlinear_arith)
            requires
                r + 1 <= s,
        ;
    }
}

/// The square root of a square is exact.
pub proof fn lemma_isqrt_of_square(x: nat)
    ensures
        isqrt_spec(x * x) == x,
{
    assert(x * x < (x + 1) * (x + 1)) by (nonlinear_arith);
    lemma_isqrt_unique(x * x, x);
}

/// Integer square root of a 128-bit number, rounded down.
pub fn isqrt(n: u128) -> (r: u64)
    ensures
        r as nat == isqrt_spec(n as nat),
{
    let mut lo: u128 = 0;
    let mut hi: u128 = 0x1_0000_0000_0000_0000;
    assert(n < hi * hi) by (nonlinear_arith)
        requires
            n <= u128::MAX,
            hi == 0x1_0000_0000_0000_0000u128,
    ;
    while hi - lo > 1
        invariant
            lo < hi <= 0x1_0000_0000_0000_0000u128,
            lo * lo <= n,
            n < hi * hi,
        decreases hi - lo,
    {
        let mid: u128 = lo + (hi - lo) / 2;
        assert(mid * mid <= u128::MAX) by (nonlinear_arith)
            requires
                mid < 0x1_0000_0000_0000_0000u128,
        ;
        if mid * mid <= n {
            lo = mid;
        } else {
            hi = mid;
        }
    }
    assert(hi == lo + 1);
    proof {
        lemma_isqrt_unique(n as nat, lo as nat);
    }
    lo as u64
}

/// Dot product of two vectors of equal length.
pub fn dot_product(a: &Vec<u64>, b: &Vec<u64>) -> (r: u64)
    requires
        unit_vector(a@),
        unit_vector(b@),
        a@.len() == b@.len(),
    ensures
        r == dot(a@, b@),
{
    let mut acc: u64 = 0;
    let mut i: usize = 0;
    while i < a.len()
        invariant
            unit_vector(a@),
            unit_vector(b@),
            a@.len() == b@.len(),
            0 <= i <= a@.len(),
            acc == dot_prefix(a@, b@, i as int),
        decreases a@.len() - i,
    {
        proof {
            lemma_dot_prefix_bounds(a@, b@, i + 1);
            assert((i + 1) * (SCALE * SCALE) <= MAX_DIM * (SCALE * SCALE)) by (nonlinear_arith)
                requires
                    i + 1 <= MAX_DIM,
            ;
        }
        acc = acc + a[i] * b[i];
        i = i + 1;
    }
    acc
}

/// Cosine similarity of two equal-length vectors, in fixed point.
/// It is zero when either vector is all zeros.
pub fn cosine_similarity(a: &Vec<u64>, b: &Vec<u64>) -> (r: u128)
    requires
        unit_vector(a@),
        unit_vector(b@),
        a@.len() == b@.len(),
    ensures
        r == cosine_spec(a@, b@),
        r <= SCALE * u64::MAX,
{
    let d = dot_product(a, b);
    let na = dot_product(a, a);
    let nb = dot_product(b, b);
    if na == 0 || nb == 0 {
        0
    } else {
        assert((na as u128) * (nb as u128) <= u128::MAX && 1 <= (na as u128) * (nb as u128))
            by (nonlinear_arith)
            requires
                1 <= na <= u64::MAX,
                1 <= nb <= u64::MAX,
        ;
        let prod: u128 = (na as u128) * (nb as u128);
        let root = isqrt(prod);
        proof {
            lemma_isqrt_spec(prod as nat);
            if root == 0 {
                assert((0 + 1) * (0 + 1) == 1) by (nonlinear_arith);
                assert(false);
            }
        }
        assert((SCALE * d) / (root as int) <= SCALE * u64::MAX) by (nonlinear_arith)
            requires
                root >= 1,
                d <= u64::MAX,
        ;
        (SCALE as u128) * (d as u128) / (root as u128)
    }
}

/// Histogram intersection of two equal-length histograms: the sum of
/// elementwise minimums.
pub fn histogram_similarity(a: &Vec<u64>, b: &Vec<u64>) -> (r: u64)
    requires
        hist_vector(a@),
        a@.len() == b@.len(),
    ensures
        r == intersection_spec(a@, b@),
{
    let mut acc: u64 = 0;
    let mut i: usize = 0;
    while i < a.len()
        invariant
            hist_vector(a@),
            a@.len() == b@.len(),
            0 <= i <= a@.len(),
            acc == min_sum_prefix(a@, b@, i as int),
        decreases a@.len() - i,
    {
        proof {
            lemma_min_sum_prefix_bounds(a@, b@, i + 1);
        }
        let m = if a[i] <= b[i] { a[i] } else { b[i] };
        acc = acc + m;
        i = i + 1;
    }
    acc
}

proof fn lemma_self_intersection(h: Seq<u64>, n: int)
    requires
        0 <= n <= h.len(),
    ensures
        min_sum_prefix(h, h, n) == sum_prefix(h, n),
    decreases n,
{
    if n > 0 {
        lemma_self_intersection(h, n - 1);
    }
}

/// A nonzero vector has cosine similarity exactly one (`SCALE`) with itself.
pub proof fn lemma_cosine_self(v: Seq<u64>)
    requires
        norm_sq(v) != 0,
    ensures
        cosine_spec(v, v) == SCALE,
{
    let n = norm_sq(v);
    assert(n >= 0) by {
        lemma_norm_nonneg(v, v.len() as int);
    }
    lemma_isqrt_of_square(n as nat);
    assert((SCALE * n) / n == SCALE) by (nonlinear_arith)
        requires
            n > 0,
    ;
}

proof fn lemma_norm_nonneg(v: Seq<u64>, k: int)
    requires
        0 <= k <= v.len(),
    ensures
        dot_prefix(v, v, k) >= 0,
    decreases k,
{
    if k > 0 {
        lemma_norm_nonneg(v, k - 1);
        assert(v[k - 1] * v[k - 1] >= 0) by (nonlinear_arith);
    }
}

/// Any vector has cosine similarity zero with an all-zero vector, in either order.
pub proof fn lemma_cosine_zero(v: Seq<u64>, z: Seq<u64>)
    requires
        forall|i: int| 0 <= i < z.len() ==> z[i] == 0,
    ensures
        cosine_spec(v, z) == 0,
        cosine_spec(z, v) == 0,
{
    lemma_zero_norm(z, z.len() as int);
}

proof fn lemma_zero_norm(z: Seq<u64>, k: int)
    requires
        0 <= k <= z.len(),
        forall|i: int| 0 <= i < z.len() ==> z[i] == 0,
    ensures
        dot_prefix(z, z, k) == 0,
    decreases k,
{
    if k > 0 {
        lemma_zero_norm(z, k - 1);
    }
}

/// The intersection of a histogram with itself is its total mass; for a
/// histogram whose bins sum to one (`HIST_SCALE`) it is exactly one.
pub proof fn lemma_intersection_self(h: Seq<u64>)
    ensures
        intersection_spec(h, h) == sum(h),
        sum(h) == HIST_SCALE ==> intersection_spec(h, h) == HIST_SCALE,
{
    lemma_self_intersection(h, h.len() as int);
}

} // verus!
