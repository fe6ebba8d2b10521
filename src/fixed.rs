//! Fixed-point scalars: an `i64` counts units of `1 / ONE`.
use vstd::arithmetic::div_mod::lemma_fundamental_div_mod_converse;
use vstd::prelude::*;

verus! {

/// The fixed-point representation of 1.0.
pub const ONE: i64 = 65536;

/// Inputs to `isqrt` stay below 2^124.
pub const SQRT_INPUT_LIMIT: i128 = 21267647932558653966460912964485513216;

/// Fixed-point product of two fixed-point values, rounded down.
pub open spec fn fmul(a: int, b: int) -> int {
    (a * b) / (ONE as int)
}

/// `r` is the integer square root of `n`, rounded down.
pub open spec fn is_floor_sqrt(n: int, r: int) -> bool {
    0 <= r && r * r <= n && n < (r + 1) * (r + 1)
}

/// The integer square root of `n`, rounded down (zero for negative `n`).
pub open spec fn floor_sqrt(n: int) -> int {
    if n < 0 {
        0
    } else {
        choose|r: int| is_floor_sqrt(n, r)
    }
}

proof fn lemma_floor_sqrt_unique(n: int, r1: int, r2: int)
    requires
        is_floor_sqrt(n, r1),
        is_floor_sqrt(n, r2),
    ensures
        r1 == r2,
{
    if r1 < r2 {
        assert((r1 + 1) * (r1 + 1) <= r2 * r2) by (nonlinear_arith)
            requires
                0 <= r1 < r2,
        ;
    } else if r2 < r1 {
        assert((r2 + 1) * (r2 + 1) <= r1 * r1) by (nonlinear_arith)
            requires
                0 <= r2 < r1,
        ;
    }
}

/// Any witness of `is_floor_sqrt` is the value of `floor_sqrt`.
pub proof fn lemma_floor_sqrt_is(n: int, r: int)
    requires
        is_floor_sqrt(n, r),
    ensures
        floor_sqrt(n) == r,
{
    let c = choose|c: int| is_floor_sqrt(n, c);
    lemma_floor_sqrt_unique(n, r, c);
}

/// `floor_sqrt` of a non-negative value is its integer square root.
pub proof fn lemma_isqrt_spec(n: int)
    requires
        0 <= n,
    ensures
        is_floor_sqrt(n, floor_sqrt(n)),
{
    lemma_isqrt_exists(n);
}

/// A value bounded in magnitude by `m` is bounded by the square root of anything above `m * m`.
pub proof fn lemma_floor_sqrt_dominates(n: int, m: int)
    requires
        0 <= m,
        m * m <= n,
    ensures
        m <= floor_sqrt(n),
        0 <= floor_sqrt(n),
{
    let r = choose|r: int| is_floor_sqrt(n, r);
    assert(exists|r: int| is_floor_sqrt(n, r)) by {
        lemma_isqrt_exists(n);
    }
    if r < m {
        assert((r + 1) * (r + 1) <= m * m) by (nonlinear_arith)
            requires
                0 <= r < m,
        ;
    }
}

proof fn lemma_isqrt_exists(n: int)
    requires
        0 <= n,
    ensures
        exists|r: int| is_floor_sqrt(n, r),
    decreases n,
{
    if n == 0 {
        assert(is_floor_sqrt(0, 0));
    } else {
        let m: int = n - 1;
        lemma_isqrt_exists(m);
        let r = choose|r: int| is_floor_sqrt(m, r);
        if n < (r + 1) * (r + 1) {
            assert(is_floor_sqrt(n, r));
        } else {
            assert(n < (r + 2) * (r + 2)) by (nonlinear_arith)
                requires
                    n - 1 < (r + 1) * (r + 1),
                    0 <= r,
            ;
            assert(is_floor_sqrt(n, r + 1));
        }
    }
}

/// Integer square root, rounded down, by bisection.
pub fn isqrt(n: i128) -> (r: i128)
    requires
        0 <= n < SQRT_INPUT_LIMIT,
    ensures
        is_floor_sqrt(n as int, r as int),
        r == floor_sqrt(n as int),
        r <= 4611686018427387904,
{
    let mut lo: i128 = 0;
    let mut hi: i128 = 4611686018427387904;
    assert(hi * hi == SQRT_INPUT_LIMIT);
    while hi - lo > 1
        invariant
            0 <= lo < hi <= 4611686018427387904,
            lo * lo <= n,
            n < hi * hi,
        decreases hi - lo,
    {
        let mid: i128 = lo + (hi - lo) / 2;
        assert(mid * mid <= 4611686018427387904 * 4611686018427387904) by (nonlinear_arith)
            requires
                0 <= mid <= 4611686018427387904,
        ;
        if mid * mid <= n {
            lo = mid;
        } else {
            hi = mid;
        }
    }
    assert(hi == lo + 1);
    proof {
        lemma_floor_sqrt_is(n as int, lo as int);
    }
    lo
}

/// Division rounded toward negative infinity.
pub fn div_floor(n: i128, d: i128) -> (r: i128)
    requires
        d > 0,
        n > i128::MIN,
    ensures
        r == n / d,
{
    if n >= 0 {
        n / d
    } else {
        let q: i128 = (-n - 1) / d;
        proof {
            let m: int = -n - 1;
            let rem: int = m % (d as int);
            assert(m == q * d + rem) by {
                vstd::arithmetic::div_mod::lemma_fundamental_div_mod(m, d as int);
            }
            assert(0 <= rem < d) by {
                vstd::arithmetic::div_mod::lemma_mod_bound(m, d as int);
            }
            assert(n == (-q - 1) * d + (d - rem - 1)) by (nonlinear_arith)
                requires
                    m == q * d + rem,
                    m == -n - 1,
            ;
            lemma_fundamental_div_mod_converse(n as int, d as int, -q - 1, d - rem - 1);
        }
        -q - 1
    }
}

} // verus!
