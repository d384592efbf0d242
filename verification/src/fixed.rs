//! Fixed-point scalars.
//!
//! A world-space quantity `v` is carried as the integer `v * SCALE`,
//! rounded toward minus infinity.  All operations here have contracts
//! that pin the result down exactly in terms of mathematical integers.

use vstd::arithmetic::div_mod::{
    lemma_fundamental_div_mod, lemma_fundamental_div_mod_converse_div,
};
use vstd::prelude::*;

verus! {

/// Number of fractional steps per world unit.
pub const SCALE: i64 = 4096;

/// Floor division extended to an arbitrary divisor sign: rounds toward
/// minus infinity, matching `/` on `int` for positive divisors.
pub open spec fn div_floor(a: int, b: int) -> int
    recommends
        b != 0,
{
    if b > 0 {
        a / b
    } else {
        (-a) / (-b)
    }
}

/// Ceiling division for positive divisors: the least `q` with `a <= q * b`.
pub open spec fn div_ceil(a: int, b: int) -> int
    recommends
        b > 0,
{
    -((-a) / b)
}

/// Bound on a product from bounds on its factors.
pub proof fn lemma_abs_mul_bound(a: int, b: int, m: int, n: int)
    by (nonlinear_arith)
    requires
        -m <= a <= m,
        -n <= b <= n,
    ensures
        -(m * n) <= a * b <= m * n,
{
}

/// `q == a / b` pins the quotient; these bracketing facts are the form
/// downstream proofs consume.
pub proof fn lemma_floor_div_brackets(a: int, b: int)
    requires
        b > 0,
    ensures
        b * (a / b) <= a < b * (a / b + 1),
{
    lemma_fundamental_div_mod(a, b);
    assert(b * (a / b + 1) == b * (a / b) + b) by (nonlinear_arith);
}

/// A floor quotient never exceeds the dividend in magnitude.
pub proof fn lemma_floor_div_bound(a: int, b: int)
    requires
        b >= 1,
    ensures
        a >= 0 ==> 0 <= a / b <= a,
        a < 0 ==> a <= a / b <= 0,
{
    lemma_floor_div_brackets(a, b);
    let q = a / b;
    assert((a >= 0 ==> 0 <= q <= a) && (a < 0 ==> a <= q <= 0)) by (nonlinear_arith)
        requires
            b >= 1,
            b * q <= a,
            a < b * (q + 1),
    ;
}

/// A magnitude bound on the dividend carries over to the quotient.
pub proof fn lemma_div_floor_mag(a: int, b: int, m: int)
    requires
        b >= 1,
        m >= 0,
        -(m * b) <= a <= m * b,
    ensures
        -m <= a / b <= m,
{
    lemma_floor_div_brackets(a, b);
    let q = a / b;
    assert(-m <= q <= m) by (nonlinear_arith)
        requires
            b >= 1,
            m >= 0,
            -(m * b) <= a <= m * b,
            b * q <= a < b * (q + 1),
    ;
}

/// Minimum on `int`.
pub open spec fn imin(a: int, b: int) -> int {
    if a <= b {
        a
    } else {
        b
    }
}

/// Maximum on `int`.
pub open spec fn imax(a: int, b: int) -> int {
    if a >= b {
        a
    } else {
        b
    }
}

/// The ceiling quotient brackets its dividend.
pub proof fn lemma_ceil_div_brackets(a: int, b: int)
    requires
        b > 0,
    ensures
        b * (div_ceil(a, b) - 1) < a <= b * div_ceil(a, b),
{
    lemma_floor_div_brackets(-a, b);
    let f = (-a) / b;
    assert(b * (-f - 1) < a <= b * (-f)) by (nonlinear_arith)
        requires
            b * f <= -a < b * (f + 1),
    ;
}

/// For positive `d`, `t * d <= b` exactly when `t` is at most `b / d`.
pub proof fn lemma_mul_le_floor(t: int, d: int, b: int)
    requires
        d >= 1,
    ensures
        t * d <= b <==> t <= b / d,
{
    lemma_floor_div_brackets(b, d);
    let f = b / d;
    assert((t * d <= b) == (t <= f)) by (nonlinear_arith)
        requires
            d >= 1,
            d * f <= b < d * (f + 1),
    ;
}

/// For positive `d`, `t * d >= a` exactly when `t` is at least the
/// ceiling quotient of `a` by `d`.
pub proof fn lemma_mul_ge_ceil(t: int, d: int, a: int)
    requires
        d >= 1,
    ensures
        t * d >= a <==> t >= div_ceil(a, d),
{
    lemma_ceil_div_brackets(a, d);
    let c = div_ceil(a, d);
    assert((t * d >= a) == (t >= c)) by (nonlinear_arith)
        requires
            d >= 1,
            d * (c - 1) < a <= d * c,
    ;
}

/// Ceiling division on machine integers.
pub fn ceil_div(a: i128, b: i128) -> (q: i128)
    requires
        b > 0,
        -0x1000000000000000000000000000000i128 <= a <= 0x1000000000000000000000000000000i128,
    ensures
        q == div_ceil(a as int, b as int),
        b * (q - 1) < a <= b * q,
{
    proof {
        lemma_ceil_div_brackets(a as int, b as int);
        lemma_floor_div_bound(-a as int, b as int);
    }
    -floor_div(-a, b)
}

/// Absolute value on `int`.
pub open spec fn iabs(x: int) -> int {
    if x < 0 {
        -x
    } else {
        x
    }
}

/// The magnitude bound, for either divisor sign.
pub proof fn lemma_div_floor_mag_signed(a: int, b: int, m: int)
    requires
        b != 0,
        m >= 0,
        -(m * iabs(b)) <= a <= m * iabs(b),
    ensures
        -m <= div_floor(a, b) <= m,
{
    if b > 0 {
        lemma_div_floor_mag(a, b, m);
    } else {
        assert(-(m * iabs(b)) <= -a <= m * iabs(b));
        lemma_div_floor_mag(-a, -b, m);
    }
}

/// From a squared bound to a magnitude bound.
pub proof fn lemma_sq_le(x: int, m: int)
    requires
        m >= 0,
        x * x <= m * m,
    ensures
        -m <= x <= m,
{
    assert(-m <= x <= m) by (nonlinear_arith)
        requires
            m >= 0,
            x * x <= m * m,
    ;
}

/// Floor division on machine integers.
pub fn floor_div(a: i128, b: i128) -> (q: i128)
    requires
        b > 0,
        a > i128::MIN,
        -0x1000000000000000000000000000000i128 <= a <= 0x1000000000000000000000000000000i128,
    ensures
        q == a as int / b as int,
        b * q <= a < b * (q + 1),
{
    proof {
        lemma_floor_div_brackets(a as int, b as int);
    }
    if a >= 0 {
        let q = ((a as u128) / (b as u128)) as i128;
        proof {
            lemma_fundamental_div_mod(a as int, b as int);
        }
        q
    } else {
        let n = (-a) as u128;
        let d = b as u128;
        let qu = if n % d == 0 { n / d } else { n / d + 1 };
        proof {
            let ni = n as int;
            let di = d as int;
            lemma_fundamental_div_mod(ni, di);
            let qq = ni / di;
            let r = ni % di;
            if r == 0 {
                assert(-ni == (-qq) * di + 0) by (nonlinear_arith)
                    requires
                        ni == di * qq + 0,
                ;
                lemma_fundamental_div_mod_converse_div(-ni, di, -qq, 0);
            } else {
                assert(-ni == (-qq - 1) * di + (di - r)) by (nonlinear_arith)
                    requires
                        ni == di * qq + r,
                ;
                lemma_fundamental_div_mod_converse_div(-ni, di, -qq - 1, di - r);
            }
        }
        -(qu as i128)
    }
}

/// Fixed-point product: `floor(a * b / SCALE)`.
pub fn fmul(a: i64, b: i64) -> (r: i64)
    requires
        -0x2000000000i64 <= a <= 0x2000000000i64,
        -0x2000000000i64 <= b <= 0x2000000000i64,
    ensures
        r == div_floor(a * b, SCALE as int),
{
    proof {
        lemma_abs_mul_bound(a as int, b as int, 0x2000000000, 0x2000000000);
    }
    let p: i128 = (a as i128) * (b as i128);
    let q = floor_div(p, SCALE as i128);
    proof {
        lemma_floor_div_brackets(p as int, SCALE as int);
    }
    q as i64
}

/// Fixed-point quotient: `floor(a * SCALE / b)`.
pub fn fdiv(a: i64, b: i64) -> (r: i64)
    requires
        b != 0,
        -0x1000000000000i64 <= a <= 0x1000000000000i64,
    ensures
        r == div_floor(a * SCALE, b as int),
{
    proof {
        lemma_abs_mul_bound(a as int, SCALE as int, 0x1000000000000, 4096);
    }
    let p: i128 = (a as i128) * (SCALE as i128);
    if b > 0 {
        proof {
            lemma_floor_div_bound(p as int, b as int);
        }
        let q = floor_div(p, b as i128);
        q as i64
    } else {
        proof {
            lemma_floor_div_bound(-p as int, -(b as int));
        }
        let q = floor_div(-p, -(b as i128));
        q as i64
    }
}

/// The integer square root: the unique `s >= 0` with
/// `s * s <= n < (s + 1) * (s + 1)`.
pub open spec fn sqrt_of(n: int) -> int
    recommends
        n >= 0,
{
    choose|s: int| 0 <= s && #[trigger] (s * s) <= n < (s + 1) * (s + 1)
}

/// Every nonnegative integer has an integer square root.
pub proof fn lemma_sqrt_exists(n: nat)
    ensures
        exists|s: int| 0 <= s && #[trigger] (s * s) <= n < (s + 1) * (s + 1),
    decreases n,
{
    if n == 0 {
        let s = 0int;
        assert(0 <= s && #[trigger] (s * s) <= n < (s + 1) * (s + 1)) by (nonlinear_arith)
            requires
                n == 0,
                s == 0,
        ;
    } else {
        lemma_sqrt_exists((n - 1) as nat);
        let s = choose|s: int| 0 <= s && #[trigger] (s * s) <= n - 1 < (s + 1) * (s + 1);
        if n < (s + 1) * (s + 1) {
            assert(s * s <= n < (s + 1) * (s + 1));
        } else {
            assert(n == (s + 1) * (s + 1));
            assert((s + 1) * (s + 1) <= n < (s + 2) * (s + 2)) by (nonlinear_arith)
                requires
                    n == (s + 1) * (s + 1),
                    s >= 0,
            ;
        }
    }
}

/// The integer square root is unique.
pub proof fn lemma_sqrt_unique(n: int, s: int)
    requires
        0 <= s,
        s * s <= n < (s + 1) * (s + 1),
    ensures
        sqrt_of(n) == s,
{
    assert(0 <= s && s * s <= n < (s + 1) * (s + 1));
    let t = sqrt_of(n);
    assert(0 <= t && t * t <= n < (t + 1) * (t + 1));
    assert(s == t) by (nonlinear_arith)
        requires
            0 <= s,
            0 <= t,
            s * s <= n < (s + 1) * (s + 1),
            t * t <= n < (t + 1) * (t + 1),
    ;
}

/// Integer square root by bisection.
pub fn isqrt(n: u128) -> (s: u64)
    requires
        n < 0x40000000000000000000000000000000u128,
    ensures
        (s as int) * (s as int) <= n < (s as int + 1) * (s as int + 1),
        s == sqrt_of(n as int),
{
    let mut lo: u128 = 0;
    let mut hi: u128 = 0x8000000000000000u128;
    proof {
        assert(0x8000000000000000int * 0x8000000000000000int
            == 0x40000000000000000000000000000000int) by (nonlinear_arith);
    }
    while lo + 1 < hi
        invariant
            lo < hi,
            hi <= 0x8000000000000000u128,
            (lo as int) * (lo as int) <= n,
            n < (hi as int) * (hi as int),
        decreases hi - lo,
    {
        let mid = lo + (hi - lo) / 2;
        proof {
            assert((mid as int) * (mid as int) < 0x40000000000000000000000000000000int)
                by (nonlinear_arith)
                requires
                    0 <= mid as int,
                    (mid as int) < 0x8000000000000000int,
            ;
        }
        if mid * mid <= n {
            lo = mid;
        } else {
            hi = mid;
        }
    }
    proof {
        assert(hi == lo + 1);
        lemma_sqrt_unique(n as int, lo as int);
    }
    lo as u64
}

} // verus!
