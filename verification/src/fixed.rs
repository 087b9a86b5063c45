//! Fixed-point scalars: an `i64` holds a real value scaled by `SCALE`.
//!
//! Every arithmetic operation truncates toward zero where it divides and
//! saturates into `[FIX_MIN, FIX_MAX]`, so each operation is total and has an
//! exact mathematical description (`fxadd`, `fxmul`, ...) that the executable
//! functions are proved to match.

use vstd::prelude::*;

verus! {

/// Scalars are stored as multiples of `1 / SCALE`.
pub const SCALE: i64 = 65536;
/// The fixed-point representation of 1.
pub const ONE: i64 = 65536;
/// The fixed-point representation of 1/2.
pub const HALF: i64 = 32768;
/// pi, rounded to the nearest representable scalar.
pub const PI_FIX: i64 = 205887;
/// The period used for angle wrapping: exactly `2 * PI_FIX`.
pub const TWO_PI_FIX: i64 = 411774;
/// pi/2, rounded down to a representable scalar.
pub const HALF_PI_FIX: i64 = 102943;
/// pi/4, rounded to the nearest representable scalar.
pub const QUARTER_PI_FIX: i64 = 51472;
/// Largest representable scalar (`i64::MAX`).
pub const FIX_MAX: i64 = 9223372036854775807;
/// Smallest representable scalar; symmetric so every scalar can be negated.
pub const FIX_MIN: i64 = -9223372036854775807;

/// Saturate an unbounded integer into the representable range.
pub open spec fn clip(v: int) -> int {
    if v > FIX_MAX as int {
        FIX_MAX as int
    } else if v < FIX_MIN as int {
        FIX_MIN as int
    } else {
        v
    }
}

/// Division truncating toward zero, for a positive divisor.
pub open spec fn div_trunc(p: int, d: int) -> int
    recommends
        d > 0,
{
    if p >= 0 {
        p / d
    } else {
        -((-p) / d)
    }
}

/// Division truncating toward zero, for any nonzero divisor.
pub open spec fn div_trunc_any(p: int, d: int) -> int
    recommends
        d != 0,
{
    if d >= 0 {
        div_trunc(p, d)
    } else {
        -div_trunc(p, -d)
    }
}

/// Saturating fixed-point addition.
pub open spec fn fxadd(a: int, b: int) -> int {
    clip(a + b)
}

/// Saturating fixed-point subtraction.
pub open spec fn fxsub(a: int, b: int) -> int {
    clip(a - b)
}

/// Saturating fixed-point negation.
pub open spec fn fxneg(a: int) -> int {
    clip(-a)
}

/// Fixed-point magnitude.
pub open spec fn fxabs(a: int) -> int {
    if a >= 0 {
        clip(a)
    } else {
        clip(-a)
    }
}

/// Fixed-point multiplication: the exact product rescaled by truncation,
/// then saturated.
pub open spec fn fxmul(a: int, b: int) -> int {
    clip(div_trunc(a * b, SCALE as int))
}

/// Fixed-point division: `a / b` carried out as `(a * SCALE) / b` with
/// truncation toward zero, then saturated.
pub open spec fn fxdiv(a: int, b: int) -> int
    recommends
        b != 0,
{
    clip(div_trunc_any(a * (SCALE as int), b))
}

/// Fixed-point value divided by a small positive integer count (not a scalar).
pub open spec fn fxdivc(a: int, c: int) -> int
    recommends
        c > 0,
{
    clip(div_trunc(a, c))
}

pub fn add_fix(a: i64, b: i64) -> (r: i64)
    ensures
        r as int == fxadd(a as int, b as int),
{
    let s: i128 = a as i128 + b as i128;
    if s > FIX_MAX as i128 {
        FIX_MAX
    } else if s < FIX_MIN as i128 {
        FIX_MIN
    } else {
        s as i64
    }
}

pub fn sub_fix(a: i64, b: i64) -> (r: i64)
    ensures
        r as int == fxsub(a as int, b as int),
{
    let s: i128 = a as i128 - b as i128;
    if s > FIX_MAX as i128 {
        FIX_MAX
    } else if s < FIX_MIN as i128 {
        FIX_MIN
    } else {
        s as i64
    }
}

pub fn neg_fix(a: i64) -> (r: i64)
    ensures
        r as int == fxneg(a as int),
{
    let s: i128 = -(a as i128);
    if s > FIX_MAX as i128 {
        FIX_MAX
    } else {
        s as i64
    }
}

pub fn abs_fix(a: i64) -> (r: i64)
    ensures
        r as int == fxabs(a as int),
{
    if a >= 0 {
        a
    } else {
        neg_fix(a)
    }
}

/// Magnitude of an `i64` as a `u128` (total, even at `i64::MIN`).
fn magnitude(a: i64) -> (m: u128)
    ensures
        m as int == if a >= 0 { a as int } else { -(a as int) },
{
    if a >= 0 {
        a as u128
    } else {
        (-(a as i128)) as u128
    }
}

/// Truncating division of a signed product given by sign and magnitude.
proof fn lemma_div_trunc_magnitude(p: int, m: nat, d: int)
    requires
        d > 0,
        m == if p >= 0 { p } else { -p },
    ensures
        p >= 0 ==> div_trunc(p, d) == m as int / d,
        p < 0 ==> div_trunc(p, d) == -(m as int / d),
{
}

/// The magnitude of a product is the product of the magnitudes.
proof fn lemma_mul_magnitude(a: int, b: int, ma: int, mb: int)
    by (nonlinear_arith)
    requires
        ma == if a >= 0 { a } else { -a },
        mb == if b >= 0 { b } else { -b },
    ensures
        ma * mb == if a * b >= 0 { a * b } else { -(a * b) },
        (a * b < 0) ==> ((a < 0) != (b < 0)),
        (a * b > 0) ==> ((a < 0) == (b < 0)),
{
}

pub fn mul_fix(a: i64, b: i64) -> (r: i64)
    ensures
        r as int == fxmul(a as int, b as int),
{
    let neg: bool = (a < 0) != (b < 0);
    let ma: u128 = magnitude(a);
    let mb: u128 = magnitude(b);
    proof {
        assert(ma as int * mb as int <= 0x40000000000000000000000000000000int)
            by (nonlinear_arith)
            requires ma as int <= 0x8000000000000000int && mb as int <= 0x8000000000000000int && ma >= 0 && mb >= 0;
    }
    let q: u128 = (ma * mb) / (SCALE as u128);
    proof {
        lemma_mul_magnitude(a as int, b as int, ma as int, mb as int);
        lemma_div_trunc_magnitude(
            a as int * b as int,
            (ma * mb) as nat,
            SCALE as int,
        );
    }
    if neg {
        if q > FIX_MAX as u128 {
            FIX_MIN
        } else {
            -(q as i64)
        }
    } else {
        if q > FIX_MAX as u128 {
            FIX_MAX
        } else {
            q as i64
        }
    }
}

pub fn div_fix(a: i64, b: i64) -> (r: i64)
    requires
        b != 0,
    ensures
        r as int == fxdiv(a as int, b as int),
{
    let neg: bool = (a < 0) != (b < 0);
    let ma: u128 = magnitude(a);
    let mb: u128 = magnitude(b);
    let q: u128 = (ma * (SCALE as u128)) / mb;
    proof {
        lemma_mul_magnitude(a as int, SCALE as int, ma as int, SCALE as int);
        lemma_div_sign(a as int * (SCALE as int), (ma * (SCALE as u128)) as nat, b as int, mb as nat);
    }
    if neg {
        if q > FIX_MAX as u128 {
            FIX_MIN
        } else {
            -(q as i64)
        }
    } else {
        if q > FIX_MAX as u128 {
            FIX_MAX
        } else {
            q as i64
        }
    }
}

/// Relates `div_trunc_any` on a signed dividend and divisor to the division
/// of their magnitudes.
proof fn lemma_div_sign(p: int, mp: nat, d: int, md: nat)
    requires
        d != 0,
        mp == if p >= 0 { p } else { -p },
        md == if d >= 0 { d } else { -d },
    ensures
        ((p >= 0) == (d > 0) || mp == 0) ==> div_trunc_any(p, d) == mp as int / md as int,
        (!((p >= 0) == (d > 0)) && mp != 0) ==> div_trunc_any(p, d) == -(mp as int / md as int),
{
    if mp == 0 {
        assert(p == 0);
    }
}

/// Truncating division of a fixed-point value by a small positive count.
pub fn divc_fix(a: i64, c: i64) -> (r: i64)
    requires
        c > 0,
    ensures
        r as int == fxdivc(a as int, c as int),
{
    let ma: u128 = magnitude(a);
    let q: u128 = ma / (c as u128);
    proof {
        lemma_div_trunc_magnitude(a as int, ma as nat, c as int);
    }
    if a >= 0 {
        if q > FIX_MAX as u128 {
            FIX_MAX
        } else {
            q as i64
        }
    } else {
        if q > FIX_MAX as u128 {
            FIX_MIN
        } else {
            -(q as i64)
        }
    }
}

/// Adding zero leaves a representable scalar unchanged.
pub proof fn lemma_fxadd_zero(a: int)
    requires
        FIX_MIN as int <= a <= FIX_MAX as int,
    ensures
        fxadd(a, 0) == a,
        fxsub(a, 0) == a,
{
}

/// Multiplying by zero gives zero; multiplying by one is the identity on
/// representable scalars.
pub proof fn lemma_fxmul_zero_one(a: int)
    requires
        FIX_MIN as int <= a <= FIX_MAX as int,
    ensures
        fxmul(a, 0) == 0,
        fxmul(0, a) == 0,
        fxmul(a, ONE as int) == a,
        fxmul(ONE as int, a) == a,
{
    assert(a * 0 == 0) by (nonlinear_arith);
    assert(0 * a == 0) by (nonlinear_arith);
    assert(a * (ONE as int) == a * 65536) by (nonlinear_arith);
    assert((ONE as int) * a == a * 65536) by (nonlinear_arith);
    if a >= 0 {
        assert((a * 65536) / 65536 == a) by (nonlinear_arith);
    } else {
        assert(-(a * 65536) == (-a) * 65536) by (nonlinear_arith);
        assert(((-a) * 65536) / 65536 == -a) by (nonlinear_arith);
    }
}

/// The square of a scalar is never negative.
pub proof fn lemma_fxmul_square_nonneg(a: int)
    ensures
        fxmul(a, a) >= 0,
{
    assert(a * a >= 0) by (nonlinear_arith);
}

} // verus!
