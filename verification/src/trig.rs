//! Trigonometry and square roots on fixed-point scalars.
//!
//! Angles are fixed-point radians. `normalize_angle` wraps any angle into
//! `(-PI_FIX, PI_FIX]` and is exact: the result differs from the argument by a
//! whole number of periods. Sine, cosine and arctangent are polynomial
//! approximations; their contracts state the computed value exactly, as a
//! spec-level mirror of the fixed-point evaluation. The square root is exact:
//! the greatest scalar whose square does not exceed the argument.

use vstd::prelude::*;
use crate::fixed::{
    SCALE, ONE, PI_FIX, TWO_PI_FIX, HALF_PI_FIX, QUARTER_PI_FIX, fxadd, fxsub, fxneg, fxabs,
    fxmul, fxdiv, fxdivc, add_fix, sub_fix, neg_fix, abs_fix, mul_fix, div_fix, divc_fix,
};
use vstd::arithmetic::div_mod::lemma_fundamental_div_mod;
use vstd::arithmetic::div_mod::lemma_mod_bound;
use vstd::arithmetic::div_mod::lemma_mod_multiples_basic;
use vstd::arithmetic::div_mod::lemma_div_pos_is_pos;
use vstd::arithmetic::div_mod::lemma_div_is_ordered;
use vstd::arithmetic::div_mod::lemma_div_multiples_vanish;

verus! {

/// The wrap of an angle into `(-PI_FIX, PI_FIX]`, by whole periods.
pub open spec fn spec_normalize(theta: int) -> int {
    let t = TWO_PI_FIX as int;
    if theta >= 0 {
        let m = theta % t;
        if m > PI_FIX as int {
            m - t
        } else {
            m
        }
    } else {
        let m = (-theta) % t;
        if m >= PI_FIX as int {
            t - m
        } else {
            -m
        }
    }
}

/// Wrap an angle into `(-PI_FIX, PI_FIX]`. The result is congruent to the
/// argument modulo one full turn.
pub fn normalize_angle(theta: i64) -> (r: i64)
    ensures
        r as int == spec_normalize(theta as int),
        -(PI_FIX as int) < r as int <= PI_FIX as int,
        (theta as int - r as int) % (TWO_PI_FIX as int) == 0,
{
    if theta >= 0 {
        let m: u64 = (theta as u64) % (TWO_PI_FIX as u64);
        proof {
            lemma_fundamental_div_mod(theta as int, TWO_PI_FIX as int);
            lemma_mod_bound(theta as int, TWO_PI_FIX as int);
            let q = theta as int / (TWO_PI_FIX as int);
            if m as int > PI_FIX as int {
                assert(theta as int - (m as int - TWO_PI_FIX as int) == (q + 1) * (
                TWO_PI_FIX as int));
                lemma_mod_multiples_basic(q + 1, TWO_PI_FIX as int);
            } else {
                assert(theta as int - m as int == q * (TWO_PI_FIX as int));
                lemma_mod_multiples_basic(q, TWO_PI_FIX as int);
            }
        }
        if m > PI_FIX as u64 {
            (m as i64) - TWO_PI_FIX
        } else {
            m as i64
        }
    } else {
        let negated: u64 = (-(theta as i128)) as u64;
        let m: u64 = negated % (TWO_PI_FIX as u64);
        proof {
            lemma_fundamental_div_mod(negated as int, TWO_PI_FIX as int);
            lemma_mod_bound(negated as int, TWO_PI_FIX as int);
            let q = negated as int / (TWO_PI_FIX as int);
            if m as int >= PI_FIX as int {
                assert(theta as int - (TWO_PI_FIX as int - m as int) == (-q - 1) * (
                TWO_PI_FIX as int));
                lemma_mod_multiples_basic(-q - 1, TWO_PI_FIX as int);
            } else {
                assert(theta as int - (-(m as int)) == (-q) * (TWO_PI_FIX as int));
                lemma_mod_multiples_basic(-q, TWO_PI_FIX as int);
            }
        }
        if m >= PI_FIX as u64 {
            TWO_PI_FIX - (m as i64)
        } else {
            -(m as i64)
        }
    }
}


/// An angle already wrapped into `(-PI_FIX, PI_FIX]` is its own wrap.
pub proof fn lemma_normalize_identity(t: int)
    requires
        -(PI_FIX as int) < t <= PI_FIX as int,
    ensures
        spec_normalize(t) == t,
{
    if t >= 0 {
        vstd::arithmetic::div_mod::lemma_small_mod(t as nat, TWO_PI_FIX as nat);
    } else {
        vstd::arithmetic::div_mod::lemma_small_mod((-t) as nat, TWO_PI_FIX as nat);
    }
}

/// The degree-7 Taylor polynomial of sine, evaluated in fixed point.
pub open spec fn spec_sin_poly(x: int) -> int {
    let x2 = fxmul(x, x);
    let x3 = fxmul(x2, x);
    let x5 = fxmul(x3, x2);
    let x7 = fxmul(x5, x2);
    fxsub(fxadd(fxsub(x, fxdivc(x3, 6)), fxdivc(x5, 120)), fxdivc(x7, 5040))
}

fn sin_poly(x: i64) -> (r: i64)
    ensures
        r as int == spec_sin_poly(x as int),
{
    let x2 = mul_fix(x, x);
    let x3 = mul_fix(x2, x);
    let x5 = mul_fix(x3, x2);
    let x7 = mul_fix(x5, x2);
    sub_fix(add_fix(sub_fix(x, divc_fix(x3, 6)), divc_fix(x5, 120)), divc_fix(x7, 5040))
}

/// The degree-8 Taylor polynomial of cosine, evaluated in fixed point.
pub open spec fn spec_cos_poly(x: int) -> int {
    let x2 = fxmul(x, x);
    let x4 = fxmul(x2, x2);
    let x6 = fxmul(x4, x2);
    let x8 = fxmul(x6, x2);
    fxadd(
        fxsub(fxadd(fxsub(ONE as int, fxdivc(x2, 2)), fxdivc(x4, 24)), fxdivc(x6, 720)),
        fxdivc(x8, 40320),
    )
}

fn cos_poly(x: i64) -> (r: i64)
    ensures
        r as int == spec_cos_poly(x as int),
{
    let x2 = mul_fix(x, x);
    let x4 = mul_fix(x2, x2);
    let x6 = mul_fix(x4, x2);
    let x8 = mul_fix(x6, x2);
    add_fix(
        sub_fix(add_fix(sub_fix(ONE, divc_fix(x2, 2)), divc_fix(x4, 24)), divc_fix(x6, 720)),
        divc_fix(x8, 40320),
    )
}

/// Fold a wrapped angle into `[-HALF_PI_FIX, HALF_PI_FIX]`, preserving sine.
pub open spec fn spec_sin_arg(t: int) -> int {
    if t > HALF_PI_FIX as int {
        PI_FIX as int - t
    } else if t < -(HALF_PI_FIX as int) {
        -(PI_FIX as int) - t
    } else {
        t
    }
}

/// The library's fixed-point sine of an angle in fixed-point radians.
#[verifier::opaque]
pub open spec fn spec_sin(theta: int) -> int {
    spec_sin_poly(spec_sin_arg(spec_normalize(theta)))
}

/// The library's fixed-point cosine of an angle in fixed-point radians.
#[verifier::opaque]
pub open spec fn spec_cos(theta: int) -> int {
    let t = spec_normalize(theta);
    if t > HALF_PI_FIX as int {
        fxneg(spec_cos_poly(PI_FIX as int - t))
    } else if t < -(HALF_PI_FIX as int) {
        fxneg(spec_cos_poly(PI_FIX as int + t))
    } else {
        spec_cos_poly(t)
    }
}

pub fn sin_fix(theta: i64) -> (r: i64)
    ensures
        r as int == spec_sin(theta as int),
{
    proof {
        reveal(spec_sin);
    }
    let t = normalize_angle(theta);
    let x = if t > HALF_PI_FIX {
        PI_FIX - t
    } else if t < -HALF_PI_FIX {
        -PI_FIX - t
    } else {
        t
    };
    sin_poly(x)
}

pub fn cos_fix(theta: i64) -> (r: i64)
    ensures
        r as int == spec_cos(theta as int),
{
    proof {
        reveal(spec_cos);
    }
    let t = normalize_angle(theta);
    if t > HALF_PI_FIX {
        neg_fix(cos_poly(PI_FIX - t))
    } else if t < -HALF_PI_FIX {
        neg_fix(cos_poly(PI_FIX + t))
    } else {
        cos_poly(t)
    }
}

/// tan(pi/8) as a scalar: the threshold for the arctangent argument fold.
pub const ATAN_REDUCE: i64 = 27146;

/// The degree-7 Taylor polynomial of arctangent, evaluated in fixed point.
pub open spec fn spec_taylor_atan(z: int) -> int {
    let z2 = fxmul(z, z);
    let z3 = fxmul(z2, z);
    let z5 = fxmul(z3, z2);
    let z7 = fxmul(z5, z2);
    fxsub(fxadd(fxsub(z, fxdivc(z3, 3)), fxdivc(z5, 5)), fxdivc(z7, 7))
}

fn taylor_atan(z: i64) -> (r: i64)
    ensures
        r as int == spec_taylor_atan(z as int),
{
    let z2 = mul_fix(z, z);
    let z3 = mul_fix(z2, z);
    let z5 = mul_fix(z3, z2);
    let z7 = mul_fix(z5, z2);
    sub_fix(add_fix(sub_fix(z, divc_fix(z3, 3)), divc_fix(z5, 5)), divc_fix(z7, 7))
}

/// Arctangent of a ratio in `[0, 1]`, folded about tan(pi/8).
pub open spec fn spec_atan01(z: int) -> int
    recommends
        0 <= z <= ONE as int,
{
    if z <= ATAN_REDUCE as int {
        spec_taylor_atan(z)
    } else {
        fxadd(QUARTER_PI_FIX as int, spec_taylor_atan(fxdiv(z - ONE as int, z + ONE as int)))
    }
}

fn atan01(z: i64) -> (r: i64)
    requires
        0 <= z <= ONE,
    ensures
        r as int == spec_atan01(z as int),
{
    if z <= ATAN_REDUCE {
        taylor_atan(z)
    } else {
        let w = div_fix(z - ONE, z + ONE);
        add_fix(QUARTER_PI_FIX, taylor_atan(w))
    }
}

/// The ratio of a smaller magnitude to a larger one stays within `[0, ONE]`.
proof fn lemma_ratio_bounds(ay: int, ax: int)
    requires
        0 <= ay <= ax,
        ax > 0,
    ensures
        0 <= fxdiv(ay, ax) <= ONE as int,
{
    lemma_div_pos_is_pos(ay * (SCALE as int), ax);
    assert(ay * (SCALE as int) <= ax * (SCALE as int)) by (nonlinear_arith)
        requires 0 <= ay <= ax;
    lemma_div_is_ordered(ay * (SCALE as int), ax * (SCALE as int), ax);
    lemma_div_multiples_vanish(SCALE as int, ax);
    assert(ax * (SCALE as int) == (SCALE as int) * ax) by (nonlinear_arith);
}

/// The library's fixed-point two-argument arctangent: the bearing of the
/// point `(x, y)` from the origin, in `(-PI_FIX, PI_FIX]`.
#[verifier::opaque]
pub open spec fn spec_atan2(y: int, x: int) -> int {
    if x == 0 {
        if y > 0 {
            HALF_PI_FIX as int
        } else if y < 0 {
            -(HALF_PI_FIX as int)
        } else {
            0
        }
    } else {
        let ax = fxabs(x);
        let ay = fxabs(y);
        let base = if ay <= ax {
            spec_atan01(fxdiv(ay, ax))
        } else {
            fxsub(HALF_PI_FIX as int, spec_atan01(fxdiv(ax, ay)))
        };
        let q = if x > 0 {
            if y >= 0 {
                base
            } else {
                fxneg(base)
            }
        } else {
            if y >= 0 {
                fxsub(PI_FIX as int, base)
            } else {
                fxsub(base, PI_FIX as int)
            }
        };
        if q == -(PI_FIX as int) {
            PI_FIX as int
        } else {
            q
        }
    }
}

pub fn atan2_fix(y: i64, x: i64) -> (r: i64)
    ensures
        r as int == spec_atan2(y as int, x as int),
{
    proof {
        reveal(spec_atan2);
    }
    if x == 0 {
        if y > 0 {
            HALF_PI_FIX
        } else if y < 0 {
            -HALF_PI_FIX
        } else {
            0
        }
    } else {
        let ax = abs_fix(x);
        let ay = abs_fix(y);
        let base = if ay <= ax {
            proof {
                lemma_ratio_bounds(ay as int, ax as int);
            }
            atan01(div_fix(ay, ax))
        } else {
            proof {
                lemma_ratio_bounds(ax as int, ay as int);
            }
            sub_fix(HALF_PI_FIX, atan01(div_fix(ax, ay)))
        };
        let q = if x > 0 {
            if y >= 0 {
                base
            } else {
                neg_fix(base)
            }
        } else {
            if y >= 0 {
                sub_fix(PI_FIX, base)
            } else {
                sub_fix(base, PI_FIX)
            }
        };
        if q == -PI_FIX {
            PI_FIX
        } else {
            q
        }
    }
}

/// The integer square root: the greatest `r` with `r * r <= v`.
pub open spec fn spec_isqrt(v: int) -> int
    recommends
        v >= 0,
{
    choose|r: int| r >= 0 && #[trigger] (r * r) <= v && v < (r + 1) * (r + 1)
}

/// Two integer square roots of the same value coincide.
pub proof fn lemma_isqrt_unique(v: int, r1: int, r2: int)
    by (nonlinear_arith)
    requires
        r1 >= 0,
        r1 * r1 <= v,
        v < (r1 + 1) * (r1 + 1),
        r2 >= 0,
        r2 * r2 <= v,
        v < (r2 + 1) * (r2 + 1),
    ensures
        r1 == r2,
{
}

fn isqrt_u128(v: u128) -> (r: u128)
    ensures
        r as int * r as int <= v as int,
        (v as int) < ((r as int + 1) * (r as int + 1)),
{
    let mut lo: u128 = 0;
    let mut hi: u128 = 18446744073709551616u128;
    proof {
        assert((v as int) < (18446744073709551616int * 18446744073709551616int)) by (nonlinear_arith)
            requires v as int <= 0xffffffffffffffffffffffffffffffffint;
    }
    while lo + 1 < hi
        invariant
            0 <= lo < hi <= 18446744073709551616u128,
            lo as int * lo as int <= v as int,
            (v as int) < (hi as int * hi as int),
        decreases hi as int - lo as int,
    {
        let mid = lo + (hi - lo) / 2;
        proof {
            assert(lo < mid < hi);
            assert((mid as int * mid as int) < 0x100000000000000000000000000000000int)
                by (nonlinear_arith)
                requires mid as int <= 0xffffffffffffffffint;
        }
        if mid * mid <= v {
            lo = mid;
        } else {
            hi = mid;
        }
    }
    lo
}

/// Square root of a nonnegative scalar: exactly the greatest scalar whose
/// square (as a fixed-point product) does not exceed the argument.
pub fn sqrt_fix(x: i64) -> (r: i64)
    requires
        x >= 0,
    ensures
        r as int == spec_isqrt(x as int * SCALE as int),
        r >= 0,
{
    let v: u128 = (x as u128) * 65536u128;
    let root = isqrt_u128(v);
    proof {
        assert(root as int <= 0x10000000000int) by (nonlinear_arith)
            requires
                root as int >= 0,
                root as int * root as int <= v as int,
                (v as int) < 0x100000000000000000000int;
        let rv = root as int;
        assert(exists|r0: int|
            r0 >= 0 && #[trigger] (r0 * r0) <= x as int * SCALE as int && (x as int * SCALE as int) < ((r0 + 1) * (
            r0 + 1))) by {
            assert(rv >= 0 && rv * rv <= x as int * SCALE as int && (x as int * SCALE as int) < ((rv
                + 1) * (rv + 1)));
        }
        let s = spec_isqrt(x as int * SCALE as int);
        assert(s >= 0 && s * s <= x as int * SCALE as int && (x as int * SCALE as int) < ((s + 1) * (s
            + 1)));
        lemma_isqrt_unique(x as int * SCALE as int, rv, s);
    }
    root as i64
}

} // verus!
