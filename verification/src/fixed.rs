//! Saturating fixed-point arithmetic at a scale of one billion.
//!
//! A nonnegative quantity is a `u64` counting billionths; a signed quantity
//! is an `i64` counting billionths. Every operation is total: a result that
//! would fall outside the representable range saturates at the boundary, and
//! a division by zero saturates at the top of the range (the analogue of the
//! infinity that IEEE division by zero would produce). Each executable
//! operation is specified exactly by a spec-level mirror.

use vstd::arithmetic::div_mod::{
    lemma_div_by_multiple, lemma_div_is_ordered, lemma_div_pos_is_pos, lemma_fundamental_div_mod,
};
use vstd::arithmetic::mul::{lemma_mul_inequality, lemma_mul_nonnegative, lemma_mul_upper_bound};
use vstd::prelude::*;

verus! {

/// One whole unit: stored values count billionths.
pub const SCALE: u64 = 1_000_000_000;

/// One half, at the fixed-point scale.
pub const HALF: u64 = 500_000_000;

/// Saturate an unbounded integer into the `u64` range from above.
pub open spec fn cap_u64(x: int) -> int {
    if x > u64::MAX as int {
        u64::MAX as int
    } else {
        x
    }
}

/// Saturate an unbounded integer into the `i64` range.
pub open spec fn cap_i64(x: int) -> int {
    if x > i64::MAX as int {
        i64::MAX as int
    } else if x < i64::MIN as int {
        i64::MIN as int
    } else {
        x
    }
}

/// Magnitude of a signed value, as an unbounded integer.
pub open spec fn spec_abs(a: int) -> int {
    if a >= 0 {
        a
    } else {
        -a
    }
}

/// Saturating addition of nonnegative fixed-point values.
pub open spec fn spec_add(a: u64, b: u64) -> u64 {
    cap_u64(a + b) as u64
}

/// Subtraction of nonnegative fixed-point values, floored at zero.
pub open spec fn spec_sub(a: u64, b: u64) -> u64 {
    if a >= b {
        (a - b) as u64
    } else {
        0u64
    }
}

/// Saturating fixed-point product: `a * b / SCALE`, rounded toward zero.
pub open spec fn spec_mul(a: u64, b: u64) -> u64 {
    cap_u64((a as int * b as int) / (SCALE as int)) as u64
}

/// Saturating fixed-point quotient: `a * SCALE / b`, rounded toward zero.
/// A zero divisor saturates at the top of the range.
pub open spec fn spec_div(a: u64, b: u64) -> u64 {
    if b == 0 {
        u64::MAX
    } else {
        cap_u64((a as int * SCALE as int) / (b as int)) as u64
    }
}

/// Saturating addition of signed fixed-point values.
pub open spec fn spec_iadd(a: i64, b: i64) -> i64 {
    cap_i64(a + b) as i64
}

/// Saturating subtraction of signed fixed-point values.
pub open spec fn spec_isub(a: i64, b: i64) -> i64 {
    cap_i64(a - b) as i64
}

/// Saturating negation of a signed fixed-point value.
pub open spec fn spec_ineg(a: i64) -> i64 {
    cap_i64(-a) as i64
}

/// Difference of two nonnegative fixed-point values, saturated into `i64`.
pub open spec fn spec_isub_u(a: u64, b: u64) -> i64 {
    cap_i64(a - b) as i64
}

/// The magnitude of a signed fixed-point value, as a nonnegative one.
pub open spec fn spec_mag(a: i64) -> u64 {
    spec_abs(a as int) as u64
}

/// A nonnegative fixed-point value saturated into the signed range.
pub open spec fn spec_u_to_i(a: u64) -> i64 {
    cap_i64(a as int) as i64
}

/// Signed saturating fixed-point product with a nonnegative factor:
/// the magnitudes multiply as `spec_mul`, and the sign of `a` is kept.
pub open spec fn spec_imul_u(a: i64, b: u64) -> i64 {
    let m = spec_mul(spec_mag(a), b);
    if a >= 0 {
        cap_i64(m as int) as i64
    } else {
        cap_i64(-(m as int)) as i64
    }
}

/// Signed saturating fixed-point quotient: the magnitudes divide as
/// `spec_div` (a zero divisor saturates), and the signs combine as usual.
pub open spec fn spec_idiv(a: i64, b: i64) -> i64 {
    let m = spec_div(spec_mag(a), spec_mag(b));
    if (a >= 0) == (b >= 0) {
        cap_i64(m as int) as i64
    } else {
        cap_i64(-(m as int)) as i64
    }
}

/// Saturating addition.
pub fn fadd(a: u64, b: u64) -> (r: u64)
    ensures
        r == spec_add(a, b),
{
    if a > u64::MAX - b {
        u64::MAX
    } else {
        a + b
    }
}

/// Subtraction floored at zero.
pub fn fsub(a: u64, b: u64) -> (r: u64)
    ensures
        r == spec_sub(a, b),
{
    if a >= b {
        a - b
    } else {
        0
    }
}

/// Saturating fixed-point multiplication.
pub fn fmul(a: u64, b: u64) -> (r: u64)
    ensures
        r == spec_mul(a, b),
{
    proof {
        lemma_mul_upper_bound(a as int, u64::MAX as int, b as int, u64::MAX as int);
    }
    let p: u128 = ((a as u128) * (b as u128)) / (SCALE as u128);
    if p > u64::MAX as u128 {
        u64::MAX
    } else {
        p as u64
    }
}

/// Saturating fixed-point division.
pub fn fdiv(a: u64, b: u64) -> (r: u64)
    ensures
        r == spec_div(a, b),
{
    if b == 0 {
        u64::MAX
    } else {
        proof {
            lemma_mul_upper_bound(a as int, u64::MAX as int, SCALE as int, SCALE as int);
        }
        let p: u128 = ((a as u128) * (SCALE as u128)) / (b as u128);
        if p > u64::MAX as u128 {
            u64::MAX
        } else {
            p as u64
        }
    }
}

/// Saturating signed addition.
pub fn iadd(a: i64, b: i64) -> (r: i64)
    ensures
        r == spec_iadd(a, b),
{
    if b >= 0 {
        if a > i64::MAX - b {
            i64::MAX
        } else {
            a + b
        }
    } else {
        if a < i64::MIN - b {
            i64::MIN
        } else {
            a + b
        }
    }
}

/// Saturating signed subtraction.
pub fn isub(a: i64, b: i64) -> (r: i64)
    ensures
        r == spec_isub(a, b),
{
    if b >= 0 {
        if a < i64::MIN + b {
            i64::MIN
        } else {
            a - b
        }
    } else {
        if a > i64::MAX + b {
            i64::MAX
        } else {
            a - b
        }
    }
}

/// Saturating signed negation.
pub fn ineg(a: i64) -> (r: i64)
    ensures
        r == spec_ineg(a),
{
    if a == i64::MIN {
        i64::MAX
    } else {
        -a
    }
}

/// Difference of two nonnegative values, saturated into the signed range.
pub fn isub_u(a: u64, b: u64) -> (r: i64)
    ensures
        r == spec_isub_u(a, b),
{
    let d: i128 = (a as i128) - (b as i128);
    if d > i64::MAX as i128 {
        i64::MAX
    } else if d < i64::MIN as i128 {
        i64::MIN
    } else {
        d as i64
    }
}

/// The magnitude of a signed value.
pub fn mag(a: i64) -> (r: u64)
    ensures
        r == spec_mag(a),
{
    if a >= 0 {
        a as u64
    } else {
        let d: i128 = -(a as i128);
        d as u64
    }
}

/// A nonnegative value saturated into the signed range.
pub fn u_to_i(a: u64) -> (r: i64)
    ensures
        r == spec_u_to_i(a),
{
    if a > i64::MAX as u64 {
        i64::MAX
    } else {
        a as i64
    }
}

/// Signed saturating fixed-point multiplication with a nonnegative factor.
pub fn imul_u(a: i64, b: u64) -> (r: i64)
    ensures
        r == spec_imul_u(a, b),
{
    let m = fmul(mag(a), b);
    if a >= 0 {
        u_to_i(m)
    } else {
        if m > i64::MAX as u64 {
            i64::MIN
        } else {
            -(m as i64)
        }
    }
}

/// Signed saturating fixed-point division.
pub fn idiv(a: i64, b: i64) -> (r: i64)
    ensures
        r == spec_idiv(a, b),
{
    let m = fdiv(mag(a), mag(b));
    if (a >= 0) == (b >= 0) {
        u_to_i(m)
    } else {
        if m > i64::MAX as u64 {
            i64::MIN
        } else {
            -(m as i64)
        }
    }
}

/// Multiplying by a factor of at most one unit cannot grow a value.
pub proof fn lemma_fmul_le(a: u64, b: u64)
    requires
        b <= SCALE,
    ensures
        spec_mul(a, b) <= a,
{
    lemma_mul_inequality(b as int, SCALE as int, a as int);
    assert(b as int * a as int == a as int * b as int);
    assert(SCALE as int * a as int == a as int * SCALE as int);
    lemma_div_is_ordered(a as int * b as int, a as int * SCALE as int, SCALE as int);
    lemma_div_by_multiple(a as int, SCALE as int);
    lemma_mul_nonnegative(a as int, b as int);
    lemma_div_pos_is_pos(a as int * b as int, SCALE as int);
}

/// The fixed-point product is monotone in both arguments.
pub proof fn lemma_fmul_mono(a1: u64, b1: u64, a2: u64, b2: u64)
    requires
        a1 <= a2,
        b1 <= b2,
    ensures
        spec_mul(a1, b1) <= spec_mul(a2, b2),
{
    lemma_mul_upper_bound(a1 as int, a2 as int, b1 as int, b2 as int);
    lemma_div_is_ordered(a1 as int * b1 as int, a2 as int * b2 as int, SCALE as int);
    lemma_mul_nonnegative(a1 as int, b1 as int);
    lemma_div_pos_is_pos(a1 as int * b1 as int, SCALE as int);
    lemma_mul_nonnegative(a2 as int, b2 as int);
    lemma_div_pos_is_pos(a2 as int * b2 as int, SCALE as int);
}

/// The integer square root: the greatest `r` with `r * r <= x`.
pub open spec fn spec_sqrt(x: int) -> int
    decreases x,
{
    if x < 1 {
        0
    } else {
        let r = 2 * spec_sqrt(x / 4);
        if (r + 1) * (r + 1) <= x {
            r + 1
        } else {
            r
        }
    }
}

/// The integer square root is sound: it is nonnegative, its square is at
/// most `x`, and the next square is beyond `x`.
pub proof fn lemma_sqrt_bounds(x: int)
    requires
        x >= 0,
    ensures
        spec_sqrt(x) >= 0,
        spec_sqrt(x) * spec_sqrt(x) <= x,
        (spec_sqrt(x) + 1) * (spec_sqrt(x) + 1) > x,
    decreases x,
{
    if x < 1 {
    } else {
        lemma_sqrt_bounds(x / 4);
        let s = spec_sqrt(x / 4);
        let r = 2 * s;
        lemma_fundamental_div_mod(x, 4);
        assert(r * r <= x) by (nonlinear_arith)
            requires
                s * s <= x / 4,
                r == 2 * s,
                x == 4 * (x / 4) + x % 4,
                x % 4 >= 0,
        ;
        assert((r + 2) * (r + 2) > x) by (nonlinear_arith)
            requires
                (s + 1) * (s + 1) > x / 4,
                r == 2 * s,
                x == 4 * (x / 4) + x % 4,
                x % 4 < 4,
        ;
    }
}

/// Any `r` with `r * r <= x < (r + 1) * (r + 1)` is the integer square root.
pub proof fn lemma_sqrt_unique(x: int, r: int)
    requires
        x >= 0,
        r >= 0,
        r * r <= x,
        (r + 1) * (r + 1) > x,
    ensures
        r == spec_sqrt(x),
{
    lemma_sqrt_bounds(x);
    let s = spec_sqrt(x);
    if r < s {
        assert(false) by (nonlinear_arith)
            requires
                0 <= r < s,
                s * s <= x,
                (r + 1) * (r + 1) > x,
        ;
    }
    if s < r {
        assert(false) by (nonlinear_arith)
            requires
                0 <= s < r,
                r * r <= x,
                (s + 1) * (s + 1) > x,
        ;
    }
}

/// The square root of a fixed-point value, at the fixed-point scale:
/// the integer square root of `a * SCALE`.
pub open spec fn spec_fsqrt(a: u64) -> u64 {
    spec_sqrt(a as int * SCALE as int) as u64
}

/// Fixed-point square root, by binary search on the integer square root of
/// `a * SCALE`.
pub fn fsqrt(a: u64) -> (r: u64)
    ensures
        r == spec_fsqrt(a),
        r as int * r as int <= a as int * SCALE as int,
        (r as int + 1) * (r as int + 1) > a as int * SCALE as int,
{
    proof {
        lemma_mul_upper_bound(a as int, u64::MAX as int, SCALE as int, SCALE as int);
    }
    let x: u128 = (a as u128) * (SCALE as u128);
    assert(x < 0x4000_0000_0000_0000_0000_0000u128);
    let mut lo: u128 = 0;
    let mut hi: u128 = 0x8000_0000_0000u128;
    assert(hi * hi > x) by (nonlinear_arith)
        requires
            hi == 0x8000_0000_0000u128,
            x < 0x4000_0000_0000_0000_0000_0000u128,
    ;
    while lo + 1 < hi
        invariant
            lo < hi <= 0x8000_0000_0000u128,
            lo as int * lo as int <= x as int,
            hi as int * hi as int > x as int,
        decreases hi - lo,
    {
        let mid: u128 = lo + (hi - lo) / 2;
        proof {
            lemma_mul_upper_bound(mid as int, 0x8000_0000_0000, mid as int, 0x8000_0000_0000);
        }
        if mid * mid <= x {
            lo = mid;
        } else {
            hi = mid;
        }
    }
    proof {
        lemma_sqrt_unique(x as int, lo as int);
    }
    lo as u64
}

} // verus!
