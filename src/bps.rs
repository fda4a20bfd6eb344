use crate::error::SwapError;
use vstd::arithmetic::div_mod::{
    lemma_div_is_ordered, lemma_fundamental_div_mod, lemma_fundamental_div_mod_converse,
};
use vstd::prelude::*;

verus! {

/// The net amount after a fee is never above the amount it is charged on.
pub proof fn lemma_fee_not_above(dy: int, fee_bps: int)
    requires
        dy >= 0,
        fee_bps >= 0,
    ensures
        fee_applied(dy, fee_bps) matches Ok(v) ==> v <= dy,
{
    if fee_bps <= 10_000 {
        let f = 10_000 - fee_bps;
        assert(dy * f <= dy * 10_000) by (nonlinear_arith)
            requires
                f <= 10_000,
                dy >= 0,
        ;
        assert(0 <= dy * f) by (nonlinear_arith)
            requires
                f >= 0,
                dy >= 0,
        ;
        lemma_div_is_ordered(dy * f, dy * 10_000, 10_000);
        assert(dy * 10_000 / 10_000 == dy) by (nonlinear_arith);
    }
}

/// One whole in basis points.
pub const BPS_SCALE: u128 = 10_000;

/// The net amount after a fee of `fee_bps` basis points is charged on `dy`,
/// with floor division; a fee above one whole, or a product that does not fit
/// in 128 bits, is an overflow.
pub open spec fn fee_applied(dy: int, fee_bps: int) -> Result<u128, SwapError> {
    if fee_bps > 10_000 || dy * (10_000 - fee_bps) > u128::MAX {
        Err(SwapError::MathOverflow)
    } else {
        Ok((dy * (10_000 - fee_bps) / 10_000) as u128)
    }
}

/// Division of `num` by a positive `den`, rounded to the nearest integer with
/// halves away from zero.
pub open spec fn round_half_away(num: int, den: int) -> int
    recommends
        den > 0,
{
    if num >= 0 {
        (num + den / 2) / den
    } else {
        -((-num + den / 2) / den)
    }
}

/// `v` brought into the range of `i32`.
pub open spec fn clamp_i32(v: int) -> int {
    if v < i32::MIN {
        i32::MIN as int
    } else if v > i32::MAX {
        i32::MAX as int
    } else {
        v
    }
}

/// Deviation in basis points of `actual` from a positive `expected` output:
/// `(expected - actual) * 10000 / expected`, rounded half away from zero and
/// clamped to `i32`. Positive means worse than expected.
pub open spec fn slippage_of(expected: int, actual: int) -> int
    recommends
        expected > 0,
{
    clamp_i32(round_half_away((expected - actual) * 10_000, expected))
}

/// Charges a fee of `fee_bps` basis points on `dy`.
pub fn apply_fee(dy: u128, fee_bps: u16) -> (r: Result<u128, SwapError>)
    ensures
        r == fee_applied(dy as int, fee_bps as int),
        r matches Ok(v) ==> v <= dy,
{
    if fee_bps as u128 > BPS_SCALE {
        return Err(SwapError::MathOverflow);
    }
    let fee_num: u128 = BPS_SCALE - fee_bps as u128;
    match dy.checked_mul(fee_num) {
        None => Err(SwapError::MathOverflow),
        Some(p) => {
            proof {
                lemma_fee_not_above(dy as int, fee_bps as int);
            }
            Ok(p / BPS_SCALE)
        },
    }
}

/// `n * 10000 / den` rounded to the nearest integer, halves up.
pub open spec fn rounded_quotient(n: int, den: int) -> int {
    (n * 10_000 + den / 2) / den
}

/// Quotient and remainder of `r0 * 10000 + den / 2` by `den`, for `r0 < den`,
/// computed without overflow.
fn scaled_remainder(r0: u128, den: u128) -> (r: (u128, u128))
    requires
        r0 < den,
    ensures
        den / 2 + 10_000 * r0 == r.0 * den + r.1,
        r.1 < den,
        r.0 <= 10_000,
{
    let h: u128 = den / 2;
    if den <= u128::MAX / 10_001 {
        proof {
            assert(r0 * 10_000 + h < 10_001 * den) by (nonlinear_arith)
                requires
                    r0 < den,
                    h <= den,
            ;
        }
        let t: u128 = r0 * 10_000 + h;
        proof {
            lemma_fundamental_div_mod(t as int, den as int);
            assert(t / den <= 10_000) by (nonlinear_arith)
                requires
                    t < 10_001 * den,
                    t == den * (t / den) + t % den,
                    t % den >= 0,
                    den > 0,
            ;
            assert(h + 10_000 * r0 == (t / den) * den + t % den) by (nonlinear_arith)
                requires
                    t == r0 * 10_000 + h,
                    t == den * (t / den) + t % den,
            ;
        }
        return (t / den, t % den);
    }
    // For a very large `den`, build `k * r0` one addend at a time, carrying
    // into the quotient each time the remainder would reach `den`.
    let mut q: u128 = 0;
    let mut rem: u128 = h;
    let mut k: u128 = 0;
    while k < BPS_SCALE
        invariant
            den > 0,
            r0 < den,
            k <= BPS_SCALE,
            q <= k,
            rem < den,
            h + k * r0 == q * den + rem,
        decreases BPS_SCALE - k,
    {
        proof {
            assert((k + 1) * r0 == k * r0 + r0) by (nonlinear_arith);
            assert((q + 1) * den == q * den + den) by (nonlinear_arith);
        }
        if rem >= den - r0 {
            rem = rem - (den - r0);
            q = q + 1;
        } else {
            rem = rem + r0;
        }
        k = k + 1;
    }
    (q, rem)
}

/// `min((n * 10000 + den / 2) / den, 2^31)`, computed without overflow.
fn rounded_bps(n: u128, den: u128) -> (r: u128)
    requires
        den > 0,
    ensures
        r == if rounded_quotient(n as int, den as int) >= 0x8000_0000 {
            0x8000_0000
        } else {
            rounded_quotient(n as int, den as int)
        },
{
    let q0: u128 = n / den;
    let r0: u128 = n % den;
    let h: u128 = den / 2;
    let ghost total: int = n * 10_000 + h;
    proof {
        lemma_fundamental_div_mod(n as int, den as int);
        assert(total == (q0 * 10_000) * den + (r0 * 10_000 + h)) by (nonlinear_arith)
            requires
                n == den * q0 + r0,
                total == n * 10_000 + h,
        ;
    }
    if q0 >= 214_749 {
        proof {
            assert((q0 * 10_000) * den >= 0) by (nonlinear_arith)
                requires
                    q0 >= 0,
                    den > 0,
            ;
            lemma_div_is_ordered((q0 * 10_000) * den, total, den as int);
            lemma_fundamental_div_mod_converse((q0 * 10_000) * den, den as int, q0 * 10_000, 0);
        }
        return 0x8000_0000;
    }
    let (q, rem) = scaled_remainder(r0, den);
    proof {
        assert(total == (q0 * 10_000 + q) * den + rem) by (nonlinear_arith)
            requires
                total == (q0 * 10_000) * den + (r0 * 10_000 + h),
                h + 10_000 * r0 == q * den + rem,
        ;
        lemma_fundamental_div_mod_converse(total, den as int, q0 * 10_000 + q, rem as int);
    }
    let v: u128 = q0 * 10_000 + q;
    if v >= 0x8000_0000 {
        0x8000_0000
    } else {
        v
    }
}

/// Signed deviation in basis points of `actual` from a positive `expected`
/// output, rounded half away from zero and clamped to `i32`.
pub fn slippage_bps(expected: u128, actual: u128) -> (r: i32)
    requires
        expected > 0,
    ensures
        r == slippage_of(expected as int, actual as int),
{
    if actual <= expected {
        let m = rounded_bps(expected - actual, expected);
        if m > 0x7fff_ffff {
            i32::MAX
        } else {
            m as i32
        }
    } else {
        let m = rounded_bps(actual - expected, expected);
        proof {
            assert(-((expected - actual) * 10_000) == (actual - expected) * 10_000)
                by (nonlinear_arith);
        }
        if m >= 0x8000_0000 {
            i32::MIN
        } else {
            -(m as i32)
        }
    }
}

} // verus!
