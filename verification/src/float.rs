//! IEEE-754 numbers as bit patterns: the promotion of a binary32 number to
//! the binary64 number of the same value.

use crate::bytes::lemma_pow2_values;
use crate::vint::{floor_log2, lemma_floor_log2_bounds, log_2};
use vstd::arithmetic::power2::{
    lemma2_to64, lemma_pow2_adds, lemma_pow2_pos, lemma_pow2_strictly_increases, pow2,
};
use vstd::bits::lemma_u64_shl_is_mul;
use vstd::prelude::*;

verus! {

/// The sign bit of a binary32 pattern.
pub open spec fn single_sign(bits: u32) -> nat {
    bits as nat / 0x8000_0000
}

/// The biased exponent of a binary32 pattern.
pub open spec fn single_exponent(bits: u32) -> nat {
    bits as nat / 0x80_0000 % 0x100
}

/// The fraction field of a binary32 pattern.
pub open spec fn single_fraction(bits: u32) -> nat {
    bits as nat % 0x80_0000
}

/// A binary64 pattern from its three fields.
pub open spec fn double_bits(sign: nat, exponent: nat, fraction: nat) -> nat {
    sign * 0x8000_0000_0000_0000 + exponent * 0x10_0000_0000_0000 + fraction
}

/// The binary64 pattern of the number that the binary32 pattern `bits`
/// holds. Zeros and infinities keep their sign; a subnormal number becomes
/// normal; a NaN becomes a quiet NaN with the same payload.
pub open spec fn promoted(bits: u32) -> nat {
    let sign = single_sign(bits);
    let exponent = single_exponent(bits);
    let fraction = single_fraction(bits);
    if exponent == 0xff {
        if fraction == 0 {
            double_bits(sign, 0x7ff, 0)
        } else {
            double_bits(sign, 0x7ff, 0x8_0000_0000_0000 + fraction % 0x40_0000 * 0x2000_0000)
        }
    } else if exponent == 0 {
        if fraction == 0 {
            double_bits(sign, 0, 0)
        } else {
            let top = floor_log2(fraction);
            double_bits(
                sign,
                top + 874,
                ((fraction - pow2(top)) * pow2((52 - top) as nat)) as nat,
            )
        }
    } else {
        double_bits(sign, exponent + 896, fraction * 0x2000_0000)
    }
}

/// Promotes a binary32 pattern to the binary64 pattern of the same number.
pub fn promote(bits: u32) -> (wide: u64)
    ensures
        wide == promoted(bits),
{
    let sign: u64 = (bits / 0x8000_0000) as u64;
    let exponent: u64 = (bits / 0x80_0000 % 0x100) as u64;
    let fraction: u64 = (bits % 0x80_0000) as u64;
    let high: u64 = sign * 0x8000_0000_0000_0000;
    if exponent == 0xff {
        if fraction == 0 {
            high + 0x7ff * 0x10_0000_0000_0000
        } else {
            high + 0x7ff * 0x10_0000_0000_0000 + (0x8_0000_0000_0000 + fraction % 0x40_0000
                * 0x2000_0000)
        }
    } else if exponent == 0 {
        if fraction == 0 {
            high
        } else {
            let top: u64 = log_2(fraction as u32) as u64;
            proof {
                lemma_floor_log2_bounds(fraction as nat);
                lemma_pow2_values();
                if top > 23 {
                    lemma_pow2_strictly_increases(23, top as nat);
                }
                lemma_pow2_strictly_increases(top as nat, 64);
                lemma_pow2_strictly_increases((52 - top) as nat, 64);
                lemma_u64_shl_is_mul(1u64, top);
                lemma_u64_shl_is_mul(1u64, (52 - top) as u64);
                lemma_pow2_adds(top as nat, (52 - top) as nat);
                lemma_pow2_adds(top as nat, 1);
                lemma_pow2_pos((52 - top) as nat);
            }
            let unit: u64 = 1u64 << top;
            let scale: u64 = 1u64 << (52 - top);
            proof {
                let f = fraction as int;
                let u = unit as int;
                let c = scale as int;
                assert(top as nat + (52 - top) as nat == 52);
                assert(u * c == 0x10_0000_0000_0000);
                assert(0 <= (f - u) * c < u * c) by (nonlinear_arith)
                    requires
                        u <= f < 2 * u,
                        c > 0,
                ;
            }
            high + (top + 874) * 0x10_0000_0000_0000 + (fraction - unit) * scale
        }
    } else {
        high + (exponent + 896) * 0x10_0000_0000_0000 + fraction * 0x2000_0000
    }
}

/// The sign bit of a binary64 pattern.
pub open spec fn double_sign(bits: nat) -> nat {
    bits / 0x8000_0000_0000_0000
}

/// The biased exponent of a binary64 pattern.
pub open spec fn double_exponent(bits: nat) -> nat {
    bits / 0x10_0000_0000_0000 % 0x800
}

/// The fraction field of a binary64 pattern.
pub open spec fn double_fraction(bits: nat) -> nat {
    bits % 0x10_0000_0000_0000
}

/// The magnitude of the finite number that a binary32 pattern holds, in
/// units of `2^-149`.
pub open spec fn single_magnitude(bits: u32) -> nat {
    if single_exponent(bits) == 0 {
        single_fraction(bits)
    } else {
        (0x80_0000 + single_fraction(bits)) * pow2((single_exponent(bits) - 1) as nat)
    }
}

/// The magnitude of the finite number that a binary64 pattern holds, in
/// units of `2^-1074`.
pub open spec fn double_magnitude(bits: nat) -> nat {
    if double_exponent(bits) == 0 {
        double_fraction(bits)
    } else {
        (0x10_0000_0000_0000 + double_fraction(bits)) * pow2((double_exponent(bits) - 1) as nat)
    }
}

/// The fields of a binary64 pattern that was put together from them.
pub proof fn lemma_double_fields(sign: nat, exponent: nat, fraction: nat)
    requires
        sign <= 1,
        exponent < 0x800,
        fraction < 0x10_0000_0000_0000,
    ensures
        double_bits(sign, exponent, fraction) < 0x1_0000_0000_0000_0000,
        double_sign(double_bits(sign, exponent, fraction)) == sign,
        double_exponent(double_bits(sign, exponent, fraction)) == exponent,
        double_fraction(double_bits(sign, exponent, fraction)) == fraction,
{
    let low = exponent * 0x10_0000_0000_0000 + fraction;
    assert(low < 0x8000_0000_0000_0000);
    assert(low / 0x10_0000_0000_0000 == exponent);
    if sign == 1 {
        let bits = 0x8000_0000_0000_0000 + low;
        assert(bits == (0x800 + exponent) * 0x10_0000_0000_0000 + fraction);
        assert(bits / 0x10_0000_0000_0000 == 0x800 + exponent);
    }
}

/// Promotion keeps the number. The sign stays. A finite number stays
/// finite and keeps its magnitude: `2^-149` is `2^925` times `2^-1074`. An
/// infinity stays an infinity, and a NaN a NaN.
pub proof fn lemma_promotion_keeps_the_number(bits: u32)
    ensures
        promoted(bits) < 0x1_0000_0000_0000_0000,
        double_sign(promoted(bits)) == single_sign(bits),
        single_exponent(bits) != 0xff ==> double_exponent(promoted(bits)) != 0x7ff
            && double_magnitude(promoted(bits)) == single_magnitude(bits) * pow2(925),
        single_exponent(bits) == 0xff ==> double_exponent(promoted(bits)) == 0x7ff && (
        double_fraction(promoted(bits)) == 0 <==> single_fraction(bits) == 0),
{
    let sign = single_sign(bits);
    let exponent = single_exponent(bits);
    let fraction = single_fraction(bits);
    lemma_pow2_values();
    if exponent == 0xff {
        if fraction == 0 {
            lemma_double_fields(sign, 0x7ff, 0);
        } else {
            lemma_double_fields(
                sign,
                0x7ff,
                0x8_0000_0000_0000 + fraction % 0x40_0000 * 0x2000_0000,
            );
        }
    } else if exponent == 0 {
        if fraction == 0 {
            lemma_double_fields(sign, 0, 0);
            assert(0 * pow2(925) == 0);
        } else {
            let top = floor_log2(fraction);
            lemma_floor_log2_bounds(fraction);
            if top > 23 {
                lemma_pow2_strictly_increases(23, top);
            }
            let unit = pow2(top) as int;
            let scale = pow2((52 - top) as nat) as int;
            lemma_pow2_adds(top, (52 - top) as nat);
            lemma_pow2_adds(top, 1);
            lemma_pow2_pos((52 - top) as nat);
            assert(top + (52 - top) as nat == 52);
            let f = fraction as int;
            assert(0 <= (f - unit) * scale < unit * scale && unit * scale + (f - unit) * scale
                == f * scale) by (nonlinear_arith)
                requires
                    unit <= f < 2 * unit,
                    scale > 0,
            ;
            lemma_double_fields(sign, top + 874, ((f - unit) * scale) as nat);
            lemma_pow2_adds((52 - top) as nat, top + 873);
            assert((52 - top) as nat + (top + 873) == 925);
            let lift = pow2(top + 873) as int;
            assert(f * scale * lift == f * (scale * lift)) by (nonlinear_arith);
        }
    } else {
        lemma_double_fields(sign, exponent + 896, fraction * 0x2000_0000);
        lemma_pow2_adds(29, (exponent + 895) as nat);
        lemma_pow2_adds((exponent - 1) as nat, 925);
        assert(pow2(29) == 0x2000_0000) by {
            lemma2_to64();
        }
        assert(29 + (exponent + 895) == (exponent - 1) + 925);
        let m = (0x80_0000 + fraction) as int;
        let a = pow2(29) as int;
        let b = pow2((exponent + 895) as nat) as int;
        let c = pow2((exponent - 1) as nat) as int;
        let d = pow2(925) as int;
        assert(m * a * b == m * (a * b) && m * c * d == m * (c * d)) by (nonlinear_arith);
        assert(0x10_0000_0000_0000 + fraction * 0x2000_0000 == m * a);
    }
}

} // verus!
