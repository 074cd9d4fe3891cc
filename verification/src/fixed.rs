//! Fixed-point samples.
//!
//! The quantizer computes on signed 64-bit samples that count units of
//! `2^-32`: the sample `s` stands for the real number `s / 2^32`. This module
//! turns IEEE 754 single-precision bit patterns into such samples with
//! integer arithmetic only. The conversion rounds toward zero, saturates at
//! the ends of the sample range, and maps NaN to zero.

use vstd::arithmetic::power2::{
    lemma2_to64, lemma2_to64_rest, lemma_pow2_pos, lemma_pow2_strictly_increases, pow2,
};
use vstd::bits::{lemma_u64_shl_is_mul, lemma_u64_shr_is_div};
use vstd::prelude::*;

verus! {

/// The number of fraction bits of a sample.
pub const FRACTION_BITS: u32 = 32;

/// The sample that stands for the real number one, `2^FRACTION_BITS`.
pub const ONE: i64 = 0x1_0000_0000;

/// The sign bit: the pattern stands for a negative number (or negative zero).
pub open spec fn is_negative(bits: u32) -> bool {
    bits >= 0x8000_0000
}

/// The 8-bit biased exponent field.
pub open spec fn exponent_field(bits: u32) -> int {
    (bits as int / 0x80_0000) % 0x100
}

/// The 23-bit fraction field.
pub open spec fn fraction_field(bits: u32) -> int {
    bits as int % 0x80_0000
}

/// The pattern is a NaN.
pub open spec fn is_nan(bits: u32) -> bool {
    exponent_field(bits) == 0xff && fraction_field(bits) != 0
}

/// The pattern is an infinity.
pub open spec fn is_infinite(bits: u32) -> bool {
    exponent_field(bits) == 0xff && fraction_field(bits) == 0
}

/// The integer `m` of a finite pattern's absolute value `m * 2^e`: the
/// fraction, with the implicit leading bit unless the number is subnormal.
pub open spec fn significand(bits: u32) -> int {
    if exponent_field(bits) == 0 {
        fraction_field(bits)
    } else {
        0x80_0000 + fraction_field(bits)
    }
}

/// The exponent `e` of a finite pattern's absolute value `m * 2^e`.
pub open spec fn binary_exponent(bits: u32) -> int {
    if exponent_field(bits) == 0 {
        -149
    } else {
        exponent_field(bits) - 150
    }
}

/// The absolute value of a finite pattern in units of `2^-32`, rounded
/// down: `floor(m * 2^(e + 32))`.
pub open spec fn magnitude(bits: u32) -> int {
    let shift = binary_exponent(bits) + FRACTION_BITS;
    if shift >= 0 {
        significand(bits) * pow2(shift as nat)
    } else {
        significand(bits) / (pow2((-shift) as nat) as int)
    }
}

/// The sample of a bit pattern: its value times `2^32`, rounded toward zero
/// and limited to the range of `i64`; zero for a NaN.
pub open spec fn sample_of(bits: u32) -> int {
    if is_nan(bits) {
        0
    } else if is_infinite(bits) || magnitude(bits) > i64::MAX {
        if is_negative(bits) {
            i64::MIN as int
        } else {
            i64::MAX as int
        }
    } else if is_negative(bits) {
        -magnitude(bits)
    } else {
        magnitude(bits)
    }
}

/// The samples of a sequence of bit patterns.
pub open spec fn samples_of(words: Seq<u32>) -> Seq<i64> {
    Seq::new(words.len(), |i: int| sample_of(words[i]) as i64)
}

/// Every sample fits in an `i64`.
pub proof fn lemma_sample_fits(bits: u32)
    ensures
        i64::MIN <= sample_of(bits) <= i64::MAX,
{
    let shift = binary_exponent(bits) + FRACTION_BITS;
    if shift >= 0 {
        assert(0 <= significand(bits) * pow2(shift as nat)) by (nonlinear_arith)
            requires
                0 <= significand(bits),
        ;
    } else {
        let m = significand(bits);
        let d = pow2((-shift) as nat) as int;
        lemma_pow2_pos((-shift) as nat);
        assert(0 <= m / d) by (nonlinear_arith)
            requires
                0 <= m,
                0 < d,
        ;
    }
}

/// The sample of one bit pattern.
pub fn sample_from_bits(bits: u32) -> (sample: i64)
    ensures
        sample == sample_of(bits),
{
    let negative = bits >= 0x8000_0000;
    let exponent: u32 = (bits / 0x80_0000) % 0x100;
    let fraction: u32 = bits % 0x80_0000;
    let limit: i64 = if negative {
        i64::MIN
    } else {
        i64::MAX
    };
    if exponent == 0xff {
        return if fraction != 0 {
            0
        } else {
            limit
        };
    }
    proof {
        lemma2_to64();
        lemma2_to64_rest();
    }
    if exponent == 0 {
        // Subnormal: below 2^-126, far below one unit.
        proof {
            lemma_pow2_strictly_increases(23, 117);
            assert(fraction as int / (pow2(117) as int) == 0) by (nonlinear_arith)
                requires
                    0 <= fraction < 0x80_0000,
                    pow2(117) > 0x80_0000,
            ;
        }
        return 0;
    }
    let m: u64 = 0x80_0000 + fraction as u64;
    let size: u64 = if exponent >= 118 {
        let up: u32 = exponent - 118;
        if up >= 40 {
            proof {
                if up > 40 {
                    lemma_pow2_strictly_increases(40, up as nat);
                }
                assert(m * pow2(up as nat) > i64::MAX) by (nonlinear_arith)
                    requires
                        m >= 0x80_0000,
                        pow2(up as nat) >= 0x100_0000_0000,
                ;
            }
            return limit;
        }
        proof {
            if up < 39 {
                lemma_pow2_strictly_increases(up as nat, 39);
            }
            assert(m * pow2(up as nat) <= i64::MAX) by (nonlinear_arith)
                requires
                    m < 0x100_0000,
                    pow2(up as nat) <= 0x80_0000_0000,
            ;
            lemma_u64_shl_is_mul(m, up as u64);
        }
        m << (up as u64)
    } else {
        let down: u32 = 118 - exponent;
        if down >= 24 {
            proof {
                if down > 24 {
                    lemma_pow2_strictly_increases(24, down as nat);
                }
                assert(m as int / (pow2(down as nat) as int) == 0) by (nonlinear_arith)
                    requires
                        0 <= m < 0x100_0000,
                        pow2(down as nat) >= 0x100_0000,
                ;
            }
            0
        } else {
            proof {
                lemma_u64_shr_is_div(m, down as u64);
            }
            m >> (down as u64)
        }
    };
    if negative {
        -(size as i64)
    } else {
        size as i64
    }
}

/// The samples of a run of bit patterns, in the same order.
pub fn samples_from_bits(words: &[u32]) -> (samples: Vec<i64>)
    ensures
        samples@ == samples_of(words@),
{
    let mut samples: Vec<i64> = Vec::with_capacity(words.len());
    let mut i: usize = 0;
    while i < words.len()
        invariant
            i <= words@.len(),
            samples@ == samples_of(words@.take(i as int)),
        decreases words@.len() - i,
    {
        samples.push(sample_from_bits(words[i]));
        i += 1;
        assert(samples@ =~= samples_of(words@.take(i as int)));
    }
    assert(words@.take(i as int) =~= words@);
    samples
}

} // verus!
