//! Per-dimension mapping between fixed-point values and 8-bit codes.
//!
//! A dimension with bounds `[low, high]` is mapped affinely onto the codes
//! `0..=255`: `offset = low` and `scale = (high - low) / 255`, kept exactly as
//! the numerator `span = high - low` over the denominator `CODE_STEPS`.
//! A constant dimension (`span == 0`) always encodes to `MID_CODE`.

use vstd::prelude::*;

verus! {

/// Width of a code in bits.
pub const CODE_BITS: u32 = 8;

/// The largest code, `2^CODE_BITS - 1`; also the denominator of every scale.
pub const MAX_CODE: u8 = 255;

/// The code of every value of a constant dimension, `2^(CODE_BITS - 1)`.
pub const MID_CODE: u8 = 128;

/// `n / d` rounded to the nearest integer, halves rounded up (`d > 0`):
/// the quotient, and one more when the remainder is at least half of `d`.
pub open spec fn round_div(n: int, d: int) -> int {
    if 2 * (n % d) >= d {
        n / d + 1
    } else {
        n / d
    }
}

/// `x` limited to the interval `[lo, hi]`.
pub open spec fn clamp(x: int, lo: int, hi: int) -> int {
    if x < lo {
        lo
    } else if x > hi {
        hi
    } else {
        x
    }
}

/// The code of value `v` in a dimension with the given offset and span:
/// `round(clamp((v - offset) / scale, 0, 255))` with `scale = span / 255`,
/// and the midpoint code when the span is zero.
pub open spec fn code_of(offset: int, span: int, v: int) -> int {
    if span <= 0 {
        MID_CODE as int
    } else {
        round_div(clamp(255 * (v - offset), 0, 255 * span), span)
    }
}

/// The value that a code stands for: `offset + code * scale`, rounded to the
/// nearest representable value. With a zero span this is `offset` itself.
pub open spec fn value_of(offset: int, span: int, code: int) -> int {
    offset + round_div(code * span, 255)
}

/// `round_div(n, d)` is the one integer `c` with `c - 1/2 <= n / d < c + 1/2`,
/// which is the floor of `(2 * n + d) / (2 * d)`.
pub proof fn lemma_round_div(n: int, d: int)
    requires
        d > 0,
    ensures
        2 * (d * round_div(n, d)) <= 2 * n + d < 2 * (d * round_div(n, d)) + 2 * d,
        round_div(n, d) == (2 * n + d) / (2 * d),
{
    let q = n / d;
    let r = n % d;
    let c = round_div(n, d);
    assert(n == d * q + r && 0 <= r < d) by (nonlinear_arith)
        requires
            d > 0,
            q == n / d,
            r == n % d,
    ;
    assert(d * (q + 1) == d * q + d) by (nonlinear_arith);
    assert(2 * (d * c) <= 2 * n + d < 2 * (d * c) + 2 * d);
    assert(c == (2 * n + d) / (2 * d)) by (nonlinear_arith)
        requires
            d > 0,
            2 * (d * c) <= 2 * n + d < 2 * (d * c) + 2 * d,
    ;
}

/// Codes never leave `0..=255`.
pub proof fn lemma_code_in_range(offset: int, span: int, v: int)
    ensures
        0 <= code_of(offset, span, v) <= MAX_CODE as int,
{
    if span > 0 {
        let n = clamp(255 * (v - offset), 0, 255 * span);
        lemma_round_div(n, span);
        assert(0 <= (2 * n + span) / (2 * span) <= 255) by (nonlinear_arith)
            requires
                span > 0,
                0 <= n <= 255 * span,
        ;
    }
}

/// A larger value never gets a smaller code.
pub proof fn lemma_code_monotonic(offset: int, span: int, v1: int, v2: int)
    requires
        v1 <= v2,
    ensures
        code_of(offset, span, v1) <= code_of(offset, span, v2),
{
    if span > 0 {
        let n1 = clamp(255 * (v1 - offset), 0, 255 * span);
        let n2 = clamp(255 * (v2 - offset), 0, 255 * span);
        assert(n1 <= n2);
        lemma_round_div(n1, span);
        lemma_round_div(n2, span);
        assert((2 * n1 + span) / (2 * span) <= (2 * n2 + span) / (2 * span)) by (nonlinear_arith)
            requires
                span > 0,
                n1 <= n2,
        ;
    }
}

/// The two ends of the range take the two ends of the code space.
pub proof fn lemma_code_at_ends(offset: int, span: int, v: int)
    requires
        span > 0,
    ensures
        v <= offset ==> code_of(offset, span, v) == 0,
        v >= offset + span ==> code_of(offset, span, v) == MAX_CODE as int,
{
    lemma_round_div(0, span);
    lemma_round_div(255 * span, span);
    assert((2 * 0 + span) / (2 * span) == 0) by (nonlinear_arith)
        requires
            span > 0,
    ;
    assert((2 * (255 * span) + span) / (2 * span) == 255) by (nonlinear_arith)
        requires
            span > 0,
    ;
}

/// Decoding stays inside the range `[offset, offset + span]`.
pub proof fn lemma_value_in_range(offset: int, span: int, code: int)
    requires
        span >= 0,
        0 <= code <= MAX_CODE as int,
    ensures
        offset <= value_of(offset, span, code) <= offset + span,
{
    let n = code * span;
    assert(0 <= n <= 255 * span) by (nonlinear_arith)
        requires
            span >= 0,
            0 <= code <= 255,
            n == code * span,
    ;
    lemma_round_div(n, 255);
}

/// A larger code never stands for a smaller value.
pub proof fn lemma_value_monotonic(offset: int, span: int, c1: int, c2: int)
    requires
        span >= 0,
        c1 <= c2,
    ensures
        value_of(offset, span, c1) <= value_of(offset, span, c2),
{
    let n1 = c1 * span;
    let n2 = c2 * span;
    assert(n1 <= n2) by (nonlinear_arith)
        requires
            span >= 0,
            c1 <= c2,
            n1 == c1 * span,
            n2 == c2 * span,
    ;
    lemma_round_div(n1, 255);
    lemma_round_div(n2, 255);
}

/// Encoding a value of the range and decoding it again moves it by at most
/// one quantization step: `|decoded - v| <= span / 255`. In a constant
/// dimension the value comes back exactly.
pub proof fn lemma_round_trip(offset: int, span: int, v: int)
    requires
        span >= 0,
        offset <= v <= offset + span,
    ensures
        255 * (value_of(offset, span, code_of(offset, span, v)) - v) <= span,
        255 * (v - value_of(offset, span, code_of(offset, span, v))) <= span,
        span == 0 ==> value_of(offset, span, code_of(offset, span, v)) == v,
{
    let c = code_of(offset, span, v);
    let m = c * span;
    lemma_round_div(m, 255);
    if span == 0 {
        assert(m == 0) by (nonlinear_arith)
            requires
                m == c * span,
                span == 0,
        ;
    } else {
        let n = 255 * (v - offset);
        assert(clamp(n, 0, 255 * span) == n);
        lemma_round_div(n, span);
        assert(span * c == m) by (nonlinear_arith)
            requires
                m == c * span,
        ;
    }
}

/// What a `DimensionParams` holds, as mathematical integers: the scale is
/// the fraction `span / 255`.
pub struct ParamsView {
    pub offset: int,
    pub span: int,
}

/// The parameters that `derive` gives for the bounds `[low, high]`.
pub open spec fn params_of(low: int, high: int) -> ParamsView {
    ParamsView { offset: low, span: high - low }
}

/// The affine map of one dimension. `offset` is the lower bound and
/// `scale = span / 255` the width of one code step; a span of zero marks a
/// constant dimension.
#[derive(Clone, Copy, Debug, PartialEq, Eq)]
pub struct DimensionParams {
    offset: i64,
    span: u64,
}

impl View for DimensionParams {
    type V = ParamsView;

    closed spec fn view(&self) -> ParamsView {
        ParamsView { offset: self.offset as int, span: self.span as int }
    }
}

impl DimensionParams {
    /// The upper bound `offset + span` is itself a representable value.
    #[verifier::type_invariant]
    closed spec fn upper_bound_fits(self) -> bool {
        self.offset + self.span <= i64::MAX
    }

    /// The parameters for a dimension whose bounds are `[low, high]`.
    pub fn derive(low: i64, high: i64) -> (params: DimensionParams)
        requires
            low <= high,
        ensures
            params@ == params_of(low as int, high as int),
    {
        let span: u64 = (high as i128 - low as i128) as u64;
        DimensionParams { offset: low, span }
    }

    /// The lower bound of the dimension.
    pub fn offset(&self) -> (offset: i64)
        ensures
            offset == self@.offset,
    {
        self.offset
    }

    /// The numerator of the scale; the denominator is `MAX_CODE`.
    pub fn span(&self) -> (span: u64)
        ensures
            span == self@.span,
    {
        self.span
    }

    /// Whether the dimension is constant, that is, the scale is the zero
    /// sentinel.
    pub fn is_constant(&self) -> (constant: bool)
        ensures
            constant == (self@.span == 0),
    {
        self.span == 0
    }

    /// The code of `v`: values below the range give 0, values above it 255.
    pub fn quantize(&self, v: i64) -> (code: u8)
        ensures
            code == code_of(self@.offset, self@.span, v as int),
    {
        proof {
            use_type_invariant(self);
            lemma_code_in_range(self@.offset, self@.span, v as int);
        }
        if self.span == 0 {
            return MID_CODE;
        }
        let span: i128 = self.span as i128;
        let d: i128 = v as i128 - self.offset as i128;
        if d <= 0 {
            proof {
                lemma_code_at_ends(self@.offset, self@.span, v as int);
            }
            0
        } else if d >= span {
            proof {
                lemma_code_at_ends(self@.offset, self@.span, v as int);
            }
            MAX_CODE
        } else {
            proof {
                assert(clamp(255 * (v - self@.offset), 0, 255 * self@.span) == 255 * d);
                lemma_round_div(255 * d, span as int);
            }
            let q: i128 = (510 * d + span) / (2 * span);
            q as u8
        }
    }

    /// The value that `code` stands for, `offset + code * scale`.
    pub fn dequantize(&self, code: u8) -> (value: i64)
        ensures
            value == value_of(self@.offset, self@.span, code as int),
    {
        proof {
            use_type_invariant(self);
            lemma_value_in_range(self@.offset, self@.span, code as int);
        }
        assert(0 <= code * self.span <= 255 * self.span) by (nonlinear_arith)
            requires
                code <= 255,
        ;
        let n: u128 = code as u128 * self.span as u128;
        let r: u128 = (2 * n + 255) / 510;
        (self.offset as i128 + r as i128) as i64
    }
}

} // verus!
