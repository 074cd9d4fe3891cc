//! The vector quantizer: per-dimension bounds and parameters in a first
//! pass over the batch, one code per value in a second.
//!
//! A batch is a flat, row-major slice: the value of vector `v` in dimension
//! `i` stands at position `v * dim + i`, and so does its code.

use crate::bounds::{
    high_of, lemma_bounds_are_samples, lemma_constant_bounds, lemma_full_quantile_is_min_max,
    low_of, max_of, min_of, select_bounds, valid_quantile, Quantile, QuantileView,
};
use crate::error::ErrorKind;
use crate::params::{
    code_of, lemma_code_in_range, lemma_code_monotonic, lemma_round_trip, params_of, value_of,
    DimensionParams, ParamsView, MAX_CODE, MID_CODE,
};
use vstd::arithmetic::div_mod::lemma_fundamental_div_mod_converse;
use vstd::prelude::*;

verus! {

/// The samples of dimension `i` of a batch, one per vector.
pub open spec fn column(values: Seq<i64>, num_vectors: int, dim: int, i: int) -> Seq<i64> {
    Seq::new(num_vectors as nat, |v: int| values[v * dim + i])
}

/// The parameters of dimension `i` of a batch.
pub open spec fn params_at(
    values: Seq<i64>,
    num_vectors: int,
    dim: int,
    q: QuantileView,
    i: int,
) -> ParamsView {
    let samples = column(values, num_vectors, dim, i);
    params_of(low_of(samples, q) as int, high_of(samples, q) as int)
}

/// The code at position `k` of a batch: the value there under the
/// parameters of its dimension, `k % dim`.
pub open spec fn code_at(values: Seq<i64>, num_vectors: int, dim: int, q: QuantileView, k: int) -> u8 {
    let p = params_at(values, num_vectors, dim, q, k % dim);
    code_of(p.offset, p.span, values[k] as int) as u8
}

/// What a `QuantizedBatch` holds.
pub struct BatchView {
    pub num_vectors: nat,
    pub params: Seq<ParamsView>,
    pub codes: Seq<u8>,
}

/// The result of quantizing `values` as `num_vectors` vectors of `dim`
/// dimensions at quantile `q`.
pub open spec fn quantized(values: Seq<i64>, num_vectors: int, dim: int, q: QuantileView) -> BatchView {
    BatchView {
        num_vectors: num_vectors as nat,
        params: Seq::new(dim as nat, |i: int| params_at(values, num_vectors, dim, q, i)),
        codes: Seq::new(values.len(), |k: int| code_at(values, num_vectors, dim, q, k)),
    }
}

/// A quantized batch: the parameters of each dimension and the codes of all
/// values, row-major.
#[derive(Debug)]
pub struct QuantizedBatch {
    num_vectors: usize,
    params: Vec<DimensionParams>,
    codes: Vec<u8>,
}

impl View for QuantizedBatch {
    type V = BatchView;

    closed spec fn view(&self) -> BatchView {
        BatchView {
            num_vectors: self.num_vectors as nat,
            params: Seq::new(self.params@.len(), |i: int| self.params@[i]@),
            codes: self.codes@,
        }
    }
}

impl QuantizedBatch {
    /// There is one code for each vector and dimension.
    #[verifier::type_invariant]
    closed spec fn is_rectangular(self) -> bool {
        self.codes@.len() == self.num_vectors * self.params@.len()
    }

    /// The number of vectors in the batch.
    pub fn num_vectors(&self) -> (n: usize)
        ensures
            n == self@.num_vectors,
            self@.codes.len() == self@.num_vectors * self@.params.len(),
    {
        proof {
            use_type_invariant(self);
        }
        self.num_vectors
    }

    /// The number of dimensions of each vector.
    pub fn dim(&self) -> (dim: usize)
        ensures
            dim == self@.params.len(),
    {
        self.params.len()
    }

    /// The parameters, one entry per dimension.
    pub fn params(&self) -> (params: &[DimensionParams])
        ensures
            params@.len() == self@.params.len(),
            forall|i: int| 0 <= i < params@.len() ==> (#[trigger] params@[i])@ == self@.params[i],
    {
        self.params.as_slice()
    }

    /// The codes, row-major.
    pub fn codes(&self) -> (codes: &[u8])
        ensures
            codes@ == self@.codes,
    {
        self.codes.as_slice()
    }

    /// The code of vector `vector` in dimension `dimension`, which stands
    /// at position `vector * dim + dimension`.
    pub fn code(&self, vector: usize, dimension: usize) -> (code: u8)
        requires
            vector < self@.num_vectors,
            dimension < self@.params.len(),
        ensures
            vector * self@.params.len() + dimension < self@.codes.len(),
            code == self@.codes[vector * self@.params.len() + dimension],
    {
        let dim = self.params.len();
        let total = self.codes.len();
        proof {
            use_type_invariant(self);
            assert(total == self.num_vectors * dim);
            lemma_position_in_batch(
                vector as int,
                dimension as int,
                self.num_vectors as int,
                dim as int,
            );
            assert(0 <= vector * dim) by (nonlinear_arith);
        }
        self.codes[vector * dim + dimension]
    }

    /// The value that `code` stands for in dimension `dimension_index`.
    pub fn dequantize(&self, code: u8, dimension_index: usize) -> (value: i64)
        requires
            dimension_index < self@.params.len(),
        ensures
            value == value_of(
                self@.params[dimension_index as int].offset,
                self@.params[dimension_index as int].span,
                code as int,
            ),
    {
        self.params[dimension_index].dequantize(code)
    }
}

/// A quantizer: a validated quantile and nothing else. Quantizing reads it
/// and changes nothing.
#[derive(Clone, Copy, Debug)]
pub struct ScalarQuantizer {
    quantile: Quantile,
}

impl View for ScalarQuantizer {
    type V = QuantileView;

    closed spec fn view(&self) -> QuantileView {
        self.quantile@
    }
}

impl ScalarQuantizer {
    /// A quantizer for the quantile `numer / denom`, which must lie in
    /// (0, 1].
    pub fn new(numer: u64, denom: u64) -> (made: Result<ScalarQuantizer, ErrorKind>)
        ensures
            0 < numer <= denom ==> made is Ok && made->Ok_0@ == (QuantileView {
                numer: numer as int,
                denom: denom as int,
            }),
            !(0 < numer <= denom) ==> made is Err && made->Err_0 == ErrorKind::InvalidParameter,
    {
        match Quantile::new(numer, denom) {
            Ok(quantile) => Ok(ScalarQuantizer { quantile }),
            Err(e) => Err(e),
        }
    }

    /// The quantile of this quantizer.
    pub fn quantile(&self) -> (quantile: Quantile)
        ensures
            quantile@ == self@,
    {
        self.quantile
    }

    /// Quantizes a batch of `num_vectors` vectors of `dim` dimensions.
    ///
    /// Fails with `ShapeMismatch` when `values` does not hold
    /// `num_vectors * dim` values, and with `InsufficientData` when there
    /// are dimensions but no vector to take samples from.
    pub fn quantize(&self, values: &[i64], num_vectors: usize, dim: usize) -> (result: Result<
        QuantizedBatch,
        ErrorKind,
    >)
        ensures
            values@.len() != num_vectors * dim ==> result is Err && result->Err_0
                == ErrorKind::ShapeMismatch,
            values@.len() == num_vectors * dim && dim > 0 && num_vectors == 0 ==> result is Err
                && result->Err_0 == ErrorKind::InsufficientData,
            values@.len() == num_vectors * dim && (dim == 0 || num_vectors > 0) ==> result is Ok
                && result->Ok_0@ == quantized(values@, num_vectors as int, dim as int, self@),
    {
        let len = values.len();
        let shape_fits = match num_vectors.checked_mul(dim) {
            Some(n) => n == len,
            None => false,
        };
        if !shape_fits {
            return Err(ErrorKind::ShapeMismatch);
        }
        if dim > 0 && num_vectors == 0 {
            return Err(ErrorKind::InsufficientData);
        }
        let params = self.derive_params(values, num_vectors, dim);
        let codes = encode_all(values, num_vectors, dim, &params, Ghost(self@));
        let batch = QuantizedBatch { num_vectors, params, codes };
        assert(batch@ == quantized(values@, num_vectors as int, dim as int, self@)) by {
            assert(batch@.params =~= quantized(
                values@,
                num_vectors as int,
                dim as int,
                self@,
            ).params);
        }
        Ok(batch)
    }

    /// First pass: bounds and parameters of every dimension.
    fn derive_params(&self, values: &[i64], num_vectors: usize, dim: usize) -> (params: Vec<
        DimensionParams,
    >)
        requires
            values@.len() == num_vectors * dim,
            dim == 0 || num_vectors > 0,
        ensures
            params@.len() == dim,
            forall|i: int|
                0 <= i < dim ==> (#[trigger] params@[i])@ == params_at(
                    values@,
                    num_vectors as int,
                    dim as int,
                    self@,
                    i,
                ),
    {
        let mut params: Vec<DimensionParams> = Vec::new();
        let mut i: usize = 0;
        while i < dim
            invariant
                i <= dim,
                values@.len() == num_vectors * dim,
                dim == 0 || num_vectors > 0,
                params@.len() == i,
                forall|j: int|
                    0 <= j < i ==> (#[trigger] params@[j])@ == params_at(
                        values@,
                        num_vectors as int,
                        dim as int,
                        self@,
                        j,
                    ),
            decreases dim - i,
        {
            let samples = gather_column(values, num_vectors, dim, i);
            let bounds = select_bounds(samples.as_slice(), &self.quantile);
            params.push(DimensionParams::derive(bounds.low, bounds.high));
            i += 1;
        }
        params
    }
}

/// Position `v * dim + i` lies inside a batch of `n` vectors.
proof fn lemma_position_in_batch(v: int, i: int, n: int, dim: int)
    requires
        0 <= v < n,
        0 <= i < dim,
    ensures
        0 <= v * dim + i < n * dim,
        v * dim + dim <= n * dim,
        (v * dim + i) % dim == i,
        (v * dim + i) / dim == v,
{
    assert(0 <= v * dim && v * dim + dim <= n * dim) by (nonlinear_arith)
        requires
            0 <= v < n,
            0 < dim,
    ;
    lemma_fundamental_div_mod_converse(v * dim + i, dim, v, i);
}

/// The samples of dimension `i`, one per vector.
fn gather_column(values: &[i64], num_vectors: usize, dim: usize, i: usize) -> (samples: Vec<i64>)
    requires
        values@.len() == num_vectors * dim,
        i < dim,
    ensures
        samples@ == column(values@, num_vectors as int, dim as int, i as int),
{
    let mut samples: Vec<i64> = Vec::with_capacity(num_vectors);
    let mut v: usize = 0;
    let mut at: usize = i;
    while v < num_vectors
        invariant
            v <= num_vectors,
            i < dim,
            values@.len() == num_vectors * dim,
            v < num_vectors ==> at == v * dim + i,
            samples@.len() == v,
            forall|w: int| 0 <= w < v ==> #[trigger] samples@[w] == values@[w * dim + i],
        decreases num_vectors - v,
    {
        proof {
            lemma_position_in_batch(v as int, i as int, num_vectors as int, dim as int);
            if v + 1 < num_vectors {
                lemma_position_in_batch(v + 1, i as int, num_vectors as int, dim as int);
            }
            assert((v + 1) * dim + i == v * dim + i + dim) by (nonlinear_arith);
        }
        samples.push(values[at]);
        v += 1;
        if v < num_vectors {
            at += dim;
        }
    }
    assert(samples@ =~= column(values@, num_vectors as int, dim as int, i as int));
    samples
}

/// Second pass: the code of every value under its dimension's parameters.
fn encode_all(
    values: &[i64],
    num_vectors: usize,
    dim: usize,
    params: &Vec<DimensionParams>,
    Ghost(q): Ghost<QuantileView>,
) -> (codes: Vec<u8>)
    requires
        values@.len() == num_vectors * dim,
        params@.len() == dim,
        forall|i: int|
            0 <= i < dim ==> (#[trigger] params@[i])@ == params_at(
                values@,
                num_vectors as int,
                dim as int,
                q,
                i,
            ),
    ensures
        codes@ == Seq::new(
            values@.len(),
            |k: int| code_at(values@, num_vectors as int, dim as int, q, k),
        ),
{
    let n = values.len();
    let mut codes: Vec<u8> = Vec::with_capacity(n);
    let mut k: usize = 0;
    let mut i: usize = 0;
    while k < n
        invariant
            k <= n,
            n == values@.len(),
            n == num_vectors * dim,
            params@.len() == dim,
            k < n ==> i < dim && i == (k as int) % (dim as int),
            forall|j: int|
                0 <= j < dim ==> (#[trigger] params@[j])@ == params_at(
                    values@,
                    num_vectors as int,
                    dim as int,
                    q,
                    j,
                ),
            codes@.len() == k,
            forall|j: int|
                0 <= j < k ==> #[trigger] codes@[j] == code_at(
                    values@,
                    num_vectors as int,
                    dim as int,
                    q,
                    j,
                ),
        decreases n - k,
    {
        let p = &params[i];
        proof {
            lemma_code_in_range(p@.offset, p@.span, values@[k as int] as int);
            lemma_next_dimension(k as int, dim as int);
        }
        codes.push(p.quantize(values[k]));
        k += 1;
        i += 1;
        if i == dim {
            i = 0;
        }
    }
    codes
}

/// Stepping to the next position steps to the next dimension, and from the
/// last dimension back to the first.
proof fn lemma_next_dimension(k: int, dim: int)
    requires
        0 <= k,
        0 < dim,
    ensures
        0 <= k % dim < dim,
        (k + 1) % dim == if k % dim + 1 == dim {
            0
        } else {
            k % dim + 1
        },
{
    let r = k % dim;
    let d = k / dim;
    assert(k == d * dim + r && 0 <= r < dim) by (nonlinear_arith)
        requires
            0 < dim,
            r == k % dim,
            d == k / dim,
    ;
    if r + 1 == dim {
        assert(k + 1 == (d + 1) * dim + 0) by (nonlinear_arith)
            requires
                k == d * dim + r,
                r + 1 == dim,
        ;
        lemma_fundamental_div_mod_converse(k + 1, dim, d + 1, 0);
    } else {
        lemma_fundamental_div_mod_converse(k + 1, dim, d, r + 1);
    }
}

/// The bounds of every dimension of a non-empty batch are ordered, so no
/// span is negative.
pub proof fn lemma_span_not_negative(
    values: Seq<i64>,
    num_vectors: int,
    dim: int,
    q: QuantileView,
    i: int,
)
    requires
        valid_quantile(q.numer, q.denom),
        num_vectors > 0,
    ensures
        params_at(values, num_vectors, dim, q, i).span >= 0,
{
    lemma_bounds_are_samples(column(values, num_vectors, dim, i), q);
}

/// Every code is the clamped, rounded image of its value and lies in
/// `0..=255`: nothing wraps.
pub proof fn lemma_codes_in_range(
    values: Seq<i64>,
    num_vectors: int,
    dim: int,
    q: QuantileView,
    k: int,
)
    ensures
        ({
            let p = params_at(values, num_vectors, dim, q, k % dim);
            code_at(values, num_vectors, dim, q, k) as int == code_of(
                p.offset,
                p.span,
                values[k] as int,
            )
        }),
        0 <= code_at(values, num_vectors, dim, q, k) <= MAX_CODE,
{
    let p = params_at(values, num_vectors, dim, q, k % dim);
    lemma_code_in_range(p.offset, p.span, values[k] as int);
}

/// Quantizing is a function of its inputs: two results for the same batch,
/// shape and quantile hold the same parameters and the same codes.
pub proof fn lemma_quantize_deterministic(
    first: BatchView,
    second: BatchView,
    values: Seq<i64>,
    num_vectors: int,
    dim: int,
    q: QuantileView,
)
    requires
        first == quantized(values, num_vectors, dim, q),
        second == quantized(values, num_vectors, dim, q),
    ensures
        first.params == second.params,
        first.codes == second.codes,
        first == second,
{
}

/// A value inside the bounds of its dimension comes back from its code
/// within one quantization step, `span / 255`, and exactly in a constant
/// dimension.
pub proof fn lemma_batch_round_trip(
    values: Seq<i64>,
    num_vectors: int,
    dim: int,
    q: QuantileView,
    k: int,
)
    requires
        valid_quantile(q.numer, q.denom),
        num_vectors > 0,
        ({
            let p = params_at(values, num_vectors, dim, q, k % dim);
            p.offset <= values[k] <= p.offset + p.span
        }),
    ensures
        ({
            let p = params_at(values, num_vectors, dim, q, k % dim);
            let back = value_of(p.offset, p.span, code_at(values, num_vectors, dim, q, k) as int);
            &&& 255 * (back - values[k]) <= p.span
            &&& 255 * (values[k] - back) <= p.span
            &&& p.span == 0 ==> back == values[k]
        }),
{
    let p = params_at(values, num_vectors, dim, q, k % dim);
    lemma_codes_in_range(values, num_vectors, dim, q, k);
    lemma_round_trip(p.offset, p.span, values[k] as int);
}

/// Within one dimension, a larger value never gets a smaller code.
pub proof fn lemma_batch_monotonic(
    values: Seq<i64>,
    num_vectors: int,
    dim: int,
    q: QuantileView,
    k1: int,
    k2: int,
)
    requires
        k1 % dim == k2 % dim,
        values[k1] <= values[k2],
    ensures
        code_at(values, num_vectors, dim, q, k1) <= code_at(values, num_vectors, dim, q, k2),
{
    let p = params_at(values, num_vectors, dim, q, k1 % dim);
    lemma_codes_in_range(values, num_vectors, dim, q, k1);
    lemma_codes_in_range(values, num_vectors, dim, q, k2);
    lemma_code_monotonic(p.offset, p.span, values[k1] as int, values[k2] as int);
}

/// A dimension in which every vector holds the same value `c` gets the
/// zero scale, offset `c`, and the midpoint code at every position.
pub proof fn lemma_constant_dimension(
    values: Seq<i64>,
    num_vectors: int,
    dim: int,
    q: QuantileView,
    i: int,
    c: i64,
)
    requires
        valid_quantile(q.numer, q.denom),
        num_vectors > 0,
        0 <= i < dim,
        forall|v: int| 0 <= v < num_vectors ==> #[trigger] values[v * dim + i] == c,
    ensures
        params_at(values, num_vectors, dim, q, i) == (ParamsView { offset: c as int, span: 0 }),
        forall|v: int|
            0 <= v < num_vectors ==> #[trigger] code_at(values, num_vectors, dim, q, v * dim + i)
                == MID_CODE,
{
    let samples = column(values, num_vectors, dim, i);
    lemma_constant_bounds(samples, q, c);
    assert forall|v: int| 0 <= v < num_vectors implies #[trigger] code_at(
        values,
        num_vectors,
        dim,
        q,
        v * dim + i,
    ) == MID_CODE by {
        lemma_position_in_batch(v, i, num_vectors, dim);
    }
}

/// At quantile 1 the parameters of a dimension are those of plain min-max
/// scaling: the offset is the minimum and the span is maximum minus
/// minimum.
pub proof fn lemma_full_quantile_is_min_max_scaling(
    values: Seq<i64>,
    num_vectors: int,
    dim: int,
    q: QuantileView,
    i: int,
)
    requires
        0 < q.numer,
        q.numer == q.denom,
        num_vectors > 0,
    ensures
        ({
            let samples = column(values, num_vectors, dim, i);
            params_at(values, num_vectors, dim, q, i) == params_of(
                min_of(samples) as int,
                max_of(samples) as int,
            )
        }),
{
    lemma_full_quantile_is_min_max(column(values, num_vectors, dim, i), q);
}

} // verus!
