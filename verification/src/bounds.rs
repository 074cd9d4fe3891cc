//! Robust per-dimension bounds: the lowest and highest sample that remain
//! after the same number of samples is trimmed from each tail.
//!
//! Selection policy: for `n` samples and quantile `q`, `floor(n * (1 - q) / 2)`
//! samples are dropped from each end of the ascending order, and the bounds
//! are the first and last sample that remain. No interpolation takes place,
//! so both bounds are samples of the dimension. Both order statistics are
//! read from one merge-sorted copy of the dimension's samples.

use crate::error::ErrorKind;
use vstd::prelude::*;
use vstd::relations::{sorted_by, total_ordering};
use vstd::seq_lib::{lemma_multiset_commutative, lemma_sorted_unique, to_multiset_build};

verus! {

/// The order on samples.
pub open spec fn at_most() -> spec_fn(i64, i64) -> bool {
    |a: i64, b: i64| a <= b
}

/// No sample is followed by a smaller one.
pub open spec fn is_ascending(s: Seq<i64>) -> bool {
    forall|i: int, j: int| 0 <= i <= j < s.len() ==> s[i] <= s[j]
}

/// The samples of `s` in ascending order.
pub open spec fn ranked(s: Seq<i64>) -> Seq<i64> {
    s.sort_by(at_most())
}

/// `ranked(s)` is ascending and is a rearrangement of `s`.
pub proof fn lemma_ranked(s: Seq<i64>)
    ensures
        is_ascending(ranked(s)),
        ranked(s).to_multiset() == s.to_multiset(),
        ranked(s).len() == s.len(),
        forall|i: int| 0 <= i < s.len() ==> s.contains(#[trigger] ranked(s)[i]),
        forall|i: int| 0 <= i < s.len() ==> ranked(s).contains(#[trigger] s[i]),
{
    broadcast use vstd::seq_lib::group_to_multiset_ensures;

    assert(total_ordering(at_most()));
    s.lemma_sort_by_ensures(at_most());
    let r = ranked(s);
    assert(r.len() == s.len()) by {
        assert(r.to_multiset().len() == s.to_multiset().len());
    }
    assert(is_ascending(r)) by {
        assert forall|i: int, j: int| 0 <= i <= j < r.len() implies r[i] <= r[j] by {
            if i < j {
                assert(at_most()(r[i], r[j]));
            }
        }
    }
    assert forall|i: int| 0 <= i < s.len() implies s.contains(#[trigger] r[i]) by {
        assert(r.contains(r[i]));
        assert(r.to_multiset().count(r[i]) > 0);
    }
    assert forall|i: int| 0 <= i < s.len() implies r.contains(#[trigger] s[i]) by {
        assert(s.contains(s[i]));
        assert(s.to_multiset().count(s[i]) > 0);
    }
}

/// An ascending rearrangement of `s` is `ranked(s)`: the ascending order is
/// unique.
pub proof fn lemma_ranked_unique(s: Seq<i64>, t: Seq<i64>)
    requires
        is_ascending(t),
        t.to_multiset() == s.to_multiset(),
    ensures
        t == ranked(s),
{
    assert(total_ordering(at_most()));
    s.lemma_sort_by_ensures(at_most());
    assert(sorted_by(t, at_most()));
    lemma_sorted_unique(t, ranked(s), at_most());
}

/// Merges two ascending sequences into one.
fn merge(a: &Vec<i64>, b: &Vec<i64>) -> (out: Vec<i64>)
    requires
        is_ascending(a@),
        is_ascending(b@),
    ensures
        is_ascending(out@),
        out@.to_multiset() == a@.to_multiset().add(b@.to_multiset()),
{
    let mut out: Vec<i64> = Vec::new();
    let mut i: usize = 0;
    let mut j: usize = 0;
    proof {
        broadcast use vstd::seq_lib::group_to_multiset_ensures;
        broadcast use vstd::multiset::group_multiset_axioms;

        let none = Seq::<i64>::empty();
        assert(a@.subrange(0, 0) =~= none);
        assert(b@.subrange(0, 0) =~= none);
        assert(out@ =~= none);
        assert(none.to_multiset().len() == 0);
        assert(none.to_multiset().add(none.to_multiset()) =~= none.to_multiset());
    }
    while i < a.len() || j < b.len()
        invariant
            i <= a.len(),
            j <= b.len(),
            is_ascending(a@),
            is_ascending(b@),
            is_ascending(out@),
            out@.to_multiset() == a@.subrange(0, i as int).to_multiset().add(
                b@.subrange(0, j as int).to_multiset(),
            ),
            forall|k: int| 0 <= k < out.len() && i < a.len() ==> out[k] <= a[i as int],
            forall|k: int| 0 <= k < out.len() && j < b.len() ==> out[k] <= b[j as int],
        decreases a.len() - i + (b.len() - j),
    {
        let ghost before = out@;
        if j >= b.len() || (i < a.len() && a[i] <= b[j]) {
            proof {
                to_multiset_build(before, a[i as int]);
                to_multiset_build(a@.subrange(0, i as int), a[i as int]);
                assert(a@.subrange(0, i + 1) =~= a@.subrange(0, i as int).push(a[i as int]));
            }
            out.push(a[i]);
            i += 1;
        } else {
            proof {
                to_multiset_build(before, b[j as int]);
                to_multiset_build(b@.subrange(0, j as int), b[j as int]);
                assert(b@.subrange(0, j + 1) =~= b@.subrange(0, j as int).push(b[j as int]));
            }
            out.push(b[j]);
            j += 1;
        }
        assert(out@.to_multiset() =~= a@.subrange(0, i as int).to_multiset().add(
            b@.subrange(0, j as int).to_multiset(),
        ));
    }
    assert(a@.subrange(0, i as int) =~= a@);
    assert(b@.subrange(0, j as int) =~= b@);
    out
}

/// An ascending copy of `values[lo..hi]`.
fn sort_range(values: &[i64], lo: usize, hi: usize) -> (out: Vec<i64>)
    requires
        lo <= hi <= values.len(),
    ensures
        is_ascending(out@),
        out@.to_multiset() == values@.subrange(lo as int, hi as int).to_multiset(),
    decreases hi - lo,
{
    if hi - lo <= 1 {
        let mut out: Vec<i64> = Vec::new();
        if lo < hi {
            out.push(values[lo]);
        }
        assert(out@ =~= values@.subrange(lo as int, hi as int));
        out
    } else {
        let mid: usize = lo + (hi - lo) / 2;
        let left = sort_range(values, lo, mid);
        let right = sort_range(values, mid, hi);
        proof {
            let l = values@.subrange(lo as int, mid as int);
            let r = values@.subrange(mid as int, hi as int);
            assert(values@.subrange(lo as int, hi as int) =~= l + r);
            lemma_multiset_commutative(l, r);
        }
        merge(&left, &right)
    }
}

/// The samples in ascending order.
pub fn sort_samples(values: &[i64]) -> (out: Vec<i64>)
    ensures
        out@ == ranked(values@),
{
    let out = sort_range(values, 0, values.len());
    proof {
        assert(values@.subrange(0, values.len() as int) =~= values@);
        lemma_ranked_unique(values@, out@);
    }
    out
}

/// A quantile as the exact fraction `numer / denom`.
pub struct QuantileView {
    pub numer: int,
    pub denom: int,
}

/// The fraction `numer / denom` lies in (0, 1].
pub open spec fn valid_quantile(numer: int, denom: int) -> bool {
    0 < numer <= denom
}

/// The share of each dimension's samples that the bounds keep: a fraction
/// in (0, 1].
#[derive(Clone, Copy, Debug, PartialEq, Eq)]
pub struct Quantile {
    numer: u64,
    denom: u64,
}

impl View for Quantile {
    type V = QuantileView;

    closed spec fn view(&self) -> QuantileView {
        QuantileView { numer: self.numer as int, denom: self.denom as int }
    }
}

impl Quantile {
    #[verifier::type_invariant]
    closed spec fn in_unit_interval(self) -> bool {
        valid_quantile(self.numer as int, self.denom as int)
    }

    /// The quantile `numer / denom`, if that fraction lies in (0, 1].
    pub fn new(numer: u64, denom: u64) -> (made: Result<Quantile, ErrorKind>)
        ensures
            valid_quantile(numer as int, denom as int) ==> made is Ok && made->Ok_0@
                == (QuantileView { numer: numer as int, denom: denom as int }),
            !valid_quantile(numer as int, denom as int) ==> made == Err::<Quantile, ErrorKind>(
                ErrorKind::InvalidParameter,
            ),
    {
        if 0 < numer && numer <= denom {
            Ok(Quantile { numer, denom })
        } else {
            Err(ErrorKind::InvalidParameter)
        }
    }

    /// The numerator of the fraction.
    pub fn numer(&self) -> (numer: u64)
        ensures
            numer == self@.numer,
            valid_quantile(self@.numer, self@.denom),
    {
        proof {
            use_type_invariant(self);
        }
        self.numer
    }

    /// The denominator of the fraction.
    pub fn denom(&self) -> (denom: u64)
        ensures
            denom == self@.denom,
            valid_quantile(self@.numer, self@.denom),
    {
        proof {
            use_type_invariant(self);
        }
        self.denom
    }

    /// How many of `n` samples are dropped from each tail.
    pub fn trimmed_per_tail(&self, n: usize) -> (count: usize)
        ensures
            count == trim_count(n as int, self@),
            n > 0 ==> 2 * count < n,
    {
        proof {
            use_type_invariant(self);
            lemma_trim_count(n as int, self@);
        }
        let cut: u128 = (self.denom - self.numer) as u128;
        assert(n * cut <= u64::MAX * u64::MAX) by (nonlinear_arith)
            requires
                0 <= n <= u64::MAX,
                0 <= cut <= u64::MAX,
        ;
        let t: u128 = (n as u128 * cut) / (2 * (self.denom as u128));
        t as usize
    }
}

/// The number of samples dropped from each tail of `n` samples:
/// `floor(n * (1 - q) / 2)`.
pub open spec fn trim_count(n: int, q: QuantileView) -> int {
    (n * (q.denom - q.numer)) / (2 * q.denom)
}

/// Trimming leaves at least one sample, and none is dropped at quantile 1.
pub proof fn lemma_trim_count(n: int, q: QuantileView)
    requires
        n >= 0,
        valid_quantile(q.numer, q.denom),
    ensures
        0 <= trim_count(n, q),
        n > 0 ==> 2 * trim_count(n, q) < n,
        q.numer == q.denom ==> trim_count(n, q) == 0,
{
    let k = q.denom - q.numer;
    let d = q.denom;
    let t = (n * k) / (2 * d);
    assert(0 <= t && (n > 0 ==> 2 * t < n) && (k == 0 ==> t == 0)) by (nonlinear_arith)
        requires
            n >= 0,
            0 <= k < d,
            t == (n * k) / (2 * d),
    ;
}

/// The samples that are not trimmed are at least the share `q` of all.
pub proof fn lemma_kept_share(n: int, q: QuantileView)
    requires
        n >= 0,
        valid_quantile(q.numer, q.denom),
    ensures
        (n - 2 * trim_count(n, q)) * q.denom >= n * q.numer,
{
    let k = q.denom - q.numer;
    let d = q.denom;
    let m = q.numer;
    let t = (n * k) / (2 * d);
    assert((n - 2 * t) * d >= n * m) by (nonlinear_arith)
        requires
            n >= 0,
            d > 0,
            k == d - m,
            t == (n * k) / (2 * d),
    ;
}

/// The bounds of one dimension.
#[derive(Clone, Copy, Debug, PartialEq, Eq)]
pub struct Bounds {
    pub low: i64,
    pub high: i64,
}

/// The lower bound of the samples `s`: the first sample of the ascending
/// order that is not trimmed.
pub open spec fn low_of(s: Seq<i64>, q: QuantileView) -> i64 {
    ranked(s)[trim_count(s.len() as int, q)]
}

/// The upper bound of the samples `s`: the last sample of the ascending
/// order that is not trimmed.
pub open spec fn high_of(s: Seq<i64>, q: QuantileView) -> i64 {
    ranked(s)[s.len() - 1 - trim_count(s.len() as int, q)]
}

/// Both bounds are samples, and the lower one is not above the upper one.
pub proof fn lemma_bounds_are_samples(s: Seq<i64>, q: QuantileView)
    requires
        s.len() > 0,
        valid_quantile(q.numer, q.denom),
    ensures
        low_of(s, q) <= high_of(s, q),
        s.contains(low_of(s, q)),
        s.contains(high_of(s, q)),
{
    lemma_ranked(s);
    lemma_trim_count(s.len() as int, q);
}

/// The bounds of a dimension that has at least one sample: the two order
/// statistics that the quantile selects.
pub(crate) fn select_bounds(values: &[i64], quantile: &Quantile) -> (bounds: Bounds)
    requires
        values@.len() > 0,
    ensures
        bounds.low == low_of(values@, quantile@),
        bounds.high == high_of(values@, quantile@),
        bounds.low <= bounds.high,
{
    let n = values.len();
    let t = quantile.trimmed_per_tail(n);
    let sorted = sort_samples(values);
    proof {
        use_type_invariant(quantile);
        lemma_ranked(values@);
        lemma_bounds_are_samples(values@, quantile@);
    }
    Bounds { low: sorted[t], high: sorted[n - 1 - t] }
}

/// The bounds of a dimension: `Err(InsufficientData)` exactly when there is
/// no sample, else the two order statistics that the quantile selects.
pub fn estimate_bounds(values: &[i64], quantile: &Quantile) -> (found: Result<Bounds, ErrorKind>)
    ensures
        values@.len() == 0 ==> found == Err::<Bounds, ErrorKind>(ErrorKind::InsufficientData),
        values@.len() > 0 ==> found == Ok::<Bounds, ErrorKind>(
            Bounds { low: low_of(values@, quantile@), high: high_of(values@, quantile@) },
        ),
        found matches Ok(bounds) ==> bounds.low <= bounds.high,
{
    if values.len() == 0 {
        Err(ErrorKind::InsufficientData)
    } else {
        Ok(select_bounds(values, quantile))
    }
}

/// The smallest sample of a non-empty sequence.
pub open spec fn min_of(s: Seq<i64>) -> i64
    decreases s.len(),
{
    if s.len() <= 1 {
        s[0]
    } else {
        let rest = min_of(s.drop_last());
        if s.last() < rest {
            s.last()
        } else {
            rest
        }
    }
}

/// The largest sample of a non-empty sequence.
pub open spec fn max_of(s: Seq<i64>) -> i64
    decreases s.len(),
{
    if s.len() <= 1 {
        s[0]
    } else {
        let rest = max_of(s.drop_last());
        if s.last() > rest {
            s.last()
        } else {
            rest
        }
    }
}

/// `min_of` and `max_of` are samples, and every sample lies between them.
pub proof fn lemma_min_max(s: Seq<i64>)
    requires
        s.len() > 0,
    ensures
        s.contains(min_of(s)),
        s.contains(max_of(s)),
        forall|i: int| 0 <= i < s.len() ==> min_of(s) <= #[trigger] s[i] <= max_of(s),
    decreases s.len(),
{
    if s.len() <= 1 {
        assert(s[0] == min_of(s));
    } else {
        let head = s.drop_last();
        lemma_min_max(head);
        let i = choose|i: int| 0 <= i < head.len() && head[i] == min_of(head);
        let j = choose|j: int| 0 <= j < head.len() && head[j] == max_of(head);
        assert(s[i] == head[i] && s[j] == head[j]);
        assert(s[s.len() - 1] == s.last());
        assert forall|k: int| 0 <= k < s.len() implies min_of(s) <= #[trigger] s[k] <= max_of(
            s,
        ) by {
            if k < head.len() {
                assert(s[k] == head[k]);
            }
        }
    }
}

/// At quantile 1 nothing is trimmed: the bounds are the exact minimum and
/// maximum of the samples.
pub proof fn lemma_full_quantile_is_min_max(s: Seq<i64>, q: QuantileView)
    requires
        s.len() > 0,
        0 < q.numer,
        q.numer == q.denom,
    ensures
        low_of(s, q) == min_of(s),
        high_of(s, q) == max_of(s),
{
    lemma_trim_count(s.len() as int, q);
    lemma_untrimmed_is_min_max(s, q);
}

/// Whenever the quantile trims less than one whole sample from each tail,
/// the bounds are the minimum and maximum of the samples.
pub proof fn lemma_untrimmed_is_min_max(s: Seq<i64>, q: QuantileView)
    requires
        s.len() > 0,
        trim_count(s.len() as int, q) == 0,
    ensures
        low_of(s, q) == min_of(s),
        high_of(s, q) == max_of(s),
{
    lemma_ranked(s);
    lemma_min_max(s);
    let r = ranked(s);
    let i = choose|i: int| 0 <= i < r.len() && r[i] == min_of(s);
    let j = choose|j: int| 0 <= j < r.len() && r[j] == max_of(s);
    assert(r[0] <= r[i] && r[j] <= r[r.len() - 1]);
    let a = choose|a: int| 0 <= a < s.len() && s[a] == r[0];
    let b = choose|b: int| 0 <= b < s.len() && s[b] == r[r.len() - 1];
    assert(min_of(s) <= s[a] && s[b] <= max_of(s));
}

/// When every sample is `c`, both bounds are `c`, whatever the quantile.
pub proof fn lemma_constant_bounds(s: Seq<i64>, q: QuantileView, c: i64)
    requires
        s.len() > 0,
        valid_quantile(q.numer, q.denom),
        forall|i: int| 0 <= i < s.len() ==> s[i] == c,
    ensures
        low_of(s, q) == c,
        high_of(s, q) == c,
{
    lemma_bounds_are_samples(s, q);
}

} // verus!
