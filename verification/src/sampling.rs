//! Random choice of record indices.

use rand::seq::SliceRandom;
use vstd::prelude::*;

verus! {

/// `picked` is a choice of `min(total, count)` different indices below
/// `total`.
pub open spec fn is_sample(picked: Seq<u64>, total: int, count: int) -> bool {
    &&& picked.len() == if total <= count {
        total
    } else {
        count
    }
    &&& picked.no_duplicates()
    &&& forall|i: int| 0 <= i < picked.len() ==> 0 <= #[trigger] picked[i] < total
}

/// Rearranges `indices` at random.
///
/// Calls `rand::seq::SliceRandom::shuffle` on the vector's slice with the
/// generator `rand::thread_rng()`. Not proved, taken from rand's source:
/// `shuffle` only swaps elements of the slice, so afterwards the vector
/// holds the same elements, each as often as before. In which order is left
/// open. `thread_rng` panics if the operating system gives it no seed, at
/// first use or when it reseeds itself; no argument causes or prevents that.
#[verifier::external_body]
fn shuffle(indices: &mut Vec<u64>)
    ensures
        final(indices)@.to_multiset() == old(indices)@.to_multiset(),
{
    indices.shuffle(&mut rand::thread_rng());
}

/// The indices `0, 1, .., total - 1` in rising order.
pub fn all_indices(total: u64) -> (indices: Vec<u64>)
    ensures
        indices@ == Seq::new(total as nat, |i: int| i as u64),
{
    let mut indices: Vec<u64> = Vec::new();
    let mut next: u64 = 0;
    while next < total
        invariant
            next <= total,
            indices@ == Seq::new(next as nat, |i: int| i as u64),
        decreases total - next,
    {
        indices.push(next);
        next += 1;
        assert(indices@ =~= Seq::new(next as nat, |i: int| i as u64));
    }
    indices
}

/// The first `count` of the shuffled indices, or all of them if there are
/// fewer.
pub fn take_sample(shuffled: Vec<u64>, count: usize) -> (picked: Vec<u64>)
    ensures
        picked@ == shuffled@.take(
            if shuffled@.len() <= count {
                shuffled@.len() as int
            } else {
                count as int
            },
        ),
{
    let mut picked = shuffled;
    if count < picked.len() {
        picked.truncate(count);
    }
    assert(picked@ =~= shuffled@.take(
        if shuffled@.len() <= count {
            shuffled@.len() as int
        } else {
            count as int
        },
    ));
    picked
}

/// A rearrangement of `0 .. total` holds every index below `total` once and
/// nothing else, and so does each of its prefixes.
pub proof fn lemma_prefix_of_rearrangement_is_sample(shuffled: Seq<u64>, total: u64, count: int)
    requires
        shuffled.to_multiset() == Seq::new(total as nat, |i: int| i as u64).to_multiset(),
        0 <= count,
    ensures
        is_sample(
            shuffled.take(
                if shuffled.len() <= count {
                    shuffled.len() as int
                } else {
                    count
                },
            ),
            total as int,
            count,
        ),
{
    broadcast use vstd::seq_lib::group_to_multiset_ensures;

    let rising = Seq::new(total as nat, |i: int| i as u64);
    assert(rising.no_duplicates());
    rising.lemma_multiset_has_no_duplicates();
    shuffled.lemma_multiset_has_no_duplicates_conv();
    assert(shuffled.len() == rising.len()) by {
        assert(shuffled.to_multiset().len() == rising.to_multiset().len());
    }
    assert forall|i: int| 0 <= i < shuffled.len() implies 0 <= #[trigger] shuffled[i] < total by {
        assert(shuffled.contains(shuffled[i]));
        assert(shuffled.to_multiset().count(shuffled[i]) > 0);
        assert(rising.contains(shuffled[i]));
    }
}

/// A random choice of `min(total, count)` different indices below `total`.
pub fn sample_indices(total: u64, count: usize) -> (picked: Vec<u64>)
    ensures
        is_sample(picked@, total as int, count as int),
{
    let mut indices = all_indices(total);
    shuffle(&mut indices);
    proof {
        lemma_prefix_of_rearrangement_is_sample(indices@, total, count as int);
    }
    take_sample(indices, count)
}

} // verus!
