//! The record format of a vector file, read from bytes in memory.
//!
//! A file is a run of records of one size. A record is a little-endian signed
//! 32-bit dimension count followed by that many little-endian 32-bit words,
//! each the IEEE 754 bit pattern of one vector component. The record with
//! index `slot` starts at byte `slot * (4 + 4 * dim)`.

use crate::sampling::{is_sample, sample_indices};
use vstd::prelude::*;

verus! {

/// Why a record could not be read.
#[derive(Clone, Copy, Debug, PartialEq, Eq, Structural)]
pub enum RecordError {
    /// The bytes end before the record does.
    Truncated,
    /// The record's dimension count is not the expected one.
    DimensionMismatch,
}

impl RecordError {
    /// A short description of the fault.
    pub fn message(&self) -> (text: &'static str)
        ensures
            text@ == fault_text(*self),
    {
        match self {
            RecordError::Truncated => "failed to fill whole buffer",
            RecordError::DimensionMismatch => "Unexpected vector dimension.",
        }
    }
}

/// The text that `RecordError::message` returns for each fault.
pub open spec fn fault_text(fault: RecordError) -> Seq<char> {
    match fault {
        RecordError::Truncated => "failed to fill whole buffer"@,
        RecordError::DimensionMismatch => "Unexpected vector dimension."@,
    }
}

/// The size in bytes of a record of `dim` components.
pub open spec fn record_len(dim: int) -> int {
    4 + 4 * dim
}

/// The little-endian 32-bit word that starts at byte `at`.
pub open spec fn word_at(bytes: Seq<u8>, at: int) -> u32 {
    (bytes[at] + 0x100 * bytes[at + 1] + 0x1_0000 * bytes[at + 2] + 0x100_0000 * bytes[at
        + 3]) as u32
}

/// The dimension count at byte `at`, read as a signed number, is `dim`.
pub open spec fn header_matches(bytes: Seq<u8>, at: int, dim: int) -> bool {
    word_at(bytes, at) < 0x8000_0000 && word_at(bytes, at) == dim
}

/// What is wrong with the record in `slot`, in the order in which a reader
/// meets it: a missing header, a wrong dimension count, a short payload.
pub open spec fn record_fault(bytes: Seq<u8>, slot: int, dim: int) -> Option<RecordError> {
    let at = slot * record_len(dim);
    if at + 4 > bytes.len() {
        Some(RecordError::Truncated)
    } else if !header_matches(bytes, at, dim) {
        Some(RecordError::DimensionMismatch)
    } else if at + record_len(dim) > bytes.len() {
        Some(RecordError::Truncated)
    } else {
        None
    }
}

/// Component `j` of the record in `slot`.
pub open spec fn component(bytes: Seq<u8>, slot: int, dim: int, j: int) -> u32 {
    word_at(bytes, slot * record_len(dim) + 4 + 4 * j)
}

/// The components of the records in `slots`, record after record.
pub open spec fn gathered(bytes: Seq<u8>, slots: Seq<u64>, dim: int) -> Seq<u32> {
    Seq::new(
        (slots.len() * dim) as nat,
        |k: int| component(bytes, slots[k / dim] as int, dim, k % dim),
    )
}

/// The slots `0, 1, .., n - 1`.
pub open spec fn leading_slots(n: int) -> Seq<u64> {
    Seq::new(n as nat, |i: int| i as u64)
}

/// What reading the records in `slots` gives: all components when every
/// record is sound, else the fault of the first record that is not.
pub open spec fn read_outcome(
    bytes: Seq<u8>,
    slots: Seq<u64>,
    dim: int,
    outcome: Result<Vec<u32>, RecordError>,
) -> bool {
    match outcome {
        Ok(words) => {
            &&& forall|i: int|
                0 <= i < slots.len() ==> record_fault(bytes, #[trigger] slots[i] as int, dim)
                    is None
            &&& words@ == gathered(bytes, slots, dim)
        },
        Err(fault) => exists|i: int|
            {
                &&& 0 <= i < slots.len()
                &&& record_fault(bytes, #[trigger] slots[i] as int, dim) == Some(fault)
                &&& forall|j: int|
                    0 <= j < i ==> record_fault(bytes, #[trigger] slots[j] as int, dim) is None
            },
    }
}

/// The number of whole records of `dim` components in `len` bytes.
pub fn record_count(len: usize, dim: usize) -> (count: u64)
    ensures
        count == len as int / record_len(dim as int),
        count * record_len(dim as int) <= len < count * record_len(dim as int) + record_len(
            dim as int,
        ),
{
    let size: u128 = 4 + 4 * (dim as u128);
    let count: u128 = len as u128 / size;
    assert(count * size <= len < count * size + size) by (nonlinear_arith)
        requires
            size > 0,
            count == len as int / size as int,
    ;
    count as u64
}

/// Reads the word at byte `at`.
fn read_word(bytes: &[u8], at: usize) -> (word: u32)
    requires
        at + 4 <= bytes@.len(),
    ensures
        word == word_at(bytes@, at as int),
{
    bytes[at] as u32 + 0x100 * (bytes[at + 1] as u32) + 0x1_0000 * (bytes[at + 2] as u32)
        + 0x100_0000 * (bytes[at + 3] as u32)
}

/// Appends the components of the record in `slot` to `out`, or reports the
/// record's fault and leaves `out` as it was.
fn read_record(bytes: &[u8], slot: u64, dim: usize, out: &mut Vec<u32>) -> (status: Result<
    (),
    RecordError,
>)
    ensures
        match status {
            Ok(()) => {
                &&& record_fault(bytes@, slot as int, dim as int) is None
                &&& final(out)@ == old(out)@ + Seq::new(
                    dim as nat,
                    |j: int| component(bytes@, slot as int, dim as int, j),
                )
            },
            Err(fault) => {
                &&& record_fault(bytes@, slot as int, dim as int) == Some(fault)
                &&& final(out)@ == old(out)@
            },
        },
{
    let len: u128 = bytes.len() as u128;
    let size: u128 = 4 + 4 * (dim as u128);
    if slot > 0 && size > len {
        assert(slot * size + 4 > len) by (nonlinear_arith)
            requires
                slot >= 1,
                size > len,
        ;
        return Err(RecordError::Truncated);
    }
    assert(slot * size <= u64::MAX * u64::MAX) by (nonlinear_arith)
        requires
            slot == 0 || size <= u64::MAX,
            0 <= slot <= u64::MAX,
            0 <= size,
    ;
    let at: u128 = slot as u128 * size;
    if at + 4 > len {
        return Err(RecordError::Truncated);
    }
    let start: usize = at as usize;
    let header = read_word(bytes, start);
    if header >= 0x8000_0000 || header as u128 != dim as u128 {
        return Err(RecordError::DimensionMismatch);
    }
    if at + size > len {
        return Err(RecordError::Truncated);
    }
    let ghost before = out@;
    let mut j: usize = 0;
    while j < dim
        invariant
            j <= dim,
            start + 4 + 4 * dim <= bytes@.len() <= usize::MAX,
            start == slot * record_len(dim as int),
            out@ == before + Seq::new(
                j as nat,
                |i: int| component(bytes@, slot as int, dim as int, i),
            ),
        decreases dim - j,
    {
        out.push(read_word(bytes, start + 4 + 4 * j));
        j += 1;
    }
    Ok(())
}

/// `gathered` over one more slot is `gathered` followed by that slot's
/// components.
proof fn lemma_gathered_push(bytes: Seq<u8>, slots: Seq<u64>, slot: u64, dim: int)
    requires
        dim >= 0,
    ensures
        gathered(bytes, slots.push(slot), dim) == gathered(bytes, slots, dim) + Seq::new(
            dim as nat,
            |j: int| component(bytes, slot as int, dim, j),
        ),
{
    let n = slots.len() as int;
    let more = slots.push(slot);
    let left = gathered(bytes, more, dim);
    let right = gathered(bytes, slots, dim) + Seq::new(
        dim as nat,
        |j: int| component(bytes, slot as int, dim, j),
    );
    assert((n + 1) * dim == n * dim + dim) by (nonlinear_arith);
    assert(n * dim >= 0) by (nonlinear_arith)
        requires
            n >= 0,
            dim >= 0,
    ;
    assert forall|k: int| 0 <= k < left.len() implies left[k] == right[k] by {
        let i = k / dim;
        let j = k % dim;
        assert(k == dim * i + j && 0 <= j < dim) by (nonlinear_arith)
            requires
                dim > 0,
                i == k / dim,
                j == k % dim,
        ;
        if k < n * dim {
            assert(i < n) by (nonlinear_arith)
                requires
                    k == dim * i + j,
                    0 <= j,
                    k < n * dim,
                    dim > 0,
            ;
            assert(more[i] == slots[i]);
        } else {
            assert(i == n) by (nonlinear_arith)
                requires
                    k == dim * i + j,
                    0 <= j < dim,
                    n * dim <= k < n * dim + dim,
                    dim > 0,
            ;
            assert(k - n * dim == j) by (nonlinear_arith)
                requires
                    k == dim * i + j,
                    i == n,
            ;
        }
    }
    assert(left =~= right);
}

/// The components of the records in `slots`, record after record; the
/// fault of the first unsound record if there is one.
pub fn gather_records(bytes: &[u8], slots: &[u64], dim: usize) -> (outcome: Result<
    Vec<u32>,
    RecordError,
>)
    ensures
        read_outcome(bytes@, slots@, dim as int, outcome),
{
    let mut words: Vec<u32> = Vec::new();
    let mut i: usize = 0;
    assert(words@ =~= gathered(bytes@, slots@.take(0), dim as int)) by {
        assert(slots@.take(0).len() * dim == 0);
    }
    while i < slots.len()
        invariant
            i <= slots@.len(),
            forall|k: int|
                0 <= k < i ==> record_fault(bytes@, #[trigger] slots@[k] as int, dim as int)
                    is None,
            words@ == gathered(bytes@, slots@.take(i as int), dim as int),
        decreases slots@.len() - i,
    {
        proof {
            lemma_gathered_push(bytes@, slots@.take(i as int), slots@[i as int], dim as int);
            assert(slots@.take(i + 1) =~= slots@.take(i as int).push(slots@[i as int]));
        }
        match read_record(bytes, slots[i], dim, &mut words) {
            Ok(()) => {},
            Err(fault) => {
                return Err(fault);
            },
        }
        i += 1;
    }
    assert(slots@.take(i as int) =~= slots@);
    Ok(words)
}

/// The components of the first `num_vectors` records.
pub fn load_vectors(bytes: &[u8], num_vectors: usize, dim: usize) -> (outcome: Result<
    Vec<u32>,
    RecordError,
>)
    ensures
        read_outcome(bytes@, leading_slots(num_vectors as int), dim as int, outcome),
{
    let mut words: Vec<u32> = Vec::new();
    let mut i: usize = 0;
    let ghost slots = leading_slots(num_vectors as int);
    assert(words@ =~= gathered(bytes@, slots.take(0), dim as int)) by {
        assert(slots.take(0).len() * dim == 0);
    }
    while i < num_vectors
        invariant
            i <= num_vectors,
            slots == leading_slots(num_vectors as int),
            forall|k: int|
                0 <= k < i ==> record_fault(bytes@, #[trigger] slots[k] as int, dim as int)
                    is None,
            words@ == gathered(bytes@, slots.take(i as int), dim as int),
        decreases num_vectors - i,
    {
        proof {
            lemma_gathered_push(bytes@, slots.take(i as int), slots[i as int], dim as int);
            assert(slots.take(i + 1) =~= slots.take(i as int).push(slots[i as int]));
        }
        match read_record(bytes, i as u64, dim, &mut words) {
            Ok(()) => {},
            Err(fault) => {
                return Err(fault);
            },
        }
        i += 1;
    }
    assert(slots.take(i as int) =~= slots);
    Ok(words)
}

/// The components of `num_random_vectors` records drawn at random, without
/// repetition, from the whole records that `bytes` holds; of all of them, in
/// random order, when it holds no more than that.
///
/// Which records are drawn differs from call to call. Whatever the draw,
/// the outcome is that of reading the drawn slots in the order drawn, and
/// since every drawn record lies inside `bytes`, it is never `Truncated`.
pub fn load_random_vectors(bytes: &[u8], num_random_vectors: usize, dim: usize) -> (outcome:
    Result<Vec<u32>, RecordError>)
    ensures
        exists|slots: Seq<u64>|
            {
                &&& is_sample(
                    slots,
                    bytes@.len() as int / record_len(dim as int),
                    num_random_vectors as int,
                )
                &&& #[trigger] read_outcome(bytes@, slots, dim as int, outcome)
            },
        outcome != Err::<Vec<u32>, RecordError>(RecordError::Truncated),
{
    let total = record_count(bytes.len(), dim);
    let slots = sample_indices(total, num_random_vectors);
    let outcome = gather_records(bytes, slots.as_slice(), dim);
    proof {
        assert(read_outcome(bytes@, slots@, dim as int, outcome));
        if outcome == Err::<Vec<u32>, RecordError>(RecordError::Truncated) {
            let i = choose|i: int|
                {
                    &&& 0 <= i < slots@.len()
                    &&& record_fault(bytes@, #[trigger] slots@[i] as int, dim as int) == Some(
                        RecordError::Truncated,
                    )
                };
            lemma_whole_record_not_truncated(bytes@, slots@[i] as int, dim as int);
        }
    }
    outcome
}

/// A record below the whole-record count lies inside the bytes.
proof fn lemma_whole_record_not_truncated(bytes: Seq<u8>, slot: int, dim: int)
    requires
        dim >= 0,
        0 <= slot < bytes.len() as int / record_len(dim),
    ensures
        record_fault(bytes, slot, dim) != Some(RecordError::Truncated),
{
    let size = record_len(dim);
    let count = bytes.len() as int / size;
    assert(slot * size + size <= bytes.len()) by (nonlinear_arith)
        requires
            size > 0,
            0 <= slot < count,
            count == bytes.len() as int / size,
    ;
}

} // verus!
