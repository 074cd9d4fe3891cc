//! The ways in which a call into this library can fail.

use vstd::prelude::*;

verus! {

/// Why a quantizer could not be built or a batch could not be quantized.
#[derive(Clone, Copy, Debug, PartialEq, Eq, Structural)]
pub enum ErrorKind {
    /// The quantile is not a fraction in (0, 1].
    InvalidParameter,
    /// The number of values is not `num_vectors * dim`.
    ShapeMismatch,
    /// A dimension has no sample to estimate its bounds from.
    InsufficientData,
}

impl ErrorKind {
    /// A short description of the failure.
    pub fn message(&self) -> (text: &'static str)
        ensures
            text@ == message_of(*self),
    {
        match self {
            ErrorKind::InvalidParameter => "quantile must lie in (0, 1]",
            ErrorKind::ShapeMismatch => "value count does not equal num_vectors * dim",
            ErrorKind::InsufficientData => "a dimension has no samples",
        }
    }
}

/// The text that `ErrorKind::message` returns for each kind.
pub open spec fn message_of(kind: ErrorKind) -> Seq<char> {
    match kind {
        ErrorKind::InvalidParameter => "quantile must lie in (0, 1]"@,
        ErrorKind::ShapeMismatch => "value count does not equal num_vectors * dim"@,
        ErrorKind::InsufficientData => "a dimension has no samples"@,
    }
}

} // verus!
