use vstd::prelude::*;

pub mod codec;
pub mod varint;

verus! {

/// The two ways a codec call can fail: the encoder rejects input whose
/// timestamps decrease, and the decoder rejects a stream that does not
/// parse as a whole number of samples.
#[derive(Clone, Copy, PartialEq, Eq, Structural, Debug)]
pub enum CodecError {
    NotSorted,
    MalformedStream,
}

impl CodecError {
    /// A short human-readable description of the error.
    pub fn message(&self) -> (r: &'static str)
        ensures
            *self == CodecError::NotSorted ==> r@ == "Input data is not sorted"@,
            *self == CodecError::MalformedStream ==> r@ == "Malformed stream"@,
    {
        match self {
            CodecError::NotSorted => "Input data is not sorted",
            CodecError::MalformedStream => "Malformed stream",
        }
    }
}

} // verus!
