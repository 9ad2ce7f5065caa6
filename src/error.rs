use vstd::prelude::*;

verus! {

/// What can go wrong while decoding audio or running the transform engine.
#[derive(Debug, Clone, Copy, PartialEq, Eq, Structural)]
pub enum SpectrumError {
    /// The input could not be opened or read.
    FileNotFound,
    /// Fewer than the 44 bytes of a canonical WAV header are present.
    TruncatedHeader,
    /// A magic tag or a numeric field of the header is out of range.
    InvalidHeader,
    /// The header declares more data than the input holds.
    TruncatedData,
    /// A block length is not a power of two, or the scratch buffer is too small.
    InvalidLength,
}

impl SpectrumError {
    /// A short human-readable description of the error.
    pub fn message(&self) -> (r: &'static str) {
        match self {
            SpectrumError::FileNotFound => "input file not found or unreadable",
            SpectrumError::TruncatedHeader => "input is shorter than a WAV header",
            SpectrumError::InvalidHeader => "WAV header is malformed",
            SpectrumError::TruncatedData => "WAV data chunk is truncated",
            SpectrumError::InvalidLength => "invalid transform length",
        }
    }
}

} // verus!
