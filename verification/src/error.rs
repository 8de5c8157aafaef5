use vstd::prelude::*;

verus! {

/// Why a read, a parse or a decompression failed.
#[derive(Clone, Copy, Debug, PartialEq, Eq, Structural)]
pub enum MapError {
    /// A read reached past the end of the buffer.
    TruncatedInput,
    /// A negative or out-of-range position was to be used as a seek target.
    InvalidOffset,
    /// A back-reference points before the start of the output, or at bytes
    /// that are not written yet.
    CorruptToken,
    /// A run's count or value lies past the end of the word stream.
    UnexpectedEscape,
}

/// Why a map could not be loaded.
#[derive(Clone, Copy, Debug, PartialEq, Eq, Structural)]
pub enum LoadError {
    /// The header list holds no record with the requested number.
    NoSuchMap,
    /// Decoding the plane with index `plane` failed with `kind`.
    Plane { plane: usize, kind: MapError },
}

impl MapError {
    /// A short description of the failure.
    pub fn describe(&self) -> (s: &'static str)
        ensures
            s@ == self.description(),
    {
        match self {
            MapError::TruncatedInput => "read past the end of the buffer",
            MapError::InvalidOffset => "offset is negative or out of range",
            MapError::CorruptToken => "back-reference outside the written output",
            MapError::UnexpectedEscape => "run count or value past the end of the stream",
        }
    }

    /// The text that `describe` returns.
    pub open spec fn description(&self) -> Seq<char> {
        match self {
            MapError::TruncatedInput => "read past the end of the buffer"@,
            MapError::InvalidOffset => "offset is negative or out of range"@,
            MapError::CorruptToken => "back-reference outside the written output"@,
            MapError::UnexpectedEscape => "run count or value past the end of the stream"@,
        }
    }
}

} // verus!
