//! Error codes and error types of the codec.

use vstd::prelude::*;
use vstd::std_specs::convert::FromSpecImpl;

verus! {

/// Invalid parameters: an empty buffer, an oversize source, a destination
/// that is too small.
pub const LZAV_E_PARAMS: i32 = -1;

/// A block runs past the end of the compressed stream.
pub const LZAV_E_SRCOOB: i32 = -2;

/// A block would write past the expected decoded length.
pub const LZAV_E_DSTOOB: i32 = -3;

/// A back-reference points before the start of the decoded output.
pub const LZAV_E_REFOOB: i32 = -4;

/// The stream ended cleanly but the decoded length is not the expected one.
pub const LZAV_E_DSTLEN: i32 = -5;

/// The stream's format nibble is not a known one.
pub const LZAV_E_UNKFMT: i32 = -6;

/// Why a buffer could not be compressed.
#[derive(Debug, Clone, Copy, PartialEq, Eq, Structural)]
pub enum CompressError {
    /// The source is empty or longer than the window.
    InvalidParams,
    /// The destination is smaller than the bound for the source length.
    BufferTooSmall,
}

impl CompressError {
    /// The integer code of this error. Both variants report a parameter error.
    pub open spec fn code_spec(self) -> i32 {
        LZAV_E_PARAMS
    }

    /// The integer code of this error.
    pub fn code(self) -> (c: i32)
        ensures
            c == self.code_spec(),
            c == LZAV_E_PARAMS,
    {
        match self {
            CompressError::InvalidParams => LZAV_E_PARAMS,
            CompressError::BufferTooSmall => LZAV_E_PARAMS,
        }
    }
}

/// Why a stream could not be decompressed.
#[derive(Debug, Clone, Copy, PartialEq, Eq, Structural)]
pub enum DecompressError {
    InvalidParams,
    UnknownFormat,
    SourceOutOfBounds,
    DestOutOfBounds,
    ReferenceOutOfBounds,
    DestLengthMismatch,
}

impl DecompressError {
    /// The integer code of each error.
    pub open spec fn code_spec(self) -> i32 {
        match self {
            DecompressError::InvalidParams => LZAV_E_PARAMS,
            DecompressError::UnknownFormat => LZAV_E_UNKFMT,
            DecompressError::SourceOutOfBounds => LZAV_E_SRCOOB,
            DecompressError::DestOutOfBounds => LZAV_E_DSTOOB,
            DecompressError::ReferenceOutOfBounds => LZAV_E_REFOOB,
            DecompressError::DestLengthMismatch => LZAV_E_DSTLEN,
        }
    }

    /// The integer code of this error.
    pub fn code(self) -> (c: i32)
        ensures
            c == self.code_spec(),
            -6 <= c <= -1,
    {
        match self {
            DecompressError::InvalidParams => LZAV_E_PARAMS,
            DecompressError::UnknownFormat => LZAV_E_UNKFMT,
            DecompressError::SourceOutOfBounds => LZAV_E_SRCOOB,
            DecompressError::DestOutOfBounds => LZAV_E_DSTOOB,
            DecompressError::ReferenceOutOfBounds => LZAV_E_REFOOB,
            DecompressError::DestLengthMismatch => LZAV_E_DSTLEN,
        }
    }
}

impl From<CompressError> for i32 {
    fn from(error: CompressError) -> (code: i32) {
        error.code()
    }
}

impl FromSpecImpl<CompressError> for i32 {
    open spec fn obeys_from_spec() -> bool {
        true
    }

    open spec fn from_spec(error: CompressError) -> i32 {
        error.code_spec()
    }
}

impl From<DecompressError> for i32 {
    fn from(err: DecompressError) -> (code: i32) {
        err.code()
    }
}

impl FromSpecImpl<DecompressError> for i32 {
    open spec fn obeys_from_spec() -> bool {
        true
    }

    open spec fn from_spec(err: DecompressError) -> i32 {
        err.code_spec()
    }
}

/// An error of the codec, by its meaning.
#[derive(Debug, Clone, Copy, PartialEq, Eq, Structural)]
pub enum LzavError {
    Params,
    SourceOutOfBounds,
    DestOutOfBounds,
    ReferenceOutOfBounds,
    DestLengthMismatch,
    UnknownFormat,
}

impl LzavError {
    /// The error that an integer code stands for; a number that is no
    /// error code stands for a parameter error.
    pub open spec fn of_code(code: i32) -> LzavError {
        if code == LZAV_E_SRCOOB {
            LzavError::SourceOutOfBounds
        } else if code == LZAV_E_DSTOOB {
            LzavError::DestOutOfBounds
        } else if code == LZAV_E_REFOOB {
            LzavError::ReferenceOutOfBounds
        } else if code == LZAV_E_DSTLEN {
            LzavError::DestLengthMismatch
        } else if code == LZAV_E_UNKFMT {
            LzavError::UnknownFormat
        } else {
            LzavError::Params
        }
    }

    /// The integer code of this error.
    pub open spec fn code_spec(self) -> i32 {
        match self {
            LzavError::Params => LZAV_E_PARAMS,
            LzavError::SourceOutOfBounds => LZAV_E_SRCOOB,
            LzavError::DestOutOfBounds => LZAV_E_DSTOOB,
            LzavError::ReferenceOutOfBounds => LZAV_E_REFOOB,
            LzavError::DestLengthMismatch => LZAV_E_DSTLEN,
            LzavError::UnknownFormat => LZAV_E_UNKFMT,
        }
    }

    /// The integer code of this error.
    pub fn code(self) -> (c: i32)
        ensures
            c == self.code_spec(),
            LzavError::of_code(c) == self,
    {
        match self {
            LzavError::Params => LZAV_E_PARAMS,
            LzavError::SourceOutOfBounds => LZAV_E_SRCOOB,
            LzavError::DestOutOfBounds => LZAV_E_DSTOOB,
            LzavError::ReferenceOutOfBounds => LZAV_E_REFOOB,
            LzavError::DestLengthMismatch => LZAV_E_DSTLEN,
            LzavError::UnknownFormat => LZAV_E_UNKFMT,
        }
    }

    /// The text that describes each error.
    pub open spec fn message_spec(self) -> Seq<char> {
        match self {
            LzavError::Params => "Invalid parameters"@,
            LzavError::SourceOutOfBounds => "Source buffer out of bounds"@,
            LzavError::DestOutOfBounds => "Destination buffer out of bounds"@,
            LzavError::ReferenceOutOfBounds => "Back-reference out of bounds"@,
            LzavError::DestLengthMismatch => "Decompressed length mismatch"@,
            LzavError::UnknownFormat => "Unknown stream format"@,
        }
    }

    /// A text that describes this error.
    pub fn message(&self) -> (s: String)
        ensures
            s@ == self.message_spec(),
    {
        match self {
            LzavError::Params => "Invalid parameters".to_owned(),
            LzavError::SourceOutOfBounds => "Source buffer out of bounds".to_owned(),
            LzavError::DestOutOfBounds => "Destination buffer out of bounds".to_owned(),
            LzavError::ReferenceOutOfBounds => "Back-reference out of bounds".to_owned(),
            LzavError::DestLengthMismatch => "Decompressed length mismatch".to_owned(),
            LzavError::UnknownFormat => "Unknown stream format".to_owned(),
        }
    }
}

impl From<i32> for LzavError {
    fn from(code: i32) -> (e: LzavError) {
        if code == LZAV_E_SRCOOB {
            LzavError::SourceOutOfBounds
        } else if code == LZAV_E_DSTOOB {
            LzavError::DestOutOfBounds
        } else if code == LZAV_E_REFOOB {
            LzavError::ReferenceOutOfBounds
        } else if code == LZAV_E_DSTLEN {
            LzavError::DestLengthMismatch
        } else if code == LZAV_E_UNKFMT {
            LzavError::UnknownFormat
        } else {
            LzavError::Params
        }
    }
}

impl FromSpecImpl<i32> for LzavError {
    open spec fn obeys_from_spec() -> bool {
        true
    }

    open spec fn from_spec(code: i32) -> LzavError {
        LzavError::of_code(code)
    }
}

} // verus!
