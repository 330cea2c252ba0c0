//! The single failure type shared by every codec entry point.

use vstd::prelude::*;

verus! {

/// One tagged failure, carrying a short human-readable message.
///
/// Every codec entry point reports malformed or unsupported input through
/// this type instead of panicking.
#[derive(Debug)]
pub enum CodecError {
    /// The file does not start with the expected magic bytes.
    BadMagic(String),
    /// The input ended before the structure it promised.
    Truncated(String),
    /// A header field holds a value this codec does not handle.
    Unsupported(String),
    /// The image dimensions do not fit the target format.
    BadDimensions(String),
    /// The image color mode does not fit the target format.
    BadColorMode(String),
    /// No channel layout could be resolved for an encode.
    MissingLayout(String),
    /// Reading or writing a file failed.
    Io(String),
}

impl CodecError {
    /// The message carried by the error, whatever its tag.
    pub fn message(&self) -> (r: &str)
        ensures
            r@ == self.spec_message(),
    {
        match self {
            CodecError::BadMagic(m) => m.as_str(),
            CodecError::Truncated(m) => m.as_str(),
            CodecError::Unsupported(m) => m.as_str(),
            CodecError::BadDimensions(m) => m.as_str(),
            CodecError::BadColorMode(m) => m.as_str(),
            CodecError::MissingLayout(m) => m.as_str(),
            CodecError::Io(m) => m.as_str(),
        }
    }

    pub open spec fn spec_message(self) -> Seq<char> {
        match self {
            CodecError::BadMagic(m) => m@,
            CodecError::Truncated(m) => m@,
            CodecError::Unsupported(m) => m@,
            CodecError::BadDimensions(m) => m@,
            CodecError::BadColorMode(m) => m@,
            CodecError::MissingLayout(m) => m@,
            CodecError::Io(m) => m@,
        }
    }
}

} // verus!
