//! The one failure type of the loaders.

use vstd::prelude::*;

verus! {

/// Why an image or a mesh could not be read.
#[derive(Copy, Clone, Debug, PartialEq, Eq)]
pub enum LoadError {
    /// The bytes end before the header or the pixels that it announces are complete.
    Truncated,
    /// The image is of a kind that is not decoded.
    UnsupportedType,
    /// A line of a mesh holds fewer numbers than its kind needs.
    MissingToken,
    /// A number of a mesh is not written as a number, or an index does not fit.
    MalformedNumber,
}

impl LoadError {
    /// A short description of the failure.
    pub fn message(&self) -> (text: &'static str)
        ensures
            text@ == match *self {
                LoadError::Truncated => "the image data ends too early"@,
                LoadError::UnsupportedType => "the image type is not supported"@,
                LoadError::MissingToken => "a mesh line holds too few numbers"@,
                LoadError::MalformedNumber => "a mesh number is malformed"@,
            },
    {
        match self {
            LoadError::Truncated => "the image data ends too early",
            LoadError::UnsupportedType => "the image type is not supported",
            LoadError::MissingToken => "a mesh line holds too few numbers",
            LoadError::MalformedNumber => "a mesh number is malformed",
        }
    }
}

} // verus!
