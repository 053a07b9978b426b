use vstd::prelude::*;

verus! {

/// The failures that the library reports to its callers.
///
/// All of these are recoverable by the caller; the library itself never
/// panics on any input its contracts admit.
#[derive(Clone, Copy, Debug, PartialEq, Eq, Structural)]
pub enum Error {
    /// A random-fill alive-chance ratio outside `[0, 1]`.
    InvalidArgument,
    /// A location outside the grid passed to a mutating accessor.
    OutOfBounds,
    /// A decoded text row whose cell count disagrees with the inferred grid
    /// width; carries the index of the offending row.
    InvalidFormat(usize),
    /// Image data that cannot be read as 8-bit RGB pixels of the grid's size.
    UnsupportedFormat,
}

impl Error {
    /// A short description of the failure, for callers that report it.
    pub fn message(&self) -> (r: &'static str) {
        match self {
            Error::InvalidArgument => "the alive chance must be a ratio between 0 and 1",
            Error::OutOfBounds => "the location lies outside the grid",
            Error::InvalidFormat(_) => "a decoded row disagrees with the inferred grid width",
            Error::UnsupportedFormat => "the image data cannot be read as 8-bit RGB pixels",
        }
    }
}

} // verus!
