//! The errors that building and loading an index report.
use vstd::prelude::*;

verus! {

/// What went wrong while building, loading or writing an index.
#[derive(Clone, Debug, PartialEq, Eq)]
pub enum Error {
    /// Reading or writing failed; the message says how.
    Io(String),
    /// An option of a builder holds a value that is not allowed.
    InvalidOption(String),
    /// The text is longer than `u32::MAX` bytes.
    TextTooLong,
    /// The index bytes are malformed or do not belong to the text.
    InvalidIndex,
}

/// The result of the fallible operations of this library.
pub type Result<T> = std::result::Result<T, Error>;

} // verus!
