use crate::text::IntErrorKind;
use vstd::prelude::*;

verus! {

/// Why a day of this year has no answer.
#[derive(Clone, Copy, Debug, PartialEq, Eq, Structural)]
pub enum Error {
    /// The input could not be read.
    IOError,
    /// A field of the input is not a number of the type it is read as.
    InvalidIntError(IntErrorKind),
    /// A regular expression was not accepted.
    InvalidRegex,
    /// The input does not have the shape that the day expects.
    InvalidInput,
    /// A step of the arithmetic leaves the integer type of the answer.
    Overflow,
}

} // verus!
