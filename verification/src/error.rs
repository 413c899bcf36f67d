//! The errors of reading.

use vstd::prelude::*;

verus! {

/// Why a parse failed.
#[derive(Clone, Copy, Debug, PartialEq, Eq, Structural)]
pub enum ParseError {
    /// The input does not follow the grammar at the place that was reached.
    Syntax,
    /// The input ends inside a construct that more input could complete.
    Incomplete,
    /// A number in the input does not fit the integer that receives it.
    NumericRange,
}

/// The error of the crate's entry points.
#[derive(Clone, Copy, Debug, PartialEq, Eq, Structural)]
pub enum OfxError {
    /// The document could not be parsed; the cause is carried along.
    ParseError(ParseError),
}

} // verus!
