//! The ways in which an operation of this crate can refuse its input.

use vstd::prelude::*;

verus! {

/// Why an operation did not produce a value.
#[derive(Clone, Copy, Debug, PartialEq, Eq, Structural)]
pub enum NumericError {
    /// The operation would have had to divide by zero.
    DivisionByZero,
    /// A negative number was given where only non-negative ones have a
    /// result.
    InvalidArgument,
    /// An intermediate value does not fit the integer type.
    ArithmeticOverflow,
}

} // verus!
