pub mod bigint;
pub mod decimal;
pub mod engine;
pub mod limbs;
pub mod oracle;
pub mod patterns;
pub mod problems;

use vstd::prelude::*;

verus! {

/// The failure kinds surfaced by the arithmetic and parsing operations.
#[derive(Clone, Copy, Debug, PartialEq, Eq, Structural)]
pub enum ArithError {
    /// A decimal string was empty or held a non-digit character.
    ParseError,
    /// A subtraction or decrement would have produced a negative value.
    Underflow,
    /// A division or modular exponentiation was given a zero divisor.
    DivisionByZero,
    /// An arithmetic identity that the construction guarantees failed to hold.
    InvariantError,
}

} // verus!
