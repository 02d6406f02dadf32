//! The faults that end a parse.

use vstd::prelude::*;

verus! {

/// Why a text is not a formula.
#[derive(Clone, Copy, Debug, PartialEq, Eq, Structural)]
pub enum ParseError {
    /// A `)` without an open `(` before it, or a `(` that is never closed.
    UnbalancedParentheses,
    /// The operands and operators do not reduce to exactly one tree.
    InvalidExpression,
}

} // verus!
