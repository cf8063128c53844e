use vstd::prelude::*;

verus! {

/// Why an expression could not be evaluated.
#[derive(Clone, Copy, Debug, PartialEq, Eq, Structural)]
pub enum CalcError {
    /// A character outside digits, `.`, `+ - * /` and parentheses.
    InvalidCharacter,
    /// An unmatched `(` or `)`.
    MismatchedParentheses,
    /// An operator met fewer than two operands.
    InsufficientOperands,
    /// The right operand of `/` is zero.
    DivisionByZero,
    /// A postfix token that is neither a number nor an operator.
    InvalidToken,
    /// The postfix sequence left zero or several values.
    InvalidExpressionShape,
}

} // verus!
