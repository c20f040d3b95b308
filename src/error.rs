use vstd::prelude::*;

verus! {

/// Every way in which conversion, parsing or evaluation can fail.
#[derive(Clone, Copy, Debug, PartialEq, Eq, Structural)]
pub enum CalcError {
    /// An unmatched `(` or `)` in the infix text.
    BracketMismatch,
    /// A postfix token that is neither an operator nor an `i32` literal.
    InvalidToken,
    /// An operator entry whose symbol is not one of `+ - * /`.
    UnknownOperator,
    /// An operand was needed but the stack was empty or held an operator,
    /// or the evaluation did not end with exactly one value.
    StackUnderflow,
    /// Integer division by zero.
    DivisionByZero,
    /// An intermediate result does not fit in `i32`.
    Overflow,
}

} // verus!
