use vstd::prelude::*;

use crate::error::CalcError;

verus! {

/// One entry of a postfix program.
#[derive(Clone, Copy, Debug, PartialEq, Eq, Structural)]
pub enum ExpressionEntry {
    /// A value pushed onto the operand stack.
    Operand(i32),
    /// A binary operator, written as its symbol; only `+ - * /` evaluate.
    Operator(char),
}

/// The four binary operators.
#[derive(Clone, Copy, Debug, PartialEq, Eq, Structural)]
pub enum BinaryOp {
    Add,
    Sub,
    Mul,
    Div,
}

/// The operator that `symbol` stands for, if any.
pub open spec fn op_of(symbol: char) -> Option<BinaryOp> {
    if symbol == '+' {
        Some(BinaryOp::Add)
    } else if symbol == '-' {
        Some(BinaryOp::Sub)
    } else if symbol == '*' {
        Some(BinaryOp::Mul)
    } else if symbol == '/' {
        Some(BinaryOp::Div)
    } else {
        None
    }
}

pub open spec fn abs(a: int) -> int {
    if a < 0 {
        -a
    } else {
        a
    }
}

/// Quotient of `a` by `b` rounded toward zero, as Rust's `/` rounds it.
pub open spec fn truncated_quotient(a: int, b: int) -> int {
    if (a >= 0) == (b > 0) {
        abs(a) / abs(b)
    } else {
        -(abs(a) / abs(b))
    }
}

/// The mathematical result of `lhs op rhs`, unbounded.
pub open spec fn exact_value(op: BinaryOp, lhs: int, rhs: int) -> int {
    match op {
        BinaryOp::Add => lhs + rhs,
        BinaryOp::Sub => lhs - rhs,
        BinaryOp::Mul => lhs * rhs,
        BinaryOp::Div => truncated_quotient(lhs, rhs),
    }
}

/// `lhs op rhs` as an `i32`: division by zero and results out of the
/// `i32` range are errors.
pub open spec fn checked_value(op: BinaryOp, lhs: i32, rhs: i32) -> Result<i32, CalcError> {
    if op == BinaryOp::Div && rhs == 0 {
        Err(CalcError::DivisionByZero)
    } else if i32::MIN <= exact_value(op, lhs as int, rhs as int) <= i32::MAX {
        Ok(exact_value(op, lhs as int, rhs as int) as i32)
    } else {
        Err(CalcError::Overflow)
    }
}

impl BinaryOp {
    /// The operator written as `symbol`, or `None` for any other character.
    pub fn from_symbol(symbol: char) -> (r: Option<BinaryOp>)
        ensures
            r == op_of(symbol),
    {
        match symbol {
            '+' => Some(BinaryOp::Add),
            '-' => Some(BinaryOp::Sub),
            '*' => Some(BinaryOp::Mul),
            '/' => Some(BinaryOp::Div),
            _ => None,
        }
    }

    /// Applies the operator to `lhs` and `rhs` (in that order).
    pub fn apply(self, lhs: i32, rhs: i32) -> (r: Result<i32, CalcError>)
        ensures
            r == checked_value(self, lhs, rhs),
    {
        match self {
            BinaryOp::Add => match lhs.checked_add(rhs) {
                Some(v) => Ok(v),
                None => Err(CalcError::Overflow),
            },
            BinaryOp::Sub => match lhs.checked_sub(rhs) {
                Some(v) => Ok(v),
                None => Err(CalcError::Overflow),
            },
            BinaryOp::Mul => match lhs.checked_mul(rhs) {
                Some(v) => Ok(v),
                None => Err(CalcError::Overflow),
            },
            BinaryOp::Div => {
                if rhs == 0 {
                    return Err(CalcError::DivisionByZero);
                }
                proof {
                    lemma_quotient_matches(lhs as int, rhs as int);
                }
                match lhs.checked_div(rhs) {
                    Some(v) => Ok(v),
                    None => Err(CalcError::Overflow),
                }
            },
        }
    }
}

proof fn lemma_quotient_matches(x: int, d: int)
    requires
        d != 0,
    ensures
        truncated_quotient(x, d) == (if x == 0 {
            0
        } else if x > 0 && d > 0 {
            x / d
        } else if x < 0 && d < 0 {
            (x * -1) / (d * -1)
        } else if x < 0 {
            ((x * -1) / d) * -1
        } else {
            (x / (d * -1)) * -1
        }),
{
    if x == 0 {
        assert(0int / abs(d) == 0) by (nonlinear_arith)
            requires
                abs(d) > 0,
        ;
    }
}

} // verus!
