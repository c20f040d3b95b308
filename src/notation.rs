use vstd::prelude::*;

use crate::converter::{infix_to_postfix, postfix_of};
use crate::error::CalcError;
use crate::expression::{checked_value, op_of, BinaryOp, ExpressionEntry};
use crate::parser::{expression_of, postfix_to_expression};

verus! {

/// The operand on top of `stack`: an error where the stack is empty or its
/// top is an operator.
pub open spec fn top_operand(stack: Seq<ExpressionEntry>) -> Result<i32, CalcError> {
    if stack.len() == 0 {
        Err(CalcError::StackUnderflow)
    } else {
        match stack.last() {
            ExpressionEntry::Operand(v) => Ok(v),
            ExpressionEntry::Operator(_) => Err(CalcError::StackUnderflow),
        }
    }
}

/// The stack after one entry: an operand is pushed; an operator pops the
/// right-hand operand, then the left-hand one, and pushes the result.
pub open spec fn eval_step(stack: Seq<ExpressionEntry>, entry: ExpressionEntry) -> Result<
    Seq<ExpressionEntry>,
    CalcError,
> {
    match entry {
        ExpressionEntry::Operand(v) => Ok(stack.push(ExpressionEntry::Operand(v))),
        ExpressionEntry::Operator(symbol) => match op_of(symbol) {
            None => Err(CalcError::UnknownOperator),
            Some(op) => match top_operand(stack) {
                Err(e) => Err(e),
                Ok(rhs) => match top_operand(stack.drop_last()) {
                    Err(e) => Err(e),
                    Ok(lhs) => match checked_value(op, lhs, rhs) {
                        Err(e) => Err(e),
                        Ok(v) => Ok(stack.drop_last().drop_last().push(ExpressionEntry::Operand(v))),
                    },
                },
            },
        },
    }
}

/// The operand stack after running `entries` from the left on an empty
/// stack, or the first error met.
pub open spec fn run(entries: Seq<ExpressionEntry>) -> Result<Seq<ExpressionEntry>, CalcError>
    decreases entries.len(),
{
    if entries.len() == 0 {
        Ok(Seq::empty())
    } else {
        match run(entries.drop_last()) {
            Ok(stack) => eval_step(stack, entries.last()),
            Err(e) => Err(e),
        }
    }
}

/// The value of a postfix program: the run must leave exactly one operand.
pub open spec fn value_of(entries: Seq<ExpressionEntry>) -> Result<i32, CalcError> {
    match run(entries) {
        Ok(stack) => if stack.len() == 1 {
            top_operand(stack)
        } else {
            Err(CalcError::StackUnderflow)
        },
        Err(e) => Err(e),
    }
}

/// The postfix text and the program that `infix` converts to.
pub open spec fn notation_of(infix: Seq<char>) -> Result<(Seq<char>, Seq<ExpressionEntry>), CalcError> {
    match postfix_of(infix) {
        Ok(postfix) => match expression_of(postfix) {
            Ok(entries) => Ok((postfix, entries)),
            Err(e) => Err(e),
        },
        Err(e) => Err(e),
    }
}

proof fn lemma_run_fails_on_extension(entries: Seq<ExpressionEntry>, i: int)
    requires
        0 <= i <= entries.len(),
        run(entries.take(i)) is Err,
    ensures
        run(entries) == run(entries.take(i)),
    decreases entries.len() - i,
{
    if i < entries.len() {
        assert(entries.take(i + 1).drop_last() =~= entries.take(i));
        lemma_run_fails_on_extension(entries, i + 1);
    } else {
        assert(entries.take(i) =~= entries);
    }
}

/// Pops the top of `stack` and returns it as an operand. Fails with
/// `StackUnderflow` where the stack is empty or its top is an operator.
pub fn get_operand_from_stack(stack: &mut Vec<ExpressionEntry>) -> (r: Result<i32, CalcError>)
    ensures
        r == top_operand(old(stack)@),
        old(stack)@.len() > 0 ==> final(stack)@ == old(stack)@.drop_last(),
        old(stack)@.len() == 0 ==> final(stack)@ == old(stack)@,
{
    match stack.pop() {
        None => Err(CalcError::StackUnderflow),
        Some(ExpressionEntry::Operand(value)) => Ok(value),
        Some(ExpressionEntry::Operator(_)) => Err(CalcError::StackUnderflow),
    }
}

/// Runs one entry on the operand stack.
pub fn eval_entry(stack: &mut Vec<ExpressionEntry>, entry: ExpressionEntry) -> (r: Result<(), CalcError>)
    ensures
        match r {
            Ok(_) => eval_step(old(stack)@, entry) == Ok::<Seq<ExpressionEntry>, CalcError>(final(stack)@),
            Err(e) => eval_step(old(stack)@, entry) == Err::<Seq<ExpressionEntry>, CalcError>(e),
        },
{
    match entry {
        ExpressionEntry::Operand(value) => {
            stack.push(ExpressionEntry::Operand(value));
            Ok(())
        },
        ExpressionEntry::Operator(symbol) => {
            let op = match BinaryOp::from_symbol(symbol) {
                Some(op) => op,
                None => return Err(CalcError::UnknownOperator),
            };
            let operand1 = match get_operand_from_stack(stack) {
                Ok(v) => v,
                Err(e) => return Err(e),
            };
            let operand2 = match get_operand_from_stack(stack) {
                Ok(v) => v,
                Err(e) => return Err(e),
            };
            match op.apply(operand2, operand1) {
                Ok(v) => {
                    stack.push(ExpressionEntry::Operand(v));
                    Ok(())
                },
                Err(e) => Err(e),
            }
        },
    }
}

/// A postfix program ready to evaluate, with the postfix text it was read
/// from where it was built from infix text.
pub struct PostfixNotation {
    postfix: Option<String>,
    expression: Vec<ExpressionEntry>,
}

impl PostfixNotation {
    /// The program's entries.
    pub closed spec fn entries(&self) -> Seq<ExpressionEntry> {
        self.expression@
    }

    /// The postfix text, where the program was read from infix text.
    pub closed spec fn postfix_text(&self) -> Option<Seq<char>> {
        match self.postfix {
            Some(s) => Some(s@),
            None => None,
        }
    }

    /// Wraps a program built by hand, with no postfix text; meant for
    /// tests, which run the evaluator without the converter.
    pub fn from_expression(expression: Vec<ExpressionEntry>) -> (r: Self)
        ensures
            r.entries() == expression@,
            r.postfix_text() is None,
    {
        PostfixNotation { postfix: None, expression }
    }

    /// Converts `infix` to postfix text and parses that into a program.
    pub fn from_infix_string(infix: &str) -> (r: Result<Self, CalcError>)
        ensures
            match r {
                Ok(n) => notation_of(infix@) == Ok::<(Seq<char>, Seq<ExpressionEntry>), CalcError>(
                    (n.postfix_text()->Some_0, n.entries()),
                ) && n.postfix_text() is Some,
                Err(e) => notation_of(infix@) == Err::<(Seq<char>, Seq<ExpressionEntry>), CalcError>(e),
            },
    {
        let postfix = match infix_to_postfix(infix) {
            Ok(p) => p,
            Err(e) => return Err(e),
        };
        let expression = match postfix_to_expression(postfix.as_str()) {
            Ok(entries) => entries,
            Err(e) => return Err(e),
        };
        Ok(PostfixNotation { postfix: Some(postfix), expression })
    }

    /// The program's entries.
    pub fn expression(&self) -> (r: &Vec<ExpressionEntry>)
        ensures
            r@ == self.entries(),
    {
        &self.expression
    }

    /// The postfix text, where the program was read from infix text.
    pub fn postfix(&self) -> (r: Option<&String>)
        ensures
            match r {
                Some(s) => self.postfix_text() == Some(s@),
                None => self.postfix_text() is None,
            },
    {
        match &self.postfix {
            Some(s) => Some(s),
            None => None,
        }
    }

    /// Evaluates the program on an operand stack. Fails with the first
    /// error met, and with `StackUnderflow` unless exactly one operand is
    /// left at the end.
    pub fn calculate(&self) -> (r: Result<i32, CalcError>)
        ensures
            r == value_of(self.entries()),
    {
        let mut stack: Vec<ExpressionEntry> = Vec::new();
        let n = self.expression.len();
        let mut i: usize = 0;
        while i < n
            invariant
                n == self.expression@.len(),
                i <= n,
                run(self.expression@.take(i as int)) == Ok::<Seq<ExpressionEntry>, CalcError>(stack@),
            decreases n - i,
        {
            assert(self.expression@.take(i + 1).drop_last() =~= self.expression@.take(i as int));
            match eval_entry(&mut stack, self.expression[i]) {
                Ok(_) => {},
                Err(e) => {
                    proof {
                        lemma_run_fails_on_extension(self.expression@, i + 1);
                    }
                    return Err(e);
                },
            }
            i = i + 1;
        }
        assert(self.expression@.take(n as int) =~= self.expression@);
        if stack.len() != 1 {
            return Err(CalcError::StackUnderflow);
        }
        get_operand_from_stack(&mut stack)
    }
}

} // verus!
