use vstd::prelude::*;

use crate::error::CalcError;

verus! {

/// Binding strength of an operator character: 2 for `*` and `/`, 1 for
/// `+` and `-`, and -1 for anything else (parentheses included).
pub open spec fn priority(c: char) -> int {
    if c == '*' || c == '/' {
        2
    } else if c == '+' || c == '-' {
        1
    } else {
        -1
    }
}

/// Executable form of [`priority`].
pub fn operator_priority(operator: &char) -> (r: i32)
    ensures
        r == priority(*operator),
{
    match *operator {
        '*' => 2,
        '/' => 2,
        '-' => 1,
        '+' => 1,
        _ => -1,
    }
}

/// Pops from `stack` every top of priority at least `p`, writing each to
/// `out` followed by a space. Yields the output and the stack after that.
pub open spec fn pop_binding(out: Seq<char>, stack: Seq<char>, p: int) -> (Seq<char>, Seq<char>)
    decreases stack.len(),
{
    if stack.len() > 0 && p <= priority(stack.last()) {
        pop_binding(out.push(stack.last()).push(' '), stack.drop_last(), p)
    } else {
        (out, stack)
    }
}

/// Handles a `)`: pops every top down to the nearest `(`, writing each to
/// `out` after a space, and drops the `(`. `None` when no `(` is left.
pub open spec fn close_group(out: Seq<char>, stack: Seq<char>) -> Option<(Seq<char>, Seq<char>)>
    decreases stack.len(),
{
    if stack.len() == 0 {
        None
    } else if stack.last() == '(' {
        Some((out, stack.drop_last()))
    } else {
        close_group(out.push(' ').push(stack.last()), stack.drop_last())
    }
}

/// One character of the infix text, read with output `out` and operator
/// stack `stack` (its top is the last element).
pub open spec fn scan_char(out: Seq<char>, stack: Seq<char>, c: char) -> Option<(Seq<char>, Seq<char>)> {
    if '0' <= c && c <= '9' {
        Some((out.push(c), stack))
    } else if c == '(' {
        Some((out, stack.push(c)))
    } else if c == ')' {
        close_group(out, stack)
    } else {
        let popped = pop_binding(out.push(' '), stack, priority(c));
        Some((popped.0, popped.1.push(c)))
    }
}

/// Output and operator stack after reading all of `infix` from the left,
/// or `None` where a `)` found no `(` to close.
pub open spec fn scan(infix: Seq<char>) -> Option<(Seq<char>, Seq<char>)>
    decreases infix.len(),
{
    if infix.len() == 0 {
        Some((Seq::empty(), Seq::empty()))
    } else {
        match scan(infix.drop_last()) {
            Some(state) => scan_char(state.0, state.1, infix.last()),
            None => None,
        }
    }
}

/// Empties the stack at the end of the text, writing each entry after a
/// space. `None` where a `(` was never closed.
pub open spec fn flush(out: Seq<char>, stack: Seq<char>) -> Option<Seq<char>>
    decreases stack.len(),
{
    if stack.len() == 0 {
        Some(out)
    } else if stack.last() == '(' {
        None
    } else {
        flush(out.push(' ').push(stack.last()), stack.drop_last())
    }
}

/// The postfix text of `infix`, or the error that converting it raises.
pub open spec fn postfix_of(infix: Seq<char>) -> Result<Seq<char>, CalcError> {
    match scan(infix) {
        Some(state) => match flush(state.0, state.1) {
            Some(out) => Ok(out),
            None => Err(CalcError::BracketMismatch),
        },
        None => Err(CalcError::BracketMismatch),
    }
}

proof fn lemma_scan_fails_on_extension(infix: Seq<char>, i: int)
    requires
        0 <= i <= infix.len(),
        scan(infix.take(i)) is None,
    ensures
        scan(infix) is None,
    decreases infix.len() - i,
{
    if i < infix.len() {
        assert(infix.take(i + 1).drop_last() =~= infix.take(i));
        lemma_scan_fails_on_extension(infix, i + 1);
    } else {
        assert(infix.take(i) =~= infix);
    }
}

/// Relies on `String::push`, which appends the character at the end of the
/// string.
pub assume_specification[ String::push ](s: &mut String, ch: char)
    ensures
        final(s)@ == old(s)@.push(ch),
;

/// Converts infix text to postfix text with the shunting-yard algorithm:
/// digits are copied, operators wait on a stack until an operator of no
/// higher priority or a `)` releases them. Equal priorities associate to
/// the left. Fails with `BracketMismatch` on unbalanced parentheses.
///
/// Characters are not screened: any character that is not a digit or a
/// parenthesis is taken as an operator of priority -1, and the parser then
/// rejects the word it becomes.
pub fn infix_to_postfix(infix: &str) -> (r: Result<String, CalcError>)
    ensures
        match r {
            Ok(out) => postfix_of(infix@) == Ok::<Seq<char>, CalcError>(out@),
            Err(e) => postfix_of(infix@) == Err::<Seq<char>, CalcError>(e),
        },
{
    let mut result = String::new();
    let mut stack: Vec<char> = Vec::new();
    for c in it: infix.chars()
        invariant
            it.seq() == infix@,
            scan(infix@.take(it.index() as int)) == Some((result@, stack@)),
    {
        let ghost before = (result@, stack@);
        let ghost i = it.index() as int;
        assert(infix@.take(i + 1).drop_last() =~= infix@.take(i));
        if '0' <= c && c <= '9' {
            result.push(c);
        } else if c == '(' {
            stack.push(c);
        } else if c == ')' {
            while stack.len() > 0 && stack[stack.len() - 1] != '('
                invariant
                    close_group(result@, stack@) == close_group(before.0, before.1),
                decreases stack.len(),
            {
                let top = stack.pop().unwrap();
                result.push(' ');
                result.push(top);
            }
            if stack.len() == 0 {
                proof {
                    lemma_scan_fails_on_extension(infix@, i + 1);
                }
                return Err(CalcError::BracketMismatch);
            }
            stack.pop();
        } else {
            result.push(' ');
            let ghost pushed = result@;
            while stack.len() > 0 && operator_priority(&c) <= operator_priority(&stack[stack.len() - 1])
                invariant
                    pop_binding(result@, stack@, priority(c)) == pop_binding(pushed, before.1, priority(c)),
                decreases stack.len(),
            {
                let top = stack.pop().unwrap();
                result.push(top);
                result.push(' ');
            }
            stack.push(c);
        }
    }
    assert(infix@.take(infix@.len() as int) =~= infix@);
    let ghost scanned = (result@, stack@);
    while stack.len() > 0
        invariant
            scan(infix@) == Some(scanned),
            flush(result@, stack@) == flush(scanned.0, scanned.1),
        decreases stack.len(),
    {
        let ghost pending = stack@;
        let operator = stack.pop().unwrap();
        if operator == '(' {
            assert(flush(result@, pending) is None);
            return Err(CalcError::BracketMismatch);
        }
        result.push(' ');
        result.push(operator);
    }
    Ok(result)
}

} // verus!
