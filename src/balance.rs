use vstd::prelude::*;

use crate::converter::{close_group, flush, pop_binding, postfix_of, priority, scan, scan_char};
use crate::error::CalcError;
use crate::expression::op_of;
use crate::parser::is_digit;

verus! {

/// A character that infix text may hold: a digit, `+ - * /`, `(` or `)`.
pub open spec fn is_infix_char(c: char) -> bool {
    is_digit(c) || op_of(c) is Some || c == '(' || c == ')'
}

/// Opened minus closed parentheses in `s`.
pub open spec fn depth(s: Seq<char>) -> int
    decreases s.len(),
{
    if s.len() == 0 {
        0
    } else {
        depth(s.drop_last()) + if s.last() == '(' {
            1int
        } else if s.last() == ')' {
            -1int
        } else {
            0int
        }
    }
}

/// No prefix of `s` closes a parenthesis it has not opened.
pub open spec fn never_overclosed(s: Seq<char>) -> bool {
    forall|i: int| 0 <= i <= s.len() ==> depth(#[trigger] s.take(i)) >= 0
}

/// Every parenthesis of `s` is closed, and none before it was opened.
pub open spec fn balanced(s: Seq<char>) -> bool {
    never_overclosed(s) && depth(s) == 0
}

/// Number of `(` in an operator stack.
pub open spec fn open_count(stack: Seq<char>) -> int
    decreases stack.len(),
{
    if stack.len() == 0 {
        0
    } else {
        open_count(stack.drop_last()) + if stack.last() == '(' {
            1int
        } else {
            0int
        }
    }
}

/// An operator stack holds only `(` and the four operators.
pub open spec fn stack_ok(stack: Seq<char>) -> bool {
    forall|k: int| 0 <= k < stack.len() ==> (#[trigger] stack[k] == '(' || op_of(stack[k]) is Some)
}

proof fn lemma_open_count_nonneg(stack: Seq<char>)
    ensures
        open_count(stack) >= 0,
    decreases stack.len(),
{
    if stack.len() > 0 {
        lemma_open_count_nonneg(stack.drop_last());
    }
}

proof fn lemma_pop_binding_keeps_opens(out: Seq<char>, stack: Seq<char>, p: int)
    requires
        p >= 1,
        stack_ok(stack),
    ensures
        open_count(pop_binding(out, stack, p).1) == open_count(stack),
        stack_ok(pop_binding(out, stack, p).1),
    decreases stack.len(),
{
    if stack.len() > 0 && p <= priority(stack.last()) {
        assert(stack.last() != '(');
        lemma_pop_binding_keeps_opens(out.push(stack.last()).push(' '), stack.drop_last(), p);
    }
}

proof fn lemma_close_group_opens(out: Seq<char>, stack: Seq<char>)
    requires
        stack_ok(stack),
    ensures
        close_group(out, stack) is Some <==> open_count(stack) > 0,
        close_group(out, stack) matches Some(state) ==> open_count(state.1) == open_count(stack) - 1
            && stack_ok(state.1),
    decreases stack.len(),
{
    if stack.len() > 0 {
        lemma_open_count_nonneg(stack.drop_last());
        if stack.last() != '(' {
            lemma_close_group_opens(out.push(' ').push(stack.last()), stack.drop_last());
        }
    }
}

proof fn lemma_flush_opens(out: Seq<char>, stack: Seq<char>)
    requires
        stack_ok(stack),
    ensures
        flush(out, stack) is Some <==> open_count(stack) == 0,
    decreases stack.len(),
{
    if stack.len() > 0 {
        lemma_open_count_nonneg(stack.drop_last());
        if stack.last() != '(' {
            lemma_flush_opens(out.push(' ').push(stack.last()), stack.drop_last());
        }
    }
}

proof fn lemma_scan_tracks_depth(s: Seq<char>)
    requires
        forall|i: int| 0 <= i < s.len() ==> is_infix_char(#[trigger] s[i]),
    ensures
        scan(s) is Some <==> never_overclosed(s),
        scan(s) matches Some(state) ==> open_count(state.1) == depth(s) && stack_ok(state.1),
    decreases s.len(),
{
    if s.len() == 0 {
        assert(s.take(0) =~= s);
    } else {
        let p = s.drop_last();
        let c = s.last();
        assert(is_infix_char(s[s.len() - 1]));
        lemma_scan_tracks_depth(p);
        assert forall|i: int| 0 <= i <= p.len() implies #[trigger] s.take(i) == p.take(i) by {
            assert(s.take(i) =~= p.take(i));
        }
        assert(s.take(s.len() as int) =~= s);
        if never_overclosed(s) {
            assert forall|i: int| 0 <= i <= p.len() implies depth(#[trigger] p.take(i)) >= 0 by {
                assert(depth(s.take(i)) >= 0);
            }
        }
        if let Some(state) = scan(p) {
            let out = state.0;
            let stack = state.1;
            assert(stack.push(c).drop_last() =~= stack);
            if is_digit(c) {
            } else if c == '(' {
            } else if c == ')' {
                lemma_close_group_opens(out, stack);
            } else {
                lemma_pop_binding_keeps_opens(out.push(' '), stack, priority(c));
                let popped = pop_binding(out.push(' '), stack, priority(c));
                assert(popped.1.push(c).drop_last() =~= popped.1);
            }
            if scan(s) is Some && never_overclosed(p) && depth(s) >= 0 {
                assert forall|i: int| 0 <= i <= s.len() implies depth(#[trigger] s.take(i)) >= 0 by {
                    if i <= p.len() {
                        assert(depth(p.take(i)) >= 0);
                    }
                }
            }
        } else {
            if never_overclosed(s) {
                assert(never_overclosed(p));
            }
        }
    }
}

/// For text made of digits, `+ - * /` and parentheses, conversion succeeds
/// exactly when the parentheses are balanced; otherwise it fails with
/// `BracketMismatch`.
pub proof fn lemma_conversion_succeeds_iff_balanced(infix: Seq<char>)
    requires
        forall|i: int| 0 <= i < infix.len() ==> is_infix_char(#[trigger] infix[i]),
    ensures
        postfix_of(infix) is Ok <==> balanced(infix),
        !balanced(infix) ==> postfix_of(infix) == Err::<Seq<char>, CalcError>(CalcError::BracketMismatch),
{
    lemma_scan_tracks_depth(infix);
    if let Some(state) = scan(infix) {
        lemma_flush_opens(state.0, state.1);
    }
}

} // verus!
