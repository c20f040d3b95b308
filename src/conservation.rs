use vstd::prelude::*;

use crate::converter::{close_group, flush, pop_binding, postfix_of, priority, scan, scan_char};

verus! {

/// Occurrences of `c` in `s`.
pub open spec fn occurrences(s: Seq<char>, c: char) -> int
    decreases s.len(),
{
    if s.len() == 0 {
        0
    } else {
        occurrences(s.drop_last(), c) + if s.last() == c {
            1int
        } else {
            0int
        }
    }
}

proof fn lemma_occurrences_nonneg(s: Seq<char>, c: char)
    ensures
        occurrences(s, c) >= 0,
    decreases s.len(),
{
    if s.len() > 0 {
        lemma_occurrences_nonneg(s.drop_last(), c);
    }
}

proof fn lemma_occurrences_push(s: Seq<char>, x: char, c: char)
    ensures
        occurrences(s.push(x), c) == occurrences(s, c) + if x == c {
            1int
        } else {
            0int
        },
{
    assert(s.push(x).drop_last() =~= s);
}

proof fn lemma_pop_binding_moves(out: Seq<char>, stack: Seq<char>, p: int, c: char)
    requires
        c != ' ',
    ensures
        occurrences(pop_binding(out, stack, p).0, c) + occurrences(pop_binding(out, stack, p).1, c)
            == occurrences(out, c) + occurrences(stack, c),
    decreases stack.len(),
{
    if stack.len() > 0 && p <= priority(stack.last()) {
        lemma_occurrences_push(out, stack.last(), c);
        lemma_occurrences_push(out.push(stack.last()), ' ', c);
        lemma_pop_binding_moves(out.push(stack.last()).push(' '), stack.drop_last(), p, c);
    }
}

proof fn lemma_close_group_moves(out: Seq<char>, stack: Seq<char>, c: char)
    requires
        c != ' ',
        c != '(',
    ensures
        close_group(out, stack) matches Some(state) ==> occurrences(state.0, c) + occurrences(
            state.1,
            c,
        ) == occurrences(out, c) + occurrences(stack, c),
    decreases stack.len(),
{
    if stack.len() > 0 && stack.last() != '(' {
        lemma_occurrences_push(out, ' ', c);
        lemma_occurrences_push(out.push(' '), stack.last(), c);
        lemma_close_group_moves(out.push(' ').push(stack.last()), stack.drop_last(), c);
    }
}

proof fn lemma_flush_moves(out: Seq<char>, stack: Seq<char>, c: char)
    requires
        c != ' ',
    ensures
        flush(out, stack) matches Some(done) ==> occurrences(done, c) == occurrences(out, c)
            + occurrences(stack, c),
    decreases stack.len(),
{
    if stack.len() > 0 && stack.last() != '(' {
        lemma_occurrences_push(out, ' ', c);
        lemma_occurrences_push(out.push(' '), stack.last(), c);
        lemma_flush_moves(out.push(' ').push(stack.last()), stack.drop_last(), c);
    }
}

proof fn lemma_scan_moves(infix: Seq<char>, c: char)
    requires
        c != ' ',
        c != '(',
    ensures
        scan(infix) matches Some(state) ==> occurrences(state.0, c) + occurrences(state.1, c) == if c
            == ')' {
            0
        } else {
            occurrences(infix, c)
        },
    decreases infix.len(),
{
    if infix.len() > 0 {
        let x = infix.last();
        lemma_scan_moves(infix.drop_last(), c);
        if let Some(state) = scan(infix.drop_last()) {
            let out = state.0;
            let stack = state.1;
            if '0' <= x && x <= '9' {
                lemma_occurrences_push(out, x, c);
            } else if x == '(' {
                lemma_occurrences_push(stack, x, c);
            } else if x == ')' {
                lemma_close_group_moves(out, stack, c);
            } else {
                lemma_occurrences_push(out, ' ', c);
                lemma_pop_binding_moves(out.push(' '), stack, priority(x), c);
                lemma_occurrences_push(pop_binding(out.push(' '), stack, priority(x)).1, x, c);
            }
        }
    }
}

/// Conversion moves characters and never invents one: every character of
/// the infix text other than a space or a parenthesis occurs in the
/// postfix text exactly as often as in the infix text.
pub proof fn lemma_conversion_keeps_characters(infix: Seq<char>, c: char)
    requires
        c != ' ',
        c != '(',
        c != ')',
    ensures
        postfix_of(infix) matches Ok(out) ==> occurrences(out, c) == occurrences(infix, c),
{
    lemma_scan_moves(infix, c);
    if let Some(state) = scan(infix) {
        lemma_flush_moves(state.0, state.1, c);
    }
}

/// No `)` ever reaches the postfix text: a `)` only releases the operators
/// of its group.
pub proof fn lemma_conversion_drops_closing_parens(infix: Seq<char>)
    ensures
        postfix_of(infix) matches Ok(out) ==> occurrences(out, ')') == 0,
{
    lemma_scan_moves(infix, ')');
    if let Some(state) = scan(infix) {
        lemma_flush_moves(state.0, state.1, ')');
        lemma_occurrences_nonneg(state.0, ')');
        lemma_occurrences_nonneg(state.1, ')');
    }
}

} // verus!
