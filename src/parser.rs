use vstd::prelude::*;

use crate::error::CalcError;
use crate::expression::{op_of, BinaryOp, ExpressionEntry};

verus! {

/// The pieces of `s` between single spaces, as `str::split(' ')` yields
/// them: two spaces in a row leave an empty piece between them.
pub open spec fn split_spaces(s: Seq<char>) -> Seq<Seq<char>>
    decreases s.len(),
{
    if s.len() == 0 {
        seq![Seq::empty()]
    } else {
        let words = split_spaces(s.drop_last());
        if s.last() == ' ' {
            words.push(Seq::empty())
        } else {
            words.update(words.len() - 1, words.last().push(s.last()))
        }
    }
}

pub open spec fn is_digit(c: char) -> bool {
    '0' <= c && c <= '9'
}

/// A nonempty run of decimal digits.
pub open spec fn all_digits(d: Seq<char>) -> bool {
    d.len() > 0 && forall|i: int| 0 <= i < d.len() ==> is_digit(#[trigger] d[i])
}

/// The number that the decimal digits `d` write.
pub open spec fn digits_value(d: Seq<char>) -> int
    decreases d.len(),
{
    if d.len() == 0 {
        0
    } else {
        10 * digits_value(d.drop_last()) + (d.last() as int - '0' as int)
    }
}

/// The integer that `t` writes: digits after an optional `+` or `-`.
pub open spec fn integer_of(t: Seq<char>) -> Option<int> {
    if t.len() > 0 && (t[0] == '-' || t[0] == '+') {
        if all_digits(t.skip(1)) {
            Some(
                if t[0] == '-' {
                    -digits_value(t.skip(1))
                } else {
                    digits_value(t.skip(1))
                },
            )
        } else {
            None
        }
    } else if all_digits(t) {
        Some(digits_value(t))
    } else {
        None
    }
}

/// The `i32` that `t` writes, or `None` where it writes none or one out of range.
pub open spec fn i32_of(t: Seq<char>) -> Option<i32> {
    match integer_of(t) {
        Some(v) => if i32::MIN <= v <= i32::MAX {
            Some(v as i32)
        } else {
            None
        },
        None => None,
    }
}

/// The entry that one postfix word stands for: an operator when it is
/// exactly one of `+ - * /`, else an operand.
pub open spec fn entry_of(word: Seq<char>) -> Result<ExpressionEntry, CalcError> {
    if word.len() == 1 && op_of(word[0]) is Some {
        Ok(ExpressionEntry::Operator(word[0]))
    } else {
        match i32_of(word) {
            Some(v) => Ok(ExpressionEntry::Operand(v)),
            None => Err(CalcError::InvalidToken),
        }
    }
}

/// The entries of `words` in order; the first word that is no entry
/// decides the error.
pub open spec fn entries_of(words: Seq<Seq<char>>) -> Result<Seq<ExpressionEntry>, CalcError>
    decreases words.len(),
{
    if words.len() == 0 {
        Ok(Seq::empty())
    } else {
        match entries_of(words.drop_last()) {
            Ok(entries) => match entry_of(words.last()) {
                Ok(e) => Ok(entries.push(e)),
                Err(err) => Err(err),
            },
            Err(err) => Err(err),
        }
    }
}

/// The program that a postfix text stands for; the empty text is the
/// empty program.
pub open spec fn expression_of(postfix: Seq<char>) -> Result<Seq<ExpressionEntry>, CalcError> {
    if postfix.len() == 0 {
        Ok(Seq::empty())
    } else {
        entries_of(split_spaces(postfix))
    }
}

proof fn lemma_split_nonempty(s: Seq<char>)
    ensures
        split_spaces(s).len() >= 1,
    decreases s.len(),
{
    if s.len() > 0 {
        lemma_split_nonempty(s.drop_last());
    }
}

/// Reading more text only changes the last word so far and adds words
/// after it.
proof fn lemma_split_extends(s: Seq<char>, i: int, j: int)
    requires
        0 <= i <= j <= s.len(),
    ensures
        split_spaces(s.take(j)).len() >= split_spaces(s.take(i)).len(),
        forall|k: int|
            0 <= k < split_spaces(s.take(i)).len() - 1 ==> split_spaces(s.take(j))[k]
                == split_spaces(s.take(i))[k],
    decreases j - i,
{
    if i < j {
        lemma_split_extends(s, i, j - 1);
        assert(s.take(j).drop_last() =~= s.take(j - 1));
        lemma_split_nonempty(s.take(j - 1));
    }
}

proof fn lemma_entries_fail_on_extension(words: Seq<Seq<char>>, k: int)
    requires
        0 <= k <= words.len(),
        entries_of(words.take(k)) is Err,
    ensures
        entries_of(words) == entries_of(words.take(k)),
    decreases words.len() - k,
{
    if k < words.len() {
        assert(words.take(k + 1).drop_last() =~= words.take(k));
        lemma_entries_fail_on_extension(words, k + 1);
    } else {
        assert(words.take(k) =~= words);
    }
}

proof fn lemma_digits_grow(d: Seq<char>, i: int)
    requires
        0 <= i <= d.len(),
        forall|k: int| 0 <= k < d.len() ==> is_digit(#[trigger] d[k]),
    ensures
        digits_value(d.take(i)) <= digits_value(d),
        0 <= digits_value(d.take(i)),
    decreases d.len() - i,
{
    if i < d.len() {
        lemma_digits_grow(d, i + 1);
        let t = d.take(i + 1);
        assert(t.drop_last() =~= d.take(i));
        assert(is_digit(t.last()));
    } else {
        assert(d.take(i) =~= d);
        lemma_digits_nonneg(d);
    }
}

proof fn lemma_digits_nonneg(d: Seq<char>)
    requires
        forall|k: int| 0 <= k < d.len() ==> is_digit(#[trigger] d[k]),
    ensures
        0 <= digits_value(d),
    decreases d.len(),
{
    if d.len() > 0 {
        lemma_digits_nonneg(d.drop_last());
        assert(is_digit(d[d.len() - 1]));
    }
}

/// Reads the `i32` that `word` writes, as `str::parse::<i32>` does.
pub fn parse_i32(word: &Vec<char>) -> (r: Option<i32>)
    ensures
        r == i32_of(word@),
{
    let n = word.len();
    let mut start: usize = 0;
    let mut negative = false;
    if n > 0 && (word[0] == '-' || word[0] == '+') {
        start = 1;
        negative = word[0] == '-';
    }
    let ghost digits = word@.skip(start as int);
    assert(start == 0 ==> digits =~= word@);
    if start == n {
        return None;
    }
    assert(integer_of(word@) == (if all_digits(digits) {
        Some(if negative { -digits_value(digits) } else { digits_value(digits) })
    } else {
        None::<int>
    }));
    let limit: i64 = if negative { 0x8000_0000 } else { 0x7fff_ffff };
    let mut magnitude: i64 = 0;
    let mut i: usize = start;
    while i < n
        invariant
            start <= i <= n,
            n == word@.len(),
            start < n,
            digits == word@.skip(start as int),
            integer_of(word@) == (if all_digits(digits) {
                Some(if negative { -digits_value(digits) } else { digits_value(digits) })
            } else {
                None::<int>
            }),
            0 <= magnitude <= limit,
            limit == (if negative { 0x8000_0000i64 } else { 0x7fff_ffffi64 }),
            magnitude == digits_value(digits.take(i - start)),
            forall|k: int| 0 <= k < i - start ==> is_digit(#[trigger] digits[k]),
        decreases n - i,
    {
        let c = word[i];
        if !('0' <= c && c <= '9') {
            assert(!is_digit(digits[i - start]));
            return None;
        }
        let d = (c as u32 - '0' as u32) as i64;
        assert(digits.take(i + 1 - start).drop_last() =~= digits.take(i - start));
        if magnitude > (limit - d) / 10 {
            assert(magnitude * 10 + d > limit) by (nonlinear_arith)
                requires
                    magnitude > (limit - d) / 10,
                    0 <= d <= 9,
                    limit > 9,
            ;
            proof {
                if all_digits(digits) {
                    lemma_digits_grow(digits, i + 1 - start);
                }
            }
            return None;
        }
        magnitude = magnitude * 10 + d;
        i = i + 1;
    }
    assert(digits.take(n - start) =~= digits);
    if negative {
        Some((0 - magnitude) as i32)
    } else {
        Some(magnitude as i32)
    }
}

/// The entry that one word of postfix text stands for.
pub fn word_entry(word: &Vec<char>) -> (r: Result<ExpressionEntry, CalcError>)
    ensures
        r == entry_of(word@),
{
    if word.len() == 1 {
        if let Some(_) = BinaryOp::from_symbol(word[0]) {
            return Ok(ExpressionEntry::Operator(word[0]));
        }
    }
    match parse_i32(word) {
        Some(v) => Ok(ExpressionEntry::Operand(v)),
        None => Err(CalcError::InvalidToken),
    }
}

/// Parses space-separated postfix text into its entries. Each word that is
/// exactly `+`, `-`, `*` or `/` is an operator; every other word must be an
/// `i32` literal, else the result is `InvalidToken`.
pub fn postfix_to_expression(postfix: &str) -> (r: Result<Vec<ExpressionEntry>, CalcError>)
    ensures
        match r {
            Ok(entries) => expression_of(postfix@) == Ok::<Seq<ExpressionEntry>, CalcError>(entries@),
            Err(e) => expression_of(postfix@) == Err::<Seq<ExpressionEntry>, CalcError>(e),
        },
{
    let mut entries: Vec<ExpressionEntry> = Vec::new();
    if postfix.is_empty() {
        return Ok(entries);
    }
    let mut word: Vec<char> = Vec::new();
    for c in it: postfix.chars()
        invariant
            it.seq() == postfix@,
            postfix@.len() > 0,
            split_spaces(postfix@.take(it.index() as int)).last() == word@,
            entries_of(split_spaces(postfix@.take(it.index() as int)).drop_last()) == Ok::<
                Seq<ExpressionEntry>,
                CalcError,
            >(entries@),
    {
        let ghost i = it.index() as int;
        let ghost words = split_spaces(postfix@.take(i));
        assert(postfix@.take(i + 1).drop_last() =~= postfix@.take(i));
        proof {
            lemma_split_nonempty(postfix@.take(i));
        }
        if c == ' ' {
            match word_entry(&word) {
                Ok(e) => {
                    entries.push(e);
                    assert(split_spaces(postfix@.take(i + 1)).drop_last() =~= words);
                    assert(words.drop_last().push(words.last()) =~= words);
                },
                Err(err) => {
                    proof {
                        assert(words.drop_last().push(words.last()) =~= words);
                        lemma_split_extends(postfix@, i + 1, postfix@.len() as int);
                        assert(postfix@.take(postfix@.len() as int) =~= postfix@);
                        let all = split_spaces(postfix@);
                        assert(all.take(words.len() as int) =~= words);
                        lemma_entries_fail_on_extension(all, words.len() as int);
                    }
                    return Err(err);
                },
            }
            word = Vec::new();
        } else {
            word.push(c);
            assert(split_spaces(postfix@.take(i + 1)).drop_last() =~= words.drop_last());
        }
    }
    assert(postfix@.take(postfix@.len() as int) =~= postfix@);
    proof {
        lemma_split_nonempty(postfix@);
        let words = split_spaces(postfix@);
        assert(words.drop_last().push(words.last()) =~= words);
    }
    match word_entry(&word) {
        Ok(e) => {
            entries.push(e);
            Ok(entries)
        },
        Err(err) => Err(err),
    }
}

} // verus!
