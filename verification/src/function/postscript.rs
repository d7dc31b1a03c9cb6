//! The text of a type 4 calculator function (7.10.5): its lexemes, and the one integer
//! operator whose meaning is all in the bits.

use crate::error::{char_text, concat};
use crate::text::chars_of;
use vstd::prelude::*;

verus! {

/// Whether `c` has the Unicode `White_Space` property, as `char::is_whitespace` documents.
pub open spec fn is_white_space(c: char) -> bool {
    ('\u{9}' <= c <= '\u{d}') || c == ' ' || c == '\u{85}' || c == '\u{a0}' || c == '\u{1680}' || ('\u{2000}' <= c
        <= '\u{200a}') || c == '\u{2028}' || c == '\u{2029}' || c == '\u{202f}' || c == '\u{205f}' || c == '\u{3000}'
}

/// Whether `c` is white space.
fn white_space(c: char) -> (r: bool)
    ensures
        r == is_white_space(c),
{
    ('\u{9}' <= c && c <= '\u{d}') || c == ' ' || c == '\u{85}' || c == '\u{a0}' || c == '\u{1680}' || ('\u{2000}' <= c
        && c <= '\u{200a}') || c == '\u{2028}' || c == '\u{2029}' || c == '\u{202f}' || c == '\u{205f}' || c == '\u{3000}'
}

/// Where splitting a program has got to: the lexemes so far, the one being read, and
/// whether a comment is running.
pub type LexState = (Seq<Seq<char>>, Seq<char>, bool);

/// The lexemes with the one being read ended, if it has begun.
pub open spec fn ended(out: Seq<Seq<char>>, cur: Seq<char>) -> Seq<Seq<char>> {
    if cur.len() > 0 {
        out.push(cur)
    } else {
        out
    }
}

/// One character more: a comment runs to the end of its line; `%` starts one; a brace is
/// a lexeme of its own; white space ends a lexeme; anything else extends it.
pub open spec fn lex_step(st: LexState, c: char) -> LexState {
    let (out, cur, comment) = st;
    if comment {
        if c == '\n' || c == '\r' {
            (out, cur, false)
        } else {
            st
        }
    } else if c == '%' {
        (ended(out, cur), Seq::empty(), true)
    } else if c == '{' || c == '}' {
        (ended(out, cur).push(seq![c]), Seq::empty(), false)
    } else if is_white_space(c) {
        (ended(out, cur), Seq::empty(), false)
    } else {
        (out, cur.push(c), false)
    }
}

/// The state after the first `n` characters of `text`.
pub open spec fn lex_upto(text: Seq<char>, n: int) -> LexState
    decreases n,
{
    if n <= 0 {
        (Seq::empty(), Seq::empty(), false)
    } else {
        lex_step(lex_upto(text, n - 1), text[n - 1])
    }
}

/// The lexemes of a calculator program.
pub open spec fn lexemes(text: Seq<char>) -> Seq<Seq<char>> {
    let (out, cur, _) = lex_upto(text, text.len() as int);
    ended(out, cur)
}

/// Lexemes, as their characters.
pub open spec fn words(v: Seq<String>) -> Seq<Seq<char>> {
    v.map_values(|s: String| s@)
}

/// Ends the lexeme being read, if it has begun.
fn flush(current: &mut String, out: &mut Vec<String>)
    ensures
        words(final(out)@) == ended(words(old(out)@), old(current)@),
        final(current)@.len() == 0,
{
    if current.as_str().unicode_len() > 0 {
        let mut taken = String::new();
        std::mem::swap(&mut taken, current);
        let ghost before = out@;
        out.push(taken);
        assert(words(out@) =~= words(before).push(taken@));
    }
}

/// Splits a program's text into lexemes, `{` and `}` standing alone and `%` comments
/// dropped to the end of their line.
pub fn lex(text: &str) -> (r: Vec<String>)
    ensures
        words(r@) == lexemes(text@),
{
    let cs = chars_of(text);
    let mut out: Vec<String> = Vec::new();
    let mut current = String::new();
    let mut in_comment = false;
    let mut i: usize = 0;
    proof {
        reveal_strlit("");
    }
    assert(words(out@) =~= Seq::<Seq<char>>::empty());
    while i < cs.len()
        invariant
            i <= cs@.len(),
            cs@ == text@,
            (words(out@), current@, in_comment) == lex_upto(text@, i as int),
        decreases cs@.len() - i,
    {
        let c = cs[i];
        if in_comment {
            if c == '\n' || c == '\r' {
                in_comment = false;
            }
        } else if c == '%' {
            flush(&mut current, &mut out);
            in_comment = true;
            assert(current@ =~= Seq::<char>::empty());
        } else if c == '{' || c == '}' {
            flush(&mut current, &mut out);
            let ghost before = out@;
            out.push(char_text(c));
            assert(words(out@) =~= words(before).push(seq![c]));
            assert(current@ =~= Seq::<char>::empty());
        } else if white_space(c) {
            flush(&mut current, &mut out);
            assert(current@ =~= Seq::<char>::empty());
        } else {
            current = concat(current, char_text(c).as_str());
        }
        i = i + 1;
    }
    flush(&mut current, &mut out);
    out
}

/// What `bitshift` makes of an integer: left for a positive count, right (keeping the
/// sign) for a negative one, and nothing left at all once every bit has moved out.
pub open spec fn spec_shift(value: i64, by: i64) -> i64 {
    if by >= 64 || by <= -64 {
        0
    } else if by >= 0 {
        value << (by as u64)
    } else {
        value >> ((-by) as u64)
    }
}

/// `bitshift` (Table 42).
pub fn shift(value: i64, by: i64) -> (r: i64)
    ensures
        r == spec_shift(value, by),
{
    if by >= 64 || by <= -64 {
        0
    } else if by >= 0 {
        value << (by as u64)
    } else {
        value >> ((0 - by) as u64)
    }
}

} // verus!
