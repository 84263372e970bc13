//! Character classes and the scanning functions that the grammar is written
//! with, over `Seq<char>` and integer positions, and the comparison of two
//! texts.

use vstd::prelude::*;
use vstd::std_specs::iter::IteratorSpec;

verus! {

/// The characters that may separate tokens: space, tab, line feed and
/// carriage return.
pub open spec fn is_whitespace(c: char) -> bool {
    c == ' ' || c == '\t' || c == '\n' || c == '\r'
}

/// The characters that end a number or keyword token.
pub open spec fn is_break(c: char) -> bool {
    is_whitespace(c) || c == ',' || c == ']' || c == '}'
}

/// An ASCII decimal digit.
pub open spec fn is_digit(c: char) -> bool {
    '0' <= c && c <= '9'
}

/// Whether two texts hold the same characters.
pub fn same_text(a: &str, b: &str) -> (same: bool)
    ensures
        same == (a@ == b@),
{
    let mut other = b.chars();
    for c in it: a.chars()
        invariant
            it.seq() == a@,
            it.index() <= b@.len(),
            other.remaining() == b@.skip(it.index()),
            forall|j: int| 0 <= j < it.index() ==> a@[j] == b@[j],
    {
        match other.next() {
            Some(d) => {
                if c != d {
                    return false;
                }
                assert(b@.skip(it.index()).drop_first() =~= b@.skip(it.index() + 1));
            },
            None => {
                return false;
            },
        }
    }
    let last = other.next();
    assert(last is None ==> a@ =~= b@);
    last.is_none()
}

/// The character at `pos`, if `pos` is inside `s`.
pub open spec fn char_at(s: Seq<char>, pos: int) -> Option<char> {
    if 0 <= pos < s.len() {
        Some(s[pos])
    } else {
        None
    }
}

/// Where a scan halts.
pub enum Stop {
    /// At the given character.
    Char(char),
    /// At any of the given characters.
    AnyOf(Seq<char>),
    /// At a break character.
    Break,
    /// At a character that is not whitespace.
    NotWhitespace,
}

impl Stop {
    /// Whether a scan halts at `c`.
    pub open spec fn at(self, c: char) -> bool {
        match self {
            Stop::Char(d) => c == d,
            Stop::AnyOf(ds) => ds.contains(c),
            Stop::Break => is_break(c),
            Stop::NotWhitespace => !is_whitespace(c),
        }
    }
}

/// The first position at or after `from` at which a scan halts, or the
/// length of `s` if there is none.
pub open spec fn scan(s: Seq<char>, from: int, stop: Stop) -> int
    decreases s.len() - from,
{
    if 0 <= from < s.len() && !stop.at(s[from]) {
        scan(s, from + 1, stop)
    } else {
        from
    }
}

/// Where the run of whitespace that starts at `from` ends.
pub open spec fn skip_whitespace(s: Seq<char>, from: int) -> int {
    scan(s, from, Stop::NotWhitespace)
}

/// The first occurrence of `delimiter` at or after `from`, or the length of
/// `s`.
pub open spec fn find_char(s: Seq<char>, from: int, delimiter: char) -> int {
    scan(s, from, Stop::Char(delimiter))
}

/// The first occurrence of any of `delimiters` at or after `from`, or the
/// length of `s`.
pub open spec fn find_any(s: Seq<char>, from: int, delimiters: Seq<char>) -> int {
    scan(s, from, Stop::AnyOf(delimiters))
}

/// Where the token that starts at `from` ends: at the first break character,
/// or at the end of `s`.
pub open spec fn token_end(s: Seq<char>, from: int) -> int {
    scan(s, from, Stop::Break)
}

/// The seven break characters, as the scanner is handed them.
pub open spec fn break_chars() -> Seq<char> {
    seq![' ', '\n', '\t', '\r', ',', ']', '}']
}

/// A scan does not move backwards, wherever it starts.
pub proof fn lemma_scan_not_backwards(s: Seq<char>, from: int, stop: Stop)
    ensures
        from <= scan(s, from, stop),
    decreases s.len() - from,
{
    if 0 <= from < s.len() && !stop.at(s[from]) {
        lemma_scan_not_backwards(s, from + 1, stop);
    }
}

/// `scan` stays inside `s`, passes only characters that do not satisfy
/// `stop`, and halts on one that does unless it reaches the end.
pub proof fn lemma_scan_result(s: Seq<char>, from: int, stop: Stop)
    requires
        0 <= from <= s.len(),
    ensures
        from <= scan(s, from, stop) <= s.len(),
        forall|i: int| from <= i < scan(s, from, stop) ==> !stop.at(#[trigger] s[i]),
        scan(s, from, stop) < s.len() ==> stop.at(s[scan(s, from, stop)]),
    decreases s.len() - from,
{
    if from < s.len() && !stop.at(s[from]) {
        lemma_scan_result(s, from + 1, stop);
    }
}

/// Skipping whitespace stays inside `s`, passes only whitespace and halts on
/// another character unless it reaches the end.
pub proof fn lemma_skip_whitespace(s: Seq<char>, from: int)
    requires
        0 <= from <= s.len(),
    ensures
        from <= skip_whitespace(s, from) <= s.len(),
        forall|i: int| from <= i < skip_whitespace(s, from) ==> is_whitespace(#[trigger] s[i]),
        skip_whitespace(s, from) < s.len() ==> !is_whitespace(s[skip_whitespace(s, from)]),
{
    lemma_scan_result(s, from, Stop::NotWhitespace);
}

/// Whether every character of `s` is whitespace.
pub open spec fn is_blank(s: Seq<char>) -> bool {
    forall|k: int| 0 <= k < s.len() ==> is_whitespace(#[trigger] s[k])
}

/// The search for `delimiter` stays inside `s`, passes only other
/// characters and halts on `delimiter` unless it reaches the end.
pub proof fn lemma_find_char(s: Seq<char>, from: int, delimiter: char)
    requires
        0 <= from <= s.len(),
    ensures
        from <= find_char(s, from, delimiter) <= s.len(),
        forall|i: int| from <= i < find_char(s, from, delimiter) ==> #[trigger] s[i] != delimiter,
        find_char(s, from, delimiter) < s.len() ==> s[find_char(s, from, delimiter)] == delimiter,
{
    lemma_scan_result(s, from, Stop::Char(delimiter));
}

/// A token stays inside `s`, holds no break character and ends at one
/// unless it reaches the end.
pub proof fn lemma_token_end(s: Seq<char>, from: int)
    requires
        0 <= from <= s.len(),
    ensures
        from <= token_end(s, from) <= s.len(),
        forall|i: int| from <= i < token_end(s, from) ==> !is_break(#[trigger] s[i]),
        token_end(s, from) < s.len() ==> is_break(s[token_end(s, from)]),
{
    lemma_scan_result(s, from, Stop::Break);
}

/// A position that halts as `scan` does is where `scan` halts.
pub proof fn lemma_scan_unique(s: Seq<char>, from: int, stop: Stop, end: int)
    requires
        0 <= from <= end <= s.len(),
        forall|i: int| from <= i < end ==> !stop.at(#[trigger] s[i]),
        end < s.len() ==> stop.at(s[end]),
    ensures
        scan(s, from, stop) == end,
    decreases end - from,
{
    if from < end {
        lemma_scan_unique(s, from + 1, stop, end);
    }
}

/// A scan that halts inside a text halts at the same place in every text
/// that starts with that text.
pub proof fn lemma_scan_in_longer(s: Seq<char>, rest: Seq<char>, from: int, stop: Stop)
    requires
        0 <= from,
        scan(s, from, stop) < s.len(),
    ensures
        scan(s + rest, from, stop) == scan(s, from, stop),
{
    let end = scan(s, from, stop);
    let longer = s + rest;
    lemma_scan_not_backwards(s, from, stop);
    lemma_scan_result(s, from, stop);
    assert forall|i: int| from <= i < end implies !stop.at(#[trigger] longer[i]) by {
        assert(longer[i] == s[i]);
    }
    assert(longer[end] == s[end]);
    lemma_scan_unique(longer, from, stop, end);
}

/// Two stop conditions that agree on every character give the same scan.
pub proof fn lemma_scan_same(s: Seq<char>, from: int, stop: Stop, other: Stop)
    requires
        forall|c: char| #[trigger] stop.at(c) == other.at(c),
    ensures
        scan(s, from, stop) == scan(s, from, other),
    decreases s.len() - from,
{
    if 0 <= from < s.len() && !stop.at(s[from]) {
        lemma_scan_same(s, from + 1, stop, other);
    }
}

/// Scanning for the break characters one by one is scanning for a token's
/// end.
pub proof fn lemma_find_any_break(s: Seq<char>, from: int)
    ensures
        find_any(s, from, break_chars()) == token_end(s, from),
{
    let b = break_chars();
    assert forall|c: char| #[trigger] b.contains(c) == is_break(c) by {
        if is_break(c) {
            let i: int = if c == ' ' {
                0
            } else if c == '\n' {
                1
            } else if c == '\t' {
                2
            } else if c == '\r' {
                3
            } else if c == ',' {
                4
            } else if c == ']' {
                5
            } else {
                6
            };
            assert(b[i] == c);
        }
    }
    lemma_scan_same(s, from, Stop::AnyOf(b), Stop::Break);
}

} // verus!
