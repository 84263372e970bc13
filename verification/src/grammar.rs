//! What parsing means: the accepted texts and the tree that each stands
//! for, as functions on character sequences.

use crate::error::ParseError;
use crate::text::{
    char_at, find_char, is_digit, lemma_find_char, lemma_scan_not_backwards,
    lemma_skip_whitespace, lemma_token_end, skip_whitespace, token_end, Stop,
};
use crate::value::{insert_member, is_number_literal, Members, ValueTree};
use vstd::prelude::*;

verus! {

/// A value that was read, and the position after it.
pub type Parsed = Result<(ValueTree, int), ParseError>;

/// The text from `from` up to the next `"`, taken as it stands, and the
/// position after that `"`; nothing if no `"` follows.
pub open spec fn until_quote(s: Seq<char>, from: int) -> Option<(Seq<char>, int)> {
    let close = find_char(s, from, '"');
    if close < s.len() {
        Some((s.subrange(from, close), close + 1))
    } else {
        None
    }
}

/// The text between the `"` at `from` and the next `"`, and the position
/// after the latter; nothing if either is missing.
pub open spec fn quoted(s: Seq<char>, from: int) -> Option<(Seq<char>, int)> {
    if char_at(s, from) == Some('"') {
        until_quote(s, from + 1)
    } else {
        None
    }
}

/// The front of an object member, read from `from`: whitespace, a quoted
/// key, whitespace, `:` and whitespace. It gives the key and the position at
/// which the member's value starts.
pub open spec fn key_prefix(s: Seq<char>, from: int) -> Result<(Seq<char>, int), ParseError> {
    match quoted(s, skip_whitespace(s, from)) {
        None => Err(ParseError::KeyError),
        Some((key, after)) => {
            let colon = skip_whitespace(s, after);
            if char_at(s, colon) == Some(':') {
                Ok((key, skip_whitespace(s, colon + 1)))
            } else {
                Err(ParseError::StructuralError)
            }
        },
    }
}

/// The number or keyword that starts at `from`: the token up to the next
/// break character is a decimal literal if it starts with a digit, and else
/// one of `null`, `false` and `true`.
pub open spec fn word(s: Seq<char>, from: int) -> Parsed {
    let end = token_end(s, from);
    let token = s.subrange(from, end);
    if 0 <= from < s.len() && is_digit(s[from]) {
        if is_number_literal(token) {
            Ok((ValueTree::Number(token), end))
        } else {
            Err(ParseError::ValueError)
        }
    } else if token == "null"@ {
        Ok((ValueTree::Null, end))
    } else if token == "false"@ {
        Ok((ValueTree::Boolean(false), end))
    } else if token == "true"@ {
        Ok((ValueTree::Boolean(true), end))
    } else {
        Err(ParseError::ValueError)
    }
}

/// The scalar that starts at `from`: a quoted string, whose text is taken
/// as it stands, or else a number or keyword.
pub open spec fn scalar(s: Seq<char>, from: int) -> Parsed {
    if char_at(s, from) == Some('"') {
        match until_quote(s, from + 1) {
            Some((text, after)) => Ok((ValueTree::String(text), after)),
            None => Err(ParseError::ValueError),
        }
    } else {
        word(s, from)
    }
}

/// The container `open` with one more entry: an array gets `value` as its
/// last item; an object gets it under `key`, where the last write wins.
pub open spec fn attach(open: ValueTree, key: Seq<char>, value: ValueTree) -> ValueTree {
    match open {
        ValueTree::Array(items) => ValueTree::Array(items.push(value)),
        ValueTree::Object(members) => ValueTree::Object(insert_member(members, key, value)),
        _ => open,
    }
}

/// Whether `c` is the closing delimiter of the container `open`.
pub open spec fn closes(c: char, open: ValueTree) -> bool {
    (c == ']' && open is Array) || (c == '}' && open is Object)
}

/// The front of an entry of the container `open`, read from `from`: the key
/// prefix for an object, mere whitespace for an array. It gives the entry's
/// key, which is empty for an array, and the position at which the entry's
/// value starts.
pub open spec fn entry_head(s: Seq<char>, from: int, open: ValueTree) -> Result<
    (Seq<char>, int),
    ParseError,
> {
    if open is Object {
        key_prefix(s, from)
    } else {
        Ok((Seq::empty(), skip_whitespace(s, from)))
    }
}

/// The empty container that the character at `at` opens, if it opens one.
pub open spec fn opens(s: Seq<char>, at: int) -> Option<ValueTree> {
    if char_at(s, at) == Some('[') {
        Some(ValueTree::Array(Seq::empty()))
    } else if char_at(s, at) == Some('{') {
        Some(ValueTree::Object(Seq::empty()))
    } else {
        None
    }
}

/// The container that `open` becomes, and the position after its closing
/// delimiter, when an entry of it is expected at `from`. The entry's value
/// is a container of its own where it starts with `[` or `{`, and such a
/// container has at least one entry; any other value is a scalar.
///
/// The test on `after` never fails (`lemma_complete_advances`); it shows
/// that the definition is well founded.
pub open spec fn complete_at_entry(s: Seq<char>, from: int, open: ValueTree) -> Parsed
    decreases s.len() - from, 1int,
{
    match entry_head(s, from, open) {
        Err(e) => Err(e),
        Ok((key, at)) => {
            let value = match opens(s, at) {
                Some(fresh) => {
                    proof {
                        lemma_head_not_backwards(s, from, open);
                    }
                    complete_at_entry(s, at + 1, fresh)
                },
                None => scalar(s, at),
            };
            match value {
                Err(e) => Err(e),
                Ok((v, after)) => if from < after <= s.len() {
                    complete_at_delimiter(s, after, attach(open, key, v))
                } else {
                    Err(ParseError::StructuralError)
                },
            }
        },
    }
}

/// The container that `open` becomes, and the position after its closing
/// delimiter, when an entry of it ends at `from`. After whitespace, `,`
/// announces a further entry and the closing delimiter of `open`'s kind ends
/// the container; anything else is a fault, the other kind's closing
/// delimiter and the end of the text included.
pub open spec fn complete_at_delimiter(s: Seq<char>, from: int, open: ValueTree) -> Parsed
    decreases s.len() - from, 0int,
{
    let at = skip_whitespace(s, from);
    match char_at(s, at) {
        Some(c) => if c == ',' {
            proof {
                lemma_scan_not_backwards(s, from, Stop::NotWhitespace);
            }
            complete_at_entry(s, at + 1, open)
        } else if closes(c, open) {
            Ok((open, at + 1))
        } else {
            Err(ParseError::StructuralError)
        },
        None => Err(ParseError::StructuralError),
    }
}

/// The members of an object tree.
pub open spec fn members_of(tree: ValueTree) -> Members {
    match tree {
        ValueTree::Object(members) => members,
        _ => Seq::empty(),
    }
}

/// The object that the text `s` stands for, or why it stands for none.
///
/// After whitespace the text opens with `{`. If `}` follows, with at most
/// whitespace between the two, the object is empty and only whitespace may
/// follow. Otherwise the object has at least one member, and the text is
/// read up to the `}` that closes it: what comes after is not looked at.
pub open spec fn parse_text(s: Seq<char>) -> Result<Members, ParseError> {
    let open = skip_whitespace(s, 0);
    let first = skip_whitespace(s, open + 1);
    if char_at(s, open) != Some('{') {
        Err(ParseError::StructuralError)
    } else if char_at(s, first) == Some('}') {
        if skip_whitespace(s, first + 1) == s.len() {
            Ok(Seq::empty())
        } else {
            Err(ParseError::TrailingContentError)
        }
    } else {
        match complete_at_entry(s, first, ValueTree::Object(Seq::empty())) {
            Ok((tree, _)) => Ok(members_of(tree)),
            Err(e) => Err(e),
        }
    }
}

/// What `until_quote` reads lies inside the text and holds no `"`.
pub proof fn lemma_until_quote(s: Seq<char>, from: int)
    requires
        0 <= from <= s.len(),
    ensures
        until_quote(s, from) matches Some((text, after)) ==> {
            &&& from < after <= s.len()
            &&& !text.contains('"')
        },
{
    lemma_find_char(s, from, '"');
    let close = find_char(s, from, '"');
    if close < s.len() {
        let text = s.subrange(from, close);
        assert forall|i: int| 0 <= i < text.len() implies text[i] != '"' by {
            assert(text[i] == s[from + i]);
        }
    }
}

/// The front of an entry does not move backwards.
pub proof fn lemma_head_not_backwards(s: Seq<char>, from: int, open: ValueTree)
    ensures
        entry_head(s, from, open) matches Ok((_, at)) ==> from <= at,
{
    lemma_scan_not_backwards(s, from, Stop::NotWhitespace);
    if open is Object {
        let quote = skip_whitespace(s, from);
        lemma_scan_not_backwards(s, quote + 1, Stop::Char('"'));
        if let Some((_, after)) = quoted(s, quote) {
            lemma_scan_not_backwards(s, after, Stop::NotWhitespace);
            lemma_scan_not_backwards(s, skip_whitespace(s, after) + 1, Stop::NotWhitespace);
        }
    }
}

/// The front of an entry does not move backwards and stays inside the text;
/// a key that it reads holds no `"`.
pub proof fn lemma_head_advances(s: Seq<char>, from: int, open: ValueTree)
    requires
        0 <= from <= s.len(),
    ensures
        entry_head(s, from, open) matches Ok((key, at)) ==> {
            &&& from <= at <= s.len()
            &&& !key.contains('"')
        },
{
    lemma_skip_whitespace(s, from);
    if open is Object {
        let quote = skip_whitespace(s, from);
        if quote < s.len() {
            lemma_until_quote(s, quote + 1);
            if let Some((key, after)) = until_quote(s, quote + 1) {
                lemma_skip_whitespace(s, after);
                let colon = skip_whitespace(s, after);
                if colon < s.len() {
                    lemma_skip_whitespace(s, colon + 1);
                }
            }
        }
    } else {
        assert(!Seq::<char>::empty().contains('"'));
    }
}

/// A scalar that is read takes up at least one character.
pub proof fn lemma_scalar_advances(s: Seq<char>, from: int)
    requires
        0 <= from <= s.len(),
    ensures
        scalar(s, from) matches Ok((_, after)) ==> from < after <= s.len(),
{
    reveal_strlit("null");
    reveal_strlit("false");
    reveal_strlit("true");
    if from < s.len() {
        lemma_until_quote(s, from + 1);
    }
    lemma_token_end(s, from);
    let token = s.subrange(from, token_end(s, from));
    assert(token.len() == token_end(s, from) - from);
    assert("null"@.len() == 4 && "false"@.len() == 5 && "true"@.len() == 4);
}

/// A container that is read ends after the position that it was read from,
/// inside the text, and is of the kind that it was opened as.
pub proof fn lemma_complete_advances(s: Seq<char>, from: int, open: ValueTree)
    requires
        0 <= from <= s.len(),
    ensures
        complete_at_entry(s, from, open) matches Ok((tree, after)) ==> {
            &&& from < after <= s.len()
            &&& tree is Object <==> open is Object
            &&& tree is Array <==> open is Array
        },
        complete_at_delimiter(s, from, open) matches Ok((tree, after)) ==> {
            &&& from < after <= s.len()
            &&& tree is Object <==> open is Object
            &&& tree is Array <==> open is Array
        },
    decreases s.len() - from,
{
    lemma_skip_whitespace(s, from);
    let at = skip_whitespace(s, from);
    if at < s.len() && s[at] == ',' {
        lemma_complete_advances(s, at + 1, open);
    }
    lemma_head_advances(s, from, open);
    if let Ok((key, at)) = entry_head(s, from, open) {
        let value = match opens(s, at) {
            Some(fresh) => complete_at_entry(s, at + 1, fresh),
            None => scalar(s, at),
        };
        if let Ok((v, after)) = value {
            if from < after <= s.len() {
                lemma_complete_advances(s, after, attach(open, key, v));
            }
        }
    }
}

} // verus!
