//! What may follow the root: after an empty root only whitespace, after a
//! root that has a member anything at all.

use crate::error::ParseError;
use crate::grammar::{
    attach, complete_at_delimiter, complete_at_entry, entry_head, lemma_head_advances,
    members_of, opens, parse_text, quoted, scalar,
};
use crate::text::{
    char_at, find_char, is_blank, is_whitespace, lemma_find_char, lemma_scan_in_longer,
    lemma_scan_unique, lemma_skip_whitespace, lemma_token_end, skip_whitespace, token_end, Stop,
};
use crate::value::{Members, ValueTree};
use vstd::prelude::*;

verus! {

/// The text `{}` parses to the empty object if nothing but whitespace
/// follows it, and is refused for its trailing content otherwise.
pub proof fn lemma_empty_root(rest: Seq<char>)
    ensures
        parse_text("{}"@ + rest) == if is_blank(rest) {
            Ok::<Members, ParseError>(Seq::empty())
        } else {
            Err::<Members, ParseError>(ParseError::TrailingContentError)
        },
{
    reveal_strlit("{}");
    let s = "{}"@ + rest;
    assert(s[0] == '{' && s[1] == '}');
    lemma_scan_unique(s, 0, Stop::NotWhitespace, 0);
    lemma_scan_unique(s, 1, Stop::NotWhitespace, 1);
    lemma_skip_whitespace(s, 2);
    let end = skip_whitespace(s, 2);
    if is_blank(rest) {
        if end < s.len() {
            assert(s[end] == rest[end - 2]);
        }
    } else {
        let k = choose|k: int| 0 <= k < rest.len() && !is_whitespace(#[trigger] rest[k]);
        assert(s[k + 2] == rest[k]);
    }
}

/// A container that is read from a text is read alike from every text that
/// starts with that text.
pub proof fn lemma_complete_in_longer(s: Seq<char>, rest: Seq<char>, from: int, open: ValueTree)
    requires
        0 <= from <= s.len(),
    ensures
        complete_at_entry(s, from, open) is Ok ==> complete_at_entry(s + rest, from, open)
            == complete_at_entry(s, from, open),
        complete_at_delimiter(s, from, open) is Ok ==> complete_at_delimiter(s + rest, from, open)
            == complete_at_delimiter(s, from, open),
    decreases s.len() - from,
{
    let longer = s + rest;
    let white = Stop::NotWhitespace;
    let quote = Stop::Char('"');
    assert forall|i: int| 0 <= i < s.len() implies #[trigger] longer[i] == s[i] by {}
    lemma_skip_whitespace(s, from);
    if complete_at_delimiter(s, from, open) is Ok {
        let at = skip_whitespace(s, from);
        lemma_scan_in_longer(s, rest, from, white);
        if s[at] == ',' {
            lemma_complete_in_longer(s, rest, at + 1, open);
        }
    }
    if complete_at_entry(s, from, open) is Ok {
        lemma_head_advances(s, from, open);
        let (key, at) = entry_head(s, from, open)->Ok_0;
        let value = match opens(s, at) {
            Some(fresh) => complete_at_entry(s, at + 1, fresh),
            None => scalar(s, at),
        };
        let (v, after) = value->Ok_0;
        assert(at < s.len()) by {
            if at == s.len() {
                reveal_strlit("null");
                reveal_strlit("false");
                reveal_strlit("true");
                assert(s.subrange(at, token_end(s, at)).len() == 0);
            }
        }
        assert(entry_head(longer, from, open) == entry_head(s, from, open)) by {
            if open is Object {
                let start = skip_whitespace(s, from);
                lemma_scan_in_longer(s, rest, from, white);
                lemma_find_char(s, start + 1, '"');
                let close = find_char(s, start + 1, '"');
                lemma_scan_in_longer(s, rest, start + 1, quote);
                assert(longer.subrange(start + 1, close) =~= s.subrange(start + 1, close));
                lemma_skip_whitespace(s, close + 1);
                let colon = skip_whitespace(s, close + 1);
                lemma_scan_in_longer(s, rest, close + 1, white);
                lemma_scan_in_longer(s, rest, colon + 1, white);
            } else {
                lemma_scan_in_longer(s, rest, from, white);
            }
        }
        assert(opens(longer, at) == opens(s, at));
        let longer_value = match opens(longer, at) {
            Some(fresh) => complete_at_entry(longer, at + 1, fresh),
            None => scalar(longer, at),
        };
        assert(from < after <= s.len());
        assert(complete_at_delimiter(s, after, attach(open, key, v)) is Ok);
        lemma_skip_whitespace(s, after);
        assert(char_at(s, skip_whitespace(s, after)) is Some);
        assert(longer_value == value) by {
            match opens(s, at) {
                Some(fresh) => {
                    lemma_complete_in_longer(s, rest, at + 1, fresh);
                },
                None => {
                    if s[at] == '"' {
                        lemma_find_char(s, at + 1, '"');
                        let close = find_char(s, at + 1, '"');
                        lemma_scan_in_longer(s, rest, at + 1, quote);
                        assert(longer.subrange(at + 1, close) =~= s.subrange(at + 1, close));
                    } else {
                        lemma_token_end(s, at);
                        let end = token_end(s, at);
                        lemma_scan_in_longer(s, rest, at, Stop::Break);
                        assert(longer.subrange(at, end) =~= s.subrange(at, end));
                    }
                },
            }
        }
        lemma_complete_in_longer(s, rest, after, attach(open, key, v));
    }
}

/// What follows the closing `}` of a root that has a member is not read:
/// a text that parses to such a root parses to it whatever is put after the
/// text.
pub proof fn lemma_trailing_content_unread(s: Seq<char>, rest: Seq<char>)
    ensures
        parse_text(s) matches Ok(members) ==> members.len() > 0 ==> parse_text(s + rest)
            == Ok::<Members, ParseError>(members),
{
    if let Ok(members) = parse_text(s) {
        if members.len() > 0 {
            let longer = s + rest;
            let white = Stop::NotWhitespace;
            assert forall|i: int| 0 <= i < s.len() implies #[trigger] longer[i] == s[i] by {}
            lemma_skip_whitespace(s, 0);
            let open = skip_whitespace(s, 0);
            lemma_scan_in_longer(s, rest, 0, white);
            lemma_skip_whitespace(s, open + 1);
            let first = skip_whitespace(s, open + 1);
            assert(members_of(ValueTree::Object(Seq::empty())).len() == 0);
            assert(char_at(s, first) != Some('}'));
            assert(first < s.len()) by {
                if first == s.len() {
                    assert(quoted(s, skip_whitespace(s, first)) is None);
                }
            }
            lemma_scan_in_longer(s, rest, open + 1, white);
            lemma_complete_in_longer(s, rest, first, ValueTree::Object(Seq::empty()));
        }
    }
}

} // verus!
