//! Reading back what was written: the text of a tree that a parse can yield
//! parses to that tree.

use crate::error::ParseError;
use crate::grammar::{
    attach, complete_at_delimiter, complete_at_entry, entry_head, key_prefix,
    lemma_complete_advances, lemma_head_advances, lemma_until_quote, opens, parse_text, scalar,
};
use crate::rendering::{
    closer, entry_count, entry_prefix, entry_value, opener, render_key, render_object,
    render_rest, render_scalar, render_value,
};
use crate::text::{
    is_break, is_digit, is_whitespace, lemma_scan_unique, lemma_skip_whitespace, skip_whitespace,
    Stop,
};
use crate::value::{
    insert_member, is_number_literal, key_index, lemma_insert_keeps_unique, lemma_key_index_from,
    unique_keys, Members, ValueTree,
};
use vstd::prelude::*;

verus! {

/// Whether a tree is one that a parse can yield inside a container: a
/// number is a decimal literal, a string holds no `"`, a container has at
/// least one entry, and an object's keys are unique and hold no `"`.
pub open spec fn readable(tree: ValueTree) -> bool
    decreases tree,
{
    match tree {
        ValueTree::Null => true,
        ValueTree::Boolean(_) => true,
        ValueTree::Number(literal) => is_number_literal(literal),
        ValueTree::String(text) => !text.contains('"'),
        ValueTree::Array(items) => items.len() > 0 && forall|i: int|
            0 <= i < items.len() ==> readable(#[trigger] items[i]),
        ValueTree::Object(members) => members.len() > 0 && unique_keys(members) && forall|i: int|
            0 <= i < members.len() ==> !(#[trigger] members[i]).0.contains('"') && readable(
                members[i].1,
            ),
    }
}

/// Whether members are those of a root that a parse can yield: as in
/// `readable`, but there may be none.
pub open spec fn readable_root(members: Members) -> bool {
    members.len() > 0 ==> readable(ValueTree::Object(members))
}

/// Whether `s` holds the text `t` at position `at`.
pub open spec fn holds_at(s: Seq<char>, at: int, t: Seq<char>) -> bool {
    &&& 0 <= at
    &&& at + t.len() <= s.len()
    &&& forall|k: int| 0 <= k < t.len() ==> s[at + k] == #[trigger] t[k]
}

/// A text that holds two texts in a row holds each of them.
pub proof fn lemma_holds_split(s: Seq<char>, at: int, a: Seq<char>, b: Seq<char>)
    requires
        holds_at(s, at, a + b),
    ensures
        holds_at(s, at, a),
        holds_at(s, at + a.len(), b),
{
    assert forall|k: int| 0 <= k < a.len() implies s[at + k] == #[trigger] a[k] by {
        assert((a + b)[k] == a[k]);
    }
    assert forall|k: int| 0 <= k < b.len() implies s[at + a.len() + k] == #[trigger] b[k] by {
        assert((a + b)[a.len() + k] == b[k]);
    }
}

/// Whether only whitespace stands in `s` from `from` up to `to`.
pub open spec fn blank_between(s: Seq<char>, from: int, to: int) -> bool {
    &&& 0 <= from <= to <= s.len()
    &&& forall|k: int| from <= k < to ==> is_whitespace(#[trigger] s[k])
}

/// A written key is read back: after whitespace, a key without `"` that is
/// followed by something other than whitespace is read as the key prefix.
pub proof fn lemma_key_read_back(s: Seq<char>, from: int, at: int, key: Seq<char>)
    requires
        blank_between(s, from, at),
        holds_at(s, at, render_key(key)),
        !key.contains('"'),
        at + render_key(key).len() < s.len(),
        !is_whitespace(s[at + render_key(key).len()]),
    ensures
        key_prefix(s, from) == Ok::<_, ParseError>((key, at + render_key(key).len())),
{
    reveal_strlit("\": ");
    let written = render_key(key);
    let n = key.len() as int;
    assert(written.len() == n + 4);
    assert(written[0] == '"');
    assert(written[n + 1] == '"');
    assert(written[n + 2] == ':');
    assert(written[n + 3] == ' ');
    assert(s[at + 0] == written[0]);
    assert(s[at + (n + 1)] == written[n + 1]);
    assert(s[at + (n + 2)] == written[n + 2]);
    assert(s[at + (n + 3)] == written[n + 3]);
    lemma_scan_unique(s, from, Stop::NotWhitespace, at);
    assert forall|i: int| at + 1 <= i < at + 1 + n implies !Stop::Char('"').at(#[trigger] s[i]) by {
        let k = i - at;
        assert(s[at + k] == written[k]);
        assert(written[k] == key[k - 1]);
        assert(key.contains(key[k - 1]));
    }
    lemma_scan_unique(s, at + 1, Stop::Char('"'), at + 1 + n);
    assert(s.subrange(at + 1, at + 1 + n) =~= key) by {
        assert forall|k: int| 0 <= k < n implies s[at + 1 + k] == key[k] by {
            assert(s[at + (k + 1)] == written[k + 1]);
        }
    }
    lemma_scan_unique(s, at + n + 2, Stop::NotWhitespace, at + n + 2);
    lemma_scan_unique(s, at + n + 3, Stop::NotWhitespace, at + n + 4);
}

/// Whether a tree is a scalar.
pub open spec fn is_scalar(tree: ValueTree) -> bool {
    !(tree is Array) && !(tree is Object)
}

/// A written scalar is read back, if a break character follows it.
pub proof fn lemma_scalar_read_back(s: Seq<char>, at: int, tree: ValueTree)
    requires
        is_scalar(tree),
        readable(tree),
        holds_at(s, at, render_scalar(tree)),
        at + render_scalar(tree).len() < s.len(),
        is_break(s[at + render_scalar(tree).len()]),
    ensures
        scalar(s, at) == Ok::<_, ParseError>((tree, at + render_scalar(tree).len())),
        opens(s, at) is None,
{
    reveal_strlit("null");
    reveal_strlit("true");
    reveal_strlit("false");
    let written = render_scalar(tree);
    let n = written.len() as int;
    match tree {
        ValueTree::String(text) => {
            let m = text.len() as int;
            assert(written[0] == '"');
            assert(written[m + 1] == '"');
            assert(s[at + 0] == written[0]);
            assert(s[at + (m + 1)] == written[m + 1]);
            assert forall|i: int| at + 1 <= i < at + 1 + m implies !Stop::Char('"').at(
                #[trigger] s[i],
            ) by {
                let k = i - at;
                assert(s[at + k] == written[k]);
                assert(written[k] == text[k - 1]);
                assert(text.contains(text[k - 1]));
            }
            lemma_scan_unique(s, at + 1, Stop::Char('"'), at + 1 + m);
            assert(s.subrange(at + 1, at + 1 + m) =~= text) by {
                assert forall|k: int| 0 <= k < m implies s[at + 1 + k] == text[k] by {
                    assert(s[at + (k + 1)] == written[k + 1]);
                }
            }
        },
        _ => {
            assert(n > 0);
            assert(s[at + 0] == written[0]);
            assert(written[0] != '"' && written[0] != '[' && written[0] != '{');
            assert forall|i: int| at <= i < at + n implies !Stop::Break.at(#[trigger] s[i]) by {
                let k = i - at;
                assert(s[at + k] == written[k]);
                assert(is_digit(written[k]) || written[k] == '.' || written[k] == 'n'
                    || written[k] == 'u' || written[k] == 'l' || written[k] == 't' || written[k]
                    == 'r' || written[k] == 'e' || written[k] == 'f' || written[k] == 'a'
                    || written[k] == 's');
            }
            lemma_scan_unique(s, at, Stop::Break, at + n);
            assert(s.subrange(at, at + n) =~= written);
            assert("null"@.len() == 4 && "true"@.len() == 4 && "false"@.len() == 5);
            assert("null"@[0] == 'n' && "true"@[0] == 't' && "false"@[0] == 'f');
        },
    }
}

/// Whether a tree is a container.
pub open spec fn is_container(tree: ValueTree) -> bool {
    tree is Array || tree is Object
}

/// The container with the first `count` entries of `tree`.
pub open spec fn taken(tree: ValueTree, count: int) -> ValueTree {
    match tree {
        ValueTree::Array(items) => ValueTree::Array(items.take(count)),
        ValueTree::Object(members) => ValueTree::Object(members.take(count)),
        _ => tree,
    }
}

/// The key of the entry at `index`: that of a member of an object, and the
/// empty text for an item of an array.
pub open spec fn entry_key(tree: ValueTree, index: int) -> Seq<char> {
    match tree {
        ValueTree::Object(members) => members[index].0,
        _ => Seq::empty(),
    }
}

/// A container as it is written from the entry at `index` on, without the
/// separator in front of that entry.
pub open spec fn render_from_entry(tree: ValueTree, index: int) -> Seq<char> {
    entry_prefix(tree, index) + render_value(entry_value(tree, index)) + render_rest(
        tree,
        index + 1,
    )
}

/// The text of a readable value starts with a character that is not
/// whitespace: with the opening delimiter for a container, with another
/// character for a scalar.
pub proof fn lemma_first_char(tree: ValueTree)
    requires
        readable(tree),
    ensures
        render_value(tree).len() > 0,
        !is_whitespace(render_value(tree)[0]),
        tree is Array <==> render_value(tree)[0] == '[',
        tree is Object <==> render_value(tree)[0] == '{',
        is_container(tree) ==> render_value(tree) == opener(tree) + render_rest(tree, 0),
        is_scalar(tree) ==> render_value(tree) == render_scalar(tree),
{
    reveal_strlit("null");
    reveal_strlit("true");
    reveal_strlit("false");
    match tree {
        ValueTree::Array(_) => {
            assert(render_value(tree)[0] == opener(tree)[0]);
        },
        ValueTree::Object(_) => {
            assert(render_value(tree)[0] == opener(tree)[0]);
        },
        ValueTree::String(text) => {
            assert(render_value(tree)[0] == '"');
        },
        _ => {},
    }
}

/// What follows an entry starts with a break character: with `,` and a
/// space before a further entry, with the closing delimiter after the last.
pub proof fn lemma_rest_first(tree: ValueTree, index: int)
    requires
        is_container(tree),
        1 <= index <= entry_count(tree),
    ensures
        render_rest(tree, index).len() > 0,
        is_break(render_rest(tree, index)[0]),
        index == entry_count(tree) ==> render_rest(tree, index) == closer(tree),
        index < entry_count(tree) ==> {
            &&& render_rest(tree, index) == ", "@ + render_from_entry(tree, index)
            &&& render_rest(tree, index)[0] == ','
        },
{
    reveal_strlit(", ");
    if index < entry_count(tree) {
        assert(render_rest(tree, index) =~= ", "@ + render_from_entry(tree, index));
        assert((", "@ + render_from_entry(tree, index))[0] == ',');
    }
}

/// Attaching the entry at `index` to the first `index` entries of a
/// readable container gives its first `index + 1` entries.
pub proof fn lemma_attach_next(tree: ValueTree, index: int)
    requires
        is_container(tree),
        readable(tree),
        0 <= index < entry_count(tree),
    ensures
        attach(taken(tree, index), entry_key(tree, index), entry_value(tree, index)) == taken(
            tree,
            index + 1,
        ),
{
    match tree {
        ValueTree::Array(items) => {
            assert(items.take(index).push(items[index]) =~= items.take(index + 1));
        },
        ValueTree::Object(members) => {
            let front = members.take(index);
            let key = members[index].0;
            lemma_key_index_from(front, key, 0);
            let found = key_index(front, key);
            if found < front.len() {
                assert(front[found] == members[found]);
                assert(members[found].0 != members[index].0);
            }
            assert(front.push(members[index]) =~= members.take(index + 1));
        },
        _ => {},
    }
}

/// The entries of a written container are read back from the entry at
/// `index` on: with the first `index` entries attached, an entry expected
/// before the whitespace in front of the written entry, and the rest of the
/// container in the text, the whole container comes out.
pub proof fn lemma_entry_read_back(s: Seq<char>, from: int, at: int, tree: ValueTree, index: int)
    requires
        is_container(tree),
        readable(tree),
        0 <= index < entry_count(tree),
        blank_between(s, from, at),
        holds_at(s, at, render_from_entry(tree, index)),
    ensures
        complete_at_entry(s, from, taken(tree, index)) == Ok::<_, ParseError>(
            (tree, at + render_from_entry(tree, index).len()),
        ),
    decreases tree, entry_count(tree) - index, 0int,
{
    let prefix = entry_prefix(tree, index);
    let key = entry_key(tree, index);
    let value = entry_value(tree, index);
    let text = render_value(value);
    let rest = render_rest(tree, index + 1);
    let open = taken(tree, index);
    let start = at + prefix.len();
    let end = start + text.len();
    lemma_holds_split(s, at, prefix + text, rest);
    lemma_holds_split(s, at, prefix, text);
    assert(readable(value)) by {
        match tree {
            ValueTree::Array(items) => {
                assert(readable(items[index]));
            },
            ValueTree::Object(members) => {
                assert(readable(members[index].1));
            },
            _ => {},
        }
    }
    lemma_first_char(value);
    lemma_rest_first(tree, index + 1);
    assert(s[start + 0] == text[0]);
    assert(s[end + 0] == rest[0]);
    assert(entry_head(s, from, open) == Ok::<_, ParseError>((key, start))) by {
        match tree {
            ValueTree::Object(members) => {
                assert(!members[index].0.contains('"'));
                lemma_key_read_back(s, from, at, key);
            },
            _ => {
                lemma_scan_unique(s, from, Stop::NotWhitespace, at);
            },
        }
    }
    let read = match opens(s, start) {
        Some(fresh) => complete_at_entry(s, start + 1, fresh),
        None => scalar(s, start),
    };
    assert(read == Ok::<_, ParseError>((value, end))) by {
        if is_container(value) {
            lemma_holds_split(s, start, opener(value), render_rest(value, 0));
            assert(render_rest(value, 0) =~= render_from_entry(value, 0));
            lemma_entry_read_back(s, start + 1, start + 1, value, 0);
            match value {
                ValueTree::Array(items) => {
                    assert(items.take(0) =~= Seq::empty());
                },
                ValueTree::Object(members) => {
                    assert(members.take(0) =~= Seq::empty());
                },
                _ => {},
            }
        } else {
            lemma_scalar_read_back(s, start, value);
        }
    }
    lemma_attach_next(tree, index);
    lemma_delimiter_read_back(s, end, tree, index + 1);
    assert(render_from_entry(tree, index).len() == prefix.len() + text.len() + rest.len());
}

/// The rest of a written container is read back after an entry: with the
/// first `index` entries attached and the rest of the container in the
/// text, the whole container comes out.
pub proof fn lemma_delimiter_read_back(s: Seq<char>, at: int, tree: ValueTree, index: int)
    requires
        is_container(tree),
        readable(tree),
        1 <= index <= entry_count(tree),
        holds_at(s, at, render_rest(tree, index)),
    ensures
        complete_at_delimiter(s, at, taken(tree, index)) == Ok::<_, ParseError>(
            (tree, at + render_rest(tree, index).len()),
        ),
    decreases tree, entry_count(tree) - index, 1int,
{
    reveal_strlit(", ");
    let rest = render_rest(tree, index);
    lemma_rest_first(tree, index);
    assert(s[at + 0] == rest[0]);
    lemma_scan_unique(s, at, Stop::NotWhitespace, at);
    if index == entry_count(tree) {
        match tree {
            ValueTree::Array(items) => {
                assert(items.take(index) =~= items);
            },
            ValueTree::Object(members) => {
                assert(members.take(index) =~= members);
            },
            _ => {},
        }
    } else {
        lemma_holds_split(s, at, ", "@, render_from_entry(tree, index));
        assert(s[at + 1] == ", "@[1]);
        lemma_entry_read_back(s, at + 1, at + 2, tree, index);
    }
}

/// The text that a readable root is written as parses to that root.
pub proof fn lemma_written_reads_back(members: Members)
    requires
        readable_root(members),
    ensures
        parse_text(render_object(members)) == Ok::<_, ParseError>(members),
{
    let tree = ValueTree::Object(members);
    let s = render_object(members);
    let rest = render_rest(tree, 0);
    assert(s == opener(tree) + rest);
    assert(s[0] == '{');
    lemma_scan_unique(s, 0, Stop::NotWhitespace, 0);
    assert(holds_at(s, 1, rest)) by {
        assert forall|k: int| 0 <= k < rest.len() implies s[1 + k] == #[trigger] rest[k] by {}
    }
    if members.len() == 0 {
        assert(s[1] == '}');
        assert(s.len() == 2);
        lemma_scan_unique(s, 1, Stop::NotWhitespace, 1);
        lemma_scan_unique(s, 2, Stop::NotWhitespace, 2);
        assert(members =~= Seq::empty());
    } else {
        reveal_strlit("\": ");
        assert(rest =~= render_from_entry(tree, 0));
        assert(render_key(members[0].0)[0] == '"');
        assert(rest[0] == '"');
        assert(s[1int + 0] == rest[0]);
        lemma_scan_unique(s, 1, Stop::NotWhitespace, 1);
        lemma_entry_read_back(s, 1, 1, tree, 0);
        assert(members.take(0) =~= Seq::empty());
    }
}

/// Whether a container that is being read holds nothing yet or is
/// readable.
pub open spec fn readable_so_far(open: ValueTree) -> bool {
    is_container(open) && (entry_count(open) == 0 || readable(open))
}

/// A scalar that is read is readable.
pub proof fn lemma_scalar_is_readable(s: Seq<char>, at: int)
    requires
        0 <= at <= s.len(),
    ensures
        scalar(s, at) matches Ok((tree, _)) ==> readable(tree) && is_scalar(tree),
{
    if at < s.len() {
        lemma_until_quote(s, at + 1);
    }
}

/// A container that takes a readable value under a key without `"` is
/// readable.
pub proof fn lemma_attach_is_readable(open: ValueTree, key: Seq<char>, value: ValueTree)
    requires
        readable_so_far(open),
        readable(value),
        !key.contains('"'),
    ensures
        readable(attach(open, key, value)),
        is_container(attach(open, key, value)),
{
    match open {
        ValueTree::Array(items) => {
            let after = items.push(value);
            assert forall|i: int| 0 <= i < after.len() implies readable(#[trigger] after[i]) by {
                if i < items.len() {
                    assert(after[i] == items[i]);
                    assert(readable(items[i]));
                }
            }
        },
        ValueTree::Object(members) => {
            let after = insert_member(members, key, value);
            lemma_key_index_from(members, key, 0);
            lemma_insert_keeps_unique(members, key, value);
            let found = key_index(members, key);
            assert forall|i: int| 0 <= i < after.len() implies !(#[trigger] after[i]).0.contains(
                '"',
            ) && readable(after[i].1) by {
                if i != found {
                    assert(after[i] == members[i]);
                    assert(!members[i].0.contains('"') && readable(members[i].1));
                }
            }
        },
        _ => {},
    }
}

/// A container that is read is readable.
pub proof fn lemma_complete_is_readable(s: Seq<char>, from: int, open: ValueTree)
    requires
        0 <= from <= s.len(),
        readable_so_far(open),
    ensures
        complete_at_entry(s, from, open) matches Ok((tree, _)) ==> readable(tree) && is_container(
            tree,
        ),
        entry_count(open) > 0 ==> (complete_at_delimiter(s, from, open) matches Ok((tree, _))
            ==> readable(tree) && is_container(tree)),
    decreases s.len() - from,
{
    lemma_skip_whitespace(s, from);
    let comma = skip_whitespace(s, from);
    if entry_count(open) > 0 && comma < s.len() && s[comma] == ',' {
        lemma_complete_is_readable(s, comma + 1, open);
    }
    lemma_head_advances(s, from, open);
    if let Ok((key, at)) = entry_head(s, from, open) {
        let read = match opens(s, at) {
            Some(fresh) => complete_at_entry(s, at + 1, fresh),
            None => scalar(s, at),
        };
        match opens(s, at) {
            Some(fresh) => {
                lemma_complete_is_readable(s, at + 1, fresh);
            },
            None => {
                lemma_scalar_is_readable(s, at);
            },
        }
        if let Ok((value, after)) = read {
            if from < after <= s.len() {
                lemma_attach_is_readable(open, key, value);
                lemma_complete_is_readable(s, after, attach(open, key, value));
            }
        }
    }
}

/// A root that a parse yields is readable.
pub proof fn lemma_parsed_is_readable(s: Seq<char>)
    ensures
        parse_text(s) matches Ok(members) ==> readable_root(members),
{
    lemma_skip_whitespace(s, 0);
    let open = skip_whitespace(s, 0);
    if open < s.len() {
        lemma_skip_whitespace(s, open + 1);
        let first = skip_whitespace(s, open + 1);
        lemma_complete_is_readable(s, first, ValueTree::Object(Seq::empty()));
        lemma_complete_advances(s, first, ValueTree::Object(Seq::empty()));
    }
}

/// Parsing what was generated from a parsed tree gives that tree again:
/// if a text parses to a root, the text that the root is written as parses
/// to the same root.
pub proof fn theorem_round_trip(s: Seq<char>)
    ensures
        parse_text(s) matches Ok(members) ==> parse_text(render_object(members)) == Ok::<
            _,
            ParseError,
        >(members),
{
    lemma_parsed_is_readable(s);
    if let Ok(members) = parse_text(s) {
        lemma_written_reads_back(members);
    }
}

} // verus!
