//! What generating means: the text that a tree is written as.

use crate::value::{Members, ValueTree};
use vstd::prelude::*;

verus! {

/// What stands in front of the entry at `index`: `, ` unless the entry is
/// the first.
pub open spec fn separator(index: int) -> Seq<char> {
    if index == 0 {
        Seq::empty()
    } else {
        ", "@
    }
}

/// A key as it is written in front of its value: between two `"`, without
/// any escaping, and followed by `: `.
pub open spec fn render_key(key: Seq<char>) -> Seq<char> {
    seq!['"'] + key + "\": "@
}

/// A scalar as it is written: a keyword, a number's literal, or a string
/// between two `"` without any escaping. A container has no such text.
pub open spec fn render_scalar(tree: ValueTree) -> Seq<char> {
    match tree {
        ValueTree::Null => "null"@,
        ValueTree::Boolean(b) => if b {
            "true"@
        } else {
            "false"@
        },
        ValueTree::Number(literal) => literal,
        ValueTree::String(text) => seq!['"'] + text + seq!['"'],
        _ => Seq::empty(),
    }
}

/// The number of entries of a container: the items of an array, the
/// members of an object.
pub open spec fn entry_count(tree: ValueTree) -> nat {
    match tree {
        ValueTree::Array(items) => items.len(),
        ValueTree::Object(members) => members.len(),
        _ => 0,
    }
}

/// The key in front of the entry at `index`: written out for a member of an
/// object, nothing for an item of an array.
pub open spec fn entry_prefix(tree: ValueTree, index: int) -> Seq<char> {
    match tree {
        ValueTree::Object(members) => render_key(members[index].0),
        _ => Seq::empty(),
    }
}

/// The value of the entry at `index`.
pub open spec fn entry_value(tree: ValueTree, index: int) -> ValueTree {
    match tree {
        ValueTree::Array(items) => items[index],
        ValueTree::Object(members) => members[index].1,
        _ => ValueTree::Null,
    }
}

/// The opening delimiter of a container.
pub open spec fn opener(tree: ValueTree) -> Seq<char> {
    match tree {
        ValueTree::Array(_) => seq!['['],
        ValueTree::Object(_) => seq!['{'],
        _ => Seq::empty(),
    }
}

/// The closing delimiter of a container.
pub open spec fn closer(tree: ValueTree) -> Seq<char> {
    match tree {
        ValueTree::Array(_) => seq![']'],
        ValueTree::Object(_) => seq!['}'],
        _ => Seq::empty(),
    }
}

/// A value as it is written: a scalar as `render_scalar` says, a container
/// as its opening delimiter and what `render_rest` says from its first
/// entry on.
pub open spec fn render_value(tree: ValueTree) -> Seq<char>
    decreases tree, entry_count(tree) + 1,
{
    match tree {
        ValueTree::Array(_) => opener(tree) + render_rest(tree, 0),
        ValueTree::Object(_) => opener(tree) + render_rest(tree, 0),
        _ => render_scalar(tree),
    }
}

/// A container as it is written from the entry at `from` on: each entry but
/// the first follows a separator, a member's value follows its key, and
/// after the last entry comes the closing delimiter.
pub open spec fn render_rest(tree: ValueTree, from: int) -> Seq<char>
    decreases tree, entry_count(tree) - from,
{
    if 0 <= from < entry_count(tree) {
        separator(from) + entry_prefix(tree, from) + render_value(entry_value(tree, from))
            + render_rest(tree, from + 1)
    } else {
        closer(tree)
    }
}

/// An object as it is written.
pub open spec fn render_object(members: Members) -> Seq<char> {
    render_value(ValueTree::Object(members))
}

} // verus!
