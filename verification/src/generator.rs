//! The tree emitter: it flattens a tree into text on an explicit stack of
//! containers that are being written.

use crate::error::ParseError;
use crate::grammar::parse_text;
use crate::rendering::{
    closer, entry_count, entry_prefix, entry_value, opener, render_key, render_object, render_rest,
    render_scalar, render_value, separator,
};
use crate::roundtrip::{lemma_written_reads_back, readable_root};
use crate::value::{items_view, JsonObject, JsonValue, ValueTree};
use vstd::prelude::*;
use vstd::string::StringExecFns;

verus! {

/// A container that is being written.
#[derive(Clone, Copy)]
enum Source<'a> {
    Array(&'a Vec<JsonValue>),
    Object(&'a JsonObject),
}

/// A container that is being written and the index of its next entry. The
/// entry is the container's first if the index is zero.
struct EmitFrame<'a> {
    source: Source<'a>,
    next: usize,
}

impl<'a> Source<'a> {
    /// The tree of the container.
    spec fn tree(&self) -> ValueTree {
        match self {
            Source::Array(items) => ValueTree::Array(items_view(**items)),
            Source::Object(object) => ValueTree::Object(object@),
        }
    }

    /// The number of entries.
    fn len(&self) -> (n: usize)
        ensures
            n == entry_count(self.tree()),
    {
        match self {
            Source::Array(items) => items.len(),
            Source::Object(object) => object.len(),
        }
    }

    /// Writes the key of the entry at `index`, if the container is an
    /// object, and hands out the entry's value.
    fn entry(&self, index: usize, buffer: &mut String) -> (value: &'a JsonValue)
        requires
            index < entry_count(self.tree()),
        ensures
            final(buffer)@ == old(buffer)@ + entry_prefix(self.tree(), index as int),
            value@ == entry_value(self.tree(), index as int),
    {
        match self {
            Source::Array(items) => {
                assert(buffer@ =~= buffer@ + Seq::<char>::empty());
                &items[index]
            },
            Source::Object(object) => {
                let ghost before = buffer@;
                buffer.push('"');
                buffer.append(object.key_at(index));
                buffer.append("\": ");
                assert(buffer@ =~= before + render_key(object@[index as int].0));
                object.value_at(index)
            },
        }
    }
}

/// The text that is still to be written for the frames of `stack`: for
/// each, from the top down, the rest of its container.
spec fn pending(stack: Seq<EmitFrame>) -> Seq<char>
    decreases stack.len(),
{
    if stack.len() == 0 {
        Seq::empty()
    } else {
        render_rest(stack.last().source.tree(), stack.last().next as int) + pending(
            stack.drop_last(),
        )
    }
}

/// Writes a scalar, or the opening delimiter of a container, which it then
/// hands out.
fn open_value<'a>(value: &'a JsonValue, buffer: &mut String) -> (nested: Option<Source<'a>>)
    ensures
        match nested {
            Some(source) => source.tree() == value@ && final(buffer)@ == old(buffer)@ + opener(
                value@,
            ) && (value@ is Array || value@ is Object),
            None => final(buffer)@ == old(buffer)@ + render_scalar(value@) && !(value@ is Array)
                && !(value@ is Object),
        },
        final(buffer)@.len() > old(buffer)@.len(),
{
    proof {
        reveal_strlit("null");
        reveal_strlit("true");
        reveal_strlit("false");
        reveal_strlit("NaN");
        reveal_strlit("inf");
    }
    match value {
        JsonValue::Null => {
            buffer.append("null");
            None
        },
        JsonValue::Boolean(b) => {
            if *b {
                buffer.append("true");
            } else {
                buffer.append("false");
            }
            None
        },
        JsonValue::Number(number) => {
            buffer.append(number.as_str());
            None
        },
        JsonValue::String(text) => {
            let ghost before = buffer@;
            buffer.push('"');
            buffer.append(text.as_str());
            buffer.push('"');
            assert(buffer@ =~= before + (seq!['"'] + text@ + seq!['"']));
            None
        },
        JsonValue::Array(items) => {
            let ghost before = buffer@;
            buffer.push('[');
            assert(buffer@ =~= before + seq!['[']);
            Some(Source::Array(items))
        },
        JsonValue::Object(object) => {
            let ghost before = buffer@;
            buffer.push('{');
            assert(buffer@ =~= before + seq!['{']);
            Some(Source::Object(object))
        },
    }
}

/// The piece of a value that is written at once: a scalar whole, of a
/// container the opening delimiter.
spec fn first_piece(value: ValueTree) -> Seq<char> {
    if value is Array || value is Object {
        opener(value)
    } else {
        render_scalar(value)
    }
}

/// What is left to write of a container, and of what lies below it, once
/// the entry at `next` has been written up to the first piece of its value.
spec fn left_after(tree: ValueTree, next: int, below: Seq<char>) -> Seq<char> {
    let value = entry_value(tree, next);
    let rest = render_rest(tree, next + 1) + below;
    if value is Array || value is Object {
        render_rest(value, 0) + rest
    } else {
        rest
    }
}

/// Writing an entry up to the first piece of its value leaves `left_after`
/// to write.
proof fn lemma_entry_written(
    before: Seq<char>,
    tree: ValueTree,
    next: int,
    below: Seq<char>,
    after: Seq<char>,
)
    requires
        0 <= next < entry_count(tree),
        after == before + separator(next) + entry_prefix(tree, next) + first_piece(
            entry_value(tree, next),
        ),
    ensures
        after + left_after(tree, next, below) == before + (render_rest(tree, next) + below),
{
    let value = entry_value(tree, next);
    let rest = render_rest(tree, next + 1);
    let head = separator(next) + entry_prefix(tree, next);
    assert(render_rest(tree, next) == head + render_value(value) + rest);
    if value is Array || value is Object {
        assert(render_value(value) == opener(value) + render_rest(value, 0));
        assert(after + (render_rest(value, 0) + (rest + below)) =~= before + (head + (opener(value)
            + render_rest(value, 0)) + rest + below));
    } else {
        assert(render_value(value) == render_scalar(value));
        assert(after + (rest + below) =~= before + (head + render_scalar(value) + rest + below));
    }
}

/// A frame on top of a stack puts the rest of its container in front of
/// what is pending.
proof fn lemma_pending_push(stack: Seq<EmitFrame>, frame: EmitFrame)
    ensures
        pending(stack.push(frame)) == render_rest(frame.source.tree(), frame.next as int) + pending(
            stack,
        ),
{
    assert(stack.push(frame).drop_last() =~= stack);
}

/// Writes `json` as text: `{`, the members with `, ` between them, each as
/// its key between two `"`, `: ` and its value, and `}`; an array is written
/// alike, between `[` and `]` and without keys. Strings and keys are written
/// as they stand, without any escaping.
pub fn generate(json: &JsonObject) -> (text: String)
    ensures
        text@ == render_object(json@),
        readable_root(json@) ==> parse_text(text@) == Ok::<_, ParseError>(json@),
{
    let ghost total = render_object(json@);
    let mut buffer = String::new();
    buffer.push('{');
    let mut stack: Vec<EmitFrame> = Vec::new();
    let root = EmitFrame { source: Source::Object(json), next: 0 };
    proof {
        lemma_pending_push(stack@, root);
        assert(buffer@ =~= opener(ValueTree::Object(json@)));
        assert(buffer@ + (render_rest(root.source.tree(), 0) + Seq::empty()) =~= total);
    }
    stack.push(root);
    loop
        invariant
            buffer@ + pending(stack@) == total,
            forall|i: int|
                0 <= i < stack@.len() ==> (#[trigger] stack@[i]).next <= entry_count(
                    stack@[i].source.tree(),
                ),
        ensures
            buffer@ == total,
        decreases total.len() - buffer@.len(),
    {
        let EmitFrame { source, mut next } = match stack.pop() {
            Some(frame) => frame,
            None => {
                assert(buffer@ =~= buffer@ + pending(stack@));
                break ;
            },
        };
        let ghost below = pending(stack@);
        let ghost entered = buffer@.len();
        let count = source.len();
        let mut nested: Option<Source> = None;
        while next < count
            invariant_except_break
                nested is None,
                buffer@ + (render_rest(source.tree(), next as int) + below) == total,
            invariant
                next <= count,
                count == entry_count(source.tree()),
                buffer@.len() >= entered,
            ensures
                next <= count,
                match nested {
                    Some(inner) => buffer@.len() > entered && buffer@ + (render_rest(
                        inner.tree(),
                        0,
                    ) + (render_rest(source.tree(), next as int) + below)) == total,
                    None => next == count && buffer@ + (render_rest(source.tree(), next as int)
                        + below) == total,
                },
            decreases count - next,
        {
            let ghost before = buffer@;
            if next > 0 {
                buffer.append(", ");
            }
            assert(buffer@ =~= before + separator(next as int));
            let value = source.entry(next, &mut buffer);
            nested = open_value(value, &mut buffer);
            proof {
                lemma_entry_written(before, source.tree(), next as int, below, buffer@);
            }
            next = next + 1;
            if nested.is_some() {
                break ;
            }
        }
        match nested {
            Some(inner) => {
                let outer = EmitFrame { source, next };
                let fresh = EmitFrame { source: inner, next: 0 };
                proof {
                    lemma_pending_push(stack@, outer);
                    lemma_pending_push(stack@.push(outer), fresh);
                }
                stack.push(outer);
                stack.push(fresh);
            },
            None => {
                let ghost before = buffer@;
                match source {
                    Source::Array(_) => {
                        buffer.push(']');
                    },
                    Source::Object(_) => {
                        buffer.push('}');
                    },
                }
                assert(buffer@ + below =~= before + (closer(source.tree()) + below));
            },
        }
    }
    proof {
        if readable_root(json@) {
            lemma_written_reads_back(json@);
        }
    }
    buffer
}

} // verus!
