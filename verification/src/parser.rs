//! The tree builder: it reads a text with a scanner and builds the tree on
//! an explicit stack of open containers.

use crate::error::ParseError;
use crate::grammar::{
    attach, closes, complete_at_delimiter, complete_at_entry, entry_head, key_prefix,
    lemma_complete_advances, lemma_head_advances, lemma_scalar_advances, members_of, opens,
    parse_text, quoted, scalar, until_quote, word, Parsed,
};
use crate::roundtrip::{lemma_parsed_is_readable, readable_root};
use crate::scanner::Scanner;
use crate::text::{
    break_chars, lemma_find_any_break, lemma_skip_whitespace, lemma_token_end, same_text,
    skip_whitespace,
};
use crate::value::{
    items_view, lemma_number_text_from_digit, JsonNumber, JsonObject, JsonValue, Members,
    ValueTree,
};
use vstd::prelude::*;

verus! {

/// A container that is being filled.
enum Container {
    Array(Vec<JsonValue>),
    Object(JsonObject),
}

/// An open container and the key under which it will be attached to the
/// container below it. The root and the items of an array have no key.
struct Frame {
    container: Container,
    key: Option<String>,
}

/// The text of a key, where there is one.
spec fn key_text(key: Option<String>) -> Seq<char> {
    match key {
        Some(k) => k@,
        None => Seq::empty(),
    }
}

impl Container {
    /// The tree of what has been attached so far.
    spec fn tree(&self) -> ValueTree {
        match self {
            Container::Array(items) => ValueTree::Array(items_view(*items)),
            Container::Object(object) => ValueTree::Object(object@),
        }
    }

    fn empty_array() -> (container: Container)
        ensures
            container is Array,
            container.tree() == ValueTree::Array(Seq::empty()),
    {
        let items: Vec<JsonValue> = Vec::new();
        assert(items_view(items) =~= Seq::empty());
        Container::Array(items)
    }

    fn empty_object() -> (container: Container)
        ensures
            container is Object,
            container.tree() == ValueTree::Object(Seq::empty()),
    {
        Container::Object(JsonObject::new())
    }

    fn attach(&mut self, key: Option<String>, value: JsonValue)
        requires
            *old(self) is Object ==> key is Some,
        ensures
            final(self).tree() == attach(old(self).tree(), key_text(key), value@),
            *final(self) is Object <==> *old(self) is Object,
    {
        match self {
            Container::Array(items) => {
                let ghost before = items_view(*items);
                items.push(value);
                assert(items_view(*items) =~= before.push(value@));
            },
            Container::Object(object) => {
                object.insert(key.unwrap(), value);
            },
        }
    }

    fn into_object(self) -> (object: JsonObject)
        requires
            self is Object,
        ensures
            ValueTree::Object(object@) == self.tree(),
    {
        match self {
            Container::Object(object) => object,
            Container::Array(_) => unreached(),
        }
    }

    fn into_value(self) -> (value: JsonValue)
        ensures
            value@ == self.tree(),
    {
        match self {
            Container::Array(items) => JsonValue::Array(items),
            Container::Object(object) => JsonValue::Object(object),
        }
    }
}

/// What the whole parse gives once the container on top of the suspended
/// frames `below`, which is to be attached under `key`, has come out as
/// `outcome`: each suspended container takes the one above it as an entry and
/// goes on from the delimiter after it.
spec fn resume(s: Seq<char>, below: Seq<Frame>, key: Seq<char>, outcome: Parsed) -> Parsed
    decreases below.len(),
{
    match outcome {
        Err(e) => Err(e),
        Ok((tree, after)) => if below.len() == 0 {
            outcome
        } else {
            let parent = below.last();
            resume(
                s,
                below.drop_last(),
                key_text(parent.key),
                complete_at_delimiter(s, after, attach(parent.container.tree(), key, tree)),
            )
        },
    }
}

/// What the whole parse gives when the frames `below` are suspended and an
/// entry of the container `open` on top of them, which is to be attached
/// under `key`, is expected at `from`.
#[verifier::opaque]
spec fn pending_entry(
    s: Seq<char>,
    below: Seq<Frame>,
    key: Seq<char>,
    open: ValueTree,
    from: int,
) -> Parsed {
    resume(s, below, key, complete_at_entry(s, from, open))
}

/// What the whole parse gives when the frames `below` are suspended and an
/// entry of the container `open` on top of them, which is to be attached
/// under `key`, ends at `from`.
#[verifier::opaque]
spec fn pending_delimiter(
    s: Seq<char>,
    below: Seq<Frame>,
    key: Seq<char>,
    open: ValueTree,
    from: int,
) -> Parsed {
    resume(s, below, key, complete_at_delimiter(s, from, open))
}

/// With nothing suspended, what is pending is the container on top.
proof fn lemma_pending_root(s: Seq<char>, key: Seq<char>, open: ValueTree, from: int)
    ensures
        pending_entry(s, Seq::empty(), key, open, from) == complete_at_entry(s, from, open),
{
    reveal(pending_entry);
}

/// A fault in the front of an entry is a fault of the whole parse.
proof fn lemma_entry_head_fails(
    s: Seq<char>,
    below: Seq<Frame>,
    key: Seq<char>,
    open: ValueTree,
    from: int,
)
    ensures
        entry_head(s, from, open) matches Err(e) ==> pending_entry(s, below, key, open, from)
            == Err::<(ValueTree, int), _>(e),
{
    reveal(pending_entry);
}

/// An entry whose value is a scalar: a fault in the scalar is a fault of
/// the whole parse; otherwise the scalar is attached and a delimiter is
/// expected after it.
proof fn lemma_entry_scalar(
    s: Seq<char>,
    below: Seq<Frame>,
    key: Seq<char>,
    open: ValueTree,
    from: int,
)
    requires
        0 <= from <= s.len(),
    ensures
        entry_head(s, from, open) matches Ok((k, at)) ==> opens(s, at) is None ==> pending_entry(
            s,
            below,
            key,
            open,
            from,
        ) == match scalar(s, at) {
            Err(e) => Err(e),
            Ok((v, after)) => pending_delimiter(s, below, key, attach(open, k, v), after),
        },
{
    reveal(pending_entry);
    reveal(pending_delimiter);
    lemma_head_advances(s, from, open);
    if let Ok((k, at)) = entry_head(s, from, open) {
        lemma_scalar_advances(s, at);
    }
}

/// An entry whose value is a container: the container on top is suspended,
/// and an entry of the new one is expected after its opening delimiter.
proof fn lemma_entry_nested(s: Seq<char>, below: Seq<Frame>, top: Frame, from: int)
    requires
        0 <= from <= s.len(),
    ensures
        entry_head(s, from, top.container.tree()) matches Ok((k, at)) ==> (opens(s, at) matches
        Some(fresh) ==> pending_entry(s, below, key_text(top.key), top.container.tree(), from)
            == pending_entry(s, below.push(top), k, fresh, at + 1)),
{
    reveal(pending_entry);
    let open = top.container.tree();
    lemma_head_advances(s, from, open);
    if let Ok((k, at)) = entry_head(s, from, open) {
        if let Some(fresh) = opens(s, at) {
            lemma_complete_advances(s, at + 1, fresh);
            assert(below.push(top).drop_last() =~= below);
            assert(below.push(top).last() == top);
        }
    }
}

/// After an entry: `,` leads to a further entry; the closing delimiter of
/// the container's kind ends the parse if nothing is suspended, and else
/// attaches the container to the one below, after which a delimiter is
/// expected again; anything else is a fault.
proof fn lemma_delimiter(
    s: Seq<char>,
    below: Seq<Frame>,
    key: Seq<char>,
    open: ValueTree,
    from: int,
)
    requires
        0 <= from <= s.len(),
    ensures
        pending_delimiter(s, below, key, open, from) == ({
            let at = skip_whitespace(s, from);
            if at < s.len() && s[at] == ',' {
                pending_entry(s, below, key, open, at + 1)
            } else if at < s.len() && closes(s[at], open) {
                if below.len() == 0 {
                    Ok((open, at + 1))
                } else {
                    pending_delimiter(
                        s,
                        below.drop_last(),
                        key_text(below.last().key),
                        attach(below.last().container.tree(), key, open),
                        at + 1,
                    )
                }
            } else {
                Err(ParseError::StructuralError)
            }
        }),
{
    reveal(pending_entry);
    reveal(pending_delimiter);
    lemma_skip_whitespace(s, from);
}

/// Every frame above an object has a key, `key` being that of the frame
/// above the last of `below`.
spec fn keyed(below: Seq<Frame>, key: Option<String>) -> bool {
    &&& below.len() > 0 && below.last().container is Object ==> key is Some
    &&& forall|i: int|
        0 < i < below.len() && below[i - 1].container is Object ==> (#[trigger] below[i]).key
            is Some
}

/// The bottom frame, the root, is an object.
spec fn rooted(below: Seq<Frame>, top: Container) -> bool {
    if below.len() > 0 {
        below[0].container is Object
    } else {
        top is Object
    }
}

/// The result of the whole parse, given what the root came out as.
spec fn root_result(outcome: Parsed) -> Result<Members, ParseError> {
    match outcome {
        Ok((tree, _)) => Ok(members_of(tree)),
        Err(e) => Err(e),
    }
}

/// The members of the object that came out, or the fault.
pub open spec fn result_view(result: Result<JsonObject, ParseError>) -> Result<
    Members,
    ParseError,
> {
    match result {
        Ok(object) => Ok(object@),
        Err(e) => Err(e),
    }
}

/// Parses `code` into the object that it stands for. The first fault ends
/// the parse, and no part of a tree is handed out.
pub fn parse(code: &str) -> (result: Result<JsonObject, ParseError>)
    ensures
        result_view(result) == parse_text(code@),
        result matches Ok(object) ==> readable_root(object@),
{
    proof {
        lemma_parsed_is_readable(code@);
    }
    JsonParser::new(code).parse()
}

/// The reader of one text.
struct JsonParser {
    scanner: Scanner,
}

impl JsonParser {
    fn new(code: &str) -> (parser: JsonParser)
        ensures
            parser.scanner.text() == code@,
            parser.scanner.position() == 0,
    {
        JsonParser { scanner: Scanner::new(code) }
    }

    /// Reads the whole text.
    fn parse(&mut self) -> (result: Result<JsonObject, ParseError>)
        requires
            old(self).scanner.position() == 0,
        ensures
            result_view(result) == parse_text(old(self).scanner.text()),
    {
        let ghost s = self.scanner.text();
        self.scanner.skip_whitespace();
        match self.scanner.advance() {
            Some('{') => {},
            _ => {
                return Err(ParseError::StructuralError);
            },
        }
        self.scanner.skip_whitespace();
        match self.scanner.peek() {
            Some('}') => {
                self.scanner.advance();
                self.scanner.skip_whitespace();
                if !self.scanner.at_end() {
                    return Err(ParseError::TrailingContentError);
                }
                return Ok(JsonObject::new());
            },
            _ => {},
        }
        let ghost goal = complete_at_entry(
            s,
            self.scanner.position(),
            ValueTree::Object(Seq::empty()),
        );
        let mut below: Vec<Frame> = Vec::new();
        let mut top = Frame { container: Container::empty_object(), key: None };
        proof {
            lemma_pending_root(s, key_text(top.key), top.container.tree(), self.scanner.position());
        }
        loop
            invariant
                self.scanner.text() == s,
                old(self).scanner.text() == s,
                0 <= self.scanner.position() <= s.len(),
                parse_text(s) == root_result(goal),
                keyed(below@, top.key),
                rooted(below@, top.container),
                pending_entry(
                    s,
                    below@,
                    key_text(top.key),
                    top.container.tree(),
                    self.scanner.position(),
                ) == goal,
            decreases s.len() - self.scanner.position(),
        {
            let ghost from = self.scanner.position();
            let ghost open = top.container.tree();
            proof {
                lemma_entry_head_fails(s, below@, key_text(top.key), open, from);
                lemma_head_advances(s, from, open);
            }
            let key = match &top.container {
                Container::Array(_) => {
                    self.scanner.skip_whitespace();
                    None
                },
                Container::Object(_) => match self.get_key_prefix() {
                    Ok(key) => Some(key),
                    Err(e) => {
                        return Err(e);
                    },
                },
            };
            assert(entry_head(s, from, open) == Ok::<_, ParseError>(
                (key_text(key), self.scanner.position()),
            ));
            let fresh = match self.scanner.peek() {
                Some('[') => Some(Container::empty_array()),
                Some('{') => Some(Container::empty_object()),
                _ => None,
            };
            match fresh {
                Some(container) => {
                    assert(opens(s, self.scanner.position()) == Some(container.tree()));
                    proof {
                        lemma_entry_nested(s, below@, top, from);
                    }
                    self.scanner.advance();
                    below.push(top);
                    top = Frame { container, key };
                    continue ;
                },
                None => {},
            }
            assert(opens(s, self.scanner.position()) is None);
            proof {
                lemma_entry_scalar(s, below@, key_text(top.key), open, from);
                lemma_scalar_advances(s, self.scanner.position());
            }
            match self.get_value() {
                Ok(value) => {
                    top.container.attach(key, value);
                },
                Err(e) => {
                    return Err(e);
                },
            }
            loop
                invariant_except_break
                    pending_delimiter(
                        s,
                        below@,
                        key_text(top.key),
                        top.container.tree(),
                        self.scanner.position(),
                    ) == goal,
                invariant
                    self.scanner.text() == s,
                    old(self).scanner.text() == s,
                    0 <= from < self.scanner.position() <= s.len(),
                    parse_text(s) == root_result(goal),
                    keyed(below@, top.key),
                    rooted(below@, top.container),
                ensures
                    pending_entry(
                        s,
                        below@,
                        key_text(top.key),
                        top.container.tree(),
                        self.scanner.position(),
                    ) == goal,
                decreases s.len() - self.scanner.position(),
            {
                proof {
                    lemma_delimiter(
                        s,
                        below@,
                        key_text(top.key),
                        top.container.tree(),
                        self.scanner.position(),
                    );
                }
                self.scanner.skip_whitespace();
                let closed = match self.scanner.advance() {
                    Some(',') => {
                        break ;
                    },
                    Some(']') => match &top.container {
                        Container::Array(_) => true,
                        Container::Object(_) => false,
                    },
                    Some('}') => match &top.container {
                        Container::Array(_) => false,
                        Container::Object(_) => true,
                    },
                    _ => false,
                };
                if !closed {
                    return Err(ParseError::StructuralError);
                }
                match below.pop() {
                    None => {
                        return Ok(top.container.into_object());
                    },
                    Some(parent) => {
                        let Frame { container, key } = top;
                        top = parent;
                        top.container.attach(key, container.into_value());
                    },
                }
            }
        }
    }

    /// Reads the front of an object member: whitespace, a quoted key,
    /// whitespace, `:` and whitespace.
    fn get_key_prefix(&mut self) -> (key: Result<String, ParseError>)
        ensures
            final(self).scanner.text() == old(self).scanner.text(),
            0 <= final(self).scanner.position() <= final(self).scanner.text().len(),
            match key {
                Ok(k) => key_prefix(old(self).scanner.text(), old(self).scanner.position()) == Ok::<
                    _,
                    ParseError,
                >((k@, final(self).scanner.position())),
                Err(e) => key_prefix(old(self).scanner.text(), old(self).scanner.position())
                    == Err::<(Seq<char>, int), _>(e),
            },
    {
        self.scanner.skip_whitespace();
        let key = self.get_key()?;
        self.scanner.skip_whitespace();
        match self.scanner.advance() {
            Some(':') => {},
            _ => {
                return Err(ParseError::StructuralError);
            },
        }
        self.scanner.skip_whitespace();
        Ok(key)
    }

    /// Reads a quoted key at the cursor.
    fn get_key(&mut self) -> (key: Result<String, ParseError>)
        ensures
            final(self).scanner.text() == old(self).scanner.text(),
            0 <= final(self).scanner.position() <= final(self).scanner.text().len(),
            match key {
                Ok(k) => quoted(old(self).scanner.text(), old(self).scanner.position()) == Some(
                    (k@, final(self).scanner.position()),
                ),
                Err(e) => e == ParseError::KeyError && quoted(
                    old(self).scanner.text(),
                    old(self).scanner.position(),
                ) is None,
            },
    {
        match self.scanner.advance() {
            Some('"') => {},
            _ => {
                return Err(ParseError::KeyError);
            },
        }
        let key = self.scanner.take_until('"');
        match self.scanner.advance() {
            Some(_) => Ok(key),
            None => Err(ParseError::KeyError),
        }
    }

    /// Reads the scalar at the cursor.
    fn get_value(&mut self) -> (value: Result<JsonValue, ParseError>)
        ensures
            final(self).scanner.text() == old(self).scanner.text(),
            0 <= final(self).scanner.position() <= final(self).scanner.text().len(),
            match value {
                Ok(v) => scalar(old(self).scanner.text(), old(self).scanner.position()) == Ok::<
                    _,
                    ParseError,
                >((v@, final(self).scanner.position())),
                Err(e) => scalar(old(self).scanner.text(), old(self).scanner.position()) == Err::<
                    (ValueTree, int),
                    _,
                >(e),
            },
    {
        match self.scanner.peek() {
            Some('"') => {
                self.scanner.advance();
                self.get_str_value()
            },
            _ => self.get_number_or_boolean_value(),
        }
    }

    /// Reads the rest of a string whose opening `"` has been consumed.
    fn get_str_value(&mut self) -> (value: Result<JsonValue, ParseError>)
        ensures
            final(self).scanner.text() == old(self).scanner.text(),
            0 <= final(self).scanner.position() <= final(self).scanner.text().len(),
            match value {
                Ok(v) => until_quote(old(self).scanner.text(), old(self).scanner.position())
                    == Some((v@->String_0, final(self).scanner.position())) && v@ is String,
                Err(e) => e == ParseError::ValueError && until_quote(
                    old(self).scanner.text(),
                    old(self).scanner.position(),
                ) is None,
            },
    {
        let string = self.scanner.take_until('"');
        match self.scanner.advance() {
            Some(_) => Ok(JsonValue::String(string)),
            None => Err(ParseError::ValueError),
        }
    }

    /// Reads the number or keyword at the cursor.
    fn get_number_or_boolean_value(&mut self) -> (value: Result<JsonValue, ParseError>)
        ensures
            final(self).scanner.text() == old(self).scanner.text(),
            0 <= final(self).scanner.position() <= final(self).scanner.text().len(),
            match value {
                Ok(v) => word(old(self).scanner.text(), old(self).scanner.position()) == Ok::<
                    _,
                    ParseError,
                >((v@, final(self).scanner.position())),
                Err(e) => word(old(self).scanner.text(), old(self).scanner.position()) == Err::<
                    (ValueTree, int),
                    _,
                >(e),
            },
    {
        let breaks = [' ', '\n', '\t', '\r', ',', ']', '}'];
        let first = self.scanner.peek();
        proof {
            lemma_find_any_break(self.scanner.text(), self.scanner.position());
            lemma_token_end(self.scanner.text(), self.scanner.position());
            assert(breaks@ =~= break_chars());
        }
        let token = self.scanner.take_until_any(&breaks);
        let digit = match first {
            Some(c) => '0' <= c && c <= '9',
            None => false,
        };
        if digit {
            proof {
                lemma_number_text_from_digit(token@);
            }
            return match JsonNumber::from_text(token) {
                Some(number) => Ok(JsonValue::Number(number)),
                None => Err(ParseError::ValueError),
            };
        }
        if same_text(token.as_str(), "null") {
            Ok(JsonValue::Null)
        } else if same_text(token.as_str(), "false") {
            Ok(JsonValue::Boolean(false))
        } else if same_text(token.as_str(), "true") {
            Ok(JsonValue::Boolean(true))
        } else {
            Err(ParseError::ValueError)
        }
    }
}

} // verus!
