//! The value tree: the executable types and the mathematical tree that they
//! stand for.

use crate::text::{is_digit, same_text};
use vstd::prelude::*;

verus! {

/// The mathematical value tree. An object is the sequence of its members in
/// the order in which their keys were first inserted.
pub enum ValueTree {
    Null,
    Boolean(bool),
    /// A number, held as the text that writes it.
    Number(Seq<char>),
    String(Seq<char>),
    Array(Seq<ValueTree>),
    Object(Seq<(Seq<char>, ValueTree)>),
}

/// The members of an object: pairs of key and value.
pub type Members = Seq<(Seq<char>, ValueTree)>;

/// A decimal literal: digits, of which there is at least one, then
/// optionally a `.` and further digits, of which there may be none. There is
/// no sign and no exponent.
pub open spec fn is_number_literal(t: Seq<char>) -> bool {
    &&& t.len() > 0
    &&& is_digit(t[0])
    &&& forall|i: int| 0 <= i < t.len() ==> is_digit(#[trigger] t[i]) || t[i] == '.'
    &&& forall|i: int, j: int|
        0 <= i < j < t.len() ==> !(#[trigger] t[i] == '.' && #[trigger] t[j] == '.')
}

/// The text without its sign, if it has one.
pub open spec fn unsigned(t: Seq<char>) -> Seq<char> {
    if t.len() > 0 && t[0] == '-' {
        t.drop_first()
    } else {
        t
    }
}

/// A text that writes a 64-bit float in full: a decimal literal or `inf`,
/// either of them also after `-`, or `NaN`. Of these the parser reads the
/// decimal literals without a sign.
pub open spec fn is_number_text(t: Seq<char>) -> bool {
    t == "NaN"@ || unsigned(t) == "inf"@ || is_number_literal(unsigned(t))
}

/// Where a text starts with a digit, it writes a number if and only if it
/// is a decimal literal.
pub proof fn lemma_number_text_from_digit(t: Seq<char>)
    requires
        t.len() > 0,
        is_digit(t[0]),
    ensures
        is_number_text(t) == is_number_literal(t),
{
    reveal_strlit("NaN");
    reveal_strlit("inf");
}

/// No two members have the same key.
pub open spec fn unique_keys(members: Members) -> bool {
    forall|i: int, j: int|
        0 <= i < j < members.len() ==> (#[trigger] members[i]).0 != (#[trigger] members[j]).0
}

/// The index of the first member at or after `from` whose key is `key`, or
/// the number of members if there is none.
pub open spec fn key_index_from(members: Members, key: Seq<char>, from: int) -> int
    decreases members.len() - from,
{
    if 0 <= from < members.len() && members[from].0 != key {
        key_index_from(members, key, from + 1)
    } else {
        from
    }
}

/// The index of the member whose key is `key`, or the number of members if
/// there is none.
pub open spec fn key_index(members: Members, key: Seq<char>) -> int {
    key_index_from(members, key, 0)
}

/// The value under `key`, if a member has that key.
pub open spec fn lookup(members: Members, key: Seq<char>) -> Option<ValueTree> {
    let i = key_index(members, key);
    if i < members.len() {
        Some(members[i].1)
    } else {
        None
    }
}

/// The members after `value` was put under `key`: a member that had the key
/// keeps its place and gets the new value; otherwise a new member comes
/// last.
pub open spec fn insert_member(members: Members, key: Seq<char>, value: ValueTree) -> Members {
    let i = key_index(members, key);
    if i < members.len() {
        members.update(i, (key, value))
    } else {
        members.push((key, value))
    }
}

/// `key_index_from` stays inside the members, passes only other keys and
/// halts on `key` unless it reaches the end.
pub proof fn lemma_key_index_from(members: Members, key: Seq<char>, from: int)
    requires
        0 <= from <= members.len(),
    ensures
        from <= key_index_from(members, key, from) <= members.len(),
        forall|i: int|
            from <= i < key_index_from(members, key, from) ==> (#[trigger] members[i]).0 != key,
        key_index_from(members, key, from) < members.len() ==> members[key_index_from(
            members,
            key,
            from,
        )].0 == key,
    decreases members.len() - from,
{
    if from < members.len() && members[from].0 != key {
        lemma_key_index_from(members, key, from + 1);
    }
}

/// Inserting keeps the keys unique.
pub proof fn lemma_insert_keeps_unique(members: Members, key: Seq<char>, value: ValueTree)
    requires
        unique_keys(members),
    ensures
        unique_keys(insert_member(members, key, value)),
{
    lemma_key_index_from(members, key, 0);
}

/// After an insertion the key leads to the inserted value, and every other
/// key leads to what it led to before.
pub proof fn lemma_lookup_after_insert(
    members: Members,
    key: Seq<char>,
    value: ValueTree,
    other: Seq<char>,
)
    ensures
        lookup(insert_member(members, key, value), key) == Some(value),
        other != key ==> lookup(insert_member(members, key, value), other) == lookup(
            members,
            other,
        ),
{
    let after = insert_member(members, key, value);
    lemma_key_index_from(members, key, 0);
    lemma_key_index_from(members, other, 0);
    lemma_key_index_from(after, key, 0);
    lemma_key_index_from(after, other, 0);
    let at = key_index(members, key);
    assert(after[at] == (key, value));
    let found = key_index(after, key);
    if found < at {
        assert(after[found] == members[found]);
    }
    if other != key {
        let before = key_index(members, other);
        let now = key_index(after, other);
        if before < members.len() {
            assert(after[before] == members[before]);
        }
        if now < after.len() && now != at {
            assert(after[now] == members[now]);
        }
    }
}

/// A number, kept as the text that writes it.
#[derive(Debug, PartialEq, Eq)]
pub struct JsonNumber {
    text: String,
}

impl View for JsonNumber {
    type V = Seq<char>;

    closed spec fn view(&self) -> Seq<char> {
        self.text@
    }
}

impl JsonNumber {
    #[verifier::type_invariant]
    spec fn well_formed(&self) -> bool {
        is_number_text(self.text@)
    }

    /// The number that `text` writes, if it writes one.
    pub fn from_text(text: String) -> (number: Option<JsonNumber>)
        ensures
            number is Some <==> is_number_text(text@),
            number matches Some(n) ==> n@ == text@,
    {
        proof {
            reveal_strlit("NaN");
            reveal_strlit("inf");
            reveal_strlit("-inf");
        }
        if same_text(text.as_str(), "NaN") {
            return Some(JsonNumber { text });
        }
        if same_text(text.as_str(), "inf") {
            return Some(JsonNumber { text });
        }
        if same_text(text.as_str(), "-inf") {
            assert(unsigned(text@) =~= "inf"@);
            return Some(JsonNumber { text });
        }
        assert(unsigned(text@) != "inf"@) by {
            if unsigned(text@) == "inf"@ {
                if text@.len() > 0 && text@[0] == '-' {
                    assert(text@ =~= seq!['-'] + "inf"@);
                    assert(text@ =~= "-inf"@);
                }
            }
        }
        let ghost digits = unsigned(text@);
        let ghost sign: int = text@.len() - digits.len();
        let mut signed = false;
        let mut any = false;
        let mut dotted = false;
        for c in it: text.as_str().chars()
            invariant
                it.seq() == text@,
                text@ != "NaN"@,
                digits != "inf"@,
                digits == unsigned(text@),
                sign == text@.len() - digits.len(),
                sign == 0 || sign == 1,
                signed == (it.index() > 0 && sign == 1),
                any == (it.index() > sign),
                any ==> is_digit(digits[0]),
                forall|i: int|
                    0 <= i < it.index() - sign ==> is_digit(#[trigger] digits[i]) || digits[i]
                        == '.',
                forall|i: int, j: int|
                    0 <= i < j < it.index() - sign ==> !(#[trigger] digits[i] == '.'
                        && #[trigger] digits[j] == '.'),
                dotted <==> exists|i: int|
                    0 <= i < it.index() - sign && #[trigger] digits[i] == '.',
        {
            let ghost at = it.index() - sign;
            assert(at >= 0 ==> digits[at] == c);
            if !signed && !any && c == '-' {
                signed = true;
            } else {
                let digit = '0' <= c && c <= '9';
                if !digit && (!any || c != '.' || dotted) {
                    proof {
                        if any && c == '.' {
                            let i = choose|i: int| 0 <= i < at && #[trigger] digits[i] == '.';
                            assert(digits[i] == '.' && digits[at] == '.');
                        }
                    }
                    return None;
                }
                if !digit {
                    dotted = true;
                }
                any = true;
            }
        }
        if !any {
            return None;
        }
        Some(JsonNumber { text })
    }

    /// The text that writes the number.
    pub fn as_str(&self) -> (text: &str)
        ensures
            text@ == self@,
            is_number_text(self@),
    {
        proof {
            use_type_invariant(self);
        }
        self.text.as_str()
    }
}

/// A value: one of six kinds.
#[derive(Debug, PartialEq, Eq)]
pub enum JsonValue {
    Null,
    Boolean(bool),
    Number(JsonNumber),
    String(String),
    Array(Vec<JsonValue>),
    Object(JsonObject),
}

/// A mapping from keys to values. No key occurs twice; the members keep the
/// order in which their keys were first inserted.
#[derive(Debug, PartialEq, Eq)]
pub struct JsonObject {
    members: Vec<(String, JsonValue)>,
}

impl View for JsonValue {
    type V = ValueTree;

    open spec fn view(&self) -> ValueTree
        decreases self,
    {
        match self {
            JsonValue::Null => ValueTree::Null,
            JsonValue::Boolean(b) => ValueTree::Boolean(*b),
            JsonValue::Number(n) => ValueTree::Number(n@),
            JsonValue::String(s) => ValueTree::String(s@),
            JsonValue::Array(items) => ValueTree::Array(items_view(*items)),
            JsonValue::Object(object) => ValueTree::Object(object@),
        }
    }
}

impl View for JsonObject {
    type V = Members;

    closed spec fn view(&self) -> Members
        decreases self,
    {
        members_view(self.members)
    }
}

/// The trees that a vector of values stands for, in the same order.
pub open spec fn items_view(items: Vec<JsonValue>) -> Seq<ValueTree>
    decreases items,
{
    Seq::new(
        items.len() as nat,
        |i: int|
            if 0 <= i < items.len() {
                items[i]@
            } else {
                ValueTree::Null
            },
    )
}

/// The members that a vector of keys and values stands for.
spec fn members_view(members: Vec<(String, JsonValue)>) -> Members
    decreases members,
{
    Seq::new(
        members.len() as nat,
        |i: int|
            if 0 <= i < members.len() {
                (members[i].0@, members[i].1@)
            } else {
                (Seq::empty(), ValueTree::Null)
            },
    )
}

impl JsonObject {
    #[verifier::type_invariant]
    spec fn well_formed(&self) -> bool {
        unique_keys(self@)
    }

    /// An object without members.
    pub fn new() -> (object: JsonObject)
        ensures
            object@ == Members::empty(),
    {
        let object = JsonObject { members: Vec::new() };
        assert(object@ =~= Members::empty());
        object
    }

    /// The number of members.
    pub fn len(&self) -> (n: usize)
        ensures
            n == self@.len(),
            unique_keys(self@),
    {
        proof {
            use_type_invariant(self);
        }
        self.members.len()
    }

    /// Whether there is no member.
    pub fn is_empty(&self) -> (empty: bool)
        ensures
            empty == (self@.len() == 0),
    {
        self.members.len() == 0
    }

    /// The key of the member at `index`.
    pub fn key_at(&self, index: usize) -> (key: &str)
        requires
            index < self@.len(),
        ensures
            key@ == self@[index as int].0,
    {
        self.members[index].0.as_str()
    }

    /// The value of the member at `index`.
    pub fn value_at(&self, index: usize) -> (value: &JsonValue)
        requires
            index < self@.len(),
        ensures
            value@ == self@[index as int].1,
    {
        &self.members[index].1
    }

    /// The index of the member whose key is `key`, or the number of members
    /// if there is none.
    fn position(&self, key: &str) -> (index: usize)
        ensures
            index == key_index(self@, key@),
            index <= self@.len(),
    {
        let mut index: usize = 0;
        while index < self.members.len() && !same_text(self.members[index].0.as_str(), key)
            invariant
                index <= self.members.len(),
                key_index(self@, key@) == key_index_from(self@, key@, index as int),
            decreases self.members.len() - index,
        {
            index = index + 1;
        }
        index
    }

    /// The value under `key`, if a member has that key.
    pub fn get(&self, key: &str) -> (value: Option<&JsonValue>)
        ensures
            match value {
                Some(v) => lookup(self@, key@) == Some(v@),
                None => lookup(self@, key@) is None,
            },
    {
        let index = self.position(key);
        if index < self.members.len() {
            Some(&self.members[index].1)
        } else {
            None
        }
    }

    /// Puts `value` under `key`. A member that had the key keeps its place
    /// and gets the new value; otherwise a new member comes last.
    pub fn insert(&mut self, key: String, value: JsonValue)
        ensures
            final(self)@ == insert_member(old(self)@, key@, value@),
            unique_keys(final(self)@),
    {
        proof {
            use_type_invariant(&*self);
            lemma_insert_keeps_unique(self@, key@, value@);
        }
        let index = self.position(key.as_str());
        let mut members: Vec<(String, JsonValue)> = Vec::new();
        core::mem::swap(&mut self.members, &mut members);
        if index < members.len() {
            members.set(index, (key, value));
        } else {
            members.push((key, value));
        }
        assert(members_view(members) =~= insert_member(old(self)@, key@, value@));
        self.members = members;
    }
}

} // verus!
