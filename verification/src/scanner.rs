//! A cursor over the characters of a text.

use crate::text::{char_at, find_any, find_char, is_whitespace, skip_whitespace};
use vstd::prelude::*;

verus! {

/// A text and a position in it. The scanner works on whole characters, so a
/// position counts characters, not bytes.
pub struct Scanner {
    chars: Vec<char>,
    pos: usize,
}

impl Scanner {
    #[verifier::type_invariant]
    spec fn in_bounds(&self) -> bool {
        self.pos <= self.chars.len()
    }

    /// The whole text, consumed part included.
    pub closed spec fn text(&self) -> Seq<char> {
        self.chars@
    }

    /// How many characters have been consumed.
    pub closed spec fn position(&self) -> int {
        self.pos as int
    }

    /// A scanner at the start of `text`.
    pub fn new(text: &str) -> (scanner: Scanner)
        ensures
            scanner.text() == text@,
            scanner.position() == 0,
    {
        let mut chars: Vec<char> = Vec::new();
        for c in it: text.chars()
            invariant
                chars@ == it.seq().take(it.index()),
                it.seq() == text@,
        {
            chars.push(c);
        }
        Scanner { chars, pos: 0 }
    }

    /// Whether every character has been consumed.
    pub fn at_end(&self) -> (end: bool)
        ensures
            end == (self.position() == self.text().len()),
            0 <= self.position() <= self.text().len(),
    {
        proof {
            use_type_invariant(self);
        }
        self.pos == self.chars.len()
    }

    /// The current character, which stays unconsumed; `None` at the end.
    pub fn peek(&self) -> (c: Option<char>)
        ensures
            c == char_at(self.text(), self.position()),
            0 <= self.position() <= self.text().len(),
    {
        proof {
            use_type_invariant(self);
        }
        if self.pos < self.chars.len() {
            Some(self.chars[self.pos])
        } else {
            None
        }
    }

    /// Consumes the current character and returns it; at the end it returns
    /// `None` and consumes nothing.
    pub fn advance(&mut self) -> (c: Option<char>)
        ensures
            final(self).text() == old(self).text(),
            c == char_at(old(self).text(), old(self).position()),
            final(self).position() == old(self).position() + if c is Some { 1int } else { 0 },
            0 <= old(self).position() <= final(self).position() <= final(self).text().len(),
    {
        proof {
            use_type_invariant(&*self);
        }
        if self.pos < self.chars.len() {
            let c = self.chars[self.pos];
            self.pos = self.pos + 1;
            Some(c)
        } else {
            None
        }
    }

    /// Consumes the whitespace in front of the cursor.
    pub fn skip_whitespace(&mut self)
        ensures
            final(self).text() == old(self).text(),
            final(self).position() == skip_whitespace(old(self).text(), old(self).position()),
            0 <= old(self).position() <= final(self).position() <= final(self).text().len(),
    {
        proof {
            use_type_invariant(&*self);
        }
        let mut pos: usize = self.pos;
        while pos < self.chars.len() && Self::whitespace(self.chars[pos])
            invariant
                self.pos <= pos <= self.chars.len(),
                skip_whitespace(self.chars@, self.pos as int) == skip_whitespace(
                    self.chars@,
                    pos as int,
                ),
            decreases self.chars.len() - pos,
        {
            pos = pos + 1;
        }
        self.pos = pos;
    }

    /// Consumes the characters up to the next `delimiter`, which stays
    /// unconsumed, and returns them; without a `delimiter` ahead it consumes
    /// and returns the rest of the text.
    pub fn take_until(&mut self, delimiter: char) -> (span: String)
        ensures
            final(self).text() == old(self).text(),
            final(self).position() == find_char(old(self).text(), old(self).position(), delimiter),
            span@ == old(self).text().subrange(old(self).position(), final(self).position()),
            0 <= old(self).position() <= final(self).position() <= final(self).text().len(),
    {
        proof {
            use_type_invariant(&*self);
        }
        let mut span = String::new();
        let mut pos: usize = self.pos;
        while pos < self.chars.len() && self.chars[pos] != delimiter
            invariant
                self.pos <= pos <= self.chars.len(),
                find_char(self.chars@, self.pos as int, delimiter) == find_char(
                    self.chars@,
                    pos as int,
                    delimiter,
                ),
                span@ == self.chars@.subrange(self.pos as int, pos as int),
            decreases self.chars.len() - pos,
        {
            span.push(self.chars[pos]);
            pos = pos + 1;
        }
        self.pos = pos;
        span
    }

    /// Consumes the characters up to the next one that is among
    /// `delimiters`, which stays unconsumed, and returns them; without any of
    /// them ahead it consumes and returns the rest of the text.
    pub fn take_until_any(&mut self, delimiters: &[char]) -> (span: String)
        ensures
            final(self).text() == old(self).text(),
            final(self).position() == find_any(
                old(self).text(),
                old(self).position(),
                delimiters@,
            ),
            span@ == old(self).text().subrange(old(self).position(), final(self).position()),
            0 <= old(self).position() <= final(self).position() <= final(self).text().len(),
    {
        proof {
            use_type_invariant(&*self);
        }
        let mut span = String::new();
        let mut pos: usize = self.pos;
        while pos < self.chars.len() && !Self::among(delimiters, self.chars[pos])
            invariant
                self.pos <= pos <= self.chars.len(),
                find_any(self.chars@, self.pos as int, delimiters@) == find_any(
                    self.chars@,
                    pos as int,
                    delimiters@,
                ),
                span@ == self.chars@.subrange(self.pos as int, pos as int),
            decreases self.chars.len() - pos,
        {
            span.push(self.chars[pos]);
            pos = pos + 1;
        }
        self.pos = pos;
        span
    }

    fn whitespace(c: char) -> (white: bool)
        ensures
            white == is_whitespace(c),
    {
        c == ' ' || c == '\t' || c == '\n' || c == '\r'
    }

    fn among(delimiters: &[char], c: char) -> (found: bool)
        ensures
            found == delimiters@.contains(c),
    {
        let mut i: usize = 0;
        while i < delimiters.len()
            invariant
                i <= delimiters.len(),
                forall|j: int| 0 <= j < i ==> delimiters@[j] != c,
            decreases delimiters.len() - i,
        {
            if delimiters[i] == c {
                return true;
            }
            i = i + 1;
        }
        false
    }
}

} // verus!
