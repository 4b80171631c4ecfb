//! A position in a text, with one character of lookahead.
use vstd::prelude::*;
use crate::text::to_chars;

verus! {

/// A text as a sequence of characters, and how far it has been read.
pub struct Cursor {
    pub chars: Vec<char>,
    pub pos: usize,
}

impl Cursor {
    /// The position lies in the text or at its end.
    pub open spec fn wf(&self) -> bool {
        self.pos <= self.chars.len()
    }

    /// The whole text.
    pub open spec fn text(&self) -> Seq<char> {
        self.chars@
    }

    /// The character at the cursor, if the text has not ended.
    pub open spec fn head(&self) -> Option<char> {
        if self.pos < self.chars.len() {
            Some(self.chars@[self.pos as int])
        } else {
            None
        }
    }

    /// A cursor at the start of `text`.
    pub fn new(text: &str) -> (r: Cursor)
        ensures
            r.wf(),
            r.text() == text@,
            r.pos == 0,
    {
        Cursor { chars: to_chars(text), pos: 0 }
    }

    /// The character at the cursor, if the text has not ended.
    pub fn peek(&self) -> (r: Option<char>)
        requires
            self.wf(),
        ensures
            r == self.head(),
    {
        if self.pos < self.chars.len() {
            Some(self.chars[self.pos])
        } else {
            None
        }
    }

    /// Reads the character at the cursor and moves past it; at the end of
    /// the text nothing moves.
    pub fn advance(&mut self) -> (r: Option<char>)
        requires
            old(self).wf(),
        ensures
            final(self).wf(),
            final(self).chars == old(self).chars,
            r == old(self).head(),
            final(self).pos == (if r is Some {
                old(self).pos + 1
            } else {
                old(self).pos as int
            }),
    {
        if self.pos < self.chars.len() {
            let c = self.chars[self.pos];
            self.pos = self.pos + 1;
            Some(c)
        } else {
            None
        }
    }

    /// How many characters are still to be read.
    pub fn count(&self) -> (r: usize)
        requires
            self.wf(),
        ensures
            r == self.chars.len() - self.pos,
    {
        self.chars.len() - self.pos
    }
}

} // verus!
