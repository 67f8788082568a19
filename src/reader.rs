//! Character sources for the parser.
use vstd::prelude::*;

use crate::text::string_chars;
use crate::Error;

verus! {

/// A source of script characters with one character of lookahead.
pub trait Reader {
    /// Consumes and returns the next character, or `None` at the end.
    fn next(&mut self) -> Result<Option<char>, Error>;

    /// Returns the next character without consuming it.
    fn peek(&mut self) -> Result<Option<char>, Error>;
}

/// A reader over an in-memory script.
pub struct StringReader {
    chars: Vec<char>,
    pos: usize,
}

impl View for StringReader {
    /// The characters not yet consumed.
    type V = Seq<char>;

    closed spec fn view(&self) -> Seq<char> {
        self.chars@.subrange(self.pos as int, self.chars@.len() as int)
    }
}

impl StringReader {
    pub closed spec fn wf(&self) -> bool {
        self.pos <= self.chars@.len()
    }

    /// What is left to read fits in memory.
    pub proof fn lemma_len_fits(&self)
        requires
            self.wf(),
        ensures
            self@.len() <= usize::MAX,
    {
        broadcast use vstd::std_specs::vec::axiom_spec_len;
        assert(self.chars@.len() == self.chars.len());
    }

    /// A reader positioned on the first character of `s`.
    pub fn new(s: String) -> (r: StringReader)
        ensures
            r.wf(),
            r@ == s@,
    {
        let chars = string_chars(s.as_str());
        let r = StringReader { chars, pos: 0 };
        assert(r@ =~= s@);
        r
    }

    /// Returns the next character without consuming it.
    pub fn current(&self) -> (r: Option<char>)
        requires
            self.wf(),
        ensures
            r == (if self@.len() == 0 { None } else { Some(self@[0]) }),
    {
        if self.pos < self.chars.len() {
            Some(self.chars[self.pos])
        } else {
            None
        }
    }

    /// Whether the character after the next one is a decimal digit.
    pub fn second_is_digit(&self) -> (r: bool)
        requires
            self.wf(),
        ensures
            r == (self@.len() > 1 && crate::text::is_digit(self@[1])),
    {
        self.pos < self.chars.len() && self.chars.len() - self.pos > 1 && crate::text::char_is_digit(self.chars[self.pos + 1])
    }

    /// Consumes and returns the next character.
    pub fn advance(&mut self) -> (r: Option<char>)
        requires
            old(self).wf(),
        ensures
            final(self).wf(),
            r == (if old(self)@.len() == 0 { None } else { Some(old(self)@[0]) }),
            final(self)@ == (if old(self)@.len() == 0 { old(self)@ } else { old(self)@.drop_first() }),
    {
        if self.pos < self.chars.len() {
            let c = self.chars[self.pos];
            self.pos = self.pos + 1;
            assert(self@ =~= old(self)@.drop_first());
            Some(c)
        } else {
            None
        }
    }
}

impl Reader for StringReader {
    fn next(&mut self) -> Result<Option<char>, Error> {
        if self.pos < self.chars.len() {
            let c = self.chars[self.pos];
            self.pos = self.pos + 1;
            Ok(Some(c))
        } else {
            Ok(None)
        }
    }

    fn peek(&mut self) -> Result<Option<char>, Error> {
        if self.pos < self.chars.len() {
            Ok(Some(self.chars[self.pos]))
        } else {
            Ok(None)
        }
    }
}

} // verus!
