//! A line-oriented stream editor: a compact script of addresses and commands
//! is parsed once and then applied to each input line in turn.
use vstd::prelude::*;

use crate::text::{append, push_char};

pub mod address;
pub mod command;
pub mod driver;
pub mod editor;
pub mod parser;
pub mod pattern;
pub mod reader;
pub mod shape;
pub mod text;

pub use address::Address;
pub use command::{Command, Replacer};
pub use editor::{Editor, Instruction, Outcome, Request, Signal};
pub use parser::parse;
pub use reader::{Reader, StringReader};

verus! {

/// One input line: its 1-based sequence number and its content.
#[derive(Debug, Clone)]
pub struct Line(pub usize, pub String);

/// Everything that can go wrong while reading or parsing a script.
#[derive(Debug)]
pub enum Error {
    /// The pattern engine refused a pattern.
    Regex(regex::Error),
    /// An integer literal too large for its use, with its digits.
    ParseInt(String),
    /// A closing delimiter was expected but not found.
    Missing(char),
    /// A character that no rule accepts at that place.
    Unexpected(char),
    /// An address or column range that cannot stand, with its text.
    InvalidAddr(String),
    /// An escape sequence that the decoder refused, with the offending text.
    ParsingError(String),
}

/// The message for an error other than a pattern error, whose text the
/// pattern engine writes.
pub open spec fn error_text(e: Error) -> Seq<char> {
    match e {
        Error::Missing(c) => seq!['m', 'i', 's', 's', 'i', 'n', 'g', ' ', '\''] + seq![c, '\''],
        Error::Unexpected(c) => seq!['u', 'n', 'e', 'x', 'p', 'e', 'c', 't', 'e', 'd', ' ', '\''] + seq![c, '\''],
        Error::InvalidAddr(a) => seq!['i', 'n', 'v', 'a', 'l', 'i', 'd', ' ', 'a', 'd', 'd', 'r', 'e', 's', 's', ':', ' '] + a@,
        Error::ParseInt(s) => seq!['i', 'n', 'v', 'a', 'l', 'i', 'd', ' ', 'n', 'u', 'm', 'b', 'e', 'r', ':', ' '] + s@,
        Error::ParsingError(s) => seq!['f', 'a', 'i', 'l', 'e', 'd', ' ', 't', 'o', ' ', 'p', 'a', 'r', 's', 'e', ':', ' '] + s@,
        Error::Regex(_) => Seq::empty(),
    }
}

/// Relies on `regex::Error`'s `Display`: the engine's description.
#[verifier::external_body]
fn regex_error_message(e: &regex::Error) -> (r: String) {
    e.to_string()
}

impl Error {
    /// A one-line description of the error.
    pub fn message(&self) -> (r: String)
        ensures
            !(*self is Regex) ==> r@ == error_text(*self),
    {
        let mut t = String::new();
        match self {
            Error::Regex(e) => {
                return regex_error_message(e);
            },
            Error::Missing(c) => {
                append(&mut t, "missing '");
                push_char(&mut t, *c);
                push_char(&mut t, '\'');
                proof { reveal_strlit("missing '"); }
            },
            Error::Unexpected(c) => {
                append(&mut t, "unexpected '");
                push_char(&mut t, *c);
                push_char(&mut t, '\'');
                proof { reveal_strlit("unexpected '"); }
            },
            Error::InvalidAddr(a) => {
                append(&mut t, "invalid address: ");
                append(&mut t, a.as_str());
                proof { reveal_strlit("invalid address: "); }
            },
            Error::ParseInt(s) => {
                append(&mut t, "invalid number: ");
                append(&mut t, s.as_str());
                proof { reveal_strlit("invalid number: "); }
            },
            Error::ParsingError(s) => {
                append(&mut t, "failed to parse: ");
                append(&mut t, s.as_str());
                proof { reveal_strlit("failed to parse: "); }
            },
        }
        proof { assert(t@ =~= error_text(*self)); }
        t
    }
}

} // verus!
