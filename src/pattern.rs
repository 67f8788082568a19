//! Compiled patterns: the regular-expression engine behind addresses and
//! substitutions.
use vstd::prelude::*;

use crate::text::chars_string;
use crate::Error;
use regex::Error as RegexError;
use regex::Regex;

verus! {

#[verifier::external_type_specification]
#[verifier::external_body]
pub struct ExRegex(regex::Regex);

#[verifier::external_type_specification]
#[verifier::external_body]
pub struct ExRegexError(RegexError);

/// Whether the engine accepts a pattern text.
pub uninterp spec fn compiles(pattern: Seq<char>) -> bool;

/// Whether a pattern matches somewhere in a text.
pub uninterp spec fn finds(pattern: Seq<char>, text: Seq<char>) -> bool;

/// The text after replacing at most `limit` matches of `pattern` in `text`
/// by the expanded `template` (every match when `limit` is 0).
pub uninterp spec fn replaced(pattern: Seq<char>, text: Seq<char>, limit: nat, template: Seq<char>) -> Seq<char>;

/// A pattern together with the text it was compiled from.
#[derive(Debug)]
pub struct Pattern {
    source: String,
    compiled: regex::Regex,
}

impl View for Pattern {
    type V = Seq<char>;

    /// The pattern text.
    closed spec fn view(&self) -> Seq<char> {
        self.source@
    }
}

/// Relies on `regex::Regex::new`: compiles a pattern text, or reports why
/// not. This is the only place where a `Pattern` is built, so every
/// `Pattern` holds the regex compiled from its own text.
#[verifier::external_body]
fn compile_pattern(source: String) -> (r: Result<Pattern, regex::Error>)
    ensures
        r is Ok <==> compiles(source@),
        r matches Ok(p) ==> p@ == source@,
{
    match regex::Regex::new(&source) {
        Ok(compiled) => Ok(Pattern { source, compiled }),
        Err(e) => Err(e),
    }
}

/// Relies on `regex::Regex::is_match`, on the regex compiled from `p@`.
#[verifier::external_body]
fn regex_finds(p: &Pattern, text: &str) -> (r: bool)
    ensures
        r == finds(p@, text@),
{
    p.compiled.is_match(text)
}

/// Relies on `regex::Regex::replacen`, on the regex compiled from `p@`.
#[verifier::external_body]
fn regex_replacen(p: &Pattern, text: &str, limit: usize, template: &str) -> (r: String)
    ensures
        r@ == replaced(p@, text@, limit as nat, template@),
{
    p.compiled.replacen(text, limit, template).to_string()
}

impl Pattern {
    /// Compiles the pattern text `source`.
    pub fn new(source: &Vec<char>) -> (r: Result<Pattern, Error>)
        ensures
            r is Ok <==> compiles(source@),
            r matches Ok(p) ==> p@ == source@,
            r is Err ==> r matches Err(Error::Regex(_)),
    {
        let text = chars_string(source);
        match compile_pattern(text) {
            Ok(p) => Ok(p),
            Err(e) => Err(Error::Regex(e)),
        }
    }

    /// The pattern text.
    pub fn as_str(&self) -> (r: &str)
        ensures
            r@ == self@,
    {
        self.source.as_str()
    }

    /// Whether the pattern matches somewhere in `text`.
    pub fn is_match(&self, text: &str) -> (r: bool)
        ensures
            r == finds(self@, text@),
    {
        regex_finds(self, text)
    }

    /// Replaces at most `limit` matches (all of them for 0) by `template`.
    pub fn replacen(&self, text: &str, limit: usize, template: &str) -> (r: String)
        ensures
            r@ == replaced(self@, text@, limit as nat, template@),
    {
        regex_replacen(self, text, limit, template)
    }
}

} // verus!
