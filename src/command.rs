//! The commands that an instruction applies to a selected line.
use vstd::prelude::*;

use crate::editor::Instruction;
use crate::pattern::{replaced, Pattern};

verus! {

/// A substitution: a pattern, a template whose back-references are written
/// `${N}`, and how many matches to replace (0 for all of them).
#[derive(Debug)]
pub struct Replacer {
    pub regex: Pattern,
    pub template: String,
    pub limit: usize,
}

impl Replacer {
    /// Replaces the first `limit` matches in `input` (all for 0).
    pub fn replace(&self, input: &str) -> (r: String)
        ensures
            r@ == replaced(self.regex@, input@, self.limit as nat, self.template@),
    {
        self.regex.replacen(input, self.limit, self.template.as_str())
    }
}

/// One command of a script.
#[derive(Debug)]
pub enum Command {
    /// `p`: emit the working line and a newline.
    Println,
    /// `P`: emit the working line alone.
    Print,
    /// `l`: emit the working line with special characters escaped, and a
    /// newline.
    Escapeln,
    /// `=`: emit the line number.
    LineNumber,
    /// `'text'`, `"text"`, `n` and `t`: emit the text.
    Insert(String),
    /// `s/pattern/template/[g|N]`: substitute in the working line.
    Substitute(Replacer),
    /// `k[start][-[end]]`: keep `len` characters of the working line from the
    /// 0-based column `start` on (`None`: up to the end).
    Keep(usize, Option<usize>),
    /// `h`: copy the working line into the hold register.
    Hold,
    /// `g`: copy the hold register into the working line.
    Get,
    /// `x`: swap the working line and the hold register.
    Exchange,
    /// `z`: clear the working line.
    Reset,
    /// `j`: join the next input line, with a newline between. Reported to
    /// the driver as a request; the working line is left as it is.
    Joinln,
    /// `J`: join the next input line. Reported to the driver.
    Join,
    /// `e`: evaluate the working line. Reported to the driver.
    Eval,
    /// `r[N]`: read N lines ahead. Reported to the driver.
    Readln(usize),
    /// `R`: replace the working line by a line read ahead. Reported to the
    /// driver.
    ReadReplace,
    /// `d`: drop the line and stop.
    Delete,
    /// `.` or `b;`: stop the current instructions.
    Break,
    /// `q[code]`: stop the whole run with an exit code.
    Quit(i32),
    /// `:{ ... }`: run the nested instructions on the working line in
    /// rounds, until a round leaves the working line unchanged, at most
    /// `LOOP_ROUNDS` times. A break ends the round; a delete or a quit ends
    /// the line.
    Loop(Vec<Instruction>),
}

} // verus!
