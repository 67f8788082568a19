//! The decisions a driver makes around each line: what to print, when to
//! stop, and how a joined line reads.
use vstd::prelude::*;

use crate::editor::{Outcome, Signal};
use crate::text::{append, push_char};

verus! {

/// What the driver does once a line has been through the editor.
#[derive(Debug)]
pub struct Step {
    /// The line to print, if any.
    pub emit: Option<String>,
    /// The exit code, when the run stops here.
    pub quit: Option<i32>,
    /// Whether some instruction selected the line.
    pub matched: bool,
}

/// Decides what follows a line: a deleted line is not printed, any other is
/// printed under print-all (the working line when the line was selected,
/// else the input line), and a quit stops the run with its code.
pub fn after_line(line: String, outcome: Option<Outcome>, print_all: bool) -> (r: Step)
    ensures
        r.matched == outcome is Some,
        outcome is Some && outcome->Some_0.signal is Quit ==> r.quit == Some(outcome->Some_0.signal->Quit_0),
        !(outcome is Some && outcome->Some_0.signal is Quit) ==> r.quit is None,
        outcome is Some && outcome->Some_0.signal is Delete ==> r.emit is None,
        !print_all ==> r.emit is None,
        print_all && outcome is None ==> (r.emit is Some && r.emit->Some_0@ == line@),
        print_all && outcome is Some && !(outcome->Some_0.signal is Delete)
            ==> (r.emit is Some && r.emit->Some_0@ == outcome->Some_0.line@),
{
    match outcome {
        None => Step { emit: if print_all { Some(line) } else { None }, quit: None, matched: false },
        Some(o) => {
            let quit = match o.signal {
                Signal::Quit(code) => Some(code),
                _ => None,
            };
            let emit = match o.signal {
                Signal::Delete => None,
                _ => if print_all { Some(o.line) } else { None },
            };
            Step { emit, quit, matched: true }
        },
    }
}

/// The working line with the next input line appended, with a newline
/// between them when `newline` is set.
pub fn join_line(text: String, next: String, newline: bool) -> (r: String)
    ensures
        r@ == text@ + (if newline { seq!['\n'] } else { Seq::<char>::empty() }) + next@,
{
    let mut t = text;
    if newline {
        push_char(&mut t, '\n');
    }
    append(&mut t, next.as_str());
    proof {
        if !newline {
            assert(text@ + Seq::<char>::empty() =~= text@);
        }
    }
    t
}

} // verus!
