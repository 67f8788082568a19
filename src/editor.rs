//! The interpreter: runs a parsed script over one input line at a time,
//! keeping the line counter, the hold register and the range states.
use vstd::prelude::*;

use crate::address::Address;
use crate::command::Command;
use crate::pattern::replaced;
use crate::text::{append, chars_string, decimal, escape_text, escaped, string_chars, usize_decimal};
use crate::Line;

verus! {

broadcast use vstd::std_specs::vec::axiom_vec_decreases_to_view, vstd::seq::axiom_seq_index_decreases;

/// How many times a loop body runs at most on one line.
pub const LOOP_ROUNDS: usize = 1000;

/// An address and the commands to run on the lines it selects.
#[derive(Debug)]
pub struct Instruction {
    pub address: Address,
    pub commands: Vec<Command>,
}

/// How the commands for a line ended.
#[derive(Debug, Clone, Copy, PartialEq, Eq, Structural)]
pub enum Signal {
    /// No command stopped the run.
    Continue,
    /// `d`: the line is dropped.
    Delete,
    /// `.` or `b;`: the remaining instructions were skipped.
    Break,
    /// `q`: the whole run stops with this exit code.
    Quit(i32),
}

/// A command that only the driver can carry out, reported in order.
#[derive(Debug, Clone, Copy, PartialEq, Eq, Structural)]
pub enum Request {
    /// `j`: append the next input line, with a newline between.
    Joinln,
    /// `J`: append the next input line.
    Join,
    /// `e`: evaluate the working line.
    Eval,
    /// `r[N]`: read N lines ahead.
    Readln(usize),
    /// `R`: replace the working line by a line read ahead.
    ReadReplace,
}

/// What the interpreter made of a line that some instruction selected.
#[derive(Debug)]
pub struct Outcome {
    /// The working line at the end.
    pub line: String,
    /// How the commands ended.
    pub signal: Signal,
    /// What the commands emitted, in order.
    pub printed: String,
    /// The commands left to the driver, in the order they ran.
    pub requests: Vec<Request>,
}

/// The state of the interpreter while it works on one line.
pub struct Machine {
    pub working: Seq<char>,
    pub hold: Seq<char>,
    pub printed: Seq<char>,
    pub requests: Seq<Request>,
    pub open: Seq<bool>,
    pub signal: Signal,
    pub matched: bool,
}

/// The characters of `s` from the 0-based column `start` on: `len` of them,
/// or all up to the end for `None`; fewer where the line is shorter.
pub open spec fn keep_columns(s: Seq<char>, start: nat, len: Option<usize>) -> Seq<char> {
    let lo = if start <= s.len() { start as int } else { s.len() as int };
    let hi = match len {
        Some(l) => if start + l <= s.len() { (start + l) as int } else { s.len() as int },
        None => s.len() as int,
    };
    s.subrange(lo, hi)
}

/// The effect of one command on line `n`.
pub open spec fn exec_command(c: Command, n: nat, m: Machine) -> Machine
    decreases c, 0nat, 0nat,
{
    match c {
        Command::Println => Machine { printed: m.printed + m.working.push('\n'), ..m },
        Command::Print => Machine { printed: m.printed + m.working, ..m },
        Command::Escapeln => Machine { printed: m.printed + escaped(m.working).push('\n'), ..m },
        Command::LineNumber => Machine { printed: m.printed + decimal(n), ..m },
        Command::Insert(s) => Machine { printed: m.printed + s@, ..m },
        Command::Substitute(r) => Machine {
            working: replaced(r.regex@, m.working, r.limit as nat, r.template@),
            ..m
        },
        Command::Keep(start, len) => Machine { working: keep_columns(m.working, start as nat, len), ..m },
        Command::Hold => Machine { hold: m.working, ..m },
        Command::Get => Machine { working: m.hold, ..m },
        Command::Exchange => Machine { working: m.hold, hold: m.working, ..m },
        Command::Reset => Machine { working: Seq::empty(), ..m },
        Command::Delete => Machine { signal: Signal::Delete, ..m },
        Command::Break => Machine { signal: Signal::Break, ..m },
        Command::Quit(code) => Machine { signal: Signal::Quit(code), ..m },
        Command::Loop(body) => run_loop(body@, LOOP_ROUNDS as nat, n, m),
        Command::Joinln => Machine { requests: m.requests.push(Request::Joinln), ..m },
        Command::Join => Machine { requests: m.requests.push(Request::Join), ..m },
        Command::Eval => Machine { requests: m.requests.push(Request::Eval), ..m },
        Command::Readln(k) => Machine { requests: m.requests.push(Request::Readln(k)), ..m },
        Command::ReadReplace => Machine { requests: m.requests.push(Request::ReadReplace), ..m },
    }
}

/// The commands from index `j` on, until one stops the line.
pub open spec fn run_commands(cmds: Seq<Command>, j: int, n: nat, m: Machine) -> Machine
    decreases cmds, 0nat, cmds.len() - j,
{
    if j < 0 || j >= cmds.len() || m.signal != Signal::Continue {
        m
    } else {
        run_commands(cmds, j + 1, n, exec_command(cmds[j], n, m))
    }
}

/// The instructions from index `i` on, until a command stops the line: each
/// address is tested on the working line as it stands, and its commands run
/// when it selects the line.
pub open spec fn run_instructions(instrs: Seq<Instruction>, i: int, n: nat, m: Machine) -> Machine
    decreases instrs, 0nat, instrs.len() - i,
{
    if i < 0 || i >= instrs.len() || m.signal != Signal::Continue {
        m
    } else {
        let a = instrs[i].address;
        let selected = a.selects(m.open, n, m.working);
        let m1 = Machine { open: a.advance(m.open, n, m.working), ..m };
        let m2 = if selected {
            run_commands(instrs[i].commands@, 0, n, Machine { matched: true, ..m1 })
        } else {
            m1
        };
        run_instructions(instrs, i + 1, n, m2)
    }
}

/// A loop with `rounds` rounds left. Each round runs the body on the working
/// line; a break ends the round only, a delete or a quit ends the line. The
/// loop ends after a round that leaves the working line as it found it, or
/// when no round is left.
pub open spec fn run_loop(body: Seq<Instruction>, rounds: nat, n: nat, m: Machine) -> Machine
    decreases body, 1nat, rounds,
{
    if rounds == 0 {
        m
    } else {
        let m1 = run_instructions(body, 0, n, m);
        if m1.signal is Delete || m1.signal is Quit {
            m1
        } else {
            let m2 = Machine { signal: Signal::Continue, ..m1 };
            if m2.working == m.working {
                m2
            } else {
                run_loop(body, (rounds - 1) as nat, n, m2)
            }
        }
    }
}

/// The interpreter's buffers while it works on one line.
struct Buffers {
    working: String,
    hold: String,
    printed: String,
    requests: Vec<Request>,
    open: Vec<bool>,
    signal: Signal,
    matched: bool,
}

impl View for Buffers {
    type V = Machine;

    closed spec fn view(&self) -> Machine {
        Machine {
            working: self.working@,
            hold: self.hold@,
            printed: self.printed@,
            requests: self.requests@,
            open: self.open@,
            signal: self.signal,
            matched: self.matched,
        }
    }
}

fn keep(s: &String, start: usize, len: Option<usize>) -> (r: String)
    ensures
        r@ == keep_columns(s@, start as nat, len),
{
    let chars = string_chars(s.as_str());
    let lo = if start <= chars.len() { start } else { chars.len() };
    let hi = match len {
        Some(l) => if l <= chars.len() - lo && start <= chars.len() { lo + l } else { chars.len() },
        None => chars.len(),
    };
    let mut kept: Vec<char> = Vec::new();
    let mut i: usize = lo;
    while i < hi
        invariant
            lo <= i <= hi <= chars@.len(),
            kept@ == chars@.subrange(lo as int, i as int),
        decreases hi - i,
    {
        kept.push(chars[i]);
        i = i + 1;
        assert(kept@ =~= chars@.subrange(lo as int, i as int));
    }
    chars_string(&kept)
}

fn exec_one(c: &Command, n: usize, st: &mut Buffers)
    ensures
        final(st)@ == exec_command(*c, n as nat, old(st)@),
    decreases *c,
{
    let ghost m = st@;
    match c {
        Command::Println => {
            let w = st.working.clone();
            append(&mut st.printed, w.as_str());
            append(&mut st.printed, "\n");
            proof {
                reveal_strlit("\n");
                assert(st.printed@ =~= m.printed + m.working.push('\n'));
            }
        },
        Command::Print => {
            let w = st.working.clone();
            append(&mut st.printed, w.as_str());
        },
        Command::Escapeln => {
            let e = escape_text(st.working.as_str());
            append(&mut st.printed, e.as_str());
            append(&mut st.printed, "\n");
            proof {
                reveal_strlit("\n");
                assert(st.printed@ =~= m.printed + escaped(m.working).push('\n'));
            }
        },
        Command::LineNumber => {
            let d = usize_decimal(n);
            append(&mut st.printed, d.as_str());
        },
        Command::Insert(s) => {
            append(&mut st.printed, s.as_str());
        },
        Command::Substitute(r) => {
            st.working = r.replace(st.working.as_str());
        },
        Command::Keep(start, len) => {
            st.working = keep(&st.working, *start, *len);
        },
        Command::Hold => {
            st.hold = st.working.clone();
        },
        Command::Get => {
            st.working = st.hold.clone();
        },
        Command::Exchange => {
            let w = st.working.clone();
            st.working = st.hold.clone();
            st.hold = w;
        },
        Command::Reset => {
            st.working = String::new();
        },
        Command::Delete => {
            st.signal = Signal::Delete;
        },
        Command::Break => {
            st.signal = Signal::Break;
        },
        Command::Quit(code) => {
            st.signal = Signal::Quit(*code);
        },
        Command::Loop(body) => {
            run_body(body, n, st);
        },
        Command::Joinln => {
            st.requests.push(Request::Joinln);
        },
        Command::Join => {
            st.requests.push(Request::Join);
        },
        Command::Eval => {
            st.requests.push(Request::Eval);
        },
        Command::Readln(k) => {
            st.requests.push(Request::Readln(*k));
        },
        Command::ReadReplace => {
            st.requests.push(Request::ReadReplace);
        },
    }
}

fn run_body(body: &Vec<Instruction>, n: usize, st: &mut Buffers)
    ensures
        final(st)@ == run_loop(body@, LOOP_ROUNDS as nat, n as nat, old(st)@),
    decreases *body, 1nat,
{
    let ghost m0 = st@;
    let mut left: usize = LOOP_ROUNDS;
    let mut done = false;
    while !done
        invariant
            !done ==> run_loop(body@, LOOP_ROUNDS as nat, n as nat, m0) == run_loop(body@, left as nat, n as nat, st@),
            done ==> st@ == run_loop(body@, LOOP_ROUNDS as nat, n as nat, m0),
        decreases left + (if done { 0int } else { 1int }),
    {
        if left == 0 {
            done = true;
        } else {
            let ghost prev = st@;
            let before = st.working.clone();
            proof { assert(decreases_to!(*body => body@)); }
            run_list(body, n, st);
            match st.signal {
                Signal::Delete | Signal::Quit(_) => {
                    done = true;
                },
                _ => {
                    st.signal = Signal::Continue;
                    if st.working == before {
                        done = true;
                    } else {
                        left = left - 1;
                    }
                },
            }
        }
    }
}

fn run_list(instrs: &Vec<Instruction>, n: usize, st: &mut Buffers)
    ensures
        final(st)@ == run_instructions(instrs@, 0, n as nat, old(st)@),
    decreases *instrs, 0nat,
{
    let ghost m0 = st@;
    let mut i: usize = 0;
    while i < instrs.len() && st.signal == Signal::Continue
        invariant
            i <= instrs@.len(),
            run_instructions(instrs@, 0, n as nat, m0) == run_instructions(instrs@, i as int, n as nat, st@),
        decreases instrs@.len() - i,
    {
        let line = Line(n, st.working.clone());
        let selected = instrs[i].address.matches(&mut st.open, &line);
        if selected {
            st.matched = true;
            proof {
                assert(decreases_to!(*instrs => instrs@));
                assert(decreases_to!(instrs@ => instrs@[i as int]));
                assert(decreases_to!(instrs@[i as int] => instrs@[i as int].commands));
            }
            run_commands_exec(&instrs[i].commands, n, st);
        }
        i = i + 1;
    }
}

fn run_commands_exec(cmds: &Vec<Command>, n: usize, st: &mut Buffers)
    ensures
        final(st)@ == run_commands(cmds@, 0, n as nat, old(st)@),
    decreases *cmds, 0nat,
{
    let ghost m0 = st@;
    let mut j: usize = 0;
    while j < cmds.len() && st.signal == Signal::Continue
        invariant
            j <= cmds@.len(),
            run_commands(cmds@, 0, n as nat, m0) == run_commands(cmds@, j as int, n as nat, st@),
        decreases cmds@.len() - j,
    {
        proof {
            assert(decreases_to!(*cmds => cmds@));
            assert(decreases_to!(cmds@ => cmds@[j as int]));
        }
        exec_one(&cmds[j], n, st);
        j = j + 1;
    }
}

/// A parsed script, ready to run over the lines of a stream.
#[derive(Debug)]
pub struct Editor {
    pub(crate) instructions: Vec<Instruction>,
    pub(crate) open: Vec<bool>,
    pub(crate) counter: usize,
    hold: String,
}

/// The state in which the script meets line `n`.
pub open spec fn start_machine(line: Seq<char>, hold: Seq<char>, open: Seq<bool>) -> Machine {
    Machine {
        working: line,
        hold: hold,
        printed: Seq::empty(),
        requests: Seq::empty(),
        open: open,
        signal: Signal::Continue,
        matched: false,
    }
}

impl Editor {
    /// The instructions, in order.
    pub closed spec fn program(&self) -> Seq<Instruction> {
        self.instructions@
    }

    /// The open/closed state of each range.
    pub closed spec fn ranges(&self) -> Seq<bool> {
        self.open@
    }

    /// How many lines were applied.
    pub closed spec fn lines_seen(&self) -> nat {
        self.counter as nat
    }

    /// The hold register.
    pub closed spec fn held(&self) -> Seq<char> {
        self.hold@
    }

    /// What running the script on `line` as the next line gives.
    pub open spec fn run(&self, line: Seq<char>) -> Machine {
        run_instructions(self.program(), 0, self.lines_seen() + 1,
            start_machine(line, self.held(), self.ranges()))
    }

    /// An editor that has seen no line, with an empty hold register and
    /// `ranges` closed ranges.
    pub fn new(instructions: Vec<Instruction>, ranges: usize) -> (r: Editor)
        ensures
            r.program() == instructions@,
            r.ranges() == Seq::new(ranges as nat, |i: int| false),
            r.lines_seen() == 0,
            r.held() == Seq::<char>::empty(),
    {
        let mut open: Vec<bool> = Vec::new();
        let mut i: usize = 0;
        while i < ranges
            invariant
                i <= ranges,
                open@ == Seq::new(i as nat, |k: int| false),
            decreases ranges - i,
        {
            open.push(false);
            i = i + 1;
            assert(open@ =~= Seq::new(i as nat, |k: int| false));
        }
        Editor { instructions, open, counter: 0, hold: String::new() }
    }

    /// The number of lines applied so far.
    pub fn line_count(&self) -> (r: usize)
        ensures
            r == self.lines_seen(),
    {
        self.counter
    }

    /// Runs the script on the next line: `None` when no instruction selected
    /// it, else the working line, how the commands ended and what they
    /// emitted. The line counter, the hold register and the range states
    /// move on in either case.
    pub fn apply(&mut self, line: &str) -> (r: Option<Outcome>)
        requires
            old(self).lines_seen() < usize::MAX,
        ensures
            final(self).lines_seen() == old(self).lines_seen() + 1,
            final(self).program() == old(self).program(),
            final(self).held() == old(self).run(line@).hold,
            final(self).ranges() == old(self).run(line@).open,
            r is None <==> !old(self).run(line@).matched,
            r matches Some(o) ==> {
                &&& o.line@ == old(self).run(line@).working
                &&& o.signal == old(self).run(line@).signal
                &&& o.printed@ == old(self).run(line@).printed
                &&& o.requests@ == old(self).run(line@).requests
            },
    {
        self.counter = self.counter + 1;
        let mut open: Vec<bool> = Vec::new();
        std::mem::swap(&mut open, &mut self.open);
        let mut hold = String::new();
        std::mem::swap(&mut hold, &mut self.hold);
        let mut st = Buffers {
            working: line.to_string(),
            hold,
            printed: String::new(),
            requests: Vec::new(),
            open,
            signal: Signal::Continue,
            matched: false,
        };
        run_list(&self.instructions, self.counter, &mut st);
        self.open = st.open;
        self.hold = st.hold;
        if st.matched {
            Some(Outcome { line: st.working, signal: st.signal, printed: st.printed, requests: st.requests })
        } else {
            None
        }
    }
}

} // verus!
