//! Addresses: predicates that select input lines. Ranges carry an open or
//! closed state from one line to the next; that state lives outside the
//! address tree, in a table indexed by each range's number, so that a parsed
//! script stays immutable.
use vstd::prelude::*;

use crate::pattern::{finds, Pattern};
use crate::text::{append, decimal, usize_decimal};
use crate::Line;

verus! {

broadcast use vstd::std_specs::vec::axiom_vec_decreases_to_view, vstd::seq::axiom_seq_index_decreases;

/// A line selector.
#[derive(Debug)]
pub enum Address {
    /// Selects every line.
    Always,
    /// Selects no line.
    Never,
    /// Selects the line with this 1-based number.
    Location(usize),
    /// Selects the lines whose content the pattern matches.
    Regex(Pattern),
    /// Selects the lines the inner address does not.
    Negate(Box<Address>),
    /// An inclusive range from a line selected by the lower address to the
    /// next line selected by the upper one. The number indexes the range's
    /// open/closed flag in the state table.
    Between(Box<Address>, Box<Address>, usize),
    /// Selects the lines that any member selects.
    AnyOf(Vec<Address>),
}

/// Whether range `id` is open; a number outside the table reads as closed.
pub open spec fn flag(open: Seq<bool>, id: usize) -> bool {
    id < open.len() && open[id as int]
}

/// The table with range `id` set to `v`; a number outside the table changes
/// nothing.
pub open spec fn set_flag(open: Seq<bool>, id: usize, v: bool) -> Seq<bool> {
    if id < open.len() { open.update(id as int, v) } else { open }
}

/// Whether a member of a set must be evaluated on every line: a range, or
/// the negation of a range.
pub open spec fn is_stateful(a: Address) -> bool {
    match a {
        Address::Between(_, _, _) => true,
        Address::Negate(inner) => *inner is Between,
        _ => false,
    }
}

/// The negation of an address, simplified: a negation is unwrapped and
/// `Always` and `Never` trade places.
pub open spec fn negation(a: Address) -> Address {
    match a {
        Address::Negate(inner) => *inner,
        Address::Always => Address::Never,
        Address::Never => Address::Always,
        _ => Address::Negate(Box::new(a)),
    }
}

impl Address {
    /// Whether the address selects line `n` with content `text` while the
    /// ranges are open or closed as `open` says.
    pub open spec fn selects(self, open: Seq<bool>, n: nat, text: Seq<char>) -> bool
        decreases self, 0nat,
    {
        match self {
            Address::Always => true,
            Address::Never => false,
            Address::Location(k) => k == n,
            Address::Regex(p) => finds(p@, text),
            Address::Negate(inner) => !(*inner).selects(open, n, text),
            Address::Between(lo, _, id) => flag(open, id) || (*lo).selects(open, n, text),
            Address::AnyOf(members) => set_eval(members@, 0, false, open, n, text).0,
        }
    }

    /// The range states after the address has seen line `n` with content
    /// `text`. A closed range tests its lower bound; when that opens it, or
    /// when it was open already, the upper bound is tested on the same line
    /// and a match closes the range.
    pub open spec fn advance(self, open: Seq<bool>, n: nat, text: Seq<char>) -> Seq<bool>
        decreases self, 0nat,
    {
        match self {
            Address::Negate(inner) => (*inner).advance(open, n, text),
            Address::Between(lo, hi, id) => {
                if flag(open, id) {
                    let s1 = (*hi).advance(open, n, text);
                    if (*hi).selects(open, n, text) { set_flag(s1, id, false) } else { s1 }
                } else if (*lo).selects(open, n, text) {
                    let s1 = (*lo).advance(open, n, text);
                    let s2 = (*hi).advance(s1, n, text);
                    if (*hi).selects(s1, n, text) { s2 } else { set_flag(s2, id, true) }
                } else {
                    (*lo).advance(open, n, text)
                }
            },
            Address::AnyOf(members) => set_eval(members@, 0, false, open, n, text).1,
            _ => open,
        }
    }

    /// Every `Location` carries a line number of at least 1, and no
    /// negation wraps `Always`, `Never` or another negation, as the parser
    /// builds them.
    pub open spec fn wf(self) -> bool
        decreases self,
    {
        match self {
            Address::Location(k) => k >= 1,
            Address::Negate(inner) => !(*inner is Always || *inner is Never || *inner is Negate) && (*inner).wf(),
            Address::Between(lo, hi, _) => (*lo).wf() && (*hi).wf(),
            Address::AnyOf(members) => all_wf(members@, members@.len() as int),
            _ => true,
        }
    }
}

/// Whether the members before index `k` are well formed.
pub open spec fn all_wf(members: Seq<Address>, k: int) -> bool
    decreases members, k,
{
    if k <= 0 || k > members.len() {
        true
    } else {
        all_wf(members, k - 1) && members[k - 1].wf()
    }
}

/// `all_wf` holds of the members before `k` exactly when each is well formed.
pub proof fn lemma_all_wf_forall(members: Seq<Address>, k: int)
    requires
        0 <= k <= members.len(),
        all_wf(members, k),
    ensures
        forall|j: int| 0 <= j < k ==> #[trigger] members[j].wf(),
    decreases k,
{
    if k > 0 {
        lemma_all_wf_forall(members, k - 1);
    }
}

/// The converse of `lemma_all_wf_forall`.
pub proof fn lemma_all_wf_exists(members: Seq<Address>, k: int)
    requires
        0 <= k <= members.len(),
        forall|j: int| 0 <= j < k ==> #[trigger] members[j].wf(),
    ensures
        all_wf(members, k),
    decreases k,
{
    if k > 0 {
        lemma_all_wf_exists(members, k - 1);
        assert(members[k - 1].wf());
    }
}

/// The members of a set from index `i` on, tried left to right once `ok`
/// says whether an earlier member selected the line: whether any member
/// selected it, and the range states afterwards. Once a member has selected
/// the line, only stateful members are still evaluated.
pub open spec fn set_eval(members: Seq<Address>, i: int, ok: bool, open: Seq<bool>, n: nat, text: Seq<char>) -> (bool, Seq<bool>)
    decreases members, members.len() - i,
{
    if i < 0 || i >= members.len() {
        (ok, open)
    } else if ok && !is_stateful(members[i]) {
        set_eval(members, i + 1, ok, open, n, text)
    } else {
        let m = members[i].selects(open, n, text);
        set_eval(members, i + 1, ok || m, members[i].advance(open, n, text), n, text)
    }
}

impl Address {
    /// Tests `line`, and moves the range states in `open` past it.
    pub fn matches(&self, open: &mut Vec<bool>, line: &Line) -> (r: bool)
        ensures
            r == self.selects(old(open)@, line.0 as nat, line.1@),
            final(open)@ == self.advance(old(open)@, line.0 as nat, line.1@),
        decreases self,
    {
        match self {
            Address::Always => true,
            Address::Never => false,
            Address::Location(k) => *k == line.0,
            Address::Regex(p) => p.is_match(line.1.as_str()),
            Address::Negate(inner) => !inner.matches(open, line),
            Address::Between(lo, hi, id) => {
                let id = *id;
                if id < open.len() && open[id] {
                    if hi.matches(open, line) {
                        if id < open.len() {
                            open.set(id, false);
                        }
                    }
                    true
                } else if lo.matches(open, line) {
                    if !hi.matches(open, line) {
                        if id < open.len() {
                            open.set(id, true);
                        }
                    }
                    true
                } else {
                    false
                }
            },
            Address::AnyOf(members) => match_members(members, open, line),
        }
    }

    /// The negation of the address, simplified as `negation` says.
    pub fn negate(self) -> (r: Address)
        ensures
            r == negation(self),
    {
        match self {
            Address::Negate(inner) => *inner,
            Address::Always => Address::Never,
            Address::Never => Address::Always,
            other => Address::Negate(Box::new(other)),
        }
    }
}

/// Tests `line` against the members of a set, left to right, skipping the
/// members that need not be evaluated once one has matched.
fn match_members(members: &Vec<Address>, open: &mut Vec<bool>, line: &Line) -> (r: bool)
    ensures
        r == set_eval(members@, 0, false, old(open)@, line.0 as nat, line.1@).0,
        final(open)@ == set_eval(members@, 0, false, old(open)@, line.0 as nat, line.1@).1,
    decreases *members,
{
    let ghost n = line.0 as nat;
    let ghost text = line.1@;
    let mut ok = false;
    let mut i: usize = 0;
    while i < members.len()
        invariant
            n == line.0 as nat,
            text == line.1@,
            i <= members@.len(),
            set_eval(members@, 0, false, old(open)@, n, text)
                == set_eval(members@, i as int, ok, open@, n, text),
        decreases members@.len() - i,
    {
        if !ok || is_stateful_member(&members[i]) {
            proof {
                assert(decreases_to!(*members => members@));
                assert(decreases_to!(members@ => members@[i as int]));
            }
            if members[i].matches(open, line) {
                ok = true;
            }
        }
        i = i + 1;
    }
    ok
}

/// Whether a set member is a range or the negation of one.
fn is_stateful_member(a: &Address) -> (r: bool)
    ensures
        r == is_stateful(*a),
{
    match a {
        Address::Between(_, _, _) => true,
        Address::Negate(inner) => match &**inner {
            Address::Between(_, _, _) => true,
            _ => false,
        },
        _ => false,
    }
}

/// Whether the range numbered `id` occurs in the address.
pub open spec fn has_range(a: Address, id: usize) -> bool
    decreases a,
{
    match a {
        Address::Negate(inner) => has_range(*inner, id),
        Address::Between(lo, hi, k) => k == id || has_range(*lo, id) || has_range(*hi, id),
        Address::AnyOf(members) => has_range_before(members@, members@.len() as int, id),
        _ => false,
    }
}

/// Whether the range numbered `id` occurs in a member before index `k`.
pub open spec fn has_range_before(members: Seq<Address>, k: int, id: usize) -> bool
    decreases members, k,
{
    if k <= 0 || k > members.len() {
        false
    } else {
        has_range_before(members, k - 1, id) || has_range(members[k - 1], id)
    }
}

/// An address leaves the state of every range it does not hold untouched.
pub proof fn lemma_advance_keeps_other_ranges(a: Address, open: Seq<bool>, n: nat, text: Seq<char>, id: usize)
    requires
        !has_range(a, id),
    ensures
        flag(a.advance(open, n, text), id) == flag(open, id),
    decreases a, 0nat,
{
    match a {
        Address::Negate(inner) => lemma_advance_keeps_other_ranges(*inner, open, n, text, id),
        Address::Between(lo, hi, k) => {
            lemma_advance_keeps_other_ranges(*lo, open, n, text, id);
            lemma_advance_keeps_other_ranges(*hi, open, n, text, id);
            lemma_advance_keeps_other_ranges(*hi, lo.advance(open, n, text), n, text, id);
        },
        Address::AnyOf(members) => lemma_set_keeps_other_ranges(members@, 0, false, open, n, text, id),
        _ => {},
    }
}

proof fn lemma_set_keeps_other_ranges(members: Seq<Address>, i: int, ok: bool, open: Seq<bool>, n: nat, text: Seq<char>, id: usize)
    requires
        !has_range_before(members, members.len() as int, id),
    ensures
        flag(set_eval(members, i, ok, open, n, text).1, id) == flag(open, id),
    decreases members, members.len() - i,
{
    if 0 <= i < members.len() {
        lemma_not_in_member(members, members.len() as int, i, id);
        if ok && !is_stateful(members[i]) {
            lemma_set_keeps_other_ranges(members, i + 1, ok, open, n, text, id);
        } else {
            lemma_advance_keeps_other_ranges(members[i], open, n, text, id);
            lemma_set_keeps_other_ranges(members, i + 1, ok || members[i].selects(open, n, text),
                members[i].advance(open, n, text), n, text, id);
        }
    }
}

proof fn lemma_not_in_member(members: Seq<Address>, k: int, i: int, id: usize)
    requires
        0 <= i < k <= members.len(),
        !has_range_before(members, k, id),
    ensures
        !has_range(members[i], id),
    decreases k,
{
    if i < k - 1 {
        lemma_not_in_member(members, k - 1, i, id);
    }
}

/// A location `k` (at least 1) selects line `k` and no other line, and
/// leaves every range state as it was.
pub proof fn lemma_location_selects_its_line(k: usize, open: Seq<bool>, n: nat, text: Seq<char>)
    requires
        k >= 1,
    ensures
        Address::Location(k).selects(open, n, text) <==> n == k,
        Address::Location(k).advance(open, n, text) == open,
{
}

/// A negation that `negation` would have simplified: one of `Always`,
/// `Never` or another negation. The parser never builds one.
pub open spec fn is_redundant_negation(a: Address) -> bool {
    match a {
        Address::Negate(inner) => *inner is Always || *inner is Never || *inner is Negate,
        _ => false,
    }
}

/// Negating twice gives back the address, unless the address is itself a
/// negation that would have been simplified away.
pub proof fn lemma_negation_involutive(a: Address)
    requires
        !is_redundant_negation(a),
    ensures
        negation(negation(a)) == a,
{
}

/// A well-formed address is never such a negation, and its negation is well
/// formed again: negating twice gives back every address the parser builds.
pub proof fn lemma_negation_keeps_wf(a: Address)
    requires
        a.wf(),
    ensures
        !is_redundant_negation(a),
        negation(a).wf(),
        negation(negation(a)) == a,
{
}

/// The negation of an address selects exactly the lines that the address
/// does not select, and moves the range states in the same way.
pub proof fn lemma_negation_selects(a: Address, open: Seq<bool>, n: nat, text: Seq<char>)
    ensures
        negation(a).selects(open, n, text) == !a.selects(open, n, text),
        negation(a).advance(open, n, text) == a.advance(open, n, text),
{
}

/// A closed range whose lower and upper bounds both select the same line
/// selects that line and is closed again afterwards.
pub proof fn lemma_one_line_range(lo: Box<Address>, hi: Box<Address>, id: usize, open: Seq<bool>, n: nat, text: Seq<char>)
    requires
        !flag(open, id),
        !has_range(*lo, id),
        !has_range(*hi, id),
        lo.selects(open, n, text),
        hi.selects(lo.advance(open, n, text), n, text),
    ensures
        Address::Between(lo, hi, id).selects(open, n, text),
        !flag(Address::Between(lo, hi, id).advance(open, n, text), id),
{
    lemma_advance_keeps_other_ranges(*lo, open, n, text, id);
    lemma_advance_keeps_other_ranges(*hi, lo.advance(open, n, text), n, text, id);
}

/// A closed range whose lower bound does not select a line does not select
/// it and stays closed: only a match of the lower bound opens it.
pub proof fn lemma_closed_range_waits(lo: Box<Address>, hi: Box<Address>, id: usize, open: Seq<bool>, n: nat, text: Seq<char>)
    requires
        !flag(open, id),
        !has_range(*lo, id),
        !lo.selects(open, n, text),
    ensures
        !Address::Between(lo, hi, id).selects(open, n, text),
        !flag(Address::Between(lo, hi, id).advance(open, n, text), id),
{
    lemma_advance_keeps_other_ranges(*lo, open, n, text, id);
}

/// An open range selects every line, and closes exactly when its upper
/// bound selects the line.
pub proof fn lemma_open_range(lo: Box<Address>, hi: Box<Address>, id: usize, open: Seq<bool>, n: nat, text: Seq<char>)
    requires
        flag(open, id),
        !has_range(*hi, id),
    ensures
        Address::Between(lo, hi, id).selects(open, n, text),
        flag(Address::Between(lo, hi, id).advance(open, n, text), id) == !hi.selects(open, n, text),
{
    lemma_advance_keeps_other_ranges(*hi, open, n, text, id);
}

/// A range member of a set, or a negated one, is evaluated and advances on
/// every line, whether or not an earlier member already selected the line.
pub proof fn lemma_set_always_advances_ranges(members: Seq<Address>, i: int, ok: bool, open: Seq<bool>, n: nat, text: Seq<char>)
    requires
        0 <= i < members.len(),
        is_stateful(members[i]),
    ensures
        set_eval(members, i, ok, open, n, text) == set_eval(members, i + 1,
            ok || members[i].selects(open, n, text), members[i].advance(open, n, text), n, text),
{
}

/// How an address is written: `*`, `$`, a line number, `/pattern/`, a
/// negation with a trailing `!`, a range `lo-hi`, or set members joined by
/// `, `.
pub open spec fn address_text(a: Address) -> Seq<char>
    decreases a, 0nat,
{
    match a {
        Address::Always => seq!['*'],
        Address::Never => seq!['$'],
        Address::Location(k) => decimal(k as nat),
        Address::Regex(p) => seq!['/'] + p@ + seq!['/'],
        Address::Negate(inner) => address_text(*inner).push('!'),
        Address::Between(lo, hi, _) => address_text(*lo) + seq!['-'] + address_text(*hi),
        Address::AnyOf(members) => members_text(members@, members@.len() as int),
    }
}

/// The first `k` members written one after the other, separated by `, `.
pub open spec fn members_text(members: Seq<Address>, k: int) -> Seq<char>
    decreases members, k,
{
    if k <= 0 || k > members.len() {
        Seq::empty()
    } else if k == 1 {
        address_text(members[0])
    } else {
        members_text(members, k - 1) + seq![',', ' '] + address_text(members[k - 1])
    }
}

impl Address {
    /// The address written as a script would write it.
    pub fn to_text(&self) -> (r: String)
        ensures
            r@ == address_text(*self),
        decreases self,
    {
        match self {
            Address::Always => {
                let mut t = String::new();
                append(&mut t, "*");
                proof { reveal_strlit("*"); assert(t@ =~= seq!['*']); }
                t
            },
            Address::Never => {
                let mut t = String::new();
                append(&mut t, "$");
                proof { reveal_strlit("$"); assert(t@ =~= seq!['$']); }
                t
            },
            Address::Location(k) => usize_decimal(*k),
            Address::Regex(p) => {
                let mut t = String::new();
                append(&mut t, "/");
                append(&mut t, p.as_str());
                append(&mut t, "/");
                proof { reveal_strlit("/"); assert(t@ =~= seq!['/'] + p@ + seq!['/']); }
                t
            },
            Address::Negate(inner) => {
                let mut t = inner.to_text();
                append(&mut t, "!");
                proof { reveal_strlit("!"); assert(t@ =~= address_text(**inner).push('!')); }
                t
            },
            Address::Between(lo, hi, _) => {
                let mut t = lo.to_text();
                append(&mut t, "-");
                let h = hi.to_text();
                append(&mut t, h.as_str());
                proof { reveal_strlit("-"); assert(t@ =~= address_text(**lo) + seq!['-'] + address_text(**hi)); }
                t
            },
            Address::AnyOf(members) => members_to_text(members),
        }
    }
}

fn members_to_text(members: &Vec<Address>) -> (r: String)
    ensures
        r@ == members_text(members@, members@.len() as int),
    decreases *members,
{
    let mut t = String::new();
    let mut i: usize = 0;
    while i < members.len()
        invariant
            i <= members@.len(),
            t@ == members_text(members@, i as int),
        decreases members@.len() - i,
    {
        proof {
            assert(decreases_to!(*members => members@));
            assert(decreases_to!(members@ => members@[i as int]));
        }
        let m = members[i].to_text();
        if i == 0 {
            t = m;
        } else {
            append(&mut t, ", ");
            append(&mut t, m.as_str());
            proof { reveal_strlit(", "); }
        }
        i = i + 1;
    }
    t
}

} // verus!
