//! Shapes: what a parsed script is, as plain values. Patterns are shown by
//! their text, strings by their characters.
use vstd::prelude::*;

use crate::address::{negation, Address};
use crate::command::Command;
use crate::editor::Instruction;
use crate::parser::spliced;
use crate::Error;

verus! {

broadcast use vstd::std_specs::vec::axiom_vec_decreases_to_view, vstd::seq::axiom_seq_index_decreases;

/// The shape of an address.
pub enum AShape {
    Always,
    Never,
    Location(nat),
    Regex(Seq<char>),
    Negate(Box<AShape>),
    Between(Box<AShape>, Box<AShape>, nat),
    AnyOf(Seq<AShape>),
}

/// A parse error, as plain values.
pub enum PErr {
    Regex,
    ParseInt(Seq<char>),
    Missing(char),
    Unexpected(char),
    InvalidAddr(Seq<char>),
    Parsing(Seq<char>),
}

/// Whether `e` is the error `p`.
pub open spec fn err_is(e: Error, p: PErr) -> bool {
    match p {
        PErr::Regex => e is Regex,
        PErr::ParseInt(t) => e matches Error::ParseInt(m) && m@ == t,
        PErr::Missing(c) => e == Error::Missing(c),
        PErr::Unexpected(c) => e == Error::Unexpected(c),
        PErr::InvalidAddr(t) => e matches Error::InvalidAddr(m) && m@ == t,
        PErr::Parsing(t) => e matches Error::ParsingError(m) && m@ == t,
    }
}

/// What a grammar rule gives: a value, the text left and the ranges
/// numbered by then; or an error.
pub enum Parsed<T> {
    Done(T, Seq<char>, nat),
    Fail(PErr),
}

/// The shape of an address.
pub open spec fn shape(a: Address) -> AShape
    decreases a, 0nat,
{
    match a {
        Address::Always => AShape::Always,
        Address::Never => AShape::Never,
        Address::Location(k) => AShape::Location(k as nat),
        Address::Regex(p) => AShape::Regex(p@),
        Address::Negate(inner) => AShape::Negate(Box::new(shape(*inner))),
        Address::Between(lo, hi, id) => AShape::Between(Box::new(shape(*lo)), Box::new(shape(*hi)), id as nat),
        Address::AnyOf(members) => AShape::AnyOf(shapes(members@, members@.len() as int)),
    }
}

/// The shapes of the first `k` addresses.
pub open spec fn shapes(ms: Seq<Address>, k: int) -> Seq<AShape>
    decreases ms, k,
{
    if k <= 0 || k > ms.len() {
        Seq::empty()
    } else {
        shapes(ms, k - 1).push(shape(ms[k - 1]))
    }
}

pub proof fn lemma_shapes_index(ms: Seq<Address>, k: int)
    requires
        0 <= k <= ms.len(),
    ensures
        shapes(ms, k).len() == k,
        forall|i: int| 0 <= i < k ==> #[trigger] shapes(ms, k)[i] == shape(ms[i]),
    decreases k,
{
    if k > 0 {
        lemma_shapes_index(ms, k - 1);
    }
}

/// The shape of the negation of an address.
pub open spec fn neg_shape(a: AShape) -> AShape {
    match a {
        AShape::Negate(inner) => *inner,
        AShape::Always => AShape::Never,
        AShape::Never => AShape::Always,
        _ => AShape::Negate(Box::new(a)),
    }
}

pub proof fn lemma_negation_shape(a: Address)
    ensures
        shape(negation(a)) == neg_shape(shape(a)),
{
}

/// The members a list of term shapes contributes to a set.
pub open spec fn spliced_shapes(terms: Seq<AShape>) -> Seq<AShape>
    decreases terms.len(),
{
    if terms.len() == 0 {
        Seq::empty()
    } else {
        spliced_shapes(terms.drop_last()) + match terms.last() {
            AShape::AnyOf(members) => members,
            t => seq![t],
        }
    }
}

/// The address that a list of term shapes stands for: `Always` when a term
/// is `Always`, else the spliced members, one member standing for itself.
pub open spec fn flat_shape(terms: Seq<AShape>) -> AShape {
    if exists|i: int| 0 <= i < terms.len() && #[trigger] terms[i] is Always {
        AShape::Always
    } else if spliced_shapes(terms).len() == 1 {
        spliced_shapes(terms)[0]
    } else {
        AShape::AnyOf(spliced_shapes(terms))
    }
}

pub proof fn lemma_spliced_shapes(terms: Seq<Address>)
    ensures
        shapes(spliced(terms), spliced(terms).len() as int)
            == spliced_shapes(shapes(terms, terms.len() as int)),
    decreases terms.len(),
{
    let sp = spliced(terms);
    lemma_shapes_index(terms, terms.len() as int);
    lemma_shapes_index(sp, sp.len() as int);
    if terms.len() > 0 {
        let init = terms.drop_last();
        lemma_spliced_shapes(init);
        let sh = shapes(terms, terms.len() as int);
        lemma_shapes_index(init, init.len() as int);
        assert(sh.drop_last() =~= shapes(init, init.len() as int));
        let spi = spliced(init);
        lemma_shapes_index(spi, spi.len() as int);
        let piece = match terms.last() {
            Address::AnyOf(members) => members@,
            t => seq![t],
        };
        assert(sp == spi + piece);
        lemma_shapes_index(piece, piece.len() as int);
        let spiece = match sh.last() {
            AShape::AnyOf(members) => members,
            t => seq![t],
        };
        assert(sh.last() == shape(terms.last()));
        assert(spiece =~= shapes(piece, piece.len() as int));
        assert(shapes(sp, sp.len() as int) =~= shapes(spi, spi.len() as int) + shapes(piece, piece.len() as int));
    }
}

/// The shape of a command.
pub enum CShape {
    Println,
    Print,
    Escapeln,
    LineNumber,
    Insert(Seq<char>),
    Substitute(Seq<char>, Seq<char>, nat),
    Keep(nat, Option<nat>),
    Hold,
    Get,
    Exchange,
    Reset,
    Joinln,
    Join,
    Eval,
    Readln(nat),
    ReadReplace,
    Delete,
    Break,
    Quit(int),
    Loop(Seq<IShape>),
}

/// The shape of an instruction.
pub struct IShape {
    pub addr: AShape,
    pub cmds: Seq<CShape>,
}

/// The shape of a command.
pub open spec fn cshape(c: Command) -> CShape
    decreases c, 0nat,
{
    match c {
        Command::Println => CShape::Println,
        Command::Print => CShape::Print,
        Command::Escapeln => CShape::Escapeln,
        Command::LineNumber => CShape::LineNumber,
        Command::Insert(t) => CShape::Insert(t@),
        Command::Substitute(rp) => CShape::Substitute(rp.regex@, rp.template@, rp.limit as nat),
        Command::Keep(a, len) => CShape::Keep(a as nat, match len { Some(l) => Some(l as nat), None => None }),
        Command::Hold => CShape::Hold,
        Command::Get => CShape::Get,
        Command::Exchange => CShape::Exchange,
        Command::Reset => CShape::Reset,
        Command::Joinln => CShape::Joinln,
        Command::Join => CShape::Join,
        Command::Eval => CShape::Eval,
        Command::Readln(k) => CShape::Readln(k as nat),
        Command::ReadReplace => CShape::ReadReplace,
        Command::Delete => CShape::Delete,
        Command::Break => CShape::Break,
        Command::Quit(code) => CShape::Quit(code as int),
        Command::Loop(body) => CShape::Loop(ishapes(body@, body@.len() as int)),
    }
}

/// The shapes of the first `k` commands.
pub open spec fn cshapes(cs: Seq<Command>, k: int) -> Seq<CShape>
    decreases cs, k,
{
    if k <= 0 || k > cs.len() {
        Seq::empty()
    } else {
        cshapes(cs, k - 1).push(cshape(cs[k - 1]))
    }
}

/// The shape of an instruction.
pub open spec fn ishape(i: Instruction) -> IShape
    decreases i, 0nat,
{
    IShape { addr: shape(i.address), cmds: cshapes(i.commands@, i.commands@.len() as int) }
}

/// The shapes of the first `k` instructions.
pub open spec fn ishapes(is: Seq<Instruction>, k: int) -> Seq<IShape>
    decreases is, k,
{
    if k <= 0 || k > is.len() {
        Seq::empty()
    } else {
        ishapes(is, k - 1).push(ishape(is[k - 1]))
    }
}

pub proof fn lemma_cshapes_push(cs: Seq<Command>, c: Command)
    ensures
        cshapes(cs.push(c), cs.len() as int + 1) == cshapes(cs, cs.len() as int).push(cshape(c)),
    decreases cs.len(),
{
    lemma_cshapes_prefix(cs, c, cs.len() as int);
}

proof fn lemma_cshapes_prefix(cs: Seq<Command>, c: Command, k: int)
    requires
        0 <= k <= cs.len(),
    ensures
        cshapes(cs.push(c), k) == cshapes(cs, k),
    decreases k,
{
    if k > 0 {
        lemma_cshapes_prefix(cs, c, k - 1);
        assert(cs.push(c)[k - 1] == cs[k - 1]);
    }
}

pub proof fn lemma_ishapes_push(is: Seq<Instruction>, i: Instruction)
    ensures
        ishapes(is.push(i), is.len() as int + 1) == ishapes(is, is.len() as int).push(ishape(i)),
{
    lemma_ishapes_prefix(is, i, is.len() as int);
}

proof fn lemma_ishapes_prefix(is: Seq<Instruction>, i: Instruction, k: int)
    requires
        0 <= k <= is.len(),
    ensures
        ishapes(is.push(i), k) == ishapes(is, k),
    decreases k,
{
    if k > 0 {
        lemma_ishapes_prefix(is, i, k - 1);
        assert(is.push(i)[k - 1] == is[k - 1]);
    }
}

/// The range numbers in an address shape, in reading order.
pub open spec fn ids(a: AShape) -> Seq<nat>
    decreases a, 0nat,
{
    match a {
        AShape::Negate(inner) => ids(*inner),
        AShape::Between(lo, hi, id) => ids(*lo) + ids(*hi) + seq![id],
        AShape::AnyOf(members) => ids_all(members, members.len() as int),
        _ => Seq::empty(),
    }
}

/// The range numbers in the first `k` address shapes.
pub open spec fn ids_all(ms: Seq<AShape>, k: int) -> Seq<nat>
    decreases ms, k,
{
    if k <= 0 || k > ms.len() { Seq::empty() } else { ids_all(ms, k - 1) + ids(ms[k - 1]) }
}

/// The range numbers in a command shape.
pub open spec fn cids(c: CShape) -> Seq<nat>
    decreases c, 0nat,
{
    match c {
        CShape::Loop(body) => iids_all(body, body.len() as int),
        _ => Seq::empty(),
    }
}

/// The range numbers in the first `k` command shapes.
pub open spec fn cids_all(cs: Seq<CShape>, k: int) -> Seq<nat>
    decreases cs, k,
{
    if k <= 0 || k > cs.len() { Seq::empty() } else { cids_all(cs, k - 1) + cids(cs[k - 1]) }
}

/// The range numbers in an instruction shape.
pub open spec fn iids(i: IShape) -> Seq<nat>
    decreases i, 0nat,
{
    ids(i.addr) + cids_all(i.cmds, i.cmds.len() as int)
}

/// The range numbers in the first `k` instruction shapes.
pub open spec fn iids_all(is: Seq<IShape>, k: int) -> Seq<nat>
    decreases is, k,
{
    if k <= 0 || k > is.len() { Seq::empty() } else { iids_all(is, k - 1) + iids(is[k - 1]) }
}

/// Strictly increasing numbers, each in `lo..hi`: no two ranges share a
/// number, and every number indexes a table of `hi` states.
pub open spec fn increasing_in(v: Seq<nat>, lo: nat, hi: nat) -> bool {
    &&& forall|i: int| 0 <= i < v.len() ==> lo <= #[trigger] v[i] < hi
    &&& forall|i: int, j: int| 0 <= i < j < v.len() ==> #[trigger] v[i] < #[trigger] v[j]
}

pub proof fn lemma_increasing_concat(a: Seq<nat>, b: Seq<nat>, lo: nat, mid: nat, hi: nat)
    requires
        increasing_in(a, lo, mid),
        increasing_in(b, mid, hi),
        lo <= mid <= hi,
    ensures
        increasing_in(a + b, lo, hi),
{
    let v = a + b;
    assert forall|i: int| 0 <= i < v.len() implies lo <= #[trigger] v[i] < hi by {
        if i < a.len() { assert(v[i] == a[i]); } else { assert(v[i] == b[i - a.len()]); }
    }
    assert forall|i: int, j: int| 0 <= i < j < v.len() implies #[trigger] v[i] < #[trigger] v[j] by {
        if j < a.len() {
            assert(v[i] == a[i] && v[j] == a[j]);
        } else if i >= a.len() {
            assert(v[i] == b[i - a.len()] && v[j] == b[j - a.len()]);
        } else {
            assert(v[i] == a[i] && v[j] == b[j - a.len()]);
        }
    }
}

pub proof fn lemma_increasing_empty(lo: nat, hi: nat)
    ensures
        increasing_in(Seq::<nat>::empty(), lo, hi),
{
}

pub proof fn lemma_neg_ids(a: AShape)
    ensures
        ids(neg_shape(a)) == ids(a),
{
}

pub proof fn lemma_ids_all_push(ms: Seq<AShape>, a: AShape)
    ensures
        ids_all(ms.push(a), ms.len() as int + 1) == ids_all(ms, ms.len() as int) + ids(a),
{
    lemma_ids_all_prefix(ms, a, ms.len() as int);
}

proof fn lemma_ids_all_prefix(ms: Seq<AShape>, a: AShape, k: int)
    requires
        0 <= k <= ms.len(),
    ensures
        ids_all(ms.push(a), k) == ids_all(ms, k),
    decreases k,
{
    if k > 0 {
        lemma_ids_all_prefix(ms, a, k - 1);
        assert(ms.push(a)[k - 1] == ms[k - 1]);
    }
}

pub proof fn lemma_ids_all_concat(a: Seq<AShape>, b: Seq<AShape>)
    ensures
        ids_all(a + b, (a + b).len() as int) == ids_all(a, a.len() as int) + ids_all(b, b.len() as int),
    decreases b.len(),
{
    if b.len() == 0 {
        assert(a + b =~= a);
        assert(ids_all(a, a.len() as int) + Seq::<nat>::empty() =~= ids_all(a, a.len() as int));
    } else {
        let b0 = b.drop_last();
        lemma_ids_all_concat(a, b0);
        assert((a + b) =~= (a + b0).push(b.last()));
        assert(b =~= b0.push(b.last()));
        lemma_ids_all_push(a + b0, b.last());
        lemma_ids_all_push(b0, b.last());
        assert(ids_all(a, a.len() as int) + ids_all(b0, b0.len() as int) + ids(b.last())
            =~= ids_all(a, a.len() as int) + (ids_all(b0, b0.len() as int) + ids(b.last())));
    }
}

pub proof fn lemma_spliced_ids(terms: Seq<AShape>)
    ensures
        ids_all(spliced_shapes(terms), spliced_shapes(terms).len() as int) == ids_all(terms, terms.len() as int),
    decreases terms.len(),
{
    if terms.len() > 0 {
        let init = terms.drop_last();
        lemma_spliced_ids(init);
        let t = terms.last();
        let piece = match t {
            AShape::AnyOf(members) => members,
            t => seq![t],
        };
        lemma_ids_all_concat(spliced_shapes(init), piece);
        assert(terms =~= init.push(t));
        lemma_ids_all_push(init, t);
        if !(t is AnyOf) {
            assert(piece =~= Seq::<AShape>::empty().push(t));
            lemma_ids_all_push(Seq::<AShape>::empty(), t);
            assert(Seq::<nat>::empty() + ids(t) =~= ids(t));
        }
    }
}

/// The numbers of a flattened list are those of its terms, or none when
/// the list collapses to `Always`.
pub proof fn lemma_flat_ids(terms: Seq<AShape>, lo: nat, hi: nat)
    requires
        increasing_in(ids_all(terms, terms.len() as int), lo, hi),
    ensures
        increasing_in(ids(flat_shape(terms)), lo, hi),
{
    lemma_spliced_ids(terms);
    let sp = spliced_shapes(terms);
    if sp.len() == 1 && !(exists|i: int| 0 <= i < terms.len() && #[trigger] terms[i] is Always) {
        assert(sp =~= Seq::<AShape>::empty().push(sp[0]));
        lemma_ids_all_push(Seq::<AShape>::empty(), sp[0]);
        assert(Seq::<nat>::empty() + ids(sp[0]) =~= ids(sp[0]));
    }
}

pub proof fn lemma_cids_all_push(cs: Seq<CShape>, c: CShape)
    ensures
        cids_all(cs.push(c), cs.len() as int + 1) == cids_all(cs, cs.len() as int) + cids(c),
{
    lemma_cids_all_prefix(cs, c, cs.len() as int);
}

proof fn lemma_cids_all_prefix(cs: Seq<CShape>, c: CShape, k: int)
    requires
        0 <= k <= cs.len(),
    ensures
        cids_all(cs.push(c), k) == cids_all(cs, k),
    decreases k,
{
    if k > 0 {
        lemma_cids_all_prefix(cs, c, k - 1);
        assert(cs.push(c)[k - 1] == cs[k - 1]);
    }
}

pub proof fn lemma_iids_all_push(is: Seq<IShape>, i: IShape)
    ensures
        iids_all(is.push(i), is.len() as int + 1) == iids_all(is, is.len() as int) + iids(i),
{
    lemma_iids_all_prefix(is, i, is.len() as int);
}

proof fn lemma_iids_all_prefix(is: Seq<IShape>, i: IShape, k: int)
    requires
        0 <= k <= is.len(),
    ensures
        iids_all(is.push(i), k) == iids_all(is, k),
    decreases k,
{
    if k > 0 {
        lemma_iids_all_prefix(is, i, k - 1);
        assert(is.push(i)[k - 1] == is[k - 1]);
    }
}

pub proof fn lemma_ishapes_len(is: Seq<Instruction>, k: int)
    requires
        0 <= k <= is.len(),
    ensures
        ishapes(is, k).len() == k,
    decreases k,
{
    if k > 0 {
        lemma_ishapes_len(is, k - 1);
    }
}

/// A set holds at least two members, none of them a set or `Always`, and
/// the same holds inside every part of the address.
pub open spec fn flat_ok(a: AShape) -> bool
    decreases a, 0nat,
{
    match a {
        AShape::Negate(inner) => flat_ok(*inner),
        AShape::Between(lo, hi, _) => flat_ok(*lo) && flat_ok(*hi),
        AShape::AnyOf(ms) => ms.len() >= 2 && members_ok(ms, ms.len() as int),
        _ => true,
    }
}

/// The first `k` members are neither sets nor `Always`, and are `flat_ok`.
pub open spec fn members_ok(ms: Seq<AShape>, k: int) -> bool
    decreases ms, k,
{
    if k <= 0 || k > ms.len() {
        true
    } else {
        members_ok(ms, k - 1) && !(ms[k - 1] is AnyOf) && !(ms[k - 1] is Always) && flat_ok(ms[k - 1])
    }
}

pub proof fn lemma_members_ok_forall(ms: Seq<AShape>, k: int)
    requires
        0 <= k <= ms.len(),
    ensures
        members_ok(ms, k) <==> forall|i: int| 0 <= i < k ==> {
            &&& !(#[trigger] ms[i] is AnyOf)
            &&& !(ms[i] is Always)
            &&& flat_ok(ms[i])
        },
    decreases k,
{
    if k > 0 {
        lemma_members_ok_forall(ms, k - 1);
    }
}

pub proof fn lemma_neg_flat(a: AShape)
    requires
        flat_ok(a),
    ensures
        flat_ok(neg_shape(a)),
{
}

proof fn lemma_spliced_ok(terms: Seq<AShape>)
    requires
        forall|i: int| 0 <= i < terms.len() ==> flat_ok(#[trigger] terms[i]) && !(terms[i] is Always),
    ensures
        spliced_shapes(terms).len() >= terms.len(),
        forall|i: int| 0 <= i < spliced_shapes(terms).len() ==> {
            &&& !(#[trigger] spliced_shapes(terms)[i] is AnyOf)
            &&& !(spliced_shapes(terms)[i] is Always)
            &&& flat_ok(spliced_shapes(terms)[i])
        },
    decreases terms.len(),
{
    if terms.len() > 0 {
        let init = terms.drop_last();
        assert forall|i: int| 0 <= i < init.len() implies flat_ok(#[trigger] init[i]) && !(init[i] is Always) by {
            assert(init[i] == terms[i]);
        }
        lemma_spliced_ok(init);
        let t = terms.last();
        assert(flat_ok(t) && !(t is Always));
        let piece = match t {
            AShape::AnyOf(members) => members,
            t => seq![t],
        };
        if let AShape::AnyOf(members) = t {
            lemma_members_ok_forall(members, members.len() as int);
        }
        let sp = spliced_shapes(terms);
        let spi = spliced_shapes(init);
        assert(sp == spi + piece);
        assert forall|i: int| 0 <= i < sp.len() implies {
            &&& !(#[trigger] sp[i] is AnyOf)
            &&& !(sp[i] is Always)
            &&& flat_ok(sp[i])
        } by {
            if i < spi.len() {
                assert(sp[i] == spi[i]);
            } else {
                assert(sp[i] == piece[i - spi.len()]);
            }
        }
    }
}

/// A flattened list of well-shaped terms is well shaped.
pub proof fn lemma_flat_shape_ok(terms: Seq<AShape>)
    requires
        terms.len() >= 1,
        forall|i: int| 0 <= i < terms.len() ==> flat_ok(#[trigger] terms[i]),
    ensures
        flat_ok(flat_shape(terms)),
{
    if !(exists|i: int| 0 <= i < terms.len() && #[trigger] terms[i] is Always) {
        lemma_spliced_ok(terms);
        let sp = spliced_shapes(terms);
        if sp.len() != 1 {
            lemma_members_ok_forall(sp, sp.len() as int);
        }
    }
}

} // verus!
