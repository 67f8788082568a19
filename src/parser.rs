//! The script parser: recursive descent over the script's characters.
use vstd::prelude::*;

use crate::address::{lemma_all_wf_exists, lemma_all_wf_forall, lemma_negation_keeps_wf, negation, Address};
use crate::pattern::{compiles, Pattern};
use crate::reader::StringReader;
use crate::text::{
    append, char_is_digit, char_is_space, chars_string, decimal, digits_value, is_digit, is_space, unescape,
    unescaped, usize_decimal,
};
use crate::command::{Command, Replacer};
use crate::editor::{Editor, Instruction};
use crate::shape::{
    flat_ok, lemma_flat_shape_ok, lemma_neg_flat, cids, cids_all, ids, ids_all, iids, iids_all, increasing_in, lemma_cids_all_push, lemma_flat_ids,
    lemma_ids_all_push, lemma_iids_all_push, lemma_increasing_concat, lemma_neg_ids, cshape, cshapes, err_is, flat_shape, ishape, ishapes, lemma_cshapes_push, lemma_ishapes_push, CShape, IShape,
     lemma_negation_shape, lemma_shapes_index, lemma_spliced_shapes, neg_shape, shape, shapes, AShape, PErr,
    Parsed,
};
use crate::Error;

verus! {

/// The text left once leading whitespace is skipped.
pub open spec fn skip_spaces(s: Seq<char>) -> Seq<char>
    decreases s.len(),
{
    if s.len() > 0 && is_space(s[0]) { skip_spaces(s.drop_first()) } else { s }
}

/// How many decimal digits `s` starts with.
pub open spec fn digit_run(s: Seq<char>) -> nat
    decreases s.len(),
{
    if s.len() > 0 && is_digit(s[0]) { 1 + digit_run(s.drop_first()) } else { 0 }
}

/// Puts `acc` in front of the text that a scan found.
pub open spec fn prepend(acc: Seq<char>, r: Option<(Seq<char>, Seq<char>)>) -> Option<(Seq<char>, Seq<char>)> {
    match r {
        Some((t, rest)) => Some((acc + t, rest)),
        None => None,
    }
}

/// The text up to the first unescaped `delim`, with `\delim` read as
/// `delim` and every other escape kept, and what follows the delimiter;
/// `None` when no delimiter closes the text.
pub open spec fn scan_until(s: Seq<char>, delim: char) -> Option<(Seq<char>, Seq<char>)>
    decreases s.len(),
{
    if s.len() == 0 {
        None
    } else if s[0] == delim {
        Some((Seq::empty(), s.drop_first()))
    } else if s[0] == '\\' {
        if s.len() < 2 {
            None
        } else {
            let kept = if s[1] == delim { seq![s[1]] } else { seq!['\\', s[1]] };
            prepend(kept, scan_until(s.subrange(2, s.len() as int), delim))
        }
    } else {
        prepend(seq![s[0]], scan_until(s.drop_first(), delim))
    }
}

/// A substitution template up to the closing `/`, before escape decoding:
/// the digits that follow a `$` become `${digits}`, so that `$12abc` refers
/// to group 12 followed by `abc`; `\/` reads as `/` and every other escape
/// is kept.
pub open spec fn scan_template(s: Seq<char>) -> Option<(Seq<char>, Seq<char>)>
    decreases s.len(),
{
    if s.len() == 0 {
        None
    } else if s[0] == '/' {
        Some((Seq::empty(), s.drop_first()))
    } else if s[0] == '$' && s.len() > 1 && is_digit(s[1]) {
        let t = s.drop_first();
        let k = digit_run(t);
        if 0 < k <= t.len() {
            prepend(seq!['$', '{'] + t.subrange(0, k as int) + seq!['}'], scan_template(t.subrange(k as int, t.len() as int)))
        } else {
            None
        }
    } else if s[0] == '\\' {
        if s.len() < 2 {
            None
        } else {
            let kept = if s[1] == '/' { seq![s[1]] } else { seq!['\\', s[1]] };
            prepend(kept, scan_template(s.subrange(2, s.len() as int)))
        }
    } else {
        prepend(seq![s[0]], scan_template(s.drop_first()))
    }
}

/// A whole-line pattern: the text up to and including the first unescaped
/// `$`, escapes kept as they are.
pub open spec fn scan_anchored(s: Seq<char>) -> Option<(Seq<char>, Seq<char>)>
    decreases s.len(),
{
    if s.len() == 0 {
        None
    } else if s[0] == '\\' {
        if s.len() < 2 {
            None
        } else {
            prepend(seq!['\\', s[1]], scan_anchored(s.subrange(2, s.len() as int)))
        }
    } else if s[0] == '$' {
        Some((seq!['$'], s.drop_first()))
    } else {
        prepend(seq![s[0]], scan_anchored(s.drop_first()))
    }
}

proof fn lemma_digit_run_bound(s: Seq<char>)
    ensures
        digit_run(s) <= s.len(),
        forall|i: int| 0 <= i < digit_run(s) ==> is_digit(#[trigger] s[i]),
        digit_run(s) < s.len() ==> !is_digit(s[digit_run(s) as int]),
    decreases s.len(),
{
    if s.len() > 0 && is_digit(s[0]) {
        lemma_digit_run_bound(s.drop_first());
        assert forall|i: int| 0 <= i < digit_run(s) implies is_digit(#[trigger] s[i]) by {
            if i > 0 {
                assert(s[i] == s.drop_first()[i - 1]);
            }
        }
    }
}

/// Skips whitespace.
pub fn skip_whitespace(r: &mut StringReader)
    requires
        old(r).wf(),
    ensures
        final(r).wf(),
        final(r)@ == skip_spaces(old(r)@),
        final(r)@.len() <= old(r)@.len(),
{
    loop
        invariant
            r.wf(),
            r@.len() <= old(r)@.len(),
            skip_spaces(old(r)@) == skip_spaces(r@),
        decreases r@.len(),
    {
        match r.current() {
            Some(c) => {
                if char_is_space(c) {
                    r.advance();
                } else {
                    return;
                }
            },
            None => {
                return;
            },
        }
    }
}

/// Reads the decimal digits at the front.
pub fn read_integer(r: &mut StringReader) -> (digits: Vec<char>)
    requires
        old(r).wf(),
    ensures
        final(r).wf(),
        digits@ == old(r)@.subrange(0, digit_run(old(r)@) as int),
        final(r)@ == old(r)@.subrange(digit_run(old(r)@) as int, old(r)@.len() as int),
{
    proof { lemma_digit_run_bound(old(r)@); }
    let mut digits: Vec<char> = Vec::new();
    loop
        invariant
            r.wf(),
            digits@.len() <= digit_run(old(r)@),
            old(r)@ == digits@ + r@,
            digit_run(old(r)@) == digits@.len() + digit_run(r@),
        ensures
            r.wf(),
            old(r)@ == digits@ + r@,
            digit_run(old(r)@) == digits@.len(),
        decreases r@.len(),
    {
        match r.current() {
            Some(c) => {
                if char_is_digit(c) {
                    r.advance();
                    digits.push(c);
                    assert(old(r)@ =~= digits@ + r@);
                } else {
                    assert(digit_run(r@) == 0);
                    break;
                }
            },
            None => {
                assert(digit_run(r@) == 0);
                break;
            },
        }
    }
    proof {
        assert(digits@ =~= old(r)@.subrange(0, digit_run(old(r)@) as int));
        assert(r@ =~= old(r)@.subrange(digit_run(old(r)@) as int, old(r)@.len() as int));
    }
    digits
}

proof fn lemma_digits_value_push(s: Seq<char>, c: char)
    ensures
        digits_value(s.push(c)) == digits_value(s) * 10 + (c as nat - '0' as nat) as nat,
{
    assert(s.push(c).drop_last() =~= s);
}

/// The value of a run of decimal digits, when it fits in `limit`.
fn digits_number(digits: &Vec<char>, limit: usize) -> (r: Option<usize>)
    requires
        forall|i: int| 0 <= i < digits@.len() ==> is_digit(#[trigger] digits@[i]),
    ensures
        r is Some <==> digits_value(digits@) <= limit,
        r matches Some(v) ==> v == digits_value(digits@),
{
    let mut v: usize = 0;
    let mut i: usize = 0;
    while i < digits.len()
        invariant
            i <= digits@.len(),
            forall|k: int| 0 <= k < digits@.len() ==> is_digit(#[trigger] digits@[k]),
            v == digits_value(digits@.subrange(0, i as int)),
            v <= limit,
        decreases digits@.len() - i,
    {
        let d = (digits[i] as u32 - '0' as u32) as usize;
        proof {
            lemma_digits_value_push(digits@.subrange(0, i as int), digits@[i as int]);
            assert(digits@.subrange(0, i as int).push(digits@[i as int]) =~= digits@.subrange(0, i + 1));
        }
        if d > limit || v > (limit - d) / 10 {
            proof {
                lemma_value_grows(digits@, i as int + 1);
                if d <= limit {
                    assert(v * 10 + d > limit) by (nonlinear_arith)
                        requires v > (limit - d) / 10, d <= limit;
                }
            }
            return None;
        }
        proof {
            assert(v * 10 + d <= limit) by (nonlinear_arith)
                requires v <= (limit - d) / 10, d <= limit;
        }
        v = v * 10 + d;
        i = i + 1;
    }
    assert(digits@.subrange(0, digits@.len() as int) =~= digits@);
    Some(v)
}

proof fn lemma_value_grows(s: Seq<char>, k: int)
    requires
        0 <= k <= s.len(),
        forall|i: int| 0 <= i < s.len() ==> is_digit(#[trigger] s[i]),
    ensures
        digits_value(s.subrange(0, k)) <= digits_value(s),
    decreases s.len() - k,
{
    if k < s.len() {
        lemma_value_grows(s, k + 1);
        lemma_digits_value_push(s.subrange(0, k), s[k]);
        assert(s.subrange(0, k).push(s[k]) =~= s.subrange(0, k + 1));
    } else {
        assert(s.subrange(0, k) =~= s);
    }
}

/// Parses a run of decimal digits that must fit in `limit`; a value that
/// does not fit is reported with its digits.
pub fn parse_number(digits: &Vec<char>, limit: usize) -> (r: Result<usize, Error>)
    requires
        forall|i: int| 0 <= i < digits@.len() ==> is_digit(#[trigger] digits@[i]),
    ensures
        r is Ok <==> digits_value(digits@) <= limit,
        r matches Ok(v) ==> v == digits_value(digits@),
        r matches Err(e) ==> (e matches Error::ParseInt(t) && t@ == digits@),
{
    match digits_number(digits, limit) {
        Some(v) => Ok(v),
        None => Err(Error::ParseInt(crate::text::chars_string(digits))),
    }
}

/// Reads up to the first unescaped `delim`, which is consumed; `\delim`
/// stands for `delim` and other escapes are kept for later decoding.
pub fn read_until(r: &mut StringReader, delim: char) -> (res: Result<Vec<char>, Error>)
    requires
        old(r).wf(),
    ensures
        final(r).wf(),
        final(r)@.len() <= old(r)@.len(),
        scan_until(old(r)@, delim) matches Some((t, rest)) ==> (res matches Ok(v) && v@ == t && final(r)@ == rest),
        scan_until(old(r)@, delim) is None ==> (res matches Err(Error::Missing(d)) && d == delim),
{
    let mut acc: Vec<char> = Vec::new();
    loop
        invariant
            r.wf(),
            r@.len() <= old(r)@.len(),
            scan_until(old(r)@, delim) == prepend(acc@, scan_until(r@, delim)),
        decreases r@.len(),
    {
        let ghost s = r@;
        match r.advance() {
            Some(c) => {
                if c == delim {
                    assert(acc@ + Seq::<char>::empty() =~= acc@);
                    return Ok(acc);
                } else if c == '\\' {
                    match r.advance() {
                        Some(e) => {
                            if e != delim {
                                acc.push(c);
                            }
                            acc.push(e);
                            proof {
                                assert(r@ =~= s.subrange(2, s.len() as int));
                            }
                        },
                        None => {
                            return Err(Error::Missing(delim));
                        },
                    }
                } else {
                    acc.push(c);
                }
            },
            None => {
                return Err(Error::Missing(delim));
            },
        }
    }
}

/// Reads a substitution template up to and including the closing `/`,
/// rewrites its digit runs as `{digits}` and decodes its escapes.
pub fn read_template(r: &mut StringReader) -> (res: Result<Vec<char>, Error>)
    requires
        old(r).wf(),
    ensures
        final(r).wf(),
        final(r)@.len() <= old(r)@.len(),
        scan_template(old(r)@) is None ==> (res matches Err(Error::Missing(d)) && d == '/'),
        scan_template(old(r)@) matches Some((raw, rest)) ==> {
            &&& final(r)@ == rest
            &&& unescaped(raw) matches Some(t) ==> (res matches Ok(v) && v@ == t)
            &&& unescaped(raw) is None ==> (res matches Err(Error::ParsingError(m)) && m@ == raw)
            &&& !raw.contains('\\') ==> (res matches Ok(v) && v@ == raw)
        },
{
    let mut acc: Vec<char> = Vec::new();
    loop
        invariant
            r.wf(),
            r@.len() <= old(r)@.len(),
            scan_template(old(r)@) == prepend(acc@, scan_template(r@)),
        decreases r@.len(),
    {
        let ghost s = r@;
        match r.current() {
            Some(c) => {
                if c == '/' {
                    r.advance();
                    assert(acc@ + Seq::<char>::empty() =~= acc@);
                    return unescape(&acc);
                } else if c == '$' && r.second_is_digit() {
                    r.advance();
                    let ghost t = r@;
                    proof { lemma_digit_run_bound(t); }
                    let mut digits = read_integer(r);
                    let ghost ds = digits@;
                    let ghost acc0 = acc@;
                    acc.push('$');
                    acc.push('{');
                    acc.append(&mut digits);
                    acc.push('}');
                    proof {
                        assert(acc@ =~= acc0 + (seq!['$', '{'] + ds + seq!['}']));
                        assert(ds == t.subrange(0, digit_run(t) as int));
                    }
                } else if c == '\\' {
                    r.advance();
                    match r.advance() {
                        Some(e) => {
                            if e != '/' {
                                acc.push(c);
                            }
                            acc.push(e);
                            assert(r@ =~= s.subrange(2, s.len() as int));
                        },
                        None => {
                            return Err(Error::Missing('/'));
                        },
                    }
                } else {
                    r.advance();
                    acc.push(c);
                }
            },
            None => {
                return Err(Error::Missing('/'));
            },
        }
    }
}

/// Reads a whole-line pattern, from its leading `^` up to and including the
/// first unescaped `$`.
pub fn read_anchored(r: &mut StringReader) -> (res: Result<Vec<char>, Error>)
    requires
        old(r).wf(),
    ensures
        final(r).wf(),
        final(r)@.len() <= old(r)@.len(),
        scan_anchored(old(r)@) matches Some((t, rest)) ==> (res matches Ok(v) && v@ == t && final(r)@ == rest),
        scan_anchored(old(r)@) is None ==> (res matches Err(Error::Missing(d)) && d == '$'),
{
    let mut acc: Vec<char> = Vec::new();
    loop
        invariant
            r.wf(),
            r@.len() <= old(r)@.len(),
            scan_anchored(old(r)@) == prepend(acc@, scan_anchored(r@)),
        decreases r@.len(),
    {
        let ghost s = r@;
        match r.advance() {
            Some(c) => {
                if c == '\\' {
                    match r.advance() {
                        Some(e) => {
                            acc.push(c);
                            acc.push(e);
                            assert(r@ =~= s.subrange(2, s.len() as int));
                        },
                        None => {
                            return Err(Error::Missing('$'));
                        },
                    }
                } else if c == '$' {
                    acc.push(c);
                    return Ok(acc);
                } else {
                    acc.push(c);
                }
            },
            None => {
                return Err(Error::Missing('$'));
            },
        }
    }
}

/// The characters that can start an address expression, or stand inside
/// one.
pub open spec fn starts_address(c: char) -> bool {
    c == '/' || c == '^' || is_digit(c) || c == '*' || c == '$' || c == '(' || c == '-' || c == '!'
        || c == ',' || is_space(c)
}

/// The reader moved forward, and every range numbered on the way consumed
/// at least one character.
pub open spec fn progress(r0: Seq<char>, r1: Seq<char>, n0: usize, n1: usize) -> bool {
    &&& r1.len() <= r0.len()
    &&& n0 <= n1
    &&& n1 + r1.len() <= n0 + r0.len()
}

/// The message for a range whose bounds are out of order.
pub open spec fn order_message(lo: nat, hi: nat) -> Seq<char> {
    decimal(lo) + seq![' ', '>', ' '] + decimal(hi) + seq![' ', 'i', 'n', ' '] + decimal(lo) + seq!['-'] + decimal(hi)
}

fn order_error(lo: usize, hi: usize) -> (r: String)
    ensures
        r@ == order_message(lo as nat, hi as nat),
{
    let mut m = usize_decimal(lo);
    append(&mut m, " > ");
    let h = usize_decimal(hi);
    append(&mut m, h.as_str());
    append(&mut m, " in ");
    let l = usize_decimal(lo);
    append(&mut m, l.as_str());
    append(&mut m, "-");
    append(&mut m, h.as_str());
    proof {
        reveal_strlit(" > ");
        reveal_strlit(" in ");
        reveal_strlit("-");
        assert(m@ =~= order_message(lo as nat, hi as nat));
    }
    m
}

/// What a simple address at the front of a text is.
pub enum Simple {
    /// No address, or `*`.
    Nothing,
    /// `$`.
    Never,
    /// A line number of at least 1.
    Line(nat),
    /// A pattern text that compiles.
    Pattern(Seq<char>),
    /// A simple address that is refused.
    Fails,
}

/// The simple address at the front of `s`, and the text after it.
pub open spec fn simple_scan(s: Seq<char>) -> (Simple, Seq<char>) {
    if s.len() == 0 {
        (Simple::Nothing, s)
    } else if s[0] == '/' {
        match scan_until(s.drop_first(), '/') {
            Some((t, rest)) => if compiles(t) { (Simple::Pattern(t), rest) } else { (Simple::Fails, rest) },
            None => (Simple::Fails, s),
        }
    } else if s[0] == '^' {
        match scan_anchored(s) {
            Some((t, rest)) => if compiles(t) { (Simple::Pattern(t), rest) } else { (Simple::Fails, rest) },
            None => (Simple::Fails, s),
        }
    } else if is_digit(s[0]) {
        let v = digits_value(s.subrange(0, digit_run(s) as int));
        if 1 <= v <= usize::MAX {
            (Simple::Line(v), s.subrange(digit_run(s) as int, s.len() as int))
        } else {
            (Simple::Fails, s)
        }
    } else if s[0] == '*' {
        (Simple::Nothing, s.drop_first())
    } else if s[0] == '$' {
        (Simple::Never, s.drop_first())
    } else {
        (Simple::Nothing, s)
    }
}

/// Whether `e` is the error for the refused simple address at the front of
/// `s`.
pub open spec fn simple_error_is(s: Seq<char>, e: Error) -> bool {
    if s.len() > 0 && s[0] == '/' {
        match scan_until(s.drop_first(), '/') {
            Some((t, _)) => e is Regex,
            None => e == Error::Missing('/'),
        }
    } else if s.len() > 0 && s[0] == '^' {
        match scan_anchored(s) {
            Some((t, _)) => e is Regex,
            None => e == Error::Missing('$'),
        }
    } else {
        let ds = s.subrange(0, digit_run(s) as int);
        if digits_value(ds) == 0 {
            e matches Error::InvalidAddr(m) && m@ == ds
        } else {
            e matches Error::ParseInt(m) && m@ == ds
        }
    }
}

/// Whether `a` is the address that `k` stands for, `dflt` standing for no
/// address.
pub open spec fn denotes(k: Simple, a: Address, dflt: Address) -> bool {
    match k {
        Simple::Nothing => a == dflt,
        Simple::Never => a == Address::Never,
        Simple::Line(v) => a == Address::Location(v as usize),
        Simple::Pattern(t) => a matches Address::Regex(p) && p@ == t,
        Simple::Fails => false,
    }
}

/// Parses one simple address: `/pattern/`, `^pattern$`, a line number, `*`
/// or `$`. `None` stands for no address at all, which `*` spells out.
pub fn parse_simple_addr(r: &mut StringReader) -> (res: Result<Option<Address>, Error>)
    requires
        old(r).wf(),
    ensures
        final(r).wf(),
        final(r)@.len() <= old(r)@.len(),
        res matches Ok(Some(a)) ==> a.wf() && (a is Location || a is Regex || a is Never),
        res is Err <==> simple_scan(old(r)@).0 is Fails,
        res matches Err(e) ==> simple_error_is(old(r)@, e),
        res matches Ok(o) ==> {
            &&& final(r)@ == simple_scan(old(r)@).1
            &&& (o is None <==> simple_scan(old(r)@).0 is Nothing)
            &&& (o matches Some(a) ==> denotes(simple_scan(old(r)@).0, a, Address::Always))
        },
        old(r)@.len() == 0 ==> (res matches Ok(None) && final(r)@ == old(r)@),
        old(r)@.len() > 0 ==> {
            let s = old(r)@;
            let c = s[0];
            &&& c == '$' ==> (res matches Ok(Some(Address::Never)) && final(r)@ == s.drop_first())
            &&& c == '*' ==> (res matches Ok(None) && final(r)@ == s.drop_first())
            &&& is_digit(c) ==> {
                let ds = s.subrange(0, digit_run(s) as int);
                &&& digits_value(ds) == 0 ==> (res matches Err(Error::InvalidAddr(m)) && m@ == ds)
                &&& 1 <= digits_value(ds) <= usize::MAX ==> (res matches Ok(Some(Address::Location(k)))
                    && k == digits_value(ds) && final(r)@ == s.subrange(digit_run(s) as int, s.len() as int))
                &&& digits_value(ds) > usize::MAX ==> (res matches Err(Error::ParseInt(m)) && m@ == ds)
            }
            &&& c == '/' ==> match scan_until(s.drop_first(), '/') {
                Some((t, rest)) => {
                    &&& compiles(t) ==> (res matches Ok(Some(Address::Regex(p))) && p@ == t && final(r)@ == rest)
                    &&& !compiles(t) ==> res matches Err(Error::Regex(_))
                },
                None => res matches Err(Error::Missing(d)) && d == '/',
            }
            &&& c == '^' ==> match scan_anchored(s) {
                Some((t, rest)) => {
                    &&& compiles(t) ==> (res matches Ok(Some(Address::Regex(p))) && p@ == t && final(r)@ == rest)
                    &&& !compiles(t) ==> res matches Err(Error::Regex(_))
                },
                None => res matches Err(Error::Missing(d)) && d == '$',
            }
            &&& !(c == '$' || c == '*' || c == '/' || c == '^' || is_digit(c)) ==> (res matches Ok(None) && final(r)@ == s)
        },
{
    let ghost s = r@;
    match r.current() {
        Some(c) => {
            if c == '/' {
                r.advance();
                let text = read_until(r, '/')?;
                let p = Pattern::new(&text)?;
                Ok(Some(Address::Regex(p)))
            } else if c == '^' {
                let text = read_anchored(r)?;
                let p = Pattern::new(&text)?;
                Ok(Some(Address::Regex(p)))
            } else if char_is_digit(c) {
                proof { lemma_digit_run_bound(s); }
                let digits = read_integer(r);
                let k = parse_number(&digits, usize::MAX)?;
                if k == 0 {
                    Err(Error::InvalidAddr(chars_string(&digits)))
                } else {
                    Ok(Some(Address::Location(k)))
                }
            } else if c == '*' {
                r.advance();
                Ok(None)
            } else if c == '$' {
                r.advance();
                Ok(Some(Address::Never))
            } else {
                Ok(None)
            }
        },
        None => Ok(None),
    }
}

/// What parsing `simple['-'simple]` from `s`, with `n` ranges numbered so
/// far, gives: `res`, the text left and the ranges numbered then.
pub open spec fn range_parsed(s: Seq<char>, n: usize, res: Result<Address, Error>, rest: Seq<char>, n2: usize) -> bool {
    let (k1, s1) = simple_scan(s);
    let s2 = skip_spaces(s1);
    if k1 is Fails {
        res matches Err(e) && simple_error_is(s, e)
    } else if !(s2.len() > 0 && s2[0] == '-') {
        res matches Ok(a) && denotes(k1, a, Address::Always) && rest == s2 && n2 == n
    } else {
        let (k2, s3) = simple_scan(s2.drop_first());
        if k2 is Fails {
            res matches Err(e) && simple_error_is(s2.drop_first(), e)
        } else if k1 is Line && k2 is Line && k1->Line_0 > k2->Line_0 {
            res matches Err(Error::InvalidAddr(m)) && m@ == order_message(k1->Line_0, k2->Line_0)
        } else {
            &&& res matches Ok(Address::Between(lo, hi, id))
            &&& denotes(k1, *lo, Address::Always)
            &&& denotes(k2, *hi, Address::Never)
            &&& id == n
            &&& n2 == n + 1
            &&& rest == s3
        }
    }
}

/// Parses `simple['-'simple]`: a missing lower bound is `Always`, a missing
/// upper bound `Never`. Two line numbers must come in order. A range takes
/// the next number from `ranges`.
pub fn parse_range(r: &mut StringReader, ranges: &mut usize) -> (res: Result<Address, Error>)
    requires
        old(r).wf(),
        *old(ranges) + old(r)@.len() <= usize::MAX,
    ensures
        final(r).wf(),
        progress(old(r)@, final(r)@, *old(ranges), *final(ranges)),
        res matches Ok(a) ==> a.wf(),
        old(r)@.len() == 0 ==> (res matches Ok(Address::Always) && final(r)@.len() == 0),
        old(r)@.len() > 0 && !starts_address(old(r)@[0]) ==> (res matches Ok(Address::Always) && final(r)@ == old(r)@),
        res matches Ok(Address::Between(lo, hi, id)) ==> {
            &&& id == *old(ranges)
            &&& (*lo is Location && *hi is Location) ==> (*lo)->Location_0 <= (*hi)->Location_0
        },
        range_parsed(old(r)@, *old(ranges), res, final(r)@, *final(ranges)),
        addr_res(res, final(r)@, *final(ranges), gram_range(old(r)@, *old(ranges) as nat)),
{
    let lhs = match parse_simple_addr(r)? {
        Some(a) => a,
        None => Address::Always,
    };
    assert(lhs.wf());
    skip_whitespace(r);
    if r.current() == Some('-') {
        r.advance();
        let rhs = match parse_simple_addr(r)? {
            Some(a) => a,
            None => Address::Never,
        };
        assert(rhs.wf());
        if let Address::Location(lo) = &lhs {
            if let Address::Location(hi) = &rhs {
                if *lo > *hi {
                    return Err(Error::InvalidAddr(order_error(*lo, *hi)));
                }
            }
        }
        assert(lhs.wf() && rhs.wf());
        proof {
            let k1 = simple_scan(old(r)@).0;
            let k2 = simple_scan(skip_spaces(simple_scan(old(r)@).1).drop_first()).0;
            assert(shape(lhs) == kshape(k1, AShape::Always));
            assert(shape(rhs) == kshape(k2, AShape::Never));
        }
        let id = *ranges;
        *ranges = *ranges + 1;
        return Ok(Address::Between(Box::new(lhs), Box::new(rhs), id));
    }
    Ok(lhs)
}

/// Applies a trailing `!`, if there is one.
pub fn maybe_negate(a: Address, r: &mut StringReader) -> (res: Address)
    requires
        old(r).wf(),
    ensures
        final(r).wf(),
        old(r)@.len() > 0 && old(r)@[0] == '!' ==> res == negation(a) && final(r)@ == old(r)@.drop_first(),
        !(old(r)@.len() > 0 && old(r)@[0] == '!') ==> res == a && final(r)@ == old(r)@,
{
    if r.current() == Some('!') {
        r.advance();
        a.negate()
    } else {
        a
    }
}

/// The text after a `,` that follows `s` after whitespace, and the
/// whitespace after it.
pub open spec fn after_comma(s: Seq<char>) -> Seq<char> {
    skip_spaces(skip_spaces(s).drop_first())
}

/// Whether `terms` are the first terms of a comma-separated list read from
/// `s` with `n` ranges numbered before, none of them parenthesised; term `i`
/// leaves the text `rests[i]` with `counts[i]` ranges numbered.
pub open spec fn list_upto(s: Seq<char>, n: usize, terms: Seq<Address>, rests: Seq<Seq<char>>, counts: Seq<usize>) -> bool
    decreases terms.len(),
{
    &&& rests.len() == terms.len()
    &&& counts.len() == terms.len()
    &&& terms.len() > 0 ==> {
        let k = terms.len() - 1;
        &&& list_upto(s, n, terms.drop_last(), rests.drop_last(), counts.drop_last())
        &&& k > 0 ==> followed_by_comma(rests[k - 1])
        &&& term_at(if k == 0 { s } else { after_comma(rests[k - 1]) }, if k == 0 { n } else { counts[k - 1] },
            terms[k], rests[k], counts[k])
    }
}

/// Whether `t` is an unparenthesised term read from `s`, `n` ranges numbered
/// before, leaving `rest` and `n2` ranges.
pub open spec fn term_at(s: Seq<char>, n: usize, t: Address, rest: Seq<char>, n2: usize) -> bool {
    !(s.len() > 0 && s[0] == '(') && term_parsed(s, n, Ok(t), rest, n2)
}

/// Whether `a` is what a comma-separated list read from `s` stands for:
/// unless one of its terms is parenthesised, `a` is its terms flattened.
pub open spec fn list_read(s: Seq<char>, n: usize, a: Address) -> bool {
    (exists|terms: Seq<Address>, rests: Seq<Seq<char>>, counts: Seq<usize>| {
        &&& #[trigger] list_upto(s, n, terms, rests, counts)
        &&& terms.len() >= 1
        &&& !followed_by_comma(rests.last())
        &&& flattened_is(terms, a)
    }) || (s.len() > 0 && s[0] == '(') || (exists|terms: Seq<Address>, rests: Seq<Seq<char>>, counts: Seq<usize>| {
        &&& #[trigger] list_upto(s, n, terms, rests, counts)
        &&& terms.len() >= 1
        &&& followed_by_comma(rests.last())
        &&& after_comma(rests.last()).len() > 0 && after_comma(rests.last())[0] == '('
    })
}

/// Whether the text, after whitespace, goes on with a `,`.
pub open spec fn followed_by_comma(s: Seq<char>) -> bool {
    skip_spaces(s).len() > 0 && skip_spaces(s)[0] == ','
}

/// Whether parsing a range from `s` fails.
pub open spec fn range_fails(s: Seq<char>) -> bool {
    let (k1, s1) = simple_scan(s);
    let s2 = skip_spaces(s1);
    let (k2, _) = simple_scan(s2.drop_first());
    k1 is Fails || (s2.len() > 0 && s2[0] == '-' && (k2 is Fails
        || (k1 is Line && k2 is Line && k1->Line_0 > k2->Line_0)))
}

/// Whether `e` is the error for the refused range at the front of `s`.
pub open spec fn range_error_is(s: Seq<char>, e: Error) -> bool {
    let (k1, s1) = simple_scan(s);
    let s2 = skip_spaces(s1);
    let (k2, _) = simple_scan(s2.drop_first());
    if k1 is Fails {
        simple_error_is(s, e)
    } else if k2 is Fails {
        simple_error_is(s2.drop_first(), e)
    } else {
        e matches Error::InvalidAddr(m) && m@ == order_message(k1->Line_0, k2->Line_0)
    }
}

/// What parsing an unparenthesised term from `s` gives: a range, then an
/// optional `!` after whitespace, which negates it.
pub open spec fn term_parsed(s: Seq<char>, n: usize, res: Result<Address, Error>, rest: Seq<char>, n2: usize) -> bool {
    &&& res is Err <==> range_fails(s)
    &&& res matches Err(e) ==> range_error_is(s, e)
    &&& res is Ok ==> exists|a0: Address, s0: Seq<char>| {
        &&& #[trigger] range_parsed(s, n, Ok(a0), s0, n2)
        &&& if skip_spaces(s0).len() > 0 && skip_spaces(s0)[0] == '!' {
            res == Ok::<Address, Error>(negation(a0)) && rest == skip_spaces(s0).drop_first()
        } else {
            res == Ok::<Address, Error>(a0) && rest == skip_spaces(s0)
        }
    }
}

/// Parses a parenthesised address expression or a range, either followed
/// by an optional `!`.
pub fn parse_brackets(r: &mut StringReader, ranges: &mut usize) -> (res: Result<Address, Error>)
    requires
        old(r).wf(),
        *old(ranges) + old(r)@.len() <= usize::MAX,
    ensures
        final(r).wf(),
        progress(old(r)@, final(r)@, *old(ranges), *final(ranges)),
        res matches Ok(a) ==> a.wf(),
        old(r)@.len() == 0 ==> (res matches Ok(Address::Always) && final(r)@.len() == 0),
        old(r)@.len() > 0 && !starts_address(old(r)@[0]) ==> (res matches Ok(Address::Always) && final(r)@ == old(r)@),
        !(old(r)@.len() > 0 && old(r)@[0] == '(') ==> term_parsed(old(r)@, *old(ranges), res, final(r)@, *final(ranges)),
        addr_res(res, final(r)@, *final(ranges), gram_term(old(r)@, *old(ranges) as nat)),
    decreases old(r)@.len(), 2nat,
{
    if r.current() == Some('(') {
        r.advance();
        skip_whitespace(r);
        let ghost t = r@;
        let a = parse_addrs(r, ranges)?;
        let ghost r1 = r@;
        skip_whitespace(r);
        if r.advance() != Some(')') {
            return Err(Error::Missing(')'));
        }
        let ghost r3 = r@;
        let res = maybe_negate(a, r);
        proof {
            lemma_negation_keeps_wf(a);
            lemma_negation_shape(a);
            assert(t.len() < old(r)@.len());
        }
        Ok(res)
    } else {
        let a = parse_range(r, ranges)?;
        let ghost s0 = r@;
        skip_whitespace(r);
        let res = maybe_negate(a, r);
        proof {
            lemma_negation_keeps_wf(a);
            lemma_negation_shape(a);
            assert(range_parsed(old(r)@, *old(ranges), Ok(a), s0, *ranges));
        }
        Ok(res)
    }
}

/// The members that a list of terms contributes to a set: a term that is
/// itself a set gives its members, any other term gives itself.
pub open spec fn spliced(terms: Seq<Address>) -> Seq<Address>
    decreases terms.len(),
{
    if terms.len() == 0 {
        Seq::empty()
    } else {
        spliced(terms.drop_last()) + match terms.last() {
            Address::AnyOf(members) => members@,
            t => seq![t],
        }
    }
}

/// Whether some term is `Always`.
pub open spec fn has_always(terms: Seq<Address>) -> bool {
    exists|i: int| 0 <= i < terms.len() && #[trigger] terms[i] is Always
}

/// The address that a list of terms stands for: `Always` when a term is
/// `Always`, else the spliced members, a single one standing for itself.
pub open spec fn flattened_is(terms: Seq<Address>, a: Address) -> bool {
    if has_always(terms) {
        a == Address::Always
    } else if spliced(terms).len() == 1 {
        a == spliced(terms)[0]
    } else {
        a matches Address::AnyOf(v) && v@ == spliced(terms)
    }
}

/// A list of terms holding `Always` is `Always`, whatever the other terms.
pub proof fn lemma_set_with_always_collapses(terms: Seq<Address>, i: int, a: Address)
    requires
        0 <= i < terms.len(),
        terms[i] is Always,
        flattened_is(terms, a),
    ensures
        a == Address::Always,
{
    assert(has_always(terms));
}

proof fn lemma_spliced_wf(terms: Seq<Address>)
    requires
        forall|i: int| 0 <= i < terms.len() ==> #[trigger] terms[i].wf(),
    ensures
        forall|i: int| 0 <= i < spliced(terms).len() ==> #[trigger] spliced(terms)[i].wf(),
    decreases terms.len(),
{
    if terms.len() > 0 {
        let init = terms.drop_last();
        assert forall|i: int| 0 <= i < init.len() implies #[trigger] init[i].wf() by {
            assert(init[i] == terms[i]);
        }
        lemma_spliced_wf(init);
        let t = terms.last();
        assert(t.wf());
        let piece = match t {
            Address::AnyOf(members) => members@,
            t => seq![t],
        };
        if let Address::AnyOf(members) = t {
            lemma_all_wf_forall(members@, members@.len() as int);
        }
        assert(spliced(terms) == spliced(init) + piece);
        assert forall|i: int| 0 <= i < spliced(terms).len() implies #[trigger] spliced(terms)[i].wf() by {
            if i < spliced(init).len() {
                assert(spliced(terms)[i] == spliced(init)[i]);
            } else {
                assert(spliced(terms)[i] == piece[i - spliced(init).len()]);
            }
        }
    }
}

/// Builds the address for a list of terms, as `flattened_is` says.
pub fn flatten_terms(terms: Vec<Address>) -> (r: Address)
    ensures
        flattened_is(terms@, r),
        (forall|i: int| 0 <= i < terms@.len() ==> #[trigger] terms@[i].wf()) ==> r.wf(),
{
    let ghost orig = terms@;
    let mut terms = terms;
    let mut members: Vec<Address> = Vec::new();
    let mut has_any = false;
    let mut k: usize = 0;
    proof { assert(orig.len() == terms.len()); }
    while terms.len() > 0
        invariant
            k <= orig.len(),
            orig.len() <= usize::MAX,
            terms@ == orig.subrange(k as int, orig.len() as int),
            members@ == spliced(orig.subrange(0, k as int)),
            has_any == has_always(orig.subrange(0, k as int)),
        decreases terms@.len(),
    {
        let t = terms.remove(0);
        let ghost before = orig.subrange(0, k as int);
        proof {
            assert(orig.subrange(0, k + 1).drop_last() =~= before);
            assert(orig.subrange(0, k + 1).last() == t);
        }
        match t {
            Address::Always => {
                has_any = true;
                members.push(Address::Always);
                proof { assert(orig.subrange(0, k + 1)[k as int] is Always); }
            },
            Address::AnyOf(mut inner) => {
                members.append(&mut inner);
            },
            other => {
                members.push(other);
            },
        }
        proof {
            let after = orig.subrange(0, k + 1);
            assert(members@ =~= spliced(after));
            if has_always(before) {
                let j = choose|j: int| 0 <= j < before.len() && #[trigger] before[j] is Always;
                assert(after[j] is Always);
            }
            if has_always(after) && !(t is Always) {
                let j = choose|j: int| 0 <= j < after.len() && #[trigger] after[j] is Always;
                assert(before[j] is Always);
            }
        }
        k = k + 1;
        assert(terms@ =~= orig.subrange(k as int, orig.len() as int));
    }
    proof {
        assert(orig.subrange(0, k as int) =~= orig);
        if forall|i: int| 0 <= i < orig.len() ==> #[trigger] orig[i].wf() {
            lemma_spliced_wf(orig);
            lemma_all_wf_exists(members@, members@.len() as int);
        }
    }
    if has_any {
        Address::Always
    } else if members.len() == 1 {
        members.remove(0)
    } else {
        Address::AnyOf(members)
    }
}

/// Parses a comma-separated list of address terms. A list holding `Always`
/// is `Always`, a term that is itself a list has its members spliced in,
/// and a list of one member is that member.
pub fn parse_addrs(r: &mut StringReader, ranges: &mut usize) -> (res: Result<Address, Error>)
    requires
        old(r).wf(),
        *old(ranges) + old(r)@.len() <= usize::MAX,
    ensures
        final(r).wf(),
        progress(old(r)@, final(r)@, *old(ranges), *final(ranges)),
        res matches Ok(a) ==> a.wf(),
        old(r)@.len() == 0 ==> (res matches Ok(Address::Always) && final(r)@.len() == 0),
        old(r)@.len() > 0 && !starts_address(old(r)@[0]) ==> (res matches Ok(Address::Always) && final(r)@ == old(r)@),
        !(old(r)@.len() > 0 && old(r)@[0] == '(') && range_fails(old(r)@)
            ==> (res matches Err(e) && range_error_is(old(r)@, e)),
        res is Ok ==> list_read(old(r)@, *old(ranges), res->Ok_0),
        addr_res(res, final(r)@, *final(ranges), gram_addrs(old(r)@, *old(ranges) as nat)),
        res is Ok && !(old(r)@.len() > 0 && old(r)@[0] == '(') ==> exists|t0: Address, s0: Seq<char>, m: usize| {
            &&& #[trigger] term_parsed(old(r)@, *old(ranges), Ok(t0), s0, m)
            &&& !followed_by_comma(s0) ==> flattened_is(seq![t0], res->Ok_0)
        },
    decreases old(r)@.len(), 3nat,
{
    let mut terms: Vec<Address> = Vec::new();
    let ghost mut t0 = Address::Always;
    let ghost mut s0 = old(r)@;
    let ghost mut m0: usize = 0;
    let ghost mut grouped = false;
    let ghost mut rests: Seq<Seq<char>> = Seq::empty();
    let ghost mut counts: Seq<usize> = Seq::empty();
    let ghost mut g_terms: Seq<Address> = Seq::empty();
    let ghost mut g_rests: Seq<Seq<char>> = Seq::empty();
    let ghost mut g_counts: Seq<usize> = Seq::empty();
    loop
        invariant_except_break
            old(r)@.len() == 0 ==> r@.len() == 0 && terms@.len() == 0,
            old(r)@.len() > 0 && !starts_address(old(r)@[0]) ==> r@ == old(r)@ && terms@.len() == 0,
            terms@.len() == 0 ==> r@ == old(r)@ && *ranges == *old(ranges),
            gram_list(old(r)@, *old(ranges) as nat, Seq::empty())
                == gram_list(r@, *ranges as nat, shapes(terms@, terms@.len() as int)),
            terms@.len() >= 1 ==> followed_by_comma(s0),
            !grouped && terms@.len() >= 1 ==> followed_by_comma(rests.last()) && r@ == after_comma(rests.last()),
        invariant
            r.wf(),
            progress(old(r)@, r@, *old(ranges), *ranges),
            *old(ranges) + old(r)@.len() <= usize::MAX,
            forall|i: int| 0 <= i < terms@.len() ==> #[trigger] terms@[i].wf(),
            !grouped ==> list_upto(old(r)@, *old(ranges), terms@, rests, counts),
            !grouped && terms@.len() >= 1 ==> counts.last() == *ranges,
            terms@.len() == 0 ==> !grouped,
            grouped ==> (old(r)@.len() > 0 && old(r)@[0] == '(') || {
                &&& list_upto(old(r)@, *old(ranges), g_terms, g_rests, g_counts)
                &&& g_terms.len() >= 1
                &&& followed_by_comma(g_rests.last())
                &&& after_comma(g_rests.last()).len() > 0 && after_comma(g_rests.last())[0] == '('
            },
            terms@.len() >= 1 ==> terms@[0] == t0,
            terms@.len() >= 1 && !(old(r)@.len() > 0 && old(r)@[0] == '(')
                ==> term_parsed(old(r)@, *old(ranges), Ok(t0), s0, m0),
        ensures
            r.wf(),
            progress(old(r)@, r@, *old(ranges), *ranges),
            forall|i: int| 0 <= i < terms@.len() ==> #[trigger] terms@[i].wf(),
            terms@.len() >= 1,
            terms@[0] == t0,
            !(old(r)@.len() > 0 && old(r)@[0] == '(') ==> term_parsed(old(r)@, *old(ranges), Ok(t0), s0, m0),
            !followed_by_comma(s0) ==> terms@.len() == 1,
            old(r)@.len() == 0 ==> r@.len() == 0 && terms@ == seq![Address::Always],
            old(r)@.len() > 0 && !starts_address(old(r)@[0]) ==> r@ == old(r)@ && terms@ == seq![Address::Always],
            !grouped ==> list_upto(old(r)@, *old(ranges), terms@, rests, counts) && !followed_by_comma(rests.last()),
            gram_list(old(r)@, *old(ranges) as nat, Seq::empty())
                == Parsed::Done(shapes(terms@, terms@.len() as int), r@, *ranges as nat),
            grouped ==> (old(r)@.len() > 0 && old(r)@[0] == '(') || {
                &&& list_upto(old(r)@, *old(ranges), g_terms, g_rests, g_counts)
                &&& g_terms.len() >= 1
                &&& followed_by_comma(g_rests.last())
                &&& after_comma(g_rests.last()).len() > 0 && after_comma(g_rests.last())[0] == '('
            },
        decreases r@.len(),
    {
        let ghost was_empty = terms@.len() == 0;
        let ghost start = r@;
        let ghost n_before = *ranges;
        proof {
            if !grouped && start.len() > 0 && start[0] == '(' {
                if !was_empty {
                    g_terms = terms@;
                    g_rests = rests;
                    g_counts = counts;
                }
                grouped = true;
            }
        }
        let ghost acc = shapes(terms@, terms@.len() as int);
        let ghost cur = r@;
        let ghost ncur = *ranges;
        let a = parse_brackets(r, ranges)?;
        let ghost r1 = r@;
        proof {
            lemma_shapes_index(terms@, terms@.len() as int);
            lemma_shapes_index(terms@.push(a), terms@.len() as int + 1);
            assert(shapes(terms@.push(a), terms@.len() as int + 1) =~= acc.push(shape(a)));
            lemma_push_wf(terms@, a);
            if was_empty {
                t0 = a;
                s0 = r@;
                m0 = *ranges;
            }
            if !grouped {
                let ts = terms@.push(a);
                let rs = rests.push(r@);
                let cs = counts.push(*ranges);
                assert(ts.drop_last() =~= terms@);
                assert(rs.drop_last() =~= rests);
                assert(cs.drop_last() =~= counts);
                assert(term_parsed(start, n_before, Ok(a), r@, *ranges));
                assert(list_upto(old(r)@, *old(ranges), ts, rs, cs));
                rests = rs;
                counts = cs;
            }
        }
        terms.push(a);
        skip_whitespace(r);
        if r.current() == Some(',') {
            proof {
                if was_empty {
                    assert(followed_by_comma(s0));
                }
                if !grouped {
                    assert(followed_by_comma(rests.last()));
                }
            }
            r.advance();
            skip_whitespace(r);
            proof {
                assert(r@.len() < cur.len());
                assert(gram_list(cur, ncur as nat, acc) == gram_list(r@, *ranges as nat, acc.push(shape(a))));
            }
        } else {
            proof {
                if was_empty {
                    assert(!followed_by_comma(s0));
                }
                if !grouped {
                    assert(!followed_by_comma(rests.last()));
                }
                assert(gram_list(cur, ncur as nat, acc) == Parsed::Done(acc.push(shape(a)), r@, *ranges as nat));
            }
            break;
        }
    }
    let ghost all = terms@;
    let res = flatten_terms(terms);
    proof {
        lemma_flattened_shape(all, res);
        if old(r)@.len() == 0 || !starts_address(old(r)@[0]) {
            assert(all[0] is Always);
            lemma_set_with_always_collapses(all, 0, res);
        }
        if !grouped {
            assert(list_upto(old(r)@, *old(ranges), all, rests, counts));
        }
        if !(old(r)@.len() > 0 && old(r)@[0] == '(') {
            if !followed_by_comma(s0) {
                assert(all =~= seq![t0]);
            }
            assert(term_parsed(old(r)@, *old(ranges), Ok(t0), s0, m0));
        }
    }
    Ok(res)
}

proof fn lemma_push_wf(terms: Seq<Address>, a: Address)
    requires
        forall|i: int| 0 <= i < terms.len() ==> #[trigger] terms[i].wf(),
        a.wf(),
    ensures
        forall|i: int| 0 <= i < terms.push(a).len() ==> #[trigger] terms.push(a)[i].wf(),
{
    assert forall|i: int| 0 <= i < terms.push(a).len() implies #[trigger] terms.push(a)[i].wf() by {
        if i < terms.len() {
            assert(terms.push(a)[i] == terms[i]);
        }
    }
}

/// Every address in the commands before index `k`, loop bodies included,
/// is well formed.
pub open spec fn commands_wf(cmds: Seq<Command>, k: int) -> bool
    decreases cmds, k,
{
    if k <= 0 || k > cmds.len() {
        true
    } else {
        commands_wf(cmds, k - 1) && match cmds[k - 1] {
            Command::Loop(body) => instructions_wf(body@, body@.len() as int),
            _ => true,
        }
    }
}

/// Every address in the instructions before index `k` is well formed.
pub open spec fn instructions_wf(instrs: Seq<Instruction>, k: int) -> bool
    decreases instrs, k,
{
    if k <= 0 || k > instrs.len() {
        true
    } else {
        &&& instructions_wf(instrs, k - 1)
        &&& instrs[k - 1].address.wf()
        &&& commands_wf(instrs[k - 1].commands@, instrs[k - 1].commands@.len() as int)
    }
}

proof fn lemma_commands_wf_push(cmds: Seq<Command>, c: Command, k: int)
    requires
        0 <= k <= cmds.len(),
    ensures
        commands_wf(cmds.push(c), k) == commands_wf(cmds, k),
    decreases k,
{
    if k > 0 {
        lemma_commands_wf_push(cmds, c, k - 1);
        assert(cmds.push(c)[k - 1] == cmds[k - 1]);
    }
}

proof fn lemma_instructions_wf_push(instrs: Seq<Instruction>, i: Instruction, k: int)
    requires
        0 <= k <= instrs.len(),
    ensures
        instructions_wf(instrs.push(i), k) == instructions_wf(instrs, k),
    decreases k,
{
    if k > 0 {
        lemma_instructions_wf_push(instrs, i, k - 1);
        assert(instrs.push(i)[k - 1] == instrs[k - 1]);
    }
}

/// The commands that take no argument.
pub open spec fn plain_command(c: char) -> Option<Command> {
    if c == 'p' { Some(Command::Println) }
    else if c == 'P' { Some(Command::Print) }
    else if c == 'l' { Some(Command::Escapeln) }
    else if c == '=' { Some(Command::LineNumber) }
    else if c == 'd' { Some(Command::Delete) }
    else if c == 'z' { Some(Command::Reset) }
    else if c == 'h' { Some(Command::Hold) }
    else if c == 'g' { Some(Command::Get) }
    else if c == 'x' { Some(Command::Exchange) }
    else if c == 'j' { Some(Command::Joinln) }
    else if c == 'J' { Some(Command::Join) }
    else if c == 'e' { Some(Command::Eval) }
    else if c == 'R' { Some(Command::ReadReplace) }
    else { None }
}

fn plain(c: char) -> (r: Option<Command>)
    ensures
        r == plain_command(c),
{
    if c == 'p' { Some(Command::Println) }
    else if c == 'P' { Some(Command::Print) }
    else if c == 'l' { Some(Command::Escapeln) }
    else if c == '=' { Some(Command::LineNumber) }
    else if c == 'd' { Some(Command::Delete) }
    else if c == 'z' { Some(Command::Reset) }
    else if c == 'h' { Some(Command::Hold) }
    else if c == 'g' { Some(Command::Get) }
    else if c == 'x' { Some(Command::Exchange) }
    else if c == 'j' { Some(Command::Joinln) }
    else if c == 'J' { Some(Command::Join) }
    else if c == 'e' { Some(Command::Eval) }
    else if c == 'R' { Some(Command::ReadReplace) }
    else { None }
}

/// Skips the rest of the line, its newline included.
fn skip_line(r: &mut StringReader)
    requires
        old(r).wf(),
    ensures
        final(r).wf(),
        final(r)@.len() <= old(r)@.len(),
        final(r)@ == skip_line_text(old(r)@),
{
    loop
        invariant
            r.wf(),
            r@.len() <= old(r)@.len(),
            skip_line_text(old(r)@) == skip_line_text(r@),
        decreases r@.len(),
    {
        match r.advance() {
            Some(c) => {
                if c == '\n' {
                    return;
                }
            },
            None => {
                return;
            },
        }
    }
}

/// The limit that follows a substitution, after any whitespace: `g` or
/// nothing for all matches, else the number written.
pub open spec fn limit_of(s: Seq<char>) -> nat {
    if s.len() > 0 && is_digit(s[0]) { digits_value(s.subrange(0, digit_run(s) as int)) } else { 0 }
}

/// Whether `s` starts with a substitution argument that is accepted: a
/// closed, non-empty pattern that compiles, a closed template that decodes,
/// and a limit that fits.
pub open spec fn substitute_parses(s: Seq<char>) -> bool {
    let p = scan_until(s.drop_first(), '/');
    let t = scan_template(p->Some_0.1);
    &&& s.len() > 0 && s[0] == '/'
    &&& p is Some
    &&& p->Some_0.0.len() > 0
    &&& compiles(p->Some_0.0)
    &&& t is Some
    &&& unescaped(t->Some_0.0) is Some
    &&& limit_of(skip_spaces(t->Some_0.1)) <= usize::MAX
}

/// Parses `/pattern/template/[g|N]`, after the `s`; whitespace may stand
/// before the first `/` and before the limit.
pub fn parse_substitute(r: &mut StringReader) -> (res: Result<Command, Error>)
    requires
        old(r).wf(),
    ensures
        final(r).wf(),
        final(r)@.len() <= old(r)@.len(),
        ({
            let s = skip_spaces(old(r)@);
            s.len() == 0 || s[0] != '/'
        }) ==> (res matches Err(Error::Missing(d)) && d == '/'),
        substitute_parses(skip_spaces(old(r)@)) ==> res is Ok,
        cmd_res(res, final(r)@, 0, gram_subst(old(r)@, 0)),
        res matches Ok(c) ==> {
            &&& c matches Command::Substitute(rp)
            &&& scan_until(skip_spaces(old(r)@).drop_first(), '/') matches Some((t, rest))
            &&& t.len() > 0
            &&& rp.regex@ == t
            &&& scan_template(rest) matches Some((raw, rest2))
            &&& unescaped(raw) == Some(rp.template@)
            &&& !raw.contains('\\') ==> rp.template@ == raw
            &&& rp.limit == limit_of(skip_spaces(rest2))
        },
{
    skip_whitespace(r);
    if r.current() != Some('/') {
        return Err(Error::Missing('/'));
    }
    r.advance();
    let src = read_until(r, '/')?;
    if src.len() == 0 {
        return Err(Error::Unexpected('/'));
    }
    let regex = Pattern::new(&src)?;
    let ghost rest = r@;
    let dst = read_template(r)?;
    let template = chars_string(&dst);
    skip_whitespace(r);
    let ghost rest2 = r@;
    let mut limit: usize = 0;
    match r.current() {
        Some(c) => {
            if c == 'g' {
                r.advance();
            } else if char_is_digit(c) {
                proof { lemma_digit_run_bound(rest2); }
                let digits = read_integer(r);
                limit = parse_number(&digits, usize::MAX)?;
            }
        },
        None => {},
    }
    Ok(Command::Substitute(Replacer { regex, template, limit }))
}

/// The first column of a keep argument: its leading number, or 1.
pub open spec fn first_column(s: Seq<char>) -> nat {
    if digit_run(s) == 0 { 1 } else { digits_value(s.subrange(0, digit_run(s) as int)) }
}

/// The message for a refused column range `lo-hi`.
pub open spec fn keep_message(lo: nat, hi: nat) -> Seq<char> {
    if lo > hi { order_message(lo, hi) } else { decimal(lo) + seq!['-'] + decimal(hi) }
}

fn keep_error(lo: usize, hi: usize) -> (r: String)
    ensures
        r@ == keep_message(lo as nat, hi as nat),
{
    if lo > hi {
        order_error(lo, hi)
    } else {
        let mut m = usize_decimal(lo);
        append(&mut m, "-");
        let h = usize_decimal(hi);
        append(&mut m, h.as_str());
        proof {
            reveal_strlit("-");
            assert(m@ =~= decimal(lo as nat) + seq!['-'] + decimal(hi as nat));
        }
        m
    }
}

/// The text after the start column of a keep argument.
pub open spec fn after_start(s: Seq<char>) -> Seq<char> {
    s.subrange(digit_run(s) as int, s.len() as int)
}

/// Whether a `-` follows the start column.
pub open spec fn has_dash(s: Seq<char>) -> bool {
    after_start(s).len() > 0 && after_start(s)[0] == '-'
}

/// The text after the `-`.
pub open spec fn after_dash(s: Seq<char>) -> Seq<char> {
    after_start(s).drop_first()
}

/// Whether an end column is written.
pub open spec fn has_end(s: Seq<char>) -> bool {
    has_dash(s) && digit_run(after_dash(s)) > 0
}

/// The end column: the number written, else the start column.
pub open spec fn last_column(s: Seq<char>) -> nat {
    if has_end(s) {
        digits_value(after_dash(s).subrange(0, digit_run(after_dash(s)) as int))
    } else {
        first_column(s)
    }
}

/// The text left after a keep argument.
pub open spec fn after_keep(s: Seq<char>) -> Seq<char> {
    if !has_dash(s) {
        after_start(s)
    } else {
        after_dash(s).subrange(digit_run(after_dash(s)) as int, after_dash(s).len() as int)
    }
}

/// Parses `[start][-[end]]`, after the `k`: 1-based columns, one column when
/// there is no `-`, up to the end when `end` is missing. Columns equal to 0
/// or out of order are refused with a message naming both.
pub fn parse_keep(r: &mut StringReader) -> (res: Result<Command, Error>)
    requires
        old(r).wf(),
    ensures
        final(r).wf(),
        final(r)@.len() <= old(r)@.len(),
        ({
            let s = old(r)@;
            first_column(s) > usize::MAX || last_column(s) > usize::MAX
        }) ==> res matches Err(Error::ParseInt(_)),
        ({
            let s = old(r)@;
            &&& first_column(s) <= usize::MAX && last_column(s) <= usize::MAX
            &&& (first_column(s) == 0 || last_column(s) == 0 || first_column(s) > last_column(s))
        }) ==> (res matches Err(Error::InvalidAddr(m)) && m@ == keep_message(first_column(old(r)@), last_column(old(r)@))),
        ({
            let s = old(r)@;
            &&& first_column(s) <= usize::MAX && last_column(s) <= usize::MAX
            &&& 1 <= first_column(s) <= last_column(s)
        }) ==> {
            let s = old(r)@;
            &&& res matches Ok(Command::Keep(a, len))
            &&& a + 1 == first_column(s)
            &&& !has_dash(s) ==> len == Some(1usize)
            &&& has_dash(s) && !has_end(s) ==> len is None
            &&& has_end(s) ==> (len matches Some(l) && a + l == last_column(s))
            &&& final(r)@ == after_keep(s)
        },
        cmd_res(res, final(r)@, 0, gram_keep(old(r)@, 0)),
{
    proof { lemma_digit_run_bound(old(r)@); }
    let first = read_integer(r);
    let start: usize = if first.len() == 0 { 1 } else { parse_number(&first, usize::MAX)? };
    if r.current() != Some('-') {
        if start == 0 {
            return Err(Error::InvalidAddr(keep_error(start, start)));
        }
        return Ok(Command::Keep(start - 1, Some(1)));
    }
    r.advance();
    proof { lemma_digit_run_bound(r@); }
    let second = read_integer(r);
    if second.len() == 0 {
        if start == 0 {
            return Err(Error::InvalidAddr(keep_error(start, start)));
        }
        return Ok(Command::Keep(start - 1, None));
    }
    let end = parse_number(&second, usize::MAX)?;
    if start == 0 || end == 0 || start > end {
        return Err(Error::InvalidAddr(keep_error(start, end)));
    }
    Ok(Command::Keep(start - 1, Some(end - start + 1)))
}

/// Whether a loop body is empty: `{`, whitespace, `}`.
pub open spec fn closes_at_once(s: Seq<char>) -> bool {
    let t = skip_spaces(s.drop_first());
    t.len() > 0 && t[0] == '}'
}

/// Parses a loop body `{ instructions }`, after the `:`.
pub fn parse_loop(r: &mut StringReader, ranges: &mut usize) -> (res: Result<Command, Error>)
    requires
        old(r).wf(),
        *old(ranges) + old(r)@.len() <= usize::MAX,
    ensures
        final(r).wf(),
        progress(old(r)@, final(r)@, *old(ranges), *final(ranges)),
        res matches Ok(c) ==> (c matches Command::Loop(body) && instructions_wf(body@, body@.len() as int)),
        (old(r)@.len() == 0 || old(r)@[0] != '{') ==> (res matches Err(Error::Missing(d)) && d == '{'),
        old(r)@.len() > 0 && old(r)@[0] == '{' && skip_spaces(old(r)@.drop_first()).len() == 0
            ==> (res matches Err(Error::Missing(d)) && d == '}'),
        old(r)@.len() > 0 && old(r)@[0] == '{' && closes_at_once(old(r)@) ==> {
            &&& res matches Ok(Command::Loop(body)) && body@.len() == 0
            &&& final(r)@ == skip_spaces(old(r)@.drop_first()).drop_first()
        },
        cmd_res(res, final(r)@, *final(ranges), gram_loop(old(r)@, *old(ranges) as nat)),
    decreases old(r)@.len(), 5nat,
{
    if r.advance() != Some('{') {
        return Err(Error::Missing('{'));
    }
    let mut body: Vec<Instruction> = Vec::new();
    loop
        invariant_except_break
            body@.len() == 0 ==> r@ == old(r)@.drop_first(),
            body@.len() > 0 ==> !closes_at_once(old(r)@),
            body@.len() > 0 ==> skip_spaces(old(r)@.drop_first()).len() > 0,
            gram_body(old(r)@.drop_first(), *old(ranges) as nat, Seq::empty())
                == gram_body(r@, *ranges as nat, ishapes(body@, body@.len() as int)),
        invariant
            old(r)@.len() > 0 && old(r)@[0] == '{',
            r.wf(),
            progress(old(r)@, r@, *old(ranges), *ranges),
            r@.len() < old(r)@.len(),
            *old(ranges) + old(r)@.len() <= usize::MAX,
            instructions_wf(body@, body@.len() as int),
        ensures
            r.wf(),
            progress(old(r)@, r@, *old(ranges), *ranges),
            instructions_wf(body@, body@.len() as int),
            closes_at_once(old(r)@) ==> body@.len() == 0 && r@ == skip_spaces(old(r)@.drop_first()).drop_first(),
            skip_spaces(old(r)@.drop_first()).len() > 0,
            gram_body(old(r)@.drop_first(), *old(ranges) as nat, Seq::empty())
                == Parsed::Done(ishapes(body@, body@.len() as int), r@, *ranges as nat),
        decreases r@.len(),
    {
        let ghost s0 = r@;
        let ghost nb = *ranges;
        skip_whitespace(r);
        match r.current() {
            Some(c) => {
                if c == '}' {
                    r.advance();
                    break;
                }
                let ghost n1 = *ranges;
                let ghost u = r@;
                let ins = parse_instruction(r, ranges)?;
                proof {
                    lemma_instructions_wf_push(body@, ins, body@.len() as int);
                    lemma_ishapes_push(body@, ins);
                    assert(gram_body(s0, nb as nat, ishapes(body@, body@.len() as int))
                        == gram_body(r@, *ranges as nat, ishapes(body@, body@.len() as int).push(ishape(ins))));
                }
                body.push(ins);
            },
            None => {
                return Err(Error::Missing('}'));
            },
        }
    }
    Ok(Command::Loop(body))
}

/// The characters that can start a command, a comment or the end of an
/// instruction.
pub open spec fn starts_command(c: char) -> bool {
    plain_command(c) is Some || c == 'n' || c == 't' || c == 's' || c == 'k' || c == 'r' || c == 'q'
        || c == ':' || c == '\'' || c == '"' || c == '#' || c == ';' || c == '.' || c == 'b'
}

proof fn lemma_single_wf(c: Command)
    requires
        c matches Command::Loop(body) ==> instructions_wf(body@, body@.len() as int),
    ensures
        commands_wf(seq![c], 1),
{
    assert(seq![c][0] == c);
    assert(seq![c].len() == 1);
    assert(commands_wf(seq![c], 0));
}

/// Parses the command that starts with `c`, whose argument follows.
pub fn parse_command(c: char, r: &mut StringReader, ranges: &mut usize) -> (res: Result<Command, Error>)
    requires
        old(r).wf(),
        *old(ranges) + old(r)@.len() <= usize::MAX,
        c != ';' && c != '.' && c != 'b' && c != '#' && !is_space(c),
    ensures
        final(r).wf(),
        progress(old(r)@, final(r)@, *old(ranges), *final(ranges)),
        res matches Ok(v) ==> commands_wf(seq![v], 1),
        !starts_command(c) ==> (res matches Err(Error::Unexpected(d)) && d == c),
        plain_command(c) is Some ==> (res == Ok::<Command, Error>(plain_command(c)->Some_0) && final(r)@ == old(r)@),
        cmd_res(res, final(r)@, *final(ranges), gram_command(c, old(r)@, *old(ranges) as nat)),
    decreases old(r)@.len(), 6nat,
{
    let ghost t = old(r)@;
    let ghost n = *old(ranges) as nat;
    let cmd = if let Some(p) = plain(c) {
        proof { assert(gram_command(c, t, n) == Parsed::Done(cshape(p), r@, *ranges as nat)); }
        p
    } else if c == 'n' {
        let v = vec!['\n'];
        proof {
            assert(v@ =~= seq!['\n']);
            assert(gram_command(c, t, n) == Parsed::Done(CShape::Insert(seq!['\n']), r@, *ranges as nat));
        }
        Command::Insert(chars_string(&v))
    } else if c == 't' {
        let v = vec!['\t'];
        proof { assert(v@ =~= seq!['\t']); }
        Command::Insert(chars_string(&v))
    } else if c == 's' {
        let x = parse_substitute(r)?;
        proof { assert(gram_command(c, t, n) == with_count(gram_subst(t, 0), n)); }
        x
    } else if c == 'k' {
        skip_whitespace(r);
        let x = parse_keep(r)?;
        proof { assert(gram_command(c, t, n) == with_count(gram_keep(skip_spaces(t), 0), n)); }
        x
    } else if c == 'r' {
        skip_whitespace(r);
        proof { lemma_digit_run_bound(r@); }
        let ghost u = r@;
        let digits = read_integer(r);
        proof {
            if digits.len() == 0 {
                assert(r@ =~= u);
            }
        }
        let k = if digits.len() == 0 { 1 } else { parse_number(&digits, usize::MAX)? };
        proof { assert(gram_command(c, t, n) == Parsed::Done(CShape::Readln(k as nat), r@, *ranges as nat)); }
        Command::Readln(k)
    } else if c == 'q' {
        skip_whitespace(r);
        proof { lemma_digit_run_bound(r@); }
        let ghost u = r@;
        let digits = read_integer(r);
        proof {
            if digits.len() == 0 {
                assert(r@ =~= u);
            }
        }
        let code = if digits.len() == 0 { 0 } else { parse_number(&digits, 2147483647)? };
        proof {
            assert((code as i32) as int == code as int);
            assert(gram_command(c, t, n) == Parsed::Done(CShape::Quit(code as int), r@, *ranges as nat));
        }
        Command::Quit(code as i32)
    } else if c == ':' {
        let x = parse_loop(r, ranges)?;
        proof {
            lemma_single_wf(x);
            assert(gram_command(c, t, n) == gram_loop(t, n));
        }
        x
    } else if c == '\'' || c == '"' {
        let text = read_until(r, c)?;
        let msg = unescape(&text)?;
        proof { assert(gram_command(c, t, n) == Parsed::Done(CShape::Insert(msg@), r@, *ranges as nat)); }
        Command::Insert(chars_string(&msg))
    } else {
        return Err(Error::Unexpected(c));
    };
    proof {
        lemma_single_wf(cmd);
    }
    Ok(cmd)
}

/// Parses the commands of one instruction, up to `;`, a break, the `}` that
/// closes a loop body, or the end of the script.
pub fn parse_cmds(r: &mut StringReader, ranges: &mut usize) -> (res: Result<Vec<Command>, Error>)
    requires
        old(r).wf(),
        *old(ranges) + old(r)@.len() <= usize::MAX,
    ensures
        final(r).wf(),
        progress(old(r)@, final(r)@, *old(ranges), *final(ranges)),
        old(r)@.len() > 0 ==> final(r)@.len() < old(r)@.len(),
        res matches Ok(v) ==> commands_wf(v@, v@.len() as int),
        old(r)@.len() == 0 ==> (res matches Ok(v) && v@.len() == 0),
        old(r)@.len() > 0 && old(r)@[0] == ';' ==> (res matches Ok(v) && v@.len() == 0
            && final(r)@ == old(r)@.drop_first()),
        old(r)@.len() > 0 && old(r)@[0] == '.' ==> (res matches Ok(v) && v@ == seq![Command::Break]
            && final(r)@ == old(r)@.drop_first()),
        old(r)@.len() > 0 && !starts_command(old(r)@[0]) && !is_space(old(r)@[0])
            ==> (res matches Err(Error::Unexpected(c)) && c == old(r)@[0]),
        old(r)@.len() > 0 && plain_command(old(r)@[0]) is Some && skip_spaces(old(r)@.drop_first()).len() == 0
            ==> (res matches Ok(v) && v@ == seq![plain_command(old(r)@[0])->Some_0] && final(r)@.len() == 0),
        cmds_res(res, final(r)@, *final(ranges), gram_cmds(old(r)@, *old(ranges) as nat, Seq::empty())),
    decreases old(r)@.len(), 1nat,
{
    let mut cmds: Vec<Command> = Vec::new();
    let ghost first = true;
    loop
        invariant_except_break
            first ==> r@ == old(r)@ && cmds@.len() == 0,
            !first && old(r)@.len() > 0 && plain_command(old(r)@[0]) is Some
                && skip_spaces(old(r)@.drop_first()).len() == 0
                ==> r@.len() == 0 && cmds@ == seq![plain_command(old(r)@[0])->Some_0],
            !first ==> old(r)@.len() > 0 && r@.len() < old(r)@.len(),
            !first ==> (starts_command(old(r)@[0]) || is_space(old(r)@[0])) && old(r)@[0] != ';'
                && old(r)@[0] != '.' && old(r)@[0] != 'b',
            gram_cmds(old(r)@, *old(ranges) as nat, Seq::empty())
                == gram_cmds(r@, *ranges as nat, cshapes(cmds@, cmds@.len() as int)),
        invariant
            r.wf(),
            progress(old(r)@, r@, *old(ranges), *ranges),
            *old(ranges) + old(r)@.len() <= usize::MAX,
            old(r)@.len() > 0 ==> r@.len() < old(r)@.len() || r@ == old(r)@,
            commands_wf(cmds@, cmds@.len() as int),
        ensures
            r.wf(),
            progress(old(r)@, r@, *old(ranges), *ranges),
            old(r)@.len() > 0 ==> r@.len() < old(r)@.len(),
            commands_wf(cmds@, cmds@.len() as int),
            old(r)@.len() == 0 ==> cmds@.len() == 0,
            old(r)@.len() > 0 && old(r)@[0] == ';' ==> cmds@.len() == 0 && r@ == old(r)@.drop_first(),
            old(r)@.len() > 0 && old(r)@[0] == '.' ==> cmds@ == seq![Command::Break] && r@ == old(r)@.drop_first(),
            old(r)@.len() > 0 && plain_command(old(r)@[0]) is Some && skip_spaces(old(r)@.drop_first()).len() == 0
                ==> cmds@ == seq![plain_command(old(r)@[0])->Some_0] && r@.len() == 0,
            old(r)@.len() > 0 ==> starts_command(old(r)@[0]) || is_space(old(r)@[0]),
            gram_cmds(old(r)@, *old(ranges) as nat, Seq::empty())
                == Parsed::Done(cshapes(cmds@, cmds@.len() as int), r@, *ranges as nat),
        decreases r@.len(),
    {
        let ghost was_first = first;
        let ghost s0 = r@;
        let ghost nb = *ranges;
        let ghost acc = cshapes(cmds@, cmds@.len() as int);
        proof { first = false; }
        let c = match r.advance() {
            Some(c) => c,
            None => {
                break;
            },
        };
        if c == ';' {
            break;
        } else if c == '.' {
            proof {
                lemma_commands_wf_push(cmds@, Command::Break, cmds@.len() as int);
                lemma_cshapes_push(cmds@, Command::Break);
            }
            cmds.push(Command::Break);
            break;
        } else if c == 'b' {
            skip_whitespace(r);
            if r.advance() != Some(';') {
                return Err(Error::Missing(';'));
            }
            proof {
                lemma_commands_wf_push(cmds@, Command::Break, cmds@.len() as int);
                lemma_cshapes_push(cmds@, Command::Break);
            }
            cmds.push(Command::Break);
            break;
        } else if c == '#' {
            skip_line(r);
        } else if char_is_space(c) {
        } else {
            let cmd = parse_command(c, r, ranges)?;
            proof {
                lemma_commands_wf_push(cmds@, cmd, cmds@.len() as int);
                lemma_cshapes_push(cmds@, cmd);
            }
            cmds.push(cmd);
            skip_whitespace(r);
            if r.current() == Some('}') {
                break;
            }
        }
    }
    Ok(cmds)
}

/// Parses one instruction: an address expression, then its commands.
pub fn parse_instruction(r: &mut StringReader, ranges: &mut usize) -> (res: Result<Instruction, Error>)
    requires
        old(r).wf(),
        *old(ranges) + old(r)@.len() <= usize::MAX,
    ensures
        final(r).wf(),
        progress(old(r)@, final(r)@, *old(ranges), *final(ranges)),
        res is Ok && old(r)@.len() > 0 ==> final(r)@.len() < old(r)@.len(),
        res matches Ok(i) ==> i.address.wf() && commands_wf(i.commands@, i.commands@.len() as int),
        old(r)@.len() == 0 ==> (res matches Ok(i) && i.address is Always && i.commands@.len() == 0),
        old(r)@.len() > 0 && plain_command(old(r)@[0]) is Some && skip_spaces(old(r)@.drop_first()).len() == 0
            ==> (res matches Ok(i) && i.address is Always && final(r)@.len() == 0
                && i.commands@ == seq![plain_command(old(r)@[0])->Some_0]),
        leading_term_fails(old(r)@) ==> (res matches Err(e) && range_error_is(skip_spaces(old(r)@), e)),
        res is Ok ==> leading_term_is(old(r)@, *old(ranges), res->Ok_0.address),
        res is Ok ==> list_read(skip_spaces(old(r)@), *old(ranges), res->Ok_0.address),
        instr_res(res, final(r)@, *final(ranges), gram_instr(old(r)@, *old(ranges) as nat)),
    decreases old(r)@.len(), 4nat,
{
    skip_whitespace(r);
    let ghost s = r@;
    let ghost n = *ranges;
    let address = parse_addrs(r, ranges)?;
    proof {
        if !(s.len() > 0 && s[0] == '(') {
            let (t0, s0, m) = choose|t0: Address, s0: Seq<char>, m: usize| {
                &&& #[trigger] term_parsed(s, n, Ok(t0), s0, m)
                &&& !followed_by_comma(s0) ==> flattened_is(seq![t0], address)
            };
            assert(term_parsed(s, n, Ok(t0), s0, m));
        }
    }
    skip_whitespace(r);
    let commands = parse_cmds(r, ranges)?;
    Ok(Instruction { address, commands })
}

/// Whether the script, after whitespace, starts with an unparenthesised
/// term that fails to parse.
pub open spec fn leading_term_fails(s: Seq<char>) -> bool {
    let t = skip_spaces(s);
    !(t.len() > 0 && t[0] == '(') && range_fails(t)
}

/// Whether `a` fits the address expression at the front of `s` (after
/// whitespace), with `n` ranges numbered before: when that expression starts
/// with an unparenthesised term and no `,` follows it, `a` is that term,
/// flattened.
pub open spec fn leading_term_is(s: Seq<char>, n: usize, a: Address) -> bool {
    let t = skip_spaces(s);
    !(t.len() > 0 && t[0] == '(') ==> exists|t0: Address, s0: Seq<char>, m: usize| {
        &&& #[trigger] term_parsed(t, n, Ok(t0), s0, m)
        &&& !followed_by_comma(s0) ==> flattened_is(seq![t0], a)
    }
}

/// A script of one command that takes no argument, perhaps followed by
/// whitespace.
pub open spec fn single_plain(s: Seq<char>) -> bool {
    s.len() > 0 && plain_command(s[0]) is Some && skip_spaces(s.drop_first()).len() == 0
}

/// Parses a whole script. Every line number in it is at least 1, every
/// range has its own number, and the editor starts with all of them closed.
#[verifier::rlimit(50)]
pub fn parse(r: &mut StringReader) -> (res: Result<Editor, Error>)
    requires
        old(r).wf(),
    ensures
        final(r).wf(),
        res matches Ok(e) ==> {
            &&& instructions_wf(e.program(), e.program().len() as int)
            &&& e.program().len() >= 1
            &&& e.lines_seen() == 0
            &&& e.held().len() == 0
            &&& forall|i: int| 0 <= i < e.ranges().len() ==> !e.ranges()[i]
        },
        old(r)@.len() == 0 ==> (res matches Ok(e) && e.program().len() == 1
            && e.program()[0].address is Always && e.program()[0].commands@.len() == 0),
        single_plain(old(r)@) ==> (res matches Ok(e) && e.program().len() == 1 && e.program()[0].address is Always
                && e.program()[0].commands@ == seq![plain_command(old(r)@[0])->Some_0]),
        leading_term_fails(old(r)@) ==> (res matches Err(e) && range_error_is(skip_spaces(old(r)@), e)),
        res matches Ok(e) ==> leading_term_is(old(r)@, 0, e.program()[0].address),
        res matches Ok(e) ==> list_read(skip_spaces(old(r)@), 0, e.program()[0].address),
        res is Ok <==> gram_script(old(r)@, 0, Seq::empty()) is Done,
        res matches Ok(e) ==> {
            &&& ishapes(e.program(), e.program().len() as int) == gram_script(old(r)@, 0, Seq::empty())->Done_0
            &&& e.ranges().len() == gram_script(old(r)@, 0, Seq::empty())->Done_2
        },
        res matches Err(e) ==> err_is(e, gram_script(old(r)@, 0, Seq::empty())->Fail_0),
        res matches Ok(e) ==> increasing_in(iids_all(ishapes(e.program(), e.program().len() as int),
            e.program().len() as int), 0, e.ranges().len()),
{
    let mut ranges: usize = 0;
    let mut instructions: Vec<Instruction> = Vec::new();
    let ghost total = r@.len();
    proof { r.lemma_len_fits(); }
    loop
        invariant_except_break
            total == 0 ==> r@.len() == 0 && instructions@.len() == 0,
            single_plain(old(r)@) ==> r@ == old(r)@ && instructions@.len() == 0,
            instructions@.len() == 0 ==> r@ == old(r)@ && ranges == 0,
            gram_script(old(r)@, 0, Seq::empty())
                == gram_script(r@, ranges as nat, ishapes(instructions@, instructions@.len() as int)),
        invariant
            instructions@.len() >= 1 ==> leading_term_is(old(r)@, 0, instructions@[0].address),
            instructions@.len() >= 1 ==> list_read(skip_spaces(old(r)@), 0, instructions@[0].address),
            r.wf(),
            ranges + r@.len() <= total,
            total <= usize::MAX,
            total == old(r)@.len(),
            instructions_wf(instructions@, instructions@.len() as int),
        ensures
            r.wf(),
            instructions_wf(instructions@, instructions@.len() as int),
            instructions@.len() >= 1,
            total == 0 ==> instructions@.len() == 1 && instructions@[0].address is Always
                && instructions@[0].commands@.len() == 0,
            single_plain(old(r)@) ==> instructions@.len() == 1 && instructions@[0].address is Always
                && instructions@[0].commands@ == seq![plain_command(old(r)@[0])->Some_0],
            leading_term_is(old(r)@, 0, instructions@[0].address),
            list_read(skip_spaces(old(r)@), 0, instructions@[0].address),
            gram_script(old(r)@, 0, Seq::empty())
                == Parsed::Done(ishapes(instructions@, instructions@.len() as int), r@, ranges as nat),
        decreases r@.len(),
    {
        let ghost before = r@.len();
        let ghost s0 = r@;
        let ghost nb = ranges;
        let ins = parse_instruction(r, &mut ranges)?;
        proof { lemma_ishapes_push(instructions@, ins); }
        proof { lemma_instructions_wf_push(instructions@, ins, instructions@.len() as int); }
        let ghost prev = instructions@;
        instructions.push(ins);
        proof {
            if prev.len() > 0 {
                assert(instructions@[0] == prev[0]);
            }
        }
        if r.current().is_none() {
            break;
        }
    }
    proof {
        assert(increasing_in(iids_all(Seq::<IShape>::empty(), 0), 0, 0));
        lemma_script_ids(old(r)@, 0, Seq::empty(), 0);
        crate::shape::lemma_ishapes_len(instructions@, instructions@.len() as int);
        assert(increasing_in(iids_all(ishapes(instructions@, instructions@.len() as int), instructions@.len() as int),
            0, ranges as nat));
    }
    Ok(Editor::new(instructions, ranges))
}

/// The address that a list of terms stands for, as a shape.
pub proof fn lemma_flattened_shape(terms: Seq<Address>, a: Address)
    requires
        flattened_is(terms, a),
    ensures
        shape(a) == flat_shape(shapes(terms, terms.len() as int)),
{
    let sh = shapes(terms, terms.len() as int);
    lemma_shapes_index(terms, terms.len() as int);
    lemma_spliced_shapes(terms);
    let sp = spliced(terms);
    lemma_shapes_index(sp, sp.len() as int);
    if has_always(terms) {
        let i = choose|i: int| 0 <= i < terms.len() && #[trigger] terms[i] is Always;
        assert(sh[i] is Always);
    } else {
        assert forall|i: int| 0 <= i < sh.len() implies !(#[trigger] sh[i] is Always) by {
            assert(!(terms[i] is Always));
        }
        if sp.len() != 1 {
            let v = a->AnyOf_0;
            assert(v@ == sp);
        }
    }
}

/// The error for the refused simple address at the front of `s`.
pub open spec fn simple_err(s: Seq<char>) -> PErr {
    if s.len() > 0 && s[0] == '/' {
        match scan_until(s.drop_first(), '/') {
            Some(_) => PErr::Regex,
            None => PErr::Missing('/'),
        }
    } else if s.len() > 0 && s[0] == '^' {
        match scan_anchored(s) {
            Some(_) => PErr::Regex,
            None => PErr::Missing('$'),
        }
    } else {
        let ds = s.subrange(0, digit_run(s) as int);
        if digits_value(ds) == 0 { PErr::InvalidAddr(ds) } else { PErr::ParseInt(ds) }
    }
}

/// The shape a simple address stands for, `dflt` standing for none.
pub open spec fn kshape(k: Simple, dflt: AShape) -> AShape {
    match k {
        Simple::Never => AShape::Never,
        Simple::Line(v) => AShape::Location(v),
        Simple::Pattern(t) => AShape::Regex(t),
        _ => dflt,
    }
}

/// The grammar of `simple['-'simple]`.
pub open spec fn gram_range(s: Seq<char>, n: nat) -> Parsed<AShape> {
    let (k1, s1) = simple_scan(s);
    let s2 = skip_spaces(s1);
    if k1 is Fails {
        Parsed::Fail(simple_err(s))
    } else if !(s2.len() > 0 && s2[0] == '-') {
        Parsed::Done(kshape(k1, AShape::Always), s2, n)
    } else {
        let (k2, s3) = simple_scan(s2.drop_first());
        if k2 is Fails {
            Parsed::Fail(simple_err(s2.drop_first()))
        } else if k1 is Line && k2 is Line && k1->Line_0 > k2->Line_0 {
            Parsed::Fail(PErr::InvalidAddr(order_message(k1->Line_0, k2->Line_0)))
        } else {
            Parsed::Done(AShape::Between(Box::new(kshape(k1, AShape::Always)), Box::new(kshape(k2, AShape::Never)), n), s3, n + 1)
        }
    }
}

/// An optional `!` after whitespace, negating `a`.
pub open spec fn gram_bang(a: AShape, s: Seq<char>, n: nat) -> Parsed<AShape> {
    if s.len() > 0 && s[0] == '!' { Parsed::Done(neg_shape(a), s.drop_first(), n) } else { Parsed::Done(a, s, n) }
}

/// The grammar of a term: `( list )` or a range, then an optional `!`.
pub open spec fn gram_term(s: Seq<char>, n: nat) -> Parsed<AShape>
    decreases s.len(), 2nat,
{
    if s.len() > 0 && s[0] == '(' {
        let t = skip_spaces(s.drop_first());
        if t.len() >= s.len() {
            Parsed::Fail(PErr::Missing(')'))
        } else {
            match gram_list(t, n, Seq::empty()) {
                Parsed::Fail(e) => Parsed::Fail(e),
                Parsed::Done(terms, r1, n1) => {
                    let r2 = skip_spaces(r1);
                    if !(r2.len() > 0 && r2[0] == ')') {
                        Parsed::Fail(PErr::Missing(')'))
                    } else {
                        gram_bang(flat_shape(terms), r2.drop_first(), n1)
                    }
                },
            }
        }
    } else {
        match gram_range(s, n) {
            Parsed::Fail(e) => Parsed::Fail(e),
            Parsed::Done(a, r1, n1) => gram_bang(a, skip_spaces(r1), n1),
        }
    }
}

/// The grammar of a comma-separated list of terms, `acc` the terms read so
/// far.
pub open spec fn gram_list(s: Seq<char>, n: nat, acc: Seq<AShape>) -> Parsed<Seq<AShape>>
    decreases s.len(), 3nat,
{
    match gram_term(s, n) {
        Parsed::Fail(e) => Parsed::Fail(e),
        Parsed::Done(a, r1, n1) => {
            let r2 = skip_spaces(r1);
            if r2.len() > 0 && r2[0] == ',' {
                let t = skip_spaces(r2.drop_first());
                if t.len() < s.len() {
                    gram_list(t, n1, acc.push(a))
                } else {
                    Parsed::Fail(PErr::Missing(','))
                }
            } else {
                Parsed::Done(acc.push(a), r2, n1)
            }
        },
    }
}

/// The grammar of an address expression: its terms, flattened.
pub open spec fn gram_addrs(s: Seq<char>, n: nat) -> Parsed<AShape> {
    match gram_list(s, n, Seq::empty()) {
        Parsed::Fail(e) => Parsed::Fail(e),
        Parsed::Done(terms, r, m) => Parsed::Done(flat_shape(terms), r, m),
    }
}

/// Whether an address result agrees with what the grammar gives.
pub open spec fn addr_res(res: Result<Address, Error>, rest: Seq<char>, n2: usize, g: Parsed<AShape>) -> bool {
    match g {
        Parsed::Done(a, r, m) => res is Ok && shape(res->Ok_0) == a && rest == r && n2 == m,
        Parsed::Fail(e) => res is Err && err_is(res->Err_0, e),
    }
}

/// The text after the rest of the line, its newline included.
pub open spec fn skip_line_text(s: Seq<char>) -> Seq<char>
    decreases s.len(),
{
    if s.len() == 0 {
        s
    } else if s[0] == '\n' {
        s.drop_first()
    } else {
        skip_line_text(s.drop_first())
    }
}

/// The grammar of a number argument: the digits at the front, `dflt` when
/// there are none; it must fit in `limit`.
pub open spec fn gram_number(s: Seq<char>, dflt: nat, limit: nat, n: nat) -> Parsed<nat> {
    let k = digit_run(s);
    let ds = s.subrange(0, k as int);
    if k == 0 {
        Parsed::Done(dflt, s, n)
    } else if digits_value(ds) <= limit {
        Parsed::Done(digits_value(ds), s.subrange(k as int, s.len() as int), n)
    } else {
        Parsed::Fail(PErr::ParseInt(ds))
    }
}

/// The grammar of `/pattern/template/[g|N]`.
pub open spec fn gram_subst(s: Seq<char>, n: nat) -> Parsed<CShape> {
    let u = skip_spaces(s);
    if !(u.len() > 0 && u[0] == '/') {
        Parsed::Fail(PErr::Missing('/'))
    } else {
        match scan_until(u.drop_first(), '/') {
            None => Parsed::Fail(PErr::Missing('/')),
            Some((t, r1)) => if t.len() == 0 {
                Parsed::Fail(PErr::Unexpected('/'))
            } else if !compiles(t) {
                Parsed::Fail(PErr::Regex)
            } else {
                match scan_template(r1) {
                    None => Parsed::Fail(PErr::Missing('/')),
                    Some((raw, r2)) => match unescaped(raw) {
                        None => Parsed::Fail(PErr::Parsing(raw)),
                        Some(tp) => {
                            let r3 = skip_spaces(r2);
                            if r3.len() > 0 && r3[0] == 'g' {
                                Parsed::Done(CShape::Substitute(t, tp, 0), r3.drop_first(), n)
                            } else {
                                match gram_number(r3, 0, usize::MAX as nat, n) {
                                    Parsed::Done(v, r4, m) => Parsed::Done(CShape::Substitute(t, tp, v), r4, m),
                                    Parsed::Fail(e) => Parsed::Fail(e),
                                }
                            }
                        },
                    },
                }
            },
        }
    }
}

/// The grammar of `[start][-[end]]`.
pub open spec fn gram_keep(s: Seq<char>, n: nat) -> Parsed<CShape> {
    let st = first_column(s);
    let end = last_column(s);
    if digit_run(s) > 0 && st > usize::MAX {
        Parsed::Fail(PErr::ParseInt(s.subrange(0, digit_run(s) as int)))
    } else if !has_dash(s) {
        if st == 0 { Parsed::Fail(PErr::InvalidAddr(keep_message(0, 0))) }
        else { Parsed::Done(CShape::Keep((st - 1) as nat, Some(1nat)), after_keep(s), n) }
    } else if !has_end(s) {
        if st == 0 { Parsed::Fail(PErr::InvalidAddr(keep_message(0, 0))) }
        else { Parsed::Done(CShape::Keep((st - 1) as nat, None), after_keep(s), n) }
    } else if end > usize::MAX {
        Parsed::Fail(PErr::ParseInt(after_dash(s).subrange(0, digit_run(after_dash(s)) as int)))
    } else if st == 0 || end == 0 || st > end {
        Parsed::Fail(PErr::InvalidAddr(keep_message(st, end)))
    } else {
        Parsed::Done(CShape::Keep((st - 1) as nat, Some((end - st + 1) as nat)), after_keep(s), n)
    }
}

/// A command result with `n` ranges numbered.
pub open spec fn with_count(p: Parsed<CShape>, n: nat) -> Parsed<CShape> {
    match p {
        Parsed::Done(c, r, _) => Parsed::Done(c, r, n),
        Parsed::Fail(e) => Parsed::Fail(e),
    }
}

/// The grammar of the command that starts with `c`, its argument read from
/// `t`.
pub open spec fn gram_command(c: char, t: Seq<char>, n: nat) -> Parsed<CShape>
    decreases t.len(), 6nat,
{
    if plain_command(c) is Some {
        Parsed::Done(cshape(plain_command(c)->Some_0), t, n)
    } else if c == 'n' {
        Parsed::Done(CShape::Insert(seq!['\n']), t, n)
    } else if c == 't' {
        Parsed::Done(CShape::Insert(seq!['\t']), t, n)
    } else if c == 's' {
        with_count(gram_subst(t, 0), n)
    } else if c == 'k' {
        with_count(gram_keep(skip_spaces(t), 0), n)
    } else if c == 'r' {
        match gram_number(skip_spaces(t), 1, usize::MAX as nat, n) {
            Parsed::Done(v, r, m) => Parsed::Done(CShape::Readln(v), r, m),
            Parsed::Fail(e) => Parsed::Fail(e),
        }
    } else if c == 'q' {
        match gram_number(skip_spaces(t), 0, 2147483647, n) {
            Parsed::Done(v, r, m) => Parsed::Done(CShape::Quit(v as int), r, m),
            Parsed::Fail(e) => Parsed::Fail(e),
        }
    } else if c == ':' {
        gram_loop(t, n)
    } else if c == '\'' || c == '"' {
        match scan_until(t, c) {
            None => Parsed::Fail(PErr::Missing(c)),
            Some((raw, rest)) => match unescaped(raw) {
                Some(m) => Parsed::Done(CShape::Insert(m), rest, n),
                None => Parsed::Fail(PErr::Parsing(raw)),
            },
        }
    } else {
        Parsed::Fail(PErr::Unexpected(c))
    }
}

/// The grammar of a command list, `acc` the commands read so far: it ends
/// at `;`, after `.` or `b;`, before a `}`, or at the end of the text.
pub open spec fn gram_cmds(s: Seq<char>, n: nat, acc: Seq<CShape>) -> Parsed<Seq<CShape>>
    decreases s.len(), 1nat,
{
    if s.len() == 0 {
        Parsed::Done(acc, s, n)
    } else {
        let c = s[0];
        let t = s.drop_first();
        if c == ';' {
            Parsed::Done(acc, t, n)
        } else if c == '.' {
            Parsed::Done(acc.push(CShape::Break), t, n)
        } else if c == 'b' {
            let u = skip_spaces(t);
            if u.len() > 0 && u[0] == ';' {
                Parsed::Done(acc.push(CShape::Break), u.drop_first(), n)
            } else {
                Parsed::Fail(PErr::Missing(';'))
            }
        } else if c == '#' {
            if skip_line_text(t).len() < s.len() { gram_cmds(skip_line_text(t), n, acc) } else { Parsed::Fail(PErr::Missing(';')) }
        } else if is_space(c) {
            gram_cmds(t, n, acc)
        } else {
            match gram_command(c, t, n) {
                Parsed::Fail(e) => Parsed::Fail(e),
                Parsed::Done(cmd, r1, n1) => {
                    let r2 = skip_spaces(r1);
                    if r2.len() > 0 && r2[0] == '}' {
                        Parsed::Done(acc.push(cmd), r2, n1)
                    } else if r2.len() < s.len() {
                        gram_cmds(r2, n1, acc.push(cmd))
                    } else {
                        Parsed::Fail(PErr::Missing('}'))
                    }
                },
            }
        }
    }
}

/// The grammar of `{ instructions }`.
pub open spec fn gram_loop(s: Seq<char>, n: nat) -> Parsed<CShape>
    decreases s.len(), 5nat,
{
    if !(s.len() > 0 && s[0] == '{') {
        Parsed::Fail(PErr::Missing('{'))
    } else {
        match gram_body(s.drop_first(), n, Seq::empty()) {
            Parsed::Done(b, r, m) => Parsed::Done(CShape::Loop(b), r, m),
            Parsed::Fail(e) => Parsed::Fail(e),
        }
    }
}

/// The grammar of a loop body up to its `}`, `acc` the instructions read
/// so far.
pub open spec fn gram_body(s: Seq<char>, n: nat, acc: Seq<IShape>) -> Parsed<Seq<IShape>>
    decreases s.len(), 5nat,
{
    let u = skip_spaces(s);
    if u.len() > s.len() {
        Parsed::Fail(PErr::Missing('}'))
    } else if u.len() == 0 {
        Parsed::Fail(PErr::Missing('}'))
    } else if u[0] == '}' {
        Parsed::Done(acc, u.drop_first(), n)
    } else {
        match gram_instr(u, n) {
            Parsed::Fail(e) => Parsed::Fail(e),
            Parsed::Done(i, r1, n1) => if r1.len() < s.len() {
                gram_body(r1, n1, acc.push(i))
            } else {
                Parsed::Fail(PErr::Missing('}'))
            },
        }
    }
}

/// The grammar of an instruction: an address expression, then commands.
pub open spec fn gram_instr(s: Seq<char>, n: nat) -> Parsed<IShape>
    decreases s.len(), 4nat,
{
    let u = skip_spaces(s);
    if u.len() > s.len() {
        Parsed::Fail(PErr::Missing(';'))
    } else {
        match gram_addrs(u, n) {
            Parsed::Fail(e) => Parsed::Fail(e),
            Parsed::Done(a, r1, n1) => {
                let r2 = skip_spaces(r1);
                if r2.len() > s.len() {
                    Parsed::Fail(PErr::Missing(';'))
                } else {
                    match gram_cmds(r2, n1, Seq::empty()) {
                        Parsed::Fail(e) => Parsed::Fail(e),
                        Parsed::Done(cs, r3, n2) => Parsed::Done(IShape { addr: a, cmds: cs }, r3, n2),
                    }
                }
            },
        }
    }
}

/// The grammar of a script: instructions until the text ends.
pub open spec fn gram_script(s: Seq<char>, n: nat, acc: Seq<IShape>) -> Parsed<Seq<IShape>>
    decreases s.len(),
{
    match gram_instr(s, n) {
        Parsed::Fail(e) => Parsed::Fail(e),
        Parsed::Done(i, r1, n1) => if r1.len() == 0 {
            Parsed::Done(acc.push(i), r1, n1)
        } else if r1.len() < s.len() {
            gram_script(r1, n1, acc.push(i))
        } else {
            Parsed::Fail(PErr::Missing(';'))
        },
    }
}

/// Whether a command result agrees with what the grammar gives.
pub open spec fn cmd_res(res: Result<Command, Error>, rest: Seq<char>, n2: usize, g: Parsed<CShape>) -> bool {
    match g {
        Parsed::Done(c, r, m) => res is Ok && cshape(res->Ok_0) == c && rest == r && n2 == m,
        Parsed::Fail(e) => res is Err && err_is(res->Err_0, e),
    }
}

/// Whether a command-list result agrees with what the grammar gives.
pub open spec fn cmds_res(res: Result<Vec<Command>, Error>, rest: Seq<char>, n2: usize, g: Parsed<Seq<CShape>>) -> bool {
    match g {
        Parsed::Done(c, r, m) => res is Ok && cshapes(res->Ok_0@, res->Ok_0@.len() as int) == c && rest == r && n2 == m,
        Parsed::Fail(e) => res is Err && err_is(res->Err_0, e),
    }
}

/// Whether an instruction result agrees with what the grammar gives.
pub open spec fn instr_res(res: Result<Instruction, Error>, rest: Seq<char>, n2: usize, g: Parsed<IShape>) -> bool {
    match g {
        Parsed::Done(i, r, m) => res is Ok && ishape(res->Ok_0) == i && rest == r && n2 == m,
        Parsed::Fail(e) => res is Err && err_is(res->Err_0, e),
    }
}

proof fn lemma_kshape_ids(k: Simple, d: AShape)
    requires
        d is Always || d is Never,
    ensures
        ids(kshape(k, d)) == Seq::<nat>::empty(),
{
}

proof fn lemma_range_ids(s: Seq<char>, n: nat)
    ensures
        gram_range(s, n) matches Parsed::Done(a, _, m) ==> n <= m && increasing_in(ids(a), n, m),
{
    let (k1, s1) = simple_scan(s);
    let (k2, _) = simple_scan(skip_spaces(s1).drop_first());
    lemma_kshape_ids(k1, AShape::Always);
    lemma_kshape_ids(k2, AShape::Never);
    if let Parsed::Done(a, _, m) = gram_range(s, n) {
        if a is Between {
            assert(ids(a) =~= Seq::<nat>::empty() + Seq::<nat>::empty() + seq![n]);
        }
    }
}

proof fn lemma_bang_ids(a: AShape, s: Seq<char>, n: nat, lo: nat)
    requires
        increasing_in(ids(a), lo, n),
    ensures
        gram_bang(a, s, n) matches Parsed::Done(b, _, m) && m == n && increasing_in(ids(b), lo, n),
{
    lemma_neg_ids(a);
}

proof fn lemma_term_ids(s: Seq<char>, n: nat)
    ensures
        gram_term(s, n) matches Parsed::Done(a, _, m) ==> n <= m && increasing_in(ids(a), n, m),
    decreases s.len(), 2nat,
{
    if s.len() > 0 && s[0] == '(' {
        let t = skip_spaces(s.drop_first());
        if t.len() < s.len() {
            lemma_list_ids(t, n, Seq::empty(), n);
            if let Parsed::Done(terms, r1, n1) = gram_list(t, n, Seq::empty()) {
                lemma_flat_ids(terms, n, n1);
                let r2 = skip_spaces(r1);
                if r2.len() > 0 && r2[0] == ')' {
                    lemma_bang_ids(flat_shape(terms), r2.drop_first(), n1, n);
                }
            }
        }
    } else {
        lemma_range_ids(s, n);
        if let Parsed::Done(a, r1, n1) = gram_range(s, n) {
            lemma_bang_ids(a, skip_spaces(r1), n1, n);
        }
    }
}

proof fn lemma_list_ids(s: Seq<char>, n: nat, acc: Seq<AShape>, lo: nat)
    requires
        lo <= n,
        increasing_in(ids_all(acc, acc.len() as int), lo, n),
    ensures
        gram_list(s, n, acc) matches Parsed::Done(terms, _, m)
            ==> n <= m && increasing_in(ids_all(terms, terms.len() as int), lo, m),
    decreases s.len(), 3nat,
{
    lemma_term_ids(s, n);
    if let Parsed::Done(a, r1, n1) = gram_term(s, n) {
        lemma_ids_all_push(acc, a);
        lemma_increasing_concat(ids_all(acc, acc.len() as int), ids(a), lo, n, n1);
        let r2 = skip_spaces(r1);
        if r2.len() > 0 && r2[0] == ',' {
            let t = skip_spaces(r2.drop_first());
            if t.len() < s.len() {
                lemma_list_ids(t, n1, acc.push(a), lo);
            }
        }
    }
}

proof fn lemma_addrs_ids(s: Seq<char>, n: nat)
    ensures
        gram_addrs(s, n) matches Parsed::Done(a, _, m) ==> n <= m && increasing_in(ids(a), n, m),
{
    lemma_list_ids(s, n, Seq::empty(), n);
    if let Parsed::Done(terms, _, m) = gram_list(s, n, Seq::empty()) {
        lemma_flat_ids(terms, n, m);
    }
}

proof fn lemma_command_ids(c: char, t: Seq<char>, n: nat)
    ensures
        gram_command(c, t, n) matches Parsed::Done(x, _, m) ==> n <= m && increasing_in(cids(x), n, m),
    decreases t.len(), 6nat,
{
    if c == ':' && plain_command(c) is None {
        lemma_loop_ids(t, n);
    }
}

proof fn lemma_cmds_ids(s: Seq<char>, n: nat, acc: Seq<CShape>, lo: nat)
    requires
        lo <= n,
        increasing_in(cids_all(acc, acc.len() as int), lo, n),
    ensures
        gram_cmds(s, n, acc) matches Parsed::Done(cs, _, m)
            ==> n <= m && increasing_in(cids_all(cs, cs.len() as int), lo, m),
    decreases s.len(), 1nat,
{
    if s.len() > 0 {
        let c = s[0];
        let t = s.drop_first();
        if c == '.' || c == 'b' {
            lemma_cids_all_push(acc, CShape::Break);
            assert(cids_all(acc, acc.len() as int) + Seq::<nat>::empty() =~= cids_all(acc, acc.len() as int));
        } else if c == ';' {
        } else if c == '#' {
            if skip_line_text(t).len() < s.len() {
                lemma_cmds_ids(skip_line_text(t), n, acc, lo);
            }
        } else if is_space(c) {
            lemma_cmds_ids(t, n, acc, lo);
        } else {
            lemma_command_ids(c, t, n);
            if let Parsed::Done(x, r1, n1) = gram_command(c, t, n) {
                lemma_cids_all_push(acc, x);
                lemma_increasing_concat(cids_all(acc, acc.len() as int), cids(x), lo, n, n1);
                let r2 = skip_spaces(r1);
                if !(r2.len() > 0 && r2[0] == '}') && r2.len() < s.len() {
                    lemma_cmds_ids(r2, n1, acc.push(x), lo);
                }
            }
        }
    }
}

proof fn lemma_loop_ids(s: Seq<char>, n: nat)
    ensures
        gram_loop(s, n) matches Parsed::Done(x, _, m) ==> n <= m && increasing_in(cids(x), n, m),
    decreases s.len(), 5nat,
{
    if s.len() > 0 && s[0] == '{' {
        lemma_body_ids(s.drop_first(), n, Seq::empty(), n);
    }
}

proof fn lemma_body_ids(s: Seq<char>, n: nat, acc: Seq<IShape>, lo: nat)
    requires
        lo <= n,
        increasing_in(iids_all(acc, acc.len() as int), lo, n),
    ensures
        gram_body(s, n, acc) matches Parsed::Done(b, _, m)
            ==> n <= m && increasing_in(iids_all(b, b.len() as int), lo, m),
    decreases s.len(), 5nat,
{
    let u = skip_spaces(s);
    if u.len() <= s.len() && u.len() > 0 && u[0] != '}' {
        lemma_instr_ids(u, n);
        if let Parsed::Done(i, r1, n1) = gram_instr(u, n) {
            lemma_iids_all_push(acc, i);
            lemma_increasing_concat(iids_all(acc, acc.len() as int), iids(i), lo, n, n1);
            if r1.len() < s.len() {
                lemma_body_ids(r1, n1, acc.push(i), lo);
            }
        }
    }
}

proof fn lemma_instr_ids(s: Seq<char>, n: nat)
    ensures
        gram_instr(s, n) matches Parsed::Done(i, _, m) ==> n <= m && increasing_in(iids(i), n, m),
    decreases s.len(), 4nat,
{
    let u = skip_spaces(s);
    if u.len() <= s.len() {
        lemma_addrs_ids(u, n);
        if let Parsed::Done(a, r1, n1) = gram_addrs(u, n) {
            let r2 = skip_spaces(r1);
            if r2.len() <= s.len() {
                lemma_cmds_ids(r2, n1, Seq::empty(), n1);
                if let Parsed::Done(cs, _, n2) = gram_cmds(r2, n1, Seq::empty()) {
                    lemma_increasing_concat(ids(a), cids_all(cs, cs.len() as int), n, n1, n2);
                }
            }
        }
    }
}

/// The ranges of a parsed script are numbered in reading order from 0: no
/// two share a number, and every number indexes the table of states.
pub proof fn lemma_script_ids(s: Seq<char>, n: nat, acc: Seq<IShape>, lo: nat)
    requires
        lo <= n,
        increasing_in(iids_all(acc, acc.len() as int), lo, n),
    ensures
        gram_script(s, n, acc) matches Parsed::Done(b, _, m)
            ==> n <= m && increasing_in(iids_all(b, b.len() as int), lo, m),
    decreases s.len(), 7nat,
{
    lemma_instr_ids(s, n);
    if let Parsed::Done(i, r1, n1) = gram_instr(s, n) {
        lemma_iids_all_push(acc, i);
        lemma_increasing_concat(iids_all(acc, acc.len() as int), iids(i), lo, n, n1);
        if r1.len() != 0 && r1.len() < s.len() {
            lemma_script_ids(r1, n1, acc.push(i), lo);
        }
    }
}

proof fn lemma_term_flat(s: Seq<char>, n: nat)
    ensures
        gram_term(s, n) matches Parsed::Done(a, _, _) ==> flat_ok(a),
    decreases s.len(), 2nat,
{
    if s.len() > 0 && s[0] == '(' {
        let t = skip_spaces(s.drop_first());
        if t.len() < s.len() {
            lemma_list_flat(t, n, Seq::empty());
            if let Parsed::Done(terms, _, _) = gram_list(t, n, Seq::empty()) {
                lemma_flat_shape_ok(terms);
                lemma_neg_flat(flat_shape(terms));
            }
        }
    } else {
        let (k1, s1) = simple_scan(s);
        let (k2, _) = simple_scan(skip_spaces(s1).drop_first());
        assert(flat_ok(kshape(k1, AShape::Always)));
        assert(flat_ok(kshape(k2, AShape::Never)));
        if let Parsed::Done(a, _, _) = gram_range(s, n) {
            lemma_neg_flat(a);
        }
    }
}

proof fn lemma_list_flat(s: Seq<char>, n: nat, acc: Seq<AShape>)
    requires
        forall|i: int| 0 <= i < acc.len() ==> flat_ok(#[trigger] acc[i]),
    ensures
        gram_list(s, n, acc) matches Parsed::Done(terms, _, _) ==> {
            &&& terms.len() >= 1
            &&& forall|i: int| 0 <= i < terms.len() ==> flat_ok(#[trigger] terms[i])
        },
    decreases s.len(), 3nat,
{
    lemma_term_flat(s, n);
    if let Parsed::Done(a, r1, n1) = gram_term(s, n) {
        let acc2 = acc.push(a);
        assert forall|i: int| 0 <= i < acc2.len() implies flat_ok(#[trigger] acc2[i]) by {
            if i < acc.len() { assert(acc2[i] == acc[i]); }
        }
        let r2 = skip_spaces(r1);
        if r2.len() > 0 && r2[0] == ',' {
            let t = skip_spaces(r2.drop_first());
            if t.len() < s.len() {
                lemma_list_flat(t, n1, acc2);
            }
        }
    }
}

/// Every address the grammar builds is well shaped: a set holds at least
/// two members, none of them a set or `Always`, at every depth.
pub proof fn lemma_addrs_flat(s: Seq<char>, n: nat)
    ensures
        gram_addrs(s, n) matches Parsed::Done(a, _, _) ==> flat_ok(a),
{
    lemma_list_flat(s, n, Seq::empty());
    if let Parsed::Done(terms, _, _) = gram_list(s, n, Seq::empty()) {
        lemma_flat_shape_ok(terms);
    }
}

} // verus!
