//! Surface syntax: an S-expression reader and a parser into de Bruijn terms.
use vstd::prelude::*;
use std::collections::HashMap;
use crate::arena::Arena;
use crate::text::{bytes_eq, concat3};
use vstd::string::StringSliceAdditionalSpecFns;
use crate::{Error, Result};

verus! {

#[derive(Clone, Copy, Debug, PartialEq, Eq, Hash, Structural)]
pub struct TermId(pub usize);

/// An interval term in syntax: an endpoint or a de Bruijn index.
#[derive(Clone, Copy, Debug, PartialEq, Eq, Hash, Structural)]
pub enum D {
    Zero,
    One,
    Bound(usize),
}

/// A face formula in syntax.
#[derive(Debug)]
pub enum F {
    Top,
    Bot,
    Eq(D, D),
    And(Box<F>, Box<F>),
    Or(Box<F>, Box<F>),
}

#[derive(Debug)]
pub enum Term {
    Var(usize),
    Global(usize),
    U(u32),
    Pi(TermId, TermId),
    Sigma(TermId, TermId),
    Lam(TermId),
    App(TermId, TermId),
    Pair(TermId, TermId),
    Fst(TermId),
    Snd(TermId),
    Bool,
    True,
    False,
    If(TermId, TermId, TermId, TermId),
    Nat,
    Zero,
    Suc(TermId),
    NatElim(TermId, TermId, TermId, TermId),
    Ann(TermId, TermId),
    Path(TermId, TermId, TermId),
    PLam(TermId),
    PApp(TermId, D),
    Com { family: TermId, from: D, to: D, cap: TermId, tubes: Vec<(F, TermId)> },
    System(TermId, Vec<(F, TermId)>),
    Glue(TermId, Vec<(F, TermId, TermId)>),
    GlueIntro(TermId, TermId, Vec<(F, TermId)>),
    Unglue(TermId, TermId),
}

#[derive(Debug)]
pub struct Node {
    pub term: Term,
    pub offset: usize,
}

#[derive(Clone, Debug)]
pub struct Decl {
    pub name: String,
    pub ty: TermId,
    pub body: TermId,
}

pub struct Program {
    pub terms: Arena<Node>,
    pub decls: Vec<Decl>,
}

/// Every term that `t` refers to is stored before index `n`.
pub open spec fn term_below(t: Term, n: int) -> bool {
    match t {
        Term::Pi(a, b) => a.0 < n && b.0 < n,
        Term::Sigma(a, b) => a.0 < n && b.0 < n,
        Term::Lam(a) => a.0 < n,
        Term::App(a, b) => a.0 < n && b.0 < n,
        Term::Pair(a, b) => a.0 < n && b.0 < n,
        Term::Fst(a) => a.0 < n,
        Term::Snd(a) => a.0 < n,
        Term::If(a, b, c, d) => a.0 < n && b.0 < n && c.0 < n && d.0 < n,
        Term::Suc(a) => a.0 < n,
        Term::NatElim(a, b, c, d) => a.0 < n && b.0 < n && c.0 < n && d.0 < n,
        Term::Ann(a, b) => a.0 < n && b.0 < n,
        Term::Path(a, b, c) => a.0 < n && b.0 < n && c.0 < n,
        Term::PLam(a) => a.0 < n,
        Term::PApp(a, _) => a.0 < n,
        Term::Com { family, cap, tubes, .. } => family.0 < n && cap.0 < n && forall|j: int|
            0 <= j < tubes@.len() ==> (#[trigger] tubes@[j]).1.0 < n,
        Term::System(a, bs) => a.0 < n && forall|j: int|
            0 <= j < bs@.len() ==> (#[trigger] bs@[j]).1.0 < n,
        Term::Glue(a, bs) => a.0 < n && forall|j: int|
            0 <= j < bs@.len() ==> (#[trigger] bs@[j]).1.0 < n && bs@[j].2.0 < n,
        Term::GlueIntro(g, a, bs) => g.0 < n && a.0 < n && forall|j: int|
            0 <= j < bs@.len() ==> (#[trigger] bs@[j]).1.0 < n,
        Term::Unglue(a, b) => a.0 < n && b.0 < n,
        _ => true,
    }
}

/// A well-formed program: terms are stored after the terms they refer to,
/// every global reference names a declaration completed earlier, and every
/// declaration's type and body are stored terms.
pub open spec fn program_wf(nodes: Seq<Node>, decls: Seq<Decl>) -> bool {
    &&& forall|t: int| 0 <= t < nodes.len() ==> term_below(#[trigger] nodes[t].term, t)
    &&& forall|t: int|
        0 <= t < nodes.len() ==> match #[trigger] nodes[t].term {
            Term::Global(i) => i < decls.len() && decls[i as int].body.0 < t,
            _ => true,
        }
    &&& forall|k: int|
        0 <= k < decls.len() ==> (#[trigger] decls[k]).ty.0 < nodes.len() && decls[k].body.0
            < nodes.len()
}

impl Program {
    pub open spec fn wf(&self) -> bool {
        program_wf(self.terms@, self.decls@)
    }

    pub fn empty() -> (r: Program)
        ensures
            r.wf(),
            r.terms@.len() == 0,
            r.decls@.len() == 0,
    {
        Program { terms: Arena::new(), decls: Vec::new() }
    }
}

impl Default for Program {
    fn default() -> (r: Program)
        ensures
            r.wf(),
            r.terms@.len() == 0,
            r.decls@.len() == 0,
    {
        Program::empty()
    }
}

pub enum Kind {
    /// An atom given by its byte range in the source.
    Atom(usize, usize),
    List(Vec<S>),
}

/// An S-expression with the byte offset where it starts.
pub struct S {
    pub kind: Kind,
    pub offset: usize,
}

pub open spec fn is_ws(b: u8) -> bool {
    b == 32 || b == 9 || b == 10 || b == 12 || b == 13
}

fn ascii_ws(b: u8) -> (r: bool)
    ensures
        r == is_ws(b),
{
    b == 32 || b == 9 || b == 10 || b == 12 || b == 13
}

/// Whether `b` ends an atom: whitespace, a parenthesis or the start of a comment.
pub open spec fn ends_atom(b: u8) -> bool {
    is_ws(b) || b == 40 || b == 41 || b == 59
}

/// The position of the line feed that ends a comment continuing at `i`, or the end of `s`.
pub open spec fn line_end(s: Seq<u8>, i: nat) -> nat
    decreases s.len() - i,
{
    if i >= s.len() || s[i as int] == 10 {
        i
    } else {
        line_end(s, i + 1)
    }
}

/// The position after the whitespace and `;` line comments that start at `i`.
pub open spec fn skip(s: Seq<u8>, i: nat) -> nat
    decreases s.len() - i,
{
    if i >= s.len() {
        i
    } else if is_ws(s[i as int]) {
        skip(s, i + 1)
    } else if s[i as int] == 59 {
        let e = line_end(s, i + 1);
        if i < e <= s.len() {
            skip(s, e)
        } else {
            i
        }
    } else {
        i
    }
}

/// The end of the atom that starts at `i`.
pub open spec fn atom_end(s: Seq<u8>, i: nat) -> nat
    decreases s.len() - i,
{
    if i < s.len() && !ends_atom(s[i as int]) {
        atom_end(s, i + 1)
    } else {
        i
    }
}

/// The nesting levels still allowed below depth `d`.
pub open spec fn depth_left(d: nat) -> nat {
    if d <= 513 {
        (513 - d) as nat
    } else {
        0
    }
}

/// A comment ends at a line feed, or at the end of the source, and never before it starts.
pub proof fn lemma_line_end(s: Seq<u8>, i: nat)
    ensures
        i <= s.len() ==> i <= line_end(s, i) <= s.len(),
        line_end(s, i) < s.len() ==> s[line_end(s, i) as int] == 10,
    decreases s.len() - i,
{
    if i < s.len() && s[i as int] != 10 {
        lemma_line_end(s, i + 1);
    }
}

/// Skipping whitespace and comments stays within the source, stops on neither,
/// and skipping again moves nowhere.
pub proof fn lemma_skip(s: Seq<u8>, i: nat)
    ensures
        i <= s.len() ==> i <= skip(s, i) <= s.len(),
        skip(s, i) < s.len() ==> !is_ws(s[skip(s, i) as int]) && s[skip(s, i) as int] != 59,
        skip(s, skip(s, i)) == skip(s, i),
    decreases s.len() - i,
{
    if i < s.len() {
        if is_ws(s[i as int]) {
            lemma_skip(s, i + 1);
        } else if s[i as int] == 59 {
            lemma_line_end(s, i + 1);
            lemma_skip(s, line_end(s, i + 1));
        }
    }
}

/// An atom ends within the source, after its first byte when that byte does not end atoms.
pub proof fn lemma_atom_end(s: Seq<u8>, i: nat)
    ensures
        i <= s.len() ==> i <= atom_end(s, i) <= s.len(),
        i < s.len() && !ends_atom(s[i as int]) ==> i < atom_end(s, i),
    decreases s.len() - i,
{
    if i < s.len() && !ends_atom(s[i as int]) {
        lemma_atom_end(s, i + 1);
    }
}

/// Reading one expression at `i`, nested `d` lists deep: the position after
/// it, or the offset and message of the error.
pub open spec fn read_at(s: Seq<u8>, i: nat, d: nat) -> std::result::Result<nat, (nat, Seq<char>)>
    decreases depth_left(d), s.len() - i, 0nat,
{
    if d > 512 {
        Err((i, "syntax nesting exceeds 512"@))
    } else {
        let k = skip(s, i);
        if k >= s.len() {
            Err((k, "expected expression"@))
        } else if s[k as int] == 40 {
            proof {
                lemma_skip(s, i);
            }
            read_list(s, k + 1, d, k)
        } else if s[k as int] == 41 {
            Err((k, "unexpected ')'"@))
        } else {
            Ok(atom_end(s, k))
        }
    }
}

/// Reading the rest of a list opened at `open`, nested `d` deep, from position `j`.
pub open spec fn read_list(s: Seq<u8>, j: nat, d: nat, open: nat) -> std::result::Result<nat, (nat, Seq<char>)>
    decreases depth_left(d), s.len() - j, 1nat,
{
    let k = skip(s, j);
    if k >= s.len() {
        Err((open, "unclosed list"@))
    } else if s[k as int] == 41 {
        Ok(k + 1)
    } else {
        proof {
            lemma_skip(s, j);
        }
        match read_at(s, k, d + 1) {
            Err(e) => Err(e),
            Ok(p) => if j < p <= s.len() {
                read_list(s, p, d, open)
            } else {
                Err((open, "unclosed list"@))
            },
        }
    }
}

/// Whether `v` is the expression that reading at `i`, nested `d` deep, yields.
pub open spec fn reads(s: Seq<u8>, i: nat, d: nat, v: S) -> bool
    decreases v,
{
    let k = skip(s, i);
    &&& d <= 512
    &&& k < s.len()
    &&& v.offset == k
    &&& match v.kind {
        Kind::Atom(a, b) => s[k as int] != 40 && s[k as int] != 41 && a == k && b == atom_end(s, k),
        Kind::List(xs) => s[k as int] == 40 && (items_end(s, k + 1, d, xs@) matches Some(m) && skip(s, m) < s.len()
            && s[skip(s, m) as int] == 41),
    }
}

/// The position after the items `xs` of a list nested `d` deep, read from `j`.
pub open spec fn items_end(s: Seq<u8>, j: nat, d: nat, xs: Seq<S>) -> Option<nat>
    decreases xs,
{
    if xs.len() == 0 {
        Some(j)
    } else {
        match items_end(s, j, d, xs.drop_last()) {
            Some(m) => {
                let k = skip(s, m);
                if k < s.len() && s[k as int] != 41 && read_at(s, k, d + 1) is Ok && reads(s, k, d + 1, xs.last()) {
                    Some(read_at(s, k, d + 1)->Ok_0)
                } else {
                    None
                }
            },
            None => None,
        }
    }
}

/// Reading every expression from position `i` to the end of the source.
pub open spec fn read_all(s: Seq<u8>, i: nat) -> std::result::Result<(), (nat, Seq<char>)>
    decreases s.len() - i,
{
    let k = skip(s, i);
    if k >= s.len() {
        Ok(())
    } else {
        match read_at(s, k, 0) {
            Err(e) => Err(e),
            Ok(p) => if i < p <= s.len() {
                read_all(s, p)
            } else {
                Ok(())
            },
        }
    }
}

/// The position after the expressions `xs`, read one after another from `i`.
pub open spec fn all_end(s: Seq<u8>, i: nat, xs: Seq<S>) -> Option<nat>
    decreases xs.len(),
{
    if xs.len() == 0 {
        Some(i)
    } else {
        match all_end(s, i, xs.drop_last()) {
            Some(m) => {
                let k = skip(s, m);
                if k < s.len() && read_at(s, k, 0) is Ok && reads(s, k, 0, xs.last()) {
                    Some(read_at(s, k, 0)->Ok_0)
                } else {
                    None
                }
            },
            None => None,
        }
    }
}

/// Skips whitespace and `;` line comments.
fn ws(s: &[u8], i: &mut usize)
    requires
        *old(i) <= s@.len(),
    ensures
        *final(i) == skip(s@, *old(i) as nat),
{
    proof {
        lemma_skip(s@, *i as nat);
    }
    loop
        invariant
            *i <= s@.len(),
            skip(s@, *i as nat) == skip(s@, *old(i) as nat),
        decreases s@.len() - *i,
    {
        let ghost top = *i;
        while *i < s.len() && ascii_ws(s[*i])
            invariant
                *i <= s@.len(),
                top <= *i,
                skip(s@, *i as nat) == skip(s@, *old(i) as nat),
            decreases s@.len() - *i,
        {
            *i += 1;
        }
        if *i < s.len() && s[*i] == 59u8 {
            let ghost semi = *i;
            *i += 1;
            proof {
                lemma_line_end(s@, *i as nat);
            }
            while *i < s.len() && s[*i] != 10u8
                invariant
                    semi < *i <= s@.len(),
                    top <= semi,
                    line_end(s@, *i as nat) == line_end(s@, (semi + 1) as nat),
                decreases s@.len() - *i,
            {
                *i += 1;
            }
        } else {
            return;
        }
    }
}

fn is_delimiter(b: u8) -> (r: bool)
    ensures
        r == (b == 40 || b == 41 || b == 59),
{
    b == 40u8 || b == 41u8 || b == 59u8
}

/// Reads one S-expression starting at `*i`, nested `depth` lists deep.
fn one(s: &[u8], i: &mut usize, depth: usize) -> (r: Result<S>)
    requires
        *old(i) <= s@.len(),
        depth <= 513,
    ensures
        match read_at(s@, *old(i) as nat, depth as nat) {
            Ok(p) => r matches Ok(v) && *final(i) == p && reads(s@, *old(i) as nat, depth as nat, v),
            Err((o, m)) => r matches Err(e) && e.offset == Some(o as usize) && e.message@ == m,
        },
        r is Ok ==> *old(i) < *final(i) <= s@.len(),
    decreases 513 - depth,
{
    if depth > 512 {
        return Err(Error::at(*i, "syntax nesting exceeds 512"));
    }
    let ghost start = *i as nat;
    proof {
        lemma_skip(s@, start);
    }
    ws(s, i);
    let offset = *i;
    if *i >= s.len() {
        return Err(Error::at(offset, "expected expression"));
    }
    let b = s[*i];
    if b == 40u8 {
        *i += 1;
        let mut xs: Vec<S> = Vec::new();
        assert(read_at(s@, start, depth as nat) == read_list(s@, *i as nat, depth as nat, offset as nat));
        assert(items_end(s@, *i as nat, depth as nat, xs@) == Some(*i as nat));
        loop
            invariant_except_break
                items_end(s@, (offset + 1) as nat, depth as nat, xs@) == Some(*i as nat),
                read_list(s@, (offset + 1) as nat, depth as nat, offset as nat) == read_list(
                    s@,
                    *i as nat,
                    depth as nat,
                    offset as nat,
                ),
            invariant
                offset < *i <= s@.len(),
                depth <= 512,
                start == *old(i) as nat,
                offset as nat == skip(s@, start),
                s@[offset as int] == 40,
                read_at(s@, start, depth as nat) == read_list(s@, (offset + 1) as nat, depth as nat, offset as nat),
            ensures
                read_at(s@, start, depth as nat) == Ok::<nat, (nat, Seq<char>)>(*i as nat),
                items_end(s@, (offset + 1) as nat, depth as nat, xs@) matches Some(m) && skip(s@, m) < s@.len()
                    && s@[skip(s@, m) as int] == 41,
            decreases s@.len() - *i,
        {
            let ghost before = *i as nat;
            proof {
                lemma_skip(s@, before);
            }
            ws(s, i);
            if *i >= s.len() {
                assert(read_list(s@, before, depth as nat, offset as nat) == Err::<nat, (nat, Seq<char>)>(
                    (offset as nat, "unclosed list"@),
                ));
                return Err(Error::at(offset, "unclosed list"));
            }
            if s[*i] == 41u8 {
                assert(read_list(s@, before, depth as nat, offset as nat) == Ok::<nat, (nat, Seq<char>)>(
                    (*i + 1) as nat,
                ));
                assert(skip(s@, before) == *i);
                *i += 1;
                break;
            }
            let ghost k = *i as nat;
            let x = match one(s, i, depth + 1) {
                Ok(x) => x,
                Err(e) => {
                    assert(read_list(s@, before, depth as nat, offset as nat) == read_at(s@, k, (depth + 1) as nat));
                    return Err(e);
                },
            };
            proof {
                assert(read_list(s@, before, depth as nat, offset as nat) == read_list(
                    s@,
                    *i as nat,
                    depth as nat,
                    offset as nat,
                ));
                assert(xs@.push(x).drop_last() == xs@);
            }
            xs.push(x);
        }
        Ok(S { kind: Kind::List(xs), offset })
    } else if b == 41u8 {
        Err(Error::at(offset, "unexpected ')'"))
    } else {
        proof {
            lemma_atom_end(s@, offset as nat);
        }
        while *i < s.len() && !ascii_ws(s[*i]) && !is_delimiter(s[*i])
            invariant
                offset <= *i <= s@.len(),
                atom_end(s@, *i as nat) == atom_end(s@, offset as nat),
            decreases s@.len() - *i,
        {
            *i += 1;
        }
        assert(read_at(s@, start, depth as nat) == Ok::<nat, (nat, Seq<char>)>(*i as nat));
        Ok(S { kind: Kind::Atom(offset, *i), offset })
    }
}

/// Reads all S-expressions of the source.
fn sexps(s: &[u8]) -> (r: Result<Vec<S>>)
    ensures
        match read_all(s@, 0) {
            Ok(()) => r matches Ok(xs) && all_end(s@, 0, xs@) matches Some(m) && skip(s@, m) == s@.len(),
            Err((o, m)) => r matches Err(e) && e.offset == Some(o as usize) && e.message@ == m,
        },
{
    let mut i: usize = 0;
    let mut out: Vec<S> = Vec::new();
    loop
        invariant
            i <= s@.len(),
            read_all(s@, 0) == read_all(s@, i as nat),
            all_end(s@, 0, out@) == Some(i as nat),
        decreases s@.len() - i,
    {
        let ghost before = i as nat;
        proof {
            lemma_skip(s@, before);
        }
        ws(s, &mut i);
        if i == s.len() {
            return Ok(out);
        }
        let x = one(s, &mut i, 0)?;
        proof {
            assert(out@.push(x).drop_last() == out@);
        }
        out.push(x);
    }
}

/// The value of a run of decimal digits.
pub open spec fn digits_value(d: Seq<u8>) -> int
    decreases d.len(),
{
    if d.len() == 0 {
        0
    } else {
        digits_value(d.drop_last()) * 10 + (d.last() - 48)
    }
}

pub open spec fn all_digits(d: Seq<u8>) -> bool {
    forall|k: int| 0 <= k < d.len() ==> 48 <= #[trigger] d[k] <= 57
}

/// The digits of an unsigned numeral, after an optional leading `+`.
pub open spec fn numeral_digits(b: Seq<u8>) -> Seq<u8> {
    if b.len() > 1 && b[0] == 43 {
        b.drop_first()
    } else {
        b
    }
}

/// Reads an unsigned 32-bit decimal numeral: an optional `+` followed by one
/// or more digits, whose value must fit in `u32`.
pub fn parse_u32(b: &[u8]) -> (r: Option<u32>)
    ensures
        r == (if numeral_digits(b@).len() > 0 && all_digits(numeral_digits(b@)) && digits_value(
            numeral_digits(b@),
        ) <= u32::MAX {
            Some(digits_value(numeral_digits(b@)) as u32)
        } else {
            None
        }),
{
    let start: usize = if b.len() > 1 && b[0] == 43u8 {
        1
    } else {
        0
    };
    let ghost d = numeral_digits(b@);
    assert(d =~= b@.subrange(start as int, b@.len() as int));
    if start == b.len() {
        return None;
    }
    let mut value: u64 = 0;
    let mut i: usize = start;
    while i < b.len()
        invariant
            start <= i <= b@.len(),
            d == b@.subrange(start as int, b@.len() as int),
            d == numeral_digits(b@),
            value == digits_value(d.take(i - start)),
            value <= u32::MAX,
            all_digits(d.take(i - start)),
        decreases b@.len() - i,
    {
        let c = b[i];
        assert(d.take(i - start + 1).drop_last() =~= d.take(i - start));
        assert(d.take(i - start + 1).last() == c);
        if c < 48u8 || c > 57u8 {
            proof {
                assert(!all_digits(d)) by {
                    assert(d[i - start] == c);
                }
            }
            return None;
        }
        let next = value * 10 + (c - 48u8) as u64;
        proof {
            assert(digits_value(d.take(i - start + 1)) == next);
            assert forall|k: int| 0 <= k < d.take(i - start + 1).len() implies 48 <= #[trigger] d.take(
                i - start + 1,
            )[k] <= 57 by {
                if k < i - start {
                    assert(d.take(i - start + 1)[k] == d.take(i - start)[k]);
                }
            }
        }
        if next > u32::MAX as u64 {
            proof {
                lemma_digits_grow(d, (i - start + 1) as int);
            }
            return None;
        }
        value = next;
        i += 1;
        proof {
            assert forall|k: int| 0 <= k < d.take(i - start).len() implies 48 <= #[trigger] d.take(
                i - start,
            )[k] <= 57 by {
                if k < i - start - 1 {
                    assert(d.take(i - start)[k] == d.take(i - start - 1)[k]);
                }
            }
        }
    }
    assert(d.take(i - start) =~= d);
    Some(value as u32)
}

proof fn lemma_digits_nonneg(d: Seq<u8>)
    requires
        all_digits(d),
    ensures
        digits_value(d) >= 0,
    decreases d.len(),
{
    if d.len() > 0 {
        assert forall|k: int| 0 <= k < d.drop_last().len() implies 48 <= #[trigger] d.drop_last()[k] <= 57 by {
            assert(d.drop_last()[k] == d[k]);
        }
        lemma_digits_nonneg(d.drop_last());
        assert(48 <= d[d.len() - 1] <= 57);
    }
}

/// Digit prefixes do not decrease in value.
proof fn lemma_digits_grow(d: Seq<u8>, n: int)
    requires
        0 <= n <= d.len(),
        all_digits(d.take(n)),
    ensures
        all_digits(d) ==> digits_value(d.take(n)) <= digits_value(d),
    decreases d.len() - n,
{
    if n < d.len() && all_digits(d) {
        assert(d.take(n + 1).drop_last() =~= d.take(n));
        lemma_digits_nonneg(d.take(n));
        assert(d.take(n + 1).last() == d[n]);
        assert(48 <= d[n] <= 57);
        assert(digits_value(d.take(n + 1)) == digits_value(d.take(n)) * 10 + (d[n] - 48));
        assert forall|k: int| 0 <= k < d.take(n + 1).len() implies 48 <= #[trigger] d.take(n + 1)[k] <= 57 by {
            assert(d.take(n + 1)[k] == d[k]);
        }
        lemma_digits_grow(d, n + 1);
    } else if n == d.len() {
        assert(d.take(n) =~= d);
    }
}

struct Parser<'s> {
    source: &'s str,
    bytes: &'s [u8],
    program: Program,
    /// The declarations filed under the digest of their names.
    globals: HashMap<u64, Vec<usize>>,
    terms: Vec<Vec<u8>>,
    dims: Vec<Vec<u8>>,
}

fn copy_bytes(b: &[u8]) -> (r: Vec<u8>)
    ensures
        r@ == b@,
{
    let mut r: Vec<u8> = Vec::new();
    let mut i: usize = 0;
    while i < b.len()
        invariant
            i <= b@.len(),
            r@ == b@.take(i as int),
        decreases b@.len() - i,
    {
        r.push(b[i]);
        i += 1;
        assert(r@ =~= b@.take(i as int));
    }
    assert(b@.take(b@.len() as int) =~= b@);
    r
}

/// The part of `s` between two byte offsets, when both are character boundaries.
pub fn slice_str(s: &str, from: usize, to: usize) -> (r: Option<&str>)
    ensures
        r matches Some(t) ==> from <= to <= s.spec_bytes().len() && t.spec_bytes() =~= s.spec_bytes().subrange(
            from as int,
            to as int,
        ),
        r is Some <==> from <= to <= s.spec_bytes().len() && vstd::utf8::is_char_boundary(s.spec_bytes(), from as int)
            && vstd::utf8::is_char_boundary(s.spec_bytes(), to as int),
{
    proof {
        vstd::utf8::encode_utf8_valid_utf8(s@);
    }
    if from > to || to > s.as_bytes().len() || !s.is_char_boundary(from) {
        return None;
    }
    let (_, rest) = s.split_at(from);
    proof {
        let b = s.spec_bytes();
        let tail = rest.spec_bytes();
        vstd::utf8::encode_utf8_valid_utf8(s@);
        vstd::utf8::valid_utf8_split(b, from as int);
        assert(tail =~= b.subrange(from as int, b.len() as int));
        vstd::utf8::is_char_boundary_start_end_of_seq(b);
        vstd::utf8::is_char_boundary_start_end_of_seq(tail);
        if from < to && to < b.len() {
            vstd::utf8::is_char_boundary_iff_not_is_continuation_byte(b, to as int);
            vstd::utf8::is_char_boundary_iff_not_is_continuation_byte(tail, to - from);
            assert(tail[to - from] == b[to as int]);
        }
        assert(vstd::utf8::is_char_boundary(tail, (to - from) as int) == vstd::utf8::is_char_boundary(b, to as int));
    }
    if !rest.is_char_boundary(to - from) {
        return None;
    }
    let (mid, _) = rest.split_at(to - from);
    Some(mid)
}

fn slice_bytes<'a>(b: &'a [u8], from: usize, to: usize) -> (r: &'a [u8])
    requires
        from <= to <= b@.len(),
    ensures
        r@ == b@.subrange(from as int, to as int),
{
    let (_, rest) = b.split_at(from);
    let (mid, _) = rest.split_at(to - from);
    assert(mid@ =~= b@.subrange(from as int, to as int));
    mid
}

/// Whether term `t` may be stored next in a program with these nodes and declarations.
pub open spec fn storable(nodes: Seq<Node>, decls: Seq<Decl>, t: Term) -> bool {
    &&& term_below(t, nodes.len() as int)
    &&& match t {
        Term::Global(i) => i < decls.len() && decls[i as int].body.0 < nodes.len(),
        _ => true,
    }
}

spec fn parser_grows(a: &Parser, b: &Parser) -> bool {
    &&& extends(a.program.terms@, b.program.terms@)
    &&& b.program.decls@ == a.program.decls@
    &&& b.source == a.source
    &&& b.bytes == a.bytes
}

pub open spec fn extends<T>(a: Seq<T>, b: Seq<T>) -> bool {
    a.len() <= b.len() && forall|i: int| 0 <= i < a.len() ==> a[i] == b[i]
}

/// The de Bruijn index of the innermost binding of `name` in `scope`, whose
/// innermost binding comes last.
pub open spec fn innermost(scope: Seq<Vec<u8>>, name: Seq<u8>) -> Option<nat>
    decreases scope.len(),
{
    if scope.len() == 0 {
        None
    } else if scope.last()@ == name {
        Some(0)
    } else {
        match innermost(scope.drop_last(), name) {
            Some(k) => Some(k + 1),
            None => None,
        }
    }
}

/// The name bound `j` binders out from the innermost one of `scope`.
pub open spec fn from_end(scope: Seq<Vec<u8>>, j: int) -> Seq<u8> {
    scope[scope.len() - 1 - j]@
}

/// The bytes of atom `s` in `bytes`; empty for a list.
/// `text` names a built-in constant.
/// Each declaration whose type or body is written as a constant's name has
/// that constant as its type or body.
pub open spec fn constants_read(bytes: Seq<u8>, nodes: Seq<Node>, decls: Seq<Decl>, xs: Seq<S>) -> bool {
    forall|k: int|
        0 <= k < xs.len() && k < decls.len() ==> constant_item(
            bytes,
            declared_part(xs[k], 2),
            nodes[(#[trigger] decls[k]).ty.0 as int].term,
        ) && constant_item(bytes, declared_part(xs[k], 3), nodes[decls[k].body.0 as int].term) && universe_item(
            bytes,
            declared_part(xs[k], 2),
            nodes[decls[k].ty.0 as int].term,
        ) && universe_item(bytes, declared_part(xs[k], 3), nodes[decls[k].body.0 as int].term)
}

/// The universe level that the digits `b` write, when it fits in 32 bits.
pub open spec fn level_of(b: Seq<u8>) -> Option<u32> {
    if numeral_digits(b).len() > 0 && all_digits(numeral_digits(b)) && digits_value(numeral_digits(b)) <= u32::MAX {
        Some(digits_value(numeral_digits(b)) as u32)
    } else {
        None
    }
}

/// `t` is the universe that the item `x` writes when `x` is `(U n)`.
pub open spec fn universe_item(bytes: Seq<u8>, x: Option<S>, t: Term) -> bool {
    match x {
        Some(a) => match a.kind {
            Kind::List(items) => items@.len() == 2 && form_code(atom_text(bytes, items@[0])) == 1 ==> level_of(
                atom_text(bytes, items@[1]),
            ) is Some && t == Term::U(level_of(atom_text(bytes, items@[1]))->Some_0),
            Kind::Atom(_, _) => true,
        },
        None => true,
    }
}

/// The term that a constant's name denotes.
pub open spec fn constant_term(text: Seq<u8>) -> Option<Term> {
    if text == "Bool".spec_bytes() {
        Some(Term::Bool)
    } else if text == "true".spec_bytes() {
        Some(Term::True)
    } else if text == "false".spec_bytes() {
        Some(Term::False)
    } else if text == "Nat".spec_bytes() {
        Some(Term::Nat)
    } else if text == "zero".spec_bytes() {
        Some(Term::Zero)
    } else {
        None
    }
}

/// The `i`-th item of declaration `s`, written `(def name type body)`.
pub open spec fn declared_part(s: S, i: int) -> Option<S> {
    match s.kind {
        Kind::List(items) => if items@.len() == 4 {
            Some(items@[i])
        } else {
            None
        },
        Kind::Atom(_, _) => None,
    }
}

/// `t` is the term that the item `x` denotes when `x` is a constant's name.
pub open spec fn constant_item(bytes: Seq<u8>, x: Option<S>, t: Term) -> bool {
    match x {
        Some(a) => atom_in(a, bytes.len()) ==> (constant_term(atom_text(bytes, a)) matches Some(c) ==> t == c),
        None => true,
    }
}

pub open spec fn constant_name(text: Seq<u8>) -> bool {
    ||| text == "Bool".spec_bytes()
    ||| text == "true".spec_bytes()
    ||| text == "false".spec_bytes()
    ||| text == "Nat".spec_bytes()
    ||| text == "zero".spec_bytes()
}

/// `r` is the error for the name `s` that denotes nothing: located at `s`, with
/// the message `unknown name '...'` when `s` lies on character boundaries.
pub open spec fn unknown_name_error<T>(r: Result<T>, bytes: Seq<u8>, s: S) -> bool {
    &&& r matches Err(e)
    &&& r->Err_0.offset == Some(s.offset)
    &&& atom_chars(s, bytes) ==> exists|c: Seq<char>|
        vstd::utf8::encode_utf8(c) == atom_text(bytes, s) && r->Err_0.message@ == "unknown name '"@ + c + "'"@
}

/// The name `text` denotes something with the term binders `terms` and the
/// declarations `decls` in scope: a built-in constant, a bound variable or a
/// declaration.
pub open spec fn resolves(text: Seq<u8>, terms: Seq<Vec<u8>>, decls: Seq<Decl>) -> bool {
    ||| constant_name(text)
    ||| innermost(terms, text) is Some
    ||| exists|k: int| 0 <= k < decls.len() && name_bytes(#[trigger] decls[k]) == text
}

/// Term `t` is what the list form with code `c` and items `xs` parses to: the
/// right constructor, each of whose subterms is the node parsed from the item at
/// its place (nodes record the offset of the expression they were parsed from).
pub open spec fn parsed_form(nodes: Seq<Node>, xs: Seq<S>, c: int, t: Term) -> bool {
    let at = |id: TermId, k: int| id.0 < nodes.len() && nodes[id.0 as int].offset == xs[k].offset;
    match t {
        Term::U(_) => c == 1,
        Term::Fst(a) => c == 2 && at(a, 1),
        Term::Snd(a) => c == 3 && at(a, 1),
        Term::Suc(a) => c == 4 && at(a, 1),
        Term::Lam(b) => c == 5 && at(b, 2),
        Term::App(a, b) => c == 6 && at(a, 1) && at(b, 2),
        Term::Pair(a, b) => c == 7 && at(a, 1) && at(b, 2),
        Term::Ann(a, b) => c == 8 && at(a, 1) && at(b, 2),
        Term::PLam(b) => c == 9 && at(b, 2),
        Term::PApp(a, _) => c == 10 && at(a, 1),
        Term::System(a, _) => c == 11 && at(a, 1),
        Term::Glue(a, _) => c == 12 && at(a, 1),
        Term::Unglue(a, b) => c == 13 && at(a, 1) && at(b, 2),
        Term::Pi(a, b) => c == 14 && at(a, 2) && at(b, 3),
        Term::Sigma(a, b) => c == 15 && at(a, 2) && at(b, 3),
        Term::GlueIntro(g, a, _) => c == 16 && at(g, 1) && at(a, 2),
        Term::If(p, a, b, d) => c == 17 && at(p, 1) && at(a, 2) && at(b, 3) && at(d, 4),
        Term::NatElim(p, a, b, d) => c == 18 && at(p, 1) && at(a, 2) && at(b, 3) && at(d, 4),
        Term::Path(a, l, r) => c == 19 && at(a, 2) && at(l, 3) && at(r, 4),
        Term::Com { family, from: _, to: _, cap, tubes } => (c == 20 && tubes@.len() == 0 || c == 21) && at(family, 2)
            && at(cap, 5),
        _ => false,
    }
}

/// The name that declaration `s`, written `(def name type body)`, declares.
pub open spec fn declared_name(bytes: Seq<u8>, s: S) -> Seq<u8> {
    match s.kind {
        Kind::List(items) => if items@.len() == 4 {
            atom_text(bytes, items@[1])
        } else {
            seq![]
        },
        Kind::Atom(_, _) => seq![],
    }
}

/// The bytes of an ASCII literal are as many as its characters.
proof fn lemma_ascii_bytes(t: &str)
    requires
        vstd::utf8::is_ascii_chars(t@),
    ensures
        t.spec_bytes().len() == t@.len(),
{
    vstd::utf8::is_ascii_chars_encode_utf8(t@);
}

/// The operator of a face formula `s` written as a list of three items.
pub open spec fn face_operator(bytes: Seq<u8>, s: S) -> Seq<u8> {
    match s.kind {
        Kind::List(xs) => if xs@.len() == 3 {
            atom_text(bytes, xs@[0])
        } else {
            seq![]
        },
        Kind::Atom(_, _) => seq![],
    }
}

/// `s` is an atom whose byte range lies within `bytes` and starts and ends on
/// character boundaries.
pub open spec fn atom_chars(s: S, bytes: Seq<u8>) -> bool {
    match s.kind {
        Kind::Atom(a, b) => a <= b <= bytes.len() && vstd::utf8::is_char_boundary(bytes, a as int)
            && vstd::utf8::is_char_boundary(bytes, b as int),
        Kind::List(_) => false,
    }
}

/// `s` is an atom whose byte range lies within a source of `len` bytes.
pub open spec fn atom_in(s: S, len: nat) -> bool {
    match s.kind {
        Kind::Atom(a, b) => a <= b <= len,
        Kind::List(_) => false,
    }
}

pub open spec fn atom_text(bytes: Seq<u8>, s: S) -> Seq<u8> {
    match s.kind {
        Kind::Atom(a, b) => bytes.subrange(a as int, b as int),
        Kind::List(_) => seq![],
    }
}

proof fn lemma_innermost(scope: Seq<Vec<u8>>, name: Seq<u8>, k: nat)
    requires
        k < scope.len(),
        from_end(scope, k as int) == name,
        forall|j: int| 0 <= j < k ==> #[trigger] from_end(scope, j) != name,
    ensures
        innermost(scope, name) == Some(k),
    decreases k,
{
    if k > 0 {
        let inner = scope.drop_last();
        assert forall|j: int| 0 <= j < k - 1 implies #[trigger] from_end(inner, j) != name by {
            assert(inner[inner.len() - 1 - j] == scope[scope.len() - 1 - (j + 1)]);
            assert(from_end(scope, j + 1) != name);
        }
        assert(inner[inner.len() - 1 - (k - 1)] == scope[scope.len() - 1 - k]);
        assert(from_end(scope, 0) != name);
        lemma_innermost(inner, name, (k - 1) as nat);
    }
}

proof fn lemma_not_bound(scope: Seq<Vec<u8>>, name: Seq<u8>)
    requires
        forall|j: int| 0 <= j < scope.len() ==> scope[j]@ != name,
    ensures
        innermost(scope, name) is None,
    decreases scope.len(),
{
    if scope.len() > 0 {
        let inner = scope.drop_last();
        assert forall|j: int| 0 <= j < inner.len() implies inner[j]@ != name by {
            assert(inner[j] == scope[j]);
        }
        lemma_not_bound(inner, name);
    }
}

/// The index of the innermost binding of `name`, counted from the end of `names`.
fn lookup(names: &Vec<Vec<u8>>, name: &[u8]) -> (r: Option<usize>)
    ensures
        r matches Some(k) ==> k < names@.len() && names@[names@.len() - 1 - k]@ == name@,
        r matches Some(k) ==> innermost(names@, name@) == Some(k as nat),
        r is None ==> innermost(names@, name@) is None,
{
    let len = names.len();
    let mut k: usize = 0;
    while k < len
        invariant
            len == names@.len(),
            k <= len,
            forall|j: int| 0 <= j < k ==> #[trigger] from_end(names@, j) != name@,
        decreases len - k,
    {
        if bytes_eq(names[len - 1 - k].as_slice(), name) {
            proof {
                lemma_innermost(names@, name@, k as nat);
            }
            return Some(k);
        }
        k += 1;
    }
    proof {
        assert forall|j: int| 0 <= j < names@.len() implies names@[j]@ != name@ by {
            assert(from_end(names@, names@.len() - 1 - j) != name@);
        }
        lemma_not_bound(names@, name@);
    }
    None
}

/// The message `prefix` + `name` + `'`.
fn quoted(prefix: &str, name: &str) -> (r: String)
    ensures
        r@ == prefix@ + name@ + "'"@,
{
    concat3(prefix, name, "'")
}

/// The UTF-8 bytes of the name of declaration `d`.
pub open spec fn name_bytes(d: Decl) -> Seq<u8> {
    vstd::utf8::encode_utf8(d.name@)
}

/// The digest of a name: the multiply-xor hash of its bytes.
pub open spec fn name_digest(b: Seq<u8>) -> u64
    decreases b.len(),
{
    if b.len() == 0 {
        crate::hash::FNV_OFFSET
    } else {
        crate::hash::step(name_digest(b.drop_last()), b.last() as u64)
    }
}

/// The digest of `b`.
fn digest(b: &[u8]) -> (r: u64)
    ensures
        r == name_digest(b@),
{
    let mut h: u64 = crate::hash::FNV_OFFSET;
    let mut k: usize = 0;
    while k < b.len()
        invariant
            k <= b@.len(),
            h == name_digest(b@.take(k as int)),
        decreases b@.len() - k,
    {
        assert(b@.take(k + 1).drop_last() =~= b@.take(k as int));
        h = (h ^ (b[k] as u64)).wrapping_mul(crate::hash::FNV_PRIME);
        k += 1;
    }
    assert(b@.take(b@.len() as int) =~= b@);
    h
}

/// No two declarations of `decls` have the same name.
pub open spec fn names_distinct(decls: Seq<Decl>) -> bool {
    forall|i: int, j: int|
        0 <= i < decls.len() && 0 <= j < decls.len() && i != j ==> name_bytes(#[trigger] decls[i]) != name_bytes(
            #[trigger] decls[j],
        )
}

/// `globals` files every declaration under the digest of its name, and holds
/// nothing else.
spec fn filed(globals: Map<u64, Vec<usize>>, decls: Seq<Decl>) -> bool {
    &&& forall|k: int|
        0 <= k < decls.len() ==> globals.contains_key(name_digest(name_bytes(#[trigger] decls[k]))) && globals[name_digest(
            name_bytes(decls[k]),
        )]@.contains(k as usize)
    &&& forall|h: u64, j: int|
        globals.contains_key(h) && 0 <= j < globals[h]@.len() ==> (#[trigger] globals[h]@[j]) < decls.len()
}

/// The declaration of `decls` named `name`, found through `globals`.
fn find_global(globals: &HashMap<u64, Vec<usize>>, decls: &Vec<Decl>, name: &[u8]) -> (r: Option<usize>)
    requires
        filed(globals@, decls@),
    ensures
        r matches Some(i) ==> i < decls@.len() && name_bytes(decls@[i as int]) == name@,
        r is None ==> forall|k: int|
            0 <= k < decls@.len() ==> name_bytes(#[trigger] decls@[k]) != name@,
{
    broadcast use vstd::std_specs::hash::group_hash_axioms;
    let h = digest(name);
    match globals.get(&h) {
        Some(bucket) => {
            assert(forall|m: int| 0 <= m < bucket@.len() ==> #[trigger] bucket@[m] < decls.len());
            let mut j: usize = 0;
            while j < bucket.len()
                invariant
                    globals@.contains_key(h),
                    *bucket == globals@[h],
                    h == name_digest(name@),
                    forall|m: int| 0 <= m < bucket@.len() ==> #[trigger] bucket@[m] < decls.len(),
                    j <= bucket@.len(),
                    forall|m: int| 0 <= m < j ==> name_bytes(decls[bucket@[m] as int]) != name@,
                decreases bucket@.len() - j,
            {
                let i = bucket[j];
                if bytes_eq(decls[i].name.as_str().as_bytes(), name) {
                    return Some(i);
                }
                j += 1;
            }
            proof {
                assert forall|k: int| 0 <= k < decls@.len() implies name_bytes(
                    #[trigger] decls@[k],
                ) != name@ by {
                    if name_bytes(decls@[k]) == name@ {
                        assert(bucket@.contains(k as usize));
                        let m = choose|m: int| 0 <= m < bucket@.len() && bucket@[m] == k as usize;
                        assert(name_bytes(decls@[bucket@[m] as int]) != name@);
                    }
                }
            }
            None
        },
        None => {
            proof {
                assert forall|k: int| 0 <= k < decls@.len() implies name_bytes(
                    #[trigger] decls@[k],
                ) != name@ by {
                    if name_bytes(decls@[k]) == name@ {
                        assert(globals@.contains_key(name_digest(name_bytes(decls@[k]))));
                    }
                }
            }
            None
        },
    }
}

impl<'s> Parser<'s> {
    spec fn wf(&self) -> bool {
        &&& self.program.wf()
        &&& self.bytes@ == self.source.spec_bytes()
        &&& names_distinct(self.program.decls@)
        &&& filed(self.globals@, self.program.decls@)
    }

    /// Files declaration `index` under the digest of `name`.
    fn file(&mut self, name: &[u8], index: usize)
        requires
            filed(old(self).globals@, old(self).program.decls@),
        ensures
            final(self).program == old(self).program,
            final(self).source == old(self).source,
            final(self).bytes == old(self).bytes,
            final(self).terms == old(self).terms,
            final(self).dims == old(self).dims,
            final(self).globals@.contains_key(name_digest(name@)),
            final(self).globals@[name_digest(name@)]@.contains(index),
            forall|h: u64, j: int|
                #![trigger final(self).globals@[h]@[j]]
                final(self).globals@.contains_key(h) && 0 <= j < final(self).globals@[h]@.len()
                    ==> final(self).globals@[h]@[j] < old(self).program.decls@.len() || final(self).globals@[h]@[j] == index,
            forall|h: u64, x: usize|
                #![trigger final(self).globals@[h]@.contains(x)]
                old(self).globals@.contains_key(h) && old(self).globals@[h]@.contains(x)
                    ==> final(self).globals@.contains_key(h) && final(self).globals@[h]@.contains(x),
    {
        broadcast use vstd::std_specs::hash::group_hash_axioms;
        let h = digest(name);
        let mut bucket: Vec<usize> = match self.globals.remove(&h) {
            Some(b) => b,
            None => Vec::new(),
        };
        let ghost before = bucket@;
        bucket.push(index);
        proof {
            assert forall|x: usize| before.contains(x) implies bucket@.contains(x) by {
                let m = choose|m: int| 0 <= m < before.len() && before[m] == x;
                assert(bucket@[m] == x);
            }
            assert(bucket@[before.len() as int] == index);
        }
        self.globals.insert(h, bucket);
    }

    /// The declaration named `name`, if there is one.
    fn global(&self, name: &[u8]) -> (r: Option<usize>)
        requires
            self.wf(),
        ensures
            r matches Some(i) ==> i < self.program.decls@.len() && name_bytes(self.program.decls@[i as int]) == name@,
            r is None ==> forall|k: int|
                0 <= k < self.program.decls@.len() ==> name_bytes(#[trigger] self.program.decls@[k]) != name@,
    {
        find_global(&self.globals, &self.program.decls, name)
    }

    fn store(&mut self, term: Term, offset: usize) -> (r: TermId)
        requires
            old(self).wf(),
            storable(old(self).program.terms@, old(self).program.decls@, term),
        ensures
            final(self).wf(),
            parser_grows(old(self), final(self)),
            r.0 == old(self).program.terms@.len(),
            r.0 < final(self).program.terms@.len(),
            final(self).program.terms@[r.0 as int].term == term,
            final(self).program.terms@[r.0 as int].offset == offset,
            final(self).program.terms@ == old(self).program.terms@.push(Node { term, offset }),
            final(self).terms@ == old(self).terms@,
            final(self).dims@ == old(self).dims@,
    {
        let ghost old_nodes = self.program.terms@;
        let ghost decls = self.program.decls@;
        let node = Node { term, offset };
        let r = TermId(self.program.terms.store(node));
        proof {
            let nodes = self.program.terms@;
            assert(nodes == old_nodes.push(node));
            assert forall|t: int| 0 <= t < nodes.len() implies term_below(#[trigger] nodes[t].term, t) by {
                if t < old_nodes.len() {
                    assert(nodes[t] == old_nodes[t]);
                }
            }
            assert forall|t: int|
                0 <= t < nodes.len() implies match #[trigger] nodes[t].term {
                    Term::Global(i) => i < decls.len() && decls[i as int].body.0 < t,
                    _ => true,
                } by {
                if t < old_nodes.len() {
                    assert(nodes[t] == old_nodes[t]);
                }
            }
        }
        r
    }

    fn atom_range(&self, s: &S) -> (r: Result<(usize, usize)>)
        requires
            self.wf(),
        ensures
            r matches Ok((a, b)) ==> a <= b <= self.bytes@.len() && s.kind == Kind::Atom(a, b),
            r is Ok <==> atom_in(*s, self.bytes@.len()),
            r matches Err(e) ==> e.offset == Some(s.offset) && e.message@ == "expected a name"@,
    {
        match &s.kind {
            Kind::Atom(a, b) => {
                if *a <= *b && *b <= self.bytes.len() {
                    Ok((*a, *b))
                } else {
                    Err(Error::at(s.offset, "expected a name"))
                }
            },
            _ => Err(Error::at(s.offset, "expected a name")),
        }
    }

    fn atom_bytes(&self, s: &S) -> (r: Result<&'s [u8]>)
        requires
            self.wf(),
        ensures
            r matches Ok(x) ==> s.kind is Atom && x@ == atom_text(self.bytes@, *s),
            r is Ok <==> atom_in(*s, self.bytes@.len()),
            r matches Err(e) ==> e.offset == Some(s.offset) && e.message@ == "expected a name"@,
    {
        let (a, b) = self.atom_range(s)?;
        Ok(slice_bytes(self.bytes, a, b))
    }

    /// Whether `s` is the atom `word`.
    fn is_atom(&self, s: &S, word: &str) -> (r: bool)
        requires
            self.wf(),
        ensures
            r == (atom_in(*s, self.bytes@.len()) && atom_text(self.bytes@, *s) == word.spec_bytes()),
    {
        match self.atom_bytes(s) {
            Ok(b) => bytes_eq(b, word.as_bytes()),
            Err(_) => false,
        }
    }

    fn atom_string(&self, s: &S) -> (r: Result<String>)
        requires
            self.wf(),
        ensures
            r matches Ok(t) ==> vstd::utf8::encode_utf8(t@) == atom_text(self.bytes@, *s),
            r is Ok <==> atom_chars(*s, self.bytes@),
            r matches Err(e) ==> e.offset == Some(s.offset) && e.message@ == "expected a name"@,
            r matches Err(e) ==> e.offset is Some,
    {
        let (a, b) = self.atom_range(s)?;
        match slice_str(self.source, a, b) {
            Some(t) => Ok(t.to_owned()),
            None => Err(Error::at(s.offset, "expected a name")),
        }
    }

    fn list<'a>(&self, s: &'a S) -> (r: Result<&'a Vec<S>>)
        ensures
            r is Ok <==> s.kind is List,
            r matches Ok(xs) ==> s.kind == Kind::List(*xs),
            r matches Err(e) ==> e.offset == Some(s.offset) && e.message@ == "expected a list"@,
    {
        match &s.kind {
            Kind::List(xs) => Ok(xs),
            _ => Err(Error::at(s.offset, "expected a list")),
        }
    }

    fn dim(&self, s: &S) -> (r: Result<D>)
        requires
            self.wf(),
        ensures
            r matches Ok(D::Bound(k)) ==> innermost(self.dims@, atom_text(self.bytes@, *s)) == Some(k as nat),
            r matches Ok(D::Zero) ==> atom_text(self.bytes@, *s) == "0".spec_bytes(),
            r matches Ok(D::One) ==> atom_text(self.bytes@, *s) == "1".spec_bytes(),
            atom_in(*s, self.bytes@.len()) ==> (r is Ok <==> (atom_text(self.bytes@, *s)
                == "0".spec_bytes() || atom_text(self.bytes@, *s) == "1".spec_bytes() || innermost(
                self.dims@,
                atom_text(self.bytes@, *s),
            ) is Some)),
            !(s.kind is Atom) ==> r is Err,
            r matches Err(e) ==> e.offset is Some,
    {
        let n = self.atom_bytes(s)?;
        if bytes_eq(n, "0".as_bytes()) {
            return Ok(D::Zero);
        }
        if bytes_eq(n, "1".as_bytes()) {
            return Ok(D::One);
        }
        match lookup(&self.dims, n) {
            Some(k) => Ok(D::Bound(k)),
            None => {
                let name = self.atom_string(s)?;
                Err(Error { offset: Some(s.offset), message: quoted("unknown interval variable '", name.as_str()) })
            },
        }
    }

    fn face(&self, s: &S, depth: usize) -> (r: Result<F>)
        requires
            self.wf(),
        ensures
            depth == 0 ==> r is Err,
            depth > 0 && atom_in(*s, self.bytes@.len()) ==> ((r matches Ok(F::Top)) <==> atom_text(self.bytes@, *s)
                == "top".spec_bytes()),
            depth > 0 && atom_in(*s, self.bytes@.len()) ==> ((r matches Ok(F::Bot)) <==> atom_text(self.bytes@, *s)
                == "bottom".spec_bytes()),
            s.kind is Atom ==> (r matches Ok(f) ==> (f is Top || f is Bot)),
            r matches Ok(f) ==> (f is Eq ==> face_operator(self.bytes@, *s) == "=".spec_bytes()),
            r matches Ok(f) ==> (f is And ==> face_operator(self.bytes@, *s) == "and".spec_bytes()),
            r matches Ok(f) ==> (f is Or ==> face_operator(self.bytes@, *s) == "or".spec_bytes()),
            r matches Err(e) ==> e.offset is Some,
        decreases depth,
    {
        proof {
            reveal_strlit("top");
            reveal_strlit("bottom");
            lemma_ascii_bytes("top");
            lemma_ascii_bytes("bottom");
        }
        if depth == 0 {
            return Err(Error::at(s.offset, "syntax nesting exceeds 512"));
        }
        if let Kind::Atom(_, _) = &s.kind {
            if self.is_atom(s, "top") {
                return Ok(F::Top);
            }
            if self.is_atom(s, "bottom") {
                return Ok(F::Bot);
            }
            return Err(Error::at(s.offset, "expected face formula"));
        }
        let xs = self.list(s)?;
        if xs.len() != 3 {
            return Err(Error::at(s.offset, "face operator requires two arguments"));
        }
        self.atom_range(&xs[0])?;
        if self.is_atom(&xs[0], "=") {
            let a = self.dim(&xs[1])?;
            let b = self.dim(&xs[2])?;
            Ok(F::Eq(a, b))
        } else if self.is_atom(&xs[0], "and") {
            let a = self.face(&xs[1], depth - 1)?;
            let b = self.face(&xs[2], depth - 1)?;
            Ok(F::And(Box::new(a), Box::new(b)))
        } else if self.is_atom(&xs[0], "or") {
            let a = self.face(&xs[1], depth - 1)?;
            let b = self.face(&xs[2], depth - 1)?;
            Ok(F::Or(Box::new(a), Box::new(b)))
        } else {
            Err(Error::at(s.offset, "unknown face operator"))
        }
    }

    /// Parses `body` with `name` bound as a term variable (or an interval variable).
    fn bind(&mut self, name: &S, body: &S, dim: bool, depth: usize) -> (r: Result<TermId>)
        requires
            old(self).wf(),
        ensures
            final(self).wf(),
            parser_grows(old(self), final(self)),
            final(self).terms@ == old(self).terms@,
            final(self).dims@ == old(self).dims@,
            r matches Ok(id) ==> id.0 < final(self).program.terms@.len(),
            !atom_in(*name, old(self).bytes@.len()) ==> r is Err,
            depth == 0 ==> r is Err,
            r matches Ok(id) ==> final(self).program.terms@[id.0 as int].offset == body.offset,
            !dim && depth > 0 && atom_in(*name, old(self).bytes@.len()) && atom_in(*body, old(self).bytes@.len())
                && atom_text(old(self).bytes@, *body) == atom_text(old(self).bytes@, *name) && !constant_name(
                atom_text(old(self).bytes@, *name),
            ) ==> (r matches Ok(id) && final(self).program.terms@[id.0 as int].term == Term::Var(0)),
            r matches Err(e) ==> e.offset is Some,
        decreases depth, 1usize,
    {
        let n = self.atom_bytes(name)?;
        let n = copy_bytes(n);
        if dim {
            self.dims.push(n);
        } else {
            self.terms.push(n);
            assert(innermost(self.terms@, atom_text(self.bytes@, *name)) == Some(0nat));
        }
        let b = self.term(body, depth);
        if dim {
            self.dims.pop();
        } else {
            self.terms.pop();
        }
        b
    }

    /// Parses a list of `(face body)` branches.
    fn branches(&mut self, s: &S, bound: Option<&S>, depth: usize, context: usize) -> (r: Result<Vec<(F, TermId)>>)
        requires
            old(self).wf(),
        ensures
            final(self).wf(),
            parser_grows(old(self), final(self)),
            final(self).terms@ == old(self).terms@,
            final(self).dims@ == old(self).dims@,
            r matches Ok(bs) ==> forall|j: int|
                0 <= j < bs@.len() ==> (#[trigger] bs@[j]).1.0 < final(self).program.terms@.len(),
            !(s.kind is List) ==> r is Err,
            s.kind matches Kind::List(items) ==> (r matches Ok(bs) ==> bs@.len() == items@.len()),
            s.kind matches Kind::List(items) ==> (items@.len() == 0 ==> r is Ok),
            r matches Err(e) ==> e.offset is Some,
        decreases depth, 2usize,
    {
        let items = self.list(s)?;
        let mut out: Vec<(F, TermId)> = Vec::new();
        let mut k: usize = 0;
        while k < items.len()
            invariant
                self.wf(),
                parser_grows(old(self), self),
                self.terms@ == old(self).terms@,
                self.dims@ == old(self).dims@,
                k <= items@.len(),
                out@.len() == k,
                s.kind == Kind::List(*items),
                forall|j: int|
                    0 <= j < out@.len() ==> (#[trigger] out@[j]).1.0 < self.program.terms@.len(),
            decreases items@.len() - k,
        {
            let branch = &items[k];
            let b = self.list(branch)?;
            if b.len() != 2 {
                let at = if context == usize::MAX { branch.offset } else { context };
                return Err(Error::at(at, "expected (face body)"));
            }
            let f = self.face(&b[0], depth)?;
            let t = match bound {
                Some(name) => self.bind(name, &b[1], true, depth)?,
                None => self.term(&b[1], depth)?,
            };
            out.push((f, t));
            k += 1;
        }
        Ok(out)
    }

    fn term(&mut self, s: &S, depth: usize) -> (r: Result<TermId>)
        requires
            old(self).wf(),
        ensures
            final(self).wf(),
            parser_grows(old(self), final(self)),
            final(self).terms@ == old(self).terms@,
            final(self).dims@ == old(self).dims@,
            r matches Ok(id) ==> id.0 < final(self).program.terms@.len(),
            r matches Ok(id) ==> (final(self).program.terms@[id.0 as int].term matches Term::Var(k) ==> innermost(
                old(self).terms@,
                atom_text(old(self).bytes@, *s),
            ) == Some(k as nat)),
            depth == 0 ==> r is Err,
            depth > 0 && s.kind is Atom ==> (r is Ok <==> atom_in(*s, old(self).bytes@.len()) && resolves(
                atom_text(old(self).bytes@, *s),
                old(self).terms@,
                old(self).program.decls@,
            )),
            s.kind matches Kind::List(xs) ==> (xs@.len() == 0 ==> r is Err),
            depth > 0 && atom_in(*s, old(self).bytes@.len()) && !resolves(atom_text(old(self).bytes@, *s), old(self).terms@, old(self).program.decls@)
                ==> unknown_name_error(r, old(self).bytes@, *s),
            r matches Ok(id) ==> final(self).program.terms@[id.0 as int].offset == s.offset,
            r matches Ok(id) ==> universe_item(old(self).bytes@, Some(*s), final(self).program.terms@[id.0 as int].term),
            r matches Ok(id) ==> (s.kind matches Kind::List(xs) ==> xs@.len() > 0 && parsed_form(
                final(self).program.terms@,
                xs@,
                form_code(atom_text(old(self).bytes@, xs@[0])),
                final(self).program.terms@[id.0 as int].term,
            )),
            depth > 0 && atom_in(*s, old(self).bytes@.len()) && !constant_name(atom_text(old(self).bytes@, *s)) ==> (
            innermost(old(self).terms@, atom_text(old(self).bytes@, *s)) matches Some(k) ==> r matches Ok(id)
                && final(self).program.terms@[id.0 as int].term == Term::Var(k as usize)),
            r matches Err(e) ==> e.offset is Some,
            depth > 0 && atom_in(*s, old(self).bytes@.len()) ==> (constant_term(atom_text(old(self).bytes@, *s)) matches Some(
                c,
            ) ==> (r matches Ok(id) && final(self).program.terms@[id.0 as int].term == c)),
        decreases depth, 0usize,
    {
        if depth == 0 {
            return Err(Error::at(s.offset, "syntax nesting exceeds 512"));
        }
        let depth = depth - 1;
        let xs = match &s.kind {
            Kind::Atom(_, _) => {
                return self.atom_term(s);
            },
            Kind::List(xs) => xs,
        };
        if xs.len() == 0 {
            return Err(Error::at(s.offset, "empty expression"));
        }
        let op_range = self.atom_range(&xs[0])?;
        let op = slice_bytes(self.bytes, op_range.0, op_range.1);
        let (code, n) = form(op);
        if code == 0 {
            let name = self.atom_string(&xs[0])?;
            return Err(Error { offset: Some(s.offset), message: quoted("unknown form '", name.as_str()) });
        }
        if xs.len() != n + 1 {
            let name = self.atom_string(&xs[0])?;
            let mut message = concat3("'", name.as_str(), "' expects ");
            crate::text::push_decimal(&mut message, n as u128);
            message.append(" arguments");
            return Err(Error { offset: Some(s.offset), message });
        }
        let t = if code == 1 {
            let digits = self.atom_bytes(&xs[1])?;
            match parse_u32(digits) {
                Some(l) => Term::U(l),
                None => {
                    return Err(Error::at(xs[1].offset, "expected a universe level (u32)"));
                },
            }
        } else if code == 14 || code == 15 {
            let a = self.term(&xs[2], depth)?;
            let b = self.bind(&xs[1], &xs[3], false, depth)?;
            if code == 14 {
                Term::Pi(a, b)
            } else {
                Term::Sigma(a, b)
            }
        } else if code == 5 {
            Term::Lam(self.bind(&xs[1], &xs[2], false, depth)?)
        } else if code == 9 {
            Term::PLam(self.bind(&xs[1], &xs[2], true, depth)?)
        } else if code == 6 || code == 7 || code == 8 || code == 13 {
            let a = self.term(&xs[1], depth)?;
            let b = self.term(&xs[2], depth)?;
            if code == 6 {
                Term::App(a, b)
            } else if code == 7 {
                Term::Pair(a, b)
            } else if code == 8 {
                Term::Ann(a, b)
            } else {
                Term::Unglue(a, b)
            }
        } else if code == 2 || code == 3 || code == 4 {
            let a = self.term(&xs[1], depth)?;
            if code == 2 {
                Term::Fst(a)
            } else if code == 3 {
                Term::Snd(a)
            } else {
                Term::Suc(a)
            }
        } else if code == 17 || code == 18 {
            let p = self.term(&xs[1], depth)?;
            let a = self.term(&xs[2], depth)?;
            let b = self.term(&xs[3], depth)?;
            let c = self.term(&xs[4], depth)?;
            if code == 17 {
                Term::If(p, a, b, c)
            } else {
                Term::NatElim(p, a, b, c)
            }
        } else if code == 19 {
            let a = self.bind(&xs[1], &xs[2], true, depth)?;
            let l = self.term(&xs[3], depth)?;
            let r = self.term(&xs[4], depth)?;
            Term::Path(a, l, r)
        } else if code == 10 {
            let p = self.term(&xs[1], depth)?;
            Term::PApp(p, self.dim(&xs[2])?)
        } else if code == 20 || code == 21 {
            let from = self.dim(&xs[3])?;
            let to = self.dim(&xs[4])?;
            let cap = self.term(&xs[5], depth)?;
            let family = self.bind(&xs[1], &xs[2], true, depth)?;
            let tubes = if code == 21 {
                self.branches(&xs[6], Some(&xs[1]), depth, usize::MAX)?
            } else {
                Vec::new()
            };
            Term::Com { family, from, to, cap, tubes }
        } else if code == 11 {
            let a = self.term(&xs[1], depth)?;
            let bs = self.branches(&xs[2], None, depth, s.offset)?;
            Term::System(a, bs)
        } else if code == 12 {
            let a = self.term(&xs[1], depth)?;
            let bs = self.glue_branches(&xs[2], depth)?;
            Term::Glue(a, bs)
        } else {
            let g = self.term(&xs[1], depth)?;
            let a = self.term(&xs[2], depth)?;
            let bs = self.intro_branches(&xs[3], depth)?;
            Term::GlueIntro(g, a, bs)
        };
        Ok(self.store(t, s.offset))
    }

    /// A name: a built-in constant, a bound variable or an earlier declaration.
    fn atom_term(&mut self, s: &S) -> (r: Result<TermId>)
        requires
            old(self).wf(),
        ensures
            final(self).wf(),
            parser_grows(old(self), final(self)),
            final(self).terms@ == old(self).terms@,
            final(self).dims@ == old(self).dims@,
            r matches Ok(id) ==> id.0 < final(self).program.terms@.len(),
            r matches Ok(id) ==> (final(self).program.terms@[id.0 as int].term matches Term::Var(k) ==> innermost(
                old(self).terms@,
                atom_text(old(self).bytes@, *s),
            ) == Some(k as nat)),
            r matches Ok(id) ==> (final(self).program.terms@[id.0 as int].term is Global ==> innermost(
                old(self).terms@,
                atom_text(old(self).bytes@, *s),
            ) is None),
            r matches Ok(id) ==> final(self).program.terms@[id.0 as int].offset == s.offset,
            r matches Ok(id) ==> (final(self).program.terms@[id.0 as int].term matches Term::Global(i) ==> name_bytes(
                old(self).program.decls@[i as int],
            ) == atom_text(old(self).bytes@, *s)),
            r is Ok <==> atom_in(*s, old(self).bytes@.len()) && resolves(
                atom_text(old(self).bytes@, *s),
                old(self).terms@,
                old(self).program.decls@,
            ),
            atom_in(*s, old(self).bytes@.len()) && !resolves(atom_text(old(self).bytes@, *s), old(self).terms@, old(self).program.decls@)
                ==> unknown_name_error(r, old(self).bytes@, *s),
            atom_in(*s, old(self).bytes@.len()) && !constant_name(atom_text(old(self).bytes@, *s)) ==> (innermost(
                old(self).terms@,
                atom_text(old(self).bytes@, *s),
            ) matches Some(k) ==> r matches Ok(id) && final(self).program.terms@[id.0 as int].term == Term::Var(
                k as usize,
            )),
            r matches Err(e) ==> e.offset is Some,
            atom_in(*s, old(self).bytes@.len()) ==> (constant_term(atom_text(old(self).bytes@, *s)) matches Some(c) ==> (
            r matches Ok(id) && final(self).program.terms@[id.0 as int].term == c)),
    {
        let n = self.atom_bytes(s)?;
        let t = if bytes_eq(n, "Bool".as_bytes()) {
            Term::Bool
        } else if bytes_eq(n, "true".as_bytes()) {
            Term::True
        } else if bytes_eq(n, "false".as_bytes()) {
            Term::False
        } else if bytes_eq(n, "Nat".as_bytes()) {
            Term::Nat
        } else if bytes_eq(n, "zero".as_bytes()) {
            Term::Zero
        } else {
            match lookup(&self.terms, n) {
                Some(k) => Term::Var(k),
                None => match self.global(n) {
                    Some(i) => Term::Global(i),
                    None => {
                        let name = self.atom_string(s)?;
                        return Err(Error { offset: Some(s.offset), message: quoted("unknown name '", name.as_str()) });
                    },
                },
            }
        };
        Ok(self.store(t, s.offset))
    }

    fn glue_branches(&mut self, s: &S, depth: usize) -> (r: Result<Vec<(F, TermId, TermId)>>)
        requires
            old(self).wf(),
        ensures
            final(self).wf(),
            parser_grows(old(self), final(self)),
            final(self).terms@ == old(self).terms@,
            final(self).dims@ == old(self).dims@,
            r matches Ok(bs) ==> forall|j: int|
                0 <= j < bs@.len() ==> (#[trigger] bs@[j]).1.0 < final(self).program.terms@.len()
                    && bs@[j].2.0 < final(self).program.terms@.len(),
            !(s.kind is List) ==> r is Err,
            s.kind matches Kind::List(items) ==> (r matches Ok(bs) ==> bs@.len() == items@.len()),
            s.kind matches Kind::List(items) ==> (items@.len() == 0 ==> r is Ok),
            r matches Err(e) ==> e.offset is Some,
        decreases depth, 1usize,
    {
        let items = self.list(s)?;
        let mut out: Vec<(F, TermId, TermId)> = Vec::new();
        let mut k: usize = 0;
        while k < items.len()
            invariant
                self.wf(),
                parser_grows(old(self), self),
                self.terms@ == old(self).terms@,
                self.dims@ == old(self).dims@,
                k <= items@.len(),
                out@.len() == k,
                s.kind == Kind::List(*items),
                forall|j: int|
                    0 <= j < out@.len() ==> (#[trigger] out@[j]).1.0 < self.program.terms@.len()
                        && out@[j].2.0 < self.program.terms@.len(),
            decreases items@.len() - k,
        {
            let branch = &items[k];
            let b = self.list(branch)?;
            if b.len() != 3 {
                return Err(Error::at(branch.offset, "expected (face type equivalence)"));
            }
            let f = self.face(&b[0], depth)?;
            let a = self.term(&b[1], depth)?;
            let e = self.term(&b[2], depth)?;
            out.push((f, a, e));
            k += 1;
        }
        Ok(out)
    }

    fn intro_branches(&mut self, s: &S, depth: usize) -> (r: Result<Vec<(F, TermId)>>)
        requires
            old(self).wf(),
        ensures
            final(self).wf(),
            parser_grows(old(self), final(self)),
            final(self).terms@ == old(self).terms@,
            final(self).dims@ == old(self).dims@,
            r matches Ok(bs) ==> forall|j: int|
                0 <= j < bs@.len() ==> (#[trigger] bs@[j]).1.0 < final(self).program.terms@.len(),
            !(s.kind is List) ==> r is Err,
            s.kind matches Kind::List(items) ==> (r matches Ok(bs) ==> bs@.len() == items@.len()),
            s.kind matches Kind::List(items) ==> (items@.len() == 0 ==> r is Ok),
            r matches Err(e) ==> e.offset is Some,
        decreases depth, 1usize,
    {
        let items = self.list(s)?;
        let mut out: Vec<(F, TermId)> = Vec::new();
        let mut k: usize = 0;
        while k < items.len()
            invariant
                self.wf(),
                parser_grows(old(self), self),
                self.terms@ == old(self).terms@,
                self.dims@ == old(self).dims@,
                k <= items@.len(),
                out@.len() == k,
                s.kind == Kind::List(*items),
                forall|j: int|
                    0 <= j < out@.len() ==> (#[trigger] out@[j]).1.0 < self.program.terms@.len(),
            decreases items@.len() - k,
        {
            let branch = &items[k];
            let b = self.list(branch)?;
            if b.len() != 2 {
                return Err(Error::at(branch.offset, "expected (face term)"));
            }
            let f = self.face(&b[0], depth)?;
            let t = self.term(&b[1], depth)?;
            out.push((f, t));
            k += 1;
        }
        Ok(out)
    }
}

/// The number of arguments of the form with code `c`.
pub open spec fn arity(c: u8) -> usize {
    if 1 <= c <= 4 {
        1
    } else if 5 <= c <= 13 {
        2
    } else if 14 <= c <= 16 {
        3
    } else if 17 <= c <= 19 {
        4
    } else if c == 20 {
        5
    } else {
        6
    }
}

/// The names of the syntactic forms; the form with code `c` is named by entry `c - 1`.
pub open spec fn form_names() -> Seq<Seq<char>> {
    seq![
        "U"@, "fst"@, "snd"@, "suc"@, "lam"@, "app"@, "pair"@, "ann"@, "path"@, "at"@, "system"@, "Glue"@,
        "unglue"@, "Pi"@, "Sigma"@, "glue"@, "bool-elim"@, "nat-elim"@, "Path"@, "coe"@, "com"@,
    ]
}

/// The code of the first form from entry `j` of `form_names()` on whose name is
/// written `op` (1 for the first entry), or 0 when none is.
pub open spec fn code_from(op: Seq<u8>, j: int) -> int
    decreases 21 - j,
{
    if j >= 21 || j < 0 {
        0
    } else if vstd::utf8::encode_utf8(form_names()[j]) == op {
        j + 1
    } else {
        code_from(op, j + 1)
    }
}

/// The code of the syntactic form named `op`: its position in `form_names()`
/// counted from one, or 0 for an unknown form.
pub open spec fn form_code(op: Seq<u8>) -> int {
    code_from(op, 0)
}

/// The code of the syntactic form named `op` (0 for an unknown form) and its arity.
fn form(op: &[u8]) -> (r: (u8, usize))
    ensures
        r.0 <= 21,
        r.0 == form_code(op@),
        r.0 != 0 ==> r.1 == arity(r.0),
        r.0 != 0 ==> vstd::utf8::encode_utf8(form_names()[r.0 - 1]) == op@,
        r.0 != 0 ==> forall|j: int| 0 <= j < r.0 - 1 ==> vstd::utf8::encode_utf8(#[trigger] form_names()[j]) != op@,
        r.0 == 0 ==> r.1 == 0 && forall|j: int| 0 <= j < 21 ==> vstd::utf8::encode_utf8(#[trigger] form_names()[j]) != op@,
{
    let names: [&str; 21] = [
        "U", "fst", "snd", "suc", "lam", "app", "pair", "ann", "path", "at", "system", "Glue",
        "unglue", "Pi", "Sigma", "glue", "bool-elim", "nat-elim", "Path", "coe", "com",
    ];
    assert(forall|j: int| 0 <= j < 21 ==> (#[trigger] names@[j])@ == form_names()[j]);
    let mut k: usize = 0;
    while k < 21
        invariant
            k <= 21,
            forall|j: int| 0 <= j < 21 ==> (#[trigger] names@[j])@ == form_names()[j],
            forall|j: int| 0 <= j < k ==> vstd::utf8::encode_utf8(#[trigger] form_names()[j]) != op@,
            form_code(op@) == code_from(op@, k as int),
        decreases 21 - k,
    {
        if bytes_eq(op, names[k].as_bytes()) {
            let c = (k + 1) as u8;
            let n: usize = if c <= 4 {
                1
            } else if c <= 13 {
                2
            } else if c <= 16 {
                3
            } else if c <= 19 {
                4
            } else if c == 20 {
                5
            } else {
                6
            };
            return (c, n);
        }
        k += 1;
    }
    (0, 0)
}

/// Whether `name` may not be declared: a built-in constant's name.
fn reserved(name: &[u8]) -> (r: bool)
    ensures
        r == (name@ == "Bool".spec_bytes() || name@ == "Nat".spec_bytes() || name@ == "true".spec_bytes() || name@
            == "false".spec_bytes() || name@ == "zero".spec_bytes()),
{
    bytes_eq(name, "Bool".as_bytes()) || bytes_eq(name, "Nat".as_bytes()) || bytes_eq(name, "true".as_bytes())
        || bytes_eq(name, "false".as_bytes()) || bytes_eq(name, "zero".as_bytes())
}

/// Parses a program: a sequence of `(def name type body)` declarations.
pub fn parse(source: &str) -> (r: Result<Program>)
    ensures
        r matches Ok(p) ==> p.wf(),
        r matches Ok(p) ==> names_distinct(p.decls@),
        r is Ok ==> read_all(source.spec_bytes(), 0) is Ok,
        read_all(source.spec_bytes(), 0) matches Err((o, m)) ==> (r matches Err(e) && e.offset == Some(o as usize)
            && e.message@ == m),
        r matches Ok(p) ==> exists|xs: Seq<S>|
            #![trigger all_end(source.spec_bytes(), 0, xs)]
            all_end(source.spec_bytes(), 0, xs) matches Some(m) && skip(source.spec_bytes(), m) == source.spec_bytes().len()
                && p.decls@.len() == xs.len() && (forall|k: int|
                0 <= k < xs.len() ==> name_bytes(#[trigger] p.decls@[k]) == declared_name(source.spec_bytes(), xs[k]))
                && constants_read(source.spec_bytes(), p.terms@, p.decls@, xs),
        r matches Err(e) ==> e.offset is Some,
{
    let bytes = source.as_bytes();
    let sexps = sexps(bytes)?;
    let mut p = Parser {
        source,
        bytes,
        program: Program::empty(),
        globals: HashMap::new(),
        terms: Vec::new(),
        dims: Vec::new(),
    };
    let mut k: usize = 0;
    while k < sexps.len()
        invariant
            p.wf(),
            p.source == source,
            k <= sexps@.len(),
            p.program.decls@.len() == k,
            read_all(source.spec_bytes(), 0) is Ok,
            all_end(source.spec_bytes(), 0, sexps@) matches Some(m) && skip(source.spec_bytes(), m)
                == source.spec_bytes().len(),
            forall|j: int| 0 <= j < k ==> name_bytes(#[trigger] p.program.decls@[j]) == declared_name(
                source.spec_bytes(),
                sexps@[j],
            ),
            p.bytes@ == source.spec_bytes(),
            forall|j: int|
                0 <= j < k ==> constant_item(
                    source.spec_bytes(),
                    declared_part(sexps@[j], 2),
                    p.program.terms@[(#[trigger] p.program.decls@[j]).ty.0 as int].term,
                ) && constant_item(
                    source.spec_bytes(),
                    declared_part(sexps@[j], 3),
                    p.program.terms@[p.program.decls@[j].body.0 as int].term,
                ) && universe_item(
                    source.spec_bytes(),
                    declared_part(sexps@[j], 2),
                    p.program.terms@[p.program.decls@[j].ty.0 as int].term,
                ) && universe_item(
                    source.spec_bytes(),
                    declared_part(sexps@[j], 3),
                    p.program.terms@[p.program.decls@[j].body.0 as int].term,
                ),
        decreases sexps@.len() - k,
    {
        let s = &sexps[k];
        let xs = p.list(s)?;
        if xs.len() != 4 {
            return Err(Error::at(s.offset, "expected (def name type body)"));
        }
        p.atom_range(&xs[0])?;
        if !p.is_atom(&xs[0], "def") {
            return Err(Error::at(s.offset, "expected (def name type body)"));
        }
        let written = p.atom_bytes(&xs[1])?;
        if p.global(written).is_some() || reserved(written) {
            return Err(Error::at(xs[1].offset, "duplicate or reserved declaration name"));
        }
        let name = p.atom_string(&xs[1])?;
        let ty = p.term(&xs[2], 1024)?;
        let ghost mid = p;
        let body = p.term(&xs[3], 1024)?;
        let index = p.program.decls.len();
        let ghost nodes = p.program.terms@;
        let ghost old_decls = p.program.decls@;
        let ghost old_globals = p.globals@;
        let decl = Decl { name, ty, body };
        p.file(written, index);
        p.program.decls.push(decl);
        proof {
            let decls = p.program.decls@;
            assert(decls == old_decls.push(decl));
            assert(name_bytes(decl) == written@);
            assert forall|i: int, j: int|
                0 <= i < decls.len() && 0 <= j < decls.len() && i != j implies name_bytes(#[trigger] decls[i])
                != name_bytes(#[trigger] decls[j]) by {
                if i < old_decls.len() && j < old_decls.len() {
                    assert(decls[i] == old_decls[i] && decls[j] == old_decls[j]);
                } else if i < old_decls.len() {
                    assert(decls[i] == old_decls[i]);
                } else {
                    assert(decls[j] == old_decls[j]);
                }
            }
            assert forall|k: int| 0 <= k < decls.len() implies p.globals@.contains_key(
                name_digest(name_bytes(#[trigger] decls[k])),
            ) && p.globals@[name_digest(name_bytes(decls[k]))]@.contains(k as usize) by {
                if k < old_decls.len() {
                    assert(decls[k] == old_decls[k]);
                    let h = name_digest(name_bytes(old_decls[k]));
                    assert(old_globals.contains_key(h) && old_globals[h]@.contains(k as usize));
                    assert(p.globals@[h]@.contains(k as usize));
                } else {
                    assert(k == index);
                    assert(decls[k] == decl);
                }
            }
        }
        proof {
            let decls = p.program.decls@;
            assert(decls == old_decls.push(decl));
            assert forall|t: int|
                0 <= t < nodes.len() implies match #[trigger] nodes[t].term {
                    Term::Global(i) => i < decls.len() && decls[i as int].body.0 < t,
                    _ => true,
                } by {
                match nodes[t].term {
                    Term::Global(i) => {
                        assert(decls[i as int] == old_decls[i as int]);
                    },
                    _ => {},
                }
            }
            assert forall|j: int| 0 <= j < decls.len() implies (#[trigger] decls[j]).ty.0 < nodes.len()
                && decls[j].body.0 < nodes.len() by {
                if j < old_decls.len() {
                    assert(decls[j] == old_decls[j]);
                }
            }
        }
        k += 1;
    }
    assert(constants_read(source.spec_bytes(), p.program.terms@, p.program.decls@, sexps@));
    Ok(p.program)
}

} // verus!
