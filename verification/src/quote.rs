#![verifier::loop_isolation(false)]
//! Iterative, type-directed quotation into one bounded output buffer.
use vstd::prelude::*;
use vstd::string::StringExecFns;
use crate::hash::IdMap;
use crate::eval::{arenas_grow, cheap, is_canonical, Composition, Engine, Val, ValId, internal};
use crate::face::{extends, Dim, Face, FaceId};
use crate::text::{concat3, decimal, lemma_utf8_concat, push_decimal, utf8_len};
use crate::{Error, Result};

verus! {

/// The binders in scope during quotation, outermost first.
pub struct Names {
    pub terms: Vec<u32>,
    pub dims: Vec<u32>,
    pub dim_levels: Vec<u32>,
}

/// The position of `x` in `v`, from the start.
pub fn position(v: &Vec<u32>, x: u32) -> (r: Option<usize>)
    ensures
        r matches Some(k) ==> k < v@.len() && v@[k as int] == x && forall|j: int| 0 <= j < k ==> v@[j] != x,
        r is None ==> !v@.contains(x),
{
    let mut k: usize = 0;
    while k < v.len()
        invariant
            k <= v@.len(),
            forall|j: int| 0 <= j < k ==> v@[j] != x,
        decreases v@.len() - k,
    {
        if v[k] == x {
            return Some(k);
        }
        k += 1;
    }
    None
}

/// The position of the first occurrence of `x` in `s`.
pub open spec fn first_index(s: Seq<u32>, x: u32) -> nat
    decreases s.len(),
{
    if s.len() == 0 || s[0] == x {
        0
    } else {
        1 + first_index(s.drop_first(), x)
    }
}

proof fn lemma_first_index(s: Seq<u32>, x: u32, k: int)
    requires
        0 <= k < s.len(),
        s[k] == x,
        forall|j: int| 0 <= j < k ==> s[j] != x,
    ensures
        first_index(s, x) == k,
    decreases k,
{
    if k > 0 {
        assert forall|j: int| 0 <= j < k - 1 implies s.drop_first()[j] != x by {
            assert(s.drop_first()[j] == s[j + 1]);
        }
        lemma_first_index(s.drop_first(), x, k - 1);
    }
}

/// The printed name of dimension `d` with interval binders `dims` in scope
/// (outermost first): an endpoint numeral, or `i` and its binder's position.
pub open spec fn dim_name(dims: Seq<u32>, d: Dim) -> Seq<char> {
    match d {
        Dim::Zero => "0"@,
        Dim::One => "1"@,
        Dim::Var(x) => "i"@ + crate::text::decimal(first_index(dims, x)),
    }
}

/// Dimension `d` can be printed with interval binders `dims` in scope.
pub open spec fn dim_named(dims: Seq<u32>, d: Dim) -> bool {
    match d {
        Dim::Var(x) => dims.contains(x),
        _ => true,
    }
}

/// Whether two vectors of levels are equal.
pub fn same_levels(a: &Vec<u32>, b: &Vec<u32>) -> (r: bool)
    ensures
        r == (a@ == b@),
{
    if a.len() != b.len() {
        return false;
    }
    let mut k: usize = 0;
    while k < a.len()
        invariant
            a@.len() == b@.len(),
            k <= a@.len(),
            forall|j: int| 0 <= j < k ==> a@[j] == b@[j],
        decreases a@.len() - k,
    {
        if a[k] != b[k] {
            return false;
        }
        k += 1;
    }
    assert(a@ =~= b@);
    true
}

/// The name `prefix` followed by the decimal numeral of `n`.
pub fn numbered(prefix: &str, n: usize) -> (r: String)
    ensures
        r@ == prefix@ + crate::text::decimal(n as nat),
{
    let mut s = prefix.to_owned();
    push_decimal(&mut s, n as u128);
    s
}

impl Names {
    pub fn new() -> (r: Names)
        ensures
            r.terms@.len() == 0,
            r.dims@.len() == 0,
            r.dim_levels@.len() == 0,
    {
        Names { terms: Vec::new(), dims: Vec::new(), dim_levels: Vec::new() }
    }

    /// The printed name of a dimension: an endpoint, or `i` and its binder's position.
    pub fn dim(&self, d: Dim) -> (r: Result<String>)
        ensures
            d == Dim::Zero ==> r is Ok,
            d == Dim::One ==> r is Ok,
            d matches Dim::Var(x) ==> (r is Ok <==> self.dims@.contains(x)),
            r matches Ok(s) ==> s@ == dim_name(self.dims@, d),
    {
        match d {
            Dim::Zero => Ok("0".to_owned()),
            Dim::One => Ok("1".to_owned()),
            Dim::Var(x) => match position(&self.dims, x) {
                Some(k) => {
                    proof {
                        lemma_first_index(self.dims@, x, k as int);
                    }
                    Ok(numbered("i", k))
                },
                None => Err(internal("internal error: escaped interval variable")),
            },
        }
    }
}

/// What a finished quotation task is remembered under.
#[derive(Clone, Debug, PartialEq, Eq, Hash)]
pub struct QuoteKey {
    pub v: ValId,
    pub ty: Option<ValId>,
    pub face: FaceId,
    pub terms: Vec<u32>,
    pub dims: Vec<u32>,
}

/// A pending quotation task.
pub enum Work {
    /// Remember the output emitted since a start offset, in a collection generation.
    Finish(QuoteKey, usize, usize),
    /// Quote a value at an optional type under a face.
    Quote(ValId, Option<ValId>, FaceId),
    Text(String),
    Face(FaceId),
    /// Bind a term variable level for the following tasks.
    Term(u32),
    EndTerm,
    /// Bind a dimension variable level for the following tasks.
    Dim(u32),
    EndDim,
}

pub fn text(s: &str) -> (r: Work)
    ensures
        r matches Work::Text(t) && t@ == s@,
{
    Work::Text(s.to_owned())
}

/// The printed form of a value that prints without subterms.
pub open spec fn printed_constant(v: Val) -> Option<Seq<char>> {
    match v {
        Val::U(l) => Some("(U "@ + decimal(l as nat) + ")"@),
        Val::Bool => Some("Bool"@),
        Val::Nat => Some("Nat"@),
        Val::True => Some("true"@),
        Val::False => Some("false"@),
        Val::Zero => Some("zero"@),
        _ => None,
    }
}

/// `w` quotes a universe, base type or constant at no type or at a type that
/// does not determine the form of its elements.
pub open spec fn atom_task(values: Seq<Val>, w: Work) -> bool {
    match w {
        Work::Quote(v, t, _) => v.0 < values.len() && printed_constant(values[v.0 as int]) is Some && untyped_form(
            values,
            t,
        ),
        _ => false,
    }
}

/// `w` quotes a universe, base type or constant, stored or suspended as a
/// literal, at no type or at such an atom.
pub open spec fn quoted_atom<'b>(e: Engine<'b>, w: Work) -> bool {
    match w {
        Work::Quote(v, t, _) => {
            &&& crate::eval::atom_value(e, v) matches Some(x)
            &&& printed_constant(x) is Some
            &&& atom_slot(e, t)
        },
        _ => false,
    }
}

/// No type, or a type that is an atom, stored or suspended.
pub open spec fn atom_slot<'b>(e: Engine<'b>, ty: Option<ValId>) -> bool {
    match ty {
        Some(t) => crate::eval::atom_value(e, t) is Some,
        None => true,
    }
}

/// The text of the atom that `w` quotes, stored or suspended.
pub open spec fn quoted_atom_text<'b>(e: Engine<'b>, w: Work) -> Seq<char> {
    match w {
        Work::Quote(v, _, _) => printed_constant(crate::eval::atom_value(e, v)->Some_0)->Some_0,
        _ => Seq::empty(),
    }
}

/// The text of the atom that `w` quotes.
pub open spec fn atom_text(values: Seq<Val>, w: Work) -> Seq<char> {
    match w {
        Work::Quote(v, _, _) => printed_constant(values[v.0 as int])->Some_0,
        _ => Seq::empty(),
    }
}

/// Only tasks that remember output ranges.
pub open spec fn finish_only(ts: Seq<Work>) -> bool {
    forall|k: int| 0 <= k < ts.len() ==> (#[trigger] ts[k]) is Finish
}

/// At most one task that remembers an output range, under the task that prints `s`.
pub open spec fn text_after_finish(ts: Seq<Work>, s: Seq<char>) -> bool {
    &&& 1 <= ts.len() <= 2
    &&& ts.last() matches Work::Text(t)
    &&& t@ == s
    &&& finish_only(ts.drop_last())
}

/// `ts` is the single task that prints `s`.
pub open spec fn prints(ts: Seq<Work>, s: Seq<char>) -> bool {
    &&& ts.len() == 1
    &&& ts[0] matches Work::Text(t)
    &&& t@ == s
}

/// The tasks that print a value at a type `ty` that determines its form, under
/// `face`, with `terms` term binders and `dims` interval binders in scope: at a
/// function type a `(lam ..)` around the application to a fresh variable, at a
/// pair type a `(pair ..)` of the projections, the first quoted at the first
/// component type, at a path type a `(path ..)` around the application to a
/// fresh dimension.
pub open spec fn typed_tasks(
    ty: Val,
    vals: Seq<Val>,
    v: ValId,
    ts: Seq<Work>,
    terms: nat,
    dims: nat,
    face: FaceId,
) -> bool {
    match ty {
        Val::Pi(a, _) => {
            &&& ts.len() == 5
            &&& ts[0] matches Work::Text(t) && t@ == "(lam "@ + ("x"@ + decimal(terms)) + " "@
            &&& ts[1] matches Work::Term(level)
            &&& ts[2] matches Work::Quote(w, Some(_), g)
            &&& g == face
            &&& applied_to_variable(vals, w, v, level, a)
            &&& ts[3] is EndTerm
            &&& ts[4] matches Work::Text(t) && t@ == ")"@
        },
        Val::Sigma(a, _) => {
            &&& ts.len() == 5
            &&& ts[0] matches Work::Text(t) && t@ == "(pair "@
            &&& ts[1] matches Work::Quote(x, Some(b), g)
            &&& b == a
            &&& g == face
            &&& projection_of(vals, x, v, true)
            &&& ts[2] matches Work::Text(t) && t@ == " "@
            &&& ts[3] matches Work::Quote(y, Some(_), h)
            &&& h == face
            &&& projection_of(vals, y, v, false)
            &&& ts[4] matches Work::Text(t) && t@ == ")"@
        },
        Val::Path(_, _, _) => {
            &&& ts.len() == 5
            &&& ts[0] matches Work::Text(t) && t@ == "(path "@ + ("i"@ + decimal(dims)) + " "@
            &&& ts[1] matches Work::Dim(i)
            &&& ts[2] matches Work::Quote(w, Some(_), g)
            &&& g == face
            &&& w.0 < vals.len()
            &&& vals[w.0 as int] == Val::PApp(v, Dim::Var(i))
            &&& ts[3] is EndDim
            &&& ts[4] matches Work::Text(t) && t@ == ")"@
        },
        _ => true,
    }
}

/// `w` is the application of `v` to the variable at `level` of type `a`.
pub open spec fn applied_to_variable(vals: Seq<Val>, w: ValId, v: ValId, level: u32, a: ValId) -> bool {
    &&& w.0 < vals.len()
    &&& vals[w.0 as int] matches Val::App(f, x)
    &&& f == v
    &&& x.0 < vals.len()
    &&& vals[x.0 as int] == Val::Var(level, Some(a))
}

/// `v` is a pair whose first (or second) component is `x`.
pub open spec fn component_of(v: Val, x: ValId, first: bool) -> bool {
    match v {
        Val::Pair(p, q) => x == (if first { p } else { q }),
        _ => false,
    }
}

/// `x` is the first (or second) projection of `v`: the component of a stored
/// pair, or a projection node.
pub open spec fn projection_of(vals: Seq<Val>, x: ValId, v: ValId, first: bool) -> bool {
    ||| v.0 < vals.len() && component_of(vals[v.0 as int], x, first)
    ||| x.0 < vals.len() && vals[x.0 as int] == (if first { Val::Fst(v) } else { Val::Snd(v) })
}

/// A successful quotation at type `ty` has the tasks that the type determines.
pub open spec fn typed_result(
    values: Seq<Val>,
    vals: Seq<Val>,
    v: ValId,
    ty: Option<ValId>,
    r: Result<Vec<Work>>,
    terms: nat,
    dims: nat,
    face: FaceId,
) -> bool {
    match (ty, r) {
        (Some(t), Ok(ts)) => t.0 < values.len() ==> typed_tasks(values[t.0 as int], vals, v, ts@, terms, dims, face),
        _ => true,
    }
}

/// No type is given, or the type is canonical and does not determine the form
/// of its elements.
pub open spec fn untyped_form(values: Seq<Val>, ty: Option<ValId>) -> bool {
    match ty {
        None => true,
        Some(t) => t.0 < values.len() && is_canonical(values[t.0 as int]) && match values[t.0 as int] {
            Val::Pi(_, _) | Val::Sigma(_, _) | Val::Path(_, _, _) => false,
            _ => true,
        },
    }
}

/// The tasks that print a value `v` as a head normal form under `face`, with the
/// term binders `terms` in scope: constants print as themselves, a variable as
/// `x` and its binder's position, a successor as `(suc ..)` around its
/// predecessor quoted at `Nat`; an introduction form or an unforced value
/// cannot be printed without its type.
pub open spec fn neutral_tasks(v: Val, face: FaceId, terms: Seq<u32>, r: Result<Vec<Work>>) -> bool {
    match v {
        Val::Var(x, _) => (r is Ok <==> terms.contains(x)) && (r matches Ok(ts) ==> prints(
            ts@,
            "x"@ + decimal(first_index(terms, x)),
        )),
        Val::Suc(k) => r matches Ok(ts) ==> {
            &&& ts@.len() == 3
            &&& ts@[0] matches Work::Text(t) && t@ == "(suc "@
            &&& ts@[1] matches Work::Quote(w, Some(_), g) && w == k && g == face
            &&& ts@[2] matches Work::Text(t) && t@ == ")"@
        },
        Val::GlueIntro(_, _) | Val::Lam(_) | Val::PLam(_) | Val::Pair(_, _) | Val::Susp(_, _) | Val::Sub(_, _) => r is Err,
        _ => printed_constant(v) matches Some(s) ==> (r matches Ok(ts) ==> prints(ts@, s)),
    }
}

/// `w` quotes exactly the value `x` under `face`.
pub open spec fn quotes(w: Work, x: ValId, face: FaceId) -> bool {
    w matches Work::Quote(y, _, g) && y == x && g == face
}

/// `w` prints exactly `s`.
pub open spec fn prints_text(w: Work, s: Seq<char>) -> bool {
    w matches Work::Text(t) && t@ == s
}

/// The tasks that print an eliminator applied to a neutral subject: its
/// keyword, then its arguments in their written order, each quoted under the
/// same face.
pub open spec fn eliminator_tasks(v: Val, face: FaceId, r: Result<Vec<Work>>) -> bool {
    match v {
        Val::Fst(p) => r matches Ok(ts) ==> {
            &&& ts@.len() == 3
            &&& prints_text(ts@[0], "(fst "@)
            &&& quotes(ts@[1], p, face)
            &&& prints_text(ts@[2], ")"@)
        },
        Val::Snd(p) => r matches Ok(ts) ==> {
            &&& ts@.len() == 3
            &&& prints_text(ts@[0], "(snd "@)
            &&& quotes(ts@[1], p, face)
            &&& prints_text(ts@[2], ")"@)
        },
        Val::App(f, a) => r matches Ok(ts) ==> {
            &&& ts@.len() == 5
            &&& prints_text(ts@[0], "(app "@)
            &&& quotes(ts@[1], f, face)
            &&& prints_text(ts@[2], " "@)
            &&& quotes(ts@[3], a, face)
            &&& prints_text(ts@[4], ")"@)
        },
        Val::PApp(p, _) => r matches Ok(ts) ==> {
            &&& ts@.len() == 3
            &&& prints_text(ts@[0], "(at "@)
            &&& quotes(ts@[1], p, face)
        },
        Val::If(_, a, b, c) => r matches Ok(ts) ==> {
            &&& ts@.len() == 11
            &&& quotes(ts@[5], a, face)
            &&& quotes(ts@[7], b, face)
            &&& quotes(ts@[9], c, face)
            &&& prints_text(ts@[10], ")"@)
        },
        Val::NatElim(_, z, _, k) => r matches Ok(ts) ==> {
            &&& ts@.len() == 15
            &&& quotes(ts@[5], z, face)
            &&& quotes(ts@[13], k, face)
            &&& prints_text(ts@[14], ")"@)
        },
        _ => true,
    }
}

/// The tasks that print a type former or a composition: its keyword and the
/// name it binds, then its parts in their written order, each quoted under the
/// same face; the eliminators `bool-elim` and `nat-elim` open with their
/// keyword and the name of their motive's variable.
pub open spec fn former_tasks(v: Val, face: FaceId, term_name: Seq<char>, dim_name: Seq<char>, r: Result<Vec<Work>>) -> bool {
    match v {
        Val::Pi(a, _) => r matches Ok(ts) ==> {
            &&& ts@.len() == 7
            &&& prints_text(ts@[0], "(Pi "@ + term_name + " "@)
            &&& quotes(ts@[1], a, face)
            &&& ts@[3] is Term
            &&& ts@[4] matches Work::Quote(_, None, g) && g == face
            &&& ts@[5] is EndTerm
            &&& prints_text(ts@[6], ")"@)
        },
        Val::Sigma(a, _) => r matches Ok(ts) ==> {
            &&& ts@.len() == 7
            &&& prints_text(ts@[0], "(Sigma "@ + term_name + " "@)
            &&& quotes(ts@[1], a, face)
            &&& ts@[3] is Term
            &&& ts@[4] matches Work::Quote(_, None, g) && g == face
            &&& ts@[5] is EndTerm
            &&& prints_text(ts@[6], ")"@)
        },
        Val::Path(_, l, rr) => r matches Ok(ts) ==> {
            &&& ts@.len() == 9
            &&& prints_text(ts@[0], "(Path "@ + dim_name + " "@)
            &&& ts@[1] is Dim
            &&& ts@[2] matches Work::Quote(_, None, g) && g == face
            &&& ts@[3] is EndDim
            &&& quotes(ts@[5], l, face)
            &&& quotes(ts@[7], rr, face)
            &&& prints_text(ts@[8], ")"@)
        },
        Val::If(_, _, _, _) => r matches Ok(ts) ==> ts@.len() > 0 && prints_text(
            ts@[0],
            "(bool-elim (lam "@ + term_name + " "@,
        ),
        Val::NatElim(_, _, _, _) => r matches Ok(ts) ==> ts@.len() > 0 && prints_text(
            ts@[0],
            "(nat-elim (lam "@ + term_name + " "@,
        ),
        Val::Com(c) => r matches Ok(ts) ==> {
            &&& ts@.len() >= 8
            &&& prints_text(ts@[0], "(com "@ + dim_name + " "@)
            &&& ts@[1] == Work::Dim(c.dim)
            &&& quotes(ts@[2], c.family, face)
            &&& quotes(ts@[5], c.cap, face)
        },
        Val::System(a, _) => r matches Ok(ts) ==> {
            &&& ts@.len() >= 3
            &&& prints_text(ts@[0], "(system "@)
            &&& quotes(ts@[1], a, face)
        },
        _ => true,
    }
}

/// Appends `s` to `out` unless that would exceed `max_output` bytes.
pub fn emit(out: &mut String, s: &str, max_output: usize) -> (r: Result<()>)
    ensures
        r is Ok <==> utf8_len(s@) == 0 || utf8_len(old(out)@) + utf8_len(s@) <= max_output,
        r is Ok ==> final(out)@ == old(out)@ + s@,
        r is Err ==> final(out)@ == old(out)@,
        r matches Err(e) ==> e.offset is None && e.message@ == "quotation output byte budget exhausted"@,
        r is Ok && utf8_len(old(out)@) <= max_output ==> utf8_len(final(out)@) <= max_output,
{
    let used = out.as_str().as_bytes().len();
    let extra = s.as_bytes().len();
    if extra > max_output.saturating_sub(used) {
        return Err(Error::plain("quotation output byte budget exhausted"));
    }
    let ghost before = out@;
    out.append(s);
    proof {
        lemma_utf8_concat(before, s@);
    }
    Ok(())
}

/// The message of a quotation failure, with the state of the quotation appended.
pub fn quotation_failure(e: Error, emitted: usize, pending: usize, steps: u64, faces: usize) -> (r: Error)
    ensures
        r.offset == e.offset,
        r.message@ == e.message@ + " (during quotation: "@ + decimal(emitted as nat) + " bytes emitted, "@ + decimal(
            pending as nat,
        ) + " pending tasks, "@ + decimal(steps as nat) + " steps; faces="@ + decimal(faces as nat) + ")"@,
{
    let mut message = e.message;
    message.append(" (during quotation: ");
    push_decimal(&mut message, emitted as u128);
    message.append(" bytes emitted, ");
    push_decimal(&mut message, pending as u128);
    message.append(" pending tasks, ");
    push_decimal(&mut message, steps as u128);
    message.append(" steps; faces=");
    push_decimal(&mut message, faces as u128);
    message.append(")");
    Error { offset: e.offset, message }
}

impl<'a> Engine<'a> {
    /// The normal form of `v` at type `ty` under `face`, as text. Fails when the
    /// output would exceed `max_output` bytes, when more than `max_work` tasks
    /// would be pending, or when evaluation fails.
    pub fn quote(&mut self, v: ValId, ty: ValId, face: FaceId, max_output: usize, max_work: usize) -> (r: Result<String>)
        requires
            old(self).inv(),
        ensures
            final(self).inv(),
            final(self).fuel == old(self).fuel,
            r matches Ok(text) ==> utf8_len(text@) <= max_output,
            r is Ok ==> old(self).fuel > 0,
            r matches Err(e) ==> exists|m: Seq<char>, emitted: nat, pending: nat, steps: nat, faces: nat|
                emitted <= max_output && (pending <= max_work || pending <= 1) && e.message@ == m
                    + " (during quotation: "@ + decimal(emitted) + " bytes emitted, "@ + decimal(pending)
                    + " pending tasks, "@ + decimal(steps) + " steps; faces="@ + decimal(faces) + ")"@,
            r matches Ok(text) ==> quoted_atom(*old(self), Work::Quote(v, Some(ty), face)) && !(old(self).optimized
                && old(self).counted_nodes() > old(self).collection_at) ==> text@ == quoted_atom_text(
                *old(self),
                Work::Quote(v, Some(ty), face),
            ),
            v.0 < old(self).values@.len() && printed_constant(old(self).values@[v.0 as int]) is Some && untyped_form(
                old(self).values@,
                Some(ty),
            ) && crate::eval::atom_value(*old(self), ty) is Some && !(old(self).optimized && old(self).counted_nodes() > old(self).collection_at) && old(self).budget_for(32, 16)
                && max_work >= 2 && utf8_len(printed_constant(old(self).values@[v.0 as int])->Some_0) <= max_output ==> r is Ok,
    {
        let mut pending: Vec<Work> = Vec::new();
        pending.push(Work::Quote(v, Some(ty), face));
        assert(pending@ =~= seq![Work::Quote(v, Some(ty), face)]);
        let mut names = Names::new();
        let mut out = String::new();
        assert(vstd::utf8::encode_utf8(out@) =~= Seq::<u8>::empty());
        let result = self.quote_loop(&mut pending, &mut names, &mut out, max_output, max_work);
        match result {
            Ok(()) => Ok(out),
            Err(e) => {
                let emitted = out.as_str().as_bytes().len();
                let faces = self.faces.len();
                let r = quotation_failure(e, emitted, pending.len(), self.steps, faces);
                assert(r.message@ == e.message@ + " (during quotation: "@ + decimal(emitted as nat) + " bytes emitted, "@
                    + decimal(pending@.len()) + " pending tasks, "@ + decimal(self.steps as nat) + " steps; faces="@
                    + decimal(faces as nat) + ")"@);
                Err(r)
            },
        }
    }

    #[verifier::spinoff_prover]
    #[verifier::rlimit(80)]
    fn quote_loop(
        &mut self,
        pending: &mut Vec<Work>,
        names: &mut Names,
        out: &mut String,
        max_output: usize,
        max_work: usize,
    ) -> (r: Result<()>)
        requires
            old(self).inv(),
            utf8_len(old(out)@) <= max_output,
        ensures
            final(self).inv(),
            final(self).fuel == old(self).fuel,
            utf8_len(final(out)@) <= max_output,
            final(pending)@.len() <= max_work || final(pending)@.len() <= old(pending)@.len(),
            r is Ok ==> old(pending)@.len() == 0 || old(self).fuel > 0,
            old(pending)@.len() == 0 ==> r is Ok && final(out)@ == old(out)@,
            r is Ok ==> final(pending)@.len() == 0,
            r is Ok && old(pending)@.len() == 1 && quoted_atom(*old(self), old(pending)@[0]) && !(old(self).optimized
                && old(self).counted_nodes() > old(self).collection_at) ==> final(out)@ == old(out)@ + quoted_atom_text(
                *old(self),
                old(pending)@[0],
            ),
            old(pending)@.len() == 1 && quoted_atom(*old(self), old(pending)@[0]) && atom_task(old(self).values@, old(pending)@[0]) && !(old(self).optimized
                && old(self).counted_nodes() > old(self).collection_at) && old(self).budget_for(32, 16) && max_work >= 2
                && utf8_len(old(out)@) + utf8_len(atom_text(old(self).values@, old(pending)@[0])) <= max_output ==> r is Ok,
    {
        let ghost bound: int = if max_work > old(pending)@.len() {
            max_work as int
        } else {
            old(pending)@.len() as int
        };
        let ghost simple = old(pending)@.len() == 1 && quoted_atom(*old(self), old(pending)@[0]) && !(
        old(self).optimized && old(self).counted_nodes() > old(self).collection_at);
        let ghost s0 = quoted_atom_text(*old(self), old(pending)@[0]);
        let ghost funded = old(self).budget_for(32, 16) && old(pending)@.len() == 1 && atom_task(
            old(self).values@,
            old(pending)@[0],
        );
        let ghost start = *self;
        let mut memo: IdMap<QuoteKey, (usize, usize)> = IdMap::default();
        let mut large_memo: Vec<(QuoteKey, usize, usize)> = Vec::new();
        while pending.len() > 0
            invariant
                self.inv(),
                self.fuel == old(self).fuel,
                utf8_len(out@) <= max_output,
                pending@.len() <= bound,
                bound == max_work || bound == old(pending)@.len(),
                max_work <= bound,
                old(pending)@.len() == 0 || self.fuel > 0 || pending@.len() > 0,
                old(pending)@.len() == 0 ==> out@ == old(out)@ && pending@.len() == 0,
                // Quoting one atom: the task itself, then its text (under the task
                // that would remember its range), then at most that task.
                simple ==> {
                    ||| pending@ == old(pending)@ && out@ == old(out)@ && *self == start
                    ||| text_after_finish(pending@, s0) && out@ == old(out)@ && (funded ==> arenas_grow(start, *self) && cheap(
                        start,
                        *self,
                        14,
                        7,
                    ))
                    ||| finish_only(pending@) && pending@.len() <= 1 && out@ == old(out)@ + s0
                        && (funded ==> arenas_grow(start, *self) && cheap(start, *self, 17, 9)) && (funded && pending@.len() == 1 ==> cheap(
                        start,
                        *self,
                        16,
                        8,
                    ))
                },
            decreases self.calls_left(),
        {
            let ghost phase_a = simple && pending@ == old(pending)@ && out@ == old(out)@ && *self == start;
            let ghost phase_b = simple && !phase_a && text_after_finish(pending@, s0) && out@ == old(out)@;
            let ghost phase_c = simple && !phase_a && !phase_b;
            let ghost waiting = pending@;
            proof {
                if phase_b || phase_c {
                    assert forall|k: int| 0 <= k < pending@.len() implies !((#[trigger] pending@[k]) is Quote) && !(
                    pending@[k] is Face) by {
                        if phase_b && k < pending@.len() - 1 {
                            assert(pending@.drop_last()[k] == pending@[k]);
                        }
                    }
                }
            }
            self.spend()?;
            if self.should_collect() {
                self.collect_pending(pending)?;
                memo.clear();
                large_memo.clear();
            }
            let work = match pending.pop() {
                Some(w) => w,
                None => {
                    return Ok(());
                },
            };
            proof {
                if phase_b || phase_c {
                    assert(work == waiting.last());
                    assert(pending@ =~= waiting.drop_last());
                }
            }
            self.tick()?;
            let mut next: Vec<Work> = Vec::new();
            match work {
                Work::Finish(key, start, generation) => {
                    let end = out.as_str().len();
                    if generation == self.collections && memo.len() < 16384 && start <= end && end - start >= 128 {
                        if end - start >= 4096 {
                            if large_memo.len() >= 64 {
                                large_memo.remove(0);
                            }
                            large_memo.push((key.clone(), start, end));
                        }
                        memo.insert(key, (start, end));
                    }
                },
                Work::Text(t) => {
                    emit(out, t.as_str(), max_output)?;
                },
                Work::Term(x) => names.terms.push(x),
                Work::EndTerm => {
                    names.terms.pop();
                },
                Work::Dim(i) => names.dims.push(i),
                Work::EndDim => {
                    names.dims.pop();
                },
                Work::Face(f) => {
                    next = self.quote_face(f, names)?;
                },
                Work::Quote(v, ty, face) => {
                    let v = self.quote_head(v, face, names)?;
                    let key = QuoteKey { v, ty, face, terms: names.terms.clone(), dims: names.dims.clone() };
                    // An atom's text is shorter than any remembered range, so the
                    // memo never holds it.
                    let mut found: Option<(usize, usize)> = if self.printed_atom(v, ty) {
                        None
                    } else {
                        match memo.get(&key) {
                            Some(range) => Some(*range),
                            None => None,
                        }
                    };
                    if found.is_none() && self.optimized_quote() {
                        if let Val::Com(_) = self.get(v)? {
                            found = self.congruent(&large_memo, v, ty, face, names)?;
                        }
                    }
                    match found {
                        Some((start, end)) if self.optimized_quote() => {
                            let copy = match crate::syntax::slice_str(out.as_str(), start, end) {
                                Some(piece) => piece.to_owned(),
                                None => {
                                    return Err(internal("internal error: remembered output range"));
                                },
                            };
                            emit(out, copy.as_str(), max_output)?;
                        },
                        _ => {
                            next = self.quote_work(v, ty, face, names)?;
                            if self.optimized_quote() {
                                next.push(Work::Finish(key, out.as_str().len(), self.collections));
                            }
                        },
                    }
                },
            }
            if next.len() > max_work.saturating_sub(pending.len()) {
                return Err(Error::plain("quotation pending-work budget exhausted"));
            }
            let ghost p0 = pending@;
            let ghost n0 = next@;
            while next.len() > 0
                invariant
                    self.inv(),
                    self.fuel == old(self).fuel,
                    pending@.len() + next@.len() <= bound,
                    next@.len() <= n0.len(),
                    next@ == n0.take(next@.len() as int),
                    pending@.len() == p0.len() + (n0.len() - next@.len()),
                    pending@.take(p0.len() as int) == p0,
                    forall|j: int|
                        p0.len() <= j < pending@.len() ==> #[trigger] pending@[j] == n0[n0.len() - 1 - (j - p0.len())],
                decreases next@.len(),
            {
                let ghost pn = next@;
                let ghost pp = pending@;
                match next.pop() {
                    Some(w) => pending.push(w),
                    None => {},
                }
                proof {
                    assert(next@ =~= n0.take(next@.len() as int));
                    assert(pending@.take(p0.len() as int) =~= p0) by {
                        assert(pending@.take(p0.len() as int) =~= pp.take(p0.len() as int));
                    }
                }
            }
            proof {
                if n0.len() == 0 {
                    assert(pending@ =~= p0);
                }
                if p0.len() == 0 && n0.len() == 1 {
                    assert(pending@ =~= n0);
                    assert(pending@.drop_last() =~= Seq::<Work>::empty());
                }
                if p0.len() == 0 && n0.len() == 2 {
                    assert(pending@[1] == n0[0]);
                    assert(pending@.drop_last() =~= seq![n0[1]]);
                }
                assert(phase_a ==> text_after_finish(pending@, s0) && out@ == old(out)@);
                assert(phase_b ==> finish_only(pending@) && pending@.len() <= 1 && out@ == old(out)@ + s0);
                assert(phase_c ==> pending@.len() == 0 && out@ == old(out)@ + s0);
                assert(phase_a ==> arenas_grow(start, *self));
                assert(phase_a && funded ==> cheap(start, *self, 14, 7));
                assert(phase_b && funded ==> arenas_grow(start, *self));
                assert(phase_b && funded ==> cheap(start, *self, 16, 8));
                assert(phase_c && funded ==> arenas_grow(start, *self));
                assert(phase_c && funded ==> cheap(start, *self, 17, 9));
            }
        }
        Ok(())
    }

    /// Collects the arenas, keeping what the pending tasks refer to and rewriting them.
    fn collect_pending(&mut self, pending: &mut Vec<Work>) -> (r: Result<()>)
        requires
            old(self).inv(),
        ensures
            final(self).inv(),
            final(self).fuel == old(self).fuel,
            final(self).calls_left() <= old(self).calls_left(),
            final(pending)@.len() <= old(pending)@.len(),
            r is Ok ==> final(pending)@.len() == old(pending)@.len(),
            r is Ok ==> (forall|k: int| 0 <= k < old(pending)@.len() ==> !((#[trigger] old(pending)@[k]) is Quote)
                && !(old(pending)@[k] is Face)) ==> final(pending)@ == old(pending)@,
    {
        let ghost all_text = forall|k: int|
            0 <= k < old(pending)@.len() ==> !((#[trigger] old(pending)@[k]) is Quote) && !(old(pending)@[k] is Face);
        let ghost original = old(pending)@;
        let mut roots: Vec<ValId> = Vec::new();
        let mut faces: Vec<FaceId> = Vec::new();
        let mut i: usize = 0;
        while i < pending.len()
            invariant
                i <= pending@.len(),
            decreases pending@.len() - i,
        {
            match &pending[i] {
                Work::Quote(v, t, f) => {
                    roots.push(*v);
                    if let Some(t) = t {
                        roots.push(*t);
                    }
                    faces.push(*f);
                },
                Work::Face(f) => faces.push(*f),
                _ => {},
            }
            i += 1;
        }
        self.collect_quote(&mut roots, &mut faces)?;
        let mut items: Vec<Work> = Vec::new();
        while pending.len() > 0
            invariant
                pending@.len() + items@.len() == original.len(),
                pending@ == original.take(pending@.len() as int),
                forall|j: int| 0 <= j < items@.len() ==> #[trigger] items@[j] == original[original.len() - 1 - j],
            decreases pending@.len(),
        {
            match pending.pop() {
                Some(w) => items.push(w),
                None => {},
            }
        }
        let mut ri: usize = 0;
        let mut fi: usize = 0;
        while items.len() > 0
            invariant
                pending@.len() + items@.len() == original.len(),
                all_text ==> pending@ == original.take(pending@.len() as int),
                forall|j: int| 0 <= j < items@.len() ==> #[trigger] items@[j] == original[original.len() - 1 - j],
                all_text == forall|k: int| 0 <= k < original.len() ==> !((#[trigger] original[k]) is Quote) && !(
                original[k] is Face),
            decreases items@.len(),
        {
            let w = match items.pop() {
                Some(w) => w,
                None => {
                    break;
                },
            };
            let w = match w {
                Work::Quote(_, t, _) => {
                    if ri >= roots.len() || fi >= faces.len() {
                        return Err(internal("internal error: collection roots"));
                    }
                    let v = roots[ri];
                    ri += 1;
                    let t = match t {
                        Some(_) => {
                            if ri >= roots.len() {
                                return Err(internal("internal error: collection roots"));
                            }
                            let t = roots[ri];
                            ri += 1;
                            Some(t)
                        },
                        None => None,
                    };
                    let f = faces[fi];
                    fi += 1;
                    Work::Quote(v, t, f)
                },
                Work::Face(_) => {
                    if fi >= faces.len() {
                        return Err(internal("internal error: collection roots"));
                    }
                    let f = faces[fi];
                    fi += 1;
                    Work::Face(f)
                },
                other => other,
            };
            pending.push(w);
        }
        Ok(())
    }

    /// Whether `v` holds an atom and `ty` does not determine the form of its elements.
    fn printed_atom(&self, v: ValId, ty: Option<ValId>) -> (r: bool)
        ensures
            r == (v.0 < self.values@.len() && printed_constant(self.values@[v.0 as int]) is Some && untyped_form(
                self.values@,
                ty,
            )),
    {
        if v.0 >= self.values.len() {
            return false;
        }
        let atom = match self.values.get(v.0) {
            Val::U(_) | Val::Bool | Val::Nat | Val::True | Val::False | Val::Zero => true,
            _ => false,
        };
        if !atom {
            return false;
        }
        match ty {
            None => true,
            Some(t) => {
                if t.0 >= self.values.len() {
                    return false;
                }
                let tv = self.values.get(t.0);
                crate::eval::canonical(tv) && !matches!(tv, Val::Pi(_, _) | Val::Sigma(_, _) | Val::Path(_, _, _))
            },
        }
    }

    /// Forces `v`; an optimized composition is renamed to the quotation's canonical dimension.
    fn quote_head(&mut self, v: ValId, face: FaceId, names: &mut Names) -> (r: Result<ValId>)
        requires
            old(self).inv(),
        ensures
            final(self).inv(),
            final(self).fuel == old(self).fuel,
            arenas_grow(*old(self), *final(self)),
            final(self).calls_left() <= old(self).calls_left(),
            final(names).terms@ == old(names).terms@,
            final(names).dims@ == old(names).dims@,
            r matches Ok(w) ==> v.0 < old(self).values@.len() && is_canonical(old(self).values@[v.0 as int]) ==> w == v,
            r matches Ok(w) ==> {
                &&& w.0 < final(self).values@.len()
                &&& !(final(self).values@[w.0 as int] is Susp)
                &&& !(final(self).values@[w.0 as int] is Sub)
            },
            old(self).budget_for(4, 2) && v.0 < old(self).values@.len() && is_canonical(old(self).values@[v.0 as int])
                ==> r == Ok::<ValId, Error>(v) && cheap(*old(self), *final(self), 4, 2),
            r matches Ok(w) ==> crate::eval::atom_value(*old(self), v) matches Some(x) ==> w.0 < final(self).values@.len()
                && final(self).values@[w.0 as int] == x,
    {
        let v = self.force(v, face)?;
        if self.optimized_quote() {
            if let Val::Com(c) = self.get(v)? {
                let i = self.quote_dimension(names)?;
                let family = self.restrict(c.family, c.dim, Dim::Var(i))?;
                let mut tubes: Vec<(FaceId, ValId)> = Vec::new();
                let mut k: usize = 0;
                while k < c.tubes.len()
                    invariant
                        self.inv(),
                        self.fuel == old(self).fuel,
                        arenas_grow(*old(self), *self),
                        self.calls_left() <= old(self).calls_left(),
                        k <= c.tubes@.len(),
                    decreases c.tubes@.len() - k,
                {
                    let t = self.restrict(c.tubes[k].1, c.dim, Dim::Var(i))?;
                    tubes.push((c.tubes[k].0, t));
                    k += 1;
                }
                return Ok(self.make(Val::Com(Composition { dim: i, family, from: c.from, to: c.to, cap: c.cap, tubes })));
            }
        }
        Ok(v)
    }

    /// A remembered output range of a composition that is congruent to `v`, among
    /// the four latest large entries quoted in the same context.
    fn congruent(&mut self, large_memo: &Vec<(QuoteKey, usize, usize)>, v: ValId, ty: Option<ValId>, face: FaceId, names: &Names) -> (r:
        Result<Option<(usize, usize)>>)
        requires
            old(self).inv(),
        ensures
            final(self).inv(),
            final(self).fuel == old(self).fuel,
            arenas_grow(*old(self), *final(self)),
            final(self).calls_left() <= old(self).calls_left(),
            large_memo@.len() == 0 ==> r == Ok::<Option<(usize, usize)>, Error>(None),
            r matches Ok(Some(range)) ==> exists|k: int|
                0 <= k < large_memo@.len() && (#[trigger] large_memo@[k]).1 == range.0 && large_memo@[k].2 == range.1
                    && large_memo@[k].0.ty == ty && large_memo@[k].0.face == face && large_memo@[k].0.terms@
                    == names.terms@ && large_memo@[k].0.dims@ == names.dims@,
    {
        let mut tried: usize = 0;
        let mut k: usize = large_memo.len();
        while k > 0 && tried < 4
            invariant
                self.inv(),
                self.fuel == old(self).fuel,
                arenas_grow(*old(self), *self),
                self.calls_left() <= old(self).calls_left(),
                k <= large_memo@.len(),
            decreases k,
        {
            k -= 1;
            let (old, start, end) = (&large_memo[k].0, large_memo[k].1, large_memo[k].2);
            if old.ty == ty && old.face == face && same_levels(&old.terms, &names.terms) && same_levels(
                &old.dims,
                &names.dims,
            ) {
                tried += 1;
                if self.same(v, old.v, face, 64)? {
                    return Ok(Some((start, end)));
                }
            }
        }
        Ok(None)
    }

    /// The tasks that print face `f`.
    fn quote_face(&mut self, f: FaceId, names: &Names) -> (r: Result<Vec<Work>>)
        requires
            old(self).inv(),
        ensures
            final(self).inv(),
            final(self).fuel == old(self).fuel,
            arenas_grow(*old(self), *final(self)),
            final(self).calls_left() == old(self).calls_left(),
            r is Ok ==> old(self).faces.valid(f),
            old(self).faces.valid(f) ==> (r is Ok <==> (old(self).faces@[f.0 as int] matches Face::Eq(a, b) ==> dim_named(
                names.dims@,
                a,
            ) && dim_named(names.dims@, b))),
            r matches Ok(w) ==> match old(self).faces@[f.0 as int] {
                Face::Top => w@.len() == 1 && (w@[0] matches Work::Text(t) && t@ == "top"@),
                Face::Bot => w@.len() == 1 && (w@[0] matches Work::Text(t) && t@ == "bottom"@),
                Face::Eq(a, b) => w@.len() == 1 && (w@[0] matches Work::Text(t) && t@ == "(= "@ + dim_name(names.dims@, a)
                    + " "@ + dim_name(names.dims@, b) + ")"@),
                Face::And(a, b) => w@.len() == 5 && (w@[1] matches Work::Face(g) && g == a) && (w@[3] matches Work::Face(
                    h,
                ) && h == b),
                Face::Or(a, b) => w@.len() == 5 && (w@[1] matches Work::Face(g) && g == a) && (w@[3] matches Work::Face(
                    h,
                ) && h == b),
            },
    {
        let mut next: Vec<Work> = Vec::new();
        match self.face_node(f)? {
            Face::Top => next.push(text("top")),
            Face::Bot => next.push(text("bottom")),
            Face::Eq(a, b) => {
                let a = names.dim(a)?;
                let b = names.dim(b)?;
                let mut s = concat3("(= ", a.as_str(), " ");
                s.append(b.as_str());
                s.append(")");
                next.push(Work::Text(s));
            },
            Face::And(a, b) => {
                next.push(text("(and "));
                next.push(Work::Face(a));
                next.push(text(" "));
                next.push(Work::Face(b));
                next.push(text(")"));
            },
            Face::Or(a, b) => {
                next.push(text("(or "));
                next.push(Work::Face(a));
                next.push(text(" "));
                next.push(Work::Face(b));
                next.push(text(")"));
            },
        }
        Ok(next)
    }

    /// The canonical quotation level of the next dimension binder.
    fn quote_dimension(&mut self, n: &mut Names) -> (r: Result<u32>)
        requires
            old(self).inv(),
        ensures
            final(self).inv(),
            final(self).fuel == old(self).fuel,
            arenas_grow(*old(self), *final(self)),
            final(self).calls_left() == old(self).calls_left(),
            final(n).terms@ == old(n).terms@,
            final(n).dims@ == old(n).dims@,
            extends(old(n).dim_levels@, final(n).dim_levels@),
            r matches Ok(i) ==> old(n).dims@.len() < final(n).dim_levels@.len() && i == final(n).dim_levels@[old(
                n,
            ).dims@.len() as int],
            old(n).dims@.len() < old(n).dim_levels@.len() ==> r == Ok::<u32, Error>(
                old(n).dim_levels@[old(n).dims@.len() as int],
            ),
    {
        let depth = n.dims.len();
        while n.dim_levels.len() <= depth
            invariant
                n.terms@ == old(n).terms@,
                n.dims@ == old(n).dims@,
                depth == n.dims@.len(),
                extends(old(n).dim_levels@, n.dim_levels@),
                self.inv(),
                self.fuel == old(self).fuel,
                arenas_grow(*old(self), *self),
                self.calls_left() == old(self).calls_left(),
            decreases depth + 1 - n.dim_levels@.len(),
        {
            let d = self.fresh_dim()?;
            n.dim_levels.push(d);
        }
        Ok(n.dim_levels[depth])
    }

    /// Tasks printing the branches `(face body)` of a system, composition or Glue
    /// value whose faces are consistent under `face`.
    fn branch_tasks(&mut self, tasks: &mut Vec<Work>, bs: &Vec<(FaceId, ValId)>, ty: Option<ValId>, face: FaceId) -> (r:
        Result<()>)
        requires
            old(self).inv(),
        ensures
            final(self).inv(),
            final(self).fuel == old(self).fuel,
            arenas_grow(*old(self), *final(self)),
            final(self).calls_left() == old(self).calls_left(),
            extends(old(tasks)@, final(tasks)@),
            bs@.len() == 0 ==> r is Ok && final(tasks)@ == old(tasks)@,
            forall|j: int|
                old(tasks)@.len() <= j < final(tasks)@.len() ==> (#[trigger] final(tasks)@[j] matches Work::Quote(
                    w,
                    t,
                    _,
                ) ==> t == ty && exists|k: int| 0 <= k < bs@.len() && (#[trigger] bs@[k]).1 == w),
    {
        let mut first = true;
        let mut k: usize = 0;
        while k < bs.len()
            invariant
                self.inv(),
                self.fuel == old(self).fuel,
                arenas_grow(*old(self), *self),
                self.calls_left() == old(self).calls_left(),
                k <= bs@.len(),
                extends(old(tasks)@, tasks@),
                k == 0 ==> tasks@ == old(tasks)@,
                forall|j: int|
                    old(tasks)@.len() <= j < tasks@.len() ==> (#[trigger] tasks@[j] matches Work::Quote(w, t, _) ==> t
                        == ty && exists|m: int| 0 <= m < bs@.len() && (#[trigger] bs@[m]).1 == w),
            decreases bs@.len() - k,
        {
            let (f, v) = bs[k];
            k += 1;
            let under = self.face_and(face, f)?;
            if self.inconsistent(under)? {
                continue;
            }
            if !first {
                tasks.push(text(" "));
            }
            first = false;
            tasks.push(text("("));
            tasks.push(Work::Face(f));
            tasks.push(text(" "));
            tasks.push(Work::Quote(v, ty, under));
            tasks.push(text(")"));
        }
        Ok(())
    }

    /// The tasks that print `v` at type `ty` under `face`.
    fn quote_work(&mut self, v: ValId, ty: Option<ValId>, face: FaceId, n: &mut Names) -> (r: Result<Vec<Work>>)
        requires
            old(self).inv(),
        ensures
            final(self).inv(),
            final(self).fuel == old(self).fuel,
            arenas_grow(*old(self), *final(self)),
            final(self).calls_left() <= old(self).calls_left(),
            final(n).terms@ == old(n).terms@,
            typed_result(
                old(self).values@,
                final(self).values@,
                v,
                ty,
                r,
                old(n).terms@.len(),
                old(n).dims@.len(),
                face,
            ),
            r is Ok ==> v.0 < old(self).values@.len() ==> is_canonical(
                old(self).values@[v.0 as int],
            ) ==> untyped_form(old(self).values@, ty) ==> neutral_tasks(
                old(self).values@[v.0 as int],
                face,
                old(n).terms@,
                r,
            ),
            old(self).budget_for(8, 4) && v.0 < old(self).values@.len() && printed_constant(old(self).values@[v.0 as int])
                is Some && untyped_form(old(self).values@, ty) ==> r is Ok && cheap(*old(self), *final(self), 8, 4),
            r matches Ok(ts) ==> (v.0 < old(self).values@.len() && printed_constant(old(self).values@[v.0 as int]) is Some
                && atom_slot(*old(self), ty)) ==> prints(ts@, printed_constant(old(self).values@[v.0 as int])->Some_0),
    {
        let term_name = numbered("x", n.terms.len());
        let dim_name = numbered("i", n.dims.len());
        if let Some(ty) = ty {
            let ty = self.force(ty, face)?;
            match self.get(ty)? {
                Val::Pi(a, b) => {
                    let level = self.fresh_term()?;
                    let x = self.make(Val::Var(level, Some(a)));
                    let body = self.app(v, x);
                    let cod = self.inst(&b, x)?;
                    return Ok(vec![
                        Work::Text(concat3("(lam ", term_name.as_str(), " ")),
                        Work::Term(level),
                        Work::Quote(body, Some(cod), face),
                        Work::EndTerm,
                        text(")"),
                    ]);
                },
                Val::Sigma(a, b) => {
                    let x = self.fst(v);
                    let y = self.snd(v);
                    let cod = self.inst(&b, x)?;
                    return Ok(vec![
                        text("(pair "),
                        Work::Quote(x, Some(a), face),
                        text(" "),
                        Work::Quote(y, Some(cod), face),
                        text(")"),
                    ]);
                },
                Val::Path(b, _, _) => {
                    let i = self.quote_dimension(n)?;
                    let body = self.at(v, Dim::Var(i));
                    let cod = self.inst_dim(&b, Dim::Var(i))?;
                    return Ok(vec![
                        Work::Text(concat3("(path ", dim_name.as_str(), " ")),
                        Work::Dim(i),
                        Work::Quote(body, Some(cod), face),
                        Work::EndDim,
                        text(")"),
                    ]);
                },
                Val::Glue(base, bs) => {
                    let unglued = self.make(Val::Unglue(ty, v));
                    let mut tasks = vec![
                        text("(glue "),
                        Work::Quote(ty, None, face),
                        text(" "),
                        Work::Quote(unglued, Some(base), face),
                        text(" ("),
                    ];
                    let mut first = true;
                    let mut k: usize = 0;
                    while k < bs.len()
                        invariant
                            self.inv(),
                            self.fuel == old(self).fuel,
                            arenas_grow(*old(self), *self),
                            self.calls_left() <= old(self).calls_left(),
                            k <= bs@.len(),
                        decreases bs@.len() - k,
                    {
                        let (f, a, _) = bs[k];
                        k += 1;
                        let under = self.face_and(face, f)?;
                        if self.inconsistent(under)? {
                            continue;
                        }
                        if !first {
                            tasks.push(text(" "));
                        }
                        first = false;
                        tasks.push(text("("));
                        tasks.push(Work::Face(f));
                        tasks.push(text(" "));
                        tasks.push(Work::Quote(v, Some(a), under));
                        tasks.push(text(")"));
                    }
                    tasks.push(text("))"));
                    return Ok(tasks);
                },
                _ => {},
            }
        }
        let v = self.force(v, face)?;
        self.quote_neutral(v, face, n, term_name, dim_name)
    }

    /// The tasks that print a head normal form `v` without using its type.
    fn quote_neutral(&mut self, v: ValId, face: FaceId, n: &mut Names, term_name: String, dim_name: String) -> (r: Result<
        Vec<Work>,
    >)
        requires
            old(self).inv(),
        ensures
            final(self).inv(),
            final(self).fuel == old(self).fuel,
            arenas_grow(*old(self), *final(self)),
            final(self).calls_left() <= old(self).calls_left(),
            final(n).terms@ == old(n).terms@,
            r is Ok ==> v.0 < old(self).values@.len(),
            v.0 < old(self).values@.len() ==> neutral_tasks(old(self).values@[v.0 as int], face, old(n).terms@, r),
            v.0 < old(self).values@.len() ==> eliminator_tasks(old(self).values@[v.0 as int], face, r),
            v.0 < old(self).values@.len() ==> former_tasks(old(self).values@[v.0 as int], face, term_name@, dim_name@, r),
            v.0 < old(self).values@.len() && printed_constant(old(self).values@[v.0 as int]) is Some ==> r is Ok && cheap(
                *old(self),
                *final(self),
                0,
                0,
            ),
    {
        let tasks = match self.get(v)? {
            Val::Var(x, _) => match position(&n.terms, x) {
                Some(k) => {
                    proof {
                        lemma_first_index(n.terms@, x, k as int);
                    }
                    vec![Work::Text(numbered("x", k))]
                },
                None => {
                    return Err(internal("internal error: escaped term variable"));
                },
            },
            Val::U(l) => {
                let mut s = "(U ".to_owned();
                push_decimal(&mut s, l as u128);
                s.append(")");
                vec![Work::Text(s)]
            },
            Val::Bool => vec![text("Bool")],
            Val::Nat => vec![text("Nat")],
            Val::True => vec![text("true")],
            Val::False => vec![text("false")],
            Val::Zero => vec![text("zero")],
            Val::Pi(a, b) | Val::Sigma(a, b) => {
                let op = if let Val::Pi(_, _) = self.get(v)? {
                    "(Pi "
                } else {
                    "(Sigma "
                };
                let level = self.fresh_term()?;
                let x = self.make(Val::Var(level, Some(a)));
                let body = self.inst(&b, x)?;
                vec![
                    Work::Text(concat3(op, term_name.as_str(), " ")),
                    Work::Quote(a, None, face),
                    text(" "),
                    Work::Term(level),
                    Work::Quote(body, None, face),
                    Work::EndTerm,
                    text(")"),
                ]
            },
            Val::Path(b, l, r) => {
                let i = self.quote_dimension(n)?;
                let body = self.inst_dim(&b, Dim::Var(i))?;
                let lt = self.inst_dim(&b, Dim::Zero)?;
                let rt = self.inst_dim(&b, Dim::One)?;
                vec![
                    Work::Text(concat3("(Path ", dim_name.as_str(), " ")),
                    Work::Dim(i),
                    Work::Quote(body, None, face),
                    Work::EndDim,
                    text(" "),
                    Work::Quote(l, Some(lt), face),
                    text(" "),
                    Work::Quote(r, Some(rt), face),
                    text(")"),
                ]
            },
            Val::Suc(k) => {
                let nat_ty = self.make(Val::Nat);
                vec![text("(suc "), Work::Quote(k, Some(nat_ty), face), text(")")]
            },
            Val::App(f, a) => {
                let ft = self.neutral_type(f, face)?;
                let ft = self.force(ft, face)?;
                let at = if let Val::Pi(a, _) = self.get(ft)? {
                    Some(a)
                } else {
                    None
                };
                vec![text("(app "), Work::Quote(f, None, face), text(" "), Work::Quote(a, at, face), text(")")]
            },
            Val::Fst(p) => vec![text("(fst "), Work::Quote(p, None, face), text(")")],
            Val::Snd(p) => vec![text("(snd "), Work::Quote(p, None, face), text(")")],
            Val::PApp(p, d) => {
                let d = n.dim(d)?;
                vec![text("(at "), Work::Quote(p, None, face), Work::Text(concat3(" ", d.as_str(), ")"))]
            },
            Val::If(p, a, b, c) => {
                let bt = self.make(Val::Bool);
                let level = self.fresh_term()?;
                let x = self.make(Val::Var(level, Some(bt)));
                let px = self.app(p, x);
                let tv = self.make(Val::True);
                let fv = self.make(Val::False);
                let at = self.app(p, tv);
                let bty = self.app(p, fv);
                vec![
                    Work::Text(concat3("(bool-elim (lam ", term_name.as_str(), " ")),
                    Work::Term(level),
                    Work::Quote(px, None, face),
                    Work::EndTerm,
                    text(") "),
                    Work::Quote(a, Some(at), face),
                    text(" "),
                    Work::Quote(b, Some(bty), face),
                    text(" "),
                    Work::Quote(c, Some(bt), face),
                    text(")"),
                ]
            },
            Val::NatElim(p, z, s, k) => {
                let nat_ty = self.make(Val::Nat);
                let level = self.fresh_term()?;
                let x = self.make(Val::Var(level, Some(nat_ty)));
                let px = self.app(p, x);
                let ihlevel = self.fresh_term()?;
                let ih = self.make(Val::Var(ihlevel, Some(px)));
                let ihname = numbered("x", n.terms.len().saturating_add(1));
                let step = self.app(s, x);
                let step = self.app(step, ih);
                let suc = self.make(Val::Suc(x));
                let sty = self.app(p, suc);
                let zero = self.make(Val::Zero);
                let zty = self.app(p, zero);
                let mut lam2 = concat3(" (lam ", term_name.as_str(), " (lam ");
                lam2.append(ihname.as_str());
                lam2.append(" ");
                vec![
                    Work::Text(concat3("(nat-elim (lam ", term_name.as_str(), " ")),
                    Work::Term(level),
                    Work::Quote(px, None, face),
                    Work::EndTerm,
                    text(") "),
                    Work::Quote(z, Some(zty), face),
                    Work::Text(lam2),
                    Work::Term(level),
                    Work::Term(ihlevel),
                    Work::Quote(step, Some(sty), face),
                    Work::EndTerm,
                    Work::EndTerm,
                    text(")) "),
                    Work::Quote(k, Some(nat_ty), face),
                    text(")"),
                ]
            },
            Val::Com(c) => {
                let from = n.dim(c.from)?;
                let to = n.dim(c.to)?;
                let src = self.restrict(c.family, c.dim, c.from)?;
                // The composition dimension scopes family and tubes, not cap.
                let mut between = concat3(" ", from.as_str(), " ");
                between.append(to.as_str());
                between.append(" ");
                let mut tasks = vec![
                    Work::Text(concat3("(com ", dim_name.as_str(), " ")),
                    Work::Dim(c.dim),
                    Work::Quote(c.family, None, face),
                    Work::EndDim,
                    Work::Text(between),
                    Work::Quote(c.cap, Some(src), face),
                    text(" ("),
                    Work::Dim(c.dim),
                ];
                self.branch_tasks(&mut tasks, &c.tubes, Some(c.family), face)?;
                tasks.push(Work::EndDim);
                tasks.push(text("))"));
                tasks
            },
            Val::System(a, bs) => {
                let mut tasks = vec![text("(system "), Work::Quote(a, None, face), text(" (")];
                self.branch_tasks(&mut tasks, &bs, Some(a), face)?;
                tasks.push(text("))"));
                tasks
            },
            Val::Glue(base, bs) => {
                let mut tasks = vec![text("(Glue "), Work::Quote(base, None, face), text(" (")];
                let mut first = true;
                let mut k: usize = 0;
                while k < bs.len()
                    invariant
                        self.inv(),
                        self.fuel == old(self).fuel,
                        arenas_grow(*old(self), *self),
                        self.calls_left() <= old(self).calls_left(),
                        k <= bs@.len(),
                    decreases bs@.len() - k,
                {
                    let (f, a, e) = bs[k];
                    k += 1;
                    let under = self.face_and(face, f)?;
                    if self.inconsistent(under)? {
                        continue;
                    }
                    if !first {
                        tasks.push(text(" "));
                    }
                    first = false;
                    let eqty = self.equiv_type(a, base)?;
                    tasks.push(text("("));
                    tasks.push(Work::Face(f));
                    tasks.push(text(" "));
                    tasks.push(Work::Quote(a, None, under));
                    tasks.push(text(" "));
                    tasks.push(Work::Quote(e, Some(eqty), under));
                    tasks.push(text(")"));
                }
                tasks.push(text("))"));
                tasks
            },
            Val::Unglue(g, w) => vec![text("(unglue "), Work::Quote(g, None, face), text(" "), Work::Quote(w, None, face), text(")")],
            Val::GlueIntro(_, _) | Val::Lam(_) | Val::PLam(_) | Val::Pair(_, _) => {
                return Err(internal("internal error: quotation needs an introduction form's type"));
            },
            Val::Susp(_, _) | Val::Sub(_, _) => {
                return Err(internal("internal error: quotation of an unforced value"));
            },
        };
        Ok(tasks)
    }
}

} // verus!
