#![verifier::loop_isolation(false)]
//! Lazy semantic evaluation. Every cache key includes the face context.
//!
//! Semantic identifiers index the engine's arenas. Every access checks its
//! index and reports a malformed identifier as an internal error, and every
//! recursive step spends one unit of an internal call allowance, so that each
//! operation terminates with a value or an error.
use vstd::prelude::*;
use crate::hash::IdMap;
use crate::arena::Arena;
use crate::capture::{Slots, free_dim, free_term, slots};
use crate::face::{Dim, Face, FaceId, Faces};
use crate::syntax::{D, F, Node, Program, Term, TermId};
use crate::{Error, Result, Statistics};

verus! {

#[derive(Clone, Copy, Debug, PartialEq, Eq, Hash, Structural)]
pub struct ValId(pub usize);

#[derive(Clone, Copy, Debug, PartialEq, Eq, Hash, Structural)]
pub struct EnvId(pub usize);

#[derive(Clone, Copy, Debug, PartialEq, Eq, Hash, Structural)]
pub struct SubId(pub usize);

/// A closure environment: values for term slots and dimensions for interval slots.
#[derive(Clone, Debug, PartialEq, Eq, Hash)]
pub struct Env {
    pub terms: Vec<ValId>,
    pub dims: Vec<Dim>,
}

/// A copy of a vector of `Copy` items.
pub fn copy_vec<T: Copy>(v: &Vec<T>) -> (r: Vec<T>)
    ensures
        r@ == v@,
{
    let mut r: Vec<T> = Vec::new();
    let mut k: usize = 0;
    while k < v.len()
        invariant
            k <= v@.len(),
            r@ == v@.take(k as int),
        decreases v@.len() - k,
    {
        r.push(v[k]);
        k += 1;
        assert(r@ =~= v@.take(k as int));
    }
    assert(v@.take(v@.len() as int) =~= v@);
    r
}

/// Whether two vectors of values hold the same identifiers.
fn same_values(a: &Vec<ValId>, b: &Vec<ValId>) -> (r: bool)
    ensures
        r == (a@ == b@),
{
    if a.len() != b.len() {
        return false;
    }
    let mut k: usize = 0;
    while k < a.len()
        invariant
            a@.len() == b@.len(),
            k <= a@.len(),
            forall|j: int| 0 <= j < k ==> a@[j] == b@[j],
        decreases a@.len() - k,
    {
        if a[k] != b[k] {
            return false;
        }
        k += 1;
    }
    assert(a@ =~= b@);
    true
}

/// Whether two vectors of dimensions hold the same dimensions.
fn same_dims(a: &Vec<Dim>, b: &Vec<Dim>) -> (r: bool)
    ensures
        r == (a@ == b@),
{
    if a.len() != b.len() {
        return false;
    }
    let mut k: usize = 0;
    while k < a.len()
        invariant
            a@.len() == b@.len(),
            k <= a@.len(),
            forall|j: int| 0 <= j < k ==> a@[j] == b@[j],
        decreases a@.len() - k,
    {
        if a[k] != b[k] {
            return false;
        }
        k += 1;
    }
    assert(a@ =~= b@);
    true
}

impl Env {
    pub fn empty() -> (r: Env)
        ensures
            r.terms@.len() == 0,
            r.dims@.len() == 0,
    {
        Env { terms: Vec::new(), dims: Vec::new() }
    }

    /// A copy of this environment.
    pub fn duplicate(&self) -> (r: Env)
        ensures
            r.terms@ == self.terms@,
            r.dims@ == self.dims@,
    {
        Env { terms: copy_vec(&self.terms), dims: copy_vec(&self.dims) }
    }

    /// Whether two environments hold the same values and dimensions.
    pub fn same(&self, other: &Env) -> (r: bool)
        ensures
            r == (self.terms@ == other.terms@ && self.dims@ == other.dims@),
    {
        same_values(&self.terms, &other.terms) && same_dims(&self.dims, &other.dims)
    }
}

/// Environment `e` of `envs` holds exactly the values and dimensions of `x`.
pub open spec fn env_is(envs: Seq<Env>, e: EnvId, x: Env) -> bool {
    e.0 < envs.len() && envs[e.0 as int].terms@ == x.terms@ && envs[e.0 as int].dims@ == x.dims@
}

/// The dimension that syntax `d` denotes in environment `e`, if it is bound there.
pub open spec fn dim_in(envs: Seq<Env>, d: D, e: EnvId) -> Option<Dim> {
    match d {
        D::Zero => Some(Dim::Zero),
        D::One => Some(Dim::One),
        D::Bound(i) => if e.0 < envs.len() && i < envs[e.0 as int].dims@.len() {
            Some(envs[e.0 as int].dims@[envs[e.0 as int].dims@.len() - 1 - i])
        } else {
            None
        },
    }
}

/// Whether two lists of term images are the same.
fn same_term_images(a: &Vec<(u32, ValId)>, b: &Vec<(u32, ValId)>) -> (r: bool)
    ensures
        r == (a@ == b@),
{
    if a.len() != b.len() {
        return false;
    }
    let mut k: usize = 0;
    while k < a.len()
        invariant
            a@.len() == b@.len(),
            k <= a@.len(),
            forall|j: int| 0 <= j < k ==> a@[j] == b@[j],
        decreases a@.len() - k,
    {
        if a[k].0 != b[k].0 || a[k].1 != b[k].1 {
            return false;
        }
        k += 1;
    }
    assert(a@ =~= b@);
    true
}

/// Whether two lists of dimension images are the same.
fn same_dim_images(a: &Vec<(u32, Dim)>, b: &Vec<(u32, Dim)>) -> (r: bool)
    ensures
        r == (a@ == b@),
{
    if a.len() != b.len() {
        return false;
    }
    let mut k: usize = 0;
    while k < a.len()
        invariant
            a@.len() == b@.len(),
            k <= a@.len(),
            forall|j: int| 0 <= j < k ==> a@[j] == b@[j],
        decreases a@.len() - k,
    {
        if a[k].0 != b[k].0 || a[k].1 != b[k].1 {
            return false;
        }
        k += 1;
    }
    assert(a@ =~= b@);
    true
}

impl Sub {
    /// A copy of this substitution.
    pub fn duplicate(&self) -> (r: Sub)
        ensures
            sub_eq(r, *self),
    {
        Sub { terms: copy_vec(&self.terms), dims: copy_vec(&self.dims), compose: self.compose }
    }

    /// Whether two substitutions have the same images and composition.
    pub fn same(&self, other: &Sub) -> (r: bool)
        ensures
            r == sub_eq(*self, *other),
    {
        let compose_same = match (self.compose, other.compose) {
            (None, None) => true,
            (Some((a, b)), Some((c, d))) => a == c && b == d,
            _ => false,
        };
        compose_same && same_term_images(&self.terms, &other.terms) && same_dim_images(&self.dims, &other.dims)
    }
}

/// Two substitutions with the same images and composition.
pub open spec fn sub_eq(a: Sub, b: Sub) -> bool {
    a.terms@ == b.terms@ && a.dims@ == b.dims@ && a.compose == b.compose
}

/// The image of `d` under the first entry of `ds` that names its variable; `d` itself when none does.
pub open spec fn first_image(ds: Seq<(u32, Dim)>, d: Dim) -> Dim
    decreases ds.len(),
{
    if ds.len() == 0 {
        d
    } else if d == Dim::Var(ds[0].0) {
        ds[0].1
    } else {
        first_image(ds.drop_first(), d)
    }
}

/// The image of dimension `d` under substitution `s`: a composition applies its
/// first substitution, then its second. `None` when `s`, or one that it composes,
/// is not stored before it.
pub open spec fn sub_dim_of(subs: Seq<Sub>, s: SubId, d: Dim) -> Option<Dim>
    decreases s.0,
{
    if s.0 >= subs.len() {
        None
    } else {
        match subs[s.0 as int].compose {
            Some((a, b)) => if a.0 >= s.0 || b.0 >= s.0 {
                None
            } else {
                match sub_dim_of(subs, a, d) {
                    Some(x) => sub_dim_of(subs, b, x),
                    None => None,
                }
            },
            None => Some(first_image(subs[s.0 as int].dims@, d)),
        }
    }
}

/// The image of term variable `x` under the first entry of `ts` that names it, if any.
pub open spec fn first_term_image(ts: Seq<(u32, ValId)>, x: u32) -> Option<ValId>
    decreases ts.len(),
{
    if ts.len() == 0 {
        None
    } else if ts[0].0 == x {
        Some(ts[0].1)
    } else {
        first_term_image(ts.drop_first(), x)
    }
}

/// A substitution's image of a dimension is unchanged as the store grows.
proof fn lemma_sub_dim_stable(a: Seq<Sub>, b: Seq<Sub>, s: SubId, d: Dim)
    requires
        crate::face::extends(a, b),
        sub_dim_of(a, s, d) is Some,
    ensures
        sub_dim_of(b, s, d) == sub_dim_of(a, s, d),
    decreases s.0,
{
    assert(b[s.0 as int] == a[s.0 as int]);
    match a[s.0 as int].compose {
        Some((x, y)) => {
            lemma_sub_dim_stable(a, b, x, d);
            let m = sub_dim_of(a, x, d)->0;
            lemma_sub_dim_stable(a, b, y, m);
        },
        None => {},
    }
}

/// `w` is what pushing substitution `s` one level into `v` gives: every value
/// former is kept, with its interval images taken under `s`; a variable becomes
/// its image, or stays itself when a plain substitution does not map it; a
/// constant is unchanged.
pub open spec fn pushes_to<'a>(before: Engine<'a>, after: Engine<'a>, v: ValId, s: SubId, w: ValId) -> bool {
    let later = after.values@;
    v.0 < before.values@.len() && match before.values@[v.0 as int] {
        Val::Sub(_, _) | Val::Susp(_, _) => true,
        Val::Var(x, _) => s.0 < before.subs@.len() && match before.subs@[s.0 as int].compose {
            None => match first_term_image(before.subs@[s.0 as int].terms@, x) {
                Some(image) => w == image,
                None => w.0 < later.len() && (later[w.0 as int] matches Val::Var(y, _) && y == x),
            },
            Some(_) => true,
        },
        Val::U(_) | Val::Bool | Val::Nat | Val::True | Val::False | Val::Zero => w == v,
        old_value => w.0 < later.len() && match old_value {
            Val::Pi(_, _) => later[w.0 as int] is Pi,
            Val::Sigma(_, _) => later[w.0 as int] is Sigma,
            Val::Lam(_) => later[w.0 as int] is Lam,
            Val::PLam(_) => later[w.0 as int] is PLam,
            Val::Path(_, _, _) => later[w.0 as int] is Path,
            Val::App(_, _) => later[w.0 as int] is App,
            Val::Pair(_, _) => later[w.0 as int] is Pair,
            Val::Fst(_) => later[w.0 as int] is Fst,
            Val::Snd(_) => later[w.0 as int] is Snd,
            Val::Suc(_) => later[w.0 as int] is Suc,
            Val::If(_, _, _, _) => later[w.0 as int] is If,
            Val::NatElim(_, _, _, _) => later[w.0 as int] is NatElim,
            Val::PApp(_, d) => later[w.0 as int] matches Val::PApp(_, e) && sub_dim_of(after.subs@, s, d) == Some(e),
            Val::System(_, _) => later[w.0 as int] is System,
            Val::Glue(_, _) => later[w.0 as int] is Glue,
            Val::GlueIntro(_, _) => later[w.0 as int] is GlueIntro,
            Val::Unglue(_, _) => later[w.0 as int] is Unglue,
            Val::Com(c) => later[w.0 as int] matches Val::Com(c2) && sub_dim_of(after.subs@, s, c.from) == Some(c2.from)
                && sub_dim_of(after.subs@, s, c.to) == Some(c2.to),
            _ => true,
        },
    }
}

/// The assignment that gives each variable the value, under `rho`, of its image under `s`.
pub open spec fn sub_assignment(subs: Seq<Sub>, s: SubId, rho: spec_fn(u32) -> int) -> spec_fn(u32) -> int {
    |v: u32| crate::face::dim_val(sub_dim_of(subs, s, Dim::Var(v))->0, rho)
}

/// Endpoints are fixed by every table of variable images.
proof fn lemma_first_image_fixed(ds: Seq<(u32, Dim)>, d: Dim)
    requires
        !(d is Var),
    ensures
        first_image(ds, d) == d,
    decreases ds.len(),
{
    if ds.len() > 0 {
        lemma_first_image_fixed(ds.drop_first(), d);
    }
}

/// Endpoints are fixed by every substitution.
proof fn lemma_sub_fixed(subs: Seq<Sub>, s: SubId, d: Dim)
    requires
        !(d is Var),
        sub_dim_of(subs, s, d) is Some,
    ensures
        sub_dim_of(subs, s, d) == Some(d),
    decreases s.0,
{
    match subs[s.0 as int].compose {
        Some((a, b)) => {
            lemma_sub_fixed(subs, a, d);
            lemma_sub_fixed(subs, b, d);
        },
        None => lemma_first_image_fixed(subs[s.0 as int].dims@, d),
    }
}

/// Restricting variable `x` to `d` is substituting the one-entry substitution
/// `[x := d]`: its assignment is `rho` with `x` set to the value of `d`.
pub proof fn lemma_restriction_is_substitution(subs: Seq<Sub>, s: SubId, x: u32, d: Dim, rho: spec_fn(u32) -> int)
    requires
        s.0 < subs.len(),
        subs[s.0 as int].compose is None,
        subs[s.0 as int].dims@ == seq![(x, d)],
    ensures
        forall|v: u32|
            #[trigger] sub_assignment(subs, s, rho)(v) == crate::face::update(rho, x, crate::face::dim_val(d, rho))(v),
{
    assert forall|v: u32|
        #[trigger] sub_assignment(subs, s, rho)(v) == crate::face::update(rho, x, crate::face::dim_val(d, rho))(v) by {
        let ds = subs[s.0 as int].dims@;
        assert(ds.drop_first().len() == 0);
        assert(first_image(ds.drop_first(), Dim::Var(v)) == Dim::Var(v));
    }
}

/// Substituting with a composition is substituting with its second
/// substitution's assignment and then its first: the assignment of
/// `compose(a, b)` under `rho` is that of `a` under the assignment of `b`.
pub proof fn lemma_composition_composes(subs: Seq<Sub>, c: SubId, a: SubId, b: SubId, rho: spec_fn(u32) -> int)
    requires
        c.0 < subs.len(),
        subs[c.0 as int].compose == Some((a, b)),
        forall|v: u32| #[trigger] sub_dim_of(subs, c, Dim::Var(v)) is Some,
    ensures
        forall|v: u32|
            #[trigger] sub_assignment(subs, c, rho)(v) == sub_assignment(subs, a, sub_assignment(subs, b, rho))(v),
{
    assert forall|v: u32|
        #[trigger] sub_assignment(subs, c, rho)(v) == sub_assignment(subs, a, sub_assignment(subs, b, rho))(v) by {
        assert(sub_dim_of(subs, c, Dim::Var(v)) is Some);
        let m = sub_dim_of(subs, a, Dim::Var(v))->0;
        if !(m is Var) {
            lemma_sub_fixed(subs, b, m);
        }
    }
}

/// A table whose every entry maps a dimension to `img` of it looks up `img(d)` for each `d` it lists.
proof fn lemma_lookup_graph(t: Seq<(Dim, Dim)>, d: Dim, img: spec_fn(Dim) -> Dim)
    requires
        forall|k: int| 0 <= k < t.len() ==> (#[trigger] t[k]).1 == img(t[k].0),
        exists|k: int| 0 <= k < t.len() && (#[trigger] t[k]).0 == d,
    ensures
        crate::face::lookup_dim(t, d) == img(d),
    decreases t.len(),
{
    if t[0].0 != d {
        let k = choose|k: int| 0 <= k < t.len() && (#[trigger] t[k]).0 == d;
        assert(t.drop_first()[k - 1] == t[k]);
        assert forall|j: int| 0 <= j < t.drop_first().len() implies (#[trigger] t.drop_first()[j]).1 == img(
            t.drop_first()[j].0,
        ) by {
            assert(t.drop_first()[j] == t[j + 1]);
        }
        lemma_lookup_graph(t.drop_first(), d, img);
    }
}

/// `v` has the semantic form that evaluating syntax `t` in environment `e` gives:
/// a variable its value in `e`, a literal its value, and every other form except
/// annotations and globals the matching value former (`PApp` at the dimension
/// that its interval denotes in `e`).
/// Value `x` of engine `en` stands for term `t` in environment `env` as a thunk
/// makes it: in the reference mode (`optimized` false) the suspension of `t` in
/// `env`; when optimized, a variable's value, a literal's value, or a
/// suspension of `t`.
pub open spec fn denotes<'a>(en: Engine<'a>, nodes: Seq<Node>, optimized: bool, x: ValId, t: TermId, env: EnvId) -> bool {
    &&& t.0 < nodes.len()
    &&& if !optimized {
        x.0 < en.values@.len() && en.values@[x.0 as int] == Val::Susp(t, env)
    } else {
        match nodes[t.0 as int].term {
            Term::Var(i) => env.0 < en.envs@.len() && i < en.envs@[env.0 as int].terms@.len() && x
                == en.envs@[env.0 as int].terms@[en.envs@[env.0 as int].terms@.len() - 1 - i],
            term => x.0 < en.values@.len() && match literal(term) {
                Some(l) => en.values@[x.0 as int] == l,
                None => en.values@[x.0 as int] matches Val::Susp(u, _) && u == t,
            },
        }
    }
}

/// What a value stands for stays as the arenas grow.
pub proof fn lemma_denotes_stable<'a>(a: Engine<'a>, b: Engine<'a>, nodes: Seq<Node>, o: bool, x: ValId, t: TermId, env: EnvId)
    requires
        arenas_grow(a, b),
        denotes(a, nodes, o, x, t, env),
    ensures
        denotes(b, nodes, o, x, t, env),
{
    if !o || !(nodes[t.0 as int].term is Var) {
        assert(b.values@[x.0 as int] == a.values@[x.0 as int]);
    } else {
        assert(b.envs@[env.0 as int] == a.envs@[env.0 as int]);
    }
}

/// Value `val` of engine `after` is what term `t` evaluates to in environment
/// `e`: the constructor of `t`, each of whose immediate subterms evaluated lazily
/// stands for the subterm at its place.
pub open spec fn val_for<'a>(after: Engine<'a>, n: Seq<Node>, o: bool, t: Term, e: EnvId, val: Val) -> bool {
    match t {
        Term::U(n) => val == Val::U(n),
        Term::Bool => val == Val::Bool,
        Term::True => val == Val::True,
        Term::False => val == Val::False,
        Term::Nat => val == Val::Nat,
        Term::Zero => val == Val::Zero,
        Term::Pi(a, _) => val matches Val::Pi(x, _) && denotes(after, n, o, x, a, e),
        Term::Sigma(a, _) => val matches Val::Sigma(x, _) && denotes(after, n, o, x, a, e),
        Term::Lam(_) => val is Lam,
        Term::PLam(_) => val is PLam,
        Term::App(a, b) => val matches Val::App(x, y) && denotes(after, n, o, x, a, e) && denotes(
            after,
            n,
            o,
            y,
            b,
            e,
        ),
        Term::Pair(a, b) => val matches Val::Pair(x, y) && denotes(after, n, o, x, a, e)
            && denotes(after, n, o, y, b, e),
        Term::Fst(a) => val matches Val::Fst(x) && denotes(after, n, o, x, a, e),
        Term::Snd(a) => val matches Val::Snd(x) && denotes(after, n, o, x, a, e),
        Term::Suc(a) => val matches Val::Suc(x) && denotes(after, n, o, x, a, e),
        Term::If(p, a, b, c) => val matches Val::If(w, x, y, z) && denotes(after, n, o, w, p, e)
            && denotes(after, n, o, x, a, e) && denotes(after, n, o, y, b, e) && denotes(after, n, o, z, c, e),
        Term::NatElim(p, a, b, c) => val matches Val::NatElim(w, x, y, z) && denotes(
            after,
            n,
            o,
            w,
            p,
            e,
        ) && denotes(after, n, o, x, a, e) && denotes(after, n, o, y, b, e) && denotes(after, n, o, z, c, e),
        Term::Path(_, l, r) => val matches Val::Path(_, x, y) && denotes(after, n, o, x, l, e)
            && denotes(after, n, o, y, r, e),
        Term::PApp(a, d) => val matches Val::PApp(x, y) && dim_in(after.envs@, d, e) == Some(y)
            && denotes(after, n, o, x, a, e),
        Term::Com { cap, .. } => val matches Val::Com(c) && denotes(after, n, o, c.cap, cap, e),
        Term::System(a, _) => val matches Val::System(x, _) && denotes(after, n, o, x, a, e),
        Term::Glue(a, _) => val matches Val::Glue(x, _) && denotes(after, n, o, x, a, e),
        Term::GlueIntro(_, a, _) => val matches Val::GlueIntro(x, _) && denotes(
            after,
            n,
            o,
            x,
            a,
            e,
        ),
        Term::Unglue(g, w) => val matches Val::Unglue(x, y) && denotes(after, n, o, x, g, e)
            && denotes(after, n, o, y, w, e),
        _ => true,
    }
}

pub open spec fn evaluates_to<'a>(before: Engine<'a>, after: Engine<'a>, t: Term, e: EnvId, v: ValId) -> bool {
    let envs = before.envs@;
    let o = before.optimized;
    let n = before.program.terms@;
    match t {
        Term::Var(i) => e.0 < envs.len() && i < envs[e.0 as int].terms@.len() && v
            == envs[e.0 as int].terms@[envs[e.0 as int].terms@.len() - 1 - i],
        Term::Global(_) => true,
        Term::Ann(a, _) => denotes(after, n, o, v, a, e),
        _ => v.0 < after.values@.len() && val_for(after, n, o, t, e, after.values@[v.0 as int]),
    }
}

/// What a value stands for stays as the arenas grow.
proof fn lemma_val_for_stable<'a>(a: Engine<'a>, b: Engine<'a>, n: Seq<Node>, o: bool, t: Term, e: EnvId, val: Val, w: Val)
    requires
        arenas_grow(a, b),
        val_for(a, n, o, t, e, val),
        same_shape(w, val),
    ensures
        val_for(b, n, o, t, e, w),
{
    match (t, val) {
        (Term::Pi(x, _), Val::Pi(y, _)) => lemma_denotes_stable(a, b, n, o, y, x, e),
        (Term::Sigma(x, _), Val::Sigma(y, _)) => lemma_denotes_stable(a, b, n, o, y, x, e),
        (Term::App(x1, x2), Val::App(y1, y2)) | (Term::Pair(x1, x2), Val::Pair(y1, y2)) | (Term::Unglue(x1, x2), Val::Unglue(y1, y2)) => {
            lemma_denotes_stable(a, b, n, o, y1, x1, e);
            lemma_denotes_stable(a, b, n, o, y2, x2, e);
        },
        (Term::Fst(x), Val::Fst(y)) | (Term::Snd(x), Val::Snd(y)) | (Term::Suc(x), Val::Suc(y)) => lemma_denotes_stable(a, b, n, o, y, x, e),
        (Term::If(x1, x2, x3, x4), Val::If(y1, y2, y3, y4)) | (Term::NatElim(x1, x2, x3, x4), Val::NatElim(y1, y2, y3, y4)) => {
            lemma_denotes_stable(a, b, n, o, y1, x1, e);
            lemma_denotes_stable(a, b, n, o, y2, x2, e);
            lemma_denotes_stable(a, b, n, o, y3, x3, e);
            lemma_denotes_stable(a, b, n, o, y4, x4, e);
        },
        (Term::Path(_, x1, x2), Val::Path(_, y1, y2)) => {
            lemma_denotes_stable(a, b, n, o, y1, x1, e);
            lemma_denotes_stable(a, b, n, o, y2, x2, e);
        },
        (Term::PApp(x, d), Val::PApp(y, _)) => {
            lemma_denotes_stable(a, b, n, o, y, x, e);
            if let D::Bound(i) = d {
                if e.0 < a.envs@.len() {
                    assert(b.envs@[e.0 as int] == a.envs@[e.0 as int]);
                }
            }
        },
        (Term::Com { cap, .. }, Val::Com(c)) => lemma_denotes_stable(a, b, n, o, c.cap, cap, e),
        (Term::System(x, _), Val::System(y, _)) | (Term::Glue(x, _), Val::Glue(y, _)) | (Term::GlueIntro(_, x, _), Val::GlueIntro(y, _)) => lemma_denotes_stable(a, b, n, o, y, x, e),
        _ => {},
    }
}

/// Value `w` of `values` exposes its head: it is neither a suspension nor a
/// delayed substitution, and not an ordinary beta redex (an application of a
/// lambda, a projection of a pair, or a path application of a path lambda).
pub open spec fn head_exposed(values: Seq<Val>, w: ValId) -> bool {
    w.0 < values.len() && match values[w.0 as int] {
        Val::Susp(_, _) | Val::Sub(_, _) => false,
        Val::App(f, _) => f.0 < values.len() && !(values[f.0 as int] is Lam),
        Val::Fst(p) | Val::Snd(p) => p.0 < values.len() && !(values[p.0 as int] is Pair),
        Val::PApp(p, _) => p.0 < values.len() && !(values[p.0 as int] is PLam),
        _ => true,
    }
}

/// `w` is the successor of a composition of `n` along the line of `c`, in `c`'s family.
pub open spec fn successor_of_com(vals: Seq<Val>, w: ValId, n: ValId, c: Composition) -> bool {
    &&& w.0 < vals.len()
    &&& vals[w.0 as int] matches Val::Suc(m)
    &&& m.0 < vals.len()
    &&& vals[m.0 as int] matches Val::Com(d)
    &&& d.cap == n
    &&& d.family == c.family
    &&& d.dim == c.dim
    &&& d.from == c.from
    &&& d.to == c.to
}

/// A universe, a base type or a constant.
pub open spec fn is_atom(v: Val) -> bool {
    is_constant(v) || v is Bool || v is Nat || v is U
}

/// `a` and `b` hold the same universe, base type or constant.
pub open spec fn equal_atoms(values: Seq<Val>, a: ValId, b: ValId) -> bool {
    &&& a.0 < values.len()
    &&& b.0 < values.len()
    &&& values[a.0 as int] == values[b.0 as int]
    &&& is_atom(values[a.0 as int])
}

/// `a` and `b` hold two different universes, base types or constants.
pub open spec fn distinct_atoms(values: Seq<Val>, a: ValId, b: ValId) -> bool {
    &&& a.0 < values.len()
    &&& b.0 < values.len()
    &&& is_atom(values[a.0 as int])
    &&& is_atom(values[b.0 as int])
    &&& values[a.0 as int] != values[b.0 as int]
}

/// `a` and `b` hold two dependent function types, or two dependent pair
/// types, whose domains are different universes, base types or constants.
pub open spec fn binders_apart(values: Seq<Val>, a: ValId, b: ValId) -> bool {
    &&& a.0 < values.len()
    &&& b.0 < values.len()
    &&& match (values[a.0 as int], values[b.0 as int]) {
        (Val::Pi(x, _), Val::Pi(y, _)) => distinct_atoms(values, x, y),
        (Val::Sigma(x, _), Val::Sigma(y, _)) => distinct_atoms(values, x, y),
        _ => false,
    }
}

/// A constructor of `Bool` or `Nat` without arguments.
pub open spec fn is_constant(v: Val) -> bool {
    v is True || v is False || v is Zero
}

/// A constructor of `Bool` or `Nat`.
pub open spec fn is_data(v: Val) -> bool {
    is_constant(v) || v is Suc
}

/// Whether `v` is canonical, computed.
pub(crate) fn canonical(v: &Val) -> (r: bool)
    ensures
        r == is_canonical(*v),
{
    match v {
        Val::Var(_, _) | Val::U(_) | Val::Pi(_, _) | Val::Sigma(_, _) | Val::Lam(_) | Val::Pair(_, _) | Val::Bool
        | Val::True | Val::False | Val::Nat | Val::Zero | Val::Suc(_) | Val::Path(_, _, _) | Val::PLam(_) => true,
        _ => false,
    }
}

/// Whether `v` is a suspended evaluation or a delayed substitution.
fn delayed(v: &Val) -> (r: bool)
    ensures
        r == (*v is Susp || *v is Sub),
{
    match v {
        Val::Susp(_, _) | Val::Sub(_, _) => true,
        _ => false,
    }
}

/// Whether `v` is a canonical or neutral form on which forcing takes no step.
pub open spec fn is_canonical(v: Val) -> bool {
    match v {
        Val::Var(_, _) | Val::U(_) | Val::Pi(_, _) | Val::Sigma(_, _) | Val::Lam(_) | Val::Pair(_, _) | Val::Bool
        | Val::True | Val::False | Val::Nat | Val::Zero | Val::Suc(_) | Val::Path(_, _, _) | Val::PLam(_) => true,
        _ => false,
    }
}

/// The value that a literal term evaluates to without an environment.
pub open spec fn literal(t: Term) -> Option<Val> {
    match t {
        Term::U(l) => Some(Val::U(l)),
        Term::Bool => Some(Val::Bool),
        Term::Nat => Some(Val::Nat),
        Term::True => Some(Val::True),
        Term::False => Some(Val::False),
        Term::Zero => Some(Val::Zero),
        _ => None,
    }
}

/// Every slot that evaluating term `t` reads is bound in environment `e`.
pub open spec fn slots_bound(envs: Seq<Env>, nodes: Seq<crate::syntax::Node>, t: TermId, e: EnvId) -> bool {
    &&& e.0 < envs.len()
    &&& forall|x: nat| #[trigger] free_term(nodes, t.0 as nat, x) ==> x < envs[e.0 as int].terms@.len()
    &&& forall|x: nat| #[trigger] free_dim(nodes, t.0 as nat, x) ==> x < envs[e.0 as int].dims@.len()
}

/// Environments `e` and `e2` both bind term slot `x`, to the same value.
pub open spec fn trims_term(envs: Seq<Env>, e: EnvId, e2: EnvId, x: nat) -> bool {
    let a = envs[e.0 as int].terms@;
    let b = envs[e2.0 as int].terms@;
    x < a.len() && x < b.len() && b[b.len() - 1 - x] == a[a.len() - 1 - x]
}

/// Environments `e` and `e2` both bind interval slot `x`, to the same dimension.
pub open spec fn trims_dim(envs: Seq<Env>, e: EnvId, e2: EnvId, x: nat) -> bool {
    let a = envs[e.0 as int].dims@;
    let b = envs[e2.0 as int].dims@;
    x < a.len() && x < b.len() && b[b.len() - 1 - x] == a[a.len() - 1 - x]
}

/// Environment `e2` agrees with `e` on every slot that evaluating term `t` reads,
/// so that `t` means the same in both.
pub open spec fn captures(envs: Seq<Env>, nodes: Seq<crate::syntax::Node>, t: TermId, e: EnvId, e2: EnvId) -> bool {
    &&& e.0 < envs.len()
    &&& e2.0 < envs.len()
    &&& forall|x: nat| #[trigger] free_term(nodes, t.0 as nat, x) ==> trims_term(envs, e, e2, x)
    &&& forall|x: nat| #[trigger] free_dim(nodes, t.0 as nat, x) ==> trims_dim(envs, e, e2, x)
}

/// Whether every interval variable of syntax face `f` is bound in environment `e`.
pub open spec fn face_bound(envs: Seq<Env>, f: F, e: EnvId) -> bool
    decreases f,
{
    match f {
        F::Eq(a, b) => dim_in(envs, a, e) is Some && dim_in(envs, b, e) is Some,
        F::And(a, b) => face_bound(envs, *a, e) && face_bound(envs, *b, e),
        F::Or(a, b) => face_bound(envs, *a, e) && face_bound(envs, *b, e),
        _ => true,
    }
}

/// Whether syntax face `f`, read in environment `e`, holds under the assignment `rho`.
pub open spec fn face_in(envs: Seq<Env>, f: F, e: EnvId, rho: spec_fn(u32) -> int) -> bool
    decreases f,
{
    match f {
        F::Top => true,
        F::Bot => false,
        F::Eq(a, b) => crate::face::dim_val(dim_in(envs, a, e)->0, rho) == crate::face::dim_val(
            dim_in(envs, b, e)->0,
            rho,
        ),
        F::And(a, b) => face_in(envs, *a, e, rho) && face_in(envs, *b, e, rho),
        F::Or(a, b) => face_in(envs, *a, e, rho) || face_in(envs, *b, e, rho),
    }
}

/// A delayed substitution of term and dimension variables (by level), or the
/// composition of two earlier substitutions (first, then second).
#[derive(Clone, Debug, PartialEq, Eq, Hash)]
pub struct Sub {
    pub terms: Vec<(u32, ValId)>,
    pub dims: Vec<(u32, Dim)>,
    pub compose: Option<(SubId, SubId)>,
}

#[derive(Clone, Copy, Debug, PartialEq, Eq, Hash, Structural)]
pub struct Binder {
    pub var: u32,
    pub body: ValId,
}

#[derive(Clone, Debug, PartialEq, Eq, Hash)]
pub struct Composition {
    pub dim: u32,
    pub family: ValId,
    pub from: Dim,
    pub to: Dim,
    pub cap: ValId,
    pub tubes: Vec<(FaceId, ValId)>,
}

#[derive(Clone, Debug, PartialEq, Eq, Hash)]
pub enum Val {
    Susp(TermId, EnvId),
    Sub(ValId, SubId),
    Var(u32, Option<ValId>),
    U(u32),
    Pi(ValId, Binder),
    Sigma(ValId, Binder),
    Lam(Binder),
    App(ValId, ValId),
    Pair(ValId, ValId),
    Fst(ValId),
    Snd(ValId),
    Bool,
    True,
    False,
    Nat,
    Zero,
    Suc(ValId),
    If(ValId, ValId, ValId, ValId),
    NatElim(ValId, ValId, ValId, ValId),
    Path(Binder, ValId, ValId),
    PLam(Binder),
    PApp(ValId, Dim),
    Com(Composition),
    System(ValId, Vec<(FaceId, ValId)>),
    Glue(ValId, Vec<(FaceId, ValId, ValId)>),
    GlueIntro(ValId, Vec<(FaceId, ValId)>),
    Unglue(ValId, ValId),
}

/// A copy of value `v`.
pub fn copy_val(v: &Val) -> (r: Val)
    ensures
        same_shape(r, *v),
{
    match v {
        Val::Susp(t, e) => Val::Susp(*t, *e),
        Val::Sub(a, s) => Val::Sub(*a, *s),
        Val::Var(x, t) => Val::Var(*x, *t),
        Val::U(l) => Val::U(*l),
        Val::Pi(a, b) => Val::Pi(*a, *b),
        Val::Sigma(a, b) => Val::Sigma(*a, *b),
        Val::Lam(b) => Val::Lam(*b),
        Val::App(f, a) => Val::App(*f, *a),
        Val::Pair(a, b) => Val::Pair(*a, *b),
        Val::Fst(p) => Val::Fst(*p),
        Val::Snd(p) => Val::Snd(*p),
        Val::Bool => Val::Bool,
        Val::True => Val::True,
        Val::False => Val::False,
        Val::Nat => Val::Nat,
        Val::Zero => Val::Zero,
        Val::Suc(n) => Val::Suc(*n),
        Val::If(p, a, b, c) => Val::If(*p, *a, *b, *c),
        Val::NatElim(p, z, s, n) => Val::NatElim(*p, *z, *s, *n),
        Val::Path(b, l, r) => Val::Path(*b, *l, *r),
        Val::PLam(b) => Val::PLam(*b),
        Val::PApp(p, d) => Val::PApp(*p, *d),
        Val::Com(c) => Val::Com(
            Composition {
                dim: c.dim,
                family: c.family,
                from: c.from,
                to: c.to,
                cap: c.cap,
                tubes: copy_vec(&c.tubes),
            },
        ),
        Val::System(a, bs) => Val::System(*a, copy_vec(bs)),
        Val::Glue(a, bs) => Val::Glue(*a, copy_vec(bs)),
        Val::GlueIntro(a, bs) => Val::GlueIntro(*a, copy_vec(bs)),
        Val::Unglue(g, a) => Val::Unglue(*g, *a),
    }
}

/// Two values say the same: equal, with vectors compared by their contents.
pub open spec fn same_shape(a: Val, b: Val) -> bool {
    match (a, b) {
        (Val::Com(x), Val::Com(y)) => x.dim == y.dim && x.family == y.family && x.from == y.from && x.to == y.to
            && x.cap == y.cap && x.tubes@ == y.tubes@,
        (Val::System(p, xs), Val::System(q, ys)) => p == q && xs@ == ys@,
        (Val::GlueIntro(p, xs), Val::GlueIntro(q, ys)) => p == q && xs@ == ys@,
        (Val::Glue(p, xs), Val::Glue(q, ys)) => p == q && xs@ == ys@,
        _ => a == b,
    }
}

fn same_pairs(a: &Vec<(FaceId, ValId)>, b: &Vec<(FaceId, ValId)>) -> (r: bool)
    ensures
        r == (a@ == b@),
{
    if a.len() != b.len() {
        return false;
    }
    let mut k: usize = 0;
    while k < a.len()
        invariant
            a@.len() == b@.len(),
            k <= a@.len(),
            forall|j: int| 0 <= j < k ==> a@[j] == b@[j],
        decreases a@.len() - k,
    {
        if a[k].0 != b[k].0 || a[k].1 != b[k].1 {
            return false;
        }
        k += 1;
    }
    assert(a@ =~= b@);
    true
}

fn same_triples(a: &Vec<(FaceId, ValId, ValId)>, b: &Vec<(FaceId, ValId, ValId)>) -> (r: bool)
    ensures
        r == (a@ == b@),
{
    if a.len() != b.len() {
        return false;
    }
    let mut k: usize = 0;
    while k < a.len()
        invariant
            a@.len() == b@.len(),
            k <= a@.len(),
            forall|j: int| 0 <= j < k ==> a@[j] == b@[j],
        decreases a@.len() - k,
    {
        if a[k].0 != b[k].0 || a[k].1 != b[k].1 || a[k].2 != b[k].2 {
            return false;
        }
        k += 1;
    }
    assert(a@ =~= b@);
    true
}

/// Whether two values say the same.
pub fn same_val(a: &Val, b: &Val) -> (r: bool)
    ensures
        r == same_shape(*a, *b),
{
    match (a, b) {
        (Val::Susp(t, e), Val::Susp(u, f)) => *t == *u && *e == *f,
        (Val::Sub(v, s), Val::Sub(w, t)) => *v == *w && *s == *t,
        (Val::Var(x, t), Val::Var(y, u)) => *x == *y && match (t, u) {
            (Some(t), Some(u)) => *t == *u,
            (None, None) => true,
            _ => false,
        },
        (Val::U(x), Val::U(y)) => *x == *y,
        (Val::Pi(a, x), Val::Pi(b, y)) => *a == *b && *x == *y,
        (Val::Sigma(a, x), Val::Sigma(b, y)) => *a == *b && *x == *y,
        (Val::Lam(x), Val::Lam(y)) => *x == *y,
        (Val::App(f, x), Val::App(g, y)) => *f == *g && *x == *y,
        (Val::Pair(f, x), Val::Pair(g, y)) => *f == *g && *x == *y,
        (Val::Fst(x), Val::Fst(y)) => *x == *y,
        (Val::Snd(x), Val::Snd(y)) => *x == *y,
        (Val::Bool, Val::Bool) | (Val::True, Val::True) | (Val::False, Val::False) | (Val::Nat, Val::Nat) | (
            Val::Zero,
            Val::Zero,
        ) => true,
        (Val::Suc(x), Val::Suc(y)) => *x == *y,
        (Val::If(p, a, b, c), Val::If(q, d, e, f)) => *p == *q && *a == *d && *b == *e && *c == *f,
        (Val::NatElim(p, a, b, c), Val::NatElim(q, d, e, f)) => *p == *q && *a == *d && *b == *e && *c == *f,
        (Val::Path(x, l, r), Val::Path(y, m, n)) => *x == *y && *l == *m && *r == *n,
        (Val::PLam(x), Val::PLam(y)) => *x == *y,
        (Val::PApp(p, i), Val::PApp(q, j)) => *p == *q && *i == *j,
        (Val::Com(x), Val::Com(y)) => x.dim == y.dim && x.family == y.family && x.from == y.from && x.to == y.to
            && x.cap == y.cap && same_pairs(&x.tubes, &y.tubes),
        (Val::System(p, xs), Val::System(q, ys)) => *p == *q && same_pairs(xs, ys),
        (Val::GlueIntro(p, xs), Val::GlueIntro(q, ys)) => *p == *q && same_pairs(xs, ys),
        (Val::Glue(p, xs), Val::Glue(q, ys)) => *p == *q && same_triples(xs, ys),
        (Val::Unglue(g, x), Val::Unglue(h, y)) => *g == *h && *x == *y,
        _ => false,
    }
}

/// The evaluation session of one declaration or one normalization.
pub struct Engine<'a> {
    pub support_cache: IdMap<ValId, Option<crate::support::Support>>,
    pub computing_support: bool,
    pub collections: usize,
    pub collection_at: usize,
    pub reclaimed_nodes: usize,
    pub allocated_values: usize,
    pub capture_cache: std::collections::HashMap<usize, Slots>,
    pub push_cache: IdMap<(ValId, SubId), ValId>,
    pub program: &'a Program,
    pub values: Arena<Val>,
    pub envs: Arena<Env>,
    pub subs: Arena<Sub>,
    pub faces: Faces,
    pub cache: IdMap<(ValId, FaceId, bool), ValId>,
    pub globals: IdMap<usize, ValId>,
    pub next_term: u32,
    pub next_dim: u32,
    pub steps: u64,
    pub fuel: u64,
    pub optimized: bool,
    pub max_nodes: usize,
    pub sub_cache: IdMap<(ValId, SubId), ValId>,
    pub value_intern: IdMap<Val, ValId>,
    pub env_intern: IdMap<Env, EnvId>,
    pub sub_intern: IdMap<Sub, SubId>,
    pub unfold_cache: IdMap<(TermId, EnvId), ValId>,
    /// Remaining recursive calls; each recursive step spends one.
    pub calls: u64,
}

/// The message of an exhausted node budget.
pub const NODE_BUDGET_EXHAUSTED: &'static str = "arena node budget exhausted; computation stopped before further evaluation";

/// The message of exhausted fuel.
pub const FUEL_EXHAUSTED: &'static str = "evaluation budget exhausted (not a proof rejection); increase --fuel";

/// `b` holds every value, environment, substitution and face of `a` unchanged:
/// the arenas are only ever appended to (between collections), and the
/// evaluation mode and the program stay the same.
/// `w` is `v` with dimension `x` set to `d`: `v` itself when `d` is `x`, and in
/// the reference mode a suspended substitution of `v` sending `x` to `d`.
pub open spec fn restricted_to<'b>(e: Engine<'b>, w: ValId, v: ValId, x: u32, d: Dim) -> bool {
    &&& d == Dim::Var(x) ==> w == v
    &&& !e.optimized && d != Dim::Var(x) ==> (w.0 < e.values@.len() && (e.values@[w.0 as int] matches Val::Sub(u, s)
        && u == v && sub_dim_of(e.subs@, s, Dim::Var(x)) == Some(d)))
}

/// Face `face` and every face of `fs` are stored atomic faces.
pub open spec fn atomic_branches(faces: Seq<Face>, face: FaceId, fs: Seq<FaceId>) -> bool {
    &&& face.0 < faces.len()
    &&& crate::face::atomic(faces[face.0 as int])
    &&& forall|j: int| 0 <= j < fs.len() ==> (#[trigger] fs[j]).0 < faces.len() && crate::face::atomic(faces[fs[j].0 as int])
}

/// `w` is the successor step of an induction on `Nat`: the step `s` applied to
/// the predecessor `k` and then to the induction at `k`.
pub open spec fn nat_step(vals: Seq<Val>, w: ValId, p: ValId, z: ValId, s: ValId, k: ValId) -> bool {
    &&& w.0 < vals.len()
    &&& vals[w.0 as int] matches Val::App(f, rec)
    &&& f.0 < vals.len()
    &&& vals[f.0 as int] == Val::App(s, k)
    &&& rec.0 < vals.len()
    &&& vals[rec.0 as int] == Val::NatElim(p, z, s, k)
}

/// `w` substitutes `x` for the bound variable of `b` in its body.
pub open spec fn instantiates(after: Engine, w: ValId, b: Binder, x: ValId) -> bool {
    &&& after.values@[w.0 as int] matches Val::Sub(body, s)
    &&& body == b.body
    &&& after.subs@[s.0 as int].terms@ == seq![(b.var, x)]
}

/// One head step of an eliminator whose subject is a stored canonical value
/// reduces by the eliminator's computation rule: an application of a lambda
/// substitutes the argument into its body, a projection of a pair gives its
/// component, `bool-elim` on `true`/`false` gives the first/second branch,
/// `nat-elim` on `zero` gives the base case and on `suc k` the step at `k`, a
/// path abstraction applied at its own variable gives its body, and a path
/// variable applied at an endpoint gives the matching endpoint of its type; on
/// any other canonical subject it is stuck (`o` is `None`).
pub open spec fn eliminates<'b>(before: Engine<'b>, after: Engine<'b>, v: ValId, o: Option<ValId>, face: FaceId) -> bool {
    let vals = before.values@;
    match vals[v.0 as int] {
        Val::App(f, a) => f.0 < vals.len() && vals[f.0 as int] is Lam ==> o is Some && (!before.optimized
            ==> instantiates(after, o->Some_0, vals[f.0 as int]->Lam_0, a)),
        Val::PApp(p, d) => p.0 < vals.len() ==> match vals[p.0 as int] {
            Val::PLam(b) => o is Some && (d == Dim::Var(b.var) ==> o == Some(b.body)),
            Val::Var(_, Some(ty)) => !before.optimized && ty.0 < vals.len() && face.0 < before.faces@.len() ==> (vals[ty.0 as int] matches Val::Path(
                _,
                l,
                r,
            ) ==> {
                let zero = crate::face::equal_sem(before.faces@, face.0 as int, d, Dim::Zero);
                let one = crate::face::equal_sem(before.faces@, face.0 as int, d, Dim::One);
                &&& zero ==> o == Some(l)
                &&& !zero && one ==> o == Some(r)
                &&& !zero && !one ==> o is None
            }),
            _ => true,
        },
        Val::Fst(p) => p.0 < vals.len() && is_canonical(vals[p.0 as int]) ==> o == match vals[p.0 as int] {
            Val::Pair(a, _) => Some(a),
            _ => None,
        },
        Val::Snd(p) => p.0 < vals.len() && is_canonical(vals[p.0 as int]) ==> o == match vals[p.0 as int] {
            Val::Pair(_, b) => Some(b),
            _ => None,
        },
        Val::If(_, a, b, c) => c.0 < vals.len() && is_canonical(vals[c.0 as int]) ==> o == match vals[c.0 as int] {
            Val::True => Some(a),
            Val::False => Some(b),
            _ => None,
        },
        Val::NatElim(p, z, s, n) => n.0 < vals.len() && is_canonical(vals[n.0 as int]) ==> match vals[n.0 as int] {
            Val::Zero => o == Some(z),
            Val::Suc(k) => o is Some && nat_step(after.values@, o->Some_0, p, z, s, k),
            _ => o is None,
        },
        _ => true,
    }
}

/// `x` is the first projection of `p`: the first component of a stored pair,
/// or a node `fst p`.
pub open spec fn first_of(vals: Seq<Val>, x: ValId, p: ValId) -> bool {
    ||| p.0 < vals.len() && vals[p.0 as int] is Pair && x == vals[p.0 as int]->Pair_0
    ||| x.0 < vals.len() && vals[x.0 as int] == Val::Fst(p)
}

/// `x` is the second projection of `p`: the second component of a stored
/// pair, or a node `snd p`.
pub open spec fn second_of(vals: Seq<Val>, x: ValId, p: ValId) -> bool {
    ||| p.0 < vals.len() && vals[p.0 as int] is Pair && x == vals[p.0 as int]->Pair_1
    ||| x.0 < vals.len() && vals[x.0 as int] == Val::Snd(p)
}

/// `w` is the pair that composition `c` gives in a Sigma family with domain
/// `a`: its first component composes, in `a` and along the same direction, the
/// first projections of the cap and of each tube under the same faces; its
/// second composes the second projections along the same endpoints.
pub open spec fn sigma_composite(vals: Seq<Val>, w: ValId, c: Composition, a: ValId) -> bool {
    &&& w.0 < vals.len()
    &&& vals[w.0 as int] is Pair
    &&& {
        let first = vals[w.0 as int]->Pair_0;
        let second = vals[w.0 as int]->Pair_1;
        &&& first.0 < vals.len()
        &&& vals[first.0 as int] is Com
        &&& {
            let d = vals[first.0 as int]->Com_0;
            &&& d.dim == c.dim
            &&& d.family == a
            &&& d.from == c.from
            &&& d.to == c.to
            &&& first_of(vals, d.cap, c.cap)
            &&& d.tubes@.len() == c.tubes@.len()
            &&& forall|k: int|
                0 <= k < c.tubes@.len() ==> (#[trigger] d.tubes@[k]).0 == c.tubes@[k].0 && first_of(
                    vals,
                    d.tubes@[k].1,
                    c.tubes@[k].1,
                )
        }
        &&& second.0 < vals.len()
        &&& vals[second.0 as int] is Com
        &&& {
            let e = vals[second.0 as int]->Com_0;
            &&& e.from == c.from
            &&& e.to == c.to
            &&& second_of(vals, e.cap, c.cap)
            &&& e.tubes@.len() == c.tubes@.len()
            &&& forall|k: int| 0 <= k < c.tubes@.len() ==> (#[trigger] e.tubes@[k]).0 == c.tubes@[k].0
        }
    }
}

/// `g` is the filler of a Pi composition: the argument variable `x`,
/// composed in the domain `a` from the target endpoint back to dimension `y`.
pub open spec fn pi_filler(vals: Seq<Val>, g: ValId, c: Composition, a: ValId, x: u32, y: u32) -> bool {
    &&& g.0 < vals.len()
    &&& vals[g.0 as int] is Com
    &&& {
        let h = vals[g.0 as int]->Com_0;
        &&& h.dim == c.dim
        &&& h.family == a
        &&& h.from == c.to
        &&& h.to == Dim::Var(y)
        &&& h.tubes@.len() == 0
        &&& h.cap.0 < vals.len()
        &&& vals[h.cap.0 as int] matches Val::Var(v, Some(_))
        &&& v == x
    }
}

/// `w` is the function that composition `c` gives in a Pi family with domain
/// `a`: a lambda whose body composes, along the same endpoints, the cap applied
/// to the argument carried back to the source, and each tube (under the same
/// face) applied to the argument's filler.
pub open spec fn pi_composite(vals: Seq<Val>, w: ValId, c: Composition, a: ValId) -> bool {
    &&& w.0 < vals.len()
    &&& vals[w.0 as int] is Lam
    &&& {
        let bd = vals[w.0 as int]->Lam_0;
        &&& bd.body.0 < vals.len()
        &&& vals[bd.body.0 as int] is Com
        &&& {
            let e = vals[bd.body.0 as int]->Com_0;
            &&& e.from == c.from
            &&& e.to == c.to
            &&& e.cap.0 < vals.len()
            &&& vals[e.cap.0 as int] matches Val::App(f, back)
            &&& f == c.cap
            &&& e.tubes@.len() == c.tubes@.len()
            &&& forall|k: int|
                0 <= k < c.tubes@.len() ==> (#[trigger] e.tubes@[k]).0 == c.tubes@[k].0 && e.tubes@[k].1.0 < vals.len()
                    && vals[e.tubes@[k].1.0 as int] is App && pi_filler(
                    vals,
                    vals[e.tubes@[k].1.0 as int]->App_1,
                    c,
                    a,
                    bd.var,
                    e.dim,
                )
        }
    }
}

/// `w` is the path that composition `c` gives in a Path family with endpoints
/// `l` and `r`: a path abstraction whose body composes, along the same
/// endpoints, the cap and each tube (under the same face) applied at the bound
/// variable, with two more tubes that hold `l` where that variable is 0 and `r`
/// where it is 1.
pub open spec fn path_composite(after: Engine, w: ValId, c: Composition, l: ValId, r: ValId) -> bool {
    let vals = after.values@;
    &&& w.0 < vals.len()
    &&& vals[w.0 as int] is PLam
    &&& {
        let bd = vals[w.0 as int]->PLam_0;
        let n = c.tubes@.len() as int;
        &&& bd.body.0 < vals.len()
        &&& vals[bd.body.0 as int] is Com
        &&& {
            let e = vals[bd.body.0 as int]->Com_0;
            &&& e.dim == c.dim
            &&& e.from == c.from
            &&& e.to == c.to
            &&& e.cap.0 < vals.len()
            &&& vals[e.cap.0 as int] == Val::PApp(c.cap, Dim::Var(bd.var))
            &&& e.tubes@.len() == n + 2
            &&& forall|k: int|
                0 <= k < n ==> (#[trigger] e.tubes@[k]).0 == c.tubes@[k].0 && e.tubes@[k].1.0 < vals.len()
                    && vals[e.tubes@[k].1.0 as int] == Val::PApp(c.tubes@[k].1, Dim::Var(bd.var))
            &&& e.tubes@[n].1 == l
            &&& e.tubes@[n + 1].1 == r
            &&& forall|rho: spec_fn(u32) -> int|
                #[trigger] after.faces.holds(e.tubes@[n].0, rho) == (rho(bd.var) == 0)
            &&& forall|rho: spec_fn(u32) -> int|
                #[trigger] after.faces.holds(e.tubes@[n + 1].0, rho) == (rho(bd.var) == 1)
        }
    }
}

/// Whether two dimensions agree under a face does not change as faces are added.
proof fn lemma_equal_sem_grows(a: Seq<crate::face::Face>, b: Seq<crate::face::Face>, i: int, x: Dim, y: Dim)
    requires
        crate::face::extends(a, b),
        0 <= i < a.len(),
    ensures
        crate::face::equal_sem(a, i, x, y) == crate::face::equal_sem(b, i, x, y),
{
    if crate::face::equal_sem(a, i, x, y) {
        assert forall|rho: spec_fn(u32) -> int| #[trigger] crate::face::face_holds(b, i, rho) implies crate::face::dim_val(
            x,
            rho,
        ) == crate::face::dim_val(y, rho) by {
            crate::face::lemma_holds_extend(a, b, i, rho);
        }
    }
    if crate::face::equal_sem(b, i, x, y) {
        assert forall|rho: spec_fn(u32) -> int| #[trigger] crate::face::face_holds(a, i, rho) implies crate::face::dim_val(
            x,
            rho,
        ) == crate::face::dim_val(y, rho) by {
            crate::face::lemma_holds_extend(a, b, i, rho);
        }
    }
}

/// A first projection stays one as the arena grows.
proof fn lemma_first_of_grows(a: Seq<Val>, b: Seq<Val>, x: ValId, p: ValId)
    requires
        crate::face::extends(a, b),
        first_of(a, x, p),
    ensures
        first_of(b, x, p),
{
    if p.0 < a.len() && a[p.0 as int] is Pair && x == a[p.0 as int]->Pair_0 {
        assert(b[p.0 as int] == a[p.0 as int]);
    } else {
        assert(b[x.0 as int] == a[x.0 as int]);
    }
}

/// A second projection stays one as the arena grows.
proof fn lemma_second_of_grows(a: Seq<Val>, b: Seq<Val>, x: ValId, p: ValId)
    requires
        crate::face::extends(a, b),
        second_of(a, x, p),
    ensures
        second_of(b, x, p),
{
    if p.0 < a.len() && a[p.0 as int] is Pair && x == a[p.0 as int]->Pair_1 {
        assert(b[p.0 as int] == a[p.0 as int]);
    } else {
        assert(b[x.0 as int] == a[x.0 as int]);
    }
}

/// The universe, base type or constant that `v` holds, or that it suspends as a
/// literal in the reference mode.
pub open spec fn atom_value<'b>(e: Engine<'b>, v: ValId) -> Option<Val> {
    if v.0 < e.values@.len() && is_atom(e.values@[v.0 as int]) {
        Some(e.values@[v.0 as int])
    } else {
        suspended_literal(e, v)
    }
}

/// In the reference mode, `v` is a suspended literal term; its value is the literal's.
pub open spec fn suspended_literal<'b>(e: Engine<'b>, v: ValId) -> Option<Val> {
    if !e.optimized && v.0 < e.values@.len() {
        match e.values@[v.0 as int] {
            Val::Susp(t, _) => if t.0 < e.program.terms@.len() {
                literal(e.program.terms@[t.0 as int].term)
            } else {
                None
            },
            _ => None,
        }
    } else {
        None
    }
}

/// From `a` to `b` at most `calls` calls and `steps` steps were spent, and no
/// arena grew.
pub open spec fn cheap<'b>(a: Engine<'b>, b: Engine<'b>, calls: nat, steps: nat) -> bool {
    &&& b.counted_nodes() == a.counted_nodes()
    &&& b.steps <= a.steps + steps
    &&& b.calls + calls >= a.calls
    &&& b.max_nodes == a.max_nodes
    &&& b.fuel == a.fuel
}

/// Forcing `v` in `e` returns `v` itself within the budgets.
pub open spec fn settles<'b>(e: Engine<'b>, v: ValId) -> bool {
    e.settles_at(v, 3)
}

pub open spec fn arenas_grow<'b>(a: Engine<'b>, b: Engine<'b>) -> bool {
    &&& a.optimized == b.optimized
    &&& a.collection_at == b.collection_at
    &&& a.program == b.program
    &&& crate::face::extends(a.values@, b.values@)
    &&& crate::face::extends(a.envs@, b.envs@)
    &&& crate::face::extends(a.subs@, b.subs@)
    &&& crate::face::extends(a.faces@, b.faces@)
}

/// The least node count at which an optimized session collects: half the node
/// budget, at least one and at most 250000.
pub open spec fn collection_floor(max_nodes: usize) -> usize {
    if max_nodes / 2 < 1 {
        1
    } else if max_nodes / 2 > 250_000 {
        250_000
    } else {
        (max_nodes / 2) as usize
    }
}

/// An error for a broken internal invariant: no location, and a message that
/// begins `internal error: `.
pub open spec fn internal_error(e: Error) -> bool {
    e.offset is None && exists|m: Seq<char>| e.message@ == "internal error: "@ + m
}

/// The internal error whose message ends in `detail`.
pub fn internal_detail(detail: &str) -> (r: Error)
    ensures
        internal_error(r),
        r.message@ == "internal error: "@ + detail@,
{
    let mut message = "internal error: ".to_owned();
    message.append(detail);
    Error { offset: None, message }
}

pub fn internal(message: &str) -> (r: Error)
    ensures
        r.offset.is_none(),
        r.message@ == message@,
{
    Error::plain(message)
}

impl<'a> Engine<'a> {
    /// The engine's invariant: a well-formed face store over a well-formed program.
    pub open spec fn inv(&self) -> bool {
        &&& self.faces.wf()
        &&& self.program.wf()
        &&& self.steps <= self.fuel
        &&& crate::capture::cache_ok(self.program.terms@, self.capture_cache@)
    }

    /// The recursive calls that remain.
    pub open spec fn calls_left(&self) -> nat {
        self.calls as nat
    }

    pub fn new(program: &'a Program, optimized: bool, fuel: u64, max_nodes: usize) -> (r: Self)
        requires
            program.wf(),
        ensures
            r.inv(),
            r.program == program,
            r.fuel == fuel,
            r.steps == 0,
            r.optimized == optimized,
            r.max_nodes == max_nodes,
            r.collection_at == collection_floor(max_nodes),
            r.collections == 0,
            r.reclaimed_nodes == 0,
            r.allocated_values == 0,
            r.values@.len() == 0,
            r.envs@.len() == 0,
            r.subs@.len() == 0,
            r.faces@.len() == 0,
            r.calls == u64::MAX,
    {
        let half = max_nodes / 2;
        let collection_at = if half < 1 {
            1
        } else if half > 250_000 {
            250_000
        } else {
            half
        };
        Engine {
            support_cache: IdMap::default(),
            computing_support: false,
            collections: 0,
            collection_at,
            reclaimed_nodes: 0,
            allocated_values: 0,
            capture_cache: std::collections::HashMap::new(),
            push_cache: IdMap::default(),
            program,
            values: Arena::new(),
            envs: Arena::new(),
            subs: Arena::new(),
            faces: Faces::default(),
            cache: IdMap::default(),
            globals: IdMap::default(),
            next_term: 0,
            next_dim: 0,
            steps: 0,
            fuel,
            optimized,
            max_nodes,
            sub_cache: IdMap::default(),
            value_intern: IdMap::default(),
            env_intern: IdMap::default(),
            sub_intern: IdMap::default(),
            unfold_cache: IdMap::default(),
            calls: u64::MAX,
        }
    }

    /// The number of arena nodes: values, environments, substitutions and faces.
    pub open spec fn total_nodes(&self) -> int {
        (self.values@.len() + self.envs@.len() + self.subs@.len() + self.faces@.len()) as int
    }

    /// A composition in `Bool` or `Nat` that neither its endpoints nor any tube
    /// reduces.
    pub open spec fn data_family(&self, c: Composition, face: FaceId) -> bool {
        &&& c.family.0 < self.values@.len()
        &&& (self.values@[c.family.0 as int] is Bool || self.values@[c.family.0 as int] is Nat)
        &&& !crate::face::equal_sem(self.faces@, face.0 as int, c.from, c.to)
        &&& forall|k: int|
            0 <= k < c.tubes@.len() ==> !crate::face::entails_sem(self.faces@, face.0 as int, (#[trigger] c.tubes@[k]).0.0 as int)
    }

    /// Composition `c` is in a stored Sigma type, with distinct endpoints and
    /// no tube whose face holds.
    pub open spec fn sigma_family(&self, c: Composition, face: FaceId) -> bool {
        &&& c.family.0 < self.values@.len()
        &&& self.values@[c.family.0 as int] is Sigma
        &&& !crate::face::equal_sem(self.faces@, face.0 as int, c.from, c.to)
        &&& forall|k: int|
            0 <= k < c.tubes@.len() ==> !crate::face::entails_sem(self.faces@, face.0 as int, (#[trigger] c.tubes@[k]).0.0 as int)
    }

    /// Composition `c` is in a stored type, with distinct endpoints and no
    /// tube whose face holds.
    pub open spec fn headed_family(&self, c: Composition, face: FaceId) -> bool {
        &&& c.family.0 < self.values@.len()
        &&& !crate::face::equal_sem(self.faces@, face.0 as int, c.from, c.to)
        &&& forall|k: int|
            0 <= k < c.tubes@.len() ==> !crate::face::entails_sem(self.faces@, face.0 as int, (#[trigger] c.tubes@[k]).0.0 as int)
    }

    /// In the reference mode, `v` is a stored canonical value and the budgets
    /// allow the calls and the two steps of work that forcing it takes.
    pub open spec fn settles_at(&self, v: ValId, calls: nat) -> bool {
        &&& !self.optimized
        &&& v.0 < self.values@.len()
        &&& is_canonical(self.values@[v.0 as int])
        &&& self.budget_allows(calls)
        &&& self.steps + 1 < self.fuel
    }

    /// `calls` more recursive calls and `steps` more steps of work are within
    /// the call allowance, the fuel and the node budget.
    pub open spec fn budget_for(&self, calls: nat, steps: nat) -> bool {
        &&& self.calls >= calls
        &&& self.steps + steps <= self.fuel
        &&& self.counted_nodes() <= self.max_nodes
    }

    /// `calls` more recursive calls, and one more step of work, are within the
    /// call allowance, the fuel and the node budget.
    pub open spec fn budget_allows(&self, calls: nat) -> bool {
        &&& self.calls >= calls
        &&& self.steps < self.fuel
        &&& self.counted_nodes() <= self.max_nodes
    }

    /// The number of arena nodes, saturated at `usize::MAX`.
    pub open spec fn counted_nodes(&self) -> int {
        if self.total_nodes() > usize::MAX {
            usize::MAX as int
        } else {
            self.total_nodes()
        }
    }

    /// Total number of arena nodes, saturated at `usize::MAX`.
    pub fn node_count(&self) -> (r: usize)
        ensures
            r == self.counted_nodes(),
    {
        let a = self.values.len();
        let b = self.envs.len();
        let c = self.subs.len();
        let d = self.faces.len();
        a.saturating_add(b).saturating_add(c).saturating_add(d)
    }

    /// One step of evaluation work: fails when the node budget or the fuel is exhausted.
    pub fn tick(&mut self) -> (r: Result<()>)
        requires
            old(self).inv(),
        ensures
            final(self).inv(),
            final(self).fuel == old(self).fuel,
            arenas_grow(*old(self), *final(self)),
            final(self).calls_left() == old(self).calls_left(),
            final(self).program == old(self).program,
            final(self).faces@ == old(self).faces@,
            final(self).values@ == old(self).values@,
            final(self).envs@ == old(self).envs@,
            final(self).subs@ == old(self).subs@,
            final(self).optimized == old(self).optimized,
            r is Ok ==> final(self).steps == old(self).steps + 1 && old(self).steps < old(self).fuel,
            final(self).max_nodes == old(self).max_nodes,
            final(self).calls == old(self).calls,
            final(self).next_term == old(self).next_term,
            final(self).next_dim == old(self).next_dim,
            final(self).collection_at == old(self).collection_at,
            final(self).collections == old(self).collections,
            final(self).reclaimed_nodes == old(self).reclaimed_nodes,
            final(self).allocated_values == old(self).allocated_values,
            r is Err ==> final(self).steps == old(self).steps,
            r is Err <==> old(self).counted_nodes() > old(self).max_nodes || old(self).steps >= old(self).fuel,
            r matches Err(e) ==> e.offset is None && e.message@ == (if old(self).counted_nodes() > old(self).max_nodes {
                NODE_BUDGET_EXHAUSTED@
            } else {
                FUEL_EXHAUSTED@
            }),
    {
        if self.node_count() > self.max_nodes {
            return Err(Error::plain(NODE_BUDGET_EXHAUSTED));
        }
        if self.steps >= self.fuel {
            return Err(Error::plain(FUEL_EXHAUSTED));
        }
        self.steps = self.steps + 1;
        Ok(())
    }

    /// Spends one recursive call.
    pub fn spend(&mut self) -> (r: Result<()>)
        requires
            old(self).inv(),
        ensures
            final(self).inv(),
            final(self).fuel == old(self).fuel,
            arenas_grow(*old(self), *final(self)),
            final(self).program == old(self).program,
            r is Ok ==> final(self).calls_left() < old(self).calls_left(),
            final(self).calls_left() <= old(self).calls_left(),
            r is Ok <==> old(self).calls > 0,
            r is Ok ==> final(self).calls == old(self).calls - 1,
            final(self).max_nodes == old(self).max_nodes,
            final(self).collections == old(self).collections,
            final(self).collection_at == old(self).collection_at,
            final(self).reclaimed_nodes == old(self).reclaimed_nodes,
            final(self).counted_nodes() == old(self).counted_nodes(),
            r is Err ==> final(self).calls == old(self).calls,
            final(self).steps == old(self).steps,
            final(self).next_term == old(self).next_term,
            final(self).next_dim == old(self).next_dim,
            final(self).values@ == old(self).values@,
            final(self).envs@ == old(self).envs@,
            final(self).subs@ == old(self).subs@,
            final(self).faces@ == old(self).faces@,
            final(self).optimized == old(self).optimized,
    {
        if self.calls == 0 {
            return Err(internal("internal error: evaluation call allowance exhausted"));
        }
        self.calls = self.calls - 1;
        Ok(())
    }

    /// The value `v`: interned when optimized, otherwise always a new node.
    pub fn make(&mut self, v: Val) -> (r: ValId)
        requires
            old(self).inv(),
        ensures
            final(self).max_nodes == old(self).max_nodes,
            final(self).steps == old(self).steps,
            final(self).optimized == old(self).optimized,
            r.0 < final(self).values@.len(),
            same_shape(final(self).values@[r.0 as int], v),
            !old(self).optimized ==> final(self).values@ == old(self).values@.push(v) && r.0 == old(self).values@.len(),
            final(self).values@ == old(self).values@ || final(self).values@ == old(self).values@.push(v),
            final(self).next_term == old(self).next_term,
            final(self).next_dim == old(self).next_dim,
            final(self).envs@ == old(self).envs@,
            final(self).subs@ == old(self).subs@,
            final(self).faces@ == old(self).faces@,
            final(self).inv(),
            final(self).fuel == old(self).fuel,
            arenas_grow(*old(self), *final(self)),
            final(self).calls_left() == old(self).calls_left(),
            final(self).program == old(self).program,
    {
        if self.optimized {
            let mut found: Option<ValId> = None;
            if let Some(id) = self.value_intern.get(&v) {
                found = Some(*id);
            }
            if let Some(id) = found {
                if id.0 < self.values.len() && same_val(self.values.get(id.0), &v) {
                    return id;
                }
            }
            self.allocated_values = self.allocated_values.saturating_add(1);
            let key = v.clone();
            let id = ValId(self.values.store(v));
            self.value_intern.insert(key, id);
            id
        } else {
            self.allocated_values = self.allocated_values.saturating_add(1);
            ValId(self.values.store(v))
        }
    }

    /// The value stored under `v`.
    /// Whether value `id` is stored and says `v`.
    pub open spec fn shape_at(&self, id: ValId, v: Val) -> bool {
        id.0 < self.values@.len() && same_shape(self.values@[id.0 as int], v)
    }

    /// The value stored under `v`, by reference.
    pub fn peek(&self, v: ValId) -> (r: Result<&Val>)
        ensures
            r is Ok <==> v.0 < self.values@.len(),
            r matches Ok(x) ==> *x == self.values@[v.0 as int],
    {
        if v.0 < self.values.len() {
            Ok(self.values.get(v.0))
        } else {
            Err(internal("internal error: unknown value"))
        }
    }

    /// The value stored under `v`; an unknown identifier is an internal error.
    pub fn get(&self, v: ValId) -> (r: Result<Val>)
        ensures
            r is Ok <==> v.0 < self.values@.len(),
            r matches Ok(x) ==> same_shape(x, self.values@[v.0 as int]),
    {
        if v.0 < self.values.len() {
            Ok(copy_val(self.values.get(v.0)))
        } else {
            Err(internal("internal error: unknown value"))
        }
    }

    /// The environment `e`: interned when optimized, otherwise always a new node.
    pub fn env(&mut self, e: Env) -> (r: EnvId)
        requires
            old(self).inv(),
        ensures
            final(self).max_nodes == old(self).max_nodes,
            final(self).steps == old(self).steps,
            final(self).optimized == old(self).optimized,
            !old(self).optimized ==> final(self).envs@ == old(self).envs@.push(e) && r.0 == old(self).envs@.len(),
            final(self).envs@ == old(self).envs@ || final(self).envs@ == old(self).envs@.push(e),
            env_is(final(self).envs@, r, e),
            final(self).values@ == old(self).values@,
            final(self).subs@ == old(self).subs@,
            final(self).faces@ == old(self).faces@,
            final(self).inv(),
            final(self).fuel == old(self).fuel,
            arenas_grow(*old(self), *final(self)),
            final(self).calls_left() == old(self).calls_left(),
            final(self).program == old(self).program,
            final(self).next_term == old(self).next_term,
            final(self).next_dim == old(self).next_dim,
    {
        if self.optimized {
            if let Some(id) = self.env_intern.get(&e) {
                let id = *id;
                if id.0 < self.envs.len() && self.envs.get(id.0).same(&e) {
                    return id;
                }
            }
            let key = e.clone();
            let id = EnvId(self.envs.store(e));
            self.env_intern.insert(key, id);
            id
        } else {
            EnvId(self.envs.store(e))
        }
    }

    /// The substitution `s`: interned when optimized, otherwise always a new node.
    pub fn substitution(&mut self, s: Sub) -> (r: SubId)
        requires
            old(self).inv(),
        ensures
            final(self).optimized == old(self).optimized,
            !old(self).optimized ==> final(self).subs@ == old(self).subs@.push(s) && r.0 == old(self).subs@.len(),
            final(self).subs@ == old(self).subs@ || final(self).subs@ == old(self).subs@.push(s),
            r.0 < final(self).subs@.len() && sub_eq(final(self).subs@[r.0 as int], s),
            final(self).values@ == old(self).values@,
            final(self).envs@ == old(self).envs@,
            final(self).faces@ == old(self).faces@,
            final(self).inv(),
            final(self).fuel == old(self).fuel,
            arenas_grow(*old(self), *final(self)),
            final(self).calls_left() == old(self).calls_left(),
            final(self).program == old(self).program,
            final(self).next_term == old(self).next_term,
            final(self).next_dim == old(self).next_dim,
    {
        if self.optimized {
            if let Some(id) = self.sub_intern.get(&s) {
                let id = *id;
                if id.0 < self.subs.len() && self.subs.get(id.0).same(&s) {
                    return id;
                }
            }
            let key = s.clone();
            let id = SubId(self.subs.store(s));
            self.sub_intern.insert(key, id);
            id
        } else {
            SubId(self.subs.store(s))
        }
    }

    /// The environment stored under `e`; an unknown identifier is an internal error.
    pub fn environment(&self, e: EnvId) -> (r: Result<Env>)
        ensures
            r is Ok <==> e.0 < self.envs@.len(),
            r matches Ok(x) ==> env_is(self.envs@, e, x),
            r matches Err(x) ==> x.offset is None && internal_error(x),
    {
        if e.0 < self.envs.len() {
            Ok(self.envs.get(e.0).duplicate())
        } else {
            Err(internal_detail("unknown environment"))
        }
    }

    /// The substitution stored under `s`; an unknown identifier is an internal error.
    pub fn substitution_at(&self, s: SubId) -> (r: Result<Sub>)
        ensures
            r is Ok <==> s.0 < self.subs@.len(),
            r matches Ok(x) ==> sub_eq(x, self.subs@[s.0 as int]),
    {
        if s.0 < self.subs.len() {
            Ok(self.subs.get(s.0).duplicate())
        } else {
            Err(internal("internal error: unknown substitution"))
        }
    }

    /// A fresh term variable level.
    pub fn fresh_term(&mut self) -> (r: Result<u32>)
        requires
            old(self).inv(),
        ensures
            final(self).inv(),
            final(self).fuel == old(self).fuel,
            arenas_grow(*old(self), *final(self)),
            final(self).calls_left() == old(self).calls_left(),
            final(self).program == old(self).program,
            r is Ok <==> old(self).next_term < u32::MAX,
            r matches Ok(n) ==> n == old(self).next_term && final(self).next_term == n + 1,
            r is Err ==> final(self).next_term == old(self).next_term,
            final(self).next_dim == old(self).next_dim,
            final(self).values@ == old(self).values@,
            final(self).envs@ == old(self).envs@,
            final(self).subs@ == old(self).subs@,
            final(self).faces@ == old(self).faces@,
            final(self).optimized == old(self).optimized,
    {
        let n = self.next_term;
        if n == u32::MAX {
            return Err(internal("internal error: term variable levels exhausted"));
        }
        self.next_term = n + 1;
        Ok(n)
    }

    /// A fresh dimension variable level.
    pub fn fresh_dim(&mut self) -> (r: Result<u32>)
        requires
            old(self).inv(),
        ensures
            final(self).inv(),
            final(self).fuel == old(self).fuel,
            arenas_grow(*old(self), *final(self)),
            final(self).calls_left() == old(self).calls_left(),
            final(self).program == old(self).program,
            r is Ok <==> old(self).next_dim < u32::MAX,
            r matches Ok(n) ==> n == old(self).next_dim && final(self).next_dim == n + 1,
            r is Err ==> final(self).next_dim == old(self).next_dim,
            final(self).next_term == old(self).next_term,
            final(self).values@ == old(self).values@,
            final(self).envs@ == old(self).envs@,
            final(self).subs@ == old(self).subs@,
            final(self).faces@ == old(self).faces@,
            final(self).optimized == old(self).optimized,
    {
        let n = self.next_dim;
        if n == u32::MAX {
            return Err(internal("internal error: dimension variable levels exhausted"));
        }
        self.next_dim = n + 1;
        Ok(n)
    }

    /// A fresh variable of type `ty`.
    pub fn variable(&mut self, ty: ValId) -> (r: Result<ValId>)
        requires
            old(self).inv(),
        ensures
            r is Ok <==> old(self).next_term < u32::MAX,
            r matches Ok(x) ==> final(self).shape_at(x, Val::Var(old(self).next_term, Some(ty))),
            r is Ok ==> final(self).next_term == old(self).next_term + 1,
            final(self).envs@ == old(self).envs@,
            final(self).next_dim == old(self).next_dim,
            final(self).inv(),
            final(self).fuel == old(self).fuel,
            arenas_grow(*old(self), *final(self)),
            final(self).calls_left() == old(self).calls_left(),
            final(self).program == old(self).program,
    {
        let v = self.fresh_term()?;
        Ok(self.make(Val::Var(v, Some(ty))))
    }

    pub fn valid_face(&self, f: FaceId) -> (r: Result<()>)
        ensures
            r is Ok <==> self.faces.valid(f),
    {
        if f.0 < self.faces.len() {
            Ok(())
        } else {
            Err(internal("internal error: unknown face"))
        }
    }

    pub fn top(&mut self) -> (r: FaceId)
        requires
            old(self).inv(),
        ensures
            final(self).max_nodes == old(self).max_nodes,
            final(self).steps == old(self).steps,
            final(self).inv(),
            final(self).fuel == old(self).fuel,
            arenas_grow(*old(self), *final(self)),
            final(self).calls_left() == old(self).calls_left(),
            final(self).program == old(self).program,
            final(self).envs@ == old(self).envs@,
            forall|rho: spec_fn(u32) -> int| #[trigger] final(self).faces.holds(r, rho),
            final(self).faces.valid(r),
            final(self).values@ == old(self).values@,
            final(self).subs@ == old(self).subs@,
            final(self).faces@.len() <= old(self).faces@.len() + 1,
            final(self).optimized == old(self).optimized,
    {
        self.faces.top()
    }

    pub fn bot(&mut self) -> (r: FaceId)
        requires
            old(self).inv(),
        ensures
            final(self).inv(),
            final(self).fuel == old(self).fuel,
            arenas_grow(*old(self), *final(self)),
            final(self).calls_left() == old(self).calls_left(),
            final(self).program == old(self).program,
            final(self).envs@ == old(self).envs@,
            forall|rho: spec_fn(u32) -> int| !#[trigger] final(self).faces.holds(r, rho),
            final(self).faces.valid(r),
    {
        self.faces.bot()
    }

    pub fn face_eq(&mut self, a: Dim, b: Dim) -> (r: FaceId)
        requires
            old(self).inv(),
        ensures
            final(self).inv(),
            final(self).fuel == old(self).fuel,
            arenas_grow(*old(self), *final(self)),
            final(self).calls_left() == old(self).calls_left(),
            final(self).program == old(self).program,
            final(self).envs@ == old(self).envs@,
            final(self).faces.valid(r),
            forall|rho: spec_fn(u32) -> int|
                #[trigger] final(self).faces.holds(r, rho) == (crate::face::dim_val(a, rho) == crate::face::dim_val(b, rho)),
    {
        self.faces.eq(a, b)
    }

    pub fn face_and(&mut self, a: FaceId, b: FaceId) -> (r: Result<FaceId>)
        requires
            old(self).inv(),
        ensures
            final(self).inv(),
            final(self).fuel == old(self).fuel,
            arenas_grow(*old(self), *final(self)),
            final(self).calls_left() == old(self).calls_left(),
            final(self).program == old(self).program,
            final(self).envs@ == old(self).envs@,
            r is Ok <==> old(self).faces.valid(a) && old(self).faces.valid(b),
            r matches Ok(g) ==> {
                &&& final(self).faces.valid(g)
                &&& forall|rho: spec_fn(u32) -> int|
                    #[trigger] final(self).faces.holds(g, rho) == (old(self).faces.holds(a, rho) && old(
                        self,
                    ).faces.holds(b, rho))
            },
    {
        self.valid_face(a)?;
        self.valid_face(b)?;
        Ok(self.faces.and(a, b))
    }

    pub fn face_or(&mut self, a: FaceId, b: FaceId) -> (r: Result<FaceId>)
        requires
            old(self).inv(),
        ensures
            final(self).inv(),
            final(self).fuel == old(self).fuel,
            arenas_grow(*old(self), *final(self)),
            final(self).calls_left() == old(self).calls_left(),
            final(self).program == old(self).program,
            final(self).envs@ == old(self).envs@,
            r is Ok <==> old(self).faces.valid(a) && old(self).faces.valid(b),
            r matches Ok(g) ==> {
                &&& final(self).faces.valid(g)
                &&& forall|rho: spec_fn(u32) -> int|
                    #[trigger] final(self).faces.holds(g, rho) == (old(self).faces.holds(a, rho) || old(
                        self,
                    ).faces.holds(b, rho))
            },
    {
        self.valid_face(a)?;
        self.valid_face(b)?;
        Ok(self.faces.or(a, b))
    }

    pub fn entails(&mut self, a: FaceId, b: FaceId) -> (r: Result<bool>)
        requires
            old(self).inv(),
        ensures
            final(self).inv(),
            final(self).fuel == old(self).fuel,
            arenas_grow(*old(self), *final(self)),
            final(self).calls_left() == old(self).calls_left(),
            final(self).program == old(self).program,
            final(self).faces@ == old(self).faces@,
            !(old(self).faces.valid(a) && old(self).faces.valid(b)) ==> r is Err,
            r matches Ok(x) ==> x == crate::face::entails_sem(old(self).faces@, a.0 as int, b.0 as int),
            old(self).faces.valid(a) && old(self).faces.valid(b) && crate::face::atomic(old(self).faces@[a.0 as int])
                && crate::face::atomic(old(self).faces@[b.0 as int]) ==> r is Ok,
    {
        self.valid_face(a)?;
        self.valid_face(b)?;
        self.faces.entails(a, b)
    }

    pub fn inconsistent(&mut self, a: FaceId) -> (r: Result<bool>)
        requires
            old(self).inv(),
        ensures
            final(self).inv(),
            final(self).fuel == old(self).fuel,
            arenas_grow(*old(self), *final(self)),
            final(self).calls_left() == old(self).calls_left(),
            final(self).program == old(self).program,
            final(self).faces@ == old(self).faces@,
            !old(self).faces.valid(a) ==> r is Err,
            r matches Ok(x) ==> x == crate::face::inconsistent_sem(old(self).faces@, a.0 as int),
            old(self).faces.valid(a) && crate::face::atomic(old(self).faces@[a.0 as int]) ==> r is Ok,
            final(self).values@ == old(self).values@,
            final(self).envs@ == old(self).envs@,
            final(self).subs@ == old(self).subs@,
            final(self).steps == old(self).steps,
            final(self).calls == old(self).calls,
            final(self).max_nodes == old(self).max_nodes,
            final(self).optimized == old(self).optimized,
    {
        self.valid_face(a)?;
        self.faces.inconsistent(a)
    }

    pub fn dims_equal(&mut self, a: FaceId, x: Dim, y: Dim) -> (r: Result<bool>)
        requires
            old(self).inv(),
        ensures
            final(self).inv(),
            final(self).fuel == old(self).fuel,
            arenas_grow(*old(self), *final(self)),
            final(self).calls_left() == old(self).calls_left(),
            final(self).program == old(self).program,
            final(self).faces@ == old(self).faces@,
            !old(self).faces.valid(a) ==> r is Err,
            r matches Ok(v) ==> v == crate::face::equal_sem(old(self).faces@, a.0 as int, x, y),
            old(self).faces.valid(a) && crate::face::atomic(old(self).faces@[a.0 as int]) ==> r is Ok,
    {
        self.valid_face(a)?;
        self.faces.equal(a, x, y)
    }

    pub fn face_clauses(&mut self, a: FaceId) -> (r: Result<Vec<FaceId>>)
        requires
            old(self).inv(),
        ensures
            final(self).inv(),
            final(self).fuel == old(self).fuel,
            arenas_grow(*old(self), *final(self)),
            final(self).calls_left() == old(self).calls_left(),
            final(self).program == old(self).program,
            !old(self).faces.valid(a) ==> r is Err,
            r matches Ok(fs) ==> {
                &&& forall|k: int| 0 <= k < fs.len() ==> final(self).faces.valid(#[trigger] fs@[k])
                &&& forall|rho: spec_fn(u32) -> int|
                    #[trigger] old(self).faces.holds(a, rho) == crate::face::some_holds(final(self).faces@, fs@, rho)
            },
            old(self).faces.valid(a) && crate::face::atomic(old(self).faces@[a.0 as int]) ==> r is Ok,
    {
        self.valid_face(a)?;
        self.faces.clauses(a)
    }

    pub fn face_forall(&mut self, x: u32, a: FaceId) -> (r: Result<FaceId>)
        requires
            old(self).inv(),
        ensures
            final(self).inv(),
            final(self).fuel == old(self).fuel,
            arenas_grow(*old(self), *final(self)),
            final(self).calls_left() == old(self).calls_left(),
            final(self).program == old(self).program,
            !old(self).faces.valid(a) ==> r is Err,
            r matches Ok(g) ==> {
                &&& final(self).faces.valid(g)
                &&& forall|rho: spec_fn(u32) -> int|
                    #[trigger] final(self).faces.holds(g, rho) == forall|v: int|
                        #[trigger] old(self).faces.holds(a, crate::face::update(rho, x, v))
            },
            old(self).faces.valid(a) && crate::face::atomic(old(self).faces@[a.0 as int]) ==> r is Ok,
    {
        self.valid_face(a)?;
        self.faces.forall_var(x, a)
    }

    pub fn face_node(&self, a: FaceId) -> (r: Result<Face>)
        requires
            self.inv(),
        ensures
            r is Ok <==> self.faces.valid(a),
            r matches Ok(x) ==> x == self.faces@[a.0 as int],
    {
        self.valid_face(a)?;
        Ok(self.faces.get(a))
    }

    /// The term at `t` in the program.
    pub fn term_at(&self, t: TermId) -> (r: Result<&'a crate::syntax::Node>)
        requires
            self.inv(),
        ensures
            r is Ok <==> t.0 < self.program.terms@.len(),
            r matches Ok(n) ==> *n == self.program.terms@[t.0 as int],
            r matches Err(x) ==> x.offset is None && internal_error(x),
    {
        let program: &'a Program = self.program;
        if t.0 < program.terms.len() {
            Ok(program.terms.get(t.0))
        } else {
            Err(internal_detail("unknown term"))
        }
    }

    pub fn thunk(&mut self, t: TermId, e: EnvId) -> (r: Result<ValId>)
        requires
            old(self).inv(),
        ensures
            final(self).max_nodes == old(self).max_nodes,
            final(self).steps == old(self).steps,
            final(self).inv(),
            final(self).fuel == old(self).fuel,
            arenas_grow(*old(self), *final(self)),
            final(self).calls_left() == old(self).calls_left(),
            final(self).program == old(self).program,
            r is Ok ==> t.0 < old(self).program.terms@.len(),
            !old(self).optimized ==> (r is Ok <==> t.0 < old(self).program.terms@.len()),
            !old(self).optimized && r is Ok ==> final(self).shape_at(r->Ok_0, Val::Susp(t, e)),
            r matches Ok(x) ==> denotes(*final(self), old(self).program.terms@, old(self).optimized, x, t, e),
            r matches Err(e) ==> e.offset is None && internal_error(e),
            old(self).optimized && t.0 < old(self).program.terms@.len() && literal(old(self).program.terms@[t.0 as int].term)
                is Some ==> final(self).envs@ == old(self).envs@ && final(self).subs@ == old(self).subs@ && final(self).faces@
                == old(self).faces@ && final(self).values@.len() <= old(self).values@.len() + 1,
            old(self).optimized && t.0 < old(self).program.terms@.len() ==> match old(self).program.terms@[t.0 as int].term {
                Term::Var(i) => {
                    &&& r is Ok <==> e.0 < old(self).envs@.len() && i < old(self).envs@[e.0 as int].terms@.len()
                    &&& r matches Ok(v) ==> v == old(self).envs@[e.0 as int].terms@[old(self).envs@[e.0 as int].terms@.len() - 1 - i]
                },
                term => match literal(term) {
                    Some(x) => r matches Ok(v) && final(self).shape_at(v, x),
                    None => {
                        &&& r is Ok <==> slots_bound(old(self).envs@, old(self).program.terms@, t, e)
                        &&& r matches Ok(v) ==> final(self).values@[v.0 as int] matches Val::Susp(t2, e2) && t2 == t
                            && captures(final(self).envs@, old(self).program.terms@, t, e, e2)
                    },
                },
            },
    {
        let node = self.term_at(t)?;
        if self.optimized {
            let simple = match &node.term {
                Term::Var(i) => {
                    let env = self.environment(e)?;
                    if *i < env.terms.len() {
                        return Ok(env.terms[env.terms.len() - 1 - *i]);
                    }
                    return Err(internal_detail("unbound variable"));
                },
                Term::U(l) => Some(Val::U(*l)),
                Term::Bool => Some(Val::Bool),
                Term::Nat => Some(Val::Nat),
                Term::True => Some(Val::True),
                Term::False => Some(Val::False),
                Term::Zero => Some(Val::Zero),
                _ => None,
            };
            if let Some(v) = simple {
                return Ok(self.make(v));
            }
        }
        let e = if self.optimized {
            let program: &'a Program = self.program;
            let ghost nodes = program.terms@;
            let (ts, ds) = slots(program, t, &mut self.capture_cache);
            let env = self.environment(e)?;
            let tn: usize = if ts.len() == 0 {
                0
            } else if ts[ts.len() - 1] < env.terms.len() {
                ts[ts.len() - 1] + 1
            } else {
                proof {
                    let last = ts@[ts@.len() - 1];
                    assert(ts@.contains(last));
                    assert(free_term(nodes, t.0 as nat, last as nat));
                }
                return Err(internal_detail("unbound variable"));
            };
            let dn: usize = if ds.len() == 0 {
                0
            } else if ds[ds.len() - 1] < env.dims.len() {
                ds[ds.len() - 1] + 1
            } else {
                proof {
                    let last = ds@[ds@.len() - 1];
                    assert(ds@.contains(last));
                    assert(free_dim(nodes, t.0 as nat, last as nat));
                }
                return Err(internal_detail("unbound variable"));
            };
            proof {
                assert forall|x: nat| #[trigger] free_term(nodes, t.0 as nat, x) implies x < tn by {
                    crate::capture::lemma_free_in_range(nodes, t.0 as nat);
                    assert(ts@.contains(x as usize));
                }
                assert forall|x: nat| #[trigger] free_dim(nodes, t.0 as nat, x) implies x < dn by {
                    crate::capture::lemma_free_in_range(nodes, t.0 as nat);
                    assert(ds@.contains(x as usize));
                }
            }
            let unused = if tn > 0 { self.make(Val::Zero) } else { ValId(0) };
            let mut terms: Vec<ValId> = Vec::new();
            let mut k: usize = 0;
            while k < tn
                invariant
                    tn <= env.terms@.len(),
                    k <= tn,
                    terms@.len() == k,
                    forall|j: int| 0 <= j < k && #[trigger] ts@.contains((tn - 1 - j) as usize) ==> terms@[j]
                        == env.terms@[env.terms@.len() - tn + j],
                decreases tn - k,
            {
                let i = tn - 1 - k;
                if contains_slot(&ts, i) {
                    terms.push(env.terms[env.terms.len() - tn + k]);
                } else {
                    terms.push(unused);
                }
                k += 1;
            }
            let mut dims: Vec<Dim> = Vec::new();
            let mut k: usize = 0;
            while k < dn
                invariant
                    dn <= env.dims@.len(),
                    k <= dn,
                    dims@.len() == k,
                    forall|j: int| 0 <= j < k && #[trigger] ds@.contains((dn - 1 - j) as usize) ==> dims@[j]
                        == env.dims@[env.dims@.len() - dn + j],
                decreases dn - k,
            {
                let i = dn - 1 - k;
                if contains_slot(&ds, i) {
                    dims.push(env.dims[env.dims.len() - dn + k]);
                } else {
                    dims.push(Dim::Zero);
                }
                k += 1;
            }
            let trimmed = Env { terms, dims };
            let e2 = self.env(trimmed);
            proof {
                assert forall|x: nat| #[trigger] free_term(nodes, t.0 as nat, x) implies trims_term(
                    self.envs@,
                    e,
                    e2,
                    x,
                ) by {
                    assert(ts@.contains(x as usize));
                    assert(ts@.contains((tn - 1 - (tn - 1 - x)) as usize));
                }
                assert forall|x: nat| #[trigger] free_dim(nodes, t.0 as nat, x) implies trims_dim(
                    self.envs@,
                    e,
                    e2,
                    x,
                ) by {
                    assert(ds@.contains(x as usize));
                    assert(ds@.contains((dn - 1 - (dn - 1 - x)) as usize));
                }
            }
            e2
        } else {
            e
        };
        Ok(self.make(Val::Susp(t, e)))
    }

    /// The dimension that syntax `d` denotes in environment `e`.
    pub fn dim(&self, d: D, e: EnvId) -> (r: Result<Dim>)
        ensures
            match dim_in(self.envs@, d, e) {
                Some(x) => r == Ok::<Dim, Error>(x),
                None => r is Err,
            },
    {
        match d {
            D::Zero => Ok(Dim::Zero),
            D::One => Ok(Dim::One),
            D::Bound(i) => {
                if e.0 >= self.envs.len() {
                    return Err(internal("internal error: unknown environment"));
                }
                let ds = &self.envs.get(e.0).dims;
                if i < ds.len() {
                    Ok(ds[ds.len() - 1 - i])
                } else {
                    Err(internal("internal error: unbound interval variable"))
                }
            },
        }
    }

    /// The face that syntax `f` denotes in environment `e`.
    pub fn face(&mut self, f: &F, e: EnvId) -> (r: Result<FaceId>)
        requires
            old(self).inv(),
        ensures
            final(self).inv(),
            final(self).fuel == old(self).fuel,
            arenas_grow(*old(self), *final(self)),
            final(self).calls_left() == old(self).calls_left(),
            final(self).program == old(self).program,
            final(self).envs@ == old(self).envs@,
            r is Ok <==> face_bound(old(self).envs@, *f, e),
            r matches Ok(g) ==> {
                &&& final(self).faces.valid(g)
                &&& forall|rho: spec_fn(u32) -> int|
                    #[trigger] final(self).faces.holds(g, rho) == face_in(old(self).envs@, *f, e, rho)
            },
        decreases f,
    {
        match f {
            F::Top => Ok(self.top()),
            F::Bot => Ok(self.bot()),
            F::Eq(a, b) => {
                let a = self.dim(*a, e)?;
                let b = self.dim(*b, e)?;
                Ok(self.face_eq(a, b))
            },
            F::And(a, b) => {
                let fa = self.face(a, e)?;
                let ghost mid = self.faces@;
                let fb = self.face(b, e)?;
                proof {
                    assert forall|rho: spec_fn(u32) -> int|
                        #[trigger] self.faces.holds(fa, rho) == face_in(old(self).envs@, **a, e, rho) by {
                        crate::face::lemma_holds_extend(mid, self.faces@, fa.0 as int, rho);
                    }
                }
                self.face_and(fa, fb)
            },
            F::Or(a, b) => {
                let fa = self.face(a, e)?;
                let ghost mid = self.faces@;
                let fb = self.face(b, e)?;
                proof {
                    assert forall|rho: spec_fn(u32) -> int|
                        #[trigger] self.faces.holds(fa, rho) == face_in(old(self).envs@, **a, e, rho) by {
                        crate::face::lemma_holds_extend(mid, self.faces@, fa.0 as int, rho);
                    }
                }
                self.face_or(fa, fb)
            },
        }
    }

    pub fn term_binder(&mut self, t: TermId, e: EnvId, ty: Option<ValId>) -> (r: Result<Binder>)
        requires
            old(self).inv(),
        ensures
            final(self).inv(),
            final(self).fuel == old(self).fuel,
            arenas_grow(*old(self), *final(self)),
            final(self).calls_left() == old(self).calls_left(),
            final(self).program == old(self).program,
            r matches Ok(b) ==> b.var == old(self).next_term,
            r matches Ok(b) ==> !old(self).optimized ==> {
                &&& final(self).values@[old(self).values@.len() as int] == Val::Var(b.var, ty)
                &&& final(self).values@[b.body.0 as int] matches Val::Susp(t2, e2)
                &&& t2 == t
                &&& e.0 < old(self).envs@.len()
                &&& final(self).envs@[e2.0 as int].terms@ == old(self).envs@[e.0 as int].terms@.push(
                    ValId(old(self).values@.len() as usize),
                )
                &&& final(self).envs@[e2.0 as int].dims@ == old(self).envs@[e.0 as int].dims@
            },
    {
        let var = self.fresh_term()?;
        let v = self.make(Val::Var(var, ty));
        let mut env = self.environment(e)?;
        env.terms.push(v);
        let env = self.env(env);
        let body = self.thunk(t, env)?;
        Ok(Binder { var, body })
    }

    pub fn dim_binder(&mut self, t: TermId, e: EnvId) -> (r: Result<Binder>)
        requires
            old(self).inv(),
        ensures
            final(self).inv(),
            final(self).fuel == old(self).fuel,
            arenas_grow(*old(self), *final(self)),
            final(self).calls_left() == old(self).calls_left(),
            final(self).program == old(self).program,
            r matches Ok(b) ==> b.var == old(self).next_dim,
            r matches Ok(b) ==> !old(self).optimized ==> {
                &&& final(self).values@[b.body.0 as int] matches Val::Susp(t2, e2)
                &&& t2 == t
                &&& e.0 < old(self).envs@.len()
                &&& final(self).envs@[e2.0 as int].terms@ == old(self).envs@[e.0 as int].terms@
                &&& final(self).envs@[e2.0 as int].dims@ == old(self).envs@[e.0 as int].dims@.push(Dim::Var(b.var))
            },
    {
        let var = self.fresh_dim()?;
        let mut env = self.environment(e)?;
        env.dims.push(Dim::Var(var));
        let env = self.env(env);
        let body = self.thunk(t, env)?;
        Ok(Binder { var, body })
    }

    pub fn app(&mut self, f: ValId, a: ValId) -> (r: ValId)
        requires
            old(self).inv(),
        ensures
            final(self).shape_at(r, Val::App(f, a)),
            final(self).inv(),
            final(self).fuel == old(self).fuel,
            arenas_grow(*old(self), *final(self)),
            final(self).calls_left() == old(self).calls_left(),
            final(self).program == old(self).program,
            final(self).next_term == old(self).next_term,
            final(self).next_dim == old(self).next_dim,
    {
        self.make(Val::App(f, a))
    }

    /// The first projection of `p`; when optimized, that of a stored pair directly.
    pub fn fst(&mut self, p: ValId) -> (r: ValId)
        requires
            old(self).inv(),
        ensures
            old(self).optimized && p.0 < old(self).values@.len() && old(self).values@[p.0 as int] is Pair ==> r
                == old(self).values@[p.0 as int]->Pair_0,
            !(old(self).optimized && p.0 < old(self).values@.len() && old(self).values@[p.0 as int] is Pair)
                ==> final(self).shape_at(r, Val::Fst(p)),
            final(self).inv(),
            final(self).fuel == old(self).fuel,
            arenas_grow(*old(self), *final(self)),
            final(self).calls_left() == old(self).calls_left(),
            final(self).program == old(self).program,
            final(self).next_term == old(self).next_term,
            final(self).next_dim == old(self).next_dim,
    {
        if self.optimized {
            if let Ok(Val::Pair(a, _)) = self.peek(p) {
                return *a;
            }
        }
        self.make(Val::Fst(p))
    }

    /// The second projection of `p`; when optimized, that of a stored pair directly.
    pub fn snd(&mut self, p: ValId) -> (r: ValId)
        requires
            old(self).inv(),
        ensures
            old(self).optimized && p.0 < old(self).values@.len() && old(self).values@[p.0 as int] is Pair ==> r
                == old(self).values@[p.0 as int]->Pair_1,
            !(old(self).optimized && p.0 < old(self).values@.len() && old(self).values@[p.0 as int] is Pair)
                ==> final(self).shape_at(r, Val::Snd(p)),
            final(self).inv(),
            final(self).fuel == old(self).fuel,
            arenas_grow(*old(self), *final(self)),
            final(self).calls_left() == old(self).calls_left(),
            final(self).program == old(self).program,
            final(self).next_term == old(self).next_term,
            final(self).next_dim == old(self).next_dim,
    {
        if self.optimized {
            if let Ok(Val::Pair(_, b)) = self.peek(p) {
                return *b;
            }
        }
        self.make(Val::Snd(p))
    }

    pub fn at(&mut self, p: ValId, d: Dim) -> (r: ValId)
        requires
            old(self).inv(),
        ensures
            final(self).shape_at(r, Val::PApp(p, d)),
            final(self).inv(),
            final(self).fuel == old(self).fuel,
            arenas_grow(*old(self), *final(self)),
            final(self).calls_left() == old(self).calls_left(),
            final(self).program == old(self).program,
            final(self).next_term == old(self).next_term,
            final(self).next_dim == old(self).next_dim,
    {
        self.make(Val::PApp(p, d))
    }

    pub fn inst(&mut self, b: &Binder, x: ValId) -> (r: Result<ValId>)
        requires
            old(self).inv(),
        ensures
            final(self).inv(),
            final(self).fuel == old(self).fuel,
            arenas_grow(*old(self), *final(self)),
            final(self).calls_left() <= old(self).calls_left(),
            r matches Ok(w) ==> !old(self).optimized ==> (final(self).values@[w.0 as int] matches Val::Sub(v, s) && v
                == b.body && final(self).subs@[s.0 as int].terms@ == seq![(b.var, x)]
                && final(self).subs@[s.0 as int].dims@.len() == 0 && final(self).subs@[s.0 as int].compose is None),
            !old(self).optimized && old(self).calls >= 3 ==> r is Ok,
        decreases old(self).calls_left(),
    {
        self.spend()?;
        let mut terms: Vec<(u32, ValId)> = Vec::new();
        terms.push((b.var, x));
        let s = self.substitution(Sub { terms, dims: Vec::new(), compose: None });
        self.sub(b.body, s)
    }

    pub fn inst_dim(&mut self, b: &Binder, d: Dim) -> (r: Result<ValId>)
        requires
            old(self).inv(),
        ensures
            final(self).inv(),
            final(self).fuel == old(self).fuel,
            arenas_grow(*old(self), *final(self)),
            final(self).calls_left() <= old(self).calls_left(),
            d == Dim::Var(b.var) && r is Ok ==> r == Ok::<ValId, Error>(b.body),
            r matches Ok(w) ==> !old(self).optimized && d != Dim::Var(b.var) ==> (final(self).values@[w.0 as int] matches Val::Sub(
                v,
                s,
            ) && v == b.body && sub_dim_of(final(self).subs@, s, Dim::Var(b.var)) == Some(d)),
            !old(self).optimized && old(self).calls >= 4 ==> r is Ok,
        decreases old(self).calls_left(),
    {
        self.spend()?;
        self.restrict(b.body, b.var, d)
    }

    /// Substitutes `d` for dimension variable `x` in `v`.
    pub fn restrict(&mut self, v: ValId, x: u32, d: Dim) -> (r: Result<ValId>)
        requires
            old(self).inv(),
        ensures
            final(self).inv(),
            final(self).fuel == old(self).fuel,
            arenas_grow(*old(self), *final(self)),
            final(self).calls_left() <= old(self).calls_left(),
            d == Dim::Var(x) ==> r == Ok::<ValId, Error>(v) && *final(self) == *old(self),
            !old(self).optimized && d != Dim::Var(x) && r is Ok ==> r->Ok_0.0 < final(self).values@.len(),
            !old(self).optimized && d != Dim::Var(x) && r is Ok ==> (final(self).values@[r->Ok_0.0 as int] matches Val::Sub(
                w,
                s,
            ) && w == v && sub_dim_of(final(self).subs@, s, Dim::Var(x)) == Some(d)),
            !old(self).optimized && old(self).calls >= 3 ==> r is Ok,
        decreases old(self).calls_left(),
    {
        if d == Dim::Var(x) {
            return Ok(v);
        }
        self.spend()?;
        let mut dims: Vec<(u32, Dim)> = Vec::new();
        dims.push((x, d));
        let s = self.substitution(Sub { terms: Vec::new(), dims, compose: None });
        self.sub(v, s)
    }

    pub fn sub(&mut self, v: ValId, s: SubId) -> (r: Result<ValId>)
        requires
            old(self).inv(),
        ensures
            final(self).inv(),
            final(self).fuel == old(self).fuel,
            arenas_grow(*old(self), *final(self)),
            final(self).calls_left() <= old(self).calls_left(),
            !old(self).optimized ==> !final(self).optimized,
            !old(self).optimized && r is Ok ==> final(self).values@ == old(self).values@.push(Val::Sub(v, s))
                && r->Ok_0.0 == old(self).values@.len() && final(self).subs@ == old(self).subs@,
            !old(self).optimized && old(self).calls >= 2 ==> r is Ok,
        decreases old(self).calls_left(),
    {
        self.spend()?;
        if self.optimized {
            if let Some(w) = self.sub_cache.get(&(v, s)) {
                return Ok(*w);
            }
        }
        let w = self.sub_uncached(v, s)?;
        if self.optimized {
            self.sub_cache.insert((v, s), w);
        }
        Ok(w)
    }

    fn sub_uncached(&mut self, v: ValId, s: SubId) -> (r: Result<ValId>)
        requires
            old(self).inv(),
        ensures
            final(self).inv(),
            final(self).fuel == old(self).fuel,
            arenas_grow(*old(self), *final(self)),
            final(self).calls_left() <= old(self).calls_left(),
            !old(self).optimized ==> !final(self).optimized,
            !old(self).optimized && r is Ok ==> final(self).values@ == old(self).values@.push(Val::Sub(v, s))
                && r->Ok_0.0 == old(self).values@.len() && final(self).subs@ == old(self).subs@,
            !old(self).optimized && old(self).calls >= 1 ==> r is Ok,
        decreases old(self).calls_left(),
    {
        self.spend()?;
        if self.optimized && !self.computing_support && self.irrelevant(v, s)? {
            return Ok(v);
        }
        if self.optimized {
            match self.get(v)? {
                Val::Pair(a, b) => {
                    let a = self.sub(a, s)?;
                    let b = self.sub(b, s)?;
                    return Ok(self.make(Val::Pair(a, b)));
                },
                Val::Var(x, ty) => {
                    if let Some(image) = self.sub_term(s, x)? {
                        return Ok(image);
                    }
                    let ty = match ty {
                        Some(t) => Some(self.sub(t, s)?),
                        None => None,
                    };
                    return Ok(self.make(Val::Var(x, ty)));
                },
                Val::U(_) | Val::Bool | Val::Nat | Val::True | Val::False | Val::Zero => {
                    return Ok(v);
                },
                Val::Susp(t, e) => {
                    let node = self.term_at(t)?;
                    let closed = match &node.term {
                        Term::Global(_) => true,
                        _ => {
                            let env = self.environment(e)?;
                            env.terms.len() == 0 && env.dims.len() == 0
                        },
                    };
                    if closed {
                        return Ok(v);
                    }
                },
                Val::Sub(w, first) => {
                    let s = self.substitution(Sub { terms: Vec::new(), dims: Vec::new(), compose: Some((first, s)) });
                    return Ok(self.make(Val::Sub(w, s)));
                },
                _ => {},
            }
        }
        Ok(self.make(Val::Sub(v, s)))
    }

    /// The image of dimension `d` under substitution `s`.
    pub fn sub_dim(&self, s: SubId, d: Dim) -> (r: Result<Dim>)
        ensures
            match sub_dim_of(self.subs@, s, d) {
                Some(x) => r == Ok::<Dim, Error>(x),
                None => r is Err,
            },
        decreases s.0,
    {
        if s.0 >= self.subs.len() {
            return Err(internal("internal error: unknown substitution"));
        }
        let sub = self.subs.get(s.0);
        if let Some((a, b)) = sub.compose {
            if a.0 >= s.0 || b.0 >= s.0 {
                return Err(internal("internal error: substitution refers to a later one"));
            }
            let first = self.sub_dim(a, d)?;
            return self.sub_dim(b, first);
        }
        if let Dim::Var(v) = d {
            let mut k: usize = 0;
            assert(sub.dims@.subrange(0, sub.dims@.len() as int) =~= sub.dims@);
            while k < sub.dims.len()
                invariant
                    k <= sub.dims@.len(),
                    first_image(sub.dims@, d) == first_image(sub.dims@.subrange(k as int, sub.dims@.len() as int), d),
                decreases sub.dims@.len() - k,
            {
                assert(sub.dims@.subrange(k as int, sub.dims@.len() as int).drop_first() =~= sub.dims@.subrange(
                    k + 1,
                    sub.dims@.len() as int,
                ));
                if sub.dims[k].0 == v {
                    return Ok(sub.dims[k].1);
                }
                k += 1;
            }
            assert(sub.dims@.subrange(k as int, sub.dims@.len() as int).len() == 0);
        } else {
            proof {
                lemma_first_image_fixed(sub.dims@, d);
            }
        }
        Ok(d)
    }

    /// The image of term variable `x` under substitution `s`, if `s` maps it.
    pub fn sub_term(&mut self, s: SubId, x: u32) -> (r: Result<Option<ValId>>)
        requires
            old(self).inv(),
        ensures
            final(self).inv(),
            final(self).fuel == old(self).fuel,
            arenas_grow(*old(self), *final(self)),
            final(self).calls_left() <= old(self).calls_left(),
            r is Ok ==> s.0 < old(self).subs@.len(),
            r matches Ok(o) ==> old(self).subs@[s.0 as int].compose is None ==> o == first_term_image(
                old(self).subs@[s.0 as int].terms@,
                x,
            ),
        decreases old(self).calls_left(),
    {
        self.spend()?;
        let sub = self.substitution_at(s)?;
        if let Some((a, b)) = sub.compose {
            return match self.sub_term(a, x)? {
                Some(v) => Ok(Some(self.sub(v, b)?)),
                None => self.sub_term(b, x),
            };
        }
        let mut k: usize = 0;
        assert(sub.terms@.subrange(0, sub.terms@.len() as int) =~= sub.terms@);
        while k < sub.terms.len()
            invariant
                k <= sub.terms@.len(),
                first_term_image(sub.terms@, x) == first_term_image(
                    sub.terms@.subrange(k as int, sub.terms@.len() as int),
                    x,
                ),
            decreases sub.terms@.len() - k,
        {
            assert(sub.terms@.subrange(k as int, sub.terms@.len() as int).drop_first() =~= sub.terms@.subrange(
                k + 1,
                sub.terms@.len() as int,
            ));
            if sub.terms[k].0 == x {
                return Ok(Some(sub.terms[k].1));
            }
            k += 1;
        }
        assert(sub.terms@.subrange(k as int, sub.terms@.len() as int).len() == 0);
        Ok(None)
    }

    /// Renames binder variable `old` to `new`, then applies `s`.
    fn renamed(&mut self, from: u32, new: u32, s: SubId, dim: bool) -> (r: SubId)
        requires
            old(self).inv(),
        ensures
            final(self).inv(),
            final(self).fuel == old(self).fuel,
            arenas_grow(*old(self), *final(self)),
            final(self).calls_left() == old(self).calls_left(),
            final(self).program == old(self).program,
            final(self).next_term == old(self).next_term,
            final(self).next_dim == old(self).next_dim,
            r.0 < final(self).subs@.len(),
            final(self).subs@[r.0 as int].terms@.len() == 0,
            final(self).subs@[r.0 as int].dims@.len() == 0,
            final(self).subs@[r.0 as int].compose matches Some((q, t)) && t == s && q.0 < final(self).subs@.len() && (
            dim ==> final(self).subs@[q.0 as int].dims@ == seq![(from, Dim::Var(new))]
                && final(self).subs@[q.0 as int].terms@.len() == 0) && (!dim ==> final(self).subs@[q.0 as int].dims@.len()
                == 0 && final(self).subs@[q.0 as int].terms@.len() == 1 && final(self).subs@[q.0 as int].terms@[0].0
                == from && final(self).shape_at(final(self).subs@[q.0 as int].terms@[0].1, Val::Var(new, None))),
    {
        let rename = if dim {
            Sub { terms: Vec::new(), dims: vec![(from, Dim::Var(new))], compose: None }
        } else {
            let v = self.make(Val::Var(new, None));
            Sub { terms: vec![(from, v)], dims: Vec::new(), compose: None }
        };
        let rename = self.substitution(rename);
        self.substitution(Sub { terms: Vec::new(), dims: Vec::new(), compose: Some((rename, s)) })
    }

    fn sub_binder(&mut self, b: Binder, s: SubId, dim: bool) -> (r: Result<Binder>)
        requires
            old(self).inv(),
        ensures
            final(self).inv(),
            final(self).fuel == old(self).fuel,
            arenas_grow(*old(self), *final(self)),
            final(self).calls_left() <= old(self).calls_left(),
            !old(self).optimized && old(self).calls >= 3 && (dim ==> old(self).next_dim < u32::MAX) && (!dim ==> old(
                self,
            ).next_term < u32::MAX) ==> r is Ok,
            r matches Ok(c) ==> (dim ==> c.var == old(self).next_dim) && (!dim ==> c.var == old(self).next_term),
        decreases old(self).calls_left(),
    {
        self.spend()?;
        let var = if dim {
            self.fresh_dim()?
        } else {
            self.fresh_term()?
        };
        let s = self.renamed(b.var, var, s, dim);
        let body = self.sub(b.body, s)?;
        Ok(Binder { var, body })
    }

    /// The image of face `f` under substitution `s`.
    pub fn sub_face(&mut self, f: FaceId, s: SubId) -> (r: Result<FaceId>)
        requires
            old(self).inv(),
        ensures
            final(self).inv(),
            final(self).fuel == old(self).fuel,
            arenas_grow(*old(self), *final(self)),
            final(self).calls_left() == old(self).calls_left(),
            r is Ok <==> old(self).faces.valid(f) && forall|d: Dim|
                #[trigger] crate::face::mentions(old(self).faces@, f.0 as int, d) ==> sub_dim_of(
                    old(self).subs@,
                    s,
                    d,
                ) is Some,
            r matches Ok(g) ==> {
                &&& final(self).faces.valid(g)
                &&& forall|rho: spec_fn(u32) -> int|
                    #[trigger] final(self).faces.holds(g, rho) == old(self).faces.holds(
                        f,
                        sub_assignment(old(self).subs@, s, rho),
                    )
            },
    {
        self.valid_face(f)?;
        let ghost subs = self.subs@;
        let ghost before = self.faces@;
        let dims = self.faces.dimensions(f);
        let mut table: Vec<(Dim, Dim)> = Vec::new();
        let mut k: usize = 0;
        while k < dims.len()
            invariant
                k <= dims@.len(),
                table@.len() == k,
                subs == self.subs@,
                forall|j: int|
                    0 <= j < k ==> (#[trigger] table@[j]).0 == dims@[j] && sub_dim_of(subs, s, dims@[j]) == Some(
                        table@[j].1,
                    ),
            decreases dims@.len() - k,
        {
            let image = match self.sub_dim(s, dims[k]) {
                Ok(x) => x,
                Err(e) => {
                    proof {
                        assert(dims@.contains(dims@[k as int]));
                        assert(crate::face::mentions(before, f.0 as int, dims@[k as int]));
                    }
                    return Err(e);
                },
            };
            table.push((dims[k], image));
            k += 1;
        }
        let g = self.faces.substitute(f, table.as_slice());
        proof {
            let img = |e: Dim| sub_dim_of(subs, s, e)->0;
            assert forall|e: Dim| #[trigger] crate::face::mentions(before, f.0 as int, e) implies sub_dim_of(
                subs,
                s,
                e,
            ) is Some by {
                assert(dims@.contains(e));
                let j = choose|j: int| 0 <= j < dims@.len() && dims@[j] == e;
                assert(table@[j].0 == e);
            }
            assert forall|rho: spec_fn(u32) -> int|
                #[trigger] self.faces.holds(g, rho) == crate::face::face_holds(
                    before,
                    f.0 as int,
                    sub_assignment(subs, s, rho),
                ) by {
                let sigma = sub_assignment(subs, s, rho);
                assert forall|e: Dim| #[trigger] crate::face::mentions(before, f.0 as int, e) implies crate::face::dim_val(
                    crate::face::lookup_dim(table@, e),
                    rho,
                ) == crate::face::dim_val(e, sigma) by {
                    assert(dims@.contains(e));
                    let j = choose|j: int| 0 <= j < dims@.len() && dims@[j] == e;
                    assert(table@[j].0 == e);
                    lemma_lookup_graph(table@, e, img);
                    if !(e is Var) {
                        lemma_sub_fixed(subs, s, e);
                    }
                }
                crate::face::lemma_holds_sub(before, f.0 as int, table@, rho, sigma);
            }
        }
        Ok(g)
    }

    /// Substitutes `d` for dimension variable `x` in face `f`.
    pub fn restrict_face(&mut self, f: FaceId, x: u32, d: Dim) -> (r: Result<FaceId>)
        requires
            old(self).inv(),
        ensures
            final(self).inv(),
            final(self).fuel == old(self).fuel,
            arenas_grow(*old(self), *final(self)),
            final(self).calls_left() == old(self).calls_left(),
            r is Ok <==> old(self).faces.valid(f),
            r matches Ok(g) ==> {
                &&& final(self).faces.valid(g)
                &&& forall|rho: spec_fn(u32) -> int|
                    #[trigger] final(self).faces.holds(g, rho) == old(self).faces.holds(
                        f,
                        crate::face::update(rho, x, crate::face::dim_val(d, rho)),
                    )
            },
    {
        self.valid_face(f)?;
        let mut table: Vec<(Dim, Dim)> = Vec::new();
        table.push((Dim::Var(x), d));
        let ghost before = self.faces@;
        let g = self.faces.substitute(f, table.as_slice());
        proof {
            assert forall|rho: spec_fn(u32) -> int|
                #[trigger] self.faces.holds(g, rho) == crate::face::face_holds(
                    before,
                    f.0 as int,
                    crate::face::update(rho, x, crate::face::dim_val(d, rho)),
                ) by {
                let sigma = crate::face::update(rho, x, crate::face::dim_val(d, rho));
                assert forall|e: Dim| #[trigger] crate::face::mentions(before, f.0 as int, e) implies crate::face::dim_val(
                    crate::face::lookup_dim(table@, e),
                    rho,
                ) == crate::face::dim_val(e, sigma) by {
                    assert(table@.drop_first().len() == 0);
                    assert(crate::face::lookup_dim(table@.drop_first(), e) == e);
                }
                crate::face::lemma_holds_sub(before, f.0 as int, table@, rho, sigma);
            }
        }
        Ok(g)
    }

    pub fn push(&mut self, v: ValId, s: SubId) -> (r: Result<ValId>)
        requires
            old(self).inv(),
        ensures
            final(self).inv(),
            final(self).fuel == old(self).fuel,
            arenas_grow(*old(self), *final(self)),
            final(self).calls_left() <= old(self).calls_left(),
            r matches Ok(w) ==> !old(self).optimized ==> pushes_to(*old(self), *final(self), v, s, w),
        decreases old(self).calls_left(),
    {
        self.spend()?;
        if self.optimized {
            if let Some(w) = self.push_cache.get(&(v, s)) {
                return Ok(*w);
            }
        }
        let w = self.push_uncached(v, s)?;
        if self.optimized {
            self.push_cache.insert((v, s), w);
        }
        Ok(w)
    }

    /// Applies `s` to every component of a vector of branches.
    fn sub_branches(&mut self, bs: &Vec<(FaceId, ValId)>, s: SubId, inner: SubId) -> (r: Result<Vec<(FaceId, ValId)>>)
        requires
            old(self).inv(),
        ensures
            final(self).inv(),
            final(self).fuel == old(self).fuel,
            arenas_grow(*old(self), *final(self)),
            final(self).calls_left() <= old(self).calls_left(),
        decreases old(self).calls_left(),
    {
        self.spend()?;
        let mut out: Vec<(FaceId, ValId)> = Vec::new();
        let mut k: usize = 0;
        while k < bs.len()
            invariant
                self.inv(),
                self.fuel == old(self).fuel,
                arenas_grow(*old(self), *self),
                self.calls_left() < old(self).calls_left(),
                k <= bs@.len(),
            decreases bs@.len() - k,
        {
            let f = self.sub_face(bs[k].0, s)?;
            let v = self.sub(bs[k].1, inner)?;
            out.push((f, v));
            k += 1;
        }
        Ok(out)
    }

    fn push_uncached(&mut self, v: ValId, s: SubId) -> (r: Result<ValId>)
        requires
            old(self).inv(),
        ensures
            final(self).inv(),
            final(self).fuel == old(self).fuel,
            arenas_grow(*old(self), *final(self)),
            final(self).calls_left() <= old(self).calls_left(),
            r matches Ok(w) ==> pushes_to(*old(self), *final(self), v, s, w),
        decreases old(self).calls_left(),
    {
        self.spend()?;
        let out = match self.get(v)? {
            Val::Sub(w, t) => {
                let inner = self.push(w, t)?;
                return self.sub(inner, s);
            },
            Val::Susp(t, e) => {
                let env = self.environment(e)?;
                let mut terms: Vec<ValId> = Vec::new();
                let mut k: usize = 0;
                while k < env.terms.len()
                    invariant
                        self.inv(),
                        self.fuel == old(self).fuel,
                        arenas_grow(*old(self), *self),
                        self.calls_left() < old(self).calls_left(),
                        k <= env.terms@.len(),
                    decreases env.terms@.len() - k,
                {
                    let w = self.sub(env.terms[k], s)?;
                    terms.push(w);
                    k += 1;
                }
                let mut dims: Vec<Dim> = Vec::new();
                let mut k: usize = 0;
                while k < env.dims.len()
                    invariant
                        k <= env.dims@.len(),
                    decreases env.dims@.len() - k,
                {
                    let d = self.sub_dim(s, env.dims[k])?;
                    dims.push(d);
                    k += 1;
                }
                let e = self.env(Env { terms, dims });
                return self.thunk(t, e);
            },
            Val::Var(x, ty) => {
                if let Some(w) = self.sub_term(s, x)? {
                    return Ok(w);
                }
                let ty = match ty {
                    Some(t) => Some(self.sub(t, s)?),
                    None => None,
                };
                Val::Var(x, ty)
            },
            Val::U(_) | Val::Bool | Val::Nat | Val::True | Val::False | Val::Zero => {
                return Ok(v);
            },
            Val::Pi(a, b) => {
                let a = self.sub(a, s)?;
                let b = self.sub_binder(b, s, false)?;
                Val::Pi(a, b)
            },
            Val::Sigma(a, b) => {
                let a = self.sub(a, s)?;
                let b = self.sub_binder(b, s, false)?;
                Val::Sigma(a, b)
            },
            Val::Lam(b) => Val::Lam(self.sub_binder(b, s, false)?),
            Val::PLam(b) => Val::PLam(self.sub_binder(b, s, true)?),
            Val::Path(b, l, r) => {
                let b = self.sub_binder(b, s, true)?;
                let l = self.sub(l, s)?;
                let r = self.sub(r, s)?;
                Val::Path(b, l, r)
            },
            Val::App(a, b) => {
                let a = self.sub(a, s)?;
                let b = self.sub(b, s)?;
                Val::App(a, b)
            },
            Val::Pair(a, b) => {
                let a = self.sub(a, s)?;
                let b = self.sub(b, s)?;
                Val::Pair(a, b)
            },
            Val::Fst(a) => Val::Fst(self.sub(a, s)?),
            Val::Snd(a) => Val::Snd(self.sub(a, s)?),
            Val::Suc(a) => Val::Suc(self.sub(a, s)?),
            Val::If(p, a, b, c) => {
                let p = self.sub(p, s)?;
                let a = self.sub(a, s)?;
                let b = self.sub(b, s)?;
                let c = self.sub(c, s)?;
                Val::If(p, a, b, c)
            },
            Val::NatElim(p, a, b, c) => {
                let p = self.sub(p, s)?;
                let a = self.sub(a, s)?;
                let b = self.sub(b, s)?;
                let c = self.sub(c, s)?;
                Val::NatElim(p, a, b, c)
            },
            Val::PApp(p, d) => {
                let p = self.sub(p, s)?;
                let d = self.sub_dim(s, d)?;
                Val::PApp(p, d)
            },
            Val::System(a, bs) => {
                let a = self.sub(a, s)?;
                let bs = self.sub_branches(&bs, s, s)?;
                Val::System(a, bs)
            },
            Val::Glue(a, bs) => {
                let a = self.sub(a, s)?;
                let mut out: Vec<(FaceId, ValId, ValId)> = Vec::new();
                let mut k: usize = 0;
                while k < bs.len()
                    invariant
                        self.inv(),
                        self.fuel == old(self).fuel,
                        arenas_grow(*old(self), *self),
                        self.calls_left() < old(self).calls_left(),
                        k <= bs@.len(),
                    decreases bs@.len() - k,
                {
                    let f = self.sub_face(bs[k].0, s)?;
                    let t = self.sub(bs[k].1, s)?;
                    let e = self.sub(bs[k].2, s)?;
                    out.push((f, t, e));
                    k += 1;
                }
                Val::Glue(a, out)
            },
            Val::GlueIntro(a, bs) => {
                let a = self.sub(a, s)?;
                let bs = self.sub_branches(&bs, s, s)?;
                Val::GlueIntro(a, bs)
            },
            Val::Unglue(g, w) => {
                let g = self.sub(g, s)?;
                let w = self.sub(w, s)?;
                Val::Unglue(g, w)
            },
            Val::Com(c) => {
                let dim = self.fresh_dim()?;
                let inner = self.renamed(c.dim, dim, s, true);
                let family = self.sub(c.family, inner)?;
                let from = self.sub_dim(s, c.from)?;
                let to = self.sub_dim(s, c.to)?;
                let ghost at_images = *self;
                let cap = self.sub(c.cap, s)?;
                let tubes = self.sub_branches(&c.tubes, s, inner)?;
                let w = self.make(Val::Com(Composition { dim, family, from, to, cap, tubes }));
                proof {
                    lemma_sub_dim_stable(at_images.subs@, self.subs@, s, c.from);
                    lemma_sub_dim_stable(at_images.subs@, self.subs@, s, c.to);
                }
                return Ok(w);
            },
        };
        Ok(self.make(out))
    }

    pub fn unfold(&mut self, t: TermId, e: EnvId) -> (r: Result<ValId>)
        requires
            old(self).inv(),
        ensures
            final(self).inv(),
            final(self).fuel == old(self).fuel,
            arenas_grow(*old(self), *final(self)),
            final(self).calls_left() <= old(self).calls_left(),
            r matches Ok(v) ==> !old(self).optimized ==> t.0 < old(self).program.terms@.len() && evaluates_to(
                *old(self),
                *final(self),
                old(self).program.terms@[t.0 as int].term,
                e,
                v,
            ),
    {
        if self.optimized {
            if let Some(v) = self.unfold_cache.get(&(t, e)) {
                return Ok(*v);
            }
        }
        let v = self.unfold_uncached(t, e)?;
        if self.optimized {
            self.unfold_cache.insert((t, e), v);
        }
        Ok(v)
    }

    fn eval_branches(&mut self, bs: &Vec<(F, TermId)>, e: EnvId, body_env: EnvId) -> (r: Result<Vec<(FaceId, ValId)>>)
        requires
            old(self).inv(),
        ensures
            final(self).inv(),
            final(self).fuel == old(self).fuel,
            arenas_grow(*old(self), *final(self)),
            final(self).calls_left() == old(self).calls_left(),
    {
        let mut out: Vec<(FaceId, ValId)> = Vec::new();
        let mut k: usize = 0;
        while k < bs.len()
            invariant
                self.inv(),
                self.fuel == old(self).fuel,
                arenas_grow(*old(self), *self),
                self.calls_left() == old(self).calls_left(),
                k <= bs@.len(),
            decreases bs@.len() - k,
        {
            let f = self.face(&bs[k].0, e)?;
            let v = self.thunk(bs[k].1, body_env)?;
            out.push((f, v));
            k += 1;
        }
        Ok(out)
    }

    #[verifier::rlimit(100)]
    #[verifier::spinoff_prover]
    fn unfold_uncached(&mut self, t: TermId, e: EnvId) -> (r: Result<ValId>)
        requires
            old(self).inv(),
        ensures
            final(self).inv(),
            final(self).fuel == old(self).fuel,
            arenas_grow(*old(self), *final(self)),
            final(self).calls_left() == old(self).calls_left(),
            r matches Ok(v) ==> t.0 < old(self).program.terms@.len() && evaluates_to(
                *old(self),
                *final(self),
                old(self).program.terms@[t.0 as int].term,
                e,
                v,
            ),
            t.0 < old(self).program.terms@.len() ==> (literal(old(self).program.terms@[t.0 as int].term) matches Some(x)
                ==> (r matches Ok(v) && final(self).shape_at(v, x))),
            !old(self).optimized && t.0 < old(self).program.terms@.len() ==> match old(self).program.terms@[t.0 as int].term {
                Term::App(_, _) | Term::Pair(_, _) | Term::Fst(_) | Term::Snd(_) | Term::Suc(_) | Term::Ann(_, _) | Term::If(
                    _,
                    _,
                    _,
                    _,
                ) | Term::NatElim(_, _, _, _) | Term::Unglue(_, _) => r is Ok,
                _ => true,
            },
    {
        let node = self.term_at(t)?;
        let ghost n = old(self).program.terms@;
        let ghost o = old(self).optimized;
        let val = match &node.term {
            Term::Var(i) => {
                if e.0 >= self.envs.len() {
                    return Err(internal("internal error: unknown environment"));
                }
                let ts = &self.envs.get(e.0).terms;
                if *i < ts.len() {
                    return Ok(ts[ts.len() - 1 - *i]);
                }
                return Err(internal("internal error: unbound variable"));
            },
            Term::Global(i) => {
                if let Some(v) = self.globals.get(i) {
                    return Ok(*v);
                }
                let program: &'a Program = self.program;
                if *i >= program.decls.len() {
                    return Err(internal("internal error: unknown declaration"));
                }
                let env = self.env(Env::empty());
                let v = self.thunk(program.decls[*i].body, env)?;
                self.globals.insert(*i, v);
                return Ok(v);
            },
            Term::U(n) => Val::U(*n),
            Term::Bool => Val::Bool,
            Term::True => Val::True,
            Term::False => Val::False,
            Term::Nat => Val::Nat,
            Term::Zero => Val::Zero,
            Term::Pi(a, b) => {
                let ghost ta = *a;
                let a = self.thunk(*a, e)?;
                let ghost s1 = *self;
                let b = self.term_binder(*b, e, Some(a))?;
                proof {
                    lemma_denotes_stable(s1, *self, n, o, a, ta, e);
                }
                Val::Pi(a, b)
            },
            Term::Sigma(a, b) => {
                let ghost ta = *a;
                let a = self.thunk(*a, e)?;
                let ghost s1 = *self;
                let b = self.term_binder(*b, e, Some(a))?;
                proof {
                    lemma_denotes_stable(s1, *self, n, o, a, ta, e);
                }
                Val::Sigma(a, b)
            },
            Term::Lam(b) => Val::Lam(self.term_binder(*b, e, None)?),
            Term::PLam(b) => Val::PLam(self.dim_binder(*b, e)?),
            Term::App(a, b) => {
                let ghost ta = *a;
                let a = self.thunk(*a, e)?;
                let ghost s1 = *self;
                let b = self.thunk(*b, e)?;
                proof {
                    lemma_denotes_stable(s1, *self, n, o, a, ta, e);
                }
                Val::App(a, b)
            },
            Term::Pair(a, b) => {
                let ghost ta = *a;
                let a = self.thunk(*a, e)?;
                let ghost s1 = *self;
                let b = self.thunk(*b, e)?;
                proof {
                    lemma_denotes_stable(s1, *self, n, o, a, ta, e);
                }
                Val::Pair(a, b)
            },
            Term::Fst(a) => Val::Fst(self.thunk(*a, e)?),
            Term::Snd(a) => Val::Snd(self.thunk(*a, e)?),
            Term::Suc(a) => Val::Suc(self.thunk(*a, e)?),
            Term::Ann(a, _) => {
                return self.thunk(*a, e);
            },
            Term::If(p, a, b, c) => {
                let ghost (tp, ta, tb) = (*p, *a, *b);
                let p = self.thunk(*p, e)?;
                let ghost s1 = *self;
                let a = self.thunk(*a, e)?;
                let ghost s2 = *self;
                let b = self.thunk(*b, e)?;
                let ghost s3 = *self;
                let c = self.thunk(*c, e)?;
                proof {
                    lemma_denotes_stable(s1, *self, n, o, p, tp, e);
                    lemma_denotes_stable(s2, *self, n, o, a, ta, e);
                    lemma_denotes_stable(s3, *self, n, o, b, tb, e);
                }
                Val::If(p, a, b, c)
            },
            Term::NatElim(p, a, b, c) => {
                let ghost (tp, ta, tb) = (*p, *a, *b);
                let p = self.thunk(*p, e)?;
                let ghost s1 = *self;
                let a = self.thunk(*a, e)?;
                let ghost s2 = *self;
                let b = self.thunk(*b, e)?;
                let ghost s3 = *self;
                let c = self.thunk(*c, e)?;
                proof {
                    lemma_denotes_stable(s1, *self, n, o, p, tp, e);
                    lemma_denotes_stable(s2, *self, n, o, a, ta, e);
                    lemma_denotes_stable(s3, *self, n, o, b, tb, e);
                }
                Val::NatElim(p, a, b, c)
            },
            Term::Path(a, l, r) => {
                let b = self.dim_binder(*a, e)?;
                let ghost tl = *l;
                let l = self.thunk(*l, e)?;
                let ghost s1 = *self;
                let r = self.thunk(*r, e)?;
                proof {
                    lemma_denotes_stable(s1, *self, n, o, l, tl, e);
                }
                Val::Path(b, l, r)
            },
            Term::PApp(a, d) => {
                let ghost ta = *a;
                let a = self.thunk(*a, e)?;
                let ghost s1 = *self;
                let d = self.dim(*d, e)?;
                proof {
                    lemma_denotes_stable(s1, *self, n, o, a, ta, e);
                }
                Val::PApp(a, d)
            },
            Term::Com { family, from, to, cap, tubes } => {
                let b = self.dim_binder(*family, e)?;
                let mut env = self.environment(e)?;
                env.dims.push(Dim::Var(b.var));
                let extended = self.env(env);
                let from = self.dim(*from, e)?;
                let to = self.dim(*to, e)?;
                let ghost tc = *cap;
                let cap = self.thunk(*cap, e)?;
                let ghost s1 = *self;
                let tubes = self.eval_branches(tubes, e, extended)?;
                proof {
                    lemma_denotes_stable(s1, *self, n, o, cap, tc, e);
                }
                Val::Com(Composition { dim: b.var, family: b.body, from, to, cap, tubes })
            },
            Term::System(a, bs) => {
                let ghost ta = *a;
                let a = self.thunk(*a, e)?;
                let ghost s1 = *self;
                let bs = self.eval_branches(bs, e, e)?;
                proof {
                    lemma_denotes_stable(s1, *self, n, o, a, ta, e);
                }
                Val::System(a, bs)
            },
            Term::Glue(a, bs) => {
                let ghost ta = *a;
                let a = self.thunk(*a, e)?;
                let ghost s1 = *self;
                let mut out: Vec<(FaceId, ValId, ValId)> = Vec::new();
                let mut k: usize = 0;
                while k < bs.len()
                    invariant
                        self.inv(),
                        self.fuel == old(self).fuel,
                        arenas_grow(*old(self), *self),
                        self.calls_left() == old(self).calls_left(),
                        k <= bs@.len(),
                        arenas_grow(s1, *self),
                        denotes(s1, n, o, a, ta, e),
                    decreases bs@.len() - k,
                {
                    let f = self.face(&bs[k].0, e)?;
                    let x = self.thunk(bs[k].1, e)?;
                    let q = self.thunk(bs[k].2, e)?;
                    out.push((f, x, q));
                    k += 1;
                }
                proof {
                    lemma_denotes_stable(s1, *self, n, o, a, ta, e);
                }
                Val::Glue(a, out)
            },
            Term::GlueIntro(_, a, bs) => {
                let ghost ta = *a;
                let a = self.thunk(*a, e)?;
                let ghost s1 = *self;
                let bs = self.eval_branches(bs, e, e)?;
                proof {
                    lemma_denotes_stable(s1, *self, n, o, a, ta, e);
                }
                Val::GlueIntro(a, bs)
            },
            Term::Unglue(g, v) => {
                let ghost tg = *g;
                let g = self.thunk(*g, e)?;
                let ghost s1 = *self;
                let v = self.thunk(*v, e)?;
                proof {
                    lemma_denotes_stable(s1, *self, n, o, g, tg, e);
                }
                Val::Unglue(g, v)
            },
        };
        let ghost pre = *self;
        let ghost gv = val;
        let res = self.make(val);
        proof {
            lemma_val_for_stable(pre, *self, n, o, node.term, e, gv, self.values@[res.0 as int]);
        }
        Ok(res)
    }

    /// Exposes ordinary beta redexes without expanding Kan operations. This is
    /// used only as a sufficient congruence shortcut, never as a normalizer.
    pub fn beta_head(&mut self, v: ValId) -> (r: Result<ValId>)
        requires
            old(self).inv(),
        ensures
            final(self).inv(),
            final(self).fuel == old(self).fuel,
            arenas_grow(*old(self), *final(self)),
            final(self).calls_left() <= old(self).calls_left(),
            r matches Ok(w) ==> head_exposed(final(self).values@, w),
            r matches Ok(w) ==> v.0 < old(self).values@.len() && is_canonical(old(self).values@[v.0 as int]) ==> w == v,
        decreases old(self).calls_left(),
    {
        self.spend()?;
        let ghost original = v;
        let mut v = v;
        loop
            invariant
                self.inv(),
                self.fuel == old(self).fuel,
                arenas_grow(*old(self), *self),
                self.calls_left() < old(self).calls_left(),
                original.0 < old(self).values@.len() && is_canonical(old(self).values@[original.0 as int]) ==> v == original,
            decreases self.calls_left(),
        {
            self.tick()?;
            self.spend()?;
            v = match self.get(v)? {
                Val::Susp(t, e) => self.unfold(t, e)?,
                Val::Sub(w, s) => self.push(w, s)?,
                Val::App(f, a) => {
                    let f = self.beta_head(f)?;
                    if let Val::Lam(b) = self.get(f)? {
                        self.inst(&b, a)?
                    } else {
                        return Ok(self.make(Val::App(f, a)));
                    }
                },
                Val::Fst(p) => {
                    let p = self.beta_head(p)?;
                    if let Val::Pair(a, _) = self.get(p)? {
                        a
                    } else {
                        return Ok(self.make(Val::Fst(p)));
                    }
                },
                Val::Snd(p) => {
                    let p = self.beta_head(p)?;
                    if let Val::Pair(_, b) = self.get(p)? {
                        b
                    } else {
                        return Ok(self.make(Val::Snd(p)));
                    }
                },
                Val::PApp(p, d) => {
                    let p = self.beta_head(p)?;
                    if let Val::PLam(b) = self.get(p)? {
                        self.inst_dim(&b, d)?
                    } else {
                        return Ok(self.make(Val::PApp(p, d)));
                    }
                },
                _ => {
                    return Ok(v);
                },
            };
        }
    }

    /// Whether `v` is a suspension of a reference to a declaration, and which.
    fn global_of(&self, v: &Val) -> (r: Option<usize>)
        requires
            self.inv(),
        ensures
            r is Some ==> v is Susp,
            r == (match *v {
                Val::Susp(t, _) => if t.0 < self.program.terms@.len() {
                    match self.program.terms@[t.0 as int].term {
                        Term::Global(i) => Some(i),
                        _ => None,
                    }
                } else {
                    None
                },
                _ => None,
            }),
    {
        if let Val::Susp(t, _) = v {
            if let Ok(node) = self.term_at(*t) {
                if let Term::Global(i) = node.term {
                    return Some(i);
                }
            }
        }
        None
    }

    /// A sufficient syntactic equality check before unfolding definitions.
    /// Failure is inconclusive; ordinary typed conversion is still required.
    pub fn same(&mut self, a: ValId, b: ValId, face: FaceId, depth: usize) -> (r: Result<bool>)
        requires
            old(self).inv(),
        ensures
            final(self).inv(),
            final(self).fuel == old(self).fuel,
            arenas_grow(*old(self), *final(self)),
            final(self).calls_left() <= old(self).calls_left(),
            r is Ok && a == b ==> r == Ok::<bool, Error>(true),
            r is Ok && a != b && depth == 0 ==> r == Ok::<bool, Error>(false),
            old(self).budget_allows(1) && a == b ==> r == Ok::<bool, Error>(true),
            old(self).budget_allows(1) && a != b && depth == 0 ==> r == Ok::<bool, Error>(false),
            r matches Ok(eq) ==> a != b && depth > 0 ==> a.0 < old(self).values@.len() && b.0 < old(self).values@.len()
                && match (old(self).values@[a.0 as int], old(self).values@[b.0 as int]) {
                (Val::Var(x, _), Val::Var(y, _)) => eq == (x == y),
                (Val::U(x), Val::U(y)) => eq == (x == y),
                (Val::Bool, Val::Bool) | (Val::Nat, Val::Nat) | (Val::Zero, Val::Zero) | (Val::True, Val::True) | (
                    Val::False,
                    Val::False,
                ) => eq,
                _ => true,
            },
            r matches Ok(eq) ==> distinct_atoms(old(self).values@, a, b) ==> !eq,
            r matches Ok(eq) ==> binders_apart(old(self).values@, a, b) ==> !eq,
            old(self).budget_for(1, 1) && depth > 0 && equal_atoms(old(self).values@, a, b) ==> r == Ok::<bool, Error>(true),
        decreases old(self).calls_left(),
    {
        self.spend()?;
        self.tick()?;
        if a == b {
            return Ok(true);
        }
        if depth == 0 {
            return Ok(false);
        }
        let depth = depth - 1;
        let va = self.get(a)?;
        let vb = self.get(b)?;
        if let (Some(i), Some(j)) = (self.global_of(&va), self.global_of(&vb)) {
            if i == j {
                return Ok(true);
            }
        }
        // Apply substitutions before consulting the ambient face. Cancelling
        // a shared substitution is invalid when it changes that face.
        if let Val::Sub(v, s) = va {
            let v = self.push(v, s)?;
            return self.same(v, b, face, depth);
        }
        if let Val::Sub(v, s) = vb {
            let v = self.push(v, s)?;
            return self.same(a, v, face, depth);
        }
        if let Val::Susp(t, e) = va {
            let v = self.unfold(t, e)?;
            return self.same(v, b, face, depth);
        }
        if let Val::Susp(t, e) = vb {
            let v = self.unfold(t, e)?;
            return self.same(a, v, face, depth);
        }
        match (va, vb) {
            (Val::Var(x, _), Val::Var(y, _)) => Ok(x == y),
            (Val::U(x), Val::U(y)) => Ok(x == y),
            (Val::Bool, Val::Bool) | (Val::Nat, Val::Nat) | (Val::Zero, Val::Zero) | (Val::True, Val::True)
            | (Val::False, Val::False) => Ok(true),
            (Val::App(f, x), Val::App(g, y)) | (Val::Pair(f, x), Val::Pair(g, y)) | (
                Val::Unglue(f, x),
                Val::Unglue(g, y),
            ) => Ok(self.same(f, g, face, depth)? && self.same(x, y, face, depth)?),
            (Val::Fst(x), Val::Fst(y)) | (Val::Snd(x), Val::Snd(y)) | (Val::Suc(x), Val::Suc(y)) => self.same(
                x,
                y,
                face,
                depth,
            ),
            (Val::PApp(p, i), Val::PApp(q, j)) => Ok(self.dims_equal(face, i, j)? && self.same(
                p,
                q,
                face,
                depth,
            )?),
            (Val::Lam(x), Val::Lam(y)) => {
                let var = self.fresh_term()?;
                let v = self.make(Val::Var(var, None));
                let x = self.inst(&x, v)?;
                let y = self.inst(&y, v)?;
                self.same(x, y, face, depth)
            },
            (Val::PLam(x), Val::PLam(y)) => {
                let i = self.fresh_dim()?;
                let x = self.inst_dim(&x, Dim::Var(i))?;
                let y = self.inst_dim(&y, Dim::Var(i))?;
                self.same(x, y, face, depth)
            },
            (Val::Pi(a, x), Val::Pi(b, y)) | (Val::Sigma(a, x), Val::Sigma(b, y)) => {
                if !self.same(a, b, face, depth)? {
                    return Ok(false);
                }
                let var = self.fresh_term()?;
                let v = self.make(Val::Var(var, None));
                let x = self.inst(&x, v)?;
                let y = self.inst(&y, v)?;
                self.same(x, y, face, depth)
            },
            (Val::Path(x, a, b), Val::Path(y, c, d)) => {
                if !self.same(a, c, face, depth)? || !self.same(b, d, face, depth)? {
                    return Ok(false);
                }
                let i = self.fresh_dim()?;
                let x = self.inst_dim(&x, Dim::Var(i))?;
                let y = self.inst_dim(&y, Dim::Var(i))?;
                self.same(x, y, face, depth)
            },
            (Val::Com(x), Val::Com(y)) => self.same_com(x, y, face, depth),
            _ => {
                let x = self.beta_head(a)?;
                let y = self.beta_head(b)?;
                if x == a && y == b {
                    Ok(false)
                } else {
                    self.same(x, y, face, depth)
                }
            },
        }
    }

    fn same_com(&mut self, x: Composition, y: Composition, face: FaceId, depth: usize) -> (r: Result<bool>)
        requires
            old(self).inv(),
        ensures
            final(self).inv(),
            final(self).fuel == old(self).fuel,
            arenas_grow(*old(self), *final(self)),
            final(self).calls_left() <= old(self).calls_left(),
            old(self).calls > 0 && x.tubes@.len() != y.tubes@.len() ==> r == Ok::<bool, Error>(false),
            r == Ok::<bool, Error>(true) ==> x.tubes@.len() == y.tubes@.len(),
        decreases old(self).calls_left(),
    {
        self.spend()?;
        if x.tubes.len() != y.tubes.len() || !self.dims_equal(face, x.from, y.from)? || !self.dims_equal(
            face,
            x.to,
            y.to,
        )? || !self.same(x.cap, y.cap, face, depth)? {
            return Ok(false);
        }
        let i = self.fresh_dim()?;
        let d = Dim::Var(i);
        let a = self.restrict(x.family, x.dim, d)?;
        let b = self.restrict(y.family, y.dim, d)?;
        if !self.same(a, b, face, depth)? {
            return Ok(false);
        }
        let mut k: usize = 0;
        while k < x.tubes.len()
            invariant
                self.inv(),
                self.fuel == old(self).fuel,
                arenas_grow(*old(self), *self),
                self.calls_left() < old(self).calls_left(),
                x.tubes@.len() == y.tubes@.len(),
                k <= x.tubes@.len(),
            decreases x.tubes@.len() - k,
        {
            let (f, a) = x.tubes[k];
            let (g, b) = y.tubes[k];
            k += 1;
            let f = self.face_and(face, f)?;
            let g = self.face_and(face, g)?;
            if !self.entails(f, g)? || !self.entails(g, f)? {
                return Ok(false);
            }
            if self.inconsistent(f)? {
                continue;
            }
            let a = self.restrict(a, x.dim, d)?;
            let b = self.restrict(b, y.dim, d)?;
            if !self.same(a, b, f, depth)? {
                return Ok(false);
            }
        }
        Ok(true)
    }

    pub fn force(&mut self, original: ValId, face: FaceId) -> (r: Result<ValId>)
        requires
            old(self).inv(),
        ensures
            final(self).inv(),
            final(self).fuel == old(self).fuel,
            arenas_grow(*old(self), *final(self)),
            final(self).calls_left() <= old(self).calls_left(),
            r matches Ok(w) ==> original.0 < old(self).values@.len() && is_canonical(old(self).values@[original.0 as int])
                ==> w == original,
            r matches Ok(w) ==> w.0 < final(self).values@.len() && !(final(self).values@[w.0 as int] is Susp)
                && !(final(self).values@[w.0 as int] is Sub),
            old(self).settles_at(original, 4) ==> r == Ok::<ValId, Error>(original),
            old(self).budget_for(4, 2) && original.0 < old(self).values@.len() && is_canonical(
                old(self).values@[original.0 as int],
            ) ==> r == Ok::<ValId, Error>(original) && cheap(*old(self), *final(self), 4, 2),
            r matches Ok(w) ==> suspended_literal(*old(self), original) matches Some(x) ==> final(self).values@[w.0 as int]
                == x,
        decreases old(self).calls_left(),
    {
        self.spend()?;
        self.force_head(original, face, false)
    }

    /// Forces `original`, keeping a Glue type rather than reducing it on its faces.
    pub fn force_glue(&mut self, original: ValId, face: FaceId) -> (r: Result<ValId>)
        requires
            old(self).inv(),
        ensures
            final(self).inv(),
            final(self).fuel == old(self).fuel,
            arenas_grow(*old(self), *final(self)),
            final(self).calls_left() <= old(self).calls_left(),
            r matches Ok(w) ==> original.0 < old(self).values@.len() && is_canonical(old(self).values@[original.0 as int])
                ==> w == original,
            r matches Ok(w) ==> w.0 < final(self).values@.len() && !(final(self).values@[w.0 as int] is Susp)
                && !(final(self).values@[w.0 as int] is Sub),
            old(self).settles_at(original, 4) ==> r == Ok::<ValId, Error>(original),
        decreases old(self).calls_left(),
    {
        self.spend()?;
        self.force_head(original, face, true)
    }

    fn force_head(&mut self, original: ValId, face: FaceId, preserve_glue: bool) -> (r: Result<ValId>)
        requires
            old(self).inv(),
        ensures
            final(self).inv(),
            final(self).fuel == old(self).fuel,
            arenas_grow(*old(self), *final(self)),
            final(self).calls_left() <= old(self).calls_left(),
            r matches Ok(w) ==> original.0 < old(self).values@.len() && is_canonical(old(self).values@[original.0 as int])
                ==> w == original,
            r matches Ok(w) ==> w.0 < final(self).values@.len() && !(final(self).values@[w.0 as int] is Susp)
                && !(final(self).values@[w.0 as int] is Sub),
            settles(*old(self), original) ==> r == Ok::<ValId, Error>(original),
            old(self).budget_for(3, 2) && original.0 < old(self).values@.len() && is_canonical(
                old(self).values@[original.0 as int],
            ) ==> r == Ok::<ValId, Error>(original) && cheap(*old(self), *final(self), 3, 2),
            r matches Ok(w) ==> suspended_literal(*old(self), original) matches Some(x) ==> final(self).values@[w.0 as int]
                == x,
        decreases old(self).calls_left(),
    {
        let ghost lit = suspended_literal(*old(self), original);
        let ghost kept = old(self).budget_for(3, 2) && original.0 < old(self).values@.len() && is_canonical(
            old(self).values@[original.0 as int],
        );
        self.spend()?;
        self.tick()?;
        if self.optimized {
            if let Some(v) = self.cache.get(&(original, face, preserve_glue)) {
                let v = *v;
                // A remembered head is used only where it is one: stored, not
                // delayed, and the value itself when that is canonical.
                let settled = original.0 < self.values.len() && canonical(self.values.get(original.0));
                if v.0 < self.values.len() && !delayed(self.values.get(v.0)) && (!settled || v == original) {
                    return Ok(v);
                }
            }
        }
        let mut v = original;
        loop
            invariant
                self.inv(),
                self.fuel == old(self).fuel,
                arenas_grow(*old(self), *self),
                self.calls_left() < old(self).calls_left(),
                settles(*old(self), original) ==> {
                    &&& self.calls == old(self).calls - 1
                    &&& self.steps == old(self).steps + 1
                    &&& self.counted_nodes() == old(self).counted_nodes()
                    &&& self.max_nodes == old(self).max_nodes
                    &&& self.values@ == old(self).values@
                    &&& v == original
                    &&& !self.optimized
                },
                original.0 < old(self).values@.len() && is_canonical(old(self).values@[original.0 as int]) ==> v
                    == original,
                kept ==> cheap(*old(self), *self, 1, 1),
                lit is Some ==> !self.optimized && (v == original || (v.0 < self.values@.len() && self.values@[v.0 as int]
                    == lit->Some_0)),
            decreases self.calls_left(),
        {
            self.tick()?;
            self.spend()?;
            match self.head_step(v, face, preserve_glue)? {
                Some(n) => {
                    v = n;
                },
                None => {
                    break;
                },
            }
        }
        if self.optimized {
            self.cache.insert((original, face, preserve_glue), v);
        }
        Ok(v)
    }

    /// The first branch whose face the context `face` entails.
    fn select(&mut self, face: FaceId, bs: &Vec<(FaceId, ValId)>) -> (r: Result<Option<ValId>>)
        requires
            old(self).inv(),
        ensures
            final(self).inv(),
            final(self).fuel == old(self).fuel,
            arenas_grow(*old(self), *final(self)),
            final(self).calls_left() == old(self).calls_left(),
            final(self).faces@ == old(self).faces@,
            r matches Ok(None) ==> forall|k: int|
                0 <= k < bs@.len() ==> !crate::face::entails_sem(old(self).faces@, face.0 as int, (#[trigger] bs@[k]).0.0 as int),
            r matches Ok(Some(v)) ==> exists|k: int|
                0 <= k < bs@.len() && (#[trigger] bs@[k]).1 == v && crate::face::entails_sem(
                    old(self).faces@,
                    face.0 as int,
                    bs@[k].0.0 as int,
                ) && forall|j: int|
                    0 <= j < k ==> !crate::face::entails_sem(old(self).faces@, face.0 as int, (#[trigger] bs@[j]).0.0 as int),
            atomic_branches(old(self).faces@, face, bs@.map_values(|b: (FaceId, ValId)| b.0)) ==> r is Ok,
    {
        proof {
            let fs = bs@.map_values(|b: (FaceId, ValId)| b.0);
            assert forall|j: int| 0 <= j < bs@.len() implies fs[j] == (#[trigger] bs@[j]).0 by {}
            if atomic_branches(self.faces@, face, fs) {
                assert forall|j: int| 0 <= j < bs@.len() implies self.faces.valid((#[trigger] bs@[j]).0) by {
                    assert(fs[j] == bs@[j].0);
                }
            }
        }
        let mut k: usize = 0;
        while k < bs.len()
            invariant
                self.inv(),
                self.fuel == old(self).fuel,
                arenas_grow(*old(self), *self),
                self.calls_left() == old(self).calls_left(),
                self.faces@ == old(self).faces@,
                k <= bs@.len(),
                atomic_branches(old(self).faces@, face, bs@.map_values(|b: (FaceId, ValId)| b.0)) ==> forall|j: int|
                    0 <= j < bs@.len() ==> self.faces.valid((#[trigger] bs@[j]).0) && crate::face::atomic(
                        self.faces@[bs@[j].0.0 as int],
                    ) && self.faces.valid(face) && crate::face::atomic(self.faces@[face.0 as int]),
                forall|j: int|
                    0 <= j < k ==> !crate::face::entails_sem(old(self).faces@, face.0 as int, (#[trigger] bs@[j]).0.0 as int),
            decreases bs@.len() - k,
        {
            if self.entails(face, bs[k].0)? {
                return Ok(Some(bs[k].1));
            }
            k += 1;
        }
        Ok(None)
    }

    /// The first Glue branch whose face `face` entails, as its type and equivalence.
    fn select_glue(&mut self, face: FaceId, bs: &Vec<(FaceId, ValId, ValId)>) -> (r: Result<Option<(ValId, ValId)>>)
        requires
            old(self).inv(),
        ensures
            final(self).inv(),
            final(self).fuel == old(self).fuel,
            arenas_grow(*old(self), *final(self)),
            final(self).calls_left() == old(self).calls_left(),
            final(self).faces@ == old(self).faces@,
            r matches Ok(None) ==> forall|k: int|
                0 <= k < bs@.len() ==> !crate::face::entails_sem(old(self).faces@, face.0 as int, (#[trigger] bs@[k]).0.0 as int),
            r matches Ok(Some(p)) ==> exists|k: int|
                0 <= k < bs@.len() && (#[trigger] bs@[k]).1 == p.0 && bs@[k].2 == p.1 && crate::face::entails_sem(
                    old(self).faces@,
                    face.0 as int,
                    bs@[k].0.0 as int,
                ),
            atomic_branches(old(self).faces@, face, bs@.map_values(|b: (FaceId, ValId, ValId)| b.0)) ==> r is Ok,
    {
        proof {
            let fs = bs@.map_values(|b: (FaceId, ValId, ValId)| b.0);
            assert forall|j: int| 0 <= j < bs@.len() implies fs[j] == (#[trigger] bs@[j]).0 by {}
            if atomic_branches(self.faces@, face, fs) {
                assert forall|j: int| 0 <= j < bs@.len() implies self.faces.valid((#[trigger] bs@[j]).0) by {
                    assert(fs[j] == bs@[j].0);
                }
            }
        }
        let mut k: usize = 0;
        while k < bs.len()
            invariant
                self.inv(),
                self.fuel == old(self).fuel,
                arenas_grow(*old(self), *self),
                self.calls_left() == old(self).calls_left(),
                k <= bs@.len(),
                self.faces@ == old(self).faces@,
                forall|j: int|
                    0 <= j < k ==> !crate::face::entails_sem(old(self).faces@, face.0 as int, (#[trigger] bs@[j]).0.0 as int),
                atomic_branches(old(self).faces@, face, bs@.map_values(|b: (FaceId, ValId, ValId)| b.0)) ==> forall|j: int|
                    0 <= j < bs@.len() ==> self.faces.valid((#[trigger] bs@[j]).0) && crate::face::atomic(
                        self.faces@[bs@[j].0.0 as int],
                    ) && self.faces.valid(face) && crate::face::atomic(self.faces@[face.0 as int]),
            decreases bs@.len() - k,
        {
            if self.entails(face, bs[k].0)? {
                return Ok(Some((bs[k].1, bs[k].2)));
            }
            k += 1;
        }
        Ok(None)
    }

    /// One head reduction step of `v` under `face`, if `v` is not a head normal form.
    fn head_step(&mut self, v: ValId, face: FaceId, preserve_glue: bool) -> (r: Result<Option<ValId>>)
        requires
            old(self).inv(),
        ensures
            final(self).inv(),
            final(self).fuel == old(self).fuel,
            arenas_grow(*old(self), *final(self)),
            final(self).calls_left() <= old(self).calls_left(),
            r is Ok ==> v.0 < old(self).values@.len(),
            r matches Ok(o) ==> is_canonical(old(self).values@[v.0 as int]) ==> o is None,
            old(self).calls > 0 && v.0 < old(self).values@.len() && is_canonical(old(self).values@[v.0 as int]) ==> r
                == Ok::<Option<ValId>, Error>(None) && cheap(*old(self), *final(self), 1, 0),
            r matches Ok(o) ==> (old(self).values@[v.0 as int] is Susp || old(self).values@[v.0 as int] is Sub) ==> o is Some,
            r matches Ok(Some(n)) ==> suspended_literal(*old(self), v) matches Some(x) ==> n.0 < final(self).values@.len()
                && final(self).values@[n.0 as int] == x,
            r matches Ok(o) ==> eliminates(*old(self), *final(self), v, o, face),
            r matches Ok(o) ==> old(self).values@[v.0 as int] matches Val::System(_, bs) ==> (o is None <==> forall|k: int|
                0 <= k < bs@.len() ==> !crate::face::entails_sem(old(self).faces@, face.0 as int, (#[trigger] bs@[k]).0.0 as int)),
        decreases old(self).calls_left(),
    {
        self.spend()?;
        let next = match self.get(v)? {
            Val::Susp(t, e) => Some(self.unfold(t, e)?),
            Val::Sub(a, s) => Some(self.push(a, s)?),
            Val::App(f, a) => {
                let ghost f0 = f;
                let ghost vals0 = self.values@;
                let f = self.force(f, face)?;
                let head = self.get(f)?;
                proof {
                    if f0.0 < vals0.len() && vals0[f0.0 as int] is Lam {
                        assert(f == f0);
                        assert(head == vals0[f0.0 as int]);
                    }
                }
                match head {
                    Val::Lam(b) => Some(self.inst(&b, a)?),
                    Val::System(ty, bs) => {
                        let pty = self.force(ty, face)?;
                        if let Val::Pi(_, b) = self.get(pty)? {
                            let ty = self.inst(&b, a)?;
                            let mut applied: Vec<(FaceId, ValId)> = Vec::new();
                            let mut k: usize = 0;
                            while k < bs.len()
                                invariant
                                    self.inv(),
                                    self.fuel == old(self).fuel,
                                    arenas_grow(*old(self), *self),
                                    self.calls_left() < old(self).calls_left(),
                                    k <= bs@.len(),
                                decreases bs@.len() - k,
                            {
                                let g = self.app(bs[k].1, a);
                                applied.push((bs[k].0, g));
                                k += 1;
                            }
                            Some(self.make(Val::System(ty, applied)))
                        } else {
                            None
                        }
                    },
                    _ => None,
                }
            },
            Val::Fst(p) => {
                let p = self.force(p, face)?;
                match self.get(p)? {
                    Val::Pair(a, _) => Some(a),
                    _ => None,
                }
            },
            Val::Snd(p) => {
                let p = self.force(p, face)?;
                match self.get(p)? {
                    Val::Pair(_, b) => Some(b),
                    _ => None,
                }
            },
            Val::If(_, a, b, c) => {
                let c = self.force(c, face)?;
                match self.get(c)? {
                    Val::True => Some(a),
                    Val::False => Some(b),
                    _ => None,
                }
            },
            Val::NatElim(p, z, s, n) => {
                let n = self.force(n, face)?;
                match self.get(n)? {
                    Val::Zero => Some(z),
                    Val::Suc(k) => {
                        let rec = self.make(Val::NatElim(p, z, s, k));
                        let step = self.app(s, k);
                        Some(self.app(step, rec))
                    },
                    _ => None,
                }
            },
            Val::PApp(p, d) => {
                let ghost p0 = p;
                let ghost vals0 = self.values@;
                let p = self.force(p, face)?;
                let head = self.get(p)?;
                proof {
                    if p0.0 < vals0.len() && is_canonical(vals0[p0.0 as int]) {
                        assert(p == p0);
                        assert(self.values@[p.0 as int] == vals0[p0.0 as int]);
                    }
                }
                if let Val::PLam(b) = head {
                    Some(self.inst_dim(&b, d)?)
                } else {
                    let ghost vals1 = self.values@;
                    let ty = self.neutral_type(p, face)?;
                    let ghost ty0 = ty;
                    let ty = self.force(ty, face)?;
                    let ghost vals2 = self.values@;
                    proof {
                        if !old(self).optimized && p0.0 < vals0.len() {
                            if let Val::Var(_, Some(t)) = vals0[p0.0 as int] {
                                assert(ty0 == t);
                                if t.0 < vals0.len() && vals0[t.0 as int] is Path {
                                    assert(vals1[t.0 as int] == vals0[t.0 as int]);
                                    assert(ty == t);
                                    assert(vals2[t.0 as int] == vals0[t.0 as int]);
                                }
                            }
                        }
                    }
                    if let Val::Path(_, l, r) = self.get(ty)? {
                        let ghost faces3 = self.faces@;
                        proof {
                            if face.0 < old(self).faces@.len() {
                                lemma_equal_sem_grows(old(self).faces@, faces3, face.0 as int, d, Dim::Zero);
                                lemma_equal_sem_grows(old(self).faces@, faces3, face.0 as int, d, Dim::One);
                            }
                        }
                        if self.dims_equal(face, d, Dim::Zero)? {
                            Some(l)
                        } else if self.dims_equal(face, d, Dim::One)? {
                            Some(r)
                        } else {
                            None
                        }
                    } else {
                        return Err(internal("internal error: path application has non-path type"));
                    }
                }
            },
            Val::System(_, bs) => self.select(face, &bs)?,
            Val::Glue(_, bs) => {
                if preserve_glue {
                    None
                } else {
                    match self.select_glue(face, &bs)? {
                        Some((t, _)) => Some(t),
                        None => None,
                    }
                }
            },
            Val::GlueIntro(_, bs) => self.select(face, &bs)?,
            Val::Unglue(g, a) => {
                let g = self.force_glue(g, face)?;
                if let Val::Glue(_, bs) = self.get(g)? {
                    match self.select_glue(face, &bs)? {
                        Some((_, equiv)) => {
                            let f = self.fst(equiv);
                            Some(self.app(f, a))
                        },
                        None => {
                            let a = self.force(a, face)?;
                            if let Val::GlueIntro(base, _) = self.get(a)? {
                                Some(base)
                            } else {
                                None
                            }
                        },
                    }
                } else {
                    return Err(internal("internal error: unglue needs a Glue type"));
                }
            },
            Val::Com(c) => {
                // An explicit unglue annotation needs the Glue data even
                // when universe composition restricts to its cap or tube.
                // Ordinary forcing still applies the boundary rule first.
                if preserve_glue {
                    let family = self.force(c.family, face)?;
                    if let Val::U(_) = self.get(family)? {
                        Some(self.compose_universe(c)?)
                    } else {
                        self.reduce_com(c, face)?
                    }
                } else {
                    self.reduce_com(c, face)?
                }
            },
            _ => None,
        };
        Ok(next)
    }

    /// The type of a neutral value.
    pub fn neutral_type(&mut self, v: ValId, face: FaceId) -> (r: Result<ValId>)
        requires
            old(self).inv(),
        ensures
            final(self).inv(),
            final(self).fuel == old(self).fuel,
            arenas_grow(*old(self), *final(self)),
            final(self).calls_left() <= old(self).calls_left(),
            r matches Ok(t) ==> !old(self).optimized ==> v.0 < old(self).values@.len() ==> (old(
                self,
            ).values@[v.0 as int] matches Val::Var(_, Some(ty)) ==> t == ty),
            r is Ok ==> !old(self).optimized ==> v.0 < old(self).values@.len() ==> is_canonical(
                old(self).values@[v.0 as int],
            ) ==> old(self).values@[v.0 as int] matches Val::Var(_, Some(_)),
            old(self).settles_at(v, 5) ==> (old(self).values@[v.0 as int] matches Val::Var(_, Some(ty)) ==> r
                == Ok::<ValId, Error>(ty)),
        decreases old(self).calls_left(),
    {
        self.spend()?;
        let v = self.force(v, face)?;
        match self.get(v)? {
            Val::Var(_, Some(ty)) => Ok(ty),
            Val::App(f, a) => {
                let ty = self.neutral_type(f, face)?;
                let ty = self.force(ty, face)?;
                if let Val::Pi(_, b) = self.get(ty)? {
                    self.inst(&b, a)
                } else {
                    Err(internal("internal error: neutral function type"))
                }
            },
            Val::Fst(p) => {
                let ty = self.neutral_type(p, face)?;
                let ty = self.force(ty, face)?;
                if let Val::Sigma(a, _) = self.get(ty)? {
                    Ok(a)
                } else {
                    Err(internal("internal error: neutral pair type"))
                }
            },
            Val::Snd(p) => {
                let ty = self.neutral_type(p, face)?;
                let ty = self.force(ty, face)?;
                if let Val::Sigma(_, b) = self.get(ty)? {
                    let p = self.fst(p);
                    self.inst(&b, p)
                } else {
                    Err(internal("internal error: neutral pair type"))
                }
            },
            Val::If(p, _, _, c) | Val::NatElim(p, _, _, c) => Ok(self.app(p, c)),
            Val::PApp(p, d) => {
                let ty = self.neutral_type(p, face)?;
                let ty = self.force(ty, face)?;
                if let Val::Path(b, _, _) = self.get(ty)? {
                    self.inst_dim(&b, d)
                } else {
                    Err(internal("internal error: neutral path type"))
                }
            },
            Val::Com(c) => self.restrict(c.family, c.dim, c.to),
            Val::System(ty, _) => Ok(ty),
            Val::Unglue(g, _) => {
                let g = self.force_glue(g, face)?;
                if let Val::Glue(base, _) = self.get(g)? {
                    Ok(base)
                } else {
                    Err(internal("internal error: unglue type"))
                }
            },
            Val::Susp(_, _) | Val::Sub(_, _) => {
                let w = self.force(v, face)?;
                self.neutral_type(w, face)
            },
            _ => Err(internal("internal error: missing neutral type")),
        }
    }

    /// Reduces a composition by its boundary, or by the head of its type family.
    #[verifier::spinoff_prover]
    #[verifier::rlimit(60)]
    pub fn reduce_com(&mut self, c: Composition, face: FaceId) -> (r: Result<Option<ValId>>)
        requires
            old(self).inv(),
        ensures
            final(self).inv(),
            final(self).fuel == old(self).fuel,
            arenas_grow(*old(self), *final(self)),
            final(self).calls_left() <= old(self).calls_left(),
            r is Ok && crate::face::equal_sem(old(self).faces@, face.0 as int, c.from, c.to) ==> r == Ok::<
                Option<ValId>,
                Error,
            >(Some(c.cap)),
            r matches Ok(res) ==> !crate::face::equal_sem(old(self).faces@, face.0 as int, c.from, c.to) ==> (exists|k: int|
                0 <= k < c.tubes@.len() && crate::face::entails_sem(
                    old(self).faces@,
                    face.0 as int,
                    (#[trigger] c.tubes@[k]).0.0 as int,
                )) ==> res is Some,
            r matches Ok(Some(w)) ==> !crate::face::equal_sem(old(self).faces@, face.0 as int, c.from, c.to) ==> (exists|k: int|
                0 <= k < c.tubes@.len() && crate::face::entails_sem(
                    old(self).faces@,
                    face.0 as int,
                    (#[trigger] c.tubes@[k]).0.0 as int,
                )) ==> exists|k: int|
                0 <= k < c.tubes@.len() && crate::face::entails_sem(
                    old(self).faces@,
                    face.0 as int,
                    (#[trigger] c.tubes@[k]).0.0 as int,
                ) && (forall|j: int|
                    0 <= j < k ==> !crate::face::entails_sem(old(self).faces@, face.0 as int, (#[trigger] c.tubes@[j]).0.0 as int))
                    && restricted_to(*final(self), w, c.tubes@[k].1, c.dim, c.to),
            r matches Ok(res) ==> c.family.0 < old(self).values@.len() && old(self).values@[
                c.family.0 as int] is Var ==> !crate::face::equal_sem(old(self).faces@, face.0 as int, c.from, c.to) ==> (
            forall|k: int|
                0 <= k < c.tubes@.len() ==> !crate::face::entails_sem(
                    old(self).faces@,
                    face.0 as int,
                    (#[trigger] c.tubes@[k]).0.0 as int,
                )) ==> res is None,
            old(self).calls > 0 && old(self).faces.valid(face) && crate::face::atomic(old(self).faces@[face.0 as int])
                && crate::face::equal_sem(old(self).faces@, face.0 as int, c.from, c.to) ==> r == Ok::<Option<ValId>, Error>(
                Some(c.cap),
            ),
            r matches Ok(res) ==> old(self).data_family(c, face) ==> c.cap.0 < old(self).values@.len() ==> is_canonical(
                old(self).values@[c.cap.0 as int],
            ) ==> !is_data(old(self).values@[c.cap.0 as int]) ==> res is None,
            r matches Ok(Some(w)) ==> old(self).data_family(c, face) ==> c.cap.0 < old(self).values@.len() ==> is_constant(
                old(self).values@[c.cap.0 as int],
            ) ==> w == c.cap,
            r matches Ok(res) ==> old(self).sigma_family(c, face) ==> res is Some && sigma_composite(
                final(self).values@,
                res->Some_0,
                c,
                old(self).values@[c.family.0 as int]->Sigma_0,
            ),
            r matches Ok(res) ==> old(self).headed_family(c, face) ==> old(self).values@[c.family.0 as int] is Pi ==> res is Some
                && pi_composite(final(self).values@, res->Some_0, c, old(self).values@[c.family.0 as int]->Pi_0),
            r matches Ok(res) ==> old(self).headed_family(c, face) ==> old(self).values@[c.family.0 as int] is Path ==> res is Some
                && path_composite(
                *final(self),
                res->Some_0,
                c,
                old(self).values@[c.family.0 as int]->Path_1,
                old(self).values@[c.family.0 as int]->Path_2,
            ),
        decreases old(self).calls_left(),
    {
        self.spend()?;
        if self.dims_equal(face, c.from, c.to)? {
            return Ok(Some(c.cap));
        }
        let ghost faces0 = self.faces@;
        match self.select(face, &c.tubes)? {
            Some(v) => {
                let ghost k = choose|k: int|
                    0 <= k < c.tubes@.len() && (#[trigger] c.tubes@[k]).1 == v && crate::face::entails_sem(
                        faces0,
                        face.0 as int,
                        c.tubes@[k].0.0 as int,
                    ) && forall|j: int|
                        0 <= j < k ==> !crate::face::entails_sem(faces0, face.0 as int, (#[trigger] c.tubes@[j]).0.0 as int);
                let w = self.restrict(v, c.dim, c.to)?;
                assert(restricted_to(*self, w, c.tubes@[k].1, c.dim, c.to));
                return Ok(Some(w));
            },
            None => {},
        }
        let ghost before_force = self.values@;
        let family = self.force(c.family, face)?;
        let head = self.get(family)?;
        proof {
            if old(self).headed_family(c, face) && is_canonical(old(self).values@[c.family.0 as int]) {
                assert(before_force[c.family.0 as int] == old(self).values@[c.family.0 as int]);
                assert(family == c.family);
                assert(head == old(self).values@[c.family.0 as int]);
            }
        }
        match head {
            Val::Bool | Val::Nat => self.com_data(c, face),
            Val::Sigma(a, b) => {
                let ghost vals0 = self.values@;
                let cap_a = self.fst(c.cap);
                let mut tubes_a: Vec<(FaceId, ValId)> = Vec::new();
                let mut k: usize = 0;
                while k < c.tubes.len()
                    invariant
                        self.inv(),
                        self.fuel == old(self).fuel,
                        arenas_grow(*old(self), *self),
                        crate::face::extends(vals0, self.values@),
                        self.calls_left() < old(self).calls_left(),
                        k <= c.tubes@.len(),
                        first_of(self.values@, cap_a, c.cap),
                        tubes_a@.len() == k,
                        forall|j: int|
                            0 <= j < k ==> (#[trigger] tubes_a@[j]).0 == c.tubes@[j].0 && first_of(
                                self.values@,
                                tubes_a@[j].1,
                                c.tubes@[j].1,
                            ),
                    decreases c.tubes@.len() - k,
                {
                    let ghost before = self.values@;
                    let x = self.fst(c.tubes[k].1);
                    assert forall|j: int| 0 <= j < k implies first_of(self.values@, tubes_a@[j].1, c.tubes@[j].1) by {
                        lemma_first_of_grows(before, self.values@, tubes_a@[j].1, c.tubes@[j].1);
                    }
                    proof {
                        lemma_first_of_grows(before, self.values@, cap_a, c.cap);
                    }
                    tubes_a.push((c.tubes[k].0, x));
                    k += 1;
                }
                let ghost tubes_a_view = tubes_a@;
                let first = self.make(Val::Com(Composition {
                    dim: c.dim, family: a, from: c.from, to: c.to, cap: cap_a, tubes: copy_vec(&tubes_a),
                }));
                let ghost vals1 = self.values@;
                let y = self.fresh_dim()?;
                let filler = self.make(Val::Com(Composition {
                    dim: c.dim, family: a, from: c.from, to: Dim::Var(y), cap: cap_a, tubes: tubes_a,
                }));
                let cod = self.inst(&b, filler)?;
                let cod = self.restrict(cod, c.dim, Dim::Var(y))?;
                let cap = self.snd(c.cap);
                let ghost vals2 = self.values@;
                let mut tubes: Vec<(FaceId, ValId)> = Vec::new();
                let mut k: usize = 0;
                while k < c.tubes.len()
                    invariant
                        self.inv(),
                        self.fuel == old(self).fuel,
                        arenas_grow(*old(self), *self),
                        crate::face::extends(vals2, self.values@),
                        self.calls_left() < old(self).calls_left(),
                        k <= c.tubes@.len(),
                        tubes@.len() == k,
                        forall|j: int| 0 <= j < k ==> (#[trigger] tubes@[j]).0 == c.tubes@[j].0,
                    decreases c.tubes@.len() - k,
                {
                    let t = self.snd(c.tubes[k].1);
                    let t = self.restrict(t, c.dim, Dim::Var(y))?;
                    tubes.push((c.tubes[k].0, t));
                    k += 1;
                }
                let ghost tubes_view = tubes@;
                let second = self.make(Val::Com(Composition { dim: y, family: cod, from: c.from, to: c.to, cap, tubes }));
                let ghost vals3 = self.values@;
                let w = self.make(Val::Pair(first, second));
                proof {
                    let vals = self.values@;
                    assert(crate::face::extends(vals1, vals));
                    assert(crate::face::extends(vals2, vals));
                    assert(crate::face::extends(vals3, vals));
                    lemma_first_of_grows(vals1, vals, cap_a, c.cap);
                    lemma_second_of_grows(vals2, vals, cap, c.cap);
                    assert forall|j: int| 0 <= j < c.tubes@.len() implies first_of(vals, tubes_a_view[j].1, c.tubes@[j].1) by {
                        lemma_first_of_grows(vals1, vals, tubes_a_view[j].1, c.tubes@[j].1);
                    }
                    assert(vals[w.0 as int] == Val::Pair(first, second));
                    assert(vals[first.0 as int] == vals1[first.0 as int]);
                    assert(vals[second.0 as int] == vals3[second.0 as int]);
                    let d = vals[first.0 as int]->Com_0;
                    assert(d.tubes@ == tubes_a_view);
                    assert(first_of(vals, d.cap, c.cap));
                    let e = vals[second.0 as int]->Com_0;
                    assert(e.tubes@ == tubes_view);
                    assert(second_of(vals, e.cap, c.cap));
                    assert(sigma_composite(vals, w, c, a));
                }
                Ok(Some(w))
            },
            Val::Pi(a, b) => {
                let y = self.fresh_dim()?;
                let x = self.fresh_term()?;
                let target_a = self.restrict(a, c.dim, c.to)?;
                let arg = self.make(Val::Var(x, Some(target_a)));
                let filler = self.make(Val::Com(Composition {
                    dim: c.dim, family: a, from: c.to, to: Dim::Var(y), cap: arg, tubes: Vec::new(),
                }));
                let ghost vals1 = self.values@;
                proof {
                    assert(pi_filler(vals1, filler, c, a, x, y));
                }
                let back = self.restrict(filler, y, c.from)?;
                let cap = self.app(c.cap, back);
                let ghost vals2 = self.values@;
                let cod = self.inst(&b, filler)?;
                let cod = self.restrict(cod, c.dim, Dim::Var(y))?;
                let ghost vals3 = self.values@;
                let mut tubes: Vec<(FaceId, ValId)> = Vec::new();
                let mut k: usize = 0;
                while k < c.tubes.len()
                    invariant
                        self.inv(),
                        self.fuel == old(self).fuel,
                        arenas_grow(*old(self), *self),
                        crate::face::extends(vals3, self.values@),
                        self.calls_left() < old(self).calls_left(),
                        k <= c.tubes@.len(),
                        tubes@.len() == k,
                        forall|j: int|
                            0 <= j < k ==> (#[trigger] tubes@[j]).0 == c.tubes@[j].0 && tubes@[j].1.0 < self.values@.len()
                                && self.values@[tubes@[j].1.0 as int] is App && self.values@[tubes@[j].1.0 as int]->App_1
                                == filler,
                    decreases c.tubes@.len() - k,
                {
                    let ghost before = self.values@;
                    let t = self.restrict(c.tubes[k].1, c.dim, Dim::Var(y))?;
                    let t = self.app(t, filler);
                    assert forall|j: int| 0 <= j < k implies self.values@[tubes@[j].1.0 as int] == before[tubes@[j].1.0 as int] by {
                        assert(tubes@[j].1.0 < before.len());
                    }
                    tubes.push((c.tubes[k].0, t));
                    k += 1;
                }
                let ghost vals4 = self.values@;
                let ghost tubes_view = tubes@;
                let body = self.make(Val::Com(Composition { dim: y, family: cod, from: c.from, to: c.to, cap, tubes }));
                let ghost vals5 = self.values@;
                let w = self.make(Val::Lam(Binder { var: x, body }));
                proof {
                    let vals = self.values@;
                    let n = c.tubes@.len() as int;
                    assert(vals[body.0 as int] == vals5[body.0 as int]);
                    assert(vals[cap.0 as int] == vals2[cap.0 as int]);
                    assert(crate::face::extends(vals1, vals));
                    assert(vals[filler.0 as int] == vals1[filler.0 as int]);
                    assert(vals[arg.0 as int] == vals1[arg.0 as int]);
                    assert(pi_filler(vals, filler, c, a, x, y));
                    assert forall|j: int| 0 <= j < n implies vals[tubes_view[j].1.0 as int] == vals4[tubes_view[j].1.0 as int] by {
                        assert(tubes_view[j] == tubes@[j]);
                    }
                    assert(pi_composite(vals, w, c, a));
                }
                Ok(Some(w))
            },
            Val::Path(b, l, r) => {
                let x = self.fresh_dim()?;
                let d = Dim::Var(x);
                let a = self.inst_dim(&b, d)?;
                let cap = self.at(c.cap, d);
                let ghost vals1 = self.values@;
                let mut tubes: Vec<(FaceId, ValId)> = Vec::new();
                let mut k: usize = 0;
                while k < c.tubes.len()
                    invariant
                        self.inv(),
                        self.fuel == old(self).fuel,
                        arenas_grow(*old(self), *self),
                        crate::face::extends(vals1, self.values@),
                        self.calls_left() < old(self).calls_left(),
                        k <= c.tubes@.len(),
                        tubes@.len() == k,
                        forall|j: int|
                            0 <= j < k ==> (#[trigger] tubes@[j]).0 == c.tubes@[j].0 && tubes@[j].1.0 < self.values@.len()
                                && self.values@[tubes@[j].1.0 as int] == Val::PApp(c.tubes@[j].1, d),
                    decreases c.tubes@.len() - k,
                {
                    let ghost before = self.values@;
                    let t = self.at(c.tubes[k].1, d);
                    assert forall|j: int| 0 <= j < k implies self.values@[tubes@[j].1.0 as int] == before[tubes@[j].1.0 as int] by {
                        assert(tubes@[j].1.0 < before.len());
                    }
                    tubes.push((c.tubes[k].0, t));
                    k += 1;
                }
                let ghost vals2 = self.values@;
                let ghost faces1 = self.faces@;
                let at0 = self.face_eq(d, Dim::Zero);
                tubes.push((at0, l));
                let ghost faces2 = self.faces@;
                let at1 = self.face_eq(d, Dim::One);
                tubes.push((at1, r));
                let ghost faces3 = self.faces@;
                let ghost tubes_view = tubes@;
                let body = self.make(Val::Com(Composition { dim: c.dim, family: a, from: c.from, to: c.to, cap, tubes }));
                let ghost vals3 = self.values@;
                let w = self.make(Val::PLam(Binder { var: x, body }));
                proof {
                    let vals = self.values@;
                    let n = c.tubes@.len() as int;
                    assert(vals[body.0 as int] == vals3[body.0 as int]);
                    assert(vals[cap.0 as int] == vals1[cap.0 as int]);
                    assert forall|j: int| 0 <= j < n implies vals[tubes_view[j].1.0 as int] == vals2[tubes_view[j].1.0 as int] by {
                        assert(tubes_view[j] == tubes@[j]);
                    }
                    assert(self.faces@ == faces3);
                    assert forall|rho: spec_fn(u32) -> int|
                        #[trigger] self.faces.holds(at0, rho) == (rho(x) == 0) by {
                        crate::face::lemma_holds_extend(faces2, faces3, at0.0 as int, rho);
                    }
                    assert(tubes_view[n] == (at0, l));
                    assert(tubes_view[n + 1] == (at1, r));
                    assert(path_composite(*self, w, c, l, r));
                }
                Ok(Some(w))
            },
            Val::Glue(base, branches) => Ok(Some(self.compose_glue(c, base, branches)?)),
            Val::U(_) => Ok(Some(self.compose_universe(c)?)),
            _ => Ok(None),
        }
    }

    /// Composition in `Bool` or `Nat`: the cap when every tube agrees with its constructor.
    fn com_data(&mut self, c: Composition, face: FaceId) -> (r: Result<Option<ValId>>)
        requires
            old(self).inv(),
        ensures
            final(self).inv(),
            final(self).fuel == old(self).fuel,
            arenas_grow(*old(self), *final(self)),
            final(self).calls_left() <= old(self).calls_left(),
            r matches Ok(res) ==> c.cap.0 < old(self).values@.len() ==> is_canonical(
                old(self).values@[c.cap.0 as int],
            ) ==> !is_data(old(self).values@[c.cap.0 as int]) ==> res is None,
            r matches Ok(Some(w)) ==> c.cap.0 < old(self).values@.len() ==> is_constant(
                old(self).values@[c.cap.0 as int],
            ) ==> w == c.cap,
            r matches Ok(Some(w)) ==> c.cap.0 < old(self).values@.len() ==> (old(self).values@[
                c.cap.0 as int] matches Val::Suc(n) ==> successor_of_com(final(self).values@, w, n, c)),
        decreases old(self).calls_left(),
    {
        self.spend()?;
        let cap = self.force(c.cap, face)?;
        let tag: u8 = match self.get(cap)? {
            Val::True => 0,
            Val::False => 1,
            Val::Zero => 2,
            Val::Suc(_) => 3,
            _ => {
                return Ok(None);
            },
        };
        let mut ts: Vec<(FaceId, ValId)> = Vec::new();
        let mut k: usize = 0;
        while k < c.tubes.len()
            invariant
                self.inv(),
                self.fuel == old(self).fuel,
                arenas_grow(*old(self), *self),
                self.calls_left() < old(self).calls_left(),
                k <= c.tubes@.len(),
            decreases c.tubes@.len() - k,
        {
            let (f, t) = c.tubes[k];
            k += 1;
            let under = self.face_and(face, f)?;
            if self.inconsistent(under)? {
                continue;
            }
            let t = self.force(t, under)?;
            match (tag, self.get(t)?) {
                (0, Val::True) | (1, Val::False) | (2, Val::Zero) => {},
                (3, Val::Suc(n)) => ts.push((f, n)),
                _ => {
                    return Ok(None);
                },
            }
        }
        if let Val::Suc(n) = self.get(cap)? {
            let n = self.make(Val::Com(Composition { dim: c.dim, family: c.family, from: c.from, to: c.to, cap: n, tubes: ts }));
            Ok(Some(self.make(Val::Suc(n))))
        } else {
            Ok(Some(cap))
        }
    }

    /// Counters of this session.
    pub fn statistics(&self) -> (r: Statistics)
        ensures
            r.steps == self.steps,
            r.value_nodes == self.values@.len(),
            r.environment_nodes == self.envs@.len(),
            r.substitution_nodes == self.subs@.len(),
            r.face_nodes == self.faces@.len(),
            r.allocated_values == self.allocated_values,
            r.collections == self.collections,
            r.reclaimed_nodes == self.reclaimed_nodes,
    {
        let payload = self.envs_payload().saturating_add(self.values_payload()).saturating_add(self.subs_payload());
        let bytes = self.values.bytes().saturating_add(self.envs.bytes()).saturating_add(self.subs.bytes()).saturating_add(
            self.faces.bytes(),
        ).saturating_add(payload);
        Statistics {
            steps: self.steps,
            value_nodes: self.values.len(),
            environment_nodes: self.envs.len(),
            substitution_nodes: self.subs.len(),
            face_nodes: self.faces.len(),
            arena_bytes: bytes,
            cache_entries: self.cache.len(),
            allocated_values: self.allocated_values,
            collections: self.collections,
            reclaimed_nodes: self.reclaimed_nodes,
        }
    }

    fn envs_payload(&self) -> (r: usize) {
        let mut total: usize = 0;
        let mut i: usize = 0;
        while i < self.envs.len()
            invariant
                i <= self.envs@.len(),
            decreases self.envs@.len() - i,
        {
            let e = self.envs.get(i);
            let t = crate::arena::vec_bytes(&e.terms);
            let d = crate::arena::vec_bytes(&e.dims);
            total = total.saturating_add(t).saturating_add(d);
            i += 1;
        }
        total
    }

    fn subs_payload(&self) -> (r: usize) {
        let mut total: usize = 0;
        let mut i: usize = 0;
        while i < self.subs.len()
            invariant
                i <= self.subs@.len(),
            decreases self.subs@.len() - i,
        {
            let s = self.subs.get(i);
            let t = crate::arena::vec_bytes(&s.terms);
            let d = crate::arena::vec_bytes(&s.dims);
            total = total.saturating_add(t).saturating_add(d);
            i += 1;
        }
        total
    }

    fn values_payload(&self) -> (r: usize) {
        let mut total: usize = 0;
        let mut i: usize = 0;
        while i < self.values.len()
            invariant
                i <= self.values@.len(),
            decreases self.values@.len() - i,
        {
            let n: usize = match self.values.get(i) {
                Val::Com(c) => crate::arena::vec_bytes(&c.tubes),
                Val::System(_, bs) => crate::arena::vec_bytes(bs),
                Val::GlueIntro(_, bs) => crate::arena::vec_bytes(bs),
                Val::Glue(_, bs) => crate::arena::vec_bytes(bs),
                _ => 0,
            };
            total = total.saturating_add(n);
            i += 1;
        }
        total
    }

    pub fn optimized_quote(&self) -> (r: bool)
        ensures
            r == self.optimized,
    {
        self.optimized
    }
}

/// Whether `x` occurs in a vector of slots.
pub fn contains_slot(v: &Vec<usize>, x: usize) -> (r: bool)
    ensures
        r == v@.contains(x),
{
    let mut k: usize = 0;
    while k < v.len()
        invariant
            k <= v@.len(),
            forall|j: int| 0 <= j < k ==> v@[j] != x,
        decreases v@.len() - k,
    {
        if v[k] == x {
            return true;
        }
        k += 1;
    }
    false
}

} // verus!
