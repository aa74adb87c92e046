#![verifier::loop_isolation(false)]
//! Stop-the-world compaction at quotation task boundaries. All semantic roots
//! are explicit there. Syntax and dimension/term levels are never remapped.
use vstd::prelude::*;
use crate::hash::IdMap;
use crate::arena::Arena;
use crate::eval::{Binder, Composition, Engine, Env, EnvId, Sub, SubId, Val, ValId, internal};
use crate::face::FaceId;
use crate::Result;

verus! {

#[derive(Clone, Copy, Debug)]
pub enum Root {
    Value(ValId),
    Env(EnvId),
    Sub(SubId),
}

/// The number of marked entries.
pub open spec fn marked_count(mark: Seq<bool>) -> nat
    decreases mark.len(),
{
    if mark.len() == 0 {
        0
    } else {
        marked_count(mark.drop_last()) + if mark.last() {
            1nat
        } else {
            0nat
        }
    }
}

/// The new index of every marked entry (in order), and `usize::MAX` for the others.
pub fn numbering(mark: &Vec<bool>) -> (r: Vec<usize>)
    ensures
        r@.len() == mark@.len(),
        forall|i: int| 0 <= i < mark@.len() && mark@[i] ==> #[trigger] r@[i] < marked_count(mark@),
        forall|i: int| 0 <= i < mark@.len() ==> (#[trigger] mark@[i] <==> r@[i] != usize::MAX),
        forall|i: int| 0 <= i < mark@.len() && mark@[i] ==> #[trigger] r@[i] <= i,
        forall|i: int, j: int| 0 <= i < j < mark@.len() && mark@[i] && mark@[j] ==> r@[i] < r@[j],
        forall|i: int| 0 <= i < mark@.len() && mark@[i] ==> #[trigger] r@[i] == marked_count(mark@.take(i)),
{
    let mut out: Vec<usize> = Vec::new();
    let mut n: usize = 0;
    let mut i: usize = 0;
    while i < mark.len()
        invariant
            i <= mark@.len(),
            out@.len() == i,
            n <= i,
            forall|k: int| 0 <= k < i ==> (#[trigger] mark@[k] <==> out@[k] != usize::MAX),
            forall|k: int| 0 <= k < i && mark@[k] ==> #[trigger] out@[k] < n,
            forall|k: int| 0 <= k < i && mark@[k] ==> #[trigger] out@[k] <= k,
            forall|k: int, j: int| 0 <= k < j < i && mark@[k] && mark@[j] ==> out@[k] < out@[j],
            n == marked_count(mark@.take(i as int)),
            forall|k: int| 0 <= k < i && mark@[k] ==> #[trigger] out@[k] == marked_count(mark@.take(k)),
        decreases mark@.len() - i,
    {
        assert(mark@.take(i + 1).drop_last() =~= mark@.take(i as int));
        if mark[i] {
            out.push(n);
            n += 1;
        } else {
            out.push(usize::MAX);
        }
        i += 1;
    }
    assert(mark@.take(mark@.len() as int) =~= mark@);
    out
}

/// Entry `i` has a new identifier under `map`.
pub open spec fn mapped(map: Seq<usize>, i: int) -> bool {
    0 <= i < map.len() && map[i] != usize::MAX
}

/// Identifier `i` is renumbered to `j` under `map`.
pub open spec fn renumbered(map: Seq<usize>, i: usize, j: usize) -> bool {
    mapped(map, i as int) && map[i as int] == j
}

/// Branches `ys` are branches `xs` with faces renumbered under `fm` and values under `vm`.
pub open spec fn branches_renumbered(
    vm: Seq<usize>,
    fm: Seq<usize>,
    xs: Seq<(FaceId, ValId)>,
    ys: Seq<(FaceId, ValId)>,
) -> bool {
    &&& xs.len() == ys.len()
    &&& forall|k: int|
        0 <= k < xs.len() ==> renumbered(fm, (#[trigger] xs[k]).0.0, ys[k].0.0) && renumbered(vm, xs[k].1.0, ys[k].1.0)
}

/// Every face and value of branches `xs` has a new identifier.
pub open spec fn branches_mapped(vm: Seq<usize>, fm: Seq<usize>, xs: Seq<(FaceId, ValId)>) -> bool {
    forall|k: int| 0 <= k < xs.len() ==> mapped(fm, (#[trigger] xs[k]).0.0 as int) && mapped(vm, xs[k].1.0 as int)
}

/// The new identifier of a marked entry.
pub fn renumber(map: &Vec<usize>, i: usize) -> (r: Result<usize>)
    ensures
        r matches Ok(j) ==> i < map@.len() && j == map@[i as int] && j != usize::MAX,
        r is Ok <==> mapped(map@, i as int),
{
    if i < map.len() && map[i] != usize::MAX {
        Ok(map[i])
    } else {
        Err(internal("internal error: unmarked node during collection"))
    }
}

/// Marks entry `i`, returning whether it was unmarked.
fn mark(marks: &mut Vec<bool>, i: usize) -> (r: Result<bool>)
    ensures
        final(marks)@.len() == old(marks)@.len(),
        r is Ok <==> i < old(marks)@.len(),
        r matches Ok(fresh) ==> fresh == !old(marks)@[i as int] && final(marks)@ == old(marks)@.update(i as int, true),
        r is Err ==> final(marks)@ == old(marks)@,
{
    if i >= marks.len() {
        return Err(internal("internal error: unknown node during collection"));
    }
    if marks[i] {
        return Ok(false);
    }
    marks.set(i, true);
    Ok(true)
}

fn map_value(vm: &Vec<usize>, v: ValId) -> (r: Result<ValId>)
    ensures
        r matches Ok(w) ==> v.0 < vm@.len() && w.0 == vm@[v.0 as int] && w.0 != usize::MAX,
        r is Ok <==> mapped(vm@, v.0 as int),
{
    Ok(ValId(renumber(vm, v.0)?))
}

fn map_face(fm: &Vec<usize>, f: FaceId) -> (r: Result<FaceId>)
    ensures
        r is Ok <==> mapped(fm@, f.0 as int),
        r matches Ok(g) ==> renumbered(fm@, f.0, g.0),
{
    Ok(FaceId(renumber(fm, f.0)?))
}

fn map_binder(vm: &Vec<usize>, b: Binder) -> (r: Result<Binder>)
    ensures
        r is Ok <==> mapped(vm@, b.body.0 as int),
        r matches Ok(c) ==> c.var == b.var && renumbered(vm@, b.body.0, c.body.0),
{
    Ok(Binder { var: b.var, body: map_value(vm, b.body)? })
}

fn map_branches(vm: &Vec<usize>, fm: &Vec<usize>, bs: &Vec<(FaceId, ValId)>) -> (r: Result<Vec<(FaceId, ValId)>>)
    ensures
        r is Ok <==> branches_mapped(vm@, fm@, bs@),
        r matches Ok(out) ==> branches_renumbered(vm@, fm@, bs@, out@),
{
    let mut out: Vec<(FaceId, ValId)> = Vec::new();
    let mut k: usize = 0;
    while k < bs.len()
        invariant
            k <= bs@.len(),
            branches_mapped(vm@, fm@, bs@.take(k as int)),
            branches_renumbered(vm@, fm@, bs@.take(k as int), out@),
        decreases bs@.len() - k,
    {
        let ghost done = bs@.take(k as int);
        let f = match map_face(fm, bs[k].0) {
            Ok(f) => f,
            Err(e) => {
                assert(bs@[k as int] == bs@[k as int]);
                return Err(e);
            },
        };
        let v = match map_value(vm, bs[k].1) {
            Ok(v) => v,
            Err(e) => {
                assert(bs@[k as int] == bs@[k as int]);
                return Err(e);
            },
        };
        out.push((f, v));
        k += 1;
        assert(bs@.take(k as int) =~= done.push(bs@[k - 1]));
    }
    assert(bs@.take(bs@.len() as int) =~= bs@);
    Ok(out)
}

/// Glue branches `ys` are `xs` with faces renumbered under `fm` and values under `vm`.
pub open spec fn triples_renumbered(
    vm: Seq<usize>,
    fm: Seq<usize>,
    xs: Seq<(FaceId, ValId, ValId)>,
    ys: Seq<(FaceId, ValId, ValId)>,
) -> bool {
    &&& xs.len() == ys.len()
    &&& forall|k: int|
        0 <= k < xs.len() ==> renumbered(fm, (#[trigger] xs[k]).0.0, ys[k].0.0) && renumbered(vm, xs[k].1.0, ys[k].1.0)
            && renumbered(vm, xs[k].2.0, ys[k].2.0)
}

/// Every face and value of Glue branches `xs` has a new identifier.
pub open spec fn triples_mapped(vm: Seq<usize>, fm: Seq<usize>, xs: Seq<(FaceId, ValId, ValId)>) -> bool {
    forall|k: int|
        0 <= k < xs.len() ==> mapped(fm, (#[trigger] xs[k]).0.0 as int) && mapped(vm, xs[k].1.0 as int) && mapped(
            vm,
            xs[k].2.0 as int,
        )
}

/// Every identifier that value `a` refers to has a new identifier.
pub open spec fn val_mapped(vm: Seq<usize>, em: Seq<usize>, sm: Seq<usize>, fm: Seq<usize>, a: Val) -> bool {
    let v = |x: ValId| mapped(vm, x.0 as int);
    match a {
        Val::Susp(_, e) => mapped(em, e.0 as int),
        Val::Sub(x, t) => v(x) && mapped(sm, t.0 as int),
        Val::Var(_, t) => match t {
            Some(t) => v(t),
            None => true,
        },
        Val::Pi(x, b) | Val::Sigma(x, b) => v(x) && v(b.body),
        Val::Lam(b) | Val::PLam(b) => v(b.body),
        Val::Path(b, l, r) => v(b.body) && v(l) && v(r),
        Val::App(x, y) | Val::Pair(x, y) | Val::Unglue(x, y) => v(x) && v(y),
        Val::Fst(x) | Val::Snd(x) | Val::Suc(x) | Val::PApp(x, _) => v(x),
        Val::If(p, x, y, z) | Val::NatElim(p, x, y, z) => v(p) && v(x) && v(y) && v(z),
        Val::Com(c) => v(c.family) && v(c.cap) && branches_mapped(vm, fm, c.tubes@),
        Val::System(x, bs) | Val::GlueIntro(x, bs) => v(x) && branches_mapped(vm, fm, bs@),
        Val::Glue(x, bs) => v(x) && triples_mapped(vm, fm, bs@),
        _ => true,
    }
}

/// Value `b` is value `a` with every identifier renumbered, and everything else kept.
pub open spec fn val_renumbered(vm: Seq<usize>, em: Seq<usize>, sm: Seq<usize>, fm: Seq<usize>, a: Val, b: Val) -> bool {
    let v = |x: ValId, y: ValId| renumbered(vm, x.0, y.0);
    match (a, b) {
        (Val::Susp(t, e), Val::Susp(u, f)) => t == u && renumbered(em, e.0, f.0),
        (Val::Sub(x, t), Val::Sub(y, u)) => v(x, y) && renumbered(sm, t.0, u.0),
        (Val::Var(x, t), Val::Var(y, u)) => x == y && match (t, u) {
            (Some(t), Some(u)) => v(t, u),
            (None, None) => true,
            _ => false,
        },
        (Val::Pi(x, b), Val::Pi(y, c)) => v(x, y) && b.var == c.var && v(b.body, c.body),
        (Val::Sigma(x, b), Val::Sigma(y, c)) => v(x, y) && b.var == c.var && v(b.body, c.body),
        (Val::Lam(b), Val::Lam(c)) => b.var == c.var && v(b.body, c.body),
        (Val::PLam(b), Val::PLam(c)) => b.var == c.var && v(b.body, c.body),
        (Val::Path(b, l, r), Val::Path(c, m, n)) => b.var == c.var && v(b.body, c.body) && v(l, m) && v(r, n),
        (Val::App(x, y), Val::App(z, w)) => v(x, z) && v(y, w),
        (Val::Pair(x, y), Val::Pair(z, w)) => v(x, z) && v(y, w),
        (Val::Unglue(x, y), Val::Unglue(z, w)) => v(x, z) && v(y, w),
        (Val::Fst(x), Val::Fst(y)) => v(x, y),
        (Val::Snd(x), Val::Snd(y)) => v(x, y),
        (Val::Suc(x), Val::Suc(y)) => v(x, y),
        (Val::PApp(x, d), Val::PApp(y, e)) => v(x, y) && d == e,
        (Val::If(p, x, y, z), Val::If(q, a2, b2, c2)) => v(p, q) && v(x, a2) && v(y, b2) && v(z, c2),
        (Val::NatElim(p, x, y, z), Val::NatElim(q, a2, b2, c2)) => v(p, q) && v(x, a2) && v(y, b2) && v(z, c2),
        (Val::Com(c), Val::Com(d)) => c.dim == d.dim && c.from == d.from && c.to == d.to && v(c.family, d.family)
            && v(c.cap, d.cap) && branches_renumbered(vm, fm, c.tubes@, d.tubes@),
        (Val::System(x, bs), Val::System(y, cs)) => v(x, y) && branches_renumbered(vm, fm, bs@, cs@),
        (Val::GlueIntro(x, bs), Val::GlueIntro(y, cs)) => v(x, y) && branches_renumbered(vm, fm, bs@, cs@),
        (Val::Glue(x, bs), Val::Glue(y, cs)) => v(x, y) && triples_renumbered(vm, fm, bs@, cs@),
        (Val::U(l), Val::U(m)) => l == m,
        (Val::Bool, Val::Bool) | (Val::True, Val::True) | (Val::False, Val::False) | (Val::Nat, Val::Nat) | (
            Val::Zero,
            Val::Zero,
        ) => true,
        _ => false,
    }
}

/// A collection from arena `old` to arena `new`: every kept value `i` is stored
/// at `vm[i]` with its identifiers renumbered, and every root is renumbered.
pub open spec fn collected(
    old: Seq<Val>,
    new: Seq<Val>,
    old_roots: Seq<ValId>,
    new_roots: Seq<ValId>,
    vm: Seq<usize>,
    em: Seq<usize>,
    sm: Seq<usize>,
    fm: Seq<usize>,
) -> bool {
    &&& old_roots.len() == new_roots.len()
    &&& forall|k: int| 0 <= k < old_roots.len() ==> renumbered(vm, (#[trigger] old_roots[k]).0, new_roots[k].0)
    &&& forall|i: int|
        0 <= i < old.len() && mapped(vm, i) ==> (#[trigger] vm[i]) < new.len() && val_renumbered(vm, em, sm, fm, old[i], new[vm[i] as int])
}

/// Value `old` with every identifier renumbered.
fn map_val(vm: &Vec<usize>, em: &Vec<usize>, sm: &Vec<usize>, fm: &Vec<usize>, old: &Val) -> (r: Result<Val>)
    ensures
        r is Ok <==> val_mapped(vm@, em@, sm@, fm@, *old),
        r matches Ok(new) ==> val_renumbered(vm@, em@, sm@, fm@, *old, new),
{
    Ok(match old {
        Val::Susp(t, a) => Val::Susp(*t, EnvId(renumber(em, a.0)?)),
        Val::Sub(a, b) => Val::Sub(map_value(vm, *a)?, SubId(renumber(sm, b.0)?)),
        Val::Var(x, t) => Val::Var(
            *x,
            match t {
                Some(t) => Some(map_value(vm, *t)?),
                None => None,
            },
        ),
        Val::Pi(a, b) => Val::Pi(map_value(vm, *a)?, map_binder(vm, *b)?),
        Val::Sigma(a, b) => Val::Sigma(map_value(vm, *a)?, map_binder(vm, *b)?),
        Val::Lam(b) => Val::Lam(map_binder(vm, *b)?),
        Val::PLam(b) => Val::PLam(map_binder(vm, *b)?),
        Val::Path(b, l, r) => Val::Path(map_binder(vm, *b)?, map_value(vm, *l)?, map_value(vm, *r)?),
        Val::App(a, b) => Val::App(map_value(vm, *a)?, map_value(vm, *b)?),
        Val::Pair(a, b) => Val::Pair(map_value(vm, *a)?, map_value(vm, *b)?),
        Val::Unglue(a, b) => Val::Unglue(map_value(vm, *a)?, map_value(vm, *b)?),
        Val::Fst(a) => Val::Fst(map_value(vm, *a)?),
        Val::Snd(a) => Val::Snd(map_value(vm, *a)?),
        Val::Suc(a) => Val::Suc(map_value(vm, *a)?),
        Val::PApp(a, d) => Val::PApp(map_value(vm, *a)?, *d),
        Val::If(p, a, b, c) => Val::If(map_value(vm, *p)?, map_value(vm, *a)?, map_value(vm, *b)?, map_value(vm, *c)?),
        Val::NatElim(p, a, b, c) => Val::NatElim(
            map_value(vm, *p)?,
            map_value(vm, *a)?,
            map_value(vm, *b)?,
            map_value(vm, *c)?,
        ),
        Val::Com(c) => Val::Com(Composition {
            dim: c.dim,
            family: map_value(vm, c.family)?,
            from: c.from,
            to: c.to,
            cap: map_value(vm, c.cap)?,
            tubes: map_branches(vm, fm, &c.tubes)?,
        }),
        Val::System(a, bs) => Val::System(map_value(vm, *a)?, map_branches(vm, fm, bs)?),
        Val::GlueIntro(a, bs) => Val::GlueIntro(map_value(vm, *a)?, map_branches(vm, fm, bs)?),
        Val::Glue(a, bs) => {
            let mut out: Vec<(FaceId, ValId, ValId)> = Vec::new();
            let mut k: usize = 0;
            while k < bs.len()
                invariant
                    k <= bs@.len(),
                    triples_mapped(vm@, fm@, bs@.take(k as int)),
                    triples_renumbered(vm@, fm@, bs@.take(k as int), out@),
                decreases bs@.len() - k,
            {
                let ghost done = bs@.take(k as int);
                let f = match map_face(fm, bs[k].0) {
                    Ok(f) => f,
                    Err(e) => {
                        assert(bs@[k as int] == bs@[k as int]);
                        return Err(e);
                    },
                };
                let x = match map_value(vm, bs[k].1) {
                    Ok(x) => x,
                    Err(e) => {
                        assert(bs@[k as int] == bs@[k as int]);
                        return Err(e);
                    },
                };
                let y = match map_value(vm, bs[k].2) {
                    Ok(y) => y,
                    Err(e) => {
                        assert(bs@[k as int] == bs@[k as int]);
                        return Err(e);
                    },
                };
                out.push((f, x, y));
                k += 1;
                assert(bs@.take(k as int) =~= done.push(bs@[k - 1]));
            }
            assert(bs@.take(bs@.len() as int) =~= bs@);
            Val::Glue(map_value(vm, *a)?, out)
        },
        Val::U(l) => Val::U(*l),
        Val::Bool => Val::Bool,
        Val::True => Val::True,
        Val::False => Val::False,
        Val::Nat => Val::Nat,
        Val::Zero => Val::Zero,
    })
}

/// The values that value `v` refers to, in order.
pub open spec fn child_values(v: Val) -> Seq<ValId> {
    match v {
        Val::Sub(a, _) => seq![a],
        Val::Var(_, t) => match t {
            Some(t) => seq![t],
            None => seq![],
        },
        Val::Pi(a, b) | Val::Sigma(a, b) => seq![a, b.body],
        Val::Lam(b) | Val::PLam(b) => seq![b.body],
        Val::Path(b, l, r) => seq![b.body, l, r],
        Val::App(a, b) | Val::Pair(a, b) | Val::Unglue(a, b) => seq![a, b],
        Val::Fst(a) | Val::Snd(a) | Val::Suc(a) | Val::PApp(a, _) => seq![a],
        Val::If(p, a, b, c) | Val::NatElim(p, a, b, c) => seq![p, a, b, c],
        Val::Com(c) => seq![c.family, c.cap] + c.tubes@.map_values(|t: (FaceId, ValId)| t.1),
        Val::System(a, bs) | Val::GlueIntro(a, bs) => seq![a] + bs@.map_values(|t: (FaceId, ValId)| t.1),
        Val::Glue(a, bs) => seq![a] + glue_values(bs@),
        _ => seq![],
    }
}

/// The type and equivalence of each Glue branch, in order.
pub open spec fn glue_values(bs: Seq<(FaceId, ValId, ValId)>) -> Seq<ValId>
    decreases bs.len(),
{
    if bs.len() == 0 {
        seq![]
    } else {
        glue_values(bs.drop_last()) + seq![bs.last().1, bs.last().2]
    }
}

/// The environment or substitution that value `v` holds.
pub open spec fn child_roots(v: Val) -> Seq<Root> {
    match v {
        Val::Susp(_, e) => seq![Root::Env(e)],
        Val::Sub(_, s) => seq![Root::Sub(s)],
        _ => seq![],
    }
}

/// The faces of the branches of value `v`, in order.
pub open spec fn branch_faces(v: Val) -> Seq<FaceId> {
    match v {
        Val::Com(c) => c.tubes@.map_values(|t: (FaceId, ValId)| t.0),
        Val::System(_, bs) | Val::GlueIntro(_, bs) => bs@.map_values(|t: (FaceId, ValId)| t.0),
        Val::Glue(_, bs) => bs@.map_values(|t: (FaceId, ValId, ValId)| t.0),
        _ => seq![],
    }
}

/// The values that value `v` refers to, and the environment or substitution it holds.
fn children(v: &Val, vals: &mut Vec<ValId>, work: &mut Vec<Root>)
    ensures
        final(vals)@ == old(vals)@ + child_values(*v),
        final(work)@ == old(work)@ + child_roots(*v),
{
    match v {
        Val::Susp(_, e) => work.push(Root::Env(*e)),
        Val::Sub(a, s) => {
            vals.push(*a);
            work.push(Root::Sub(*s));
        },
        Val::Var(_, t) => {
            if let Some(t) = t {
                vals.push(*t);
            }
        },
        Val::Pi(a, b) | Val::Sigma(a, b) => {
            vals.push(*a);
            vals.push(b.body);
        },
        Val::Lam(b) | Val::PLam(b) => vals.push(b.body),
        Val::Path(b, l, r) => {
            vals.push(b.body);
            vals.push(*l);
            vals.push(*r);
        },
        Val::App(a, b) | Val::Pair(a, b) | Val::Unglue(a, b) => {
            vals.push(*a);
            vals.push(*b);
        },
        Val::Fst(a) | Val::Snd(a) | Val::Suc(a) | Val::PApp(a, _) => vals.push(*a),
        Val::If(p, a, b, c) | Val::NatElim(p, a, b, c) => {
            vals.push(*p);
            vals.push(*a);
            vals.push(*b);
            vals.push(*c);
        },
        Val::Com(c) => {
            vals.push(c.family);
            vals.push(c.cap);
            let mut k: usize = 0;
            while k < c.tubes.len()
                invariant
                    k <= c.tubes@.len(),
                    vals@ == old(vals)@ + seq![c.family, c.cap] + c.tubes@.take(k as int).map_values(
                        |t: (FaceId, ValId)| t.1,
                    ),
                    work@ == old(work)@,
                decreases c.tubes@.len() - k,
            {
                vals.push(c.tubes[k].1);
                k += 1;
                assert(c.tubes@.take(k as int).map_values(|t: (FaceId, ValId)| t.1) =~= c.tubes@.take(
                    k - 1,
                ).map_values(|t: (FaceId, ValId)| t.1).push(c.tubes@[k - 1].1));
            }
            assert(c.tubes@.take(c.tubes@.len() as int) =~= c.tubes@);
        },
        Val::System(a, bs) | Val::GlueIntro(a, bs) => {
            vals.push(*a);
            let mut k: usize = 0;
            while k < bs.len()
                invariant
                    k <= bs@.len(),
                    vals@ == old(vals)@ + seq![*a] + bs@.take(k as int).map_values(|t: (FaceId, ValId)| t.1),
                    work@ == old(work)@,
                decreases bs@.len() - k,
            {
                vals.push(bs[k].1);
                k += 1;
                assert(bs@.take(k as int).map_values(|t: (FaceId, ValId)| t.1) =~= bs@.take(k - 1).map_values(
                    |t: (FaceId, ValId)| t.1,
                ).push(bs@[k - 1].1));
            }
            assert(bs@.take(bs@.len() as int) =~= bs@);
        },
        Val::Glue(a, bs) => {
            vals.push(*a);
            let mut k: usize = 0;
            while k < bs.len()
                invariant
                    k <= bs@.len(),
                    vals@ == old(vals)@ + seq![*a] + glue_values(bs@.take(k as int)),
                    work@ == old(work)@,
                decreases bs@.len() - k,
            {
                vals.push(bs[k].1);
                vals.push(bs[k].2);
                k += 1;
                assert(bs@.take(k as int).drop_last() =~= bs@.take(k - 1));
            }
            assert(bs@.take(bs@.len() as int) =~= bs@);
        },
        _ => {},
    }
}

/// The faces that value `v` refers to.
fn value_faces(v: &Val, faces: &mut Vec<FaceId>)
    ensures
        final(faces)@.len() >= old(faces)@.len(),
        forall|k: int| 0 <= k < old(faces)@.len() ==> #[trigger] final(faces)@[k] == old(faces)@[k],
        final(faces)@ == old(faces)@ + branch_faces(*v),
{
    match v {
        Val::Com(c) => {
            let mut k: usize = 0;
            while k < c.tubes.len()
                invariant
                    k <= c.tubes@.len(),
                    faces@.len() >= old(faces)@.len(),
                    forall|j: int| 0 <= j < old(faces)@.len() ==> #[trigger] faces@[j] == old(faces)@[j],
                    faces@ == old(faces)@ + c.tubes@.take(k as int).map_values(|t: (FaceId, ValId)| t.0),
                decreases c.tubes@.len() - k,
            {
                faces.push(c.tubes[k].0);
                k += 1;
                assert(c.tubes@.take(k as int).map_values(|t: (FaceId, ValId)| t.0) =~= c.tubes@.take(
                    k - 1,
                ).map_values(|t: (FaceId, ValId)| t.0).push(c.tubes@[k - 1].0));
            }
            assert(c.tubes@.take(c.tubes@.len() as int) =~= c.tubes@);
        },
        Val::System(_, bs) | Val::GlueIntro(_, bs) => {
            let mut k: usize = 0;
            while k < bs.len()
                invariant
                    k <= bs@.len(),
                    faces@.len() >= old(faces)@.len(),
                    forall|j: int| 0 <= j < old(faces)@.len() ==> #[trigger] faces@[j] == old(faces)@[j],
                    faces@ == old(faces)@ + bs@.take(k as int).map_values(|t: (FaceId, ValId)| t.0),
                decreases bs@.len() - k,
            {
                faces.push(bs[k].0);
                k += 1;
                assert(bs@.take(k as int).map_values(|t: (FaceId, ValId)| t.0) =~= bs@.take(k - 1).map_values(
                    |t: (FaceId, ValId)| t.0,
                ).push(bs@[k - 1].0));
            }
            assert(bs@.take(bs@.len() as int) =~= bs@);
        },
        Val::Glue(_, bs) => {
            let mut k: usize = 0;
            while k < bs.len()
                invariant
                    k <= bs@.len(),
                    faces@.len() >= old(faces)@.len(),
                    forall|j: int| 0 <= j < old(faces)@.len() ==> #[trigger] faces@[j] == old(faces)@[j],
                    faces@ == old(faces)@ + bs@.take(k as int).map_values(|t: (FaceId, ValId, ValId)| t.0),
                decreases bs@.len() - k,
            {
                faces.push(bs[k].0);
                k += 1;
                assert(bs@.take(k as int).map_values(|t: (FaceId, ValId, ValId)| t.0) =~= bs@.take(
                    k - 1,
                ).map_values(|t: (FaceId, ValId, ValId)| t.0).push(bs@[k - 1].0));
            }
            assert(bs@.take(bs@.len() as int) =~= bs@);
        },
        _ => {
            assert(old(faces)@ + branch_faces(*v) =~= old(faces)@);
        },
    }
}

fn marks(n: usize) -> (r: Vec<bool>)
    ensures
        r@.len() == n,
        forall|i: int| 0 <= i < n ==> !#[trigger] r@[i],
{
    let mut v: Vec<bool> = Vec::new();
    let mut i: usize = 0;
    while i < n
        invariant
            i <= n,
            v@.len() == i,
            forall|k: int| 0 <= k < i ==> !#[trigger] v@[k],
        decreases n - i,
    {
        v.push(false);
        i += 1;
    }
    v
}

impl<'a> Engine<'a> {
    /// Whether the arenas have grown past the next collection point.
    pub fn should_collect(&self) -> (r: bool)
        ensures
            r == (self.optimized && self.counted_nodes() > self.collection_at),
    {
        self.optimized && self.node_count() > self.collection_at
    }

    /// Keeps only the nodes reachable from `roots` and `face_roots`, renumbering
    /// them in order and rewriting the roots. Evaluation caches are emptied.
    pub fn collect_quote(&mut self, roots: &mut Vec<ValId>, face_roots: &mut Vec<FaceId>) -> (r: Result<()>)
        requires
            old(self).inv(),
        ensures
            final(self).inv(),
            final(self).fuel == old(self).fuel,
            final(self).calls_left() <= old(self).calls_left(),
            final(roots)@.len() == old(roots)@.len(),
            final(face_roots)@.len() == old(face_roots)@.len(),
            r is Ok ==> final(self).collection_at >= crate::eval::collection_floor(old(self).max_nodes),
            r is Ok ==> final(self).reclaimed_nodes >= old(self).reclaimed_nodes,
            r is Ok ==> final(self).collections == if old(self).collections == usize::MAX {
                usize::MAX
            } else {
                (old(self).collections + 1) as usize
            },
            r is Ok ==> forall|k: int| 0 <= k < final(roots)@.len() ==> (#[trigger] final(roots)@[k]).0 < final(self).values@.len(),
            r is Ok ==> exists|vm: Seq<usize>, em: Seq<usize>, sm: Seq<usize>, fm: Seq<usize>|
                collected(old(self).values@, final(self).values@, old(roots)@, final(roots)@, vm, em, sm, fm),
            r is Ok ==> forall|k: int| 0 <= k < final(face_roots)@.len() ==> final(self).faces.valid(
                #[trigger] final(face_roots)@[k],
            ),
            r is Ok ==> forall|k: int, rho: spec_fn(u32) -> int|
                0 <= k < final(face_roots)@.len() ==> #[trigger] crate::face::face_holds(
                    final(self).faces@,
                    final(face_roots)@[k].0 as int,
                    rho,
                ) == crate::face::face_holds(old(self).faces@, old(face_roots)@[k].0 as int, rho),
    {
        let mut vs = marks(self.values.len());
        let mut es = marks(self.envs.len());
        let mut ss = marks(self.subs.len());
        let mut work: Vec<Root> = Vec::new();
        let mut k: usize = 0;
        while k < roots.len()
            invariant
                k <= roots@.len(),
            decreases roots@.len() - k,
        {
            work.push(Root::Value(roots[k]));
            k += 1;
        }
        while work.len() > 0
            invariant
                self.inv(),
                self.fuel == old(self).fuel,
                self.calls_left() <= old(self).calls_left(),
                self.faces@ == old(self).faces@,
                self.values@ == old(self).values@,
                self.max_nodes == old(self).max_nodes,
                self.collections == old(self).collections,
                self.reclaimed_nodes == old(self).reclaimed_nodes,
                face_roots@ == old(face_roots)@,
                vs@.len() == self.values@.len(),
                es@.len() == self.envs@.len(),
                ss@.len() == self.subs@.len(),
            decreases self.calls_left(),
        {
            self.spend()?;
            let r = match work.pop() {
                Some(r) => r,
                None => {
                    break;
                },
            };
            match r {
                Root::Value(v) => {
                    if !mark(&mut vs, v.0)? {
                        continue;
                    }
                    let mut vals: Vec<ValId> = Vec::new();
                    children(self.values.get(v.0), &mut vals, &mut work);
                    let mut j: usize = 0;
                    while j < vals.len()
                        invariant
                            j <= vals@.len(),
                        decreases vals@.len() - j,
                    {
                        work.push(Root::Value(vals[j]));
                        j += 1;
                    }
                },
                Root::Env(e) => {
                    if !mark(&mut es, e.0)? {
                        continue;
                    }
                    let env = self.envs.get(e.0);
                    let mut j: usize = 0;
                    while j < env.terms.len()
                        invariant
                            j <= env.terms@.len(),
                        decreases env.terms@.len() - j,
                    {
                        work.push(Root::Value(env.terms[j]));
                        j += 1;
                    }
                },
                Root::Sub(s) => {
                    if !mark(&mut ss, s.0)? {
                        continue;
                    }
                    let sub = self.subs.get(s.0);
                    let mut j: usize = 0;
                    while j < sub.terms.len()
                        invariant
                            j <= sub.terms@.len(),
                        decreases sub.terms@.len() - j,
                    {
                        work.push(Root::Value(sub.terms[j].1));
                        j += 1;
                    }
                    if let Some((a, b)) = sub.compose {
                        work.push(Root::Sub(a));
                        work.push(Root::Sub(b));
                    }
                },
            }
        }
        let old_faces = self.faces.len();
        let mut all_faces: Vec<FaceId> = Vec::new();
        let mut k: usize = 0;
        while k < face_roots.len()
            invariant
                k <= face_roots@.len(),
                all_faces@.len() == k,
                face_roots@ == old(face_roots)@,
                forall|j: int| 0 <= j < k ==> #[trigger] all_faces@[j] == old(face_roots)@[j],
            decreases face_roots@.len() - k,
        {
            all_faces.push(face_roots[k]);
            k += 1;
        }
        let mut i: usize = 0;
        while i < vs.len()
            invariant
                vs@.len() == self.values@.len(),
                all_faces@.len() >= face_roots@.len(),
                face_roots@ == old(face_roots)@,
                forall|j: int| 0 <= j < face_roots@.len() ==> #[trigger] all_faces@[j] == old(face_roots)@[j],
            decreases vs@.len() - i,
        {
            if vs[i] {
                value_faces(self.values.get(i), &mut all_faces);
            }
            i += 1;
        }
        let mut k: usize = 0;
        while k < all_faces.len()
            invariant
                self.inv(),
                self.fuel == old(self).fuel,
                self.faces@ == old(self).faces@,
                k <= all_faces@.len(),
                forall|j: int| 0 <= j < k ==> self.faces.valid(#[trigger] all_faces@[j]),
            decreases all_faces@.len() - k,
        {
            self.valid_face(all_faces[k])?;
            k += 1;
        }
        let ghost before_compact = all_faces@;
        let fm = self.faces.compact(&mut all_faces);
        let mut k: usize = 0;
        while k < face_roots.len()
            invariant
                face_roots@.len() == old(face_roots)@.len(),
                all_faces@.len() >= face_roots@.len(),
                k <= face_roots@.len(),
                forall|j: int| 0 <= j < k ==> #[trigger] face_roots@[j] == all_faces@[j],
            decreases face_roots@.len() - k,
        {
            face_roots.set(k, all_faces[k]);
            k += 1;
        }
        proof {
            assert forall|j: int, rho: spec_fn(u32) -> int|
                0 <= j < face_roots@.len() implies #[trigger] crate::face::face_holds(
                    self.faces@,
                    face_roots@[j].0 as int,
                    rho,
                ) == crate::face::face_holds(old(self).faces@, old(face_roots)@[j].0 as int, rho) by {
                assert(face_roots@[j] == all_faces@[j]);
                assert(before_compact[j] == old(face_roots)@[j]);
                assert(crate::face::face_holds(self.faces@, all_faces@[j].0 as int, rho) == crate::face::face_holds(
                    old(self).faces@,
                    before_compact[j].0 as int,
                    rho,
                ));
            }
        }
        let ghost new_faces = self.faces@;
        self.reclaimed_nodes = self.reclaimed_nodes.saturating_add(old_faces.saturating_sub(self.faces.len()));
        let vm = numbering(&vs);
        let em = numbering(&es);
        let sm = numbering(&ss);
        let mut values: Arena<Val> = Arena::new();
        let mut i: usize = 0;
        while i < vs.len()
            invariant
                vs@.len() == self.values@.len(),
                self.values@ == old(self).values@,
                i <= vs@.len(),
                values@.len() == marked_count(vs@.take(i as int)),
                vm@.len() == vs@.len(),
                forall|k: int| 0 <= k < vs@.len() ==> (#[trigger] vs@[k] <==> vm@[k] != usize::MAX),
                forall|k: int| 0 <= k < vs@.len() && vs@[k] ==> #[trigger] vm@[k] == marked_count(vs@.take(k)),
                forall|k: int|
                    0 <= k < i && mapped(vm@, k) ==> (#[trigger] vm@[k]) < values@.len() && val_renumbered(
                        vm@,
                        em@,
                        sm@,
                        fm@,
                        self.values@[k],
                        values@[vm@[k] as int],
                    ),
            decreases vs@.len() - i,
        {
            assert(vs@.take(i + 1).drop_last() =~= vs@.take(i as int));
            if vs[i] {
                let new = map_val(&vm, &em, &sm, &fm, self.values.get(i))?;
                values.store(new);
            }
            i += 1;
        }
        assert(vs@.take(vs@.len() as int) =~= vs@);
        let mut envs: Arena<Env> = Arena::new();
        let mut i: usize = 0;
        while i < es.len()
            invariant
                es@.len() == self.envs@.len(),
            decreases es@.len() - i,
        {
            if es[i] {
                let old = self.envs.get(i);
                let mut terms: Vec<ValId> = Vec::new();
                let mut j: usize = 0;
                while j < old.terms.len()
                    invariant
                        j <= old.terms@.len(),
                    decreases old.terms@.len() - j,
                {
                    terms.push(map_value(&vm, old.terms[j])?);
                    j += 1;
                }
                envs.store(Env { terms, dims: old.dims.clone() });
            }
            i += 1;
        }
        let mut subs: Arena<Sub> = Arena::new();
        let mut i: usize = 0;
        while i < ss.len()
            invariant
                ss@.len() == self.subs@.len(),
            decreases ss@.len() - i,
        {
            if ss[i] {
                let old = self.subs.get(i);
                let mut terms: Vec<(u32, ValId)> = Vec::new();
                let mut j: usize = 0;
                while j < old.terms.len()
                    invariant
                        j <= old.terms@.len(),
                    decreases old.terms@.len() - j,
                {
                    terms.push((old.terms[j].0, map_value(&vm, old.terms[j].1)?));
                    j += 1;
                }
                let compose = match old.compose {
                    Some((a, b)) => Some((SubId(renumber(&sm, a.0)?), SubId(renumber(&sm, b.0)?))),
                    None => None,
                };
                subs.store(Sub { terms, dims: old.dims.clone(), compose });
            }
            i += 1;
        }
        let mut k: usize = 0;
        while k < roots.len()
            invariant
                roots@.len() == old(roots)@.len(),
                k <= roots@.len(),
                vm@.len() == vs@.len(),
                forall|i: int| 0 <= i < vs@.len() && vs@[i] ==> #[trigger] vm@[i] < marked_count(vs@),
                forall|i: int| 0 <= i < vs@.len() ==> (#[trigger] vs@[i] <==> vm@[i] != usize::MAX),
                values@.len() == marked_count(vs@),
                forall|j: int| 0 <= j < k ==> (#[trigger] roots@[j]).0 < values@.len(),
                forall|j: int| 0 <= j < k ==> renumbered(vm@, (#[trigger] old(roots)@[j]).0, roots@[j].0),
                forall|j: int| k <= j < roots@.len() ==> #[trigger] roots@[j] == old(roots)@[j],
            decreases roots@.len() - k,
        {
            let mapped = map_value(&vm, roots[k])?;
            roots.set(k, mapped);
            k += 1;
        }
        let before = self.values.len().saturating_add(self.envs.len()).saturating_add(self.subs.len());
        let after = values.len().saturating_add(envs.len()).saturating_add(subs.len());
        self.reclaimed_nodes = self.reclaimed_nodes.saturating_add(before.saturating_sub(after));
        self.collections = self.collections.saturating_add(1);
        let half = self.max_nodes / 2;
        let floor = if half < 1 {
            1
        } else if half > 250_000 {
            250_000
        } else {
            half
        };
        let total = after.saturating_add(self.faces.len());
        let live = total.saturating_add(total);
        self.collection_at = if live > floor { live } else { floor };
        self.values = values;
        self.envs = envs;
        self.subs = subs;
        self.cache = IdMap::default();
        self.globals = IdMap::default();
        self.sub_cache = IdMap::default();
        self.push_cache = IdMap::default();
        self.unfold_cache = IdMap::default();
        self.support_cache = IdMap::default();
        self.value_intern = IdMap::default();
        self.env_intern = IdMap::default();
        self.sub_intern = IdMap::default();
        let ghost new_values = self.values@;
        let ghost collection_at0 = self.collection_at;
        let ghost collections0 = self.collections;
        let ghost reclaimed0 = self.reclaimed_nodes;
        assert(collected(old(self).values@, self.values@, old(roots)@, roots@, vm@, em@, sm@, fm@));
        if self.optimized {
            let mut i: usize = 0;
            while i < self.values.len()
                invariant
                    self.inv(),
                    self.fuel == old(self).fuel,
                    self.calls_left() <= old(self).calls_left(),
                    self.values@ == new_values,
                    self.faces@ == new_faces,
                    self.collection_at == collection_at0,
                    self.collections == collections0,
                    self.reclaimed_nodes == reclaimed0,
                decreases self.values@.len() - i,
            {
                let v = self.values.get(i).clone();
                self.value_intern.insert(v, ValId(i));
                i += 1;
            }
            let mut i: usize = 0;
            while i < self.envs.len()
                invariant
                    self.inv(),
                    self.fuel == old(self).fuel,
                    self.calls_left() <= old(self).calls_left(),
                    self.values@ == new_values,
                    self.faces@ == new_faces,
                    self.collection_at == collection_at0,
                    self.collections == collections0,
                    self.reclaimed_nodes == reclaimed0,
                decreases self.envs@.len() - i,
            {
                let e = self.envs.get(i).clone();
                self.env_intern.insert(e, EnvId(i));
                i += 1;
            }
            let mut i: usize = 0;
            while i < self.subs.len()
                invariant
                    self.inv(),
                    self.fuel == old(self).fuel,
                    self.calls_left() <= old(self).calls_left(),
                    self.values@ == new_values,
                    self.faces@ == new_faces,
                    self.collection_at == collection_at0,
                    self.collections == collections0,
                    self.reclaimed_nodes == reclaimed0,
                decreases self.subs@.len() - i,
            {
                let s = self.subs.get(i).clone();
                self.sub_intern.insert(s, SubId(i));
                i += 1;
            }
        }
        Ok(())
    }
}

} // verus!
