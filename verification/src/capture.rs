//! Free de Bruijn slots needed by evaluation, not by checking annotations.
use vstd::prelude::*;
use std::collections::HashMap;
use crate::syntax::{D, F, Node, Program, Term, TermId};

verus! {

/// The free term slots and the free interval slots of a term, each strictly increasing.
pub type Slots = (Vec<usize>, Vec<usize>);

pub open spec fn increasing(v: Seq<usize>) -> bool {
    forall|i: int, j: int| 0 <= i < j < v.len() ==> v[i] < v[j]
}

/// Inserts `x` into a strictly increasing vector, keeping it strictly increasing.
#[verifier::spinoff_prover]
pub fn insert_slot(v: &mut Vec<usize>, x: usize)
    requires
        increasing(old(v)@),
    ensures
        increasing(final(v)@),
        forall|y: usize| #[trigger] final(v)@.contains(y) <==> (old(v)@.contains(y) || y == x),
{
    let mut i: usize = 0;
    while i < v.len() && v[i] < x
        invariant
            i <= v@.len(),
            increasing(v@),
            v@ == old(v)@,
            forall|j: int| 0 <= j < i ==> v@[j] < x,
        decreases v@.len() - i,
    {
        i += 1;
    }
    if i < v.len() && v[i] == x {
        assert forall|y: usize| v@.contains(y) <==> (old(v)@.contains(y) || y == x) by {
            if y == x {
                assert(v@[i as int] == x);
            }
        }
        return;
    }
    let ghost before = v@;
    v.insert(i, x);
    proof {
        assert(before == old(v)@);
        assert(v@ == before.insert(i as int, x));
        assert forall|y: usize| v@.contains(y) <==> (before.contains(y) || y == x) by {
            if v@.contains(y) {
                let k = choose|k: int| 0 <= k < v@.len() && v@[k] == y;
                if k < i {
                    assert(before[k] == y);
                } else if k > i {
                    assert(before[k - 1] == y);
                }
            }
            if before.contains(y) {
                let k = choose|k: int| 0 <= k < before.len() && before[k] == y;
                if k < i {
                    assert(v@[k] == y);
                } else {
                    assert(v@[k + 1] == y);
                }
            }
            if y == x {
                assert(v@[i as int] == x);
            }
        }
        assert(increasing(v@));
    }
    assert(forall|y: usize| #[trigger] v@.contains(y) <==> (old(v)@.contains(y) || y == x));
}

/// Whether interval syntax `d` is the slot `x`.
pub open spec fn dim_is(d: D, x: nat) -> bool {
    match d {
        D::Bound(i) => i == x,
        _ => false,
    }
}

/// Whether face `f` mentions interval slot `x`.
pub open spec fn face_mentions(f: F, x: nat) -> bool
    decreases f,
{
    match f {
        F::Eq(a, b) => dim_is(a, x) || dim_is(b, x),
        F::And(a, b) => face_mentions(*a, x) || face_mentions(*b, x),
        F::Or(a, b) => face_mentions(*a, x) || face_mentions(*b, x),
        _ => false,
    }
}

/// Whether term slot `x` occurs free in term `t`, where evaluation needs it: the
/// type of an annotation and the Glue type of a `glue` are not evaluated.
pub open spec fn free_term(nodes: Seq<Node>, t: nat, x: nat) -> bool
    decreases t, 2nat, 0nat,
{
    if t >= nodes.len() {
        false
    } else {
        match nodes[t as int].term {
            Term::Var(i) => i == x,
            Term::Pi(a, b) => free_term_in(nodes, a, t, x) || free_term_in(nodes, b, t, x + 1),
            Term::Sigma(a, b) => free_term_in(nodes, a, t, x) || free_term_in(nodes, b, t, x + 1),
            Term::Lam(b) => free_term_in(nodes, b, t, x + 1),
            Term::PLam(b) => free_term_in(nodes, b, t, x),
            Term::Path(a, l, r) => free_term_in(nodes, a, t, x) || free_term_in(nodes, l, t, x) || free_term_in(
                nodes,
                r,
                t,
                x,
            ),
            Term::App(a, b) => free_term_in(nodes, a, t, x) || free_term_in(nodes, b, t, x),
            Term::Pair(a, b) => free_term_in(nodes, a, t, x) || free_term_in(nodes, b, t, x),
            Term::Unglue(a, b) => free_term_in(nodes, a, t, x) || free_term_in(nodes, b, t, x),
            Term::Fst(a) => free_term_in(nodes, a, t, x),
            Term::Snd(a) => free_term_in(nodes, a, t, x),
            Term::Suc(a) => free_term_in(nodes, a, t, x),
            Term::Ann(a, _) => free_term_in(nodes, a, t, x),
            Term::PApp(a, _) => free_term_in(nodes, a, t, x),
            Term::If(a, b, c, d) => free_term_in(nodes, a, t, x) || free_term_in(nodes, b, t, x) || free_term_in(
                nodes,
                c,
                t,
                x,
            ) || free_term_in(nodes, d, t, x),
            Term::NatElim(a, b, c, d) => free_term_in(nodes, a, t, x) || free_term_in(nodes, b, t, x)
                || free_term_in(nodes, c, t, x) || free_term_in(nodes, d, t, x),
            Term::Com { family, cap, tubes, .. } => free_term_in(nodes, family, t, x) || free_term_in(nodes, cap, t, x)
                || free_term_branches(nodes, tubes@, t, x, tubes@.len()),
            Term::System(a, bs) => free_term_in(nodes, a, t, x) || free_term_branches(nodes, bs@, t, x, bs@.len()),
            Term::GlueIntro(_, a, bs) => free_term_in(nodes, a, t, x) || free_term_branches(nodes, bs@, t, x, bs@.len()),
            Term::Glue(a, bs) => free_term_in(nodes, a, t, x) || free_term_glue(nodes, bs@, t, x, bs@.len()),
            _ => false,
        }
    }
}

/// Whether term slot `x` is free in `c`, a child of term `t`.
pub open spec fn free_term_in(nodes: Seq<Node>, c: TermId, t: nat, x: nat) -> bool
    decreases t, 1nat, 0nat,
{
    (c.0 as nat) < t && free_term(nodes, c.0 as nat, x)
}

/// Whether term slot `x` is free in the body of one of the first `n` branches.
pub open spec fn free_term_branches(nodes: Seq<Node>, bs: Seq<(F, TermId)>, t: nat, x: nat, n: nat) -> bool
    decreases t, 1nat, n,
{
    0 < n <= bs.len() && (free_term_branches(nodes, bs, t, x, (n - 1) as nat) || free_term_in(
        nodes,
        bs[n - 1].1,
        t,
        x,
    ))
}

/// Whether term slot `x` is free in the type or equivalence of one of the first `n` Glue branches.
pub open spec fn free_term_glue(nodes: Seq<Node>, bs: Seq<(F, TermId, TermId)>, t: nat, x: nat, n: nat) -> bool
    decreases t, 1nat, n,
{
    0 < n <= bs.len() && (free_term_glue(nodes, bs, t, x, (n - 1) as nat) || free_term_in(nodes, bs[n - 1].1, t, x)
        || free_term_in(nodes, bs[n - 1].2, t, x))
}

/// Whether interval slot `x` occurs free in term `t`, where evaluation needs it.
pub open spec fn free_dim(nodes: Seq<Node>, t: nat, x: nat) -> bool
    decreases t, 2nat, 0nat,
{
    if t >= nodes.len() {
        false
    } else {
        match nodes[t as int].term {
            Term::Pi(a, b) => free_dim_in(nodes, a, t, x) || free_dim_in(nodes, b, t, x),
            Term::Sigma(a, b) => free_dim_in(nodes, a, t, x) || free_dim_in(nodes, b, t, x),
            Term::Lam(b) => free_dim_in(nodes, b, t, x),
            Term::PLam(b) => free_dim_in(nodes, b, t, x + 1),
            Term::Path(a, l, r) => free_dim_in(nodes, a, t, x + 1) || free_dim_in(nodes, l, t, x) || free_dim_in(
                nodes,
                r,
                t,
                x,
            ),
            Term::App(a, b) => free_dim_in(nodes, a, t, x) || free_dim_in(nodes, b, t, x),
            Term::Pair(a, b) => free_dim_in(nodes, a, t, x) || free_dim_in(nodes, b, t, x),
            Term::Unglue(a, b) => free_dim_in(nodes, a, t, x) || free_dim_in(nodes, b, t, x),
            Term::Fst(a) => free_dim_in(nodes, a, t, x),
            Term::Snd(a) => free_dim_in(nodes, a, t, x),
            Term::Suc(a) => free_dim_in(nodes, a, t, x),
            Term::Ann(a, _) => free_dim_in(nodes, a, t, x),
            Term::PApp(a, d) => free_dim_in(nodes, a, t, x) || dim_is(d, x),
            Term::If(a, b, c, d) => free_dim_in(nodes, a, t, x) || free_dim_in(nodes, b, t, x) || free_dim_in(
                nodes,
                c,
                t,
                x,
            ) || free_dim_in(nodes, d, t, x),
            Term::NatElim(a, b, c, d) => free_dim_in(nodes, a, t, x) || free_dim_in(nodes, b, t, x) || free_dim_in(
                nodes,
                c,
                t,
                x,
            ) || free_dim_in(nodes, d, t, x),
            Term::Com { family, from, to, cap, tubes } => free_dim_in(nodes, family, t, x + 1) || free_dim_in(
                nodes,
                cap,
                t,
                x,
            ) || dim_is(from, x) || dim_is(to, x) || free_dim_branches(nodes, tubes@, 1, t, x, tubes@.len()),
            Term::System(a, bs) => free_dim_in(nodes, a, t, x) || free_dim_branches(nodes, bs@, 0, t, x, bs@.len()),
            Term::GlueIntro(_, a, bs) => free_dim_in(nodes, a, t, x) || free_dim_branches(nodes, bs@, 0, t, x, bs@.len()),
            Term::Glue(a, bs) => free_dim_in(nodes, a, t, x) || free_dim_glue(nodes, bs@, t, x, bs@.len()),
            _ => false,
        }
    }
}

/// Whether interval slot `x` is free in `c`, a child of term `t`.
pub open spec fn free_dim_in(nodes: Seq<Node>, c: TermId, t: nat, x: nat) -> bool
    decreases t, 1nat, 0nat,
{
    (c.0 as nat) < t && free_dim(nodes, c.0 as nat, x)
}

/// Whether interval slot `x` is in the face of one of the first `n` branches,
/// or free in its body under `shift` interval binders.
pub open spec fn free_dim_branches(nodes: Seq<Node>, bs: Seq<(F, TermId)>, shift: nat, t: nat, x: nat, n: nat) -> bool
    decreases t, 1nat, n,
{
    0 < n <= bs.len() && (free_dim_branches(nodes, bs, shift, t, x, (n - 1) as nat) || face_mentions(bs[n - 1].0, x)
        || free_dim_in(nodes, bs[n - 1].1, t, x + shift))
}

/// Whether interval slot `x` is in the face, type or equivalence of one of the first `n` Glue branches.
pub open spec fn free_dim_glue(nodes: Seq<Node>, bs: Seq<(F, TermId, TermId)>, t: nat, x: nat, n: nat) -> bool
    decreases t, 1nat, n,
{
    0 < n <= bs.len() && (free_dim_glue(nodes, bs, t, x, (n - 1) as nat) || face_mentions(bs[n - 1].0, x)
        || free_dim_in(nodes, bs[n - 1].1, t, x) || free_dim_in(nodes, bs[n - 1].2, t, x))
}

/// `s` lists exactly the free term slots and the free interval slots of `t`, in increasing order.
pub open spec fn slots_of(nodes: Seq<Node>, t: nat, s: Slots) -> bool {
    &&& increasing(s.0@)
    &&& increasing(s.1@)
    &&& forall|x: usize| s.0@.contains(x) <==> free_term(nodes, t, x as nat)
    &&& forall|x: usize| s.1@.contains(x) <==> free_dim(nodes, t, x as nat)
}

/// Every memoized entry lists the free slots of its term.
pub open spec fn cache_ok(nodes: Seq<Node>, cache: Map<usize, Slots>) -> bool {
    forall|k: usize| #[trigger] cache.contains_key(k) ==> slots_of(nodes, k as nat, cache[k])
}

fn dim_slot(d: D, ds: &mut Vec<usize>)
    requires
        increasing(old(ds)@),
    ensures
        increasing(final(ds)@),
        forall|x: usize| #[trigger] final(ds)@.contains(x) <==> (old(ds)@.contains(x) || dim_is(d, x as nat)),
{
    if let D::Bound(i) = d {
        insert_slot(ds, i);
    }
}

fn face_slots(f: &F, ds: &mut Vec<usize>)
    requires
        increasing(old(ds)@),
    ensures
        increasing(final(ds)@),
        forall|x: usize| #[trigger] final(ds)@.contains(x) <==> (old(ds)@.contains(x) || face_mentions(*f, x as nat)),
    decreases f,
{
    let ghost d0 = ds@;
    match f {
        F::Eq(a, b) => {
            dim_slot(*a, ds);
            let ghost d1 = ds@;
            dim_slot(*b, ds);
            assert forall|x: usize| #[trigger] ds@.contains(x) <==> (d0.contains(x) || face_mentions(*f, x as nat)) by {
                assert(d1.contains(x) <==> (d0.contains(x) || dim_is(*a, x as nat)));
            }
        },
        F::And(a, b) | F::Or(a, b) => {
            face_slots(a, ds);
            let ghost d1 = ds@;
            face_slots(b, ds);
            assert forall|x: usize| #[trigger] ds@.contains(x) <==> (d0.contains(x) || face_mentions(*f, x as nat)) by {
                assert(d1.contains(x) <==> (d0.contains(x) || face_mentions(**a, x as nat)));
            }
        },
        _ => {},
    }
}

/// Adds `x` to `into` for each slot `x + n` of `from` (the slots seen under `n` binders).
fn add_shifted(into: &mut Vec<usize>, from: &Vec<usize>, n: usize)
    requires
        increasing(old(into)@),
    ensures
        increasing(final(into)@),
        forall|x: usize|
            #[trigger] final(into)@.contains(x) <==> (old(into)@.contains(x) || (x + n <= usize::MAX && from@.contains(
                (x + n) as usize,
            ))),
{
    let mut k: usize = 0;
    while k < from.len()
        invariant
            k <= from@.len(),
            increasing(into@),
            forall|x: usize|
                #[trigger] into@.contains(x) <==> (old(into)@.contains(x) || (x + n <= usize::MAX && from@.take(
                    k as int,
                ).contains((x + n) as usize))),
        decreases from@.len() - k,
    {
        let y = from[k];
        proof {
            assert forall|z: usize| #[trigger] from@.take(k + 1).contains(z) <==> (from@.take(k as int).contains(z) || z
                == y) by {
                if from@.take(k + 1).contains(z) {
                    let j = choose|j: int| 0 <= j < k + 1 && #[trigger] from@.take(k + 1)[j] == z;
                    if j < k {
                        assert(from@.take(k as int)[j] == z);
                    }
                }
                if from@.take(k as int).contains(z) {
                    let j = choose|j: int| 0 <= j < k && #[trigger] from@.take(k as int)[j] == z;
                    assert(from@.take(k + 1)[j] == z);
                }
                if z == y {
                    assert(from@.take(k + 1)[k as int] == z);
                }
            }
        }
        if y >= n {
            insert_slot(into, y - n);
        }
        k += 1;
    }
    assert(from@.take(from@.len() as int) =~= from@);
}

/// A copy of a vector of slots.
fn copy_slots(v: &Vec<usize>) -> (r: Vec<usize>)
    ensures
        r@ == v@,
{
    let mut r: Vec<usize> = Vec::new();
    let mut k: usize = 0;
    while k < v.len()
        invariant
            k <= v@.len(),
            r@ == v@.take(k as int),
        decreases v@.len() - k,
    {
        r.push(v[k]);
        k += 1;
        assert(r@ =~= v@.take(k as int));
    }
    assert(v@.take(v@.len() as int) =~= v@);
    r
}

/// No slot beyond `usize::MAX` is free: indices are `usize` and binders only add.
proof fn lemma_free_bounded(nodes: Seq<Node>, t: nat, x: nat)
    requires
        x > usize::MAX,
    ensures
        !free_term(nodes, t, x),
        !free_dim(nodes, t, x),
    decreases t, 2nat, 0nat,
{
    if t < nodes.len() {
        match nodes[t as int].term {
            Term::Pi(a, b) | Term::Sigma(a, b) | Term::App(a, b) | Term::Pair(a, b) | Term::Unglue(a, b) => {
                lemma_free_bounded_in(nodes, a, t, x);
                lemma_free_bounded_in(nodes, b, t, x);
                lemma_free_bounded_in(nodes, b, t, x + 1);
            },
            Term::Lam(b) | Term::PLam(b) | Term::Fst(b) | Term::Snd(b) | Term::Suc(b) | Term::Ann(b, _) | Term::PApp(b, _) => {
                lemma_free_bounded_in(nodes, b, t, x);
                lemma_free_bounded_in(nodes, b, t, x + 1);
            },
            Term::Path(a, l, r) => {
                lemma_free_bounded_in(nodes, a, t, x);
                lemma_free_bounded_in(nodes, a, t, x + 1);
                lemma_free_bounded_in(nodes, l, t, x);
                lemma_free_bounded_in(nodes, r, t, x);
            },
            Term::If(a, b, c, d) | Term::NatElim(a, b, c, d) => {
                lemma_free_bounded_in(nodes, a, t, x);
                lemma_free_bounded_in(nodes, b, t, x);
                lemma_free_bounded_in(nodes, c, t, x);
                lemma_free_bounded_in(nodes, d, t, x);
            },
            Term::Com { family, cap, tubes, .. } => {
                lemma_free_bounded_in(nodes, family, t, x);
                lemma_free_bounded_in(nodes, family, t, x + 1);
                lemma_free_bounded_in(nodes, cap, t, x);
                lemma_free_bounded_branches(nodes, tubes@, t, x, tubes@.len());
            },
            Term::System(a, bs) | Term::GlueIntro(_, a, bs) => {
                lemma_free_bounded_in(nodes, a, t, x);
                lemma_free_bounded_branches(nodes, bs@, t, x, bs@.len());
            },
            Term::Glue(a, bs) => {
                lemma_free_bounded_in(nodes, a, t, x);
                lemma_free_bounded_glue(nodes, bs@, t, x, bs@.len());
            },
            _ => {},
        }
    }
}

proof fn lemma_free_bounded_in(nodes: Seq<Node>, c: TermId, t: nat, x: nat)
    requires
        x > usize::MAX,
    ensures
        !free_term_in(nodes, c, t, x),
        !free_dim_in(nodes, c, t, x),
    decreases t, 1nat, 0nat,
{
    if (c.0 as nat) < t {
        lemma_free_bounded(nodes, c.0 as nat, x);
    }
}

proof fn lemma_free_bounded_branches(nodes: Seq<Node>, bs: Seq<(F, TermId)>, t: nat, x: nat, n: nat)
    requires
        x > usize::MAX,
    ensures
        !free_term_branches(nodes, bs, t, x, n),
        !free_dim_branches(nodes, bs, 0, t, x, n),
        !free_dim_branches(nodes, bs, 1, t, x, n),
    decreases t, 1nat, n,
{
    if 0 < n <= bs.len() {
        lemma_free_bounded_branches(nodes, bs, t, x, (n - 1) as nat);
        lemma_free_bounded_in(nodes, bs[n - 1].1, t, x);
        lemma_free_bounded_in(nodes, bs[n - 1].1, t, x + 1);
        lemma_face_bounded(bs[n - 1].0, x);
    }
}

proof fn lemma_free_bounded_glue(nodes: Seq<Node>, bs: Seq<(F, TermId, TermId)>, t: nat, x: nat, n: nat)
    requires
        x > usize::MAX,
    ensures
        !free_term_glue(nodes, bs, t, x, n),
        !free_dim_glue(nodes, bs, t, x, n),
    decreases t, 1nat, n,
{
    if 0 < n <= bs.len() {
        lemma_free_bounded_glue(nodes, bs, t, x, (n - 1) as nat);
        lemma_free_bounded_in(nodes, bs[n - 1].1, t, x);
        lemma_free_bounded_in(nodes, bs[n - 1].2, t, x);
        lemma_face_bounded(bs[n - 1].0, x);
    }
}

proof fn lemma_face_bounded(f: F, x: nat)
    requires
        x > usize::MAX,
    ensures
        !face_mentions(f, x),
    decreases f,
{
    match f {
        F::And(a, b) | F::Or(a, b) => {
            lemma_face_bounded(*a, x);
            lemma_face_bounded(*b, x);
        },
        _ => {},
    }
}

/// Every free slot of a term fits in a `usize`.
pub proof fn lemma_free_in_range(nodes: Seq<Node>, t: nat)
    ensures
        forall|y: nat| #[trigger] free_term(nodes, t, y) ==> y <= usize::MAX,
        forall|y: nat| #[trigger] free_dim(nodes, t, y) ==> y <= usize::MAX,
{
    assert forall|y: nat| #[trigger] free_term(nodes, t, y) implies y <= usize::MAX by {
        if y > usize::MAX {
            lemma_free_bounded(nodes, t, y);
        }
    }
    assert forall|y: nat| #[trigger] free_dim(nodes, t, y) implies y <= usize::MAX by {
        if y > usize::MAX {
            lemma_free_bounded(nodes, t, y);
        }
    }
}

/// Adds the free slots of child `c`, seen under `nt` term binders and `nd` interval binders.
fn add_child(
    p: &Program,
    c: TermId,
    nt: usize,
    nd: usize,
    ts: &mut Vec<usize>,
    ds: &mut Vec<usize>,
    cache: &mut HashMap<usize, Slots>,
)
    requires
        p.wf(),
        c.0 < p.terms@.len(),
        increasing(old(ts)@),
        increasing(old(ds)@),
        cache_ok(p.terms@, old(cache)@),
    ensures
        increasing(final(ts)@),
        increasing(final(ds)@),
        cache_ok(p.terms@, final(cache)@),
        forall|x: usize|
            #[trigger] final(ts)@.contains(x) <==> (old(ts)@.contains(x) || free_term(
                p.terms@,
                c.0 as nat,
                (x + nt) as nat,
            )),
        forall|x: usize|
            #[trigger] final(ds)@.contains(x) <==> (old(ds)@.contains(x) || free_dim(
                p.terms@,
                c.0 as nat,
                (x + nd) as nat,
            )),
    decreases c.0 + 1, 3nat,
{
    let (a, b) = slots(p, c, cache);
    add_shifted(ts, &a, nt);
    add_shifted(ds, &b, nd);
    proof {
        lemma_free_in_range(p.terms@, c.0 as nat);
    }
}

/// Adds the slots of the first `bs.len()` branches of term `t`: the interval slots
/// of each face, and the free slots of each body under `shift` interval binders.
fn add_branches(
    p: &Program,
    t: TermId,
    bs: &Vec<(F, TermId)>,
    shift: usize,
    ts: &mut Vec<usize>,
    ds: &mut Vec<usize>,
    cache: &mut HashMap<usize, Slots>,
)
    requires
        p.wf(),
        t.0 < p.terms@.len(),
        forall|j: int| 0 <= j < bs@.len() ==> (#[trigger] bs@[j]).1.0 < t.0,
        increasing(old(ts)@),
        increasing(old(ds)@),
        cache_ok(p.terms@, old(cache)@),
    ensures
        increasing(final(ts)@),
        increasing(final(ds)@),
        cache_ok(p.terms@, final(cache)@),
        forall|x: usize|
            #[trigger] final(ts)@.contains(x) <==> (old(ts)@.contains(x) || free_term_branches(
                p.terms@,
                bs@,
                t.0 as nat,
                x as nat,
                bs@.len(),
            )),
        forall|x: usize|
            #[trigger] final(ds)@.contains(x) <==> (old(ds)@.contains(x) || free_dim_branches(
                p.terms@,
                bs@,
                shift as nat,
                t.0 as nat,
                x as nat,
                bs@.len(),
            )),
    decreases t.0 + 1, 0nat,
{
    let ghost nodes = p.terms@;
    let ghost ts0 = ts@;
    let ghost ds0 = ds@;
    let mut k: usize = 0;
    while k < bs.len()
        invariant
            p.wf(),
            nodes == p.terms@,
            t.0 < nodes.len(),
            k <= bs@.len(),
            forall|j: int| 0 <= j < bs@.len() ==> (#[trigger] bs@[j]).1.0 < t.0,
            increasing(ts@),
            increasing(ds@),
            cache_ok(nodes, cache@),
            forall|x: usize|
                #[trigger] ts@.contains(x) <==> (ts0.contains(x) || free_term_branches(
                    nodes,
                    bs@,
                    t.0 as nat,
                    x as nat,
                    k as nat,
                )),
            forall|x: usize|
                #[trigger] ds@.contains(x) <==> (ds0.contains(x) || free_dim_branches(
                    nodes,
                    bs@,
                    shift as nat,
                    t.0 as nat,
                    x as nat,
                    k as nat,
                )),
        decreases bs@.len() - k,
    {
        let ghost t1 = ts@;
        let ghost d1 = ds@;
        face_slots(&bs[k].0, ds);
        let ghost d2 = ds@;
        add_child(p, bs[k].1, 0, shift, ts, ds, cache);
        proof {
            let b = bs@[k as int];
            assert forall|x: usize| #[trigger] ts@.contains(x) <==> (ts0.contains(x) || free_term_branches(
                nodes,
                bs@,
                t.0 as nat,
                x as nat,
                (k + 1) as nat,
            )) by {
                assert(t1.contains(x) <==> (ts0.contains(x) || free_term_branches(nodes, bs@, t.0 as nat, x as nat, k as nat)));
                assert((x + 0) as nat == x as nat);
                assert(free_term_in(nodes, b.1, t.0 as nat, x as nat) == free_term(nodes, b.1.0 as nat, x as nat));
            }
            assert forall|x: usize| #[trigger] ds@.contains(x) <==> (ds0.contains(x) || free_dim_branches(
                nodes,
                bs@,
                shift as nat,
                t.0 as nat,
                x as nat,
                (k + 1) as nat,
            )) by {
                assert(d1.contains(x) <==> (ds0.contains(x) || free_dim_branches(nodes, bs@, shift as nat, t.0 as nat, x as nat, k as nat)));
                assert(d2.contains(x) <==> (d1.contains(x) || face_mentions(b.0, x as nat)));
                assert(free_dim_in(nodes, b.1, t.0 as nat, (x + shift) as nat) == free_dim(nodes, b.1.0 as nat, (x + shift) as nat));
            }
        }
        k += 1;
    }
}

/// Adds the slots of the Glue branches of term `t`: the interval slots of each
/// face, and the free slots of each type and equivalence.
fn add_glue_branches(
    p: &Program,
    t: TermId,
    bs: &Vec<(F, TermId, TermId)>,
    ts: &mut Vec<usize>,
    ds: &mut Vec<usize>,
    cache: &mut HashMap<usize, Slots>,
)
    requires
        p.wf(),
        t.0 < p.terms@.len(),
        forall|j: int| 0 <= j < bs@.len() ==> (#[trigger] bs@[j]).1.0 < t.0 && bs@[j].2.0 < t.0,
        increasing(old(ts)@),
        increasing(old(ds)@),
        cache_ok(p.terms@, old(cache)@),
    ensures
        increasing(final(ts)@),
        increasing(final(ds)@),
        cache_ok(p.terms@, final(cache)@),
        forall|x: usize|
            #[trigger] final(ts)@.contains(x) <==> (old(ts)@.contains(x) || free_term_glue(
                p.terms@,
                bs@,
                t.0 as nat,
                x as nat,
                bs@.len(),
            )),
        forall|x: usize|
            #[trigger] final(ds)@.contains(x) <==> (old(ds)@.contains(x) || free_dim_glue(
                p.terms@,
                bs@,
                t.0 as nat,
                x as nat,
                bs@.len(),
            )),
    decreases t.0 + 1, 0nat,
{
    let ghost nodes = p.terms@;
    let ghost ts0 = ts@;
    let ghost ds0 = ds@;
    let mut k: usize = 0;
    while k < bs.len()
        invariant
            p.wf(),
            nodes == p.terms@,
            t.0 < nodes.len(),
            k <= bs@.len(),
            forall|j: int| 0 <= j < bs@.len() ==> (#[trigger] bs@[j]).1.0 < t.0 && bs@[j].2.0 < t.0,
            increasing(ts@),
            increasing(ds@),
            cache_ok(nodes, cache@),
            forall|x: usize|
                #[trigger] ts@.contains(x) <==> (ts0.contains(x) || free_term_glue(
                    nodes,
                    bs@,
                    t.0 as nat,
                    x as nat,
                    k as nat,
                )),
            forall|x: usize|
                #[trigger] ds@.contains(x) <==> (ds0.contains(x) || free_dim_glue(
                    nodes,
                    bs@,
                    t.0 as nat,
                    x as nat,
                    k as nat,
                )),
        decreases bs@.len() - k,
    {
        let ghost t1 = ts@;
        let ghost d1 = ds@;
        face_slots(&bs[k].0, ds);
        let ghost d2 = ds@;
        add_child(p, bs[k].1, 0, 0, ts, ds, cache);
        let ghost t3 = ts@;
        let ghost d3 = ds@;
        add_child(p, bs[k].2, 0, 0, ts, ds, cache);
        proof {
            let b = bs@[k as int];
            assert forall|x: usize| #[trigger] ts@.contains(x) <==> (ts0.contains(x) || free_term_glue(
                nodes,
                bs@,
                t.0 as nat,
                x as nat,
                (k + 1) as nat,
            )) by {
                assert(t1.contains(x) <==> (ts0.contains(x) || free_term_glue(nodes, bs@, t.0 as nat, x as nat, k as nat)));
                assert(t3.contains(x) <==> (t1.contains(x) || free_term(nodes, b.1.0 as nat, (x + 0) as nat)));
                assert((x + 0) as nat == x as nat);
                assert(free_term_in(nodes, b.1, t.0 as nat, x as nat) == free_term(nodes, b.1.0 as nat, x as nat));
                assert(free_term_in(nodes, b.2, t.0 as nat, x as nat) == free_term(nodes, b.2.0 as nat, x as nat));
            }
            assert forall|x: usize| #[trigger] ds@.contains(x) <==> (ds0.contains(x) || free_dim_glue(
                nodes,
                bs@,
                t.0 as nat,
                x as nat,
                (k + 1) as nat,
            )) by {
                assert(d1.contains(x) <==> (ds0.contains(x) || free_dim_glue(nodes, bs@, t.0 as nat, x as nat, k as nat)));
                assert(d2.contains(x) <==> (d1.contains(x) || face_mentions(b.0, x as nat)));
                assert(d3.contains(x) <==> (d2.contains(x) || free_dim(nodes, b.1.0 as nat, (x + 0) as nat)));
                assert((x + 0) as nat == x as nat);
                assert(free_dim_in(nodes, b.1, t.0 as nat, x as nat) == free_dim(nodes, b.1.0 as nat, x as nat));
                assert(free_dim_in(nodes, b.2, t.0 as nat, x as nat) == free_dim(nodes, b.2.0 as nat, x as nat));
            }
        }
        k += 1;
    }
}

/// The free slots of term `t`, memoized in `cache`.
pub fn slots(p: &Program, t: TermId, cache: &mut HashMap<usize, Slots>) -> (r: Slots)
    requires
        p.wf(),
        t.0 < p.terms@.len(),
        cache_ok(p.terms@, old(cache)@),
    ensures
        slots_of(p.terms@, t.0 as nat, r),
        cache_ok(p.terms@, final(cache)@),
    decreases t.0 + 1, 2nat,
{
    if let Some(s) = cache.get(&t.0) {
        proof {
            assert(cache@.contains_key(t.0));
        }
        return (copy_slots(&s.0), copy_slots(&s.1));
    }
    let (ts, ds) = fresh_slots(p, t, cache);
    let r0 = copy_slots(&ts);
    let r1 = copy_slots(&ds);
    let ghost before = cache@;
    cache.insert(t.0, (r0, r1));
    proof {
        assert forall|k: usize| #[trigger] cache@.contains_key(k) implies slots_of(p.terms@, k as nat, cache@[k]) by {
            if k != t.0 {
                assert(before.contains_key(k));
            }
        }
    }
    (ts, ds)
}

/// The free slots of term `t`, computed from those of its children.
fn fresh_slots(p: &Program, t: TermId, cache: &mut HashMap<usize, Slots>) -> (r: Slots)
    requires
        p.wf(),
        t.0 < p.terms@.len(),
        cache_ok(p.terms@, old(cache)@),
    ensures
        slots_of(p.terms@, t.0 as nat, r),
        cache_ok(p.terms@, final(cache)@),
    decreases t.0 + 1, 1nat,
{
    let ghost nodes = p.terms@;
    let mut ts: Vec<usize> = Vec::new();
    let mut ds: Vec<usize> = Vec::new();
    let node = p.terms.get(t.0);
    proof {
        assert(crate::syntax::term_below(nodes[t.0 as int].term, t.0 as int));
    }
    match &node.term {
        Term::Var(i) => {
            insert_slot(&mut ts, *i);
        },
        Term::Pi(a, b) | Term::Sigma(a, b) => {
            add_child(p, *a, 0, 0, &mut ts, &mut ds, cache);
            add_child(p, *b, 1, 0, &mut ts, &mut ds, cache);
        },
        Term::Lam(b) => add_child(p, *b, 1, 0, &mut ts, &mut ds, cache),
        Term::PLam(b) => add_child(p, *b, 0, 1, &mut ts, &mut ds, cache),
        Term::Path(a, l, r) => {
            add_child(p, *a, 0, 1, &mut ts, &mut ds, cache);
            add_child(p, *l, 0, 0, &mut ts, &mut ds, cache);
            add_child(p, *r, 0, 0, &mut ts, &mut ds, cache);
        },
        Term::App(a, b) | Term::Pair(a, b) | Term::Unglue(a, b) => {
            add_child(p, *a, 0, 0, &mut ts, &mut ds, cache);
            add_child(p, *b, 0, 0, &mut ts, &mut ds, cache);
        },
        Term::Fst(a) | Term::Snd(a) | Term::Suc(a) | Term::Ann(a, _) => add_child(p, *a, 0, 0, &mut ts, &mut ds, cache),
        Term::If(a, b, c, d) | Term::NatElim(a, b, c, d) => {
            add_child(p, *a, 0, 0, &mut ts, &mut ds, cache);
            add_child(p, *b, 0, 0, &mut ts, &mut ds, cache);
            add_child(p, *c, 0, 0, &mut ts, &mut ds, cache);
            add_child(p, *d, 0, 0, &mut ts, &mut ds, cache);
        },
        Term::PApp(q, d) => {
            add_child(p, *q, 0, 0, &mut ts, &mut ds, cache);
            dim_slot(*d, &mut ds);
        },
        Term::Com { family, from, to, cap, tubes } => {
            add_child(p, *family, 0, 1, &mut ts, &mut ds, cache);
            add_child(p, *cap, 0, 0, &mut ts, &mut ds, cache);
            dim_slot(*from, &mut ds);
            dim_slot(*to, &mut ds);
            add_branches(p, t, tubes, 1, &mut ts, &mut ds, cache);
        },
        Term::System(a, bs) | Term::GlueIntro(_, a, bs) => {
            add_child(p, *a, 0, 0, &mut ts, &mut ds, cache);
            add_branches(p, t, bs, 0, &mut ts, &mut ds, cache);
        },
        Term::Glue(a, bs) => {
            add_child(p, *a, 0, 0, &mut ts, &mut ds, cache);
            add_glue_branches(p, t, bs, &mut ts, &mut ds, cache);
        },
        _ => {},
    }
    (ts, ds)
}

} // verus!
