#![verifier::loop_isolation(false)]
//! Semantic expansions of fibers, contractibility, equivalences, and the
//! compositions in Glue types and in universes. There is no univalence constant.
use vstd::prelude::*;
use crate::eval::{arenas_grow, Binder, Composition, Engine, Val, ValId};
use crate::face::{Dim, FaceId};
use crate::Result;

verus! {

/// Each face of `tops` holds exactly where the matching face of `branches` holds
/// once dimension `x` is set to `d`.
pub open spec fn glue_faces_at_target<'b>(
    e: Engine<'b>,
    branches: Seq<(FaceId, ValId, ValId)>,
    tops: Seq<(FaceId, ValId)>,
    x: u32,
    d: Dim,
) -> bool {
    &&& tops.len() == branches.len()
    &&& forall|j: int|
        0 <= j < tops.len() ==> {
            &&& e.faces.valid((#[trigger] tops[j]).0)
            &&& e.faces.valid(branches[j].0)
            &&& forall|rho: spec_fn(u32) -> int|
                #[trigger] e.faces.holds(tops[j].0, rho) == e.faces.holds(
                    branches[j].0,
                    crate::face::update(rho, x, crate::face::dim_val(d, rho)),
                )
        }
}

/// `g` introduces a Glue value whose branch faces are those of `branches` at
/// `x = d`, and whose base is a composition running from one back to zero.
pub open spec fn composed_glue<'b>(
    e: Engine<'b>,
    g: ValId,
    branches: Seq<(FaceId, ValId, ValId)>,
    x: u32,
    d: Dim,
) -> bool {
    &&& g.0 < e.values@.len()
    &&& e.values@[g.0 as int] matches Val::GlueIntro(corrected, tops)
    &&& glue_faces_at_target(e, branches, tops@, x, d)
    &&& corrected.0 < e.values@.len()
    &&& e.values@[corrected.0 as int] matches Val::Com(k)
    &&& k.from == Dim::One
    &&& k.to == Dim::Zero
}

proof fn lemma_glue_faces_extend<'b>(
    a: Engine<'b>,
    b: Engine<'b>,
    branches: Seq<(FaceId, ValId, ValId)>,
    tops: Seq<(FaceId, ValId)>,
    x: u32,
    d: Dim,
)
    requires
        glue_faces_at_target(a, branches, tops, x, d),
        crate::face::extends(a.faces@, b.faces@),
    ensures
        glue_faces_at_target(b, branches, tops, x, d),
{
    assert forall|j: int| 0 <= j < tops.len() implies {
        &&& b.faces.valid((#[trigger] tops[j]).0)
        &&& b.faces.valid(branches[j].0)
        &&& forall|rho: spec_fn(u32) -> int|
            #[trigger] b.faces.holds(tops[j].0, rho) == b.faces.holds(
                branches[j].0,
                crate::face::update(rho, x, crate::face::dim_val(d, rho)),
            )
    } by {
        assert forall|rho: spec_fn(u32) -> int|
            #[trigger] b.faces.holds(tops[j].0, rho) == b.faces.holds(
                branches[j].0,
                crate::face::update(rho, x, crate::face::dim_val(d, rho)),
            ) by {
            crate::face::lemma_holds_extend(a.faces@, b.faces@, tops[j].0.0 as int, rho);
            crate::face::lemma_holds_extend(
                a.faces@,
                b.faces@,
                branches[j].0.0 as int,
                crate::face::update(rho, x, crate::face::dim_val(d, rho)),
            );
        }
    }
}

/// `r` is the type of fibers of `f: A -> B` over `y`, `Sigma x A (Path i B (f x) y)`.
pub open spec fn fiber_shape<'a>(e: Engine<'a>, r: ValId, a: ValId, b: ValId, f: ValId, y: ValId) -> bool {
    exists|x: u32, i: u32, xv: ValId, fx: ValId, path: ValId|
        #![trigger e.shape_at(path, Val::Path(Binder { var: i, body: b }, fx, y)), e.shape_at(xv, Val::Var(x, Some(a)))]
        {
            &&& e.shape_at(r, Val::Sigma(a, Binder { var: x, body: path }))
            &&& e.shape_at(path, Val::Path(Binder { var: i, body: b }, fx, y))
            &&& e.shape_at(fx, Val::App(f, xv))
            &&& e.shape_at(xv, Val::Var(x, Some(a)))
        }
}

/// `r` is the type of contractions of `A`, `Sigma x A (Pi y A (Path i A x y))`.
pub open spec fn contractible_shape<'a>(e: Engine<'a>, r: ValId, a: ValId) -> bool {
    exists|x: u32, y: u32, i: u32, xv: ValId, yv: ValId, p: ValId, all: ValId|
        #![trigger e.shape_at(p, Val::Path(Binder { var: i, body: a }, xv, yv)), e.shape_at(xv, Val::Var(x, Some(a))), e.shape_at(yv, Val::Var(y, Some(a))), e.shape_at(all, Val::Pi(a, Binder { var: y, body: p }))]
        {
            &&& e.shape_at(r, Val::Sigma(a, Binder { var: x, body: all }))
            &&& e.shape_at(all, Val::Pi(a, Binder { var: y, body: p }))
            &&& e.shape_at(p, Val::Path(Binder { var: i, body: a }, xv, yv))
            &&& e.shape_at(xv, Val::Var(x, Some(a)))
            &&& e.shape_at(yv, Val::Var(y, Some(a)))
        }
}

/// `r` states that `f: A -> B` is an equivalence, `Pi y B (Contr (Fiber f y))`.
pub open spec fn is_equiv_shape<'a>(e: Engine<'a>, r: ValId, a: ValId, b: ValId, f: ValId) -> bool {
    exists|y: u32, yv: ValId, fiber: ValId, contr: ValId|
        #![trigger e.shape_at(r, Val::Pi(b, Binder { var: y, body: contr })), e.shape_at(yv, Val::Var(y, Some(b))), fiber_shape(e, fiber, a, b, f, yv)]
        {
            &&& e.shape_at(r, Val::Pi(b, Binder { var: y, body: contr }))
            &&& e.shape_at(yv, Val::Var(y, Some(b)))
            &&& fiber_shape(e, fiber, a, b, f, yv)
            &&& contractible_shape(e, contr, fiber)
        }
}

/// `r` is the type of equivalences from `A` to `B`, `Sigma f (Pi x A B) (IsEquiv f)`.
pub open spec fn equiv_shape<'a>(e: Engine<'a>, r: ValId, a: ValId, b: ValId) -> bool {
    exists|x: u32, fvar: u32, arrow: ValId, fv: ValId, proof: ValId|
        #![trigger e.shape_at(r, Val::Sigma(arrow, Binder { var: fvar, body: proof })), e.shape_at(arrow, Val::Pi(a, Binder { var: x, body: b })), e.shape_at(fv, Val::Var(fvar, Some(arrow)))]
        {
            &&& e.shape_at(r, Val::Sigma(arrow, Binder { var: fvar, body: proof }))
            &&& e.shape_at(arrow, Val::Pi(a, Binder { var: x, body: b }))
            &&& e.shape_at(fv, Val::Var(fvar, Some(arrow)))
            &&& is_equiv_shape(e, proof, a, b, fv)
        }
}

/// `r` is the identity equivalence of `A`: its forward function is `lam x x`, and its
/// proof sends each `y` to a contraction of the fiber centred at `(y, path i y)`.
pub open spec fn identity_equiv_shape<'a>(e: Engine<'a>, r: ValId, a: ValId) -> bool {
    exists|x: u32, y: u32, k: u32, f: ValId, xv: ValId, proof: ValId, body: ValId, center: ValId, contraction: ValId, yv: ValId, refl: ValId|
        #![trigger e.shape_at(r, Val::Pair(f, proof)), e.shape_at(f, Val::Lam(Binder { var: x, body: xv })), e.shape_at(proof, Val::Lam(Binder { var: y, body: body })), e.shape_at(body, Val::Pair(center, contraction)), e.shape_at(center, Val::Pair(yv, refl)), e.shape_at(refl, Val::PLam(Binder { var: k, body: yv }))]
        {
            &&& e.shape_at(r, Val::Pair(f, proof))
            &&& e.shape_at(f, Val::Lam(Binder { var: x, body: xv }))
            &&& e.shape_at(xv, Val::Var(x, Some(a)))
            &&& e.shape_at(proof, Val::Lam(Binder { var: y, body: body }))
            &&& e.shape_at(body, Val::Pair(center, contraction))
            &&& e.shape_at(center, Val::Pair(yv, refl))
            &&& e.shape_at(yv, Val::Var(y, Some(a)))
            &&& e.shape_at(refl, Val::PLam(Binder { var: k, body: yv }))
        }
}

proof fn lemma_shape_stable<'a>(e1: Engine<'a>, e2: Engine<'a>, id: ValId, v: Val)
    requires
        arenas_grow(e1, e2),
        e1.shape_at(id, v),
    ensures
        e2.shape_at(id, v),
{
    assert(e2.values@[id.0 as int] == e1.values@[id.0 as int]);
}

proof fn lemma_fiber_stable<'a>(e1: Engine<'a>, e2: Engine<'a>, r: ValId, a: ValId, b: ValId, f: ValId, y: ValId)
    requires
        arenas_grow(e1, e2),
        fiber_shape(e1, r, a, b, f, y),
    ensures
        fiber_shape(e2, r, a, b, f, y),
{
    let (x, i, xv, fx, path) = choose|x: u32, i: u32, xv: ValId, fx: ValId, path: ValId|
        {
            &&& e1.shape_at(r, Val::Sigma(a, Binder { var: x, body: path }))
            &&& e1.shape_at(path, Val::Path(Binder { var: i, body: b }, fx, y))
            &&& e1.shape_at(fx, Val::App(f, xv))
            &&& e1.shape_at(xv, Val::Var(x, Some(a)))
        };
    lemma_shape_stable(e1, e2, r, Val::Sigma(a, Binder { var: x, body: path }));
    lemma_shape_stable(e1, e2, path, Val::Path(Binder { var: i, body: b }, fx, y));
    lemma_shape_stable(e1, e2, fx, Val::App(f, xv));
    lemma_shape_stable(e1, e2, xv, Val::Var(x, Some(a)));
}

proof fn lemma_identity_equiv_stable<'a>(e1: Engine<'a>, e2: Engine<'a>, r: ValId, a: ValId)
    requires
        arenas_grow(e1, e2),
        identity_equiv_shape(e1, r, a),
    ensures
        identity_equiv_shape(e2, r, a),
{
    let (x, y, k, f, xv, proof, body, center, contraction, yv, refl) = choose|
        x: u32,
        y: u32,
        k: u32,
        f: ValId,
        xv: ValId,
        proof: ValId,
        body: ValId,
        center: ValId,
        contraction: ValId,
        yv: ValId,
        refl: ValId,
    |
        {
            &&& e1.shape_at(r, Val::Pair(f, proof))
            &&& e1.shape_at(f, Val::Lam(Binder { var: x, body: xv }))
            &&& e1.shape_at(xv, Val::Var(x, Some(a)))
            &&& e1.shape_at(proof, Val::Lam(Binder { var: y, body: body }))
            &&& e1.shape_at(body, Val::Pair(center, contraction))
            &&& e1.shape_at(center, Val::Pair(yv, refl))
            &&& e1.shape_at(yv, Val::Var(y, Some(a)))
            &&& e1.shape_at(refl, Val::PLam(Binder { var: k, body: yv }))
        };
    lemma_shape_stable(e1, e2, r, Val::Pair(f, proof));
    lemma_shape_stable(e1, e2, f, Val::Lam(Binder { var: x, body: xv }));
    lemma_shape_stable(e1, e2, xv, Val::Var(x, Some(a)));
    lemma_shape_stable(e1, e2, proof, Val::Lam(Binder { var: y, body: body }));
    lemma_shape_stable(e1, e2, body, Val::Pair(center, contraction));
    lemma_shape_stable(e1, e2, center, Val::Pair(yv, refl));
    lemma_shape_stable(e1, e2, yv, Val::Var(y, Some(a)));
    lemma_shape_stable(e1, e2, refl, Val::PLam(Binder { var: k, body: yv }));
}

proof fn lemma_contractible_stable<'a>(e1: Engine<'a>, e2: Engine<'a>, r: ValId, a: ValId)
    requires
        arenas_grow(e1, e2),
        contractible_shape(e1, r, a),
    ensures
        contractible_shape(e2, r, a),
{
    let (x, y, i, xv, yv, p, all) = choose|x: u32, y: u32, i: u32, xv: ValId, yv: ValId, p: ValId, all: ValId|
        {
            &&& e1.shape_at(r, Val::Sigma(a, Binder { var: x, body: all }))
            &&& e1.shape_at(all, Val::Pi(a, Binder { var: y, body: p }))
            &&& e1.shape_at(p, Val::Path(Binder { var: i, body: a }, xv, yv))
            &&& e1.shape_at(xv, Val::Var(x, Some(a)))
            &&& e1.shape_at(yv, Val::Var(y, Some(a)))
        };
    lemma_shape_stable(e1, e2, r, Val::Sigma(a, Binder { var: x, body: all }));
    lemma_shape_stable(e1, e2, all, Val::Pi(a, Binder { var: y, body: p }));
    lemma_shape_stable(e1, e2, p, Val::Path(Binder { var: i, body: a }, xv, yv));
    lemma_shape_stable(e1, e2, xv, Val::Var(x, Some(a)));
    lemma_shape_stable(e1, e2, yv, Val::Var(y, Some(a)));
}

proof fn lemma_is_equiv_stable<'a>(e1: Engine<'a>, e2: Engine<'a>, r: ValId, a: ValId, b: ValId, f: ValId)
    requires
        arenas_grow(e1, e2),
        is_equiv_shape(e1, r, a, b, f),
    ensures
        is_equiv_shape(e2, r, a, b, f),
{
    let (y, yv, fiber, contr) = choose|y: u32, yv: ValId, fiber: ValId, contr: ValId|
        {
            &&& e1.shape_at(r, Val::Pi(b, Binder { var: y, body: contr }))
            &&& e1.shape_at(yv, Val::Var(y, Some(b)))
            &&& fiber_shape(e1, fiber, a, b, f, yv)
            &&& contractible_shape(e1, contr, fiber)
        };
    lemma_shape_stable(e1, e2, r, Val::Pi(b, Binder { var: y, body: contr }));
    lemma_shape_stable(e1, e2, yv, Val::Var(y, Some(b)));
    lemma_fiber_stable(e1, e2, fiber, a, b, f, yv);
    lemma_contractible_stable(e1, e2, contr, fiber);
}

/// `x` is the pair of `v` and the constant path at `unglue g v` along dimension `i`.
pub open spec fn fiber_element_shape<'b>(e: Engine<'b>, x: ValId, g: ValId, v: ValId, i: u32) -> bool {
    &&& x.0 < e.values@.len()
    &&& e.values@[x.0 as int] matches Val::Pair(first, path)
    &&& first == v
    &&& path.0 < e.values@.len()
    &&& e.values@[path.0 as int] matches Val::PLam(b)
    &&& b.var == i
    &&& e.shape_at(b.body, Val::Unglue(g, v))
}

impl<'a> Engine<'a> {
    /// The type of fibers of `f: A -> B` over `y`: `Sigma x A (Path i B (f x) y)`.
    pub fn fiber(&mut self, a: ValId, b: ValId, f: ValId, y: ValId) -> (r: Result<ValId>)
        requires
            old(self).inv(),
        ensures
            r matches Ok(id) ==> fiber_shape(*final(self), id, a, b, f, y),
            final(self).inv(),
            final(self).fuel == old(self).fuel,
            arenas_grow(*old(self), *final(self)),
            final(self).calls_left() == old(self).calls_left(),
            r is Ok <==> old(self).next_term < u32::MAX && old(self).next_dim < u32::MAX,
            r is Ok ==> final(self).next_term == old(self).next_term + 1 && final(self).next_dim == old(self).next_dim + 1,
    {
        let x = self.fresh_term()?;
        let xv = self.make(Val::Var(x, Some(a)));
        let ghost e1 = *self;
        let fx = self.app(f, xv);
        let ghost e2 = *self;
        let i = self.fresh_dim()?;
        let ghost e3 = *self;
        let path = self.make(Val::Path(Binder { var: i, body: b }, fx, y));
        let ghost e4 = *self;
        let r = self.make(Val::Sigma(a, Binder { var: x, body: path }));
        proof {
            lemma_shape_stable(e1, *self, xv, Val::Var(x, Some(a)));
            lemma_shape_stable(e2, *self, fx, Val::App(f, xv));
            lemma_shape_stable(e4, *self, path, Val::Path(Binder { var: i, body: b }, fx, y));
            assert(self.shape_at(r, Val::Sigma(a, Binder { var: x, body: path })));
        }
        Ok(r)
    }

    /// The type of contractions of `A`: `Sigma x A (Pi y A (Path i A x y))`.
    pub fn contractible(&mut self, a: ValId) -> (r: Result<ValId>)
        requires
            old(self).inv(),
        ensures
            r matches Ok(id) ==> contractible_shape(*final(self), id, a),
            final(self).inv(),
            final(self).fuel == old(self).fuel,
            arenas_grow(*old(self), *final(self)),
            final(self).calls_left() == old(self).calls_left(),
            r is Ok <==> old(self).next_term + 1 < u32::MAX && old(self).next_dim < u32::MAX,
            r is Ok ==> final(self).next_term == old(self).next_term + 2 && final(self).next_dim == old(self).next_dim + 1,
    {
        let x = self.fresh_term()?;
        let xv = self.make(Val::Var(x, Some(a)));
        let ghost e1 = *self;
        let y = self.fresh_term()?;
        let yv = self.make(Val::Var(y, Some(a)));
        let ghost e2 = *self;
        let i = self.fresh_dim()?;
        let p = self.make(Val::Path(Binder { var: i, body: a }, xv, yv));
        let ghost e3 = *self;
        let all = self.make(Val::Pi(a, Binder { var: y, body: p }));
        let ghost e4 = *self;
        let r = self.make(Val::Sigma(a, Binder { var: x, body: all }));
        proof {
            lemma_shape_stable(e1, *self, xv, Val::Var(x, Some(a)));
            lemma_shape_stable(e2, *self, yv, Val::Var(y, Some(a)));
            lemma_shape_stable(e3, *self, p, Val::Path(Binder { var: i, body: a }, xv, yv));
            lemma_shape_stable(e4, *self, all, Val::Pi(a, Binder { var: y, body: p }));
            assert(self.shape_at(r, Val::Sigma(a, Binder { var: x, body: all })));
        }
        Ok(r)
    }

    /// The type stating that every fiber of `f: A -> B` is contractible.
    pub fn is_equiv(&mut self, a: ValId, b: ValId, f: ValId) -> (r: Result<ValId>)
        requires
            old(self).inv(),
        ensures
            r matches Ok(id) ==> is_equiv_shape(*final(self), id, a, b, f),
            final(self).inv(),
            final(self).fuel == old(self).fuel,
            arenas_grow(*old(self), *final(self)),
            final(self).calls_left() == old(self).calls_left(),
            r is Ok <==> old(self).next_term + 3 < u32::MAX && old(self).next_dim + 1 < u32::MAX,
            r is Ok ==> final(self).next_term == old(self).next_term + 4 && final(self).next_dim == old(self).next_dim + 2,
    {
        let y = self.fresh_term()?;
        let yv = self.make(Val::Var(y, Some(b)));
        let ghost e1 = *self;
        let fiber = self.fiber(a, b, f, yv)?;
        let ghost e2 = *self;
        let contr = self.contractible(fiber)?;
        let ghost e3 = *self;
        let r = self.make(Val::Pi(b, Binder { var: y, body: contr }));
        proof {
            lemma_shape_stable(e1, *self, yv, Val::Var(y, Some(b)));
            lemma_fiber_stable(e2, *self, fiber, a, b, f, yv);
            lemma_contractible_stable(e3, *self, contr, fiber);
            assert(self.shape_at(r, Val::Pi(b, Binder { var: y, body: contr })));
        }
        Ok(r)
    }

    /// The type of equivalences from `A` to `B`: a function with contractible fibers.
    pub fn equiv_type(&mut self, a: ValId, b: ValId) -> (r: Result<ValId>)
        requires
            old(self).inv(),
        ensures
            r matches Ok(id) ==> equiv_shape(*final(self), id, a, b),
            final(self).inv(),
            final(self).fuel == old(self).fuel,
            arenas_grow(*old(self), *final(self)),
            final(self).calls_left() == old(self).calls_left(),
            r is Ok <==> old(self).next_term + 5 < u32::MAX && old(self).next_dim + 1 < u32::MAX,
            r is Ok ==> final(self).next_term == old(self).next_term + 6 && final(self).next_dim == old(self).next_dim + 2,
    {
        let x = self.fresh_term()?;
        let arrow = self.make(Val::Pi(a, Binder { var: x, body: b }));
        let ghost e1 = *self;
        let f = self.fresh_term()?;
        let fv = self.make(Val::Var(f, Some(arrow)));
        let ghost e2 = *self;
        let proof = self.is_equiv(a, b, fv)?;
        let ghost e3 = *self;
        let r = self.make(Val::Sigma(arrow, Binder { var: f, body: proof }));
        proof {
            lemma_shape_stable(e1, *self, arrow, Val::Pi(a, Binder { var: x, body: b }));
            lemma_shape_stable(e2, *self, fv, Val::Var(f, Some(arrow)));
            lemma_is_equiv_stable(e3, *self, proof, a, b, fv);
            assert(self.shape_at(r, Val::Sigma(arrow, Binder { var: f, body: proof })));
        }
        Ok(r)
    }

    /// The identity equivalence of `A`. Contractibility of the identity fiber is
    /// shown by filling a square whose upper and left edges are at `y` and whose
    /// right edge is the input path.
    #[verifier::rlimit(40)]
    pub fn identity_equiv(&mut self, a: ValId) -> (r: Result<ValId>)
        requires
            old(self).inv(),
        ensures
            final(self).inv(),
            final(self).fuel == old(self).fuel,
            arenas_grow(*old(self), *final(self)),
            final(self).calls_left() <= old(self).calls_left(),
            r matches Ok(v) ==> identity_equiv_shape(*final(self), v, a),
    {
        let x = self.fresh_term()?;
        let xv = self.make(Val::Var(x, Some(a)));
        let identity = self.make(Val::Lam(Binder { var: x, body: xv }));
        let y = self.fresh_term()?;
        let yv = self.make(Val::Var(y, Some(a)));
        assert(self.shape_at(identity, Val::Lam(Binder { var: x, body: xv })));
        assert(self.shape_at(xv, Val::Var(x, Some(a))));
        let ghost sa = *self;
        let fiber = self.fiber(a, a, identity, yv)?;
        let h = self.fresh_term()?;
        let hv = self.make(Val::Var(h, Some(fiber)));
        let p = self.snd(hv);
        let refl_dim = self.fresh_dim()?;
        let refl = self.make(Val::PLam(Binder { var: refl_dim, body: yv }));
        let center = self.make(Val::Pair(yv, refl));
        assert(self.shape_at(refl, Val::PLam(Binder { var: refl_dim, body: yv })));
        assert(arenas_grow(sa, *self));
        let ghost sb = *self;
        let i = self.fresh_dim()?;
        let j = self.fresh_dim()?;
        let k = self.fresh_dim()?;
        let pk = self.at(p, Dim::Var(k));
        let i0 = self.face_eq(Dim::Var(i), Dim::Zero);
        let i1 = self.face_eq(Dim::Var(i), Dim::One);
        let square = self.make(Val::Com(Composition {
            dim: k,
            family: a,
            from: Dim::One,
            to: Dim::Var(j),
            cap: yv,
            tubes: vec![(i0, yv), (i1, pk)],
        }));
        let first = self.restrict(square, j, Dim::Zero)?;
        let second = self.make(Val::PLam(Binder { var: j, body: square }));
        let pair = self.make(Val::Pair(first, second));
        let contraction = self.make(Val::PLam(Binder { var: i, body: pair }));
        let contraction = self.make(Val::Lam(Binder { var: h, body: contraction }));
        let body = self.make(Val::Pair(center, contraction));
        let proof = self.make(Val::Lam(Binder { var: y, body }));
        assert(self.shape_at(body, Val::Pair(center, contraction)));
        let r = self.make(Val::Pair(identity, proof));
        assert(arenas_grow(sb, *self) && arenas_grow(sa, *self));
        proof {
            lemma_shape_stable(sa, *self, identity, Val::Lam(Binder { var: x, body: xv }));
            lemma_shape_stable(sa, *self, xv, Val::Var(x, Some(a)));
            lemma_shape_stable(sa, *self, yv, Val::Var(y, Some(a)));
            lemma_shape_stable(sb, *self, center, Val::Pair(yv, refl));
            lemma_shape_stable(sb, *self, refl, Val::PLam(Binder { var: refl_dim, body: yv }));
            assert(self.shape_at(r, Val::Pair(identity, proof)));
            assert(self.shape_at(proof, Val::Lam(Binder { var: y, body })));
            assert(self.shape_at(body, Val::Pair(center, contraction)));
            assert(self.shape_at(center, Val::Pair(yv, refl)));
        }
        Ok(r)
    }

    fn glue_fiber_element(&mut self, g: ValId, v: ValId) -> (r: Result<ValId>)
        requires
            old(self).inv(),
        ensures
            final(self).inv(),
            final(self).fuel == old(self).fuel,
            arenas_grow(*old(self), *final(self)),
            final(self).calls_left() == old(self).calls_left(),
            r is Ok <==> old(self).next_dim < u32::MAX,
            r matches Ok(x) ==> fiber_element_shape(*final(self), x, g, v, old(self).next_dim),
    {
        let base = self.make(Val::Unglue(g, v));
        let i = self.fresh_dim()?;
        let path = self.make(Val::PLam(Binder { var: i, body: base }));
        Ok(self.make(Val::Pair(v, path)))
    }

    /// Composition in `Glue base branches` (ABCFHL, composition for Glue types).
    #[verifier::spinoff_prover]
    #[verifier::rlimit(60)]
    pub fn compose_glue(&mut self, c: Composition, base: ValId, branches: Vec<(FaceId, ValId, ValId)>) -> (r:
        Result<ValId>)
        requires
            old(self).inv(),
        ensures
            final(self).inv(),
            final(self).fuel == old(self).fuel,
            arenas_grow(*old(self), *final(self)),
            final(self).calls_left() <= old(self).calls_left(),
            r matches Ok(g) ==> composed_glue(*final(self), g, branches@, c.dim, c.to),
    {
        let ghost given = c;
        let mut c = c;
        // Retain the exposed Glue data: re-evaluating the original type after
        // an interval substitution may instead expose its boundary type.
        c.family = self.make(Val::Glue(base, branches.clone()));
        // Alignment: add the prescribed composition on every universally
        // valid Glue face before executing incoherent composition.
        let original = c.clone();
        let mut k: usize = 0;
        while k < branches.len()
            invariant
                self.inv(),
                self.fuel == old(self).fuel,
                arenas_grow(*old(self), *self),
                self.calls_left() <= old(self).calls_left(),
                k <= branches@.len(),
                c.dim == given.dim,
                c.to == given.to,
            decreases branches@.len() - k,
        {
            let (f, t, _) = branches[k];
            k += 1;
            let all = self.face_forall(c.dim, f)?;
            if self.inconsistent(all)? {
                continue;
            }
            let y = self.fresh_dim()?;
            let fill = self.make(Val::Com(Composition {
                dim: original.dim,
                family: t,
                from: original.from,
                to: Dim::Var(y),
                cap: original.cap,
                tubes: original.tubes.clone(),
            }));
            let fill = self.restrict(fill, y, Dim::Var(c.dim))?;
            c.tubes.push((all, fill));
        }
        let source_g = self.restrict(c.family, c.dim, c.from)?;
        let target_g = self.restrict(c.family, c.dim, c.to)?;
        let cap = self.make(Val::Unglue(source_g, c.cap));
        let mut tubes: Vec<(FaceId, ValId)> = Vec::new();
        let mut k: usize = 0;
        while k < c.tubes.len()
            invariant
                self.inv(),
                self.fuel == old(self).fuel,
                arenas_grow(*old(self), *self),
                self.calls_left() <= old(self).calls_left(),
                k <= c.tubes@.len(),
            decreases c.tubes@.len() - k,
        {
            let u = self.make(Val::Unglue(c.family, c.tubes[k].1));
            tubes.push((c.tubes[k].0, u));
            k += 1;
        }
        let base_prime = self.make(Val::Com(Composition {
            dim: c.dim,
            family: base,
            from: c.from,
            to: c.to,
            cap,
            tubes,
        }));
        let target_base = self.restrict(base, c.dim, c.to)?;
        let same = self.face_eq(c.from, c.to);
        let mut partial: Vec<(FaceId, ValId)> = Vec::new();
        let mut k: usize = 0;
        while k < c.tubes.len()
            invariant
                self.inv(),
                self.fuel == old(self).fuel,
                arenas_grow(*old(self), *self),
                self.calls_left() <= old(self).calls_left(),
                k <= c.tubes@.len(),
            decreases c.tubes@.len() - k,
        {
            let t = self.restrict(c.tubes[k].1, c.dim, c.to)?;
            partial.push((c.tubes[k].0, t));
            k += 1;
        }
        partial.push((same, c.cap));
        let correction_dim = self.fresh_dim()?;
        let mut correction_tubes: Vec<(FaceId, ValId)> = Vec::new();
        let mut tops: Vec<(FaceId, ValId)> = Vec::new();
        let mut k: usize = 0;
        while k < branches.len()
            invariant
                self.inv(),
                self.fuel == old(self).fuel,
                arenas_grow(*old(self), *self),
                self.calls_left() <= old(self).calls_left(),
                k <= branches@.len(),
                tops@.len() == k,
                glue_faces_at_target(*self, branches@.take(k as int), tops@, c.dim, c.to),
            decreases branches@.len() - k,
        {
            let ghost before = *self;
            let ghost j0 = k as int;
            let ghost tops0 = tops@;
            let (f, t, e) = branches[k];
            k += 1;
            let f = self.restrict_face(f, c.dim, c.to)?;
            let ghost mid = *self;
            let t = self.restrict(t, c.dim, c.to)?;
            let e = self.restrict(e, c.dim, c.to)?;
            let fun = self.fst(e);
            let fiber = self.fiber(t, target_base, fun, base_prime)?;
            let witness = self.snd(e);
            let witness = self.app(witness, base_prime);
            let center = self.fst(witness);
            let contraction = self.snd(witness);
            let ext_dim = self.fresh_dim()?;
            let mut extensions: Vec<(FaceId, ValId)> = Vec::new();
            let mut m: usize = 0;
            while m < partial.len()
                invariant
                    self.inv(),
                    self.fuel == old(self).fuel,
                    arenas_grow(*old(self), *self),
                    arenas_grow(before, *self),
                    arenas_grow(mid, *self),
                    self.calls_left() <= old(self).calls_left(),
                    m <= partial@.len(),
                decreases partial@.len() - m,
            {
                let (boundary, g) = partial[m];
                let h = self.glue_fiber_element(target_g, g)?;
                let path = self.app(contraction, h);
                let v = self.at(path, Dim::Var(ext_dim));
                extensions.push((boundary, v));
                m += 1;
            }
            let extended = self.make(Val::Com(Composition {
                dim: ext_dim,
                family: fiber,
                from: Dim::Zero,
                to: Dim::One,
                cap: center,
                tubes: extensions,
            }));
            let top = self.fst(extended);
            tops.push((f, top));
            let path = self.snd(extended);
            let line = self.at(path, Dim::Var(correction_dim));
            correction_tubes.push((f, line));
            proof {
                assert(tops@.take(j0) =~= tops0);
                assert(arenas_grow(before, *self));
                lemma_glue_faces_extend(before, *self, branches@.take(j0), tops@.take(j0), c.dim, c.to);
                assert forall|rho: spec_fn(u32) -> int| #[trigger] self.faces.holds(f, rho) == self.faces.holds(
                    branches@[j0].0,
                    crate::face::update(rho, c.dim, crate::face::dim_val(c.to, rho)),
                ) by {
                    crate::face::lemma_holds_extend(mid.faces@, self.faces@, f.0 as int, rho);
                    crate::face::lemma_holds_extend(
                        before.faces@,
                        self.faces@,
                        branches@[j0].0.0 as int,
                        crate::face::update(rho, c.dim, crate::face::dim_val(c.to, rho)),
                    );
                }
                let bs = branches@.take(j0 + 1);
                let prev = tops@.take(j0);
                assert forall|j: int| 0 <= j < tops@.len() implies {
                    &&& self.faces.valid((#[trigger] tops@[j]).0)
                    &&& self.faces.valid(bs[j].0)
                    &&& forall|rho: spec_fn(u32) -> int|
                        #[trigger] self.faces.holds(tops@[j].0, rho) == self.faces.holds(
                            bs[j].0,
                            crate::face::update(rho, c.dim, crate::face::dim_val(c.to, rho)),
                        )
                } by {
                    if j < j0 {
                        assert(prev[j] == tops@[j]);
                        assert(branches@.take(j0)[j] == bs[j]);
                    } else {
                        assert(tops@[j].0 == f);
                        assert(bs[j] == branches@[j0]);
                    }
                }
                assert(bs == branches@.take(k as int));
                assert(glue_faces_at_target(*self, bs, tops@, c.dim, c.to));
            }
        }
        let ghost after = *self;
        let mut k: usize = 0;
        while k < partial.len()
            invariant
                self.inv(),
                self.fuel == old(self).fuel,
                arenas_grow(*old(self), *self),
                self.calls_left() <= old(self).calls_left(),
                k <= partial@.len(),
                self.faces@ == after.faces@,
            decreases partial@.len() - k,
        {
            let (f, g) = partial[k];
            let b = self.make(Val::Unglue(target_g, g));
            correction_tubes.push((f, b));
            k += 1;
        }
        let corrected = self.make(Val::Com(Composition {
            dim: correction_dim,
            family: target_base,
            from: Dim::One,
            to: Dim::Zero,
            cap: base_prime,
            tubes: correction_tubes,
        }));
        let ghost tops_seq = tops@;
        let g = self.make(Val::GlueIntro(corrected, tops));
        proof {
            assert(branches@.take(branches@.len() as int) =~= branches@);
            lemma_glue_faces_extend(after, *self, branches@, tops_seq, c.dim, c.to);
        }
        Ok(g)
    }

    /// Composition in a universe: a Glue type whose branches transport back along the tubes.
    pub fn compose_universe(&mut self, c: Composition) -> (r: Result<ValId>)
        requires
            old(self).inv(),
        ensures
            final(self).inv(),
            final(self).fuel == old(self).fuel,
            arenas_grow(*old(self), *final(self)),
            final(self).calls_left() <= old(self).calls_left(),
            r matches Ok(g) ==> final(self).values@[g.0 as int] matches Val::Glue(base, bs) && base == c.cap && {
                let n = c.tubes@.len();
                &&& bs@.len() == n + 1
                &&& forall|j: int| 0 <= j < n ==> (#[trigger] bs@[j]).0 == c.tubes@[j].0
                &&& bs@[n as int].1 == c.cap
                &&& identity_equiv_shape(*final(self), bs@[n as int].2, c.cap)
                &&& final(self).faces.valid(bs@[n as int].0)
                &&& forall|rho: spec_fn(u32) -> int|
                    #[trigger] final(self).faces.holds(bs@[n as int].0, rho) == (crate::face::dim_val(c.from, rho)
                        == crate::face::dim_val(c.to, rho))
            },
    {
        let mut branches: Vec<(FaceId, ValId, ValId)> = Vec::new();
        let mut k: usize = 0;
        while k < c.tubes.len()
            invariant
                self.inv(),
                self.fuel == old(self).fuel,
                arenas_grow(*old(self), *self),
                self.calls_left() <= old(self).calls_left(),
                k <= c.tubes@.len(),
                branches@.len() == k,
                forall|j: int| 0 <= j < k ==> (#[trigger] branches@[j]).0 == c.tubes@[j].0,
            decreases c.tubes@.len() - k,
        {
            let (face, t) = c.tubes[k];
            k += 1;
            let target = self.restrict(t, c.dim, c.to)?;
            let x = self.fresh_term()?;
            let xv = self.make(Val::Var(x, Some(target)));
            let coerced = self.make(Val::Com(Composition {
                dim: c.dim,
                family: t,
                from: c.to,
                to: c.from,
                cap: xv,
                tubes: Vec::new(),
            }));
            let fun = self.make(Val::Lam(Binder { var: x, body: coerced }));
            let j = self.fresh_dim()?;
            let tj = self.restrict(t, c.dim, Dim::Var(j))?;
            let cj = self.make(Val::Com(Composition {
                dim: c.dim,
                family: t,
                from: c.to,
                to: Dim::Var(j),
                cap: xv,
                tubes: Vec::new(),
            }));
            let fj = self.make(Val::Lam(Binder { var: x, body: cj }));
            let proof_family = self.is_equiv(target, tj, fj)?;
            let identity = self.identity_equiv(target)?;
            let identity_proof = self.snd(identity);
            let proof = self.make(Val::Com(Composition {
                dim: j,
                family: proof_family,
                from: c.to,
                to: c.from,
                cap: identity_proof,
                tubes: Vec::new(),
            }));
            let equivalence = self.make(Val::Pair(fun, proof));
            branches.push((face, target, equivalence));
        }
        let same = self.face_eq(c.from, c.to);
        let ghost after_same = self.faces@;
        let identity = self.identity_equiv(c.cap)?;
        let ghost before_glue = *self;
        branches.push((same, c.cap, identity));
        let r = self.make(Val::Glue(c.cap, branches));
        proof {
            lemma_identity_equiv_stable(before_glue, *self, identity, c.cap);
            assert forall|rho: spec_fn(u32) -> int|
                #[trigger] self.faces.holds(same, rho) == (crate::face::dim_val(c.from, rho) == crate::face::dim_val(
                    c.to,
                    rho,
                )) by {
                crate::face::lemma_holds_extend(after_same, self.faces@, same.0 as int, rho);
            }
        }
        Ok(r)
    }
}

} // verus!
