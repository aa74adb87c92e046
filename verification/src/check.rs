#![verifier::loop_isolation(false)]
//! Bidirectional type checking and type-directed conversion.
use vstd::prelude::*;
use crate::eval::{arenas_grow, Binder, Engine, Env, EnvId, Val, ValId, internal};
use crate::face::{Dim, FaceId};
use crate::syntax::{Term, TermId};
use crate::text::concat3;
use crate::{Error, Result};

verus! {

/// A typing context: the environment of the bound variables, their types
/// (innermost last), and the face under which the judgment is made.
#[derive(Clone, Debug)]
pub struct Context {
    pub env: EnvId,
    pub types: Vec<ValId>,
    pub face: FaceId,
}

/// `e` is the error of checking a declaration named `name`: a failure of its
/// type, prefixed `checking type of name: `, a failure of its body, prefixed
/// `checking name: `, or an exhausted fuel or node budget.
pub open spec fn declaration_error(e: Error, name: Seq<char>) -> bool {
    ||| exists|m: Seq<char>| e.message@ == "checking type of "@ + name + ": "@ + m
    ||| exists|m: Seq<char>| e.message@ == "checking "@ + name + ": "@ + m
    ||| e.offset is None && (e.message@ == crate::eval::FUEL_EXHAUSTED@ || e.message@
        == crate::eval::NODE_BUDGET_EXHAUSTED@)
}

/// `v` substitutes, for the one variable of a binder, a value of which `arg`
/// holds: the type of an application or projection, instantiated at its
/// argument.
pub open spec fn instance_at(en: Engine, v: ValId, arg: spec_fn(ValId) -> bool) -> bool {
    &&& en.values@[v.0 as int] matches Val::Sub(_, s)
    &&& en.subs@[s.0 as int].terms@.len() == 1
    &&& arg(en.subs@[s.0 as int].terms@[0].1)
}

/// The universe level of a type built from universes, base types and
/// dependent function and pair types: `U l` lives at `l + 1`, `Bool` and
/// `Nat` at 0, `Pi x A B` and `Sigma x A B` at the larger of the levels of
/// `A` and `B`, and `Path A l r` at the level of `A` (levels are not
/// cumulative, so this is the only level).
pub open spec fn type_level(nodes: Seq<crate::syntax::Node>, t: TermId) -> Option<u32>
    decreases t.0,
{
    if t.0 < nodes.len() {
        match nodes[t.0 as int].term {
            Term::U(l) => if l < u32::MAX {
                Some((l + 1) as u32)
            } else {
                None
            },
            Term::Bool | Term::Nat => Some(0),
            Term::Pi(a, b) | Term::Sigma(a, b) => if a.0 < t.0 && b.0 < t.0 {
                match (type_level(nodes, a), type_level(nodes, b)) {
                    (Some(x), Some(y)) => Some(if x >= y {
                        x
                    } else {
                        y
                    }),
                    _ => None,
                }
            } else {
                None
            },
            Term::Path(a, _, _) => if a.0 < t.0 {
                type_level(nodes, a)
            } else {
                None
            },
            _ => None,
        }
    } else {
        None
    }
}

/// The type of a universe, base type or constant written as a term: `U l` lives
/// in `U (l + 1)`, `Bool` and `Nat` in `U 0`, a constant in its base type.
pub open spec fn atom_type(t: Term) -> Option<Val> {
    match t {
        Term::U(l) => if l < u32::MAX {
            Some(Val::U((l + 1) as u32))
        } else {
            None
        },
        Term::Bool | Term::Nat => Some(Val::U(0)),
        Term::True | Term::False => Some(Val::Bool),
        Term::Zero => Some(Val::Nat),
        _ => None,
    }
}

/// A declaration whose body is an atom and whose type is a literal gives the
/// atom its own type.
pub open spec fn atom_declaration_typed(nodes: Seq<crate::syntax::Node>, d: crate::syntax::Decl) -> bool {
    atom_type(nodes[d.body.0 as int].term) is Some && crate::eval::literal(nodes[d.ty.0 as int].term) is Some
        ==> atom_type(nodes[d.body.0 as int].term)->Some_0 == crate::eval::literal(nodes[d.ty.0 as int].term)->Some_0
}

/// Checking term `t` of `e`'s program against the stored type `ty` under a
/// consistent face: `t` is an atom whose type is known and `ty` an atom.
pub open spec fn atom_judgment(e: Engine, t: TermId, ty: ValId, face: FaceId) -> bool {
    &&& !crate::face::inconsistent_sem(e.faces@, face.0 as int)
    &&& t.0 < e.program.terms@.len()
    &&& atom_type(e.program.terms@[t.0 as int].term) is Some
    &&& crate::eval::atom_value(e, ty) is Some
}


/// `a` and `b` are two different universes, base types or constants, compared
/// at no type or at a type without an eta rule.
pub open spec fn atoms_apart(e: Engine, a: ValId, b: ValId, ty: Option<ValId>) -> bool {
    &&& (crate::eval::distinct_atoms(e.values@, a, b) || crate::eval::binders_apart(e.values@, a, b))
    &&& crate::quote::untyped_form(e.values@, ty)
}

/// Two atoms stay apart as the arenas grow.
proof fn lemma_apart_grows(e: Engine, f: Engine, a: ValId, b: ValId, ty: Option<ValId>)
    requires
        atoms_apart(e, a, b, ty),
        arenas_grow(e, f),
    ensures
        atoms_apart(f, a, b, ty),
{
}

/// Whether term `t` is never a type, so that the sort of `t` is refused: an
/// introduction form, a term of a base type, or a universe whose level has no
/// successor.
pub open spec fn not_a_type(t: Term) -> bool {
    ||| t is True || t is False || t is Zero || t is Suc || t is Lam || t is Pair || t is PLam
    ||| t matches Term::U(l) && l == u32::MAX
}

/// `e` with `prefix` put before its message.
pub fn prefixed(prefix: &str, name: &str, e: Error) -> (r: Error)
    ensures
        r.offset == e.offset,
        r.message@ == prefix@ + name@ + ": "@ + e.message@,
{
    let mut message = concat3(prefix, name, ": ");
    message.append(e.message.as_str());
    Error { offset: e.offset, message }
}

impl<'a> Engine<'a> {
    /// Checks declaration `index`: its type is a type and its body has that type.
    pub fn check_declaration(&mut self, index: usize) -> (r: Result<()>)
        requires
            old(self).inv(),
        ensures
            final(self).inv(),
            final(self).fuel == old(self).fuel,
            arenas_grow(*old(self), *final(self)),
            final(self).calls_left() <= old(self).calls_left(),
            index >= old(self).program.decls@.len() ==> r is Err,
            r is Ok ==> old(self).fuel > 0,
            r matches Err(e) ==> index >= old(self).program.decls@.len() || declaration_error(
                e,
                old(self).program.decls@[index as int].name@,
            ) || (old(self).optimized && crate::eval::internal_error(e)),
            index < old(self).program.decls@.len() && not_a_type(
                old(self).program.terms@[old(self).program.decls@[index as int].ty.0 as int].term,
            ) ==> (r matches Err(e) && exists|m: Seq<char>|
                e.message@ == "checking type of "@ + old(self).program.decls@[index as int].name@ + ": "@ + m),
            r is Ok && index < old(self).program.decls@.len() ==> atom_declaration_typed(
                old(self).program.terms@,
                old(self).program.decls@[index as int],
            ),
    {
        let program = self.program;
        if index >= program.decls.len() {
            return Err(internal("internal error: unknown declaration"));
        }
        let decl = &program.decls[index];
        let env = self.env(Env::empty());
        let face = self.top();
        let ghost after_top = *self;
        let ctx = Context { env, types: Vec::new(), face };
        match self.sort(decl.ty, &ctx) {
            Ok(_) => {},
            Err(e) => {
                let ghost m = e.message@;
                let r = prefixed("checking type of ", decl.name.as_str(), e);
                assert(r.message@ == "checking type of "@ + decl.name@ + ": "@ + m);
                return Err(r);
            },
        }
        let ty = self.thunk(decl.ty, env)?;
        proof {
            let rho = |x: u32| 0int;
            assert(after_top.faces.holds(face, rho));
            crate::face::lemma_holds_extend(after_top.faces@, self.faces@, face.0 as int, rho);
            assert(self.faces.holds(face, rho));
        }
        match self.check(decl.body, ty, &ctx) {
            Ok(()) => {},
            Err(e) => {
                let ghost m = e.message@;
                let r = prefixed("checking ", decl.name.as_str(), e);
                assert(r.message@ == "checking "@ + decl.name@ + ": "@ + m);
                return Err(r);
            },
        }
        self.tick()?;
        Ok(())
    }

    fn error(&self, t: TermId, message: &str) -> (r: Error)
        requires
            self.inv(),
        ensures
            t.0 < self.program.terms@.len() ==> r.offset == Some(self.program.terms@[t.0 as int].offset)
                && r.message@ == message@,
    {
        match self.term_at(t) {
            Ok(node) => Error::at(node.offset, message),
            Err(e) => e,
        }
    }

    fn extend(&mut self, ctx: &Context, ty: ValId) -> (r: Result<(Context, ValId)>)
        requires
            old(self).inv(),
        ensures
            final(self).inv(),
            final(self).fuel == old(self).fuel,
            arenas_grow(*old(self), *final(self)),
            final(self).calls_left() == old(self).calls_left(),
            r is Ok <==> old(self).next_term < u32::MAX && ctx.env.0 < old(self).envs@.len(),
            r matches Ok((c, x)) ==> {
                &&& c.face == ctx.face
                &&& c.types@ == ctx.types@.push(ty)
                &&& final(self).shape_at(x, Val::Var(old(self).next_term, Some(ty)))
                &&& c.env.0 < final(self).envs@.len()
                &&& final(self).envs@[c.env.0 as int].terms@ == old(self).envs@[ctx.env.0 as int].terms@.push(x)
                &&& final(self).envs@[c.env.0 as int].dims@ == old(self).envs@[ctx.env.0 as int].dims@
            },
    {
        let x = self.variable(ty)?;
        let mut env = self.environment(ctx.env)?;
        env.terms.push(x);
        let env = self.env(env);
        let mut types = ctx.types.clone();
        types.push(ty);
        Ok((Context { env, types, face: ctx.face }, x))
    }

    fn interval(&mut self, ctx: &Context) -> (r: Result<(Context, u32)>)
        requires
            old(self).inv(),
        ensures
            final(self).inv(),
            final(self).fuel == old(self).fuel,
            arenas_grow(*old(self), *final(self)),
            final(self).calls_left() == old(self).calls_left(),
            r is Ok <==> old(self).next_dim < u32::MAX && ctx.env.0 < old(self).envs@.len(),
            r matches Ok((c, i)) ==> {
                &&& i == old(self).next_dim
                &&& c.face == ctx.face
                &&& c.types@ == ctx.types@
                &&& c.env.0 < final(self).envs@.len()
                &&& final(self).envs@[c.env.0 as int].terms@ == old(self).envs@[ctx.env.0 as int].terms@
                &&& final(self).envs@[c.env.0 as int].dims@ == old(self).envs@[ctx.env.0 as int].dims@.push(Dim::Var(i))
            },
    {
        let i = self.fresh_dim()?;
        let mut env = self.environment(ctx.env)?;
        env.dims.push(Dim::Var(i));
        let env = self.env(env);
        Ok((Context { env, types: ctx.types.clone(), face: ctx.face }, i))
    }

    fn interval_at(&mut self, ctx: &Context, d: Dim) -> (r: Result<Context>)
        requires
            old(self).inv(),
        ensures
            final(self).inv(),
            final(self).fuel == old(self).fuel,
            arenas_grow(*old(self), *final(self)),
            final(self).calls_left() == old(self).calls_left(),
            r is Ok <==> ctx.env.0 < old(self).envs@.len(),
            r matches Ok(c) ==> {
                &&& c.face == ctx.face
                &&& c.types@ == ctx.types@
                &&& c.env.0 < final(self).envs@.len()
                &&& final(self).envs@[c.env.0 as int].terms@ == old(self).envs@[ctx.env.0 as int].terms@
                &&& final(self).envs@[c.env.0 as int].dims@ == old(self).envs@[ctx.env.0 as int].dims@.push(d)
            },
    {
        let mut env = self.environment(ctx.env)?;
        env.dims.push(d);
        let env = self.env(env);
        Ok(Context { env, types: ctx.types.clone(), face: ctx.face })
    }

    fn under(ctx: &Context, face: FaceId) -> (r: Context)
        ensures
            r.env == ctx.env,
            r.face == face,
    {
        Context { env: ctx.env, types: ctx.types.clone(), face }
    }

    /// The universe level of type `t`.
    fn sort(&mut self, t: TermId, ctx: &Context) -> (r: Result<u32>)
        requires
            old(self).inv(),
        ensures
            final(self).inv(),
            final(self).fuel == old(self).fuel,
            arenas_grow(*old(self), *final(self)),
            final(self).calls_left() <= old(self).calls_left(),
            t.0 < old(self).program.terms@.len() ==> match old(
                self,
            ).program.terms@[t.0 as int].term {
                Term::U(l) => r matches Ok(n) ==> n == l + 1,
                Term::Bool | Term::Nat => r matches Ok(n) ==> n == 0,
                Term::True | Term::False | Term::Zero | Term::Suc(_) | Term::Lam(_) | Term::Pair(_, _) | Term::PLam(
                    _,
                ) => r is Err,
                _ => true,
            },
            r matches Ok(n) ==> type_level(old(self).program.terms@, t) matches Some(k) ==> n == k,
        decreases old(self).calls_left(),
    {
        self.spend()?;
        let ty = self.infer(t, ctx)?;
        let ty = self.force(ty, ctx.face)?;
        if let Val::U(l) = self.get(ty)? {
            Ok(l)
        } else {
            Err(self.error(t, "expected a type (an inhabitant of a universe)"))
        }
    }

    /// Checks `t` against type `ty`; an error without a location gets the location of `t`.
    fn check(&mut self, t: TermId, ty: ValId, ctx: &Context) -> (r: Result<()>)
        requires
            old(self).inv(),
        ensures
            final(self).inv(),
            final(self).fuel == old(self).fuel,
            arenas_grow(*old(self), *final(self)),
            final(self).calls_left() <= old(self).calls_left(),
            old(self).budget_allows(2) && old(self).faces.valid(ctx.face) && crate::face::atomic(
                old(self).faces@[ctx.face.0 as int],
            ) && crate::face::inconsistent_sem(old(self).faces@, ctx.face.0 as int) ==> r is Ok,
            r is Ok && atom_judgment(*old(self), t, ty, ctx.face) ==> atom_type(old(self).program.terms@[t.0 as int].term)->Some_0
                == crate::eval::atom_value(*old(self), ty)->Some_0,
        decreases old(self).calls_left(),
    {
        self.spend()?;
        match self.check_inner(t, ty, ctx) {
            Ok(()) => Ok(()),
            Err(e) => {
                if e.offset.is_none() {
                    match self.term_at(t) {
                        Ok(node) => Err(Error { offset: Some(node.offset), message: e.message }),
                        Err(_) => Err(e),
                    }
                } else {
                    Err(e)
                }
            },
        }
    }

    fn check_inner(&mut self, t: TermId, ty: ValId, ctx: &Context) -> (r: Result<()>)
        requires
            old(self).inv(),
        ensures
            final(self).inv(),
            final(self).fuel == old(self).fuel,
            arenas_grow(*old(self), *final(self)),
            final(self).calls_left() <= old(self).calls_left(),
            old(self).budget_allows(1) && old(self).faces.valid(ctx.face) && crate::face::atomic(
                old(self).faces@[ctx.face.0 as int],
            ) && crate::face::inconsistent_sem(old(self).faces@, ctx.face.0 as int) ==> r is Ok,
            r is Ok && atom_judgment(*old(self), t, ty, ctx.face) ==> atom_type(old(self).program.terms@[t.0 as int].term)->Some_0
                == crate::eval::atom_value(*old(self), ty)->Some_0,
        decreases old(self).calls_left(),
    {
        let ghost judged = atom_judgment(*old(self), t, ty, ctx.face);
        let ghost goal = judged ==> atom_type(old(self).program.terms@[t.0 as int].term)->Some_0
            == crate::eval::atom_value(*old(self), ty)->Some_0;
        self.spend()?;
        self.tick()?;
        if self.inconsistent(ctx.face)? {
            return Ok(());
        }
        // Equality and checking are local on covers; no branch choice is global.
        let ghost before_clauses = *self;
        let clauses = self.face_clauses(ctx.face)?;
        let ghost after_clauses = *self;
        if clauses.len() > 1 {
            let mut k: usize = 0;
            while k < clauses.len()
                invariant
                    self.inv(),
                    self.fuel == old(self).fuel,
                    arenas_grow(*old(self), *self),
                    arenas_grow(after_clauses, *self),
                    self.calls_left() < old(self).calls_left(),
                    k <= clauses@.len(),
                    forall|j: int| 0 <= j < clauses@.len() ==> after_clauses.faces.valid(#[trigger] clauses@[j]),
                    (exists|j: int|
                        0 <= j < k && !crate::face::inconsistent_sem(after_clauses.faces@, (#[trigger] clauses@[j]).0 as int))
                        ==> goal,
                decreases clauses@.len() - k,
            {
                let sub = Self::under(ctx, clauses[k]);
                let ghost before_call = *self;
                self.check(t, ty, &sub)?;
                proof {
                    if judged && !crate::face::inconsistent_sem(after_clauses.faces@, clauses@[k as int].0 as int) {
                        let rho = choose|rho: spec_fn(u32) -> int| crate::face::face_holds(
                            after_clauses.faces@,
                            clauses@[k as int].0 as int,
                            rho,
                        );
                        crate::face::lemma_holds_extend(
                            after_clauses.faces@,
                            before_call.faces@,
                            clauses@[k as int].0 as int,
                            rho,
                        );
                        assert(atom_judgment(before_call, t, ty, sub.face));
                    }
                }
                k += 1;
            }
            proof {
                if judged {
                    let rho = choose|rho: spec_fn(u32) -> int| crate::face::face_holds(
                        old(self).faces@,
                        ctx.face.0 as int,
                        rho,
                    );
                    crate::face::lemma_holds_extend(old(self).faces@, before_clauses.faces@, ctx.face.0 as int, rho);
                    assert(before_clauses.faces.holds(ctx.face, rho));
                    let j = choose|j: int|
                        0 <= j < clauses@.len() && crate::face::face_holds(
                            after_clauses.faces@,
                            (#[trigger] clauses@[j]).0 as int,
                            rho,
                        );
                    assert(!crate::face::inconsistent_sem(after_clauses.faces@, clauses@[j].0 as int));
                }
            }
            return Ok(());
        }
        let ty = self.force(ty, ctx.face)?;
        let node = self.term_at(t)?;
        match (&node.term, self.get(ty)?) {
            (Term::Lam(body), Val::Pi(a, b)) => {
                let (inner, x) = self.extend(ctx, a)?;
                let b = self.inst(&b, x)?;
                self.check(*body, b, &inner)
            },
            (Term::Pair(a, b), Val::Sigma(first, second)) => {
                self.check(*a, first, ctx)?;
                let a = self.thunk(*a, ctx.env)?;
                let second = self.inst(&second, a)?;
                self.check(*b, second, ctx)
            },
            (Term::PLam(body), Val::Path(family, left, right)) => {
                let (inner, i) = self.interval(ctx)?;
                let a = self.inst_dim(&family, Dim::Var(i))?;
                self.check(*body, a, &inner)?;
                self.check_endpoint(t, *body, &family, Dim::Zero, left, ctx)?;
                self.check_endpoint(t, *body, &family, Dim::One, right, ctx)
            },
            _ => {
                let got = self.infer(t, ctx)?;
                let ghost at_conv = *self;
                if self.conv(got, ty, None, ctx.face)? {
                    proof {
                        if judged {
                            let rho = choose|rho: spec_fn(u32) -> int| crate::face::face_holds(
                                old(self).faces@,
                                ctx.face.0 as int,
                                rho,
                            );
                            crate::face::lemma_holds_extend(old(self).faces@, at_conv.faces@, ctx.face.0 as int, rho);
                            assert(!atoms_apart(at_conv, got, ty, None));
                        }
                    }
                    Ok(())
                } else {
                    Err(self.error(t, "type mismatch (universe levels are explicit and non-cumulative)"))
                }
            },
        }
    }

    /// Checks that a path body at endpoint `d` is convertible with `endpoint`.
    fn check_endpoint(&mut self, t: TermId, body: TermId, family: &Binder, d: Dim, endpoint: ValId, ctx: &Context) -> (r:
        Result<()>)
        requires
            old(self).inv(),
        ensures
            final(self).inv(),
            final(self).fuel == old(self).fuel,
            arenas_grow(*old(self), *final(self)),
            final(self).calls_left() <= old(self).calls_left(),
        decreases old(self).calls_left(),
    {
        self.spend()?;
        let at = self.interval_at(ctx, d)?;
        let body = self.thunk(body, at.env)?;
        let a = self.inst_dim(family, d)?;
        if !self.conv(body, endpoint, Some(a), ctx.face)? {
            return Err(self.error(t, "path endpoint does not match its declared boundary"));
        }
        Ok(())
    }

    /// Infers the type of `t`.
    #[verifier::spinoff_prover]
    #[verifier::rlimit(60)]
    fn infer(&mut self, t: TermId, ctx: &Context) -> (r: Result<ValId>)
        requires
            old(self).inv(),
        ensures
            r matches Ok(v) ==> type_level(old(self).program.terms@, t) matches Some(k) ==> v.0 < final(self).values@.len()
                && final(self).values@[v.0 as int] == Val::U(k),
            final(self).inv(),
            final(self).fuel == old(self).fuel,
            arenas_grow(*old(self), *final(self)),
            final(self).calls_left() <= old(self).calls_left(),
            r is Ok ==> t.0 < old(self).program.terms@.len(),
            t.0 < old(self).program.terms@.len() ==> match old(self).program.terms@[t.0 as int].term {
                Term::Var(i) => r matches Ok(v) ==> i < ctx.types@.len() && v == ctx.types@[ctx.types@.len() - 1 - i],
                Term::U(l) => (l == u32::MAX ==> r is Err) && (r matches Ok(v) ==> final(self).shape_at(
                    v,
                    Val::U((l + 1) as u32),
                )),
                Term::Bool | Term::Nat => r matches Ok(v) ==> final(self).shape_at(v, Val::U(0)),
                Term::True | Term::False => r matches Ok(v) ==> final(self).shape_at(v, Val::Bool),
                Term::Zero | Term::Suc(_) => r matches Ok(v) ==> final(self).shape_at(v, Val::Nat),
                Term::Lam(_) | Term::Pair(_, _) | Term::PLam(_) => r is Err,
                Term::Pi(_, _) | Term::Sigma(_, _) | Term::Path(_, _, _) => r matches Ok(v) ==> {
                    &&& v.0 < final(self).values@.len()
                    &&& final(self).values@[v.0 as int] is U
                },
                Term::Global(i) => r is Ok ==> i < old(self).program.decls@.len(),
                Term::App(_, x) => r matches Ok(v) ==> !old(self).optimized ==> instance_at(
                    *final(self),
                    v,
                    |y: ValId| crate::eval::denotes(*final(self), old(self).program.terms@, false, y, x, ctx.env),
                ),
                Term::Snd(p) => r matches Ok(v) ==> !old(self).optimized ==> instance_at(
                    *final(self),
                    v,
                    |y: ValId|
                        y.0 < final(self).values@.len() && (final(self).values@[y.0 as int] matches Val::Fst(q)
                            && crate::eval::denotes(*final(self), old(self).program.terms@, false, q, p, ctx.env)),
                ),
                Term::Fst(_) => r matches Ok(v) ==> exists|i: int|
                    0 <= i < final(self).values@.len() && (#[trigger] final(self).values@[i] matches Val::Sigma(a, _) && a == v),
                Term::If(_, _, _, c) => r matches Ok(v) ==> v.0 < final(self).values@.len() && (final(self).values@[
                    v.0 as int] matches Val::App(_, y) && crate::eval::denotes(
                    *final(self),
                    old(self).program.terms@,
                    old(self).optimized,
                    y,
                    c,
                    ctx.env,
                )),
                Term::Ann(_, ty) => r matches Ok(v) ==> crate::eval::denotes(
                    *final(self),
                    old(self).program.terms@,
                    old(self).optimized,
                    v,
                    ty,
                    ctx.env,
                ),
                _ => true,
            },
            old(self).budget_allows(1) && t.0 < old(self).program.terms@.len() ==> (old(self).program.terms@[t.0 as int].term matches Term::Var(i)
                ==> (i < ctx.types@.len() ==> r == Ok::<ValId, Error>(ctx.types@[ctx.types@.len() - 1 - i]))),
            old(self).budget_allows(1) && t.0 < old(self).program.terms@.len() ==> match old(self).program.terms@[t.0 as int].term {
                Term::U(l) => if l == u32::MAX {
                    r matches Err(e) && e.offset == Some(old(self).program.terms@[t.0 as int].offset) && e.message@
                        == "universe level overflow"@
                } else {
                    r is Ok
                },
                Term::Bool | Term::Nat | Term::True | Term::False | Term::Zero => r is Ok,
                _ => true,
            },
        decreases old(self).calls_left(),
    {
        self.spend()?;
        self.tick()?;
        let node = self.term_at(t)?;
        let ty = match &node.term {
            Term::Var(i) => {
                if *i < ctx.types.len() {
                    return Ok(ctx.types[ctx.types.len() - 1 - *i]);
                }
                return Err(internal("internal error: unbound variable"));
            },
            Term::Global(i) => {
                let program = self.program;
                if *i >= program.decls.len() {
                    return Err(internal("internal error: unknown declaration"));
                }
                let e = self.env(Env::empty());
                return self.thunk(program.decls[*i].ty, e);
            },
            Term::U(l) => {
                if *l == u32::MAX {
                    return Err(self.error(t, "universe level overflow"));
                }
                Val::U(*l + 1)
            },
            Term::Bool | Term::Nat => Val::U(0),
            Term::True | Term::False => Val::Bool,
            Term::Zero => Val::Nat,
            Term::Suc(n) => {
                let nat_ty = self.make(Val::Nat);
                self.check(*n, nat_ty, ctx)?;
                Val::Nat
            },
            Term::Pi(a, b) | Term::Sigma(a, b) => {
                let l = self.sort(*a, ctx)?;
                let a = self.thunk(*a, ctx.env)?;
                let (inner, _) = self.extend(ctx, a)?;
                let m = self.sort(*b, &inner)?;
                Val::U(if l >= m { l } else { m })
            },
            Term::Ann(body, ty) => {
                self.sort(*ty, ctx)?;
                let ty = self.thunk(*ty, ctx.env)?;
                self.check(*body, ty, ctx)?;
                return Ok(ty);
            },
            Term::App(f, a) => {
                let ty = self.infer(*f, ctx)?;
                let ty = self.force(ty, ctx.face)?;
                if let Val::Pi(dom, cod) = self.get(ty)? {
                    self.check(*a, dom, ctx)?;
                    let ghost x = *a;
                    let a = self.thunk(*a, ctx.env)?;
                    let ghost mid = *self;
                    let w = self.inst(&cod, a)?;
                    proof {
                        crate::eval::lemma_denotes_stable(mid, *self, old(self).program.terms@, self.optimized, a, x, ctx.env);
                    }
                    return Ok(w);
                }
                return Err(self.error(t, "application expects a dependent function"));
            },
            Term::Fst(p) => {
                let ty = self.infer(*p, ctx)?;
                let ty = self.force(ty, ctx.face)?;
                if let Val::Sigma(a, _) = self.get(ty)? {
                    assert(self.values@[ty.0 as int] matches Val::Sigma(d, _) && d == a);
                    return Ok(a);
                }
                return Err(self.error(t, "projection expects a dependent pair"));
            },
            Term::Snd(p) => {
                let ty = self.infer(*p, ctx)?;
                let ty = self.force(ty, ctx.face)?;
                if let Val::Sigma(_, b) = self.get(ty)? {
                    let ghost pt = *p;
                    let p = self.thunk(*p, ctx.env)?;
                    let ghost mid = *self;
                    let a = self.fst(p);
                    let ghost mid2 = *self;
                    let w = self.inst(&b, a)?;
                    proof {
                        crate::eval::lemma_denotes_stable(mid, *self, old(self).program.terms@, self.optimized, p, pt, ctx.env);
                        if !self.optimized {
                            assert(self.values@[a.0 as int] == mid2.values@[a.0 as int]);
                        }
                    }
                    return Ok(w);
                }
                return Err(self.error(t, "projection expects a dependent pair"));
            },
            Term::If(p, a, b, c) => {
                let bool_ty = self.make(Val::Bool);
                self.check(*c, bool_ty, ctx)?;
                self.check_motive(*p, bool_ty, ctx)?;
                let p = self.thunk(*p, ctx.env)?;
                let tv = self.make(Val::True);
                let fv = self.make(Val::False);
                let ta = self.app(p, tv);
                let tb = self.app(p, fv);
                self.check(*a, ta, ctx)?;
                self.check(*b, tb, ctx)?;
                let ghost ct = *c;
                let c = self.thunk(*c, ctx.env)?;
                let ghost mid = *self;
                let w = self.app(p, c);
                proof {
                    crate::eval::lemma_denotes_stable(mid, *self, old(self).program.terms@, self.optimized, c, ct, ctx.env);
                }
                return Ok(w);
            },
            Term::NatElim(p, z, s, n) => {
                return self.infer_nat_elim(*p, *z, *s, *n, ctx);
            },
            Term::Path(a, l, r) => {
                let (inner, _) = self.interval(ctx)?;
                let level = self.sort(*a, &inner)?;
                let at = self.interval_at(ctx, Dim::Zero)?;
                let a0 = self.thunk(*a, at.env)?;
                self.check(*l, a0, ctx)?;
                let at = self.interval_at(ctx, Dim::One)?;
                let a1 = self.thunk(*a, at.env)?;
                self.check(*r, a1, ctx)?;
                Val::U(level)
            },
            Term::PApp(p, d) => {
                let ty = self.infer(*p, ctx)?;
                let ty = self.force(ty, ctx.face)?;
                if let Val::Path(b, _, _) = self.get(ty)? {
                    let d = self.dim(*d, ctx.env)?;
                    return self.inst_dim(&b, d);
                }
                return Err(self.error(t, "'at' expects a path"));
            },
            Term::Com { family, from, to, cap, tubes } => {
                return self.infer_com(*family, *from, *to, *cap, tubes, ctx);
            },
            Term::System(a, branches) => {
                return self.infer_system(t, *a, branches, ctx);
            },
            Term::Glue(base, branches) => {
                return self.infer_glue(t, *base, branches, ctx);
            },
            Term::Unglue(g, v) => {
                self.sort(*g, ctx)?;
                let g = self.thunk(*g, ctx.env)?;
                let raw = self.force_glue(g, ctx.face)?;
                if let Val::Glue(base, _) = self.get(raw)? {
                    self.check(*v, g, ctx)?;
                    return Ok(base);
                }
                return Err(self.error(t, "unglue requires an explicit Glue type"));
            },
            Term::GlueIntro(g, base, branches) => {
                return self.infer_glue_intro(t, *g, *base, branches, ctx);
            },
            Term::Lam(_) | Term::Pair(_, _) | Term::PLam(_) => {
                return Err(self.error(t, "cannot infer an introduction form; add (ann term type)"));
            },
        };
        Ok(self.make(ty))
    }

    fn infer_nat_elim(&mut self, p: TermId, z: TermId, s: TermId, n: TermId, ctx: &Context) -> (r: Result<ValId>)
        requires
            old(self).inv(),
        ensures
            final(self).inv(),
            final(self).fuel == old(self).fuel,
            arenas_grow(*old(self), *final(self)),
            final(self).calls_left() <= old(self).calls_left(),
        decreases old(self).calls_left(),
    {
        self.spend()?;
        let nat_ty = self.make(Val::Nat);
        self.check(n, nat_ty, ctx)?;
        self.check_motive(p, nat_ty, ctx)?;
        let p = self.thunk(p, ctx.env)?;
        let zero = self.make(Val::Zero);
        let base = self.app(p, zero);
        self.check(z, base, ctx)?;
        let x = self.fresh_term()?;
        let xv = self.make(Val::Var(x, Some(nat_ty)));
        let px = self.app(p, xv);
        let sx = self.make(Val::Suc(xv));
        let result = self.app(p, sx);
        let ih = self.fresh_term()?;
        let step = self.make(Val::Pi(px, Binder { var: ih, body: result }));
        let step = self.make(Val::Pi(nat_ty, Binder { var: x, body: step }));
        self.check(s, step, ctx)?;
        let n = self.thunk(n, ctx.env)?;
        Ok(self.app(p, n))
    }

    fn infer_com(
        &mut self,
        family: TermId,
        from: crate::syntax::D,
        to: crate::syntax::D,
        cap: TermId,
        tubes: &Vec<(crate::syntax::F, TermId)>,
        ctx: &Context,
    ) -> (r: Result<ValId>)
        requires
            old(self).inv(),
        ensures
            final(self).inv(),
            final(self).fuel == old(self).fuel,
            arenas_grow(*old(self), *final(self)),
            final(self).calls_left() <= old(self).calls_left(),
        decreases old(self).calls_left(),
    {
        self.spend()?;
        let (inner, _) = self.interval(ctx)?;
        self.sort(family, &inner)?;
        let from = self.dim(from, ctx.env)?;
        let to = self.dim(to, ctx.env)?;
        let source = self.interval_at(ctx, from)?;
        let source_ty = self.thunk(family, source.env)?;
        self.check(cap, source_ty, ctx)?;
        let cap = self.thunk(cap, ctx.env)?;
        let mut previous: Vec<(FaceId, ValId)> = Vec::new();
        let mut k: usize = 0;
        while k < tubes.len()
            invariant
                self.inv(),
                self.fuel == old(self).fuel,
                arenas_grow(*old(self), *self),
                self.calls_left() < old(self).calls_left(),
                k <= tubes@.len(),
            decreases tubes@.len() - k,
        {
            let tube = tubes[k].1;
            let f = self.face(&tubes[k].0, ctx.env)?;
            k += 1;
            let under = self.face_and(ctx.face, f)?;
            let branch = Self::under(&inner, under);
            let ty = self.thunk(family, inner.env)?;
            self.check(tube, ty, &branch)?;
            let start = self.thunk(tube, source.env)?;
            if !self.conv(start, cap, Some(source_ty), under)? {
                return Err(self.error(tube, "composition tube disagrees with its cap at the source"));
            }
            let v = self.thunk(tube, inner.env)?;
            let mut m: usize = 0;
            while m < previous.len()
                invariant
                    self.inv(),
                    self.fuel == old(self).fuel,
                    arenas_grow(*old(self), *self),
                    self.calls_left() < old(self).calls_left(),
                    m <= previous@.len(),
                decreases previous@.len() - m,
            {
                let (old_face, old_v) = previous[m];
                let overlap = self.face_and(under, old_face)?;
                if !self.conv(v, old_v, Some(ty), overlap)? {
                    return Err(self.error(tube, "composition tubes disagree on an overlap"));
                }
                m += 1;
            }
            previous.push((f, v));
        }
        let target = self.interval_at(ctx, to)?;
        self.thunk(family, target.env)
    }

    fn infer_system(&mut self, t: TermId, a: TermId, branches: &Vec<(crate::syntax::F, TermId)>, ctx: &Context) -> (r:
        Result<ValId>)
        requires
            old(self).inv(),
        ensures
            final(self).inv(),
            final(self).fuel == old(self).fuel,
            arenas_grow(*old(self), *final(self)),
            final(self).calls_left() <= old(self).calls_left(),
        decreases old(self).calls_left(),
    {
        self.spend()?;
        self.sort(a, ctx)?;
        let a = self.thunk(a, ctx.env)?;
        let mut cover = self.bot();
        let mut previous: Vec<(FaceId, ValId)> = Vec::new();
        let mut k: usize = 0;
        while k < branches.len()
            invariant
                self.inv(),
                self.fuel == old(self).fuel,
                arenas_grow(*old(self), *self),
                self.calls_left() < old(self).calls_left(),
                k <= branches@.len(),
            decreases branches@.len() - k,
        {
            let body = branches[k].1;
            let f = self.face(&branches[k].0, ctx.env)?;
            k += 1;
            cover = self.face_or(cover, f)?;
            let under = self.face_and(ctx.face, f)?;
            let branch = Self::under(ctx, under);
            self.check(body, a, &branch)?;
            let v = self.thunk(body, ctx.env)?;
            let mut m: usize = 0;
            while m < previous.len()
                invariant
                    self.inv(),
                    self.fuel == old(self).fuel,
                    arenas_grow(*old(self), *self),
                    self.calls_left() < old(self).calls_left(),
                    m <= previous@.len(),
                decreases previous@.len() - m,
            {
                let (old_face, old_v) = previous[m];
                let overlap = self.face_and(under, old_face)?;
                if !self.conv(v, old_v, Some(a), overlap)? {
                    return Err(self.error(body, "system branches disagree on an overlap"));
                }
                m += 1;
            }
            previous.push((f, v));
        }
        if !self.entails(ctx.face, cover)? {
            return Err(self.error(t, "system faces do not cover the current face context"));
        }
        Ok(a)
    }

    fn infer_glue(&mut self, t: TermId, base: TermId, branches: &Vec<(crate::syntax::F, TermId, TermId)>, ctx: &Context) -> (r:
        Result<ValId>)
        requires
            old(self).inv(),
        ensures
            final(self).inv(),
            final(self).fuel == old(self).fuel,
            arenas_grow(*old(self), *final(self)),
            final(self).calls_left() <= old(self).calls_left(),
        decreases old(self).calls_left(),
    {
        self.spend()?;
        let level = self.sort(base, ctx)?;
        let base = self.thunk(base, ctx.env)?;
        let universe = self.make(Val::U(level));
        let mut previous: Vec<(FaceId, ValId, ValId)> = Vec::new();
        let mut k: usize = 0;
        while k < branches.len()
            invariant
                self.inv(),
                self.fuel == old(self).fuel,
                arenas_grow(*old(self), *self),
                self.calls_left() < old(self).calls_left(),
                k <= branches@.len(),
            decreases branches@.len() - k,
        {
            let (a, e) = (branches[k].1, branches[k].2);
            let f = self.face(&branches[k].0, ctx.env)?;
            k += 1;
            let under = self.face_and(ctx.face, f)?;
            let branch = Self::under(ctx, under);
            self.check(a, universe, &branch)?;
            let a = self.thunk(a, ctx.env)?;
            let eqty = self.equiv_type(a, base)?;
            self.check(e, eqty, &branch)?;
            let e = self.thunk(e, ctx.env)?;
            let mut m: usize = 0;
            while m < previous.len()
                invariant
                    self.inv(),
                    self.fuel == old(self).fuel,
                    arenas_grow(*old(self), *self),
                    self.calls_left() < old(self).calls_left(),
                    m <= previous@.len(),
                decreases previous@.len() - m,
            {
                let (g, b, q) = previous[m];
                let overlap = self.face_and(under, g)?;
                if !self.conv(a, b, None, overlap)? || !self.conv(e, q, Some(eqty), overlap)? {
                    return Err(self.error(t, "Glue data disagree on an overlap"));
                }
                m += 1;
            }
            previous.push((f, a, e));
        }
        Ok(self.make(Val::U(level)))
    }

    fn infer_glue_intro(
        &mut self,
        t: TermId,
        g: TermId,
        base: TermId,
        branches: &Vec<(crate::syntax::F, TermId)>,
        ctx: &Context,
    ) -> (r: Result<ValId>)
        requires
            old(self).inv(),
        ensures
            final(self).inv(),
            final(self).fuel == old(self).fuel,
            arenas_grow(*old(self), *final(self)),
            final(self).calls_left() <= old(self).calls_left(),
        decreases old(self).calls_left(),
    {
        self.spend()?;
        self.sort(g, ctx)?;
        let g = self.thunk(g, ctx.env)?;
        let raw = self.force_glue(g, ctx.face)?;
        let (base_ty, data) = match self.get(raw)? {
            Val::Glue(b, d) => (b, d),
            _ => {
                return Err(self.error(t, "glue requires an explicit Glue type"));
            },
        };
        self.check(base, base_ty, ctx)?;
        let base = self.thunk(base, ctx.env)?;
        let mut domain = self.bot();
        let mut k: usize = 0;
        while k < data.len()
            invariant
                self.inv(),
                self.fuel == old(self).fuel,
                arenas_grow(*old(self), *self),
                self.calls_left() < old(self).calls_left(),
                k <= data@.len(),
            decreases data@.len() - k,
        {
            domain = self.face_or(domain, data[k].0)?;
            k += 1;
        }
        let mut cover = self.bot();
        let mut tops: Vec<(FaceId, ValId)> = Vec::new();
        let mut k: usize = 0;
        while k < branches.len()
            invariant
                self.inv(),
                self.fuel == old(self).fuel,
                arenas_grow(*old(self), *self),
                self.calls_left() < old(self).calls_left(),
                k <= branches@.len(),
            decreases branches@.len() - k,
        {
            let body = branches[k].1;
            let f = self.face(&branches[k].0, ctx.env)?;
            k += 1;
            let under = self.face_and(ctx.face, f)?;
            if !self.entails(under, domain)? {
                return Err(self.error(body, "glue element face exceeds the Glue type's domain"));
            }
            cover = self.face_or(cover, f)?;
            let v = self.thunk(body, ctx.env)?;
            let mut m: usize = 0;
            while m < data.len()
                invariant
                    self.inv(),
                    self.fuel == old(self).fuel,
                    arenas_grow(*old(self), *self),
                    self.calls_left() < old(self).calls_left(),
                    m <= data@.len(),
                decreases data@.len() - m,
            {
                let (h, a, e) = data[m];
                m += 1;
                let overlap = self.face_and(under, h)?;
                let branch = Self::under(ctx, overlap);
                self.check(body, a, &branch)?;
                let fun = self.fst(e);
                let image = self.app(fun, v);
                if !self.conv(image, base, Some(base_ty), overlap)? {
                    return Err(self.error(body, "glue element image disagrees with its base"));
                }
                let mut n: usize = 0;
                while n < tops.len()
                    invariant
                        self.inv(),
                        self.fuel == old(self).fuel,
                        arenas_grow(*old(self), *self),
                        self.calls_left() < old(self).calls_left(),
                        n <= tops@.len(),
                    decreases tops@.len() - n,
                {
                    let (old_face, old_v) = tops[n];
                    let both = self.face_and(overlap, old_face)?;
                    if !self.conv(v, old_v, Some(a), both)? {
                        return Err(self.error(body, "glue elements disagree on an overlap"));
                    }
                    n += 1;
                }
            }
            tops.push((f, v));
        }
        let required = self.face_and(ctx.face, domain)?;
        if !self.entails(required, cover)? {
            return Err(self.error(t, "glue elements do not cover the Glue type's domain"));
        }
        Ok(g)
    }

    fn check_motive(&mut self, p: TermId, domain: ValId, ctx: &Context) -> (r: Result<()>)
        requires
            old(self).inv(),
        ensures
            final(self).inv(),
            final(self).fuel == old(self).fuel,
            arenas_grow(*old(self), *final(self)),
            final(self).calls_left() <= old(self).calls_left(),
        decreases old(self).calls_left(),
    {
        self.spend()?;
        // A syntactic lambda is permitted here without a universe annotation.
        let node = self.term_at(p)?;
        if let Term::Lam(body) = &node.term {
            let (inner, _) = self.extend(ctx, domain)?;
            self.sort(*body, &inner)?;
            return Ok(());
        }
        let ty = self.infer(p, ctx)?;
        let ty = self.force(ty, ctx.face)?;
        if let Val::Pi(a, b) = self.get(ty)? {
            if self.conv(a, domain, None, ctx.face)? {
                let x = self.variable(a)?;
                let b = self.inst(&b, x)?;
                let b = self.force(b, ctx.face)?;
                if let Val::U(_) = self.get(b)? {
                    return Ok(());
                }
            }
        }
        Err(self.error(p, "eliminator motive must map its argument type to a universe"))
    }

    /// Type-directed eta equality; term identities are only compared in one face context.
    pub fn conv(&mut self, a: ValId, b: ValId, ty: Option<ValId>, face: FaceId) -> (r: Result<bool>)
        requires
            old(self).inv(),
        ensures
            final(self).inv(),
            final(self).fuel == old(self).fuel,
            arenas_grow(*old(self), *final(self)),
            final(self).calls_left() <= old(self).calls_left(),
            r is Ok && a == b ==> r == Ok::<bool, Error>(true),
            r is Ok && crate::face::inconsistent_sem(old(self).faces@, face.0 as int) ==> r == Ok::<bool, Error>(true),
            old(self).budget_allows(1) && old(self).faces.valid(face) && crate::face::atomic(old(self).faces@[face.0 as int])
                && (a == b || crate::face::inconsistent_sem(old(self).faces@, face.0 as int)) ==> r == Ok::<bool, Error>(true),
            old(self).budget_for(2, 2) && old(self).faces.valid(face) && crate::face::atomic(old(self).faces@[face.0 as int])
                && crate::eval::equal_atoms(old(self).values@, a, b) ==> r == Ok::<bool, Error>(true),
            r == Ok::<bool, Error>(true) && atoms_apart(*old(self), a, b, ty) ==> crate::face::inconsistent_sem(
                old(self).faces@,
                face.0 as int,
            ),
        decreases old(self).calls_left(),
    {
        self.spend()?;
        self.tick()?;
        if self.inconsistent(face)? {
            return Ok(true);
        }
        if a == b {
            return Ok(true);
        }
        if self.same(a, b, face, 128)? {
            return Ok(true);
        }
        let ghost before_clauses = *self;
        let clauses = self.face_clauses(face)?;
        let ghost after_clauses = *self;
        if clauses.len() > 1 {
            let mut k: usize = 0;
            while k < clauses.len()
                invariant
                    self.inv(),
                    self.fuel == old(self).fuel,
                    arenas_grow(*old(self), *self),
                    arenas_grow(after_clauses, *self),
                    self.calls_left() < old(self).calls_left(),
                    k <= clauses@.len(),
                    forall|j: int| 0 <= j < clauses@.len() ==> after_clauses.faces.valid(#[trigger] clauses@[j]),
                    atoms_apart(*old(self), a, b, ty) ==> forall|j: int|
                        0 <= j < k ==> crate::face::inconsistent_sem(self.faces@, (#[trigger] clauses@[j]).0 as int),
                decreases clauses@.len() - k,
            {
                let ghost before_call = *self;
                if !self.conv(a, b, ty, clauses[k])? {
                    return Ok(false);
                }
                proof {
                    if atoms_apart(*old(self), a, b, ty) {
                        lemma_apart_grows(*old(self), before_call, a, b, ty);
                        assert forall|j: int| 0 <= j < k + 1 implies crate::face::inconsistent_sem(
                            self.faces@,
                            (#[trigger] clauses@[j]).0 as int,
                        ) by {
                            assert forall|rho: spec_fn(u32) -> int| !#[trigger] crate::face::face_holds(
                                self.faces@,
                                clauses@[j].0 as int,
                                rho,
                            ) by {
                                crate::face::lemma_holds_extend(before_call.faces@, self.faces@, clauses@[j].0 as int, rho);
                            }
                        }
                    }
                }
                k += 1;
            }
            proof {
                if atoms_apart(*old(self), a, b, ty) {
                    assert forall|rho: spec_fn(u32) -> int| !#[trigger] crate::face::face_holds(
                        old(self).faces@,
                        face.0 as int,
                        rho,
                    ) by {
                        if crate::face::face_holds(old(self).faces@, face.0 as int, rho) {
                            crate::face::lemma_holds_extend(old(self).faces@, before_clauses.faces@, face.0 as int, rho);
                            assert(before_clauses.faces.holds(face, rho));
                            let j = choose|j: int|
                                0 <= j < clauses@.len() && crate::face::face_holds(
                                    after_clauses.faces@,
                                    (#[trigger] clauses@[j]).0 as int,
                                    rho,
                                );
                            crate::face::lemma_holds_extend(after_clauses.faces@, self.faces@, clauses@[j].0 as int, rho);
                        }
                    }
                }
            }
            return Ok(true);
        }
        if let Some(ty) = ty {
            if let Some(result) = self.conv_typed(a, b, ty, face)? {
                return Ok(result);
            }
        }
        let a = self.force(a, face)?;
        let b = self.force(b, face)?;
        if a == b {
            return Ok(true);
        }
        if let Val::System(_, branches) = self.get(a)? {
            let mut k: usize = 0;
            while k < branches.len()
                invariant
                    self.inv(),
                    self.fuel == old(self).fuel,
                    arenas_grow(*old(self), *self),
                    self.calls_left() < old(self).calls_left(),
                    k <= branches@.len(),
                decreases branches@.len() - k,
            {
                let under = self.face_and(face, branches[k].0)?;
                if !self.conv(branches[k].1, b, ty, under)? {
                    return Ok(false);
                }
                k += 1;
            }
            return Ok(true);
        }
        if let Val::System(_, branches) = self.get(b)? {
            let mut k: usize = 0;
            while k < branches.len()
                invariant
                    self.inv(),
                    self.fuel == old(self).fuel,
                    arenas_grow(*old(self), *self),
                    self.calls_left() < old(self).calls_left(),
                    k <= branches@.len(),
                decreases branches@.len() - k,
            {
                let under = self.face_and(face, branches[k].0)?;
                if !self.conv(a, branches[k].1, ty, under)? {
                    return Ok(false);
                }
                k += 1;
            }
            return Ok(true);
        }
        let ghost before_heads = *self;
        let r = self.conv_heads(a, b, ty, face);
        proof {
            if r == Ok::<bool, Error>(true) && crate::eval::binders_apart(before_heads.values@, a, b) {
                assert forall|rho: spec_fn(u32) -> int| !#[trigger] crate::face::face_holds(
                    old(self).faces@,
                    face.0 as int,
                    rho,
                ) by {
                    if old(self).faces.valid(face) {
                        crate::face::lemma_holds_extend(old(self).faces@, before_heads.faces@, face.0 as int, rho);
                    }
                }
            }
        }
        r
    }

    /// Conversion by the eta rule of the type `ty`, when `ty` is a function,
    /// pair, path or Glue type.
    fn conv_typed(&mut self, a: ValId, b: ValId, ty: ValId, face: FaceId) -> (r: Result<Option<bool>>)
        requires
            old(self).inv(),
        ensures
            final(self).inv(),
            final(self).fuel == old(self).fuel,
            arenas_grow(*old(self), *final(self)),
            final(self).calls_left() <= old(self).calls_left(),
            r matches Ok(Some(_)) ==> !crate::quote::untyped_form(old(self).values@, Some(ty)),
        decreases old(self).calls_left(),
    {
        self.spend()?;
        let ty = self.force(ty, face)?;
        match self.get(ty)? {
            Val::Pi(dom, cod) => {
                let x = self.variable(dom)?;
                let ax = self.app(a, x);
                let bx = self.app(b, x);
                let cod = self.inst(&cod, x)?;
                Ok(Some(self.conv(ax, bx, Some(cod), face)?))
            },
            Val::Sigma(dom, cod) => {
                let ax = self.fst(a);
                let bx = self.fst(b);
                if !self.conv(ax, bx, Some(dom), face)? {
                    return Ok(Some(false));
                }
                let cod = self.inst(&cod, ax)?;
                let ay = self.snd(a);
                let by = self.snd(b);
                Ok(Some(self.conv(ay, by, Some(cod), face)?))
            },
            Val::Path(family, _, _) => {
                let i = self.fresh_dim()?;
                let d = Dim::Var(i);
                let ax = self.at(a, d);
                let bx = self.at(b, d);
                let cod = self.inst_dim(&family, d)?;
                Ok(Some(self.conv(ax, bx, Some(cod), face)?))
            },
            Val::Glue(base, branches) => {
                let ax = self.make(Val::Unglue(ty, a));
                let bx = self.make(Val::Unglue(ty, b));
                if !self.conv(ax, bx, Some(base), face)? {
                    return Ok(Some(false));
                }
                let mut k: usize = 0;
                while k < branches.len()
                    invariant
                        self.inv(),
                        self.fuel == old(self).fuel,
                        arenas_grow(*old(self), *self),
                        self.calls_left() < old(self).calls_left(),
                        k <= branches@.len(),
                    decreases branches@.len() - k,
                {
                    let (f, t, _) = branches[k];
                    let under = self.face_and(face, f)?;
                    if !self.conv(a, b, Some(t), under)? {
                        return Ok(Some(false));
                    }
                    k += 1;
                }
                Ok(Some(true))
            },
            _ => Ok(None),
        }
    }

    /// Conversion of two head normal forms by their heads.
    #[verifier::rlimit(40)]
    fn conv_heads(&mut self, a: ValId, b: ValId, ty: Option<ValId>, face: FaceId) -> (r: Result<bool>)
        requires
            old(self).inv(),
        ensures
            final(self).inv(),
            final(self).fuel == old(self).fuel,
            arenas_grow(*old(self), *final(self)),
            final(self).calls_left() <= old(self).calls_left(),
            r matches Ok(x) ==> crate::eval::distinct_atoms(old(self).values@, a, b) ==> !x,
            r matches Ok(x) ==> crate::eval::equal_atoms(old(self).values@, a, b) ==> x,
            r matches Ok(x) ==> a.0 < old(self).values@.len() && b.0 < old(self).values@.len() && old(self).values@[a.0 as int] is Var
                && old(self).values@[b.0 as int] is Var ==> x == (old(self).values@[a.0 as int]->Var_0 == old(self).values@[
                b.0 as int]->Var_0),
            r == Ok::<bool, Error>(true) && crate::eval::binders_apart(old(self).values@, a, b) ==> crate::face::inconsistent_sem(
                old(self).faces@,
                face.0 as int,
            ),
        decreases old(self).calls_left(),
    {
        self.spend()?;
        match (self.get(a)?, self.get(b)?) {
            (Val::U(a), Val::U(b)) => Ok(a == b),
            (Val::Bool, Val::Bool) | (Val::Nat, Val::Nat) | (Val::True, Val::True) | (Val::False, Val::False) | (
                Val::Zero,
                Val::Zero,
            ) => Ok(true),
            (Val::Var(a, _), Val::Var(b, _)) => Ok(a == b),
            (Val::Pi(a, x), Val::Pi(b, y)) | (Val::Sigma(a, x), Val::Sigma(b, y)) => {
                if !self.conv(a, b, None, face)? {
                    return Ok(false);
                }
                let v = self.variable(a)?;
                let x = self.inst(&x, v)?;
                let y = self.inst(&y, v)?;
                self.conv(x, y, None, face)
            },
            (Val::Path(x, l, r), Val::Path(y, m, n)) => {
                let i = self.fresh_dim()?;
                let x_body = self.inst_dim(&x, Dim::Var(i))?;
                let y_body = self.inst_dim(&y, Dim::Var(i))?;
                if !self.conv(x_body, y_body, None, face)? {
                    return Ok(false);
                }
                let a = self.inst_dim(&x, Dim::Zero)?;
                let b = self.inst_dim(&x, Dim::One)?;
                Ok(self.conv(l, m, Some(a), face)? && self.conv(r, n, Some(b), face)?)
            },
            (Val::Suc(a), Val::Suc(b)) => {
                let ty = self.make(Val::Nat);
                self.conv(a, b, Some(ty), face)
            },
            (Val::App(f, a), Val::App(g, b)) => {
                if !self.conv(f, g, None, face)? {
                    return Ok(false);
                }
                let ft = self.neutral_type(f, face)?;
                let ft = self.force(ft, face)?;
                let ty = if let Val::Pi(a, _) = self.get(ft)? {
                    Some(a)
                } else {
                    None
                };
                self.conv(a, b, ty, face)
            },
            (Val::Fst(a), Val::Fst(b)) | (Val::Snd(a), Val::Snd(b)) => self.conv(a, b, None, face),
            (Val::PApp(a, i), Val::PApp(b, j)) => Ok(self.dims_equal(face, i, j)? && self.conv(a, b, None, face)?),
            (Val::If(p, a, b, c), Val::If(q, d, e, f)) => {
                let bool_ty = self.make(Val::Bool);
                let x = self.fresh_term()?;
                let u = self.make(Val::U(0));
                let motive = self.make(Val::Pi(bool_ty, Binder { var: x, body: u }));
                // Motive universes need not be U0; function eta only needs the domain here.
                if !self.conv(p, q, Some(motive), face)? || !self.conv(c, f, Some(bool_ty), face)? {
                    return Ok(false);
                }
                let tv = self.make(Val::True);
                let fv = self.make(Val::False);
                let ta = self.app(p, tv);
                let tb = self.app(p, fv);
                Ok(self.conv(a, d, Some(ta), face)? && self.conv(b, e, Some(tb), face)?)
            },
            (Val::NatElim(p, z, s, n), Val::NatElim(q, w, t, m)) => {
                let nat_ty = self.make(Val::Nat);
                let x = self.variable(nat_ty)?;
                let px = self.app(p, x);
                let qx = self.app(q, x);
                if !self.conv(px, qx, None, face)? || !self.conv(n, m, Some(nat_ty), face)? {
                    return Ok(false);
                }
                let zero = self.make(Val::Zero);
                let pz = self.app(p, zero);
                if !self.conv(z, w, Some(pz), face)? {
                    return Ok(false);
                }
                let ih = self.variable(px)?;
                let sx = self.app(s, x);
                let tx = self.app(t, x);
                let sx = self.app(sx, ih);
                let tx = self.app(tx, ih);
                let next = self.make(Val::Suc(x));
                let pn = self.app(p, next);
                self.conv(sx, tx, Some(pn), face)
            },
            (Val::Com(a), Val::Com(b)) => self.conv_com(a, b, face),
            (Val::Glue(a, bs), Val::Glue(b, cs)) => self.conv_glue(a, bs, b, cs, face),
            (Val::Unglue(g, x), Val::Unglue(h, y)) => Ok(self.conv(g, h, None, face)? && self.conv(x, y, None, face)?),
            _ => Ok(false),
        }
    }

    /// The disjunction of the faces of a list of branches.
    fn cover_of(&mut self, faces: &Vec<FaceId>) -> (r: Result<FaceId>)
        requires
            old(self).inv(),
        ensures
            final(self).inv(),
            final(self).fuel == old(self).fuel,
            arenas_grow(*old(self), *final(self)),
            final(self).calls_left() == old(self).calls_left(),
    {
        let mut cover = self.bot();
        let mut k: usize = 0;
        while k < faces.len()
            invariant
                self.inv(),
                self.fuel == old(self).fuel,
                arenas_grow(*old(self), *self),
                self.calls_left() == old(self).calls_left(),
                k <= faces@.len(),
            decreases faces@.len() - k,
        {
            cover = self.face_or(cover, faces[k])?;
            k += 1;
        }
        Ok(cover)
    }

    fn conv_com(&mut self, a: crate::eval::Composition, b: crate::eval::Composition, face: FaceId) -> (r: Result<bool>)
        requires
            old(self).inv(),
        ensures
            final(self).inv(),
            final(self).fuel == old(self).fuel,
            arenas_grow(*old(self), *final(self)),
            final(self).calls_left() <= old(self).calls_left(),
        decreases old(self).calls_left(),
    {
        self.spend()?;
        if !self.dims_equal(face, a.from, b.from)? || !self.dims_equal(face, a.to, b.to)? {
            return Ok(false);
        }
        let i = self.fresh_dim()?;
        let d = Dim::Var(i);
        let af = self.restrict(a.family, a.dim, d)?;
        let bf = self.restrict(b.family, b.dim, d)?;
        if !self.conv(af, bf, None, face)? {
            return Ok(false);
        }
        let src = self.restrict(a.family, a.dim, a.from)?;
        if !self.conv(a.cap, b.cap, Some(src), face)? {
            return Ok(false);
        }
        let mut fa: Vec<FaceId> = Vec::new();
        let mut k: usize = 0;
        while k < a.tubes.len()
            invariant
                k <= a.tubes@.len(),
            decreases a.tubes@.len() - k,
        {
            fa.push(a.tubes[k].0);
            k += 1;
        }
        let mut fb: Vec<FaceId> = Vec::new();
        let mut k: usize = 0;
        while k < b.tubes.len()
            invariant
                k <= b.tubes@.len(),
            decreases b.tubes@.len() - k,
        {
            fb.push(b.tubes[k].0);
            k += 1;
        }
        let ac = self.cover_of(&fa)?;
        let bc = self.cover_of(&fb)?;
        let ac = self.face_and(face, ac)?;
        let bc = self.face_and(face, bc)?;
        if !self.entails(ac, bc)? || !self.entails(bc, ac)? {
            return Ok(false);
        }
        let mut k: usize = 0;
        while k < a.tubes.len()
            invariant
                self.inv(),
                self.fuel == old(self).fuel,
                arenas_grow(*old(self), *self),
                self.calls_left() < old(self).calls_left(),
                k <= a.tubes@.len(),
            decreases a.tubes@.len() - k,
        {
            let (f, x) = a.tubes[k];
            k += 1;
            let mut m: usize = 0;
            while m < b.tubes.len()
                invariant
                    self.inv(),
                    self.fuel == old(self).fuel,
                    arenas_grow(*old(self), *self),
                    self.calls_left() < old(self).calls_left(),
                    m <= b.tubes@.len(),
                decreases b.tubes@.len() - m,
            {
                let (g, y) = b.tubes[m];
                m += 1;
                let overlap = self.face_and(f, g)?;
                let overlap = self.face_and(face, overlap)?;
                let x = self.restrict(x, a.dim, d)?;
                let y = self.restrict(y, b.dim, d)?;
                if !self.conv(x, y, Some(af), overlap)? {
                    return Ok(false);
                }
            }
        }
        Ok(true)
    }

    fn conv_glue(
        &mut self,
        a: ValId,
        bs: Vec<(FaceId, ValId, ValId)>,
        b: ValId,
        cs: Vec<(FaceId, ValId, ValId)>,
        face: FaceId,
    ) -> (r: Result<bool>)
        requires
            old(self).inv(),
        ensures
            final(self).inv(),
            final(self).fuel == old(self).fuel,
            arenas_grow(*old(self), *final(self)),
            final(self).calls_left() <= old(self).calls_left(),
        decreases old(self).calls_left(),
    {
        self.spend()?;
        if !self.conv(a, b, None, face)? {
            return Ok(false);
        }
        let mut fa: Vec<FaceId> = Vec::new();
        let mut k: usize = 0;
        while k < bs.len()
            invariant
                k <= bs@.len(),
            decreases bs@.len() - k,
        {
            fa.push(bs[k].0);
            k += 1;
        }
        let mut fb: Vec<FaceId> = Vec::new();
        let mut k: usize = 0;
        while k < cs.len()
            invariant
                k <= cs@.len(),
            decreases cs@.len() - k,
        {
            fb.push(cs[k].0);
            k += 1;
        }
        let ac = self.cover_of(&fa)?;
        let bc = self.cover_of(&fb)?;
        let ac = self.face_and(face, ac)?;
        let bc = self.face_and(face, bc)?;
        if !self.entails(ac, bc)? || !self.entails(bc, ac)? {
            return Ok(false);
        }
        let mut k: usize = 0;
        while k < bs.len()
            invariant
                self.inv(),
                self.fuel == old(self).fuel,
                arenas_grow(*old(self), *self),
                self.calls_left() < old(self).calls_left(),
                k <= bs@.len(),
            decreases bs@.len() - k,
        {
            let (f, t, e) = bs[k];
            k += 1;
            let mut m: usize = 0;
            while m < cs.len()
                invariant
                    self.inv(),
                    self.fuel == old(self).fuel,
                    arenas_grow(*old(self), *self),
                    self.calls_left() < old(self).calls_left(),
                    m <= cs@.len(),
                decreases cs@.len() - m,
            {
                let (g, u, q) = cs[m];
                m += 1;
                let overlap = self.face_and(f, g)?;
                let overlap = self.face_and(face, overlap)?;
                let eqty = self.equiv_type(t, a)?;
                if !self.conv(t, u, None, overlap)? || !self.conv(e, q, Some(eqty), overlap)? {
                    return Ok(false);
                }
            }
        }
        Ok(true)
    }
}

} // verus!
