#![verifier::loop_isolation(false)]
//! Conservative free-variable support for skipping irrelevant substitutions.
use vstd::prelude::*;
use crate::eval::{arenas_grow, Engine, SubId, Val, ValId, internal};
use crate::face::Dim;
use crate::Result;

verus! {

/// The term and dimension variables (by level) that a value may mention.
#[derive(Clone, Debug)]
pub struct Support {
    pub terms: Vec<u32>,
    pub dims: Vec<u32>,
}

/// Whether `x` occurs in `v`.
pub fn has_var(v: &Vec<u32>, x: u32) -> (r: bool)
    ensures
        r == v@.contains(x),
{
    let mut k: usize = 0;
    while k < v.len()
        invariant
            k <= v@.len(),
            forall|j: int| 0 <= j < k ==> v@[j] != x,
        decreases v@.len() - k,
    {
        if v[k] == x {
            return true;
        }
        k += 1;
    }
    false
}

/// Adds `x` to the set `v`.
pub fn add_var(v: &mut Vec<u32>, x: u32)
    ensures
        forall|y: u32| #[trigger] final(v)@.contains(y) <==> (old(v)@.contains(y) || y == x),
{
    if !has_var(v, x) {
        v.push(x);
        proof {
            assert forall|y: u32| v@.contains(y) <==> (old(v)@.contains(y) || y == x) by {
                if v@.contains(y) {
                    let k = choose|k: int| 0 <= k < v@.len() && v@[k] == y;
                    if k < old(v)@.len() {
                        assert(old(v)@[k] == y);
                    }
                }
                if old(v)@.contains(y) {
                    let k = choose|k: int| 0 <= k < old(v)@.len() && old(v)@[k] == y;
                    assert(v@[k] == y);
                }
                if y == x {
                    assert(v@[v@.len() - 1] == x);
                }
            }
        }
    }
}

/// Adds every element of `from` to the set `into`.
pub fn add_all(into: &mut Vec<u32>, from: &Vec<u32>)
    ensures
        forall|y: u32| #[trigger] final(into)@.contains(y) <==> (old(into)@.contains(y) || from@.contains(y)),
{
    let mut k: usize = 0;
    while k < from.len()
        invariant
            k <= from@.len(),
            forall|y: u32|
                into@.contains(y) <==> (old(into)@.contains(y) || from@.take(k as int).contains(y)),
        decreases from@.len() - k,
    {
        proof {
            assert forall|y: u32| from@.take(k + 1).contains(y) <==> (from@.take(k as int).contains(y) || y == from@[k as int]) by {
                if from@.take(k + 1).contains(y) {
                    let j = choose|j: int| 0 <= j < k + 1 && #[trigger] from@.take(k + 1)[j] == y;
                    if j < k {
                        assert(from@.take(k as int)[j] == y);
                    }
                }
                if from@.take(k as int).contains(y) {
                    let j = choose|j: int| 0 <= j < k && #[trigger] from@.take(k as int)[j] == y;
                    assert(from@.take(k + 1)[j] == y);
                }
                if y == from@[k as int] {
                    assert(from@.take(k + 1)[k as int] == y);
                }
            }
        }
        add_var(into, from[k]);
        k += 1;
    }
    assert(from@.take(from@.len() as int) =~= from@);
}

/// Removes `x` from the set `v`.
pub fn remove_var(v: &mut Vec<u32>, x: u32)
    ensures
        forall|y: u32| #[trigger] final(v)@.contains(y) <==> (old(v)@.contains(y) && y != x),
{
    let mut out: Vec<u32> = Vec::new();
    let mut k: usize = 0;
    while k < v.len()
        invariant
            k <= v@.len(),
            v@ == old(v)@,
            forall|y: u32| out@.contains(y) <==> (v@.take(k as int).contains(y) && y != x),
        decreases v@.len() - k,
    {
        proof {
            assert forall|y: u32| v@.take(k + 1).contains(y) <==> (v@.take(k as int).contains(y) || y == v@[k as int]) by {
                if v@.take(k + 1).contains(y) {
                    let j = choose|j: int| 0 <= j < k + 1 && #[trigger] v@.take(k + 1)[j] == y;
                    if j < k {
                        assert(v@.take(k as int)[j] == y);
                    }
                }
                if v@.take(k as int).contains(y) {
                    let j = choose|j: int| 0 <= j < k && #[trigger] v@.take(k as int)[j] == y;
                    assert(v@.take(k + 1)[j] == y);
                }
                if y == v@[k as int] {
                    assert(v@.take(k + 1)[k as int] == y);
                }
            }
        }
        if v[k] != x {
            let ghost before = out@;
            out.push(v[k]);
            proof {
                assert forall|y: u32| out@.contains(y) <==> (v@.take(k + 1).contains(y) && y != x) by {
                    assert(v@.take(k + 1).contains(y) == (v@.take(k as int).contains(y) || y == v@[k as int]));
                    assert(before.contains(y) == (v@.take(k as int).contains(y) && y != x));
                    if out@.contains(y) {
                        let j = choose|j: int| 0 <= j < out@.len() && out@[j] == y;
                        if j < before.len() {
                            assert(before[j] == y);
                        }
                    }
                    if before.contains(y) {
                        let j = choose|j: int| 0 <= j < before.len() && before[j] == y;
                        assert(out@[j] == y);
                    }
                    if y == v@[k as int] {
                        assert(out@[out@.len() - 1] == y);
                    }
                }
            }
        } else {
            proof {
                assert forall|y: u32| out@.contains(y) <==> (v@.take(k + 1).contains(y) && y != x) by {
                    assert(v@.take(k + 1).contains(y) == (v@.take(k as int).contains(y) || y == v@[k as int]));
                    assert(out@.contains(y) == (v@.take(k as int).contains(y) && y != x));
                }
            }
        }
        k += 1;
    }
    assert(v@.take(v@.len() as int) =~= v@);
    *v = out;
}

impl Support {
    pub fn empty() -> (r: Support)
        ensures
            r.terms@.len() == 0,
            r.dims@.len() == 0,
    {
        Support { terms: Vec::new(), dims: Vec::new() }
    }

    /// Adds every variable of `other`.
    pub fn union(&mut self, other: &Support)
        ensures
            forall|y: u32| #[trigger] final(self).terms@.contains(y) <==> (old(self).terms@.contains(y) || other.terms@.contains(y)),
            forall|y: u32| #[trigger] final(self).dims@.contains(y) <==> (old(self).dims@.contains(y) || other.dims@.contains(y)),
    {
        add_all(&mut self.terms, &other.terms);
        add_all(&mut self.dims, &other.dims);
    }

    /// Adds the variable of dimension `d`, if it is one.
    pub fn dim(&mut self, d: Dim)
        ensures
            final(self).terms@ == old(self).terms@,
            forall|y: u32| #[trigger] final(self).dims@.contains(y) <==> (old(self).dims@.contains(y) || d == Dim::Var(y)),
    {
        if let Dim::Var(x) = d {
            add_var(&mut self.dims, x);
        }
    }
}

/// Whether substitution `s` gives term variable `x` an image (a composition
/// asks its first substitution, then its second); `None` when `s`, or one that
/// it needs to consult, is not stored before it.
pub open spec fn maps_term_of(subs: Seq<crate::eval::Sub>, s: SubId, x: u32) -> Option<bool>
    decreases s.0,
{
    if s.0 >= subs.len() {
        None
    } else {
        match subs[s.0 as int].compose {
            Some((a, b)) => if a.0 >= s.0 || b.0 >= s.0 {
                None
            } else {
                match maps_term_of(subs, a, x) {
                    Some(true) => Some(true),
                    Some(false) => maps_term_of(subs, b, x),
                    None => None,
                }
            },
            None => Some(crate::eval::first_term_image(subs[s.0 as int].terms@, x) is Some),
        }
    }
}

impl<'a> Engine<'a> {
    /// Whether substitution `s` leaves every variable that `v` may mention unchanged.
    /// A value whose support is not computed within the budget is never irrelevant.
    pub fn irrelevant(&mut self, v: ValId, s: SubId) -> (r: Result<bool>)
        requires
            old(self).inv(),
        ensures
            final(self).inv(),
            final(self).fuel == old(self).fuel,
            arenas_grow(*old(self), *final(self)),
            final(self).calls_left() <= old(self).calls_left(),
        decreases old(self).calls_left(),
    {
        self.spend()?;
        self.computing_support = true;
        let mut budget: usize = 4096;
        let support = self.value_support(v, &mut budget, 0);
        self.computing_support = false;
        let free = match support? {
            Some(free) => free,
            None => {
                return Ok(false);
            },
        };
        let mut k: usize = 0;
        while k < free.terms.len()
            invariant
                k <= free.terms@.len(),
            decreases free.terms@.len() - k,
        {
            if self.maps_term(s, free.terms[k])? {
                return Ok(false);
            }
            k += 1;
        }
        let mut k: usize = 0;
        while k < free.dims.len()
            invariant
                k <= free.dims@.len(),
            decreases free.dims@.len() - k,
        {
            let x = free.dims[k];
            if self.sub_dim(s, Dim::Var(x))? != Dim::Var(x) {
                return Ok(false);
            }
            k += 1;
        }
        Ok(true)
    }

    /// Whether substitution `s` (or a substitution it composes) maps term variable `x`.
    pub fn maps_term(&self, s: SubId, x: u32) -> (r: Result<bool>)
        ensures
            match maps_term_of(self.subs@, s, x) {
                Some(b) => r == Ok::<bool, crate::Error>(b),
                None => r is Err,
            },
        decreases s.0,
    {
        if s.0 >= self.subs.len() {
            return Err(internal("internal error: unknown substitution"));
        }
        let sub = self.subs.get(s.0);
        if let Some((a, b)) = sub.compose {
            if a.0 >= s.0 || b.0 >= s.0 {
                return Err(internal("internal error: substitution refers to a later one"));
            }
            return Ok(self.maps_term(a, x)? || self.maps_term(b, x)?);
        }
        let mut k: usize = 0;
        assert(sub.terms@.subrange(0, sub.terms@.len() as int) =~= sub.terms@);
        while k < sub.terms.len()
            invariant
                k <= sub.terms@.len(),
                crate::eval::first_term_image(sub.terms@, x) == crate::eval::first_term_image(
                    sub.terms@.subrange(k as int, sub.terms@.len() as int),
                    x,
                ),
            decreases sub.terms@.len() - k,
        {
            assert(sub.terms@.subrange(k as int, sub.terms@.len() as int).drop_first() =~= sub.terms@.subrange(
                k + 1,
                sub.terms@.len() as int,
            ));
            if sub.terms[k].0 == x {
                return Ok(true);
            }
            k += 1;
        }
        assert(sub.terms@.subrange(k as int, sub.terms@.len() as int).len() == 0);
        Ok(false)
    }

    /// The support of `v`, or `None` when the budget or the depth bound runs out.
    pub fn value_support(&mut self, v: ValId, budget: &mut usize, depth: usize) -> (r: Result<Option<Support>>)
        requires
            old(self).inv(),
        ensures
            final(self).inv(),
            final(self).fuel == old(self).fuel,
            arenas_grow(*old(self), *final(self)),
            final(self).calls_left() <= old(self).calls_left(),
        decreases old(self).calls_left(),
    {
        self.spend()?;
        if let Some(s) = self.support_cache.get(&v) {
            return Ok(s.clone());
        }
        if *budget == 0 || depth > 128 {
            return Ok(None);
        }
        *budget = *budget - 1;
        let result = self.support_inner(v, budget, depth + 1)?;
        if let Some(found) = &result {
            self.support_cache.insert(v, Some(found.clone()));
        }
        Ok(result)
    }

    fn support_inner(&mut self, v: ValId, budget: &mut usize, depth: usize) -> (r: Result<Option<Support>>)
        requires
            old(self).inv(),
        ensures
            final(self).inv(),
            final(self).fuel == old(self).fuel,
            arenas_grow(*old(self), *final(self)),
            final(self).calls_left() <= old(self).calls_left(),
        decreases old(self).calls_left(),
    {
        self.spend()?;
        let mut result = Support::empty();
        let mut children: Vec<ValId> = Vec::new();
        match self.get(v)? {
            Val::Var(x, ty) => {
                add_var(&mut result.terms, x);
                if let Some(t) = ty {
                    children.push(t);
                }
            },
            Val::Susp(_, e) => {
                let env = self.environment(e)?;
                children = env.terms;
                let mut k: usize = 0;
                while k < env.dims.len()
                    invariant
                        k <= env.dims@.len(),
                    decreases env.dims@.len() - k,
                {
                    result.dim(env.dims[k]);
                    k += 1;
                }
            },
            Val::Sub(w, s) => {
                let source = match self.value_support(w, budget, depth)? {
                    Some(x) => x,
                    None => {
                        return Ok(None);
                    },
                };
                let mut k: usize = 0;
                while k < source.terms.len()
                    invariant
                        self.inv(),
                        self.fuel == old(self).fuel,
                        arenas_grow(*old(self), *self),
                        self.calls_left() < old(self).calls_left(),
                        k <= source.terms@.len(),
                    decreases source.terms@.len() - k,
                {
                    let x = source.terms[k];
                    match self.sub_term(s, x)? {
                        Some(image) => {
                            match self.value_support(image, budget, depth)? {
                                Some(found) => result.union(&found),
                                None => {
                                    return Ok(None);
                                },
                            }
                        },
                        None => add_var(&mut result.terms, x),
                    }
                    k += 1;
                }
                let mut k: usize = 0;
                while k < source.dims.len()
                    invariant
                        k <= source.dims@.len(),
                    decreases source.dims@.len() - k,
                {
                    let d = self.sub_dim(s, Dim::Var(source.dims[k]))?;
                    result.dim(d);
                    k += 1;
                }
            },
            Val::Pi(a, b) | Val::Sigma(a, b) => {
                let mut body = match self.value_support(b.body, budget, depth)? {
                    Some(x) => x,
                    None => {
                        return Ok(None);
                    },
                };
                remove_var(&mut body.terms, b.var);
                result.union(&body);
                children.push(a);
            },
            Val::Lam(b) => {
                result = match self.value_support(b.body, budget, depth)? {
                    Some(x) => x,
                    None => {
                        return Ok(None);
                    },
                };
                remove_var(&mut result.terms, b.var);
            },
            Val::PLam(b) => {
                result = match self.value_support(b.body, budget, depth)? {
                    Some(x) => x,
                    None => {
                        return Ok(None);
                    },
                };
                remove_var(&mut result.dims, b.var);
            },
            Val::Path(b, l, r) => {
                result = match self.value_support(b.body, budget, depth)? {
                    Some(x) => x,
                    None => {
                        return Ok(None);
                    },
                };
                remove_var(&mut result.dims, b.var);
                children.push(l);
                children.push(r);
            },
            Val::App(a, b) | Val::Pair(a, b) | Val::Unglue(a, b) => {
                children.push(a);
                children.push(b);
            },
            Val::Fst(a) | Val::Snd(a) | Val::Suc(a) => children.push(a),
            Val::PApp(a, d) => {
                children.push(a);
                result.dim(d);
            },
            Val::If(p, a, b, c) | Val::NatElim(p, a, b, c) => {
                children.push(p);
                children.push(a);
                children.push(b);
                children.push(c);
            },
            Val::Com(c) => {
                let mut bound = match self.value_support(c.family, budget, depth)? {
                    Some(x) => x,
                    None => {
                        return Ok(None);
                    },
                };
                let mut k: usize = 0;
                while k < c.tubes.len()
                    invariant
                        self.inv(),
                        self.fuel == old(self).fuel,
                        arenas_grow(*old(self), *self),
                        self.calls_left() < old(self).calls_left(),
                        k <= c.tubes@.len(),
                    decreases c.tubes@.len() - k,
                {
                    match self.value_support(c.tubes[k].1, budget, depth)? {
                        Some(found) => bound.union(&found),
                        None => {
                            return Ok(None);
                        },
                    }
                    self.face_dims_into(c.tubes[k].0, &mut result)?;
                    k += 1;
                }
                remove_var(&mut bound.dims, c.dim);
                result.union(&bound);
                result.dim(c.from);
                result.dim(c.to);
                children.push(c.cap);
            },
            Val::Glue(a, bs) => {
                children.push(a);
                let mut k: usize = 0;
                while k < bs.len()
                    invariant
                        self.inv(),
                        self.fuel == old(self).fuel,
                        arenas_grow(*old(self), *self),
                        k <= bs@.len(),
                    decreases bs@.len() - k,
                {
                    children.push(bs[k].1);
                    children.push(bs[k].2);
                    self.face_dims_into(bs[k].0, &mut result)?;
                    k += 1;
                }
            },
            Val::System(a, bs) | Val::GlueIntro(a, bs) => {
                children.push(a);
                let mut k: usize = 0;
                while k < bs.len()
                    invariant
                        self.inv(),
                        self.fuel == old(self).fuel,
                        arenas_grow(*old(self), *self),
                        k <= bs@.len(),
                    decreases bs@.len() - k,
                {
                    children.push(bs[k].1);
                    self.face_dims_into(bs[k].0, &mut result)?;
                    k += 1;
                }
            },
            _ => {},
        }
        let mut k: usize = 0;
        while k < children.len()
            invariant
                self.inv(),
                self.fuel == old(self).fuel,
                arenas_grow(*old(self), *self),
                self.calls_left() < old(self).calls_left(),
                k <= children@.len(),
            decreases children@.len() - k,
        {
            match self.value_support(children[k], budget, depth)? {
                Some(found) => result.union(&found),
                None => {
                    return Ok(None);
                },
            }
            k += 1;
        }
        Ok(Some(result))
    }

    /// Adds the dimensions that face `f` mentions to `into`.
    fn face_dims_into(&self, f: crate::face::FaceId, into: &mut Support) -> (r: Result<()>)
        requires
            self.inv(),
        ensures
            r is Ok <==> self.faces.valid(f),
            final(into).terms@ == old(into).terms@,
            r is Err ==> final(into).dims@ == old(into).dims@,
            r is Ok ==> forall|y: u32| #[trigger] final(into).dims@.contains(y) <==> (old(into).dims@.contains(y)
                || crate::face::mentions(self.faces@, f.0 as int, Dim::Var(y))),
    {
        self.valid_face(f)?;
        let ds = self.faces.dimensions(f);
        let mut k: usize = 0;
        while k < ds.len()
            invariant
                k <= ds@.len(),
                into.terms@ == old(into).terms@,
                forall|y: u32| #[trigger] into.dims@.contains(y) <==> (old(into).dims@.contains(y)
                    || ds@.take(k as int).contains(Dim::Var(y))),
            decreases ds@.len() - k,
        {
            proof {
                assert forall|d: Dim| ds@.take(k + 1).contains(d) <==> (ds@.take(k as int).contains(d) || d == ds@[k as int]) by {
                    if ds@.take(k + 1).contains(d) {
                        let j = choose|j: int| 0 <= j < k + 1 && #[trigger] ds@.take(k + 1)[j] == d;
                        if j < k {
                            assert(ds@.take(k as int)[j] == d);
                        }
                    }
                    if ds@.take(k as int).contains(d) {
                        let j = choose|j: int| 0 <= j < k && #[trigger] ds@.take(k as int)[j] == d;
                        assert(ds@.take(k + 1)[j] == d);
                    }
                    if d == ds@[k as int] {
                        assert(ds@.take(k + 1)[k as int] == d);
                    }
                }
            }
            into.dim(ds[k]);
            k += 1;
        }
        assert(ds@.take(ds@.len() as int) =~= ds@);
        Ok(())
    }
}

} // verus!
