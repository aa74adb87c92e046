//! Positive Cartesian face logic. A dimension is not a Boolean: a variable may
//! take any value of the interval, not only an endpoint.
use vstd::prelude::*;
use crate::hash::IdMap;
use crate::arena::Arena;
use crate::{Error, Result};
use std::collections::BTreeSet;

verus! {

/// An interval term: an endpoint or a dimension variable (by level).
#[derive(Clone, Copy, Debug, PartialEq, Eq, Hash, Structural)]
pub enum Dim {
    Zero,
    One,
    Var(u32),
}

/// The ordering key of a dimension: endpoints first, then variables by level.
pub open spec fn dim_key(d: Dim) -> u64 {
    match d {
        Dim::Zero => 0,
        Dim::One => 1,
        Dim::Var(x) => (x as u64 + 2) as u64,
    }
}

pub open spec fn key_ok(k: u64) -> bool {
    k <= u32::MAX as u64 + 2
}

pub open spec fn key_dim(k: u64) -> Dim {
    if k == 0 {
        Dim::Zero
    } else if k == 1 {
        Dim::One
    } else {
        Dim::Var((k - 2) as u32)
    }
}

pub fn dim_key_of(d: Dim) -> (k: u64)
    ensures
        k == dim_key(d),
        key_ok(k),
        key_dim(k) == d,
{
    match d {
        Dim::Zero => 0,
        Dim::One => 1,
        Dim::Var(x) => x as u64 + 2,
    }
}

pub fn dim_of_key(k: u64) -> (d: Dim)
    requires
        key_ok(k),
    ensures
        d == key_dim(k),
        dim_key(d) == k,
{
    if k == 0 {
        Dim::Zero
    } else if k == 1 {
        Dim::One
    } else {
        Dim::Var((k - 2) as u32)
    }
}

/// The value of a dimension under an assignment of interval values to variables.
/// The endpoints are the distinct values 0 and 1; a variable may take any value.
pub open spec fn dim_val(d: Dim, rho: spec_fn(u32) -> int) -> int {
    match d {
        Dim::Zero => 0,
        Dim::One => 1,
        Dim::Var(x) => rho(x),
    }
}

pub open spec fn key_val(k: u64, rho: spec_fn(u32) -> int) -> int {
    dim_val(key_dim(k), rho)
}

#[derive(Clone, Copy, Debug, PartialEq, Eq, Hash, Structural)]
pub struct FaceId(pub usize);

#[derive(Clone, Copy, Debug, PartialEq, Eq, Hash, Structural)]
pub enum Face {
    Top,
    Bot,
    Eq(Dim, Dim),
    And(FaceId, FaceId),
    Or(FaceId, FaceId),
}

pub type Clause = Vec<(Dim, Dim)>;

/// Every child of `f` is stored before index `n`.
pub open spec fn below(f: Face, n: int) -> bool {
    match f {
        Face::And(a, b) => a.0 < n && b.0 < n,
        Face::Or(a, b) => a.0 < n && b.0 < n,
        _ => true,
    }
}

pub open spec fn face_wf(nodes: Seq<Face>) -> bool {
    forall|i: int| 0 <= i < nodes.len() ==> below(#[trigger] nodes[i], i)
}

pub open spec fn extends<T>(a: Seq<T>, b: Seq<T>) -> bool {
    a.len() <= b.len() && forall|i: int| 0 <= i < a.len() ==> a[i] == b[i]
}

/// Whether face `i` holds under the assignment `rho`.
pub open spec fn face_holds(nodes: Seq<Face>, i: int, rho: spec_fn(u32) -> int) -> bool
    decreases i,
{
    if 0 <= i < nodes.len() {
        match nodes[i] {
            Face::Top => true,
            Face::Bot => false,
            Face::Eq(a, b) => dim_val(a, rho) == dim_val(b, rho),
            Face::And(a, b) => a.0 < i && b.0 < i && face_holds(nodes, a.0 as int, rho)
                && face_holds(nodes, b.0 as int, rho),
            Face::Or(a, b) => a.0 < i && b.0 < i && (face_holds(nodes, a.0 as int, rho)
                || face_holds(nodes, b.0 as int, rho)),
        }
    } else {
        false
    }
}

/// The image of a dimension under a finite substitution table (first entry wins).
pub open spec fn lookup_dim(t: Seq<(Dim, Dim)>, d: Dim) -> Dim
    decreases t.len(),
{
    if t.len() == 0 {
        d
    } else if t[0].0 == d {
        t[0].1
    } else {
        lookup_dim(t.drop_first(), d)
    }
}

/// Whether face `i`, with every dimension replaced by its image under `t`, holds.
pub open spec fn face_holds_sub(
    nodes: Seq<Face>,
    i: int,
    t: Seq<(Dim, Dim)>,
    rho: spec_fn(u32) -> int,
) -> bool
    decreases i,
{
    if 0 <= i < nodes.len() {
        match nodes[i] {
            Face::Top => true,
            Face::Bot => false,
            Face::Eq(a, b) => dim_val(lookup_dim(t, a), rho) == dim_val(lookup_dim(t, b), rho),
            Face::And(a, b) => a.0 < i && b.0 < i && face_holds_sub(nodes, a.0 as int, t, rho)
                && face_holds_sub(nodes, b.0 as int, t, rho),
            Face::Or(a, b) => a.0 < i && b.0 < i && (face_holds_sub(nodes, a.0 as int, t, rho)
                || face_holds_sub(nodes, b.0 as int, t, rho)),
        }
    } else {
        false
    }
}

/// Substituting dimensions in a face is evaluating it under the composed
/// assignment: if every dimension the face mentions has, under `t` and `rho`,
/// the value it has under `sigma`, the substituted face holds under `rho`
/// exactly when the face holds under `sigma`.
pub proof fn lemma_holds_sub(
    nodes: Seq<Face>,
    i: int,
    t: Seq<(Dim, Dim)>,
    rho: spec_fn(u32) -> int,
    sigma: spec_fn(u32) -> int,
)
    requires
        forall|d: Dim| #[trigger] mentions(nodes, i, d) ==> dim_val(lookup_dim(t, d), rho) == dim_val(d, sigma),
    ensures
        face_holds_sub(nodes, i, t, rho) == face_holds(nodes, i, sigma),
    decreases i,
{
    if 0 <= i < nodes.len() {
        match nodes[i] {
            Face::Eq(a, b) => {
                assert(mentions(nodes, i, a));
                assert(mentions(nodes, i, b));
            },
            Face::And(a, b) | Face::Or(a, b) => {
                if a.0 < i && b.0 < i {
                    assert forall|d: Dim| #[trigger] mentions(nodes, a.0 as int, d) implies dim_val(lookup_dim(t, d), rho)
                        == dim_val(d, sigma) by {
                        assert(mentions(nodes, i, d));
                    }
                    assert forall|d: Dim| #[trigger] mentions(nodes, b.0 as int, d) implies dim_val(lookup_dim(t, d), rho)
                        == dim_val(d, sigma) by {
                        assert(mentions(nodes, i, d));
                    }
                    lemma_holds_sub(nodes, a.0 as int, t, rho, sigma);
                    lemma_holds_sub(nodes, b.0 as int, t, rho, sigma);
                }
            },
            _ => {},
        }
    }
}

/// Whether the dimension `d` occurs in an equation reachable from face `i`.
pub open spec fn mentions(nodes: Seq<Face>, i: int, d: Dim) -> bool
    decreases i,
{
    if 0 <= i < nodes.len() {
        match nodes[i] {
            Face::Eq(a, b) => a == d || b == d,
            Face::And(a, b) => a.0 < i && b.0 < i && (mentions(nodes, a.0 as int, d) || mentions(
                nodes,
                b.0 as int,
                d,
            )),
            Face::Or(a, b) => a.0 < i && b.0 < i && (mentions(nodes, a.0 as int, d) || mentions(
                nodes,
                b.0 as int,
                d,
            )),
            _ => false,
        }
    } else {
        false
    }
}

pub open spec fn clause_holds(c: Seq<(Dim, Dim)>, rho: spec_fn(u32) -> int) -> bool {
    forall|k: int| 0 <= k < c.len() ==> dim_val(#[trigger] c[k].0, rho) == dim_val(c[k].1, rho)
}

pub open spec fn dnf_holds(cs: Seq<Clause>, rho: spec_fn(u32) -> int) -> bool {
    exists|k: int| 0 <= k < cs.len() && clause_holds(#[trigger] cs[k]@, rho)
}

/// The clause list `cs` is equivalent to face `i`.
pub open spec fn dnf_equiv(nodes: Seq<Face>, i: int, cs: Seq<Clause>) -> bool {
    forall|rho: spec_fn(u32) -> int|
        #![trigger face_holds(nodes, i, rho)]
        #![trigger dnf_holds(cs, rho)]
        dnf_holds(cs, rho) == face_holds(nodes, i, rho)
}

pub open spec fn cache_entry_ok(nodes: Seq<Face>, i: int, e: Option<Vec<Clause>>) -> bool {
    match e {
        Some(cs) => dnf_equiv(nodes, i, cs@),
        None => true,
    }
}

/// A face keeps its meaning as the store grows: faces are only ever appended.
pub proof fn lemma_holds_extend(a: Seq<Face>, b: Seq<Face>, i: int, rho: spec_fn(u32) -> int)
    requires
        extends(a, b),
        0 <= i < a.len(),
    ensures
        face_holds(a, i, rho) == face_holds(b, i, rho),
    decreases i,
{
    match a[i] {
        Face::And(x, y) => {
            if x.0 < i && y.0 < i {
                lemma_holds_extend(a, b, x.0 as int, rho);
                lemma_holds_extend(a, b, y.0 as int, rho);
            }
        },
        Face::Or(x, y) => {
            if x.0 < i && y.0 < i {
                lemma_holds_extend(a, b, x.0 as int, rho);
                lemma_holds_extend(a, b, y.0 as int, rho);
            }
        },
        _ => {},
    }
}

proof fn lemma_holds_sub_extend(
    a: Seq<Face>,
    b: Seq<Face>,
    i: int,
    t: Seq<(Dim, Dim)>,
    rho: spec_fn(u32) -> int,
)
    requires
        extends(a, b),
        0 <= i < a.len(),
    ensures
        face_holds_sub(a, i, t, rho) == face_holds_sub(b, i, t, rho),
    decreases i,
{
    match a[i] {
        Face::And(x, y) => {
            if x.0 < i && y.0 < i {
                lemma_holds_sub_extend(a, b, x.0 as int, t, rho);
                lemma_holds_sub_extend(a, b, y.0 as int, t, rho);
            }
        },
        Face::Or(x, y) => {
            if x.0 < i && y.0 < i {
                lemma_holds_sub_extend(a, b, x.0 as int, t, rho);
                lemma_holds_sub_extend(a, b, y.0 as int, t, rho);
            }
        },
        _ => {},
    }
}

proof fn lemma_mentions_extend(a: Seq<Face>, b: Seq<Face>, i: int, d: Dim)
    requires
        extends(a, b),
        0 <= i < a.len(),
    ensures
        mentions(a, i, d) == mentions(b, i, d),
    decreases i,
{
    match a[i] {
        Face::And(x, y) => {
            if x.0 < i && y.0 < i {
                lemma_mentions_extend(a, b, x.0 as int, d);
                lemma_mentions_extend(a, b, y.0 as int, d);
            }
        },
        Face::Or(x, y) => {
            if x.0 < i && y.0 < i {
                lemma_mentions_extend(a, b, x.0 as int, d);
                lemma_mentions_extend(a, b, y.0 as int, d);
            }
        },
        _ => {},
    }
}

/// Hash-consed face formulas with a cache of their disjunctive normal forms.
pub struct Faces {
    nodes: Arena<Face>,
    intern: IdMap<Face, FaceId>,
    dnf_cache: Vec<Option<Vec<Clause>>>,
    cached: usize,
}

impl View for Faces {
    type V = Seq<Face>;

    closed spec fn view(&self) -> Seq<Face> {
        self.nodes@
    }
}

/// `new` holds every face of `old` unchanged (faces are only ever appended).
pub open spec fn grows(old: Seq<Face>, new: Seq<Face>) -> bool {
    extends(old, new)
}

impl Faces {
    pub closed spec fn wf(&self) -> bool {
        &&& face_wf(self.nodes@)
        &&& self.dnf_cache@.len() <= self.nodes@.len()
        &&& forall|i: int|
            0 <= i < self.dnf_cache@.len() ==> cache_entry_ok(
                self.nodes@,
                i,
                #[trigger] self.dnf_cache@[i],
            )
    }

    #[verifier::inline]
    pub open spec fn valid(&self, f: FaceId) -> bool {
        f.0 < self@.len()
    }

    /// Whether face `f` holds under `rho`.
    #[verifier::inline]
    pub open spec fn holds(&self, f: FaceId, rho: spec_fn(u32) -> int) -> bool {
        face_holds(self@, f.0 as int, rho)
    }

    pub fn default() -> (r: Self)
        ensures
            r.wf(),
            r@.len() == 0,
    {
        Faces { nodes: Arena::new(), intern: IdMap::default(), dnf_cache: Vec::new(), cached: 0 }
    }

    proof fn lemma_push_wf(old: &Self, new: &Self)
        requires
            old.wf(),
            extends(old.nodes@, new.nodes@),
            face_wf(new.nodes@),
            new.dnf_cache@ == old.dnf_cache@,
        ensures
            new.wf(),
    {
        assert forall|i: int| 0 <= i < new.dnf_cache@.len() implies cache_entry_ok(
            new.nodes@,
            i,
            #[trigger] new.dnf_cache@[i],
        ) by {
            assert(cache_entry_ok(old.nodes@, i, old.dnf_cache@[i]));
            if let Some(cs) = new.dnf_cache@[i] {
                assert forall|rho: spec_fn(u32) -> int|
                    #![trigger face_holds(new.nodes@, i, rho)]
                    #![trigger dnf_holds(cs@, rho)]
                    dnf_holds(cs@, rho) == face_holds(new.nodes@, i, rho) by {
                    lemma_holds_extend(old.nodes@, new.nodes@, i, rho);
                }
            }
        }
    }

    fn node(&mut self, f: Face) -> (r: FaceId)
        requires
            old(self).wf(),
            below(f, old(self)@.len() as int),
        ensures
            final(self).wf(),
            grows(old(self)@, final(self)@),
            final(self).valid(r),
            final(self)@[r.0 as int] == f,
            final(self)@.len() <= old(self)@.len() + 1,
    {
        if let Some(id) = self.intern.get(&f) {
            let id = *id;
            if id.0 < self.nodes.len() && *self.nodes.get(id.0) == f {
                return id;
            }
        }
        let ghost old_self = *self;
        let id = FaceId(self.nodes.store(f));
        self.intern.insert(f, id);
        proof {
            assert forall|i: int| 0 <= i < self.nodes@.len() implies below(
                #[trigger] self.nodes@[i],
                i,
            ) by {
                if i < old_self.nodes@.len() {
                    assert(self.nodes@[i] == old_self.nodes@[i]);
                }
            }
            Self::lemma_push_wf(&old_self, self);
        }
        id
    }

    pub fn get(&self, f: FaceId) -> (r: Face)
        requires
            self.valid(f),
        ensures
            r == self@[f.0 as int],
    {
        *self.nodes.get(f.0)
    }

    pub fn top(&mut self) -> (r: FaceId)
        requires
            old(self).wf(),
        ensures
            final(self).wf(),
            grows(old(self)@, final(self)@),
            final(self).valid(r),
            forall|rho: spec_fn(u32) -> int| #[trigger] final(self).holds(r, rho),
            final(self)@.len() <= old(self)@.len() + 1,
    {
        self.node(Face::Top)
    }

    pub fn bot(&mut self) -> (r: FaceId)
        requires
            old(self).wf(),
        ensures
            final(self).wf(),
            grows(old(self)@, final(self)@),
            final(self).valid(r),
            forall|rho: spec_fn(u32) -> int| !#[trigger] final(self).holds(r, rho),
    {
        self.node(Face::Bot)
    }

    /// The equation `a = b`, simplified when it is trivially true or false.
    pub fn eq(&mut self, a: Dim, b: Dim) -> (r: FaceId)
        requires
            old(self).wf(),
        ensures
            final(self).wf(),
            grows(old(self)@, final(self)@),
            final(self).valid(r),
            forall|rho: spec_fn(u32) -> int|
                #[trigger] final(self).holds(r, rho) == (dim_val(a, rho) == dim_val(b, rho)),
    {
        if a == b {
            return self.top();
        }
        if (a == Dim::Zero && b == Dim::One) || (a == Dim::One && b == Dim::Zero) {
            return self.bot();
        }
        let ka = dim_key_of(a);
        let kb = dim_key_of(b);
        if ka <= kb {
            self.node(Face::Eq(a, b))
        } else {
            self.node(Face::Eq(b, a))
        }
    }

    pub fn and(&mut self, a: FaceId, b: FaceId) -> (r: FaceId)
        requires
            old(self).wf(),
            old(self).valid(a),
            old(self).valid(b),
        ensures
            final(self).wf(),
            grows(old(self)@, final(self)@),
            final(self).valid(r),
            forall|rho: spec_fn(u32) -> int|
                #[trigger] final(self).holds(r, rho) == (old(self).holds(a, rho) && old(
                    self,
                ).holds(b, rho)),
    {
        let ghost old_nodes = self@;
        if a == b {
            return a;
        }
        let fa = self.get(a);
        let fb = self.get(b);
        let r = match (fa, fb) {
            (Face::Bot, _) => self.bot(),
            (_, Face::Bot) => self.bot(),
            (Face::Top, _) => b,
            (_, Face::Top) => a,
            _ => self.node(Face::And(a, b)),
        };
        proof {
            assert forall|rho: spec_fn(u32) -> int|
                #[trigger] self.holds(r, rho) == (face_holds(old_nodes, a.0 as int, rho)
                    && face_holds(old_nodes, b.0 as int, rho)) by {
                lemma_holds_extend(old_nodes, self@, a.0 as int, rho);
                lemma_holds_extend(old_nodes, self@, b.0 as int, rho);
            }
        }
        r
    }

    pub fn or(&mut self, a: FaceId, b: FaceId) -> (r: FaceId)
        requires
            old(self).wf(),
            old(self).valid(a),
            old(self).valid(b),
        ensures
            final(self).wf(),
            grows(old(self)@, final(self)@),
            final(self).valid(r),
            forall|rho: spec_fn(u32) -> int|
                #[trigger] final(self).holds(r, rho) == (old(self).holds(a, rho) || old(
                    self,
                ).holds(b, rho)),
    {
        let ghost old_nodes = self@;
        if a == b {
            return a;
        }
        let fa = self.get(a);
        let fb = self.get(b);
        let r = match (fa, fb) {
            (Face::Top, _) => self.top(),
            (_, Face::Top) => self.top(),
            (Face::Bot, _) => b,
            (_, Face::Bot) => a,
            _ => self.node(Face::Or(a, b)),
        };
        proof {
            assert forall|rho: spec_fn(u32) -> int|
                #[trigger] self.holds(r, rho) == (face_holds(old_nodes, a.0 as int, rho)
                    || face_holds(old_nodes, b.0 as int, rho)) by {
                lemma_holds_extend(old_nodes, self@, a.0 as int, rho);
                lemma_holds_extend(old_nodes, self@, b.0 as int, rho);
            }
        }
        r
    }

    pub fn len(&self) -> (r: usize)
        ensures
            r == self@.len(),
    {
        self.nodes.len()
    }

    /// Bytes reserved for face nodes.
    pub fn bytes(&self) -> (r: usize)
        ensures
            r >= self@.len() * vstd::layout::size_of::<Face>(),
    {
        self.nodes.bytes()
    }
}

// ---------------------------------------------------------------------------
// Equality partitions: union-find over dimension keys.

/// The entry for `x` in a link list (the last one wins).
pub open spec fn plookup(e: Seq<(u64, u64)>, x: u64) -> Option<u64>
    decreases e.len(),
{
    if e.len() == 0 {
        None
    } else if e.last().0 == x {
        Some(e.last().1)
    } else {
        plookup(e.drop_last(), x)
    }
}

/// The representative of `x`, following links downward.
pub open spec fn proot(e: Seq<(u64, u64)>, x: u64) -> u64
    decreases x,
{
    match plookup(e, x) {
        Some(y) => if y < x {
            proot(e, y)
        } else {
            x
        },
        None => x,
    }
}

pub open spec fn links_down(e: Seq<(u64, u64)>) -> bool {
    forall|k: int| #![trigger e[k]] 0 <= k < e.len() ==> e[k].1 < e[k].0 && key_ok(e[k].0)
}

pub open spec fn links_sound(e: Seq<(u64, u64)>, rho: spec_fn(u32) -> int) -> bool {
    forall|k: int| 0 <= k < e.len() ==> key_val(#[trigger] e[k].0, rho) == key_val(e[k].1, rho)
}

/// `e` is the partition generated by the equations of clause `c`.
pub open spec fn part_ok(e: Seq<(u64, u64)>, c: Seq<(Dim, Dim)>) -> bool {
    &&& links_down(e)
    &&& forall|rho: spec_fn(u32) -> int| #[trigger] clause_holds(c, rho) ==> links_sound(e, rho)
    &&& forall|j: int|
        0 <= j < c.len() ==> proot(e, dim_key(#[trigger] c[j].0)) == proot(e, dim_key(c[j].1))
}

pub open spec fn pequal(e: Seq<(u64, u64)>, a: Dim, b: Dim) -> bool {
    proot(e, dim_key(a)) == proot(e, dim_key(b))
}

/// Every equation of `w` is identified by the partition `e`.
pub open spec fn all_pequal(e: Seq<(u64, u64)>, w: Seq<(Dim, Dim)>) -> bool {
    forall|k: int| 0 <= k < w.len() ==> pequal(e, #[trigger] w[k].0, w[k].1)
}

/// The generic assignment of a partition: each variable takes its representative.
pub open spec fn canon(e: Seq<(u64, u64)>) -> spec_fn(u32) -> int {
    |x: u32| proot(e, (x as u64 + 2) as u64) as int
}

proof fn lemma_key_roundtrip(d: Dim)
    ensures
        key_dim(dim_key(d)) == d,
        key_ok(dim_key(d)),
{
}

proof fn lemma_plookup(e: Seq<(u64, u64)>, x: u64)
    ensures
        plookup(e, x) is Some <==> exists|k: int| 0 <= k < e.len() && e[k].0 == x,
        plookup(e, x) matches Some(y) ==> exists|k: int|
            0 <= k < e.len() && e[k].0 == x && e[k].1 == y,
    decreases e.len(),
{
    if e.len() > 0 {
        let d = e.drop_last();
        lemma_plookup(d, x);
        if e.last().0 == x {
            assert(e[e.len() - 1].0 == x);
        } else {
            if exists|k: int| 0 <= k < e.len() && e[k].0 == x {
                let k = choose|k: int| 0 <= k < e.len() && e[k].0 == x;
                assert(k < e.len() - 1);
                assert(d[k].0 == x);
            }
            if let Some(y) = plookup(d, x) {
                let k = choose|k: int| 0 <= k < d.len() && d[k].0 == x && d[k].1 == y;
                assert(e[k] == d[k]);
            }
            if exists|k: int| 0 <= k < d.len() && d[k].0 == x {
                let k = choose|k: int| 0 <= k < d.len() && d[k].0 == x;
                assert(e[k] == d[k]);
            }
        }
    }
}

proof fn lemma_plookup_push(e: Seq<(u64, u64)>, a: u64, b: u64, x: u64)
    ensures
        plookup(e.push((a, b)), x) == if x == a {
            Some(b)
        } else {
            plookup(e, x)
        },
{
    assert(e.push((a, b)).drop_last() =~= e);
}

proof fn lemma_root_props(e: Seq<(u64, u64)>, x: u64)
    requires
        links_down(e),
    ensures
        proot(e, x) <= x,
        plookup(e, proot(e, x)) is None,
        key_ok(x) ==> key_ok(proot(e, x)),
    decreases x,
{
    lemma_plookup(e, x);
    match plookup(e, x) {
        Some(y) => {
            let k = choose|k: int| 0 <= k < e.len() && e[k].0 == x && e[k].1 == y;
            assert(e[k].1 < e[k].0);
            lemma_root_props(e, y);
        },
        None => {},
    }
}

proof fn lemma_root_sound(e: Seq<(u64, u64)>, x: u64, rho: spec_fn(u32) -> int)
    requires
        links_down(e),
        links_sound(e, rho),
    ensures
        key_val(x, rho) == key_val(proot(e, x), rho),
    decreases x,
{
    lemma_plookup(e, x);
    match plookup(e, x) {
        Some(y) => {
            let k = choose|k: int| 0 <= k < e.len() && e[k].0 == x && e[k].1 == y;
            assert(e[k].1 < e[k].0);
            assert(key_val(e[k].0, rho) == key_val(e[k].1, rho));
            lemma_root_sound(e, y, rho);
        },
        None => {},
    }
}

proof fn lemma_root_push(e: Seq<(u64, u64)>, ra: u64, rb: u64, z: u64)
    requires
        links_down(e),
        plookup(e, ra) is None,
        plookup(e, rb) is None,
        rb < ra,
    ensures
        proot(e.push((ra, rb)), z) == if proot(e, z) == ra {
            rb
        } else {
            proot(e, z)
        },
    decreases z,
{
    let e2 = e.push((ra, rb));
    lemma_plookup_push(e, ra, rb, z);
    lemma_plookup_push(e, ra, rb, rb);
    lemma_plookup(e, z);
    if z == ra {
        assert(proot(e2, rb) == rb);
    } else {
        match plookup(e, z) {
            Some(y) => {
                let k = choose|k: int| 0 <= k < e.len() && e[k].0 == z && e[k].1 == y;
                assert(e[k].1 < e[k].0);
                lemma_root_push(e, ra, rb, y);
            },
            None => {},
        }
    }
}

proof fn lemma_canon(e: Seq<(u64, u64)>, d: Dim)
    requires
        links_down(e),
        proot(e, 1) != proot(e, 0),
    ensures
        dim_val(d, canon(e)) == proot(e, dim_key(d)) as int,
{
    lemma_plookup(e, 0);
    if let Some(y) = plookup(e, 0) {
        let k = choose|k: int| 0 <= k < e.len() && e[k].0 == 0 && e[k].1 == y;
        assert(e[k].1 < e[k].0);
    }
    assert(proot(e, 0) == 0);
    lemma_plookup(e, 1);
    if let Some(y) = plookup(e, 1) {
        let k = choose|k: int| 0 <= k < e.len() && e[k].0 == 1 && e[k].1 == y;
        assert(e[k].1 < e[k].0);
    }
    assert(proot(e, 1) == 1);
}

/// If `e` comes from clause `c` and identifies every equation of `w`,
/// then `c` implies `w`.
proof fn lemma_implied(
    e: Seq<(u64, u64)>,
    c: Seq<(Dim, Dim)>,
    w: Seq<(Dim, Dim)>,
    rho: spec_fn(u32) -> int,
)
    requires
        part_ok(e, c),
        all_pequal(e, w),
        clause_holds(c, rho),
    ensures
        clause_holds(w, rho),
{
    assert(links_sound(e, rho));
    assert forall|k: int| 0 <= k < w.len() implies dim_val(#[trigger] w[k].0, rho) == dim_val(
        w[k].1,
        rho,
    ) by {
        assert(pequal(e, w[k].0, w[k].1));
        lemma_root_sound(e, dim_key(w[k].0), rho);
        lemma_root_sound(e, dim_key(w[k].1), rho);
        lemma_key_roundtrip(w[k].0);
        lemma_key_roundtrip(w[k].1);
    }
}

/// The clause that generated a partition never holds when it identifies 0 and 1.
proof fn lemma_inconsistent(e: Seq<(u64, u64)>, c: Seq<(Dim, Dim)>, rho: spec_fn(u32) -> int)
    requires
        part_ok(e, c),
        pequal(e, Dim::Zero, Dim::One),
    ensures
        !clause_holds(c, rho),
{
    if clause_holds(c, rho) {
        lemma_root_sound(e, 0, rho);
        lemma_root_sound(e, 1, rho);
    }
}

/// Under the generic assignment of a consistent partition, the generating clause
/// holds and exactly the identified dimensions are equal.
proof fn lemma_canon_clause(e: Seq<(u64, u64)>, c: Seq<(Dim, Dim)>)
    requires
        part_ok(e, c),
        !pequal(e, Dim::Zero, Dim::One),
    ensures
        clause_holds(c, canon(e)),
        forall|a: Dim, b: Dim|
            #[trigger] pequal(e, a, b) == (dim_val(a, canon(e)) == dim_val(b, canon(e))),
{
    assert forall|k: int| 0 <= k < c.len() implies dim_val(#[trigger] c[k].0, canon(e))
        == dim_val(c[k].1, canon(e)) by {
        lemma_canon(e, c[k].0);
        lemma_canon(e, c[k].1);
    }
    assert forall|a: Dim, b: Dim|
        #[trigger] pequal(e, a, b) == (dim_val(a, canon(e)) == dim_val(b, canon(e))) by {
        lemma_canon(e, a);
        lemma_canon(e, b);
    }
}

struct Partition {
    links: Vec<(u64, u64)>,
}

impl Partition {
    fn lookup(&self, x: u64) -> (r: Option<u64>)
        ensures
            r == plookup(self.links@, x),
    {
        let mut i: usize = self.links.len();
        assert(self.links@.take(i as int) =~= self.links@);
        while i > 0
            invariant
                i <= self.links@.len(),
                plookup(self.links@, x) == plookup(self.links@.take(i as int), x),
            decreases i,
        {
            i -= 1;
            let (k, v) = self.links[i];
            assert(self.links@.take(i + 1).drop_last() =~= self.links@.take(i as int));
            if k == x {
                return Some(v);
            }
        }
        None
    }

    fn root(&self, a: u64) -> (r: u64)
        requires
            links_down(self.links@),
        ensures
            r == proot(self.links@, a),
    {
        let mut x: u64 = a;
        loop
            invariant
                links_down(self.links@),
                proot(self.links@, x) == proot(self.links@, a),
            decreases x,
        {
            match self.lookup(x) {
                Some(y) => {
                    proof {
                        lemma_plookup(self.links@, x);
                        let k = choose|k: int|
                            0 <= k < self.links@.len() && self.links@[k].0 == x
                                && self.links@[k].1 == y;
                        assert(self.links@[k].1 < self.links@[k].0);
                    }
                    x = y;
                },
                None => {
                    return x;
                },
            }
        }
    }

    fn equal(&self, a: Dim, b: Dim) -> (r: bool)
        requires
            links_down(self.links@),
        ensures
            r == pequal(self.links@, a, b),
    {
        self.root(dim_key_of(a)) == self.root(dim_key_of(b))
    }

    fn all_equal(&self, w: &Clause) -> (r: bool)
        requires
            links_down(self.links@),
        ensures
            r == all_pequal(self.links@, w@),
    {
        let mut k: usize = 0;
        while k < w.len()
            invariant
                links_down(self.links@),
                k <= w@.len(),
                forall|j: int| 0 <= j < k ==> pequal(self.links@, #[trigger] w@[j].0, w@[j].1),
            decreases w@.len() - k,
        {
            let (a, b) = w[k];
            if !self.equal(a, b) {
                return false;
            }
            k += 1;
        }
        true
    }

    fn new(c: &Clause) -> (p: Partition)
        ensures
            part_ok(p.links@, c@),
    {
        let mut links: Vec<(u64, u64)> = Vec::new();
        let mut i: usize = 0;
        while i < c.len()
            invariant
                i <= c@.len(),
                links_down(links@),
                forall|rho: spec_fn(u32) -> int|
                    #[trigger] clause_holds(c@.take(i as int), rho) ==> links_sound(links@, rho),
                forall|j: int|
                    0 <= j < i ==> proot(links@, dim_key(#[trigger] c@[j].0)) == proot(
                        links@,
                        dim_key(c@[j].1),
                    ),
            decreases c@.len() - i,
        {
            let (a, b) = c[i];
            let p = Partition { links };
            let ka = dim_key_of(a);
            let kb = dim_key_of(b);
            let ra = p.root(ka);
            let rb = p.root(kb);
            let Partition { links: old_links } = p;
            links = old_links;
            let ghost e = links@;
            proof {
                lemma_root_props(e, ka);
                lemma_root_props(e, kb);
            }
            if ra != rb {
                let (hi, lo) = if ra > rb {
                    (ra, rb)
                } else {
                    (rb, ra)
                };
                links.push((hi, lo));
                proof {
                    let e2 = links@;
                    assert(e2 == e.push((hi, lo)));
                    assert forall|k: int| 0 <= k < e2.len() implies #[trigger] e2[k].1 < e2[k].0
                        && key_ok(e2[k].0) by {
                        if k < e.len() {
                            assert(e2[k] == e[k]);
                        }
                    }
                    assert forall|rho: spec_fn(u32) -> int|
                        #[trigger] clause_holds(c@.take(i + 1), rho) implies links_sound(
                        e2,
                        rho,
                    ) by {
                        assert forall|k: int| 0 <= k < i implies dim_val(
                            #[trigger] c@.take(i as int)[k].0,
                            rho,
                        ) == dim_val(c@.take(i as int)[k].1, rho) by {
                            assert(c@.take(i as int)[k] == c@.take(i + 1)[k]);
                        }
                        assert(clause_holds(c@.take(i as int), rho));
                        assert(links_sound(e, rho));
                        assert(c@.take(i + 1)[i as int] == c@[i as int]);
                        lemma_root_sound(e, ka, rho);
                        lemma_root_sound(e, kb, rho);
                        lemma_key_roundtrip(a);
                        lemma_key_roundtrip(b);
                        assert forall|k: int| 0 <= k < e2.len() implies key_val(
                            #[trigger] e2[k].0,
                            rho,
                        ) == key_val(e2[k].1, rho) by {
                            if k < e.len() {
                                assert(e2[k] == e[k]);
                            }
                        }
                    }
                    assert forall|j: int| 0 <= j < i + 1 implies proot(
                        e2,
                        dim_key(#[trigger] c@[j].0),
                    ) == proot(e2, dim_key(c@[j].1)) by {
                        lemma_root_push(e, hi, lo, dim_key(c@[j].0));
                        lemma_root_push(e, hi, lo, dim_key(c@[j].1));
                    }
                }
            } else {
                proof {
                    assert forall|rho: spec_fn(u32) -> int|
                        #[trigger] clause_holds(c@.take(i + 1), rho) implies links_sound(
                        e,
                        rho,
                    ) by {
                        assert forall|k: int| 0 <= k < i implies dim_val(
                            #[trigger] c@.take(i as int)[k].0,
                            rho,
                        ) == dim_val(c@.take(i as int)[k].1, rho) by {
                            assert(c@.take(i as int)[k] == c@.take(i + 1)[k]);
                        }
                        assert(clause_holds(c@.take(i as int), rho));
                    }
                }
            }
            i += 1;
        }
        assert(c@.take(c@.len() as int) =~= c@);
        Partition { links }
    }
}

// ---------------------------------------------------------------------------
// Normal forms.

pub open spec fn strictly_sorted(v: Seq<u64>) -> bool {
    forall|i: int, j: int| 0 <= i < j < v.len() ==> v[i] < v[j]
}

/// Inserts `k` into a strictly increasing vector unless it is already there.
fn insert_sorted(v: &mut Vec<u64>, k: u64)
    requires
        strictly_sorted(old(v)@),
    ensures
        strictly_sorted(final(v)@),
        forall|z: u64| final(v)@.contains(z) <==> (old(v)@.contains(z) || z == k),
{
    let mut i: usize = 0;
    while i < v.len() && v[i] < k
        invariant
            i <= v@.len(),
            forall|j: int| 0 <= j < i ==> v@[j] < k,
        decreases v@.len() - i,
    {
        i += 1;
    }
    if i < v.len() && v[i] == k {
        return;
    }
    let ghost old_v = v@;
    v.insert(i, k);
    proof {
        old_v.insert_ensures(i as int, k);
        assert forall|z: u64| v@.contains(z) <==> (old_v.contains(z) || z == k) by {
            if v@.contains(z) {
                let j = choose|j: int| 0 <= j < v@.len() && v@[j] == z;
                if j < i {
                    assert(old_v[j] == z);
                } else if j > i {
                    assert(old_v[j - 1] == z);
                }
            }
            if old_v.contains(z) {
                let j = choose|j: int| 0 <= j < old_v.len() && old_v[j] == z;
                if j < i {
                    assert(v@[j] == z);
                } else {
                    assert(v@[j + 1] == z);
                }
            }
            if z == k {
                assert(v@[i as int] == k);
            }
        }
    }
}

fn copy_clause(c: &Clause) -> (r: Clause)
    ensures
        r@ == c@,
{
    let mut r: Clause = Vec::new();
    let mut i: usize = 0;
    while i < c.len()
        invariant
            i <= c@.len(),
            r@ == c@.take(i as int),
        decreases c@.len() - i,
    {
        r.push(c[i]);
        i += 1;
        assert(r@ =~= c@.take(i as int));
    }
    assert(c@.take(c@.len() as int) =~= c@);
    r
}

fn concat_clause(a: &Clause, b: &Clause) -> (r: Clause)
    ensures
        r@ == a@ + b@,
{
    let mut r = copy_clause(a);
    let mut i: usize = 0;
    while i < b.len()
        invariant
            i <= b@.len(),
            r@ == a@ + b@.take(i as int),
        decreases b@.len() - i,
    {
        r.push(b[i]);
        i += 1;
        assert(r@ =~= a@ + b@.take(i as int));
    }
    assert(b@.take(b@.len() as int) =~= b@);
    r
}

pub open spec fn same_clauses(a: Seq<Clause>, b: Seq<Clause>) -> bool {
    a.len() == b.len() && forall|i: int| 0 <= i < a.len() ==> (#[trigger] a[i])@ == b[i]@
}

fn copy_clauses(cs: &Vec<Clause>) -> (r: Vec<Clause>)
    ensures
        same_clauses(r@, cs@),
{
    let mut r: Vec<Clause> = Vec::new();
    let mut i: usize = 0;
    while i < cs.len()
        invariant
            i <= cs@.len(),
            r@.len() == i,
            forall|j: int| 0 <= j < i ==> (#[trigger] r@[j])@ == cs@[j]@,
        decreases cs@.len() - i,
    {
        r.push(copy_clause(&cs[i]));
        i += 1;
    }
    r
}

pub open spec fn dnf_prefix(cs: Seq<Clause>, n: int, rho: spec_fn(u32) -> int) -> bool {
    exists|k: int| 0 <= k < n && clause_holds(#[trigger] cs[k]@, rho)
}

proof fn lemma_dnf_prefix_step(cs: Seq<Clause>, n: int, rho: spec_fn(u32) -> int)
    requires
        0 <= n < cs.len(),
    ensures
        dnf_prefix(cs, n + 1, rho) == (dnf_prefix(cs, n, rho) || clause_holds(cs[n]@, rho)),
{
    if dnf_prefix(cs, n + 1, rho) {
        let k = choose|k: int| 0 <= k < n + 1 && clause_holds(#[trigger] cs[k]@, rho);
        if k < n {
            assert(dnf_prefix(cs, n, rho));
        }
    }
    if dnf_prefix(cs, n, rho) {
        let k = choose|k: int| 0 <= k < n && clause_holds(#[trigger] cs[k]@, rho);
        assert(0 <= k < n + 1 && clause_holds(cs[k]@, rho));
    }
}

proof fn lemma_dnf_push(cs: Seq<Clause>, c: Clause, rho: spec_fn(u32) -> int)
    ensures
        dnf_holds(cs.push(c), rho) == (dnf_holds(cs, rho) || clause_holds(c@, rho)),
{
    let d = cs.push(c);
    if dnf_holds(d, rho) {
        let k = choose|k: int| 0 <= k < d.len() && clause_holds(#[trigger] d[k]@, rho);
        if k < cs.len() {
            assert(d[k] == cs[k]);
        }
    }
    if dnf_holds(cs, rho) {
        let k = choose|k: int| 0 <= k < cs.len() && clause_holds(#[trigger] cs[k]@, rho);
        assert(d[k] == cs[k]);
    }
    if clause_holds(c@, rho) {
        assert(d[cs.len() as int] == c);
    }
}

proof fn lemma_dnf_same(a: Seq<Clause>, b: Seq<Clause>, rho: spec_fn(u32) -> int)
    requires
        same_clauses(a, b),
    ensures
        dnf_holds(a, rho) == dnf_holds(b, rho),
{
    if dnf_holds(a, rho) {
        let k = choose|k: int| 0 <= k < a.len() && clause_holds(#[trigger] a[k]@, rho);
        assert(clause_holds(b[k]@, rho));
    }
    if dnf_holds(b, rho) {
        let k = choose|k: int| 0 <= k < b.len() && clause_holds(#[trigger] b[k]@, rho);
        assert(clause_holds(a[k]@, rho));
    }
}

proof fn lemma_clause_concat(a: Seq<(Dim, Dim)>, b: Seq<(Dim, Dim)>, rho: spec_fn(u32) -> int)
    ensures
        clause_holds(a + b, rho) == (clause_holds(a, rho) && clause_holds(b, rho)),
{
    let c = a + b;
    if clause_holds(c, rho) {
        assert forall|k: int| 0 <= k < a.len() implies dim_val(#[trigger] a[k].0, rho) == dim_val(
            a[k].1,
            rho,
        ) by {
            assert(c[k] == a[k]);
        }
        assert forall|k: int| 0 <= k < b.len() implies dim_val(#[trigger] b[k].0, rho) == dim_val(
            b[k].1,
            rho,
        ) by {
            assert(c[a.len() + k] == b[k]);
        }
    }
    if clause_holds(a, rho) && clause_holds(b, rho) {
        assert forall|k: int| 0 <= k < c.len() implies dim_val(#[trigger] c[k].0, rho) == dim_val(
            c[k].1,
            rho,
        ) by {
            if k < a.len() {
                assert(c[k] == a[k]);
            } else {
                assert(c[k] == b[k - a.len()]);
            }
        }
    }
}

/// All clauses of `x` followed by all clauses of `y`.
fn disjunction(x: Vec<Clause>, y: &Vec<Clause>) -> (r: Vec<Clause>)
    ensures
        forall|rho: spec_fn(u32) -> int|
            #[trigger] dnf_holds(r@, rho) == (dnf_holds(x@, rho) || dnf_holds(y@, rho)),
{
    let mut r = x;
    let ghost x0 = r@;
    let mut j: usize = 0;
    while j < y.len()
        invariant
            j <= y@.len(),
            forall|rho: spec_fn(u32) -> int|
                #[trigger] dnf_holds(r@, rho) == (dnf_holds(x0, rho) || dnf_prefix(y@, j as int, rho)),
        decreases y@.len() - j,
    {
        let c = copy_clause(&y[j]);
        let ghost before = r@;
        r.push(c);
        proof {
            assert forall|rho: spec_fn(u32) -> int| #[trigger] dnf_holds(r@, rho) == (dnf_holds(
                x0,
                rho,
            ) || dnf_prefix(y@, j + 1, rho)) by {
                lemma_dnf_push(before, c, rho);
                lemma_dnf_prefix_step(y@, j as int, rho);
            }
        }
        j += 1;
    }
    proof {
        assert forall|rho: spec_fn(u32) -> int|
            #[trigger] dnf_holds(r@, rho) == (dnf_holds(x0, rho) || dnf_holds(y@, rho)) by {
            assert(dnf_prefix(y@, y@.len() as int, rho) == dnf_holds(y@, rho));
        }
    }
    r
}

/// Every clause of `x` conjoined with every clause of `y`.
fn product(x: &Vec<Clause>, y: &Vec<Clause>) -> (r: Vec<Clause>)
    ensures
        forall|rho: spec_fn(u32) -> int|
            #[trigger] dnf_holds(r@, rho) == (dnf_holds(x@, rho) && dnf_holds(y@, rho)),
{
    let mut r: Vec<Clause> = Vec::new();
    let mut i: usize = 0;
    while i < x.len()
        invariant
            i <= x@.len(),
            forall|rho: spec_fn(u32) -> int|
                #[trigger] dnf_holds(r@, rho) == (dnf_prefix(x@, i as int, rho) && dnf_holds(
                    y@,
                    rho,
                )),
        decreases x@.len() - i,
    {
        let mut j: usize = 0;
        while j < y.len()
            invariant
                i < x@.len(),
                j <= y@.len(),
                forall|rho: spec_fn(u32) -> int|
                    #[trigger] dnf_holds(r@, rho) == ((dnf_prefix(x@, i as int, rho) && dnf_holds(
                        y@,
                        rho,
                    )) || (clause_holds(x@[i as int]@, rho) && dnf_prefix(y@, j as int, rho))),
            decreases y@.len() - j,
        {
            let c = concat_clause(&x[i], &y[j]);
            let ghost before = r@;
            r.push(c);
            proof {
                assert forall|rho: spec_fn(u32) -> int| #[trigger] dnf_holds(r@, rho) == ((
                dnf_prefix(x@, i as int, rho) && dnf_holds(y@, rho)) || (clause_holds(
                    x@[i as int]@,
                    rho,
                ) && dnf_prefix(y@, j + 1, rho))) by {
                    lemma_dnf_push(before, c, rho);
                    lemma_dnf_prefix_step(y@, j as int, rho);
                    lemma_clause_concat(x@[i as int]@, y@[j as int]@, rho);
                }
            }
            j += 1;
        }
        proof {
            assert forall|rho: spec_fn(u32) -> int| #[trigger] dnf_holds(r@, rho) == (dnf_prefix(
                x@,
                i + 1,
                rho,
            ) && dnf_holds(y@, rho)) by {
                lemma_dnf_prefix_step(x@, i as int, rho);
                assert(dnf_prefix(y@, y@.len() as int, rho) == dnf_holds(y@, rho));
            }
        }
        i += 1;
    }
    proof {
        assert forall|rho: spec_fn(u32) -> int|
            #[trigger] dnf_holds(r@, rho) == (dnf_holds(x@, rho) && dnf_holds(y@, rho)) by {
            assert(dnf_prefix(x@, x@.len() as int, rho) == dnf_holds(x@, rho));
        }
    }
    r
}

/// `c2` lists, for every linked key of `e` (in the order of `keys`), the key
/// and its representative.
pub open spec fn normal_of(e: Seq<(u64, u64)>, keys: Seq<u64>, c2: Seq<(Dim, Dim)>) -> bool {
    &&& c2.len() == keys.len()
    &&& forall|k: int| 0 <= k < keys.len() ==> (#[trigger] plookup(e, keys[k])) is Some
    &&& forall|k: int|
        0 <= k < keys.len() ==> #[trigger] c2[k] == (key_dim(keys[k]), key_dim(proot(e, keys[k])))
    &&& forall|x: u64| #[trigger] plookup(e, x) is Some ==> keys.contains(x)
}

proof fn lemma_normal_equiv(
    e: Seq<(u64, u64)>,
    keys: Seq<u64>,
    c: Seq<(Dim, Dim)>,
    c2: Seq<(Dim, Dim)>,
    rho: spec_fn(u32) -> int,
)
    requires
        part_ok(e, c),
        normal_of(e, keys, c2),
    ensures
        clause_holds(c2, rho) == clause_holds(c, rho),
{
    if clause_holds(c, rho) {
        assert(links_sound(e, rho));
        assert forall|k: int| 0 <= k < c2.len() implies dim_val(#[trigger] c2[k].0, rho)
            == dim_val(c2[k].1, rho) by {
            lemma_root_sound(e, keys[k], rho);
        }
    }
    if clause_holds(c2, rho) {
        assert forall|j: int| 0 <= j < c.len() implies dim_val(#[trigger] c[j].0, rho) == dim_val(
            c[j].1,
            rho,
        ) by {
            let a = c[j].0;
            let b = c[j].1;
            lemma_key_roundtrip(a);
            lemma_key_roundtrip(b);
            assert(proot(e, dim_key(a)) == proot(e, dim_key(b)));
            lemma_to_root(e, keys, c2, dim_key(a), rho);
            lemma_to_root(e, keys, c2, dim_key(b), rho);
        }
    }
}

proof fn lemma_to_root(
    e: Seq<(u64, u64)>,
    keys: Seq<u64>,
    c2: Seq<(Dim, Dim)>,
    x: u64,
    rho: spec_fn(u32) -> int,
)
    requires
        links_down(e),
        normal_of(e, keys, c2),
        clause_holds(c2, rho),
    ensures
        key_val(x, rho) == key_val(proot(e, x), rho),
{
    if plookup(e, x) is Some {
        assert(keys.contains(x));
        let k = choose|k: int| 0 <= k < keys.len() && keys[k] == x;
        assert(c2[k] == (key_dim(keys[k]), key_dim(proot(e, keys[k]))));
        assert(dim_val(c2[k].0, rho) == dim_val(c2[k].1, rho));
    }
}

impl Partition {
    /// The clause `(x, representative of x)` for every linked `x`, by increasing `x`.
    fn normalized(&self) -> (res: (Clause, Ghost<Seq<u64>>))
        requires
            links_down(self.links@),
        ensures
            normal_of(self.links@, res.1@, res.0@),
    {
        let ghost e = self.links@;
        let mut keys: Vec<u64> = Vec::new();
        let mut i: usize = 0;
        while i < self.links.len()
            invariant
                e == self.links@,
                links_down(e),
                i <= e.len(),
                strictly_sorted(keys@),
                forall|z: u64|
                    keys@.contains(z) <==> exists|k: int| 0 <= k < i && #[trigger] e[k].0 == z,
            decreases e.len() - i,
        {
            let ghost old_keys = keys@;
            insert_sorted(&mut keys, self.links[i].0);
            proof {
                assert forall|z: u64|
                    keys@.contains(z) <==> exists|k: int| 0 <= k < i + 1 && #[trigger] e[k].0 == z by {
                    if old_keys.contains(z) {
                        let k = choose|k: int| 0 <= k < i && #[trigger] e[k].0 == z;
                        assert(0 <= k < i + 1 && e[k].0 == z);
                    }
                    if exists|k: int| 0 <= k < i + 1 && #[trigger] e[k].0 == z {
                        let k = choose|k: int| 0 <= k < i + 1 && #[trigger] e[k].0 == z;
                        if k < i {
                            assert(old_keys.contains(z));
                        }
                    }
                }
            }
            i += 1;
        }
        let mut c2: Clause = Vec::new();
        let mut j: usize = 0;
        while j < keys.len()
            invariant
                e == self.links@,
                links_down(e),
                j <= keys@.len(),
                c2@.len() == j,
                forall|z: u64|
                    keys@.contains(z) <==> exists|k: int| 0 <= k < e.len() && #[trigger] e[k].0 == z,
                forall|k: int|
                    0 <= k < j ==> #[trigger] c2@[k] == (key_dim(keys@[k]), key_dim(
                        proot(e, keys@[k]),
                    )),
            decreases keys@.len() - j,
        {
            let x = keys[j];
            proof {
                assert(keys@.contains(x));
                let k = choose|k: int| 0 <= k < e.len() && #[trigger] e[k].0 == x;
                assert(key_ok(e[k].0));
                lemma_root_props(e, x);
            }
            let a = dim_of_key(x);
            let r = self.root(x);
            let b = dim_of_key(r);
            c2.push((a, b));
            j += 1;
        }
        proof {
            assert forall|x: u64| #[trigger] plookup(e, x) is Some implies keys@.contains(x) by {
                lemma_plookup(e, x);
            }
            assert forall|k: int| 0 <= k < keys@.len() implies (#[trigger] plookup(
                e,
                keys@[k],
            )) is Some by {
                assert(keys@.contains(keys@[k]));
                lemma_plookup(e, keys@[k]);
            }
        }
        (c2, Ghost(keys@))
    }
}

/// The total length of the clauses of `cs`.
pub open spec fn literal_total(cs: Seq<Clause>) -> int
    decreases cs.len(),
{
    if cs.len() == 0 {
        0
    } else {
        literal_total(cs.drop_last()) + cs.last()@.len()
    }
}

proof fn lemma_literal_total_grows(cs: Seq<Clause>, i: int, j: int)
    requires
        0 <= i <= j <= cs.len(),
    ensures
        literal_total(cs.take(i)) <= literal_total(cs.take(j)),
    decreases j - i,
{
    if i < j {
        lemma_literal_total_grows(cs, i, j - 1);
        assert(cs.take(j).drop_last() =~= cs.take(j - 1));
    }
}

/// Sum of clause lengths, capped just above `cap`.
fn literal_count(cs: &Vec<Clause>, cap: usize) -> (r: usize)
    ensures
        cap < usize::MAX ==> (r > cap <==> literal_total(cs@) > cap),
        literal_total(cs@) <= cap ==> r == literal_total(cs@),
{
    let mut total: usize = 0;
    let mut i: usize = 0;
    proof {
        assert(cs@.take(0) =~= Seq::<Clause>::empty());
    }
    while i < cs.len()
        invariant
            i <= cs@.len(),
            total == (if literal_total(cs@.take(i as int)) < usize::MAX {
                literal_total(cs@.take(i as int))
            } else {
                usize::MAX as int
            }),
        decreases cs@.len() - i,
    {
        proof {
            assert(cs@.take(i + 1).drop_last() =~= cs@.take(i as int));
            lemma_literal_total_grows(cs@, i as int, cs@.len() as int);
            assert(cs@.take(cs@.len() as int) =~= cs@);
        }
        if total > cap {
            return total;
        }
        total = total.saturating_add(cs[i].len());
        i += 1;
    }
    proof {
        assert(cs@.take(cs@.len() as int) =~= cs@);
    }
    total
}

/// Drops unsatisfiable clauses and clauses subsumed by a weaker one, and
/// replaces each clause by its partition normal form.
fn simplify(raw: &Vec<Clause>) -> (r: Result<Vec<Clause>>)
    ensures
        r matches Ok(out) ==> forall|rho: spec_fn(u32) -> int|
            #[trigger] dnf_holds(out@, rho) == dnf_holds(raw@, rho),
        r is Ok <==> forall|i: int| 0 <= i < raw@.len() ==> (#[trigger] raw@[i])@.len() <= 1024,
        r matches Err(e) ==> e.offset is None && e.message@ == "face solver clause budget exhausted"@,
{
    let mut out: Vec<Clause> = Vec::new();
    let mut i: usize = 0;
    while i < raw.len()
        invariant
            i <= raw@.len(),
            forall|j: int| 0 <= j < i ==> (#[trigger] raw@[j])@.len() <= 1024,
            forall|rho: spec_fn(u32) -> int|
                #[trigger] dnf_holds(out@, rho) == dnf_prefix(raw@, i as int, rho),
        decreases raw@.len() - i,
    {
        let c = &raw[i];
        if c.len() > 1024 {
            return Err(Error::plain("face solver clause budget exhausted"));
        }
        let p = Partition::new(c);
        let ghost e = p.links@;
        if p.equal(Dim::Zero, Dim::One) {
            proof {
                assert forall|rho: spec_fn(u32) -> int|
                    #[trigger] dnf_holds(out@, rho) == dnf_prefix(raw@, i + 1, rho) by {
                    lemma_dnf_prefix_step(raw@, i as int, rho);
                    lemma_inconsistent(e, c@, rho);
                }
            }
            i += 1;
            continue;
        }
        let (c2, Ghost(keys)) = p.normalized();
        let mut subsumed = false;
        let mut m: usize = 0;
        while m < out.len()
            invariant
                e == p.links@,
                links_down(e),
                m <= out@.len(),
                subsumed ==> exists|w: int| 0 <= w < out@.len() && all_pequal(e, #[trigger] out@[w]@),
            decreases out@.len() - m,
        {
            if p.all_equal(&out[m]) {
                subsumed = true;
                assert(all_pequal(e, out@[m as int]@));
            }
            m += 1;
        }
        if subsumed {
            proof {
                assert forall|rho: spec_fn(u32) -> int|
                    #[trigger] dnf_holds(out@, rho) == dnf_prefix(raw@, i + 1, rho) by {
                    lemma_dnf_prefix_step(raw@, i as int, rho);
                    if clause_holds(c@, rho) {
                        let w = choose|w: int| 0 <= w < out@.len() && all_pequal(e, #[trigger] out@[w]@);
                        lemma_implied(e, c@, out@[w]@, rho);
                    }
                }
            }
            i += 1;
            continue;
        }
        let mut kept: Vec<Clause> = Vec::new();
        let mut m: usize = 0;
        while m < out.len()
            invariant
                normal_of(e, keys, c2@),
                part_ok(e, c@),
                m <= out@.len(),
                forall|rho: spec_fn(u32) -> int|
                    (#[trigger] dnf_holds(kept@, rho) || clause_holds(c2@, rho)) == (dnf_prefix(
                        out@,
                        m as int,
                        rho,
                    ) || clause_holds(c2@, rho)),
            decreases out@.len() - m,
        {
            let q = Partition::new(&out[m]);
            let ghost before = kept@;
            if !q.all_equal(&c2) {
                let s = copy_clause(&out[m]);
                kept.push(s);
                proof {
                    assert forall|rho: spec_fn(u32) -> int|
                        (#[trigger] dnf_holds(kept@, rho) || clause_holds(c2@, rho)) == (dnf_prefix(
                            out@,
                            m + 1,
                            rho,
                        ) || clause_holds(c2@, rho)) by {
                        lemma_dnf_push(before, s, rho);
                        lemma_dnf_prefix_step(out@, m as int, rho);
                    }
                }
            } else {
                proof {
                    assert forall|rho: spec_fn(u32) -> int|
                        (#[trigger] dnf_holds(kept@, rho) || clause_holds(c2@, rho)) == (dnf_prefix(
                            out@,
                            m + 1,
                            rho,
                        ) || clause_holds(c2@, rho)) by {
                        lemma_dnf_prefix_step(out@, m as int, rho);
                        if clause_holds(out@[m as int]@, rho) {
                            lemma_implied(q.links@, out@[m as int]@, c2@, rho);
                        }
                    }
                }
            }
            m += 1;
        }
        let ghost before = kept@;
        kept.push(c2);
        proof {
            assert forall|rho: spec_fn(u32) -> int|
                #[trigger] dnf_holds(kept@, rho) == dnf_prefix(raw@, i + 1, rho) by {
                lemma_dnf_push(before, c2, rho);
                lemma_dnf_prefix_step(raw@, i as int, rho);
                lemma_normal_equiv(e, keys, c@, c2@, rho);
                assert(dnf_prefix(out@, out@.len() as int, rho) == dnf_holds(out@, rho));
            }
        }
        out = kept;
        i += 1;
    }
    proof {
        assert forall|rho: spec_fn(u32) -> int|
            #[trigger] dnf_holds(out@, rho) == dnf_holds(raw@, rho) by {
            assert(dnf_prefix(raw@, raw@.len() as int, rho) == dnf_holds(raw@, rho));
        }
    }
    Ok(out)
}

impl Faces {
    /// Disjunctive normal form of `f`, within the solver's resource budgets.
    fn dnf_inner(&mut self, f: FaceId, depth: usize) -> (r: Result<Vec<Clause>>)
        requires
            old(self).wf(),
            old(self).valid(f),
            depth <= 257,
        ensures
            final(self).wf(),
            final(self)@ == old(self)@,
            r matches Ok(cs) ==> dnf_equiv(final(self)@, f.0 as int, cs@),
            depth <= 256 && atomic(old(self)@[f.0 as int]) ==> r is Ok,
            depth > 256 ==> r is Err,
        decreases 257 - depth,
    {
        if depth > 256 {
            return Err(Error::plain("face solver depth budget exhausted"));
        }
        if f.0 < self.dnf_cache.len() {
            if let Some(cs) = &self.dnf_cache[f.0] {
                let r = copy_clauses(cs);
                proof {
                    assert(cache_entry_ok(self@, f.0 as int, self.dnf_cache@[f.0 as int]));
                    assert forall|rho: spec_fn(u32) -> int|
                        #![trigger face_holds(self@, f.0 as int, rho)]
                        #![trigger dnf_holds(r@, rho)]
                        dnf_holds(r@, rho) == face_holds(self@, f.0 as int, rho) by {
                        lemma_dnf_same(r@, cs@, rho);
                    }
                }
                return Ok(r);
            }
        }
        let ghost nodes = self@;
        let raw: Vec<Clause> = match self.get(f) {
            Face::Top => {
                let mut v: Vec<Clause> = Vec::new();
                v.push(Vec::new());
                proof {
                    assert forall|rho: spec_fn(u32) -> int|
                        #[trigger] dnf_holds(v@, rho) == face_holds(nodes, f.0 as int, rho) by {
                        assert(clause_holds(v@[0]@, rho));
                    }
                }
                v
            },
            Face::Bot => Vec::new(),
            Face::Eq(a, b) => {
                let mut c: Clause = Vec::new();
                c.push((a, b));
                let mut v: Vec<Clause> = Vec::new();
                v.push(c);
                proof {
                    assert forall|rho: spec_fn(u32) -> int|
                        #[trigger] dnf_holds(v@, rho) == face_holds(nodes, f.0 as int, rho) by {
                        assert(v@.len() == 1);
                        assert(v@[0]@.len() == 1);
                        assert(v@[0]@[0] == (a, b));
                        assert(face_holds(nodes, f.0 as int, rho) == (dim_val(a, rho) == dim_val(b, rho)));
                        if dim_val(a, rho) == dim_val(b, rho) {
                            assert(clause_holds(v@[0]@, rho));
                        } else {
                            assert(dim_val(v@[0]@[0].0, rho) != dim_val(v@[0]@[0].1, rho));
                            assert(!clause_holds(v@[0]@, rho));
                        }
                    }
                }
                v
            },
            Face::Or(a, b) => {
                let x = self.dnf_inner(a, depth + 1)?;
                let y = self.dnf_inner(b, depth + 1)?;
                disjunction(x, &y)
            },
            Face::And(a, b) => {
                let x = self.dnf_inner(a, depth + 1)?;
                let y = self.dnf_inner(b, depth + 1)?;
                let too_large = match x.len().checked_mul(y.len()) {
                    Some(n) => n > 4096,
                    None => true,
                };
                if too_large {
                    return Err(Error::plain("face solver expansion budget exhausted"));
                }
                product(&x, &y)
            },
        };
        assert(forall|rho: spec_fn(u32) -> int|
            #[trigger] dnf_holds(raw@, rho) == face_holds(nodes, f.0 as int, rho));
        let out = simplify(&raw)?;
        if self.cached < 4096 && literal_count(&out, 64) <= 64 {
            while self.dnf_cache.len() <= f.0
                invariant
                    self.wf(),
                    self.cached < 4096,
                    self@ == nodes,
                    f.0 < nodes.len(),
                decreases f.0 + 1 - self.dnf_cache@.len(),
            {
                self.dnf_cache.push(None);
                proof {
                    assert forall|i: int| 0 <= i < self.dnf_cache@.len() implies cache_entry_ok(
                        self@,
                        i,
                        #[trigger] self.dnf_cache@[i],
                    ) by {}
                }
            }
            if self.dnf_cache[f.0].is_none() {
                self.cached = self.cached + 1;
            }
            let copy = copy_clauses(&out);
            self.dnf_cache.set(f.0, Some(copy));
            proof {
                assert forall|i: int| 0 <= i < self.dnf_cache@.len() implies cache_entry_ok(
                    self@,
                    i,
                    #[trigger] self.dnf_cache@[i],
                ) by {
                    if i == f.0 {
                        assert forall|rho: spec_fn(u32) -> int|
                            #![trigger face_holds(self@, i, rho)]
                            #![trigger dnf_holds(copy@, rho)]
                            dnf_holds(copy@, rho) == face_holds(self@, i, rho) by {
                            lemma_dnf_same(copy@, out@, rho);
                        }
                    }
                }
            }
        }
        Ok(out)
    }

    fn dnf(&mut self, f: FaceId) -> (r: Result<Vec<Clause>>)
        requires
            old(self).wf(),
            old(self).valid(f),
        ensures
            final(self).wf(),
            final(self)@ == old(self)@,
            r matches Ok(cs) ==> dnf_equiv(final(self)@, f.0 as int, cs@),
            atomic(old(self)@[f.0 as int]) ==> r is Ok,
    {
        self.dnf_inner(f, 0)
    }
}

// ---------------------------------------------------------------------------
// Decisions: entailment, inconsistency, equality.

/// A face without connectives.
pub open spec fn atomic(f: Face) -> bool {
    f is Top || f is Bot || f is Eq
}

/// Every assignment that satisfies face `a` satisfies face `b`.
pub open spec fn entails_sem(nodes: Seq<Face>, a: int, b: int) -> bool {
    forall|rho: spec_fn(u32) -> int|
        #![trigger face_holds(nodes, a, rho)]
        #![trigger face_holds(nodes, b, rho)]
        face_holds(nodes, a, rho) ==> face_holds(nodes, b, rho)
}

/// No assignment satisfies face `a`.
pub open spec fn inconsistent_sem(nodes: Seq<Face>, a: int) -> bool {
    forall|rho: spec_fn(u32) -> int| !#[trigger] face_holds(nodes, a, rho)
}

/// Every assignment that satisfies face `a` gives `x` and `y` the same value.
pub open spec fn equal_sem(nodes: Seq<Face>, a: int, x: Dim, y: Dim) -> bool {
    forall|rho: spec_fn(u32) -> int|
        #[trigger] face_holds(nodes, a, rho) ==> dim_val(x, rho) == dim_val(y, rho)
}

pub open spec fn clause_entails(c: Seq<(Dim, Dim)>, bs: Seq<Clause>) -> bool {
    forall|rho: spec_fn(u32) -> int| #[trigger] clause_holds(c, rho) ==> dnf_holds(bs, rho)
}

proof fn lemma_clause_decision(e: Seq<(u64, u64)>, c: Seq<(Dim, Dim)>, bs: Seq<Clause>)
    requires
        part_ok(e, c),
        !pequal(e, Dim::Zero, Dim::One),
        forall|j: int| 0 <= j < bs.len() ==> !all_pequal(e, #[trigger] bs[j]@),
    ensures
        !clause_entails(c, bs),
{
    lemma_canon_clause(e, c);
    let rho = canon(e);
    assert(clause_holds(c, rho));
    if dnf_holds(bs, rho) {
        let j = choose|j: int| 0 <= j < bs.len() && clause_holds(#[trigger] bs[j]@, rho);
        assert(!all_pequal(e, bs[j]@));
        let w = bs[j]@;
        let k = choose|k: int| 0 <= k < w.len() && !pequal(e, #[trigger] w[k].0, w[k].1);
        assert(pequal(e, w[k].0, w[k].1) == (dim_val(w[k].0, rho) == dim_val(w[k].1, rho)));
        assert(false);
    }
}

/// Whether clause `c` entails the disjunction `bs`.
fn clause_entails_exec(c: &Clause, bs: &Vec<Clause>) -> (r: bool)
    ensures
        r == clause_entails(c@, bs@),
{
    let p = Partition::new(c);
    let ghost e = p.links@;
    if p.equal(Dim::Zero, Dim::One) {
        proof {
            assert forall|rho: spec_fn(u32) -> int| #[trigger] clause_holds(c@, rho) implies dnf_holds(
                bs@,
                rho,
            ) by {
                lemma_inconsistent(e, c@, rho);
            }
        }
        return true;
    }
    let mut j: usize = 0;
    while j < bs.len()
        invariant
            e == p.links@,
            links_down(e),
            part_ok(e, c@),
            j <= bs@.len(),
            forall|k: int| 0 <= k < j ==> !all_pequal(e, #[trigger] bs@[k]@),
        decreases bs@.len() - j,
    {
        if p.all_equal(&bs[j]) {
            proof {
                assert forall|rho: spec_fn(u32) -> int| #[trigger] clause_holds(
                    c@,
                    rho,
                ) implies dnf_holds(bs@, rho) by {
                    lemma_implied(e, c@, bs@[j as int]@, rho);
                }
            }
            return true;
        }
        j += 1;
    }
    proof {
        lemma_clause_decision(e, c@, bs@);
    }
    false
}

proof fn lemma_entails_clauses(
    nodes: Seq<Face>,
    a: int,
    b: int,
    as_: Seq<Clause>,
    bs: Seq<Clause>,
)
    requires
        dnf_equiv(nodes, a, as_),
        dnf_equiv(nodes, b, bs),
    ensures
        entails_sem(nodes, a, b) == forall|k: int|
            0 <= k < as_.len() ==> clause_entails(#[trigger] as_[k]@, bs),
{
    if forall|k: int| 0 <= k < as_.len() ==> clause_entails(#[trigger] as_[k]@, bs) {
        assert forall|rho: spec_fn(u32) -> int| #[trigger] face_holds(nodes, a, rho) implies face_holds(
            nodes,
            b,
            rho,
        ) by {
            assert(dnf_holds(as_, rho));
            let k = choose|k: int| 0 <= k < as_.len() && clause_holds(#[trigger] as_[k]@, rho);
            assert(clause_entails(as_[k]@, bs));
            assert(dnf_holds(bs, rho));
        }
    } else {
        let k = choose|k: int| 0 <= k < as_.len() && !clause_entails(#[trigger] as_[k]@, bs);
        let rho = choose|rho: spec_fn(u32) -> int|
            #[trigger] clause_holds(as_[k]@, rho) && !dnf_holds(bs, rho);
        assert(dnf_holds(as_, rho));
        assert(face_holds(nodes, a, rho));
        assert(!face_holds(nodes, b, rho));
    }
}

proof fn lemma_one_equation(bs: Seq<Clause>, x: Dim, y: Dim, rho: spec_fn(u32) -> int)
    requires
        bs.len() == 1,
        bs[0]@ == seq![(x, y)],
    ensures
        dnf_holds(bs, rho) == (dim_val(x, rho) == dim_val(y, rho)),
{
    if dim_val(x, rho) == dim_val(y, rho) {
        assert(clause_holds(bs[0]@, rho));
    } else {
        assert(dim_val(bs[0]@[0].0, rho) != dim_val(bs[0]@[0].1, rho));
    }
}

impl Faces {
    /// Whether every assignment satisfying `a` satisfies `b`.
    #[verifier::loop_isolation(false)]
    pub fn entails(&mut self, a: FaceId, b: FaceId) -> (r: Result<bool>)
        requires
            old(self).wf(),
            old(self).valid(a),
            old(self).valid(b),
        ensures
            final(self).wf(),
            final(self)@ == old(self)@,
            r matches Ok(x) ==> x == entails_sem(final(self)@, a.0 as int, b.0 as int),
            atomic(old(self)@[a.0 as int]) && atomic(old(self)@[b.0 as int]) ==> r is Ok,
    {
        let bs = self.dnf(b)?;
        let as_ = self.dnf(a)?;
        let mut i: usize = 0;
        while i < as_.len()
            invariant
                i <= as_@.len(),
                forall|k: int| 0 <= k < i ==> clause_entails(#[trigger] as_@[k]@, bs@),
            decreases as_@.len() - i,
        {
            if !clause_entails_exec(&as_[i], &bs) {
                proof {
                    lemma_entails_clauses(self@, a.0 as int, b.0 as int, as_@, bs@);
                }
                return Ok(false);
            }
            i += 1;
        }
        proof {
            lemma_entails_clauses(self@, a.0 as int, b.0 as int, as_@, bs@);
        }
        Ok(true)
    }

    /// Whether no assignment satisfies `a`.
    #[verifier::loop_isolation(false)]
    pub fn inconsistent(&mut self, a: FaceId) -> (r: Result<bool>)
        requires
            old(self).wf(),
            old(self).valid(a),
        ensures
            final(self).wf(),
            final(self)@ == old(self)@,
            r matches Ok(x) ==> x == inconsistent_sem(final(self)@, a.0 as int),
            atomic(old(self)@[a.0 as int]) ==> r is Ok,
    {
        let as_ = self.dnf(a)?;
        let none: Vec<Clause> = Vec::new();
        let mut i: usize = 0;
        while i < as_.len()
            invariant
                i <= as_@.len(),
                none@.len() == 0,
                forall|k: int| 0 <= k < i ==> clause_entails(#[trigger] as_@[k]@, none@),
            decreases as_@.len() - i,
        {
            if !clause_entails_exec(&as_[i], &none) {
                proof {
                    let c = as_@[i as int]@;
                    let rho = choose|rho: spec_fn(u32) -> int|
                        #[trigger] clause_holds(c, rho) && !dnf_holds(none@, rho);
                    assert(dnf_holds(as_@, rho));
                }
                return Ok(false);
            }
            i += 1;
        }
        proof {
            assert forall|rho: spec_fn(u32) -> int| !#[trigger] face_holds(self@, a.0 as int, rho) by {
                if face_holds(self@, a.0 as int, rho) {
                    assert(dnf_holds(as_@, rho));
                    let k = choose|k: int| 0 <= k < as_@.len() && clause_holds(#[trigger] as_@[k]@, rho);
                    assert(clause_entails(as_@[k]@, none@));
                }
            }
        }
        Ok(true)
    }

    /// Whether every assignment satisfying `a` identifies `x` and `y`.
    #[verifier::loop_isolation(false)]
    pub fn equal(&mut self, a: FaceId, x: Dim, y: Dim) -> (r: Result<bool>)
        requires
            old(self).wf(),
            old(self).valid(a),
        ensures
            final(self).wf(),
            final(self)@ == old(self)@,
            r matches Ok(v) ==> v == equal_sem(final(self)@, a.0 as int, x, y),
            atomic(old(self)@[a.0 as int]) ==> r is Ok,
    {
        let as_ = self.dnf(a)?;
        let mut eqn: Clause = Vec::new();
        eqn.push((x, y));
        let mut target: Vec<Clause> = Vec::new();
        target.push(eqn);
        proof {
            assert(target@[0]@ =~= seq![(x, y)]);
        }
        let mut i: usize = 0;
        while i < as_.len()
            invariant
                i <= as_@.len(),
                target@.len() == 1,
                target@[0]@ == seq![(x, y)],
                forall|k: int| 0 <= k < i ==> clause_entails(#[trigger] as_@[k]@, target@),
            decreases as_@.len() - i,
        {
            if !clause_entails_exec(&as_[i], &target) {
                proof {
                    let c = as_@[i as int]@;
                    let rho = choose|rho: spec_fn(u32) -> int|
                        #[trigger] clause_holds(c, rho) && !dnf_holds(target@, rho);
                    assert(dnf_holds(as_@, rho));
                    lemma_one_equation(target@, x, y, rho);
                    assert(face_holds(self@, a.0 as int, rho));
                }
                return Ok(false);
            }
            i += 1;
        }
        proof {
            assert forall|rho: spec_fn(u32) -> int| #[trigger] face_holds(
                self@,
                a.0 as int,
                rho,
            ) implies dim_val(x, rho) == dim_val(y, rho) by {
                assert(dnf_holds(as_@, rho));
                let k = choose|k: int| 0 <= k < as_@.len() && clause_holds(#[trigger] as_@[k]@, rho);
                assert(clause_entails(as_@[k]@, target@));
                lemma_one_equation(target@, x, y, rho);
            }
        }
        Ok(true)
    }
}

// ---------------------------------------------------------------------------
// Derived operations: clause splitting, quantification, projection,
// substitution, and the dimensions of a face.

pub open spec fn abs(x: int) -> int {
    if x < 0 {
        -x
    } else {
        x
    }
}

pub open spec fn max3(a: int, b: int, c: int) -> int {
    if a >= b && a >= c {
        a
    } else if b >= c {
        b
    } else {
        c
    }
}

/// A bound on the absolute values of every dimension in `c` under `rho`.
pub open spec fn clause_bound(c: Seq<(Dim, Dim)>, rho: spec_fn(u32) -> int) -> int
    decreases c.len(),
{
    if c.len() == 0 {
        1
    } else {
        max3(
            abs(dim_val(c.last().0, rho)),
            abs(dim_val(c.last().1, rho)),
            clause_bound(c.drop_last(), rho),
        )
    }
}

pub open spec fn dnf_bound(cs: Seq<Clause>, rho: spec_fn(u32) -> int) -> int
    decreases cs.len(),
{
    if cs.len() == 0 {
        1
    } else {
        max3(clause_bound(cs.last()@, rho), 1, dnf_bound(cs.drop_last(), rho))
    }
}

proof fn lemma_clause_bound(c: Seq<(Dim, Dim)>, rho: spec_fn(u32) -> int, k: int)
    requires
        0 <= k < c.len(),
    ensures
        abs(dim_val(c[k].0, rho)) <= clause_bound(c, rho),
        abs(dim_val(c[k].1, rho)) <= clause_bound(c, rho),
        clause_bound(c, rho) >= 1,
    decreases c.len(),
{
    if k < c.len() - 1 {
        lemma_clause_bound(c.drop_last(), rho, k);
        assert(c.drop_last()[k] == c[k]);
    } else if c.len() > 1 {
        lemma_clause_bound(c.drop_last(), rho, 0);
    }
}

proof fn lemma_dnf_bound(cs: Seq<Clause>, rho: spec_fn(u32) -> int, j: int, k: int)
    requires
        0 <= j < cs.len(),
        0 <= k < cs[j]@.len(),
    ensures
        abs(dim_val(cs[j]@[k].0, rho)) <= dnf_bound(cs, rho),
        abs(dim_val(cs[j]@[k].1, rho)) <= dnf_bound(cs, rho),
    decreases cs.len(),
{
    if j < cs.len() - 1 {
        lemma_dnf_bound(cs.drop_last(), rho, j, k);
        assert(cs.drop_last()[j] == cs[j]);
    } else {
        lemma_clause_bound(cs[j]@, rho, k);
    }
}

/// `rho` with variable `x` set to `v`.
pub open spec fn update(rho: spec_fn(u32) -> int, x: u32, v: int) -> spec_fn(u32) -> int {
    |y: u32|
        if y == x {
            v
        } else {
            rho(y)
        }
}

/// No nontrivial equation of `c` involves variable `x`.
pub open spec fn novar(c: Seq<(Dim, Dim)>, x: u32) -> bool {
    forall|k: int|
        0 <= k < c.len() ==> !(#[trigger] c[k].0 != c[k].1 && (c[k].0 == Dim::Var(x) || c[k].1
            == Dim::Var(x)))
}

proof fn lemma_novar_update(c: Seq<(Dim, Dim)>, x: u32, rho: spec_fn(u32) -> int, v: int)
    requires
        novar(c, x),
    ensures
        clause_holds(c, rho) == clause_holds(c, update(rho, x, v)),
{
    let r2 = update(rho, x, v);
    assert forall|k: int| 0 <= k < c.len() implies (dim_val(#[trigger] c[k].0, rho) == dim_val(
        c[k].1,
        rho,
    )) == (dim_val(c[k].0, r2) == dim_val(c[k].1, r2)) by {
        if c[k].0 != c[k].1 {
            assert(c[k].0 != Dim::Var(x) && c[k].1 != Dim::Var(x));
        }
    }
}

/// Whether an equation of `c` other than a trivial one involves variable `x`.
fn mentions_var(c: &Clause, x: u32) -> (r: bool)
    ensures
        r == !novar(c@, x),
{
    let mut k: usize = 0;
    while k < c.len()
        invariant
            k <= c@.len(),
            forall|j: int|
                0 <= j < k ==> !(#[trigger] c@[j].0 != c@[j].1 && (c@[j].0 == Dim::Var(x)
                    || c@[j].1 == Dim::Var(x))),
        decreases c@.len() - k,
    {
        let (a, b) = c[k];
        if a != b && (a == Dim::Var(x) || b == Dim::Var(x)) {
            return true;
        }
        k += 1;
    }
    false
}

proof fn lemma_holds_all_extend(a: Seq<Face>, b: Seq<Face>)
    requires
        extends(a, b),
    ensures
        forall|i: int, rho: spec_fn(u32) -> int|
            0 <= i < a.len() ==> #[trigger] face_holds(a, i, rho) == face_holds(b, i, rho),
{
    assert forall|i: int, rho: spec_fn(u32) -> int|
        0 <= i < a.len() implies #[trigger] face_holds(a, i, rho) == face_holds(b, i, rho) by {
        lemma_holds_extend(a, b, i, rho);
    }
}

/// Some face of `fs` holds under `rho`.
pub open spec fn some_holds(nodes: Seq<Face>, fs: Seq<FaceId>, rho: spec_fn(u32) -> int) -> bool {
    exists|k: int| 0 <= k < fs.len() && face_holds(nodes, (#[trigger] fs[k]).0 as int, rho)
}

impl Faces {
    /// The conjunction of the equations of `c`, skipping the trivial ones
    /// when `skip_trivial` is set.
    fn conjunction(&mut self, c: &Clause, skip_trivial: bool) -> (r: FaceId)
        requires
            old(self).wf(),
        ensures
            final(self).wf(),
            grows(old(self)@, final(self)@),
            final(self).valid(r),
            forall|rho: spec_fn(u32) -> int| #[trigger] final(self).holds(r, rho) == clause_holds(c@, rho),
    {
        let mut g = self.top();
        let mut k: usize = 0;
        while k < c.len()
            invariant
                self.wf(),
                grows(old(self)@, self@),
                self.valid(g),
                k <= c@.len(),
                forall|rho: spec_fn(u32) -> int|
                    #[trigger] self.holds(g, rho) == clause_holds(c@.take(k as int), rho),
            decreases c@.len() - k,
        {
            let (a, b) = c[k];
            let ghost before = self@;
            let ghost g_old = g;
            let ghost mid = self@;
            if !skip_trivial || a != b {
                let e = self.eq(a, b);
                proof {
                    mid = self@;
                }
                g = self.and(g, e);
            }
            proof {
                lemma_holds_all_extend(before, mid);
                assert forall|rho: spec_fn(u32) -> int|
                    #[trigger] face_holds(self@, g.0 as int, rho) == clause_holds(c@.take(k + 1), rho) by {
                    let one = seq![(a, b)];
                    assert(c@.take(k + 1) =~= c@.take(k as int) + one);
                    lemma_clause_concat(c@.take(k as int), one, rho);
                    assert(one[0] == (a, b));
                    if dim_val(a, rho) == dim_val(b, rho) {
                        assert forall|j: int| 0 <= j < one.len() implies dim_val(#[trigger] one[j].0, rho) == dim_val(one[j].1, rho) by {
                            assert(j == 0);
                        }
                    } else {
                        assert(!clause_holds(one, rho));
                    }
                    assert(face_holds(before, g_old.0 as int, rho) == clause_holds(c@.take(k as int), rho));
                    assert(face_holds(mid, g_old.0 as int, rho) == face_holds(before, g_old.0 as int, rho));
                }
            }
            k += 1;
        }
        assert(c@.take(c@.len() as int) =~= c@);
        g
    }

    /// One face per satisfiable clause of the normal form of `f`.
    #[verifier::loop_isolation(false)]
    pub fn clauses(&mut self, f: FaceId) -> (r: Result<Vec<FaceId>>)
        requires
            old(self).wf(),
            old(self).valid(f),
        ensures
            final(self).wf(),
            grows(old(self)@, final(self)@),
            r matches Ok(fs) ==> {
                &&& forall|k: int| 0 <= k < fs.len() ==> final(self).valid(#[trigger] fs@[k])
                &&& forall|rho: spec_fn(u32) -> int|
                    #[trigger] old(self).holds(f, rho) == some_holds(final(self)@, fs@, rho)
            },
            atomic(old(self)@[f.0 as int]) ==> r is Ok,
    {
        let ghost nodes0 = self@;
        let cs = self.dnf(f)?;
        let mut out: Vec<FaceId> = Vec::new();
        let mut i: usize = 0;
        while i < cs.len()
            invariant
                self.wf(),
                grows(nodes0, self@),
                i <= cs@.len(),
                forall|k: int| 0 <= k < out@.len() ==> self.valid(#[trigger] out@[k]),
                forall|rho: spec_fn(u32) -> int|
                    #[trigger] dnf_prefix(cs@, i as int, rho) == some_holds(self@, out@, rho),
            decreases cs@.len() - i,
        {
            let p = Partition::new(&cs[i]);
            let ghost before = self@;
            let ghost out0 = out@;
            if !p.equal(Dim::Zero, Dim::One) {
                let g = self.conjunction(&cs[i], false);
                out.push(g);
                proof {
                    lemma_holds_all_extend(before, self@);
                    assert forall|rho: spec_fn(u32) -> int|
                        #[trigger] dnf_prefix(cs@, i + 1, rho) == some_holds(self@, out@, rho) by {
                        lemma_dnf_prefix_step(cs@, i as int, rho);
                        assert(dnf_prefix(cs@, i as int, rho) == some_holds(before, out0, rho));
                        if exists|k: int| 0 <= k < out0.len() && face_holds(before, (#[trigger] out0[k]).0 as int, rho) {
                            let k = choose|k: int| 0 <= k < out0.len() && face_holds(before, (#[trigger] out0[k]).0 as int, rho);
                            assert(out@[k] == out0[k]);
                        }
                        if exists|k: int| 0 <= k < out@.len() && self.holds(#[trigger] out@[k], rho) {
                            let k = choose|k: int| 0 <= k < out@.len() && self.holds(#[trigger] out@[k], rho);
                            if k < out0.len() {
                                assert(out0[k] == out@[k]);
                                assert(face_holds(before, out0[k].0 as int, rho));
                            }
                        }
                        if clause_holds(cs@[i as int]@, rho) {
                            assert(self.holds(out@[out0.len() as int], rho));
                        }
                    }
                }
            } else {
                proof {
                    assert forall|rho: spec_fn(u32) -> int|
                        #[trigger] dnf_prefix(cs@, i + 1, rho) == some_holds(self@, out@, rho) by {
                        lemma_dnf_prefix_step(cs@, i as int, rho);
                        lemma_inconsistent(p.links@, cs@[i as int]@, rho);
                    }
                }
            }
            i += 1;
        }
        proof {
            assert forall|rho: spec_fn(u32) -> int|
                #[trigger] face_holds(nodes0, f.0 as int, rho) == some_holds(self@, out@, rho) by {
                assert(dnf_holds(cs@, rho) == face_holds(nodes0, f.0 as int, rho));
                assert(dnf_prefix(cs@, cs@.len() as int, rho) == dnf_holds(cs@, rho));
            }
        }
        Ok(out)
    }

    /// Universal quantification of variable `x`: the face holds under `rho`
    /// exactly when `f` holds for every value of `x`.
    #[verifier::loop_isolation(false)]
    pub fn forall_var(&mut self, x: u32, f: FaceId) -> (r: Result<FaceId>)
        requires
            old(self).wf(),
            old(self).valid(f),
        ensures
            final(self).wf(),
            grows(old(self)@, final(self)@),
            r matches Ok(g) ==> {
                &&& final(self).valid(g)
                &&& forall|rho: spec_fn(u32) -> int|
                    #[trigger] final(self).holds(g, rho) == forall|v: int|
                        #[trigger] old(self).holds(f, update(rho, x, v))
            },
            r matches Ok(g) ==> forall|rho: spec_fn(u32) -> int, v: int|
                #[trigger] final(self).holds(g, update(rho, x, v)) == final(self).holds(g, rho),
            atomic(old(self)@[f.0 as int]) ==> r is Ok,
    {
        let ghost nodes0 = self@;
        let cs = self.dnf(f)?;
        let mut out = self.bot();
        let mut i: usize = 0;
        while i < cs.len()
            invariant
                self.wf(),
                grows(nodes0, self@),
                self.valid(out),
                i <= cs@.len(),
                forall|rho: spec_fn(u32) -> int|
                    #[trigger] self.holds(out, rho) == exists|k: int|
                        0 <= k < i && novar(cs@[k]@, x) && clause_holds(#[trigger] cs@[k]@, rho),
            decreases cs@.len() - i,
        {
            let ghost before = self@;
            let ghost out0 = out;
            let p = Partition::new(&cs[i]);
            let skip = p.equal(Dim::Zero, Dim::One) || mentions_var(&cs[i], x);
            let ghost mid = self@;
            if !skip {
                let clause = self.conjunction(&cs[i], true);
                proof {
                    mid = self@;
                }
                out = self.or(out, clause);
            }
            proof {
                lemma_holds_all_extend(before, mid);
                assert forall|rho: spec_fn(u32) -> int|
                    #[trigger] face_holds(self@, out.0 as int, rho) == exists|k: int|
                        0 <= k < i + 1 && novar(cs@[k]@, x) && clause_holds(#[trigger] cs@[k]@, rho) by {
                    let old_holds = face_holds(before, out0.0 as int, rho);
                    assert(old_holds == exists|k: int|
                        0 <= k < i && novar(cs@[k]@, x) && clause_holds(#[trigger] cs@[k]@, rho));
                    assert(face_holds(mid, out0.0 as int, rho) == old_holds);
                    if skip && clause_holds(cs@[i as int]@, rho) && novar(cs@[i as int]@, x) {
                        lemma_inconsistent(p.links@, cs@[i as int]@, rho);
                    }
                    if exists|k: int| 0 <= k < i + 1 && novar(cs@[k]@, x) && clause_holds(#[trigger] cs@[k]@, rho) {
                        let k = choose|k: int| 0 <= k < i + 1 && novar(cs@[k]@, x) && clause_holds(#[trigger] cs@[k]@, rho);
                        if k < i {
                            assert(old_holds);
                        }
                    }
                    if old_holds {
                        let k = choose|k: int| 0 <= k < i && novar(cs@[k]@, x) && clause_holds(#[trigger] cs@[k]@, rho);
                        assert(0 <= k < i + 1);
                    }
                }
            }
            i += 1;
        }
        proof {
            assert forall|rho: spec_fn(u32) -> int|
                #[trigger] self.holds(out, rho) == forall|v: int|
                    #[trigger] face_holds(nodes0, f.0 as int, update(rho, x, v)) by {
                if self.holds(out, rho) {
                    let k = choose|k: int| 0 <= k < cs@.len() && novar(cs@[k]@, x) && clause_holds(#[trigger] cs@[k]@, rho);
                    assert forall|v: int| #[trigger] face_holds(nodes0, f.0 as int, update(rho, x, v)) by {
                        lemma_novar_update(cs@[k]@, x, rho, v);
                        assert(dnf_holds(cs@, update(rho, x, v)));
                    }
                } else {
                    let v = dnf_bound(cs@, rho) + 1;
                    let r2 = update(rho, x, v);
                    if face_holds(nodes0, f.0 as int, r2) {
                        assert(dnf_holds(cs@, r2));
                        let k = choose|k: int| 0 <= k < cs@.len() && clause_holds(#[trigger] cs@[k]@, r2);
                        let c = cs@[k]@;
                        assert forall|j: int| 0 <= j < c.len() implies !(#[trigger] c[j].0 != c[j].1 && (c[j].0 == Dim::Var(x) || c[j].1 == Dim::Var(x))) by {
                            lemma_dnf_bound(cs@, rho, k, j);
                            assert(dim_val(c[j].0, r2) == dim_val(c[j].1, r2));
                            if c[j].0 != c[j].1 && c[j].0 == Dim::Var(x) {
                                assert(dim_val(c[j].1, r2) == dim_val(c[j].1, rho));
                            }
                            if c[j].0 != c[j].1 && c[j].1 == Dim::Var(x) {
                                assert(dim_val(c[j].0, r2) == dim_val(c[j].0, rho));
                            }
                        }
                        lemma_novar_update(c, x, rho, v);
                        assert(false);
                    }
                }
            }
            assert forall|rho: spec_fn(u32) -> int, v: int|
                #[trigger] self.holds(out, update(rho, x, v)) == self.holds(out, rho) by {
                assert forall|w: int| #[trigger] update(update(rho, x, v), x, w) == update(rho, x, w) by {
                    assert(update(update(rho, x, v), x, w) =~= update(rho, x, w));
                }
                assert((forall|w: int| #[trigger] face_holds(nodes0, f.0 as int, update(update(rho, x, v), x, w)))
                    == (forall|w: int| #[trigger] face_holds(nodes0, f.0 as int, update(rho, x, w)))) by {
                    if forall|w: int| #[trigger] face_holds(nodes0, f.0 as int, update(rho, x, w)) {
                        assert forall|w: int| #[trigger] face_holds(nodes0, f.0 as int, update(update(rho, x, v), x, w)) by {
                            assert(update(update(rho, x, v), x, w) == update(rho, x, w));
                        }
                    }
                    if forall|w: int| #[trigger] face_holds(nodes0, f.0 as int, update(update(rho, x, v), x, w)) {
                        assert forall|w: int| #[trigger] face_holds(nodes0, f.0 as int, update(rho, x, w)) by {
                            assert(update(update(rho, x, v), x, w) == update(rho, x, w));
                        }
                    }
                }
            }
        }
        Ok(out)
    }

    fn project_step(
        &mut self,
        partition: &Partition,
        reps: &mut Vec<(u64, Dim)>,
        projected: &mut FaceId,
        d: Dim,
        Ghost(c): Ghost<Seq<(Dim, Dim)>>,
    )
        requires
            old(self).wf(),
            old(self).valid(*old(projected)),
            part_ok(partition.links@, c),
            forall|k: int|
                0 <= k < old(reps)@.len() ==> #[trigger] old(reps)@[k].0 == proot(partition.links@, dim_key(old(reps)@[k].1)),
            forall|rho: spec_fn(u32) -> int|
                #[trigger] clause_holds(c, rho) ==> old(self).holds(*old(projected), rho),
        ensures
            final(self).wf(),
            grows(old(self)@, final(self)@),
            final(self).valid(*final(projected)),
            forall|k: int|
                0 <= k < final(reps)@.len() ==> #[trigger] final(reps)@[k].0 == proot(partition.links@, dim_key(final(reps)@[k].1)),
            forall|rho: spec_fn(u32) -> int|
                #[trigger] clause_holds(c, rho) ==> final(self).holds(*final(projected), rho),
            (forall|k: int| 0 <= k < old(reps)@.len() ==> (#[trigger] old(reps)@[k]).0 != proot(
                partition.links@,
                dim_key(d),
            )) ==> final(reps)@ == old(reps)@.push((proot(partition.links@, dim_key(d)), d)) && *final(projected)
                == *old(projected),
            (exists|k: int| 0 <= k < old(reps)@.len() && (#[trigger] old(reps)@[k]).0 == proot(
                partition.links@,
                dim_key(d),
            )) ==> final(reps)@ == old(reps)@ && exists|k: int|
                0 <= k < old(reps)@.len() && (#[trigger] old(reps)@[k]).0 == proot(partition.links@, dim_key(d))
                    && forall|rho: spec_fn(u32) -> int|
                    #[trigger] final(self).holds(*final(projected), rho) == (old(self).holds(*old(projected), rho)
                        && dim_val(d, rho) == dim_val(old(reps)@[k].1, rho)),
    {
        let ghost e = partition.links@;
        let root = partition.root(dim_key_of(d));
        let mut previous: Option<Dim> = None;
        let mut m: usize = 0;
        while m < reps.len()
            invariant
                m <= reps@.len(),
                reps@ == old(reps)@,
                previous matches Some(pd) ==> proot(e, dim_key(pd)) == root,
                previous matches Some(pd) ==> exists|k: int|
                    0 <= k < m && (#[trigger] reps@[k]).0 == root && reps@[k].1 == pd,
                previous is None ==> forall|k: int| 0 <= k < m ==> (#[trigger] reps@[k]).0 != root,
                forall|k: int|
                    0 <= k < reps@.len() ==> #[trigger] reps@[k].0 == proot(e, dim_key(reps@[k].1)),
            decreases reps@.len() - m,
        {
            if previous.is_none() && reps[m].0 == root {
                previous = Some(reps[m].1);
            }
            m += 1;
        }
        let ghost before = self@;
        let ghost pj = *projected;
        match previous {
            Some(pd) => {
                let eq = self.eq(d, pd);
                let ghost mid = self@;
                *projected = self.and(*projected, eq);
                proof {
                    lemma_holds_all_extend(before, mid);
                    assert forall|rho: spec_fn(u32) -> int|
                        #[trigger] clause_holds(c, rho) implies face_holds(self@, projected.0 as int, rho) by {
                        assert(face_holds(before, pj.0 as int, rho));
                        assert(face_holds(mid, pj.0 as int, rho));
                        assert(links_sound(e, rho));
                        lemma_root_sound(e, dim_key(d), rho);
                        lemma_root_sound(e, dim_key(pd), rho);
                        lemma_key_roundtrip(d);
                        lemma_key_roundtrip(pd);
                    }
                }
            },
            None => {
                reps.push((root, d));
            },
        }
    }

    /// Existentially forgets the dimensions other than the endpoints and
    /// `keep`, preserving the equalities among retained dimensions.
    #[verifier::loop_isolation(false)]
    pub fn project(&mut self, f: FaceId, keep: &BTreeSet<u32>) -> (r: Result<FaceId>)
        requires
            old(self).wf(),
            old(self).valid(f),
        ensures
            final(self).wf(),
            grows(old(self)@, final(self)@),
            r matches Ok(g) ==> {
                &&& final(self).valid(g)
                &&& forall|rho: spec_fn(u32) -> int|
                    #[trigger] old(self).holds(f, rho) ==> final(self).holds(g, rho)
            },
            atomic(old(self)@[f.0 as int]) ==> r is Ok,
    {
        let ghost nodes0 = self@;
        let cs = self.dnf(f)?;
        let mut out = self.bot();
        let mut i: usize = 0;
        while i < cs.len()
            invariant
                self.wf(),
                grows(nodes0, self@),
                self.valid(out),
                i <= cs@.len(),
                forall|rho: spec_fn(u32) -> int|
                    #[trigger] dnf_prefix(cs@, i as int, rho) ==> self.holds(out, rho),
            decreases cs@.len() - i,
        {
            let ghost start = self@;
            let partition = Partition::new(&cs[i]);
            let ghost e = partition.links@;
            let mut reps: Vec<(u64, Dim)> = Vec::new();
            let mut projected = self.top();
            let ghost before_loop = self@;
            self.project_step(&partition, &mut reps, &mut projected, Dim::Zero, Ghost(cs@[i as int]@));
            self.project_step(&partition, &mut reps, &mut projected, Dim::One, Ghost(cs@[i as int]@));
            proof {
                lemma_u32_keys_ordered();
            }
            for n in keep.iter()
                invariant
                    self.wf(),
                    grows(before_loop, self@),
                    self.valid(projected),
                    e == partition.links@,
                    part_ok(e, cs@[i as int]@),
                    forall|k: int|
                        0 <= k < reps@.len() ==> #[trigger] reps@[k].0 == proot(e, dim_key(reps@[k].1)),
                    forall|rho: spec_fn(u32) -> int|
                        #[trigger] clause_holds(cs@[i as int]@, rho) ==> self.holds(projected, rho),
            {
                self.project_step(&partition, &mut reps, &mut projected, Dim::Var(*n), Ghost(cs@[i as int]@));
            }
            let ghost mid = self@;
            let ghost out0 = out;
            out = self.or(out, projected);
            proof {
                lemma_holds_all_extend(mid, self@);
                lemma_holds_all_extend(before_loop, self@);
                assert forall|rho: spec_fn(u32) -> int|
                    #[trigger] dnf_prefix(cs@, i + 1, rho) implies self.holds(out, rho) by {
                    lemma_dnf_prefix_step(cs@, i as int, rho);
                    if dnf_prefix(cs@, i as int, rho) {
                        assert(face_holds(start, out0.0 as int, rho));
                        lemma_holds_extend(start, mid, out0.0 as int, rho);
                    }
                }
            }
            i += 1;
        }
        proof {
            assert forall|rho: spec_fn(u32) -> int|
                #[trigger] face_holds(nodes0, f.0 as int, rho) implies self.holds(out, rho) by {
                assert(dnf_holds(cs@, rho));
                assert(dnf_prefix(cs@, cs@.len() as int, rho));
            }
        }
        Ok(out)
    }
}

/// The keys of a set of `u32` are ordered as the integers are, so that its
/// iterator visits each once.
proof fn lemma_u32_keys_ordered()
    ensures
        vstd::std_specs::btree::key_obeys_cmp_spec::<u32>(),
{
    broadcast use vstd::laws_cmp::group_laws_cmp;
    broadcast use vstd::std_specs::btree::group_btree_axioms;
}

fn map_dim(t: &[(Dim, Dim)], d: Dim) -> (r: Dim)
    ensures
        r == lookup_dim(t@, d),
{
    let mut i: usize = 0;
    assert(t@.skip(0) =~= t@);
    while i < t.len()
        invariant
            i <= t@.len(),
            lookup_dim(t@, d) == lookup_dim(t@.skip(i as int), d),
        decreases t@.len() - i,
    {
        let (from, to) = t[i];
        assert(t@.skip(i as int)[0] == t@[i as int]);
        if from == d {
            return to;
        }
        assert(t@.skip(i as int).drop_first() =~= t@.skip(i + 1));
        i += 1;
    }
    d
}

/// All dimensions mentioned by face `g` have their keys in `keys`.
pub open spec fn covered(nodes: Seq<Face>, g: int, keys: Seq<u64>) -> bool {
    forall|d: Dim| #[trigger] mentions(nodes, g, d) ==> keys.contains(dim_key(d))
}

/// The face a node becomes when its children are renumbered by `map`.
pub open spec fn remap(f: Face, map: Seq<usize>) -> Face {
    match f {
        Face::And(a, b) => Face::And(FaceId(map[a.0 as int]), FaceId(map[b.0 as int])),
        Face::Or(a, b) => Face::Or(FaceId(map[a.0 as int]), FaceId(map[b.0 as int])),
        _ => f,
    }
}

/// `map` renumbers the live nodes of `old` in order onto `new`.
pub open spec fn compaction(
    old: Seq<Face>,
    new: Seq<Face>,
    live: Seq<bool>,
    map: Seq<usize>,
) -> bool {
    &&& live.len() == old.len()
    &&& map.len() == old.len()
    &&& forall|j: int|
        0 <= j < old.len() && #[trigger] live[j] ==> map[j] < new.len() && new[map[j] as int]
            == remap(old[j], map)
    &&& forall|j: int, k: int|
        0 <= j < k < old.len() && #[trigger] live[j] && #[trigger] live[k] ==> map[j] < map[k]
    &&& forall|j: int|
        0 <= j < old.len() && #[trigger] live[j] ==> match old[j] {
            Face::And(a, b) => live[a.0 as int] && live[b.0 as int],
            Face::Or(a, b) => live[a.0 as int] && live[b.0 as int],
            _ => true,
        }
}

proof fn lemma_compaction_holds(
    old: Seq<Face>,
    new: Seq<Face>,
    live: Seq<bool>,
    map: Seq<usize>,
    i: int,
    rho: spec_fn(u32) -> int,
)
    requires
        face_wf(old),
        compaction(old, new, live, map),
        0 <= i < old.len(),
        live[i],
    ensures
        face_holds(new, map[i] as int, rho) == face_holds(old, i, rho),
    decreases i,
{
    assert(below(old[i], i));
    assert(new[map[i] as int] == remap(old[i], map));
    match old[i] {
        Face::And(a, b) => {
            assert(live[a.0 as int] && live[b.0 as int]);
            lemma_compaction_holds(old, new, live, map, a.0 as int, rho);
            lemma_compaction_holds(old, new, live, map, b.0 as int, rho);
        },
        Face::Or(a, b) => {
            assert(live[a.0 as int] && live[b.0 as int]);
            lemma_compaction_holds(old, new, live, map, a.0 as int, rho);
            lemma_compaction_holds(old, new, live, map, b.0 as int, rho);
        },
        _ => {},
    }
}

impl Faces {
    /// Replaces every dimension of `f` by its image under the table `t`.
    pub fn substitute(&mut self, f: FaceId, t: &[(Dim, Dim)]) -> (r: FaceId)
        requires
            old(self).wf(),
            old(self).valid(f),
        ensures
            final(self).wf(),
            grows(old(self)@, final(self)@),
            final(self).valid(r),
            forall|rho: spec_fn(u32) -> int|
                #[trigger] final(self).holds(r, rho) == face_holds_sub(old(self)@, f.0 as int, t@, rho),
        decreases f.0,
    {
        let ghost s0 = self@;
        match self.get(f) {
            Face::Top => self.top(),
            Face::Bot => self.bot(),
            Face::Eq(a, b) => {
                let a2 = map_dim(t, a);
                let b2 = map_dim(t, b);
                self.eq(a2, b2)
            },
            Face::And(a, b) => {
                let x = self.substitute(a, t);
                let ghost s1 = self@;
                let y = self.substitute(b, t);
                let ghost s2 = self@;
                let r = self.and(x, y);
                proof {
                    assert forall|rho: spec_fn(u32) -> int|
                        #[trigger] face_holds(self@, r.0 as int, rho) == face_holds_sub(s0, f.0 as int, t@, rho) by {
                        lemma_holds_extend(s1, s2, x.0 as int, rho);
                        lemma_holds_sub_extend(s0, s1, b.0 as int, t@, rho);
                    }
                }
                r
            },
            Face::Or(a, b) => {
                let x = self.substitute(a, t);
                let ghost s1 = self@;
                let y = self.substitute(b, t);
                let ghost s2 = self@;
                let r = self.or(x, y);
                proof {
                    assert forall|rho: spec_fn(u32) -> int|
                        #[trigger] face_holds(self@, r.0 as int, rho) == face_holds_sub(s0, f.0 as int, t@, rho) by {
                        lemma_holds_extend(s1, s2, x.0 as int, rho);
                        lemma_holds_sub_extend(s0, s1, b.0 as int, t@, rho);
                    }
                }
                r
            },
        }
    }

    fn collect_dims(&self, f: FaceId, seen: &mut Vec<bool>, keys: &mut Vec<u64>)
        requires
            self.wf(),
            self.valid(f),
            old(seen)@.len() == self@.len(),
            strictly_sorted(old(keys)@),
            forall|g: int| 0 <= g < old(seen)@.len() && #[trigger] old(seen)@[g] ==> covered(self@, g, old(keys)@),
        ensures
            final(seen)@.len() == self@.len(),
            strictly_sorted(final(keys)@),
            forall|g: int| 0 <= g < final(seen)@.len() && #[trigger] final(seen)@[g] ==> covered(self@, g, final(keys)@),
            covered(self@, f.0 as int, final(keys)@),
            forall|z: u64| #[trigger] old(keys)@.contains(z) ==> final(keys)@.contains(z),
            forall|z: u64| #[trigger] final(keys)@.contains(z) ==> old(keys)@.contains(z) || exists|d: Dim|
                mentions(self@, f.0 as int, d) && z == dim_key(d),
        decreases f.0,
    {
        let ghost nodes = self@;
        if seen[f.0] {
            assert(covered(nodes, f.0 as int, keys@));
            return;
        }
        let ghost k0 = keys@;
        match self.get(f) {
            Face::Eq(a, b) => {
                insert_sorted(keys, dim_key_of(a));
                insert_sorted(keys, dim_key_of(b));
                proof {
                    assert forall|z: u64| #[trigger] keys@.contains(z) implies k0.contains(z) || exists|d: Dim|
                        mentions(nodes, f.0 as int, d) && z == dim_key(d) by {
                        if !k0.contains(z) {
                            if z == dim_key(a) {
                                assert(mentions(nodes, f.0 as int, a));
                            } else {
                                assert(mentions(nodes, f.0 as int, b));
                            }
                        }
                    }
                }
            },
            Face::And(a, b) | Face::Or(a, b) => {
                self.collect_dims(a, seen, keys);
                let ghost k1 = keys@;
                self.collect_dims(b, seen, keys);
                proof {
                    assert(below(nodes[f.0 as int], f.0 as int));
                    assert forall|d: Dim| #[trigger] mentions(nodes, f.0 as int, d) implies keys@.contains(dim_key(d)) by {
                        assert(mentions(nodes, a.0 as int, d) || mentions(nodes, b.0 as int, d));
                        if mentions(nodes, a.0 as int, d) {
                            assert(covered(nodes, a.0 as int, k1));
                            assert(k1.contains(dim_key(d)));
                        } else {
                            assert(covered(nodes, b.0 as int, keys@));
                        }
                    }
                    assert forall|z: u64| #[trigger] keys@.contains(z) implies k0.contains(z) || exists|d: Dim|
                        mentions(nodes, f.0 as int, d) && z == dim_key(d) by {
                        if !k0.contains(z) && !k1.contains(z) {
                            let d = choose|d: Dim| mentions(nodes, b.0 as int, d) && z == dim_key(d);
                            assert(mentions(nodes, f.0 as int, d));
                        } else if !k0.contains(z) {
                            let d = choose|d: Dim| mentions(nodes, a.0 as int, d) && z == dim_key(d);
                            assert(mentions(nodes, f.0 as int, d));
                        }
                    }
                }
            },
            _ => {},
        }
        let ghost s1 = seen@;
        seen.set(f.0, true);
        proof {
            assert forall|g: int| 0 <= g < seen@.len() && #[trigger] seen@[g] implies covered(nodes, g, keys@) by {
                if g != f.0 {
                    assert(s1[g]);
                    assert(covered(nodes, g, k0) || covered(nodes, g, keys@));
                    assert forall|d: Dim| #[trigger] mentions(nodes, g, d) implies keys@.contains(dim_key(d)) by {
                        if !covered(nodes, g, keys@) {
                            assert(k0.contains(dim_key(d)));
                        }
                    }
                }
            }
        }
    }

    /// The dimensions occurring in `f`, in increasing key order, each once.
    pub fn dimensions(&self, f: FaceId) -> (r: Vec<Dim>)
        requires
            self.wf(),
            self.valid(f),
        ensures
            forall|d: Dim| r@.contains(d) <==> mentions(self@, f.0 as int, d),
            forall|i: int, j: int| 0 <= i < j < r@.len() ==> dim_key(r@[i]) < dim_key(r@[j]),
    {
        let mut seen: Vec<bool> = Vec::new();
        let mut n: usize = 0;
        while n < self.len()
            invariant
                n <= self@.len(),
                seen@.len() == n,
                forall|g: int| 0 <= g < n ==> !#[trigger] seen@[g],
            decreases self@.len() - n,
        {
            seen.push(false);
            n += 1;
        }
        let mut keys: Vec<u64> = Vec::new();
        self.collect_dims(f, &mut seen, &mut keys);
        let mut out: Vec<Dim> = Vec::new();
        let mut i: usize = 0;
        while i < keys.len()
            invariant
                i <= keys@.len(),
                out@.len() == i,
                strictly_sorted(keys@),
                forall|z: u64| #[trigger] keys@.contains(z) ==> exists|d: Dim|
                    mentions(self@, f.0 as int, d) && z == dim_key(d),
                forall|k: int| 0 <= k < i ==> dim_key(#[trigger] out@[k]) == keys@[k],
            decreases keys@.len() - i,
        {
            proof {
                assert(keys@.contains(keys@[i as int]));
            }
            out.push(dim_of_key(keys[i]));
            i += 1;
        }
        proof {
            assert forall|d: Dim| out@.contains(d) <==> mentions(self@, f.0 as int, d) by {
                if out@.contains(d) {
                    let k = choose|k: int| 0 <= k < out@.len() && out@[k] == d;
                    assert(keys@.contains(keys@[k]));
                    let d2 = choose|d2: Dim| mentions(self@, f.0 as int, d2) && keys@[k] == dim_key(d2);
                    lemma_key_roundtrip(d);
                    lemma_key_roundtrip(d2);
                }
                if mentions(self@, f.0 as int, d) {
                    assert(keys@.contains(dim_key(d)));
                    let k = choose|k: int| 0 <= k < keys@.len() && keys@[k] == dim_key(d);
                    lemma_key_roundtrip(d);
                    lemma_key_roundtrip(out@[k]);
                    assert(out@[k] == d);
                }
            }
        }
        out
    }

    /// Keeps only the faces reachable from `roots`, renumbering them in order.
    /// Rewrites `roots` to the new numbering and returns, for every old face,
    /// its new number (or `usize::MAX` for a dropped face).
    pub fn compact(&mut self, roots: &mut Vec<FaceId>) -> (map: Vec<usize>)
        requires
            old(self).wf(),
            forall|k: int| 0 <= k < old(roots)@.len() ==> old(self).valid(#[trigger] old(roots)@[k]),
        ensures
            final(self).wf(),
            map@.len() == old(self)@.len(),
            final(roots)@.len() == old(roots)@.len(),
            forall|k: int| 0 <= k < final(roots)@.len() ==> {
                &&& final(self).valid(#[trigger] final(roots)@[k])
                &&& final(roots)@[k].0 == map@[old(roots)@[k].0 as int]
            },
            forall|k: int| 0 <= k < map@.len() && map@[k] != usize::MAX ==> #[trigger] map@[k] < final(self)@.len(),
            forall|k: int, rho: spec_fn(u32) -> int|
                0 <= k < final(roots)@.len() ==> #[trigger] face_holds(final(self)@, final(roots)@[k].0 as int, rho)
                    == face_holds(old(self)@, old(roots)@[k].0 as int, rho),
    {
        let ghost old_nodes = self@;
        let n = self.len();
        let mut live: Vec<bool> = Vec::new();
        let mut i: usize = 0;
        while i < n
            invariant
                n == old_nodes.len(),
                i <= n,
                live@.len() == i,
                forall|g: int| 0 <= g < i ==> !#[trigger] live@[g],
            decreases n - i,
        {
            live.push(false);
            i += 1;
        }
        let mut r: usize = 0;
        while r < roots.len()
            invariant
                self@ == old_nodes,
                n == old_nodes.len(),
                live@.len() == n,
                r <= roots@.len(),
                forall|k: int| 0 <= k < roots@.len() ==> (#[trigger] roots@[k]).0 < n,
                forall|k: int| 0 <= k < r ==> live@[(#[trigger] roots@[k]).0 as int],
            decreases roots@.len() - r,
        {
            live.set(roots[r].0, true);
            r += 1;
        }
        let mut i: usize = n;
        while i > 0
            invariant
                self.wf(),
                self@ == old_nodes,
                n == old_nodes.len(),
                live@.len() == n,
                i <= n,
                forall|k: int| 0 <= k < roots@.len() ==> (#[trigger] roots@[k]).0 < n,
                forall|k: int| 0 <= k < roots@.len() ==> live@[(#[trigger] roots@[k]).0 as int],
                forall|j: int|
                    i <= j < n && #[trigger] live@[j] ==> match old_nodes[j] {
                        Face::And(a, b) => live@[a.0 as int] && live@[b.0 as int],
                        Face::Or(a, b) => live@[a.0 as int] && live@[b.0 as int],
                        _ => true,
                    },
            decreases i,
        {
            i -= 1;
            if live[i] {
                let ghost before = live@;
                match self.get(FaceId(i)) {
                    Face::And(a, b) | Face::Or(a, b) => {
                        proof {
                            assert(below(old_nodes[i as int], i as int));
                        }
                        live.set(a.0, true);
                        live.set(b.0, true);
                    },
                    _ => {},
                }
                proof {
                    assert forall|j: int| i <= j < n && #[trigger] live@[j] implies match old_nodes[j] {
                        Face::And(a, b) => live@[a.0 as int] && live@[b.0 as int],
                        Face::Or(a, b) => live@[a.0 as int] && live@[b.0 as int],
                        _ => true,
                    } by {
                        if j > i {
                            assert(before[j]);
                        }
                    }
                }
            }
        }
        let mut nodes: Arena<Face> = Arena::new();
        let mut intern: IdMap<Face, FaceId> = IdMap::default();
        let mut map: Vec<usize> = Vec::new();
        let ghost mut inv: Seq<int> = Seq::empty();
        let mut i: usize = 0;
        while i < n
            invariant
                self@ == old_nodes,
                face_wf(old_nodes),
                n == old_nodes.len(),
                live@.len() == n,
                i <= n,
                map@.len() == i,
                inv.len() == nodes@.len(),
                forall|k: int| 0 <= k < roots@.len() ==> (#[trigger] roots@[k]).0 < n,
                forall|k: int| 0 <= k < roots@.len() ==> live@[(#[trigger] roots@[k]).0 as int],
                forall|j: int|
                    0 <= j < n && #[trigger] live@[j] ==> match old_nodes[j] {
                        Face::And(a, b) => live@[a.0 as int] && live@[b.0 as int],
                        Face::Or(a, b) => live@[a.0 as int] && live@[b.0 as int],
                        _ => true,
                    },
                forall|j: int| 0 <= j < i && !#[trigger] live@[j] ==> map@[j] == usize::MAX,
                forall|j: int|
                    0 <= j < i && #[trigger] live@[j] ==> map@[j] < nodes@.len() && nodes@[map@[j] as int]
                        == remap(old_nodes[j], map@) && inv[map@[j] as int] == j,
                forall|j: int, k: int|
                    0 <= j < k < i && #[trigger] live@[j] && #[trigger] live@[k] ==> map@[j] < map@[k],
                forall|m: int|
                    0 <= m < inv.len() ==> 0 <= #[trigger] inv[m] < i && live@[inv[m]] && map@[inv[m]] == m,
                face_wf(nodes@),
                nodes@.len() <= i,
            decreases n - i,
        {
            if live[i] {
                let f = match self.get(FaceId(i)) {
                    Face::And(a, b) => Face::And(FaceId(map[a.0]), FaceId(map[b.0])),
                    Face::Or(a, b) => Face::Or(FaceId(map[a.0]), FaceId(map[b.0])),
                    other => other,
                };
                proof {
                    assert(below(old_nodes[i as int], i as int));
                }
                let ghost before = nodes@;
                let key = nodes.store(f);
                intern.insert(f, FaceId(key));
                map.push(key);
                proof {
                    inv = inv.push(i as int);
                    assert(f == remap(old_nodes[i as int], map@));
                    assert forall|m: int| 0 <= m < nodes@.len() implies below(#[trigger] nodes@[m], m) by {
                        if m < before.len() {
                            assert(nodes@[m] == before[m]);
                        }
                    }
                }
            } else {
                map.push(usize::MAX);
            }
            i += 1;
        }
        let mut k: usize = 0;
        let ghost old_roots = roots@;
        while k < roots.len()
            invariant
                k <= roots@.len(),
                roots@.len() == old_roots.len(),
                map@.len() == n,
                forall|j: int| 0 <= j < old_roots.len() ==> (#[trigger] old_roots[j]).0 < n && live@[old_roots[j].0 as int],
                forall|j: int| 0 <= j < k ==> (#[trigger] roots@[j]).0 == map@[old_roots[j].0 as int],
                forall|j: int| k <= j < roots@.len() ==> #[trigger] roots@[j] == old_roots[j],
            decreases roots@.len() - k,
        {
            let m = map[roots[k].0];
            roots.set(k, FaceId(m));
            k += 1;
        }
        self.nodes = nodes;
        self.intern = intern;
        self.dnf_cache = Vec::new();
        self.cached = 0;
        proof {
            assert forall|k: int| 0 <= k < map@.len() && map@[k] != usize::MAX implies #[trigger] map@[k] < self@.len() by {
                if !live@[k] {
                    assert(map@[k] == usize::MAX);
                }
            }
            assert(compaction(old_nodes, self@, live@, map@));
            assert forall|k: int, rho: spec_fn(u32) -> int|
                0 <= k < roots@.len() implies #[trigger] face_holds(self@, roots@[k].0 as int, rho)
                    == face_holds(old_nodes, old_roots[k].0 as int, rho) by {
                lemma_compaction_holds(old_nodes, self@, live@, map@, old_roots[k].0 as int, rho);
            }
        }
        map
    }
}

} // verus!
