use vstd::prelude::*;

pub mod arena;
pub mod face;
pub mod text;
pub mod syntax;
pub mod capture;
pub mod support;
pub mod eval;
pub mod glue;
pub mod check;
pub mod quote;
pub mod collect;
pub mod normal_dag;
pub mod hash;

use crate::eval::{Engine, Env};
use crate::text::{decimal, push_decimal};
use vstd::string::StringExecFns;
use vstd::string::StringSliceAdditionalSpecFns;
use core::time::Duration;
use std::time::Instant;

verus! {

#[derive(Clone, Debug)]
pub struct Error {
    pub offset: Option<usize>,
    pub message: String,
}

pub type Result<T> = std::result::Result<T, Error>;

/// Bounds parser allocation; evaluation has separate work and arena budgets.
pub const MAX_SOURCE_BYTES: usize = 4194304;

/// Budgets and the evaluation mode of a check or a normalization.
#[derive(Clone, Copy, Debug)]
pub struct Options {
    pub fuel: u64,
    pub optimized: bool,
    pub max_nodes: usize,
    /// Maximum UTF-8 bytes in the materialized normal form (default 16 MiB).
    pub max_output_bytes: usize,
    /// Maximum pending tasks on the iterative quotation stack.
    /// Quotation also consumes the shared fuel budget.
    pub max_quote_tasks: usize,
}

impl Default for Options {
    fn default() -> (r: Self)
        ensures
            r.fuel == 1_000_000,
            r.optimized,
            r.max_nodes == 250_000,
            r.max_output_bytes == 16 * 1024 * 1024,
            r.max_quote_tasks == 250_000,
    {
        Options {
            fuel: 1_000_000,
            optimized: true,
            max_nodes: 250_000,
            max_output_bytes: 16777216,
            max_quote_tasks: 250_000,
        }
    }
}

/// Counters of one evaluation session.
#[derive(Clone, Debug)]
pub struct Statistics {
    pub steps: u64,
    pub value_nodes: usize,
    pub environment_nodes: usize,
    pub substitution_nodes: usize,
    pub face_nodes: usize,
    /// Currently retained arena capacities, including Vec payloads. Excludes hash maps,
    /// allocator metadata, syntax, stack, and temporary face-solver allocations.
    pub arena_bytes: usize,
    pub cache_entries: usize,
    /// Fresh value nodes allocated over the entire session, excluding GC copies.
    pub allocated_values: usize,
    pub collections: usize,
    pub reclaimed_nodes: usize,
}

impl Default for Statistics {
    fn default() -> (r: Self)
        ensures
            r.steps == 0 && r.value_nodes == 0 && r.environment_nodes == 0 && r.substitution_nodes == 0
                && r.face_nodes == 0 && r.arena_bytes == 0 && r.cache_entries == 0 && r.allocated_values == 0
                && r.collections == 0 && r.reclaimed_nodes == 0,
    {
        Statistics {
            steps: 0,
            value_nodes: 0,
            environment_nodes: 0,
            substitution_nodes: 0,
            face_nodes: 0,
            arena_bytes: 0,
            cache_entries: 0,
            allocated_values: 0,
            collections: 0,
            reclaimed_nodes: 0,
        }
    }
}

/// A normal form and the counters of the session that produced it.
#[derive(Debug)]
pub struct NormalForm {
    pub text: String,
    pub statistics: Statistics,
}

/// Immutable checked syntax. Semantic identifiers never cross this API boundary.
pub struct CheckedProgram {
    program: syntax::Program,
}

/// A body that is a universe, base type or constant, declared at a literal
/// type, has exactly that type.
pub open spec fn atom_typed(body: syntax::Term, ty: syntax::Term) -> bool {
    check::atom_type(body) is Some && eval::literal(ty) is Some ==> check::atom_type(body)->Some_0
        == eval::literal(ty)->Some_0
}

/// `t` is a literal universe, base type or constant, printed as itself.
pub open spec fn literal_atom(t: syntax::Term) -> bool {
    eval::literal(t) matches Some(x) && quote::printed_constant(x) is Some
}

/// The text of a literal atom.
pub open spec fn atom_text(t: syntax::Term) -> Seq<char> {
    quote::printed_constant(eval::literal(t)->Some_0)->Some_0
}

/// Each declaration of `p` whose type or body the declaration forms `xs` of
/// `source` write as a constant's name or as `(U n)` has that constant or
/// universe as its type or body.
pub open spec fn reads_constants(p: CheckedProgram, source: Seq<u8>, xs: Seq<syntax::S>) -> bool {
    forall|k: int|
        0 <= k < xs.len() ==> syntax::constant_item(source, syntax::declared_part(xs[k], 2), #[trigger] p.type_term(k))
            && syntax::constant_item(source, syntax::declared_part(xs[k], 3), p.body_term(k)) && syntax::universe_item(
            source,
            syntax::declared_part(xs[k], 2),
            p.type_term(k),
        ) && syntax::universe_item(source, syntax::declared_part(xs[k], 3), p.body_term(k))
}

/// `name` is the name of one of the declarations that `source` holds.
pub open spec fn declares(source: Seq<u8>, name: Seq<char>) -> bool {
    exists|xs: Seq<syntax::S>, k: int|
        #![trigger syntax::declared_name(source, xs[k])]
        syntax::all_end(source, 0, xs) is Some && 0 <= k < xs.len() && vstd::utf8::encode_utf8(name)
            == syntax::declared_name(source, xs[k])
}

/// The message of a lookup of an unknown declaration.
pub open spec fn unknown_declaration(name: Seq<char>) -> Seq<char> {
    "unknown declaration '"@ + name + "'"@
}

impl CheckedProgram {
    #[verifier::type_invariant]
    spec fn well_formed(self) -> bool {
        self.program.wf() && syntax::names_distinct(self.program.decls@)
    }

    /// The names of the declarations, in order.
    pub closed spec fn declared(&self) -> Seq<Seq<char>> {
        Seq::new(self.program.decls@.len(), |i: int| self.program.decls@[i].name@)
    }

    /// The syntax of the body of declaration `i`.
    pub closed spec fn body_term(&self, i: int) -> syntax::Term {
        self.program.terms@[self.program.decls@[i].body.0 as int].term
    }

    /// The syntax of the type of declaration `i`.
    pub closed spec fn type_term(&self, i: int) -> syntax::Term {
        self.program.terms@[self.program.decls@[i].ty.0 as int].term
    }

    /// Parses `source` and checks every declaration with the default options.
    pub fn check(source: &str) -> (r: Result<CheckedProgram>)
        ensures
            source.spec_bytes().len() > MAX_SOURCE_BYTES ==> (r matches Err(e) && e.offset.is_none()
                && e.message@ == "source size budget exceeded (maximum 4 MiB)"@),
            source.spec_bytes().len() <= MAX_SOURCE_BYTES ==> (syntax::read_all(source.spec_bytes(), 0) matches Err(
                (o, m),
            ) ==> (r matches Err(e) && e.offset == Some(o as usize) && e.message@ == m)),
            r is Ok ==> syntax::read_all(source.spec_bytes(), 0) is Ok,
            source.spec_bytes().len() <= MAX_SOURCE_BYTES ==> (r matches Err(e) ==> !(e.offset is None && e.message@
                == "source size budget exceeded (maximum 4 MiB)"@)),
            r matches Err(e) ==> source.spec_bytes().len() > MAX_SOURCE_BYTES || e.offset is Some || (exists|name: Seq<char>|
                declares(source.spec_bytes(), name) && check::declaration_error(e, name)) || eval::internal_error(e),
            r matches Ok(p) ==> exists|xs: Seq<syntax::S>|
                #![trigger syntax::all_end(source.spec_bytes(), 0, xs)]
                syntax::all_end(source.spec_bytes(), 0, xs) is Some && p.declared().len() == xs.len() && (forall|k: int|
                    0 <= k < xs.len() ==> vstd::utf8::encode_utf8(#[trigger] p.declared()[k]) == syntax::declared_name(
                        source.spec_bytes(),
                        xs[k],
                    )) && reads_constants(p, source.spec_bytes(), xs),
            r matches Ok(p) ==> forall|i: int, j: int|
                0 <= i < j < p.declared().len() ==> #[trigger] p.declared()[i] != #[trigger] p.declared()[j],
            r matches Ok(p) ==> forall|i: int|
                0 <= i < p.declared().len() ==> !check::not_a_type(#[trigger] p.type_term(i)),
            r matches Ok(p) ==> forall|i: int|
                0 <= i < p.declared().len() ==> atom_typed(#[trigger] p.body_term(i), p.type_term(i)),
    {
        Self::check_with(source, Options::default())
    }

    /// Parses `source` and checks every declaration, each in a fresh evaluation session.
    pub fn check_with(source: &str, options: Options) -> (r: Result<CheckedProgram>)
        ensures
            source.spec_bytes().len() > MAX_SOURCE_BYTES ==> (r matches Err(e) && e.offset.is_none()
                && e.message@ == "source size budget exceeded (maximum 4 MiB)"@),
            source.spec_bytes().len() <= MAX_SOURCE_BYTES ==> (syntax::read_all(source.spec_bytes(), 0) matches Err(
                (o, m),
            ) ==> (r matches Err(e) && e.offset == Some(o as usize) && e.message@ == m)),
            r is Ok ==> syntax::read_all(source.spec_bytes(), 0) is Ok,
            r matches Ok(p) ==> p.declared().len() > 0 ==> options.fuel > 0,
            r matches Err(e) ==> source.spec_bytes().len() > MAX_SOURCE_BYTES || e.offset is Some || (exists|name: Seq<char>|
                declares(source.spec_bytes(), name) && check::declaration_error(e, name)) || (options.optimized
                && eval::internal_error(e)),
            source.spec_bytes().len() <= MAX_SOURCE_BYTES ==> (r matches Err(e) ==> !(e.offset is None && e.message@
                == "source size budget exceeded (maximum 4 MiB)"@)),
            r matches Ok(p) ==> exists|xs: Seq<syntax::S>|
                #![trigger syntax::all_end(source.spec_bytes(), 0, xs)]
                syntax::all_end(source.spec_bytes(), 0, xs) is Some && p.declared().len() == xs.len() && (forall|k: int|
                    0 <= k < xs.len() ==> vstd::utf8::encode_utf8(#[trigger] p.declared()[k]) == syntax::declared_name(
                        source.spec_bytes(),
                        xs[k],
                    )) && reads_constants(p, source.spec_bytes(), xs),
            r matches Ok(p) ==> forall|i: int, j: int|
                0 <= i < j < p.declared().len() ==> #[trigger] p.declared()[i] != #[trigger] p.declared()[j],
            r matches Ok(p) ==> forall|i: int|
                0 <= i < p.declared().len() ==> !check::not_a_type(#[trigger] p.type_term(i)),
            r matches Ok(p) ==> forall|i: int|
                0 <= i < p.declared().len() ==> atom_typed(#[trigger] p.body_term(i), p.type_term(i)),
    {
        if source.as_bytes().len() > MAX_SOURCE_BYTES {
            return Err(Error::plain("source size budget exceeded (maximum 4 MiB)"));
        }
        let program = syntax::parse(source)?;
        let mut index: usize = 0;
        while index < program.decls.len()
            invariant
                program.wf(),
                syntax::names_distinct(program.decls@),
                source.spec_bytes().len() <= MAX_SOURCE_BYTES,
                syntax::read_all(source.spec_bytes(), 0) is Ok,
                exists|xs: Seq<syntax::S>|
                    #![trigger syntax::all_end(source.spec_bytes(), 0, xs)]
                    syntax::all_end(source.spec_bytes(), 0, xs) matches Some(m) && syntax::skip(source.spec_bytes(), m)
                        == source.spec_bytes().len() && program.decls@.len() == xs.len() && (forall|k: int|
                        0 <= k < xs.len() ==> syntax::name_bytes(#[trigger] program.decls@[k]) == syntax::declared_name(
                            source.spec_bytes(),
                            xs[k],
                        )) && syntax::constants_read(source.spec_bytes(), program.terms@, program.decls@, xs),
                index > 0 ==> options.fuel > 0,
                forall|k: int|
                    0 <= k < index ==> check::atom_declaration_typed(program.terms@, #[trigger] program.decls@[k]),
                forall|k: int|
                    0 <= k < index ==> !check::not_a_type(
                        #[trigger] program.terms@[program.decls@[k].ty.0 as int].term,
                    ),
            decreases program.decls@.len() - index,
        {
            let mut engine = Engine::new(&program, options.optimized, options.fuel, options.max_nodes);
            match engine.check_declaration(index) {
                Ok(()) => {},
                Err(e) => {
                    proof {
                        let xs = choose|xs: Seq<syntax::S>|
                            #![trigger syntax::all_end(source.spec_bytes(), 0, xs)]
                            syntax::all_end(source.spec_bytes(), 0, xs) matches Some(m) && syntax::skip(source.spec_bytes(), m)
                                == source.spec_bytes().len() && program.decls@.len() == xs.len() && forall|k: int|
                                0 <= k < xs.len() ==> syntax::name_bytes(#[trigger] program.decls@[k])
                                    == syntax::declared_name(source.spec_bytes(), xs[k]);
                        let name = program.decls@[index as int].name@;
                        assert(syntax::name_bytes(program.decls@[index as int]) == syntax::declared_name(
                            source.spec_bytes(),
                            xs[index as int],
                        ));
                        assert(declares(source.spec_bytes(), name));
                        reveal_strlit("source size budget exceeded (maximum 4 MiB)");
                        reveal_strlit("checking type of ");
                        reveal_strlit("checking ");
                        reveal_strlit("evaluation budget exhausted (not a proof rejection); increase --fuel");
                        reveal_strlit("arena node budget exhausted; computation stopped before further evaluation");
                        reveal_strlit("internal error: ");
                        if e.offset is None && e.message@ == "source size budget exceeded (maximum 4 MiB)"@ {
                            assert(e.message@[0] == 's');
                            assert forall|m: Seq<char>| e.message@ != "internal error: "@ + m by {
                                assert(("internal error: "@ + m)[0] == "internal error: "@[0]);
                            }
                            assert forall|name: Seq<char>, m: Seq<char>| e.message@ != "checking type of "@ + name + ": "@ + m by {
                                assert(("checking type of "@ + name + ": "@ + m)[0] == "checking type of "@[0]);
                            }
                            assert forall|name: Seq<char>, m: Seq<char>| e.message@ != "checking "@ + name + ": "@ + m by {
                                assert(("checking "@ + name + ": "@ + m)[0] == "checking "@[0]);
                            }
                            assert(crate::eval::FUEL_EXHAUSTED@[0] == 'e');
                            assert(crate::eval::NODE_BUDGET_EXHAUSTED@[0] == 'a');
                        }
                    }
                    return Err(e);
                },
            }
            index += 1;
        }
        let checked = CheckedProgram { program };
        proof {
            let xs = choose|xs: Seq<syntax::S>|
                #![trigger syntax::all_end(source.spec_bytes(), 0, xs)]
                syntax::all_end(source.spec_bytes(), 0, xs) matches Some(m) && syntax::skip(source.spec_bytes(), m)
                    == source.spec_bytes().len() && checked.program.decls@.len() == xs.len() && (forall|k: int|
                    0 <= k < xs.len() ==> syntax::name_bytes(#[trigger] checked.program.decls@[k])
                        == syntax::declared_name(source.spec_bytes(), xs[k])) && syntax::constants_read(
                    source.spec_bytes(),
                    checked.program.terms@,
                    checked.program.decls@,
                    xs,
                );
            assert forall|k: int| 0 <= k < xs.len() implies syntax::constant_item(
                source.spec_bytes(),
                syntax::declared_part(xs[k], 2),
                #[trigger] checked.type_term(k),
            ) && syntax::constant_item(source.spec_bytes(), syntax::declared_part(xs[k], 3), checked.body_term(k))
                && syntax::universe_item(source.spec_bytes(), syntax::declared_part(xs[k], 2), checked.type_term(k))
                && syntax::universe_item(source.spec_bytes(), syntax::declared_part(xs[k], 3), checked.body_term(k)) by {
                assert(checked.program.decls@[k] == checked.program.decls@[k]);
            }
            assert(reads_constants(checked, source.spec_bytes(), xs));
            assert forall|k: int| 0 <= k < xs.len() implies vstd::utf8::encode_utf8(#[trigger] checked.declared()[k])
                == syntax::declared_name(source.spec_bytes(), xs[k]) by {
                assert(syntax::name_bytes(checked.program.decls@[k]) == syntax::declared_name(source.spec_bytes(), xs[k]));
            }
        }
        assert(forall|i: int| 0 <= i < checked.declared().len() ==> checked.type_term(i)
            == checked.program.terms@[checked.program.decls@[i].ty.0 as int].term);
        assert forall|i: int| 0 <= i < checked.declared().len() implies atom_typed(
            #[trigger] checked.body_term(i),
            checked.type_term(i),
        ) by {
            assert(check::atom_declaration_typed(checked.program.terms@, checked.program.decls@[i]));
        }
        assert forall|i: int, j: int| 0 <= i < j < checked.declared().len() implies #[trigger] checked.declared()[i]
            != #[trigger] checked.declared()[j] by {
            assert(syntax::name_bytes(checked.program.decls@[i]) != syntax::name_bytes(checked.program.decls@[j]));
        }
        Ok(checked)
    }

    /// The names of the declarations, in order.
    pub fn names(&self) -> (r: Vec<String>)
        ensures
            r@.len() == self.declared().len(),
            forall|i: int| 0 <= i < r@.len() ==> (#[trigger] r@[i])@ == self.declared()[i],
    {
        let mut out: Vec<String> = Vec::new();
        let mut i: usize = 0;
        while i < self.program.decls.len()
            invariant
                i <= self.program.decls@.len(),
                out@.len() == i,
                forall|k: int| 0 <= k < i ==> (#[trigger] out@[k])@ == self.program.decls@[k].name@,
            decreases self.program.decls@.len() - i,
        {
            out.push(self.program.decls[i].name.clone());
            i += 1;
        }
        out
    }

    /// The index of the declaration named `name`.
    fn lookup(&self, name: &str) -> (r: Result<usize>)
        ensures
            r matches Ok(i) ==> i < self.declared().len() && self.declared()[i as int] == name@,
            r is Err <==> forall|i: int| 0 <= i < self.declared().len() ==> self.declared()[i] != name@,
            r matches Err(e) ==> e.offset.is_none() && e.message@ == unknown_declaration(name@),
    {
        let key = name.to_owned();
        let mut i: usize = 0;
        while i < self.program.decls.len()
            invariant
                i <= self.program.decls@.len(),
                key@ == name@,
                forall|k: int| 0 <= k < i ==> self.program.decls@[k].name@ != name@,
            decreases self.program.decls@.len() - i,
        {
            if self.program.decls[i].name == key {
                assert(self.declared()[i as int] == name@);
                return Ok(i);
            }
            i += 1;
        }
        let mut message = "unknown declaration '".to_owned();
        message.append(name);
        message.append("'");
        Err(Error { offset: None, message })
    }

    /// The normal form of declaration `name` with the default options.
    pub fn normalize(&self, name: &str) -> (r: Result<NormalForm>)
        ensures
            (forall|i: int| 0 <= i < self.declared().len() ==> self.declared()[i] != name@) ==> (r matches Err(e)
                && e.offset.is_none() && e.message@ == unknown_declaration(name@)),
            r is Ok ==> exists|i: int| 0 <= i < self.declared().len() && self.declared()[i] == name@,
            r matches Ok(nf) ==> nf.statistics.steps <= 1_000_000,
            r matches Ok(nf) ==> text::utf8_len(nf.text@) <= 16 * 1024 * 1024,
            (exists|i: int| 0 <= i < self.declared().len() && self.declared()[i] == name@) ==> (r matches Err(e)
                ==> e.message@ != unknown_declaration(name@)),
            forall|i: int|
                0 <= i < self.declared().len() && self.declared()[i] == name@ && literal_atom(#[trigger] self.body_term(i))
                    && eval::literal(self.type_term(i)) is Some ==> (r matches Ok(nf) ==> nf.text@ == atom_text(
                    self.body_term(i),
                )),
            forall|i: int|
                0 <= i < self.declared().len() && self.declared()[i] == name@ && literal_atom(#[trigger] self.body_term(i))
                    && eval::literal(self.type_term(i)) is Some && text::utf8_len(atom_text(self.body_term(i))) <= 16 * 1024
                    * 1024 ==> r is Ok,
    {
        self.normalize_with(name, Options::default())
    }

    /// The normal form of declaration `name`: its body quoted at its type.
    pub fn normalize_with(&self, name: &str, options: Options) -> (r: Result<NormalForm>)
        ensures
            (forall|i: int| 0 <= i < self.declared().len() ==> self.declared()[i] != name@) ==> (r matches Err(e)
                && e.offset.is_none() && e.message@ == unknown_declaration(name@)),
            r is Ok ==> exists|i: int| 0 <= i < self.declared().len() && self.declared()[i] == name@,
            r matches Ok(nf) ==> nf.statistics.steps <= options.fuel,
            r is Ok ==> options.fuel > 0,
            r matches Ok(nf) ==> text::utf8_len(nf.text@) <= options.max_output_bytes,
            (exists|i: int| 0 <= i < self.declared().len() && self.declared()[i] == name@) ==> (r matches Err(e)
                ==> e.message@ != unknown_declaration(name@)),
            !options.optimized || options.max_nodes >= 16 ==> forall|i: int|
                0 <= i < self.declared().len() && self.declared()[i] == name@ && literal_atom(#[trigger] self.body_term(i))
                    && eval::literal(self.type_term(i)) is Some ==> (r matches Ok(nf) ==> nf.text@ == atom_text(
                    self.body_term(i),
                )),
            options.optimized && options.max_nodes >= 16 && options.fuel >= 16 && options.max_quote_tasks >= 2 ==> forall|i: int|
                0 <= i < self.declared().len() && self.declared()[i] == name@ && literal_atom(#[trigger] self.body_term(i))
                    && eval::literal(self.type_term(i)) is Some && text::utf8_len(atom_text(self.body_term(i)))
                    <= options.max_output_bytes ==> r is Ok,
    {
        let index = self.lookup(name)?;
        proof {
            use_type_invariant(self);
            reveal_strlit("unknown declaration '");
            reveal_strlit("'");
            reveal_strlit("internal error: ");
            reveal_strlit(")");
        }
        let ghost unknown = unknown_declaration(name@);
        assert(unknown[0] == 'u');
        assert(unknown[unknown.len() - 1] == '\'');
        let decl = &self.program.decls[index];
        let mut engine = Engine::new(&self.program, options.optimized, options.fuel, options.max_nodes);
        let env = engine.env(Env::empty());
        let face = engine.top();
        let ty = match engine.thunk(decl.ty, env) {
            Ok(v) => v,
            Err(e) => {
                assert forall|m: Seq<char>| ("internal error: "@ + m) != unknown by {
                    assert(("internal error: "@ + m)[0] == 'i');
                }
                return Err(e);
            },
        };
        let body = match engine.thunk(decl.body, env) {
            Ok(v) => v,
            Err(e) => {
                assert forall|m: Seq<char>| ("internal error: "@ + m) != unknown by {
                    assert(("internal error: "@ + m)[0] == 'i');
                }
                return Err(e);
            },
        };
        proof {
            if options.optimized && options.max_nodes >= 16 && eval::literal(self.program.terms@[decl.ty.0 as int].term) is Some
                && eval::literal(self.program.terms@[decl.body.0 as int].term) is Some {
                assert(engine.counted_nodes() <= 4);
                assert(engine.collection_at == eval::collection_floor(options.max_nodes));
                assert(options.fuel >= 16 ==> engine.budget_for(32, 16));
            }
        }
        let text = match engine.quote(body, ty, face, options.max_output_bytes, options.max_quote_tasks) {
            Ok(t) => t,
            Err(e) => {
                let ghost m = e.message@;
                assert(m.len() > 0 && m[m.len() - 1] == ')') by {
                    let (a, x, y, z, w) = choose|a: Seq<char>, x: nat, y: nat, z: nat, w: nat|
                        x <= options.max_output_bytes && (y <= options.max_quote_tasks || y <= 1) && m == a
                            + " (during quotation: "@ + text::decimal(x) + " bytes emitted, "@ + text::decimal(y)
                            + " pending tasks, "@ + text::decimal(z) + " steps; faces="@ + text::decimal(w) + ")"@;
                    let pre = a + " (during quotation: "@ + text::decimal(x) + " bytes emitted, "@ + text::decimal(y)
                        + " pending tasks, "@ + text::decimal(z) + " steps; faces="@ + text::decimal(w);
                    assert(m == pre + ")"@);
                    assert((pre + ")"@)[pre.len() as int] == ")"@[0]);
                }
                return Err(e);
            },
        };
        Ok(NormalForm { text, statistics: engine.statistics() })
    }

    /// Measures semantic conversion of two checked definitions, without parsing,
    /// checking, quotation, or output inside the timed section.
    pub fn benchmark_conversion(&self, left: &str, right: &str, options: Options) -> (r: Result<(Duration, Statistics, bool)>)
        ensures
            (forall|i: int| 0 <= i < self.declared().len() ==> self.declared()[i] != left@) ==> (r matches Err(e)
                && e.offset.is_none() && e.message@ == unknown_declaration(left@)),
            r is Ok ==> exists|i: int| 0 <= i < self.declared().len() && self.declared()[i] == left@,
            r is Ok ==> exists|i: int| 0 <= i < self.declared().len() && self.declared()[i] == right@,
            (exists|i: int| 0 <= i < self.declared().len() && self.declared()[i] == left@) && (forall|i: int|
                0 <= i < self.declared().len() ==> self.declared()[i] != right@) ==> (r matches Err(e) && e.offset.is_none()
                && e.message@ == unknown_declaration(right@)),
    {
        let left = self.lookup(left)?;
        let right = self.lookup(right)?;
        proof {
            use_type_invariant(self);
        }
        let l = &self.program.decls[left];
        let r = &self.program.decls[right];
        let mut engine = Engine::new(&self.program, options.optimized, options.fuel, options.max_nodes);
        let env = engine.env(Env::empty());
        let face = engine.top();
        let lt = engine.thunk(l.ty, env)?;
        let rt = engine.thunk(r.ty, env)?;
        let lv = engine.thunk(l.body, env)?;
        let rv = engine.thunk(r.body, env)?;
        if !engine.conv(lt, rt, None, face)? {
            return Err(Error::plain("benchmark definitions have different types"));
        }
        let start = now();
        let equal = engine.conv(lv, rv, Some(lt), face)?;
        let time = elapsed(&start);
        Ok((time, engine.statistics(), equal))
    }
}

/// The number of line feeds in `b`.
pub open spec fn count_newlines(b: Seq<u8>) -> nat
    decreases b.len(),
{
    if b.len() == 0 {
        0
    } else {
        count_newlines(b.drop_last()) + if b.last() == 10 {
            1nat
        } else {
            0nat
        }
    }
}

/// Whether `x` continues a multi-byte UTF-8 character.
pub open spec fn is_continuation(x: u8) -> bool {
    128 <= x < 192
}

/// The number of characters after the last line feed of `b`.
pub open spec fn last_line_chars(b: Seq<u8>) -> nat
    decreases b.len(),
{
    if b.len() == 0 || b.last() == 10 {
        0
    } else {
        last_line_chars(b.drop_last()) + if is_continuation(b.last()) {
            0nat
        } else {
            1nat
        }
    }
}

/// The last character boundary of `b` at or before `n`.
pub open spec fn char_floor(b: Seq<u8>, n: int) -> int
    decreases n,
{
    if n <= 0 {
        0
    } else if vstd::utf8::is_char_boundary(b, n) {
        n
    } else {
        char_floor(b, n - 1)
    }
}

/// The rendering of an error in `file`: `file:line:column: message`, the line and
/// the (character) column counted from one, or `file: message` without a location.
pub open spec fn rendered(file: Seq<char>, source: Seq<u8>, offset: Option<usize>, message: Seq<char>) -> Seq<char> {
    match offset {
        Some(o) => {
            let end = char_floor(source, if o < source.len() { o as int } else { source.len() as int });
            let prefix = source.take(end);
            file + ":"@ + decimal(count_newlines(prefix) + 1) + ":"@ + decimal(last_line_chars(prefix) + 1)
                + ": "@ + message
        },
        None => file + ": "@ + message,
    }
}

impl Error {
    /// An error located at a byte offset of the source.
    pub fn at(offset: usize, message: &str) -> (r: Error)
        ensures
            r.offset == Some(offset),
            r.message@ == message@,
    {
        Error { offset: Some(offset), message: message.to_owned() }
    }

    /// An error without a source location.
    pub fn plain(message: &str) -> (r: Error)
        ensures
            r.offset.is_none(),
            r.message@ == message@,
    {
        Error { offset: None, message: message.to_owned() }
    }

    /// Byte offsets are rendered as one-based Unicode character columns.
    pub fn render(&self, file: &str, source: &str) -> (r: String)
        ensures
            r@ == rendered(file@, source.spec_bytes(), self.offset, self.message@),
    {
        proof {
            reveal_strlit(":");
            reveal_strlit(": ");
        }
        let mut out = file.to_owned();
        match self.offset {
            Some(offset) => {
                let bytes = source.as_bytes();
                let n = if offset < bytes.len() {
                    offset
                } else {
                    bytes.len()
                };
                let mut end = n;
                while end > 0 && !source.is_char_boundary(end)
                    invariant
                        end <= n,
                        char_floor(source.spec_bytes(), n as int) == char_floor(source.spec_bytes(), end as int),
                    decreases end,
                {
                    end = end - 1;
                }
                let ghost prefix = bytes@.take(end as int);
                let mut lines: u128 = 1;
                let mut i: usize = 0;
                while i < end
                    invariant
                        end <= bytes@.len(),
                        i <= end,
                        lines == count_newlines(bytes@.take(i as int)) + 1,
                        lines <= i + 1,
                    decreases end - i,
                {
                    assert(bytes@.take(i + 1).drop_last() =~= bytes@.take(i as int));
                    if bytes[i] == 10u8 {
                        lines = lines + 1;
                    }
                    i += 1;
                }
                let mut columns: u128 = 1;
                let mut j: usize = end;
                while j > 0 && bytes[j - 1] != 10u8
                    invariant
                        j <= end <= bytes@.len(),
                        columns + last_line_chars(bytes@.take(j as int)) == last_line_chars(prefix) + 1,
                        columns <= end - j + 1,
                    decreases j,
                {
                    assert(bytes@.take(j as int).drop_last() =~= bytes@.take(j - 1));
                    if bytes[j - 1] < 128u8 || bytes[j - 1] >= 192u8 {
                        columns = columns + 1;
                    }
                    j -= 1;
                }
                out.append(":");
                push_decimal(&mut out, lines);
                out.append(":");
                push_decimal(&mut out, columns);
                out.append(": ");
                out.append(self.message.as_str());
                proof {
                    assert(bytes@.take(end as int) == prefix);
                }
            },
            None => {
                out.append(": ");
                out.append(self.message.as_str());
            },
        }
        out
    }
}

/// The current instant.
///
/// Trusted wrapper around `std::time::Instant::now`; the result depends on the
/// clock, so nothing is claimed of it.
#[verifier::external_body]
fn now() -> (r: Instant) {
    Instant::now()
}

/// The time elapsed since `start`.
///
/// Trusted wrapper around `std::time::Instant::elapsed`; the result depends on
/// the clock, so nothing is claimed of it.
#[verifier::external_body]
fn elapsed(start: &Instant) -> (r: Duration) {
    start.elapsed()
}

#[verifier::external_type_specification]
#[verifier::external_body]
pub struct ExInstant(std::time::Instant);

} // verus!
