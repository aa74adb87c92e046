# Kamo

An experimental Cartesian cubical proof-assistant kernel, written in Verus.
Programs are explicit S-expressions `(def name type body)`; the kernel checks
each declaration in a fresh semantic arena and normalizes declarations into
explicit text.

## Layout

- `src/` — the verified library.
  - `syntax.rs`: the S-expression reader (specified by `skip`, `read_at`,
    `read_list` and `reads`) and the parser to de Bruijn syntax; names resolve to
    their innermost binder.
  - `face.rs`: face formulas, their meaning under interval assignments, and a
    decision procedure for entailment, equality, universal quantification,
    substitution and compaction, each proved against that meaning.
  - `eval.rs`, `capture.rs`, `support.rs`: values, environments, delayed
    substitutions and forcing; closures keep exactly the slots their term reads.
  - `check.rs`, `glue.rs`: type checking, conversion and the native Glue and
    universe constructions.
  - `quote.rs`, `collect.rs`, `normal_dag.rs`: iterative quotation within byte
    and task budgets, arena collection, and shared output graphs.
  - `lib.rs`: the public `CheckedProgram` interface.
- `tests/` — tests of the library.
- `app/` — the command-line front end (`kamo check FILE`, `kamo normalize FILE NAME`).

Every engine operation is proved to terminate and to keep the engine's
invariant; exhausted fuel, node budgets and output budgets are reported as errors.
