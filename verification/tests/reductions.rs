use kamo::eval::{Composition, Engine, Val};
use kamo::face::Dim;
use kamo::syntax::{parse, Program, Term};

#[test]
fn boolean_composition_without_tubes_is_its_cap() {
    for optimized in [false, true] {
        let program = Program::default();
        let mut e = Engine::new(&program, optimized, 100_000, 100_000);
        let face = e.faces.top();
        let i = e.fresh_dim().unwrap();
        let bool_ty = e.make(Val::Bool);
        let cap = e.make(Val::True);
        let c = Composition { dim: i, family: bool_ty, from: Dim::Zero, to: Dim::One, cap, tubes: vec![] };
        assert_eq!(e.reduce_com(c, face).unwrap(), Some(cap));
    }
}

#[test]
fn composition_of_a_neutral_boolean_is_stuck() {
    for optimized in [false, true] {
        let program = Program::default();
        let mut e = Engine::new(&program, optimized, 100_000, 100_000);
        let face = e.faces.top();
        let i = e.fresh_dim().unwrap();
        let bool_ty = e.make(Val::Bool);
        let cap = e.variable(bool_ty).unwrap();
        let c = Composition { dim: i, family: bool_ty, from: Dim::Zero, to: Dim::One, cap, tubes: vec![] };
        assert_eq!(e.reduce_com(c, face).unwrap(), None);
    }
}

#[test]
fn composition_of_a_successor_composes_its_predecessor() {
    for optimized in [false, true] {
        let program = Program::default();
        let mut e = Engine::new(&program, optimized, 100_000, 100_000);
        let face = e.faces.top();
        let i = e.fresh_dim().unwrap();
        let nat_ty = e.make(Val::Nat);
        let zero = e.make(Val::Zero);
        let cap = e.make(Val::Suc(zero));
        let c = Composition { dim: i, family: nat_ty, from: Dim::Zero, to: Dim::One, cap, tubes: vec![] };
        let w = e.reduce_com(c, face).unwrap().unwrap();
        let m = match e.get(w).unwrap() {
            Val::Suc(m) => m,
            other => panic!("expected a successor, got {other:?}"),
        };
        match e.get(m).unwrap() {
            Val::Com(d) => {
                assert_eq!(d.cap, zero);
                assert_eq!(d.family, nat_ty);
                assert_eq!(d.dim, i);
                assert_eq!(d.from, Dim::Zero);
                assert_eq!(d.to, Dim::One);
            },
            other => panic!("expected a composition, got {other:?}"),
        }
    }
}

#[test]
fn applications_keep_function_and_argument_in_order() {
    let s = "(def f (Pi x Bool Bool) (lam x x)) (def a Bool (app f true))";
    let p = parse(s).unwrap();
    assert_eq!(p.decls.len(), 2);
    assert_eq!(p.decls[1].name, "a");
    let node = p.terms.get(p.decls[1].body.0);
    assert_eq!(node.offset, s.find("(app").unwrap());
    match &node.term {
        Term::App(fun, arg) => {
            let f = p.terms.get(fun.0);
            assert!(matches!(f.term, Term::Global(0)));
            assert_eq!(f.offset, s.find("f true").unwrap());
            let a = p.terms.get(arg.0);
            assert!(matches!(a.term, Term::True));
            assert_eq!(a.offset, s.find("true)").unwrap());
        },
        other => panic!("expected an application, got {other:?}"),
    }
}

#[test]
fn unknown_names_are_reported_at_their_atom() {
    let s = "(def x Bool mystery)";
    let e = match parse(s) {
        Ok(_) => panic!("an unknown name was accepted"),
        Err(e) => e,
    };
    assert_eq!(e.offset, Some(12));
    assert_eq!(e.message, "unknown name 'mystery'");
}

#[test]
fn different_constants_are_not_convertible() {
    for optimized in [false, true] {
        let program = Program::default();
        let mut e = Engine::new(&program, optimized, 100_000, 100_000);
        let face = e.faces.top();
        let bool_ty = e.make(Val::Bool);
        let t = e.make(Val::True);
        let f = e.make(Val::False);
        let zero = e.make(Val::Zero);
        assert!(!e.conv(t, f, None, face).unwrap());
        assert!(!e.conv(t, f, Some(bool_ty), face).unwrap());
        assert!(!e.conv(f, zero, None, face).unwrap());
        assert!(e.conv(t, t, Some(bool_ty), face).unwrap());
        let i = e.fresh_dim().unwrap();
        let contradiction = e.face_eq(Dim::Zero, Dim::One);
        assert!(e.conv(t, f, Some(bool_ty), contradiction).unwrap());
        let open = e.face_eq(Dim::Var(i), Dim::Zero);
        assert!(!e.conv(t, f, Some(bool_ty), open).unwrap());
    }
}

#[test]
fn a_fresh_session_collects_at_half_its_node_budget() {
    let program = Program::default();
    for (max_nodes, expected) in [(0usize, 1usize), (10, 5), (1_000_000, 250_000), (3, 1)] {
        let e = Engine::new(&program, true, 1_000, max_nodes);
        assert_eq!(e.collection_at, expected);
        assert_eq!(e.collections, 0);
        assert_eq!(e.reclaimed_nodes, 0);
        assert_eq!(e.allocated_values, 0);
    }
}

#[test]
fn literal_declarations_normalize_to_themselves_in_both_modes() {
    let p = kamo::CheckedProgram::check("(def answer Bool true) (def n Nat zero) (def t (U 0) Bool)").unwrap();
    for optimized in [false, true] {
        let o = kamo::Options { optimized, ..kamo::Options::default() };
        assert_eq!(p.normalize_with("answer", o).unwrap().text, "true");
        assert_eq!(p.normalize_with("n", o).unwrap().text, "zero");
        assert_eq!(p.normalize_with("t", o).unwrap().text, "Bool");
    }
    assert_eq!(p.normalize("answer").unwrap().text, "true");
}

#[test]
fn equal_constants_are_convertible_in_both_modes() {
    for optimized in [false, true] {
        let program = Program::default();
        let mut e = Engine::new(&program, optimized, 100_000, 100_000);
        let face = e.faces.top();
        let a = e.make(Val::True);
        let b = e.make(Val::True);
        assert!(e.conv(a, b, None, face).unwrap());
        let u = e.make(Val::U(3));
        let w = e.make(Val::U(3));
        assert!(e.conv(u, w, None, face).unwrap());
    }
}

#[test]
fn composition_between_equal_endpoints_is_its_cap() {
    for optimized in [false, true] {
        let program = Program::default();
        let mut e = Engine::new(&program, optimized, 100_000, 100_000);
        let face = e.faces.top();
        let i = e.fresh_dim().unwrap();
        let bool_ty = e.make(Val::Bool);
        let cap = e.variable(bool_ty).unwrap();
        let c = Composition { dim: i, family: bool_ty, from: Dim::One, to: Dim::One, cap, tubes: vec![] };
        assert_eq!(e.reduce_com(c, face).unwrap(), Some(cap));
    }
}

#[test]
fn a_failed_normalization_of_a_declared_name_is_not_an_unknown_name() {
    let p = kamo::CheckedProgram::check("(def a Bool true)").unwrap();
    let o = kamo::Options { fuel: 1, ..kamo::Options::default() };
    let e = p.normalize_with("a", o).unwrap_err();
    assert!(!e.message.starts_with("unknown declaration"));
}

#[test]
fn atoms_declared_at_the_wrong_type_are_refused_in_both_modes() {
    for optimized in [false, true] {
        let o = kamo::Options { optimized, ..kamo::Options::default() };
        for s in ["(def bad Bool zero)", "(def bad Nat true)", "(def bad Bool Bool)", "(def bad Nat false)"] {
            let e = match kamo::CheckedProgram::check_with(s, o) {
                Ok(_) => panic!("{s} was accepted"),
                Err(e) => e,
            };
            assert!(e.message.contains("checking bad"), "{}", e.message);
        }
        assert!(kamo::CheckedProgram::check_with("(def good Bool false) (def n Nat zero)", o).is_ok());
    }
}

#[test]
fn universes_written_as_forms_are_typed_exactly() {
    for optimized in [false, true] {
        let o = kamo::Options { optimized, ..kamo::Options::default() };
        for s in ["(def bad (U 0) (U 0))", "(def bad (U 1) Bool)", "(def bad (U 2) (U 0))"] {
            assert!(kamo::CheckedProgram::check_with(s, o).is_err(), "{s}");
        }
        let p = kamo::CheckedProgram::check_with("(def u (U 1) (U 0)) (def b (U 0) Nat)", o).unwrap();
        assert_eq!(p.normalize_with("u", o).unwrap().text, "(U 0)");
        assert_eq!(p.normalize_with("b", o).unwrap().text, "Nat");
    }
}

#[test]
fn an_atom_normalizes_within_small_budgets() {
    let p = kamo::CheckedProgram::check("(def answer Bool true)").unwrap();
    let o = kamo::Options {
        fuel: 16,
        max_nodes: 16,
        max_output_bytes: 4,
        max_quote_tasks: 2,
        optimized: true,
    };
    assert_eq!(p.normalize_with("answer", o).unwrap().text, "true");
}
