use kamo::eval::{Composition, Engine, Env, Sub, Val};
use kamo::face::{Dim, FaceId};
use kamo::syntax::{parse, Program, Term, D, F};

fn equivalent(e: &mut Engine, a: FaceId, b: FaceId) -> bool {
    e.entails(a, b).unwrap() && e.entails(b, a).unwrap()
}

#[test]
fn restricting_a_face_substitutes_the_dimension() {
    for optimized in [false, true] {
        let program = Program::default();
        let mut e = Engine::new(&program, optimized, 100_000, 100_000);
        let i = e.fresh_dim().unwrap();
        let j = e.fresh_dim().unwrap();
        let f = e.face_eq(Dim::Var(i), Dim::Var(j));
        let g = e.restrict_face(f, i, Dim::Zero).unwrap();
        let expected = e.face_eq(Dim::Var(j), Dim::Zero);
        assert!(equivalent(&mut e, g, expected));
        let same = e.restrict_face(f, i, Dim::Var(i)).unwrap();
        assert!(equivalent(&mut e, same, f));
        assert!(e.restrict_face(FaceId(1_000_000), i, Dim::Zero).is_err());
    }
}

#[test]
fn substituting_a_face_follows_the_substitution() {
    for optimized in [false, true] {
        let program = Program::default();
        let mut e = Engine::new(&program, optimized, 100_000, 100_000);
        let i = e.fresh_dim().unwrap();
        let j = e.fresh_dim().unwrap();
        let f = e.face_eq(Dim::Var(i), Dim::Var(j));
        let first = e.substitution(Sub { terms: vec![], dims: vec![(i, Dim::One)], compose: None });
        assert_eq!(e.sub_dim(first, Dim::Var(i)).unwrap(), Dim::One);
        assert_eq!(e.sub_dim(first, Dim::Var(j)).unwrap(), Dim::Var(j));
        assert_eq!(e.sub_dim(first, Dim::Zero).unwrap(), Dim::Zero);
        let g = e.sub_face(f, first).unwrap();
        let expected = e.face_eq(Dim::Var(j), Dim::One);
        assert!(equivalent(&mut e, g, expected));
        let second = e.substitution(Sub { terms: vec![], dims: vec![(j, Dim::Zero)], compose: None });
        let both = e.substitution(Sub { terms: vec![], dims: vec![], compose: Some((first, second)) });
        assert_eq!(e.sub_dim(both, Dim::Var(i)).unwrap(), Dim::One);
        assert_eq!(e.sub_dim(both, Dim::Var(j)).unwrap(), Dim::Zero);
        let h = e.sub_face(f, both).unwrap();
        assert!(e.inconsistent(h).unwrap());
    }
}

#[test]
fn syntax_faces_read_their_environment() {
    for optimized in [false, true] {
        let program = Program::default();
        let mut e = Engine::new(&program, optimized, 100_000, 100_000);
        let i = e.fresh_dim().unwrap();
        let env = e.env(Env { terms: vec![], dims: vec![Dim::Var(i), Dim::One] });
        assert_eq!(e.dim(D::Bound(0), env).unwrap(), Dim::One);
        assert_eq!(e.dim(D::Bound(1), env).unwrap(), Dim::Var(i));
        assert!(e.dim(D::Bound(2), env).is_err());
        let g = e.face(&F::Eq(D::Bound(1), D::Bound(0)), env).unwrap();
        let expected = e.face_eq(Dim::Var(i), Dim::One);
        assert!(equivalent(&mut e, g, expected));
        let either = F::Or(Box::new(F::Eq(D::Bound(1), D::Zero)), Box::new(F::Eq(D::Bound(1), D::One)));
        let g = e.face(&either, env).unwrap();
        let top = e.top();
        assert!(!e.entails(top, g).unwrap());
        assert!(e.face(&F::Eq(D::Bound(2), D::Zero), env).is_err());
    }
}

#[test]
fn binders_take_fresh_levels() {
    let program = Program::default();
    let mut e = Engine::new(&program, false, 100_000, 100_000);
    let first = e.fresh_term().unwrap();
    let second = e.fresh_term().unwrap();
    assert_eq!(second, first + 1);
    let i = e.fresh_dim().unwrap();
    let j = e.fresh_dim().unwrap();
    assert_eq!(j, i + 1);
}

#[test]
fn closures_keep_only_the_slots_they_read() {
    let program = parse("(def k (Pi a Bool (Pi b Bool Bool)) (lam a (lam b a)))").unwrap();
    let outer = program.decls[0].body;
    let inner = match &program.terms.get(outer.0).term {
        Term::Lam(b) => *b,
        _ => panic!("the body is a lambda"),
    };
    let mut e = Engine::new(&program, true, 100_000, 100_000);
    let x = e.make(Val::True);
    let y = e.make(Val::False);
    let env = e.env(Env { terms: vec![x, y], dims: vec![Dim::Zero] });
    let closed = e.thunk(outer, env).unwrap();
    match e.get(closed).unwrap() {
        Val::Susp(t, trimmed) => {
            assert_eq!(t, outer);
            let kept = e.environment(trimmed).unwrap();
            assert!(kept.terms.is_empty());
            assert!(kept.dims.is_empty());
        },
        _ => panic!("a lambda is suspended"),
    }
    let open = e.thunk(inner, env).unwrap();
    match e.get(open).unwrap() {
        Val::Susp(t, trimmed) => {
            assert_eq!(t, inner);
            let kept = e.environment(trimmed).unwrap();
            assert_eq!(kept.terms, vec![y]);
            assert!(kept.dims.is_empty());
        },
        _ => panic!("a lambda is suspended"),
    }
    let mut reference = Engine::new(&program, false, 100_000, 100_000);
    let env = reference.env(Env { terms: vec![], dims: vec![] });
    let v = reference.thunk(inner, env).unwrap();
    assert!(matches!(reference.get(v).unwrap(), Val::Susp(_, e2) if e2 == env));
}

#[test]
fn forcing_a_canonical_value_returns_it() {
    let program = Program::default();
    let mut e = Engine::new(&program, false, 100_000, 100_000);
    let face = e.top();
    for v in [Val::True, Val::Zero, Val::U(3), Val::Bool] {
        let id = e.make(v);
        assert_eq!(e.force(id, face).unwrap(), id);
    }
}

#[test]
fn substitutions_map_term_variables_by_their_first_entry() {
    for optimized in [false, true] {
        let program = Program::default();
        let mut e = Engine::new(&program, optimized, 100_000, 100_000);
        let t = e.make(Val::True);
        let f = e.make(Val::False);
        let s = e.substitution(Sub { terms: vec![(5, t), (5, f)], dims: vec![], compose: None });
        assert_eq!(e.sub_term(s, 5).unwrap(), Some(t));
        assert_eq!(e.sub_term(s, 6).unwrap(), None);
    }
}

#[test]
fn pushing_a_substitution_keeps_the_value_former() {
    let program = Program::default();
    let mut e = Engine::new(&program, false, 100_000, 100_000);
    let t = e.make(Val::True);
    let x = e.fresh_term().unwrap();
    let bool_ty = e.make(Val::Bool);
    let var = e.make(Val::Var(x, Some(bool_ty)));
    let pair = e.make(Val::Pair(var, t));
    let i = e.fresh_dim().unwrap();
    let s = e.substitution(Sub { terms: vec![(x, t)], dims: vec![(i, Dim::One)], compose: None });
    assert_eq!(e.push(var, s).unwrap(), t);
    assert_eq!(e.push(t, s).unwrap(), t);
    let pushed = e.push(pair, s).unwrap();
    assert!(matches!(e.get(pushed).unwrap(), Val::Pair(..)));
    let papp = e.make(Val::PApp(var, Dim::Var(i)));
    let pushed = e.push(papp, s).unwrap();
    assert!(matches!(e.get(pushed).unwrap(), Val::PApp(_, Dim::One)));
}

#[test]
fn only_neutral_values_have_a_neutral_type() {
    for optimized in [false, true] {
        let program = Program::default();
        let mut e = Engine::new(&program, optimized, 100_000, 100_000);
        let face = e.top();
        let nat = e.make(Val::Nat);
        let x = e.variable(nat).unwrap();
        assert_eq!(e.neutral_type(x, face).unwrap(), nat);
        assert!(e.neutral_type(nat, face).is_err());
        let zero = e.make(Val::Zero);
        assert!(e.neutral_type(zero, face).is_err());
    }
}

#[test]
fn glue_composition_introduces_glue_on_the_target_faces() {
    for optimized in [false, true] {
        let program = Program::default();
        let mut e = Engine::new(&program, optimized, 100_000, 100_000);
        let i = e.fresh_dim().unwrap();
        let j = e.fresh_dim().unwrap();
        let bool_ty = e.make(Val::Bool);
        let cap = e.make(Val::True);
        let equiv = e.identity_equiv(bool_ty).unwrap();
        let f = e.face_eq(Dim::Var(j), Dim::Zero);
        let g = e.face_eq(Dim::Var(i), Dim::Var(j));
        let c = Composition { dim: i, family: bool_ty, from: Dim::Zero, to: Dim::One, cap, tubes: vec![] };
        let branches = vec![(f, bool_ty, equiv), (g, bool_ty, equiv)];
        let r = e.compose_glue(c, bool_ty, branches).unwrap();
        let (corrected, tops) = match e.get(r).unwrap() {
            Val::GlueIntro(corrected, tops) => (corrected, tops),
            other => panic!("expected a Glue introduction, got {other:?}"),
        };
        assert_eq!(tops.len(), 2);
        assert!(equivalent(&mut e, tops[0].0, f));
        let at_one = e.face_eq(Dim::Var(j), Dim::One);
        assert!(equivalent(&mut e, tops[1].0, at_one));
        match e.get(corrected).unwrap() {
            Val::Com(k) => {
                assert_eq!(k.from, Dim::One);
                assert_eq!(k.to, Dim::Zero);
            },
            other => panic!("expected a composition, got {other:?}"),
        }
    }
}
