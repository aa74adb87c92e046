use kamo::eval::{Binder, Engine, Sub, Val};
use kamo::face::Dim;
use kamo::syntax::Program;

#[test]
fn substitutions_compose_and_unblock_paths() {
    for optimized in [false, true] {
        let program = Program::default();
        let mut e = Engine::new(&program, optimized, 100_000, 100_000);
        let face = e.faces.top();
        let bool_ty = e.make(Val::Bool);
        let t = e.make(Val::True);
        let f = e.make(Val::False);
        let k = e.fresh_dim().unwrap();
        let path_ty = e.make(Val::Path(
            Binder {
                var: k,
                body: bool_ty,
            },
            t,
            f,
        ));
        let p = e.variable(path_ty).unwrap();
        let i = e.fresh_dim().unwrap();
        let j = e.fresh_dim().unwrap();
        let open = e.at(p, Dim::Var(i));
        let identity = e.restrict(open, i, Dim::Var(i)).unwrap();
        assert_eq!(identity, open);
        for (endpoint, expected) in [(Dim::Zero, t), (Dim::One, f)] {
            let first = e.restrict(open, i, Dim::Var(j)).unwrap();
            let composed = e.restrict(first, j, endpoint).unwrap();
            let direct = e.restrict(open, i, endpoint).unwrap();
            assert!(e.conv(composed, direct, Some(bool_ty), face).unwrap());
            assert_eq!(e.force(composed, face).unwrap(), expected);
        }
        let at_zero = e.faces.eq(Dim::Var(i), Dim::Zero);
        let at_one = e.faces.eq(Dim::Var(i), Dim::One);
        assert_eq!(e.force(open, at_zero).unwrap(), t);
        assert_eq!(e.force(open, at_one).unwrap(), f);
        let open = e.force(open, face).unwrap();
        assert!(matches!(e.get(open).unwrap(), Val::PApp(..)));
    }
}

/// Compares `(p @ i)[i := 0]` and `(p @ j)[i := 0]` under the face `i = j`,
/// before and after forcing; returns both answers.
fn shared_substitution(optimized: bool) -> (bool, bool) {
    let program = Program::default();
    let mut e = Engine::new(&program, optimized, 100_000, 100_000);
    let u = e.make(Val::U(0));
    let bool_ty = e.make(Val::Bool);
    let k = e.fresh_dim().unwrap();
    let pt = e.make(Val::Path(Binder { var: k, body: u }, bool_ty, bool_ty));
    let p = e.variable(pt).unwrap();
    let i = e.fresh_dim().unwrap();
    let j = e.fresh_dim().unwrap();
    let face = e.faces.eq(Dim::Var(i), Dim::Var(j));
    let a = e.at(p, Dim::Var(i));
    let b = e.at(p, Dim::Var(j));
    let s = e.substitution(Sub {
        terms: vec![],
        dims: vec![(i, Dim::Zero)],
        compose: None,
    });
    let a = e.sub(a, s).unwrap();
    let b = e.sub(b, s).unwrap();
    let lazy = e.conv(a, b, Some(u), face).unwrap();
    let aa = e.force(a, face).unwrap();
    let bb = e.force(b, face).unwrap();
    let forced = e.conv(aa, bb, Some(u), face).unwrap();
    (lazy, forced)
}

#[test]
fn substitution_tests_reference_shared_substitution() {
    let (lazy, forced) = shared_substitution(false);
    println!("optimized=false: lazy={lazy}, forced={forced}");
    assert_eq!(lazy, forced, "conversion changed after forcing");
}

#[test]
fn substitution_tests_optimized_shared_substitution() {
    let (lazy, forced) = shared_substitution(true);
    println!("optimized=true: lazy={lazy}, forced={forced}");
    assert_eq!(lazy, forced, "conversion changed after forcing");
}

#[test]
fn eval_reference_shared_substitution() {
    let (lazy, forced) = shared_substitution(false);
    assert!(!lazy, "the substituted terms must not compare equal");
    assert_eq!(lazy, forced, "conversion changed after forcing");
}

#[test]
fn eval_optimized_shared_substitution() {
    let (lazy, forced) = shared_substitution(true);
    assert!(!lazy, "the substituted terms must not compare equal");
    assert_eq!(lazy, forced, "conversion changed after forcing");
}
