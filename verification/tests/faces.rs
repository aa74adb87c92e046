use kamo::face::{Dim, Face, FaceId, Faces};
use std::collections::BTreeSet;

#[test]
fn projection_preserves_transitive_equalities_without_booleanizing() {
    let mut f = Faces::default();
    let i = Dim::Var(0);
    let j = Dim::Var(1);
    let ij = f.eq(i, j);
    let i0 = f.eq(i, Dim::Zero);
    let j0 = f.eq(j, Dim::Zero);
    let under = f.and(ij, i0);
    let projected = f.project(under, &BTreeSet::from([1])).unwrap();
    assert!(f.entails(projected, j0).unwrap());
    assert!(f.entails(j0, projected).unwrap());
    let projected = f.project(ij, &BTreeSet::from([1])).unwrap();
    let top = f.top();
    assert!(f.entails(top, projected).unwrap());
    let i1 = f.eq(i, Dim::One);
    let endpoints = f.or(i0, i1);
    let retained = f.project(endpoints, &BTreeSet::from([0])).unwrap();
    assert!(!f.entails(top, retained).unwrap());
}

#[test]
fn interval_is_not_boolean() {
    let mut f = Faces::default();
    let t = f.top();
    let i = Dim::Var(0);
    let a = f.eq(i, Dim::Zero);
    let b = f.eq(i, Dim::One);
    let cover = f.or(a, b);
    assert!(!f.entails(t, cover).unwrap());
    assert!(f.entails(a, cover).unwrap());
    let impossible = f.and(a, b);
    assert!(f.inconsistent(impossible).unwrap());
}

#[test]
fn diagonals_and_transitivity() {
    let mut f = Faces::default();
    let (i, j, k) = (Dim::Var(0), Dim::Var(1), Dim::Var(2));
    let a = f.eq(i, j);
    let b = f.eq(j, k);
    let c = f.and(a, b);
    let d = f.eq(i, k);
    assert!(f.entails(c, d).unwrap());
    assert!(!f.entails(a, d).unwrap());
    let e = f.substitute(d, &[(k, i)]);
    let t = f.top();
    assert!(f.entails(t, e).unwrap());
}

#[test]
fn quantification_uses_generic_dimensions() {
    let mut f = Faces::default();
    let i = Dim::Var(0);
    let j = Dim::Var(1);
    let i0 = f.eq(i, Dim::Zero);
    let i1 = f.eq(i, Dim::One);
    let j0 = f.eq(j, Dim::Zero);
    let endpoints = f.or(i0, i1);
    let quantified = f.forall_var(0, endpoints).unwrap();
    assert!(f.inconsistent(quantified).unwrap());
    let face = f.or(endpoints, j0);
    let quantified = f.forall_var(0, face).unwrap();
    assert!(f.entails(quantified, j0).unwrap());
    assert!(f.entails(j0, quantified).unwrap());
}

#[test]
fn solver_depth_is_bounded() {
    let mut f = Faces::default();
    let mut face = f.top();
    for n in 0..300 {
        let e = f.eq(Dim::Var(n), Dim::Zero);
        face = f.and(face, e);
    }
    let top = f.top();
    assert!(f.entails(top, face).unwrap_err().message.contains("budget"));
}

fn eval(f: &Faces, id: FaceId, assignment: &[u8; 4]) -> bool {
    let dim = |d: Dim| match d {
        Dim::Zero => 0,
        Dim::One => 1,
        Dim::Var(i) => assignment[i as usize],
    };
    match f.get(id) {
        Face::Top => true,
        Face::Bot => false,
        Face::Eq(a, b) => dim(a) == dim(b),
        Face::And(a, b) => eval(f, a, assignment) && eval(f, b, assignment),
        Face::Or(a, b) => eval(f, a, assignment) || eval(f, b, assignment),
    }
}

#[test]
fn entailment_and_quantification_match_finite_partition_oracle() {
    // Six colors enumerate every equality partition of four dimensions and
    // two distinct endpoints, including a fresh generic value for forall.
    let mut f = Faces::default();
    let dims = [
        Dim::Zero,
        Dim::One,
        Dim::Var(0),
        Dim::Var(1),
        Dim::Var(2),
        Dim::Var(3),
    ];
    let mut formulas = vec![f.top(), f.bot()];
    for i in 0..dims.len() {
        for j in i + 1..dims.len() {
            formulas.push(f.eq(dims[i], dims[j]));
        }
    }
    let mut seed = 17usize;
    for i in 0..80 {
        seed = seed.wrapping_mul(1664525).wrapping_add(1013904223);
        let a = formulas[seed % formulas.len()];
        seed = seed.wrapping_mul(1664525).wrapping_add(1013904223);
        let b = formulas[seed % formulas.len()];
        formulas.push(if i % 2 == 0 { f.and(a, b) } else { f.or(a, b) });
    }
    let assignments: Vec<_> = (0..1296)
        .map(|mut n| {
            let mut a = [0; 4];
            for x in &mut a {
                *x = (n % 6) as u8;
                n /= 6;
            }
            a
        })
        .collect();
    let tables: Vec<Vec<_>> = formulas
        .iter()
        .map(|id| assignments.iter().map(|a| eval(&f, *id, a)).collect())
        .collect();
    for (i, a) in formulas.iter().enumerate() {
        for (j, b) in formulas.iter().enumerate() {
            let expected = tables[i].iter().zip(&tables[j]).all(|(a, b)| !a || *b);
            assert_eq!(
                f.entails(*a, *b).unwrap(),
                expected,
                "formula pair {i}, {j}"
            );
        }
    }
    for id in formulas {
        let quantified = f.forall_var(0, id).unwrap();
        for assignment in &assignments {
            let expected = (0..6).all(|value| {
                let mut a = *assignment;
                a[0] = value;
                eval(&f, id, &a)
            });
            assert_eq!(eval(&f, quantified, assignment), expected);
        }
    }
}
