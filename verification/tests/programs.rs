use kamo::{CheckedProgram, Options};

fn normal(p: &CheckedProgram, name: &str, optimized: bool) -> String {
    p.normalize_with(
        name,
        Options {
            optimized,
            ..Options::default()
        },
    )
    .unwrap()
    .text
}

#[test]
fn successor_chains_normalize_in_both_modes() {
    let n = 2000;
    let mut source = String::from("(def n0 Nat zero)\n");
    for i in 1..=n {
        source.push_str(&format!("(def n{i} Nat (suc n{}))\n", i - 1));
    }
    let p = CheckedProgram::check(&source).unwrap();
    let expected = format!("{}zero{}", "(suc ".repeat(n), ")".repeat(n));
    for optimized in [false, true] {
        assert_eq!(normal(&p, &format!("n{n}"), optimized), expected);
    }
    assert_eq!(normal(&p, "n0", true), "zero");
}

#[test]
fn empty_glue_round_trips() {
    let source = "(def good Bool (unglue (Glue Bool ()) (glue (Glue Bool ()) true ())))";
    let p = CheckedProgram::check(source).unwrap();
    for optimized in [false, true] {
        assert_eq!(normal(&p, "good", optimized), "true");
    }
}

#[test]
fn glue_requires_an_equivalence() {
    let e = CheckedProgram::check("(def bad (U 0) (Glue Bool ((top Bool (pair (lam x true) true)))))")
        .err()
        .expect("a pair that is not an equivalence must be rejected");
    assert!(e.message.contains("type mismatch"), "{}", e.message);
}

#[test]
fn boolean_eliminations_match_direct_evaluation() {
    let mut src = String::new();
    let mut expected = true;
    for n in 0..16 {
        let prev = if n == 0 { "true".to_string() } else { format!("v{}", n - 1) };
        let body = match n % 3 {
            0 => {
                expected = !expected;
                format!("(bool-elim (lam b Bool) false true {prev})")
            },
            1 => format!("(coe i Bool 0 1 {prev})"),
            _ => {
                expected = !expected;
                format!("(app (ann (lam b (bool-elim (lam c Bool) false true b)) (Pi b Bool Bool)) {prev})")
            },
        };
        src.push_str(&format!("\n(def v{n} Bool {body})"));
        let p = CheckedProgram::check(&src).unwrap();
        for optimized in [false, true] {
            assert_eq!(normal(&p, &format!("v{n}"), optimized), expected.to_string());
        }
    }
}

#[test]
fn a_value_is_refused_as_a_declared_type() {
    for optimized in [false, true] {
        let options = Options {
            optimized,
            ..Options::default()
        };
        let e = CheckedProgram::check_with("(def a Bool true)\n(def bad true true)", options)
            .err()
            .expect("`true` is not a type");
        assert!(e.message.starts_with("checking type of bad: "), "{}", e.message);
    }
}

#[test]
fn exhausted_fuel_is_never_a_successful_check() {
    for optimized in [false, true] {
        let options = Options {
            optimized,
            fuel: 0,
            ..Options::default()
        };
        let e = CheckedProgram::check_with("(def a Bool true)", options)
            .err()
            .expect("no check succeeds without fuel");
        assert!(e.message.contains("evaluation budget exhausted"), "{}", e.message);
        assert!(CheckedProgram::check_with("", options).is_ok());
        let p = CheckedProgram::check("(def a Bool true)").unwrap();
        assert!(p.normalize_with("a", options).is_err());
    }
}
