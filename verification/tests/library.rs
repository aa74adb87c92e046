use kamo::syntax::parse_u32;
use kamo::quote::numbered;
use kamo::text::push_decimal;
use kamo::{CheckedProgram, Error, Options, MAX_SOURCE_BYTES};

#[test]
fn renders_lines_and_character_columns() {
    let source = "ab\ncé d\n";
    let e = Error { offset: Some(6), message: "oops".to_string() };
    assert_eq!(e.render("f.kamo", source), "f.kamo:2:3: oops");
    let e = Error { offset: Some(5), message: "inside".to_string() };
    assert_eq!(e.render("f.kamo", source), "f.kamo:2:2: inside");
    let e = Error { offset: Some(100), message: "end".to_string() };
    assert_eq!(e.render("f.kamo", source), "f.kamo:3:1: end");
    let e = Error { offset: None, message: "plain".to_string() };
    assert_eq!(e.render("f.kamo", source), "f.kamo: plain");
}

#[test]
fn universe_levels_are_decimal_u32() {
    assert_eq!(parse_u32(b"0"), Some(0));
    assert_eq!(parse_u32(b"+7"), Some(7));
    assert_eq!(parse_u32(b"4294967295"), Some(u32::MAX));
    assert_eq!(parse_u32(b"4294967296"), None);
    assert_eq!(parse_u32(b"+"), None);
    assert_eq!(parse_u32(b""), None);
    assert_eq!(parse_u32(b"1x"), None);
    assert_eq!(parse_u32(b"-1"), None);
}

#[test]
fn decimal_numerals() {
    let mut s = String::new();
    push_decimal(&mut s, 0);
    assert_eq!(s, "0");
    push_decimal(&mut s, 1234567890);
    assert_eq!(s, "01234567890");
    let mut s = String::from("n");
    push_decimal(&mut s, u64::MAX as u128);
    assert_eq!(s, "n18446744073709551615");
    assert_eq!(numbered("i", 42), "i42");
}

#[test]
fn oversized_sources_are_refused() {
    let source = " ".repeat(MAX_SOURCE_BYTES + 1);
    let e = CheckedProgram::check(&source).err().expect("too large");
    assert_eq!(e.message, "source size budget exceeded (maximum 4 MiB)");
    assert!(e.offset.is_none());
}

#[test]
fn names_lists_declarations_in_order() {
    let p = CheckedProgram::check("(def a Bool true) (def b Nat (suc zero))").unwrap();
    assert_eq!(p.names(), vec!["a".to_string(), "b".to_string()]);
}

#[test]
fn unknown_declarations_are_reported() {
    let p = CheckedProgram::check("(def a Bool true)").unwrap();
    let e = p.normalize("missing").err().expect("unknown");
    assert_eq!(e.message, "unknown declaration 'missing'");
    let e = p.benchmark_conversion("a", "nope", Options::default()).err().expect("unknown");
    assert_eq!(e.message, "unknown declaration 'nope'");
}

#[test]
fn benchmark_conversion_compares_definitions() {
    let p = CheckedProgram::check(
        "(def a Bool true) (def b Bool (bool-elim (lam x Bool) true false true)) (def c Bool false)",
    )
    .unwrap();
    let (_, stats, equal) = p.benchmark_conversion("a", "b", Options::default()).unwrap();
    assert!(equal);
    assert!(stats.steps > 0);
    let (_, _, equal) = p.benchmark_conversion("a", "c", Options::default()).unwrap();
    assert!(!equal);
}

#[test]
fn normalization_respects_the_fuel() {
    let p = CheckedProgram::check("(def n Nat (suc (suc zero)))").unwrap();
    let options = Options { fuel: 1000, ..Options::default() };
    let nf = p.normalize_with("n", options).unwrap();
    assert_eq!(nf.text, "(suc (suc zero))");
    assert!(nf.statistics.steps <= 1000);
    assert!(nf.statistics.value_nodes > 0);
}

#[test]
fn syntax_errors_have_locations() {
    let e = CheckedProgram::check("(def x Bool").err().expect("unclosed");
    assert_eq!(e.message, "unclosed list");
    assert_eq!(e.offset, Some(0));
    let e = CheckedProgram::check("(def x Bool (app))").err().expect("arity");
    assert_eq!(e.message, "'app' expects 2 arguments");
    let e = CheckedProgram::check("(def x Bool (frob true))").err().expect("form");
    assert_eq!(e.message, "unknown form 'frob'");
    let e = CheckedProgram::check("(def x (U 0) (Path i Bool true true)) (def y (U 0) (Path j Bool (at x k) true))")
        .err()
        .expect("interval");
    assert!(e.message.contains("unknown interval variable 'k'"), "{}", e.message);
    let e = CheckedProgram::check("(def Bool Bool true)").err().expect("reserved");
    assert_eq!(e.message, "duplicate or reserved declaration name");
    let e = CheckedProgram::check("(def a Bool true) (def a Bool false)").err().expect("duplicate");
    assert_eq!(e.message, "duplicate or reserved declaration name");
    let e = CheckedProgram::check(")").err().expect("stray");
    assert_eq!(e.message, "unexpected ')'");
}

#[test]
fn deep_nesting_is_refused() {
    let source = format!("(def a Bool {}true{})", "(fst ".repeat(600), ")".repeat(600));
    let e = CheckedProgram::check(&source).err().expect("too deep");
    assert_eq!(e.message, "syntax nesting exceeds 512");
}

#[test]
fn comments_and_whitespace_separate_expressions() {
    let source = "; a comment\n(def x ; another\n Bool\ttrue)\r\n; trailing";
    let p = CheckedProgram::check(source).unwrap();
    assert_eq!(p.normalize("x").unwrap().text, "true");
    let e = CheckedProgram::check("(def x Bool\n (fst (pair true false)").err().expect("unclosed");
    assert_eq!(e.message, "unclosed list");
    assert_eq!(e.offset, Some(13));
    let e = CheckedProgram::check("  ").err();
    assert!(e.is_none());
}

#[test]
fn output_byte_budget_is_exact() {
    let p = CheckedProgram::check("(def x Nat (suc zero))").unwrap();
    let text = "(suc zero)";
    for optimized in [false, true] {
        let fits = Options { optimized, max_output_bytes: text.len(), ..Options::default() };
        assert_eq!(p.normalize_with("x", fits).unwrap().text, text);
        let short = Options { optimized, max_output_bytes: text.len() - 1, ..Options::default() };
        let e = p.normalize_with("x", short).err().expect("over budget");
        assert!(e.message.starts_with("quotation output byte budget exhausted"), "{}", e.message);
    }
}
