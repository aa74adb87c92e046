use kamo::normal_dag::{Buffer, Saved};

#[test]
fn text_buffer_replays_saved_fragments() {
    let mut b = Buffer::new(false, 1024);
    assert!(!b.shared());
    b.append("(pair ").unwrap();
    let start = b.len();
    b.append("true").unwrap();
    let saved = b.seal(start).unwrap();
    assert!(matches!(saved, Saved::Text(6, 10)));
    assert_eq!(b.saved_len(saved), 4);
    b.append(" ").unwrap();
    b.replay(saved).unwrap();
    b.append(")").unwrap();
    assert_eq!(b.len(), 16);
    assert_eq!(b.text(), Some("(pair true true)"));
    assert_eq!(b.into_text(), "(pair true true)");
}

#[test]
fn text_buffer_enforces_the_output_budget() {
    let mut b = Buffer::new(false, 5);
    b.append("abc").unwrap();
    let e = b.append("def").err().expect("over budget");
    assert_eq!(e.message, "quotation output byte budget exhausted");
    b.append("de").unwrap();
    assert_eq!(b.text(), Some("abcde"));
}

#[test]
fn shared_buffer_materializes_its_text() {
    let mut b = Buffer::new(true, 1 << 20);
    assert!(b.shared());
    assert_eq!(b.text(), None);
    b.append("(pair ").unwrap();
    let start = b.len();
    b.append("(suc ").unwrap();
    b.append("zero").unwrap();
    b.append(")").unwrap();
    let saved = b.seal(start).unwrap();
    assert_eq!(b.saved_len(saved), 10);
    b.append(" ").unwrap();
    b.replay(saved).unwrap();
    b.append(")").unwrap();
    let dag = b.into_dag().unwrap();
    assert_eq!(dag.expanded_bytes(), 28);
    assert_eq!(dag.materialize(1 << 20).unwrap(), "(pair (suc zero) (suc zero))");
    let e = dag.materialize(27).err().expect("over budget");
    assert_eq!(e.message, "quotation output byte budget exhausted");
}

#[test]
fn shared_buffer_encodes_its_graph() {
    let mut b = Buffer::new(true, 1 << 20);
    b.append("a\"b").unwrap();
    b.append("c").unwrap();
    let dag = b.into_dag().unwrap();
    assert_eq!(dag.nodes(), 3);
    assert_eq!(
        dag.encode(),
        "kamo-normal-dag-v1\n0 text \"a\\\"b\"\n1 text \"c\"\n2 concat 0 1\nroot 2 expanded-bytes 4\n"
    );
}

#[test]
fn shared_buffer_reuses_equal_nodes() {
    let mut b = Buffer::new(true, 1 << 20);
    b.append("x").unwrap();
    b.append("x").unwrap();
    assert_eq!(b.nodes(), 1);
    assert_eq!(b.len(), 2);
}

#[test]
fn shared_storage_budget_is_enforced() {
    let mut b = Buffer::new(true, 100);
    let e = b.append("abc").err().expect("each node costs at least 128 bytes");
    assert_eq!(e.message, "shared normal-form storage budget exhausted");
}

#[test]
fn text_replay_is_refused_past_the_budget() {
    let mut b = Buffer::new(false, 8);
    b.append("true").unwrap();
    let saved = b.seal(0).unwrap();
    b.append(" ").unwrap();
    let e = b.replay(saved).err().expect("over budget");
    assert_eq!(e.message, "quotation output byte budget exhausted");
    assert_eq!(b.text(), Some("true "));
    b.replay(Saved::Text(0, 3)).unwrap();
    assert_eq!(b.text(), Some("true tru"));
}

#[test]
fn text_replay_needs_character_boundaries() {
    let mut b = Buffer::new(false, 64);
    b.append("aé").unwrap();
    assert!(b.replay(Saved::Text(0, 2)).is_err());
    assert_eq!(b.text(), Some("aé"));
    b.replay(Saved::Text(1, 3)).unwrap();
    assert_eq!(b.text(), Some("aéé"));
}

#[test]
fn diagnostics_keep_the_text_or_mark_the_graph_incomplete() {
    let mut b = Buffer::new(false, 64);
    b.append("(suc zero)").unwrap();
    assert_eq!(b.into_diagnostic().unwrap(), "(suc zero)");
    let mut b = Buffer::new(true, 1 << 20);
    b.append("(pair ").unwrap();
    b.append("true").unwrap();
    let text = b.into_diagnostic().unwrap();
    assert!(text.starts_with("kamo-normal-dag-prefix-v1-INCOMPLETE\n"));
    assert!(text.ends_with(" expanded-bytes 10\n"));
    assert!(!text.contains("kamo-normal-dag-v1"));
}
