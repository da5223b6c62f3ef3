use timer_tree::{parse, serialize, TimerTree};

#[test]
fn serializes_exact_bytes() {
    let mut tree = TimerTree::default();
    tree.record("a", 0, Some(7)).unwrap();
    let out = serialize(&tree);
    assert_eq!(out, b"{\"timings\":[{\"name\":\"a\",\"duration\":7,\"depth\":0}]}".to_vec());
}

#[test]
fn serializes_empty_tree() {
    let tree = TimerTree::default();
    let out = serialize(&tree);
    assert_eq!(out, b"{\"timings\":[]}".to_vec());
    let back = parse(&out).unwrap();
    assert_eq!(back.len(), 0);
}

#[test]
fn serializes_multi_digit_numbers() {
    let mut tree = TimerTree::default();
    tree.record("busy", 12, Some(1234567890123)).unwrap();
    let out = serialize(&tree);
    assert_eq!(
        out,
        b"{\"timings\":[{\"name\":\"busy\",\"duration\":1234567890123,\"depth\":12}]}".to_vec()
    );
}

#[test]
fn escapes_quotes_and_backslashes() {
    let mut tree = TimerTree::default();
    tree.record("say \"hi\" \\ bye", 0, Some(1)).unwrap();
    let out = serialize(&tree);
    assert_eq!(
        out,
        b"{\"timings\":[{\"name\":\"say \\\"hi\\\" \\\\ bye\",\"duration\":1,\"depth\":0}]}"
            .to_vec()
    );
    let back = parse(&out).unwrap();
    assert_eq!(back.len(), 1);
    assert_eq!(back[0].name, b"say \"hi\" \\ bye".to_vec());
}

#[test]
fn round_trip_preserves_all_triples() {
    let mut tree = TimerTree::default();
    tree.record("c", 2, Some(3)).unwrap();
    tree.record("d", 2, Some(0)).unwrap();
    tree.record("b", 1, Some(10)).unwrap();
    tree.record("a", 0, Some(25)).unwrap();
    let out = serialize(&tree);
    let back = parse(&out).unwrap();
    let records = tree.timings();
    assert_eq!(back.len(), records.len());
    for (parsed, original) in back.iter().zip(records.iter()) {
        assert_eq!(parsed.name, original.name.as_bytes().to_vec());
        assert_eq!(parsed.duration, original.duration);
        assert_eq!(parsed.depth, original.depth);
    }
}

#[test]
fn round_trip_after_real_timing() {
    let mut tree = TimerTree::default();
    let a = tree.open("a");
    let b = a.open("b", &mut tree);
    b.close(&mut tree).unwrap();
    a.close(&mut tree).unwrap();
    let out = serialize(&tree);
    let back = parse(&out).unwrap();
    assert_eq!(back.len(), 2);
    assert_eq!(back[0].name, b"b".to_vec());
    assert_eq!(back[0].depth, 1);
    assert_eq!(back[1].name, b"a".to_vec());
    assert_eq!(back[1].depth, 0);
}

#[test]
fn empty_name_round_trips() {
    let mut tree = TimerTree::default();
    tree.record("", 0, Some(0)).unwrap();
    let out = serialize(&tree);
    assert_eq!(out, b"{\"timings\":[{\"name\":\"\",\"duration\":0,\"depth\":0}]}".to_vec());
    let back = parse(&out).unwrap();
    assert_eq!(back.len(), 1);
    assert_eq!(back[0].name, Vec::<u8>::new());
    assert_eq!(back[0].duration, 0);
    assert_eq!(back[0].depth, 0);
}

#[test]
fn largest_values_round_trip() {
    let mut tree = TimerTree::default();
    tree.record("edge", u32::MAX, Some(i64::MAX)).unwrap();
    let out = serialize(&tree);
    assert_eq!(
        out,
        b"{\"timings\":[{\"name\":\"edge\",\"duration\":9223372036854775807,\"depth\":4294967295}]}"
            .to_vec()
    );
    let back = parse(&out).unwrap();
    assert_eq!(back[0].duration, i64::MAX);
    assert_eq!(back[0].depth, u32::MAX);
}

#[test]
fn non_ascii_name_round_trips() {
    let mut tree = TimerTree::default();
    tree.record("t\u{e9}l\u{e9}", 1, Some(2)).unwrap();
    let out = serialize(&tree);
    let back = parse(&out).unwrap();
    assert_eq!(back[0].name, "t\u{e9}l\u{e9}".as_bytes().to_vec());
    assert_eq!(back[0].duration, 2);
    assert_eq!(back[0].depth, 1);
}

#[test]
fn parse_rejects_malformed_input() {
    assert!(parse(b"nonsense").is_none());
    assert!(parse(b"{\"timings\":[").is_none());
    assert!(parse(b"{\"timings\":[{\"name\":\"a\",\"duration\":-1,\"depth\":0}]}").is_none());
    assert!(parse(b"").is_none());
}

#[test]
fn serialized_form_is_valid_json() {
    let mut tree = TimerTree::default();
    tree.record("c", 2, Some(3)).unwrap();
    tree.record("a", 0, Some(25)).unwrap();
    let out = serialize(&tree);
    let value: serde_json::Value = serde_json::from_slice(&out).unwrap();
    let timings = value["timings"].as_array().unwrap();
    assert_eq!(timings.len(), 2);
    assert_eq!(timings[0]["name"].as_str().unwrap(), "c");
    assert_eq!(timings[0]["duration"].as_i64().unwrap(), 3);
    assert_eq!(timings[0]["depth"].as_u64().unwrap(), 2);
    assert_eq!(timings[1]["name"].as_str().unwrap(), "a");
    assert_eq!(timings[1]["duration"].as_i64().unwrap(), 25);
    assert_eq!(timings[1]["depth"].as_u64().unwrap(), 0);
}
