use titanmk::adversarial::{bad_cycle, good_linear, good_nested_repeated_block};
use titanmk::fingerprint::{canonical_json, digest_text};
use titanmk::ir::{DType, MemSpace, Node, NodeId, NodeKind, OpKind, Schedule, Tensor};
use titanmk::text::{decimal_text, same_text, text_order, TextOrder};
use titanmk::validator::{fingerprint_schedule, validate};

fn op_node(id: NodeId, kind: OpKind) -> Node {
    Node {
        id,
        kind: NodeKind::Op(kind),
        inputs: vec![],
        outputs: vec![],
        sm: 0,
        waits_on: vec![],
    }
}

fn all_kinds() -> Schedule {
    let mut s = Schedule::new("q\"\\\n\t\r\u{8}\u{c}\u{1}\u{e9}\u{7f}/");
    let mut first = op_node(7, OpKind::MatMul { m: 1, n: 22, k: u64::MAX });
    first.sm = u32::MAX;
    first.waits_on = vec![1, 2];
    s.push(first);
    s.push(op_node(8, OpKind::RmsNorm { dim: 4 }));
    s.push(op_node(9, OpKind::Softmax { dim: 5 }));
    s.push(op_node(10, OpKind::Attention { heads: 1, head_dim: 2, seq_len: 3 }));
    let mut last = op_node(11, OpKind::Barrier);
    last.inputs.push(Tensor {
        name: "t".to_string(),
        shape: vec![2, 3],
        dtype: DType::BF16,
        space: MemSpace::Register,
    });
    s.push(last);
    s
}

#[test]
fn canonical_text_of_nothing() {
    assert_eq!(canonical_json(&Schedule::new("")), "{\"name\":\"\",\"nodes\":[]}");
}

#[test]
fn canonical_text_of_the_pipeline() {
    let text = canonical_json(&good_linear());
    assert!(text.starts_with(
        "{\"name\":\"good_linear\",\"nodes\":[{\"id\":0,\"kind\":{\"Op\":{\"Elementwise\":{\"op\":\"id\"}}},\
         \"inputs\":[],\"outputs\":[{\"name\":\"x0\",\"shape\":[1],\"dtype\":\"F32\",\"space\":\"Hbm\"}],\
         \"sm\":0,\"waits_on\":[]},"
    ));
}

#[test]
fn canonical_text_of_every_kind() {
    let text = canonical_json(&all_kinds());
    let expected = "{\"name\":\"q\\\"\\\\\\n\\t\\r\\b\\f\\u0001\u{e9}\u{7f}/\",\"nodes\":[\
        {\"id\":7,\"kind\":{\"Op\":{\"MatMul\":{\"m\":1,\"n\":22,\"k\":18446744073709551615}}},\
        \"inputs\":[],\"outputs\":[],\"sm\":4294967295,\"waits_on\":[1,2]},\
        {\"id\":8,\"kind\":{\"Op\":{\"RmsNorm\":{\"dim\":4}}},\
        \"inputs\":[],\"outputs\":[],\"sm\":0,\"waits_on\":[]},\
        {\"id\":9,\"kind\":{\"Op\":{\"Softmax\":{\"dim\":5}}},\
        \"inputs\":[],\"outputs\":[],\"sm\":0,\"waits_on\":[]},\
        {\"id\":10,\"kind\":{\"Op\":{\"Attention\":{\"heads\":1,\"head_dim\":2,\"seq_len\":3}}},\
        \"inputs\":[],\"outputs\":[],\"sm\":0,\"waits_on\":[]},\
        {\"id\":11,\"kind\":{\"Op\":\"Barrier\"},\
        \"inputs\":[{\"name\":\"t\",\"shape\":[2,3],\"dtype\":\"BF16\",\"space\":\"Register\"}],\
        \"outputs\":[],\"sm\":0,\"waits_on\":[]}]}";
    assert_eq!(text, expected);
}

#[test]
fn canonical_text_is_json() {
    let value: serde_json::Value =
        serde_json::from_str(&canonical_json(&all_kinds())).expect("it parses");
    assert_eq!(value["name"].as_str(), Some(all_kinds().name.as_str()));
    assert_eq!(value["nodes"][0]["waits_on"][1].as_u64(), Some(2));
    assert_eq!(
        value["nodes"][0]["kind"]["Op"]["MatMul"]["k"].as_u64(),
        Some(u64::MAX)
    );
    assert_eq!(value["nodes"][4]["kind"]["Op"].as_str(), Some("Barrier"));
    let nested: serde_json::Value =
        serde_json::from_str(&canonical_json(&good_nested_repeated_block())).expect("it parses");
    let inner = &nested["nodes"][1]["kind"]["SubSchedule"];
    assert_eq!(inner["name"].as_str(), Some("good_linear"));
    assert_eq!(inner["nodes"].as_array().map(|nodes| nodes.len()), Some(3));
}

#[test]
fn canonical_text_of_strings_is_what_serde_json_writes() {
    for code in 0u32..0x300 {
        if let Some(c) = char::from_u32(code) {
            let name = format!("a{c}b");
            let quoted = serde_json::to_string(&name).expect("strings serialize");
            assert_eq!(
                canonical_json(&Schedule::new(name)),
                format!("{{\"name\":{quoted},\"nodes\":[]}}")
            );
        }
    }
}

#[test]
fn memory_spaces_and_element_types_by_name() {
    let with = |dtype: DType, space: MemSpace| {
        let mut node = op_node(0, OpKind::Barrier);
        node.outputs.push(Tensor { name: String::new(), shape: vec![], dtype, space });
        let mut s = Schedule::new("s");
        s.push(node);
        canonical_json(&s)
    };
    assert!(with(DType::F32, MemSpace::Hbm).contains("\"dtype\":\"F32\",\"space\":\"Hbm\""));
    assert!(with(DType::F16, MemSpace::SharedL1).contains("\"dtype\":\"F16\",\"space\":\"SharedL1\""));
    assert!(with(DType::BF16, MemSpace::Register).contains("\"dtype\":\"BF16\",\"space\":\"Register\""));
    assert!(with(DType::I8, MemSpace::Hbm).contains("\"shape\":[],\"dtype\":\"I8\""));
}

#[test]
fn fingerprints_of_known_schedules() {
    assert_eq!(
        fingerprint_schedule(&good_linear()),
        "62df0814db6d006349bb01b15dd28a1d21da8aaef277e0e1543c28a39a035e66"
    );
    assert_eq!(
        fingerprint_schedule(&bad_cycle()),
        "a0932f31199ba8a0ed15cf0a3c20e2f335bf4ecf7b9d5d5e9b63d644172ad640"
    );
    assert_eq!(
        fingerprint_schedule(&good_nested_repeated_block()),
        "6416e8685c75f3a9cd582bb7c99d74e52d1a2676ffe84c82d7b9f00b27b8f1ba"
    );
    assert_eq!(
        fingerprint_schedule(&all_kinds()),
        "106e31daabf8bcd103f43c9beec849817ce3811a2375f4fa955983f661e6b2ba"
    );
}

#[test]
fn certificates_carry_the_fingerprint() {
    let cert = validate(&good_linear()).expect("certified");
    assert_eq!(cert.fingerprint, fingerprint_schedule(&good_linear()));
}

#[test]
fn any_change_changes_the_canonical_text() {
    let base = canonical_json(&good_linear());
    let mut renamed = good_linear();
    renamed.name.push('x');
    assert_ne!(canonical_json(&renamed), base);
    let mut moved = good_linear();
    moved.nodes[2].sm = 9;
    assert_ne!(canonical_json(&moved), base);
    let mut waiting = good_linear();
    waiting.nodes[2].waits_on.push(0);
    assert_ne!(canonical_json(&waiting), base);
    let mut reshaped = good_linear();
    reshaped.nodes[0].outputs[0].shape[0] = 11;
    assert_ne!(canonical_json(&reshaped), base);
    let mut swapped = good_linear();
    swapped.nodes.swap(0, 1);
    assert_ne!(canonical_json(&swapped), base);
}

#[test]
fn digests_are_written_in_lower_case() {
    assert_eq!(digest_text(&[]), "");
    assert_eq!(digest_text(&[0x00, 0x0f, 0xa0, 0xff, 0x12]), "000fa0ff12");
}

#[test]
fn numbers_in_decimal() {
    assert_eq!(decimal_text(0), "0");
    assert_eq!(decimal_text(10), "10");
    assert_eq!(decimal_text(u64::MAX), "18446744073709551615");
}

#[test]
fn texts_are_ordered_as_strings_are() {
    let list = ["", "a", "ab", "b", "Z", "\u{e9}", "\u{10000}", "a\u{0}"];
    for a in list {
        for b in list {
            let found = match text_order(a, b) {
                TextOrder::Before => a < b,
                TextOrder::Same => a == b,
                TextOrder::After => a > b,
            };
            assert!(found);
            assert_eq!(same_text(a, b), a == b);
        }
    }
}
