use titanmk::adversarial::{
    bad_cycle, bad_nested_cycle, bad_race_diff_sm, bad_sm_conflict, good_linear,
    good_nested_repeated_block,
};
use titanmk::interface::{accumulate_tensors, aggregate, Interface};
use titanmk::ir::{DType, MemSpace, Node, NodeId, NodeKind, OpKind, Schedule, Tensor};
use titanmk::search::{detect_cycles, transitive_reach};
use titanmk::validator::{
    check_races, check_sm_order, tensors_overlap, validate, TensorAccess, ValidationError,
};

fn tensor(name: &str, space: MemSpace) -> Tensor {
    Tensor {
        name: name.to_string(),
        shape: vec![1],
        dtype: DType::F32,
        space,
    }
}

fn hbm(name: &str) -> Tensor {
    tensor(name, MemSpace::Hbm)
}

fn op(id: NodeId, sm: u32, reads: Vec<Tensor>, writes: Vec<Tensor>, waits_on: Vec<NodeId>) -> Node {
    Node {
        id,
        kind: NodeKind::Op(OpKind::Barrier),
        inputs: reads,
        outputs: writes,
        sm,
        waits_on,
    }
}

fn block(id: NodeId, sm: u32, sub: Schedule, waits_on: Vec<NodeId>) -> Node {
    Node {
        id,
        kind: NodeKind::SubSchedule(Box::new(sub)),
        inputs: vec![],
        outputs: vec![],
        sm,
        waits_on,
    }
}

fn level(nodes: Vec<Node>) -> Schedule {
    let mut s = Schedule::new("level");
    for node in nodes {
        s.push(node);
    }
    s
}

#[test]
fn nothing_is_certified() {
    let cert = validate(&Schedule::new("empty")).expect("nothing can go wrong");
    assert_eq!(cert.schedule_name, "empty");
    assert_eq!(cert.node_count, 0);
    assert!(cert.interface.names().is_empty());
    assert_eq!(cert.fingerprint.len(), 64);
}

#[test]
fn certificate_describes_the_schedule() {
    let cert = validate(&good_nested_repeated_block()).expect("certified");
    assert_eq!(cert.node_count, 8);
    let copy = cert.clone();
    assert_eq!(copy.schedule_name, cert.schedule_name);
    assert_eq!(copy.node_count, cert.node_count);
    assert_eq!(copy.fingerprint, cert.fingerprint);
    assert_eq!(copy.interface.names(), cert.interface.names());
    let linear = validate(&good_linear()).expect("certified");
    assert_eq!(linear.interface.names(), vec!["x0", "x1", "x2"]);
    assert_eq!(
        linear.interface.get("x1"),
        Some(TensorAccess { read: true, written: true, space: Some(MemSpace::Hbm) })
    );
    assert_eq!(
        linear.interface.get("x2"),
        Some(TensorAccess { read: false, written: true, space: Some(MemSpace::Hbm) })
    );
    assert_eq!(linear.interface.get("x3"), None);
}

#[test]
fn a_node_waiting_on_itself_is_a_cycle() {
    let s = level(vec![op(3, 0, vec![], vec![], vec![3])]);
    assert_eq!(validate(&s).unwrap_err(), ValidationError::Cycle(3));
}

#[test]
fn a_cycle_is_reported_on_the_cycle() {
    // 0 waits on a cycle of 1 and 2 without being part of it.
    let s = level(vec![
        op(0, 0, vec![], vec![], vec![1]),
        op(1, 0, vec![], vec![], vec![2]),
        op(2, 0, vec![], vec![], vec![1]),
    ]);
    match validate(&s).unwrap_err() {
        ValidationError::Cycle(id) => assert!(id == 1 || id == 2),
        other => panic!("expected a cycle, got {other:?}"),
    }
}

#[test]
fn the_first_dangling_wait_is_reported() {
    let s = level(vec![
        op(0, 0, vec![], vec![], vec![]),
        op(1, 0, vec![], vec![], vec![0, 8, 9]),
        op(2, 0, vec![], vec![], vec![7]),
    ]);
    assert_eq!(validate(&s).unwrap_err(), ValidationError::DanglingWait(1, 8));
}

#[test]
fn waits_do_not_reach_across_levels() {
    let inner = level(vec![op(5, 0, vec![], vec![], vec![0])]);
    let s = level(vec![op(0, 0, vec![], vec![], vec![]), block(1, 0, inner, vec![])]);
    assert_eq!(
        validate(&s).unwrap_err(),
        ValidationError::NestedFailure(
            "level".to_string(),
            Box::new(ValidationError::DanglingWait(5, 0))
        )
    );
}

#[test]
fn dangling_waits_come_before_cycles() {
    let s = level(vec![
        op(0, 0, vec![], vec![], vec![0]),
        op(1, 0, vec![], vec![], vec![6]),
    ]);
    assert_eq!(validate(&s).unwrap_err(), ValidationError::DanglingWait(1, 6));
}

#[test]
fn cycles_come_before_unit_conflicts() {
    let s = level(vec![
        op(0, 0, vec![], vec![hbm("t")], vec![]),
        op(1, 0, vec![], vec![hbm("t")], vec![]),
        op(2, 0, vec![], vec![], vec![2]),
    ]);
    assert_eq!(validate(&s).unwrap_err(), ValidationError::Cycle(2));
}

#[test]
fn unit_conflicts_come_before_races() {
    let s = level(vec![
        op(0, 0, vec![], vec![hbm("t")], vec![]),
        op(1, 1, vec![], vec![hbm("t")], vec![]),
        op(2, 1, vec![], vec![hbm("t")], vec![0]),
    ]);
    assert_eq!(
        validate(&s).unwrap_err(),
        ValidationError::SmOrderConflict { sm: 1, a: 1, b: 2 }
    );
}

#[test]
fn the_first_pair_of_a_unit_is_reported() {
    let s = level(vec![
        op(4, 7, vec![], vec![hbm("a")], vec![]),
        op(3, 7, vec![hbm("b")], vec![], vec![]),
        op(2, 7, vec![hbm("b")], vec![], vec![]),
        op(1, 7, vec![hbm("a")], vec![], vec![]),
    ]);
    assert_eq!(
        validate(&s).unwrap_err(),
        ValidationError::SmOrderConflict { sm: 7, a: 4, b: 1 }
    );
}

#[test]
fn built_in_conflict_and_race_name_their_nodes() {
    match validate(&bad_sm_conflict()).unwrap_err() {
        ValidationError::SmOrderConflict { sm, a, b } => assert_eq!((sm, a, b), (0, 0, 1)),
        other => panic!("expected a conflict, got {other:?}"),
    }
    match validate(&bad_race_diff_sm()).unwrap_err() {
        ValidationError::Race { a, b, tensor, space } => {
            assert_ne!(a, b);
            assert!(a < 2 && b < 2);
            assert_eq!(tensor, "shared");
            assert_eq!(space, MemSpace::Hbm);
        }
        other => panic!("expected a race, got {other:?}"),
    }
}

#[test]
fn nodes_of_one_unit_need_an_order_even_to_read() {
    let s = level(vec![
        op(0, 0, vec![hbm("t")], vec![], vec![]),
        op(1, 0, vec![hbm("t")], vec![], vec![]),
    ]);
    assert_eq!(
        validate(&s).unwrap_err(),
        ValidationError::SmOrderConflict { sm: 0, a: 0, b: 1 }
    );
    let told = level(vec![
        op(0, 0, vec![hbm("t")], vec![], vec![]),
        op(1, 0, vec![hbm("t")], vec![], vec![0]),
    ]);
    assert!(validate(&told).is_ok());
}

#[test]
fn unit_conflicts_ignore_memory_spaces() {
    let s = level(vec![
        op(0, 0, vec![], vec![hbm("t")], vec![]),
        op(1, 0, vec![tensor("t", MemSpace::Register)], vec![], vec![]),
    ]);
    assert_eq!(
        validate(&s).unwrap_err(),
        ValidationError::SmOrderConflict { sm: 0, a: 0, b: 1 }
    );
}

#[test]
fn readers_do_not_race() {
    let s = level(vec![
        op(0, 0, vec![hbm("t")], vec![], vec![]),
        op(1, 1, vec![hbm("t")], vec![], vec![]),
    ]);
    assert!(validate(&s).is_ok());
}

#[test]
fn different_memory_spaces_do_not_race() {
    let s = level(vec![
        op(0, 0, vec![], vec![hbm("t")], vec![]),
        op(1, 1, vec![], vec![tensor("t", MemSpace::SharedL1)], vec![]),
    ]);
    assert!(validate(&s).is_ok());
}

#[test]
fn an_order_through_other_nodes_prevents_a_race() {
    let s = level(vec![
        op(0, 0, vec![], vec![hbm("t")], vec![]),
        op(1, 1, vec![], vec![], vec![0]),
        op(2, 2, vec![hbm("t")], vec![], vec![1]),
    ]);
    assert!(validate(&s).is_ok());
}

#[test]
fn a_reader_and_a_writer_race() {
    let s = level(vec![
        op(0, 0, vec![hbm("u"), hbm("t")], vec![hbm("v")], vec![]),
        op(1, 1, vec![], vec![hbm("t")], vec![]),
    ]);
    match validate(&s).unwrap_err() {
        ValidationError::Race { a, b, tensor, space } => {
            assert_eq!(a + b, 1);
            assert_eq!(tensor, "t");
            assert_eq!(space, MemSpace::Hbm);
        }
        other => panic!("expected a race, got {other:?}"),
    }
}

#[test]
fn a_racing_name_counts_as_written_in_any_space() {
    // Both read "t" in registers; the first also writes a "t" elsewhere.
    let s = level(vec![
        op(0, 0, vec![tensor("t", MemSpace::Register)], vec![hbm("t")], vec![]),
        op(1, 1, vec![tensor("t", MemSpace::Register)], vec![], vec![]),
    ]);
    match validate(&s).unwrap_err() {
        ValidationError::Race { tensor, space, .. } => {
            assert_eq!(tensor, "t");
            assert_eq!(space, MemSpace::Register);
        }
        other => panic!("expected a race, got {other:?}"),
    }
}

#[test]
fn blocks_race_over_what_is_in_them() {
    let s = level(vec![
        block(0, 0, good_linear(), vec![]),
        block(1, 1, good_linear(), vec![]),
    ]);
    match validate(&s).unwrap_err() {
        ValidationError::Race { a, b, tensor, .. } => {
            assert_eq!(a + b, 1);
            assert_eq!(tensor, "x0");
        }
        other => panic!("expected a race, got {other:?}"),
    }
    let told = level(vec![
        block(0, 0, good_linear(), vec![]),
        block(1, 1, good_linear(), vec![0]),
    ]);
    assert!(validate(&told).is_ok());
}

#[test]
fn blocks_of_one_unit_conflict_over_what_is_in_them() {
    let s = level(vec![
        block(0, 4, good_linear(), vec![]),
        op(1, 4, vec![hbm("x2")], vec![], vec![]),
    ]);
    assert_eq!(
        validate(&s).unwrap_err(),
        ValidationError::SmOrderConflict { sm: 4, a: 0, b: 1 }
    );
}

#[test]
fn what_a_block_declares_counts_too() {
    let mut holder = block(0, 0, Schedule::new("idle"), vec![]);
    holder.outputs.push(hbm("t"));
    let s = level(vec![holder, op(1, 1, vec![hbm("t")], vec![], vec![])]);
    assert!(matches!(validate(&s).unwrap_err(), ValidationError::Race { .. }));
}

#[test]
fn nested_failures_come_first_and_keep_their_depth() {
    let s = level(vec![
        op(0, 0, vec![], vec![], vec![99]),
        block(1, 0, bad_nested_cycle(), vec![]),
        block(2, 0, bad_cycle(), vec![]),
    ]);
    match validate(&s).unwrap_err() {
        ValidationError::NestedFailure(outer, inner) => {
            assert_eq!(outer, bad_nested_cycle().name);
            match *inner {
                ValidationError::NestedFailure(name, cycle) => {
                    assert_eq!(name, "bad_cycle");
                    assert!(matches!(*cycle, ValidationError::Cycle(_)));
                }
                other => panic!("expected a nested failure, got {other:?}"),
            }
        }
        other => panic!("expected a nested failure, got {other:?}"),
    }
}

#[test]
fn a_block_that_touches_the_same_can_stand_in() {
    let with = |sub: Schedule| {
        level(vec![
            block(0, 0, sub, vec![]),
            op(1, 1, vec![hbm("x2")], vec![], vec![]),
        ])
    };
    let other = level(vec![op(
        5,
        9,
        vec![hbm("x0"), hbm("x1")],
        vec![hbm("x0"), hbm("x1"), hbm("x2")],
        vec![],
    )]);
    assert!(validate(&with(good_linear())).is_err());
    assert!(validate(&with(other)).is_err());
}

#[test]
fn nodes_that_share_an_id_race_like_any_others() {
    let s = level(vec![
        op(0, 0, vec![], vec![hbm("x")], vec![]),
        op(0, 1, vec![], vec![hbm("x")], vec![]),
    ]);
    assert_eq!(
        validate(&s).unwrap_err(),
        ValidationError::Race { a: 0, b: 0, tensor: "x".to_string(), space: MemSpace::Hbm }
    );
    assert_eq!(check_races(&s), Err(validate(&s).unwrap_err()));
}

#[test]
fn a_repeated_id_hides_no_node() {
    let s = level(vec![
        op(0, 0, vec![], vec![hbm("t")], vec![]),
        op(0, 1, vec![], vec![], vec![]),
        op(1, 2, vec![], vec![hbm("t")], vec![]),
    ]);
    match validate(&s).unwrap_err() {
        ValidationError::Race { a, b, tensor, .. } => {
            assert_eq!(a + b, 1);
            assert_eq!(tensor, "t");
        }
        other => panic!("expected a race, got {other:?}"),
    }
}

#[test]
fn nodes_that_share_an_id_conflict_on_their_unit() {
    let s = level(vec![
        op(5, 3, vec![hbm("t")], vec![], vec![]),
        op(5, 3, vec![hbm("t")], vec![], vec![]),
    ]);
    assert_eq!(
        validate(&s).unwrap_err(),
        ValidationError::SmOrderConflict { sm: 3, a: 5, b: 5 }
    );
    assert_eq!(check_sm_order(&s), Err(validate(&s).unwrap_err()));
}

#[test]
fn a_wait_on_a_repeated_id_is_a_wait_on_its_last_node() {
    // Node 2 waits on the second node of id 1, not on the first, which waits on it.
    let s = level(vec![
        op(1, 0, vec![], vec![], vec![2]),
        op(2, 1, vec![], vec![], vec![1]),
        op(1, 2, vec![], vec![], vec![]),
    ]);
    assert!(validate(&s).is_ok());
    assert_eq!(detect_cycles(&s), Ok(()));
    let reach = transitive_reach(&s);
    assert!(reach[&0].contains(&1) && reach[&0].contains(&2) && !reach[&0].contains(&0));
    assert!(reach[&1].contains(&2) && !reach[&1].contains(&0));
    assert!(reach[&2].is_empty());

    // A node may so wait on a later one of its own id.
    let own = level(vec![
        op(4, 0, vec![hbm("t")], vec![], vec![4]),
        op(4, 0, vec![], vec![hbm("t")], vec![]),
    ]);
    assert!(validate(&own).is_ok());
}

#[test]
fn a_cycle_through_the_last_node_of_an_id_is_found() {
    let s = level(vec![
        op(0, 0, vec![], vec![], vec![]),
        op(0, 1, vec![], vec![], vec![1]),
        op(1, 2, vec![], vec![], vec![0]),
    ]);
    assert!(matches!(
        validate(&s).unwrap_err(),
        ValidationError::Cycle(0) | ValidationError::Cycle(1)
    ));
    assert!(detect_cycles(&s).is_err());
}

#[test]
fn nothing_waits_on_an_earlier_node_of_an_id() {
    let s = level(vec![
        op(0, 0, vec![], vec![hbm("a")], vec![]),
        op(0, 1, vec![], vec![hbm("b")], vec![]),
        op(1, 2, vec![hbm("a"), hbm("b")], vec![], vec![0]),
    ]);
    match validate(&s).unwrap_err() {
        ValidationError::Race { tensor, .. } => assert_eq!(tensor, "a"),
        other => panic!("expected a race, got {other:?}"),
    }
}

#[test]
fn only_the_node_that_lists_a_wait_has_it() {
    // Of the two nodes of id 0 only the first waits on the writer.
    let s = level(vec![
        op(0, 0, vec![hbm("t")], vec![], vec![1]),
        op(0, 1, vec![hbm("t")], vec![], vec![]),
        op(1, 2, vec![], vec![hbm("t")], vec![]),
    ]);
    assert!(matches!(validate(&s).unwrap_err(), ValidationError::Race { .. }));
}

#[test]
fn further_waits_create_no_hazard() {
    let base = level(vec![
        op(0, 0, vec![], vec![hbm("t")], vec![]),
        op(1, 1, vec![hbm("t")], vec![], vec![0]),
        op(2, 2, vec![hbm("u")], vec![], vec![]),
    ]);
    assert_eq!(check_races(&base), Ok(()));
    let mut more = base.clone();
    more.nodes[2].waits_on = vec![1, 0];
    assert_eq!(check_races(&more), Ok(()));
    assert_eq!(check_sm_order(&more), Ok(()));
}

#[test]
fn overlap_goes_both_ways() {
    let a = op(0, 0, vec![hbm("p")], vec![tensor("q", MemSpace::Register)], vec![]);
    let b = op(1, 0, vec![hbm("q")], vec![], vec![]);
    let c = block(2, 0, good_linear(), vec![]);
    let d = op(3, 0, vec![], vec![hbm("x1")], vec![]);
    assert!(tensors_overlap(&a, &b) && tensors_overlap(&b, &a));
    assert!(tensors_overlap(&c, &d) && tensors_overlap(&d, &c));
    assert!(!tensors_overlap(&a, &c) && !tensors_overlap(&c, &a));
}

#[test]
fn cycle_search_and_reach_on_one_level() {
    let s = level(vec![
        op(7, 0, vec![], vec![], vec![]),
        op(8, 0, vec![], vec![], vec![7]),
        op(9, 0, vec![], vec![], vec![8]),
    ]);
    assert_eq!(detect_cycles(&s), Ok(()));
    let reach = transitive_reach(&s);
    assert_eq!(reach.len(), 3);
    assert!(reach[&0].is_empty());
    assert_eq!(reach[&1].len(), 1);
    assert!(reach[&2].contains(&0) && reach[&2].contains(&1));

    let found = detect_cycles(&bad_cycle());
    assert!(found == Err(0) || found == Err(1));
}

#[test]
fn interface_keeps_the_last_space_and_both_kinds() {
    let mut map = Interface::new();
    assert!(!map.contains_key("t"));
    accumulate_tensors(&mut map, &vec![hbm("t"), hbm("b")], false);
    assert_eq!(
        map.get("t"),
        Some(TensorAccess { read: true, written: false, space: Some(MemSpace::Hbm) })
    );
    accumulate_tensors(&mut map, &vec![tensor("t", MemSpace::Register)], true);
    assert_eq!(
        map.get("t"),
        Some(TensorAccess { read: true, written: true, space: Some(MemSpace::Register) })
    );
    assert_eq!(map.names(), vec!["b", "t"]);
    assert_eq!(map.clone().names(), map.names());
}

#[test]
fn interface_of_a_schedule_leaves_out_what_only_holders_declare() {
    let mut holder = block(0, 0, good_linear(), vec![]);
    holder.outputs.push(hbm("declared"));
    let map = aggregate(&level(vec![holder]));
    assert_eq!(map.names(), vec!["x0", "x1", "x2"]);
    assert!(!map.contains_key("declared"));
}

#[test]
fn interface_names_are_sorted_by_bytes() {
    let mut map = Interface::new();
    accumulate_tensors(
        &mut map,
        &vec![hbm("b"), hbm("\u{e9}"), hbm("ab"), hbm("Z"), hbm("a"), hbm("")],
        true,
    );
    assert_eq!(map.names(), vec!["", "Z", "a", "ab", "b", "\u{e9}"]);
}

#[test]
fn default_access_is_none_at_all() {
    assert_eq!(
        TensorAccess::default(),
        TensorAccess { read: false, written: false, space: None }
    );
}
