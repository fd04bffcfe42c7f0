use std::collections::HashSet;
use titanmk::adversarial::{good_linear, good_nested_repeated_block};
use titanmk::ir::{DType, MemSpace, Node, NodeId, NodeKind, OpKind, Schedule, Tensor};
use titanmk::order::topo_sort;

fn tensor(name: &str) -> Tensor {
    Tensor {
        name: name.to_string(),
        shape: vec![2, 3],
        dtype: DType::F16,
        space: MemSpace::Hbm,
    }
}

fn barrier(id: NodeId, sm: u32, waits_on: Vec<NodeId>) -> Node {
    Node {
        id,
        kind: NodeKind::Op(OpKind::Barrier),
        inputs: vec![],
        outputs: vec![],
        sm,
        waits_on,
    }
}

fn block(id: NodeId, sm: u32, sub: Schedule) -> Node {
    Node {
        id,
        kind: NodeKind::SubSchedule(Box::new(sub)),
        inputs: vec![],
        outputs: vec![],
        sm,
        waits_on: vec![],
    }
}

fn ids(sorted: Option<Vec<&Node>>) -> Option<Vec<NodeId>> {
    sorted.map(|nodes| nodes.iter().map(|n| n.id).collect())
}

#[test]
fn new_takes_a_slice_or_a_string() {
    let a = Schedule::new("plan");
    let b = Schedule::new(String::from("plan"));
    assert_eq!(a.name, "plan");
    assert_eq!(b.name, "plan");
    assert!(a.nodes.is_empty());
}

#[test]
fn push_appends_in_order() {
    let mut s = Schedule::new("s");
    s.push(barrier(4, 0, vec![]));
    s.push(barrier(1, 0, vec![4]));
    let listed: Vec<NodeId> = s.nodes.iter().map(|n| n.id).collect();
    assert_eq!(listed, vec![4, 1]);
}

#[test]
fn clones_are_equal_and_apart() {
    let t = tensor("a");
    assert_eq!(t.clone(), t);
    let op = OpKind::Elementwise { op: "relu".to_string() };
    assert_eq!(op.clone(), op);
    let s = good_nested_repeated_block();
    let mut copy = s.clone();
    assert_eq!(format!("{copy:?}"), format!("{s:?}"));
    copy.push(barrier(9, 0, vec![]));
    assert_eq!(s.nodes.len() + 1, copy.nodes.len());
}

#[test]
fn flatten_lists_nested_nodes_under_their_holders() {
    let mut deepest = Schedule::new("deepest");
    deepest.push(barrier(7, 0, vec![]));
    let mut inner = Schedule::new("inner");
    inner.push(barrier(1, 0, vec![]));
    inner.push(block(2, 0, deepest));
    let mut outer = Schedule::new("outer");
    outer.push(block(5, 0, inner));
    outer.push(barrier(6, 0, vec![]));
    let listed: Vec<(Vec<NodeId>, NodeId)> =
        outer.flatten().into_iter().map(|(path, n)| (path, n.id)).collect();
    assert_eq!(
        listed,
        vec![
            (vec![], 5),
            (vec![5], 1),
            (vec![5], 2),
            (vec![5, 2], 7),
            (vec![], 6),
        ]
    );
}

#[test]
fn flatten_addresses_are_unique_in_a_repeated_block() {
    let s = good_nested_repeated_block();
    let mut seen: HashSet<Vec<NodeId>> = HashSet::new();
    let listed = s.flatten();
    assert_eq!(listed.len(), 8);
    for (path, node) in listed {
        let mut address = path;
        address.push(node.id);
        assert!(seen.insert(address));
    }
}

#[test]
fn flatten_of_nothing_is_empty() {
    assert!(Schedule::new("empty").flatten().is_empty());
}

#[test]
fn index_finds_nodes_of_one_level() {
    let s = good_nested_repeated_block();
    let index = s.index();
    assert_eq!(index.len(), 2);
    assert_eq!(index[&101].waits_on, vec![100]);
    assert!(index.get(&0).is_none());
}

#[test]
fn index_keeps_the_later_of_two_nodes() {
    let mut s = Schedule::new("s");
    s.push(barrier(3, 10, vec![]));
    s.push(barrier(3, 20, vec![]));
    let index = s.index();
    assert_eq!(index.len(), 1);
    assert_eq!(index[&3].sm, 20);
}

#[test]
fn all_sms_reaches_into_nested_schedules() {
    let mut inner = Schedule::new("inner");
    inner.push(barrier(0, 8, vec![]));
    inner.push(barrier(1, 3, vec![]));
    let mut outer = Schedule::new("outer");
    outer.push(block(0, 5, inner));
    outer.push(barrier(1, 3, vec![]));
    let expected: HashSet<u32> = vec![3, 5, 8].into_iter().collect();
    assert_eq!(outer.all_sms(), expected);
    assert!(Schedule::new("empty").all_sms().is_empty());
}

#[test]
fn launch_order_of_a_pipeline() {
    assert_eq!(ids(topo_sort(&good_linear())), Some(vec![0, 1, 2]));
}

#[test]
fn launch_order_prefers_small_ids_and_respects_waits() {
    let mut s = Schedule::new("s");
    s.push(barrier(9, 0, vec![]));
    s.push(barrier(2, 0, vec![9]));
    s.push(barrier(5, 0, vec![]));
    s.push(barrier(1, 0, vec![5, 9]));
    s.push(barrier(7, 0, vec![]));
    assert_eq!(ids(topo_sort(&s)), Some(vec![5, 7, 9, 1, 2]));
}

#[test]
fn launch_order_counts_a_repeated_wait_once_for_each_mention() {
    let mut s = Schedule::new("s");
    s.push(barrier(0, 0, vec![1, 1]));
    s.push(barrier(1, 0, vec![]));
    assert_eq!(ids(topo_sort(&s)), Some(vec![1, 0]));
}

#[test]
fn launch_order_is_missing_on_cycles_dangling_waits_and_repeated_ids() {
    let mut cyclic = Schedule::new("cyclic");
    cyclic.push(barrier(0, 0, vec![1]));
    cyclic.push(barrier(1, 0, vec![0]));
    assert!(topo_sort(&cyclic).is_none());

    let mut alone = Schedule::new("alone");
    alone.push(barrier(0, 0, vec![0]));
    assert!(topo_sort(&alone).is_none());

    let mut dangling = Schedule::new("dangling");
    dangling.push(barrier(0, 0, vec![4]));
    assert!(topo_sort(&dangling).is_none());

    let mut repeated = Schedule::new("repeated");
    repeated.push(barrier(0, 0, vec![]));
    repeated.push(barrier(0, 1, vec![]));
    assert!(topo_sort(&repeated).is_none());
}

#[test]
fn launch_order_of_nothing_is_empty() {
    assert_eq!(ids(topo_sort(&Schedule::new("empty"))), Some(vec![]));
}
