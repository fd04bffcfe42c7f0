//! Schedules that are known to be safe, and schedules with one known hazard
//! each. The validator accepts every one of the former and rejects every one
//! of the latter for the hazard that it has.
use vstd::prelude::*;

use crate::graph::{
    acyclic, lemma_reaches_first, lemma_reaches_transitive, lemma_wait_reaches, reaches,
    reaches_through, waits,
};
use crate::ir::{
    has_id, tensor_models, DType, KindModel, MemSpace, Node, NodeId, NodeKind, NodeModel, OpKind,
    OpModel, Schedule, ScheduleModel, SmId, Tensor, TensorModel,
};
use crate::order::{lemma_unique_is_last, unique_ids};
use crate::rules::{
    certifiable, dangles, first_uncertifiable, lemma_wait_graph, level_rejects, level_safe,
    names_tensor, node_certifiable, node_rejects, node_touches, node_writes, ordered_at, overlap,
    queues_consistent, race_at, race_between, race_free, rejects, sm_conflict, wait_graph, waits_at,
    waits_resolve, ErrorModel,
};

verus! {

/// A tensor with a single element.
pub open spec fn one_element(name: Seq<char>, space: MemSpace) -> TensorModel {
    TensorModel { name, shape: seq![1u64], dtype: DType::F32, space }
}

/// A node that copies.
pub open spec fn copy_node(
    id: NodeId,
    sm: SmId,
    waits: Seq<NodeId>,
    ins: Seq<TensorModel>,
    outs: Seq<TensorModel>,
) -> NodeModel {
    NodeModel {
        id,
        kind: KindModel::Op(OpModel::Elementwise { op: "id"@ }),
        inputs: ins,
        outputs: outs,
        sm,
        waits_on: waits,
    }
}

/// A node that holds a schedule.
pub open spec fn block_node(
    id: NodeId,
    block: ScheduleModel,
    waits: Seq<NodeId>,
    ins: Seq<TensorModel>,
    outs: Seq<TensorModel>,
) -> NodeModel {
    NodeModel {
        id,
        kind: KindModel::SubSchedule(Box::new(block)),
        inputs: ins,
        outputs: outs,
        sm: 0,
        waits_on: waits,
    }
}

fn t(name: &str, space: MemSpace) -> (res: Tensor)
    ensures
        res@ == one_element(name@, space),
{
    let res = Tensor { name: name.to_owned(), shape: vec![1], dtype: DType::F32, space };
    assert(res@.shape =~= seq![1u64]);
    res
}

/// A list of one tensor.
fn only(name: &str, space: MemSpace) -> (res: Vec<Tensor>)
    ensures
        tensor_models(res@) == seq![one_element(name@, space)],
{
    let mut res: Vec<Tensor> = Vec::new();
    res.push(t(name, space));
    assert(tensor_models(res@) =~= seq![one_element(name@, space)]);
    res
}

/// An empty list of tensors.
fn none() -> (res: Vec<Tensor>)
    ensures
        tensor_models(res@) == Seq::<TensorModel>::empty(),
{
    let res: Vec<Tensor> = Vec::new();
    assert(tensor_models(res@) =~= Seq::<TensorModel>::empty());
    res
}

/// A list of one wait.
fn after(id: NodeId) -> (res: Vec<NodeId>)
    ensures
        res@ == seq![id],
{
    let mut res: Vec<NodeId> = Vec::new();
    res.push(id);
    assert(res@ =~= seq![id]);
    res
}

fn op_node(
    id: NodeId,
    sm: SmId,
    waits: Vec<NodeId>,
    ins: Vec<Tensor>,
    outs: Vec<Tensor>,
) -> (res: Node)
    ensures
        res@ == copy_node(id, sm, waits@, tensor_models(ins@), tensor_models(outs@)),
{
    Node {
        id,
        kind: NodeKind::Op(OpKind::Elementwise { op: "id".to_owned() }),
        inputs: ins,
        outputs: outs,
        sm,
        waits_on: waits,
    }
}

/// A pipeline of three nodes on three units, each writing a tensor of its own
/// and reading the one before.
pub open spec fn linear_model() -> ScheduleModel {
    let x0 = one_element("x0"@, MemSpace::Hbm);
    let x1 = one_element("x1"@, MemSpace::Hbm);
    let x2 = one_element("x2"@, MemSpace::Hbm);
    ScheduleModel {
        name: "good_linear"@,
        nodes: seq![
            copy_node(0, 0, seq![], seq![], seq![x0]),
            copy_node(1, 1, seq![0u32], seq![x0], seq![x1]),
            copy_node(2, 2, seq![1u32], seq![x1], seq![x2]),
        ],
    }
}

/// Two nodes that wait on one another.
pub open spec fn cycle_model() -> ScheduleModel {
    ScheduleModel {
        name: "bad_cycle"@,
        nodes: seq![
            copy_node(0, 0, seq![1u32], seq![], seq![]),
            copy_node(1, 1, seq![0u32], seq![], seq![]),
        ],
    }
}

/// A node that waits on one that does not exist.
pub open spec fn dangling_wait_model() -> ScheduleModel {
    ScheduleModel {
        name: "bad_dangling_wait"@,
        nodes: seq![copy_node(0, 0, seq![99u32], seq![], seq![])],
    }
}

/// Two unordered nodes on one unit that write the same tensor.
pub open spec fn sm_conflict_model() -> ScheduleModel {
    let shared = one_element("shared"@, MemSpace::SharedL1);
    ScheduleModel {
        name: "bad_sm_conflict"@,
        nodes: seq![
            copy_node(0, 0, seq![], seq![], seq![shared]),
            copy_node(1, 0, seq![], seq![], seq![shared]),
        ],
    }
}

/// Two unordered nodes on two units that write the same tensor.
pub open spec fn race_model() -> ScheduleModel {
    let shared = one_element("shared"@, MemSpace::Hbm);
    ScheduleModel {
        name: "bad_race_diff_sm"@,
        nodes: seq![
            copy_node(0, 0, seq![], seq![], seq![shared]),
            copy_node(1, 1, seq![], seq![], seq![shared]),
        ],
    }
}

/// A schedule that holds one with a cycle.
pub open spec fn nested_cycle_model() -> ScheduleModel {
    ScheduleModel {
        name: "outer_with_bad_inner"@,
        nodes: seq![block_node(0, cycle_model(), seq![], seq![], seq![])],
    }
}

/// A schedule that runs one block twice, one after the other.
pub open spec fn repeated_block_model() -> ScheduleModel {
    let layer_in = one_element("layer_in"@, MemSpace::Hbm);
    let layer0_out = one_element("layer0_out"@, MemSpace::Hbm);
    let layer1_out = one_element("layer1_out"@, MemSpace::Hbm);
    ScheduleModel {
        name: "outer_two_layers"@,
        nodes: seq![
            block_node(100, linear_model(), seq![], seq![layer_in], seq![layer0_out]),
            block_node(101, linear_model(), seq![100u32], seq![layer0_out], seq![layer1_out]),
        ],
    }
}

/// A listed wait on a node of this level is a wait.
proof fn lemma_listed_waits(nodes: Seq<NodeModel>, i: int, j: int)
    requires
        unique_ids(nodes),
        0 <= i < nodes.len(),
        0 <= j < nodes.len(),
        nodes[i].waits_on.contains(nodes[j].id),
    ensures
        reaches(wait_graph(nodes), i, j),
{
    lemma_unique_is_last(nodes, j);
    assert(waits_at(nodes, i, j));
    lemma_wait_graph(nodes);
    assert(waits(wait_graph(nodes), i, j));
    lemma_wait_reaches(wait_graph(nodes), i, j);
}

proof fn lemma_chain_descends(nodes: Seq<NodeModel>, i: int, j: int, n: nat)
    requires
        forall|i: int, k: int|
            0 <= i < nodes.len() && 0 <= k < nodes[i].waits_on.len()
                ==> #[trigger] nodes[i].waits_on[k] < nodes[i].id,
        reaches_through(wait_graph(nodes), i, j, n),
    ensures
        nodes[j].id < nodes[i].id,
    decreases n,
{
    let g = wait_graph(nodes);
    lemma_wait_graph(nodes);
    let c = if n == 0 {
        j
    } else {
        choose|c: int| #[trigger] waits(g, i, c) && reaches_through(g, c, j, (n - 1) as nat)
    };
    assert(waits(g, i, c));
    assert(waits_at(nodes, i, c));
    let k = choose|k: int|
        0 <= k < nodes[i].waits_on.len() && nodes[i].waits_on[k] == nodes[c].id;
    assert(nodes[i].waits_on[k] < nodes[i].id);
    if n > 0 {
        lemma_chain_descends(nodes, c, j, (n - 1) as nat);
    }
}

/// Where every node waits on smaller ids only, there is no cycle.
pub proof fn lemma_descending_is_acyclic(nodes: Seq<NodeModel>)
    requires
        forall|i: int, k: int|
            0 <= i < nodes.len() && 0 <= k < nodes[i].waits_on.len()
                ==> #[trigger] nodes[i].waits_on[k] < nodes[i].id,
    ensures
        acyclic(wait_graph(nodes)),
{
    let g = wait_graph(nodes);
    assert forall|i: int| !#[trigger] reaches(g, i, i) by {
        if reaches(g, i, i) {
            let n = choose|n: nat| reaches_through(g, i, i, n);
            lemma_chain_descends(nodes, i, i, n);
        }
    }
}

/// Where every two nodes are ordered, neither queues nor races are of concern.
proof fn lemma_all_ordered(nodes: Seq<NodeModel>)
    requires
        forall|i: int, j: int| 0 <= i < j < nodes.len() ==> #[trigger] ordered_at(nodes, i, j),
    ensures
        queues_consistent(nodes),
        race_free(nodes),
{
    assert forall|i: int, j: int| !#[trigger] race_between(nodes, i, j) by {
        if race_between(nodes, i, j) {
            if i < j {
                assert(ordered_at(nodes, i, j));
            } else {
                assert(ordered_at(nodes, j, i));
            }
        }
    }
}

proof fn lemma_linear_certifiable()
    ensures
        certifiable(linear_model()),
{
    let nodes = linear_model().nodes;
    let g = wait_graph(nodes);
    assert(unique_ids(nodes));
    assert(nodes[0].id == 0 && nodes[1].id == 1 && nodes[2].id == 2);
    assert forall|i: int, k: int| !#[trigger] dangles(nodes, i, k) by {
        if i == 1 {
            assert(has_id(nodes, 0)) by {
                assert(nodes[0].id == 0);
            }
        } else if i == 2 {
            assert(has_id(nodes, 1)) by {
                assert(nodes[1].id == 1);
            }
        }
    }
    lemma_descending_is_acyclic(nodes);
    assert(nodes[1].waits_on[0] == 0 && nodes[2].waits_on[0] == 1);
    lemma_listed_waits(nodes, 1, 0);
    lemma_listed_waits(nodes, 2, 1);
    lemma_reaches_transitive(g, 2, 1, 0);
    lemma_all_ordered(nodes);
    reveal(level_safe);
    assert(forall|i: int| 0 <= i < nodes.len() ==> node_certifiable(#[trigger] nodes[i]));
}

/// A clean pipeline. It is certified.
pub fn good_linear() -> (res: Schedule)
    ensures
        res@ == linear_model(),
        certifiable(res@),
{
    let mut s = Schedule::new("good_linear");
    s.push(op_node(0, 0, Vec::new(), none(), only("x0", MemSpace::Hbm)));
    s.push(op_node(1, 1, after(0), only("x0", MemSpace::Hbm), only("x1", MemSpace::Hbm)));
    s.push(op_node(2, 2, after(1), only("x1", MemSpace::Hbm), only("x2", MemSpace::Hbm)));
    proof {
        assert(s@.nodes =~= linear_model().nodes);
        lemma_linear_certifiable();
    }
    s
}

proof fn lemma_cycle_rejected()
    ensures
        !certifiable(cycle_model()),
        forall|e: ErrorModel| #[trigger] rejects(cycle_model(), e) ==> e is Cycle,
{
    let nodes = cycle_model().nodes;
    let g = wait_graph(nodes);
    assert(unique_ids(nodes));
    assert(nodes[0].id == 0 && nodes[1].id == 1);
    assert(nodes[0].waits_on[0] == 1 && nodes[1].waits_on[0] == 0);
    lemma_listed_waits(nodes, 0, 1);
    lemma_listed_waits(nodes, 1, 0);
    lemma_reaches_transitive(g, 0, 1, 0);
    assert(!acyclic(g));
    assert(waits_resolve(nodes)) by {
        assert(has_id(nodes, 0)) by {
            assert(nodes[0].id == 0);
        }
        assert(has_id(nodes, 1)) by {
            assert(nodes[1].id == 1);
        }
    }
    reveal(level_safe);
    reveal(level_rejects);
}

/// Two nodes that wait on one another. It is rejected for its cycle.
pub fn bad_cycle() -> (res: Schedule)
    ensures
        res@ == cycle_model(),
        !certifiable(res@),
        forall|e: ErrorModel| #[trigger] rejects(res@, e) ==> e is Cycle,
{
    let mut s = Schedule::new("bad_cycle");
    s.push(op_node(0, 0, after(1), none(), none()));
    s.push(op_node(1, 1, after(0), none(), none()));
    proof {
        assert(s@.nodes =~= cycle_model().nodes);
        lemma_cycle_rejected();
    }
    s
}

/// A node that waits on one that does not exist. It is rejected for that wait.
pub fn bad_dangling_wait() -> (res: Schedule)
    ensures
        res@ == dangling_wait_model(),
        !certifiable(res@),
        forall|e: ErrorModel| #[trigger]
            rejects(res@, e) ==> e == ErrorModel::DanglingWait(0, 99),
{
    let mut s = Schedule::new("bad_dangling_wait");
    s.push(op_node(0, 0, after(99), none(), none()));
    proof {
        let nodes = dangling_wait_model().nodes;
        assert(s@.nodes =~= nodes);
        assert(nodes[0].waits_on[0] == 99);
        assert(dangles(nodes, 0, 0));
        reveal(level_safe);
        reveal(level_rejects);
        assert forall|e: ErrorModel| #[trigger] rejects(s@, e) implies e
            == ErrorModel::DanglingWait(0, 99) by {
            assert(forall|i: int| 0 <= i < nodes.len() ==> node_certifiable(#[trigger] nodes[i]));
        }
    }
    s
}

/// Neither of two nodes without waits comes first.
proof fn lemma_no_waits_unordered(nodes: Seq<NodeModel>, i: int, j: int)
    requires
        forall|i: int| 0 <= i < nodes.len() ==> (#[trigger] nodes[i]).waits_on.len() == 0,
    ensures
        !ordered_at(nodes, i, j),
        acyclic(wait_graph(nodes)),
        waits_resolve(nodes),
{
    let g = wait_graph(nodes);
    lemma_wait_graph(nodes);
    assert forall|x: int, y: int| !#[trigger] reaches(g, x, y) by {
        if reaches(g, x, y) {
            let c = lemma_reaches_first(g, x, y);
            assert(waits_at(nodes, x, c));
            assert(nodes[x].waits_on.len() == 0);
        }
    }
}

proof fn lemma_sm_conflict_rejected()
    ensures
        !certifiable(sm_conflict_model()),
        forall|e: ErrorModel| #[trigger]
            rejects(sm_conflict_model(), e) ==> e is SmOrderConflict,
{
    let nodes = sm_conflict_model().nodes;
    lemma_no_waits_unordered(nodes, 0, 1);
    let (a, b) = (nodes[0], nodes[1]);
    assert(node_touches(a)[0] == a.outputs[0]);
    assert(node_touches(b)[0] == b.outputs[0]);
    assert(names_tensor(node_touches(b), node_touches(a)[0].name));
    assert(overlap(a, b));
    assert(sm_conflict(nodes, 0, 1));
    reveal(level_safe);
    reveal(level_rejects);
    assert forall|e: ErrorModel| #[trigger] rejects(
        sm_conflict_model(),
        e,
    ) implies e is SmOrderConflict by {
        assert(forall|i: int| 0 <= i < nodes.len() ==> node_certifiable(#[trigger] nodes[i]));
    }
}

/// Two unordered nodes on one unit that write the same tensor. It is rejected
/// for the conflict on the unit, which is looked for before races.
pub fn bad_sm_conflict() -> (res: Schedule)
    ensures
        res@ == sm_conflict_model(),
        !certifiable(res@),
        forall|e: ErrorModel| #[trigger] rejects(res@, e) ==> e is SmOrderConflict,
{
    let mut s = Schedule::new("bad_sm_conflict");
    s.push(op_node(0, 0, Vec::new(), none(), only("shared", MemSpace::SharedL1)));
    s.push(op_node(1, 0, Vec::new(), none(), only("shared", MemSpace::SharedL1)));
    proof {
        assert(s@.nodes =~= sm_conflict_model().nodes);
        lemma_sm_conflict_rejected();
    }
    s
}

proof fn lemma_race_rejected()
    ensures
        !certifiable(race_model()),
        forall|e: ErrorModel| #[trigger] rejects(race_model(), e) ==> e is Race,
{
    let nodes = race_model().nodes;
    lemma_no_waits_unordered(nodes, 0, 1);
    let (a, b) = (nodes[0], nodes[1]);
    assert(node_touches(a)[0] == a.outputs[0]);
    assert(node_touches(b)[0] == b.outputs[0]);
    assert(node_writes(a)[0].name == "shared"@);
    assert(race_at(a, b, 0));
    assert(race_between(nodes, 0, 1));
    assert(queues_consistent(nodes)) by {
        assert forall|i: int, j: int| !#[trigger] sm_conflict(nodes, i, j) by {
            assert(nodes[0].sm == 0 && nodes[1].sm == 1);
        }
    }
    reveal(level_safe);
    reveal(level_rejects);
    assert forall|e: ErrorModel| #[trigger] rejects(race_model(), e) implies e is Race by {
        assert(forall|i: int| 0 <= i < nodes.len() ==> node_certifiable(#[trigger] nodes[i]));
    }
}

/// Two unordered nodes on two units that write the same tensor. It is
/// rejected for the race.
pub fn bad_race_diff_sm() -> (res: Schedule)
    ensures
        res@ == race_model(),
        !certifiable(res@),
        forall|e: ErrorModel| #[trigger] rejects(res@, e) ==> e is Race,
{
    let mut s = Schedule::new("bad_race_diff_sm");
    s.push(op_node(0, 0, Vec::new(), none(), only("shared", MemSpace::Hbm)));
    s.push(op_node(1, 1, Vec::new(), none(), only("shared", MemSpace::Hbm)));
    proof {
        assert(s@.nodes =~= race_model().nodes);
        lemma_race_rejected();
    }
    s
}

/// The report is of a cycle in the nested schedule of this name.
pub open spec fn reports_cycle_in(e: ErrorModel, schedule: Seq<char>) -> bool {
    match e {
        ErrorModel::NestedFailure(name, inner) => name == schedule && *inner is Cycle,
        _ => false,
    }
}

proof fn lemma_nested_cycle_rejected()
    ensures
        !certifiable(nested_cycle_model()),
        forall|e: ErrorModel| #[trigger]
            rejects(nested_cycle_model(), e) ==> reports_cycle_in(e, "bad_cycle"@),
{
    let nodes = nested_cycle_model().nodes;
    lemma_cycle_rejected();
    assert(!node_certifiable(nodes[0]));
    assert forall|e: ErrorModel| #[trigger] rejects(
        nested_cycle_model(),
        e,
    ) implies reports_cycle_in(e, "bad_cycle"@) by {
        let i = choose|i: int| #[trigger]
            first_uncertifiable(nodes, i) && 0 <= i < nodes.len() && node_rejects(nodes[i], e);
        assert(i == 0);
        assert(node_rejects(nodes[0], e));
        match e {
            ErrorModel::NestedFailure(_, inner) => {
                assert(rejects(cycle_model(), *inner));
            },
            _ => {},
        }
    }
}

/// A schedule that holds one with a cycle. It is rejected for the one it holds.
pub fn bad_nested_cycle() -> (res: Schedule)
    ensures
        res@ == nested_cycle_model(),
        !certifiable(res@),
        forall|e: ErrorModel| #[trigger]
            rejects(res@, e) ==> reports_cycle_in(e, "bad_cycle"@),
{
    let inner = bad_cycle();
    let mut outer = Schedule::new("outer_with_bad_inner");
    outer.push(
        Node {
            id: 0,
            kind: NodeKind::SubSchedule(Box::new(inner)),
            inputs: none(),
            outputs: none(),
            sm: 0,
            waits_on: Vec::new(),
        },
    );
    proof {
        assert(outer@.nodes =~= nested_cycle_model().nodes);
        lemma_nested_cycle_rejected();
    }
    outer
}

proof fn lemma_repeated_block_certifiable()
    ensures
        certifiable(repeated_block_model()),
{
    let nodes = repeated_block_model().nodes;
    assert(unique_ids(nodes));
    assert(nodes[0].id == 100 && nodes[1].id == 101);
    assert(nodes[1].waits_on[0] == 100);
    assert forall|i: int, k: int| !#[trigger] dangles(nodes, i, k) by {
        assert(has_id(nodes, 100)) by {
            assert(nodes[0].id == 100);
        }
    }
    lemma_descending_is_acyclic(nodes);
    lemma_listed_waits(nodes, 1, 0);
    lemma_all_ordered(nodes);
    lemma_linear_certifiable();
    reveal(level_safe);
    assert(forall|i: int| 0 <= i < nodes.len() ==> node_certifiable(#[trigger] nodes[i]));
}

/// A schedule that runs one block twice, one after the other. It is certified.
pub fn good_nested_repeated_block() -> (res: Schedule)
    ensures
        res@ == repeated_block_model(),
        certifiable(res@),
{
    let block = good_linear();
    let mut outer = Schedule::new("outer_two_layers");
    outer.push(
        Node {
            id: 100,
            kind: NodeKind::SubSchedule(Box::new(block.clone())),
            inputs: only("layer_in", MemSpace::Hbm),
            outputs: only("layer0_out", MemSpace::Hbm),
            sm: 0,
            waits_on: Vec::new(),
        },
    );
    outer.push(
        Node {
            id: 101,
            kind: NodeKind::SubSchedule(Box::new(block)),
            inputs: only("layer0_out", MemSpace::Hbm),
            outputs: only("layer1_out", MemSpace::Hbm),
            sm: 0,
            waits_on: after(100),
        },
    );
    proof {
        assert(outer@.nodes =~= repeated_block_model().nodes);
        lemma_repeated_block_certifiable();
    }
    outer
}

/// The tensors of the cases have one `F32` element; their nodes
/// have what they are given, copy what they read, and hold the blocks that they
/// are given.
pub proof fn cases_are_made_of_plain_parts(
    name: Seq<char>,
    space: MemSpace,
    node: (NodeId, SmId),
    waits: Seq<NodeId>,
    ins: Seq<TensorModel>,
    outs: Seq<TensorModel>,
    block: ScheduleModel,
)
    ensures
        one_element(name, space).name == name,
        one_element(name, space).shape.len() == 1,
        one_element(name, space).shape[0] == 1,
        one_element(name, space).dtype == DType::F32,
        one_element(name, space).space == space,
        ({
            let copy = copy_node(node.0, node.1, waits, ins, outs);
            &&& copy.id == node.0
            &&& copy.sm == node.1
            &&& copy.waits_on == waits
            &&& copy.inputs == ins
            &&& copy.outputs == outs
            &&& copy.kind == KindModel::Op(OpModel::Elementwise { op: "id"@ })
        }),
        ({
            let held = block_node(node.0, block, waits, ins, outs);
            &&& held.id == node.0
            &&& held.sm == 0
            &&& held.waits_on == waits
            &&& held.inputs == ins
            &&& held.outputs == outs
            &&& held.kind == KindModel::SubSchedule(Box::new(block))
        }),
{
}

/// In the pipeline every node but the first waits on the one before it and
/// reads what that one writes, each on a unit of its own.
pub proof fn pipelines_pass_tensors_on(i: int)
    requires
        0 <= i < linear_model().nodes.len(),
    ensures
        linear_model().nodes.len() == 3,
        linear_model().nodes[i].id == i,
        linear_model().nodes[i].sm == i,
        linear_model().nodes[i].outputs.len() == 1,
        linear_model().nodes[i].outputs[0].space == MemSpace::Hbm,
        i == 0 ==> linear_model().nodes[i].waits_on.len() == 0
            && linear_model().nodes[i].inputs.len() == 0,
        i > 0 ==> {
            let (node, before) = (linear_model().nodes[i], linear_model().nodes[i - 1]);
            &&& node.waits_on == seq![before.id]
            &&& node.inputs == before.outputs
            &&& node.outputs[0].name != before.outputs[0].name
        },
{
    reveal_strlit("x0");
    reveal_strlit("x1");
    reveal_strlit("x2");
    assert("x0"@[1] == '0' && "x1"@[1] == '1' && "x2"@[1] == '2');
}

/// The two nodes that conflict, and the two that race, write one tensor and
/// wait on nothing; the former share their unit, and the latter do not.
pub proof fn conflicting_nodes_write_one_tensor()
    ensures
        sm_conflict_model().nodes.len() == 2,
        race_model().nodes.len() == 2,
        sm_conflict_model().nodes[0].sm == sm_conflict_model().nodes[1].sm,
        race_model().nodes[0].sm != race_model().nodes[1].sm,
        forall|i: int|
            0 <= i < 2 ==> {
                let (a, b) = (#[trigger] sm_conflict_model().nodes[i], race_model().nodes[i]);
                &&& a.id == i && b.id == i
                &&& a.waits_on.len() == 0 && b.waits_on.len() == 0
                &&& a.inputs.len() == 0 && b.inputs.len() == 0
                &&& a.outputs.len() == 1 && b.outputs.len() == 1
                &&& a.outputs == sm_conflict_model().nodes[0].outputs
                &&& b.outputs == race_model().nodes[0].outputs
                &&& a.outputs[0].space == MemSpace::SharedL1
                &&& b.outputs[0].space == MemSpace::Hbm
            },
{
}

/// The schedule that repeats a block holds the pipeline twice; the second waits
/// on the first and reads what that one writes.
pub proof fn repeated_blocks_are_the_same()
    ensures
        repeated_block_model().nodes.len() == 2,
        forall|i: int|
            0 <= i < 2 ==> (#[trigger] repeated_block_model().nodes[i]).kind
                == KindModel::SubSchedule(Box::new(linear_model())),
        repeated_block_model().nodes[0].waits_on.len() == 0,
        repeated_block_model().nodes[1].waits_on == seq![repeated_block_model().nodes[0].id],
        repeated_block_model().nodes[1].inputs == repeated_block_model().nodes[0].outputs,
        repeated_block_model().nodes[0].inputs != repeated_block_model().nodes[0].outputs,
        repeated_block_model().nodes[1].inputs != repeated_block_model().nodes[1].outputs,
{
    reveal_strlit("layer_in");
    reveal_strlit("layer0_out");
    reveal_strlit("layer1_out");
    let (a, b) = (repeated_block_model().nodes[0], repeated_block_model().nodes[1]);
    assert("layer_in"@.len() != "layer0_out"@.len());
    assert("layer0_out"@[5] == '0' && "layer1_out"@[5] == '1');
    assert(a.inputs[0].name != a.outputs[0].name);
    assert(b.inputs[0].name != b.outputs[0].name);
}

} // verus!
