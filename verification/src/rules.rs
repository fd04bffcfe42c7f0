//! What it takes for a schedule to be certified, and how one that fails is
//! reported.
use vstd::prelude::*;

use crate::graph::{acyclic, closed, closes_cycle, reaches, waits, WaitGraph};
use crate::ir::{
    flat, has_id, KindModel, MemSpace, NodeId, NodeModel, Placed, ScheduleModel, SmId, TensorModel,
};

verus! {

/// What a rejection reports.
#[verifier::ext_equal]
pub enum ErrorModel {
    Cycle(NodeId),
    DanglingWait(NodeId, NodeId),
    SmOrderConflict { sm: SmId, a: NodeId, b: NodeId },
    Race { a: NodeId, b: NodeId, tensor: Seq<char>, space: MemSpace },
    NestedFailure(Seq<char>, Box<ErrorModel>),
}

/// The place of the node that an id stands for: the last that has it.
pub open spec fn named(nodes: Seq<NodeModel>, id: NodeId) -> Option<int>
    decreases nodes.len(),
{
    if nodes.len() == 0 {
        None
    } else if nodes.last().id == id {
        Some(nodes.len() - 1)
    } else {
        named(nodes.drop_last(), id)
    }
}

/// The places of the nodes that these waits name, one wait after the other.
pub open spec fn wait_places(nodes: Seq<NodeModel>, ids: Seq<NodeId>) -> Seq<int>
    decreases ids.len(),
{
    if ids.len() == 0 {
        Seq::empty()
    } else {
        wait_places(nodes, ids.drop_last()) + match named(nodes, ids.last()) {
            Some(j) => seq![j],
            None => Seq::empty(),
        }
    }
}

/// Which node of this level waits on which, by their places. A wait on an id
/// is a wait on the node that the id stands for.
pub open spec fn wait_graph(nodes: Seq<NodeModel>) -> WaitGraph<int> {
    Map::new(
        |i: int| 0 <= i < nodes.len(),
        |i: int| wait_places(nodes, nodes[i].waits_on),
    )
}

/// The node at `j` is the one that its id stands for.
pub open spec fn last_of_its_id(nodes: Seq<NodeModel>, j: int) -> bool {
    forall|k: int| j < k < nodes.len() ==> (#[trigger] nodes[k]).id != nodes[j].id
}

/// The node at `i` lists the id that stands for the node at `j` among its waits.
pub open spec fn waits_at(nodes: Seq<NodeModel>, i: int, j: int) -> bool {
    &&& 0 <= i < nodes.len()
    &&& 0 <= j < nodes.len()
    &&& nodes[i].waits_on.contains(nodes[j].id)
    &&& last_of_its_id(nodes, j)
}

/// Of the nodes at `i` and `j`, one must finish before the other starts.
pub open spec fn ordered_at(nodes: Seq<NodeModel>, i: int, j: int) -> bool {
    reaches(wait_graph(nodes), i, j) || reaches(wait_graph(nodes), j, i)
}

/// An id stands for the last node that has it, and for none if none has it.
pub proof fn lemma_named(nodes: Seq<NodeModel>, id: NodeId)
    ensures
        match named(nodes, id) {
            Some(j) => 0 <= j < nodes.len() && nodes[j].id == id && last_of_its_id(nodes, j),
            None => !has_id(nodes, id),
        },
        forall|j: int|
            0 <= j < nodes.len() && nodes[j].id == id && #[trigger] last_of_its_id(nodes, j)
                ==> named(nodes, id) == Some(j),
    decreases nodes.len(),
{
    if nodes.len() > 0 {
        let front = nodes.drop_last();
        let last = nodes.len() - 1;
        lemma_named(front, id);
        if nodes[last].id != id {
            match named(front, id) {
                Some(j) => {
                    assert forall|k: int| j < k < nodes.len() implies (#[trigger] nodes[k]).id
                        != nodes[j].id by {
                        if k < last {
                            assert(front[k].id != front[j].id);
                        }
                    }
                },
                None => {
                    if has_id(nodes, id) {
                        let i = choose|i: int| 0 <= i < nodes.len() && #[trigger] nodes[i].id == id;
                        assert(front[i].id == id);
                    }
                },
            }
        }
        assert forall|j: int|
            0 <= j < nodes.len() && nodes[j].id == id && #[trigger] last_of_its_id(
                nodes,
                j,
            ) implies named(nodes, id) == Some(j) by {
            if j < last {
                assert(nodes[last].id != nodes[j].id);
                assert forall|k: int| j < k < front.len() implies (#[trigger] front[k]).id
                    != front[j].id by {
                    assert(nodes[k].id != nodes[j].id);
                }
                assert(last_of_its_id(front, j));
            }
        }
    }
}

proof fn lemma_wait_places(nodes: Seq<NodeModel>, ids: Seq<NodeId>)
    ensures
        forall|j: int| #[trigger]
            wait_places(nodes, ids).contains(j) <==> 0 <= j < nodes.len() && ids.contains(
                nodes[j].id,
            ) && last_of_its_id(nodes, j),
    decreases ids.len(),
{
    if ids.len() > 0 {
        let front = ids.drop_last();
        let before = wait_places(nodes, front);
        let at = named(nodes, ids.last());
        let all = wait_places(nodes, ids);
        lemma_wait_places(nodes, front);
        lemma_named(nodes, ids.last());
        assert forall|j: int| #[trigger] all.contains(j) <==> 0 <= j < nodes.len()
            && ids.contains(nodes[j].id) && last_of_its_id(nodes, j) by {
            assert(before.contains(j) <==> 0 <= j < nodes.len() && front.contains(nodes[j].id)
                && last_of_its_id(nodes, j));
            assert((at == Some(j)) <==> 0 <= j < nodes.len() && nodes[j].id == ids.last()
                && last_of_its_id(nodes, j));
            if all.contains(j) {
                let k = choose|k: int| 0 <= k < all.len() && all[k] == j;
                if k < before.len() {
                    assert(before[k] == j);
                    let m = choose|m: int| 0 <= m < front.len() && front[m] == nodes[j].id;
                    assert(ids[m] == nodes[j].id);
                } else {
                    assert(at == Some(j));
                    assert(ids[ids.len() - 1] == nodes[j].id);
                }
            }
            if 0 <= j < nodes.len() && ids.contains(nodes[j].id) && last_of_its_id(nodes, j) {
                let m = choose|m: int| 0 <= m < ids.len() && ids[m] == nodes[j].id;
                if m < front.len() {
                    assert(front[m] == nodes[j].id);
                    let k = choose|k: int| 0 <= k < before.len() && before[k] == j;
                    assert(all[k] == j);
                } else {
                    assert(at == Some(j));
                    assert(all[before.len() as int] == j);
                }
            }
        }
    }
}

/// The wait graph is that of the listed waits, and stays within the level.
pub proof fn lemma_wait_graph(nodes: Seq<NodeModel>)
    ensures
        forall|i: int, j: int| #[trigger]
            waits(wait_graph(nodes), i, j) <==> waits_at(nodes, i, j),
        closed(wait_graph(nodes)),
        wait_graph(nodes).dom().finite(),
{
    let g = wait_graph(nodes);
    assert forall|i: int, j: int| #[trigger] waits(g, i, j) <==> waits_at(nodes, i, j) by {
        if 0 <= i < nodes.len() {
            lemma_wait_places(nodes, nodes[i].waits_on);
            assert(g[i].contains(j) <==> waits_at(nodes, i, j));
        }
    }
    let range = vstd::set_lib::set_int_range(0, nodes.len() as int);
    vstd::set_lib::lemma_int_range(0, nodes.len() as int);
    assert(g.dom() =~= range);
}

/// What the primitive operations of a listing read, in order.
pub open spec fn leaf_reads(entries: Seq<Placed>) -> Seq<TensorModel>
    decreases entries.len(),
{
    if entries.len() == 0 {
        Seq::empty()
    } else {
        leaf_reads(entries.drop_last()) + match entries.last().1.kind {
            KindModel::Op(_) => entries.last().1.inputs,
            KindModel::SubSchedule(_) => Seq::empty(),
        }
    }
}

/// What the primitive operations of a listing write, in order.
pub open spec fn leaf_writes(entries: Seq<Placed>) -> Seq<TensorModel>
    decreases entries.len(),
{
    if entries.len() == 0 {
        Seq::empty()
    } else {
        leaf_writes(entries.drop_last()) + match entries.last().1.kind {
            KindModel::Op(_) => entries.last().1.outputs,
            KindModel::SubSchedule(_) => Seq::empty(),
        }
    }
}

/// What running a node reads: its inputs and, where it is a schedule, all that
/// the operations in it read.
pub open spec fn node_reads(node: NodeModel) -> Seq<TensorModel> {
    match node.kind {
        KindModel::Op(_) => node.inputs,
        KindModel::SubSchedule(sub) => node.inputs + leaf_reads(flat(*sub)),
    }
}

/// What running a node writes: its outputs and, where it is a schedule, all
/// that the operations in it write.
pub open spec fn node_writes(node: NodeModel) -> Seq<TensorModel> {
    match node.kind {
        KindModel::Op(_) => node.outputs,
        KindModel::SubSchedule(sub) => node.outputs + leaf_writes(flat(*sub)),
    }
}

/// All that running a node touches, what it writes first.
pub open spec fn node_touches(node: NodeModel) -> Seq<TensorModel> {
    node_writes(node) + node_reads(node)
}

/// A tensor of this name is among these.
pub open spec fn names_tensor(tensors: Seq<TensorModel>, name: Seq<char>) -> bool {
    exists|i: int| 0 <= i < tensors.len() && #[trigger] tensors[i].name == name
}

/// A tensor of this name in this memory space is among these.
pub open spec fn holds_tensor(
    tensors: Seq<TensorModel>,
    name: Seq<char>,
    space: MemSpace,
) -> bool {
    exists|i: int|
        0 <= i < tensors.len() && #[trigger] tensors[i].name == name && tensors[i].space == space
}

/// Both nodes touch some tensor of one name.
pub open spec fn overlap(a: NodeModel, b: NodeModel) -> bool {
    exists|i: int|
        0 <= i < node_touches(a).len() && names_tensor(
            node_touches(b),
            #[trigger] node_touches(a)[i].name,
        )
}

/// The `k`-th tensor that `a` touches is touched by `b` in the same memory
/// space, and one of the two writes it.
pub open spec fn race_at(a: NodeModel, b: NodeModel, k: int) -> bool {
    let t = node_touches(a)[k];
    &&& 0 <= k < node_touches(a).len()
    &&& holds_tensor(node_touches(b), t.name, t.space)
    &&& names_tensor(node_writes(a), t.name) || names_tensor(node_writes(b), t.name)
}

/// Run at the same time, the two nodes would race.
pub open spec fn would_race(a: NodeModel, b: NodeModel) -> bool {
    exists|k: int| race_at(a, b, k)
}

/// The `k`-th wait of the `i`-th node names no node of this level.
pub open spec fn dangles(nodes: Seq<NodeModel>, i: int, k: int) -> bool {
    &&& 0 <= i < nodes.len()
    &&& 0 <= k < nodes[i].waits_on.len()
    &&& !has_id(nodes, nodes[i].waits_on[k])
}

/// The nodes at `i` and `j` share a compute unit, which is not told which of
/// the two to run first although they touch the same tensor.
pub open spec fn sm_conflict(nodes: Seq<NodeModel>, i: int, j: int) -> bool {
    &&& 0 <= i < j < nodes.len()
    &&& nodes[i].sm == nodes[j].sm
    &&& !ordered_at(nodes, i, j)
    &&& overlap(nodes[i], nodes[j])
}

/// The nodes at `i` and `j` may run at the same time and would then race.
pub open spec fn race_between(nodes: Seq<NodeModel>, i: int, j: int) -> bool {
    &&& 0 <= i < nodes.len()
    &&& 0 <= j < nodes.len()
    &&& i != j
    &&& !ordered_at(nodes, i, j)
    &&& would_race(nodes[i], nodes[j])
}

/// Every wait names a node of this level.
pub open spec fn waits_resolve(nodes: Seq<NodeModel>) -> bool {
    forall|i: int, k: int| !#[trigger] dangles(nodes, i, k)
}

/// No compute unit is left without an order that it needs.
pub open spec fn queues_consistent(nodes: Seq<NodeModel>) -> bool {
    forall|i: int, j: int| !#[trigger] sm_conflict(nodes, i, j)
}

/// No two nodes that may run at the same time would race.
pub open spec fn race_free(nodes: Seq<NodeModel>) -> bool {
    forall|i: int, j: int| !#[trigger] race_between(nodes, i, j)
}

/// One level is safe, taking nested schedules as they are.
#[verifier::opaque]
pub open spec fn level_safe(nodes: Seq<NodeModel>) -> bool {
    &&& waits_resolve(nodes)
    &&& acyclic(wait_graph(nodes))
    &&& queues_consistent(nodes)
    &&& race_free(nodes)
}

/// The schedule is safe at every level.
pub open spec fn certifiable(s: ScheduleModel) -> bool
    decreases s,
{
    &&& forall|i: int| 0 <= i < s.nodes.len() ==> node_certifiable(#[trigger] s.nodes[i])
    &&& level_safe(s.nodes)
}

/// A nested schedule is safe at every level; an operation needs nothing.
pub open spec fn node_certifiable(node: NodeModel) -> bool
    decreases node,
{
    match node.kind {
        KindModel::Op(_) => true,
        KindModel::SubSchedule(sub) => certifiable(*sub),
    }
}

/// No wait before the `k`-th of the `i`-th node dangles, but that one does.
pub open spec fn first_dangling(nodes: Seq<NodeModel>, i: int, k: int) -> bool {
    &&& dangles(nodes, i, k)
    &&& forall|p: int, q: int| #[trigger]
        dangles(nodes, p, q) ==> i < p || (i == p && k <= q)
}

/// Of the pairs that conflict on their compute unit, this one comes first.
pub open spec fn first_sm_conflict(nodes: Seq<NodeModel>, i: int, j: int) -> bool {
    &&& sm_conflict(nodes, i, j)
    &&& forall|p: int, q: int| #[trigger]
        sm_conflict(nodes, p, q) && nodes[p].sm == nodes[i].sm ==> i < p || (i == p && j <= q)
}

/// Of the tensors over which `a` and `b` race, this one is touched first by `a`.
pub open spec fn first_race_at(a: NodeModel, b: NodeModel, k: int) -> bool {
    &&& race_at(a, b, k)
    &&& forall|l: int| #[trigger] race_at(a, b, l) ==> k <= l
}

/// The wait that is reported where waits dangle.
pub open spec fn reports_dangling(nodes: Seq<NodeModel>, e: ErrorModel) -> bool {
    exists|i: int, k: int| #[trigger]
        first_dangling(nodes, i, k) && e == ErrorModel::DanglingWait(
            nodes[i].id,
            nodes[i].waits_on[k],
        )
}

/// The node that is reported where there are cycles.
pub open spec fn reports_cycle(nodes: Seq<NodeModel>, e: ErrorModel) -> bool {
    exists|i: int|
        0 <= i < nodes.len() && #[trigger] closes_cycle(wait_graph(nodes), i) && e
            == ErrorModel::Cycle(nodes[i].id)
}

/// The pair that is reported where nodes conflict on a compute unit: the
/// first of one unit, whichever unit that is.
pub open spec fn reports_sm_conflict(nodes: Seq<NodeModel>, e: ErrorModel) -> bool {
    exists|i: int, j: int| #[trigger]
        first_sm_conflict(nodes, i, j) && e == (ErrorModel::SmOrderConflict {
            sm: nodes[i].sm,
            a: nodes[i].id,
            b: nodes[j].id,
        })
}

/// The nodes at `i` and `j` race, over the `k`-th tensor that the first of
/// them touches before any other.
pub open spec fn race_found(nodes: Seq<NodeModel>, i: int, j: int, k: int) -> bool {
    &&& race_between(nodes, i, j)
    &&& first_race_at(nodes[i], nodes[j], k)
}

/// The pair and the tensor that are reported where nodes race: the first
/// tensor of one pair, whichever pair that is.
pub open spec fn reports_race(nodes: Seq<NodeModel>, e: ErrorModel) -> bool {
    exists|i: int, j: int, k: int| #[trigger]
        race_found(nodes, i, j, k) && e == (ErrorModel::Race {
            a: nodes[i].id,
            b: nodes[j].id,
            tensor: node_touches(nodes[i])[k].name,
            space: node_touches(nodes[i])[k].space,
        })
}

/// The report on one level that is not safe. Of what is wrong with it, the
/// first of these is reported: waits that dangle, cycles, conflicts on a
/// compute unit, races.
#[verifier::opaque]
pub open spec fn level_rejects(nodes: Seq<NodeModel>, e: ErrorModel) -> bool {
    if !waits_resolve(nodes) {
        reports_dangling(nodes, e)
    } else if !acyclic(wait_graph(nodes)) {
        reports_cycle(nodes, e)
    } else if !queues_consistent(nodes) {
        reports_sm_conflict(nodes, e)
    } else if !race_free(nodes) {
        reports_race(nodes, e)
    } else {
        false
    }
}

/// The `i`-th node is the first that is not certifiable.
pub open spec fn first_uncertifiable(nodes: Seq<NodeModel>, i: int) -> bool {
    &&& 0 <= i < nodes.len()
    &&& !node_certifiable(nodes[i])
    &&& forall|j: int| 0 <= j < i ==> node_certifiable(#[trigger] nodes[j])
}

/// `e` reports why the schedule is not certifiable. Nested schedules are
/// looked at before the level that holds them.
pub open spec fn rejects(s: ScheduleModel, e: ErrorModel) -> bool
    decreases s,
{
    if forall|i: int| 0 <= i < s.nodes.len() ==> node_certifiable(#[trigger] s.nodes[i]) {
        level_rejects(s.nodes, e)
    } else {
        exists|i: int| #[trigger]
            first_uncertifiable(s.nodes, i) && 0 <= i < s.nodes.len() && node_rejects(
                s.nodes[i],
                e,
            )
    }
}

/// `e` reports why a nested schedule is not certifiable, under its name.
pub open spec fn node_rejects(node: NodeModel, e: ErrorModel) -> bool
    decreases node,
{
    match (node.kind, e) {
        (KindModel::SubSchedule(sub), ErrorModel::NestedFailure(name, inner)) => name == sub.name
            && rejects(*sub, *inner),
        _ => false,
    }
}

} // verus!
