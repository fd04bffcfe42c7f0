//! Static validation of schedules.
//!
//! Before anything is launched, a schedule is certified to be
//!
//!  1. free of cycles in its wait graph;
//!  2. wait-satisfiable: every wait names a node of its level;
//!  3. consistent in the queue of each compute unit: two nodes pinned to one
//!     unit that touch tensors of one name, in whatever memory space, are
//!     ordered by the wait graph;
//!  4. race-free: two nodes that the wait graph leaves unordered do not touch
//!     a tensor of one name in the same memory space, unless neither of the two
//!     writes a tensor of that name in any space.
//!
//! A wait on an id is a wait on the node that the index has under it: the last
//! of the level with that id. Nodes that share an id are held against each
//! other like any others.
//!
//! A nested schedule is validated on its own first. At the level that holds
//! it, it then counts as a single node that touches whatever the operations in
//! it touch, so a certified block can stand wherever its node can.
use std::collections::{HashMap, HashSet};
use vstd::prelude::*;

use crate::graph::{acyclic, reach_set};
use crate::interface::{aggregate, schedule_interface, Interface};
use crate::ir::{
    flat, has_id, index_model, indexes, lemma_index_model, placed_models, tensor_models, KindModel,
    MemSpace, Node, NodeId, NodeKind, NodeModel, Schedule, ScheduleModel, SmId, Tensor, TensorModel,
};
use crate::rules::{
    certifiable, dangles, first_dangling, first_race_at, first_sm_conflict, first_uncertifiable,
    holds_tensor, leaf_reads, leaf_writes, level_rejects, level_safe, names_tensor,
    node_certifiable, node_reads, node_rejects, node_touches, node_writes, ordered_at, overlap,
    queues_consistent, race_at, race_between, race_found, race_free, rejects, reports_dangling,
    reports_race, reports_sm_conflict, sm_conflict, wait_graph, waits_resolve, would_race,
    ErrorModel,
};
use crate::search::{detect_cycles, same_places, transitive_reach};

pub use crate::fingerprint::fingerprint_schedule;
pub use crate::interface::TensorAccess;

verus! {

/// Why a schedule was not certified.
#[derive(Debug, PartialEq)]
pub enum ValidationError {
    /// The dependency graph has a cycle at this node.
    Cycle(NodeId),
    /// The first node waits on the second, which does not exist.
    DanglingWait(NodeId, NodeId),
    /// Two nodes share a compute unit and a tensor, and no order is given.
    SmOrderConflict { sm: SmId, a: NodeId, b: NodeId },
    /// Two nodes may touch a tensor at the same time, at least one writing it.
    Race { a: NodeId, b: NodeId, tensor: String, space: MemSpace },
    /// The nested schedule of this name was not certified.
    NestedFailure(String, Box<ValidationError>),
}

impl ValidationError {
    /// What is reported.
    pub open spec fn model(self) -> ErrorModel
        decreases self,
    {
        match self {
            ValidationError::Cycle(id) => ErrorModel::Cycle(id),
            ValidationError::DanglingWait(id, wait) => ErrorModel::DanglingWait(id, wait),
            ValidationError::SmOrderConflict { sm, a, b } => ErrorModel::SmOrderConflict {
                sm,
                a,
                b,
            },
            ValidationError::Race { a, b, tensor, space } => ErrorModel::Race {
                a,
                b,
                tensor: tensor@,
                space,
            },
            ValidationError::NestedFailure(name, inner) => ErrorModel::NestedFailure(
                name@,
                Box::new(inner.model()),
            ),
        }
    }
}

impl View for ValidationError {
    type V = ErrorModel;

    open spec fn view(&self) -> ErrorModel {
        self.model()
    }
}

/// Issued for a schedule that passed validation.
#[derive(Debug)]
pub struct Certificate {
    pub schedule_name: String,
    /// Nodes at every level, nested schedules counted as nodes too.
    pub node_count: usize,
    /// Every tensor that an operation of the schedule touches.
    pub interface: Interface,
    /// SHA-256 of the canonical text of the schedule, in hexadecimal.
    pub fingerprint: String,
}

impl Certificate {
    /// The certificate speaks of this schedule.
    pub open spec fn describes(self, s: ScheduleModel) -> bool {
        &&& self.schedule_name@ == s.name
        &&& self.node_count == flat(s).len()
        &&& self.interface@ == schedule_interface(s)
        &&& self.fingerprint@ == crate::fingerprint::fingerprint(s)
        &&& self.fingerprint@.len() == 64
    }
}

impl Clone for Certificate {
    fn clone(&self) -> (res: Self)
        ensures
            res.schedule_name@ == self.schedule_name@,
            res.node_count == self.node_count,
            res.interface@ == self.interface@,
            res.fingerprint@ == self.fingerprint@,
    {
        Certificate {
            schedule_name: self.schedule_name.clone(),
            node_count: self.node_count,
            interface: self.interface.clone(),
            fingerprint: self.fingerprint.clone(),
        }
    }
}

/// The tensors that references point to.
pub open spec fn borrowed_models(tensors: Seq<&Tensor>) -> Seq<TensorModel> {
    tensors.map_values(|t: &Tensor| t@)
}

fn borrow_each<'a>(out: &mut Vec<&'a Tensor>, tensors: &'a Vec<Tensor>)
    ensures
        borrowed_models(final(out)@) == borrowed_models(old(out)@) + tensor_models(tensors@),
{
    let ghost before = borrowed_models(out@);
    let ghost all = tensor_models(tensors@);
    assert(before =~= before + all.take(0));
    for i in 0..tensors.len()
        invariant
            all == tensor_models(tensors@),
            borrowed_models(out@) == before + all.take(i as int),
    {
        let ghost so_far = borrowed_models(out@);
        out.push(&tensors[i]);
        assert(borrowed_models(out@) =~= so_far.push(all[i as int]));
        assert(so_far.push(all[i as int]) =~= before + all.take(i + 1));
    }
    assert(all.take(all.len() as int) =~= all);
}

/// What running a node reads.
fn reads_of(node: &Node) -> (res: Vec<&Tensor>)
    ensures
        borrowed_models(res@) == node_reads(node@),
{
    let mut out: Vec<&Tensor> = Vec::new();
    borrow_each(&mut out, &node.inputs);
    assert(borrowed_models(out@) =~= node@.inputs);
    if let NodeKind::SubSchedule(sub) = &node.kind {
        let entries = sub.flatten();
        let ghost placed = placed_models(entries@);
        assert(borrowed_models(out@) =~= node@.inputs + leaf_reads(placed.take(0)));
        for i in 0..entries.len()
            invariant
                placed == placed_models(entries@),
                borrowed_models(out@) == node@.inputs + leaf_reads(placed.take(i as int)),
        {
            let leaf: &Node = entries[i].1;
            assert(placed[i as int].1 == leaf@);
            if let NodeKind::Op(_) = &leaf.kind {
                borrow_each(&mut out, &leaf.inputs);
            }
            proof {
                let next = placed.take(i + 1);
                assert(next.drop_last() =~= placed.take(i as int));
                assert(borrowed_models(out@) =~= node@.inputs + leaf_reads(next));
            }
        }
        assert(placed.take(placed.len() as int) =~= placed);
    }
    out
}

/// What running a node writes.
fn writes_of(node: &Node) -> (res: Vec<&Tensor>)
    ensures
        borrowed_models(res@) == node_writes(node@),
{
    let mut out: Vec<&Tensor> = Vec::new();
    borrow_each(&mut out, &node.outputs);
    assert(borrowed_models(out@) =~= node@.outputs);
    if let NodeKind::SubSchedule(sub) = &node.kind {
        let entries = sub.flatten();
        let ghost placed = placed_models(entries@);
        assert(borrowed_models(out@) =~= node@.outputs + leaf_writes(placed.take(0)));
        for i in 0..entries.len()
            invariant
                placed == placed_models(entries@),
                borrowed_models(out@) == node@.outputs + leaf_writes(placed.take(i as int)),
        {
            let leaf: &Node = entries[i].1;
            assert(placed[i as int].1 == leaf@);
            if let NodeKind::Op(_) = &leaf.kind {
                borrow_each(&mut out, &leaf.outputs);
            }
            proof {
                let next = placed.take(i + 1);
                assert(next.drop_last() =~= placed.take(i as int));
                assert(borrowed_models(out@) =~= node@.outputs + leaf_writes(next));
            }
        }
        assert(placed.take(placed.len() as int) =~= placed);
    }
    out
}

/// All that running a node touches, what it writes first.
fn touches_of(node: &Node) -> (res: Vec<&Tensor>)
    ensures
        borrowed_models(res@) == node_touches(node@),
{
    let mut out = writes_of(node);
    let mut reads = reads_of(node);
    let ghost (w, r) = (out@, reads@);
    out.append(&mut reads);
    assert(borrowed_models(out@) =~= borrowed_models(w) + borrowed_models(r));
    out
}

fn names_among(tensors: &Vec<&Tensor>, name: &String) -> (res: bool)
    ensures
        res == names_tensor(borrowed_models(tensors@), name@),
{
    let ghost models = borrowed_models(tensors@);
    for i in 0..tensors.len()
        invariant
            models == borrowed_models(tensors@),
            forall|j: int| 0 <= j < i ==> #[trigger] models[j].name != name@,
    {
        assert(models[i as int].name == tensors@[i as int].name@);
        if tensors[i].name == *name {
            return true;
        }
    }
    false
}

fn held_among(tensors: &Vec<&Tensor>, name: &String, space: MemSpace) -> (res: bool)
    ensures
        res == holds_tensor(borrowed_models(tensors@), name@, space),
{
    let ghost models = borrowed_models(tensors@);
    for i in 0..tensors.len()
        invariant
            models == borrowed_models(tensors@),
            forall|j: int|
                0 <= j < i ==> !(#[trigger] models[j].name == name@ && models[j].space == space),
    {
        assert(models[i as int].name == tensors@[i as int].name@);
        if tensors[i].name == *name && tensors[i].space == space {
            return true;
        }
    }
    false
}

/// Whether both nodes touch some tensor of one name.
pub fn tensors_overlap(a: &Node, b: &Node) -> (res: bool)
    ensures
        res == overlap(a@, b@),
{
    let a_all = touches_of(a);
    let b_all = touches_of(b);
    for i in 0..a_all.len()
        invariant
            borrowed_models(a_all@) == node_touches(a@),
            borrowed_models(b_all@) == node_touches(b@),
            forall|j: int|
                0 <= j < i ==> !names_tensor(
                    node_touches(b@),
                    #[trigger] node_touches(a@)[j].name,
                ),
    {
        assert(node_touches(a@)[i as int] == a_all@[i as int]@);
        if names_among(&b_all, &a_all[i].name) {
            assert(names_tensor(node_touches(b@), node_touches(a@)[i as int].name));
            return true;
        }
    }
    false
}

/// The first tensor over which two nodes would race if they ran at the same time.
fn find_race(a: &Node, b: &Node) -> (res: Option<(String, MemSpace)>)
    ensures
        match res {
            Some((tensor, space)) => exists|k: int| #[trigger]
                first_race_at(a@, b@, k) && tensor@ == node_touches(a@)[k].name && space
                    == node_touches(a@)[k].space,
            None => !would_race(a@, b@),
        },
{
    let a_all = touches_of(a);
    let b_all = touches_of(b);
    let a_writes = writes_of(a);
    let b_writes = writes_of(b);
    for k in 0..a_all.len()
        invariant
            borrowed_models(a_all@) == node_touches(a@),
            borrowed_models(b_all@) == node_touches(b@),
            borrowed_models(a_writes@) == node_writes(a@),
            borrowed_models(b_writes@) == node_writes(b@),
            forall|l: int| 0 <= l < k ==> !#[trigger] race_at(a@, b@, l),
    {
        let t: &Tensor = a_all[k];
        assert(node_touches(a@)[k as int] == t@);
        if held_among(&b_all, &t.name, t.space) {
            if names_among(&a_writes, &t.name) || names_among(&b_writes, &t.name) {
                assert(first_race_at(a@, b@, k as int));
                return Some((t.name.clone(), t.space));
            }
        }
    }
    None
}

/// Racing is mutual.
pub proof fn lemma_race_symmetric(a: NodeModel, b: NodeModel)
    requires
        would_race(a, b),
    ensures
        would_race(b, a),
{
    let k = choose|k: int| race_at(a, b, k);
    let t = node_touches(a)[k];
    let l = choose|l: int|
        0 <= l < node_touches(b).len() && #[trigger] node_touches(b)[l].name == t.name
            && node_touches(b)[l].space == t.space;
    assert(holds_tensor(node_touches(a), t.name, t.space));
    assert(race_at(b, a, l));
}

/// Checks that every wait names a node of this level.
fn check_waits(schedule: &Schedule, index: &HashMap<NodeId, &Node>) -> (res: Result<
    (),
    ValidationError,
>)
    requires
        indexes(index@, index_model(schedule@.nodes)),
    ensures
        match res {
            Ok(_) => waits_resolve(schedule@.nodes),
            Err(e) => !waits_resolve(schedule@.nodes) && reports_dangling(schedule@.nodes, e@),
        },
{
    broadcast use vstd::std_specs::hash::group_hash_axioms;

    let ghost nodes = schedule@.nodes;
    proof {
        lemma_index_model(nodes);
    }
    for i in 0..schedule.nodes.len()
        invariant
            nodes == schedule@.nodes,
            forall|id: NodeId| #[trigger] index@.dom().contains(id) <==> has_id(nodes, id),
            forall|p: int, q: int| #[trigger] dangles(nodes, p, q) ==> i <= p,
    {
        let node: &Node = &schedule.nodes[i];
        assert(nodes[i as int] == node@);
        for k in 0..node.waits_on.len()
            invariant
                0 <= i < nodes.len(),
                nodes == schedule@.nodes,
                nodes[i as int] == node@,
                forall|id: NodeId| #[trigger] index@.dom().contains(id) <==> has_id(nodes, id),
                forall|p: int, q: int| #[trigger]
                    dangles(nodes, p, q) ==> i < p || (i == p && k <= q),
        {
            let w: NodeId = node.waits_on[k];
            assert(nodes[i as int].waits_on[k as int] == w);
            if !index.contains_key(&w) {
                assert(!index@.dom().contains(w));
                assert(first_dangling(nodes, i as int, k as int));
                return Err(ValidationError::DanglingWait(node.id, w));
            }
            assert(index@.dom().contains(w));
        }
    }
    Ok(())
}

/// The table holds, for each node of this level, all that it waits on.
spec fn reach_of(nodes: Seq<NodeModel>, reach: Map<usize, HashSet<usize>>) -> bool {
    &&& forall|i: usize| #[trigger] reach.dom().contains(i) <==> i < nodes.len()
    &&& forall|i: usize| #[trigger]
        reach.dom().contains(i) ==> same_places(
            reach[i]@,
            reach_set(wait_graph(nodes), i as int),
        )
}

/// Whether one of the two must finish before the other starts.
fn are_ordered(
    reach: &HashMap<usize, HashSet<usize>>,
    i: usize,
    j: usize,
    Ghost(nodes): Ghost<Seq<NodeModel>>,
) -> (res: bool)
    requires
        i < nodes.len(),
        j < nodes.len(),
        reach_of(nodes, reach@),
    ensures
        res == ordered_at(nodes, i as int, j as int),
{
    broadcast use vstd::std_specs::hash::group_hash_axioms;

    assert(reach@.dom().contains(i) && reach@.dom().contains(j));
    let after_i: &HashSet<usize> = reach.get(&i).unwrap();
    let after_j: &HashSet<usize> = reach.get(&j).unwrap();
    let i_before_j = after_j.contains(&i);
    let j_before_i = after_i.contains(&j);
    i_before_j || j_before_i
}

/// Checks the queue of each compute unit: of two nodes pinned to one unit
/// that the wait graph leaves unordered, neither may touch what the other
/// touches, since the unit would have to run them in some order.
pub fn check_sm_order(schedule: &Schedule) -> (res: Result<(), ValidationError>)
    requires
        acyclic(wait_graph(schedule@.nodes)),
    ensures
        match res {
            Ok(_) => queues_consistent(schedule@.nodes),
            Err(e) => !queues_consistent(schedule@.nodes) && reports_sm_conflict(
                schedule@.nodes,
                e@,
            ),
        },
{
    let ghost nodes = schedule@.nodes;
    let reach = transitive_reach(schedule);
    for i in 0..schedule.nodes.len()
        invariant
            nodes == schedule@.nodes,
            reach_of(nodes, reach@),
            forall|p: int, q: int| #[trigger] sm_conflict(nodes, p, q) ==> i <= p,
    {
        for j in (i + 1)..schedule.nodes.len()
            invariant
                0 <= i < nodes.len(),
                nodes == schedule@.nodes,
                reach_of(nodes, reach@),
                forall|p: int, q: int| #[trigger]
                    sm_conflict(nodes, p, q) ==> i < p || (i == p && j <= q),
        {
            let na: &Node = &schedule.nodes[i];
            let nb: &Node = &schedule.nodes[j];
            assert(nodes[i as int] == na@ && nodes[j as int] == nb@);
            if na.sm == nb.sm && !are_ordered(&reach, i, j, Ghost(nodes)) {
                if tensors_overlap(na, nb) {
                    assert(sm_conflict(nodes, i as int, j as int));
                    assert(first_sm_conflict(nodes, i as int, j as int));
                    return Err(
                        ValidationError::SmOrderConflict { sm: na.sm, a: na.id, b: nb.id },
                    );
                }
            }
        }
    }
    Ok(())
}

/// Checks that no two nodes that may run at the same time race.
pub fn check_races(schedule: &Schedule) -> (res: Result<(), ValidationError>)
    requires
        acyclic(wait_graph(schedule@.nodes)),
    ensures
        match res {
            Ok(_) => race_free(schedule@.nodes),
            Err(e) => !race_free(schedule@.nodes) && reports_race(schedule@.nodes, e@),
        },
{
    let ghost nodes = schedule@.nodes;
    let reach = transitive_reach(schedule);
    for i in 0..schedule.nodes.len()
        invariant
            nodes == schedule@.nodes,
            reach_of(nodes, reach@),
            forall|p: int, q: int| p < i && p < q ==> !#[trigger] race_between(nodes, p, q),
    {
        for j in (i + 1)..schedule.nodes.len()
            invariant
                0 <= i < nodes.len(),
                nodes == schedule@.nodes,
                reach_of(nodes, reach@),
                forall|q: int| i < q < j ==> !#[trigger] race_between(nodes, i as int, q),
        {
            let na: &Node = &schedule.nodes[i];
            let nb: &Node = &schedule.nodes[j];
            assert(nodes[i as int] == na@ && nodes[j as int] == nb@);
            if !are_ordered(&reach, i, j, Ghost(nodes)) {
                if let Some((tensor, space)) = find_race(na, nb) {
                    let race = ValidationError::Race { a: na.id, b: nb.id, tensor, space };
                    proof {
                        let k = choose|k: int| #[trigger]
                            first_race_at(na@, nb@, k) && tensor@ == node_touches(na@)[k].name
                                && space == node_touches(na@)[k].space;
                        assert(race_at(na@, nb@, k));
                        assert(race_between(nodes, i as int, j as int));
                        assert(race_found(nodes, i as int, j as int, k));
                    }
                    return Err(race);
                }
            }
        }
    }
    proof {
        assert forall|p: int, q: int| !#[trigger] race_between(nodes, p, q) by {
            if race_between(nodes, p, q) && q < p {
                lemma_race_symmetric(nodes[p], nodes[q]);
                assert(race_between(nodes, q, p));
            }
        }
    }
    Ok(())
}

/// A nested schedule that is not certifiable is what gets reported.
proof fn lemma_nested_failure(s: ScheduleModel, i: int, sub: ScheduleModel, e: ErrorModel)
    requires
        0 <= i < s.nodes.len(),
        s.nodes[i].kind == KindModel::SubSchedule(Box::new(sub)),
        forall|j: int| 0 <= j < i ==> node_certifiable(#[trigger] s.nodes[j]),
        !certifiable(sub),
        rejects(sub, e),
    ensures
        !certifiable(s),
        rejects(s, ErrorModel::NestedFailure(sub.name, Box::new(e))),
{
    assert(!node_certifiable(s.nodes[i]));
    assert(first_uncertifiable(s.nodes, i));
    assert(node_rejects(s.nodes[i], ErrorModel::NestedFailure(sub.name, Box::new(e))));
}

/// Checks one level, taking nested schedules as they are.
fn check_level(schedule: &Schedule) -> (res: Result<(), ValidationError>)
    ensures
        match res {
            Ok(_) => level_safe(schedule@.nodes),
            Err(e) => !level_safe(schedule@.nodes) && level_rejects(schedule@.nodes, e@),
        },
{
    let ghost nodes = schedule@.nodes;
    let index = schedule.index();
    proof {
        reveal(level_safe);
        reveal(level_rejects);
    }
    match check_waits(schedule, &index) {
        Ok(_) => {},
        Err(e) => {
            return Err(e);
        },
    }
    match detect_cycles(schedule) {
        Ok(_) => {},
        Err(at) => {
            return Err(ValidationError::Cycle(at));
        },
    }
    match check_sm_order(schedule) {
        Ok(_) => {},
        Err(e) => {
            return Err(e);
        },
    }
    check_races(schedule)
}

/// Validates a schedule, nested schedules first, and certifies it.
pub fn validate(schedule: &Schedule) -> (res: Result<Certificate, ValidationError>)
    ensures
        match res {
            Ok(cert) => certifiable(schedule@) && cert.describes(schedule@),
            Err(e) => !certifiable(schedule@) && rejects(schedule@, e@),
        },
    decreases schedule,
{
    let ghost s = schedule@;
    for i in 0..schedule.nodes.len()
        invariant
            s == schedule@,
            forall|j: int| 0 <= j < i ==> node_certifiable(#[trigger] s.nodes[j]),
    {
        let node: &Node = &schedule.nodes[i];
        assert(s.nodes[i as int] == node@);
        if let NodeKind::SubSchedule(sub) = &node.kind {
            match validate(sub) {
                Ok(_) => {},
                Err(e) => {
                    let failure = ValidationError::NestedFailure(sub.name.clone(), Box::new(e));
                    proof {
                        lemma_nested_failure(s, i as int, sub@, e@);
                    }
                    return Err(failure);
                },
            }
        }
    }
    match check_level(schedule) {
        Ok(_) => {},
        Err(e) => {
            return Err(e);
        },
    }
    let entries = schedule.flatten();
    Ok(
        Certificate {
            schedule_name: schedule.name.clone(),
            node_count: entries.len(),
            interface: aggregate(schedule),
            fingerprint: fingerprint_schedule(schedule),
        },
    )
}

} // verus!
