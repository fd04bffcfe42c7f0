//! What holds of generated source: when there is any, and which tensors it
//! declares.
use vstd::prelude::*;

use crate::cuda_codegen::{
    cuda_source, field_names, first_lines, identifier, identifiers, lemma_error_stays, node_lines,
    place_of, schedule_lines, CodegenErrorModel,
};
use crate::interface::{accesses, lemma_access_from, lemma_access_listed, node_accesses, Access};
use crate::ir::{flat, has_id, KindModel, NodeModel, OpModel, ScheduleModel};
use crate::order::{every_node_launches_once, launch_order, orderable, unique_ids};
use crate::rules::{certifiable, level_safe, node_certifiable};
use crate::safety::{node_unique_throughout, unique_throughout};
use crate::text::{lemma_sorted_exists, strictly_sorted};

verus! {

/// The node has as many tensors as its operation takes.
pub open spec fn enough_tensors(node: NodeModel, op: OpModel) -> bool {
    match op {
        OpModel::MatMul { .. } => node.outputs.len() >= 1 && node.inputs.len() >= 2,
        OpModel::RmsNorm { .. } => node.outputs.len() >= 1 && node.inputs.len() >= 1,
        OpModel::Softmax { .. } => node.outputs.len() >= 1 && node.inputs.len() >= 1,
        OpModel::Attention { .. } => node.outputs.len() >= 1 && node.inputs.len() >= 3,
        OpModel::Elementwise { .. } => node.outputs.len() >= 1,
        OpModel::Barrier => true,
    }
}

/// Every operation of the schedule, at every level, has enough tensors.
pub open spec fn well_supplied(s: ScheduleModel) -> bool
    decreases s,
{
    forall|i: int| 0 <= i < s.nodes.len() ==> node_well_supplied(#[trigger] s.nodes[i])
}

/// An operation has enough tensors; a nested schedule's operations have.
pub open spec fn node_well_supplied(node: NodeModel) -> bool
    decreases node,
{
    match node.kind {
        KindModel::Op(op) => enough_tensors(node, op),
        KindModel::SubSchedule(sub) => well_supplied(*sub),
    }
}

/// Every level of the schedule can be put in launch order.
pub open spec fn orderable_throughout(s: ScheduleModel) -> bool
    decreases s,
{
    &&& orderable(s.nodes)
    &&& forall|i: int| 0 <= i < s.nodes.len() ==> node_orderable_throughout(#[trigger] s.nodes[i])
}

/// Every level of a nested schedule can be put in launch order.
pub open spec fn node_orderable_throughout(node: NodeModel) -> bool
    decreases node,
{
    match node.kind {
        KindModel::Op(_) => true,
        KindModel::SubSchedule(sub) => orderable_throughout(*sub),
    }
}

/// Nothing stands in the way of generating source for the node.
spec fn node_fit(node: NodeModel) -> bool {
    node_orderable_throughout(node) && node_well_supplied(node)
}

proof fn lemma_all_lines_or_none(s: ScheduleModel, depth: nat)
    requires
        orderable(s.nodes),
        forall|i: int|
            0 <= i < s.nodes.len() ==> (node_lines(s.nodes[i], depth) is Ok <==> node_fit(
                #[trigger] s.nodes[i],
            )),
    ensures
        first_lines(s, s.nodes.len(), depth) is Ok <==> forall|i: int|
            0 <= i < s.nodes.len() ==> node_fit(#[trigger] s.nodes[i]),
{
    let nodes = s.nodes;
    let order = launch_order(nodes);
    every_node_launches_once(nodes);
    if forall|i: int| 0 <= i < nodes.len() ==> node_fit(#[trigger] nodes[i]) {
        lemma_lines_of_fit(s, nodes.len(), depth);
    } else {
        let i = choose|i: int| 0 <= i < nodes.len() && !node_fit(#[trigger] nodes[i]);
        assert(has_id(nodes, nodes[i].id));
        assert(order.contains(nodes[i].id));
        let k = choose|k: int| 0 <= k < order.len() && order[k] == nodes[i].id;
        lemma_place_is(nodes, i);
        assert(order[k] == launch_order(nodes)[(k + 1) - 1]);
        assert(first_lines(s, (k + 1) as nat, depth) is Err);
        lemma_error_stays(s, (k + 1) as nat, nodes.len(), depth);
    }
}

proof fn lemma_place_is(nodes: Seq<NodeModel>, i: int)
    requires
        unique_ids(nodes),
        0 <= i < nodes.len(),
    ensures
        place_of(nodes, nodes[i].id) == i,
{
    let j = place_of(nodes, nodes[i].id);
    assert(0 <= j < nodes.len() && nodes[j].id == nodes[i].id);
}

proof fn lemma_lines_of_fit(s: ScheduleModel, k: nat, depth: nat)
    requires
        orderable(s.nodes),
        k <= s.nodes.len(),
        forall|i: int|
            0 <= i < s.nodes.len() ==> (node_lines(s.nodes[i], depth) is Ok <==> node_fit(
                #[trigger] s.nodes[i],
            )),
        forall|i: int| 0 <= i < s.nodes.len() ==> node_fit(#[trigger] s.nodes[i]),
    ensures
        first_lines(s, k, depth) is Ok,
    decreases k,
{
    if k > 0 {
        lemma_lines_of_fit(s, (k - 1) as nat, depth);
        let i = place_of(s.nodes, launch_order(s.nodes)[k - 1]);
        if 0 <= i < s.nodes.len() {
            assert(node_fit(s.nodes[i]));
        }
    }
}

proof fn lemma_lines_iff(s: ScheduleModel, depth: nat)
    ensures
        schedule_lines(s, depth) is Ok <==> orderable_throughout(s) && well_supplied(s),
    decreases s,
{
    if orderable(s.nodes) {
        assert forall|i: int| 0 <= i < s.nodes.len() implies (node_lines(s.nodes[i], depth) is Ok
            <==> node_fit(#[trigger] s.nodes[i])) by {
            lemma_node_lines_iff(s.nodes[i], depth);
        }
        lemma_all_lines_or_none(s, depth);
        if forall|i: int| 0 <= i < s.nodes.len() ==> node_fit(#[trigger] s.nodes[i]) {
            assert forall|i: int| 0 <= i < s.nodes.len() implies node_orderable_throughout(
                #[trigger] s.nodes[i],
            ) by {
                assert(node_fit(s.nodes[i]));
            }
            assert forall|i: int| 0 <= i < s.nodes.len() implies node_well_supplied(
                #[trigger] s.nodes[i],
            ) by {
                assert(node_fit(s.nodes[i]));
            }
        } else {
            let i = choose|i: int| 0 <= i < s.nodes.len() && !node_fit(#[trigger] s.nodes[i]);
            assert(!(node_orderable_throughout(s.nodes[i]) && node_well_supplied(s.nodes[i])));
        }
    }
}

proof fn lemma_node_lines_iff(node: NodeModel, depth: nat)
    ensures
        node_lines(node, depth) is Ok <==> node_fit(node),
    decreases node,
{
    match node.kind {
        KindModel::Op(_) => {},
        KindModel::SubSchedule(sub) => {
            lemma_lines_iff(*sub, depth + 1);
        },
    }
}

/// There is source for a schedule if and only if each of its levels can be put
/// in launch order and each of its operations has enough tensors.
pub proof fn source_exists_iff(s: ScheduleModel, tensor_len: u64)
    ensures
        cuda_source(s, tensor_len) is Ok <==> orderable_throughout(s) && well_supplied(s),
{
    lemma_lines_iff(s, 0);
}

/// A level that cannot be put in launch order, be it for a cycle, a wait on
/// nothing or a repeated id, stops generation under the name of its schedule.
pub proof fn unordered_levels_stop_generation(s: ScheduleModel, tensor_len: u64)
    requires
        !orderable(s.nodes),
    ensures
        cuda_source(s, tensor_len) == Err::<Seq<char>, _>(CodegenErrorModel::Cycle(s.name)),
{
}

proof fn lemma_certified_is_orderable(s: ScheduleModel)
    requires
        certifiable(s),
        unique_throughout(s),
    ensures
        orderable_throughout(s),
    decreases s,
{
    reveal(level_safe);
    assert forall|i: int| 0 <= i < s.nodes.len() implies node_orderable_throughout(
        #[trigger] s.nodes[i],
    ) by {
        assert(node_certifiable(s.nodes[i]) && node_unique_throughout(s.nodes[i]));
        match s.nodes[i].kind {
            KindModel::Op(_) => {},
            KindModel::SubSchedule(sub) => {
                lemma_certified_is_orderable(*sub);
            },
        }
    }
}

proof fn lemma_only_arity_stops(s: ScheduleModel, depth: nat)
    requires
        orderable_throughout(s),
    ensures
        schedule_lines(s, depth) matches Err(e) ==> e is BadArity,
    decreases s, s.nodes.len() + 1,
{
    lemma_only_arity_stops_first(s, s.nodes.len(), depth);
}

proof fn lemma_only_arity_stops_first(s: ScheduleModel, k: nat, depth: nat)
    requires
        orderable_throughout(s),
    ensures
        first_lines(s, k, depth) matches Err(e) ==> e is BadArity,
    decreases s, k,
{
    if k > 0 {
        lemma_only_arity_stops_first(s, (k - 1) as nat, depth);
        let i = place_of(s.nodes, launch_order(s.nodes)[k - 1]);
        if 0 <= i < s.nodes.len() {
            assert(node_orderable_throughout(s.nodes[i]));
            lemma_only_arity_stops_node(s.nodes[i], depth);
        }
    }
}

proof fn lemma_only_arity_stops_node(node: NodeModel, depth: nat)
    requires
        node_orderable_throughout(node),
    ensures
        node_lines(node, depth) matches Err(e) ==> e is BadArity,
    decreases node, 0nat,
{
    match node.kind {
        KindModel::Op(_) => {},
        KindModel::SubSchedule(sub) => {
            lemma_only_arity_stops(*sub, depth + 1);
        },
    }
}

/// For a certified schedule without repeated ids there is source if its
/// operations have enough tensors; nothing else can stop it.
pub proof fn certified_schedules_generate(s: ScheduleModel, tensor_len: u64)
    requires
        certifiable(s),
        unique_throughout(s),
    ensures
        cuda_source(s, tensor_len) is Ok <==> well_supplied(s),
        cuda_source(s, tensor_len) matches Err(e) ==> e is BadArity,
{
    lemma_certified_is_orderable(s);
    lemma_only_arity_stops(s, 0);
    source_exists_iff(s, tensor_len);
}

/// Turning a name into an identifier changes no length and no identifier, so
/// that doing it twice is doing it once.
pub proof fn identifiers_stay(name: Seq<char>)
    ensures
        identifier(name).len() == name.len(),
        identifier(identifier(name)) == identifier(name),
{
    assert(identifier(identifier(name)) =~= identifier(name));
}

pub proof fn lemma_field_names(s: ScheduleModel)
    ensures
        strictly_sorted(field_names(s)),
        field_names(s).to_set() == identifiers(accesses(flat(s))),
{
    let log = accesses(flat(s));
    let names = log.map_values(|a: Access| identifier(a.tensor.name));
    assert forall|name: Seq<char>| names.to_set().contains(name) <==> identifiers(log).contains(
        name,
    ) by {
        if names.contains(name) {
            let k = choose|k: int| 0 <= k < names.len() && names[k] == name;
            assert(identifier(log[k].tensor.name) == name);
        }
        if identifiers(log).contains(name) {
            let k = choose|k: int|
                0 <= k < log.len() && #[trigger] identifier(log[k].tensor.name) == name;
            assert(names[k] == name);
        }
    }
    assert(names.to_set() =~= identifiers(log));
    lemma_sorted_exists(names);
}

/// The tensors that source declares are in order and none is declared twice,
/// and every tensor of every operation is declared.
pub proof fn every_tensor_is_declared(s: ScheduleModel, i: int)
    requires
        0 <= i < flat(s).len(),
        flat(s)[i].1.kind is Op,
    ensures
        strictly_sorted(field_names(s)),
        forall|k: int|
            0 <= k < flat(s)[i].1.inputs.len() ==> field_names(s).contains(
                identifier((#[trigger] flat(s)[i].1.inputs[k]).name),
            ),
        forall|k: int|
            0 <= k < flat(s)[i].1.outputs.len() ==> field_names(s).contains(
                identifier((#[trigger] flat(s)[i].1.outputs[k]).name),
            ),
{
    lemma_field_names(s);
    let node = flat(s)[i].1;
    let own = node_accesses(node);
    let log = accesses(flat(s));
    assert forall|k: int| 0 <= k < own.len() implies field_names(s).contains(
        identifier((#[trigger] own[k]).tensor.name),
    ) by {
        assert(own.contains(own[k]));
        lemma_access_listed(flat(s), i, own[k]);
        let l = choose|l: int| 0 <= l < log.len() && log[l] == own[k];
        assert(identifier(log[l].tensor.name) == identifier(own[k].tensor.name));
        assert(identifiers(log).contains(identifier(own[k].tensor.name)));
        assert(field_names(s).to_set().contains(identifier(own[k].tensor.name)));
    }
    assert forall|k: int| 0 <= k < node.inputs.len() implies field_names(s).contains(
        identifier((#[trigger] node.inputs[k]).name),
    ) by {
        assert(own[k].tensor == node.inputs[k]);
    }
    assert forall|k: int| 0 <= k < node.outputs.len() implies field_names(s).contains(
        identifier((#[trigger] node.outputs[k]).name),
    ) by {
        assert(own[node.inputs.len() + k].tensor == node.outputs[k]);
    }
}

/// No tensor is declared but those that operations touch.
pub proof fn only_tensors_are_declared(s: ScheduleModel, name: Seq<char>) -> (i: int)
    requires
        field_names(s).contains(name),
    ensures
        0 <= i < flat(s).len(),
        exists|k: int|
            0 <= k < node_accesses(flat(s)[i].1).len() && name == identifier(
                (#[trigger] node_accesses(flat(s)[i].1)[k]).tensor.name,
            ),
{
    lemma_field_names(s);
    let log = accesses(flat(s));
    assert(field_names(s).to_set().contains(name));
    assert(identifiers(log).contains(name));
    let k = choose|k: int| 0 <= k < log.len() && #[trigger] identifier(log[k].tensor.name) == name;
    lemma_access_from(flat(s), log[k])
}

} // verus!
