//! What a schedule holds, said node by node.
//!
//! The listing, the index, the units, the interface and the certificate of a
//! schedule are each tied here to the nodes that following a spot leads to and
//! to the tensors that those nodes list.
use vstd::prelude::*;
use vstd::utf8::encode_utf8;

use crate::cuda_codegen::{CodegenErrorModel, CudaCodegenError};
use crate::driver::DemoCase;
use crate::fingerprint::{hex_lower, schedule_json, sha256};
use crate::interface::{
    access_of, accessed, accesses, accesses_to, last_space, lemma_access_from, lemma_access_listed,
    node_accesses, schedule_interface, with_access, with_accesses, Access, TensorAccess,
};
use crate::ir::{
    flat, flat_node, flat_nodes, index_model, indexes, lemma_index_model, lemma_indexed_at,
    placed_models, sms_of, KindModel, MemSpace, Node, NodeId, NodeKind, NodeModel, OpKind, OpModel,
    Placed, Schedule, ScheduleModel, SmId, Tensor, TensorModel,
};
use crate::order::node_models;
use crate::rules::ErrorModel;
use crate::spots::{
    every_spot_is_listed, lemma_node_spots_match, lemma_place_in_spot, lemma_spot_through,
    lemma_spots_match, lemma_spotted_from, spot_node, spot_nodes, spots, spots_lead_to_their_nodes,
    spots_match_the_listing, stands_at,
};
use crate::text::texts;
use crate::validator::{Certificate, ValidationError};

verus! {

/// The ids of the nodes that a spot passes through on its way, outermost first.
pub open spec fn holders(nodes: Seq<NodeModel>, spot: Seq<int>) -> Seq<NodeId>
    decreases spot.len(),
{
    if spot.len() <= 1 {
        Seq::empty()
    } else {
        seq![nodes[spot[0]].id] + match nodes[spot[0]].kind {
            KindModel::Op(_) => Seq::empty(),
            KindModel::SubSchedule(sub) => holders(sub.nodes, spot.skip(1)),
        }
    }
}

/// Where the spots part, the first goes to the earlier place; or the second
/// goes on from where the first ends.
pub open spec fn before(p: Seq<int>, q: Seq<int>) -> bool {
    exists|d: int| #[trigger] parts_at(p, q, d) && (p.len() == d || p[d] < q[d])
}

/// The two spots agree on their first `d` places and then part.
pub open spec fn parts_at(p: Seq<int>, q: Seq<int>, d: int) -> bool {
    &&& 0 <= d <= p.len()
    &&& d < q.len()
    &&& forall|x: int| 0 <= x < d ==> #[trigger] p[x] == q[x]
}

proof fn lemma_spot_in(nodes: Seq<NodeModel>, at: Seq<int>, k: int)
    requires
        0 <= k < spot_nodes(nodes, at).len(),
    ensures
        spot_nodes(nodes, at)[k].0.len() > at.len(),
        0 <= spot_nodes(nodes, at)[k].0[at.len() as int] < nodes.len(),
        spot_nodes(nodes, at)[k].0.take(at.len() as int) == at,
{
    let e = spot_nodes(nodes, at)[k];
    assert(spot_nodes(nodes, at).contains(e));
    let i = lemma_spotted_from(nodes, at, e);
    lemma_spot_through(nodes[i], at.push(i), e);
    lemma_place_in_spot(nodes[i], at, i, e);
    let n = at.len() as int;
    assert(e.0.take(n) =~= e.0.take(n + 1).take(n));
    assert(at.push(i).take(n) =~= at);
}

proof fn lemma_in_order(nodes: Seq<NodeModel>, at: Seq<int>, k: int, l: int)
    requires
        0 <= k < l < spot_nodes(nodes, at).len(),
    ensures
        before(spot_nodes(nodes, at)[k].0, spot_nodes(nodes, at)[l].0),
    decreases nodes,
{
    let n = nodes.len() - 1;
    let front = spot_nodes(nodes.drop_last(), at);
    let back = spot_node(nodes[n], at.push(n));
    let all = spot_nodes(nodes, at);
    if l < front.len() {
        lemma_in_order(nodes.drop_last(), at, k, l);
    } else if k >= front.len() {
        let (x, y) = (k - front.len(), l - front.len());
        lemma_node_in_order(nodes[n], at.push(n), x, y);
        assert(all[k] == back[x] && all[l] == back[y]);
    } else {
        let d = at.len() as int;
        let e = back[l - front.len()];
        assert(all[l] == e && back.contains(e));
        lemma_spot_in(nodes.drop_last(), at, k);
        lemma_spot_through(nodes[n], at.push(n), e);
        lemma_place_in_spot(nodes[n], at, n, e);
        let (p, q) = (all[k].0, all[l].0);
        assert forall|x: int| 0 <= x < d implies #[trigger] p[x] == q[x] by {
            assert(p.take(d)[x] == at[x]);
            assert(q.take(d + 1)[x] == at.push(n)[x]);
        }
        assert(parts_at(p, q, d));
    }
}

proof fn lemma_node_in_order(node: NodeModel, at: Seq<int>, k: int, l: int)
    requires
        0 <= k < l < spot_node(node, at).len(),
    ensures
        before(spot_node(node, at)[k].0, spot_node(node, at)[l].0),
    decreases node,
{
    match node.kind {
        KindModel::Op(_) => {},
        KindModel::SubSchedule(sub) => {
            let inner = spot_nodes(sub.nodes, at);
            assert(spot_node(node, at)[l] == inner[l - 1]);
            if k == 0 {
                lemma_spot_in(sub.nodes, at, l - 1);
                let (p, q) = (at, inner[l - 1].0);
                let d = at.len() as int;
                assert forall|x: int| 0 <= x < d implies #[trigger] p[x] == q[x] by {
                    assert(q.take(d)[x] == at[x]);
                }
                assert(parts_at(p, q, d));
            } else {
                assert(spot_node(node, at)[k] == inner[k - 1]);
                lemma_in_order(sub.nodes, at, k - 1, l - 1);
            }
        },
    }
}

proof fn lemma_holders(nodes: Seq<NodeModel>, at: Seq<int>, path: Seq<NodeId>, k: int)
    requires
        0 <= k < flat_nodes(nodes, path).len(),
        spot_nodes(nodes, at).len() == flat_nodes(nodes, path).len(),
    ensures
        flat_nodes(nodes, path)[k].0 == path + holders(
            nodes,
            spot_nodes(nodes, at)[k].0.skip(at.len() as int),
        ),
    decreases nodes,
{
    let n = nodes.len() - 1;
    let front = nodes.drop_last();
    let d = at.len() as int;
    lemma_spots_match(front, at, path);
    lemma_node_spots_match(nodes[n], at.push(n), path);
    let m = flat_nodes(front, path).len();
    if k < m {
        lemma_holders(front, at, path, k);
        lemma_spot_in(front, at, k);
        let p = spot_nodes(front, at)[k].0.skip(d);
        assert(p[0] < n);
        assert(front[p[0]] == nodes[p[0]]);
        assert(holders(front, p) == holders(nodes, p));
        assert(spot_nodes(nodes, at)[k] == spot_nodes(front, at)[k]);
        assert(flat_nodes(nodes, path)[k] == flat_nodes(front, path)[k]);
    } else {
        let x = k - m;
        let e = spot_node(nodes[n], at.push(n))[x];
        assert(spot_nodes(nodes, at)[k] == e);
        assert(flat_nodes(nodes, path)[k] == flat_node(nodes[n], path)[x]);
        match nodes[n].kind {
            KindModel::Op(_) => {
                assert(e.0.skip(d).len() == 1);
                assert(path + Seq::<NodeId>::empty() =~= path);
            },
            KindModel::SubSchedule(sub) => {
                if x == 0 {
                    assert(e.0.skip(d).len() == 1);
                    assert(path + Seq::<NodeId>::empty() =~= path);
                } else {
                    let inner = path.push(nodes[n].id);
                    lemma_spots_match(sub.nodes, at.push(n), inner);
                    lemma_holders(sub.nodes, at.push(n), inner, x - 1);
                    lemma_spot_in(sub.nodes, at.push(n), x - 1);
                    assert(e == spot_nodes(sub.nodes, at.push(n))[x - 1]);
                    let p = e.0.skip(d);
                    assert(e.0.take(d + 1)[d] == n);
                    assert(p[0] == n);
                    assert(p.skip(1) =~= e.0.skip(d + 1));
                    assert(path.push(nodes[n].id) + holders(sub.nodes, p.skip(1)) =~= path + (
                    seq![nodes[n].id] + holders(sub.nodes, p.skip(1))));
                }
            },
        }
    }
}

/// The listing holds every node that a spot leads to, once, with the ids of
/// the nodes that hold it, and nothing else; a node comes before those that it
/// holds and those come before the next node of its level.
pub proof fn listing_goes_by_spots(s: ScheduleModel) -> (at: Seq<Seq<int>>)
    ensures
        at.len() == flat(s).len(),
        forall|k: int|
            0 <= k < at.len() ==> {
                &&& stands_at(s.nodes, #[trigger] at[k], flat(s)[k].1)
                &&& flat(s)[k].0 == holders(s.nodes, at[k])
            },
        forall|k: int, l: int| 0 <= k < l < at.len() ==> before(#[trigger] at[k], #[trigger] at[l]),
        forall|spot: Seq<int>, node: NodeModel| #[trigger]
            stands_at(s.nodes, spot, node) ==> exists|k: int|
                0 <= k < at.len() && #[trigger] at[k] == spot && flat(s)[k].1 == node,
{
    let at = Seq::new(spots(s).len(), |k: int| spots(s)[k].0);
    spots_match_the_listing(s);
    assert forall|k: int| 0 <= k < at.len() implies {
        &&& stands_at(s.nodes, #[trigger] at[k], flat(s)[k].1)
        &&& flat(s)[k].0 == holders(s.nodes, at[k])
    } by {
        spots_lead_to_their_nodes(s, k);
        assert(spots(s)[k].1 == flat(s)[k].1);
        lemma_holders(s.nodes, Seq::empty(), Seq::empty(), k);
        assert(at[k].skip(0) =~= at[k]);
        assert(Seq::<NodeId>::empty() + holders(s.nodes, at[k]) =~= holders(s.nodes, at[k]));
    }
    assert forall|k: int, l: int| 0 <= k < l < at.len() implies before(
        #[trigger] at[k],
        #[trigger] at[l],
    ) by {
        lemma_in_order(s.nodes, Seq::empty(), k, l);
    }
    assert forall|spot: Seq<int>, node: NodeModel| #[trigger]
        stands_at(s.nodes, spot, node) implies exists|k: int|
        0 <= k < at.len() && #[trigger] at[k] == spot && flat(s)[k].1 == node by {
        every_spot_is_listed(s, spot, node);
        let k = choose|k: int| 0 <= k < spots(s).len() && spots(s)[k] == (spot, node);
        assert(spots(s)[k].1 == flat(s)[k].1);
        assert(at[k] == spot);
    }
    at
}

proof fn lemma_node_listing(node: NodeModel, path: Seq<NodeId>)
    ensures
        flat_node(node, path).len() == 1 + match node.kind {
            KindModel::Op(_) => 0,
            KindModel::SubSchedule(sub) => flat(*sub).len(),
        },
        flat_node(node, path)[0] == (path, node),
{
    match node.kind {
        KindModel::Op(_) => {},
        KindModel::SubSchedule(sub) => {
            lemma_spots_match(sub.nodes, Seq::empty(), Seq::empty());
            lemma_spots_match(sub.nodes, Seq::empty(), path.push(node.id));
        },
    }
}

/// Appending a node adds it to the end of the listing, and after it what it
/// holds, as that is listed on its own, held by the node.
pub proof fn appending_extends_the_listing(s: ScheduleModel, node: NodeModel)
    ensures
        flat(ScheduleModel { name: s.name, nodes: s.nodes.push(node) }).len() == flat(s).len() + 1
            + match node.kind {
            KindModel::Op(_) => 0,
            KindModel::SubSchedule(sub) => flat(*sub).len(),
        },
        forall|k: int|
            0 <= k < flat(s).len() ==> #[trigger] flat(
                ScheduleModel { name: s.name, nodes: s.nodes.push(node) },
            )[k] == flat(s)[k],
        flat(ScheduleModel { name: s.name, nodes: s.nodes.push(node) })[flat(s).len() as int].1
            == node,
{
    let more = s.nodes.push(node);
    assert(more.drop_last() =~= s.nodes);
    lemma_node_listing(node, Seq::empty());
    assert(flat_nodes(more, Seq::empty()) == flat(s) + flat_node(node, Seq::empty()));
}

/// The index knows the ids that nodes of the level have, and gives for each
/// the last node that has it.
pub proof fn index_finds_the_last(nodes: Seq<NodeModel>, id: NodeId)
    ensures
        index_model(nodes).dom().contains(id) <==> exists|i: int|
            0 <= i < nodes.len() && (#[trigger] nodes[i]).id == id,
        index_model(nodes).dom().contains(id) ==> exists|i: int| {
            &&& 0 <= i < nodes.len()
            &&& (#[trigger] nodes[i]).id == id
            &&& index_model(nodes)[id] == nodes[i]
            &&& forall|j: int| i < j < nodes.len() ==> (#[trigger] nodes[j]).id != id
        },
{
    lemma_index_model(nodes);
    if index_model(nodes).dom().contains(id) {
        let i = lemma_indexed_at(nodes, id);
        assert forall|j: int| i < j < nodes.len() implies (#[trigger] nodes[j]).id != id by {
            assert(nodes.skip(i + 1)[j - i - 1] == nodes[j]);
        }
        assert(nodes[i].id == id);
    }
}

/// The units of a schedule are those that a node at some spot is pinned to.
pub proof fn units_are_those_in_use(s: ScheduleModel, sm: SmId)
    ensures
        sms_of(flat(s)).contains(sm) <==> exists|spot: Seq<int>, node: NodeModel| #[trigger]
            stands_at(s.nodes, spot, node) && node.sm == sm,
{
    let at = listing_goes_by_spots(s);
    if sms_of(flat(s)).contains(sm) {
        let k = choose|k: int| 0 <= k < flat(s).len() && #[trigger] flat(s)[k].1.sm == sm;
        assert(stands_at(s.nodes, at[k], flat(s)[k].1));
    }
    if exists|spot: Seq<int>, node: NodeModel| #[trigger]
        stands_at(s.nodes, spot, node) && node.sm == sm {
        let (spot, node) = choose|spot: Seq<int>, node: NodeModel| #[trigger]
            stands_at(s.nodes, spot, node) && node.sm == sm;
        let k = choose|k: int|
            0 <= k < at.len() && #[trigger] at[k] == spot && flat(s)[k].1 == node;
        assert(flat(s)[k].1.sm == sm);
    }
}

/// An operation lists a tensor of this name at `x`, counting its inputs and
/// then its outputs.
pub open spec fn lists_at(node: NodeModel, x: int, name: Seq<char>) -> bool {
    &&& node.kind is Op
    &&& 0 <= x < (node.inputs + node.outputs).len()
    &&& (node.inputs + node.outputs)[x].name == name
}

/// No tensor that the listing names later than the `x`-th of its `k`-th entry
/// has this name.
pub open spec fn last_listed(entries: Seq<Placed>, k: int, x: int, name: Seq<char>) -> bool {
    &&& 0 <= k < entries.len()
    &&& lists_at(entries[k].1, x, name)
    &&& forall|y: int| x < y ==> !#[trigger] lists_at(entries[k].1, y, name)
    &&& forall|l: int, y: int|
        k < l < entries.len() ==> !#[trigger] lists_at(entries[l].1, y, name)
}

proof fn lemma_node_log(node: NodeModel)
    requires
        node.kind is Op,
    ensures
        node_accesses(node).len() == (node.inputs + node.outputs).len(),
        forall|x: int|
            0 <= x < node_accesses(node).len() ==> (#[trigger] node_accesses(node)[x]).tensor == (
            node.inputs + node.outputs)[x],
{
}

/// Where in a log the last tensor of a name stands.
proof fn lemma_last_of(log: Seq<Access>, name: Seq<char>) -> (p: int)
    ensures
        match last_space(log, name) {
            None => forall|q: int|
                0 <= q < log.len() ==> (#[trigger] log[q]).tensor.name != name,
            Some(space) => {
                &&& 0 <= p < log.len()
                &&& log[p].tensor.name == name
                &&& log[p].tensor.space == space
                &&& forall|q: int| p < q < log.len() ==> (#[trigger] log[q]).tensor.name != name
            },
        },
    decreases log.len(),
{
    if log.len() == 0 {
        0
    } else if log.last().tensor.name == name {
        log.len() - 1
    } else {
        let front = log.drop_last();
        let p = lemma_last_of(front, name);
        assert forall|q: int| 0 <= q < front.len() implies front[q] == #[trigger] log[q] by {
        }
        p
    }
}

proof fn lemma_last_in_two(a: Seq<Access>, b: Seq<Access>, name: Seq<char>)
    ensures
        last_space(a + b, name) == match last_space(b, name) {
            Some(space) => Some(space),
            None => last_space(a, name),
        },
    decreases b.len(),
{
    if b.len() == 0 {
        assert(a + b =~= a);
    } else {
        assert((a + b).drop_last() =~= a + b.drop_last());
        assert((a + b).last() == b.last());
        lemma_last_in_two(a, b.drop_last(), name);
    }
}

/// The last tensor of a name in the log of a listing, by entry.
proof fn lemma_last_entry(entries: Seq<Placed>, name: Seq<char>) -> (at: (int, int))
    ensures
        match last_space(accesses(entries), name) {
            None => forall|k: int, x: int|
                0 <= k < entries.len() ==> !#[trigger] lists_at(entries[k].1, x, name),
            Some(space) => {
                &&& last_listed(entries, at.0, at.1, name)
                &&& (entries[at.0].1.inputs + entries[at.0].1.outputs)[at.1].space == space
            },
        },
    decreases entries.len(),
{
    if entries.len() == 0 {
        (0, 0)
    } else {
        let front = entries.drop_last();
        let n = entries.len() - 1;
        let node = entries[n].1;
        let log = node_accesses(node);
        lemma_last_in_two(accesses(front), log, name);
        let p = lemma_last_of(log, name);
        let before = lemma_last_entry(front, name);
        if node.kind is Op {
            lemma_node_log(node);
        }
        if last_space(log, name) is Some {
            assert forall|y: int| p < y implies !#[trigger] lists_at(node, y, name) by {
                if lists_at(node, y, name) {
                    assert(log[y].tensor.name != name);
                }
            }
            (n, p)
        } else {
            assert forall|x: int| !#[trigger] lists_at(node, x, name) by {
                if lists_at(node, x, name) {
                    assert(log[x].tensor.name != name);
                }
            }
            assert forall|k: int| 0 <= k < front.len() implies front[k]
                == #[trigger] entries[k] by {
            }
            before
        }
    }
}

proof fn lemma_log_by_entry(entries: Seq<Placed>, name: Seq<char>)
    ensures
        accessed(accesses(entries), name, false) <==> exists|k: int, x: int|
            0 <= k < entries.len() && entries[k].1.kind is Op && 0 <= x < entries[k].1.inputs.len()
                && (#[trigger] entries[k].1.inputs[x]).name == name,
        accessed(accesses(entries), name, true) <==> exists|k: int, x: int|
            0 <= k < entries.len() && entries[k].1.kind is Op && 0 <= x < entries[k].1.outputs.len()
                && (#[trigger] entries[k].1.outputs[x]).name == name,
{
    let log = accesses(entries);
    assert forall|write: bool| #[trigger] accessed(log, name, write) implies exists|k: int, x: int|
        0 <= k < entries.len() && 0 <= x < node_accesses(entries[k].1).len() && (
        #[trigger] node_accesses(entries[k].1)[x]).tensor.name == name && node_accesses(
            entries[k].1,
        )[x].write == write by {
        let i = choose|i: int|
            0 <= i < log.len() && #[trigger] log[i].tensor.name == name && log[i].write == write;
        let a = log[i];
        assert(log.contains(a));
        let k = lemma_access_from(entries, a);
        let own = node_accesses(entries[k].1);
        let x = choose|x: int| 0 <= x < own.len() && own[x] == a;
        assert(node_accesses(entries[k].1)[x].tensor.name == name);
    }
    if accessed(log, name, false) {
        let (k, x) = choose|k: int, x: int|
            0 <= k < entries.len() && 0 <= x < node_accesses(entries[k].1).len() && (
            #[trigger] node_accesses(entries[k].1)[x]).tensor.name == name && node_accesses(
                entries[k].1,
            )[x].write == false;
        let node = entries[k].1;
        assert(node_accesses(node) == accesses_to(node.inputs, false) + accesses_to(
            node.outputs,
            true,
        ));
        assert(entries[k].1.inputs[x].name == name);
    }
    if accessed(log, name, true) {
        let (k, x) = choose|k: int, x: int|
            0 <= k < entries.len() && 0 <= x < node_accesses(entries[k].1).len() && (
            #[trigger] node_accesses(entries[k].1)[x]).tensor.name == name && node_accesses(
                entries[k].1,
            )[x].write == true;
        let node = entries[k].1;
        assert(node_accesses(node) == accesses_to(node.inputs, false) + accesses_to(
            node.outputs,
            true,
        ));
        assert(entries[k].1.outputs[x - node.inputs.len()].name == name);
    }
    assert forall|k: int, x: int|
        0 <= k < entries.len() && entries[k].1.kind is Op && 0 <= x < entries[k].1.inputs.len() && (
        #[trigger] entries[k].1.inputs[x]).name == name implies accessed(log, name, false) by {
        let node = entries[k].1;
        let a = Access { tensor: node.inputs[x], write: false };
        assert(node_accesses(node)[x] == a);
        lemma_access_listed(entries, k, a);
        let i = choose|i: int| 0 <= i < log.len() && log[i] == a;
        assert(log[i].tensor.name == name);
    }
    assert forall|k: int, x: int|
        0 <= k < entries.len() && entries[k].1.kind is Op && 0 <= x < entries[k].1.outputs.len()
            && (#[trigger] entries[k].1.outputs[x]).name == name implies accessed(
        log,
        name,
        true,
    ) by {
        let node = entries[k].1;
        let a = Access { tensor: node.outputs[x], write: true };
        assert(node_accesses(node)[node.inputs.len() + x] == a);
        lemma_access_listed(entries, k, a);
        let i = choose|i: int| 0 <= i < log.len() && log[i] == a;
        assert(log[i].tensor.name == name);
    }
}

/// The interface has an entry for the names of the tensors that operations
/// list, at any depth. It is read where an operation has it among its inputs
/// and written where one has it among its outputs. Its memory space is that of
/// the last tensor of the name in the listing, where each operation lists its
/// inputs before its outputs.
pub proof fn interfaces_say_what_operations_list(s: ScheduleModel, name: Seq<char>)
    ensures
        schedule_interface(s).dom().contains(name) <==> exists|k: int, x: int|
            0 <= k < flat(s).len() && #[trigger] lists_at(flat(s)[k].1, x, name),
        schedule_interface(s).dom().contains(name) ==> {
            let access = schedule_interface(s)[name];
            &&& access.read <==> exists|k: int, x: int|
                0 <= k < flat(s).len() && flat(s)[k].1.kind is Op && 0 <= x < flat(
                    s,
                )[k].1.inputs.len() && (#[trigger] flat(s)[k].1.inputs[x]).name == name
            &&& access.written <==> exists|k: int, x: int|
                0 <= k < flat(s).len() && flat(s)[k].1.kind is Op && 0 <= x < flat(
                    s,
                )[k].1.outputs.len() && (#[trigger] flat(s)[k].1.outputs[x]).name == name
            &&& exists|k: int, x: int| #[trigger]
                last_listed(flat(s), k, x, name) && access.space == Some(
                    (flat(s)[k].1.inputs + flat(s)[k].1.outputs)[x].space,
                )
        },
{
    let entries = flat(s);
    let m = schedule_interface(s);
    lemma_log_by_entry(entries, name);
    let at = lemma_last_entry(entries, name);
    assert forall|k: int, x: int|
        0 <= k < entries.len() && #[trigger] lists_at(
            entries[k].1,
            x,
            name,
        ) implies m.dom().contains(name) by {
        let node = entries[k].1;
        if x < node.inputs.len() {
            assert(entries[k].1.inputs[x].name == name);
        } else {
            assert(entries[k].1.outputs[x - node.inputs.len()].name == name);
        }
    }
    if m.dom().contains(name) {
        assert(m[name] == access_of(accesses(entries), name));
        if accessed(accesses(entries), name, false) {
            let (k, x) = choose|k: int, x: int|
                0 <= k < entries.len() && entries[k].1.kind is Op && 0 <= x
                    < entries[k].1.inputs.len() && (#[trigger] entries[k].1.inputs[x]).name == name;
            assert(lists_at(entries[k].1, x, name));
        } else {
            let (k, x) = choose|k: int, x: int|
                0 <= k < entries.len() && entries[k].1.kind is Op && 0 <= x
                    < entries[k].1.outputs.len() && (#[trigger] entries[k].1.outputs[x]).name
                    == name;
            let node = entries[k].1;
            assert((node.inputs + node.outputs)[node.inputs.len() + x] == node.outputs[x]);
            assert(lists_at(entries[k].1, node.inputs.len() + x, name));
        }
        assert(last_listed(entries, at.0, at.1, name));
    }
}

/// Where all tensors of a name that operations list are in one memory space,
/// the interface gives that space.
pub proof fn interfaces_keep_the_space(s: ScheduleModel, name: Seq<char>, space: MemSpace)
    requires
        schedule_interface(s).dom().contains(name),
        forall|k: int, x: int|
            0 <= k < flat(s).len() && #[trigger] lists_at(flat(s)[k].1, x, name) ==> (flat(
                s,
            )[k].1.inputs + flat(s)[k].1.outputs)[x].space == space,
    ensures
        schedule_interface(s)[name].space == Some(space),
{
    interfaces_say_what_operations_list(s, name);
}

/// Entering an access changes the entry of its tensor and no other: what was
/// read or written stays so, the kind of the access is added, and the memory
/// space is that of the tensor.
pub proof fn entering_an_access(map: Map<Seq<char>, TensorAccess>, a: Access, name: Seq<char>)
    ensures
        name != a.tensor.name ==> {
            &&& with_access(map, a).dom().contains(name) == map.dom().contains(name)
            &&& with_access(map, a)[name] == map[name]
        },
        name == a.tensor.name ==> {
            let entry = with_access(map, a)[name];
            &&& with_access(map, a).dom().contains(name)
            &&& entry.space == Some(a.tensor.space)
            &&& a.write ==> entry.written
            &&& !a.write ==> entry.read
            &&& map.dom().contains(name) && a.write ==> entry.read == map[name].read
            &&& map.dom().contains(name) && !a.write ==> entry.written == map[name].written
            &&& !map.dom().contains(name) ==> entry.read != entry.written
        },
{
}

/// Entering tensors one after the other leaves the entries of other names as
/// they were. The entry of a name that is among them has the memory space of
/// the last tensor of that name, is read or written as they are, and keeps
/// what it was besides.
pub proof fn entering_tensors(
    map: Map<Seq<char>, TensorAccess>,
    tensors: Seq<TensorModel>,
    write: bool,
    name: Seq<char>,
)
    ensures
        (forall|x: int| 0 <= x < tensors.len() ==> (#[trigger] tensors[x]).name != name) ==> {
            let after = with_accesses(map, accesses_to(tensors, write));
            &&& after.dom().contains(name) == map.dom().contains(name)
            &&& after[name] == map[name]
        },
        forall|x: int|
            0 <= x < tensors.len() && (#[trigger] tensors[x]).name == name && (forall|y: int|
                x < y < tensors.len() ==> (#[trigger] tensors[y]).name != name) ==> {
                let after = with_accesses(map, accesses_to(tensors, write));
                &&& after.dom().contains(name)
                &&& after[name].space == Some(tensors[x].space)
                &&& after[name].read == (!write || (map.dom().contains(name) && map[name].read))
                &&& after[name].written == (write || (map.dom().contains(name)
                    && map[name].written))
            },
    decreases tensors.len(),
{
    let log = accesses_to(tensors, write);
    if tensors.len() > 0 {
        let front = tensors.drop_last();
        let n = front.len() as int;
        assert(log.drop_last() =~= accesses_to(front, write));
        assert(log.last() == Access { tensor: tensors[n], write });
        entering_tensors(map, front, write, name);
        entering_an_access(with_accesses(map, log.drop_last()), log.last(), name);
        assert forall|x: int| 0 <= x < n implies front[x] == #[trigger] tensors[x] by {
        }
        if exists|x: int| 0 <= x < n && (#[trigger] front[x]).name == name {
            let x = lemma_last_named(front, name);
        }
    }
}

/// The last of some tensors that has a name.
proof fn lemma_last_named(tensors: Seq<TensorModel>, name: Seq<char>) -> (x: int)
    requires
        exists|x: int| 0 <= x < tensors.len() && (#[trigger] tensors[x]).name == name,
    ensures
        0 <= x < tensors.len(),
        tensors[x].name == name,
        forall|y: int| x < y < tensors.len() ==> (#[trigger] tensors[y]).name != name,
    decreases tensors.len(),
{
    if tensors.last().name == name {
        tensors.len() - 1
    } else {
        let front = tensors.drop_last();
        let x = choose|x: int| 0 <= x < tensors.len() && (#[trigger] tensors[x]).name == name;
        assert(front[x].name == name);
        let last = lemma_last_named(front, name);
        assert forall|y: int| last < y < tensors.len() implies (#[trigger] tensors[y]).name
            != name by {
            if y < front.len() {
                assert(front[y].name != name);
            }
        }
        last
    }
}

/// The model of a tensor holds what its fields hold.
pub proof fn tensors_are_read_as_they_stand(t: Tensor)
    ensures
        t@.name == t.name@,
        t@.shape == t.shape@,
        t@.dtype == t.dtype,
        t@.space == t.space,
{
}

/// The model of an operation is the same operation with the same sizes.
pub proof fn operations_are_read_as_they_stand(op: OpKind)
    ensures
        match (op, op@) {
            (OpKind::MatMul { m, n, k }, OpModel::MatMul { m: m1, n: n1, k: k1 }) => m == m1 && n
                == n1 && k == k1,
            (OpKind::RmsNorm { dim }, OpModel::RmsNorm { dim: dim1 }) => dim == dim1,
            (OpKind::Softmax { dim }, OpModel::Softmax { dim: dim1 }) => dim == dim1,
            (
                OpKind::Attention { heads, head_dim, seq_len },
                OpModel::Attention { heads: heads1, head_dim: head_dim1, seq_len: seq_len1 },
            ) => heads == heads1 && head_dim == head_dim1 && seq_len == seq_len1,
            (OpKind::Elementwise { op: name }, OpModel::Elementwise { op: name1 }) => name@
                == name1,
            (OpKind::Barrier, OpModel::Barrier) => true,
            _ => false,
        },
{
}

/// The model of a node holds what its fields hold, element by element.
pub proof fn nodes_are_read_as_they_stand(node: Node)
    ensures
        node@.id == node.id,
        node@.sm == node.sm,
        node@.waits_on == node.waits_on@,
        node@.inputs.len() == node.inputs@.len(),
        forall|i: int|
            0 <= i < node.inputs@.len() ==> #[trigger] node@.inputs[i] == node.inputs@[i]@,
        node@.outputs.len() == node.outputs@.len(),
        forall|i: int|
            0 <= i < node.outputs@.len() ==> #[trigger] node@.outputs[i] == node.outputs@[i]@,
        match (node.kind, node@.kind) {
            (NodeKind::Op(op), KindModel::Op(model)) => op@ == model,
            (NodeKind::SubSchedule(sub), KindModel::SubSchedule(model)) => sub@ == *model,
            _ => false,
        },
{
}

/// The model of a schedule has its name and the models of its nodes, in order.
pub proof fn schedules_are_read_as_they_stand(s: Schedule)
    ensures
        s@.name == s.name@,
        s@.nodes.len() == s.nodes@.len(),
        forall|i: int| 0 <= i < s.nodes@.len() ==> #[trigger] s@.nodes[i] == s.nodes@[i]@,
{
}

/// A listing, an ordering of nodes, an index and a list of texts are read entry
/// by entry.
pub proof fn collections_are_read_as_they_stand(
    entries: Seq<(Vec<NodeId>, &Node)>,
    nodes: Seq<&Node>,
    index: Map<NodeId, &Node>,
    models: Map<NodeId, NodeModel>,
    list: Seq<String>,
)
    ensures
        placed_models(entries).len() == entries.len(),
        forall|i: int|
            0 <= i < entries.len() ==> #[trigger] placed_models(entries)[i] == (
                entries[i].0@,
                entries[i].1@,
            ),
        node_models(nodes).len() == nodes.len(),
        forall|i: int| 0 <= i < nodes.len() ==> #[trigger] node_models(nodes)[i] == nodes[i]@,
        indexes(index, models) <==> forall|id: NodeId|
            index.dom().contains(id) == #[trigger] models.dom().contains(id) && (
            models.dom().contains(id) ==> index[id]@ == models[id]),
        texts(list).len() == list.len(),
        forall|i: int| 0 <= i < list.len() ==> #[trigger] texts(list)[i] == list[i]@,
{
    if forall|id: NodeId|
        index.dom().contains(id) == #[trigger] models.dom().contains(id) && (models.dom().contains(
            id,
        ) ==> index[id]@ == models[id]) {
        assert(index.dom() =~= models.dom());
    }
}

/// What stops generation is what the error holds.
pub proof fn generation_errors_are_read_as_they_stand(e: CudaCodegenError)
    ensures
        match (e, e@) {
            (CudaCodegenError::Cycle(name), CodegenErrorModel::Cycle(name1)) => name@ == name1,
            (CudaCodegenError::BadArity(id, op), CodegenErrorModel::BadArity(id1, op1)) => id == id1
                && op@ == op1,
            _ => false,
        },
{
}

/// A case of the demo is read as its name, its schedule and what is expected.
pub proof fn cases_are_read_as_they_stand(case: DemoCase)
    ensures
        case@.name == case.name@,
        case@.schedule == case.schedule@,
        case@.expect_ok == case.expect_ok,
{
}

/// What is reported is what the error holds.
pub proof fn errors_are_read_as_they_stand(e: ValidationError)
    ensures
        match (e, e@) {
            (ValidationError::Cycle(node), ErrorModel::Cycle(node1)) => node == node1,
            (
                ValidationError::DanglingWait(node, wait),
                ErrorModel::DanglingWait(node1, wait1),
            ) => node == node1 && wait == wait1,
            (
                ValidationError::SmOrderConflict { sm, a, b },
                ErrorModel::SmOrderConflict { sm: sm1, a: a1, b: b1 },
            ) => sm == sm1 && a == a1 && b == b1,
            (
                ValidationError::Race { a, b, tensor, space },
                ErrorModel::Race { a: a1, b: b1, tensor: tensor1, space: space1 },
            ) => a == a1 && b == b1 && tensor@ == tensor1 && space == space1,
            (
                ValidationError::NestedFailure(name, inner),
                ErrorModel::NestedFailure(name1, inner1),
            ) => name@ == name1 && inner@ == *inner1,
            _ => false,
        },
{
}

/// A certificate has the name of its schedule, counts every node that a spot
/// leads to once, gives the interface and, as the fingerprint, the 64 digits
/// of the hash of the canonical text.
pub proof fn certificates_describe_the_schedule(c: Certificate, s: ScheduleModel) -> (at: Seq<
    Seq<int>,
>)
    requires
        c.describes(s),
    ensures
        c.schedule_name@ == s.name,
        c.node_count == at.len(),
        at.no_duplicates(),
        forall|spot: Seq<int>| #[trigger]
            at.contains(spot) <==> exists|node: NodeModel| stands_at(s.nodes, spot, node),
        forall|name: Seq<char>|
            c.interface@.dom().contains(name) <==> schedule_interface(s).dom().contains(name),
        forall|name: Seq<char>| #[trigger]
            c.interface@.dom().contains(name) ==> c.interface@[name] == schedule_interface(s)[name],
        c.fingerprint@ == hex_lower(sha256(encode_utf8(schedule_json(s)))),
        c.fingerprint@.len() == 64,
{
    let at = listing_goes_by_spots(s);
    assert forall|k: int, l: int| 0 <= k < at.len() && 0 <= l < at.len() && k != l implies at[k]
        != at[l] by {
        if k < l {
            lemma_before_differs(at[k], at[l]);
        } else {
            lemma_before_differs(at[l], at[k]);
        }
    }
    assert forall|spot: Seq<int>| #[trigger] at.contains(spot) <==> exists|node: NodeModel|
        stands_at(s.nodes, spot, node) by {
        if at.contains(spot) {
            let k = choose|k: int| 0 <= k < at.len() && at[k] == spot;
            assert(stands_at(s.nodes, at[k], flat(s)[k].1));
        }
        if exists|node: NodeModel| stands_at(s.nodes, spot, node) {
            let node = choose|node: NodeModel| stands_at(s.nodes, spot, node);
            let k = choose|k: int|
                0 <= k < at.len() && #[trigger] at[k] == spot && flat(s)[k].1 == node;
            assert(at[k] == spot);
        }
    }
    at
}

proof fn lemma_before_differs(p: Seq<int>, q: Seq<int>)
    requires
        before(p, q),
    ensures
        p != q,
{
    let d = choose|d: int| #[trigger] parts_at(p, q, d) && (p.len() == d || p[d] < q[d]);
}

} // verus!
