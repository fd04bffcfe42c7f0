//! What makes a schedule unsafe, said of the tensors and waits themselves.
//!
//! Nothing here goes by how the checks are carried out: a node touches the
//! tensors that it lists and, where it holds a schedule, those that operations
//! in it list at any depth; a node comes after another where a chain of listed
//! waits leads to it.
use vstd::prelude::*;

use crate::graph::{
    acyclic, blocked_at, closes_cycle, deadlocked, first_deadlocked_wait,
    lemma_closes_cycle_reaches_itself, lemma_reaches_transitive, lemma_wait_reaches, reach_set,
    reaches, reaches_through, trails_to, waits,
};
use crate::ir::{
    flat, has_id, KindModel, MemSpace, NodeId, NodeModel, Placed, ScheduleModel, TensorModel,
};
use crate::rules::{
    certifiable, dangles, first_dangling, first_sm_conflict, first_uncertifiable, holds_tensor,
    last_of_its_id, leaf_reads, leaf_writes, lemma_named, lemma_wait_graph, level_rejects,
    level_safe, named, names_tensor, node_certifiable, node_reads, node_rejects, node_touches,
    node_writes, ordered_at, overlap, queues_consistent, race_at, race_between, race_found,
    race_free, rejects, reports_cycle, sm_conflict, wait_graph, wait_places, waits_at,
    waits_resolve, would_race, ErrorModel,
};
use crate::safety::lemma_leaves_include;
use crate::search::same_places;
use crate::spots::{
    every_spot_is_listed, spots, spots_lead_to_their_nodes, spots_match_the_listing, stands_at,
};

verus! {

/// The node lists the tensor among its outputs, or an operation in it does.
pub open spec fn writes(node: NodeModel, t: TensorModel) -> bool {
    node.outputs.contains(t) || match node.kind {
        KindModel::Op(_) => false,
        KindModel::SubSchedule(sub) => exists|spot: Seq<int>, leaf: NodeModel| #[trigger]
            stands_at(sub.nodes, spot, leaf) && leaf.kind is Op && leaf.outputs.contains(t),
    }
}

/// The node lists the tensor among its inputs, or an operation in it does.
pub open spec fn reads(node: NodeModel, t: TensorModel) -> bool {
    node.inputs.contains(t) || match node.kind {
        KindModel::Op(_) => false,
        KindModel::SubSchedule(sub) => exists|spot: Seq<int>, leaf: NodeModel| #[trigger]
            stands_at(sub.nodes, spot, leaf) && leaf.kind is Op && leaf.inputs.contains(t),
    }
}

/// The node reads or writes the tensor.
pub open spec fn touches(node: NodeModel, t: TensorModel) -> bool {
    reads(node, t) || writes(node, t)
}

/// The node writes some tensor of this name.
pub open spec fn writes_name(node: NodeModel, name: Seq<char>) -> bool {
    exists|t: TensorModel| #[trigger] writes(node, t) && t.name == name
}

/// Both nodes touch a tensor of one name.
pub open spec fn share_name(a: NodeModel, b: NodeModel) -> bool {
    exists|t: TensorModel, u: TensorModel| #[trigger]
        touches(a, t) && #[trigger] touches(b, u) && t.name == u.name
}

/// Both nodes touch a tensor of this name in this memory space, and one of the
/// two writes a tensor of the name.
pub open spec fn clash_over(a: NodeModel, b: NodeModel, name: Seq<char>, space: MemSpace) -> bool {
    &&& exists|t: TensorModel| #[trigger] touches(a, t) && t.name == name && t.space == space
    &&& exists|u: TensorModel| #[trigger] touches(b, u) && u.name == name && u.space == space
    &&& writes_name(a, name) || writes_name(b, name)
}

/// The node at `i` lists the id of the node at `j`, and no later node has that id.
pub open spec fn linked(nodes: Seq<NodeModel>, i: int, j: int) -> bool {
    &&& 0 <= i < nodes.len()
    &&& 0 <= j < nodes.len()
    &&& exists|k: int|
        0 <= k < nodes[i].waits_on.len() && #[trigger] nodes[i].waits_on[k] == nodes[j].id
    &&& forall|k: int| j < k < nodes.len() ==> (#[trigger] nodes[k]).id != nodes[j].id
}

/// The chain leads from each of its places to the next.
pub open spec fn is_chain(nodes: Seq<NodeModel>, chain: Seq<int>) -> bool {
    &&& chain.len() >= 2
    &&& forall|x: int| 0 <= x < chain.len() - 1 ==> linked(nodes, #[trigger] chain[x], chain[x + 1])
}

/// A chain of listed waits leads from the node at `i` to the node at `j`.
pub open spec fn comes_after(nodes: Seq<NodeModel>, i: int, j: int) -> bool {
    exists|chain: Seq<int>| #[trigger]
        is_chain(nodes, chain) && chain[0] == i && chain.last() == j
}

proof fn lemma_linked(nodes: Seq<NodeModel>, i: int, j: int)
    ensures
        linked(nodes, i, j) <==> waits(wait_graph(nodes), i, j),
{
    lemma_wait_graph(nodes);
    assert(waits(wait_graph(nodes), i, j) <==> waits_at(nodes, i, j));
    if linked(nodes, i, j) {
        assert(nodes[i].waits_on.contains(nodes[j].id));
        assert(last_of_its_id(nodes, j));
    }
    if waits_at(nodes, i, j) {
        let k = choose|k: int|
            0 <= k < nodes[i].waits_on.len() && nodes[i].waits_on[k] == nodes[j].id;
        assert(nodes[i].waits_on[k] == nodes[j].id);
    }
}

proof fn lemma_chain_from(nodes: Seq<NodeModel>, i: int, j: int, n: nat) -> (chain: Seq<int>)
    requires
        reaches_through(wait_graph(nodes), i, j, n),
    ensures
        is_chain(nodes, chain),
        chain[0] == i,
        chain.last() == j,
    decreases n,
{
    let g = wait_graph(nodes);
    if n == 0 {
        lemma_linked(nodes, i, j);
        seq![i, j]
    } else {
        let c = choose|c: int| #[trigger]
            waits(g, i, c) && reaches_through(g, c, j, (n - 1) as nat);
        lemma_linked(nodes, i, c);
        let rest = lemma_chain_from(nodes, c, j, (n - 1) as nat);
        let chain = seq![i] + rest;
        assert forall|x: int| 0 <= x < chain.len() - 1 implies linked(
            nodes,
            #[trigger] chain[x],
            chain[x + 1],
        ) by {
            if x > 0 {
                assert(linked(nodes, rest[x - 1], rest[x]));
            }
        }
        chain
    }
}

proof fn lemma_chain_reaches(nodes: Seq<NodeModel>, chain: Seq<int>)
    requires
        is_chain(nodes, chain),
    ensures
        reaches(wait_graph(nodes), chain[0], chain.last()),
    decreases chain.len(),
{
    let g = wait_graph(nodes);
    assert(linked(nodes, chain[0], chain[1]));
    lemma_linked(nodes, chain[0], chain[1]);
    lemma_wait_reaches(g, chain[0], chain[1]);
    if chain.len() > 2 {
        let rest = chain.skip(1);
        assert forall|x: int| 0 <= x < rest.len() - 1 implies linked(
            nodes,
            #[trigger] rest[x],
            rest[x + 1],
        ) by {
            assert(linked(nodes, chain[x + 1], chain[x + 2]));
        }
        lemma_chain_reaches(nodes, rest);
        lemma_reaches_transitive(g, chain[0], chain[1], chain.last());
    }
}

/// Waiting is having a chain of listed waits.
pub proof fn lemma_after(nodes: Seq<NodeModel>, i: int, j: int)
    ensures
        comes_after(nodes, i, j) <==> reaches(wait_graph(nodes), i, j),
{
    if reaches(wait_graph(nodes), i, j) {
        let n = choose|n: nat| reaches_through(wait_graph(nodes), i, j, n);
        let chain = lemma_chain_from(nodes, i, j, n);
    }
    if comes_after(nodes, i, j) {
        let chain = choose|chain: Seq<int>| #[trigger]
            is_chain(nodes, chain) && chain[0] == i && chain.last() == j;
        lemma_chain_reaches(nodes, chain);
    }
}

proof fn lemma_leaf_read_from(entries: Seq<Placed>, t: TensorModel) -> (k: int)
    requires
        leaf_reads(entries).contains(t),
    ensures
        0 <= k < entries.len(),
        entries[k].1.kind is Op,
        entries[k].1.inputs.contains(t),
    decreases entries.len(),
{
    let front = leaf_reads(entries.drop_last());
    let all = leaf_reads(entries);
    let x = choose|x: int| 0 <= x < all.len() && all[x] == t;
    if x < front.len() {
        assert(front[x] == t);
        lemma_leaf_read_from(entries.drop_last(), t)
    } else {
        assert(entries.last().1.inputs[x - front.len()] == t);
        entries.len() - 1
    }
}

proof fn lemma_leaf_write_from(entries: Seq<Placed>, t: TensorModel) -> (k: int)
    requires
        leaf_writes(entries).contains(t),
    ensures
        0 <= k < entries.len(),
        entries[k].1.kind is Op,
        entries[k].1.outputs.contains(t),
    decreases entries.len(),
{
    let front = leaf_writes(entries.drop_last());
    let all = leaf_writes(entries);
    let x = choose|x: int| 0 <= x < all.len() && all[x] == t;
    if x < front.len() {
        assert(front[x] == t);
        lemma_leaf_write_from(entries.drop_last(), t)
    } else {
        assert(entries.last().1.outputs[x - front.len()] == t);
        entries.len() - 1
    }
}

proof fn lemma_in_two(a: Seq<TensorModel>, b: Seq<TensorModel>, t: TensorModel)
    ensures
        (a + b).contains(t) <==> a.contains(t) || b.contains(t),
{
    let all = a + b;
    if a.contains(t) {
        let k = choose|k: int| 0 <= k < a.len() && a[k] == t;
        assert(all[k] == t);
    }
    if b.contains(t) {
        let k = choose|k: int| 0 <= k < b.len() && b[k] == t;
        assert(all[a.len() + k] == t);
    }
    if all.contains(t) {
        let k = choose|k: int| 0 <= k < all.len() && all[k] == t;
        if k < a.len() {
            assert(a[k] == t);
        } else {
            assert(b[k - a.len()] == t);
        }
    }
}

/// The place in the listing of the operation at a spot.
proof fn lemma_leaf_listed(sub: ScheduleModel, spot: Seq<int>, leaf: NodeModel) -> (k: int)
    requires
        stands_at(sub.nodes, spot, leaf),
    ensures
        0 <= k < flat(sub).len(),
        flat(sub)[k].1 == leaf,
{
    every_spot_is_listed(sub, spot, leaf);
    spots_match_the_listing(sub);
    let k = choose|k: int| 0 <= k < spots(sub).len() && spots(sub)[k] == (spot, leaf);
    assert(spots(sub)[k].1 == leaf);
    k
}

proof fn lemma_contents(node: NodeModel, t: TensorModel)
    ensures
        reads(node, t) <==> node_reads(node).contains(t),
        writes(node, t) <==> node_writes(node).contains(t),
        touches(node, t) <==> node_touches(node).contains(t),
{
    lemma_in_two(node_writes(node), node_reads(node), t);
    match node.kind {
        KindModel::Op(_) => {},
        KindModel::SubSchedule(sub) => {
            let entries = flat(*sub);
            lemma_in_two(node.inputs, leaf_reads(entries), t);
            lemma_in_two(node.outputs, leaf_writes(entries), t);
            spots_match_the_listing(*sub);
            if leaf_reads(entries).contains(t) {
                let k = lemma_leaf_read_from(entries, t);
                spots_lead_to_their_nodes(*sub, k);
                assert(spots(*sub)[k].1 == entries[k].1);
                assert(stands_at(sub.nodes, spots(*sub)[k].0, entries[k].1));
            }
            if leaf_writes(entries).contains(t) {
                let k = lemma_leaf_write_from(entries, t);
                spots_lead_to_their_nodes(*sub, k);
                assert(spots(*sub)[k].1 == entries[k].1);
                assert(stands_at(sub.nodes, spots(*sub)[k].0, entries[k].1));
            }
            if exists|spot: Seq<int>, leaf: NodeModel| #[trigger]
                stands_at(sub.nodes, spot, leaf) && leaf.kind is Op && leaf.inputs.contains(t) {
                let (spot, leaf) = choose|spot: Seq<int>, leaf: NodeModel| #[trigger]
                    stands_at(sub.nodes, spot, leaf) && leaf.kind is Op && leaf.inputs.contains(t);
                let k = lemma_leaf_listed(*sub, spot, leaf);
                lemma_leaves_include(entries, k);
                assert(entries[k].1.inputs.contains(t));
            }
            if exists|spot: Seq<int>, leaf: NodeModel| #[trigger]
                stands_at(sub.nodes, spot, leaf) && leaf.kind is Op && leaf.outputs.contains(t) {
                let (spot, leaf) = choose|spot: Seq<int>, leaf: NodeModel| #[trigger]
                    stands_at(sub.nodes, spot, leaf) && leaf.kind is Op && leaf.outputs.contains(t);
                let k = lemma_leaf_listed(*sub, spot, leaf);
                lemma_leaves_include(entries, k);
                assert(entries[k].1.outputs.contains(t));
            }
        },
    }
}

proof fn lemma_writes_name(node: NodeModel, name: Seq<char>)
    ensures
        writes_name(node, name) <==> names_tensor(node_writes(node), name),
{
    let ts = node_writes(node);
    if writes_name(node, name) {
        let t = choose|t: TensorModel| #[trigger] writes(node, t) && t.name == name;
        lemma_contents(node, t);
        let k = choose|k: int| 0 <= k < ts.len() && ts[k] == t;
        assert(ts[k].name == name);
    }
    if names_tensor(ts, name) {
        let k = choose|k: int| 0 <= k < ts.len() && #[trigger] ts[k].name == name;
        assert(ts.contains(ts[k]));
        lemma_contents(node, ts[k]);
        assert(writes(node, ts[k]));
    }
}

proof fn lemma_race_at(a: NodeModel, b: NodeModel, k: int)
    requires
        0 <= k < node_touches(a).len(),
    ensures
        race_at(a, b, k) <==> clash_over(
            a,
            b,
            node_touches(a)[k].name,
            node_touches(a)[k].space,
        ),
{
    let t = node_touches(a)[k];
    let us = node_touches(b);
    assert(node_touches(a).contains(t));
    lemma_contents(a, t);
    assert(touches(a, t));
    lemma_writes_name(a, t.name);
    lemma_writes_name(b, t.name);
    if holds_tensor(us, t.name, t.space) {
        let x = choose|x: int|
            0 <= x < us.len() && #[trigger] us[x].name == t.name && us[x].space == t.space;
        assert(us.contains(us[x]));
        lemma_contents(b, us[x]);
        assert(touches(b, us[x]));
    }
    if exists|u: TensorModel| #[trigger] touches(b, u) && u.name == t.name && u.space == t.space {
        let u = choose|u: TensorModel| #[trigger]
            touches(b, u) && u.name == t.name && u.space == t.space;
        lemma_contents(b, u);
        let x = choose|x: int| 0 <= x < us.len() && us[x] == u;
        assert(us[x].name == t.name);
    }
}

/// Two nodes would race if and only if both touch a tensor of one name in one
/// memory space, whichever that is, and one of the two writes a tensor of the
/// name.
pub proof fn nodes_race_over_what_they_share(a: NodeModel, b: NodeModel)
    ensures
        would_race(a, b) <==> exists|t: TensorModel, u: TensorModel, w: TensorModel|
            #![trigger touches(a, t), touches(b, u), writes(a, w)]
            #![trigger touches(a, t), touches(b, u), writes(b, w)]
            touches(a, t) && touches(b, u) && t.name == u.name && t.space == u.space && w.name
                == t.name && (writes(a, w) || writes(b, w)),
{
    if would_race(a, b) {
        let k = choose|k: int| race_at(a, b, k);
        let t = node_touches(a)[k];
        lemma_race_at(a, b, k);
        assert(node_touches(a).contains(t));
        lemma_contents(a, t);
        let u = choose|u: TensorModel| #[trigger]
            touches(b, u) && u.name == t.name && u.space == t.space;
        if writes_name(a, t.name) {
            let w = choose|w: TensorModel| #[trigger] writes(a, w) && w.name == t.name;
            assert(touches(a, t) && touches(b, u) && writes(a, w));
        } else {
            let w = choose|w: TensorModel| #[trigger] writes(b, w) && w.name == t.name;
            assert(touches(a, t) && touches(b, u) && writes(b, w));
        }
    }
    if exists|t: TensorModel, u: TensorModel, w: TensorModel|
        #![trigger touches(a, t), touches(b, u), writes(a, w)]
        #![trigger touches(a, t), touches(b, u), writes(b, w)]
        touches(a, t) && touches(b, u) && t.name == u.name && t.space == u.space && w.name == t.name
            && (writes(a, w) || writes(b, w)) {
        let (t, u, w) = choose|t: TensorModel, u: TensorModel, w: TensorModel|
            #![trigger touches(a, t), touches(b, u), writes(a, w)]
            #![trigger touches(a, t), touches(b, u), writes(b, w)]
            touches(a, t) && touches(b, u) && t.name == u.name && t.space == u.space && w.name
                == t.name && (writes(a, w) || writes(b, w));
        lemma_contents(a, t);
        let k = choose|k: int| 0 <= k < node_touches(a).len() && node_touches(a)[k] == t;
        if writes(a, w) {
            assert(writes_name(a, t.name));
        } else {
            assert(writes_name(b, t.name));
        }
        lemma_race_at(a, b, k);
    }
}

/// Two operations would race if and only if a tensor that one of them lists
/// and a tensor that the other lists have the same name and memory space, and
/// the outputs of one of them name it.
pub proof fn operations_race_over_what_they_list(a: NodeModel, b: NodeModel)
    requires
        a.kind is Op,
        b.kind is Op,
    ensures
        would_race(a, b) <==> exists|x: int, y: int|
            #![trigger (a.inputs + a.outputs)[x], (b.inputs + b.outputs)[y]]
            {
                let (t, u) = ((a.inputs + a.outputs)[x], (b.inputs + b.outputs)[y]);
                &&& 0 <= x < a.inputs.len() + a.outputs.len()
                &&& 0 <= y < b.inputs.len() + b.outputs.len()
                &&& t.name == u.name
                &&& t.space == u.space
                &&& (exists|z: int| 0 <= z < a.outputs.len() && #[trigger] a.outputs[z].name
                    == t.name) || (exists|z: int|
                    0 <= z < b.outputs.len() && #[trigger] b.outputs[z].name == t.name)
            },
{
    let (ta, tb) = (a.inputs + a.outputs, b.inputs + b.outputs);
    assert forall|t: TensorModel| #[trigger] touches(a, t) <==> ta.contains(t) by {
        lemma_in_two(a.inputs, a.outputs, t);
    }
    assert forall|t: TensorModel| #[trigger] touches(b, t) <==> tb.contains(t) by {
        lemma_in_two(b.inputs, b.outputs, t);
    }
    nodes_race_over_what_they_share(a, b);
    if would_race(a, b) {
        let (t, u, w) = choose|t: TensorModel, u: TensorModel, w: TensorModel|
            #![trigger touches(a, t), touches(b, u), writes(a, w)]
            #![trigger touches(a, t), touches(b, u), writes(b, w)]
            touches(a, t) && touches(b, u) && t.name == u.name && t.space == u.space && w.name
                == t.name && (writes(a, w) || writes(b, w));
        let x = choose|x: int| 0 <= x < ta.len() && ta[x] == t;
        let y = choose|y: int| 0 <= y < tb.len() && tb[y] == u;
        if writes(a, w) {
            let z = choose|z: int| 0 <= z < a.outputs.len() && a.outputs[z] == w;
            assert(a.outputs[z].name == t.name);
        } else {
            let z = choose|z: int| 0 <= z < b.outputs.len() && b.outputs[z] == w;
            assert(b.outputs[z].name == t.name);
        }
        assert(ta[x] == t && tb[y] == u);
    }
    if exists|x: int, y: int|
        #![trigger ta[x], tb[y]]
        {
            let (t, u) = (ta[x], tb[y]);
            &&& 0 <= x < a.inputs.len() + a.outputs.len()
            &&& 0 <= y < b.inputs.len() + b.outputs.len()
            &&& t.name == u.name
            &&& t.space == u.space
            &&& (exists|z: int| 0 <= z < a.outputs.len() && #[trigger] a.outputs[z].name == t.name)
                || (exists|z: int|
                0 <= z < b.outputs.len() && #[trigger] b.outputs[z].name == t.name)
        } {
        let (x, y) = choose|x: int, y: int|
            #![trigger ta[x], tb[y]]
            {
                let (t, u) = (ta[x], tb[y]);
                &&& 0 <= x < a.inputs.len() + a.outputs.len()
                &&& 0 <= y < b.inputs.len() + b.outputs.len()
                &&& t.name == u.name
                &&& t.space == u.space
                &&& (exists|z: int| 0 <= z < a.outputs.len() && #[trigger] a.outputs[z].name
                    == t.name) || (exists|z: int|
                    0 <= z < b.outputs.len() && #[trigger] b.outputs[z].name == t.name)
            };
        let (t, u) = (ta[x], tb[y]);
        assert(ta.contains(t) && tb.contains(u));
        assert(touches(a, t) && touches(b, u));
        if exists|z: int| 0 <= z < a.outputs.len() && #[trigger] a.outputs[z].name == t.name {
            let z = choose|z: int|
                0 <= z < a.outputs.len() && #[trigger] a.outputs[z].name == t.name;
            assert(writes(a, a.outputs[z]));
        } else {
            let z = choose|z: int|
                0 <= z < b.outputs.len() && #[trigger] b.outputs[z].name == t.name;
            assert(writes(b, b.outputs[z]));
        }
    }
}

/// Two nodes overlap if and only if both touch a tensor of one name.
pub proof fn nodes_overlap_by_name(a: NodeModel, b: NodeModel)
    ensures
        overlap(a, b) <==> share_name(a, b),
{
    let (ts, us) = (node_touches(a), node_touches(b));
    if overlap(a, b) {
        let i = choose|i: int| 0 <= i < ts.len() && names_tensor(us, #[trigger] ts[i].name);
        let j = choose|j: int| 0 <= j < us.len() && #[trigger] us[j].name == ts[i].name;
        assert(ts.contains(ts[i]) && us.contains(us[j]));
        lemma_contents(a, ts[i]);
        lemma_contents(b, us[j]);
        assert(touches(a, ts[i]) && touches(b, us[j]));
    }
    if share_name(a, b) {
        let (t, u) = choose|t: TensorModel, u: TensorModel| #[trigger]
            touches(a, t) && #[trigger] touches(b, u) && t.name == u.name;
        lemma_contents(a, t);
        lemma_contents(b, u);
        let i = choose|i: int| 0 <= i < ts.len() && ts[i] == t;
        let j = choose|j: int| 0 <= j < us.len() && us[j] == u;
        assert(us[j].name == t.name);
        assert(names_tensor(us, ts[i].name));
    }
}

/// A wait of the node at `i` names a node of the level.
pub open spec fn answered(nodes: Seq<NodeModel>, i: int, k: int) -> bool {
    exists|j: int| 0 <= j < nodes.len() && (#[trigger] nodes[j]).id == nodes[i].waits_on[k]
}

/// A level is safe if and only if every wait is answered, no node comes after
/// itself, of two nodes on one unit that touch a tensor of one name one comes
/// after the other, and so does of any two nodes that touch a tensor of one
/// name in one memory space where one writes a tensor of that name.
pub proof fn safe_levels(nodes: Seq<NodeModel>)
    ensures
        level_safe(nodes) <==> {
            &&& forall|i: int, k: int|
                0 <= i < nodes.len() && 0 <= k < nodes[i].waits_on.len() ==> #[trigger] answered(
                    nodes,
                    i,
                    k,
                )
            &&& forall|i: int| !#[trigger] comes_after(nodes, i, i)
            &&& forall|i: int, j: int|
                #![trigger nodes[i], nodes[j]]
                0 <= i < j < nodes.len() && nodes[i].sm == nodes[j].sm && share_name(
                    nodes[i],
                    nodes[j],
                ) ==> comes_after(nodes, i, j) || comes_after(nodes, j, i)
            &&& forall|i: int, j: int, name: Seq<char>, space: MemSpace|
                0 <= i < nodes.len() && 0 <= j < nodes.len() && i != j && #[trigger] clash_over(
                    nodes[i],
                    nodes[j],
                    name,
                    space,
                ) ==> comes_after(nodes, i, j) || comes_after(nodes, j, i)
        },
{
    reveal(level_safe);
    assert forall|i: int, j: int| #[trigger] comes_after(nodes, i, j) <==> reaches(
        wait_graph(nodes),
        i,
        j,
    ) by {
        lemma_after(nodes, i, j);
    }
    assert forall|i: int, j: int| #[trigger] ordered_at(nodes, i, j) <==> comes_after(nodes, i, j)
        || comes_after(nodes, j, i) by {
        lemma_after(nodes, i, j);
        lemma_after(nodes, j, i);
    }
    assert(waits_resolve(nodes) <==> forall|i: int, k: int|
        0 <= i < nodes.len() && 0 <= k < nodes[i].waits_on.len() ==> #[trigger] answered(
            nodes,
            i,
            k,
        )) by {
        lemma_answered(nodes);
    }
    assert(acyclic(wait_graph(nodes)) <==> forall|i: int| !#[trigger] comes_after(nodes, i, i)) by {
        if acyclic(wait_graph(nodes)) {
            assert forall|i: int| !#[trigger] comes_after(nodes, i, i) by {
                assert(!reaches(wait_graph(nodes), i, i));
            }
        }
        if forall|i: int| !#[trigger] comes_after(nodes, i, i) {
            assert forall|i: int| !#[trigger] reaches(wait_graph(nodes), i, i) by {
                assert(!comes_after(nodes, i, i));
            }
        }
    }
    lemma_queues(nodes);
    lemma_races(nodes);
}

pub proof fn lemma_answered(nodes: Seq<NodeModel>)
    ensures
        waits_resolve(nodes) <==> forall|i: int, k: int|
            0 <= i < nodes.len() && 0 <= k < nodes[i].waits_on.len() ==> #[trigger] answered(
                nodes,
                i,
                k,
            ),
{
    assert forall|i: int, k: int|
        0 <= i < nodes.len() && 0 <= k < nodes[i].waits_on.len() implies (#[trigger] answered(
        nodes,
        i,
        k,
    ) <==> !dangles(nodes, i, k)) by {
    }
    if waits_resolve(nodes) {
        assert forall|i: int, k: int|
            0 <= i < nodes.len() && 0 <= k < nodes[i].waits_on.len() implies #[trigger] answered(
            nodes,
            i,
            k,
        ) by {
            assert(!dangles(nodes, i, k));
        }
    }
    if forall|i: int, k: int|
        0 <= i < nodes.len() && 0 <= k < nodes[i].waits_on.len() ==> #[trigger] answered(
            nodes,
            i,
            k,
        ) {
        assert forall|i: int, k: int| !#[trigger] dangles(nodes, i, k) by {
            if dangles(nodes, i, k) {
                assert(answered(nodes, i, k));
            }
        }
    }
}

proof fn lemma_queues(nodes: Seq<NodeModel>)
    ensures
        queues_consistent(nodes) <==> forall|i: int, j: int|
            #![trigger nodes[i], nodes[j]]
            0 <= i < j < nodes.len() && nodes[i].sm == nodes[j].sm && share_name(
                nodes[i],
                nodes[j],
            ) ==> comes_after(nodes, i, j) || comes_after(nodes, j, i),
{
    assert forall|i: int, j: int| #[trigger] ordered_at(nodes, i, j) <==> comes_after(nodes, i, j)
        || comes_after(nodes, j, i) by {
        lemma_after(nodes, i, j);
        lemma_after(nodes, j, i);
    }
    if queues_consistent(nodes) {
        assert forall|i: int, j: int|
            #![trigger nodes[i], nodes[j]]
            0 <= i < j < nodes.len() && nodes[i].sm == nodes[j].sm && share_name(
                nodes[i],
                nodes[j],
            ) implies comes_after(nodes, i, j) || comes_after(nodes, j, i) by {
            nodes_overlap_by_name(nodes[i], nodes[j]);
            assert(!sm_conflict(nodes, i, j));
            assert(ordered_at(nodes, i, j));
        }
    } else {
        let (i, j) = choose|i: int, j: int| #[trigger] sm_conflict(nodes, i, j);
        nodes_overlap_by_name(nodes[i], nodes[j]);
        assert(!ordered_at(nodes, i, j));
        assert(nodes[i].sm == nodes[j].sm);
    }
}

proof fn lemma_races(nodes: Seq<NodeModel>)
    ensures
        race_free(nodes) <==> forall|i: int, j: int, name: Seq<char>, space: MemSpace|
            0 <= i < nodes.len() && 0 <= j < nodes.len() && i != j && #[trigger] clash_over(
                nodes[i],
                nodes[j],
                name,
                space,
            ) ==> comes_after(nodes, i, j) || comes_after(nodes, j, i),
{
    assert forall|i: int, j: int| #[trigger] ordered_at(nodes, i, j) <==> comes_after(nodes, i, j)
        || comes_after(nodes, j, i) by {
        lemma_after(nodes, i, j);
        lemma_after(nodes, j, i);
    }
    if race_free(nodes) {
        assert forall|i: int, j: int, name: Seq<char>, space: MemSpace|
            0 <= i < nodes.len() && 0 <= j < nodes.len() && i != j && #[trigger] clash_over(
                nodes[i],
                nodes[j],
                name,
                space,
            ) implies comes_after(nodes, i, j) || comes_after(nodes, j, i) by {
            let (a, b) = (nodes[i], nodes[j]);
            let t = choose|t: TensorModel| #[trigger]
                touches(a, t) && t.name == name && t.space == space;
            lemma_contents(a, t);
            let k = choose|k: int| 0 <= k < node_touches(a).len() && node_touches(a)[k] == t;
            lemma_race_at(a, b, k);
            assert(race_at(a, b, k));
            assert(!race_between(nodes, i, j));
            assert(ordered_at(nodes, i, j));
        }
    } else {
        let (i, j) = choose|i: int, j: int| #[trigger] race_between(nodes, i, j);
        let (a, b) = (nodes[i], nodes[j]);
        let k = choose|k: int| race_at(a, b, k);
        lemma_race_at(a, b, k);
        assert(clash_over(a, b, node_touches(a)[k].name, node_touches(a)[k].space));
        assert(!ordered_at(nodes, i, j));
    }
}

/// A level is not safe where two operations that no chain of waits orders list
/// a tensor of one name in one memory space, whichever that is, and the
/// outputs of one of them name it.
pub proof fn unordered_racers_are_refused(
    nodes: Seq<NodeModel>,
    i: int,
    j: int,
    t: TensorModel,
    u: TensorModel,
    w: TensorModel,
)
    requires
        0 <= i < nodes.len(),
        0 <= j < nodes.len(),
        i != j,
        nodes[i].kind is Op,
        nodes[j].kind is Op,
        nodes[i].inputs.contains(t) || nodes[i].outputs.contains(t),
        nodes[j].inputs.contains(u) || nodes[j].outputs.contains(u),
        nodes[i].outputs.contains(w) || nodes[j].outputs.contains(w),
        t.name == u.name,
        t.space == u.space,
        w.name == t.name,
        !comes_after(nodes, i, j),
        !comes_after(nodes, j, i),
    ensures
        !level_safe(nodes),
        forall|name: Seq<char>| !#[trigger] certifiable(ScheduleModel { name, nodes }),
{
    let (a, b) = (nodes[i], nodes[j]);
    assert(touches(a, t) && touches(b, u));
    assert(writes(a, w) || writes(b, w));
    assert(clash_over(a, b, t.name, t.space));
    safe_levels(nodes);
}

proof fn lemma_certified_at(nodes: Seq<NodeModel>, spot: Seq<int>, node: NodeModel)
    requires
        forall|i: int| 0 <= i < nodes.len() ==> node_certifiable(#[trigger] nodes[i]),
        stands_at(nodes, spot, node),
    ensures
        node_certifiable(node),
    decreases spot.len(),
{
    if spot.len() > 1 {
        assert(node_certifiable(nodes[spot[0]]));
        match nodes[spot[0]].kind {
            KindModel::Op(_) => {},
            KindModel::SubSchedule(sub) => {
                assert(certifiable(*sub));
                lemma_certified_at(sub.nodes, spot.skip(1), node);
            },
        }
    }
}

proof fn lemma_safe_throughout(s: ScheduleModel)
    requires
        level_safe(s.nodes),
        forall|spot: Seq<int>, node: NodeModel| #[trigger]
            stands_at(s.nodes, spot, node) ==> match node.kind {
                KindModel::Op(_) => true,
                KindModel::SubSchedule(sub) => level_safe(sub.nodes),
            },
    ensures
        certifiable(s),
    decreases s,
{
    assert forall|i: int| 0 <= i < s.nodes.len() implies node_certifiable(
        #[trigger] s.nodes[i],
    ) by {
        assert(stands_at(s.nodes, seq![i], s.nodes[i]));
        match s.nodes[i].kind {
            KindModel::Op(_) => {},
            KindModel::SubSchedule(sub) => {
                assert forall|spot: Seq<int>, node: NodeModel| #[trigger]
                    stands_at(sub.nodes, spot, node) implies match node.kind {
                    KindModel::Op(_) => true,
                    KindModel::SubSchedule(below) => level_safe(below.nodes),
                } by {
                    let full = seq![i] + spot;
                    assert(full.skip(1) =~= spot);
                    assert(stands_at(s.nodes, full, node));
                }
                assert(decreases_to!(s => s.nodes[i]));
                lemma_safe_throughout(*sub);
            },
        }
    }
}

/// A schedule is certifiable if and only if its own level and the level of
/// every schedule that is nested in it, at any depth, is safe.
pub proof fn certifiable_schedules(s: ScheduleModel)
    ensures
        certifiable(s) <==> level_safe(s.nodes) && forall|spot: Seq<int>, node: NodeModel|
            #[trigger]
            stands_at(s.nodes, spot, node) ==> match node.kind {
                KindModel::Op(_) => true,
                KindModel::SubSchedule(sub) => level_safe(sub.nodes),
            },
{
    if certifiable(s) {
        assert forall|spot: Seq<int>, node: NodeModel| #[trigger]
            stands_at(s.nodes, spot, node) implies match node.kind {
            KindModel::Op(_) => true,
            KindModel::SubSchedule(sub) => level_safe(sub.nodes),
        } by {
            lemma_certified_at(s.nodes, spot, node);
        }
    }
    if level_safe(s.nodes) && forall|spot: Seq<int>, node: NodeModel| #[trigger]
        stands_at(s.nodes, spot, node) ==> match node.kind {
            KindModel::Op(_) => true,
            KindModel::SubSchedule(sub) => level_safe(sub.nodes),
        } {
        lemma_safe_throughout(s);
    }
}

/// What the node lists, outputs before inputs.
pub open spec fn listed(node: NodeModel) -> Seq<TensorModel> {
    node.outputs + node.inputs
}

/// The two nodes share a unit and a tensor name, and no chain of waits orders them.
pub open spec fn unordered_on_unit(nodes: Seq<NodeModel>, i: int, j: int) -> bool {
    &&& 0 <= i < j < nodes.len()
    &&& nodes[i].sm == nodes[j].sm
    &&& share_name(nodes[i], nodes[j])
    &&& !comes_after(nodes, i, j)
    &&& !comes_after(nodes, j, i)
}

/// Of the outputs that the first node lists, the `k`-th is the first over which
/// the two nodes clash.
pub open spec fn first_clash(a: NodeModel, b: NodeModel, k: int) -> bool {
    &&& 0 <= k < a.outputs.len()
    &&& clash_over(a, b, a.outputs[k].name, a.outputs[k].space)
    &&& forall|l: int|
        0 <= l < k ==> !clash_over(a, b, (#[trigger] a.outputs[l]).name, a.outputs[l].space)
}

/// The report on a level says what is wrong with it. A wait that is reported
/// is the first that names no node. A node that is reported for a cycle comes
/// after itself, and every wait is answered. Nodes that are reported for their
/// unit are the first two on that unit that share a tensor name and no order,
/// and there is no cycle. Nodes that are reported for a race share no order
/// and the tensor that is named, in the memory space that is named; one of the
/// two writes it, and no unit lacks an order. The tensor is the first that the
/// first node lists, outputs before inputs, among those that they clash over.
pub proof fn reports_say_what_is_wrong(nodes: Seq<NodeModel>, e: ErrorModel)
    requires
        level_rejects(nodes, e),
    ensures
        e !is NestedFailure,
        match e {
            ErrorModel::DanglingWait(node, wait) => exists|i: int, k: int| {
                &&& 0 <= i < nodes.len()
                &&& 0 <= k < nodes[i].waits_on.len()
                &&& nodes[i].id == node
                &&& nodes[i].waits_on[k] == wait
                &&& !#[trigger] answered(nodes, i, k)
                &&& forall|p: int, q: int|
                    (0 <= p < i && 0 <= q < nodes[p].waits_on.len()) || (p == i && 0 <= q < k)
                        ==> #[trigger] answered(nodes, p, q)
            },
            _ => forall|i: int, k: int|
                0 <= i < nodes.len() && 0 <= k < nodes[i].waits_on.len() ==> #[trigger] answered(
                    nodes,
                    i,
                    k,
                ),
        },
        match e {
            ErrorModel::DanglingWait(_, _) => true,
            ErrorModel::Cycle(node) => exists|i: int|
                0 <= i < nodes.len() && nodes[i].id == node && #[trigger] comes_after(nodes, i, i),
            _ => forall|i: int| !#[trigger] comes_after(nodes, i, i),
        },
        match e {
            ErrorModel::SmOrderConflict { sm, a, b } => exists|i: int, j: int| {
                &&& #[trigger] unordered_on_unit(nodes, i, j)
                &&& nodes[i].sm == sm
                &&& nodes[i].id == a
                &&& nodes[j].id == b
                &&& forall|p: int, q: int| #[trigger]
                    unordered_on_unit(nodes, p, q) && nodes[p].sm == sm ==> i < p || (i == p && j
                        <= q)
            },
            ErrorModel::Race { a, b, tensor, space } => exists|i: int, j: int| {
                &&& 0 <= i < nodes.len()
                &&& 0 <= j < nodes.len()
                &&& i != j
                &&& nodes[i].id == a
                &&& nodes[j].id == b
                &&& !comes_after(nodes, i, j)
                &&& !comes_after(nodes, j, i)
                &&& #[trigger] clash_over(nodes[i], nodes[j], tensor, space)
                &&& nodes[i].kind is Op ==> exists|k: int| {
                    &&& 0 <= k < listed(nodes[i]).len()
                    &&& (#[trigger] listed(nodes[i])[k]).name == tensor
                    &&& listed(nodes[i])[k].space == space
                    &&& forall|l: int|
                        0 <= l < k ==> !clash_over(
                            nodes[i],
                            nodes[j],
                            (#[trigger] listed(nodes[i])[l]).name,
                            listed(nodes[i])[l].space,
                        )
                }
                &&& forall|k: int|
                    first_clash(nodes[i], nodes[j], k) ==> tensor == (
                    #[trigger] nodes[i].outputs[k]).name && space == nodes[i].outputs[k].space
                &&& forall|p: int, q: int| !#[trigger] unordered_on_unit(nodes, p, q)
            },
            _ => true,
        },
{
    reveal(level_rejects);
    lemma_answered(nodes);
    assert forall|i: int| comes_after(nodes, i, i) == #[trigger] reaches(
        wait_graph(nodes),
        i,
        i,
    ) by {
        lemma_after(nodes, i, i);
    }
    if !waits_resolve(nodes) {
        let (i, k) = choose|i: int, k: int| #[trigger]
            first_dangling(nodes, i, k) && e == ErrorModel::DanglingWait(
                nodes[i].id,
                nodes[i].waits_on[k],
            );
        lemma_answered_at(nodes, i, k);
        assert forall|p: int, q: int|
            (0 <= p < i && 0 <= q < nodes[p].waits_on.len()) || (p == i && 0 <= q
                < k) implies #[trigger] answered(nodes, p, q) by {
            lemma_answered_at(nodes, p, q);
        }
    } else if !acyclic(wait_graph(nodes)) {
        let i = choose|i: int|
            0 <= i < nodes.len() && #[trigger] closes_cycle(wait_graph(nodes), i) && e
                == ErrorModel::Cycle(nodes[i].id);
        lemma_closes_cycle_reaches_itself(wait_graph(nodes), i);
        assert(comes_after(nodes, i, i));
    } else {
        assert forall|i: int| !#[trigger] comes_after(nodes, i, i) by {
            assert(!reaches(wait_graph(nodes), i, i));
        }
        assert forall|i: int, j: int| #[trigger] unordered_on_unit(nodes, i, j) == sm_conflict(
            nodes,
            i,
            j,
        ) by {
            lemma_unordered(nodes, i, j);
        }
        if !queues_consistent(nodes) {
            let (i, j) = choose|i: int, j: int| #[trigger]
                first_sm_conflict(nodes, i, j) && e == (ErrorModel::SmOrderConflict {
                    sm: nodes[i].sm,
                    a: nodes[i].id,
                    b: nodes[j].id,
                });
            assert(unordered_on_unit(nodes, i, j));
            assert forall|p: int, q: int| #[trigger]
                unordered_on_unit(nodes, p, q) && nodes[p].sm == nodes[i].sm implies i < p || (i
                == p && j <= q) by {
                assert(sm_conflict(nodes, p, q));
            }
        } else {
            let (i, j, k) = choose|i: int, j: int, k: int| #[trigger]
                race_found(nodes, i, j, k) && e == (ErrorModel::Race {
                    a: nodes[i].id,
                    b: nodes[j].id,
                    tensor: node_touches(nodes[i])[k].name,
                    space: node_touches(nodes[i])[k].space,
                });
            let (a, b) = (nodes[i], nodes[j]);
            assert forall|p: int, q: int| !#[trigger] unordered_on_unit(nodes, p, q) by {
                assert(!sm_conflict(nodes, p, q));
            }
            lemma_race_at(a, b, k);
            lemma_after(nodes, i, j);
            lemma_after(nodes, j, i);
            if a.kind is Op {
                assert(node_touches(a) == listed(a));
                assert forall|l: int| 0 <= l < k implies !clash_over(
                    a,
                    b,
                    (#[trigger] listed(a)[l]).name,
                    listed(a)[l].space,
                ) by {
                    lemma_race_at(a, b, l);
                    assert(!race_at(a, b, l));
                }
                assert(listed(a)[k].name == e->tensor);
            }
            assert forall|x: int| first_clash(a, b, x) implies e->tensor == (
            #[trigger] a.outputs[x]).name && e->space == a.outputs[x].space by {
                lemma_outputs_first(a, x);
                lemma_race_at(a, b, x);
                assert(race_at(a, b, x));
                assert(k <= x);
                if k < x {
                    lemma_outputs_first(a, k);
                    assert(clash_over(a, b, a.outputs[k].name, a.outputs[k].space));
                }
            }
            assert(clash_over(nodes[i], nodes[j], e->tensor, e->space));
        }
    }
}

/// What a node touches starts with the outputs that it lists.
proof fn lemma_outputs_first(a: NodeModel, x: int)
    requires
        0 <= x < a.outputs.len(),
    ensures
        0 <= x < node_touches(a).len(),
        node_touches(a)[x] == a.outputs[x],
{
}

proof fn lemma_answered_at(nodes: Seq<NodeModel>, i: int, k: int)
    requires
        0 <= i < nodes.len(),
        0 <= k < nodes[i].waits_on.len(),
    ensures
        answered(nodes, i, k) <==> !dangles(nodes, i, k),
{
}

proof fn lemma_unordered(nodes: Seq<NodeModel>, i: int, j: int)
    ensures
        unordered_on_unit(nodes, i, j) <==> sm_conflict(nodes, i, j),
{
    lemma_after(nodes, i, j);
    lemma_after(nodes, j, i);
    if 0 <= i < j < nodes.len() {
        nodes_overlap_by_name(nodes[i], nodes[j]);
    }
}

/// A report on a schedule that names a nested schedule reports on the first
/// one that is not certifiable, under its name; any other is a report on the
/// level itself, and every nested schedule is certifiable.
pub proof fn reports_lead_to_what_is_wrong(s: ScheduleModel, e: ErrorModel)
    requires
        rejects(s, e),
    ensures
        match e {
            ErrorModel::NestedFailure(name, inner) => exists|i: int|
                0 <= i < s.nodes.len() && match (#[trigger] s.nodes[i]).kind {
                    KindModel::Op(_) => false,
                    KindModel::SubSchedule(sub) => {
                        &&& sub.name == name
                        &&& !certifiable(*sub)
                        &&& rejects(*sub, *inner)
                        &&& forall|j: int|
                            0 <= j < i ==> match (#[trigger] s.nodes[j]).kind {
                                KindModel::Op(_) => true,
                                KindModel::SubSchedule(before) => certifiable(*before),
                            }
                    },
                },
            _ => level_rejects(s.nodes, e) && forall|i: int|
                0 <= i < s.nodes.len() ==> match (#[trigger] s.nodes[i]).kind {
                    KindModel::Op(_) => true,
                    KindModel::SubSchedule(sub) => certifiable(*sub),
                },
        },
{
    if forall|i: int| 0 <= i < s.nodes.len() ==> node_certifiable(#[trigger] s.nodes[i]) {
        reports_say_what_is_wrong(s.nodes, e);
        assert forall|i: int| 0 <= i < s.nodes.len() implies match (#[trigger] s.nodes[i]).kind {
            KindModel::Op(_) => true,
            KindModel::SubSchedule(sub) => certifiable(*sub),
        } by {
            assert(node_certifiable(s.nodes[i]));
        }
    } else {
        let i = choose|i: int| #[trigger]
            first_uncertifiable(s.nodes, i) && 0 <= i < s.nodes.len() && node_rejects(
                s.nodes[i],
                e,
            );
        assert(!node_certifiable(s.nodes[i]));
        assert forall|j: int| 0 <= j < i implies match (#[trigger] s.nodes[j]).kind {
            KindModel::Op(_) => true,
            KindModel::SubSchedule(before) => certifiable(*before),
        } by {
            assert(node_certifiable(s.nodes[j]));
        }
        assert(node_rejects(s.nodes[i], e));
    }
}

/// The places that the node at `i` is said to wait on are those that a chain
/// of listed waits leads to from it.
pub proof fn waits_are_followed_through(nodes: Seq<NodeModel>, i: int, set: Set<usize>)
    requires
        same_places(set, reach_set(wait_graph(nodes), i)),
    ensures
        forall|x: usize| #[trigger] set.contains(x) <==> comes_after(nodes, i, x as int),
{
    assert forall|x: usize| #[trigger] set.contains(x) <==> comes_after(nodes, i, x as int) by {
        lemma_after(nodes, i, x as int);
    }
}

/// A level has no cycle if and only if no node comes after itself.
pub proof fn cycles_are_chains(nodes: Seq<NodeModel>)
    ensures
        acyclic(wait_graph(nodes)) <==> forall|i: int| !#[trigger] comes_after(nodes, i, i),
{
    assert forall|i: int| #[trigger] comes_after(nodes, i, i) == reaches(
        wait_graph(nodes),
        i,
        i,
    ) by {
        lemma_after(nodes, i, i);
    }
    if forall|i: int| !#[trigger] comes_after(nodes, i, i) {
        assert forall|i: int| !#[trigger] reaches(wait_graph(nodes), i, i) by {
            assert(!comes_after(nodes, i, i));
        }
    }
    if acyclic(wait_graph(nodes)) {
        assert forall|i: int| !#[trigger] comes_after(nodes, i, i) by {
            assert(!reaches(wait_graph(nodes), i, i));
        }
    }
}

/// The node at `i`, or one that it comes after, comes after itself.
pub open spec fn never_starts(nodes: Seq<NodeModel>, i: int) -> bool {
    exists|c: int| (i == c || comes_after(nodes, i, c)) && #[trigger] comes_after(nodes, c, c)
}

/// The `k`-th wait of the node at `i` is answered by the node at `j`.
pub open spec fn answered_by(nodes: Seq<NodeModel>, i: int, k: int, j: int) -> bool {
    &&& 0 <= i < nodes.len()
    &&& 0 <= k < nodes[i].waits_on.len()
    &&& 0 <= j < nodes.len()
    &&& nodes[i].waits_on[k] == nodes[j].id
    &&& forall|l: int| j < l < nodes.len() ==> (#[trigger] nodes[l]).id != nodes[j].id
}

/// Of the nodes that the node at `i` waits on, in the order in which it lists
/// them, the one at `j` is the first that never starts.
pub open spec fn stuck_on(nodes: Seq<NodeModel>, i: int, j: int) -> bool {
    exists|k: int| {
        &&& #[trigger] answered_by(nodes, i, k, j)
        &&& never_starts(nodes, j)
        &&& forall|l: int, m: int|
            0 <= l < k && #[trigger] answered_by(nodes, i, l, m) ==> !never_starts(nodes, m)
    }
}

/// Each place of the trail is stuck on the next.
pub open spec fn is_trail(nodes: Seq<NodeModel>, trail: Seq<int>) -> bool {
    &&& trail.len() >= 2
    &&& forall|x: int|
        0 <= x < trail.len() - 1 ==> stuck_on(nodes, #[trigger] trail[x], trail[x + 1])
}

proof fn lemma_wait_places(nodes: Seq<NodeModel>, ids: Seq<NodeId>)
    requires
        forall|k: int| 0 <= k < ids.len() ==> has_id(nodes, #[trigger] ids[k]),
    ensures
        wait_places(nodes, ids).len() == ids.len(),
        forall|k: int|
            0 <= k < ids.len() ==> named(nodes, ids[k]) == Some(
                #[trigger] wait_places(nodes, ids)[k],
            ),
    decreases ids.len(),
{
    if ids.len() > 0 {
        let front = ids.drop_last();
        assert forall|k: int| 0 <= k < front.len() implies has_id(nodes, #[trigger] front[k]) by {
            assert(has_id(nodes, ids[k]));
        }
        lemma_wait_places(nodes, front);
        assert(has_id(nodes, ids[ids.len() - 1]));
        lemma_named(nodes, ids.last());
        let all = wait_places(nodes, ids);
        let before = wait_places(nodes, front);
        assert forall|k: int| 0 <= k < ids.len() implies named(nodes, ids[k]) == Some(
            #[trigger] all[k],
        ) by {
            if k < front.len() {
                assert(all[k] == before[k]);
                assert(front[k] == ids[k]);
            }
        }
    }
}

proof fn lemma_answered_by(nodes: Seq<NodeModel>, i: int, k: int, j: int)
    requires
        waits_resolve(nodes),
        0 <= i < nodes.len(),
        0 <= k < nodes[i].waits_on.len(),
    ensures
        wait_graph(nodes)[i].len() == nodes[i].waits_on.len(),
        answered_by(nodes, i, k, j) <==> wait_graph(nodes)[i][k] == j,
{
    let ids = nodes[i].waits_on;
    assert forall|l: int| 0 <= l < ids.len() implies has_id(nodes, #[trigger] ids[l]) by {
        assert(!dangles(nodes, i, l));
    }
    lemma_wait_places(nodes, ids);
    lemma_named(nodes, ids[k]);
    let p = wait_places(nodes, ids)[k];
    assert(named(nodes, ids[k]) == Some(p));
    if answered_by(nodes, i, k, j) {
        if p < j {
            assert(nodes[j].id != nodes[p].id);
        }
        if j < p {
            assert(nodes[p].id != nodes[j].id);
        }
    }
}

proof fn lemma_never_starts(nodes: Seq<NodeModel>, i: int)
    ensures
        never_starts(nodes, i) <==> deadlocked(wait_graph(nodes), i),
{
    let g = wait_graph(nodes);
    if never_starts(nodes, i) {
        let c = choose|c: int|
            (i == c || comes_after(nodes, i, c)) && #[trigger] comes_after(nodes, c, c);
        lemma_after(nodes, i, c);
        lemma_after(nodes, c, c);
        assert(reaches(g, c, c));
    }
    if deadlocked(g, i) {
        let c = choose|c: int| (i == c || reaches(g, i, c)) && #[trigger] reaches(g, c, c);
        lemma_after(nodes, i, c);
        lemma_after(nodes, c, c);
        assert(comes_after(nodes, c, c));
    }
}

proof fn lemma_stuck_on(nodes: Seq<NodeModel>, i: int, j: int)
    requires
        waits_resolve(nodes),
        first_deadlocked_wait(wait_graph(nodes), i, j),
    ensures
        stuck_on(nodes, i, j),
{
    let g = wait_graph(nodes);
    let k = choose|k: int| #[trigger] blocked_at(g, i, k) && g[i][k] == j;
    if nodes[i].waits_on.len() > 0 {
        lemma_answered_by(nodes, i, 0, j);
    } else {
        lemma_wait_places(nodes, nodes[i].waits_on);
    }
    lemma_answered_by(nodes, i, k, j);
    lemma_never_starts(nodes, j);
    assert forall|l: int, m: int|
        0 <= l < k && #[trigger] answered_by(nodes, i, l, m) implies !never_starts(nodes, m) by {
        lemma_answered_by(nodes, i, l, m);
        lemma_never_starts(nodes, m);
        assert(!deadlocked(g, g[i][l]));
    }
    assert(answered_by(nodes, i, k, j));
}

proof fn lemma_trail(nodes: Seq<NodeModel>, i: int, j: int, n: nat) -> (trail: Seq<int>)
    requires
        waits_resolve(nodes),
        trails_to(wait_graph(nodes), i, j, n),
    ensures
        is_trail(nodes, trail),
        trail[0] == i,
        trail.last() == j,
    decreases n,
{
    let g = wait_graph(nodes);
    if n == 0 {
        lemma_stuck_on(nodes, i, j);
        seq![i, j]
    } else {
        let c = choose|c: int| #[trigger]
            first_deadlocked_wait(g, i, c) && trails_to(g, c, j, (n - 1) as nat);
        lemma_stuck_on(nodes, i, c);
        let rest = lemma_trail(nodes, c, j, (n - 1) as nat);
        let trail = seq![i] + rest;
        assert forall|x: int| 0 <= x < trail.len() - 1 implies stuck_on(
            nodes,
            #[trigger] trail[x],
            trail[x + 1],
        ) by {
            if x > 0 {
                assert(stuck_on(nodes, rest[x - 1], rest[x]));
            }
        }
        trail
    }
}

/// Going from a node that is reported for a cycle to the first of those that
/// it waits on that never starts, and on from there, leads back to it.
pub proof fn reported_cycles_close(nodes: Seq<NodeModel>, id: NodeId) -> (trail: Seq<int>)
    requires
        waits_resolve(nodes),
        reports_cycle(nodes, ErrorModel::Cycle(id)),
    ensures
        is_trail(nodes, trail),
        trail[0] == trail.last(),
        0 <= trail[0] < nodes.len(),
        nodes[trail[0]].id == id,
{
    let g = wait_graph(nodes);
    let i = choose|i: int|
        0 <= i < nodes.len() && #[trigger] closes_cycle(g, i) && ErrorModel::Cycle(id)
            == ErrorModel::Cycle(nodes[i].id);
    let n = choose|n: nat| trails_to(g, i, i, n);
    lemma_trail(nodes, i, i, n)
}

/// A node that is reported for a cycle comes after itself, be every wait
/// answered or not.
pub proof fn reported_nodes_come_after_themselves(nodes: Seq<NodeModel>, id: NodeId) -> (i: int)
    requires
        reports_cycle(nodes, ErrorModel::Cycle(id)),
    ensures
        0 <= i < nodes.len(),
        nodes[i].id == id,
        comes_after(nodes, i, i),
{
    let g = wait_graph(nodes);
    let i = choose|i: int|
        0 <= i < nodes.len() && #[trigger] closes_cycle(g, i) && ErrorModel::Cycle(id)
            == ErrorModel::Cycle(nodes[i].id);
    lemma_closes_cycle_reaches_itself(g, i);
    lemma_after(nodes, i, i);
    i
}

} // verus!
