//! What a certified schedule is safe from, at every level and across levels.
use vstd::prelude::*;

use crate::graph::{
    deadlocked, lemma_acyclic_iff_none_deadlocked, lemma_reaches_along, lemma_reaches_transitive,
    reaches, waits,
};
use crate::interface::{
    accessed, accesses, accesses_to, lemma_access_from, lemma_access_listed, node_accesses,
    schedule_interface, Access,
};
use crate::ir::{
    flat, flat_node, flat_nodes, has_id, KindModel, MemSpace, NodeId, NodeModel, Placed,
    ScheduleModel, TensorModel,
};
use crate::order::{is_launch_order, launch_order, lemma_launch_order_exists, unique_ids};
use crate::rules::{
    certifiable, dangles, holds_tensor, leaf_reads, leaf_writes, lemma_wait_graph, level_safe,
    names_tensor, node_certifiable, node_reads, node_touches, node_writes, ordered_at, overlap,
    queues_consistent, race_at, race_between, race_free, sm_conflict, wait_graph, waits_at,
    would_race,
};
use crate::spots::{
    lemma_nested_spots_match, lemma_node_spots, lemma_place_in_spot, lemma_spotted_from, sequenced,
    spot_node, spot_nodes, spots, spots_are_unique, spots_match_the_listing, waits_across, Spotted,
};
use crate::validator::lemma_race_symmetric;

verus! {

/// No two nodes of one level have the same id, in the schedule and in those
/// nested in it.
pub open spec fn unique_throughout(s: ScheduleModel) -> bool
    decreases s,
{
    &&& unique_ids(s.nodes)
    &&& forall|i: int| 0 <= i < s.nodes.len() ==> node_unique_throughout(#[trigger] s.nodes[i])
}

/// A nested schedule has no id twice in one level.
pub open spec fn node_unique_throughout(node: NodeModel) -> bool
    decreases node,
{
    match node.kind {
        KindModel::Op(_) => true,
        KindModel::SubSchedule(sub) => unique_throughout(*sub),
    }
}

/// Where a node stands: the ids of the nodes that hold it, and its own.
pub open spec fn address(e: Placed) -> Seq<NodeId> {
    e.0.push(e.1.id)
}

/// An entry of a listing comes from one of the nodes.
proof fn lemma_listed_from(nodes: Seq<NodeModel>, path: Seq<NodeId>, e: Placed) -> (i: int)
    requires
        flat_nodes(nodes, path).contains(e),
    ensures
        0 <= i < nodes.len(),
        flat_node(nodes[i], path).contains(e),
    decreases nodes.len(),
{
    let last = nodes.len() - 1;
    let front = flat_nodes(nodes.drop_last(), path);
    let k = choose|k: int|
        0 <= k < flat_nodes(nodes, path).len() && flat_nodes(nodes, path)[k] == e;
    if k < front.len() {
        assert(front[k] == e);
        lemma_listed_from(nodes.drop_last(), path, e)
    } else {
        assert(flat_node(nodes[last], path)[k - front.len()] == e);
        last
    }
}

/// What a node's listing holds is in the listing of its level.
proof fn lemma_listed_in(nodes: Seq<NodeModel>, path: Seq<NodeId>, i: int, e: Placed)
    requires
        0 <= i < nodes.len(),
        flat_node(nodes[i], path).contains(e),
    ensures
        flat_nodes(nodes, path).contains(e),
    decreases nodes.len(),
{
    let last = nodes.len() - 1;
    let front = flat_nodes(nodes.drop_last(), path);
    let all = flat_nodes(nodes, path);
    if i == last {
        let k = choose|k: int|
            0 <= k < flat_node(nodes[i], path).len() && flat_node(nodes[i], path)[k] == e;
        assert(all[front.len() + k] == e);
    } else {
        assert(nodes.drop_last()[i] == nodes[i]);
        lemma_listed_in(nodes.drop_last(), path, i, e);
        let k = choose|k: int| 0 <= k < front.len() && front[k] == e;
        assert(all[k] == e);
    }
}

/// A node's listing holds the node and, where it is a schedule, its listing.
proof fn lemma_node_lists(node: NodeModel, path: Seq<NodeId>, e: Placed)
    ensures
        flat_node(node, path).contains(e) <==> e == (path, node) || match node.kind {
            KindModel::Op(_) => false,
            KindModel::SubSchedule(sub) => flat_nodes(sub.nodes, path.push(node.id)).contains(e),
        },
{
    let all = flat_node(node, path);
    assert(all[0] == (path, node));
    match node.kind {
        KindModel::Op(_) => {},
        KindModel::SubSchedule(sub) => {
            let inner = flat_nodes(sub.nodes, path.push(node.id));
            if all.contains(e) && e != (path, node) {
                let k = choose|k: int| 0 <= k < all.len() && all[k] == e;
                assert(inner[k - 1] == e);
            }
            if inner.contains(e) {
                let k = choose|k: int| 0 <= k < inner.len() && inner[k] == e;
                assert(all[k + 1] == e);
            }
        },
    }
}

/// A listing with this path put in front of each of its paths.
spec fn moved(entries: Seq<Placed>, path: Seq<NodeId>) -> Seq<Placed> {
    entries.map_values(|e: Placed| (path + e.0, e.1))
}

/// The place of a listing only changes the paths in it.
proof fn lemma_listing_moves(nodes: Seq<NodeModel>, path: Seq<NodeId>)
    ensures
        flat_nodes(nodes, path) == moved(flat_nodes(nodes, Seq::empty()), path),
    decreases nodes,
{
    let none = Seq::<NodeId>::empty();
    if nodes.len() > 0 {
        let last = nodes[nodes.len() - 1];
        lemma_listing_moves(nodes.drop_last(), path);
        lemma_node_listing_moves(last, path);
        assert(moved(flat_nodes(nodes.drop_last(), none) + flat_node(last, none), path) =~= moved(
            flat_nodes(nodes.drop_last(), none),
            path,
        ) + moved(flat_node(last, none), path));
    } else {
        assert(flat_nodes(nodes, path) =~= moved(flat_nodes(nodes, none), path));
    }
}

proof fn lemma_node_listing_moves(node: NodeModel, path: Seq<NodeId>)
    ensures
        flat_node(node, path) == moved(flat_node(node, Seq::empty()), path),
    decreases node,
{
    let none = Seq::<NodeId>::empty();
    let here = none.push(node.id);
    assert(path + none =~= path);
    match node.kind {
        KindModel::Op(_) => {
            assert(flat_node(node, path) =~= moved(flat_node(node, none), path));
        },
        KindModel::SubSchedule(sub) => {
            let inner = flat_nodes(sub.nodes, none);
            lemma_listing_moves(sub.nodes, path.push(node.id));
            lemma_listing_moves(sub.nodes, here);
            assert forall|k: int| 0 <= k < inner.len() implies (#[trigger] moved(
                moved(inner, here),
                path,
            )[k]) == moved(inner, path.push(node.id))[k] by {
                assert(path + (here + inner[k].0) =~= path.push(node.id) + inner[k].0);
            }
            assert(moved(moved(inner, here), path) =~= moved(inner, path.push(node.id)));
            assert(flat_node(node, path) =~= moved(flat_node(node, none), path));
        },
    }
}

/// The address of what a node lists goes through the node.
proof fn lemma_address_through(node: NodeModel, path: Seq<NodeId>, e: Placed)
    requires
        flat_node(node, path).contains(e),
    ensures
        e == (path, node) || address(e).len() > path.len() + 1,
        address(e).len() > path.len(),
        address(e)[path.len() as int] == node.id,
{
    lemma_node_lists(node, path, e);
    if e != (path, node) {
        match node.kind {
            KindModel::Op(_) => {},
            KindModel::SubSchedule(sub) => {
                let inner = flat_nodes(sub.nodes, path.push(node.id));
                lemma_listing_moves(sub.nodes, path.push(node.id));
                let k = choose|k: int| 0 <= k < inner.len() && inner[k] == e;
                assert(e.0 == path.push(node.id) + flat_nodes(sub.nodes, Seq::empty())[k].0);
            },
        }
    }
}

proof fn lemma_addresses_differ(nodes: Seq<NodeModel>, path: Seq<NodeId>, i: int, j: int)
    requires
        unique_ids(nodes),
        forall|k: int| 0 <= k < nodes.len() ==> node_unique_throughout(#[trigger] nodes[k]),
        0 <= i < j < flat_nodes(nodes, path).len(),
    ensures
        address(flat_nodes(nodes, path)[i]) != address(flat_nodes(nodes, path)[j]),
    decreases nodes,
{
    let all = flat_nodes(nodes, path);
    let front = flat_nodes(nodes.drop_last(), path);
    let last = nodes[nodes.len() - 1];
    let back = flat_node(last, path);
    if j < front.len() {
        assert(all[i] == front[i] && all[j] == front[j]);
        assert forall|k: int|
            0 <= k < nodes.drop_last().len() implies node_unique_throughout(
            #[trigger] nodes.drop_last()[k],
        ) by {
            assert(node_unique_throughout(nodes[k]));
        }
        assert(unique_ids(nodes.drop_last())) by {
            assert forall|a: int, b: int| 0 <= a < b < nodes.drop_last().len() implies (
            #[trigger] nodes.drop_last()[a]).id != (#[trigger] nodes.drop_last()[b]).id by {
                assert(nodes[a].id != nodes[b].id);
            }
        }
        lemma_addresses_differ(nodes.drop_last(), path, i, j);
    } else {
        assert(all[j] == back[j - front.len()]);
        assert(back.contains(all[j]));
        lemma_address_through(last, path, all[j]);
        if i < front.len() {
            assert(all[i] == front[i]);
            assert(front.contains(all[i]));
            let a = lemma_listed_from(nodes.drop_last(), path, all[i]);
            lemma_address_through(nodes.drop_last()[a], path, all[i]);
            assert(nodes[a].id != nodes[nodes.len() - 1].id);
        } else {
            assert(all[i] == back[i - front.len()]);
            match last.kind {
                KindModel::Op(_) => {},
                KindModel::SubSchedule(sub) => {
                    let inner = flat_nodes(sub.nodes, path.push(last.id));
                    assert(all[j] == inner[j - front.len() - 1]);
                    assert(inner.contains(all[j]));
                    assert(node_unique_throughout(nodes[nodes.len() - 1]));
                    if i == front.len() {
                        let a = lemma_listed_from(sub.nodes, path.push(last.id), all[j]);
                        lemma_address_through(sub.nodes[a], path.push(last.id), all[j]);
                        assert(all[i] == (path, last));
                    } else {
                        assert(all[i] == inner[i - front.len() - 1]);
                        lemma_addresses_differ(
                            sub.nodes,
                            path.push(last.id),
                            i - front.len() - 1,
                            j - front.len() - 1,
                        );
                    }
                },
            }
        }
    }
}

/// Where no level has an id twice, no two nodes of the schedule have the same
/// address, however deep they are nested.
pub proof fn addresses_are_unique(s: ScheduleModel, i: int, j: int)
    requires
        unique_throughout(s),
        0 <= i < flat(s).len(),
        0 <= j < flat(s).len(),
        i != j,
    ensures
        address(flat(s)[i]) != address(flat(s)[j]),
{
    if i < j {
        lemma_addresses_differ(s.nodes, Seq::empty(), i, j);
    } else {
        lemma_addresses_differ(s.nodes, Seq::empty(), j, i);
    }
}

proof fn lemma_certified_within(nodes: Seq<NodeModel>, path: Seq<NodeId>, e: Placed)
    requires
        forall|k: int| 0 <= k < nodes.len() ==> node_certifiable(#[trigger] nodes[k]),
        flat_nodes(nodes, path).contains(e),
    ensures
        node_certifiable(e.1),
    decreases nodes,
{
    let i = lemma_listed_from(nodes, path, e);
    lemma_node_lists(nodes[i], path, e);
    assert(node_certifiable(nodes[i]));
    if e != (path, nodes[i]) {
        match nodes[i].kind {
            KindModel::Op(_) => {},
            KindModel::SubSchedule(sub) => {
                lemma_certified_within(sub.nodes, path.push(nodes[i].id), e);
            },
        }
    }
}

/// Every schedule nested in a certifiable one, at whatever depth, is
/// certifiable by itself.
pub proof fn nested_schedules_are_certifiable(s: ScheduleModel, i: int)
    requires
        certifiable(s),
        0 <= i < flat(s).len(),
    ensures
        node_certifiable(flat(s)[i].1),
{
    lemma_certified_within(s.nodes, Seq::empty(), flat(s)[i]);
}

/// A schedule of certifiable blocks needs no look into the blocks: what is
/// left to check is its own level.
pub proof fn certified_blocks_are_reusable(s: ScheduleModel)
    requires
        forall|i: int| 0 <= i < s.nodes.len() ==> node_certifiable(#[trigger] s.nodes[i]),
    ensures
        certifiable(s) <==> level_safe(s.nodes),
{
}

pub proof fn lemma_leaves_include(entries: Seq<Placed>, i: int)
    requires
        0 <= i < entries.len(),
        entries[i].1.kind is Op,
    ensures
        forall|t: TensorModel| #[trigger]
            entries[i].1.inputs.contains(t) ==> leaf_reads(entries).contains(t),
        forall|t: TensorModel| #[trigger]
            entries[i].1.outputs.contains(t) ==> leaf_writes(entries).contains(t),
    decreases entries.len(),
{
    let front = entries.drop_last();
    let e = entries[i].1;
    if i < front.len() {
        assert(front[i] == entries[i]);
        lemma_leaves_include(front, i);
        assert forall|t: TensorModel| #[trigger] e.inputs.contains(t) implies leaf_reads(
            entries,
        ).contains(t) by {
            assert(leaf_reads(front).contains(t));
            let k = choose|k: int| 0 <= k < leaf_reads(front).len() && leaf_reads(front)[k] == t;
            assert(leaf_reads(entries)[k] == t);
        }
        assert forall|t: TensorModel| #[trigger] e.outputs.contains(t) implies leaf_writes(
            entries,
        ).contains(t) by {
            assert(leaf_writes(front).contains(t));
            let k = choose|k: int| 0 <= k < leaf_writes(front).len() && leaf_writes(front)[k] == t;
            assert(leaf_writes(entries)[k] == t);
        }
    } else {
        assert forall|t: TensorModel| #[trigger] e.inputs.contains(t) implies leaf_reads(
            entries,
        ).contains(t) by {
            let k = choose|k: int| 0 <= k < e.inputs.len() && e.inputs[k] == t;
            assert(leaf_reads(entries)[leaf_reads(front).len() + k] == t);
        }
        assert forall|t: TensorModel| #[trigger] e.outputs.contains(t) implies leaf_writes(
            entries,
        ).contains(t) by {
            let k = choose|k: int| 0 <= k < e.outputs.len() && e.outputs[k] == t;
            assert(leaf_writes(entries)[leaf_writes(front).len() + k] == t);
        }
    }
}

/// What an operation touches, the node that holds it touches.
proof fn lemma_holder_touches(node: NodeModel, at: Seq<int>, e: Spotted)
    requires
        spot_node(node, at).contains(e),
        e.1.kind is Op,
    ensures
        forall|t: TensorModel| #[trigger]
            node_touches(e.1).contains(t) ==> node_touches(node).contains(t),
        forall|t: TensorModel| #[trigger]
            node_writes(e.1).contains(t) ==> node_writes(node).contains(t),
{
    lemma_node_spots(node, at, e);
    if e != (at, node) {
        match node.kind {
            KindModel::Op(_) => {},
            KindModel::SubSchedule(sub) => {
                let inner = spot_nodes(sub.nodes, at);
                let entries = flat(*sub);
                lemma_nested_spots_match(*sub, at);
                let k = choose|k: int| 0 <= k < inner.len() && inner[k] == e;
                assert(entries[k].1 == e.1);
                lemma_leaves_include(entries, k);
                assert forall|t: TensorModel| #[trigger]
                    node_writes(e.1).contains(t) implies node_writes(node).contains(t) by {
                    assert(leaf_writes(entries).contains(t));
                    let l = choose|l: int|
                        0 <= l < leaf_writes(entries).len() && leaf_writes(entries)[l] == t;
                    assert(node_writes(node)[node.outputs.len() + l] == t);
                }
                assert forall|t: TensorModel| #[trigger]
                    node_touches(e.1).contains(t) implies node_touches(node).contains(t) by {
                    if e.1.outputs.contains(t) {
                        assert(node_writes(node).contains(t));
                        let l = choose|l: int|
                            0 <= l < node_writes(node).len() && node_writes(node)[l] == t;
                        assert(node_touches(node)[l] == t);
                    } else {
                        let m = choose|m: int|
                            0 <= m < node_touches(e.1).len() && node_touches(e.1)[m] == t;
                        if m < e.1.outputs.len() {
                            assert(e.1.outputs[m] == t);
                        }
                        assert(e.1.inputs[m - e.1.outputs.len()] == t);
                        assert(e.1.inputs.contains(t));
                        assert(leaf_reads(entries).contains(t));
                        let l = choose|l: int|
                            0 <= l < leaf_reads(entries).len() && leaf_reads(entries)[l] == t;
                        assert(node_reads(node)[node.inputs.len() + l] == t);
                        assert(node_touches(node)[node_writes(node).len() + node.inputs.len() + l]
                            == t);
                    }
                }
            },
        }
    }
}

proof fn lemma_names_within(a: Seq<TensorModel>, b: Seq<TensorModel>, name: Seq<char>)
    requires
        forall|t: TensorModel| #[trigger] a.contains(t) ==> b.contains(t),
        names_tensor(a, name),
    ensures
        names_tensor(b, name),
{
    let i = choose|i: int| 0 <= i < a.len() && #[trigger] a[i].name == name;
    assert(a.contains(a[i]));
    let j = choose|j: int| 0 <= j < b.len() && b[j] == a[i];
    assert(b[j].name == name);
}

/// Nodes that race make the nodes that hold them race.
proof fn lemma_holders_race(a: NodeModel, b: NodeModel, x: NodeModel, y: NodeModel)
    requires
        would_race(x, y),
        forall|t: TensorModel| #[trigger]
            node_touches(x).contains(t) ==> node_touches(a).contains(t),
        forall|t: TensorModel| #[trigger]
            node_writes(x).contains(t) ==> node_writes(a).contains(t),
        forall|t: TensorModel| #[trigger]
            node_touches(y).contains(t) ==> node_touches(b).contains(t),
        forall|t: TensorModel| #[trigger]
            node_writes(y).contains(t) ==> node_writes(b).contains(t),
    ensures
        would_race(a, b),
{
    let k = choose|k: int| race_at(x, y, k);
    let t = node_touches(x)[k];
    assert(node_touches(x).contains(t));
    let m = choose|m: int| 0 <= m < node_touches(a).len() && node_touches(a)[m] == t;
    let i = choose|i: int|
        0 <= i < node_touches(y).len() && #[trigger] node_touches(y)[i].name == t.name
            && node_touches(y)[i].space == t.space;
    assert(node_touches(y).contains(node_touches(y)[i]));
    let j = choose|j: int| 0 <= j < node_touches(b).len() && node_touches(b)[j] == node_touches(y)[i];
    assert(node_touches(b)[j].name == t.name);
    if names_tensor(node_writes(x), t.name) {
        lemma_names_within(node_writes(x), node_writes(a), t.name);
    } else {
        lemma_names_within(node_writes(y), node_writes(b), t.name);
    }
    assert(race_at(a, b, m));
}

proof fn lemma_operations_apart(nodes: Seq<NodeModel>, at: Seq<int>, e: Spotted, f: Spotted)
    requires
        level_safe(nodes),
        forall|k: int| 0 <= k < nodes.len() ==> node_certifiable(#[trigger] nodes[k]),
        spot_nodes(nodes, at).contains(e),
        spot_nodes(nodes, at).contains(f),
        e.1.kind is Op,
        f.1.kind is Op,
        e.0 != f.0,
        would_race(e.1, f.1),
    ensures
        sequenced(nodes, e.0.skip(at.len() as int), f.0.skip(at.len() as int)),
    decreases nodes,
{
    let i = lemma_spotted_from(nodes, at, e);
    let j = lemma_spotted_from(nodes, at, f);
    let n = at.len() as int;
    lemma_place_in_spot(nodes[i], at, i, e);
    lemma_place_in_spot(nodes[j], at, j, f);
    let (p, q) = (e.0.skip(n), f.0.skip(n));
    assert(p[0] == i && q[0] == j);
    if i != j {
        lemma_holder_touches(nodes[i], at.push(i), e);
        lemma_holder_touches(nodes[j], at.push(j), f);
        lemma_holders_race(nodes[i], nodes[j], e.1, f.1);
        reveal(level_safe);
        assert(!race_between(nodes, i, j));
    } else {
        lemma_node_spots(nodes[i], at.push(i), e);
        lemma_node_spots(nodes[i], at.push(i), f);
        match nodes[i].kind {
            KindModel::Op(_) => {},
            KindModel::SubSchedule(sub) => {
                assert(node_certifiable(nodes[i]));
                lemma_operations_apart(sub.nodes, at.push(i), e, f);
                assert(p.skip(1) =~= e.0.skip(n + 1));
                assert(q.skip(1) =~= f.0.skip(n + 1));
            },
        }
    }
}

/// No two operations of a certified schedule race, whatever levels they stand
/// on and whatever their ids: either the level where their spots part puts one
/// before the other, or running them at the same time would be no race.
pub proof fn operations_never_race(s: ScheduleModel, i: int, j: int)
    requires
        certifiable(s),
        0 <= i < flat(s).len(),
        0 <= j < flat(s).len(),
        i != j,
        flat(s)[i].1.kind is Op,
        flat(s)[j].1.kind is Op,
    ensures
        sequenced(s.nodes, spots(s)[i].0, spots(s)[j].0) || !would_race(
            flat(s)[i].1,
            flat(s)[j].1,
        ),
{
    spots_match_the_listing(s);
    let (e, f) = (spots(s)[i], spots(s)[j]);
    if would_race(e.1, f.1) {
        spots_are_unique(s, i, j);
        lemma_operations_apart(s.nodes, Seq::empty(), e, f);
        assert(e.0.skip(0) =~= e.0);
        assert(f.0.skip(0) =~= f.0);
    }
}

/// Nothing in a certified schedule waits for ever, and where no id occurs
/// twice the nodes have an order in which to launch them.
pub proof fn certified_schedules_run(s: ScheduleModel)
    requires
        certifiable(s),
    ensures
        forall|i: int| !#[trigger] deadlocked(wait_graph(s.nodes), i),
        unique_ids(s.nodes) ==> is_launch_order(s.nodes, launch_order(s.nodes)),
{
    reveal(level_safe);
    lemma_acyclic_iff_none_deadlocked(wait_graph(s.nodes));
    if unique_ids(s.nodes) {
        lemma_launch_order_exists(s.nodes);
    }
}

proof fn lemma_no_wait_on_itself(nodes: Seq<NodeModel>, p: Seq<int>)
    ensures
        !waits_across(nodes, p, p),
    decreases p.len(),
{
    if p.len() > 0 && 0 <= p[0] < nodes.len() {
        match nodes[p[0]].kind {
            KindModel::Op(_) => {},
            KindModel::SubSchedule(sub) => {
                lemma_no_wait_on_itself(sub.nodes, p.skip(1));
            },
        }
    }
}

proof fn lemma_waits_across_follow(
    nodes: Seq<NodeModel>,
    p: Seq<int>,
    q: Seq<int>,
    r: Seq<int>,
)
    requires
        level_safe(nodes),
        forall|k: int| 0 <= k < nodes.len() ==> node_certifiable(#[trigger] nodes[k]),
        waits_across(nodes, p, q),
        waits_across(nodes, q, r),
    ensures
        waits_across(nodes, p, r),
    decreases p.len(),
{
    let g = wait_graph(nodes);
    if p[0] != q[0] && q[0] != r[0] {
        reveal(level_safe);
        lemma_reaches_transitive(g, p[0], q[0], r[0]);
        assert(!reaches(g, p[0], p[0]));
    } else if p[0] == q[0] && q[0] == r[0] {
        assert(node_certifiable(nodes[p[0]]));
        match nodes[p[0]].kind {
            KindModel::Op(_) => {},
            KindModel::SubSchedule(sub) => {
                lemma_waits_across_follow(sub.nodes, p.skip(1), q.skip(1), r.skip(1));
            },
        }
    }
}

/// In a certified schedule, waiting is a strict order across all levels: no
/// node waits on itself, and what a node waits on waits on nothing that the
/// node does not wait on too. So there is no cycle that runs through nested
/// schedules.
pub proof fn waiting_is_an_order_across_levels(
    s: ScheduleModel,
    p: Seq<int>,
    q: Seq<int>,
    r: Seq<int>,
)
    requires
        certifiable(s),
    ensures
        !waits_across(s.nodes, p, p),
        waits_across(s.nodes, p, q) && waits_across(s.nodes, q, r) ==> waits_across(s.nodes, p, r),
{
    lemma_no_wait_on_itself(s.nodes, p);
    if waits_across(s.nodes, p, q) && waits_across(s.nodes, q, r) {
        lemma_waits_across_follow(s.nodes, p, q, r);
    }
}

/// Two nodes of a certified schedule that share a compute unit and a tensor
/// are put in one order, and not in the other as well.
pub proof fn queues_have_one_order(s: ScheduleModel, i: int, j: int)
    requires
        certifiable(s),
        0 <= i < s.nodes.len(),
        0 <= j < s.nodes.len(),
        i != j,
        s.nodes[i].sm == s.nodes[j].sm,
        overlap(s.nodes[i], s.nodes[j]),
    ensures
        reaches(wait_graph(s.nodes), i, j) <==> !reaches(wait_graph(s.nodes), j, i),
{
    let nodes = s.nodes;
    let g = wait_graph(nodes);
    reveal(level_safe);
    if reaches(g, i, j) && reaches(g, j, i) {
        lemma_reaches_transitive(g, i, j, i);
    }
    overlap_is_mutual(nodes[i], nodes[j]);
    if i < j {
        assert(!sm_conflict(nodes, i, j));
    } else {
        assert(!sm_conflict(nodes, j, i));
    }
}

proof fn lemma_overlap_turns(a: NodeModel, b: NodeModel)
    requires
        overlap(a, b),
    ensures
        overlap(b, a),
{
    let i = choose|i: int|
        0 <= i < node_touches(a).len() && names_tensor(
            node_touches(b),
            #[trigger] node_touches(a)[i].name,
        );
    let j = choose|j: int|
        0 <= j < node_touches(b).len() && #[trigger] node_touches(b)[j].name
            == node_touches(a)[i].name;
    assert(names_tensor(node_touches(a), node_touches(b)[j].name));
}

/// If one node overlaps another, then the other overlaps the one.
pub proof fn overlap_is_mutual(a: NodeModel, b: NodeModel)
    ensures
        overlap(a, b) <==> overlap(b, a),
{
    if overlap(a, b) {
        lemma_overlap_turns(a, b);
    }
    if overlap(b, a) {
        lemma_overlap_turns(b, a);
    }
}

/// If one node would race with another, then the other would with the one.
pub proof fn racing_is_mutual(a: NodeModel, b: NodeModel)
    ensures
        would_race(a, b) <==> would_race(b, a),
{
    if would_race(a, b) {
        lemma_race_symmetric(a, b);
    }
    if would_race(b, a) {
        lemma_race_symmetric(b, a);
    }
}

/// Two operations overlap if and only if a tensor that one reads or writes has
/// the name of one that the other reads or writes.
pub proof fn operations_overlap_by_name(a: NodeModel, b: NodeModel)
    requires
        a.kind is Op,
        b.kind is Op,
    ensures
        overlap(a, b) <==> exists|name: Seq<char>|
            (names_tensor(a.inputs, name) || names_tensor(a.outputs, name)) && (
            #[trigger] names_tensor(b.inputs, name) || names_tensor(b.outputs, name)),
{
    assert forall|name: Seq<char>| #[trigger] names_tensor(node_touches(b), name) <==> names_tensor(
        b.inputs,
        name,
    ) || names_tensor(b.outputs, name) by {
        lemma_names_in_two(b.outputs, b.inputs, name);
    }
    if overlap(a, b) {
        let i = choose|i: int|
            0 <= i < node_touches(a).len() && names_tensor(
                node_touches(b),
                #[trigger] node_touches(a)[i].name,
            );
        let name = node_touches(a)[i].name;
        assert(names_tensor(node_touches(a), name));
        lemma_names_in_two(a.outputs, a.inputs, name);
        assert(names_tensor(b.inputs, name) || names_tensor(b.outputs, name));
    }
    if exists|name: Seq<char>|
        (names_tensor(a.inputs, name) || names_tensor(a.outputs, name)) && (
        #[trigger] names_tensor(b.inputs, name) || names_tensor(b.outputs, name)) {
        let name = choose|name: Seq<char>|
            (names_tensor(a.inputs, name) || names_tensor(a.outputs, name)) && (
            #[trigger] names_tensor(b.inputs, name) || names_tensor(b.outputs, name));
        lemma_names_in_two(a.outputs, a.inputs, name);
        assert(names_tensor(node_touches(a), name));
        let i = choose|i: int|
            0 <= i < node_touches(a).len() && #[trigger] node_touches(a)[i].name == name;
        assert(names_tensor(node_touches(b), node_touches(a)[i].name));
    }
}

/// The same level, but for further waits.
pub open spec fn waits_further(a: Seq<NodeModel>, b: Seq<NodeModel>) -> bool {
    &&& a.len() == b.len()
    &&& forall|i: int|
        0 <= i < a.len() ==> {
            &&& (#[trigger] b[i]).id == a[i].id
            &&& b[i].kind == a[i].kind
            &&& b[i].inputs == a[i].inputs
            &&& b[i].outputs == a[i].outputs
            &&& b[i].sm == a[i].sm
            &&& forall|id: NodeId| #[trigger]
                a[i].waits_on.contains(id) ==> b[i].waits_on.contains(id)
        }
}

/// What one level orders, the same level with further waits orders.
proof fn lemma_further_waits_order(a: Seq<NodeModel>, b: Seq<NodeModel>, i: int, j: int)
    requires
        waits_further(a, b),
        ordered_at(a, i, j),
    ensures
        ordered_at(b, i, j),
{
    let (g, h) = (wait_graph(a), wait_graph(b));
    let same = |x: int| x;
    lemma_wait_graph(a);
    lemma_wait_graph(b);
    assert forall|x: int, y: int| #[trigger] waits(g, x, y) implies waits(h, same(x), same(y)) by {
        assert(waits_at(a, x, y));
        assert(b[x].id == a[x].id && b[y].id == a[y].id);
        assert(b[x].waits_on.contains(a[y].id));
        assert forall|k: int| y < k < b.len() implies (#[trigger] b[k]).id != b[y].id by {
            assert(a[k].id != a[y].id);
        }
        assert(waits_at(b, x, y));
    }
    if reaches(g, i, j) {
        lemma_reaches_along(g, h, same, i, j);
    } else {
        lemma_reaches_along(g, h, same, j, i);
    }
}

/// Further waits create no race, and no conflict on a compute unit.
pub proof fn further_waits_create_no_hazard(a: Seq<NodeModel>, b: Seq<NodeModel>)
    requires
        waits_further(a, b),
    ensures
        race_free(a) ==> race_free(b),
        queues_consistent(a) ==> queues_consistent(b),
{
    if race_free(a) {
        assert forall|i: int, j: int| !#[trigger] race_between(b, i, j) by {
            if race_between(b, i, j) {
                assert(node_touches(b[i]) == node_touches(a[i]));
                assert(node_touches(b[j]) == node_touches(a[j]));
                assert(node_writes(b[i]) == node_writes(a[i]));
                assert(node_writes(b[j]) == node_writes(a[j]));
                let k = choose|k: int| race_at(b[i], b[j], k);
                assert(race_at(a[i], a[j], k));
                assert(!race_between(a, i, j));
                lemma_further_waits_order(a, b, i, j);
            }
        }
    }
    if queues_consistent(a) {
        assert forall|i: int, j: int| !#[trigger] sm_conflict(b, i, j) by {
            if sm_conflict(b, i, j) {
                assert(node_touches(b[i]) == node_touches(a[i]));
                assert(node_touches(b[j]) == node_touches(a[j]));
                assert(overlap(a[i], a[j]));
                assert(!sm_conflict(a, i, j));
                lemma_further_waits_order(a, b, i, j);
            }
        }
    }
}

proof fn lemma_names_in_two(a: Seq<TensorModel>, b: Seq<TensorModel>, name: Seq<char>)
    ensures
        names_tensor(a + b, name) <==> names_tensor(a, name) || names_tensor(b, name),
{
    let all = a + b;
    if names_tensor(a, name) {
        let i = choose|i: int| 0 <= i < a.len() && #[trigger] a[i].name == name;
        assert(all[i].name == name);
    }
    if names_tensor(b, name) {
        let i = choose|i: int| 0 <= i < b.len() && #[trigger] b[i].name == name;
        assert(all[a.len() + i].name == name);
    }
    if names_tensor(all, name) {
        let i = choose|i: int| 0 <= i < all.len() && #[trigger] all[i].name == name;
        if i < a.len() {
            assert(a[i].name == name);
        } else {
            assert(b[i - a.len()].name == name);
        }
    }
}

proof fn lemma_accessed_in_two(a: Seq<Access>, b: Seq<Access>, name: Seq<char>, write: bool)
    ensures
        accessed(a + b, name, write) <==> accessed(a, name, write) || accessed(b, name, write),
{
    let all = a + b;
    if accessed(a, name, write) {
        let i = choose|i: int|
            0 <= i < a.len() && #[trigger] a[i].tensor.name == name && a[i].write == write;
        assert(all[i].tensor.name == name);
    }
    if accessed(b, name, write) {
        let i = choose|i: int|
            0 <= i < b.len() && #[trigger] b[i].tensor.name == name && b[i].write == write;
        assert(all[a.len() + i].tensor.name == name);
    }
    if accessed(all, name, write) {
        let i = choose|i: int|
            0 <= i < all.len() && #[trigger] all[i].tensor.name == name && all[i].write == write;
        if i < a.len() {
            assert(a[i].tensor.name == name);
        } else {
            assert(b[i - a.len()].tensor.name == name);
        }
    }
}

proof fn lemma_accesses_to_names(
    tensors: Seq<TensorModel>,
    kind: bool,
    name: Seq<char>,
    write: bool,
)
    ensures
        accessed(accesses_to(tensors, kind), name, write) <==> kind == write && names_tensor(
            tensors,
            name,
        ),
{
    let log = accesses_to(tensors, kind);
    if kind == write && names_tensor(tensors, name) {
        let i = choose|i: int| 0 <= i < tensors.len() && #[trigger] tensors[i].name == name;
        assert(log[i].tensor.name == name);
    }
    if accessed(log, name, write) {
        let i = choose|i: int|
            0 <= i < log.len() && #[trigger] log[i].tensor.name == name && log[i].write == write;
        assert(tensors[i].name == name);
    }
}

proof fn lemma_accesses_are_leaves(entries: Seq<Placed>, name: Seq<char>)
    ensures
        accessed(accesses(entries), name, false) <==> names_tensor(leaf_reads(entries), name),
        accessed(accesses(entries), name, true) <==> names_tensor(leaf_writes(entries), name),
    decreases entries.len(),
{
    if entries.len() > 0 {
        let front = entries.drop_last();
        let last = entries.last().1;
        lemma_accesses_are_leaves(front, name);
        lemma_accessed_in_two(accesses(front), node_accesses(last), name, false);
        lemma_accessed_in_two(accesses(front), node_accesses(last), name, true);
        match last.kind {
            KindModel::Op(_) => {
                let reads = accesses_to(last.inputs, false);
                let writes = accesses_to(last.outputs, true);
                lemma_accessed_in_two(reads, writes, name, false);
                lemma_accessed_in_two(reads, writes, name, true);
                lemma_accesses_to_names(last.inputs, false, name, false);
                lemma_accesses_to_names(last.inputs, false, name, true);
                lemma_accesses_to_names(last.outputs, true, name, false);
                lemma_accesses_to_names(last.outputs, true, name, true);
                lemma_names_in_two(leaf_reads(front), last.inputs, name);
                lemma_names_in_two(leaf_writes(front), last.outputs, name);
            },
            KindModel::SubSchedule(_) => {
                assert(leaf_reads(front) + Seq::<TensorModel>::empty() =~= leaf_reads(front));
                assert(leaf_writes(front) + Seq::<TensorModel>::empty() =~= leaf_writes(front));
            },
        }
    }
}

/// The aggregate interface of a block says of every tensor whether running
/// the block reads or writes it: a node that holds the block touches what the
/// interface lists and what the node itself declares, and nothing else.
pub proof fn interface_tells_what_a_block_touches(
    node: NodeModel,
    block: ScheduleModel,
    name: Seq<char>,
)
    requires
        node.kind == KindModel::SubSchedule(Box::new(block)),
    ensures
        names_tensor(node_reads(node), name) <==> names_tensor(node.inputs, name) || (
        schedule_interface(block).dom().contains(name) && schedule_interface(block)[name].read),
        names_tensor(node_writes(node), name) <==> names_tensor(node.outputs, name) || (
        schedule_interface(block).dom().contains(name) && schedule_interface(block)[name].written),
{
    lemma_accesses_are_leaves(flat(block), name);
    lemma_names_in_two(node.inputs, leaf_reads(flat(block)), name);
    lemma_names_in_two(node.outputs, leaf_writes(flat(block)), name);
}

/// Both nodes touch the same tensors in the same memory spaces, and write
/// tensors of the same names.
pub open spec fn touch_alike(a: NodeModel, b: NodeModel) -> bool {
    &&& forall|name: Seq<char>, space: MemSpace| #[trigger]
        holds_tensor(node_touches(a), name, space) <==> holds_tensor(node_touches(b), name, space)
    &&& forall|name: Seq<char>| #[trigger]
        names_tensor(node_writes(a), name) <==> names_tensor(node_writes(b), name)
}

/// The nodes can stand for each other in their level.
pub open spec fn interchangeable(a: NodeModel, b: NodeModel) -> bool {
    &&& a.id == b.id
    &&& a.sm == b.sm
    &&& a.waits_on == b.waits_on
    &&& touch_alike(a, b)
}

proof fn lemma_alike_names(a: NodeModel, b: NodeModel, name: Seq<char>)
    requires
        touch_alike(a, b),
        names_tensor(node_touches(a), name),
    ensures
        names_tensor(node_touches(b), name),
{
    let ts = node_touches(a);
    let i = choose|i: int| 0 <= i < ts.len() && #[trigger] ts[i].name == name;
    assert(holds_tensor(ts, name, ts[i].space));
    assert(holds_tensor(node_touches(b), name, ts[i].space));
}

proof fn lemma_alike_overlap(a: NodeModel, b: NodeModel, x: NodeModel, y: NodeModel)
    requires
        touch_alike(a, x),
        touch_alike(b, y),
        overlap(a, b),
    ensures
        overlap(x, y),
{
    let i = choose|i: int|
        0 <= i < node_touches(a).len() && names_tensor(
            node_touches(b),
            #[trigger] node_touches(a)[i].name,
        );
    let name = node_touches(a)[i].name;
    assert(names_tensor(node_touches(a), name));
    lemma_alike_names(a, x, name);
    lemma_alike_names(b, y, name);
    let j = choose|j: int|
        0 <= j < node_touches(x).len() && #[trigger] node_touches(x)[j].name == name;
    assert(names_tensor(node_touches(y), node_touches(x)[j].name));
}

proof fn lemma_alike_race(a: NodeModel, b: NodeModel, x: NodeModel, y: NodeModel)
    requires
        touch_alike(a, x),
        touch_alike(b, y),
        would_race(a, b),
    ensures
        would_race(x, y),
{
    let k = choose|k: int| race_at(a, b, k);
    let t = node_touches(a)[k];
    assert(holds_tensor(node_touches(a), t.name, t.space));
    assert(holds_tensor(node_touches(x), t.name, t.space));
    let j = choose|j: int|
        0 <= j < node_touches(x).len() && #[trigger] node_touches(x)[j].name == t.name
            && node_touches(x)[j].space == t.space;
    assert(holds_tensor(node_touches(y), t.name, t.space));
    assert(names_tensor(node_writes(a), t.name) <==> names_tensor(node_writes(x), t.name));
    assert(names_tensor(node_writes(b), t.name) <==> names_tensor(node_writes(y), t.name));
    assert(race_at(x, y, j));
}

/// Levels of interchangeable nodes have the same waits.
proof fn lemma_interchanged_waits(a: Seq<NodeModel>, b: Seq<NodeModel>, i: int, j: int)
    requires
        a.len() == b.len(),
        forall|i: int| 0 <= i < a.len() ==> interchangeable(#[trigger] a[i], b[i]),
        reaches(wait_graph(a), i, j),
    ensures
        reaches(wait_graph(b), i, j),
{
    let (g, h) = (wait_graph(a), wait_graph(b));
    let same = |x: int| x;
    lemma_wait_graph(a);
    lemma_wait_graph(b);
    assert forall|x: int, y: int| #[trigger] waits(g, x, y) implies waits(h, same(x), same(y)) by {
        assert(waits_at(a, x, y));
        assert(interchangeable(a[x], b[x]) && interchangeable(a[y], b[y]));
        assert forall|k: int| y < k < b.len() implies (#[trigger] b[k]).id != b[y].id by {
            assert(interchangeable(a[k], b[k]));
        }
        assert(waits_at(b, x, y));
    }
    lemma_reaches_along(g, h, same, i, j);
}

proof fn lemma_interchanged_level(a: Seq<NodeModel>, b: Seq<NodeModel>)
    requires
        a.len() == b.len(),
        forall|i: int| 0 <= i < a.len() ==> interchangeable(#[trigger] a[i], b[i]),
        level_safe(b),
    ensures
        level_safe(a),
{
    reveal(level_safe);
    assert forall|i: int| 0 <= i < b.len() implies interchangeable(#[trigger] b[i], a[i]) by {
        assert(interchangeable(a[i], b[i]));
    }
    assert forall|i: int, k: int| !#[trigger] dangles(a, i, k) by {
        if dangles(a, i, k) {
            assert(interchangeable(a[i], b[i]));
            let w = a[i].waits_on[k];
            if has_id(b, w) {
                let j = choose|j: int| 0 <= j < b.len() && #[trigger] b[j].id == w;
                assert(interchangeable(a[j], b[j]));
                assert(a[j].id == w);
            }
            assert(dangles(b, i, k));
        }
    }
    assert forall|i: int| !#[trigger] reaches(wait_graph(a), i, i) by {
        if reaches(wait_graph(a), i, i) {
            lemma_interchanged_waits(a, b, i, i);
        }
    }
    assert forall|i: int, j: int| #[trigger] ordered_at(b, i, j) implies ordered_at(a, i, j) by {
        if reaches(wait_graph(b), i, j) {
            lemma_interchanged_waits(b, a, i, j);
        } else {
            lemma_interchanged_waits(b, a, j, i);
        }
    }
    assert forall|i: int, j: int| !#[trigger] sm_conflict(a, i, j) by {
        if sm_conflict(a, i, j) {
            assert(interchangeable(a[i], b[i]) && interchangeable(a[j], b[j]));
            lemma_alike_overlap(a[i], a[j], b[i], b[j]);
            assert(!ordered_at(b, i, j));
            assert(sm_conflict(b, i, j));
        }
    }
    assert forall|i: int, j: int| !#[trigger] race_between(a, i, j) by {
        if race_between(a, i, j) {
            assert(interchangeable(a[i], b[i]) && interchangeable(a[j], b[j]));
            lemma_alike_race(a[i], a[j], b[i], b[j]);
            assert(!ordered_at(b, i, j));
            assert(race_between(b, i, j));
        }
    }
}

/// A level is judged by what its nodes touch, not by what is in them: putting
/// other blocks that touch the same tensors in their place changes nothing.
pub proof fn levels_see_only_what_blocks_touch(a: Seq<NodeModel>, b: Seq<NodeModel>)
    requires
        a.len() == b.len(),
        forall|i: int| 0 <= i < a.len() ==> interchangeable(#[trigger] a[i], b[i]),
    ensures
        level_safe(a) <==> level_safe(b),
{
    assert forall|i: int| 0 <= i < b.len() implies interchangeable(#[trigger] b[i], a[i]) by {
        assert(interchangeable(a[i], b[i]));
    }
    if level_safe(a) {
        lemma_interchanged_level(b, a);
    }
    if level_safe(b) {
        lemma_interchanged_level(a, b);
    }
}

/// The listing of a schedule holds the listings of the schedules nested in it,
/// each at the place of the node that holds it.
pub proof fn nested_nodes_are_listed(s: ScheduleModel, i: int, k: int)
    requires
        0 <= i < s.nodes.len(),
        s.nodes[i].kind is SubSchedule,
        0 <= k < flat(*s.nodes[i].kind->SubSchedule_0).len(),
    ensures
        flat(s).contains(
            (
                seq![s.nodes[i].id] + flat(*s.nodes[i].kind->SubSchedule_0)[k].0,
                flat(*s.nodes[i].kind->SubSchedule_0)[k].1,
            ),
        ),
{
    let none = Seq::<NodeId>::empty();
    let node = s.nodes[i];
    let sub = *node.kind->SubSchedule_0;
    let inner = flat_nodes(sub.nodes, none.push(node.id));
    lemma_listing_moves(sub.nodes, none.push(node.id));
    let e = inner[k];
    assert(none.push(node.id) =~= seq![node.id]);
    assert(e == (seq![node.id] + flat(sub)[k].0, flat(sub)[k].1));
    assert(inner.contains(e));
    lemma_node_lists(node, none, e);
    lemma_listed_in(s.nodes, none, i, e);
}

/// What a nested block reads or writes, the schedule that holds it reads or
/// writes, as its interface says.
pub proof fn interfaces_include_blocks(s: ScheduleModel, i: int, name: Seq<char>)
    requires
        0 <= i < s.nodes.len(),
        s.nodes[i].kind is SubSchedule,
        schedule_interface(*s.nodes[i].kind->SubSchedule_0).dom().contains(name),
    ensures
        schedule_interface(s).dom().contains(name),
        schedule_interface(*s.nodes[i].kind->SubSchedule_0)[name].read ==> schedule_interface(
            s,
        )[name].read,
        schedule_interface(*s.nodes[i].kind->SubSchedule_0)[name].written ==> schedule_interface(
            s,
        )[name].written,
{
    let sub = *s.nodes[i].kind->SubSchedule_0;
    let (log, all) = (accesses(flat(sub)), accesses(flat(s)));
    assert forall|write: bool| #[trigger] accessed(log, name, write) implies accessed(
        all,
        name,
        write,
    ) by {
        let l = choose|l: int|
            0 <= l < log.len() && #[trigger] log[l].tensor.name == name && log[l].write == write;
        let k = lemma_access_from(flat(sub), log[l]);
        nested_nodes_are_listed(s, i, k);
        let e = (seq![s.nodes[i].id] + flat(sub)[k].0, flat(sub)[k].1);
        let m = choose|m: int| 0 <= m < flat(s).len() && flat(s)[m] == e;
        lemma_access_listed(flat(s), m, log[l]);
        let n = choose|n: int| 0 <= n < all.len() && all[n] == log[l];
        assert(all[n].tensor.name == name);
    }
}

} // verus!
