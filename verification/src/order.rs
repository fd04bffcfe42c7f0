//! The order in which the nodes of one level are launched.
use std::collections::HashMap;
use vstd::prelude::*;

use crate::graph::{
    acyclic, closed, lemma_reach_set_shrinks, lemma_reaches_along, lemma_reaches_closed,
    lemma_reaches_transitive, lemma_wait_reaches, reach_set, reaches, reaches_through, waits,
    WaitGraph,
};
use crate::ir::{
    has_id, index_model, indexes, lemma_index_model, lemma_indexed_at, Node, NodeId, NodeModel,
    Schedule,
};
use crate::rules::{
    dangles, last_of_its_id, lemma_named, lemma_wait_graph, named, wait_graph, waits_at,
    waits_resolve,
};

verus! {

/// No two nodes of this level have the same id.
pub open spec fn unique_ids(nodes: Seq<NodeModel>) -> bool {
    forall|i: int, j: int|
        0 <= i < j < nodes.len() ==> #[trigger] nodes[i].id != #[trigger] nodes[j].id
}

/// Which id waits on which, where ids tell nodes apart.
pub open spec fn id_graph(nodes: Seq<NodeModel>) -> WaitGraph<NodeId> {
    index_model(nodes).map_values(|n: NodeModel| n.waits_on)
}

/// The nodes can all be told apart and launched one after the other, each
/// after those that it waits on.
pub open spec fn orderable(nodes: Seq<NodeModel>) -> bool {
    &&& unique_ids(nodes)
    &&& waits_resolve(nodes)
    &&& acyclic(wait_graph(nodes))
}

/// The node has not been launched, and all that it waits on have.
pub open spec fn ready(nodes: Seq<NodeModel>, launched: Seq<NodeId>, id: NodeId) -> bool {
    &&& has_id(nodes, id)
    &&& !launched.contains(id)
    &&& forall|b: NodeId| #[trigger] waits(id_graph(nodes), id, b) ==> launched.contains(b)
}

/// Of the nodes that are ready, this one has the smallest id.
pub open spec fn least_ready(nodes: Seq<NodeModel>, launched: Seq<NodeId>, id: NodeId) -> bool {
    &&& ready(nodes, launched, id)
    &&& forall|other: NodeId| #[trigger] ready(nodes, launched, other) ==> id <= other
}

/// All nodes, each time the one with the smallest id that is ready.
pub open spec fn is_launch_order(nodes: Seq<NodeModel>, order: Seq<NodeId>) -> bool {
    &&& order.len() == nodes.len()
    &&& forall|k: int|
        0 <= k < order.len() ==> least_ready(nodes, order.take(k), #[trigger] order[k])
}

/// The order in which the nodes of this level are launched.
pub open spec fn launch_order(nodes: Seq<NodeModel>) -> Seq<NodeId> {
    choose|order: Seq<NodeId>| is_launch_order(nodes, order)
}

/// There is only one launch order.
pub proof fn lemma_launch_order_unique(nodes: Seq<NodeModel>, a: Seq<NodeId>, b: Seq<NodeId>)
    requires
        is_launch_order(nodes, a),
        is_launch_order(nodes, b),
    ensures
        a == b,
{
    lemma_launch_orders_agree(nodes, a, b, a.len() as int);
    assert(a.take(a.len() as int) =~= a);
    assert(b.take(a.len() as int) =~= b);
}

proof fn lemma_launch_orders_agree(
    nodes: Seq<NodeModel>,
    a: Seq<NodeId>,
    b: Seq<NodeId>,
    k: int,
)
    requires
        is_launch_order(nodes, a),
        is_launch_order(nodes, b),
        0 <= k <= a.len(),
    ensures
        a.take(k) == b.take(k),
    decreases k,
{
    if k > 0 {
        lemma_launch_orders_agree(nodes, a, b, k - 1);
        assert(least_ready(nodes, a.take(k - 1), a[k - 1]));
        assert(least_ready(nodes, b.take(k - 1), b[k - 1]));
        assert(a[k - 1] == b[k - 1]);
        assert(a.take(k) =~= a.take(k - 1).push(a[k - 1]));
        assert(b.take(k) =~= b.take(k - 1).push(b[k - 1]));
    } else {
        assert(a.take(k) =~= b.take(k));
    }
}

/// As many ids as nodes means that none occurs twice.
proof fn lemma_unique_by_count(nodes: Seq<NodeModel>)
    ensures
        index_model(nodes).dom().finite(),
        index_model(nodes).dom().len() <= nodes.len(),
        index_model(nodes).dom().len() == nodes.len() <==> unique_ids(nodes),
    decreases nodes.len(),
{
    lemma_index_model(nodes);
    if nodes.len() > 0 {
        let front = nodes.drop_last();
        let last = nodes.last();
        lemma_unique_by_count(front);
        lemma_index_model(front);
        assert(index_model(nodes).dom() =~= index_model(front).dom().insert(last.id));
        if unique_ids(nodes) {
            assert forall|i: int, j: int| 0 <= i < j < front.len() implies #[trigger] front[i].id
                != #[trigger] front[j].id by {
                assert(nodes[i].id != nodes[j].id);
            }
            if has_id(front, last.id) {
                let i = choose|i: int| 0 <= i < front.len() && #[trigger] front[i].id == last.id;
                assert(nodes[i].id != nodes[nodes.len() - 1].id);
            }
            assert(!index_model(front).dom().contains(last.id));
        }
        if index_model(nodes).dom().len() == nodes.len() {
            assert(!index_model(front).dom().contains(last.id));
            assert forall|i: int, j: int| 0 <= i < j < nodes.len() implies #[trigger] nodes[i].id
                != #[trigger] nodes[j].id by {
                if j < nodes.len() - 1 {
                    assert(front[i].id != front[j].id);
                } else {
                    assert(front[i].id == nodes[i].id);
                    assert(index_model(front).dom().contains(front[i].id));
                }
            }
        }
    }
}

/// How often a value occurs.
spec fn occurrences(s: Seq<NodeId>, v: NodeId) -> nat
    decreases s.len(),
{
    if s.len() == 0 {
        0
    } else {
        occurrences(s.drop_last(), v) + if s.last() == v {
            1nat
        } else {
            0nat
        }
    }
}

/// How many of the waits have not been launched.
spec fn open_waits(w: Seq<NodeId>, launched: Seq<NodeId>) -> nat
    decreases w.len(),
{
    if w.len() == 0 {
        0
    } else {
        open_waits(w.drop_last(), launched) + if launched.contains(w.last()) {
            0nat
        } else {
            1nat
        }
    }
}

proof fn lemma_launching_closes(w: Seq<NodeId>, launched: Seq<NodeId>, x: NodeId)
    requires
        !launched.contains(x),
    ensures
        open_waits(w, launched.push(x)) + occurrences(w, x) == open_waits(w, launched),
    decreases w.len(),
{
    if w.len() > 0 {
        lemma_launching_closes(w.drop_last(), launched, x);
        let more = launched.push(x);
        let v = w.last();
        assert(more[launched.len() as int] == x);
        if launched.contains(v) {
            let i = choose|i: int| 0 <= i < launched.len() && launched[i] == v;
            assert(more[i] == v);
        }
        if more.contains(v) && v != x {
            let i = choose|i: int| 0 <= i < more.len() && more[i] == v;
            assert(launched[i] == v);
        }
    }
}

proof fn lemma_no_open_waits(w: Seq<NodeId>, launched: Seq<NodeId>)
    ensures
        open_waits(w, launched) == 0 <==> forall|k: int|
            0 <= k < w.len() ==> launched.contains(#[trigger] w[k]),
        open_waits(w, launched) <= w.len(),
    decreases w.len(),
{
    if w.len() > 0 {
        let front = w.drop_last();
        lemma_no_open_waits(front, launched);
        if open_waits(w, launched) == 0 {
            assert forall|k: int| 0 <= k < w.len() implies launched.contains(#[trigger] w[k]) by {
                if k < front.len() {
                    assert(launched.contains(front[k]));
                }
            }
        }
        if forall|k: int| 0 <= k < w.len() ==> launched.contains(#[trigger] w[k]) {
            assert forall|k: int| 0 <= k < front.len() implies launched.contains(
                #[trigger] front[k],
            ) by {
                assert(launched.contains(w[k]));
            }
            assert(launched.contains(w[w.len() - 1]));
        }
    }
}

proof fn lemma_none_launched(w: Seq<NodeId>)
    ensures
        open_waits(w, Seq::empty()) == w.len(),
    decreases w.len(),
{
    if w.len() > 0 {
        lemma_none_launched(w.drop_last());
    }
}

proof fn lemma_occurrences_prefix(s: Seq<NodeId>, j: int, v: NodeId)
    requires
        0 <= j <= s.len(),
    ensures
        occurrences(s.take(j), v) <= occurrences(s, v),
    decreases s.len() - j,
{
    if j < s.len() {
        lemma_occurrences_prefix(s, j + 1, v);
        assert(s.take(j + 1).drop_last() =~= s.take(j));
    } else {
        assert(s.take(j) =~= s);
    }
}

/// Where each node waits only on nodes that precede it, there is no cycle.
proof fn lemma_chain_goes_back(
    nodes: Seq<NodeModel>,
    order: Seq<NodeId>,
    i: int,
    b: NodeId,
    n: nat,
) -> (j: int)
    requires
        is_launch_order(nodes, order),
        0 <= i < order.len(),
        reaches_through(id_graph(nodes), order[i], b, n),
    ensures
        0 <= j < i,
        order[j] == b,
    decreases n,
{
    let g = id_graph(nodes);
    let c = if n == 0 {
        b
    } else {
        choose|c: NodeId|
            #[trigger] waits(g, order[i], c) && reaches_through(g, c, b, (n - 1) as nat)
    };
    assert(waits(g, order[i], c));
    assert(least_ready(nodes, order.take(i), order[i]));
    assert(order.take(i).contains(c));
    let k = choose|k: int| 0 <= k < order.take(i).len() && order.take(i)[k] == c;
    if n == 0 {
        k
    } else {
        lemma_chain_goes_back(nodes, order, k, b, (n - 1) as nat)
    }
}

/// A launch order is free of repetitions.
proof fn lemma_launch_order_distinct(nodes: Seq<NodeModel>, order: Seq<NodeId>)
    requires
        is_launch_order(nodes, order),
    ensures
        order.no_duplicates(),
{
    assert forall|i: int, j: int| 0 <= i < j < order.len() implies order[i] != order[j] by {
        assert(least_ready(nodes, order.take(j), order[j]));
        assert(order.take(j)[i] == order[i]);
    }
}

/// Where there is a launch order, the nodes are orderable.
pub proof fn lemma_launched_is_orderable(nodes: Seq<NodeModel>, order: Seq<NodeId>)
    requires
        is_launch_order(nodes, order),
    ensures
        orderable(nodes),
        forall|id: NodeId| has_id(nodes, id) <==> #[trigger] order.contains(id),
{
    let g = id_graph(nodes);
    let ids = index_model(nodes).dom();
    lemma_index_model(nodes);
    lemma_unique_by_count(nodes);
    lemma_launch_order_distinct(nodes, order);
    order.unique_seq_to_set();
    assert forall|id: NodeId| #[trigger] order.to_set().contains(id) implies ids.contains(id) by {
        let k = choose|k: int| 0 <= k < order.len() && order[k] == id;
        assert(least_ready(nodes, order.take(k), order[k]));
    }
    vstd::set_lib::lemma_len_subset(order.to_set(), ids);
    vstd::set_lib::lemma_subset_equality(order.to_set(), ids);
    assert forall|id: NodeId| has_id(nodes, id) <==> #[trigger] order.contains(id) by {
        assert(order.to_set().contains(id) <==> ids.contains(id));
        assert(ids.contains(id) <==> has_id(nodes, id));
    }
    assert forall|i: int, k: int| !#[trigger] dangles(nodes, i, k) by {
        if dangles(nodes, i, k) {
            let id = nodes[i].id;
            let b = nodes[i].waits_on[k];
            assert(has_id(nodes, id));
            let at = lemma_indexed_at(nodes, id);
            assert(at == i);
            assert(g[id].contains(b));
            assert(waits(g, id, b));
            assert(order.contains(id));
            let p = choose|p: int| 0 <= p < order.len() && order[p] == id;
            assert(least_ready(nodes, order.take(p), order[p]));
            assert(order.take(p).contains(b));
            let q = choose|q: int| 0 <= q < order.take(p).len() && order.take(p)[q] == b;
            assert(order.contains(b)) by {
                assert(order[q] == b);
            }
        }
    }
    assert forall|a: NodeId| !#[trigger] reaches(g, a, a) by {
        if reaches(g, a, a) {
            let n = choose|n: nat| reaches_through(g, a, a, n);
            lemma_resolved_is_closed(nodes);
            lemma_reaches_closed(g, a, a);
            assert(ids.contains(a));
            assert(order.contains(a));
            let p = choose|p: int| 0 <= p < order.len() && order[p] == a;
            let q = lemma_chain_goes_back(nodes, order, p, a, n);
            assert(order[q] != order[p]);
        }
    }
    lemma_ids_for_places(nodes);
}

/// Where every wait names a node, the graph of ids is closed.
proof fn lemma_resolved_is_closed(nodes: Seq<NodeModel>)
    requires
        waits_resolve(nodes),
    ensures
        closed(id_graph(nodes)),
{
    lemma_index_model(nodes);
    let g = id_graph(nodes);
    assert forall|a: NodeId, b: NodeId| #[trigger] waits(g, a, b) implies g.dom().contains(b) by {
        assert(index_model(nodes).dom().contains(a));
        let i = lemma_indexed_at(nodes, a);
        let k = choose|k: int| 0 <= k < g[a].len() && g[a][k] == b;
        assert(!dangles(nodes, i, k));
        assert(index_model(nodes).dom().contains(b));
    }
}

/// Where ids tell nodes apart, each stands for the node that has it.
pub proof fn lemma_unique_is_last(nodes: Seq<NodeModel>, j: int)
    requires
        unique_ids(nodes),
        0 <= j < nodes.len(),
    ensures
        last_of_its_id(nodes, j),
{
    assert forall|k: int| j < k < nodes.len() implies (#[trigger] nodes[k]).id != nodes[j].id by {
        assert(nodes[j].id != nodes[k].id);
    }
}

/// Where ids tell nodes apart, waits between ids are waits between places.
proof fn lemma_ids_for_places(nodes: Seq<NodeModel>)
    requires
        unique_ids(nodes),
        waits_resolve(nodes),
    ensures
        acyclic(wait_graph(nodes)) <==> acyclic(id_graph(nodes)),
        forall|i: int, j: int|
            0 <= i < nodes.len() && 0 <= j < nodes.len() && #[trigger] reaches(
                wait_graph(nodes),
                i,
                j,
            ) ==> reaches(id_graph(nodes), nodes[i].id, nodes[j].id),
{
    cycles_are_those_of_the_index(nodes);
    assert forall|i: int, j: int|
        0 <= i < nodes.len() && 0 <= j < nodes.len() && #[trigger] reaches(
            wait_graph(nodes),
            i,
            j,
        ) implies reaches(id_graph(nodes), nodes[i].id, nodes[j].id) by {
        lemma_unique_is_last(nodes, i);
        let n = choose|n: nat| reaches_through(wait_graph(nodes), i, j, n);
        lemma_chain_of_ids(nodes, i, j, n);
    }
}

/// From a node that its id stands for, chains of waits are chains between ids.
proof fn lemma_chain_of_ids(nodes: Seq<NodeModel>, i: int, j: int, n: nat)
    requires
        0 <= i < nodes.len(),
        last_of_its_id(nodes, i),
        reaches_through(wait_graph(nodes), i, j, n),
    ensures
        reaches(id_graph(nodes), nodes[i].id, nodes[j].id),
    decreases n,
{
    let (g, h) = (wait_graph(nodes), id_graph(nodes));
    lemma_wait_graph(nodes);
    let c = if n == 0 {
        j
    } else {
        choose|c: int| #[trigger] waits(g, i, c) && reaches_through(g, c, j, (n - 1) as nat)
    };
    assert(waits(g, i, c));
    assert(waits_at(nodes, i, c));
    lemma_last_is_indexed(nodes, i);
    assert(waits(h, nodes[i].id, nodes[c].id));
    lemma_wait_reaches(h, nodes[i].id, nodes[c].id);
    if n > 0 {
        lemma_chain_of_ids(nodes, c, j, (n - 1) as nat);
        lemma_reaches_transitive(h, nodes[i].id, nodes[c].id, nodes[j].id);
    }
}

/// The index holds the node that an id stands for.
proof fn lemma_last_is_indexed(nodes: Seq<NodeModel>, i: int)
    requires
        0 <= i < nodes.len(),
        last_of_its_id(nodes, i),
    ensures
        index_model(nodes).dom().contains(nodes[i].id),
        index_model(nodes)[nodes[i].id] == nodes[i],
{
    lemma_index_model(nodes);
    assert(has_id(nodes, nodes[i].id));
    let j = lemma_indexed_at(nodes, nodes[i].id);
    if i < j {
        assert(nodes[j].id != nodes[i].id);
    } else if j < i {
        assert(nodes.skip(j + 1)[i - j - 1].id == nodes[i].id);
    }
}

proof fn lemma_chain_end_is_last(nodes: Seq<NodeModel>, i: int, j: int, n: nat)
    requires
        reaches_through(wait_graph(nodes), i, j, n),
    ensures
        last_of_its_id(nodes, j),
    decreases n,
{
    let g = wait_graph(nodes);
    lemma_wait_graph(nodes);
    if n == 0 {
        assert(waits(g, i, j));
        assert(waits_at(nodes, i, j));
    } else {
        let c = choose|c: int|
            #[trigger] waits(g, i, c) && reaches_through(g, c, j, (n - 1) as nat);
        lemma_chain_end_is_last(nodes, c, j, (n - 1) as nat);
    }
}

/// Where every wait names a node, the cycles among the nodes of a level are
/// those among the nodes that its index holds: a node that a later one of its
/// id hides from the index is waited on by none.
pub proof fn cycles_are_those_of_the_index(nodes: Seq<NodeModel>)
    requires
        waits_resolve(nodes),
    ensures
        acyclic(wait_graph(nodes)) <==> acyclic(id_graph(nodes)),
{
    let (g, h) = (wait_graph(nodes), id_graph(nodes));
    lemma_wait_graph(nodes);
    lemma_resolved_is_closed(nodes);
    lemma_index_model(nodes);
    let place = |id: NodeId| named(nodes, id)->Some_0;
    assert forall|a: NodeId, b: NodeId| #[trigger] waits(h, a, b) implies waits(
        g,
        place(a),
        place(b),
    ) by {
        assert(h.dom().contains(b));
        assert(index_model(nodes).dom().contains(a) && index_model(nodes).dom().contains(b));
        lemma_named(nodes, a);
        lemma_named(nodes, b);
        lemma_last_is_indexed(nodes, place(a));
        assert(waits_at(nodes, place(a), place(b)));
    }
    if acyclic(g) {
        assert forall|a: NodeId| !#[trigger] reaches(h, a, a) by {
            if reaches(h, a, a) {
                lemma_reaches_along(h, g, place, a, a);
            }
        }
    }
    if acyclic(h) {
        assert forall|i: int| !#[trigger] reaches(g, i, i) by {
            if reaches(g, i, i) {
                lemma_reaches_closed(g, i, i);
                let n = choose|n: nat| reaches_through(g, i, i, n);
                lemma_chain_end_is_last(nodes, i, i, n);
                lemma_chain_of_ids(nodes, i, i, n);
            }
        }
    }
}

/// Orderable nodes do not get stuck: while some are left, one is ready.
pub proof fn lemma_never_stuck(nodes: Seq<NodeModel>, launched: Seq<NodeId>, id: NodeId)
    requires
        orderable(nodes),
        has_id(nodes, id),
        !launched.contains(id),
    ensures
        exists|other: NodeId| ready(nodes, launched, other),
    decreases reach_set(id_graph(nodes), id).len(),
{
    if !ready(nodes, launched, id) {
        let g = id_graph(nodes);
        lemma_resolved_is_closed(nodes);
        lemma_ids_for_places(nodes);
        lemma_index_model(nodes);
        let b = choose|b: NodeId| #[trigger] waits(g, id, b) && !launched.contains(b);
        assert(g.dom().contains(b));
        assert(index_model(nodes).dom().contains(b));
        assert(g.dom() =~= index_model(nodes).dom());
        lemma_reach_set_shrinks(g, id, b);
        lemma_never_stuck(nodes, launched, b);
    }
}

/// Orderable nodes have a launch order.
pub proof fn lemma_launch_order_exists(nodes: Seq<NodeModel>)
    requires
        orderable(nodes),
    ensures
        is_launch_order(nodes, launch_order(nodes)),
{
    let order = lemma_first_launched(nodes, nodes.len());
    assert(is_launch_order(nodes, order));
}

proof fn lemma_first_launched(nodes: Seq<NodeModel>, n: nat) -> (order: Seq<NodeId>)
    requires
        orderable(nodes),
        n <= nodes.len(),
    ensures
        order.len() == n,
        forall|k: int|
            0 <= k < order.len() ==> least_ready(nodes, order.take(k), #[trigger] order[k]),
    decreases n,
{
    if n == 0 {
        Seq::empty()
    } else {
        let before = lemma_first_launched(nodes, (n - 1) as nat);
        let ids = index_model(nodes).dom();
        lemma_unique_by_count(nodes);
        lemma_index_model(nodes);
        if forall|id: NodeId| ids.contains(id) ==> before.contains(id) {
            before.lemma_cardinality_of_set();
            assert(ids.subset_of(before.to_set()));
            vstd::set_lib::lemma_len_subset(ids, before.to_set());
        }
        let left = choose|id: NodeId| ids.contains(id) && !before.contains(id);
        lemma_never_stuck(nodes, before, left);
        let some = choose|id: NodeId| ready(nodes, before, id);
        let next = lemma_least_ready(nodes, before, some);
        let order = before.push(next);
        assert forall|k: int| 0 <= k < order.len() implies least_ready(
            nodes,
            order.take(k),
            #[trigger] order[k],
        ) by {
            assert(order.take(k) =~= before.take(k));
            if k < before.len() {
                assert(least_ready(nodes, before.take(k), before[k]));
            } else {
                assert(before.take(k) =~= before);
            }
        }
        order
    }
}

proof fn lemma_least_ready(nodes: Seq<NodeModel>, launched: Seq<NodeId>, id: NodeId) -> (least:
    NodeId)
    requires
        ready(nodes, launched, id),
    ensures
        least_ready(nodes, launched, least),
    decreases id,
{
    if exists|other: NodeId| #[trigger] ready(nodes, launched, other) && other < id {
        let other = choose|other: NodeId| #[trigger] ready(nodes, launched, other) && other < id;
        lemma_least_ready(nodes, launched, other)
    } else {
        id
    }
}

/// Every node is launched, and none twice.
pub proof fn every_node_launches_once(nodes: Seq<NodeModel>)
    requires
        orderable(nodes),
    ensures
        launch_order(nodes).no_duplicates(),
        launch_order(nodes).len() == nodes.len(),
        forall|id: NodeId| has_id(nodes, id) <==> #[trigger] launch_order(nodes).contains(id),
{
    lemma_launch_order_exists(nodes);
    lemma_launch_order_distinct(nodes, launch_order(nodes));
    lemma_launched_is_orderable(nodes, launch_order(nodes));
}

/// Whatever a node waits on, directly or through others, is launched before it.
pub proof fn waits_launch_first(nodes: Seq<NodeModel>, i: int, j: int) -> (at: (int, int))
    requires
        orderable(nodes),
        0 <= i < nodes.len(),
        0 <= j < nodes.len(),
        reaches(wait_graph(nodes), i, j),
    ensures
        0 <= at.1 < at.0 < launch_order(nodes).len(),
        launch_order(nodes)[at.0] == nodes[i].id,
        launch_order(nodes)[at.1] == nodes[j].id,
{
    let (a, b) = (nodes[i].id, nodes[j].id);
    let order = launch_order(nodes);
    lemma_launch_order_exists(nodes);
    lemma_ids_for_places(nodes);
    every_node_launches_once(nodes);
    assert(has_id(nodes, a));
    assert(order.contains(a));
    let p = choose|p: int| 0 <= p < order.len() && order[p] == a;
    let n = choose|n: nat| reaches_through(id_graph(nodes), a, b, n);
    let q = lemma_chain_goes_back(nodes, order, p, b, n);
    (p, q)
}

/// Of two nodes that could be launched next, the one with the smaller id is
/// launched first.
pub proof fn ties_go_to_the_smaller_id(nodes: Seq<NodeModel>, i: int, j: int)
    requires
        orderable(nodes),
        0 <= i < launch_order(nodes).len(),
        0 <= j < launch_order(nodes).len(),
        ready(nodes, launch_order(nodes).take(i), launch_order(nodes)[j]),
    ensures
        launch_order(nodes)[i] <= launch_order(nodes)[j],
{
    lemma_launch_order_exists(nodes);
    assert(least_ready(nodes, launch_order(nodes).take(i), launch_order(nodes)[i]));
}

/// From `head` on, ids ascend.
spec fn ascends_from(queue: Seq<NodeId>, head: int) -> bool {
    forall|i: int, j: int|
        head <= i < j < queue.len() ==> #[trigger] queue[i] < #[trigger] queue[j]
}

/// The place of `id` among the ids from `head` on.
fn place_of(queue: &Vec<NodeId>, head: usize, id: NodeId) -> (pos: usize)
    requires
        head <= queue@.len(),
        ascends_from(queue@, head as int),
    ensures
        head <= pos <= queue@.len(),
        forall|i: int| head <= i < pos ==> #[trigger] queue@[i] < id,
        forall|i: int| pos <= i < queue@.len() ==> id <= #[trigger] queue@[i],
{
    let mut low: usize = head;
    let mut high: usize = queue.len();
    while low < high
        invariant
            head <= low <= high <= queue@.len(),
            ascends_from(queue@, head as int),
            forall|i: int| head <= i < low ==> #[trigger] queue@[i] < id,
            forall|i: int| high <= i < queue@.len() ==> id <= #[trigger] queue@[i],
        decreases high - low,
    {
        let mid: usize = low + (high - low) / 2;
        let ghost at = queue@[mid as int];
        if queue[mid] < id {
            assert forall|i: int| head <= i < mid + 1 implies #[trigger] queue@[i] < id by {
                assert(i < mid ==> queue@[i] < at);
            }
            low = mid + 1;
        } else {
            assert forall|i: int| mid <= i < queue@.len() implies id <= #[trigger] queue@[i] by {
                assert(mid < i ==> at < queue@[i]);
            }
            high = mid;
        }
    }
    low
}

/// Puts a new id in its place among those from `head` on.
fn enqueue(queue: &mut Vec<NodeId>, head: usize, id: NodeId)
    requires
        head <= old(queue)@.len(),
        old(queue)@.no_duplicates(),
        !old(queue)@.contains(id),
        ascends_from(old(queue)@, head as int),
    ensures
        final(queue)@.len() == old(queue)@.len() + 1,
        final(queue)@.take(head as int) == old(queue)@.take(head as int),
        final(queue)@.no_duplicates(),
        ascends_from(final(queue)@, head as int),
        forall|x: NodeId| #[trigger]
            final(queue)@.contains(x) <==> old(queue)@.contains(x) || x == id,
{
    let ghost before = queue@;
    let pos: usize = place_of(queue, head, id);
    queue.insert(pos, id);
    proof {
        let after = queue@;
        assert(after =~= before.insert(pos as int, id));
        assert(after[pos as int] == id);
        assert(after.take(head as int) =~= before.take(head as int));
        assert forall|i: int| 0 <= i < before.len() implies #[trigger] before[i] != id by {
            assert(before.contains(before[i]));
        }
        assert forall|i: int, j: int| 0 <= i < j < after.len() implies after[i] != after[j] by {
            let a = if i <= pos { i } else { i - 1 };
            let b = if j <= pos { j } else { j - 1 };
            if i != pos && j != pos {
                assert(before[a] != before[b]);
            }
        }
        assert forall|i: int, j: int| head <= i < j < after.len() implies #[trigger] after[i]
            < #[trigger] after[j] by {
            if i == pos {
                assert(before[j - 1] != id);
            } else if j == pos {
                assert(before[i] < id);
            } else {
                let a = if i < pos { i } else { i - 1 };
                let b = if j < pos { j } else { j - 1 };
                assert(before[a] < before[b]);
            }
        }
        assert forall|x: NodeId| #[trigger] after.contains(x) <==> before.contains(x) || x
            == id by {
            if before.contains(x) {
                let i = choose|i: int| 0 <= i < before.len() && before[i] == x;
                assert(after[if i < pos { i } else { i + 1 }] == x);
            }
            if after.contains(x) && x != id {
                let i = choose|i: int| 0 <= i < after.len() && after[i] == x;
                assert(before[if i < pos { i } else { i - 1 }] == x);
            }
        }
    }
}

/// The nodes that list `x` among their waits, as often as they do.
spec fn waiting_for(dependents: Map<NodeId, Vec<NodeId>>, x: NodeId) -> Seq<NodeId> {
    if dependents.dom().contains(x) {
        dependents[x]@
    } else {
        Seq::empty()
    }
}

/// How often `y` lists `x`, where the nodes before the `i`-th and the first
/// `k` waits of that one count.
spec fn listed(nodes: Seq<NodeModel>, i: int, k: int, x: NodeId, y: NodeId) -> nat {
    if has_id(nodes.take(i), y) {
        occurrences(index_model(nodes)[y].waits_on, x)
    } else if 0 <= i < nodes.len() && nodes[i].id == y {
        occurrences(nodes[i].waits_on.take(k), x)
    } else {
        0
    }
}

/// Where ids are unique, the index holds each node under its id.
pub proof fn lemma_unique_index(nodes: Seq<NodeModel>, i: int)
    requires
        unique_ids(nodes),
        0 <= i < nodes.len(),
    ensures
        index_model(nodes).dom().contains(nodes[i].id),
        index_model(nodes)[nodes[i].id] == nodes[i],
        !has_id(nodes.take(i), nodes[i].id),
{
    lemma_index_model(nodes);
    assert(has_id(nodes, nodes[i].id));
    let j = lemma_indexed_at(nodes, nodes[i].id);
    assert(i == j);
    if has_id(nodes.take(i), nodes[i].id) {
        let k = choose|k: int|
            0 <= k < nodes.take(i).len() && #[trigger] nodes.take(i)[k].id == nodes[i].id;
        assert(nodes[k].id != nodes[i].id);
    }
}

proof fn lemma_next_listed(nodes: Seq<NodeModel>, i: int, x: NodeId, y: NodeId)
    requires
        unique_ids(nodes),
        0 <= i < nodes.len(),
    ensures
        listed(nodes, i, nodes[i].waits_on.len() as int, x, y) == listed(nodes, i + 1, 0, x, y),
{
    lemma_unique_index(nodes, i);
    let w = nodes[i].waits_on;
    assert(w.take(w.len() as int) =~= w);
    assert(nodes.take(i + 1)[i].id == nodes[i].id);
    if has_id(nodes.take(i), y) {
        let j = choose|j: int| 0 <= j < nodes.take(i).len() && #[trigger] nodes.take(i)[j].id == y;
        assert(nodes.take(i + 1)[j].id == y);
    } else if y != nodes[i].id {
        if has_id(nodes.take(i + 1), y) {
            let j = choose|j: int|
                0 <= j < nodes.take(i + 1).len() && #[trigger] nodes.take(i + 1)[j].id == y;
            assert(nodes.take(i)[j].id == y);
        }
    }
    if i + 1 < nodes.len() {
        assert(nodes[i + 1].waits_on.take(0) =~= Seq::empty());
    }
}

/// For each id, the nodes that wait on it.
fn dependents_of(schedule: &Schedule) -> (res: HashMap<NodeId, Vec<NodeId>>)
    requires
        unique_ids(schedule@.nodes),
    ensures
        forall|x: NodeId, y: NodeId|
            #[trigger] occurrences(waiting_for(res@, x), y) == if has_id(schedule@.nodes, y) {
                occurrences(index_model(schedule@.nodes)[y].waits_on, x)
            } else {
                0
            },
{
    broadcast use vstd::std_specs::hash::group_hash_axioms;

    let ghost nodes = schedule@.nodes;
    let mut res: HashMap<NodeId, Vec<NodeId>> = HashMap::new();
    proof {
        assert forall|x: NodeId, y: NodeId|
            #[trigger] occurrences(waiting_for(res@, x), y) == listed(nodes, 0, 0, x, y) by {
            if nodes.len() > 0 {
                assert(nodes[0].waits_on.take(0) =~= Seq::empty());
            }
        }
    }
    for i in 0..schedule.nodes.len()
        invariant
            nodes == schedule@.nodes,
            unique_ids(nodes),
            forall|x: NodeId, y: NodeId|
                #[trigger] occurrences(waiting_for(res@, x), y) == listed(nodes, i as int, 0, x, y),
    {
        let node: &Node = &schedule.nodes[i];
        assert(nodes[i as int] == node@);
        for k in 0..node.waits_on.len()
            invariant
                nodes == schedule@.nodes,
                unique_ids(nodes),
                0 <= i < nodes.len(),
                nodes[i as int] == node@,
                forall|x: NodeId, y: NodeId|
                    #[trigger] occurrences(waiting_for(res@, x), y) == listed(
                        nodes,
                        i as int,
                        k as int,
                        x,
                        y,
                    ),
        {
            let dep: NodeId = node.waits_on[k];
            let ghost before = res@;
            let mut list: Vec<NodeId> = match res.remove(&dep) {
                Some(list) => list,
                None => Vec::new(),
            };
            assert(list@ == waiting_for(before, dep));
            list.push(node.id);
            res.insert(dep, list);
            proof {
                lemma_unique_index(nodes, i as int);
                let w = node.waits_on@;
                assert(w.take(k + 1).drop_last() =~= w.take(k as int));
                assert forall|x: NodeId, y: NodeId|
                    #[trigger] occurrences(waiting_for(res@, x), y) == listed(
                        nodes,
                        i as int,
                        k + 1,
                        x,
                        y,
                    ) by {
                    assert(occurrences(waiting_for(before, x), y) == listed(
                        nodes,
                        i as int,
                        k as int,
                        x,
                        y,
                    ));
                    if x == dep {
                        let now = waiting_for(res@, x);
                        assert(now.drop_last() =~= waiting_for(before, x));
                    } else {
                        assert(waiting_for(res@, x) == waiting_for(before, x));
                    }
                }
            }
        }
        proof {
            assert forall|x: NodeId, y: NodeId|
                #[trigger] occurrences(waiting_for(res@, x), y) == listed(nodes, i + 1, 0, x, y) by {
                lemma_next_listed(nodes, i as int, x, y);
            }
        }
    }
    assert(nodes.take(nodes.len() as int) =~= nodes);
    res
}

/// What holds of the queue at any time: it holds the nodes with nothing left
/// to wait for, those before `head` in launch order, the others by id.
spec fn queueing(
    nodes: Seq<NodeModel>,
    degree: Map<NodeId, usize>,
    queue: Seq<NodeId>,
    head: int,
) -> bool {
    &&& degree.dom() == index_model(nodes).dom()
    &&& 0 <= head <= queue.len()
    &&& queue.no_duplicates()
    &&& ascends_from(queue, head)
    &&& forall|x: NodeId| #[trigger]
        queue.contains(x) <==> degree.dom().contains(x) && degree[x] == 0
    &&& forall|k: int| 0 <= k < head ==> least_ready(nodes, queue.take(k), #[trigger] queue[k])
}

/// Each node is left to wait for as many as have not been launched.
spec fn counted(nodes: Seq<NodeModel>, degree: Map<NodeId, usize>, launched: Seq<NodeId>) -> bool {
    forall|x: NodeId| #[trigger]
        degree.dom().contains(x) ==> degree[x] == open_waits(
            index_model(nodes)[x].waits_on,
            launched,
        )
}

proof fn lemma_ready_iff_counted(
    nodes: Seq<NodeModel>,
    degree: Map<NodeId, usize>,
    launched: Seq<NodeId>,
    x: NodeId,
)
    requires
        degree.dom() == index_model(nodes).dom(),
        counted(nodes, degree, launched),
    ensures
        ready(nodes, launched, x) <==> degree.dom().contains(x) && degree[x] == 0
            && !launched.contains(x),
{
    lemma_index_model(nodes);
    let g = id_graph(nodes);
    assert(degree.dom().contains(x) <==> has_id(nodes, x)) by {
        assert(index_model(nodes).dom().contains(x) <==> has_id(nodes, x));
    }
    if degree.dom().contains(x) {
        let w = index_model(nodes)[x].waits_on;
        lemma_no_open_waits(w, launched);
        if degree[x] == 0 {
            assert forall|b: NodeId| #[trigger] waits(g, x, b) implies launched.contains(b) by {
                let k = choose|k: int| 0 <= k < w.len() && w[k] == b;
                assert(launched.contains(w[k]));
            }
        }
        if ready(nodes, launched, x) {
            assert forall|k: int| 0 <= k < w.len() implies launched.contains(#[trigger] w[k]) by {
                assert(waits(g, x, w[k]));
            }
        }
    }
}

/// The head of the queue is the node to launch.
proof fn lemma_head_is_least(
    nodes: Seq<NodeModel>,
    degree: Map<NodeId, usize>,
    queue: Seq<NodeId>,
    head: int,
)
    requires
        queueing(nodes, degree, queue, head),
        counted(nodes, degree, queue.take(head)),
        head < queue.len(),
    ensures
        least_ready(nodes, queue.take(head), queue[head]),
{
    let launched = queue.take(head);
    let id = queue[head];
    assert(queue.contains(id));
    assert(!launched.contains(id)) by {
        if launched.contains(id) {
            let i = choose|i: int| 0 <= i < launched.len() && launched[i] == id;
            assert(queue[i] == queue[head]);
        }
    }
    lemma_ready_iff_counted(nodes, degree, launched, id);
    assert forall|other: NodeId| #[trigger] ready(nodes, launched, other) implies id <= other by {
        lemma_ready_iff_counted(nodes, degree, launched, other);
        assert(queue.contains(other));
        let i = choose|i: int| 0 <= i < queue.len() && queue[i] == other;
        if i < head {
            assert(launched[i] == other);
        } else if i > head {
            assert(queue[head] < queue[i]);
        }
    }
}

/// Notes that a node has been launched, with those that wait on it.
fn settle(
    waiting: &Vec<NodeId>,
    degree: &mut HashMap<NodeId, usize>,
    queue: &mut Vec<NodeId>,
    head: usize,
    Ghost(nodes): Ghost<Seq<NodeModel>>,
)
    requires
        0 < head,
        queueing(nodes, old(degree)@, old(queue)@, head as int),
        counted(nodes, old(degree)@, old(queue)@.take(head - 1)),
        !old(queue)@.take(head - 1).contains(old(queue)@[head - 1]),
        forall|y: NodeId|
            #[trigger] occurrences(waiting@, y) == if has_id(nodes, y) {
                occurrences(index_model(nodes)[y].waits_on, old(queue)@[head - 1])
            } else {
                0
            },
    ensures
        final(queue)@.take(head as int) == old(queue)@.take(head as int),
        queueing(nodes, final(degree)@, final(queue)@, head as int),
        counted(nodes, final(degree)@, final(queue)@.take(head as int)),
{
    broadcast use vstd::std_specs::hash::group_hash_axioms;

    let ghost x = queue@[head - 1];
    let ghost launched = queue@.take(head - 1);
    let ghost now = queue@.take(head as int);
    proof {
        lemma_index_model(nodes);
        assert(now =~= launched.push(x));
        assert(waiting@.take(0) =~= Seq::empty());
    }
    for j in 0..waiting.len()
        invariant
            0 < head,
            queueing(nodes, degree@, queue@, head as int),
            queue@.take(head as int) == now,
            now == launched.push(x),
            !launched.contains(x),
            forall|id: NodeId| #[trigger]
                index_model(nodes).dom().contains(id) <==> has_id(nodes, id),
            forall|y: NodeId|
                #[trigger] occurrences(waiting@, y) == if has_id(nodes, y) {
                    occurrences(index_model(nodes)[y].waits_on, x)
                } else {
                    0
                },
            forall|y: NodeId| #[trigger]
                degree@.dom().contains(y) ==> degree@[y] + occurrences(waiting@.take(j as int), y)
                    == open_waits(index_model(nodes)[y].waits_on, launched),
    {
        let y: NodeId = waiting[j];
        let ghost before = degree@;
        let ghost queued = queue@;
        proof {
            let next = waiting@.take(j + 1);
            assert(next.drop_last() =~= waiting@.take(j as int));
            lemma_occurrences_prefix(waiting@, j + 1, y);
            assert(has_id(nodes, y));
            assert(index_model(nodes).dom().contains(y));
            lemma_launching_closes(index_model(nodes)[y].waits_on, launched, x);
            assert(before.dom().contains(y));
            assert(before[y] > 0);
            assert(!queued.contains(y));
        }
        let left: usize = *degree.get(&y).unwrap() - 1;
        degree.insert(y, left);
        if left == 0 {
            enqueue(queue, head, y);
        }
        proof {
            assert(degree@.dom() =~= index_model(nodes).dom());
            assert forall|k: int| 0 <= k < head implies least_ready(
                nodes,
                queue@.take(k),
                #[trigger] queue@[k],
            ) by {
                assert(queue@.take(head as int)[k] == queued.take(head as int)[k]);
                assert(queue@.take(k) =~= queue@.take(head as int).take(k));
                assert(queued.take(k) =~= queued.take(head as int).take(k));
                assert(least_ready(nodes, queued.take(k), queued[k]));
            }
            assert forall|z: NodeId| #[trigger] queue@.contains(z) <==> degree@.dom().contains(z)
                && degree@[z] == 0 by {
                assert(queued.contains(z) <==> before.dom().contains(z) && before[z] == 0);
            }
            assert forall|z: NodeId| #[trigger] degree@.dom().contains(z) implies degree@[z]
                + occurrences(waiting@.take(j + 1), z) == open_waits(
                index_model(nodes)[z].waits_on,
                launched,
            ) by {
                assert(before.dom().contains(z));
                assert(waiting@.take(j + 1).drop_last() =~= waiting@.take(j as int));
            }
        }
    }
    proof {
        assert(waiting@.take(waiting@.len() as int) =~= waiting@);
        assert forall|y: NodeId| #[trigger] degree@.dom().contains(y) implies degree@[y]
            == open_waits(index_model(nodes)[y].waits_on, now) by {
            assert(index_model(nodes).dom().contains(y));
            lemma_launching_closes(index_model(nodes)[y].waits_on, launched, x);
        }
    }
}

/// The nodes that references point to.
pub open spec fn node_models(nodes: Seq<&Node>) -> Seq<NodeModel> {
    nodes.map_values(|n: &Node| n@)
}

/// These nodes, in this order.
pub open spec fn nodes_in_order(nodes: Seq<NodeModel>, order: Seq<NodeId>) -> Seq<NodeModel> {
    order.map_values(|id: NodeId| index_model(nodes)[id])
}

/// What each node has to wait for, and the nodes with nothing to wait for.
fn start_queue(schedule: &Schedule) -> (res: (HashMap<NodeId, usize>, Vec<NodeId>))
    requires
        unique_ids(schedule@.nodes),
    ensures
        queueing(schedule@.nodes, res.0@, res.1@, 0),
        counted(schedule@.nodes, res.0@, Seq::empty()),
{
    broadcast use vstd::std_specs::hash::group_hash_axioms;

    let ghost nodes = schedule@.nodes;
    let mut degree: HashMap<NodeId, usize> = HashMap::new();
    let mut queue: Vec<NodeId> = Vec::new();
    assert(degree@.dom() =~= index_model(nodes.take(0)).dom());
    for i in 0..schedule.nodes.len()
        invariant
            nodes == schedule@.nodes,
            unique_ids(nodes),
            degree@.dom() == index_model(nodes.take(i as int)).dom(),
            queue@.no_duplicates(),
            ascends_from(queue@, 0),
            forall|x: NodeId| #[trigger]
                queue@.contains(x) <==> degree@.dom().contains(x) && degree@[x] == 0,
            forall|x: NodeId| #[trigger]
                degree@.dom().contains(x) ==> degree@[x] == index_model(nodes)[x].waits_on.len(),
    {
        let node: &Node = &schedule.nodes[i];
        let ghost queued = queue@;
        let ghost before = degree@;
        proof {
            assert(nodes[i as int] == node@);
            lemma_unique_index(nodes, i as int);
            lemma_index_model(nodes.take(i as int));
            assert(!index_model(nodes.take(i as int)).dom().contains(node.id));
            assert(!queued.contains(node.id));
        }
        degree.insert(node.id, node.waits_on.len());
        if node.waits_on.len() == 0 {
            enqueue(&mut queue, 0, node.id);
        }
        proof {
            let next = nodes.take(i + 1);
            assert(next.drop_last() =~= nodes.take(i as int));
            assert(degree@.dom() =~= index_model(next).dom());
            assert forall|x: NodeId| #[trigger] queue@.contains(x) <==> degree@.dom().contains(x)
                && degree@[x] == 0 by {
                assert(queued.contains(x) <==> before.dom().contains(x) && before[x] == 0);
            }
        }
    }
    proof {
        assert(nodes.take(nodes.len() as int) =~= nodes);
        assert forall|x: NodeId| #[trigger] degree@.dom().contains(x) implies degree@[x]
            == open_waits(index_model(nodes)[x].waits_on, Seq::empty()) by {
            lemma_none_launched(index_model(nodes)[x].waits_on);
        }
    }
    (degree, queue)
}

/// Sorts the nodes of one level into launch order, unless they have none.
pub fn topo_sort(schedule: &Schedule) -> (res: Option<Vec<&Node>>)
    ensures
        res is Some <==> orderable(schedule@.nodes),
        res matches Some(sorted) ==> {
            &&& is_launch_order(schedule@.nodes, launch_order(schedule@.nodes))
            &&& node_models(sorted@) == nodes_in_order(
                schedule@.nodes,
                launch_order(schedule@.nodes),
            )
        },
{
    broadcast use vstd::std_specs::hash::group_hash_axioms;

    let ghost nodes = schedule@.nodes;
    let index = schedule.index();
    proof {
        lemma_unique_by_count(nodes);
        lemma_index_model(nodes);
        assert(index@.dom() == index_model(nodes).dom());
    }
    if index.len() != schedule.nodes.len() {
        return None;
    }
    let dependents = dependents_of(schedule);
    let (mut degree, mut queue) = start_queue(schedule);
    let none: Vec<NodeId> = Vec::new();
    let mut sorted: Vec<&Node> = Vec::new();
    let mut head: usize = 0;
    assert(queue@.take(0) =~= Seq::empty());
    assert(node_models(sorted@) =~= nodes_in_order(nodes, queue@.take(0)));
    while head < queue.len()
        invariant
            nodes == schedule@.nodes,
            indexes(index@, index_model(nodes)),
            index_model(nodes).dom().finite(),
            none@ == Seq::<NodeId>::empty(),
            forall|x: NodeId, y: NodeId|
                #[trigger] occurrences(waiting_for(dependents@, x), y) == if has_id(nodes, y) {
                    occurrences(index_model(nodes)[y].waits_on, x)
                } else {
                    0
                },
            queueing(nodes, degree@, queue@, head as int),
            counted(nodes, degree@, queue@.take(head as int)),
            node_models(sorted@) == nodes_in_order(nodes, queue@.take(head as int)),
        decreases nodes.len() - head,
    {
        let id: NodeId = queue[head];
        let ghost launched = queue@.take(head as int);
        proof {
            lemma_head_is_least(nodes, degree@, queue@, head as int);
            assert(queue@.contains(id));
            assert(index@.dom().contains(id));
            lemma_queue_fits(nodes, degree@, queue@);
            assert(queue@.take(head + 1) =~= launched.push(id));
        }
        let ghost queued = queue@;
        let node: &Node = index.get(&id).unwrap();
        let ghost before = node_models(sorted@);
        sorted.push(node);
        head = head + 1;
        assert(queue@.take(head - 1) == launched);
        let waiting: &Vec<NodeId> = match dependents.get(&id) {
            Some(list) => list,
            None => &none,
        };
        assert(waiting@ == waiting_for(dependents@, id));
        settle(waiting, &mut degree, &mut queue, head, Ghost(nodes));
        proof {
            assert(queue@.take(head as int) =~= queued.take(head as int));
            assert(node_models(sorted@) =~= before.push(node@));
            assert(node_models(sorted@) =~= nodes_in_order(nodes, queue@.take(head as int)));
        }
    }
    proof {
        assert(queue@.take(head as int) =~= queue@);
    }
    if sorted.len() != schedule.nodes.len() {
        proof {
            assert(sorted@.len() == node_models(sorted@).len());
            if orderable(nodes) {
                lemma_queue_complete(nodes, degree@, queue@);
            }
        }
        return None;
    }
    proof {
        assert(sorted@.len() == node_models(sorted@).len());
        assert(is_launch_order(nodes, queue@));
        lemma_launched_is_orderable(nodes, queue@);
        lemma_launch_order_unique(nodes, queue@, launch_order(nodes));
    }
    Some(sorted)
}

/// The queue never holds more ids than there are nodes.
proof fn lemma_queue_fits(nodes: Seq<NodeModel>, degree: Map<NodeId, usize>, queue: Seq<NodeId>)
    requires
        degree.dom() == index_model(nodes).dom(),
        queue.no_duplicates(),
        forall|x: NodeId| #[trigger]
            queue.contains(x) <==> degree.dom().contains(x) && degree[x] == 0,
    ensures
        queue.len() <= nodes.len(),
{
    lemma_unique_by_count(nodes);
    queue.unique_seq_to_set();
    assert(queue.to_set().subset_of(degree.dom())) by {
        assert forall|x: NodeId| #[trigger] queue.to_set().contains(x) implies degree.dom().contains(
            x,
        ) by {
            assert(queue.contains(x));
        }
    }
    vstd::set_lib::lemma_len_subset(queue.to_set(), degree.dom());
}

/// When the queue has run dry, orderable nodes have all been launched.
proof fn lemma_queue_complete(
    nodes: Seq<NodeModel>,
    degree: Map<NodeId, usize>,
    queue: Seq<NodeId>,
)
    requires
        orderable(nodes),
        queueing(nodes, degree, queue, queue.len() as int),
        counted(nodes, degree, queue),
    ensures
        queue.len() == nodes.len(),
{
    lemma_unique_by_count(nodes);
    lemma_index_model(nodes);
    queue.unique_seq_to_set();
    let ids = index_model(nodes).dom();
    assert forall|x: NodeId| ids.contains(x) implies #[trigger] queue.to_set().contains(x) by {
        if !queue.contains(x) {
            assert(has_id(nodes, x));
            lemma_never_stuck(nodes, queue, x);
            let other = choose|other: NodeId| ready(nodes, queue, other);
            lemma_ready_iff_counted(nodes, degree, queue, other);
        }
    }
    assert(ids.subset_of(queue.to_set()));
    vstd::set_lib::lemma_len_subset(ids, queue.to_set());
    lemma_queue_fits(nodes, degree, queue);
}

} // verus!
