//! Where nodes stand, by their places.
//!
//! The spot of a node is the place of the node of the outermost level that
//! holds it, then the place within that one, and so on down to its own. Unlike
//! ids, places tell the nodes of a level apart in any case.
use vstd::prelude::*;

use crate::graph::reaches;
use crate::ir::{flat, flat_node, flat_nodes, KindModel, NodeId, NodeModel, ScheduleModel};
use crate::rules::wait_graph;

verus! {

/// A node and its spot.
pub type Spotted = (Seq<int>, NodeModel);

/// A node that stands at `at`, then all that it holds.
pub open spec fn spot_node(node: NodeModel, at: Seq<int>) -> Seq<Spotted>
    decreases node,
{
    match node.kind {
        KindModel::Op(_) => seq![(at, node)],
        KindModel::SubSchedule(sub) => seq![(at, node)] + spot_nodes(sub.nodes, at),
    }
}

/// The nodes of a level that stands at `at`, each with all that it holds.
pub open spec fn spot_nodes(nodes: Seq<NodeModel>, at: Seq<int>) -> Seq<Spotted>
    decreases nodes,
{
    if nodes.len() == 0 {
        Seq::empty()
    } else {
        spot_nodes(nodes.drop_last(), at) + spot_node(
            nodes[nodes.len() - 1],
            at.push(nodes.len() - 1),
        )
    }
}

/// Every node of the schedule at every level, with its spot, in the order of
/// the listing.
pub open spec fn spots(s: ScheduleModel) -> Seq<Spotted> {
    spot_nodes(s.nodes, Seq::empty())
}

/// Following the spot from this level leads to the node.
pub open spec fn stands_at(nodes: Seq<NodeModel>, spot: Seq<int>, node: NodeModel) -> bool
    decreases spot.len(),
{
    &&& spot.len() > 0
    &&& 0 <= spot[0] < nodes.len()
    &&& if spot.len() == 1 {
        nodes[spot[0]] == node
    } else {
        match nodes[spot[0]].kind {
            KindModel::Op(_) => false,
            KindModel::SubSchedule(sub) => stands_at(sub.nodes, spot.skip(1), node),
        }
    }
}

/// The node at the first spot starts only after the one at the second has
/// finished: so it is said on the level where the spots part.
pub open spec fn waits_across(nodes: Seq<NodeModel>, p: Seq<int>, q: Seq<int>) -> bool
    decreases p.len(),
{
    if p.len() == 0 || q.len() == 0 {
        false
    } else if p[0] != q[0] {
        reaches(wait_graph(nodes), p[0], q[0])
    } else if 0 <= p[0] < nodes.len() {
        match nodes[p[0]].kind {
            KindModel::Op(_) => false,
            KindModel::SubSchedule(sub) => waits_across(sub.nodes, p.skip(1), q.skip(1)),
        }
    } else {
        false
    }
}

/// Of the nodes at these two spots, one must finish before the other starts.
pub open spec fn sequenced(nodes: Seq<NodeModel>, p: Seq<int>, q: Seq<int>) -> bool {
    waits_across(nodes, p, q) || waits_across(nodes, q, p)
}

/// What a level holds, one of its nodes is or holds.
pub proof fn lemma_spotted_from(nodes: Seq<NodeModel>, at: Seq<int>, e: Spotted) -> (i: int)
    requires
        spot_nodes(nodes, at).contains(e),
    ensures
        0 <= i < nodes.len(),
        spot_node(nodes[i], at.push(i)).contains(e),
    decreases nodes.len(),
{
    let last = nodes.len() - 1;
    let front = spot_nodes(nodes.drop_last(), at);
    let all = spot_nodes(nodes, at);
    let k = choose|k: int| 0 <= k < all.len() && all[k] == e;
    if k < front.len() {
        assert(front[k] == e);
        lemma_spotted_from(nodes.drop_last(), at, e)
    } else {
        assert(spot_node(nodes[last], at.push(last))[k - front.len()] == e);
        last
    }
}

/// What a node is or holds, its level holds.
pub proof fn lemma_spotted_in(nodes: Seq<NodeModel>, at: Seq<int>, i: int, e: Spotted)
    requires
        0 <= i < nodes.len(),
        spot_node(nodes[i], at.push(i)).contains(e),
    ensures
        spot_nodes(nodes, at).contains(e),
    decreases nodes.len(),
{
    let last = nodes.len() - 1;
    let front = spot_nodes(nodes.drop_last(), at);
    let all = spot_nodes(nodes, at);
    let own = spot_node(nodes[i], at.push(i));
    if i == last {
        let k = choose|k: int| 0 <= k < own.len() && own[k] == e;
        assert(all[front.len() + k] == e);
    } else {
        assert(nodes.drop_last()[i] == nodes[i]);
        lemma_spotted_in(nodes.drop_last(), at, i, e);
        let k = choose|k: int| 0 <= k < front.len() && front[k] == e;
        assert(all[k] == e);
    }
}

/// A node is itself or, where it is a schedule, holds what that holds.
pub proof fn lemma_node_spots(node: NodeModel, at: Seq<int>, e: Spotted)
    ensures
        spot_node(node, at).contains(e) <==> e == (at, node) || match node.kind {
            KindModel::Op(_) => false,
            KindModel::SubSchedule(sub) => spot_nodes(sub.nodes, at).contains(e),
        },
{
    let all = spot_node(node, at);
    assert(all[0] == (at, node));
    match node.kind {
        KindModel::Op(_) => {},
        KindModel::SubSchedule(sub) => {
            let inner = spot_nodes(sub.nodes, at);
            if all.contains(e) && e != (at, node) {
                let k = choose|k: int| 0 <= k < all.len() && all[k] == e;
                assert(inner[k - 1] == e);
            }
            if inner.contains(e) {
                let k = choose|k: int| 0 <= k < inner.len() && inner[k] == e;
                assert(all[k + 1] == e);
            }
        },
    }
}

/// The spot of what a node is or holds goes through the spot of the node.
pub proof fn lemma_spot_through(node: NodeModel, at: Seq<int>, e: Spotted)
    requires
        spot_node(node, at).contains(e),
    ensures
        e.0.len() >= at.len(),
        e.0.take(at.len() as int) == at,
        e == (at, node) || e.0.len() > at.len(),
    decreases node,
{
    lemma_node_spots(node, at, e);
    if e == (at, node) {
        assert(at.take(at.len() as int) =~= at);
    } else {
        match node.kind {
            KindModel::Op(_) => {},
            KindModel::SubSchedule(sub) => {
                let i = lemma_spotted_from(sub.nodes, at, e);
                lemma_spot_through(sub.nodes[i], at.push(i), e);
                let n = at.len() as int;
                assert(e.0.take(n) =~= e.0.take(n + 1).take(n));
                assert(at.push(i).take(n) =~= at);
            },
        }
    }
}

/// The place of a node of a level is in the spots of what it is or holds.
pub proof fn lemma_place_in_spot(node: NodeModel, at: Seq<int>, i: int, e: Spotted)
    requires
        spot_node(node, at.push(i)).contains(e),
    ensures
        e.0.len() > at.len(),
        e.0[at.len() as int] == i,
{
    lemma_spot_through(node, at.push(i), e);
    let n = at.len() as int;
    assert(e.0.take(n + 1)[n] == i);
}

pub proof fn lemma_spots_match(nodes: Seq<NodeModel>, at: Seq<int>, path: Seq<NodeId>)
    ensures
        spot_nodes(nodes, at).len() == flat_nodes(nodes, path).len(),
        forall|k: int|
            0 <= k < flat_nodes(nodes, path).len() ==> (#[trigger] spot_nodes(nodes, at)[k]).1
                == flat_nodes(nodes, path)[k].1,
    decreases nodes,
{
    if nodes.len() > 0 {
        let last = nodes[nodes.len() - 1];
        let (p, q) = (spot_nodes(nodes.drop_last(), at), flat_nodes(nodes.drop_last(), path));
        let (u, v) = (spot_node(last, at.push(nodes.len() - 1)), flat_node(last, path));
        lemma_spots_match(nodes.drop_last(), at, path);
        lemma_node_spots_match(last, at.push(nodes.len() - 1), path);
        assert forall|k: int| 0 <= k < (q + v).len() implies (#[trigger] (p + u)[k]).1 == (q
            + v)[k].1 by {
            if k < p.len() {
                assert((p + u)[k] == p[k] && (q + v)[k] == q[k]);
            } else {
                assert((p + u)[k] == u[k - p.len()] && (q + v)[k] == v[k - q.len()]);
            }
        }
    }
}

pub proof fn lemma_node_spots_match(node: NodeModel, at: Seq<int>, path: Seq<NodeId>)
    ensures
        spot_node(node, at).len() == flat_node(node, path).len(),
        forall|k: int|
            0 <= k < flat_node(node, path).len() ==> (#[trigger] spot_node(node, at)[k]).1
                == flat_node(node, path)[k].1,
    decreases node,
{
    match node.kind {
        KindModel::Op(_) => {},
        KindModel::SubSchedule(sub) => {
            let (p, q) = (spot_nodes(sub.nodes, at), flat_nodes(sub.nodes, path.push(node.id)));
            lemma_spots_match(sub.nodes, at, path.push(node.id));
            assert forall|k: int| 0 <= k < flat_node(node, path).len() implies (
            #[trigger] spot_node(node, at)[k]).1 == flat_node(node, path)[k].1 by {
                if k > 0 {
                    assert(spot_node(node, at)[k] == p[k - 1]);
                    assert(flat_node(node, path)[k] == q[k - 1]);
                }
            }
        },
    }
}

/// A nested level lists the same nodes wherever it stands.
pub proof fn lemma_nested_spots_match(sub: ScheduleModel, at: Seq<int>)
    ensures
        spot_nodes(sub.nodes, at).len() == flat(sub).len(),
        forall|k: int|
            0 <= k < flat(sub).len() ==> (#[trigger] spot_nodes(sub.nodes, at)[k]).1
                == flat(sub)[k].1,
{
    lemma_spots_match(sub.nodes, at, Seq::empty());
}

/// There is one spot for each entry of the listing, that of the same node.
pub proof fn spots_match_the_listing(s: ScheduleModel)
    ensures
        spots(s).len() == flat(s).len(),
        forall|k: int| 0 <= k < flat(s).len() ==> (#[trigger] spots(s)[k]).1 == flat(s)[k].1,
{
    lemma_spots_match(s.nodes, Seq::empty(), Seq::empty());
}

proof fn lemma_spot_leads(nodes: Seq<NodeModel>, at: Seq<int>, e: Spotted)
    requires
        spot_nodes(nodes, at).contains(e),
    ensures
        stands_at(nodes, e.0.skip(at.len() as int), e.1),
    decreases nodes,
{
    let n = at.len() as int;
    let i = lemma_spotted_from(nodes, at, e);
    lemma_place_in_spot(nodes[i], at, i, e);
    lemma_node_spots(nodes[i], at.push(i), e);
    let rest = e.0.skip(n);
    assert(rest[0] == i);
    if e == (at.push(i), nodes[i]) {
        assert(rest.len() == 1);
    } else {
        match nodes[i].kind {
            KindModel::Op(_) => {},
            KindModel::SubSchedule(sub) => {
                lemma_spot_leads(sub.nodes, at.push(i), e);
                lemma_spot_through(nodes[i], at.push(i), e);
                assert(rest.skip(1) =~= e.0.skip(n + 1));
            },
        }
    }
}

/// Following a spot leads to the node whose spot it is.
pub proof fn spots_lead_to_their_nodes(s: ScheduleModel, k: int)
    requires
        0 <= k < spots(s).len(),
    ensures
        stands_at(s.nodes, spots(s)[k].0, spots(s)[k].1),
{
    lemma_spot_leads(s.nodes, Seq::empty(), spots(s)[k]);
    assert(spots(s)[k].0.skip(0) =~= spots(s)[k].0);
}

proof fn lemma_spots_differ(nodes: Seq<NodeModel>, at: Seq<int>, i: int, j: int)
    requires
        0 <= i < j < spot_nodes(nodes, at).len(),
    ensures
        spot_nodes(nodes, at)[i].0 != spot_nodes(nodes, at)[j].0,
    decreases nodes,
{
    let all = spot_nodes(nodes, at);
    let front = spot_nodes(nodes.drop_last(), at);
    let n = nodes.len() - 1;
    let last = nodes[n];
    let back = spot_node(last, at.push(n));
    if j < front.len() {
        assert(all[i] == front[i] && all[j] == front[j]);
        lemma_spots_differ(nodes.drop_last(), at, i, j);
    } else {
        assert(all[j] == back[j - front.len()]);
        assert(back.contains(all[j]));
        lemma_place_in_spot(last, at, n, all[j]);
        if i < front.len() {
            assert(all[i] == front[i]);
            assert(front.contains(all[i]));
            let a = lemma_spotted_from(nodes.drop_last(), at, all[i]);
            lemma_place_in_spot(nodes.drop_last()[a], at, a, all[i]);
        } else {
            assert(all[i] == back[i - front.len()]);
            match last.kind {
                KindModel::Op(_) => {},
                KindModel::SubSchedule(sub) => {
                    let inner = spot_nodes(sub.nodes, at.push(n));
                    assert(all[j] == inner[j - front.len() - 1]);
                    assert(inner.contains(all[j]));
                    if i == front.len() {
                        let a = lemma_spotted_from(sub.nodes, at.push(n), all[j]);
                        lemma_place_in_spot(sub.nodes[a], at.push(n), a, all[j]);
                        assert(all[i] == (at.push(n), last));
                    } else {
                        assert(all[i] == inner[i - front.len() - 1]);
                        lemma_spots_differ(
                            sub.nodes,
                            at.push(n),
                            i - front.len() - 1,
                            j - front.len() - 1,
                        );
                    }
                },
            }
        }
    }
}

/// No two nodes of a schedule have the same spot, however deep they are nested
/// and whatever their ids.
pub proof fn spots_are_unique(s: ScheduleModel, i: int, j: int)
    requires
        0 <= i < spots(s).len(),
        0 <= j < spots(s).len(),
        i != j,
    ensures
        spots(s)[i].0 != spots(s)[j].0,
{
    if i < j {
        lemma_spots_differ(s.nodes, Seq::empty(), i, j);
    } else {
        lemma_spots_differ(s.nodes, Seq::empty(), j, i);
    }
}

proof fn lemma_spot_is_listed(nodes: Seq<NodeModel>, at: Seq<int>, spot: Seq<int>, node: NodeModel)
    requires
        stands_at(nodes, spot, node),
    ensures
        spot_nodes(nodes, at).contains((at + spot, node)),
    decreases spot.len(),
{
    let i = spot[0];
    let e = (at + spot, node);
    lemma_node_spots(nodes[i], at.push(i), e);
    if spot.len() == 1 {
        assert(at + spot =~= at.push(i));
    } else {
        match nodes[i].kind {
            KindModel::Op(_) => {},
            KindModel::SubSchedule(sub) => {
                lemma_spot_is_listed(sub.nodes, at.push(i), spot.skip(1), node);
                assert(at.push(i) + spot.skip(1) =~= at + spot);
            },
        }
    }
    lemma_spotted_in(nodes, at, i, e);
}

/// Every node that a spot leads to is listed with that spot.
pub proof fn every_spot_is_listed(s: ScheduleModel, spot: Seq<int>, node: NodeModel)
    requires
        stands_at(s.nodes, spot, node),
    ensures
        spots(s).contains((spot, node)),
{
    lemma_spot_is_listed(s.nodes, Seq::empty(), spot, node);
    assert(Seq::<int>::empty() + spot =~= spot);
}

} // verus!
