//! Reports on schedules that are not certifiable: they are true, and there
//! always is one.
use vstd::prelude::*;

use crate::graph::{
    acyclic, blocked_at, closes_cycle, deadlocked, first_deadlocked_wait,
    lemma_closes_cycle_reaches_itself, lemma_deadlock_passes_on, lemma_reaches_closed, reaches,
    trails_to, WaitGraph,
};
use crate::ir::{KindModel, NodeModel, ScheduleModel};
use crate::rules::{
    certifiable, dangles, first_dangling, first_race_at, first_sm_conflict, first_uncertifiable,
    lemma_wait_graph, level_rejects, level_safe, node_certifiable, node_rejects, node_touches,
    queues_consistent, race_at, race_between, race_found, rejects, sm_conflict, wait_graph,
    waits_resolve, ErrorModel,
};

verus! {

proof fn lemma_level_report_is_true(nodes: Seq<NodeModel>, e: ErrorModel)
    requires
        level_rejects(nodes, e),
    ensures
        !level_safe(nodes),
{
    reveal(level_safe);
    reveal(level_rejects);
}

/// Only schedules that are not certifiable are reported on.
pub proof fn reports_are_true(s: ScheduleModel, e: ErrorModel)
    requires
        rejects(s, e),
    ensures
        !certifiable(s),
{
    if forall|i: int| 0 <= i < s.nodes.len() ==> node_certifiable(#[trigger] s.nodes[i]) {
        lemma_level_report_is_true(s.nodes, e);
    }
}

/// The first pair, by rows, at which a relation holds.
proof fn lemma_first_pair(p: spec_fn(int, int) -> bool, i: int, j: int) -> (first: (int, int))
    requires
        p(i, j),
        forall|a: int, b: int| #[trigger] p(a, b) ==> a >= 0 && b >= 0,
    ensures
        p(first.0, first.1),
        forall|a: int, b: int|
            #[trigger] p(a, b) ==> first.0 < a || (first.0 == a && first.1 <= b),
    decreases i, j,
{
    if exists|a: int, b: int| #[trigger] p(a, b) && (a < i || (a == i && b < j)) {
        let (a, b) = choose|a: int, b: int| #[trigger] p(a, b) && (a < i || (a == i && b < j));
        lemma_first_pair(p, a, b)
    } else {
        (i, j)
    }
}

/// The first index at which a predicate holds.
proof fn lemma_first_index(p: spec_fn(int) -> bool, i: int) -> (first: int)
    requires
        p(i),
        forall|a: int| #[trigger] p(a) ==> a >= 0,
    ensures
        p(first),
        forall|a: int| #[trigger] p(a) ==> first <= a,
    decreases i,
{
    if exists|a: int| #[trigger] p(a) && a < i {
        let a = choose|a: int| #[trigger] p(a) && a < i;
        lemma_first_index(p, a)
    } else {
        i
    }
}

/// The first wait of a deadlocked node that is deadlocked too.
proof fn lemma_first_deadlocked_wait(g: WaitGraph<int>, a: int) -> (b: int)
    requires
        deadlocked(g, a),
    ensures
        first_deadlocked_wait(g, a, b),
        deadlocked(g, b),
        g.dom().contains(a),
{
    let c = lemma_deadlock_passes_on(g, a);
    let k = choose|k: int| 0 <= k < g[a].len() && g[a][k] == c;
    let p = |k: int| 0 <= k < g[a].len() && deadlocked(g, g[a][k]);
    assert(p(k));
    let first = lemma_first_index(p, k);
    assert forall|j: int| 0 <= j < first implies !deadlocked(g, #[trigger] g[a][j]) by {
        assert(!p(j));
    }
    assert(blocked_at(g, a, first));
    g[a][first]
}

/// All are deadlocked, and each is followed by its first deadlocked wait.
spec fn is_trail(g: WaitGraph<int>, trail: Seq<int>) -> bool {
    &&& forall|i: int| 0 <= i < trail.len() ==> deadlocked(g, #[trigger] trail[i])
    &&& forall|i: int| 0 <= i < trail.len() - 1 ==> #[trigger] trail_step(g, trail, i)
}

spec fn trail_step(g: WaitGraph<int>, trail: Seq<int>, i: int) -> bool {
    first_deadlocked_wait(g, trail[i], trail[i + 1])
}

proof fn lemma_trail_of(g: WaitGraph<int>, a: int, n: nat) -> (trail: Seq<int>)
    requires
        deadlocked(g, a),
    ensures
        is_trail(g, trail),
        trail.len() == n + 1,
    decreases n,
{
    if n == 0 {
        seq![a]
    } else {
        let before = lemma_trail_of(g, a, (n - 1) as nat);
        let b = lemma_first_deadlocked_wait(g, before.last());
        let trail = before.push(b);
        assert forall|i: int| 0 <= i < trail.len() implies deadlocked(g, #[trigger] trail[i]) by {
            if i < before.len() {
                assert(deadlocked(g, before[i]));
            }
        }
        assert forall|i: int| 0 <= i < trail.len() - 1 implies #[trigger] trail_step(
            g,
            trail,
            i,
        ) by {
            if i < before.len() - 1 {
                assert(trail_step(g, before, i));
            }
        }
        trail
    }
}

proof fn lemma_trail_trails(g: WaitGraph<int>, trail: Seq<int>, i: int, j: int)
    requires
        is_trail(g, trail),
        0 <= i < j < trail.len(),
    ensures
        trails_to(g, trail[i], trail[j], (j - i - 1) as nat),
    decreases j - i,
{
    assert(trail_step(g, trail, i));
    if i + 1 < j {
        lemma_trail_trails(g, trail, i + 1, j);
    }
}

/// Where there is a cycle, there is a node at which it is reported.
proof fn lemma_cycle_is_found(g: WaitGraph<int>) -> (at: int)
    requires
        !acyclic(g),
        g.dom().finite(),
    ensures
        closes_cycle(g, at),
{
    let a = choose|a: int| #[trigger] reaches(g, a, a);
    assert(deadlocked(g, a));
    let trail = lemma_trail_of(g, a, g.dom().len());
    if trail.no_duplicates() {
        trail.unique_seq_to_set();
        assert(trail.to_set().subset_of(g.dom())) by {
            assert forall|x: int| #[trigger] trail.to_set().contains(x) implies g.dom().contains(
                x,
            ) by {
                let i = choose|i: int| 0 <= i < trail.len() && trail[i] == x;
                assert(deadlocked(g, trail[i]));
                let b = lemma_first_deadlocked_wait(g, x);
            }
        }
        vstd::set_lib::lemma_len_subset(trail.to_set(), g.dom());
    }
    let (i, j) = choose|i: int, j: int|
        0 <= i < trail.len() && 0 <= j < trail.len() && i != j && trail[i] == trail[j];
    let (i, j) = if i < j {
        (i, j)
    } else {
        (j, i)
    };
    lemma_trail_trails(g, trail, i, j);
    trail[i]
}

proof fn lemma_level_has_report(nodes: Seq<NodeModel>) -> (e: ErrorModel)
    requires
        !level_safe(nodes),
    ensures
        level_rejects(nodes, e),
{
    reveal(level_safe);
    reveal(level_rejects);
    if !waits_resolve(nodes) {
        let (i, k) = choose|i: int, k: int| #[trigger] dangles(nodes, i, k);
        let p = |i: int, k: int| dangles(nodes, i, k);
        assert(p(i, k));
        let (i, k) = lemma_first_pair(p, i, k);
        assert(first_dangling(nodes, i, k)) by {
            assert forall|a: int, b: int| #[trigger] dangles(nodes, a, b) implies i < a || (i == a
                && k <= b) by {
                assert(p(a, b));
            }
        }
        ErrorModel::DanglingWait(nodes[i].id, nodes[i].waits_on[k])
    } else if !acyclic(wait_graph(nodes)) {
        let g = wait_graph(nodes);
        lemma_wait_graph(nodes);
        let at = lemma_cycle_is_found(g);
        lemma_closes_cycle_reaches_itself(g, at);
        lemma_reaches_closed(g, at, at);
        ErrorModel::Cycle(nodes[at].id)
    } else if !queues_consistent(nodes) {
        let (i, j) = choose|i: int, j: int| #[trigger] sm_conflict(nodes, i, j);
        let sm = nodes[i].sm;
        let p = |i: int, j: int| sm_conflict(nodes, i, j) && nodes[i].sm == sm;
        assert(p(i, j));
        let (i, j) = lemma_first_pair(p, i, j);
        assert(first_sm_conflict(nodes, i, j)) by {
            assert forall|a: int, b: int| #[trigger]
                sm_conflict(nodes, a, b) && nodes[a].sm == nodes[i].sm implies i < a || (i == a && j
                <= b) by {
                assert(p(a, b));
            }
        }
        ErrorModel::SmOrderConflict { sm, a: nodes[i].id, b: nodes[j].id }
    } else {
        let (i, j) = choose|i: int, j: int| #[trigger] race_between(nodes, i, j);
        let k = choose|k: int| race_at(nodes[i], nodes[j], k);
        let p = |k: int| race_at(nodes[i], nodes[j], k);
        assert(p(k));
        let k = lemma_first_index(p, k);
        assert(first_race_at(nodes[i], nodes[j], k)) by {
            assert forall|l: int| #[trigger] race_at(nodes[i], nodes[j], l) implies k <= l by {
                assert(p(l));
            }
        }
        assert(race_found(nodes, i, j, k));
        let t = node_touches(nodes[i])[k];
        ErrorModel::Race { a: nodes[i].id, b: nodes[j].id, tensor: t.name, space: t.space }
    }
}

/// Every schedule that is not certifiable can be reported on.
pub proof fn failures_are_reported(s: ScheduleModel)
    requires
        !certifiable(s),
    ensures
        exists|e: ErrorModel| rejects(s, e),
    decreases s,
{
    if forall|i: int| 0 <= i < s.nodes.len() ==> node_certifiable(#[trigger] s.nodes[i]) {
        let e = lemma_level_has_report(s.nodes);
        assert(rejects(s, e));
    } else {
        let i = choose|i: int| 0 <= i < s.nodes.len() && !node_certifiable(#[trigger] s.nodes[i]);
        let p = |i: int| 0 <= i < s.nodes.len() && !node_certifiable(s.nodes[i]);
        assert(p(i));
        let i = lemma_first_index(p, i);
        assert(p(i));
        assert(first_uncertifiable(s.nodes, i)) by {
            assert forall|j: int| 0 <= j < i implies node_certifiable(#[trigger] s.nodes[j]) by {
                assert(!p(j));
            }
        }
        match s.nodes[i].kind {
            KindModel::SubSchedule(sub) => {
                failures_are_reported(*sub);
                let inner = choose|e: ErrorModel| rejects(*sub, e);
                let e = ErrorModel::NestedFailure(sub.name, Box::new(inner));
                assert(node_rejects(s.nodes[i], e));
                assert(rejects(s, e));
            },
            KindModel::Op(_) => {},
        }
    }
}

} // verus!
