//! Depth-first search of a wait graph: finding cycles, and all that each
//! node waits on.
use std::collections::{HashMap, HashSet};
use vstd::prelude::*;

use crate::graph::{
    acyclic, blocked_at, closed, closes_cycle, deadlocked, first_deadlocked_wait,
    lemma_acyclic_iff_none_deadlocked, lemma_closes_cycle_reaches_itself, lemma_deadlock_passes_on,
    lemma_reach_set_shrinks, lemma_reaches_first, lemma_reaches_transitive, lemma_wait_reaches,
    reach_set, reaches, trails_to, waits, WaitGraph,
};
use crate::ir::{NodeId, NodeModel, Schedule};
use crate::rules::{lemma_wait_graph, named, reports_cycle, wait_graph, wait_places, ErrorModel};

verus! {

/// Places in a list, as numbers.
spec fn numbers(list: Seq<usize>) -> Seq<int> {
    list.map_values(|x: usize| x as int)
}

/// The wait graph that lists of places stand for.
spec fn graph_of(lists: Seq<Vec<usize>>) -> WaitGraph<int> {
    Map::new(|i: int| 0 <= i < lists.len(), |i: int| numbers(lists[i]@))
}

/// The table holds, for each id, the place of the node that it stands for.
spec fn names_places(nodes: Seq<NodeModel>, table: Map<NodeId, usize>) -> bool {
    forall|id: NodeId|
        (match #[trigger] named(nodes, id) {
            Some(j) => table.dom().contains(id) && table[id] == j,
            None => !table.dom().contains(id),
        })
}

/// For each id of one level, the place of the node that it stands for.
fn place_index(schedule: &Schedule) -> (res: HashMap<NodeId, usize>)
    ensures
        names_places(schedule@.nodes, res@),
{
    broadcast use vstd::std_specs::hash::group_hash_axioms;

    let ghost nodes = schedule@.nodes;
    let mut res: HashMap<NodeId, usize> = HashMap::new();
    for i in 0..schedule.nodes.len()
        invariant
            nodes == schedule@.nodes,
            names_places(nodes.take(i as int), res@),
    {
        assert(nodes[i as int].id == schedule.nodes@[i as int].id);
        res.insert(schedule.nodes[i].id, i);
        proof {
            let next = nodes.take(i + 1);
            assert(next.drop_last() =~= nodes.take(i as int));
            assert forall|id: NodeId|
                (match #[trigger] named(next, id) {
                    Some(j) => res@.dom().contains(id) && res@[id] == j,
                    None => !res@.dom().contains(id),
                }) by {
                let earlier = named(nodes.take(i as int), id);
                assert(next.last() == nodes[i as int]);
            }
        }
    }
    assert(nodes.take(nodes.len() as int) =~= nodes);
    res
}

/// For each node of one level, the places of the nodes that it waits on.
fn wait_lists(schedule: &Schedule) -> (res: Vec<Vec<usize>>)
    ensures
        res@.len() == schedule@.nodes.len(),
        graph_of(res@) == wait_graph(schedule@.nodes),
{
    broadcast use vstd::std_specs::hash::group_hash_axioms;

    let ghost nodes = schedule@.nodes;
    let index = place_index(schedule);
    let mut res: Vec<Vec<usize>> = Vec::new();
    for i in 0..schedule.nodes.len()
        invariant
            nodes == schedule@.nodes,
            names_places(nodes, index@),
            res@.len() == i,
            forall|j: int|
                0 <= j < i ==> numbers(#[trigger] res@[j]@) == wait_places(
                    nodes,
                    nodes[j].waits_on,
                ),
    {
        let ids: &Vec<NodeId> = &schedule.nodes[i].waits_on;
        assert(nodes[i as int].waits_on == ids@);
        let mut list: Vec<usize> = Vec::new();
        assert(numbers(list@) =~= wait_places(nodes, ids@.take(0)));
        for k in 0..ids.len()
            invariant
                names_places(nodes, index@),
                numbers(list@) == wait_places(nodes, ids@.take(k as int)),
        {
            let ghost before = numbers(list@);
            let id: NodeId = ids[k];
            assert(match named(nodes, id) {
                Some(j) => index@.dom().contains(id) && index@[id] == j,
                None => !index@.dom().contains(id),
            });
            assert(ids@.take(k + 1).drop_last() =~= ids@.take(k as int));
            if let Some(place) = index.get(&id) {
                list.push(*place);
                assert(numbers(list@) =~= before + seq![*place as int]);
            } else {
                assert(before + Seq::<int>::empty() =~= before);
            }
        }
        assert(ids@.take(ids@.len() as int) =~= ids@);
        res.push(list);
    }
    assert(graph_of(res@) =~= wait_graph(nodes));
    res
}

#[derive(Clone, Copy, PartialEq, Eq, Structural)]
enum Color {
    /// Not seen yet.
    White,
    /// On the trail from where the search began to where it is.
    Gray,
    /// Left behind, with all that it waits on.
    Black,
}

/// `b` is in the list of `a`, and the search has left behind all that precede it there.
spec fn next_on_trail(g: WaitGraph<int>, color: Seq<Color>, a: int, b: int) -> bool {
    &&& g.dom().contains(a)
    &&& exists|k: int| #[trigger] cleared_up_to(g, color, a, k) && g[a][k] == b
}

spec fn cleared_up_to(g: WaitGraph<int>, color: Seq<Color>, a: int, k: int) -> bool {
    &&& 0 <= k < g[a].len()
    &&& forall|j: int| 0 <= j < k ==> left_behind(color, #[trigger] g[a][j])
}

/// The search is done with this node.
spec fn left_behind(color: Seq<Color>, x: int) -> bool {
    0 <= x < color.len() && color[x] == Color::Black
}

spec fn trail_step(g: WaitGraph<int>, color: Seq<Color>, trail: Seq<int>, i: int) -> bool {
    next_on_trail(g, color, trail[i], trail[i + 1])
}

/// What holds between two steps of the search.
spec fn searching(g: WaitGraph<int>, color: Seq<Color>, trail: Seq<int>) -> bool {
    &&& forall|x: int| #[trigger] g.dom().contains(x) <==> 0 <= x < color.len()
    &&& forall|x: int| #[trigger] trail.contains(x) ==> 0 <= x < color.len()
    &&& forall|x: int|
        0 <= x < color.len() ==> (#[trigger] color[x] == Color::Gray <==> trail.contains(x))
    &&& forall|x: int| #[trigger] left_behind(color, x) ==> !deadlocked(g, x)
    &&& forall|i: int| 0 <= i < trail.len() - 1 ==> #[trigger] trail_step(g, color, trail, i)
}

/// The nodes that have not been seen yet.
spec fn white(g: WaitGraph<int>, color: Seq<Color>) -> Set<int> {
    g.dom().filter(|x: int| color[x] == Color::White)
}

/// Leaving `a` on the trail towards `b` stays right as more nodes are left behind.
proof fn lemma_next_on_trail_kept(
    g: WaitGraph<int>,
    before: Seq<Color>,
    after: Seq<Color>,
    a: int,
    b: int,
)
    requires
        next_on_trail(g, before, a, b),
        forall|x: int| #[trigger] left_behind(before, x) ==> left_behind(after, x),
    ensures
        next_on_trail(g, after, a, b),
{
    let k = choose|k: int| #[trigger] cleared_up_to(g, before, a, k) && g[a][k] == b;
    assert forall|j: int| 0 <= j < k implies left_behind(after, #[trigger] g[a][j]) by {
        assert(left_behind(before, g[a][j]));
    }
    assert(cleared_up_to(g, after, a, k));
}

proof fn lemma_trail_kept(
    g: WaitGraph<int>,
    before: Seq<Color>,
    after: Seq<Color>,
    trail: Seq<int>,
)
    requires
        forall|i: int| 0 <= i < trail.len() - 1 ==> #[trigger] trail_step(g, before, trail, i),
        forall|x: int| #[trigger] left_behind(before, x) ==> left_behind(after, x),
    ensures
        forall|i: int| 0 <= i < trail.len() - 1 ==> #[trigger] trail_step(g, after, trail, i),
{
    assert forall|i: int| 0 <= i < trail.len() - 1 implies #[trigger] trail_step(
        g,
        after,
        trail,
        i,
    ) by {
        assert(trail_step(g, before, trail, i));
        lemma_next_on_trail_kept(g, before, after, trail[i], trail[i + 1]);
    }
}

/// Every node on the trail waits on the node that the trail leads to.
proof fn lemma_trail_reaches(
    g: WaitGraph<int>,
    color: Seq<Color>,
    trail: Seq<int>,
    id: int,
    i: int,
)
    requires
        0 <= i < trail.len(),
        forall|j: int| 0 <= j < trail.len() - 1 ==> #[trigger] trail_step(g, color, trail, j),
        next_on_trail(g, color, trail.last(), id),
    ensures
        reaches(g, trail[i], id),
    decreases trail.len() - i,
{
    let b = if i == trail.len() - 1 {
        id
    } else {
        assert(trail_step(g, color, trail, i));
        trail[i + 1]
    };
    assert(next_on_trail(g, color, trail[i], b));
    let k = choose|k: int| #[trigger] cleared_up_to(g, color, trail[i], k) && g[trail[i]][k] == b;
    assert(waits(g, trail[i], b));
    lemma_wait_reaches(g, trail[i], b);
    if i < trail.len() - 1 {
        lemma_trail_reaches(g, color, trail, id, i + 1);
        lemma_reaches_transitive(g, trail[i], b, id);
    }
}

/// Where the trail runs through deadlocked nodes only, it takes the first
/// deadlocked wait of each.
proof fn lemma_trail_is_first(
    g: WaitGraph<int>,
    color: Seq<Color>,
    trail: Seq<int>,
    id: int,
    i: int,
)
    requires
        searching(g, color, trail),
        0 <= i < trail.len(),
        next_on_trail(g, color, trail.last(), id),
        deadlocked(g, id),
        forall|j: int| i <= j < trail.len() ==> deadlocked(g, #[trigger] trail[j]),
    ensures
        trails_to(g, trail[i], id, (trail.len() - 1 - i) as nat),
    decreases trail.len() - i,
{
    let a = trail[i];
    let b = if i == trail.len() - 1 {
        id
    } else {
        assert(trail_step(g, color, trail, i));
        trail[i + 1]
    };
    assert(next_on_trail(g, color, a, b));
    let k = choose|k: int| #[trigger] cleared_up_to(g, color, a, k) && g[a][k] == b;
    assert forall|j: int| 0 <= j < k implies !deadlocked(g, #[trigger] g[a][j]) by {
        assert(left_behind(color, g[a][j]));
    }
    assert(blocked_at(g, a, k));
    assert(first_deadlocked_wait(g, a, b));
    if i < trail.len() - 1 {
        lemma_trail_is_first(g, color, trail, id, i + 1);
    }
}

/// Coming upon a node of the trail closes a cycle there.
proof fn lemma_back_on_trail(
    g: WaitGraph<int>,
    color: Seq<Color>,
    trail: Seq<int>,
    id: int,
)
    requires
        searching(g, color, trail),
        trail.contains(id),
        next_on_trail(g, color, trail.last(), id),
    ensures
        closes_cycle(g, id),
{
    let j = choose|j: int| 0 <= j < trail.len() && trail[j] == id;
    assert forall|i: int| j <= i < trail.len() implies deadlocked(g, #[trigger] trail[i]) by {
        lemma_trail_reaches(g, color, trail, id, j);
        lemma_trail_reaches(g, color, trail, id, i);
    }
    assert(deadlocked(g, trail[j]));
    lemma_trail_is_first(g, color, trail, id, j);
}

/// Putting `id` at the end of the trail.
proof fn lemma_onto_trail(g: WaitGraph<int>, before: Seq<Color>, trail: Seq<int>, id: int)
    requires
        searching(g, before, trail),
        trail.len() > 0 ==> next_on_trail(g, before, trail.last(), id),
        0 <= id < before.len(),
        before[id] == Color::White,
    ensures
        searching(g, before.update(id, Color::Gray), trail.push(id)),
{
    let after = before.update(id, Color::Gray);
    let inner = trail.push(id);
    assert forall|x: int| #[trigger] left_behind(before, x) implies left_behind(after, x) by {
    }
    assert forall|x: int| #[trigger] left_behind(after, x) implies !deadlocked(g, x) by {
        assert(left_behind(before, x));
    }
    assert forall|x: int| #[trigger] inner.contains(x) implies 0 <= x < after.len() by {
        let i = choose|i: int| 0 <= i < inner.len() && inner[i] == x;
        if i < trail.len() {
            assert(trail[i] == x);
            assert(trail.contains(x));
        }
    }
    assert forall|x: int| 0 <= x < after.len() implies (#[trigger] after[x] == Color::Gray
        <==> inner.contains(x)) by {
        assert(before[x] == Color::Gray <==> trail.contains(x));
        if trail.contains(x) {
            let i = choose|i: int| 0 <= i < trail.len() && trail[i] == x;
            assert(inner[i] == x);
        }
        if inner.contains(x) && x != id {
            let i = choose|i: int| 0 <= i < inner.len() && inner[i] == x;
            assert(trail[i] == x);
        }
        assert(inner[trail.len() as int] == id);
    }
    lemma_trail_kept(g, before, after, trail);
    assert forall|i: int| 0 <= i < inner.len() - 1 implies #[trigger] trail_step(
        g,
        after,
        inner,
        i,
    ) by {
        if i < trail.len() - 1 {
            assert(trail_step(g, after, trail, i));
        } else {
            lemma_next_on_trail_kept(g, before, after, trail.last(), id);
        }
    }
}

/// Leaving behind the end of the trail, which waits on nothing deadlocked.
proof fn lemma_off_trail(g: WaitGraph<int>, before: Seq<Color>, trail: Seq<int>, id: int)
    requires
        searching(g, before, trail.push(id)),
        0 <= id < before.len(),
        !trail.contains(id),
        !deadlocked(g, id),
    ensures
        searching(g, before.update(id, Color::Black), trail),
{
    let after = before.update(id, Color::Black);
    let inner = trail.push(id);
    assert forall|x: int| #[trigger] left_behind(before, x) implies left_behind(after, x) by {
    }
    assert forall|x: int| #[trigger] left_behind(after, x) implies !deadlocked(g, x) by {
        if x != id {
            assert(left_behind(before, x));
        }
    }
    assert forall|x: int| #[trigger] trail.contains(x) implies 0 <= x < after.len() by {
        let i = choose|i: int| 0 <= i < trail.len() && trail[i] == x;
        assert(inner[i] == x);
        assert(inner.contains(x));
    }
    assert forall|x: int| 0 <= x < after.len() implies (#[trigger] after[x] == Color::Gray
        <==> trail.contains(x)) by {
        assert(before[x] == Color::Gray <==> inner.contains(x));
        if trail.contains(x) {
            let i = choose|i: int| 0 <= i < trail.len() && trail[i] == x;
            assert(inner[i] == x);
        }
        if inner.contains(x) && x != id {
            let i = choose|i: int| 0 <= i < inner.len() && inner[i] == x;
            assert(trail[i] == x);
        }
    }
    lemma_trail_kept(g, before, after, inner);
    assert forall|i: int| 0 <= i < trail.len() - 1 implies #[trigger] trail_step(
        g,
        after,
        trail,
        i,
    ) by {
        assert(trail_step(g, after, inner, i));
    }
}

/// Visits the node at `at` and all that it waits on, or reports the node at
/// which the search comes back upon its own trail.
fn visit(
    at: usize,
    lists: &Vec<Vec<usize>>,
    color: &mut Vec<Color>,
    Ghost(trail): Ghost<Seq<int>>,
) -> (res: Result<(), usize>)
    requires
        closed(graph_of(lists@)),
        graph_of(lists@).dom().finite(),
        at < lists@.len(),
        searching(graph_of(lists@), old(color)@, trail),
        trail.len() > 0 ==> next_on_trail(
            graph_of(lists@),
            old(color)@,
            trail.last(),
            at as int,
        ),
    ensures
        match res {
            Ok(_) => {
                &&& searching(graph_of(lists@), final(color)@, trail)
                &&& left_behind(final(color)@, at as int)
                &&& forall|x: int| #[trigger]
                    left_behind(old(color)@, x) ==> left_behind(final(color)@, x)
                &&& final(color)@.len() == old(color)@.len()
                &&& forall|x: int|
                    0 <= x < old(color)@.len() && #[trigger] final(color)@[x] == Color::White
                        ==> old(color)@[x] == Color::White
            },
            Err(found) => found < lists@.len() && closes_cycle(
                graph_of(lists@),
                found as int,
            ),
        },
    decreases white(graph_of(lists@), old(color)@).len(),
{
    let ghost g = graph_of(lists@);
    let ghost id = at as int;
    assert(g.dom().contains(id));
    match color[at] {
        Color::Black => {
            return Ok(());
        },
        Color::Gray => {
            proof {
                lemma_back_on_trail(g, color@, trail, id);
            }
            return Err(at);
        },
        Color::White => {},
    }
    let ghost start = color@;
    let ghost inner = trail.push(id);
    color.set(at, Color::Gray);
    proof {
        lemma_onto_trail(g, start, trail, id);
        assert forall|x: int| #[trigger] left_behind(start, x) implies left_behind(
            color@,
            x,
        ) by {
        }
    }
    let list: &Vec<usize> = &lists[at];
    assert(g[id] == numbers(list@));
    for k in 0..list.len()
        invariant
            g == graph_of(lists@),
            closed(g),
            g.dom().finite(),
            g.dom().contains(id),
            id == at,
            g[id] == numbers(list@),
            white(g, start).finite(),
            white(g, start).contains(id),
            start == old(color)@,
            color@.len() == start.len(),
            searching(g, color@, inner),
            inner == trail.push(id),
            forall|j: int| 0 <= j < k ==> left_behind(color@, #[trigger] g[id][j]),
            forall|x: int| #[trigger] left_behind(start, x) ==> left_behind(color@, x),
            forall|x: int|
                0 <= x < start.len() && #[trigger] color@[x] == Color::White ==> start[x]
                    == Color::White,
    {
        let dep: usize = list[k];
        let ghost before = color@;
        proof {
            assert(g[id][k as int] == dep);
            assert(waits(g, id, dep as int));
            assert(g.dom().contains(dep as int));
            assert(cleared_up_to(g, before, id, k as int));
            assert(next_on_trail(g, before, id, dep as int));
            assert(inner[trail.len() as int] == id);
            assert(inner.contains(id));
            assert(before[id] == Color::Gray);
            assert(white(g, before).subset_of(white(g, start).remove(id)));
            vstd::set_lib::lemma_len_subset(white(g, before), white(g, start).remove(id));
        }
        let ghost on = inner;
        match visit(dep, lists, color, Ghost(on)) {
            Ok(_) => {},
            Err(found) => {
                return Err(found);
            },
        }
        proof {
            assert forall|x: int| #[trigger] left_behind(start, x) implies left_behind(
                color@,
                x,
            ) by {
                assert(left_behind(before, x));
            }
            assert forall|j: int| 0 <= j < k + 1 implies left_behind(
                color@,
                #[trigger] g[id][j],
            ) by {
                if j < k {
                    assert(left_behind(before, g[id][j]));
                }
            }
            assert forall|x: int|
                0 <= x < start.len() && #[trigger] color@[x] == Color::White implies start[x]
                == Color::White by {
                assert(before[x] == Color::White);
            }
        }
    }
    let ghost last = color@;
    color.set(at, Color::Black);
    proof {
        assert(start[id] == Color::White);
        if deadlocked(g, id) {
            let b = lemma_deadlock_passes_on(g, id);
            let j = choose|j: int| 0 <= j < g[id].len() && g[id][j] == b;
            assert(left_behind(last, g[id][j]));
        }
        lemma_off_trail(g, last, trail, id);
        assert forall|x: int| #[trigger] left_behind(start, x) implies left_behind(
            color@,
            x,
        ) by {
            assert(left_behind(last, x));
        }
        assert forall|x: int|
            0 <= x < start.len() && #[trigger] color@[x] == Color::White implies start[x]
            == Color::White by {
            assert(last[x] == Color::White);
        }
    }
    Ok(())
}

/// Searches the wait graph of one level for a cycle.
pub fn detect_cycles(schedule: &Schedule) -> (res: Result<(), NodeId>)
    ensures
        res is Ok <==> acyclic(wait_graph(schedule@.nodes)),
        res matches Err(id) ==> reports_cycle(schedule@.nodes, ErrorModel::Cycle(id)),
{
    let ghost nodes = schedule@.nodes;
    let ghost g = wait_graph(nodes);
    let lists: Vec<Vec<usize>> = wait_lists(schedule);
    proof {
        lemma_wait_graph(nodes);
    }
    let mut color: Vec<Color> = Vec::new();
    for i in 0..schedule.nodes.len()
        invariant
            color@.len() == i,
            forall|x: int| 0 <= x < i ==> #[trigger] color@[x] == Color::White,
    {
        color.push(Color::White);
    }
    let ghost none = Seq::<int>::empty();
    for i in 0..schedule.nodes.len()
        invariant
            nodes == schedule@.nodes,
            g == wait_graph(nodes),
            g == graph_of(lists@),
            lists@.len() == nodes.len(),
            closed(g),
            g.dom().finite(),
            none == Seq::<int>::empty(),
            searching(g, color@, none),
            forall|j: int| 0 <= j < i ==> #[trigger] left_behind(color@, j),
    {
        let ghost before = color@;
        match visit(i, &lists, &mut color, Ghost(none)) {
            Ok(_) => {},
            Err(found) => {
                proof {
                    lemma_closes_cycle_reaches_itself(g, found as int);
                    assert(nodes[found as int].id == schedule.nodes@[found as int].id);
                }
                return Err(schedule.nodes[found].id);
            },
        }
        proof {
            assert forall|j: int| 0 <= j < i + 1 implies #[trigger] left_behind(color@, j) by {
                if j < i {
                    assert(left_behind(before, j));
                }
            }
        }
    }
    proof {
        assert forall|a: int| !#[trigger] deadlocked(g, a) by {
            if deadlocked(g, a) {
                let b = lemma_deadlock_passes_on(g, a);
                assert(left_behind(color@, a));
            }
        }
        lemma_acyclic_iff_none_deadlocked(g);
    }
    Ok(())
}

/// What `a` waits on through the first `k` nodes of its list.
spec fn reach_through_first(g: WaitGraph<int>, a: int, k: int) -> Set<int> {
    Set::new(
        |b: int|
            exists|j: int|
                0 <= j < k && (#[trigger] g[a][j] == b || reaches(g, g[a][j], b)),
    )
}

proof fn lemma_reach_through_all(g: WaitGraph<int>, a: int)
    requires
        g.dom().contains(a),
    ensures
        reach_through_first(g, a, g[a].len() as int) == reach_set(g, a),
{
    let n = g[a].len() as int;
    assert forall|b: int| reach_through_first(g, a, n).contains(b) <==> reach_set(
        g,
        a,
    ).contains(b) by {
        if reach_through_first(g, a, n).contains(b) {
            let j = choose|j: int|
                0 <= j < n && (#[trigger] g[a][j] == b || reaches(g, g[a][j], b));
            assert(waits(g, a, g[a][j]));
            lemma_wait_reaches(g, a, g[a][j]);
            if g[a][j] != b {
                lemma_reaches_transitive(g, a, g[a][j], b);
            }
        }
        if reaches(g, a, b) {
            let c = lemma_reaches_first(g, a, b);
            let j = choose|j: int| 0 <= j < g[a].len() && g[a][j] == c;
            assert(g[a][j] == b || reaches(g, g[a][j], b));
        }
    }
    assert(reach_through_first(g, a, n) =~= reach_set(g, a));
}

fn add_all(acc: &mut HashSet<usize>, more: &HashSet<usize>)
    ensures
        final(acc)@ == old(acc)@.union(more@),
{
    broadcast use vstd::std_specs::hash::group_hash_axioms;

    let ghost start = acc@;
    for x in it: more.iter()
        invariant
            it.seq().unref().to_set() == more@,
            forall|b: usize| #[trigger]
                acc@.contains(b) <==> start.contains(b) || exists|i: int|
                    0 <= i < it.index() && #[trigger] it.seq().unref()[i] == b,
    {
        assert(it.seq().unref()[it.index() as int] == *x);
        acc.insert(*x);
    }
    proof {
        assert forall|b: usize| #[trigger] acc@.contains(b) <==> start.union(more@).contains(
            b,
        ) by {
        }
        assert(acc@ =~= start.union(more@));
    }
}

/// A set of places holds those of the numbers that are places.
pub open spec fn same_places(set: Set<usize>, all: Set<int>) -> bool {
    forall|x: usize| #[trigger] set.contains(x) <==> all.contains(x as int)
}

/// The table holds, for the nodes that it has, all that they wait on.
spec fn reach_table(g: WaitGraph<int>, memo: Map<usize, HashSet<usize>>) -> bool {
    forall|x: usize| #[trigger]
        memo.dom().contains(x) ==> g.dom().contains(x as int) && same_places(
            memo[x]@,
            reach_set(g, x as int),
        )
}

/// Enters into the table all that the node at `at` waits on.
fn compute(at: usize, lists: &Vec<Vec<usize>>, memo: &mut HashMap<usize, HashSet<usize>>)
    requires
        closed(graph_of(lists@)),
        acyclic(graph_of(lists@)),
        graph_of(lists@).dom().finite(),
        at < lists@.len(),
        reach_table(graph_of(lists@), old(memo)@),
    ensures
        reach_table(graph_of(lists@), final(memo)@),
        final(memo)@.dom().contains(at),
        old(memo)@.dom().subset_of(final(memo)@.dom()),
    decreases reach_set(graph_of(lists@), at as int).len(),
{
    broadcast use vstd::std_specs::hash::group_hash_axioms;

    let ghost g = graph_of(lists@);
    let ghost id = at as int;
    if memo.contains_key(&at) {
        return ;
    }
    let mut acc: HashSet<usize> = HashSet::new();
    let list: &Vec<usize> = &lists[at];
    assert(g[id] == numbers(list@));
    assert(same_places(acc@, reach_through_first(g, id, 0)));
    for k in 0..list.len()
        invariant
            g == graph_of(lists@),
            closed(g),
            acyclic(g),
            g.dom().finite(),
            id == at,
            g.dom().contains(id),
            g[id] == numbers(list@),
            reach_table(g, memo@),
            old(memo)@.dom().subset_of(memo@.dom()),
            same_places(acc@, reach_through_first(g, id, k as int)),
    {
        let dep: usize = list[k];
        proof {
            assert(g[id][k as int] == dep);
            assert(waits(g, id, dep as int));
            assert(g.dom().contains(dep as int));
            lemma_reach_set_shrinks(g, id, dep as int);
        }
        acc.insert(dep);
        compute(dep, lists, memo);
        let deeper: &HashSet<usize> = memo.get(&dep).unwrap();
        add_all(&mut acc, deeper);
        proof {
            let before = reach_through_first(g, id, k as int);
            let after = reach_through_first(g, id, k + 1);
            assert forall|b: int| after.contains(b) <==> before.contains(b) || b == dep || reaches(
                g,
                dep as int,
                b,
            ) by {
                if after.contains(b) {
                    let j = choose|j: int|
                        0 <= j < k + 1 && (#[trigger] g[id][j] == b || reaches(g, g[id][j], b));
                    if j < k {
                        assert(g[id][j] == b || reaches(g, g[id][j], b));
                    }
                }
                if before.contains(b) {
                    let j = choose|j: int|
                        0 <= j < k && (#[trigger] g[id][j] == b || reaches(g, g[id][j], b));
                    assert(0 <= j < k + 1 && (g[id][j] == b || reaches(g, g[id][j], b)));
                }
                if b == dep || reaches(g, dep as int, b) {
                    assert(g[id][k as int] == b || reaches(g, g[id][k as int], b));
                }
            }
            assert forall|x: usize| #[trigger] acc@.contains(x) <==> after.contains(
                x as int,
            ) by {
                assert(after.contains(x as int) <==> before.contains(x as int) || x == dep
                    || reaches(g, dep as int, x as int));
                assert(deeper@.contains(x) <==> reach_set(g, dep as int).contains(x as int));
            }
        }
    }
    proof {
        lemma_reach_through_all(g, id);
    }
    memo.insert(at, acc);
}

/// For each node of one level, all that it waits on, directly or through others.
pub fn transitive_reach(schedule: &Schedule) -> (res: HashMap<usize, HashSet<usize>>)
    requires
        acyclic(wait_graph(schedule@.nodes)),
    ensures
        forall|i: usize| #[trigger] res@.dom().contains(i) <==> i < schedule@.nodes.len(),
        forall|i: usize| #[trigger]
            res@.dom().contains(i) ==> same_places(
                res@[i]@,
                reach_set(wait_graph(schedule@.nodes), i as int),
            ),
{
    broadcast use vstd::std_specs::hash::group_hash_axioms;

    let ghost nodes = schedule@.nodes;
    let ghost g = wait_graph(nodes);
    let lists: Vec<Vec<usize>> = wait_lists(schedule);
    proof {
        lemma_wait_graph(nodes);
    }
    let mut memo: HashMap<usize, HashSet<usize>> = HashMap::new();
    for i in 0..schedule.nodes.len()
        invariant
            nodes == schedule@.nodes,
            g == wait_graph(nodes),
            g == graph_of(lists@),
            lists@.len() == nodes.len(),
            closed(g),
            acyclic(g),
            g.dom().finite(),
            reach_table(g, memo@),
            forall|j: usize| j < i ==> #[trigger] memo@.dom().contains(j),
    {
        compute(i, &lists, &mut memo);
    }
    memo
}

} // verus!
