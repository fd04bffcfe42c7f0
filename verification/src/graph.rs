//! Wait graphs: which node waits on which, directly or through others.
//!
//! A wait graph maps each node to the nodes that it waits on, in the order in
//! which they are listed. What stands for a node is left open: its place in a
//! list, or its id where no two nodes share one.
use vstd::prelude::*;

verus! {

pub type WaitGraph<V> = Map<V, Seq<V>>;

/// `a` lists `b` among the nodes that it waits on.
pub open spec fn waits<V>(g: WaitGraph<V>, a: V, b: V) -> bool {
    g.dom().contains(a) && g[a].contains(b)
}

/// `a` waits on `b` through a chain that passes `n` nodes in between.
pub open spec fn reaches_through<V>(g: WaitGraph<V>, a: V, b: V, n: nat) -> bool
    decreases n,
{
    if n == 0 {
        waits(g, a, b)
    } else {
        exists|c: V| #[trigger] waits(g, a, c) && reaches_through(g, c, b, (n - 1) as nat)
    }
}

/// `a` waits on `b`, directly or through other nodes: `b` must finish before `a` starts.
pub open spec fn reaches<V>(g: WaitGraph<V>, a: V, b: V) -> bool {
    exists|n: nat| reaches_through(g, a, b, n)
}

/// Every id that is waited on is the id of a node.
pub open spec fn closed<V>(g: WaitGraph<V>) -> bool {
    forall|a: V, b: V| #[trigger] waits(g, a, b) ==> g.dom().contains(b)
}

/// No node waits on itself, directly or through others.
pub open spec fn acyclic<V>(g: WaitGraph<V>) -> bool {
    forall|a: V| !#[trigger] reaches(g, a, a)
}

/// Everything that `a` waits on, directly or through others.
pub open spec fn reach_set<V>(g: WaitGraph<V>, a: V) -> Set<V> {
    Set::new(|b: V| reaches(g, a, b))
}

/// `a` can never start: it lies on a cycle or waits, in the end, on one that does.
pub open spec fn deadlocked<V>(g: WaitGraph<V>, a: V) -> bool {
    exists|c: V| (a == c || reaches(g, a, c)) && #[trigger] reaches(g, c, c)
}

/// `b` is the first in the list of `a` that can never start.
pub open spec fn first_deadlocked_wait<V>(g: WaitGraph<V>, a: V, b: V) -> bool {
    &&& g.dom().contains(a)
    &&& exists|k: int| #[trigger]
        blocked_at(g, a, k) && g[a][k] == b
}

/// The `k`-th wait of `a` can never start, and every one before it can.
pub open spec fn blocked_at<V>(g: WaitGraph<V>, a: V, k: int) -> bool {
    &&& 0 <= k < g[a].len()
    &&& deadlocked(g, g[a][k])
    &&& forall|j: int| 0 <= j < k ==> !deadlocked(g, #[trigger] g[a][j])
}

/// Going from `a` to its first deadlocked wait, and on from there, leads to
/// `b` after `n` more steps.
pub open spec fn trails_to<V>(g: WaitGraph<V>, a: V, b: V, n: nat) -> bool
    decreases n,
{
    if n == 0 {
        first_deadlocked_wait(g, a, b)
    } else {
        exists|c: V|
            #[trigger] first_deadlocked_wait(g, a, c) && trails_to(g, c, b, (n - 1) as nat)
    }
}

/// Going from `a` to its first deadlocked wait, and on from there, comes back to `a`.
/// These are the nodes at which a depth-first search can report a cycle.
pub open spec fn closes_cycle<V>(g: WaitGraph<V>, a: V) -> bool {
    exists|n: nat| trails_to(g, a, a, n)
}

/// A direct wait is a wait.
pub proof fn lemma_wait_reaches<V>(g: WaitGraph<V>, a: V, b: V)
    requires
        waits(g, a, b),
    ensures
        reaches(g, a, b),
{
    assert(reaches_through(g, a, b, 0));
}

proof fn lemma_chain_extends<V>(g: WaitGraph<V>, a: V, b: V, c: V, n: nat)
    requires
        reaches_through(g, a, b, n),
        reaches(g, b, c),
    ensures
        reaches(g, a, c),
    decreases n,
{
    if n == 0 {
        let k = choose|k: nat| reaches_through(g, b, c, k);
        assert(reaches_through(g, b, c, ((k + 1) - 1) as nat));
        assert(reaches_through(g, a, c, k + 1));
    } else {
        let m = choose|m: V|
            #[trigger] waits(g, a, m) && reaches_through(g, m, b, (n - 1) as nat);
        lemma_chain_extends(g, m, b, c, (n - 1) as nat);
        let k = choose|k: nat| reaches_through(g, m, c, k);
        assert(reaches_through(g, m, c, ((k + 1) - 1) as nat));
        assert(reaches_through(g, a, c, k + 1));
    }
}

/// Waiting is transitive: what a node waits on, its waiters wait on too.
pub proof fn lemma_reaches_transitive<V>(g: WaitGraph<V>, a: V, b: V, c: V)
    requires
        reaches(g, a, b),
        reaches(g, b, c),
    ensures
        reaches(g, a, c),
{
    let n = choose|n: nat| reaches_through(g, a, b, n);
    lemma_chain_extends(g, a, b, c, n);
}

/// A chain of waits starts with a direct wait.
pub proof fn lemma_reaches_first<V>(g: WaitGraph<V>, a: V, b: V) -> (c: V)
    requires
        reaches(g, a, b),
    ensures
        waits(g, a, c),
        c == b || reaches(g, c, b),
{
    let n = choose|n: nat| reaches_through(g, a, b, n);
    if n == 0 {
        b
    } else {
        let c = choose|c: V|
            #[trigger] waits(g, a, c) && reaches_through(g, c, b, (n - 1) as nat);
        c
    }
}

proof fn lemma_chain_closed<V>(g: WaitGraph<V>, a: V, b: V, n: nat)
    requires
        closed(g),
        reaches_through(g, a, b, n),
    ensures
        g.dom().contains(a),
        g.dom().contains(b),
    decreases n,
{
    if n > 0 {
        let c = choose|c: V|
            #[trigger] waits(g, a, c) && reaches_through(g, c, b, (n - 1) as nat);
        lemma_chain_closed(g, c, b, (n - 1) as nat);
    }
}

/// In a closed graph waits stay among the nodes.
pub proof fn lemma_reaches_closed<V>(g: WaitGraph<V>, a: V, b: V)
    requires
        closed(g),
        reaches(g, a, b),
    ensures
        g.dom().contains(a),
        g.dom().contains(b),
{
    let n = choose|n: nat| reaches_through(g, a, b, n);
    lemma_chain_closed(g, a, b, n);
}

/// In a closed acyclic graph a node waits on fewer nodes than its waiters do.
pub proof fn lemma_reach_set_shrinks<V>(g: WaitGraph<V>, a: V, b: V)
    requires
        closed(g),
        acyclic(g),
        g.dom().finite(),
        waits(g, a, b),
    ensures
        reach_set(g, a).finite(),
        reach_set(g, b).finite(),
        reach_set(g, b).len() < reach_set(g, a).len(),
{
    let ra = reach_set(g, a);
    let rb = reach_set(g, b);
    lemma_wait_reaches(g, a, b);
    assert forall|c: V| ra.contains(c) implies g.dom().contains(c) by {
        lemma_reaches_closed(g, a, c);
    }
    vstd::set_lib::lemma_set_subset_finite(g.dom(), ra);
    assert forall|c: V| rb.contains(c) implies #[trigger] ra.remove(b).contains(c) by {
        lemma_reaches_transitive(g, a, b, c);
        if c == b {
            assert(reaches(g, b, b));
        }
    }
    assert(rb.subset_of(ra.remove(b)));
    vstd::set_lib::lemma_set_subset_finite(ra.remove(b), rb);
    vstd::set_lib::lemma_len_subset(rb, ra.remove(b));
}

/// A node that can never start waits directly on one that can never start.
pub proof fn lemma_deadlock_passes_on<V>(g: WaitGraph<V>, a: V) -> (b: V)
    requires
        deadlocked(g, a),
    ensures
        waits(g, a, b),
        deadlocked(g, b),
{
    let c = choose|c: V| (a == c || reaches(g, a, c)) && #[trigger] reaches(g, c, c);
    let b = lemma_reaches_first(g, a, c);
    b
}

/// Where nothing is deadlocked there is no cycle, and the other way round.
pub proof fn lemma_acyclic_iff_none_deadlocked<V>(g: WaitGraph<V>)
    ensures
        acyclic(g) <==> forall|a: V| !#[trigger] deadlocked(g, a),
{
    if acyclic(g) {
        assert forall|a: V| !#[trigger] deadlocked(g, a) by {
        }
    } else {
        let a = choose|a: V| #[trigger] reaches(g, a, a);
        assert(deadlocked(g, a));
    }
}

proof fn lemma_trail_reaches<V>(g: WaitGraph<V>, a: V, b: V, n: nat)
    requires
        trails_to(g, a, b, n),
    ensures
        reaches(g, a, b),
    decreases n,
{
    if n == 0 {
        let k = choose|k: int| #[trigger] blocked_at(g, a, k) && g[a][k] == b;
        assert(g[a].contains(b));
        lemma_wait_reaches(g, a, b);
    } else {
        let c = choose|c: V|
            #[trigger] first_deadlocked_wait(g, a, c) && trails_to(g, c, b, (n - 1) as nat);
        let k = choose|k: int| #[trigger] blocked_at(g, a, k) && g[a][k] == c;
        assert(g[a].contains(c));
        lemma_wait_reaches(g, a, c);
        lemma_trail_reaches(g, c, b, (n - 1) as nat);
        lemma_reaches_transitive(g, a, c, b);
    }
}

/// A node at which a cycle is reported does lie on a cycle.
pub proof fn lemma_closes_cycle_reaches_itself<V>(g: WaitGraph<V>, a: V)
    requires
        closes_cycle(g, a),
    ensures
        reaches(g, a, a),
        !acyclic(g),
{
    let n = choose|n: nat| trails_to(g, a, a, n);
    lemma_trail_reaches(g, a, a, n);
}

proof fn lemma_chain_along<V, W>(
    g: WaitGraph<V>,
    h: WaitGraph<W>,
    f: spec_fn(V) -> W,
    a: V,
    b: V,
    n: nat,
)
    requires
        forall|x: V, y: V| #[trigger] waits(g, x, y) ==> waits(h, f(x), f(y)),
        reaches_through(g, a, b, n),
    ensures
        reaches(h, f(a), f(b)),
    decreases n,
{
    if n == 0 {
        assert(waits(g, a, b));
        lemma_wait_reaches(h, f(a), f(b));
    } else {
        let c = choose|c: V| #[trigger] waits(g, a, c) && reaches_through(g, c, b, (n - 1) as nat);
        lemma_wait_reaches(h, f(a), f(c));
        lemma_chain_along(g, h, f, c, b, (n - 1) as nat);
        lemma_reaches_transitive(h, f(a), f(c), f(b));
    }
}

/// Where every wait of one graph has its counterpart in another, every chain
/// of waits has.
pub proof fn lemma_reaches_along<V, W>(
    g: WaitGraph<V>,
    h: WaitGraph<W>,
    f: spec_fn(V) -> W,
    a: V,
    b: V,
)
    requires
        forall|x: V, y: V| #[trigger] waits(g, x, y) ==> waits(h, f(x), f(y)),
        reaches(g, a, b),
    ensures
        reaches(h, f(a), f(b)),
{
    let n = choose|n: nat| reaches_through(g, a, b, n);
    lemma_chain_along(g, h, f, a, b, n);
}

} // verus!
