//! The steps that generated source takes, in order.
//!
//! The lines of a schedule are the steps of its script, written one after the
//! other. The script takes every operation once, and after all that it has to
//! wait for.
use vstd::prelude::*;

use crate::cuda_codegen::{
    first_lines, indentation, lemma_error_stays, node_lines, op_line, place_of, schedule_lines,
    CodegenErrorModel, Source,
};
use crate::generation::{node_orderable_throughout, orderable_throughout};
use crate::ir::{has_id, KindModel, NodeModel, ScheduleModel};
use crate::order::{every_node_launches_once, launch_order, orderable, waits_launch_first};
use crate::spots::{
    lemma_node_spots, lemma_place_in_spot, lemma_spotted_from, lemma_spotted_in, spot_node, spots,
    waits_across, Spotted,
};
use crate::text::decimal;

verus! {

/// One step, taken for one node.
pub enum Step {
    /// An operation is launched.
    Launch(Spotted),
    /// A nested schedule begins.
    Enter(Spotted),
    /// A nested schedule has come to its end.
    Leave(Spotted),
}

/// The node that a step is taken for.
pub open spec fn subject(step: Step) -> Spotted {
    match step {
        Step::Launch(e) => e,
        Step::Enter(e) => e,
        Step::Leave(e) => e,
    }
}

/// The steps for one node that stands at `at`.
pub open spec fn node_steps(node: NodeModel, at: Seq<int>) -> Seq<Step>
    decreases node, 0nat,
{
    match node.kind {
        KindModel::Op(_) => seq![Step::Launch((at, node))],
        KindModel::SubSchedule(sub) => seq![Step::Enter((at, node))] + first_steps(
            *sub,
            at,
            sub.nodes.len(),
        ) + seq![Step::Leave((at, node))],
    }
}

/// The steps for the first `k` nodes to be launched of a level that stands at `at`.
pub open spec fn first_steps(s: ScheduleModel, at: Seq<int>, k: nat) -> Seq<Step>
    decreases s, k,
{
    if k == 0 {
        Seq::empty()
    } else {
        let i = place_of(s.nodes, launch_order(s.nodes)[k - 1]);
        first_steps(s, at, (k - 1) as nat) + if 0 <= i < s.nodes.len() {
            node_steps(s.nodes[i], at.push(i))
        } else {
            Seq::empty()
        }
    }
}

/// The steps for a schedule.
pub open spec fn script(s: ScheduleModel) -> Seq<Step> {
    first_steps(s, Seq::empty(), s.nodes.len())
}

/// The lines of one step.
pub open spec fn step_text(step: Step) -> Seq<char> {
    let e = subject(step);
    let indent = indentation(e.0.len());
    match (step, e.1.kind) {
        (Step::Launch(_), KindModel::Op(op)) => indent + "// node "@ + decimal(e.1.id as nat)
            + " (sm "@ + decimal(e.1.sm as nat) + ")\n"@ + op_line(e.1, op, indent)->Ok_0,
        (Step::Enter(_), KindModel::SubSchedule(sub)) => indent + "// node "@ + decimal(
            e.1.id as nat,
        ) + " -> inlined sub-schedule '"@ + sub.name + "'\n"@ + (indent + "{ // sub-schedule: "@
            + sub.name + "\n"@),
        (Step::Leave(_), KindModel::SubSchedule(_)) => indent + "}\n"@,
        _ => Seq::empty(),
    }
}

/// The lines of some steps, one after the other.
pub open spec fn steps_text(steps: Seq<Step>) -> Seq<char>
    decreases steps.len(),
{
    if steps.len() == 0 {
        Seq::empty()
    } else {
        steps_text(steps.drop_last()) + step_text(steps.last())
    }
}

proof fn lemma_text_in_two(a: Seq<Step>, b: Seq<Step>)
    ensures
        steps_text(a + b) == steps_text(a) + steps_text(b),
    decreases b.len(),
{
    if b.len() == 0 {
        assert(a + b =~= a);
        assert(steps_text(a) + steps_text(b) =~= steps_text(a));
    } else {
        lemma_text_in_two(a, b.drop_last());
        assert((a + b).drop_last() =~= a + b.drop_last());
        assert((a + b).last() == b.last());
        assert(steps_text(a) + steps_text(b.drop_last()) + step_text(b.last()) =~= steps_text(a)
            + (steps_text(b.drop_last()) + step_text(b.last())));
    }
}

proof fn lemma_text_of_one(step: Step)
    ensures
        steps_text(seq![step]) == step_text(step),
{
    let one = seq![step];
    assert(one.drop_last() =~= Seq::empty());
    assert(steps_text(one.drop_last()) =~= Seq::<char>::empty());
    assert(Seq::<char>::empty() + step_text(step) =~= step_text(step));
}

proof fn lemma_node_text(node: NodeModel, at: Seq<int>, lines: Seq<char>)
    requires
        at.len() > 0,
        node_lines(node, (at.len() - 1) as nat) == Ok::<_, CodegenErrorModel>(lines),
    ensures
        lines == steps_text(node_steps(node, at)),
    decreases node, 0nat,
{
    let indent = indentation(at.len());
    let (enter, leave) = (Step::Enter((at, node)), Step::Leave((at, node)));
    match node.kind {
        KindModel::Op(_) => {
            lemma_text_of_one(Step::Launch((at, node)));
        },
        KindModel::SubSchedule(sub) => {
            let n = sub.nodes.len();
            let inside = first_steps(*sub, at, n);
            let body = first_lines(*sub, n, at.len())->Ok_0;
            lemma_first_text(*sub, at, n, body);
            lemma_text_in_two(seq![enter], inside);
            lemma_text_in_two(seq![enter] + inside, seq![leave]);
            lemma_text_of_one(enter);
            lemma_text_of_one(leave);
            let head = indent + "// node "@ + decimal(node.id as nat)
                + " -> inlined sub-schedule '"@ + sub.name + "'\n"@;
            let brace = indent + "{ // sub-schedule: "@ + sub.name + "\n"@;
            let inner = brace + body + indent + "}\n"@;
            assert(schedule_lines(*sub, at.len()) == Ok::<_, CodegenErrorModel>(inner));
            assert(lines == head + inner);
            assert(head + inner =~= (head + brace) + body + (indent + "}\n"@));
        },
    }
}

proof fn lemma_first_text(s: ScheduleModel, at: Seq<int>, k: nat, lines: Seq<char>)
    requires
        first_lines(s, k, at.len()) == Ok::<_, CodegenErrorModel>(lines),
    ensures
        lines == steps_text(first_steps(s, at, k)),
    decreases s, k,
{
    if k > 0 {
        let i = place_of(s.nodes, launch_order(s.nodes)[k - 1]);
        let before = first_lines(s, (k - 1) as nat, at.len())->Ok_0;
        lemma_first_text(s, at, (k - 1) as nat, before);
        if 0 <= i < s.nodes.len() {
            let more = node_lines(s.nodes[i], at.len())->Ok_0;
            lemma_node_text(s.nodes[i], at.push(i), more);
            lemma_text_in_two(
                first_steps(s, at, (k - 1) as nat),
                node_steps(s.nodes[i], at.push(i)),
            );
        } else {
            assert(first_steps(s, at, k) =~= first_steps(s, at, (k - 1) as nat));
        }
    }
}

/// The lines that are generated for a schedule are those of its script.
pub proof fn source_follows_the_script(s: ScheduleModel)
    requires
        schedule_lines(s, 0) is Ok,
    ensures
        schedule_lines(s, 0)->Ok_0 == steps_text(script(s)),
{
    lemma_first_text(s, Seq::empty(), s.nodes.len(), schedule_lines(s, 0)->Ok_0);
}

/// The place of the node that is launched as the `k`-th of its level.
spec fn launched_at(nodes: Seq<NodeModel>, k: int) -> int {
    place_of(nodes, launch_order(nodes)[k])
}

proof fn lemma_launched_at(nodes: Seq<NodeModel>, k: int)
    requires
        orderable(nodes),
        0 <= k < nodes.len(),
    ensures
        0 <= launched_at(nodes, k) < nodes.len(),
        nodes[launched_at(nodes, k)].id == launch_order(nodes)[k],
{
    let id = launch_order(nodes)[k];
    every_node_launches_once(nodes);
    assert(launch_order(nodes).contains(id));
    let i = place_of(nodes, id);
    assert(0 <= i < nodes.len() && nodes[i].id == id);
}

/// Every node of a level is launched at some point.
proof fn lemma_launched_when(nodes: Seq<NodeModel>, i: int) -> (k: int)
    requires
        orderable(nodes),
        0 <= i < nodes.len(),
    ensures
        0 <= k < nodes.len(),
        launched_at(nodes, k) == i,
{
    every_node_launches_once(nodes);
    assert(has_id(nodes, nodes[i].id));
    assert(launch_order(nodes).contains(nodes[i].id));
    let k = choose|k: int|
        0 <= k < launch_order(nodes).len() && launch_order(nodes)[k] == nodes[i].id;
    let j = place_of(nodes, nodes[i].id);
    assert(0 <= j < nodes.len() && nodes[j].id == nodes[i].id);
    k
}

/// The steps for the node that is launched as the `k`-th of its level.
spec fn steps_at(nodes: Seq<NodeModel>, at: Seq<int>, k: int) -> Seq<Step> {
    node_steps(nodes[launched_at(nodes, k)], at.push(launched_at(nodes, k)))
}

proof fn lemma_next_steps(s: ScheduleModel, at: Seq<int>, k: nat)
    requires
        orderable(s.nodes),
        0 < k <= s.nodes.len(),
    ensures
        first_steps(s, at, k) == first_steps(s, at, (k - 1) as nat) + steps_at(
            s.nodes,
            at,
            k - 1,
        ),
{
    lemma_launched_at(s.nodes, k - 1);
}

/// A step comes from one of the nodes that have been launched.
proof fn lemma_step_from(s: ScheduleModel, at: Seq<int>, k: nat, x: int) -> (j: int)
    requires
        orderable(s.nodes),
        k <= s.nodes.len(),
        0 <= x < first_steps(s, at, k).len(),
    ensures
        0 <= j < k,
        steps_at(s.nodes, at, j).contains(first_steps(s, at, k)[x]),
    decreases k,
{
    let before = first_steps(s, at, (k - 1) as nat);
    let last = steps_at(s.nodes, at, k - 1);
    lemma_next_steps(s, at, k);
    if x < before.len() {
        assert((before + last)[x] == before[x]);
        lemma_step_from(s, at, (k - 1) as nat, x)
    } else {
        assert(last[x - before.len()] == (before + last)[x]);
        k - 1
    }
}

/// The steps of a node that has been launched are among those taken.
proof fn lemma_step_in(s: ScheduleModel, at: Seq<int>, k: nat, j: int, step: Step)
    requires
        orderable(s.nodes),
        k <= s.nodes.len(),
        0 <= j < k,
        steps_at(s.nodes, at, j).contains(step),
    ensures
        first_steps(s, at, k).contains(step),
    decreases k,
{
    let before = first_steps(s, at, (k - 1) as nat);
    let last = steps_at(s.nodes, at, k - 1);
    lemma_next_steps(s, at, k);
    if j == k - 1 {
        let x = choose|x: int| 0 <= x < last.len() && last[x] == step;
        assert((before + last)[before.len() + x] == step);
    } else {
        lemma_step_in(s, at, (k - 1) as nat, j, step);
        let x = choose|x: int| 0 <= x < before.len() && before[x] == step;
        assert((before + last)[x] == step);
    }
}

/// A node's steps are taken for what it is or holds.
proof fn lemma_steps_are_spotted(node: NodeModel, at: Seq<int>, step: Step)
    requires
        node_orderable_throughout(node),
        node_steps(node, at).contains(step),
    ensures
        spot_node(node, at).contains(subject(step)),
        step is Launch <==> subject(step).1.kind is Op,
    decreases node, 0nat,
{
    lemma_node_spots(node, at, subject(step));
    match node.kind {
        KindModel::Op(_) => {
            assert(step == Step::Launch((at, node)));
        },
        KindModel::SubSchedule(sub) => {
            let inside = first_steps(*sub, at, sub.nodes.len());
            let all = node_steps(node, at);
            let x = choose|x: int| 0 <= x < all.len() && all[x] == step;
            if x == 0 {
                assert(step == Step::Enter((at, node)));
            } else if x == all.len() - 1 {
                assert(step == Step::Leave((at, node)));
            } else {
                assert(inside[x - 1] == step);
                let j = lemma_step_from(*sub, at, sub.nodes.len(), x - 1);
                lemma_launched_at(sub.nodes, j);
                let i = launched_at(sub.nodes, j);
                assert(node_orderable_throughout(sub.nodes[i]));
                lemma_steps_are_spotted(sub.nodes[i], at.push(i), step);
                lemma_spotted_in(sub.nodes, at, i, subject(step));
            }
        },
    }
}

/// Every operation that a node is or holds is launched.
proof fn lemma_spotted_is_launched(node: NodeModel, at: Seq<int>, e: Spotted)
    requires
        node_orderable_throughout(node),
        spot_node(node, at).contains(e),
        e.1.kind is Op,
    ensures
        node_steps(node, at).contains(Step::Launch(e)),
    decreases node, 0nat,
{
    lemma_node_spots(node, at, e);
    let all = node_steps(node, at);
    match node.kind {
        KindModel::Op(_) => {
            assert(all[0] == Step::Launch(e));
        },
        KindModel::SubSchedule(sub) => {
            let inside = first_steps(*sub, at, sub.nodes.len());
            let i = lemma_spotted_from(sub.nodes, at, e);
            assert(node_orderable_throughout(sub.nodes[i]));
            lemma_spotted_is_launched(sub.nodes[i], at.push(i), e);
            let k = lemma_launched_when(sub.nodes, i);
            lemma_step_in(*sub, at, sub.nodes.len(), k, Step::Launch(e));
            let x = choose|x: int| 0 <= x < inside.len() && inside[x] == Step::Launch(e);
            assert(all[x + 1] == Step::Launch(e));
        },
    }
}

/// The steps for a node of a level are taken for spots that go through its place.
proof fn lemma_steps_through(s: ScheduleModel, at: Seq<int>, j: int, step: Step)
    requires
        orderable_throughout(s),
        0 <= j < s.nodes.len(),
        steps_at(s.nodes, at, j).contains(step),
    ensures
        subject(step).0.len() > at.len(),
        subject(step).0[at.len() as int] == launched_at(s.nodes, j),
        spot_node(
            s.nodes[launched_at(s.nodes, j)],
            at.push(launched_at(s.nodes, j)),
        ).contains(subject(step)),
{
    lemma_launched_at(s.nodes, j);
    let i = launched_at(s.nodes, j);
    assert(node_orderable_throughout(s.nodes[i]));
    lemma_steps_are_spotted(s.nodes[i], at.push(i), step);
    lemma_place_in_spot(s.nodes[i], at, i, subject(step));
}

proof fn lemma_steps_in_order(s: ScheduleModel, at: Seq<int>, k: nat, x: int, y: int)
    requires
        orderable_throughout(s),
        k <= s.nodes.len(),
        0 <= x < first_steps(s, at, k).len(),
        0 <= y < first_steps(s, at, k).len(),
        waits_across(
            s.nodes,
            subject(first_steps(s, at, k)[y]).0.skip(at.len() as int),
            subject(first_steps(s, at, k)[x]).0.skip(at.len() as int),
        ),
    ensures
        x < y,
    decreases s, k,
{
    let n = at.len() as int;
    let nodes = s.nodes;
    let order = launch_order(nodes);
    let all = first_steps(s, at, k);
    let before = first_steps(s, at, (k - 1) as nat);
    let last = steps_at(nodes, at, k - 1);
    lemma_launched_at(nodes, k - 1);
    lemma_next_steps(s, at, k);
    let i = launched_at(nodes, k - 1);
    let node = nodes[i];
    let (p, q) = (subject(all[y]).0.skip(n), subject(all[x]).0.skip(n));
    if x < before.len() && y < before.len() {
        assert(all[x] == before[x] && all[y] == before[y]);
        lemma_steps_in_order(s, at, (k - 1) as nat, x, y);
    } else if x >= before.len() && y >= before.len() {
        let (u, v) = (x - before.len(), y - before.len());
        assert(all[x] == last[u] && all[y] == last[v]);
        assert(last.contains(all[x]) && last.contains(all[y]));
        lemma_steps_through(s, at, k - 1, all[x]);
        lemma_steps_through(s, at, k - 1, all[y]);
        assert(p[0] == i && q[0] == i);
        match node.kind {
            KindModel::Op(_) => {},
            KindModel::SubSchedule(sub) => {
                let here = at.push(i);
                let inside = first_steps(*sub, here, sub.nodes.len());
                assert(node_orderable_throughout(node));
                assert(waits_across(sub.nodes, p.skip(1), q.skip(1)));
                assert(subject(all[x]) != (here, node)) by {
                    assert(q.skip(1).len() > 0);
                }
                assert(subject(all[y]) != (here, node)) by {
                    assert(p.skip(1).len() > 0);
                }
                assert(last[0] == Step::Enter((here, node)));
                assert(last[last.len() - 1] == Step::Leave((here, node)));
                assert(0 < u < last.len() - 1 && 0 < v < last.len() - 1);
                assert(inside[u - 1] == last[u] && inside[v - 1] == last[v]);
                assert(p.skip(1) =~= subject(all[y]).0.skip(n + 1));
                assert(q.skip(1) =~= subject(all[x]).0.skip(n + 1));
                lemma_steps_in_order(*sub, here, sub.nodes.len(), u - 1, v - 1);
            },
        }
    } else if y < before.len() {
        assert(all[y] == before[y]);
        assert(all[x] == last[x - before.len()]);
        assert(last.contains(all[x]));
        lemma_steps_through(s, at, k - 1, all[x]);
        let j = lemma_step_from(s, at, (k - 1) as nat, y);
        lemma_steps_through(s, at, j, all[y]);
        lemma_launched_at(nodes, j);
        let h = launched_at(nodes, j);
        assert(p[0] == h && q[0] == i);
        every_node_launches_once(nodes);
        assert(order[j] != order[k - 1]);
        let (b, a) = waits_launch_first(nodes, h, i);
        assert(order[b] == order[j] && order[a] == order[k - 1]);
    }
}

/// What is generated takes no step for a node before it is done with all that
/// the node has to wait for, at whatever depth they stand.
pub proof fn steps_respect_waits(s: ScheduleModel, x: int, y: int)
    requires
        orderable_throughout(s),
        0 <= x < script(s).len(),
        0 <= y < script(s).len(),
        waits_across(s.nodes, subject(script(s)[y]).0, subject(script(s)[x]).0),
    ensures
        x < y,
{
    let (p, q) = (subject(script(s)[y]).0, subject(script(s)[x]).0);
    assert(p.skip(0) =~= p);
    assert(q.skip(0) =~= q);
    lemma_steps_in_order(s, Seq::empty(), s.nodes.len(), x, y);
}

proof fn lemma_steps_differ(s: ScheduleModel, at: Seq<int>, k: nat, x: int, y: int)
    requires
        orderable_throughout(s),
        k <= s.nodes.len(),
        0 <= x < y < first_steps(s, at, k).len(),
    ensures
        first_steps(s, at, k)[x] != first_steps(s, at, k)[y],
    decreases s, k,
{
    let nodes = s.nodes;
    let order = launch_order(nodes);
    let all = first_steps(s, at, k);
    let before = first_steps(s, at, (k - 1) as nat);
    let last = steps_at(nodes, at, k - 1);
    lemma_launched_at(nodes, k - 1);
    lemma_next_steps(s, at, k);
    let i = launched_at(nodes, k - 1);
    let node = nodes[i];
    if y < before.len() {
        assert(all[x] == before[x] && all[y] == before[y]);
        lemma_steps_differ(s, at, (k - 1) as nat, x, y);
    } else {
        assert(all[y] == last[y - before.len()]);
        assert(last.contains(all[y]));
        lemma_steps_through(s, at, k - 1, all[y]);
        if x < before.len() {
            assert(all[x] == before[x]);
            let j = lemma_step_from(s, at, (k - 1) as nat, x);
            lemma_steps_through(s, at, j, all[x]);
            lemma_launched_at(nodes, j);
            every_node_launches_once(nodes);
            assert(order[j] != order[k - 1]);
        } else {
            let (u, v) = (x - before.len(), y - before.len());
            assert(all[x] == last[u]);
            match node.kind {
                KindModel::Op(_) => {},
                KindModel::SubSchedule(sub) => {
                    let here = at.push(i);
                    let inside = first_steps(*sub, here, sub.nodes.len());
                    let end = last.len() - 1;
                    assert(node_orderable_throughout(node));
                    assert(last[0] == Step::Enter((here, node)));
                    assert(last[end] == Step::Leave((here, node)));
                    if v < end {
                        assert(last[v] == inside[v - 1]);
                        let j = lemma_step_from(*sub, here, sub.nodes.len(), v - 1);
                        lemma_steps_through(*sub, here, j, inside[v - 1]);
                        assert(subject(last[v]) != (here, node));
                    }
                    if u > 0 {
                        assert(last[u] == inside[u - 1]);
                        let j = lemma_step_from(*sub, here, sub.nodes.len(), u - 1);
                        lemma_steps_through(*sub, here, j, inside[u - 1]);
                        assert(subject(last[u]) != (here, node));
                    }
                    if u > 0 && v < end {
                        lemma_steps_differ(*sub, here, sub.nodes.len(), u - 1, v - 1);
                    }
                },
            }
        }
    }
}

/// What is generated launches every operation of the schedule, at every level,
/// and nothing else, and takes no step twice.
pub proof fn every_operation_is_launched_once(s: ScheduleModel)
    requires
        orderable_throughout(s),
    ensures
        forall|e: Spotted| #[trigger]
            script(s).contains(Step::Launch(e)) <==> spots(s).contains(e) && e.1.kind is Op,
        script(s).no_duplicates(),
{
    let none = Seq::<int>::empty();
    let n = s.nodes.len();
    assert forall|e: Spotted| #[trigger] script(s).contains(Step::Launch(e)) <==> spots(
        s,
    ).contains(e) && e.1.kind is Op by {
        let step = Step::Launch(e);
        if script(s).contains(step) {
            let x = choose|x: int| 0 <= x < script(s).len() && script(s)[x] == step;
            let j = lemma_step_from(s, none, n, x);
            lemma_launched_at(s.nodes, j);
            let i = launched_at(s.nodes, j);
            assert(node_orderable_throughout(s.nodes[i]));
            lemma_steps_are_spotted(s.nodes[i], none.push(i), step);
            lemma_spotted_in(s.nodes, none, i, e);
        }
        if spots(s).contains(e) && e.1.kind is Op {
            let i = lemma_spotted_from(s.nodes, none, e);
            assert(node_orderable_throughout(s.nodes[i]));
            lemma_spotted_is_launched(s.nodes[i], none.push(i), e);
            let k = lemma_launched_when(s.nodes, i);
            lemma_step_in(s, none, n, k, step);
        }
    }
    assert forall|x: int, y: int| 0 <= x < script(s).len() && 0 <= y < script(s).len() && x
        != y implies script(s)[x] != script(s)[y] by {
        if x < y {
            lemma_steps_differ(s, none, n, x, y);
        } else {
            lemma_steps_differ(s, none, n, y, x);
        }
    }
}

/// The line that names a node of a level at this depth.
pub open spec fn node_header(node: NodeModel, depth: nat) -> Seq<char> {
    let indent = indentation(depth + 1);
    match node.kind {
        KindModel::Op(_) => indent + "// node "@ + decimal(node.id as nat) + " (sm "@ + decimal(
            node.sm as nat,
        ) + ")\n"@,
        KindModel::SubSchedule(sub) => indent + "// node "@ + decimal(node.id as nat)
            + " -> inlined sub-schedule '"@ + sub.name + "'\n"@,
    }
}

/// What a node of a level at this depth does: the line that launches its
/// operation, or the lines of the schedule that it holds.
pub open spec fn node_body(node: NodeModel, depth: nat) -> Source {
    match node.kind {
        KindModel::Op(op) => op_line(node, op, indentation(depth + 1)),
        KindModel::SubSchedule(sub) => schedule_lines(*sub, depth + 1),
    }
}

/// The lines of a level name its nodes in launch order, each followed at once
/// by what it does: after the lines of the first `k` nodes come those of the
/// one that is launched next.
pub proof fn levels_are_written_in_launch_order(s: ScheduleModel, depth: nat, k: nat)
    requires
        schedule_lines(s, depth) is Ok,
        k < s.nodes.len(),
    ensures
        ({
            let i = place_of(s.nodes, launch_order(s.nodes)[k as int]);
            let node = s.nodes[i];
            &&& 0 <= i < s.nodes.len()
            &&& node.id == launch_order(s.nodes)[k as int]
            &&& node_body(node, depth) is Ok
            &&& first_lines(s, k, depth) is Ok
            &&& first_lines(s, k + 1, depth) == Ok::<_, CodegenErrorModel>(
                first_lines(s, k, depth)->Ok_0 + (node_header(node, depth) + node_body(
                    node,
                    depth,
                )->Ok_0),
            )
        }),
        first_lines(s, 0, depth) == Ok::<_, CodegenErrorModel>(Seq::<char>::empty()),
        first_lines(s, s.nodes.len(), depth) is Ok,
{
    lemma_launched_at(s.nodes, k as int);
    if first_lines(s, k + 1, depth) is Err {
        lemma_error_stays(s, k + 1, s.nodes.len(), depth);
    }
    let i = launched_at(s.nodes, k as int);
    let node = s.nodes[i];
    assert(((k + 1) - 1) as nat == k);
    assert(place_of(s.nodes, launch_order(s.nodes)[(k + 1) - 1]) == i);
    assert(first_lines(s, k, depth) is Ok);
    assert(node_lines(node, depth) is Ok);
    assert(node_lines(node, depth)->Ok_0 == node_header(node, depth) + node_body(
        node,
        depth,
    )->Ok_0);
}

} // verus!
