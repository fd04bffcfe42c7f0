//! How generated source is laid out.
//!
//! The order in which the nodes of a level are written, what stands around the
//! lines of a node and of a level, which fields are declared and pointed to,
//! and what stops generation.
use vstd::prelude::*;
use vstd::utf8::encode_utf8;

use crate::calls::{identifiers_stand_for_names, is_number, lemma_decimal_is_number, stands_for};
use crate::cuda_codegen::{
    address_lines, cuda_fields, cuda_source, field_lines, field_names, first_lines, identifier,
    indentation, node_lines, op_line, place_of, pointer_lines, schedule_lines, CodegenErrorModel,
};
use crate::generation::{every_tensor_is_declared, only_tensors_are_declared};
use crate::graph::{acyclic, reaches, waits};
use crate::hazards::{answered, comes_after, lemma_after, lemma_answered};
use crate::interface::node_accesses;
use crate::ir::{flat, has_id, NodeId, NodeModel, ScheduleModel, TensorModel};
use crate::order::{
    every_node_launches_once, id_graph, launch_order, least_ready, lemma_launch_order_exists,
    lemma_unique_index, nodes_in_order, orderable, ready, unique_ids,
};
use crate::rules::wait_graph;
use crate::text::{decimal, less_at, strictly_sorted, text_before};

verus! {

/// Nodes can be put in order if and only if no two have one id, every wait
/// names a node and no node comes after itself.
pub proof fn levels_that_have_an_order(nodes: Seq<NodeModel>)
    ensures
        orderable(nodes) <==> {
            &&& forall|i: int, j: int|
                0 <= i < j < nodes.len() ==> (#[trigger] nodes[i]).id != (#[trigger] nodes[j]).id
            &&& forall|i: int, k: int|
                0 <= i < nodes.len() && 0 <= k < nodes[i].waits_on.len() ==> #[trigger] answered(
                    nodes,
                    i,
                    k,
                )
            &&& forall|i: int| !#[trigger] comes_after(nodes, i, i)
        },
{
    lemma_answered(nodes);
    assert forall|i: int| #[trigger] comes_after(nodes, i, i) == reaches(
        wait_graph(nodes),
        i,
        i,
    ) by {
        lemma_after(nodes, i, i);
    }
    if forall|i: int| !#[trigger] comes_after(nodes, i, i) {
        assert forall|i: int| !#[trigger] reaches(wait_graph(nodes), i, i) by {
            assert(!comes_after(nodes, i, i));
        }
    }
    if acyclic(wait_graph(nodes)) {
        assert forall|i: int| !#[trigger] comes_after(nodes, i, i) by {
            assert(!reaches(wait_graph(nodes), i, i));
        }
    }
}

/// None of the nodes at these places has the id.
pub open spec fn missing(nodes: Seq<NodeModel>, done: Seq<int>, id: NodeId) -> bool {
    forall|m: int| 0 <= m < done.len() ==> nodes[#[trigger] done[m]].id != id
}

/// The node at `i` waits for an id that none of the nodes at these places has.
pub open spec fn held_up(nodes: Seq<NodeModel>, done: Seq<int>, i: int) -> bool {
    exists|w: int|
        0 <= w < nodes[i].waits_on.len() && missing(nodes, done, #[trigger] nodes[i].waits_on[w])
}

/// Every place once; each node when no wait holds it up any more; and of those
/// that none holds up, the node with the smallest id.
pub open spec fn well_ordered(nodes: Seq<NodeModel>, at: Seq<int>) -> bool {
    &&& at.len() == nodes.len()
    &&& at.no_duplicates()
    &&& forall|k: int| 0 <= k < at.len() ==> 0 <= #[trigger] at[k] < nodes.len()
    &&& forall|k: int| 0 <= k < at.len() ==> !held_up(nodes, at.take(k), #[trigger] at[k])
    &&& forall|k: int, l: int|
        0 <= k < l < at.len() ==> nodes[#[trigger] at[k]].id < nodes[#[trigger] at[l]].id
            || held_up(nodes, at.take(k), at[l])
}

proof fn lemma_at(nodes: Seq<NodeModel>, k: int)
    requires
        orderable(nodes),
        0 <= k < nodes.len(),
    ensures
        launch_order(nodes).len() == nodes.len(),
        0 <= place_of(nodes, launch_order(nodes)[k]) < nodes.len(),
        nodes[place_of(nodes, launch_order(nodes)[k])].id == launch_order(nodes)[k],
        least_ready(nodes, launch_order(nodes).take(k), launch_order(nodes)[k]),
{
    lemma_launch_order_exists(nodes);
    every_node_launches_once(nodes);
    let id = launch_order(nodes)[k];
    assert(launch_order(nodes).contains(id));
    assert(has_id(nodes, id));
}

/// Whether a node is ready, by places.
proof fn lemma_ready(nodes: Seq<NodeModel>, done: Seq<int>, launched: Seq<NodeId>, i: int)
    requires
        unique_ids(nodes),
        0 <= i < nodes.len(),
        done.len() == launched.len(),
        forall|m: int| 0 <= m < done.len() ==> 0 <= #[trigger] done[m] < nodes.len(),
        forall|m: int| 0 <= m < done.len() ==> nodes[#[trigger] done[m]].id == launched[m],
        !launched.contains(nodes[i].id),
    ensures
        ready(nodes, launched, nodes[i].id) <==> !held_up(nodes, done, i),
{
    let id = nodes[i].id;
    lemma_unique_index(nodes, i);
    assert(id_graph(nodes)[id] == nodes[i].waits_on);
    assert(has_id(nodes, id));
    if !held_up(nodes, done, i) {
        assert forall|b: NodeId| #[trigger] waits(id_graph(nodes), id, b) implies launched.contains(
            b,
        ) by {
            let w = choose|w: int| 0 <= w < nodes[i].waits_on.len() && nodes[i].waits_on[w] == b;
            assert(!missing(nodes, done, nodes[i].waits_on[w]));
            let m = choose|m: int|
                0 <= m < done.len() && nodes[#[trigger] done[m]].id == nodes[i].waits_on[w];
            assert(launched[m] == b);
        }
    }
    if ready(nodes, launched, id) && held_up(nodes, done, i) {
        let w = choose|w: int|
            0 <= w < nodes[i].waits_on.len() && missing(
                nodes,
                done,
                #[trigger] nodes[i].waits_on[w],
            );
        let b = nodes[i].waits_on[w];
        assert(nodes[i].waits_on.contains(b));
        assert(waits(id_graph(nodes), id, b));
        let m = choose|m: int| 0 <= m < launched.len() && launched[m] == b;
        assert(nodes[done[m]].id == b);
    }
}

/// The nodes of a level are launched one after the other, each once and after
/// those that it waits for, and the one with the smallest id wherever there is
/// a choice.
pub proof fn nodes_launch_in_order(nodes: Seq<NodeModel>) -> (at: Seq<int>)
    requires
        orderable(nodes),
    ensures
        well_ordered(nodes, at),
        launch_order(nodes).len() == at.len(),
        forall|k: int|
            0 <= k < at.len() ==> #[trigger] launch_order(nodes)[k] == nodes[at[k]].id,
        nodes_in_order(nodes, launch_order(nodes)).len() == at.len(),
        forall|k: int|
            0 <= k < at.len() ==> #[trigger] nodes_in_order(nodes, launch_order(nodes))[k]
                == nodes[at[k]],
        forall|k: int| 0 <= k < at.len() ==> place_of(nodes, launch_order(nodes)[k]) == at[k],
{
    let order = launch_order(nodes);
    let at = Seq::new(nodes.len(), |k: int| place_of(nodes, order[k]));
    every_node_launches_once(nodes);
    assert forall|k: int| 0 <= k < at.len() implies 0 <= #[trigger] at[k] < nodes.len()
        && nodes[at[k]].id == order[k] by {
        lemma_at(nodes, k);
    }
    assert forall|k: int, l: int| 0 <= k < l < at.len() implies at[k] != at[l] by {
        assert(order[k] != order[l]);
    }
    assert forall|k: int| 0 <= k < at.len() implies nodes_in_order(nodes, order)[k]
        == nodes[at[k]] by {
        lemma_unique_index(nodes, at[k]);
    }
    assert forall|k: int, l: int| 0 <= k <= l < at.len() implies (ready(
        nodes,
        order.take(k),
        #[trigger] order[l],
    ) <==> !held_up(nodes, #[trigger] at.take(k), at[l])) by {
        let done = at.take(k);
        let launched = order.take(k);
        assert(!launched.contains(nodes[at[l]].id)) by {
            if launched.contains(order[l]) {
                let m = choose|m: int| 0 <= m < launched.len() && launched[m] == order[l];
                assert(order[m] == order[l]);
            }
        }
        lemma_ready(nodes, done, launched, at[l]);
    }
    assert forall|k: int| 0 <= k < at.len() implies !held_up(
        nodes,
        at.take(k),
        #[trigger] at[k],
    ) by {
        lemma_at(nodes, k);
        assert(ready(nodes, order.take(k), order[k]));
    }
    assert forall|k: int, l: int|
        0 <= k < l < at.len() implies nodes[#[trigger] at[k]].id < nodes[#[trigger] at[l]].id
        || held_up(nodes, at.take(k), at[l]) by {
        lemma_at(nodes, k);
        if !held_up(nodes, at.take(k), at[l]) {
            assert(ready(nodes, order.take(k), order[l]));
            assert(order[k] != order[l]);
        }
    }
    at
}

/// This many blanks.
pub open spec fn is_blank(text: Seq<char>, n: nat) -> bool {
    &&& text.len() == n
    &&& forall|i: int| 0 <= i < n ==> #[trigger] text[i] == ' '
}

proof fn lemma_blank(depth: nat)
    ensures
        is_blank(indentation(depth), 4 * depth),
    decreases depth,
{
    if depth > 0 {
        lemma_blank((depth - 1) as nat);
        reveal_strlit("    ");
    }
}

/// The lines of an operation: a comment with the numbers of the node and of
/// its unit, then the line that launches it, both indented by four blanks for
/// each level. There are none where that line cannot be had.
pub proof fn operations_are_laid_out(node: NodeModel, depth: nat) -> (parts: (
    Seq<char>,
    Seq<char>,
    Seq<char>,
))
    requires
        node.kind is Op,
    ensures
        is_blank(parts.0, 4 * (depth + 1)),
        is_number(parts.1, node.id as nat),
        is_number(parts.2, node.sm as nat),
        node_lines(node, depth) == match op_line(node, node.kind->Op_0, parts.0) {
            Ok(line) => Ok::<_, CodegenErrorModel>(
                parts.0 + "// node "@ + parts.1 + " (sm "@ + parts.2 + ")\n"@ + line,
            ),
            Err(e) => Err(e),
        },
{
    lemma_blank(depth + 1);
    lemma_decimal_is_number(node.id as nat);
    lemma_decimal_is_number(node.sm as nat);
    (indentation(depth + 1), decimal(node.id as nat), decimal(node.sm as nat))
}

/// The lines of a node that holds a schedule: a comment with the number of the
/// node and the name of the schedule, then the lines of the schedule one level
/// further in.
pub proof fn nested_schedules_are_laid_out(node: NodeModel, depth: nat) -> (parts: (
    Seq<char>,
    Seq<char>,
))
    requires
        node.kind is SubSchedule,
    ensures
        is_blank(parts.0, 4 * (depth + 1)),
        is_number(parts.1, node.id as nat),
        node_lines(node, depth) == match schedule_lines(*node.kind->SubSchedule_0, depth + 1) {
            Ok(lines) => Ok::<_, CodegenErrorModel>(
                parts.0 + "// node "@ + parts.1 + " -> inlined sub-schedule '"@
                    + node.kind->SubSchedule_0.name + "'\n"@ + lines,
            ),
            Err(e) => Err(e),
        },
{
    lemma_blank(depth + 1);
    lemma_decimal_is_number(node.id as nat);
    (indentation(depth + 1), decimal(node.id as nat))
}

/// The lines of the nodes at these places, one after the other.
pub open spec fn in_turn(nodes: Seq<NodeModel>, at: Seq<int>, depth: nat) -> Seq<char>
    decreases at.len(),
{
    if at.len() == 0 {
        Seq::empty()
    } else {
        in_turn(nodes, at.drop_last(), depth) + node_lines(nodes[at.last()], depth)->Ok_0
    }
}

proof fn lemma_first_in_turn(s: ScheduleModel, at: Seq<int>, k: nat, depth: nat)
    requires
        orderable(s.nodes),
        k <= s.nodes.len(),
        at.len() == s.nodes.len(),
        forall|j: int|
            0 <= j < at.len() ==> place_of(s.nodes, launch_order(s.nodes)[j]) == #[trigger] at[j],
        forall|j: int| 0 <= j < at.len() ==> 0 <= #[trigger] at[j] < s.nodes.len(),
    ensures
        match first_lines(s, k, depth) {
            Ok(lines) => {
                &&& lines == in_turn(s.nodes, at.take(k as int), depth)
                &&& forall|j: int|
                    0 <= j < k ==> node_lines(s.nodes[#[trigger] at[j]], depth) is Ok
            },
            Err(e) => exists|j: int| {
                &&& 0 <= j < k
                &&& node_lines(s.nodes[#[trigger] at[j]], depth) == Err::<Seq<char>, _>(e)
                &&& forall|l: int|
                    0 <= l < j ==> node_lines(s.nodes[#[trigger] at[l]], depth) is Ok
            },
        },
    decreases k,
{
    if k == 0 {
        assert(at.take(0).len() == 0);
    } else {
        let p = (k - 1) as nat;
        lemma_first_in_turn(s, at, p, depth);
        assert(at[p as int] == place_of(s.nodes, launch_order(s.nodes)[k - 1]));
        assert(at.take(k as int).drop_last() =~= at.take(p as int));
        assert(at.take(k as int).last() == at[p as int]);
    }
}

/// The lines of a level are those of its nodes in launch order. A level at the
/// top stands as it is; one further in stands in braces, with its name behind
/// the first, and the braces are indented by four blanks for each level above.
pub proof fn levels_are_laid_out(s: ScheduleModel, depth: nat) -> (parts: (Seq<int>, Seq<char>))
    requires
        schedule_lines(s, depth) is Ok,
    ensures
        orderable(s.nodes),
        well_ordered(s.nodes, parts.0),
        is_blank(parts.1, 4 * depth),
        forall|k: int|
            0 <= k < parts.0.len() ==> node_lines(s.nodes[#[trigger] parts.0[k]], depth) is Ok,
        depth == 0 ==> schedule_lines(s, depth)->Ok_0 == in_turn(s.nodes, parts.0, depth),
        depth > 0 ==> schedule_lines(s, depth)->Ok_0 == parts.1 + "{ // sub-schedule: "@ + s.name
            + "\n"@ + in_turn(s.nodes, parts.0, depth) + parts.1 + "}\n"@,
{
    let at = nodes_launch_in_order(s.nodes);
    lemma_first_in_turn(s, at, s.nodes.len(), depth);
    lemma_blank(depth);
    assert(at.take(s.nodes.len() as int) =~= at);
    (at, indentation(depth))
}

/// No lines are written for a level that cannot be put in order, and its name
/// is reported; nor for one of which a node has none, and then what is
/// reported is what is wrong with the first such node in launch order.
pub proof fn levels_that_stop_generation(s: ScheduleModel, depth: nat) -> (at: Seq<int>)
    requires
        schedule_lines(s, depth) is Err,
    ensures
        !orderable(s.nodes) ==> schedule_lines(s, depth) == Err::<Seq<char>, _>(
            CodegenErrorModel::Cycle(s.name),
        ),
        orderable(s.nodes) ==> {
            &&& well_ordered(s.nodes, at)
            &&& exists|j: int| {
                &&& 0 <= j < at.len()
                &&& node_lines(s.nodes[#[trigger] at[j]], depth) == schedule_lines(s, depth)
                &&& forall|l: int|
                    0 <= l < j ==> node_lines(s.nodes[#[trigger] at[l]], depth) is Ok
            }
        },
{
    if orderable(s.nodes) {
        let at = nodes_launch_in_order(s.nodes);
        lemma_first_in_turn(s, at, s.nodes.len(), depth);
        at
    } else {
        Seq::empty()
    }
}

/// A line for each name: what stands before it, the name and what stands after.
pub open spec fn each(names: Seq<Seq<char>>, before: Seq<char>, after: Seq<char>) -> Seq<char>
    decreases names.len(),
{
    if names.len() == 0 {
        Seq::empty()
    } else {
        before + names[0] + after + each(names.skip(1), before, after)
    }
}

/// A line for each name, with the name in it twice.
pub open spec fn each_twice(
    names: Seq<Seq<char>>,
    before: Seq<char>,
    between: Seq<char>,
    after: Seq<char>,
) -> Seq<char>
    decreases names.len(),
{
    if names.len() == 0 {
        Seq::empty()
    } else {
        before + names[0] + between + names[0] + after + each_twice(
            names.skip(1),
            before,
            between,
            after,
        )
    }
}

proof fn lemma_each_last(names: Seq<Seq<char>>, before: Seq<char>, after: Seq<char>)
    requires
        names.len() > 0,
    ensures
        each(names, before, after) == each(names.drop_last(), before, after) + before
            + names.last() + after,
    decreases names.len(),
{
    let rest = names.skip(1);
    let line = before + names[0] + after;
    if names.len() == 1 {
        assert(each(rest, before, after) =~= Seq::<char>::empty());
        assert(each(names.drop_last(), before, after) =~= Seq::<char>::empty());
        assert(line + Seq::<char>::empty() =~= Seq::<char>::empty() + before + names[0] + after);
    } else {
        lemma_each_last(rest, before, after);
        assert(rest.drop_last() =~= names.drop_last().skip(1));
        assert(names.drop_last()[0] == names[0]);
        let x = each(rest.drop_last(), before, after);
        assert(line + (x + before + names.last() + after) =~= (line + x) + before + names.last()
            + after);
    }
}

proof fn lemma_each_twice_last(
    names: Seq<Seq<char>>,
    before: Seq<char>,
    between: Seq<char>,
    after: Seq<char>,
)
    requires
        names.len() > 0,
    ensures
        each_twice(names, before, between, after) == each_twice(
            names.drop_last(),
            before,
            between,
            after,
        ) + before + names.last() + between + names.last() + after,
    decreases names.len(),
{
    let rest = names.skip(1);
    let line = before + names[0] + between + names[0] + after;
    let last = names.last();
    if names.len() == 1 {
        assert(each_twice(rest, before, between, after) =~= Seq::<char>::empty());
        assert(each_twice(names.drop_last(), before, between, after) =~= Seq::<char>::empty());
        assert(line + Seq::<char>::empty() =~= Seq::<char>::empty() + before + names[0] + between
            + names[0] + after);
    } else {
        lemma_each_twice_last(rest, before, between, after);
        assert(rest.drop_last() =~= names.drop_last().skip(1));
        assert(names.drop_last()[0] == names[0]);
        let x = each_twice(rest.drop_last(), before, between, after);
        assert(line + (x + before + last + between + last + after) =~= (line + x) + before + last
            + between + last + after);
    }
}

proof fn lemma_lines_of_fields(names: Seq<Seq<char>>)
    ensures
        field_lines(names) == each(names, "    float* "@, ";\n"@),
        pointer_lines(names) == each_twice(names, "    float* "@, " = t."@, ";\n"@),
        address_lines(names) == each(names, "&t."@, ",\n"@),
    decreases names.len(),
{
    if names.len() > 0 {
        lemma_lines_of_fields(names.drop_last());
        lemma_each_last(names, "    float* "@, ";\n"@);
        lemma_each_twice_last(names, "    float* "@, " = t."@, ";\n"@);
        lemma_each_last(names, "&t."@, ",\n"@);
    }
}

/// The first text has the smaller byte where the two first differ, or ends there.
pub open spec fn smaller(a: Seq<u8>, b: Seq<u8>) -> bool {
    exists|k: int| {
        &&& 0 <= k <= a.len()
        &&& k < b.len()
        &&& #[trigger] a.take(k) == b.take(k)
        &&& k < a.len() ==> a[k] < b[k]
    }
}

/// A text comes before another where it has the smaller byte; in a sorted list
/// every text comes before those that follow it.
pub proof fn texts_are_sorted_by_their_bytes(a: Seq<char>, b: Seq<char>, list: Seq<Seq<char>>)
    ensures
        text_before(a, b) <==> smaller(encode_utf8(a), encode_utf8(b)),
        strictly_sorted(list) <==> forall|i: int, j: int|
            0 <= i < j < list.len() ==> smaller(
                encode_utf8(#[trigger] list[i]),
                encode_utf8(#[trigger] list[j]),
            ),
{
    lemma_smaller(a, b);
    assert forall|i: int, j: int| 0 <= i < j < list.len() implies (text_before(
        #[trigger] list[i],
        #[trigger] list[j],
    ) <==> smaller(encode_utf8(list[i]), encode_utf8(list[j]))) by {
        lemma_smaller(list[i], list[j]);
    }
}

proof fn lemma_smaller(a: Seq<char>, b: Seq<char>)
    ensures
        text_before(a, b) <==> smaller(encode_utf8(a), encode_utf8(b)),
{
    let (x, y) = (encode_utf8(a), encode_utf8(b));
    if text_before(a, b) {
        let k = choose|k: int| less_at(x, y, k);
        assert(x.take(k) =~= y.take(k));
    }
    if smaller(x, y) {
        let k = choose|k: int| {
            &&& 0 <= k <= x.len()
            &&& k < y.len()
            &&& #[trigger] x.take(k) == y.take(k)
            &&& k < x.len() ==> x[k] < y[k]
        };
        assert forall|i: int| 0 <= i < k implies x[i] == y[i] by {
            assert(x.take(k)[i] == y.take(k)[i]);
        }
        assert(less_at(x, y, k));
    }
}

/// An identifier for each tensor that an operation of the schedule lists, at
/// any depth, and no other; sorted by their bytes, none twice.
pub open spec fn names_the_tensors(names: Seq<Seq<char>>, s: ScheduleModel) -> bool {
    &&& forall|i: int, j: int|
        0 <= i < j < names.len() ==> smaller(
            encode_utf8(#[trigger] names[i]),
            encode_utf8(#[trigger] names[j]),
        )
    &&& forall|name: Seq<char>| #[trigger]
        names.contains(name) <==> exists|k: int, t: TensorModel| #[trigger]
            listed_by(s, k, t) && stands_for(name, t.name)
}

/// The `k`-th entry of the listing is an operation and has the tensor among
/// its inputs or outputs.
pub open spec fn listed_by(s: ScheduleModel, k: int, t: TensorModel) -> bool {
    &&& 0 <= k < flat(s).len()
    &&& flat(s)[k].1.kind is Op
    &&& flat(s)[k].1.inputs.contains(t) || flat(s)[k].1.outputs.contains(t)
}

proof fn lemma_field_names(s: ScheduleModel)
    ensures
        names_the_tensors(field_names(s), s),
{
    let names = field_names(s);
    crate::generation::lemma_field_names(s);
    assert forall|i: int, j: int| 0 <= i < j < names.len() implies smaller(
        encode_utf8(#[trigger] names[i]),
        encode_utf8(#[trigger] names[j]),
    ) by {
        assert(text_before(names[i], names[j]));
        lemma_smaller(names[i], names[j]);
    }
    assert forall|name: Seq<char>| #[trigger] names.contains(name) <==> exists|
        k: int,
        t: TensorModel,
    | #[trigger] listed_by(s, k, t) && stands_for(name, t.name) by {
        if names.contains(name) {
            let k = only_tensors_are_declared(s, name);
            let node = flat(s)[k].1;
            let x = choose|x: int|
                0 <= x < node_accesses(node).len() && name == identifier(
                    (#[trigger] node_accesses(node)[x]).tensor.name,
                );
            let t = node_accesses(node)[x].tensor;
            identifiers_stand_for_names(t.name);
            if x < node.inputs.len() {
                assert(node.inputs[x] == t);
            } else {
                assert(node.outputs[x - node.inputs.len()] == t);
            }
            assert(listed_by(s, k, t));
        }
        if exists|k: int, t: TensorModel| #[trigger]
            listed_by(s, k, t) && stands_for(name, t.name) {
            let (k, t) = choose|k: int, t: TensorModel| #[trigger]
                listed_by(s, k, t) && stands_for(name, t.name);
            let node = flat(s)[k].1;
            identifiers_stand_for_names(t.name);
            assert(name == identifier(t.name));
            every_tensor_is_declared(s, k);
            if node.inputs.contains(t) {
                let x = choose|x: int| 0 <= x < node.inputs.len() && node.inputs[x] == t;
                assert(names.contains(identifier(flat(s)[k].1.inputs[x].name)));
            } else {
                let x = choose|x: int| 0 <= x < node.outputs.len() && node.outputs[x] == t;
                assert(names.contains(identifier(flat(s)[k].1.outputs[x].name)));
            }
        }
    }
}

/// Source names its schedule, gives the length of the tensors in decimal,
/// declares a field for each tensor that an operation lists and a pointer of
/// the same name to it, and then holds the lines of the schedule. The list of
/// fields has a line for each of the fields that the source declares, in the
/// same order, and no other. There is source if and only if there are lines.
pub proof fn source_is_laid_out(s: ScheduleModel, tensor_len: u64) -> (parts: (
    Seq<Seq<char>>,
    Seq<char>,
))
    ensures
        names_the_tensors(parts.0, s),
        is_number(parts.1, tensor_len as nat),
        cuda_source(s, tensor_len) == match schedule_lines(s, 0) {
            Err(e) => Err::<Seq<char>, _>(e),
            Ok(lines) => Ok(
                "// AUTO-GENERATED by titanmk gen-cuda. DO NOT EDIT BY HAND.\n// Source schedule: "@
                    + s.name
                    + "\n#include \"titan_kernels.cuh\"\n#include <cstdio>\n\n#define TITAN_TENSOR_LEN "@
                    + parts.1
                    + "ULL\n\ninline void titan_zero_init(float* ptr, uint64_t len, cudaStream_t stream) {\n    cudaMemsetAsync(ptr, 0, len * sizeof(float), stream);\n}\n\n// TensorSet: device pointers for every tensor in the schedule's\n// aggregate interface. Caller (host) allocates with cudaMalloc.\nstruct TensorSet {\n"@
                    + each(parts.0, "    float* "@, ";\n"@)
                    + "};\n\nvoid run_megakernel(const TensorSet& t, cudaStream_t stream) {\n"@
                    + each_twice(parts.0, "    float* "@, " = t."@, ";\n"@) + "\n"@ + lines
                    + "}\n"@,
            ),
        },
        cuda_fields(s)
            == "// AUTO-GENERATED: TensorSet field pointers, in declaration order.\n"@ + each(
            parts.0,
            "&t."@,
            ",\n"@,
        ),
{
    lemma_field_names(s);
    lemma_lines_of_fields(field_names(s));
    lemma_decimal_is_number(tensor_len as nat);
    (field_names(s), decimal(tensor_len as nat))
}

} // verus!
