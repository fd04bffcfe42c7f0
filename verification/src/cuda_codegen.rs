//! CUDA source for certified schedules.
//!
//! The source holds one function that launches every operation of the
//! schedule on one stream: the nodes of each level in launch order, nested
//! schedules in line where their nodes stand.
use vstd::prelude::*;

use crate::interface::{accesses, accesses_to, Access};
use crate::ir::{
    flat, has_id, index_model, lemma_indexed_at, placed_models, tensor_models, KindModel, Node,
    NodeId, NodeKind, NodeModel, OpKind, OpModel, Schedule, ScheduleModel, Tensor, TensorModel,
};
use crate::order::{
    is_launch_order, launch_order, node_models, nodes_in_order, orderable, topo_sort, unique_ids,
};
use crate::text::{
    decimal, decimal_text, insert_sorted, lemma_sorted_unique, same_text, sorted, strictly_sorted,
    texts,
};

verus! {

/// Why no source was generated.
#[derive(Debug)]
pub enum CudaCodegenError {
    /// The nodes of the schedule of this name have no launch order.
    Cycle(String),
    /// The node of this id has too few tensors for its operation.
    BadArity(u32, OpKind),
}

/// What a [`CudaCodegenError`] reports.
#[verifier::ext_equal]
pub enum CodegenErrorModel {
    Cycle(Seq<char>),
    BadArity(u32, OpModel),
}

impl View for CudaCodegenError {
    type V = CodegenErrorModel;

    open spec fn view(&self) -> CodegenErrorModel {
        match self {
            CudaCodegenError::Cycle(name) => CodegenErrorModel::Cycle(name@),
            CudaCodegenError::BadArity(id, op) => CodegenErrorModel::BadArity(*id, op@),
        }
    }
}

/// Source text, or why there is none.
pub type Source = Result<Seq<char>, CodegenErrorModel>;

/// An ASCII letter or digit.
pub open spec fn ascii_alphanumeric(c: char) -> bool {
    'a' <= c <= 'z' || 'A' <= c <= 'Z' || '0' <= c <= '9'
}

/// Whether a character beyond ASCII is a letter or a numeral.
pub uninterp spec fn unicode_alphanumeric(c: char) -> bool;

/// Whether a character is a letter or a numeral.
pub open spec fn alphanumeric(c: char) -> bool {
    if (c as int) < 128 {
        ascii_alphanumeric(c)
    } else {
        unicode_alphanumeric(c)
    }
}

/// `char::is_alphanumeric`: whether the character is alphabetic or numeric in
/// Unicode. In ASCII these are the letters and digits and nothing else; beyond
/// it the result is a function of the character alone.
pub assume_specification[ char::is_alphanumeric ](c: char) -> (res: bool)
    ensures
        res == (if (c as int) < 128 {
            ascii_alphanumeric(c)
        } else {
            unicode_alphanumeric(c)
        }),
;

/// A character of an identifier, or an underscore in its place.
pub open spec fn identifier_char(c: char) -> char {
    if alphanumeric(c) || c == '_' {
        c
    } else {
        '_'
    }
}

/// What stands for a character in an identifier, told whether the character is
/// a letter or a numeral.
pub fn identifier_character(c: char, is_alphanumeric: bool) -> (res: char)
    ensures
        res == (if is_alphanumeric || c == '_' {
            c
        } else {
            '_'
        }),
{
    if is_alphanumeric || c == '_' {
        c
    } else {
        '_'
    }
}

/// A tensor name as an identifier.
pub open spec fn identifier(name: Seq<char>) -> Seq<char> {
    name.map_values(|c: char| identifier_char(c))
}

/// Turns a tensor name into an identifier.
pub fn sanitize(name: &str) -> (res: String)
    ensures
        res@ == identifier(name@),
{
    let mut out: String = String::new();
    assert(out@ =~= identifier(name@.take(0)));
    for c in it: name.chars()
        invariant
            it.seq() == name@,
            out@ == identifier(name@.take(it.index() as int)),
    {
        let ghost i = it.index() as int;
        out.push(identifier_character(c, c.is_alphanumeric()));
        assert(name@[i] == c);
        assert(out@ =~= identifier(name@.take(i + 1)));
    }
    assert(name@.take(name@.len() as int) =~= name@);
    out
}

/// The number by which the elementwise kernel knows an operation.
pub open spec fn op_code(op: Seq<char>) -> nat {
    if op == "relu"@ {
        1
    } else if op == "gelu"@ {
        2
    } else if op == "silu"@ {
        3
    } else {
        0
    }
}

/// The number by which the elementwise kernel knows an operation.
pub fn elementwise_op_code(op: &str) -> (res: i32)
    ensures
        res == op_code(op@),
{
    if same_text(op, "relu") {
        1
    } else if same_text(op, "gelu") {
        2
    } else if same_text(op, "silu") {
        3
    } else {
        0
    }
}

/// The identifier of the `i`-th tensor.
pub open spec fn identifier_at(tensors: Seq<TensorModel>, i: int) -> Seq<char> {
    identifier(tensors[i].name)
}

/// The line that launches one operation.
pub open spec fn op_line(node: NodeModel, op: OpModel, indent: Seq<char>) -> Source {
    let bad_arity = Err(CodegenErrorModel::BadArity(node.id, op));
    match op {
        OpModel::MatMul { m, n, k } => if node.outputs.len() < 1 || node.inputs.len() < 2 {
            bad_arity
        } else {
            Ok(
                indent + "titan_matmul("@ + identifier_at(node.outputs, 0) + ", "@ + identifier_at(
                    node.inputs,
                    0,
                ) + ", "@ + identifier_at(node.inputs, 1) + ", "@ + decimal(m as nat) + ", "@
                    + decimal(n as nat) + ", "@ + decimal(k as nat) + ", stream);\n"@,
            )
        },
        OpModel::RmsNorm { dim } => if node.outputs.len() < 1 || node.inputs.len() < 1 {
            bad_arity
        } else {
            Ok(
                indent + "titan_rmsnorm("@ + identifier_at(node.outputs, 0) + ", "@ + identifier_at(
                    node.inputs,
                    0,
                ) + ", /*rows=*/1, "@ + decimal(dim as nat) + ", stream);\n"@,
            )
        },
        OpModel::Softmax { dim } => if node.outputs.len() < 1 || node.inputs.len() < 1 {
            bad_arity
        } else {
            Ok(
                indent + "titan_softmax("@ + identifier_at(node.outputs, 0) + ", "@ + identifier_at(
                    node.inputs,
                    0,
                ) + ", /*rows=*/1, "@ + decimal(dim as nat) + ", stream);\n"@,
            )
        },
        OpModel::Attention { heads, head_dim, seq_len } => if node.outputs.len() < 1
            || node.inputs.len() < 3 {
            bad_arity
        } else {
            Ok(
                indent + "titan_attention("@ + identifier_at(node.outputs, 0) + ", "@
                    + identifier_at(node.inputs, 0) + ", "@ + identifier_at(node.inputs, 1) + ", "@
                    + identifier_at(node.inputs, 2) + ", "@ + decimal(heads as nat) + ", "@
                    + decimal(head_dim as nat) + ", "@ + decimal(seq_len as nat)
                    + ", stream);\n"@,
            )
        },
        OpModel::Elementwise { op: name } => if node.outputs.len() < 1 {
            bad_arity
        } else if node.inputs.len() < 1 {
            Ok(
                indent + "// node "@ + decimal(node.id as nat) + ": source op '"@ + name
                    + "' on '"@ + identifier_at(node.outputs, 0)
                    + "' -- assumed pre-populated by host, no-op here\n"@,
            )
        } else {
            Ok(
                indent + "titan_elementwise("@ + identifier_at(node.outputs, 0) + ", "@
                    + identifier_at(node.inputs, 0) + ", /*len=*/TITAN_TENSOR_LEN, /*op=*/"@
                    + decimal(op_code(name)) + ", stream); // "@ + name + "\n"@,
            )
        },
        OpModel::Barrier => Ok(indent + "titan_barrier(stream);\n"@),
    }
}

/// The indentation of a level.
pub open spec fn indentation(depth: nat) -> Seq<char>
    decreases depth,
{
    if depth == 0 {
        Seq::empty()
    } else {
        indentation((depth - 1) as nat) + "    "@
    }
}

/// The place of the node with this id.
pub open spec fn place_of(nodes: Seq<NodeModel>, id: NodeId) -> int {
    choose|i: int| 0 <= i < nodes.len() && #[trigger] nodes[i].id == id
}

/// The lines of one node of a schedule at this depth.
pub open spec fn node_lines(node: NodeModel, depth: nat) -> Source
    decreases node, 0nat,
{
    let indent = indentation(depth + 1);
    match node.kind {
        KindModel::Op(op) => match op_line(node, op, indent) {
            Ok(line) => Ok(
                indent + "// node "@ + decimal(node.id as nat) + " (sm "@ + decimal(node.sm as nat)
                    + ")\n"@ + line,
            ),
            Err(e) => Err(e),
        },
        KindModel::SubSchedule(sub) => match schedule_lines(*sub, depth + 1) {
            Ok(lines) => Ok(
                indent + "// node "@ + decimal(node.id as nat) + " -> inlined sub-schedule '"@
                    + sub.name + "'\n"@ + lines,
            ),
            Err(e) => Err(e),
        },
    }
}

/// The lines of the first `k` nodes to be launched.
pub open spec fn first_lines(s: ScheduleModel, k: nat, depth: nat) -> Source
    decreases s, k,
{
    if k == 0 {
        Ok(Seq::empty())
    } else {
        let i = place_of(s.nodes, launch_order(s.nodes)[k - 1]);
        match first_lines(s, (k - 1) as nat, depth) {
            Err(e) => Err(e),
            Ok(before) => if 0 <= i < s.nodes.len() {
                match node_lines(s.nodes[i], depth) {
                    Ok(lines) => Ok(before + lines),
                    Err(e) => Err(e),
                }
            } else {
                Ok(before)
            },
        }
    }
}

/// The lines of a schedule at this depth. A nested one stands in braces.
pub open spec fn schedule_lines(s: ScheduleModel, depth: nat) -> Source
    decreases s, s.nodes.len() + 1,
{
    if !orderable(s.nodes) {
        Err(CodegenErrorModel::Cycle(s.name))
    } else {
        match first_lines(s, s.nodes.len(), depth) {
            Err(e) => Err(e),
            Ok(lines) => if depth == 0 {
                Ok(lines)
            } else {
                Ok(
                    indentation(depth) + "{ // sub-schedule: "@ + s.name + "\n"@ + lines
                        + indentation(depth) + "}\n"@,
                )
            },
        }
    }
}

fn tensor_identifier(tensors: &Vec<Tensor>, i: usize) -> (res: String)
    requires
        i < tensors@.len(),
    ensures
        res@ == identifier_at(tensor_models(tensors@), i as int),
{
    sanitize(tensors[i].name.as_str())
}

/// Writes the line that launches one operation.
pub fn emit_op(node: &Node, op: &OpKind, indent: &str) -> (res: Result<String, CudaCodegenError>)
    ensures
        match res {
            Ok(line) => op_line(node@, op@, indent@) == Ok::<_, CodegenErrorModel>(line@),
            Err(e) => op_line(node@, op@, indent@) == Err::<Seq<char>, _>(e@),
        },
{
    let mut out: String = indent.to_owned();
    match op {
        OpKind::MatMul { m, n, k } => {
            if node.outputs.is_empty() || node.inputs.len() < 2 {
                return Err(CudaCodegenError::BadArity(node.id, op.clone()));
            }
            out.append("titan_matmul(");
            out.append(tensor_identifier(&node.outputs, 0).as_str());
            out.append(", ");
            out.append(tensor_identifier(&node.inputs, 0).as_str());
            out.append(", ");
            out.append(tensor_identifier(&node.inputs, 1).as_str());
            out.append(", ");
            out.append(decimal_text(*m).as_str());
            out.append(", ");
            out.append(decimal_text(*n).as_str());
            out.append(", ");
            out.append(decimal_text(*k).as_str());
            out.append(", stream);\n");
        },
        OpKind::RmsNorm { dim } => {
            if node.outputs.is_empty() || node.inputs.is_empty() {
                return Err(CudaCodegenError::BadArity(node.id, op.clone()));
            }
            out.append("titan_rmsnorm(");
            out.append(tensor_identifier(&node.outputs, 0).as_str());
            out.append(", ");
            out.append(tensor_identifier(&node.inputs, 0).as_str());
            out.append(", /*rows=*/1, ");
            out.append(decimal_text(*dim).as_str());
            out.append(", stream);\n");
        },
        OpKind::Softmax { dim } => {
            if node.outputs.is_empty() || node.inputs.is_empty() {
                return Err(CudaCodegenError::BadArity(node.id, op.clone()));
            }
            out.append("titan_softmax(");
            out.append(tensor_identifier(&node.outputs, 0).as_str());
            out.append(", ");
            out.append(tensor_identifier(&node.inputs, 0).as_str());
            out.append(", /*rows=*/1, ");
            out.append(decimal_text(*dim).as_str());
            out.append(", stream);\n");
        },
        OpKind::Attention { heads, head_dim, seq_len } => {
            if node.outputs.is_empty() || node.inputs.len() < 3 {
                return Err(CudaCodegenError::BadArity(node.id, op.clone()));
            }
            out.append("titan_attention(");
            out.append(tensor_identifier(&node.outputs, 0).as_str());
            out.append(", ");
            out.append(tensor_identifier(&node.inputs, 0).as_str());
            out.append(", ");
            out.append(tensor_identifier(&node.inputs, 1).as_str());
            out.append(", ");
            out.append(tensor_identifier(&node.inputs, 2).as_str());
            out.append(", ");
            out.append(decimal_text(*heads).as_str());
            out.append(", ");
            out.append(decimal_text(*head_dim).as_str());
            out.append(", ");
            out.append(decimal_text(*seq_len).as_str());
            out.append(", stream);\n");
        },
        OpKind::Elementwise { op: name } => {
            if node.outputs.is_empty() {
                return Err(CudaCodegenError::BadArity(node.id, op.clone()));
            }
            if node.inputs.is_empty() {
                out.append("// node ");
                out.append(decimal_text(node.id as u64).as_str());
                out.append(": source op '");
                out.append(name.as_str());
                out.append("' on '");
                out.append(tensor_identifier(&node.outputs, 0).as_str());
                out.append("' -- assumed pre-populated by host, no-op here\n");
            } else {
                out.append("titan_elementwise(");
                out.append(tensor_identifier(&node.outputs, 0).as_str());
                out.append(", ");
                out.append(tensor_identifier(&node.inputs, 0).as_str());
                out.append(", /*len=*/TITAN_TENSOR_LEN, /*op=*/");
                out.append(decimal_text(elementwise_op_code(name.as_str()) as u64).as_str());
                out.append(", stream); // ");
                out.append(name.as_str());
                out.append("\n");
            }
        },
        OpKind::Barrier => {
            out.append("titan_barrier(stream);\n");
        },
    }
    Ok(out)
}

/// In a level with unique ids, the index holds the node at the place of the id.
proof fn lemma_place(nodes: Seq<NodeModel>, id: NodeId)
    requires
        unique_ids(nodes),
        has_id(nodes, id),
    ensures
        0 <= place_of(nodes, id) < nodes.len(),
        index_model(nodes)[id] == nodes[place_of(nodes, id)],
{
    let i = lemma_indexed_at(nodes, id);
    let j = place_of(nodes, id);
    assert(0 <= j < nodes.len() && nodes[j].id == id);
    assert(i == j);
}

/// A schedule comes to an end before its nested ones do.
proof fn lemma_nested_smaller(s: ScheduleModel, i: int)
    requires
        0 <= i < s.nodes.len(),
        s.nodes[i].kind is SubSchedule,
    ensures
        decreases_to!(s => *s.nodes[i].kind->SubSchedule_0),
{
}

/// How deep a level stands that is indented by this.
pub open spec fn depth_of(indent: Seq<char>) -> nat {
    indent.len() / 4
}

/// Each level is indented by four more.
pub proof fn lemma_depth_of(depth: nat)
    ensures
        indentation(depth).len() == 4 * depth,
        depth_of(indentation(depth)) == depth,
    decreases depth,
{
    if depth > 0 {
        reveal_strlit("    ");
        lemma_depth_of((depth - 1) as nat);
    }
}

/// Writes the lines of a schedule, with nested schedules in line. A schedule
/// is nested where what holds it is indented.
pub fn emit_schedule(schedule: &Schedule, outer: &str, nested: bool) -> (res: Result<
    String,
    CudaCodegenError,
>)
    requires
        outer@ == indentation(depth_of(outer@)),
        nested == (depth_of(outer@) > 0),
    ensures
        match res {
            Ok(text) => schedule_lines(schedule@, depth_of(outer@)) == Ok::<_, CodegenErrorModel>(
                text@,
            ),
            Err(e) => schedule_lines(schedule@, depth_of(outer@)) == Err::<Seq<char>, _>(e@),
        },
    decreases schedule@,
{
    let ghost s = schedule@;
    let ghost depth = depth_of(outer@);
    let mut indent: String = outer.to_owned();
    indent.append("    ");
    proof {
        assert(indent@ == indentation(depth + 1));
        lemma_depth_of(depth + 1);
    }
    let ordered: Vec<&Node> = match topo_sort(schedule) {
        Some(ordered) => ordered,
        None => {
            return Err(CudaCodegenError::Cycle(schedule.name.clone()));
        },
    };
    let ghost order = launch_order(s.nodes);
    assert(ordered@.len() == node_models(ordered@).len());
    let mut body: String = String::new();
    for k in 0..ordered.len()
        invariant
            s == schedule@,
            order == launch_order(s.nodes),
            orderable(s.nodes),
            is_launch_order(s.nodes, order),
            node_models(ordered@) == nodes_in_order(s.nodes, order),
            ordered@.len() == s.nodes.len(),
            indent@ == indentation(depth + 1),
            depth == depth_of(outer@),
            depth_of(indent@) == depth + 1,
            first_lines(s, k as nat, depth) == Ok::<_, CodegenErrorModel>(body@),
    {
        let node: &Node = ordered[k];
        let ghost i = place_of(s.nodes, order[k as int]);
        proof {
            assert(node_models(ordered@)[k as int] == node@);
            assert(order[k as int] == launch_order(s.nodes)[(k + 1) - 1]);
            crate::order::lemma_launched_is_orderable(s.nodes, order);
            assert(order.contains(order[k as int]));
            lemma_place(s.nodes, order[k as int]);
            assert(s.nodes[i] == node@);
        }
        let mut lines: String = indent.clone();
        lines.append("// node ");
        lines.append(decimal_text(node.id as u64).as_str());
        match &node.kind {
            NodeKind::Op(op) => {
                lines.append(" (sm ");
                lines.append(decimal_text(node.sm as u64).as_str());
                lines.append(")\n");
                match emit_op(node, op, indent.as_str()) {
                    Ok(line) => {
                        lines.append(line.as_str());
                    },
                    Err(e) => {
                        proof {
                            lemma_error_stays(s, (k + 1) as nat, s.nodes.len(), depth);
                        }
                        return Err(e);
                    },
                }
            },
            NodeKind::SubSchedule(sub) => {
                lines.append(" -> inlined sub-schedule '");
                lines.append(sub.name.as_str());
                lines.append("'\n");
                proof {
                    lemma_nested_smaller(s, i);
                }
                match emit_schedule(sub, indent.as_str(), true) {
                    Ok(inner) => {
                        lines.append(inner.as_str());
                    },
                    Err(e) => {
                        proof {
                            lemma_error_stays(s, (k + 1) as nat, s.nodes.len(), depth);
                        }
                        return Err(e);
                    },
                }
            },
        }
        assert(node_lines(node@, depth) == Ok::<_, CodegenErrorModel>(lines@));
        body.append(lines.as_str());
    }
    if !nested {
        return Ok(body);
    }
    let mut out: String = outer.to_owned();
    out.append("{ // sub-schedule: ");
    out.append(schedule.name.as_str());
    out.append("\n");
    out.append(body.as_str());
    out.append(outer);
    out.append("}\n");
    Ok(out)
}

/// What stops the first nodes stops all.
pub proof fn lemma_error_stays(s: ScheduleModel, k: nat, n: nat, depth: nat)
    requires
        k <= n,
        first_lines(s, k, depth) is Err,
    ensures
        first_lines(s, n, depth) == first_lines(s, k, depth),
    decreases n - k,
{
    if k < n {
        lemma_error_stays(s, k, (n - 1) as nat, depth);
    }
}

/// The identifiers of the tensors that are accessed.
pub open spec fn identifiers(log: Seq<Access>) -> Set<Seq<char>> {
    Set::new(
        |name: Seq<char>|
            exists|i: int|
                0 <= i < log.len() && #[trigger] identifier(log[i].tensor.name) == name,
    )
}

/// The identifiers of all tensors that the operations of a schedule touch, in order.
pub open spec fn field_names(s: ScheduleModel) -> Seq<Seq<char>> {
    sorted(identifiers(accesses(flat(s))))
}

proof fn lemma_identifiers_join(a: Seq<Access>, b: Seq<Access>)
    ensures
        identifiers(a + b) == identifiers(a).union(identifiers(b)),
{
    let both = a + b;
    assert forall|name: Seq<char>| identifiers(both).contains(name) <==> identifiers(a).contains(
        name,
    ) || identifiers(b).contains(name) by {
        if identifiers(a).contains(name) {
            let i = choose|i: int|
                0 <= i < a.len() && #[trigger] identifier(a[i].tensor.name) == name;
            assert(identifier(both[i].tensor.name) == name);
        }
        if identifiers(b).contains(name) {
            let i = choose|i: int|
                0 <= i < b.len() && #[trigger] identifier(b[i].tensor.name) == name;
            assert(identifier(both[a.len() + i].tensor.name) == name);
        }
        if identifiers(both).contains(name) {
            let i = choose|i: int|
                0 <= i < both.len() && #[trigger] identifier(both[i].tensor.name) == name;
            if i < a.len() {
                assert(identifier(a[i].tensor.name) == name);
            } else {
                assert(identifier(b[i - a.len()].tensor.name) == name);
            }
        }
    }
    assert(identifiers(both) =~= identifiers(a).union(identifiers(b)));
}

fn add_identifiers(names: &mut Vec<String>, tensors: &Vec<Tensor>, Ghost(write): Ghost<bool>)
    requires
        strictly_sorted(texts(old(names)@)),
    ensures
        strictly_sorted(texts(final(names)@)),
        texts(final(names)@).to_set() == texts(old(names)@).to_set().union(
            identifiers(accesses_to(tensor_models(tensors@), write)),
        ),
{
    let ghost before = texts(names@).to_set();
    let ghost added = accesses_to(tensor_models(tensors@), write);
    assert(before =~= before.union(identifiers(added.take(0))));
    for i in 0..tensors.len()
        invariant
            added == accesses_to(tensor_models(tensors@), write),
            strictly_sorted(texts(names@)),
            texts(names@).to_set() == before.union(identifiers(added.take(i as int))),
    {
        let name: String = sanitize(tensors[i].name.as_str());
        let ghost id = name@;
        insert_sorted(names, name);
        proof {
            let one = seq![added[i as int]];
            assert(added.take(i + 1) =~= added.take(i as int) + one);
            lemma_identifiers_join(added.take(i as int), one);
            assert(identifiers(one) =~= set![id]) by {
                assert(identifier(one[0].tensor.name) == id);
            }
            assert(texts(names@).to_set() =~= before.union(identifiers(added.take(i + 1))));
        }
    }
    assert(added.take(added.len() as int) =~= added);
}

/// Collects the identifiers of all tensors that the operations of a schedule touch.
fn collect_tensors(schedule: &Schedule) -> (res: Vec<String>)
    ensures
        texts(res@) == field_names(schedule@),
        strictly_sorted(field_names(schedule@)),
        field_names(schedule@).to_set() == identifiers(accesses(flat(schedule@))),
{
    let entries = schedule.flatten();
    let ghost placed = placed_models(entries@);
    let mut names: Vec<String> = Vec::new();
    assert(texts(names@).to_set() =~= identifiers(accesses(placed.take(0))));
    for i in 0..entries.len()
        invariant
            placed == placed_models(entries@),
            strictly_sorted(texts(names@)),
            texts(names@).to_set() == identifiers(accesses(placed.take(i as int))),
    {
        let node: &Node = entries[i].1;
        let ghost done = accesses(placed.take(i as int));
        assert(placed[i as int].1 == node@);
        assert(placed.take(i + 1).drop_last() =~= placed.take(i as int));
        if let NodeKind::Op(_) = &node.kind {
            add_identifiers(&mut names, &node.inputs, Ghost(false));
            add_identifiers(&mut names, &node.outputs, Ghost(true));
            proof {
                let reads = accesses_to(node@.inputs, false);
                let writes = accesses_to(node@.outputs, true);
                lemma_identifiers_join(reads, writes);
                lemma_identifiers_join(done, reads + writes);
                assert(texts(names@).to_set() =~= identifiers(done + (reads + writes)));
            }
        } else {
            assert(done + Seq::<Access>::empty() =~= done);
        }
    }
    proof {
        assert(placed.take(placed.len() as int) =~= placed);
        lemma_sorted_unique(texts(names@), field_names(schedule@));
    }
    names
}

/// The fields of the struct that holds the tensors.
pub open spec fn field_lines(names: Seq<Seq<char>>) -> Seq<char>
    decreases names.len(),
{
    if names.len() == 0 {
        Seq::empty()
    } else {
        field_lines(names.drop_last()) + "    float* "@ + names.last() + ";\n"@
    }
}

/// The local pointers to the tensors.
pub open spec fn pointer_lines(names: Seq<Seq<char>>) -> Seq<char>
    decreases names.len(),
{
    if names.len() == 0 {
        Seq::empty()
    } else {
        pointer_lines(names.drop_last()) + "    float* "@ + names.last() + " = t."@ + names.last()
            + ";\n"@
    }
}

/// The list of pointers to the fields.
pub open spec fn address_lines(names: Seq<Seq<char>>) -> Seq<char>
    decreases names.len(),
{
    if names.len() == 0 {
        Seq::empty()
    } else {
        address_lines(names.drop_last()) + "&t."@ + names.last() + ",\n"@
    }
}

/// The source for a schedule whose tensors all have this length.
pub open spec fn cuda_source(s: ScheduleModel, tensor_len: u64) -> Source {
    match schedule_lines(s, 0) {
        Err(e) => Err(e),
        Ok(lines) => Ok(
            "// AUTO-GENERATED by titanmk gen-cuda. DO NOT EDIT BY HAND.\n// Source schedule: "@
                + s.name
                + "\n#include \"titan_kernels.cuh\"\n#include <cstdio>\n\n#define TITAN_TENSOR_LEN "@
                + decimal(tensor_len as nat)
                + "ULL\n\ninline void titan_zero_init(float* ptr, uint64_t len, cudaStream_t stream) {\n    cudaMemsetAsync(ptr, 0, len * sizeof(float), stream);\n}\n\n// TensorSet: device pointers for every tensor in the schedule's\n// aggregate interface. Caller (host) allocates with cudaMalloc.\nstruct TensorSet {\n"@
                + field_lines(field_names(s))
                + "};\n\nvoid run_megakernel(const TensorSet& t, cudaStream_t stream) {\n"@
                + pointer_lines(field_names(s)) + "\n"@ + lines + "}\n"@,
        ),
    }
}

/// The list of pointers to the tensors of a schedule.
pub open spec fn cuda_fields(s: ScheduleModel) -> Seq<char> {
    "// AUTO-GENERATED: TensorSet field pointers, in declaration order.\n"@ + address_lines(
        field_names(s),
    )
}

fn fields_text(names: &Vec<String>) -> (res: String)
    ensures
        res@ == field_lines(texts(names@)),
{
    let ghost all = texts(names@);
    let mut out: String = String::new();
    for i in 0..names.len()
        invariant
            all == texts(names@),
            out@ == field_lines(all.take(i as int)),
    {
        assert(all.take(i + 1).drop_last() =~= all.take(i as int));
        out.append("    float* ");
        out.append(names[i].as_str());
        out.append(";\n");
    }
    assert(all.take(all.len() as int) =~= all);
    out
}

fn pointers_text(names: &Vec<String>) -> (res: String)
    ensures
        res@ == pointer_lines(texts(names@)),
{
    let ghost all = texts(names@);
    let mut out: String = String::new();
    for i in 0..names.len()
        invariant
            all == texts(names@),
            out@ == pointer_lines(all.take(i as int)),
    {
        assert(all.take(i + 1).drop_last() =~= all.take(i as int));
        out.append("    float* ");
        out.append(names[i].as_str());
        out.append(" = t.");
        out.append(names[i].as_str());
        out.append(";\n");
    }
    assert(all.take(all.len() as int) =~= all);
    out
}

fn addresses_text(names: &Vec<String>) -> (res: String)
    ensures
        res@ == address_lines(texts(names@)),
{
    let ghost all = texts(names@);
    let mut out: String = String::new();
    for i in 0..names.len()
        invariant
            all == texts(names@),
            out@ == address_lines(all.take(i as int)),
    {
        assert(all.take(i + 1).drop_last() =~= all.take(i as int));
        out.append("&t.");
        out.append(names[i].as_str());
        out.append(",\n");
    }
    assert(all.take(all.len() as int) =~= all);
    out
}

/// Generates the source for a schedule. `tensor_len` is the number of elements
/// of every tensor.
pub fn generate(schedule: &Schedule, tensor_len: u64) -> (res: Result<String, CudaCodegenError>)
    ensures
        match res {
            Ok(text) => cuda_source(schedule@, tensor_len) == Ok::<_, CodegenErrorModel>(text@),
            Err(e) => cuda_source(schedule@, tensor_len) == Err::<Seq<char>, _>(e@),
        },
{
    let names: Vec<String> = collect_tensors(schedule);
    let flush: String = String::new();
    proof {
        lemma_depth_of(0);
    }
    let lines: String = match emit_schedule(schedule, flush.as_str(), false) {
        Ok(lines) => lines,
        Err(e) => {
            return Err(e);
        },
    };
    let mut out: String =
        "// AUTO-GENERATED by titanmk gen-cuda. DO NOT EDIT BY HAND.\n// Source schedule: ".to_owned();
    out.append(schedule.name.as_str());
    out.append(
        "\n#include \"titan_kernels.cuh\"\n#include <cstdio>\n\n#define TITAN_TENSOR_LEN ",
    );
    out.append(decimal_text(tensor_len).as_str());
    out.append(
        "ULL\n\ninline void titan_zero_init(float* ptr, uint64_t len, cudaStream_t stream) {\n    cudaMemsetAsync(ptr, 0, len * sizeof(float), stream);\n}\n\n// TensorSet: device pointers for every tensor in the schedule's\n// aggregate interface. Caller (host) allocates with cudaMalloc.\nstruct TensorSet {\n",
    );
    out.append(fields_text(&names).as_str());
    out.append("};\n\nvoid run_megakernel(const TensorSet& t, cudaStream_t stream) {\n");
    out.append(pointers_text(&names).as_str());
    out.append("\n");
    out.append(lines.as_str());
    out.append("}\n");
    Ok(out)
}

/// Generates the source and the list of pointers to its tensors, for a host
/// that allocates them without naming each.
pub fn generate_with_fields(schedule: &Schedule, tensor_len: u64) -> (res: Result<
    (String, String),
    CudaCodegenError,
>)
    ensures
        match res {
            Ok((text, fields)) => {
                &&& cuda_source(schedule@, tensor_len) == Ok::<_, CodegenErrorModel>(text@)
                &&& fields@ == cuda_fields(schedule@)
            },
            Err(e) => cuda_source(schedule@, tensor_len) == Err::<Seq<char>, _>(e@),
        },
{
    let cu: String = match generate(schedule, tensor_len) {
        Ok(text) => text,
        Err(e) => {
            return Err(e);
        },
    };
    let names: Vec<String> = collect_tensors(schedule);
    let mut fields: String =
        "// AUTO-GENERATED: TensorSet field pointers, in declaration order.\n".to_owned();
    fields.append(addresses_text(&names).as_str());
    Ok((cu, fields))
}

} // verus!
