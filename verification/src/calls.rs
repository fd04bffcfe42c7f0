//! The calls that generated source makes, read as calls.
//!
//! A line that launches an operation is the name of a kernel and a list of
//! arguments. What is said here of the arguments goes by the tensors and sizes
//! of the operation: an argument stands for a tensor, or it is read back as a
//! number.
use vstd::prelude::*;

use crate::cuda_codegen::{
    identifier, identifier_at, op_code, op_line, unicode_alphanumeric, CodegenErrorModel,
};
use crate::ir::{NodeModel, OpModel};
use crate::readback::{decimals_are_read_back, is_digit, read_digits};
use crate::text::decimal;

verus! {

/// The identifier is the name, character by character: letters, digits and
/// underscores as they are, any other ASCII character as an underscore, and
/// beyond ASCII letters and numerals as they are and the rest as underscores.
pub open spec fn stands_for(id: Seq<char>, name: Seq<char>) -> bool {
    &&& id.len() == name.len()
    &&& forall|i: int|
        0 <= i < name.len() ==> {
            let c = #[trigger] name[i];
            if 'a' <= c <= 'z' || 'A' <= c <= 'Z' || '0' <= c <= '9' || c == '_' {
                id[i] == c
            } else if (c as int) < 128 {
                id[i] == '_'
            } else {
                id[i] == c && unicode_alphanumeric(c) || id[i] == '_' && !unicode_alphanumeric(c)
            }
        }
}

/// The text is made of digits, without needless zeros, and is read as the number.
pub open spec fn is_number(text: Seq<char>, n: nat) -> bool {
    &&& text.len() > 0
    &&& forall|i: int| 0 <= i < text.len() ==> is_digit(#[trigger] text[i])
    &&& text[0] == '0' ==> text.len() == 1
    &&& read_digits(text, 0) == (n, Seq::<char>::empty())
}

/// Arguments with commas and blanks in between.
pub open spec fn joined(args: Seq<Seq<char>>) -> Seq<char>
    decreases args.len(),
{
    if args.len() == 0 {
        Seq::empty()
    } else if args.len() == 1 {
        args[0]
    } else {
        joined(args.drop_last()) + ", "@ + args.last()
    }
}

/// A call of a kernel: its name and its arguments in brackets.
pub open spec fn call(indent: Seq<char>, kernel: Seq<char>, args: Seq<Seq<char>>) -> Seq<char> {
    indent + kernel + "("@ + joined(args) + ")"@
}

/// Identifiers keep the characters of a name that identifiers may have and
/// have underscores for the others, each in its place.
pub proof fn identifiers_stand_for_names(name: Seq<char>)
    ensures
        stands_for(identifier(name), name),
        forall|id: Seq<char>| #[trigger] stands_for(id, name) ==> id == identifier(name),
{
    assert forall|id: Seq<char>| #[trigger] stands_for(id, name) implies id == identifier(name) by {
        assert forall|i: int| 0 <= i < name.len() implies id[i] == identifier(name)[i] by {
            let c = name[i];
        }
        assert(id =~= identifier(name));
    }
}

pub proof fn lemma_decimal_is_number(n: nat)
    ensures
        is_number(decimal(n), n),
{
    decimals_are_read_back(n);
    if decimal(n).len() == 0 {
        assert(read_digits(decimal(n), 0) == (0nat, decimal(n)));
    }
}

proof fn lemma_next(front: Seq<char>, args: Seq<Seq<char>>, a: Seq<char>)
    requires
        args.len() > 0,
    ensures
        front + joined(args.push(a)) == front + joined(args) + ", "@ + a,
{
    assert(args.push(a).drop_last() =~= args);
    assert(front + (joined(args) + ", "@ + a) =~= front + joined(args) + ", "@ + a);
}

/// What stands between the last argument and the end of a line.
proof fn lemma_ends(x: Seq<char>)
    ensures
        x + ", stream);\n"@ == x + ", "@ + "stream"@ + ")"@ + ";\n"@,
        x + ", stream); // "@ == x + ", "@ + "stream"@ + ")"@ + "; // "@,
{
    reveal_strlit(", stream);\n");
    reveal_strlit(", stream); // ");
    reveal_strlit(", ");
    reveal_strlit("stream");
    reveal_strlit(")");
    reveal_strlit(";\n");
    reveal_strlit("; // ");
    assert(", stream);\n"@ =~= ", "@ + "stream"@ + ")"@ + ";\n"@);
    assert(", stream); // "@ =~= ", "@ + "stream"@ + ")"@ + "; // "@);
    assert(x + (", "@ + "stream"@ + ")"@ + ";\n"@) =~= x + ", "@ + "stream"@ + ")"@ + ";\n"@);
    assert(x + (", "@ + "stream"@ + ")"@ + "; // "@) =~= x + ", "@ + "stream"@ + ")"@ + "; // "@);
}

proof fn lemma_openings(x: Seq<char>)
    ensures
        x + "titan_matmul("@ == x + "titan_matmul"@ + "("@,
        x + "titan_rmsnorm("@ == x + "titan_rmsnorm"@ + "("@,
        x + "titan_softmax("@ == x + "titan_softmax"@ + "("@,
        x + "titan_attention("@ == x + "titan_attention"@ + "("@,
        x + "titan_elementwise("@ == x + "titan_elementwise"@ + "("@,
        x + "titan_barrier(stream);\n"@ == x + "titan_barrier"@ + "("@ + "stream"@ + ")"@ + ";\n"@,
{
    reveal_strlit("titan_matmul(");
    reveal_strlit("titan_rmsnorm(");
    reveal_strlit("titan_softmax(");
    reveal_strlit("titan_attention(");
    reveal_strlit("titan_elementwise(");
    reveal_strlit("titan_barrier(stream);\n");
    reveal_strlit("titan_matmul");
    reveal_strlit("titan_rmsnorm");
    reveal_strlit("titan_softmax");
    reveal_strlit("titan_attention");
    reveal_strlit("titan_elementwise");
    reveal_strlit("titan_barrier");
    reveal_strlit("(");
    reveal_strlit("stream");
    reveal_strlit(")");
    reveal_strlit(";\n");
}

proof fn lemma_middles(x: Seq<char>)
    ensures
        x + ", /*rows=*/1, "@ == x + ", "@ + "/*rows=*/1"@ + ", "@,
{
    reveal_strlit(", /*rows=*/1, ");
    reveal_strlit(", ");
    reveal_strlit("/*rows=*/1");
}

proof fn lemma_elementwise_middle(x: Seq<char>, code: Seq<char>)
    ensures
        x + ", /*len=*/TITAN_TENSOR_LEN, /*op=*/"@ + code == x + ", "@ + "/*len=*/TITAN_TENSOR_LEN"@
            + ", "@ + ("/*op=*/"@ + code),
{
    reveal_strlit(", /*len=*/TITAN_TENSOR_LEN, /*op=*/");
    reveal_strlit(", ");
    reveal_strlit("/*len=*/TITAN_TENSOR_LEN");
    reveal_strlit("/*op=*/");
    let (a, b, c) = (", "@, "/*len=*/TITAN_TENSOR_LEN"@, "/*op=*/"@);
    assert(", /*len=*/TITAN_TENSOR_LEN, /*op=*/"@ =~= a + b + a + c);
    assert(x + (a + b + a + c) + code =~= x + a + b + a + (c + code));
}

/// A product is launched on its output, its first two inputs and its three
/// sizes, in this order.
pub proof fn products_are_called(node: NodeModel, m: u64, n: u64, k: u64, indent: Seq<char>) -> (
    args: Seq<Seq<char>>)
    requires
        node.outputs.len() >= 1,
        node.inputs.len() >= 2,
    ensures
        op_line(node, OpModel::MatMul { m, n, k }, indent) == Ok::<_, CodegenErrorModel>(
            call(indent, "titan_matmul"@, args) + ";\n"@,
        ),
        args.len() == 7,
        stands_for(args[0], node.outputs[0].name),
        stands_for(args[1], node.inputs[0].name),
        stands_for(args[2], node.inputs[1].name),
        is_number(args[3], m as nat),
        is_number(args[4], n as nat),
        is_number(args[5], k as nat),
        args[6] == "stream"@,
{
    let front = indent + "titan_matmul"@ + "("@;
    let (a0, a1, a2) = (
        identifier(node.outputs[0].name),
        identifier(node.inputs[0].name),
        identifier(node.inputs[1].name),
    );
    let (a3, a4, a5) = (decimal(m as nat), decimal(n as nat), decimal(k as nat));
    identifiers_stand_for_names(node.outputs[0].name);
    identifiers_stand_for_names(node.inputs[0].name);
    identifiers_stand_for_names(node.inputs[1].name);
    lemma_decimal_is_number(m as nat);
    lemma_decimal_is_number(n as nat);
    lemma_decimal_is_number(k as nat);
    lemma_openings(indent);
    let s0 = seq![a0];
    let s1 = s0.push(a1);
    let s2 = s1.push(a2);
    let s3 = s2.push(a3);
    let s4 = s3.push(a4);
    let s5 = s4.push(a5);
    lemma_next(front, s0, a1);
    lemma_next(front, s1, a2);
    lemma_next(front, s2, a3);
    lemma_next(front, s3, a4);
    lemma_next(front, s4, a5);
    lemma_next(front, s5, "stream"@);
    lemma_ends(front + joined(s5));
    s5.push("stream"@)
}

/// A norm is launched on its output, its first input, one row and its size.
pub proof fn norms_are_called(node: NodeModel, dim: u64, indent: Seq<char>) -> (args: Seq<
    Seq<char>,
>)
    requires
        node.outputs.len() >= 1,
        node.inputs.len() >= 1,
    ensures
        op_line(node, OpModel::RmsNorm { dim }, indent) == Ok::<_, CodegenErrorModel>(
            call(indent, "titan_rmsnorm"@, args) + ";\n"@,
        ),
        args.len() == 5,
        stands_for(args[0], node.outputs[0].name),
        stands_for(args[1], node.inputs[0].name),
        args[2] == "/*rows=*/1"@,
        is_number(args[3], dim as nat),
        args[4] == "stream"@,
{
    let front = indent + "titan_rmsnorm"@ + "("@;
    let (a0, a1) = (identifier(node.outputs[0].name), identifier(node.inputs[0].name));
    let a3 = decimal(dim as nat);
    identifiers_stand_for_names(node.outputs[0].name);
    identifiers_stand_for_names(node.inputs[0].name);
    lemma_decimal_is_number(dim as nat);
    lemma_openings(indent);
    let s0 = seq![a0];
    let s1 = s0.push(a1);
    let s2 = s1.push("/*rows=*/1"@);
    let s3 = s2.push(a3);
    lemma_next(front, s0, a1);
    lemma_next(front, s1, "/*rows=*/1"@);
    lemma_next(front, s2, a3);
    lemma_next(front, s3, "stream"@);
    lemma_middles(front + joined(s1));
    lemma_ends(front + joined(s3));
    s3.push("stream"@)
}

/// A softmax is launched on its output, its first input, one row and its size.
pub proof fn softmaxes_are_called(node: NodeModel, dim: u64, indent: Seq<char>) -> (args: Seq<
    Seq<char>,
>)
    requires
        node.outputs.len() >= 1,
        node.inputs.len() >= 1,
    ensures
        op_line(node, OpModel::Softmax { dim }, indent) == Ok::<_, CodegenErrorModel>(
            call(indent, "titan_softmax"@, args) + ";\n"@,
        ),
        args.len() == 5,
        stands_for(args[0], node.outputs[0].name),
        stands_for(args[1], node.inputs[0].name),
        args[2] == "/*rows=*/1"@,
        is_number(args[3], dim as nat),
        args[4] == "stream"@,
{
    let front = indent + "titan_softmax"@ + "("@;
    let (a0, a1) = (identifier(node.outputs[0].name), identifier(node.inputs[0].name));
    let a3 = decimal(dim as nat);
    identifiers_stand_for_names(node.outputs[0].name);
    identifiers_stand_for_names(node.inputs[0].name);
    lemma_decimal_is_number(dim as nat);
    lemma_openings(indent);
    let s0 = seq![a0];
    let s1 = s0.push(a1);
    let s2 = s1.push("/*rows=*/1"@);
    let s3 = s2.push(a3);
    lemma_next(front, s0, a1);
    lemma_next(front, s1, "/*rows=*/1"@);
    lemma_next(front, s2, a3);
    lemma_next(front, s3, "stream"@);
    lemma_middles(front + joined(s1));
    lemma_ends(front + joined(s3));
    s3.push("stream"@)
}

/// An attention is launched on its output, its first three inputs and its
/// three sizes, in this order.
pub proof fn attentions_are_called(
    node: NodeModel,
    heads: u64,
    head_dim: u64,
    seq_len: u64,
    indent: Seq<char>,
) -> (args: Seq<Seq<char>>)
    requires
        node.outputs.len() >= 1,
        node.inputs.len() >= 3,
    ensures
        op_line(node, OpModel::Attention { heads, head_dim, seq_len }, indent) == Ok::<
            _,
            CodegenErrorModel,
        >(call(indent, "titan_attention"@, args) + ";\n"@),
        args.len() == 8,
        stands_for(args[0], node.outputs[0].name),
        stands_for(args[1], node.inputs[0].name),
        stands_for(args[2], node.inputs[1].name),
        stands_for(args[3], node.inputs[2].name),
        is_number(args[4], heads as nat),
        is_number(args[5], head_dim as nat),
        is_number(args[6], seq_len as nat),
        args[7] == "stream"@,
{
    let front = indent + "titan_attention"@ + "("@;
    let (a0, a1, a2, a3) = (
        identifier(node.outputs[0].name),
        identifier(node.inputs[0].name),
        identifier(node.inputs[1].name),
        identifier(node.inputs[2].name),
    );
    let (a4, a5, a6) = (decimal(heads as nat), decimal(head_dim as nat), decimal(seq_len as nat));
    identifiers_stand_for_names(node.outputs[0].name);
    identifiers_stand_for_names(node.inputs[0].name);
    identifiers_stand_for_names(node.inputs[1].name);
    identifiers_stand_for_names(node.inputs[2].name);
    lemma_decimal_is_number(heads as nat);
    lemma_decimal_is_number(head_dim as nat);
    lemma_decimal_is_number(seq_len as nat);
    lemma_openings(indent);
    let s0 = seq![a0];
    let s1 = s0.push(a1);
    let s2 = s1.push(a2);
    let s3 = s2.push(a3);
    let s4 = s3.push(a4);
    let s5 = s4.push(a5);
    let s6 = s5.push(a6);
    lemma_next(front, s0, a1);
    lemma_next(front, s1, a2);
    lemma_next(front, s2, a3);
    lemma_next(front, s3, a4);
    lemma_next(front, s4, a5);
    lemma_next(front, s5, a6);
    lemma_next(front, s6, "stream"@);
    lemma_ends(front + joined(s6));
    s6.push("stream"@)
}

/// An elementwise operation is launched on its output, its first input, the
/// length of the tensors and the number by which the kernel knows it: 1 for
/// "relu", 2 for "gelu", 3 for "silu", and 0 for "id" and any other. The line
/// ends in its name.
pub proof fn elementwise_operations_are_called(
    node: NodeModel,
    name: Seq<char>,
    indent: Seq<char>,
) -> (args: Seq<Seq<char>>)
    requires
        node.outputs.len() >= 1,
        node.inputs.len() >= 1,
    ensures
        op_line(node, OpModel::Elementwise { op: name }, indent) == Ok::<_, CodegenErrorModel>(
            call(indent, "titan_elementwise"@, args) + "; // "@ + name + "\n"@,
        ),
        args.len() == 5,
        stands_for(args[0], node.outputs[0].name),
        stands_for(args[1], node.inputs[0].name),
        args[2] == "/*len=*/TITAN_TENSOR_LEN"@,
        name == "relu"@ ==> args[3] == "/*op=*/1"@,
        name == "gelu"@ ==> args[3] == "/*op=*/2"@,
        name == "silu"@ ==> args[3] == "/*op=*/3"@,
        name == "id"@ ==> args[3] == "/*op=*/0"@,
        name != "relu"@ && name != "gelu"@ && name != "silu"@ ==> args[3] == "/*op=*/0"@,
        args[4] == "stream"@,
{
    let front = indent + "titan_elementwise"@ + "("@;
    let (a0, a1) = (identifier(node.outputs[0].name), identifier(node.inputs[0].name));
    let code = decimal(op_code(name));
    let a2 = "/*len=*/TITAN_TENSOR_LEN"@;
    let a3 = "/*op=*/"@ + code;
    identifiers_stand_for_names(node.outputs[0].name);
    identifiers_stand_for_names(node.inputs[0].name);
    lemma_openings(indent);
    lemma_codes(name);
    let s0 = seq![a0];
    let s1 = s0.push(a1);
    let s2 = s1.push(a2);
    let s3 = s2.push(a3);
    lemma_next(front, s0, a1);
    lemma_next(front, s1, a2);
    lemma_next(front, s2, a3);
    lemma_next(front, s3, "stream"@);
    lemma_elementwise_middle(front + joined(s1), code);
    lemma_ends(front + joined(s3));
    s3.push("stream"@)
}

proof fn lemma_codes(name: Seq<char>)
    ensures
        name == "relu"@ ==> "/*op=*/"@ + decimal(op_code(name)) == "/*op=*/1"@,
        name == "gelu"@ ==> "/*op=*/"@ + decimal(op_code(name)) == "/*op=*/2"@,
        name == "silu"@ ==> "/*op=*/"@ + decimal(op_code(name)) == "/*op=*/3"@,
        name == "id"@ ==> "/*op=*/"@ + decimal(op_code(name)) == "/*op=*/0"@,
        name != "relu"@ && name != "gelu"@ && name != "silu"@ ==> "/*op=*/"@ + decimal(
            op_code(name),
        ) == "/*op=*/0"@,
{
    reveal_strlit("relu");
    reveal_strlit("gelu");
    reveal_strlit("silu");
    reveal_strlit("id");
    reveal_strlit("/*op=*/");
    reveal_strlit("/*op=*/0");
    reveal_strlit("/*op=*/1");
    reveal_strlit("/*op=*/2");
    reveal_strlit("/*op=*/3");
    assert("relu"@[0] == 'r' && "gelu"@[0] == 'g' && "silu"@[0] == 's' && "id"@[0] == 'i');
    assert(decimal(0) =~= seq!['0']);
    assert(decimal(1) =~= seq!['1']);
    assert(decimal(2) =~= seq!['2']);
    assert(decimal(3) =~= seq!['3']);
}

/// The kernel knows "relu" by 1, "gelu" by 2, "silu" by 3 and "id", like any
/// other name, by 0.
pub proof fn numbers_of_elementwise_operations(name: Seq<char>)
    ensures
        op_code("relu"@) == 1,
        op_code("gelu"@) == 2,
        op_code("silu"@) == 3,
        op_code("id"@) == 0,
        name != "relu"@ && name != "gelu"@ && name != "silu"@ ==> op_code(name) == 0,
{
    reveal_strlit("relu");
    reveal_strlit("gelu");
    reveal_strlit("silu");
    reveal_strlit("id");
    assert("relu"@[0] == 'r' && "gelu"@[0] == 'g' && "silu"@[0] == 's' && "id"@[0] == 'i');
}

/// One of the elementwise operations that the kernel knows.
pub open spec fn known_operation(name: Seq<char>) -> bool {
    name == "id"@ || name == "relu"@ || name == "gelu"@ || name == "silu"@
}

/// The character before the text that an elementwise call ends in.
pub open spec fn code_in(line: Seq<char>, name: Seq<char>) -> char {
    line[line.len() - (", stream); // "@ + name + "\n"@).len() - 1]
}

/// Of two known elementwise operations on the same tensors, each is launched
/// by its own number.
pub proof fn known_operations_differ(
    a: NodeModel,
    b: NodeModel,
    x: Seq<char>,
    y: Seq<char>,
    indent: Seq<char>,
)
    requires
        a.outputs.len() >= 1,
        a.inputs.len() >= 1,
        b.outputs.len() >= 1,
        b.inputs.len() >= 1,
        known_operation(x),
        known_operation(y),
        x != y,
    ensures
        op_line(a, OpModel::Elementwise { op: x }, indent) is Ok,
        op_line(b, OpModel::Elementwise { op: y }, indent) is Ok,
        is_digit(code_in(op_line(a, OpModel::Elementwise { op: x }, indent)->Ok_0, x)),
        is_digit(code_in(op_line(b, OpModel::Elementwise { op: y }, indent)->Ok_0, y)),
        code_in(op_line(a, OpModel::Elementwise { op: x }, indent)->Ok_0, x) != code_in(
            op_line(b, OpModel::Elementwise { op: y }, indent)->Ok_0,
            y,
        ),
{
    lemma_code_in(a, x, indent);
    lemma_code_in(b, y, indent);
}

proof fn lemma_code_in(node: NodeModel, name: Seq<char>, indent: Seq<char>)
    requires
        node.outputs.len() >= 1,
        node.inputs.len() >= 1,
        known_operation(name),
    ensures
        op_line(node, OpModel::Elementwise { op: name }, indent) is Ok,
        code_in(op_line(node, OpModel::Elementwise { op: name }, indent)->Ok_0, name) == (if name
            == "relu"@ {
            '1'
        } else if name == "gelu"@ {
            '2'
        } else if name == "silu"@ {
            '3'
        } else {
            '0'
        }),
{
    let line = op_line(node, OpModel::Elementwise { op: name }, indent)->Ok_0;
    let code = decimal(op_code(name));
    let front = indent + "titan_elementwise("@ + identifier_at(node.outputs, 0) + ", "@
        + identifier_at(node.inputs, 0) + ", /*len=*/TITAN_TENSOR_LEN, /*op=*/"@;
    let end = ", stream); // "@ + name + "\n"@;
    assert(decimal(0) =~= seq!['0']);
    assert(decimal(1) =~= seq!['1']);
    assert(decimal(2) =~= seq!['2']);
    assert(decimal(3) =~= seq!['3']);
    assert(line =~= front + code + end);
    assert(line[line.len() - end.len() - 1] == code[0]);
}

/// An elementwise operation without input is no call: its line is a comment
/// that names the node by its number, the operation and the output.
pub proof fn sources_are_comments(node: NodeModel, name: Seq<char>, indent: Seq<char>) -> (parts: (
    Seq<char>,
    Seq<char>,
))
    requires
        node.outputs.len() >= 1,
        node.inputs.len() == 0,
    ensures
        op_line(node, OpModel::Elementwise { op: name }, indent) == Ok::<_, CodegenErrorModel>(
            indent + "// node "@ + parts.0 + ": source op '"@ + name + "' on '"@ + parts.1
                + "' -- assumed pre-populated by host, no-op here\n"@,
        ),
        is_number(parts.0, node.id as nat),
        stands_for(parts.1, node.outputs[0].name),
{
    identifiers_stand_for_names(node.outputs[0].name);
    lemma_decimal_is_number(node.id as nat);
    (decimal(node.id as nat), identifier(node.outputs[0].name))
}

/// A barrier takes no tensors.
pub proof fn barriers_are_called(node: NodeModel, indent: Seq<char>)
    ensures
        op_line(node, OpModel::Barrier, indent) == Ok::<_, CodegenErrorModel>(
            call(indent, "titan_barrier"@, seq!["stream"@]) + ";\n"@,
        ),
{
    lemma_openings(indent);
    assert(joined(seq!["stream"@]) == "stream"@);
}

/// A product takes an output and two inputs, a norm, a softmax and an
/// elementwise operation an output and an input (of which the last can do
/// without the input), an attention an output and three inputs, a barrier
/// nothing. With fewer tensors there is no line, and the node and the
/// operation are reported; with as many there is.
pub proof fn too_few_tensors_are_reported(node: NodeModel, op: OpModel, indent: Seq<char>)
    ensures
        op_line(node, op, indent) is Ok <==> match op {
            OpModel::MatMul { .. } => node.outputs.len() >= 1 && node.inputs.len() >= 2,
            OpModel::RmsNorm { .. } => node.outputs.len() >= 1 && node.inputs.len() >= 1,
            OpModel::Softmax { .. } => node.outputs.len() >= 1 && node.inputs.len() >= 1,
            OpModel::Attention { .. } => node.outputs.len() >= 1 && node.inputs.len() >= 3,
            OpModel::Elementwise { .. } => node.outputs.len() >= 1,
            OpModel::Barrier => true,
        },
        op_line(node, op, indent) matches Err(e) ==> e == CodegenErrorModel::BadArity(node.id, op),
{
}

} // verus!
