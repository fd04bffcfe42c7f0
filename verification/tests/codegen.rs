use titanmk::adversarial::{
    bad_cycle, bad_dangling_wait, bad_nested_cycle, good_linear, good_nested_repeated_block,
};
use titanmk::cuda_codegen::{
    elementwise_op_code, emit_op, emit_schedule, generate, generate_with_fields, identifier_character, sanitize,
    CudaCodegenError,
};
use titanmk::ir::{DType, MemSpace, Node, NodeId, NodeKind, OpKind, Schedule, Tensor};

fn tensors(names: &[&str]) -> Vec<Tensor> {
    names
        .iter()
        .map(|name| Tensor {
            name: name.to_string(),
            shape: vec![1],
            dtype: DType::F32,
            space: MemSpace::Hbm,
        })
        .collect()
}

fn op_node(id: NodeId, kind: OpKind, reads: &[&str], writes: &[&str], waits_on: Vec<NodeId>) -> Node {
    Node {
        id,
        kind: NodeKind::Op(kind),
        inputs: tensors(reads),
        outputs: tensors(writes),
        sm: id + 10,
        waits_on,
    }
}

fn elementwise(op: &str) -> OpKind {
    OpKind::Elementwise { op: op.to_string() }
}

fn single(kind: OpKind, reads: &[&str], writes: &[&str]) -> Schedule {
    let mut s = Schedule::new("single");
    s.push(op_node(3, kind, reads, writes, vec![]));
    s
}

fn is_bad_arity(s: &Schedule, id: NodeId, op: &OpKind) -> bool {
    match generate(s, 8) {
        Err(CudaCodegenError::BadArity(at, found)) => at == id && found == *op,
        _ => false,
    }
}

const HEADER: &str = "// AUTO-GENERATED by titanmk gen-cuda. DO NOT EDIT BY HAND.
// Source schedule: single
#include \"titan_kernels.cuh\"
#include <cstdio>

#define TITAN_TENSOR_LEN 16ULL

inline void titan_zero_init(float* ptr, uint64_t len, cudaStream_t stream) {
    cudaMemsetAsync(ptr, 0, len * sizeof(float), stream);
}

// TensorSet: device pointers for every tensor in the schedule's
// aggregate interface. Caller (host) allocates with cudaMalloc.
struct TensorSet {
";

#[test]
fn source_of_one_operation() {
    let s = single(OpKind::MatMul { m: 1, n: 20, k: 300 }, &["b", "a.w"], &["out"]);
    let (src, fields) = generate_with_fields(&s, 16).expect("enough tensors");
    let expected = format!(
        "{HEADER}    float* a_w;
    float* b;
    float* out;
}};

void run_megakernel(const TensorSet& t, cudaStream_t stream) {{
    float* a_w = t.a_w;
    float* b = t.b;
    float* out = t.out;

    // node 3 (sm 13)
    titan_matmul(out, b, a_w, 1, 20, 300, stream);
}}
"
    );
    assert_eq!(src, expected);
    assert_eq!(generate(&s, 16).expect("the same again"), expected);
    assert_eq!(
        fields,
        "// AUTO-GENERATED: TensorSet field pointers, in declaration order.
&t.a_w,
&t.b,
&t.out,
"
    );
}

#[test]
fn source_of_nothing() {
    let (src, fields) = generate_with_fields(&Schedule::new("single"), 16).expect("nothing to do");
    let expected = format!(
        "{HEADER}}};

void run_megakernel(const TensorSet& t, cudaStream_t stream) {{

}}
"
    );
    assert_eq!(src, expected);
    assert_eq!(
        fields,
        "// AUTO-GENERATED: TensorSet field pointers, in declaration order.\n"
    );
}

#[test]
fn lines_of_each_operation() {
    let line = |kind: OpKind, reads: &[&str], writes: &[&str]| {
        let src = generate(&single(kind, reads, writes), 4).expect("enough tensors");
        let marker = "    // node 3 (sm 13)\n";
        let at = src.find(marker).expect("the node is there") + marker.len();
        src[at..].to_string()
    };
    assert_eq!(
        line(OpKind::RmsNorm { dim: 64 }, &["x"], &["y"]),
        "    titan_rmsnorm(y, x, /*rows=*/1, 64, stream);\n}\n"
    );
    assert_eq!(
        line(OpKind::Softmax { dim: 0 }, &["x", "unused"], &["y", "unused"]),
        "    titan_softmax(y, x, /*rows=*/1, 0, stream);\n}\n"
    );
    assert_eq!(
        line(
            OpKind::Attention { heads: 8, head_dim: 16, seq_len: u64::MAX },
            &["q", "k", "v"],
            &["o"]
        ),
        "    titan_attention(o, q, k, v, 8, 16, 18446744073709551615, stream);\n}\n"
    );
    assert_eq!(
        line(elementwise("silu"), &["x"], &["y"]),
        "    titan_elementwise(y, x, /*len=*/TITAN_TENSOR_LEN, /*op=*/3, stream); // silu\n}\n"
    );
    assert_eq!(
        line(elementwise("id"), &[], &["y"]),
        "    // node 3: source op 'id' on 'y' -- assumed pre-populated by host, no-op here\n}\n"
    );
    assert_eq!(line(OpKind::Barrier, &[], &[]), "    titan_barrier(stream);\n}\n");
}

#[test]
fn nested_schedules_are_indented_and_braced() {
    let src = generate(&good_nested_repeated_block(), 8).expect("certified");
    let body = &src[src.find("    // node 100 ->").expect("the first block")..];
    let expected_start = "    // node 100 -> inlined sub-schedule 'good_linear'
    { // sub-schedule: good_linear
        // node 0 (sm 0)
        // node 0: source op 'id' on 'x0' -- assumed pre-populated by host, no-op here
        // node 1 (sm 1)
";
    assert!(body.starts_with(expected_start), "{body}");
    assert!(body.ends_with("    }\n}\n"), "{body}");
}

#[test]
fn depth_adds_indentation() {
    let mut inner = Schedule::new("inner");
    inner.push(op_node(0, OpKind::Barrier, &[], &[], vec![]));
    let mut middle = Schedule::new("middle");
    middle.push(Node {
        id: 1,
        kind: NodeKind::SubSchedule(Box::new(inner)),
        inputs: vec![],
        outputs: vec![],
        sm: 0,
        waits_on: vec![],
    });
    let mut outer = Schedule::new("outer");
    outer.push(Node {
        id: 2,
        kind: NodeKind::SubSchedule(Box::new(middle)),
        inputs: tensors(&["declared"]),
        outputs: vec![],
        sm: 0,
        waits_on: vec![],
    });
    let src = generate(&outer, 1).expect("nothing is missing");
    let body = &src[src.find("    // node 2").expect("the node is there")..];
    assert_eq!(
        body,
        "    // node 2 -> inlined sub-schedule 'middle'
    { // sub-schedule: middle
        // node 1 -> inlined sub-schedule 'inner'
        { // sub-schedule: inner
            // node 0 (sm 10)
            titan_barrier(stream);
        }
    }
}
"
    );
    assert!(!src.contains("declared"));
}

#[test]
fn nodes_are_launched_in_order() {
    let mut s = Schedule::new("s");
    s.push(op_node(2, OpKind::Barrier, &[], &[], vec![0]));
    s.push(op_node(1, OpKind::Barrier, &[], &[], vec![2]));
    s.push(op_node(0, OpKind::Barrier, &[], &[], vec![]));
    let src = generate(&s, 8).expect("no cycle");
    let place = |id: NodeId| src.find(&format!("// node {id} ")).expect("every node is there");
    assert!(place(0) < place(2) && place(2) < place(1));
}

#[test]
fn too_few_tensors() {
    let matmul = OpKind::MatMul { m: 1, n: 1, k: 1 };
    assert!(is_bad_arity(&single(matmul.clone(), &["a"], &["o"]), 3, &matmul));
    assert!(is_bad_arity(&single(matmul.clone(), &["a", "b"], &[]), 3, &matmul));
    let rmsnorm = OpKind::RmsNorm { dim: 1 };
    assert!(is_bad_arity(&single(rmsnorm.clone(), &[], &["o"]), 3, &rmsnorm));
    assert!(is_bad_arity(&single(rmsnorm.clone(), &["a"], &[]), 3, &rmsnorm));
    let softmax = OpKind::Softmax { dim: 1 };
    assert!(is_bad_arity(&single(softmax.clone(), &[], &["o"]), 3, &softmax));
    assert!(is_bad_arity(&single(softmax.clone(), &["a"], &[]), 3, &softmax));
    let attention = OpKind::Attention { heads: 1, head_dim: 1, seq_len: 1 };
    assert!(is_bad_arity(&single(attention.clone(), &["q", "k"], &["o"]), 3, &attention));
    assert!(is_bad_arity(&single(attention.clone(), &["q", "k", "v"], &[]), 3, &attention));
    let copy = elementwise("id");
    assert!(is_bad_arity(&single(copy.clone(), &["a"], &[]), 3, &copy));
    assert!(generate(&single(OpKind::Barrier, &[], &[]), 8).is_ok());
}

#[test]
fn the_first_node_to_launch_fails_first() {
    let mut s = Schedule::new("s");
    s.push(op_node(5, OpKind::Softmax { dim: 1 }, &[], &[], vec![7]));
    s.push(op_node(7, elementwise("id"), &[], &[], vec![]));
    assert!(is_bad_arity(&s, 7, &elementwise("id")));
}

#[test]
fn levels_without_an_order_fail_under_their_name() {
    let named = |s: &Schedule| match generate_with_fields(s, 8) {
        Err(CudaCodegenError::Cycle(name)) => name,
        other => panic!("expected a cycle, got {other:?}"),
    };
    assert_eq!(named(&bad_cycle()), "bad_cycle");
    assert_eq!(named(&bad_nested_cycle()), "bad_cycle");
    assert_eq!(named(&bad_dangling_wait()), bad_dangling_wait().name);
    let mut repeated = Schedule::new("repeated");
    repeated.push(op_node(0, OpKind::Barrier, &[], &[], vec![]));
    repeated.push(op_node(0, OpKind::Barrier, &[], &[], vec![]));
    assert_eq!(named(&repeated), "repeated");
}

#[test]
fn codegen_of_the_linear_pipeline_declares_its_tensors() {
    let (src, fields) = generate_with_fields(&good_linear(), 8).expect("certified");
    assert!(src.contains("    float* x0;\n    float* x1;\n    float* x2;\n};\n"));
    assert!(fields.ends_with("&t.x0,\n&t.x1,\n&t.x2,\n"));
}

#[test]
fn fields_that_become_one_identifier_are_declared_once() {
    let s = single(elementwise("id"), &["a.b", "a-b", "a_b"], &["z"]);
    let (_, fields) = generate_with_fields(&s, 8).expect("enough tensors");
    assert!(fields.ends_with("order.\n&t.a_b,\n&t.z,\n"));
}

#[test]
fn sanitize_keeps_letters_numerals_and_underscores() {
    assert_eq!(sanitize(""), "");
    assert_eq!(sanitize("layer0_out"), "layer0_out");
    assert_eq!(sanitize("a.b-c/d e"), "a_b_c_d_e");
    assert_eq!(sanitize("\u{e9}\u{663}\u{2603}"), "\u{e9}\u{663}_");
    let once = sanitize("w[0]::x");
    assert_eq!(sanitize(&once), once);
}

#[test]
fn identifier_characters() {
    assert_eq!(identifier_character('a', true), 'a');
    assert_eq!(identifier_character('a', false), '_');
    assert_eq!(identifier_character('_', false), '_');
    assert_eq!(identifier_character('.', false), '_');
}

#[test]
fn elementwise_codes() {
    assert_eq!(elementwise_op_code("id"), 0);
    assert_eq!(elementwise_op_code("relu"), 1);
    assert_eq!(elementwise_op_code("gelu"), 2);
    assert_eq!(elementwise_op_code("silu"), 3);
    assert_eq!(elementwise_op_code("tanh"), 0);
    assert_eq!(elementwise_op_code("Relu"), 0);
}

#[test]
fn every_operation_is_launched_once_and_after_its_waits() {
    let mut inner = Schedule::new("inner");
    inner.push(op_node(2, OpKind::Barrier, &[], &[], vec![4]));
    inner.push(op_node(4, OpKind::Barrier, &[], &[], vec![]));
    let mut outer = Schedule::new("outer");
    outer.push(Node {
        id: 0,
        kind: NodeKind::SubSchedule(Box::new(inner)),
        inputs: vec![],
        outputs: vec![],
        sm: 0,
        waits_on: vec![9],
    });
    outer.push(op_node(9, OpKind::Barrier, &[], &[], vec![]));
    let src = generate(&outer, 8).expect("no cycle");
    assert_eq!(src.matches("titan_barrier(stream);").count(), 3);
    let place = |text: &str| {
        assert_eq!(src.matches(text).count(), 1);
        src.find(text).expect("it is there")
    };
    let steps = ["// node 9 ", "// node 0 ->", "// node 4 ", "// node 2 "];
    for pair in steps.windows(2) {
        assert!(place(pair[0]) < place(pair[1]));
    }
}

#[test]
fn levels_are_written_in_launch_order() {
    let mut inner = Schedule::new("inner");
    inner.push(op_node(1, OpKind::Barrier, &[], &[], vec![]));
    let mut s = Schedule::new("s");
    s.push(Node {
        id: 2,
        kind: NodeKind::SubSchedule(Box::new(inner.clone())),
        inputs: vec![],
        outputs: vec![],
        sm: 0,
        waits_on: vec![5],
    });
    s.push(op_node(5, OpKind::Barrier, &[], &[], vec![]));
    let nested = emit_schedule(&inner, "    ", true).expect("no cycle");
    assert_eq!(
        nested,
        "    { // sub-schedule: inner\n        // node 1 (sm 11)\n        titan_barrier(stream);\n    }\n"
    );
    let launch = emit_op(&s.nodes[1], &OpKind::Barrier, "    ").expect("it takes no tensor");
    assert_eq!(launch, "    titan_barrier(stream);\n");
    assert_eq!(
        emit_schedule(&s, "", false).expect("no cycle"),
        format!(
            "    // node 5 (sm 15)\n{launch}    // node 2 -> inlined sub-schedule 'inner'\n{nested}"
        )
    );
    assert!(matches!(
        emit_schedule(&bad_cycle(), "", false),
        Err(CudaCodegenError::Cycle(_))
    ));
}
