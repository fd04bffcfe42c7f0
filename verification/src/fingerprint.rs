//! Canonical text of a schedule, and its fingerprint.
//!
//! The canonical text is compact JSON: objects with their fields in
//! declaration order, and each enum value under the name of its variant.
use vstd::prelude::*;
use vstd::utf8::encode_utf8;

use crate::ir::{
    tensor_models, DType, KindModel, MemSpace, Node, NodeId, NodeKind, NodeModel, OpKind, OpModel,
    Schedule, ScheduleModel, Tensor, TensorModel,
};
use crate::text::{decimal, decimal_text, texts};

verus! {

/// One hexadecimal digit, in lower case.
pub open spec fn hex_digit(d: int) -> char
    recommends
        0 <= d < 16,
{
    if d < 10 {
        (48 + d) as char
    } else {
        (87 + d) as char
    }
}

/// Two hexadecimal digits for each byte, the high half first.
pub open spec fn hex_lower(bytes: Seq<u8>) -> Seq<char>
    decreases bytes.len(),
{
    if bytes.len() == 0 {
        Seq::empty()
    } else {
        hex_lower(bytes.drop_last()) + seq![
            hex_digit(bytes.last() as int / 16),
            hex_digit(bytes.last() as int % 16),
        ]
    }
}

/// A character as it stands in a JSON string.
pub open spec fn json_char(c: char) -> Seq<char> {
    if c == '"' {
        seq!['\\', '"']
    } else if c == '\\' {
        seq!['\\', '\\']
    } else if c as int == 8 {
        seq!['\\', 'b']
    } else if c as int == 9 {
        seq!['\\', 't']
    } else if c as int == 10 {
        seq!['\\', 'n']
    } else if c as int == 12 {
        seq!['\\', 'f']
    } else if c as int == 13 {
        seq!['\\', 'r']
    } else if (c as int) < 32 {
        seq!['\\', 'u', '0', '0', hex_digit(c as int / 16), hex_digit(c as int % 16)]
    } else {
        seq![c]
    }
}

/// The characters of a text as they stand in a JSON string.
pub open spec fn json_chars(text: Seq<char>) -> Seq<char>
    decreases text.len(),
{
    if text.len() == 0 {
        Seq::empty()
    } else {
        json_char(text[0]) + json_chars(text.skip(1))
    }
}

/// A text as a JSON string, in quotes.
pub open spec fn json_string(text: Seq<char>) -> Seq<char> {
    seq!['"'] + json_chars(text) + seq!['"']
}

/// The SHA-256 digest of some bytes.
pub uninterp spec fn sha256(data: Seq<u8>) -> Seq<u8>;

/// `serde_json::to_string` on a string: the text in quotes, with quotes,
/// backslashes and control characters escaped and all else as it is.
#[verifier::external_body]
fn quote(text: &str) -> (res: String)
    ensures
        res@ == json_string(text@),
{
    serde_json::to_string(text).expect("strings serialize")
}

/// `sha2::Sha256::digest`: a function of the bytes alone, 32 bytes long.
#[verifier::external_body]
fn digest(data: &[u8]) -> (res: Vec<u8>)
    ensures
        res@ == sha256(data@),
        res@.len() == 32,
{
    <sha2::Sha256 as sha2::Digest>::digest(data).to_vec()
}

/// `hex::encode`: two lower-case hexadecimal digits for each byte.
#[verifier::external_body]
fn encode_hex(data: &[u8]) -> (res: String)
    ensures
        res@ == hex_lower(data@),
{
    hex::encode(data)
}

/// Texts with commas before each.
pub open spec fn more_elements(items: Seq<Seq<char>>) -> Seq<char>
    decreases items.len(),
{
    if items.len() == 0 {
        Seq::empty()
    } else {
        ","@ + items[0] + more_elements(items.skip(1))
    }
}

/// Texts with commas in between.
pub open spec fn elements(items: Seq<Seq<char>>) -> Seq<char> {
    if items.len() == 0 {
        Seq::empty()
    } else {
        items[0] + more_elements(items.skip(1))
    }
}

/// A JSON array of these elements.
pub open spec fn json_array(items: Seq<Seq<char>>) -> Seq<char> {
    "["@ + elements(items) + "]"@
}

pub open spec fn dtype_json(dtype: DType) -> Seq<char> {
    match dtype {
        DType::F32 => "\"F32\""@,
        DType::F16 => "\"F16\""@,
        DType::BF16 => "\"BF16\""@,
        DType::I8 => "\"I8\""@,
    }
}

pub open spec fn space_json(space: MemSpace) -> Seq<char> {
    match space {
        MemSpace::Hbm => "\"Hbm\""@,
        MemSpace::SharedL1 => "\"SharedL1\""@,
        MemSpace::Register => "\"Register\""@,
    }
}

/// The elements of an array of sizes.
pub open spec fn size_items(sizes: Seq<u64>) -> Seq<Seq<char>> {
    Seq::new(sizes.len(), |i: int| decimal(sizes[i] as nat))
}

/// The elements of an array of node ids.
pub open spec fn id_items(ids: Seq<NodeId>) -> Seq<Seq<char>> {
    Seq::new(ids.len(), |i: int| decimal(ids[i] as nat))
}

pub open spec fn tensor_json(t: TensorModel) -> Seq<char> {
    "{\"name\":"@ + json_string(t.name) + ",\"shape\":"@ + json_array(size_items(t.shape))
        + ",\"dtype\":"@ + dtype_json(t.dtype) + ",\"space\":"@ + space_json(t.space) + "}"@
}

/// The elements of an array of tensors.
pub open spec fn tensor_items(tensors: Seq<TensorModel>) -> Seq<Seq<char>> {
    Seq::new(tensors.len(), |i: int| tensor_json(tensors[i]))
}

pub open spec fn op_json(op: OpModel) -> Seq<char> {
    match op {
        OpModel::MatMul { m, n, k } => "{\"MatMul\":{\"m\":"@ + decimal(m as nat) + ",\"n\":"@
            + decimal(n as nat) + ",\"k\":"@ + decimal(k as nat) + "}}"@,
        OpModel::RmsNorm { dim } => "{\"RmsNorm\":{\"dim\":"@ + decimal(dim as nat) + "}}"@,
        OpModel::Softmax { dim } => "{\"Softmax\":{\"dim\":"@ + decimal(dim as nat) + "}}"@,
        OpModel::Attention { heads, head_dim, seq_len } => "{\"Attention\":{\"heads\":"@ + decimal(
            heads as nat,
        ) + ",\"head_dim\":"@ + decimal(head_dim as nat) + ",\"seq_len\":"@ + decimal(
            seq_len as nat,
        ) + "}}"@,
        OpModel::Elementwise { op } => "{\"Elementwise\":{\"op\":"@ + json_string(op) + "}}"@,
        OpModel::Barrier => "\"Barrier\""@,
    }
}

pub open spec fn kind_json(kind: KindModel) -> Seq<char>
    decreases kind,
{
    match kind {
        KindModel::Op(op) => "{\"Op\":"@ + op_json(op) + "}"@,
        KindModel::SubSchedule(sub) => "{\"SubSchedule\":"@ + schedule_json(*sub) + "}"@,
    }
}

pub open spec fn node_json(node: NodeModel) -> Seq<char>
    decreases node,
{
    "{\"id\":"@ + decimal(node.id as nat) + ",\"kind\":"@ + kind_json(node.kind) + ",\"inputs\":"@
        + json_array(tensor_items(node.inputs)) + ",\"outputs\":"@ + json_array(
        tensor_items(node.outputs),
    ) + ",\"sm\":"@ + decimal(node.sm as nat) + ",\"waits_on\":"@ + json_array(
        id_items(node.waits_on),
    ) + "}"@
}

/// The canonical text of a schedule.
pub open spec fn schedule_json(s: ScheduleModel) -> Seq<char>
    decreases s,
{
    "{\"name\":"@ + json_string(s.name) + ",\"nodes\":"@ + json_array(node_items(s.nodes)) + "}"@
}

/// The elements of an array of nodes.
pub open spec fn node_items(nodes: Seq<NodeModel>) -> Seq<Seq<char>>
    decreases nodes,
{
    Seq::new(
        nodes.len(),
        |i: int|
            if 0 <= i < nodes.len() {
                node_json(nodes[i])
            } else {
                Seq::empty()
            },
    )
}

/// The fingerprint of a schedule: the digest of its canonical text, in hexadecimal.
pub open spec fn fingerprint(s: ScheduleModel) -> Seq<char> {
    hex_lower(sha256(encode_utf8(schedule_json(s))))
}

fn array_text(items: &Vec<String>) -> (res: String)
    ensures
        res@ == json_array(texts(items@)),
{
    let ghost all = texts(items@);
    let mut out: String = "[".to_owned();
    let ghost open = out@;
    if items.len() > 0 {
        out.append(items[0].as_str());
        let ghost head = out@;
        for i in 1..items.len()
            invariant
                1 <= items@.len(),
                all == texts(items@),
                head + more_elements(all.skip(1)) == out@ + more_elements(all.skip(i as int)),
        {
            let ghost before = out@;
            out.append(",");
            out.append(items[i].as_str());
            proof {
                let left = all.skip(i as int);
                assert(left[0] == items@[i as int]@);
                assert(left.skip(1) =~= all.skip(i + 1));
                assert(before + more_elements(left) =~= out@ + more_elements(all.skip(i + 1)));
            }
        }
        proof {
            assert(all.skip(items@.len() as int) =~= Seq::empty());
            assert(out@ =~= head + more_elements(all.skip(1)));
            assert(out@ =~= open + elements(all));
        }
    } else {
        assert(out@ =~= open + elements(all));
    }
    out.append("]");
    out
}

fn dtype_text(dtype: DType) -> (res: &'static str)
    ensures
        res@ == dtype_json(dtype),
{
    match dtype {
        DType::F32 => "\"F32\"",
        DType::F16 => "\"F16\"",
        DType::BF16 => "\"BF16\"",
        DType::I8 => "\"I8\"",
    }
}

fn space_text(space: MemSpace) -> (res: &'static str)
    ensures
        res@ == space_json(space),
{
    match space {
        MemSpace::Hbm => "\"Hbm\"",
        MemSpace::SharedL1 => "\"SharedL1\"",
        MemSpace::Register => "\"Register\"",
    }
}

fn sizes_text(sizes: &Vec<u64>) -> (res: String)
    ensures
        res@ == json_array(size_items(sizes@)),
{
    let mut items: Vec<String> = Vec::new();
    for i in 0..sizes.len()
        invariant
            items@.len() == i,
            forall|j: int| 0 <= j < i ==> #[trigger] items@[j]@ == decimal(sizes@[j] as nat),
    {
        items.push(decimal_text(sizes[i]));
    }
    assert(texts(items@) =~= size_items(sizes@));
    array_text(&items)
}

fn ids_text(ids: &Vec<NodeId>) -> (res: String)
    ensures
        res@ == json_array(id_items(ids@)),
{
    let mut items: Vec<String> = Vec::new();
    for i in 0..ids.len()
        invariant
            items@.len() == i,
            forall|j: int| 0 <= j < i ==> #[trigger] items@[j]@ == decimal(ids@[j] as nat),
    {
        items.push(decimal_text(ids[i] as u64));
    }
    assert(texts(items@) =~= id_items(ids@));
    array_text(&items)
}

fn tensor_text(t: &Tensor) -> (res: String)
    ensures
        res@ == tensor_json(t@),
{
    let mut out: String = "{\"name\":".to_owned();
    out.append(quote(t.name.as_str()).as_str());
    out.append(",\"shape\":");
    out.append(sizes_text(&t.shape).as_str());
    out.append(",\"dtype\":");
    out.append(dtype_text(t.dtype));
    out.append(",\"space\":");
    out.append(space_text(t.space));
    out.append("}");
    out
}

fn tensors_text(tensors: &Vec<Tensor>) -> (res: String)
    ensures
        res@ == json_array(tensor_items(tensor_models(tensors@))),
{
    let mut items: Vec<String> = Vec::new();
    for i in 0..tensors.len()
        invariant
            items@.len() == i,
            forall|j: int| 0 <= j < i ==> #[trigger] items@[j]@ == tensor_json(tensors@[j]@),
    {
        items.push(tensor_text(&tensors[i]));
    }
    assert(texts(items@) =~= tensor_items(tensor_models(tensors@)));
    array_text(&items)
}

fn op_text(op: &OpKind) -> (res: String)
    ensures
        res@ == op_json(op@),
{
    match op {
        OpKind::MatMul { m, n, k } => {
            let mut out: String = "{\"MatMul\":{\"m\":".to_owned();
            out.append(decimal_text(*m).as_str());
            out.append(",\"n\":");
            out.append(decimal_text(*n).as_str());
            out.append(",\"k\":");
            out.append(decimal_text(*k).as_str());
            out.append("}}");
            out
        },
        OpKind::RmsNorm { dim } => {
            let mut out: String = "{\"RmsNorm\":{\"dim\":".to_owned();
            out.append(decimal_text(*dim).as_str());
            out.append("}}");
            out
        },
        OpKind::Softmax { dim } => {
            let mut out: String = "{\"Softmax\":{\"dim\":".to_owned();
            out.append(decimal_text(*dim).as_str());
            out.append("}}");
            out
        },
        OpKind::Attention { heads, head_dim, seq_len } => {
            let mut out: String = "{\"Attention\":{\"heads\":".to_owned();
            out.append(decimal_text(*heads).as_str());
            out.append(",\"head_dim\":");
            out.append(decimal_text(*head_dim).as_str());
            out.append(",\"seq_len\":");
            out.append(decimal_text(*seq_len).as_str());
            out.append("}}");
            out
        },
        OpKind::Elementwise { op } => {
            let mut out: String = "{\"Elementwise\":{\"op\":".to_owned();
            out.append(quote(op.as_str()).as_str());
            out.append("}}");
            out
        },
        OpKind::Barrier => "\"Barrier\"".to_owned(),
    }
}

fn node_text(node: &Node) -> (res: String)
    ensures
        res@ == node_json(node@),
    decreases node,
{
    let kind: String = match &node.kind {
        NodeKind::Op(op) => {
            let mut out: String = "{\"Op\":".to_owned();
            out.append(op_text(op).as_str());
            out.append("}");
            out
        },
        NodeKind::SubSchedule(sub) => {
            let mut out: String = "{\"SubSchedule\":".to_owned();
            out.append(canonical_json(sub).as_str());
            out.append("}");
            out
        },
    };
    assert(kind@ == kind_json(node@.kind));
    let mut out: String = "{\"id\":".to_owned();
    out.append(decimal_text(node.id as u64).as_str());
    out.append(",\"kind\":");
    out.append(kind.as_str());
    out.append(",\"inputs\":");
    out.append(tensors_text(&node.inputs).as_str());
    out.append(",\"outputs\":");
    out.append(tensors_text(&node.outputs).as_str());
    out.append(",\"sm\":");
    out.append(decimal_text(node.sm as u64).as_str());
    out.append(",\"waits_on\":");
    out.append(ids_text(&node.waits_on).as_str());
    out.append("}");
    out
}

/// Writes the canonical text of a schedule.
pub fn canonical_json(schedule: &Schedule) -> (res: String)
    ensures
        res@ == schedule_json(schedule@),
    decreases schedule,
{
    let mut items: Vec<String> = Vec::new();
    for i in 0..schedule.nodes.len()
        invariant
            items@.len() == i,
            forall|j: int| 0 <= j < i ==> #[trigger] items@[j]@ == node_json(schedule@.nodes[j]),
    {
        items.push(node_text(&schedule.nodes[i]));
    }
    assert(texts(items@) =~= node_items(schedule@.nodes));
    let mut out: String = "{\"name\":".to_owned();
    out.append(quote(schedule.name.as_str()).as_str());
    out.append(",\"nodes\":");
    out.append(array_text(&items).as_str());
    out.append("}");
    out
}

/// The fingerprint that goes with a digest.
pub fn digest_text(digest: &[u8]) -> (res: String)
    ensures
        res@ == hex_lower(digest@),
{
    encode_hex(digest)
}

/// The fingerprint of a schedule.
pub fn fingerprint_schedule(schedule: &Schedule) -> (res: String)
    ensures
        res@ == fingerprint(schedule@),
        res@.len() == 64,
{
    let json: String = canonical_json(schedule);
    let hash: Vec<u8> = digest(json.as_str().as_bytes());
    proof {
        lemma_hex_len(hash@);
    }
    digest_text(hash.as_slice())
}

/// Hexadecimal text is twice as long as the bytes.
pub proof fn lemma_hex_len(bytes: Seq<u8>)
    ensures
        hex_lower(bytes).len() == 2 * bytes.len(),
    decreases bytes.len(),
{
    if bytes.len() > 0 {
        lemma_hex_len(bytes.drop_last());
    }
}

} // verus!
