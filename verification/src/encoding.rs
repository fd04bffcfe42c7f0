//! The canonical text tells schedules apart, and so does the fingerprint as
//! far as the digest tells texts apart.
//!
//! Each piece of the text shows where it ends: read from the left, there is
//! only one value that it can stand for.
use vstd::prelude::*;
use vstd::utf8::encode_utf8;

use crate::fingerprint::{
    dtype_json, elements, fingerprint, hex_digit, hex_lower, id_items, json_array, json_char,
    json_chars, json_string, kind_json, lemma_hex_len, more_elements, node_items, node_json,
    op_json, schedule_json, sha256, size_items, space_json, tensor_items, tensor_json,
};
use crate::ir::{DType, KindModel, MemSpace, NodeId, NodeModel, OpModel, ScheduleModel, TensorModel};
use crate::text::{decimal, digit, lemma_encoding_injective};

verus! {

broadcast proof fn lemma_regroup(a: Seq<char>, b: Seq<char>, c: Seq<char>)
    ensures
        #[trigger] ((a + b) + c) == a + (b + c),
{
    assert((a + b) + c =~= a + (b + c));
}

/// What follows the same text is the same.
proof fn lemma_strip(front: Seq<char>, a: Seq<char>, b: Seq<char>)
    requires
        front + a == front + b,
    ensures
        a == b,
{
    assert(a =~= (front + a).skip(front.len() as int));
    assert(b =~= (front + b).skip(front.len() as int));
}

/// A character that no number holds.
spec fn ends_number(c: char) -> bool {
    (c as int) < 48 || (c as int) > 57
}

/// A text that a number can stand in front of without growing.
spec fn follows_number(text: Seq<char>) -> bool {
    text.len() > 0 && ends_number(text[0])
}

proof fn lemma_decimal_digits(n: nat)
    ensures
        decimal(n).len() > 0,
        n >= 10 ==> decimal(n).len() > 1,
        forall|i: int| 0 <= i < decimal(n).len() ==> !ends_number(#[trigger] decimal(n)[i]),
    decreases n,
{
    if n >= 10 {
        lemma_decimal_digits(n / 10);
    }
}

proof fn lemma_decimal_injective(m: nat, n: nat)
    requires
        decimal(m) == decimal(n),
    ensures
        m == n,
    decreases m,
{
    lemma_decimal_digits(m);
    lemma_decimal_digits(n);
    if m < 10 {
        assert(decimal(n)[0] == digit(m as int));
    } else {
        assert(decimal(m).drop_last() =~= decimal(m / 10));
        assert(decimal(n).drop_last() =~= decimal(n / 10));
        assert(decimal(m).last() == digit((m % 10) as int));
        assert(decimal(n).last() == digit((n % 10) as int));
        lemma_decimal_injective(m / 10, n / 10);
    }
}

proof fn lemma_number_ends(m: nat, n: nat, x: Seq<char>, y: Seq<char>)
    requires
        decimal(m) + x == decimal(n) + y,
        follows_number(x),
        follows_number(y),
    ensures
        m == n,
        x == y,
{
    let (a, b) = (decimal(m), decimal(n));
    lemma_decimal_digits(m);
    lemma_decimal_digits(n);
    if a.len() < b.len() {
        assert((a + x)[a.len() as int] == x[0]);
        assert((b + y)[a.len() as int] == b[a.len() as int]);
    }
    if b.len() < a.len() {
        assert((b + y)[b.len() as int] == y[0]);
        assert((a + x)[b.len() as int] == a[b.len() as int]);
    }
    assert(a =~= (a + x).take(a.len() as int));
    assert(b =~= (b + y).take(b.len() as int));
    lemma_decimal_injective(m, n);
    lemma_strip(a, x, y);
}

proof fn lemma_char_ends(a: char, b: char, x: Seq<char>, y: Seq<char>)
    requires
        json_char(a) + x == json_char(b) + y,
    ensures
        a == b,
        x == y,
{
    let (p, q) = (json_char(a), json_char(b));
    assert((p + x)[0] == p[0] && (q + y)[0] == q[0]);
    if p[0] == '\\' {
        assert((p + x)[1] == p[1] && (q + y)[1] == q[1]);
        if p[1] == 'u' {
            assert((p + x)[4] == p[4] && (q + y)[4] == q[4]);
            assert((p + x)[5] == p[5] && (q + y)[5] == q[5]);
        }
    }
    assert(a == b);
    lemma_strip(p, x, y);
}

proof fn lemma_chars_end(a: Seq<char>, b: Seq<char>, x: Seq<char>, y: Seq<char>)
    requires
        json_chars(a) + (seq!['"'] + x) == json_chars(b) + (seq!['"'] + y),
    ensures
        a == b,
        x == y,
    decreases a.len(),
{
    let (p, q) = (seq!['"'] + x, seq!['"'] + y);
    if a.len() == 0 && b.len() == 0 {
        assert(a =~= b);
        lemma_strip(json_chars(a), p, q);
        lemma_strip(seq!['"'], x, y);
    } else if a.len() == 0 {
        assert((json_chars(a) + p)[0] == '"');
        assert((json_chars(b) + q)[0] == json_char(b[0])[0]);
    } else if b.len() == 0 {
        assert((json_chars(b) + q)[0] == '"');
        assert((json_chars(a) + p)[0] == json_char(a[0])[0]);
    } else {
        lemma_regroup(json_char(a[0]), json_chars(a.skip(1)), p);
        lemma_regroup(json_char(b[0]), json_chars(b.skip(1)), q);
        lemma_char_ends(a[0], b[0], json_chars(a.skip(1)) + p, json_chars(b.skip(1)) + q);
        lemma_chars_end(a.skip(1), b.skip(1), x, y);
        assert(a =~= seq![a[0]] + a.skip(1));
        assert(b =~= seq![b[0]] + b.skip(1));
    }
}

proof fn lemma_string_ends(a: Seq<char>, b: Seq<char>, x: Seq<char>, y: Seq<char>)
    requires
        json_string(a) + x == json_string(b) + y,
    ensures
        a == b,
        x == y,
{
    broadcast use lemma_regroup;

    let quote = seq!['"'];
    assert(json_string(a) + x == quote + (json_chars(a) + (quote + x)));
    assert(json_string(b) + y == quote + (json_chars(b) + (quote + y)));
    lemma_strip(quote, json_chars(a) + (quote + x), json_chars(b) + (quote + y));
    lemma_chars_end(a, b, x, y);
}

/// A text that goes on after an element of an array.
spec fn follows_element(text: Seq<char>) -> bool {
    text.len() > 0 && (text[0] == ',' || text[0] == ']')
}

/// An element cannot be mistaken for the end of its array.
spec fn starts_element(text: Seq<char>) -> bool {
    text.len() > 0 && text[0] != ']'
}

/// From the left, an element of either list can be read in one way only.
spec fn tells_apart(a: Seq<Seq<char>>, b: Seq<Seq<char>>) -> bool {
    forall|i: int, j: int, x: Seq<char>, y: Seq<char>|
        0 <= i < a.len() && 0 <= j < b.len() && follows_element(x) && follows_element(y)
            && #[trigger] (a[i] + x) == #[trigger] (b[j] + y) ==> a[i] == b[j] && x == y
}

proof fn lemma_tells_rest_apart(a: Seq<Seq<char>>, b: Seq<Seq<char>>)
    requires
        tells_apart(a, b),
        a.len() > 0,
        b.len() > 0,
    ensures
        tells_apart(a.skip(1), b.skip(1)),
{
    assert forall|i: int, j: int, x: Seq<char>, y: Seq<char>|
        0 <= i < a.skip(1).len() && 0 <= j < b.skip(1).len() && follows_element(x)
            && follows_element(y) && #[trigger] (a.skip(1)[i] + x) == #[trigger] (b.skip(1)[j]
            + y) implies a.skip(1)[i] == b.skip(1)[j] && x == y by {
        assert(a[i + 1] + x == b[j + 1] + y);
    }
}

proof fn lemma_more_elements_end(
    a: Seq<Seq<char>>,
    b: Seq<Seq<char>>,
    x: Seq<char>,
    y: Seq<char>,
)
    requires
        tells_apart(a, b),
        more_elements(a) + ("]"@ + x) == more_elements(b) + ("]"@ + y),
    ensures
        a == b,
        x == y,
    decreases a.len(),
{
    reveal_strlit(",");
    reveal_strlit("]");
    let (p, q) = ("]"@ + x, "]"@ + y);
    if a.len() == 0 && b.len() == 0 {
        assert(a =~= b);
        lemma_strip(more_elements(a), p, q);
        lemma_strip("]"@, x, y);
    } else if a.len() == 0 {
        assert((more_elements(a) + p)[0] == ']');
        assert((more_elements(b) + q)[0] == ',');
    } else if b.len() == 0 {
        assert((more_elements(b) + q)[0] == ']');
        assert((more_elements(a) + p)[0] == ',');
    } else {
        let (u, v) = (more_elements(a.skip(1)) + p, more_elements(b.skip(1)) + q);
        lemma_regroup(","@ + a[0], more_elements(a.skip(1)), p);
        lemma_regroup(","@, a[0], u);
        lemma_regroup(","@ + b[0], more_elements(b.skip(1)), q);
        lemma_regroup(","@, b[0], v);
        lemma_strip(","@, a[0] + u, b[0] + v);
        lemma_rest_follows(a.skip(1), x);
        lemma_rest_follows(b.skip(1), y);
        assert(a[0] == b[0] && u == v);
        lemma_tells_rest_apart(a, b);
        lemma_more_elements_end(a.skip(1), b.skip(1), x, y);
        assert(a =~= seq![a[0]] + a.skip(1));
        assert(b =~= seq![b[0]] + b.skip(1));
    }
}

proof fn lemma_rest_follows(a: Seq<Seq<char>>, x: Seq<char>)
    ensures
        follows_element(more_elements(a) + ("]"@ + x)),
{
    reveal_strlit(",");
    reveal_strlit("]");
    if a.len() > 0 {
        assert((more_elements(a) + ("]"@ + x))[0] == ',');
    } else {
        assert((more_elements(a) + ("]"@ + x))[0] == ']');
    }
}

proof fn lemma_array_ends(a: Seq<Seq<char>>, b: Seq<Seq<char>>, x: Seq<char>, y: Seq<char>)
    requires
        tells_apart(a, b),
        forall|i: int| 0 <= i < a.len() ==> starts_element(#[trigger] a[i]),
        forall|i: int| 0 <= i < b.len() ==> starts_element(#[trigger] b[i]),
        json_array(a) + x == json_array(b) + y,
    ensures
        a == b,
        x == y,
{
    reveal_strlit("]");
    let (p, q) = ("]"@ + x, "]"@ + y);
    lemma_regroup("["@ + elements(a), "]"@, x);
    lemma_regroup("["@, elements(a), p);
    lemma_regroup("["@ + elements(b), "]"@, y);
    lemma_regroup("["@, elements(b), q);
    lemma_strip("["@, elements(a) + p, elements(b) + q);
    if a.len() == 0 && b.len() == 0 {
        assert(a =~= b);
        lemma_strip(elements(a), p, q);
        lemma_strip("]"@, x, y);
    } else if a.len() == 0 {
        assert((elements(a) + p)[0] == ']');
        assert((elements(b) + q)[0] == b[0][0]);
        assert(starts_element(b[0]));
    } else if b.len() == 0 {
        assert((elements(b) + q)[0] == ']');
        assert((elements(a) + p)[0] == a[0][0]);
        assert(starts_element(a[0]));
    } else {
        let (u, v) = (more_elements(a.skip(1)) + p, more_elements(b.skip(1)) + q);
        lemma_regroup(a[0], more_elements(a.skip(1)), p);
        lemma_regroup(b[0], more_elements(b.skip(1)), q);
        lemma_rest_follows(a.skip(1), x);
        lemma_rest_follows(b.skip(1), y);
        assert(a[0] + u == b[0] + v);
        lemma_tells_rest_apart(a, b);
        lemma_more_elements_end(a.skip(1), b.skip(1), x, y);
        assert(a =~= seq![a[0]] + a.skip(1));
        assert(b =~= seq![b[0]] + b.skip(1));
    }
}

proof fn lemma_number_starts(n: nat)
    ensures
        starts_element(decimal(n)),
{
    lemma_decimal_digits(n);
    assert(!ends_number(decimal(n)[0]));
}

proof fn lemma_sizes_end(a: Seq<u64>, b: Seq<u64>, x: Seq<char>, y: Seq<char>)
    requires
        json_array(size_items(a)) + x == json_array(size_items(b)) + y,
    ensures
        a == b,
        x == y,
{
    let (p, q) = (size_items(a), size_items(b));
    assert forall|i: int, j: int, u: Seq<char>, v: Seq<char>|
        0 <= i < p.len() && 0 <= j < q.len() && follows_element(u) && follows_element(v)
            && #[trigger] (p[i] + u) == #[trigger] (q[j] + v) implies p[i] == q[j] && u == v by {
        lemma_number_ends(a[i] as nat, b[j] as nat, u, v);
    }
    assert forall|i: int| 0 <= i < p.len() implies starts_element(#[trigger] p[i]) by {
        lemma_number_starts(a[i] as nat);
    }
    assert forall|i: int| 0 <= i < q.len() implies starts_element(#[trigger] q[i]) by {
        lemma_number_starts(b[i] as nat);
    }
    lemma_array_ends(p, q, x, y);
    assert(p.len() == a.len() && q.len() == b.len());
    assert forall|i: int| 0 <= i < a.len() implies a[i] == b[i] by {
        assert(p[i] == q[i]);
        lemma_decimal_injective(a[i] as nat, b[i] as nat);
    }
    assert(a =~= b);
}

proof fn lemma_ids_end(a: Seq<NodeId>, b: Seq<NodeId>, x: Seq<char>, y: Seq<char>)
    requires
        json_array(id_items(a)) + x == json_array(id_items(b)) + y,
    ensures
        a == b,
        x == y,
{
    let (p, q) = (id_items(a), id_items(b));
    assert forall|i: int, j: int, u: Seq<char>, v: Seq<char>|
        0 <= i < p.len() && 0 <= j < q.len() && follows_element(u) && follows_element(v)
            && #[trigger] (p[i] + u) == #[trigger] (q[j] + v) implies p[i] == q[j] && u == v by {
        lemma_number_ends(a[i] as nat, b[j] as nat, u, v);
    }
    assert forall|i: int| 0 <= i < p.len() implies starts_element(#[trigger] p[i]) by {
        lemma_number_starts(a[i] as nat);
    }
    assert forall|i: int| 0 <= i < q.len() implies starts_element(#[trigger] q[i]) by {
        lemma_number_starts(b[i] as nat);
    }
    lemma_array_ends(p, q, x, y);
    assert(p.len() == a.len() && q.len() == b.len());
    assert forall|i: int| 0 <= i < a.len() implies a[i] == b[i] by {
        assert(p[i] == q[i]);
        lemma_decimal_injective(a[i] as nat, b[i] as nat);
    }
    assert(a =~= b);
}

proof fn lemma_dtype_ends(a: DType, b: DType, x: Seq<char>, y: Seq<char>)
    requires
        dtype_json(a) + x == dtype_json(b) + y,
    ensures
        a == b,
        x == y,
{
    reveal_strlit("\"F32\"");
    reveal_strlit("\"F16\"");
    reveal_strlit("\"BF16\"");
    reveal_strlit("\"I8\"");
    let (p, q) = (dtype_json(a), dtype_json(b));
    assert((p + x)[1] == p[1] && (q + y)[1] == q[1]);
    assert((p + x)[2] == p[2] && (q + y)[2] == q[2]);
    assert(a == b);
    lemma_strip(p, x, y);
}

proof fn lemma_space_ends(a: MemSpace, b: MemSpace, x: Seq<char>, y: Seq<char>)
    requires
        space_json(a) + x == space_json(b) + y,
    ensures
        a == b,
        x == y,
{
    reveal_strlit("\"Hbm\"");
    reveal_strlit("\"SharedL1\"");
    reveal_strlit("\"Register\"");
    let (p, q) = (space_json(a), space_json(b));
    assert((p + x)[1] == p[1] && (q + y)[1] == q[1]);
    assert(a == b);
    lemma_strip(p, x, y);
}

proof fn lemma_tensor_ends(a: TensorModel, b: TensorModel, x: Seq<char>, y: Seq<char>)
    requires
        tensor_json(a) + x == tensor_json(b) + y,
    ensures
        a == b,
        x == y,
{
    let (a3, b3) = ("}"@ + x, "}"@ + y);
    let (a2, b2) = (
        ",\"space\":"@ + (space_json(a.space) + a3),
        ",\"space\":"@ + (space_json(b.space) + b3),
    );
    let (a1, b1) = (
        ",\"dtype\":"@ + (dtype_json(a.dtype) + a2),
        ",\"dtype\":"@ + (dtype_json(b.dtype) + b2),
    );
    let (a0, b0) = (
        ",\"shape\":"@ + (json_array(size_items(a.shape)) + a1),
        ",\"shape\":"@ + (json_array(size_items(b.shape)) + b1),
    );
    assert(tensor_json(a) + x == "{\"name\":"@ + (json_string(a.name) + a0)) by {
        broadcast use lemma_regroup;

    }
    assert(tensor_json(b) + y == "{\"name\":"@ + (json_string(b.name) + b0)) by {
        broadcast use lemma_regroup;

    }
    lemma_strip("{\"name\":"@, json_string(a.name) + a0, json_string(b.name) + b0);
    lemma_string_ends(a.name, b.name, a0, b0);
    lemma_strip(
        ",\"shape\":"@,
        json_array(size_items(a.shape)) + a1,
        json_array(size_items(b.shape)) + b1,
    );
    lemma_sizes_end(a.shape, b.shape, a1, b1);
    lemma_strip(",\"dtype\":"@, dtype_json(a.dtype) + a2, dtype_json(b.dtype) + b2);
    lemma_dtype_ends(a.dtype, b.dtype, a2, b2);
    lemma_strip(",\"space\":"@, space_json(a.space) + a3, space_json(b.space) + b3);
    lemma_space_ends(a.space, b.space, a3, b3);
    lemma_strip("}"@, x, y);
}

proof fn lemma_tensor_starts(t: TensorModel)
    ensures
        starts_element(tensor_json(t)),
{
    broadcast use lemma_regroup;

    reveal_strlit("{\"name\":");
    assert(tensor_json(t)[0] == '{');
}

proof fn lemma_tensors_end(
    a: Seq<TensorModel>,
    b: Seq<TensorModel>,
    x: Seq<char>,
    y: Seq<char>,
)
    requires
        json_array(tensor_items(a)) + x == json_array(tensor_items(b)) + y,
    ensures
        a == b,
        x == y,
{
    let (p, q) = (tensor_items(a), tensor_items(b));
    assert forall|i: int, j: int, u: Seq<char>, v: Seq<char>|
        0 <= i < p.len() && 0 <= j < q.len() && follows_element(u) && follows_element(v)
            && #[trigger] (p[i] + u) == #[trigger] (q[j] + v) implies p[i] == q[j] && u == v by {
        lemma_tensor_ends(a[i], b[j], u, v);
    }
    assert forall|i: int| 0 <= i < p.len() implies starts_element(#[trigger] p[i]) by {
        lemma_tensor_starts(a[i]);
    }
    assert forall|i: int| 0 <= i < q.len() implies starts_element(#[trigger] q[i]) by {
        lemma_tensor_starts(b[i]);
    }
    lemma_array_ends(p, q, x, y);
    assert(p.len() == a.len() && q.len() == b.len());
    assert forall|i: int| 0 <= i < a.len() implies a[i] == b[i] by {
        assert(p[i] == q[i]);
        lemma_tensor_ends(a[i], b[i], Seq::empty(), Seq::empty());
    }
    assert(a =~= b);
}

/// Three numbers between the same four pieces of text.
proof fn lemma_three_numbers_end(
    front: Seq<char>,
    second: Seq<char>,
    third: Seq<char>,
    back: Seq<char>,
    a: (nat, nat, nat),
    b: (nat, nat, nat),
    x: Seq<char>,
    y: Seq<char>,
)
    requires
        follows_number(second),
        follows_number(third),
        follows_number(back),
        front + decimal(a.0) + second + decimal(a.1) + third + decimal(a.2) + back + x == front
            + decimal(b.0) + second + decimal(b.1) + third + decimal(b.2) + back + y,
    ensures
        a == b,
        x == y,
{
    let (a2, b2) = (back + x, back + y);
    let (a1, b1) = (third + (decimal(a.2) + a2), third + (decimal(b.2) + b2));
    let (a0, b0) = (second + (decimal(a.1) + a1), second + (decimal(b.1) + b1));
    assert(front + decimal(a.0) + second + decimal(a.1) + third + decimal(a.2) + back + x == front
        + (decimal(a.0) + a0)) by {
        broadcast use lemma_regroup;

    }
    assert(front + decimal(b.0) + second + decimal(b.1) + third + decimal(b.2) + back + y == front
        + (decimal(b.0) + b0)) by {
        broadcast use lemma_regroup;

    }
    lemma_strip(front, decimal(a.0) + a0, decimal(b.0) + b0);
    lemma_number_ends(a.0, b.0, a0, b0);
    lemma_strip(second, decimal(a.1) + a1, decimal(b.1) + b1);
    lemma_number_ends(a.1, b.1, a1, b1);
    lemma_strip(third, decimal(a.2) + a2, decimal(b.2) + b2);
    lemma_number_ends(a.2, b.2, a2, b2);
    lemma_strip(back, x, y);
}

/// One number between the same two pieces of text.
proof fn lemma_one_number_ends(
    front: Seq<char>,
    back: Seq<char>,
    a: nat,
    b: nat,
    x: Seq<char>,
    y: Seq<char>,
)
    requires
        follows_number(back),
        front + decimal(a) + back + x == front + decimal(b) + back + y,
    ensures
        a == b,
        x == y,
{
    broadcast use lemma_regroup;

    assert(front + decimal(a) + back + x == front + (decimal(a) + (back + x)));
    assert(front + decimal(b) + back + y == front + (decimal(b) + (back + y)));
    lemma_strip(front, decimal(a) + (back + x), decimal(b) + (back + y));
    lemma_number_ends(a, b, back + x, back + y);
    lemma_strip(back, x, y);
}

/// Which operation it is shows at the start of the text.
spec fn op_mark(op: OpModel) -> char {
    match op {
        OpModel::MatMul { .. } => 'M',
        OpModel::RmsNorm { .. } => 'R',
        OpModel::Softmax { .. } => 'S',
        OpModel::Attention { .. } => 'A',
        OpModel::Elementwise { .. } => 'E',
        OpModel::Barrier => 'a',
    }
}

proof fn lemma_op_marked(op: OpModel)
    ensures
        op_json(op).len() > 2,
        op_json(op)[2] == op_mark(op),
{
    broadcast use lemma_regroup;

    reveal_strlit("{\"MatMul\":{\"m\":");
    reveal_strlit("{\"RmsNorm\":{\"dim\":");
    reveal_strlit("{\"Softmax\":{\"dim\":");
    reveal_strlit("{\"Attention\":{\"heads\":");
    reveal_strlit("{\"Elementwise\":{\"op\":");
    reveal_strlit("\"Barrier\"");
}

proof fn lemma_op_ends(a: OpModel, b: OpModel, x: Seq<char>, y: Seq<char>)
    requires
        op_json(a) + x == op_json(b) + y,
    ensures
        a == b,
        x == y,
{
    lemma_op_marked(a);
    lemma_op_marked(b);
    assert((op_json(a) + x)[2] == op_mark(a));
    assert((op_json(b) + y)[2] == op_mark(b));
    reveal_strlit("}}");
    match (a, b) {
        (OpModel::MatMul { m, n, k }, OpModel::MatMul { m: m2, n: n2, k: k2 }) => {
            reveal_strlit(",\"n\":");
            reveal_strlit(",\"k\":");
            lemma_three_numbers_end(
                "{\"MatMul\":{\"m\":"@,
                ",\"n\":"@,
                ",\"k\":"@,
                "}}"@,
                (m as nat, n as nat, k as nat),
                (m2 as nat, n2 as nat, k2 as nat),
                x,
                y,
            );
        },
        (OpModel::RmsNorm { dim }, OpModel::RmsNorm { dim: dim2 }) => {
            lemma_one_number_ends(
                "{\"RmsNorm\":{\"dim\":"@,
                "}}"@,
                dim as nat,
                dim2 as nat,
                x,
                y,
            );
        },
        (OpModel::Softmax { dim }, OpModel::Softmax { dim: dim2 }) => {
            lemma_one_number_ends(
                "{\"Softmax\":{\"dim\":"@,
                "}}"@,
                dim as nat,
                dim2 as nat,
                x,
                y,
            );
        },
        (
            OpModel::Attention { heads, head_dim, seq_len },
            OpModel::Attention { heads: heads2, head_dim: head_dim2, seq_len: seq_len2 },
        ) => {
            reveal_strlit(",\"head_dim\":");
            reveal_strlit(",\"seq_len\":");
            lemma_three_numbers_end(
                "{\"Attention\":{\"heads\":"@,
                ",\"head_dim\":"@,
                ",\"seq_len\":"@,
                "}}"@,
                (heads as nat, head_dim as nat, seq_len as nat),
                (heads2 as nat, head_dim2 as nat, seq_len2 as nat),
                x,
                y,
            );
        },
        (OpModel::Elementwise { op }, OpModel::Elementwise { op: op2 }) => {
            let front = "{\"Elementwise\":{\"op\":"@;
            lemma_regroup(front + json_string(op), "}}"@, x);
            lemma_regroup(front, json_string(op), "}}"@ + x);
            lemma_regroup(front + json_string(op2), "}}"@, y);
            lemma_regroup(front, json_string(op2), "}}"@ + y);
            lemma_strip(front, json_string(op) + ("}}"@ + x), json_string(op2) + ("}}"@ + y));
            lemma_string_ends(op, op2, "}}"@ + x, "}}"@ + y);
            lemma_strip("}}"@, x, y);
        },
        (OpModel::Barrier, OpModel::Barrier) => {
            lemma_strip("\"Barrier\""@, x, y);
        },
        _ => {},
    }
}

proof fn lemma_kind_ends(a: KindModel, b: KindModel, x: Seq<char>, y: Seq<char>)
    requires
        kind_json(a) + x == kind_json(b) + y,
    ensures
        a == b,
        x == y,
    decreases a,
{
    reveal_strlit("{\"Op\":");
    reveal_strlit("{\"SubSchedule\":");
    match (a, b) {
        (KindModel::Op(p), KindModel::Op(q)) => {
            let front = "{\"Op\":"@;
            lemma_regroup(front + op_json(p), "}"@, x);
            lemma_regroup(front, op_json(p), "}"@ + x);
            lemma_regroup(front + op_json(q), "}"@, y);
            lemma_regroup(front, op_json(q), "}"@ + y);
            lemma_strip(front, op_json(p) + ("}"@ + x), op_json(q) + ("}"@ + y));
            lemma_op_ends(p, q, "}"@ + x, "}"@ + y);
            lemma_strip("}"@, x, y);
        },
        (KindModel::SubSchedule(p), KindModel::SubSchedule(q)) => {
            let front = "{\"SubSchedule\":"@;
            lemma_regroup(front + schedule_json(*p), "}"@, x);
            lemma_regroup(front, schedule_json(*p), "}"@ + x);
            lemma_regroup(front + schedule_json(*q), "}"@, y);
            lemma_regroup(front, schedule_json(*q), "}"@ + y);
            lemma_strip(front, schedule_json(*p) + ("}"@ + x), schedule_json(*q) + ("}"@ + y));
            lemma_schedule_ends(*p, *q, "}"@ + x, "}"@ + y);
            lemma_strip("}"@, x, y);
        },
        (KindModel::Op(p), KindModel::SubSchedule(q)) => {
            assert((kind_json(a) + x)[2] == 'O');
            assert((kind_json(b) + y)[2] == 'S');
        },
        (KindModel::SubSchedule(p), KindModel::Op(q)) => {
            assert((kind_json(a) + x)[2] == 'S');
            assert((kind_json(b) + y)[2] == 'O');
        },
    }
}

proof fn lemma_node_ends(a: NodeModel, b: NodeModel, x: Seq<char>, y: Seq<char>)
    requires
        node_json(a) + x == node_json(b) + y,
    ensures
        a == b,
        x == y,
    decreases a,
{
    reveal_strlit(",\"kind\":");
    reveal_strlit(",\"waits_on\":");
    let (a5, b5) = ("}"@ + x, "}"@ + y);
    let (a4, b4) = (
        ",\"waits_on\":"@ + (json_array(id_items(a.waits_on)) + a5),
        ",\"waits_on\":"@ + (json_array(id_items(b.waits_on)) + b5),
    );
    let (a3, b3) = (
        ",\"sm\":"@ + (decimal(a.sm as nat) + a4),
        ",\"sm\":"@ + (decimal(b.sm as nat) + b4),
    );
    let (a2, b2) = (
        ",\"outputs\":"@ + (json_array(tensor_items(a.outputs)) + a3),
        ",\"outputs\":"@ + (json_array(tensor_items(b.outputs)) + b3),
    );
    let (a1, b1) = (
        ",\"inputs\":"@ + (json_array(tensor_items(a.inputs)) + a2),
        ",\"inputs\":"@ + (json_array(tensor_items(b.inputs)) + b2),
    );
    let (a0, b0) = (
        ",\"kind\":"@ + (kind_json(a.kind) + a1),
        ",\"kind\":"@ + (kind_json(b.kind) + b1),
    );
    lemma_node_regrouped(a, x);
    lemma_node_regrouped(b, y);
    lemma_strip("{\"id\":"@, decimal(a.id as nat) + a0, decimal(b.id as nat) + b0);
    lemma_number_ends(a.id as nat, b.id as nat, a0, b0);
    lemma_strip(",\"kind\":"@, kind_json(a.kind) + a1, kind_json(b.kind) + b1);
    lemma_kind_ends(a.kind, b.kind, a1, b1);
    lemma_strip(
        ",\"inputs\":"@,
        json_array(tensor_items(a.inputs)) + a2,
        json_array(tensor_items(b.inputs)) + b2,
    );
    lemma_tensors_end(a.inputs, b.inputs, a2, b2);
    lemma_strip(
        ",\"outputs\":"@,
        json_array(tensor_items(a.outputs)) + a3,
        json_array(tensor_items(b.outputs)) + b3,
    );
    lemma_tensors_end(a.outputs, b.outputs, a3, b3);
    lemma_strip(",\"sm\":"@, decimal(a.sm as nat) + a4, decimal(b.sm as nat) + b4);
    lemma_number_ends(a.sm as nat, b.sm as nat, a4, b4);
    lemma_strip(
        ",\"waits_on\":"@,
        json_array(id_items(a.waits_on)) + a5,
        json_array(id_items(b.waits_on)) + b5,
    );
    lemma_ids_end(a.waits_on, b.waits_on, a5, b5);
    lemma_strip("}"@, x, y);
}

/// The text of a node, read from the left.
proof fn lemma_node_regrouped(a: NodeModel, x: Seq<char>)
    ensures
        node_json(a) + x == "{\"id\":"@ + (decimal(a.id as nat) + (",\"kind\":"@ + (kind_json(
            a.kind,
        ) + (",\"inputs\":"@ + (json_array(tensor_items(a.inputs)) + (",\"outputs\":"@ + (
        json_array(tensor_items(a.outputs)) + (",\"sm\":"@ + (decimal(a.sm as nat) + (
        ",\"waits_on\":"@ + (json_array(id_items(a.waits_on)) + ("}"@ + x)))))))))))),
{
    broadcast use lemma_regroup;

}

proof fn lemma_node_starts(node: NodeModel)
    ensures
        starts_element(node_json(node)),
{
    reveal_strlit("{\"id\":");
    lemma_node_regrouped(node, Seq::empty());
    assert(node_json(node) + Seq::empty() =~= node_json(node));
    assert(node_json(node)[0] == '{');
}

proof fn lemma_nodes_end(a: Seq<NodeModel>, b: Seq<NodeModel>, x: Seq<char>, y: Seq<char>)
    requires
        json_array(node_items(a)) + x == json_array(node_items(b)) + y,
    ensures
        a == b,
        x == y,
    decreases a,
{
    let (p, q) = (node_items(a), node_items(b));
    assert(p.len() == a.len() && q.len() == b.len());
    assert forall|i: int, j: int, u: Seq<char>, v: Seq<char>|
        0 <= i < p.len() && 0 <= j < q.len() && follows_element(u) && follows_element(v)
            && #[trigger] (p[i] + u) == #[trigger] (q[j] + v) implies p[i] == q[j] && u == v by {
        assert(p[i] == node_json(a[i]));
        assert(q[j] == node_json(b[j]));
        lemma_node_ends(a[i], b[j], u, v);
    }
    lemma_items_start(a);
    lemma_items_start(b);
    lemma_array_ends(p, q, x, y);
    assert forall|i: int| 0 <= i < a.len() implies a[i] == b[i] by {
        assert(p[i] == node_json(a[i]));
        assert(q[i] == node_json(b[i]));
        lemma_node_ends(a[i], b[i], Seq::empty(), Seq::empty());
    }
    assert(a =~= b);
}

proof fn lemma_items_start(a: Seq<NodeModel>)
    ensures
        forall|i: int| 0 <= i < node_items(a).len() ==> starts_element(#[trigger] node_items(a)[i]),
{
    assert forall|i: int| 0 <= i < node_items(a).len() implies starts_element(
        #[trigger] node_items(a)[i],
    ) by {
        assert(node_items(a)[i] == node_json(a[i]));
        lemma_node_starts(a[i]);
    }
}

proof fn lemma_schedule_ends(a: ScheduleModel, b: ScheduleModel, x: Seq<char>, y: Seq<char>)
    requires
        schedule_json(a) + x == schedule_json(b) + y,
    ensures
        a == b,
        x == y,
    decreases a,
{
    let (p, q) = (json_array(node_items(a.nodes)), json_array(node_items(b.nodes)));
    let (a0, b0) = (",\"nodes\":"@ + (p + ("}"@ + x)), ",\"nodes\":"@ + (q + ("}"@ + y)));
    lemma_schedule_regrouped(a, x);
    lemma_schedule_regrouped(b, y);
    lemma_strip("{\"name\":"@, json_string(a.name) + a0, json_string(b.name) + b0);
    lemma_string_ends(a.name, b.name, a0, b0);
    lemma_strip(",\"nodes\":"@, p + ("}"@ + x), q + ("}"@ + y));
    lemma_nodes_end(a.nodes, b.nodes, "}"@ + x, "}"@ + y);
    lemma_strip("}"@, x, y);
}

/// The text of a schedule, read from the left.
proof fn lemma_schedule_regrouped(a: ScheduleModel, x: Seq<char>)
    ensures
        schedule_json(a) + x == "{\"name\":"@ + (json_string(a.name) + (",\"nodes\":"@ + (
        json_array(node_items(a.nodes)) + ("}"@ + x)))),
{
    broadcast use lemma_regroup;

}

/// Different schedules have different canonical texts.
pub proof fn canonical_text_identifies(a: ScheduleModel, b: ScheduleModel)
    requires
        schedule_json(a) == schedule_json(b),
    ensures
        a == b,
{
    lemma_schedule_ends(a, b, Seq::empty(), Seq::empty());
}

proof fn lemma_hex_injective(a: Seq<u8>, b: Seq<u8>)
    requires
        hex_lower(a) == hex_lower(b),
    ensures
        a == b,
    decreases a.len(),
{
    lemma_hex_len(a);
    lemma_hex_len(b);
    if a.len() > 0 {
        let n = hex_lower(a).len() as int;
        assert(hex_lower(a).take(n - 2) =~= hex_lower(a.drop_last()));
        assert(hex_lower(b).take(n - 2) =~= hex_lower(b.drop_last()));
        lemma_hex_injective(a.drop_last(), b.drop_last());
        assert(hex_lower(a)[n - 2] == hex_digit(a.last() as int / 16));
        assert(hex_lower(a)[n - 1] == hex_digit(a.last() as int % 16));
        assert(hex_lower(b)[n - 2] == hex_digit(b.last() as int / 16));
        assert(hex_lower(b)[n - 1] == hex_digit(b.last() as int % 16));
        assert(a.last() == b.last());
        assert(a =~= a.drop_last().push(a.last()));
        assert(b =~= b.drop_last().push(b.last()));
    } else {
        assert(a =~= b);
    }
}

/// Two schedules have the same fingerprint only if they are the same, or if
/// their texts are two different inputs with the same digest.
pub proof fn fingerprints_identify(a: ScheduleModel, b: ScheduleModel)
    requires
        fingerprint(a) == fingerprint(b),
    ensures
        a == b || (encode_utf8(schedule_json(a)) != encode_utf8(schedule_json(b)) && sha256(
            encode_utf8(schedule_json(a)),
        ) == sha256(encode_utf8(schedule_json(b)))),
{
    let (x, y) = (encode_utf8(schedule_json(a)), encode_utf8(schedule_json(b)));
    lemma_hex_injective(sha256(x), sha256(y));
    if x == y {
        lemma_encoding_injective(schedule_json(a), schedule_json(b));
        canonical_text_identifies(a, b);
    }
}

} // verus!
