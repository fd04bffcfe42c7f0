//! Reading the canonical text back.
//!
//! A reader of JSON texts, written for JSON and not for schedules: numbers,
//! strings with their escapes, arrays and objects, without blanks. What it
//! makes of the canonical text of a schedule is that schedule, field by field
//! and element by element.
use vstd::prelude::*;

use crate::fingerprint::{
    dtype_json, elements, hex_digit, hex_lower, id_items, json_array, json_char, json_chars,
    json_string, kind_json, more_elements, node_items, node_json, op_json, schedule_json,
    size_items, space_json, tensor_items, tensor_json,
};
use crate::ir::{DType, KindModel, MemSpace, NodeId, NodeModel, OpModel, ScheduleModel, TensorModel};
use crate::text::{decimal, digit};

verus! {

/// A JSON value. The members of an object stand in the order of the text.
#[verifier::ext_equal]
pub enum Json {
    Number(nat),
    Text(Seq<char>),
    List(Seq<Json>),
    Record(Seq<(Seq<char>, Json)>),
}

pub open spec fn is_digit(c: char) -> bool {
    '0' <= c <= '9'
}

/// The value of a hexadecimal digit, of either case.
pub open spec fn hex_value(c: char) -> int {
    if '0' <= c <= '9' {
        c as int - '0' as int
    } else if 'a' <= c <= 'f' {
        c as int - 'a' as int + 10
    } else if 'A' <= c <= 'F' {
        c as int - 'A' as int + 10
    } else {
        -1
    }
}

/// Reads on in a number of which `n` has been read: the number, and what follows.
pub open spec fn read_digits(t: Seq<char>, n: nat) -> (nat, Seq<char>)
    decreases t.len(),
{
    if t.len() > 0 && is_digit(t[0]) {
        read_digits(t.skip(1), (10 * n + (t[0] as int - '0' as int)) as nat)
    } else {
        (n, t)
    }
}

/// The first character that a string's text stands for, and how many
/// characters of the text stand for it.
pub open spec fn read_char(t: Seq<char>) -> Option<(char, int)> {
    if t.len() == 0 || (t[0] as int) < 32 {
        None
    } else if t[0] != '\\' {
        Some((t[0], 1))
    } else if t.len() < 2 {
        None
    } else if t[1] == '"' || t[1] == '\\' || t[1] == '/' {
        Some((t[1], 2))
    } else if t[1] == 'b' {
        Some((8u8 as char, 2))
    } else if t[1] == 't' {
        Some(('\t', 2))
    } else if t[1] == 'n' {
        Some(('\n', 2))
    } else if t[1] == 'f' {
        Some((12u8 as char, 2))
    } else if t[1] == 'r' {
        Some(('\r', 2))
    } else if t[1] == 'u' && t.len() >= 6 {
        Some(
            (
                (((hex_value(t[2]) * 16 + hex_value(t[3])) * 16 + hex_value(t[4])) * 16 + hex_value(
                    t[5],
                )) as char,
                6,
            ),
        )
    } else {
        None
    }
}

/// Reads a string from behind its opening quote.
pub open spec fn read_text(t: Seq<char>) -> Option<(Seq<char>, Seq<char>)>
    decreases t.len(),
{
    if t.len() == 0 {
        None
    } else if t[0] == '"' {
        Some((Seq::empty(), t.skip(1)))
    } else {
        match read_char(t) {
            Some((c, n)) => if 1 <= n <= t.len() {
                match read_text(t.skip(n)) {
                    Some((more, rest)) => Some((seq![c] + more, rest)),
                    None => None,
                }
            } else {
                None
            },
            None => None,
        }
    }
}

/// Reads one value: the value, and what follows it.
pub open spec fn read_value(t: Seq<char>) -> Option<(Json, Seq<char>)>
    decreases t.len(), 0nat,
{
    if t.len() == 0 {
        None
    } else if t[0] == '"' {
        match read_text(t.skip(1)) {
            Some((text, rest)) => Some((Json::Text(text), rest)),
            None => None,
        }
    } else if t[0] == '[' {
        if t.len() > 1 && t[1] == ']' {
            Some((Json::List(Seq::empty()), t.skip(2)))
        } else {
            match read_list(t.skip(1)) {
                Some((items, rest)) => Some((Json::List(items), rest)),
                None => None,
            }
        }
    } else if t[0] == '{' {
        if t.len() > 1 && t[1] == '}' {
            Some((Json::Record(Seq::empty()), t.skip(2)))
        } else {
            match read_record(t.skip(1)) {
                Some((members, rest)) => Some((Json::Record(members), rest)),
                None => None,
            }
        }
    } else if is_digit(t[0]) {
        let (n, rest) = read_digits(t, 0);
        Some((Json::Number(n), rest))
    } else {
        None
    }
}

/// Reads the elements of an array that are left, and its end.
pub open spec fn read_list(t: Seq<char>) -> Option<(Seq<Json>, Seq<char>)>
    decreases t.len(), 1nat,
{
    match read_value(t) {
        Some((v, rest)) => if rest.len() == 0 || rest.len() >= t.len() {
            None
        } else if rest[0] == ']' {
            Some((seq![v], rest.skip(1)))
        } else if rest[0] == ',' {
            match read_list(rest.skip(1)) {
                Some((more, end)) => Some((seq![v] + more, end)),
                None => None,
            }
        } else {
            None
        },
        None => None,
    }
}

/// Reads the members of an object that are left, and its end.
pub open spec fn read_record(t: Seq<char>) -> Option<(Seq<(Seq<char>, Json)>, Seq<char>)>
    decreases t.len(), 1nat,
{
    if t.len() == 0 || t[0] != '"' {
        None
    } else {
        match read_text(t.skip(1)) {
            Some((key, colon)) => if colon.len() == 0 || colon.len() >= t.len() || colon[0] != ':' {
                None
            } else {
                match read_value(colon.skip(1)) {
                    Some((v, rest)) => if rest.len() == 0 || rest.len() >= t.len() {
                        None
                    } else if rest[0] == '}' {
                        Some((seq![(key, v)], rest.skip(1)))
                    } else if rest[0] == ',' {
                        match read_record(rest.skip(1)) {
                            Some((more, end)) => Some((seq![(key, v)] + more, end)),
                            None => None,
                        }
                    } else {
                        None
                    },
                    None => None,
                }
            },
            None => None,
        }
    }
}

/// No digit follows.
pub open spec fn number_ends(rest: Seq<char>) -> bool {
    rest.len() == 0 || !is_digit(rest[0])
}

/// The text is read as this value, whatever follows it (but a digit).
#[verifier::opaque]
pub open spec fn reads_as(text: Seq<char>, v: Json) -> bool {
    &&& text.len() > 0
    &&& text[0] != ']'
    &&& forall|rest: Seq<char>| #[trigger]
        number_ends(rest) ==> read_value(text + rest) == Some((v, rest))
}

/// Reading the decimal of a number gives the number.
proof fn lemma_read_decimal(n: nat, x: Seq<char>)
    ensures
        decimal(n).len() > 0,
        is_digit(decimal(n)[0]),
        read_digits(decimal(n) + x, 0) == read_digits(x, n),
    decreases n,
{
    let d = digit((n % 10) as int);
    let last = seq![d] + x;
    assert(is_digit(d) && d as int - '0' as int == n % 10);
    assert(last.skip(1) =~= x);
    if n < 10 {
        assert(decimal(n) + x =~= last);
    } else {
        lemma_read_decimal(n / 10, last);
        assert(decimal(n) + x =~= decimal(n / 10) + last);
        assert(10 * (n / 10) + n % 10 == n);
        assert(decimal(n)[0] == decimal(n / 10)[0]);
    }
}

proof fn lemma_number(n: nat)
    ensures
        reads_as(decimal(n), Json::Number(n)),
{
    reveal(reads_as);
    lemma_read_decimal(n, Seq::empty());
    assert forall|rest: Seq<char>| #[trigger] number_ends(rest) implies read_value(
        decimal(n) + rest,
    ) == Some((Json::Number(n), rest)) by {
        lemma_read_decimal(n, rest);
        let t = decimal(n) + rest;
        assert(t[0] == decimal(n)[0]);
        assert(read_digits(rest, n) == (n, rest));
    }
}

proof fn lemma_char(c: char, x: Seq<char>)
    ensures
        json_char(c).len() > 0,
        json_char(c)[0] != '"',
        read_char(json_char(c) + x) == Some((c, json_char(c).len() as int)),
{
    let t = json_char(c) + x;
    assert forall|i: int| 0 <= i < json_char(c).len() implies t[i] == #[trigger] json_char(
        c,
    )[i] by {
    }
    if c as int >= 32 && c != '"' && c != '\\' {
        assert(t[0] == c);
    } else {
        assert(t[0] == json_char(c)[0] && t[1] == json_char(c)[1]);
        if c as int != 8 && c as int != 9 && c as int != 10 && c as int != 12 && c as int != 13 && (
        c as int) < 32 {
            let (h, l) = (c as int / 16, c as int % 16);
            assert(t[2] == json_char(c)[2] && t[3] == json_char(c)[3]);
            assert(t[4] == json_char(c)[4] && t[5] == json_char(c)[5]);
            assert(t[2] == '0' && t[3] == '0');
            assert(hex_value(hex_digit(h)) == h);
            assert(hex_value(hex_digit(l)) == l);
            assert((c as int) as char == c);
        }
    }
}

proof fn lemma_read_text(s: Seq<char>, rest: Seq<char>)
    ensures
        read_text(json_chars(s) + (seq!['"'] + rest)) == Some((s, rest)),
    decreases s.len(),
{
    let end = seq!['"'] + rest;
    let t = json_chars(s) + end;
    if s.len() == 0 {
        assert(t =~= end);
        assert(end.skip(1) =~= rest);
    } else {
        let head = json_char(s[0]);
        let tail = json_chars(s.skip(1)) + end;
        lemma_char(s[0], tail);
        assert(t =~= head + tail);
        assert(t[0] == head[0]);
        assert(t.skip(head.len() as int) =~= tail);
        lemma_read_text(s.skip(1), rest);
        assert(seq![s[0]] + s.skip(1) =~= s);
    }
}

proof fn lemma_string(s: Seq<char>)
    ensures
        reads_as(json_string(s), Json::Text(s)),
{
    reveal(reads_as);
    assert forall|rest: Seq<char>| #[trigger] number_ends(rest) implies read_value(
        json_string(s) + rest,
    ) == Some((Json::Text(s), rest)) by {
        let t = json_string(s) + rest;
        lemma_read_text(s, rest);
        assert(t.skip(1) =~= json_chars(s) + (seq!['"'] + rest));
    }
}

/// Text that stands for itself in a string.
pub open spec fn plain(s: Seq<char>) -> bool {
    forall|i: int| 0 <= i < s.len() ==> (#[trigger] s[i]) as int >= 32 && s[i] != '"' && s[i] != '\\'
}

proof fn lemma_plain(s: Seq<char>)
    requires
        plain(s),
    ensures
        json_chars(s) == s,
    decreases s.len(),
{
    if s.len() > 0 {
        assert(plain(s.skip(1)));
        lemma_plain(s.skip(1));
        assert(seq![s[0]] + s.skip(1) =~= s);
    } else {
        assert(json_chars(s) =~= s);
    }
}

proof fn lemma_read_list(items: Seq<Seq<char>>, vals: Seq<Json>, rest: Seq<char>)
    requires
        items.len() == vals.len(),
        items.len() > 0,
        forall|i: int| 0 <= i < items.len() ==> reads_as(#[trigger] items[i], vals[i]),
    ensures
        elements(items).len() > 0,
        elements(items)[0] != ']',
        read_list(elements(items) + (seq![']'] + rest)) == Some((vals, rest)),
    decreases items.len(),
{
    reveal(reads_as);
    let end = seq![']'] + rest;
    let t = elements(items) + end;
    let later = items.skip(1);
    reveal_strlit(",");
    assert(reads_as(items[0], vals[0]));
    assert(elements(items)[0] == items[0][0]);
    if items.len() == 1 {
        assert(later.len() == 0);
        assert(elements(items) =~= items[0]);
        assert(number_ends(end));
        assert(end.skip(1) =~= rest);
        assert(seq![vals[0]] =~= vals);
    } else {
        let more = vals.skip(1);
        assert forall|i: int| 0 <= i < later.len() implies reads_as(
            #[trigger] later[i],
            more[i],
        ) by {
            assert(reads_as(items[i + 1], vals[i + 1]));
        }
        lemma_read_list(later, more, rest);
        let tail = elements(later) + end;
        let comma = seq![','] + tail;
        assert(more_elements(later) =~= seq![','] + elements(later));
        assert(t =~= items[0] + comma);
        assert(number_ends(comma));
        assert(comma.skip(1) =~= tail);
        assert(seq![vals[0]] + more =~= vals);
    }
}

proof fn lemma_list(items: Seq<Seq<char>>, vals: Seq<Json>)
    requires
        items.len() == vals.len(),
        forall|i: int| 0 <= i < items.len() ==> reads_as(#[trigger] items[i], vals[i]),
    ensures
        reads_as(json_array(items), Json::List(vals)),
{
    reveal(reads_as);
    reveal_strlit("[");
    reveal_strlit("]");
    assert forall|rest: Seq<char>| #[trigger] number_ends(rest) implies read_value(
        json_array(items) + rest,
    ) == Some((Json::List(vals), rest)) by {
        let t = json_array(items) + rest;
        if items.len() == 0 {
            assert(t.skip(2) =~= rest);
            assert(vals =~= Seq::<Json>::empty());
        } else {
            lemma_read_list(items, vals, rest);
            assert(t.skip(1) =~= elements(items) + (seq![']'] + rest));
            assert(t[1] == elements(items)[0]);
        }
    }
}

/// The members of an object: each key in quotes, a colon and the value's
/// text, with commas in between.
spec fn members(keys: Seq<Seq<char>>, items: Seq<Seq<char>>) -> Seq<char>
    decreases keys.len(),
{
    if keys.len() == 0 {
        Seq::empty()
    } else if keys.len() == 1 {
        seq!['"'] + keys[0] + seq!['"', ':'] + items[0]
    } else {
        seq!['"'] + keys[0] + seq!['"', ':'] + items[0] + seq![','] + members(
            keys.skip(1),
            items.skip(1),
        )
    }
}

/// An object with these keys and values.
pub open spec fn record(keys: Seq<Seq<char>>, vals: Seq<Json>) -> Json {
    Json::Record(Seq::new(keys.len(), |i: int| (keys[i], vals[i])))
}

proof fn lemma_read_member(key: Seq<char>, item: Seq<char>, v: Json, x: Seq<char>)
    requires
        plain(key),
        reads_as(item, v),
        x.len() > 0,
        !is_digit(x[0]),
    ensures
        read_record(seq!['"'] + key + seq!['"', ':'] + item + x) == (if x[0] == '}' {
            Some((seq![(key, v)], x.skip(1)))
        } else if x[0] == ',' {
            match read_record(x.skip(1)) {
                Some((more, end)) => Some((seq![(key, v)] + more, end)),
                None => None,
            }
        } else {
            None
        }),
{
    reveal(reads_as);
    let t = seq!['"'] + key + seq!['"', ':'] + item + x;
    let value = item + x;
    let colon = seq![':'] + value;
    lemma_plain(key);
    lemma_read_text(key, colon);
    assert(t.skip(1) =~= key + (seq!['"'] + colon));
    assert(colon.skip(1) =~= value);
    assert(number_ends(x));
    assert(read_value(value) == Some((v, x)));
}

proof fn lemma_read_record(
    keys: Seq<Seq<char>>,
    items: Seq<Seq<char>>,
    vals: Seq<Json>,
    rest: Seq<char>,
)
    requires
        keys.len() > 0,
        keys.len() == items.len(),
        keys.len() == vals.len(),
        forall|i: int| 0 <= i < keys.len() ==> plain(#[trigger] keys[i]),
        forall|i: int| 0 <= i < keys.len() ==> reads_as(#[trigger] items[i], vals[i]),
    ensures
        members(keys, items).len() > 0,
        members(keys, items)[0] == '"',
        read_record(members(keys, items) + (seq!['}'] + rest)) == Some(
            (Seq::new(keys.len(), |i: int| (keys[i], vals[i])), rest),
        ),
    decreases keys.len(),
{
    let end = seq!['}'] + rest;
    let all = Seq::new(keys.len(), |i: int| (keys[i], vals[i]));
    let head = seq!['"'] + keys[0] + seq!['"', ':'] + items[0];
    assert(plain(keys[0]) && reads_as(items[0], vals[0]));
    if keys.len() == 1 {
        lemma_read_member(keys[0], items[0], vals[0], end);
        assert(end.skip(1) =~= rest);
        assert(seq![(keys[0], vals[0])] =~= all);
    } else {
        let (k1, i1, v1) = (keys.skip(1), items.skip(1), vals.skip(1));
        assert forall|i: int| 0 <= i < k1.len() implies plain(#[trigger] k1[i]) by {
            assert(plain(keys[i + 1]));
        }
        assert forall|i: int| 0 <= i < k1.len() implies reads_as(#[trigger] i1[i], v1[i]) by {
            assert(reads_as(items[i + 1], vals[i + 1]));
        }
        lemma_read_record(k1, i1, v1, rest);
        let tail = members(k1, i1) + end;
        let comma = seq![','] + tail;
        lemma_read_member(keys[0], items[0], vals[0], comma);
        assert(comma.skip(1) =~= tail);
        assert(members(keys, items) + end =~= head + comma);
        assert(seq![(keys[0], vals[0])] + Seq::new(k1.len(), |i: int| (k1[i], v1[i])) =~= all);
    }
}

proof fn lemma_record(keys: Seq<Seq<char>>, items: Seq<Seq<char>>, vals: Seq<Json>)
    requires
        keys.len() > 0,
        keys.len() == items.len(),
        keys.len() == vals.len(),
        forall|i: int| 0 <= i < keys.len() ==> plain(#[trigger] keys[i]),
        forall|i: int| 0 <= i < keys.len() ==> reads_as(#[trigger] items[i], vals[i]),
    ensures
        reads_as(seq!['{'] + members(keys, items) + seq!['}'], record(keys, vals)),
{
    reveal(reads_as);
    let text = seq!['{'] + members(keys, items) + seq!['}'];
    assert(text[0] == '{');
    assert forall|rest: Seq<char>| #[trigger] number_ends(rest) implies read_value(text + rest)
        == Some((record(keys, vals), rest)) by {
        lemma_read_record(keys, items, vals, rest);
        lemma_braces(members(keys, items), rest);
    }
}

/// Reading an object is reading its members from behind the brace.
proof fn lemma_braces(inner: Seq<char>, rest: Seq<char>)
    requires
        inner.len() > 0,
        inner[0] == '"',
    ensures
        read_value(seq!['{'] + inner + seq!['}'] + rest) == (match read_record(
            inner + (seq!['}'] + rest),
        ) {
            Some((all, end)) => Some((Json::Record(all), end)),
            None => None,
        }),
{
    let t = seq!['{'] + inner + seq!['}'] + rest;
    assert(t.skip(1) =~= inner + (seq!['}'] + rest));
    assert(t[0] == '{');
    assert(t[1] == inner[0]);
}

/// A key, in quotes and with its colon.
spec fn lead(key: Seq<char>) -> Seq<char> {
    seq!['"'] + key + seq!['"', ':']
}

/// An object with one member, from behind what stands before the member.
proof fn lemma_first_member(front: Seq<char>, k: Seq<char>, i: Seq<char>)
    ensures
        front + members(seq![k], seq![i]) == front + lead(k) + i,
{
    assert(front + (lead(k) + i) =~= front + lead(k) + i);
}

proof fn lemma_last_member(
    keys: Seq<Seq<char>>,
    items: Seq<Seq<char>>,
    k: Seq<char>,
    i: Seq<char>,
)
    requires
        keys.len() > 0,
        keys.len() == items.len(),
    ensures
        members(keys.push(k), items.push(i)) == members(keys, items) + (seq![','] + lead(k)) + i,
    decreases keys.len(),
{
    let (more_keys, more_items) = (keys.push(k), items.push(i));
    let head = lead(keys[0]) + items[0];
    assert(more_keys.skip(1) =~= keys.skip(1).push(k));
    assert(more_items.skip(1) =~= items.skip(1).push(i));
    if keys.len() == 1 {
        assert(more_keys.skip(1) =~= seq![k]);
        assert(more_items.skip(1) =~= seq![i]);
        assert(members(more_keys.skip(1), more_items.skip(1)) == lead(k) + i);
        assert(head + seq![','] + (lead(k) + i) =~= head + (seq![','] + lead(k)) + i);
    } else {
        lemma_last_member(keys.skip(1), items.skip(1), k, i);
        let rest = members(keys.skip(1), items.skip(1));
        assert(head + seq![','] + (rest + (seq![','] + lead(k)) + i) =~= head + seq![','] + rest + (
        seq![','] + lead(k)) + i);
    }
}

/// An object with one member more.
proof fn lemma_next_member(
    front: Seq<char>,
    keys: Seq<Seq<char>>,
    items: Seq<Seq<char>>,
    k: Seq<char>,
    i: Seq<char>,
)
    requires
        keys.len() > 0,
        keys.len() == items.len(),
    ensures
        front + members(keys.push(k), items.push(i)) == front + members(keys, items) + (seq![',']
            + lead(k)) + i,
{
    lemma_last_member(keys, items, k, i);
    assert(front + (members(keys, items) + (seq![','] + lead(k)) + i) =~= front + members(
        keys,
        items,
    ) + (seq![','] + lead(k)) + i);
}

/// A JSON number for each number, in order.
pub open spec fn tells_numbers(v: Json, numbers: Seq<nat>) -> bool {
    v == Json::List(Seq::new(numbers.len(), |i: int| Json::Number(numbers[i])))
}

pub open spec fn tells_dtype(v: Json, dtype: DType) -> bool {
    match dtype {
        DType::F32 => v == Json::Text("F32"@),
        DType::F16 => v == Json::Text("F16"@),
        DType::BF16 => v == Json::Text("BF16"@),
        DType::I8 => v == Json::Text("I8"@),
    }
}

pub open spec fn tells_space(v: Json, space: MemSpace) -> bool {
    match space {
        MemSpace::Hbm => v == Json::Text("Hbm"@),
        MemSpace::SharedL1 => v == Json::Text("SharedL1"@),
        MemSpace::Register => v == Json::Text("Register"@),
    }
}

/// The object tells all of the tensor: its name, the sizes of its shape in
/// order, its type and its memory space.
pub open spec fn tells_tensor(v: Json, t: TensorModel) -> bool {
    exists|shape: Json, dtype: Json, space: Json| #[trigger]
        tensor_record(t, shape, dtype, space) == v && tells_numbers(
            shape,
            t.shape.map_values(|n: u64| n as nat),
        ) && tells_dtype(dtype, t.dtype) && tells_space(space, t.space)
}

/// The object of a tensor, from those of its parts.
pub open spec fn tensor_record(t: TensorModel, shape: Json, dtype: Json, space: Json) -> Json {
    record(
        seq!["name"@, "shape"@, "dtype"@, "space"@],
        seq![Json::Text(t.name), shape, dtype, space],
    )
}

/// The array tells the tensors, the first by its first element and so on.
pub open spec fn tells_tensors(v: Json, tensors: Seq<TensorModel>) -> bool {
    v matches Json::List(items) && items.len() == tensors.len() && forall|k: int|
        0 <= k < items.len() ==> tells_tensor(#[trigger] items[k], tensors[k])
}

/// An object with one member.
pub open spec fn tagged(tag: Seq<char>, v: Json) -> Json {
    record(seq![tag], seq![v])
}

/// The value tells the operation by its name, and its sizes by theirs.
pub open spec fn tells_op(v: Json, op: OpModel) -> bool {
    match op {
        OpModel::MatMul { m, n, k } => v == tagged(
            "MatMul"@,
            record(
                seq!["m"@, "n"@, "k"@],
                seq![Json::Number(m as nat), Json::Number(n as nat), Json::Number(k as nat)],
            ),
        ),
        OpModel::RmsNorm { dim } => v == tagged(
            "RmsNorm"@,
            tagged("dim"@, Json::Number(dim as nat)),
        ),
        OpModel::Softmax { dim } => v == tagged(
            "Softmax"@,
            tagged("dim"@, Json::Number(dim as nat)),
        ),
        OpModel::Attention { heads, head_dim, seq_len } => v == tagged(
            "Attention"@,
            record(
                seq!["heads"@, "head_dim"@, "seq_len"@],
                seq![
                    Json::Number(heads as nat),
                    Json::Number(head_dim as nat),
                    Json::Number(seq_len as nat),
                ],
            ),
        ),
        OpModel::Elementwise { op } => v == tagged("Elementwise"@, tagged("op"@, Json::Text(op))),
        OpModel::Barrier => v == Json::Text("Barrier"@),
    }
}

/// The object tells all of the node.
pub open spec fn tells_node(v: Json, node: NodeModel) -> bool
    decreases node,
{
    exists|kind: Json, inputs: Json, outputs: Json, waits: Json| #[trigger]
        node_record(node, kind, inputs, outputs, waits) == v && tells_tensors(inputs, node.inputs)
            && tells_tensors(outputs, node.outputs) && tells_numbers(
            waits,
            node.waits_on.map_values(|n: NodeId| n as nat),
        ) && match node.kind {
            KindModel::Op(op) => exists|inner: Json| #[trigger]
                tagged("Op"@, inner) == kind && tells_op(inner, op),
            KindModel::SubSchedule(sub) => exists|inner: Json| #[trigger]
                tagged("SubSchedule"@, inner) == kind && tells_schedule(inner, *sub),
        }
}

/// The object of a node, from those of its parts.
pub open spec fn node_record(
    node: NodeModel,
    kind: Json,
    inputs: Json,
    outputs: Json,
    waits: Json,
) -> Json {
    record(
        seq!["id"@, "kind"@, "inputs"@, "outputs"@, "sm"@, "waits_on"@],
        seq![
            Json::Number(node.id as nat),
            kind,
            inputs,
            outputs,
            Json::Number(node.sm as nat),
            waits,
        ],
    )
}

/// The object tells all of the schedule: its name and its nodes in order.
pub open spec fn tells_schedule(v: Json, s: ScheduleModel) -> bool
    decreases s,
{
    exists|nodes: Seq<Json>| #[trigger]
        schedule_record(s, nodes) == v
            && nodes.len() == s.nodes.len() && forall|i: int|
            0 <= i < s.nodes.len() ==> tells_node(#[trigger] nodes[i], s.nodes[i])
}

/// The object of a schedule, from those of its nodes.
pub open spec fn schedule_record(s: ScheduleModel, nodes: Seq<Json>) -> Json {
    record(seq!["name"@, "nodes"@], seq![Json::Text(s.name), Json::List(nodes)])
}

proof fn lemma_quoted(text: Seq<char>, s: Seq<char>)
    requires
        plain(s),
        text == seq!['"'] + s + seq!['"'],
    ensures
        reads_as(text, Json::Text(s)),
{
    lemma_plain(s);
    lemma_string(s);
}

proof fn lemma_dtype(dtype: DType) -> (v: Json)
    ensures
        reads_as(dtype_json(dtype), v),
        tells_dtype(v, dtype),
{
    reveal_strlit("F32");
    reveal_strlit("F16");
    reveal_strlit("BF16");
    reveal_strlit("I8");
    reveal_strlit("\"F32\"");
    reveal_strlit("\"F16\"");
    reveal_strlit("\"BF16\"");
    reveal_strlit("\"I8\"");
    let s = match dtype {
        DType::F32 => "F32"@,
        DType::F16 => "F16"@,
        DType::BF16 => "BF16"@,
        DType::I8 => "I8"@,
    };
    assert(dtype_json(dtype) =~= seq!['"'] + s + seq!['"']);
    lemma_quoted(dtype_json(dtype), s);
    Json::Text(s)
}

proof fn lemma_space(space: MemSpace) -> (v: Json)
    ensures
        reads_as(space_json(space), v),
        tells_space(v, space),
{
    reveal_strlit("Hbm");
    reveal_strlit("SharedL1");
    reveal_strlit("Register");
    reveal_strlit("\"Hbm\"");
    reveal_strlit("\"SharedL1\"");
    reveal_strlit("\"Register\"");
    let s = match space {
        MemSpace::Hbm => "Hbm"@,
        MemSpace::SharedL1 => "SharedL1"@,
        MemSpace::Register => "Register"@,
    };
    assert(space_json(space) =~= seq!['"'] + s + seq!['"']);
    lemma_quoted(space_json(space), s);
    Json::Text(s)
}

proof fn lemma_numbers(items: Seq<Seq<char>>, numbers: Seq<nat>) -> (v: Json)
    requires
        items.len() == numbers.len(),
        forall|i: int| 0 <= i < items.len() ==> #[trigger] items[i] == decimal(numbers[i]),
    ensures
        reads_as(json_array(items), v),
        tells_numbers(v, numbers),
{
    let vals = Seq::new(numbers.len(), |i: int| Json::Number(numbers[i]));
    assert forall|i: int| 0 <= i < items.len() implies reads_as(#[trigger] items[i], vals[i]) by {
        lemma_number(numbers[i]);
    }
    lemma_list(items, vals);
    Json::List(vals)
}

proof fn lemma_tensor_text(i0: Seq<char>, i1: Seq<char>, i2: Seq<char>, i3: Seq<char>)
    ensures
        "{\"name\":"@ + i0 + ",\"shape\":"@ + i1 + ",\"dtype\":"@ + i2 + ",\"space\":"@ + i3
            + "}"@ == seq!['{'] + members(
            seq!["name"@, "shape"@, "dtype"@, "space"@],
            seq![i0, i1, i2, i3],
        ) + seq!['}'],
{
    lemma_tensor_leads();
    let front = seq!['{'];
    let (ks0, is0) = (seq!["name"@], seq![i0]);
    lemma_first_member(front, "name"@, i0);
    let (ks1, is1) = (ks0.push("shape"@), is0.push(i1));
    lemma_next_member(front, ks0, is0, "shape"@, i1);
    let (ks2, is2) = (ks1.push("dtype"@), is1.push(i2));
    lemma_next_member(front, ks1, is1, "dtype"@, i2);
    let (ks3, is3) = (ks2.push("space"@), is2.push(i3));
    lemma_next_member(front, ks2, is2, "space"@, i3);
    assert(ks3 =~= seq!["name"@, "shape"@, "dtype"@, "space"@]);
    assert(is3 =~= seq![i0, i1, i2, i3]);
}

proof fn lemma_tensor(t: TensorModel) -> (v: Json)
    ensures
        reads_as(tensor_json(t), v),
        tells_tensor(v, t),
{
    let sizes = t.shape.map_values(|n: u64| n as nat);
    lemma_string(t.name);
    let shape = lemma_numbers(size_items(t.shape), sizes);
    let dtype = lemma_dtype(t.dtype);
    let space = lemma_space(t.space);
    let keys = seq!["name"@, "shape"@, "dtype"@, "space"@];
    let (i0, i1, i2, i3) = (
        json_string(t.name),
        json_array(size_items(t.shape)),
        dtype_json(t.dtype),
        space_json(t.space),
    );
    let items = seq![i0, i1, i2, i3];
    let vals = seq![Json::Text(t.name), shape, dtype, space];
    lemma_tensor_leads();
    lemma_tensor_text(i0, i1, i2, i3);
    assert forall|i: int| 0 <= i < keys.len() implies plain(#[trigger] keys[i]) by {
    }
    assert forall|i: int| 0 <= i < keys.len() implies reads_as(#[trigger] items[i], vals[i]) by {
    }
    lemma_record(keys, items, vals);
    let v = tensor_record(t, shape, dtype, space);
    assert(v == record(keys, vals));
    v
}

proof fn lemma_tensor_leads()
    ensures
        "{\"name\":"@ == seq!['{'] + lead("name"@),
        ",\"shape\":"@ == seq![','] + lead("shape"@),
        ",\"dtype\":"@ == seq![','] + lead("dtype"@),
        ",\"space\":"@ == seq![','] + lead("space"@),
        "}"@ == seq!['}'],
        plain("name"@),
        plain("shape"@),
        plain("dtype"@),
        plain("space"@),
{
    reveal_strlit("{\"name\":");
    reveal_strlit(",\"shape\":");
    reveal_strlit(",\"dtype\":");
    reveal_strlit(",\"space\":");
    reveal_strlit("name");
    reveal_strlit("shape");
    reveal_strlit("dtype");
    reveal_strlit("space");
    reveal_strlit("}");
}

proof fn lemma_tagged(tag: Seq<char>, item: Seq<char>, v: Json)
    requires
        plain(tag),
        reads_as(item, v),
    ensures
        reads_as(seq!['{'] + lead(tag) + item + seq!['}'], tagged(tag, v)),
{
    lemma_first_member(seq!['{'], tag, item);
    lemma_record(seq![tag], seq![item], seq![v]);
}

/// An object in an object, as its text closes both braces at once.
proof fn lemma_nested_braces(outer: Seq<char>, inner: Seq<char>)
    ensures
        outer + (seq!['{'] + inner + seq!['}']) + seq!['}'] == outer + seq!['{'] + inner + (seq![
            '}',
        ] + seq!['}']),
{
    let (open, close) = (seq!['{'], seq!['}']);
    assert(outer + (open + inner + close) + close =~= outer + open + inner + (close + close));
}

proof fn lemma_matmul_leads()
    ensures
        "{\"MatMul\":{\"m\":"@ == seq!['{'] + lead("MatMul"@) + seq!['{'] + lead("m"@),
        ",\"n\":"@ == seq![','] + lead("n"@),
        ",\"k\":"@ == seq![','] + lead("k"@),
        "}}"@ == seq!['}'] + seq!['}'],
        plain("MatMul"@),
        plain("m"@),
        plain("n"@),
        plain("k"@),
{
    reveal_strlit("{\"MatMul\":{\"m\":");
    reveal_strlit(",\"n\":");
    reveal_strlit(",\"k\":");
    reveal_strlit("}}");
    reveal_strlit("MatMul");
    reveal_strlit("m");
    reveal_strlit("n");
    reveal_strlit("k");
}

proof fn lemma_matmul_text(i0: Seq<char>, i1: Seq<char>, i2: Seq<char>)
    ensures
        "{\"MatMul\":{\"m\":"@ + i0 + ",\"n\":"@ + i1 + ",\"k\":"@ + i2 + "}}"@ == seq!['{'] + lead(
            "MatMul"@,
        ) + (seq!['{'] + members(seq!["m"@, "n"@, "k"@], seq![i0, i1, i2]) + seq!['}'])
            + seq!['}'],
        plain("MatMul"@),
        plain("m"@),
        plain("n"@),
        plain("k"@),
{
    lemma_matmul_leads();
    let front = seq!['{'] + lead("MatMul"@) + seq!['{'];
    let (ks0, is0) = (seq!["m"@], seq![i0]);
    lemma_first_member(front, "m"@, i0);
    let (ks1, is1) = (ks0.push("n"@), is0.push(i1));
    lemma_next_member(front, ks0, is0, "n"@, i1);
    let (ks2, is2) = (ks1.push("k"@), is1.push(i2));
    lemma_next_member(front, ks1, is1, "k"@, i2);
    assert(ks2 =~= seq!["m"@, "n"@, "k"@]);
    assert(is2 =~= seq![i0, i1, i2]);
    lemma_nested_braces(seq!['{'] + lead("MatMul"@), members(ks2, is2));
}

proof fn lemma_attention_leads()
    ensures
        "{\"Attention\":{\"heads\":"@ == seq!['{'] + lead("Attention"@) + seq!['{'] + lead(
            "heads"@,
        ),
        ",\"head_dim\":"@ == seq![','] + lead("head_dim"@),
        ",\"seq_len\":"@ == seq![','] + lead("seq_len"@),
        "}}"@ == seq!['}'] + seq!['}'],
        plain("Attention"@),
        plain("heads"@),
        plain("head_dim"@),
        plain("seq_len"@),
{
    reveal_strlit("{\"Attention\":{\"heads\":");
    reveal_strlit(",\"head_dim\":");
    reveal_strlit(",\"seq_len\":");
    reveal_strlit("}}");
    reveal_strlit("Attention");
    reveal_strlit("heads");
    reveal_strlit("head_dim");
    reveal_strlit("seq_len");
}

proof fn lemma_attention_text(i0: Seq<char>, i1: Seq<char>, i2: Seq<char>)
    ensures
        "{\"Attention\":{\"heads\":"@ + i0 + ",\"head_dim\":"@ + i1 + ",\"seq_len\":"@ + i2
            + "}}"@ == seq!['{'] + lead("Attention"@) + (seq!['{'] + members(
            seq!["heads"@, "head_dim"@, "seq_len"@],
            seq![i0, i1, i2],
        ) + seq!['}']) + seq!['}'],
        plain("Attention"@),
        plain("heads"@),
        plain("head_dim"@),
        plain("seq_len"@),
{
    lemma_attention_leads();
    let front = seq!['{'] + lead("Attention"@) + seq!['{'];
    let (ks0, is0) = (seq!["heads"@], seq![i0]);
    lemma_first_member(front, "heads"@, i0);
    let (ks1, is1) = (ks0.push("head_dim"@), is0.push(i1));
    lemma_next_member(front, ks0, is0, "head_dim"@, i1);
    let (ks2, is2) = (ks1.push("seq_len"@), is1.push(i2));
    lemma_next_member(front, ks1, is1, "seq_len"@, i2);
    assert(ks2 =~= seq!["heads"@, "head_dim"@, "seq_len"@]);
    assert(is2 =~= seq![i0, i1, i2]);
    lemma_nested_braces(seq!['{'] + lead("Attention"@), members(ks2, is2));
}

proof fn lemma_rmsnorm_text(i0: Seq<char>)
    ensures
        "{\"RmsNorm\":{\"dim\":"@ + i0 + "}}"@ == seq!['{'] + lead("RmsNorm"@) + (seq!['{'] + lead("dim"@) + i0
            + seq!['}']) + seq!['}'],
        plain("RmsNorm"@),
        plain("dim"@),
{
    reveal_strlit("{\"RmsNorm\":{\"dim\":");
    reveal_strlit("}}");
    reveal_strlit("RmsNorm");
    reveal_strlit("dim");
    assert("{\"RmsNorm\":{\"dim\":"@ =~= seq!['{'] + lead("RmsNorm"@) + seq!['{'] + lead("dim"@));
    assert("}}"@ =~= seq!['}'] + seq!['}']);
    let outer = seq!['{'] + lead("RmsNorm"@);
    lemma_nested_braces(outer, lead("dim"@) + i0);
    assert(outer + seq!['{'] + (lead("dim"@) + i0) =~= outer + seq!['{'] + lead("dim"@) + i0);
    assert(seq!['{'] + (lead("dim"@) + i0) =~= seq!['{'] + lead("dim"@) + i0);
}

proof fn lemma_softmax_text(i0: Seq<char>)
    ensures
        "{\"Softmax\":{\"dim\":"@ + i0 + "}}"@ == seq!['{'] + lead("Softmax"@) + (seq!['{'] + lead("dim"@) + i0
            + seq!['}']) + seq!['}'],
        plain("Softmax"@),
        plain("dim"@),
{
    reveal_strlit("{\"Softmax\":{\"dim\":");
    reveal_strlit("}}");
    reveal_strlit("Softmax");
    reveal_strlit("dim");
    assert("{\"Softmax\":{\"dim\":"@ =~= seq!['{'] + lead("Softmax"@) + seq!['{'] + lead("dim"@));
    assert("}}"@ =~= seq!['}'] + seq!['}']);
    let outer = seq!['{'] + lead("Softmax"@);
    lemma_nested_braces(outer, lead("dim"@) + i0);
    assert(outer + seq!['{'] + (lead("dim"@) + i0) =~= outer + seq!['{'] + lead("dim"@) + i0);
    assert(seq!['{'] + (lead("dim"@) + i0) =~= seq!['{'] + lead("dim"@) + i0);
}

proof fn lemma_elementwise_text(i0: Seq<char>)
    ensures
        "{\"Elementwise\":{\"op\":"@ + i0 + "}}"@ == seq!['{'] + lead("Elementwise"@) + (seq!['{'] + lead("op"@) + i0
            + seq!['}']) + seq!['}'],
        plain("Elementwise"@),
        plain("op"@),
{
    reveal_strlit("{\"Elementwise\":{\"op\":");
    reveal_strlit("}}");
    reveal_strlit("Elementwise");
    reveal_strlit("op");
    assert("{\"Elementwise\":{\"op\":"@ =~= seq!['{'] + lead("Elementwise"@) + seq!['{'] + lead("op"@));
    assert("}}"@ =~= seq!['}'] + seq!['}']);
    let outer = seq!['{'] + lead("Elementwise"@);
    lemma_nested_braces(outer, lead("op"@) + i0);
    assert(outer + seq!['{'] + (lead("op"@) + i0) =~= outer + seq!['{'] + lead("op"@) + i0);
    assert(seq!['{'] + (lead("op"@) + i0) =~= seq!['{'] + lead("op"@) + i0);
}

proof fn lemma_three_numbers(
    k0: Seq<char>,
    n0: nat,
    k1: Seq<char>,
    n1: nat,
    k2: Seq<char>,
    n2: nat,
) -> (v: Json)
    requires
        plain(k0),
        plain(k1),
        plain(k2),
    ensures
        v == record(
            seq![k0, k1, k2],
            seq![Json::Number(n0), Json::Number(n1), Json::Number(n2)],
        ),
        reads_as(
            seq!['{'] + members(seq![k0, k1, k2], seq![decimal(n0), decimal(n1), decimal(n2)])
                + seq!['}'],
            v,
        ),
{
    let keys = seq![k0, k1, k2];
    let items = seq![decimal(n0), decimal(n1), decimal(n2)];
    let vals = seq![Json::Number(n0), Json::Number(n1), Json::Number(n2)];
    lemma_number(n0);
    lemma_number(n1);
    lemma_number(n2);
    assert forall|i: int| 0 <= i < keys.len() implies plain(#[trigger] keys[i]) by {
    }
    assert forall|i: int| 0 <= i < keys.len() implies reads_as(#[trigger] items[i], vals[i]) by {
    }
    lemma_record(keys, items, vals);
    record(keys, vals)
}

proof fn lemma_op(op: OpModel) -> (v: Json)
    ensures
        reads_as(op_json(op), v),
        tells_op(v, op),
{
    match op {
        OpModel::MatMul { m, n, k } => {
            lemma_matmul_text(decimal(m as nat), decimal(n as nat), decimal(k as nat));
            let inner = lemma_three_numbers("m"@, m as nat, "n"@, n as nat, "k"@, k as nat);
            lemma_tagged(
                "MatMul"@,
                seq!['{'] + members(
                    seq!["m"@, "n"@, "k"@],
                    seq![decimal(m as nat), decimal(n as nat), decimal(k as nat)],
                ) + seq!['}'],
                inner,
            );
            tagged("MatMul"@, inner)
        },
        OpModel::RmsNorm { dim } => {
            lemma_rmsnorm_text(decimal(dim as nat));
            lemma_number(dim as nat);
            lemma_tagged("dim"@, decimal(dim as nat), Json::Number(dim as nat));
            let inner = tagged("dim"@, Json::Number(dim as nat));
            lemma_tagged(
                "RmsNorm"@,
                seq!['{'] + lead("dim"@) + decimal(dim as nat) + seq!['}'],
                inner,
            );
            tagged("RmsNorm"@, inner)
        },
        OpModel::Softmax { dim } => {
            lemma_softmax_text(decimal(dim as nat));
            lemma_number(dim as nat);
            lemma_tagged("dim"@, decimal(dim as nat), Json::Number(dim as nat));
            let inner = tagged("dim"@, Json::Number(dim as nat));
            lemma_tagged(
                "Softmax"@,
                seq!['{'] + lead("dim"@) + decimal(dim as nat) + seq!['}'],
                inner,
            );
            tagged("Softmax"@, inner)
        },
        OpModel::Attention { heads, head_dim, seq_len } => {
            lemma_attention_text(
                decimal(heads as nat),
                decimal(head_dim as nat),
                decimal(seq_len as nat),
            );
            let inner = lemma_three_numbers(
                "heads"@,
                heads as nat,
                "head_dim"@,
                head_dim as nat,
                "seq_len"@,
                seq_len as nat,
            );
            lemma_tagged(
                "Attention"@,
                seq!['{'] + members(
                    seq!["heads"@, "head_dim"@, "seq_len"@],
                    seq![
                        decimal(heads as nat),
                        decimal(head_dim as nat),
                        decimal(seq_len as nat),
                    ],
                ) + seq!['}'],
                inner,
            );
            tagged("Attention"@, inner)
        },
        OpModel::Elementwise { op } => {
            lemma_elementwise_text(json_string(op));
            lemma_string(op);
            lemma_tagged("op"@, json_string(op), Json::Text(op));
            let inner = tagged("op"@, Json::Text(op));
            lemma_tagged(
                "Elementwise"@,
                seq!['{'] + lead("op"@) + json_string(op) + seq!['}'],
                inner,
            );
            tagged("Elementwise"@, inner)
        },
        OpModel::Barrier => {
            reveal_strlit("Barrier");
            reveal_strlit("\"Barrier\"");
            assert("\"Barrier\""@ =~= seq!['"'] + "Barrier"@ + seq!['"']);
            lemma_quoted("\"Barrier\""@, "Barrier"@);
            Json::Text("Barrier"@)
        },
    }
}

proof fn lemma_tensors(tensors: Seq<TensorModel>) -> (v: Json)
    ensures
        reads_as(json_array(tensor_items(tensors)), v),
        tells_tensors(v, tensors),
{
    let items = tensor_items(tensors);
    let vals = Seq::new(
        tensors.len(),
        |i: int|
            choose|v: Json| #[trigger]
                reads_as(tensor_json(tensors[i]), v) && tells_tensor(v, tensors[i]),
    );
    assert forall|i: int| 0 <= i < items.len() implies reads_as(#[trigger] items[i], vals[i])
        && tells_tensor(vals[i], tensors[i]) by {
        let v = lemma_tensor(tensors[i]);
        assert(reads_as(tensor_json(tensors[i]), v));
    }
    lemma_list(items, vals);
    assert forall|k: int| 0 <= k < vals.len() implies tells_tensor(
        #[trigger] vals[k],
        tensors[k],
    ) by {
        assert(reads_as(items[k], vals[k]));
    }
    Json::List(vals)
}

proof fn lemma_kind_text(item: Seq<char>)
    ensures
        "{\"Op\":"@ + item + "}"@ == seq!['{'] + lead("Op"@) + item + seq!['}'],
        "{\"SubSchedule\":"@ + item + "}"@ == seq!['{'] + lead("SubSchedule"@) + item + seq!['}'],
        plain("Op"@),
        plain("SubSchedule"@),
{
    reveal_strlit("{\"Op\":");
    reveal_strlit("{\"SubSchedule\":");
    reveal_strlit("}");
    reveal_strlit("Op");
    reveal_strlit("SubSchedule");
    assert("{\"Op\":"@ =~= seq!['{'] + lead("Op"@));
    assert("{\"SubSchedule\":"@ =~= seq!['{'] + lead("SubSchedule"@));
    assert("}"@ =~= seq!['}']);
}

proof fn lemma_node_leads()
    ensures
        "{\"id\":"@ == seq!['{'] + lead("id"@),
        ",\"kind\":"@ == seq![','] + lead("kind"@),
        ",\"inputs\":"@ == seq![','] + lead("inputs"@),
        ",\"outputs\":"@ == seq![','] + lead("outputs"@),
        ",\"sm\":"@ == seq![','] + lead("sm"@),
        ",\"waits_on\":"@ == seq![','] + lead("waits_on"@),
        "}"@ == seq!['}'],
        plain("id"@),
        plain("kind"@),
        plain("inputs"@),
        plain("outputs"@),
        plain("sm"@),
        plain("waits_on"@),
{
    reveal_strlit("{\"id\":");
    reveal_strlit(",\"kind\":");
    reveal_strlit(",\"inputs\":");
    reveal_strlit(",\"outputs\":");
    reveal_strlit(",\"sm\":");
    reveal_strlit(",\"waits_on\":");
    reveal_strlit("id");
    reveal_strlit("kind");
    reveal_strlit("inputs");
    reveal_strlit("outputs");
    reveal_strlit("sm");
    reveal_strlit("waits_on");
    reveal_strlit("}");
}

proof fn lemma_node_text(
    i0: Seq<char>,
    i1: Seq<char>,
    i2: Seq<char>,
    i3: Seq<char>,
    i4: Seq<char>,
    i5: Seq<char>,
)
    ensures
        "{\"id\":"@ + i0 + ",\"kind\":"@ + i1 + ",\"inputs\":"@ + i2 + ",\"outputs\":"@ + i3
            + ",\"sm\":"@ + i4 + ",\"waits_on\":"@ + i5 + "}"@ == seq!['{'] + members(
            seq!["id"@, "kind"@, "inputs"@, "outputs"@, "sm"@, "waits_on"@],
            seq![i0, i1, i2, i3, i4, i5],
        ) + seq!['}'],
{
    lemma_node_leads();
    let front = seq!['{'];
    let (ks0, is0) = (seq!["id"@], seq![i0]);
    lemma_first_member(front, "id"@, i0);
    let (ks1, is1) = (ks0.push("kind"@), is0.push(i1));
    lemma_next_member(front, ks0, is0, "kind"@, i1);
    let (ks2, is2) = (ks1.push("inputs"@), is1.push(i2));
    lemma_next_member(front, ks1, is1, "inputs"@, i2);
    let (ks3, is3) = (ks2.push("outputs"@), is2.push(i3));
    lemma_next_member(front, ks2, is2, "outputs"@, i3);
    let (ks4, is4) = (ks3.push("sm"@), is3.push(i4));
    lemma_next_member(front, ks3, is3, "sm"@, i4);
    let (ks5, is5) = (ks4.push("waits_on"@), is4.push(i5));
    lemma_next_member(front, ks4, is4, "waits_on"@, i5);
    assert(ks5 =~= seq!["id"@, "kind"@, "inputs"@, "outputs"@, "sm"@, "waits_on"@]);
    assert(is5 =~= seq![i0, i1, i2, i3, i4, i5]);
}

proof fn lemma_schedule_text(i0: Seq<char>, i1: Seq<char>)
    ensures
        "{\"name\":"@ + i0 + ",\"nodes\":"@ + i1 + "}"@ == seq!['{'] + members(
            seq!["name"@, "nodes"@],
            seq![i0, i1],
        ) + seq!['}'],
        plain("name"@),
        plain("nodes"@),
{
    reveal_strlit("{\"name\":");
    reveal_strlit(",\"nodes\":");
    reveal_strlit("name");
    reveal_strlit("nodes");
    reveal_strlit("}");
    assert("{\"name\":"@ =~= seq!['{'] + lead("name"@));
    assert(",\"nodes\":"@ =~= seq![','] + lead("nodes"@));
    assert("}"@ =~= seq!['}']);
    let front = seq!['{'];
    let (ks0, is0) = (seq!["name"@], seq![i0]);
    lemma_first_member(front, "name"@, i0);
    let (ks1, is1) = (ks0.push("nodes"@), is0.push(i1));
    lemma_next_member(front, ks0, is0, "nodes"@, i1);
    assert(ks1 =~= seq!["name"@, "nodes"@]);
    assert(is1 =~= seq![i0, i1]);
}

/// Puts the object of a node together from those of its parts.
proof fn lemma_node_parts(
    node: NodeModel,
    kind: Json,
    inputs: Json,
    outputs: Json,
    waits: Json,
    kind_text: Seq<char>,
)
    requires
        reads_as(kind_text, kind),
        reads_as(json_array(tensor_items(node.inputs)), inputs),
        reads_as(json_array(tensor_items(node.outputs)), outputs),
        reads_as(json_array(id_items(node.waits_on)), waits),
    ensures
        reads_as(
            "{\"id\":"@ + decimal(node.id as nat) + ",\"kind\":"@ + kind_text + ",\"inputs\":"@
                + json_array(tensor_items(node.inputs)) + ",\"outputs\":"@ + json_array(
                tensor_items(node.outputs),
            ) + ",\"sm\":"@ + decimal(node.sm as nat) + ",\"waits_on\":"@ + json_array(
                id_items(node.waits_on),
            ) + "}"@,
            node_record(node, kind, inputs, outputs, waits),
        ),
{
    let (i0, i1, i2, i3, i4, i5) = (
        decimal(node.id as nat),
        kind_text,
        json_array(tensor_items(node.inputs)),
        json_array(tensor_items(node.outputs)),
        decimal(node.sm as nat),
        json_array(id_items(node.waits_on)),
    );
    let keys = seq!["id"@, "kind"@, "inputs"@, "outputs"@, "sm"@, "waits_on"@];
    let items = seq![i0, i1, i2, i3, i4, i5];
    let vals = seq![
        Json::Number(node.id as nat),
        kind,
        inputs,
        outputs,
        Json::Number(node.sm as nat),
        waits,
    ];
    lemma_number(node.id as nat);
    lemma_number(node.sm as nat);
    lemma_node_leads();
    lemma_node_text(i0, i1, i2, i3, i4, i5);
    assert forall|i: int| 0 <= i < keys.len() implies plain(#[trigger] keys[i]) by {
    }
    assert forall|i: int| 0 <= i < keys.len() implies reads_as(#[trigger] items[i], vals[i]) by {
    }
    lemma_record(keys, items, vals);
}

proof fn lemma_node(node: NodeModel) -> (v: Json)
    ensures
        reads_as(node_json(node), v),
        tells_node(v, node),
    decreases node,
{
    let inputs = lemma_tensors(node.inputs);
    let outputs = lemma_tensors(node.outputs);
    let waits = lemma_numbers(
        id_items(node.waits_on),
        node.waits_on.map_values(|n: NodeId| n as nat),
    );
    match node.kind {
        KindModel::Op(op) => {
            let inner = lemma_op(op);
            lemma_kind_text(op_json(op));
            lemma_tagged("Op"@, op_json(op), inner);
            let kind = tagged("Op"@, inner);
            lemma_node_parts(node, kind, inputs, outputs, waits, kind_json(node.kind));
            node_record(node, kind, inputs, outputs, waits)
        },
        KindModel::SubSchedule(sub) => {
            let inner = lemma_schedule(*sub);
            lemma_kind_text(schedule_json(*sub));
            lemma_tagged("SubSchedule"@, schedule_json(*sub), inner);
            let kind = tagged("SubSchedule"@, inner);
            lemma_node_parts(node, kind, inputs, outputs, waits, kind_json(node.kind));
            node_record(node, kind, inputs, outputs, waits)
        },
    }
}

/// Puts the object of a schedule together from its name and its nodes.
proof fn lemma_schedule_parts(name: Seq<char>, list: Seq<char>, nodes: Json)
    requires
        reads_as(list, nodes),
    ensures
        reads_as(
            "{\"name\":"@ + json_string(name) + ",\"nodes\":"@ + list + "}"@,
            record(seq!["name"@, "nodes"@], seq![Json::Text(name), nodes]),
        ),
{
    let i0 = json_string(name);
    let keys = seq!["name"@, "nodes"@];
    let items = seq![i0, list];
    let parts = seq![Json::Text(name), nodes];
    lemma_string(name);
    lemma_schedule_text(i0, list);
    assert forall|i: int| 0 <= i < keys.len() implies plain(#[trigger] keys[i]) by {
    }
    assert forall|i: int| 0 <= i < keys.len() implies reads_as(#[trigger] items[i], parts[i]) by {
    }
    lemma_record(keys, items, parts);
}

proof fn lemma_nodes_read(nodes: Seq<NodeModel>, vals: Seq<Json>)
    requires
        vals.len() == nodes.len(),
        forall|i: int| 0 <= i < nodes.len() ==> reads_as(node_json(nodes[i]), #[trigger] vals[i]),
    ensures
        reads_as(json_array(node_items(nodes)), Json::List(vals)),
{
    let items = node_items(nodes);
    assert forall|i: int| 0 <= i < items.len() implies reads_as(#[trigger] items[i], vals[i]) by {
        assert(reads_as(node_json(nodes[i]), vals[i]));
    }
    lemma_list(items, vals);
}

proof fn lemma_schedule_reads(s: ScheduleModel, vals: Seq<Json>)
    requires
        vals.len() == s.nodes.len(),
        forall|i: int|
            0 <= i < s.nodes.len() ==> reads_as(node_json(s.nodes[i]), #[trigger] vals[i]),
    ensures
        reads_as(schedule_json(s), schedule_record(s, vals)),
{
    lemma_nodes_read(s.nodes, vals);
    lemma_schedule_parts(s.name, json_array(node_items(s.nodes)), Json::List(vals));
}

/// The value is read from the node's text and tells the node.
spec fn renders(v: Json, node: NodeModel) -> bool {
    reads_as(node_json(node), v) && tells_node(v, node)
}

proof fn lemma_schedule(s: ScheduleModel) -> (v: Json)
    ensures
        reads_as(schedule_json(s), v),
        tells_schedule(v, s),
    decreases s,
{
    let vals = Seq::new(s.nodes.len(), |i: int| choose|v: Json| renders(v, s.nodes[i]));
    assert forall|i: int| 0 <= i < s.nodes.len() implies renders(
        #[trigger] vals[i],
        s.nodes[i],
    ) by {
        assert(decreases_to!(s => s.nodes[i]));
        let v = lemma_node(s.nodes[i]);
        assert(renders(v, s.nodes[i]));
    }
    lemma_schedule_reads(s, vals);
    let v = schedule_record(s, vals);
    assert forall|i: int| 0 <= i < s.nodes.len() implies tells_node(
        #[trigger] vals[i],
        s.nodes[i],
    ) by {
        assert(renders(vals[i], s.nodes[i]));
    }
    v
}

/// Reading the canonical text of a schedule uses all of it up and gives an
/// object that tells the schedule: its name, and of each node in order the id,
/// the operation with its sizes or the nested schedule, each input and each
/// output in order, the unit and the waits in order.
pub proof fn canonical_text_tells_the_schedule(s: ScheduleModel) -> (v: Json)
    ensures
        read_value(schedule_json(s)) == Some((v, Seq::<char>::empty())),
        tells_schedule(v, s),
{
    reveal(reads_as);
    let v = lemma_schedule(s);
    let none = Seq::<char>::empty();
    assert(number_ends(none));
    assert(schedule_json(s) + none =~= schedule_json(s));
    v
}

/// The `k`-th element of an array.
pub open spec fn element(v: Json, k: int) -> Json {
    v->List_0[k]
}

/// The key and the value of the `k`-th member of an object.
pub open spec fn member(v: Json, k: int) -> (Seq<char>, Json) {
    v->Record_0[k]
}

/// Whatever reading the canonical text gives has, for each node in order, an
/// array of inputs and an array of outputs with as many elements as the node
/// lists; the k-th element tells the k-th tensor.
pub proof fn tensors_are_told_in_order(s: ScheduleModel, v: Json, i: int)
    requires
        read_value(schedule_json(s)) == Some((v, Seq::<char>::empty())),
        0 <= i < s.nodes.len(),
    ensures
        member(v, 1).0 == "nodes"@,
        member(v, 1).1->List_0.len() == s.nodes.len(),
        ({
            let node = element(member(v, 1).1, i);
            let (inputs, outputs) = (member(node, 2), member(node, 3));
            &&& inputs.0 == "inputs"@
            &&& inputs.1->List_0.len() == s.nodes[i].inputs.len()
            &&& forall|k: int|
                0 <= k < s.nodes[i].inputs.len() ==> tells_tensor(
                    element(inputs.1, k),
                    #[trigger] s.nodes[i].inputs[k],
                )
            &&& outputs.0 == "outputs"@
            &&& outputs.1->List_0.len() == s.nodes[i].outputs.len()
            &&& forall|k: int|
                0 <= k < s.nodes[i].outputs.len() ==> tells_tensor(
                    element(outputs.1, k),
                    #[trigger] s.nodes[i].outputs[k],
                )
        }),
{
    let w = canonical_text_tells_the_schedule(s);
    lemma_told_node(v, s, i);
    lemma_told_tensors(element(member(v, 1).1, i), s.nodes[i]);
}

proof fn lemma_told_node(v: Json, s: ScheduleModel, i: int)
    requires
        tells_schedule(v, s),
        0 <= i < s.nodes.len(),
    ensures
        member(v, 1).0 == "nodes"@,
        member(v, 1).1->List_0.len() == s.nodes.len(),
        tells_node(element(member(v, 1).1, i), s.nodes[i]),
{
    let nodes = choose|nodes: Seq<Json>| #[trigger]
        schedule_record(s, nodes) == v && nodes.len() == s.nodes.len() && forall|j: int|
            0 <= j < s.nodes.len() ==> tells_node(#[trigger] nodes[j], s.nodes[j]);
    assert(schedule_record(s, nodes) == v);
    assert(tells_node(nodes[i], s.nodes[i]));
    assert(member(v, 1) == ("nodes"@, Json::List(nodes)));
}

proof fn lemma_told_tensors(v: Json, node: NodeModel)
    requires
        tells_node(v, node),
    ensures
        member(v, 2).0 == "inputs"@,
        tells_tensors(member(v, 2).1, node.inputs),
        member(v, 3).0 == "outputs"@,
        tells_tensors(member(v, 3).1, node.outputs),
{
    let (kind, inputs, outputs, waits) = choose|
        kind: Json,
        inputs: Json,
        outputs: Json,
        waits: Json,
    | #[trigger]
        node_record(node, kind, inputs, outputs, waits) == v && tells_tensors(inputs, node.inputs)
            && tells_tensors(outputs, node.outputs);
    assert(node_record(node, kind, inputs, outputs, waits) == v);
    assert(member(v, 2) == ("inputs"@, inputs));
    assert(member(v, 3) == ("outputs"@, outputs));
}

proof fn lemma_decimal_form(n: nat)
    ensures
        decimal(n).len() > 0,
        forall|i: int| 0 <= i < decimal(n).len() ==> is_digit(#[trigger] decimal(n)[i]),
        n > 0 ==> decimal(n)[0] != '0',
        n < 10 ==> decimal(n).len() == 1,
    decreases n,
{
    if n >= 10 {
        lemma_decimal_form(n / 10);
        assert forall|i: int| 0 <= i < decimal(n).len() implies is_digit(
            #[trigger] decimal(n)[i],
        ) by {
            if i < decimal(n / 10).len() {
                assert(decimal(n)[i] == decimal(n / 10)[i]);
            }
        }
        assert(decimal(n)[0] == decimal(n / 10)[0]);
    }
}

/// The decimal of a number is made of digits, starts with no needless zero,
/// and is read back as the number.
pub proof fn decimals_are_read_back(n: nat)
    ensures
        forall|i: int| 0 <= i < decimal(n).len() ==> is_digit(#[trigger] decimal(n)[i]),
        decimal(n)[0] == '0' ==> decimal(n).len() == 1,
        read_digits(decimal(n), 0) == (n, Seq::<char>::empty()),
{
    lemma_decimal_form(n);
    lemma_read_decimal(n, Seq::empty());
    assert(decimal(n) + Seq::<char>::empty() =~= decimal(n));
}

/// Bytes in hexadecimal are two digits each, in lower case, and the two digits
/// of a byte have its value.
pub proof fn digests_are_read_back(bytes: Seq<u8>)
    ensures
        hex_lower(bytes).len() == 2 * bytes.len(),
        forall|i: int|
            0 <= i < bytes.len() ==> 16 * hex_value(hex_lower(bytes)[2 * i]) + hex_value(
                hex_lower(bytes)[2 * i + 1],
            ) == #[trigger] bytes[i],
        forall|i: int|
            0 <= i < hex_lower(bytes).len() ==> hex_value(#[trigger] hex_lower(bytes)[i]) >= 0 && !(
            'A' <= hex_lower(bytes)[i] <= 'F'),
    decreases bytes.len(),
{
    if bytes.len() > 0 {
        let front = bytes.drop_last();
        let n = front.len() as int;
        let (h, l) = (bytes.last() as int / 16, bytes.last() as int % 16);
        digests_are_read_back(front);
        assert(hex_value(hex_digit(h)) == h && hex_value(hex_digit(l)) == l);
        assert forall|i: int| 0 <= i < bytes.len() implies 16 * hex_value(hex_lower(bytes)[2 * i])
            + hex_value(hex_lower(bytes)[2 * i + 1]) == #[trigger] bytes[i] by {
            if i < n {
                assert(front[i] == bytes[i]);
                assert(hex_lower(bytes)[2 * i] == hex_lower(front)[2 * i]);
                assert(hex_lower(bytes)[2 * i + 1] == hex_lower(front)[2 * i + 1]);
            }
        }
        assert forall|i: int| 0 <= i < hex_lower(bytes).len() implies hex_value(
            #[trigger] hex_lower(bytes)[i],
        ) >= 0 && !('A' <= hex_lower(bytes)[i] <= 'F') by {
            if i < 2 * n {
                assert(hex_lower(bytes)[i] == hex_lower(front)[i]);
            }
        }
    }
}

} // verus!
