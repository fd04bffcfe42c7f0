//! Text: comparing, ordering and writing out strings and numbers.
use vstd::prelude::*;
use vstd::utf8::encode_utf8;

verus! {

/// `String::push`: appends one character.
pub assume_specification[ String::push ](text: &mut String, c: char)
    ensures
        final(text)@ == old(text)@.push(c),
;

/// Different texts have different encodings.
pub proof fn lemma_encoding_injective(a: Seq<char>, b: Seq<char>)
    ensures
        encode_utf8(a) == encode_utf8(b) <==> a == b,
{
    vstd::utf8::encode_utf8_decode_utf8(a);
    vstd::utf8::encode_utf8_decode_utf8(b);
}

/// `a` and `b` agree up to `k`, where `a` ends or has the smaller byte.
pub open spec fn less_at(a: Seq<u8>, b: Seq<u8>, k: int) -> bool {
    &&& 0 <= k <= a.len()
    &&& k < b.len()
    &&& forall|i: int| 0 <= i < k ==> a[i] == b[i]
    &&& k == a.len() || a[k] < b[k]
}

/// `a` comes before `b` in the order of strings: byte by byte, a prefix first.
pub open spec fn text_before(a: Seq<char>, b: Seq<char>) -> bool {
    exists|k: int| less_at(encode_utf8(a), encode_utf8(b), k)
}

/// No text comes before itself or before one that comes before it.
pub proof fn lemma_text_before_asymmetric(a: Seq<char>, b: Seq<char>)
    requires
        text_before(a, b),
    ensures
        !text_before(b, a),
        a != b,
{
    let (x, y) = (encode_utf8(a), encode_utf8(b));
    let k = choose|k: int| less_at(x, y, k);
    if text_before(b, a) {
        let l = choose|l: int| less_at(y, x, l);
        if l < k {
            assert(x[l] == y[l]);
        } else if k < l {
            assert(y[k] == x[k]);
        }
    }
}

/// The order of texts is transitive.
pub proof fn lemma_text_before_transitive(a: Seq<char>, b: Seq<char>, c: Seq<char>)
    requires
        text_before(a, b),
        text_before(b, c),
    ensures
        text_before(a, c),
{
    let (x, y, z) = (encode_utf8(a), encode_utf8(b), encode_utf8(c));
    let k = choose|k: int| less_at(x, y, k);
    let l = choose|l: int| less_at(y, z, l);
    let m = if k < l {
        k
    } else {
        l
    };
    assert(less_at(x, z, m));
}

/// How two texts stand to one another.
#[derive(Clone, Copy, PartialEq, Eq, Structural)]
pub enum TextOrder {
    Before,
    Same,
    After,
}

/// Orders two texts as the standard library orders strings.
pub fn text_order(a: &str, b: &str) -> (res: TextOrder)
    ensures
        match res {
            TextOrder::Before => text_before(a@, b@),
            TextOrder::Same => a@ == b@,
            TextOrder::After => text_before(b@, a@),
        },
{
    let x: &[u8] = a.as_bytes();
    let y: &[u8] = b.as_bytes();
    let mut i: usize = 0;
    while i < x.len() && i < y.len()
        invariant
            i <= x@.len(),
            i <= y@.len(),
            x@ == encode_utf8(a@),
            y@ == encode_utf8(b@),
            forall|j: int| 0 <= j < i ==> x@[j] == y@[j],
        decreases x@.len() - i,
    {
        if x[i] < y[i] {
            assert(less_at(x@, y@, i as int));
            return TextOrder::Before;
        }
        if y[i] < x[i] {
            assert(less_at(y@, x@, i as int));
            return TextOrder::After;
        }
        i += 1;
    }
    if x.len() < y.len() {
        assert(less_at(x@, y@, i as int));
        TextOrder::Before
    } else if y.len() < x.len() {
        assert(less_at(y@, x@, i as int));
        TextOrder::After
    } else {
        proof {
            assert(x@ =~= y@);
            lemma_encoding_injective(a@, b@);
        }
        TextOrder::Same
    }
}

/// Whether two texts are the same.
pub fn same_text(a: &str, b: &str) -> (res: bool)
    ensures
        res == (a@ == b@),
{
    match text_order(a, b) {
        TextOrder::Same => true,
        TextOrder::Before => {
            proof {
                lemma_text_before_asymmetric(a@, b@);
            }
            false
        },
        TextOrder::After => {
            proof {
                lemma_text_before_asymmetric(b@, a@);
            }
            false
        },
    }
}

/// In order, and none twice.
pub open spec fn strictly_sorted(texts: Seq<Seq<char>>) -> bool {
    forall|i: int, j: int|
        0 <= i < j < texts.len() ==> text_before(#[trigger] texts[i], #[trigger] texts[j])
}

/// The texts of a set, in order.
pub open spec fn sorted(texts: Set<Seq<char>>) -> Seq<Seq<char>> {
    choose|list: Seq<Seq<char>>| #[trigger]
        strictly_sorted(list) && list.to_set() == texts
}

/// There is only one way to list a set in order.
pub proof fn lemma_sorted_unique(a: Seq<Seq<char>>, b: Seq<Seq<char>>)
    requires
        strictly_sorted(a),
        strictly_sorted(b),
        a.to_set() == b.to_set(),
    ensures
        a == b,
    decreases a.len(),
{
    if a.len() == 0 {
        if b.len() > 0 {
            assert(b.to_set().contains(b[0]));
            assert(a.contains(b[0]));
        }
        assert(a =~= b);
    } else {
        assert(a.to_set().contains(a[0]));
        assert(b.contains(a[0]));
        assert(b.to_set().contains(b[0]));
        assert(a.contains(b[0]));
        let i = choose|i: int| 0 <= i < a.len() && a[i] == b[0];
        let j = choose|j: int| 0 <= j < b.len() && b[j] == a[0];
        if j > 0 {
            lemma_text_before_asymmetric(b[0], b[j]);
        }
        assert(a[0] == b[0]);
        let (x, y) = (a.skip(1), b.skip(1));
        assert forall|t: Seq<char>| x.to_set().contains(t) <==> y.to_set().contains(t) by {
            if x.contains(t) {
                let k = choose|k: int| 0 <= k < x.len() && x[k] == t;
                assert(a[k + 1] == t);
                lemma_text_before_asymmetric(a[0], a[k + 1]);
                assert(a.to_set().contains(t));
                let l = choose|l: int| 0 <= l < b.len() && b[l] == t;
                assert(y[l - 1] == t);
            }
            if y.contains(t) {
                let k = choose|k: int| 0 <= k < y.len() && y[k] == t;
                assert(b[k + 1] == t);
                lemma_text_before_asymmetric(b[0], b[k + 1]);
                assert(b.to_set().contains(t));
                let l = choose|l: int| 0 <= l < a.len() && a[l] == t;
                assert(x[l - 1] == t);
            }
        }
        assert(x.to_set() =~= y.to_set());
        assert(strictly_sorted(x)) by {
            assert forall|p: int, q: int| 0 <= p < q < x.len() implies text_before(
                #[trigger] x[p],
                #[trigger] x[q],
            ) by {
                assert(text_before(a[p + 1], a[q + 1]));
            }
        }
        assert(strictly_sorted(y)) by {
            assert forall|p: int, q: int| 0 <= p < q < y.len() implies text_before(
                #[trigger] y[p],
                #[trigger] y[q],
            ) by {
                assert(text_before(b[p + 1], b[q + 1]));
            }
        }
        lemma_sorted_unique(x, y);
        assert(a =~= seq![a[0]] + x);
        assert(b =~= seq![b[0]] + y);
    }
}

/// Of two different texts, one comes before the other.
pub proof fn lemma_text_order_total(a: Seq<char>, b: Seq<char>)
    ensures
        a == b || text_before(a, b) || text_before(b, a),
{
    lemma_bytes_order_total(encode_utf8(a), encode_utf8(b), 0);
    lemma_encoding_injective(a, b);
}

proof fn lemma_bytes_order_total(x: Seq<u8>, y: Seq<u8>, i: int)
    requires
        0 <= i <= x.len(),
        i <= y.len(),
        forall|j: int| 0 <= j < i ==> x[j] == y[j],
    ensures
        x == y || (exists|k: int| less_at(x, y, k)) || (exists|k: int| less_at(y, x, k)),
    decreases x.len() - i,
{
    if i == x.len() || i == y.len() || x[i] != y[i] {
        if i == x.len() && i == y.len() {
            assert(x =~= y);
        } else if i < y.len() && (i == x.len() || x[i] < y[i]) {
            assert(less_at(x, y, i));
        } else {
            assert(less_at(y, x, i));
        }
    } else {
        lemma_bytes_order_total(x, y, i + 1);
    }
}

/// A text can be put into a sorted list.
proof fn lemma_insertable(list: Seq<Seq<char>>, text: Seq<char>) -> (res: Seq<Seq<char>>)
    requires
        strictly_sorted(list),
    ensures
        strictly_sorted(res),
        forall|t: Seq<char>| #[trigger] res.contains(t) <==> list.contains(t) || t == text,
    decreases list.len(),
{
    if list.len() == 0 {
        let res = seq![text];
        assert(res[0] == text);
        res
    } else {
        let front = list.drop_last();
        let last = list.last();
        assert forall|t: Seq<char>| #[trigger] list.contains(t) <==> front.contains(t) || t
            == last by {
            if list.contains(t) {
                let k = choose|k: int| 0 <= k < list.len() && list[k] == t;
                if k < front.len() {
                    assert(front[k] == t);
                }
            }
            if front.contains(t) {
                let k = choose|k: int| 0 <= k < front.len() && front[k] == t;
                assert(list[k] == t);
            }
            assert(list[list.len() - 1] == last);
        }
        lemma_text_order_total(text, last);
        if text == last {
            list
        } else if text_before(last, text) {
            let res = list.push(text);
            assert forall|t: Seq<char>| #[trigger] res.contains(t) <==> list.contains(t) || t
                == text by {
                if res.contains(t) {
                    let k = choose|k: int| 0 <= k < res.len() && res[k] == t;
                    if k < list.len() {
                        assert(list[k] == t);
                    }
                }
                if list.contains(t) {
                    let k = choose|k: int| 0 <= k < list.len() && list[k] == t;
                    assert(res[k] == t);
                }
                assert(res[list.len() as int] == text);
            }
            assert forall|i: int, j: int| 0 <= i < j < res.len() implies text_before(
                #[trigger] res[i],
                #[trigger] res[j],
            ) by {
                if j < list.len() {
                    assert(text_before(list[i], list[j]));
                } else if i < list.len() - 1 {
                    assert(text_before(list[i], list[list.len() - 1]));
                    lemma_text_before_transitive(list[i], last, text);
                }
            }
            res
        } else {
            assert forall|i: int, j: int| 0 <= i < j < front.len() implies text_before(
                #[trigger] front[i],
                #[trigger] front[j],
            ) by {
                assert(text_before(list[i], list[j]));
            }
            let inner = lemma_insertable(front, text);
            let res = inner.push(last);
            assert forall|t: Seq<char>| #[trigger] res.contains(t) <==> list.contains(t) || t
                == text by {
                if res.contains(t) {
                    let k = choose|k: int| 0 <= k < res.len() && res[k] == t;
                    if k < inner.len() {
                        assert(inner[k] == t);
                        assert(inner.contains(t));
                    }
                }
                if inner.contains(t) {
                    let k = choose|k: int| 0 <= k < inner.len() && inner[k] == t;
                    assert(res[k] == t);
                }
                assert(res[inner.len() as int] == last);
            }
            assert forall|i: int, j: int| 0 <= i < j < res.len() implies text_before(
                #[trigger] res[i],
                #[trigger] res[j],
            ) by {
                if j < inner.len() {
                    assert(text_before(inner[i], inner[j]));
                } else {
                    assert(inner.contains(inner[i]));
                    if inner[i] != text {
                        let k = choose|k: int| 0 <= k < front.len() && front[k] == inner[i];
                        assert(text_before(list[k], list[list.len() - 1]));
                    }
                }
            }
            res
        }
    }
}

/// The texts of a list can be listed in order.
pub proof fn lemma_sorted_exists(list: Seq<Seq<char>>)
    ensures
        strictly_sorted(sorted(list.to_set())),
        sorted(list.to_set()).to_set() == list.to_set(),
{
    let res = lemma_sort(list);
    assert(res.to_set() =~= list.to_set()) by {
        assert forall|t: Seq<char>| res.to_set().contains(t) <==> list.to_set().contains(t) by {
            assert(res.contains(t) <==> list.contains(t));
        }
    }
}

proof fn lemma_sort(list: Seq<Seq<char>>) -> (res: Seq<Seq<char>>)
    ensures
        strictly_sorted(res),
        forall|t: Seq<char>| #[trigger] res.contains(t) <==> list.contains(t),
    decreases list.len(),
{
    if list.len() == 0 {
        list
    } else {
        let front = lemma_sort(list.drop_last());
        let res = lemma_insertable(front, list.last());
        assert forall|t: Seq<char>| #[trigger] res.contains(t) <==> list.contains(t) by {
            assert(front.contains(t) <==> list.drop_last().contains(t));
            if list.contains(t) {
                let k = choose|k: int| 0 <= k < list.len() && list[k] == t;
                if k < list.len() - 1 {
                    assert(list.drop_last()[k] == t);
                }
            }
            if list.drop_last().contains(t) {
                let k = choose|k: int|
                    0 <= k < list.drop_last().len() && list.drop_last()[k] == t;
                assert(list[k] == t);
            }
            assert(list[list.len() - 1] == list.last());
        }
        res
    }
}

/// The contents of a vector of strings.
pub open spec fn texts(list: Seq<String>) -> Seq<Seq<char>> {
    list.map_values(|s: String| s@)
}

/// Puts a text in its place in a sorted list, unless it is there already.
pub fn insert_sorted(list: &mut Vec<String>, text: String)
    requires
        strictly_sorted(texts(old(list)@)),
    ensures
        strictly_sorted(texts(final(list)@)),
        texts(final(list)@).to_set() == texts(old(list)@).to_set().insert(text@),
{
    let ghost before = texts(list@);
    let mut i: usize = 0;
    while i < list.len()
        invariant
            before == texts(list@),
            strictly_sorted(before),
            list@ == old(list)@,
            i <= list@.len(),
            forall|j: int| 0 <= j < i ==> text_before(#[trigger] before[j], text@),
        ensures
            i < list@.len() ==> text_before(text@, before[i as int]),
        decreases list@.len() - i,
    {
        assert(before[i as int] == list@[i as int]@);
        match text_order(list[i].as_str(), text.as_str()) {
            TextOrder::Before => {
                i += 1;
            },
            TextOrder::Same => {
                proof {
                    assert(before[i as int] == text@);
                    assert(before.to_set().contains(text@));
                    assert(before.to_set() =~= before.to_set().insert(text@));
                }
                return ;
            },
            TextOrder::After => {
                break;
            },
        }
    }
    let ghost added = text@;
    list.insert(i, text);
    proof {
        let after = texts(list@);
        assert(after =~= before.insert(i as int, added));
        assert forall|p: int, q: int| 0 <= p < q < after.len() implies text_before(
            #[trigger] after[p],
            #[trigger] after[q],
        ) by {
            if p < i && q > i {
                assert(text_before(before[p], before[q - 1]));
            } else if p < i && q < i {
                assert(text_before(before[p], before[q]));
            } else if p > i {
                assert(text_before(before[p - 1], before[q - 1]));
            } else if p == i {
                if q - 1 > i {
                    assert(text_before(before[i as int], before[q - 1]));
                    lemma_text_before_transitive(added, before[i as int], before[q - 1]);
                }
            }
        }
        assert forall|t: Seq<char>| after.to_set().contains(t) <==> before.to_set().insert(
            added,
        ).contains(t) by {
            if after.contains(t) {
                let k = choose|k: int| 0 <= k < after.len() && after[k] == t;
                if k < i {
                    assert(before[k] == t);
                } else if k > i {
                    assert(before[k - 1] == t);
                }
            }
            if before.contains(t) {
                let k = choose|k: int| 0 <= k < before.len() && before[k] == t;
                if k < i {
                    assert(after[k] == t);
                } else {
                    assert(after[k + 1] == t);
                }
            }
            assert(after[i as int] == added);
        }
        assert(after.to_set() =~= before.to_set().insert(added));
    }
}

/// One decimal digit.
pub open spec fn digit(d: int) -> char
    recommends
        0 <= d < 10,
{
    (48 + d) as char
}

/// A number in decimal, without leading zeros.
pub open spec fn decimal(n: nat) -> Seq<char>
    decreases n,
{
    if n < 10 {
        seq![digit(n as int)]
    } else {
        decimal(n / 10).push(digit((n % 10) as int))
    }
}

/// Appends a number in decimal.
pub fn push_decimal(out: &mut String, n: u64)
    ensures
        final(out)@ == old(out)@ + decimal(n as nat),
    decreases n,
{
    let ghost before = out@;
    if n >= 10 {
        push_decimal(out, n / 10);
    }
    let d: u8 = (n % 10) as u8;
    let c: char = (48 + d) as char;
    out.push(c);
    proof {
        assert(c == digit((n % 10) as int));
        assert(out@ =~= before + decimal(n as nat));
    }
}

/// A number in decimal.
pub fn decimal_text(n: u64) -> (res: String)
    ensures
        res@ == decimal(n as nat),
{
    let mut out: String = String::new();
    push_decimal(&mut out, n);
    assert(out@ =~= decimal(n as nat));
    out
}

} // verus!
