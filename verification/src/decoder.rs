//! Bencode values and their JSON rendering.
use crate::common::string_from_utf8_lossy;
use crate::common::str_to_chars;
use crate::common::utf8_lossy;
use serde_bencode::value::Value;
use vstd::prelude::*;

verus! {

/// A bencoded value: a byte string, an integer, a list, or a dictionary
/// from byte-string keys to values (no key twice).
#[derive(Debug, PartialEq)]
pub enum BencodeValue {
    Bytes(Vec<u8>),
    Int(i64),
    List(Vec<BencodeValue>),
    Dict(Vec<(Vec<u8>, BencodeValue)>),
}

/// A JSON value, as bencode values are shown.
#[derive(Debug, PartialEq)]
pub enum JsonValue {
    String(String),
    Number(i64),
    Array(Vec<JsonValue>),
    Object(Vec<(String, JsonValue)>),
}

/// Why bencode could not be read.
#[derive(Debug, Clone, Copy, PartialEq, Eq)]
pub enum DecodeError {
    InvalidBencode,
}

/// A bencode value as plain values, with each dictionary as a map.
pub enum BencodeTree {
    Bytes(Seq<u8>),
    Int(int),
    List(Seq<BencodeTree>),
    Dict(Map<Seq<u8>, BencodeTree>),
}

/// True when `v` is the value `t` describes, whatever the order of its
/// dictionaries' entries.
pub open spec fn same_tree(v: BencodeValue, t: BencodeTree) -> bool
    decreases v,
{
    match v {
        BencodeValue::Bytes(b) => t == BencodeTree::Bytes(b@),
        BencodeValue::Int(i) => t == BencodeTree::Int(i as int),
        BencodeValue::List(l) => match t {
            BencodeTree::List(ts) => l@.len() == ts.len() && forall|i: int|
                0 <= i < l@.len() ==> same_tree(#[trigger] l@[i], ts[i]),
            _ => false,
        },
        BencodeValue::Dict(d) => match t {
            BencodeTree::Dict(m) => {
                &&& forall|i: int, j: int|
                    0 <= i < d@.len() && 0 <= j < d@.len() && i != j ==> (#[trigger] d@[i]).0@ != (
                    #[trigger] d@[j]).0@
                &&& forall|k: Seq<u8>|
                    m.contains_key(k) <==> exists|i: int| 0 <= i < d@.len() && (#[trigger] d@[i]).0@ == k
                &&& forall|i: int|
                    0 <= i < d@.len() ==> same_tree((#[trigger] d@[i]).1, m[d@[i].0@])
            },
            _ => false,
        },
    }
}

/// The value that bencode input describes, if it is valid bencode.
pub uninterp spec fn bencode_decode(input: Seq<u8>) -> Option<BencodeTree>;

#[verifier::external_type_specification]
#[verifier::external_body]
pub struct ExValue(Value);

/// Moves a `serde_bencode` value into a value of this library, variant by
/// variant; dictionary entries come in the order the map yields them.
#[verifier::external_body]
fn from_outside_value(v: Value) -> BencodeValue {
    match v {
        Value::Bytes(b) => BencodeValue::Bytes(b),
        Value::Int(i) => BencodeValue::Int(i),
        Value::List(l) => BencodeValue::List(l.into_iter().map(from_outside_value).collect()),
        Value::Dict(d) => BencodeValue::Dict(d.into_iter().map(|(k, v)| (k, from_outside_value(v))).collect()),
    }
}

/// Calls `serde_bencode::from_bytes` for a generic bencode value. Claims
/// that the input is accepted exactly when it is valid bencode, and that
/// the value read is the one it describes; the order of dictionary entries
/// follows a hash map's iteration and is left unsaid.
#[verifier::external_body]
fn bencode_from_bytes(input: &[u8]) -> (r: Option<BencodeValue>)
    ensures
        r is Some <==> bencode_decode(input@) is Some,
        r matches Some(v) ==> same_tree(v, bencode_decode(input@)->0),
{
    serde_bencode::from_bytes::<Value>(input).ok().map(from_outside_value)
}

/// The bencoding of a value, dictionary keys in increasing byte order.
pub uninterp spec fn bencode_encode(t: BencodeTree) -> Seq<u8>;

/// Moves a value of this library into a `serde_bencode` value, variant by
/// variant; a dictionary becomes a map from its keys to its values.
#[verifier::external_body]
fn to_outside_value(v: &BencodeValue) -> Value {
    match v {
        BencodeValue::Bytes(b) => Value::Bytes(b.clone()),
        BencodeValue::Int(i) => Value::Int(*i),
        BencodeValue::List(l) => Value::List(l.iter().map(to_outside_value).collect()),
        BencodeValue::Dict(d) => Value::Dict(d.iter().map(|(k, v)| (k.clone(), to_outside_value(v))).collect()),
    }
}

/// Calls `serde_bencode::to_bytes` on the value. Claims that the result is
/// the bencoding of the value the library value describes; the source
/// writes every dictionary with its keys sorted, and serialising a
/// `serde_bencode` value has no error path (only floats and misordered map
/// calls fail there), so the result is unwrapped.
#[verifier::external_body]
pub(crate) fn bencode_to_bytes(v: &BencodeValue) -> (r: Vec<u8>)
    ensures
        forall|t: BencodeTree| same_tree(*v, t) ==> r@ == bencode_encode(t),
{
    serde_bencode::to_bytes(&to_outside_value(v)).unwrap()
}

/// True when `j` is the JSON rendering of `b`: byte strings become text
/// (read as UTF-8, invalid sequences replaced), integers numbers, lists
/// arrays, and dictionaries objects with each key read as text. An object
/// holds each text key once, in increasing order as strings compare; where
/// several dictionary keys read as the same text, the last of their entries
/// gives the value.
pub open spec fn json_of(b: BencodeValue, j: JsonValue) -> bool
    decreases b,
{
    match b {
        BencodeValue::Bytes(bs) => match j {
            JsonValue::String(s) => s@ == utf8_lossy(bs@),
            _ => false,
        },
        BencodeValue::Int(i) => j == JsonValue::Number(i),
        BencodeValue::List(l) => match j {
            JsonValue::Array(a) => l@.len() == a@.len() && forall|i: int|
                0 <= i < l@.len() ==> json_of(#[trigger] l@[i], a@[i]),
            _ => false,
        },
        BencodeValue::Dict(d) => match j {
            JsonValue::Object(o) => object_of_prefix(d@, d@.len() as int, o@),
            _ => false,
        },
    }
}

/// Whether text `x` comes before text `y` when both are compared from
/// position `i` on: character by character, a proper prefix first.
pub open spec fn text_lt_from(x: Seq<char>, y: Seq<char>, i: int) -> bool
    decreases x.len() - i,
{
    if i < 0 {
        false
    } else if i >= x.len() {
        i < y.len()
    } else if i >= y.len() {
        false
    } else if x[i] < y[i] {
        true
    } else if x[i] == y[i] {
        text_lt_from(x, y, i + 1)
    } else {
        false
    }
}

/// Whether text `x` comes before text `y`, as strings compare: character
/// by character (the order of their UTF-8 bytes), a proper prefix first.
pub open spec fn text_lt(x: Seq<char>, y: Seq<char>) -> bool {
    text_lt_from(x, y, 0)
}

proof fn lemma_text_lt_common_prefix(x: Seq<char>, y: Seq<char>, j: int, i: int)
    requires
        0 <= j <= i,
        i <= x.len(),
        i <= y.len(),
        forall|k: int| j <= k < i ==> x[k] == y[k],
    ensures
        text_lt_from(x, y, j) == text_lt_from(x, y, i),
    decreases i - j,
{
    if j < i {
        lemma_text_lt_common_prefix(x, y, j + 1, i);
    }
}

/// Texts compare as strings do: at the first position where they differ,
/// the one whose character has the smaller code point comes first; when
/// one is a proper prefix of the other, the shorter comes first.
pub proof fn lemma_text_lt_is_string_order(x: Seq<char>, y: Seq<char>, i: int)
    requires
        0 <= i <= x.len(),
        i <= y.len(),
        forall|k: int| 0 <= k < i ==> x[k] == y[k],
    ensures
        i < x.len() && i < y.len() && x[i] != y[i] ==> (text_lt(x, y) <==> (x[i] as int) < (y[i] as int)),
        i == x.len() ==> (text_lt(x, y) <==> i < y.len()),
        i == y.len() && i < x.len() ==> !text_lt(x, y),
{
    lemma_text_lt_common_prefix(x, y, 0, i);
}

proof fn lemma_text_lt_irreflexive(x: Seq<char>, i: int)
    ensures
        !text_lt_from(x, x, i),
    decreases x.len() - i,
{
    if 0 <= i < x.len() {
        lemma_text_lt_irreflexive(x, i + 1);
    }
}

proof fn lemma_text_lt_transitive(x: Seq<char>, y: Seq<char>, z: Seq<char>, i: int)
    requires
        text_lt_from(x, y, i),
        text_lt_from(y, z, i),
    ensures
        text_lt_from(x, z, i),
    decreases x.len() - i,
{
    if 0 <= i < x.len() && i < y.len() && i < z.len() && x[i] == y[i] && y[i] == z[i] {
        lemma_text_lt_transitive(x, y, z, i + 1);
    }
}

proof fn lemma_text_lt_total(x: Seq<char>, y: Seq<char>, i: int)
    requires
        0 <= i <= x.len(),
        i <= y.len(),
        x.skip(i) != y.skip(i),
    ensures
        text_lt_from(x, y, i) || text_lt_from(y, x, i),
    decreases x.len() - i,
{
    if i == x.len() && i == y.len() {
        assert(x.skip(i) =~= y.skip(i));
    } else if i < x.len() && i < y.len() && x[i] == y[i] {
        if x.skip(i + 1) == y.skip(i + 1) {
            assert(x.skip(i + 1).len() == y.skip(i + 1).len());
            assert(x.skip(i).len() == y.skip(i).len());
            assert(x.skip(i) =~= y.skip(i)) by {
                assert forall|j: int| 0 <= j < x.skip(i).len() implies x.skip(i)[j] == y.skip(i)[j] by {
                    if j > 0 {
                        assert(x.skip(i)[j] == x.skip(i + 1)[j - 1]);
                        assert(y.skip(i)[j] == y.skip(i + 1)[j - 1]);
                    }
                }
            }
        }
        lemma_text_lt_total(x, y, i + 1);
    }
}

/// Whether text `a` comes before text `b`.
fn text_less(a: &Vec<char>, b: &Vec<char>) -> (r: bool)
    ensures
        r == text_lt(a@, b@),
{
    let mut i: usize = 0;
    while i < a.len() && i < b.len() && a[i] == b[i]
        invariant
            i <= a@.len(),
            i <= b@.len(),
            text_lt(a@, b@) == text_lt_from(a@, b@, i as int),
        decreases a.len() - i,
    {
        i = i + 1;
    }
    if i < a.len() && i < b.len() {
        a[i] < b[i]
    } else {
        i == a.len() && i < b.len()
    }
}

/// Whether texts `a` and `b` are the same.
fn text_equal(a: &Vec<char>, b: &Vec<char>) -> (r: bool)
    ensures
        r == (a@ == b@),
{
    if a.len() != b.len() {
        return false;
    }
    let mut i: usize = 0;
    while i < a.len()
        invariant
            a@.len() == b@.len(),
            i <= a@.len(),
            forall|j: int| 0 <= j < i ==> a@[j] == b@[j],
        decreases a.len() - i,
    {
        if a[i] != b[i] {
            return false;
        }
        i = i + 1;
    }
    assert(a@ =~= b@);
    true
}

/// True when `o` is the JSON object that the first `n` entries of a
/// dictionary make: each text key once, in increasing order, every entry's
/// key present, and each value from the last of the entries whose key reads
/// as that text.
pub open spec fn object_of_prefix(d: Seq<(Vec<u8>, BencodeValue)>, n: int, o: Seq<(String, JsonValue)>) -> bool
    decreases d,
{
    &&& forall|a: int, c: int| 0 <= a < c < o.len() ==> text_lt((#[trigger] o[a]).0@, (#[trigger] o[c]).0@)
    &&& forall|a: int, c: int| 0 <= a < o.len() && 0 <= c < o.len() && a != c ==> (#[trigger] o[a]).0@ != (
        #[trigger] o[c]).0@
    &&& forall|e: int|
        0 <= e < n ==> exists|a: int| 0 <= a < o.len() && (#[trigger] o[a]).0@ == utf8_lossy((#[trigger] d[e]).0@)
    &&& forall|a: int|
        0 <= a < o.len() ==> exists|e: int|
            0 <= e < n && e < d.len() && utf8_lossy((#[trigger] d[e]).0@) == (#[trigger] o[a]).0@ && json_of(
                d[e].1,
                o[a].1,
            )
                && forall|e2: int| e < e2 < n ==> utf8_lossy((#[trigger] d[e2]).0@) != o[a].0@
}

proof fn lemma_object_replace(
    d: Seq<(Vec<u8>, BencodeValue)>,
    n: int,
    o: Seq<(String, JsonValue)>,
    idx: int,
    o2: Seq<(String, JsonValue)>,
)
    requires
        0 <= n < d.len(),
        object_of_prefix(d, n, o),
        0 <= idx < o.len(),
        o[idx].0@ == utf8_lossy(d[n].0@),
        o2.len() == o.len(),
        o2[idx].0@ == o[idx].0@,
        json_of(d[n].1, o2[idx].1),
        forall|a: int| 0 <= a < o.len() && a != idx ==> o2[a] == o[a],
    ensures
        object_of_prefix(d, n + 1, o2),
{
    assert forall|a: int, c: int| 0 <= a < c < o2.len() implies text_lt((#[trigger] o2[a]).0@, (#[trigger] o2[c]).0@)
        by {
        assert(text_lt(o[a].0@, o[c].0@));
    }
    assert forall|a: int, c: int| 0 <= a < o2.len() && 0 <= c < o2.len() && a != c implies (#[trigger] o2[a]).0@
        != (#[trigger] o2[c]).0@ by {
        assert(o[a].0@ != o[c].0@);
    }
    assert forall|e: int| 0 <= e < n + 1 implies exists|a: int|
        0 <= a < o2.len() && (#[trigger] o2[a]).0@ == utf8_lossy((#[trigger] d[e]).0@) by {
        if e == n {
            assert(o2[idx].0@ == utf8_lossy(d[e].0@));
        } else {
            let a = choose|a: int| 0 <= a < o.len() && (#[trigger] o[a]).0@ == utf8_lossy((#[trigger] d[e]).0@);
            assert(o2[a].0@ == o[a].0@);
        }
    }
    assert forall|a: int| 0 <= a < o2.len() implies exists|e: int|
        0 <= e < n + 1 && utf8_lossy((#[trigger] d[e]).0@) == (#[trigger] o2[a]).0@ && json_of(d[e].1, o2[a].1)
            && forall|e2: int| e < e2 < n + 1 ==> utf8_lossy((#[trigger] d[e2]).0@) != o2[a].0@ by {
        if a == idx {
            assert(utf8_lossy(d[n].0@) == o2[a].0@ && json_of(d[n].1, o2[a].1));
        } else {
            let e = choose|e: int|
                0 <= e < n && utf8_lossy((#[trigger] d[e]).0@) == (#[trigger] o[a]).0@ && json_of(d[e].1, o[a].1)
                    && forall|e2: int| e < e2 < n ==> utf8_lossy((#[trigger] d[e2]).0@) != o[a].0@;
            assert(o[a].0@ != o[idx].0@);
            assert(o2[a] == o[a]);
            assert forall|e2: int| e < e2 < n + 1 implies utf8_lossy((#[trigger] d[e2]).0@) != o2[a].0@ by {
                if e2 < n {
                    assert(utf8_lossy(d[e2].0@) != o[a].0@);
                }
            }
        }
    }
}

/// Where a new key goes in a sorted object: every key from the first one
/// that does not come before it comes after it.
proof fn lemma_insert_position(o: Seq<(String, JsonValue)>, p: int, k: Seq<char>)
    requires
        0 <= p <= o.len(),
        forall|a: int, c: int| 0 <= a < c < o.len() ==> text_lt((#[trigger] o[a]).0@, (#[trigger] o[c]).0@),
        p < o.len() ==> o[p].0@ != k && !text_lt(o[p].0@, k),
    ensures
        forall|a: int| p <= a < o.len() ==> text_lt(k, (#[trigger] o[a]).0@),
{
    assert forall|a: int| p <= a < o.len() implies text_lt(k, (#[trigger] o[a]).0@) by {
        assert(o[p].0@.skip(0) =~= o[p].0@);
        assert(k.skip(0) =~= k);
        lemma_text_lt_total(o[p].0@, k, 0);
        if a > p {
            assert(text_lt(o[p].0@, o[a].0@));
            lemma_text_lt_transitive(k, o[p].0@, o[a].0@, 0);
        }
    }
}

proof fn lemma_object_insert(
    d: Seq<(Vec<u8>, BencodeValue)>,
    n: int,
    o: Seq<(String, JsonValue)>,
    p: int,
    o2: Seq<(String, JsonValue)>,
)
    requires
        0 <= n < d.len(),
        object_of_prefix(d, n, o),
        0 <= p <= o.len(),
        forall|a: int| 0 <= a < p ==> text_lt((#[trigger] o[a]).0@, utf8_lossy(d[n].0@)),
        forall|a: int| p <= a < o.len() ==> text_lt(utf8_lossy(d[n].0@), (#[trigger] o[a]).0@),
        o2.len() == o.len() + 1,
        o2[p].0@ == utf8_lossy(d[n].0@),
        json_of(d[n].1, o2[p].1),
        forall|a: int| 0 <= a < p ==> o2[a] == o[a],
        forall|a: int| p < a < o2.len() ==> o2[a] == o[a - 1],
    ensures
        object_of_prefix(d, n + 1, o2),
{
    let k = utf8_lossy(d[n].0@);
    assert forall|a: int| 0 <= a < o.len() implies (#[trigger] o[a]).0@ != k by {
        if a < p {
            lemma_text_lt_irreflexive(k, 0);
        } else {
            lemma_text_lt_irreflexive(k, 0);
        }
    }
    assert forall|a: int, c: int| 0 <= a < c < o2.len() implies text_lt((#[trigger] o2[a]).0@, (#[trigger] o2[c]).0@)
        by {
        if c < p {
            assert(text_lt(o[a].0@, o[c].0@));
        } else if c == p {
        } else if a < p {
            assert(text_lt(o[a].0@, k));
            assert(text_lt(k, o[c - 1].0@));
            lemma_text_lt_transitive(o[a].0@, k, o[c - 1].0@, 0);
        } else if a == p {
        } else {
            assert(text_lt(o[a - 1].0@, o[c - 1].0@));
        }
    }
    assert forall|a: int, c: int| 0 <= a < o2.len() && 0 <= c < o2.len() && a != c implies (#[trigger] o2[a]).0@
        != (#[trigger] o2[c]).0@ by {
        let lo = if a < c { a } else { c };
        let hi = if a < c { c } else { a };
        assert(text_lt(o2[lo].0@, o2[hi].0@));
        lemma_text_lt_irreflexive(o2[lo].0@, 0);
    }
    assert forall|e: int| 0 <= e < n + 1 implies exists|a: int|
        0 <= a < o2.len() && (#[trigger] o2[a]).0@ == utf8_lossy((#[trigger] d[e]).0@) by {
        if e == n {
            assert(o2[p].0@ == utf8_lossy(d[e].0@));
        } else {
            let a = choose|a: int| 0 <= a < o.len() && (#[trigger] o[a]).0@ == utf8_lossy((#[trigger] d[e]).0@);
            if a < p {
                assert(o2[a].0@ == o[a].0@);
            } else {
                assert(o2[a + 1].0@ == o[a].0@);
            }
        }
    }
    assert forall|a: int| 0 <= a < o2.len() implies exists|e: int|
        0 <= e < n + 1 && e < d.len() && utf8_lossy((#[trigger] d[e]).0@) == (#[trigger] o2[a]).0@ && json_of(
            d[e].1,
            o2[a].1,
        ) && forall|e2: int| e < e2 < n + 1 ==> utf8_lossy((#[trigger] d[e2]).0@) != o2[a].0@ by {
        if a == p {
            assert(utf8_lossy(d[n].0@) == o2[a].0@ && json_of(d[n].1, o2[a].1));
        } else {
            let b = if a < p { a } else { a - 1 };
            assert(o2[a] == o[b]);
            let e = choose|e: int|
                0 <= e < n && e < d.len() && utf8_lossy((#[trigger] d[e]).0@) == (#[trigger] o[b]).0@ && json_of(
                    d[e].1,
                    o[b].1,
                ) && forall|e2: int| e < e2 < n ==> utf8_lossy((#[trigger] d[e2]).0@) != o[b].0@;
            assert forall|e2: int| e < e2 < n + 1 implies utf8_lossy((#[trigger] d[e2]).0@) != o2[a].0@ by {
                if e2 < n {
                    assert(utf8_lossy(d[e2].0@) != o[b].0@);
                }
            }
        }
    }
}

/// Renders a bencode value as JSON.
#[verifier::spinoff_prover]
pub fn decode_bencoded_value(val: &BencodeValue) -> (j: JsonValue)
    ensures
        json_of(*val, j),
    decreases val,
{
    match val {
        BencodeValue::Bytes(b) => JsonValue::String(string_from_utf8_lossy(b.as_slice())),
        BencodeValue::Int(i) => JsonValue::Number(*i),
        BencodeValue::List(l) => {
            let mut a: Vec<JsonValue> = Vec::new();
            let mut i: usize = 0;
            while i < l.len()
                invariant
                    *val == BencodeValue::List(*l),
                    i <= l@.len(),
                    a@.len() == i,
                    forall|k: int| 0 <= k < i ==> json_of(#[trigger] l@[k], a@[k]),
                decreases l.len() - i,
            {
                proof {
                    assert((*val)->List_0 == *l);
                    assert(decreases_to!(*val => (*val)->List_0));
                    assert(decreases_to!(*l => l@));
                    assert(decreases_to!(l@ => l@[i as int]));
                }
                let e = decode_bencoded_value(&l[i]);
                a.push(e);
                i = i + 1;
            }
            JsonValue::Array(a)
        },
        BencodeValue::Dict(d) => {
            let mut o: Vec<(String, JsonValue)> = Vec::new();
            let mut ks: Vec<Vec<char>> = Vec::new();
            let mut i: usize = 0;
            while i < d.len()
                invariant
                    *val == BencodeValue::Dict(*d),
                    i <= d@.len(),
                    object_of_prefix(d@, i as int, o@),
                    ks@.len() == o@.len(),
                    forall|a: int| 0 <= a < ks@.len() ==> (#[trigger] ks@[a])@ == o@[a].0@,
                decreases d.len() - i,
            {
                let key = string_from_utf8_lossy(d[i].0.as_slice());
                proof {
                    assert((*val)->Dict_0 == *d);
                    assert(decreases_to!(*val => (*val)->Dict_0));
                    assert(decreases_to!(*d => d@));
                    assert(decreases_to!(d@ => d@[i as int]));
                    assert(decreases_to!(d@[i as int] => d@[i as int].1));
                }
                let value = decode_bencoded_value(&d[i].1);
                let kc = str_to_chars(key.as_str());
                let ghost old_o = o@;
                let ghost k = utf8_lossy(d@[i as int].0@);
                let mut p: usize = 0;
                while p < ks.len() && text_less(&ks[p], &kc)
                    invariant
                        p <= ks@.len(),
                        ks@.len() == o@.len(),
                        kc@ == k,
                        forall|a: int| 0 <= a < ks@.len() ==> (#[trigger] ks@[a])@ == o@[a].0@,
                        forall|a: int| 0 <= a < p ==> text_lt((#[trigger] o@[a]).0@, k),
                    decreases ks.len() - p,
                {
                    p = p + 1;
                }
                if p < ks.len() && text_equal(&ks[p], &kc) {
                    o.set(p, (key, value));
                    proof {
                        lemma_object_replace(d@, i as int, old_o, p as int, o@);
                    }
                } else {
                    proof {
                        if p < ks.len() {
                            assert(ks@[p as int]@ == old_o[p as int].0@);
                        }
                        lemma_insert_position(old_o, p as int, k);
                    }
                    o.insert(p, (key, value));
                    ks.insert(p, kc);
                    proof {
                        lemma_object_insert(d@, i as int, old_o, p as int, o@);
                    }
                }
                i = i + 1;
            }
            let j = JsonValue::Object(o);
            proof {
                assert(object_of_prefix(d@, d@.len() as int, o@));
                assert(json_of(*val, j));
            }
            j
        },
    }
}

/// Reads bencode input and renders it as JSON.
pub fn parse(input: &[u8]) -> (r: Result<JsonValue, DecodeError>)
    ensures
        r is Ok <==> bencode_decode(input@) is Some,
        r is Err ==> r == Err::<JsonValue, DecodeError>(DecodeError::InvalidBencode),
        r matches Ok(j) ==> exists|v: BencodeValue| same_tree(v, bencode_decode(input@)->0) && json_of(v, j),
{
    match bencode_from_bytes(input) {
        Some(v) => Ok(decode_bencoded_value(&v)),
        None => Err(DecodeError::InvalidBencode),
    }
}

} // verus!
