//! The bencode wire format: what a value is, which bytes write it, and the laws of that writing.

use super::digits::{digits, is_digit, lemma_digits_shape, lemma_digits_unique};
use vstd::prelude::*;

verus! {

/// `i`, which opens an integer.
pub const INT_OPEN: u8 = 0x69;

/// `l`, which opens a list.
pub const LIST_OPEN: u8 = 0x6c;

/// `d`, which opens a dictionary.
pub const DICT_OPEN: u8 = 0x64;

/// `e`, which closes an integer, a list or a dictionary.
pub const CLOSE: u8 = 0x65;

/// `:`, between the length of a byte string and its bytes.
pub const COLON: u8 = 0x3a;

/// `-`, before a negative integer.
pub const MINUS: u8 = 0x2d;

/// A bencode value as mathematics: the model of [`super::value::Bencode`].
pub enum Value {
    Int(i64),
    Bytes(Seq<u8>),
    List(Seq<Value>),
    Dict(Seq<(Seq<u8>, Value)>),
}

/// The decimal text of an integer.
pub open spec fn int_text(n: int) -> Seq<u8> {
    if n < 0 {
        seq![MINUS] + digits((-n) as nat)
    } else {
        digits(n as nat)
    }
}

/// The text of a byte string: its length, a colon, its bytes.
pub open spec fn bytes_text(b: Seq<u8>) -> Seq<u8> {
    digits(b.len()) + seq![COLON] + b
}

/// The bytes that write `v`.
pub open spec fn encoding(v: Value) -> Seq<u8>
    decreases v,
{
    match v {
        Value::Int(n) => seq![INT_OPEN] + int_text(n as int) + seq![CLOSE],
        Value::Bytes(b) => bytes_text(b),
        Value::List(items) => seq![LIST_OPEN] + items_text(items),
        Value::Dict(entries) => seq![DICT_OPEN] + entries_text(entries),
    }
}

/// The items of a list one after the other, and the closing `e`.
pub open spec fn items_text(items: Seq<Value>) -> Seq<u8>
    decreases items,
{
    if items.len() == 0 {
        seq![CLOSE]
    } else {
        encoding(items[0]) + items_text(items.drop_first())
    }
}

/// The entries of a dictionary one after the other, key before value, and the closing `e`.
pub open spec fn entries_text(entries: Seq<(Seq<u8>, Value)>) -> Seq<u8>
    decreases entries,
{
    if entries.len() == 0 {
        seq![CLOSE]
    } else {
        bytes_text(entries[0].0) + encoding(entries[0].1) + entries_text(entries.drop_first())
    }
}

/// `a` comes before `b` in the order of raw bytes, a proper prefix before what extends it.
pub open spec fn bytes_lt(a: Seq<u8>, b: Seq<u8>) -> bool
    decreases a.len(),
{
    if b.len() == 0 {
        false
    } else if a.len() == 0 {
        true
    } else if a[0] != b[0] {
        a[0] < b[0]
    } else {
        bytes_lt(a.drop_first(), b.drop_first())
    }
}

/// The keys of a dictionary ascend strictly: they are sorted, and none occurs twice.
pub open spec fn keys_ascend(entries: Seq<(Seq<u8>, Value)>) -> bool {
    forall|i: int, j: int|
        0 <= i < j < entries.len() ==> bytes_lt(#[trigger] entries[i].0, #[trigger] entries[j].0)
}

/// The keys of every dictionary in `v`, at any depth, ascend strictly.
pub open spec fn canonical(v: Value) -> bool
    decreases v,
{
    match v {
        Value::Int(_) => true,
        Value::Bytes(_) => true,
        Value::List(items) => canonical_items(items),
        Value::Dict(entries) => keys_ascend(entries) && canonical_values(entries),
    }
}

/// Every item of a list is canonical.
pub open spec fn canonical_items(items: Seq<Value>) -> bool
    decreases items,
{
    items.len() > 0 ==> canonical(items[0]) && canonical_items(items.drop_first())
}

/// Every value of a dictionary is canonical.
pub open spec fn canonical_values(entries: Seq<(Seq<u8>, Value)>) -> bool
    decreases entries,
{
    entries.len() > 0 ==> canonical(entries[0].1) && canonical_values(entries.drop_first())
}

/// The canonical value that `s` writes from its first byte to its last, if there is one.
pub open spec fn decoded(s: Seq<u8>) -> Option<Value> {
    if exists|v: Value| canonical(v) && #[trigger] encoding(v) == s {
        Some(choose|v: Value| canonical(v) && #[trigger] encoding(v) == s)
    } else {
        None
    }
}

/// The value under `key` in a list of entries: that of the first entry with this key.
pub open spec fn lookup(entries: Seq<(Seq<u8>, Value)>, key: Seq<u8>) -> Option<Value>
    decreases entries.len(),
{
    if entries.len() == 0 {
        None
    } else if entries[0].0 == key {
        Some(entries[0].1)
    } else {
        lookup(entries.drop_first(), key)
    }
}

impl Value {
    /// The integer, if this is one.
    pub open spec fn as_int(self) -> Option<i64> {
        match self {
            Value::Int(n) => Some(n),
            _ => None,
        }
    }

    /// The bytes, if this is a byte string.
    pub open spec fn as_bytes(self) -> Option<Seq<u8>> {
        match self {
            Value::Bytes(b) => Some(b),
            _ => None,
        }
    }

    /// The characters, if this is a byte string that is valid UTF-8.
    pub open spec fn as_text(self) -> Option<Seq<char>> {
        match self {
            Value::Bytes(b) if vstd::utf8::valid_utf8(b) => Some(vstd::utf8::decode_utf8(b)),
            _ => None,
        }
    }

    /// The items, if this is a list.
    pub open spec fn as_list(self) -> Option<Seq<Value>> {
        match self {
            Value::List(items) => Some(items),
            _ => None,
        }
    }

    /// The value under the key that `key` writes in UTF-8, if this is a dictionary that has it.
    pub open spec fn field(self, key: &str) -> Option<Value> {
        match self {
            Value::Dict(entries) => lookup(entries, vstd::utf8::encode_utf8(key@)),
            _ => None,
        }
    }
}

/// The first byte of an encoding tells the kind of the value; it is never the closing `e`.
pub proof fn lemma_first_byte(v: Value)
    ensures
        encoding(v).len() >= 1,
        v is Int ==> encoding(v)[0] == INT_OPEN,
        v is Bytes ==> is_digit(encoding(v)[0]),
        v is List ==> encoding(v)[0] == LIST_OPEN,
        v is Dict ==> encoding(v)[0] == DICT_OPEN,
{
    if let Value::Bytes(b) = v {
        lemma_digits_shape(b.len());
    }
}

/// The items of a list are canonical exactly when each one is.
pub proof fn lemma_canonical_items(items: Seq<Value>)
    ensures
        canonical_items(items) <==> forall|i: int|
            0 <= i < items.len() ==> canonical(#[trigger] items[i]),
    decreases items.len(),
{
    if items.len() > 0 {
        let rest = items.drop_first();
        lemma_canonical_items(rest);
        assert(forall|i: int| 0 < i < items.len() ==> #[trigger] items[i] == rest[i - 1]);
        assert(forall|i: int| 0 <= i < rest.len() ==> #[trigger] rest[i] == items[i + 1]);
    }
}

/// The values of a dictionary are canonical exactly when each one is.
pub proof fn lemma_canonical_values(entries: Seq<(Seq<u8>, Value)>)
    ensures
        canonical_values(entries) <==> forall|i: int|
            0 <= i < entries.len() ==> canonical((#[trigger] entries[i]).1),
    decreases entries.len(),
{
    if entries.len() > 0 {
        let rest = entries.drop_first();
        lemma_canonical_values(rest);
        assert(forall|i: int| 0 < i < entries.len() ==> #[trigger] entries[i] == rest[i - 1]);
        assert(forall|i: int| 0 <= i < rest.len() ==> #[trigger] rest[i] == entries[i + 1]);
    }
}

/// Two integers, each followed by the closing `e`, agree as bytes only if they are the same.
pub proof fn lemma_int_unique(n: int, s: Seq<u8>, m: int, t: Seq<u8>)
    requires
        int_text(n) + (seq![CLOSE] + s) == int_text(m) + (seq![CLOSE] + t),
    ensures
        n == m,
        s == t,
{
    let cs = seq![CLOSE] + s;
    let ct = seq![CLOSE] + t;
    let a = if n < 0 { (-n) as nat } else { n as nat };
    let b = if m < 0 { (-m) as nat } else { m as nat };
    lemma_digits_shape(a);
    lemma_digits_shape(b);
    let left = int_text(n) + cs;
    let right = int_text(m) + ct;
    assert(left[0] == int_text(n)[0]);
    assert(right[0] == int_text(m)[0]);
    if n < 0 && m < 0 {
        assert(left.drop_first() =~= digits(a) + cs);
        assert(right.drop_first() =~= digits(b) + ct);
    } else {
        assert(is_digit(digits(a)[0]) && is_digit(digits(b)[0]));
    }
    lemma_digits_unique(a, cs, b, ct);
    assert(s =~= cs.drop_first());
    assert(t =~= ct.drop_first());
}

/// Two byte strings agree as bytes, whatever follows them, only if they are the same.
pub proof fn lemma_bytes_unique(a: Seq<u8>, s: Seq<u8>, b: Seq<u8>, t: Seq<u8>)
    requires
        bytes_text(a) + s == bytes_text(b) + t,
    ensures
        a == b,
        s == t,
{
    let ra = seq![COLON] + a + s;
    let rb = seq![COLON] + b + t;
    assert(bytes_text(a) + s =~= digits(a.len()) + ra);
    assert(bytes_text(b) + t =~= digits(b.len()) + rb);
    lemma_digits_unique(a.len(), ra, b.len(), rb);
    assert(a =~= ra.subrange(1, 1 + a.len() as int));
    assert(b =~= rb.subrange(1, 1 + b.len() as int));
    assert(s =~= ra.skip(1 + a.len() as int));
    assert(t =~= rb.skip(1 + b.len() as int));
}

/// No encoding continues another: if two values, each followed by something, make the same
/// bytes, they are the same value, followed by the same.
pub proof fn law_encoding_prefix_free(v: Value, s: Seq<u8>, w: Value, t: Seq<u8>)
    requires
        encoding(v) + s == encoding(w) + t,
    ensures
        v == w,
        s == t,
    decreases v,
{
    lemma_first_byte(v);
    lemma_first_byte(w);
    assert((encoding(v) + s)[0] == encoding(v)[0]);
    assert((encoding(w) + t)[0] == encoding(w)[0]);
    match (v, w) {
        (Value::Int(n), Value::Int(m)) => {
            assert((encoding(v) + s).drop_first() =~= int_text(n as int) + (seq![CLOSE] + s));
            assert((encoding(w) + t).drop_first() =~= int_text(m as int) + (seq![CLOSE] + t));
            lemma_int_unique(n as int, s, m as int, t);
        },
        (Value::Bytes(a), Value::Bytes(b)) => {
            lemma_bytes_unique(a, s, b, t);
        },
        (Value::List(a), Value::List(b)) => {
            assert((encoding(v) + s).drop_first() =~= items_text(a) + s);
            assert((encoding(w) + t).drop_first() =~= items_text(b) + t);
            lemma_items_unique(a, s, b, t);
        },
        (Value::Dict(a), Value::Dict(b)) => {
            assert((encoding(v) + s).drop_first() =~= entries_text(a) + s);
            assert((encoding(w) + t).drop_first() =~= entries_text(b) + t);
            lemma_entries_unique(a, s, b, t);
        },
        _ => {},
    }
}

proof fn lemma_items_unique(a: Seq<Value>, s: Seq<u8>, b: Seq<Value>, t: Seq<u8>)
    requires
        items_text(a) + s == items_text(b) + t,
    ensures
        a == b,
        s == t,
    decreases a,
{
    if a.len() > 0 {
        lemma_first_byte(a[0]);
        assert((items_text(a) + s)[0] == encoding(a[0])[0]);
    }
    if b.len() > 0 {
        lemma_first_byte(b[0]);
        assert((items_text(b) + t)[0] == encoding(b[0])[0]);
    }
    if a.len() == 0 || b.len() == 0 {
        assert(a.len() == 0 ==> (items_text(a) + s)[0] == CLOSE);
        assert(b.len() == 0 ==> (items_text(b) + t)[0] == CLOSE);
        assert(a =~= b);
        assert(s =~= (items_text(a) + s).drop_first());
        assert(t =~= (items_text(b) + t).drop_first());
    } else {
        let ra = items_text(a.drop_first()) + s;
        let rb = items_text(b.drop_first()) + t;
        assert(items_text(a) + s =~= encoding(a[0]) + ra);
        assert(items_text(b) + t =~= encoding(b[0]) + rb);
        law_encoding_prefix_free(a[0], ra, b[0], rb);
        lemma_items_unique(a.drop_first(), s, b.drop_first(), t);
        assert(a =~= seq![a[0]] + a.drop_first());
        assert(b =~= seq![b[0]] + b.drop_first());
    }
}

proof fn lemma_entries_unique(
    a: Seq<(Seq<u8>, Value)>,
    s: Seq<u8>,
    b: Seq<(Seq<u8>, Value)>,
    t: Seq<u8>,
)
    requires
        entries_text(a) + s == entries_text(b) + t,
    ensures
        a == b,
        s == t,
    decreases a,
{
    if a.len() > 0 {
        lemma_first_byte(Value::Bytes(a[0].0));
        assert((entries_text(a) + s)[0] == bytes_text(a[0].0)[0]);
    }
    if b.len() > 0 {
        lemma_first_byte(Value::Bytes(b[0].0));
        assert((entries_text(b) + t)[0] == bytes_text(b[0].0)[0]);
    }
    if a.len() == 0 || b.len() == 0 {
        assert(a.len() == 0 ==> (entries_text(a) + s)[0] == CLOSE);
        assert(b.len() == 0 ==> (entries_text(b) + t)[0] == CLOSE);
        assert(a =~= b);
        assert(s =~= (entries_text(a) + s).drop_first());
        assert(t =~= (entries_text(b) + t).drop_first());
    } else {
        let ra = entries_text(a.drop_first()) + s;
        let rb = entries_text(b.drop_first()) + t;
        assert(entries_text(a) + s =~= bytes_text(a[0].0) + (encoding(a[0].1) + ra));
        assert(entries_text(b) + t =~= bytes_text(b[0].0) + (encoding(b[0].1) + rb));
        lemma_bytes_unique(a[0].0, encoding(a[0].1) + ra, b[0].0, encoding(b[0].1) + rb);
        law_encoding_prefix_free(a[0].1, ra, b[0].1, rb);
        lemma_entries_unique(a.drop_first(), s, b.drop_first(), t);
        assert(a =~= seq![a[0]] + a.drop_first());
        assert(b =~= seq![b[0]] + b.drop_first());
    }
}

/// Two values with the same encoding are the same value.
pub proof fn law_encoding_injective(v: Value, w: Value)
    requires
        encoding(v) == encoding(w),
    ensures
        v == w,
{
    law_encoding_prefix_free(v, seq![], w, seq![]);
}

/// Decoding gives back what was encoded.
pub proof fn law_decode_of_encoding(v: Value)
    requires
        canonical(v),
    ensures
        decoded(encoding(v)) == Some(v),
{
    let w = decoded(encoding(v))->0;
    law_encoding_injective(v, w);
}

/// Encoding what was decoded reproduces the bytes, one for one.
pub proof fn law_encoding_of_decoded(s: Seq<u8>)
    requires
        decoded(s) is Some,
    ensures
        canonical(decoded(s)->0),
        encoding(decoded(s)->0) == s,
{
}

/// No byte sequence comes before itself.
proof fn lemma_bytes_lt_irreflexive(a: Seq<u8>)
    ensures
        !bytes_lt(a, a),
    decreases a.len(),
{
    if a.len() > 0 {
        lemma_bytes_lt_irreflexive(a.drop_first());
    }
}

/// Under ascending keys a lookup finds every entry: the value under a key is that of the one
/// entry that has the key.
pub proof fn law_lookup_finds_each_entry(entries: Seq<(Seq<u8>, Value)>, i: int)
    requires
        keys_ascend(entries),
        0 <= i < entries.len(),
    ensures
        lookup(entries, entries[i].0) == Some(entries[i].1),
    decreases entries.len(),
{
    if i > 0 {
        assert(bytes_lt(entries[0].0, entries[i].0));
        lemma_bytes_lt_irreflexive(entries[0].0);
        let rest = entries.drop_first();
        assert forall|a: int, b: int| 0 <= a < b < rest.len() implies bytes_lt(
            #[trigger] rest[a].0,
            #[trigger] rest[b].0,
        ) by {
            assert(rest[a] == entries[a + 1] && rest[b] == entries[b + 1]);
        }
        law_lookup_finds_each_entry(rest, i - 1);
    }
}

/// A lookup finds nothing that is not there.
pub proof fn law_lookup_finds_only_entries(entries: Seq<(Seq<u8>, Value)>, key: Seq<u8>)
    requires
        lookup(entries, key) is Some,
    ensures
        entries.contains((key, lookup(entries, key)->0)),
    decreases entries.len(),
{
    if entries[0].0 == key {
        assert(entries[0] == (key, lookup(entries, key)->0));
    } else {
        let rest = entries.drop_first();
        law_lookup_finds_only_entries(rest, key);
        let j = choose|j: int| 0 <= j < rest.len() && rest[j] == (key, lookup(rest, key)->0);
        assert(entries[j + 1] == rest[j]);
    }
}

/// `part` stands in `whole` behind `before` and ahead of `after`.
pub open spec fn stands_between(
    whole: Seq<u8>,
    before: Seq<u8>,
    part: Seq<u8>,
    after: Seq<u8>,
) -> bool {
    whole == before + part + after
}

proof fn lemma_entry_span(entries: Seq<(Seq<u8>, Value)>, key: Seq<u8>) -> (r: (Seq<u8>, Seq<u8>))
    requires
        lookup(entries, key) is Some,
    ensures
        entries_text(entries) == r.0 + bytes_text(key) + encoding(lookup(entries, key)->0) + r.1,
    decreases entries.len(),
{
    let rest = entries.drop_first();
    if entries[0].0 == key {
        let r = (Seq::<u8>::empty(), entries_text(rest));
        assert(entries_text(entries) =~= r.0 + bytes_text(key) + encoding(entries[0].1) + r.1);
        r
    } else {
        let inner = lemma_entry_span(rest, key);
        let first = bytes_text(entries[0].0) + encoding(entries[0].1);
        let r = (first + inner.0, inner.1);
        assert(entries_text(entries) =~= r.0 + bytes_text(key) + encoding(lookup(rest, key)->0)
            + r.1);
        r
    }
}

/// The value under a key is written in one piece, directly behind its key, in the text of the
/// dictionary that holds it.
pub proof fn law_field_stands_in_encoding(v: Value, key: &str)
    requires
        v.field(key) is Some,
    ensures
        exists|before: Seq<u8>, after: Seq<u8>|
            stands_between(
                encoding(v),
                before,
                bytes_text(vstd::utf8::encode_utf8(key@)) + encoding(v.field(key)->0),
                after,
            ),
{
    let name = vstd::utf8::encode_utf8(key@);
    let entries = v->Dict_0;
    let r = lemma_entry_span(entries, name);
    let before = seq![DICT_OPEN] + r.0;
    let part = bytes_text(name) + encoding(v.field(key)->0);
    assert(encoding(v) =~= before + part + r.1);
    assert(stands_between(encoding(v), before, part, r.1));
}

} // verus!
