//! The wire format, byte by byte: what the encoding of each kind of value looks like, which
//! dictionaries are canonical, and what the questions asked of a value answer.

use super::digits::{digits, lemma_digits_shape, lemma_number_of_digits, number};
use super::grammar::{
    bytes_lt, bytes_text, canonical, encoding, entries_text, int_text, items_text, keys_ascend,
    lemma_canonical_items, lemma_canonical_values, lookup, Value,
};
use super::value::{entries_model, items_model, Bencode};
use vstd::prelude::*;

verus! {

/// A number read digit by digit, most significant first, is the number that the digits write.
proof fn lemma_fold_is_number(s: Seq<u8>, f: spec_fn(int, u8) -> int)
    requires
        forall|i: int| 0 <= i < s.len() ==> 0x30 <= #[trigger] s[i] <= 0x39,
        forall|acc: int, b: u8| #[trigger] f(acc, b) == 10 * acc + (b - 0x30),
    ensures
        s.fold_left(0int, f) == number(s),
    decreases s.len(),
{
    if s.len() > 0 {
        let init = s.drop_last();
        assert forall|i: int| 0 <= i < init.len() implies 0x30 <= #[trigger] init[i] <= 0x39 by {
            assert(init[i] == s[i]);
        }
        lemma_fold_is_number(init, f);
    }
}

/// Decimal text reads back as the number, and only zero starts with a zero.
proof fn lemma_digits_read_back(n: nat, f: spec_fn(int, u8) -> int)
    requires
        forall|acc: int, b: u8| #[trigger] f(acc, b) == 10 * acc + (b - 0x30),
    ensures
        digits(n).len() >= 1,
        forall|i: int| 0 <= i < digits(n).len() ==> 0x30 <= #[trigger] digits(n)[i] <= 0x39,
        digits(n)[0] == 0x30 ==> n == 0 && digits(n).len() == 1,
        digits(n).fold_left(0int, f) == n,
{
    lemma_digits_shape(n);
    lemma_number_of_digits(n);
    assert forall|i: int| 0 <= i < digits(n).len() implies 0x30 <= #[trigger] digits(n)[i]
        <= 0x39 by {}
    lemma_fold_is_number(digits(n), f);
}

/// An integer is written between `i` and `e`, a negative one with a `-` first, in decimal digits
/// without a superfluous zero that read back as the integer.
pub proof fn law_integer_is_written_in_decimal(n: i64, text: Seq<u8>, decimal: Seq<u8>)
    requires
        text == encoding(Value::Int(n)),
        n < 0 ==> decimal == text.subrange(2, text.len() - 1),
        n >= 0 ==> decimal == text.subrange(1, text.len() - 1),
    ensures
        text.len() >= 3,
        text[0] == 0x69,
        text.last() == 0x65,
        n < 0 ==> text[1] == 0x2d,
        decimal.len() >= 1,
        forall|i: int| 0 <= i < decimal.len() ==> 0x30 <= #[trigger] decimal[i] <= 0x39,
        decimal[0] == 0x30 ==> n == 0 && decimal.len() == 1,
        n < 0 ==> decimal.fold_left(0int, |acc: int, b: u8| 10 * acc + (b - 0x30)) == -n,
        n >= 0 ==> decimal.fold_left(0int, |acc: int, b: u8| 10 * acc + (b - 0x30)) == n,
{
    let size: nat = if n < 0 { (-n) as nat } else { n as nat };
    lemma_digits_read_back(size, |acc: int, b: u8| 10 * acc + (b - 0x30));
    assert(text == seq![0x69u8] + int_text(n as int) + seq![0x65u8]);
    assert(decimal =~= digits(size));
}

/// A byte string is written as its length in decimal digits without a superfluous zero, a `:`,
/// and its bytes.
pub proof fn law_byte_string_is_written_with_its_length(b: Seq<u8>, text: Seq<u8>)
    requires
        text == encoding(Value::Bytes(b)),
    ensures
        text.len() >= b.len() + 2,
        text.skip(text.len() - b.len()) == b,
        text[text.len() - b.len() - 1] == 0x3a,
        ({
            let decimal = text.take(text.len() - b.len() - 1);
            &&& forall|i: int| 0 <= i < decimal.len() ==> 0x30 <= #[trigger] decimal[i] <= 0x39
            &&& decimal[0] == 0x30 ==> b.len() == 0 && decimal.len() == 1
            &&& decimal.fold_left(0int, |acc: int, b: u8| 10 * acc + (b - 0x30)) == b.len()
        }),
{
    lemma_digits_read_back(b.len(), |acc: int, b: u8| 10 * acc + (b - 0x30));
    assert(text == digits(b.len()) + seq![0x3au8] + b);
    assert(text.skip(text.len() - b.len()) =~= b);
    assert(text.take(text.len() - b.len() - 1) =~= digits(b.len()));
}

proof fn lemma_items_text_is_flat(items: Seq<Value>, f: spec_fn(Value) -> Seq<u8>)
    requires
        forall|v: Value| #[trigger] f(v) == encoding(v),
    ensures
        items_text(items) == items.map_values(f).flatten() + seq![0x65u8],
    decreases items.len(),
{
    let texts = items.map_values(f);
    if items.len() == 0 {
        assert(items_text(items) =~= texts.flatten() + seq![0x65u8]);
    } else {
        let rest = items.drop_first();
        lemma_items_text_is_flat(rest, f);
        assert(texts.drop_first() =~= rest.map_values(f));
        assert(texts.first() == encoding(items[0]));
        assert(items_text(items) =~= texts.flatten() + seq![0x65u8]);
    }
}

/// A list is written as its items one after the other, in order, between `l` and `e`.
pub proof fn law_list_is_written_item_by_item(items: Seq<Value>)
    ensures
        encoding(Value::List(items)) == seq![0x6cu8] + items.map_values(
            |v: Value| encoding(v),
        ).flatten() + seq![0x65u8],
{
    let f = |v: Value| encoding(v);
    lemma_items_text_is_flat(items, f);
    assert(encoding(Value::List(items)) =~= seq![0x6cu8] + items.map_values(f).flatten()
        + seq![0x65u8]);
}

proof fn lemma_entries_text_is_flat(
    entries: Seq<(Seq<u8>, Value)>,
    f: spec_fn((Seq<u8>, Value)) -> Seq<u8>,
)
    requires
        forall|e: (Seq<u8>, Value)| #[trigger] f(e) == encoding(Value::Bytes(e.0)) + encoding(e.1),
    ensures
        entries_text(entries) == entries.map_values(f).flatten() + seq![0x65u8],
    decreases entries.len(),
{
    let texts = entries.map_values(f);
    if entries.len() == 0 {
        assert(entries_text(entries) =~= texts.flatten() + seq![0x65u8]);
    } else {
        let rest = entries.drop_first();
        lemma_entries_text_is_flat(rest, f);
        assert(texts.drop_first() =~= rest.map_values(f));
        assert(texts.first() == f(entries[0]));
        assert(encoding(Value::Bytes(entries[0].0)) == bytes_text(entries[0].0));
        assert(entries_text(entries) =~= texts.flatten() + seq![0x65u8]);
    }
}

/// A dictionary is written as its entries one after the other, in order, between `d` and `e`:
/// of each entry first the key, as a byte string, and then the value.
pub proof fn law_dictionary_is_written_entry_by_entry(entries: Seq<(Seq<u8>, Value)>)
    ensures
        encoding(Value::Dict(entries)) == seq![0x64u8] + entries.map_values(
            |e: (Seq<u8>, Value)| encoding(Value::Bytes(e.0)) + encoding(e.1),
        ).flatten() + seq![0x65u8],
{
    let f = |e: (Seq<u8>, Value)| encoding(Value::Bytes(e.0)) + encoding(e.1);
    lemma_entries_text_is_flat(entries, f);
    assert(encoding(Value::Dict(entries)) =~= seq![0x64u8] + entries.map_values(f).flatten()
        + seq![0x65u8]);
}

/// One byte string comes before another exactly where, behind a common beginning, it ends or
/// goes on with the smaller byte.
pub proof fn law_byte_order_is_decided_where_two_strings_part(a: Seq<u8>, b: Seq<u8>)
    ensures
        bytes_lt(a, b) <==> exists|k: int|
            0 <= k <= a.len() && k < b.len() && #[trigger] a.take(k) == b.take(k) && (k == a.len()
                || a[k] < b[k]),
    decreases a.len(),
{
    if b.len() == 0 {
    } else if a.len() == 0 {
        assert(a.take(0) =~= b.take(0));
    } else if a[0] != b[0] {
        assert(a.take(0) =~= b.take(0));
        assert forall|k: int|
            0 < k <= a.len() && k < b.len() implies #[trigger] a.take(k) != b.take(k) by {
            assert(a.take(k)[0] == a[0] && b.take(k)[0] == b[0]);
        }
    } else {
        let p = a.drop_first();
        let q = b.drop_first();
        law_byte_order_is_decided_where_two_strings_part(p, q);
        if bytes_lt(p, q) {
            let k = choose|k: int|
                0 <= k <= p.len() && k < q.len() && #[trigger] p.take(k) == q.take(k) && (k
                    == p.len() || p[k] < q[k]);
            assert(a.take(k + 1) =~= seq![a[0]] + p.take(k));
            assert(b.take(k + 1) =~= seq![b[0]] + q.take(k));
        }
        if exists|k: int|
            0 <= k <= a.len() && k < b.len() && #[trigger] a.take(k) == b.take(k) && (k == a.len()
                || a[k] < b[k]) {
            let k = choose|k: int|
                0 <= k <= a.len() && k < b.len() && #[trigger] a.take(k) == b.take(k) && (k
                    == a.len() || a[k] < b[k]);
            assert(k > 0);
            assert(p.take(k - 1) =~= a.take(k).drop_first());
            assert(q.take(k - 1) =~= b.take(k).drop_first());
        }
    }
}

/// Integers and byte strings are canonical, and a list is where all its items are.
pub proof fn law_canonical_list_has_canonical_items(n: i64, b: Seq<u8>, items: Seq<Value>)
    ensures
        canonical(Value::Int(n)),
        canonical(Value::Bytes(b)),
        canonical(Value::List(items)) <==> forall|i: int|
            0 <= i < items.len() ==> canonical(#[trigger] items[i]),
{
    lemma_canonical_items(items);
}

/// A canonical dictionary has canonical values and sorted keys: of any two keys the earlier one,
/// behind a common beginning, ends or goes on with the smaller byte.
pub proof fn law_canonical_dictionary_is_sorted(entries: Seq<(Seq<u8>, Value)>, i: int, j: int)
    requires
        canonical(Value::Dict(entries)),
        0 <= i < entries.len(),
    ensures
        canonical(entries[i].1),
        i < j < entries.len() ==> exists|k: int|
            0 <= k <= entries[i].0.len() && k < entries[j].0.len() && #[trigger] entries[i].0.take(
                k,
            ) == entries[j].0.take(k) && (k == entries[i].0.len() || entries[i].0[k]
                < entries[j].0[k]),
{
    lemma_canonical_values(entries);
    if i < j < entries.len() {
        assert(bytes_lt(entries[i].0, entries[j].0));
        law_byte_order_is_decided_where_two_strings_part(entries[i].0, entries[j].0);
    }
}

/// A dictionary with canonical values and sorted keys is canonical.
pub proof fn law_sorted_dictionary_is_canonical(entries: Seq<(Seq<u8>, Value)>)
    requires
        forall|i: int| 0 <= i < entries.len() ==> canonical((#[trigger] entries[i]).1),
        forall|i: int, j: int|
            0 <= i < j < entries.len() ==> exists|k: int|
                0 <= k <= (#[trigger] entries[i]).0.len() && k < (#[trigger] entries[j]).0.len()
                    && #[trigger] entries[i].0.take(k) == entries[j].0.take(k) && (k
                    == entries[i].0.len() || entries[i].0[k] < entries[j].0[k]),
    ensures
        canonical(Value::Dict(entries)),
{
    lemma_canonical_values(entries);
    assert forall|i: int, j: int| 0 <= i < j < entries.len() implies bytes_lt(
        #[trigger] entries[i].0,
        #[trigger] entries[j].0,
    ) by {
        law_byte_order_is_decided_where_two_strings_part(entries[i].0, entries[j].0);
    }
}

proof fn lemma_lookup_is_of_the_first_entry(
    entries: Seq<(Seq<u8>, Value)>,
    key: Seq<u8>,
    i: int,
)
    requires
        0 <= i <= entries.len(),
        forall|k: int| 0 <= k < i ==> (#[trigger] entries[k]).0 != key,
        i < entries.len() ==> entries[i].0 == key,
    ensures
        lookup(entries, key) == if i < entries.len() {
            Some(entries[i].1)
        } else {
            None
        },
    decreases entries.len(),
{
    if i > 0 {
        assert(entries[0].0 != key);
        let rest = entries.drop_first();
        assert forall|k: int| 0 <= k < i - 1 implies (#[trigger] rest[k]).0 != key by {
            assert(rest[k] == entries[k + 1]);
        }
        lemma_lookup_is_of_the_first_entry(rest, key, i - 1);
    }
}

/// The field of a dictionary is the value of the first entry whose key is that of the field in
/// UTF-8; where no entry has the key, and in what is no dictionary, there is none.
pub proof fn law_field_is_the_first_entry_with_its_key(v: Value, key: &str)
    ensures
        !(v is Dict) ==> v.field(key) is None,
        v matches Value::Dict(entries) ==> ((forall|k: int|
            0 <= k < entries.len() ==> (#[trigger] entries[k]).0 != vstd::utf8::encode_utf8(key@))
            ==> v.field(key) is None),
        v matches Value::Dict(entries) ==> forall|i: int|
            0 <= i < entries.len() && (#[trigger] entries[i]).0 == vstd::utf8::encode_utf8(key@)
                && (forall|k: int|
                0 <= k < i ==> (#[trigger] entries[k]).0 != vstd::utf8::encode_utf8(key@))
                ==> v.field(key) == Some(entries[i].1),
{
    if let Value::Dict(entries) = v {
        let name = vstd::utf8::encode_utf8(key@);
        if forall|k: int| 0 <= k < entries.len() ==> (#[trigger] entries[k]).0 != name {
            lemma_lookup_is_of_the_first_entry(entries, name, entries.len() as int);
        }
        assert forall|i: int|
            0 <= i < entries.len() && (#[trigger] entries[i]).0 == name && (forall|k: int|
                0 <= k < i ==> (#[trigger] entries[k]).0 != name) implies v.field(key) == Some(
            entries[i].1,
        ) by {
            lemma_lookup_is_of_the_first_entry(entries, name, i);
        }
    }
}

/// In a canonical dictionary the value under a key is the one that stands beside the key.
pub proof fn law_field_of_canonical_dictionary(v: Value, key: &str, w: Value)
    requires
        canonical(v),
    ensures
        v.field(key) == Some(w) <==> (v matches Value::Dict(entries) && entries.contains(
            (vstd::utf8::encode_utf8(key@), w),
        )),
{
    if let Value::Dict(entries) = v {
        let name = vstd::utf8::encode_utf8(key@);
        if v.field(key) == Some(w) {
            super::grammar::law_lookup_finds_only_entries(entries, name);
        }
        if entries.contains((name, w)) {
            let i = choose|i: int| 0 <= i < entries.len() && entries[i] == (name, w);
            assert(keys_ascend(entries));
            super::grammar::law_lookup_finds_each_entry(entries, i);
        }
    }
}

/// A value answers the question for an integer, for bytes, for text or for a list exactly where
/// it is one, with what it holds. Text is a byte string that writes it in UTF-8.
pub proof fn law_value_answers_what_it_holds(v: Value)
    ensures
        v matches Value::Int(n) ==> v.as_int() == Some(n),
        !(v is Int) ==> v.as_int() is None,
        v matches Value::Bytes(b) ==> v.as_bytes() == Some(b),
        !(v is Bytes) ==> v.as_bytes() is None,
        forall|t: Seq<char>|
            v.as_text() == Some(t) <==> v == Value::Bytes(#[trigger] vstd::utf8::encode_utf8(t)),
        v matches Value::List(items) ==> v.as_list() == Some(items),
        !(v is List) ==> v.as_list() is None,
{
    broadcast use {
        vstd::utf8::encode_utf8_valid_utf8,
        vstd::utf8::encode_utf8_decode_utf8,
        vstd::utf8::decode_utf8_encode_utf8,
    };

    if let Some(t) = v.as_text() {
        vstd::utf8::decode_utf8_encode_utf8(v->Bytes_0);
    }
}

/// A value stands for the mathematical value of the same kind with the same contents, in the
/// same order, at every depth.
pub proof fn law_model_keeps_the_contents(b: Bencode)
    ensures
        b matches Bencode::Int(n) ==> b@ == Value::Int(n),
        b matches Bencode::Bytes(bytes) ==> b@ == Value::Bytes(bytes@),
        b matches Bencode::List(items) ==> (b@ matches Value::List(models) && models.len()
            == items@.len() && forall|i: int|
            0 <= i < items@.len() ==> #[trigger] models[i] == items@[i]@),
        b matches Bencode::Dict(entries) ==> (b@ matches Value::Dict(models) && models.len()
            == entries@.len() && forall|i: int|
            0 <= i < entries@.len() ==> #[trigger] models[i] == (
                entries@[i].0@,
                entries@[i].1@,
            )),
{
}

/// The models of items and entries are theirs one for one.
pub proof fn law_models_are_one_for_one(items: Seq<Bencode>, entries: Seq<(Vec<u8>, Bencode)>)
    ensures
        items_model(items).len() == items.len(),
        forall|i: int| 0 <= i < items.len() ==> #[trigger] items_model(items)[i] == items[i]@,
        entries_model(entries).len() == entries.len(),
        forall|i: int|
            0 <= i < entries.len() ==> #[trigger] entries_model(entries)[i] == (
                entries[i].0@,
                entries[i].1@,
            ),
{
}

} // verus!
