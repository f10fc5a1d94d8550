//! Reading bencode. Only canonical input is accepted, so that what was read can be written
//! again byte for byte.

use super::digits::{
    all_digits, digits, ends_digits, is_digit, lemma_digits_of_number, lemma_digits_shape,
    lemma_digits_unique, lemma_number_of_digits, number,
};
use super::grammar::{
    bytes_lt, bytes_text, canonical, canonical_items, canonical_values, decoded, encoding,
    entries_text, int_text, items_text, keys_ascend, law_decode_of_encoding,
    law_encoding_prefix_free, lemma_bytes_unique, lemma_canonical_items, lemma_canonical_values,
    lemma_first_byte, Value, CLOSE, COLON, DICT_OPEN, INT_OPEN, LIST_OPEN, MINUS,
};
use super::value::{entries_model, items_model, lemma_model, Bencode};
use vstd::prelude::*;
use vstd::slice::{slice_subrange, slice_to_vec};

verus! {

/// The bytes are not canonical bencode: no value is written by exactly these bytes.
#[derive(Debug, Clone, Copy, PartialEq, Eq)]
pub struct Error;

/// Decimal text at the start of `s` covers a run of digits at the start of `s`, all of it.
proof fn lemma_run_is_digits(s: Seq<u8>, k: int, n: nat, t: Seq<u8>)
    requires
        0 <= k <= s.len(),
        all_digits(s.take(k)),
        ends_digits(s.skip(k)),
        s == digits(n) + t,
        ends_digits(t),
    ensures
        digits(n) == s.take(k),
        n == number(s.take(k)),
{
    lemma_digits_shape(n);
    lemma_number_of_digits(n);
    let d = digits(n);
    if d.len() < k {
        assert(s[d.len() as int] == t[0]);
        assert(s.take(k)[d.len() as int] == s[d.len() as int]);
        assert(t.len() > 0);
    } else if k < d.len() {
        assert(s.skip(k)[0] == s[k]);
        assert(s[k] == d[k]);
    }
    assert(d =~= s.take(k));
}

/// Reads decimal text at `pos`, up to the first byte that is no digit. `None` where the digits
/// there are not the decimal text of a `u64`.
fn read_digits(input: &[u8], pos: usize) -> (r: Option<(u64, usize)>)
    requires
        pos <= input@.len(),
    ensures
        match r {
            Some((n, end)) => {
                &&& pos < end <= input@.len()
                &&& input@.skip(pos as int) == digits(n as nat) + input@.skip(end as int)
                &&& ends_digits(input@.skip(end as int))
            },
            None => forall|n: nat, t: Seq<u8>|
                n <= u64::MAX && ends_digits(t) ==> input@.skip(pos as int) != #[trigger] (digits(n)
                    + t),
        },
{
    let ghost s = input@.skip(pos as int);
    let mut end: usize = pos;
    let mut n: u64 = 0;
    let mut fits: bool = true;
    assert(s.take(0) =~= Seq::<u8>::empty());
    while end < input.len() && 0x30 <= input[end] && input[end] <= 0x39
        invariant
            pos <= end <= input@.len(),
            s == input@.skip(pos as int),
            all_digits(s.take(end - pos)),
            fits ==> n == number(s.take(end - pos)),
            !fits ==> number(s.take(end - pos)) > u64::MAX,
        decreases input@.len() - end,
    {
        let digit: u8 = input[end] - 0x30;
        let ghost k = (end - pos) as int;
        assert(s[k] == input@[end as int]);
        assert(s.take(k + 1) =~= s.take(k).push(s[k]));
        assert(s.take(k + 1).drop_last() =~= s.take(k));
        if fits {
            match n.checked_mul(10) {
                None => {
                    fits = false;
                },
                Some(shifted) => match shifted.checked_add(digit as u64) {
                    None => {
                        fits = false;
                    },
                    Some(sum) => {
                        n = sum;
                    },
                },
            }
        }
        end += 1;
    }
    let ghost k = (end - pos) as int;
    assert(s.skip(k) =~= input@.skip(end as int));
    assert(end < input@.len() ==> s.skip(k)[0] == input@[end as int]);
    proof {
        assert forall|m: nat, t: Seq<u8>| ends_digits(t) && s == #[trigger] (digits(m) + t) implies {
            &&& digits(m) == s.take(k)
            &&& m == number(s.take(k))
        } by {
            lemma_run_is_digits(s, k, m, t);
        }
    }
    if end == pos {
        proof {
            assert forall|m: nat, t: Seq<u8>| ends_digits(t) implies s != #[trigger] (digits(m) + t) by {
                lemma_digits_shape(m);
            }
        }
        None
    } else if !fits {
        None
    } else if end - pos > 1 && input[pos] == 0x30 {
        proof {
            assert forall|m: nat, t: Seq<u8>| ends_digits(t) implies s != #[trigger] (digits(m) + t) by {
                lemma_digits_shape(m);
                assert(s.take(k)[0] == input@[pos as int]);
                if s == digits(m) + t {
                    assert(digits(m) == s.take(k));
                    assert(digits(m)[0] == 0x30);
                    assert(digits(0).len() == 1);
                }
            }
        }
        None
    } else {
        proof {
            assert(s.take(k)[0] == input@[pos as int]);
            lemma_digits_of_number(s.take(k));
            assert(s =~= s.take(k) + s.skip(k));
        }
        Some((n, end))
    }
}

/// Reads a byte string at `pos`.
fn read_bytes(input: &[u8], pos: usize) -> (r: Option<(Vec<u8>, usize)>)
    requires
        pos <= input@.len(),
    ensures
        match r {
            Some((bytes, end)) => {
                &&& pos < end <= input@.len()
                &&& input@.skip(pos as int) == bytes_text(bytes@) + input@.skip(end as int)
            },
            None => forall|b: Seq<u8>, t: Seq<u8>|
                input@.skip(pos as int) != #[trigger] (bytes_text(b) + t),
        },
{
    let ghost s = input@.skip(pos as int);
    proof {
        assert forall|b: Seq<u8>, t: Seq<u8>| s == #[trigger] (bytes_text(b) + t) implies {
            &&& s == digits(b.len()) + (seq![COLON] + b + t)
            &&& ends_digits(seq![COLON] + b + t)
            &&& b.len() <= u64::MAX
        } by {
            assert(s =~= digits(b.len()) + (seq![COLON] + b + t));
            assert(s.len() == digits(b.len()).len() + 1 + b.len() + t.len());
            assert(s.len() <= input@.len() == input.len());
        }
    }
    let (count, colon) = match read_digits(input, pos) {
        None => {
            return None;
        },
        Some(found) => found,
    };
    proof {
        assert forall|b: Seq<u8>, t: Seq<u8>| s == #[trigger] (bytes_text(b) + t) implies {
            &&& b.len() == count
            &&& input@.skip(colon as int) == seq![COLON] + b + t
        } by {
            lemma_digits_unique(
                count as nat,
                input@.skip(colon as int),
                b.len(),
                seq![COLON] + b + t,
            );
        }
    }
    if colon >= input.len() || input[colon] != COLON {
        proof {
            assert forall|b: Seq<u8>, t: Seq<u8>| s != #[trigger] (bytes_text(b) + t) by {
                if s == bytes_text(b) + t {
                    assert(input@.skip(colon as int)[0] == COLON);
                    assert(input@.skip(colon as int).len() > 0);
                }
            }
        }
        return None;
    }
    let start: usize = colon + 1;
    if count > (input.len() - start) as u64 {
        proof {
            assert forall|b: Seq<u8>, t: Seq<u8>| s != #[trigger] (bytes_text(b) + t) by {
                if s == bytes_text(b) + t {
                    assert(input@.skip(colon as int).len() == 1 + b.len() + t.len());
                }
            }
        }
        return None;
    }
    let end: usize = start + count as usize;
    let bytes: Vec<u8> = slice_to_vec(slice_subrange(input, start, end));
    assert(input@.skip(colon as int) =~= seq![COLON] + bytes@ + input@.skip(end as int));
    assert(s =~= bytes_text(bytes@) + input@.skip(end as int));
    Some((bytes, end))
}

/// Reads an integer whose text starts at `pos`, behind the opening `i`, with its closing `e`.
fn read_int(input: &[u8], pos: usize) -> (r: Option<(i64, usize)>)
    requires
        pos <= input@.len(),
    ensures
        match r {
            Some((n, end)) => {
                &&& pos < end <= input@.len()
                &&& input@.skip(pos as int) == int_text(n as int) + (seq![CLOSE] + input@.skip(
                    end as int,
                ))
            },
            None => forall|n: i64, t: Seq<u8>|
                input@.skip(pos as int) != #[trigger] (int_text(n as int) + (seq![CLOSE] + t)),
        },
{
    let ghost s = input@.skip(pos as int);
    let negative: bool = pos < input.len() && input[pos] == MINUS;
    let start: usize = if negative {
        pos + 1
    } else {
        pos
    };
    let ghost rest = input@.skip(start as int);
    assert(negative ==> s =~= seq![MINUS] + rest);
    assert(pos < input@.len() ==> s[0] == input@[pos as int]);
    proof {
        assert forall|n: i64, t: Seq<u8>| s == #[trigger] (int_text(n as int) + (seq![CLOSE] + t)) implies {
            &&& negative == (n < 0)
            &&& rest == digits(if n < 0 { -n as nat } else { n as nat }) + (seq![CLOSE] + t)
        } by {
            let m = if n < 0 { -n as nat } else { n as nat };
            lemma_digits_shape(m);
            assert(is_digit(digits(m)[0]));
            assert(s.len() > 0);
            assert(s[0] == int_text(n as int)[0]);
            assert(n < 0 ==> rest =~= s.drop_first());
            assert(rest =~= digits(m) + (seq![CLOSE] + t));
        }
    }
    let (m, close) = match read_digits(input, start) {
        None => {
            assert(forall|t: Seq<u8>| ends_digits(#[trigger] (seq![CLOSE] + t)));
            return None;
        },
        Some(found) => found,
    };
    let ghost tail = input@.skip(close as int);
    proof {
        assert forall|n: i64, t: Seq<u8>| s == #[trigger] (int_text(n as int) + (seq![CLOSE] + t)) implies {
            &&& negative == (n < 0)
            &&& m == (if n < 0 { -n as nat } else { n as nat })
            &&& tail == seq![CLOSE] + t
        } by {
            lemma_digits_unique(
                m as nat,
                tail,
                if n < 0 { -n as nat } else { n as nat },
                seq![CLOSE] + t,
            );
        }
    }
    if close >= input.len() || input[close] != CLOSE {
        proof {
            assert forall|n: i64, t: Seq<u8>| s != #[trigger] (int_text(n as int) + (seq![CLOSE] + t)) by {
                if s == int_text(n as int) + (seq![CLOSE] + t) {
                    assert(tail[0] == CLOSE && tail.len() > 0);
                }
            }
        }
        return None;
    }
    let end: usize = close + 1;
    assert(tail =~= seq![CLOSE] + input@.skip(end as int));
    if negative {
        if m == 0 || m > 0x8000_0000_0000_0000 {
            return None;
        }
        let n: i64 = -((m - 1) as i64) - 1;
        assert(-n == m);
        assert(s =~= int_text(n as int) + tail);
        Some((n, end))
    } else {
        if m > 0x7fff_ffff_ffff_ffff {
            return None;
        }
        assert(s =~= int_text(m as int) + tail);
        Some((m as i64, end))
    }
}

/// True when `a` comes before `b` in the order of raw bytes.
fn precedes(a: &[u8], b: &[u8]) -> (r: bool)
    ensures
        r == bytes_lt(a@, b@),
{
    let mut i: usize = 0;
    assert(a@.skip(0) =~= a@);
    assert(b@.skip(0) =~= b@);
    while i < a.len() && i < b.len()
        invariant
            i <= a@.len(),
            i <= b@.len(),
            bytes_lt(a@, b@) == bytes_lt(a@.skip(i as int), b@.skip(i as int)),
        decreases a@.len() - i,
    {
        assert(a@.skip(i as int)[0] == a@[i as int]);
        assert(b@.skip(i as int)[0] == b@[i as int]);
        if a[i] != b[i] {
            return a[i] < b[i];
        }
        assert(a@.skip(i as int).drop_first() =~= a@.skip(i + 1));
        assert(b@.skip(i as int).drop_first() =~= b@.skip(i + 1));
        i += 1;
    }
    i < b.len()
}

/// The order of raw bytes is transitive.
proof fn lemma_bytes_lt_transitive(a: Seq<u8>, b: Seq<u8>, c: Seq<u8>)
    requires
        bytes_lt(a, b),
        bytes_lt(b, c),
    ensures
        bytes_lt(a, c),
    decreases a.len(),
{
    if a.len() > 0 && a[0] == b[0] && b[0] == c[0] {
        lemma_bytes_lt_transitive(a.drop_first(), b.drop_first(), c.drop_first());
    }
}

/// Reads one value at `pos`.
fn read_value(input: &[u8], pos: usize) -> (r: Option<(Bencode, usize)>)
    requires
        pos <= input@.len(),
    ensures
        match r {
            Some((value, end)) => {
                &&& pos < end <= input@.len()
                &&& canonical(value@)
                &&& input@.skip(pos as int) == encoding(value@) + input@.skip(end as int)
            },
            None => forall|v: Value, t: Seq<u8>|
                canonical(v) ==> input@.skip(pos as int) != #[trigger] (encoding(v) + t),
        },
    decreases input@.len() - pos, 0nat,
{
    let ghost s = input@.skip(pos as int);
    proof {
        assert forall|v: Value, t: Seq<u8>| s == #[trigger] (encoding(v) + t) implies {
            &&& s.len() > 0
            &&& s[0] == encoding(v)[0]
        } by {
            lemma_first_byte(v);
        }
        assert forall|v: Value| #![trigger encoding(v)] true implies {
            &&& v is Int ==> encoding(v)[0] == INT_OPEN
            &&& v is Bytes ==> is_digit(encoding(v)[0])
            &&& v is List ==> encoding(v)[0] == LIST_OPEN
            &&& v is Dict ==> encoding(v)[0] == DICT_OPEN
        } by {
            lemma_first_byte(v);
        }
    }
    if pos >= input.len() {
        return None;
    }
    let first: u8 = input[pos];
    let ghost rest = input@.skip(pos + 1);
    assert(s[0] == first);
    assert(s =~= seq![first] + rest);
    if first == INT_OPEN {
        let found = read_int(input, pos + 1);
        proof {
            assert forall|v: Value, t: Seq<u8>| s == #[trigger] (encoding(v) + t) implies {
                &&& v is Int
                &&& rest == int_text(v->Int_0 as int) + (seq![CLOSE] + t)
            } by {
                assert(rest =~= s.drop_first());
                assert(s.drop_first() =~= int_text(v->Int_0 as int) + (seq![CLOSE] + t));
            }
        }
        match found {
            None => None,
            Some((n, end)) => {
                let value = Bencode::Int(n);
                assert(s =~= encoding(value@) + input@.skip(end as int));
                Some((value, end))
            },
        }
    } else if first == LIST_OPEN {
        let found = read_items(input, pos + 1);
        proof {
            assert forall|v: Value, t: Seq<u8>| s == #[trigger] (encoding(v) + t) implies {
                &&& v is List
                &&& canonical(v) ==> canonical_items(v->List_0)
                &&& rest == items_text(v->List_0) + t
            } by {
                assert(rest =~= s.drop_first());
                assert(s.drop_first() =~= items_text(v->List_0) + t);
            }
        }
        match found {
            None => None,
            Some((items, end)) => {
                let value = Bencode::List(items);
                proof {
                    lemma_model(value);
                }
                assert(s =~= encoding(value@) + input@.skip(end as int));
                Some((value, end))
            },
        }
    } else if first == DICT_OPEN {
        let found = read_entries(input, pos + 1);
        proof {
            assert forall|v: Value, t: Seq<u8>| s == #[trigger] (encoding(v) + t) implies {
                &&& v is Dict
                &&& canonical(v) ==> canonical_entries(v->Dict_0)
                &&& rest == entries_text(v->Dict_0) + t
            } by {
                assert(rest =~= s.drop_first());
                assert(s.drop_first() =~= entries_text(v->Dict_0) + t);
            }
        }
        match found {
            None => None,
            Some((entries, end)) => {
                let value = Bencode::Dict(entries);
                proof {
                    lemma_model(value);
                }
                assert(s =~= encoding(value@) + input@.skip(end as int));
                Some((value, end))
            },
        }
    } else {
        match read_bytes(input, pos) {
            None => {
                proof {
                    assert forall|v: Value, t: Seq<u8>| s != #[trigger] (encoding(v) + t) by {
                        if s == encoding(v) + t {
                            assert(v is Bytes);
                            assert(s == bytes_text(v->Bytes_0) + t);
                        }
                    }
                }
                None
            },
            Some((bytes, end)) => Some((Bencode::Bytes(bytes), end)),
        }
    }
}

/// The entries make a canonical dictionary.
spec fn canonical_entries(entries: Seq<(Seq<u8>, Value)>) -> bool {
    keys_ascend(entries) && canonical_values(entries)
}

/// The text of the items from `k` on starts with the encoding of item `k`.
proof fn lemma_items_step(items: Seq<Value>, k: int, t: Seq<u8>)
    requires
        0 <= k < items.len(),
    ensures
        items_text(items.skip(k)) + t == encoding(items[k]) + (items_text(items.skip(k + 1)) + t),
{
    let rest = items.skip(k);
    assert(rest[0] == items[k]);
    assert(rest.drop_first() =~= items.skip(k + 1));
    assert(items_text(rest) + t =~= encoding(items[k]) + (items_text(items.skip(k + 1)) + t));
}

/// The text of the entries from `k` on starts with the key and the value of entry `k`.
proof fn lemma_entries_step(entries: Seq<(Seq<u8>, Value)>, k: int, t: Seq<u8>)
    requires
        0 <= k < entries.len(),
    ensures
        entries_text(entries.skip(k)) + t == bytes_text(entries[k].0) + (encoding(entries[k].1) + (
        entries_text(entries.skip(k + 1)) + t)),
{
    let rest = entries.skip(k);
    assert(rest[0] == entries[k]);
    assert(rest.drop_first() =~= entries.skip(k + 1));
    assert(entries_text(rest) + t =~= bytes_text(entries[k].0) + (encoding(entries[k].1) + (
    entries_text(entries.skip(k + 1)) + t)));
}

/// Reads the items of a list from `pos` on, with the closing `e`.
fn read_items(input: &[u8], pos: usize) -> (r: Option<(Vec<Bencode>, usize)>)
    requires
        pos <= input@.len(),
    ensures
        match r {
            Some((items, end)) => {
                &&& pos < end <= input@.len()
                &&& canonical_items(items_model(items@))
                &&& input@.skip(pos as int) == items_text(items_model(items@)) + input@.skip(
                    end as int,
                )
            },
            None => forall|items: Seq<Value>, t: Seq<u8>|
                canonical_items(items) ==> input@.skip(pos as int) != #[trigger] (items_text(items)
                    + t),
        },
    decreases input@.len() - pos, 1nat,
{
    let ghost s = input@.skip(pos as int);
    let mut items: Vec<Bencode> = Vec::new();
    let mut cur: usize = pos;
    proof {
        assert forall|more: Seq<Value>, t: Seq<u8>| s == #[trigger] (items_text(more) + t) implies s
            == items_text(items_model(items@) + more) + t by {
            assert(items_model(items@) + more =~= more);
        }
        assert forall|ws: Seq<Value>, t: Seq<u8>| s == #[trigger] (items_text(ws) + t) implies {
            &&& ws.len() >= 0
            &&& ws.take(0) == items_model(items@)
            &&& s == items_text(ws.skip(0)) + t
        } by {
            assert(ws.take(0) =~= items_model(items@));
            assert(ws.skip(0) =~= ws);
        }
    }
    while cur < input.len()
        invariant
            pos <= cur <= input@.len(),
            s == input@.skip(pos as int),
            canonical_items(items_model(items@)),
            forall|more: Seq<Value>, t: Seq<u8>|
                input@.skip(cur as int) == #[trigger] (items_text(more) + t) ==> s == items_text(
                    items_model(items@) + more,
                ) + t,
            forall|ws: Seq<Value>, t: Seq<u8>|
                canonical_items(ws) && s == #[trigger] (items_text(ws) + t) ==> {
                    &&& ws.len() >= items@.len()
                    &&& ws.take(items@.len() as int) == items_model(items@)
                    &&& input@.skip(cur as int) == items_text(ws.skip(items@.len() as int)) + t
                },
        decreases input@.len() - cur,
    {
        let ghost read = items_model(items@);
        let ghost k = items@.len() as int;
        let ghost here = input@.skip(cur as int);
        assert(here[0] == input@[cur as int]);
        if input[cur] == CLOSE {
            let end: usize = cur + 1;
            proof {
                let none = Seq::<Value>::empty();
                assert(here =~= items_text(none) + input@.skip(end as int));
                assert(read + none =~= read);
            }
            return Some((items, end));
        }
        match read_value(input, cur) {
            None => {
                proof {
                    assert forall|ws: Seq<Value>, t: Seq<u8>| canonical_items(ws) implies s
                        != #[trigger] (items_text(ws) + t) by {
                        if s == items_text(ws) + t {
                            if ws.len() > k {
                                lemma_items_step(ws, k, t);
                                lemma_canonical_items(ws);
                                assert(canonical(ws[k]));
                            } else {
                                assert(ws.skip(k).len() == 0);
                            }
                        }
                    }
                }
                return None;
            },
            Some((value, end)) => {
                let ghost v = value@;
                items.push(value);
                proof {
                    assert(items_model(items@) =~= read.push(v));
                    lemma_canonical_items(read);
                    lemma_canonical_items(read.push(v));
                    assert forall|more: Seq<Value>, t: Seq<u8>| input@.skip(end as int)
                        == #[trigger] (items_text(more) + t) implies s == items_text(
                        items_model(items@) + more,
                    ) + t by {
                        let longer = seq![v] + more;
                        assert(longer.drop_first() =~= more);
                        assert(here =~= items_text(longer) + t);
                        assert(read + longer =~= read.push(v) + more);
                    }
                    assert forall|ws: Seq<Value>, t: Seq<u8>| canonical_items(ws) && s
                        == #[trigger] (items_text(ws) + t) implies {
                        &&& ws.len() >= k + 1
                        &&& ws.take(k + 1) == items_model(items@)
                        &&& input@.skip(end as int) == items_text(ws.skip(k + 1)) + t
                    } by {
                        if ws.len() > k {
                            lemma_items_step(ws, k, t);
                            law_encoding_prefix_free(
                                v,
                                input@.skip(end as int),
                                ws[k],
                                items_text(ws.skip(k + 1)) + t,
                            );
                            assert(ws.take(k + 1) =~= ws.take(k).push(ws[k]));
                        } else {
                            assert(ws.skip(k).len() == 0);
                        }
                    }
                }
                cur = end;
            },
        }
    }
    proof {
        assert forall|ws: Seq<Value>, t: Seq<u8>| canonical_items(ws) implies s != #[trigger] (
        items_text(ws) + t) by {
            if s == items_text(ws) + t {
                let k = items@.len() as int;
                if ws.len() > k {
                    lemma_items_step(ws, k, t);
                    lemma_first_byte(ws[k]);
                } else {
                    assert(ws.skip(k).len() == 0);
                }
                assert(input@.skip(cur as int).len() == 0);
            }
        }
    }
    None
}

/// Reads the entries of a dictionary from `pos` on, with the closing `e`.
fn read_entries(input: &[u8], pos: usize) -> (r: Option<(Vec<(Vec<u8>, Bencode)>, usize)>)
    requires
        pos <= input@.len(),
    ensures
        match r {
            Some((entries, end)) => {
                &&& pos < end <= input@.len()
                &&& canonical_entries(entries_model(entries@))
                &&& input@.skip(pos as int) == entries_text(entries_model(entries@)) + input@.skip(
                    end as int,
                )
            },
            None => forall|entries: Seq<(Seq<u8>, Value)>, t: Seq<u8>|
                canonical_entries(entries) ==> input@.skip(pos as int) != #[trigger] (entries_text(
                    entries,
                ) + t),
        },
    decreases input@.len() - pos, 1nat,
{
    let ghost s = input@.skip(pos as int);
    let mut entries: Vec<(Vec<u8>, Bencode)> = Vec::new();
    let mut cur: usize = pos;
    proof {
        assert forall|more: Seq<(Seq<u8>, Value)>, t: Seq<u8>| s == #[trigger] (entries_text(more)
            + t) implies s == entries_text(entries_model(entries@) + more) + t by {
            assert(entries_model(entries@) + more =~= more);
        }
        assert forall|ws: Seq<(Seq<u8>, Value)>, t: Seq<u8>| s == #[trigger] (entries_text(ws)
            + t) implies {
            &&& ws.len() >= 0
            &&& ws.take(0) == entries_model(entries@)
            &&& s == entries_text(ws.skip(0)) + t
        } by {
            assert(ws.take(0) =~= entries_model(entries@));
            assert(ws.skip(0) =~= ws);
        }
    }
    while cur < input.len()
        invariant
            pos <= cur <= input@.len(),
            s == input@.skip(pos as int),
            canonical_entries(entries_model(entries@)),
            forall|more: Seq<(Seq<u8>, Value)>, t: Seq<u8>|
                input@.skip(cur as int) == #[trigger] (entries_text(more) + t) ==> s
                    == entries_text(entries_model(entries@) + more) + t,
            forall|ws: Seq<(Seq<u8>, Value)>, t: Seq<u8>|
                canonical_entries(ws) && s == #[trigger] (entries_text(ws) + t) ==> {
                    &&& ws.len() >= entries@.len()
                    &&& ws.take(entries@.len() as int) == entries_model(entries@)
                    &&& input@.skip(cur as int) == entries_text(ws.skip(entries@.len() as int)) + t
                },
        decreases input@.len() - cur,
    {
        let ghost read = entries_model(entries@);
        let ghost k = entries@.len() as int;
        let ghost here = input@.skip(cur as int);
        assert(here[0] == input@[cur as int]);
        if input[cur] == CLOSE {
            let end: usize = cur + 1;
            proof {
                let none = Seq::<(Seq<u8>, Value)>::empty();
                assert(here =~= entries_text(none) + input@.skip(end as int));
                assert(read + none =~= read);
            }
            return Some((entries, end));
        }
        proof {
            assert forall|ws: Seq<(Seq<u8>, Value)>, t: Seq<u8>| canonical_entries(ws) && s
                == #[trigger] (entries_text(ws) + t) implies {
                &&& ws.len() > k
                &&& here == bytes_text(ws[k].0) + (encoding(ws[k].1) + (entries_text(ws.skip(k + 1))
                    + t))
            } by {
                if ws.len() > k {
                    lemma_entries_step(ws, k, t);
                } else {
                    assert(ws.skip(k).len() == 0);
                }
            }
        }
        let (key, middle) = match read_bytes(input, cur) {
            None => {
                return None;
            },
            Some(found) => found,
        };
        proof {
            assert forall|ws: Seq<(Seq<u8>, Value)>, t: Seq<u8>| canonical_entries(ws) && s
                == #[trigger] (entries_text(ws) + t) implies {
                &&& ws.len() > k
                &&& ws[k].0 == key@
                &&& input@.skip(middle as int) == encoding(ws[k].1) + (entries_text(ws.skip(k + 1))
                    + t)
            } by {
                lemma_bytes_unique(
                    key@,
                    input@.skip(middle as int),
                    ws[k].0,
                    encoding(ws[k].1) + (entries_text(ws.skip(k + 1)) + t),
                );
            }
        }
        if entries.len() > 0 && !precedes(
            entries[entries.len() - 1].0.as_slice(),
            key.as_slice(),
        ) {
            proof {
                assert forall|ws: Seq<(Seq<u8>, Value)>, t: Seq<u8>| canonical_entries(ws) implies s
                    != #[trigger] (entries_text(ws) + t) by {
                    if s == entries_text(ws) + t {
                        assert(ws.take(k)[k - 1] == read[k - 1]);
                        assert(bytes_lt(ws[k - 1].0, ws[k].0));
                    }
                }
            }
            return None;
        }
        match read_value(input, middle) {
            None => {
                proof {
                    assert forall|ws: Seq<(Seq<u8>, Value)>, t: Seq<u8>| canonical_entries(
                        ws,
                    ) implies s != #[trigger] (entries_text(ws) + t) by {
                        if s == entries_text(ws) + t {
                            lemma_canonical_values(ws);
                            assert(canonical(ws[k].1));
                        }
                    }
                }
                return None;
            },
            Some((value, end)) => {
                let ghost entry = (key@, value@);
                proof {
                    assert forall|more: Seq<(Seq<u8>, Value)>, t: Seq<u8>| input@.skip(end as int)
                        == #[trigger] (entries_text(more) + t) implies s == entries_text(
                        read.push(entry) + more,
                    ) + t by {
                        let longer = seq![entry] + more;
                        assert(longer.drop_first() =~= more);
                        assert(here =~= entries_text(longer) + t);
                        assert(read + longer =~= read.push(entry) + more);
                    }
                    assert forall|ws: Seq<(Seq<u8>, Value)>, t: Seq<u8>| canonical_entries(ws) && s
                        == #[trigger] (entries_text(ws) + t) implies {
                        &&& ws.len() >= k + 1
                        &&& ws.take(k + 1) == read.push(entry)
                        &&& input@.skip(end as int) == entries_text(ws.skip(k + 1)) + t
                    } by {
                        law_encoding_prefix_free(
                            value@,
                            input@.skip(end as int),
                            ws[k].1,
                            entries_text(ws.skip(k + 1)) + t,
                        );
                        assert(ws.take(k + 1) =~= ws.take(k).push(ws[k]));
                    }
                    lemma_entries_push(read, entry);
                }
                entries.push((key, value));
                assert(entries_model(entries@) =~= read.push(entry));
                cur = end;
            },
        }
    }
    proof {
        assert forall|ws: Seq<(Seq<u8>, Value)>, t: Seq<u8>| canonical_entries(ws) implies s
            != #[trigger] (entries_text(ws) + t) by {
            if s == entries_text(ws) + t {
                let k = entries@.len() as int;
                if ws.len() > k {
                    lemma_entries_step(ws, k, t);
                    lemma_digits_shape(ws[k].0.len());
                } else {
                    assert(ws.skip(k).len() == 0);
                }
                assert(input@.skip(cur as int).len() == 0);
            }
        }
    }
    None
}

/// Entries stay canonical under an entry whose key comes after the last one.
proof fn lemma_entries_push(entries: Seq<(Seq<u8>, Value)>, entry: (Seq<u8>, Value))
    requires
        canonical_entries(entries),
        canonical(entry.1),
        entries.len() > 0 ==> bytes_lt(entries.last().0, entry.0),
    ensures
        canonical_entries(entries.push(entry)),
{
    let more = entries.push(entry);
    assert forall|i: int, j: int| 0 <= i < j < more.len() implies bytes_lt(
        #[trigger] more[i].0,
        #[trigger] more[j].0,
    ) by {
        if j == entries.len() && i < entries.len() - 1 {
            assert(bytes_lt(entries[i].0, entries[entries.len() - 1].0));
            lemma_bytes_lt_transitive(entries[i].0, entries.last().0, entry.0);
        } else if j < entries.len() {
            assert(bytes_lt(entries[i].0, entries[j].0));
        }
    }
    lemma_canonical_values(entries);
    lemma_canonical_values(more);
    assert forall|i: int| 0 <= i < more.len() implies canonical((#[trigger] more[i]).1) by {
        if i < entries.len() {
            assert(more[i] == entries[i]);
        }
    }
}

/// Reads the canonical value that `input` writes, all of it.
///
/// # Errors
/// [`Error`] where `input` is not the encoding of any canonical value.
pub fn parse(input: &[u8]) -> (r: Result<Bencode, Error>)
    ensures
        match r {
            Ok(value) => value.wf() && decoded(input@) == Some(value@),
            Err(_) => decoded(input@) is None,
        },
{
    let ghost s = input@;
    assert(s.skip(0) =~= s);
    proof {
        assert forall|v: Value| #[trigger] encoding(v) == s implies s == encoding(v) + Seq::<
            u8,
        >::empty() by {
            assert(encoding(v) =~= encoding(v) + Seq::<u8>::empty());
        }
    }
    match read_value(input, 0) {
        None => Err(Error),
        Some((value, end)) => {
            if end == input.len() {
                assert(s.skip(end as int) =~= Seq::<u8>::empty());
                assert(s =~= encoding(value@));
                proof {
                    law_decode_of_encoding(value@);
                }
                Ok(value)
            } else {
                proof {
                    assert forall|v: Value| #[trigger] encoding(v) != s by {
                        if encoding(v) == s {
                            law_encoding_prefix_free(
                                value@,
                                s.skip(end as int),
                                v,
                                Seq::<u8>::empty(),
                            );
                        }
                    }
                }
                Err(Error)
            }
        },
    }
}

} // verus!
