//! Writing bencode.

use super::digits::digits;
use super::grammar::{
    bytes_text, encoding, entries_text, items_text, CLOSE, COLON, DICT_OPEN, INT_OPEN, LIST_OPEN,
    MINUS,
};
use super::value::{entries_model, items_model, lemma_model, Bencode};
use vstd::prelude::*;

verus! {

/// Appends `n` in decimal.
fn write_digits(n: u64, out: &mut Vec<u8>)
    ensures
        final(out)@ == old(out)@ + digits(n as nat),
    decreases n,
{
    if n >= 10 {
        write_digits(n / 10, out);
    }
    out.push(0x30 + (n % 10) as u8);
}

/// Appends a byte string: its length, a colon, its bytes.
fn write_bytes(bytes: &Vec<u8>, out: &mut Vec<u8>)
    ensures
        final(out)@ == old(out)@ + bytes_text(bytes@),
{
    write_digits(bytes.len() as u64, out);
    out.push(COLON);
    let ghost head = out@;
    let mut i: usize = 0;
    while i < bytes.len()
        invariant
            i <= bytes@.len(),
            out@ == head + bytes@.take(i as int),
        decreases bytes@.len() - i,
    {
        out.push(bytes[i]);
        i += 1;
        assert(bytes@.take(i as int) =~= bytes@.take(i - 1).push(bytes@[i - 1]));
    }
    assert(bytes@.take(i as int) =~= bytes@);
}

/// Appends the encoding of `value`.
fn write_value(value: &Bencode, out: &mut Vec<u8>)
    ensures
        final(out)@ == old(out)@ + encoding(value@),
    decreases value,
{
    let ghost before = out@;
    proof {
        lemma_model(*value);
    }
    match value {
        Bencode::Int(n) => {
            out.push(INT_OPEN);
            if *n < 0 {
                out.push(MINUS);
                write_digits((-(*n + 1)) as u64 + 1, out);
            } else {
                write_digits(*n as u64, out);
            }
            out.push(CLOSE);
            assert(out@ =~= before + encoding(value@));
        },
        Bencode::Bytes(bytes) => {
            write_bytes(bytes, out);
        },
        Bencode::List(items) => {
            let ghost all = items_model(items@);
            out.push(LIST_OPEN);
            let mut i: usize = 0;
            assert(all.skip(0) =~= all);
            while i < items.len()
                invariant
                    *value == Bencode::List(*items),
                    i <= items@.len(),
                    all == items_model(items@),
                    out@ + items_text(all.skip(i as int)) == before + encoding(value@),
                decreases items@.len() - i,
            {
                let ghost rest = all.skip(i as int);
                assert(rest[0] == items@[i as int]@);
                assert(rest.drop_first() =~= all.skip(i + 1));
                let ghost head = out@;
                assert(decreases_to!(value => items@[i as int]));
                write_value(&items[i], out);
                assert(out@ + items_text(all.skip(i + 1)) =~= head + items_text(rest));
                i += 1;
            }
            assert(all.skip(i as int).len() == 0);
            out.push(CLOSE);
            assert(out@ =~= before + encoding(value@));
        },
        Bencode::Dict(entries) => {
            let ghost all = entries_model(entries@);
            out.push(DICT_OPEN);
            let mut i: usize = 0;
            assert(all.skip(0) =~= all);
            while i < entries.len()
                invariant
                    *value == Bencode::Dict(*entries),
                    i <= entries@.len(),
                    all == entries_model(entries@),
                    out@ + entries_text(all.skip(i as int)) == before + encoding(value@),
                decreases entries@.len() - i,
            {
                let ghost rest = all.skip(i as int);
                assert(rest[0] == all[i as int]);
                assert(rest.drop_first() =~= all.skip(i + 1));
                let ghost head = out@;
                assert(decreases_to!(value => entries@[i as int].1));
                write_bytes(&entries[i].0, out);
                write_value(&entries[i].1, out);
                assert(out@ + entries_text(all.skip(i + 1)) =~= head + entries_text(rest));
                i += 1;
            }
            assert(all.skip(i as int).len() == 0);
            out.push(CLOSE);
            assert(out@ =~= before + encoding(value@));
        },
    }
}

impl Bencode {
    /// The bytes that write this value.
    pub fn to_bytes(&self) -> (out: Vec<u8>)
        ensures
            out@ == encoding(self@),
    {
        let mut out: Vec<u8> = Vec::new();
        write_value(self, &mut out);
        assert(out@ =~= encoding(self@));
        out
    }
}

} // verus!
