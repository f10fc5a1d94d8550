//! The bencode value and the questions that its readers ask of it.

use super::grammar::{canonical, lookup, Value};
use crate::text::utf8_str;
use vstd::prelude::*;

verus! {

/// A bencode value.
///
/// The entries of a dictionary stand in a vector, in the order in which they are written. In a
/// well-formed value that is the order of their keys, and no key occurs twice: see
/// [`Bencode::wf`].
#[derive(Debug, PartialEq, Eq)]
pub enum Bencode {
    /// A signed integer.
    Int(i64),
    /// A byte string.
    Bytes(Vec<u8>),
    /// A list of values.
    List(Vec<Bencode>),
    /// A dictionary: keys, each with its value.
    Dict(Vec<(Vec<u8>, Bencode)>),
}

/// The mathematical value that `b` stands for.
pub open spec fn model(b: Bencode) -> Value
    decreases b,
{
    match b {
        Bencode::Int(n) => Value::Int(n),
        Bencode::Bytes(bytes) => Value::Bytes(bytes@),
        Bencode::List(items) => Value::List(
            Seq::new(
                items@.len(),
                |i: int|
                    if 0 <= i < items@.len() {
                        model(items@[i])
                    } else {
                        arbitrary()
                    },
            ),
        ),
        Bencode::Dict(entries) => Value::Dict(
            Seq::new(
                entries@.len(),
                |i: int|
                    if 0 <= i < entries@.len() {
                        (entries@[i].0@, model(entries@[i].1))
                    } else {
                        arbitrary()
                    },
            ),
        ),
    }
}

/// The models of the items of a list.
pub open spec fn items_model(items: Seq<Bencode>) -> Seq<Value> {
    Seq::new(items.len(), |i: int| items[i]@)
}

/// The models of the entries of a dictionary.
pub open spec fn entries_model(entries: Seq<(Vec<u8>, Bencode)>) -> Seq<(Seq<u8>, Value)> {
    Seq::new(entries.len(), |i: int| (entries[i].0@, entries[i].1@))
}

/// The model of a list is the list of the models, and so for a dictionary.
pub proof fn lemma_model(b: Bencode)
    ensures
        b matches Bencode::List(items) ==> b@ == Value::List(items_model(items@)),
        b matches Bencode::Dict(entries) ==> b@ == Value::Dict(entries_model(entries@)),
{
    match b {
        Bencode::List(items) => {
            assert(b@->List_0 =~= items_model(items@));
        },
        Bencode::Dict(entries) => {
            assert(b@->Dict_0 =~= entries_model(entries@));
        },
        _ => {},
    }
}

impl View for Bencode {
    type V = Value;

    open spec fn view(&self) -> Value {
        model(*self)
    }
}

/// True when the two byte sequences are the same.
fn same_bytes(a: &[u8], b: &[u8]) -> (r: bool)
    ensures
        r == (a@ == b@),
{
    if a.len() != b.len() {
        return false;
    }
    let mut i: usize = 0;
    while i < a.len()
        invariant
            a@.len() == b@.len(),
            i <= a@.len(),
            a@.take(i as int) == b@.take(i as int),
        decreases a@.len() - i,
    {
        if a[i] != b[i] {
            assert(a@[i as int] != b@[i as int]);
            return false;
        }
        i += 1;
        assert(a@.take(i as int) =~= a@.take(i - 1).push(a@[i - 1]));
        assert(b@.take(i as int) =~= b@.take(i - 1).push(b@[i - 1]));
    }
    assert(a@.take(i as int) =~= a@);
    assert(b@.take(i as int) =~= b@);
    true
}

impl Bencode {
    /// Well-formed: every dictionary, at any depth, has its keys sorted and none twice.
    pub open spec fn wf(self) -> bool {
        canonical(self@)
    }

    /// The integer, if this is one.
    pub fn as_int(&self) -> (r: Option<i64>)
        ensures
            r == self@.as_int(),
    {
        match self {
            Bencode::Int(n) => Some(*n),
            _ => None,
        }
    }

    /// The bytes, if this is a byte string.
    pub fn as_bytes(&self) -> (r: Option<&[u8]>)
        ensures
            match r {
                Some(bytes) => self@.as_bytes() == Some(bytes@),
                None => self@.as_bytes() is None,
            },
    {
        match self {
            Bencode::Bytes(bytes) => Some(bytes.as_slice()),
            _ => None,
        }
    }

    /// The text, if this is a byte string that is valid UTF-8.
    pub fn as_str(&self) -> (r: Option<&str>)
        ensures
            match r {
                Some(text) => self@.as_text() == Some(text@),
                None => self@.as_text() is None,
            },
    {
        match self {
            Bencode::Bytes(bytes) => utf8_str(bytes.as_slice()),
            _ => None,
        }
    }

    /// The items, if this is a list.
    pub fn as_list(&self) -> (r: Option<&Vec<Bencode>>)
        ensures
            match r {
                Some(items) => self@.as_list() == Some(items_model(items@)),
                None => self@.as_list() is None,
            },
    {
        proof {
            lemma_model(*self);
        }
        match self {
            Bencode::List(items) => Some(items),
            _ => None,
        }
    }

    /// The entries, if this is a dictionary.
    pub fn as_dict(&self) -> (r: Option<&Vec<(Vec<u8>, Bencode)>>)
        ensures
            match r {
                Some(entries) => self@ == Value::Dict(entries_model(entries@)),
                None => !(self@ is Dict),
            },
    {
        proof {
            lemma_model(*self);
        }
        match self {
            Bencode::Dict(entries) => Some(entries),
            _ => None,
        }
    }

    /// The value under `key`, if this is a dictionary that has the key.
    pub fn get(&self, key: &str) -> (r: Option<&Bencode>)
        ensures
            match r {
                Some(value) => self@.field(key) == Some(value@),
                None => self@.field(key) is None,
            },
    {
        match self.as_dict() {
            None => None,
            Some(entries) => {
                let wanted = key.as_bytes();
                let ghost all = entries_model(entries@);
                let mut i: usize = 0;
                assert(all.skip(0) =~= all);
                while i < entries.len()
                    invariant
                        i <= entries@.len(),
                        all == entries_model(entries@),
                        lookup(all.skip(i as int), wanted@) == lookup(all, wanted@),
                        wanted@ == vstd::utf8::encode_utf8(key@),
                        self@ == Value::Dict(all),
                    decreases entries@.len() - i,
                {
                    assert(all.skip(i as int)[0] == all[i as int]);
                    if same_bytes(entries[i].0.as_slice(), wanted) {
                        return Some(&entries[i].1);
                    }
                    assert(all.skip(i as int).drop_first() =~= all.skip(i + 1));
                    i += 1;
                }
                None
            },
        }
    }
}

} // verus!
