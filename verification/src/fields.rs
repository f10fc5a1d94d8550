//! Reading fields of a dictionary.

use crate::bencode::grammar::Value;
use crate::bencode::value::{items_model, Bencode};
use crate::error::Error;
use vstd::prelude::*;

verus! {

/// A result with its value taken by its view.
pub open spec fn viewed<T: View>(r: Result<T, Error>) -> Result<T::V, Error> {
    match r {
        Ok(t) => Ok(t@),
        Err(e) => Err(e),
    }
}

/// The characters of each string.
pub open spec fn texts_model(texts: Seq<String>) -> Seq<Seq<char>> {
    Seq::new(texts.len(), |i: int| texts[i]@)
}

/// `i` is the place of the first error among `results`.
pub open spec fn first_error_at<T>(results: Seq<Result<T, Error>>, i: int) -> bool {
    &&& 0 <= i < results.len()
    &&& results[i] is Err
    &&& forall|j: int| 0 <= j < i ==> (#[trigger] results[j]) is Ok
}

/// All the values, if there is no error among the results; else the first error.
pub open spec fn gathered<T>(results: Seq<Result<T, Error>>) -> Result<Seq<T>, Error> {
    if forall|i: int| 0 <= i < results.len() ==> (#[trigger] results[i]) is Ok {
        Ok(Seq::new(results.len(), |i: int| results[i]->Ok_0))
    } else {
        Err(results[choose|i: int| first_error_at(results, i)]->Err_0)
    }
}

/// There is only one first error, and it is what a failed gathering returns.
pub proof fn lemma_gathered_error<T>(results: Seq<Result<T, Error>>, i: int)
    requires
        first_error_at(results, i),
    ensures
        gathered(results) == Err::<Seq<T>, Error>(results[i]->Err_0),
{
    let first = choose|i: int| first_error_at(results, i);
    assert(first_error_at(results, first));
    assert(first == i);
}

/// Where not all results are values, one of the errors is the first.
proof fn lemma_first_error_exists<T>(results: Seq<Result<T, Error>>, i: int)
    requires
        0 <= i < results.len(),
        results[i] is Err,
    ensures
        exists|k: int| first_error_at(results, k),
    decreases i,
{
    if exists|j: int| 0 <= j < i && (#[trigger] results[j]) is Err {
        let j = choose|j: int| 0 <= j < i && (#[trigger] results[j]) is Err;
        lemma_first_error_exists(results, j);
    } else {
        assert(first_error_at(results, i));
    }
}

/// A failed gathering returns an error that is among the results.
pub proof fn lemma_gathered_error_is_a_result<T>(results: Seq<Result<T, Error>>)
    requires
        gathered(results) is Err,
    ensures
        exists|i: int|
            0 <= i < results.len() && #[trigger] results[i] == Err::<T, Error>(
                gathered(results)->Err_0,
            ),
{
    let i = choose|i: int| 0 <= i < results.len() && !((#[trigger] results[i]) is Ok);
    lemma_first_error_exists(results, i);
    let first = choose|i: int| first_error_at(results, i);
    assert(results[first] == Err::<T, Error>(gathered(results)->Err_0));
}

/// The text of a value, or the error for one that is no byte string or not valid UTF-8.
pub open spec fn text_or_error(v: Value, key: &'static str) -> Result<Seq<char>, Error> {
    match v.as_bytes() {
        None => Err(Error::WrongType { key, expected: "a byte string" }),
        Some(_) => match v.as_text() {
            Some(text) => Ok(text),
            None => Err(Error::NotUtf8 { key }),
        },
    }
}

/// The text of each value, or the error for it.
pub open spec fn text_results(items: Seq<Value>, key: &'static str) -> Seq<
    Result<Seq<char>, Error>,
> {
    Seq::new(items.len(), |i: int| text_or_error(items[i], key))
}

/// The non-negative integer of a value, or the error for one that is no integer or negative.
pub open spec fn unsigned_or_error(v: Value, label: &'static str) -> Result<u64, Error> {
    match v.as_int() {
        None => Err(Error::WrongType { key: label, expected: "an integer" }),
        Some(n) => if n >= 0 {
            Ok(n as u64)
        } else {
            Err(Error::WrongType { key: label, expected: "a non-negative integer" })
        },
    }
}

/// The non-negative integer of a field that must be there. Errors name the field by `label`.
pub open spec fn required_unsigned(v: Value, key: &str, label: &'static str) -> Result<u64, Error> {
    match v.field(key) {
        None => Err(Error::MissingKey { key: label }),
        Some(field) => unsigned_or_error(field, label),
    }
}

/// The text of a field that must be there.
pub open spec fn required_text(v: Value, key: &'static str) -> Result<Seq<char>, Error> {
    match v.field(key) {
        None => Err(Error::MissingKey { key }),
        Some(field) => text_or_error(field, key),
    }
}

/// The text of a field that may be absent.
pub open spec fn optional_text(v: Value, key: &'static str) -> Result<Option<Seq<char>>, Error> {
    match v.field(key) {
        None => Ok(None),
        Some(field) => match text_or_error(field, key) {
            Ok(text) => Ok(Some(text)),
            Err(e) => Err(e),
        },
    }
}

/// The integer in a field, if the field is there and holds one.
pub open spec fn int_field(v: Value, key: &str) -> Option<i64> {
    match v.field(key) {
        Some(field) => field.as_int(),
        None => None,
    }
}

/// The items in a field, if the field is there and holds a list.
pub open spec fn list_field(v: Value, key: &str) -> Option<Seq<Value>> {
    match v.field(key) {
        Some(field) => field.as_list(),
        None => None,
    }
}

/// The integer under `key`, if there is one.
pub(crate) fn get_int(d: &Bencode, key: &str) -> (r: Option<i64>)
    ensures
        r == int_field(d@, key),
{
    match d.get(key) {
        Some(field) => field.as_int(),
        None => None,
    }
}

/// The list under `key`, if there is one.
pub(crate) fn get_list<'a>(d: &'a Bencode, key: &str) -> (r: Option<&'a Vec<Bencode>>)
    ensures
        match r {
            Some(items) => list_field(d@, key) == Some(items_model(items@)),
            None => list_field(d@, key) is None,
        },
{
    match d.get(key) {
        Some(field) => field.as_list(),
        None => None,
    }
}

/// The non-negative integer that `value` is.
///
/// # Errors
/// [`Error::WrongType`] where `value` is no integer, or a negative one.
pub(crate) fn to_unsigned(value: &Bencode, label: &'static str) -> (r: Result<u64, Error>)
    ensures
        r == unsigned_or_error(value@, label),
{
    match value.as_int() {
        None => Err(Error::WrongType { key: label, expected: "an integer" }),
        Some(n) => if n >= 0 {
            Ok(n as u64)
        } else {
            Err(Error::WrongType { key: label, expected: "a non-negative integer" })
        },
    }
}

/// The non-negative integer under `key`. Errors name the key by `label`.
///
/// # Errors
/// [`Error::MissingKey`] where the key is absent, [`Error::WrongType`] where its value is no
/// integer, or a negative one.
pub(crate) fn req_unsigned(d: &Bencode, key: &str, label: &'static str) -> (r: Result<u64, Error>)
    ensures
        r == required_unsigned(d@, key, label),
{
    match d.get(key) {
        None => Err(Error::MissingKey { key: label }),
        Some(field) => to_unsigned(field, label),
    }
}

/// The text that `value` is.
///
/// # Errors
/// [`Error::WrongType`] where `value` is no byte string, [`Error::NotUtf8`] where it is one that
/// is not valid UTF-8.
fn to_text(value: &Bencode, key: &'static str) -> (r: Result<String, Error>)
    ensures
        viewed(r) == text_or_error(value@, key),
{
    if value.as_bytes().is_none() {
        return Err(Error::WrongType { key, expected: "a byte string" });
    }
    match value.as_str() {
        Some(text) => Ok(text.to_owned()),
        None => Err(Error::NotUtf8 { key }),
    }
}

/// The text under `key`.
///
/// # Errors
/// [`Error::MissingKey`] where the key is absent, [`Error::WrongType`] where its value is no byte
/// string, [`Error::NotUtf8`] where it is not valid UTF-8.
pub fn req_str(d: &Bencode, key: &'static str) -> (r: Result<String, Error>)
    ensures
        viewed(r) == required_text(d@, key),
{
    match d.get(key) {
        None => Err(Error::MissingKey { key }),
        Some(field) => to_text(field, key),
    }
}

/// The text under `key`, if the key is there.
///
/// # Errors
/// [`Error::WrongType`] where its value is no byte string, [`Error::NotUtf8`] where it is not
/// valid UTF-8.
pub fn opt_str(d: &Bencode, key: &'static str) -> (r: Result<Option<String>, Error>)
    ensures
        match r {
            Ok(text) => optional_text(d@, key) == Ok::<Option<Seq<char>>, Error>(text.deep_view()),
            Err(e) => optional_text(d@, key) == Err::<Option<Seq<char>>, Error>(e),
        },
{
    match d.get(key) {
        None => Ok(None),
        Some(field) => match to_text(field, key) {
            Ok(text) => Ok(Some(text)),
            Err(e) => Err(e),
        },
    }
}

/// The text of every item of a list.
///
/// # Errors
/// What is wrong with the first item that is no text: [`Error::WrongType`] where it is no byte
/// string, [`Error::NotUtf8`] where it is not valid UTF-8.
pub(crate) fn all_texts(items: &Vec<Bencode>, key: &'static str) -> (r: Result<Vec<String>, Error>)
    ensures
        match r {
            Ok(texts) => gathered(text_results(items_model(items@), key)) == Ok::<
                Seq<Seq<char>>,
                Error,
            >(texts_model(texts@)),
            Err(e) => gathered(text_results(items_model(items@), key)) == Err::<
                Seq<Seq<char>>,
                Error,
            >(e),
        },
{
    let ghost results = text_results(items_model(items@), key);
    let mut texts: Vec<String> = Vec::new();
    let mut i: usize = 0;
    while i < items.len()
        invariant
            i <= items@.len(),
            results == text_results(items_model(items@), key),
            texts@.len() == i,
            forall|j: int|
                0 <= j < i ==> #[trigger] results[j] == Ok::<Seq<char>, Error>(texts@[j]@),
        decreases items@.len() - i,
    {
        match to_text(&items[i], key) {
            Err(e) => {
                proof {
                    lemma_gathered_error(results, i as int);
                }
                return Err(e);
            },
            Ok(text) => {
                texts.push(text);
            },
        }
        i += 1;
    }
    assert(gathered(results)->Ok_0 =~= texts_model(texts@));
    Ok(texts)
}

} // verus!
