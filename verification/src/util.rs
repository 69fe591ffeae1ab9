//! Field extraction helpers: mapping dictionary lookups into typed results,
//! with "missing key", "wrong type" and "invalid encoding" folded into one
//! error channel.

use vstd::prelude::*;

use crate::error::{DecodeError, Field};
use crate::value::{dict_lookup, model_entries, spec_lookup, SpecValue, Value};

verus! {

/// Relies on `str::from_utf8` (std): returns the decoded string exactly when
/// the bytes are valid UTF-8, as vstd's UTF-8 model states it.
#[verifier::external_body]
pub fn utf8_to_string(bytes: &[u8]) -> (r: Option<String>)
    ensures
        match r {
            Some(s) => vstd::utf8::valid_utf8(bytes@) && s@ == vstd::utf8::decode_utf8(bytes@),
            None => !vstd::utf8::valid_utf8(bytes@),
        },
{
    match core::str::from_utf8(bytes) {
        Ok(s) => Some(s.to_owned()),
        Err(_) => None,
    }
}

/// The required UTF-8 string at `key`: absent, wrongly typed and invalidly
/// encoded values each fail with their own error, tagged with `f`.
pub open spec fn spec_get_utf8(
    entries: Seq<(Seq<u8>, SpecValue)>,
    key: Seq<u8>,
    f: Field,
) -> Result<Seq<char>, DecodeError> {
    match spec_lookup(entries, key) {
        None => Err(DecodeError::MissingField(f)),
        Some(SpecValue::Bytes(b)) => if vstd::utf8::valid_utf8(b) {
            Ok(vstd::utf8::decode_utf8(b))
        } else {
            Err(DecodeError::InvalidUtf8(f))
        },
        Some(_) => Err(DecodeError::WrongType(f)),
    }
}

/// The optional UTF-8 string at `key`: absent or wrongly typed keys give
/// `None`, but bytes that are not valid UTF-8 still fail.
pub open spec fn spec_get_optional_utf8(
    entries: Seq<(Seq<u8>, SpecValue)>,
    key: Seq<u8>,
    f: Field,
) -> Result<Option<Seq<char>>, DecodeError> {
    match spec_lookup(entries, key) {
        Some(SpecValue::Bytes(b)) => if vstd::utf8::valid_utf8(b) {
            Ok(Some(vstd::utf8::decode_utf8(b)))
        } else {
            Err(DecodeError::InvalidUtf8(f))
        },
        _ => Ok(None),
    }
}

/// The optional integer at `key`: absent gives `None`, a wrongly typed value
/// fails.
pub open spec fn spec_get_optional_int(
    entries: Seq<(Seq<u8>, SpecValue)>,
    key: Seq<u8>,
    f: Field,
) -> Result<Option<int>, DecodeError> {
    match spec_lookup(entries, key) {
        None => Ok(None),
        Some(SpecValue::Integer(i)) => Ok(Some(i)),
        Some(_) => Err(DecodeError::WrongType(f)),
    }
}

/// Looks up the required UTF-8 string at `key` in a dictionary's entries.
pub fn get_utf8_value(dict: &Vec<(Vec<u8>, Value)>, key: &[u8], f: Field) -> (r: Result<
    String,
    DecodeError,
>)
    ensures
        match r {
            Ok(s) => spec_get_utf8(model_entries(dict@), key@, f) == Ok::<Seq<char>, DecodeError>(
                s@,
            ),
            Err(e) => spec_get_utf8(model_entries(dict@), key@, f) == Err::<Seq<char>, DecodeError>(
                e,
            ),
        },
{
    match dict_lookup(dict, key) {
        None => Err(DecodeError::MissingField(f)),
        Some(v) => match v {
            Value::Bytes(b) => match utf8_to_string(b.as_slice()) {
                Some(s) => Ok(s),
                None => Err(DecodeError::InvalidUtf8(f)),
            },
            _ => Err(DecodeError::WrongType(f)),
        },
    }
}

/// Looks up the optional UTF-8 string at `key` in a dictionary's entries.
pub fn get_optional_utf8_value(dict: &Vec<(Vec<u8>, Value)>, key: &[u8], f: Field) -> (r: Result<
    Option<String>,
    DecodeError,
>)
    ensures
        match r {
            Ok(Some(s)) => spec_get_optional_utf8(model_entries(dict@), key@, f) == Ok::<
                Option<Seq<char>>,
                DecodeError,
            >(Some(s@)),
            Ok(None) => spec_get_optional_utf8(model_entries(dict@), key@, f) == Ok::<
                Option<Seq<char>>,
                DecodeError,
            >(None),
            Err(e) => spec_get_optional_utf8(model_entries(dict@), key@, f) == Err::<
                Option<Seq<char>>,
                DecodeError,
            >(e),
        },
{
    match dict_lookup(dict, key) {
        None => Ok(None),
        Some(v) => match v {
            Value::Bytes(b) => match utf8_to_string(b.as_slice()) {
                Some(s) => Ok(Some(s)),
                None => Err(DecodeError::InvalidUtf8(f)),
            },
            _ => Ok(None),
        },
    }
}

/// Looks up the optional integer at `key` in a dictionary's entries.
pub fn get_optional_int_value(dict: &Vec<(Vec<u8>, Value)>, key: &[u8], f: Field) -> (r: Result<
    Option<i64>,
    DecodeError,
>)
    ensures
        match r {
            Ok(Some(i)) => spec_get_optional_int(model_entries(dict@), key@, f) == Ok::<
                Option<int>,
                DecodeError,
            >(Some(i as int)),
            Ok(None) => spec_get_optional_int(model_entries(dict@), key@, f) == Ok::<
                Option<int>,
                DecodeError,
            >(None),
            Err(e) => spec_get_optional_int(model_entries(dict@), key@, f) == Err::<
                Option<int>,
                DecodeError,
            >(e),
        },
{
    match dict_lookup(dict, key) {
        None => Ok(None),
        Some(v) => match v {
            Value::Integer(i) => Ok(Some(*i)),
            _ => Err(DecodeError::WrongType(f)),
        },
    }
}

} // verus!
