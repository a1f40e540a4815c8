//! Keys and values of key-value stores.

use vstd::prelude::*;
use vstd::utf8::encode_utf8;

use super::error::SchemaError;
use super::json::{parse_json, parsed_json, FieldValue, FieldView, Json, JsonView};
use super::key::{key_error, StrKey};
use super::schema::{KvKeyType, KvValueType};
use super::types::lemma_be_order;
use crate::bytes::{be_bytes, lemma_pow256, to_be};
use crate::lex::lex_lt;
use crate::numbers::{parse_i64, parsed_i64};
use crate::text::chars_of;

verus! {

/// The two's complement of an integer, as a number.
pub open spec fn complement(n: i64) -> nat {
    if n >= 0 {
        n as nat
    } else {
        (n + 0x1_0000_0000_0000_0000) as nat
    }
}

/// The stored bytes of an integer key.
pub open spec fn int_key(n: i64) -> Seq<u8> {
    be_bytes(complement(n), 8)
}

/// The stored bytes of a key that is given as a text, or why it is none.
pub open spec fn kv_key(key_type: KvKeyType, raw: Seq<char>) -> Result<Seq<u8>, SchemaError> {
    match key_type {
        KvKeyType::Str => match key_error(encode_utf8(raw)) {
            Some(e) => Err(e),
            None => Ok(encode_utf8(raw)),
        },
        KvKeyType::Int => match parsed_i64(raw) {
            Some(n) => Ok(int_key(n)),
            None => Err(SchemaError::KvKeyTypeMismatch),
        },
    }
}

impl KvKeyType {
    /// The stored bytes of a key that is given as a text: a string verbatim, an integer
    /// big-endian.
    pub fn serialize_key_from_str(&self, raw: &str) -> (r: Result<Vec<u8>, SchemaError>)
        ensures
            match r {
                Ok(bytes) => kv_key(*self, raw@) == Ok::<Seq<u8>, SchemaError>(bytes@),
                Err(e) => kv_key(*self, raw@) == Err::<Seq<u8>, SchemaError>(e),
            },
    {
        match self {
            KvKeyType::Str => match StrKey::new(raw) {
                Ok(key) => Ok(key.as_bytes()),
                Err(e) => Err(e),
            },
            KvKeyType::Int => {
                let chars: Vec<char> = chars_of(raw);
                match parse_i64(chars.as_slice()) {
                    Some(n) => {
                        let value: u128 = if n >= 0 {
                            n as u128
                        } else {
                            (n as i128 + 0x1_0000_0000_0000_0000) as u128
                        };
                        Ok(to_be(value, 8))
                    },
                    None => Err(SchemaError::KvKeyTypeMismatch),
                }
            },
        }
    }
}

/// Integer keys of one sign are stored in their order, and no two integers share a
/// key.
pub proof fn law_int_keys_scan_in_order(a: i64, b: i64)
    ensures
        (a < 0) == (b < 0) ==> (lex_lt(int_key(a), int_key(b)) <==> a < b),
        int_key(a) == int_key(b) <==> a == b,
{
    lemma_pow256();
    lemma_be_order(complement(a), complement(b), 8);
}

/// A JSON value of this kind can be a value of the type. Of a list only that it is one
/// is looked at, not its elements.
pub open spec fn fits(value_type: KvValueType, value: FieldView) -> bool {
    match value_type {
        KvValueType::Int => value matches FieldView::Number(Some(_)),
        KvValueType::Str => value is Text,
        KvValueType::F32 => value is Number,
        KvValueType::VecF32 => value is Array,
    }
}

/// The kind of a JSON value.
pub open spec fn kind_of(json: JsonView) -> FieldView {
    match json {
        JsonView::Fields(_) => FieldView::Object,
        JsonView::Plain(value) => value,
    }
}

impl KvValueType {
    /// Refuses a value of another type.
    pub fn check_value(&self, value: &FieldValue) -> (r: Result<(), SchemaError>)
        ensures
            r is Ok <==> fits(*self, value@),
            r is Err ==> r->Err_0 == SchemaError::KvValueTypeMismatch,
    {
        let fit: bool = match (self, value) {
            (KvValueType::Int, FieldValue::Number(Some(_))) => true,
            (KvValueType::Str, FieldValue::Text(_)) => true,
            (KvValueType::F32, FieldValue::Number(_)) => true,
            (KvValueType::VecF32, FieldValue::Array) => true,
            _ => false,
        };
        if fit {
            Ok(())
        } else {
            Err(SchemaError::KvValueTypeMismatch)
        }
    }

    /// Refuses a JSON text that is no value of the type.
    pub fn check_json(&self, json: &[u8]) -> (r: Result<(), SchemaError>)
        ensures
            r is Ok <==> parsed_json(json@) is Ok && fits(*self, kind_of(parsed_json(json@)->Ok_0)),
            r is Err ==> r->Err_0 == SchemaError::KvValueTypeMismatch,
    {
        match parse_json(json) {
            Ok(Json::Fields(_)) => self.check_value(&FieldValue::Object),
            Ok(Json::Plain(value)) => self.check_value(&value),
            Err(_) => Err(SchemaError::KvValueTypeMismatch),
        }
    }
}

/// The stored bytes of a key: a string verbatim, an integer as eight bytes in two's
/// complement, the highest first. What is no string key, or no 64-bit integer, is refused.
pub proof fn law_stored_bytes_of_keys(raw: Seq<char>, n: i64)
    ensures
        key_error(encode_utf8(raw)) is None ==> kv_key(KvKeyType::Str, raw) == Ok::<Seq<u8>, SchemaError>(
            encode_utf8(raw),
        ),
        key_error(encode_utf8(raw)) matches Some(e) ==> kv_key(KvKeyType::Str, raw) == Err::<Seq<u8>, SchemaError>(e),
        parsed_i64(raw) == Some(n) && n >= 0 ==> kv_key(KvKeyType::Int, raw) == Ok::<Seq<u8>, SchemaError>(
            be_bytes(n as nat, 8),
        ),
        parsed_i64(raw) == Some(n) && n < 0 ==> kv_key(KvKeyType::Int, raw) == Ok::<Seq<u8>, SchemaError>(
            be_bytes((0x1_0000_0000_0000_0000 + n) as nat, 8),
        ),
        parsed_i64(raw) is None ==> kv_key(KvKeyType::Int, raw) == Err::<Seq<u8>, SchemaError>(
            SchemaError::KvKeyTypeMismatch,
        ),
{
}

/// A 64-bit integer is a value of an integer store, any number of a store of numbers, any
/// text of a store of texts and any list of a store of lists; nothing else fits.
pub proof fn law_values_that_fit(value: FieldView, n: i64, text: Seq<char>)
    ensures
        fits(KvValueType::Int, value) <==> (value is Number && value->Number_0 is Some),
        fits(KvValueType::Int, FieldView::Number(Some(n))),
        fits(KvValueType::Str, value) <==> value is Text,
        fits(KvValueType::Str, FieldView::Text(text)),
        fits(KvValueType::F32, value) <==> value is Number,
        fits(KvValueType::VecF32, value) <==> value is Array,
        kind_of(JsonView::Plain(value)) == value,
{
}

/// Keys and values of key-value stores: a string key is stored verbatim, an integer key in
/// eight bytes; a value is accepted exactly where its kind is that of the store.
pub proof fn law_keys_and_values(
    raw: &str,
    a: Result<Vec<u8>, SchemaError>,
    b: Result<Vec<u8>, SchemaError>,
    value_type: &KvValueType,
    value: &FieldValue,
    c: Result<(), SchemaError>,
    json: &[u8],
    d: Result<(), SchemaError>,
)
    requires
        call_ensures(KvKeyType::serialize_key_from_str, (&KvKeyType::Str, raw), a),
        call_ensures(KvKeyType::serialize_key_from_str, (&KvKeyType::Int, raw), b),
        call_ensures(KvValueType::check_value, (value_type, value), c),
        call_ensures(KvValueType::check_json, (value_type, json), d),
    ensures
        a is Ok <==> key_error(encode_utf8(raw@)) is None,
        a matches Ok(k) ==> k@ == encode_utf8(raw@),
        b is Ok <==> parsed_i64(raw@) is Some,
        b matches Ok(k) ==> k@ == be_bytes(
            if parsed_i64(raw@)->0 >= 0 {
                parsed_i64(raw@)->0 as nat
            } else {
                (0x1_0000_0000_0000_0000 + parsed_i64(raw@)->0) as nat
            },
            8,
        ),
        c is Ok <==> match (*value_type, *value) {
            (KvValueType::Int, FieldValue::Number(Some(_))) => true,
            (KvValueType::Str, FieldValue::Text(_)) => true,
            (KvValueType::F32, FieldValue::Number(_)) => true,
            (KvValueType::VecF32, FieldValue::Array) => true,
            _ => false,
        },
        parsed_json(json@) is Err ==> d is Err,
        parsed_json(json@) == Ok::<JsonView, Seq<char>>(JsonView::Plain(value@)) ==> (d is Ok <==> c is Ok),
        parsed_json(json@) matches Ok(JsonView::Fields(_)) ==> d is Err,
{
    if let Some(n) = parsed_i64(raw@) {
        law_stored_bytes_of_keys(raw@, n);
    }
}

} // verus!
