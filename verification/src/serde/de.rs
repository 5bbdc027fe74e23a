//! From documents to typed values.

use vstd::prelude::*;
use vstd::utf8::encode_utf8;
use vstd::utf8::valid_utf8;
use crate::cjsonref::CJsonRef;
use crate::serde::error::Error;
use crate::serde::error::ErrorView;
use crate::serde::value::Value;
use crate::value::JsonValue;

verus! {

/// `String::from_utf8` of std: the text that is made of exactly the bytes
/// `bytes`, where they are valid UTF-8, and nothing where they are not.
#[verifier::external_body]
fn utf8_text(bytes: &[u8]) -> (r: Option<String>)
    ensures
        match r {
            Some(text) => valid_utf8(bytes@) && encode_utf8(text@) == bytes@,
            None => !valid_utf8(bytes@),
        },
{
    String::from_utf8(bytes.to_vec()).ok()
}

/// Whether every string and every name of `document` is valid UTF-8.
pub open spec fn all_text(document: JsonValue) -> bool
    decreases document,
{
    match document {
        JsonValue::String(bytes) => valid_utf8(bytes),
        JsonValue::Array(items) => forall|i: int|
            0 <= i < items.len() ==> all_text(#[trigger] items[i]),
        JsonValue::Object(members) => forall|i: int|
            0 <= i < members.len() ==> valid_utf8((#[trigger] members[i]).0) && all_text(
                members[i].1,
            ),
        _ => true,
    }
}

/// Whether the typed value `value` is the one that stands for `document`:
/// a unit for null, a boolean for a boolean, a double-precision value
/// without a text for a number, a text for a string, a sequence for an
/// array, and for an object a map whose keys are texts, entry by entry in
/// the order of the members.
pub open spec fn stands_for(value: Value, document: JsonValue) -> bool
    decreases document,
{
    match document {
        JsonValue::Null => value is Unit,
        JsonValue::Bool(b) => value == Value::Bool(b),
        JsonValue::Number(bits) => value matches Value::F64 { bits: held, text } && held == bits
            && text@.len() == 0,
        JsonValue::String(bytes) => value matches Value::Str(text) && encode_utf8(text@) == bytes,
        JsonValue::Array(items) => value matches Value::Sequence(values) && values@.len()
            == items.len() && forall|i: int|
            0 <= i < items.len() ==> stands_for(values@[i], #[trigger] items[i]),
        JsonValue::Object(members) => value matches Value::Mapping(entries) && entries@.len()
            == members.len() && forall|i: int|
            0 <= i < members.len() ==> entry_stands_for(entries@[i], #[trigger] members[i]),
    }
}

/// Whether the entry `entry` of a map stands for the member `member` of an
/// object: its key is the name as a text, and its value stands for the
/// value of the member.
pub open spec fn entry_stands_for(entry: (Value, Value), member: (Seq<u8>, JsonValue)) -> bool
    decreases member,
{
    &&& entry.0 matches Value::Str(name) && encode_utf8(name@) == member.0
    &&& stands_for(entry.1, member.1)
}

/// The words of the failure that a string or a name which is not valid
/// UTF-8 gives.
pub open spec fn utf8_failure() -> ErrorView {
    ErrorView::Custom("text is not valid UTF-8"@)
}

/// Reads a typed value out of a node.
#[derive(Debug)]
pub struct Deserializer<'de>(pub &'de CJsonRef<'de>);

impl<'de> Deserializer<'de> {
    /// The typed value that stands for the node. Fails where a string or a
    /// name is not valid UTF-8.
    pub fn deserialize(self) -> (r: Result<Value, Error>)
        ensures
            match r {
                Ok(value) => all_text(self.0@) && stands_for(value, self.0@),
                Err(e) => !all_text(self.0@) && e@ == utf8_failure(),
            },
    {
        from_cjson(self.0)
    }
}

/// The failure that a string or a name which is not valid UTF-8 gives.
fn not_text() -> (r: Error)
    ensures
        r@ == utf8_failure(),
{
    Error::Custom("text is not valid UTF-8".to_owned())
}

/// The typed value that stands for `cjson`. Fails where a string or a name
/// is not valid UTF-8.
pub fn from_cjson(cjson: &CJsonRef<'_>) -> (r: Result<Value, Error>)
    ensures
        match r {
            Ok(value) => all_text(cjson@) && stands_for(value, cjson@),
            Err(e) => !all_text(cjson@) && e@ == utf8_failure(),
        },
    decreases cjson@,
{
    if cjson.is_null() {
        return Ok(Value::Unit);
    }
    if let Some(b) = cjson.as_bool() {
        return Ok(Value::Bool(b));
    }
    if let Some(bits) = cjson.as_number() {
        return Ok(Value::F64 { bits, text: String::new() });
    }
    if let Some(bytes) = cjson.as_c_string() {
        return match utf8_text(bytes) {
            Some(text) => Ok(Value::Str(text)),
            None => Err(not_text()),
        };
    }
    let count = cjson.len();
    if cjson.is_array() {
        let ghost items = cjson@->Array_0;
        let mut values: Vec<Value> = Vec::new();
        let mut i: usize = 0;
        while i < count
            invariant
                cjson@ == JsonValue::Array(items),
                count == items.len(),
                0 <= i <= count,
                values@.len() == i,
                forall|k: int| 0 <= k < i ==> all_text(#[trigger] items[k]),
                forall|k: int| 0 <= k < i ==> stands_for(values@[k], #[trigger] items[k]),
            decreases count - i,
        {
            let child = match cjson.child(i) {
                Some(child) => child,
                None => {
                    return Err(not_text());
                },
            };
            match from_cjson(child) {
                Ok(value) => {
                    values.push(value);
                },
                Err(e) => {
                    assert(!all_text(items[i as int]));
                    return Err(e);
                },
            }
            i += 1;
        }
        Ok(Value::Sequence(values))
    } else {
        let ghost members = cjson@->Object_0;
        let mut entries: Vec<(Value, Value)> = Vec::new();
        let mut i: usize = 0;
        while i < count
            invariant
                cjson@ == JsonValue::Object(members),
                count == members.len(),
                0 <= i <= count,
                entries@.len() == i,
                forall|k: int|
                    0 <= k < i ==> valid_utf8((#[trigger] members[k]).0) && all_text(members[k].1),
                forall|k: int|
                    0 <= k < i ==> entry_stands_for(entries@[k], #[trigger] members[k]),
            decreases count - i,
        {
            proof {
                assert(cjson@.children()[i as int] == members[i as int].1);
                assert(cjson@.names()[i as int] == members[i as int].0);
            }
            let name = match cjson.name(i) {
                Some(name) => name,
                None => {
                    return Err(not_text());
                },
            };
            let child = match cjson.child(i) {
                Some(child) => child,
                None => {
                    return Err(not_text());
                },
            };
            let key = match utf8_text(name) {
                Some(key) => key,
                None => {
                    assert(!valid_utf8(members[i as int].0));
                    return Err(not_text());
                },
            };
            match from_cjson(child) {
                Ok(value) => {
                    let ghost before = entries@;
                    entries.push((Value::Str(key), value));
                    proof {
                        assert(entry_stands_for(entries@[i as int], members[i as int]));
                        assert forall|k: int| 0 <= k < i + 1 implies entry_stands_for(
                            entries@[k],
                            #[trigger] members[k],
                        ) by {
                            if k < i {
                                assert(entries@[k] == before[k]);
                            }
                        }
                    }
                },
                Err(e) => {
                    assert(!all_text(members[i as int].1));
                    return Err(e);
                },
            }
            i += 1;
        }
        Ok(Value::Mapping(entries))
    }
}

} // verus!
