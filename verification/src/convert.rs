//! From plain values to documents.

use vstd::prelude::*;
use crate::array::CJsonArray;
use crate::cjson::CJson;
use crate::error::Error;
use crate::number::from_i64;
use crate::number::from_u64;
use crate::object::CJsonObject;
use crate::value::JsonValue;
use crate::value::integer_document;

verus! {

/// A value that can become a document.
///
/// Integers become the number nearest to them, which for the integers of up
/// to thirty-two bits is the integer itself. Borrowed bytes become a string
/// that borrows them, owned bytes a string that holds a copy. An optional
/// value becomes what it holds, or null where it holds nothing.
pub trait IntoCJson<'json>: Sized {
    /// The model of the document that the value becomes.
    spec fn document(&self) -> JsonValue;

    /// The document that the value becomes.
    fn into_cjson(self) -> (r: Result<CJson<'json>, Error>)
        ensures
            r matches Ok(document) && document@ == self.document(),
    ;
}

impl<'json> IntoCJson<'json> for CJson<'json> {
    open spec fn document(&self) -> JsonValue {
        self@
    }

    fn into_cjson(self) -> (r: Result<CJson<'json>, Error>) {
        Ok(self)
    }
}

impl<'json> IntoCJson<'json> for CJsonArray<CJson<'json>> {
    open spec fn document(&self) -> JsonValue {
        self.inner@
    }

    fn into_cjson(self) -> (r: Result<CJson<'json>, Error>) {
        Ok(self.inner)
    }
}

impl<'json> IntoCJson<'json> for CJsonObject<CJson<'json>> {
    open spec fn document(&self) -> JsonValue {
        self.inner@
    }

    fn into_cjson(self) -> (r: Result<CJson<'json>, Error>) {
        Ok(self.inner)
    }
}

impl<'json> IntoCJson<'json> for bool {
    open spec fn document(&self) -> JsonValue {
        JsonValue::Bool(*self)
    }

    fn into_cjson(self) -> (r: Result<CJson<'json>, Error>) {
        CJson::bool(self)
    }
}

impl<'json> IntoCJson<'json> for i8 {
    open spec fn document(&self) -> JsonValue {
        integer_document(*self as int)
    }

    fn into_cjson(self) -> (r: Result<CJson<'json>, Error>) {
        CJson::number(from_i64(self as i64))
    }
}

impl<'json> IntoCJson<'json> for i16 {
    open spec fn document(&self) -> JsonValue {
        integer_document(*self as int)
    }

    fn into_cjson(self) -> (r: Result<CJson<'json>, Error>) {
        CJson::number(from_i64(self as i64))
    }
}

impl<'json> IntoCJson<'json> for i32 {
    open spec fn document(&self) -> JsonValue {
        integer_document(*self as int)
    }

    fn into_cjson(self) -> (r: Result<CJson<'json>, Error>) {
        CJson::number(from_i64(self as i64))
    }
}

impl<'json> IntoCJson<'json> for u8 {
    open spec fn document(&self) -> JsonValue {
        integer_document(*self as int)
    }

    fn into_cjson(self) -> (r: Result<CJson<'json>, Error>) {
        CJson::number(from_u64(self as u64))
    }
}

impl<'json> IntoCJson<'json> for u16 {
    open spec fn document(&self) -> JsonValue {
        integer_document(*self as int)
    }

    fn into_cjson(self) -> (r: Result<CJson<'json>, Error>) {
        CJson::number(from_u64(self as u64))
    }
}

impl<'json> IntoCJson<'json> for u32 {
    open spec fn document(&self) -> JsonValue {
        integer_document(*self as int)
    }

    fn into_cjson(self) -> (r: Result<CJson<'json>, Error>) {
        CJson::number(from_u64(self as u64))
    }
}

impl<'json> IntoCJson<'json> for &'json [u8] {
    open spec fn document(&self) -> JsonValue {
        JsonValue::String((*self)@)
    }

    fn into_cjson(self) -> (r: Result<CJson<'json>, Error>) {
        CJson::string_reference(self)
    }
}

impl<'json> IntoCJson<'json> for Vec<u8> {
    open spec fn document(&self) -> JsonValue {
        JsonValue::String(self@)
    }

    fn into_cjson(self) -> (r: Result<CJson<'json>, Error>) {
        CJson::string(self.as_slice())
    }
}

impl<'json, T: IntoCJson<'json>> IntoCJson<'json> for Option<T> {
    open spec fn document(&self) -> JsonValue {
        match self {
            Some(value) => value.document(),
            None => JsonValue::Null,
        }
    }

    fn into_cjson(self) -> (r: Result<CJson<'json>, Error>) {
        match self {
            Some(value) => value.into_cjson(),
            None => CJson::null(),
        }
    }
}

} // verus!
