//! The handle that owns a document.

use vstd::prelude::*;
use vstd::string::StringSliceAdditionalSpecFns;
use crate::array::CJsonArray;
use crate::cjsonref::CJsonRef;
use crate::convert::IntoCJson;
use crate::object::CJsonObject;
use crate::text::parse::document_at;
use crate::text::parse::parse_document;
use crate::text::table::NumberTable;
use crate::error::Error;
use crate::value::JsonValue;

verus! {

/// A whole document and the sole responsibility for it.
///
/// Whoever holds the `CJson` owns every node of the tree. Handing it to a
/// container moves the tree into that container; taking a child out of a
/// container yields a `CJson` for the subtree.
#[derive(Debug)]
pub struct CJson<'json> {
    node: CJsonRef<'json>,
}

impl<'json> View for CJson<'json> {
    type V = JsonValue;

    closed spec fn view(&self) -> JsonValue {
        self.node@
    }
}

impl<'json> CJson<'json> {
    /// Whether the document holds its own bytes throughout: no string and
    /// no name borrows the bytes of a caller.
    pub closed spec fn owns_bytes(&self) -> bool {
        self.node.owns_bytes()
    }

    /// A new document that is a null.
    pub fn null() -> (r: Result<Self, Error>)
        ensures
            r matches Ok(value) && value@ == JsonValue::Null,
    {
        Ok(CJson { node: CJsonRef::new_null() })
    }

    /// A new document that is the boolean `b`.
    pub fn bool(b: bool) -> (r: Result<Self, Error>)
        ensures
            r matches Ok(value) && value@ == JsonValue::Bool(b),
    {
        Ok(CJson { node: CJsonRef::new_bool(b) })
    }

    /// A new document that is the number with the binary64 bit pattern
    /// `bits`.
    pub fn number(bits: u64) -> (r: Result<Self, Error>)
        ensures
            r matches Ok(value) && value@ == JsonValue::Number(bits),
    {
        Ok(CJson { node: CJsonRef::new_number(bits) })
    }

    /// A new document that is a string with its own copy of the bytes of
    /// `s`.
    pub fn string(s: &[u8]) -> (r: Result<Self, Error>)
        ensures
            r matches Ok(value) && value@ == JsonValue::String(s@) && value.owns_bytes(),
    {
        Ok(CJson { node: CJsonRef::new_string(s) })
    }

    /// A new document that is a string which borrows the bytes of `s`
    /// instead of copying them. The bytes must live as long as the document.
    pub fn string_reference(s: &'json [u8]) -> (r: Result<Self, Error>)
        ensures
            r matches Ok(value) && value@ == JsonValue::String(s@) && !value.owns_bytes(),
    {
        Ok(CJson { node: CJsonRef::new_string_reference(s) })
    }

    /// A new document that is an array without elements.
    pub fn array() -> (r: Result<Self, Error>)
        ensures
            r matches Ok(value) && value@ == JsonValue::Array(Seq::empty()),
    {
        Ok(CJson { node: CJsonRef::new_array() })
    }

    /// A new document that is an object without members.
    pub fn object() -> (r: Result<Self, Error>)
        ensures
            r matches Ok(value) && value@ == JsonValue::Object(Seq::empty()),
    {
        Ok(CJson { node: CJsonRef::new_object() })
    }

    /// The document that the JSON text `s` holds. `numbers` supplies the
    /// bits of each number that is not written as an integer of up to
    /// sixty-four bits. Fails with `Parse` where `s` is not one JSON value
    /// between blanks, where arrays and objects stand more than a thousand
    /// deep, and where `numbers` lacks a number of the text.
    pub fn from_slice(s: &[u8], numbers: &NumberTable) -> (r: Result<Self, Error>)
        ensures
            match document_at(s@, numbers@) {
                Some(document) => r matches Ok(value) && value@ == document,
                None => r matches Err(e) && e == Error::Parse,
            },
    {
        match parse_document(s, numbers) {
            Some(node) => Ok(CJson { node }),
            None => Err(Error::Parse),
        }
    }

    /// The document that the JSON text `s` holds; the same as `from_slice`.
    pub fn from_c_str(s: &[u8], numbers: &NumberTable) -> (r: Result<Self, Error>)
        ensures
            match document_at(s@, numbers@) {
                Some(document) => r matches Ok(value) && value@ == document,
                None => r matches Err(e) && e == Error::Parse,
            },
    {
        CJson::from_slice(s, numbers)
    }

    /// The document that the bytes of the JSON text `s` hold, as
    /// `from_slice` reads them.
    pub fn from_str(s: &str, numbers: &NumberTable) -> (r: Result<Self, Error>)
        ensures
            match document_at(s.spec_bytes(), numbers@) {
                Some(document) => r matches Ok(value) && value@ == document,
                None => r matches Err(e) && e == Error::Parse,
            },
    {
        CJson::from_slice(s.as_bytes(), numbers)
    }

    /// The document that `value` becomes.
    pub fn try_from<T: IntoCJson<'json>>(value: T) -> (r: Result<Self, Error>)
        ensures
            r matches Ok(document) && document@ == value.document(),
    {
        value.into_cjson()
    }

    /// The document as an array, where it is one.
    pub fn into_array(self) -> (r: Option<CJsonArray<Self>>)
        ensures
            match r {
                Some(array) => self@ is Array && array.inner@ == self@,
                None => !(self@ is Array),
            },
    {
        if self.node.is_array() {
            Some(CJsonArray { inner: self })
        } else {
            None
        }
    }

    /// The document as an object, where it is one.
    pub fn into_object(self) -> (r: Option<CJsonObject<Self>>)
        ensures
            match r {
                Some(object) => self@ is Object && object.inner@ == self@,
                None => !(self@ is Object),
            },
    {
        if self.node.is_object() {
            Some(CJsonObject { inner: self })
        } else {
            None
        }
    }

    /// Puts a detached tree under a handle.
    pub fn from_raw_parts(node: CJsonRef<'json>) -> (r: Self)
        ensures
            r@ == node@,
            r.owns_bytes() == node.owns_bytes(),
    {
        CJson { node }
    }

    /// The root node, seen through a borrow of the handle.
    pub fn as_ref(&self) -> (r: &CJsonRef<'json>)
        ensures
            r@ == self@,
    {
        &self.node
    }

    /// The one accessor of the root node. What is done through it shows in
    /// the document when the accessor is given up.
    pub fn as_mut(&mut self) -> (r: &mut CJsonRef<'json>)
        ensures
            r@ == old(self)@,
            final(self)@ == final(r)@,
    {
        &mut self.node
    }

    /// Gives up the handle and hands out the tree that it held.
    pub fn into_raw_parts(self) -> (r: CJsonRef<'json>)
        ensures
            r@ == self@,
            r.owns_bytes() == self.owns_bytes(),
    {
        self.node
    }
}

impl<'json> core::ops::Deref for CJson<'json> {
    type Target = CJsonRef<'json>;

    /// The root node, seen through a borrow of the handle.
    fn deref(&self) -> (r: &CJsonRef<'json>)
        ensures
            r@ == self@,
    {
        &self.node
    }
}

impl<'json> Clone for CJson<'json> {
    /// A deep copy that shares nothing with this document.
    fn clone(&self) -> (r: Self)
        ensures
            r@ == self@,
            r.owns_bytes(),
    {
        CJson { node: self.node.duplicate_node() }
    }
}

impl<'json> PartialEq for CJson<'json> {
    /// Deep equality.
    fn eq(&self, other: &Self) -> (r: bool) {
        self.node.deep_eq(&other.node)
    }
}

impl<'json> vstd::std_specs::cmp::PartialEqSpecImpl for CJson<'json> {
    open spec fn obeys_eq_spec() -> bool {
        true
    }

    open spec fn eq_spec(&self, other: &Self) -> bool {
        self@.deep_eq(other@)
    }
}

} // verus!
