//! From typed values to documents.

use vstd::prelude::*;
use vstd::utf8::encode_utf8;
use crate::array::CJsonArray;
use crate::cjson::CJson;
use crate::number::from_f32_bits;
use crate::number::from_i64;
use crate::number::from_u64;
use crate::number::is_finite;
use crate::number::is_finite32;
use crate::number::is_finite32_spec;
use crate::number::widen;
use crate::number::is_finite_spec;
use crate::object::CJsonObject;
use crate::serde::error::Error;
use crate::serde::error::ErrorView;
use crate::serde::c_string::c_string;
use crate::serde::c_string::encode_char;
use crate::serde::c_string::c_string_spec;
use crate::decimal::decimal_signed;
use crate::decimal::decimal_spec;
use crate::decimal::decimal_unsigned;
use crate::serde::value::Value;
use crate::value::JsonValue;
use crate::value::integer_document;
use crate::value::members_after_insert;

verus! {

/// The text of a key that is a boolean.
pub open spec fn bool_text(b: bool) -> Seq<u8> {
    if b {
        seq![116u8, 114u8, 117u8, 101u8]
    } else {
        seq![102u8, 97u8, 108u8, 115u8, 101u8]
    }
}

/// The name that stands for a typed value where it is the key of a map
/// entry.
///
/// Booleans and integers stand by their usual text, a finite floating-point
/// value by its decimal text, a character, a text and a variant without
/// fields by themselves, and a wrapper around one value by what it wraps.
/// Nothing else can be a key. No name holds a zero byte.
pub open spec fn key_of(value: Value) -> Result<Seq<u8>, ErrorView>
    decreases value,
{
    match value {
        Value::Bool(b) => Ok(bool_text(b)),
        Value::I8(n) => Ok(decimal_spec(n as int)),
        Value::I16(n) => Ok(decimal_spec(n as int)),
        Value::I32(n) => Ok(decimal_spec(n as int)),
        Value::I64(n) => Ok(decimal_spec(n as int)),
        Value::I128(n) => Ok(decimal_spec(n as int)),
        Value::U8(n) => Ok(decimal_spec(n as int)),
        Value::U16(n) => Ok(decimal_spec(n as int)),
        Value::U32(n) => Ok(decimal_spec(n as int)),
        Value::U64(n) => Ok(decimal_spec(n as int)),
        Value::U128(n) => Ok(decimal_spec(n as int)),
        Value::F32 { bits, text } => if is_finite32_spec(bits) {
            c_string_spec(encode_utf8(text@))
        } else {
            Err(ErrorView::FloatNotFinite)
        },
        Value::F64 { bits, text } => if is_finite_spec(bits) {
            c_string_spec(encode_utf8(text@))
        } else {
            Err(ErrorView::FloatNotFinite)
        },
        Value::Char(c) => c_string_spec(encode_utf8(seq![c])),
        Value::Str(text) => c_string_spec(encode_utf8(text@)),
        Value::UnitVariant(name) => c_string_spec(encode_utf8(name@)),
        Value::NewtypeStruct(inner) => key_of(*inner),
        _ => Err(ErrorView::KeyMustBeAString),
    }
}

/// A text as a document: a string of its bytes, unless one of them is zero.
pub open spec fn text_document(text: Seq<char>) -> Result<JsonValue, ErrorView> {
    match c_string_spec(encode_utf8(text)) {
        Ok(bytes) => Ok(JsonValue::String(bytes)),
        Err(e) => Err(e),
    }
}

/// Bytes as a document: an array of numbers.
pub open spec fn bytes_document(bytes: Seq<u8>) -> JsonValue {
    JsonValue::Array(Seq::new(bytes.len(), |i: int| integer_document(bytes[i] as int)))
}

/// A variant as a document: an object with one member, named as the
/// variant.
pub open spec fn variant_document(
    name: Seq<char>,
    content: Result<JsonValue, ErrorView>,
) -> Result<JsonValue, ErrorView> {
    match c_string_spec(encode_utf8(name)) {
        Err(e) => Err(e),
        Ok(key) => match content {
            Err(e) => Err(e),
            Ok(document) => Ok(JsonValue::Object(seq![(key, document)])),
        },
    }
}

/// The document that stands for a typed value, or the first failure met on
/// the way, going through the value from front to back.
///
/// Integers and floating-point values become numbers; a character and a
/// text become a string; bytes, sequences and tuples become arrays; maps and
/// structs become objects, a later entry replacing an earlier one of the
/// same name; an absent value and a unit become null; a wrapper around one
/// value becomes what it wraps; a variant with content becomes an object
/// with one member, named as the variant. Integers of 128 bits have no
/// document.
pub open spec fn document_of(value: Value) -> Result<JsonValue, ErrorView>
    decreases value,
{
    match value {
        Value::Bool(b) => Ok(JsonValue::Bool(b)),
        Value::I8(n) => Ok(integer_document(n as int)),
        Value::I16(n) => Ok(integer_document(n as int)),
        Value::I32(n) => Ok(integer_document(n as int)),
        Value::I64(n) => Ok(integer_document(n as int)),
        Value::I128(_) => Err(ErrorView::Custom("i128 is not supported"@)),
        Value::U8(n) => Ok(integer_document(n as int)),
        Value::U16(n) => Ok(integer_document(n as int)),
        Value::U32(n) => Ok(integer_document(n as int)),
        Value::U64(n) => Ok(integer_document(n as int)),
        Value::U128(_) => Err(ErrorView::Custom("u128 is not supported"@)),
        Value::F32 { bits, text } => Ok(JsonValue::Number(widen(bits) as u64)),
        Value::F64 { bits, text } => Ok(JsonValue::Number(bits)),
        Value::Char(c) => text_document(seq![c]),
        Value::Str(text) => text_document(text@),
        Value::Bytes(bytes) => Ok(bytes_document(bytes@)),
        Value::Absent => Ok(JsonValue::Null),
        Value::Present(inner) => document_of(*inner),
        Value::Unit => Ok(JsonValue::Null),
        Value::UnitStruct => Ok(JsonValue::Null),
        Value::UnitVariant(name) => text_document(name@),
        Value::NewtypeStruct(inner) => document_of(*inner),
        Value::NewtypeVariant(name, inner) => variant_document(name@, document_of(*inner)),
        Value::Sequence(items) => array_document(items@, Seq::empty()),
        Value::Tuple(items) => array_document(items@, Seq::empty()),
        Value::TupleStruct(items) => array_document(items@, Seq::empty()),
        Value::TupleVariant(name, items) => variant_document(
            name@,
            array_document(items@, Seq::empty()),
        ),
        Value::Mapping(entries) => map_document(entries@, Seq::empty()),
        Value::Struct(fields) => struct_document(fields@, Seq::empty()),
        Value::StructVariant(name, fields) => variant_document(
            name@,
            struct_document(fields@, Seq::empty()),
        ),
    }
}

/// The array that holds `done` and then the documents of `items`.
pub open spec fn array_document(items: Seq<Value>, done: Seq<JsonValue>) -> Result<
    JsonValue,
    ErrorView,
>
    decreases items,
{
    if items.len() == 0 {
        Ok(JsonValue::Array(done))
    } else {
        match document_of(items.first()) {
            Err(e) => Err(e),
            Ok(document) => array_document(items.drop_first(), done.push(document)),
        }
    }
}

/// The object that comes of inserting the entries of a map, one after the
/// other, into an object that holds `done`.
pub open spec fn map_document(entries: Seq<(Value, Value)>, done: Seq<(Seq<u8>, JsonValue)>)
    -> Result<JsonValue, ErrorView>
    decreases entries,
{
    if entries.len() == 0 {
        Ok(JsonValue::Object(done))
    } else {
        match key_of(entries.first().0) {
            Err(e) => Err(e),
            Ok(key) => match document_of(entries.first().1) {
                Err(e) => Err(e),
                Ok(document) => map_document(
                    entries.drop_first(),
                    members_after_insert(done, key, document),
                ),
            },
        }
    }
}

/// The object that comes of inserting the fields of a struct, one after the
/// other, into an object that holds `done`.
pub open spec fn struct_document(fields: Seq<(String, Value)>, done: Seq<(Seq<u8>, JsonValue)>)
    -> Result<JsonValue, ErrorView>
    decreases fields,
{
    if fields.len() == 0 {
        Ok(JsonValue::Object(done))
    } else {
        match c_string_spec(encode_utf8(fields.first().0@)) {
            Err(e) => Err(e),
            Ok(key) => match document_of(fields.first().1) {
                Err(e) => Err(e),
                Ok(document) => struct_document(
                    fields.drop_first(),
                    members_after_insert(done, key, document),
                ),
            },
        }
    }
}

/// Serializes the name of a map entry.
#[derive(Debug, Clone, Copy)]
pub struct MapKeySerializer;

impl MapKeySerializer {
    /// A boolean key: `true` or `false`.
    pub fn serialize_bool(self, value: bool) -> (r: Result<Vec<u8>, Error>)
        ensures
            r matches Ok(key) && key@ == bool_text(value),
    {
        if value {
            Ok(vec![116u8, 114u8, 117u8, 101u8])
        } else {
            Ok(vec![102u8, 97u8, 108u8, 115u8, 101u8])
        }
    }

    /// An integer key: its decimal text.
    pub fn serialize_i8(self, value: i8) -> (r: Result<Vec<u8>, Error>)
        ensures
            r matches Ok(key) && key@ == decimal_spec(value as int),
    {
        Ok(decimal_signed(value as i128))
    }

    /// An integer key: its decimal text.
    pub fn serialize_i16(self, value: i16) -> (r: Result<Vec<u8>, Error>)
        ensures
            r matches Ok(key) && key@ == decimal_spec(value as int),
    {
        Ok(decimal_signed(value as i128))
    }

    /// An integer key: its decimal text.
    pub fn serialize_i32(self, value: i32) -> (r: Result<Vec<u8>, Error>)
        ensures
            r matches Ok(key) && key@ == decimal_spec(value as int),
    {
        Ok(decimal_signed(value as i128))
    }

    /// An integer key: its decimal text.
    pub fn serialize_i64(self, value: i64) -> (r: Result<Vec<u8>, Error>)
        ensures
            r matches Ok(key) && key@ == decimal_spec(value as int),
    {
        Ok(decimal_signed(value as i128))
    }

    /// An integer key: its decimal text.
    pub fn serialize_i128(self, value: i128) -> (r: Result<Vec<u8>, Error>)
        ensures
            r matches Ok(key) && key@ == decimal_spec(value as int),
    {
        Ok(decimal_signed(value))
    }

    /// An integer key: its decimal text.
    pub fn serialize_u8(self, value: u8) -> (r: Result<Vec<u8>, Error>)
        ensures
            r matches Ok(key) && key@ == decimal_spec(value as int),
    {
        Ok(decimal_unsigned(value as u128))
    }

    /// An integer key: its decimal text.
    pub fn serialize_u16(self, value: u16) -> (r: Result<Vec<u8>, Error>)
        ensures
            r matches Ok(key) && key@ == decimal_spec(value as int),
    {
        Ok(decimal_unsigned(value as u128))
    }

    /// An integer key: its decimal text.
    pub fn serialize_u32(self, value: u32) -> (r: Result<Vec<u8>, Error>)
        ensures
            r matches Ok(key) && key@ == decimal_spec(value as int),
    {
        Ok(decimal_unsigned(value as u128))
    }

    /// An integer key: its decimal text.
    pub fn serialize_u64(self, value: u64) -> (r: Result<Vec<u8>, Error>)
        ensures
            r matches Ok(key) && key@ == decimal_spec(value as int),
    {
        Ok(decimal_unsigned(value as u128))
    }

    /// An integer key: its decimal text.
    pub fn serialize_u128(self, value: u128) -> (r: Result<Vec<u8>, Error>)
        ensures
            r matches Ok(key) && key@ == decimal_spec(value as int),
    {
        Ok(decimal_unsigned(value))
    }

    /// A single-precision key, given by its bit pattern and its decimal
    /// text: the text, unless the value is an infinity or a NaN.
    pub fn serialize_f32(self, bits: u32, text: &str) -> (r: Result<Vec<u8>, Error>)
        ensures
            match r {
                Ok(key) => is_finite32_spec(bits) && c_string_spec(encode_utf8(text@)) == Ok::<
                    Seq<u8>,
                    ErrorView,
                >(key@),
                Err(e) => if is_finite32_spec(bits) {
                    c_string_spec(encode_utf8(text@)) == Err::<Seq<u8>, ErrorView>(e@)
                } else {
                    e@ == ErrorView::FloatNotFinite
                },
            },
    {
        if is_finite32(bits) {
            c_string(text.as_bytes())
        } else {
            Err(Error::FloatNotFinite)
        }
    }

    /// A double-precision key, given by its bit pattern and its decimal
    /// text: the text, unless the value is an infinity or a NaN.
    pub fn serialize_f64(self, bits: u64, text: &str) -> (r: Result<Vec<u8>, Error>)
        ensures
            match r {
                Ok(key) => is_finite_spec(bits) && c_string_spec(encode_utf8(text@)) == Ok::<
                    Seq<u8>,
                    ErrorView,
                >(key@),
                Err(e) => if is_finite_spec(bits) {
                    c_string_spec(encode_utf8(text@)) == Err::<Seq<u8>, ErrorView>(e@)
                } else {
                    e@ == ErrorView::FloatNotFinite
                },
            },
    {
        if is_finite(bits) {
            c_string(text.as_bytes())
        } else {
            Err(Error::FloatNotFinite)
        }
    }

    /// A key that is one character.
    pub fn serialize_char(self, value: char) -> (r: Result<Vec<u8>, Error>)
        ensures
            match r {
                Ok(key) => c_string_spec(encode_utf8(seq![value])) == Ok::<Seq<u8>, ErrorView>(
                    key@,
                ),
                Err(e) => c_string_spec(encode_utf8(seq![value])) == Err::<Seq<u8>, ErrorView>(
                    e@,
                ),
            },
    {
        let bytes = encode_char(value);
        c_string(bytes.as_slice())
    }

    /// A key that is a text.
    pub fn serialize_str(self, value: &str) -> (r: Result<Vec<u8>, Error>)
        ensures
            match r {
                Ok(key) => c_string_spec(encode_utf8(value@)) == Ok::<Seq<u8>, ErrorView>(key@),
                Err(e) => c_string_spec(encode_utf8(value@)) == Err::<Seq<u8>, ErrorView>(e@),
            },
    {
        c_string(value.as_bytes())
    }

    /// A key that something wrote of itself; the same as `serialize_str`.
    pub fn collect_str(self, value: &str) -> (r: Result<Vec<u8>, Error>)
        ensures
            match r {
                Ok(key) => c_string_spec(encode_utf8(value@)) == Ok::<Seq<u8>, ErrorView>(key@),
                Err(e) => c_string_spec(encode_utf8(value@)) == Err::<Seq<u8>, ErrorView>(e@),
            },
    {
        c_string(value.as_bytes())
    }

    /// A key that is a variant without fields: the name of the variant.
    pub fn serialize_unit_variant(self, variant: &str) -> (r: Result<Vec<u8>, Error>)
        ensures
            match r {
                Ok(key) => c_string_spec(encode_utf8(variant@)) == Ok::<Seq<u8>, ErrorView>(key@),
                Err(e) => c_string_spec(encode_utf8(variant@)) == Err::<Seq<u8>, ErrorView>(e@),
            },
    {
        c_string(variant.as_bytes())
    }

    /// A key that wraps one value: the key that the wrapped value gave.
    pub fn serialize_newtype_struct(self, value: Result<Vec<u8>, Error>) -> (r: Result<
        Vec<u8>,
        Error,
    >)
        ensures
            r == value,
    {
        value
    }

    /// The refusal of a key of any other kind: bytes, an optional value, a
    /// unit, a variant with content, a sequence, a tuple, a map, a struct.
    pub fn refuse(self) -> (r: Result<Vec<u8>, Error>)
        ensures
            r matches Err(e) && e@ == ErrorView::KeyMustBeAString,
    {
        Err(Error::KeyMustBeAString)
    }
}

/// The name that stands for `value` where it is the key of a map entry.
pub fn to_key(value: &Value) -> (r: Result<Vec<u8>, Error>)
    ensures
        match r {
            Ok(key) => key_of(*value) == Ok::<Seq<u8>, ErrorView>(key@),
            Err(e) => key_of(*value) == Err::<Seq<u8>, ErrorView>(e@),
        },
    decreases value,
{
    match value {
        Value::Bool(b) => MapKeySerializer.serialize_bool(*b),
        Value::I8(n) => MapKeySerializer.serialize_i8(*n),
        Value::I16(n) => MapKeySerializer.serialize_i16(*n),
        Value::I32(n) => MapKeySerializer.serialize_i32(*n),
        Value::I64(n) => MapKeySerializer.serialize_i64(*n),
        Value::I128(n) => MapKeySerializer.serialize_i128(*n),
        Value::U8(n) => MapKeySerializer.serialize_u8(*n),
        Value::U16(n) => MapKeySerializer.serialize_u16(*n),
        Value::U32(n) => MapKeySerializer.serialize_u32(*n),
        Value::U64(n) => MapKeySerializer.serialize_u64(*n),
        Value::U128(n) => MapKeySerializer.serialize_u128(*n),
        Value::F32 { bits, text } => MapKeySerializer.serialize_f32(*bits, text.as_str()),
        Value::F64 { bits, text } => MapKeySerializer.serialize_f64(*bits, text.as_str()),
        Value::Char(c) => MapKeySerializer.serialize_char(*c),
        Value::Str(text) => MapKeySerializer.serialize_str(text.as_str()),
        Value::UnitVariant(name) => MapKeySerializer.serialize_unit_variant(name.as_str()),
        Value::NewtypeStruct(inner) => MapKeySerializer.serialize_newtype_struct(to_key(inner)),
        _ => MapKeySerializer.refuse(),
    }
}

/// Collects the elements of a sequence, a tuple or a tuple struct into an
/// array.
#[derive(Debug)]
pub struct SerializeCJsonArray {
    array: CJsonArray<CJson<'static>>,
}

impl SerializeCJsonArray {
    /// Whether the collection is in order, as it is from the start and
    /// stays through every operation.
    pub closed spec fn wf(&self) -> bool {
        self.array.wf()
    }

    /// The elements collected so far.
    pub closed spec fn items(&self) -> Seq<JsonValue> {
        self.array.items()
    }

    /// Takes the next element. A failure of the element is handed on and
    /// leaves the collection as it was.
    pub fn serialize_element(&mut self, value: Result<CJson<'static>, Error>) -> (r: Result<
        (),
        Error,
    >)
        requires
            old(self).wf(),
        ensures
            final(self).wf(),
            match value {
                Ok(element) => r is Ok && final(self).items() == old(self).items().push(element@),
                Err(e) => r == Err::<(), Error>(e) && final(self).items() == old(self).items(),
            },
    {
        match value {
            Ok(element) => {
                self.array.push(element);
                Ok(())
            },
            Err(e) => Err(e),
        }
    }

    /// Takes the next field of a tuple struct; the same as
    /// `serialize_element`.
    pub fn serialize_field(&mut self, value: Result<CJson<'static>, Error>) -> (r: Result<
        (),
        Error,
    >)
        requires
            old(self).wf(),
        ensures
            final(self).wf(),
            match value {
                Ok(element) => r is Ok && final(self).items() == old(self).items().push(element@),
                Err(e) => r == Err::<(), Error>(e) && final(self).items() == old(self).items(),
            },
    {
        self.serialize_element(value)
    }

    /// The array of what was collected.
    pub fn end(self) -> (r: Result<CJson<'static>, Error>)
        requires
            self.wf(),
        ensures
            r matches Ok(document) && document@ == JsonValue::Array(self.items()),
    {
        Ok(self.array.inner)
    }
}

/// Collects the entries of a map or the fields of a struct into an object.
#[derive(Debug)]
pub struct SerializeCJsonObject {
    object: CJsonObject<CJson<'static>>,
    next_key: Option<Vec<u8>>,
}

impl SerializeCJsonObject {
    /// Whether the collection is in order, as it is from the start and
    /// stays through every operation.
    pub closed spec fn wf(&self) -> bool {
        self.object.wf()
    }

    /// The members collected so far.
    pub closed spec fn members(&self) -> Seq<(Seq<u8>, JsonValue)> {
        self.object.members()
    }

    /// The name that waits for its value, if one does.
    pub closed spec fn pending(&self) -> Option<Seq<u8>> {
        match self.next_key {
            Some(key) => Some(key@),
            None => None,
        }
    }

    /// Takes the name of the next entry and keeps it until the value
    /// comes. A failure of the name is handed on.
    pub fn serialize_key(&mut self, key: Result<Vec<u8>, Error>) -> (r: Result<(), Error>)
        requires
            old(self).wf(),
        ensures
            final(self).wf(),
            final(self).members() == old(self).members(),
            match key {
                Ok(name) => r is Ok && final(self).pending() == Some(name@),
                Err(e) => r == Err::<(), Error>(e) && final(self).pending() == old(self).pending(),
            },
    {
        match key {
            Ok(name) => {
                self.next_key = Some(name);
                Ok(())
            },
            Err(e) => Err(e),
        }
    }

    /// Takes the value of the entry whose name came last and inserts the
    /// entry: an earlier member of that name leaves the object. A failure of
    /// the value is handed on; the name is used up either way.
    pub fn serialize_value(&mut self, value: Result<CJson<'static>, Error>) -> (r: Result<
        (),
        Error,
    >)
        requires
            old(self).wf(),
            old(self).pending() is Some,
        ensures
            final(self).wf(),
            final(self).pending() is None,
            match value {
                Ok(document) => r is Ok && final(self).members() == members_after_insert(
                    old(self).members(),
                    old(self).pending()->0,
                    document@,
                ),
                Err(e) => r == Err::<(), Error>(e) && final(self).members() == old(self).members(),
            },
    {
        let key = self.next_key.take();
        match key {
            Some(name) => match value {
                Ok(document) => {
                    let _ = self.object.insert(name.as_slice(), document);
                    Ok(())
                },
                Err(e) => Err(e),
            },
            None => vstd::pervasive::unreached(),
        }
    }

    /// Takes the next field of a struct: its name, then its value. A name
    /// with a zero byte fails before the value is looked at.
    pub fn serialize_field(&mut self, key: &str, value: Result<CJson<'static>, Error>) -> (r:
        Result<(), Error>)
        requires
            old(self).wf(),
        ensures
            final(self).wf(),
            match c_string_spec(encode_utf8(key@)) {
                Err(e) => r matches Err(failure) && failure@ == e && final(self).members() == old(
                    self,
                ).members(),
                Ok(name) => match value {
                    Ok(document) => r is Ok && final(self).members() == members_after_insert(
                        old(self).members(),
                        name,
                        document@,
                    ),
                    Err(e) => r == Err::<(), Error>(e) && final(self).members() == old(
                        self,
                    ).members(),
                },
            },
    {
        match self.serialize_key(c_string(key.as_bytes())) {
            Err(e) => Err(e),
            Ok(()) => self.serialize_value(value),
        }
    }

    /// The object of what was collected.
    pub fn end(self) -> (r: Result<CJson<'static>, Error>)
        requires
            self.wf(),
        ensures
            r matches Ok(document) && document@ == JsonValue::Object(self.members()),
    {
        Ok(self.object.inner)
    }
}

/// An object with the one member `name`: `content`.
fn wrap_variant(name: Vec<u8>, content: CJson<'static>) -> (r: Result<CJson<'static>, Error>)
    ensures
        r matches Ok(document) && document@ == JsonValue::Object(seq![(name@, content@)]),
{
    match CJsonObject::new() {
        Ok(mut object) => {
            let _ = object.insert(name.as_slice(), content);
            proof {
                assert(object.members() =~= seq![(name@, content@)]);
            }
            Ok(object.inner)
        },
        Err(e) => Err(Error::CJson(e)),
    }
}

/// Collects the fields of a variant with unnamed fields.
#[derive(Debug)]
pub struct SerializeTupleVariant {
    name: Vec<u8>,
    array: CJsonArray<CJson<'static>>,
}

impl SerializeTupleVariant {
    /// Whether the collection is in order, as it is from the start and
    /// stays through every operation.
    pub closed spec fn wf(&self) -> bool {
        self.array.wf()
    }

    /// The name of the variant.
    pub closed spec fn name(&self) -> Seq<u8> {
        self.name@
    }

    /// The fields collected so far.
    pub closed spec fn items(&self) -> Seq<JsonValue> {
        self.array.items()
    }

    /// Takes the next field. A failure of the field is handed on and leaves
    /// the collection as it was.
    pub fn serialize_field(&mut self, value: Result<CJson<'static>, Error>) -> (r: Result<
        (),
        Error,
    >)
        requires
            old(self).wf(),
        ensures
            final(self).wf(),
            final(self).name() == old(self).name(),
            match value {
                Ok(element) => r is Ok && final(self).items() == old(self).items().push(element@),
                Err(e) => r == Err::<(), Error>(e) && final(self).items() == old(self).items(),
            },
    {
        match value {
            Ok(element) => {
                self.array.push(element);
                Ok(())
            },
            Err(e) => Err(e),
        }
    }

    /// An object with one member: under the name of the variant, the array
    /// of its fields.
    pub fn end(self) -> (r: Result<CJson<'static>, Error>)
        requires
            self.wf(),
        ensures
            r matches Ok(document) && document@ == JsonValue::Object(
                seq![(self.name(), JsonValue::Array(self.items()))],
            ),
    {
        wrap_variant(self.name, self.array.inner)
    }
}

/// Collects the fields of a variant with named fields.
#[derive(Debug)]
pub struct SerializeStructVariant {
    name: Vec<u8>,
    object: CJsonObject<CJson<'static>>,
}

impl SerializeStructVariant {
    /// Whether the collection is in order, as it is from the start and
    /// stays through every operation.
    pub closed spec fn wf(&self) -> bool {
        self.object.wf()
    }

    /// The name of the variant.
    pub closed spec fn name(&self) -> Seq<u8> {
        self.name@
    }

    /// The fields collected so far.
    pub closed spec fn members(&self) -> Seq<(Seq<u8>, JsonValue)> {
        self.object.members()
    }

    /// Takes the next field: its name, then its value. A name with a zero
    /// byte fails before the value is looked at.
    pub fn serialize_field(&mut self, key: &str, value: Result<CJson<'static>, Error>) -> (r:
        Result<(), Error>)
        requires
            old(self).wf(),
        ensures
            final(self).wf(),
            final(self).name() == old(self).name(),
            match c_string_spec(encode_utf8(key@)) {
                Err(e) => r matches Err(failure) && failure@ == e && final(self).members() == old(
                    self,
                ).members(),
                Ok(name) => match value {
                    Ok(document) => r is Ok && final(self).members() == members_after_insert(
                        old(self).members(),
                        name,
                        document@,
                    ),
                    Err(e) => r == Err::<(), Error>(e) && final(self).members() == old(
                        self,
                    ).members(),
                },
            },
    {
        match c_string(key.as_bytes()) {
            Err(e) => Err(e),
            Ok(name) => match value {
                Err(e) => Err(e),
                Ok(document) => {
                    let _ = self.object.insert(name.as_slice(), document);
                    Ok(())
                },
            },
        }
    }

    /// An object with one member: under the name of the variant, the object
    /// of its fields.
    pub fn end(self) -> (r: Result<CJson<'static>, Error>)
        requires
            self.wf(),
        ensures
            r matches Ok(document) && document@ == JsonValue::Object(
                seq![(self.name(), JsonValue::Object(self.members()))],
            ),
    {
        wrap_variant(self.name, self.object.inner)
    }
}

/// Turns typed values into documents, one kind at a time.
#[derive(Debug, Clone, Copy, PartialEq, Eq)]
pub struct Serializer;

impl Serializer {
    /// A boolean.
    pub fn serialize_bool(self, v: bool) -> (r: Result<CJson<'static>, Error>)
        ensures
            r matches Ok(document) && document@ == JsonValue::Bool(v),
    {
        match CJson::bool(v) {
            Ok(document) => Ok(document),
            Err(e) => Err(Error::CJson(e)),
        }
    }

    /// An integer: the number nearest to it.
    pub fn serialize_i8(self, v: i8) -> (r: Result<CJson<'static>, Error>)
        ensures
            r matches Ok(document) && document@ == integer_document(v as int),
    {
        self.serialize_f64(from_i64(v as i64))
    }

    /// An integer: the number nearest to it.
    pub fn serialize_i16(self, v: i16) -> (r: Result<CJson<'static>, Error>)
        ensures
            r matches Ok(document) && document@ == integer_document(v as int),
    {
        self.serialize_f64(from_i64(v as i64))
    }

    /// An integer: the number nearest to it.
    pub fn serialize_i32(self, v: i32) -> (r: Result<CJson<'static>, Error>)
        ensures
            r matches Ok(document) && document@ == integer_document(v as int),
    {
        self.serialize_f64(from_i64(v as i64))
    }

    /// An integer: the number nearest to it.
    pub fn serialize_i64(self, v: i64) -> (r: Result<CJson<'static>, Error>)
        ensures
            r matches Ok(document) && document@ == integer_document(v as int),
    {
        self.serialize_f64(from_i64(v))
    }

    /// An integer: the number nearest to it.
    pub fn serialize_u8(self, v: u8) -> (r: Result<CJson<'static>, Error>)
        ensures
            r matches Ok(document) && document@ == integer_document(v as int),
    {
        self.serialize_f64(from_u64(v as u64))
    }

    /// An integer: the number nearest to it.
    pub fn serialize_u16(self, v: u16) -> (r: Result<CJson<'static>, Error>)
        ensures
            r matches Ok(document) && document@ == integer_document(v as int),
    {
        self.serialize_f64(from_u64(v as u64))
    }

    /// An integer: the number nearest to it.
    pub fn serialize_u32(self, v: u32) -> (r: Result<CJson<'static>, Error>)
        ensures
            r matches Ok(document) && document@ == integer_document(v as int),
    {
        self.serialize_f64(from_u64(v as u64))
    }

    /// An integer: the number nearest to it.
    pub fn serialize_u64(self, v: u64) -> (r: Result<CJson<'static>, Error>)
        ensures
            r matches Ok(document) && document@ == integer_document(v as int),
    {
        self.serialize_f64(from_u64(v))
    }

    /// An integer of 128 bits, for which documents have no number.
    pub fn serialize_i128(self, v: i128) -> (r: Result<CJson<'static>, Error>)
        ensures
            r matches Err(e) && e@ == ErrorView::Custom("i128 is not supported"@),
    {
        Err(Error::Custom("i128 is not supported".to_owned()))
    }

    /// An integer of 128 bits, for which documents have no number.
    pub fn serialize_u128(self, v: u128) -> (r: Result<CJson<'static>, Error>)
        ensures
            r matches Err(e) && e@ == ErrorView::Custom("u128 is not supported"@),
    {
        Err(Error::Custom("u128 is not supported".to_owned()))
    }

    /// A single-precision value, given by its bit pattern: the
    /// double-precision value of the same value.
    pub fn serialize_f32(self, bits: u32) -> (r: Result<CJson<'static>, Error>)
        ensures
            r matches Ok(document) && document@ == JsonValue::Number(widen(bits) as u64),
    {
        self.serialize_f64(from_f32_bits(bits))
    }

    /// A double-precision value, given by its bit pattern.
    pub fn serialize_f64(self, bits: u64) -> (r: Result<CJson<'static>, Error>)
        ensures
            r matches Ok(document) && document@ == JsonValue::Number(bits),
    {
        match CJson::number(bits) {
            Ok(document) => Ok(document),
            Err(e) => Err(Error::CJson(e)),
        }
    }

    /// One character: a string that holds it.
    pub fn serialize_char(self, v: char) -> (r: Result<CJson<'static>, Error>)
        ensures
            match r {
                Ok(document) => text_document(seq![v]) == Ok::<JsonValue, ErrorView>(document@),
                Err(e) => text_document(seq![v]) == Err::<JsonValue, ErrorView>(e@),
            },
    {
        let bytes = encode_char(v);
        match c_string(bytes.as_slice()) {
            Err(e) => Err(e),
            Ok(copy) => match CJson::string(copy.as_slice()) {
                Ok(document) => Ok(document),
                Err(e) => Err(Error::CJson(e)),
            },
        }
    }

    /// A text: a string of its bytes, unless one of them is zero.
    pub fn serialize_str(self, v: &str) -> (r: Result<CJson<'static>, Error>)
        ensures
            match r {
                Ok(document) => text_document(v@) == Ok::<JsonValue, ErrorView>(document@),
                Err(e) => text_document(v@) == Err::<JsonValue, ErrorView>(e@),
            },
    {
        match c_string(v.as_bytes()) {
            Err(e) => Err(e),
            Ok(bytes) => match CJson::string(bytes.as_slice()) {
                Ok(document) => Ok(document),
                Err(e) => Err(Error::CJson(e)),
            },
        }
    }

    /// A text that something wrote of itself; the same as `serialize_str`.
    pub fn collect_str(self, v: &str) -> (r: Result<CJson<'static>, Error>)
        ensures
            match r {
                Ok(document) => text_document(v@) == Ok::<JsonValue, ErrorView>(document@),
                Err(e) => text_document(v@) == Err::<JsonValue, ErrorView>(e@),
            },
    {
        self.serialize_str(v)
    }

    /// Bytes: an array of numbers.
    pub fn serialize_bytes(self, v: &[u8]) -> (r: Result<CJson<'static>, Error>)
        ensures
            r matches Ok(document) && document@ == bytes_document(v@),
    {
        let mut array = match CJsonArray::new() {
            Ok(array) => array,
            Err(e) => {
                return Err(Error::CJson(e));
            },
        };
        let mut i: usize = 0;
        while i < v.len()
            invariant
                array.wf(),
                0 <= i <= v.len(),
                array.items() == bytes_document(v@).children().take(i as int),
            decreases v.len() - i,
        {
            match CJson::number(from_u64(v[i] as u64)) {
                Ok(element) => {
                    array.push(element);
                },
                Err(e) => {
                    return Err(Error::CJson(e));
                },
            }
            proof {
                let all = bytes_document(v@).children();
                assert(all.take(i + 1) =~= all.take(i as int).push(all[i as int]));
            }
            i += 1;
        }
        proof {
            let all = bytes_document(v@).children();
            assert(all.take(i as int) =~= all);
        }
        Ok(array.inner)
    }

    /// An optional value that is absent: null.
    pub fn serialize_none(self) -> (r: Result<CJson<'static>, Error>)
        ensures
            r matches Ok(document) && document@ == JsonValue::Null,
    {
        match CJson::null() {
            Ok(document) => Ok(document),
            Err(e) => Err(Error::CJson(e)),
        }
    }

    /// An optional value that is present: what the value gave.
    pub fn serialize_some(self, value: Result<CJson<'static>, Error>) -> (r: Result<
        CJson<'static>,
        Error,
    >)
        ensures
            r == value,
    {
        value
    }

    /// A unit: null.
    pub fn serialize_unit(self) -> (r: Result<CJson<'static>, Error>)
        ensures
            r matches Ok(document) && document@ == JsonValue::Null,
    {
        self.serialize_none()
    }

    /// A struct without fields: null.
    pub fn serialize_unit_struct(self) -> (r: Result<CJson<'static>, Error>)
        ensures
            r matches Ok(document) && document@ == JsonValue::Null,
    {
        self.serialize_none()
    }

    /// A variant without fields: a string of its name.
    pub fn serialize_unit_variant(self, variant: &str) -> (r: Result<CJson<'static>, Error>)
        ensures
            match r {
                Ok(document) => text_document(variant@) == Ok::<JsonValue, ErrorView>(document@),
                Err(e) => text_document(variant@) == Err::<JsonValue, ErrorView>(e@),
            },
    {
        self.serialize_str(variant)
    }

    /// A wrapper around one value: what the value gave.
    pub fn serialize_newtype_struct(self, value: Result<CJson<'static>, Error>) -> (r: Result<
        CJson<'static>,
        Error,
    >)
        ensures
            r == value,
    {
        value
    }

    /// A variant with one unnamed field: an object with one member, named
    /// as the variant, that holds what the field gave. A name with a zero
    /// byte fails before the field is looked at.
    pub fn serialize_newtype_variant(
        self,
        variant: &str,
        value: Result<CJson<'static>, Error>,
    ) -> (r: Result<CJson<'static>, Error>)
        ensures
            match c_string_spec(encode_utf8(variant@)) {
                Err(e) => r matches Err(failure) && failure@ == e,
                Ok(name) => match value {
                    Err(e) => r == Err::<CJson<'static>, Error>(e),
                    Ok(content) => r matches Ok(document) && document@ == JsonValue::Object(
                        seq![(name, content@)],
                    ),
                },
            },
    {
        match c_string(variant.as_bytes()) {
            Err(e) => Err(e),
            Ok(name) => match value {
                Err(e) => Err(e),
                Ok(content) => wrap_variant(name, content),
            },
        }
    }

    /// Starts a sequence.
    pub fn serialize_seq(self) -> (r: Result<SerializeCJsonArray, Error>)
        ensures
            r matches Ok(builder) && builder.wf() && builder.items() == Seq::<JsonValue>::empty(),
    {
        match CJsonArray::new() {
            Ok(array) => Ok(SerializeCJsonArray { array }),
            Err(e) => Err(Error::CJson(e)),
        }
    }

    /// Starts a tuple.
    pub fn serialize_tuple(self) -> (r: Result<SerializeCJsonArray, Error>)
        ensures
            r matches Ok(builder) && builder.wf() && builder.items() == Seq::<JsonValue>::empty(),
    {
        self.serialize_seq()
    }

    /// Starts a tuple struct.
    pub fn serialize_tuple_struct(self) -> (r: Result<SerializeCJsonArray, Error>)
        ensures
            r matches Ok(builder) && builder.wf() && builder.items() == Seq::<JsonValue>::empty(),
    {
        self.serialize_seq()
    }

    /// Starts a variant with unnamed fields. Fails where the name of the
    /// variant holds a zero byte.
    pub fn serialize_tuple_variant(self, variant: &str) -> (r: Result<SerializeTupleVariant, Error>)
        ensures
            match c_string_spec(encode_utf8(variant@)) {
                Err(e) => r matches Err(failure) && failure@ == e,
                Ok(name) => r matches Ok(builder) && builder.wf() && builder.name() == name
                    && builder.items() == Seq::<JsonValue>::empty(),
            },
    {
        match c_string(variant.as_bytes()) {
            Err(e) => Err(e),
            Ok(name) => match CJsonArray::new() {
                Ok(array) => Ok(SerializeTupleVariant { name, array }),
                Err(e) => Err(Error::CJson(e)),
            },
        }
    }

    /// Starts a map.
    pub fn serialize_map(self) -> (r: Result<SerializeCJsonObject, Error>)
        ensures
            r matches Ok(builder) && builder.wf() && builder.pending() is None && builder.members()
                == Seq::<(Seq<u8>, JsonValue)>::empty(),
    {
        match CJsonObject::new() {
            Ok(object) => Ok(SerializeCJsonObject { object, next_key: None }),
            Err(e) => Err(Error::CJson(e)),
        }
    }

    /// Starts a struct.
    pub fn serialize_struct(self) -> (r: Result<SerializeCJsonObject, Error>)
        ensures
            r matches Ok(builder) && builder.wf() && builder.pending() is None && builder.members()
                == Seq::<(Seq<u8>, JsonValue)>::empty(),
    {
        self.serialize_map()
    }

    /// Starts a variant with named fields. Fails where the name of the
    /// variant holds a zero byte.
    pub fn serialize_struct_variant(self, variant: &str) -> (r: Result<
        SerializeStructVariant,
        Error,
    >)
        ensures
            match c_string_spec(encode_utf8(variant@)) {
                Err(e) => r matches Err(failure) && failure@ == e,
                Ok(name) => r matches Ok(builder) && builder.wf() && builder.name() == name
                    && builder.members() == Seq::<(Seq<u8>, JsonValue)>::empty(),
            },
    {
        match c_string(variant.as_bytes()) {
            Err(e) => Err(e),
            Ok(name) => match CJsonObject::new() {
                Ok(object) => Ok(SerializeStructVariant { name, object }),
                Err(e) => Err(Error::CJson(e)),
            },
        }
    }
}

/// The document that stands for `value`.
pub fn to_cjson(value: &Value) -> (r: Result<CJson<'static>, Error>)
    ensures
        match r {
            Ok(document) => document_of(*value) == Ok::<JsonValue, ErrorView>(document@),
            Err(e) => document_of(*value) == Err::<JsonValue, ErrorView>(e@),
        },
    decreases value, 1nat,
{
    match value {
        Value::Bool(b) => Serializer.serialize_bool(*b),
        Value::I8(n) => Serializer.serialize_i8(*n),
        Value::I16(n) => Serializer.serialize_i16(*n),
        Value::I32(n) => Serializer.serialize_i32(*n),
        Value::I64(n) => Serializer.serialize_i64(*n),
        Value::I128(n) => Serializer.serialize_i128(*n),
        Value::U8(n) => Serializer.serialize_u8(*n),
        Value::U16(n) => Serializer.serialize_u16(*n),
        Value::U32(n) => Serializer.serialize_u32(*n),
        Value::U64(n) => Serializer.serialize_u64(*n),
        Value::U128(n) => Serializer.serialize_u128(*n),
        Value::F32 { bits, text } => Serializer.serialize_f32(*bits),
        Value::F64 { bits, text } => Serializer.serialize_f64(*bits),
        Value::Char(c) => Serializer.serialize_char(*c),
        Value::Str(text) => Serializer.serialize_str(text.as_str()),
        Value::Bytes(bytes) => Serializer.serialize_bytes(bytes.as_slice()),
        Value::Absent => Serializer.serialize_none(),
        Value::Present(inner) => Serializer.serialize_some(to_cjson(inner)),
        Value::Unit => Serializer.serialize_unit(),
        Value::UnitStruct => Serializer.serialize_unit_struct(),
        Value::UnitVariant(name) => Serializer.serialize_unit_variant(name.as_str()),
        Value::NewtypeStruct(inner) => Serializer.serialize_newtype_struct(to_cjson(inner)),
        Value::NewtypeVariant(name, inner) => Serializer.serialize_newtype_variant(
            name.as_str(),
            to_cjson(inner),
        ),
        Value::Sequence(items) => serialize_items(value, items),
        Value::Tuple(items) => serialize_items(value, items),
        Value::TupleStruct(items) => serialize_items(value, items),
        Value::TupleVariant(name, items) => serialize_variant_items(value, name, items),
        Value::Mapping(entries) => serialize_entries(value, entries),
        Value::Struct(fields) => serialize_fields(value, fields),
        Value::StructVariant(name, fields) => serialize_variant_fields(value, name, fields),
    }
}

/// The object with one member, named `name`, that holds the array of the
/// documents of `items`, which are the fields of the variant `whole`.
fn serialize_variant_items(whole: &Value, name: &String, items: &Vec<Value>) -> (r: Result<
    CJson<'static>,
    Error,
>)
    requires
        *whole matches Value::TupleVariant(_, inner) && inner == *items,
    ensures
        match r {
            Ok(document) => variant_document(name@, array_document(items@, Seq::empty())) == Ok::<
                JsonValue,
                ErrorView,
            >(document@),
            Err(e) => variant_document(name@, array_document(items@, Seq::empty())) == Err::<
                JsonValue,
                ErrorView,
            >(e@),
        },
    decreases whole, 0nat,
{
    let mut builder = match Serializer.serialize_tuple_variant(name.as_str()) {
        Ok(builder) => builder,
        Err(e) => {
            return Err(e);
        },
    };
    let mut i: usize = 0;
    proof {
        assert(items@.skip(0) =~= items@);
    }
    while i < items.len()
        invariant
            *whole matches Value::TupleVariant(_, inner) && inner == *items,
            builder.wf(),
            0 <= i <= items.len(),
            c_string_spec(encode_utf8(name@)) == Ok::<Seq<u8>, ErrorView>(builder.name()),
            array_document(items@, Seq::empty()) == array_document(
                items@.skip(i as int),
                builder.items(),
            ),
        decreases items.len() - i,
    {
        proof {
            assert(items@.skip(i as int).drop_first() =~= items@.skip(i + 1));
            assert(items@.skip(i as int).first() == items@[i as int]);
        }
        match builder.serialize_field(to_cjson(&items[i])) {
            Ok(()) => {},
            Err(e) => {
                return Err(e);
            },
        }
        i += 1;
    }
    builder.end()
}

/// The object of the entries of the map `whole`.
fn serialize_entries(whole: &Value, entries: &Vec<(Value, Value)>) -> (r: Result<
    CJson<'static>,
    Error,
>)
    requires
        *whole matches Value::Mapping(inner) && inner == *entries,
    ensures
        match r {
            Ok(document) => map_document(entries@, Seq::empty()) == Ok::<JsonValue, ErrorView>(
                document@,
            ),
            Err(e) => map_document(entries@, Seq::empty()) == Err::<JsonValue, ErrorView>(e@),
        },
    decreases whole, 0nat,
{
    let mut builder = match Serializer.serialize_map() {
        Ok(builder) => builder,
        Err(e) => {
            return Err(e);
        },
    };
    let mut i: usize = 0;
    proof {
        assert(entries@.skip(0) =~= entries@);
    }
    while i < entries.len()
        invariant
            *whole matches Value::Mapping(inner) && inner == *entries,
            builder.wf(),
            0 <= i <= entries.len(),
            map_document(entries@, Seq::empty()) == map_document(
                entries@.skip(i as int),
                builder.members(),
            ),
        decreases entries.len() - i,
    {
        proof {
            assert(entries@.skip(i as int).drop_first() =~= entries@.skip(i + 1));
            assert(entries@.skip(i as int).first() == entries@[i as int]);
        }
        match builder.serialize_key(to_key(&entries[i].0)) {
            Ok(()) => {},
            Err(e) => {
                return Err(e);
            },
        }
        match builder.serialize_value(to_cjson(&entries[i].1)) {
            Ok(()) => {},
            Err(e) => {
                return Err(e);
            },
        }
        i += 1;
    }
    builder.end()
}

/// The object of the fields of the struct `whole`.
fn serialize_fields(whole: &Value, fields: &Vec<(String, Value)>) -> (r: Result<
    CJson<'static>,
    Error,
>)
    requires
        *whole matches Value::Struct(inner) && inner == *fields,
    ensures
        match r {
            Ok(document) => struct_document(fields@, Seq::empty()) == Ok::<JsonValue, ErrorView>(
                document@,
            ),
            Err(e) => struct_document(fields@, Seq::empty()) == Err::<JsonValue, ErrorView>(e@),
        },
    decreases whole, 0nat,
{
    let mut builder = match Serializer.serialize_struct() {
        Ok(builder) => builder,
        Err(e) => {
            return Err(e);
        },
    };
    let mut i: usize = 0;
    proof {
        assert(fields@.skip(0) =~= fields@);
    }
    while i < fields.len()
        invariant
            *whole matches Value::Struct(inner) && inner == *fields,
            builder.wf(),
            0 <= i <= fields.len(),
            struct_document(fields@, Seq::empty()) == struct_document(
                fields@.skip(i as int),
                builder.members(),
            ),
        decreases fields.len() - i,
    {
        proof {
            assert(fields@.skip(i as int).drop_first() =~= fields@.skip(i + 1));
            assert(fields@.skip(i as int).first() == fields@[i as int]);
        }
        match builder.serialize_field(fields[i].0.as_str(), to_cjson(&fields[i].1)) {
            Ok(()) => {},
            Err(e) => {
                return Err(e);
            },
        }
        i += 1;
    }
    builder.end()
}

/// The object with one member, named `name`, that holds the object of
/// `fields`, which are the fields of the variant `whole`.
fn serialize_variant_fields(whole: &Value, name: &String, fields: &Vec<(String, Value)>) -> (r:
    Result<CJson<'static>, Error>)
    requires
        *whole matches Value::StructVariant(_, inner) && inner == *fields,
    ensures
        match r {
            Ok(document) => variant_document(name@, struct_document(fields@, Seq::empty()))
                == Ok::<JsonValue, ErrorView>(document@),
            Err(e) => variant_document(name@, struct_document(fields@, Seq::empty())) == Err::<
                JsonValue,
                ErrorView,
            >(e@),
        },
    decreases whole, 0nat,
{
    let mut builder = match Serializer.serialize_struct_variant(name.as_str()) {
        Ok(builder) => builder,
        Err(e) => {
            return Err(e);
        },
    };
    let mut i: usize = 0;
    proof {
        assert(fields@.skip(0) =~= fields@);
    }
    while i < fields.len()
        invariant
            *whole matches Value::StructVariant(_, inner) && inner == *fields,
            builder.wf(),
            0 <= i <= fields.len(),
            c_string_spec(encode_utf8(name@)) == Ok::<Seq<u8>, ErrorView>(builder.name()),
            struct_document(fields@, Seq::empty()) == struct_document(
                fields@.skip(i as int),
                builder.members(),
            ),
        decreases fields.len() - i,
    {
        proof {
            assert(fields@.skip(i as int).drop_first() =~= fields@.skip(i + 1));
            assert(fields@.skip(i as int).first() == fields@[i as int]);
        }
        match builder.serialize_field(fields[i].0.as_str(), to_cjson(&fields[i].1)) {
            Ok(()) => {},
            Err(e) => {
                return Err(e);
            },
        }
        i += 1;
    }
    builder.end()
}

/// The array of the documents of `items`, which are the elements of
/// `whole`.
fn serialize_items(whole: &Value, items: &Vec<Value>) -> (r: Result<CJson<'static>, Error>)
    requires
        match *whole {
            Value::Sequence(inner) => inner == *items,
            Value::Tuple(inner) => inner == *items,
            Value::TupleStruct(inner) => inner == *items,
            _ => false,
        },
    ensures
        match r {
            Ok(document) => array_document(items@, Seq::empty()) == Ok::<JsonValue, ErrorView>(
                document@,
            ),
            Err(e) => array_document(items@, Seq::empty()) == Err::<JsonValue, ErrorView>(e@),
        },
    decreases whole, 0nat,
{
    let mut builder = match Serializer.serialize_seq() {
        Ok(builder) => builder,
        Err(e) => {
            return Err(e);
        },
    };
    let mut i: usize = 0;
    proof {
        assert(items@.skip(0) =~= items@);
    }
    while i < items.len()
        invariant
            match *whole {
                Value::Sequence(inner) => inner == *items,
                Value::Tuple(inner) => inner == *items,
                Value::TupleStruct(inner) => inner == *items,
                _ => false,
            },
            builder.wf(),
            0 <= i <= items.len(),
            array_document(items@, Seq::empty()) == array_document(
                items@.skip(i as int),
                builder.items(),
            ),
        decreases items.len() - i,
    {
        proof {
            assert(items@.skip(i as int).drop_first() =~= items@.skip(i + 1));
            assert(items@.skip(i as int).first() == items@[i as int]);
        }
        match builder.serialize_element(to_cjson(&items[i])) {
            Ok(()) => {},
            Err(e) => {
                return Err(e);
            },
        }
        i += 1;
    }
    builder.end()
}

} // verus!
