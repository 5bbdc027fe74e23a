//! Typed values, as a tree that can be turned into a document.

use vstd::prelude::*;

verus! {

/// A typed value, laid out by the kinds that a structured-serialization
/// framework tells apart.
///
/// Floating-point values are held as IEEE-754 bit patterns, together with
/// the decimal text that stands for them where such a value is the key of a
/// map entry.
#[derive(Debug)]
#[allow(inconsistent_fields)]
pub enum Value {
    Bool(bool),
    I8(i8),
    I16(i16),
    I32(i32),
    I64(i64),
    I128(i128),
    U8(u8),
    U16(u16),
    U32(u32),
    U64(u64),
    U128(u128),
    /// A single-precision value: its bit pattern and its decimal text.
    F32 { bits: u32, text: String },
    /// A double-precision value: its bit pattern and its decimal text.
    F64 { bits: u64, text: String },
    Char(char),
    Str(String),
    Bytes(Vec<u8>),
    /// An optional value that is absent.
    Absent,
    /// An optional value that is present.
    Present(Box<Value>),
    Unit,
    UnitStruct,
    /// A variant without fields, by its name.
    UnitVariant(String),
    NewtypeStruct(Box<Value>),
    /// A variant with one unnamed field, by its name.
    NewtypeVariant(String, Box<Value>),
    Sequence(Vec<Value>),
    Tuple(Vec<Value>),
    TupleStruct(Vec<Value>),
    /// A variant with unnamed fields, by its name.
    TupleVariant(String, Vec<Value>),
    /// The entries of a map, each a key and a value.
    Mapping(Vec<(Value, Value)>),
    /// The fields of a struct, each a name and a value.
    Struct(Vec<(String, Value)>),
    /// A variant with named fields, by its name.
    StructVariant(String, Vec<(String, Value)>),
}

} // verus!
