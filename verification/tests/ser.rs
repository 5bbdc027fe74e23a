use cjsonrs::serde::to_cjson;
use cjsonrs::serde::Error;
use cjsonrs::serde::Value;
use cjsonrs::CJson;
use cjsonrs::CJsonArray;
use cjsonrs::CJsonObject;

fn text(s: &str) -> Value {
    Value::Str(s.to_string())
}

fn string(s: &'static [u8]) -> CJson<'static> {
    CJson::string_reference(s).unwrap()
}

fn number(n: f64) -> CJson<'static> {
    CJson::number(n.to_bits()).unwrap()
}

fn array(items: Vec<CJson<'static>>) -> CJson<'static> {
    let mut array = CJsonArray::new().unwrap();
    for item in items {
        array.push(item);
    }
    array.inner
}

fn object(members: Vec<(&'static [u8], CJson<'static>)>) -> CJson<'static> {
    let mut object = CJsonObject::new().unwrap();
    for (key, value) in members {
        object.insert_key_reference(key, value);
    }
    object.inner
}

#[test]
fn assert_that_tuples_can_be_serialized_into_cjson() -> Result<(), Error> {
    let expected = array(vec![string(b"hello"), number(42.0)]);
    assert_eq!(to_cjson(&Value::Tuple(vec![text("hello"), Value::I32(42)]))?, expected);
    Ok(())
}

#[test]
fn assert_that_arrays_can_be_serialized_into_cjson() -> Result<(), Error> {
    let expected = array(vec![string(b"hello")]);
    assert_eq!(to_cjson(&Value::Sequence(vec![text("hello")]))?, expected);
    Ok(())
}

#[test]
fn assert_that_structs_can_be_serialized_into_cjson() -> Result<(), Error> {
    let expected = object(vec![(b"hello", string(b"world")), (b"answer", number(42.0))]);

    let value = Value::Struct(vec![
        ("hello".to_string(), text("world")),
        ("answer".to_string(), Value::I32(42)),
    ]);

    assert_eq!(to_cjson(&value)?, expected);
    Ok(())
}

#[test]
fn assert_that_newtype_structs_can_be_serialized_into_cjson() -> Result<(), Error> {
    let expected = string(b"hello");

    let value = Value::NewtypeStruct(Box::new(text("hello")));

    assert_eq!(to_cjson(&value)?, expected);
    Ok(())
}

#[test]
fn assert_that_tuple_structs_can_be_serialized_into_cjson() -> Result<(), Error> {
    let expected = array(vec![string(b"hello"), number(42.0)]);

    let value = Value::TupleStruct(vec![text("hello"), Value::I32(42)]);

    assert_eq!(to_cjson(&value)?, expected);
    Ok(())
}

#[test]
fn assert_that_struct_variant_can_be_serialized_into_cjson() -> Result<(), Error> {
    let fields = || object(vec![(b"hello", string(b"world")), (b"answer", number(42.0))]);
    let expected = object(vec![(b"Variant", fields())]);

    let value = Value::StructVariant(
        "Variant".to_string(),
        vec![
            ("hello".to_string(), text("world")),
            ("answer".to_string(), Value::I32(42)),
        ],
    );

    assert_eq!(to_cjson(&value)?, expected);
    // Names are compared byte for byte.
    assert_ne!(to_cjson(&value)?, object(vec![(b"variant", fields())]));
    Ok(())
}

#[test]
fn assert_that_unit_variant_can_be_serialized_into_cjson() -> Result<(), Error> {
    let expected = string(b"Variant");

    let value = Value::UnitVariant("Variant".to_string());

    assert_eq!(to_cjson(&value)?, expected);
    Ok(())
}

#[test]
fn assert_that_tuple_variant_can_be_serialized_into_cjson() -> Result<(), Error> {
    let expected = object(vec![(b"Variant", array(vec![string(b"hello"), number(42.0)]))]);

    let value = Value::TupleVariant("Variant".to_string(), vec![text("hello"), Value::I32(42)]);

    assert_eq!(to_cjson(&value)?, expected);
    Ok(())
}

#[test]
fn assert_that_unit_can_be_serialized_into_cjson() -> Result<(), Error> {
    let expected = CJson::null().unwrap();

    let value = Value::UnitStruct;

    assert_eq!(to_cjson(&value)?, expected);
    Ok(())
}

#[test]
fn assert_that_strings_can_be_serialized_into_cjson() -> Result<(), Error> {
    let expected = string(b"hello");
    assert_eq!(to_cjson(&text("hello"))?, expected);
    Ok(())
}

#[test]
fn assert_that_numbers_can_be_serialized_into_cjson() -> Result<(), Error> {
    let expected = number(42.0);
    assert_eq!(to_cjson(&Value::I32(42))?, expected);
    Ok(())
}

#[test]
fn assert_that_booleans_can_be_serialized_into_cjson() -> Result<(), Error> {
    let expected = CJson::bool(true).unwrap();
    assert_eq!(to_cjson(&Value::Bool(true))?, expected);
    Ok(())
}
