use cjsonrs::serde::from_cjson;
use cjsonrs::serde::to_cjson;
use cjsonrs::serde::Deserializer;
use cjsonrs::serde::Error;
use cjsonrs::serde::MapKeySerializer;
use cjsonrs::serde::Serializer;
use cjsonrs::serde::Value;
use cjsonrs::CJson;
use cjsonrs::NumberTable;

fn parse(text: &str) -> CJson<'static> {
    CJson::from_str(text, &NumberTable::new()).unwrap()
}

fn text(s: &str) -> Value {
    Value::Str(s.to_string())
}

fn float(n: f64) -> Value {
    Value::F64 { bits: n.to_bits(), text: n.to_string() }
}

#[test]
fn scalars_become_documents() {
    assert_eq!(to_cjson(&Value::I8(-8)).unwrap(), parse("-8"));
    assert_eq!(to_cjson(&Value::I16(-16)).unwrap(), parse("-16"));
    assert_eq!(to_cjson(&Value::I64(-64)).unwrap(), parse("-64"));
    assert_eq!(to_cjson(&Value::U8(8)).unwrap(), parse("8"));
    assert_eq!(to_cjson(&Value::U16(16)).unwrap(), parse("16"));
    assert_eq!(to_cjson(&Value::U32(32)).unwrap(), parse("32"));
    assert_eq!(to_cjson(&Value::U64(u64::MAX)).unwrap(), parse("18446744073709551615"));
    assert_eq!(
        to_cjson(&Value::F32 { bits: 1.5f32.to_bits(), text: String::new() })
            .unwrap()
            .as_number(),
        Some(1.5f64.to_bits())
    );
    assert_eq!(to_cjson(&float(2.5)).unwrap().as_number(), Some(2.5f64.to_bits()));
    assert_eq!(to_cjson(&Value::Char('x')).unwrap(), parse("\"x\""));
    assert_eq!(
        to_cjson(&Value::Char('\u{20ac}')).unwrap().as_c_string(),
        Some("\u{20ac}".as_bytes())
    );
    assert_eq!(to_cjson(&Value::Absent).unwrap(), parse("null"));
    assert_eq!(to_cjson(&Value::Unit).unwrap(), parse("null"));
    assert_eq!(to_cjson(&Value::Present(Box::new(Value::U8(1)))).unwrap(), parse("1"));
    assert_eq!(to_cjson(&Value::Bytes(vec![0, 1, 255])).unwrap(), parse("[0, 1, 255]"));
    assert_eq!(to_cjson(&Value::Bytes(vec![])).unwrap(), parse("[]"));
    assert_eq!(
        to_cjson(&Value::NewtypeVariant("V".to_string(), Box::new(Value::Bool(false)))).unwrap(),
        parse(r#"{"V": false}"#)
    );
}

#[test]
fn every_failure_has_an_input() {
    assert_eq!(
        to_cjson(&Value::I128(1)),
        Err(Error::Custom("i128 is not supported".to_string()))
    );
    assert_eq!(
        to_cjson(&Value::U128(1)),
        Err(Error::Custom("u128 is not supported".to_string()))
    );
    assert_eq!(to_cjson(&text("a\0b")), Err(Error::CString(1)));
    assert_eq!(to_cjson(&Value::Char('\0')), Err(Error::CString(0)));
    assert_eq!(to_cjson(&Value::UnitVariant("ab\0".to_string())), Err(Error::CString(2)));
    assert_eq!(
        to_cjson(&Value::Mapping(vec![(Value::Unit, Value::Unit)])),
        Err(Error::KeyMustBeAString)
    );
    assert_eq!(
        to_cjson(&Value::Mapping(vec![(float(f64::NAN), Value::Unit)])),
        Err(Error::FloatNotFinite)
    );
    assert_eq!(
        to_cjson(&Value::Mapping(vec![(
            Value::F32 { bits: f32::INFINITY.to_bits(), text: "inf".to_string() },
            Value::Unit
        )])),
        Err(Error::FloatNotFinite)
    );
    // The first failure in the order of the value is the one that is given.
    assert_eq!(
        to_cjson(&Value::Sequence(vec![Value::U8(1), text("\0"), Value::I128(0)])),
        Err(Error::CString(0))
    );
    assert_eq!(
        to_cjson(&Value::NewtypeVariant("\0".to_string(), Box::new(Value::I128(0)))),
        Err(Error::CString(0))
    );
    assert_eq!(
        to_cjson(&Value::Struct(vec![("a\0".to_string(), Value::I128(0))])),
        Err(Error::CString(1))
    );
    assert_eq!(
        to_cjson(&Value::StructVariant("v".to_string(), vec![("a".to_string(), text("\0"))])),
        Err(Error::CString(0))
    );
    assert_eq!(
        to_cjson(&Value::TupleVariant("\0v".to_string(), vec![])),
        Err(Error::CString(0))
    );
    assert_eq!(
        to_cjson(&Value::Mapping(vec![(text("k"), Value::U128(0)), (Value::Unit, Value::Unit)])),
        Err(Error::Custom("u128 is not supported".to_string()))
    );
}

#[test]
fn keys_have_a_text() {
    let entry = |key: Value| Value::Mapping(vec![(key, Value::Bool(true))]);
    let keyed = |name: &str| parse(&format!("{{\"{}\": true}}", name));
    assert_eq!(to_cjson(&entry(Value::Bool(true))).unwrap(), keyed("true"));
    assert_eq!(to_cjson(&entry(Value::Bool(false))).unwrap(), keyed("false"));
    assert_eq!(to_cjson(&entry(Value::I8(-128))).unwrap(), keyed("-128"));
    assert_eq!(to_cjson(&entry(Value::I16(0))).unwrap(), keyed("0"));
    assert_eq!(to_cjson(&entry(Value::I32(-7))).unwrap(), keyed("-7"));
    assert_eq!(to_cjson(&entry(Value::I64(i64::MIN))).unwrap(), keyed("-9223372036854775808"));
    assert_eq!(
        to_cjson(&entry(Value::I128(i128::MIN))).unwrap(),
        keyed("-170141183460469231731687303715884105728")
    );
    assert_eq!(to_cjson(&entry(Value::U8(9))).unwrap(), keyed("9"));
    assert_eq!(to_cjson(&entry(Value::U16(10))).unwrap(), keyed("10"));
    assert_eq!(to_cjson(&entry(Value::U32(4294967295))).unwrap(), keyed("4294967295"));
    assert_eq!(to_cjson(&entry(Value::U64(u64::MAX))).unwrap(), keyed("18446744073709551615"));
    assert_eq!(
        to_cjson(&entry(Value::U128(u128::MAX))).unwrap(),
        keyed("340282366920938463463374607431768211455")
    );
    assert_eq!(to_cjson(&entry(float(1.5))).unwrap(), keyed("1.5"));
    assert_eq!(
        to_cjson(&entry(Value::F32 { bits: 0.25f32.to_bits(), text: "0.25".to_string() }))
            .unwrap(),
        keyed("0.25")
    );
    assert_eq!(to_cjson(&entry(Value::Char('c'))).unwrap(), keyed("c"));
    assert_eq!(to_cjson(&entry(text("name"))).unwrap(), keyed("name"));
    assert_eq!(to_cjson(&entry(Value::UnitVariant("V".to_string()))).unwrap(), keyed("V"));
    assert_eq!(
        to_cjson(&entry(Value::NewtypeStruct(Box::new(Value::U8(3))))).unwrap(),
        keyed("3")
    );
    for key in [
        Value::Bytes(vec![1]),
        Value::Absent,
        Value::Present(Box::new(text("a"))),
        Value::UnitStruct,
        Value::NewtypeVariant("V".to_string(), Box::new(text("a"))),
        Value::Sequence(vec![]),
        Value::Tuple(vec![]),
        Value::TupleStruct(vec![]),
        Value::TupleVariant("V".to_string(), vec![]),
        Value::Mapping(vec![]),
        Value::Struct(vec![]),
        Value::StructVariant("V".to_string(), vec![]),
    ] {
        assert_eq!(to_cjson(&entry(key)), Err(Error::KeyMustBeAString));
    }
    assert_eq!(MapKeySerializer.serialize_char('\u{e9}'), Ok("\u{e9}".as_bytes().to_vec()));
}

#[test]
fn a_later_entry_replaces_an_earlier_one_of_the_same_name() {
    let value = Value::Mapping(vec![
        (text("a"), Value::U8(1)),
        (text("b"), Value::U8(2)),
        (Value::Char('a'), Value::U8(3)),
    ]);
    let document = to_cjson(&value).unwrap().into_object().unwrap();
    assert_eq!(document.keys(), vec![&b"b"[..], &b"a"[..]]);
    assert_eq!(document.inner, parse(r#"{"b": 2, "a": 3}"#));
}

#[test]
fn the_builders_can_be_driven_by_hand() -> Result<(), Error> {
    let mut items = Serializer.serialize_seq()?;
    items.serialize_element(Serializer.serialize_u8(1))?;
    assert_eq!(items.serialize_element(Serializer.serialize_i128(2)).is_err(), true);
    items.serialize_field(Serializer.serialize_str("x"))?;
    assert_eq!(items.end()?, parse(r#"[1, "x"]"#));

    let mut map = Serializer.serialize_map()?;
    map.serialize_key(MapKeySerializer.serialize_i32(-1))?;
    map.serialize_value(Serializer.serialize_none())?;
    map.serialize_field("f", Serializer.serialize_bool(true))?;
    assert!(map.serialize_key(MapKeySerializer.refuse()).is_err());
    assert_eq!(map.end()?, parse(r#"{"-1": null, "f": true}"#));

    let mut tuple = Serializer.serialize_tuple_variant("T")?;
    tuple.serialize_field(Serializer.serialize_unit())?;
    assert_eq!(tuple.end()?, parse(r#"{"T": [null]}"#));

    let mut fields = Serializer.serialize_struct_variant("S")?;
    fields.serialize_field("a", Serializer.serialize_f64(2f64.to_bits()))?;
    fields.serialize_field("a", Serializer.serialize_f32(3f32.to_bits()))?;
    assert_eq!(fields.end()?, parse(r#"{"S": {"a": 3}}"#));

    assert_eq!(Serializer.collect_str("shown")?, parse("\"shown\""));
    assert_eq!(Serializer.serialize_unit_struct()?, parse("null"));
    assert_eq!(Serializer.serialize_tuple()?.end()?, parse("[]"));
    assert_eq!(Serializer.serialize_tuple_struct()?.end()?, parse("[]"));
    assert_eq!(Serializer.serialize_struct()?.end()?, parse("{}"));
    assert_eq!(
        Serializer.serialize_newtype_struct(Serializer.serialize_some(Ok(parse("1"))))?,
        parse("1")
    );
    assert_eq!(
        Serializer.serialize_newtype_variant("N", Serializer.serialize_bytes(b"\x01"))?,
        parse(r#"{"N": [1]}"#)
    );
    Ok(())
}

#[test]
fn documents_become_typed_values() {
    let document = parse(r#"{"a": [1, "x", null, true], "b": {}}"#);
    let value = from_cjson(&document).unwrap();
    match &value {
        Value::Mapping(entries) => {
            assert_eq!(entries.len(), 2);
            assert!(matches!(&entries[0].0, Value::Str(name) if name == "a"));
            match &entries[0].1 {
                Value::Sequence(items) => {
                    assert_eq!(items.len(), 4);
                    assert!(
                        matches!(&items[0], Value::F64 { bits, .. } if *bits == 1f64.to_bits())
                    );
                    assert!(matches!(&items[1], Value::Str(s) if s == "x"));
                    assert!(matches!(&items[2], Value::Unit));
                    assert!(matches!(&items[3], Value::Bool(true)));
                }
                other => panic!("{:?}", other),
            }
            assert!(matches!(&entries[1].1, Value::Mapping(inner) if inner.is_empty()));
        }
        other => panic!("{:?}", other),
    }
    assert_eq!(to_cjson(&value).unwrap(), document);
    assert!(Deserializer(&document).deserialize().is_ok());

    let broken = CJson::string(b"\xff").unwrap();
    assert_eq!(
        from_cjson(&broken).err(),
        Some(Error::Custom("text is not valid UTF-8".to_string()))
    );
    let mut object = cjsonrs::CJsonObject::new().unwrap();
    object.insert(b"\xc3", CJson::null().unwrap());
    assert!(from_cjson(&object.inner).is_err());
}
