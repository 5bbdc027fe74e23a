use cjsonrs::CJson;
use cjsonrs::CJsonArray;
use cjsonrs::CJsonObject;
use cjsonrs::CJsonRef;
use cjsonrs::Error;
use cjsonrs::NumberTable;

fn null() -> CJson<'static> {
    CJson::null().unwrap()
}

fn boolean(b: bool) -> CJson<'static> {
    CJson::bool(b).unwrap()
}

fn number(n: f64) -> CJson<'static> {
    CJson::number(n.to_bits()).unwrap()
}

fn string(s: &'static [u8]) -> CJson<'static> {
    CJson::string_reference(s).unwrap()
}

fn array(items: Vec<CJson<'static>>) -> CJson<'static> {
    let mut array = CJsonArray::new().unwrap();
    for item in items {
        array.push(item);
    }
    array.into()
}

fn object(members: Vec<(&'static [u8], CJson<'static>)>) -> CJson<'static> {
    let mut object = CJsonObject::new().unwrap();
    for (key, value) in members {
        object.insert_key_reference(key, value);
    }
    object.into()
}

fn parse(text: &str) -> Result<CJson<'static>, Error> {
    CJson::from_str(text, &NumberTable::new())
}

#[test]
fn assert_string_reference_works_with_non_static_lifetimes() -> Result<(), Error> {
    let cstring = String::from("hello world").into_bytes();
    let cjson = CJson::string_reference(&cstring)?;
    assert_eq!(cjson.as_c_string(), Some(&b"hello world"[..]));
    Ok(())
}

#[test]
fn assert_that_cjson_outlives_parsed_content() -> Result<(), Error> {
    let cjson = {
        let s = String::from(r#"{"hello": "world"}"#);
        parse(&s)?
    };
    assert_eq!(&cjson, &object(vec![(b"hello", string(b"world"))]));
    Ok(())
}

#[test]
fn assert_that_macro_works() -> Result<(), Error> {
    let variable: &'static [u8] = b"mix_object";
    let cjson1 = CJsonObject::try_from(object(vec![
        (
            b"nested_structures",
            object(vec![(b"empty_array", array(vec![])), (b"empty_object", object(vec![]))]),
        ),
        (
            b"mix_array",
            array(vec![
                CJson::try_from(1)?,
                CJson::try_from(true)?,
                null(),
                object(vec![(b"nested", array(vec![]))]),
            ]),
        ),
        (
            variable,
            object(vec![
                (b"1", CJson::try_from(1)?),
                (b"2", null()),
                (b"3", CJson::try_from(true)?),
                (b"4", CJson::try_from(variable)?),
                (b"5", CJson::try_from(&b"hello world"[..])?),
            ]),
        ),
    ]))?;
    let cjson2 = CJsonObject::try_from(parse(
        r#"
    {
        "nested_structures": {
            "empty_array": [],
            "empty_object": {}
        },
        "mix_array": [
            1, true, null, {"nested": []}
        ],
        "mix_object": {
            "1": 1,
            "2": null,
            "3": true,
            "4": "mix_object",
            "5": "hello world"
        }
    }
    "#,
    )?)?;
    assert_eq!(cjson1.inner, cjson2.inner);
    Ok(())
}

#[test]
fn assert_that_cjson_parse_works() -> Result<(), Error> {
    let _cjson: CJson = parse(
        r#"
    {
        "hello": "world",
        "nested": {
            "array": [1,2, "string"]
        }
    }
    "#,
    )?;

    Ok(())
}

// Type testing and upcasting
#[test]
fn assert_that_bool_and_as_bool_works() -> Result<(), Error> {
    let b = CJson::bool(true)?;
    assert_eq!(b.as_bool(), Some(true));
    Ok(())
}

#[test]
fn assert_that_string_and_as_c_string_works() -> Result<(), Error> {
    let b = CJson::string_reference(b"hello world")?;
    assert_eq!(b.as_c_string(), Some(&b"hello world"[..]));
    Ok(())
}

#[test]
fn assert_that_null_and_is_null_works() -> Result<(), Error> {
    let b = CJson::null()?;
    assert!(b.is_null());
    Ok(())
}

#[test]
fn assert_that_number_and_as_number_works() -> Result<(), Error> {
    let b = CJson::try_from(10)?;
    assert_eq!(b.as_number().map(f64::from_bits), Some(10f64));
    Ok(())
}

#[test]
fn assert_that_array_and_is_array_works() -> Result<(), Error> {
    let b = CJson::array()?;
    assert!(b.is_array());
    Ok(())
}

#[test]
fn assert_that_object_and_is_object_works() -> Result<(), Error> {
    let b = CJson::object()?;
    assert!(b.is_object());
    Ok(())
}

// Indexing operations
#[test]
fn assert_that_objects_can_be_indexed() -> Result<(), Error> {
    let cjson = CJsonObject::try_from(object(vec![(b"hello", string(b"world"))]))?;
    let value = &cjson[&b"hello"[..]];

    assert_eq!(value.as_c_string(), Some(&b"world"[..]));
    Ok(())
}

#[test]
fn assert_that_arrays_can_be_indexed() -> Result<(), Error> {
    let cjson = CJsonArray::try_from(array(
        (1..=10).map(|n| CJson::try_from(n as i32).unwrap()).collect(),
    ))?;
    let value = &cjson[9];

    assert_eq!(value.as_number().map(f64::from_bits), Some(10f64));
    Ok(())
}

// Iteration
#[test]
fn assert_that_arrays_can_be_iterated() -> Result<(), Error> {
    let cjson = parse(r#"[1,2,3,4,5,6]"#)?.into_array().unwrap();
    let mut v: Vec<f64> = Vec::new();
    let mut walk = cjson.iter();
    while let Some(item) = walk.next() {
        v.extend(item.as_number().map(f64::from_bits));
    }

    assert_eq!(v, vec![1.0, 2.0, 3.0, 4.0, 5.0, 6.0]);
    Ok(())
}

#[test]
fn assert_that_objects_can_be_iterated() -> Result<(), Error> {
    let cjson = parse(r#"{"hello": "world", "this": "is"}"#)?.into_object().unwrap();
    let v: Vec<_> = cjson.iter().into_iter().flat_map(|(_, v)| v.as_c_string()).collect();

    assert_eq!(v, vec![&b"world"[..], &b"is"[..]]);
    Ok(())
}

// Object mutation
#[test]
fn assert_that_items_can_be_inserted_to_objects() -> Result<(), Error> {
    let mut cjson = CJsonObject::new()?;
    let previous = cjson.insert(b"hello", CJson::null()?);

    assert_eq!(previous, None);
    assert!(cjson[&b"hello"[..]].is_null());
    Ok(())
}

#[test]
fn assert_that_items_can_be_inserted_to_objects_and_the_previous_value_is_returned(
) -> Result<(), Error> {
    let mut cjson = CJsonObject::try_from(object(vec![(b"hello", string(b"world"))]))?;
    let previous = cjson.insert(b"hello", CJson::null()?);

    assert_eq!(previous, Some(CJson::string_reference(b"world")?));
    assert!(cjson[&b"hello"[..]].is_null());
    Ok(())
}

#[test]
fn assert_that_inner_items_can_be_mutated() -> Result<(), Error> {
    let mut cjson = CJsonObject::try_from(object(vec![(b"key", object(vec![]))]))?;

    cjson
        .get_mut(b"key")
        .unwrap()
        .as_mut_object()
        .unwrap()
        .insert(b"hello", CJson::try_from(&b"value"[..])?);

    assert_eq!(
        cjson.inner,
        object(vec![(b"key", object(vec![(b"hello", string(b"value"))]))])
    );
    Ok(())
}

// Scenarios
#[test]
fn parsing_an_object_and_getting_a_member_gives_its_string() -> Result<(), Error> {
    let document = parse(r#"{"hello":"world"}"#)?.into_object().unwrap();
    let value: &CJsonRef = document.get(b"hello").unwrap();
    assert!(value.is_string());
    assert_eq!(value.as_c_string(), Some(&b"world"[..]));
    Ok(())
}

#[test]
fn removing_from_the_middle_of_an_array_closes_the_gap() -> Result<(), Error> {
    let mut array = CJsonArray::try_from(array(vec![number(1.0), number(2.0), number(3.0)]))?;
    let removed = array.remove(1);
    assert_eq!(removed, Some(number(2.0)));
    assert_eq!(array.len(), 2);
    assert_eq!(array.inner, self::array(vec![number(1.0), number(3.0)]));
    Ok(())
}

#[test]
fn a_referenced_key_lives_as_long_as_the_document() -> Result<(), Error> {
    // The bytes of the key are borrowed for as long as the object lives, so
    // they cannot be changed or given up before the object is.
    let key: Vec<u8> = b"hello".to_vec();
    {
        let mut object = CJsonObject::new()?;
        assert_eq!(object.insert_key_reference(&key, boolean(true)), None);
        assert_eq!(object.keys(), vec![&b"hello"[..]]);
        assert_eq!(object.get(&key).and_then(|v| v.as_bool()), Some(true));
    }
    assert_eq!(key, b"hello");
    Ok(())
}

#[test]
fn a_referenced_string_is_the_callers_bytes() -> Result<(), Error> {
    let backing: Vec<u8> = b"hello world".to_vec();
    let document = CJson::string_reference(&backing)?;
    let text = document.as_c_string().unwrap();
    assert_eq!(text, &backing[..]);
    assert!(std::ptr::eq(text.as_ptr(), backing.as_ptr()));
    let owned = CJson::string(&backing)?;
    assert_eq!(owned.as_c_string().unwrap(), &backing[..]);
    assert!(!std::ptr::eq(owned.as_c_string().unwrap().as_ptr(), backing.as_ptr()));
    Ok(())
}
