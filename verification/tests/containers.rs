use cjsonrs::CJson;
use cjsonrs::CJsonArray;
use cjsonrs::CJsonObject;
use cjsonrs::Error;
use cjsonrs::NumberTable;

fn number(n: f64) -> CJson<'static> {
    CJson::number(n.to_bits()).unwrap()
}

fn parse(text: &str) -> CJson<'static> {
    CJson::from_str(text, &NumberTable::new()).unwrap()
}

#[test]
fn a_document_of_another_kind_is_no_container() {
    assert_eq!(CJsonArray::try_from(parse("{}")).err(), Some(Error::TypeError));
    assert_eq!(CJsonArray::try_from(parse("1")).err(), Some(Error::TypeError));
    assert_eq!(CJsonObject::try_from(parse("[]")).err(), Some(Error::TypeError));
    assert_eq!(CJsonObject::try_from(parse("null")).err(), Some(Error::TypeError));
    assert!(CJsonArray::try_from(parse("[]")).is_ok());
    assert!(CJsonObject::try_from(parse("{}")).is_ok());
    assert!(parse("[]").into_object().is_none());
    assert!(parse("{}").into_array().is_none());
    assert!(parse("[]").as_object().is_none());
    assert!(parse("{}").as_array().is_none());
    let mut scalar = parse("true");
    assert!(scalar.as_mut().as_mut_array().is_none());
    assert!(scalar.as_mut().as_mut_object().is_none());
    assert_eq!(scalar.len(), 0);
    assert!(scalar.is_empty());
    assert_eq!(scalar.as_number(), None);
    assert_eq!(scalar.as_c_string(), None);
    assert_eq!(parse("1").as_bool(), None);
}

#[test]
fn inserting_into_an_array_shifts_or_appends() -> Result<(), Error> {
    let mut array = CJsonArray::new()?;
    assert!(array.is_empty());
    array.insert(5, number(1.0));
    array.insert(0, number(0.0));
    array.insert(1, number(0.5));
    array.insert(3, number(2.0));
    array.push(number(3.0));
    assert_eq!(array.len(), 5);
    let read: Vec<f64> =
        (0..5).map(|i| f64::from_bits(array.get(i).unwrap().as_number().unwrap())).collect();
    assert_eq!(read, vec![0.0, 0.5, 1.0, 2.0, 3.0]);
    assert_eq!(array.remove(5), None);
    assert_eq!(array.remove(0), Some(number(0.0)));
    assert_eq!(array.len(), 4);
    Ok(())
}

#[test]
fn elements_and_members_can_be_changed_in_place() -> Result<(), Error> {
    let mut document = parse(r#"{"list": [1, [2], {"x": null}], "flag": false}"#);
    {
        let mut object = document.as_mut().as_mut_object().unwrap();
        let list = object.get_mut(b"list").unwrap();
        let mut list = list.as_mut_array().unwrap();
        list.push(number(9.0));
        let inner = list.get_mut(1).unwrap();
        inner.as_mut_array().unwrap().insert(0, number(7.0));
        let last = list.get_mut(2).unwrap();
        let previous = last.as_mut_object().unwrap().insert(b"x", number(8.0));
        assert_eq!(previous, Some(CJson::null()?));
        assert!(list.get_mut(4).is_none());
        assert_eq!(list.remove(0), Some(number(1.0)));
        assert!(object.get_mut(b"missing").is_none());
        assert_eq!(object.remove(b"flag"), Some(CJson::bool(false)?));
        assert_eq!(object.remove(b"flag"), None);
        assert_eq!(object.insert_key_reference(b"more", CJson::bool(true)?), None);
    }
    assert_eq!(document, parse(r#"{"list": [[7, 2], {"x": 8}, 9], "more": true}"#));
    Ok(())
}

#[test]
fn a_copy_shares_nothing_with_its_source() -> Result<(), Error> {
    let backing = b"borrowed".to_vec();
    let mut source = CJsonObject::new()?;
    source.insert_key_reference(b"text", CJson::string_reference(&backing)?);
    source.insert(b"list", parse("[1, 2]"));
    let copy = source.inner.duplicate()?;
    let clone = source.inner.clone();
    assert_eq!(copy, source.inner);
    assert_eq!(clone, source.inner);
    let text = copy.as_object().unwrap().get(b"text").unwrap().as_c_string().unwrap().as_ptr();
    assert!(!std::ptr::eq(text, backing.as_ptr()));
    source.get_mut(b"list").unwrap().as_mut_array().unwrap().push(number(3.0));
    assert_ne!(copy, source.inner);
    assert_eq!(copy, clone);
    assert_eq!(copy.as_object().unwrap().get(b"list").unwrap().len(), 2);
    Ok(())
}

#[test]
fn documents_are_compared_deeply() {
    assert_eq!(parse(r#"{"a": 1, "b": [true, null]}"#), parse(r#"{"b": [true, null], "a": 1}"#));
    assert_ne!(parse(r#"{"a": 1}"#), parse(r#"{"A": 1}"#));
    assert_ne!(parse(r#"{"a": 1}"#), parse(r#"{"a": 1, "b": 2}"#));
    assert_ne!(parse(r#"{"a": 1, "b": 2}"#), parse(r#"{"a": 1}"#));
    assert_ne!(parse("[1, 2]"), parse("[2, 1]"));
    assert_ne!(parse("[1, 2]"), parse("[1, 2, 3]"));
    assert_ne!(parse("[]"), parse("{}"));
    assert_ne!(parse("null"), parse("false"));
    assert_eq!(parse("0"), parse("-0"));
    assert_ne!(parse("1"), parse("\"1\""));
    assert_eq!(CJson::string(b"x").unwrap(), CJson::string_reference(b"x").unwrap());
    assert_ne!(number(f64::NAN), number(f64::NAN));
    assert_eq!(number(f64::INFINITY), number(f64::INFINITY));
    // A name that stands twice with two values is not found equal to itself.
    let twice = parse(r#"{"a": 1, "a": 2}"#);
    assert_ne!(twice, twice.clone());
    let same = parse(r#"{"a": 1, "a": 1}"#);
    assert_eq!(same, parse(r#"{"a": 1}"#));
    let left = parse("[1, [2]]").into_array().unwrap();
    let right = parse("[1, [2]]").into_array().unwrap();
    assert!(left == right);
    assert!(left.inner.as_array().unwrap() == right.inner.as_array().unwrap());
}

#[test]
fn inserting_under_a_name_replaces_the_first_member_of_that_name() -> Result<(), Error> {
    let mut object = parse(r#"{"a": 1, "b": 2, "a": 3}"#).into_object().unwrap();
    let before = object.get(b"a").unwrap().duplicate()?;
    let previous = object.insert(b"a", number(4.0));
    assert_eq!(previous, Some(before));
    assert_eq!(object.keys(), vec![&b"b"[..], &b"a"[..], &b"a"[..]]);
    assert_eq!(object.get(b"a").unwrap().as_number(), Some(3f64.to_bits()));
    assert_eq!(object.insert(b"c", number(5.0)), None);
    assert_eq!(object.len(), 4);
    assert!(!object.is_empty());
    Ok(())
}

#[test]
fn a_detached_tree_can_be_put_under_a_handle_again() -> Result<(), Error> {
    let document = parse("[1, 2]");
    let raw = document.into_raw_parts();
    assert!(raw.is_array());
    let again = CJson::from_raw_parts(raw);
    assert_eq!(again, parse("[1, 2]"));
    let guard = CJsonArray::from_raw_parts(again);
    assert_eq!(guard.len(), 2);
    let back: CJson = guard.into();
    let object = CJsonObject::from_raw_parts(parse("{}"));
    assert!(object.is_empty());
    let back_too: CJson = object.into();
    assert!(back.is_array() && back_too.is_object());
    Ok(())
}

#[test]
fn indexing_gives_what_a_lookup_gives() {
    let array = parse("[1, [2]]").into_array().unwrap();
    assert_eq!(&array[1], array.get(1).unwrap());
    assert_eq!(&array.inner.as_array().unwrap()[0], array.get(0).unwrap());
    let object = parse(r#"{"a": 1, "b": null}"#).into_object().unwrap();
    assert_eq!(&object[&b"b"[..]], object.get(b"b").unwrap());
    assert!(object.inner.as_object().unwrap()[&b"b"[..]].is_null());
}

#[test]
fn pending_numbers_are_listed() {
    let text = br#"{"1.5": [1, 2.5, -3e2, 18446744073709551616, "4.5", 7], "x": 1.0}"#;
    let pending = cjsonrs::text::pending_numbers(text);
    assert_eq!(
        pending,
        vec![
            b"2.5".to_vec(),
            b"-3e2".to_vec(),
            b"18446744073709551616".to_vec(),
            b"1.0".to_vec()
        ]
    );
    let mut table = NumberTable::new();
    assert_eq!(table.len(), 0);
    for token in &pending {
        let value: f64 = std::str::from_utf8(token).unwrap().parse().unwrap();
        table.insert(token, value.to_bits());
    }
    assert_eq!(table.len(), 4);
    assert_eq!(table.bits_of(b"2.5"), Some(2.5f64.to_bits()));
    assert_eq!(table.bits_of(b"2.50"), None);
    assert_eq!(table.text_of(1f64.to_bits()), Some(&b"1.0"[..]));
    assert_eq!(table.text_of(9f64.to_bits()), None);
    let document = CJson::from_slice(text, &table).unwrap();
    assert_eq!(
        document.pending_numbers(),
        vec![2.5f64.to_bits(), 18446744073709551616f64.to_bits()]
    );
    assert_eq!(
        document.to_c_string(&table).unwrap().to_bytes(),
        &br#"{"1.5":[1,2.5,-300,18446744073709551616,"4.5",7],"x":1}"#[..]
    );
}
