use cjsonrs::CJson;
use cjsonrs::CJsonArray;
use cjsonrs::CJsonObject;
use cjsonrs::Error;
use cjsonrs::NumberTable;

fn parse(text: &str) -> Result<CJson<'static>, Error> {
    CJson::from_str(text, &NumberTable::new())
}

fn compact(document: &CJson) -> String {
    let printed = document.to_c_string(&NumberTable::new()).unwrap();
    String::from_utf8(printed.to_bytes().to_vec()).unwrap()
}

fn pretty(document: &CJson) -> String {
    let printed = document.to_c_string_pretty(&NumberTable::new()).unwrap();
    String::from_utf8(printed.to_bytes().to_vec()).unwrap()
}

fn table(pairs: &[(&str, f64)]) -> NumberTable {
    let mut table = NumberTable::new();
    for (text, value) in pairs {
        table.insert(text.as_bytes(), value.to_bits());
    }
    table
}

#[test]
fn scalars_are_parsed() {
    assert!(parse("null").unwrap().is_null());
    assert_eq!(parse(" true ").unwrap().as_bool(), Some(true));
    assert_eq!(parse("\tfalse\n").unwrap().as_bool(), Some(false));
    assert_eq!(parse("\"a b\"").unwrap().as_c_string(), Some(&b"a b"[..]));
    assert_eq!(parse("42").unwrap().as_number().map(f64::from_bits), Some(42.0));
    assert_eq!(parse("-7").unwrap().as_number().map(f64::from_bits), Some(-7.0));
    assert_eq!(parse("0").unwrap().as_number(), Some(0f64.to_bits()));
    assert_eq!(parse("-0").unwrap().as_number(), Some((-0f64).to_bits()));
}

#[test]
fn integers_are_parsed_to_the_nearest_double() {
    for text in [
        "1",
        "9007199254740992",
        "9007199254740993",
        "9007199254740995",
        "18446744073709551615",
        "1152921504606846977",
        "4611686018427387905",
        "123456789012345678",
    ] {
        let expected: f64 = text.parse().unwrap();
        assert_eq!(parse(text).unwrap().as_number(), Some(expected.to_bits()), "{}", text);
    }
}

#[test]
fn malformed_text_is_refused() {
    for text in [
        "", " ", "nul", "tru", "fals", "[", "]", "[1,]", "[1 2]", "{", "{\"a\"}", "{\"a\":}",
        "{\"a\":1,}", "{a:1}", "\"abc", "\"a\nb\"", "\"\\x\"", "\"\\u12\"", "\"\\ud800\"",
        "\"\\udc00\"", "\"\\ud800\\u0041\"", "01", "1.", ".5", "1e", "1e+", "-", "+1", "1 2",
        "null null", "[1] ]",
    ] {
        assert_eq!(parse(text), Err(Error::Parse), "{:?}", text);
    }
}

#[test]
fn numbers_that_are_no_integers_come_from_the_table() {
    assert_eq!(parse("1.5"), Err(Error::Parse));
    assert_eq!(parse("18446744073709551616"), Err(Error::Parse));
    let numbers = table(&[("1.5", 1.5), ("1e3", 1000.0), ("18446744073709551616", 18446744073709551616.0)]);
    let document = CJson::from_str("[1.5, 1e3, 18446744073709551616, 3]", &numbers).unwrap();
    let array = document.into_array().unwrap();
    let read: Vec<f64> =
        (0..4).map(|i| f64::from_bits(array.get(i).unwrap().as_number().unwrap())).collect();
    assert_eq!(read, vec![1.5, 1000.0, 18446744073709551616.0, 3.0]);
}

#[test]
fn escapes_are_read() {
    let document = parse(r#""\"\\\/\b\f\n\r\t\u0041\u00e9\u20ac\ud83d\ude00\u0000""#).unwrap();
    let mut expected: Vec<u8> = b"\"\\/\x08\x0c\n\r\tA".to_vec();
    expected.extend("é€😀".as_bytes());
    expected.push(0);
    assert_eq!(document.as_c_string(), Some(&expected[..]));
}

#[test]
fn nesting_has_a_limit() {
    let deep = |n: usize| format!("{}{}", "[".repeat(n), "]".repeat(n));
    assert!(parse(&deep(1000)).is_ok());
    assert_eq!(parse(&deep(1001)), Err(Error::Parse));
}

#[test]
fn members_keep_their_order_and_their_duplicates() {
    let document = parse(r#"{"a":1,"b":2,"a":3}"#).unwrap().into_object().unwrap();
    assert_eq!(document.len(), 3);
    assert_eq!(document.keys(), vec![&b"a"[..], &b"b"[..], &b"a"[..]]);
    assert_eq!(document.get(b"a").unwrap().as_number().map(f64::from_bits), Some(1.0));
}

#[test]
fn documents_are_printed_compactly() {
    let document = parse(r#" { "a" : [ 1 , -2 , true , null ] , "b" : { } , "c" : [ ] , "d" : "x\ny" } "#)
        .unwrap();
    assert_eq!(compact(&document), r#"{"a":[1,-2,true,null],"b":{},"c":[],"d":"x\ny"}"#);
}

#[test]
fn documents_are_printed_over_several_lines() {
    let document = parse(r#"{"a":[1,2],"b":{"c":null},"d":{}}"#).unwrap();
    assert_eq!(
        pretty(&document),
        "{\n\t\"a\":\t[1, 2],\n\t\"b\":\t{\n\t\t\"c\":\tnull\n\t},\n\t\"d\":\t{\n\t}\n}"
    );
}

#[test]
fn strings_are_escaped_in_print() {
    let document = CJson::string(b"\"\\/\x08\x0c\n\r\t\x01\x1f \x7f\xc3\xa9").unwrap();
    assert_eq!(
        document.to_c_string(&NumberTable::new()).unwrap().to_bytes(),
        &b"\"\\\"\\\\/\\b\\f\\n\\r\\t\\u0001\\u001f \x7f\xc3\xa9\""[..]
    );
}

#[test]
fn numbers_are_printed() {
    let print = |value: f64, numbers: &NumberTable| {
        CJson::number(value.to_bits())
            .unwrap()
            .to_c_string(numbers)
            .map(|s| String::from_utf8(s.to_bytes().to_vec()).unwrap())
    };
    let none = NumberTable::new();
    assert_eq!(print(0.0, &none).unwrap(), "0");
    assert_eq!(print(-0.0, &none).unwrap(), "-0");
    assert_eq!(print(42.0, &none).unwrap(), "42");
    assert_eq!(print(-42.0, &none).unwrap(), "-42");
    assert_eq!(print(2147483647.0, &none).unwrap(), "2147483647");
    assert_eq!(print(-2147483648.0, &none).unwrap(), "-2147483648");
    assert_eq!(print(f64::NAN, &none).unwrap(), "null");
    assert_eq!(print(f64::INFINITY, &none).unwrap(), "null");
    assert_eq!(print(f64::NEG_INFINITY, &none).unwrap(), "null");
    assert_eq!(print(2147483648.0, &none), Err(Error::Allocation));
    assert_eq!(print(1.5, &none), Err(Error::Allocation));
    assert_eq!(print(5e-324, &none), Err(Error::Allocation));
    let numbers = table(&[("1.5", 1.5), ("2147483648", 2147483648.0), ("x", 2.5)]);
    assert_eq!(print(1.5, &numbers).unwrap(), "1.5");
    assert_eq!(print(2147483648.0, &numbers).unwrap(), "2147483648");
    // A text that has not the form of a number is not printed.
    assert_eq!(print(2.5, &numbers), Err(Error::Allocation));
}

#[test]
fn a_printed_text_ends_with_a_zero_byte() {
    let printed = CJson::bool(true).unwrap().to_c_string(&NumberTable::new()).unwrap();
    assert_eq!(printed.to_bytes(), b"true");
    assert_eq!(printed.to_bytes_with_nul(), b"true\0");
    assert_eq!(printed.len(), 4);
}

#[test]
fn printing_and_parsing_gives_the_document_back() {
    let numbers = table(&[("1.5", 1.5), ("-2.25e-3", -2.25e-3)]);
    let text = r#" {"a": [1, 1.5, -2.25e-3, "x\u0001\"y", {"b": [], "c": {}}], "a": null, "": [[true, false]]} "#;
    let first = CJson::from_str(text, &numbers).unwrap();
    for printed in [
        first.to_c_string(&numbers).unwrap(),
        first.to_c_string_pretty(&numbers).unwrap(),
    ] {
        let second = CJson::from_slice(printed.to_bytes(), &numbers).unwrap();
        assert_eq!(
            second.to_c_string(&numbers).unwrap().to_bytes(),
            first.to_c_string(&numbers).unwrap().to_bytes()
        );
        let again = CJson::from_c_str(printed.to_bytes(), &numbers).unwrap();
        assert_eq!(again.into_object().unwrap().keys().len(), 3);
    }
    let plain = parse(r#"{"hello": ["world", 1, 2, 3, null, {"x": true}]}"#).unwrap();
    assert_eq!(parse(&compact(&plain)).unwrap(), plain);
    assert_eq!(parse(&pretty(&plain)).unwrap(), plain);
}

#[test]
fn detaching_and_inserting_again_restores_the_container() {
    let mut array = CJsonArray::try_from(parse("[1,2,3]").unwrap()).unwrap();
    let taken = array.remove(1).unwrap();
    array.insert(1, taken);
    assert_eq!(array.inner, parse("[1,2,3]").unwrap());

    let mut object = CJsonObject::try_from(parse(r#"{"a":1,"b":2,"c":3}"#).unwrap()).unwrap();
    let taken = object.remove(b"a").unwrap();
    assert_eq!(object.insert(b"a", taken), None);
    assert_eq!(object.keys(), vec![&b"b"[..], &b"c"[..], &b"a"[..]]);
    assert_eq!(object.inner, parse(r#"{"a":1,"b":2,"c":3}"#).unwrap());
}

#[test]
fn a_walk_follows_the_indexes() {
    let array = parse(r#"[10, "x", null, [1], {"a": 2}]"#).unwrap().into_array().unwrap();
    let mut walk = array.iter();
    assert_eq!(walk.size_hint(), (5, Some(5)));
    let mut index = 0;
    while let Some(item) = walk.next() {
        assert_eq!(item, array.get(index).unwrap());
        index += 1;
    }
    assert_eq!(index, 5);
    assert_eq!(walk.size_hint(), (0, Some(0)));
    assert!(walk.next().is_none());
    assert!(array.get(5).is_none());

    let object = parse(r#"{"a": 1, "b": 2}"#).unwrap().into_object().unwrap();
    let pairs = object.iter();
    assert_eq!(pairs.len(), 2);
    assert_eq!(pairs[0].0, b"a");
    assert_eq!(pairs[1].0, b"b");
    let mut values = object.values();
    assert_eq!(values.next().unwrap(), pairs[0].1);
    assert_eq!(values.next().unwrap(), pairs[1].1);
    assert!(values.next().is_none());
}
