use json_codec::ser::{CharEscape, Formatter};
use json_codec::{
    from_str, to_string, to_string_pretty, to_vec, CompactFormatter, JsonMap, Number,
    PrettyFormatter, Serializer, Value,
};

#[test]
fn object_emitted_sorted() {
    let mut m = JsonMap::new();
    m.insert("b".to_string(), Value::Number(Number::PosInt(1)));
    m.insert("a".to_string(), Value::Number(Number::PosInt(2)));
    let v = Value::Object(m);
    assert_eq!(to_string(&v).unwrap(), r#"{"a":2,"b":1}"#);
    assert_eq!(to_string_pretty(&v).unwrap(), "{\n  \"a\": 2,\n  \"b\": 1\n}");
}

#[test]
fn pretty_nested_and_empty() {
    let v = from_str(r#"{"x":[1,{}],"y":[]}"#).unwrap();
    assert_eq!(
        to_string_pretty(&v).unwrap(),
        "{\n  \"x\": [\n    1,\n    {}\n  ],\n  \"y\": []\n}"
    );
}

#[test]
fn strings_escaped_minimally() {
    let v = Value::String("a\"b\\c/d\n\u{1f}\u{8}\u{c}\r\té".to_string());
    assert_eq!(
        to_string(&v).unwrap(),
        "\"a\\\"b\\\\c/d\\n\\u001f\\b\\f\\r\\té\""
    );
}

#[test]
fn scalars() {
    assert_eq!(to_string(&Value::Null).unwrap(), "null");
    assert_eq!(to_string(&Value::Bool(true)).unwrap(), "true");
    assert_eq!(to_string(&Value::Bool(false)).unwrap(), "false");
    assert_eq!(to_string(&Value::Number(Number::NegInt(-17))).unwrap(), "-17");
    assert_eq!(to_vec(&Value::Array(vec![])).unwrap(), b"[]".to_vec());
}

#[test]
fn emission_is_stable_over_reparse() {
    let inputs = [
        r#" { "z" : [1, 2.50, "sA"], "a" : {"q": null} } "#,
        "[true,false,null,-0,\"\\/\"]",
        "\"\\ud83d\\ude00\"",
    ];
    for input in inputs {
        let once = to_string(&from_str(input).unwrap()).unwrap();
        let twice = to_string(&from_str(&once).unwrap()).unwrap();
        assert_eq!(once, twice);
    }
}

#[test]
fn serializer_events() {
    let mut ser = Serializer::new(Vec::new());
    ser.serialize_i8(-5).unwrap();
    ser.serialize_u16(300).unwrap();
    ser.serialize_bytes(&[1, 2]).unwrap();
    ser.serialize_unit_variant("E", 0, "Tag").unwrap();
    ser.serialize_none().unwrap();
    assert_eq!(ser.into_inner(), b"-5300[1,2]\"Tag\"null".to_vec());
}

#[test]
fn formatter_escape_text() {
    let mut f = CompactFormatter;
    let mut out = Vec::new();
    f.write_char_escape(&mut out, CharEscape::AsciiControl(0x1b));
    f.write_char_escape(&mut out, CharEscape::Solidus);
    assert_eq!(out, b"\\u001b\\/".to_vec());
}

#[test]
fn custom_indent() {
    let mut ser = Serializer::with_formatter(Vec::new(), PrettyFormatter::with_indent(b"\t"));
    let v = from_str("[1,[2]]").unwrap();
    ser.serialize_value(&v).unwrap();
    assert_eq!(ser.into_inner(), b"[\n\t1,\n\t[\n\t\t2\n\t]\n]".to_vec());
}

#[test]
fn value_accessors() {
    let mut v = from_str(r#"{"n":-3,"s":"t","b":false,"z":null,"a":[7]}"#).unwrap();
    assert!(v.is_object());
    assert_eq!(v.get("n").unwrap().as_i64(), Some(-3));
    assert!(v.get("n").unwrap().is_i64());
    assert!(!v.get("n").unwrap().is_u64());
    assert_eq!(v.get("s").unwrap().as_str(), Some("t"));
    assert!(v.get("s").unwrap().is_string());
    assert_eq!(v.get("b").unwrap().as_bool(), Some(false));
    assert!(v.get("b").unwrap().is_boolean());
    assert!(v.get("z").unwrap().is_null());
    assert_eq!(v.get("z").unwrap().as_null(), Some(()));
    assert!(v.get("a").unwrap().is_array());
    assert_eq!(v.get("a").unwrap().get_index(0).unwrap().as_u64(), Some(7));
    assert!(v.get("a").unwrap().get_index(1).is_none());
    assert!(v.get("missing").is_none());
    assert!(v.get("n").unwrap().is_number());
    let taken = v.take();
    assert!(taken.is_object());
    assert!(v.is_null());
    assert_eq!(Value::default(), Value::Null);
}

#[test]
fn scalars_round_trip() {
    let values = vec![
        Value::Null,
        Value::Bool(true),
        Value::Bool(false),
        Value::String("q\"b\\s/\u{0}\u{1f}\n\t\r\u{8}\u{c} é 😀".to_string()),
        Value::Number(Number::PosInt(18446744073709551615)),
        Value::Number(Number::NegInt(-9223372036854775808)),
    ];
    for v in values {
        let text = to_string(&v).unwrap();
        assert_eq!(from_str(&text).unwrap(), v);
    }
}
