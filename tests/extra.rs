use json_codec::error::parse_line_col;
use json_codec::read::{IoRead, Read, Reference, SliceRead, Source, StrRead};
use json_codec::ser::{Compound, State};
use json_codec::{from_str, Error, ErrorCode, Number, Serializer, StreamDeserializer, Value};

#[test]
fn pointer_escapes_slash_and_tilde() {
    let v = from_str(r#"{"a/b":1,"m~n":2,"x":[10,20],"~1":3}"#).unwrap();
    assert_eq!(v.pointer("/a~1b").unwrap().as_u64(), Some(1));
    assert_eq!(v.pointer("/m~0n").unwrap().as_u64(), Some(2));
    assert_eq!(v.pointer("/~01").unwrap().as_u64(), Some(3));
    assert_eq!(v.pointer("/x/1").unwrap().as_u64(), Some(20));
    assert_eq!(v.pointer("").unwrap(), &v);
    assert!(v.pointer("x").is_none());
    assert!(v.pointer("/x/01").is_none());
    assert!(v.pointer("/x/+1").is_none());
    assert!(v.pointer("/x/2").is_none());
    assert!(v.pointer("/nope").is_none());
}

#[test]
fn non_string_keys_are_refused() {
    let mut ser = Serializer::new(Vec::new());
    let mut c = ser.serialize_map(Some(1)).unwrap();
    let e = ser.serialize_key(&mut c, &Value::Bool(true)).unwrap_err();
    assert!(matches!(e.code(), ErrorCode::KeyMustBeAString));
    let e = ser.serialize_key_value(&Value::Array(vec![])).unwrap_err();
    assert!(matches!(e.code(), ErrorCode::KeyMustBeAString));
    let e = ser.serialize_key_unit().unwrap_err();
    assert!(matches!(e.code(), ErrorCode::KeyMustBeAString));
    let e = ser.serialize_key_bytes(b"k").unwrap_err();
    assert!(matches!(e.code(), ErrorCode::KeyMustBeAString));
    let e = ser.serialize_key_bool(false).unwrap_err();
    assert!(matches!(e.code(), ErrorCode::KeyMustBeAString));
}

#[test]
fn integer_keys_are_quoted() {
    let mut ser = Serializer::new(Vec::new());
    let mut c = ser.serialize_map(None).unwrap();
    ser.serialize_key(&mut c, &Value::Number(Number::PosInt(5))).unwrap();
    ser.serialize_map_value(&Value::Bool(true)).unwrap();
    ser.serialize_key(&mut c, &Value::Number(Number::NegInt(-2))).unwrap();
    ser.serialize_map_value(&Value::Null).unwrap();
    ser.end_map(c).unwrap();
    assert_eq!(ser.into_inner(), br#"{"5":true,"-2":null}"#.to_vec());
}

#[test]
fn sequences_entry_by_entry() {
    let mut ser = Serializer::new(Vec::new());
    let mut c = ser.serialize_seq(Some(2)).unwrap();
    assert_eq!(c.state, State::First);
    ser.serialize_element(&mut c, &Value::Number(Number::PosInt(1))).unwrap();
    assert_eq!(c.state, State::Rest);
    ser.serialize_element(&mut c, &Value::String("b".to_string())).unwrap();
    ser.end_seq(c).unwrap();
    let empty = ser.serialize_tuple(0).unwrap();
    assert_eq!(empty, Compound { state: State::Empty });
    ser.end_seq(empty).unwrap();
    assert_eq!(ser.into_inner(), br#"[1,"b"][]"#.to_vec());
}

#[test]
fn enum_variants() {
    let mut ser = Serializer::new(Vec::new());
    ser.serialize_newtype_variant("E", 0, "V", &Value::Number(Number::PosInt(1))).unwrap();
    let mut t = ser.serialize_tuple_variant("E", 1, "T", 2).unwrap();
    ser.serialize_element(&mut t, &Value::Number(Number::PosInt(1))).unwrap();
    ser.serialize_element(&mut t, &Value::Number(Number::PosInt(2))).unwrap();
    ser.end_tuple_variant(t).unwrap();
    let mut s = ser.serialize_struct_variant("E", 2, "S", 1).unwrap();
    ser.serialize_key(&mut s, &Value::String("f".to_string())).unwrap();
    ser.serialize_map_value(&Value::Null).unwrap();
    ser.end_struct_variant(s).unwrap();
    let u = ser.serialize_tuple_variant("E", 3, "U", 0).unwrap();
    ser.end_tuple_variant(u).unwrap();
    assert_eq!(
        ser.into_inner(),
        br#"{"V":1}{"T":[1,2]}{"S":{"f":null}}{"U":[]}"#.to_vec()
    );
}

#[test]
fn structs_and_chars() {
    let mut ser = Serializer::new(Vec::new());
    let mut c = ser.serialize_struct("P", 1).unwrap();
    ser.serialize_key(&mut c, &Value::String("x".to_string())).unwrap();
    ser.serialize_map_value(&Value::Number(Number::NegInt(-1))).unwrap();
    ser.end_map(c).unwrap();
    ser.serialize_char('é').unwrap();
    ser.serialize_char('"').unwrap();
    ser.serialize_unit_struct("U").unwrap();
    ser.serialize_bool(true).unwrap();
    ser.serialize_i16(-300).unwrap();
    ser.serialize_i32(70000).unwrap();
    ser.serialize_u8(255).unwrap();
    ser.serialize_u32(4000000000).unwrap();
    assert_eq!(
        String::from_utf8(ser.into_inner()).unwrap(),
        "{\"x\":-1}\"é\"\"\\\"\"nulltrue-300700002554000000000"
    );
}

#[test]
fn custom_errors_take_position_from_message() {
    let e = Error::custom("bad thing at line 3 column 7".to_string());
    assert_eq!((e.line(), e.column()), (3, 7));
    assert!(matches!(e.code(), ErrorCode::Message(m) if m == "bad thing"));
    assert!(e.is_data());
    let e = Error::custom("plain message".to_string());
    assert_eq!((e.line(), e.column()), (0, 0));
    let e = Error::custom("x at line 3 column 7 more".to_string());
    assert_eq!((e.line(), e.column()), (0, 0));
    assert!(matches!(e.code(), ErrorCode::Message(m) if m == "x at line 3 column 7 more"));
}

#[test]
fn line_col_suffix_parsing() {
    assert_eq!(parse_line_col(b"m at line 12 column 0"), Some((12, 0, 1)));
    assert_eq!(parse_line_col(b"a at line 1 column 2 at line 5 column 6"), Some((5, 6, 20)));
    assert_eq!(parse_line_col(b"m at line  column 3"), None);
    assert_eq!(parse_line_col(b"m at line 1 column "), None);
    assert_eq!(parse_line_col(b"m at line 99999999999999999999 column 1"), None);
    assert_eq!(parse_line_col(b"short"), None);
}

#[test]
fn error_categories() {
    let e = from_str("[").unwrap_err();
    assert!(e.is_eof());
    assert!(!e.is_syntax());
    assert_eq!(e.classify(), json_codec::Category::Eof);
    let e = Error::io(json_codec::io::Error);
    assert!(e.is_io());
    assert_eq!(e.line(), 0);
}

#[test]
fn readers_agree_on_strings() {
    let input = "abc\\n\u{e9}\" tail".as_bytes();
    let mut slice = SliceRead::new(input);
    let mut scratch = Vec::new();
    let r = slice.parse_str(&mut scratch).unwrap();
    assert_eq!(r, Reference::Copied);
    assert_eq!(scratch, "abc\n\u{e9}".as_bytes().to_vec());
    let mut io = IoRead::new(input.to_vec());
    let mut scratch2 = Vec::new();
    io.parse_str(&mut scratch2).unwrap();
    assert_eq!(scratch2, scratch);
    assert_eq!(io.byte_offset(), slice.byte_offset());
    let mut s = StrRead::new("plain\" rest");
    let mut scratch3 = Vec::new();
    let r = s.parse_str(&mut scratch3).unwrap();
    assert_eq!(r, Reference::Borrowed { start: 0, end: 5 });
    let mut skip = IoRead::new(br#"a\"bA" x"#.to_vec());
    skip.ignore_str().unwrap();
    assert_eq!(skip.byte_offset(), 6);
    let mut bad = SliceRead::new(b"a\x01\"");
    let e = bad.ignore_str().unwrap_err();
    assert!(matches!(e.code(), ErrorCode::ControlCharacterWhileParsingString));
}

#[test]
fn stream_and_slice_failure_latch() {
    let mut slice = SliceRead::new(b"[1] [2]");
    slice.next().unwrap();
    let mut failed = false;
    slice.set_failed(&mut failed);
    assert_eq!(slice.next().unwrap(), None);
    let mut io = IoRead::new(b"[1]".to_vec());
    let mut failed = false;
    io.set_failed(&mut failed);
    assert!(failed);
}

#[test]
fn hex_escapes() {
    let mut r = SliceRead::new(b"00e9");
    assert_eq!(r.decode_hex_escape().unwrap(), 0xe9);
    let mut r = SliceRead::new(b"0g");
    assert!(matches!(r.decode_hex_escape().unwrap_err().code(), ErrorCode::EofWhileParsingString));
    let mut r = IoRead::new(b"0g".to_vec());
    assert!(matches!(r.decode_hex_escape().unwrap_err().code(), ErrorCode::InvalidEscape));
    assert_eq!(json_codec::read::decode_hex_val(b'F'), Some(15));
    assert_eq!(json_codec::read::decode_hex_val(b'x'), None);
}

#[test]
fn change_in_place() {
    let mut v = from_str(r#"{"a":[1],"b":{"c":true}}"#).unwrap();
    *v.get_mut("b").unwrap() = Value::Null;
    assert!(v.get("b").unwrap().is_null());
    assert!(v.get_mut("zz").is_none());
    v.as_object_mut().unwrap().insert("d".to_string(), Value::Bool(false));
    v.as_object_mut().unwrap().get_mut("a").unwrap().as_array_mut().unwrap().push(Value::Null);
    assert_eq!(json_codec::to_string(&v).unwrap(), r#"{"a":[1,null],"b":null,"d":false}"#);
    let mut n = Value::Null;
    assert!(n.as_array_mut().is_none());
    assert!(n.as_object_mut().is_none());
}

#[test]
fn stream_of_values_stops_after_error() {
    let mut s = StreamDeserializer::new(SliceRead::new(b" 1 [2] \"x\" ? 4"));
    assert_eq!(s.next_value().unwrap().unwrap().as_u64(), Some(1));
    assert!(s.next_value().unwrap().unwrap().is_array());
    assert_eq!(s.next_value().unwrap().unwrap().as_str(), Some("x"));
    assert!(s.next_value().unwrap().is_err());
    assert!(s.next_value().is_none());
    let mut io = StreamDeserializer::new(IoRead::new(b"true x false".to_vec()));
    assert_eq!(io.next_value().unwrap().unwrap(), Value::Bool(true));
    assert!(io.next_value().unwrap().is_err());
    assert!(io.next_value().is_none());
    let mut done = StreamDeserializer::new(StrRead::new("  "));
    assert!(done.next_value().is_none());
}

#[test]
fn positions_fixed_once() {
    let e = Error::custom("no position".to_string()).fix_position(4, 2);
    assert_eq!((e.line(), e.column()), (4, 2));
    let e = from_str("[1,]").unwrap_err().fix_position(9, 9);
    assert_eq!(e.line(), 1);
    assert_eq!(ErrorCode::TrailingComma.message(), "trailing comma");
    assert_eq!(ErrorCode::Message("m".to_string()).message(), "m");
}

#[test]
fn error_text_with_position() {
    let e = from_str(&"[".repeat(129)).unwrap_err();
    assert_eq!(e.to_string(), "recursion limit exceeded at line 1 column 129");
    let e = from_str("[1, 2, ]").unwrap_err();
    assert_eq!(e.to_string(), "trailing comma at line 1 column 7");
    let e = from_str("{\"x\": 1\n").unwrap_err();
    assert_eq!(e.to_string(), "EOF while parsing an object at line 2 column 0");
    assert!(e.is_eof());
    let e = Error::custom("plain".to_string());
    assert_eq!(e.to_string(), "plain");
}

#[test]
fn raw_strings_refuse_control_bytes() {
    let mut read = SliceRead::new(b"a\x01b\"");
    let mut scratch = Vec::new();
    let e = read.parse_str_raw(&mut scratch).unwrap_err();
    assert!(matches!(e.code(), ErrorCode::ControlCharacterWhileParsingString));
    assert_eq!((e.line(), e.column()), (1, 2));
    let mut io = IoRead::new(b"a\x01\"".to_vec());
    let e = io.ignore_str().unwrap_err();
    assert_eq!(e.column(), 2);
    let mut slice = SliceRead::new(b"a\x01\"");
    let e = slice.ignore_str().unwrap_err();
    assert_eq!(e.column(), 2);
}

#[test]
fn escape_free_strings_borrow() {
    let mut read = SliceRead::new(b"plain\" rest");
    let mut scratch = Vec::new();
    assert_eq!(read.parse_str(&mut scratch).unwrap(), Reference::Borrowed { start: 0, end: 5 });
    let mut read = SliceRead::new(b"es\\ncaped\"");
    assert_eq!(read.parse_str(&mut scratch).unwrap(), Reference::Copied);
    assert_eq!(scratch, b"es\ncaped".to_vec());
    let start = SliceRead::new(b"x");
    let p = start.position();
    assert_eq!((p.line, p.column), (1, 0));
}
