use json_codec::read::{Read, SliceRead, Source};
use json_codec::{from_reader, from_slice, from_str, ErrorCode, JsonMap, Number, Value};

fn code_of(input: &str) -> (ErrorCode, usize, usize) {
    let e = from_str(input).unwrap_err();
    let line = e.line();
    let column = e.column();
    let code = match e.code() {
        ErrorCode::EofWhileParsingList => ErrorCode::EofWhileParsingList,
        ErrorCode::EofWhileParsingObject => ErrorCode::EofWhileParsingObject,
        ErrorCode::EofWhileParsingString => ErrorCode::EofWhileParsingString,
        ErrorCode::EofWhileParsingValue => ErrorCode::EofWhileParsingValue,
        ErrorCode::ExpectedColon => ErrorCode::ExpectedColon,
        ErrorCode::ExpectedListCommaOrEnd => ErrorCode::ExpectedListCommaOrEnd,
        ErrorCode::ExpectedObjectCommaOrEnd => ErrorCode::ExpectedObjectCommaOrEnd,
        ErrorCode::ExpectedSomeIdent => ErrorCode::ExpectedSomeIdent,
        ErrorCode::ExpectedSomeValue => ErrorCode::ExpectedSomeValue,
        ErrorCode::InvalidEscape => ErrorCode::InvalidEscape,
        ErrorCode::InvalidNumber => ErrorCode::InvalidNumber,
        ErrorCode::NumberOutOfRange => ErrorCode::NumberOutOfRange,
        ErrorCode::InvalidUnicodeCodePoint => ErrorCode::InvalidUnicodeCodePoint,
        ErrorCode::ControlCharacterWhileParsingString => ErrorCode::ControlCharacterWhileParsingString,
        ErrorCode::KeyMustBeAString => ErrorCode::KeyMustBeAString,
        ErrorCode::LoneLeadingSurrogateInHexEscape => ErrorCode::LoneLeadingSurrogateInHexEscape,
        ErrorCode::TrailingComma => ErrorCode::TrailingComma,
        ErrorCode::TrailingCharacters => ErrorCode::TrailingCharacters,
        ErrorCode::UnexpectedEndOfHexEscape => ErrorCode::UnexpectedEndOfHexEscape,
        ErrorCode::RecursionLimitExceeded => ErrorCode::RecursionLimitExceeded,
        other => panic!("unexpected code {:?}", other),
    };
    (code, line, column)
}

#[test]
fn parses_object_with_array() {
    let input = r#"{"a":1,"b":[true,null,"x"]}"#;
    let v = from_str(input).unwrap();
    let a = v.get("a").unwrap();
    assert_eq!(a, &Value::Number(Number::PosInt(1)));
    let b = v.get("b").unwrap();
    assert_eq!(
        b,
        &Value::Array(vec![Value::Bool(true), Value::Null, Value::String("x".to_string())])
    );
    assert_eq!(v.as_object().unwrap().len(), 2);
    assert_eq!(json_codec::to_string(&v).unwrap(), input);
}

#[test]
fn decodes_unicode_escapes() {
    let v = from_str(r#""Aé😀""#).unwrap();
    let s = v.as_str().unwrap();
    assert_eq!(s, "A\u{e9}\u{1F600}");
    assert_eq!(&s.as_bytes()[s.len() - 4..], &[0xF0, 0x9F, 0x98, 0x80]);
}

#[test]
fn trailing_comma_in_array() {
    assert!(matches!(code_of("[1, 2, ]"), (ErrorCode::TrailingComma, 1, 7)));
}

#[test]
fn trailing_comma_in_object() {
    assert!(matches!(code_of(r#"{"a":1,}"#).0, ErrorCode::TrailingComma));
}

#[test]
fn unterminated_object() {
    assert!(matches!(code_of("{\"x\": 1\n"), (ErrorCode::EofWhileParsingObject, 2, 0)));
}

#[test]
fn lone_surrogate_validated() {
    assert!(matches!(code_of(r#""\uD800""#).0, ErrorCode::UnexpectedEndOfHexEscape));
}

#[test]
fn lone_surrogate_raw() {
    let input = br#""\uD800""#;
    let mut read = SliceRead::new(&input[1..]);
    let mut scratch = Vec::new();
    read.parse_str_raw(&mut scratch).unwrap();
    assert_eq!(scratch, vec![0xED, 0xA0, 0x80]);
}

#[test]
fn lone_trailing_surrogate() {
    assert!(matches!(code_of(r#""\uDC00""#).0, ErrorCode::LoneLeadingSurrogateInHexEscape));
}

#[test]
fn recursion_limit() {
    let deep = "[".repeat(129);
    assert!(matches!(code_of(&deep), (ErrorCode::RecursionLimitExceeded, 1, 129)));
    let ok = format!("{}{}", "[".repeat(128), "]".repeat(128));
    assert!(from_str(&ok).is_ok());
}

#[test]
fn integer_bounds() {
    let v = from_str("18446744073709551615").unwrap();
    assert_eq!(v.as_u64(), Some(u64::MAX));
    let v = from_str("-9223372036854775808").unwrap();
    assert_eq!(v.as_i64(), Some(i64::MIN));
    assert!(matches!(code_of("18446744073709551616").0, ErrorCode::NumberOutOfRange));
    assert!(matches!(code_of("-9223372036854775809").0, ErrorCode::NumberOutOfRange));
}

#[test]
fn integers_round_trip() {
    for v in [0u64, 1, 9, 10, 42, 1234567890, u64::MAX] {
        let text = json_codec::to_string(&Value::Number(Number::from_u64(v))).unwrap();
        assert_eq!(text, v.to_string());
        assert_eq!(from_str(&text).unwrap().as_u64(), Some(v));
    }
    for v in [i64::MIN, -1, -42, -9876543210] {
        let text = json_codec::to_string(&Value::Number(Number::from_i64(v))).unwrap();
        assert_eq!(text, v.to_string());
        assert_eq!(from_str(&text).unwrap().as_i64(), Some(v));
    }
}

#[test]
fn floats_keep_their_text() {
    let v = from_str("[1.5, -0.25e3, 2E+8]").unwrap();
    assert!(v.get_index(0).unwrap().is_f64());
    assert_eq!(json_codec::to_string(&v).unwrap(), "[1.5,-0.25e3,2E+8]");
}

#[test]
fn invalid_numbers() {
    assert!(matches!(code_of("01").0, ErrorCode::InvalidNumber));
    assert!(matches!(code_of("-").0, ErrorCode::EofWhileParsingValue));
    assert!(matches!(code_of("-x").0, ErrorCode::InvalidNumber));
    assert!(matches!(code_of("1.").0, ErrorCode::EofWhileParsingValue));
    assert!(matches!(code_of("1.x").0, ErrorCode::InvalidNumber));
    assert!(matches!(code_of("1e").0, ErrorCode::EofWhileParsingValue));
}

#[test]
fn syntax_errors() {
    assert!(matches!(code_of(r#"{"a" 1}"#).0, ErrorCode::ExpectedColon));
    assert!(matches!(code_of("[1 2]").0, ErrorCode::ExpectedListCommaOrEnd));
    assert!(matches!(code_of(r#"{"a":1 "b":2}"#).0, ErrorCode::ExpectedObjectCommaOrEnd));
    assert!(matches!(code_of("nul").0, ErrorCode::EofWhileParsingValue));
    assert!(matches!(code_of("nulx"), (ErrorCode::ExpectedSomeIdent, 1, 4)));
    assert!(matches!(code_of("?").0, ErrorCode::ExpectedSomeValue));
    assert!(matches!(code_of("{1:2}").0, ErrorCode::KeyMustBeAString));
    assert!(matches!(code_of("1 2").0, ErrorCode::TrailingCharacters));
    assert!(matches!(code_of(r#""\q""#).0, ErrorCode::InvalidEscape));
    assert!(matches!(code_of("\"a\u{1}\"").0, ErrorCode::ControlCharacterWhileParsingString));
    assert!(matches!(code_of("\"abc").0, ErrorCode::EofWhileParsingString));
    assert!(matches!(code_of("[1,").0, ErrorCode::EofWhileParsingValue));
    assert!(matches!(code_of("[1").0, ErrorCode::EofWhileParsingList));
    assert!(matches!(code_of("").0, ErrorCode::EofWhileParsingValue));
}

#[test]
fn invalid_utf8_in_string() {
    let e = from_slice(&[34, 0xff, 34]).unwrap_err();
    assert!(matches!(e.code(), ErrorCode::InvalidUnicodeCodePoint));
}

#[test]
fn error_positions_follow_newlines() {
    let input = "[\n  1,\n  2 x\n]";
    let e = from_str(input).unwrap_err();
    assert_eq!(e.line(), 3);
    assert!(e.is_syntax());
    let input = "{\n\"a\":\ntrue,\n\"b\": nulll}";
    let e = from_str(input).unwrap_err();
    assert_eq!(e.line(), 4);
    assert_eq!(e.column(), 10);
}

#[test]
fn reader_source_parses_like_slice() {
    let input = br#"{"k":"v\n","n":[1,2]}"#.to_vec();
    let a = from_reader(input.clone()).unwrap();
    let b = from_slice(&input).unwrap();
    assert_eq!(a, b);
    let e = from_reader(b"[1, 2, ]".to_vec()).unwrap_err();
    assert!(matches!(e.code(), ErrorCode::TrailingComma));
}

#[test]
fn duplicate_keys_keep_last() {
    let v = from_str(r#"{"a":1,"a":2}"#).unwrap();
    assert_eq!(v.get("a").unwrap().as_u64(), Some(2));
    assert_eq!(v.as_object().unwrap().len(), 1);
}

#[test]
fn slice_positions() {
    let input = b"ab\ncd";
    let mut read = SliceRead::new(input);
    for _ in 0..4 {
        read.next().unwrap();
    }
    let p = read.position();
    assert_eq!((p.line, p.column), (2, 1));
    assert_eq!(read.byte_offset(), 4);
}

#[test]
fn map_keeps_keys_sorted() {
    let mut m = JsonMap::new();
    assert!(m.insert("b".to_string(), Value::Null).is_none());
    assert!(m.insert("a".to_string(), Value::Bool(true)).is_none());
    assert!(m.insert("c".to_string(), Value::Bool(false)).is_none());
    assert_eq!(m.insert("a".to_string(), Value::Null), Some(Value::Bool(true)));
    let keys: Vec<&str> = m.entries().iter().map(|e| e.0.as_str()).collect();
    assert_eq!(keys, vec!["a", "b", "c"]);
    assert!(m.contains_key("b"));
    let (k, v) = m.get_key_value("c").unwrap();
    assert_eq!((k.as_str(), v), ("c", &Value::Bool(false)));
    assert!(m.get_key_value("zz").is_none());
    assert_eq!(m.remove("b"), Some(Value::Null));
    assert!(!m.contains_key("b"));
    assert_eq!(m.len(), 2);
    let mut other = JsonMap::new();
    other.insert("d".to_string(), Value::Null);
    other.insert("a".to_string(), Value::Bool(false));
    m.append(&mut other);
    assert!(other.is_empty());
    assert_eq!(m.get("a"), Some(&Value::Bool(false)));
    assert_eq!(m.len(), 3);
    assert_eq!(m.remove_entry("d").map(|e| e.0), Some("d".to_string()));
    m.clear();
    assert!(m.is_empty());
}
