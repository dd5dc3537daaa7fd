use resp_kv::deserializer::{from_bytes, Array, Deserializer, Error, Scalar};
use resp_kv::value::Value;

fn ints(items: &[i64]) -> Value {
    Value::Array(Some(items.iter().map(|i| Value::Int(*i)).collect()))
}

#[test]
fn de_i32() {
    assert_eq!(from_bytes(b":1\r\n"), Ok(Value::Int(1)));
}

#[test]
fn de_i64() {
    assert_eq!(from_bytes(b":15\r\n"), Ok(Value::Int(15)));
}

#[test]
fn de_negative_and_extreme_integers() {
    assert_eq!(from_bytes(b":-42\r\n"), Ok(Value::Int(-42)));
    assert_eq!(from_bytes(b":0\r\n"), Ok(Value::Int(0)));
    assert_eq!(from_bytes(b":9223372036854775807\r\n"), Ok(Value::Int(i64::MAX)));
    assert_eq!(from_bytes(b":-9223372036854775808\r\n"), Ok(Value::Int(i64::MIN)));
    assert_eq!(from_bytes(b":007\r\n"), Ok(Value::Int(7)));
}

#[test]
fn de_bool() {
    assert_eq!(from_bytes(b"#t\r\n"), Ok(Value::Bool(true)));
    assert_eq!(from_bytes(b"#f\r\n"), Ok(Value::Bool(false)));
}

#[test]
fn de_bytes() {
    let mut de = Deserializer::from_bytes(b"+abc\r\n");
    assert_eq!(de.deserialize_any(), Ok(Scalar::Text("abc".as_bytes())));
    assert_eq!(de.position(), 6);
    assert_eq!(de.end(), Ok(()));
}

#[test]
fn de_str() {
    assert_eq!(from_bytes(b"+abc\r\n"), Ok(Value::str("abc")));
}

#[test]
fn de_bulk_str() {
    assert_eq!(from_bytes(b"$5\r\nhello\r\n"), Ok(Value::str("hello")));
}

#[test]
fn de_bulk_str_nl() {
    assert_eq!(from_bytes(b"$7\r\nhel\r\nlo\r\n"), Ok(Value::str("hel\r\nlo")));
}

#[test]
fn de_empty_texts() {
    assert_eq!(from_bytes(b"+\r\n"), Ok(Value::str("")));
    assert_eq!(from_bytes(b"$0\r\n\r\n"), Ok(Value::str("")));
}

#[test]
fn int_array_empty() {
    assert_eq!(from_bytes(b"*0\r\n"), Ok(ints(&[])));
}

#[test]
fn int_array_some() {
    assert_eq!(from_bytes(b"*3\r\n:1\r\n:2\r\n:3\r\n"), Ok(ints(&[1, 2, 3])));
}

#[test]
fn tuple() {
    assert_eq!(
        from_bytes(b"*3\r\n:1\r\n+hello\r\n#t\r\n"),
        Ok(Value::Array(Some(vec![Value::Int(1), Value::str("hello"), Value::Bool(true)])))
    );
}

#[test]
fn newtype() {
    let mut de = Deserializer::from_bytes(b":1\r\n");
    assert_eq!(de.deserialize_any(), Ok(Scalar::Int(1)));
    assert_eq!(de.end(), Ok(()));
}

#[test]
fn struct_case() {
    let decoded = from_bytes(b"%3\r\n+a\r\n:17\r\n+c\r\n:-1\r\n+b\r\n+hello\r\n");
    assert_eq!(
        decoded,
        Ok(Value::Mapping(vec![
            (Value::str("a"), Value::Int(17)),
            (Value::str("b"), Value::str("hello")),
            (Value::str("c"), Value::Int(-1)),
        ]))
    );
}

#[test]
fn struct_fields_through_the_cursor() {
    let mut de = Deserializer::from_bytes(b"%1\r\n+a\r\n:17\r\n");
    assert_eq!(de.deserialize_map(), Ok(1));
    assert_eq!(de.deserialize_any(), Ok(Scalar::Text(b"a")));
    assert_eq!(de.deserialize_any(), Ok(Scalar::Int(17)));
    assert_eq!(de.end(), Ok(()));
}

#[test]
fn untagged_int() {
    assert_eq!(from_bytes(b":1\r\n").unwrap().to_int(), Some(1));
}

#[test]
fn untagged_string() {
    assert_eq!(from_bytes(b"+hey\r\n").unwrap().to_str(), Some("hey".to_string()));
}

#[test]
fn untagged_array() {
    assert_eq!(
        from_bytes(b"*3\r\n:1\r\n:2\r\n:3\r\n").unwrap().to_arr(),
        Some(vec![Value::Int(1), Value::Int(2), Value::Int(3)])
    );
}

#[test]
fn option_null_string() {
    assert_eq!(from_bytes(b"$-1\r\n"), Ok(Value::String(None)));
    let mut de = Deserializer::from_bytes(b"$-1\r\n");
    assert_eq!(de.deserialize_any(), Ok(Scalar::Absent));
    assert_eq!(de.position(), 5);
}

#[test]
fn option_null_array() {
    assert_eq!(from_bytes(b"*-1\r\n"), Err(Error::NegativeLength(1)));
}

#[test]
fn unknown_sigil_is_a_syntax_error() {
    assert_eq!(from_bytes(b"_\r\n"), Err(Error::Syntax(1)));
    assert_eq!(from_bytes(b",1.5\r\n"), Err(Error::Syntax(1)));
}

#[test]
fn nested_values() {
    let decoded = from_bytes(b"*2\r\n*2\r\n:1\r\n$-1\r\n%1\r\n#t\r\n*0\r\n");
    assert_eq!(
        decoded,
        Ok(Value::Array(Some(vec![
            Value::Array(Some(vec![Value::Int(1), Value::String(None)])),
            Value::Mapping(vec![(Value::Bool(true), Value::Array(Some(vec![])))]),
        ])))
    );
}

#[test]
fn mapping_keeps_the_last_value_of_a_repeated_key() {
    assert_eq!(
        from_bytes(b"%3\r\n:2\r\n+x\r\n:1\r\n+y\r\n:2\r\n+z\r\n"),
        Ok(Value::Mapping(vec![
            (Value::Int(1), Value::str("y")),
            (Value::Int(2), Value::str("z")),
        ]))
    );
}

#[test]
fn trailing_characters_after_an_integer() {
    assert_eq!(from_bytes(b":1\r\nX"), Err(Error::TrailingCharacters(4)));
    let mut de = Deserializer::from_bytes(b":1\r\nX");
    assert_eq!(de.deserialize_any(), Ok(Scalar::Int(1)));
    assert_eq!(de.end(), Err(Error::TrailingCharacters(4)));
}

#[test]
fn end_of_input() {
    assert_eq!(from_bytes(b""), Err(Error::UnexpectedEof));
    assert_eq!(from_bytes(b":1"), Err(Error::UnexpectedEof));
    assert_eq!(from_bytes(b"+abc\r"), Err(Error::UnexpectedEof));
    assert_eq!(from_bytes(b"$5\r\nhel"), Err(Error::UnexpectedEof));
    assert_eq!(from_bytes(b"*2\r\n:1\r\n"), Err(Error::UnexpectedEof));
    assert_eq!(from_bytes(b"*9999999999\r\n"), Err(Error::UnexpectedEof));
}

#[test]
fn syntax_errors() {
    // a bulk payload without its closing CRLF: the offset is the one after the payload
    assert_eq!(from_bytes(b"$5\r\nhelloXX"), Err(Error::Syntax(9)));
    assert_eq!(from_bytes(b"$5\r\nhello"), Err(Error::Syntax(9)));
    // a boolean that is neither t nor f
    assert_eq!(from_bytes(b"#x\r\n"), Err(Error::Syntax(1)));
    assert_eq!(from_bytes(b"#tt\r\n"), Err(Error::Syntax(1)));
    assert_eq!(from_bytes(b"#\r\n"), Err(Error::Syntax(1)));
    // an unknown sigil
    assert_eq!(from_bytes(b"?1\r\n"), Err(Error::Syntax(1)));
}

#[test]
fn negative_lengths() {
    assert_eq!(from_bytes(b"*-1\r\n"), Err(Error::NegativeLength(1)));
    assert_eq!(from_bytes(b"%-1\r\n"), Err(Error::NegativeLength(1)));
    assert_eq!(from_bytes(b"$-2\r\n"), Err(Error::NegativeLength(1)));
    assert_eq!(from_bytes(b"*1\r\n*-1\r\n"), Err(Error::NegativeLength(5)));
    let mut de = Deserializer::from_bytes(b"*-1\r\n");
    assert_eq!(de.deserialize_seq(), Err(Error::NegativeLength(1)));
    assert_eq!(de.position(), 0);
    let mut de = Deserializer::from_bytes(b"%-1\r\n");
    assert_eq!(de.deserialize_map(), Err(Error::NegativeLength(1)));
}

#[test]
fn integer_parse_failures() {
    assert_eq!(from_bytes(b":abc\r\n"), Err(Error::ParseIntError(1)));
    assert_eq!(from_bytes(b":\r\n"), Err(Error::ParseIntError(1)));
    assert_eq!(from_bytes(b":-\r\n"), Err(Error::ParseIntError(1)));
    assert_eq!(from_bytes(b":12abc\r\n"), Err(Error::ParseIntError(1)));
    assert_eq!(from_bytes(b":+5\r\n"), Err(Error::ParseIntError(1)));
    assert_eq!(from_bytes(b": 5\r\n"), Err(Error::ParseIntError(1)));
    assert_eq!(from_bytes(b":9223372036854775808\r\n"), Err(Error::ParseIntError(1)));
    assert_eq!(from_bytes(b":-9223372036854775809\r\n"), Err(Error::ParseIntError(1)));
    assert_eq!(from_bytes(b"$x\r\n"), Err(Error::ParseIntError(1)));
    assert_eq!(from_bytes(b"*3x\r\n"), Err(Error::ParseIntError(1)));
}

#[test]
fn expected_array() {
    let mut de = Deserializer::from_bytes(b":1\r\n");
    assert_eq!(de.deserialize_seq(), Err(Error::ExpectedArray(1)));
    assert_eq!(de.position(), 0);
    let mut de = Deserializer::from_bytes(b"*1\r\n:1\r\n");
    assert_eq!(de.deserialize_map(), Err(Error::ExpectedArray(1)));
    let mut de = Deserializer::from_bytes(b"*2\r\n:1\r\n:2\r\n");
    assert_eq!(de.deserialize_seq(), Ok(2));
    assert_eq!(de.position(), 4);
}

#[test]
fn missing_value_for_a_key() {
    assert_eq!(from_bytes(b"%1\r\n+a\r\n"), Err(Error::MissingValue(8)));
    assert_eq!(from_bytes(b"%2\r\n+a\r\n:1\r\n+b\r\n"), Err(Error::MissingValue(16)));
    // a key that is not there at all is the end of input
    assert_eq!(from_bytes(b"%1\r\n"), Err(Error::UnexpectedEof));
}

#[test]
fn text_must_be_utf8() {
    assert_eq!(from_bytes(b"+\xff\r\n"), Err(Error::Syntax(1)));
    assert_eq!(from_bytes(b"$2\r\n\xc3\x28\r\n"), Err(Error::Syntax(4)));
    assert_eq!(from_bytes("+h\u{e9}llo\r\n".as_bytes()), Ok(Value::str("h\u{e9}llo")));
    let mut de = Deserializer::from_bytes(b"+\xff\r\n");
    assert_eq!(de.deserialize_any(), Ok(Scalar::Text(b"\xff")));
}

#[test]
fn cursor_steps() {
    let mut de = Deserializer::from_bytes(b"ab\r\ncd");
    assert_eq!(de.position(), 0);
    assert_eq!(de.peek(), Ok(b'a'));
    assert_eq!(de.advance(), Ok(b'a'));
    assert_eq!(de.position(), 1);
    assert!(!de.tag(b"x"));
    assert_eq!(de.position(), 1);
    assert!(de.tag(b"b\r"));
    assert_eq!(de.position(), 3);
    assert_eq!(de.take(2), Ok(&b"\nc"[..]));
    assert_eq!(de.take(2), Err(Error::UnexpectedEof));
    assert_eq!(de.position(), 5);
    assert_eq!(de.until_crlf(), Err(Error::UnexpectedEof));
    assert_eq!(de.advance(), Ok(b'd'));
    assert_eq!(de.peek(), Err(Error::UnexpectedEof));
    assert_eq!(de.advance(), Err(Error::UnexpectedEof));
    assert!(de.tag(b""));
    assert!(!de.tag(b"d"));
}

#[test]
fn until_crlf_takes_the_first_line() {
    let mut de = Deserializer::from_bytes(b"one\r\ntwo\r\n");
    assert_eq!(de.until_crlf(), Ok(&b"one"[..]));
    assert_eq!(de.position(), 5);
    assert_eq!(de.until_crlf(), Ok(&b"two"[..]));
    assert_eq!(de.end(), Ok(()));
    let mut de = Deserializer::from_bytes(b"a\rb\nc\r\r\n");
    assert_eq!(de.until_crlf(), Ok(&b"a\rb\nc\r"[..]));
}

#[test]
fn parse_int_reports_the_given_position() {
    let de = Deserializer::from_bytes(b"");
    assert_eq!(de.parse_int(b"123", 7), Ok(123));
    assert_eq!(de.parse_int(b"-9", 7), Ok(-9));
    assert_eq!(de.parse_int(b"12a", 7), Err(Error::ParseIntError(7)));
    assert_eq!(de.parse_int(b"", 3), Err(Error::ParseIntError(3)));
}

#[test]
fn errors_leave_the_cursor_in_place() {
    let mut de = Deserializer::from_bytes(b":1\r\n#x\r\n");
    assert_eq!(de.deserialize_value(), Ok(Value::Int(1)));
    assert_eq!(de.position(), 4);
    assert_eq!(de.deserialize_value(), Err(Error::Syntax(5)));
    assert_eq!(de.position(), 4);
    assert_eq!(de.deserialize_any(), Err(Error::Syntax(5)));
    assert_eq!(de.position(), 4);
}

#[test]
fn an_absent_mark_is_stepped_over() {
    let mut de = Deserializer::from_bytes(b"$-1\r\n:1\r\n");
    assert!(!de.deserialize_option());
    assert_eq!(de.position(), 5);
    assert!(de.deserialize_option());
    assert_eq!(de.position(), 5);
    assert_eq!(de.deserialize_any(), Ok(Scalar::Int(1)));
    assert!(de.deserialize_option());
    let mut de = Deserializer::from_bytes(b"$-1\r");
    assert!(de.deserialize_option());
    assert_eq!(de.position(), 0);
}

#[test]
fn counting_down_a_sequence() {
    let mut left = Array::new(2);
    assert!(left.next_element());
    assert!(left.next_element());
    assert!(!left.next_element());
    assert!(!left.next_element());
}

#[test]
fn counting_down_a_mapping() {
    let mut de = Deserializer::from_bytes(b"%1\r\n+a\r\n:1\r\n");
    let mut left = Array::new(de.deserialize_map().unwrap());
    assert!(left.next_key());
    assert_eq!(de.deserialize_any(), Ok(Scalar::Text(b"a")));
    assert_eq!(left.next_value(&de), Ok(()));
    assert_eq!(de.deserialize_any(), Ok(Scalar::Int(1)));
    assert!(!left.next_key());
    assert_eq!(left.next_value(&de), Err(Error::MissingValue(12)));

    // a key with nothing after it
    let mut de = Deserializer::from_bytes(b"%1\r\n+a\r\n");
    let mut left = Array::new(de.deserialize_map().unwrap());
    assert!(left.next_key());
    assert_eq!(de.deserialize_any(), Ok(Scalar::Text(b"a")));
    assert_eq!(left.next_value(&de), Err(Error::MissingValue(8)));
    assert!(left.next_key());
}

#[test]
fn a_unit_is_the_absent_mark() {
    let mut de = Deserializer::from_bytes(b"$-1\r\n");
    assert_eq!(de.deserialize_unit(), Ok(()));
    assert_eq!(de.end(), Ok(()));
    let mut de = Deserializer::from_bytes(b":1\r\n+x\r\n");
    assert_eq!(de.deserialize_any(), Ok(Scalar::Int(1)));
    assert_eq!(de.deserialize_unit(), Err(Error::Syntax(4)));
    assert_eq!(de.position(), 4);
}

#[test]
fn a_required_text_cannot_be_absent() {
    // a sequence of one text, whose length is declared as -1
    let mut de = Deserializer::from_bytes(b"*1\r\n$-1\r\n");
    assert_eq!(de.deserialize_seq(), Ok(1));
    assert_eq!(de.position(), 4);
    assert_eq!(de.deserialize_present(), Err(Error::NegativeLength(5)));
    assert_eq!(de.position(), 4);
    // where the text may be absent, the same frame is the absent value
    assert!(!de.deserialize_option());
    assert_eq!(de.end(), Ok(()));

    let mut de = Deserializer::from_bytes(b"$-1\r\n");
    assert_eq!(de.deserialize_present(), Err(Error::NegativeLength(1)));
    assert_eq!(de.deserialize_any(), Ok(Scalar::Absent));
    assert_eq!(from_bytes(b"*1\r\n$-1\r\n"), Ok(Value::Array(Some(vec![Value::String(None)]))));
}

#[test]
fn a_present_scalar_is_read_as_it_is() {
    let mut de = Deserializer::from_bytes(b"+abc\r\n$5\r\nhello\r\n:-7\r\n#f\r\n$0\r\n\r\n");
    assert_eq!(de.deserialize_present(), Ok(Scalar::Text(b"abc")));
    assert_eq!(de.deserialize_present(), Ok(Scalar::Text(b"hello")));
    assert_eq!(de.deserialize_present(), Ok(Scalar::Int(-7)));
    assert_eq!(de.deserialize_present(), Ok(Scalar::Bool(false)));
    assert_eq!(de.deserialize_present(), Ok(Scalar::Text(b"")));
    assert_eq!(de.end(), Ok(()));
    assert_eq!(de.deserialize_present(), Err(Error::UnexpectedEof));

    let mut de = Deserializer::from_bytes(b"$-2\r\n");
    assert_eq!(de.deserialize_present(), Err(Error::NegativeLength(1)));
    let mut de = Deserializer::from_bytes(b"*0\r\n");
    assert_eq!(de.deserialize_present(), Err(Error::Syntax(1)));
    assert_eq!(de.position(), 0);
    let mut de = Deserializer::from_bytes(b"$3\r\nab");
    assert_eq!(de.deserialize_present(), Err(Error::UnexpectedEof));
}
