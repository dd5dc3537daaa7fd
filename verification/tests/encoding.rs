use resp_kv::deserializer::from_bytes;
use resp_kv::serializer::{contains_crlf, to_bytes, Error, Serializer};
use resp_kv::value::Value;

fn written(write: impl FnOnce(&mut Serializer) -> Result<(), Error>) -> Vec<u8> {
    let mut ser = Serializer::new();
    write(&mut ser).unwrap();
    ser.into_bytes()
}

#[test]
fn text_with_crlf_is_written_as_bulk() {
    assert_eq!(to_bytes(&Value::str("hel\r\nlo")).unwrap(), b"$7\r\nhel\r\nlo\r\n".to_vec());
    assert_eq!(written(|s| s.serialize_str("hel\r\nlo")), b"$7\r\nhel\r\nlo\r\n".to_vec());
    assert_eq!(written(|s| s.serialize_str("\r\n")), b"$2\r\n\r\n\r\n".to_vec());
}

#[test]
fn text_without_crlf_is_written_as_a_line() {
    assert_eq!(to_bytes(&Value::str("hello world")).unwrap(), b"+hello world\r\n".to_vec());
    assert_eq!(to_bytes(&Value::str("")).unwrap(), b"+\r\n".to_vec());
    // a lone carriage return or line feed is no CRLF
    assert_eq!(to_bytes(&Value::str("a\rb\nc")).unwrap(), b"+a\rb\nc\r\n".to_vec());
    assert_eq!(to_bytes(&Value::str("a\n\rb")).unwrap(), b"+a\n\rb\r\n".to_vec());
}

#[test]
fn contains_crlf_finds_the_pair_only() {
    assert!(contains_crlf(b"hel\r\nlo"));
    assert!(contains_crlf(b"\r\n"));
    assert!(contains_crlf(b"x\r\r\n"));
    assert!(!contains_crlf(b""));
    assert!(!contains_crlf(b"\r"));
    assert!(!contains_crlf(b"\n\r"));
    assert!(!contains_crlf(b"a\rb\nc"));
}

#[test]
fn absent_values_are_written_as_minus_one() {
    assert_eq!(to_bytes(&Value::String(None)).unwrap(), b"$-1\r\n".to_vec());
    assert_eq!(to_bytes(&Value::Array(None)).unwrap(), b"$-1\r\n".to_vec());
    assert_eq!(to_bytes(&Value::Null).unwrap(), b"$-1\r\n".to_vec());
    assert_eq!(written(|s| s.serialize_none()), b"$-1\r\n".to_vec());
}

#[test]
fn absent_text_round_trips() {
    let bytes = to_bytes(&Value::String(None)).unwrap();
    assert_eq!(bytes, b"$-1\r\n".to_vec());
    assert_eq!(from_bytes(&bytes), Ok(Value::String(None)));
}

#[test]
fn integers_are_written_in_decimal() {
    assert_eq!(to_bytes(&Value::Int(0)).unwrap(), b":0\r\n".to_vec());
    assert_eq!(to_bytes(&Value::Int(7)).unwrap(), b":7\r\n".to_vec());
    assert_eq!(to_bytes(&Value::Int(-1)).unwrap(), b":-1\r\n".to_vec());
    assert_eq!(to_bytes(&Value::Int(1234567890)).unwrap(), b":1234567890\r\n".to_vec());
    assert_eq!(to_bytes(&Value::Int(i64::MAX)).unwrap(), b":9223372036854775807\r\n".to_vec());
    assert_eq!(to_bytes(&Value::Int(i64::MIN)).unwrap(), b":-9223372036854775808\r\n".to_vec());
    assert_eq!(written(|s| s.serialize_i64(-100)), b":-100\r\n".to_vec());
}

#[test]
fn narrow_integers_are_written_like_wide_ones() {
    assert_eq!(written(|s| s.serialize_i8(-128)), b":-128\r\n".to_vec());
    assert_eq!(written(|s| s.serialize_i16(-32768)), b":-32768\r\n".to_vec());
    assert_eq!(written(|s| s.serialize_i32(i32::MIN)), b":-2147483648\r\n".to_vec());
    assert_eq!(written(|s| s.serialize_u8(255)), b":255\r\n".to_vec());
    assert_eq!(written(|s| s.serialize_u16(65535)), b":65535\r\n".to_vec());
    assert_eq!(written(|s| s.serialize_u32(u32::MAX)), b":4294967295\r\n".to_vec());
}

#[test]
fn unsigned_integers_above_the_signed_range_overflow() {
    assert_eq!(written(|s| s.serialize_u64(42)), b":42\r\n".to_vec());
    assert_eq!(
        written(|s| s.serialize_u64(i64::MAX as u64)),
        b":9223372036854775807\r\n".to_vec()
    );
    let mut ser = Serializer::new();
    assert_eq!(ser.serialize_u64(i64::MAX as u64 + 1), Err(Error::IntOverflow(1 << 63)));
    assert_eq!(ser.serialize_u64(u64::MAX), Err(Error::IntOverflow(u64::MAX)));
    assert_eq!(ser.into_bytes(), Vec::<u8>::new());
}

#[test]
fn booleans() {
    assert_eq!(to_bytes(&Value::Bool(true)).unwrap(), b"#t\r\n".to_vec());
    assert_eq!(to_bytes(&Value::Bool(false)).unwrap(), b"#f\r\n".to_vec());
}

#[test]
fn bytes_are_always_bulk() {
    assert_eq!(written(|s| s.serialize_bytes(b"abc")), b"$3\r\nabc\r\n".to_vec());
    assert_eq!(written(|s| s.serialize_bytes(b"")), b"$0\r\n\r\n".to_vec());
    assert_eq!(
        written(|s| s.serialize_bytes(b"0123456789")),
        b"$10\r\n0123456789\r\n".to_vec()
    );
}

#[test]
fn sequences_need_their_length() {
    let mut ser = Serializer::new();
    assert_eq!(ser.serialize_seq(None), Err(Error::LengthRequired));
    assert_eq!(ser.serialize_map(None), Err(Error::LengthRequired));
    assert_eq!(ser.serialize_seq(Some(2)), Ok(()));
    assert_eq!(ser.serialize_i64(1), Ok(()));
    assert_eq!(ser.serialize_i64(2), Ok(()));
    assert_eq!(ser.into_bytes(), b"*2\r\n:1\r\n:2\r\n".to_vec());
}

#[test]
fn tuples_and_structs() {
    let mut ser = Serializer::new();
    assert_eq!(ser.serialize_tuple(2), Ok(()));
    assert_eq!(ser.serialize_i64(1), Ok(()));
    assert_eq!(ser.serialize_bool(true), Ok(()));
    assert_eq!(ser.into_bytes(), b"*2\r\n:1\r\n#t\r\n".to_vec());

    // a record of two fields: baz = 1, hello = "world"
    let mut ser = Serializer::new();
    assert_eq!(ser.serialize_struct(2), Ok(()));
    assert_eq!(ser.serialize_str("baz"), Ok(()));
    assert_eq!(ser.serialize_i64(1), Ok(()));
    assert_eq!(ser.serialize_str("hello"), Ok(()));
    assert_eq!(ser.serialize_str("world"), Ok(()));
    assert_eq!(ser.into_bytes(), b"%2\r\n+baz\r\n:1\r\n+hello\r\n+world\r\n".to_vec());
}

#[test]
fn arrays_and_mappings() {
    let array = Value::Array(Some(vec![Value::Int(3), Value::Int(4)]));
    assert_eq!(to_bytes(&array).unwrap(), b"*2\r\n:3\r\n:4\r\n".to_vec());
    assert_eq!(to_bytes(&Value::Array(Some(vec![]))).unwrap(), b"*0\r\n".to_vec());
    let mapping = Value::Mapping(vec![
        (Value::str("a"), Value::Int(17)),
        (Value::str("b"), Value::str("hello")),
    ]);
    assert_eq!(to_bytes(&mapping).unwrap(), b"%2\r\n+a\r\n:17\r\n+b\r\n+hello\r\n".to_vec());
    let twelve = Value::Array(Some((0..12).map(Value::Int).collect()));
    assert!(to_bytes(&twelve).unwrap().starts_with(b"*12\r\n:0\r\n"));
}

fn round_trips(value: Value) {
    let bytes = to_bytes(&value).unwrap();
    assert_eq!(from_bytes(&bytes), Ok(value));
}

#[test]
fn values_round_trip() {
    round_trips(Value::Int(0));
    round_trips(Value::Int(i64::MIN));
    round_trips(Value::Int(i64::MAX));
    round_trips(Value::Bool(true));
    round_trips(Value::Bool(false));
    round_trips(Value::str(""));
    round_trips(Value::str("plain"));
    round_trips(Value::str("hel\r\nlo"));
    round_trips(Value::str("ends with cr\r"));
    round_trips(Value::str("\nstarts with lf"));
    round_trips(Value::str("gr\u{fc}\u{df}e \u{1f600}"));
    round_trips(Value::String(None));
    round_trips(Value::Array(Some(vec![])));
    round_trips(Value::Array(Some(vec![
        Value::Int(1),
        Value::str("two\r\nlines"),
        Value::Array(Some(vec![Value::Bool(false), Value::String(None)])),
    ])));
    round_trips(Value::Mapping(vec![]));
    round_trips(Value::Mapping(vec![
        (Value::Int(1), Value::str("one")),
        (Value::Int(2), Value::Mapping(vec![(Value::str("k"), Value::Bool(true))])),
        (Value::str("name"), Value::Array(Some(vec![Value::Int(-7)]))),
    ]));
}

#[test]
fn canonical_frames_round_trip() {
    for frame in [
        &b":0\r\n"[..],
        b":-12\r\n",
        b"#t\r\n",
        b"+abc\r\n",
        b"$7\r\nhel\r\nlo\r\n",
        b"$-1\r\n",
        b"*2\r\n:1\r\n+x\r\n",
        b"%2\r\n:1\r\n+x\r\n:2\r\n+y\r\n",
    ] {
        let value = from_bytes(frame).unwrap();
        assert_eq!(to_bytes(&value).unwrap(), frame.to_vec());
    }
}

#[test]
fn frames_that_are_not_canonical_are_rewritten() {
    let rewritten = |frame: &[u8]| to_bytes(&from_bytes(frame).unwrap()).unwrap();
    assert_eq!(rewritten(b":007\r\n"), b":7\r\n".to_vec());
    assert_eq!(rewritten(b":-0\r\n"), b":0\r\n".to_vec());
    assert_eq!(rewritten(b"$3\r\nabc\r\n"), b"+abc\r\n".to_vec());
    assert_eq!(
        rewritten(b"%2\r\n:2\r\n+y\r\n:1\r\n+x\r\n"),
        b"%2\r\n:1\r\n+x\r\n:2\r\n+y\r\n".to_vec()
    );
}

#[test]
fn null_and_absent_arrays_come_back_as_absent_text() {
    assert_eq!(from_bytes(&to_bytes(&Value::Null).unwrap()), Ok(Value::String(None)));
    assert_eq!(from_bytes(&to_bytes(&Value::Array(None)).unwrap()), Ok(Value::String(None)));
}

#[test]
fn units_and_variants() {
    assert_eq!(written(|s| s.serialize_unit()), b"$-1\r\n".to_vec());
    assert_eq!(written(|s| s.serialize_unit_variant("Ready")), b"+Ready\r\n".to_vec());
    let mut ser = Serializer::new();
    assert_eq!(ser.serialize_variant("Moved"), Ok(()));
    assert_eq!(ser.serialize_tuple(2), Ok(()));
    assert_eq!(ser.serialize_i64(3), Ok(()));
    assert_eq!(ser.serialize_i64(4), Ok(()));
    let bytes = ser.into_bytes();
    assert_eq!(bytes, b"%1\r\n+Moved\r\n*2\r\n:3\r\n:4\r\n".to_vec());
    assert_eq!(
        from_bytes(&bytes),
        Ok(Value::Mapping(vec![(
            Value::str("Moved"),
            Value::Array(Some(vec![Value::Int(3), Value::Int(4)]))
        )]))
    );
}

#[test]
fn lines_with_another_sigil() {
    assert_eq!(written(|s| s.serialize_line(b',', b"1.5")), b",1.5\r\n".to_vec());
    assert_eq!(written(|s| s.serialize_line(b'+', b"")), b"+\r\n".to_vec());
}

#[test]
fn a_record_is_a_mapping_of_names_and_values() {
    // a record of two fields: hello = "world", baz = 1
    let mut ser = Serializer::new();
    assert_eq!(ser.serialize_struct(2), Ok(()));
    assert_eq!(ser.serialize_field("hello", &Value::str("world")), Ok(()));
    assert_eq!(ser.serialize_field("baz", &Value::Int(1)), Ok(()));
    let bytes = ser.into_bytes();
    assert_eq!(bytes, b"%2\r\n+hello\r\n+world\r\n+baz\r\n:1\r\n".to_vec());
    assert_eq!(
        from_bytes(&bytes),
        Ok(Value::Mapping(vec![
            (Value::str("baz"), Value::Int(1)),
            (Value::str("hello"), Value::str("world")),
        ]))
    );
}
