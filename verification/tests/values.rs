use resp_kv::case_insensitive::{bytes_eq_ignore_case, lower_byte, CaseInsensitive};
use resp_kv::decimal::{is_decimal, parse_i64, parse_signed, push_decimal, push_signed_decimal};
use resp_kv::order::{compare_bytes, compare_ints, Order};
use resp_kv::sorted::{find_slot, get_pair, put_pair};
use resp_kv::value::Value;

fn samples() -> Vec<Value> {
    vec![
        Value::Int(i64::MIN),
        Value::Int(-1),
        Value::Int(0),
        Value::Int(5),
        Value::Bool(false),
        Value::Bool(true),
        Value::String(None),
        Value::str(""),
        Value::str("a"),
        Value::str("ab"),
        Value::str("b"),
        Value::str("\u{e9}"),
        Value::Array(None),
        Value::Array(Some(vec![])),
        Value::Array(Some(vec![Value::Int(1)])),
        Value::Array(Some(vec![Value::Int(1), Value::Int(0)])),
        Value::Array(Some(vec![Value::Int(2)])),
        Value::Mapping(vec![]),
        Value::Mapping(vec![(Value::Int(1), Value::Int(1))]),
        Value::Mapping(vec![(Value::Int(1), Value::Int(2))]),
        Value::Mapping(vec![(Value::Int(2), Value::Int(0))]),
        Value::Null,
    ]
}

#[test]
fn constructors_and_default() {
    assert_eq!(Value::str("hi"), Value::String(Some("hi".to_string())));
    assert_eq!(Value::default(), Value::Null);
}

#[test]
fn accessors_by_value() {
    assert_eq!(Value::Int(3).to_int(), Some(3));
    assert_eq!(Value::Bool(true).to_int(), None);
    assert_eq!(Value::Bool(true).to_bool(), Some(true));
    assert_eq!(Value::Int(1).to_bool(), None);
    assert_eq!(Value::str("x").to_str(), Some("x".to_string()));
    assert_eq!(Value::String(None).to_str(), None);
    assert_eq!(Value::Null.to_str(), None);
    assert_eq!(Value::Array(Some(vec![Value::Null])).to_arr(), Some(vec![Value::Null]));
    assert_eq!(Value::Array(None).to_arr(), None);
    assert_eq!(Value::Int(1).to_arr(), None);
    let pairs = vec![(Value::Int(1), Value::Null)];
    assert_eq!(Value::Mapping(pairs.clone()).to_map(), Some(pairs));
    assert_eq!(Value::Null.to_map(), None);
}

#[test]
fn accessors_by_reference() {
    assert_eq!(Value::Int(3).get_int(), Some(3));
    assert_eq!(Value::Null.get_int(), None);
    assert_eq!(Value::Bool(false).get_bool(), Some(false));
    assert_eq!(Value::Null.get_bool(), None);
    assert_eq!(Value::str("x").get_str(), Some(&"x".to_string()));
    assert_eq!(Value::String(None).get_str(), None);
    assert_eq!(Value::Int(1).get_str(), None);
    assert_eq!(Value::Array(Some(vec![])).get_arr(), Some(&vec![]));
    assert_eq!(Value::Array(None).get_arr(), None);
    assert_eq!(Value::Mapping(vec![]).get_map(), Some(&vec![]));
    assert_eq!(Value::Int(1).get_map(), None);
}

#[test]
fn copies_are_equal() {
    for value in samples() {
        assert_eq!(value.clone(), value);
        assert_eq!(value.duplicate(), value);
    }
}

#[test]
fn order_is_by_variant_and_then_by_contents() {
    let samples = samples();
    for (i, a) in samples.iter().enumerate() {
        for (j, b) in samples.iter().enumerate() {
            let expected = if i < j {
                Order::Less
            } else if i == j {
                Order::Equal
            } else {
                Order::Greater
            };
            assert_eq!(a.compare(b), expected, "{:?} against {:?}", a, b);
        }
    }
}

#[test]
fn order_agrees_with_the_derived_one() {
    let samples = samples();
    for a in &samples {
        for b in &samples {
            assert_eq!(a.compare(b) == Order::Less, a < b);
            assert_eq!(a.compare(b) == Order::Equal, a == b);
            assert_eq!(a.compare(b) == Order::Greater, a > b);
        }
    }
}

#[test]
fn order_is_total() {
    let samples = samples();
    for a in &samples {
        assert_eq!(a.compare(a), Order::Equal);
        for b in &samples {
            let forth = a.compare(b);
            let back = b.compare(a);
            assert_eq!(forth == Order::Less, back == Order::Greater);
            assert_eq!(forth == Order::Equal, back == Order::Equal);
            for c in &samples {
                if forth == Order::Less && b.compare(c) == Order::Less {
                    assert_eq!(a.compare(c), Order::Less);
                }
            }
        }
    }
}

#[test]
fn variant_ranks() {
    assert_eq!(Value::Int(0).variant_rank(), 0);
    assert_eq!(Value::Bool(true).variant_rank(), 1);
    assert_eq!(Value::String(None).variant_rank(), 2);
    assert_eq!(Value::Array(None).variant_rank(), 3);
    assert_eq!(Value::Mapping(vec![]).variant_rank(), 4);
    assert_eq!(Value::Null.variant_rank(), 5);
}

#[test]
fn bytes_and_integers_compare() {
    assert_eq!(compare_bytes(b"", b""), Order::Equal);
    assert_eq!(compare_bytes(b"", b"a"), Order::Less);
    assert_eq!(compare_bytes(b"ab", b"a"), Order::Greater);
    assert_eq!(compare_bytes(b"ab", b"b"), Order::Less);
    assert_eq!(compare_bytes(b"\xff", b"a"), Order::Greater);
    assert_eq!(compare_ints(-1, 1), Order::Less);
    assert_eq!(compare_ints(1, 1), Order::Equal);
    assert_eq!(compare_ints(i64::MAX, i64::MIN), Order::Greater);
}

#[test]
fn pairs_are_put_in_key_order() {
    let mut pairs: Vec<(Value, Value)> = Vec::new();
    put_pair(&mut pairs, Value::Int(2), Value::str("two"));
    put_pair(&mut pairs, Value::Int(1), Value::str("one"));
    put_pair(&mut pairs, Value::Int(3), Value::str("three"));
    put_pair(&mut pairs, Value::Int(2), Value::str("zwei"));
    assert_eq!(
        pairs,
        vec![
            (Value::Int(1), Value::str("one")),
            (Value::Int(2), Value::str("zwei")),
            (Value::Int(3), Value::str("three")),
        ]
    );
    assert_eq!(find_slot(&pairs, &Value::Int(0)), (0, false));
    assert_eq!(find_slot(&pairs, &Value::Int(1)), (0, true));
    assert_eq!(find_slot(&pairs, &Value::Int(3)), (2, true));
    assert_eq!(find_slot(&pairs, &Value::Bool(false)), (3, false));
    assert_eq!(get_pair(&pairs, &Value::Int(2)), Some(&Value::str("zwei")));
    assert_eq!(get_pair(&pairs, &Value::Int(4)), None);
}

#[test]
fn many_pairs_are_found_again() {
    let mut pairs: Vec<(Value, Value)> = Vec::new();
    // 37 and 101 are coprime, so this walks all of 0..101 in a scattered order
    for step in 0..101 {
        let n = (step * 37) % 101;
        put_pair(&mut pairs, Value::Int(n), Value::Int(n * n));
        assert_eq!(get_pair(&pairs, &Value::Int(n)), Some(&Value::Int(n * n)));
    }
    assert_eq!(pairs.len(), 101);
    for n in 0..101 {
        assert_eq!(pairs[n as usize], (Value::Int(n), Value::Int(n * n)));
        assert_eq!(find_slot(&pairs, &Value::Int(n)), (n as usize, true));
        assert_eq!(get_pair(&pairs, &Value::Int(n)), Some(&Value::Int(n * n)));
    }
    assert_eq!(find_slot(&pairs, &Value::Int(-1)), (0, false));
    assert_eq!(find_slot(&pairs, &Value::Int(101)), (101, false));
    assert_eq!(find_slot(&pairs, &Value::Null), (101, false));
    let empty: Vec<(Value, Value)> = Vec::new();
    assert_eq!(find_slot(&empty, &Value::Int(0)), (0, false));
}

#[test]
fn decimal_text_is_written() {
    let mut out = b"n=".to_vec();
    push_decimal(&mut out, 0);
    assert_eq!(out, b"n=0".to_vec());
    let mut out = Vec::new();
    push_decimal(&mut out, 1234567890);
    push_decimal(&mut out, u64::MAX);
    assert_eq!(out, b"123456789018446744073709551615".to_vec());
    let mut out = Vec::new();
    push_signed_decimal(&mut out, -45);
    push_signed_decimal(&mut out, i64::MIN);
    push_signed_decimal(&mut out, 10);
    assert_eq!(out, b"-45-922337203685477580810".to_vec());
}

#[test]
fn decimal_text_is_read() {
    assert_eq!(parse_i64(b"123"), Some(123));
    assert_eq!(parse_i64(b"-123"), Some(-123));
    assert_eq!(parse_i64(b"0042"), Some(42));
    assert_eq!(parse_i64(b"-0"), Some(0));
    assert_eq!(parse_i64(b"9223372036854775807"), Some(i64::MAX));
    assert_eq!(parse_i64(b"-9223372036854775808"), Some(i64::MIN));
    assert_eq!(parse_i64(b"00000000000000000000000000000000000001"), Some(1));
    assert_eq!(parse_i64(b"9223372036854775808"), None);
    assert_eq!(parse_i64(b"-9223372036854775809"), None);
    assert_eq!(parse_i64(b"99999999999999999999999999"), None);
    assert_eq!(parse_i64(b""), None);
    assert_eq!(parse_i64(b"-"), None);
    assert_eq!(parse_i64(b"+1"), None);
    assert_eq!(parse_i64(b"1 "), None);
    assert_eq!(parse_i64(b"12abc"), None);
    assert_eq!(parse_i64(b"--1"), None);
}

#[test]
fn decimal_text_with_a_plus_sign() {
    assert_eq!(parse_signed(b"+5"), Some(5));
    assert_eq!(parse_signed(b"5"), Some(5));
    assert_eq!(parse_signed(b"-5"), Some(-5));
    assert_eq!(parse_signed(b"+"), None);
    assert_eq!(parse_signed(b"+-5"), None);
    assert_eq!(parse_signed(b"++5"), None);
    assert_eq!(parse_signed(b""), None);
}

#[test]
fn decimal_shape() {
    assert!(is_decimal(b"0"));
    assert!(is_decimal(b"-10"));
    assert!(!is_decimal(b""));
    assert!(!is_decimal(b"-"));
    assert!(!is_decimal(b"1-"));
    assert!(!is_decimal(b"1.0"));
}

#[test]
fn case_is_ignored_for_ascii_letters_only() {
    assert!(CaseInsensitive("px") == "PX");
    assert!(CaseInsensitive("Px") == "pX");
    assert!(CaseInsensitive("") == "");
    assert!(!(CaseInsensitive("px") == "p"));
    assert!(!(CaseInsensitive("px") == "py"));
    assert!(CaseInsensitive("PING").matches("ping"));
    assert!(!CaseInsensitive("\u{c9}").matches("\u{e9}"));
    assert!(!CaseInsensitive("@").matches("`"));
    assert!(!CaseInsensitive("[").matches("{"));
    assert!(bytes_eq_ignore_case(b"AZaz", b"azAZ"));
    assert_eq!(lower_byte(b'A'), b'a');
    assert_eq!(lower_byte(b'Z'), b'z');
    assert_eq!(lower_byte(b'a'), b'a');
    assert_eq!(lower_byte(b'@'), b'@');
    assert_eq!(lower_byte(b'['), b'[');
}
