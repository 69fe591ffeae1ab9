use acorntorrent::bencode::{encode_value, parse_value_at};
use acorntorrent::value::Value;

fn parse_all(bytes: &[u8]) -> Option<(Value, usize)> {
    parse_value_at(bytes, 0)
}

#[test]
fn parse_integer() {
    let (v, end) = parse_all(b"i42e").unwrap();
    assert!(matches!(v, Value::Integer(42)));
    assert_eq!(end, 4);
}

#[test]
fn parse_negative_integer() {
    let (v, _) = parse_all(b"i-7e").unwrap();
    assert!(matches!(v, Value::Integer(-7)));
}

#[test]
fn reject_minus_zero_and_leading_zeros() {
    assert!(parse_all(b"i-0e").is_none());
    assert!(parse_all(b"i03e").is_none());
    assert!(parse_all(b"i-07e").is_none());
    assert!(parse_all(b"ie").is_none());
    assert!(parse_all(b"i-e").is_none());
}

#[test]
fn integer_limits() {
    let (v, _) = parse_all(b"i9223372036854775807e").unwrap();
    assert!(matches!(v, Value::Integer(i64::MAX)));
    let (v, _) = parse_all(b"i-9223372036854775808e").unwrap();
    assert!(matches!(v, Value::Integer(i64::MIN)));
    assert!(parse_all(b"i9223372036854775808e").is_none());
    assert!(parse_all(b"i-9223372036854775809e").is_none());
}

#[test]
fn parse_byte_string() {
    let (v, end) = parse_all(b"4:spam").unwrap();
    match v {
        Value::Bytes(b) => assert_eq!(b, b"spam".to_vec()),
        _ => panic!("expected a byte string"),
    }
    assert_eq!(end, 6);
    let (v, _) = parse_all(b"0:").unwrap();
    match v {
        Value::Bytes(b) => assert_eq!(b, Vec::<u8>::new()),
        _ => panic!("expected a byte string"),
    }
}

#[test]
fn reject_bad_byte_strings() {
    assert!(parse_all(b"4:spa").is_none()); // too short
    assert!(parse_all(b"04:spam").is_none()); // leading zero in length
    assert!(parse_all(b"4spam").is_none()); // missing colon
}

#[test]
fn parse_list() {
    let (v, end) = parse_all(b"l4:spami3ee").unwrap();
    match v {
        Value::List(items) => {
            assert_eq!(items.len(), 2);
            assert!(matches!(items[1], Value::Integer(3)));
        },
        _ => panic!("expected a list"),
    }
    assert_eq!(end, 11);
}

#[test]
fn parse_dictionary() {
    let (v, _) = parse_all(b"d3:cow3:moo4:spami7ee").unwrap();
    match v {
        Value::Dictionary(entries) => {
            assert_eq!(entries.len(), 2);
            assert_eq!(entries[0].0, b"cow".to_vec());
            assert!(matches!(entries[1].1, Value::Integer(7)));
        },
        _ => panic!("expected a dictionary"),
    }
}

#[test]
fn reject_unterminated() {
    assert!(parse_all(b"l4:spam").is_none());
    assert!(parse_all(b"d3:cow3:moo").is_none());
    assert!(parse_all(b"").is_none());
    assert!(parse_all(b"x").is_none());
}

#[test]
fn encode_values() {
    assert_eq!(encode_value(&Value::Integer(42)), b"i42e".to_vec());
    assert_eq!(encode_value(&Value::Integer(-42)), b"i-42e".to_vec());
    assert_eq!(encode_value(&Value::Integer(0)), b"i0e".to_vec());
    assert_eq!(
        encode_value(&Value::Integer(i64::MIN)),
        b"i-9223372036854775808e".to_vec()
    );
    assert_eq!(encode_value(&Value::Bytes(b"spam".to_vec())), b"4:spam".to_vec());
    let list = Value::List(vec![Value::Bytes(b"a".to_vec()), Value::Integer(1)]);
    assert_eq!(encode_value(&list), b"l1:ai1ee".to_vec());
    let dict = Value::Dictionary(vec![
        (b"cow".to_vec(), Value::Bytes(b"moo".to_vec())),
        (b"spam".to_vec(), Value::Integer(7)),
    ]);
    assert_eq!(encode_value(&dict), b"d3:cow3:moo4:spami7ee".to_vec());
}

#[test]
fn encode_parse_round_trip() {
    let dict = Value::Dictionary(vec![
        (b"k".to_vec(), Value::List(vec![Value::Integer(-1), Value::Bytes(vec![0xff, 0x00])])),
    ]);
    let encoded = encode_value(&dict);
    let (v, end) = parse_all(&encoded).unwrap();
    assert_eq!(end, encoded.len());
    assert_eq!(encode_value(&v), encoded);
}
