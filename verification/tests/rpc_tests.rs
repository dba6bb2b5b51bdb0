use aether_vm::rpc::{bytes_to_hex, hex_to_bytes, hex_to_bytes_checked, AetherPack};
use aether_vm::value::Value;

const HEADER: [u8; 5] = [0xAE, 0x50, 0x41, 0x43, 0x01];

fn with_header(body: &[u8]) -> Vec<u8> {
    let mut v = HEADER.to_vec();
    v.extend_from_slice(body);
    v
}

fn sample() -> Value {
    Value::MapEntries(vec![
        ("name".to_string(), Value::String("aether ⚡".to_string())),
        (
            "items".to_string(),
            Value::Array(vec![Value::Int(1), Value::Int(-7), Value::Bool(true), Value::Nil]),
        ),
        ("pair".to_string(), Value::Tuple(vec![Value::Float(2.5f64.to_bits()), Value::Int(i64::MAX)])),
        ("tags".to_string(), Value::SetItems(vec![Value::String("x".to_string())])),
    ])
}

#[test]
fn pack_writes_header_and_tags() {
    assert_eq!(AetherPack::pack(&Value::Nil), with_header(&[0x00]));
    assert_eq!(AetherPack::pack(&Value::Bool(false)), with_header(&[0x01]));
    assert_eq!(AetherPack::pack(&Value::Int(1)), with_header(&[0x03, 1, 0, 0, 0, 0, 0, 0, 0]));
    assert_eq!(AetherPack::pack(&Value::Int(-2)), with_header(&[0x04, 2, 0, 0, 0, 0, 0, 0, 0]));
    assert_eq!(
        AetherPack::pack(&Value::String("hi".to_string())),
        with_header(&[0x06, 2, 0, 0, 0, b'h', b'i'])
    );
    assert_eq!(
        AetherPack::pack(&Value::Array(vec![Value::Bool(true)])),
        with_header(&[0x08, 1, 0, 0, 0, 0x02])
    );
}

#[test]
fn pack_then_unpack_gives_the_value_back() {
    let v = sample();
    let bytes = AetherPack::pack(&v);
    let back = AetherPack::unpack(&bytes).ok().unwrap();
    assert!(back.equals(&v));
}

#[test]
fn most_negative_integer_round_trips() {
    let v = Value::Int(i64::MIN);
    let bytes = AetherPack::pack(&v);
    assert_eq!(bytes, with_header(&[0x04, 0, 0, 0, 0, 0, 0, 0, 0x80]));
    assert!(AetherPack::unpack(&bytes).ok().unwrap().equals(&v));
}

#[test]
fn unpack_errors() {
    assert_eq!(AetherPack::unpack(&[0xAE, 0x50]).err(), Some("AetherPack payload too small (< 5 bytes)".to_string()));
    assert_eq!(AetherPack::unpack(&[0, 0, 0, 0, 1, 0]).err(), Some("Invalid AetherPack magic header".to_string()));
    assert_eq!(
        AetherPack::unpack(&[0xAE, 0x50, 0x41, 0x43, 0x02, 0]).err(),
        Some("Unsupported AetherPack version: 0x02".to_string())
    );
    assert_eq!(
        AetherPack::unpack(&with_header(&[0x0C])).err(),
        Some("Unknown AetherPack tag: 0x0C at offset 5".to_string())
    );
    assert_eq!(
        AetherPack::unpack(&with_header(&[])).err(),
        Some("Unexpected EOF while unpacking AetherPack value".to_string())
    );
    assert_eq!(
        AetherPack::unpack(&with_header(&[0x03, 1, 2])).err(),
        Some("Unexpected EOF reading INT_POS".to_string())
    );
    assert_eq!(
        AetherPack::unpack(&with_header(&[0x06, 5, 0, 0, 0, b'a'])).err(),
        Some("Unexpected EOF reading STRING payload".to_string())
    );
    assert_eq!(
        AetherPack::unpack(&with_header(&[0x0A, 1, 0])).err(),
        Some("Unexpected EOF reading TUPLE count".to_string())
    );
    assert_eq!(
        AetherPack::unpack(&with_header(&[0x09, 1, 0, 0, 0, 3, 0])).err(),
        Some("Unexpected EOF reading MAP key length".to_string())
    );
}

#[test]
fn unpack_bytes_and_duplicate_keys() {
    match AetherPack::unpack(&with_header(&[0x07, 2, 0, 0, 0, 5, 250])).ok().unwrap() {
        Value::Array(items) => {
            assert_eq!(items.len(), 2);
            assert!(matches!(items[0], Value::Int(5)));
            assert!(matches!(items[1], Value::Int(250)));
        },
        _ => panic!("bytes become an array"),
    }
    let dup = with_header(&[0x09, 2, 0, 0, 0, 1, 0, 0, 0, b'a', 0x00, 1, 0, 0, 0, b'a', 0x02]);
    match AetherPack::unpack(&dup).ok().unwrap() {
        Value::MapEntries(es) => {
            assert_eq!(es.len(), 1);
            assert_eq!(es[0].0, "a");
            assert!(matches!(es[0].1, Value::Bool(true)));
        },
        _ => panic!("a map"),
    }
}

#[test]
fn invalid_utf8_is_replaced() {
    match AetherPack::unpack(&with_header(&[0x06, 2, 0, 0, 0, 0xFF, b'a'])).ok().unwrap() {
        Value::String(s) => assert_eq!(s, "\u{FFFD}a"),
        _ => panic!("a string"),
    }
}

#[test]
fn hex_helpers() {
    assert_eq!(bytes_to_hex(&[0, 255, 16]), "00ff10");
    assert_eq!(bytes_to_hex(&[]), "");
    assert_eq!(hex_to_bytes(" 0aFf \n"), Ok(vec![10, 255]));
    assert_eq!(hex_to_bytes("+f"), Ok(vec![15]));
    assert_eq!(hex_to_bytes("abc"), Err("Hex string length must be even".to_string()));
    assert_eq!(hex_to_bytes("zz"), Err("Invalid hex at index 0: invalid digit found in string".to_string()));
    assert_eq!(hex_to_bytes("00zz"), Err("Invalid hex at index 2: invalid digit found in string".to_string()));
    assert_eq!(hex_to_bytes(&bytes_to_hex(&[1, 2, 254])), Ok(vec![1, 2, 254]));
}

#[test]
fn hex_checked_catches_split_characters() {
    assert_eq!(hex_to_bytes_checked("é0"), Some(Err("Hex string length must be even".to_string())));
    assert_eq!(
        hex_to_bytes_checked("éé"),
        Some(Err("Invalid hex at index 0: invalid digit found in string".to_string()))
    );
    assert_eq!(hex_to_bytes_checked("aé0"), None);
    assert_eq!(hex_to_bytes_checked("0102"), Some(Ok(vec![1, 2])));
}

#[test]
fn hex_roundtrip_padded_and_upper_case() {
    let bytes = [0u8, 0x7f, 0xab, 0xff];
    let hex = bytes_to_hex(&bytes);
    assert_eq!(hex_to_bytes(&format!("\t  {}\r\n", hex)), Ok(bytes.to_vec()));
    assert_eq!(hex_to_bytes(&hex.to_uppercase()), Ok(bytes.to_vec()));
    assert_eq!(hex_to_bytes("   "), Ok(Vec::new()));
    assert_eq!(hex_to_bytes(" abc "), Err("Hex string length must be even".to_string()));
}
