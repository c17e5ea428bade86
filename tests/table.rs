use mindustry_parser::{decode_file, DecodeError, ParseError, SettingsEntry, Value};

fn key(out: &mut Vec<u8>, k: &str) {
    out.extend_from_slice(&(k.len() as u16).to_be_bytes());
    out.extend_from_slice(k.as_bytes());
}

fn file(count: u32, body: &[u8]) -> Vec<u8> {
    let mut out = count.to_be_bytes().to_vec();
    out.extend_from_slice(body);
    out
}

fn sample_body() -> Vec<u8> {
    let mut b = Vec::new();
    key(&mut b, "flag");
    b.extend_from_slice(&[0, 1]);
    key(&mut b, "count");
    b.extend_from_slice(&[1, 0, 0, 0, 5]);
    key(&mut b, "big");
    b.extend_from_slice(&[2, 0, 0, 0, 0, 0, 0, 1, 0]);
    key(&mut b, "ratio");
    b.push(3);
    b.extend_from_slice(&0.5f32.to_bits().to_be_bytes());
    key(&mut b, "name");
    b.extend_from_slice(&[4, 0, 3, b'b', b'o', b'b']);
    key(&mut b, "blob");
    b.extend_from_slice(&[5, 0, 0, 0, 2, 0xde, 0xad]);
    b
}

#[test]
fn round_trip_single_entry() {
    let mut body = Vec::new();
    key(&mut body, "k");
    body.extend_from_slice(&[4, 0, 2, b'h', b'i']);
    let data = file(1, &body);
    let t = decode_file(data.clone()).unwrap();
    assert_eq!(t.encode_table(), data);
}

#[test]
fn round_trip_every_type() {
    let data = file(6, &sample_body());
    let t = decode_file(data.clone()).unwrap();
    assert_eq!(t.len(), 6);
    assert_eq!(t.encode_table(), data);
}

#[test]
fn round_trip_empty_file() {
    let data = file(0, &[]);
    let t = decode_file(data.clone()).unwrap();
    assert_eq!(t.len(), 0);
    assert_eq!(t.encode_table(), data);
}

#[test]
fn addresses_point_at_payloads() {
    let mut b = Vec::new();
    key(&mut b, "ab"); // bytes 4..8, tag at 8
    b.extend_from_slice(&[0, 1]); // payload at 9
    key(&mut b, "t"); // bytes 10..13, tag at 13
    b.extend_from_slice(&[4, 0, 1, b'x']); // length 14..16, payload at 16
    key(&mut b, "bin"); // bytes 17..22, tag at 22
    b.extend_from_slice(&[5, 0, 0, 0, 1, 7]); // length 23..27, payload at 27
    let t = decode_file(file(3, &b)).unwrap();
    assert_eq!(t.lookup("ab").unwrap().address, 9);
    assert_eq!(t.lookup("t").unwrap().address, 16);
    assert_eq!(t.lookup("bin").unwrap().address, 27);
}

#[test]
fn decode_reports_each_value() {
    let t = decode_file(file(6, &sample_body())).unwrap();
    assert_eq!(t.lookup("flag").unwrap().value, Value::Boolean(true));
    assert_eq!(t.lookup("count").unwrap().value, Value::UnsignedInt32(5));
    assert_eq!(t.lookup("big").unwrap().value, Value::UnsignedInt64(256));
    assert_eq!(t.lookup("ratio").unwrap().value, Value::Float32(0.5f32.to_bits()));
    assert_eq!(t.lookup("name").unwrap().value, Value::Text("bob".to_string()));
    assert_eq!(t.lookup("blob").unwrap().value, Value::Bytes(vec![0xde, 0xad]));
    let keys: Vec<&str> = t.entries().iter().map(|(k, _)| k.as_str()).collect();
    assert_eq!(keys, vec!["flag", "count", "big", "ratio", "name", "blob"]);
}

#[test]
fn duplicate_key_last_wins() {
    let mut b = Vec::new();
    key(&mut b, "a");
    b.extend_from_slice(&[1, 0, 0, 0, 1]);
    key(&mut b, "b");
    b.extend_from_slice(&[0, 0]);
    key(&mut b, "a");
    b.extend_from_slice(&[1, 0, 0, 0, 2]);
    let t = decode_file(file(3, &b)).unwrap();
    assert_eq!(t.len(), 2);
    assert_eq!(
        t.lookup("a"),
        Some(&SettingsEntry { value: Value::UnsignedInt32(2), address: 21 })
    );
    assert_eq!(t.entries()[0].0, "a");
}

#[test]
fn unknown_tag_rejected() {
    let mut b = Vec::new();
    key(&mut b, "x");
    b.extend_from_slice(&[9, 0, 0, 0, 0]);
    key(&mut b, "y");
    b.extend_from_slice(&[0, 1]);
    assert_eq!(decode_file(file(2, &b)).err(), Some(DecodeError::UnknownTypeTag(9)));
}

#[test]
fn unknown_tag_after_good_entry() {
    let mut b = Vec::new();
    key(&mut b, "y");
    b.extend_from_slice(&[0, 1]);
    key(&mut b, "x");
    b.push(9);
    assert_eq!(decode_file(file(2, &b)).err(), Some(DecodeError::UnknownTypeTag(9)));
}

#[test]
fn decode_errors() {
    assert_eq!(decode_file(vec![0, 0, 1]).err(), Some(DecodeError::UnexpectedEndOfInput));
    assert_eq!(decode_file(file(1, &[])).err(), Some(DecodeError::UnexpectedEndOfInput));
    let mut b = Vec::new();
    key(&mut b, "k");
    b.extend_from_slice(&[0, 2]);
    assert_eq!(decode_file(file(1, &b)).err(), Some(DecodeError::MalformedBoolean));
    let mut b = Vec::new();
    key(&mut b, "k");
    b.extend_from_slice(&[4, 0, 1, 0xff]);
    assert_eq!(decode_file(file(1, &b)).err(), Some(DecodeError::InvalidUtf8));
    let b = vec![0, 1, 0xff, 0, 0];
    assert_eq!(decode_file(file(1, &b)).err(), Some(DecodeError::InvalidUtf8));
    let mut b = Vec::new();
    key(&mut b, "k");
    assert_eq!(decode_file(file(1, &b)).err(), Some(DecodeError::UnexpectedEndOfInput));
}

#[test]
fn trailing_bytes_are_ignored() {
    let mut b = Vec::new();
    key(&mut b, "k");
    b.extend_from_slice(&[0, 1, 0xff, 0xff]);
    let t = decode_file(file(1, &b)).unwrap();
    assert_eq!(t.len(), 1);
}

#[test]
fn update_u32_then_encode() {
    let mut b = Vec::new();
    key(&mut b, "n");
    b.extend_from_slice(&[1, 0, 0, 0, 5]);
    let mut t = decode_file(file(1, &b)).unwrap();
    assert_eq!(t.update("n", "42", None), Ok(()));
    assert_eq!(t.lookup("n").unwrap().value, Value::UnsignedInt32(42));
    assert_eq!(t.encode_table(), vec![0, 0, 0, 1, 0, 1, b'n', 1, 0, 0, 0, 42]);
}

#[test]
fn update_each_type() {
    let mut t = decode_file(file(6, &sample_body())).unwrap();
    assert_eq!(t.update("flag", "Off", None), Ok(()));
    assert_eq!(t.lookup("flag").unwrap().value, Value::Boolean(false));
    assert_eq!(t.update("big", "+18446744073709551615", None), Ok(()));
    assert_eq!(t.lookup("big").unwrap().value, Value::UnsignedInt64(u64::MAX));
    assert_eq!(t.update("ratio", "2.25", Some(2.25f32.to_bits())), Ok(()));
    assert_eq!(t.lookup("ratio").unwrap().value, Value::Float32(2.25f32.to_bits()));
    assert_eq!(t.update("name", "alice", None), Ok(()));
    assert_eq!(t.lookup("name").unwrap().value, Value::Text("alice".to_string()));
    let addr = t.lookup("name").unwrap().address;
    let out = t.encode_table();
    let again = decode_file(out).unwrap();
    assert_eq!(again.lookup("name").unwrap().value, Value::Text("alice".to_string()));
    assert_eq!(again.lookup("name").unwrap().address, addr);
    assert_eq!(again.lookup("flag").unwrap().value, Value::Boolean(false));
}

#[test]
fn update_rejects_bad_literals() {
    let mut t = decode_file(file(6, &sample_body())).unwrap();
    assert_eq!(t.update("flag", "maybe", None), Err(ParseError::InvalidBooleanLiteral));
    assert_eq!(t.update("count", "4294967296", None), Err(ParseError::InvalidNumericLiteral));
    assert_eq!(t.update("count", "-1", None), Err(ParseError::InvalidNumericLiteral));
    assert_eq!(t.update("big", "x", None), Err(ParseError::InvalidNumericLiteral));
    assert_eq!(t.update("ratio", "abc", None), Err(ParseError::InvalidNumericLiteral));
    assert_eq!(t.encode_table(), file(6, &sample_body()));
}

#[test]
fn update_bytes_unsupported() {
    let data = file(6, &sample_body());
    let mut t = decode_file(data.clone()).unwrap();
    assert_eq!(t.update("blob", "00", None), Err(ParseError::UnsupportedOperation));
    assert_eq!(t.update("blob", "", None), Err(ParseError::UnsupportedOperation));
    assert_eq!(t.lookup("blob").unwrap().value, Value::Bytes(vec![0xde, 0xad]));
    assert_eq!(t.encode_table(), data);
}

#[test]
fn missing_key_not_found() {
    let data = file(6, &sample_body());
    let mut t = decode_file(data.clone()).unwrap();
    assert_eq!(t.update("nope", "1", None), Err(ParseError::KeyNotFound));
    assert_eq!(t.read("nope").err(), Some(ParseError::KeyNotFound));
    assert!(t.lookup("nope").is_none());
    assert_eq!(t.read("count").unwrap().value, Value::UnsignedInt32(5));
    assert_eq!(t.encode_table(), data);
}
