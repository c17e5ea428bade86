use mindustry_parser::{
    buf_pop, parse_bool, parse_unsigned, push_be, read_binary, read_bool, read_float32, read_key,
    read_string, read_u32, read_u64, read_value, write_string_to_buffer, write_value, ByteCursor,
    DecodeError, ParseError, SettingsEntry, Value,
};

#[test]
fn buf_pop_advances_offset() {
    let mut c = ByteCursor::new(vec![7, 9]);
    assert_eq!(buf_pop(&mut c), Ok(7));
    assert_eq!(c.current_offset(), 1);
    assert_eq!(buf_pop(&mut c), Ok(9));
    assert_eq!(c.current_offset(), 2);
    assert!(c.is_exhausted());
}

#[test]
fn buf_pop_on_empty_fails() {
    let mut c = ByteCursor::new(vec![]);
    assert_eq!(buf_pop(&mut c), Err(DecodeError::UnexpectedEndOfInput));
    assert_eq!(c.current_offset(), 0);
}

#[test]
fn pop_be_reads_big_endian() {
    let mut c = ByteCursor::new(vec![0x12, 0x34, 0x56, 0x78, 0xff]);
    assert_eq!(c.pop_be(4), Ok(0x1234_5678));
    assert_eq!(c.current_offset(), 4);
    assert_eq!(c.pop_be(2), Err(DecodeError::UnexpectedEndOfInput));
    assert_eq!(c.current_offset(), 4);
}

#[test]
fn pop_n_takes_bytes() {
    let mut c = ByteCursor::new(vec![1, 2, 3]);
    assert_eq!(c.pop_n(2), Ok(vec![1, 2]));
    assert_eq!(c.pop_n(2), Err(DecodeError::UnexpectedEndOfInput));
    assert_eq!(c.pop_n(1), Ok(vec![3]));
}

#[test]
fn read_key_decodes_utf8() {
    let mut c = ByteCursor::new(vec![0, 3, b'a', 0xc3, 0xa9, 0x42]);
    assert_eq!(read_key(&mut c), Ok("a\u{e9}".to_string()));
    assert_eq!(c.current_offset(), 5);
}

#[test]
fn read_key_rejects_bad_utf8() {
    let mut c = ByteCursor::new(vec![0, 2, 0xc3, 0x28]);
    assert_eq!(read_key(&mut c), Err(DecodeError::InvalidUtf8));
}

#[test]
fn read_key_truncated() {
    let mut c = ByteCursor::new(vec![0, 5, b'a', b'b']);
    assert_eq!(read_key(&mut c), Err(DecodeError::UnexpectedEndOfInput));
    let mut c = ByteCursor::new(vec![0]);
    assert_eq!(read_key(&mut c), Err(DecodeError::UnexpectedEndOfInput));
}

#[test]
fn read_bool_values() {
    let mut c = ByteCursor::new(vec![9, 1, 0, 2]);
    assert_eq!(buf_pop(&mut c), Ok(9));
    assert_eq!(
        read_bool(&mut c),
        Ok(SettingsEntry { value: Value::Boolean(true), address: 1 })
    );
    assert_eq!(
        read_bool(&mut c),
        Ok(SettingsEntry { value: Value::Boolean(false), address: 2 })
    );
    assert_eq!(read_bool(&mut c), Err(DecodeError::MalformedBoolean));
    assert_eq!(read_bool(&mut c), Err(DecodeError::UnexpectedEndOfInput));
}

#[test]
fn read_numbers() {
    let mut c = ByteCursor::new(vec![
        0, 0, 1, 0, // u32 256
        0, 0, 0, 1, 0, 0, 0, 2, // u64
        0x3f, 0x80, 0, 0, // f32 1.0
    ]);
    assert_eq!(
        read_u32(&mut c),
        Ok(SettingsEntry { value: Value::UnsignedInt32(256), address: 0 })
    );
    assert_eq!(
        read_u64(&mut c),
        Ok(SettingsEntry { value: Value::UnsignedInt64(0x1_0000_0002), address: 4 })
    );
    let f = read_float32(&mut c).unwrap();
    assert_eq!(f.address, 12);
    match f.value {
        Value::Float32(bits) => assert_eq!(f32::from_bits(bits), 1.0f32),
        other => panic!("unexpected {:?}", other),
    }
    assert_eq!(read_u32(&mut c), Err(DecodeError::UnexpectedEndOfInput));
}

#[test]
fn read_string_and_binary_addresses() {
    let mut c = ByteCursor::new(vec![0, 2, b'h', b'i', 0, 0, 0, 3, 1, 2, 3]);
    assert_eq!(
        read_string(&mut c),
        Ok(SettingsEntry { value: Value::Text("hi".to_string()), address: 2 })
    );
    assert_eq!(
        read_binary(&mut c),
        Ok(SettingsEntry { value: Value::Bytes(vec![1, 2, 3]), address: 8 })
    );
}

#[test]
fn read_binary_truncated() {
    let mut c = ByteCursor::new(vec![0, 0, 0, 4, 1, 2]);
    assert_eq!(read_binary(&mut c), Err(DecodeError::UnexpectedEndOfInput));
}

#[test]
fn read_value_unknown_tag() {
    let mut c = ByteCursor::new(vec![0, 0, 0, 0]);
    assert_eq!(read_value(&mut c, 9), Err(DecodeError::UnknownTypeTag(9)));
    assert_eq!(read_value(&mut c, 6), Err(DecodeError::UnknownTypeTag(6)));
}

#[test]
fn push_be_writes_big_endian() {
    let mut out = vec![0xaa];
    push_be(&mut out, 0x0102_0304, 4);
    assert_eq!(out, vec![0xaa, 1, 2, 3, 4]);
    let mut out = Vec::new();
    push_be(&mut out, 42, 2);
    assert_eq!(out, vec![0, 42]);
}

#[test]
fn write_string_prefixes_byte_length() {
    let mut out = Vec::new();
    write_string_to_buffer("a\u{e9}".to_string(), &mut out);
    assert_eq!(out, vec![0, 3, b'a', 0xc3, 0xa9]);
    let mut out = Vec::new();
    write_string_to_buffer(String::new(), &mut out);
    assert_eq!(out, vec![0, 0]);
}

#[test]
fn write_value_each_tag() {
    let cases: Vec<(Value, Vec<u8>)> = vec![
        (Value::Boolean(true), vec![0, 1]),
        (Value::Boolean(false), vec![0, 0]),
        (Value::UnsignedInt32(42), vec![1, 0, 0, 0, 42]),
        (Value::UnsignedInt64(1), vec![2, 0, 0, 0, 0, 0, 0, 0, 1]),
        (Value::Float32(1.5f32.to_bits()), vec![3, 0x3f, 0xc0, 0, 0]),
        (Value::Text("ok".to_string()), vec![4, 0, 2, b'o', b'k']),
        (Value::Bytes(vec![9, 8]), vec![5, 0, 0, 0, 2, 9, 8]),
    ];
    for (v, expected) in cases {
        let mut out = Vec::new();
        write_value(&v, &mut out);
        assert_eq!(out, expected);
    }
}

#[test]
fn parse_bool_false_words() {
    assert_eq!(parse_bool("OFF".to_string()), Ok(false));
    assert_eq!(parse_bool("No".to_string()), Ok(false));
    assert_eq!(parse_bool("0".to_string()), Ok(false));
    for w in ["false", "f", "nil", "no", "off", "inactive", "FALSE", "InActive"] {
        assert_eq!(parse_bool(w.to_string()), Ok(false), "{}", w);
    }
}

#[test]
fn parse_bool_true_words() {
    assert_eq!(parse_bool("ON".to_string()), Ok(true));
    assert_eq!(parse_bool("Yes".to_string()), Ok(true));
    assert_eq!(parse_bool("1".to_string()), Ok(true));
    for w in ["true", "t", "yes", "on", "active", "TRUE", "Active"] {
        assert_eq!(parse_bool(w.to_string()), Ok(true), "{}", w);
    }
}

#[test]
fn parse_bool_rejects_other_words() {
    for w in ["maybe", "", "2", "yes ", "o", "nope", "\u{e9}"] {
        assert_eq!(
            parse_bool(w.to_string()),
            Err(ParseError::InvalidBooleanLiteral),
            "{}",
            w
        );
    }
}

#[test]
fn parse_unsigned_cases() {
    assert_eq!(parse_unsigned(b"42", u32::MAX as u64), Some(42));
    assert_eq!(parse_unsigned(b"+7", u32::MAX as u64), Some(7));
    assert_eq!(parse_unsigned(b"007", u32::MAX as u64), Some(7));
    assert_eq!(parse_unsigned(b"4294967295", u32::MAX as u64), Some(4294967295));
    assert_eq!(parse_unsigned(b"4294967296", u32::MAX as u64), None);
    assert_eq!(parse_unsigned(b"18446744073709551615", u64::MAX), Some(u64::MAX));
    assert_eq!(parse_unsigned(b"18446744073709551616", u64::MAX), None);
    assert_eq!(parse_unsigned(b"99999999999999999999x", u64::MAX), None);
    for bad in [&b""[..], b"+", b"-1", b"1a", b" 1", b"++1"] {
        assert_eq!(parse_unsigned(bad, u64::MAX), None);
    }
}

#[test]
fn parse_unsigned_agrees_with_std() {
    for s in ["0", "+0", "12345", "4294967295", "4294967296", "-0", "", "+", "9x"] {
        assert_eq!(parse_unsigned(s.as_bytes(), u32::MAX as u64), s.parse::<u32>().ok().map(|v| v as u64), "{}", s);
    }
}
