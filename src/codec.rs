//! Decoders and encoders for the six kinds of value, on a cursor and on an
//! output buffer.
use vstd::prelude::*;
use vstd::utf8::{valid_utf8, decode_utf8, encode_utf8};
use crate::format::{
    DecodeError, ValueModel, be_bytes, pow256, parse_text, parse_value, encode_text,
    encode_value, value_fits,
};
use crate::cursor::{ByteCursor, buf_pop};

verus! {

/// A typed value of a settings entry.
#[derive(Debug, Clone, PartialEq, Eq)]
pub enum Value {
    Boolean(bool),
    UnsignedInt32(u32),
    UnsignedInt64(u64),
    /// The IEEE-754 bit pattern of a single-precision float, as stored.
    Float32(u32),
    Text(String),
    Bytes(Vec<u8>),
}

impl View for Value {
    type V = ValueModel;

    open spec fn view(&self) -> ValueModel {
        match self {
            Value::Boolean(b) => ValueModel::Boolean(*b),
            Value::UnsignedInt32(x) => ValueModel::UnsignedInt32(*x),
            Value::UnsignedInt64(x) => ValueModel::UnsignedInt64(*x),
            Value::Float32(x) => ValueModel::Float32(*x),
            Value::Text(s) => ValueModel::Text(s@),
            Value::Bytes(b) => ValueModel::Bytes(b@),
        }
    }
}

/// A value and the file offset at which its payload began when it was
/// decoded. The offset is kept for display only and is never written out.
#[derive(Debug, Clone, PartialEq, Eq)]
pub struct SettingsEntry {
    pub value: Value,
    pub address: usize,
}

/// `r` is what decoding ought to give where the format says `expected`, and
/// the cursor then stands at `end`.
pub open spec fn decoded_as(
    r: Result<SettingsEntry, DecodeError>,
    expected: Result<(ValueModel, int, int), DecodeError>,
    end: int,
) -> bool {
    match expected {
        Ok((v, a, e)) => r matches Ok(entry) && entry.value@ == v && entry.address == a && end == e,
        Err(err) => r == Err::<SettingsEntry, DecodeError>(err),
    }
}

/// Relies on `String::from_utf8`: it succeeds exactly on well-formed UTF-8,
/// and the string it returns holds the characters those bytes encode.
#[verifier::external_body]
fn string_from_utf8(bytes: Vec<u8>) -> (r: Option<String>)
    ensures
        r is Some <==> valid_utf8(bytes@),
        r matches Some(s) ==> s@ == decode_utf8(bytes@),
{
    String::from_utf8(bytes).ok()
}

/// Reads a two-byte length and that many bytes of UTF-8; also returns the
/// offset of the first of those bytes.
fn read_text(cursor: &mut ByteCursor) -> (r: Result<(String, usize), DecodeError>)
    ensures
        final(cursor).data() == old(cursor).data(),
        match parse_text(old(cursor).data(), old(cursor).pos()) {
            Ok((t, a, e)) => r matches Ok((s, addr)) && s@ == t && addr == a && final(cursor).pos()
                == e,
            Err(err) => r == Err::<(String, usize), DecodeError>(err),
        },
{
    let len = match cursor.pop_be(2) {
        Ok(n) => n,
        Err(e) => return Err(e),
    };
    proof {
        reveal_with_fuel(pow256, 3);
    }
    let start = cursor.current_offset();
    let bytes = match cursor.pop_n(len as usize) {
        Ok(b) => b,
        Err(e) => return Err(e),
    };
    match string_from_utf8(bytes) {
        Some(s) => Ok((s, start)),
        None => Err(DecodeError::InvalidUtf8),
    }
}

/// Reads a key: a two-byte length and that many bytes of UTF-8.
pub fn read_key(cursor: &mut ByteCursor) -> (r: Result<String, DecodeError>)
    ensures
        final(cursor).data() == old(cursor).data(),
        match parse_text(old(cursor).data(), old(cursor).pos()) {
            Ok((t, _a, e)) => r matches Ok(s) && s@ == t && final(cursor).pos() == e,
            Err(err) => r == Err::<String, DecodeError>(err),
        },
{
    match read_text(cursor) {
        Ok((s, _)) => Ok(s),
        Err(e) => Err(e),
    }
}

/// Reads a Boolean payload: one byte, 0 or 1.
pub fn read_bool(cursor: &mut ByteCursor) -> (r: Result<SettingsEntry, DecodeError>)
    ensures
        final(cursor).data() == old(cursor).data(),
        decoded_as(r, parse_value(old(cursor).data(), 0, old(cursor).pos()), final(cursor).pos()),
{
    let start = cursor.current_offset();
    let b = match buf_pop(cursor) {
        Ok(b) => b,
        Err(e) => return Err(e),
    };
    let v = if b == 0 {
        false
    } else if b == 1 {
        true
    } else {
        return Err(DecodeError::MalformedBoolean);
    };
    Ok(SettingsEntry { value: Value::Boolean(v), address: start })
}

/// Reads an UnsignedInt32 payload: four bytes, big-endian.
pub fn read_u32(cursor: &mut ByteCursor) -> (r: Result<SettingsEntry, DecodeError>)
    ensures
        final(cursor).data() == old(cursor).data(),
        decoded_as(r, parse_value(old(cursor).data(), 1, old(cursor).pos()), final(cursor).pos()),
{
    let start = cursor.current_offset();
    let v = match cursor.pop_be(4) {
        Ok(v) => v,
        Err(e) => return Err(e),
    };
    proof {
        reveal_with_fuel(pow256, 5);
    }
    Ok(SettingsEntry { value: Value::UnsignedInt32(v as u32), address: start })
}

/// Reads an UnsignedInt64 payload: eight bytes, big-endian.
pub fn read_u64(cursor: &mut ByteCursor) -> (r: Result<SettingsEntry, DecodeError>)
    ensures
        final(cursor).data() == old(cursor).data(),
        decoded_as(r, parse_value(old(cursor).data(), 2, old(cursor).pos()), final(cursor).pos()),
{
    let start = cursor.current_offset();
    let v = match cursor.pop_be(8) {
        Ok(v) => v,
        Err(e) => return Err(e),
    };
    Ok(SettingsEntry { value: Value::UnsignedInt64(v), address: start })
}

/// Reads a Float32 payload: four bytes, big-endian, kept as a bit pattern.
pub fn read_float32(cursor: &mut ByteCursor) -> (r: Result<SettingsEntry, DecodeError>)
    ensures
        final(cursor).data() == old(cursor).data(),
        decoded_as(r, parse_value(old(cursor).data(), 3, old(cursor).pos()), final(cursor).pos()),
{
    let start = cursor.current_offset();
    let v = match cursor.pop_be(4) {
        Ok(v) => v,
        Err(e) => return Err(e),
    };
    proof {
        reveal_with_fuel(pow256, 5);
    }
    Ok(SettingsEntry { value: Value::Float32(v as u32), address: start })
}

/// Reads a Text payload: a two-byte length, then that many bytes of UTF-8.
/// The address is that of the first byte after the length.
pub fn read_string(cursor: &mut ByteCursor) -> (r: Result<SettingsEntry, DecodeError>)
    ensures
        final(cursor).data() == old(cursor).data(),
        decoded_as(r, parse_value(old(cursor).data(), 4, old(cursor).pos()), final(cursor).pos()),
{
    match read_text(cursor) {
        Ok((s, start)) => Ok(SettingsEntry { value: Value::Text(s), address: start }),
        Err(e) => Err(e),
    }
}

/// Reads a Bytes payload: a four-byte length, then that many raw bytes.
/// The address is that of the first byte after the length.
pub fn read_binary(cursor: &mut ByteCursor) -> (r: Result<SettingsEntry, DecodeError>)
    ensures
        final(cursor).data() == old(cursor).data(),
        decoded_as(r, parse_value(old(cursor).data(), 5, old(cursor).pos()), final(cursor).pos()),
{
    let len = match cursor.pop_be(4) {
        Ok(n) => n,
        Err(e) => return Err(e),
    };
    proof {
        reveal_with_fuel(pow256, 5);
    }
    let start = cursor.current_offset();
    let bytes = match cursor.pop_n(len as usize) {
        Ok(b) => b,
        Err(e) => return Err(e),
    };
    Ok(SettingsEntry { value: Value::Bytes(bytes), address: start })
}

/// Reads the payload of a value whose type tag is `tag`.
pub fn read_value(cursor: &mut ByteCursor, tag: u8) -> (r: Result<SettingsEntry, DecodeError>)
    ensures
        final(cursor).data() == old(cursor).data(),
        decoded_as(r, parse_value(old(cursor).data(), tag, old(cursor).pos()), final(cursor).pos()),
{
    match tag {
        0 => read_bool(cursor),
        1 => read_u32(cursor),
        2 => read_u64(cursor),
        3 => read_float32(cursor),
        4 => read_string(cursor),
        5 => read_binary(cursor),
        _ => Err(DecodeError::UnknownTypeTag(tag)),
    }
}

/// Appends the `n` low-order bytes of `v`, most significant first.
pub fn push_be(out: &mut Vec<u8>, v: u64, n: usize)
    ensures
        final(out)@ == old(out)@ + be_bytes(v as nat, n as nat),
    decreases n,
{
    if n > 0 {
        push_be(out, v / 256, n - 1);
        out.push((v % 256) as u8);
        assert(final(out)@ =~= old(out)@ + be_bytes(v as nat, n as nat));
    } else {
        assert(final(out)@ =~= old(out)@ + be_bytes(v as nat, n as nat));
    }
}

/// Appends every byte of `bytes`.
fn push_all(out: &mut Vec<u8>, bytes: &[u8])
    ensures
        final(out)@ == old(out)@ + bytes@,
{
    let ghost start = out@;
    let mut i: usize = 0;
    while i < bytes.len()
        invariant
            i <= bytes@.len(),
            out@ == start + bytes@.subrange(0, i as int),
        decreases bytes@.len() - i,
    {
        out.push(bytes[i]);
        i = i + 1;
        assert(out@ =~= start + bytes@.subrange(0, i as int));
    }
    assert(bytes@.subrange(0, i as int) =~= bytes@);
}

/// Appends a string as a two-byte length and its UTF-8 bytes.
pub fn write_string_to_buffer(value: String, out_buffer: &mut Vec<u8>)
    requires
        encode_utf8(value@).len() < 0x1_0000,
    ensures
        final(out_buffer)@ == old(out_buffer)@ + encode_text(value@),
{
    let text = value.as_str();
    let bytes = text.as_bytes();
    push_be(out_buffer, bytes.len() as u64, 2);
    push_all(out_buffer, bytes);
    assert(final(out_buffer)@ =~= old(out_buffer)@ + encode_text(value@));
}

/// Appends a value as its tag byte and its payload.
pub fn write_value(value: &Value, out_buffer: &mut Vec<u8>)
    requires
        value_fits(value@),
    ensures
        final(out_buffer)@ == old(out_buffer)@ + encode_value(value@),
{
    match value {
        Value::Boolean(b) => {
            out_buffer.push(0);
            out_buffer.push(if *b { 1 } else { 0 });
        },
        Value::UnsignedInt32(x) => {
            out_buffer.push(1);
            push_be(out_buffer, *x as u64, 4);
        },
        Value::UnsignedInt64(x) => {
            out_buffer.push(2);
            push_be(out_buffer, *x, 8);
        },
        Value::Float32(x) => {
            out_buffer.push(3);
            push_be(out_buffer, *x as u64, 4);
        },
        Value::Text(t) => {
            out_buffer.push(4);
            write_string_to_buffer(t.clone(), out_buffer);
        },
        Value::Bytes(b) => {
            out_buffer.push(5);
            push_be(out_buffer, b.len() as u64, 4);
            push_all(out_buffer, b.as_slice());
        },
    }
    assert(final(out_buffer)@ =~= old(out_buffer)@ + encode_value(value@));
}

} // verus!
