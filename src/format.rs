//! The file format as mathematics: what a byte sequence decodes to, what a
//! table encodes to, and the lemmas that tie the two together.
use vstd::prelude::*;
use vstd::utf8::*;

verus! {

/// Why a file could not be decoded.
#[derive(Debug, Clone, Copy, PartialEq, Eq, Structural)]
pub enum DecodeError {
    /// The bytes ended in the middle of an item.
    UnexpectedEndOfInput,
    /// A Boolean payload held a byte other than 0 or 1.
    MalformedBoolean,
    /// A key or a Text payload was not well-formed UTF-8.
    InvalidUtf8,
    /// An entry carried a type tag outside 0 to 5; the tag is given.
    UnknownTypeTag(u8),
}

/// A value as the file holds it, one variant per type tag.
pub enum ValueModel {
    Boolean(bool),
    UnsignedInt32(u32),
    UnsignedInt64(u64),
    /// The IEEE-754 bit pattern of a single-precision float.
    Float32(u32),
    Text(Seq<char>),
    Bytes(Seq<u8>),
}

/// One entry of a file or a table: its key, its value, and the offset in the
/// file at which the value's payload began.
pub struct Record {
    pub key: Seq<char>,
    pub value: ValueModel,
    pub address: int,
}

/// A length-prefixed UTF-8 string at `pos`: its characters, the offset of its
/// first byte after the two-byte length, and the offset just past it.
pub open spec fn parse_text(data: Seq<u8>, pos: int) -> Result<(Seq<char>, int, int), DecodeError> {
    if pos + 2 > data.len() {
        Err(DecodeError::UnexpectedEndOfInput)
    } else {
        let a = pos + 2;
        let n = be(data.subrange(pos, a));
        if a + n > data.len() {
            Err(DecodeError::UnexpectedEndOfInput)
        } else if valid_utf8(data.subrange(a, a + n)) {
            Ok((decode_utf8(data.subrange(a, a + n)), a, a + n))
        } else {
            Err(DecodeError::InvalidUtf8)
        }
    }
}

/// A fixed-width big-endian number of `n` bytes at `pos`.
pub open spec fn parse_fixed(data: Seq<u8>, pos: int, n: int) -> Result<(nat, int, int), DecodeError> {
    if pos + n > data.len() {
        Err(DecodeError::UnexpectedEndOfInput)
    } else {
        Ok((be(data.subrange(pos, pos + n)), pos, pos + n))
    }
}

/// The payload of type `tag` at `pos`: the value, the offset of the payload's
/// first byte after any length prefix, and the offset just past the payload.
pub open spec fn parse_value(data: Seq<u8>, tag: u8, pos: int) -> Result<(ValueModel, int, int), DecodeError> {
    if tag == 0 {
        if pos + 1 > data.len() {
            Err(DecodeError::UnexpectedEndOfInput)
        } else if data[pos] == 0 {
            Ok((ValueModel::Boolean(false), pos, pos + 1))
        } else if data[pos] == 1 {
            Ok((ValueModel::Boolean(true), pos, pos + 1))
        } else {
            Err(DecodeError::MalformedBoolean)
        }
    } else if tag == 1 {
        match parse_fixed(data, pos, 4) {
            Ok((v, a, e)) => Ok((ValueModel::UnsignedInt32(v as u32), a, e)),
            Err(err) => Err(err),
        }
    } else if tag == 2 {
        match parse_fixed(data, pos, 8) {
            Ok((v, a, e)) => Ok((ValueModel::UnsignedInt64(v as u64), a, e)),
            Err(err) => Err(err),
        }
    } else if tag == 3 {
        match parse_fixed(data, pos, 4) {
            Ok((v, a, e)) => Ok((ValueModel::Float32(v as u32), a, e)),
            Err(err) => Err(err),
        }
    } else if tag == 4 {
        match parse_text(data, pos) {
            Ok((t, a, e)) => Ok((ValueModel::Text(t), a, e)),
            Err(err) => Err(err),
        }
    } else if tag == 5 {
        if pos + 4 > data.len() {
            Err(DecodeError::UnexpectedEndOfInput)
        } else {
            let a = pos + 4;
            let n = be(data.subrange(pos, a));
            if a + n > data.len() {
                Err(DecodeError::UnexpectedEndOfInput)
            } else {
                Ok((ValueModel::Bytes(data.subrange(a, a + n)), a, a + n))
            }
        }
    } else {
        Err(DecodeError::UnknownTypeTag(tag))
    }
}

/// The entry at `pos`: key, tag, payload; and the offset just past it.
pub open spec fn parse_entry(data: Seq<u8>, pos: int) -> Result<(Record, int), DecodeError> {
    match parse_text(data, pos) {
        Err(err) => Err(err),
        Ok((k, _a, p)) => if p + 1 > data.len() {
            Err(DecodeError::UnexpectedEndOfInput)
        } else {
            match parse_value(data, data[p], p + 1) {
                Err(err) => Err(err),
                Ok((v, a, e)) => Ok((Record { key: k, value: v, address: a }, e)),
            }
        },
    }
}

/// `n` entries one after another from `pos`, and the offset just past them.
pub open spec fn parse_entries(data: Seq<u8>, pos: int, n: nat) -> Result<(Seq<Record>, int), DecodeError>
    decreases n,
{
    if n == 0 {
        Ok((Seq::empty(), pos))
    } else {
        match parse_entry(data, pos) {
            Err(err) => Err(err),
            Ok((r, p)) => match parse_entries(data, p, (n - 1) as nat) {
                Err(err) => Err(err),
                Ok((rs, e)) => Ok((seq![r] + rs, e)),
            },
        }
    }
}

/// A whole file: the four-byte entry count, then that many entries. Bytes
/// after the last entry are not read; the offset just past it is returned.
pub open spec fn parse_file(data: Seq<u8>) -> Result<(Seq<Record>, int), DecodeError> {
    if 4 > data.len() {
        Err(DecodeError::UnexpectedEndOfInput)
    } else {
        parse_entries(data, 4, be(data.subrange(0, 4)))
    }
}

/// A string as a two-byte length and its UTF-8 bytes.
pub open spec fn encode_text(t: Seq<char>) -> Seq<u8> {
    be_bytes(encode_utf8(t).len(), 2) + encode_utf8(t)
}

/// A value as its tag byte and its payload.
pub open spec fn encode_value(v: ValueModel) -> Seq<u8> {
    match v {
        ValueModel::Boolean(b) => seq![0u8, if b { 1u8 } else { 0u8 }],
        ValueModel::UnsignedInt32(x) => seq![1u8] + be_bytes(x as nat, 4),
        ValueModel::UnsignedInt64(x) => seq![2u8] + be_bytes(x as nat, 8),
        ValueModel::Float32(x) => seq![3u8] + be_bytes(x as nat, 4),
        ValueModel::Text(t) => seq![4u8] + encode_text(t),
        ValueModel::Bytes(b) => seq![5u8] + be_bytes(b.len(), 4) + b,
    }
}

pub open spec fn encode_record(r: Record) -> Seq<u8> {
    encode_text(r.key) + encode_value(r.value)
}

pub open spec fn encode_records(rs: Seq<Record>) -> Seq<u8>
    decreases rs.len(),
{
    if rs.len() == 0 {
        Seq::empty()
    } else {
        encode_record(rs[0]) + encode_records(rs.drop_first())
    }
}

/// A whole file: the entry count, then each record in order.
pub open spec fn encode_file(rs: Seq<Record>) -> Seq<u8> {
    be_bytes(rs.len(), 4) + encode_records(rs)
}

/// Every length prefix that a value needs fits in its field.
pub open spec fn value_fits(v: ValueModel) -> bool {
    match v {
        ValueModel::Text(t) => encode_utf8(t).len() < 0x1_0000,
        ValueModel::Bytes(b) => b.len() < 0x1_0000_0000,
        _ => true,
    }
}

/// Every length prefix that a record needs fits in its field.
pub open spec fn record_fits(r: Record) -> bool {
    encode_utf8(r.key).len() < 0x1_0000 && value_fits(r.value)
}

/// Some record of `rs` has key `k`.
pub open spec fn has_key(rs: Seq<Record>, k: Seq<char>) -> bool {
    exists|i: int| 0 <= i < rs.len() && #[trigger] rs[i].key == k
}

/// Where in `rs` a record with key `k` stands, when one does.
pub open spec fn index_of(rs: Seq<Record>, k: Seq<char>) -> int {
    choose|i: int| 0 <= i < rs.len() && #[trigger] rs[i].key == k
}

/// No two records share a key.
pub open spec fn distinct_keys(rs: Seq<Record>) -> bool {
    forall|i: int, j: int| 0 <= i < j < rs.len() ==> #[trigger] rs[i].key != #[trigger] rs[j].key
}

/// Puts `r` into `rs`: in place of the record with the same key where there
/// is one, else at the end.
pub open spec fn merge(rs: Seq<Record>, r: Record) -> Seq<Record> {
    if has_key(rs, r.key) {
        rs.update(index_of(rs, r.key), r)
    } else {
        rs.push(r)
    }
}

/// The table that records make when put in one by one: a later record with
/// a key already present takes the earlier one's place.
pub open spec fn tabulate(rs: Seq<Record>) -> Seq<Record>
    decreases rs.len(),
{
    if rs.len() == 0 {
        Seq::empty()
    } else {
        merge(tabulate(rs.drop_last()), rs.last())
    }
}

/// `256` raised to `n`: one past the largest value that `n` bytes hold.
pub open spec fn pow256(n: nat) -> nat
    decreases n,
{
    if n == 0 {
        1
    } else {
        256 * pow256((n - 1) as nat)
    }
}

/// The number that a byte sequence spells out, most significant byte first.
pub open spec fn be(s: Seq<u8>) -> nat
    decreases s.len(),
{
    if s.len() == 0 {
        0
    } else {
        (be(s.drop_last()) * 256 + s.last()) as nat
    }
}

/// The `n` low-order bytes of `v`, most significant first.
pub open spec fn be_bytes(v: nat, n: nat) -> Seq<u8>
    decreases n,
{
    if n == 0 {
        Seq::empty()
    } else {
        be_bytes(v / 256, (n - 1) as nat).push((v % 256) as u8)
    }
}

pub proof fn lemma_pow256_monotone(a: nat, b: nat)
    requires
        a <= b,
    ensures
        pow256(a) <= pow256(b),
    decreases b,
{
    if a < b {
        lemma_pow256_monotone(a, (b - 1) as nat);
    }
}

/// What `n` bytes spell out is below `256` to the `n`.
pub proof fn lemma_be_bound(s: Seq<u8>)
    ensures
        be(s) < pow256(s.len()),
    decreases s.len(),
{
    if s.len() > 0 {
        let d = s.drop_last();
        lemma_be_bound(d);
        let p = pow256(d.len());
        let x = be(d);
        let l = s.last() as nat;
        assert(x * 256 + l < 256 * p) by (nonlinear_arith)
            requires
                x < p,
                l < 256,
        ;
    }
}

/// Writing out what a byte sequence spells gives the sequence back.
pub proof fn lemma_be_bytes_of_be(s: Seq<u8>)
    ensures
        be_bytes(be(s), s.len()) == s,
    decreases s.len(),
{
    if s.len() > 0 {
        let d = s.drop_last();
        let x = be(d);
        let l = s.last() as nat;
        assert((x * 256 + l) / 256 == x && (x * 256 + l) % 256 == l) by (nonlinear_arith)
            requires
                l < 256,
        ;
        lemma_be_bytes_of_be(d);
        assert(be_bytes(be(s), s.len()) =~= s);
    }
}

/// A string that parsed is written back as the bytes it was read from, and its
/// length fits the two-byte prefix.
pub proof fn lemma_text_round_trip(data: Seq<u8>, pos: int)
    requires
        0 <= pos,
        parse_text(data, pos) is Ok,
    ensures
        parse_text(data, pos) matches Ok((t, a, e)) && encode_text(t) == data.subrange(pos, e)
            && encode_utf8(t).len() < 0x1_0000 && a == pos + 2 && e <= data.len(),
{
    broadcast use vstd::utf8::decode_utf8_encode_utf8;

    let a = pos + 2;
    let prefix = data.subrange(pos, a);
    let n = be(prefix);
    let b = data.subrange(a, a + n);
    lemma_be_bytes_of_be(prefix);
    lemma_be_bound(prefix);
    reveal_with_fuel(pow256, 3);
    assert(encode_utf8(decode_utf8(b)) == b);
    assert(encode_text(decode_utf8(b)) =~= data.subrange(pos, a + n));
}

/// A payload that parsed is written back, after its tag, as the bytes it was
/// read from, and its length fits its prefix.
pub proof fn lemma_value_round_trip(data: Seq<u8>, tag: u8, pos: int)
    requires
        0 <= pos,
        parse_value(data, tag, pos) is Ok,
    ensures
        parse_value(data, tag, pos) matches Ok((v, a, e)) && encode_value(v) == seq![tag]
            + data.subrange(pos, e) && value_fits(v) && pos <= a <= e <= data.len(),
{
    reveal_with_fuel(pow256, 9);
    if tag == 0 {
        assert(encode_value(parse_value(data, tag, pos)->Ok_0.0) =~= seq![tag] + data.subrange(pos, pos + 1));
    } else if tag == 1 || tag == 3 || tag == 2 {
        let n: int = if tag == 2 { 8 } else { 4 };
        let s = data.subrange(pos, pos + n);
        lemma_be_bytes_of_be(s);
        lemma_be_bound(s);
        assert(encode_value(parse_value(data, tag, pos)->Ok_0.0) =~= seq![tag] + s);
    } else if tag == 4 {
        lemma_text_round_trip(data, pos);
        let e = parse_value(data, tag, pos)->Ok_0.2;
        assert(encode_value(parse_value(data, tag, pos)->Ok_0.0) =~= seq![tag] + data.subrange(pos, e));
    } else {
        let s = data.subrange(pos, pos + 4);
        let n = be(s);
        lemma_be_bytes_of_be(s);
        lemma_be_bound(s);
        assert(encode_value(parse_value(data, tag, pos)->Ok_0.0) =~= seq![tag] + data.subrange(pos, pos + 4 + n));
    }
}

/// An entry that parsed is written back as the bytes it was read from.
pub proof fn lemma_entry_round_trip(data: Seq<u8>, pos: int)
    requires
        0 <= pos,
        parse_entry(data, pos) is Ok,
    ensures
        parse_entry(data, pos) matches Ok((r, e)) && encode_record(r) == data.subrange(pos, e)
            && record_fits(r) && pos < e <= data.len(),
{
    lemma_text_round_trip(data, pos);
    let p = parse_text(data, pos)->Ok_0.2;
    lemma_value_round_trip(data, data[p], p + 1);
    let e = parse_entry(data, pos)->Ok_0.1;
    assert(encode_record(parse_entry(data, pos)->Ok_0.0) =~= data.subrange(pos, e));
}

/// Entries that parsed are written back as the bytes they were read from.
pub proof fn lemma_entries_round_trip(data: Seq<u8>, pos: int, n: nat)
    requires
        0 <= pos <= data.len(),
        parse_entries(data, pos, n) is Ok,
    ensures
        parse_entries(data, pos, n) matches Ok((rs, e)) && encode_records(rs) == data.subrange(
            pos,
            e,
        ) && rs.len() == n && pos <= e <= data.len() && forall|i: int|
            0 <= i < rs.len() ==> record_fits(#[trigger] rs[i]),
    decreases n,
{
    if n == 0 {
        assert(data.subrange(pos, pos) =~= Seq::<u8>::empty());
    } else {
        lemma_entry_round_trip(data, pos);
        let (r, p) = parse_entry(data, pos)->Ok_0;
        lemma_entries_round_trip(data, p, (n - 1) as nat);
        let (rest, e) = parse_entries(data, p, (n - 1) as nat)->Ok_0;
        let rs = seq![r] + rest;
        assert(rs.drop_first() =~= rest);
        assert(encode_records(rs) =~= data.subrange(pos, e));
        assert forall|i: int| 0 <= i < rs.len() implies record_fits(#[trigger] rs[i]) by {
            if i > 0 {
                assert(rs[i] == rest[i - 1]);
            }
        }
    }
}

/// Encoding records one more record at the end appends that record's bytes.
pub proof fn lemma_encode_records_push(rs: Seq<Record>, r: Record)
    ensures
        encode_records(rs.push(r)) == encode_records(rs) + encode_record(r),
    decreases rs.len(),
{
    if rs.len() == 0 {
        assert(rs.push(r).drop_first() =~= Seq::<Record>::empty());
        assert(encode_records(rs.push(r).drop_first()) == Seq::<u8>::empty());
        assert(encode_records(rs.push(r)) =~= encode_record(r));
    } else {
        assert(rs.push(r).drop_first() =~= rs.drop_first().push(r));
        lemma_encode_records_push(rs.drop_first(), r);
        assert(encode_records(rs.push(r)) =~= encode_records(rs) + encode_record(r));
    }
}

/// Records with distinct keys make a table that holds them as they are.
pub proof fn lemma_tabulate_distinct(rs: Seq<Record>)
    requires
        distinct_keys(rs),
    ensures
        tabulate(rs) == rs,
    decreases rs.len(),
{
    if rs.len() > 0 {
        let d = rs.drop_last();
        assert(distinct_keys(d)) by {
            assert forall|i: int, j: int| 0 <= i < j < d.len() implies #[trigger] d[i].key
                != #[trigger] d[j].key by {
                assert(d[i] == rs[i] && d[j] == rs[j]);
            }
        }
        lemma_tabulate_distinct(d);
        assert(!has_key(d, rs.last().key)) by {
            if has_key(d, rs.last().key) {
                let i = choose|i: int| 0 <= i < d.len() && #[trigger] d[i].key == rs.last().key;
                assert(rs[i].key == rs[rs.len() - 1].key);
            }
        }
        assert(d.push(rs.last()) =~= rs);
    }
}

} // verus!
