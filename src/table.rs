//! The in-memory table of settings: decoding a whole file into it, looking
//! entries up, changing them, and encoding it back.
use vstd::prelude::*;
use vstd::utf8::encode_utf8;
use crate::format::{
    DecodeError, ValueModel, Record, be, be_bytes, pow256, parse_text, parse_entry, parse_entries, parse_file,
    encode_file, encode_records, record_fits, has_key, index_of, distinct_keys,
    merge, tabulate, lemma_entry_round_trip, lemma_entries_round_trip, lemma_encode_records_push,
    lemma_tabulate_distinct, lemma_be_bound, lemma_be_bytes_of_be,
};
use crate::cursor::{ByteCursor, buf_pop};
use crate::codec::{Value, SettingsEntry, read_key, read_value, push_be, write_string_to_buffer, write_value};
use crate::literal::{ParseError, bool_literal, unsigned_literal, parse_bool, parse_unsigned};

verus! {

/// A table fit to be written: keys distinct, every length prefix fits its
/// field, and the entry count fits its four bytes.
pub open spec fn table_fits(rs: Seq<Record>) -> bool {
    &&& distinct_keys(rs)
    &&& rs.len() < 0x1_0000_0000
    &&& forall|i: int| 0 <= i < rs.len() ==> record_fits(#[trigger] rs[i])
}

/// The value that an entry holding `old` takes from the text `raw`, where
/// `float_bits` is the bit pattern of `raw` read as a decimal `f32`, if it
/// is one. The variant never changes.
pub open spec fn updated_value(old: ValueModel, raw: Seq<char>, float_bits: Option<u32>) -> Result<
    ValueModel,
    ParseError,
> {
    match old {
        ValueModel::Boolean(_) => match bool_literal(encode_utf8(raw)) {
            Some(b) => Ok(ValueModel::Boolean(b)),
            None => Err(ParseError::InvalidBooleanLiteral),
        },
        ValueModel::UnsignedInt32(_) => match unsigned_literal(encode_utf8(raw)) {
            Some(v) => if v <= u32::MAX {
                Ok(ValueModel::UnsignedInt32(v as u32))
            } else {
                Err(ParseError::InvalidNumericLiteral)
            },
            None => Err(ParseError::InvalidNumericLiteral),
        },
        ValueModel::UnsignedInt64(_) => match unsigned_literal(encode_utf8(raw)) {
            Some(v) => if v <= u64::MAX {
                Ok(ValueModel::UnsignedInt64(v as u64))
            } else {
                Err(ParseError::InvalidNumericLiteral)
            },
            None => Err(ParseError::InvalidNumericLiteral),
        },
        ValueModel::Float32(_) => match float_bits {
            Some(b) => Ok(ValueModel::Float32(b)),
            None => Err(ParseError::InvalidNumericLiteral),
        },
        ValueModel::Text(_) => Ok(ValueModel::Text(raw)),
        ValueModel::Bytes(_) => Err(ParseError::UnsupportedOperation),
    }
}

/// What a decode has read so far, put in front of what the rest gives.
pub open spec fn after(
    done: Seq<Record>,
    rest: Result<(Seq<Record>, int), DecodeError>,
) -> Result<(Seq<Record>, int), DecodeError> {
    match rest {
        Ok((rs, e)) => Ok((done + rs, e)),
        Err(err) => Err(err),
    }
}

/// The settings of a file, by key, each with the offset of its payload.
pub struct SettingsTable {
    items: Vec<(String, SettingsEntry)>,
}

impl View for SettingsTable {
    type V = Seq<Record>;

    closed spec fn view(&self) -> Seq<Record> {
        self.items@.map_values(
            |p: (String, SettingsEntry)|
                Record { key: p.0@, value: p.1.value@, address: p.1.address as int },
        )
    }
}

impl SettingsTable {
    pub open spec fn wf(&self) -> bool {
        table_fits(self@)
    }

    /// The number of entries.
    pub fn len(&self) -> (r: usize)
        ensures
            r == self@.len(),
    {
        self.items.len()
    }

    fn find(&self, key: &String) -> (r: Option<usize>)
        requires
            distinct_keys(self@),
        ensures
            r is None <==> !has_key(self@, key@),
            r matches Some(i) ==> i == index_of(self@, key@) && i < self@.len(),
    {
        let mut i: usize = 0;
        while i < self.items.len()
            invariant
                i <= self.items@.len(),
                distinct_keys(self@),
                forall|j: int| 0 <= j < i ==> #[trigger] self@[j].key != key@,
            decreases self.items@.len() - i,
        {
            if self.items[i].0 == *key {
                assert(self@[i as int].key == key@);
                proof {
                    let j = index_of(self@, key@);
                    assert(self@[j].key == key@);
                    assert(has_key(self@, key@));
                    if j < i {
                        assert(self@[j].key != self@[i as int].key);
                    } else if j > i {
                        assert(self@[i as int].key != self@[j].key);
                    }
                }
                return Some(i);
            }
            i = i + 1;
        }
        None
    }

    /// Puts an entry in, in place of the one with the same key if any.
    fn insert(&mut self, key: String, entry: SettingsEntry)
        requires
            distinct_keys(old(self)@),
        ensures
            final(self)@ == merge(
                old(self)@,
                Record { key: key@, value: entry.value@, address: entry.address as int },
            ),
            distinct_keys(final(self)@),
    {
        let ghost before = self@;
        let item = (key, entry);
        let ghost r = Record { key: item.0@, value: item.1.value@, address: item.1.address as int };
        match self.find(&item.0) {
            Some(i) => {
                self.items.set(i, item);
                assert(self@ =~= before.update(i as int, r));
                assert(distinct_keys(self@)) by {
                    assert forall|a: int, b: int| 0 <= a < b < self@.len() implies #[trigger] self@[a].key
                        != #[trigger] self@[b].key by {
                        assert(before[a].key != before[b].key);
                    }
                }
            },
            None => {
                self.items.push(item);
                assert(self@ =~= before.push(r));
            },
        }
    }

    /// The entry with the given key, if any.
    pub fn lookup(&self, key: &str) -> (r: Option<&SettingsEntry>)
        requires
            self.wf(),
        ensures
            r is None <==> !has_key(self@, key@),
            r matches Some(e) ==> e.value@ == self@[index_of(self@, key@)].value && e.address
                == self@[index_of(self@, key@)].address,
    {
        let k = key.to_owned();
        match self.find(&k) {
            Some(i) => Some(&self.items[i].1),
            None => None,
        }
    }

    /// The entry with the given key; fails with `KeyNotFound` when there is
    /// none.
    pub fn read(&self, key: &str) -> (r: Result<&SettingsEntry, ParseError>)
        requires
            self.wf(),
        ensures
            r is Err <==> !has_key(self@, key@),
            r matches Err(e) ==> e == ParseError::KeyNotFound,
            r matches Ok(e) ==> e.value@ == self@[index_of(self@, key@)].value && e.address
                == self@[index_of(self@, key@)].address,
    {
        match self.lookup(key) {
            Some(e) => Ok(e),
            None => Err(ParseError::KeyNotFound),
        }
    }

    /// The entries, in the order in which their keys first appeared.
    pub fn entries(&self) -> (r: &Vec<(String, SettingsEntry)>)
        ensures
            r@.len() == self@.len(),
            forall|i: int|
                0 <= i < r@.len() ==> (#[trigger] r@[i]).0@ == self@[i].key && r@[i].1.value@
                    == self@[i].value && r@[i].1.address == self@[i].address,
    {
        &self.items
    }

    /// Gives the entry with key `key` the value that `raw` spells in the
    /// entry's own type; the variant never changes, nor does the address.
    /// `float_bits` is the bit pattern of `raw` read as a decimal `f32`
    /// (`None` where it is not one); it is looked at for Float32 entries
    /// only. Fails, changing nothing, where no entry has the key, where
    /// `raw` spells no value of the entry's type, and always on a Bytes entry.
    pub fn update(&mut self, key: &str, raw: &str, float_bits: Option<u32>) -> (r: Result<
        (),
        ParseError,
    >)
        requires
            old(self).wf(),
            encode_utf8(raw@).len() < 0x1_0000,
        ensures
            final(self).wf(),
            !has_key(old(self)@, key@) ==> r == Err::<(), ParseError>(ParseError::KeyNotFound)
                && final(self)@ == old(self)@,
            has_key(old(self)@, key@) ==> {
                let i = index_of(old(self)@, key@);
                let o = old(self)@[i];
                match updated_value(o.value, raw@, float_bits) {
                    Ok(v) => r is Ok && final(self)@ == old(self)@.update(
                        i,
                        Record { value: v, ..o },
                    ),
                    Err(e) => r == Err::<(), ParseError>(e) && final(self)@ == old(self)@,
                }
            },
    {
        let k = key.to_owned();
        let i = match self.find(&k) {
            Some(i) => i,
            None => return Err(ParseError::KeyNotFound),
        };
        let ghost o = self@[i as int];
        let address = self.items[i].1.address;
        let bytes = raw.as_bytes();
        let value = match &self.items[i].1.value {
            Value::Boolean(_) => match parse_bool(raw.to_owned()) {
                Ok(b) => Value::Boolean(b),
                Err(e) => return Err(e),
            },
            Value::UnsignedInt32(_) => match parse_unsigned(bytes, 0xffff_ffff) {
                Some(v) => Value::UnsignedInt32(v as u32),
                None => return Err(ParseError::InvalidNumericLiteral),
            },
            Value::UnsignedInt64(_) => match parse_unsigned(bytes, 0xffff_ffff_ffff_ffff) {
                Some(v) => Value::UnsignedInt64(v),
                None => return Err(ParseError::InvalidNumericLiteral),
            },
            Value::Float32(_) => match float_bits {
                Some(b) => Value::Float32(b),
                None => return Err(ParseError::InvalidNumericLiteral),
            },
            Value::Text(_) => Value::Text(raw.to_owned()),
            Value::Bytes(_) => return Err(ParseError::UnsupportedOperation),
        };
        let ghost v = value@;
        assert(updated_value(o.value, raw@, float_bits) == Ok::<ValueModel, ParseError>(v));
        self.items.set(i, (k, SettingsEntry { value, address }));
        assert(self@ =~= old(self)@.update(i as int, Record { value: v, ..o }));
        assert(self.wf()) by {
            assert forall|a: int, b: int| 0 <= a < b < self@.len() implies #[trigger] self@[a].key
                != #[trigger] self@[b].key by {
                assert(old(self)@[a].key != old(self)@[b].key);
            }
            assert forall|j: int| 0 <= j < self@.len() implies record_fits(#[trigger] self@[j]) by {
                assert(record_fits(old(self)@[j]));
            }
        }
        Ok(())
    }

    /// The file bytes for this table: the entry count, then each entry as
    /// key, tag and payload, in the table's order. Addresses are not written.
    pub fn encode_table(&self) -> (r: Vec<u8>)
        requires
            self.wf(),
        ensures
            r@ == encode_file(self@),
    {
        let mut out: Vec<u8> = Vec::new();
        push_be(&mut out, self.items.len() as u64, 4);
        let ghost head = out@;
        let mut i: usize = 0;
        while i < self.items.len()
            invariant
                self.wf(),
                i <= self@.len(),
                head == be_bytes(self@.len(), 4),
                out@ == head + encode_records(self@.take(i as int)),
            decreases self@.len() - i,
        {
            let ghost before = out@;
            let (key, entry) = &self.items[i];
            assert(record_fits(self@[i as int]));
            write_string_to_buffer(key.clone(), &mut out);
            write_value(&entry.value, &mut out);
            proof {
                lemma_encode_records_push(self@.take(i as int), self@[i as int]);
                assert(self@.take(i as int).push(self@[i as int]) =~= self@.take(i + 1));
            }
            i = i + 1;
            assert(out@ =~= head + encode_records(self@.take(i as int)));
        }
        assert(self@.take(i as int) =~= self@);
        out
    }
}

/// Decodes a whole file. The table holds the entries in the order in which
/// their keys first appear; where a key comes twice the later entry wins.
/// Bytes after the last entry are not read.
pub fn decode_file(bytes: Vec<u8>) -> (r: Result<SettingsTable, DecodeError>)
    ensures
        match parse_file(bytes@) {
            Ok((rs, _e)) => r matches Ok(t) && t@ == tabulate(rs) && t.wf(),
            Err(err) => r matches Err(x) && x == err,
        },
{
    let ghost d = bytes@;
    let mut cursor = ByteCursor::new(bytes);
    let count = match cursor.pop_be(4) {
        Ok(n) => n,
        Err(e) => return Err(e),
    };
    proof {
        reveal_with_fuel(pow256, 5);
    }
    let mut table = SettingsTable { items: Vec::new() };
    let ghost mut done: Seq<Record> = Seq::empty();
    assert(table@ =~= Seq::<Record>::empty());
    let mut i: u64 = 0;
    while i < count
        invariant
            cursor.data() == d,
            d == bytes@,
            d.len() >= 4,
            count == be(d.subrange(0, 4)),
            count < 0x1_0000_0000,
            i <= count,
            4 <= cursor.pos() <= d.len(),
            done.len() == i,
            parse_entries(d, 4, count as nat) == after(done, parse_entries(d, cursor.pos(), (count - i) as nat)),
            table@ == tabulate(done),
            table@.len() <= i,
            table.wf(),
        decreases count - i,
    {
        let ghost pos = cursor.pos();
        proof {
            assert(after(done, parse_entries(d, pos, (count - i) as nat)) == after(done, match parse_entry(d, pos) {
                Err(err) => Err(err),
                Ok((r, p)) => match parse_entries(d, p, (count - i - 1) as nat) {
                    Err(err) => Err(err),
                    Ok((rs, e)) => Ok((seq![r] + rs, e)),
                },
            }));
        }
        let key = match read_key(&mut cursor) {
            Ok(k) => k,
            Err(e) => {
                assert(parse_entry(d, pos) == Err::<(Record, int), DecodeError>(e));
                assert(parse_entries(d, pos, (count - i) as nat) == Err::<(Seq<Record>, int), DecodeError>(e));
                assert(parse_file(d) == Err::<(Seq<Record>, int), DecodeError>(e));
                return Err(e);
            },
        };
        let tag = match buf_pop(&mut cursor) {
            Ok(t) => t,
            Err(e) => {
                assert(parse_entry(d, pos) == Err::<(Record, int), DecodeError>(e));
                assert(parse_entries(d, pos, (count - i) as nat) == Err::<(Seq<Record>, int), DecodeError>(e));
                assert(parse_file(d) == Err::<(Seq<Record>, int), DecodeError>(e));
                return Err(e);
            },
        };
        let entry = match read_value(&mut cursor, tag) {
            Ok(v) => v,
            Err(e) => {
                assert(parse_entry(d, pos) == Err::<(Record, int), DecodeError>(e));
                assert(parse_entries(d, pos, (count - i) as nat) == Err::<(Seq<Record>, int), DecodeError>(e));
                assert(parse_file(d) == Err::<(Seq<Record>, int), DecodeError>(e));
                return Err(e);
            },
        };
        let ghost rec = Record { key: key@, value: entry.value@, address: entry.address as int };
        proof {
            lemma_entry_round_trip(d, pos);
            assert(parse_entry(d, pos) == Ok::<(Record, int), DecodeError>((rec, cursor.pos())));
            let rest = parse_entries(d, cursor.pos(), (count - i - 1) as nat);
            match rest {
                Ok((rs, e)) => {
                    assert(done + (seq![rec] + rs) =~= done.push(rec) + rs);
                },
                Err(_) => {},
            }
        }
        table.insert(key, entry);
        proof {
            assert(done.push(rec).drop_last() =~= done);
            done = done.push(rec);
            assert(table@.len() <= i + 1);
            assert forall|j: int| 0 <= j < table@.len() implies record_fits(#[trigger] table@[j]) by {
                let old_t = tabulate(done.drop_last());
                if has_key(old_t, rec.key) {
                    if j != index_of(old_t, rec.key) {
                        assert(table@[j] == old_t[j]);
                    }
                } else {
                    if j < old_t.len() {
                        assert(table@[j] == old_t[j]);
                    }
                }
            }
        }
        i = i + 1;
    }
    proof {
        assert(done + Seq::<Record>::empty() =~= done);
    }
    Ok(table)
}


/// Round trip: for every file that decodes with no bytes left over and no
/// key repeated, encoding the decoded table gives back the file's bytes.
pub proof fn lemma_round_trip(data: Seq<u8>)
    requires
        parse_file(data) matches Ok((rs, e)) && e == data.len() && distinct_keys(rs),
    ensures
        parse_file(data) matches Ok((rs, _e)) && table_fits(tabulate(rs)) && encode_file(
            tabulate(rs),
        ) == data,
{
    let (rs, e) = parse_file(data)->Ok_0;
    let head = data.subrange(0, 4);
    lemma_entries_round_trip(data, 4, be(head));
    lemma_tabulate_distinct(rs);
    lemma_be_bytes_of_be(head);
    lemma_be_bound(head);
    reveal_with_fuel(pow256, 5);
    assert(encode_file(rs) =~= data);
}

/// A file whose first entry carries a type tag above 5 fails to decode with
/// that tag, whatever follows it.
pub proof fn lemma_unknown_tag_rejected(data: Seq<u8>)
    requires
        data.len() >= 4,
        be(data.subrange(0, 4)) >= 1,
        parse_text(data, 4) matches Ok((_k, _a, p)) && p < data.len() && data[p] > 5,
    ensures
        parse_text(data, 4) matches Ok((_k, _a, p)) && parse_file(data) == Err::<
            (Seq<Record>, int),
            DecodeError,
        >(DecodeError::UnknownTypeTag(data[p])),
{
    let p = parse_text(data, 4)->Ok_0.2;
    assert(parse_entry(data, 4) == Err::<(Record, int), DecodeError>(
        DecodeError::UnknownTypeTag(data[p]),
    ));
}

} // verus!
