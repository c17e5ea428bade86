//! A consuming, offset-tracking reader over the bytes of a file.
use vstd::prelude::*;
use crate::format::{DecodeError, be, pow256, lemma_be_bound, lemma_pow256_monotone};

verus! {

/// A reader that walks a byte sequence from the front and counts how far it
/// has come.
pub struct ByteCursor {
    bytes: Vec<u8>,
    offset: usize,
}

impl ByteCursor {
    /// All the bytes, read or not.
    pub closed spec fn data(&self) -> Seq<u8> {
        self.bytes@
    }

    /// How many bytes have been consumed.
    pub closed spec fn pos(&self) -> int {
        self.offset as int
    }

    /// The bytes not consumed yet.
    pub open spec fn rest(&self) -> Seq<u8> {
        self.data().subrange(self.pos(), self.data().len() as int)
    }

    pub fn new(bytes: Vec<u8>) -> (r: ByteCursor)
        ensures
            r.data() == bytes@,
            r.pos() == 0,
    {
        ByteCursor { bytes, offset: 0 }
    }

    /// The offset of the next byte to be read.
    pub fn current_offset(&self) -> (r: usize)
        ensures
            r == self.pos(),
    {
        self.offset
    }

    /// Whether every byte has been consumed.
    pub fn is_exhausted(&self) -> (r: bool)
        ensures
            r == (self.pos() >= self.data().len()),
    {
        self.offset >= self.bytes.len()
    }

    /// Consumes `n` bytes and returns the number they spell, most significant
    /// first; fails, consuming nothing, when fewer than `n` are left.
    pub fn pop_be(&mut self, n: usize) -> (r: Result<u64, DecodeError>)
        requires
            n <= 8,
        ensures
            final(self).data() == old(self).data(),
            old(self).pos() + n <= old(self).data().len() ==> {
                &&& r == Ok::<u64, DecodeError>(
                    be(old(self).data().subrange(old(self).pos(), old(self).pos() + n)) as u64,
                )
                &&& final(self).pos() == old(self).pos() + n
            },
            old(self).pos() + n > old(self).data().len() ==> {
                &&& r == Err::<u64, DecodeError>(DecodeError::UnexpectedEndOfInput)
                &&& final(self).pos() == old(self).pos()
            },
            r matches Ok(v) ==> v as nat == be(
                old(self).data().subrange(old(self).pos(), old(self).pos() + n),
            ),
            r matches Ok(v) ==> (v as nat) < pow256(n as nat),
    {
        if self.offset > self.bytes.len() || n > self.bytes.len() - self.offset {
            return Err(DecodeError::UnexpectedEndOfInput);
        }
        let ghost start = self.offset as int;
        let ghost d = self.bytes@;
        let mut acc: u64 = 0;
        let mut i: usize = 0;
        while i < n
            invariant
                i <= n <= 8,
                self.bytes@ == d,
                0 <= start,
                start + n <= d.len() <= usize::MAX,
                self.offset == start + i,
                acc as nat == be(d.subrange(start, start + i)),
            decreases n - i,
        {
            let b = self.bytes[self.offset];
            proof {
                let s = d.subrange(start, start + i + 1);
                assert(s.drop_last() =~= d.subrange(start, start + i));
                lemma_be_bound(d.subrange(start, start + i));
                lemma_pow256_monotone(i as nat, 7);
                reveal_with_fuel(pow256, 8);
                assert(pow256(7) * 256 == 0x1_0000_0000_0000_0000);
                let p = pow256(i as nat);
                let x = acc as nat;
                assert(x * 256 + b < 0x1_0000_0000_0000_0000) by (nonlinear_arith)
                    requires
                        x < p,
                        p <= pow256(7),
                        pow256(7) * 256 == 0x1_0000_0000_0000_0000,
                        b < 256,
                ;
            }
            acc = acc * 256 + b as u64;
            self.offset = self.offset + 1;
            i = i + 1;
        }
        proof {
            lemma_be_bound(d.subrange(start, start + n));
        }
        Ok(acc)
    }

    /// Consumes `n` bytes and returns them; fails, consuming nothing, when
    /// fewer than `n` are left.
    pub fn pop_n(&mut self, n: usize) -> (r: Result<Vec<u8>, DecodeError>)
        ensures
            final(self).data() == old(self).data(),
            old(self).pos() + n <= old(self).data().len() ==> {
                &&& r matches Ok(v) && v@ == old(self).data().subrange(
                    old(self).pos(),
                    old(self).pos() + n,
                )
                &&& final(self).pos() == old(self).pos() + n
            },
            old(self).pos() + n > old(self).data().len() ==> {
                &&& r == Err::<Vec<u8>, DecodeError>(DecodeError::UnexpectedEndOfInput)
                &&& final(self).pos() == old(self).pos()
            },
    {
        if self.offset > self.bytes.len() || n > self.bytes.len() - self.offset {
            return Err(DecodeError::UnexpectedEndOfInput);
        }
        let ghost start = self.offset as int;
        let ghost d = self.bytes@;
        let mut out: Vec<u8> = Vec::with_capacity(n);
        let mut i: usize = 0;
        while i < n
            invariant
                i <= n,
                self.bytes@ == d,
                0 <= start,
                start + n <= d.len() <= usize::MAX,
                self.offset == start + i,
                out@ == d.subrange(start, start + i),
            decreases n - i,
        {
            out.push(self.bytes[self.offset]);
            self.offset = self.offset + 1;
            i = i + 1;
            assert(out@ =~= d.subrange(start, start + i));
        }
        Ok(out)
    }
}

/// Consumes the next byte and returns it; fails, consuming nothing, when no
/// byte is left.
pub fn buf_pop(cursor: &mut ByteCursor) -> (r: Result<u8, DecodeError>)
    ensures
        final(cursor).data() == old(cursor).data(),
        old(cursor).pos() < old(cursor).data().len() ==> {
            &&& r == Ok::<u8, DecodeError>(old(cursor).data()[old(cursor).pos()])
            &&& final(cursor).pos() == old(cursor).pos() + 1
        },
        old(cursor).pos() >= old(cursor).data().len() ==> {
            &&& r == Err::<u8, DecodeError>(DecodeError::UnexpectedEndOfInput)
            &&& final(cursor).pos() == old(cursor).pos()
        },
{
    if cursor.offset >= cursor.bytes.len() {
        return Err(DecodeError::UnexpectedEndOfInput);
    }
    let b = cursor.bytes[cursor.offset];
    cursor.offset = cursor.offset + 1;
    Ok(b)
}

} // verus!
