//! A cursor over the little-endian bytes of a blob.
use vstd::arithmetic::power2::*;
use vstd::prelude::*;

use crate::binary64::Binary64;
use crate::bytes;
use crate::bytes::ByteOrder;
use crate::data_type::DataType;
use crate::error;
use crate::error::{lerc_err, Fault, LercError};
use crate::sample;

verus! {

/// A position in a blob.
pub struct ByteReader<'a> {
    pub buf: &'a [u8],
    pub pos: usize,
}

/// The fault of a blob that ends too early.
pub open spec fn end_of_blob() -> Fault {
    Fault::InvalidData("unexpected end of LERC blob"@)
}

/// Whether `n` bytes stand in `buf` from `pos` on.
pub open spec fn available(buf: Seq<u8>, pos: int, n: int) -> bool {
    pos + n <= buf.len()
}

/// The little-endian word of `n` bytes that stands at `pos`.
pub open spec fn word_at(buf: Seq<u8>, pos: int, n: int) -> nat {
    bytes::le_value(buf.subrange(pos, pos + n))
}

/// The 32-bit integer that stands at `pos`.
pub open spec fn int_at(buf: Seq<u8>, pos: int) -> int {
    bytes::signed(word_at(buf, pos, 4), 0x8000_0000)
}

/// The binary64 number that stands at `pos`.
pub open spec fn double_at(buf: Seq<u8>, pos: int) -> Binary64 {
    Binary64 { bits: word_at(buf, pos, 8) as u64 }
}

/// The sample of type `dt` that stands at `pos`.
pub open spec fn sample_at(buf: Seq<u8>, pos: int, dt: DataType) -> Binary64 {
    sample::stored_value(buf.subrange(pos, pos + dt.size_spec()), dt)
}

impl<'a> ByteReader<'a> {
    /// The position is within the blob.
    pub open spec fn wf(&self) -> bool {
        self.pos <= self.buf.len()
    }

    /// Whether `n` bytes are left.
    pub open spec fn has(&self, n: int) -> bool {
        available(self.buf@, self.pos as int, n)
    }

    /// `after` is this reader moved on by `n` bytes, where that many are left, and
    /// this reader itself otherwise.
    pub open spec fn advanced(&self, after: &ByteReader<'a>, n: int) -> bool {
        after.buf == self.buf && after.wf() && after.pos == self.pos + if self.has(n) {
            n
        } else {
            0
        }
    }

    pub fn new(buf: &'a [u8]) -> (r: ByteReader<'a>)
        ensures
            r.wf(),
            r.buf == buf,
            r.pos == 0,
    {
        ByteReader { buf, pos: 0 }
    }

    /// The number of bytes that are left.
    pub fn remaining(&self) -> (n: usize)
        requires
            self.wf(),
        ensures
            n == self.buf@.len() - self.pos,
    {
        self.buf.len() - self.pos
    }

    /// Fails where fewer than `n` bytes are left.
    pub fn need(&self, n: usize) -> (r: Result<(), LercError>)
        requires
            self.wf(),
        ensures
            error::viewed(r) == if self.has(n as int) {
                Ok(())
            } else {
                Err(end_of_blob())
            },
    {
        if self.remaining() < n {
            return Err(lerc_err("unexpected end of LERC blob"));
        }
        Ok(())
    }

    /// The next byte.
    pub fn read_u8(&mut self) -> (r: Result<u8, LercError>)
        requires
            old(self).wf(),
        ensures
            old(self).advanced(final(self), 1),
            error::viewed(r) == if old(self).has(1) {
                Ok(old(self).buf@[old(self).pos as int])
            } else {
                Err(end_of_blob())
            },
    {
        self.need(1)?;
        let b: u8 = self.buf[self.pos];
        self.pos = self.pos + 1;
        Ok(b)
    }

    /// The next `n` bytes.
    pub fn read_bytes(&mut self, n: usize) -> (r: Result<&'a [u8], LercError>)
        requires
            old(self).wf(),
        ensures
            old(self).advanced(final(self), n as int),
            r is Ok <==> old(self).has(n as int),
            r matches Ok(s) ==> s@ == old(self).buf@.subrange(
                old(self).pos as int,
                old(self).pos + n,
            ),
            r matches Err(e) ==> e@ == end_of_blob(),
    {
        self.need(n)?;
        let all: &'a [u8] = self.buf;
        let s: &'a [u8] = &all[self.pos..self.pos + n];
        self.pos = self.pos + n;
        Ok(s)
    }

    /// The next word of `n` bytes.
    fn read_word(&mut self, n: usize) -> (r: Result<u64, LercError>)
        requires
            old(self).wf(),
            n <= 8,
        ensures
            old(self).advanced(final(self), n as int),
            r is Ok <==> old(self).has(n as int),
            r matches Ok(v) ==> v == word_at(old(self).buf@, old(self).pos as int, n as int) && v
                < pow2(8 * n as nat),
            r matches Err(e) ==> e@ == end_of_blob(),
    {
        let s: &[u8] = self.read_bytes(n)?;
        let v: u64 = bytes::get_word(s, 0, n, ByteOrder::Little);
        assert(s@.subrange(0, n as int) =~= s@);
        Ok(v)
    }

    /// The next 32-bit integer.
    pub fn read_i32(&mut self) -> (r: Result<i32, LercError>)
        requires
            old(self).wf(),
        ensures
            old(self).advanced(final(self), 4),
            error::viewed(r) == if old(self).has(4) {
                Ok(int_at(old(self).buf@, old(self).pos as int) as i32)
            } else {
                Err(end_of_blob())
            },
            r matches Ok(v) ==> v == int_at(old(self).buf@, old(self).pos as int),
    {
        let v: u64 = self.read_word(4)?;
        proof {
            lemma2_to64();
        }
        if v < 0x8000_0000 {
            Ok(v as i32)
        } else {
            Ok((v as i64 - 0x1_0000_0000) as i32)
        }
    }

    /// The next unsigned 32-bit integer.
    pub fn read_u32(&mut self) -> (r: Result<u32, LercError>)
        requires
            old(self).wf(),
        ensures
            old(self).advanced(final(self), 4),
            error::viewed(r) == if old(self).has(4) {
                Ok(word_at(old(self).buf@, old(self).pos as int, 4) as u32)
            } else {
                Err(end_of_blob())
            },
            r matches Ok(v) ==> v == word_at(old(self).buf@, old(self).pos as int, 4),
    {
        let v: u64 = self.read_word(4)?;
        proof {
            lemma2_to64();
        }
        Ok(v as u32)
    }

    /// The next unsigned 16-bit integer.
    pub fn read_u16(&mut self) -> (r: Result<u16, LercError>)
        requires
            old(self).wf(),
        ensures
            old(self).advanced(final(self), 2),
            error::viewed(r) == if old(self).has(2) {
                Ok(word_at(old(self).buf@, old(self).pos as int, 2) as u16)
            } else {
                Err(end_of_blob())
            },
            r matches Ok(v) ==> v == word_at(old(self).buf@, old(self).pos as int, 2),
    {
        let v: u64 = self.read_word(2)?;
        proof {
            lemma2_to64();
        }
        Ok(v as u16)
    }

    /// The next binary64 number.
    pub fn read_f64(&mut self) -> (r: Result<Binary64, LercError>)
        requires
            old(self).wf(),
        ensures
            old(self).advanced(final(self), 8),
            error::viewed(r) == if old(self).has(8) {
                Ok(double_at(old(self).buf@, old(self).pos as int))
            } else {
                Err(end_of_blob())
            },
    {
        let v: u64 = self.read_word(8)?;
        Ok(Binary64 { bits: v })
    }

    /// The next sample of type `dt`.
    pub fn read_variable(&mut self, dt: DataType) -> (r: Result<Binary64, LercError>)
        requires
            old(self).wf(),
        ensures
            old(self).advanced(final(self), dt.size_spec() as int),
            error::viewed(r) == if old(self).has(dt.size_spec() as int) {
                Ok(sample_at(old(self).buf@, old(self).pos as int, dt))
            } else {
                Err(end_of_blob())
            },
    {
        let s: &[u8] = self.read_bytes(dt.size())?;
        assert(s@.take(dt.size_spec() as int) =~= s@);
        Ok(sample::read_native_from_le(s, dt))
    }
}

} // verus!
