//! A decoded blob, served in parts.
use vstd::prelude::*;

use crate::blob;
use crate::bytes;
use crate::error::{Fault, LercError};

verus! {

/// The bytes of a decoded raster that were not read yet.
#[derive(Debug)]
pub struct LercReader {
    decoded: Vec<u8>,
    pos: usize,
}

impl View for LercReader {
    type V = Seq<u8>;

    closed spec fn view(&self) -> Seq<u8> {
        self.decoded@.skip(self.pos as int)
    }
}

/// A result with its reader and its error taken by their views.
pub open spec fn viewed_reader(r: Result<LercReader, LercError>) -> Result<Seq<u8>, Fault> {
    match r {
        Ok(reader) => Ok(reader@),
        Err(error) => Err(error@),
    }
}

/// The first bytes of a source, at most `n` of them.
pub open spec fn first(source: Seq<u8>, n: int) -> Seq<u8> {
    if n <= source.len() {
        source.take(n)
    } else {
        source
    }
}

/// What is left of a source after its first bytes, at most `n` of them.
pub open spec fn after_first(source: Seq<u8>, n: int) -> Seq<u8> {
    if n <= source.len() {
        source.skip(n)
    } else {
        Seq::empty()
    }
}

/// What reads into buffers of the given lengths give, one after the other, and what
/// is left after them.
pub open spec fn reads(rest: Seq<u8>, lens: Seq<nat>) -> (Seq<u8>, Seq<u8>)
    decreases lens.len(),
{
    if lens.len() == 0 {
        (Seq::empty(), rest)
    } else {
        let n = lens[0] as int;
        let (given, left) = reads(after_first(rest, n), lens.drop_first());
        (first(rest, n) + given, left)
    }
}

/// The sum of lengths.
pub open spec fn total(lens: Seq<nat>) -> nat
    decreases lens.len(),
{
    if lens.len() == 0 {
        0
    } else {
        lens[0] + total(lens.drop_first())
    }
}

/// However a raster is read, the parts make up its first bytes, as many as the buffers
/// have room for, and what is left are the others: no byte is lost, repeated or moved.
pub proof fn law_reads_make_up_the_raster(rest: Seq<u8>, lens: Seq<nat>)
    ensures
        reads(rest, lens).0 == first(rest, total(lens) as int),
        reads(rest, lens).1 == after_first(rest, total(lens) as int),
        reads(rest, lens).0 + reads(rest, lens).1 == rest,
    decreases lens.len(),
{
    if lens.len() > 0 {
        law_reads_make_up_the_raster(after_first(rest, lens[0] as int), lens.drop_first());
    }
    assert(reads(rest, lens).0 =~= first(rest, total(lens) as int));
    assert(reads(rest, lens).1 =~= after_first(rest, total(lens) as int));
    assert(reads(rest, lens).0 + reads(rest, lens).1 =~= rest);
}

impl LercReader {
    #[verifier::type_invariant]
    spec fn inv(self) -> bool {
        self.pos <= self.decoded@.len()
    }

    /// A reader of decoded bytes.
    fn of(decoded: Vec<u8>) -> (r: LercReader)
        ensures
            r@ == decoded@,
    {
        let r = LercReader { decoded, pos: 0 };
        assert(r@ =~= decoded@);
        r
    }

    /// Decodes the blob that the first bytes of a source are, at most
    /// `compressed_length` of them.
    pub fn new(source: &[u8], compressed_length: u64) -> (res: Result<LercReader, LercError>)
        requires
            blob::blob_within_limits(first(source@, compressed_length as int)),
        ensures
            viewed_reader(res) == blob::decoded(
                first(source@, compressed_length as int),
                bytes::machine_order(),
            ),
    {
        let blob: &[u8] = first_bytes(source, compressed_length);
        let decoded: Vec<u8> = blob::decode_lerc_blob(blob)?;
        Ok(LercReader::of(decoded))
    }

    /// Decodes a blob as `new` does, or gives `None` where the raster cannot be held in
    /// memory or its tiles cannot be counted.
    pub fn try_new(source: &[u8], compressed_length: u64) -> (res: Option<
        Result<LercReader, LercError>,
    >)
        ensures
            res is None <==> !blob::blob_within_limits(first(source@, compressed_length as int)),
            res matches Some(r) ==> viewed_reader(r) == blob::decoded(
                first(source@, compressed_length as int),
                bytes::machine_order(),
            ),
    {
        if blob::can_decode(first_bytes(source, compressed_length)) {
            Some(LercReader::new(source, compressed_length))
        } else {
            None
        }
    }

    /// Copies the next bytes of the raster to `buf`, as many as there are and as fit,
    /// and says how many they are.
    pub fn read(&mut self, buf: &mut [u8]) -> (n: usize)
        ensures
            ({
                let given = first(old(self)@, old(buf)@.len() as int);
                &&& n == given.len()
                &&& final(buf)@ == bytes::overwritten(old(buf)@, 0, given)
                &&& final(self)@ == after_first(old(self)@, old(buf)@.len() as int)
            }),
    {
        proof {
            use_type_invariant(&*self);
        }
        let left: usize = self.decoded.len() - self.pos;
        let n: usize = if buf.len() <= left {
            buf.len()
        } else {
            left
        };
        let part: &[u8] = &self.decoded.as_slice()[self.pos..self.pos + n];
        assert(part@ =~= first(self@, buf@.len() as int));
        bytes::copy_to(buf, 0, part);
        self.pos = self.pos + n;
        assert(self@ =~= after_first(old(self)@, old(buf)@.len() as int));
        n
    }
}

/// The first bytes of a source, at most `n` of them.
fn first_bytes(source: &[u8], n: u64) -> (part: &[u8])
    ensures
        part@ == first(source@, n as int),
{
    if n <= source.len() as u64 {
        &source[0..n as usize]
    } else {
        source
    }
}

} // verus!
