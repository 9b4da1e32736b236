//! From a blob to the raster that it holds.
use std::borrow::Cow;

use vstd::prelude::*;

use crate::binary64::Binary64;
use crate::bytes;
use crate::bytes::ByteOrder;
use crate::data_type::DataType;
use crate::decoder;
use crate::decoder::{Decoding, Lerc2Decoder};
use crate::error;
use crate::error::{lerc_err, Fault, LercError};
use crate::fill;
use crate::header;
use crate::header::HeaderInfo;
use crate::mask::{BitMask, Validity};
use crate::reader;
use crate::reader::ByteReader;
use crate::tile::Progress;
use crate::wrapper;

verus! {

/// How the numbers of a raster are stored.
#[derive(Clone, Copy, Debug, PartialEq, Eq, Structural)]
pub enum Payload {
    /// No pixel is valid.
    Empty,
    /// All valid pixels are the same.
    Constant,
    /// All samples stand one after the other.
    Sweep,
    /// Tile by tile.
    Tiles,
}

/// What is known of a stream before its numbers are read, and where these start.
pub struct Opening {
    pub decoding: Decoding,
    pub payload: Payload,
    pub pos: int,
}

/// A raster of zeros.
pub open spec fn blank(hd: HeaderInfo) -> Seq<u8> {
    Seq::new(hd.raster_len() as nat, |i: int| 0u8)
}

/// The number 0.5.
pub open spec fn one_half() -> Binary64 {
    Binary64 { bits: 0x3fe0_0000_0000_0000 }
}

/// The number 0.
pub open spec fn zero() -> Binary64 {
    Binary64 { bits: 0 }
}

impl HeaderInfo {
    /// A byte before the tiles says whether they are Huffman-coded.
    pub open spec fn has_huffman_flag(&self) -> bool {
        ||| self.version >= 2 && (self.dt == DataType::Byte || self.dt == DataType::Char)
            && self.max_z_error.equals_spec(one_half())
        ||| self.version >= 6 && (self.dt == DataType::Float || self.dt == DataType::Double)
            && self.max_z_error.equals_spec(zero())
    }
}

impl Decoding {
    /// The decoding before anything but the header and the mask was read.
    pub open spec fn start(hd: HeaderInfo, mask: Validity) -> Decoding {
        Decoding { hd, mask, z_min: Seq::empty(), z_max: Seq::empty() }
    }

    /// The decoding after the ranges at `pos` were read.
    pub open spec fn with_ranges(self, buf: Seq<u8>, pos: int) -> Decoding {
        let n = self.hd.n_depth as nat;
        let size = self.hd.dt.size_spec();
        Decoding {
            z_min: decoder::samples_at(buf, pos, self.hd.dt, n),
            z_max: decoder::samples_at(buf, pos + n * size, self.hd.dt, n),
            ..self
        }
    }

    /// What the flags at `pos` say: whether the samples stand one after the other, or
    /// in tiles.
    pub open spec fn flags_at(self, buf: Seq<u8>, pos: int) -> Result<Opening, Fault> {
        if !reader::available(buf, pos, 1) {
            Err(reader::end_of_blob())
        } else if buf[pos] != 0 {
            Ok(Opening { decoding: self, payload: Payload::Sweep, pos: pos + 1 })
        } else if !self.hd.has_huffman_flag() {
            Ok(Opening { decoding: self, payload: Payload::Tiles, pos: pos + 1 })
        } else if !reader::available(buf, pos, 2) {
            Err(reader::end_of_blob())
        } else if buf[pos + 1] != 0 {
            Err(
                Fault::InvalidData(
                    "LERC2 Huffman-coded images are not supported by this decoder"@,
                ),
            )
        } else {
            Ok(Opening { decoding: self, payload: Payload::Tiles, pos: pos + 2 })
        }
    }
}

/// What stands at `pos`, between the header of a stream and its numbers: the mask,
/// from version 4 on the ranges, and the flags.
pub open spec fn opening_at(hd: HeaderInfo, buf: Seq<u8>, pos: int) -> Result<Opening, Fault> {
    let (mask, end) = decoder::mask_at(hd, buf, pos);
    match mask {
        Err(fault) => Err(fault),
        Ok(mask) => {
            let start = Decoding::start(hd, mask);
            let ranges_len = 2 * hd.n_depth * hd.dt.size_spec();
            let known = start.with_ranges(buf, end);
            if hd.num_valid_pixel == 0 {
                Ok(Opening { decoding: start, payload: Payload::Empty, pos: end })
            } else if hd.z_min.equals_spec(hd.z_max) {
                Ok(Opening { decoding: start, payload: Payload::Constant, pos: end })
            } else if hd.version < 4 {
                start.flags_at(buf, end)
            } else if !reader::available(buf, end, ranges_len) {
                Err(reader::end_of_blob())
            } else if known.is_flat() {
                Ok(Opening { decoding: known, payload: Payload::Constant, pos: end + ranges_len })
            } else {
                known.flags_at(buf, end + ranges_len)
            }
        },
    }
}

/// A raster that was filled, or the fault that stopped it.
pub open spec fn finished(after: Progress) -> Result<Seq<u8>, Fault> {
    match after.result {
        Ok(_) => Ok(after.out),
        Err(fault) => Err(fault),
    }
}

impl Opening {
    /// The raster whose numbers are stored in `buf`.
    pub open spec fn raster(self, buf: Seq<u8>, order: ByteOrder) -> Result<Seq<u8>, Fault> {
        let dec = self.decoding;
        let out = blank(dec.hd);
        match self.payload {
            Payload::Empty => Ok(out),
            Payload::Constant => Ok(
                fill::filled(dec.layout(order), out, dec.valid_pixels(), dec.constant_source()),
            ),
            Payload::Sweep => finished(dec.sweep_from(buf, self.pos, out, order)),
            Payload::Tiles => finished(
                dec.tiles_from(buf, self.pos, out, order, dec.hd.num_tiles() as nat),
            ),
        }
    }
}

/// The header of a stream that is as long as the header says.
pub open spec fn whole_header(stream: Seq<u8>) -> Result<HeaderInfo, Fault> {
    match header::header_at(stream, 0) {
        Err(fault) => Err(fault),
        Ok(hd) => if stream.len() < hd.blob_size {
            Err(Fault::InvalidData("LERC2 blob shorter than declared size"@))
        } else {
            Ok(hd)
        },
    }
}

/// What stands in a stream with the given header before its numbers.
pub open spec fn opening(hd: HeaderInfo, stream: Seq<u8>) -> Result<Opening, Fault> {
    opening_at(hd, stream, header::header_len(hd.version as int))
}

/// The raster of a LERC2 stream, its elements in the given byte order.
pub open spec fn raster_of(stream: Seq<u8>, order: ByteOrder) -> Result<Seq<u8>, Fault> {
    match whole_header(stream) {
        Err(fault) => Err(fault),
        Ok(hd) => match opening(hd, stream) {
            Err(fault) => Err(fault),
            Ok(opening) => opening.raster(stream, order),
        },
    }
}

/// The raster of a stream can be held in memory, and its tiles can be counted.
pub open spec fn within_limits_spec(stream: Seq<u8>) -> bool {
    whole_header(stream) matches Ok(hd) ==> {
        &&& hd.raster_len() <= isize::MAX
        &&& opening(hd, stream) matches Ok(opening) ==> opening.payload == Payload::Tiles
            ==> hd.has_tile_grid()
    }
}

/// The raster of a blob, its elements in the given byte order.
pub open spec fn decoded(blob: Seq<u8>, order: ByteOrder) -> Result<Seq<u8>, Fault> {
    match wrapper::stripped(blob) {
        Err(fault) => Err(fault),
        Ok(stream) => raster_of(stream, order),
    }
}

/// The stream of a blob is within the limits.
pub open spec fn blob_within_limits(blob: Seq<u8>) -> bool {
    wrapper::stripped(blob) matches Ok(stream) ==> within_limits_spec(stream)
}

/// Reads the flags (see `Decoding::flags_at`).
fn read_flags(dec: &Lerc2Decoder, r: &mut ByteReader) -> (res: Result<Payload, LercError>)
    requires
        old(r).wf(),
    ensures
        ({
            let flags = dec@.flags_at(old(r).buf@, old(r).pos as int);
            &&& final(r).wf()
            &&& final(r).buf == old(r).buf
            &&& match flags {
                Ok(opening) => res == Ok::<Payload, LercError>(opening.payload) && final(r).pos
                    == opening.pos,
                Err(fault) => error::viewed(res) == Err::<Payload, Fault>(fault),
            }
        }),
{
    let one_sweep: u8 = r.read_u8()?;
    if one_sweep != 0 {
        return Ok(Payload::Sweep);
    }
    let hd = &dec.hd;
    let huffman_int: bool = hd.version >= 2 && (hd.dt == DataType::Byte || hd.dt == DataType::Char)
        && hd.max_z_error.equals(Binary64 { bits: 0x3fe0_0000_0000_0000 });
    let huffman_flt: bool = hd.version >= 6 && (hd.dt == DataType::Float || hd.dt
        == DataType::Double) && hd.max_z_error.equals(Binary64 { bits: 0 });
    if huffman_int || huffman_flt {
        let flag: u8 = r.read_u8()?;
        if flag != 0 {
            return Err(
                lerc_err("LERC2 Huffman-coded images are not supported by this decoder"),
            );
        }
    }
    Ok(Payload::Tiles)
}

/// Reads what stands between the header of a stream and its numbers (see
/// `opening_at`).
fn read_opening(hd: HeaderInfo, r: &mut ByteReader) -> (res: Result<
    (Lerc2Decoder, Payload),
    LercError,
>)
    requires
        hd.wf(),
        old(r).wf(),
    ensures
        final(r).wf(),
        final(r).buf == old(r).buf,
        match opening_at(hd, old(r).buf@, old(r).pos as int) {
            Ok(opening) => {
                &&& res matches Ok((dec, payload))
                &&& dec@ == opening.decoding
                &&& dec@.wf()
                &&& dec@.hd == hd
                &&& payload == opening.payload
                &&& payload == Payload::Tiles ==> dec@.has_ranges()
                &&& final(r).pos == opening.pos
            },
            Err(fault) => res matches Err(e) && e@ == fault,
        },
{
    let mut dec = Lerc2Decoder {
        hd,
        mask: BitMask { bits: Vec::new(), all_valid: false },
        z_min_vec: Vec::new(),
        z_max_vec: Vec::new(),
    };
    dec.read_mask(r)?;
    assert(dec@.z_min =~= Seq::<Binary64>::empty());
    assert(dec@.z_max =~= Seq::<Binary64>::empty());
    if dec.hd.num_valid_pixel == 0 {
        return Ok((dec, Payload::Empty));
    }
    if dec.hd.z_min.equals(dec.hd.z_max) {
        return Ok((dec, Payload::Constant));
    }
    if dec.hd.version >= 4 {
        let ghost left = r.buf@.len() - r.pos;
        proof {
            lemma_room(left, 2 * hd.n_depth as int, hd.dt.size_spec() as int);
        }
        dec.read_min_max_ranges(r)?;
        assert(2 * hd.n_depth * hd.dt.size_spec() == (2 * hd.n_depth) * hd.dt.size_spec());
        if dec.check_min_max_equal() {
            return Ok((dec, Payload::Constant));
        }
    }
    let payload: Payload = read_flags(&dec, r)?;
    Ok((dec, payload))
}

/// Whether `n` items of `size` bytes fit into `left` bytes.
proof fn lemma_room(left: int, n: int, size: int)
    requires
        0 <= left,
        0 < size,
    ensures
        left / size >= n <==> n * size <= left,
{
    vstd::arithmetic::div_mod::lemma_fundamental_div_mod(left, size);
    vstd::arithmetic::div_mod::lemma_mod_bound(left, size);
    let q = left / size;
    if q >= n {
        assert(n * size <= size * q) by (nonlinear_arith)
            requires
                n <= q,
                size > 0,
        ;
    } else {
        assert(n * size >= size * q + size) by (nonlinear_arith)
            requires
                n >= q + 1,
                size > 0,
        ;
    }
}

/// Reads the header of a stream that is as long as the header says.
fn read_whole_header(r: &mut ByteReader) -> (res: Result<HeaderInfo, LercError>)
    requires
        old(r).wf(),
        old(r).pos == 0,
    ensures
        error::viewed(res) == whole_header(old(r).buf@),
        res matches Ok(hd) ==> hd.wf() && final(r).pos == header::header_len(hd.version as int),
        final(r).wf(),
        final(r).buf == old(r).buf,
{
    let hd: HeaderInfo = Lerc2Decoder::read_header(r)?;
    if r.buf.len() < hd.blob_size as usize {
        return Err(lerc_err("LERC2 blob shorter than declared size"));
    }
    Ok(hd)
}

/// Whether the raster of a stream can be held in memory and its tiles can be counted.
pub fn within_limits(stream: &[u8]) -> (r: bool)
    ensures
        r == within_limits_spec(stream@),
{
    let mut r = ByteReader::new(stream);
    let hd: HeaderInfo = match read_whole_header(&mut r) {
        Ok(hd) => hd,
        Err(_) => {
            return true;
        },
    };
    proof {
        lemma_raster_len(hd);
    }
    let pixels: u128 = hd.n_rows as u128 * hd.n_cols as u128;
    if pixels * hd.n_depth as u128 * hd.dt.size() as u128 > isize::MAX as u128 {
        return false;
    }
    if hd.n_rows - 1 <= i32::MAX - hd.micro_block_size && hd.n_cols - 1 <= i32::MAX
        - hd.micro_block_size {
        return true;
    }
    match read_opening(hd, &mut r) {
        Ok((_, Payload::Tiles)) => false,
        _ => true,
    }
}

/// The length of a raster is positive and cannot be very large.
pub proof fn lemma_raster_len(hd: HeaderInfo)
    requires
        hd.wf(),
    ensures
        1 <= hd.num_pixels() <= 0x7fff_ffff,
        hd.num_pixels() <= hd.num_pixels() * hd.n_depth <= hd.raster_len(),
        hd.num_pixels() * hd.n_depth <= 0x7fff_ffff * 0x7fff_ffff,
        hd.raster_len() <= 0x7fff_ffff * 0x7fff_ffff * 8,
{
    let n = hd.num_pixels();
    assert(hd.n_rows * hd.n_cols >= 1) by (nonlinear_arith)
        requires
            hd.n_rows >= 1,
            hd.n_cols >= 1,
    ;
    assert(n <= n * hd.n_depth <= 0x7fff_ffff * 0x7fff_ffff) by (nonlinear_arith)
        requires
            1 <= n <= 0x7fff_ffff,
            1 <= hd.n_depth <= 0x7fff_ffff,
    ;
    let m = n * hd.n_depth;
    assert(m <= m * hd.dt.size_spec() <= m * 8) by (nonlinear_arith)
        requires
            m >= 0,
            1 <= hd.dt.size_spec() <= 8,
    ;
}

/// Decodes a LERC2 stream to the bytes of its raster, its elements in the given byte
/// order.
pub fn decode_lerc2(stream: &[u8], order: ByteOrder) -> (res: Result<Vec<u8>, LercError>)
    requires
        within_limits_spec(stream@),
    ensures
        error::contents(res) == raster_of(stream@, order),
{
    let mut r = ByteReader::new(stream);
    let hd: HeaderInfo = read_whole_header(&mut r)?;
    proof {
        lemma_raster_len(hd);
    }
    let out_elems: usize = hd.n_rows as usize * hd.n_cols as usize * hd.n_depth as usize;
    let mut out: Vec<u8> = vec![0u8; out_elems * hd.dt.size()];
    assert(out@ =~= blank(hd));
    let (dec, payload) = read_opening(hd, &mut r)?;
    match payload {
        Payload::Empty => Ok(out),
        Payload::Constant => {
            dec.fill_const_image(&mut out, order);
            Ok(out)
        },
        Payload::Sweep => {
            dec.read_data_one_sweep(&mut r, &mut out, order)?;
            Ok(out)
        },
        Payload::Tiles => {
            dec.read_tiles(&mut r, &mut out, order)?;
            Ok(out)
        },
    }
}

/// Decodes a blob to the bytes of its raster, its elements in the byte order of the
/// machine.
pub fn decode_lerc_blob(blob: &[u8]) -> (res: Result<Vec<u8>, LercError>)
    requires
        blob_within_limits(blob@),
    ensures
        error::contents(res) == decoded(blob@, bytes::machine_order()),
{
    let order: ByteOrder = bytes::native_order();
    let stripped: Cow<'_, [u8]> = wrapper::strip_add_compression(blob)?;
    decode_lerc2(wrapper::bytes_of(&stripped), order)
}

/// Whether the stream of a blob is within the limits.
pub fn can_decode(blob: &[u8]) -> (r: bool)
    ensures
        r == blob_within_limits(blob@),
{
    match wrapper::strip_add_compression(blob) {
        Ok(stream) => within_limits(wrapper::bytes_of(&stream)),
        Err(_) => true,
    }
}

/// Decodes a blob as `decode_lerc_blob` does, or gives `None` where the raster cannot
/// be held in memory or its tiles cannot be counted.
pub fn try_decode(blob: &[u8]) -> (res: Option<Result<Vec<u8>, LercError>>)
    ensures
        res is None <==> !blob_within_limits(blob@),
        res matches Some(r) ==> error::contents(r) == decoded(blob@, bytes::machine_order()),
{
    if can_decode(blob) {
        Some(decode_lerc_blob(blob))
    } else {
        None
    }
}

} // verus!
