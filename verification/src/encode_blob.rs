//! How a blob is wrapped and served, and what is refused of a stream.
use std::borrow::Cow;

use vstd::arithmetic::power2::*;
use vstd::prelude::*;

use crate::blob;
use crate::blob::Payload;
use crate::bytes;
use crate::bytes::ByteOrder;
use crate::data_type;
use crate::data_type::DataType;
use crate::decoder::Lerc2Decoder;
use crate::encode;
use crate::encode_mask;
use crate::encode_stream;
use crate::encode_stream::Written;
use crate::error;
use crate::error::{Fault, LercError};
use crate::header;
use crate::header::HeaderInfo;
use crate::lerc_reader;
use crate::lerc_reader::LercReader;
use crate::mask::{BitMask, Validity};
use crate::reader;
use crate::reader::ByteReader;
use crate::sample;
use crate::wrapper;

verus! {

/// The first bytes of a LERC2 stream, the text "Lerc2 ".
pub open spec fn starts_lerc2(blob: Seq<u8>) -> bool {
    &&& blob.len() >= 6
    &&& blob[0] == 76
    &&& blob[1] == 101
    &&& blob[2] == 114
    &&& blob[3] == 99
    &&& blob[4] == 50
    &&& blob[5] == 32
}

/// The first bytes of a LERC1 stream, the text "CntZImage".
pub open spec fn starts_lerc1(blob: Seq<u8>) -> bool {
    &&& blob.len() >= 9
    &&& blob[0] == 67
    &&& blob[1] == 110
    &&& blob[2] == 116
    &&& blob[3] == 90
    &&& blob[4] == 73
    &&& blob[5] == 109
    &&& blob[6] == 97
    &&& blob[7] == 103
    &&& blob[8] == 101
}

/// The first bytes of a zstd frame, the 32-bit number 0xfd2fb528.
pub open spec fn starts_zstd(blob: Seq<u8>) -> bool {
    &&& blob.len() >= 4
    &&& blob[0] == 0x28
    &&& blob[1] == 0xb5
    &&& blob[2] == 0x2f
    &&& blob[3] == 0xfd
}

/// The first byte of a zlib stream with a window of 32768 bytes.
pub open spec fn starts_zlib(blob: Seq<u8>) -> bool {
    blob.len() >= 1 && blob[0] == 0x78
}

/// The first bytes of a blob say what it is: a LERC2 stream is taken as it is, a zstd frame
/// and a zlib stream are decompressed, with the name of the wrapper before the text of an
/// error, a LERC1 stream is not supported, and everything else is refused.
#[verifier::rlimit(30)]
pub proof fn law_first_bytes_say_the_wrapper(
    blob: Seq<u8>,
    zstd: Result<Seq<u8>, Seq<char>>,
    zlib: Result<Seq<u8>, Seq<char>>,
)
    ensures
        wrapper::stripped_with(blob, zstd, zlib) == if starts_lerc2(blob) {
            Ok::<Seq<u8>, Fault>(blob)
        } else if starts_lerc1(blob) {
            Err(Fault::UnsupportedCompression(34887))
        } else if starts_zstd(blob) {
            match zstd {
                Ok(stream) => Ok(stream),
                Err(text) => Err(Fault::InvalidData("LERC zstd wrapper: "@ + text)),
            }
        } else if starts_zlib(blob) {
            match zlib {
                Ok(stream) => Ok(stream),
                Err(text) => Err(Fault::InvalidData("LERC deflate wrapper: "@ + text)),
            }
        } else {
            Err(Fault::InvalidData("unrecognized LERC add-compression wrapper"@))
        },
{
    assert(starts_lerc2(blob) <==> header::lerc2_magic().is_prefix_of(blob)) by {
        if starts_lerc2(blob) {
            assert(header::lerc2_magic() =~= blob.subrange(0, 6));
        }
        if header::lerc2_magic().is_prefix_of(blob) {
            let s = blob.subrange(0, 6);
            assert(s == header::lerc2_magic());
            assert(s[0] == 76 && s[1] == 101 && s[2] == 114 && s[3] == 99 && s[4] == 50 && s[5]
                == 32);
        }
    }
    assert(starts_lerc1(blob) <==> header::lerc1_magic().is_prefix_of(blob)) by {
        if starts_lerc1(blob) {
            assert(header::lerc1_magic() =~= blob.subrange(0, 9));
        }
        if header::lerc1_magic().is_prefix_of(blob) {
            let s = blob.subrange(0, 9);
            assert(s == header::lerc1_magic());
            assert(s[0] == 67 && s[1] == 110 && s[2] == 116 && s[3] == 90 && s[4] == 73 && s[5]
                == 109 && s[6] == 97 && s[7] == 103 && s[8] == 101);
        }
    }
    assert(starts_zstd(blob) <==> wrapper::zstd_magic().is_prefix_of(blob)) by {
        if starts_zstd(blob) {
            assert(wrapper::zstd_magic() =~= blob.subrange(0, 4));
        }
        if wrapper::zstd_magic().is_prefix_of(blob) {
            let s = blob.subrange(0, 4);
            assert(s == wrapper::zstd_magic());
            assert(s[0] == 0x28 && s[1] == 0xb5 && s[2] == 0x2f && s[3] == 0xfd);
        }
    }
    assert(starts_zlib(blob) <==> wrapper::zlib_magic().is_prefix_of(blob)) by {
        if starts_zlib(blob) {
            assert(wrapper::zlib_magic() =~= blob.subrange(0, 1));
        }
        if wrapper::zlib_magic().is_prefix_of(blob) {
            let s = blob.subrange(0, 1);
            assert(s == wrapper::zlib_magic());
            assert(s[0] == 0x78);
        }
    }
}

/// A blob is decoded to the raster of what its wrapper holds, and what is wrong with the
/// wrapper is wrong with the blob.
pub proof fn law_blobs_are_unwrapped(blob: Seq<u8>, order: ByteOrder)
    ensures
        ({
            let zstd = wrapper::zstd_decoded(blob);
            let zlib = wrapper::zlib_decoded(blob);
            blob::decoded(blob, order) == if starts_lerc2(blob) {
                blob::raster_of(blob, order)
            } else if starts_lerc1(blob) {
                Err(Fault::UnsupportedCompression(34887))
            } else if starts_zstd(blob) {
                match zstd {
                    Ok(stream) => blob::raster_of(stream, order),
                    Err(text) => Err(Fault::InvalidData("LERC zstd wrapper: "@ + text)),
                }
            } else if starts_zlib(blob) {
                match zlib {
                    Ok(stream) => blob::raster_of(stream, order),
                    Err(text) => Err(Fault::InvalidData("LERC deflate wrapper: "@ + text)),
                }
            } else {
                Err(Fault::InvalidData("unrecognized LERC add-compression wrapper"@))
            }
        }),
{
    law_first_bytes_say_the_wrapper(
        blob,
        wrapper::zstd_decoded(blob),
        wrapper::zlib_decoded(blob),
    );
}

/// What decompressing gives on its own: the bytes, or the text of the error after the name
/// of the wrapper.
pub proof fn law_wrappers_name_themselves(bytes: Seq<u8>, text: Seq<char>)
    ensures
        wrapper::unwrapped_zstd(Ok(bytes)) == Ok::<Seq<u8>, Fault>(bytes),
        wrapper::unwrapped_zlib(Ok(bytes)) == Ok::<Seq<u8>, Fault>(bytes),
        wrapper::unwrapped_zstd(Err(text)) == Err::<Seq<u8>, Fault>(
            Fault::InvalidData("LERC zstd wrapper: "@ + text),
        ),
        wrapper::unwrapped_zlib(Err(text)) == Err::<Seq<u8>, Fault>(
            Fault::InvalidData("LERC deflate wrapper: "@ + text),
        ),
{
}

/// A source is cut after `n` bytes, or not at all where it has fewer: byte by byte, the
/// first part is its start and the other one what follows, and none is lost.
pub proof fn law_sources_are_cut(source: Seq<u8>, n: int, i: int)
    requires
        0 <= n,
        0 <= i < source.len(),
    ensures
        ({
            let start = lerc_reader::first(source, n);
            let rest = lerc_reader::after_first(source, n);
            &&& start.len() + rest.len() == source.len()
            &&& start.len() == n || (start.len() == source.len() && source.len() < n)
            &&& i < n ==> i < start.len() && start[i] == source[i]
            &&& n <= i ==> i - n < rest.len() && rest[i - n] == source[i]
        }),
{
}

/// The byte order of the machine is the one that its words have in memory.
pub proof fn law_machine_order_is_that_of_its_words()
    ensures
        vstd::endian::endianness() is Little ==> bytes::machine_order() is Little,
        vstd::endian::endianness() is Big ==> bytes::machine_order() is Big,
{
}

/// The limits of a raster are those of memory and of counting: the bytes of the raster are
/// not more than a slice can have, and where it is tiled the last row and column of its
/// tiles, counted as if no tile were cut, is a 32-bit integer.
#[verifier::rlimit(30)]
pub proof fn law_limits_are_those_of_memory(w: Written, rest: Seq<u8>)
    requires
        w.is_raster(),
        w.hd.blob_size <= w.bytes().len() + rest.len(),
    ensures
        ({
            let tiled = {
                &&& encode_mask::count(w.valid) > 0
                &&& !w.is_constant()
                &&& !w.is_flat()
                &&& rest.len() > 0 && rest[0] == 0
                &&& w.has_huffman_flag() ==> rest.len() > 1 && rest[1] == 0
            };
            blob::within_limits_spec(w.bytes() + rest) <==> {
                &&& w.hd.n_rows * w.hd.n_cols * w.hd.n_depth * encode_stream::type_size(w.hd.dt)
                    <= isize::MAX
                &&& tiled ==> w.hd.n_rows + w.hd.micro_block_size - 1 <= 0x7fff_ffff && w.hd.n_cols
                    + w.hd.micro_block_size - 1 <= 0x7fff_ffff
            }
        }),
{
    encode_stream::law_opening_is_read_back(w, rest);
}

/// Streams with a header that is refused have no limits.
pub proof fn law_refused_headers_have_no_limits(stream: Seq<u8>)
    requires
        header::header_at(stream, 0) is Err,
    ensures
        blob::within_limits_spec(stream),
{
}

/// A stream that is shorter than its header says is refused, and one that is as long or
/// longer is not refused for that.
pub proof fn law_short_streams_are_refused(stream: Seq<u8>, hd: HeaderInfo, order: ByteOrder)
    requires
        header::header_at(stream, 0) == Ok::<HeaderInfo, Fault>(hd),
    ensures
        stream.len() < hd.blob_size ==> blob::raster_of(stream, order) == Err::<Seq<u8>, Fault>(
            Fault::InvalidData("LERC2 blob shorter than declared size"@),
        ) && blob::within_limits_spec(stream),
        stream.len() >= hd.blob_size ==> blob::whole_header(stream) == Ok::<HeaderInfo, Fault>(hd),
{
}

/// What is wrong with a header is wrong with its stream.
pub proof fn law_faults_of_headers_are_reported(stream: Seq<u8>, fault: Fault, order: ByteOrder)
    requires
        header::header_at(stream, 0) == Err::<HeaderInfo, Fault>(fault),
    ensures
        blob::raster_of(stream, order) == Err::<Seq<u8>, Fault>(fault),
{
}

/// A header is read where it stands: what comes before it has no influence.
#[verifier::rlimit(30)]
pub proof fn law_headers_are_read_where_they_stand(before: Seq<u8>, s: Seq<u8>)
    ensures
        header::header_at(before + s, before.len() as int) == header::header_at(s, 0),
        header::header_end(before + s, before.len() as int) == before.len() + header::header_end(
            s,
            0,
        ),
{
    let buf = before + s;
    let pos = before.len() as int;
    assert forall|a: int, b: int| 0 <= a <= b <= s.len() implies #[trigger] s.subrange(a, b)
        == buf.subrange(pos + a, pos + b) by {
        assert(s.subrange(a, b) =~= buf.subrange(pos + a, pos + b));
    }
    if s.len() >= 10 {
        assert(s.subrange(0, 6) == buf.subrange(pos + 0, pos + 6));
        assert(s.subrange(6, 10) == buf.subrange(pos + 6, pos + 10));
        let version = reader::int_at(s, 6);
        assert(version == reader::int_at(buf, pos + 6));
        if 1 <= version <= 6 && s.len() >= header::header_len(version) {
            let size = 10 + header::checksum_len(version);
            let rest = size + 8 + header::depth_len(version);
            let numbers = rest + 16 + header::flags_len(version);
            assert(s.subrange(size, size + 4) == buf.subrange(pos + size, pos + (size + 4)));
            assert(s.subrange(size + 4, size + 8) == buf.subrange(
                pos + (size + 4),
                pos + (size + 8),
            ));
            assert(version >= 4 ==> s.subrange(size + 8, size + 12) == buf.subrange(
                pos + (size + 8),
                pos + (size + 12),
            ));
            assert(s.subrange(rest, rest + 4) == buf.subrange(pos + rest, pos + (rest + 4)));
            assert(s.subrange(rest + 4, rest + 8) == buf.subrange(
                pos + (rest + 4),
                pos + (rest + 8),
            ));
            assert(s.subrange(rest + 8, rest + 12) == buf.subrange(
                pos + (rest + 8),
                pos + (rest + 12),
            ));
            assert(s.subrange(rest + 12, rest + 16) == buf.subrange(
                pos + (rest + 12),
                pos + (rest + 16),
            ));
            assert(s.subrange(numbers, numbers + 8) == buf.subrange(
                pos + numbers,
                pos + (numbers + 8),
            ));
            assert(s.subrange(numbers + 8, numbers + 16) == buf.subrange(
                pos + (numbers + 8),
                pos + (numbers + 16),
            ));
            assert(s.subrange(numbers + 16, numbers + 24) == buf.subrange(
                pos + (numbers + 16),
                pos + (numbers + 24),
            ));
        }
    } else if s.len() >= 6 {
        assert(s.subrange(0, 6) == buf.subrange(pos + 0, pos + 6));
    }
}

/// A type is found by its number and by no other, and other numbers find none.
pub proof fn law_numbers_name_types(dt: DataType, code: int)
    ensures
        DataType::of_code(code) == Some(dt) <==> encode::type_number(dt) == code,
        DataType::of_code(code) is None <==> code < 0 || code > 7,
{
}

/// Reductions count down: to the type whose number is as many less as the reduction says
/// for signed integers, twice as many for unsigned ones, and from 8 on for binary64 numbers;
/// binary32 numbers are reduced to 16-bit integers and then to bytes, and bytes to
/// themselves.
pub proof fn law_reductions_count_down(dt: DataType, tc: int, used: DataType)
    ensures
        ({
            let result = data_type::reduced_type(dt, tc);
            let number = match dt {
                DataType::Short | DataType::Int => encode::type_number(dt) - tc,
                DataType::UShort | DataType::UInt => encode::type_number(dt) - 2 * tc,
                DataType::Double => if tc == 0 {
                    7
                } else {
                    8 - 2 * tc
                },
                DataType::Float => if tc == 0 {
                    6
                } else if tc == 1 {
                    2
                } else {
                    1
                },
                DataType::Char | DataType::Byte => encode::type_number(dt),
            };
            &&& result == Some(used) <==> encode::type_number(used) == number
            &&& result is None <==> number < 0 || number > 7
        }),
{
}

/// The limits of any stream whose header is accepted: those of its raster, and where it is
/// known to be tiled those of its tiles.
pub proof fn law_limits_hold_of_all_streams(stream: Seq<u8>, hd: HeaderInfo)
    requires
        header::header_at(stream, 0) == Ok::<HeaderInfo, Fault>(hd),
        hd.blob_size <= stream.len(),
    ensures
        ({
            let opening = blob::opening(hd, stream);
            blob::within_limits_spec(stream) <==> {
                &&& hd.n_rows * hd.n_cols * hd.n_depth * encode_stream::type_size(hd.dt)
                    <= isize::MAX
                &&& opening is Ok && opening->Ok_0.payload == Payload::Tiles ==> hd.n_rows
                    + hd.micro_block_size - 1 <= 0x7fff_ffff && hd.n_cols + hd.micro_block_size - 1
                    <= 0x7fff_ffff
            }
        }),
{
}

/// The limits of a blob are those of the stream that its wrapper holds; where there is none
/// it has no limits.
pub proof fn law_limits_of_blobs_are_those_of_their_streams(blob: Seq<u8>)
    ensures
        ({
            let zstd = wrapper::zstd_decoded(blob);
            let zlib = wrapper::zlib_decoded(blob);
            blob::blob_within_limits(blob) == if starts_lerc2(blob) {
                blob::within_limits_spec(blob)
            } else if starts_lerc1(blob) {
                true
            } else if starts_zstd(blob) {
                zstd is Ok ==> blob::within_limits_spec(zstd->Ok_0)
            } else if starts_zlib(blob) {
                zlib is Ok ==> blob::within_limits_spec(zlib->Ok_0)
            } else {
                true
            }
        }),
{
    law_first_bytes_say_the_wrapper(
        blob,
        wrapper::zstd_decoded(blob),
        wrapper::zlib_decoded(blob),
    );
}

/// What contracts say about errors and results hides nothing of them.
pub proof fn law_errors_are_seen_whole(
    text: String,
    tag: u16,
    error: LercError,
    bytes: Vec<u8>,
    prefix: Seq<char>,
)
    ensures
        LercError::InvalidData(text)@ == Fault::InvalidData(text@),
        LercError::UnsupportedCompression(tag)@ == Fault::UnsupportedCompression(tag),
        error::viewed(Ok::<u16, LercError>(tag)) == Ok::<u16, Fault>(tag),
        error::viewed(Err::<u16, LercError>(error)) == Err::<u16, Fault>(error@),
        error::contents(Ok(bytes)) == Ok::<Seq<u8>, Fault>(bytes@),
        error::contents(Err(error)) == Err::<Seq<u8>, Fault>(error@),
        wrapper::decompressed(Ok(bytes)) == Ok::<Seq<u8>, Seq<char>>(bytes@),
        wrapper::decompressed(Err(text)) == Err::<Seq<u8>, Seq<char>>(text@),
        wrapper::reported(prefix, Ok(bytes@)) == Ok::<Seq<u8>, Fault>(bytes@),
        wrapper::reported(prefix, Err(text@)) == Err::<Seq<u8>, Fault>(
            Fault::InvalidData(prefix + text@),
        ),
        lerc_reader::viewed_reader(Err(error)) == Err::<Seq<u8>, Fault>(error@),
        wrapper::viewed_cow(Err(error)) == Err::<Seq<u8>, Fault>(error@),
{
}

/// What contracts say about a reader and about the bytes of a stream hides nothing of them.
pub proof fn law_readers_are_seen_whole(reader: LercReader, stream: Cow<'_, [u8]>)
    ensures
        lerc_reader::viewed_reader(Ok(reader)) == Ok::<Seq<u8>, Fault>(reader@),
        wrapper::viewed_cow(Ok(stream)) == Ok::<Seq<u8>, Fault>(stream@),
{
}

/// What contracts say about a mask and a decoder hides nothing of them but the bits of a
/// mask without invalid pixels.
pub proof fn law_decoders_are_seen_whole(dec: Lerc2Decoder, mask: BitMask)
    ensures
        mask.all_valid ==> mask@ is All,
        !mask.all_valid ==> mask@ is Bits && mask@->Bits_0 == mask.bits@,
        dec@.hd == dec.hd,
        dec@.mask == dec.mask@,
        dec@.z_min == dec.z_min_vec@,
        dec@.z_max == dec.z_max_vec@,
{
}

/// All pixels of a mask without bits are valid, and it covers any number of them; one with
/// bits covers eight for each byte.
pub proof fn law_masks_cover_their_bits(bits: Seq<u8>, k: int, n: int)
    ensures
        Validity::All.valid(k),
        Validity::All.covers(n),
        Validity::Bits(bits).covers(n) <==> n <= 8 * bits.len(),
{
}

/// Reading moves past what was read where all of it is there, and does not move where it is
/// not.
pub proof fn law_reading_moves_past_what_was_read(
    before: ByteReader<'_>,
    after: ByteReader<'_>,
    n: int,
)
    requires
        0 <= n,
        before.advanced(&after, n),
    ensures
        after.buf == before.buf,
        before.pos + n <= before.buf@.len() ==> after.pos == before.pos + n && before.has(n),
        before.pos + n > before.buf@.len() ==> after.pos == before.pos && !before.has(n),
        after.pos <= after.buf@.len(),
{
}

/// Words and numbers are read where they stand as they are written, the least significant
/// byte first.
pub proof fn law_words_are_read_where_they_stand(
    before: Seq<u8>,
    after: Seq<u8>,
    v: nat,
    n: nat,
    i: int,
    dt: DataType,
)
    requires
        v < pow2(8 * n),
        i32::MIN <= i <= i32::MAX,
    ensures
        reader::word_at(before + encode::word(v, n) + after, before.len() as int, n as int) == v,
        reader::int_at(before + encode::int_word(i) + after, before.len() as int) == i,
        n == 8 ==> reader::double_at(
            before + encode::word(v, n) + after,
            before.len() as int,
        ).bits == v,
        n == encode_stream::type_size(dt) ==> reader::sample_at(
            before + encode::word(v, n) + after,
            before.len() as int,
            dt,
        ) == sample::stored_value(encode::word(v, n), dt),
{
    let at = before.len() as int;
    let word = encode::word(v, n);
    lemma2_to64();
    lemma2_to64_rest();
    encode::law_words_are_read_back(v, n);
    assert((before + word + after).subrange(at, at + n) =~= word);
    let int_word = encode::int_word(i);
    assert((before + int_word + after).subrange(at, at + 4) =~= int_word);
    encode::lemma_int(before + int_word + after, at, i);
}

/// Where the fields of a header end: the name, the version, from version 3 on the checksum,
/// rows, columns, from version 4 on the depth, valid pixels, block size, length and type,
/// from version 6 on two more, the three numbers, and from version 6 on two more.
pub open spec fn field_ends(version: int) -> Seq<int> {
    if version >= 6 {
        seq![6, 10, 14, 18, 22, 26, 30, 34, 38, 42, 46, 50, 58, 66, 74, 82, 90]
    } else if version >= 4 {
        seq![6, 10, 14, 18, 22, 26, 30, 34, 38, 42, 50, 58, 66]
    } else if version == 3 {
        seq![6, 10, 14, 18, 22, 26, 30, 34, 38, 46, 54, 62]
    } else {
        seq![6, 10, 14, 18, 22, 26, 30, 34, 42, 50, 58]
    }
}

/// Reading a header stops after the last field that the stream holds whole, after the name
/// where it is not that of a stream, and after the version where it is not one that is known.
#[verifier::rlimit(30)]
pub proof fn law_headers_are_read_field_by_field(s: Seq<u8>, n: int)
    requires
        ({
            let version = reader::int_at(s, 6);
            let ends = field_ends(version);
            s.len() >= 10 && 1 <= version <= 6 ==> 0 <= n < ends.len() && ends[n] <= s.len() && (n
                + 1 < ends.len() ==> s.len() < ends[n + 1])
        }),
    ensures
        ({
            let version = reader::int_at(s, 6);
            header::header_end(s, 0) == if s.len() < 6 {
                0
            } else if !starts_lerc2(s) || s.len() < 10 {
                6
            } else if version < 1 || version > 6 {
                10
            } else {
                field_ends(version)[n]
            }
        }),
{
    let version = reader::int_at(s, 6);
    if s.len() >= 6 {
        let name = s.subrange(0, 6);
        if starts_lerc2(s) {
            assert(name =~= header::lerc2_magic());
        }
        if name == header::lerc2_magic() {
            assert(name[0] == 76 && name[1] == 101 && name[2] == 114 && name[3] == 99 && name[4]
                == 50 && name[5] == 32);
        }
    }
}

} // verus!
