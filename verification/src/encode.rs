//! How the parts of a stream are written, and that reading them undoes it.
use vstd::arithmetic::div_mod::*;
use vstd::arithmetic::power2::*;
use vstd::prelude::*;

use crate::binary64::Binary64;
use crate::bytes;
use crate::bytes::ByteOrder;
use crate::data_type::DataType;
use crate::error::Fault;
use crate::header;
use crate::header::HeaderInfo;
use crate::reader;

verus! {

/// A number written in `n` bytes, the least significant one first.
pub open spec fn word(v: nat, n: nat) -> Seq<u8> {
    Seq::new(n, |i: int| (v / pow2((8 * i) as nat) % 256) as u8)
}

/// A 32-bit integer written in four bytes, in two's complement.
pub open spec fn int_word(v: int) -> Seq<u8> {
    word(
        (if v < 0 {
            v + 0x1_0000_0000
        } else {
            v
        }) as nat,
        4,
    )
}

/// Writing digit by digit and writing the least digit first are the same.
pub proof fn lemma_word(v: nat, n: nat)
    ensures
        word(v, n) == bytes::le_bytes(v, n),
    decreases n,
{
    bytes::lemma_le_bytes_len(v, n);
    if n > 0 {
        lemma_word(v / 256, (n - 1) as nat);
        lemma2_to64();
        assert forall|i: int| 0 <= i < n implies #[trigger] word(v, n)[i] == bytes::le_bytes(
            v,
            n,
        )[i] by {
            if i == 0 {
                lemma_div_basics(v as int);
            } else {
                let j = (i - 1) as nat;
                lemma_pow2_adds(8, 8 * j);
                lemma_pow2_pos(8 * j);
                lemma_div_denominator(v as int, 256, pow2(8 * j) as int);
                assert(8 * i == 8 + 8 * j);
                assert(word(v / 256, (n - 1) as nat)[j as int] == word(v, n)[i]);
            }
        }
    }
    assert(word(v, n) =~= bytes::le_bytes(v, n));
}

/// Words are read as they are written: in little-endian order digit `i` of base 256 is byte
/// `i`, in big-endian order it is byte `i` from the end, and reading gives the number back.
pub proof fn law_words_are_read_back(v: nat, n: nat)
    requires
        v < pow2(8 * n),
    ensures
        bytes::le_value(word(v, n)) == v,
        bytes::value_of(word(v, n), ByteOrder::Little) == v,
        bytes::value_of(word(v, n).reverse(), ByteOrder::Big) == v,
        bytes::bytes_of(v, n, ByteOrder::Little) == word(v, n),
        bytes::bytes_of(v, n, ByteOrder::Big) == word(v, n).reverse(),
{
    lemma_word(v, n);
    bytes::law_value_of_bytes(v, n, ByteOrder::Little);
    assert(word(v, n).reverse().reverse() =~= word(v, n));
}

/// Writing over a part of a sequence changes that part and nothing else.
pub proof fn law_overwriting_changes_one_part(out: Seq<u8>, at: int, part: Seq<u8>)
    requires
        0 <= at,
        at + part.len() <= out.len(),
    ensures
        bytes::overwritten(out, at, part) == out.take(at) + part + out.skip(at + part.len()),
{
    assert(bytes::overwritten(out, at, part) =~= out.take(at) + part + out.skip(at + part.len()));
}

/// An integer that was written is read back.
pub proof fn lemma_int(buf: Seq<u8>, pos: int, v: int)
    requires
        0 <= pos,
        pos + 4 <= buf.len(),
        i32::MIN <= v <= i32::MAX,
        buf.subrange(pos, pos + 4) == int_word(v),
    ensures
        reader::int_at(buf, pos) == v,
{
    lemma2_to64();
    law_words_are_read_back(
        (if v < 0 {
            v + 0x1_0000_0000
        } else {
            v
        }) as nat,
        4,
    );
}

/// A binary64 number that was written is read back.
pub proof fn lemma_double(buf: Seq<u8>, pos: int, z: Binary64)
    requires
        0 <= pos,
        pos + 8 <= buf.len(),
        buf.subrange(pos, pos + 8) == word(z.bits as nat, 8),
    ensures
        reader::double_at(buf, pos) == z,
{
    lemma2_to64_rest();
    law_words_are_read_back(z.bits as nat, 8);
}

/// What a header holds beside the fields that the decoder needs.
pub struct Extras {
    pub checksum: u32,
    pub blobs_more: i32,
    pub flags: u32,
    pub no_data: u64,
    pub no_data_orig: u64,
}

/// The number that stands for a data type in a header.
pub open spec fn type_number(dt: DataType) -> int {
    match dt {
        DataType::Char => 0,
        DataType::Byte => 1,
        DataType::Short => 2,
        DataType::UShort => 3,
        DataType::Int => 4,
        DataType::UInt => 5,
        DataType::Float => 6,
        DataType::Double => 7,
    }
}

/// The bytes `Lerc2 `.
pub open spec fn magic() -> Seq<u8> {
    seq![76u8, 101u8, 114u8, 99u8, 50u8, 32u8]
}

/// The start of a header: the magic, the version, and from version 3 on the checksum.
pub open spec fn header_start(version: int, extras: Extras) -> Seq<u8> {
    magic() + int_word(version) + if version >= 3 {
        word(extras.checksum as nat, 4)
    } else {
        Seq::empty()
    }
}

/// The size of the raster: rows, columns, and from version 4 on the depth.
pub open spec fn header_size(hd: HeaderInfo) -> Seq<u8> {
    int_word(hd.n_rows as int) + int_word(hd.n_cols as int) + if hd.version >= 4 {
        int_word(hd.n_depth as int)
    } else {
        Seq::empty()
    }
}

/// The number of valid pixels, the size of a tile, the size of the blob and the data type,
/// and from version 6 on what the decoder does not need.
pub open spec fn header_counts(hd: HeaderInfo, type_code: int, extras: Extras) -> Seq<u8> {
    int_word(hd.num_valid_pixel as int) + int_word(hd.micro_block_size as int) + int_word(
        hd.blob_size as int,
    ) + int_word(type_code) + if hd.version >= 6 {
        int_word(extras.blobs_more as int) + word(extras.flags as nat, 4)
    } else {
        Seq::empty()
    }
}

/// The largest error, the least and the greatest number, and from version 6 on what the
/// decoder does not need.
pub open spec fn header_numbers(hd: HeaderInfo, extras: Extras) -> Seq<u8> {
    word(hd.max_z_error.bits as nat, 8) + word(hd.z_min.bits as nat, 8) + word(
        hd.z_max.bits as nat,
        8,
    ) + if hd.version >= 6 {
        word(extras.no_data as nat, 8) + word(extras.no_data_orig as nat, 8)
    } else {
        Seq::empty()
    }
}

/// A header.
pub open spec fn header_bytes(hd: HeaderInfo, type_code: int, extras: Extras) -> Seq<u8> {
    header_start(hd.version as int, extras) + header_size(hd) + header_counts(
        hd,
        type_code,
        extras,
    ) + header_numbers(hd, extras)
}

/// The part of a concatenation that is its second piece.
pub proof fn lemma_second(a: Seq<u8>, b: Seq<u8>, c: Seq<u8>, buf: Seq<u8>)
    requires
        buf == a + b + c,
    ensures
        buf.subrange(a.len() as int, (a.len() + b.len()) as int) == b,
        forall|i: int, j: int|
            0 <= i <= j <= b.len() ==> #[trigger] b.subrange(i, j) == buf.subrange(
                a.len() + i,
                a.len() + j,
            ),
{
    assert(buf.subrange(a.len() as int, (a.len() + b.len()) as int) =~= b);
    assert forall|i: int, j: int| 0 <= i <= j <= b.len() implies #[trigger] b.subrange(i, j)
        == buf.subrange(a.len() + i, a.len() + j) by {
        assert(b.subrange(i, j) =~= buf.subrange(a.len() + i, a.len() + j));
    }
}

/// The start of a header that was written.
proof fn lemma_header_start(version: int, extras: Extras, after: Seq<u8>)
    requires
        1 <= version <= 6,
    ensures
        ({
            let buf = header_start(version, extras) + after;
            &&& header_start(version, extras).len() == 10 + header::checksum_len(version)
            &&& buf.subrange(0, 6) == header::lerc2_magic()
            &&& reader::int_at(buf, 6) == version
        }),
{
    let buf = header_start(version, extras) + after;
    assert(buf.subrange(0, 6) =~= header::lerc2_magic());
    assert(buf.subrange(6, 10) =~= int_word(version));
    lemma_int(buf, 6, version);
}

/// The size of a raster that was written.
proof fn lemma_header_size(buf: Seq<u8>, before: Seq<u8>, hd: HeaderInfo, after: Seq<u8>)
    requires
        buf == before + header_size(hd) + after,
    ensures
        ({
            let at = before.len() as int;
            &&& header_size(hd).len() == 8 + header::depth_len(hd.version as int)
            &&& reader::int_at(buf, at) == hd.n_rows
            &&& reader::int_at(buf, at + 4) == hd.n_cols
            &&& hd.version >= 4 ==> reader::int_at(buf, at + 8) == hd.n_depth
        }),
{
    let size = header_size(hd);
    let at = before.len() as int;
    lemma_second(before, size, after, buf);
    assert(size.subrange(0, 4) =~= int_word(hd.n_rows as int));
    assert(size.subrange(4, 8) =~= int_word(hd.n_cols as int));
    lemma_int(buf, at, hd.n_rows as int);
    lemma_int(buf, at + 4, hd.n_cols as int);
    if hd.version >= 4 {
        assert(size.subrange(8, 12) =~= int_word(hd.n_depth as int));
        lemma_int(buf, at + 8, hd.n_depth as int);
    }
}

/// The counts of a header that was written.
proof fn lemma_header_counts(
    buf: Seq<u8>,
    before: Seq<u8>,
    hd: HeaderInfo,
    type_code: int,
    extras: Extras,
    after: Seq<u8>,
)
    requires
        buf == before + header_counts(hd, type_code, extras) + after,
        i32::MIN <= type_code <= i32::MAX,
    ensures
        ({
            let at = before.len() as int;
            &&& header_counts(hd, type_code, extras).len() == 16 + header::flags_len(
                hd.version as int,
            )
            &&& reader::int_at(buf, at) == hd.num_valid_pixel
            &&& reader::int_at(buf, at + 4) == hd.micro_block_size
            &&& reader::int_at(buf, at + 8) == hd.blob_size
            &&& reader::int_at(buf, at + 12) == type_code
        }),
{
    let counts = header_counts(hd, type_code, extras);
    let at = before.len() as int;
    lemma_second(before, counts, after, buf);
    assert(counts.subrange(0, 4) =~= int_word(hd.num_valid_pixel as int));
    assert(counts.subrange(4, 8) =~= int_word(hd.micro_block_size as int));
    assert(counts.subrange(8, 12) =~= int_word(hd.blob_size as int));
    assert(counts.subrange(12, 16) =~= int_word(type_code));
    lemma_int(buf, at, hd.num_valid_pixel as int);
    lemma_int(buf, at + 4, hd.micro_block_size as int);
    lemma_int(buf, at + 8, hd.blob_size as int);
    lemma_int(buf, at + 12, type_code);
}

/// The numbers of a header that was written.
proof fn lemma_header_numbers(
    buf: Seq<u8>,
    before: Seq<u8>,
    hd: HeaderInfo,
    extras: Extras,
    after: Seq<u8>,
)
    requires
        buf == before + header_numbers(hd, extras) + after,
    ensures
        ({
            let at = before.len() as int;
            &&& header_numbers(hd, extras).len() == 24 + if hd.version >= 6 {
                16int
            } else {
                0
            }
            &&& reader::double_at(buf, at) == hd.max_z_error
            &&& reader::double_at(buf, at + 8) == hd.z_min
            &&& reader::double_at(buf, at + 16) == hd.z_max
        }),
{
    let numbers = header_numbers(hd, extras);
    let at = before.len() as int;
    lemma_second(before, numbers, after, buf);
    assert(numbers.subrange(0, 8) =~= word(hd.max_z_error.bits as nat, 8));
    assert(numbers.subrange(8, 16) =~= word(hd.z_min.bits as nat, 8));
    assert(numbers.subrange(16, 24) =~= word(hd.z_max.bits as nat, 8));
    lemma_double(buf, at, hd.max_z_error);
    lemma_double(buf, at + 8, hd.z_min);
    lemma_double(buf, at + 16, hd.z_max);
}

/// The fields of a header that was written, wherever it stands at the start of a stream.
proof fn lemma_header_fields(hd: HeaderInfo, type_code: int, extras: Extras, rest: Seq<u8>)
    requires
        1 <= hd.version <= 6,
        hd.version < 4 ==> hd.n_depth == 1,
        i32::MIN <= type_code <= i32::MAX,
    ensures
        ({
            let buf = header_bytes(hd, type_code, extras) + rest;
            let version = hd.version as int;
            &&& header_bytes(hd, type_code, extras).len() == header::header_len(version)
            &&& buf.subrange(0, 6) == header::lerc2_magic()
            &&& reader::int_at(buf, 6) == version
            &&& header::type_code_at(buf, 0, version) == type_code
            &&& header::fields_at(buf, 0, version, hd.dt) == hd
        }),
{
    let version = hd.version as int;
    let start = header_start(version, extras);
    let size = header_size(hd);
    let counts = header_counts(hd, type_code, extras);
    let numbers = header_numbers(hd, extras);
    let buf = header_bytes(hd, type_code, extras) + rest;
    assert(buf =~= start + (size + counts + numbers + rest));
    lemma_header_start(version, extras, size + counts + numbers + rest);
    assert(buf =~= start + size + (counts + numbers + rest));
    lemma_header_size(buf, start, hd, counts + numbers + rest);
    assert(buf =~= (start + size) + counts + (numbers + rest));
    lemma_header_counts(buf, start + size, hd, type_code, extras, numbers + rest);
    assert(buf =~= (start + size + counts) + numbers + rest);
    lemma_header_numbers(buf, start + size + counts, hd, extras, rest);
}

/// Reading a header undoes writing it: for every version from 1 to 6 and all fields of a
/// raster, what was written is read back, whatever follows it and whatever stands in the
/// fields that the decoder does not need.  A header is refused where a dimension is not
/// positive, tiles are larger than 32, or pixels cannot be counted or are fewer than the
/// valid ones.
pub proof fn law_header_is_read_back(hd: HeaderInfo, extras: Extras, rest: Seq<u8>)
    requires
        1 <= hd.version <= 6,
        hd.version < 4 ==> hd.n_depth == 1,
    ensures
        header::header_at(header_bytes(hd, type_number(hd.dt), extras) + rest, 0) == if hd.n_rows
            <= 0 || hd.n_cols <= 0 || hd.n_depth <= 0 || hd.num_valid_pixel < 0
            || hd.micro_block_size <= 0 || hd.micro_block_size > 32 || hd.blob_size <= 0 {
            Err(Fault::InvalidData("invalid LERC2 header dimensions"@))
        } else if hd.n_rows * hd.n_cols > 0x7fff_ffff || hd.num_valid_pixel > hd.n_rows
            * hd.n_cols {
            Err(Fault::InvalidData("invalid LERC2 pixel count"@))
        } else {
            Ok::<HeaderInfo, Fault>(hd)
        },
        header_bytes(hd, type_number(hd.dt), extras).len() == header_size_in_bytes(
            hd.version as int,
        ),
{
    lemma_header_fields(hd, type_number(hd.dt), extras, rest);
}

/// The number of bytes of a header: 58, and four more from version 3 on, four more from
/// version 4 on, and 24 more from version 6 on.
pub open spec fn header_size_in_bytes(version: int) -> int {
    if version >= 6 {
        90
    } else if version >= 4 {
        66
    } else if version >= 3 {
        62
    } else {
        58
    }
}

/// A header with a data type that does not exist is refused.
pub proof fn law_unknown_types_are_refused(
    hd: HeaderInfo,
    type_code: int,
    extras: Extras,
    rest: Seq<u8>,
)
    requires
        1 <= hd.version <= 6,
        hd.version < 4 ==> hd.n_depth == 1,
        i32::MIN <= type_code < 0 || 7 < type_code <= i32::MAX,
    ensures
        header::header_at(header_bytes(hd, type_code, extras) + rest, 0) == Err::<
            HeaderInfo,
            Fault,
        >(Fault::InvalidData("bad LERC2 data type"@)),
{
    lemma_header_fields(hd, type_code, extras, rest);
}

/// A header of another version is refused, whatever follows the version.
pub proof fn law_other_versions_are_refused(version: int, rest: Seq<u8>)
    requires
        i32::MIN <= version < 1 || 6 < version <= i32::MAX,
    ensures
        header::header_at(magic() + int_word(version) + rest, 0) == Err::<HeaderInfo, Fault>(
            Fault::InvalidData("unsupported LERC2 version"@),
        ),
{
    let buf = magic() + int_word(version) + rest;
    assert(buf.subrange(0, 6) =~= header::lerc2_magic());
    assert(buf.subrange(6, 10) =~= int_word(version));
    lemma_int(buf, 6, version);
}

/// A stream that does not start with the magic is refused, and so is one that ends within
/// its header.
pub proof fn law_cut_headers_are_refused(
    hd: HeaderInfo,
    type_code: int,
    extras: Extras,
    n: int,
    other: Seq<u8>,
)
    requires
        1 <= hd.version <= 6,
        hd.version < 4 ==> hd.n_depth == 1,
        i32::MIN <= type_code <= i32::MAX,
        0 <= n < header_size_in_bytes(hd.version as int),
        other.len() >= 6,
        other.take(6) != magic(),
    ensures
        header::header_at(header_bytes(hd, type_code, extras).take(n), 0) == Err::<
            HeaderInfo,
            Fault,
        >(Fault::InvalidData("unexpected end of LERC blob"@)),
        header::header_at(other, 0) == Err::<HeaderInfo, Fault>(
            Fault::InvalidData("not a LERC2 blob"@),
        ),
{
    let none = Seq::<u8>::empty();
    let whole = header_bytes(hd, type_code, extras);
    let cut = whole.take(n);
    lemma_header_fields(hd, type_code, extras, none);
    assert(whole + none =~= whole);
    if n >= 6 {
        assert(cut.subrange(0, 6) =~= whole.subrange(0, 6));
    }
    if n >= 10 {
        assert(cut.subrange(6, 10) =~= whole.subrange(6, 10));
    }
    assert(header::lerc2_magic() =~= magic());
    assert(other.subrange(0, 6) =~= other.take(6));
}

} // verus!
