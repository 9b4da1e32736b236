//! How a tile is written, and that reading it undoes it.
use vstd::arithmetic::div_mod::*;
use vstd::arithmetic::mul::*;
use vstd::arithmetic::power2::*;
use vstd::prelude::*;

use crate::binary64;
use crate::binary64::Binary64;
use crate::bit_stuffer;
use crate::bytes;
use crate::bytes::ByteOrder;
use crate::data_type;
use crate::data_type::DataType;
use crate::decoder::Decoding;
use crate::error::Fault;
use crate::header::HeaderInfo;
use crate::laws;
use crate::mask::Validity;
use crate::raster;
use crate::raster::Rect;
use crate::sample;
use crate::tile;
use crate::tile::{Place, TileCoding, TileSource};

verus! {

/// The number of valid pixels among `n` pixels from `first` on.
pub open spec fn valid_in_row(mask: Validity, first: int, n: nat) -> nat
    decreases n,
{
    if n == 0 {
        0
    } else {
        valid_in_row(mask, first, (n - 1) as nat) + if mask.valid(first + n - 1) {
            1nat
        } else {
            0
        }
    }
}

/// The number of valid pixels in the first `rows` rows of a tile, each `w` pixels wide, the
/// first of them at `first`, in a raster `stride` pixels wide.
pub open spec fn valid_in_rows(mask: Validity, first: int, stride: int, w: nat, rows: nat) -> nat
    decreases rows,
{
    if rows == 0 {
        0
    } else {
        valid_in_rows(mask, first, stride, w, (rows - 1) as nat) + valid_in_row(
            mask,
            first + (rows - 1) * stride,
            w,
        )
    }
}

/// The pixel in row `i` and column `j` of a raster.
pub open spec fn pixel(hd: HeaderInfo, i: int, j: int) -> int {
    i * hd.n_cols + j
}

/// Whether a tile holds row `i` and column `j`.
pub open spec fn holds(place: Place, i: int, j: int) -> bool {
    place.i0 <= i < place.i1 && place.j0 <= j < place.j1
}

/// How many valid pixels of a tile come before the one in row `i` and column `j`, row by
/// row and from left to right.
pub open spec fn turn(mask: Validity, hd: HeaderInfo, place: Place, i: int, j: int) -> int {
    (valid_in_rows(
        mask,
        pixel(hd, place.i0, place.j0),
        hd.n_cols as int,
        (place.j1 - place.j0) as nat,
        (i - place.i0) as nat,
    ) + valid_in_row(mask, pixel(hd, i, place.j0), (j - place.j0) as nat)) as int
}

/// The number of valid pixels of a tile.
pub open spec fn valid_in_tile(mask: Validity, hd: HeaderInfo, place: Place) -> nat {
    valid_in_rows(
        mask,
        pixel(hd, place.i0, place.j0),
        hd.n_cols as int,
        (place.j1 - place.j0) as nat,
        (place.i1 - place.i0) as nat,
    )
}

/// How many pixels of a tile come before the one in row `i` and column `j`.
pub open spec fn position(place: Place, i: int, j: int) -> int {
    (i - place.i0) * (place.j1 - place.j0) + (j - place.j0)
}

/// The turns of the pixels of a row.
proof fn lemma_row_turns(mask: Validity, all: bool, first: int, n: nat, j: int)
    requires
        0 <= j <= n,
    ensures
        ({
            let seen = raster::row_pixels(mask, all, first, n);
            let before = if all {
                j
            } else {
                valid_in_row(mask, first, j as nat) as int
            };
            &&& j == n ==> seen.len() == before
            &&& j < n && (all || mask.valid(first + j)) ==> before < seen.len() && seen[before]
                == first + j
            &&& before <= seen.len()
        }),
    decreases n,
{
    if n > 0 {
        if j == n {
            lemma_row_turns(mask, all, first, (n - 1) as nat, n - 1);
        } else {
            lemma_row_turns(mask, all, first, (n - 1) as nat, j);
        }
    }
}

/// The turns of the pixels of a rectangle.
pub proof fn lemma_rect_turns(rect: Rect, mask: Validity, all: bool, i: int, j: int)
    requires
        0 <= i < rect.rows,
        0 <= j < rect.cols,
        all || mask.valid(rect.at(i, j)),
    ensures
        ({
            let seen = rect.pixels(mask, all);
            let t = if all {
                i * rect.cols + j
            } else {
                (valid_in_rows(mask, rect.first, rect.stride, rect.cols, i as nat) + valid_in_row(
                    mask,
                    rect.first + i * rect.stride,
                    j as nat,
                )) as int
            };
            0 <= t < seen.len() && seen[t] == rect.at(i, j)
        }),
    decreases rect.rows,
{
    let last = (rect.rows - 1) as nat;
    let above = rect.top(last);
    let start = rect.first + last * rect.stride;
    lemma_rect_len(above, mask, all);
    assert(i * rect.cols >= 0) by (nonlinear_arith)
        requires
            i >= 0,
            rect.cols >= 0,
    ;
    if i == last {
        lemma_row_turns(mask, all, start, rect.cols, j);
    } else {
        lemma_rect_turns(above, mask, all, i, j);
        assert(above.at(i, j) == rect.at(i, j));
    }
}

/// How many pixels a rectangle visits.
pub proof fn lemma_rect_len(rect: Rect, mask: Validity, all: bool)
    ensures
        rect.pixels(mask, all).len() == if all {
            rect.rows * rect.cols
        } else {
            valid_in_rows(mask, rect.first, rect.stride, rect.cols, rect.rows)
        },
    decreases rect.rows,
{
    if rect.rows == 0 {
        lemma_mul_basics(rect.cols as int);
    } else {
        let last = (rect.rows - 1) as nat;
        lemma_rect_len(rect.top(last), mask, all);
        lemma_row_turns(
            mask,
            all,
            rect.first + last * rect.stride,
            rect.cols,
            rect.cols as int,
        );
        assert(last * rect.cols + rect.cols == rect.rows * rect.cols) by (nonlinear_arith)
            requires
                rect.rows == last + 1,
        ;
    }
}

/// The turns of the pixels of a tile.
proof fn lemma_turns(hd: HeaderInfo, place: Place, mask: Validity, all: bool, i: int, j: int)
    requires
        place.within(hd),
        holds(place, i, j),
        all || mask.valid(pixel(hd, i, j)),
    ensures
        ({
            let seen = place.rect(hd).pixels(mask, all);
            let t = if all {
                position(place, i, j)
            } else {
                turn(mask, hd, place, i, j)
            };
            0 <= t < seen.len() && seen[t] == pixel(hd, i, j)
        }),
{
    let rect = place.rect(hd);
    let w = hd.n_cols as int;
    lemma_rect_facts(hd, place, i, j);
    lemma_rect_turns(rect, mask, all, i - place.i0, j - place.j0);
    assert(pixel(hd, i, place.j0) == rect.first + (i - place.i0) * rect.stride)
        by (nonlinear_arith)
        requires
            rect.first == place.i0 * w + place.j0,
            rect.stride == w,
            pixel(hd, i, place.j0) == i * w + place.j0,
    ;
}

/// A pixel of a tile as one of its rectangle.
pub proof fn lemma_rect_facts(hd: HeaderInfo, place: Place, i: int, j: int)
    requires
        place.within(hd),
        holds(place, i, j),
    ensures
        place.rect(hd).at(i - place.i0, j - place.j0) == pixel(hd, i, j),
        place.rect(hd).contains(pixel(hd, i, j)),
        0 <= pixel(hd, i, j) < hd.n_rows * hd.n_cols,
{
    let rect = place.rect(hd);
    let w = hd.n_cols as int;
    assert(place.i0 * w + place.j0 + (i - place.i0) * w + (j - place.j0) == i * w + j)
        by (nonlinear_arith);
    assert(rect.at(i - place.i0, j - place.j0) == pixel(hd, i, j));
    assert(0 <= i * w + j && i * w + j < hd.n_rows * w) by (nonlinear_arith)
        requires
            0 <= i,
            i + 1 <= hd.n_rows,
            0 <= j < w,
    ;
}

/// Whether a flag repeats the column that its tile starts at: before version 5 in four bits
/// from the third one on the number of eights in it, from version 5 on in three bits from
/// the fourth one on the number of sixteens.
pub open spec fn repeats_column(version: int, flag: u8, j0: int) -> bool {
    if version >= 5 {
        flag as int / 8 % 8 == j0 / 16 % 8
    } else {
        flag as int / 4 % 16 == j0 / 8 % 16
    }
}

/// The flag of a tile of differences.
pub open spec fn says_differences(version: int, flag: u8) -> bool {
    version >= 5 && flag as int / 4 % 2 == 1
}

/// The bits of a flag.
proof fn lemma_flag_bits(f: u8, c: u8)
    by (bit_vector)
    ensures
        ((f >> 2) & 15 == c & 15) == (f / 4 % 16 == c % 16),
        ((f >> 2) & 14 == c & 14) == (f / 8 % 8 == c / 2 % 8),
        (f & 4 != 0) == (f / 4 % 2 == 1),
{
}

/// The eights and the sixteens in a column.
proof fn lemma_column(j0: int)
    requires
        0 <= j0,
    ensures
        j0 / 8 % 256 % 16 == j0 / 8 % 16,
        j0 / 8 % 256 / 2 % 8 == j0 / 16 % 8,
        0 <= j0 / 8 % 256 < 256,
{
    let e = j0 / 8;
    let a = e / 256;
    let c = e % 256;
    lemma_fundamental_div_mod(e, 256);
    lemma_mod_mod(e, 16, 16);
    lemma_div_denominator(j0, 8, 2);
    assert(e / 2 == 8 * (16 * a) + c / 2);
    lemma_mod_multiples_vanish(16 * a, c / 2, 8);
}

/// What the flag of a tile says.
#[verifier::rlimit(30)]
proof fn lemma_flag(dec: Decoding, flag: u8, j0: int)
    requires
        0 <= j0,
    ensures
        tile::flag_is_sound(dec.hd.version as int, flag, j0) == repeats_column(
            dec.hd.version as int,
            flag,
            j0,
        ),
        dec.has_differences(flag) == says_differences(dec.hd.version as int, flag),
{
    let c = (j0 / 8 % 256) as u8;
    lemma_column(j0);
    lemma_flag_bits(flag, c);
    let e = j0 / 8 % 256;
    assert(c == e);
    assert((c % 16) as int == e % 16);
    assert((c / 2 % 8) as int == e / 2 % 8);
    assert((flag / 4 % 16) as int == flag as int / 4 % 16);
    assert((flag / 8 % 8) as int == flag as int / 8 % 8);
    assert((flag / 4 % 2) as int == flag as int / 4 % 2);
}

/// A tile whose flag does not repeat its column is refused at every column, and one whose
/// flag does is not taken for such a tile: what a tile is read as depends on its flag as
/// `law_zero_tile_is_read_back` and the laws after it say.
pub proof fn law_flags_repeat_the_column(
    dec: Decoding,
    buf: Seq<u8>,
    pos: int,
    out: Seq<u8>,
    place: Place,
    order: ByteOrder,
)
    requires
        0 <= pos < buf.len(),
        0 <= place.j0,
    ensures
        tile::flag_is_sound(dec.hd.version as int, buf[pos], place.j0) <==> repeats_column(
            dec.hd.version as int,
            buf[pos],
            place.j0,
        ),
        !repeats_column(dec.hd.version as int, buf[pos], place.j0) ==> {
            let after = dec.tile_from(buf, pos, out, place, order);
            &&& after.result == Err::<(), Fault>(
                Fault::InvalidData("LERC2 tile integrity check failed"@),
            )
            &&& after.out == out
            &&& after.pos == pos + 1
        },
{
    lemma_flag(dec, buf[pos], place.j0);
}

/// Differences are refused at the first depth, and so are raw ones.
pub proof fn law_misplaced_differences_are_refused(
    dec: Decoding,
    buf: Seq<u8>,
    pos: int,
    out: Seq<u8>,
    place: Place,
    order: ByteOrder,
)
    requires
        0 <= pos < buf.len(),
        0 <= place.j0,
        repeats_column(dec.hd.version as int, buf[pos], place.j0),
        says_differences(dec.hd.version as int, buf[pos]),
        place.depth == 0 || buf[pos] as int % 4 == 0,
    ensures
        ({
            let after = dec.tile_from(buf, pos, out, place, order);
            &&& after.result == Err::<(), Fault>(
                Fault::InvalidData(
                    if place.depth == 0 {
                        "invalid LERC2 diff-encoded tile"@
                    } else {
                        "unexpected diff-encoded raw LERC2 tile"@
                    },
                ),
            )
            &&& after.out == out
        }),
{
    lemma_flag(dec, buf[pos], place.j0);
}

/// A tile of zeros: every valid pixel becomes zero, or what the depth before holds where the
/// tile is one of differences, and the tile takes one byte.
pub proof fn law_zero_tile_is_read_back(
    dec: Decoding,
    buf: Seq<u8>,
    pos: int,
    out: Seq<u8>,
    place: Place,
    order: ByteOrder,
    i: int,
    j: int,
)
    requires
        dec.hd.wf(),
        dec.hd.raster_len() <= out.len(),
        place.within(dec.hd),
        0 <= pos < buf.len(),
        repeats_column(dec.hd.version as int, buf[pos], place.j0),
        buf[pos] as int % 4 == 2,
        says_differences(dec.hd.version as int, buf[pos]) ==> place.depth > 0,
        holds(place, i, j),
        dec.mask.valid(pixel(dec.hd, i, j)),
    ensures
        ({
            let after = dec.tile_from(buf, pos, out, place, order);
            let layout = dec.layout(order);
            let k = pixel(dec.hd, i, j);
            &&& after.result is Ok
            &&& after.pos == pos + 1
            &&& layout.cell(after.out, k, place.depth) == if says_differences(
                dec.hd.version as int,
                buf[pos],
            ) {
                layout.word(layout.get(out, k, place.depth - 1))
            } else {
                Seq::new(dec.hd.dt.size_spec(), |b: int| 0u8)
            }
        }),
{
    lemma_flag(dec, buf[pos], place.j0);
    lemma_turns(dec.hd, place, dec.mask, false, i, j);
    dec.law_tile_gives_each_pixel_its_number(buf, pos, out, place, order);
    lemma_zero_word(dec.hd.dt, order);
    let pixels = dec.tile_pixels(buf, pos, place);
    assert(pixels[turn(dec.mask, dec.hd, place, i, j)] == pixel(dec.hd, i, j));
}

/// Zero is written as zeros, whatever the type.
pub proof fn lemma_zero_word(dt: DataType, order: ByteOrder)
    ensures
        bytes::bytes_of(
            sample::sample_word(Binary64 { bits: 0 }, dt),
            dt.size_spec(),
            order,
        ) == Seq::new(dt.size_spec(), |b: int| 0u8),
{
    let zero = Binary64 { bits: 0 };
    let s = Seq::new(dt.size_spec(), |b: int| 0u8);
    binary64::lemma_zero();
    lemma_pow2_pos(1074);
    vstd::arithmetic::div_mod::lemma_div_basics(pow2(1074) as int);
    assert(zero.to_integer_spec(0, 0xff) == 0);
    lemma2_to64();
    lemma2_to64_rest();
    assert((24 - 1) as nat == 23);
    assert(sample::sample_word(zero, dt) == 0) by {
        if dt == DataType::Float {
            crate::rounding::law_representable_is_exact(
                0,
                24,
                925,
                binary64::INFINITY32 as nat,
            );
            lemma_mul_basics(pow2(925) as int);
            assert(crate::rounding::magnitude(0, 24, 925) == 0);
        }
    }
    lemma_le_zero(dt.size_spec());
    assert(s.reverse() =~= s);
}

/// The digits of zero.
proof fn lemma_le_zero(n: nat)
    ensures
        bytes::le_bytes(0, n) == Seq::new(n, |b: int| 0u8),
    decreases n,
{
    if n > 0 {
        lemma_le_zero((n - 1) as nat);
    }
    assert(bytes::le_bytes(0, n) =~= Seq::new(n, |b: int| 0u8));
}

/// A raw tile: the samples of its valid pixels, row by row and from left to right, come out
/// as the numbers that they stand for, and but for binary32 NaNs as they were written; the
/// tile ends after them.
#[verifier::rlimit(30)]
pub proof fn law_raw_tile_is_read_back(
    dec: Decoding,
    buf: Seq<u8>,
    pos: int,
    out: Seq<u8>,
    place: Place,
    order: ByteOrder,
    samples: Seq<u8>,
    i: int,
    j: int,
)
    requires
        dec.hd.wf(),
        dec.hd.raster_len() <= out.len(),
        place.within(dec.hd),
        0 <= pos < buf.len(),
        repeats_column(dec.hd.version as int, buf[pos], place.j0),
        buf[pos] as int % 4 == 0,
        !says_differences(dec.hd.version as int, buf[pos]),
        samples.len() == valid_in_tile(dec.mask, dec.hd, place) * dec.hd.dt.size_spec(),
        samples.is_prefix_of(buf.skip(pos + 1)),
        holds(place, i, j),
        dec.mask.valid(pixel(dec.hd, i, j)),
    ensures
        ({
            let after = dec.tile_from(buf, pos, out, place, order);
            let at = turn(dec.mask, dec.hd, place, i, j) * dec.hd.dt.size_spec();
            let s = samples.subrange(at, at + dec.hd.dt.size_spec());
            let cell = dec.layout(order).cell(after.out, pixel(dec.hd, i, j), place.depth);
            &&& after.result is Ok
            &&& after.pos == pos + 1 + samples.len()
            &&& cell == dec.layout(order).word(sample::stored_value(s, dec.hd.dt))
            &&& sample::is_exact_sample(s, dec.hd.dt) ==> cell == match order {
                ByteOrder::Little => s,
                ByteOrder::Big => s.reverse(),
            }
        }),
{
    let hd = dec.hd;
    let size = hd.dt.size_spec() as int;
    let t = turn(dec.mask, hd, place, i, j);
    let pixels = place.rect(hd).pixels(dec.mask, false);
    let n = pixels.len() as int;
    lemma_flag(dec, buf[pos], place.j0);
    lemma_turns(hd, place, dec.mask, false, i, j);
    lemma_rect_len(place.rect(hd), dec.mask, false);
    assert(n == valid_in_tile(dec.mask, hd, place));
    let left = buf.len() - (pos + 1);
    assert(buf.skip(pos + 1).len() == left);
    vstd::arithmetic::div_mod::lemma_fundamental_div_mod(left, size);
    vstd::arithmetic::div_mod::lemma_mod_bound(left, size);
    let stored = left / size;
    assert(n <= stored) by (nonlinear_arith)
        requires
            n * size <= left,
            left < size * stored + size,
            size > 0,
    ;
    assert(0 <= t * size && t * size + size <= n * size) by (nonlinear_arith)
        requires
            0 <= t,
            t + 1 <= n,
            size >= 0,
    ;
    let s = samples.subrange(t * size, t * size + size);
    assert(laws::raw_sample(hd, buf, pos, t) =~= s) by {
        assert(samples =~= buf.skip(pos + 1).subrange(0, samples.len() as int));
        assert forall|b: int| 0 <= b < size implies #[trigger] laws::raw_sample(hd, buf, pos, t)[b]
            == s[b] by {
            assert(samples[t * size + b] == buf.skip(pos + 1)[t * size + b]);
        }
    }
    assert(buf.skip(pos + 1).subrange(t * size, t * size + size) =~= s);
    dec.law_tile_gives_each_pixel_its_number(buf, pos, out, place, order);
    assert(dec.tile_pixels(buf, pos, place)[t] == pixel(hd, i, j));
    if sample::is_exact_sample(s, hd.dt) {
        laws::law_raw_tile_is_lossless(dec, buf, pos, out, place, order, t);
    }
}

/// The type in which the offset of a tile is stored, for the reduction in the highest two
/// bits of its flag.  Differences of integers are stored as 32-bit integers.
pub open spec fn offset_type(dt: DataType, differences: bool, reduction: u8) -> Option<DataType> {
    if differences && dt != DataType::Float && dt != DataType::Double {
        match reduction {
            0 => Some(DataType::Int),
            1 => Some(DataType::UShort),
            2 => Some(DataType::Short),
            _ => Some(DataType::Byte),
        }
    } else {
        match (dt, reduction) {
            (DataType::Char, _) => Some(DataType::Char),
            (DataType::Byte, _) => Some(DataType::Byte),
            (DataType::Short, 0) => Some(DataType::Short),
            (DataType::Short, 1) => Some(DataType::Byte),
            (DataType::Short, 2) => Some(DataType::Char),
            (DataType::Short, _) => None,
            (DataType::UShort, 0) => Some(DataType::UShort),
            (DataType::UShort, 1) => Some(DataType::Byte),
            (DataType::UShort, _) => None,
            (DataType::Int, 0) => Some(DataType::Int),
            (DataType::Int, 1) => Some(DataType::UShort),
            (DataType::Int, 2) => Some(DataType::Short),
            (DataType::Int, _) => Some(DataType::Byte),
            (DataType::UInt, 0) => Some(DataType::UInt),
            (DataType::UInt, 1) => Some(DataType::UShort),
            (DataType::UInt, 2) => Some(DataType::Byte),
            (DataType::UInt, _) => None,
            (DataType::Float, 0) => Some(DataType::Float),
            (DataType::Float, 1) => Some(DataType::Short),
            (DataType::Float, _) => Some(DataType::Byte),
            (DataType::Double, 0) => Some(DataType::Double),
            (DataType::Double, 1) => Some(DataType::Float),
            (DataType::Double, 2) => Some(DataType::Int),
            (DataType::Double, _) => Some(DataType::Short),
        }
    }
}

/// The offset of a tile is stored in the type that its flag says.
pub proof fn law_offset_types_are_those_of_the_flag(dec: Decoding, flag: u8)
    ensures
        dec.offset_type(flag) == offset_type(
            dec.hd.dt,
            says_differences(dec.hd.version as int, flag),
            flag / 64,
        ),
        data_type::reduced_type(dec.hd.dt, flag as int / 64) == offset_type(
            dec.hd.dt,
            false,
            flag / 64,
        ),
{
    lemma_flag(dec, flag, 0);
    assert(0 <= flag as int / 64 <= 3);
}

/// The greatest number of a depth: that of the header, or from version 4 on and with more
/// than one depth that of the depth.
pub open spec fn cap(dec: Decoding, depth: int) -> Binary64 {
    if dec.hd.version >= 4 && dec.hd.n_depth > 1 {
        dec.z_max[depth]
    } else {
        dec.hd.z_max
    }
}

/// A constant tile: every valid pixel becomes the offset, or, where the tile is one of
/// differences, the sum of the offset and what the depth before holds, but not more than
/// the greatest number of the depth.  The tile ends after its offset.
#[verifier::rlimit(30)]
pub proof fn law_constant_tile_is_read_back(
    dec: Decoding,
    buf: Seq<u8>,
    pos: int,
    out: Seq<u8>,
    place: Place,
    order: ByteOrder,
    used: DataType,
    i: int,
    j: int,
)
    requires
        dec.hd.wf(),
        dec.hd.raster_len() <= out.len(),
        place.within(dec.hd),
        0 <= pos < buf.len(),
        repeats_column(dec.hd.version as int, buf[pos], place.j0),
        buf[pos] as int % 4 == 3,
        says_differences(dec.hd.version as int, buf[pos]) ==> place.depth > 0,
        offset_type(
            dec.hd.dt,
            says_differences(dec.hd.version as int, buf[pos]),
            buf[pos] / 64,
        ) == Some(used),
        pos + 1 + used.size_spec() <= buf.len(),
        holds(place, i, j),
        dec.mask.valid(pixel(dec.hd, i, j)),
    ensures
        ({
            let after = dec.tile_from(buf, pos, out, place, order);
            let layout = dec.layout(order);
            let k = pixel(dec.hd, i, j);
            let offset = sample::stored_value(
                buf.subrange(pos + 1, pos + 1 + used.size_spec()),
                used,
            );
            &&& after.result is Ok
            &&& after.pos == pos + 1 + used.size_spec()
            &&& layout.cell(after.out, k, place.depth) == layout.word(
                if says_differences(dec.hd.version as int, buf[pos]) {
                    offset.plus_spec(layout.get(out, k, place.depth - 1)).lesser_spec(
                        cap(dec, place.depth),
                    )
                } else {
                    offset
                },
            )
        }),
{
    lemma_flag(dec, buf[pos], place.j0);
    law_offset_types_are_those_of_the_flag(dec, buf[pos]);
    lemma_turns(dec.hd, place, dec.mask, false, i, j);
    dec.law_tile_gives_each_pixel_its_number(buf, pos, out, place, order);
    let pixels = dec.tile_pixels(buf, pos, place);
    assert(pixels[turn(dec.mask, dec.hd, place, i, j)] == pixel(dec.hd, i, j));
}

/// A quantized tile: each pixel becomes the sum of the offset and as many times twice the
/// largest error of the header as its value says, and of what the depth before holds where
/// the tile is one of differences, but not more than the greatest number of the depth.  The
/// values are those of the valid pixels, or of all pixels where there are as many, row by
/// row and from left to right.  The tile ends after its values.
#[verifier::rlimit(30)]
pub proof fn law_quantized_tile_is_read_back(
    dec: Decoding,
    buf: Seq<u8>,
    pos: int,
    out: Seq<u8>,
    place: Place,
    order: ByteOrder,
    used: DataType,
    values: Seq<u32>,
    end: int,
    i: int,
    j: int,
)
    requires
        dec.hd.wf(),
        dec.hd.raster_len() <= out.len(),
        place.within(dec.hd),
        0 <= pos < buf.len(),
        repeats_column(dec.hd.version as int, buf[pos], place.j0),
        buf[pos] as int % 4 == 1,
        says_differences(dec.hd.version as int, buf[pos]) ==> place.depth > 0,
        offset_type(
            dec.hd.dt,
            says_differences(dec.hd.version as int, buf[pos]),
            buf[pos] / 64,
        ) == Some(used),
        pos + 1 + used.size_spec() <= buf.len(),
        bit_stuffer::block_at(
            buf,
            pos + 1 + used.size_spec(),
            ((place.i1 - place.i0) * (place.j1 - place.j0)) as nat,
        ) == (Ok::<Seq<u32>, Fault>(values), end),
        holds(place, i, j),
        ({
            ||| values.len() == (place.i1 - place.i0) * (place.j1 - place.j0)
            ||| values.len() >= valid_in_tile(dec.mask, dec.hd, place) && dec.mask.valid(
                pixel(dec.hd, i, j),
            )
        }),
    ensures
        ({
            let after = dec.tile_from(buf, pos, out, place, order);
            let layout = dec.layout(order);
            let k = pixel(dec.hd, i, j);
            let offset = sample::stored_value(
                buf.subrange(pos + 1, pos + 1 + used.size_spec()),
                used,
            );
            let t = if values.len() == (place.i1 - place.i0) * (place.j1 - place.j0) {
                position(place, i, j)
            } else {
                turn(dec.mask, dec.hd, place, i, j)
            };
            let z = offset.plus_spec(
                dec.hd.max_z_error.times_spec(2).times_spec(values[t] as nat),
            );
            &&& after.result is Ok
            &&& after.pos == end
            &&& 0 <= t < values.len()
            &&& layout.cell(after.out, k, place.depth) == layout.word(
                (if says_differences(dec.hd.version as int, buf[pos]) {
                    z.plus_spec(layout.get(out, k, place.depth - 1))
                } else {
                    z
                }).lesser_spec(cap(dec, place.depth)),
            )
        }),
{
    let hd = dec.hd;
    let all = values.len() == place.area();
    lemma_flag(dec, buf[pos], place.j0);
    law_offset_types_are_those_of_the_flag(dec, buf[pos]);
    assert(place.area() >= 0) by (nonlinear_arith)
        requires
            place.area() == (place.i1 - place.i0) * (place.j1 - place.j0),
            place.i1 >= place.i0,
            place.j1 >= place.j0,
    ;
    lemma_turns(hd, place, dec.mask, all, i, j);
    lemma_rect_len(place.rect(hd), dec.mask, all);
    dec.law_tile_gives_each_pixel_its_number(buf, pos, out, place, order);
    let pixels = dec.tile_pixels(buf, pos, place);
    let t = if all {
        position(place, i, j)
    } else {
        turn(dec.mask, hd, place, i, j)
    };
    assert(pixels[t] == pixel(hd, i, j));
}

/// A quantized tile with fewer values than valid pixels is refused, and so is a tile whose
/// offset has a type that does not exist or is cut.
#[verifier::rlimit(30)]
pub proof fn law_short_tiles_are_refused(
    dec: Decoding,
    buf: Seq<u8>,
    pos: int,
    out: Seq<u8>,
    place: Place,
    order: ByteOrder,
    values: Seq<u32>,
    end: int,
)
    requires
        place.within(dec.hd),
        0 <= pos < buf.len(),
        repeats_column(dec.hd.version as int, buf[pos], place.j0),
        buf[pos] as int % 4 == 1 || buf[pos] as int % 4 == 3,
        says_differences(dec.hd.version as int, buf[pos]) ==> place.depth > 0,
    ensures
        ({
            let result = dec.tile_from(buf, pos, out, place, order).result;
            let used = offset_type(
                dec.hd.dt,
                says_differences(dec.hd.version as int, buf[pos]),
                buf[pos] / 64,
            );
            let at = pos + 1 + used->Some_0.size_spec();
            let area = (place.i1 - place.i0) * (place.j1 - place.j0);
            if used is None {
                result == Err::<(), Fault>(Fault::InvalidData("bad LERC2 reduced type"@))
            } else if at > buf.len() {
                result == Err::<(), Fault>(Fault::InvalidData("unexpected end of LERC blob"@))
            } else {
                buf[pos] as int % 4 == 1 && bit_stuffer::block_at(buf, at, area as nat) == (
                    Ok::<Seq<u32>, Fault>(values),
                    end,
                ) && values.len() < valid_in_tile(dec.mask, dec.hd, place) && values.len() != area
                    ==> result == Err::<(), Fault>(
                    Fault::InvalidData("LERC2 tile ran out of quantized values"@),
                )
            }
        }),
{
    lemma_flag(dec, buf[pos], place.j0);
    law_offset_types_are_those_of_the_flag(dec, buf[pos]);
    lemma_rect_len(place.rect(dec.hd), dec.mask, false);
}

/// A tile that is not there is refused, a raw one with fewer samples than valid pixels is,
/// and what is wrong with the block of a quantized one is wrong with the tile.
#[verifier::rlimit(30)]
pub proof fn law_broken_tiles_are_refused(
    dec: Decoding,
    buf: Seq<u8>,
    pos: int,
    out: Seq<u8>,
    place: Place,
    order: ByteOrder,
    used: DataType,
    fault: Fault,
)
    requires
        place.within(dec.hd),
        0 <= pos <= buf.len(),
        pos < buf.len() ==> repeats_column(dec.hd.version as int, buf[pos], place.j0),
    ensures
        ({
            let result = dec.tile_from(buf, pos, out, place, order).result;
            let cut = Err::<(), Fault>(Fault::InvalidData("unexpected end of LERC blob"@));
            let differences = says_differences(dec.hd.version as int, buf[pos]);
            let at = pos + 1 + used.size_spec();
            &&& pos == buf.len() ==> result == cut
            &&& pos < buf.len() && buf[pos] as int % 4 == 0 && !differences && buf.len() - (pos + 1)
                < valid_in_tile(dec.mask, dec.hd, place) * dec.hd.dt.size_spec() ==> result == cut
            &&& at <= buf.len() && buf[pos] as int % 4 == 1 && (differences ==> place.depth > 0)
                && offset_type(dec.hd.dt, differences, buf[pos] / 64) == Some(used)
                && bit_stuffer::block_at(
                buf,
                at,
                ((place.i1 - place.i0) * (place.j1 - place.j0)) as nat,
            ).0 == Err::<Seq<u32>, Fault>(fault) ==> result == Err::<(), Fault>(fault)
        }),
{
    if pos < buf.len() {
        let size = dec.hd.dt.size_spec() as int;
        let left = buf.len() - (pos + 1);
        let n = valid_in_tile(dec.mask, dec.hd, place) as int;
        lemma_flag(dec, buf[pos], place.j0);
        law_offset_types_are_those_of_the_flag(dec, buf[pos]);
        lemma_rect_len(place.rect(dec.hd), dec.mask, false);
        lemma_fundamental_div_mod(left, size);
        lemma_mod_bound(left, size);
        let stored = left / size;
        assert(left < n * size ==> stored < n) by (nonlinear_arith)
            requires
                left == size * stored + left % size,
                0 <= left % size < size,
        ;
    }
}

/// A pixel of a tile of which the first `m` pixels were written.
proof fn lemma_partly_painted(
    dec: Decoding,
    out: Seq<u8>,
    place: Place,
    order: ByteOrder,
    m: int,
    coding: TileCoding,
    i: int,
    j: int,
)
    requires
        dec.hd.wf(),
        dec.hd.raster_len() <= out.len(),
        place.within(dec.hd),
        coding.diff ==> place.depth > 0,
        0 <= m <= place.rect(dec.hd).pixels(dec.mask, false).len(),
        holds(place, i, j),
        dec.mask.valid(pixel(dec.hd, i, j)),
    ensures
        ({
            let layout = dec.layout(order);
            let pixels = place.rect(dec.hd).pixels(dec.mask, false);
            let after = tile::painted(layout, out, pixels.take(m), place.depth, coding);
            let k = pixel(dec.hd, i, j);
            let t = turn(dec.mask, dec.hd, place, i, j);
            &&& 0 <= t < pixels.len()
            &&& layout.cell(after, k, place.depth) == if t < m {
                layout.word(
                    coding.number(dec.hd.dt, t, layout.get(out, k, place.depth - 1)),
                )
            } else {
                layout.cell(out, k, place.depth)
            }
        }),
{
    let hd = dec.hd;
    let layout = dec.layout(order);
    let pixels = place.rect(hd).pixels(dec.mask, false);
    let some = pixels.take(m);
    let k = pixel(hd, i, j);
    let t = turn(dec.mask, hd, place, i, j);
    lemma_turns(hd, place, dec.mask, false, i, j);
    lemma_rect_facts(hd, place, i, j);
    tile::lemma_place_pixels(hd, place, dec.mask, false);
    assert forall|u: int| 0 <= u < some.len() implies 0 <= #[trigger] some[u] < hd.num_pixels() by {
        assert(some[u] == pixels[u]);
    }
    assert(some.no_duplicates());
    tile::law_tile_is_painted(layout, out, hd.num_pixels(), some, place.depth, coding);
    if t < m {
        assert(some[t] == k);
    } else {
        if some.contains(k) {
            let u = choose|u: int| 0 <= u < some.len() && some[u] == k;
            assert(pixels[u] == pixels[t]);
        }
    }
}

/// A raw tile is read sample by sample, as far as the stream holds them: the pixels whose
/// samples are there become what these stand for, even where the tile is refused because
/// the stream ends before the last one, and the others stay as they were.
#[verifier::rlimit(30)]
pub proof fn law_raw_tile_is_read_as_far_as_it_goes(
    dec: Decoding,
    buf: Seq<u8>,
    pos: int,
    out: Seq<u8>,
    place: Place,
    order: ByteOrder,
    i: int,
    j: int,
)
    requires
        dec.hd.wf(),
        dec.hd.raster_len() <= out.len(),
        place.within(dec.hd),
        0 <= pos < buf.len(),
        repeats_column(dec.hd.version as int, buf[pos], place.j0),
        buf[pos] as int % 4 == 0,
        !says_differences(dec.hd.version as int, buf[pos]),
        holds(place, i, j),
        dec.mask.valid(pixel(dec.hd, i, j)),
    ensures
        ({
            let after = dec.tile_from(buf, pos, out, place, order);
            let layout = dec.layout(order);
            let size = dec.hd.dt.size_spec();
            let n = valid_in_tile(dec.mask, dec.hd, place);
            let k = pixel(dec.hd, i, j);
            let at = pos + 1 + turn(dec.mask, dec.hd, place, i, j) * size;
            let whole = pos + 1 + n * size <= buf.len();
            &&& after.result == if whole {
                Ok::<(), Fault>(())
            } else {
                Err(Fault::InvalidData("unexpected end of LERC blob"@))
            }
            &&& after.pos == if whole {
                pos + 1 + n * size
            } else {
                buf.len() - (buf.len() - pos - 1) % size as int
            }
            &&& layout.cell(after.out, k, place.depth) == if at + size <= buf.len() {
                layout.word(sample::stored_value(buf.subrange(at, at + size), dec.hd.dt))
            } else {
                layout.cell(out, k, place.depth)
            }
        }),
{
    let hd = dec.hd;
    let size = hd.dt.size_spec() as int;
    let pixels = place.rect(hd).pixels(dec.mask, false);
    let n = pixels.len() as int;
    let left = buf.len() - (pos + 1);
    let t = turn(dec.mask, hd, place, i, j);
    lemma_flag(dec, buf[pos], place.j0);
    lemma_rect_len(place.rect(hd), dec.mask, false);
    lemma_fundamental_div_mod(left, size);
    lemma_mod_bound(left, size);
    let stored = left / size;
    assert((n <= stored) == (n * size <= left)) by (nonlinear_arith)
        requires
            left == size * stored + left % size,
            0 <= left % size < size,
    ;
    assert((t + 1 <= stored) == (t * size + size <= left)) by (nonlinear_arith)
        requires
            left == size * stored + left % size,
            0 <= left % size < size,
    ;
    assert(stored * size == size * stored) by (nonlinear_arith);
    assert(stored >= 0) by (nonlinear_arith)
        requires
            left == size * stored + left % size,
            0 <= left % size < size,
            left >= 0,
    ;
    let m = if n <= stored {
        n
    } else {
        stored
    };
    let coding = TileCoding {
        source: TileSource::Raw(buf.skip(pos + 1)),
        diff: false,
        z_max: dec.greatest(place.depth),
    };
    lemma_partly_painted(dec, out, place, order, m, coding, i, j);
    if t < m {
        assert(0 <= t * size) by (nonlinear_arith)
            requires
                0 <= t,
                0 <= size,
        ;
        assert(buf.skip(pos + 1).subrange(t * size, t * size + size) =~= buf.subrange(
            pos + 1 + t * size,
            pos + 1 + t * size + size,
        ));
    } else {
        assert(t * size + size > left) by (nonlinear_arith)
            requires
                t >= m,
                m == n || m == stored,
                t < n,
                left == size * stored + left % size,
                0 <= left % size < size,
        ;
    }
}

/// A quantized tile with fewer values than valid pixels is refused, but the pixels that have
/// values become what these stand for, and the others stay as they were.
#[verifier::rlimit(30)]
pub proof fn law_short_tile_is_read_as_far_as_it_goes(
    dec: Decoding,
    buf: Seq<u8>,
    pos: int,
    out: Seq<u8>,
    place: Place,
    order: ByteOrder,
    used: DataType,
    values: Seq<u32>,
    end: int,
    i: int,
    j: int,
)
    requires
        dec.hd.wf(),
        dec.hd.raster_len() <= out.len(),
        place.within(dec.hd),
        0 <= pos < buf.len(),
        repeats_column(dec.hd.version as int, buf[pos], place.j0),
        buf[pos] as int % 4 == 1,
        says_differences(dec.hd.version as int, buf[pos]) ==> place.depth > 0,
        offset_type(
            dec.hd.dt,
            says_differences(dec.hd.version as int, buf[pos]),
            buf[pos] / 64,
        ) == Some(used),
        pos + 1 + used.size_spec() <= buf.len(),
        bit_stuffer::block_at(
            buf,
            pos + 1 + used.size_spec(),
            ((place.i1 - place.i0) * (place.j1 - place.j0)) as nat,
        ) == (Ok::<Seq<u32>, Fault>(values), end),
        values.len() < valid_in_tile(dec.mask, dec.hd, place),
        values.len() != (place.i1 - place.i0) * (place.j1 - place.j0),
        holds(place, i, j),
        dec.mask.valid(pixel(dec.hd, i, j)),
    ensures
        ({
            let after = dec.tile_from(buf, pos, out, place, order);
            let layout = dec.layout(order);
            let k = pixel(dec.hd, i, j);
            let offset = sample::stored_value(
                buf.subrange(pos + 1, pos + 1 + used.size_spec()),
                used,
            );
            let t = turn(dec.mask, dec.hd, place, i, j);
            let z = offset.plus_spec(
                dec.hd.max_z_error.times_spec(2).times_spec(values[t] as nat),
            );
            &&& after.result == Err::<(), Fault>(
                Fault::InvalidData("LERC2 tile ran out of quantized values"@),
            )
            &&& after.pos == end
            &&& layout.cell(after.out, k, place.depth) == if t < values.len() {
                layout.word(
                    (if says_differences(dec.hd.version as int, buf[pos]) {
                        z.plus_spec(layout.get(out, k, place.depth - 1))
                    } else {
                        z
                    }).lesser_spec(cap(dec, place.depth)),
                )
            } else {
                layout.cell(out, k, place.depth)
            }
        }),
{
    let hd = dec.hd;
    lemma_flag(dec, buf[pos], place.j0);
    law_offset_types_are_those_of_the_flag(dec, buf[pos]);
    lemma_rect_len(place.rect(hd), dec.mask, false);
    let coding = TileCoding {
        source: TileSource::Quantized {
            offset: sample::stored_value(
                buf.subrange(pos + 1, pos + 1 + used.size_spec()),
                used,
            ),
            step: hd.max_z_error.times_spec(2),
            values,
        },
        diff: says_differences(hd.version as int, buf[pos]),
        z_max: cap(dec, place.depth),
    };
    lemma_partly_painted(dec, out, place, order, values.len() as int, coding, i, j);
}

/// A tile changes its own pixels at its own depth and no others, whether it is read or
/// refused, and of its own ones only the valid ones, unless it is quantized and has a value
/// for each of its pixels.  The raster stays as long as it was.
#[verifier::rlimit(30)]
pub proof fn law_tiles_leave_other_pixels(
    dec: Decoding,
    buf: Seq<u8>,
    pos: int,
    out: Seq<u8>,
    place: Place,
    order: ByteOrder,
    values: Seq<u32>,
    end: int,
    used: DataType,
    i: int,
    j: int,
    depth: int,
)
    requires
        dec.hd.wf(),
        dec.hd.raster_len() <= out.len(),
        place.within(dec.hd),
        0 <= pos < buf.len(),
        0 <= i < dec.hd.n_rows,
        0 <= j < dec.hd.n_cols,
        0 <= depth < dec.hd.n_depth,
        ({
            ||| !holds(place, i, j)
            ||| depth != place.depth
            ||| !dec.mask.valid(pixel(dec.hd, i, j)) && buf[pos] as int % 4 != 1
            ||| !dec.mask.valid(pixel(dec.hd, i, j)) && offset_type(
                dec.hd.dt,
                says_differences(dec.hd.version as int, buf[pos]),
                buf[pos] / 64,
            ) == Some(used) && bit_stuffer::block_at(
                buf,
                pos + 1 + used.size_spec(),
                ((place.i1 - place.i0) * (place.j1 - place.j0)) as nat,
            ) == (Ok::<Seq<u32>, Fault>(values), end) && values.len() != (place.i1 - place.i0) * (
            place.j1 - place.j0)
        }),
    ensures
        ({
            let after = dec.tile_from(buf, pos, out, place, order).out;
            let layout = dec.layout(order);
            let k = pixel(dec.hd, i, j);
            &&& after.len() == out.len()
            &&& layout.cell(after, k, depth) == layout.cell(out, k, depth)
        }),
{
    let hd = dec.hd;
    let k = pixel(hd, i, j);
    let w = hd.n_cols as int;
    let rect = place.rect(hd);
    lemma_flag(dec, buf[pos], place.j0);
    law_offset_types_are_those_of_the_flag(dec, buf[pos]);
    dec.law_tile_stays_in_its_place(buf, pos, out, place, order);
    assert(0 <= k && k < hd.num_pixels()) by (nonlinear_arith)
        requires
            k == i * w + j,
            0 <= i,
            i + 1 <= hd.n_rows,
            0 <= j < w,
            hd.num_pixels() == hd.n_rows * w,
    ;
    if rect.contains(k) {
        let (a, b) = choose|a: int, b: int|
            0 <= a < rect.rows && 0 <= b < rect.cols && #[trigger] rect.at(a, b) == k;
        let y = place.i0 + a;
        let x = place.j0 + b;
        assert(place.i0 * w + place.j0 + a * w + b == y * w + x) by (nonlinear_arith)
            requires
                y == place.i0 + a,
                x == place.j0 + b,
        ;
        lemma_fundamental_div_mod_converse(k, w, y, x);
        lemma_fundamental_div_mod_converse(k, w, i, j);
        assert(holds(place, i, j));
    }
}

/// The error of a tile is limited: a number `v`, given in units of 2^-1074, that was
/// quantized to a value so that the offset and as many times twice the largest error of the
/// header miss it by no more than the largest error comes out of the raster, cast to its
/// type, with no larger an error.  The room that `few` and `many` leave around the exact
/// multiple and `low` and `high` around the exact sum is for rounding; it is none where
/// these are numbers themselves.
#[verifier::rlimit(30)]
pub proof fn law_quantized_tile_has_limited_error(
    dec: Decoding,
    buf: Seq<u8>,
    pos: int,
    out: Seq<u8>,
    place: Place,
    order: ByteOrder,
    used: DataType,
    values: Seq<u32>,
    end: int,
    i: int,
    j: int,
    v: int,
    twice: Binary64,
    few: Binary64,
    many: Binary64,
    low: Binary64,
    high: Binary64,
)
    requires
        dec.hd.wf(),
        dec.hd.raster_len() <= out.len(),
        place.within(dec.hd),
        0 <= pos < buf.len(),
        repeats_column(dec.hd.version as int, buf[pos], place.j0),
        buf[pos] as int % 4 == 1,
        !says_differences(dec.hd.version as int, buf[pos]),
        offset_type(dec.hd.dt, false, buf[pos] / 64) == Some(used),
        pos + 1 + used.size_spec() <= buf.len(),
        bit_stuffer::block_at(
            buf,
            pos + 1 + used.size_spec(),
            ((place.i1 - place.i0) * (place.j1 - place.j0)) as nat,
        ) == (Ok::<Seq<u32>, Fault>(values), end),
        holds(place, i, j),
        ({
            ||| values.len() == (place.i1 - place.i0) * (place.j1 - place.j0)
            ||| values.len() >= valid_in_tile(dec.mask, dec.hd, place) && dec.mask.valid(
                pixel(dec.hd, i, j),
            )
        }),
        ({
            let t = if values.len() == (place.i1 - place.i0) * (place.j1 - place.j0) {
                position(place, i, j)
            } else {
                turn(dec.mask, dec.hd, place, i, j)
            };
            let offset = sample::stored_value(
                buf.subrange(pos + 1, pos + 1 + used.size_spec()),
                used,
            );
            let error = dec.hd.max_z_error.units();
            &&& offset.is_finite()
            &&& dec.hd.max_z_error.is_finite()
            &&& twice.is_finite()
            &&& few.is_finite()
            &&& many.is_finite()
            &&& sample::is_sample(low, dec.hd.dt)
            &&& sample::is_sample(high, dec.hd.dt)
            &&& sample::is_sample(cap(dec, place.depth), dec.hd.dt)
            &&& twice.units() == 2 * error
            &&& few.units() <= 2 * error * values[t] <= many.units()
            &&& low.units() <= offset.units() + few.units()
            &&& offset.units() + many.units() <= high.units()
            &&& v - error <= low.units()
            &&& high.units() <= v + error
            &&& v <= cap(dec, place.depth).units()
        }),
    ensures
        ({
            let error = dec.hd.max_z_error.units();
            let z = dec.layout(order).get(
                dec.tile_from(buf, pos, out, place, order).out,
                pixel(dec.hd, i, j),
                place.depth,
            );
            z.is_finite() && v - error <= z.units() <= v + error
        }),
{
    let hd = dec.hd;
    let layout = dec.layout(order);
    let k = pixel(hd, i, j);
    let t = if values.len() == (place.i1 - place.i0) * (place.j1 - place.j0) {
        position(place, i, j)
    } else {
        turn(dec.mask, hd, place, i, j)
    };
    let offset = sample::stored_value(buf.subrange(pos + 1, pos + 1 + used.size_spec()), used);
    let step = hd.max_z_error.times_spec(2);
    let q = values[t] as nat;
    let sum = offset.plus_spec(step.times_spec(q));
    let most = cap(dec, place.depth);
    let z = sum.lesser_spec(most);
    law_quantized_tile_is_read_back(
        dec,
        buf,
        pos,
        out,
        place,
        order,
        used,
        values,
        end,
        i,
        j,
    );
    binary64::law_products_stay_between(hd.max_z_error, 2, twice, twice);
    assert(step.units() * q == 2 * hd.max_z_error.units() * q);
    binary64::law_products_stay_between(step, q, few, many);
    binary64::law_sums_stay_between(offset, step.times_spec(q), low, high);
    binary64::law_rank_orders_numbers(most, sum);
    if z == sum {
        sample::law_casts_stay_between(z, low, high, hd.dt);
    } else {
        sample::law_casts_stay_between(z, most, most, hd.dt);
    }
    let after = dec.tile_from(buf, pos, out, place, order).out;
    lemma_read_back(dec, order, after, k, place.depth, z);
}

/// What an element stands for after a number was written to it.
proof fn lemma_read_back(
    dec: Decoding,
    order: ByteOrder,
    out: Seq<u8>,
    k: int,
    depth: int,
    z: Binary64,
)
    requires
        dec.layout(order).cell(out, k, depth) == dec.layout(order).word(z),
    ensures
        dec.layout(order).get(out, k, depth) == sample::written(z, dec.hd.dt),
{
    sample::lemma_word_bound(z, dec.hd.dt);
    bytes::law_value_of_bytes(
        sample::sample_word(z, dec.hd.dt),
        dec.hd.dt.size_spec(),
        order,
    );
}

} // verus!
