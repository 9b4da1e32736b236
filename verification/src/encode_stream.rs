//! How a stream is written, and that decoding undoes it.
use vstd::arithmetic::mul::*;
use vstd::prelude::*;

use crate::binary64::Binary64;
use crate::bit_stuffer;
use crate::blob;
use crate::blob::{Opening, Payload};
use crate::bytes::ByteOrder;
use crate::data_type::DataType;
use crate::decoder;
use crate::decoder::Decoding;
use crate::encode;
use crate::encode::Extras;
use crate::encode_mask;
use crate::encode_tile;
use crate::error::Fault;
use crate::fill;
use crate::header::HeaderInfo;
use crate::laws;
use crate::mask::{RlePart, Validity};
use crate::raster;
use crate::sample;

verus! {

/// The number of bytes of a sample.
pub open spec fn type_size(dt: DataType) -> nat {
    match dt {
        DataType::Char | DataType::Byte => 1,
        DataType::Short | DataType::UShort => 2,
        DataType::Int | DataType::UInt | DataType::Float => 4,
        DataType::Double => 8,
    }
}

/// Samples take as many bytes as their type says, and the number in a header that stands
/// for a type finds it again.
pub proof fn law_types_have_their_sizes(dt: DataType)
    ensures
        dt.size_spec() == type_size(dt),
        dt.code_spec() == encode::type_number(dt),
        DataType::of_code(encode::type_number(dt)) == Some(dt),
{
}

/// The elements of a raster lie row by row, in each row pixel by pixel, and in each pixel
/// depth by depth.
pub proof fn law_elements_lie_in_order(
    hd: HeaderInfo,
    order: ByteOrder,
    out: Seq<u8>,
    i: int,
    j: int,
    depth: int,
)
    ensures
        ({
            let layout = raster::Layout { n_depth: hd.n_depth, dt: hd.dt, order };
            let at = ((i * hd.n_cols + j) * hd.n_depth + depth) * type_size(hd.dt);
            layout.cell(out, encode_tile::pixel(hd, i, j), depth) == out.subrange(
                at,
                at + type_size(hd.dt),
            )
        }),
{
}

/// A stream up to its flags.
pub struct Written {
    pub hd: HeaderInfo,
    pub extras: Extras,
    /// Which pixels are valid.
    pub valid: Seq<bool>,
    /// How the mask is cut into runs.
    pub parts: Seq<RlePart>,
    /// The least numbers of all depths, and then the greatest ones.
    pub ranges: Seq<u8>,
}

/// Whether two numbers are equal: no NaNs, and the same encoding or two zeros.
pub open spec fn are_equal(a: Binary64, b: Binary64) -> bool {
    let x = a.bits as int % 0x8000_0000_0000_0000;
    let y = b.bits as int % 0x8000_0000_0000_0000;
    &&& x <= 0x7ff0_0000_0000_0000
    &&& y <= 0x7ff0_0000_0000_0000
    &&& a.bits == b.bits || (x == 0 && y == 0)
}

/// Equality of numbers is that of their encodings, but for the two zeros, which are equal,
/// and for NaNs, which equal nothing.
pub proof fn law_equality_is_that_of_numbers(a: Binary64, b: Binary64)
    ensures
        a.equals_spec(b) == are_equal(a, b),
{
}

impl Written {
    /// A raster is described.
    pub open spec fn is_raster(self) -> bool {
        &&& 1 <= self.hd.version <= 6
        &&& 0 < self.hd.n_rows
        &&& 0 < self.hd.n_cols
        &&& 0 < self.hd.n_depth
        &&& self.hd.version < 4 ==> self.hd.n_depth == 1
        &&& 0 < self.hd.micro_block_size <= 32
        &&& 0 < self.hd.blob_size
        &&& self.valid.len() == self.hd.n_rows * self.hd.n_cols <= 0x7fff_ffff
        &&& self.hd.num_valid_pixel == encode_mask::count(self.valid)
        &&& encode_mask::are_parts(self.parts)
        &&& encode_mask::parts_bytes(self.parts) == encode_mask::mask_bytes(self.valid)
        &&& encode_mask::parts_code(self.parts).len() + 2 <= 0x7fff_ffff
        &&& self.ranges.len() == 2 * self.hd.n_depth * type_size(self.hd.dt)
    }

    /// The least number of a depth.
    pub open spec fn least(self, depth: int) -> Binary64 {
        let at = depth * type_size(self.hd.dt);
        sample::stored_value(self.ranges.subrange(at, at + type_size(self.hd.dt)), self.hd.dt)
    }

    /// The greatest number of a depth.
    pub open spec fn greatest(self, depth: int) -> Binary64 {
        let at = (self.hd.n_depth + depth) * type_size(self.hd.dt);
        sample::stored_value(self.ranges.subrange(at, at + type_size(self.hd.dt)), self.hd.dt)
    }

    /// The header says that all valid pixels are the same.
    pub open spec fn is_constant(self) -> bool {
        are_equal(self.hd.z_min, self.hd.z_max)
    }

    /// Ranges are written: from version 4 on, for rasters with valid pixels that the header
    /// does not say are constant.
    pub open spec fn has_ranges(self) -> bool {
        self.hd.version >= 4 && encode_mask::count(self.valid) > 0 && !self.is_constant()
    }

    /// The ranges say that all valid pixels are the same at each depth.
    pub open spec fn is_flat(self) -> bool {
        self.has_ranges() && forall|d: int|
            0 <= d < self.hd.n_depth ==> are_equal(#[trigger] self.least(d), self.greatest(d))
    }

    /// A flag before the tiles says whether they are Huffman-coded: for bytes from version 2
    /// on where the largest error is 0.5, and for floating-point numbers from version 6 on
    /// where it is 0.
    pub open spec fn has_huffman_flag(self) -> bool {
        let bits = self.hd.max_z_error.bits;
        ||| self.hd.version >= 2 && (self.hd.dt == DataType::Byte || self.hd.dt == DataType::Char)
            && bits == 0x3fe0_0000_0000_0000
        ||| self.hd.version >= 6 && (self.hd.dt == DataType::Float || self.hd.dt
            == DataType::Double) && (bits == 0 || bits == 0x8000_0000_0000_0000)
    }

    /// The bytes up to the flags.
    pub open spec fn bytes(self) -> Seq<u8> {
        encode::header_bytes(self.hd, encode::type_number(self.hd.dt), self.extras)
            + encode_mask::mask_code(self.valid, self.parts) + if self.has_ranges() {
            self.ranges
        } else {
            Seq::empty()
        }
    }

    /// A decoding knows what was written.
    pub open spec fn is_known(self, dec: Decoding) -> bool {
        &&& dec.hd == self.hd
        &&& dec.mask.covers(self.valid.len() as int)
        &&& forall|k: int|
            0 <= k < self.valid.len() ==> #[trigger] dec.mask.valid(k) == self.valid[k]
        &&& self.has_ranges() ==> {
            &&& dec.z_min.len() == self.hd.n_depth
            &&& dec.z_max.len() == self.hd.n_depth
            &&& forall|d: int|
                0 <= d < self.hd.n_depth ==> #[trigger] dec.z_min[d] == self.least(d)
            &&& forall|d: int|
                0 <= d < self.hd.n_depth ==> #[trigger] dec.z_max[d] == self.greatest(d)
        }
    }
}

/// The ranges of a stream that was written.
proof fn lemma_ranges(w: Written, dec: Decoding, buf: Seq<u8>, before: Seq<u8>, after: Seq<u8>)
    requires
        w.is_raster(),
        dec.hd == w.hd,
        buf == before + w.ranges + after,
    ensures
        ({
            let known = dec.with_ranges(buf, before.len() as int);
            &&& known.z_min.len() == w.hd.n_depth
            &&& known.z_max.len() == w.hd.n_depth
            &&& forall|d: int| 0 <= d < w.hd.n_depth ==> #[trigger] known.z_min[d] == w.least(d)
            &&& forall|d: int| 0 <= d < w.hd.n_depth ==> #[trigger] known.z_max[d] == w.greatest(d)
        }),
{
    let known = dec.with_ranges(buf, before.len() as int);
    let n = w.hd.n_depth as int;
    let size = type_size(w.hd.dt) as int;
    encode::lemma_second(before, w.ranges, after, buf);
    assert(2 * n * size == n * size + n * size) by (nonlinear_arith);
    assert forall|d: int| 0 <= d < n implies #[trigger] known.z_min[d] == w.least(d) by {
        assert(0 <= d * size && d * size + size <= n * size) by (nonlinear_arith)
            requires
                0 <= d,
                d + 1 <= n,
                size >= 0,
        ;
        assert(w.ranges.subrange(d * size, d * size + size) == buf.subrange(
            before.len() + d * size,
            before.len() + (d * size + size),
        ));
    }
    assert forall|d: int| 0 <= d < n implies #[trigger] known.z_max[d] == w.greatest(d) by {
        assert(0 <= d * size && d * size + size <= n * size) by (nonlinear_arith)
            requires
                0 <= d,
                d + 1 <= n,
                size >= 0,
        ;
        let at = (n + d) * size;
        assert(at == n * size + d * size) by (nonlinear_arith)
            requires
                at == (n + d) * size,
        ;
        assert(w.ranges.subrange(at, at + size) == buf.subrange(
            before.len() + at,
            before.len() + (at + size),
        ));
    }
}

/// Reading a stream up to its numbers undoes writing it: the header, which pixels are valid
/// and the ranges come out as they were written, and the flags say how the numbers are
/// stored and where they start.
#[verifier::rlimit(80)]
pub proof fn law_opening_is_read_back(w: Written, rest: Seq<u8>)
    requires
        w.is_raster(),
        w.hd.blob_size <= w.bytes().len() + rest.len(),
    ensures
        ({
            let stream = w.bytes() + rest;
            let result = blob::opening(w.hd, stream);
            let at = w.bytes().len() as int;
            &&& blob::whole_header(stream) == Ok::<HeaderInfo, Fault>(w.hd)
            &&& result matches Ok(opening) ==> w.is_known(opening.decoding)
            &&& if encode_mask::count(w.valid) == 0 {
                result is Ok && result->Ok_0.payload == Payload::Empty
            } else if w.is_constant() || w.is_flat() {
                result is Ok && result->Ok_0.payload == Payload::Constant
            } else if rest.len() == 0 {
                result == Err::<Opening, Fault>(
                    Fault::InvalidData("unexpected end of LERC blob"@),
                )
            } else if rest[0] != 0 {
                result is Ok && result->Ok_0.payload == Payload::Sweep && result->Ok_0.pos == at + 1
            } else if !w.has_huffman_flag() {
                result is Ok && result->Ok_0.payload == Payload::Tiles && result->Ok_0.pos == at + 1
            } else if rest.len() == 1 {
                result == Err::<Opening, Fault>(
                    Fault::InvalidData("unexpected end of LERC blob"@),
                )
            } else if rest[1] != 0 {
                result == Err::<Opening, Fault>(
                    Fault::InvalidData(
                        "LERC2 Huffman-coded images are not supported by this decoder"@,
                    ),
                )
            } else {
                result is Ok && result->Ok_0.payload == Payload::Tiles && result->Ok_0.pos == at + 2
            }
        }),
{
    let hd = w.hd;
    let head = encode::header_bytes(hd, encode::type_number(hd.dt), w.extras);
    let code = encode_mask::mask_code(w.valid, w.parts);
    let ranges = if w.has_ranges() {
        w.ranges
    } else {
        Seq::empty()
    };
    let stream = w.bytes() + rest;
    let pos = head.len() as int;
    let before = head + code;
    let at = w.bytes().len() as int;
    assert(stream =~= before + (ranges + rest));
    lemma_front(w, ranges + rest);
    let (mask, end) = decoder::mask_at(hd, stream, pos);
    let start = Decoding::start(hd, mask->Ok_0);
    law_equality_is_that_of_numbers(hd.z_min, hd.z_max);
    lemma_flags(w, start, w.bytes(), rest);
    assert(blob::opening(hd, stream) == blob::opening_at(hd, stream, pos));
    if w.has_ranges() {
        assert(stream =~= before + w.ranges + rest);
        lemma_flat(w, start, stream, before, rest);
        lemma_flags(w, start.with_ranges(stream, end), w.bytes(), rest);
    }
}

/// The header and the mask of a stream that was written.
proof fn lemma_front(w: Written, tail: Seq<u8>)
    requires
        w.is_raster(),
        w.hd.blob_size <= encode::header_bytes(
            w.hd,
            encode::type_number(w.hd.dt),
            w.extras,
        ).len() + encode_mask::mask_code(w.valid, w.parts).len() + tail.len(),
    ensures
        ({
            let head = encode::header_bytes(w.hd, encode::type_number(w.hd.dt), w.extras);
            let code = encode_mask::mask_code(w.valid, w.parts);
            let stream = head + code + tail;
            let (mask, end) = decoder::mask_at(w.hd, stream, head.len() as int);
            &&& blob::whole_header(stream) == Ok::<HeaderInfo, Fault>(w.hd)
            &&& head.len() == crate::header::header_len(w.hd.version as int)
            &&& mask is Ok
            &&& end == (head + code).len()
            &&& mask->Ok_0.covers(w.valid.len() as int)
            &&& forall|k: int|
                0 <= k < w.valid.len() ==> #[trigger] mask->Ok_0.valid(k) == w.valid[k]
        }),
{
    let hd = w.hd;
    let head = encode::header_bytes(hd, encode::type_number(hd.dt), w.extras);
    let code = encode_mask::mask_code(w.valid, w.parts);
    let stream = head + code + tail;
    assert(stream =~= head + (code + tail));
    lemma_front_header(w, code + tail);
    lemma_front_mask(w, head, tail);
}

/// The header of a stream that was written.
proof fn lemma_front_header(w: Written, tail: Seq<u8>)
    requires
        w.is_raster(),
        w.hd.blob_size <= encode::header_bytes(
            w.hd,
            encode::type_number(w.hd.dt),
            w.extras,
        ).len() + tail.len(),
    ensures
        ({
            let head = encode::header_bytes(w.hd, encode::type_number(w.hd.dt), w.extras);
            &&& blob::whole_header(head + tail) == Ok::<HeaderInfo, Fault>(w.hd)
            &&& head.len() == crate::header::header_len(w.hd.version as int)
        }),
{
    encode_mask::lemma_counted(w.valid);
    encode::law_header_is_read_back(w.hd, w.extras, tail);
}

/// The mask of a stream that was written.
proof fn lemma_front_mask(w: Written, head: Seq<u8>, tail: Seq<u8>)
    requires
        w.is_raster(),
    ensures
        ({
            let code = encode_mask::mask_code(w.valid, w.parts);
            let stream = head + code + tail;
            let (mask, end) = decoder::mask_at(w.hd, stream, head.len() as int);
            &&& mask is Ok
            &&& end == (head + code).len()
            &&& mask->Ok_0.covers(w.valid.len() as int)
            &&& forall|k: int|
                0 <= k < w.valid.len() ==> #[trigger] mask->Ok_0.valid(k) == w.valid[k]
        }),
{
    let code = encode_mask::mask_code(w.valid, w.parts);
    let stream = head + code + tail;
    let pos = head.len() as int;
    assert(code =~= stream.skip(pos).subrange(0, code.len() as int));
    encode_mask::law_mask_is_read_back(w.hd, w.valid, w.parts, stream, pos);
}

/// Whether the ranges of a stream that was written are flat.
proof fn lemma_flat(w: Written, dec: Decoding, buf: Seq<u8>, before: Seq<u8>, after: Seq<u8>)
    requires
        w.is_raster(),
        w.has_ranges(),
        dec.hd == w.hd,
        buf == before + w.ranges + after,
    ensures
        ({
            let known = dec.with_ranges(buf, before.len() as int);
            &&& known.is_flat() == w.is_flat()
            &&& known.z_min.len() == w.hd.n_depth
            &&& known.z_max.len() == w.hd.n_depth
            &&& forall|d: int| 0 <= d < w.hd.n_depth ==> #[trigger] known.z_min[d] == w.least(d)
            &&& forall|d: int| 0 <= d < w.hd.n_depth ==> #[trigger] known.z_max[d] == w.greatest(d)
        }),
{
    let known = dec.with_ranges(buf, before.len() as int);
    lemma_ranges(w, dec, buf, before, after);
    assert forall|d: int| 0 <= d < w.hd.n_depth implies (#[trigger] known.z_min[d]).equals_spec(
        known.z_max[d],
    ) == are_equal(w.least(d), w.greatest(d)) by {
        law_equality_is_that_of_numbers(w.least(d), w.greatest(d));
    }
    if w.is_flat() {
        assert forall|d: int| 0 <= d < known.z_min.len() implies (
        #[trigger] known.z_min[d]).equals_spec(known.z_max[d]) by {
            assert(are_equal(w.least(d), w.greatest(d)));
        }
    } else {
        let d = choose|d: int|
            0 <= d < w.hd.n_depth && !are_equal(#[trigger] w.least(d), w.greatest(d));
        assert(!known.z_min[d].equals_spec(known.z_max[d]));
    }
}

/// The flags of a stream that was written.
proof fn lemma_flags(w: Written, dec: Decoding, before: Seq<u8>, rest: Seq<u8>)
    requires
        dec.hd == w.hd,
    ensures
        ({
            let stream = before + rest;
            let at = before.len() as int;
            dec.flags_at(stream, at) == if rest.len() == 0 {
                Err::<Opening, Fault>(Fault::InvalidData("unexpected end of LERC blob"@))
            } else if rest[0] != 0 {
                Ok(Opening { decoding: dec, payload: Payload::Sweep, pos: at + 1 })
            } else if !w.has_huffman_flag() {
                Ok(Opening { decoding: dec, payload: Payload::Tiles, pos: at + 1 })
            } else if rest.len() == 1 {
                Err(Fault::InvalidData("unexpected end of LERC blob"@))
            } else if rest[1] != 0 {
                Err(
                    Fault::InvalidData(
                        "LERC2 Huffman-coded images are not supported by this decoder"@,
                    ),
                )
            } else {
                Ok(Opening { decoding: dec, payload: Payload::Tiles, pos: at + 2 })
            }
        }),
{
    lemma_huffman(w);
    let stream = before + rest;
    let at = before.len() as int;
    if rest.len() > 0 {
        assert(stream[at] == rest[0]);
    }
    if rest.len() > 1 {
        assert(stream[at + 1] == rest[1]);
    }
}

/// When there is a flag for Huffman coding.
proof fn lemma_huffman(w: Written)
    ensures
        w.hd.has_huffman_flag() == w.has_huffman_flag(),
{
    law_equality_is_that_of_numbers(w.hd.max_z_error, blob::one_half());
    law_equality_is_that_of_numbers(w.hd.max_z_error, blob::zero());
    let x = w.hd.max_z_error.bits as int % 0x8000_0000_0000_0000;
    assert(x == 0 <==> (w.hd.max_z_error.bits == 0 || w.hd.max_z_error.bits
        == 0x8000_0000_0000_0000));
}

/// The valid pixels of a stretch are those between two counts.
proof fn lemma_row_count(mask: Validity, valid: Seq<bool>, first: int, n: nat)
    requires
        0 <= first,
        first + n <= valid.len(),
        forall|k: int| 0 <= k < valid.len() ==> #[trigger] mask.valid(k) == valid[k],
    ensures
        encode_mask::count(valid.take(first + n)) == encode_mask::count(valid.take(first))
            + encode_tile::valid_in_row(mask, first, n),
    decreases n,
{
    if n > 0 {
        lemma_row_count(mask, valid, first, (n - 1) as nat);
        let part = valid.take(first + n);
        assert(part.drop_last() =~= valid.take(first + n - 1));
        assert(mask.valid(first + n - 1) == valid[first + n - 1]);
    }
}

/// The valid pixels of whole rows are counted from the first one on.
proof fn lemma_rows_count(mask: Validity, valid: Seq<bool>, w: nat, rows: nat)
    requires
        rows * w <= valid.len(),
        forall|k: int| 0 <= k < valid.len() ==> #[trigger] mask.valid(k) == valid[k],
    ensures
        encode_mask::count(valid.take((rows * w) as int)) == encode_tile::valid_in_rows(
            mask,
            0,
            w as int,
            w,
            rows,
        ),
    decreases rows,
{
    if rows == 0 {
        lemma_mul_basics(w as int);
        assert(valid.take(0).len() == 0);
    } else {
        let before = (rows - 1) as nat;
        assert(before * w + w == rows * w) by (nonlinear_arith)
            requires
                rows == before + 1,
        ;
        lemma_rows_count(mask, valid, w, before);
        lemma_row_count(mask, valid, (before * w) as int, w);
    }
}

/// The turn of a valid pixel of the raster is the number of valid pixels before it.
proof fn lemma_turn(w: Written, dec: Decoding, i: int, j: int)
    requires
        w.is_raster(),
        w.is_known(dec),
        0 <= i < w.hd.n_rows,
        0 <= j < w.hd.n_cols,
    ensures
        ({
            let k = i * w.hd.n_cols + j;
            let t = encode_mask::count(w.valid.take(k));
            &&& 0 <= k < w.valid.len()
            &&& dec.valid_pixels().len() == encode_mask::count(w.valid)
            &&& w.valid[k] ==> t < dec.valid_pixels().len() && dec.valid_pixels()[t as int] == k
        }),
{
    let cols = w.hd.n_cols as nat;
    let rows = w.hd.n_rows as nat;
    let rect = fill::whole(w.hd);
    let k = i * cols + j;
    assert(0 <= k && k < rows * cols && i * cols >= 0 && i * cols + cols <= rows * cols)
        by (nonlinear_arith)
        requires
            k == i * cols + j,
            0 <= i,
            i + 1 <= rows,
            0 <= j < cols,
    ;
    lemma_rows_count(dec.mask, w.valid, cols, rows);
    assert(w.valid.take((rows * cols) as int) =~= w.valid);
    encode_tile::lemma_rect_len(rect, dec.mask, false);
    if w.valid[k] {
        assert(dec.mask.valid(k));
        assert(rect.at(i, j) == k);
        encode_tile::lemma_rect_turns(rect, dec.mask, false, i, j);
        lemma_rows_count(dec.mask, w.valid, cols, i as nat);
        lemma_row_count(dec.mask, w.valid, i * cols, j as nat);
    }
}

/// Where the element of a pixel starts.
pub open spec fn element_start(hd: HeaderInfo, i: int, j: int, depth: int) -> int {
    ((i * hd.n_cols + j) * hd.n_depth + depth) * type_size(hd.dt)
}

/// The bytes of the element of a pixel.
pub open spec fn element(hd: HeaderInfo, out: Seq<u8>, i: int, j: int, depth: int) -> Seq<u8> {
    let at = element_start(hd, i, j, depth);
    out.subrange(at, at + type_size(hd.dt))
}

/// Samples that stand one after the other.
#[verifier::rlimit(40)]
proof fn lemma_swept(
    w: Written,
    dec: Decoding,
    buf: Seq<u8>,
    pos: int,
    samples: Seq<u8>,
    order: ByteOrder,
    i: int,
    j: int,
    depth: int,
)
    requires
        w.is_raster(),
        w.is_known(dec),
        w.hd.wf(),
        0 <= pos <= buf.len(),
        samples.len() == encode_mask::count(w.valid) * w.hd.n_depth * type_size(w.hd.dt),
        samples.is_prefix_of(buf.skip(pos)),
        0 <= i < w.hd.n_rows,
        0 <= j < w.hd.n_cols,
        0 <= depth < w.hd.n_depth,
    ensures
        ({
            let after = dec.sweep_from(buf, pos, blob::blank(w.hd), order);
            let k = i * w.hd.n_cols + j;
            let at = (encode_mask::count(w.valid.take(k)) * w.hd.n_depth + depth) * type_size(
                w.hd.dt,
            );
            let s = samples.subrange(at, at + type_size(w.hd.dt));
            &&& after.result is Ok
            &&& after.out.len() == w.hd.n_rows * w.hd.n_cols * w.hd.n_depth * type_size(w.hd.dt)
            &&& element(w.hd, after.out, i, j, depth) == if !w.valid[k] {
                Seq::new(type_size(w.hd.dt), |b: int| 0u8)
            } else {
                dec.layout(order).word(sample::stored_value(s, w.hd.dt))
            }
            &&& w.valid[k] && sample::is_exact_sample(s, w.hd.dt) ==> element(
                w.hd,
                after.out,
                i,
                j,
                depth,
            ) == match order {
                ByteOrder::Little => s,
                ByteOrder::Big => s.reverse(),
            }
        }),
{
    let hd = w.hd;
    let layout = dec.layout(order);
    let out = blob::blank(hd);
    let nd = hd.n_depth as int;
    let sz = type_size(hd.dt) as int;
    let size = nd * sz;
    let k = i * hd.n_cols + j;
    let t = encode_mask::count(w.valid.take(k)) as int;
    let n = encode_mask::count(w.valid) as int;
    let pixels = dec.valid_pixels();
    let after = dec.sweep_from(buf, pos, out, order);
    lemma_turn(w, dec, i, j);
    blob::lemma_raster_len(hd);
    // All samples are there.
    let left = buf.len() - pos;
    assert(buf.skip(pos).len() == left);
    assert(size >= 1) by (nonlinear_arith)
        requires
            size == nd * sz,
            nd >= 1,
            sz >= 1,
    ;
    assert(n * nd * sz == n * size) by (nonlinear_arith)
        requires
            size == nd * sz,
    ;
    vstd::arithmetic::div_mod::lemma_fundamental_div_mod(left, size);
    vstd::arithmetic::div_mod::lemma_mod_bound(left, size);
    let stored = left / size;
    assert(n <= stored) by (nonlinear_arith)
        requires
            n * size <= left,
            left < size * stored + size,
            size > 0,
    ;
    assert(after.result is Ok);
    laws::lemma_first_valid_pixels(dec, n);
    let source = fill::FillSource::Stored(buf.skip(pos));
    fill::law_raster_is_filled(layout, out, hd.num_pixels(), pixels.take(n), source);
    law_elements_lie_in_order(hd, order, after.out, i, j, depth);
    if w.valid[k] {
        let at = (t * nd + depth) * sz;
        let m = t * nd + depth;
        assert(0 <= m && m + 1 <= n * nd) by (nonlinear_arith)
            requires
                m == t * nd + depth,
                0 <= t,
                t + 1 <= n,
                0 <= depth < nd,
        ;
        assert(0 <= at && at + sz <= n * nd * sz) by (nonlinear_arith)
            requires
                at == m * sz,
                0 <= m,
                m + 1 <= n * nd,
                sz >= 1,
        ;
        let s = samples.subrange(at, at + sz);
        assert(laws::stored_sample(hd, buf, pos, t, depth) =~= s) by {
            assert(samples =~= buf.skip(pos).subrange(0, samples.len() as int));
            assert forall|b: int| 0 <= b < sz implies #[trigger] laws::stored_sample(
                hd,
                buf,
                pos,
                t,
                depth,
            )[b] == s[b] by {
                assert(samples[at + b] == buf.skip(pos)[at + b]);
            }
        }
        assert(pixels.take(n) =~= pixels);
        assert(buf.skip(pos).subrange(at, at + sz) =~= s);
        assert(layout.cell(after.out, pixels[t], depth) == layout.word(
            source.number(layout, t, depth),
        ));
        if sample::is_exact_sample(s, hd.dt) {
            laws::law_sweep_is_lossless(dec, buf, pos, out, order, t, depth);
        }
    } else {
        if pixels.take(n).contains(k) {
            assert(dec.mask.valid(k));
        }
        laws::lemma_blank_cell(layout, hd, k, depth);
    }
}

/// A stream whose samples stand one after the other is decoded to the raster that was
/// written: it is as long as its size says, each valid pixel holds at each depth the number
/// of the sample of its turn, which but for a binary32 NaN is the sample itself in the byte
/// order of the raster, and each invalid one zeros.  What follows the samples has no
/// influence.
#[verifier::rlimit(40)]
pub proof fn law_swept_stream_is_decoded(
    w: Written,
    flag: u8,
    samples: Seq<u8>,
    rest: Seq<u8>,
    order: ByteOrder,
    i: int,
    j: int,
    depth: int,
)
    requires
        w.is_raster(),
        encode_mask::count(w.valid) > 0,
        !w.is_constant(),
        !w.is_flat(),
        flag != 0,
        samples.len() == encode_mask::count(w.valid) * w.hd.n_depth * type_size(w.hd.dt),
        w.hd.blob_size <= w.bytes().len() + 1 + samples.len() + rest.len(),
        0 <= i < w.hd.n_rows,
        0 <= j < w.hd.n_cols,
        0 <= depth < w.hd.n_depth,
    ensures
        ({
            let stream = w.bytes() + (seq![flag] + samples + rest);
            let result = blob::raster_of(stream, order);
            let k = i * w.hd.n_cols + j;
            let at = (encode_mask::count(w.valid.take(k)) * w.hd.n_depth + depth) * type_size(
                w.hd.dt,
            );
            let layout = raster::Layout { n_depth: w.hd.n_depth, dt: w.hd.dt, order };
            let s = samples.subrange(at, at + type_size(w.hd.dt));
            &&& result is Ok
            &&& result->Ok_0.len() == w.hd.n_rows * w.hd.n_cols * w.hd.n_depth * type_size(w.hd.dt)
            &&& element(w.hd, result->Ok_0, i, j, depth) == if !w.valid[k] {
                Seq::new(type_size(w.hd.dt), |b: int| 0u8)
            } else {
                layout.word(sample::stored_value(s, w.hd.dt))
            }
            &&& w.valid[k] && sample::is_exact_sample(s, w.hd.dt) ==> element(
                w.hd,
                result->Ok_0,
                i,
                j,
                depth,
            ) == match order {
                ByteOrder::Little => s,
                ByteOrder::Big => s.reverse(),
            }
        }),
{
    let hd = w.hd;
    let tail = seq![flag] + samples + rest;
    let stream = w.bytes() + tail;
    law_opening_is_read_back(w, tail);
    let opening = blob::opening(hd, stream)->Ok_0;
    let dec = opening.decoding;
    let pos = w.bytes().len() + 1;
    assert(opening.pos == pos);
    lemma_is_wf(w);
    assert(samples =~= stream.skip(pos as int).subrange(0, samples.len() as int));
    lemma_swept(w, dec, stream, pos as int, samples, order, i, j, depth);
    assert(blob::raster_of(stream, order) == blob::finished(
        dec.sweep_from(stream, pos as int, blob::blank(hd), order),
    ));
}

/// A header that describes a raster is sound.
proof fn lemma_is_wf(w: Written)
    requires
        w.is_raster(),
    ensures
        w.hd.wf(),
        w.hd.num_pixels() == w.valid.len(),
{
    encode_mask::lemma_counted(w.valid);
}

/// A stream whose raster is constant, or has no valid pixels, is decoded to the raster that
/// was written, whatever follows: each valid pixel holds the least number of the header, or
/// that of its depth where the header does not say that the raster is constant but the
/// ranges do, and each invalid one zeros.
#[verifier::rlimit(40)]
pub proof fn law_constant_stream_is_decoded(
    w: Written,
    rest: Seq<u8>,
    order: ByteOrder,
    i: int,
    j: int,
    depth: int,
)
    requires
        w.is_raster(),
        encode_mask::count(w.valid) == 0 || w.is_constant() || w.is_flat(),
        w.hd.blob_size <= w.bytes().len() + rest.len(),
        0 <= i < w.hd.n_rows,
        0 <= j < w.hd.n_cols,
        0 <= depth < w.hd.n_depth,
    ensures
        ({
            let result = blob::raster_of(w.bytes() + rest, order);
            let layout = raster::Layout { n_depth: w.hd.n_depth, dt: w.hd.dt, order };
            &&& result is Ok
            &&& result->Ok_0.len() == w.hd.n_rows * w.hd.n_cols * w.hd.n_depth * type_size(w.hd.dt)
            &&& element(w.hd, result->Ok_0, i, j, depth) == if w.valid[i * w.hd.n_cols + j] {
                layout.word(
                    if w.is_constant() {
                        w.hd.z_min
                    } else {
                        w.least(depth)
                    },
                )
            } else {
                Seq::new(type_size(w.hd.dt), |b: int| 0u8)
            }
        }),
{
    let stream = w.bytes() + rest;
    law_opening_is_read_back(w, rest);
    lemma_is_wf(w);
    let opening = blob::opening(w.hd, stream)->Ok_0;
    let dec = opening.decoding;
    let blank = blob::blank(w.hd);
    lemma_constant(w, dec, order, i, j, depth);
    assert(blob::raster_of(stream, order) == opening.raster(stream, order));
    if encode_mask::count(w.valid) == 0 {
        encode_mask::lemma_counted(w.valid);
        assert(!w.valid[i * w.hd.n_cols + j]);
        assert(opening.raster(stream, order) == Ok::<Seq<u8>, Fault>(blank));
    } else {
        assert(opening.raster(stream, order) == Ok::<Seq<u8>, Fault>(
            fill::filled(dec.layout(order), blank, dec.valid_pixels(), dec.constant_source()),
        ));
    }
}

/// A raster that is filled with its constants.
#[verifier::rlimit(40)]
proof fn lemma_constant(w: Written, dec: Decoding, order: ByteOrder, i: int, j: int, depth: int)
    requires
        w.is_raster(),
        w.is_known(dec),
        w.hd.wf(),
        0 <= i < w.hd.n_rows,
        0 <= j < w.hd.n_cols,
        0 <= depth < w.hd.n_depth,
    ensures
        ({
            let blank = blob::blank(w.hd);
            let out = fill::filled(
                dec.layout(order),
                blank,
                dec.valid_pixels(),
                dec.constant_source(),
            );
            let zeros = Seq::new(type_size(w.hd.dt), |b: int| 0u8);
            &&& 0 <= i * w.hd.n_cols + j < w.valid.len()
            &&& blank.len() == w.hd.n_rows * w.hd.n_cols * w.hd.n_depth * type_size(w.hd.dt)
            &&& out.len() == blank.len()
            &&& element(w.hd, blank, i, j, depth) == zeros
            &&& w.is_constant() || w.has_ranges() ==> element(w.hd, out, i, j, depth)
                == if w.valid[i * w.hd.n_cols + j] {
                dec.layout(order).word(
                    if w.is_constant() {
                        w.hd.z_min
                    } else {
                        w.least(depth)
                    },
                )
            } else {
                zeros
            }
        }),
{
    let hd = w.hd;
    let layout = dec.layout(order);
    let blank = blob::blank(hd);
    let pixels = dec.valid_pixels();
    let source = dec.constant_source();
    let k = i * hd.n_cols + j;
    let out = fill::filled(layout, blank, pixels, source);
    lemma_turn(w, dec, i, j);
    blob::lemma_raster_len(hd);
    law_equality_is_that_of_numbers(hd.z_min, hd.z_max);
    laws::lemma_valid_pixels(dec);
    laws::lemma_blank_cell(layout, hd, k, depth);
    fill::law_raster_is_filled(layout, blank, hd.num_pixels(), pixels, source);
    law_elements_lie_in_order(hd, order, out, i, j, depth);
    law_elements_lie_in_order(hd, order, blank, i, j, depth);
    if w.valid[k] {
        let t = encode_mask::count(w.valid.take(k)) as int;
        assert(layout.cell(out, pixels[t], depth) == layout.word(
            source.number(layout, t, depth),
        ));
    } else {
        if pixels.contains(k) {
            assert(dec.mask.valid(k));
        }
    }
}

/// A tiled stream is decoded tile by tile: after the flags each tile stands where the one
/// before it ends, what follows the last one has no influence, and each pixel becomes at
/// each depth what its tile makes of it, which starts from zeros and finds at the depth
/// before what the raster holds there in the end.
#[verifier::rlimit(40)]
pub proof fn law_tiled_stream_is_decoded(
    w: Written,
    rest: Seq<u8>,
    ends: Seq<int>,
    order: ByteOrder,
    i: int,
    j: int,
    depth: int,
)
    requires
        w.is_raster(),
        encode_mask::count(w.valid) > 0,
        !w.is_constant(),
        !w.is_flat(),
        w.hd.blob_size <= w.bytes().len() + rest.len(),
        rest.len() >= 2,
        rest[0] == 0,
        w.has_huffman_flag() ==> rest[1] == 0,
        ends.len() == w.hd.num_tiles() + 1,
        ends[0] == w.bytes().len() + if w.has_huffman_flag() {
            2int
        } else {
            1
        },
        ({
            let stream = w.bytes() + rest;
            let dec = blob::opening(w.hd, stream)->Ok_0.decoding;
            forall|m: int, o: Seq<u8>|
                0 <= m < w.hd.num_tiles() && o.len() == w.hd.raster_len()
                    ==> (#[trigger] dec.tile_from(
                    stream,
                    ends[m],
                    o,
                    w.hd.tile(m),
                    order,
                )).result is Ok && dec.tile_from(stream, ends[m], o, w.hd.tile(m), order).pos
                    == ends[m + 1]
        }),
        0 <= i < w.hd.n_rows,
        0 <= j < w.hd.n_cols,
        0 <= depth < w.hd.n_depth,
    ensures
        ({
            let stream = w.bytes() + rest;
            let dec = blob::opening(w.hd, stream)->Ok_0.decoding;
            let result = blob::raster_of(stream, order);
            let mb = w.hd.micro_block_size as int;
            let hori = (w.hd.n_cols + mb - 1) / mb;
            let own = (i / mb * hori + j / mb) * w.hd.n_depth + depth;
            let len = w.hd.n_rows * w.hd.n_cols * w.hd.n_depth * type_size(w.hd.dt);
            &&& w.is_known(dec)
            &&& result is Ok
            &&& result->Ok_0.len() == len
            &&& exists|o: Seq<u8>|
                {
                    &&& o.len() == len
                    &&& element(w.hd, o, i, j, depth) == Seq::new(type_size(w.hd.dt), |b: int| 0u8)
                    &&& depth > 0 ==> element(w.hd, o, i, j, depth - 1) == element(
                        w.hd,
                        result->Ok_0,
                        i,
                        j,
                        depth - 1,
                    )
                    &&& element(w.hd, result->Ok_0, i, j, depth) == element(
                        w.hd,
                        (#[trigger] dec.tile_from(
                            stream,
                            ends[own],
                            o,
                            w.hd.tile(own),
                            order,
                        )).out,
                        i,
                        j,
                        depth,
                    )
                }
        }),
{
    let hd = w.hd;
    let stream = w.bytes() + rest;
    law_opening_is_read_back(w, rest);
    lemma_is_wf(w);
    let dec = blob::opening(hd, stream)->Ok_0.decoding;
    let out = blob::blank(hd);
    blob::lemma_raster_len(hd);
    dec.law_tiles_are_read_one_after_the_other(stream, ends, out, order, i, j, depth);
    lemma_turn(w, dec, i, j);
    laws::lemma_blank_cell(dec.layout(order), hd, i * hd.n_cols + j, depth);
    laws::lemma_num_tiles(hd);
}

/// The tile of a pixel of a tiled stream, and what it finds.
#[verifier::rlimit(40)]
proof fn lemma_own_tile(
    w: Written,
    rest: Seq<u8>,
    ends: Seq<int>,
    order: ByteOrder,
    i: int,
    j: int,
    depth: int,
) -> (o: Seq<u8>)
    requires
        w.is_raster(),
        encode_mask::count(w.valid) > 0,
        !w.is_constant(),
        !w.is_flat(),
        w.hd.blob_size <= w.bytes().len() + rest.len(),
        rest.len() >= 2,
        rest[0] == 0,
        w.has_huffman_flag() ==> rest[1] == 0,
        ends.len() == w.hd.num_tiles() + 1,
        ends[0] == w.bytes().len() + if w.has_huffman_flag() {
            2int
        } else {
            1
        },
        ({
            let stream = w.bytes() + rest;
            let dec = blob::opening(w.hd, stream)->Ok_0.decoding;
            forall|m: int, o: Seq<u8>|
                0 <= m < w.hd.num_tiles() && o.len() == w.hd.raster_len()
                    ==> (#[trigger] dec.tile_from(
                    stream,
                    ends[m],
                    o,
                    w.hd.tile(m),
                    order,
                )).result is Ok && dec.tile_from(stream, ends[m], o, w.hd.tile(m), order).pos
                    == ends[m + 1]
        }),
        0 <= i < w.hd.n_rows,
        0 <= j < w.hd.n_cols,
        0 <= depth < w.hd.n_depth,
        w.valid[i * w.hd.n_cols + j],
    ensures
        ({
            let hd = w.hd;
            let stream = w.bytes() + rest;
            let dec = blob::opening(hd, stream)->Ok_0.decoding;
            let mb = hd.micro_block_size as int;
            let hori = (hd.n_cols + mb - 1) / mb;
            let own = (i / mb * hori + j / mb) * hd.n_depth + depth;
            let place = hd.tile(own);
            let raster = blob::raster_of(stream, order);
            let layout = dec.layout(order);
            let k = i * hd.n_cols + j;
            &&& hd.wf()
            &&& dec.hd == hd
            &&& o.len() == hd.raster_len()
            &&& place.within(hd)
            &&& place.depth == depth
            &&& encode_tile::holds(place, i, j)
            &&& dec.mask.valid(encode_tile::pixel(hd, i, j))
            &&& raster is Ok
            &&& layout.get(raster->Ok_0, k, depth) == layout.get(
                dec.tile_from(stream, ends[own], o, place, order).out,
                k,
                depth,
            )
        }),
{
    let hd = w.hd;
    let stream = w.bytes() + rest;
    let dec = blob::opening(hd, stream)->Ok_0.decoding;
    let mb = hd.micro_block_size as int;
    let hori = (hd.n_cols + mb - 1) / mb;
    let own = (i / mb * hori + j / mb) * hd.n_depth + depth;
    let place = hd.tile(own);
    lemma_is_wf(w);
    law_tiled_stream_is_decoded(w, rest, ends, order, i, j, depth);
    let raster = blob::raster_of(stream, order)->Ok_0;
    let o = choose|o: Seq<u8>|
        o.len() == raster.len() && element(hd, raster, i, j, depth) == element(
            hd,
            (#[trigger] dec.tile_from(stream, ends[own], o, place, order)).out,
            i,
            j,
            depth,
        );
    hd.law_tiles_come_in_order(i, j, depth);
    hd.law_tiles_lie_within(own);
    blob::lemma_raster_len(hd);
    let after = dec.tile_from(stream, ends[own], o, place, order).out;
    law_elements_lie_in_order(hd, order, raster, i, j, depth);
    law_elements_lie_in_order(hd, order, after, i, j, depth);
    lemma_turn(w, dec, i, j);
    assert(dec.mask.valid(i * hd.n_cols + j));
    o
}

/// The error of a tiled stream is limited: where the tile of a pixel stores a number `v`,
/// given in units of 2^-1074, as a value so that the offset and as many times twice the
/// largest error of the header miss it by no more than the largest error, the raster holds
/// for the pixel a number with no larger an error, whatever the type of the samples.  The
/// room that `few` and `many` leave around the exact multiple and `low` and `high` around
/// the exact sum is for rounding; it is none where these are numbers themselves.
#[verifier::rlimit(40)]
pub proof fn law_tiled_stream_has_limited_error(
    w: Written,
    rest: Seq<u8>,
    ends: Seq<int>,
    order: ByteOrder,
    used: DataType,
    values: Seq<u32>,
    i: int,
    j: int,
    depth: int,
    v: int,
    twice: Binary64,
    few: Binary64,
    many: Binary64,
    low: Binary64,
    high: Binary64,
)
    requires
        w.is_raster(),
        encode_mask::count(w.valid) > 0,
        !w.is_constant(),
        !w.is_flat(),
        w.hd.blob_size <= w.bytes().len() + rest.len(),
        rest.len() >= 2,
        rest[0] == 0,
        w.has_huffman_flag() ==> rest[1] == 0,
        ends.len() == w.hd.num_tiles() + 1,
        ends[0] == w.bytes().len() + if w.has_huffman_flag() {
            2int
        } else {
            1
        },
        ({
            let stream = w.bytes() + rest;
            let dec = blob::opening(w.hd, stream)->Ok_0.decoding;
            forall|m: int, o: Seq<u8>|
                0 <= m < w.hd.num_tiles() && o.len() == w.hd.raster_len()
                    ==> (#[trigger] dec.tile_from(
                    stream,
                    ends[m],
                    o,
                    w.hd.tile(m),
                    order,
                )).result is Ok && dec.tile_from(stream, ends[m], o, w.hd.tile(m), order).pos
                    == ends[m + 1]
        }),
        0 <= i < w.hd.n_rows,
        0 <= j < w.hd.n_cols,
        0 <= depth < w.hd.n_depth,
        w.valid[i * w.hd.n_cols + j],
        ({
            let stream = w.bytes() + rest;
            let dec = blob::opening(w.hd, stream)->Ok_0.decoding;
            let mb = w.hd.micro_block_size as int;
            let hori = (w.hd.n_cols + mb - 1) / mb;
            let own = (i / mb * hori + j / mb) * w.hd.n_depth + depth;
            let place = w.hd.tile(own);
            let pos = ends[own];
            let area = (place.i1 - place.i0) * (place.j1 - place.j0);
            let t = if values.len() == area {
                encode_tile::position(place, i, j)
            } else {
                encode_tile::turn(dec.mask, w.hd, place, i, j)
            };
            let offset = sample::stored_value(
                stream.subrange(pos + 1, pos + 1 + used.size_spec()),
                used,
            );
            let error = w.hd.max_z_error.units();
            let greatest = encode_tile::cap(dec, depth);
            &&& 0 <= pos < stream.len()
            &&& encode_tile::repeats_column(w.hd.version as int, stream[pos], place.j0)
            &&& stream[pos] as int % 4 == 1
            &&& !encode_tile::says_differences(w.hd.version as int, stream[pos])
            &&& encode_tile::offset_type(w.hd.dt, false, stream[pos] / 64) == Some(used)
            &&& pos + 1 + used.size_spec() <= stream.len()
            &&& bit_stuffer::block_at(stream, pos + 1 + used.size_spec(), area as nat) == (
                Ok::<Seq<u32>, Fault>(values),
                ends[own + 1],
            )
            &&& values.len() >= encode_tile::valid_in_tile(dec.mask, w.hd, place)
            &&& offset.is_finite()
            &&& w.hd.max_z_error.is_finite()
            &&& twice.is_finite()
            &&& few.is_finite()
            &&& many.is_finite()
            &&& sample::is_sample(low, w.hd.dt)
            &&& sample::is_sample(high, w.hd.dt)
            &&& sample::is_sample(greatest, w.hd.dt)
            &&& twice.units() == 2 * error
            &&& few.units() <= 2 * error * values[t] <= many.units()
            &&& low.units() <= offset.units() + few.units()
            &&& offset.units() + many.units() <= high.units()
            &&& v - error <= low.units()
            &&& high.units() <= v + error
            &&& v <= greatest.units()
        }),
    ensures
        ({
            let result = blob::raster_of(w.bytes() + rest, order);
            let layout = raster::Layout { n_depth: w.hd.n_depth, dt: w.hd.dt, order };
            let error = w.hd.max_z_error.units();
            let z = layout.get(result->Ok_0, i * w.hd.n_cols + j, depth);
            &&& result is Ok
            &&& z.is_finite()
            &&& v - error <= z.units() <= v + error
        }),
{
    let hd = w.hd;
    let stream = w.bytes() + rest;
    let dec = blob::opening(hd, stream)->Ok_0.decoding;
    let mb = hd.micro_block_size as int;
    let hori = (hd.n_cols + mb - 1) / mb;
    let own = (i / mb * hori + j / mb) * hd.n_depth + depth;
    let o = lemma_own_tile(w, rest, ends, order, i, j, depth);
    encode_tile::law_quantized_tile_has_limited_error(
        dec,
        stream,
        ends[own],
        o,
        hd.tile(own),
        order,
        used,
        values,
        ends[own + 1],
        i,
        j,
        v,
        twice,
        few,
        many,
        low,
        high,
    );
}

/// A stream that ends within its ranges is refused.
#[verifier::rlimit(40)]
pub proof fn law_cut_ranges_are_refused(w: Written, cut: int, order: ByteOrder)
    requires
        w.is_raster(),
        w.has_ranges(),
        0 <= cut < w.ranges.len(),
        w.hd.blob_size <= w.bytes().len() - w.ranges.len() + cut,
    ensures
        ({
            let stream = w.bytes().take(w.bytes().len() - w.ranges.len() + cut);
            blob::raster_of(stream, order) == Err::<Seq<u8>, Fault>(
                Fault::InvalidData("unexpected end of LERC blob"@),
            )
        }),
{
    let hd = w.hd;
    let head = encode::header_bytes(hd, encode::type_number(hd.dt), w.extras);
    let code = encode_mask::mask_code(w.valid, w.parts);
    let tail = w.ranges.take(cut);
    let stream = w.bytes().take(w.bytes().len() - w.ranges.len() + cut);
    assert(stream =~= head + code + tail);
    assert(w.bytes().len() == head.len() + code.len() + w.ranges.len());
    lemma_front(w, tail);
    lemma_cut_ranges(w, stream, head.len() as int);
    assert(blob::opening(hd, stream) == blob::opening_at(hd, stream, head.len() as int));
}

/// Ranges that are cut.
proof fn lemma_cut_ranges(w: Written, stream: Seq<u8>, pos: int)
    requires
        w.has_ranges(),
        w.hd.num_valid_pixel == encode_mask::count(w.valid),
        decoder::mask_at(w.hd, stream, pos).0 is Ok,
        stream.len() < decoder::mask_at(w.hd, stream, pos).1 + 2 * w.hd.n_depth * type_size(w.hd.dt),
    ensures
        blob::opening_at(w.hd, stream, pos) == Err::<Opening, Fault>(
            Fault::InvalidData("unexpected end of LERC blob"@),
        ),
{
    law_equality_is_that_of_numbers(w.hd.z_min, w.hd.z_max);
}

/// A stream whose samples stand one after the other is refused where it ends before the
/// last one.
#[verifier::rlimit(40)]
pub proof fn law_cut_sweeps_are_refused(w: Written, flag: u8, samples: Seq<u8>, order: ByteOrder)
    requires
        w.is_raster(),
        encode_mask::count(w.valid) > 0,
        !w.is_constant(),
        !w.is_flat(),
        flag != 0,
        samples.len() < encode_mask::count(w.valid) * w.hd.n_depth * type_size(w.hd.dt),
        w.hd.blob_size <= w.bytes().len() + 1 + samples.len(),
    ensures
        blob::raster_of(w.bytes() + (seq![flag] + samples), order) == Err::<Seq<u8>, Fault>(
            Fault::InvalidData("unexpected end of LERC blob"@),
        ),
{
    let hd = w.hd;
    let tail = seq![flag] + samples;
    let stream = w.bytes() + tail;
    law_opening_is_read_back(w, tail);
    lemma_is_wf(w);
    let dec = blob::opening(hd, stream)->Ok_0.decoding;
    lemma_turn(w, dec, 0, 0);
    let n = encode_mask::count(w.valid) as int;
    let size = hd.n_depth * type_size(hd.dt);
    let left = samples.len() as int;
    assert(n * hd.n_depth * type_size(hd.dt) == n * size) by (nonlinear_arith)
        requires
            size == hd.n_depth * type_size(hd.dt),
    ;
    assert(size >= 1) by (nonlinear_arith)
        requires
            size == hd.n_depth * type_size(hd.dt),
            hd.n_depth >= 1,
            type_size(hd.dt) >= 1,
    ;
    vstd::arithmetic::div_mod::lemma_fundamental_div_mod(left, size);
    vstd::arithmetic::div_mod::lemma_mod_bound(left, size);
    let stored = left / size;
    assert(stored < n) by (nonlinear_arith)
        requires
            left == size * stored + left % size,
            0 <= left % size < size,
            left < n * size,
    ;
    assert(stream.len() - (w.bytes().len() + 1) == left);
}

/// A stream with numbers but without flags is refused, and one whose flags say that it is
/// Huffman-coded is.
#[verifier::rlimit(40)]
pub proof fn law_streams_without_flags_are_refused(w: Written, rest: Seq<u8>, order: ByteOrder)
    requires
        w.is_raster(),
        encode_mask::count(w.valid) > 0,
        !w.is_constant(),
        !w.is_flat(),
        w.hd.blob_size <= w.bytes().len() + rest.len(),
    ensures
        rest.len() == 0 || (rest.len() == 1 && rest[0] == 0 && w.has_huffman_flag())
            ==> blob::raster_of(w.bytes() + rest, order) == Err::<Seq<u8>, Fault>(
            Fault::InvalidData("unexpected end of LERC blob"@),
        ),
        rest.len() >= 2 && rest[0] == 0 && rest[1] != 0 && w.has_huffman_flag() ==> blob::raster_of(
            w.bytes() + rest,
            order,
        ) == Err::<Seq<u8>, Fault>(
            Fault::InvalidData("LERC2 Huffman-coded images are not supported by this decoder"@),
        ),
{
    law_opening_is_read_back(w, rest);
}

/// A tiled stream is refused for what is wrong with its first broken tile, whatever follows
/// it.
#[verifier::rlimit(40)]
pub proof fn law_broken_tile_breaks_the_stream(
    w: Written,
    rest: Seq<u8>,
    ends: Seq<int>,
    order: ByteOrder,
    fault: Fault,
)
    requires
        w.is_raster(),
        encode_mask::count(w.valid) > 0,
        !w.is_constant(),
        !w.is_flat(),
        w.hd.blob_size <= w.bytes().len() + rest.len(),
        rest.len() >= 1,
        rest[0] == 0,
        w.has_huffman_flag() ==> rest.len() >= 2 && rest[1] == 0,
        1 <= ends.len() <= w.hd.num_tiles(),
        ends[0] == w.bytes().len() + if w.has_huffman_flag() {
            2int
        } else {
            1
        },
        ({
            let stream = w.bytes() + rest;
            let dec = blob::opening(w.hd, stream)->Ok_0.decoding;
            &&& forall|m: int, o: Seq<u8>|
                0 <= m < ends.len() - 1 && o.len() == w.hd.raster_len()
                    ==> (#[trigger] dec.tile_from(
                    stream,
                    ends[m],
                    o,
                    w.hd.tile(m),
                    order,
                )).result is Ok && dec.tile_from(stream, ends[m], o, w.hd.tile(m), order).pos
                    == ends[m + 1]
            &&& forall|o: Seq<u8>|
                o.len() == w.hd.raster_len() ==> (#[trigger] dec.tile_from(
                    stream,
                    ends.last(),
                    o,
                    w.hd.tile(ends.len() - 1),
                    order,
                )).result == Err::<(), Fault>(fault)
        }),
    ensures
        blob::raster_of(w.bytes() + rest, order) == Err::<Seq<u8>, Fault>(fault),
{
    let hd = w.hd;
    let stream = w.bytes() + rest;
    law_opening_is_read_back(w, rest);
    lemma_is_wf(w);
    blob::lemma_raster_len(hd);
    let dec = blob::opening(hd, stream)->Ok_0.decoding;
    dec.law_first_broken_tile_is_reported(stream, ends, blob::blank(hd), order, fault);
}

} // verus!
