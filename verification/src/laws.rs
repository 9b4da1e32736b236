//! What holds of every raster that is decoded.
use vstd::prelude::*;

use crate::blob;
use crate::blob::{Opening, Payload};
use crate::bytes::ByteOrder;
use crate::data_type::DataType;
use crate::decoder;
use crate::decoder::Decoding;
use crate::error::Fault;
use crate::fill;
use crate::fill::FillSource;
use crate::header;
use crate::header::HeaderInfo;
use crate::raster;
use crate::raster::Layout;
use crate::sample;
use crate::tile;
use crate::tile::{Place, TileCoding, TileSource};
use crate::wrapper;
use crate::wrapper::Wrapper;

verus! {

/// The pixels that are visited when a whole raster is filled: the valid ones, each of
/// them once.
pub proof fn lemma_valid_pixels(dec: Decoding)
    requires
        dec.hd.wf(),
    ensures
        dec.valid_pixels().no_duplicates(),
        forall|t: int|
            0 <= t < dec.valid_pixels().len() ==> 0 <= #[trigger] dec.valid_pixels()[t]
                < dec.hd.num_pixels(),
        forall|k: int| #[trigger]
            dec.valid_pixels().contains(k) ==> dec.mask.valid(k),
        forall|k: int|
            0 <= k < dec.hd.num_pixels() && dec.mask.valid(k)
                ==> #[trigger] dec.valid_pixels().contains(k),
{
    let hd = dec.hd;
    let rect = fill::whole(hd);
    let pixels = dec.valid_pixels();
    let w = hd.n_cols as int;
    raster::lemma_rect_pixels(rect, dec.mask, false);
    assert((hd.n_rows - 1) * w + w == hd.n_rows * w) by (nonlinear_arith);
    assert forall|k: int| #[trigger] pixels.contains(k) implies dec.mask.valid(k) by {
        let t = choose|t: int| 0 <= t < pixels.len() && pixels[t] == k;
    }
    assert forall|k: int|
        0 <= k < hd.num_pixels() && dec.mask.valid(k) implies #[trigger] pixels.contains(k) by {
        let i = k / w;
        let j = k % w;
        vstd::arithmetic::div_mod::lemma_fundamental_div_mod(k, w);
        vstd::arithmetic::div_mod::lemma_mod_bound(k, w);
        assert(w * i == i * w) by (nonlinear_arith);
        assert(0 <= i < hd.n_rows) by (nonlinear_arith)
            requires
                0 <= k,
                k < hd.n_rows * w,
                i * w <= k,
                k < i * w + w,
                w > 0,
        ;
        assert(rect.at(i, j) == k);
        assert(rect.contains(k));
    }
}

/// The first of the valid pixels, each of them once.
pub proof fn lemma_first_valid_pixels(dec: Decoding, n: int)
    requires
        dec.hd.wf(),
        0 <= n <= dec.valid_pixels().len(),
    ensures
        dec.valid_pixels().take(n).no_duplicates(),
        forall|t: int|
            0 <= t < n ==> 0 <= #[trigger] dec.valid_pixels().take(n)[t] < dec.hd.num_pixels(),
        forall|k: int| #[trigger]
            dec.valid_pixels().take(n).contains(k) ==> dec.mask.valid(k),
{
    let whole = dec.valid_pixels();
    let pixels = whole.take(n);
    lemma_valid_pixels(dec);
    assert forall|t: int| 0 <= t < n implies 0 <= #[trigger] pixels[t] < dec.hd.num_pixels() by {
        assert(pixels[t] == whole[t]);
    }
    assert forall|k: int| #[trigger] pixels.contains(k) implies dec.mask.valid(k) by {
        let t = choose|t: int| 0 <= t < pixels.len() && pixels[t] == k;
        assert(whole[t] == k);
        assert(whole.contains(k));
    }
}

/// A decoding that a stream opens with is one of the header of the stream.
proof fn lemma_opening(hd: HeaderInfo, stream: Seq<u8>)
    ensures
        blob::opening(hd, stream) matches Ok(opening) ==> opening.decoding.hd == hd,
{
}

/// A header that is accepted is sound.
proof fn lemma_header(stream: Seq<u8>)
    ensures
        blob::whole_header(stream) matches Ok(hd) ==> hd.wf() && stream.len() >= hd.blob_size,
{
}

/// A raster is as long as the header says: rows times columns times depth elements of
/// the size of the data type.
pub proof fn law_raster_has_its_length(stream: Seq<u8>, order: ByteOrder)
    requires
        blob::raster_of(stream, order) is Ok,
    ensures
        blob::whole_header(stream) is Ok,
        blob::raster_of(stream, order)->Ok_0.len() == blob::whole_header(
            stream,
        )->Ok_0.raster_len(),
{
    let hd = blob::whole_header(stream)->Ok_0;
    let opening = blob::opening(hd, stream)->Ok_0;
    let dec = opening.decoding;
    let out = blob::blank(hd);
    lemma_header(stream);
    lemma_opening(hd, stream);
    blob::lemma_raster_len(hd);
    match opening.payload {
        Payload::Empty => {},
        Payload::Constant => {
            lemma_valid_pixels(dec);
            fill::law_raster_is_filled(
                dec.layout(order),
                out,
                hd.num_pixels(),
                dec.valid_pixels(),
                dec.constant_source(),
            );
        },
        Payload::Sweep => {
            let n = dec.valid_pixels().len() as int;
            lemma_first_valid_pixels(dec, n);
            fill::law_raster_is_filled(
                dec.layout(order),
                out,
                hd.num_pixels(),
                dec.valid_pixels().take(n),
                FillSource::Stored(stream.skip(opening.pos)),
            );
        },
        Payload::Tiles => {
            dec.law_each_pixel_comes_from_its_tile(stream, opening.pos, out, order, 0, 0);
        },
    }
}

/// The element of a raster of zeros.
pub proof fn lemma_blank_cell(layout: Layout, hd: HeaderInfo, k: int, depth: int)
    requires
        hd.wf(),
        layout.n_depth == hd.n_depth,
        layout.dt == hd.dt,
        0 <= k < hd.num_pixels(),
        0 <= depth < hd.n_depth,
    ensures
        layout.cell(blob::blank(hd), k, depth) == zeros(hd.dt),
{
    blob::lemma_raster_len(hd);
    raster::lemma_index_fits(layout, hd.raster_len(), hd.num_pixels(), k, depth);
    let at = layout.index(k, depth) * hd.dt.size_spec();
    assert(at + hd.dt.size_spec() == (layout.index(k, depth) + 1) * hd.dt.size_spec())
        by (nonlinear_arith)
        requires
            at == layout.index(k, depth) * hd.dt.size_spec(),
    ;
    assert(at >= 0) by (nonlinear_arith)
        requires
            at == layout.index(k, depth) * hd.dt.size_spec(),
            layout.index(k, depth) >= 0,
            hd.dt.size_spec() >= 0,
    ;
    assert(layout.cell(blob::blank(hd), k, depth) =~= zeros(hd.dt));
}

/// The bytes of an element that was not written.
pub open spec fn zeros(dt: DataType) -> Seq<u8> {
    Seq::new(dt.size_spec(), |i: int| 0u8)
}

/// Outside of tiles, an invalid pixel is zero at every depth.
pub proof fn law_invalid_pixels_are_zero(
    stream: Seq<u8>,
    order: ByteOrder,
    k: int,
    depth: int,
)
    requires
        blob::raster_of(stream, order) is Ok,
        ({
            let hd = blob::whole_header(stream)->Ok_0;
            let opening = blob::opening(hd, stream)->Ok_0;
            &&& opening.payload != Payload::Tiles
            &&& 0 <= k < hd.num_pixels()
            &&& 0 <= depth < hd.n_depth
            &&& opening.payload == Payload::Empty || !opening.decoding.mask.valid(k)
        }),
    ensures
        ({
            let hd = blob::whole_header(stream)->Ok_0;
            let dec = blob::opening(hd, stream)->Ok_0.decoding;
            dec.layout(order).cell(blob::raster_of(stream, order)->Ok_0, k, depth) == zeros(hd.dt)
        }),
{
    let hd = blob::whole_header(stream)->Ok_0;
    let opening = blob::opening(hd, stream)->Ok_0;
    let dec = opening.decoding;
    let out = blob::blank(hd);
    lemma_header(stream);
    lemma_opening(hd, stream);
    lemma_blank_cell(dec.layout(order), hd, k, depth);
    blob::lemma_raster_len(hd);
    match opening.payload {
        Payload::Constant => {
            lemma_valid_pixels(dec);
            fill::law_raster_is_filled(
                dec.layout(order),
                out,
                hd.num_pixels(),
                dec.valid_pixels(),
                dec.constant_source(),
            );
        },
        Payload::Sweep => {
            let n = dec.valid_pixels().len() as int;
            lemma_first_valid_pixels(dec, n);
            fill::law_raster_is_filled(
                dec.layout(order),
                out,
                hd.num_pixels(),
                dec.valid_pixels().take(n),
                FillSource::Stored(stream.skip(opening.pos)),
            );
        },
        _ => {},
    }
}

/// A constant raster is decoded, and every valid pixel of it holds the constant: the
/// least number of its depth where the depths differ, and the least number of the
/// header otherwise.
pub proof fn law_constant_raster_holds_its_constant(
    stream: Seq<u8>,
    order: ByteOrder,
    k: int,
    depth: int,
)
    requires
        blob::whole_header(stream) is Ok,
        ({
            let hd = blob::whole_header(stream)->Ok_0;
            let opening = blob::opening(hd, stream)->Ok_0;
            &&& blob::opening(hd, stream) is Ok
            &&& opening.payload == Payload::Constant
            &&& 0 <= k < hd.num_pixels()
            &&& 0 <= depth < hd.n_depth
            &&& opening.decoding.mask.valid(k)
        }),
    ensures
        blob::raster_of(stream, order) is Ok,
        ({
            let hd = blob::whole_header(stream)->Ok_0;
            let dec = blob::opening(hd, stream)->Ok_0.decoding;
            let z = if !hd.z_min.equals_spec(hd.z_max) {
                dec.z_min[depth]
            } else {
                hd.z_min
            };
            dec.layout(order).cell(blob::raster_of(stream, order)->Ok_0, k, depth) == dec.layout(
                order,
            ).word(z)
        }),
{
    let hd = blob::whole_header(stream)->Ok_0;
    let opening = blob::opening(hd, stream)->Ok_0;
    let dec = opening.decoding;
    let pixels = dec.valid_pixels();
    lemma_header(stream);
    lemma_opening(hd, stream);
    blob::lemma_raster_len(hd);
    lemma_valid_pixels(dec);
    fill::law_raster_is_filled(
        dec.layout(order),
        blob::blank(hd),
        hd.num_pixels(),
        pixels,
        dec.constant_source(),
    );
    assert(pixels.contains(k));
    let t = choose|t: int| 0 <= t < pixels.len() && pixels[t] == k;
    assert(pixels[t] == k);
}

/// Samples that are stored one after the other come out as they were stored: the valid
/// pixel that comes at turn `t` holds at each depth the word that is stored for it, in
/// the byte order of the raster.
pub proof fn law_sweep_is_lossless(
    dec: Decoding,
    buf: Seq<u8>,
    pos: int,
    out: Seq<u8>,
    order: ByteOrder,
    t: int,
    depth: int,
)
    requires
        dec.hd.wf(),
        dec.hd.raster_len() <= out.len(),
        0 <= pos <= buf.len(),
        dec.sweep_from(buf, pos, out, order).result is Ok,
        0 <= t < dec.valid_pixels().len(),
        0 <= depth < dec.hd.n_depth,
        sample::is_exact_sample(stored_sample(dec.hd, buf, pos, t, depth), dec.hd.dt),
    ensures
        dec.layout(order).cell(
            dec.sweep_from(buf, pos, out, order).out,
            dec.valid_pixels()[t],
            depth,
        ) == match order {
            ByteOrder::Little => stored_sample(dec.hd, buf, pos, t, depth),
            ByteOrder::Big => stored_sample(dec.hd, buf, pos, t, depth).reverse(),
        },
{
    let hd = dec.hd;
    let layout = dec.layout(order);
    let pixels = dec.valid_pixels();
    let n = pixels.len() as int;
    let source = FillSource::Stored(buf.skip(pos));
    lemma_first_valid_pixels(dec, n);
    assert(pixels.take(n) =~= pixels);
    fill::law_raster_is_filled(layout, out, hd.num_pixels(), pixels, source);
    let sz = hd.dt.size_spec() as int;
    let nd = hd.n_depth as int;
    let size = nd * sz;
    let left = buf.len() - pos;
    let at = (t * nd + depth) * sz;
    // The sample lies within the stream.
    assert(size >= 1) by (nonlinear_arith)
        requires
            size == nd * sz,
            nd >= 1,
            sz >= 1,
    ;
    vstd::arithmetic::div_mod::lemma_fundamental_div_mod(left, size);
    vstd::arithmetic::div_mod::lemma_mod_bound(left, size);
    let stored = left / size;
    assert(0 <= at && at + sz <= left) by {
        let i = t * nd + depth;
        assert(0 <= i && i + 1 <= stored * nd) by (nonlinear_arith)
            requires
                i == t * nd + depth,
                0 <= t,
                t + 1 <= stored,
                0 <= depth < nd,
        ;
        assert(0 <= at && at + sz <= stored * nd * sz) by (nonlinear_arith)
            requires
                at == i * sz,
                0 <= i,
                i + 1 <= stored * nd,
                sz >= 1,
        ;
        assert(stored * nd * sz == size * stored) by (nonlinear_arith)
            requires
                size == nd * sz,
        ;
    }
    assert(buf.skip(pos).subrange(at, at + sz) =~= stored_sample(hd, buf, pos, t, depth));
    sample::law_samples_are_exact(stored_sample(hd, buf, pos, t, depth), hd.dt, order);
    assert(layout.cell(dec.sweep_from(buf, pos, out, order).out, pixels[t], depth) == layout.word(
        source.number(layout, t, depth),
    ));
}

/// The bytes that are stored from `pos` on for the valid pixel that comes at turn `t`.
pub open spec fn stored_sample(
    hd: HeaderInfo,
    buf: Seq<u8>,
    pos: int,
    t: int,
    depth: int,
) -> Seq<u8> {
    let at = pos + (t * hd.n_depth + depth) * hd.dt.size_spec();
    buf.subrange(at, at + hd.dt.size_spec())
}

/// The numbers of a stream start within it.
pub proof fn lemma_opening_pos(hd: HeaderInfo, stream: Seq<u8>)
    requires
        blob::whole_header(stream) == Ok::<HeaderInfo, Fault>(hd),
        blob::opening(hd, stream) is Ok,
    ensures
        0 <= blob::opening(hd, stream)->Ok_0.pos <= stream.len(),
        blob::opening(hd, stream)->Ok_0.decoding.hd == hd,
        hd.wf(),
{
    let pos = header::header_len(hd.version as int);
    assert(pos >= 0);
    assert(pos <= stream.len());
    let (mask, end) = decoder::mask_at(hd, stream, pos);
    assert(mask is Ok ==> 0 <= end <= stream.len());
    assert(2 * hd.n_depth * hd.dt.size_spec() >= 0) by (nonlinear_arith)
        requires
            hd.n_depth >= 0,
            hd.dt.size_spec() >= 0,
    ;
}

/// A stream whose samples stand one after the other is decoded without loss: each valid
/// pixel holds at each depth the word that is stored for it.
pub proof fn law_swept_stream_is_lossless(stream: Seq<u8>, order: ByteOrder, t: int, depth: int)
    requires
        blob::raster_of(stream, order) is Ok,
        ({
            let hd = blob::whole_header(stream)->Ok_0;
            let opening = blob::opening(hd, stream)->Ok_0;
            &&& opening.payload == Payload::Sweep
            &&& 0 <= t < opening.decoding.valid_pixels().len()
            &&& 0 <= depth < hd.n_depth
            &&& sample::is_exact_sample(stored_sample(hd, stream, opening.pos, t, depth), hd.dt)
        }),
    ensures
        ({
            let hd = blob::whole_header(stream)->Ok_0;
            let opening = blob::opening(hd, stream)->Ok_0;
            let s = stored_sample(hd, stream, opening.pos, t, depth);
            opening.decoding.layout(order).cell(
                blob::raster_of(stream, order)->Ok_0,
                opening.decoding.valid_pixels()[t],
                depth,
            ) == match order {
                ByteOrder::Little => s,
                ByteOrder::Big => s.reverse(),
            }
        }),
{
    let hd = blob::whole_header(stream)->Ok_0;
    let opening = blob::opening(hd, stream)->Ok_0;
    lemma_opening_pos(hd, stream);
    blob::lemma_raster_len(hd);
    law_sweep_is_lossless(
        opening.decoding,
        stream,
        opening.pos,
        blob::blank(hd),
        order,
        t,
        depth,
    );
}

/// A raw tile is decoded without loss: the pixel that comes at turn `t` holds the word
/// that is stored for it.
pub proof fn law_raw_tile_is_lossless(
    dec: Decoding,
    buf: Seq<u8>,
    pos: int,
    out: Seq<u8>,
    place: Place,
    order: ByteOrder,
    t: int,
)
    requires
        dec.hd.wf(),
        dec.hd.raster_len() <= out.len(),
        place.within(dec.hd),
        0 <= pos < buf.len(),
        buf[pos] as int % 4 == 0,
        dec.tile_from(buf, pos, out, place, order).result is Ok,
        0 <= t < place.rect(dec.hd).pixels(dec.mask, false).len(),
        sample::is_exact_sample(raw_sample(dec.hd, buf, pos, t), dec.hd.dt),
    ensures
        dec.layout(order).cell(
            dec.tile_from(buf, pos, out, place, order).out,
            place.rect(dec.hd).pixels(dec.mask, false)[t],
            place.depth,
        ) == match order {
            ByteOrder::Little => raw_sample(dec.hd, buf, pos, t),
            ByteOrder::Big => raw_sample(dec.hd, buf, pos, t).reverse(),
        },
{
    let hd = dec.hd;
    let layout = dec.layout(order);
    let pixels = place.rect(hd).pixels(dec.mask, false);
    let n = pixels.len() as int;
    let coding = TileCoding {
        source: TileSource::Raw(buf.skip(pos + 1)),
        diff: false,
        z_max: dec.greatest(place.depth),
    };
    tile::lemma_place_pixels(hd, place, dec.mask, false);
    assert(pixels.take(n) =~= pixels);
    tile::law_tile_is_painted(layout, out, hd.num_pixels(), pixels, place.depth, coding);
    let sz = hd.dt.size_spec() as int;
    let left = buf.len() - (pos + 1);
    vstd::arithmetic::div_mod::lemma_fundamental_div_mod(left, sz);
    vstd::arithmetic::div_mod::lemma_mod_bound(left, sz);
    let stored = left / sz;
    assert(0 <= t * sz && t * sz + sz <= sz * stored) by (nonlinear_arith)
        requires
            0 <= t,
            t + 1 <= stored,
            sz >= 1,
    ;
    assert(buf.skip(pos + 1).subrange(t * sz, t * sz + sz) =~= raw_sample(hd, buf, pos, t));
    sample::law_samples_are_exact(raw_sample(hd, buf, pos, t), hd.dt, order);
}

/// The bytes that a raw tile at `pos` stores for the pixel that comes at turn `t`.
pub open spec fn raw_sample(hd: HeaderInfo, buf: Seq<u8>, pos: int, t: int) -> Seq<u8> {
    let at = pos + 1 + t * hd.dt.size_spec();
    buf.subrange(at, at + hd.dt.size_spec())
}

/// A blob that is a LERC2 stream decodes to the raster of the stream.
pub proof fn law_bare_stream_is_decoded(blob: Seq<u8>, order: ByteOrder)
    requires
        header::lerc2_magic().is_prefix_of(blob),
    ensures
        wrapper::stripped(blob) == Ok::<Seq<u8>, Fault>(blob),
        blob::decoded(blob, order) == blob::raster_of(blob, order),
{
}

/// A LERC1 stream is refused as a compression that is not supported, whatever follows
/// its first bytes.
pub proof fn law_lerc1_is_unsupported(blob: Seq<u8>, order: ByteOrder)
    requires
        header::lerc1_magic().is_prefix_of(blob),
    ensures
        blob::decoded(blob, order) == Err::<Seq<u8>, Fault>(
            Fault::UnsupportedCompression(34887),
        ),
{
    assert(blob[0] == header::lerc1_magic()[0]);
    if header::lerc2_magic().is_prefix_of(blob) {
        assert(blob[0] == header::lerc2_magic()[0]);
    }
}

/// Compression around a stream is transparent: a blob that decompresses to a LERC2
/// stream decodes to what the stream itself decodes to.
pub proof fn law_wrapping_is_transparent(blob: Seq<u8>, stream: Seq<u8>, order: ByteOrder)
    requires
        header::lerc2_magic().is_prefix_of(stream),
        ({
            ||| wrapper::zstd_magic().is_prefix_of(blob) && wrapper::zstd_decoded(blob) == Ok::<
                Seq<u8>,
                Seq<char>,
            >(stream)
            ||| wrapper::zlib_magic().is_prefix_of(blob) && wrapper::zlib_decoded(blob) == Ok::<
                Seq<u8>,
                Seq<char>,
            >(stream)
        }),
    ensures
        blob::decoded(blob, order) == blob::decoded(stream, order),
        blob::decoded(blob, order) == blob::raster_of(stream, order),
{
    lemma_first_byte(blob);
}

/// The wrappers differ in their first byte.
proof fn lemma_first_byte(blob: Seq<u8>)
    ensures
        wrapper::zstd_magic().is_prefix_of(blob) ==> wrapper::wrapper_of_spec(blob)
            == Wrapper::Zstd,
        wrapper::zlib_magic().is_prefix_of(blob) ==> wrapper::wrapper_of_spec(blob)
            == Wrapper::Deflate,
{
    assert(header::lerc2_magic().is_prefix_of(blob) ==> blob[0] == header::lerc2_magic()[0]);
    assert(header::lerc1_magic().is_prefix_of(blob) ==> blob[0] == header::lerc1_magic()[0]);
    assert(wrapper::zstd_magic().is_prefix_of(blob) ==> blob[0] == wrapper::zstd_magic()[0]);
    assert(wrapper::zlib_magic().is_prefix_of(blob) ==> blob[0] == wrapper::zlib_magic()[0]);
}

/// Compression is taken off once: a stream that does not start as a LERC2 stream is
/// refused, even where it is wrapped again.
pub proof fn law_only_one_wrapper_is_taken_off(stream: Seq<u8>, order: ByteOrder)
    requires
        stream.len() >= 6,
        !header::lerc2_magic().is_prefix_of(stream),
    ensures
        blob::raster_of(stream, order) == Err::<Seq<u8>, Fault>(
            Fault::InvalidData("not a LERC2 blob"@),
        ),
{
    if stream.subrange(0, 6) == header::lerc2_magic() {
        assert(header::lerc2_magic() =~= stream.subrange(0, header::lerc2_magic().len() as int));
        assert(false);
    }
}

/// A Huffman-coded raster is refused: where the flag before the tiles says so, no
/// raster comes out.
pub proof fn law_huffman_is_refused(dec: Decoding, buf: Seq<u8>, pos: int)
    requires
        dec.hd.has_huffman_flag(),
        0 <= pos,
        pos + 2 <= buf.len(),
        buf[pos] == 0,
        buf[pos + 1] != 0,
    ensures
        dec.flags_at(buf, pos) == Err::<Opening, Fault>(
            Fault::InvalidData("LERC2 Huffman-coded images are not supported by this decoder"@),
        ),
{
}

/// There are tiles.
pub proof fn lemma_num_tiles(hd: HeaderInfo)
    requires
        hd.wf(),
    ensures
        hd.num_tiles() > 0,
{
    blob::lemma_raster_len(hd);
    hd.law_tiles_partition_the_raster(0, 0);
}

/// Every valid pixel of a tiled raster holds at every depth the number that its tile
/// gives it: the one of its turn in the tile, computed from the number that the raster
/// holds for it at the depth before where the tile is one of differences.
pub proof fn law_tiled_raster_holds_its_numbers(
    dec: Decoding,
    buf: Seq<u8>,
    pos: int,
    out: Seq<u8>,
    order: ByteOrder,
    k: int,
    depth: int,
)
    requires
        dec.hd.wf(),
        dec.hd.raster_len() <= out.len(),
        dec.tiles_from(buf, pos, out, order, dec.hd.num_tiles() as nat).result is Ok,
        0 <= k < dec.hd.num_pixels(),
        0 <= depth < dec.hd.n_depth,
        dec.mask.valid(k),
    ensures
        ({
            let layout = dec.layout(order);
            let own = dec.hd.tile_of(k, depth);
            let place = dec.hd.tile(own);
            let at = dec.tiles_from(buf, pos, out, order, own as nat).pos;
            let pixels = dec.tile_pixels(buf, at, place);
            let coding = dec.tile_coding(buf, at, place);
            let after = dec.tiles_from(buf, pos, out, order, dec.hd.num_tiles() as nat).out;
            exists|t: int|
                0 <= t < pixels.len() && #[trigger] pixels[t] == k && layout.cell(after, k, depth)
                    == layout.word(
                    coding.number(
                        dec.hd.dt,
                        t,
                        layout.get(
                            if depth == 0 {
                                out
                            } else {
                                after
                            },
                            k,
                            depth - 1,
                        ),
                    ),
                )
        }),
{
    let hd = dec.hd;
    let layout = dec.layout(order);
    let own = hd.tile_of(k, depth);
    let place = hd.tile(own);
    let before = dec.tiles_from(buf, pos, out, order, own as nat);
    let all = hd.num_tiles() as nat;
    let after = dec.tiles_from(buf, pos, out, order, all).out;
    hd.law_tiles_partition_the_raster(k, depth);
    hd.law_tiles_lie_within(own);
    dec.law_each_pixel_comes_from_its_tile(buf, pos, out, order, k, depth);
    dec.lemma_tiles_frame(buf, pos, out, order, own as nat, k, depth);
    dec.law_tile_gives_each_pixel_its_number(buf, before.pos, before.out, place, order);
    let pixels = dec.tile_pixels(buf, before.pos, place);
    let coding = dec.tile_coding(buf, before.pos, place);
    assert(pixels.contains(k));
    let t = choose|t: int| 0 <= t < pixels.len() && pixels[t] == k;
    assert(pixels[t] == k);
    if depth == 0 {
        // A tile of differences cannot be one of the first depth.
        assert(coding.number(hd.dt, t, layout.get(before.out, k, -1)) == coding.number(
            hd.dt,
            t,
            layout.get(out, k, -1),
        ));
    } else {
        // The depth before was written by the tile before, and stays.
        hd.law_tiles_partition_the_raster(k, depth - 1);
        dec.lemma_tiles_frame(buf, pos, out, order, own as nat, k, depth - 1);
        dec.lemma_tiles_frame(buf, pos, out, order, all, k, depth - 1);
    }
}

} // verus!
