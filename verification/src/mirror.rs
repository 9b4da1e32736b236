//! The rasters of a stream in the two byte orders.
use vstd::prelude::*;

use crate::binary64::Binary64;
use crate::bit_stuffer;
use crate::blob;
use crate::blob::{Opening, Payload};
use crate::bytes::ByteOrder;
use crate::decoder::Decoding;
use crate::error::Fault;
use crate::fill;
use crate::fill::FillSource;
use crate::header::HeaderInfo;
use crate::laws;
use crate::raster;
use crate::reader;
use crate::tile;
use crate::tile::{Place, Progress, TileCoding, TileSource};

verus! {

/// Each element of one raster holds the bytes of the same element of the other one, in
/// the other order.
pub open spec fn mirrored(hd: HeaderInfo, little: Seq<u8>, big: Seq<u8>) -> bool {
    &&& little.len() == big.len() >= hd.raster_len()
    &&& forall|k: int, d: int|
        0 <= k < hd.num_pixels() && 0 <= d < hd.n_depth ==> #[trigger] raster::Layout {
            n_depth: hd.n_depth,
            dt: hd.dt,
            order: ByteOrder::Little,
        }.cell(little, k, d) == raster::Layout {
            n_depth: hd.n_depth,
            dt: hd.dt,
            order: ByteOrder::Big,
        }.cell(big, k, d).reverse()
}

/// A number has the same bytes in both orders, the other way round.
proof fn lemma_words_mirror(dec: Decoding, v: Binary64)
    ensures
        dec.layout(ByteOrder::Little).word(v) == dec.layout(ByteOrder::Big).word(v).reverse(),
{
    let word = dec.layout(ByteOrder::Little).word(v);
    assert(word.reverse().reverse() =~= word);
}

/// Painting the same tile keeps rasters mirrored.
proof fn lemma_paint_mirrored(
    dec: Decoding,
    little: Seq<u8>,
    big: Seq<u8>,
    place: Place,
    all: bool,
    m: int,
    coding: TileCoding,
)
    requires
        dec.hd.wf(),
        place.within(dec.hd),
        mirrored(dec.hd, little, big),
        coding.diff ==> place.depth >= 1,
        0 <= m <= place.rect(dec.hd).pixels(dec.mask, all).len(),
    ensures
        ({
            let pixels = place.rect(dec.hd).pixels(dec.mask, all).take(m);
            mirrored(
                dec.hd,
                tile::painted(
                    dec.layout(ByteOrder::Little),
                    little,
                    pixels,
                    place.depth,
                    coding,
                ),
                tile::painted(dec.layout(ByteOrder::Big), big, pixels, place.depth, coding),
            )
        }),
{
    let hd = dec.hd;
    let n = hd.num_pixels();
    let lay_l = dec.layout(ByteOrder::Little);
    let lay_b = dec.layout(ByteOrder::Big);
    let whole = place.rect(hd).pixels(dec.mask, all);
    let pixels = whole.take(m);
    let depth = place.depth;
    tile::lemma_place_pixels(hd, place, dec.mask, all);
    assert forall|t: int| 0 <= t < pixels.len() implies 0 <= #[trigger] pixels[t] < n by {
        assert(pixels[t] == whole[t]);
    }
    tile::law_tile_is_painted(lay_l, little, n, pixels, depth, coding);
    tile::law_tile_is_painted(lay_b, big, n, pixels, depth, coding);
    let after_l = tile::painted(lay_l, little, pixels, depth, coding);
    let after_b = tile::painted(lay_b, big, pixels, depth, coding);
    assert forall|k: int, d: int| 0 <= k < n && 0 <= d < hd.n_depth implies #[trigger] lay_l.cell(
        after_l,
        k,
        d,
    ) == lay_b.cell(after_b, k, d).reverse() by {
        if d == depth && pixels.contains(k) {
            let t = choose|t: int| 0 <= t < pixels.len() && pixels[t] == k;
            let prev_l = lay_l.get(little, pixels[t], depth - 1);
            let prev_b = lay_b.get(big, pixels[t], depth - 1);
            if depth >= 1 {
                assert(lay_l.cell(little, k, depth - 1) == lay_b.cell(
                    big,
                    k,
                    depth - 1,
                ).reverse());
                assert(prev_l == prev_b);
            }
            let z = coding.number(hd.dt, t, prev_l);
            assert(z == coding.number(hd.dt, t, prev_b));
            lemma_words_mirror(dec, z);
            assert(lay_l.cell(after_l, pixels[t], depth) == lay_l.word(z));
            assert(lay_b.cell(after_b, pixels[t], depth) == lay_b.word(z));
        } else {
            assert(lay_l.cell(after_l, k, d) == lay_l.cell(little, k, d));
            assert(lay_b.cell(after_b, k, d) == lay_b.cell(big, k, d));
        }
    }
}

/// Reading the same tile keeps rasters mirrored, and the byte order has no bearing on
/// whether it succeeds and where it ends.
proof fn lemma_tile_mirrored(
    dec: Decoding,
    buf: Seq<u8>,
    pos: int,
    little: Seq<u8>,
    big: Seq<u8>,
    place: Place,
)
    requires
        dec.hd.wf(),
        place.within(dec.hd),
        mirrored(dec.hd, little, big),
    ensures
        progress_mirrored(
            dec.hd,
            dec.tile_from(buf, pos, little, place, ByteOrder::Little),
            dec.tile_from(buf, pos, big, place, ByteOrder::Big),
        ),
{
    let hd = dec.hd;
    let flag = buf[pos];
    let diff = dec.has_differences(flag);
    let used = dec.offset_type(flag);
    let z_max = dec.greatest(place.depth);
    let pixels = place.rect(hd).pixels(dec.mask, false);
    let all = pixels.len() as int;
    assert(pixels.take(all) =~= pixels);
    if diff && place.depth == 0 {
    } else {
        lemma_paint_mirrored(
            dec,
            little,
            big,
            place,
            false,
            all,
            TileCoding { source: TileSource::Zero, diff, z_max },
        );
        let size = hd.dt.size_spec() as int;
        let stored = (buf.len() - (pos + 1)) / size;
        let n = if all <= stored {
            all
        } else {
            stored
        };
        if n >= 0 {
            lemma_paint_mirrored(
                dec,
                little,
                big,
                place,
                false,
                n,
                TileCoding { source: TileSource::Raw(buf.skip(pos + 1)), diff: false, z_max },
            );
        }
        if used is Some {
            let used = used->Some_0;
            let offset = reader::sample_at(buf, pos + 1, used);
            lemma_paint_mirrored(
                dec,
                little,
                big,
                place,
                false,
                all,
                TileCoding { source: TileSource::Constant(offset), diff, z_max },
            );
            let (block, end) = bit_stuffer::block_at(
                buf,
                pos + 1 + used.size_spec(),
                place.area() as nat,
            );
            if block is Ok {
                let values = block->Ok_0;
                let full = values.len() == place.area();
                let visited = place.rect(hd).pixels(dec.mask, full);
                assert(visited.take(visited.len() as int) =~= visited);
                let m = if visited.len() <= values.len() {
                    visited.len() as int
                } else {
                    values.len() as int
                };
                lemma_paint_mirrored(
                    dec,
                    little,
                    big,
                    place,
                    full,
                    m,
                    TileCoding {
                        source: TileSource::Quantized {
                            offset,
                            step: hd.max_z_error.times_spec(2),
                            values,
                        },
                        diff,
                        z_max,
                    },
                );
            }
        }
    }
}

/// Two readings agree in their result and their position, and their rasters are
/// mirrored.
pub open spec fn progress_mirrored(hd: HeaderInfo, little: Progress, big: Progress) -> bool {
    &&& little.result == big.result
    &&& little.pos == big.pos
    &&& mirrored(hd, little.out, big.out)
}

/// Reading the same tiles keeps rasters mirrored.
proof fn lemma_tiles_mirrored(
    dec: Decoding,
    buf: Seq<u8>,
    pos: int,
    little: Seq<u8>,
    big: Seq<u8>,
    n: nat,
)
    requires
        dec.hd.wf(),
        n <= dec.hd.num_tiles(),
        mirrored(dec.hd, little, big),
    ensures
        progress_mirrored(
            dec.hd,
            dec.tiles_from(buf, pos, little, ByteOrder::Little, n),
            dec.tiles_from(buf, pos, big, ByteOrder::Big, n),
        ),
    decreases n,
{
    if n > 0 {
        let before_l = dec.tiles_from(buf, pos, little, ByteOrder::Little, (n - 1) as nat);
        let before_b = dec.tiles_from(buf, pos, big, ByteOrder::Big, (n - 1) as nat);
        lemma_tiles_mirrored(dec, buf, pos, little, big, (n - 1) as nat);
        dec.hd.law_tiles_lie_within(n - 1);
        lemma_tile_mirrored(
            dec,
            buf,
            before_l.pos,
            before_l.out,
            before_b.out,
            dec.hd.tile(n - 1),
        );
    }
}

/// Filling rasters with the same numbers keeps them mirrored.
proof fn lemma_fill_mirrored(
    dec: Decoding,
    little: Seq<u8>,
    big: Seq<u8>,
    m: int,
    source: FillSource,
)
    requires
        dec.hd.wf(),
        mirrored(dec.hd, little, big),
        0 <= m <= dec.valid_pixels().len(),
    ensures
        mirrored(
            dec.hd,
            fill::filled(
                dec.layout(ByteOrder::Little),
                little,
                dec.valid_pixels().take(m),
                source,
            ),
            fill::filled(dec.layout(ByteOrder::Big), big, dec.valid_pixels().take(m), source),
        ),
{
    let hd = dec.hd;
    let n = hd.num_pixels();
    let lay_l = dec.layout(ByteOrder::Little);
    let lay_b = dec.layout(ByteOrder::Big);
    let pixels = dec.valid_pixels().take(m);
    laws::lemma_first_valid_pixels(dec, m);
    fill::law_raster_is_filled(lay_l, little, n, pixels, source);
    fill::law_raster_is_filled(lay_b, big, n, pixels, source);
    let after_l = fill::filled(lay_l, little, pixels, source);
    let after_b = fill::filled(lay_b, big, pixels, source);
    assert forall|k: int, d: int| 0 <= k < n && 0 <= d < hd.n_depth implies #[trigger] lay_l.cell(
        after_l,
        k,
        d,
    ) == lay_b.cell(after_b, k, d).reverse() by {
        if pixels.contains(k) {
            let t = choose|t: int| 0 <= t < pixels.len() && pixels[t] == k;
            let z = source.number(lay_l, t, d);
            assert(z == source.number(lay_b, t, d));
            lemma_words_mirror(dec, z);
            assert(lay_l.cell(after_l, pixels[t], d) == lay_l.word(z));
            assert(lay_b.cell(after_b, pixels[t], d) == lay_b.word(z));
        } else {
            assert(lay_l.cell(after_l, k, d) == lay_l.cell(little, k, d));
            assert(lay_b.cell(after_b, k, d) == lay_b.cell(big, k, d));
        }
    }
}

/// A raster of zeros is its own mirror.
proof fn lemma_blank_mirrored(dec: Decoding)
    requires
        dec.hd.wf(),
    ensures
        mirrored(dec.hd, blob::blank(dec.hd), blob::blank(dec.hd)),
{
    let hd = dec.hd;
    let out = blob::blank(hd);
    blob::lemma_raster_len(hd);
    assert forall|k: int, d: int|
        0 <= k < hd.num_pixels() && 0 <= d < hd.n_depth implies #[trigger] dec.layout(
        ByteOrder::Little,
    ).cell(out, k, d) == dec.layout(ByteOrder::Big).cell(out, k, d).reverse() by {
        laws::lemma_blank_cell(dec.layout(ByteOrder::Little), hd, k, d);
        laws::lemma_blank_cell(dec.layout(ByteOrder::Big), hd, k, d);
        assert(laws::zeros(hd.dt).reverse() =~= laws::zeros(hd.dt));
    }
}

/// The two rasters that an opened stream decodes to.
proof fn lemma_rasters_mirrored(opening: Opening, buf: Seq<u8>)
    requires
        opening.decoding.hd.wf(),
        0 <= opening.pos <= buf.len(),
    ensures
        results_mirrored(
            opening.decoding.hd,
            opening.raster(buf, ByteOrder::Little),
            opening.raster(buf, ByteOrder::Big),
        ),
{
    let dec = opening.decoding;
    let hd = dec.hd;
    let out = blob::blank(hd);
    let pixels = dec.valid_pixels();
    let all = pixels.len() as int;
    lemma_blank_mirrored(dec);
    assert(pixels.take(all) =~= pixels);
    match opening.payload {
        Payload::Empty => {},
        Payload::Constant => {
            lemma_fill_mirrored(dec, out, out, all, dec.constant_source());
        },
        Payload::Sweep => {
            let source = FillSource::Stored(buf.skip(opening.pos));
            if dec.sweep_from(buf, opening.pos, out, ByteOrder::Little).result is Ok {
                lemma_fill_mirrored(dec, out, out, all, source);
            }
        },
        Payload::Tiles => {
            laws::lemma_num_tiles(hd);
            lemma_tiles_mirrored(dec, buf, opening.pos, out, out, hd.num_tiles() as nat);
        },
    }
}

/// Two decodings both fail with the same fault, or both give rasters, which are
/// mirrored.
pub open spec fn results_mirrored(
    hd: HeaderInfo,
    little: Result<Seq<u8>, Fault>,
    big: Result<Seq<u8>, Fault>,
) -> bool {
    match (little, big) {
        (Ok(l), Ok(b)) => mirrored(hd, l, b),
        (Err(l), Err(b)) => l == b,
        _ => false,
    }
}

/// The byte order decides about the bytes of each element and about nothing else: a
/// stream is decoded in both orders or in neither, for the same reason, and each element
/// of one raster holds the bytes of the other one the other way round.
pub proof fn law_byte_orders_agree(stream: Seq<u8>)
    ensures
        match blob::whole_header(stream) {
            Ok(hd) => results_mirrored(
                hd,
                blob::raster_of(stream, ByteOrder::Little),
                blob::raster_of(stream, ByteOrder::Big),
            ),
            Err(fault) => {
                &&& blob::raster_of(stream, ByteOrder::Little) == Err::<Seq<u8>, Fault>(fault)
                &&& blob::raster_of(stream, ByteOrder::Big) == Err::<Seq<u8>, Fault>(fault)
            },
        },
{
    if let Ok(hd) = blob::whole_header(stream) {
        if let Ok(opening) = blob::opening(hd, stream) {
            laws::lemma_opening_pos(hd, stream);
            lemma_rasters_mirrored(opening, stream);
        }
    }
}

} // verus!
