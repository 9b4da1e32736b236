//! What stands after the end of a stream.
use vstd::arithmetic::div_mod::*;
use vstd::prelude::*;

use crate::binary64::Binary64;
use crate::bit_stuffer;
use crate::blob;
use crate::blob::Payload;
use crate::bytes::ByteOrder;
use crate::decoder;
use crate::decoder::Decoding;
use crate::fill;
use crate::fill::FillSource;
use crate::header;
use crate::header::HeaderInfo;
use crate::laws;
use crate::raster::Layout;
use crate::reader;
use crate::tile;
use crate::tile::{Place, TileCoding, TileSource};

verus! {

/// The bytes of a stream are those of a longer one.
proof fn lemma_part(buf: Seq<u8>, more: Seq<u8>, a: int, b: int)
    requires
        buf.is_prefix_of(more),
        0 <= a <= b <= buf.len(),
    ensures
        more.subrange(a, b) == buf.subrange(a, b),
        forall|i: int| 0 <= i < buf.len() ==> #[trigger] more[i] == buf[i],
{
    assert forall|i: int| 0 <= i < buf.len() implies #[trigger] more[i] == buf[i] by {
        assert(more.subrange(0, buf.len() as int)[i] == buf[i]);
    }
    assert(more.subrange(a, b) =~= buf.subrange(a, b));
}

/// Packed values that are there are there in a longer stream too.
proof fn lemma_packed(buf: Seq<u8>, more: Seq<u8>, pos: int, n: nat, bits: int)
    requires
        buf.is_prefix_of(more),
        0 <= pos,
        bit_stuffer::packed_at(buf, pos, n, bits).0 is Ok,
    ensures
        bit_stuffer::packed_at(more, pos, n, bits) == bit_stuffer::packed_at(buf, pos, n, bits),
        pos <= bit_stuffer::packed_at(buf, pos, n, bits).1 <= buf.len(),
{
    let len = bit_stuffer::stuffed_len(n, bits as nat) as int;
    lemma_part(buf, more, pos, pos + len);
}

/// A block that is there is there in a longer stream too.
proof fn lemma_block(buf: Seq<u8>, more: Seq<u8>, pos: int, max: nat)
    requires
        buf.is_prefix_of(more),
        0 <= pos,
        bit_stuffer::block_at(buf, pos, max).0 is Ok,
    ensures
        bit_stuffer::block_at(more, pos, max) == bit_stuffer::block_at(buf, pos, max),
        pos <= bit_stuffer::block_at(buf, pos, max).1 <= buf.len(),
{
    let head = buf[pos];
    let bits = head as int % 32;
    let has_table = head as int / 32 % 2 == 1;
    let width = bit_stuffer::count_width(head);
    lemma_part(buf, more, pos, pos + 1);
    let (count, body) = bit_stuffer::count_at(buf, pos + 1, width);
    lemma_part(buf, more, pos + 1, pos + 1 + width);
    let n = count->Ok_0 as nat;
    if has_table {
        let entries = (buf[body] - 1) as nat;
        let (table, places_pos) = bit_stuffer::packed_at(buf, body + 1, entries, bits);
        lemma_packed(buf, more, body + 1, entries, bits);
        lemma_packed(
            buf,
            more,
            places_pos,
            n,
            crate::rounding::excess(entries, 0) as int,
        );
    } else if bits != 0 {
        lemma_packed(buf, more, body, n, bits);
    }
}

/// Painting depends on the numbers of the visited pixels alone.
proof fn lemma_painted_same(
    layout: Layout,
    out: Seq<u8>,
    pixels: Seq<int>,
    depth: int,
    one: TileCoding,
    two: TileCoding,
)
    requires
        forall|t: int, prev: Binary64|
            0 <= t < pixels.len() ==> #[trigger] one.number(layout.dt, t, prev) == two.number(
                layout.dt,
                t,
                prev,
            ),
    ensures
        tile::painted(layout, out, pixels, depth, one) == tile::painted(
            layout,
            out,
            pixels,
            depth,
            two,
        ),
    decreases pixels.len(),
{
    if pixels.len() > 0 {
        lemma_painted_same(layout, out, pixels.drop_last(), depth, one, two);
    }
}

/// A tile that is read is read in a longer stream too.
proof fn lemma_tile(
    dec: Decoding,
    buf: Seq<u8>,
    more: Seq<u8>,
    pos: int,
    out: Seq<u8>,
    place: Place,
    order: ByteOrder,
)
    requires
        buf.is_prefix_of(more),
        0 <= pos,
        dec.tile_from(buf, pos, out, place, order).result is Ok,
    ensures
        dec.tile_from(more, pos, out, place, order) == dec.tile_from(buf, pos, out, place, order),
        pos <= dec.tile_from(buf, pos, out, place, order).pos <= buf.len(),
{
    let hd = dec.hd;
    let flag = buf[pos];
    let mode = flag as int % 4;
    let z_max = dec.greatest(place.depth);
    lemma_part(buf, more, pos, pos + 1);
    if mode == 2 {
    } else if mode == 0 {
        let at = pos + 1;
        let pixels = place.rect(hd).pixels(dec.mask, false);
        let n = pixels.len() as int;
        let size = hd.dt.size_spec() as int;
        let stored = (buf.len() - at) / size;
        let one = TileCoding { source: TileSource::Raw(buf.skip(at)), diff: false, z_max };
        let two = TileCoding { source: TileSource::Raw(more.skip(at)), diff: false, z_max };
        lemma_fundamental_div_mod(buf.len() - at, size);
        lemma_mod_bound(buf.len() - at, size);
        lemma_div_is_ordered(buf.len() - at, more.len() - at, size);
        assert(0 <= n * size <= size * stored) by (nonlinear_arith)
            requires
                0 <= n <= stored,
                size >= 0,
        ;
        assert forall|t: int, prev: Binary64|
            0 <= t < pixels.take(n).len() implies #[trigger] one.number(hd.dt, t, prev)
            == two.number(hd.dt, t, prev) by {
            assert(0 <= t * size && t * size + size <= size * stored) by (nonlinear_arith)
                requires
                    0 <= t,
                    t + 1 <= stored,
                    size >= 0,
            ;
            lemma_part(buf, more, at + t * size, at + t * size + size);
            assert(buf.skip(at).subrange(t * size, t * size + size) =~= buf.subrange(
                at + t * size,
                at + t * size + size,
            ));
            assert(more.skip(at).subrange(t * size, t * size + size) =~= more.subrange(
                at + t * size,
                at + t * size + size,
            ));
        }
        lemma_painted_same(dec.layout(order), out, pixels.take(n), place.depth, one, two);
    } else {
        let used = dec.offset_type(flag)->Some_0;
        let size = used.size_spec() as int;
        lemma_part(buf, more, pos + 1, pos + 1 + size);
        if mode == 1 {
            lemma_block(buf, more, pos + 1 + size, place.area() as nat);
        }
    }
}

/// Tiles that are read are read in a longer stream too.
proof fn lemma_tiles(
    dec: Decoding,
    buf: Seq<u8>,
    more: Seq<u8>,
    pos: int,
    out: Seq<u8>,
    order: ByteOrder,
    n: nat,
)
    requires
        buf.is_prefix_of(more),
        0 <= pos,
        dec.tiles_from(buf, pos, out, order, n).result is Ok,
    ensures
        dec.tiles_from(more, pos, out, order, n) == dec.tiles_from(buf, pos, out, order, n),
        pos <= dec.tiles_from(buf, pos, out, order, n).pos,
    decreases n,
{
    if n > 0 {
        let before = dec.tiles_from(buf, pos, out, order, (n - 1) as nat);
        lemma_tiles(dec, buf, more, pos, out, order, (n - 1) as nat);
        lemma_tile(dec, buf, more, before.pos, before.out, dec.hd.tile(n - 1), order);
    }
}

/// Filling a pixel depends on its numbers alone.
proof fn lemma_pixel_filled_same(
    layout: Layout,
    out: Seq<u8>,
    k: int,
    t: int,
    n: nat,
    one: FillSource,
    two: FillSource,
)
    requires
        forall|d: int|
            0 <= d < n ==> #[trigger] one.number(layout, t, d) == two.number(layout, t, d),
    ensures
        fill::pixel_filled(layout, out, k, t, n, one) == fill::pixel_filled(
            layout,
            out,
            k,
            t,
            n,
            two,
        ),
    decreases n,
{
    if n > 0 {
        lemma_pixel_filled_same(layout, out, k, t, (n - 1) as nat, one, two);
        assert(one.number(layout, t, n - 1) == two.number(layout, t, n - 1));
    }
}

/// Filling depends on the numbers of the visited pixels alone.
proof fn lemma_filled_same(
    layout: Layout,
    out: Seq<u8>,
    pixels: Seq<int>,
    one: FillSource,
    two: FillSource,
)
    requires
        layout.n_depth >= 0,
        forall|t: int, d: int|
            0 <= t < pixels.len() && 0 <= d < layout.n_depth ==> #[trigger] one.number(
                layout,
                t,
                d,
            ) == two.number(layout, t, d),
    ensures
        fill::filled(layout, out, pixels, one) == fill::filled(layout, out, pixels, two),
    decreases pixels.len(),
{
    if pixels.len() > 0 {
        let first = pixels.drop_last();
        lemma_filled_same(layout, out, first, one, two);
        lemma_pixel_filled_same(
            layout,
            fill::filled(layout, out, first, one),
            pixels.last(),
            pixels.len() - 1,
            layout.n_depth as nat,
            one,
            two,
        );
    }
}

/// Samples that are read are read in a longer stream too.
proof fn lemma_sweep(
    dec: Decoding,
    buf: Seq<u8>,
    more: Seq<u8>,
    pos: int,
    out: Seq<u8>,
    order: ByteOrder,
)
    requires
        dec.hd.wf(),
        buf.is_prefix_of(more),
        0 <= pos <= buf.len(),
        dec.sweep_from(buf, pos, out, order).result is Ok,
    ensures
        dec.sweep_from(more, pos, out, order) == dec.sweep_from(buf, pos, out, order),
{
    let layout = dec.layout(order);
    let pixels = dec.valid_pixels();
    let n = pixels.len() as int;
    let nd = dec.hd.n_depth as int;
    let sz = dec.hd.dt.size_spec() as int;
    let size = nd * sz;
    let left = buf.len() - pos;
    let stored = left / size;
    let one = FillSource::Stored(buf.skip(pos));
    let two = FillSource::Stored(more.skip(pos));
    assert(size >= 1) by (nonlinear_arith)
        requires
            size == nd * sz,
            nd >= 1,
            sz >= 1,
    ;
    lemma_fundamental_div_mod(left, size);
    lemma_mod_bound(left, size);
    lemma_div_is_ordered(left, more.len() - pos, size);
    assert forall|t: int, d: int|
        0 <= t < pixels.take(n).len() && 0 <= d < layout.n_depth implies #[trigger] one.number(
        layout,
        t,
        d,
    ) == two.number(layout, t, d) by {
        let at = (t * nd + d) * sz;
        let i = t * nd + d;
        assert(0 <= i && i + 1 <= stored * nd) by (nonlinear_arith)
            requires
                i == t * nd + d,
                0 <= t,
                t + 1 <= stored,
                0 <= d < nd,
        ;
        assert(0 <= at && at + sz <= stored * nd * sz) by (nonlinear_arith)
            requires
                at == i * sz,
                0 <= i,
                i + 1 <= stored * nd,
                sz >= 1,
        ;
        assert(stored * nd * sz == size * stored) by (nonlinear_arith)
            requires
                size == nd * sz,
        ;
        lemma_part(buf, more, pos + at, pos + at + sz);
        assert(buf.skip(pos).subrange(at, at + sz) =~= buf.subrange(pos + at, pos + at + sz));
        assert(more.skip(pos).subrange(at, at + sz) =~= more.subrange(pos + at, pos + at + sz));
    }
    lemma_filled_same(layout, out, pixels.take(n), one, two);
}

/// A header that is there is there in a longer stream too.
proof fn lemma_header(buf: Seq<u8>, more: Seq<u8>)
    requires
        buf.is_prefix_of(more),
        header::header_at(buf, 0) is Ok,
    ensures
        header::header_at(more, 0) == header::header_at(buf, 0),
{
    lemma_part(buf, more, 0, 6);
    lemma_part(buf, more, 6, 10);
    let version = reader::int_at(buf, 6);
    let size = 10 + header::checksum_len(version);
    let rest = size + 8 + header::depth_len(version);
    let numbers = rest + 16 + header::flags_len(version);
    lemma_part(buf, more, size, size + 4);
    lemma_part(buf, more, size + 4, size + 8);
    if version >= 4 {
        lemma_part(buf, more, size + 8, size + 12);
    }
    lemma_part(buf, more, rest, rest + 4);
    lemma_part(buf, more, rest + 4, rest + 8);
    lemma_part(buf, more, rest + 8, rest + 12);
    lemma_part(buf, more, rest + 12, rest + 16);
    lemma_part(buf, more, numbers, numbers + 8);
    lemma_part(buf, more, numbers + 8, numbers + 16);
    lemma_part(buf, more, numbers + 16, numbers + 24);
}

/// A mask that is there is there in a longer stream too.
proof fn lemma_mask(hd: HeaderInfo, buf: Seq<u8>, more: Seq<u8>, pos: int)
    requires
        buf.is_prefix_of(more),
        0 <= pos,
        decoder::mask_at(hd, buf, pos).0 is Ok,
    ensures
        decoder::mask_at(hd, more, pos) == decoder::mask_at(hd, buf, pos),
        0 <= decoder::mask_at(hd, buf, pos).1 <= buf.len(),
{
    lemma_part(buf, more, pos, pos + 4);
    let n = reader::int_at(buf, pos);
    if n > 0 && pos + 4 + n <= buf.len() {
        lemma_part(buf, more, pos + 4, pos + 4 + n);
    }
}

/// Ranges that are there are there in a longer stream too.
proof fn lemma_ranges(dec: Decoding, buf: Seq<u8>, more: Seq<u8>, pos: int)
    requires
        buf.is_prefix_of(more),
        0 <= pos,
        dec.hd.n_depth >= 0,
        pos + 2 * dec.hd.n_depth * dec.hd.dt.size_spec() <= buf.len(),
    ensures
        dec.with_ranges(more, pos) == dec.with_ranges(buf, pos),
{
    let n = dec.hd.n_depth as int;
    let size = dec.hd.dt.size_spec() as int;
    let one = dec.with_ranges(buf, pos);
    let two = dec.with_ranges(more, pos);
    assert(2 * n * size == n * size + n * size) by (nonlinear_arith);
    assert forall|i: int| 0 <= i < n implies #[trigger] one.z_min[i] == two.z_min[i] by {
        assert(0 <= i * size && i * size + size <= n * size) by (nonlinear_arith)
            requires
                0 <= i,
                i + 1 <= n,
                size >= 0,
        ;
        lemma_part(buf, more, pos + i * size, pos + i * size + size);
    }
    let half = pos + n * size;
    assert forall|i: int| 0 <= i < n implies #[trigger] one.z_max[i] == two.z_max[i] by {
        assert(0 <= i * size && i * size + size <= n * size) by (nonlinear_arith)
            requires
                0 <= i,
                i + 1 <= n,
                size >= 0,
        ;
        lemma_part(buf, more, half + i * size, half + i * size + size);
    }
    assert(one.z_min =~= two.z_min);
    assert(one.z_max =~= two.z_max);
}

/// What a stream opens with opens a longer stream too.
proof fn lemma_opening(hd: HeaderInfo, buf: Seq<u8>, more: Seq<u8>, pos: int)
    requires
        buf.is_prefix_of(more),
        0 <= pos,
        hd.n_depth >= 0,
        blob::opening_at(hd, buf, pos) is Ok,
    ensures
        blob::opening_at(hd, more, pos) == blob::opening_at(hd, buf, pos),
{
    lemma_mask(hd, buf, more, pos);
    let (mask, end) = decoder::mask_at(hd, buf, pos);
    let start = Decoding::start(hd, mask->Ok_0);
    let len = 2 * hd.n_depth * hd.dt.size_spec();
    assert(len >= 0) by (nonlinear_arith)
        requires
            len == 2 * hd.n_depth * hd.dt.size_spec(),
            hd.n_depth >= 0,
            hd.dt.size_spec() >= 0,
    ;
    lemma_part(buf, more, 0, 0);
    if end + len <= buf.len() {
        lemma_ranges(start, buf, more, end);
    }
}

/// What stands after the end of a stream is not looked at: a stream that is decoded is
/// decoded to the same raster when more bytes follow it.
pub proof fn law_trailing_bytes_are_ignored(stream: Seq<u8>, rest: Seq<u8>, order: ByteOrder)
    requires
        blob::raster_of(stream, order) is Ok,
    ensures
        blob::raster_of(stream + rest, order) == blob::raster_of(stream, order),
{
    let more = stream + rest;
    assert(stream =~= more.subrange(0, stream.len() as int));
    assert(stream.is_prefix_of(more));
    lemma_header(stream, more);
    let hd = blob::whole_header(stream)->Ok_0;
    let opening = blob::opening(hd, stream)->Ok_0;
    laws::lemma_opening_pos(hd, stream);
    lemma_opening(hd, stream, more, header::header_len(hd.version as int));
    let dec = opening.decoding;
    let out = blob::blank(hd);
    match opening.payload {
        Payload::Sweep => {
            lemma_sweep(dec, stream, more, opening.pos, out, order);
        },
        Payload::Tiles => {
            lemma_tiles(dec, stream, more, opening.pos, out, order, hd.num_tiles() as nat);
        },
        _ => {},
    }
}

} // verus!
