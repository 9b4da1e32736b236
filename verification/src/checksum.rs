//! The checksum of a header, which is read past.
use vstd::prelude::*;

use crate::bit_stuffer;
use crate::blob;
use crate::blob::Payload;
use crate::bytes::ByteOrder;
use crate::decoder;
use crate::decoder::Decoding;
use crate::header;
use crate::header::HeaderInfo;
use crate::laws;
use crate::reader;
use crate::rounding;
use crate::tile::Place;

verus! {

/// Where the checksum of a header ends.
pub open spec fn checksum_end() -> int {
    14
}

/// Two streams are equal but for the bytes of the checksum.
pub open spec fn differ_in_checksum(a: Seq<u8>, b: Seq<u8>) -> bool {
    &&& a.len() == b.len()
    &&& forall|i: int|
        0 <= i < a.len() && !(10 <= i < checksum_end()) ==> #[trigger] a[i] == b[i]
}

/// What stands after the checksum is equal.
proof fn lemma_part(a: Seq<u8>, b: Seq<u8>, p: int, q: int)
    requires
        differ_in_checksum(a, b),
        checksum_end() <= p <= q <= a.len(),
    ensures
        a.subrange(p, q) == b.subrange(p, q),
        a.skip(p) == b.skip(p),
{
    assert(a.subrange(p, q) =~= b.subrange(p, q));
    assert(a.skip(p) =~= b.skip(p));
}

/// Packed values after the checksum.
proof fn lemma_packed(a: Seq<u8>, b: Seq<u8>, pos: int, n: nat, bits: int)
    requires
        differ_in_checksum(a, b),
        checksum_end() <= pos,
    ensures
        bit_stuffer::packed_at(a, pos, n, bits) == bit_stuffer::packed_at(b, pos, n, bits),
        pos <= bit_stuffer::packed_at(a, pos, n, bits).1,
{
    let len = bit_stuffer::stuffed_len(n, bits as nat) as int;
    if pos + len <= a.len() {
        lemma_part(a, b, pos, pos + len);
    }
}

/// A block after the checksum.
proof fn lemma_block(a: Seq<u8>, b: Seq<u8>, pos: int, max: nat)
    requires
        differ_in_checksum(a, b),
        checksum_end() <= pos,
    ensures
        bit_stuffer::block_at(a, pos, max) == bit_stuffer::block_at(b, pos, max),
        pos <= bit_stuffer::block_at(a, pos, max).1,
{
    if reader::available(a, pos, 1) {
        let head = a[pos];
        let bits = head as int % 32;
        let width = bit_stuffer::count_width(head);
        assert(a[pos] == b[pos]);
        if 0 <= width && pos + 1 + width <= a.len() {
            lemma_part(a, b, pos + 1, pos + 1 + width);
        }
        let (count, body) = bit_stuffer::count_at(a, pos + 1, width);
        if let Ok(n) = count {
            lemma_packed(a, b, body, n as nat, bits);
            if reader::available(a, body, 1) {
                assert(a[body] == b[body]);
                if a[body] >= 2 {
                    let entries = (a[body] - 1) as nat;
                    let (table, places_pos) = bit_stuffer::packed_at(a, body + 1, entries, bits);
                    lemma_packed(a, b, body + 1, entries, bits);
                    lemma_packed(
                        a,
                        b,
                        places_pos,
                        n as nat,
                        rounding::excess(entries, 0) as int,
                    );
                }
            }
        }
    }
}

/// A tile after the checksum.
proof fn lemma_tile(
    dec: Decoding,
    a: Seq<u8>,
    b: Seq<u8>,
    pos: int,
    out: Seq<u8>,
    place: Place,
    order: ByteOrder,
)
    requires
        differ_in_checksum(a, b),
        checksum_end() <= pos,
    ensures
        dec.tile_from(a, pos, out, place, order) == dec.tile_from(b, pos, out, place, order),
        pos <= dec.tile_from(a, pos, out, place, order).pos,
{
    if reader::available(a, pos, 1) {
        assert(a[pos] == b[pos]);
        lemma_part(a, b, pos + 1, pos + 1);
        let size = dec.hd.dt.size_spec() as int;
        let pixels = place.rect(dec.hd).pixels(dec.mask, false);
        let stored = (a.len() - (pos + 1)) / size;
        let n = if pixels.len() <= stored {
            pixels.len() as int
        } else {
            stored
        };
        assert(stored >= 0) by {
            vstd::arithmetic::div_mod::lemma_div_pos_is_pos(a.len() - (pos + 1), size);
        }
        assert(n * size >= 0) by (nonlinear_arith)
            requires
                n >= 0,
                size >= 0,
        ;
        if let Some(used) = dec.offset_type(a[pos]) {
            let at = pos + 1 + used.size_spec();
            if at <= a.len() {
                lemma_part(a, b, pos + 1, at);
                lemma_block(a, b, at, place.area() as nat);
            }
        }
    }
}

/// Tiles after the checksum.
proof fn lemma_tiles(
    dec: Decoding,
    a: Seq<u8>,
    b: Seq<u8>,
    pos: int,
    out: Seq<u8>,
    order: ByteOrder,
    n: nat,
)
    requires
        differ_in_checksum(a, b),
        checksum_end() <= pos,
    ensures
        dec.tiles_from(a, pos, out, order, n) == dec.tiles_from(b, pos, out, order, n),
        pos <= dec.tiles_from(a, pos, out, order, n).pos,
    decreases n,
{
    if n > 0 {
        let before = dec.tiles_from(a, pos, out, order, (n - 1) as nat);
        lemma_tiles(dec, a, b, pos, out, order, (n - 1) as nat);
        lemma_tile(dec, a, b, before.pos, before.out, dec.hd.tile(n - 1), order);
    }
}

/// A mask after the checksum.
proof fn lemma_mask(hd: HeaderInfo, a: Seq<u8>, b: Seq<u8>, pos: int)
    requires
        differ_in_checksum(a, b),
        checksum_end() <= pos,
    ensures
        decoder::mask_at(hd, a, pos) == decoder::mask_at(hd, b, pos),
        pos <= decoder::mask_at(hd, a, pos).1,
{
    if reader::available(a, pos, 4) {
        lemma_part(a, b, pos, pos + 4);
        let n = reader::int_at(a, pos);
        if n >= 0 && reader::available(a, pos + 4, n) {
            lemma_part(a, b, pos + 4, pos + 4 + n);
        }
    }
}

/// Ranges after the checksum.
proof fn lemma_ranges(dec: Decoding, a: Seq<u8>, b: Seq<u8>, pos: int)
    requires
        differ_in_checksum(a, b),
        checksum_end() <= pos,
        dec.hd.n_depth >= 0,
        pos + 2 * dec.hd.n_depth * dec.hd.dt.size_spec() <= a.len(),
    ensures
        dec.with_ranges(a, pos) == dec.with_ranges(b, pos),
{
    let n = dec.hd.n_depth as int;
    let size = dec.hd.dt.size_spec() as int;
    let one = dec.with_ranges(a, pos);
    let two = dec.with_ranges(b, pos);
    let half = pos + n * size;
    assert(2 * n * size == n * size + n * size) by (nonlinear_arith);
    assert forall|i: int|
        #![trigger one.z_min[i]]
        #![trigger one.z_max[i]]
        0 <= i < n implies one.z_min[i] == two.z_min[i] && one.z_max[i] == two.z_max[i] by {
        assert(0 <= i * size && i * size + size <= n * size) by (nonlinear_arith)
            requires
                0 <= i,
                i + 1 <= n,
                size >= 0,
        ;
        lemma_part(a, b, pos + i * size, pos + i * size + size);
        lemma_part(a, b, half + i * size, half + i * size + size);
    }
    assert(one.z_min =~= two.z_min);
    assert(one.z_max =~= two.z_max);
}

/// What stands between the checksum and the numbers.
proof fn lemma_opening(hd: HeaderInfo, a: Seq<u8>, b: Seq<u8>, pos: int)
    requires
        differ_in_checksum(a, b),
        checksum_end() <= pos,
        hd.n_depth >= 0,
    ensures
        blob::opening_at(hd, a, pos) == blob::opening_at(hd, b, pos),
        blob::opening_at(hd, a, pos) matches Ok(opening) ==> pos <= opening.pos,
{
    lemma_mask(hd, a, b, pos);
    let (mask, end) = decoder::mask_at(hd, a, pos);
    if let Ok(mask) = mask {
        let start = Decoding::start(hd, mask);
        let len = 2 * hd.n_depth * hd.dt.size_spec();
        assert(len >= 0) by (nonlinear_arith)
            requires
                len == 2 * hd.n_depth * hd.dt.size_spec(),
                hd.n_depth >= 0,
                hd.dt.size_spec() >= 0,
        ;
        if end + len <= a.len() {
            lemma_ranges(start, a, b, end);
        }
    }
}

/// The header around the checksum.
proof fn lemma_header(a: Seq<u8>, b: Seq<u8>)
    requires
        differ_in_checksum(a, b),
        a.len() >= checksum_end(),
        3 <= reader::int_at(a, 6) <= 6,
    ensures
        header::header_at(a, 0) == header::header_at(b, 0),
{
    assert(a.subrange(0, 6) =~= b.subrange(0, 6));
    assert(a.subrange(6, 10) =~= b.subrange(6, 10));
    let version = reader::int_at(a, 6);
    let size = 10 + header::checksum_len(version);
    let rest = size + 8 + header::depth_len(version);
    let numbers = rest + 16 + header::flags_len(version);
    if header::header_len(version) <= a.len() {
        lemma_part(a, b, size, size + 4);
        lemma_part(a, b, size + 4, size + 8);
        lemma_part(a, b, size + 8, size + 12);
        lemma_part(a, b, rest, rest + 4);
        lemma_part(a, b, rest + 4, rest + 8);
        lemma_part(a, b, rest + 8, rest + 12);
        lemma_part(a, b, rest + 12, rest + 16);
        lemma_part(a, b, numbers, numbers + 8);
        lemma_part(a, b, numbers + 8, numbers + 16);
        lemma_part(a, b, numbers + 16, numbers + 24);
    }
}

/// The checksum is read past and not verified: two streams of a version that has one,
/// equal but for its bytes, are both decoded to the same raster, or both refused for the
/// same reason.
pub proof fn law_checksum_is_not_verified(a: Seq<u8>, b: Seq<u8>, order: ByteOrder)
    requires
        differ_in_checksum(a, b),
        a.len() >= checksum_end(),
        header::lerc2_magic().is_prefix_of(a),
        3 <= reader::int_at(a, 6) <= 6,
    ensures
        blob::raster_of(a, order) == blob::raster_of(b, order),
        blob::decoded(a, order) == blob::decoded(b, order),
        blob::blob_within_limits(a) == blob::blob_within_limits(b),
{
    lemma_header(a, b);
    assert(header::lerc2_magic().is_prefix_of(b)) by {
        assert(a.subrange(0, 6) =~= b.subrange(0, 6));
    }
    laws::law_bare_stream_is_decoded(a, order);
    laws::law_bare_stream_is_decoded(b, order);
    if let Ok(hd) = blob::whole_header(a) {
        lemma_opening(hd, a, b, header::header_len(hd.version as int));
        if let Ok(opening) = blob::opening(hd, a) {
            laws::lemma_opening_pos(hd, a);
            let dec = opening.decoding;
            let out = blob::blank(hd);
            match opening.payload {
                Payload::Sweep => {
                    lemma_part(a, b, opening.pos, opening.pos);
                },
                Payload::Tiles => {
                    lemma_tiles(dec, a, b, opening.pos, out, order, hd.num_tiles() as nat);
                },
                _ => {},
            }
        }
    }
}

} // verus!
