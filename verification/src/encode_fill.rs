//! What filling a raster pixel by pixel makes of each pixel.
use vstd::arithmetic::div_mod::*;
use vstd::arithmetic::mul::*;
use vstd::prelude::*;

use crate::bytes::ByteOrder;
use crate::decoder::Decoding;
use crate::encode_stream;
use crate::encode_tile;
use crate::error::Fault;
use crate::fill;
use crate::fill::FillSource;
use crate::header::HeaderInfo;
use crate::laws;
use crate::sample;
use crate::tile::Place;

verus! {

/// All pixels of a raster as those of one tile.
pub open spec fn whole_place(hd: HeaderInfo) -> Place {
    Place { i0: 0, i1: hd.n_rows as int, j0: 0, j1: hd.n_cols as int, depth: 0 }
}

/// The turn of a valid pixel of a raster.
proof fn lemma_turn_in_raster(dec: Decoding, i: int, j: int)
    requires
        dec.hd.wf(),
        0 <= i < dec.hd.n_rows,
        0 <= j < dec.hd.n_cols,
    ensures
        ({
            let k = encode_tile::pixel(dec.hd, i, j);
            let t = encode_tile::turn(dec.mask, dec.hd, whole_place(dec.hd), i, j);
            &&& 0 <= k < dec.hd.num_pixels()
            &&& dec.valid_pixels().len() == encode_tile::valid_in_tile(
                dec.mask,
                dec.hd,
                whole_place(dec.hd),
            )
            &&& dec.mask.valid(k) ==> 0 <= t < dec.valid_pixels().len() && dec.valid_pixels()[t]
                == k
        }),
{
    let hd = dec.hd;
    let rect = fill::whole(hd);
    let w = hd.n_cols as int;
    let k = encode_tile::pixel(hd, i, j);
    encode_tile::lemma_rect_facts(hd, whole_place(hd), i, j);
    lemma_mul_basics(w);
    encode_tile::lemma_rect_len(rect, dec.mask, false);
    if dec.mask.valid(k) {
        assert(rect.at(i, j) == k);
        encode_tile::lemma_rect_turns(rect, dec.mask, false, i, j);
    }
}

/// Filling a raster with its constant gives each valid pixel at each depth the least number
/// of the header, or, where the header does not say that the raster is constant and the
/// least number of each depth is known, that of the depth.  Invalid pixels stay as they
/// were.
pub proof fn law_constants_fill_the_raster(
    dec: Decoding,
    out: Seq<u8>,
    order: ByteOrder,
    i: int,
    j: int,
    depth: int,
)
    requires
        dec.hd.wf(),
        dec.hd.raster_len() <= out.len(),
        0 <= i < dec.hd.n_rows,
        0 <= j < dec.hd.n_cols,
        0 <= depth < dec.hd.n_depth,
    ensures
        ({
            let layout = dec.layout(order);
            let after = fill::filled(layout, out, dec.valid_pixels(), dec.constant_source());
            let k = encode_tile::pixel(dec.hd, i, j);
            &&& after.len() == out.len()
            &&& layout.cell(after, k, depth) == if !dec.mask.valid(k) {
                layout.cell(out, k, depth)
            } else if !encode_stream::are_equal(dec.hd.z_min, dec.hd.z_max) && dec.z_min.len()
                == dec.hd.n_depth {
                layout.word(dec.z_min[depth])
            } else {
                layout.word(dec.hd.z_min)
            }
        }),
{
    let hd = dec.hd;
    let layout = dec.layout(order);
    let pixels = dec.valid_pixels();
    let source = dec.constant_source();
    let k = encode_tile::pixel(hd, i, j);
    let after = fill::filled(layout, out, pixels, source);
    lemma_turn_in_raster(dec, i, j);
    encode_stream::law_equality_is_that_of_numbers(hd.z_min, hd.z_max);
    laws::lemma_valid_pixels(dec);
    fill::law_raster_is_filled(layout, out, hd.num_pixels(), pixels, source);
    if dec.mask.valid(k) {
        let t = encode_tile::turn(dec.mask, hd, whole_place(hd), i, j);
        assert(layout.cell(after, pixels[t], depth) == layout.word(
            source.number(layout, t, depth),
        ));
    } else {
        assert(!pixels.contains(k));
    }
}

/// Samples that stand one after the other are read as far as the stream holds them: each
/// valid pixel, row by row and from left to right, takes one for each depth, even where the
/// raster is refused because the stream ends before the last one, and the others stay as
/// they were.
#[verifier::rlimit(40)]
pub proof fn law_sweep_is_read_as_far_as_it_goes(
    dec: Decoding,
    buf: Seq<u8>,
    pos: int,
    out: Seq<u8>,
    order: ByteOrder,
    i: int,
    j: int,
    depth: int,
)
    requires
        dec.hd.wf(),
        dec.hd.raster_len() <= out.len(),
        0 <= pos <= buf.len(),
        0 <= i < dec.hd.n_rows,
        0 <= j < dec.hd.n_cols,
        0 <= depth < dec.hd.n_depth,
    ensures
        ({
            let after = dec.sweep_from(buf, pos, out, order);
            let layout = dec.layout(order);
            let place = whole_place(dec.hd);
            let size = dec.hd.dt.size_spec();
            let all = dec.hd.n_depth * size;
            let n = encode_tile::valid_in_tile(dec.mask, dec.hd, place);
            let k = encode_tile::pixel(dec.hd, i, j);
            let t = encode_tile::turn(dec.mask, dec.hd, place, i, j);
            let at = pos + (t * dec.hd.n_depth + depth) * size;
            let whole = pos + n * all <= buf.len();
            &&& after.result == if whole {
                Ok::<(), Fault>(())
            } else {
                Err(Fault::InvalidData("unexpected end of LERC blob"@))
            }
            &&& after.pos == if whole {
                pos + n * all
            } else {
                buf.len() - (buf.len() - pos) % all
            }
            &&& after.out.len() == out.len()
            &&& layout.cell(after.out, k, depth) == if dec.mask.valid(k) && pos + (t + 1) * all
                <= buf.len() {
                layout.word(sample::stored_value(buf.subrange(at, at + size), dec.hd.dt))
            } else {
                layout.cell(out, k, depth)
            }
        }),
{
    let hd = dec.hd;
    let layout = dec.layout(order);
    let pixels = dec.valid_pixels();
    let nd = hd.n_depth as int;
    let size = hd.dt.size_spec() as int;
    let all = nd * size;
    let n = pixels.len() as int;
    let left = buf.len() - pos;
    let k = encode_tile::pixel(hd, i, j);
    let t = encode_tile::turn(dec.mask, hd, whole_place(hd), i, j);
    let after = dec.sweep_from(buf, pos, out, order);
    lemma_turn_in_raster(dec, i, j);
    assert(all >= 1) by (nonlinear_arith)
        requires
            all == nd * size,
            nd >= 1,
            size >= 1,
    ;
    lemma_fundamental_div_mod(left, all);
    lemma_mod_bound(left, all);
    lemma_div_pos_is_pos(left, all);
    let stored = left / all;
    assert(stored * all == all * stored) by (nonlinear_arith);
    assert((n <= stored) == (n * all <= left)) by (nonlinear_arith)
        requires
            left == all * stored + left % all,
            0 <= left % all < all,
    ;
    assert((t + 1 <= stored) == ((t + 1) * all <= left)) by (nonlinear_arith)
        requires
            left == all * stored + left % all,
            0 <= left % all < all,
    ;
    let m = if n <= stored {
        n
    } else {
        stored
    };
    let some = pixels.take(m);
    let source = FillSource::Stored(buf.skip(pos));
    laws::lemma_valid_pixels(dec);
    laws::lemma_first_valid_pixels(dec, m);
    fill::law_raster_is_filled(layout, out, hd.num_pixels(), some, source);
    if dec.mask.valid(k) && t < m {
        let at = (t * nd + depth) * size;
        assert(0 <= at && at + size <= (t + 1) * all) by (nonlinear_arith)
            requires
                at == (t * nd + depth) * size,
                all == nd * size,
                0 <= t,
                0 <= depth,
                depth + 1 <= nd,
                size >= 1,
        ;
        assert((t + 1) * all <= left) by (nonlinear_arith)
            requires
                t + 1 <= stored,
                all * stored <= left,
                all >= 1,
        ;
        assert(some[t] == k);
        assert(buf.skip(pos).subrange(at, at + size) =~= buf.subrange(pos + at, pos + at + size));
        assert(layout.cell(after.out, some[t], depth) == layout.word(
            source.number(layout, t, depth),
        ));
    } else {
        if some.contains(k) {
            let u = choose|u: int| 0 <= u < some.len() && some[u] == k;
            assert(pixels[u] == k);
            if dec.mask.valid(k) {
                assert(pixels[u] == pixels[t]);
            }
        }
    }
}

/// The ranges of a decoder are flat where there are as many least numbers as greatest ones
/// and each is equal to the other one of its depth.
pub proof fn law_flat_ranges_are_equal(dec: Decoding, d: int)
    ensures
        dec.z_min.len() != dec.z_max.len() ==> !dec.is_flat(),
        0 <= d < dec.z_min.len() && !encode_stream::are_equal(dec.z_min[d], dec.z_max[d])
            ==> !dec.is_flat(),
        !dec.is_flat() && dec.z_min.len() == dec.z_max.len() ==> exists|e: int|
            0 <= e < dec.z_min.len() && !encode_stream::are_equal(
                #[trigger] dec.z_min[e],
                dec.z_max[e],
            ),
{
    if 0 <= d < dec.z_min.len() {
        encode_stream::law_equality_is_that_of_numbers(dec.z_min[d], dec.z_max[d]);
    }
    if !dec.is_flat() && dec.z_min.len() == dec.z_max.len() {
        let e = choose|e: int|
            0 <= e < dec.z_min.len() && !(#[trigger] dec.z_min[e]).equals_spec(dec.z_max[e]);
        encode_stream::law_equality_is_that_of_numbers(dec.z_min[e], dec.z_max[e]);
    }
}

} // verus!
