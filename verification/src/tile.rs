//! The tiles of a LERC2 stream: small rectangles of pixels of one depth, each coded
//! in its own way.
use vstd::arithmetic::div_mod::*;
use vstd::arithmetic::mul::*;
use vstd::prelude::*;

use crate::binary64;
use crate::binary64::Binary64;
use crate::bit_stuffer;
use crate::bytes::ByteOrder;
use crate::data_type;
use crate::data_type::DataType;
use crate::decoder::{Decoding, Lerc2Decoder};
use crate::error;
use crate::error::{lerc_err, Fault, LercError};
use crate::header::HeaderInfo;
use crate::mask::{BitMask, Validity};
use crate::raster;
use crate::raster::{Area, Layout, Rect};
use crate::reader;
use crate::reader::ByteReader;
use crate::sample;

verus! {

/// Where the numbers of a tile come from.
pub enum TileSource {
    /// All are zero.
    Zero,
    /// They are stored one after the other in these bytes.
    Raw(Seq<u8>),
    /// All are the offset.
    Constant(Binary64),
    /// Each is the offset and a multiple of the step.
    Quantized { offset: Binary64, step: Binary64, values: Seq<u32> },
}

/// How the numbers of a tile are computed.
pub struct TileCoding {
    pub source: TileSource,
    /// The numbers are differences from those of the depth before.
    pub diff: bool,
    /// The numbers that are computed are not larger than this one.
    pub z_max: Binary64,
}

impl TileCoding {
    /// The number of the visited pixel `t`, where the depth before holds `prev`.
    pub open spec fn number(self, dt: DataType, t: int, prev: Binary64) -> Binary64 {
        match self.source {
            TileSource::Zero => if self.diff {
                prev
            } else {
                Binary64 { bits: 0 }
            },
            TileSource::Raw(s) => sample::stored_value(
                s.subrange(t * dt.size_spec(), t * dt.size_spec() + dt.size_spec()),
                dt,
            ),
            TileSource::Constant(offset) => if self.diff {
                offset.plus_spec(prev).lesser_spec(self.z_max)
            } else {
                offset
            },
            TileSource::Quantized { offset, step, values } => {
                let z = offset.plus_spec(step.times_spec(values[t] as nat));
                (if self.diff {
                    z.plus_spec(prev)
                } else {
                    z
                }).lesser_spec(self.z_max)
            },
        }
    }
}

/// A raster after the numbers of a tile at `depth` were written to `pixels`.
pub open spec fn painted(
    layout: Layout,
    out: Seq<u8>,
    pixels: Seq<int>,
    depth: int,
    coding: TileCoding,
) -> Seq<u8>
    decreases pixels.len(),
{
    if pixels.len() == 0 {
        out
    } else {
        let before = painted(layout, out, pixels.drop_last(), depth, coding);
        let k = pixels.last();
        let prev = layout.get(before, k, depth - 1);
        layout.set(before, k, depth, coding.number(layout.dt, pixels.len() - 1, prev))
    }
}

/// Writing a tile gives each of its pixels the number of its turn, computed from what
/// the depth before held, and changes nothing else.
pub proof fn law_tile_is_painted(
    layout: Layout,
    out: Seq<u8>,
    n: int,
    pixels: Seq<int>,
    depth: int,
    coding: TileCoding,
)
    requires
        layout.fits(out, n),
        0 <= depth < layout.n_depth,
        coding.diff ==> depth >= 1,
        forall|t: int| 0 <= t < pixels.len() ==> 0 <= #[trigger] pixels[t] < n,
        pixels.no_duplicates(),
    ensures
        painted(layout, out, pixels, depth, coding).len() == out.len(),
        forall|t: int|
            0 <= t < pixels.len() ==> layout.cell(
                painted(layout, out, pixels, depth, coding),
                #[trigger] pixels[t],
                depth,
            ) == layout.word(
                coding.number(layout.dt, t, layout.get(out, pixels[t], depth - 1)),
            ),
        forall|k: int, d: int|
            0 <= k < n && 0 <= d < layout.n_depth && !(d == depth && pixels.contains(k))
                ==> #[trigger] layout.cell(painted(layout, out, pixels, depth, coding), k, d)
                == layout.cell(out, k, d),
    decreases pixels.len(),
{
    let after = painted(layout, out, pixels, depth, coding);
    if pixels.len() > 0 {
        let first = pixels.drop_last();
        let before = painted(layout, out, first, depth, coding);
        let k = pixels.last();
        let last = pixels.len() - 1;
        let prev = layout.get(before, k, depth - 1);
        let z = coding.number(layout.dt, last, prev);
        law_tile_is_painted(layout, out, n, first, depth, coding);
        raster::law_pixels_are_independent(layout, before, n, k, depth, z);
        assert(pixels[last] == k);
        assert forall|t: int| 0 <= t < first.len() implies #[trigger] first[t] == pixels[t]
            && first[t] != k by {}
        assert(!first.contains(k));
        if depth >= 1 {
            assert(layout.cell(before, k, depth - 1) == layout.cell(out, k, depth - 1));
            assert(prev == layout.get(out, k, depth - 1));
        } else {
            assert(z == coding.number(layout.dt, last, layout.get(out, k, depth - 1)));
        }
        assert forall|t: int| 0 <= t < pixels.len() implies layout.cell(
            after,
            #[trigger] pixels[t],
            depth,
        ) == layout.word(coding.number(layout.dt, t, layout.get(out, pixels[t], depth - 1))) by {
            if t < last {
                assert(first[t] == pixels[t]);
                assert(layout.cell(after, pixels[t], depth) == layout.cell(
                    before,
                    pixels[t],
                    depth,
                ));
            }
        }
        assert forall|other: int, d: int|
            0 <= other < n && 0 <= d < layout.n_depth && !(d == depth && pixels.contains(
                other,
            )) implies #[trigger] layout.cell(after, other, d) == layout.cell(out, other, d) by {
            assert(pixels.contains(k));
            if first.contains(other) {
                let t = choose|t: int| 0 <= t < first.len() && first[t] == other;
                assert(pixels[t] == other);
            }
            assert(layout.cell(before, other, d) == layout.cell(out, other, d));
            assert(other != k || d != depth);
        }
    }
}

/// Integers are decoded without rounding: the number of a quantized tile whose offset,
/// step and greatest number are integers is the offset and so many steps, and not more
/// than the greatest number.
pub proof fn law_quantized_integers_are_exact(
    offset: int,
    step: int,
    z_max: int,
    values: Seq<u32>,
    dt: DataType,
    t: int,
    prev: Binary64,
)
    requires
        -0x20_0000_0000_0000 < offset < 0x20_0000_0000_0000,
        0 <= step < 0x20_0000_0000_0000,
        -0x20_0000_0000_0000 < z_max < 0x20_0000_0000_0000,
        0 <= t < values.len(),
        step * values[t] < 0x20_0000_0000_0000,
        offset + step * values[t] < 0x20_0000_0000_0000,
    ensures
        (TileCoding {
            source: TileSource::Quantized {
                offset: Binary64::from_integer_spec(offset),
                step: Binary64::from_integer_spec(step),
                values,
            },
            diff: false,
            z_max: Binary64::from_integer_spec(z_max),
        }).number(dt, t, prev) == Binary64::from_integer_spec(
            if z_max < offset + step * values[t] {
                z_max
            } else {
                offset + step * values[t]
            },
        ),
{
    let q = values[t] as nat;
    assert(step * q >= 0) by (nonlinear_arith)
        requires
            step >= 0,
            q >= 0,
    ;
    binary64::law_integer_products_are_exact(step, q);
    binary64::law_integer_sums_are_exact(offset, step * q);
    binary64::law_integers_are_ordered(offset + step * q, z_max);
}

/// The error is limited: a number that is decoded from a quantized value misses the
/// number `v` that was quantized, given in units of 2^-1074, by no more than the largest
/// error, as long as the exact offset and so many steps do, with room for the rounding of
/// the multiple and of the sum: `low` and `high` are binary64 numbers that miss `v` by no
/// more than the largest error, and the sum of the offset and any number between `few` and
/// `many` lies between them, as the exact multiple lies between `few` and `many`.  Where
/// multiple and sum are binary64 numbers, as those of integers are, no room is needed.
pub proof fn law_error_is_limited(
    coding: TileCoding,
    error: Binary64,
    dt: DataType,
    t: int,
    prev: Binary64,
    v: int,
    few: Binary64,
    many: Binary64,
    low: Binary64,
    high: Binary64,
)
    requires
        coding.source is Quantized,
        !coding.diff,
        coding.z_max.is_finite(),
        coding.source->offset.is_finite(),
        coding.source->step.is_finite(),
        error.is_finite(),
        few.is_finite(),
        many.is_finite(),
        low.is_finite(),
        high.is_finite(),
        0 <= t < coding.source->values.len(),
        few.units() <= coding.source->step.units() * coding.source->values[t] <= many.units(),
        low.units() <= coding.source->offset.units() + few.units(),
        coding.source->offset.units() + many.units() <= high.units(),
        v - error.units() <= low.units(),
        high.units() <= v + error.units(),
        v <= coding.z_max.units(),
    ensures
        coding.number(dt, t, prev).is_finite(),
        v - error.units() <= coding.number(dt, t, prev).units() <= v + error.units(),
{
    let offset = coding.source->offset;
    let step = coding.source->step;
    let q = coding.source->values[t] as nat;
    let product = step.times_spec(q);
    binary64::law_products_stay_between(step, q, few, many);
    binary64::law_sums_stay_between(offset, product, low, high);
    binary64::law_rank_orders_numbers(coding.z_max, offset.plus_spec(product));
}

/// The error of differences is limited: a number that is decoded from a quantized value
/// and from the number of the depth before misses the number `v` that was quantized, given
/// in units of 2^-1074, by no more than the largest error, as long as the exact offset, so
/// many steps and the number of the depth before do, with room for the rounding of the
/// multiple and of the two sums: the exact multiple lies between `few` and `many`, the sum
/// of the offset and any number between these lies between `low` and `high`, and the sum of
/// any number between those and the one of the depth before lies between `least` and
/// `most`, which miss `v` by no more than the largest error.
pub proof fn law_error_of_differences_is_limited(
    coding: TileCoding,
    error: Binary64,
    dt: DataType,
    t: int,
    prev: Binary64,
    v: int,
    few: Binary64,
    many: Binary64,
    low: Binary64,
    high: Binary64,
    least: Binary64,
    most: Binary64,
)
    requires
        coding.source is Quantized,
        coding.diff,
        prev.is_finite(),
        coding.z_max.is_finite(),
        coding.source->offset.is_finite(),
        coding.source->step.is_finite(),
        error.is_finite(),
        few.is_finite(),
        many.is_finite(),
        low.is_finite(),
        high.is_finite(),
        least.is_finite(),
        most.is_finite(),
        0 <= t < coding.source->values.len(),
        few.units() <= coding.source->step.units() * coding.source->values[t] <= many.units(),
        low.units() <= coding.source->offset.units() + few.units(),
        coding.source->offset.units() + many.units() <= high.units(),
        least.units() <= low.units() + prev.units(),
        high.units() + prev.units() <= most.units(),
        v - error.units() <= least.units(),
        most.units() <= v + error.units(),
        v <= coding.z_max.units(),
    ensures
        coding.number(dt, t, prev).is_finite(),
        v - error.units() <= coding.number(dt, t, prev).units() <= v + error.units(),
{
    let offset = coding.source->offset;
    let step = coding.source->step;
    let q = coding.source->values[t] as nat;
    let product = step.times_spec(q);
    let z = offset.plus_spec(product);
    binary64::law_products_stay_between(step, q, few, many);
    binary64::law_sums_stay_between(offset, product, low, high);
    binary64::law_sums_stay_between(z, prev, least, most);
    binary64::law_rank_orders_numbers(coding.z_max, z.plus_spec(prev));
}

/// The error of a constant tile of differences is limited: the number that is decoded
/// misses `v` by no more than the largest error, as long as the exact offset and the
/// number of the depth before do, with `least` and `most` leaving room for the rounding of
/// their sum.
pub proof fn law_error_of_constant_differences_is_limited(
    coding: TileCoding,
    error: Binary64,
    dt: DataType,
    t: int,
    prev: Binary64,
    v: int,
    least: Binary64,
    most: Binary64,
)
    requires
        coding.source is Constant,
        coding.diff,
        prev.is_finite(),
        coding.z_max.is_finite(),
        coding.source->Constant_0.is_finite(),
        error.is_finite(),
        least.is_finite(),
        most.is_finite(),
        least.units() <= coding.source->Constant_0.units() + prev.units() <= most.units(),
        v - error.units() <= least.units(),
        most.units() <= v + error.units(),
        v <= coding.z_max.units(),
    ensures
        coding.number(dt, t, prev).is_finite(),
        v - error.units() <= coding.number(dt, t, prev).units() <= v + error.units(),
{
    let offset = coding.source->Constant_0;
    binary64::law_sums_stay_between(offset, prev, least, most);
    binary64::law_rank_orders_numbers(coding.z_max, offset.plus_spec(prev));
}

/// Writing a number keeps its error limited: where a number misses `v`, given in units of
/// 2^-1074, by no more than the largest error and lies between two numbers of the type of
/// the raster that do so too, what the raster holds after the number was cast to the type
/// misses `v` by no more than the largest error.
pub proof fn law_error_of_the_raster_is_limited(
    z: Binary64,
    error: Binary64,
    dt: DataType,
    v: int,
    low: Binary64,
    high: Binary64,
)
    requires
        z.is_finite(),
        error.is_finite(),
        sample::is_sample(low, dt),
        sample::is_sample(high, dt),
        low.units() <= z.units() <= high.units(),
        v - error.units() <= low.units(),
        high.units() <= v + error.units(),
    ensures
        sample::written(z, dt).is_finite(),
        v - error.units() <= sample::written(z, dt).units() <= v + error.units(),
{
    sample::law_casts_stay_between(z, low, high, dt);
}

/// Differences of integers are decoded without rounding: the number of a quantized tile of
/// differences whose offset, step and greatest number are integers, as is the number of
/// the depth before, is their sum with so many steps, and not more than the greatest
/// number.
pub proof fn law_quantized_integer_differences_are_exact(
    offset: int,
    step: int,
    z_max: int,
    values: Seq<u32>,
    dt: DataType,
    t: int,
    prev: int,
)
    requires
        -0x20_0000_0000_0000 < offset < 0x20_0000_0000_0000,
        0 <= step < 0x20_0000_0000_0000,
        -0x20_0000_0000_0000 < z_max < 0x20_0000_0000_0000,
        -0x20_0000_0000_0000 < prev < 0x20_0000_0000_0000,
        0 <= t < values.len(),
        step * values[t] < 0x20_0000_0000_0000,
        offset + step * values[t] < 0x20_0000_0000_0000,
        -0x20_0000_0000_0000 < offset + step * values[t] + prev < 0x20_0000_0000_0000,
    ensures
        (TileCoding {
            source: TileSource::Quantized {
                offset: Binary64::from_integer_spec(offset),
                step: Binary64::from_integer_spec(step),
                values,
            },
            diff: true,
            z_max: Binary64::from_integer_spec(z_max),
        }).number(dt, t, Binary64::from_integer_spec(prev)) == Binary64::from_integer_spec(
            if z_max < offset + step * values[t] + prev {
                z_max
            } else {
                offset + step * values[t] + prev
            },
        ),
{
    let q = values[t] as nat;
    assert(step * q >= 0) by (nonlinear_arith)
        requires
            step >= 0,
            q >= 0,
    ;
    binary64::law_integer_products_are_exact(step, q);
    binary64::law_integer_sums_are_exact(offset, step * q);
    binary64::law_integer_sums_are_exact(offset + step * q, prev);
    binary64::law_integers_are_ordered(offset + step * q + prev, z_max);
}

/// Where the numbers of a tile come from.
enum Source<'a> {
    Zero,
    Raw(&'a [u8]),
    Constant(Binary64),
    Quantized { offset: Binary64, step: Binary64, values: &'a [u32] },
}

impl<'a> Source<'a> {
    spec fn view(&self) -> TileSource {
        match self {
            Source::Zero => TileSource::Zero,
            Source::Raw(s) => TileSource::Raw(s@),
            Source::Constant(offset) => TileSource::Constant(*offset),
            Source::Quantized { offset, step, values } => TileSource::Quantized {
                offset: *offset,
                step: *step,
                values: values@,
            },
        }
    }
}

/// How the numbers of a tile are computed.
struct Coding<'a> {
    source: Source<'a>,
    diff: bool,
    z_max: Binary64,
}

impl<'a> Coding<'a> {
    spec fn view(&self) -> TileCoding {
        TileCoding { source: self.source@, diff: self.diff, z_max: self.z_max }
    }

    /// Whether there is a number for the visited pixel `t`.
    spec fn covers(&self, dt: DataType, t: int) -> bool {
        match self.source {
            Source::Raw(s) => (t + 1) * dt.size_spec() <= s@.len(),
            Source::Quantized { offset, step, values } => t < values@.len(),
            _ => true,
        }
    }

    /// Writes the number of the visited pixel `t` to element `m` of a raster.
    fn write(&self, layout: Layout, out: &mut [u8], m: usize, t: usize)
        requires
            self.covers(layout.dt, t as int),
            self.diff ==> m >= 1,
            (m + 1) * layout.dt.size_spec() <= old(out)@.len(),
        ensures
            final(out)@ == sample::with_element(
                old(out)@,
                m as int,
                layout.dt,
                self@.number(
                    layout.dt,
                    t as int,
                    sample::element_value(old(out)@, m - 1, layout.dt, layout.order),
                ),
                layout.order,
            ),
    {
        let dt: DataType = layout.dt;
        proof {
            let sz = dt.size_spec();
            assert((m - 1 + 1) * sz <= (m + 1) * sz) by (nonlinear_arith)
                requires
                    sz >= 0,
            ;
        }
        match self.source {
            Source::Zero => {
                if self.diff {
                    sample::copy_prev_depth(out, m, dt, layout.order);
                } else {
                    sample::write_value(out, m, dt, Binary64 { bits: 0 }, layout.order);
                }
            },
            Source::Raw(s) => {
                let sz: usize = dt.size();
                proof {
                    assert((t + 1) * sz == t * sz + sz) by (nonlinear_arith);
                    assert(t * sz >= 0) by (nonlinear_arith)
                        requires
                            t >= 0,
                            sz >= 0,
                    ;
                    assert(s.len() <= usize::MAX);
                    let part = s@.subrange(t * sz, t * sz + sz);
                    assert(part.take(sz as int) =~= part);
                }
                let part: &[u8] = &s[t * sz..t * sz + sz];
                sample::write_value(
                    out,
                    m,
                    dt,
                    sample::read_native_from_le(part, dt),
                    layout.order,
                );
            },
            Source::Constant(offset) => {
                if self.diff {
                    let prev: Binary64 = sample::read_value(out, m - 1, dt, layout.order);
                    let z: Binary64 = offset.plus(prev);
                    sample::write_value(out, m, dt, z.lesser(self.z_max), layout.order);
                } else {
                    sample::write_value(out, m, dt, offset, layout.order);
                }
            },
            Source::Quantized { offset, step, values } => {
                let mut z: Binary64 = offset.plus(step.times(values[t]));
                if self.diff {
                    z = z.plus(sample::read_value(out, m - 1, dt, layout.order));
                }
                sample::write_value(out, m, dt, z.lesser(self.z_max), layout.order);
            },
        }
    }

    /// Writes the numbers of a tile to the visited pixels of a rectangle, at most
    /// `limit` of them; says how many were written, and whether all were.
    fn paint(
        &self,
        layout: Layout,
        mask: &BitMask,
        all: bool,
        out: &mut [u8],
        area: &Area,
        depth: i32,
        limit: usize,
    ) -> (r: (usize, bool))
        requires
            area.wf(),
            mask@.covers(area.pixels as int),
            layout.fits(old(out)@, area.pixels as int),
            0 <= depth < layout.n_depth,
            self.diff ==> depth >= 1,
            forall|t: int| 0 <= t < limit ==> self.covers(layout.dt, t),
        ensures
            ({
                let pixels = area@.pixels(mask@, all);
                &&& r.0 <= pixels.len()
                &&& r.1 ==> r.0 == pixels.len() <= limit
                &&& !r.1 ==> r.0 == limit < pixels.len()
                &&& final(out)@ == painted(
                    layout,
                    old(out)@,
                    pixels.take(r.0 as int),
                    depth as int,
                    self@,
                )
                &&& final(out)@.len() == old(out)@.len()
            }),
    {
        let ghost rect = area@;
        let ghost pixels = rect.pixels(mask@, all);
        let ghost mut seen: Seq<int> = Seq::empty();
        let mut t: usize = 0;
        let mut i: i32 = 0;
        let mut k: i64 = area.first;
        proof {
            lemma_mul_basics(rect.stride);
        }
        while i < area.rows
            invariant
                area.wf(),
                rect == area@,
                pixels == rect.pixels(mask@, all),
                mask@.covers(area.pixels as int),
                layout.fits(old(out)@, area.pixels as int),
                0 <= depth < layout.n_depth,
                self.diff ==> depth >= 1,
                forall|t: int| 0 <= t < limit ==> self.covers(layout.dt, t),
                0 <= i <= area.rows,
                k == area.first + i * area.stride,
                seen == rect.top(i as nat).pixels(mask@, all),
                t == seen.len() <= limit,
                out@.len() == old(out)@.len(),
                out@ == painted(layout, old(out)@, seen, depth as int, self@),
            decreases area.rows - i,
        {
            let ghost above = seen;
            let mut j: i32 = 0;
            let mut kk: i64 = k;
            proof {
                assert(i * area.stride + area.stride <= area.rows * area.stride)
                    by (nonlinear_arith)
                    requires
                        i + 1 <= area.rows,
                        area.stride >= 0,
                ;
                assert(i * area.stride >= 0) by (nonlinear_arith)
                    requires
                        i >= 0,
                        area.stride >= 0,
                ;
                assert((area.rows - 1) * area.stride == area.rows * area.stride - area.stride)
                    by (nonlinear_arith);
                assert(seen =~= above + raster::row_pixels(mask@, all, k as int, 0));
            }
            while j < area.cols
                invariant
                    area.wf(),
                    rect == area@,
                    pixels == rect.pixels(mask@, all),
                    mask@.covers(area.pixels as int),
                    layout.fits(old(out)@, area.pixels as int),
                    0 <= depth < layout.n_depth,
                    self.diff ==> depth >= 1,
                    forall|t: int| 0 <= t < limit ==> self.covers(layout.dt, t),
                    0 <= i < area.rows,
                    0 <= k,
                    k == area.first + i * area.stride,
                    k + area.cols <= area.pixels,
                    0 <= j <= area.cols,
                    kk == k + j,
                    above == rect.top(i as nat).pixels(mask@, all),
                    seen == above + raster::row_pixels(mask@, all, k as int, j as nat),
                    t == seen.len() <= limit,
                    out@.len() == old(out)@.len(),
                    out@ == painted(layout, old(out)@, seen, depth as int, self@),
                decreases area.cols - j,
            {
                if all || mask.is_valid(kk) {
                    let ghost next = seen.push(kk as int);
                    proof {
                        raster::lemma_rect_prefix(rect, mask@, all, i as nat, (j + 1) as nat);
                        assert(next =~= above + raster::row_pixels(
                            mask@,
                            all,
                            k as int,
                            (j + 1) as nat,
                        ));
                        assert(next.is_prefix_of(pixels));
                        assert(pixels.take(seen.len() as int) =~= seen);
                        assert(next.drop_last() =~= seen);
                        raster::lemma_index_fits(
                            layout,
                            out@.len() as int,
                            area.pixels as int,
                            kk as int,
                            depth as int,
                        );
                        assert(out.len() <= usize::MAX);
                    }
                    if t == limit {
                        return (t, false);
                    }
                    let m: usize = kk as usize * layout.n_depth as usize + depth as usize;
                    self.write(layout, out, m, t);
                    t = t + 1;
                    proof {
                        seen = next;
                    }
                } else {
                    assert(raster::row_pixels(mask@, all, k as int, (j + 1) as nat)
                        == raster::row_pixels(mask@, all, k as int, j as nat));
                }
                kk = kk + 1;
                j = j + 1;
            }
            proof {
                assert(rect.top((i + 1) as nat).top(i as nat) == rect.top(i as nat));
                assert((i + 1) * area.stride == i * area.stride + area.stride)
                    by (nonlinear_arith);
            }
            k = k + area.stride;
            i = i + 1;
        }
        proof {
            assert(rect.top(i as nat) == rect);
            assert(pixels.take(t as int) =~= pixels);
        }
        (t, true)
    }
}

/// Whether the flag of a tile repeats, in its bits from the third on, the column
/// that the tile starts at.
pub open spec fn flag_is_sound(version: int, flag: u8, j0: int) -> bool {
    let pattern: u8 = if version >= 5 {
        14
    } else {
        15
    };
    (flag >> 2) & pattern == ((j0 / 8 % 256) as u8) & pattern
}

/// The place of a tile: rows `i0..i1`, columns `j0..j1`, and the depth.
pub struct Place {
    pub i0: int,
    pub i1: int,
    pub j0: int,
    pub j1: int,
    pub depth: int,
}

impl Place {
    /// The tile lies within the raster.
    pub open spec fn within(self, hd: HeaderInfo) -> bool {
        &&& 0 <= self.i0 <= self.i1 <= hd.n_rows
        &&& 0 <= self.j0 <= self.j1 <= hd.n_cols
        &&& 0 <= self.depth < hd.n_depth
    }

    /// The pixels of the tile.
    pub open spec fn rect(self, hd: HeaderInfo) -> Rect {
        Rect {
            first: self.i0 * hd.n_cols + self.j0,
            stride: hd.n_cols as int,
            rows: (self.i1 - self.i0) as nat,
            cols: (self.j1 - self.j0) as nat,
        }
    }

    /// The number of pixels of the tile.
    pub open spec fn area(self) -> int {
        (self.i1 - self.i0) * (self.j1 - self.j0)
    }
}

/// A result, the position in the stream after it, and the raster after it.
pub struct Progress {
    pub result: Result<(), Fault>,
    pub pos: int,
    pub out: Seq<u8>,
}

impl Decoding {
    /// The greatest number of a tile at `depth`.
    pub open spec fn greatest(self, depth: int) -> Binary64 {
        if self.hd.version >= 4 && self.hd.n_depth > 1 {
            self.z_max[depth]
        } else {
            self.hd.z_max
        }
    }

    /// The numbers of a tile with the given flag are differences from the depth before.
    pub open spec fn has_differences(self, flag: u8) -> bool {
        self.hd.version >= 5 && flag & 4 != 0
    }

    /// The type that the offset of a tile with the given flag is stored in.
    pub open spec fn offset_type(self, flag: u8) -> Option<DataType> {
        let base = if self.has_differences(flag) && self.hd.dt.code_spec() < 6 {
            DataType::Int
        } else {
            self.hd.dt
        };
        data_type::reduced_type(base, flag as int / 64)
    }

    /// The raster after a tile that needs nothing more from the stream.
    pub open spec fn tile_done(
        self,
        pos: int,
        out: Seq<u8>,
        place: Place,
        order: ByteOrder,
        coding: TileCoding,
    ) -> Progress {
        let pixels = place.rect(self.hd).pixels(self.mask, false);
        Progress {
            result: Ok(()),
            pos,
            out: painted(self.layout(order), out, pixels, place.depth, coding),
        }
    }

    /// What reading the samples of a raw tile at `pos` does: each visited pixel takes
    /// one, and where the stream ends too early the pixels before keep theirs.
    pub open spec fn raw_tile_from(
        self,
        buf: Seq<u8>,
        pos: int,
        out: Seq<u8>,
        place: Place,
        order: ByteOrder,
        z_max: Binary64,
    ) -> Progress {
        let pixels = place.rect(self.hd).pixels(self.mask, false);
        let size = self.hd.dt.size_spec() as int;
        let stored = (buf.len() - pos) / size;
        let n = if pixels.len() <= stored {
            pixels.len() as int
        } else {
            stored
        };
        let coding = TileCoding { source: TileSource::Raw(buf.skip(pos)), diff: false, z_max };
        Progress {
            result: if pixels.len() <= stored {
                Ok(())
            } else {
                Err(reader::end_of_blob())
            },
            pos: pos + n * size,
            out: painted(self.layout(order), out, pixels.take(n), place.depth, coding),
        }
    }

    /// What reading the block of a quantized tile at `pos` does: each visited pixel
    /// takes one value, a block with a value for each pixel of the tile stands for
    /// all of them, valid or not, and where the block has too few values the pixels
    /// before keep theirs.
    pub open spec fn quantized_tile_from(
        self,
        buf: Seq<u8>,
        pos: int,
        out: Seq<u8>,
        place: Place,
        order: ByteOrder,
        offset: Binary64,
        diff: bool,
    ) -> Progress {
        let (block, end) = bit_stuffer::block_at(buf, pos, place.area() as nat);
        match block {
            Err(fault) => Progress { result: Err(fault), pos: end, out },
            Ok(values) => {
                let pixels = place.rect(self.hd).pixels(
                    self.mask,
                    values.len() == place.area(),
                );
                let enough = pixels.len() <= values.len();
                let coding = TileCoding {
                    source: TileSource::Quantized {
                        offset,
                        step: self.hd.max_z_error.times_spec(2),
                        values,
                    },
                    diff,
                    z_max: self.greatest(place.depth),
                };
                Progress {
                    result: if enough {
                        Ok(())
                    } else {
                        Err(Fault::InvalidData("LERC2 tile ran out of quantized values"@))
                    },
                    pos: end,
                    out: painted(
                        self.layout(order),
                        out,
                        if enough {
                            pixels
                        } else {
                            pixels.take(values.len() as int)
                        },
                        place.depth,
                        coding,
                    ),
                }
            },
        }
    }

    /// What reading a tile at `pos` does.
    ///
    /// The tile starts with a flag.  Its lowest two bits say how the tile is coded:
    /// 0 raw, 1 quantized, 2 zero, 3 constant.  From version 5 on its third bit says
    /// that the numbers are differences from the depth before.  Its highest two bits
    /// say in which type the offset of a quantized or constant tile is stored.
    pub open spec fn tile_from(
        self,
        buf: Seq<u8>,
        pos: int,
        out: Seq<u8>,
        place: Place,
        order: ByteOrder,
    ) -> Progress {
        let hd = self.hd;
        let flag = buf[pos];
        let mode = flag as int % 4;
        let diff = self.has_differences(flag);
        let used = self.offset_type(flag);
        let z_max = self.greatest(place.depth);
        if !reader::available(buf, pos, 1) {
            Progress { result: Err(reader::end_of_blob()), pos, out }
        } else if !flag_is_sound(hd.version as int, flag, place.j0) {
            Progress {
                result: Err(Fault::InvalidData("LERC2 tile integrity check failed"@)),
                pos: pos + 1,
                out,
            }
        } else if diff && place.depth == 0 {
            Progress {
                result: Err(Fault::InvalidData("invalid LERC2 diff-encoded tile"@)),
                pos: pos + 1,
                out,
            }
        } else if mode == 2 {
            self.tile_done(
                pos + 1,
                out,
                place,
                order,
                TileCoding { source: TileSource::Zero, diff, z_max },
            )
        } else if mode == 0 && diff {
            Progress {
                result: Err(Fault::InvalidData("unexpected diff-encoded raw LERC2 tile"@)),
                pos: pos + 1,
                out,
            }
        } else if mode == 0 {
            self.raw_tile_from(buf, pos + 1, out, place, order, z_max)
        } else if used is None {
            Progress {
                result: Err(Fault::InvalidData("bad LERC2 reduced type"@)),
                pos: pos + 1,
                out,
            }
        } else {
            let used = used->Some_0;
            let size = used.size_spec() as int;
            let offset = reader::sample_at(buf, pos + 1, used);
            if !reader::available(buf, pos + 1, size) {
                Progress { result: Err(reader::end_of_blob()), pos: pos + 1, out }
            } else if mode == 3 {
                self.tile_done(
                    pos + 1 + size,
                    out,
                    place,
                    order,
                    TileCoding { source: TileSource::Constant(offset), diff, z_max },
                )
            } else {
                self.quantized_tile_from(buf, pos + 1 + size, out, place, order, offset, diff)
            }
        }
    }
}

impl Decoding {
    /// The block of values of a quantized tile at `pos`.
    pub open spec fn tile_values(self, buf: Seq<u8>, pos: int, place: Place) -> Seq<u32> {
        let used = self.offset_type(buf[pos])->Some_0;
        bit_stuffer::block_at(buf, pos + 1 + used.size_spec(), place.area() as nat).0->Ok_0
    }

    /// How the numbers of the tile at `pos` are computed.
    pub open spec fn tile_coding(self, buf: Seq<u8>, pos: int, place: Place) -> TileCoding {
        let flag = buf[pos];
        let mode = flag as int % 4;
        let offset = reader::sample_at(buf, pos + 1, self.offset_type(flag)->Some_0);
        TileCoding {
            source: if mode == 2 {
                TileSource::Zero
            } else if mode == 0 {
                TileSource::Raw(buf.skip(pos + 1))
            } else if mode == 3 {
                TileSource::Constant(offset)
            } else {
                TileSource::Quantized {
                    offset,
                    step: self.hd.max_z_error.times_spec(2),
                    values: self.tile_values(buf, pos, place),
                }
            },
            diff: self.has_differences(flag),
            z_max: self.greatest(place.depth),
        }
    }

    /// The tile at `pos` is quantized and has a value for each of its pixels.
    pub open spec fn tile_is_full(self, buf: Seq<u8>, pos: int, place: Place) -> bool {
        buf[pos] as int % 4 == 1 && self.tile_values(buf, pos, place).len() == place.area()
    }

    /// The pixels that the tile at `pos` gives numbers to: all pixels of a full tile, and
    /// the valid ones of another one.
    pub open spec fn tile_pixels(self, buf: Seq<u8>, pos: int, place: Place) -> Seq<int> {
        place.rect(self.hd).pixels(self.mask, self.tile_is_full(buf, pos, place))
    }
}

/// The pixels that a tile visits: pixels of the tile, each of them once.
pub proof fn lemma_place_pixels(hd: HeaderInfo, place: Place, mask: Validity, all: bool)
    requires
        hd.wf(),
        place.within(hd),
    ensures
        place.rect(hd).within(hd.num_pixels()),
        place.rect(hd).pixels(mask, all).no_duplicates(),
        forall|t: int|
            0 <= t < place.rect(hd).pixels(mask, all).len() ==> 0 <= #[trigger] place.rect(
                hd,
            ).pixels(mask, all)[t] < hd.num_pixels(),
        forall|k: int| #[trigger]
            place.rect(hd).pixels(mask, all).contains(k) <==> place.rect(hd).contains(k) && (all
                || mask.valid(k)),
{
    let rect = place.rect(hd);
    let pixels = rect.pixels(mask, all);
    let w = hd.n_cols as int;
    assert(0 <= place.i0 * w) by (nonlinear_arith)
        requires
            0 <= place.i0,
            0 <= w,
    ;
    assert(place.i0 * w + (place.i1 - place.i0 - 1) * w + w <= hd.n_rows * w) by (nonlinear_arith)
        requires
            place.i1 <= hd.n_rows,
            0 <= w,
    ;
    raster::lemma_rect_pixels(rect, mask, all);
    assert forall|t: int| 0 <= t < pixels.len() implies 0 <= #[trigger] pixels[t]
        < hd.num_pixels() by {
        if rect.rows == 0 {
            assert(pixels.len() == 0);
        }
    }
    assert forall|k: int| #[trigger] pixels.contains(k) implies rect.contains(k) && (all
        || mask.valid(k)) by {
        let t = choose|t: int| 0 <= t < pixels.len() && pixels[t] == k;
    }
}

impl Decoding {
    /// What painting some of the pixels of a tile leaves as it was.
    proof fn lemma_paint_frame(
        self,
        out: Seq<u8>,
        place: Place,
        order: ByteOrder,
        all: bool,
        m: int,
        coding: TileCoding,
    )
        requires
            self.hd.wf(),
            self.hd.raster_len() <= out.len(),
            place.within(self.hd),
            coding.diff ==> place.depth >= 1,
            0 <= m <= place.rect(self.hd).pixels(self.mask, all).len(),
        ensures
            ({
                let layout = self.layout(order);
                let pixels = place.rect(self.hd).pixels(self.mask, all).take(m);
                let after = painted(layout, out, pixels, place.depth, coding);
                &&& after.len() == out.len()
                &&& forall|k: int, d: int|
                    0 <= k < self.hd.num_pixels() && 0 <= d < self.hd.n_depth && !(d == place.depth
                        && place.rect(self.hd).contains(k) && (all || self.mask.valid(k)))
                        ==> #[trigger] layout.cell(after, k, d) == layout.cell(out, k, d)
            }),
    {
        let layout = self.layout(order);
        let whole = place.rect(self.hd).pixels(self.mask, all);
        let pixels = whole.take(m);
        let after = painted(layout, out, pixels, place.depth, coding);
        lemma_place_pixels(self.hd, place, self.mask, all);
        assert forall|t: int| 0 <= t < pixels.len() implies 0 <= #[trigger] pixels[t]
            < self.hd.num_pixels() by {
            assert(pixels[t] == whole[t]);
        }
        law_tile_is_painted(
            layout,
            out,
            self.hd.num_pixels(),
            pixels,
            place.depth,
            coding,
        );
        assert forall|k: int, d: int|
            0 <= k < self.hd.num_pixels() && 0 <= d < self.hd.n_depth && !(d == place.depth
                && place.rect(self.hd).contains(k) && (all || self.mask.valid(
                k,
            ))) implies #[trigger] layout.cell(after, k, d) == layout.cell(out, k, d) by {
            if pixels.contains(k) {
                let t = choose|t: int| 0 <= t < pixels.len() && pixels[t] == k;
                assert(whole[t] == k);
                assert(whole.contains(k));
            }
        }
    }

    /// Reading a tile changes nothing outside the tile, nothing at other depths, and, but
    /// for a full tile, no invalid pixel, whether it succeeds or fails.
    pub proof fn law_tile_stays_in_its_place(
        self,
        buf: Seq<u8>,
        pos: int,
        out: Seq<u8>,
        place: Place,
        order: ByteOrder,
    )
        requires
            self.hd.wf(),
            self.hd.raster_len() <= out.len(),
            place.within(self.hd),
        ensures
            self.tile_from(buf, pos, out, place, order).out.len() == out.len(),
            forall|k: int, d: int|
                0 <= k < self.hd.num_pixels() && 0 <= d < self.hd.n_depth && !(d == place.depth
                    && place.rect(self.hd).contains(k) && (self.mask.valid(k)
                    || self.tile_is_full(buf, pos, place))) ==> #[trigger] self.layout(
                    order,
                ).cell(
                    self.tile_from(buf, pos, out, place, order).out,
                    k,
                    d,
                ) == self.layout(order).cell(out, k, d),
    {
        let hd = self.hd;
        let flag = buf[pos];
        let diff = self.has_differences(flag);
        let used = self.offset_type(flag);
        let z_max = self.greatest(place.depth);
        let pixels = place.rect(hd).pixels(self.mask, false);
        let all = pixels.len() as int;
        assert(pixels.take(all) =~= pixels);
        if diff && place.depth == 0 {
        } else {
            self.lemma_paint_frame(
                out,
                place,
                order,
                false,
                all,
                TileCoding { source: TileSource::Zero, diff, z_max },
            );
            let size = hd.dt.size_spec() as int;
            let stored = (buf.len() - (pos + 1)) / size;
            let n = if all <= stored {
                all
            } else {
                stored
            };
            if n >= 0 {
                self.lemma_paint_frame(
                    out,
                    place,
                    order,
                    false,
                    n,
                    TileCoding {
                        source: TileSource::Raw(buf.skip(pos + 1)),
                        diff: false,
                        z_max,
                    },
                );
            }
            if used is Some {
                let used = used->Some_0;
                let offset = reader::sample_at(buf, pos + 1, used);
                self.lemma_paint_frame(
                    out,
                    place,
                    order,
                    false,
                    all,
                    TileCoding { source: TileSource::Constant(offset), diff, z_max },
                );
                let (block, end) = bit_stuffer::block_at(
                    buf,
                    pos + 1 + used.size_spec(),
                    place.area() as nat,
                );
                if block is Ok {
                    let values = block->Ok_0;
                    let full = values.len() == place.area();
                    let visited = place.rect(hd).pixels(self.mask, full);
                    assert(visited.take(visited.len() as int) =~= visited);
                    let m = if visited.len() <= values.len() {
                        visited.len() as int
                    } else {
                        values.len() as int
                    };
                    self.lemma_paint_frame(
                        out,
                        place,
                        order,
                        full,
                        m,
                        TileCoding {
                            source: TileSource::Quantized {
                                offset,
                                step: hd.max_z_error.times_spec(2),
                                values,
                            },
                            diff,
                            z_max,
                        },
                    );
                }
            }
        }
    }
}

impl Decoding {
    /// A tile that is read gives each of its valid pixels the number of its turn: the one
    /// that its flag, its offset and its values say, computed from what the depth before
    /// holds where the tile is one of differences.
    pub proof fn law_tile_gives_each_pixel_its_number(
        self,
        buf: Seq<u8>,
        pos: int,
        out: Seq<u8>,
        place: Place,
        order: ByteOrder,
    )
        requires
            self.hd.wf(),
            self.hd.raster_len() <= out.len(),
            place.within(self.hd),
            self.tile_from(buf, pos, out, place, order).result is Ok,
        ensures
            ({
                let layout = self.layout(order);
                let pixels = self.tile_pixels(buf, pos, place);
                let coding = self.tile_coding(buf, pos, place);
                let after = self.tile_from(buf, pos, out, place, order).out;
                &&& pixels.no_duplicates()
                &&& forall|k: int|
                    place.rect(self.hd).contains(k) && self.mask.valid(k)
                        ==> #[trigger] pixels.contains(k)
                &&& forall|t: int|
                    0 <= t < pixels.len() ==> layout.cell(after, #[trigger] pixels[t], place.depth)
                        == layout.word(
                        coding.number(layout.dt, t, layout.get(out, pixels[t], place.depth - 1)),
                    )
            }),
    {
        let layout = self.layout(order);
        let all = self.tile_is_full(buf, pos, place);
        let pixels = place.rect(self.hd).pixels(self.mask, all);
        let coding = self.tile_coding(buf, pos, place);
        assert(pixels.take(pixels.len() as int) =~= pixels);
        lemma_place_pixels(self.hd, place, self.mask, all);
        law_tile_is_painted(layout, out, self.hd.num_pixels(), pixels, place.depth, coding);
    }
}

impl Lerc2Decoder {
    /// The pixels of a tile.
    fn tile_area(&self, i0: i32, i1: i32, j0: i32, j1: i32) -> (area: Area)
        requires
            self.hd.wf(),
            0 <= i0 <= i1 <= self.hd.n_rows,
            0 <= j0 <= j1 <= self.hd.n_cols,
        ensures
            area.wf(),
            area.pixels == self.hd.num_pixels(),
            forall|depth: int|
                area@ == #[trigger] (Place {
                    i0: i0 as int,
                    i1: i1 as int,
                    j0: j0 as int,
                    j1: j1 as int,
                    depth,
                }).rect(self.hd),
    {
        let hd = &self.hd;
        proof {
            let w = hd.n_cols as int;
            assert(0 <= i0 * w <= hd.n_rows * w) by (nonlinear_arith)
                requires
                    0 <= i0 <= hd.n_rows,
                    0 <= w,
            ;
            if i1 > i0 {
                assert(i0 * w + (i1 - i0 - 1) * w + w <= hd.n_rows * w) by (nonlinear_arith)
                    requires
                        i1 <= hd.n_rows,
                        0 <= w,
                ;
            }
        }
        Area {
            pixels: hd.n_rows as i64 * hd.n_cols as i64,
            first: i0 as i64 * hd.n_cols as i64 + j0 as i64,
            stride: hd.n_cols as i64,
            rows: i1 - i0,
            cols: j1 - j0,
        }
    }

    /// Reads a tile into a raster (see `tile_from`).
    pub fn read_tile(
        &self,
        r: &mut ByteReader,
        out: &mut [u8],
        i0: i32,
        i1: i32,
        j0: i32,
        j1: i32,
        i_depth: i32,
        order: ByteOrder,
    ) -> (res: Result<(), LercError>)
        requires
            self@.wf(),
            self@.has_ranges(),
            old(r).wf(),
            self.hd.raster_len() <= old(out)@.len(),
            0 <= i0 <= i1 <= self.hd.n_rows,
            0 <= j0 <= j1 <= self.hd.n_cols,
            0 <= i_depth < self.hd.n_depth,
            (i1 - i0) * (j1 - j0) * 31 <= usize::MAX || u32::MAX * 31 <= usize::MAX,
        ensures
            ({
                let place = Place {
                    i0: i0 as int,
                    i1: i1 as int,
                    j0: j0 as int,
                    j1: j1 as int,
                    depth: i_depth as int,
                };
                let after = self@.tile_from(
                    old(r).buf@,
                    old(r).pos as int,
                    old(out)@,
                    place,
                    order,
                );
                &&& error::viewed(res) == after.result
                &&& final(r).wf()
                &&& final(r).buf == old(r).buf
                &&& final(r).pos == after.pos
                &&& final(out)@ == after.out
                &&& final(out)@.len() == old(out)@.len()
            }),
    {
        let hd = &self.hd;
        let layout = Layout { n_depth: hd.n_depth, dt: hd.dt, order };
        let ghost place = Place {
            i0: i0 as int,
            i1: i1 as int,
            j0: j0 as int,
            j1: j1 as int,
            depth: i_depth as int,
        };
        let flag: u8 = r.read_u8()?;
        let diff: bool = hd.version >= 5 && (flag & 4) != 0;
        let pattern: u8 = if hd.version >= 5 {
            14
        } else {
            15
        };
        if ((flag >> 2) & pattern) != ((j0 / 8 % 256) as u8 & pattern) {
            return Err(lerc_err("LERC2 tile integrity check failed"));
        }
        if diff && i_depth == 0 {
            return Err(lerc_err("invalid LERC2 diff-encoded tile"));
        }
        let reduction: i32 = (flag / 64) as i32;
        let mode: u8 = flag % 4;
        let z_max: Binary64 = if hd.version >= 4 && hd.n_depth > 1 {
            self.z_max_vec[i_depth as usize]
        } else {
            hd.z_max
        };
        let area: Area = self.tile_area(i0, i1, j0, j1);
        let ghost pixels = place.rect(self.hd).pixels(self.mask@, false);
        proof {
            assert(area@ == place.rect(self.hd));
            assert(pixels.take(pixels.len() as int) =~= pixels);
            raster::lemma_rect_pixels(area@, self.mask@, false);
            assert((i1 - i0) * (j1 - j0) <= hd.n_rows * hd.n_cols) by (nonlinear_arith)
                requires
                    0 <= i1 - i0 <= hd.n_rows,
                    0 <= j1 - j0 <= hd.n_cols,
            ;
            assert((i1 - i0) * (j1 - j0) >= 0) by (nonlinear_arith)
                requires
                    0 <= i1 - i0,
                    0 <= j1 - j0,
            ;
        }
        let count: usize = (i1 - i0) as usize * (j1 - j0) as usize;
        if mode == 2 {
            let coding = Coding { source: Source::Zero, diff, z_max };
            let _done = coding.paint(layout, &self.mask, false, out, &area, i_depth, count);
            return Ok(());
        }
        if mode == 0 {
            if diff {
                return Err(lerc_err("unexpected diff-encoded raw LERC2 tile"));
            }
            return self.read_raw_tile(r, out, &area, i_depth, order, z_max, Ghost(place));
        }
        let base: DataType = if diff && hd.dt.code() < 6 {
            DataType::Int
        } else {
            hd.dt
        };
        let used: DataType = match data_type::get_data_type_used(base, reduction) {
            Some(used) => used,
            None => {
                return Err(lerc_err("bad LERC2 reduced type"));
            },
        };
        let offset: Binary64 = r.read_variable(used)?;
        if mode == 3 {
            let coding = Coding { source: Source::Constant(offset), diff, z_max };
            let _done = coding.paint(layout, &self.mask, false, out, &area, i_depth, count);
            return Ok(());
        }
        let values: Vec<u32> = bit_stuffer::bit_stuffer2_decode(r, count, hd.version)?;
        let all: bool = values.len() == count;
        let coding = Coding {
            source: Source::Quantized {
                offset,
                step: hd.max_z_error.times(2),
                values: values.as_slice(),
            },
            diff,
            z_max,
        };
        let done = coding.paint(
            layout,
            &self.mask,
            all,
            out,
            &area,
            i_depth,
            values.len(),
        );
        proof {
            let visited = area@.pixels(self.mask@, all);
            assert(visited.take(visited.len() as int) =~= visited);
        }
        if done.1 {
            Ok(())
        } else {
            Err(lerc_err("LERC2 tile ran out of quantized values"))
        }
    }

    /// Reads the samples of a raw tile into a raster (see `raw_tile_from`).
    fn read_raw_tile(
        &self,
        r: &mut ByteReader,
        out: &mut [u8],
        area: &Area,
        i_depth: i32,
        order: ByteOrder,
        z_max: Binary64,
        Ghost(place): Ghost<Place>,
    ) -> (res: Result<(), LercError>)
        requires
            self@.wf(),
            old(r).wf(),
            self.hd.raster_len() <= old(out)@.len(),
            area.wf(),
            area.pixels == self.hd.num_pixels(),
            area@ == place.rect(self.hd),
            place.depth == i_depth,
            0 <= i_depth < self.hd.n_depth,
        ensures
            ({
                let after = self@.raw_tile_from(
                    old(r).buf@,
                    old(r).pos as int,
                    old(out)@,
                    place,
                    order,
                    z_max,
                );
                &&& error::viewed(res) == after.result
                &&& final(r).wf()
                &&& final(r).buf == old(r).buf
                &&& final(r).pos == after.pos
                &&& final(out)@ == after.out
                &&& final(out)@.len() == old(out)@.len()
            }),
    {
        let hd = &self.hd;
        let layout = Layout { n_depth: hd.n_depth, dt: hd.dt, order };
        let size: usize = hd.dt.size();
        let all: &[u8] = r.buf;
        let left: &[u8] = &all[r.pos..all.len()];
        let stored: usize = r.remaining() / size;
        let coding = Coding { source: Source::Raw(left), diff: false, z_max };
        proof {
            assert(left@ =~= r.buf@.skip(r.pos as int));
            let len = left@.len() as int;
            lemma_fundamental_div_mod(len, size as int);
            assert forall|t: int| 0 <= t < stored implies coding.covers(layout.dt, t) by {
                assert((t + 1) * size <= stored * size) by (nonlinear_arith)
                    requires
                        t + 1 <= stored,
                        size >= 0,
                ;
                assert(stored * size == size * stored) by (nonlinear_arith);
            }
        }
        let done = coding.paint(layout, &self.mask, false, out, area, i_depth, stored);
        proof {
            let n = done.0;
            let pixels = area@.pixels(self.mask@, false);
            assert(pixels.take(pixels.len() as int) =~= pixels);
            assert(n * size <= stored * size) by (nonlinear_arith)
                requires
                    n <= stored,
                    size >= 0,
            ;
            assert(stored * size == size * stored) by (nonlinear_arith);
            assert(n * size >= 0) by (nonlinear_arith)
                requires
                    n >= 0,
                    size >= 0,
            ;
        }
        r.pos = r.pos + done.0 * size;
        if done.1 {
            Ok(())
        } else {
            Err(lerc_err("unexpected end of LERC blob"))
        }
    }
}

} // verus!
