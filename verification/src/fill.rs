//! Rasters that are filled pixel by pixel, all depths of a pixel at once.
use vstd::arithmetic::div_mod::*;
use vstd::arithmetic::mul::*;
use vstd::prelude::*;

use crate::binary64::Binary64;
use crate::bytes::ByteOrder;
use crate::decoder::{Decoding, Lerc2Decoder};
use crate::error;
use crate::error::{lerc_err, LercError};
use crate::header::HeaderInfo;
use crate::mask::BitMask;
use crate::raster;
use crate::raster::{Area, Layout, Rect};
use crate::reader;
use crate::reader::ByteReader;
use crate::sample;
use crate::tile::Progress;

verus! {

/// Where the numbers of a raster come from.
pub enum FillSource {
    /// All are the same.
    Uniform(Binary64),
    /// All of one depth are the same.
    PerDepth(Seq<Binary64>),
    /// They are stored one after the other in these bytes.
    Stored(Seq<u8>),
}

impl FillSource {
    /// The number of the visited pixel `t` at `depth`.
    pub open spec fn number(self, layout: Layout, t: int, depth: int) -> Binary64 {
        match self {
            FillSource::Uniform(z) => z,
            FillSource::PerDepth(z) => z[depth],
            FillSource::Stored(s) => {
                let at = (t * layout.n_depth + depth) * layout.dt.size_spec();
                sample::stored_value(s.subrange(at, at + layout.dt.size_spec()), layout.dt)
            },
        }
    }
}

/// A raster after the first `n` depths of the visited pixel `t`, which is pixel `k`,
/// were written.
pub open spec fn pixel_filled(
    layout: Layout,
    out: Seq<u8>,
    k: int,
    t: int,
    n: nat,
    source: FillSource,
) -> Seq<u8>
    decreases n,
{
    if n == 0 {
        out
    } else {
        let depth = n - 1;
        layout.set(
            pixel_filled(layout, out, k, t, depth as nat, source),
            k,
            depth,
            source.number(layout, t, depth),
        )
    }
}

/// A raster after all depths of `pixels` were written.
pub open spec fn filled(layout: Layout, out: Seq<u8>, pixels: Seq<int>, source: FillSource) -> Seq<
    u8,
>
    decreases pixels.len(),
{
    if pixels.len() == 0 {
        out
    } else {
        pixel_filled(
            layout,
            filled(layout, out, pixels.drop_last(), source),
            pixels.last(),
            pixels.len() - 1,
            layout.n_depth as nat,
            source,
        )
    }
}

/// Writing a pixel gives each of its first depths its number and changes nothing else.
proof fn lemma_pixel_is_filled(
    layout: Layout,
    out: Seq<u8>,
    room: int,
    k: int,
    t: int,
    n: nat,
    source: FillSource,
)
    requires
        layout.fits(out, room),
        0 <= k < room,
        n <= layout.n_depth,
    ensures
        pixel_filled(layout, out, k, t, n, source).len() == out.len(),
        forall|d: int|
            0 <= d < n ==> #[trigger] layout.cell(pixel_filled(layout, out, k, t, n, source), k, d)
                == layout.word(source.number(layout, t, d)),
        forall|other: int, d: int|
            0 <= other < room && 0 <= d < layout.n_depth && (other != k || d >= n)
                ==> #[trigger] layout.cell(pixel_filled(layout, out, k, t, n, source), other, d)
                == layout.cell(out, other, d),
    decreases n,
{
    if n > 0 {
        let depth = n - 1;
        let before = pixel_filled(layout, out, k, t, depth as nat, source);
        lemma_pixel_is_filled(layout, out, room, k, t, depth as nat, source);
        raster::law_pixels_are_independent(
            layout,
            before,
            room,
            k,
            depth,
            source.number(layout, t, depth),
        );
    }
}

/// Filling a raster gives each visited pixel, at each depth, the number of its turn, and
/// leaves the other pixels as they were.
pub proof fn law_raster_is_filled(
    layout: Layout,
    out: Seq<u8>,
    n: int,
    pixels: Seq<int>,
    source: FillSource,
)
    requires
        layout.fits(out, n),
        layout.n_depth > 0,
        forall|t: int| 0 <= t < pixels.len() ==> 0 <= #[trigger] pixels[t] < n,
        pixels.no_duplicates(),
    ensures
        filled(layout, out, pixels, source).len() == out.len(),
        forall|t: int, d: int|
            0 <= t < pixels.len() && 0 <= d < layout.n_depth ==> #[trigger] layout.cell(
                filled(layout, out, pixels, source),
                pixels[t],
                d,
            ) == layout.word(source.number(layout, t, d)),
        forall|k: int, d: int|
            0 <= k < n && 0 <= d < layout.n_depth && !pixels.contains(k) ==> #[trigger] layout.cell(
                filled(layout, out, pixels, source),
                k,
                d,
            ) == layout.cell(out, k, d),
    decreases pixels.len(),
{
    let after = filled(layout, out, pixels, source);
    if pixels.len() > 0 {
        let first = pixels.drop_last();
        let before = filled(layout, out, first, source);
        let k = pixels.last();
        let last = pixels.len() - 1;
        law_raster_is_filled(layout, out, n, first, source);
        lemma_pixel_is_filled(layout, before, n, k, last, layout.n_depth as nat, source);
        assert(pixels[last] == k);
        assert forall|t: int, d: int|
            0 <= t < pixels.len() && 0 <= d < layout.n_depth implies #[trigger] layout.cell(
            after,
            pixels[t],
            d,
        ) == layout.word(source.number(layout, t, d)) by {
            if t < last {
                assert(first[t] == pixels[t]);
                assert(layout.cell(before, first[t], d) == layout.word(
                    source.number(layout, t, d),
                ));
                assert(pixels[t] != k);
            }
        }
        assert forall|other: int, d: int|
            0 <= other < n && 0 <= d < layout.n_depth && !pixels.contains(
                other,
            ) implies #[trigger] layout.cell(after, other, d) == layout.cell(out, other, d) by {
            assert(pixels.contains(k));
            if first.contains(other) {
                let t = choose|t: int| 0 <= t < first.len() && first[t] == other;
                assert(pixels[t] == other);
            }
            assert(layout.cell(before, other, d) == layout.cell(out, other, d));
        }
    }
}

/// Where the numbers of a raster come from.
enum Source<'a> {
    Uniform(Binary64),
    PerDepth(&'a [Binary64]),
    Stored(&'a [u8]),
}

impl<'a> Source<'a> {
    spec fn view(&self) -> FillSource {
        match self {
            Source::Uniform(z) => FillSource::Uniform(*z),
            Source::PerDepth(z) => FillSource::PerDepth(z@),
            Source::Stored(s) => FillSource::Stored(s@),
        }
    }

    /// Whether there are numbers for the visited pixel `t`.
    spec fn covers(&self, layout: Layout, t: int) -> bool {
        match self {
            Source::Uniform(z) => true,
            Source::PerDepth(z) => z@.len() >= layout.n_depth,
            Source::Stored(s) => (t + 1) * (layout.n_depth * layout.dt.size_spec()) <= s@.len(),
        }
    }

    /// The number of the visited pixel `t` at `depth`.
    fn number(&self, layout: Layout, t: usize, depth: usize) -> (z: Binary64)
        requires
            self.covers(layout, t as int),
            depth < layout.n_depth,
        ensures
            z == self@.number(layout, t as int, depth as int),
    {
        match self {
            Source::Uniform(z) => *z,
            Source::PerDepth(z) => z[depth],
            Source::Stored(s) => {
                let size: usize = layout.dt.size();
                assert(s.len() <= usize::MAX);
                proof {
                    let nd = layout.n_depth as int;
                    let i = t * nd + depth;
                    assert(0 <= i && (i + 1) * size <= (t + 1) * (nd * size)) by (nonlinear_arith)
                        requires
                            i == t * nd + depth,
                            0 <= t,
                            0 <= depth < nd,
                            0 <= size,
                    ;
                    assert((i + 1) * size == i * size + size) by (nonlinear_arith);
                    assert(i <= i * size) by (nonlinear_arith)
                        requires
                            0 <= i,
                            1 <= size,
                    ;
                    assert(t * nd <= i);
                    assert(t * nd >= 0) by (nonlinear_arith)
                        requires
                            0 <= t,
                            0 <= nd,
                    ;
                    let part = s@.subrange(i * size, i * size + size);
                    assert(part.take(size as int) =~= part);
                }
                let at: usize = (t * layout.n_depth as usize + depth) * size;
                sample::read_native_from_le(&s[at..at + size], layout.dt)
            },
        }
    }

    /// Writes the numbers of the visited pixel `t`, which is pixel `k`.
    fn fill_pixel(&self, layout: Layout, out: &mut [u8], Ghost(n): Ghost<int>, k: usize, t: usize)
        requires
            self.covers(layout, t as int),
            0 <= k < n,
            layout.n_depth > 0,
            layout.fits(old(out)@, n),
        ensures
            final(out)@ == pixel_filled(
                layout,
                old(out)@,
                k as int,
                t as int,
                layout.n_depth as nat,
                self@,
            ),
            final(out)@.len() == old(out)@.len(),
    {
        let n_depth: usize = layout.n_depth as usize;
        let ghost len = out.len();
        proof {
            raster::lemma_index_fits(layout, len as int, n, k as int, 0);
        }
        let m: usize = k * n_depth;
        let mut d: usize = 0;
        while d < n_depth
            invariant
                self.covers(layout, t as int),
                0 <= k < n,
                n_depth == layout.n_depth,
                d <= n_depth,
                m == k * n_depth,
                len == out.len(),
                out@.len() == old(out)@.len(),
                layout.fits(old(out)@, n),
                out@ == pixel_filled(layout, old(out)@, k as int, t as int, d as nat, self@),
            decreases n_depth - d,
        {
            proof {
                raster::lemma_index_fits(layout, len as int, n, k as int, d as int);
            }
            let z: Binary64 = self.number(layout, t, d);
            sample::write_value(out, m + d, layout.dt, z, layout.order);
            d = d + 1;
        }
    }

    /// Writes the numbers of the visited pixels of a rectangle, at most `limit` of
    /// them; says how many were written, and whether all were.
    fn fill(
        &self,
        layout: Layout,
        mask: &BitMask,
        out: &mut [u8],
        area: &Area,
        limit: usize,
    ) -> (r: (usize, bool))
        requires
            area.wf(),
            mask@.covers(area.pixels as int),
            layout.fits(old(out)@, area.pixels as int),
            layout.n_depth > 0,
            forall|t: int| 0 <= t < limit ==> self.covers(layout, t),
        ensures
            ({
                let pixels = area@.pixels(mask@, false);
                &&& r.0 <= pixels.len()
                &&& r.1 ==> r.0 == pixels.len() <= limit
                &&& !r.1 ==> r.0 == limit < pixels.len()
                &&& final(out)@ == filled(layout, old(out)@, pixels.take(r.0 as int), self@)
                &&& final(out)@.len() == old(out)@.len()
            }),
    {
        let ghost rect = area@;
        let ghost pixels = rect.pixels(mask@, false);
        let ghost mut seen: Seq<int> = Seq::empty();
        let mut t: usize = 0;
        let mut i: i32 = 0;
        let mut k: i64 = area.first;
        proof {
            lemma_mul_basics(rect.stride);
        }
        while i < area.rows
            invariant
                area.wf(),
                rect == area@,
                pixels == rect.pixels(mask@, false),
                mask@.covers(area.pixels as int),
                layout.fits(old(out)@, area.pixels as int),
                layout.n_depth > 0,
                forall|t: int| 0 <= t < limit ==> self.covers(layout, t),
                0 <= i <= area.rows,
                k == area.first + i * area.stride,
                seen == rect.top(i as nat).pixels(mask@, false),
                t == seen.len() <= limit,
                out@.len() == old(out)@.len(),
                out@ == filled(layout, old(out)@, seen, self@),
            decreases area.rows - i,
        {
            let ghost above = seen;
            let mut j: i32 = 0;
            let mut kk: i64 = k;
            proof {
                assert(i * area.stride + area.stride <= area.rows * area.stride)
                    by (nonlinear_arith)
                    requires
                        i + 1 <= area.rows,
                        area.stride >= 0,
                ;
                assert(i * area.stride >= 0) by (nonlinear_arith)
                    requires
                        i >= 0,
                        area.stride >= 0,
                ;
                assert((area.rows - 1) * area.stride == area.rows * area.stride - area.stride)
                    by (nonlinear_arith);
                assert(seen =~= above + raster::row_pixels(mask@, false, k as int, 0));
            }
            while j < area.cols
                invariant
                    area.wf(),
                    rect == area@,
                    pixels == rect.pixels(mask@, false),
                    mask@.covers(area.pixels as int),
                    layout.fits(old(out)@, area.pixels as int),
                    layout.n_depth > 0,
                    forall|t: int| 0 <= t < limit ==> self.covers(layout, t),
                    0 <= i < area.rows,
                    0 <= k,
                    k == area.first + i * area.stride,
                    k + area.cols <= area.pixels,
                    0 <= j <= area.cols,
                    kk == k + j,
                    above == rect.top(i as nat).pixels(mask@, false),
                    seen == above + raster::row_pixels(mask@, false, k as int, j as nat),
                    t == seen.len() <= limit,
                    out@.len() == old(out)@.len(),
                    out@ == filled(layout, old(out)@, seen, self@),
                decreases area.cols - j,
            {
                if mask.is_valid(kk) {
                    let ghost next = seen.push(kk as int);
                    proof {
                        raster::lemma_rect_prefix(rect, mask@, false, i as nat, (j + 1) as nat);
                        assert(next =~= above + raster::row_pixels(
                            mask@,
                            false,
                            k as int,
                            (j + 1) as nat,
                        ));
                        assert(next.is_prefix_of(pixels));
                        assert(pixels.take(seen.len() as int) =~= seen);
                        assert(next.drop_last() =~= seen);
                    }
                    if t == limit {
                        return (t, false);
                    }
                    self.fill_pixel(layout, out, Ghost(area.pixels as int), kk as usize, t);
                    t = t + 1;
                    proof {
                        seen = next;
                    }
                } else {
                    assert(raster::row_pixels(mask@, false, k as int, (j + 1) as nat)
                        == raster::row_pixels(mask@, false, k as int, j as nat));
                }
                kk = kk + 1;
                j = j + 1;
            }
            proof {
                assert(rect.top((i + 1) as nat).top(i as nat) == rect.top(i as nat));
                assert((i + 1) * area.stride == i * area.stride + area.stride)
                    by (nonlinear_arith);
            }
            k = k + area.stride;
            i = i + 1;
        }
        proof {
            assert(rect.top(i as nat) == rect);
            assert(pixels.take(t as int) =~= pixels);
        }
        (t, true)
    }
}

/// All pixels of a raster.
pub open spec fn whole(hd: HeaderInfo) -> Rect {
    Rect {
        first: 0,
        stride: hd.n_cols as int,
        rows: hd.n_rows as nat,
        cols: hd.n_cols as nat,
    }
}

impl Decoding {
    /// The valid pixels of the raster, row by row.
    pub open spec fn valid_pixels(self) -> Seq<int> {
        whole(self.hd).pixels(self.mask, false)
    }

    /// The number that a constant raster holds, or the number of each depth where the
    /// depths differ.
    pub open spec fn constant_source(self) -> FillSource {
        if !self.hd.z_min.equals_spec(self.hd.z_max) && self.z_min.len() == self.hd.n_depth {
            FillSource::PerDepth(self.z_min)
        } else {
            FillSource::Uniform(self.hd.z_min)
        }
    }

    /// What reading the samples of all valid pixels at `pos` does: each takes one for
    /// each depth, and where the stream ends too early the pixels before keep theirs.
    pub open spec fn sweep_from(
        self,
        buf: Seq<u8>,
        pos: int,
        out: Seq<u8>,
        order: ByteOrder,
    ) -> Progress {
        let pixels = self.valid_pixels();
        let size = self.hd.n_depth * self.hd.dt.size_spec();
        let stored = (buf.len() - pos) / size;
        let n = if pixels.len() <= stored {
            pixels.len() as int
        } else {
            stored
        };
        Progress {
            result: if pixels.len() <= stored {
                Ok(())
            } else {
                Err(reader::end_of_blob())
            },
            pos: pos + n * size,
            out: filled(
                self.layout(order),
                out,
                pixels.take(n),
                FillSource::Stored(buf.skip(pos)),
            ),
        }
    }
}

impl Lerc2Decoder {
    /// All pixels of the raster.
    fn whole_area(&self) -> (area: Area)
        requires
            self.hd.wf(),
        ensures
            area.wf(),
            area.pixels == self.hd.num_pixels(),
            area@ == whole(self.hd),
    {
        let hd = &self.hd;
        proof {
            assert(hd.n_rows * hd.n_cols >= 0) by (nonlinear_arith)
                requires
                    hd.n_rows >= 0,
                    hd.n_cols >= 0,
            ;
            assert((hd.n_rows - 1) * hd.n_cols + hd.n_cols == hd.n_rows * hd.n_cols)
                by (nonlinear_arith);
        }
        Area {
            pixels: hd.n_rows as i64 * hd.n_cols as i64,
            first: 0,
            stride: hd.n_cols as i64,
            rows: hd.n_rows,
            cols: hd.n_cols,
        }
    }

    /// Sets every valid pixel to the constant of the raster.
    pub fn fill_const_image(&self, out: &mut [u8], order: ByteOrder)
        requires
            self@.wf(),
            self.hd.raster_len() <= old(out)@.len(),
        ensures
            final(out)@ == filled(
                self@.layout(order),
                old(out)@,
                self@.valid_pixels(),
                self@.constant_source(),
            ),
            final(out)@.len() == old(out)@.len(),
    {
        let hd = &self.hd;
        let layout = Layout { n_depth: hd.n_depth, dt: hd.dt, order };
        let area: Area = self.whole_area();
        let n_depth: usize = hd.n_depth as usize;
        let per_depth_min: bool = !hd.z_min.equals(hd.z_max) && self.z_min_vec.len() == n_depth;
        let source = if per_depth_min {
            Source::PerDepth(self.z_min_vec.as_slice())
        } else {
            Source::Uniform(hd.z_min)
        };
        let limit: usize = area.pixels as usize;
        let _done = source.fill(layout, &self.mask, out, &area, limit);
        proof {
            let pixels = self@.valid_pixels();
            raster::lemma_rect_pixels(area@, self.mask@, false);
            assert(pixels.take(pixels.len() as int) =~= pixels);
        }
    }

    /// Reads the samples of all valid pixels into a raster (see `sweep_from`).
    pub fn read_data_one_sweep(
        &self,
        r: &mut ByteReader,
        out: &mut [u8],
        order: ByteOrder,
    ) -> (res: Result<(), LercError>)
        requires
            self@.wf(),
            old(r).wf(),
            self.hd.raster_len() <= old(out)@.len(),
        ensures
            ({
                let after = self@.sweep_from(old(r).buf@, old(r).pos as int, old(out)@, order);
                &&& error::viewed(res) == after.result
                &&& final(r).wf()
                &&& final(r).buf == old(r).buf
                &&& final(r).pos == after.pos
                &&& final(out)@ == after.out
                &&& final(out)@.len() == old(out)@.len()
            }),
    {
        let hd = &self.hd;
        let layout = Layout { n_depth: hd.n_depth, dt: hd.dt, order };
        assert(out.len() <= usize::MAX);
        let ghost sz = hd.dt.size_spec() as int;
        proof {
            assert(hd.n_rows * hd.n_cols >= 1) by (nonlinear_arith)
                requires
                    hd.n_rows >= 1,
                    hd.n_cols >= 1,
            ;
            let n = hd.num_pixels();
            assert(1 <= hd.n_depth * sz <= n * hd.n_depth * sz) by (nonlinear_arith)
                requires
                    n >= 1,
                    hd.n_depth >= 1,
                    sz >= 1,
            ;
        }
        let size: usize = hd.n_depth as usize * hd.dt.size();
        let all: &[u8] = r.buf;
        let left: &[u8] = &all[r.pos..all.len()];
        let stored: usize = r.remaining() / size;
        let source = Source::Stored(left);
        let area: Area = self.whole_area();
        proof {
            assert(left@ =~= r.buf@.skip(r.pos as int));
            lemma_fundamental_div_mod(left@.len() as int, size as int);
            assert(stored * size == size * stored) by (nonlinear_arith);
            assert forall|t: int| 0 <= t < stored implies source.covers(layout, t) by {
                assert((t + 1) * size <= stored * size) by (nonlinear_arith)
                    requires
                        t + 1 <= stored,
                        size >= 0,
                ;
            }
        }
        let done = source.fill(layout, &self.mask, out, &area, stored);
        proof {
            let n = done.0;
            let pixels = self@.valid_pixels();
            assert(pixels.take(pixels.len() as int) =~= pixels);
            assert(0 <= n * size <= stored * size) by (nonlinear_arith)
                requires
                    0 <= n <= stored,
                    size >= 0,
            ;
        }
        r.pos = r.pos + done.0 * size;
        if done.1 {
            Ok(())
        } else {
            Err(lerc_err("unexpected end of LERC blob"))
        }
    }
}

} // verus!
