//! Rasters and the order in which their pixels are visited.
//!
//! A raster holds for each pixel, row by row, one element per depth.
use vstd::arithmetic::mul::*;
use vstd::prelude::*;

use crate::binary64::Binary64;
use crate::bytes;
use crate::bytes::ByteOrder;
use crate::data_type::DataType;
use crate::mask::Validity;
use crate::sample;

verus! {

/// What the elements of a raster are.
#[derive(Clone, Copy, Debug)]
pub struct Layout {
    pub n_depth: i32,
    pub dt: DataType,
    pub order: ByteOrder,
}

impl Layout {
    /// The element of pixel `k` at `depth`.
    pub open spec fn index(self, k: int, depth: int) -> int {
        k * self.n_depth + depth
    }

    /// The raster with the element of pixel `k` at `depth` set to a number.
    pub open spec fn set(self, out: Seq<u8>, k: int, depth: int, v: Binary64) -> Seq<u8> {
        sample::with_element(out, self.index(k, depth), self.dt, v, self.order)
    }

    /// The number that the element of pixel `k` at `depth` stands for.
    pub open spec fn get(self, out: Seq<u8>, k: int, depth: int) -> Binary64 {
        sample::element_value(out, self.index(k, depth), self.dt, self.order)
    }

    /// The bytes of the element of pixel `k` at `depth`.
    pub open spec fn cell(self, out: Seq<u8>, k: int, depth: int) -> Seq<u8> {
        sample::element(out, self.index(k, depth), self.dt)
    }

    /// The bytes of the element that a number is written as.
    pub open spec fn word(self, v: Binary64) -> Seq<u8> {
        bytes::bytes_of(sample::sample_word(v, self.dt), self.dt.size_spec(), self.order)
    }

    /// Whether `out` has room for `n` pixels.
    pub open spec fn fits(self, out: Seq<u8>, n: int) -> bool {
        n * self.n_depth * self.dt.size_spec() <= out.len()
    }
}

/// The element of a pixel lies within a raster that has room for the pixel.
pub proof fn lemma_index_fits(layout: Layout, len: int, n: int, k: int, depth: int)
    requires
        0 <= k < n,
        0 <= depth < layout.n_depth,
        n * layout.n_depth * layout.dt.size_spec() <= len,
    ensures
        0 <= layout.index(k, depth) < n * layout.n_depth,
        (layout.index(k, depth) + 1) * layout.dt.size_spec() <= len,
        0 <= k * layout.n_depth < n * layout.n_depth,
        n * layout.n_depth <= len,
{
    let nd = layout.n_depth as int;
    let sz = layout.dt.size_spec() as int;
    let m = layout.index(k, depth);
    assert(k * nd + nd <= n * nd) by (nonlinear_arith)
        requires
            k + 1 <= n,
            nd >= 0,
    ;
    assert(k * nd >= 0) by (nonlinear_arith)
        requires
            k >= 0,
            nd >= 0,
    ;
    assert((m + 1) * sz <= (n * nd) * sz) by (nonlinear_arith)
        requires
            m + 1 <= n * nd,
            sz >= 0,
    ;
    assert(n * nd <= (n * nd) * sz) by (nonlinear_arith)
        requires
            n * nd >= 0,
            sz >= 1,
    ;
}

/// Each element belongs to one pixel and one depth.
pub proof fn lemma_index_unique(layout: Layout, k: int, depth: int, other: int, other_depth: int)
    requires
        0 <= depth < layout.n_depth,
        0 <= other_depth < layout.n_depth,
        layout.index(k, depth) == layout.index(other, other_depth),
    ensures
        k == other,
        depth == other_depth,
{
    let nd = layout.n_depth as int;
    vstd::arithmetic::div_mod::lemma_fundamental_div_mod_converse(
        layout.index(k, depth),
        nd,
        k,
        depth,
    );
    vstd::arithmetic::div_mod::lemma_fundamental_div_mod_converse(
        layout.index(other, other_depth),
        nd,
        other,
        other_depth,
    );
}

/// The elements of a raster do not overlap: setting the one of a pixel at a depth
/// makes it the word of the number that was written, and leaves all others and the
/// length as they were.
pub proof fn law_pixels_are_independent(
    layout: Layout,
    out: Seq<u8>,
    n: int,
    k: int,
    depth: int,
    v: Binary64,
)
    requires
        layout.fits(out, n),
        0 <= k < n,
        0 <= depth < layout.n_depth,
    ensures
        layout.set(out, k, depth, v).len() == out.len(),
        layout.cell(layout.set(out, k, depth, v), k, depth) == layout.word(v),
        forall|other: int, d: int|
            0 <= other < n && 0 <= d < layout.n_depth && (other != k || d != depth)
                ==> #[trigger] layout.cell(layout.set(out, k, depth, v), other, d) == layout.cell(
                out,
                other,
                d,
            ),
{
    let after = layout.set(out, k, depth, v);
    lemma_index_fits(layout, out.len() as int, n, k, depth);
    sample::law_elements_are_independent(out, layout.index(k, depth), layout.dt, v, layout.order);
    assert forall|other: int, d: int|
        0 <= other < n && 0 <= d < layout.n_depth && (other != k || d
            != depth) implies #[trigger] layout.cell(after, other, d) == layout.cell(
        out,
        other,
        d,
    ) by {
        lemma_index_fits(layout, out.len() as int, n, other, d);
        if layout.index(other, d) == layout.index(k, depth) {
            lemma_index_unique(layout, k, depth, other, d);
        }
    }
}

/// The pixels of a stretch of `n` pixels from `first` on that are visited: the valid
/// ones, or all of them.
pub open spec fn row_pixels(mask: Validity, all: bool, first: int, n: nat) -> Seq<int>
    decreases n,
{
    if n == 0 {
        Seq::empty()
    } else {
        let before = row_pixels(mask, all, first, (n - 1) as nat);
        let k = first + n - 1;
        if all || mask.valid(k) {
            before.push(k)
        } else {
            before
        }
    }
}

/// A rectangle of pixels of a raster that is `stride` pixels wide.
pub struct Rect {
    /// The first pixel.
    pub first: int,
    pub stride: int,
    pub rows: nat,
    pub cols: nat,
}

impl Rect {
    /// The first `rows` rows of a rectangle.
    pub open spec fn top(self, rows: nat) -> Rect {
        Rect { rows, ..self }
    }

    /// The pixels of a rectangle that are visited, row by row.
    pub open spec fn pixels(self, mask: Validity, all: bool) -> Seq<int>
        decreases self.rows,
    {
        if self.rows == 0 {
            Seq::empty()
        } else {
            let last = (self.rows - 1) as nat;
            self.top(last).pixels(mask, all) + row_pixels(
                mask,
                all,
                self.first + last * self.stride,
                self.cols,
            )
        }
    }

    /// The rectangle lies within a raster of `n` pixels.
    pub open spec fn within(self, n: int) -> bool {
        &&& 0 <= self.first
        &&& 0 <= self.cols <= self.stride
        &&& self.rows > 0 ==> self.first + (self.rows - 1) * self.stride + self.cols <= n
    }

    /// Pixel `k` is one of the rectangle.
    pub open spec fn contains(self, k: int) -> bool {
        exists|i: int, j: int|
            0 <= i < self.rows && 0 <= j < self.cols && #[trigger] self.at(i, j) == k
    }

    /// The pixel in row `i` and column `j` of the rectangle.
    pub open spec fn at(self, i: int, j: int) -> int {
        self.first + i * self.stride + j
    }
}

/// What a row visits: chosen pixels of the row, in order.
pub proof fn lemma_row_pixels(mask: Validity, all: bool, first: int, n: nat)
    ensures
        row_pixels(mask, all, first, n).len() <= n,
        all ==> row_pixels(mask, all, first, n).len() == n,
        forall|t: int|
            0 <= t < row_pixels(mask, all, first, n).len() ==> first <= #[trigger] row_pixels(
                mask,
                all,
                first,
                n,
            )[t] < first + n && (all || mask.valid(row_pixels(mask, all, first, n)[t])),
        forall|k: int|
            first <= k < first + n && (all || mask.valid(k)) ==> #[trigger] row_pixels(
                mask,
                all,
                first,
                n,
            ).contains(k),
        forall|s: int, t: int|
            0 <= s < t < row_pixels(mask, all, first, n).len() ==> #[trigger] row_pixels(
                mask,
                all,
                first,
                n,
            )[s] < #[trigger] row_pixels(mask, all, first, n)[t],
    decreases n,
{
    if n > 0 {
        let before = row_pixels(mask, all, first, (n - 1) as nat);
        let after = row_pixels(mask, all, first, n);
        lemma_row_pixels(mask, all, first, (n - 1) as nat);
        assert forall|k: int| first <= k < first + n && (all || mask.valid(k)) implies
            #[trigger] after.contains(k) by {
            if k < first + n - 1 {
                assert(before.contains(k));
                let t = choose|t: int| 0 <= t < before.len() && before[t] == k;
                assert(after[t] == k);
            } else {
                assert(after[after.len() - 1] == k);
            }
        }
    }
}

/// What a rectangle visits: the chosen pixels of the rectangle, in increasing order.
pub proof fn lemma_rect_pixels(rect: Rect, mask: Validity, all: bool)
    requires
        0 <= rect.cols <= rect.stride,
    ensures
        rect.pixels(mask, all).len() <= rect.rows * rect.cols,
        all ==> rect.pixels(mask, all).len() == rect.rows * rect.cols,
        forall|t: int|
            0 <= t < rect.pixels(mask, all).len() ==> rect.first <= #[trigger] rect.pixels(
                mask,
                all,
            )[t] < rect.first + (rect.rows - 1) * rect.stride + rect.cols && rect.contains(
                rect.pixels(mask, all)[t],
            ) && (all || mask.valid(rect.pixels(mask, all)[t])),
        forall|k: int|
            rect.contains(k) && (all || mask.valid(k)) ==> #[trigger] rect.pixels(
                mask,
                all,
            ).contains(k),
        forall|s: int, t: int|
            0 <= s < t < rect.pixels(mask, all).len() ==> #[trigger] rect.pixels(mask, all)[s]
                < #[trigger] rect.pixels(mask, all)[t],
    decreases rect.rows,
{
    let seen = rect.pixels(mask, all);
    if rect.rows == 0 {
        lemma_mul_basics(rect.cols as int);
    } else {
        let last = (rect.rows - 1) as nat;
        let above = rect.top(last);
        let before = above.pixels(mask, all);
        let start = rect.first + last * rect.stride;
        let row = row_pixels(mask, all, start, rect.cols);
        lemma_rect_pixels(above, mask, all);
        lemma_row_pixels(mask, all, start, rect.cols);
        assert(last * rect.cols + rect.cols == rect.rows * rect.cols) by (nonlinear_arith)
            requires
                last + 1 == rect.rows,
        ;
        assert(last * rect.stride >= 0) by (nonlinear_arith)
            requires
                last >= 0,
                rect.stride >= 0,
        ;
        assert((last - 1) * rect.stride + rect.stride == last * rect.stride) by (nonlinear_arith);
        assert forall|t: int| 0 <= t < seen.len() implies rect.first <= #[trigger] seen[t] < start
            + rect.cols && rect.contains(seen[t]) && (all || mask.valid(seen[t])) by {
            if t < before.len() {
                assert(seen[t] == before[t]);
                let (i, j) = choose|i: int, j: int|
                    0 <= i < last && 0 <= j < rect.cols && #[trigger] above.at(i, j) == before[t];
                assert(rect.at(i, j) == seen[t]);
            } else {
                let k = row[t - before.len()];
                assert(seen[t] == k);
                assert(rect.at(last as int, k - start) == k);
            }
        }
        assert forall|k: int| rect.contains(k) && (all || mask.valid(k)) implies
            #[trigger] seen.contains(k) by {
            let (i, j) = choose|i: int, j: int|
                0 <= i < rect.rows && 0 <= j < rect.cols && #[trigger] rect.at(i, j) == k;
            if i < last {
                assert(above.at(i, j) == k);
                assert(above.contains(k));
                assert(before.contains(k));
                let t = choose|t: int| 0 <= t < before.len() && before[t] == k;
                assert(seen[t] == k);
            } else {
                assert(row.contains(k));
                let t = choose|t: int| 0 <= t < row.len() && row[t] == k;
                assert(seen[before.len() + t] == k);
            }
        }
        assert forall|s: int, t: int| 0 <= s < t < seen.len() implies #[trigger] seen[s]
            < #[trigger] seen[t] by {
            if t < before.len() {
                assert(seen[s] == before[s] && seen[t] == before[t]);
            } else {
                assert(seen[t] == row[t - before.len()]);
                if s < before.len() {
                    assert(seen[s] == before[s]);
                } else {
                    assert(seen[s] == row[s - before.len()]);
                }
            }
        }
    }
}

/// What the first pixels of a row visit comes first in what the row visits.
proof fn lemma_row_prefix(mask: Validity, all: bool, first: int, j: nat, n: nat)
    requires
        j <= n,
    ensures
        row_pixels(mask, all, first, j).is_prefix_of(row_pixels(mask, all, first, n)),
    decreases n - j,
{
    if j < n {
        lemma_row_prefix(mask, all, first, j, (n - 1) as nat);
    }
}

/// What the first rows of a rectangle and the first pixels of the row after them
/// visit comes first in what the rectangle visits.
pub proof fn lemma_rect_prefix(rect: Rect, mask: Validity, all: bool, i: nat, j: nat)
    requires
        i < rect.rows,
        j <= rect.cols,
    ensures
        (rect.top(i).pixels(mask, all) + row_pixels(
            mask,
            all,
            rect.first + i * rect.stride,
            j,
        )).is_prefix_of(rect.pixels(mask, all)),
    decreases rect.rows,
{
    let last = (rect.rows - 1) as nat;
    let above = rect.top(last);
    let part = rect.top(i).pixels(mask, all) + row_pixels(
        mask,
        all,
        rect.first + i * rect.stride,
        j,
    );
    if i == last {
        lemma_row_prefix(mask, all, rect.first + i * rect.stride, j, rect.cols);
    } else {
        lemma_rect_prefix(above, mask, all, i, j);
        assert(above.top(i) == rect.top(i));
        assert(part.is_prefix_of(above.pixels(mask, all)));
    }
}

/// A rectangle of pixels of a raster, for the decoder to visit.
pub struct Area {
    /// The number of pixels of the raster.
    pub pixels: i64,
    pub first: i64,
    pub stride: i64,
    pub rows: i32,
    pub cols: i32,
}

impl Area {
    pub open spec fn view(&self) -> Rect {
        Rect {
            first: self.first as int,
            stride: self.stride as int,
            rows: self.rows as nat,
            cols: self.cols as nat,
        }
    }

    /// The rectangle lies within the raster.
    pub open spec fn wf(&self) -> bool {
        &&& 0 <= self.rows
        &&& 0 <= self.cols
        &&& 0 <= self.stride <= i32::MAX
        &&& 0 <= self.pixels <= i32::MAX
        &&& self@.within(self.pixels as int)
    }
}

} // verus!
