//! The tiles of a raster, one after the other.
use vstd::arithmetic::div_mod::*;
use vstd::arithmetic::mul::*;
use vstd::prelude::*;

use crate::bytes::ByteOrder;
use crate::decoder::{Decoding, Lerc2Decoder};
use crate::error;
use crate::error::{Fault, LercError};
use crate::header::HeaderInfo;
use crate::reader::ByteReader;
use crate::tile::{Place, Progress};

verus! {

/// The smaller one of two numbers.
pub open spec fn min(a: int, b: int) -> int {
    if a <= b {
        a
    } else {
        b
    }
}

impl HeaderInfo {
    /// The number of tiles that cover `n` rows or columns.
    pub open spec fn tiles_along(&self, n: int) -> int {
        (n + self.micro_block_size - 1) / self.micro_block_size as int
    }

    /// The number of tiles of the raster, those of each depth counted.
    pub open spec fn num_tiles(&self) -> int {
        self.tiles_along(self.n_rows as int) * self.tiles_along(self.n_cols as int) * self.n_depth
    }

    /// The rows and the columns are few enough to be rounded up to whole tiles.
    pub open spec fn has_tile_grid(&self) -> bool {
        &&& self.n_rows + self.micro_block_size - 1 <= i32::MAX
        &&& self.n_cols + self.micro_block_size - 1 <= i32::MAX
    }

    /// The tile in row `i` and column `j` of the grid of tiles, at `depth`.  Those at
    /// the right and at the bottom end where the raster ends.
    pub open spec fn tile_in_grid(&self, i: int, j: int, depth: int) -> Place {
        let mb = self.micro_block_size as int;
        Place {
            i0: i * mb,
            i1: min(i * mb + mb, self.n_rows as int),
            j0: j * mb,
            j1: min(j * mb + mb, self.n_cols as int),
            depth,
        }
    }

    /// Tile `n` of the stream: row by row, each row from left to right, all depths of
    /// a place one after the other.
    pub open spec fn tile(&self, n: int) -> Place {
        let at = n / self.n_depth as int;
        let hori = self.tiles_along(self.n_cols as int);
        self.tile_in_grid(at / hori, at % hori, n % self.n_depth as int)
    }

    /// Where a row of the grid of tiles starts and ends.
    proof fn lemma_grid_line(&self, n: int, i: int)
        requires
            0 < self.micro_block_size,
            0 < n,
        ensures
            0 < self.tiles_along(n) <= n,
            0 <= i < self.tiles_along(n) ==> 0 <= i * self.micro_block_size < n,
            0 <= i == self.tiles_along(n) - 1 ==> n <= i * self.micro_block_size
                + self.micro_block_size,
            0 <= i < self.tiles_along(n) - 1 ==> i * self.micro_block_size + self.micro_block_size
                <= n,
    {
        let mb = self.micro_block_size as int;
        let t = self.tiles_along(n);
        lemma_fundamental_div_mod(n + mb - 1, mb);
        lemma_mod_bound(n + mb - 1, mb);
        assert(mb * t == t * mb) by (nonlinear_arith);
        assert(t * mb <= n + mb - 1 < t * mb + mb);
        assert(t > 0) by (nonlinear_arith)
            requires
                t * mb + mb > n + mb - 1,
                n >= 1,
                mb >= 1,
        ;
        assert(t <= n) by (nonlinear_arith)
            requires
                t * mb <= n + mb - 1,
                n >= 1,
                mb >= 1,
        ;
        if 0 <= i < t {
            assert(0 <= i * mb && i * mb + mb <= t * mb) by (nonlinear_arith)
                requires
                    0 <= i,
                    i + 1 <= t,
                    mb >= 0,
            ;
            if i == t - 1 {
                assert(i * mb + mb == t * mb) by (nonlinear_arith)
                    requires
                        i + 1 == t,
                ;
            } else {
                assert(i * mb + mb + mb <= t * mb) by (nonlinear_arith)
                    requires
                        i + 2 <= t,
                        mb >= 0,
                ;
            }
        }
    }

    /// The tiles of the grid are numbered as the stream holds them.
    proof fn lemma_tile_number(&self, i: int, j: int, depth: int)
        requires
            self.wf(),
            0 <= i < self.tiles_along(self.n_rows as int),
            0 <= j < self.tiles_along(self.n_cols as int),
            0 <= depth < self.n_depth,
        ensures
            ({
                let n = (i * self.tiles_along(self.n_cols as int) + j) * self.n_depth + depth;
                &&& 0 <= n < self.num_tiles()
                &&& self.tile(n) == self.tile_in_grid(i, j, depth)
            }),
    {
        let vert = self.tiles_along(self.n_rows as int);
        let hori = self.tiles_along(self.n_cols as int);
        let nd = self.n_depth as int;
        let at = i * hori + j;
        let n = at * nd + depth;
        lemma_fundamental_div_mod_converse(n, nd, at, depth);
        lemma_fundamental_div_mod_converse(at, hori, i, j);
        assert(0 <= at && at + 1 <= vert * hori) by (nonlinear_arith)
            requires
                at == i * hori + j,
                0 <= i,
                i + 1 <= vert,
                0 <= j < hori,
        ;
        assert(0 <= n && n < vert * hori * nd) by (nonlinear_arith)
            requires
                n == at * nd + depth,
                0 <= at,
                at + 1 <= vert * hori,
                0 <= depth < nd,
        ;
    }
}

impl HeaderInfo {
    /// The number of the tile that pixel `k` at `depth` belongs to.
    pub open spec fn tile_of(&self, k: int, depth: int) -> int {
        let mb = self.micro_block_size as int;
        let w = self.n_cols as int;
        (k / w / mb * self.tiles_along(w) + k % w / mb) * self.n_depth + depth
    }

    /// The tile of row or column `x` of `n`.
    proof fn lemma_line_tile(&self, n: int, x: int, i: int)
        requires
            self.wf(),
            0 <= x < n,
            0 <= i < self.tiles_along(n),
        ensures
            0 <= x / self.micro_block_size as int,
            x / (self.micro_block_size as int) < self.tiles_along(n),
            i * self.micro_block_size <= x < min(
                i * self.micro_block_size + self.micro_block_size,
                n,
            ) <==> i == x / self.micro_block_size as int,
    {
        let mb = self.micro_block_size as int;
        let q = x / mb;
        let t = self.tiles_along(n);
        lemma_fundamental_div_mod(x, mb);
        lemma_mod_bound(x, mb);
        assert(mb * q == q * mb) by (nonlinear_arith);
        lemma_fundamental_div_mod(n + mb - 1, mb);
        lemma_mod_bound(n + mb - 1, mb);
        assert(mb * t == t * mb) by (nonlinear_arith);
        assert(q >= 0) by (nonlinear_arith)
            requires
                q * mb + mb > x,
                x >= 0,
                mb > 0,
        ;
        assert(q < t) by (nonlinear_arith)
            requires
                q * mb <= x,
                x < n,
                n + mb - 1 < t * mb + mb,
                mb > 0,
        ;
        if i < q {
            assert(i * mb + mb <= q * mb) by (nonlinear_arith)
                requires
                    i + 1 <= q,
                    mb > 0,
            ;
        } else if i > q {
            assert(q * mb + mb <= i * mb) by (nonlinear_arith)
                requires
                    q + 1 <= i,
                    mb > 0,
            ;
        }
    }

    /// Every tile lies within the raster and is of at least one pixel.
    pub proof fn law_tiles_lie_within(&self, n: int)
        requires
            self.wf(),
            0 <= n < self.num_tiles(),
        ensures
            self.tile(n).within(*self),
            self.tile(n).i0 < self.tile(n).i1,
            self.tile(n).j0 < self.tile(n).j1,
    {
        let (i, j, d) = self.lemma_grid_position(n);
        self.lemma_grid_line(self.n_rows as int, i);
        self.lemma_grid_line(self.n_cols as int, j);
    }

    /// The place of a tile in the grid of tiles.
    proof fn lemma_grid_position(&self, n: int) -> (r: (int, int, int))
        requires
            self.wf(),
            0 <= n < self.num_tiles(),
        ensures
            self.tile(n) == self.tile_in_grid(r.0, r.1, r.2),
            0 <= r.0 < self.tiles_along(self.n_rows as int),
            0 <= r.1 < self.tiles_along(self.n_cols as int),
            0 <= r.2 < self.n_depth,
            n == (r.0 * self.tiles_along(self.n_cols as int) + r.1) * self.n_depth + r.2,
    {
        let nd = self.n_depth as int;
        let vert = self.tiles_along(self.n_rows as int);
        let hori = self.tiles_along(self.n_cols as int);
        let at = n / nd;
        self.lemma_grid_line(self.n_rows as int, 0);
        self.lemma_grid_line(self.n_cols as int, 0);
        lemma_fundamental_div_mod(n, nd);
        lemma_mod_bound(n, nd);
        lemma_fundamental_div_mod(at, hori);
        lemma_mod_bound(at, hori);
        assert(nd * at == at * nd) by (nonlinear_arith);
        let i = at / hori;
        assert(hori * i == i * hori) by (nonlinear_arith);
        assert(0 <= at < vert * hori) by (nonlinear_arith)
            requires
                0 <= n,
                n < vert * hori * nd,
                at * nd <= n,
                n < at * nd + nd,
                nd > 0,
        ;
        assert(0 <= i < vert) by (nonlinear_arith)
            requires
                0 <= at,
                at < vert * hori,
                i * hori <= at,
                at < i * hori + hori,
                hori > 0,
        ;
        (i, at % hori, n % nd)
    }

    /// The tiles cover the raster without overlap: every pixel belongs, at every depth,
    /// to one tile and to no other.
    pub proof fn law_tiles_partition_the_raster(&self, k: int, depth: int)
        requires
            self.wf(),
            0 <= k < self.num_pixels(),
            0 <= depth < self.n_depth,
        ensures
            0 <= self.tile_of(k, depth) < self.num_tiles(),
            forall|n: int|
                0 <= n < self.num_tiles() ==> ((#[trigger] self.tile(n)).depth == depth
                    && self.tile(n).rect(*self).contains(k) <==> n == self.tile_of(k, depth)),
    {
        let mb = self.micro_block_size as int;
        let w = self.n_cols as int;
        let h = self.n_rows as int;
        let y = k / w;
        let x = k % w;
        lemma_fundamental_div_mod(k, w);
        lemma_mod_bound(k, w);
        assert(w * y == y * w) by (nonlinear_arith);
        assert(0 <= y < h) by (nonlinear_arith)
            requires
                0 <= k,
                k < h * w,
                y * w <= k,
                k < y * w + w,
                w > 0,
        ;
        self.lemma_grid_line(h, 0);
        self.lemma_grid_line(w, 0);
        self.lemma_line_tile(h, y, 0);
        self.lemma_line_tile(w, x, 0);
        self.lemma_tile_number(y / mb, x / mb, depth);
        assert forall|n: int| 0 <= n < self.num_tiles() implies ((#[trigger] self.tile(n)).depth
            == depth && self.tile(n).rect(*self).contains(k) <==> n == self.tile_of(k, depth)) by {
            let place = self.tile(n);
            let rect = place.rect(*self);
            let (i, j, d) = self.lemma_grid_position(n);
            self.lemma_line_tile(h, y, i);
            self.lemma_line_tile(w, x, j);
            self.law_tiles_lie_within(n);
            if place.depth == depth && rect.contains(k) {
                let (a, b) = choose|a: int, b: int|
                    0 <= a < rect.rows && 0 <= b < rect.cols && #[trigger] rect.at(a, b) == k;
                let row = place.i0 + a;
                let col = place.j0 + b;
                assert(k == row * w + col) by (nonlinear_arith)
                    requires
                        k == place.i0 * w + place.j0 + a * w + b,
                        row == place.i0 + a,
                        col == place.j0 + b,
                ;
                lemma_fundamental_div_mod_converse(k, w, row, col);
            }
            if n == self.tile_of(k, depth) {
                assert(place == self.tile_in_grid(y / mb, x / mb, depth));
                let a = y - place.i0;
                let b = x - place.j0;
                self.lemma_line_tile(h, y, y / mb);
                self.lemma_line_tile(w, x, x / mb);
                assert(place.i0 * w + place.j0 + a * w + b == k) by (nonlinear_arith)
                    requires
                        a == y - place.i0,
                        b == x - place.j0,
                        k == y * w + x,
                ;
                assert(rect.at(a, b) == k);
            }
        }
    }
}

impl Decoding {
    /// What reading the first `n` tiles from `pos` on does: nothing is read after a
    /// tile that fails.
    pub open spec fn tiles_from(
        self,
        buf: Seq<u8>,
        pos: int,
        out: Seq<u8>,
        order: ByteOrder,
        n: nat,
    ) -> Progress
        decreases n,
    {
        if n == 0 {
            Progress { result: Ok(()), pos, out }
        } else {
            let before = self.tiles_from(buf, pos, out, order, (n - 1) as nat);
            if before.result is Err {
                before
            } else {
                self.tile_from(buf, before.pos, before.out, self.hd.tile(n - 1), order)
            }
        }
    }

    /// Nothing is read after a tile that fails.
    proof fn lemma_tiles_stop(
        self,
        buf: Seq<u8>,
        pos: int,
        out: Seq<u8>,
        order: ByteOrder,
        n: nat,
        all: nat,
    )
        requires
            n <= all,
            self.tiles_from(buf, pos, out, order, n).result is Err,
        ensures
            self.tiles_from(buf, pos, out, order, all) == self.tiles_from(buf, pos, out, order, n),
        decreases all - n,
    {
        if n < all {
            self.lemma_tiles_stop(buf, pos, out, order, n, (all - 1) as nat);
        }
    }
}

impl Decoding {
    /// What reading tiles leaves as it was.
    pub proof fn lemma_tiles_frame(
        self,
        buf: Seq<u8>,
        pos: int,
        out: Seq<u8>,
        order: ByteOrder,
        n: nat,
        k: int,
        depth: int,
    )
        requires
            self.hd.wf(),
            self.hd.raster_len() <= out.len(),
            n <= self.hd.num_tiles(),
            0 <= k < self.hd.num_pixels(),
            0 <= depth < self.hd.n_depth,
        ensures
            ({
                let layout = self.layout(order);
                let own = self.hd.tile_of(k, depth);
                let after = self.tiles_from(buf, pos, out, order, n).out;
                &&& after.len() == out.len()
                &&& n <= own ==> layout.cell(after, k, depth) == layout.cell(out, k, depth)
                &&& n > own ==> layout.cell(after, k, depth) == layout.cell(
                    self.tiles_from(buf, pos, out, order, (own + 1) as nat).out,
                    k,
                    depth,
                )
            }),
        decreases n,
    {
        let own = self.hd.tile_of(k, depth);
        self.hd.law_tiles_partition_the_raster(k, depth);
        if n > 0 {
            let before = self.tiles_from(buf, pos, out, order, (n - 1) as nat);
            self.lemma_tiles_frame(buf, pos, out, order, (n - 1) as nat, k, depth);
            self.hd.law_tiles_lie_within(n - 1);
            self.law_tile_stays_in_its_place(
                buf,
                before.pos,
                before.out,
                self.hd.tile(n - 1),
                order,
            );
        }
    }

    /// Each tile writes its own part of the raster: what a pixel holds at a depth before
    /// its tile is read is what it held at the start, and what the tile makes of it
    /// stays until the end.
    pub proof fn law_each_pixel_comes_from_its_tile(
        self,
        buf: Seq<u8>,
        pos: int,
        out: Seq<u8>,
        order: ByteOrder,
        k: int,
        depth: int,
    )
        requires
            self.hd.wf(),
            self.hd.raster_len() <= out.len(),
            self.tiles_from(buf, pos, out, order, self.hd.num_tiles() as nat).result is Ok,
            0 <= k < self.hd.num_pixels(),
            0 <= depth < self.hd.n_depth,
        ensures
            ({
                let layout = self.layout(order);
                let own = self.hd.tile_of(k, depth);
                let before = self.tiles_from(buf, pos, out, order, own as nat);
                let tile = self.tile_from(buf, before.pos, before.out, self.hd.tile(own), order);
                let after = self.tiles_from(buf, pos, out, order, self.hd.num_tiles() as nat);
                &&& before.result is Ok
                &&& tile.result is Ok
                &&& layout.cell(before.out, k, depth) == layout.cell(out, k, depth)
                &&& layout.cell(after.out, k, depth) == layout.cell(tile.out, k, depth)
                &&& after.out.len() == out.len()
            }),
    {
        let own = self.hd.tile_of(k, depth);
        let all = self.hd.num_tiles() as nat;
        self.hd.law_tiles_partition_the_raster(k, depth);
        self.lemma_tiles_frame(buf, pos, out, order, own as nat, k, depth);
        self.lemma_tiles_frame(buf, pos, out, order, all, k, depth);
        if self.tiles_from(buf, pos, out, order, own as nat).result is Err {
            self.lemma_tiles_stop(buf, pos, out, order, own as nat, all);
        }
        if self.tiles_from(buf, pos, out, order, (own + 1) as nat).result is Err {
            self.lemma_tiles_stop(buf, pos, out, order, (own + 1) as nat, all);
        }
    }

    /// An invalid pixel is left as it was at every depth whose tile is not full.
    pub proof fn law_tiles_leave_invalid_pixels(
        self,
        buf: Seq<u8>,
        pos: int,
        out: Seq<u8>,
        order: ByteOrder,
        k: int,
        depth: int,
    )
        requires
            self.hd.wf(),
            self.hd.raster_len() <= out.len(),
            self.tiles_from(buf, pos, out, order, self.hd.num_tiles() as nat).result is Ok,
            0 <= k < self.hd.num_pixels(),
            0 <= depth < self.hd.n_depth,
            !self.mask.valid(k),
            ({
                let own = self.hd.tile_of(k, depth);
                let at = self.tiles_from(buf, pos, out, order, own as nat).pos;
                !self.tile_is_full(buf, at, self.hd.tile(own))
            }),
        ensures
            self.layout(order).cell(
                self.tiles_from(buf, pos, out, order, self.hd.num_tiles() as nat).out,
                k,
                depth,
            ) == self.layout(order).cell(out, k, depth),
    {
        let own = self.hd.tile_of(k, depth);
        let before = self.tiles_from(buf, pos, out, order, own as nat);
        self.law_each_pixel_comes_from_its_tile(buf, pos, out, order, k, depth);
        self.hd.law_tiles_partition_the_raster(k, depth);
        self.hd.law_tiles_lie_within(own);
        self.lemma_tiles_frame(buf, pos, out, order, own as nat, k, depth);
        self.law_tile_stays_in_its_place(buf, before.pos, before.out, self.hd.tile(own), order);
    }
}

impl HeaderInfo {
    /// The tiles of a stream come row by row, in each row from left to right, and at each
    /// place depth by depth; each is as high and as wide as the header says, but for those
    /// at the bottom and at the right, which end where the raster ends.  The tile of a pixel
    /// starts at the multiples of the size of a tile at or before it.
    #[verifier::rlimit(30)]
    pub proof fn law_tiles_come_in_order(&self, i: int, j: int, depth: int)
        requires
            self.wf(),
            0 <= i < self.n_rows,
            0 <= j < self.n_cols,
            0 <= depth < self.n_depth,
        ensures
            ({
                let mb = self.micro_block_size as int;
                let vert = (self.n_rows + mb - 1) / mb;
                let hori = (self.n_cols + mb - 1) / mb;
                let n = (i / mb * hori + j / mb) * self.n_depth + depth;
                &&& self.num_tiles() == vert * hori * self.n_depth
                &&& 0 <= n < vert * hori * self.n_depth
                &&& self.tile(n) == (Place {
                    i0: i / mb * mb,
                    i1: if i / mb * mb + mb <= self.n_rows {
                        i / mb * mb + mb
                    } else {
                        self.n_rows as int
                    },
                    j0: j / mb * mb,
                    j1: if j / mb * mb + mb <= self.n_cols {
                        j / mb * mb + mb
                    } else {
                        self.n_cols as int
                    },
                    depth,
                })
                &&& self.tile(n).i0 <= i < self.tile(n).i1
                &&& self.tile(n).j0 <= j < self.tile(n).j1
                &&& self.tile_of(i * self.n_cols + j, depth) == n
            }),
    {
        let mb = self.micro_block_size as int;
        let w = self.n_cols as int;
        let k = i * w + j;
        self.lemma_grid_line(self.n_rows as int, 0);
        self.lemma_grid_line(w, 0);
        self.lemma_line_tile(self.n_rows as int, i, 0);
        self.lemma_line_tile(w, j, 0);
        self.lemma_line_tile(self.n_rows as int, i, i / mb);
        self.lemma_line_tile(w, j, j / mb);
        self.lemma_tile_number(i / mb, j / mb, depth);
        lemma_fundamental_div_mod_converse(k, w, i, j);
    }
}

impl Decoding {
    /// Tiles that are there one after the other are read one after the other.
    #[verifier::rlimit(30)]
    proof fn lemma_tiles_in_order(
        self,
        buf: Seq<u8>,
        ends: Seq<int>,
        out: Seq<u8>,
        order: ByteOrder,
        n: nat,
    )
        requires
            self.hd.wf(),
            self.hd.raster_len() <= out.len(),
            ends.len() > n,
            n <= self.hd.num_tiles(),
            forall|m: int, o: Seq<u8>|
                0 <= m < n && o.len() == out.len() ==> (#[trigger] self.tile_from(
                    buf,
                    ends[m],
                    o,
                    self.hd.tile(m),
                    order,
                )).result is Ok && self.tile_from(buf, ends[m], o, self.hd.tile(m), order).pos
                    == ends[m + 1],
        ensures
            self.tiles_from(buf, ends[0], out, order, n).result is Ok,
            self.tiles_from(buf, ends[0], out, order, n).pos == ends[n as int],
            self.tiles_from(buf, ends[0], out, order, n).out.len() == out.len(),
        decreases n,
    {
        if n > 0 {
            let before = self.tiles_from(buf, ends[0], out, order, (n - 1) as nat);
            self.lemma_tiles_in_order(buf, ends, out, order, (n - 1) as nat);
            self.hd.law_tiles_lie_within(n - 1);
            self.law_tile_stays_in_its_place(
                buf,
                before.pos,
                before.out,
                self.hd.tile(n - 1),
                order,
            );
            assert(self.tile_from(buf, ends[n - 1], before.out, self.hd.tile(n - 1), order).result
                is Ok);
        }
    }

    /// Tiles are read one after the other, each where the one before it ends, and each
    /// pixel becomes at each depth what its tile makes of it: the tile finds it as it was at
    /// the start, and at the depth before it finds what the raster holds there in the end.
    #[verifier::rlimit(30)]
    pub proof fn law_tiles_are_read_one_after_the_other(
        self,
        buf: Seq<u8>,
        ends: Seq<int>,
        out: Seq<u8>,
        order: ByteOrder,
        i: int,
        j: int,
        depth: int,
    )
        requires
            self.hd.wf(),
            self.hd.raster_len() <= out.len(),
            ends.len() == self.hd.num_tiles() + 1,
            forall|m: int, o: Seq<u8>|
                0 <= m < self.hd.num_tiles() && o.len() == out.len() ==> (#[trigger] self.tile_from(
                    buf,
                    ends[m],
                    o,
                    self.hd.tile(m),
                    order,
                )).result is Ok && self.tile_from(buf, ends[m], o, self.hd.tile(m), order).pos
                    == ends[m + 1],
            0 <= i < self.hd.n_rows,
            0 <= j < self.hd.n_cols,
            0 <= depth < self.hd.n_depth,
        ensures
            ({
                let mb = self.hd.micro_block_size as int;
                let hori = (self.hd.n_cols + mb - 1) / mb;
                let own = (i / mb * hori + j / mb) * self.hd.n_depth + depth;
                let k = i * self.hd.n_cols + j;
                let layout = self.layout(order);
                let after = self.tiles_from(
                    buf,
                    ends[0],
                    out,
                    order,
                    self.hd.num_tiles() as nat,
                );
                &&& after.result is Ok
                &&& after.pos == ends.last()
                &&& after.out.len() == out.len()
                &&& exists|o: Seq<u8>|
                    {
                        &&& o.len() == out.len()
                        &&& layout.cell(o, k, depth) == layout.cell(out, k, depth)
                        &&& depth > 0 ==> layout.cell(o, k, depth - 1) == layout.cell(
                            after.out,
                            k,
                            depth - 1,
                        )
                        &&& layout.cell(after.out, k, depth) == layout.cell(
                            (#[trigger] self.tile_from(
                                buf,
                                ends[own],
                                o,
                                self.hd.tile(own),
                                order,
                            )).out,
                            k,
                            depth,
                        )
                    }
            }),
    {
        let all = self.hd.num_tiles() as nat;
        let k = i * self.hd.n_cols + j;
        self.hd.law_tiles_come_in_order(i, j, depth);
        let own = self.hd.tile_of(k, depth);
        assert(0 <= k < self.hd.num_pixels()) by (nonlinear_arith)
            requires
                k == i * self.hd.n_cols + j,
                0 <= i,
                i + 1 <= self.hd.n_rows,
                0 <= j < self.hd.n_cols,
                self.hd.num_pixels() == self.hd.n_rows * self.hd.n_cols,
        ;
        self.lemma_tiles_in_order(buf, ends, out, order, own as nat);
        self.lemma_tiles_in_order(buf, ends, out, order, all);
        self.law_each_pixel_comes_from_its_tile(buf, ends[0], out, order, k, depth);
        let before = self.tiles_from(buf, ends[0], out, order, own as nat);
        if depth > 0 {
            self.hd.law_tiles_come_in_order(i, j, depth - 1);
            self.lemma_tiles_frame(buf, ends[0], out, order, own as nat, k, depth - 1);
            self.lemma_tiles_frame(buf, ends[0], out, order, all, k, depth - 1);
        }
        assert(self.tile_from(buf, ends[own], before.out, self.hd.tile(own), order).result is Ok);
    }

    /// Tiles are read up to the first one that is refused: what is wrong with it is what is
    /// wrong with the raster, whatever follows.
    pub proof fn law_first_broken_tile_is_reported(
        self,
        buf: Seq<u8>,
        ends: Seq<int>,
        out: Seq<u8>,
        order: ByteOrder,
        fault: Fault,
    )
        requires
            self.hd.wf(),
            self.hd.raster_len() <= out.len(),
            1 <= ends.len() <= self.hd.num_tiles(),
            forall|m: int, o: Seq<u8>|
                0 <= m < ends.len() - 1 && o.len() == out.len() ==> (#[trigger] self.tile_from(
                    buf,
                    ends[m],
                    o,
                    self.hd.tile(m),
                    order,
                )).result is Ok && self.tile_from(buf, ends[m], o, self.hd.tile(m), order).pos
                    == ends[m + 1],
            forall|o: Seq<u8>|
                o.len() == out.len() ==> (#[trigger] self.tile_from(
                    buf,
                    ends.last(),
                    o,
                    self.hd.tile(ends.len() - 1),
                    order,
                )).result == Err::<(), Fault>(fault),
        ensures
            self.tiles_from(buf, ends[0], out, order, self.hd.num_tiles() as nat).result == Err::<
                (),
                Fault,
            >(fault),
    {
        let n = (ends.len() - 1) as nat;
        self.lemma_tiles_in_order(buf, ends, out, order, n);
        let before = self.tiles_from(buf, ends[0], out, order, n);
        assert(self.tile_from(buf, ends.last(), before.out, self.hd.tile(n as int), order).result
            == Err::<(), Fault>(fault));
        assert(self.tiles_from(buf, ends[0], out, order, n + 1).result == Err::<(), Fault>(fault));
        self.lemma_tiles_stop(
            buf,
            ends[0],
            out,
            order,
            n + 1,
            self.hd.num_tiles() as nat,
        );
    }
}

impl Lerc2Decoder {
    /// Reads all tiles into a raster (see `tiles_from`).
    pub fn read_tiles(
        &self,
        r: &mut ByteReader,
        out: &mut [u8],
        order: ByteOrder,
    ) -> (res: Result<(), LercError>)
        requires
            self@.wf(),
            self@.has_ranges(),
            self.hd.has_tile_grid(),
            old(r).wf(),
            self.hd.raster_len() <= old(out)@.len(),
        ensures
            ({
                let after = self@.tiles_from(
                    old(r).buf@,
                    old(r).pos as int,
                    old(out)@,
                    order,
                    self.hd.num_tiles() as nat,
                );
                &&& error::viewed(res) == after.result
                &&& final(r).wf()
                &&& final(r).buf == old(r).buf
                &&& final(r).pos == after.pos
                &&& final(out)@ == after.out
                &&& final(out)@.len() == old(out)@.len()
            }),
    {
        let hd = &self.hd;
        let mb: i32 = hd.micro_block_size;
        let vert: i32 = (hd.n_rows - 1 + mb) / mb;
        let hori: i32 = (hd.n_cols - 1 + mb) / mb;
        let ghost nd = hd.n_depth as int;
        let ghost mut n: nat = 0;
        let ghost all = hd.num_tiles() as nat;
        let ghost pos = r.pos as int;
        proof {
            hd.lemma_grid_line(hd.n_rows as int, 0);
            hd.lemma_grid_line(hd.n_cols as int, 0);
            lemma_mul_basics(hori as int);
            lemma_mul_basics(nd);
        }
        let mut i: i32 = 0;
        while i < vert
            invariant
                self@.wf(),
                self@.has_ranges(),
                hd == &self.hd,
                mb == hd.micro_block_size,
                vert == hd.tiles_along(hd.n_rows as int),
                hori == hd.tiles_along(hd.n_cols as int),
                nd == hd.n_depth,
                all == hd.num_tiles(),
                pos == old(r).pos,
                r.wf(),
                r.buf == old(r).buf,
                hd.raster_len() <= out@.len() == old(out)@.len(),
                0 <= i <= vert,
                0 < hori,
                n == i * hori * nd,
                self@.tiles_from(r.buf@, pos, old(out)@, order, n) == (Progress {
                    result: Ok(()),
                    pos: r.pos as int,
                    out: out@,
                }),
            decreases vert - i,
        {
            proof {
                hd.lemma_grid_line(hd.n_rows as int, i as int);
            }
            let i0: i32 = i * mb;
            let i1: i32 = if i == vert - 1 {
                hd.n_rows
            } else {
                i0 + mb
            };
            let mut j: i32 = 0;
            proof {
                assert((i * hori + 0) * nd == i * hori * nd) by (nonlinear_arith);
            }
            while j < hori
                invariant
                    self@.wf(),
                    self@.has_ranges(),
                    hd == &self.hd,
                    mb == hd.micro_block_size,
                    vert == hd.tiles_along(hd.n_rows as int),
                    hori == hd.tiles_along(hd.n_cols as int),
                    nd == hd.n_depth,
                    all == hd.num_tiles(),
                    pos == old(r).pos,
                    r.wf(),
                    r.buf == old(r).buf,
                    hd.raster_len() <= out@.len() == old(out)@.len(),
                    0 <= i < vert,
                    i0 == i * mb,
                    0 <= i0 <= i1,
                    i1 == min(i * mb + mb, hd.n_rows as int),
                    0 <= j <= hori,
                    n == (i * hori + j) * nd,
                    self@.tiles_from(r.buf@, pos, old(out)@, order, n) == (Progress {
                        result: Ok(()),
                        pos: r.pos as int,
                        out: out@,
                    }),
                decreases hori - j,
            {
                proof {
                    hd.lemma_grid_line(hd.n_cols as int, j as int);
                }
                let j0: i32 = j * mb;
                let j1: i32 = if j == hori - 1 {
                    hd.n_cols
                } else {
                    j0 + mb
                };
                let mut depth: i32 = 0;
                while depth < hd.n_depth
                    invariant
                        self@.wf(),
                        self@.has_ranges(),
                        hd == &self.hd,
                        mb == hd.micro_block_size,
                        vert == hd.tiles_along(hd.n_rows as int),
                        hori == hd.tiles_along(hd.n_cols as int),
                        nd == hd.n_depth,
                        all == hd.num_tiles(),
                        pos == old(r).pos,
                        r.wf(),
                        r.buf == old(r).buf,
                        hd.raster_len() <= out@.len() == old(out)@.len(),
                        0 <= i < vert,
                        i0 == i * mb,
                        0 <= i0 <= i1,
                        i1 == min(i * mb + mb, hd.n_rows as int),
                        0 <= j < hori,
                        j0 == j * mb,
                        0 <= j0 <= j1,
                        j1 == min(j * mb + mb, hd.n_cols as int),
                        0 <= depth <= hd.n_depth,
                        n == (i * hori + j) * nd + depth,
                        self@.tiles_from(r.buf@, pos, old(out)@, order, n) == (Progress {
                            result: Ok(()),
                            pos: r.pos as int,
                            out: out@,
                        }),
                    decreases hd.n_depth - depth,
                {
                    proof {
                        hd.lemma_tile_number(i as int, j as int, depth as int);
                        assert((i1 - i0) * (j1 - j0) <= 32 * 32) by (nonlinear_arith)
                            requires
                                0 <= i1 - i0 <= 32,
                                0 <= j1 - j0 <= 32,
                        ;
                    }
                    let res: Result<(), LercError> = self.read_tile(
                        r,
                        out,
                        i0,
                        i1,
                        j0,
                        j1,
                        depth,
                        order,
                    );
                    proof {
                        n = n + 1;
                        if res is Err {
                            self@.lemma_tiles_stop(r.buf@, pos, old(out)@, order, n, all);
                        }
                    }
                    if res.is_err() {
                        return res;
                    }
                    depth = depth + 1;
                }
                proof {
                    assert((i * hori + j) * nd + nd == (i * hori + (j + 1)) * nd)
                        by (nonlinear_arith);
                }
                j = j + 1;
            }
            proof {
                assert((i * hori + hori) * nd == (i + 1) * hori * nd) by (nonlinear_arith);
            }
            i = i + 1;
        }
        Ok(())
    }
}

} // verus!
