//! The decoder of a LERC2 stream.
use vstd::arithmetic::div_mod::*;
use vstd::arithmetic::mul::*;
use vstd::prelude::*;

use crate::binary64::Binary64;
use crate::bytes::ByteOrder;
use crate::data_type::DataType;
use crate::error;
use crate::error::{lerc_err, Fault, LercError};
use crate::header::HeaderInfo;
use crate::mask;
use crate::mask::{BitMask, Validity};
use crate::raster::Layout;
use crate::reader;
use crate::reader::ByteReader;

verus! {

/// The header of a stream, its mask, and the least and greatest numbers of each
/// depth.
#[derive(Debug)]
pub struct Lerc2Decoder {
    pub hd: HeaderInfo,
    pub mask: BitMask,
    pub z_min_vec: Vec<Binary64>,
    pub z_max_vec: Vec<Binary64>,
}

/// What contracts say about a `Lerc2Decoder`.
pub struct Decoding {
    pub hd: HeaderInfo,
    pub mask: Validity,
    pub z_min: Seq<Binary64>,
    pub z_max: Seq<Binary64>,
}

impl View for Lerc2Decoder {
    type V = Decoding;

    open spec fn view(&self) -> Decoding {
        Decoding {
            hd: self.hd,
            mask: self.mask@,
            z_min: self.z_min_vec@,
            z_max: self.z_max_vec@,
        }
    }
}

impl Decoding {
    /// The header is one of a raster, and the mask is one of its pixels.
    pub open spec fn wf(self) -> bool {
        self.hd.wf() && self.mask.covers(self.hd.num_pixels())
    }

    /// The greatest number of each depth is known, where tiles depend on it.
    pub open spec fn has_ranges(self) -> bool {
        self.hd.version >= 4 && self.hd.n_depth > 1 ==> self.z_max.len() >= self.hd.n_depth
    }

    /// The least and the greatest number are equal at every depth.
    pub open spec fn is_flat(self) -> bool {
        &&& self.z_min.len() == self.z_max.len()
        &&& forall|d: int|
            0 <= d < self.z_min.len() ==> (#[trigger] self.z_min[d]).equals_spec(
                self.z_max[d],
            )
    }

    /// What the elements of the raster are.
    pub open spec fn layout(self, order: ByteOrder) -> Layout {
        Layout { n_depth: self.hd.n_depth, dt: self.hd.dt, order }
    }
}

impl Lerc2Decoder {
    /// Reads the mask (see `mask_at`), which takes the place of the one before.
    pub fn read_mask(&mut self, r: &mut ByteReader) -> (res: Result<(), LercError>)
        requires
            old(self).hd.wf(),
            old(r).wf(),
        ensures
            ({
                let (read, end) = mask_at(old(self).hd, old(r).buf@, old(r).pos as int);
                &&& final(r).wf()
                &&& final(r).buf == old(r).buf
                &&& final(r).pos == end
                &&& match read {
                    Ok(mask) => {
                        &&& res is Ok
                        &&& final(self)@ == (Decoding { mask, ..old(self)@ })
                        &&& final(self)@.wf()
                    },
                    Err(fault) => {
                        &&& error::viewed(res) == Err::<(), Fault>(fault)
                        &&& *final(self) == *old(self)
                    },
                }
            }),
    {
        let num_valid: i32 = self.hd.num_valid_pixel;
        proof {
            assert(self.hd.n_cols * self.hd.n_rows == self.hd.n_rows * self.hd.n_cols)
                by (nonlinear_arith);
            assert(self.hd.n_rows * self.hd.n_cols >= 0) by (nonlinear_arith)
                requires
                    self.hd.n_rows >= 0,
                    self.hd.n_cols >= 0,
            ;
        }
        let num_total: i32 = self.hd.n_cols * self.hd.n_rows;
        let num_bytes: i32 = r.read_i32()?;
        if num_bytes < 0 {
            return Err(lerc_err("negative mask byte count"));
        }
        if (num_valid == 0 || num_valid == num_total) && num_bytes != 0 {
            return Err(lerc_err("mask stored for all/none-valid tile"));
        }
        let mask_size: usize = ((num_total as i64 + 7) / 8) as usize;
        if num_valid == 0 {
            let bits: Vec<u8> = vec![0u8; mask_size];
            assert(bits@ =~= no_bits(num_total as int));
            self.mask = BitMask { bits, all_valid: false };
        } else if num_valid == num_total {
            self.mask = BitMask::all_valid();
        } else if num_bytes > 0 {
            let rle: &[u8] = r.read_bytes(num_bytes as usize)?;
            let mut bits: Vec<u8> = vec![0u8; mask_size];
            assert(bits@ =~= no_bits(num_total as int));
            let decoded: Result<(), LercError> = mask::rle_decompress(rle, &mut bits);
            proof {
                mask::lemma_rle_len(rle@, 0, no_bits(num_total as int), 0);
            }
            decoded?;
            self.mask = BitMask { bits, all_valid: false };
        } else {
            return Err(lerc_err("missing LERC2 mask"));
        }
        Ok(())
    }

    /// Reads the least number of each depth, then the greatest number of each depth.
    ///
    /// Where the stream ends too early, the samples before its end are read, and the
    /// numbers of which there are too few are left as they were.
    pub fn read_min_max_ranges(&mut self, r: &mut ByteReader) -> (res: Result<(), LercError>)
        requires
            old(self).hd.wf(),
            old(r).wf(),
        ensures
            ({
                let hd = old(self).hd;
                let n = hd.n_depth as nat;
                let size = hd.dt.size_spec() as int;
                let buf = old(r).buf@;
                let pos = old(r).pos as int;
                let stored = (buf.len() - pos) / size;
                let read = if stored >= 2 * n {
                    2 * n as int
                } else {
                    stored
                };
                &&& error::viewed(res) == if stored >= 2 * n {
                    Ok(())
                } else {
                    Err(reader::end_of_blob())
                }
                &&& final(self).z_min_vec@ == if stored >= n {
                    samples_at(buf, pos, hd.dt, n)
                } else {
                    old(self).z_min_vec@
                }
                &&& final(self).z_max_vec@ == if stored >= 2 * n {
                    samples_at(buf, pos + n * size, hd.dt, n)
                } else {
                    old(self).z_max_vec@
                }
                &&& final(r).wf()
                &&& final(r).buf == old(r).buf
                &&& final(r).pos == pos + read * size
            }),
            final(self).hd == old(self).hd,
            final(self).mask == old(self).mask,
    {
        let n: usize = self.hd.n_depth as usize;
        let dt: DataType = self.hd.dt;
        let ghost size = dt.size_spec() as int;
        let ghost left = r.buf@.len() - r.pos;
        self.z_min_vec = read_samples(r, dt, n)?;
        proof {
            // The samples of the first half are left out of the count of the second.
            assert(left - n * size == left + (-(n as int)) * size) by (nonlinear_arith);
            lemma_hoist_over_denominator(left, -(n as int), size as nat);
            assert((-(n as int)) * size == size * (-(n as int))) by (nonlinear_arith);
            assert(n * size + n * size == (2 * n) * size) by (nonlinear_arith);
            assert(n * size + (left / size - n) * size == (left / size) * size)
                by (nonlinear_arith);
        }
        self.z_max_vec = read_samples(r, dt, n)?;
        Ok(())
    }

    /// Whether the least and the greatest number are equal at every depth.
    pub fn check_min_max_equal(&self) -> (equal: bool)
        ensures
            equal == self@.is_flat(),
    {
        if self.z_min_vec.len() != self.z_max_vec.len() {
            return false;
        }
        let mut i: usize = 0;
        while i < self.z_min_vec.len()
            invariant
                i <= self.z_min_vec@.len() == self.z_max_vec@.len(),
                forall|d: int|
                    0 <= d < i ==> (#[trigger] self.z_min_vec@[d]).equals_spec(self.z_max_vec@[d]),
            decreases self.z_min_vec@.len() - i,
        {
            if !self.z_min_vec[i].equals(self.z_max_vec[i]) {
                return false;
            }
            i = i + 1;
        }
        true
    }
}

/// The bytes of a mask of `n` pixels none of which is valid.
pub open spec fn no_bits(n: int) -> Seq<u8> {
    Seq::new(((n + 7) / 8) as nat, |i: int| 0u8)
}

/// What reading a mask at `pos` gives, and where it ends.
///
/// The mask starts with the number of its bytes, which are run-length coded.  There
/// are none where all pixels are valid or none is.
pub open spec fn mask_at(hd: HeaderInfo, buf: Seq<u8>, pos: int) -> (
    Result<Validity, Fault>,
    int,
) {
    let n = reader::int_at(buf, pos);
    let total = hd.num_pixels();
    let none = hd.num_valid_pixel == 0;
    let all = hd.num_valid_pixel == total;
    if !reader::available(buf, pos, 4) {
        (Err(reader::end_of_blob()), pos)
    } else if n < 0 {
        (Err(Fault::InvalidData("negative mask byte count"@)), pos + 4)
    } else if (none || all) && n != 0 {
        (Err(Fault::InvalidData("mask stored for all/none-valid tile"@)), pos + 4)
    } else if none {
        (Ok(Validity::Bits(no_bits(total))), pos + 4)
    } else if all {
        (Ok(Validity::All), pos + 4)
    } else if n == 0 {
        (Err(Fault::InvalidData("missing LERC2 mask"@)), pos + 4)
    } else if !reader::available(buf, pos + 4, n) {
        (Err(reader::end_of_blob()), pos + 4)
    } else {
        let (result, bits) = mask::rle_from(
            buf.subrange(pos + 4, pos + 4 + n),
            0,
            no_bits(total),
            0,
        );
        match result {
            Ok(_) => (Ok(Validity::Bits(bits)), pos + 4 + n),
            Err(fault) => (Err(fault), pos + 4 + n),
        }
    }
}

/// The `n` samples of type `dt` that stand one after the other from `pos` on.
pub open spec fn samples_at(buf: Seq<u8>, pos: int, dt: DataType, n: nat) -> Seq<Binary64> {
    Seq::new(n, |i: int| reader::sample_at(buf, pos + i * dt.size_spec(), dt))
}

/// Reads `n` samples of type `dt`.
fn read_samples(r: &mut ByteReader, dt: DataType, n: usize) -> (res: Result<
    Vec<Binary64>,
    LercError,
>)
    requires
        old(r).wf(),
    ensures
        ({
            let size = dt.size_spec() as int;
            let stored = (old(r).buf@.len() - old(r).pos) / size;
            let read = if stored >= n {
                n as int
            } else {
                stored
            };
            &&& res is Ok <==> stored >= n
            &&& res matches Ok(v) ==> v@ == samples_at(
                old(r).buf@,
                old(r).pos as int,
                dt,
                n as nat,
            )
            &&& res matches Err(e) ==> e@ == reader::end_of_blob()
            &&& final(r).wf()
            &&& final(r).buf == old(r).buf
            &&& final(r).pos == old(r).pos + read * size
        }),
{
    let ghost size = dt.size_spec() as int;
    let ghost left = r.buf@.len() - r.pos;
    let ghost stored = left / size;
    proof {
        lemma_fundamental_div_mod(left, size);
        lemma_mod_bound(left, size);
        lemma_mul_basics(size);
        assert(size * stored == stored * size) by (nonlinear_arith);
    }
    let mut v: Vec<Binary64> = Vec::new();
    let mut i: usize = 0;
    while i < n
        invariant
            i <= n,
            r.wf(),
            r.buf == old(r).buf,
            size == dt.size_spec(),
            1 <= size,
            left == r.buf@.len() - old(r).pos,
            stored == left / size,
            stored * size <= left < stored * size + size,
            i <= stored,
            r.pos == old(r).pos + i * size,
            v@ == samples_at(r.buf@, old(r).pos as int, dt, i as nat),
        decreases n - i,
    {
        proof {
            assert((i + 1) * size == i * size + size) by (nonlinear_arith);
            if i < stored {
                assert((i + 1) * size <= stored * size) by (nonlinear_arith)
                    requires
                        i + 1 <= stored,
                        size >= 0,
                ;
            }
        }
        let z: Binary64 = r.read_variable(dt)?;
        assert(i < stored);
        v.push(z);
        i = i + 1;
        assert(v@ =~= samples_at(r.buf@, old(r).pos as int, dt, i as nat));
    }
    Ok(v)
}

} // verus!
