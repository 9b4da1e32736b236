//! The header of a LERC2 stream.
use vstd::prelude::*;

use crate::binary64::Binary64;
use crate::data_type::DataType;
use crate::decoder::Lerc2Decoder;
use crate::error;
use crate::error::{lerc_err, Fault, LercError};
use crate::reader;
use crate::reader::ByteReader;

verus! {

/// The newest version of the format that is decoded; the oldest one is 1.
pub const LERC2_CURRENT_VERSION: i32 = 6;

/// The fields of a header that the decoder needs.
#[derive(Clone, Copy, Debug)]
pub struct HeaderInfo {
    pub version: i32,
    pub n_rows: i32,
    pub n_cols: i32,
    pub n_depth: i32,
    pub num_valid_pixel: i32,
    pub micro_block_size: i32,
    pub blob_size: i32,
    pub dt: DataType,
    pub max_z_error: Binary64,
    pub z_min: Binary64,
    pub z_max: Binary64,
}

/// The bytes `Lerc2 ` that a LERC2 stream starts with.
pub open spec fn lerc2_magic() -> Seq<u8> {
    seq![0x4c, 0x65, 0x72, 0x63, 0x32, 0x20]
}

/// The bytes `CntZImage` that a LERC1 stream starts with.
pub open spec fn lerc1_magic() -> Seq<u8> {
    seq![0x43, 0x6e, 0x74, 0x5a, 0x49, 0x6d, 0x61, 0x67, 0x65]
}

/// The number of bytes of the checksum of a header.
pub open spec fn checksum_len(version: int) -> int {
    if version >= 3 {
        4
    } else {
        0
    }
}

/// The number of bytes of the depth field of a header.
pub open spec fn depth_len(version: int) -> int {
    if version >= 4 {
        4
    } else {
        0
    }
}

/// The number of bytes between the data type and the largest error.
pub open spec fn flags_len(version: int) -> int {
    if version >= 6 {
        8
    } else {
        0
    }
}

/// The number of bytes of a header.
pub open spec fn header_len(version: int) -> int {
    58 + checksum_len(version) + depth_len(version) + flags_len(version) + if version >= 6 {
        16int
    } else {
        0
    }
}

impl HeaderInfo {
    /// The number of pixels.
    pub open spec fn num_pixels(&self) -> int {
        self.n_rows * self.n_cols
    }

    /// Rows, columns, depth and block size are those of a raster.
    pub open spec fn has_dimensions(&self) -> bool {
        &&& self.n_rows > 0
        &&& self.n_cols > 0
        &&& self.n_depth > 0
        &&& self.num_valid_pixel >= 0
        &&& 0 < self.micro_block_size <= 32
        &&& self.blob_size > 0
    }

    /// The pixels can be counted, and the valid ones are not more than there are.
    pub open spec fn has_pixel_count(&self) -> bool {
        self.num_pixels() <= i32::MAX && self.num_valid_pixel <= self.num_pixels()
    }

    /// What holds of every header that `read_header` accepts.
    pub open spec fn wf(&self) -> bool {
        &&& 1 <= self.version <= LERC2_CURRENT_VERSION
        &&& self.has_dimensions()
        &&& self.has_pixel_count()
    }

    /// The number of bytes of the raster.
    pub open spec fn raster_len(&self) -> int {
        self.num_pixels() * self.n_depth * self.dt.size_spec()
    }
}

/// The fields that stand in a header at `pos`.
pub open spec fn fields_at(buf: Seq<u8>, pos: int, version: int, dt: DataType) -> HeaderInfo {
    let size = pos + 10 + checksum_len(version);
    let rest = size + 8 + depth_len(version);
    let numbers = rest + 16 + flags_len(version);
    HeaderInfo {
        version: version as i32,
        n_rows: reader::int_at(buf, size) as i32,
        n_cols: reader::int_at(buf, size + 4) as i32,
        n_depth: if version >= 4 {
            reader::int_at(buf, size + 8) as i32
        } else {
            1
        },
        num_valid_pixel: reader::int_at(buf, rest) as i32,
        micro_block_size: reader::int_at(buf, rest + 4) as i32,
        blob_size: reader::int_at(buf, rest + 8) as i32,
        dt,
        max_z_error: reader::double_at(buf, numbers),
        z_min: reader::double_at(buf, numbers + 8),
        z_max: reader::double_at(buf, numbers + 16),
    }
}

/// The code of the data type that stands in a header at `pos`.
pub open spec fn type_code_at(buf: Seq<u8>, pos: int, version: int) -> int {
    reader::int_at(buf, pos + 30 + checksum_len(version) + depth_len(version))
}

/// What reading a header at `pos` gives.
pub open spec fn header_at(buf: Seq<u8>, pos: int) -> Result<HeaderInfo, Fault> {
    let version = reader::int_at(buf, pos + 6);
    if !reader::available(buf, pos, 6) {
        Err(reader::end_of_blob())
    } else if buf.subrange(pos, pos + 6) != lerc2_magic() {
        Err(Fault::InvalidData("not a LERC2 blob"@))
    } else if !reader::available(buf, pos, 10) {
        Err(reader::end_of_blob())
    } else if version < 1 || version > LERC2_CURRENT_VERSION {
        Err(Fault::InvalidData("unsupported LERC2 version"@))
    } else if !reader::available(buf, pos, header_len(version)) {
        Err(reader::end_of_blob())
    } else {
        match DataType::of_code(type_code_at(buf, pos, version)) {
            None => Err(Fault::InvalidData("bad LERC2 data type"@)),
            Some(dt) => {
                let hd = fields_at(buf, pos, version, dt);
                if !hd.has_dimensions() {
                    Err(Fault::InvalidData("invalid LERC2 header dimensions"@))
                } else if !hd.has_pixel_count() {
                    Err(Fault::InvalidData("invalid LERC2 pixel count"@))
                } else {
                    Ok(hd)
                }
            },
        }
    }
}

/// The number of bytes of the fields of a header that `left` bytes hold whole.
pub open spec fn whole_fields_len(version: int, left: int) -> int {
    let size = 10 + checksum_len(version);
    let rest = size + 8 + depth_len(version);
    let numbers = rest + 16 + flags_len(version);
    if version >= 6 && left >= numbers + 40 {
        numbers + 40
    } else if version >= 6 && left >= numbers + 32 {
        numbers + 32
    } else if left >= numbers + 24 {
        numbers + 24
    } else if left >= numbers + 16 {
        numbers + 16
    } else if left >= numbers + 8 {
        numbers + 8
    } else if left >= numbers {
        numbers
    } else if version >= 6 && left >= rest + 20 {
        rest + 20
    } else if left >= rest + 16 {
        rest + 16
    } else if left >= rest + 12 {
        rest + 12
    } else if left >= rest + 8 {
        rest + 8
    } else if left >= rest + 4 {
        rest + 4
    } else if left >= rest {
        rest
    } else if left >= size + 8 {
        size + 8
    } else if left >= size + 4 {
        size + 4
    } else if left >= size {
        size
    } else {
        10
    }
}

/// Where reading a header at `pos` stops: after the last field that the blob holds
/// whole, and not later than after a field that is not one of a LERC2 stream.
pub open spec fn header_end(buf: Seq<u8>, pos: int) -> int {
    let version = reader::int_at(buf, pos + 6);
    if !reader::available(buf, pos, 6) {
        pos
    } else if buf.subrange(pos, pos + 6) != lerc2_magic() || !reader::available(buf, pos, 10) {
        pos + 6
    } else if version < 1 || version > LERC2_CURRENT_VERSION {
        pos + 10
    } else {
        pos + whole_fields_len(version, buf.len() - pos)
    }
}

/// Whether `s` starts with `prefix`.
pub fn starts_with(s: &[u8], prefix: &[u8]) -> (r: bool)
    ensures
        r == (prefix@.len() <= s@.len() && s@.take(prefix@.len() as int) == prefix@),
{
    if s.len() < prefix.len() {
        return false;
    }
    let mut i: usize = 0;
    while i < prefix.len()
        invariant
            i <= prefix@.len() <= s@.len(),
            forall|j: int| 0 <= j < i ==> s@[j] == #[trigger] prefix@[j],
        decreases prefix@.len() - i,
    {
        if s[i] != prefix[i] {
            assert(s@.take(prefix@.len() as int)[i as int] != prefix@[i as int]);
            return false;
        }
        i = i + 1;
    }
    assert(s@.take(prefix@.len() as int) =~= prefix@);
    true
}

impl Lerc2Decoder {
    /// Reads a header (see `header_at` and `header_end`).
    #[verifier::rlimit(60)]
    pub fn read_header(r: &mut ByteReader) -> (res: Result<HeaderInfo, LercError>)
        requires
            old(r).wf(),
        ensures
            error::viewed(res) == header_at(old(r).buf@, old(r).pos as int),
            res matches Ok(hd) ==> hd.wf() && final(r).pos == old(r).pos + header_len(
                hd.version as int,
            ),
            final(r).pos == header_end(old(r).buf@, old(r).pos as int),
            final(r).wf(),
            final(r).buf == old(r).buf,
    {
        let key: &[u8] = r.read_bytes(6)?;
        let magic: [u8; 6] = [0x4c, 0x65, 0x72, 0x63, 0x32, 0x20];
        assert(magic@ =~= lerc2_magic());
        assert(key@.take(6) =~= key@);
        if !starts_with(key, &magic) {
            return Err(lerc_err("not a LERC2 blob"));
        }
        let version: i32 = r.read_i32()?;
        if version < 1 || version > LERC2_CURRENT_VERSION {
            return Err(lerc_err("unsupported LERC2 version"));
        }
        if version >= 3 {
            // The checksum is not verified: the length of the blob is known already.
            let _checksum: u32 = r.read_u32()?;
        }
        let n_rows: i32 = r.read_i32()?;
        let n_cols: i32 = r.read_i32()?;
        let n_depth: i32 = if version >= 4 {
            r.read_i32()?
        } else {
            1
        };
        let num_valid_pixel: i32 = r.read_i32()?;
        let micro_block_size: i32 = r.read_i32()?;
        let blob_size: i32 = r.read_i32()?;
        let dt_raw: i32 = r.read_i32()?;
        if version >= 6 {
            let _n_blobs_more: i32 = r.read_i32()?;
            let _flags: &[u8] = r.read_bytes(4)?;
        }
        let max_z_error: Binary64 = r.read_f64()?;
        let z_min: Binary64 = r.read_f64()?;
        let z_max: Binary64 = r.read_f64()?;
        if version >= 6 {
            let _no_data_val: Binary64 = r.read_f64()?;
            let _no_data_val_orig: Binary64 = r.read_f64()?;
        }
        let dt: DataType = match DataType::from_i32(dt_raw) {
            Some(dt) => dt,
            None => {
                return Err(lerc_err("bad LERC2 data type"));
            },
        };
        let hd = HeaderInfo {
            version,
            n_rows,
            n_cols,
            n_depth,
            num_valid_pixel,
            micro_block_size,
            blob_size,
            dt,
            max_z_error,
            z_min,
            z_max,
        };
        assert(hd == fields_at(old(r).buf@, old(r).pos as int, version as int, dt));
        if n_rows <= 0 || n_cols <= 0 || n_depth <= 0 || num_valid_pixel < 0 || micro_block_size
            <= 0 || micro_block_size > 32 || blob_size <= 0 {
            return Err(lerc_err("invalid LERC2 header dimensions"));
        }
        proof {
            assert(n_rows * n_cols <= 0x7fff_ffff * 0x7fff_ffff) by (nonlinear_arith)
                requires
                    0 <= n_rows <= 0x7fff_ffff,
                    0 <= n_cols <= 0x7fff_ffff,
            ;
            assert(n_rows * n_cols >= 0) by (nonlinear_arith)
                requires
                    0 <= n_rows,
                    0 <= n_cols,
            ;
        }
        let num_pixel: i64 = n_rows as i64 * n_cols as i64;
        if num_pixel > 0x7fff_ffff || num_valid_pixel as i64 > num_pixel {
            return Err(lerc_err("invalid LERC2 pixel count"));
        }
        Ok(hd)
    }
}

} // verus!
