//! The parts that a stream is made of.
use lerc::binary64::Binary64;
use lerc::bit_stuffer::{bit_stuffer2_decode, bit_unstuff, decode_uint, num_tail_bytes_not_needed};
use lerc::bytes::{copy_to, get_word, order_of_word, put_word, ByteOrder};
use lerc::data_type::{get_data_type_used, DataType};
use lerc::decoder::Lerc2Decoder;
use lerc::error::{lerc_err, LercError};
use lerc::header::HeaderInfo;
use lerc::mask::{rle_decompress, BitMask};
use lerc::reader::ByteReader;
use lerc::rounding::round_to_nearest;
use lerc::sample::{copy_prev_depth, read_native_from_le, read_value, write_value};

fn text(e: LercError) -> String {
    match e {
        LercError::InvalidData(text) => text,
        LercError::UnsupportedCompression(tag) => format!("unsupported {tag}"),
    }
}

fn number(x: f64) -> Binary64 {
    Binary64 { bits: x.to_bits() }
}

#[test]
fn data_types() {
    let sizes = [1, 1, 2, 2, 4, 4, 4, 8];
    for (v, size) in sizes.iter().enumerate() {
        let dt = DataType::from_i32(v as i32).unwrap();
        assert_eq!(dt.size(), *size);
        assert_eq!(dt.code(), v as i32);
    }
    assert!(DataType::from_i32(8).is_none());
    assert!(DataType::from_i32(-1).is_none());
}

#[test]
fn reduced_types() {
    let used = |dt, tc| get_data_type_used(dt, tc);
    assert_eq!(used(DataType::Short, 0), Some(DataType::Short));
    assert_eq!(used(DataType::Short, 1), Some(DataType::Byte));
    assert_eq!(used(DataType::Short, 2), Some(DataType::Char));
    assert_eq!(used(DataType::Short, 3), None);
    assert_eq!(used(DataType::Int, 1), Some(DataType::UShort));
    assert_eq!(used(DataType::Int, 3), Some(DataType::Byte));
    assert_eq!(used(DataType::UShort, 1), Some(DataType::Byte));
    assert_eq!(used(DataType::UShort, 2), None);
    assert_eq!(used(DataType::UInt, 2), Some(DataType::Byte));
    assert_eq!(used(DataType::Float, 0), Some(DataType::Float));
    assert_eq!(used(DataType::Float, 1), Some(DataType::Short));
    assert_eq!(used(DataType::Float, 2), Some(DataType::Byte));
    assert_eq!(used(DataType::Float, 3), Some(DataType::Byte));
    assert_eq!(used(DataType::Double, 0), Some(DataType::Double));
    assert_eq!(used(DataType::Double, 1), Some(DataType::Float));
    assert_eq!(used(DataType::Double, 2), Some(DataType::Int));
    assert_eq!(used(DataType::Double, 3), Some(DataType::Short));
    assert_eq!(used(DataType::Byte, 3), Some(DataType::Byte));
    assert_eq!(used(DataType::Char, 2), Some(DataType::Char));
}

#[test]
fn reduced_types_are_not_larger() {
    for v in 0..8 {
        let dt = DataType::from_i32(v).unwrap();
        for tc in 0..4 {
            if let Some(used) = get_data_type_used(dt, tc) {
                assert!(used.size() <= dt.size());
            }
        }
    }
}

#[test]
fn a_header_is_read_field_by_field() {
    let mut buf = b"Lerc2 ".to_vec();
    for v in [6i32, 77, 2, 3, 4, 5, 8, 1, 2, 0, 0] {
        buf.extend_from_slice(&v.to_le_bytes());
    }
    for z in [0.25f64, -1.0, 9.5, 0.0, 0.0] {
        buf.extend_from_slice(&z.to_le_bytes());
    }
    let mut r = ByteReader::new(&buf);
    let hd = Lerc2Decoder::read_header(&mut r).unwrap();
    assert_eq!(r.pos, 90);
    assert_eq!((hd.version, hd.n_rows, hd.n_cols, hd.n_depth), (6, 2, 3, 4));
    assert_eq!((hd.num_valid_pixel, hd.micro_block_size, hd.blob_size), (5, 8, 1));
    assert_eq!(hd.dt, DataType::Short);
    assert_eq!((hd.max_z_error, hd.z_min, hd.z_max), (number(0.25), number(-1.0), number(9.5)));
    for (len, pos) in [(5, 0), (6, 6), (9, 6), (10, 10), (13, 10), (41, 38), (57, 50), (89, 82)] {
        let mut r = ByteReader::new(&buf[..len]);
        let e = Lerc2Decoder::read_header(&mut r).unwrap_err();
        assert_eq!(text(e), "unexpected end of LERC blob");
        assert_eq!(r.pos, pos, "{len} bytes");
    }
}

#[test]
fn reader_moves_on_or_stays() {
    let buf = [1u8, 2, 3, 4, 5, 6, 7, 8, 9, 10, 11, 12, 13, 14, 15];
    let mut r = ByteReader::new(&buf);
    assert_eq!(r.remaining(), 15);
    assert!(r.need(15).is_ok());
    assert_eq!(text(r.need(16).unwrap_err()), "unexpected end of LERC blob");
    assert_eq!(r.read_u8().unwrap(), 1);
    assert_eq!(r.read_u16().unwrap(), 0x0302);
    assert_eq!(r.read_bytes(2).unwrap(), &[4, 5][..]);
    assert_eq!(r.read_i32().unwrap(), 0x0908_0706);
    assert_eq!(r.read_u32().unwrap(), 0x0d0c_0b0a);
    assert_eq!(r.pos, 13);
    assert!(r.read_i32().is_err());
    assert!(r.read_u32().is_err());
    assert!(r.read_f64().is_err());
    assert!(r.read_bytes(3).is_err());
    assert!(r.read_variable(DataType::Float).is_err());
    assert_eq!(r.pos, 13);
    assert_eq!(r.read_u16().unwrap(), 0x0f0e);
    assert!(r.read_u8().is_err());
    assert!(r.read_u16().is_err());
}

#[test]
fn reader_of_numbers() {
    let mut buf = (-2i32).to_le_bytes().to_vec();
    buf.extend_from_slice(&0xffff_fffeu32.to_le_bytes());
    buf.extend_from_slice(&(-1.5f64).to_le_bytes());
    buf.extend_from_slice(&(-3i16).to_le_bytes());
    let mut r = ByteReader::new(&buf);
    assert_eq!(r.read_i32().unwrap(), -2);
    assert_eq!(r.read_u32().unwrap(), 0xffff_fffe);
    assert_eq!(r.read_f64().unwrap(), number(-1.5));
    assert_eq!(r.read_variable(DataType::Short).unwrap(), number(-3.0));
}

#[test]
fn counts() {
    let buf = [1u8, 2, 3, 4, 5, 6, 7];
    let mut r = ByteReader::new(&buf);
    assert_eq!(decode_uint(&mut r, 1).unwrap(), 1);
    assert_eq!(decode_uint(&mut r, 2).unwrap(), 0x0302);
    assert_eq!(decode_uint(&mut r, 4).unwrap(), 0x0706_0504);
    assert_eq!(text(decode_uint(&mut r, 1).unwrap_err()), "unexpected end of LERC blob");
    assert_eq!(text(decode_uint(&mut r, 3).unwrap_err()), "bad LERC2 count byte width");
    assert_eq!(text(decode_uint(&mut r, 0).unwrap_err()), "bad LERC2 count byte width");
}

/// Packs values of `bits` bits each, the first of them in the lowest bits.
fn pack(values: &[u32], bits: usize) -> Vec<u8> {
    let mut out = vec![0u8; (values.len() * bits).div_ceil(8)];
    for (i, &v) in values.iter().enumerate() {
        for j in 0..bits {
            if v >> j & 1 == 1 {
                let at = i * bits + j;
                out[at / 8] |= 1 << (at % 8);
            }
        }
    }
    out
}

#[test]
fn unstuffing_undoes_stuffing() {
    for bits in 1..32usize {
        for n in [1usize, 2, 3, 7, 8, 31, 32, 33, 100] {
            let values: Vec<u32> = (0..n as u32)
                .map(|i| (i.wrapping_mul(0x9e37_79b9) >> 3) & ((1u32 << bits) - 1))
                .collect();
            let buf = pack(&values, bits);
            let mut r = ByteReader::new(&buf);
            let mut data = vec![0u32; n];
            bit_unstuff(&mut r, &mut data, n, bits as i32).unwrap();
            assert_eq!(data, values, "{n} values of {bits} bits");
            assert_eq!(r.pos, buf.len());
            let whole = 4 * (n * bits).div_ceil(32);
            assert_eq!(whole - num_tail_bytes_not_needed(n, bits as i32), buf.len());
        }
    }
}

#[test]
fn unstuffing_faults() {
    let buf = [0u8; 4];
    for (n, bits) in [(0usize, 4), (4, 0), (4, 32), (4, -1)] {
        let mut r = ByteReader::new(&buf);
        let e = bit_unstuff(&mut r, &mut [0; 4], n, bits).unwrap_err();
        assert_eq!(text(e), "bad LERC2 bit-unstuff params");
    }
    let mut r = ByteReader::new(&buf);
    let e = bit_unstuff(&mut r, &mut [0; 5], 5, 7).unwrap_err();
    assert_eq!(text(e), "unexpected end of LERC blob");
    assert_eq!(r.pos, 0);
}

#[test]
fn unstuffing_fills_the_room_there_is() {
    let buf = pack(&[5, 6, 7], 3);
    let mut r = ByteReader::new(&buf);
    let mut data = [9u32; 2];
    bit_unstuff(&mut r, &mut data, 3, 3).unwrap();
    assert_eq!(data, [5, 6]);
    let mut r = ByteReader::new(&buf);
    let mut data = [9u32; 5];
    bit_unstuff(&mut r, &mut data, 3, 3).unwrap();
    assert_eq!(data, [5, 6, 7, 9, 9]);
}

#[test]
fn tails() {
    assert_eq!(num_tail_bytes_not_needed(0, 5), 0);
    assert_eq!(num_tail_bytes_not_needed(1, 1), 3);
    assert_eq!(num_tail_bytes_not_needed(1, 9), 2);
    assert_eq!(num_tail_bytes_not_needed(1, 17), 1);
    assert_eq!(num_tail_bytes_not_needed(1, 25), 0);
    assert_eq!(num_tail_bytes_not_needed(32, 1), 0);
}

#[test]
fn blocks_with_each_width_of_count() {
    for (code, count) in [(0u8, vec![3u8, 0, 0, 0]), (1, vec![3, 0]), (2, vec![3])] {
        let mut buf = vec![64 * code + 5];
        buf.extend_from_slice(&count);
        buf.extend_from_slice(&pack(&[1, 30, 17], 5));
        let mut r = ByteReader::new(&buf);
        assert_eq!(bit_stuffer2_decode(&mut r, 3, 4).unwrap(), [1, 30, 17]);
        assert_eq!(r.pos, buf.len());
    }
}

#[test]
fn blocks_with_a_table() {
    let mut buf = vec![128 + 32 + 12, 5, 6];
    buf.extend_from_slice(&pack(&[10, 20, 3000, 40, 4095], 12));
    buf.extend_from_slice(&pack(&[0, 5, 3, 1, 3], 3));
    let mut r = ByteReader::new(&buf);
    assert_eq!(bit_stuffer2_decode(&mut r, 9, 4).unwrap(), [0, 4095, 3000, 10, 3000]);
    assert_eq!(r.pos, buf.len());
}

#[test]
fn run_lengths_of_zero_and_long_ones() {
    let mut src = 0i16.to_le_bytes().to_vec();
    src.push(9);
    src.extend_from_slice(&(-32767i16).to_le_bytes());
    src.push(7);
    src.extend_from_slice(&(-32768i16).to_le_bytes());
    src.extend_from_slice(b"not looked at");
    let mut out = vec![1u8; 32768];
    rle_decompress(&src, &mut out).unwrap();
    assert_eq!(&out[..32767], &vec![7u8; 32767][..]);
    assert_eq!(out[32767], 1);
}

#[test]
fn run_length_faults_keep_what_was_decoded() {
    let src = [2u8, 0, 5, 6, 0xfd, 0xff, 7];
    let mut out = [0u8; 4];
    assert_eq!(text(rle_decompress(&src, &mut out).unwrap_err()), "LERC RLE run overrun");
    assert_eq!(out, [5, 6, 0, 0]);
    assert_eq!(text(rle_decompress(&src[..4], &mut out).unwrap_err()), "truncated LERC RLE");
}

#[test]
fn masks() {
    assert!(BitMask::all_valid().is_valid(1000));
    let m = BitMask { bits: vec![0b1000_0001, 0b0100_0000], all_valid: false };
    let valid: Vec<i64> = (0..16).filter(|&k| m.is_valid(k)).collect();
    assert_eq!(valid, [0, 7, 9]);
}

#[test]
fn orders_of_words() {
    assert_eq!(order_of_word(1), ByteOrder::Little);
    assert_eq!(order_of_word(256), ByteOrder::Big);
}

#[test]
fn words_in_both_orders() {
    let mut out = [0u8; 5];
    put_word(&mut out, 1, 4, 0x0403_0201, ByteOrder::Little);
    assert_eq!(out, [0, 1, 2, 3, 4]);
    assert_eq!(get_word(&out, 1, 2, ByteOrder::Big), 0x0102);
    put_word(&mut out, 0, 3, 0x0a0b0c, ByteOrder::Big);
    assert_eq!(out, [0x0a, 0x0b, 0x0c, 3, 4]);
    assert_eq!(get_word(&out, 0, 3, ByteOrder::Little), 0x0c0b0a);
    copy_to(&mut out, 3, &[8, 9]);
    assert_eq!(out, [0x0a, 0x0b, 0x0c, 8, 9]);
}

#[test]
fn samples_are_cast_to_their_type() {
    let mut out = [0u8; 8];
    for (dt, x, expected) in [
        (DataType::Char, -200.0, (-128i8).to_le_bytes().to_vec()),
        (DataType::Byte, 255.9, vec![255]),
        (DataType::Byte, -1.0, vec![0]),
        (DataType::Short, -1.9, (-1i16).to_le_bytes().to_vec()),
        (DataType::UShort, 70000.0, vec![255, 255]),
        (DataType::Int, 1e10, i32::MAX.to_le_bytes().to_vec()),
        (DataType::UInt, 4e9, 4_000_000_000u32.to_le_bytes().to_vec()),
        (DataType::Int, f64::NAN, vec![0; 4]),
        (DataType::Float, 0.1, 0.1f32.to_le_bytes().to_vec()),
        (DataType::Double, 0.1, 0.1f64.to_le_bytes().to_vec()),
    ] {
        write_value(&mut out, 0, dt, number(x), ByteOrder::Little);
        assert_eq!(&out[..dt.size()], &expected[..], "{x}");
    }
}

#[test]
fn casts_stay_between_neighbours() {
    let mut out = [0u8; 4];
    for (dt, x, low, high) in [
        (DataType::Byte, 3.7, 3.0, 4.0),
        (DataType::Short, -3.7, -4.0, -3.0),
        (DataType::Float, 16777217.0, 16777216.0, 16777218.0),
        (DataType::Float, -0.1, -0.1f32 as f64, -0.1f32 as f64 + 1e-8),
    ] {
        write_value(&mut out, 0, dt, number(x), ByteOrder::Little);
        let z = f64::from_bits(read_value(&out, 0, dt, ByteOrder::Little).bits);
        assert!(low <= z && z <= high, "{x}");
    }
}

#[test]
fn samples_of_each_type() {
    let src = [0xffu8, 0xfe, 0xfd, 0xbc, 0xfb, 0xfa, 0xf9, 0x40];
    for (dt, expected) in [
        (DataType::Char, -1.0),
        (DataType::Byte, 255.0),
        (DataType::Short, -257.0),
        (DataType::UShort, 65279.0),
        (DataType::Int, i32::from_le_bytes([0xff, 0xfe, 0xfd, 0xbc]) as f64),
        (DataType::UInt, u32::from_le_bytes([0xff, 0xfe, 0xfd, 0xbc]) as f64),
        (DataType::Float, f32::from_le_bytes([0xff, 0xfe, 0xfd, 0xbc]) as f64),
        (DataType::Double, f64::from_le_bytes(src)),
    ] {
        assert_eq!(read_native_from_le(&src, dt), number(expected));
        assert_eq!(read_value(&src, 0, dt, ByteOrder::Little), number(expected));
        let mut turned = src[..dt.size()].to_vec();
        turned.reverse();
        assert_eq!(read_value(&turned, 0, dt, ByteOrder::Big), number(expected));
    }
}

#[test]
fn elements_are_independent() {
    let mut out = [1u8, 2, 3, 4, 5, 6, 7, 8];
    write_value(&mut out, 1, DataType::Short, number(-2.0), ByteOrder::Big);
    assert_eq!(out, [1, 2, 0xff, 0xfe, 5, 6, 7, 8]);
    copy_prev_depth(&mut out, 2, DataType::Short, ByteOrder::Big);
    assert_eq!(out, [1, 2, 0xff, 0xfe, 0xff, 0xfe, 7, 8]);
}

#[test]
fn exact_magnitudes_are_rounded_once() {
    // Three significant digits, steps of one: 9 lies between 8 and 10, 11 between 10
    // and 12.
    assert_eq!(round_to_nearest(9, 0, 3, 0, 1000), round_to_nearest(8, 0, 3, 0, 1000));
    assert_eq!(round_to_nearest(11, 0, 3, 0, 1000), round_to_nearest(12, 0, 3, 0, 1000));
    assert_eq!(round_to_nearest(7, 0, 3, 0, 1000), 7);
    assert_eq!(round_to_nearest(7, 20, 3, 0, 30), 30);
}

#[test]
fn faults_have_their_text() {
    assert_eq!(text(lerc_err("some text")), "some text");
}

fn info(depth: i32, dt: DataType, z_max: f64) -> HeaderInfo {
    HeaderInfo {
        version: 4,
        n_rows: 1,
        n_cols: 2,
        n_depth: depth,
        num_valid_pixel: 2,
        micro_block_size: 8,
        blob_size: 1,
        dt,
        max_z_error: number(0.0),
        z_min: number(1.0),
        z_max: number(z_max),
    }
}

fn decoder(depth: i32, dt: DataType, z_max: f64) -> Lerc2Decoder {
    Lerc2Decoder {
        hd: info(depth, dt, z_max),
        mask: BitMask { bits: Vec::new(), all_valid: false },
        z_min_vec: vec![number(77.0)],
        z_max_vec: vec![number(78.0)],
    }
}

#[test]
fn ranges_are_read_in_two_halves() {
    let buf = [1u8, 2, 3, 4];
    let mut dec = decoder(2, DataType::Byte, 9.0);
    dec.read_min_max_ranges(&mut ByteReader::new(&buf)).unwrap();
    assert_eq!(dec.z_min_vec, [number(1.0), number(2.0)]);
    assert_eq!(dec.z_max_vec, [number(3.0), number(4.0)]);
    assert!(!dec.check_min_max_equal());
    let mut dec = decoder(2, DataType::Byte, 9.0);
    let mut r = ByteReader::new(&buf[..3]);
    assert!(dec.read_min_max_ranges(&mut r).is_err());
    assert_eq!(r.pos, 3);
    assert_eq!(dec.z_min_vec, [number(1.0), number(2.0)]);
    assert_eq!(dec.z_max_vec, [number(78.0)]);
    let mut dec = decoder(2, DataType::Byte, 9.0);
    assert!(dec.read_min_max_ranges(&mut ByteReader::new(&buf[..1])).is_err());
    assert_eq!(dec.z_min_vec, [number(77.0)]);
}

#[test]
fn flat_ranges() {
    let mut dec = decoder(2, DataType::Byte, 9.0);
    dec.z_min_vec = vec![number(0.0), number(2.0)];
    dec.z_max_vec = vec![number(-0.0), number(2.0)];
    assert!(dec.check_min_max_equal());
    dec.z_max_vec = vec![number(-0.0), number(3.0)];
    assert!(!dec.check_min_max_equal());
    dec.z_max_vec = vec![number(0.0)];
    assert!(!dec.check_min_max_equal());
    dec.z_min_vec = vec![number(f64::NAN)];
    dec.z_max_vec = vec![number(f64::NAN)];
    assert!(!dec.check_min_max_equal());
}

#[test]
fn a_mask_that_is_refused_keeps_the_old_one() {
    let mut dec = decoder(1, DataType::Byte, 9.0);
    dec.mask = BitMask { bits: vec![0x40], all_valid: false };
    let buf = 5i32.to_le_bytes();
    let mut r = ByteReader::new(&buf);
    let e = dec.read_mask(&mut r).unwrap_err();
    assert_eq!(text(e), "mask stored for all/none-valid tile");
    assert_eq!(dec.mask.bits, [0x40]);
    let buf = 0i32.to_le_bytes();
    dec.read_mask(&mut ByteReader::new(&buf)).unwrap();
    assert!(dec.mask.all_valid);
}

#[test]
fn constants_are_filled_by_depth() {
    let mut dec = decoder(2, DataType::Byte, 9.0);
    dec.mask = BitMask::all_valid();
    dec.z_min_vec = vec![number(5.0), number(6.0)];
    let mut out = [0u8; 4];
    dec.fill_const_image(&mut out, ByteOrder::Little);
    assert_eq!(out, [5, 6, 5, 6]);
    dec.hd.z_max = number(1.0);
    dec.fill_const_image(&mut out, ByteOrder::Little);
    assert_eq!(out, [1, 1, 1, 1]);
}

#[test]
fn a_sweep_that_ends_early_keeps_whole_pixels() {
    let mut dec = decoder(2, DataType::Byte, 9.0);
    dec.mask = BitMask::all_valid();
    let buf = [3u8, 4, 5];
    let mut r = ByteReader::new(&buf);
    let mut out = [0u8; 4];
    let e = dec.read_data_one_sweep(&mut r, &mut out, ByteOrder::Little).unwrap_err();
    assert_eq!(text(e), "unexpected end of LERC blob");
    assert_eq!(out, [3, 4, 0, 0]);
    assert_eq!(r.pos, 2);
}
