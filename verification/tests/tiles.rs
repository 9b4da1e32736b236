//! The tiles of a stream.
use lerc::binary64::Binary64;
use lerc::blob::{decode_lerc2, within_limits};
use lerc::bytes::ByteOrder;
use lerc::data_type::DataType;
use lerc::decoder::Lerc2Decoder;
use lerc::error::LercError;
use lerc::header::HeaderInfo;
use lerc::mask::BitMask;
use lerc::reader::ByteReader;

/// The start of a stream; `blob_size` is the least one that is accepted.
#[allow(clippy::too_many_arguments)]
fn header(
    version: i32,
    rows: i32,
    cols: i32,
    depth: i32,
    valid: i32,
    block: i32,
    dt: i32,
    numbers: [f64; 3],
) -> Vec<u8> {
    let mut b = b"Lerc2 ".to_vec();
    b.extend_from_slice(&version.to_le_bytes());
    if version >= 3 {
        b.extend_from_slice(&0xdead_beef_u32.to_le_bytes());
    }
    b.extend_from_slice(&rows.to_le_bytes());
    b.extend_from_slice(&cols.to_le_bytes());
    if version >= 4 {
        b.extend_from_slice(&depth.to_le_bytes());
    }
    b.extend_from_slice(&valid.to_le_bytes());
    b.extend_from_slice(&block.to_le_bytes());
    b.extend_from_slice(&1i32.to_le_bytes());
    b.extend_from_slice(&dt.to_le_bytes());
    if version >= 6 {
        b.extend_from_slice(&0i32.to_le_bytes());
        b.extend_from_slice(&[0; 4]);
    }
    for z in numbers {
        b.extend_from_slice(&z.to_le_bytes());
    }
    if version >= 6 {
        b.extend_from_slice(&[0; 16]);
    }
    b
}

fn no_mask(b: &mut Vec<u8>) {
    b.extend_from_slice(&0i32.to_le_bytes());
}

fn text(e: LercError) -> String {
    match e {
        LercError::InvalidData(text) => text,
        LercError::UnsupportedCompression(tag) => format!("unsupported {tag}"),
    }
}

fn decode(b: &[u8]) -> Vec<u8> {
    assert!(within_limits(b));
    decode_lerc2(b, ByteOrder::Little).unwrap()
}

fn fault(b: &[u8]) -> String {
    assert!(within_limits(b));
    text(decode_lerc2(b, ByteOrder::Little).unwrap_err())
}

/// A stream of one tile of four pixels, all valid.
fn one_tile(version: i32, dt: i32, error: f64, z_max: f64, tile: &[u8]) -> Vec<u8> {
    let mut b = header(version, 2, 2, 1, 4, 8, dt, [error, 0.0, z_max]);
    no_mask(&mut b);
    b.push(0);
    b.extend_from_slice(tile);
    b
}

fn decoder(hd: HeaderInfo, z_max: Vec<f64>) -> Lerc2Decoder {
    Lerc2Decoder {
        hd,
        mask: BitMask::all_valid(),
        z_min_vec: Vec::new(),
        z_max_vec: z_max.iter().map(|z| Binary64 { bits: z.to_bits() }).collect(),
    }
}

fn info(version: i32, rows: i32, cols: i32, depth: i32, dt: DataType) -> HeaderInfo {
    HeaderInfo {
        version,
        n_rows: rows,
        n_cols: cols,
        n_depth: depth,
        num_valid_pixel: rows * cols,
        micro_block_size: 8,
        blob_size: 1,
        dt,
        max_z_error: Binary64 { bits: 0.5f64.to_bits() },
        z_min: Binary64 { bits: 0.0f64.to_bits() },
        z_max: Binary64 { bits: 100.0f64.to_bits() },
    }
}

#[test]
fn zero_tile() {
    let b = one_tile(2, 2, 1.0, 9.0, &[2]);
    assert_eq!(decode(&b), vec![0u8; 8]);
}

#[test]
fn raw_tile() {
    let b = one_tile(2, 2, 1.0, 9.0, &[0, 1, 2, 3, 4, 5, 6, 7, 8]);
    assert_eq!(decode(&b), [1, 2, 3, 4, 5, 6, 7, 8]);
    assert_eq!(fault(&b[..b.len() - 1]), "unexpected end of LERC blob");
}

#[test]
fn constant_tile_with_each_offset_type() {
    // The offset of a tile of 32-bit integers: whole, unsigned short, short, byte.
    for (flag, offset, expected) in [
        (3u8, vec![0xfeu8, 0xff, 0xff, 0xff], -2i32),
        (3 + 64, vec![0xfe, 0xff], 0xfffe),
        (3 + 128, vec![0xfe, 0xff], -2),
        (3 + 192, vec![0xfe], 0xfe),
    ] {
        let mut tile = vec![flag];
        tile.extend_from_slice(&offset);
        let b = one_tile(2, 4, 1.0, 9.0, &tile);
        assert_eq!(decode(&b), expected.to_le_bytes().repeat(4), "flag {flag}");
    }
}

#[test]
fn offset_types_that_do_not_exist_are_refused() {
    // A short has no type that is three steps smaller.
    let b = one_tile(2, 2, 1.0, 9.0, &[3 + 192, 0, 0, 0, 0]);
    assert_eq!(fault(&b), "bad LERC2 reduced type");
    let b = one_tile(2, 2, 1.0, 9.0, &[3]);
    assert_eq!(fault(&b), "unexpected end of LERC blob");
}

#[test]
fn quantized_tile() {
    // Offset 10, four values of two bits, step 2 * 1.5, at most 18.
    let b = one_tile(2, 4, 1.5, 18.0, &[1 + 192, 10, 2 + 128, 4, 0b1110_0100]);
    let expected: Vec<u8> =
        [10i32, 13, 16, 18].iter().flat_map(|z| z.to_le_bytes()).collect();
    assert_eq!(decode(&b), expected);
}

#[test]
fn quantized_tile_of_binary32() {
    // Offset 0.25, values 0..=3, step 0.2.
    let mut tile = vec![1u8];
    tile.extend_from_slice(&0.25f32.to_le_bytes());
    tile.extend_from_slice(&[2 + 128, 4, 0b1110_0100]);
    let b = one_tile(2, 6, 0.1, 9.0, &tile);
    let expected: Vec<u8> = (0..4u32)
        .flat_map(|q| ((0.25f32 as f64 + q as f64 * (2.0 * 0.1)) as f32).to_le_bytes())
        .collect();
    assert_eq!(decode(&b), expected);
}

#[test]
fn the_error_is_limited() {
    // Numbers that were quantized to 0, 1, 2, 3 with steps of twice the largest error.
    let error = 0.1;
    let offset = 10.0f32;
    let numbers = [10.02f64, 10.28, 10.33, 10.55];
    let mut tile = vec![1u8];
    tile.extend_from_slice(&offset.to_le_bytes());
    tile.extend_from_slice(&[2 + 128, 4, 0b1110_0100]);
    let bytes = decode(&one_tile(2, 6, error, 99.0, &tile));
    for (c, v) in bytes.chunks_exact(4).zip(numbers) {
        let z = f32::from_le_bytes([c[0], c[1], c[2], c[3]]) as f64;
        assert!((z - v).abs() <= error, "{z} for {v}");
    }
}

#[test]
fn quantized_tile_with_table() {
    // The table holds 5 and 9; the places are 0, 1, 2, 1.
    let b = one_tile(2, 1, 0.25, 99.0, &[1, 1, 4 + 32 + 128, 4, 3, 0x95, 0b0110_0100]);
    // Offset 1, step 0.5: 1, 3.5, 5.5, 3.5 without their fractions.
    assert_eq!(decode(&b), [1, 3, 5, 3]);
}

#[test]
fn quantized_tile_without_bits() {
    let b = one_tile(2, 1, 1.0, 99.0, &[1, 42, 128, 4]);
    assert_eq!(decode(&b), [42; 4]);
}

#[test]
fn quantized_tile_faults() {
    for (tile, expected) in [
        (vec![1u8, 42], "unexpected end of LERC blob"),
        (vec![1, 42, 128 + 64, 4], "bad LERC2 count byte width"),
        (vec![1, 42, 128, 5], "LERC2 element count exceeds tile"),
        (vec![1, 42, 128, 3], "LERC2 tile ran out of quantized values"),
        (vec![1, 42, 128 + 2, 0], "bad LERC2 bit-unstuff params"),
        (vec![1, 42, 128 + 2, 4], "unexpected end of LERC blob"),
        (vec![1, 42, 128 + 32, 4], "LERC2 LUT with zero bits"),
        (vec![1, 42, 128 + 32 + 2, 4, 1], "LERC2 LUT too small"),
        (vec![1, 42, 128 + 32 + 2, 4, 3, 0, 0b0000_1100], "LERC2 LUT index out of range"),
        (vec![1, 42, 64, 4], "unexpected end of LERC blob"),
        (vec![1, 42, 0, 4, 0, 0], "unexpected end of LERC blob"),
    ] {
        assert_eq!(fault(&one_tile(2, 1, 1.0, 99.0, &tile)), expected, "{tile:?}");
    }
}

#[test]
fn full_block_stands_for_invalid_pixels_too() {
    let mask = [1u8, 0, 0x60, 0, 0x80];
    let mut b = header(2, 2, 2, 1, 2, 8, 1, [1.0, 0.0, 99.0]);
    b.extend_from_slice(&(mask.len() as i32).to_le_bytes());
    b.extend_from_slice(&mask);
    b.push(0);
    let mut full = b.clone();
    full.extend_from_slice(&[1, 10, 2 + 128, 4, 0b1110_0100]);
    assert_eq!(decode(&full), [10, 12, 14, 16]);
    // A block with a value for each valid pixel.
    b.extend_from_slice(&[1, 10, 2 + 128, 2, 0b0000_1110]);
    assert_eq!(decode(&b), [0, 14, 16, 0]);
}

#[test]
fn integrity_check() {
    let b = one_tile(2, 1, 1.0, 9.0, &[2 + 4]);
    assert_eq!(fault(&b), "LERC2 tile integrity check failed");
    let b = one_tile(5, 1, 1.0, 9.0, &[]);
    // Version 5 has the ranges of its depth before the flags.
    assert_eq!(fault(&b), "unexpected end of LERC blob");
}

#[test]
fn grid_of_tiles() {
    // 3x5 pixels in tiles of 2x2, each constant.
    let mut b = header(2, 3, 5, 1, 15, 2, 1, [1.0, 0.0, 99.0]);
    no_mask(&mut b);
    b.push(0);
    for z in 1..=6 {
        b.extend_from_slice(&[3, z]);
    }
    let expected = [
        1, 1, 2, 2, 3,
        1, 1, 2, 2, 3,
        4, 4, 5, 5, 6,
    ];
    assert_eq!(decode(&b), expected);
}

#[test]
fn flags_repeat_the_column() {
    // Tiles of 8 columns: the second one has 1 in the bits from the third on.
    let mut b = header(2, 1, 9, 1, 9, 8, 1, [1.0, 0.0, 99.0]);
    no_mask(&mut b);
    b.push(0);
    b.extend_from_slice(&[3, 7, 3 + 4, 8]);
    assert_eq!(decode(&b), [7, 7, 7, 7, 7, 7, 7, 7, 8]);
    let last = b.len() - 2;
    b[last] = 3;
    assert_eq!(fault(&b), "LERC2 tile integrity check failed");
}

/// A stream of one pixel with depths.
fn depths(version: i32, dt: i32, z_max: &[u8], tiles: &[u8]) -> Vec<u8> {
    let depth = z_max.len() as i32;
    let mut b = header(version, 1, 1, depth, 1, 8, dt, [0.5, 0.0, 255.0]);
    no_mask(&mut b);
    b.extend_from_slice(&vec![0u8; z_max.len()]);
    b.extend_from_slice(z_max);
    // Neither one after the other nor Huffman-coded.
    b.extend_from_slice(&[0, 0]);
    b.extend_from_slice(tiles);
    b
}

#[test]
fn differences_from_the_depth_before() {
    // 10; 10 + 5, at most 12; the same again; 12 - 2 and a quantized value of 1.
    let mut tiles = vec![3u8, 10];
    tiles.extend_from_slice(&[3 + 4 + 192, 5]);
    tiles.extend_from_slice(&[2 + 4]);
    tiles.extend_from_slice(&[1 + 4 + 128, 0xfe, 0xff, 1 + 128, 1, 1]);
    let b = depths(5, 1, &[200, 12, 200, 200], &tiles);
    assert_eq!(decode(&b), [10, 12, 12, 11]);
}

#[test]
fn the_error_of_differences_is_limited() {
    // Depth 0 holds 10; depth 1 a constant difference, depth 2 a quantized one.
    let error = 0.1;
    let mut b = header(5, 1, 1, 3, 1, 8, 6, [error, 0.0, 99.0]);
    no_mask(&mut b);
    for z in [0.0f32, 0.0, 0.0, 99.0, 99.0, 99.0] {
        b.extend_from_slice(&z.to_le_bytes());
    }
    b.push(0);
    b.push(3);
    b.extend_from_slice(&10.0f32.to_le_bytes());
    b.push(3 + 4);
    b.extend_from_slice(&1.7f32.to_le_bytes());
    b.push(1 + 4);
    b.extend_from_slice(&(-0.5f32).to_le_bytes());
    b.extend_from_slice(&[2 + 128, 1, 3]);
    let bytes = decode(&b);
    for (c, v) in bytes.chunks_exact(4).zip([10.0f64, 11.68, 11.85]) {
        let z = f32::from_le_bytes([c[0], c[1], c[2], c[3]]) as f64;
        assert!((z - v).abs() <= error, "{z} for {v}");
    }
    let one = (1.7f32 as f64 + 10.0) as f32;
    let two = (-0.5f64 + 3.0 * (2.0 * error) + one as f64) as f32;
    assert_eq!(&bytes[4..8], &one.to_le_bytes()[..]);
    assert_eq!(&bytes[8..12], &two.to_le_bytes()[..]);
}

#[test]
fn difference_faults() {
    let b = depths(5, 1, &[200, 200], &[3 + 4, 1, 0, 0, 0]);
    assert_eq!(fault(&b), "invalid LERC2 diff-encoded tile");
    let b = depths(5, 1, &[200, 200], &[3, 1, 4, 9]);
    assert_eq!(fault(&b), "unexpected diff-encoded raw LERC2 tile");
    // Before version 5 the bit belongs to the column.
    let b = depths(4, 1, &[200, 200], &[3, 1, 3 + 4, 9]);
    assert_eq!(fault(&b), "LERC2 tile integrity check failed");
}

#[test]
fn numbers_are_capped_by_the_range_of_their_depth() {
    let tiles = [1u8, 250, 4 + 128, 1, 9, 1, 250, 4 + 128, 1, 9];
    let b = depths(4, 1, &[255, 252], &tiles);
    assert_eq!(decode(&b), [255, 252]);
}

#[test]
fn a_failed_tile_keeps_what_was_read() {
    let dec = decoder(info(2, 1, 3, 1, DataType::Byte), Vec::new());
    let buf = [0u8, 1, 2];
    let mut r = ByteReader::new(&buf);
    let mut out = [9u8; 3];
    let e = dec.read_tile(&mut r, &mut out, 0, 1, 0, 3, 0, ByteOrder::Little).unwrap_err();
    assert_eq!(text(e), "unexpected end of LERC blob");
    assert_eq!(out, [1, 2, 9]);
    assert_eq!(r.pos, 3);
}

#[test]
fn a_tile_stays_in_its_place() {
    let dec = decoder(info(5, 3, 3, 2, DataType::UShort), vec![50.0, 60.0]);
    let buf = [3u8 + 64, 7, 99];
    let mut r = ByteReader::new(&buf);
    let mut out = [0xaau8; 36];
    dec.read_tile(&mut r, &mut out, 1, 2, 1, 3, 1, ByteOrder::Big).unwrap();
    let mut expected = [0xaau8; 36];
    for k in [4, 5] {
        expected[4 * k + 2] = 0;
        expected[4 * k + 3] = 7;
    }
    assert_eq!(out, expected);
    assert_eq!(r.pos, 2);
}

#[test]
fn read_tiles_stops_at_a_fault() {
    let mut hd = info(2, 1, 4, 1, DataType::Byte);
    hd.micro_block_size = 2;
    let dec = decoder(hd, Vec::new());
    let buf = [3u8, 7, 4];
    let mut r = ByteReader::new(&buf);
    let mut out = [0u8; 4];
    let e = dec.read_tiles(&mut r, &mut out, ByteOrder::Little).unwrap_err();
    assert_eq!(text(e), "LERC2 tile integrity check failed");
    assert_eq!(out, [7, 7, 0, 0]);
    assert_eq!(r.pos, 3);
}
