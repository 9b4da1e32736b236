//! Whole streams and blobs.
use lerc::blob::{can_decode, decode_lerc2, decode_lerc_blob, try_decode, within_limits};
use lerc::bytes::ByteOrder;
use lerc::error::LercError;
use lerc::mask::rle_decompress;

// A lossless 8x8 stream of binary32 samples, version 4, whose pixels are the ramp
// 0.0, 1.0, ..., 63.0 in row-major order.
const TINY_RAMP_BLOB: &[u8] = &[
    76, 101, 114, 99, 50, 32, 4, 0, 0, 0, 212, 170, 227, 218, 8, 0, 0, 0, 8, 0, 0, 0, 1, 0, 0,
    0, 64, 0, 0, 0, 8, 0, 0, 0, 79, 1, 0, 0, 6, 0, 0, 0, 0, 0, 0, 0, 0, 0, 0, 0, 0, 0, 0, 0, 0,
    0, 0, 0, 0, 0, 0, 0, 0, 128, 79, 64, 0, 0, 0, 0, 0, 0, 0, 0, 0, 0, 124, 66, 1, 0, 0, 0, 0,
    0, 0, 128, 63, 0, 0, 0, 64, 0, 0, 64, 64, 0, 0, 128, 64, 0, 0, 160, 64, 0, 0, 192, 64, 0,
    0, 224, 64, 0, 0, 0, 65, 0, 0, 16, 65, 0, 0, 32, 65, 0, 0, 48, 65, 0, 0, 64, 65, 0, 0, 80,
    65, 0, 0, 96, 65, 0, 0, 112, 65, 0, 0, 128, 65, 0, 0, 136, 65, 0, 0, 144, 65, 0, 0, 152,
    65, 0, 0, 160, 65, 0, 0, 168, 65, 0, 0, 176, 65, 0, 0, 184, 65, 0, 0, 192, 65, 0, 0, 200,
    65, 0, 0, 208, 65, 0, 0, 216, 65, 0, 0, 224, 65, 0, 0, 232, 65, 0, 0, 240, 65, 0, 0, 248,
    65, 0, 0, 0, 66, 0, 0, 4, 66, 0, 0, 8, 66, 0, 0, 12, 66, 0, 0, 16, 66, 0, 0, 20, 66, 0, 0,
    24, 66, 0, 0, 28, 66, 0, 0, 32, 66, 0, 0, 36, 66, 0, 0, 40, 66, 0, 0, 44, 66, 0, 0, 48, 66,
    0, 0, 52, 66, 0, 0, 56, 66, 0, 0, 60, 66, 0, 0, 64, 66, 0, 0, 68, 66, 0, 0, 72, 66, 0, 0,
    76, 66, 0, 0, 80, 66, 0, 0, 84, 66, 0, 0, 88, 66, 0, 0, 92, 66, 0, 0, 96, 66, 0, 0, 100,
    66, 0, 0, 104, 66, 0, 0, 108, 66, 0, 0, 112, 66, 0, 0, 116, 66, 0, 0, 120, 66, 0, 0, 124,
    66,
];

/// The start of a stream; `blob_size` is the least one that is accepted.
#[allow(clippy::too_many_arguments)]
fn header(
    version: i32,
    rows: i32,
    cols: i32,
    depth: i32,
    valid: i32,
    block: i32,
    dt: i32,
    numbers: [f64; 3],
) -> Vec<u8> {
    let mut b = b"Lerc2 ".to_vec();
    b.extend_from_slice(&version.to_le_bytes());
    if version >= 3 {
        b.extend_from_slice(&0xdead_beef_u32.to_le_bytes());
    }
    b.extend_from_slice(&rows.to_le_bytes());
    b.extend_from_slice(&cols.to_le_bytes());
    if version >= 4 {
        b.extend_from_slice(&depth.to_le_bytes());
    }
    b.extend_from_slice(&valid.to_le_bytes());
    b.extend_from_slice(&block.to_le_bytes());
    b.extend_from_slice(&1i32.to_le_bytes());
    b.extend_from_slice(&dt.to_le_bytes());
    if version >= 6 {
        b.extend_from_slice(&0i32.to_le_bytes());
        b.extend_from_slice(&[0; 4]);
    }
    for z in numbers {
        b.extend_from_slice(&z.to_le_bytes());
    }
    if version >= 6 {
        b.extend_from_slice(&[0; 16]);
    }
    b
}

fn no_mask(b: &mut Vec<u8>) {
    b.extend_from_slice(&0i32.to_le_bytes());
}

fn text(e: LercError) -> String {
    match e {
        LercError::InvalidData(text) => text,
        LercError::UnsupportedCompression(tag) => format!("unsupported {tag}"),
    }
}

fn decode(b: &[u8]) -> Vec<u8> {
    assert!(within_limits(b));
    decode_lerc2(b, ByteOrder::Little).unwrap()
}

fn fault(b: &[u8]) -> String {
    assert!(within_limits(b));
    text(decode_lerc2(b, ByteOrder::Little).unwrap_err())
}

#[test]
fn decode_tiny_float_ramp() {
    let bytes = decode_lerc_blob(TINY_RAMP_BLOB).expect("decode");
    assert_eq!(bytes.len(), 64 * 4);
    let pixels: Vec<f32> = bytes
        .chunks_exact(4)
        .map(|c| f32::from_ne_bytes([c[0], c[1], c[2], c[3]]))
        .collect();
    for (i, &p) in pixels.iter().enumerate() {
        assert_eq!(p, i as f32, "pixel {i}");
    }
}

#[test]
fn rejects_non_lerc_blob() {
    assert!(decode_lerc_blob(b"not a lerc blob at all").is_err());
}

#[test]
fn rle_roundtrip_simple() {
    // 5 literal bytes then a run of 3 zeros: counts are little-endian i16.
    let mut src = Vec::new();
    src.extend_from_slice(&5i16.to_le_bytes());
    src.extend_from_slice(&[1, 2, 3, 4, 5]);
    src.extend_from_slice(&(-3i16).to_le_bytes());
    src.push(0);
    src.extend_from_slice(&(-32768i16).to_le_bytes());
    let mut out = [0u8; 8];
    rle_decompress(&src, &mut out).unwrap();
    assert_eq!(out, [1, 2, 3, 4, 5, 0, 0, 0]);
}

#[test]
fn checked_decoding_gives_the_ramp_too() {
    assert!(can_decode(TINY_RAMP_BLOB));
    let bytes = try_decode(TINY_RAMP_BLOB).unwrap().unwrap();
    assert_eq!(bytes, decode_lerc_blob(TINY_RAMP_BLOB).unwrap());
    let e = try_decode(b"not a lerc blob at all").unwrap().unwrap_err();
    assert_eq!(text(e), "unrecognized LERC add-compression wrapper");
}

#[test]
fn byte_orders_mirror_each_other() {
    let little = decode_lerc2(TINY_RAMP_BLOB, ByteOrder::Little).unwrap();
    let big = decode_lerc2(TINY_RAMP_BLOB, ByteOrder::Big).unwrap();
    for (l, b) in little.chunks_exact(4).zip(big.chunks_exact(4)) {
        let mut turned = b.to_vec();
        turned.reverse();
        assert_eq!(l, &turned[..]);
    }
    assert_eq!(&big[4..8], &1.0f32.to_be_bytes()[..]);
}

#[test]
fn trailing_bytes_are_ignored() {
    let mut longer = TINY_RAMP_BLOB.to_vec();
    longer.extend_from_slice(&[1, 2, 3]);
    assert_eq!(decode(&longer), decode(TINY_RAMP_BLOB));
}

#[test]
fn checksum_is_not_verified() {
    let mut other = TINY_RAMP_BLOB.to_vec();
    for b in &mut other[10..14] {
        *b = !*b;
    }
    assert_eq!(decode(&other), decode(TINY_RAMP_BLOB));
    assert_eq!(decode_lerc_blob(&other).unwrap(), decode_lerc_blob(TINY_RAMP_BLOB).unwrap());
    other[34] = 0;
    let mut damaged = TINY_RAMP_BLOB.to_vec();
    damaged[34] = 0;
    damaged[35] = 0;
    other[35] = 0;
    assert_eq!(fault(&other), fault(&damaged));
}

#[test]
fn cut_streams_are_refused() {
    let whole = TINY_RAMP_BLOB.len();
    assert_eq!(fault(&TINY_RAMP_BLOB[..whole - 1]), "LERC2 blob shorter than declared size");
    assert_eq!(fault(&TINY_RAMP_BLOB[..40]), "unexpected end of LERC blob");
    assert_eq!(fault(b"Lerc"), "unexpected end of LERC blob");
    assert_eq!(fault(b"Lerc2 \x04"), "unexpected end of LERC blob");
    assert_eq!(fault(b"Lerc3 \x04\0\0\0"), "not a LERC2 blob");
}

#[test]
fn header_faults() {
    let numbers = [0.0, 1.0, 2.0];
    assert_eq!(fault(&header(7, 1, 1, 1, 1, 8, 1, numbers)), "unsupported LERC2 version");
    assert_eq!(fault(&header(0, 1, 1, 1, 1, 8, 1, numbers)), "unsupported LERC2 version");
    assert_eq!(fault(&header(-1, 1, 1, 1, 1, 8, 1, numbers)), "unsupported LERC2 version");
    assert_eq!(fault(&header(4, 1, 1, 1, 1, 8, 8, numbers)), "bad LERC2 data type");
    assert_eq!(fault(&header(4, 1, 1, 1, 1, 8, -1, numbers)), "bad LERC2 data type");
    for (rows, cols, depth, valid, block) in [
        (0, 1, 1, 0, 8),
        (1, 0, 1, 0, 8),
        (1, 1, 0, 1, 8),
        (1, 1, 1, -1, 8),
        (1, 1, 1, 1, 0),
        (1, 1, 1, 1, 33),
    ] {
        let b = header(4, rows, cols, depth, valid, block, 1, numbers);
        assert_eq!(fault(&b), "invalid LERC2 header dimensions");
    }
    let mut b = header(4, 1, 1, 1, 1, 8, 1, numbers);
    b[34..38].copy_from_slice(&0i32.to_le_bytes());
    assert_eq!(fault(&b), "invalid LERC2 header dimensions");
    assert_eq!(fault(&header(4, 2, 2, 1, 5, 8, 1, numbers)), "invalid LERC2 pixel count");
    assert_eq!(fault(&header(4, 65536, 32768, 1, 5, 8, 1, numbers)), "invalid LERC2 pixel count");
}

#[test]
fn mask_faults() {
    let numbers = [0.0, 1.0, 2.0];
    let all = header(2, 2, 2, 1, 4, 8, 1, numbers);
    let none = header(2, 2, 2, 1, 0, 8, 1, numbers);
    let some = header(2, 2, 2, 1, 3, 8, 1, numbers);
    assert_eq!(fault(&all), "unexpected end of LERC blob");
    for b in [&all, &none, &some] {
        let mut b = b.clone();
        b.extend_from_slice(&(-1i32).to_le_bytes());
        assert_eq!(fault(&b), "negative mask byte count");
    }
    for b in [&all, &none] {
        let mut b = b.clone();
        b.extend_from_slice(&1i32.to_le_bytes());
        assert_eq!(fault(&b), "mask stored for all/none-valid tile");
    }
    let mut b = some.clone();
    no_mask(&mut b);
    assert_eq!(fault(&b), "missing LERC2 mask");
    let mut b = some.clone();
    b.extend_from_slice(&3i32.to_le_bytes());
    b.extend_from_slice(&[0, 0]);
    assert_eq!(fault(&b), "unexpected end of LERC blob");
    for (code, expected) in [
        (vec![1u8], "truncated LERC RLE"),
        (vec![2, 0, 7, 7, 0, 0x80], "LERC RLE literal overrun"),
        (vec![1, 0], "LERC RLE literal overrun"),
        (vec![0xfe, 0xff, 7, 0, 0x80], "LERC RLE run overrun"),
        (vec![0xff, 0xff], "LERC RLE run overrun"),
        (vec![1, 0, 7], "truncated LERC RLE"),
    ] {
        let mut b = some.clone();
        b.extend_from_slice(&(code.len() as i32).to_le_bytes());
        b.extend_from_slice(&code);
        assert_eq!(fault(&b), expected);
    }
}

#[test]
fn raster_without_valid_pixels_is_zero() {
    let mut b = header(4, 3, 2, 2, 0, 8, 2, [0.0, 1.0, 2.0]);
    no_mask(&mut b);
    assert_eq!(decode(&b), vec![0u8; 3 * 2 * 2 * 2]);
}

#[test]
fn constant_raster_of_the_header() {
    let mut b = header(2, 2, 2, 1, 4, 8, 2, [0.0, -3.0, -3.0]);
    no_mask(&mut b);
    assert_eq!(decode(&b), [0xfd, 0xff].repeat(4));
    // The two zeros are equal numbers.
    let mut b = header(2, 1, 1, 1, 1, 8, 7, [0.0, -0.0, 0.0]);
    no_mask(&mut b);
    assert_eq!(decode(&b), (-0.0f64).to_le_bytes());
}

#[test]
fn constant_raster_skips_invalid_pixels() {
    let mut b = header(2, 2, 5, 1, 9, 8, 1, [0.0, 9.0, 9.0]);
    // 0b0111_1111, 0b1100_0000
    let code = [2u8, 0, 0x7f, 0xc0, 0, 0x80];
    b.extend_from_slice(&(code.len() as i32).to_le_bytes());
    b.extend_from_slice(&code);
    assert_eq!(decode(&b), [0, 9, 9, 9, 9, 9, 9, 9, 9, 9]);
}

#[test]
fn constant_raster_of_each_depth() {
    let mut b = header(4, 1, 2, 3, 2, 8, 3, [0.0, 1.0, 7.0]);
    no_mask(&mut b);
    for _ in 0..2 {
        for z in [1u16, 500, 7] {
            b.extend_from_slice(&z.to_le_bytes());
        }
    }
    assert_eq!(decode(&b), [1, 0, 0xf4, 1, 7, 0, 1, 0, 0xf4, 1, 7, 0]);
}

#[test]
fn cut_ranges_are_refused() {
    let mut b = header(4, 1, 2, 3, 2, 8, 3, [0.0, 1.0, 7.0]);
    no_mask(&mut b);
    b.extend_from_slice(&[0; 11]);
    assert_eq!(fault(&b), "unexpected end of LERC blob");
}

#[test]
fn sweep_of_all_types() {
    for (dt, size) in [(0, 1), (1, 1), (2, 2), (3, 2), (4, 4), (5, 4), (6, 4), (7, 8)] {
        let mut b = header(3, 1, 3, 1, 3, 8, dt, [0.0, 1.0, 2.0]);
        no_mask(&mut b);
        b.push(1);
        let samples: Vec<u8> = (0..3 * size).map(|i| (i * 37 + 11) as u8).collect();
        b.extend_from_slice(&samples);
        assert_eq!(decode(&b), samples, "type {dt}");
        let big = decode_lerc2(&b, ByteOrder::Big).unwrap();
        for (l, s) in big.chunks_exact(size).zip(samples.chunks_exact(size)) {
            let mut turned = s.to_vec();
            turned.reverse();
            assert_eq!(l, &turned[..], "type {dt}");
        }
        b.pop();
        assert_eq!(fault(&b), "unexpected end of LERC blob");
    }
}

#[test]
fn sweep_skips_invalid_pixels() {
    let mut b = header(3, 1, 3, 1, 2, 8, 1, [0.0, 1.0, 2.0]);
    let code = [1u8, 0, 0xa0, 0, 0x80];
    b.extend_from_slice(&(code.len() as i32).to_le_bytes());
    b.extend_from_slice(&code);
    b.extend_from_slice(&[1, 5, 6]);
    assert_eq!(decode(&b), [5, 0, 6]);
}

#[test]
fn sweep_of_depths() {
    let mut b = header(4, 1, 2, 2, 2, 8, 1, [0.0, 1.0, 9.0]);
    no_mask(&mut b);
    b.extend_from_slice(&[1, 2, 8, 9]);
    b.extend_from_slice(&[1, 3, 4, 5, 6]);
    assert_eq!(decode(&b), [3, 4, 5, 6]);
}

#[test]
fn signalling_nan_is_quieted() {
    let mut b = header(3, 1, 2, 1, 2, 8, 6, [0.0, 1.0, 2.0]);
    no_mask(&mut b);
    b.push(1);
    b.extend_from_slice(&0xff80_0001u32.to_le_bytes());
    b.extend_from_slice(&0x7fc0_1234u32.to_le_bytes());
    let mut expected = 0xffc0_0001u32.to_le_bytes().to_vec();
    expected.extend_from_slice(&0x7fc0_1234u32.to_le_bytes());
    assert_eq!(decode(&b), expected);
}

#[test]
fn missing_flags_are_refused() {
    let mut b = header(3, 1, 1, 1, 1, 8, 1, [0.5, 1.0, 2.0]);
    no_mask(&mut b);
    assert_eq!(fault(&b), "unexpected end of LERC blob");
    b.push(0);
    assert_eq!(fault(&b), "unexpected end of LERC blob");
}

#[test]
fn huffman_is_refused() {
    let huffman = "LERC2 Huffman-coded images are not supported by this decoder";
    for (version, dt, error) in [(2, 0, 0.5), (3, 1, 0.5), (6, 6, 0.0), (6, 7, -0.0)] {
        let mut b = header(version, 1, 1, 1, 1, 8, dt, [error, 1.0, 2.0]);
        no_mask(&mut b);
        if version >= 4 {
            let size = if dt == 6 { 4 } else { 8 };
            b.extend_from_slice(&vec![0u8; size]);
            b.extend_from_slice(&vec![1u8; size]);
        }
        b.extend_from_slice(&[0, 1]);
        assert_eq!(fault(&b), huffman);
    }
    // Without the flag a tile follows at once; its own flag is 2 here.
    for (version, dt, error) in [(1, 1, 0.5), (2, 1, 0.25), (2, 2, 0.5), (5, 6, 0.0)] {
        let mut b = header(version, 1, 1, 1, 1, 8, dt, [error, 1.0, 2.0]);
        no_mask(&mut b);
        if version >= 4 {
            b.extend_from_slice(&[0, 0, 0, 0, 1, 1, 1, 1]);
        }
        b.extend_from_slice(&[0, 2]);
        assert!(decode(&b).iter().all(|&x| x == 0));
    }
    // The flag says that the raster is not Huffman-coded.
    let mut b = header(3, 1, 1, 1, 1, 8, 1, [0.5, 1.0, 2.0]);
    no_mask(&mut b);
    b.extend_from_slice(&[0, 0, 3, 7]);
    assert_eq!(decode(&b), [7]);
}

#[test]
fn rasters_beyond_memory_are_not_decoded() {
    let mut b = header(4, 32768, 32768, i32::MAX, 0, 8, 7, [0.0, 1.0, 2.0]);
    no_mask(&mut b);
    assert!(!within_limits(&b));
    assert!(!can_decode(&b));
    assert!(try_decode(&b).is_none());
}

#[test]
fn tiles_that_cannot_be_counted_are_not_decoded() {
    // 2^31 - 1 rows of one column, in tiles of 32.
    let mut b = header(2, i32::MAX, 1, 1, i32::MAX, 32, 1, [1.0, 1.0, 2.0]);
    no_mask(&mut b);
    assert!(within_limits(&b));
    b.push(1);
    assert!(within_limits(&b));
    let last = b.len() - 1;
    b[last] = 0;
    assert!(!within_limits(&b));
    let mut b = header(2, i32::MAX, 1, 1, i32::MAX, 1, 1, [1.0, 1.0, 2.0]);
    no_mask(&mut b);
    b.push(0);
    assert!(within_limits(&b));
}
