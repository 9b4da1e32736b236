//! Compression around a stream, and reading a decoded raster in parts.
use std::io::Write;

use lerc::blob::{can_decode, decode_lerc_blob};
use lerc::error::LercError;
use lerc::lerc_reader::LercReader;
use lerc::wrapper::{
    bytes_of, deflate_decode_all, report, strip_add_compression, wrapper_of, zstd_decode_all,
    Wrapper,
};

/// A stream of six bytes 1, 2, ..., 6.
fn stream() -> Vec<u8> {
    let mut b = b"Lerc2 ".to_vec();
    for v in [2i32, 2, 3, 6, 8, 1, 1] {
        b.extend_from_slice(&v.to_le_bytes());
    }
    for z in [0.0f64, 1.0, 6.0] {
        b.extend_from_slice(&z.to_le_bytes());
    }
    b.extend_from_slice(&0i32.to_le_bytes());
    b.extend_from_slice(&[1, 1, 2, 3, 4, 5, 6]);
    b
}

fn zstd_wrapped(s: &[u8]) -> Vec<u8> {
    zstd::stream::encode_all(s, 3).unwrap()
}

fn zlib_wrapped(s: &[u8]) -> Vec<u8> {
    let mut e = flate2::write::ZlibEncoder::new(Vec::new(), flate2::Compression::default());
    e.write_all(s).unwrap();
    e.finish().unwrap()
}

fn text(e: LercError) -> String {
    match e {
        LercError::InvalidData(text) => text,
        LercError::UnsupportedCompression(tag) => format!("unsupported {tag}"),
    }
}

#[test]
fn wrappers_are_told_apart() {
    assert_eq!(wrapper_of(&stream()), Wrapper::Bare);
    assert_eq!(wrapper_of(b"CntZImage and more"), Wrapper::Lerc1);
    assert_eq!(wrapper_of(&zstd_wrapped(&stream())), Wrapper::Zstd);
    assert_eq!(wrapper_of(&zlib_wrapped(&stream())), Wrapper::Deflate);
    assert_eq!(wrapper_of(&[0x78]), Wrapper::Deflate);
    assert_eq!(wrapper_of(b"Lerc2"), Wrapper::Unknown);
    assert_eq!(wrapper_of(b"CntZImag"), Wrapper::Unknown);
    assert_eq!(wrapper_of(&[]), Wrapper::Unknown);
}

#[test]
fn bare_stream_is_borrowed() {
    let s = stream();
    let stripped = strip_add_compression(&s).unwrap();
    assert!(matches!(stripped, std::borrow::Cow::Borrowed(_)));
    assert_eq!(bytes_of(&stripped), &s[..]);
    assert_eq!(decode_lerc_blob(&s).unwrap(), [1, 2, 3, 4, 5, 6]);
}

#[test]
fn zstd_wrapper_is_transparent() {
    let wrapped = zstd_wrapped(&stream());
    assert_eq!(zstd_decode_all(&wrapped).unwrap(), stream());
    assert_eq!(bytes_of(&strip_add_compression(&wrapped).unwrap()), &stream()[..]);
    assert_eq!(decode_lerc_blob(&wrapped).unwrap(), [1, 2, 3, 4, 5, 6]);
}

#[test]
fn zlib_wrapper_is_transparent() {
    let wrapped = zlib_wrapped(&stream());
    assert_eq!(deflate_decode_all(&wrapped).unwrap(), stream());
    assert_eq!(bytes_of(&strip_add_compression(&wrapped).unwrap()), &stream()[..]);
    assert_eq!(decode_lerc_blob(&wrapped).unwrap(), [1, 2, 3, 4, 5, 6]);
}

#[test]
fn damaged_wrappers_are_reported() {
    let mut wrapped = zstd_wrapped(&stream());
    wrapped.truncate(wrapped.len() - 3);
    let e = text(decode_lerc_blob(&wrapped).unwrap_err());
    assert!(e.starts_with("LERC zstd wrapper: "), "{e}");
    let cause = zstd::stream::decode_all(&wrapped[..]).unwrap_err().to_string();
    assert_eq!(e, format!("LERC zstd wrapper: {cause}"));
    let e = text(decode_lerc_blob(&[0x78, 1, 2, 3]).unwrap_err());
    assert!(e.starts_with("LERC deflate wrapper: "), "{e}");
    assert!(e.len() > "LERC deflate wrapper: ".len());
}

#[test]
fn reports_carry_the_text() {
    assert_eq!(report("p: ", Ok(vec![1, 2])).unwrap(), [1, 2]);
    assert_eq!(text(report("p: ", Err("cause".to_string())).unwrap_err()), "p: cause");
}

#[test]
fn only_one_wrapper_is_taken_off() {
    let twice = zlib_wrapped(&zstd_wrapped(&stream()));
    assert_eq!(text(decode_lerc_blob(&twice).unwrap_err()), "not a LERC2 blob");
}

#[test]
fn lerc1_is_unsupported() {
    let e = decode_lerc_blob(b"CntZImage and more").unwrap_err();
    assert!(matches!(e, LercError::UnsupportedCompression(34887)));
}

#[test]
fn unknown_wrapper_is_refused() {
    let unknown = "unrecognized LERC add-compression wrapper";
    assert_eq!(text(decode_lerc_blob(&[]).unwrap_err()), unknown);
    assert_eq!(text(decode_lerc_blob(b"Lerc2").unwrap_err()), unknown);
}

#[test]
fn reads_make_up_the_raster() {
    let s = stream();
    let mut reader = LercReader::new(&s, s.len() as u64).unwrap();
    let mut four = [0u8; 4];
    assert_eq!(reader.read(&mut four), 4);
    assert_eq!(four, [1, 2, 3, 4]);
    assert_eq!(reader.read(&mut []), 0);
    assert_eq!(reader.read(&mut four), 2);
    assert_eq!(four, [5, 6, 3, 4]);
    assert_eq!(reader.read(&mut four), 0);
    assert_eq!(four, [5, 6, 3, 4]);
}

#[test]
fn only_the_given_length_is_decoded() {
    let mut s = stream();
    let len = s.len() as u64;
    s.extend_from_slice(b"the next tile");
    let mut all = [0u8; 8];
    assert_eq!(LercReader::new(&s, len).unwrap().read(&mut all), 6);
    assert_eq!(LercReader::new(&s, u64::MAX).unwrap().read(&mut all), 6);
    let e = LercReader::new(&s, len - 1).unwrap_err();
    assert_eq!(text(e), "unexpected end of LERC blob");
    let e = LercReader::try_new(&s, 3).unwrap().unwrap_err();
    assert_eq!(text(e), "unrecognized LERC add-compression wrapper");
    assert_eq!(LercReader::try_new(&s, len).unwrap().unwrap().read(&mut all), 6);
}

#[test]
fn wrapped_rasters_beyond_memory_are_not_decoded() {
    let mut b = b"Lerc2 ".to_vec();
    for v in [4i32, 0, 32768, 32768, i32::MAX, 0, 8, 1, 7] {
        b.extend_from_slice(&v.to_le_bytes());
    }
    b.extend_from_slice(&[0; 28]);
    let wrapped = zstd_wrapped(&b);
    assert!(!can_decode(&wrapped));
    assert!(LercReader::try_new(&wrapped, wrapped.len() as u64).is_none());
}
