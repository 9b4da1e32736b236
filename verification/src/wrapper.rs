//! The compression that may be wrapped around a LERC2 stream.
use std::borrow::Cow;
use std::io::Read;

use vstd::prelude::*;
use vstd::string::StringExecFns;

use crate::error;
use crate::error::{Fault, LercError, LERC_COMPRESSION};
use crate::header;

verus! {

/// What a blob is, as its first bytes say.
#[derive(Clone, Copy, Debug, PartialEq, Eq, Structural)]
pub enum Wrapper {
    /// A LERC2 stream.
    Bare,
    /// A LERC1 stream.
    Lerc1,
    /// A zstd frame.
    Zstd,
    /// A zlib stream.
    Deflate,
    /// Nothing that is known.
    Unknown,
}

/// The bytes that a zstd frame starts with.
pub open spec fn zstd_magic() -> Seq<u8> {
    seq![0x28, 0xb5, 0x2f, 0xfd]
}

/// The byte that a zlib stream starts with.
pub open spec fn zlib_magic() -> Seq<u8> {
    seq![0x78]
}

/// What a blob is, as its first bytes say.
pub open spec fn wrapper_of_spec(blob: Seq<u8>) -> Wrapper {
    if header::lerc2_magic().is_prefix_of(blob) {
        Wrapper::Bare
    } else if header::lerc1_magic().is_prefix_of(blob) {
        Wrapper::Lerc1
    } else if zstd_magic().is_prefix_of(blob) {
        Wrapper::Zstd
    } else if zlib_magic().is_prefix_of(blob) {
        Wrapper::Deflate
    } else {
        Wrapper::Unknown
    }
}

/// The bytes that `zstd::stream::decode_all` gives for a blob, or the text of its
/// error.
pub uninterp spec fn zstd_decoded(blob: Seq<u8>) -> Result<Seq<u8>, Seq<char>>;

/// The bytes that a `flate2::read::ZlibDecoder` on a blob gives when it is read to its
/// end, or the text of its error.
pub uninterp spec fn zlib_decoded(blob: Seq<u8>) -> Result<Seq<u8>, Seq<char>>;

/// What a decompressor gave, its bytes and its text taken by their views.
pub open spec fn decompressed(r: Result<Vec<u8>, String>) -> Result<Seq<u8>, Seq<char>> {
    match r {
        Ok(bytes) => Ok(bytes@),
        Err(text) => Err(text@),
    }
}

/// What a decompressor gave, with `prefix` before the text of its error.
pub open spec fn reported(prefix: Seq<char>, r: Result<Seq<u8>, Seq<char>>) -> Result<
    Seq<u8>,
    Fault,
> {
    match r {
        Ok(bytes) => Ok(bytes),
        Err(text) => Err(Fault::InvalidData(prefix + text)),
    }
}

/// What a zstd frame holds.
pub open spec fn unwrapped_zstd(r: Result<Seq<u8>, Seq<char>>) -> Result<Seq<u8>, Fault> {
    reported("LERC zstd wrapper: "@, r)
}

/// What a zlib stream holds.
pub open spec fn unwrapped_zlib(r: Result<Seq<u8>, Seq<char>>) -> Result<Seq<u8>, Fault> {
    reported("LERC deflate wrapper: "@, r)
}

/// The LERC2 stream of a blob, where `zstd` and `zlib` are what decompressing it gives.
pub open spec fn stripped_with(
    blob: Seq<u8>,
    zstd: Result<Seq<u8>, Seq<char>>,
    zlib: Result<Seq<u8>, Seq<char>>,
) -> Result<Seq<u8>, Fault> {
    match wrapper_of_spec(blob) {
        Wrapper::Bare => Ok(blob),
        Wrapper::Lerc1 => Err(Fault::UnsupportedCompression(LERC_COMPRESSION)),
        Wrapper::Zstd => unwrapped_zstd(zstd),
        Wrapper::Deflate => unwrapped_zlib(zlib),
        Wrapper::Unknown => Err(
            Fault::InvalidData("unrecognized LERC add-compression wrapper"@),
        ),
    }
}

/// The LERC2 stream of a blob.
pub open spec fn stripped(blob: Seq<u8>) -> Result<Seq<u8>, Fault> {
    stripped_with(blob, zstd_decoded(blob), zlib_decoded(blob))
}

/// The result with its bytes and its error taken by their views.
pub open spec fn viewed_cow(r: Result<Cow<'_, [u8]>, LercError>) -> Result<Seq<u8>, Fault> {
    match r {
        Ok(bytes) => Ok(bytes@),
        Err(error) => Err(error@),
    }
}

/// Calls `zstd::stream::decode_all`, which decompresses all zstd frames that a blob
/// holds; an error is given by its text.  The result depends on the bytes of the blob
/// alone; what it is for which bytes is left to `zstd_decoded`.
#[verifier::external_body]
fn zstd_decompress(blob: &[u8]) -> (r: Result<Vec<u8>, String>)
    ensures
        decompressed(r) == zstd_decoded(blob@),
{
    match zstd::stream::decode_all(blob) {
        Ok(bytes) => Ok(bytes),
        Err(e) => Err(e.to_string()),
    }
}

/// Reads a `flate2::read::ZlibDecoder` on a blob to its end, which decompresses the
/// zlib stream that the blob starts with; an error is given by its text.  The result
/// depends on the bytes of the blob alone; what it is for which bytes is left to
/// `zlib_decoded`.
#[verifier::external_body]
fn zlib_decompress(blob: &[u8]) -> (r: Result<Vec<u8>, String>)
    ensures
        decompressed(r) == zlib_decoded(blob@),
{
    let mut bytes: Vec<u8> = Vec::new();
    match flate2::read::ZlibDecoder::new(blob).read_to_end(&mut bytes) {
        Ok(_) => Ok(bytes),
        Err(e) => Err(e.to_string()),
    }
}

/// Says which blob a blob is.
pub fn wrapper_of(blob: &[u8]) -> (w: Wrapper)
    ensures
        w == wrapper_of_spec(blob@),
{
    let lerc2: [u8; 6] = [0x4c, 0x65, 0x72, 0x63, 0x32, 0x20];
    let lerc1: [u8; 9] = [0x43, 0x6e, 0x74, 0x5a, 0x49, 0x6d, 0x61, 0x67, 0x65];
    let zstd: [u8; 4] = [0x28, 0xb5, 0x2f, 0xfd];
    let zlib: [u8; 1] = [0x78];
    assert(lerc2@ =~= header::lerc2_magic());
    assert(lerc1@ =~= header::lerc1_magic());
    assert(zstd@ =~= zstd_magic());
    assert(zlib@ =~= zlib_magic());
    if header::starts_with(blob, &lerc2) {
        Wrapper::Bare
    } else if header::starts_with(blob, &lerc1) {
        Wrapper::Lerc1
    } else if header::starts_with(blob, &zstd) {
        Wrapper::Zstd
    } else if header::starts_with(blob, &zlib) {
        Wrapper::Deflate
    } else {
        Wrapper::Unknown
    }
}

/// Turns what a decompressor gave into a result of this library, with `prefix` before
/// the text of an error.
pub fn report(prefix: &str, r: Result<Vec<u8>, String>) -> (res: Result<Vec<u8>, LercError>)
    ensures
        error::contents(res) == reported(prefix@, decompressed(r)),
{
    match r {
        Ok(bytes) => Ok(bytes),
        Err(text) => {
            let mut message: String = prefix.to_string();
            message.append(text.as_str());
            Err(LercError::InvalidData(message))
        },
    }
}

/// Decompresses a blob that is wrapped with zstd.
pub fn zstd_decode_all(blob: &[u8]) -> (res: Result<Vec<u8>, LercError>)
    ensures
        error::contents(res) == unwrapped_zstd(zstd_decoded(blob@)),
{
    report("LERC zstd wrapper: ", zstd_decompress(blob))
}

/// Decompresses a blob that is wrapped with zlib.
pub fn deflate_decode_all(blob: &[u8]) -> (res: Result<Vec<u8>, LercError>)
    ensures
        error::contents(res) == unwrapped_zlib(zlib_decoded(blob@)),
{
    report("LERC deflate wrapper: ", zlib_decompress(blob))
}

/// Takes off the compression that may be wrapped around a LERC2 stream.
pub fn strip_add_compression(blob: &[u8]) -> (res: Result<Cow<'_, [u8]>, LercError>)
    ensures
        viewed_cow(res) == stripped(blob@),
{
    match wrapper_of(blob) {
        Wrapper::Bare => Ok(Cow::Borrowed(blob)),
        Wrapper::Lerc1 => Err(LercError::UnsupportedCompression(LERC_COMPRESSION)),
        Wrapper::Zstd => {
            let bytes: Vec<u8> = zstd_decode_all(blob)?;
            Ok(Cow::Owned(bytes))
        },
        Wrapper::Deflate => {
            let bytes: Vec<u8> = deflate_decode_all(blob)?;
            Ok(Cow::Owned(bytes))
        },
        Wrapper::Unknown => Err(error::lerc_err("unrecognized LERC add-compression wrapper")),
    }
}

/// The bytes of a stream that is borrowed or owned.
pub fn bytes_of<'a>(stream: &'a Cow<'_, [u8]>) -> (bytes: &'a [u8])
    ensures
        bytes@ == stream@,
{
    match stream {
        Cow::Borrowed(bytes) => bytes,
        Cow::Owned(bytes) => bytes.as_slice(),
    }
}

} // verus!
