//! What the decoder reports about a blob it cannot decode.
use vstd::prelude::*;

verus! {

/// The TIFF compression tag of LERC.
pub const LERC_COMPRESSION: u16 = 34887;

/// Why a blob was not decoded.
#[derive(Debug)]
pub enum LercError {
    /// The blob is damaged or uses a part of the format that is not decoded; the
    /// text says which.
    InvalidData(String),
    /// The blob is of a format of the given TIFF compression tag that is not decoded
    /// at all.
    UnsupportedCompression(u16),
}

/// What contracts say about a `LercError`.
pub enum Fault {
    InvalidData(Seq<char>),
    UnsupportedCompression(u16),
}

impl View for LercError {
    type V = Fault;

    open spec fn view(&self) -> Fault {
        match self {
            LercError::InvalidData(text) => Fault::InvalidData(text@),
            LercError::UnsupportedCompression(tag) => Fault::UnsupportedCompression(*tag),
        }
    }
}

/// A result with its error taken by its view.
pub open spec fn viewed<T>(r: Result<T, LercError>) -> Result<T, Fault> {
    match r {
        Ok(value) => Ok(value),
        Err(error) => Err(error@),
    }
}

/// A result with its bytes and its error taken by their views.
pub open spec fn contents(r: Result<Vec<u8>, LercError>) -> Result<Seq<u8>, Fault> {
    match r {
        Ok(bytes) => Ok(bytes@),
        Err(error) => Err(error@),
    }
}

/// The error for invalid data with the given text.
pub fn lerc_err(msg: &str) -> (e: LercError)
    ensures
        e@ == Fault::InvalidData(msg@),
{
    LercError::InvalidData(msg.to_string())
}

} // verus!
