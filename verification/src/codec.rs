//! Lossless compression of stored payloads (raw DEFLATE).
use crate::error::Error;
use std::io::{Read, Write};
use vstd::prelude::*;

verus! {

/// `std::io::Error`, the failure that the encoder and the decoder report.
/// Nothing is said of what it holds.
#[verifier::external_type_specification]
#[verifier::external_body]
pub struct ExIoError(std::io::Error);

/// The DEFLATE stream that the encoder produces for a content at the default
/// level, or `None` where the encoder reports a failure.
pub uninterp spec fn deflated(data: Seq<u8>) -> Option<Seq<u8>>;

/// The content that the decoder reads from a DEFLATE stream, or `None` where
/// the stream is corrupt or incomplete.
pub uninterp spec fn inflated(data: Seq<u8>) -> Option<Seq<u8>>;

/// Calls `flate2::write::DeflateEncoder` (`new` over an empty vector at
/// `Compression::default()`, `write_all`, `finish`). The outcome is a function
/// of the input alone, named `deflated`. The compression is lossless: what the
/// encoder produced, the decoder reads back as the input.
#[verifier::external_body]
fn deflate_raw(data: &[u8]) -> (r: Result<Vec<u8>, std::io::Error>)
    ensures
        match r {
            Ok(out) => deflated(data@) == Some(out@) && inflated(out@) == Some(data@),
            Err(_) => deflated(data@) is None,
        },
{
    let mut encoder = flate2::write::DeflateEncoder::new(
        Vec::new(),
        flate2::Compression::default(),
    );
    encoder.write_all(data)?;
    encoder.finish()
}

/// Calls `flate2::read::DeflateDecoder` (`new` over the input, `read_to_end`).
/// The outcome is a function of the input alone, named `inflated`.
#[verifier::external_body]
fn inflate_raw(data: &[u8]) -> (r: Result<Vec<u8>, std::io::Error>)
    ensures
        match r {
            Ok(out) => inflated(data@) == Some(out@),
            Err(_) => inflated(data@) is None,
        },
{
    let mut out = Vec::new();
    let mut decoder = flate2::read::DeflateDecoder::new(data);
    decoder.read_to_end(&mut out)?;
    Ok(out)
}

/// Compresses a payload for storage.
pub fn compress(data: &[u8]) -> (r: Result<Vec<u8>, Error>)
    ensures
        match r {
            Ok(out) => deflated(data@) == Some(out@) && inflated(out@) == Some(data@),
            Err(e) => deflated(data@) is None && e == Error::IOFailure,
        },
{
    match deflate_raw(data) {
        Ok(out) => Ok(out),
        Err(_) => Err(Error::IOFailure),
    }
}

/// Restores a payload from its stored form.
pub fn decompress(data: &[u8]) -> (r: Result<Vec<u8>, Error>)
    ensures
        match r {
            Ok(out) => inflated(data@) == Some(out@),
            Err(e) => inflated(data@) is None && e == Error::IOFailure,
        },
{
    match inflate_raw(data) {
        Ok(out) => Ok(out),
        Err(_) => Err(Error::IOFailure),
    }
}

} // verus!
