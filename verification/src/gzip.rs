//! The compression adapter: wraps the archive byte stream in gzip
//! (DEFLATE framing) through an external codec, so the writer and reader
//! stay compression-agnostic. Corrupt compressed streams surface as
//! `CompressionError`, distinct from every archive-format error.

use vstd::prelude::*;
use crate::errors::CompressionError;

verus! {

/// What gzip-decompressing a byte stream yields: the decompressed bytes,
/// or nothing when the stream is not well-formed gzip. Decompression is a
/// function of the compressed bytes alone.
pub uninterp spec fn gunzip_of(s: Seq<u8>) -> Option<Seq<u8>>;

/// Relies on flate2's `write::GzEncoder` and `read::GzDecoder`:
/// decompressing what the encoder produced yields the original bytes.
/// Writing into a `Vec` sink cannot fail.
#[verifier::external_body]
fn gzip_raw(data: &Vec<u8>) -> (r: Vec<u8>)
    ensures
        gunzip_of(r@) == Some(data@),
{
    let mut enc = flate2::write::GzEncoder::new(Vec::new(), flate2::Compression::default());
    std::io::Write::write_all(&mut enc, data.as_slice()).expect("a Vec sink accepts all writes");
    enc.finish().expect("a Vec sink accepts all writes")
}

/// Relies on flate2's `read::GzDecoder`: yields the decompressed bytes of
/// a well-formed gzip stream, and an error on a corrupt one.
#[verifier::external_body]
fn gunzip_raw(data: &Vec<u8>) -> (r: Option<Vec<u8>>)
    ensures
        match r {
            Some(d) => gunzip_of(data@) == Some(d@),
            None => gunzip_of(data@) is None,
        },
{
    let mut dec = flate2::read::GzDecoder::new(data.as_slice());
    let mut out = Vec::new();
    match std::io::Read::read_to_end(&mut dec, &mut out) {
        Ok(_) => Some(out),
        Err(_) => None,
    }
}

/// Compresses `data`; decompressing the result yields `data` again.
pub fn compress(data: &Vec<u8>) -> (r: Vec<u8>)
    ensures
        gunzip_of(r@) == Some(data@),
{
    gzip_raw(data)
}

/// Decompresses a gzip stream, or reports the stream as corrupt.
pub fn decompress(data: &Vec<u8>) -> (r: Result<Vec<u8>, CompressionError>)
    ensures
        match r {
            Ok(d) => gunzip_of(data@) == Some(d@),
            Err(e) => gunzip_of(data@) is None && e == CompressionError::CorruptStream,
        },
{
    match gunzip_raw(data) {
        Some(d) => Ok(d),
        None => Err(CompressionError::CorruptStream),
    }
}

} // verus!
