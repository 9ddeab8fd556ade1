//! Encoding payloads on the way in and decoding them on the way out.

use crate::archive::CompressionFormat;
use std::io::Read;
use std::io::Write;
use vstd::prelude::*;

verus! {

/// The raw DEFLATE stream that the encoder writes for `data` at the default
/// level, or `None` where the encoder reports an error.
pub uninterp spec fn deflate_encoded(data: Seq<u8>) -> Option<Seq<u8>>;

/// What the DEFLATE decoder reads out of `data` up to the end of its first
/// stream, or `None` where it reports an error.
pub uninterp spec fn deflate_decoded(data: Seq<u8>) -> Option<Seq<u8>>;

/// The gzip member that the encoder writes for `data` at the default level,
/// or `None` where the encoder reports an error.
pub uninterp spec fn gzip_encoded(data: Seq<u8>) -> Option<Seq<u8>>;

/// What the gzip decoder reads out of the first member of `data`, or `None`
/// where it reports an error.
pub uninterp spec fn gzip_decoded(data: Seq<u8>) -> Option<Seq<u8>>;

/// The Brotli stream that the encoder writes for `data` at quality 11 with a
/// window of 22 bits, or `None` where the encoder reports an error. The
/// encoder is built with its feature `portable-float`: its cost estimates
/// then come from tables and not from the math library of the platform, and
/// the stream is the same on every target.
pub uninterp spec fn brotli_encoded(data: Seq<u8>) -> Option<Seq<u8>>;

/// What the Brotli decoder reads out of `data`, or `None` where it reports an
/// error.
pub uninterp spec fn brotli_decoded(data: Seq<u8>) -> Option<Seq<u8>>;

/// Calls `flate2::write::DeflateEncoder` on an empty `Vec` (`new`, `write_all`,
/// `finish`). Believed, not proved: the output is a function of the input, and
/// the decoder of the same crate reads the input back out of it (DEFLATE is
/// lossless).
#[verifier::external_body]
fn deflate_encode(data: &[u8]) -> (out: Option<Vec<u8>>)
    ensures
        out.is_some() == deflate_encoded(data@).is_some(),
        out.is_some() ==> out.unwrap()@ == deflate_encoded(data@).unwrap(),
        out.is_some() ==> deflate_decoded(out.unwrap()@) == Some(data@),
{
    let mut encoder = flate2::write::DeflateEncoder::new(Vec::new(), flate2::Compression::default());
    match encoder.write_all(data) {
        Ok(()) => encoder.finish().ok(),
        Err(_) => None,
    }
}

/// Calls `flate2::read::DeflateDecoder` on `data` and reads it to its end.
/// Believed, not proved: the output is a function of the input.
#[verifier::external_body]
fn deflate_decode(data: &[u8]) -> (out: Option<Vec<u8>>)
    ensures
        out.is_some() == deflate_decoded(data@).is_some(),
        out.is_some() ==> out.unwrap()@ == deflate_decoded(data@).unwrap(),
{
    let mut out = Vec::new();
    match flate2::read::DeflateDecoder::new(data).read_to_end(&mut out) {
        Ok(_) => Some(out),
        Err(_) => None,
    }
}

/// Calls `flate2::write::GzEncoder` on an empty `Vec` (`new`, `write_all`,
/// `finish`). Believed, not proved: the output is a function of the input
/// (the header carries no time and no file name), and the decoder of the same
/// crate reads the input back out of it.
#[verifier::external_body]
fn gzip_encode(data: &[u8]) -> (out: Option<Vec<u8>>)
    ensures
        out.is_some() == gzip_encoded(data@).is_some(),
        out.is_some() ==> out.unwrap()@ == gzip_encoded(data@).unwrap(),
        out.is_some() ==> gzip_decoded(out.unwrap()@) == Some(data@),
{
    let mut encoder = flate2::write::GzEncoder::new(Vec::new(), flate2::Compression::default());
    match encoder.write_all(data) {
        Ok(()) => encoder.finish().ok(),
        Err(_) => None,
    }
}

/// Calls `flate2::read::GzDecoder` on `data` and reads it to its end.
/// Believed, not proved: the output is a function of the input.
#[verifier::external_body]
fn gzip_decode(data: &[u8]) -> (out: Option<Vec<u8>>)
    ensures
        out.is_some() == gzip_decoded(data@).is_some(),
        out.is_some() ==> out.unwrap()@ == gzip_decoded(data@).unwrap(),
{
    let mut out = Vec::new();
    match flate2::read::GzDecoder::new(data).read_to_end(&mut out) {
        Ok(_) => Some(out),
        Err(_) => None,
    }
}

/// Calls `brotli::CompressorWriter` on an empty `Vec` with a buffer of 4096
/// bytes, quality 11 and a window of 22 bits (`new`, `write_all`,
/// `into_inner`, which closes the stream). Believed, not proved: the output is
/// a function of the input, and the decoder reads the input back out of it.
/// The first holds only of an encoder that is built with the feature
/// `portable-float`, which this crate asks for: without it the logarithms of
/// the cost estimates are those of the platform, and a difference in their
/// last digit can move a block boundary.
#[verifier::external_body]
fn brotli_encode(data: &[u8]) -> (out: Option<Vec<u8>>)
    ensures
        out.is_some() == brotli_encoded(data@).is_some(),
        out.is_some() ==> out.unwrap()@ == brotli_encoded(data@).unwrap(),
        out.is_some() ==> brotli_decoded(out.unwrap()@) == Some(data@),
{
    let mut encoder = brotli::CompressorWriter::new(Vec::new(), 4096, 11, 22);
    match encoder.write_all(data) {
        Ok(()) => Some(encoder.into_inner()),
        Err(_) => None,
    }
}

/// Calls `brotli::Decompressor` on `data` with a buffer of 4096 bytes and
/// reads it to its end. Believed, not proved: the output is a function of the
/// input.
#[verifier::external_body]
fn brotli_decode(data: &[u8]) -> (out: Option<Vec<u8>>)
    ensures
        out.is_some() == brotli_decoded(data@).is_some(),
        out.is_some() ==> out.unwrap()@ == brotli_decoded(data@).unwrap(),
{
    let mut out = Vec::new();
    match brotli::Decompressor::new(data, 4096).read_to_end(&mut out) {
        Ok(_) => Some(out),
        Err(_) => None,
    }
}

/// The stored form of `data` under `format`.
pub open spec fn compressed(format: CompressionFormat, data: Seq<u8>) -> Option<Seq<u8>> {
    match format {
        CompressionFormat::Uncompressed => Some(data),
        CompressionFormat::Gzip => gzip_encoded(data),
        CompressionFormat::Deflate => deflate_encoded(data),
        CompressionFormat::Brotli => brotli_encoded(data),
    }
}

/// What a stored form holds under `format`.
pub open spec fn decompressed(format: CompressionFormat, data: Seq<u8>) -> Option<Seq<u8>> {
    match format {
        CompressionFormat::Uncompressed => Some(data),
        CompressionFormat::Gzip => gzip_decoded(data),
        CompressionFormat::Deflate => deflate_decoded(data),
        CompressionFormat::Brotli => brotli_decoded(data),
    }
}

/// Encodes `data` under `format`. What comes out decodes to `data` again.
pub fn compress(format: CompressionFormat, data: &[u8]) -> (out: Option<Vec<u8>>)
    ensures
        out.is_some() == compressed(format, data@).is_some(),
        out.is_some() ==> out.unwrap()@ == compressed(format, data@).unwrap(),
        out.is_some() ==> decompressed(format, out.unwrap()@) == Some(data@),
{
    match format {
        CompressionFormat::Uncompressed => Some(copy_bytes(data)),
        CompressionFormat::Gzip => gzip_encode(data),
        CompressionFormat::Deflate => deflate_encode(data),
        CompressionFormat::Brotli => brotli_encode(data),
    }
}

/// Decodes `data` under `format`.
pub fn decompress(format: CompressionFormat, data: &[u8]) -> (out: Option<Vec<u8>>)
    ensures
        out.is_some() == decompressed(format, data@).is_some(),
        out.is_some() ==> out.unwrap()@ == decompressed(format, data@).unwrap(),
{
    match format {
        CompressionFormat::Uncompressed => Some(copy_bytes(data)),
        CompressionFormat::Gzip => gzip_decode(data),
        CompressionFormat::Deflate => deflate_decode(data),
        CompressionFormat::Brotli => brotli_decode(data),
    }
}

/// An owned copy of `data`.
pub fn copy_bytes(data: &[u8]) -> (out: Vec<u8>)
    ensures
        out@ == data@,
{
    let mut out: Vec<u8> = Vec::new();
    let mut i: usize = 0;
    while i < data.len()
        invariant
            i <= data.len(),
            out@ == data@.take(i as int),
        decreases data.len() - i,
    {
        out.push(data[i]);
        i = i + 1;
        assert(out@ =~= data@.take(i as int));
    }
    assert(data@.take(data.len() as int) =~= data@);
    out
}

} // verus!
