//! Compression and hashing, done by the `zstd`, `flate2` and `xxhash-rust` crates.
//!
//! Each of these crates computes a function of its arguments alone. Its result is
//! named by a spec function, and beside the names stand only the facts that a
//! compressed text is not empty and decompresses to what it was made from.

use std::io::{Read, Write};

use vstd::prelude::*;

verus! {

/// What `zstd::bulk::compress` returns for `data` at `level`: the compressed
/// frame, or the text of its error.
pub uninterp spec fn zstd_bulk_compressed(data: Seq<u8>, level: i32) -> Result<Seq<u8>, Seq<char>>;

/// What `zstd::stream::write::Encoder` at `level` makes of `data` written at once:
/// the compressed frame, or the text of its error.
pub uninterp spec fn zstd_stream_compressed(data: Seq<u8>, level: i32) -> Result<
    Seq<u8>,
    Seq<char>,
>;

/// What `zstd::stream::decode_all` returns for `data`: the decompressed bytes, or
/// the text of its error.
pub uninterp spec fn zstd_stream_decoded(data: Seq<u8>) -> Result<Seq<u8>, Seq<char>>;

/// What `zstd::bulk::decompress_to_buffer` makes of `data` with a buffer of
/// `capacity` bytes: the bytes that it wrote there, or the text of its error.
pub uninterp spec fn zstd_bulk_decoded(data: Seq<u8>, capacity: usize) -> Result<
    Seq<u8>,
    Seq<char>,
>;

/// What `flate2::write::ZlibEncoder` at `level` makes of `data`: the zlib stream,
/// or the text of its error.
pub uninterp spec fn zlib_compressed(data: Seq<u8>, level: i32) -> Result<Seq<u8>, Seq<char>>;

/// What `flate2::read::ZlibDecoder` makes of `data`: the decompressed bytes, or the
/// text of its error.
pub uninterp spec fn zlib_decoded(data: Seq<u8>) -> Result<Seq<u8>, Seq<char>>;

/// What `flate2::read::GzDecoder` makes of `data`: the decompressed bytes, or the
/// text of its error.
pub uninterp spec fn gzip_decoded(data: Seq<u8>) -> Result<Seq<u8>, Seq<char>>;

/// What `xxhash_rust::xxh32::xxh32` returns for `data` with `seed`.
pub uninterp spec fn xxh32_of(data: Seq<u8>, seed: u32) -> u32;

/// A result with its parts taken by their views.
pub open spec fn result_view(result: Result<Vec<u8>, String>) -> Result<Seq<u8>, Seq<char>> {
    match result {
        Ok(bytes) => Ok(bytes@),
        Err(text) => Err(text@),
    }
}

/// Whether `result` is a success with the bytes `data`.
pub open spec fn yields(result: Result<Seq<u8>, Seq<char>>, data: Seq<u8>) -> bool {
    result matches Ok(bytes) && bytes == data
}

/// Calls `zstd::bulk::compress`. Claimed of it: the result is a function of the
/// data and the level, a frame is never empty, and both decoders get the data back
/// from it, the one with a buffer where the buffer has the size of the data.
#[verifier::external_body]
pub(crate) fn zstd_compress(data: &[u8], level: i32) -> (result: Result<Vec<u8>, String>)
    ensures
        result_view(result) == zstd_bulk_compressed(data@, level),
        result matches Ok(frame) ==> frame@.len() > 0,
        result matches Ok(frame) ==> yields(zstd_stream_decoded(frame@), data@),
        result matches Ok(frame) ==> yields(zstd_bulk_decoded(frame@, data@.len() as usize), data@),
{
    zstd::bulk::compress(data, level).map_err(|error| error.to_string())
}

/// Writes `data` at once to a `zstd::stream::write::Encoder` over a vector and
/// finishes it. Claimed of it: the result is a function of the data and the level,
/// and `zstd::stream::decode_all` gets the data back from it.
#[verifier::external_body]
pub(crate) fn zstd_stream_compress(data: &[u8], level: i32) -> (result: Result<Vec<u8>, String>)
    ensures
        result_view(result) == zstd_stream_compressed(data@, level),
        result matches Ok(frame) ==> yields(zstd_stream_decoded(frame@), data@),
{
    let mut encoder = zstd::stream::write::Encoder::new(Vec::new(), level).map_err(
        |error| error.to_string(),
    )?;
    encoder.write_all(data).map_err(|error| error.to_string())?;
    encoder.finish().map_err(|error| error.to_string())
}

/// Calls `zstd::stream::decode_all`. Claimed of it: the result is a function of the
/// data.
#[verifier::external_body]
pub(crate) fn zstd_stream_decode(data: &[u8]) -> (result: Result<Vec<u8>, String>)
    ensures
        result_view(result) == zstd_stream_decoded(data@),
{
    zstd::stream::decode_all(data).map_err(|error| error.to_string())
}

/// Calls `zstd::bulk::decompress_to_buffer` with a buffer of `capacity` bytes and
/// keeps the bytes that were written. Claimed of it: the result is a function of
/// the data and the size of the buffer. A buffer of more bytes than an `i32` counts
/// may be more than there can be.
#[verifier::external_body]
pub(crate) fn zstd_decompress(data: &[u8], capacity: usize) -> (result: Result<Vec<u8>, String>)
    requires
        capacity <= i32::MAX,
    ensures
        result_view(result) == zstd_bulk_decoded(data@, capacity),
{
    let mut buffer = vec![0u8; capacity];
    let written = zstd::bulk::decompress_to_buffer(data, buffer.as_mut_slice()).map_err(
        |error| error.to_string(),
    )?;
    buffer.truncate(written);
    Ok(buffer)
}

/// Writes `data` to a `flate2::write::ZlibEncoder` over a vector and finishes it.
/// Claimed of it: the result is a function of the data and the level, and
/// `flate2::read::ZlibDecoder` gets the data back from it. The encoder knows the
/// levels from 0 to 10 alone.
#[verifier::external_body]
pub(crate) fn zlib_compress(data: &[u8], level: i32) -> (result: Result<Vec<u8>, String>)
    requires
        0 <= level <= 10,
    ensures
        result_view(result) == zlib_compressed(data@, level),
        result matches Ok(stream) ==> yields(zlib_decoded(stream@), data@),
{
    let compression = flate2::Compression::new(level as u32);
    let mut encoder = flate2::write::ZlibEncoder::new(Vec::new(), compression);
    encoder.write_all(data).map_err(|error| error.to_string())?;
    encoder.finish().map_err(|error| error.to_string())
}

/// Reads a `flate2::read::ZlibDecoder` over `data` to its end. Claimed of it: the
/// result is a function of the data.
#[verifier::external_body]
pub(crate) fn zlib_decompress(data: &[u8]) -> (result: Result<Vec<u8>, String>)
    ensures
        result_view(result) == zlib_decoded(data@),
{
    let mut output: Vec<u8> = Vec::new();
    let mut decoder = flate2::read::ZlibDecoder::new(data);
    decoder.read_to_end(&mut output).map_err(|error| error.to_string())?;
    Ok(output)
}

/// Reads a `flate2::read::GzDecoder` over `data` to its end. Claimed of it: the
/// result is a function of the data.
#[verifier::external_body]
pub(crate) fn gzip_decompress(data: &[u8]) -> (result: Result<Vec<u8>, String>)
    ensures
        result_view(result) == gzip_decoded(data@),
{
    let mut output: Vec<u8> = Vec::new();
    let mut decoder = flate2::read::GzDecoder::new(data);
    decoder.read_to_end(&mut output).map_err(|error| error.to_string())?;
    Ok(output)
}

/// Calls `xxhash_rust::xxh32::xxh32`. Claimed of it: the result is a function of the
/// data and the seed.
#[verifier::external_body]
pub(crate) fn xxh32(data: &[u8], seed: u32) -> (hash: u32)
    ensures
        hash == xxh32_of(data@, seed),
{
    xxhash_rust::xxh32::xxh32(data, seed)
}

} // verus!
