//! LZ4 compression of asset files.
use std::io::Read;
use std::io::Write;
use vstd::prelude::*;

verus! {

/// Declares `std::io::Error`, the error of the LZ4 encoder and decoder.
#[verifier::external_type_specification]
#[verifier::external_body]
pub struct ExIoError(std::io::Error);

/// The LZ4 frame that the encoder writes for `data` at compression `level`.
pub uninterp spec fn lz4_frame(data: Seq<u8>, level: u8) -> Seq<u8>;

/// What `lz4::Decoder` reads to the end from `frame`, or `None` when it fails
/// (on a frame whose header, blocks or checksums do not decode).
pub uninterp spec fn lz4_content(frame: Seq<u8>) -> Option<Seq<u8>>;

/// Compresses `data` with `lz4::EncoderBuilder` at the given level into a vector.
///
/// Trusted: encoding into a vector succeeds (the encoder only fails when its
/// LZ4 context cannot be made, which allocation failure alone causes); the
/// result is the LZ4 frame for `data` and `level`, and the decoder reads that
/// frame back to `data` (LZ4 is lossless).
#[verifier::external_body]
fn lz4_compress(data: &[u8], level: u8) -> (r: Result<Vec<u8>, std::io::Error>)
    ensures
        r is Ok,
        r matches Ok(out) ==> out@ == lz4_frame(data@, level),
        r matches Ok(out) ==> lz4_content(out@) == Some(data@),
{
    let mut encoder = lz4::EncoderBuilder::new().level(level as u32).build(Vec::new())?;
    encoder.write_all(data)?;
    let (out, result) = encoder.finish();
    result.map(|_| out)
}

/// Decompresses `frame` with `lz4::Decoder`, reading it to its end.
///
/// Trusted: the result is what the decoder reads (`lz4_content`): it succeeds
/// exactly when the decoder does. Note that the decoder stops without error where
/// its input ends, so an empty or cut-short input may succeed too.
#[verifier::external_body]
fn lz4_decompress(frame: &[u8]) -> (r: Result<Vec<u8>, std::io::Error>)
    ensures
        match lz4_content(frame@) {
            Some(c) => r matches Ok(out) && out@ == c,
            None => r is Err,
        },
{
    let mut decoder = lz4::Decoder::new(std::io::Cursor::new(frame))?;
    let mut out = Vec::new();
    decoder.read_to_end(&mut out)?;
    Ok(out)
}

/// Compresses the data of an asset file at the given LZ4 compression level: the
/// LZ4 frame of `file_data`.
pub fn compress_asset(file_data: &[u8], level: u8) -> (r: Option<Vec<u8>>)
    ensures
        r matches Some(out) && out@ == lz4_frame(file_data@, level) && lz4_content(out@) == Some(
            file_data@,
        ),
{
    match lz4_compress(file_data, level) {
        Ok(out) => Some(out),
        Err(_) => None,
    }
}

/// Decompresses the data of a compressed asset file: what the LZ4 decoder reads
/// from it, or `None` when the decoder fails.
pub fn decompress(compressed: &[u8]) -> (r: Option<Vec<u8>>)
    ensures
        match lz4_content(compressed@) {
            Some(c) => r matches Some(out) && out@ == c,
            None => r is None,
        },
{
    match lz4_decompress(compressed) {
        Ok(out) => Some(out),
        Err(_) => None,
    }
}

} // verus!
