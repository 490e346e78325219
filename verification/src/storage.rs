//! The brain file: the brain's encoded bytes, compressed with brotli.
use vstd::prelude::*;

verus! {

/// The bytes that brotli decompression makes of `data`, or `None` where
/// `data` does not start with a complete brotli stream (bytes after the
/// stream's end play no part).
pub uninterp spec fn brotli_decompressed(data: Seq<u8>) -> Option<Seq<u8>>;

/// The brotli stream that compression at the default settings makes of
/// `data`, or `None` where the compressor reports a failure.
pub uninterp spec fn brotli_compressed(data: Seq<u8>) -> Option<Seq<u8>>;

/// `brotli::BrotliDecompress`, reading `data` up to the end of the brotli
/// stream it starts with (any bytes after it are left unread) and writing
/// into a fresh vector. Claimed: the outcome is a function of `data`
/// alone, an error exactly where that function has no result.
#[verifier::external_body]
fn decompress(data: &[u8]) -> (r: Option<Vec<u8>>)
    ensures
        r is None <==> brotli_decompressed(data@) is None,
        r matches Some(v) ==> brotli_decompressed(data@) == Some(v@),
{
    let mut input: &[u8] = data;
    let mut out: Vec<u8> = Vec::new();
    match brotli::BrotliDecompress(&mut input, &mut out) {
        Ok(()) => Some(out),
        Err(_) => None,
    }
}

/// `brotli::BrotliCompress` with `BrotliEncoderParams::default()`, reading
/// all of `data` and writing into a fresh vector. Claimed: the outcome is a
/// function of `data` alone, and, brotli being a lossless format, the
/// stream it writes decompresses to `data` again.
#[verifier::external_body]
fn compress(data: &[u8]) -> (r: Option<Vec<u8>>)
    ensures
        r is None <==> brotli_compressed(data@) is None,
        r matches Some(v) ==> brotli_compressed(data@) == Some(v@),
        r matches Some(v) ==> brotli_decompressed(v@) == Some(data@),
{
    let mut input: &[u8] = data;
    let mut out: Vec<u8> = Vec::new();
    let params = brotli::enc::BrotliEncoderParams::default();
    match brotli::BrotliCompress(&mut input, &mut out, &params) {
        Ok(_) => Some(out),
        Err(_) => None,
    }
}

/// Why a brain file could not be read or written.
#[derive(Debug, Clone, Copy, PartialEq, Eq)]
pub enum BrainFileError {
    /// The file is no brotli stream.
    NotCompressed,
    /// The compressor failed.
    NotWritten,
}

/// The encoded brain held in a brain file: its bytes decompressed.
pub fn unpack_brain_file(file: &[u8]) -> (r: Result<Vec<u8>, BrainFileError>)
    ensures
        match r {
            Ok(v) => brotli_decompressed(file@) == Some(v@),
            Err(e) => e == BrainFileError::NotCompressed && brotli_decompressed(file@) is None,
        },
{
    match decompress(file) {
        Some(v) => Ok(v),
        None => Err(BrainFileError::NotCompressed),
    }
}

/// The brain file that holds an encoded brain: its bytes compressed, such
/// that unpacking the file gives them back.
pub fn pack_brain_file(encoded: &[u8]) -> (r: Result<Vec<u8>, BrainFileError>)
    ensures
        match r {
            Ok(v) => brotli_compressed(encoded@) == Some(v@) && brotli_decompressed(v@) == Some(
                encoded@,
            ),
            Err(e) => e == BrainFileError::NotWritten && brotli_compressed(encoded@) is None,
        },
{
    match compress(encoded) {
        Some(v) => Ok(v),
        None => Err(BrainFileError::NotWritten),
    }
}

} // verus!
