//! The maps and platform descriptions ship compressed with brotli.
use vstd::prelude::*;

use std::io::Read;

use crate::error::NvramError;

verus! {

/// The bytes that brotli decompression makes of `data`, or `None` where
/// reading them fails (a truncated or corrupt stream does; bytes after a
/// complete stream need not).
pub uninterp spec fn brotli_decompressed(data: Seq<u8>) -> Option<Seq<u8>>;

/// Decompresses a brotli stream with `brotli::Decompressor` (read to its
/// end through a 4096-byte buffer). Claimed: the result is a function of
/// `data` alone, the bytes read where reading succeeds and nothing where it
/// fails. Not stated: which inputs fail (a truncated stream does, a complete
/// stream followed by extra bytes may still read), nor what the
/// decompression of a stream is.
#[verifier::external_body]
fn brotli_decompress(data: &[u8]) -> (r: Option<Vec<u8>>)
    ensures
        match r {
            Some(v) => brotli_decompressed(data@) == Some(v@),
            None => brotli_decompressed(data@) is None,
        },
{
    let mut out: Vec<u8> = Vec::new();
    match brotli::Decompressor::new(data, 4096).read_to_end(&mut out) {
        Ok(_) => Some(out),
        Err(_) => None,
    }
}

/// Decompresses a map or platform description shipped compressed with
/// brotli.
pub fn decompress(data: &[u8]) -> (r: Result<Vec<u8>, NvramError>)
    ensures
        match brotli_decompressed(data@) {
            Some(b) => r matches Ok(v) && v@ == b,
            None => r == Err::<Vec<u8>, NvramError>(NvramError::InvalidCompressedData),
        },
{
    match brotli_decompress(data) {
        Some(v) => Ok(v),
        None => Err(NvramError::InvalidCompressedData),
    }
}

} // verus!
