//! Payload compression, performed by an outside crate.

use vstd::prelude::*;

verus! {

/// The compression level handed to the encoder.
pub const ZSTD_LEVEL: i32 = 3;

/// Bytes produced by zstd compression at the writers' level.  For a fixed
/// level the encoder's output is a function of the input bytes alone.
pub uninterp spec fn zstd_compress_of(data: Seq<u8>) -> Seq<u8>;

/// Result of zstd decompression: `None` when the bytes are not a valid
/// compressed stream.  Success and output are functions of the input bytes
/// alone.
pub uninterp spec fn zstd_decompress_of(data: Seq<u8>) -> Option<Seq<u8>>;

/// Relies on `zstd::stream::encode_all` at a fixed level: the output is a
/// function of the input bytes, and `zstd::stream::decode_all` decodes it
/// back to the input.
#[verifier::external_body]
pub(crate) fn zstd_compress(data: &[u8]) -> (r: Option<Vec<u8>>)
    ensures
        r matches Some(v) ==> v@ == zstd_compress_of(data@) && zstd_decompress_of(v@)
            == Some(data@),
{
    zstd::stream::encode_all(data, ZSTD_LEVEL).ok()
}

/// Relies on `zstd::stream::decode_all`: success and output are functions
/// of the input bytes alone.
#[verifier::external_body]
pub(crate) fn zstd_decompress(data: &[u8]) -> (r: Option<Vec<u8>>)
    ensures
        r matches Some(v) ==> zstd_decompress_of(data@) == Some(v@),
        r is None ==> zstd_decompress_of(data@) is None,
{
    zstd::stream::decode_all(data).ok()
}

} // verus!
