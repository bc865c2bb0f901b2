//! The decoders that cluster payloads are compressed for.
use std::io::Read;
use vstd::prelude::*;
use xz2::read::XzDecoder;

verus! {

/// What reading an `xz2::read::XzDecoder` to its end yields for this input, if it succeeds.
pub uninterp spec fn xz_decoded(payload: Seq<u8>) -> Option<Seq<u8>>;

/// What `zstd::stream::decode_all` yields for this input, if it succeeds.
pub uninterp spec fn zstd_decoded(payload: Seq<u8>) -> Option<Seq<u8>>;

/// Decompresses with `xz2::read::XzDecoder`, read to its end.
///
/// Trusted: whether it succeeds, and what it yields, is determined by the payload alone, given
/// that memory for the decoder can be had. What the decoder makes of a payload is left unsaid.
#[verifier::external_body]
pub(crate) fn decode_xz(payload: &[u8]) -> (r: std::result::Result<Vec<u8>, std::io::Error>)
    ensures
        r matches Ok(out) ==> xz_decoded(payload@) == Some(out@),
        r is Err ==> xz_decoded(payload@) is None,
{
    let mut decoder = XzDecoder::new(payload);
    let mut out: Vec<u8> = Vec::with_capacity(payload.len());
    decoder.read_to_end(&mut out)?;
    Ok(out)
}

/// Decompresses with `zstd::stream::decode_all`.
///
/// Trusted: whether it succeeds, and what it yields, is determined by the payload alone, given
/// that memory for the decoder can be had. What the decoder makes of a payload is left unsaid.
#[verifier::external_body]
pub(crate) fn decode_zstd(payload: &[u8]) -> (r: std::result::Result<Vec<u8>, std::io::Error>)
    ensures
        r matches Ok(out) ==> zstd_decoded(payload@) == Some(out@),
        r is Err ==> zstd_decoded(payload@) is None,
{
    zstd::stream::decode_all(payload)
}

} // verus!
