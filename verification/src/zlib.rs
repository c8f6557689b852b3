//! The DEFLATE side of the compression dispatcher, through the `flate2`
//! crate. `Pak` payloads are zlib streams at the default compression level.
//!
//! What compression returns is a pure function of the input bytes, far too
//! involved to state here; `zlib_of` names it, and the round-trip fact ties
//! decompression back to it.

use vstd::prelude::*;

verus! {

use std::io::Read;

/// The zlib stream that compressing `s` at the default level produces.
pub uninterp spec fn zlib_of(s: Seq<u8>) -> Seq<u8>;

/// Relies on `flate2::bufread::ZlibEncoder` with `Compression::default()`:
/// the output depends on the input bytes alone, and a zlib stream written at
/// the default level with the default 32 KiB window begins with the header
/// bytes `0x78 0x9C` (RFC 1950: CMF `0x78`, FLG with check bits `0x9C`).
/// Reading from a slice cannot fail, so compression returns `None` only if
/// the encoder itself reports an error.
#[verifier::external_body]
pub(crate) fn zlib_compress(data: &[u8]) -> (r: Option<Vec<u8>>)
    ensures
        r matches Some(v) ==> v@ == zlib_of(data@) && v@.len() >= 2 && v@[0] == 0x78u8 && v@[1]
            == 0x9cu8,
{
    let mut encoder = flate2::bufread::ZlibEncoder::new(data, flate2::Compression::default());
    let mut out = Vec::new();
    match encoder.read_to_end(&mut out) {
        Ok(_) => Some(out),
        Err(_) => None,
    }
}

/// Relies on `flate2::bufread::ZlibDecoder`: decompressing the exact zlib
/// stream that compression produced for some input yields that input back,
/// and reading reports an error on a stream it cannot decode.
#[verifier::external_body]
pub(crate) fn zlib_decompress(data: &[u8]) -> (r: Option<Vec<u8>>)
    ensures
        forall|s: Seq<u8>| data@ == zlib_of(s) ==> r == Some::<Vec<u8>>(r.unwrap()) && r.unwrap()@
            == s,
{
    let mut decoder = flate2::bufread::ZlibDecoder::new(data);
    let mut out = Vec::new();
    match decoder.read_to_end(&mut out) {
        Ok(_) => Some(out),
        Err(_) => None,
    }
}

} // verus!
