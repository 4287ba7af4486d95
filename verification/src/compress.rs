//! Zlib framing for stored objects. The codec itself lives in an outside
//! crate; the library names its output and states what the codec's own
//! sources show: compressing into an in-memory buffer always succeeds,
//! and inflation recovers exactly what was deflated.

use vstd::prelude::*;
use crate::error::NitError;
use std::io::Read;
use std::io::Write;

verus! {

/// The zlib stream that the fast compression level produces for a byte
/// sequence: a function of the input bytes alone for the pinned codec.
pub uninterp spec fn zlib_deflate(bytes: Seq<u8>) -> Seq<u8>;

/// The bytes a zlib stream inflates to, or `None` when the decoder does
/// not accept the stream.
pub uninterp spec fn zlib_inflate(bytes: Seq<u8>) -> Option<Seq<u8>>;

/// Relies on flate2's write::ZlibEncoder: writing into an in-memory
/// buffer cannot fail, the result is the zlib stream for the header
/// followed by the data at the fast level, and that stream inflates back
/// to its input (zlib is lossless).
#[verifier::external_body]
pub fn compress_content(header: &[u8], data: &[u8]) -> (r: Result<Vec<u8>, NitError>)
    ensures
        r is Ok,
        r matches Ok(v) ==> v@ == zlib_deflate(header@ + data@) && zlib_inflate(v@) == Some(
            header@ + data@,
        ),
{
    let mut encoder = flate2::write::ZlibEncoder::new(Vec::new(), flate2::Compression::fast());
    encoder.write_all(header).map_err(|_| NitError::Io)?;
    encoder.write_all(data).map_err(|_| NitError::Io)?;
    encoder.finish().map_err(|_| NitError::Io)
}

/// Relies on flate2's write::ZlibEncoder: writing into an in-memory
/// buffer cannot fail, the result is the zlib stream for the bytes at
/// the fast level, and that stream inflates back to the bytes.
#[verifier::external_body]
pub fn compress(bytes: &[u8]) -> (r: Result<Vec<u8>, NitError>)
    ensures
        r is Ok,
        r matches Ok(v) ==> v@ == zlib_deflate(bytes@) && zlib_inflate(v@) == Some(bytes@),
{
    let mut encoder = flate2::write::ZlibEncoder::new(Vec::new(), flate2::Compression::fast());
    encoder.write_all(bytes).map_err(|_| NitError::Io)?;
    encoder.finish().map_err(|_| NitError::Io)
}

/// Relies on flate2's read::ZlibDecoder: it succeeds exactly on the
/// streams it can inflate, and then yields their inflation, which
/// depends on the stream alone.
#[verifier::external_body]
pub fn decompress(bytes: &[u8]) -> (r: Result<Vec<u8>, NitError>)
    ensures
        r is Ok <==> zlib_inflate(bytes@) is Some,
        r matches Ok(v) ==> zlib_inflate(bytes@) == Some(v@),
        r matches Err(e) ==> e == NitError::Io,
{
    let mut z = flate2::read::ZlibDecoder::new(bytes);
    let mut out = Vec::new();
    match z.read_to_end(&mut out) {
        Ok(_) => Ok(out),
        Err(_) => Err(NitError::Io),
    }
}

} // verus!
