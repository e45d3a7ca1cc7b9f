//! Response-body encoding negotiation: a binary payload goes out as it is,
//! or gzip-compressed when the client advertises acceptance.

use vstd::prelude::*;

verus! {

/// What gzip (at best compression) makes of a byte string; the result
/// depends on the bytes alone.
pub uninterp spec fn gzip_of(b: Seq<u8>) -> Seq<u8>;

/// Relies on `flate2::write::GzEncoder` to compress the bytes.  The sink is
/// a `Vec`, whose writer never fails, so the writes and the final flush
/// cannot return an error.
#[verifier::external_body]
fn gzip_compress(b: &Vec<u8>) -> (r: Vec<u8>)
    ensures
        r@ == gzip_of(b@),
{
    let mut enc = flate2::write::GzEncoder::new(Vec::new(), flate2::Compression::best());
    std::io::Write::write_all(&mut enc, b.as_slice()).unwrap();
    enc.finish().unwrap()
}

/// An encoded response body and whether it was compressed.
pub struct EncodedBody {
    pub bytes: Vec<u8>,
    pub gzipped: bool,
}

/// Encodes a response body: compressed exactly when the client accepts gzip,
/// the bytes handed through unchanged otherwise.
pub fn finish_post_response(body: Vec<u8>, accepts_gzip: bool) -> (r: EncodedBody)
    ensures
        r.gzipped == accepts_gzip,
        r.bytes@ == if accepts_gzip {
            gzip_of(body@)
        } else {
            body@
        },
{
    if accepts_gzip {
        let bytes = gzip_compress(&body);
        EncodedBody { bytes, gzipped: true }
    } else {
        EncodedBody { bytes: body, gzipped: false }
    }
}

} // verus!
