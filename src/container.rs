//! The container of a project file: markup text, raw or gzip compressed.
use vstd::prelude::*;

verus! {

/// `b` begins with the two bytes that mark a gzip stream.
pub open spec fn is_gzip(b: Seq<u8>) -> bool {
    b.len() >= 2 && b[0] == 0x1f && b[1] == 0x8b
}

/// What decompressing the gzip stream `b` yields; `None` when it is
/// malformed.
pub uninterp spec fn gunzipped(b: Seq<u8>) -> Option<Seq<u8>>;

/// Relies on libflate's `gzip::Decoder`, read to its end: the decompressed
/// bytes of a gzip stream, or nothing when the stream is malformed.
#[verifier::external_body]
fn gunzip(b: &[u8]) -> (r: Option<Vec<u8>>)
    ensures
        match gunzipped(b@) {
            Some(v) => r matches Some(x) && x@ == v,
            None => r is None,
        },
{
    let mut decoder = libflate::gzip::Decoder::new(b).ok()?;
    let mut out: Vec<u8> = Vec::new();
    std::io::Read::read_to_end(&mut decoder, &mut out).ok()?;
    Some(out)
}

/// Whether `b` begins with the gzip marker.
pub fn is_gzip_stream(b: &[u8]) -> (r: bool)
    ensures
        r == is_gzip(b@),
{
    b.len() >= 2 && b[0] == 0x1f && b[1] == 0x8b
}

/// The markup text that the file content `b` holds: decompressed when `b`
/// is a gzip stream, else `b` itself. `None` when a gzip stream cannot be
/// decompressed.
pub fn unpack(b: &[u8]) -> (r: Option<Vec<u8>>)
    ensures
        is_gzip(b@) ==> match gunzipped(b@) {
            Some(v) => r matches Some(x) && x@ == v,
            None => r is None,
        },
        !is_gzip(b@) ==> (r matches Some(v) && v@ == b@),
{
    if is_gzip_stream(b) {
        gunzip(b)
    } else {
        Some(vstd::slice::slice_to_vec(b))
    }
}

} // verus!
