//! The gzip layer: compression and decompression are done by an outside
//! library; the library's contracts speak of the results through two named
//! functions of the bytes alone.

use vstd::prelude::*;

verus! {

/// The bytes the fixed-header gzip compressor produces for `data`.
pub uninterp spec fn gzip_of(data: Seq<u8>) -> Seq<u8>;

/// The decompression of the first gzip member of `data`, trailing bytes
/// ignored; `None` where no valid member starts the stream.
pub uninterp spec fn gunzip_first(data: Seq<u8>) -> Option<Seq<u8>>;

/// Relies on libflate::gzip::Encoder with a pinned header (no file name, no
/// comment, modification time 0): its output is a deterministic function of
/// the input bytes alone. A gzip member is self-delimiting, so the matching
/// decoder reads it back from the front of any longer stream, which is what
/// the second and third clauses state. Writing into a vector cannot fail.
#[verifier::external_body]
pub(crate) fn gzip_compress(data: &Vec<u8>) -> (r: Vec<u8>)
    ensures
        r@ == gzip_of(data@),
        forall|tail: Seq<u8>| #[trigger] gunzip_first(r@ + tail) == Some(data@),
        gunzip_first(r@) == Some(data@),
{
    let header = libflate::gzip::HeaderBuilder::new().modification_time(0).finish();
    let options = libflate::gzip::EncodeOptions::new().header(header);
    let mut enc = libflate::gzip::Encoder::with_options(Vec::new(), options)
        .expect("writing a gzip header to a vector cannot fail");
    std::io::Write::write_all(&mut enc, data.as_slice())
        .expect("writing to a vector-backed encoder cannot fail");
    enc.finish().into_result().expect("flushing to a vector cannot fail")
}

/// Relies on libflate::gzip::Decoder: it reads exactly one gzip member from
/// the front of the stream, fails on a malformed one, and what it returns
/// depends on the bytes alone.
#[verifier::external_body]
pub(crate) fn gzip_decompress_first(data: &Vec<u8>) -> (r: Option<Vec<u8>>)
    ensures
        r is Some <==> gunzip_first(data@) is Some,
        r matches Some(v) ==> gunzip_first(data@) == Some(v@),
{
    let mut dec = match libflate::gzip::Decoder::new(data.as_slice()) {
        Ok(d) => d,
        Err(_) => return None,
    };
    let mut out = Vec::new();
    match std::io::Read::read_to_end(&mut dec, &mut out) {
        Ok(_) => Some(out),
        Err(_) => None,
    }
}

} // verus!
