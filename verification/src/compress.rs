//! Calls into the outside compressors, and the choice of the code chunk: the
//! smaller of the two compressed streams, or the raw code when compression
//! does not pay.

use vstd::prelude::*;

use std::io::Read;
use std::io::Write;

use crate::tic_file::Chunk;

verus! {

/// What the multi-pass compressor emits for the given input and iteration
/// count, zlib-framed; `None` where it reports an error.
pub uninterp spec fn zopfli_zlib_opt(b: Seq<u8>, iterations: u64) -> Option<Seq<u8>>;

/// What the multi-pass compressor emits for the given input and iteration
/// count, as a raw stream; `None` where it reports an error.
pub uninterp spec fn zopfli_deflate_opt(b: Seq<u8>, iterations: u64) -> Option<Seq<u8>>;

/// What the one-pass compressor emits at its best setting, zlib-framed;
/// `None` where it reports an error.
pub uninterp spec fn zlib_best_opt(b: Seq<u8>) -> Option<Seq<u8>>;

/// What decompressing a raw stream yields: `None` on a malformed stream.
pub uninterp spec fn inflate_opt(b: Seq<u8>) -> Option<Seq<u8>>;

/// Relies on zopfli's `compress` with the zlib format: fixed options, a
/// fixed-seed generator and a byte-vector sink, so the outcome depends on the
/// input bytes and the iteration count alone (its floating-point cost model
/// goes through the platform's library, so this is per platform).
#[verifier::external_body]
pub(crate) fn zopfli_zlib(data: &[u8], iterations: u64) -> (r: Option<Vec<u8>>)
    requires
        iterations >= 1,
    ensures
        match r {
            Some(v) => zopfli_zlib_opt(data@, iterations) == Some(v@),
            None => zopfli_zlib_opt(data@, iterations) is None,
        },
{
    let mut opts = zopfli::Options::default();
    opts.iteration_count = core::num::NonZeroU64::new(iterations).unwrap();
    let mut out = Vec::new();
    match zopfli::compress(opts, zopfli::Format::Zlib, data, &mut out) {
        Ok(()) => Some(out),
        Err(_) => None,
    }
}

/// Relies on zopfli's `compress` with the raw format: fixed options, a
/// fixed-seed generator and a byte-vector sink, so the outcome depends on the
/// input bytes and the iteration count alone (its floating-point cost model
/// goes through the platform's library, so this is per platform).
#[verifier::external_body]
pub(crate) fn zopfli_deflate(data: &[u8], iterations: u64) -> (r: Option<Vec<u8>>)
    requires
        iterations >= 1,
    ensures
        match r {
            Some(v) => zopfli_deflate_opt(data@, iterations) == Some(v@),
            None => zopfli_deflate_opt(data@, iterations) is None,
        },
{
    let mut opts = zopfli::Options::default();
    opts.iteration_count = core::num::NonZeroU64::new(iterations).unwrap();
    let mut out = Vec::new();
    match zopfli::compress(opts, zopfli::Format::Deflate, data, &mut out) {
        Ok(()) => Some(out),
        Err(_) => None,
    }
}

/// Relies on flate2's `ZlibEncoder` at `Compression::best()`: an
/// integer-only encode into a byte-vector sink, so the outcome depends on the
/// input bytes alone.
#[verifier::external_body]
pub(crate) fn zlib_best(data: &[u8]) -> (r: Option<Vec<u8>>)
    ensures
        match r {
            Some(v) => zlib_best_opt(data@) == Some(v@),
            None => zlib_best_opt(data@) is None,
        },
{
    let mut enc = flate2::write::ZlibEncoder::new(Vec::new(), flate2::Compression::best());
    if enc.write_all(data).is_err() {
        return None;
    }
    match enc.finish() {
        Ok(v) => Some(v),
        Err(_) => None,
    }
}

/// Relies on libflate's `deflate::Decoder`: a deterministic decode whose
/// success and bytes depend on the input stream alone; a malformed stream
/// reports an error.
#[verifier::external_body]
pub(crate) fn inflate(data: &[u8]) -> (r: Option<Vec<u8>>)
    ensures
        match r {
            Some(v) => inflate_opt(data@) == Some(v@),
            None => inflate_opt(data@) is None,
        },
{
    let mut out = Vec::new();
    match libflate::deflate::Decoder::new(data).read_to_end(&mut out) {
        Ok(_) => Some(out),
        Err(_) => None,
    }
}

/// A zlib stream with its four checksum bytes cut off; unusable candidates
/// (a failed compressor, or a stream shorter than the checksum) drop out.
pub open spec fn payload_of(v: Option<Seq<u8>>) -> Option<Seq<u8>> {
    match v {
        Some(s) => if s.len() >= 4 {
            Some(s.subrange(0, s.len() - 4))
        } else {
            None
        },
        None => None,
    }
}

/// The chunk the packer emits for `code` with the given compressed
/// candidates: the smaller candidate, unless the raw code is no longer, in
/// which case the raw chunk.
pub open spec fn chunk_choice(code: Seq<u8>, zo: Option<Seq<u8>>, zl: Option<Seq<u8>>) -> (
    u8,
    Seq<u8>,
) {
    let best: Option<Seq<u8>> = match (payload_of(zo), payload_of(zl)) {
        (Some(a), Some(b)) => if b.len() < a.len() {
            Some(b)
        } else {
            Some(a)
        },
        (Some(a), None) => Some(a),
        (None, Some(b)) => Some(b),
        (None, None) => None,
    };
    match best {
        Some(d) => if code.len() <= d.len() {
            (0x05, code)
        } else {
            (0x10, d)
        },
        None => (0x05, code),
    }
}

/// Cuts the checksum off a zlib candidate.
fn payload_x(v: Option<Vec<u8>>) -> (r: Option<Vec<u8>>)
    ensures
        match r {
            Some(p) => payload_of(match v {
                Some(s) => Some(s@),
                None => None,
            }) == Some(p@),
            None => payload_of(match v {
                Some(s) => Some(s@),
                None => None,
            }) is None,
        },
{
    match v {
        Some(mut s) => {
            if s.len() >= 4 {
                let n = s.len() - 4;
                s.truncate(n);
                Some(s)
            } else {
                None
            }
        },
        None => None,
    }
}

/// Builds the code chunk from the raw code and the two compressed candidates.
pub fn choose_code_chunk(code: Vec<u8>, zo: Option<Vec<u8>>, zl: Option<Vec<u8>>) -> (r: Chunk)
    ensures
        ({
            let (t, d) = chunk_choice(
                code@,
                match zo {
                    Some(s) => Some(s@),
                    None => None,
                },
                match zl {
                    Some(s) => Some(s@),
                    None => None,
                },
            );
            r.type_ == t && r.data@ == d && r.bank == 0
        }),
{
    let zop = payload_x(zo);
    let zlp = payload_x(zl);
    let best: Option<Vec<u8>> = match (zop, zlp) {
        (Some(a), Some(b)) => if b.len() < a.len() {
            Some(b)
        } else {
            Some(a)
        },
        (Some(a), None) => Some(a),
        (None, Some(b)) => Some(b),
        (None, None) => None,
    };
    match best {
        Some(d) => {
            if code.len() <= d.len() {
                Chunk { type_: 0x05, bank: 0, data: code }
            } else {
                Chunk { type_: 0x10, bank: 0, data: d }
            }
        },
        None => Chunk { type_: 0x05, bank: 0, data: code },
    }
}

/// Compresses the code both ways and picks the chunk to emit: the smaller
/// compressed payload, or the raw code when compression does not pay.
pub fn compress_code(code: Vec<u8>, iterations: u64) -> (r: Chunk)
    requires
        iterations >= 1,
    ensures
        ({
            let (t, d) = chunk_choice(
                code@,
                zopfli_zlib_opt(code@, iterations),
                zlib_best_opt(code@),
            );
            r.type_ == t && r.data@ == d && r.bank == 0
        }),
{
    let zo = zopfli_zlib(code.as_slice(), iterations);
    let zl = zlib_best(code.as_slice());
    choose_code_chunk(code, zo, zl)
}

} // verus!
