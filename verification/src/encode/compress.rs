//! The compressed envelope around every exported blob.

use vstd::prelude::*;

verus! {

/// The compressed frame that a byte sequence is carried in. Compression
/// is a function of the input alone: the library links one fixed
/// compressor build, whose output for a given input and level never
/// varies.
pub uninterp spec fn zstd_frame(data: Seq<u8>) -> Seq<u8>;

/// What decompression yields for any byte sequence: the carried payload,
/// or nothing when the bytes are no well-formed frame. Decompression is a
/// function of the input alone.
pub uninterp spec fn zstd_decode(data: Seq<u8>) -> Option<Seq<u8>>;

/// Relies on zstd::encode_all at the default level: it returns one frame
/// holding exactly the input, it cannot fail reading from a slice, and
/// zstd::decode_all inverts it.
#[verifier::external_body]
pub(crate) fn zstd_compress(data: &Vec<u8>) -> (r: Vec<u8>)
    ensures
        r@ == zstd_frame(data@),
        zstd_decode(r@) == Some(data@),
{
    zstd::encode_all(data.as_slice(), 0).unwrap()
}

/// Relies on zstd::decode_all: decompression is deterministic in the
/// bytes, returns the payload of a well-formed frame, and fails on
/// anything else.
#[verifier::external_body]
pub(crate) fn zstd_decompress(data: &[u8]) -> (r: Option<Vec<u8>>)
    ensures
        match r {
            Some(v) => zstd_decode(data@) == Some(v@),
            None => zstd_decode(data@) is None,
        },
{
    zstd::decode_all(data).ok()
}

} // verus!
