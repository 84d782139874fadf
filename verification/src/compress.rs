//! Block compression.
//!
//! Payloads and the block index are compressed with the LZ4 frame that
//! prepends the uncompressed size.  The store relies on nothing about the
//! compressed bytes themselves, only that they decompress back to exactly
//! what was compressed; decompression is named by an uninterpreted
//! function so that contracts can speak of it.

use vstd::prelude::*;

verus! {

/// What `lz4_flex::decompress_size_prepended` returns on the given bytes:
/// the decompressed payload, or nothing where they do not form a valid
/// size-prefixed frame.
pub uninterp spec fn decompress_of(b: Seq<u8>) -> Option<Seq<u8>>;

/// Relies on `lz4_flex::compress_prepend_size`: for input shorter than the
/// four-byte size prefix can count, its output decompresses, through
/// `lz4_flex::decompress_size_prepended`, back to exactly the input.
#[verifier::external_body]
pub(crate) fn compress(b: &[u8]) -> (r: Vec<u8>)
    ensures
        b@.len() <= u32::MAX ==> decompress_of(r@) == Some(b@),
{
    lz4_flex::compress_prepend_size(b)
}

/// Relies on `lz4_flex::decompress_size_prepended`: a pure function of its
/// input bytes, succeeding exactly where they form a valid frame.
#[verifier::external_body]
pub(crate) fn decompress(b: &[u8]) -> (r: Option<Vec<u8>>)
    ensures
        match r {
            Some(v) => decompress_of(b@) == Some(v@),
            None => decompress_of(b@) is None,
        },
{
    match lz4_flex::decompress_size_prepended(b) {
        Ok(v) => Some(v),
        Err(_) => None,
    }
}

} // verus!
