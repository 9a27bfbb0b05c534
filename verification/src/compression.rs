//! Block-oriented LZ4 decompression with a known output size, as both
//! container formats use it. The decoder itself comes from the `lz4` crate;
//! the exact-size check around it is verified.

use vstd::prelude::*;

use crate::DecodeError;

verus! {

/// What decoding `src` as one LZ4 block into a buffer of `cap` bytes yields:
/// the decoded bytes (at most `cap` of them), or nothing when the block is
/// malformed or does not fit. Decoding is a function of the input bytes and
/// the capacity alone.
pub uninterp spec fn lz4_block_decode(src: Seq<u8>, cap: nat) -> Option<Seq<u8>>;

/// Relies on `lz4::block::decompress_to_buffer` with an explicit output
/// size: it succeeds or fails deterministically in its two arguments, and on
/// success returns at most `cap` decoded bytes.
#[verifier::external_body]
fn lz4_decompress(src: &Vec<u8>, cap: usize) -> (r: Result<Vec<u8>, DecodeError>)
    requires
        src.len() <= 0x7fffffff,
        cap <= 0x7fffffff,
    ensures
        r is Ok <==> lz4_block_decode(src@, cap as nat) is Some,
        r is Ok ==> r.unwrap()@ == lz4_block_decode(src@, cap as nat).unwrap(),
        r is Ok ==> r.unwrap()@.len() <= cap,
        r matches Err(e) ==> e == DecodeError::Decompression,
{
    let mut buf = vec![0u8; cap];
    match lz4::block::decompress_to_buffer(src.as_slice(), Some(cap as i32), &mut buf) {
        Ok(n) => {
            buf.truncate(n);
            Ok(buf)
        },
        Err(_) => Err(DecodeError::Decompression),
    }
}

/// Decoding `src` into exactly `out_len` bytes: the block must decode and
/// must fill the declared size completely; anything else is a failure.
pub open spec fn spec_decompress_exact(src: Seq<u8>, out_len: nat) -> Option<Seq<u8>> {
    if src.len() > 0x7fffffff || out_len > 0x7fffffff {
        None
    } else {
        match lz4_block_decode(src, out_len) {
            Some(s) => if s.len() == out_len {
                Some(s)
            } else {
                None
            },
            None => None,
        }
    }
}

/// Decompresses one LZ4 block, demanding exactly `out_len` output bytes.
/// A malformed block, or one that decodes to any other length, is a
/// decompression failure.
pub fn decompress_exact(src: &Vec<u8>, out_len: usize) -> (r: Result<Vec<u8>, DecodeError>)
    ensures
        r is Ok <==> spec_decompress_exact(src@, out_len as nat) is Some,
        r is Ok ==> r.unwrap()@ == spec_decompress_exact(src@, out_len as nat).unwrap(),
        r is Ok ==> r.unwrap()@.len() == out_len,
        r matches Err(e) ==> e == DecodeError::Decompression,
{
    if src.len() > 0x7fffffff || out_len > 0x7fffffff {
        return Err(DecodeError::Decompression);
    }
    match lz4_decompress(src, out_len) {
        Ok(out) => {
            if out.len() == out_len {
                Ok(out)
            } else {
                Err(DecodeError::Decompression)
            }
        },
        Err(e) => Err(e),
    }
}

} // verus!
