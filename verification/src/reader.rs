//! Fixed-width little-endian reads and terminator scans over an in-memory
//! byte buffer. Every read is bounds-checked and reports truncation instead
//! of panicking.

use vstd::prelude::*;

use crate::DecodeError;

verus! {

/// The 16-bit little-endian integer stored at byte offset `i`.
pub open spec fn le16(d: Seq<u8>, i: int) -> u16
    recommends
        0 <= i,
        i + 2 <= d.len(),
{
    (d[i] as int + d[i + 1] as int * 0x100) as u16
}

/// The 32-bit little-endian integer stored at byte offset `i`.
pub open spec fn le32(d: Seq<u8>, i: int) -> u32
    recommends
        0 <= i,
        i + 4 <= d.len(),
{
    (d[i] as int + d[i + 1] as int * 0x100 + d[i + 2] as int * 0x10000 + d[i + 3] as int
        * 0x1000000) as u32
}

/// The 64-bit little-endian integer stored at byte offset `i`.
pub open spec fn le64(d: Seq<u8>, i: int) -> u64
    recommends
        0 <= i,
        i + 8 <= d.len(),
{
    (le32(d, i) as int + le32(d, i + 4) as int * 0x100000000) as u64
}

/// Reads the 16-bit little-endian integer at `pos`, or reports truncation.
pub fn read_u16(d: &Vec<u8>, pos: usize) -> (r: Result<u16, DecodeError>)
    ensures
        pos + 2 <= d.len() ==> r == Ok::<u16, DecodeError>(le16(d@, pos as int)),
        pos + 2 > d.len() ==> r == Err::<u16, DecodeError>(DecodeError::TruncatedInput),
{
    if d.len() >= 2 && pos <= d.len() - 2 {
        let b0 = d[pos];
        let b1 = d[pos + 1];
        Ok(b0 as u16 + b1 as u16 * 0x100)
    } else {
        Err(DecodeError::TruncatedInput)
    }
}

/// Reads the 32-bit little-endian integer at `pos`, or reports truncation.
pub fn read_u32(d: &Vec<u8>, pos: usize) -> (r: Result<u32, DecodeError>)
    ensures
        pos + 4 <= d.len() ==> r == Ok::<u32, DecodeError>(le32(d@, pos as int)),
        pos + 4 > d.len() ==> r == Err::<u32, DecodeError>(DecodeError::TruncatedInput),
{
    if d.len() >= 4 && pos <= d.len() - 4 {
        let b0 = d[pos];
        let b1 = d[pos + 1];
        let b2 = d[pos + 2];
        let b3 = d[pos + 3];
        Ok(b0 as u32 + b1 as u32 * 0x100 + b2 as u32 * 0x10000 + b3 as u32 * 0x1000000)
    } else {
        Err(DecodeError::TruncatedInput)
    }
}

/// Reads the 64-bit little-endian integer at `pos`, or reports truncation.
pub fn read_u64(d: &Vec<u8>, pos: usize) -> (r: Result<u64, DecodeError>)
    ensures
        pos + 8 <= d.len() ==> r == Ok::<u64, DecodeError>(le64(d@, pos as int)),
        pos + 8 > d.len() ==> r == Err::<u64, DecodeError>(DecodeError::TruncatedInput),
{
    if d.len() >= 8 && pos <= d.len() - 8 {
        let lo = read_u32(d, pos).unwrap();
        let hi = read_u32(d, pos + 4).unwrap();
        Ok(lo as u64 + hi as u64 * 0x100000000)
    } else {
        Err(DecodeError::TruncatedInput)
    }
}

/// Copies the `n` bytes starting at `pos`, or reports truncation.
pub fn read_bytes(d: &Vec<u8>, pos: usize, n: usize) -> (r: Result<Vec<u8>, DecodeError>)
    ensures
        pos + n <= d.len() ==> r is Ok && r.unwrap()@ == d@.subrange(pos as int, pos + n),
        pos + n > d.len() ==> r == Err::<Vec<u8>, DecodeError>(DecodeError::TruncatedInput),
{
    if n <= d.len() && pos <= d.len() - n {
        let mut out: Vec<u8> = Vec::new();
        let mut i: usize = 0;
        while i < n
            invariant
                i <= n,
                pos + n <= d.len(),
                out@ == d@.subrange(pos as int, pos + i),
            decreases n - i,
        {
            out.push(d[pos + i]);
            i = i + 1;
            proof {
                assert(out@ =~= d@.subrange(pos as int, pos + i));
            }
        }
        Ok(out)
    } else {
        Err(DecodeError::TruncatedInput)
    }
}

/// The offset of the first occurrence of byte `b` at or after `i`, if any.
pub open spec fn find_byte(d: Seq<u8>, i: int, b: u8) -> Option<int>
    decreases d.len() - i,
{
    if i < 0 || i >= d.len() {
        None
    } else if d[i] == b {
        Some(i)
    } else {
        find_byte(d, i + 1, b)
    }
}

/// A found byte lies in range, is the byte, and no earlier position holds
/// it.
pub proof fn lemma_find_byte(d: Seq<u8>, i: int, b: u8)
    requires
        0 <= i,
    ensures
        find_byte(d, i, b) matches Some(j) ==> i <= j < d.len() && d[j] == b && (forall|k: int|
            i <= k < j ==> d[k] != b),
        find_byte(d, i, b) is None ==> forall|k: int| i <= k < d.len() ==> d[k] != b,
    decreases d.len() - i,
{
    if i < d.len() && d[i] != b {
        lemma_find_byte(d, i + 1, b);
    }
}

/// Scans forward from `pos` for the first occurrence of byte `b`.
pub fn scan_byte(d: &Vec<u8>, pos: usize, b: u8) -> (r: Option<usize>)
    ensures
        match r {
            Some(j) => find_byte(d@, pos as int, b) == Some(j as int),
            None => find_byte(d@, pos as int, b) is None,
        },
{
    let mut i: usize = pos;
    loop
        invariant
            pos <= i,
            find_byte(d@, pos as int, b) == find_byte(d@, i as int, b),
        decreases d.len() - i,
    {
        if i >= d.len() {
            return None;
        }
        if d[i] == b {
            return Some(i);
        }
        i = i + 1;
    }
}

} // verus!
