//! The block-compressed archive codec: header validation, the block table,
//! the null-terminated record-name table, per-record metadata, and block
//! reassembly with mixed verbatim and LZ4-compressed segments.

use vstd::prelude::*;

use vstd::utf8::{decode_utf8, valid_utf8};

use crate::compression::{decompress_exact, spec_decompress_exact};
use crate::reader::{find_byte, le32, le64, lemma_find_byte, read_bytes, read_u32, read_u64,
    scan_byte};
use crate::text::{bytes_eq, utf8_to_string};
use crate::DecodeError;

verus! {

/// Magic number that opens every archive file.
pub const ARC_MAGIC: u32 = 4411969;

/// The only supported format version.
pub const ARC_VERSION: u32 = 3;

/// A decoded archive, bound to the byte buffer it was opened from. All
/// tables are read on demand.
#[derive(Debug)]
pub struct Archive {
    pub data: Vec<u8>,
    pub head: u32,
    pub version: u32,
    pub record_count: u32,
    pub block_count: u32,
    pub block_list_offset: u32,
    pub block_list_len: u32,
    pub record_list_len: u32,
}

/// Per-record metadata: where the record's blocks sit in the global block
/// table and how its name is stored.
#[derive(Debug, Clone, Copy, PartialEq, Eq, Structural)]
pub struct Metadata {
    pub version: u32,
    pub offset: u32,
    pub compressed_len: u32,
    pub uncompressed_len: u32,
    pub last_modified_at: u64,
    pub block_count: u32,
    pub index: u32,
    pub record_name_len: u32,
    pub record_name_offset: u32,
}

/// One physical storage unit; compression is per block, not per record.
#[derive(Debug, Clone, Copy, PartialEq, Eq, Structural)]
pub struct Block {
    pub offset: u32,
    pub compressed_len: u32,
    pub uncompressed_len: u32,
}

/// A reassembled record: its id from the name table and its raw
/// decompressed bytes.
#[derive(Debug)]
pub struct Record {
    pub id: String,
    pub data: Vec<u8>,
}

/// A valid archive header: long enough, right magic, supported version.
pub open spec fn spec_arc_header_ok(d: Seq<u8>) -> bool {
    d.len() >= 28 && le32(d, 0) == ARC_MAGIC && le32(d, 4) == ARC_VERSION
}

/// Where the block table starts.
pub open spec fn spec_block_list_offset(d: Seq<u8>) -> int {
    le32(d, 24) as int
}

/// Where the record-name table starts: right after the block table.
pub open spec fn spec_record_list_offset(d: Seq<u8>) -> int {
    spec_block_list_offset(d) + le32(d, 16) as int
}

/// Where the metadata table starts: right after the record-name table.
pub open spec fn spec_metadata_offset(d: Seq<u8>) -> int {
    spec_record_list_offset(d) + le32(d, 20) as int
}

/// The metadata entry stored at byte offset `p`.
pub open spec fn spec_metadata(d: Seq<u8>, p: int) -> Metadata {
    Metadata {
        version: le32(d, p),
        offset: le32(d, p + 4),
        compressed_len: le32(d, p + 8),
        uncompressed_len: le32(d, p + 12),
        last_modified_at: le64(d, p + 20),
        block_count: le32(d, p + 28),
        index: le32(d, p + 32),
        record_name_len: le32(d, p + 36),
        record_name_offset: le32(d, p + 40),
    }
}

/// The whole metadata table: `record_count` entries of 44 bytes each.
pub open spec fn spec_metadata_table(d: Seq<u8>) -> Result<Seq<Metadata>, DecodeError> {
    let start = spec_metadata_offset(d);
    let n = le32(d, 8) as nat;
    if n > 0 && start + 44 * n > d.len() {
        Err(DecodeError::TruncatedInput)
    } else {
        Ok(Seq::new(n, |i: int| spec_metadata(d, start + 44 * i)))
    }
}

/// The block entry stored at byte offset `p`.
pub open spec fn spec_block(d: Seq<u8>, p: int) -> Block {
    Block {
        offset: le32(d, p),
        compressed_len: le32(d, p + 4),
        uncompressed_len: le32(d, p + 8),
    }
}

/// `count` consecutive block entries of 12 bytes each, starting at `start`.
pub open spec fn spec_blocks(d: Seq<u8>, start: int, count: nat) -> Result<Seq<Block>, DecodeError> {
    if count == 0 {
        Ok(Seq::empty())
    } else if start < 0 || start + 12 * count > d.len() {
        Err(DecodeError::TruncatedInput)
    } else {
        Ok(Seq::new(count, |i: int| spec_block(d, start + 12 * i)))
    }
}

/// The raw bytes of `n` null-terminated names read from `pos`; the
/// terminators are consumed and excluded.
pub open spec fn spec_raw_names(d: Seq<u8>, pos: int, n: nat) -> Result<Seq<Seq<u8>>, DecodeError>
    decreases n,
{
    if n == 0 {
        Ok(Seq::empty())
    } else {
        match find_byte(d, pos, 0) {
            None => Err(DecodeError::TruncatedInput),
            Some(z) => {
                let raw = d.subrange(pos, z);
                match spec_raw_names(d, z + 1, (n - 1) as nat) {
                    Err(e) => Err(e),
                    Ok(rest) => Ok(seq![raw].add(rest)),
                }
            },
        }
    }
}

/// The `n` null-terminated names read from `pos`, decoded as UTF-8.
pub open spec fn spec_names(d: Seq<u8>, pos: int, n: nat) -> Result<Seq<Seq<char>>, DecodeError>
    decreases n,
{
    if n == 0 {
        Ok(Seq::empty())
    } else {
        match find_byte(d, pos, 0) {
            None => Err(DecodeError::TruncatedInput),
            Some(z) => {
                let raw = d.subrange(pos, z);
                if !valid_utf8(raw) {
                    Err(DecodeError::Encoding)
                } else {
                    match spec_names(d, z + 1, (n - 1) as nat) {
                        Err(e) => Err(e),
                        Ok(rest) => Ok(seq![decode_utf8(raw)].add(rest)),
                    }
                }
            },
        }
    }
}

/// A successfully read raw name table has exactly the requested number of
/// names.
pub proof fn lemma_raw_names_len(d: Seq<u8>, pos: int, n: nat)
    ensures
        spec_raw_names(d, pos, n) matches Ok(t) ==> t.len() == n,
    decreases n,
{
    if n > 0 {
        match find_byte(d, pos, 0) {
            None => {},
            Some(z) => {
                lemma_raw_names_len(d, z + 1, (n - 1) as nat);
            },
        }
    }
}

/// A successfully read name table has exactly the requested number of
/// names.
pub proof fn lemma_names_len(d: Seq<u8>, pos: int, n: nat)
    ensures
        spec_names(d, pos, n) matches Ok(t) ==> t.len() == n,
    decreases n,
{
    if n > 0 {
        match find_byte(d, pos, 0) {
            None => {},
            Some(z) => {
                lemma_names_len(d, z + 1, (n - 1) as nat);
            },
        }
    }
}

/// The position of the first name equal to the given bytes.
pub open spec fn spec_first_match(raws: Seq<Seq<u8>>, idb: Seq<u8>) -> Option<int>
    decreases raws.len(),
{
    if raws.len() == 0 {
        None
    } else if raws[0] == idb {
        Some(0)
    } else {
        match spec_first_match(raws.drop_first(), idb) {
            None => None,
            Some(i) => Some(i + 1),
        }
    }
}

/// The bytes one block contributes to its record: a verbatim copy when the
/// stored and decoded sizes agree, otherwise an LZ4 block decoded to
/// exactly the declared size.
pub open spec fn spec_block_payload(d: Seq<u8>, b: Block) -> Result<Seq<u8>, DecodeError> {
    if b.offset as int + b.compressed_len as int > d.len() {
        Err(DecodeError::TruncatedInput)
    } else if b.compressed_len == b.uncompressed_len {
        Ok(d.subrange(b.offset as int, b.offset as int + b.compressed_len as int))
    } else {
        match spec_decompress_exact(
            d.subrange(b.offset as int, b.offset as int + b.compressed_len as int),
            b.uncompressed_len as nat,
        ) {
            Some(p) => Ok(p),
            None => Err(DecodeError::Decompression),
        }
    }
}

/// The declared decoded sizes of a run of blocks, added up.
pub open spec fn sum_uncompressed(bs: Seq<Block>) -> int
    decreases bs.len(),
{
    if bs.len() == 0 {
        0
    } else {
        sum_uncompressed(bs.drop_last()) + bs.last().uncompressed_len
    }
}

/// The payloads of a run of blocks, concatenated in block order; the first
/// failing block fails the whole run.
pub open spec fn spec_concat_payloads(d: Seq<u8>, bs: Seq<Block>) -> Result<Seq<u8>, DecodeError>
    decreases bs.len(),
{
    if bs.len() == 0 {
        Ok(Seq::empty())
    } else {
        match spec_concat_payloads(d, bs.drop_last()) {
            Err(e) => Err(e),
            Ok(front) => match spec_block_payload(d, bs.last()) {
                Err(e) => Err(e),
                Ok(p) => Ok(front.add(p)),
            },
        }
    }
}

/// A record's payload: its slice of the block table, whose declared sizes
/// must add up to the record's declared size, reassembled in block order.
pub open spec fn spec_record_payload(d: Seq<u8>, m: Metadata) -> Result<Seq<u8>, DecodeError> {
    match spec_blocks(d, spec_block_list_offset(d) + 12 * (m.index as int), m.block_count as nat) {
        Err(e) => Err(e),
        Ok(bs) => if sum_uncompressed(bs) != m.uncompressed_len as int {
            Err(DecodeError::Decompression)
        } else {
            spec_concat_payloads(d, bs)
        },
    }
}

/// Looking a record up by id: the first matching name picks the metadata
/// entry at the same ordinal, whose payload is reassembled.
#[verifier::opaque]
pub open spec fn spec_get(d: Seq<u8>, id: Seq<char>) -> Result<Seq<u8>, DecodeError> {
    match spec_raw_names(d, spec_record_list_offset(d), le32(d, 8) as nat) {
        Err(e) => Err(e),
        Ok(raws) => match spec_first_match(raws, vstd::utf8::encode_utf8(id)) {
            None => Err(DecodeError::NotFound),
            Some(i) => {
                if spec_metadata_offset(d) + 44 * (i + 1) > d.len() {
                    Err(DecodeError::TruncatedInput)
                } else {
                    spec_record_payload(d, spec_metadata(d, spec_metadata_offset(d) + 44 * i))
                }
            },
        },
    }
}

/// A lookup whose name table cannot be read fails the same way.
proof fn lemma_get_names_err(d: Seq<u8>, id: Seq<char>, e: DecodeError)
    requires
        spec_raw_names(d, spec_record_list_offset(d), le32(d, 8) as nat) == Err::<
            Seq<Seq<u8>>,
            DecodeError,
        >(e),
    ensures
        spec_get(d, id) == Err::<Seq<u8>, DecodeError>(e),
{
    reveal(spec_get);
}

/// A lookup for an id no name matches reports that nothing was found.
proof fn lemma_get_not_found(d: Seq<u8>, id: Seq<char>, raws: Seq<Seq<u8>>)
    requires
        spec_raw_names(d, spec_record_list_offset(d), le32(d, 8) as nat) == Ok::<
            Seq<Seq<u8>>,
            DecodeError,
        >(raws),
        spec_first_match(raws, vstd::utf8::encode_utf8(id)) is None,
    ensures
        spec_get(d, id) == Err::<Seq<u8>, DecodeError>(DecodeError::NotFound),
{
    reveal(spec_get);
}

/// A matched name whose metadata entry lies past the end of the buffer
/// reports truncation.
proof fn lemma_get_meta_truncated(d: Seq<u8>, id: Seq<char>, raws: Seq<Seq<u8>>, i: int)
    requires
        spec_raw_names(d, spec_record_list_offset(d), le32(d, 8) as nat) == Ok::<
            Seq<Seq<u8>>,
            DecodeError,
        >(raws),
        spec_first_match(raws, vstd::utf8::encode_utf8(id)) == Some(i),
        spec_metadata_offset(d) + 44 * (i + 1) > d.len(),
    ensures
        spec_get(d, id) == Err::<Seq<u8>, DecodeError>(DecodeError::TruncatedInput),
{
    reveal(spec_get);
}

/// A matched name with a readable metadata entry yields that entry's
/// payload.
proof fn lemma_get_found(d: Seq<u8>, id: Seq<char>, raws: Seq<Seq<u8>>, i: int)
    requires
        spec_raw_names(d, spec_record_list_offset(d), le32(d, 8) as nat) == Ok::<
            Seq<Seq<u8>>,
            DecodeError,
        >(raws),
        spec_first_match(raws, vstd::utf8::encode_utf8(id)) == Some(i),
        spec_metadata_offset(d) + 44 * (i + 1) <= d.len(),
    ensures
        spec_get(d, id) == spec_record_payload(d, spec_metadata(d, spec_metadata_offset(d) + 44
            * i)),
{
    reveal(spec_get);
}

/// Every successfully reassembled run of blocks is exactly as long as the
/// blocks' declared decoded sizes add up to.
pub proof fn lemma_payload_is_sum(d: Seq<u8>, bs: Seq<Block>)
    requires
        spec_concat_payloads(d, bs) is Ok,
    ensures
        spec_concat_payloads(d, bs).unwrap().len() == sum_uncompressed(bs),
    decreases bs.len(),
{
    if bs.len() > 0 {
        lemma_payload_is_sum(d, bs.drop_last());
    }
}

/// A record's payload always has exactly the length its metadata declares.
pub proof fn lemma_record_payload_len(d: Seq<u8>, m: Metadata)
    requires
        spec_record_payload(d, m) is Ok,
    ensures
        spec_record_payload(d, m).unwrap().len() == m.uncompressed_len,
{
    let bs = spec_blocks(
        d,
        spec_block_list_offset(d) + 12 * (m.index as int),
        m.block_count as nat,
    ).unwrap();
    lemma_payload_is_sum(d, bs);
}

/// The verbatim reading of a run of blocks: the stored regions copied
/// byte-for-byte and concatenated.
pub open spec fn spec_verbatim_concat(d: Seq<u8>, bs: Seq<Block>) -> Seq<u8>
    decreases bs.len(),
{
    if bs.len() == 0 {
        Seq::empty()
    } else {
        spec_verbatim_concat(d, bs.drop_last()).add(
            d.subrange(
                bs.last().offset as int,
                bs.last().offset as int + bs.last().uncompressed_len as int,
            ),
        )
    }
}

/// Round trip: when every block of a run is stored uncompressed, the
/// reassembled payload is a byte-for-byte copy of the stored regions at
/// the declared offsets.
pub proof fn lemma_uncompressed_round_trip(d: Seq<u8>, bs: Seq<Block>)
    requires
        forall|i: int| 0 <= i < bs.len() ==> bs[i].compressed_len == bs[i].uncompressed_len,
        spec_concat_payloads(d, bs) is Ok,
    ensures
        spec_concat_payloads(d, bs).unwrap() == spec_verbatim_concat(d, bs),
    decreases bs.len(),
{
    if bs.len() > 0 {
        assert(forall|i: int|
            0 <= i < bs.drop_last().len() ==> bs.drop_last()[i] == bs[i]);
        lemma_uncompressed_round_trip(d, bs.drop_last());
    }
}

/// Two archives over the same bytes answer every lookup alike: what a
/// lookup returns is a function of the archive bytes and the id alone, so
/// repeating a lookup on an unmodified source repeats its result.
pub proof fn lemma_get_idempotent(a1: Archive, a2: Archive, id: Seq<char>)
    requires
        a1.data@ == a2.data@,
    ensures
        spec_get(a1.data@, id) == spec_get(a2.data@, id),
{
}

/// A prefix never adds up to more than the whole run.
proof fn lemma_sum_take_le(bs: Seq<Block>, i: int)
    requires
        0 <= i <= bs.len(),
    ensures
        sum_uncompressed(bs.take(i)) <= sum_uncompressed(bs),
    decreases bs.len() - i,
{
    if i < bs.len() {
        assert(bs.take(i + 1).drop_last() =~= bs.take(i));
        assert(bs.take(i + 1).last() == bs[i]);
        lemma_sum_take_le(bs, i + 1);
    } else {
        assert(bs.take(i) =~= bs);
    }
}

/// A failing prefix fails the whole run with the same error.
proof fn lemma_concat_prefix_err(d: Seq<u8>, bs: Seq<Block>, i: int)
    requires
        0 <= i <= bs.len(),
        spec_concat_payloads(d, bs.take(i)) is Err,
    ensures
        spec_concat_payloads(d, bs) == spec_concat_payloads(d, bs.take(i)),
    decreases bs.len() - i,
{
    if i < bs.len() {
        assert(bs.take(i + 1).drop_last() =~= bs.take(i));
        lemma_concat_prefix_err(d, bs, i + 1);
    } else {
        assert(bs.take(i) =~= bs);
    }
}

/// The first name equal to the given bytes, found at `i`.
proof fn lemma_first_match_at(raws: Seq<Seq<u8>>, idb: Seq<u8>, i: int)
    requires
        0 <= i < raws.len(),
        forall|k: int| 0 <= k < i ==> raws[k] != idb,
        raws[i] == idb,
    ensures
        spec_first_match(raws, idb) == Some(i),
    decreases i,
{
    if i > 0 {
        assert(raws[0] != idb);
        lemma_first_match_at(raws.drop_first(), idb, i - 1);
    }
}

/// No name equals the given bytes, so there is no match.
proof fn lemma_first_match_none(raws: Seq<Seq<u8>>, idb: Seq<u8>)
    requires
        forall|k: int| 0 <= k < raws.len() ==> raws[k] != idb,
    ensures
        spec_first_match(raws, idb) is None,
    decreases raws.len(),
{
    if raws.len() > 0 {
        lemma_first_match_none(raws.drop_first(), idb);
    }
}

/// Scans a name list for the first entry equal to the given bytes.
fn find_name(raws: &Vec<Vec<u8>>, idb: &Vec<u8>) -> (r: Option<usize>)
    ensures
        match r {
            Some(i) => spec_first_match(raws.deep_view(), idb@) == Some(i as int) && i
                < raws.len(),
            None => spec_first_match(raws.deep_view(), idb@) is None,
        },
{
    let ghost rv = raws.deep_view();
    let mut i: usize = 0;
    while i < raws.len()
        invariant
            raws.deep_view() == rv,
            i <= rv.len(),
            forall|k: int| 0 <= k < i ==> rv[k] != idb@,
        decreases rv.len() - i,
    {
        proof {
            assert(rv[i as int] =~= raws@[i as int]@);
        }
        if bytes_eq(&raws[i], idb) {
            proof {
                lemma_first_match_at(rv, idb@, i as int);
            }
            return Some(i);
        }
        i = i + 1;
    }
    proof {
        lemma_first_match_none(rv, idb@);
    }
    None
}

/// Appends one vector to another.
fn vec_extend(dst: &mut Vec<u8>, src: Vec<u8>)
    ensures
        final(dst)@ == old(dst)@.add(src@),
{
    let mut src = src;
    dst.append(&mut src);
}

/// Reads the raw bytes of `n` null-terminated names from `pos`, appending
/// them to `out`.
fn read_raw_names_into(d: &Vec<u8>, pos: u64, n: u32, out: &mut Vec<Vec<u8>>) -> (r: Result<
    u64,
    DecodeError,
>)
    ensures
        match r {
            Ok(p) => spec_raw_names(d@, pos as int, n as nat) matches Ok(t)
                && final(out).deep_view() == old(out).deep_view().add(t),
            Err(e) => spec_raw_names(d@, pos as int, n as nat) == Err::<
                Seq<Seq<u8>>,
                DecodeError,
            >(e),
        },
    decreases n,
{
    if n == 0 {
        proof {
            assert(out.deep_view() =~= old(out).deep_view().add(Seq::empty()));
        }
        return Ok(pos);
    }
    if pos > d.len() as u64 {
        return Err(DecodeError::TruncatedInput);
    }
    let z = match scan_byte(d, pos as usize, 0) {
        Some(z) => z,
        None => {
            return Err(DecodeError::TruncatedInput);
        },
    };
    proof {
        lemma_find_byte(d@, pos as int, 0);
    }
    let raw = match read_bytes(d, pos as usize, z - pos as usize) {
        Ok(b) => b,
        Err(e) => {
            return Err(e);
        },
    };
    proof {
        assert(raw@ =~= d@.subrange(pos as int, z as int));
    }
    let ghost mid = out.deep_view().push(raw@);
    out.push(raw);
    proof {
        assert(out.deep_view() =~~= mid);
    }
    match read_raw_names_into(d, z as u64 + 1, n - 1, out) {
        Ok(p) => {
            proof {
                let t0 = spec_raw_names(d@, z as int + 1, (n - 1) as nat).unwrap();
                assert(out.deep_view() =~~= old(out).deep_view().add(
                    seq![d@.subrange(pos as int, z as int)].add(t0),
                ));
            }
            Ok(p)
        },
        Err(e) => Err(e),
    }
}

/// Reads `n` null-terminated names from `pos`, decoding each as UTF-8 and
/// appending them to `out`.
fn read_names_into(d: &Vec<u8>, pos: u64, n: u32, out: &mut Vec<String>) -> (r: Result<
    u64,
    DecodeError,
>)
    ensures
        match r {
            Ok(p) => spec_names(d@, pos as int, n as nat) matches Ok(t)
                && final(out).deep_view() == old(out).deep_view().add(t),
            Err(e) => spec_names(d@, pos as int, n as nat) == Err::<
                Seq<Seq<char>>,
                DecodeError,
            >(e),
        },
    decreases n,
{
    if n == 0 {
        proof {
            assert(out.deep_view() =~= old(out).deep_view().add(Seq::empty()));
        }
        return Ok(pos);
    }
    if pos > d.len() as u64 {
        return Err(DecodeError::TruncatedInput);
    }
    let z = match scan_byte(d, pos as usize, 0) {
        Some(z) => z,
        None => {
            return Err(DecodeError::TruncatedInput);
        },
    };
    proof {
        lemma_find_byte(d@, pos as int, 0);
    }
    let raw = match read_bytes(d, pos as usize, z - pos as usize) {
        Ok(b) => b,
        Err(e) => {
            return Err(e);
        },
    };
    proof {
        assert(raw@ =~= d@.subrange(pos as int, z as int));
    }
    let s = match utf8_to_string(&raw) {
        Ok(s) => s,
        Err(e) => {
            return Err(e);
        },
    };
    let ghost mid = out.deep_view().push(s@);
    out.push(s);
    proof {
        assert(out.deep_view() =~= mid);
    }
    match read_names_into(d, z as u64 + 1, n - 1, out) {
        Ok(p) => {
            proof {
                let t0 = spec_names(d@, z as int + 1, (n - 1) as nat).unwrap();
                assert(out.deep_view() =~= old(out).deep_view().add(
                    seq![decode_utf8(d@.subrange(pos as int, z as int))].add(t0),
                ));
            }
            Ok(p)
        },
        Err(e) => Err(e),
    }
}

/// Reads `count` block entries starting at byte offset `start`.
fn read_blocks(d: &Vec<u8>, start: u64, count: u32) -> (r: Result<Vec<Block>, DecodeError>)
    requires
        start <= 0x20_0000_0000u64,
    ensures
        match r {
            Ok(v) => spec_blocks(d@, start as int, count as nat) == Ok::<Seq<Block>, DecodeError>(
                v@,
            ),
            Err(e) => spec_blocks(d@, start as int, count as nat) == Err::<
                Seq<Block>,
                DecodeError,
            >(e),
        },
{
    if count == 0 {
        let out: Vec<Block> = Vec::new();
        proof {
            assert(out@ =~= Seq::<Block>::empty());
        }
        return Ok(out);
    }
    if start + 12 * (count as u64) > d.len() as u64 {
        return Err(DecodeError::TruncatedInput);
    }
    let mut out: Vec<Block> = Vec::new();
    let mut i: u32 = 0;
    while i < count
        invariant
            start + 12 * (count as int) <= d.len(),
            i <= count,
            out@ == Seq::new(i as nat, |k: int| spec_block(d@, start + 12 * k)),
        decreases count - i,
    {
        let p = (start + 12 * (i as u64)) as usize;
        let offset = read_u32(d, p).unwrap();
        let compressed_len = read_u32(d, p + 4).unwrap();
        let uncompressed_len = read_u32(d, p + 8).unwrap();
        out.push(Block { offset, compressed_len, uncompressed_len });
        proof {
            assert(out@ =~= Seq::new((i + 1) as nat, |k: int| spec_block(d@, start + 12 * k)));
        }
        i = i + 1;
    }
    proof {
        assert(out@ =~= spec_blocks(d@, start as int, count as nat).unwrap());
    }
    Ok(out)
}

/// Reads the metadata entry stored at byte offset `p`.
fn read_metadata_at(d: &Vec<u8>, p: u64) -> (m: Metadata)
    requires
        p + 44 <= d.len(),
    ensures
        m == spec_metadata(d@, p as int),
{
    let p = p as usize;
    Metadata {
        version: read_u32(d, p).unwrap(),
        offset: read_u32(d, p + 4).unwrap(),
        compressed_len: read_u32(d, p + 8).unwrap(),
        uncompressed_len: read_u32(d, p + 12).unwrap(),
        last_modified_at: read_u64(d, p + 20).unwrap(),
        block_count: read_u32(d, p + 28).unwrap(),
        index: read_u32(d, p + 32).unwrap(),
        record_name_len: read_u32(d, p + 36).unwrap(),
        record_name_offset: read_u32(d, p + 40).unwrap(),
    }
}

impl Archive {
    /// The decoded header fields agree with the underlying bytes.
    pub open spec fn wf(self) -> bool {
        &&& spec_arc_header_ok(self.data@)
        &&& self.head == le32(self.data@, 0)
        &&& self.version == le32(self.data@, 4)
        &&& self.record_count == le32(self.data@, 8)
        &&& self.block_count == le32(self.data@, 12)
        &&& self.block_list_len == le32(self.data@, 16)
        &&& self.record_list_len == le32(self.data@, 20)
        &&& self.block_list_offset == le32(self.data@, 24)
    }

    /// Opens an archive over an in-memory buffer, validating magic and
    /// version.
    pub fn from(data: Vec<u8>) -> (r: Result<Archive, DecodeError>)
        ensures
            r is Ok <==> spec_arc_header_ok(data@),
            r matches Ok(a) ==> a.wf() && a.data@ == data@,
            data@.len() < 4 ==> r == Err::<Archive, DecodeError>(DecodeError::TruncatedInput),
            data@.len() >= 4 && le32(data@, 0) != ARC_MAGIC ==> r == Err::<Archive, DecodeError>(
                DecodeError::Format,
            ),
            4 <= data@.len() < 8 && le32(data@, 0) == ARC_MAGIC ==> r == Err::<
                Archive,
                DecodeError,
            >(DecodeError::TruncatedInput),
            data@.len() >= 8 && le32(data@, 0) == ARC_MAGIC && le32(data@, 4) != ARC_VERSION ==> r
                == Err::<Archive, DecodeError>(DecodeError::Format),
            data@.len() < 28 && le32(data@, 0) == ARC_MAGIC && le32(data@, 4) == ARC_VERSION ==> r
                == Err::<Archive, DecodeError>(DecodeError::TruncatedInput),
    {
        let head = match read_u32(&data, 0) {
            Ok(v) => v,
            Err(e) => {
                return Err(e);
            },
        };
        if head != ARC_MAGIC {
            return Err(DecodeError::Format);
        }
        let version = match read_u32(&data, 4) {
            Ok(v) => v,
            Err(e) => {
                return Err(e);
            },
        };
        if version != ARC_VERSION {
            return Err(DecodeError::Format);
        }
        if data.len() < 28 {
            return Err(DecodeError::TruncatedInput);
        }
        let record_count = read_u32(&data, 8).unwrap();
        let block_count = read_u32(&data, 12).unwrap();
        let block_list_len = read_u32(&data, 16).unwrap();
        let record_list_len = read_u32(&data, 20).unwrap();
        let block_list_offset = read_u32(&data, 24).unwrap();
        Ok(
            Archive {
                data,
                head,
                version,
                record_count,
                block_count,
                block_list_offset,
                block_list_len,
                record_list_len,
            },
        )
    }

    /// Opens an archive over a borrowed byte slice, copying it.
    pub fn parse(bytes: &[u8]) -> (r: Result<Archive, DecodeError>)
        ensures
            r is Ok <==> spec_arc_header_ok(bytes@),
            r matches Ok(a) ==> a.wf() && a.data@ == bytes@,
            bytes@.len() < 4 ==> r == Err::<Archive, DecodeError>(DecodeError::TruncatedInput),
            bytes@.len() >= 4 && le32(bytes@, 0) != ARC_MAGIC ==> r == Err::<Archive, DecodeError>(
                DecodeError::Format,
            ),
            bytes@.len() >= 8 && le32(bytes@, 0) == ARC_MAGIC && le32(bytes@, 4) != ARC_VERSION
                ==> r == Err::<Archive, DecodeError>(DecodeError::Format),
            bytes@.len() < 28 && le32(bytes@, 0) == ARC_MAGIC && le32(bytes@, 4) == ARC_VERSION
                ==> r == Err::<Archive, DecodeError>(DecodeError::TruncatedInput),
    {
        Archive::from(vstd::slice::slice_to_vec(bytes))
    }

    /// Where the block table starts.
    pub fn block_list_offset(&self) -> (r: u64)
        requires
            self.wf(),
        ensures
            r == spec_block_list_offset(self.data@),
    {
        self.block_list_offset as u64
    }

    /// Where the record-name table starts.
    pub fn record_list_offset(&self) -> (r: u64)
        requires
            self.wf(),
        ensures
            r == spec_record_list_offset(self.data@),
    {
        self.block_list_offset() + self.block_list_len as u64
    }

    /// Where the metadata table starts.
    pub fn metadata_offset(&self) -> (r: u64)
        requires
            self.wf(),
        ensures
            r == spec_metadata_offset(self.data@),
    {
        self.record_list_offset() + self.record_list_len as u64
    }

    /// Reads the whole metadata table.
    pub fn iter_metadata(&self) -> (r: Result<Vec<Metadata>, DecodeError>)
        requires
            self.wf(),
        ensures
            match r {
                Ok(v) => spec_metadata_table(self.data@) == Ok::<Seq<Metadata>, DecodeError>(v@),
                Err(e) => spec_metadata_table(self.data@) == Err::<Seq<Metadata>, DecodeError>(e),
            },
    {
        let start = self.metadata_offset();
        let n = self.record_count;
        if n > 0 && start + 44 * (n as u64) > self.data.len() as u64 {
            return Err(DecodeError::TruncatedInput);
        }
        let mut out: Vec<Metadata> = Vec::new();
        let mut i: u32 = 0;
        while i < n
            invariant
                self.wf(),
                start == spec_metadata_offset(self.data@),
                n == self.record_count,
                n > 0 ==> start + 44 * (n as int) <= self.data.len(),
                i <= n,
                out@ == Seq::new(i as nat, |k: int| spec_metadata(self.data@, start + 44 * k)),
            decreases n - i,
        {
            let m = read_metadata_at(&self.data, start + 44 * (i as u64));
            out.push(m);
            proof {
                assert(out@ =~= Seq::new(
                    (i + 1) as nat,
                    |k: int| spec_metadata(self.data@, start + 44 * k),
                ));
            }
            i = i + 1;
        }
        proof {
            assert(out@ =~= spec_metadata_table(self.data@).unwrap());
        }
        Ok(out)
    }

    /// Reads the whole record-name table, decoding each name as UTF-8.
    pub fn iter_record_names(&self) -> (r: Result<Vec<String>, DecodeError>)
        requires
            self.wf(),
        ensures
            match r {
                Ok(v) => spec_names(
                    self.data@,
                    spec_record_list_offset(self.data@),
                    self.record_count as nat,
                ) == Ok::<Seq<Seq<char>>, DecodeError>(v.deep_view()),
                Err(e) => spec_names(
                    self.data@,
                    spec_record_list_offset(self.data@),
                    self.record_count as nat,
                ) == Err::<Seq<Seq<char>>, DecodeError>(e),
            },
    {
        let mut out: Vec<String> = Vec::new();
        match read_names_into(&self.data, self.record_list_offset(), self.record_count, &mut out) {
            Ok(_) => {
                proof {
                    assert(out.deep_view() =~= spec_names(
                        self.data@,
                        spec_record_list_offset(self.data@),
                        self.record_count as nat,
                    ).unwrap());
                }
                Ok(out)
            },
            Err(e) => Err(e),
        }
    }

    /// Reassembles one record from its metadata: reads its slice of the
    /// block table, checks the declared sizes add up, and concatenates
    /// every block's bytes, decompressing where a block is compressed.
    fn get_inner(&self, metadata: &Metadata, id: &str) -> (r: Result<Record, DecodeError>)
        requires
            self.wf(),
        ensures
            match r {
                Ok(rec) => spec_record_payload(self.data@, *metadata) == Ok::<Seq<u8>, DecodeError>(
                    rec.data@,
                ) && rec.id@ == id@ && rec.data@.len() == metadata.uncompressed_len,
                Err(e) => spec_record_payload(self.data@, *metadata) == Err::<Seq<u8>, DecodeError>(
                    e,
                ),
            },
    {
        let start = self.block_list_offset() + 12 * (metadata.index as u64);
        let blocks = match read_blocks(&self.data, start, metadata.block_count) {
            Ok(v) => v,
            Err(e) => {
                return Err(e);
            },
        };
        let ghost bs = blocks@;
        let mut total: u64 = 0;
        let mut i: usize = 0;
        while i < blocks.len()
            invariant
                self.wf(),
                blocks@ == bs,
                spec_blocks(
                    self.data@,
                    spec_block_list_offset(self.data@) + 12 * (metadata.index as int),
                    metadata.block_count as nat,
                ) == Ok::<Seq<Block>, DecodeError>(bs),
                i <= bs.len(),
                total <= 0xffff_ffffu64,
                total == sum_uncompressed(bs.take(i as int)),
            decreases bs.len() - i,
        {
            proof {
                assert(bs.take(i + 1).drop_last() =~= bs.take(i as int));
                assert(bs.take(i + 1).last() == bs[i as int]);
            }
            total = total + blocks[i].uncompressed_len as u64;
            if total > 0xffff_ffffu64 {
                proof {
                    lemma_sum_take_le(bs, i + 1);
                }
                return Err(DecodeError::Decompression);
            }
            i = i + 1;
        }
        proof {
            assert(bs.take(bs.len() as int) =~= bs);
        }
        if total != metadata.uncompressed_len as u64 {
            return Err(DecodeError::Decompression);
        }
        let mut data: Vec<u8> = Vec::new();
        let mut j: usize = 0;
        proof {
            assert(data@ =~= spec_concat_payloads(self.data@, bs.take(0)).unwrap());
        }
        while j < blocks.len()
            invariant
                self.wf(),
                blocks@ == bs,
                spec_blocks(
                    self.data@,
                    spec_block_list_offset(self.data@) + 12 * (metadata.index as int),
                    metadata.block_count as nat,
                ) == Ok::<Seq<Block>, DecodeError>(bs),
                sum_uncompressed(bs) == metadata.uncompressed_len as int,
                j <= bs.len(),
                spec_concat_payloads(self.data@, bs.take(j as int)) == Ok::<Seq<u8>, DecodeError>(
                    data@,
                ),
            decreases bs.len() - j,
        {
            let b = blocks[j];
            proof {
                assert(bs.take(j + 1).drop_last() =~= bs.take(j as int));
                assert(bs.take(j + 1).last() == bs[j as int]);
            }
            if b.offset as u64 + b.compressed_len as u64 > self.data.len() as u64 {
                proof {
                    lemma_concat_prefix_err(self.data@, bs, j + 1);
                }
                return Err(DecodeError::TruncatedInput);
            }
            let src = read_bytes(&self.data, b.offset as usize, b.compressed_len as usize).unwrap();
            if b.compressed_len == b.uncompressed_len {
                vec_extend(&mut data, src);
            } else {
                let chunk = match decompress_exact(&src, b.uncompressed_len as usize) {
                    Ok(c) => c,
                    Err(e) => {
                        proof {
                            lemma_concat_prefix_err(self.data@, bs, j + 1);
                        }
                        return Err(e);
                    },
                };
                vec_extend(&mut data, chunk);
            }
            j = j + 1;
        }
        proof {
            assert(bs.take(bs.len() as int) =~= bs);
            lemma_payload_is_sum(self.data@, bs);
        }
        Ok(Record { id: id.to_owned(), data })
    }

    /// Looks a record up by id: scans the name table for the first exact
    /// match and reassembles the record at the same ordinal. The archive is
    /// not changed by a lookup, failed or not.
    #[verifier::rlimit(100)]
    pub fn get(&self, id: &str) -> (r: Result<Record, DecodeError>)
        requires
            self.wf(),
        ensures
            match r {
                Ok(rec) => spec_get(self.data@, id@) == Ok::<Seq<u8>, DecodeError>(rec.data@)
                    && rec.id@ == id@,
                Err(e) => spec_get(self.data@, id@) == Err::<Seq<u8>, DecodeError>(e),
            },
    {
        let idb = vstd::slice::slice_to_vec(id.as_bytes());
        let mut raws: Vec<Vec<u8>> = Vec::new();
        match read_raw_names_into(&self.data, self.record_list_offset(), self.record_count, &mut raws)
        {
            Ok(_) => {},
            Err(e) => {
                proof {
                    lemma_get_names_err(self.data@, id@, e);
                }
                return Err(e);
            },
        }
        proof {
            lemma_raw_names_len(
                self.data@,
                spec_record_list_offset(self.data@),
                self.record_count as nat,
            );
            assert(raws@.len() == raws.deep_view().len());
        }
        match find_name(&raws, &idb) {
            Some(i) => {
                let mo = self.metadata_offset();
                if mo + 44 * (i as u64 + 1) > self.data.len() as u64 {
                    proof {
                        lemma_get_meta_truncated(self.data@, id@, raws.deep_view(), i as int);
                    }
                    return Err(DecodeError::TruncatedInput);
                }
                proof {
                    lemma_get_found(self.data@, id@, raws.deep_view(), i as int);
                }
                let m = read_metadata_at(&self.data, mo + 44 * (i as u64));
                self.get_inner(&m, id)
            },
            None => {
                proof {
                    lemma_get_not_found(self.data@, id@, raws.deep_view());
                }
                Err(DecodeError::NotFound)
            },
        }
    }

    /// Reads both tables whole and reassembles every record, pairing names
    /// and metadata by ordinal. One record's failure is kept as that
    /// element's error and does not stop the others.
    pub fn iter_records(&self) -> (r: Result<Vec<Result<Record, DecodeError>>, DecodeError>)
        requires
            self.wf(),
        ensures
            match r {
                Ok(v) => {
                    &&& spec_metadata_table(self.data@) matches Ok(ms)
                    &&& spec_names(
                        self.data@,
                        spec_record_list_offset(self.data@),
                        self.record_count as nat,
                    ) matches Ok(ns)
                    &&& v.len() == ms.len()
                    &&& ms.len() == ns.len()
                    &&& forall|k: int|
                        0 <= k < v.len() ==> match #[trigger] v@[k] {
                            Ok(rec) => spec_record_payload(self.data@, ms[k]) == Ok::<
                                Seq<u8>,
                                DecodeError,
                            >(rec.data@) && rec.id@ == ns[k],
                            Err(e) => spec_record_payload(self.data@, ms[k]) == Err::<
                                Seq<u8>,
                                DecodeError,
                            >(e),
                        }
                },
                Err(e) => spec_metadata_table(self.data@) == Err::<Seq<Metadata>, DecodeError>(e)
                    || (spec_metadata_table(self.data@) is Ok && spec_names(
                    self.data@,
                    spec_record_list_offset(self.data@),
                    self.record_count as nat,
                ) == Err::<Seq<Seq<char>>, DecodeError>(e)),
            },
    {
        let metadata = match self.iter_metadata() {
            Ok(v) => v,
            Err(e) => {
                return Err(e);
            },
        };
        let names = match self.iter_record_names() {
            Ok(v) => v,
            Err(e) => {
                return Err(e);
            },
        };
        proof {
            lemma_names_len(
                self.data@,
                spec_record_list_offset(self.data@),
                self.record_count as nat,
            );
        }
        if metadata.len() != names.len() {
            // both tables hold record_count entries, so the pairing
            // invariant is provably never violated here
            return Err(DecodeError::StructuralInconsistency);
        }
        let mut out: Vec<Result<Record, DecodeError>> = Vec::new();
        let mut i: usize = 0;
        while i < metadata.len()
            invariant
                self.wf(),
                spec_metadata_table(self.data@) == Ok::<Seq<Metadata>, DecodeError>(metadata@),
                spec_names(
                    self.data@,
                    spec_record_list_offset(self.data@),
                    self.record_count as nat,
                ) == Ok::<Seq<Seq<char>>, DecodeError>(names.deep_view()),
                metadata.len() == names.len(),
                i <= metadata.len(),
                out.len() == i,
                forall|k: int|
                    0 <= k < i ==> match #[trigger] out@[k] {
                        Ok(rec) => spec_record_payload(self.data@, metadata@[k]) == Ok::<
                            Seq<u8>,
                            DecodeError,
                        >(rec.data@) && rec.id@ == names.deep_view()[k],
                        Err(e) => spec_record_payload(self.data@, metadata@[k]) == Err::<
                            Seq<u8>,
                            DecodeError,
                        >(e),
                    },
            decreases metadata.len() - i,
        {
            let rec = self.get_inner(&metadata[i], names[i].as_str());
            out.push(rec);
            i = i + 1;
        }
        Ok(out)
    }
}

} // verus!
