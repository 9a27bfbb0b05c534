use arcdb::arc::Archive;
use arcdb::DecodeError;

/// One record description for the builder: its name, its payload, and
/// whether the payload is stored LZ4-compressed or verbatim.
struct ArcRecord<'a> {
    name: &'a str,
    data: &'a [u8],
    compressed: bool,
}

/// Builds a complete archive file image: header, block table, name table,
/// metadata table, then the block payloads (one block per record).
fn arc_build(records: &[ArcRecord]) -> Vec<u8> {
    let n = records.len() as u32;
    let header_len = 28u32;
    let block_list_len = 12 * n;
    let record_list_len: u32 = records.iter().map(|r| r.name.len() as u32 + 1).sum();
    let metadata_len = 44 * n;
    let blobs_start = header_len + block_list_len + record_list_len + metadata_len;

    let mut blobs: Vec<u8> = Vec::new();
    let mut blocks: Vec<(u32, u32, u32)> = Vec::new();
    for r in records {
        let offset = blobs_start + blobs.len() as u32;
        if r.compressed {
            let packed = lz4::block::compress(r.data, None, false).unwrap();
            assert_ne!(packed.len(), r.data.len(), "test payload must not store verbatim");
            blocks.push((offset, packed.len() as u32, r.data.len() as u32));
            blobs.extend_from_slice(&packed);
        } else {
            blocks.push((offset, r.data.len() as u32, r.data.len() as u32));
            blobs.extend_from_slice(r.data);
        }
    }

    let mut out: Vec<u8> = Vec::new();
    out.extend_from_slice(&4411969u32.to_le_bytes());
    out.extend_from_slice(&3u32.to_le_bytes());
    out.extend_from_slice(&n.to_le_bytes());
    out.extend_from_slice(&n.to_le_bytes());
    out.extend_from_slice(&block_list_len.to_le_bytes());
    out.extend_from_slice(&record_list_len.to_le_bytes());
    out.extend_from_slice(&header_len.to_le_bytes());
    for (offset, clen, ulen) in &blocks {
        out.extend_from_slice(&offset.to_le_bytes());
        out.extend_from_slice(&clen.to_le_bytes());
        out.extend_from_slice(&ulen.to_le_bytes());
    }
    for r in records {
        out.extend_from_slice(r.name.as_bytes());
        out.push(0);
    }
    for (i, r) in records.iter().enumerate() {
        let (_, clen, ulen) = blocks[i];
        out.extend_from_slice(&1u32.to_le_bytes());
        out.extend_from_slice(&0u32.to_le_bytes());
        out.extend_from_slice(&clen.to_le_bytes());
        out.extend_from_slice(&ulen.to_le_bytes());
        out.extend_from_slice(&0u32.to_le_bytes());
        out.extend_from_slice(&7u64.to_le_bytes());
        out.extend_from_slice(&1u32.to_le_bytes());
        out.extend_from_slice(&(i as u32).to_le_bytes());
        out.extend_from_slice(&(r.name.len() as u32).to_le_bytes());
        out.extend_from_slice(&0u32.to_le_bytes());
    }
    out.extend_from_slice(&blobs);
    out
}

#[test]
fn arc_open_reads_header_back() {
    let file = arc_build(&[ArcRecord { name: "a.txt", data: b"hello", compressed: false }]);
    let arc = Archive::from(file.clone()).unwrap();
    assert_eq!(arc.head.to_le_bytes(), [file[0], file[1], file[2], file[3]]);
    assert_eq!(arc.version.to_le_bytes(), [file[4], file[5], file[6], file[7]]);
    assert_eq!(arc.head, 4411969);
    assert_eq!(arc.version, 3);
    assert_eq!(arc.record_count, 1);
}

#[test]
fn arc_open_rejects_bad_magic() {
    let mut file = arc_build(&[ArcRecord { name: "a", data: b"x", compressed: false }]);
    file[0] = file[0].wrapping_add(1);
    assert_eq!(Archive::from(file).unwrap_err(), DecodeError::Format);
}

#[test]
fn arc_open_rejects_bad_version() {
    let mut file = arc_build(&[ArcRecord { name: "a", data: b"x", compressed: false }]);
    file[4] = 9;
    assert_eq!(Archive::from(file).unwrap_err(), DecodeError::Format);
}

#[test]
fn arc_open_rejects_truncated_header() {
    assert_eq!(Archive::from(vec![1, 2]).unwrap_err(), DecodeError::TruncatedInput);
    let file = arc_build(&[]);
    assert_eq!(Archive::from(file[..10].to_vec()).unwrap_err(), DecodeError::TruncatedInput);
}

#[test]
fn arc_offsets_are_additive() {
    let file = arc_build(&[
        ArcRecord { name: "one", data: b"abc", compressed: false },
        ArcRecord { name: "two", data: b"defg", compressed: false },
    ]);
    let arc = Archive::from(file).unwrap();
    assert_eq!(arc.block_list_offset(), 28);
    assert_eq!(arc.record_list_offset(), 28 + 24);
    assert_eq!(arc.metadata_offset(), 28 + 24 + 8);
}

#[test]
fn arc_get_roundtrip_uncompressed() {
    // A verbatim block must come back as a byte-for-byte copy of the
    // stored region.
    let file = arc_build(&[ArcRecord { name: "plain.txt", data: b"uncompressed bytes", compressed: false }]);
    let arc = Archive::from(file.clone()).unwrap();
    let rec = arc.get("plain.txt").unwrap();
    assert_eq!(rec.id, "plain.txt");
    assert_eq!(rec.data, b"uncompressed bytes");
    let start = file.len() - rec.data.len();
    assert_eq!(&file[start..], &rec.data[..]);
}

#[test]
fn arc_get_decompresses_block() {
    let payload: Vec<u8> = std::iter::repeat(b"abcd".iter().copied()).flatten().take(512).collect();
    let file = arc_build(&[ArcRecord { name: "packed.bin", data: &payload, compressed: true }]);
    let arc = Archive::from(file).unwrap();
    let rec = arc.get("packed.bin").unwrap();
    assert_eq!(rec.data, payload);
    assert_eq!(rec.data.len(), 512);
}

#[test]
fn arc_get_mixed_blocks_concatenate_in_order() {
    let packed: Vec<u8> = std::iter::repeat(b"xy".iter().copied()).flatten().take(256).collect();
    let file = arc_build(&[
        ArcRecord { name: "a", data: b"first", compressed: false },
        ArcRecord { name: "b", data: &packed, compressed: true },
        ArcRecord { name: "c", data: b"third", compressed: false },
    ]);
    let arc = Archive::from(file).unwrap();
    assert_eq!(arc.get("a").unwrap().data, b"first");
    assert_eq!(arc.get("b").unwrap().data, packed);
    assert_eq!(arc.get("c").unwrap().data, b"third");
}

#[test]
fn arc_get_is_idempotent() {
    let file = arc_build(&[ArcRecord { name: "id.txt", data: b"stable", compressed: false }]);
    let arc = Archive::from(file).unwrap();
    let first = arc.get("id.txt").unwrap();
    let second = arc.get("id.txt").unwrap();
    assert_eq!(first.id, second.id);
    assert_eq!(first.data, second.data);
}

#[test]
fn arc_get_absent_id_fails_then_valid_get_succeeds() {
    // A failed lookup must not disturb a later valid one.
    let file = arc_build(&[ArcRecord { name: "real.txt", data: b"payload", compressed: false }]);
    let arc = Archive::from(file).unwrap();
    assert_eq!(arc.get("missing.txt").unwrap_err(), DecodeError::NotFound);
    let rec = arc.get("real.txt").unwrap();
    assert_eq!(rec.data, b"payload");
}

#[test]
fn arc_block_count_past_eof_is_truncation() {
    // Metadata claiming more blocks than exist before the end of the file
    // must fail with a truncation error, never read out of bounds.
    let mut file = arc_build(&[ArcRecord { name: "a", data: b"z", compressed: false }]);
    // metadata starts at 28 + 12 + 2; block_count is 28 bytes in
    let meta = 28 + 12 + 2;
    let bc = meta + 28;
    file[bc..bc + 4].copy_from_slice(&100000u32.to_le_bytes());
    let arc = Archive::from(file).unwrap();
    assert_eq!(arc.get("a").unwrap_err(), DecodeError::TruncatedInput);
}

#[test]
fn arc_payload_len_matches_metadata() {
    // The declared uncompressed length and the reassembled payload length
    // agree; a corrupted declaration is a decompression failure.
    let file = arc_build(&[ArcRecord { name: "a", data: b"12345678", compressed: false }]);
    let arc = Archive::from(file.clone()).unwrap();
    let m = arc.iter_metadata().unwrap()[0];
    assert_eq!(arc.get("a").unwrap().data.len() as u32, m.uncompressed_len);

    let mut bad = file.clone();
    let meta = 28 + 12 + 2;
    let ul = meta + 12;
    bad[ul..ul + 4].copy_from_slice(&9u32.to_le_bytes());
    let arc2 = Archive::from(bad).unwrap();
    assert_eq!(arc2.get("a").unwrap_err(), DecodeError::Decompression);
}

#[test]
fn arc_iter_records_pairs_names_and_payloads() {
    let file = arc_build(&[
        ArcRecord { name: "n0", data: b"d0", compressed: false },
        ArcRecord { name: "n1", data: b"d111", compressed: false },
    ]);
    let arc = Archive::from(file).unwrap();
    let all = arc.iter_records().unwrap();
    assert_eq!(all.len(), 2);
    let r0 = all[0].as_ref().unwrap();
    let r1 = all[1].as_ref().unwrap();
    assert_eq!((r0.id.as_str(), &r0.data[..]), ("n0", &b"d0"[..]));
    assert_eq!((r1.id.as_str(), &r1.data[..]), ("n1", &b"d111"[..]));
}

#[test]
fn arc_iter_record_names_rejects_bad_utf8() {
    let mut file = arc_build(&[ArcRecord { name: "ab", data: b"x", compressed: false }]);
    // first name byte sits right after the block table
    file[28 + 12] = 0xff;
    let arc = Archive::from(file).unwrap();
    assert_eq!(arc.iter_record_names().unwrap_err(), DecodeError::Encoding);
}

#[test]
fn arc_iter_metadata_reads_exact_fields() {
    let file = arc_build(&[ArcRecord { name: "m", data: b"abcde", compressed: false }]);
    let arc = Archive::from(file).unwrap();
    let ms = arc.iter_metadata().unwrap();
    assert_eq!(ms.len(), 1);
    assert_eq!(ms[0].version, 1);
    assert_eq!(ms[0].compressed_len, 5);
    assert_eq!(ms[0].uncompressed_len, 5);
    assert_eq!(ms[0].last_modified_at, 7);
    assert_eq!(ms[0].block_count, 1);
    assert_eq!(ms[0].index, 0);
    assert_eq!(ms[0].record_name_len, 1);
}

#[test]
fn arc_corrupt_compressed_block_fails_decompression() {
    let payload: Vec<u8> = std::iter::repeat(b"qrst".iter().copied()).flatten().take(256).collect();
    let mut file = arc_build(&[ArcRecord { name: "bad", data: &payload, compressed: true }]);
    // damage the stored block bytes, which start right after the tables
    let blobs_start = 28 + 12 + 4 + 44;
    for b in &mut file[blobs_start..blobs_start + 8] {
        *b ^= 0x5a;
    }
    let arc = Archive::from(file).unwrap();
    assert_eq!(arc.get("bad").unwrap_err(), DecodeError::Decompression);
}
