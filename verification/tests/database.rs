use arcdb::arz::Database;
use arcdb::values::DatabaseValue;
use arcdb::DecodeError;

/// One tagged entry for the payload builder: its type code, its name's
/// string-table index, and its raw 32-bit words.
struct DbEntry {
    kind: u16,
    name_index: u32,
    words: Vec<u32>,
}

/// Encodes a tagged value stream.
fn db_payload(entries: &[DbEntry]) -> Vec<u8> {
    let mut out: Vec<u8> = Vec::new();
    for e in entries {
        out.extend_from_slice(&e.kind.to_le_bytes());
        out.extend_from_slice(&(e.words.len() as u16).to_le_bytes());
        out.extend_from_slice(&e.name_index.to_le_bytes());
        for w in &e.words {
            out.extend_from_slice(&w.to_le_bytes());
        }
    }
    out
}

/// Builds a complete database file image with one string-table group and
/// one record per payload. Record `i` is named by string index `i` and
/// carries kind `"cls"`.
fn db_build(strings: &[&str], payloads: &[Vec<u8>]) -> Vec<u8> {
    let header_len = 24u32;
    let records_offset = header_len;
    let kind = b"cls";
    let entry_len = 4 + 4 + kind.len() as u32 + 4 + 4 + 4 + 8;
    let records_len = entry_len * payloads.len() as u32;
    let st_offset = records_offset + records_len;
    let st_len: u32 = 4 + strings.iter().map(|s| 4 + s.len() as u32).sum::<u32>();
    let blobs_start = st_offset + st_len;

    let mut blobs: Vec<u8> = Vec::new();
    let mut entries: Vec<(u32, u32, u32)> = Vec::new();
    for p in payloads {
        let packed = lz4::block::compress(p, None, false).unwrap();
        let offset = blobs_start + blobs.len() as u32;
        // a fixed 24-byte sub-header precedes every stored payload
        blobs.extend_from_slice(&[0u8; 24]);
        blobs.extend_from_slice(&packed);
        entries.push((offset, packed.len() as u32, p.len() as u32));
    }

    let mut out: Vec<u8> = Vec::new();
    out.extend_from_slice(&2u16.to_le_bytes());
    out.extend_from_slice(&3u16.to_le_bytes());
    out.extend_from_slice(&records_offset.to_le_bytes());
    out.extend_from_slice(&records_len.to_le_bytes());
    out.extend_from_slice(&(payloads.len() as u32).to_le_bytes());
    out.extend_from_slice(&st_offset.to_le_bytes());
    out.extend_from_slice(&st_len.to_le_bytes());
    for (i, (offset, clen, ulen)) in entries.iter().enumerate() {
        out.extend_from_slice(&(i as u32).to_le_bytes());
        out.extend_from_slice(&(kind.len() as u32).to_le_bytes());
        out.extend_from_slice(kind);
        out.extend_from_slice(&offset.to_le_bytes());
        out.extend_from_slice(&clen.to_le_bytes());
        out.extend_from_slice(&ulen.to_le_bytes());
        out.extend_from_slice(&[0u8; 8]);
    }
    out.extend_from_slice(&(strings.len() as u32).to_le_bytes());
    for s in strings {
        out.extend_from_slice(&(s.len() as u32).to_le_bytes());
        out.extend_from_slice(s.as_bytes());
    }
    out.extend_from_slice(&blobs);
    out
}

#[test]
fn db_open_reads_header_and_string_table() {
    let file = db_build(&["Alpha", "Beta"], &[]);
    let db = Database::from(file.clone()).unwrap();
    assert_eq!(db.head.to_le_bytes(), [file[0], file[1]]);
    assert_eq!(db.version.to_le_bytes(), [file[2], file[3]]);
    assert_eq!(db.head, 2);
    assert_eq!(db.version, 3);
    assert_eq!(db.lookup_str(0).unwrap(), "Alpha");
    assert_eq!(db.lookup_str(1).unwrap(), "Beta");
    assert_eq!(db.lookup_str(2).unwrap_err(), DecodeError::Lookup);
}

#[test]
fn db_open_rejects_bad_magic() {
    let mut file = db_build(&["A"], &[]);
    file[0] = 9;
    assert_eq!(Database::from(file).unwrap_err(), DecodeError::Format);
}

#[test]
fn db_open_rejects_bad_version() {
    let mut file = db_build(&["A"], &[]);
    file[2] = 4;
    assert_eq!(Database::from(file).unwrap_err(), DecodeError::Format);
}

#[test]
fn db_open_rejects_bad_utf8_in_string_table() {
    let mut file = db_build(&["AB"], &[]);
    let n = file.len();
    // the last two bytes are the one string's text
    file[n - 2] = 0xfe;
    assert_eq!(Database::from(file).unwrap_err(), DecodeError::Encoding);
}

#[test]
fn db_string_table_reads_multiple_groups() {
    // Two groups concatenate into one flattened, globally indexed table.
    let mut file = db_build(&["One"], &[]);
    // append a second group [1 x "Two"] and widen string_table_len
    file.extend_from_slice(&1u32.to_le_bytes());
    file.extend_from_slice(&3u32.to_le_bytes());
    file.extend_from_slice(b"Two");
    let st_len_pos = 20;
    let old = u32::from_le_bytes(file[st_len_pos..st_len_pos + 4].try_into().unwrap());
    file[st_len_pos..st_len_pos + 4].copy_from_slice(&(old + 11).to_le_bytes());
    let db = Database::from(file).unwrap();
    assert_eq!(db.lookup_str(0).unwrap(), "One");
    assert_eq!(db.lookup_str(1).unwrap(), "Two");
}

#[test]
fn db_resolve_minimal_int_record() {
    // One string "Alpha", one record named by it, one integer field named
    // by it too, holding 42.
    let payload = db_payload(&[DbEntry { kind: 0, name_index: 0, words: vec![42] }]);
    let file = db_build(&["Alpha"], &[payload]);
    let db = Database::from(file).unwrap();
    let raws = db.iter_records().unwrap();
    assert_eq!(raws.len(), 1);
    assert_eq!(db.record_id(&raws[0]).unwrap(), "Alpha");
    let rec = db.resolve(raws[0].clone()).unwrap();
    assert_eq!(rec.id, "Alpha");
    assert_eq!(rec.kind, "cls");
    assert_eq!(rec.get("Alpha"), Some(&DatabaseValue::Int(42)));
    assert_eq!(rec.get("absent"), None);
}

#[test]
fn db_collapsing_rule_scalar_and_sequence() {
    // count 1 collapses to the scalar variant; a longer count keeps the
    // sequence variant of the same element type.
    let payload = db_payload(&[
        DbEntry { kind: 0, name_index: 1, words: vec![7] },
        DbEntry { kind: 0, name_index: 2, words: vec![1, 2, 3] },
        DbEntry { kind: 1, name_index: 3, words: vec![0x3f800000] },
        DbEntry { kind: 1, name_index: 4, words: vec![0x3f800000, 0x40000000] },
        DbEntry { kind: 2, name_index: 5, words: vec![0] },
        DbEntry { kind: 2, name_index: 6, words: vec![0, 1] },
        DbEntry { kind: 3, name_index: 7, words: vec![1] },
        DbEntry { kind: 3, name_index: 8, words: vec![1, 0] },
    ]);
    let file = db_build(&["rec", "i", "is", "f", "fs", "s", "ss", "b", "bs"], &[payload]);
    let db = Database::from(file).unwrap();
    let raws = db.iter_records().unwrap();
    let rec = db.resolve(raws[0].clone()).unwrap();
    assert_eq!(rec.get("i"), Some(&DatabaseValue::Int(7)));
    assert_eq!(rec.get("is"), Some(&DatabaseValue::Ints(vec![1, 2, 3])));
    assert_eq!(rec.get("f"), Some(&DatabaseValue::Float(0x3f800000)));
    assert_eq!(rec.get("fs"), Some(&DatabaseValue::Floats(vec![0x3f800000, 0x40000000])));
    assert_eq!(rec.get("s"), Some(&DatabaseValue::Str("rec".to_string())));
    assert_eq!(
        rec.get("ss"),
        Some(&DatabaseValue::Strings(vec!["rec".to_string(), "i".to_string()]))
    );
    assert_eq!(rec.get("b"), Some(&DatabaseValue::Bool(true)));
    assert_eq!(rec.get("bs"), Some(&DatabaseValue::Bools(vec![true, false])));
    // the float word is the stored IEEE bit pattern for 1.0
    assert_eq!(f32::from_bits(0x3f800000), 1.0f32);
}

#[test]
fn db_bad_bool_word_fails_resolution() {
    // A boolean entry whose stored word is 2 must fail, not coerce.
    let payload = db_payload(&[DbEntry { kind: 3, name_index: 0, words: vec![2] }]);
    let file = db_build(&["Alpha"], &[payload]);
    let db = Database::from(file).unwrap();
    let raws = db.iter_records().unwrap();
    assert_eq!(db.resolve(raws[0].clone()).unwrap_err(), DecodeError::UnknownTag);
}

#[test]
fn db_unknown_type_tag_fails_resolution() {
    let payload = db_payload(&[DbEntry { kind: 7, name_index: 0, words: vec![1] }]);
    let file = db_build(&["Alpha"], &[payload]);
    let db = Database::from(file).unwrap();
    let raws = db.iter_records().unwrap();
    assert_eq!(db.resolve(raws[0].clone()).unwrap_err(), DecodeError::UnknownTag);
}

#[test]
fn db_string_index_out_of_range_is_lookup_error() {
    let payload = db_payload(&[DbEntry { kind: 2, name_index: 0, words: vec![99] }]);
    let file = db_build(&["Alpha"], &[payload]);
    let db = Database::from(file).unwrap();
    let raws = db.iter_records().unwrap();
    assert_eq!(db.resolve(raws[0].clone()).unwrap_err(), DecodeError::Lookup);
}

#[test]
fn db_duplicate_field_name_last_wins() {
    let payload = db_payload(&[
        DbEntry { kind: 0, name_index: 0, words: vec![1] },
        DbEntry { kind: 0, name_index: 0, words: vec![2] },
    ]);
    let file = db_build(&["Alpha"], &[payload]);
    let db = Database::from(file).unwrap();
    let raws = db.iter_records().unwrap();
    let rec = db.resolve(raws[0].clone()).unwrap();
    assert_eq!(rec.get("Alpha"), Some(&DatabaseValue::Int(2)));
    assert_eq!(rec.data.len(), 1);
}

#[test]
fn db_payload_len_matches_declared() {
    let payload = db_payload(&[DbEntry { kind: 0, name_index: 0, words: vec![5, 6] }]);
    let file = db_build(&["Alpha"], &[payload]);
    let db = Database::from(file).unwrap();
    let raws = db.iter_records().unwrap();
    // declared uncompressed length is the tagged stream's exact size
    assert_eq!(raws[0].uncompressed_len, 16);
    let rec = db.resolve(raws[0].clone()).unwrap();
    assert_eq!(rec.data.len(), 1);
}

#[test]
fn db_wrong_declared_size_is_decompression_error() {
    let payload = db_payload(&[DbEntry { kind: 0, name_index: 0, words: vec![5] }]);
    let file = db_build(&["Alpha"], &[payload]);
    let db = Database::from(file).unwrap();
    let mut raw = db.iter_records().unwrap().remove(0);
    raw.uncompressed_len += 1;
    assert_eq!(db.resolve(raw).unwrap_err(), DecodeError::Decompression);
}

#[test]
fn db_truncated_record_payload() {
    let payload = db_payload(&[DbEntry { kind: 0, name_index: 0, words: vec![5] }]);
    let mut file = db_build(&["Alpha"], &[payload]);
    // cut the stored blob short
    file.truncate(file.len() - 3);
    let db = Database::from(file).unwrap();
    let raws = db.iter_records().unwrap();
    assert_eq!(db.resolve(raws[0].clone()).unwrap_err(), DecodeError::TruncatedInput);
}

#[test]
fn db_record_id_out_of_range() {
    let payload = db_payload(&[DbEntry { kind: 0, name_index: 0, words: vec![1] }]);
    let file = db_build(&[], &[payload]);
    let db = Database::from(file).unwrap();
    let raws = db.iter_records().unwrap();
    assert_eq!(db.record_id(&raws[0]).unwrap_err(), DecodeError::Lookup);
    assert_eq!(db.resolve(raws[0].clone()).unwrap_err(), DecodeError::Lookup);
}

#[test]
fn db_resolve_is_idempotent() {
    let payload = db_payload(&[DbEntry { kind: 0, name_index: 0, words: vec![42] }]);
    let file = db_build(&["Alpha"], &[payload]);
    let db = Database::from(file).unwrap();
    let raws = db.iter_records().unwrap();
    let a = db.resolve(raws[0].clone()).unwrap();
    let b = db.resolve(raws[0].clone()).unwrap();
    assert_eq!(a.id, b.id);
    assert_eq!(a.kind, b.kind);
    assert_eq!(a.data, b.data);
}
