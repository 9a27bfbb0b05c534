use arcdb::compression::decompress_exact;
use arcdb::reader::{read_bytes, read_u16, read_u32, read_u64, scan_byte};
use arcdb::values::DatabaseValue;
use arcdb::DecodeError;

#[test]
fn reader_little_endian_values() {
    let d = vec![0x78, 0x56, 0x34, 0x12, 0xaa, 0xbb, 0xcc, 0xdd];
    assert_eq!(read_u16(&d, 0).unwrap(), 0x5678);
    assert_eq!(read_u32(&d, 0).unwrap(), 0x12345678);
    assert_eq!(read_u32(&d, 4).unwrap(), 0xddccbbaa);
    assert_eq!(read_u64(&d, 0).unwrap(), 0xddccbbaa_12345678);
}

#[test]
fn reader_reports_truncation() {
    let d = vec![1, 2, 3];
    assert_eq!(read_u32(&d, 0).unwrap_err(), DecodeError::TruncatedInput);
    assert_eq!(read_u16(&d, 2).unwrap_err(), DecodeError::TruncatedInput);
    assert_eq!(read_u64(&d, 0).unwrap_err(), DecodeError::TruncatedInput);
    assert_eq!(read_bytes(&d, 1, 3).unwrap_err(), DecodeError::TruncatedInput);
}

#[test]
fn reader_copies_requested_bytes() {
    let d = vec![9, 8, 7, 6, 5];
    assert_eq!(read_bytes(&d, 1, 3).unwrap(), vec![8, 7, 6]);
    assert_eq!(read_bytes(&d, 5, 0).unwrap(), Vec::<u8>::new());
}

#[test]
fn reader_scans_for_byte() {
    let d = vec![4, 5, 0, 6];
    assert_eq!(scan_byte(&d, 0, 0), Some(2));
    assert_eq!(scan_byte(&d, 3, 0), None);
    assert_eq!(scan_byte(&d, 0, 6), Some(3));
}

#[test]
fn decompress_exact_round_trips() {
    let original: Vec<u8> = (0u16..300).map(|i| (i % 7) as u8).collect();
    let packed = lz4::block::compress(&original, None, false).unwrap();
    let out = decompress_exact(&packed, original.len()).unwrap();
    assert_eq!(out, original);
}

#[test]
fn decompress_exact_rejects_wrong_size() {
    let original: Vec<u8> = vec![3; 100];
    let packed = lz4::block::compress(&original, None, false).unwrap();
    assert_eq!(decompress_exact(&packed, 99).unwrap_err(), DecodeError::Decompression);
    assert_eq!(decompress_exact(&packed, 101).unwrap_err(), DecodeError::Decompression);
}

#[test]
fn decompress_exact_rejects_garbage() {
    let garbage: Vec<u8> = vec![0xf7; 64];
    assert_eq!(decompress_exact(&garbage, 1000).unwrap_err(), DecodeError::Decompression);
}

#[test]
fn value_collapsing_constructors() {
    assert_eq!(DatabaseValue::of_ints(vec![9]), DatabaseValue::Int(9));
    assert_eq!(DatabaseValue::of_ints(vec![9, 10]), DatabaseValue::Ints(vec![9, 10]));
    assert_eq!(DatabaseValue::of_ints(vec![]), DatabaseValue::Ints(vec![]));
    assert_eq!(DatabaseValue::of_floats(vec![5]), DatabaseValue::Float(5));
    assert_eq!(
        DatabaseValue::of_strings(vec!["x".to_string()]),
        DatabaseValue::Str("x".to_string())
    );
    assert_eq!(DatabaseValue::of_bools(vec![true]), DatabaseValue::Bool(true));
    assert_eq!(DatabaseValue::of_bools(vec![true, false]), DatabaseValue::Bools(vec![true, false]));
}

#[test]
fn value_as_string_only_for_scalar_strings() {
    assert_eq!(DatabaseValue::Str("v".to_string()).as_string(), Some("v".to_string()));
    assert_eq!(DatabaseValue::Int(1).as_string(), None);
    assert_eq!(DatabaseValue::Strings(vec!["v".to_string()]).as_string(), None);
}
