use pf8::error::Error;
use pf8::format::{get_index_size, parse_entries, read_u32_le, validate_magic, ArchiveFormat};

fn record(name: &str, offset: u32, size: u32) -> Vec<u8> {
    let mut out = Vec::new();
    out.extend_from_slice(&(name.len() as u32).to_le_bytes());
    out.extend_from_slice(name.as_bytes());
    out.extend_from_slice(&[0, 0, 0, 0]);
    out.extend_from_slice(&offset.to_le_bytes());
    out.extend_from_slice(&size.to_le_bytes());
    out
}

fn index(magic: &[u8], declared_count: u32, records: &[Vec<u8>]) -> Vec<u8> {
    let mut body = Vec::new();
    body.extend_from_slice(&declared_count.to_le_bytes());
    for r in records {
        body.extend_from_slice(r);
    }
    let mut out = Vec::new();
    out.extend_from_slice(magic);
    out.extend_from_slice(&(body.len() as u32).to_le_bytes());
    out.extend_from_slice(&body);
    out
}

#[test]
fn validate_magic_accepts_both_formats() {
    assert_eq!(validate_magic(b"pf6").unwrap(), ArchiveFormat::Pf6);
    assert_eq!(validate_magic(b"pf8rest").unwrap(), ArchiveFormat::Pf8);
}

#[test]
fn validate_magic_rejects_short_and_foreign_input() {
    assert!(matches!(validate_magic(b"pf"), Err(Error::InvalidFormat(_))));
    assert!(matches!(validate_magic(b"zip"), Err(Error::InvalidFormat(_))));
    assert!(matches!(validate_magic(b"pf7"), Err(Error::InvalidFormat(_))));
    assert!(matches!(validate_magic(b""), Err(Error::InvalidFormat(_))));
}

#[test]
fn validate_magic_error_details() {
    match validate_magic(b"pf") {
        Err(Error::InvalidFormat(m)) => assert_eq!(m, "Data too short"),
        _ => panic!("expected InvalidFormat"),
    }
    match validate_magic(b"abc") {
        Err(Error::InvalidFormat(m)) => assert_eq!(m, "Not a PF6 or PF8 file"),
        _ => panic!("expected InvalidFormat"),
    }
}

#[test]
fn read_u32_le_reads_little_endian() {
    let data = [0x78u8, 0x56, 0x34, 0x12, 0xff];
    assert_eq!(read_u32_le(&data, 0).unwrap(), 0x12345678);
    assert_eq!(read_u32_le(&data, 1).unwrap(), 0xff123456);
    assert_eq!(read_u32_le(&[0xff, 0xff, 0xff, 0xff], 0).unwrap(), u32::MAX);
    assert!(matches!(read_u32_le(&data, 2), Err(Error::InvalidFormat(_))));
    assert!(matches!(read_u32_le(&data, usize::MAX), Err(Error::InvalidFormat(_))));
    assert!(matches!(read_u32_le(&[], 0), Err(Error::InvalidFormat(_))));
}

#[test]
fn get_index_size_reads_field_at_offset_three() {
    let data = [b'p', b'f', b'8', 0x10, 0, 0, 0, 0, 0, 0, 0];
    assert_eq!(get_index_size(&data).unwrap(), 16);
    assert!(matches!(get_index_size(b"pf8\x01"), Err(Error::InvalidFormat(_))));
    assert!(matches!(get_index_size(b"zip\x01\x00\x00\x00"), Err(Error::InvalidFormat(_))));
}

#[test]
fn parse_entries_reads_all_records() {
    let data = index(
        b"pf8",
        2,
        &[record("dir\\a.txt", 100, 5), record("b.bin", 105, 7)],
    );
    let (entries, format) = parse_entries(&data).unwrap();
    assert_eq!(format, ArchiveFormat::Pf8);
    assert_eq!(entries.len(), 2);
    assert_eq!(entries[0].name, "dir\\a.txt");
    assert_eq!(entries[0].offset, 100);
    assert_eq!(entries[0].size, 5);
    assert_eq!(entries[1].name, "b.bin");
    assert_eq!(entries[1].offset, 105);
    assert_eq!(entries[1].size, 7);
}

#[test]
fn parse_entries_reads_pf6() {
    let data = index(b"pf6", 1, &[record("x", 1, 2)]);
    let (entries, format) = parse_entries(&data).unwrap();
    assert_eq!(format, ArchiveFormat::Pf6);
    assert_eq!(entries.len(), 1);
}

#[test]
fn parse_entries_empty_index() {
    let data = index(b"pf8", 0, &[]);
    let (entries, _) = parse_entries(&data).unwrap();
    assert!(entries.is_empty());
}

#[test]
fn parse_entries_count_mismatch_is_corrupted() {
    let data = index(
        b"pf8",
        5,
        &[record("a", 0, 1), record("b", 1, 1), record("c", 2, 1)],
    );
    match parse_entries(&data) {
        Err(Error::Corrupted(m)) => assert_eq!(m, "Index count mismatch"),
        other => panic!("expected Corrupted, got {:?}", other.map(|_| ())),
    }
}

#[test]
fn parse_entries_stops_at_declared_count() {
    let data = index(b"pf8", 1, &[record("a", 0, 1), record("b", 1, 1)]);
    let (entries, _) = parse_entries(&data).unwrap();
    assert_eq!(entries.len(), 1);
    assert_eq!(entries[0].name, "a");
}

#[test]
fn parse_entries_truncated_record_is_corrupted() {
    let mut data = index(b"pf8", 2, &[record("a", 0, 1), record("bcd", 1, 1)]);
    data.truncate(data.len() - 3);
    assert!(matches!(parse_entries(&data), Err(Error::Corrupted(_))));
}

#[test]
fn parse_entries_name_length_beyond_buffer_is_corrupted() {
    let mut data = index(b"pf8", 1, &[]);
    data.extend_from_slice(&0xffff_ff00u32.to_le_bytes());
    data.extend_from_slice(&[0u8; 20]);
    let size = (data.len() - 7) as u32;
    data[3..7].copy_from_slice(&size.to_le_bytes());
    assert!(matches!(parse_entries(&data), Err(Error::Corrupted(_))));
}

#[test]
fn parse_entries_invalid_utf8_name() {
    let mut rec = record("ab", 0, 1);
    rec[4] = 0xff;
    let data = index(b"pf8", 1, &[rec]);
    assert!(matches!(parse_entries(&data), Err(Error::InvalidUtf8)));
}

#[test]
fn parse_entries_short_header_is_invalid_format() {
    assert!(matches!(parse_entries(b"pf8\x01\x00\x00\x00"), Err(Error::InvalidFormat(_))));
    assert!(matches!(parse_entries(b"zip\x01\x00\x00\x00\x00\x00\x00\x00"), Err(Error::InvalidFormat(_))));
}

#[test]
fn parse_entries_unicode_name() {
    let data = index(b"pf8", 1, &[record("音楽\\曲.ogg", 9, 3)]);
    let (entries, _) = parse_entries(&data).unwrap();
    assert_eq!(entries[0].name, "音楽\\曲.ogg");
}
