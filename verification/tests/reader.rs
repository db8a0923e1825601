use dzip_core::error::DzipError;
use dzip_core::format::CURRENT_DIR_IDX;
use dzip_core::model::{ArchiveMetadata, MapEntry, RawChunk};
use dzip_core::reader::parse_metadata;
use dzip_core::writer::serialize_archive;

fn sample_header() -> Vec<u8> {
    let mut bytes = Vec::new();
    bytes.extend_from_slice(&7u32.to_le_bytes());
    bytes.extend_from_slice(&2u32.to_le_bytes());
    bytes.extend_from_slice(b".\0assets\0");
    bytes.extend_from_slice(&2u32.to_le_bytes());
    bytes.extend_from_slice(b"a.txt\0b.bin\0");
    bytes.extend_from_slice(&2u32.to_le_bytes());
    bytes.extend_from_slice(&[0x05, 0x00, 0x03, 0x00, 0x00, 0x00, 0x00, 0x00, 0x03, 0x00, 0x00, 0x00]);
    bytes.extend_from_slice(&[0x09, 0x00, 0x04, 0x00, 0x00, 0x00, 0x08, 0x00, 0x02, 0x00, 0x00, 0x00]);
    bytes.extend_from_slice(&2u32.to_le_bytes());
    bytes.extend_from_slice(&0u32.to_le_bytes());
    bytes.extend_from_slice(&0u32.to_le_bytes());
    bytes.extend_from_slice(&1u32.to_le_bytes());
    bytes.extend_from_slice(&5u16.to_le_bytes());
    bytes.extend_from_slice(&1u32.to_le_bytes());
    bytes.extend_from_slice(&1u32.to_le_bytes());
    bytes.extend_from_slice(&2u32.to_le_bytes());
    bytes.extend_from_slice(&9u16.to_le_bytes());
    bytes.extend_from_slice(&5u16.to_le_bytes());
    bytes
}

fn sample_metadata() -> ArchiveMetadata {
    ArchiveMetadata {
        version: 7,
        directories: vec![String::from("."), String::from("assets")],
        user_files: vec![String::from("a.txt"), String::from("b.bin")],
        raw_chunks: vec![
            RawChunk { id: 5, decoded_length: 3, flags: 0, stored_length: 3 },
            RawChunk { id: 9, decoded_length: 4, flags: 8, stored_length: 2 },
        ],
        map_entries: vec![
            MapEntry { file_id: 0, dir_idx: 0, chunk_ids: vec![5] },
            MapEntry { file_id: 1, dir_idx: 1, chunk_ids: vec![9, 5] },
        ],
    }
}

#[test]
fn parse_metadata_reads_every_table() {
    let mut bytes = sample_header();
    let header_len = bytes.len();
    bytes.extend_from_slice(b"abcXY");
    let (meta, payload_start) = parse_metadata(&bytes).unwrap();
    assert_eq!(meta, sample_metadata());
    assert_eq!(payload_start, header_len);
    assert_eq!(&bytes[payload_start..], b"abcXY");
}

#[test]
fn parse_metadata_of_an_empty_archive() {
    let mut bytes = Vec::new();
    bytes.extend_from_slice(&1u32.to_le_bytes());
    for _ in 0..4 {
        bytes.extend_from_slice(&0u32.to_le_bytes());
    }
    let (meta, payload_start) = parse_metadata(&bytes).unwrap();
    assert_eq!(meta.version, 1);
    assert!(meta.directories.is_empty());
    assert!(meta.user_files.is_empty());
    assert!(meta.raw_chunks.is_empty());
    assert!(meta.map_entries.is_empty());
    assert_eq!(payload_start, 20);
}

#[test]
fn parse_metadata_rejects_every_truncation() {
    let bytes = sample_header();
    for len in 0..bytes.len() {
        assert_eq!(parse_metadata(&bytes[..len]), Err(DzipError::CorruptArchive), "prefix {}", len);
    }
    assert!(parse_metadata(&bytes).is_ok());
}

#[test]
fn parse_metadata_rejects_a_count_that_exceeds_the_data() {
    let mut bytes = Vec::new();
    bytes.extend_from_slice(&1u32.to_le_bytes());
    bytes.extend_from_slice(&0xFFFF_FFFFu32.to_le_bytes());
    bytes.extend_from_slice(b"a\0b\0");
    assert_eq!(parse_metadata(&bytes), Err(DzipError::CorruptArchive));
}

#[test]
fn parse_metadata_rejects_a_name_without_terminator() {
    let mut bytes = Vec::new();
    bytes.extend_from_slice(&1u32.to_le_bytes());
    bytes.extend_from_slice(&1u32.to_le_bytes());
    bytes.extend_from_slice(b"abc");
    assert_eq!(parse_metadata(&bytes), Err(DzipError::CorruptArchive));
}

#[test]
fn parse_metadata_rejects_a_name_that_is_not_utf8() {
    let mut bytes = Vec::new();
    bytes.extend_from_slice(&1u32.to_le_bytes());
    bytes.extend_from_slice(&1u32.to_le_bytes());
    bytes.extend_from_slice(&[0xC3, 0x28, 0x00]);
    for _ in 0..3 {
        bytes.extend_from_slice(&0u32.to_le_bytes());
    }
    assert_eq!(parse_metadata(&bytes), Err(DzipError::CorruptArchive));
}

#[test]
fn parse_metadata_rejects_a_chunk_id_list_that_exceeds_the_data() {
    let mut bytes = Vec::new();
    bytes.extend_from_slice(&1u32.to_le_bytes());
    bytes.extend_from_slice(&0u32.to_le_bytes());
    bytes.extend_from_slice(&0u32.to_le_bytes());
    bytes.extend_from_slice(&0u32.to_le_bytes());
    bytes.extend_from_slice(&1u32.to_le_bytes());
    bytes.extend_from_slice(&0u32.to_le_bytes());
    bytes.extend_from_slice(&0u32.to_le_bytes());
    bytes.extend_from_slice(&3u32.to_le_bytes());
    bytes.extend_from_slice(&[1, 0, 2, 0]);
    assert_eq!(parse_metadata(&bytes), Err(DzipError::CorruptArchive));
}

#[test]
fn parse_metadata_does_not_check_references() {
    let meta = ArchiveMetadata {
        version: 1,
        directories: vec![],
        user_files: vec![],
        raw_chunks: vec![],
        map_entries: vec![MapEntry { file_id: 9, dir_idx: 9, chunk_ids: vec![77] }],
    };
    let bytes = serialize_archive(&meta, &[]).unwrap();
    let (parsed, _) = parse_metadata(&bytes).unwrap();
    assert_eq!(parsed, meta);
}

#[test]
fn serialize_archive_writes_the_documented_layout() {
    let bytes = serialize_archive(&sample_metadata(), b"abcXY").unwrap();
    let mut expected = sample_header();
    expected.extend_from_slice(b"abcXY");
    assert_eq!(bytes, expected);
}

#[test]
fn serialized_metadata_parses_back() {
    let meta = ArchiveMetadata {
        version: 0xDEAD_BEEF,
        directories: vec![String::from(""), String::from("été/😀"), String::from(".")],
        user_files: vec![String::from("файл.txt")],
        raw_chunks: vec![
            RawChunk { id: 0xFFFF, decoded_length: u32::MAX, flags: 0x07FD, stored_length: 0 },
            RawChunk { id: 0, decoded_length: 0, flags: 0, stored_length: u32::MAX },
        ],
        map_entries: vec![
            MapEntry { file_id: 0, dir_idx: CURRENT_DIR_IDX, chunk_ids: vec![] },
            MapEntry { file_id: u32::MAX, dir_idx: 1, chunk_ids: vec![0xFFFF, 0, 0xFFFF] },
        ],
    };
    let payload = [9u8, 8, 7];
    let bytes = serialize_archive(&meta, &payload).unwrap();
    let (parsed, payload_start) = parse_metadata(&bytes).unwrap();
    assert_eq!(parsed, meta);
    assert_eq!(&bytes[payload_start..], &payload);
}

#[test]
fn serialize_archive_rejects_a_name_with_a_zero_byte() {
    let mut meta = sample_metadata();
    meta.user_files[1] = String::from("b\0.bin");
    assert!(!meta.is_encodable());
    assert!(matches!(serialize_archive(&meta, &[]), Err(DzipError::Generic(_))));
    meta.user_files[1] = String::from("b.bin");
    assert!(meta.is_encodable());
}

#[test]
fn validate_accepts_a_consistent_header() {
    assert_eq!(sample_metadata().validate(5), Ok(()));
    assert_eq!(sample_metadata().validate(500), Ok(()));
}

#[test]
fn validate_rejects_a_short_payload() {
    assert_eq!(sample_metadata().validate(4), Err(DzipError::CorruptArchive));
    assert_eq!(sample_metadata().validate(0), Err(DzipError::CorruptArchive));
}

#[test]
fn validate_rejects_a_dangling_chunk_id() {
    let mut meta = sample_metadata();
    meta.map_entries[1].chunk_ids.push(6);
    assert_eq!(meta.validate(5), Err(DzipError::CorruptArchive));
}

#[test]
fn validate_rejects_a_file_index_out_of_range() {
    let mut meta = sample_metadata();
    meta.map_entries[0].file_id = 2;
    assert_eq!(meta.validate(5), Err(DzipError::CorruptArchive));
}

#[test]
fn validate_rejects_a_directory_index_out_of_range() {
    let mut meta = sample_metadata();
    meta.map_entries[0].dir_idx = 2;
    assert_eq!(meta.validate(5), Err(DzipError::CorruptArchive));
}

#[test]
fn validate_accepts_the_current_directory_index() {
    let mut meta = sample_metadata();
    meta.map_entries[0].dir_idx = CURRENT_DIR_IDX;
    assert_eq!(meta.validate(5), Ok(()));
}

#[test]
fn validate_rejects_a_repeated_chunk_id() {
    let mut meta = sample_metadata();
    meta.raw_chunks[1].id = 5;
    meta.map_entries[1].chunk_ids = vec![5];
    assert_eq!(meta.validate(5), Err(DzipError::CorruptArchive));
}
