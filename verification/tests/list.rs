use dzip_core::error::DzipError;
use dzip_core::format::CURRENT_DIR_IDX;
use dzip_core::list::{list_archive, list_entries, ListEntry};
use dzip_core::model::{ArchiveMetadata, MapEntry, RawChunk};
use dzip_core::text::{is_encodable_name, make_path, names_current_dir, resolve_file_name, str_eq};
use dzip_core::writer::serialize_archive;

fn chunk(id: u16, decoded_length: u32) -> RawChunk {
    RawChunk { id, decoded_length, flags: 0, stored_length: 1 }
}

fn line(path: &str, original_size: u64, chunk_count: usize) -> ListEntry {
    ListEntry { path: String::from(path), original_size, chunk_count }
}

fn listed_archive() -> ArchiveMetadata {
    ArchiveMetadata {
        version: 1,
        directories: vec![String::from("."), String::from("img/big"), String::new()],
        user_files: vec![String::from("a.txt"), String::from("b.png")],
        raw_chunks: vec![chunk(1, 10), chunk(2, 200), chunk(3, 3000)],
        map_entries: vec![
            MapEntry { file_id: 0, dir_idx: 0, chunk_ids: vec![1] },
            MapEntry { file_id: 1, dir_idx: 1, chunk_ids: vec![3, 2, 3] },
            MapEntry { file_id: 1, dir_idx: 2, chunk_ids: vec![] },
            MapEntry { file_id: 0, dir_idx: CURRENT_DIR_IDX, chunk_ids: vec![2] },
        ],
    }
}

#[test]
fn list_reports_path_size_and_chunk_count() {
    let entries = list_entries(&listed_archive()).unwrap();
    assert_eq!(
        entries,
        vec![
            line("a.txt", 10, 1),
            line("img/big/b.png", 6200, 3),
            line("b.png", 0, 0),
            line("a.txt", 200, 1),
        ]
    );
}

#[test]
fn list_skips_chunk_ids_that_no_chunk_has() {
    let mut meta = listed_archive();
    meta.map_entries[1].chunk_ids = vec![3, 99, 2, 100];
    let entries = list_entries(&meta).unwrap();
    assert_eq!(entries[1], line("img/big/b.png", 3200, 4));
}

#[test]
fn list_takes_a_directory_index_outside_the_table_as_current_directory() {
    let mut meta = listed_archive();
    meta.map_entries[1].dir_idx = 17;
    let entries = list_entries(&meta).unwrap();
    assert_eq!(entries[1].path, "b.png");
}

#[test]
fn list_resolves_a_repeated_chunk_id_to_the_last_record() {
    let mut meta = listed_archive();
    meta.raw_chunks.push(chunk(1, 77));
    let entries = list_entries(&meta).unwrap();
    assert_eq!(entries[0].original_size, 77);
}

#[test]
fn list_sums_sizes_beyond_32_bits() {
    let mut meta = listed_archive();
    meta.raw_chunks = vec![chunk(1, u32::MAX)];
    meta.map_entries = vec![MapEntry { file_id: 0, dir_idx: 0, chunk_ids: vec![1, 1, 1] }];
    let entries = list_entries(&meta).unwrap();
    assert_eq!(entries[0].original_size, 3 * (u32::MAX as u64));
}

#[test]
fn list_rejects_a_file_index_out_of_range() {
    let mut meta = listed_archive();
    meta.map_entries[2].file_id = 2;
    assert_eq!(list_entries(&meta), Err(DzipError::CorruptArchive));
}

#[test]
fn list_archive_reads_only_the_header() {
    let bytes = serialize_archive(&listed_archive(), &[]).unwrap();
    let entries = list_archive(&bytes).unwrap();
    assert_eq!(entries.len(), 4);
    assert_eq!(entries[1], line("img/big/b.png", 6200, 3));
}

#[test]
fn list_archive_rejects_bytes_without_a_header() {
    assert_eq!(list_archive(&[1, 2, 3]), Err(DzipError::CorruptArchive));
    assert_eq!(list_archive(&[]), Err(DzipError::CorruptArchive));
}

#[test]
fn make_path_joins_with_a_slash() {
    assert_eq!(make_path("dir", "b.txt"), "dir/b.txt");
    assert_eq!(make_path("a/b", "c"), "a/b/c");
    assert_eq!(make_path(".", "b.txt"), "b.txt");
    assert_eq!(make_path("", "b.txt"), "b.txt");
    assert_eq!(make_path("..", "b.txt"), "../b.txt");
}

#[test]
fn resolve_file_name_strips_the_directory() {
    assert_eq!(resolve_file_name("dir/b.txt", "dir"), Some(String::from("b.txt")));
    assert_eq!(resolve_file_name("a/b/c.txt", "a/b"), Some(String::from("c.txt")));
    assert_eq!(resolve_file_name("a/b/c.txt", "a"), Some(String::from("b/c.txt")));
    assert_eq!(resolve_file_name("b.txt", "."), Some(String::from("b.txt")));
    assert_eq!(resolve_file_name("b.txt", ""), Some(String::from("b.txt")));
    assert_eq!(resolve_file_name("été/ça.txt", "été"), Some(String::from("ça.txt")));
}

#[test]
fn resolve_file_name_fails_outside_the_directory() {
    assert_eq!(resolve_file_name("other/b.txt", "dir"), None);
    assert_eq!(resolve_file_name("dir", "dir"), None);
    assert_eq!(resolve_file_name("dir/", "dir"), None);
    assert_eq!(resolve_file_name("dirx/b.txt", "dir"), None);
    assert_eq!(resolve_file_name("", "."), None);
    assert_eq!(resolve_file_name("", ""), None);
}

#[test]
fn names_current_dir_knows_the_dot_and_the_empty_string() {
    assert!(names_current_dir("."));
    assert!(names_current_dir(""));
    assert!(!names_current_dir(".."));
    assert!(!names_current_dir("./"));
    assert!(!names_current_dir("dir"));
}

#[test]
fn str_eq_compares_strings() {
    assert!(str_eq("", ""));
    assert!(str_eq("été", "été"));
    assert!(!str_eq("abc", "abd"));
    assert!(!str_eq("abc", "ab"));
}

#[test]
fn is_encodable_name_rejects_a_zero_byte() {
    assert!(is_encodable_name("plain.txt"));
    assert!(is_encodable_name(""));
    assert!(!is_encodable_name("a\0b"));
    assert!(!is_encodable_name("\0"));
}
