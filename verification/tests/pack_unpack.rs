use dzip_core::codec::{create_default_registry, CodecKind, CodecRegistry};
use dzip_core::error::DzipError;
use dzip_core::format::{CURRENT_DIR_IDX, FLAG_ZLIB, FORMAT_VERSION};
use dzip_core::list::list_archive;
use dzip_core::model::{ArchiveMetadata, Config, FileEntry, MapEntry, RawChunk};
use dzip_core::pack::{fingerprint, pack_files};
use dzip_core::reader::parse_metadata;
use dzip_core::unpack::{extract_files, unpack_archive, UnpackedFile};
use dzip_core::writer::serialize_archive;
use std::borrow::Cow;

fn entry(path: &str, directory: &str, flags: &[&'static str]) -> FileEntry {
    FileEntry {
        path: String::from(path),
        directory: String::from(directory),
        flags: flags.iter().map(|name| Cow::Borrowed(*name)).collect(),
        chunk_size: 0,
    }
}

fn chunked(path: &str, directory: &str, flags: &[&'static str], chunk_size: u32) -> FileEntry {
    FileEntry { chunk_size, ..entry(path, directory, flags) }
}

fn repeated(byte: u8, len: usize) -> Vec<u8> {
    vec![byte; len]
}

#[test]
fn pack_stores_identical_content_once() {
    let config = Config { files: vec![entry("a.txt", ".", &[]), entry("dir/b.txt", "dir", &[])] };
    let contents = vec![b"hi".to_vec(), b"hi".to_vec()];
    let registry = create_default_registry();
    let archive = pack_files(&config, &contents, &registry).unwrap();
    let (meta, payload_start) = parse_metadata(&archive).unwrap();
    assert_eq!(meta.version, FORMAT_VERSION);
    assert_eq!(meta.raw_chunks.len(), 1);
    assert_eq!(meta.map_entries.len(), 2);
    assert_eq!(
        meta.raw_chunks[0],
        RawChunk { id: 0, decoded_length: 2, flags: 0, stored_length: 2 }
    );
    assert_eq!(meta.directories, vec![String::from("."), String::from("dir")]);
    assert_eq!(meta.user_files, vec![String::from("a.txt"), String::from("b.txt")]);
    assert_eq!(meta.map_entries[0], MapEntry { file_id: 0, dir_idx: 0, chunk_ids: vec![0] });
    assert_eq!(meta.map_entries[1], MapEntry { file_id: 1, dir_idx: 1, chunk_ids: vec![0] });
    assert_eq!(&archive[payload_start..], b"hi");

    let unpacked = unpack_archive(&archive, &registry, false).unwrap();
    assert_eq!(unpacked.files.len(), 2);
    assert_eq!(unpacked.files[0].path, "a.txt");
    assert_eq!(unpacked.files[0].data, b"hi");
    assert_eq!(unpacked.files[1].path, "dir/b.txt");
    assert_eq!(unpacked.files[1].directory, "dir");
    assert_eq!(unpacked.files[1].data, b"hi");
}

#[test]
fn packed_archive_has_the_documented_bytes() {
    let config = Config { files: vec![entry("d/x", "d", &["COMBUF"])] };
    let contents = vec![vec![0xAA, 0xBB, 0xCC]];
    let archive = pack_files(&config, &contents, &create_default_registry()).unwrap();
    let mut expected = Vec::new();
    expected.extend_from_slice(&[1, 0, 0, 0]);
    expected.extend_from_slice(&[1, 0, 0, 0]);
    expected.extend_from_slice(b"d\0");
    expected.extend_from_slice(&[1, 0, 0, 0]);
    expected.extend_from_slice(b"x\0");
    expected.extend_from_slice(&[1, 0, 0, 0]);
    expected.extend_from_slice(&[0, 0, 3, 0, 0, 0, 1, 0, 3, 0, 0, 0]);
    expected.extend_from_slice(&[1, 0, 0, 0]);
    expected.extend_from_slice(&[0, 0, 0, 0, 0, 0, 0, 0, 1, 0, 0, 0, 0, 0]);
    expected.extend_from_slice(&[0xAA, 0xBB, 0xCC]);
    assert_eq!(archive, expected);
}

#[test]
fn pack_then_unpack_restores_every_file() {
    let config = Config {
        files: vec![
            entry("readme.md", ".", &[]),
            entry("src/main.rs", "src", &["ZLIB"]),
            entry("src/empty", "src", &["ZLIB", "RANDOM_ACCESS"]),
            entry("assets/img/logo.bin", "assets/img", &["COMBUF"]),
            entry("copy.md", "", &[]),
            entry("assets/img/zeros", "assets/img", &["ZLIB"]),
        ],
    };
    let mut binary = Vec::new();
    for i in 0..=255u8 {
        binary.push(i);
        binary.push(0);
    }
    let contents = vec![
        b"# read me\n".to_vec(),
        b"fn main() { println!(\"hello hello hello hello hello\"); }\n".to_vec(),
        Vec::new(),
        binary,
        b"# read me\n".to_vec(),
        repeated(0, 100_000),
    ];
    let registry = create_default_registry();
    let archive = pack_files(&config, &contents, &registry).unwrap();
    assert!(archive.len() < 10_000);
    for keep_raw in [false, true] {
        let unpacked = unpack_archive(&archive, &registry, keep_raw).unwrap();
        assert_eq!(unpacked.files.len(), config.files.len());
        for i in 0..config.files.len() {
            assert_eq!(unpacked.files[i].path, config.files[i].path);
            assert_eq!(unpacked.files[i].directory, config.files[i].directory);
            assert_eq!(unpacked.files[i].data, contents[i]);
            assert!(unpacked.files[i].raw_chunks.is_empty());
            assert_eq!(unpacked.config.files[i].path, config.files[i].path);
            assert_eq!(unpacked.config.files[i].directory, config.files[i].directory);
        }
        assert_eq!(unpacked.config.files[1].flags, config.files[1].flags);
        assert_eq!(unpacked.config.files[2].flags, config.files[2].flags);
    }
    let repacked = pack_files(
        &unpack_archive(&archive, &registry, false).unwrap().config,
        &contents,
        &registry,
    )
    .unwrap();
    assert_eq!(repacked, archive);
}

#[test]
fn pack_shares_chunks_only_between_equal_content_and_flags() {
    let config = Config {
        files: vec![
            entry("a", ".", &[]),
            entry("b", ".", &["ZLIB"]),
            entry("c", ".", &[]),
            entry("d", ".", &["ZLIB"]),
            entry("e", ".", &[]),
            entry("f", ".", &["ZLIB", "BOGUS"]),
        ],
    };
    let same = repeated(7, 300);
    let contents =
        vec![same.clone(), same.clone(), same.clone(), same.clone(), repeated(8, 300), same.clone()];
    let archive = pack_files(&config, &contents, &create_default_registry()).unwrap();
    let (meta, _) = parse_metadata(&archive).unwrap();
    assert_eq!(meta.raw_chunks.len(), 3);
    assert_eq!(meta.raw_chunks[0].flags, 0);
    assert_eq!(meta.raw_chunks[1].flags, FLAG_ZLIB);
    assert_eq!(meta.raw_chunks[2].flags, 0);
    let ids: Vec<Vec<u16>> = meta.map_entries.iter().map(|e| e.chunk_ids.clone()).collect();
    assert_eq!(ids, vec![vec![0], vec![1], vec![0], vec![1], vec![2], vec![1]]);
    assert_eq!(meta.user_files.len(), 6);
    assert_eq!(meta.directories, vec![String::from(".")]);
    assert_eq!(meta.raw_chunks[0].stored_length, 300);
    assert!(meta.raw_chunks[1].stored_length < 300);
}

#[test]
fn pack_interns_names_and_directories() {
    let config = Config {
        files: vec![
            entry("x/readme", "x", &[]),
            entry("y/readme", "y", &[]),
            entry("x/other", "x", &[]),
        ],
    };
    let contents = vec![b"1".to_vec(), b"2".to_vec(), b"3".to_vec()];
    let archive = pack_files(&config, &contents, &create_default_registry()).unwrap();
    let (meta, _) = parse_metadata(&archive).unwrap();
    assert_eq!(meta.directories, vec![String::from("x"), String::from("y")]);
    assert_eq!(meta.user_files, vec![String::from("readme"), String::from("other")]);
    assert_eq!(meta.map_entries[1], MapEntry { file_id: 0, dir_idx: 1, chunk_ids: vec![1] });
    assert_eq!(meta.map_entries[2], MapEntry { file_id: 1, dir_idx: 0, chunk_ids: vec![2] });
}

#[test]
fn pack_of_an_empty_config_is_an_empty_archive() {
    let archive = pack_files(&Config { files: vec![] }, &vec![], &create_default_registry()).unwrap();
    assert_eq!(archive, vec![1, 0, 0, 0, 0, 0, 0, 0, 0, 0, 0, 0, 0, 0, 0, 0, 0, 0, 0, 0]);
    let unpacked = unpack_archive(&archive, &create_default_registry(), false).unwrap();
    assert!(unpacked.files.is_empty());
    assert!(unpacked.config.files.is_empty());
}

#[test]
fn pack_rejects_contents_that_do_not_match_the_config() {
    let config = Config { files: vec![entry("a", ".", &[])] };
    let result = pack_files(&config, &vec![], &create_default_registry());
    assert!(matches!(result, Err(DzipError::Generic(_))));
}

#[test]
fn pack_rejects_a_filename_that_cannot_be_resolved() {
    let registry = create_default_registry();
    for (path, directory) in [("other/a", "dir"), ("dir", "dir"), ("", "."), ("dir/", "dir")] {
        let config = Config { files: vec![entry("ok", ".", &[]), entry(path, directory, &[])] };
        let result = pack_files(&config, &vec![vec![1], vec![2]], &registry);
        assert!(matches!(result, Err(DzipError::Generic(_))), "{} in {}", path, directory);
    }
}

#[test]
fn pack_rejects_a_name_with_a_zero_byte() {
    let config = Config { files: vec![entry("dir/a\0b", "dir", &[])] };
    let result = pack_files(&config, &vec![vec![1]], &create_default_registry());
    assert!(matches!(result, Err(DzipError::Generic(_))));
}

#[test]
fn pack_fails_with_codec_error_where_no_codec_is_bound() {
    let config = Config {
        files: vec![entry("a", ".", &[]), entry("b", ".", &["ZLIB"]), entry("sub/c", "sub", &["LZMA"])],
    };
    let contents = vec![vec![1], vec![2], vec![3]];
    let result = pack_files(&config, &contents, &create_default_registry());
    assert_eq!(result, Err(DzipError::CodecError { file: String::from("sub/c"), chunk_id: 2 }));
    let result = pack_files(&config, &contents, &CodecRegistry::new());
    assert_eq!(result, Err(DzipError::CodecError { file: String::from("b"), chunk_id: 1 }));
}

#[test]
fn pack_uses_the_codecs_of_the_registry() {
    let config = Config { files: vec![entry("a", ".", &["LZMA"])] };
    let contents = vec![repeated(1, 500)];
    let mut registry = CodecRegistry::new();
    registry.register(0x0200, CodecKind::Deflate);
    let archive = pack_files(&config, &contents, &registry).unwrap();
    let (meta, _) = parse_metadata(&archive).unwrap();
    assert_eq!(meta.raw_chunks[0].flags, 0x0200);
    assert!(meta.raw_chunks[0].stored_length < 500);
    assert_eq!(unpack_archive(&archive, &registry, false).unwrap().files[0].data, contents[0]);
}

fn two_chunk_archive(flags_of_second: u16) -> Vec<u8> {
    let meta = ArchiveMetadata {
        version: 1,
        directories: vec![String::from("data")],
        user_files: vec![String::from("joined.bin"), String::from("single.bin")],
        raw_chunks: vec![
            RawChunk { id: 40, decoded_length: 3, flags: 0, stored_length: 3 },
            RawChunk { id: 20, decoded_length: 4, flags: flags_of_second, stored_length: 4 },
        ],
        map_entries: vec![
            MapEntry { file_id: 0, dir_idx: 0, chunk_ids: vec![20, 40, 20] },
            MapEntry { file_id: 1, dir_idx: CURRENT_DIR_IDX, chunk_ids: vec![40] },
        ],
    };
    serialize_archive(&meta, b"abcWXYZ").unwrap()
}

#[test]
fn unpack_joins_chunks_in_the_order_of_the_entry() {
    let unpacked = unpack_archive(&two_chunk_archive(0), &create_default_registry(), false).unwrap();
    assert_eq!(
        unpacked.files,
        vec![
            UnpackedFile {
                path: String::from("data/joined.bin"),
                directory: String::from("data"),
                data: b"WXYZabcWXYZ".to_vec(),
                raw_chunks: vec![],
            },
            UnpackedFile {
                path: String::from("single.bin"),
                directory: String::from("."),
                data: b"abc".to_vec(),
                raw_chunks: vec![],
            },
        ]
    );
    assert_eq!(unpacked.config.files[0], chunked("data/joined.bin", "data", &[], 4));
    assert_eq!(unpacked.config.files[1], entry("single.bin", ".", &[]));
}

#[test]
fn unpack_fails_on_a_chunk_without_codec() {
    let result = unpack_archive(&two_chunk_archive(0x0200), &create_default_registry(), false);
    assert_eq!(
        result,
        Err(DzipError::CodecError { file: String::from("data/joined.bin"), chunk_id: 20 })
    );
}

#[test]
fn unpack_keeps_raw_bytes_of_a_chunk_without_codec() {
    let unpacked =
        unpack_archive(&two_chunk_archive(0x0200), &create_default_registry(), true).unwrap();
    assert_eq!(unpacked.files[0].data, b"WXYZabcWXYZ");
    assert_eq!(unpacked.files[0].raw_chunks, vec![20, 20]);
    assert_eq!(unpacked.files[1].data, b"abc");
    assert!(unpacked.files[1].raw_chunks.is_empty());
    assert_eq!(unpacked.config.files[0], chunked("data/joined.bin", "data", &["LZMA"], 4));
}

#[test]
fn unpack_fails_on_a_chunk_that_does_not_inflate() {
    let archive = two_chunk_archive(FLAG_ZLIB);
    let registry = create_default_registry();
    assert_eq!(
        unpack_archive(&archive, &registry, false),
        Err(DzipError::CodecError { file: String::from("data/joined.bin"), chunk_id: 20 })
    );
    let unpacked = unpack_archive(&archive, &registry, true).unwrap();
    assert_eq!(unpacked.files[0].data, b"WXYZabcWXYZ");
    assert_eq!(unpacked.files[0].raw_chunks, vec![20, 20]);
}

#[test]
fn unpack_fails_on_a_stored_chunk_of_the_wrong_length() {
    let meta = ArchiveMetadata {
        version: 1,
        directories: vec![],
        user_files: vec![String::from("f")],
        raw_chunks: vec![RawChunk { id: 1, decoded_length: 5, flags: 0, stored_length: 3 }],
        map_entries: vec![MapEntry { file_id: 0, dir_idx: CURRENT_DIR_IDX, chunk_ids: vec![1] }],
    };
    let archive = serialize_archive(&meta, b"abc").unwrap();
    let registry = create_default_registry();
    assert_eq!(
        unpack_archive(&archive, &registry, false),
        Err(DzipError::CodecError { file: String::from("f"), chunk_id: 1 })
    );
    assert_eq!(unpack_archive(&archive, &registry, true).unwrap().files[0].data, b"abc");
}

#[test]
fn unpack_rejects_a_dangling_chunk_id_that_list_tolerates() {
    let meta = ArchiveMetadata {
        version: 1,
        directories: vec![],
        user_files: vec![String::from("f")],
        raw_chunks: vec![RawChunk { id: 1, decoded_length: 3, flags: 0, stored_length: 3 }],
        map_entries: vec![MapEntry { file_id: 0, dir_idx: CURRENT_DIR_IDX, chunk_ids: vec![1, 2] }],
    };
    let archive = serialize_archive(&meta, b"abc").unwrap();
    let registry = create_default_registry();
    assert_eq!(unpack_archive(&archive, &registry, false), Err(DzipError::CorruptArchive));
    assert_eq!(unpack_archive(&archive, &registry, true), Err(DzipError::CorruptArchive));
    let listed = list_archive(&archive).unwrap();
    assert_eq!(listed.len(), 1);
    assert_eq!(listed[0].path, "f");
    assert_eq!(listed[0].original_size, 3);
    assert_eq!(listed[0].chunk_count, 2);
}

#[test]
fn unpack_rejects_a_payload_shorter_than_the_chunk_table_says() {
    let archive = two_chunk_archive(0);
    let registry = create_default_registry();
    assert_eq!(
        unpack_archive(&archive[..archive.len() - 1], &registry, true),
        Err(DzipError::CorruptArchive)
    );
    assert_eq!(unpack_archive(&archive[..10], &registry, true), Err(DzipError::CorruptArchive));
}

#[test]
fn extract_files_works_on_a_loaded_header() {
    let archive = two_chunk_archive(0);
    let (meta, payload_start) = parse_metadata(&archive).unwrap();
    assert_eq!(meta.validate(archive.len() - payload_start), Ok(()));
    let unpacked =
        extract_files(&meta, &archive[payload_start..], &create_default_registry(), false).unwrap();
    assert_eq!(unpacked.files[0].data, b"WXYZabcWXYZ");
}

#[test]
fn list_of_a_packed_archive_reports_the_original_sizes() {
    let config = Config { files: vec![entry("a/big", "a", &["ZLIB"]), entry("small", ".", &[])] };
    let contents = vec![repeated(9, 70_000), b"xy".to_vec()];
    let archive = pack_files(&config, &contents, &create_default_registry()).unwrap();
    let listed = list_archive(&archive).unwrap();
    assert_eq!(listed[0].path, "a/big");
    assert_eq!(listed[0].original_size, 70_000);
    assert_eq!(listed[0].chunk_count, 1);
    assert_eq!(listed[1].path, "small");
    assert_eq!(listed[1].original_size, 2);
}

#[test]
fn pack_splits_a_file_into_blocks_of_the_chunk_size() {
    let config = Config { files: vec![chunked("f", ".", &[], 4)] };
    let contents = vec![b"abcdefghij".to_vec()];
    let registry = create_default_registry();
    let archive = pack_files(&config, &contents, &registry).unwrap();
    let (meta, payload_start) = parse_metadata(&archive).unwrap();
    assert_eq!(
        meta.raw_chunks,
        vec![
            RawChunk { id: 0, decoded_length: 4, flags: 0, stored_length: 4 },
            RawChunk { id: 1, decoded_length: 4, flags: 0, stored_length: 4 },
            RawChunk { id: 2, decoded_length: 2, flags: 0, stored_length: 2 },
        ]
    );
    assert_eq!(meta.map_entries[0].chunk_ids, vec![0, 1, 2]);
    assert_eq!(&archive[payload_start..], b"abcdefghij");
    let unpacked = unpack_archive(&archive, &registry, false).unwrap();
    assert_eq!(unpacked.files[0].data, contents[0]);
    assert_eq!(unpacked.config, config);
}

#[test]
fn pack_cuts_blocks_at_exact_boundaries() {
    let registry = create_default_registry();
    for (len, size, expected) in [
        (0usize, 4u32, vec![0usize]),
        (1, 4, vec![1]),
        (4, 4, vec![4]),
        (5, 4, vec![4, 1]),
        (8, 4, vec![4, 4]),
        (9, 4, vec![4, 4, 1]),
        (9, 0, vec![9]),
        (3, 1, vec![1, 1, 1]),
        (9, 100, vec![9]),
    ] {
        let content: Vec<u8> = (0..len).map(|i| i as u8).collect();
        let config = Config { files: vec![chunked("f", ".", &[], size)] };
        let archive = pack_files(&config, &vec![content.clone()], &registry).unwrap();
        let (meta, _) = parse_metadata(&archive).unwrap();
        let lengths: Vec<usize> = meta.map_entries[0]
            .chunk_ids
            .iter()
            .map(|id| meta.raw_chunks[*id as usize].decoded_length as usize)
            .collect();
        assert_eq!(lengths, expected, "{} bytes in blocks of {}", len, size);
        let unpacked = unpack_archive(&archive, &registry, false).unwrap();
        assert_eq!(unpacked.files[0].data, content);
        let listed = list_archive(&archive).unwrap();
        assert_eq!(listed[0].original_size, len as u64);
        assert_eq!(listed[0].chunk_count, expected.len());
    }
}

#[test]
fn pack_stores_repeated_blocks_once() {
    let config = Config {
        files: vec![chunked("zeros", ".", &["ZLIB"], 1000), chunked("more", ".", &["ZLIB"], 1000)],
    };
    let mut more = repeated(0, 2000);
    more.extend_from_slice(b"tail");
    let contents = vec![repeated(0, 5500), more];
    let registry = create_default_registry();
    let archive = pack_files(&config, &contents, &registry).unwrap();
    let (meta, _) = parse_metadata(&archive).unwrap();
    assert_eq!(meta.raw_chunks.len(), 3);
    assert_eq!(meta.map_entries[0].chunk_ids, vec![0, 0, 0, 0, 0, 1]);
    assert_eq!(meta.map_entries[1].chunk_ids, vec![0, 0, 2]);
    assert_eq!(meta.raw_chunks[1].decoded_length, 500);
    assert_eq!(meta.raw_chunks[2].decoded_length, 4);
    let unpacked = unpack_archive(&archive, &registry, false).unwrap();
    assert_eq!(unpacked.files[0].data, contents[0]);
    assert_eq!(unpacked.files[1].data, contents[1]);
    assert_eq!(unpacked.config, config);
    let listed = list_archive(&archive).unwrap();
    assert_eq!(listed[0].original_size, 5500);
    assert_eq!(listed[0].chunk_count, 6);
    assert_eq!(listed[1].original_size, 2004);
}

#[test]
fn derived_config_repacks_to_the_same_archive() {
    let config = Config {
        files: vec![
            chunked("a", ".", &["ZLIB", "UNKNOWN"], 7),
            chunked("d/b", "d", &[], 3),
            chunked("d/c", "d", &["COMBUF"], 64),
            chunked("e", "", &[], 1),
        ],
    };
    let contents = vec![
        b"the quick brown fox jumps over the lazy dog".to_vec(),
        b"abcabcabcab".to_vec(),
        b"short".to_vec(),
        Vec::new(),
    ];
    let registry = create_default_registry();
    let archive = pack_files(&config, &contents, &registry).unwrap();
    let unpacked = unpack_archive(&archive, &registry, false).unwrap();
    assert_eq!(unpacked.config.files[0], chunked("a", ".", &["ZLIB"], 7));
    assert_eq!(unpacked.config.files[1], chunked("d/b", "d", &[], 3));
    assert_eq!(unpacked.config.files[2], chunked("d/c", "d", &["COMBUF"], 0));
    assert_eq!(unpacked.config.files[3], chunked("e", "", &[], 0));
    let data: Vec<Vec<u8>> = unpacked.files.iter().map(|f| f.data.clone()).collect();
    assert_eq!(data, contents);
    assert_eq!(pack_files(&unpacked.config, &data, &registry).unwrap(), archive);
}

#[test]
fn pack_names_the_chunk_that_cannot_be_encoded() {
    let config = Config { files: vec![chunked("a", ".", &[], 2), chunked("b", ".", &["BZIP"], 2)] };
    let contents = vec![b"xxyyxx".to_vec(), b"xxzz".to_vec()];
    let result = pack_files(&config, &contents, &create_default_registry());
    assert_eq!(result, Err(DzipError::CodecError { file: String::from("b"), chunk_id: 2 }));
}

#[test]
fn fingerprint_is_fnv1a() {
    assert_eq!(fingerprint(b""), 0xcbf29ce484222325);
    assert_eq!(fingerprint(b"a"), 0xaf63dc4c8601ec8c);
    assert_eq!(fingerprint(b"foobar"), 0x85944171f73967e8);
}
