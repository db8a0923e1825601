use dzip_core::error::DzipError;
use dzip_core::io::{
    accept_window, IoFailure, PackSink, PackSource, Recorded, UnpackSink, UnpackSource,
};
use dzip_core::list::do_list;
use dzip_core::memory::{MemoryArchive, MemoryArchives, MemoryFile, MemoryOutput, MemoryTree};
use dzip_core::model::{ArchiveMetadata, Config, FileEntry, MapEntry, RawChunk};
use dzip_core::codec::create_default_registry;
use dzip_core::pack::{do_pack, pack_archive, pack_to_sink, read_contents};
use dzip_core::unpack::{do_unpack, write_files, UnpackedFile};
use dzip_core::writer::serialize_archive;
use std::borrow::Cow;

fn entry(path: &str, directory: &str, flags: &[&'static str]) -> FileEntry {
    FileEntry {
        path: String::from(path),
        directory: String::from(directory),
        flags: flags.iter().map(|name| Cow::Borrowed(*name)).collect(),
        chunk_size: 0,
    }
}

fn file(path: &str, data: &[u8]) -> MemoryFile {
    MemoryFile { path: String::from(path), data: data.to_vec() }
}

fn tree() -> MemoryTree {
    MemoryTree { files: vec![file("a.txt", b"hi"), file("dir/b.txt", b"hi"), file("dir/c", b"sea")] }
}

fn config() -> Config {
    Config {
        files: vec![
            entry("a.txt", ".", &[]),
            entry("dir/b.txt", "dir", &[]),
            entry("dir/c", "dir", &["ZLIB"]),
        ],
    }
}

fn packed() -> Vec<u8> {
    let mut sink = Recorded::new(MemoryArchives { archives: vec![] });
    do_pack(&config(), &tree(), &mut sink).unwrap();
    let mut archives = sink.into_inner().archives;
    assert_eq!(archives.len(), 1);
    archives.remove(0)
}

#[test]
fn do_pack_hands_one_archive_to_the_sink() {
    let mut sink = Recorded::new(MemoryArchives { archives: vec![vec![1, 2, 3]] });
    assert_eq!(do_pack(&config(), &tree(), &mut sink), Ok(()));
    let archives = sink.into_inner().archives;
    assert_eq!(archives.len(), 2);
    assert_eq!(archives[0], vec![1, 2, 3]);
    assert_eq!(
        Ok(archives[1].clone()),
        pack_archive(&config(), &tree(), &create_default_registry())
    );
    let source = MemoryArchive { name: String::from("mem"), bytes: archives[1].clone() };
    let meta = ArchiveMetadata::load(&source).unwrap();
    assert_eq!(meta.raw_chunks.len(), 2);
    assert_eq!(meta.map_entries.len(), 3);
}

#[test]
fn do_pack_names_the_file_that_cannot_be_read() {
    let mut sink = Recorded::new(MemoryArchives { archives: vec![] });
    let mut wanted = config();
    wanted.files.push(entry("dir/missing", "dir", &[]));
    let result = do_pack(&wanted, &tree(), &mut sink);
    match result {
        Err(DzipError::IoContext(path, _)) => assert_eq!(path, "dir/missing"),
        other => panic!("unexpected result {:?}", other),
    }
    assert!(sink.inner().archives.is_empty());
}

#[test]
fn do_pack_hands_nothing_to_the_sink_on_a_pack_error() {
    let mut sink = Recorded::new(MemoryArchives { archives: vec![] });
    let wanted = Config { files: vec![entry("a.txt", ".", &[]), entry("dir/c", "dir", &["BZIP"])] };
    let result = do_pack(&wanted, &tree(), &mut sink);
    assert_eq!(result, Err(DzipError::CodecError { file: String::from("dir/c"), chunk_id: 1 }));
    assert!(sink.inner().archives.is_empty());
}

#[test]
fn read_contents_follows_the_order_of_the_config() {
    let wanted = Config { files: vec![entry("dir/c", "dir", &[]), entry("a.txt", ".", &[])] };
    assert_eq!(read_contents(&wanted, &tree()), Ok(vec![b"sea".to_vec(), b"hi".to_vec()]));
}

#[test]
fn do_unpack_writes_every_file_and_returns_the_config() {
    let source = MemoryArchive { name: String::from("mem"), bytes: packed() };
    let mut sink = Recorded::new(MemoryOutput::new());
    let derived = do_unpack(&source, &mut sink, false).unwrap();
    assert_eq!(derived, config());
    let output = sink.into_inner();
    assert_eq!(output.directories, vec![String::from("."), String::from("dir")]);
    assert_eq!(output.files, tree().files);
}

#[test]
fn do_unpack_then_do_pack_reproduces_the_archive() {
    let archive = packed();
    let source = MemoryArchive { name: String::from("mem"), bytes: archive.clone() };
    let mut output = Recorded::new(MemoryOutput::new());
    let derived = do_unpack(&source, &mut output, false).unwrap();
    let mut sink = Recorded::new(MemoryArchives { archives: vec![] });
    do_pack(&derived, &MemoryTree { files: output.into_inner().files }, &mut sink).unwrap();
    assert_eq!(sink.into_inner().archives, vec![archive]);
}

#[test]
fn do_unpack_writes_nothing_where_a_chunk_fails() {
    let meta = ArchiveMetadata {
        version: 1,
        directories: vec![String::from("d")],
        user_files: vec![String::from("good"), String::from("bad")],
        raw_chunks: vec![
            RawChunk { id: 0, decoded_length: 2, flags: 0, stored_length: 2 },
            RawChunk { id: 1, decoded_length: 9, flags: 8, stored_length: 2 },
        ],
        map_entries: vec![
            MapEntry { file_id: 0, dir_idx: 0, chunk_ids: vec![0] },
            MapEntry { file_id: 1, dir_idx: 0, chunk_ids: vec![1] },
        ],
    };
    let bytes = serialize_archive(&meta, b"okzz").unwrap();
    let source = MemoryArchive { name: String::from("mem"), bytes };
    let mut sink = Recorded::new(MemoryOutput::new());
    let result = do_unpack(&source, &mut sink, false);
    assert_eq!(result, Err(DzipError::CodecError { file: String::from("d/bad"), chunk_id: 1 }));
    assert!(sink.inner().files.is_empty());
    assert!(sink.inner().directories.is_empty());
    let derived = do_unpack(&source, &mut sink, true).unwrap();
    assert_eq!(derived.files.len(), 2);
    assert_eq!(sink.inner().files, vec![file("d/good", b"ok"), file("d/bad", b"zz")]);
}

#[test]
fn do_list_lists_the_archive_of_a_source() {
    let source = MemoryArchive { name: String::from("mem"), bytes: packed() };
    let listed = do_list(&source).unwrap();
    let lines: Vec<(String, u64, usize)> =
        listed.into_iter().map(|l| (l.path, l.original_size, l.chunk_count)).collect();
    assert_eq!(
        lines,
        vec![
            (String::from("a.txt"), 2, 1),
            (String::from("dir/b.txt"), 2, 1),
            (String::from("dir/c"), 3, 1),
        ]
    );
}

#[test]
fn do_list_rejects_a_source_without_header() {
    let source = MemoryArchive { name: String::from("mem"), bytes: vec![0; 7] };
    assert_eq!(do_list(&source), Err(DzipError::CorruptArchive));
}

#[test]
fn load_checks_the_references_of_the_header() {
    let meta = ArchiveMetadata {
        version: 1,
        directories: vec![],
        user_files: vec![String::from("f")],
        raw_chunks: vec![],
        map_entries: vec![MapEntry { file_id: 0, dir_idx: 0, chunk_ids: vec![] }],
    };
    let bytes = serialize_archive(&meta, &[]).unwrap();
    let source = MemoryArchive { name: String::from("mem"), bytes };
    assert_eq!(ArchiveMetadata::load(&source), Err(DzipError::CorruptArchive));
    assert_eq!(do_list(&source).unwrap()[0].path, "f");
}

#[test]
fn memory_archive_reads_windows() {
    let source = MemoryArchive { name: String::from("mem"), bytes: b"0123456789".to_vec() };
    assert_eq!(source.archive_len(), Ok(10));
    assert_eq!(source.read_window(2, 3), Ok(b"234".to_vec()));
    assert_eq!(source.read_window(10, 0), Ok(vec![]));
    assert!(source.read_window(8, 3).is_err());
    assert!(source.read_window(11, 0).is_err());
    assert_eq!(source.name(), "mem");
}

#[test]
fn memory_tree_reads_the_first_file_of_a_path() {
    let source = MemoryTree { files: vec![file("a", b"1"), file("b", b"2"), file("a", b"3")] };
    assert_eq!(source.read_file("a"), Ok(b"1".to_vec()));
    assert_eq!(source.read_file("b"), Ok(b"2".to_vec()));
    assert!(source.read_file("c").is_err());
}

#[test]
fn memory_output_appends_to_files() {
    let mut sink = MemoryOutput::new();
    assert_eq!(sink.create_directory("d"), Ok(()));
    assert_eq!(sink.create_directory("d"), Ok(()));
    assert_eq!(sink.write_append("d/f", b"ab"), Ok(()));
    assert_eq!(sink.write_append("g", b"x"), Ok(()));
    assert_eq!(sink.write_append("d/f", b"cd"), Ok(()));
    assert_eq!(sink.directories, vec![String::from("d")]);
    assert_eq!(sink.files, vec![file("d/f", b"abcd"), file("g", b"x")]);
}

#[test]
fn memory_archives_keeps_what_it_receives() {
    let mut sink = MemoryArchives { archives: vec![] };
    assert_eq!(sink.write_archive(b"one"), Ok(()));
    assert_eq!(sink.write_archive(b"two"), Ok(()));
    assert_eq!(sink.archives, vec![b"one".to_vec(), b"two".to_vec()]);
    assert_eq!(sink.name(), "memory");
}

struct BrokenSource;

impl UnpackSource for BrokenSource {
    fn name(&self) -> String {
        String::from("broken.dz")
    }

    fn archive_len(&self) -> Result<usize, IoFailure> {
        Err(IoFailure { cause: String::from("unplugged") })
    }

    fn read_window(&self, _offset: usize, _len: usize) -> Result<Vec<u8>, IoFailure> {
        Err(IoFailure { cause: String::from("unplugged") })
    }
}

#[test]
fn a_failing_source_is_an_io_error_with_its_name() {
    let expected =
        Err(DzipError::IoContext(String::from("broken.dz"), String::from("unplugged")));
    assert_eq!(do_list(&BrokenSource), expected);
    let mut sink = Recorded::new(MemoryOutput::new());
    assert!(matches!(do_unpack(&BrokenSource, &mut sink, true), Err(DzipError::IoContext(_, _))));
    assert!(sink.inner().files.is_empty());
}

struct ShortSource;

impl UnpackSource for ShortSource {
    fn name(&self) -> String {
        String::from("short.dz")
    }

    fn archive_len(&self) -> Result<usize, IoFailure> {
        Ok(20)
    }

    fn read_window(&self, _offset: usize, _len: usize) -> Result<Vec<u8>, IoFailure> {
        Ok(vec![1, 0, 0, 0])
    }
}

#[test]
fn a_window_of_another_length_than_asked_is_an_io_error() {
    let expected = Err(DzipError::IoContext(String::from("short.dz"), String::from("short read")));
    assert_eq!(do_list(&ShortSource), expected);
}

#[test]
fn accept_window_takes_exactly_the_bytes_asked_for() {
    assert_eq!(accept_window(3, Ok(vec![7, 8, 9])), Ok(vec![7, 8, 9]));
    assert_eq!(accept_window(0, Ok(vec![])), Ok(vec![]));
    let short = Err(IoFailure { cause: String::from("short read") });
    assert_eq!(accept_window(4, Ok(vec![7, 8, 9])), short);
    assert_eq!(accept_window(2, Ok(vec![7, 8, 9])), short);
    let failed = IoFailure { cause: String::from("unplugged") };
    assert_eq!(accept_window(3, Err(failed.clone())), Err(failed));
}

/// A sink that takes a number of requests and fails from then on.
struct Failing {
    left: usize,
    output: MemoryOutput,
}

impl Failing {
    fn spend(&mut self) -> Result<(), IoFailure> {
        if self.left == 0 {
            return Err(IoFailure { cause: String::from("disk full") });
        }
        self.left -= 1;
        Ok(())
    }
}

impl UnpackSink for Failing {
    fn create_directory(&mut self, directory: &str) -> Result<(), IoFailure> {
        self.spend()?;
        self.output.create_directory(directory)
    }

    fn write_append(&mut self, path: &str, data: &[u8]) -> Result<(), IoFailure> {
        self.spend()?;
        self.output.write_append(path, data)
    }
}

fn unpacked(path: &str, directory: &str, data: &[u8]) -> UnpackedFile {
    UnpackedFile {
        path: String::from(path),
        directory: String::from(directory),
        data: data.to_vec(),
        raw_chunks: vec![],
    }
}

fn three_files() -> Vec<UnpackedFile> {
    vec![unpacked("a", ".", b"1"), unpacked("d/b", "d", b"22"), unpacked("d/c", "d", b"333")]
}

#[test]
fn write_files_hands_every_file_to_the_sink_in_order() {
    let mut sink = Recorded::new(MemoryOutput::new());
    assert_eq!(write_files(&mut sink, &three_files()), Ok(()));
    let output = sink.into_inner();
    assert_eq!(output.directories, vec![String::from("."), String::from("d")]);
    assert_eq!(output.files, vec![file("a", b"1"), file("d/b", b"22"), file("d/c", b"333")]);
}

#[test]
fn write_files_of_no_files_asks_nothing_of_the_sink() {
    let mut sink = Recorded::new(Failing { left: 0, output: MemoryOutput::new() });
    assert_eq!(write_files(&mut sink, &vec![]), Ok(()));
    assert!(sink.inner().output.files.is_empty());
}

#[test]
fn write_files_stops_at_the_first_failure_and_names_its_path() {
    for (left, path, files, directories) in [
        (0usize, ".", 0usize, 0usize),
        (1, "a", 0, 1),
        (2, "d", 1, 1),
        (3, "d/b", 1, 2),
        (4, "d", 2, 2),
        (5, "d/c", 2, 2),
    ] {
        let mut sink = Recorded::new(Failing { left, output: MemoryOutput::new() });
        let result = write_files(&mut sink, &three_files());
        assert_eq!(
            result,
            Err(DzipError::IoContext(String::from(path), String::from("disk full"))),
            "after {} requests",
            left
        );
        let output = sink.into_inner().output;
        assert_eq!(output.files.len(), files);
        assert_eq!(output.directories.len(), directories);
    }
    let mut sink = Recorded::new(Failing { left: 6, output: MemoryOutput::new() });
    assert_eq!(write_files(&mut sink, &three_files()), Ok(()));
}

#[test]
fn recorded_hands_requests_on_to_its_sink() {
    let mut sink = Recorded::new(Failing { left: 2, output: MemoryOutput::new() });
    assert_eq!(sink.create_directory("d"), Ok(()));
    assert_eq!(sink.write_append("d/f", b"xy"), Ok(()));
    assert!(sink.write_append("d/f", b"z").is_err());
    assert!(sink.create_directory("e").is_err());
    let output = sink.into_inner().output;
    assert_eq!(output.directories, vec![String::from("d")]);
    assert_eq!(output.files, vec![file("d/f", b"xy")]);
}

struct NoFiles;

impl PackSource for NoFiles {
    fn read_file(&self, _path: &str) -> Result<Vec<u8>, IoFailure> {
        Err(IoFailure { cause: String::from("unplugged") })
    }
}

#[test]
fn pack_archive_of_an_empty_config_asks_nothing_of_the_source() {
    let archive = pack_archive(&Config { files: vec![] }, &NoFiles, &create_default_registry());
    assert_eq!(archive, Ok(vec![1, 0, 0, 0, 0, 0, 0, 0, 0, 0, 0, 0, 0, 0, 0, 0, 0, 0, 0, 0]));
}

#[test]
fn pack_archive_names_the_first_file_that_cannot_be_read() {
    let result = pack_archive(&config(), &NoFiles, &create_default_registry());
    assert_eq!(result, Err(DzipError::IoContext(String::from("a.txt"), String::from("unplugged"))));
}

#[test]
fn pack_archive_packs_what_the_source_holds() {
    let registry = create_default_registry();
    let archive = pack_archive(&config(), &tree(), &registry).unwrap();
    let contents = read_contents(&config(), &tree()).unwrap();
    assert_eq!(archive, dzip_core::pack::pack_files(&config(), &contents, &registry).unwrap());
}

struct FullDisk;

impl PackSink for FullDisk {
    fn name(&self) -> String {
        String::from("out.dz")
    }

    fn write_archive(&mut self, _bytes: &[u8]) -> Result<(), IoFailure> {
        Err(IoFailure { cause: String::from("disk full") })
    }
}

#[test]
fn a_failing_pack_sink_is_an_io_error_with_its_name() {
    let mut sink = Recorded::new(FullDisk);
    let expected = Err(DzipError::IoContext(String::from("out.dz"), String::from("disk full")));
    assert_eq!(pack_to_sink(&config(), &tree(), &mut sink, &create_default_registry()), expected);
    assert_eq!(do_pack(&config(), &tree(), &mut sink), expected);
}

#[test]
fn pack_to_sink_hands_over_the_archive_of_the_registry() {
    let registry = create_default_registry();
    let mut sink = Recorded::new(MemoryArchives { archives: vec![] });
    assert_eq!(pack_to_sink(&config(), &tree(), &mut sink, &registry), Ok(()));
    assert_eq!(sink.name(), "memory");
    assert_eq!(
        sink.into_inner().archives,
        vec![pack_archive(&config(), &tree(), &registry).unwrap()]
    );
}

#[test]
fn recorded_hands_archives_on_to_its_sink() {
    let mut sink = Recorded::new(MemoryArchives { archives: vec![] });
    assert_eq!(sink.write_archive(b"one"), Ok(()));
    assert_eq!(sink.inner().archives, vec![b"one".to_vec()]);
    let mut full = Recorded::new(FullDisk);
    assert!(full.write_archive(b"one").is_err());
    assert_eq!(full.name(), "out.dz");
}
