//! In-memory model of an archive's header and of the config document, with
//! the mathematical views that the contracts of the engines speak of.

use crate::format::CURRENT_DIR_IDX;
use std::borrow::Cow;
use vstd::prelude::*;
use vstd::utf8::encode_utf8;

verus! {

/// Record of one stored chunk. The payload of a chunk follows the payloads
/// of the chunks before it in the table, so its offset is not stored.
#[derive(Debug, Clone, Copy, PartialEq, Eq)]
pub struct RawChunk {
    /// Identifier that map entries refer to.
    pub id: u16,
    /// Length of the data after decoding.
    pub decoded_length: u32,
    /// Flags that select the codec of the stored bytes.
    pub flags: u16,
    /// Length of the stored bytes.
    pub stored_length: u32,
}

/// Record of one file: its name, its directory and the chunks that make up
/// its content, in order.
#[derive(Debug, Clone, PartialEq, Eq)]
pub struct MapEntry {
    /// Index into the filename table.
    pub file_id: u32,
    /// Index into the directory table, or `CURRENT_DIR_IDX`.
    pub dir_idx: u32,
    /// Identifiers of the file's chunks, in the order of its content.
    pub chunk_ids: Vec<u16>,
}

/// Mathematical value of a `MapEntry`.
pub struct MapEntryModel {
    pub file_id: u32,
    pub dir_idx: u32,
    pub chunk_ids: Seq<u16>,
}

impl View for MapEntry {
    type V = MapEntryModel;

    open spec fn view(&self) -> MapEntryModel {
        MapEntryModel { file_id: self.file_id, dir_idx: self.dir_idx, chunk_ids: self.chunk_ids@ }
    }
}

impl DeepView for MapEntry {
    type V = MapEntryModel;

    open spec fn deep_view(&self) -> MapEntryModel {
        self@
    }
}

/// The header of an archive.
#[derive(Debug, Clone, PartialEq, Eq)]
pub struct ArchiveMetadata {
    pub version: u32,
    pub directories: Vec<String>,
    pub user_files: Vec<String>,
    pub raw_chunks: Vec<RawChunk>,
    pub map_entries: Vec<MapEntry>,
}

/// Mathematical value of an `ArchiveMetadata`.
pub struct ArchiveModel {
    pub version: u32,
    pub directories: Seq<Seq<char>>,
    pub user_files: Seq<Seq<char>>,
    pub raw_chunks: Seq<RawChunk>,
    pub map_entries: Seq<MapEntryModel>,
}

impl View for ArchiveMetadata {
    type V = ArchiveModel;

    open spec fn view(&self) -> ArchiveModel {
        ArchiveModel {
            version: self.version,
            directories: self.directories.deep_view(),
            user_files: self.user_files.deep_view(),
            raw_chunks: self.raw_chunks@,
            map_entries: self.map_entries.deep_view(),
        }
    }
}

/// Whether a name can stand in a table of null-terminated strings: its
/// UTF-8 bytes hold no zero byte.
pub open spec fn name_encodable(name: Seq<char>) -> bool {
    !encode_utf8(name).contains(0u8)
}

/// Sum of the stored lengths of the first `n` chunks: the offset of chunk
/// `n` in the payload.
pub open spec fn stored_prefix(chunks: Seq<RawChunk>, n: int) -> int
    decreases n,
{
    if n <= 0 {
        0
    } else {
        stored_prefix(chunks, n - 1) + chunks[n - 1].stored_length
    }
}

/// Whether a chunk with identifier `id` is in the table.
pub open spec fn has_chunk(chunks: Seq<RawChunk>, id: u16) -> bool {
    exists|k: int| 0 <= k < chunks.len() && #[trigger] chunks[k].id == id
}

/// No identifier occurs twice in the chunk table.
pub open spec fn chunk_ids_unique(chunks: Seq<RawChunk>) -> bool {
    forall|a: int, b: int|
        0 <= a < chunks.len() && 0 <= b < chunks.len() && a != b ==> #[trigger] chunks[a].id
            != #[trigger] chunks[b].id
}

impl MapEntryModel {
    /// The entry's references point into the tables.
    pub open spec fn references_valid(self, archive: ArchiveModel) -> bool {
        &&& (self.file_id as int) < archive.user_files.len()
        &&& (self.dir_idx == CURRENT_DIR_IDX || (self.dir_idx as int) < archive.directories.len())
        &&& forall|j: int|
            0 <= j < self.chunk_ids.len() ==> has_chunk(
                archive.raw_chunks,
                #[trigger] self.chunk_ids[j],
            )
    }
}

impl ArchiveModel {
    /// Every count fits the 32-bit count that precedes a table, and every
    /// name can be written as a null-terminated string.
    pub open spec fn encodable(self) -> bool {
        &&& self.directories.len() <= u32::MAX
        &&& self.user_files.len() <= u32::MAX
        &&& self.raw_chunks.len() <= u32::MAX
        &&& self.map_entries.len() <= u32::MAX
        &&& forall|i: int|
            0 <= i < self.directories.len() ==> name_encodable(#[trigger] self.directories[i])
        &&& forall|i: int|
            0 <= i < self.user_files.len() ==> name_encodable(#[trigger] self.user_files[i])
        &&& forall|i: int|
            0 <= i < self.map_entries.len() ==> (#[trigger] self.map_entries[i]).chunk_ids.len()
                <= u32::MAX
    }

    /// Every cross-reference of every map entry is in range, and no chunk
    /// identifier is used twice.
    pub open spec fn references_valid(self) -> bool {
        &&& chunk_ids_unique(self.raw_chunks)
        &&& forall|i: int|
            0 <= i < self.map_entries.len() ==> (#[trigger] self.map_entries[i]).references_valid(
                self,
            )
    }

    /// Number of payload bytes that the chunk table accounts for.
    pub open spec fn stored_total(self) -> int {
        stored_prefix(self.raw_chunks, self.raw_chunks.len() as int)
    }

    /// The header is consistent in itself and with a payload of
    /// `payload_len` bytes.
    pub open spec fn well_formed(self, payload_len: int) -> bool {
        &&& self.encodable()
        &&& self.references_valid()
        &&& self.stored_total() <= payload_len
    }
}

/// One file of the config document.
#[derive(Debug, Clone, PartialEq, Eq)]
pub struct FileEntry {
    /// Path of the file below the root, components separated by `/`.
    pub path: String,
    /// Directory of the file; `.` or empty for the root itself.
    pub directory: String,
    /// Names of the flags of the file's chunks.
    pub flags: Vec<Cow<'static, str>>,
    /// Most bytes of the file that go into one chunk; zero for the whole file
    /// as one chunk.
    pub chunk_size: u32,
}

/// Mathematical value of a `FileEntry`.
pub struct FileEntryModel {
    pub path: Seq<char>,
    pub directory: Seq<char>,
    pub flags: Seq<Seq<char>>,
    pub chunk_size: u32,
}

impl View for FileEntry {
    type V = FileEntryModel;

    open spec fn view(&self) -> FileEntryModel {
        FileEntryModel {
            path: self.path@,
            directory: self.directory@,
            flags: self.flags.deep_view(),
            chunk_size: self.chunk_size,
        }
    }
}

impl DeepView for FileEntry {
    type V = FileEntryModel;

    open spec fn deep_view(&self) -> FileEntryModel {
        self@
    }
}

/// The config document: the list of files that an archive is packed from,
/// and that unpacking an archive gives back.
#[derive(Debug, Clone, PartialEq, Eq)]
pub struct Config {
    pub files: Vec<FileEntry>,
}

impl View for Config {
    type V = Seq<FileEntryModel>;

    open spec fn view(&self) -> Seq<FileEntryModel> {
        self.files.deep_view()
    }
}

} // verus!
