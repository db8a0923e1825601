//! The unpack engine: reassembles the files of an archive from its chunks
//! and derives the config document that the archive can be packed from again.

use crate::bytes::put_bytes;
use crate::codec::{
    create_default_registry, default_codecs, registry_decode, CodecKind, CodecRegistry,
};
use crate::error::{DzipError, ErrorKind};
use crate::format::CURRENT_DIR_STR;
use crate::io::{read_archive, Recorded, SinkEvent, UnpackSink, UnpackSource};
use crate::list::{directory_of, entry_path};
use crate::model::{
    chunk_ids_unique, has_chunk, stored_prefix, ArchiveMetadata, ArchiveModel, Config, FileEntry,
    FileEntryModel, MapEntry, MapEntryModel, RawChunk,
};
use crate::reader::{lemma_stored_prefix_monotone, parse_header, parse_metadata};
use crate::text::make_path;
use crate::utils::{decode_flags, decode_spec};
use std::borrow::Cow;
use std::collections::HashMap;
use vstd::prelude::*;
use vstd::slice::slice_subrange;

verus! {

broadcast use vstd::std_specs::hash::group_hash_axioms;

/// One file taken out of an archive.
#[derive(Debug, Clone, PartialEq, Eq)]
pub struct UnpackedFile {
    /// Path of the file, components separated by `/`.
    pub path: String,
    /// Directory of the file, as the directory table names it.
    pub directory: String,
    /// Content of the file.
    pub data: Vec<u8>,
    /// Identifiers of the chunks that did not decode and whose stored bytes
    /// stand in `data` as they are.
    pub raw_chunks: Vec<u16>,
}

/// Mathematical value of an `UnpackedFile`.
pub struct UnpackedFileModel {
    pub path: Seq<char>,
    pub directory: Seq<char>,
    pub data: Seq<u8>,
    pub raw_chunks: Seq<u16>,
}

impl View for UnpackedFile {
    type V = UnpackedFileModel;

    open spec fn view(&self) -> UnpackedFileModel {
        UnpackedFileModel {
            path: self.path@,
            directory: self.directory@,
            data: self.data@,
            raw_chunks: self.raw_chunks@,
        }
    }
}

impl DeepView for UnpackedFile {
    type V = UnpackedFileModel;

    open spec fn deep_view(&self) -> UnpackedFileModel {
        self@
    }
}

/// What unpacking an archive gives: its files, in the order of the map
/// entries, and the config document derived from its header.
#[derive(Debug, Clone, PartialEq, Eq)]
pub struct Unpacked {
    pub files: Vec<UnpackedFile>,
    pub config: Config,
}

/// Mathematical value of an `Unpacked`.
pub struct UnpackedModel {
    pub files: Seq<UnpackedFileModel>,
    pub config: Seq<FileEntryModel>,
}

impl View for Unpacked {
    type V = UnpackedModel;

    open spec fn view(&self) -> UnpackedModel {
        UnpackedModel { files: self.files.deep_view(), config: self.config@ }
    }
}

/// Position in the chunk table of the chunk with identifier `id`.
pub open spec fn chunk_index(chunks: Seq<RawChunk>, id: u16) -> int {
    choose|k: int| 0 <= k < chunks.len() && #[trigger] chunks[k].id == id
}

/// The stored bytes of the chunk at position `k`: the window of the payload
/// behind the stored bytes of the chunks before it.
pub open spec fn chunk_window(chunks: Seq<RawChunk>, payload: Seq<u8>, k: int) -> Seq<u8> {
    payload.subrange(stored_prefix(chunks, k), stored_prefix(chunks, k + 1))
}

/// What the chunk with identifier `id` decodes to under `registry`; `None`
/// where no codec is bound to its flags or its stored bytes do not decode.
pub open spec fn decoded_chunk(
    archive: ArchiveModel,
    payload: Seq<u8>,
    registry: Map<u16, CodecKind>,
    id: u16,
) -> Option<Seq<u8>> {
    let k = chunk_index(archive.raw_chunks, id);
    registry_decode(
        registry,
        archive.raw_chunks[k].flags,
        chunk_window(archive.raw_chunks, payload, k),
        archive.raw_chunks[k].decoded_length,
    )
}

/// Content assembled from a list of chunks, with the chunks kept raw.
pub struct Assembled {
    pub data: Seq<u8>,
    pub raw_chunks: Seq<u16>,
}

/// The content that the chunks `ids` make up, in their order: each chunk
/// adds what it decodes to. A chunk that does not decode adds its stored
/// bytes and is noted where `keep_raw` is set; where it is not set, the
/// first such chunk is the error.
pub open spec fn assemble(
    archive: ArchiveModel,
    payload: Seq<u8>,
    registry: Map<u16, CodecKind>,
    keep_raw: bool,
    ids: Seq<u16>,
) -> Result<Assembled, u16>
    decreases ids.len(),
{
    if ids.len() == 0 {
        Ok(Assembled { data: Seq::empty(), raw_chunks: Seq::empty() })
    } else {
        match assemble(archive, payload, registry, keep_raw, ids.drop_last()) {
            Err(id) => Err(id),
            Ok(front) => match decoded_chunk(archive, payload, registry, ids.last()) {
                Some(data) => Ok(
                    Assembled { data: front.data + data, raw_chunks: front.raw_chunks },
                ),
                None => if keep_raw {
                    Ok(
                        Assembled {
                            data: front.data + chunk_window(
                                archive.raw_chunks,
                                payload,
                                chunk_index(archive.raw_chunks, ids.last()),
                            ),
                            raw_chunks: front.raw_chunks.push(ids.last()),
                        },
                    )
                } else {
                    Err(ids.last())
                },
            },
        }
    }
}

/// The file of one map entry, or the codec error that names the file and
/// the chunk that did not decode.
pub open spec fn unpacked_file(
    archive: ArchiveModel,
    payload: Seq<u8>,
    registry: Map<u16, CodecKind>,
    keep_raw: bool,
    entry: MapEntryModel,
) -> Result<UnpackedFileModel, ErrorKind> {
    match assemble(archive, payload, registry, keep_raw, entry.chunk_ids) {
        Ok(content) => Ok(
            UnpackedFileModel {
                path: entry_path(archive, entry),
                directory: directory_of(archive.directories, entry.dir_idx),
                data: content.data,
                raw_chunks: content.raw_chunks,
            },
        ),
        Err(id) => Err(ErrorKind::CodecError { file: entry_path(archive, entry), chunk_id: id }),
    }
}

/// The files of the first `n` map entries, in table order, or the error of
/// the first entry that fails.
pub open spec fn unpacked_files(
    archive: ArchiveModel,
    payload: Seq<u8>,
    registry: Map<u16, CodecKind>,
    keep_raw: bool,
    n: int,
) -> Result<Seq<UnpackedFileModel>, ErrorKind>
    decreases n,
{
    if n <= 0 {
        Ok(Seq::empty())
    } else {
        match unpacked_files(archive, payload, registry, keep_raw, n - 1) {
            Err(e) => Err(e),
            Ok(files) => match unpacked_file(
                archive,
                payload,
                registry,
                keep_raw,
                archive.map_entries[n - 1],
            ) {
                Ok(file) => Ok(files.push(file)),
                Err(e) => Err(e),
            },
        }
    }
}

/// The flag names of a map entry in the derived config: those of the
/// entry's first chunk, none for an entry without chunks.
pub open spec fn entry_flag_names(archive: ArchiveModel, entry: MapEntryModel) -> Seq<Seq<char>> {
    if entry.chunk_ids.len() == 0 {
        Seq::empty()
    } else {
        decode_spec(archive.raw_chunks[chunk_index(archive.raw_chunks, entry.chunk_ids[0])].flags)
    }
}

/// The chunk size of a map entry in the derived config: the decoded length
/// of the entry's first chunk where it has more than one, zero where it has
/// not.
pub open spec fn entry_chunk_size(archive: ArchiveModel, entry: MapEntryModel) -> u32 {
    if entry.chunk_ids.len() > 1 {
        archive.raw_chunks[chunk_index(archive.raw_chunks, entry.chunk_ids[0])].decoded_length
    } else {
        0
    }
}

/// The config entry derived from a map entry.
pub open spec fn derived_entry(archive: ArchiveModel, entry: MapEntryModel) -> FileEntryModel {
    FileEntryModel {
        path: entry_path(archive, entry),
        directory: directory_of(archive.directories, entry.dir_idx),
        flags: entry_flag_names(archive, entry),
        chunk_size: entry_chunk_size(archive, entry),
    }
}

/// The config document derived from a header: one entry per map entry, in
/// table order.
pub open spec fn derived_config(archive: ArchiveModel) -> Seq<FileEntryModel> {
    Seq::new(archive.map_entries.len(), |i: int| derived_entry(archive, archive.map_entries[i]))
}

/// What unpacking a loaded archive gives.
pub open spec fn unpack_spec(
    archive: ArchiveModel,
    payload: Seq<u8>,
    registry: Map<u16, CodecKind>,
    keep_raw: bool,
) -> Result<UnpackedModel, ErrorKind> {
    match unpacked_files(archive, payload, registry, keep_raw, archive.map_entries.len() as int) {
        Ok(files) => Ok(UnpackedModel { files, config: derived_config(archive) }),
        Err(e) => Err(e),
    }
}

/// What unpacking the bytes of an archive gives: `CorruptArchive` where the
/// bytes begin with no complete header, a cross-reference of the header is
/// out of range, or the payload is shorter than the chunk table says; else
/// what unpacking the header and the payload gives.
pub open spec fn unpack_archive_spec(
    bytes: Seq<u8>,
    registry: Map<u16, CodecKind>,
    keep_raw: bool,
) -> Result<UnpackedModel, ErrorKind> {
    match parse_header(bytes) {
        None => Err(ErrorKind::CorruptArchive),
        Some((archive, payload_start)) => {
            if archive.references_valid() && archive.stored_total() <= bytes.len()
                - payload_start {
                unpack_spec(
                    archive,
                    bytes.subrange(payload_start, bytes.len() as int),
                    registry,
                    keep_raw,
                )
            } else {
                Err(ErrorKind::CorruptArchive)
            }
        },
    }
}

/// Once an entry fails, unpacking more entries fails with the same error.
pub proof fn lemma_unpacked_files_fails(
    archive: ArchiveModel,
    payload: Seq<u8>,
    registry: Map<u16, CodecKind>,
    keep_raw: bool,
    failed: int,
    n: int,
)
    requires
        failed <= n,
        unpacked_files(archive, payload, registry, keep_raw, failed) is Err,
    ensures
        unpacked_files(archive, payload, registry, keep_raw, n) == unpacked_files(
            archive,
            payload,
            registry,
            keep_raw,
            failed,
        ),
    decreases n - failed,
{
    if failed < n {
        lemma_unpacked_files_fails(archive, payload, registry, keep_raw, failed, n - 1);
    }
}

/// Once a chunk fails, assembling more chunks fails with the same chunk.
pub proof fn lemma_assemble_fails(
    archive: ArchiveModel,
    payload: Seq<u8>,
    registry: Map<u16, CodecKind>,
    keep_raw: bool,
    ids: Seq<u16>,
    failed: int,
)
    requires
        0 <= failed <= ids.len(),
        assemble(archive, payload, registry, keep_raw, ids.take(failed)) is Err,
    ensures
        assemble(archive, payload, registry, keep_raw, ids) == assemble(
            archive,
            payload,
            registry,
            keep_raw,
            ids.take(failed),
        ),
    decreases ids.len() - failed,
{
    if failed < ids.len() {
        assert(ids.drop_last().take(failed) =~= ids.take(failed));
        lemma_assemble_fails(archive, payload, registry, keep_raw, ids.drop_last(), failed);
    } else {
        assert(ids.take(failed) =~= ids);
    }
}

/// Where chunks are in the payload and in the table: the payload offsets of
/// the chunks, and the position of each identifier.
struct ChunkTable {
    offsets: Vec<usize>,
    positions: HashMap<u16, usize>,
}

impl ChunkTable {
    /// The table holds the offset of every chunk, the end of the last one
    /// included, and the position of every identifier of `chunks`.
    spec fn describes(&self, chunks: Seq<RawChunk>, payload_len: int) -> bool {
        &&& self.offsets@.len() == chunks.len() + 1
        &&& forall|k: int|
            0 <= k <= chunks.len() ==> #[trigger] self.offsets@[k] == stored_prefix(chunks, k)
        &&& stored_prefix(chunks, chunks.len() as int) <= payload_len
        &&& forall|id: u16|
            #![trigger self.positions@.contains_key(id)]
            has_chunk(chunks, id) ==> self.positions@.contains_key(id) && self.positions@[id]
                == chunk_index(chunks, id)
    }

    /// Builds the table for the chunks of a header whose identifiers are
    /// unique and whose stored bytes fit the payload.
    fn build(chunks: &Vec<RawChunk>, payload_len: usize) -> (table: ChunkTable)
        requires
            chunk_ids_unique(chunks@),
            stored_prefix(chunks@, chunks@.len() as int) <= payload_len,
        ensures
            table.describes(chunks@, payload_len as int),
    {
        let mut offsets: Vec<usize> = Vec::new();
        let mut positions: HashMap<u16, usize> = HashMap::new();
        offsets.push(0);
        let mut i: usize = 0;
        while i < chunks.len()
            invariant
                i <= chunks@.len(),
                chunk_ids_unique(chunks@),
                stored_prefix(chunks@, chunks@.len() as int) <= payload_len,
                offsets@.len() == i + 1,
                forall|k: int| 0 <= k <= i ==> #[trigger] offsets@[k] == stored_prefix(chunks@, k),
                forall|id: u16|
                    #![trigger positions@.contains_key(id)]
                    has_chunk(chunks@.take(i as int), id) ==> positions@.contains_key(id)
                        && positions@[id] == chunk_index(chunks@, id),
            decreases chunks@.len() - i,
        {
            let chunk = chunks[i];
            proof {
                lemma_stored_prefix_monotone(chunks@, i as int + 1, chunks@.len() as int);
                assert(chunks@[i as int].id == chunk.id);
                assert(chunk_index(chunks@, chunk.id) == i);
                assert forall|id: u16|
                    #![trigger positions@.insert(chunk.id, i).contains_key(id)]
                    has_chunk(chunks@.take(i as int + 1), id) implies positions@.insert(
                    chunk.id,
                    i,
                ).contains_key(id) && positions@.insert(chunk.id, i)[id] == chunk_index(
                    chunks@,
                    id,
                ) by {
                    let grown = chunks@.take(i as int + 1);
                    let k = choose|k: int| 0 <= k < grown.len() && #[trigger] grown[k].id == id;
                    if k < i {
                        assert(chunks@.take(i as int)[k].id == id);
                        assert(chunks@[k].id == id);
                    }
                }
            }
            let next = offsets[i] + chunk.stored_length as usize;
            offsets.push(next);
            positions.insert(chunk.id, i);
            i += 1;
        }
        proof {
            assert(chunks@.take(i as int) =~= chunks@);
        }
        ChunkTable { offsets, positions }
    }
}

/// Takes the file of one map entry out of the payload.
fn extract_entry(
    meta: &ArchiveMetadata,
    table: &ChunkTable,
    payload: &[u8],
    registry: &CodecRegistry,
    keep_raw: bool,
    entry: &MapEntry,
) -> (r: Result<(UnpackedFile, FileEntry), DzipError>)
    requires
        table.describes(meta.raw_chunks@, payload@.len() as int),
        chunk_ids_unique(meta.raw_chunks@),
        entry@.references_valid(meta@),
    ensures
        match r {
            Ok((file, derived)) => unpacked_file(meta@, payload@, registry@, keep_raw, entry@)
                == Ok::<UnpackedFileModel, ErrorKind>(file@) && derived@ == derived_entry(
                meta@,
                entry@,
            ),
            Err(e) => unpacked_file(meta@, payload@, registry@, keep_raw, entry@) == Err::<
                UnpackedFileModel,
                ErrorKind,
            >(e@),
        },
{
    let ghost chunks = meta.raw_chunks@;
    let ghost ids = entry.chunk_ids@;
    let name = &meta.user_files[entry.file_id as usize];
    assert(name@ == meta@.user_files[entry.file_id as int]);
    let directory: String = if (entry.dir_idx as usize) < meta.directories.len() {
        let dir = &meta.directories[entry.dir_idx as usize];
        assert(dir@ == meta@.directories[entry.dir_idx as int]);
        dir.clone()
    } else {
        CURRENT_DIR_STR.to_owned()
    };
    let path = make_path(directory.as_str(), name.as_str());
    let mut data: Vec<u8> = Vec::new();
    let mut raw_chunks: Vec<u16> = Vec::new();
    let mut flags: Vec<Cow<'static, str>> = Vec::new();
    let mut first_length: u32 = 0;
    proof {
        assert(flags.deep_view() =~= Seq::<Seq<char>>::empty());
        assert(ids.take(0) =~= Seq::<u16>::empty());
    }
    let mut j: usize = 0;
    while j < entry.chunk_ids.len()
        invariant
            j <= ids.len(),
            ids == entry.chunk_ids@,
            chunks == meta.raw_chunks@,
            chunks == meta@.raw_chunks,
            table.describes(chunks, payload@.len() as int),
            chunk_ids_unique(chunks),
            entry@.references_valid(meta@),
            path@ == entry_path(meta@, entry@),
            assemble(meta@, payload@, registry@, keep_raw, ids.take(j as int)) == Ok::<
                Assembled,
                u16,
            >(Assembled { data: data@, raw_chunks: raw_chunks@ }),
            flags.deep_view() == if j == 0 {
                Seq::<Seq<char>>::empty()
            } else {
                entry_flag_names(meta@, entry@)
            },
            j > 0 ==> first_length == chunks[chunk_index(chunks, ids[0])].decoded_length,
        decreases ids.len() - j,
    {
        let id = entry.chunk_ids[j];
        proof {
            assert(has_chunk(chunks, ids[j as int]));
            assert(table.positions@.contains_key(id));
            let grown = ids.take(j as int + 1);
            assert(grown.drop_last() =~= ids.take(j as int));
            assert(grown.last() == id);
        }
        let found = table.positions.get(&id);
        let k: usize = match found {
            Some(k) => *k,
            None => 0,
        };
        assert(k == chunk_index(chunks, id));
        assert(0 <= k < chunks.len());
        let chunk = meta.raw_chunks[k];
        proof {
            lemma_stored_prefix_monotone(chunks, k as int + 1, chunks.len() as int);
            assert(table.offsets@[k as int] == stored_prefix(chunks, k as int));
            assert(table.offsets@[k as int + 1] == stored_prefix(chunks, k as int + 1));
        }
        assert(k + 1 < table.offsets.len());
        let window = slice_subrange(payload, table.offsets[k], table.offsets[k + 1]);
        assert(window@ == chunk_window(chunks, payload@, k as int));
        if j == 0 {
            flags = decode_flags(chunk.flags);
            first_length = chunk.decoded_length;
        }
        match registry.decode(chunk.flags, window, chunk.decoded_length) {
            Some(decoded) => {
                put_bytes(&mut data, decoded.as_slice());
            },
            None => {
                if keep_raw {
                    put_bytes(&mut data, window);
                    raw_chunks.push(id);
                } else {
                    proof {
                        lemma_assemble_fails(
                            meta@,
                            payload@,
                            registry@,
                            keep_raw,
                            ids,
                            j as int + 1,
                        );
                    }
                    return Err(DzipError::CodecError { file: path, chunk_id: id });
                }
            },
        }
        j += 1;
    }
    proof {
        assert(ids.take(j as int) =~= ids);
    }
    let chunk_size = if entry.chunk_ids.len() > 1 {
        first_length
    } else {
        0
    };
    let derived = FileEntry { path: path.clone(), directory: directory.clone(), flags, chunk_size };
    Ok((UnpackedFile { path, directory, data, raw_chunks }, derived))
}

/// Unpacks a loaded archive: for each map entry, in table order, the file
/// that its chunks make up, and the config entry derived from it. A chunk
/// that does not decode fails the whole unpack with `CodecError`, naming
/// the file and the chunk, unless `keep_raw` is set: then its stored bytes
/// take the place of the decoded ones.
pub fn extract_files(
    meta: &ArchiveMetadata,
    payload: &[u8],
    registry: &CodecRegistry,
    keep_raw: bool,
) -> (r: Result<Unpacked, DzipError>)
    requires
        meta@.references_valid(),
        meta@.stored_total() <= payload@.len(),
    ensures
        match r {
            Ok(unpacked) => unpack_spec(meta@, payload@, registry@, keep_raw) == Ok::<
                UnpackedModel,
                ErrorKind,
            >(unpacked@),
            Err(e) => unpack_spec(meta@, payload@, registry@, keep_raw) == Err::<
                UnpackedModel,
                ErrorKind,
            >(e@),
        },
{
    let table = ChunkTable::build(&meta.raw_chunks, payload.len());
    let mut files: Vec<UnpackedFile> = Vec::new();
    let mut entries: Vec<FileEntry> = Vec::new();
    let ghost total = meta@.map_entries.len() as int;
    proof {
        assert(files.deep_view() =~= Seq::<UnpackedFileModel>::empty());
        assert(entries.deep_view() =~= Seq::new(
            0nat,
            |k: int| derived_entry(meta@, meta@.map_entries[k]),
        ));
    }
    let mut i: usize = 0;
    while i < meta.map_entries.len()
        invariant
            i <= meta.map_entries@.len(),
            total == meta@.map_entries.len(),
            meta@.references_valid(),
            table.describes(meta.raw_chunks@, payload@.len() as int),
            unpacked_files(meta@, payload@, registry@, keep_raw, i as int) == Ok::<
                Seq<UnpackedFileModel>,
                ErrorKind,
            >(files.deep_view()),
            entries.deep_view() == Seq::new(
                i as nat,
                |k: int| derived_entry(meta@, meta@.map_entries[k]),
            ),
        decreases meta.map_entries@.len() - i,
    {
        let entry = &meta.map_entries[i];
        let ghost model = meta@.map_entries[i as int];
        assert(model == entry@);
        assert(model.references_valid(meta@));
        let ghost files_before = files.deep_view();
        let ghost entries_before = entries.deep_view();
        match extract_entry(meta, &table, payload, registry, keep_raw, entry) {
            Ok((file, derived)) => {
                let ghost file_model = file@;
                let ghost derived_model = derived@;
                files.push(file);
                entries.push(derived);
                proof {
                    assert(files.deep_view() =~= files_before.push(file_model));
                    assert(entries.deep_view() =~= entries_before.push(derived_model));
                    assert(entries.deep_view() =~= Seq::new(
                        (i + 1) as nat,
                        |k: int| derived_entry(meta@, meta@.map_entries[k]),
                    ));
                }
            },
            Err(e) => {
                proof {
                    lemma_unpacked_files_fails(
                        meta@,
                        payload@,
                        registry@,
                        keep_raw,
                        i as int + 1,
                        total,
                    );
                }
                return Err(e);
            },
        }
        i += 1;
    }
    let config = Config { files: entries };
    Ok(Unpacked { files, config })
}

/// Unpacks the bytes of an archive: loads the header, checks it, and
/// reassembles every file. Fails with `CorruptArchive` where the header
/// does not parse or does not pass the check, and with `CodecError` where a
/// chunk does not decode and `keep_raw` is not set.
pub fn unpack_archive(bytes: &[u8], registry: &CodecRegistry, keep_raw: bool) -> (r: Result<
    Unpacked,
    DzipError,
>)
    ensures
        match r {
            Ok(unpacked) => unpack_archive_spec(bytes@, registry@, keep_raw) == Ok::<
                UnpackedModel,
                ErrorKind,
            >(unpacked@),
            Err(e) => unpack_archive_spec(bytes@, registry@, keep_raw) == Err::<
                UnpackedModel,
                ErrorKind,
            >(e@),
        },
{
    let (meta, payload_start) = parse_metadata(bytes)?;
    let payload = slice_subrange(bytes, payload_start, bytes.len());
    meta.validate(payload.len())?;
    extract_files(&meta, payload, registry, keep_raw)
}

/// Hands the unpacked files to a sink, in order: for each file, its
/// directory is created and its content is appended to its path. A failure
/// of the sink comes back as `IoContext`, with the path it concerns, and
/// ends the writing: the sink took the requests before it and no other.
pub fn write_files<K: UnpackSink>(sink: &mut Recorded<K>, files: &Vec<UnpackedFile>) -> (r: Result<
    (),
    DzipError,
>)
    ensures
        match r {
            Ok(_) => final(sink).taken() == old(sink).taken() + sink_events(
                files.deep_view(),
                files@.len() as int,
            ),
            Err(e) => exists|i: int|
                0 <= i < files@.len() && #[trigger] stopped_at(
                    old(sink).taken(),
                    final(sink).taken(),
                    files.deep_view(),
                    i,
                    e@,
                ),
        },
{
    let ghost all = files.deep_view();
    let ghost before = sink.taken();
    let mut i: usize = 0;
    proof {
        assert(sink.taken() =~= before + sink_events(all, 0));
    }
    while i < files.len()
        invariant
            i <= files@.len(),
            all == files.deep_view(),
            before == old(sink).taken(),
            sink.taken() == before + sink_events(all, i as int),
        decreases files@.len() - i,
    {
        let file = &files[i];
        assert(all[i as int] == file@);
        match sink.create_directory(file.directory.as_str()) {
            Ok(_) => {},
            Err(failure) => {
                let e = DzipError::IoContext(file.directory.clone(), failure.cause);
                assert(stopped_at(before, sink.taken(), all, i as int, e@));
                return Err(e);
            },
        }
        match sink.write_append(file.path.as_str(), file.data.as_slice()) {
            Ok(_) => {},
            Err(failure) => {
                let e = DzipError::IoContext(file.path.clone(), failure.cause);
                assert(stopped_at(before, sink.taken(), all, i as int, e@));
                return Err(e);
            },
        }
        proof {
            assert(sink.taken() =~= before + sink_events(all, i as int + 1));
        }
        i += 1;
    }
    Ok(())
}

/// The requests that a sink takes for the first `n` files: for each file,
/// in order, to create its directory and to append its content to its
/// path.
pub open spec fn sink_events(files: Seq<UnpackedFileModel>, n: int) -> Seq<SinkEvent>
    decreases n,
{
    if n <= 0 {
        Seq::empty()
    } else {
        sink_events(files, n - 1).push(SinkEvent::Directory(files[n - 1].directory)).push(
            SinkEvent::Append(files[n - 1].path, files[n - 1].data),
        )
    }
}

/// Whether writing stopped at file `i` with the error `error`: the sink
/// took the requests of the files before it, and then either failed to
/// create the directory of the file, which the error names, or took that
/// request and failed to append to the path of the file, which the error
/// names.
pub open spec fn stopped_at(
    before: Seq<SinkEvent>,
    after: Seq<SinkEvent>,
    files: Seq<UnpackedFileModel>,
    i: int,
    error: ErrorKind,
) -> bool {
    ||| {
        &&& after == before + sink_events(files, i)
        &&& error == (ErrorKind::IoContext { path: files[i].directory })
    }
    ||| {
        &&& after == (before + sink_events(files, i)).push(
            SinkEvent::Directory(files[i].directory),
        )
        &&& error == (ErrorKind::IoContext { path: files[i].path })
    }
}

/// Unpacks the archive of a source into a sink, with the codecs of
/// `registry`: reads the archive, unpacks it, and hands every file to the
/// sink. Nothing is handed to the sink unless the whole archive unpacks.
/// What the source hands over decides: the result is that of
/// `unpack_archive` on the bytes it gave, or `IoContext` where a
/// collaborator fails. With `keep_raw` set, no codec error comes back.
pub fn unpack_to_sink<K: UnpackSink>(
    source: &dyn UnpackSource,
    sink: &mut Recorded<K>,
    registry: &CodecRegistry,
    keep_raw: bool,
) -> (r: Result<Unpacked, DzipError>)
    ensures
        match r {
            Ok(unpacked) => {
                &&& exists|bytes: Seq<u8>| #[trigger]
                    unpack_archive_spec(bytes, registry@, keep_raw) == Ok::<
                        UnpackedModel,
                        ErrorKind,
                    >(unpacked@)
                &&& final(sink).taken() == old(sink).taken() + sink_events(
                    unpacked@.files,
                    unpacked@.files.len() as int,
                )
            },
            Err(e) => e@ is IoContext || (final(sink).taken() == old(sink).taken() && (e@
                is CorruptArchive || (e@ is CodecError && !keep_raw))),
        },
{
    let bytes = read_archive(source)?;
    let unpacked = match unpack_archive(bytes.as_slice(), registry, keep_raw) {
        Ok(unpacked) => unpacked,
        Err(e) => {
            proof {
                lemma_unpack_archive_errors(bytes@, registry@, keep_raw);
            }
            return Err(e);
        },
    };
    match write_files(sink, &unpacked.files) {
        Ok(_) => Ok(unpacked),
        Err(e) => Err(e),
    }
}

/// Unpacks the archive of a source into a sink, with the default codecs,
/// and returns the config document that the archive can be packed from
/// again.
pub fn do_unpack<K: UnpackSink>(
    source: &dyn UnpackSource,
    sink: &mut Recorded<K>,
    keep_raw: bool,
) -> (r: Result<Config, DzipError>)
    ensures
        match r {
            Ok(config) => exists|bytes: Seq<u8>| #[trigger]
                unpack_archive_spec(bytes, default_codecs(), keep_raw) matches Ok(unpacked)
                    && unpacked.config == config@ && final(sink).taken() == old(sink).taken()
                    + sink_events(unpacked.files, unpacked.files.len() as int),
            Err(e) => e@ is IoContext || (final(sink).taken() == old(sink).taken() && (e@
                is CorruptArchive || (e@ is CodecError && !keep_raw))),
        },
{
    let registry = create_default_registry();
    let unpacked = unpack_to_sink(source, sink, &registry, keep_raw)?;
    Ok(unpacked.config)
}

/// Unpacking fails with `CorruptArchive` or with a codec error, and with a
/// codec error only without raw retention.
pub proof fn lemma_unpack_archive_errors(
    bytes: Seq<u8>,
    registry: Map<u16, CodecKind>,
    keep_raw: bool,
)
    ensures
        unpack_archive_spec(bytes, registry, keep_raw) matches Err(e) ==> e is CorruptArchive || (e
            is CodecError && !keep_raw),
{
    match parse_header(bytes) {
        Some((archive, payload_start)) => {
            let payload = bytes.subrange(payload_start, bytes.len() as int);
            lemma_unpacked_files_errors(
                archive,
                payload,
                registry,
                keep_raw,
                archive.map_entries.len() as int,
            );
        },
        None => {},
    }
}

/// Assembling fails only without raw retention.
pub proof fn lemma_assemble_errors(
    archive: ArchiveModel,
    payload: Seq<u8>,
    registry: Map<u16, CodecKind>,
    keep_raw: bool,
    ids: Seq<u16>,
)
    ensures
        assemble(archive, payload, registry, keep_raw, ids) is Err ==> !keep_raw,
    decreases ids.len(),
{
    if ids.len() > 0 {
        lemma_assemble_errors(archive, payload, registry, keep_raw, ids.drop_last());
    }
}

/// Unpacking a loaded archive fails with codec errors only, and only
/// without raw retention.
pub proof fn lemma_unpacked_files_errors(
    archive: ArchiveModel,
    payload: Seq<u8>,
    registry: Map<u16, CodecKind>,
    keep_raw: bool,
    n: int,
)
    ensures
        unpacked_files(archive, payload, registry, keep_raw, n) matches Err(e) ==> e is CodecError
            && !keep_raw,
    decreases n,
{
    if n > 0 {
        lemma_unpacked_files_errors(archive, payload, registry, keep_raw, n - 1);
        lemma_assemble_errors(
            archive,
            payload,
            registry,
            keep_raw,
            archive.map_entries[n - 1].chunk_ids,
        );
    }
}

} // verus!
