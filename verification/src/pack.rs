//! The pack engine: builds the tables of an archive from a config document
//! and the contents of its files, storing identical chunks once.

use crate::bytes::{bytes_eq, put_bytes};
use crate::codec::{
    create_default_registry, default_codecs, registry_encode, CodecKind, CodecRegistry,
};
use crate::error::{DzipError, ErrorKind};
use crate::format::FORMAT_VERSION;
use crate::io::{PackSink, PackSource, Recorded, SinkEvent};
use crate::model::{
    name_encodable, ArchiveMetadata, ArchiveModel, Config, FileEntryModel, MapEntry, MapEntryModel,
    RawChunk,
};
use crate::text::{file_name_of, is_encodable_name, resolve_file_name, str_eq};
use crate::utils::{encode_flags, encode_spec};
use crate::writer::header_bytes;
use vstd::prelude::*;
use vstd::slice::slice_subrange;

verus! {

/// Most chunks that an archive can hold: one for each 16-bit identifier.
pub const MAX_CHUNKS: usize = 65536;

/// First position at or behind `from` at which `item` stands in `table`.
pub open spec fn first_index<A>(table: Seq<A>, item: A, from: int) -> Option<int>
    decreases table.len() - from,
{
    if from < 0 || from >= table.len() {
        None
    } else if table[from] == item {
        Some(from)
    } else {
        first_index(table, item, from + 1)
    }
}

/// The table with `item` in it: the table itself where it holds the item,
/// the table with the item at its end where it does not.
pub open spec fn interned<A>(table: Seq<A>, item: A) -> Seq<A> {
    match first_index(table, item, 0) {
        Some(_) => table,
        None => table.push(item),
    }
}

/// Position of `item` in `interned(table, item)`.
pub open spec fn interned_at<A>(table: Seq<A>, item: A) -> int {
    match first_index(table, item, 0) {
        Some(at) => at,
        None => table.len() as int,
    }
}

/// What identifies the content of a chunk: its bytes and its flags.
pub struct ChunkKey {
    pub content: Seq<u8>,
    pub flags: u16,
}

/// The tables of an archive while it is packed.
pub struct PackState {
    pub directories: Seq<Seq<char>>,
    pub user_files: Seq<Seq<char>>,
    /// Content and flags of each chunk, in the order of the chunk table.
    pub keys: Seq<ChunkKey>,
    /// Stored bytes of each chunk, in the order of the chunk table.
    pub stored: Seq<Seq<u8>>,
    pub entries: Seq<MapEntryModel>,
}

/// The chunk table while the content of one file is chunked, with the
/// identifiers of the chunks of the file so far.
pub struct ChunkRun {
    pub keys: Seq<ChunkKey>,
    pub stored: Seq<Seq<u8>>,
    pub ids: Seq<u16>,
}

/// The state before any file is packed.
pub open spec fn empty_state() -> PackState {
    PackState {
        directories: Seq::empty(),
        user_files: Seq::empty(),
        keys: Seq::empty(),
        stored: Seq::empty(),
        entries: Seq::empty(),
    }
}

/// The blocks that the content of a file is split into: blocks of `size`
/// bytes, the last one holding what is left; the whole content as one block
/// where `size` is zero or the content is no longer than `size`. An empty
/// file is one empty block.
pub open spec fn blocks(content: Seq<u8>, size: nat) -> Seq<Seq<u8>>
    decreases content.len(),
{
    if size == 0 || content.len() <= size {
        seq![content]
    } else {
        seq![content.take(size as int)] + blocks(content.skip(size as int), size)
    }
}

/// The run after one more block: the block becomes a chunk of the file,
/// stored only where no chunk with the same content and flags is there
/// yet. `Generic` where the file has as many chunks as a 32-bit count
/// holds, the block or its stored bytes exceed 32 bits of length, or the
/// chunk table is full; `CodecError`, with the path of the file and the
/// identifier the chunk would have had, where the codec that the flags
/// select is not bound or cannot store the block.
pub open spec fn pack_block(
    registry: Map<u16, CodecKind>,
    run: ChunkRun,
    path: Seq<char>,
    flags: u16,
    block: Seq<u8>,
) -> Result<ChunkRun, ErrorKind> {
    let key = ChunkKey { content: block, flags };
    if run.ids.len() >= u32::MAX || block.len() > u32::MAX {
        Err(ErrorKind::Generic)
    } else {
        match first_index(run.keys, key, 0) {
            Some(at) => Ok(ChunkRun { ids: run.ids.push(at as u16), ..run }),
            None => if run.keys.len() >= MAX_CHUNKS {
                Err(ErrorKind::Generic)
            } else {
                match registry_encode(registry, flags, block) {
                    None => Err(
                        ErrorKind::CodecError { file: path, chunk_id: run.keys.len() as u16 },
                    ),
                    Some(stored) => if stored.len() > u32::MAX {
                        Err(ErrorKind::Generic)
                    } else {
                        Ok(
                            ChunkRun {
                                keys: run.keys.push(key),
                                stored: run.stored.push(stored),
                                ids: run.ids.push(run.keys.len() as u16),
                            },
                        )
                    },
                }
            },
        }
    }
}

/// The run after the first `n` blocks, or the error of the first block
/// that fails.
pub open spec fn pack_blocks(
    registry: Map<u16, CodecKind>,
    start: ChunkRun,
    path: Seq<char>,
    flags: u16,
    blocks: Seq<Seq<u8>>,
    n: int,
) -> Result<ChunkRun, ErrorKind>
    decreases n,
{
    if n <= 0 {
        Ok(start)
    } else {
        match pack_blocks(registry, start, path, flags, blocks, n - 1) {
            Err(e) => Err(e),
            Ok(run) => pack_block(registry, run, path, flags, blocks[n - 1]),
        }
    }
}

/// The run that the chunking of a file starts with.
pub open spec fn run_of(state: PackState) -> ChunkRun {
    ChunkRun { keys: state.keys, stored: state.stored, ids: Seq::empty() }
}

/// The state after one more file: its content is split into blocks and
/// each block becomes a chunk, its directory and filename are interned, and
/// a map entry that refers to all of them is added. `Generic` where the
/// filename cannot be resolved or a name holds a zero byte; else the error
/// of the first block that fails.
pub open spec fn pack_step(
    registry: Map<u16, CodecKind>,
    state: PackState,
    entry: FileEntryModel,
    content: Seq<u8>,
) -> Result<PackState, ErrorKind> {
    match file_name_of(entry.path, entry.directory) {
        None => Err(ErrorKind::Generic),
        Some(name) => {
            if !name_encodable(entry.directory) || !name_encodable(name) {
                Err(ErrorKind::Generic)
            } else {
                let all = blocks(content, entry.chunk_size as nat);
                match pack_blocks(
                    registry,
                    run_of(state),
                    entry.path,
                    encode_spec(entry.flags),
                    all,
                    all.len() as int,
                ) {
                    Err(e) => Err(e),
                    Ok(run) => Ok(
                        PackState {
                            directories: interned(state.directories, entry.directory),
                            user_files: interned(state.user_files, name),
                            keys: run.keys,
                            stored: run.stored,
                            entries: state.entries.push(
                                MapEntryModel {
                                    file_id: interned_at(state.user_files, name) as u32,
                                    dir_idx: interned_at(state.directories, entry.directory) as u32,
                                    chunk_ids: run.ids,
                                },
                            ),
                        },
                    ),
                }
            }
        },
    }
}

/// The state after the first `n` files of the config, or the error of the
/// first file that fails.
pub open spec fn pack_state(
    registry: Map<u16, CodecKind>,
    config: Seq<FileEntryModel>,
    contents: Seq<Seq<u8>>,
    n: int,
) -> Result<PackState, ErrorKind>
    decreases n,
{
    if n <= 0 {
        Ok(empty_state())
    } else {
        match pack_state(registry, config, contents, n - 1) {
            Err(e) => Err(e),
            Ok(state) => pack_step(registry, state, config[n - 1], contents[n - 1]),
        }
    }
}

/// The record of the chunk at position `k`: its position is its
/// identifier.
pub open spec fn packed_chunk(keys: Seq<ChunkKey>, stored: Seq<Seq<u8>>, k: int) -> RawChunk {
    RawChunk {
        id: k as u16,
        decoded_length: keys[k].content.len() as u32,
        flags: keys[k].flags,
        stored_length: stored[k].len() as u32,
    }
}

/// The chunk table of chunks with the given contents and stored bytes.
pub open spec fn packed_chunks(keys: Seq<ChunkKey>, stored: Seq<Seq<u8>>) -> Seq<RawChunk> {
    Seq::new(keys.len(), |k: int| packed_chunk(keys, stored, k))
}

/// The header that a state is written as.
pub open spec fn packed_header(state: PackState) -> ArchiveModel {
    ArchiveModel {
        version: FORMAT_VERSION,
        directories: state.directories,
        user_files: state.user_files,
        raw_chunks: packed_chunks(state.keys, state.stored),
        map_entries: state.entries,
    }
}

/// The stored bytes of the first `n` chunks, one after the other.
pub open spec fn packed_payload(stored: Seq<Seq<u8>>, n: int) -> Seq<u8>
    decreases n,
{
    if n <= 0 {
        Seq::empty()
    } else {
        packed_payload(stored, n - 1) + stored[n - 1]
    }
}

/// The bytes of the archive that packing gives: the header of the final
/// state, then the stored bytes of its chunks. `Generic` where the config
/// and the contents differ in length or there are more files than a 32-bit
/// count holds; else the error of the first file that fails.
pub open spec fn pack_spec(
    registry: Map<u16, CodecKind>,
    config: Seq<FileEntryModel>,
    contents: Seq<Seq<u8>>,
) -> Result<Seq<u8>, ErrorKind> {
    if config.len() != contents.len() || config.len() > u32::MAX {
        Err(ErrorKind::Generic)
    } else {
        match pack_state(registry, config, contents, config.len() as int) {
            Err(e) => Err(e),
            Ok(state) => Ok(
                header_bytes(packed_header(state)) + packed_payload(
                    state.stored,
                    state.stored.len() as int,
                ),
            ),
        }
    }
}

/// Once a file fails, packing more files fails with the same error.
pub proof fn lemma_pack_state_fails(
    registry: Map<u16, CodecKind>,
    config: Seq<FileEntryModel>,
    contents: Seq<Seq<u8>>,
    failed: int,
    n: int,
)
    requires
        failed <= n,
        pack_state(registry, config, contents, failed) is Err,
    ensures
        pack_state(registry, config, contents, n) == pack_state(registry, config, contents, failed),
    decreases n - failed,
{
    if failed < n {
        lemma_pack_state_fails(registry, config, contents, failed, n - 1);
    }
}

/// Once a block fails, chunking more blocks fails with the same error.
pub proof fn lemma_pack_blocks_fails(
    registry: Map<u16, CodecKind>,
    start: ChunkRun,
    path: Seq<char>,
    flags: u16,
    blocks: Seq<Seq<u8>>,
    failed: int,
    n: int,
)
    requires
        failed <= n,
        pack_blocks(registry, start, path, flags, blocks, failed) is Err,
    ensures
        pack_blocks(registry, start, path, flags, blocks, n) == pack_blocks(
            registry,
            start,
            path,
            flags,
            blocks,
            failed,
        ),
    decreases n - failed,
{
    if failed < n {
        lemma_pack_blocks_fails(registry, start, path, flags, blocks, failed, n - 1);
    }
}

/// One step of the fingerprint of a chunk.
pub open spec fn fingerprint_step(hash: u64, byte: u8) -> u64 {
    (((hash ^ (byte as u64)) as int * 0x100000001b3) % 0x1_0000_0000_0000_0000) as u64
}

/// The fingerprint of the first `n` bytes of a chunk. Chunks with different
/// fingerprints differ; chunks with the same fingerprint are compared byte
/// by byte.
pub open spec fn fingerprint_upto(data: Seq<u8>, n: int) -> u64
    decreases n,
{
    if n <= 0 {
        0xcbf29ce484222325
    } else {
        fingerprint_step(fingerprint_upto(data, n - 1), data[n - 1])
    }
}

/// The fingerprint of a chunk.
pub open spec fn fingerprint_of(data: Seq<u8>) -> u64 {
    fingerprint_upto(data, data.len() as int)
}

/// Computes the fingerprint of a chunk.
pub fn fingerprint(data: &[u8]) -> (hash: u64)
    ensures
        hash == fingerprint_of(data@),
{
    let mut hash: u64 = 0xcbf29ce484222325;
    let mut i: usize = 0;
    while i < data.len()
        invariant
            i <= data@.len(),
            hash == fingerprint_upto(data@, i as int),
        decreases data@.len() - i,
    {
        let mixed = (hash ^ (data[i] as u64)) as u128;
        hash = ((mixed * 0x100000001b3u128) % 0x1_0000_0000_0000_0000u128) as u64;
        i += 1;
    }
    hash
}

/// Finds `name` in `table`, or adds it at the end. Returns its position.
fn intern_name(table: &mut Vec<String>, name: &str) -> (at: usize)
    ensures
        final(table).deep_view() == interned(old(table).deep_view(), name@),
        at == interned_at(old(table).deep_view(), name@),
        at < final(table)@.len(),
        final(table)@.len() <= old(table)@.len() + 1,
{
    let ghost names = table.deep_view();
    let mut i: usize = 0;
    while i < table.len()
        invariant
            i <= table@.len(),
            table == old(table),
            names == table.deep_view(),
            first_index(names, name@, 0) == first_index(names, name@, i as int),
        decreases table@.len() - i,
    {
        assert(names[i as int] == table@[i as int]@);
        if str_eq(table[i].as_str(), name) {
            return i;
        }
        i += 1;
    }
    table.push(name.to_owned());
    proof {
        assert(table.deep_view() =~= names.push(name@));
    }
    i
}

/// Where the content of a chunk stands: a window of the content of a file.
struct BlockRef {
    file: usize,
    start: usize,
    end: usize,
}

/// The chunks packed so far, with what it takes to find a chunk again.
struct PackedChunks {
    /// The chunk table.
    records: Vec<RawChunk>,
    /// For each chunk, where its content stands.
    sources: Vec<BlockRef>,
    /// For each chunk, the fingerprint of its content.
    fingerprints: Vec<u64>,
    /// The stored bytes of all chunks, one after the other.
    payload: Vec<u8>,
}

impl PackedChunks {
    /// The content of chunk `k` stands where its source says.
    spec fn source_holds(&self, keys: Seq<ChunkKey>, contents: Seq<Seq<u8>>, k: int) -> bool {
        let source = self.sources@[k];
        &&& source.file < contents.len()
        &&& source.start <= source.end <= contents[source.file as int].len()
        &&& contents[source.file as int].subrange(source.start as int, source.end as int)
            == keys[k].content
    }

    /// The tables stand for chunks with the given contents and stored
    /// bytes, whose contents are among `contents`.
    spec fn stands_for(
        &self,
        keys: Seq<ChunkKey>,
        stored: Seq<Seq<u8>>,
        contents: Seq<Seq<u8>>,
    ) -> bool {
        &&& keys.len() == stored.len()
        &&& keys.len() <= MAX_CHUNKS
        &&& self.records@ == packed_chunks(keys, stored)
        &&& self.sources@.len() == keys.len()
        &&& self.fingerprints@.len() == keys.len()
        &&& forall|k: int| 0 <= k < keys.len() ==> #[trigger] self.source_holds(keys, contents, k)
        &&& forall|k: int|
            0 <= k < keys.len() ==> #[trigger] self.fingerprints@[k] == fingerprint_of(
                keys[k].content,
            )
        &&& self.payload@ == packed_payload(stored, stored.len() as int)
    }

    /// Finds the chunk with the given content and flags.
    fn find(
        &self,
        contents: &Vec<Vec<u8>>,
        block: &[u8],
        flags: u16,
        hash: u64,
        Ghost(keys): Ghost<Seq<ChunkKey>>,
        Ghost(stored): Ghost<Seq<Seq<u8>>>,
    ) -> (r: Option<usize>)
        requires
            self.stands_for(keys, stored, contents.deep_view()),
            hash == fingerprint_of(block@),
        ensures
            match r {
                Some(k) => first_index(keys, ChunkKey { content: block@, flags }, 0) == Some(
                    k as int,
                ) && k < keys.len(),
                None => first_index(keys, ChunkKey { content: block@, flags }, 0) is None,
            },
    {
        let ghost key = ChunkKey { content: block@, flags };
        let mut k: usize = 0;
        while k < self.records.len()
            invariant
                k <= keys.len(),
                self.stands_for(keys, stored, contents.deep_view()),
                hash == fingerprint_of(block@),
                key == (ChunkKey { content: block@, flags }),
                first_index(keys, key, 0) == first_index(keys, key, k as int),
            decreases keys.len() - k,
        {
            assert(self.records@[k as int] == packed_chunk(keys, stored, k as int));
            assert(self.source_holds(keys, contents.deep_view(), k as int));
            let source = &self.sources[k];
            assert(contents.deep_view()[source.file as int] == contents@[source.file as int]@);
            if self.records[k].flags == flags && self.fingerprints[k] == hash {
                let held = slice_subrange(
                    contents[source.file].as_slice(),
                    source.start,
                    source.end,
                );
                if bytes_eq(held, block) {
                    return Some(k);
                }
            }
            k += 1;
        }
        None
    }

    /// Makes the window from `start` to `end` of the content of file `file`
    /// a chunk of that file: finds the chunk with that content and those
    /// flags, or encodes the window and adds a chunk for it. Returns the
    /// identifier of the chunk.
    fn add_block(
        &mut self,
        contents: &Vec<Vec<u8>>,
        file: usize,
        start: usize,
        end: usize,
        path: &String,
        flags: u16,
        registry: &CodecRegistry,
        count: usize,
        Ghost(run): Ghost<ChunkRun>,
    ) -> (r: Result<u16, DzipError>)
        requires
            old(self).stands_for(run.keys, run.stored, contents.deep_view()),
            file < contents@.len(),
            start <= end <= contents@[file as int]@.len(),
            count == run.ids.len(),
        ensures
            match pack_block(
                registry@,
                run,
                path@,
                flags,
                contents@[file as int]@.subrange(start as int, end as int),
            ) {
                Ok(next) => r matches Ok(id) && next.ids == run.ids.push(id) && final(self).stands_for(next.keys, next.stored, contents.deep_view()),
                Err(kind) => r matches Err(e) && e@ == kind,
            },
    {
        let ghost blobs = contents.deep_view();
        assert(blobs[file as int] == contents@[file as int]@);
        let block = slice_subrange(contents[file].as_slice(), start, end);
        if count >= u32::MAX as usize || block.len() > u32::MAX as usize {
            return Err(DzipError::Generic("file does not fit the format".to_owned()));
        }
        let hash = fingerprint(block);
        let ghost key = ChunkKey { content: block@, flags };
        match self.find(contents, block, flags, hash, Ghost(run.keys), Ghost(run.stored)) {
            Some(k) => Ok(k as u16),
            None => {
                if self.records.len() >= MAX_CHUNKS {
                    return Err(DzipError::Generic("too many chunks".to_owned()));
                }
                let at = self.records.len();
                let stored = match registry.encode(flags, block) {
                    Some(stored) => stored,
                    None => {
                        return Err(
                            DzipError::CodecError { file: path.clone(), chunk_id: at as u16 },
                        );
                    },
                };
                if stored.len() > u32::MAX as usize {
                    return Err(DzipError::Generic("stored chunk is too long".to_owned()));
                }
                let ghost keys = run.keys.push(key);
                let ghost bytes = run.stored.push(stored@);
                let ghost sources_before = self.sources@;
                self.records.push(
                    RawChunk {
                        id: at as u16,
                        decoded_length: block.len() as u32,
                        flags,
                        stored_length: stored.len() as u32,
                    },
                );
                self.sources.push(BlockRef { file, start, end });
                self.fingerprints.push(hash);
                put_bytes(&mut self.payload, stored.as_slice());
                proof {
                    assert(self.records@ =~= packed_chunks(keys, bytes));
                    lemma_payload_prefix(run.stored, stored@, run.stored.len() as int);
                    assert forall|k: int| 0 <= k < keys.len() implies #[trigger] self.source_holds(
                        keys,
                        blobs,
                        k,
                    ) by {
                        if k < run.keys.len() {
                            assert(old(self).source_holds(run.keys, blobs, k));
                            assert(self.sources@[k] == sources_before[k]);
                        }
                    }
                }
                Ok(at as u16)
            },
        }
    }

    /// Splits the content of file `file` into blocks of `size` bytes and
    /// makes each block a chunk of the file. Returns the identifiers of the
    /// chunks, in the order of the content.
    fn add_file(
        &mut self,
        contents: &Vec<Vec<u8>>,
        file: usize,
        size: u32,
        path: &String,
        flags: u16,
        registry: &CodecRegistry,
        Ghost(start): Ghost<ChunkRun>,
    ) -> (r: Result<Vec<u16>, DzipError>)
        requires
            old(self).stands_for(start.keys, start.stored, contents.deep_view()),
            file < contents@.len(),
            start.ids.len() == 0,
        ensures
            match pack_blocks(
                registry@,
                start,
                path@,
                flags,
                blocks(contents@[file as int]@, size as nat),
                blocks(contents@[file as int]@, size as nat).len() as int,
            ) {
                Ok(run) => r matches Ok(ids) && ids@ == run.ids && final(self).stands_for(
                    run.keys,
                    run.stored,
                    contents.deep_view(),
                ),
                Err(kind) => r matches Err(e) && e@ == kind,
            },
    {
        let ghost content = contents@[file as int]@;
        let ghost all = blocks(content, size as nat);
        let ghost mut run = start;
        let len = contents[file].len();
        let limit = size as usize;
        let mut ids: Vec<u16> = Vec::new();
        let mut at: usize = 0;
        let mut done = false;
        proof {
            assert(all.take(0) =~= Seq::<Seq<u8>>::empty());
            assert(content.skip(0) =~= content);
            assert(all =~= all.take(0) + blocks(content.skip(0), size as nat));
        }
        while !done
            invariant
                file < contents@.len(),
                content == contents@[file as int]@,
                len == content.len(),
                limit == size,
                all == blocks(content, size as nat),
                at <= len,
                self.stands_for(run.keys, run.stored, contents.deep_view()),
                run.ids == ids@,
                ids@.len() <= all.len(),
                pack_blocks(registry@, start, path@, flags, all, ids@.len() as int) == Ok::<
                    ChunkRun,
                    ErrorKind,
                >(run),
                !done ==> all == all.take(ids@.len() as int) + blocks(
                    content.skip(at as int),
                    size as nat,
                ),
                done ==> ids@.len() == all.len(),
            decreases len - at + if done { 0int } else { 1int },
        {
            let last = limit == 0 || len - at <= limit;
            let end = if last {
                len
            } else {
                at + limit
            };
            let ghost done_blocks = all.take(ids@.len() as int);
            let ghost rest = content.skip(at as int);
            let ghost block = content.subrange(at as int, end as int);
            proof {
                if last {
                    assert(rest =~= block);
                    assert(all =~= done_blocks.push(block));
                } else {
                    assert(rest.take(size as int) =~= block);
                    assert(rest.skip(size as int) =~= content.skip(end as int));
                    assert(all =~= done_blocks.push(block) + blocks(
                        content.skip(end as int),
                        size as nat,
                    ));
                }
                assert(all[ids@.len() as int] == block);
                assert(all.take(ids@.len() as int + 1) =~= done_blocks.push(block));
            }
            match self.add_block(
                contents,
                file,
                at,
                end,
                path,
                flags,
                registry,
                ids.len(),
                Ghost(run),
            ) {
                Ok(id) => {
                    proof {
                        run = pack_block(registry@, run, path@, flags, block)->Ok_0;
                    }
                    ids.push(id);
                },
                Err(e) => {
                    proof {
                        lemma_pack_blocks_fails(
                            registry@,
                            start,
                            path@,
                            flags,
                            all,
                            ids@.len() as int + 1,
                            all.len() as int,
                        );
                    }
                    return Err(e);
                },
            }
            if last {
                done = true;
            } else {
                at = end;
            }
        }
        Ok(ids)
    }
}

/// Packs the files of a config document into the bytes of an archive.
/// `contents` holds the content of each file, in the order of the config.
/// The content of a file is split into blocks of the file's chunk size,
/// and each block becomes a chunk; blocks with the same content and the
/// same flags share one chunk, within a file and between files. The result
/// is exactly `pack_spec`: the archive, or the error of the first file that
/// fails.
pub fn pack_files(config: &Config, contents: &Vec<Vec<u8>>, registry: &CodecRegistry) -> (r: Result<
    Vec<u8>,
    DzipError,
>)
    ensures
        match r {
            Ok(bytes) => pack_spec(registry@, config@, contents.deep_view()) == Ok::<
                Seq<u8>,
                ErrorKind,
            >(bytes@),
            Err(e) => pack_spec(registry@, config@, contents.deep_view()) == Err::<
                Seq<u8>,
                ErrorKind,
            >(e@),
        },
{
    let ghost files = config@;
    let ghost blobs = contents.deep_view();
    if config.files.len() != contents.len() || config.files.len() > u32::MAX as usize {
        return Err(DzipError::Generic("config and contents do not match".to_owned()));
    }
    let mut directories: Vec<String> = Vec::new();
    let mut user_files: Vec<String> = Vec::new();
    let mut map_entries: Vec<MapEntry> = Vec::new();
    let mut chunks = PackedChunks {
        records: Vec::new(),
        sources: Vec::new(),
        fingerprints: Vec::new(),
        payload: Vec::new(),
    };
    let ghost mut state = empty_state();
    proof {
        assert(directories.deep_view() =~= state.directories);
        assert(user_files.deep_view() =~= state.user_files);
        assert(map_entries.deep_view() =~= state.entries);
        assert(chunks.records@ =~= packed_chunks(state.keys, state.stored));
    }
    let mut i: usize = 0;
    while i < config.files.len()
        invariant
            i <= files.len(),
            files == config@,
            blobs == contents.deep_view(),
            files.len() == blobs.len(),
            files.len() == contents@.len(),
            files.len() <= u32::MAX,
            pack_state(registry@, files, blobs, i as int) == Ok::<PackState, ErrorKind>(state),
            directories.deep_view() == state.directories,
            user_files.deep_view() == state.user_files,
            map_entries.deep_view() == state.entries,
            directories@.len() <= i,
            user_files@.len() <= i,
            chunks.stands_for(state.keys, state.stored, blobs),
        decreases files.len() - i,
    {
        let entry = &config.files[i];
        let ghost model = files[i as int];
        assert(model == entry@);
        assert(blobs[i as int] == contents@[i as int]@);
        let ghost step = pack_step(registry@, state, model, blobs[i as int]);
        proof {
            if step is Err {
                lemma_pack_state_fails(registry@, files, blobs, i as int + 1, files.len() as int);
            }
        }
        let name = match resolve_file_name(entry.path.as_str(), entry.directory.as_str()) {
            Some(name) => name,
            None => {
                return Err(DzipError::Generic("filename cannot be resolved".to_owned()));
            },
        };
        if !is_encodable_name(entry.directory.as_str()) || !is_encodable_name(name.as_str()) {
            return Err(DzipError::Generic("name holds a zero byte".to_owned()));
        }
        let flags = encode_flags(entry.flags.as_slice());
        let chunk_ids = chunks.add_file(
            contents,
            i,
            entry.chunk_size,
            &entry.path,
            flags,
            registry,
            Ghost(run_of(state)),
        )?;
        let dir_at = intern_name(&mut directories, entry.directory.as_str());
        let name_at = intern_name(&mut user_files, name.as_str());
        let ghost entries_before = map_entries.deep_view();
        let map_entry = MapEntry { file_id: name_at as u32, dir_idx: dir_at as u32, chunk_ids };
        let ghost entry_model = map_entry@;
        map_entries.push(map_entry);
        proof {
            assert(map_entries.deep_view() =~= entries_before.push(entry_model));
            state = step->Ok_0;
        }
        i += 1;
    }
    let meta = ArchiveMetadata {
        version: FORMAT_VERSION,
        directories,
        user_files,
        raw_chunks: chunks.records,
        map_entries,
    };
    assert(meta@ == packed_header(state));
    proof {
        lemma_packed_header_encodable(registry@, files, blobs, files.len() as int);
    }
    let mut out: Vec<u8> = Vec::new();
    meta.write_to(&mut out);
    put_bytes(&mut out, chunks.payload.as_slice());
    Ok(out)
}

/// Reads the content of every file of a config from a source, in the order
/// of the config. A file that cannot be read is an `IoContext` with its
/// path, and ends the reading.
pub fn read_contents(config: &Config, source: &dyn PackSource) -> (r: Result<
    Vec<Vec<u8>>,
    DzipError,
>)
    ensures
        match r {
            Ok(contents) => contents@.len() == config@.len(),
            Err(e) => exists|i: int|
                0 <= i < config@.len() && e@ == (ErrorKind::IoContext {
                    path: (#[trigger] config@[i]).path,
                }),
        },
{
    let mut contents: Vec<Vec<u8>> = Vec::new();
    let mut i: usize = 0;
    while i < config.files.len()
        invariant
            i <= config@.len(),
            contents@.len() == i,
        decreases config@.len() - i,
    {
        let entry = &config.files[i];
        assert(config@[i as int] == entry@);
        match source.read_file(entry.path.as_str()) {
            Ok(bytes) => {
                contents.push(bytes);
            },
            Err(failure) => {
                return Err(DzipError::IoContext(entry.path.clone(), failure.cause));
            },
        }
        i += 1;
    }
    Ok(contents)
}

/// Whether packing the config failed with `error` for want of a file: the
/// error is an `IoContext` with the path of a file of the config.
pub open spec fn read_failed(config: Seq<FileEntryModel>, error: ErrorKind) -> bool {
    exists|i: int|
        0 <= i < config.len() && error == (ErrorKind::IoContext {
            path: (#[trigger] config[i]).path,
        })
}

/// Whether `result` is what packing gives for some contents of the files
/// of the config, one content for each file.
pub open spec fn packs_to(
    registry: Map<u16, CodecKind>,
    config: Seq<FileEntryModel>,
    result: Result<Seq<u8>, ErrorKind>,
) -> bool {
    exists|contents: Seq<Seq<u8>>|
        contents.len() == config.len() && #[trigger] pack_spec(registry, config, contents)
            == result
}

/// Whether a sink took the complete archive `bytes` and nothing else.
pub open spec fn took_archive(before: Seq<SinkEvent>, after: Seq<SinkEvent>, bytes: Seq<u8>) -> bool {
    after == before.push(SinkEvent::Archive(bytes))
}

/// Packs the files of a config into the bytes of an archive, with the
/// codecs of `registry`: reads every file from the source and packs them.
/// What the source hands over decides: the archive is that of `pack_files`
/// on the contents it gave, one for each file of the config; a file that
/// cannot be read comes back as `IoContext` with its path. An empty config
/// packs without the source.
pub fn pack_archive(config: &Config, source: &dyn PackSource, registry: &CodecRegistry) -> (r:
    Result<Vec<u8>, DzipError>)
    ensures
        match r {
            Ok(bytes) => packs_to(registry@, config@, Ok::<Seq<u8>, ErrorKind>(bytes@)),
            Err(e) => read_failed(config@, e@) || packs_to(
                registry@,
                config@,
                Err::<Seq<u8>, ErrorKind>(e@),
            ),
        },
        config@.len() == 0 ==> r is Ok,
{
    let contents = match read_contents(config, source) {
        Ok(contents) => contents,
        Err(e) => {
            return Err(e);
        },
    };
    let ghost given = contents.deep_view();
    assert(given.len() == config@.len());
    match pack_files(config, &contents, registry) {
        Ok(bytes) => {
            assert(pack_spec(registry@, config@, given) == Ok::<Seq<u8>, ErrorKind>(bytes@));
            Ok(bytes)
        },
        Err(e) => {
            assert(pack_spec(registry@, config@, given) == Err::<Seq<u8>, ErrorKind>(e@));
            Err(e)
        },
    }
}

/// Packs the files of a config into an archive and hands it to a sink, with
/// the codecs of `registry`. On success the sink took the complete archive
/// and nothing else; on any failure it took nothing. A failure of the sink
/// comes back as `IoContext` with the name of the sink; apart from that
/// the result is that of `pack_archive`.
pub fn pack_to_sink<K: PackSink>(
    config: &Config,
    source: &dyn PackSource,
    sink: &mut Recorded<K>,
    registry: &CodecRegistry,
) -> (r: Result<(), DzipError>)
    ensures
        match r {
            Ok(_) => exists|bytes: Seq<u8>|
                packs_to(registry@, config@, Ok::<Seq<u8>, ErrorKind>(bytes)) && #[trigger] took_archive(
                    old(sink).taken(),
                    final(sink).taken(),
                    bytes,
                ),
            Err(e) => final(sink).taken() == old(sink).taken() && (e@ is IoContext || packs_to(
                registry@,
                config@,
                Err::<Seq<u8>, ErrorKind>(e@),
            )),
        },
{
    let bytes = match pack_archive(config, source, registry) {
        Ok(bytes) => bytes,
        Err(e) => {
            return Err(e);
        },
    };
    match sink.write_archive(bytes.as_slice()) {
        Ok(_) => {
            assert(took_archive(old(sink).taken(), sink.taken(), bytes@));
            Ok(())
        },
        Err(failure) => Err(DzipError::IoContext(sink.name(), failure.cause)),
    }
}

/// Packs the files of a config into an archive and hands it to a sink,
/// with the default codecs.
pub fn do_pack<K: PackSink>(config: &Config, source: &dyn PackSource, sink: &mut Recorded<K>) -> (r:
    Result<(), DzipError>)
    ensures
        match r {
            Ok(_) => exists|bytes: Seq<u8>|
                packs_to(default_codecs(), config@, Ok::<Seq<u8>, ErrorKind>(bytes))
                    && #[trigger] took_archive(old(sink).taken(), final(sink).taken(), bytes),
            Err(e) => final(sink).taken() == old(sink).taken() && (e@ is IoContext || packs_to(
                default_codecs(),
                config@,
                Err::<Seq<u8>, ErrorKind>(e@),
            )),
        },
{
    let registry = create_default_registry();
    pack_to_sink(config, source, sink, &registry)
}

/// The payload of the first `n` chunks does not change when a chunk is
/// added behind them.
proof fn lemma_payload_prefix(stored: Seq<Seq<u8>>, more: Seq<u8>, n: int)
    requires
        n <= stored.len(),
    ensures
        packed_payload(stored.push(more), n) == packed_payload(stored, n),
    decreases n,
{
    if n > 0 {
        lemma_payload_prefix(stored, more, n - 1);
    }
}

/// What holds of a state that packing reached: its tables fit the limits of
/// the format.
pub open spec fn state_fits(state: PackState, n: int) -> bool {
    &&& state.entries.len() == n
    &&& state.directories.len() <= n
    &&& state.user_files.len() <= n
    &&& state.keys.len() == state.stored.len()
    &&& state.keys.len() <= MAX_CHUNKS
    &&& forall|i: int|
        0 <= i < state.directories.len() ==> name_encodable(#[trigger] state.directories[i])
    &&& forall|i: int|
        0 <= i < state.user_files.len() ==> name_encodable(#[trigger] state.user_files[i])
    &&& forall|i: int|
        0 <= i < state.entries.len() ==> (#[trigger] state.entries[i]).chunk_ids.len() <= u32::MAX
}

/// Where `first_index` finds an item, the item stands there and nowhere
/// before; where it finds none, the item stands nowhere from `from` on.
pub proof fn lemma_first_index<A>(table: Seq<A>, item: A, from: int)
    requires
        0 <= from,
    ensures
        match first_index(table, item, from) {
            Some(at) => from <= at < table.len() && table[at] == item && forall|k: int|
                from <= k < at ==> table[k] != item,
            None => forall|k: int| from <= k < table.len() ==> table[k] != item,
        },
    decreases table.len() - from,
{
    if from < table.len() && table[from] != item {
        lemma_first_index(table, item, from + 1);
    }
}

/// Interning keeps a table free of duplicates, keeps what was in it where
/// it was, and puts the item at `interned_at`.
pub proof fn lemma_interned<A>(table: Seq<A>, item: A)
    requires
        table.no_duplicates(),
    ensures
        interned(table, item).no_duplicates(),
        table.len() <= interned(table, item).len() <= table.len() + 1,
        forall|k: int| 0 <= k < table.len() ==> interned(table, item)[k] == table[k],
        0 <= interned_at(table, item) < interned(table, item).len(),
        interned(table, item)[interned_at(table, item)] == item,
{
    lemma_first_index(table, item, 0);
}

/// The stored bytes of the chunk at position `k` are what the registry
/// encodes its content to, and both lengths fit 32 bits.
pub open spec fn chunk_encoded(
    registry: Map<u16, CodecKind>,
    keys: Seq<ChunkKey>,
    stored: Seq<Seq<u8>>,
    k: int,
) -> bool {
    &&& keys[k].content.len() <= u32::MAX
    &&& stored[k].len() <= u32::MAX
    &&& registry_encode(registry, keys[k].flags, keys[k].content) == Some(stored[k])
}

/// The chunk table holds no content twice under the same flags, and every
/// chunk is stored as the registry encodes it.
pub open spec fn chunks_consistent(
    registry: Map<u16, CodecKind>,
    keys: Seq<ChunkKey>,
    stored: Seq<Seq<u8>>,
) -> bool {
    &&& keys.len() == stored.len()
    &&& keys.len() <= MAX_CHUNKS
    &&& keys.no_duplicates()
    &&& forall|k: int| 0 <= k < keys.len() ==> #[trigger] chunk_encoded(registry, keys, stored, k)
}

/// The identifiers `ids` name, in order, chunks with the contents `blocks`
/// and the flags `flags`.
pub open spec fn ids_linked(keys: Seq<ChunkKey>, ids: Seq<u16>, blocks: Seq<Seq<u8>>, flags: u16) -> bool {
    &&& ids.len() == blocks.len()
    &&& forall|j: int|
        0 <= j < ids.len() ==> ((#[trigger] ids[j]) as int) < keys.len() && keys[ids[j] as int]
            == (ChunkKey { content: blocks[j], flags })
}

/// Chunking blocks keeps the chunk table consistent, keeps the chunks that
/// were there where they were, and links each block to a chunk with its
/// content.
pub proof fn lemma_pack_blocks(
    registry: Map<u16, CodecKind>,
    start: ChunkRun,
    path: Seq<char>,
    flags: u16,
    blocks: Seq<Seq<u8>>,
    n: int,
)
    requires
        0 <= n <= blocks.len(),
        chunks_consistent(registry, start.keys, start.stored),
        start.ids.len() == 0,
    ensures
        pack_blocks(registry, start, path, flags, blocks, n) matches Ok(run) ==> {
            &&& chunks_consistent(registry, run.keys, run.stored)
            &&& start.keys.len() <= run.keys.len()
            &&& forall|k: int|
                0 <= k < start.keys.len() ==> run.keys[k] == start.keys[k] && run.stored[k]
                    == start.stored[k]
            &&& n <= u32::MAX
            &&& ids_linked(run.keys, run.ids, blocks.take(n), flags)
        },
    decreases n,
{
    if n > 0 {
        lemma_pack_blocks(registry, start, path, flags, blocks, n - 1);
        match pack_blocks(registry, start, path, flags, blocks, n - 1) {
            Ok(before) => {
                let block = blocks[n - 1];
                let key = ChunkKey { content: block, flags };
                match pack_block(registry, before, path, flags, block) {
                    Ok(run) => {
                        lemma_first_index(before.keys, key, 0);
                        assert forall|k: int| 0 <= k < run.keys.len() implies #[trigger] chunk_encoded(
                            registry,
                            run.keys,
                            run.stored,
                            k,
                        ) by {
                            if k < before.keys.len() {
                                assert(chunk_encoded(registry, before.keys, before.stored, k));
                            }
                        }
                        let done = blocks.take(n - 1);
                        let all = blocks.take(n);
                        assert(ids_linked(before.keys, before.ids, done, flags));
                        assert forall|j: int| 0 <= j < run.ids.len() implies ((
                        #[trigger] run.ids[j]) as int) < run.keys.len() && run.keys[run.ids[j] as int]
                            == (ChunkKey { content: all[j], flags }) by {
                            if j < n - 1 {
                                assert(run.ids[j] == before.ids[j]);
                                assert(all[j] == done[j]);
                            }
                        }
                    },
                    Err(_) => {},
                }
            },
            Err(_) => {},
        }
    } else {
        assert(blocks.take(0) =~= Seq::<Seq<u8>>::empty());
    }
}

/// The map entry of a file refers to the file's name, its directory and,
/// for each block of its content, a chunk with that content and the
/// file's flags.
pub open spec fn entry_linked(
    state: PackState,
    entry: MapEntryModel,
    file: FileEntryModel,
    content: Seq<u8>,
) -> bool {
    &&& file_name_of(file.path, file.directory) is Some
    &&& (entry.file_id as int) < state.user_files.len()
    &&& state.user_files[entry.file_id as int] == file_name_of(file.path, file.directory)->0
    &&& (entry.dir_idx as int) < state.directories.len()
    &&& state.directories[entry.dir_idx as int] == file.directory
    &&& ids_linked(
        state.keys,
        entry.chunk_ids,
        blocks(content, file.chunk_size as nat),
        encode_spec(file.flags),
    )
}

/// What holds of the state after `n` files: the tables fit the format and
/// hold nothing twice, every map entry refers to what its file needs, and
/// every chunk is stored as the registry encodes it.
pub open spec fn state_consistent(
    registry: Map<u16, CodecKind>,
    config: Seq<FileEntryModel>,
    contents: Seq<Seq<u8>>,
    state: PackState,
    n: int,
) -> bool {
    &&& state_fits(state, n)
    &&& state.directories.no_duplicates()
    &&& state.user_files.no_duplicates()
    &&& chunks_consistent(registry, state.keys, state.stored)
    &&& forall|i: int|
        0 <= i < n ==> entry_linked(state, #[trigger] state.entries[i], config[i], contents[i])
}

/// Every state that packing reaches is consistent.
pub proof fn lemma_pack_state_consistent(
    registry: Map<u16, CodecKind>,
    config: Seq<FileEntryModel>,
    contents: Seq<Seq<u8>>,
    n: int,
)
    requires
        0 <= n <= u32::MAX,
    ensures
        pack_state(registry, config, contents, n) matches Ok(state) ==> state_consistent(
            registry,
            config,
            contents,
            state,
            n,
        ),
    decreases n,
{
    if n > 0 {
        lemma_pack_state_consistent(registry, config, contents, n - 1);
        match pack_state(registry, config, contents, n - 1) {
            Ok(before) => {
                let file = config[n - 1];
                let content = contents[n - 1];
                match pack_step(registry, before, file, content) {
                    Ok(state) => {
                        let name = file_name_of(file.path, file.directory)->0;
                        let flags = encode_spec(file.flags);
                        let all = blocks(content, file.chunk_size as nat);
                        lemma_interned(before.directories, file.directory);
                        lemma_interned(before.user_files, name);
                        lemma_pack_blocks(
                            registry,
                            run_of(before),
                            file.path,
                            flags,
                            all,
                            all.len() as int,
                        );
                        assert(all.take(all.len() as int) =~= all);
                        assert forall|i: int| 0 <= i < n implies entry_linked(
                            state,
                            #[trigger] state.entries[i],
                            config[i],
                            contents[i],
                        ) by {
                            if i < n - 1 {
                                assert(state.entries[i] == before.entries[i]);
                                assert(entry_linked(
                                    before,
                                    before.entries[i],
                                    config[i],
                                    contents[i],
                                ));
                            }
                        }
                        assert forall|i: int| 0 <= i < state.directories.len() implies name_encodable(
                            #[trigger] state.directories[i],
                        ) by {
                            if i < before.directories.len() {
                                assert(state.directories[i] == before.directories[i]);
                            }
                        }
                        assert forall|i: int| 0 <= i < state.user_files.len() implies name_encodable(
                            #[trigger] state.user_files[i],
                        ) by {
                            if i < before.user_files.len() {
                                assert(state.user_files[i] == before.user_files[i]);
                            }
                        }
                        assert forall|i: int| 0 <= i < state.entries.len() implies (
                        #[trigger] state.entries[i]).chunk_ids.len() <= u32::MAX by {
                            if i < before.entries.len() {
                                assert(state.entries[i] == before.entries[i]);
                            }
                        }
                    },
                    Err(_) => {},
                }
            },
            Err(_) => {},
        }
    }
}

/// Identical content is stored once: in the state that a successful pack
/// ends in, files with the same content, the same flags and the same chunk
/// size refer to the same chunks, and no two chunks of the table have the
/// same content and flags.
pub proof fn lemma_pack_stores_once(
    registry: Map<u16, CodecKind>,
    config: Seq<FileEntryModel>,
    contents: Seq<Seq<u8>>,
    i: int,
    j: int,
)
    requires
        pack_spec(registry, config, contents) is Ok,
        0 <= i < config.len(),
        0 <= j < config.len(),
        contents[i] == contents[j],
        encode_spec(config[i].flags) == encode_spec(config[j].flags),
        config[i].chunk_size == config[j].chunk_size,
    ensures
        pack_state(registry, config, contents, config.len() as int) matches Ok(state) && {
            &&& state.entries[i].chunk_ids == state.entries[j].chunk_ids
            &&& state.keys.no_duplicates()
        },
{
    let n = config.len() as int;
    lemma_pack_state_consistent(registry, config, contents, n);
    let state = pack_state(registry, config, contents, n)->Ok_0;
    assert(entry_linked(state, state.entries[i], config[i], contents[i]));
    assert(entry_linked(state, state.entries[j], config[j], contents[j]));
    let a = state.entries[i].chunk_ids;
    let b = state.entries[j].chunk_ids;
    assert forall|k: int| 0 <= k < a.len() implies a[k] == b[k] by {
        assert(state.keys[a[k] as int] == state.keys[b[k] as int]);
    }
    assert(a =~= b);
}

/// The header of a state that packing reached can be written.
proof fn lemma_packed_header_encodable(
    registry: Map<u16, CodecKind>,
    config: Seq<FileEntryModel>,
    contents: Seq<Seq<u8>>,
    n: int,
)
    requires
        0 <= n <= u32::MAX,
    ensures
        pack_state(registry, config, contents, n) matches Ok(state) ==> packed_header(
            state,
        ).encodable(),
{
    lemma_pack_state_consistent(registry, config, contents, n);
}

} // verus!
