//! Laws that relate the engines to each other: packing and unpacking are
//! inverse, a dangling chunk reference is caught by unpack and skipped by
//! list, and raw retention turns codec failures into stored bytes.

use crate::codec::{lemma_codec_roundtrip, registry_decode, CodecKind};
use crate::error::ErrorKind;
use crate::list::{
    directory_of, entry_path, files_resolvable, list_archive_spec, list_entry_of, list_spec,
    lookup_chunk, resolvable_size, ListEntryModel,
};
use crate::model::{
    chunk_ids_unique, has_chunk, stored_prefix, ArchiveModel, FileEntryModel, RawChunk,
};
use crate::pack::{
    blocks, chunk_encoded, chunks_consistent, entry_linked, ids_linked, lemma_pack_state_consistent,
    pack_spec, pack_state, packed_chunk, packed_chunks, packed_header, packed_payload,
    state_consistent, ChunkKey, PackState, MAX_CHUNKS,
};
use crate::reader::parse_header;
use crate::text::lemma_file_name_joins;
use crate::unpack::{
    assemble, chunk_index, chunk_window, decoded_chunk, derived_config, derived_entry,
    entry_chunk_size, entry_flag_names, unpack_archive_spec, unpack_spec, unpacked_file,
    unpacked_files, Assembled, UnpackedFileModel, UnpackedModel,
};
use crate::utils::{encode_spec, known_names, lemma_decode_encode};
use crate::writer::{header_bytes, lemma_parse_written_header};
use vstd::prelude::*;

verus! {

/// The file that unpacking gives for a file of the config: its path, its
/// directory and its content, with no chunk kept raw.
pub open spec fn restored_file(file: FileEntryModel, content: Seq<u8>) -> UnpackedFileModel {
    UnpackedFileModel {
        path: file.path,
        directory: file.directory,
        data: content,
        raw_chunks: Seq::empty(),
    }
}

/// The files that unpacking gives for the first `n` files of a config.
pub open spec fn restored_files(config: Seq<FileEntryModel>, contents: Seq<Seq<u8>>, n: int) -> Seq<
    UnpackedFileModel,
> {
    Seq::new(n as nat, |i: int| restored_file(config[i], contents[i]))
}

/// The config entry that unpacking derives for a file of the config: the
/// same path and directory, the flag names that the table knows, and the
/// chunk size where the file was split, zero where it was not.
pub open spec fn restored_entry(file: FileEntryModel, content: Seq<u8>) -> FileEntryModel {
    FileEntryModel {
        path: file.path,
        directory: file.directory,
        flags: known_names(file.flags),
        chunk_size: if blocks(content, file.chunk_size as nat).len() > 1 {
            file.chunk_size
        } else {
            0
        },
    }
}

/// The config that unpacking derives for a config.
pub open spec fn restored_config(config: Seq<FileEntryModel>, contents: Seq<Seq<u8>>) -> Seq<
    FileEntryModel,
> {
    Seq::new(config.len(), |i: int| restored_entry(config[i], contents[i]))
}

/// The first `n` blocks, one after the other.
pub open spec fn joined(blocks: Seq<Seq<u8>>, n: int) -> Seq<u8>
    decreases n,
{
    if n <= 0 {
        Seq::empty()
    } else {
        joined(blocks, n - 1) + blocks[n - 1]
    }
}

/// Joining blocks behind a first block gives the first block and the
/// joined blocks behind it.
proof fn lemma_joined_prepend(head: Seq<u8>, tail: Seq<Seq<u8>>, n: int)
    requires
        0 <= n <= tail.len(),
    ensures
        joined(seq![head] + tail, n + 1) == head + joined(tail, n),
    decreases n,
{
    let all = seq![head] + tail;
    if n > 0 {
        lemma_joined_prepend(head, tail, n - 1);
        assert(all[n] == tail[n - 1]);
        assert(joined(all, n + 1) == joined(all, n) + all[n]);
        assert(joined(tail, n) == joined(tail, n - 1) + tail[n - 1]);
        assert((head + joined(tail, n - 1)) + tail[n - 1] =~= head + (joined(tail, n - 1) + tail[n
            - 1]));
    } else {
        assert(all[0] == head);
        assert(joined(all, 0) == Seq::<u8>::empty());
        assert(joined(all, 1) == joined(all, 0) + all[0]);
        assert(joined(tail, 0) == Seq::<u8>::empty());
        assert(Seq::<u8>::empty() + head =~= head + Seq::<u8>::empty());
    }
}

/// A content that is cut at `size` has its first `size` bytes as first
/// block and the blocks of the rest behind it.
proof fn lemma_blocks_cut(content: Seq<u8>, size: nat)
    requires
        size != 0,
        content.len() > size,
    ensures
        blocks(content, size) == seq![content.take(size as int)] + blocks(
            content.skip(size as int),
            size,
        ),
{
}

/// The blocks of a content, joined, are the content; there is at least one
/// block, and where there are more, the first is as long as the chunk size.
pub proof fn lemma_blocks_join(content: Seq<u8>, size: nat)
    ensures
        joined(blocks(content, size), blocks(content, size).len() as int) == content,
        blocks(content, size).len() >= 1,
        blocks(content, size).len() > 1 ==> blocks(content, size)[0].len() == size,
    decreases content.len(),
{
    let all = blocks(content, size);
    if size == 0 || content.len() <= size {
        assert(all == seq![content]);
        assert(all.len() == 1);
        assert(all[0] == content);
        assert(joined(all, 0) == Seq::<u8>::empty());
        assert(joined(all, 1) == joined(all, 0) + all[0]);
        assert(Seq::<u8>::empty() + content =~= content);
    } else {
        let head = content.take(size as int);
        let rest = content.skip(size as int);
        let tail = blocks(rest, size);
        lemma_blocks_cut(content, size);
        lemma_blocks_join(rest, size);
        lemma_joined_prepend(head, tail, tail.len() as int);
        assert(all.len() == tail.len() + 1);
        assert(all[0] == head);
        assert(head + rest =~= content);
    }
}

/// The payload of the first `k` chunks is the front of the payload of the
/// first `n`.
proof fn lemma_payload_front(stored: Seq<Seq<u8>>, k: int, n: int)
    requires
        0 <= k <= n,
    ensures
        packed_payload(stored, k).len() <= packed_payload(stored, n).len(),
        packed_payload(stored, n).subrange(0, packed_payload(stored, k).len() as int)
            == packed_payload(stored, k),
    decreases n - k,
{
    if k < n {
        lemma_payload_front(stored, k, n - 1);
        let front = packed_payload(stored, k);
        let most = packed_payload(stored, n - 1);
        let all = packed_payload(stored, n);
        assert(all.subrange(0, front.len() as int) =~= most.subrange(0, front.len() as int));
    } else {
        let all = packed_payload(stored, n);
        assert(all.subrange(0, all.len() as int) =~= all);
    }
}

/// The offset of a packed chunk is the length of the payload before it.
proof fn lemma_packed_offsets(keys: Seq<ChunkKey>, stored: Seq<Seq<u8>>, k: int)
    requires
        0 <= k <= keys.len(),
        keys.len() == stored.len(),
        forall|j: int| 0 <= j < stored.len() ==> (#[trigger] stored[j]).len() <= u32::MAX,
    ensures
        stored_prefix(packed_chunks(keys, stored), k) == packed_payload(stored, k).len(),
    decreases k,
{
    if k > 0 {
        lemma_packed_offsets(keys, stored, k - 1);
        assert(packed_chunks(keys, stored)[k - 1] == packed_chunk(keys, stored, k - 1));
        assert(stored[k - 1].len() <= u32::MAX);
    }
}

/// The window of a packed chunk holds its stored bytes.
proof fn lemma_packed_window(keys: Seq<ChunkKey>, stored: Seq<Seq<u8>>, k: int)
    requires
        0 <= k < keys.len(),
        keys.len() == stored.len(),
        forall|j: int| 0 <= j < stored.len() ==> (#[trigger] stored[j]).len() <= u32::MAX,
    ensures
        chunk_window(
            packed_chunks(keys, stored),
            packed_payload(stored, stored.len() as int),
            k,
        ) == stored[k],
{
    let n = stored.len() as int;
    lemma_packed_offsets(keys, stored, k);
    lemma_packed_offsets(keys, stored, k + 1);
    lemma_payload_front(stored, k + 1, n);
    let all = packed_payload(stored, n);
    let upto = packed_payload(stored, k + 1);
    let before = packed_payload(stored, k);
    assert(upto == before + stored[k]);
    assert(all.subrange(before.len() as int, upto.len() as int) =~= upto.subrange(
        before.len() as int,
        upto.len() as int,
    ));
    assert(upto.subrange(before.len() as int, upto.len() as int) =~= stored[k]);
}

/// The identifier of a packed chunk is its position.
proof fn lemma_packed_index(keys: Seq<ChunkKey>, stored: Seq<Seq<u8>>, k: int)
    requires
        0 <= k < keys.len(),
        keys.len() <= MAX_CHUNKS,
    ensures
        chunk_index(packed_chunks(keys, stored), k as u16) == k,
        has_chunk(packed_chunks(keys, stored), k as u16),
        chunk_ids_unique(packed_chunks(keys, stored)),
{
    let chunks = packed_chunks(keys, stored);
    assert(chunks[k].id == k as u16);
}

/// The stored bytes of every chunk of a consistent table fit 32 bits.
proof fn lemma_stored_fit(registry: Map<u16, CodecKind>, keys: Seq<ChunkKey>, stored: Seq<Seq<u8>>)
    requires
        chunks_consistent(registry, keys, stored),
    ensures
        forall|j: int| 0 <= j < stored.len() ==> (#[trigger] stored[j]).len() <= u32::MAX,
{
    assert forall|j: int| 0 <= j < stored.len() implies (#[trigger] stored[j]).len()
        <= u32::MAX by {
        assert(chunk_encoded(registry, keys, stored, j));
    }
}

/// The header of a consistent state passes the check of the reader, and
/// its payload is as long as the chunk table says.
proof fn lemma_packed_header_valid(
    registry: Map<u16, CodecKind>,
    config: Seq<FileEntryModel>,
    contents: Seq<Seq<u8>>,
    state: PackState,
)
    requires
        config.len() <= u32::MAX,
        state_consistent(registry, config, contents, state, config.len() as int),
    ensures
        packed_header(state).encodable(),
        packed_header(state).references_valid(),
        packed_header(state).stored_total() == packed_payload(
            state.stored,
            state.stored.len() as int,
        ).len(),
{
    let header = packed_header(state);
    lemma_stored_fit(registry, state.keys, state.stored);
    lemma_packed_offsets(state.keys, state.stored, state.keys.len() as int);
    if state.keys.len() > 0 {
        lemma_packed_index(state.keys, state.stored, 0);
    }
    assert forall|i: int| 0 <= i < header.map_entries.len() implies (
    #[trigger] header.map_entries[i]).references_valid(header) by {
        let entry = header.map_entries[i];
        assert(entry_linked(state, state.entries[i], config[i], contents[i]));
        assert forall|j: int| 0 <= j < entry.chunk_ids.len() implies has_chunk(
            header.raw_chunks,
            #[trigger] entry.chunk_ids[j],
        ) by {
            lemma_packed_index(state.keys, state.stored, entry.chunk_ids[j] as int);
        }
    }
}

/// A chunk of a packed archive decodes to the content it was packed from,
/// and its record holds the length of that content.
proof fn lemma_packed_chunk(
    registry: Map<u16, CodecKind>,
    state: PackState,
    c: int,
)
    requires
        chunks_consistent(registry, state.keys, state.stored),
        0 <= c < state.keys.len(),
    ensures
        decoded_chunk(
            packed_header(state),
            packed_payload(state.stored, state.stored.len() as int),
            registry,
            c as u16,
        ) == Some(state.keys[c].content),
        chunk_index(packed_header(state).raw_chunks, c as u16) == c,
        lookup_chunk(packed_header(state).raw_chunks, c as u16) == Some(
            packed_header(state).raw_chunks[c],
        ),
        packed_header(state).raw_chunks[c].decoded_length == state.keys[c].content.len(),
        packed_header(state).raw_chunks[c].flags == state.keys[c].flags,
{
    let header = packed_header(state);
    let payload = packed_payload(state.stored, state.stored.len() as int);
    let content = state.keys[c].content;
    assert(chunk_encoded(registry, state.keys, state.stored, c));
    lemma_stored_fit(registry, state.keys, state.stored);
    lemma_packed_index(state.keys, state.stored, c);
    lemma_packed_window(state.keys, state.stored, c);
    let chunk = header.raw_chunks[c];
    assert(chunk == packed_chunk(state.keys, state.stored, c));
    let window = chunk_window(header.raw_chunks, payload, c);
    assert(registry_decode(registry, chunk.flags, window, chunk.decoded_length) == Some(content))
        by {
        let kind = crate::codec::codec_for(registry, chunk.flags)->0;
        lemma_codec_roundtrip(kind, content);
    }
    lemma_lookup_unique(header.raw_chunks, c);
}

/// The first `n` chunks of a file of a packed archive assemble to the
/// first `n` blocks of its content, and their sizes add up to the length of
/// those blocks.
proof fn lemma_packed_blocks(
    registry: Map<u16, CodecKind>,
    state: PackState,
    keep_raw: bool,
    ids: Seq<u16>,
    all: Seq<Seq<u8>>,
    flags: u16,
    n: int,
)
    requires
        chunks_consistent(registry, state.keys, state.stored),
        ids_linked(state.keys, ids, all, flags),
        0 <= n <= ids.len(),
    ensures
        assemble(
            packed_header(state),
            packed_payload(state.stored, state.stored.len() as int),
            registry,
            keep_raw,
            ids.take(n),
        ) == Ok::<Assembled, u16>(Assembled { data: joined(all, n), raw_chunks: Seq::empty() }),
        resolvable_size(packed_header(state).raw_chunks, ids.take(n)) == joined(all, n).len(),
    decreases n,
{
    if n > 0 {
        lemma_packed_blocks(registry, state, keep_raw, ids, all, flags, n - 1);
        lemma_packed_chunk(registry, state, ids[n - 1] as int);
        assert(ids.take(n).drop_last() =~= ids.take(n - 1));
        assert(ids.take(n).last() == ids[n - 1]);
    } else {
        assert(ids.take(0) =~= Seq::<u16>::empty());
    }
}

/// Unpacking the first `n` entries of a packed archive gives the first
/// `n` files of the config.
proof fn lemma_unpacked_packed_files(
    registry: Map<u16, CodecKind>,
    config: Seq<FileEntryModel>,
    contents: Seq<Seq<u8>>,
    state: PackState,
    keep_raw: bool,
    n: int,
)
    requires
        config.len() <= u32::MAX,
        state_consistent(registry, config, contents, state, config.len() as int),
        0 <= n <= config.len(),
    ensures
        unpacked_files(
            packed_header(state),
            packed_payload(state.stored, state.stored.len() as int),
            registry,
            keep_raw,
            n,
        ) == Ok::<Seq<UnpackedFileModel>, ErrorKind>(restored_files(config, contents, n)),
    decreases n,
{
    if n > 0 {
        lemma_unpacked_packed_files(registry, config, contents, state, keep_raw, n - 1);
        lemma_packed_entry(registry, config, contents, state, keep_raw, n - 1);
        assert(restored_files(config, contents, n - 1).push(
            restored_file(config[n - 1], contents[n - 1]),
        ) =~= restored_files(config, contents, n));
    } else {
        assert(restored_files(config, contents, 0) =~= Seq::<UnpackedFileModel>::empty());
    }
}

/// Unpacking one entry of a packed archive gives the file it was packed
/// from, the config entry derived from it names the same file, and its
/// inventory line holds the length of the file.
proof fn lemma_packed_entry(
    registry: Map<u16, CodecKind>,
    config: Seq<FileEntryModel>,
    contents: Seq<Seq<u8>>,
    state: PackState,
    keep_raw: bool,
    i: int,
)
    requires
        config.len() <= u32::MAX,
        state_consistent(registry, config, contents, state, config.len() as int),
        0 <= i < config.len(),
    ensures
        unpacked_file(
            packed_header(state),
            packed_payload(state.stored, state.stored.len() as int),
            registry,
            keep_raw,
            state.entries[i],
        ) == Ok::<UnpackedFileModel, ErrorKind>(restored_file(config[i], contents[i])),
        derived_entry(packed_header(state), state.entries[i]) == restored_entry(
            config[i],
            contents[i],
        ),
        list_entry_of(packed_header(state), state.entries[i]) == listed_file(
            config[i],
            contents[i],
        ),
        (state.entries[i].file_id as int) < state.user_files.len(),
{
    let header = packed_header(state);
    let entry = state.entries[i];
    let file = config[i];
    let content = contents[i];
    let all = blocks(content, file.chunk_size as nat);
    let flags = encode_spec(file.flags);
    let ids = entry.chunk_ids;
    assert(entry_linked(state, entry, file, content));
    lemma_blocks_join(content, file.chunk_size as nat);
    lemma_packed_blocks(registry, state, keep_raw, ids, all, flags, ids.len() as int);
    assert(ids.take(ids.len() as int) =~= ids);
    lemma_packed_chunk(registry, state, ids[0] as int);
    lemma_file_name_joins(file.path, file.directory);
    assert(directory_of(header.directories, entry.dir_idx) == file.directory);
    assert(entry_path(header, entry) == file.path);
    lemma_decode_encode(file.flags);
    assert(entry_flag_names(header, entry) == known_names(file.flags));
    assert(entry_chunk_size(header, entry) == restored_entry(file, content).chunk_size);
}

/// Packing and unpacking are inverse: unpacking a packed archive gives,
/// for each file of the config and in its order, a file with the same
/// path, directory and content, none of its chunks kept raw; and the
/// derived config lists exactly the files of the config. This holds with
/// and without raw retention.
pub proof fn lemma_pack_unpack_roundtrip(
    registry: Map<u16, CodecKind>,
    config: Seq<FileEntryModel>,
    contents: Seq<Seq<u8>>,
    keep_raw: bool,
)
    requires
        pack_spec(registry, config, contents) is Ok,
    ensures
        unpack_archive_spec(pack_spec(registry, config, contents)->Ok_0, registry, keep_raw) == Ok::<
            UnpackedModel,
            ErrorKind,
        >(
            UnpackedModel {
                files: restored_files(config, contents, config.len() as int),
                config: restored_config(config, contents),
            },
        ),
{
    let n = config.len() as int;
    lemma_pack_state_consistent(registry, config, contents, n);
    let state = pack_state(registry, config, contents, n)->Ok_0;
    let header = packed_header(state);
    let payload = packed_payload(state.stored, state.stored.len() as int);
    let bytes = header_bytes(header) + payload;
    assert(pack_spec(registry, config, contents) == Ok::<Seq<u8>, ErrorKind>(bytes));
    lemma_packed_header_valid(registry, config, contents, state);
    lemma_parse_written_header(header, payload);
    let start = header_bytes(header).len() as int;
    assert(bytes.subrange(start, bytes.len() as int) =~= payload);
    lemma_unpacked_packed_files(registry, config, contents, state, keep_raw, n);
    assert forall|i: int| 0 <= i < n implies #[trigger] derived_config(header)[i]
        == restored_config(config, contents)[i] by {
        lemma_packed_entry(registry, config, contents, state, keep_raw, i);
    }
    assert(derived_config(header) =~= restored_config(config, contents));
}

/// Where identifiers are unique, an identifier resolves to the one chunk
/// that has it.
pub proof fn lemma_lookup_unique(chunks: Seq<RawChunk>, k: int)
    requires
        chunk_ids_unique(chunks),
        0 <= k < chunks.len(),
    ensures
        lookup_chunk(chunks, chunks[k].id) == Some(chunks[k]),
    decreases chunks.len(),
{
    if k < chunks.len() - 1 {
        let init = chunks.drop_last();
        assert(chunks[chunks.len() - 1].id != chunks[k].id);
        assert forall|a: int, b: int|
            0 <= a < init.len() && 0 <= b < init.len() && a != b implies #[trigger] init[a].id
            != #[trigger] init[b].id by {
            assert(chunks[a].id != chunks[b].id);
        }
        lemma_lookup_unique(init, k);
    }
}

/// The inventory line of a file of the config: its path, the length of its
/// content, and the number of blocks of its content.
pub open spec fn listed_file(file: FileEntryModel, content: Seq<u8>) -> ListEntryModel {
    ListEntryModel {
        path: file.path,
        original_size: content.len(),
        chunk_count: blocks(content, file.chunk_size as nat).len(),
    }
}

/// Listing a packed archive gives, for each file of the config and in its
/// order, the path of the file, the length of its content, and the number
/// of its blocks.
pub proof fn lemma_pack_list(
    registry: Map<u16, CodecKind>,
    config: Seq<FileEntryModel>,
    contents: Seq<Seq<u8>>,
)
    requires
        pack_spec(registry, config, contents) is Ok,
    ensures
        list_archive_spec(pack_spec(registry, config, contents)->Ok_0) == Ok::<
            Seq<ListEntryModel>,
            ErrorKind,
        >(Seq::new(config.len(), |i: int| listed_file(config[i], contents[i]))),
{
    let n = config.len() as int;
    lemma_pack_state_consistent(registry, config, contents, n);
    let state = pack_state(registry, config, contents, n)->Ok_0;
    let header = packed_header(state);
    let payload = packed_payload(state.stored, state.stored.len() as int);
    lemma_packed_header_valid(registry, config, contents, state);
    lemma_parse_written_header(header, payload);
    let expected = Seq::new(config.len(), |i: int| listed_file(config[i], contents[i]));
    assert forall|i: int| 0 <= i < n implies (#[trigger] header.map_entries[i]).file_id
        < header.user_files.len() && list_entry_of(header, header.map_entries[i]) == expected[i] by {
        lemma_packed_entry(registry, config, contents, state, false, i);
    }
    assert(list_spec(header) =~= expected);
}

/// An identifier that no chunk has resolves to nothing.
pub proof fn lemma_lookup_missing(chunks: Seq<RawChunk>, id: u16)
    requires
        !has_chunk(chunks, id),
    ensures
        lookup_chunk(chunks, id) is None,
    decreases chunks.len(),
{
    if chunks.len() > 0 {
        assert(chunks[chunks.len() - 1].id != id);
        assert forall|k: int| 0 <= k < chunks.drop_last().len() implies (
        #[trigger] chunks.drop_last()[k]).id != id by {
            assert(chunks[k].id != id);
        }
        lemma_lookup_missing(chunks.drop_last(), id);
    }
}

/// A dangling chunk reference is a corrupt archive to unpack, with or
/// without raw retention, while list still lists the archive and leaves the
/// chunk out of the size of its file.
pub proof fn lemma_dangling_chunk(
    bytes: Seq<u8>,
    archive: ArchiveModel,
    payload_start: int,
    registry: Map<u16, CodecKind>,
    keep_raw: bool,
    i: int,
    j: int,
)
    requires
        parse_header(bytes) == Some((archive, payload_start)),
        0 <= i < archive.map_entries.len(),
        0 <= j < archive.map_entries[i].chunk_ids.len(),
        !has_chunk(archive.raw_chunks, archive.map_entries[i].chunk_ids[j]),
    ensures
        unpack_archive_spec(bytes, registry, keep_raw) == Err::<UnpackedModel, ErrorKind>(
            ErrorKind::CorruptArchive,
        ),
        files_resolvable(archive) ==> list_archive_spec(bytes) is Ok,
        lookup_chunk(archive.raw_chunks, archive.map_entries[i].chunk_ids[j]) is None,
{
    let entry = archive.map_entries[i];
    assert(!entry.references_valid(archive));
    lemma_lookup_missing(archive.raw_chunks, entry.chunk_ids[j]);
}

/// With raw retention, assembling a file never fails; each chunk adds what
/// it decodes to, or its stored bytes where it does not decode.
pub proof fn lemma_keep_raw_assembles(
    archive: ArchiveModel,
    payload: Seq<u8>,
    registry: Map<u16, CodecKind>,
    ids: Seq<u16>,
)
    ensures
        assemble(archive, payload, registry, true, ids) is Ok,
    decreases ids.len(),
{
    if ids.len() > 0 {
        lemma_keep_raw_assembles(archive, payload, registry, ids.drop_last());
    }
}

/// With raw retention, unpacking never fails with a codec error.
pub proof fn lemma_keep_raw_unpacks(
    archive: ArchiveModel,
    payload: Seq<u8>,
    registry: Map<u16, CodecKind>,
    n: int,
)
    ensures
        unpacked_files(archive, payload, registry, true, n) is Ok,
        n == archive.map_entries.len() ==> unpack_spec(archive, payload, registry, true) is Ok,
    decreases n,
{
    if n > 0 {
        lemma_keep_raw_unpacks(archive, payload, registry, n - 1);
        lemma_keep_raw_assembles(archive, payload, registry, archive.map_entries[n - 1].chunk_ids);
    }
}

/// Without raw retention, a chunk that does not decode fails the file.
pub proof fn lemma_strict_assemble_fails(
    archive: ArchiveModel,
    payload: Seq<u8>,
    registry: Map<u16, CodecKind>,
    ids: Seq<u16>,
    j: int,
)
    requires
        0 <= j < ids.len(),
        decoded_chunk(archive, payload, registry, ids[j]) is None,
    ensures
        assemble(archive, payload, registry, false, ids) is Err,
    decreases ids.len(),
{
    if j < ids.len() - 1 {
        lemma_strict_assemble_fails(archive, payload, registry, ids.drop_last(), j);
    }
}

/// Raw retention: where a chunk of a file does not decode, unpacking
/// without raw retention fails with a codec error, and unpacking with it
/// succeeds, the stored bytes of the chunk standing where its decoded bytes
/// would have stood and the chunk noted as kept raw.
pub proof fn lemma_keep_raw_fallback(
    archive: ArchiveModel,
    payload: Seq<u8>,
    registry: Map<u16, CodecKind>,
    i: int,
    j: int,
)
    requires
        0 <= i < archive.map_entries.len(),
        0 <= j < archive.map_entries[i].chunk_ids.len(),
        decoded_chunk(archive, payload, registry, archive.map_entries[i].chunk_ids[j]) is None,
    ensures
        unpack_spec(archive, payload, registry, false) matches Err(e) && e is CodecError,
        unpack_spec(archive, payload, registry, true) is Ok,
        ({
            let ids = archive.map_entries[i].chunk_ids;
            let front = assemble(archive, payload, registry, true, ids.take(j))->Ok_0;
            let with_chunk = assemble(archive, payload, registry, true, ids.take(j + 1))->Ok_0;
            &&& with_chunk.data == front.data + chunk_window(
                archive.raw_chunks,
                payload,
                chunk_index(archive.raw_chunks, ids[j]),
            )
            &&& with_chunk.raw_chunks == front.raw_chunks.push(ids[j])
        }),
{
    let n = archive.map_entries.len() as int;
    let ids = archive.map_entries[i].chunk_ids;
    lemma_keep_raw_unpacks(archive, payload, registry, n);
    lemma_strict_assemble_fails(archive, payload, registry, ids, j);
    lemma_strict_unpack_fails(archive, payload, registry, i, n);
    lemma_keep_raw_assembles(archive, payload, registry, ids.take(j));
    assert(ids.take(j + 1).drop_last() =~= ids.take(j));
    assert(ids.take(j + 1).last() == ids[j]);
}

/// Without raw retention, a file that does not assemble fails the unpack
/// with a codec error.
proof fn lemma_strict_unpack_fails(
    archive: ArchiveModel,
    payload: Seq<u8>,
    registry: Map<u16, CodecKind>,
    i: int,
    n: int,
)
    requires
        0 <= i < n,
        assemble(archive, payload, registry, false, archive.map_entries[i].chunk_ids) is Err,
    ensures
        unpacked_files(archive, payload, registry, false, n) matches Err(e) && e is CodecError,
    decreases n,
{
    if i < n - 1 {
        lemma_strict_unpack_fails(archive, payload, registry, i, n - 1);
    } else {
        lemma_unpack_errors_are_codec(archive, payload, registry, n - 1);
    }
}

/// Unpacking a loaded archive fails with codec errors only.
proof fn lemma_unpack_errors_are_codec(
    archive: ArchiveModel,
    payload: Seq<u8>,
    registry: Map<u16, CodecKind>,
    n: int,
)
    ensures
        unpacked_files(archive, payload, registry, false, n) matches Err(e) ==> e is CodecError,
    decreases n,
{
    if n > 0 {
        lemma_unpack_errors_are_codec(archive, payload, registry, n - 1);
    }
}

} // verus!
