//! The archive writer: the bytes that a header is written as, the function
//! that writes them, and the proof that the reader gives the header back.

use crate::bytes::{
    le_u16, le_u32, lemma_le_u16_roundtrip, lemma_le_u32_roundtrip, lemma_run_len_unique, put_bytes,
    put_u16, put_u32, u16_le_bytes, u32_le_bytes,
};
use crate::error::DzipError;
use crate::model::{name_encodable, ArchiveMetadata, ArchiveModel, MapEntry, MapEntryModel, RawChunk};
use crate::reader::{
    chunk_at, parse_chunk_table, parse_chunks, parse_count, parse_entries, parse_entry,
    parse_entry_table, parse_header, parse_ids, parse_name, parse_name_table, parse_names,
    CHUNK_RECORD_LEN,
};
use crate::text::is_encodable_name;
use crate::utils::cstr_bytes;
use vstd::prelude::*;
use vstd::utf8::{encode_utf8, encode_utf8_decode_utf8, encode_utf8_valid_utf8};

verus! {

/// A name as it stands in a string table: its UTF-8 bytes and a terminator.
pub open spec fn name_bytes(name: Seq<char>) -> Seq<u8> {
    encode_utf8(name).push(0u8)
}

/// The names of a string table, one after the other.
pub open spec fn names_bytes(names: Seq<Seq<char>>) -> Seq<u8>
    decreases names.len(),
{
    if names.len() == 0 {
        Seq::empty()
    } else {
        names_bytes(names.drop_last()) + name_bytes(names.last())
    }
}

/// A string table: its count, then its names.
pub open spec fn name_table_bytes(names: Seq<Seq<char>>) -> Seq<u8> {
    u32_le_bytes(names.len() as u32) + names_bytes(names)
}

/// One record of the chunk table.
pub open spec fn chunk_bytes(chunk: RawChunk) -> Seq<u8> {
    u16_le_bytes(chunk.id) + u32_le_bytes(chunk.decoded_length) + u16_le_bytes(chunk.flags)
        + u32_le_bytes(chunk.stored_length)
}

/// The records of the chunk table, one after the other.
pub open spec fn chunks_bytes(chunks: Seq<RawChunk>) -> Seq<u8>
    decreases chunks.len(),
{
    if chunks.len() == 0 {
        Seq::empty()
    } else {
        chunks_bytes(chunks.drop_last()) + chunk_bytes(chunks.last())
    }
}

/// The chunk table: its count, then its records.
pub open spec fn chunk_table_bytes(chunks: Seq<RawChunk>) -> Seq<u8> {
    u32_le_bytes(chunks.len() as u32) + chunks_bytes(chunks)
}

/// A list of chunk identifiers, one after the other.
pub open spec fn ids_bytes(ids: Seq<u16>) -> Seq<u8>
    decreases ids.len(),
{
    if ids.len() == 0 {
        Seq::empty()
    } else {
        ids_bytes(ids.drop_last()) + u16_le_bytes(ids.last())
    }
}

/// One map entry: file index, directory index, number of chunk
/// identifiers, then the identifiers.
pub open spec fn entry_bytes(entry: MapEntryModel) -> Seq<u8> {
    u32_le_bytes(entry.file_id) + u32_le_bytes(entry.dir_idx) + u32_le_bytes(
        entry.chunk_ids.len() as u32,
    ) + ids_bytes(entry.chunk_ids)
}

/// The map entries, one after the other.
pub open spec fn entries_bytes(entries: Seq<MapEntryModel>) -> Seq<u8>
    decreases entries.len(),
{
    if entries.len() == 0 {
        Seq::empty()
    } else {
        entries_bytes(entries.drop_last()) + entry_bytes(entries.last())
    }
}

/// The table of map entries: its count, then its entries.
pub open spec fn entry_table_bytes(entries: Seq<MapEntryModel>) -> Seq<u8> {
    u32_le_bytes(entries.len() as u32) + entries_bytes(entries)
}

/// The bytes of a header: version, directory table, filename table, chunk
/// table, table of map entries.
pub open spec fn header_bytes(archive: ArchiveModel) -> Seq<u8> {
    u32_le_bytes(archive.version) + name_table_bytes(archive.directories) + name_table_bytes(
        archive.user_files,
    ) + chunk_table_bytes(archive.raw_chunks) + entry_table_bytes(archive.map_entries)
}

/// Where a window of `b` holds `x` followed by `y`, its front holds `x`
/// and its back holds `y`.
proof fn lemma_split_window(b: Seq<u8>, at: int, x: Seq<u8>, y: Seq<u8>)
    requires
        0 <= at,
        at + x.len() + y.len() <= b.len(),
        b.subrange(at, at + x.len() + y.len()) == x + y,
    ensures
        b.subrange(at, at + x.len()) == x,
        b.subrange(at + x.len(), at + x.len() + y.len()) == y,
{
    let w = b.subrange(at, at + x.len() + y.len());
    assert forall|k: int| 0 <= k < x.len() implies b[at + k] == x[k] by {
        assert(w[k] == (x + y)[k]);
    }
    assert forall|k: int| 0 <= k < y.len() implies b[at + x.len() + k] == y[k] by {
        assert(w[x.len() + k] == (x + y)[x.len() + k]);
    }
    assert(b.subrange(at, at + x.len()) =~= x);
    assert(b.subrange(at + x.len(), at + x.len() + y.len()) =~= y);
}

/// Where the bytes of a 16-bit integer stand, that integer is read.
proof fn lemma_u16_at(b: Seq<u8>, at: int, v: u16)
    requires
        0 <= at,
        at + 2 <= b.len(),
        b.subrange(at, at + 2) == u16_le_bytes(v),
    ensures
        le_u16(b, at) == v,
{
    lemma_le_u16_roundtrip(v);
    let w = b.subrange(at, at + 2);
    assert(w[0] == b[at] && w[1] == b[at + 1]);
}

/// Where the bytes of a 32-bit integer stand, that integer is read.
proof fn lemma_u32_at(b: Seq<u8>, at: int, v: u32)
    requires
        0 <= at,
        at + 4 <= b.len(),
        b.subrange(at, at + 4) == u32_le_bytes(v),
    ensures
        le_u32(b, at) == v,
        parse_count(b, at) == Some((v, at + 4)),
{
    lemma_le_u32_roundtrip(v);
    let w = b.subrange(at, at + 4);
    assert(w[0] == b[at] && w[1] == b[at + 1] && w[2] == b[at + 2] && w[3] == b[at + 3]);
}

/// Where the bytes of a name stand, that name is read.
proof fn lemma_name_at(b: Seq<u8>, at: int, name: Seq<char>)
    requires
        0 <= at,
        at + name_bytes(name).len() <= b.len(),
        b.subrange(at, at + name_bytes(name).len()) == name_bytes(name),
        name_encodable(name),
    ensures
        parse_name(b, at) == Some((name, at + name_bytes(name).len())),
{
    let e = encode_utf8(name);
    let w = b.subrange(at, at + e.len() + 1);
    assert forall|k: int| at <= k < at + e.len() implies b[k] != 0u8 by {
        assert(w[k - at] == e[k - at]);
        assert(e.contains(e[k - at]));
    }
    assert(w[e.len() as int] == 0u8);
    lemma_run_len_unique(b, at, 0u8, e.len() as int);
    assert(cstr_bytes(b, at) =~= e) by {
        assert forall|k: int| 0 <= k < e.len() implies b[at + k] == e[k] by {
            assert(w[k] == e[k]);
        }
    }
    encode_utf8_valid_utf8(name);
    encode_utf8_decode_utf8(name);
}

/// Where the bytes of a list of names stand, those names are read.
proof fn lemma_names_at(b: Seq<u8>, at: int, names: Seq<Seq<char>>)
    requires
        0 <= at,
        at + names_bytes(names).len() <= b.len(),
        b.subrange(at, at + names_bytes(names).len()) == names_bytes(names),
        forall|i: int| 0 <= i < names.len() ==> name_encodable(#[trigger] names[i]),
    ensures
        parse_names(b, at, names.len()) == Some((names, at + names_bytes(names).len())),
    decreases names.len(),
{
    if names.len() > 0 {
        let init = names.drop_last();
        let x = names_bytes(init);
        let y = name_bytes(names.last());
        lemma_split_window(b, at, x, y);
        assert forall|i: int| 0 <= i < init.len() implies name_encodable(#[trigger] init[i]) by {
            assert(init[i] == names[i]);
        }
        lemma_names_at(b, at, init);
        lemma_name_at(b, at + x.len(), names.last());
        assert(init.push(names.last()) =~= names);
    } else {
        assert(names =~= Seq::<Seq<char>>::empty());
    }
}

/// Where the bytes of a string table stand, that table is read.
proof fn lemma_name_table_at(b: Seq<u8>, at: int, names: Seq<Seq<char>>)
    requires
        0 <= at,
        names.len() <= u32::MAX,
        at + name_table_bytes(names).len() <= b.len(),
        b.subrange(at, at + name_table_bytes(names).len()) == name_table_bytes(names),
        forall|i: int| 0 <= i < names.len() ==> name_encodable(#[trigger] names[i]),
    ensures
        parse_name_table(b, at) == Some((names, at + name_table_bytes(names).len())),
{
    let x = u32_le_bytes(names.len() as u32);
    lemma_split_window(b, at, x, names_bytes(names));
    lemma_u32_at(b, at, names.len() as u32);
    lemma_names_at(b, at + 4, names);
}

/// Where the bytes of a chunk record stand, that record is read.
proof fn lemma_chunk_at(b: Seq<u8>, at: int, chunk: RawChunk)
    requires
        0 <= at,
        at + CHUNK_RECORD_LEN <= b.len(),
        b.subrange(at, at + CHUNK_RECORD_LEN) == chunk_bytes(chunk),
    ensures
        chunk_at(b, at) == chunk,
{
    let a = u16_le_bytes(chunk.id);
    let c = u32_le_bytes(chunk.decoded_length);
    let d = u16_le_bytes(chunk.flags);
    let e = u32_le_bytes(chunk.stored_length);
    assert(chunk_bytes(chunk) =~= a + (c + (d + e)));
    lemma_split_window(b, at, a, c + (d + e));
    lemma_split_window(b, at + 2, c, d + e);
    lemma_split_window(b, at + 6, d, e);
    lemma_u16_at(b, at, chunk.id);
    lemma_u32_at(b, at + 2, chunk.decoded_length);
    lemma_u16_at(b, at + 6, chunk.flags);
    lemma_u32_at(b, at + 8, chunk.stored_length);
}

/// Every chunk record takes twelve bytes.
proof fn lemma_chunks_bytes_len(chunks: Seq<RawChunk>)
    ensures
        chunks_bytes(chunks).len() == CHUNK_RECORD_LEN * chunks.len(),
    decreases chunks.len(),
{
    if chunks.len() > 0 {
        lemma_chunks_bytes_len(chunks.drop_last());
    }
}

/// Where the bytes of a list of chunk records stand, those records are
/// read.
proof fn lemma_chunks_at(b: Seq<u8>, at: int, chunks: Seq<RawChunk>)
    requires
        0 <= at,
        at + chunks_bytes(chunks).len() <= b.len(),
        b.subrange(at, at + chunks_bytes(chunks).len()) == chunks_bytes(chunks),
    ensures
        parse_chunks(b, at, chunks.len()) == Some((chunks, at + chunks_bytes(chunks).len())),
    decreases chunks.len(),
{
    lemma_chunks_bytes_len(chunks);
    if chunks.len() > 0 {
        let init = chunks.drop_last();
        lemma_chunks_bytes_len(init);
        lemma_split_window(b, at, chunks_bytes(init), chunk_bytes(chunks.last()));
        lemma_chunks_at(b, at, init);
        lemma_chunk_at(b, at + CHUNK_RECORD_LEN * init.len(), chunks.last());
        let parsed = Seq::new(chunks.len(), |i: int| chunk_at(b, at + CHUNK_RECORD_LEN * i));
        let parsed_init = Seq::new(init.len(), |i: int| chunk_at(b, at + CHUNK_RECORD_LEN * i));
        assert(parsed_init == init);
        assert forall|i: int| 0 <= i < chunks.len() implies parsed[i] == chunks[i] by {
            if i < init.len() {
                assert(parsed_init[i] == init[i]);
            }
        }
        assert(parsed =~= chunks);
    } else {
        assert(Seq::new(0nat, |i: int| chunk_at(b, at + CHUNK_RECORD_LEN * i)) =~= chunks);
    }
}

/// Where the bytes of a chunk table stand, that table is read.
proof fn lemma_chunk_table_at(b: Seq<u8>, at: int, chunks: Seq<RawChunk>)
    requires
        0 <= at,
        chunks.len() <= u32::MAX,
        at + chunk_table_bytes(chunks).len() <= b.len(),
        b.subrange(at, at + chunk_table_bytes(chunks).len()) == chunk_table_bytes(chunks),
    ensures
        parse_chunk_table(b, at) == Some((chunks, at + chunk_table_bytes(chunks).len())),
{
    let x = u32_le_bytes(chunks.len() as u32);
    lemma_split_window(b, at, x, chunks_bytes(chunks));
    lemma_u32_at(b, at, chunks.len() as u32);
    lemma_chunks_at(b, at + 4, chunks);
}

/// Every chunk identifier takes two bytes.
proof fn lemma_ids_bytes_len(ids: Seq<u16>)
    ensures
        ids_bytes(ids).len() == 2 * ids.len(),
    decreases ids.len(),
{
    if ids.len() > 0 {
        lemma_ids_bytes_len(ids.drop_last());
    }
}

/// Where the bytes of a list of chunk identifiers stand, those identifiers
/// are read.
proof fn lemma_ids_at(b: Seq<u8>, at: int, ids: Seq<u16>)
    requires
        0 <= at,
        at + ids_bytes(ids).len() <= b.len(),
        b.subrange(at, at + ids_bytes(ids).len()) == ids_bytes(ids),
    ensures
        parse_ids(b, at, ids.len()) == Some((ids, at + ids_bytes(ids).len())),
    decreases ids.len(),
{
    lemma_ids_bytes_len(ids);
    if ids.len() > 0 {
        let init = ids.drop_last();
        lemma_ids_bytes_len(init);
        lemma_split_window(b, at, ids_bytes(init), u16_le_bytes(ids.last()));
        lemma_ids_at(b, at, init);
        lemma_u16_at(b, at + 2 * init.len(), ids.last());
        let parsed = Seq::new(ids.len(), |i: int| le_u16(b, at + 2 * i));
        let parsed_init = Seq::new(init.len(), |i: int| le_u16(b, at + 2 * i));
        assert(parsed_init == init);
        assert forall|i: int| 0 <= i < ids.len() implies parsed[i] == ids[i] by {
            if i < init.len() {
                assert(parsed_init[i] == init[i]);
            }
        }
        assert(parsed =~= ids);
    } else {
        assert(Seq::new(0nat, |i: int| le_u16(b, at + 2 * i)) =~= ids);
    }
}

/// Where the bytes of a map entry stand, that entry is read.
proof fn lemma_entry_at(b: Seq<u8>, at: int, entry: MapEntryModel)
    requires
        0 <= at,
        entry.chunk_ids.len() <= u32::MAX,
        at + entry_bytes(entry).len() <= b.len(),
        b.subrange(at, at + entry_bytes(entry).len()) == entry_bytes(entry),
    ensures
        parse_entry(b, at) == Some((entry, at + entry_bytes(entry).len())),
{
    let a = u32_le_bytes(entry.file_id);
    let c = u32_le_bytes(entry.dir_idx);
    let d = u32_le_bytes(entry.chunk_ids.len() as u32);
    let e = ids_bytes(entry.chunk_ids);
    assert(entry_bytes(entry) =~= a + (c + (d + e)));
    lemma_split_window(b, at, a, c + (d + e));
    lemma_split_window(b, at + 4, c, d + e);
    lemma_split_window(b, at + 8, d, e);
    lemma_u32_at(b, at, entry.file_id);
    lemma_u32_at(b, at + 4, entry.dir_idx);
    lemma_u32_at(b, at + 8, entry.chunk_ids.len() as u32);
    lemma_ids_at(b, at + 12, entry.chunk_ids);
}

/// Where the bytes of a list of map entries stand, those entries are read.
proof fn lemma_entries_at(b: Seq<u8>, at: int, entries: Seq<MapEntryModel>)
    requires
        0 <= at,
        at + entries_bytes(entries).len() <= b.len(),
        b.subrange(at, at + entries_bytes(entries).len()) == entries_bytes(entries),
        forall|i: int| 0 <= i < entries.len() ==> (#[trigger] entries[i]).chunk_ids.len() <= u32::MAX,
    ensures
        parse_entries(b, at, entries.len()) == Some((entries, at + entries_bytes(entries).len())),
    decreases entries.len(),
{
    if entries.len() > 0 {
        let init = entries.drop_last();
        let x = entries_bytes(init);
        lemma_split_window(b, at, x, entry_bytes(entries.last()));
        assert forall|i: int| 0 <= i < init.len() implies (#[trigger] init[i]).chunk_ids.len()
            <= u32::MAX by {
            assert(init[i] == entries[i]);
        }
        lemma_entries_at(b, at, init);
        lemma_entry_at(b, at + x.len(), entries.last());
        assert(init.push(entries.last()) =~= entries);
    } else {
        assert(entries =~= Seq::<MapEntryModel>::empty());
    }
}

/// Where the bytes of a table of map entries stand, that table is read.
proof fn lemma_entry_table_at(b: Seq<u8>, at: int, entries: Seq<MapEntryModel>)
    requires
        0 <= at,
        entries.len() <= u32::MAX,
        at + entry_table_bytes(entries).len() <= b.len(),
        b.subrange(at, at + entry_table_bytes(entries).len()) == entry_table_bytes(entries),
        forall|i: int| 0 <= i < entries.len() ==> (#[trigger] entries[i]).chunk_ids.len() <= u32::MAX,
    ensures
        parse_entry_table(b, at) == Some((entries, at + entry_table_bytes(entries).len())),
{
    let x = u32_le_bytes(entries.len() as u32);
    lemma_split_window(b, at, x, entries_bytes(entries));
    lemma_u32_at(b, at, entries.len() as u32);
    lemma_entries_at(b, at + 4, entries);
}

/// The five parts of a header stand in the bytes one behind the other.
proof fn lemma_header_windows(
    b: Seq<u8>,
    v: Seq<u8>,
    d: Seq<u8>,
    f: Seq<u8>,
    c: Seq<u8>,
    e: Seq<u8>,
    payload: Seq<u8>,
    at_dirs: int,
    at_files: int,
    at_chunks: int,
    at_entries: int,
    at_payload: int,
)
    requires
        b == v + d + f + c + e + payload,
        at_dirs == v.len(),
        at_files == at_dirs + d.len(),
        at_chunks == at_files + f.len(),
        at_entries == at_chunks + c.len(),
        at_payload == at_entries + e.len(),
    ensures
        b.subrange(0, at_dirs) == v,
        b.subrange(at_dirs, at_files) == d,
        b.subrange(at_files, at_chunks) == f,
        b.subrange(at_chunks, at_entries) == c,
        b.subrange(at_entries, at_payload) == e,
        b.len() == at_payload + payload.len(),
{
    assert(b.subrange(0, at_dirs) =~= v);
    assert(b.subrange(at_dirs, at_files) =~= d);
    assert(b.subrange(at_files, at_chunks) =~= f);
    assert(b.subrange(at_chunks, at_entries) =~= c);
    assert(b.subrange(at_entries, at_payload) =~= e);
}

/// Reading what was written gives it back: the bytes of a header, followed
/// by anything, parse as that header, and the payload starts right behind
/// them.
pub proof fn lemma_parse_written_header(archive: ArchiveModel, payload: Seq<u8>)
    requires
        archive.encodable(),
    ensures
        parse_header(header_bytes(archive) + payload) == Some(
            (archive, header_bytes(archive).len() as int),
        ),
{
    let v = u32_le_bytes(archive.version);
    let d = name_table_bytes(archive.directories);
    let f = name_table_bytes(archive.user_files);
    let c = chunk_table_bytes(archive.raw_chunks);
    let e = entry_table_bytes(archive.map_entries);
    let b = header_bytes(archive) + payload;
    let at_files: int = 4 + d.len() as int;
    let at_chunks: int = at_files + f.len();
    let at_entries: int = at_chunks + c.len();
    let at_payload: int = at_entries + e.len();
    lemma_header_windows(b, v, d, f, c, e, payload, 4, at_files, at_chunks, at_entries, at_payload);
    assert(parse_count(b, 0) == Some((archive.version, 4int))) by {
        lemma_u32_at(b, 0, archive.version);
    }
    assert(parse_name_table(b, 4) == Some((archive.directories, at_files))) by {
        lemma_name_table_at(b, 4, archive.directories);
    }
    assert(parse_name_table(b, at_files) == Some((archive.user_files, at_chunks))) by {
        lemma_name_table_at(b, at_files, archive.user_files);
    }
    assert(parse_chunk_table(b, at_chunks) == Some((archive.raw_chunks, at_entries))) by {
        lemma_chunk_table_at(b, at_chunks, archive.raw_chunks);
    }
    assert(parse_entry_table(b, at_entries) == Some((archive.map_entries, at_payload))) by {
        lemma_entry_table_at(b, at_entries, archive.map_entries);
    }
    assert(header_bytes(archive).len() == at_payload);
}

/// Two windows of `b` that touch make one window.
proof fn lemma_join_windows(b: Seq<u8>, from: int, mid: int, to: int, x: Seq<u8>, y: Seq<u8>)
    requires
        0 <= from <= mid <= to <= b.len(),
        b.subrange(from, mid) == x,
        b.subrange(mid, to) == y,
    ensures
        b.subrange(from, to) == x + y,
{
    assert(b.subrange(from, to) =~= b.subrange(from, mid) + b.subrange(mid, to));
}

/// A count that was read stands in the bytes as it is written.
proof fn lemma_count_window(b: Seq<u8>, at: int)
    ensures
        parse_count(b, at) matches Some((count, end)) ==> 0 <= at && end == at + 4 && end
            <= b.len() && b.subrange(at, end) == u32_le_bytes(count),
{
    if parse_count(b, at) is Some {
        crate::bytes::lemma_le_u32_bytes(b, at);
    }
}

/// A name that was read stands in the bytes as it is written.
proof fn lemma_name_window(b: Seq<u8>, at: int)
    ensures
        parse_name(b, at) matches Some((name, end)) ==> 0 <= at <= end <= b.len() && b.subrange(
            at,
            end,
        ) == name_bytes(name),
{
    match parse_name(b, at) {
        Some((name, end)) => {
            let raw = cstr_bytes(b, at);
            crate::bytes::lemma_run_len(b, at, 0u8);
            vstd::utf8::decode_utf8_encode_utf8(raw);
            assert(b.subrange(at, end) =~= raw.push(0u8));
        },
        None => {},
    }
}

/// Names that were read stand in the bytes as they are written.
proof fn lemma_names_window(b: Seq<u8>, at: int, count: nat)
    requires
        0 <= at <= b.len(),
    ensures
        parse_names(b, at, count) matches Some((names, end)) ==> at <= end <= b.len()
            && b.subrange(at, end) == names_bytes(names),
    decreases count,
{
    if count > 0 {
        lemma_names_window(b, at, (count - 1) as nat);
        match parse_names(b, at, (count - 1) as nat) {
            Some((init, next)) => {
                lemma_name_window(b, next);
                match parse_name(b, next) {
                    Some((name, end)) => {
                        lemma_join_windows(b, at, next, end, names_bytes(init), name_bytes(name));
                        assert(init.push(name).drop_last() =~= init);
                    },
                    None => {},
                }
            },
            None => {},
        }
    } else {
        assert(b.subrange(at, at) =~= Seq::<u8>::empty());
    }
}

/// A string table that was read stands in the bytes as it is written.
proof fn lemma_name_table_window(b: Seq<u8>, at: int)
    ensures
        parse_name_table(b, at) matches Some((names, end)) ==> 0 <= at <= end <= b.len()
            && names.len() <= u32::MAX && b.subrange(at, end) == name_table_bytes(names),
{
    lemma_count_window(b, at);
    match parse_count(b, at) {
        Some((count, next)) => {
            lemma_names_window(b, next, count as nat);
            crate::reader::lemma_parse_names_bounds(b, next, count as nat);
            match parse_names(b, next, count as nat) {
                Some((names, end)) => {
                    lemma_join_windows(
                        b,
                        at,
                        next,
                        end,
                        u32_le_bytes(count),
                        names_bytes(names),
                    );
                },
                None => {},
            }
        },
        None => {},
    }
}

/// A chunk record that was read stands in the bytes as it is written.
proof fn lemma_chunk_window(b: Seq<u8>, at: int)
    requires
        0 <= at,
        at + CHUNK_RECORD_LEN <= b.len(),
    ensures
        b.subrange(at, at + CHUNK_RECORD_LEN) == chunk_bytes(chunk_at(b, at)),
{
    crate::bytes::lemma_le_u16_bytes(b, at);
    crate::bytes::lemma_le_u32_bytes(b, at + 2);
    crate::bytes::lemma_le_u16_bytes(b, at + 6);
    crate::bytes::lemma_le_u32_bytes(b, at + 8);
    let chunk = chunk_at(b, at);
    lemma_join_windows(b, at, at + 2, at + 6, u16_le_bytes(chunk.id), u32_le_bytes(chunk.decoded_length));
    lemma_join_windows(
        b,
        at,
        at + 6,
        at + 8,
        u16_le_bytes(chunk.id) + u32_le_bytes(chunk.decoded_length),
        u16_le_bytes(chunk.flags),
    );
    lemma_join_windows(
        b,
        at,
        at + 8,
        at + 12,
        u16_le_bytes(chunk.id) + u32_le_bytes(chunk.decoded_length) + u16_le_bytes(chunk.flags),
        u32_le_bytes(chunk.stored_length),
    );
}

/// Chunk records that were read stand in the bytes as they are written.
proof fn lemma_chunks_window(b: Seq<u8>, at: int, count: nat)
    ensures
        parse_chunks(b, at, count) matches Some((chunks, end)) ==> at <= end <= b.len()
            && b.subrange(at, end) == chunks_bytes(chunks),
    decreases count,
{
    match parse_chunks(b, at, count) {
        Some((chunks, end)) => {
            if count > 0 {
                lemma_chunks_window(b, at, (count - 1) as nat);
                let init = parse_chunks(b, at, (count - 1) as nat).unwrap().0;
                let mid = at + CHUNK_RECORD_LEN * (count - 1);
                assert(chunks.drop_last() =~= init);
                assert(chunks.last() == chunk_at(b, mid));
                lemma_chunk_window(b, mid);
                lemma_join_windows(b, at, mid, end, chunks_bytes(init), chunk_bytes(chunks.last()));
            } else {
                assert(b.subrange(at, at) =~= Seq::<u8>::empty());
            }
        },
        None => {},
    }
}

/// A chunk table that was read stands in the bytes as it is written.
proof fn lemma_chunk_table_window(b: Seq<u8>, at: int)
    ensures
        parse_chunk_table(b, at) matches Some((chunks, end)) ==> 0 <= at <= end <= b.len()
            && chunks.len() <= u32::MAX && b.subrange(at, end) == chunk_table_bytes(chunks),
{
    lemma_count_window(b, at);
    match parse_count(b, at) {
        Some((count, next)) => {
            lemma_chunks_window(b, next, count as nat);
            match parse_chunks(b, next, count as nat) {
                Some((chunks, end)) => {
                    lemma_join_windows(
                        b,
                        at,
                        next,
                        end,
                        u32_le_bytes(count),
                        chunks_bytes(chunks),
                    );
                },
                None => {},
            }
        },
        None => {},
    }
}

/// Chunk identifiers that were read stand in the bytes as they are written.
proof fn lemma_ids_window(b: Seq<u8>, at: int, count: nat)
    ensures
        parse_ids(b, at, count) matches Some((ids, end)) ==> at <= end <= b.len() && b.subrange(
            at,
            end,
        ) == ids_bytes(ids),
    decreases count,
{
    match parse_ids(b, at, count) {
        Some((ids, end)) => {
            if count > 0 {
                lemma_ids_window(b, at, (count - 1) as nat);
                let init = parse_ids(b, at, (count - 1) as nat).unwrap().0;
                let mid = at + 2 * (count - 1);
                assert(ids.drop_last() =~= init);
                assert(ids.last() == le_u16(b, mid));
                crate::bytes::lemma_le_u16_bytes(b, mid);
                lemma_join_windows(b, at, mid, end, ids_bytes(init), u16_le_bytes(ids.last()));
            } else {
                assert(b.subrange(at, at) =~= Seq::<u8>::empty());
            }
        },
        None => {},
    }
}

/// A map entry that was read stands in the bytes as it is written.
proof fn lemma_entry_window(b: Seq<u8>, at: int)
    ensures
        parse_entry(b, at) matches Some((entry, end)) ==> 0 <= at <= end <= b.len() && b.subrange(
            at,
            end,
        ) == entry_bytes(entry),
{
    match parse_entry(b, at) {
        Some((entry, end)) => {
            crate::bytes::lemma_le_u32_bytes(b, at);
            crate::bytes::lemma_le_u32_bytes(b, at + 4);
            crate::bytes::lemma_le_u32_bytes(b, at + 8);
            lemma_ids_window(b, at + 12, le_u32(b, at + 8) as nat);
            let head = u32_le_bytes(entry.file_id) + u32_le_bytes(entry.dir_idx);
            lemma_join_windows(
                b,
                at,
                at + 4,
                at + 8,
                u32_le_bytes(entry.file_id),
                u32_le_bytes(entry.dir_idx),
            );
            lemma_join_windows(
                b,
                at,
                at + 8,
                at + 12,
                head,
                u32_le_bytes(entry.chunk_ids.len() as u32),
            );
            lemma_join_windows(
                b,
                at,
                at + 12,
                end,
                head + u32_le_bytes(entry.chunk_ids.len() as u32),
                ids_bytes(entry.chunk_ids),
            );
        },
        None => {},
    }
}

/// Map entries that were read stand in the bytes as they are written.
proof fn lemma_entries_window(b: Seq<u8>, at: int, count: nat)
    requires
        0 <= at <= b.len(),
    ensures
        parse_entries(b, at, count) matches Some((entries, end)) ==> at <= end <= b.len()
            && entries.len() == count && b.subrange(at, end) == entries_bytes(entries),
    decreases count,
{
    if count > 0 {
        lemma_entries_window(b, at, (count - 1) as nat);
        match parse_entries(b, at, (count - 1) as nat) {
            Some((init, next)) => {
                lemma_entry_window(b, next);
                match parse_entry(b, next) {
                    Some((entry, end)) => {
                        lemma_join_windows(
                            b,
                            at,
                            next,
                            end,
                            entries_bytes(init),
                            entry_bytes(entry),
                        );
                        assert(init.push(entry).drop_last() =~= init);
                    },
                    None => {},
                }
            },
            None => {},
        }
    } else {
        assert(b.subrange(at, at) =~= Seq::<u8>::empty());
    }
}

/// A table of map entries that was read stands in the bytes as it is
/// written.
proof fn lemma_entry_table_window(b: Seq<u8>, at: int)
    ensures
        parse_entry_table(b, at) matches Some((entries, end)) ==> 0 <= at <= end <= b.len()
            && b.subrange(at, end) == entry_table_bytes(entries),
{
    lemma_count_window(b, at);
    match parse_count(b, at) {
        Some((count, next)) => {
            lemma_entries_window(b, next, count as nat);
            match parse_entries(b, next, count as nat) {
                Some((entries, end)) => {
                    lemma_join_windows(
                        b,
                        at,
                        next,
                        end,
                        u32_le_bytes(count),
                        entries_bytes(entries),
                    );
                },
                None => {},
            }
        },
        None => {},
    }
}

/// Writing what was read gives it back: bytes that parse as a header
/// begin with exactly the bytes that the header is written as. So no two
/// byte strings stand for the same header.
pub proof fn lemma_write_parsed_header(b: Seq<u8>)
    ensures
        parse_header(b) matches Some((archive, payload_start)) ==> 0 <= payload_start <= b.len()
            && b.subrange(0, payload_start) == header_bytes(archive),
{
    match parse_header(b) {
        Some((archive, payload_start)) => {
            lemma_count_window(b, 0);
            let at_dirs = 4int;
            lemma_name_table_window(b, at_dirs);
            let at_files = parse_name_table(b, at_dirs).unwrap().1;
            lemma_name_table_window(b, at_files);
            let at_chunks = parse_name_table(b, at_files).unwrap().1;
            lemma_chunk_table_window(b, at_chunks);
            let at_entries = parse_chunk_table(b, at_chunks).unwrap().1;
            lemma_entry_table_window(b, at_entries);
            let v = u32_le_bytes(archive.version);
            let d = name_table_bytes(archive.directories);
            let f = name_table_bytes(archive.user_files);
            let c = chunk_table_bytes(archive.raw_chunks);
            let e = entry_table_bytes(archive.map_entries);
            lemma_join_windows(b, 0, at_dirs, at_files, v, d);
            lemma_join_windows(b, 0, at_files, at_chunks, v + d, f);
            lemma_join_windows(b, 0, at_chunks, at_entries, v + d + f, c);
            lemma_join_windows(b, 0, at_entries, payload_start, v + d + f + c, e);
        },
        None => {},
    }
}

/// Appends a string table to `out`.
fn write_name_table(out: &mut Vec<u8>, names: &Vec<String>)
    requires
        names@.len() <= u32::MAX,
    ensures
        final(out)@ == old(out)@ + name_table_bytes(names.deep_view()),
{
    let ghost all = names.deep_view();
    put_u32(out, names.len() as u32);
    let mut i: usize = 0;
    proof {
        assert(all.take(0) =~= Seq::<Seq<char>>::empty());
        assert(out@ =~= old(out)@ + u32_le_bytes(names@.len() as u32) + names_bytes(all.take(0)));
    }
    while i < names.len()
        invariant
            i <= names@.len(),
            all == names.deep_view(),
            out@ == old(out)@ + u32_le_bytes(names@.len() as u32) + names_bytes(all.take(i as int)),
        decreases names@.len() - i,
    {
        let ghost before = out@;
        let name = names[i].as_str();
        put_bytes(out, name.as_bytes());
        out.push(0u8);
        proof {
            let grown = all.take(i as int + 1);
            assert(grown.drop_last() =~= all.take(i as int));
            assert(grown.last() == names@[i as int]@);
            assert(out@ =~= before + name_bytes(names@[i as int]@));
            assert(out@ =~= old(out)@ + u32_le_bytes(names@.len() as u32) + names_bytes(grown));
        }
        i += 1;
    }
    proof {
        assert(all.take(i as int) =~= all);
        assert(out@ =~= old(out)@ + name_table_bytes(all));
    }
}

/// Appends the chunk table to `out`.
fn write_chunk_table(out: &mut Vec<u8>, chunks: &Vec<RawChunk>)
    requires
        chunks@.len() <= u32::MAX,
    ensures
        final(out)@ == old(out)@ + chunk_table_bytes(chunks@),
{
    put_u32(out, chunks.len() as u32);
    let mut i: usize = 0;
    proof {
        assert(chunks@.take(0) =~= Seq::<RawChunk>::empty());
        assert(out@ =~= old(out)@ + u32_le_bytes(chunks@.len() as u32) + chunks_bytes(
            chunks@.take(0),
        ));
    }
    while i < chunks.len()
        invariant
            i <= chunks@.len(),
            out@ == old(out)@ + u32_le_bytes(chunks@.len() as u32) + chunks_bytes(
                chunks@.take(i as int),
            ),
        decreases chunks@.len() - i,
    {
        let ghost before = out@;
        let chunk = chunks[i];
        put_u16(out, chunk.id);
        put_u32(out, chunk.decoded_length);
        put_u16(out, chunk.flags);
        put_u32(out, chunk.stored_length);
        proof {
            let grown = chunks@.take(i as int + 1);
            assert(grown.drop_last() =~= chunks@.take(i as int));
            assert(grown.last() == chunk);
            assert(out@ =~= before + chunk_bytes(chunk));
            assert(out@ =~= old(out)@ + u32_le_bytes(chunks@.len() as u32) + chunks_bytes(grown));
        }
        i += 1;
    }
    proof {
        assert(chunks@.take(i as int) =~= chunks@);
        assert(out@ =~= old(out)@ + chunk_table_bytes(chunks@));
    }
}

/// Appends one map entry to `out`.
fn write_entry(out: &mut Vec<u8>, entry: &MapEntry)
    requires
        entry.chunk_ids@.len() <= u32::MAX,
    ensures
        final(out)@ == old(out)@ + entry_bytes(entry@),
{
    put_u32(out, entry.file_id);
    put_u32(out, entry.dir_idx);
    put_u32(out, entry.chunk_ids.len() as u32);
    let ghost head = out@;
    let ghost ids = entry.chunk_ids@;
    let mut j: usize = 0;
    proof {
        assert(ids.take(0) =~= Seq::<u16>::empty());
        assert(out@ =~= head + ids_bytes(ids.take(0)));
    }
    while j < entry.chunk_ids.len()
        invariant
            j <= ids.len(),
            ids == entry.chunk_ids@,
            out@ == head + ids_bytes(ids.take(j as int)),
        decreases ids.len() - j,
    {
        let ghost before = out@;
        put_u16(out, entry.chunk_ids[j]);
        proof {
            let grown = ids.take(j as int + 1);
            assert(grown.drop_last() =~= ids.take(j as int));
            assert(grown.last() == ids[j as int]);
            assert(out@ =~= head + ids_bytes(grown));
        }
        j += 1;
    }
    proof {
        assert(ids.take(j as int) =~= ids);
        assert(out@ =~= old(out)@ + entry_bytes(entry@));
    }
}

/// Appends the table of map entries to `out`.
fn write_entry_table(out: &mut Vec<u8>, entries: &Vec<MapEntry>)
    requires
        entries@.len() <= u32::MAX,
        forall|i: int| 0 <= i < entries@.len() ==> (#[trigger] entries@[i]).chunk_ids@.len() <= u32::MAX,
    ensures
        final(out)@ == old(out)@ + entry_table_bytes(entries.deep_view()),
{
    let ghost all = entries.deep_view();
    put_u32(out, entries.len() as u32);
    let mut i: usize = 0;
    proof {
        assert(all.take(0) =~= Seq::<MapEntryModel>::empty());
        assert(out@ =~= old(out)@ + u32_le_bytes(entries@.len() as u32) + entries_bytes(
            all.take(0),
        ));
    }
    while i < entries.len()
        invariant
            i <= entries@.len(),
            all == entries.deep_view(),
            forall|k: int|
                0 <= k < entries@.len() ==> (#[trigger] entries@[k]).chunk_ids@.len() <= u32::MAX,
            out@ == old(out)@ + u32_le_bytes(entries@.len() as u32) + entries_bytes(
                all.take(i as int),
            ),
        decreases entries@.len() - i,
    {
        write_entry(out, &entries[i]);
        proof {
            let grown = all.take(i as int + 1);
            assert(grown.drop_last() =~= all.take(i as int));
            assert(grown.last() == entries@[i as int]@);
            assert(out@ =~= old(out)@ + u32_le_bytes(entries@.len() as u32) + entries_bytes(grown));
        }
        i += 1;
    }
    proof {
        assert(all.take(i as int) =~= all);
        assert(out@ =~= old(out)@ + entry_table_bytes(all));
    }
}

/// Tells whether every name of a table holds no zero byte.
fn names_are_encodable(names: &Vec<String>) -> (r: bool)
    ensures
        r == forall|i: int|
            0 <= i < names.deep_view().len() ==> name_encodable(#[trigger] names.deep_view()[i]),
{
    let mut i: usize = 0;
    while i < names.len()
        invariant
            i <= names@.len(),
            forall|k: int| 0 <= k < i ==> name_encodable(#[trigger] names.deep_view()[k]),
        decreases names@.len() - i,
    {
        if !is_encodable_name(names[i].as_str()) {
            assert(!name_encodable(names.deep_view()[i as int]));
            return false;
        }
        i += 1;
    }
    true
}

impl ArchiveMetadata {
    /// Tells whether the header fits the limits of the format: every count
    /// fits 32 bits and no name holds a zero byte.
    pub fn is_encodable(&self) -> (r: bool)
        ensures
            r == self@.encodable(),
    {
        if self.directories.len() > u32::MAX as usize || self.user_files.len() > u32::MAX as usize
            || self.raw_chunks.len() > u32::MAX as usize || self.map_entries.len()
            > u32::MAX as usize {
            return false;
        }
        if !names_are_encodable(&self.directories) || !names_are_encodable(&self.user_files) {
            return false;
        }
        let mut i: usize = 0;
        while i < self.map_entries.len()
            invariant
                i <= self.map_entries@.len(),
                forall|k: int|
                    0 <= k < i ==> (#[trigger] self@.map_entries[k]).chunk_ids.len() <= u32::MAX,
            decreases self.map_entries@.len() - i,
        {
            if self.map_entries[i].chunk_ids.len() > u32::MAX as usize {
                assert(self@.map_entries[i as int].chunk_ids.len() > u32::MAX);
                return false;
            }
            i += 1;
        }
        true
    }

    /// Writes the header to `out`, in the layout that the reader parses.
    pub fn write_to(&self, out: &mut Vec<u8>)
        requires
            self@.encodable(),
        ensures
            final(out)@ == old(out)@ + header_bytes(self@),
    {
        put_u32(out, self.version);
        write_name_table(out, &self.directories);
        write_name_table(out, &self.user_files);
        write_chunk_table(out, &self.raw_chunks);
        proof {
            assert forall|i: int| 0 <= i < self.map_entries@.len() implies (
            #[trigger] self.map_entries@[i]).chunk_ids@.len() <= u32::MAX by {
                assert(self@.map_entries[i].chunk_ids.len() <= u32::MAX);
            }
        }
        write_entry_table(out, &self.map_entries);
        proof {
            assert(out@ =~= old(out)@ + header_bytes(self@));
        }
    }
}

/// Serializes an archive: the header, then the chunk payload. Fails with
/// `Generic` exactly when the header does not fit the limits of the format.
pub fn serialize_archive(meta: &ArchiveMetadata, payload: &[u8]) -> (r: Result<Vec<u8>, DzipError>)
    ensures
        match r {
            Ok(bytes) => meta@.encodable() && bytes@ == header_bytes(meta@) + payload@,
            Err(e) => e is Generic && !meta@.encodable(),
        },
{
    if !meta.is_encodable() {
        return Err(DzipError::Generic("archive header exceeds the limits of the format".to_string()));
    }
    let mut out: Vec<u8> = Vec::new();
    meta.write_to(&mut out);
    put_bytes(&mut out, payload);
    Ok(out)
}

} // verus!
