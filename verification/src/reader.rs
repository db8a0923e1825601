//! The archive reader: what the bytes of a header mean, and the parser that
//! loads an `ArchiveMetadata` from them.

use crate::bytes::{le_u16, le_u32, lemma_run_len, run_delimited, run_len, ByteReader};
use crate::error::DzipError;
use crate::format::CURRENT_DIR_IDX;
use crate::io::{read_archive, UnpackSource};
use crate::model::{
    chunk_ids_unique, has_chunk, stored_prefix, ArchiveMetadata, ArchiveModel, MapEntry,
    MapEntryModel, RawChunk,
};
use crate::utils::{cstr_bytes, read_null_term_string};
use vstd::prelude::*;
use vstd::utf8::{decode_utf8, valid_utf8};

verus! {

/// Bytes of one record of the chunk table.
pub const CHUNK_RECORD_LEN: usize = 12;

/// Bytes of a map entry before its list of chunk identifiers.
pub const ENTRY_HEAD_LEN: usize = 12;

/// A 32-bit count at offset `at`, with the offset behind it.
pub open spec fn parse_count(b: Seq<u8>, at: int) -> Option<(u32, int)> {
    if 0 <= at && at + 4 <= b.len() {
        Some((le_u32(b, at), at + 4))
    } else {
        None
    }
}

/// A name of a string table at offset `at`, with the offset behind its
/// terminator. The terminator must be there, and the bytes before it must be
/// UTF-8.
pub open spec fn parse_name(b: Seq<u8>, at: int) -> Option<(Seq<char>, int)> {
    if 0 <= at && run_delimited(b, at, 0u8) && valid_utf8(cstr_bytes(b, at)) {
        Some((decode_utf8(cstr_bytes(b, at)), at + run_len(b, at, 0u8) + 1))
    } else {
        None
    }
}

/// `count` names from offset `at` on.
pub open spec fn parse_names(b: Seq<u8>, at: int, count: nat) -> Option<(Seq<Seq<char>>, int)>
    decreases count,
{
    if count == 0 {
        Some((Seq::empty(), at))
    } else {
        match parse_names(b, at, (count - 1) as nat) {
            Some((names, next)) => match parse_name(b, next) {
                Some((name, end)) => Some((names.push(name), end)),
                None => None,
            },
            None => None,
        }
    }
}

/// The chunk record at offset `at`.
pub open spec fn chunk_at(b: Seq<u8>, at: int) -> RawChunk {
    RawChunk {
        id: le_u16(b, at),
        decoded_length: le_u32(b, at + 2),
        flags: le_u16(b, at + 6),
        stored_length: le_u32(b, at + 8),
    }
}

/// `count` chunk records from offset `at` on.
pub open spec fn parse_chunks(b: Seq<u8>, at: int, count: nat) -> Option<(Seq<RawChunk>, int)> {
    if 0 <= at && at + CHUNK_RECORD_LEN * count <= b.len() {
        Some(
            (
                Seq::new(count, |i: int| chunk_at(b, at + CHUNK_RECORD_LEN * i)),
                at + CHUNK_RECORD_LEN * count,
            ),
        )
    } else {
        None
    }
}

/// `count` chunk identifiers from offset `at` on.
pub open spec fn parse_ids(b: Seq<u8>, at: int, count: nat) -> Option<(Seq<u16>, int)> {
    if 0 <= at && at + 2 * count <= b.len() {
        Some((Seq::new(count, |i: int| le_u16(b, at + 2 * i)), at + 2 * count))
    } else {
        None
    }
}

/// The map entry at offset `at`, with the offset behind it.
pub open spec fn parse_entry(b: Seq<u8>, at: int) -> Option<(MapEntryModel, int)> {
    if 0 <= at && at + ENTRY_HEAD_LEN <= b.len() {
        match parse_ids(b, at + ENTRY_HEAD_LEN, le_u32(b, at + 8) as nat) {
            Some((ids, end)) => Some(
                (
                    MapEntryModel {
                        file_id: le_u32(b, at),
                        dir_idx: le_u32(b, at + 4),
                        chunk_ids: ids,
                    },
                    end,
                ),
            ),
            None => None,
        }
    } else {
        None
    }
}

/// `count` map entries from offset `at` on.
pub open spec fn parse_entries(b: Seq<u8>, at: int, count: nat) -> Option<
    (Seq<MapEntryModel>, int),
>
    decreases count,
{
    if count == 0 {
        Some((Seq::empty(), at))
    } else {
        match parse_entries(b, at, (count - 1) as nat) {
            Some((entries, next)) => match parse_entry(b, next) {
                Some((entry, end)) => Some((entries.push(entry), end)),
                None => None,
            },
            None => None,
        }
    }
}

/// A string table: its count, then its names.
pub open spec fn parse_name_table(b: Seq<u8>, at: int) -> Option<(Seq<Seq<char>>, int)> {
    match parse_count(b, at) {
        Some((count, next)) => parse_names(b, next, count as nat),
        None => None,
    }
}

/// The chunk table: its count, then its records.
pub open spec fn parse_chunk_table(b: Seq<u8>, at: int) -> Option<(Seq<RawChunk>, int)> {
    match parse_count(b, at) {
        Some((count, next)) => parse_chunks(b, next, count as nat),
        None => None,
    }
}

/// The table of map entries: its count, then its entries.
pub open spec fn parse_entry_table(b: Seq<u8>, at: int) -> Option<(Seq<MapEntryModel>, int)> {
    match parse_count(b, at) {
        Some((count, next)) => parse_entries(b, next, count as nat),
        None => None,
    }
}

/// The header that the bytes of an archive begin with, and the offset at
/// which the chunk payload starts; `None` where the bytes begin with no
/// complete header. The layout is: version, directory table, filename
/// table, chunk table, table of map entries; integers little-endian,
/// strings null-terminated.
pub open spec fn parse_header(b: Seq<u8>) -> Option<(ArchiveModel, int)> {
    match parse_count(b, 0) {
        Some((version, at_dirs)) => match parse_name_table(b, at_dirs) {
            Some((directories, at_files)) => match parse_name_table(b, at_files) {
                Some((user_files, at_chunks)) => match parse_chunk_table(b, at_chunks) {
                    Some((raw_chunks, at_entries)) => match parse_entry_table(b, at_entries) {
                        Some((map_entries, at_payload)) => Some(
                            (
                                ArchiveModel {
                                    version,
                                    directories,
                                    user_files,
                                    raw_chunks,
                                    map_entries,
                                },
                                at_payload,
                            ),
                        ),
                        None => None,
                    },
                    None => None,
                },
                None => None,
            },
            None => None,
        },
        None => None,
    }
}

/// Whether `bytes` begin with the header `archive` and the header is
/// consistent in itself and with the payload behind it.
pub open spec fn loads_as(bytes: Seq<u8>, archive: ArchiveModel) -> bool {
    match parse_header(bytes) {
        Some((parsed, payload_start)) => parsed == archive && archive.well_formed(
            bytes.len() - payload_start,
        ),
        None => false,
    }
}

/// Names that parse take at least one byte each and stay inside the data.
pub proof fn lemma_parse_names_bounds(b: Seq<u8>, at: int, count: nat)
    requires
        0 <= at <= b.len(),
    ensures
        parse_names(b, at, count) matches Some((names, end)) ==> names.len() == count && at + count
            <= end <= b.len(),
    decreases count,
{
    if count > 0 {
        lemma_parse_names_bounds(b, at, (count - 1) as nat);
        match parse_names(b, at, (count - 1) as nat) {
            Some((names, next)) => {
                lemma_run_len(b, next, 0u8);
            },
            None => {},
        }
    }
}

/// Once a name fails to parse, every longer table fails too.
pub proof fn lemma_parse_names_fails(b: Seq<u8>, at: int, failed: nat, count: nat)
    requires
        failed <= count,
        parse_names(b, at, failed) is None,
    ensures
        parse_names(b, at, count) is None,
    decreases count,
{
    if count > failed {
        lemma_parse_names_fails(b, at, failed, (count - 1) as nat);
    }
}

/// Map entries that parse take at least twelve bytes each and stay inside
/// the data.
pub proof fn lemma_parse_entries_bounds(b: Seq<u8>, at: int, count: nat)
    requires
        0 <= at <= b.len(),
    ensures
        parse_entries(b, at, count) matches Some((entries, end)) ==> entries.len() == count && at
            + ENTRY_HEAD_LEN * count <= end <= b.len(),
    decreases count,
{
    if count > 0 {
        lemma_parse_entries_bounds(b, at, (count - 1) as nat);
    }
}

/// Once a map entry fails to parse, every longer table fails too.
pub proof fn lemma_parse_entries_fails(b: Seq<u8>, at: int, failed: nat, count: nat)
    requires
        failed <= count,
        parse_entries(b, at, failed) is None,
    ensures
        parse_entries(b, at, count) is None,
    decreases count,
{
    if count > failed {
        lemma_parse_entries_fails(b, at, failed, (count - 1) as nat);
    }
}

/// The offset of a chunk never exceeds the offset of a later chunk.
pub proof fn lemma_stored_prefix_monotone(chunks: Seq<RawChunk>, i: int, j: int)
    requires
        0 <= i <= j,
    ensures
        0 <= stored_prefix(chunks, i) <= stored_prefix(chunks, j),
    decreases j,
{
    if i < j {
        lemma_stored_prefix_monotone(chunks, i, j - 1);
    } else if j > 0 {
        lemma_stored_prefix_monotone(chunks, i - 1, j - 1);
    }
}

/// A header that parses fits the limits of the format: the parser read
/// every count from 32 bits and every name up to its terminator.
pub proof fn lemma_parsed_header_encodable(b: Seq<u8>)
    ensures
        parse_header(b) matches Some((model, payload_start)) ==> model.encodable() && 0
            <= payload_start <= b.len(),
{
    match parse_header(b) {
        Some((model, payload_start)) => {
            let (version, at_dirs) = parse_count(b, 0).unwrap();
            let (dir_count, d0) = parse_count(b, at_dirs).unwrap();
            let (directories, at_files) = parse_names(b, d0, dir_count as nat).unwrap();
            lemma_parse_names_bounds(b, d0, dir_count as nat);
            lemma_parsed_names_encodable(b, d0, dir_count as nat);
            let (file_count, f0) = parse_count(b, at_files).unwrap();
            let (user_files, at_chunks) = parse_names(b, f0, file_count as nat).unwrap();
            lemma_parse_names_bounds(b, f0, file_count as nat);
            lemma_parsed_names_encodable(b, f0, file_count as nat);
            let (chunk_count, c0) = parse_count(b, at_chunks).unwrap();
            let (raw_chunks, at_entries) = parse_chunks(b, c0, chunk_count as nat).unwrap();
            let (entry_count, e0) = parse_count(b, at_entries).unwrap();
            let (map_entries, at_payload) = parse_entries(b, e0, entry_count as nat).unwrap();
            lemma_parse_entries_bounds(b, e0, entry_count as nat);
            lemma_parsed_entries_encodable(b, e0, entry_count as nat);
        },
        None => {},
    }
}

/// The bytes of a parsed name hold no terminator.
proof fn lemma_parsed_names_encodable(b: Seq<u8>, at: int, count: nat)
    requires
        0 <= at <= b.len(),
    ensures
        parse_names(b, at, count) matches Some((names, end)) ==> forall|i: int|
            0 <= i < names.len() ==> crate::model::name_encodable(#[trigger] names[i]),
    decreases count,
{
    if count > 0 {
        lemma_parsed_names_encodable(b, at, (count - 1) as nat);
        lemma_parse_names_bounds(b, at, (count - 1) as nat);
        match parse_names(b, at, (count - 1) as nat) {
            Some((names, next)) => {
                match parse_name(b, next) {
                    Some((name, end)) => {
                        let raw = cstr_bytes(b, next);
                        lemma_run_len(b, next, 0u8);
                        vstd::utf8::decode_utf8_encode_utf8(raw);
                        assert(vstd::utf8::encode_utf8(name) == raw);
                        assert(!raw.contains(0u8));
                    },
                    None => {},
                }
            },
            None => {},
        }
    }
}

/// The list of chunk identifiers of a parsed entry has a 32-bit length.
proof fn lemma_parsed_entries_encodable(b: Seq<u8>, at: int, count: nat)
    ensures
        parse_entries(b, at, count) matches Some((entries, end)) ==> forall|i: int|
            0 <= i < entries.len() ==> (#[trigger] entries[i]).chunk_ids.len() <= u32::MAX,
    decreases count,
{
    if count > 0 {
        lemma_parsed_entries_encodable(b, at, (count - 1) as nat);
    }
}

/// Reads a 32-bit count.
fn read_count(reader: &mut ByteReader) -> (r: Result<u32, DzipError>)
    requires
        old(reader).wf(),
    ensures
        final(reader).wf(),
        final(reader).data() == old(reader).data(),
        match r {
            Ok(count) => parse_count(old(reader).data(), old(reader).pos()) == Some(
                (count, final(reader).pos()),
            ),
            Err(e) => e == DzipError::CorruptArchive && parse_count(
                old(reader).data(),
                old(reader).pos(),
            ) is None,
        },
{
    match reader.read_u32() {
        Some(count) => Ok(count),
        None => Err(DzipError::CorruptArchive),
    }
}

/// Reads one name of a string table.
fn read_name(reader: &mut ByteReader) -> (r: Result<String, DzipError>)
    requires
        old(reader).wf(),
    ensures
        final(reader).wf(),
        final(reader).data() == old(reader).data(),
        match r {
            Ok(name) => parse_name(old(reader).data(), old(reader).pos()) == Some(
                (name@, final(reader).pos()),
            ),
            Err(e) => e == DzipError::CorruptArchive && parse_name(
                old(reader).data(),
                old(reader).pos(),
            ) is None,
        },
{
    let before = reader.position();
    proof {
        lemma_run_len(reader.data(), before as int, 0u8);
    }
    let name = read_null_term_string(reader)?;
    if reader.ended_on(before, 0u8) {
        Ok(name)
    } else {
        Err(DzipError::CorruptArchive)
    }
}

/// Reads a string table: its count, then its names.
fn read_name_table(reader: &mut ByteReader) -> (r: Result<Vec<String>, DzipError>)
    requires
        old(reader).wf(),
    ensures
        final(reader).wf(),
        final(reader).data() == old(reader).data(),
        match r {
            Ok(names) => parse_name_table(old(reader).data(), old(reader).pos()) == Some(
                (names.deep_view(), final(reader).pos()),
            ),
            Err(e) => e == DzipError::CorruptArchive && parse_name_table(
                old(reader).data(),
                old(reader).pos(),
            ) is None,
        },
{
    let count = read_count(reader)?;
    let ghost b = reader.data();
    let ghost start = reader.pos();
    proof {
        lemma_parse_names_bounds(b, start, count as nat);
    }
    if count as usize > reader.remaining() {
        return Err(DzipError::CorruptArchive);
    }
    let mut names: Vec<String> = Vec::new();
    let mut i: u32 = 0;
    proof {
        assert(names.deep_view() =~= Seq::<Seq<char>>::empty());
    }
    while i < count
        invariant
            i <= count,
            reader.wf(),
            reader.data() == b,
            old(reader).data() == b,
            parse_count(b, old(reader).pos()) == Some((count, start)),
            parse_names(b, start, i as nat) == Some((names.deep_view(), reader.pos())),
        decreases count - i,
    {
        let ghost before = names.deep_view();
        match read_name(reader) {
            Ok(name) => {
                names.push(name);
                proof {
                    assert(names.deep_view() =~= before.push(name@));
                }
            },
            Err(e) => {
                proof {
                    lemma_parse_names_fails(b, start, (i + 1) as nat, count as nat);
                }
                return Err(e);
            },
        }
        i += 1;
    }
    Ok(names)
}

/// Reads the chunk table: its count, then its records.
fn read_chunk_table(reader: &mut ByteReader) -> (r: Result<Vec<RawChunk>, DzipError>)
    requires
        old(reader).wf(),
    ensures
        final(reader).wf(),
        final(reader).data() == old(reader).data(),
        match r {
            Ok(chunks) => parse_chunk_table(old(reader).data(), old(reader).pos()) == Some(
                (chunks@, final(reader).pos()),
            ),
            Err(e) => e == DzipError::CorruptArchive && parse_chunk_table(
                old(reader).data(),
                old(reader).pos(),
            ) is None,
        },
{
    let count = read_count(reader)?;
    let ghost b = reader.data();
    let ghost start = reader.pos();
    if count as usize > reader.remaining() / CHUNK_RECORD_LEN {
        return Err(DzipError::CorruptArchive);
    }
    let mut chunks: Vec<RawChunk> = Vec::new();
    let mut i: u32 = 0;
    while i < count
        invariant
            i <= count,
            reader.wf(),
            reader.data() == b,
            0 <= start,
            start + CHUNK_RECORD_LEN * count <= b.len(),
            reader.pos() == start + CHUNK_RECORD_LEN * i,
            chunks@ == Seq::new(i as nat, |k: int| chunk_at(b, start + CHUNK_RECORD_LEN * k)),
        decreases count - i,
    {
        let ghost before = chunks@;
        let id = reader.read_u16();
        let decoded_length = reader.read_u32();
        let flags = reader.read_u16();
        let stored_length = reader.read_u32();
        match (id, decoded_length, flags, stored_length) {
            (Some(id), Some(decoded_length), Some(flags), Some(stored_length)) => {
                chunks.push(RawChunk { id, decoded_length, flags, stored_length });
            },
            _ => {
                return Err(DzipError::CorruptArchive);
            },
        }
        i += 1;
        proof {
            assert(chunks@ =~= Seq::new(
                i as nat,
                |k: int| chunk_at(b, start + CHUNK_RECORD_LEN * k),
            ));
        }
    }
    Ok(chunks)
}

/// Reads one map entry.
fn read_entry(reader: &mut ByteReader) -> (r: Result<MapEntry, DzipError>)
    requires
        old(reader).wf(),
    ensures
        final(reader).wf(),
        final(reader).data() == old(reader).data(),
        match r {
            Ok(entry) => parse_entry(old(reader).data(), old(reader).pos()) == Some(
                (entry@, final(reader).pos()),
            ),
            Err(e) => e == DzipError::CorruptArchive && parse_entry(
                old(reader).data(),
                old(reader).pos(),
            ) is None,
        },
{
    let ghost b = reader.data();
    let ghost at = reader.pos();
    if reader.remaining() < ENTRY_HEAD_LEN {
        return Err(DzipError::CorruptArchive);
    }
    let file_id = reader.read_u32();
    let dir_idx = reader.read_u32();
    let id_count = reader.read_u32();
    match (file_id, dir_idx, id_count) {
        (Some(file_id), Some(dir_idx), Some(id_count)) => {
            let ghost start = reader.pos();
            if id_count as usize > reader.remaining() / 2 {
                return Err(DzipError::CorruptArchive);
            }
            let mut chunk_ids: Vec<u16> = Vec::new();
            let mut j: u32 = 0;
            while j < id_count
                invariant
                    j <= id_count,
                    reader.wf(),
                    reader.data() == b,
                    0 <= start,
                    start + 2 * id_count <= b.len(),
                    reader.pos() == start + 2 * j,
                    chunk_ids@ == Seq::new(j as nat, |k: int| le_u16(b, start + 2 * k)),
                decreases id_count - j,
            {
                match reader.read_u16() {
                    Some(id) => {
                        chunk_ids.push(id);
                    },
                    None => {
                        return Err(DzipError::CorruptArchive);
                    },
                }
                j += 1;
                proof {
                    assert(chunk_ids@ =~= Seq::new(j as nat, |k: int| le_u16(b, start + 2 * k)));
                }
            }
            Ok(MapEntry { file_id, dir_idx, chunk_ids })
        },
        _ => Err(DzipError::CorruptArchive),
    }
}

/// Reads the table of map entries: its count, then its entries.
fn read_entry_table(reader: &mut ByteReader) -> (r: Result<Vec<MapEntry>, DzipError>)
    requires
        old(reader).wf(),
    ensures
        final(reader).wf(),
        final(reader).data() == old(reader).data(),
        match r {
            Ok(entries) => parse_entry_table(old(reader).data(), old(reader).pos()) == Some(
                (entries.deep_view(), final(reader).pos()),
            ),
            Err(e) => e == DzipError::CorruptArchive && parse_entry_table(
                old(reader).data(),
                old(reader).pos(),
            ) is None,
        },
{
    let count = read_count(reader)?;
    let ghost b = reader.data();
    let ghost start = reader.pos();
    proof {
        lemma_parse_entries_bounds(b, start, count as nat);
    }
    if count as usize > reader.remaining() / ENTRY_HEAD_LEN {
        return Err(DzipError::CorruptArchive);
    }
    let mut entries: Vec<MapEntry> = Vec::new();
    let mut i: u32 = 0;
    proof {
        assert(entries.deep_view() =~= Seq::<MapEntryModel>::empty());
    }
    while i < count
        invariant
            i <= count,
            reader.wf(),
            reader.data() == b,
            old(reader).data() == b,
            parse_count(b, old(reader).pos()) == Some((count, start)),
            parse_entries(b, start, i as nat) == Some((entries.deep_view(), reader.pos())),
        decreases count - i,
    {
        let ghost before = entries.deep_view();
        match read_entry(reader) {
            Ok(entry) => {
                let ghost model = entry@;
                entries.push(entry);
                proof {
                    assert(entries.deep_view() =~= before.push(model));
                }
            },
            Err(e) => {
                proof {
                    lemma_parse_entries_fails(b, start, (i + 1) as nat, count as nat);
                }
                return Err(e);
            },
        }
        i += 1;
    }
    Ok(entries)
}

/// Parses the header that `data` begins with. Returns the header and the
/// offset at which the chunk payload starts. Fails with `CorruptArchive`
/// exactly when the bytes begin with no complete header. Cross-references
/// are not looked at: see `ArchiveMetadata::validate`.
pub fn parse_metadata(data: &[u8]) -> (r: Result<(ArchiveMetadata, usize), DzipError>)
    ensures
        match r {
            Ok((meta, payload_start)) => parse_header(data@) == Some(
                (meta@, payload_start as int),
            ) && payload_start <= data@.len(),
            Err(e) => e == DzipError::CorruptArchive && parse_header(data@) is None,
        },
{
    let mut reader = ByteReader::new(data);
    let version = read_count(&mut reader)?;
    let directories = read_name_table(&mut reader)?;
    let user_files = read_name_table(&mut reader)?;
    let raw_chunks = read_chunk_table(&mut reader)?;
    let map_entries = read_entry_table(&mut reader)?;
    let payload_start = reader.position();
    Ok((ArchiveMetadata { version, directories, user_files, raw_chunks, map_entries }, payload_start))
}

impl ArchiveMetadata {
    /// Loads the header of the archive of a source: reads the archive,
    /// parses its header and checks it against the payload behind it. What
    /// the source hands over decides: a header comes back only where the
    /// bytes it gave begin with that header and the header passes the
    /// check. `CorruptArchive` where they do not; `IoContext` where the
    /// source fails.
    pub fn load(source: &dyn UnpackSource) -> (r: Result<ArchiveMetadata, DzipError>)
        ensures
            match r {
                Ok(meta) => meta@.encodable() && meta@.references_valid() && exists|
                    bytes: Seq<u8>,
                | #[trigger] loads_as(bytes, meta@),
                Err(e) => e@ is IoContext || e@ is CorruptArchive,
            },
    {
        let bytes = read_archive(source)?;
        let (meta, payload_start) = parse_metadata(bytes.as_slice())?;
        proof {
            lemma_parsed_header_encodable(bytes@);
        }
        meta.validate(bytes.len() - payload_start)?;
        assert(loads_as(bytes@, meta@));
        Ok(meta)
    }

    /// Checks the cross-references of the header and that the payload holds
    /// the stored bytes of every chunk: succeeds exactly when every file
    /// index, directory index and chunk identifier of every map entry is in
    /// range, no chunk identifier is used twice, and the stored lengths add
    /// up to no more than `payload_len`. Fails with `CorruptArchive`
    /// otherwise.
    pub fn validate(&self, payload_len: usize) -> (r: Result<(), DzipError>)
        ensures
            match r {
                Ok(_) => self@.references_valid() && self@.stored_total() <= payload_len,
                Err(e) => e == DzipError::CorruptArchive && !(self@.references_valid()
                    && self@.stored_total() <= payload_len),
            },
    {
        let ghost chunks = self.raw_chunks@;
        let mut known: Vec<bool> = vec![false; 65536];
        let mut total: usize = 0;
        let mut i: usize = 0;
        while i < self.raw_chunks.len()
            invariant
                i <= chunks.len(),
                chunks == self.raw_chunks@,
                known@.len() == 65536,
                forall|id: u16| #[trigger]
                    known@[id as int] <==> has_chunk(chunks.take(i as int), id),
                chunk_ids_unique(chunks.take(i as int)),
                total == stored_prefix(chunks, i as int),
                total <= payload_len,
            decreases chunks.len() - i,
        {
            let chunk = self.raw_chunks[i];
            let ghost seen = chunks.take(i as int);
            let ghost grown = chunks.take(i as int + 1);
            proof {
                assert(grown =~= seen.push(chunk));
                lemma_stored_prefix_monotone(chunks, i as int + 1, chunks.len() as int);
            }
            if known[chunk.id as usize] {
                proof {
                    let a = choose|a: int| 0 <= a < seen.len() && #[trigger] seen[a].id == chunk.id;
                    assert(chunks[a].id == chunks[i as int].id);
                }
                return Err(DzipError::CorruptArchive);
            }
            if chunk.stored_length as usize > payload_len - total {
                return Err(DzipError::CorruptArchive);
            }
            known.set(chunk.id as usize, true);
            total = total + chunk.stored_length as usize;
            proof {
                assert forall|id: u16| #[trigger] known@[id as int] <==> has_chunk(grown, id) by {
                    if has_chunk(grown, id) {
                        let k = choose|k: int| 0 <= k < grown.len() && #[trigger] grown[k].id == id;
                        if k < i {
                            assert(seen[k].id == id);
                        }
                    }
                    if has_chunk(seen, id) {
                        let k = choose|k: int| 0 <= k < seen.len() && #[trigger] seen[k].id == id;
                        assert(grown[k].id == id);
                    }
                    if id == chunk.id {
                        assert(grown[i as int].id == id);
                    }
                }
                assert forall|a: int, b: int|
                    0 <= a < grown.len() && 0 <= b < grown.len() && a != b implies #[trigger] grown[a].id
                    != #[trigger] grown[b].id by {
                    if a < i && b < i {
                        assert(seen[a].id != seen[b].id);
                    } else if a < i {
                        assert(seen[a].id == grown[a].id);
                    } else {
                        assert(seen[b].id == grown[b].id);
                    }
                }
            }
            i += 1;
        }
        proof {
            assert(chunks.take(i as int) =~= chunks);
        }
        let mut n: usize = 0;
        while n < self.map_entries.len()
            invariant
                n <= self.map_entries@.len(),
                chunks == self.raw_chunks@,
                known@.len() == 65536,
                forall|id: u16| #[trigger] known@[id as int] <==> has_chunk(chunks, id),
                forall|k: int|
                    0 <= k < n ==> (#[trigger] self@.map_entries[k]).references_valid(self@),
            decreases self.map_entries@.len() - n,
        {
            let entry = &self.map_entries[n];
            let ghost model = self@.map_entries[n as int];
            assert(model == entry@);
            if entry.file_id as usize >= self.user_files.len() {
                return Err(DzipError::CorruptArchive);
            }
            if entry.dir_idx != CURRENT_DIR_IDX && entry.dir_idx as usize >= self.directories.len() {
                return Err(DzipError::CorruptArchive);
            }
            let mut j: usize = 0;
            while j < entry.chunk_ids.len()
                invariant
                    j <= entry.chunk_ids@.len(),
                    n < self.map_entries@.len(),
                    model == self@.map_entries[n as int],
                    model == entry@,
                    chunks == self.raw_chunks@,
                    known@.len() == 65536,
                    forall|id: u16| #[trigger] known@[id as int] <==> has_chunk(chunks, id),
                    forall|k: int| 0 <= k < j ==> has_chunk(chunks, #[trigger] entry.chunk_ids@[k]),
                decreases entry.chunk_ids@.len() - j,
            {
                let id = entry.chunk_ids[j];
                if !known[id as usize] {
                    proof {
                        assert(!has_chunk(chunks, model.chunk_ids[j as int]));
                        assert(!model.references_valid(self@));
                    }
                    return Err(DzipError::CorruptArchive);
                }
                j += 1;
            }
            assert(model.references_valid(self@));
            n += 1;
        }
        Ok(())
    }
}

} // verus!
