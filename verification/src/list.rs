//! The list engine: an inventory of an archive, taken from its header alone.

use crate::error::{DzipError, ErrorKind};
use crate::format::CURRENT_DIR_STR;
use crate::io::{read_archive, UnpackSource};
use crate::model::{ArchiveMetadata, ArchiveModel, MapEntryModel, RawChunk};
use crate::reader::{lemma_parsed_header_encodable, parse_header, parse_metadata};
use crate::text::{join_path, make_path};
use std::collections::HashMap;
use vstd::prelude::*;

verus! {

broadcast use vstd::std_specs::hash::group_hash_axioms;

/// One line of the inventory of an archive.
#[derive(Debug, Clone, PartialEq, Eq)]
pub struct ListEntry {
    /// Path of the file, components separated by `/`.
    pub path: String,
    /// Length of the file's content: the decoded lengths of its chunks.
    pub original_size: u64,
    /// Number of chunk identifiers of the file.
    pub chunk_count: usize,
}

/// Mathematical value of a `ListEntry`.
pub struct ListEntryModel {
    pub path: Seq<char>,
    pub original_size: nat,
    pub chunk_count: nat,
}

impl View for ListEntry {
    type V = ListEntryModel;

    open spec fn view(&self) -> ListEntryModel {
        ListEntryModel {
            path: self.path@,
            original_size: self.original_size as nat,
            chunk_count: self.chunk_count as nat,
        }
    }
}

impl DeepView for ListEntry {
    type V = ListEntryModel;

    open spec fn deep_view(&self) -> ListEntryModel {
        self@
    }
}

/// The chunk that the identifier `id` resolves to: the last record of the
/// table with that identifier, `None` where there is none.
pub open spec fn lookup_chunk(chunks: Seq<RawChunk>, id: u16) -> Option<RawChunk>
    decreases chunks.len(),
{
    if chunks.len() == 0 {
        None
    } else if chunks.last().id == id {
        Some(chunks.last())
    } else {
        lookup_chunk(chunks.drop_last(), id)
    }
}

/// Sum of the decoded lengths of the chunks that `ids` resolve to. An
/// identifier that resolves to no chunk adds nothing.
pub open spec fn resolvable_size(chunks: Seq<RawChunk>, ids: Seq<u16>) -> nat
    decreases ids.len(),
{
    if ids.len() == 0 {
        0
    } else {
        let rest = resolvable_size(chunks, ids.drop_last());
        match lookup_chunk(chunks, ids.last()) {
            Some(chunk) => rest + chunk.decoded_length as nat,
            None => rest,
        }
    }
}

/// The directory string of a directory index. An index outside the table
/// stands for the current directory.
pub open spec fn directory_of(directories: Seq<Seq<char>>, dir_idx: u32) -> Seq<char> {
    if (dir_idx as int) < directories.len() {
        directories[dir_idx as int]
    } else {
        CURRENT_DIR_STR@
    }
}

/// Full path of a map entry: its directory and its filename, joined.
pub open spec fn entry_path(archive: ArchiveModel, entry: MapEntryModel) -> Seq<char> {
    join_path(
        directory_of(archive.directories, entry.dir_idx),
        archive.user_files[entry.file_id as int],
    )
}

/// The inventory line of one map entry.
pub open spec fn list_entry_of(archive: ArchiveModel, entry: MapEntryModel) -> ListEntryModel {
    ListEntryModel {
        path: entry_path(archive, entry),
        original_size: resolvable_size(archive.raw_chunks, entry.chunk_ids),
        chunk_count: entry.chunk_ids.len(),
    }
}

/// The inventory of an archive: one line per map entry, in table order.
pub open spec fn list_spec(archive: ArchiveModel) -> Seq<ListEntryModel> {
    Seq::new(
        archive.map_entries.len(),
        |i: int| list_entry_of(archive, archive.map_entries[i]),
    )
}

/// Whether every map entry names a file of the filename table.
pub open spec fn files_resolvable(archive: ArchiveModel) -> bool {
    forall|i: int|
        0 <= i < archive.map_entries.len() ==> ((#[trigger] archive.map_entries[i]).file_id as int)
            < archive.user_files.len()
}

/// Whether a map entry can be listed: it names a file of the filename
/// table, and the size of its file fits 64 bits.
pub open spec fn entry_listable(archive: ArchiveModel, entry: MapEntryModel) -> bool {
    &&& (entry.file_id as int) < archive.user_files.len()
    &&& resolvable_size(archive.raw_chunks, entry.chunk_ids) <= u64::MAX
}

/// Whether every map entry can be listed.
pub open spec fn listable(archive: ArchiveModel) -> bool {
    forall|i: int|
        0 <= i < archive.map_entries.len() ==> entry_listable(
            archive,
            #[trigger] archive.map_entries[i],
        )
}

/// The size of a part of a file is at most the size of the file.
pub proof fn lemma_resolvable_size_grows(chunks: Seq<RawChunk>, ids: Seq<u16>, k: int)
    requires
        0 <= k <= ids.len(),
    ensures
        resolvable_size(chunks, ids.take(k)) <= resolvable_size(chunks, ids),
    decreases ids.len() - k,
{
    if k < ids.len() {
        assert(ids.drop_last().take(k) =~= ids.take(k));
        lemma_resolvable_size_grows(chunks, ids.drop_last(), k);
    } else {
        assert(ids.take(k) =~= ids);
    }
}

/// In a header that fits the limits of the format, the size of every file
/// fits 64 bits: listing it fails only on a file that cannot be resolved.
pub proof fn lemma_encodable_listable(archive: ArchiveModel)
    requires
        archive.encodable(),
    ensures
        listable(archive) == files_resolvable(archive),
{
    assert forall|i: int| 0 <= i < archive.map_entries.len() implies resolvable_size(
        archive.raw_chunks,
        (#[trigger] archive.map_entries[i]).chunk_ids,
    ) <= u64::MAX by {
        let ids = archive.map_entries[i].chunk_ids;
        lemma_resolvable_size_bound(archive.raw_chunks, ids);
        assert(ids.len() * u32::MAX <= u32::MAX * u32::MAX) by (nonlinear_arith)
            requires
                ids.len() <= u32::MAX,
        ;
    }
}

/// The size of a file is at most 32 bits for each of its chunks.
pub proof fn lemma_resolvable_size_bound(chunks: Seq<RawChunk>, ids: Seq<u16>)
    ensures
        resolvable_size(chunks, ids) <= ids.len() * u32::MAX,
    decreases ids.len(),
{
    if ids.len() > 0 {
        lemma_resolvable_size_bound(chunks, ids.drop_last());
        assert(ids.len() * u32::MAX == ids.drop_last().len() * u32::MAX + u32::MAX)
            by (nonlinear_arith)
            requires
                ids.drop_last().len() == ids.len() - 1,
        ;
    }
}

/// Whether `lookup` maps each identifier to the decoded length of the chunk
/// that it resolves to, and holds no other identifier.
pub open spec fn lookup_agrees(lookup: Map<u16, u32>, chunks: Seq<RawChunk>) -> bool {
    forall|id: u16|
        #![trigger lookup.contains_key(id)]
        #![trigger lookup_chunk(chunks, id)]
        match lookup_chunk(chunks, id) {
            Some(chunk) => lookup.contains_key(id) && lookup[id] == chunk.decoded_length,
            None => !lookup.contains_key(id),
        }
}

/// Builds the lookup from chunk identifier to decoded length.
fn build_lookup(chunks: &Vec<RawChunk>) -> (lookup: HashMap<u16, u32>)
    ensures
        lookup_agrees(lookup@, chunks@),
{
    let mut lookup: HashMap<u16, u32> = HashMap::new();
    let mut i: usize = 0;
    while i < chunks.len()
        invariant
            i <= chunks@.len(),
            lookup_agrees(lookup@, chunks@.take(i as int)),
        decreases chunks@.len() - i,
    {
        let chunk = chunks[i];
        proof {
            let grown = chunks@.take(i as int + 1);
            assert(grown.drop_last() =~= chunks@.take(i as int));
            assert(grown.last() == chunk);
        }
        lookup.insert(chunk.id, chunk.decoded_length);
        i += 1;
    }
    proof {
        assert(chunks@.take(i as int) =~= chunks@);
    }
    lookup
}

/// Lists an archive from its header: for each map entry, in table order,
/// its full path, the sum of the decoded lengths of its chunks, and the
/// number of its chunk identifiers. A chunk identifier that no chunk has is
/// skipped in the sum. Fails with `CorruptArchive` exactly when a map entry
/// names a file that the filename table does not hold, or the size of a
/// file exceeds 64 bits.
pub fn list_entries(meta: &ArchiveMetadata) -> (r: Result<Vec<ListEntry>, DzipError>)
    ensures
        match r {
            Ok(entries) => listable(meta@) && entries.deep_view() == list_spec(meta@),
            Err(e) => e == DzipError::CorruptArchive && !listable(meta@),
        },
{
    let lookup = build_lookup(&meta.raw_chunks);
    let mut entries: Vec<ListEntry> = Vec::new();
    let mut i: usize = 0;
    while i < meta.map_entries.len()
        invariant
            i <= meta.map_entries@.len(),
            lookup_agrees(lookup@, meta.raw_chunks@),
            forall|k: int| 0 <= k < i ==> entry_listable(meta@, #[trigger] meta@.map_entries[k]),
            entries.deep_view() == Seq::new(
                i as nat,
                |k: int| list_entry_of(meta@, meta@.map_entries[k]),
            ),
        decreases meta.map_entries@.len() - i,
    {
        let entry = &meta.map_entries[i];
        let ghost model = meta@.map_entries[i as int];
        assert(model == entry@);
        if entry.file_id as usize >= meta.user_files.len() {
            assert(!entry_listable(meta@, model));
            return Err(DzipError::CorruptArchive);
        }
        let name = &meta.user_files[entry.file_id as usize];
        assert(name@ == meta@.user_files[entry.file_id as int]);
        let path = if (entry.dir_idx as usize) < meta.directories.len() {
            let dir = &meta.directories[entry.dir_idx as usize];
            assert(dir@ == meta@.directories[entry.dir_idx as int]);
            make_path(dir.as_str(), name.as_str())
        } else {
            make_path(CURRENT_DIR_STR, name.as_str())
        };
        let mut total: u64 = 0;
        let mut j: usize = 0;
        proof {
            assert(entry.chunk_ids@.take(0) =~= Seq::<u16>::empty());
        }
        while j < entry.chunk_ids.len()
            invariant
                j <= entry.chunk_ids@.len(),
                i < meta.map_entries@.len(),
                model == meta@.map_entries[i as int],
                model == entry@,
                lookup_agrees(lookup@, meta.raw_chunks@),
                total == resolvable_size(meta.raw_chunks@, entry.chunk_ids@.take(j as int)),
            decreases entry.chunk_ids@.len() - j,
        {
            let id = entry.chunk_ids[j];
            proof {
                let grown = entry.chunk_ids@.take(j as int + 1);
                assert(grown.drop_last() =~= entry.chunk_ids@.take(j as int));
                assert(grown.last() == id);
                lemma_resolvable_size_grows(meta.raw_chunks@, entry.chunk_ids@, j as int + 1);
            }
            match lookup.get(&id) {
                Some(length) => match total.checked_add(*length as u64) {
                    Some(sum) => {
                        total = sum;
                    },
                    None => {
                        assert(!entry_listable(meta@, model));
                        return Err(DzipError::CorruptArchive);
                    },
                },
                None => {},
            }
            j += 1;
        }
        proof {
            assert(entry.chunk_ids@.take(j as int) =~= entry.chunk_ids@);
        }
        let ghost before = entries.deep_view();
        let line = ListEntry { path, original_size: total, chunk_count: entry.chunk_ids.len() };
        proof {
            assert(line@ == list_entry_of(meta@, model));
        }
        entries.push(line);
        i += 1;
        proof {
            assert(entries.deep_view() =~= before.push(line@));
            assert(entries.deep_view() =~= Seq::new(
                i as nat,
                |k: int| list_entry_of(meta@, meta@.map_entries[k]),
            ));
        }
    }
    Ok(entries)
}

/// What listing the bytes of an archive gives: `CorruptArchive` where the
/// bytes begin with no complete header or a map entry names a file that the
/// filename table does not hold; else the inventory of the header. Chunk
/// references are not checked.
pub open spec fn list_archive_spec(bytes: Seq<u8>) -> Result<Seq<ListEntryModel>, ErrorKind> {
    match parse_header(bytes) {
        None => Err(ErrorKind::CorruptArchive),
        Some((archive, _)) => if files_resolvable(archive) {
            Ok(list_spec(archive))
        } else {
            Err(ErrorKind::CorruptArchive)
        },
    }
}

/// Lists the bytes of an archive: loads the header and lists it. The chunk
/// payload is not looked at.
pub fn list_archive(bytes: &[u8]) -> (r: Result<Vec<ListEntry>, DzipError>)
    ensures
        match r {
            Ok(entries) => list_archive_spec(bytes@) == Ok::<Seq<ListEntryModel>, ErrorKind>(
                entries.deep_view(),
            ),
            Err(e) => list_archive_spec(bytes@) == Err::<Seq<ListEntryModel>, ErrorKind>(e@),
        },
{
    let (meta, _) = parse_metadata(bytes)?;
    proof {
        lemma_parsed_header_encodable(bytes@);
        lemma_encodable_listable(meta@);
    }
    list_entries(&meta)
}

/// Lists the archive of a source: reads it, loads its header and lists it.
/// What the source hands over decides: the result is that of
/// `list_archive` on the bytes it gave, or `IoContext` where it fails.
pub fn do_list(source: &dyn UnpackSource) -> (r: Result<Vec<ListEntry>, DzipError>)
    ensures
        match r {
            Ok(entries) => exists|bytes: Seq<u8>| #[trigger]
                list_archive_spec(bytes) == Ok::<Seq<ListEntryModel>, ErrorKind>(
                    entries.deep_view(),
                ),
            Err(e) => e@ is IoContext || e@ is CorruptArchive,
        },
{
    let bytes = read_archive(source)?;
    list_archive(bytes.as_slice())
}

} // verus!
