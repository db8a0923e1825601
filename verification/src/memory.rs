//! Adapters that keep everything in memory.

use crate::bytes::put_bytes;
use crate::io::{IoFailure, PackSink, PackSource, UnpackSink, UnpackSource};
use crate::text::str_eq;
use vstd::prelude::*;
use vstd::slice::{slice_subrange, slice_to_vec};

verus! {

/// An archive held in memory.
pub struct MemoryArchive {
    pub name: String,
    pub bytes: Vec<u8>,
}

impl UnpackSource for MemoryArchive {
    fn name(&self) -> (name: String)
        ensures
            name@ == self.name@,
    {
        self.name.clone()
    }

    fn archive_len(&self) -> (r: Result<usize, IoFailure>)
        ensures
            r == Ok::<usize, IoFailure>(self.bytes@.len() as usize),
    {
        Ok(self.bytes.len())
    }

    /// Fails exactly when the window runs past the end of the archive.
    fn read_window(&self, offset: usize, len: usize) -> (r: Result<Vec<u8>, IoFailure>)
        ensures
            match r {
                Ok(bytes) => offset + len <= self.bytes@.len() && bytes@ == self.bytes@.subrange(
                    offset as int,
                    offset + len,
                ),
                Err(_) => offset + len > self.bytes@.len(),
            },
    {
        if offset > self.bytes.len() || len > self.bytes.len() - offset {
            return Err(IoFailure { cause: "read past the end of the archive".to_string() });
        }
        Ok(slice_to_vec(slice_subrange(self.bytes.as_slice(), offset, offset + len)))
    }
}

/// A file held in memory.
#[derive(Debug, Clone, PartialEq, Eq)]
pub struct MemoryFile {
    pub path: String,
    pub data: Vec<u8>,
}

/// Position of the first file at `path`, from position `from` on.
pub open spec fn find_file(files: Seq<MemoryFile>, path: Seq<char>, from: int) -> Option<int>
    decreases files.len() - from,
{
    if from < 0 || from >= files.len() {
        None
    } else if files[from].path@ == path {
        Some(from)
    } else {
        find_file(files, path, from + 1)
    }
}

/// Finds the first file at `path`.
fn locate(files: &Vec<MemoryFile>, path: &str) -> (r: Option<usize>)
    ensures
        match r {
            Some(at) => find_file(files@, path@, 0) == Some(at as int) && at < files@.len()
                && files@[at as int].path@ == path@,
            None => find_file(files@, path@, 0) is None,
        },
{
    let mut i: usize = 0;
    while i < files.len()
        invariant
            i <= files@.len(),
            find_file(files@, path@, 0) == find_file(files@, path@, i as int),
        decreases files@.len() - i,
    {
        if str_eq(files[i].path.as_str(), path) {
            return Some(i);
        }
        i += 1;
    }
    None
}

/// A directory tree held in memory: a list of files with their paths.
pub struct MemoryTree {
    pub files: Vec<MemoryFile>,
}

impl PackSource for MemoryTree {
    /// Gives the content of the first file at `path`; fails where there is
    /// none.
    fn read_file(&self, path: &str) -> (r: Result<Vec<u8>, IoFailure>)
        ensures
            match r {
                Ok(bytes) => find_file(self.files@, path@, 0) matches Some(at) && bytes@
                    == self.files@[at].data@,
                Err(_) => find_file(self.files@, path@, 0) is None,
            },
    {
        match locate(&self.files, path) {
            Some(at) => Ok(self.files[at].data.clone()),
            None => Err(IoFailure { cause: "no such file".to_string() }),
        }
    }
}

/// A sink that keeps the unpacked files in memory. Bytes appended to a path
/// that is there already go to the end of that file.
pub struct MemoryOutput {
    pub directories: Vec<String>,
    pub files: Vec<MemoryFile>,
}

impl MemoryOutput {
    /// An empty sink.
    pub fn new() -> (sink: Self)
        ensures
            sink.directories@.len() == 0,
            sink.files@.len() == 0,
    {
        MemoryOutput { directories: Vec::new(), files: Vec::new() }
    }
}

impl UnpackSink for MemoryOutput {
    /// Notes the directory, once. Never fails.
    fn create_directory(&mut self, directory: &str) -> (r: Result<(), IoFailure>)
        ensures
            r is Ok,
            final(self).files == old(self).files,
            old(self).directories.deep_view().contains(directory@) ==> final(self).directories
                == old(self).directories,
            !old(self).directories.deep_view().contains(directory@) ==> final(self).directories.deep_view() == old(self).directories.deep_view().push(directory@),
    {
        let ghost names = self.directories.deep_view();
        let mut i: usize = 0;
        while i < self.directories.len()
            invariant
                i <= self.directories@.len(),
                *self == *old(self),
                names == self.directories.deep_view(),
                forall|k: int| 0 <= k < i ==> names[k] != directory@,
            decreases self.directories@.len() - i,
        {
            assert(names[i as int] == self.directories@[i as int]@);
            if str_eq(self.directories[i].as_str(), directory) {
                return Ok(());
            }
            i += 1;
        }
        self.directories.push(directory.to_owned());
        assert(self.directories.deep_view() =~= names.push(directory@));
        Ok(())
    }

    /// Appends to the first file at `path`, or adds a file at the end where
    /// there is none. Never fails.
    fn write_append(&mut self, path: &str, data: &[u8]) -> (r: Result<(), IoFailure>)
        ensures
            r is Ok,
            final(self).directories == old(self).directories,
            match find_file(old(self).files@, path@, 0) {
                Some(at) => {
                    &&& final(self).files@.len() == old(self).files@.len()
                    &&& final(self).files@[at].path@ == path@
                    &&& final(self).files@[at].data@ == old(self).files@[at].data@ + data@
                    &&& forall|k: int|
                        0 <= k < old(self).files@.len() && k != at ==> final(self).files@[k] == old(self).files@[k]
                },
                None => {
                    &&& final(self).files@.len() == old(self).files@.len() + 1
                    &&& final(self).files@.last().path@ == path@
                    &&& final(self).files@.last().data@ == data@
                    &&& forall|k: int|
                        0 <= k < old(self).files@.len() ==> final(self).files@[k] == old(self).files@[k]
                },
            },
    {
        match locate(&self.files, path) {
            Some(at) => {
                let mut joined = self.files[at].data.clone();
                put_bytes(&mut joined, data);
                self.files.set(at, MemoryFile { path: path.to_owned(), data: joined });
            },
            None => {
                self.files.push(MemoryFile { path: path.to_owned(), data: slice_to_vec(data) });
            },
        }
        Ok(())
    }
}

/// A sink that keeps the packed archives in memory.
pub struct MemoryArchives {
    pub archives: Vec<Vec<u8>>,
}

impl PackSink for MemoryArchives {
    fn name(&self) -> (name: String)
        ensures
            name@ == "memory"@,
    {
        "memory".to_owned()
    }

    /// Adds the archive at the end. Never fails.
    fn write_archive(&mut self, bytes: &[u8]) -> (r: Result<(), IoFailure>)
        ensures
            r is Ok,
            final(self).archives.deep_view() == old(self).archives.deep_view().push(bytes@),
    {
        let ghost before = self.archives.deep_view();
        let archive = slice_to_vec(bytes);
        assert(archive.deep_view() =~= bytes@);
        self.archives.push(archive);
        assert(self.archives.deep_view() =~= before.push(bytes@));
        Ok(())
    }
}

} // verus!
