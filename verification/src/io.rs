//! The collaborators of the engines: where archive bytes come from, where
//! unpacked files go, where the files to pack are read, and where a packed
//! archive goes. The engines touch no filesystem; an adapter for one
//! implements these traits, as the in-memory adapters of this library do.
//! Nothing is assumed of what a collaborator returns: the engines check what
//! they are handed.

use crate::error::DzipError;
use vstd::prelude::*;

verus! {

/// A failed read or write of a collaborator.
#[derive(Debug, Clone, PartialEq, Eq)]
pub struct IoFailure {
    /// What went wrong, in the collaborator's words.
    pub cause: String,
}

/// A source of the bytes of one archive.
pub trait UnpackSource {
    /// Name of the archive, for error messages.
    fn name(&self) -> String;

    /// Length of the archive in bytes.
    fn archive_len(&self) -> Result<usize, IoFailure>;

    /// Reads `len` bytes of the archive from `offset` on.
    fn read_window(&self, offset: usize, len: usize) -> Result<Vec<u8>, IoFailure>;
}

/// A sink for the files of an unpacked archive.
pub trait UnpackSink {
    /// Creates the directory `directory`, or finds it there.
    fn create_directory(&mut self, directory: &str) -> Result<(), IoFailure>;

    /// Appends `data` to the file at `path`, creating it where it is not
    /// there.
    fn write_append(&mut self, path: &str, data: &[u8]) -> Result<(), IoFailure>;
}

/// A source of the contents of the files to pack.
pub trait PackSource {
    /// Reads the file at `path`.
    fn read_file(&self, path: &str) -> Result<Vec<u8>, IoFailure>;
}

/// A sink for packed archives.
pub trait PackSink {
    /// Name of the sink, for error messages.
    fn name(&self) -> String;

    /// Takes a complete archive.
    fn write_archive(&mut self, bytes: &[u8]) -> Result<(), IoFailure>;
}

/// Reads all the bytes of the archive of a source: asks for its length and
/// then for a window of that length. A failure of the source, or a window
/// of another length than asked for, comes back as `IoContext` with the
/// name of the source.
pub fn read_archive(source: &dyn UnpackSource) -> (r: Result<Vec<u8>, DzipError>)
    ensures
        r matches Err(e) ==> e@ is IoContext,
{
    let len = match source.archive_len() {
        Ok(len) => len,
        Err(failure) => {
            return Err(DzipError::IoContext(source.name(), failure.cause));
        },
    };
    match accept_window(len, source.read_window(0, len)) {
        Ok(bytes) => Ok(bytes),
        Err(failure) => Err(DzipError::IoContext(source.name(), failure.cause)),
    }
}

/// Accepts what a source returned for a window of `asked` bytes: the bytes,
/// where there are exactly `asked` of them; the failure of the source,
/// where it failed; and a short read, where it returned another number of
/// bytes.
pub fn accept_window(asked: usize, window: Result<Vec<u8>, IoFailure>) -> (r: Result<
    Vec<u8>,
    IoFailure,
>)
    ensures
        match window {
            Ok(bytes) => if bytes@.len() == asked {
                r == Ok::<Vec<u8>, IoFailure>(bytes)
            } else {
                r matches Err(failure) && failure.cause@ == "short read"@
            },
            Err(failure) => r == Err::<Vec<u8>, IoFailure>(failure),
        },
{
    match window {
        Ok(bytes) => if bytes.len() == asked {
            Ok(bytes)
        } else {
            Err(IoFailure { cause: "short read".to_owned() })
        },
        Err(failure) => Err(failure),
    }
}

/// A request that a sink took.
pub enum SinkEvent {
    /// The directory was created, or was found to be there.
    Directory(Seq<char>),
    /// The bytes were appended to the file at the path.
    Append(Seq<char>, Seq<u8>),
    /// The bytes were taken as a complete archive.
    Archive(Seq<u8>),
}

/// A sink with the record of the requests that it took: every request that
/// the sink answered with success, in the order in which they were made. A
/// request that the sink answered with a failure is not in the record. The
/// sink is reached through the record alone, so that nothing is asked of it
/// that the record does not hold.
pub struct Recorded<K> {
    sink: K,
    taken: Ghost<Seq<SinkEvent>>,
}

impl<K> Recorded<K> {
    /// The sink.
    pub closed spec fn sink(&self) -> K {
        self.sink
    }

    /// The requests that the sink took, in order.
    pub closed spec fn taken(&self) -> Seq<SinkEvent> {
        self.taken@
    }

    /// Starts an empty record for `sink`.
    pub fn new(sink: K) -> (recorded: Self)
        ensures
            recorded.sink() == sink,
            recorded.taken() == Seq::<SinkEvent>::empty(),
    {
        Recorded { sink, taken: Ghost(Seq::empty()) }
    }

    /// Shows the sink.
    pub fn inner(&self) -> (sink: &K)
        ensures
            *sink == self.sink(),
    {
        &self.sink
    }

    /// Gives the sink back.
    pub fn into_inner(self) -> (sink: K)
        ensures
            sink == self.sink(),
    {
        self.sink
    }
}

impl<K: UnpackSink> Recorded<K> {
    /// Asks the sink to create the directory `directory`, and records the
    /// request where the sink took it.
    pub fn create_directory(&mut self, directory: &str) -> (r: Result<(), IoFailure>)
        ensures
            r is Ok ==> final(self).taken() == old(self).taken().push(
                SinkEvent::Directory(directory@),
            ),
            r is Err ==> final(self).taken() == old(self).taken(),
    {
        let reply = self.sink.create_directory(directory);
        if reply.is_ok() {
            self.taken = Ghost(self.taken@.push(SinkEvent::Directory(directory@)));
        }
        reply
    }

    /// Asks the sink to append `data` to the file at `path`, and records the
    /// request where the sink took it.
    pub fn write_append(&mut self, path: &str, data: &[u8]) -> (r: Result<(), IoFailure>)
        ensures
            r is Ok ==> final(self).taken() == old(self).taken().push(
                SinkEvent::Append(path@, data@),
            ),
            r is Err ==> final(self).taken() == old(self).taken(),
    {
        let reply = self.sink.write_append(path, data);
        if reply.is_ok() {
            self.taken = Ghost(self.taken@.push(SinkEvent::Append(path@, data@)));
        }
        reply
    }
}

impl<K: PackSink> Recorded<K> {
    /// Name of the sink, for error messages.
    pub fn name(&self) -> String {
        self.sink.name()
    }

    /// Asks the sink to take the complete archive `bytes`, and records the
    /// request where the sink took it.
    pub fn write_archive(&mut self, bytes: &[u8]) -> (r: Result<(), IoFailure>)
        ensures
            r is Ok ==> final(self).taken() == old(self).taken().push(SinkEvent::Archive(bytes@)),
            r is Err ==> final(self).taken() == old(self).taken(),
    {
        let reply = self.sink.write_archive(bytes);
        if reply.is_ok() {
            self.taken = Ghost(self.taken@.push(SinkEvent::Archive(bytes@)));
        }
        reply
    }
}

} // verus!
