//! Error taxonomy of the archive engine.

use vstd::prelude::*;

verus! {

/// Everything that can go wrong in a pack, unpack or list operation.
#[derive(Debug, Clone, PartialEq, Eq)]
pub enum DzipError {
    /// The archive header is structurally broken: a count runs past the end
    /// of the data, a string is malformed, or a cross-reference is out of range.
    CorruptArchive,
    /// A chunk could not be encoded or decoded by the codec its flags select.
    CodecError { file: String, chunk_id: u16 },
    /// A collaborator failed to read or write; holds the path and the cause.
    IoContext(String, String),
    /// The config document could not be parsed or written.
    ConfigFormat(String),
    /// A precondition on the input does not hold, such as a filename that
    /// cannot be resolved.
    Generic(String),
}

/// Result of an operation of the archive engine.
pub type Result<T> = core::result::Result<T, DzipError>;

/// What an error says, without the wording of its messages.
pub enum ErrorKind {
    CorruptArchive,
    CodecError { file: Seq<char>, chunk_id: u16 },
    IoContext { path: Seq<char> },
    ConfigFormat,
    Generic,
}

impl View for DzipError {
    type V = ErrorKind;

    open spec fn view(&self) -> ErrorKind {
        match self {
            DzipError::CorruptArchive => ErrorKind::CorruptArchive,
            DzipError::CodecError { file, chunk_id } => ErrorKind::CodecError {
                file: file@,
                chunk_id: *chunk_id,
            },
            DzipError::IoContext(path, _) => ErrorKind::IoContext { path: path@ },
            DzipError::ConfigFormat(_) => ErrorKind::ConfigFormat,
            DzipError::Generic(_) => ErrorKind::Generic,
        }
    }
}

impl DzipError {
    /// The text that `message` gives for the error.
    pub open spec fn message_text(&self) -> Seq<char> {
        match self {
            DzipError::CorruptArchive => "corrupt archive"@,
            DzipError::CodecError { file, chunk_id } => "codec failure in "@ + file@,
            DzipError::IoContext(path, cause) => path@ + ": "@ + cause@,
            DzipError::ConfigFormat(cause) => "config format: "@ + cause@,
            DzipError::Generic(cause) => cause@,
        }
    }

    /// One-line description of the error, for the outermost caller to print.
    pub fn message(&self) -> (text: String)
        ensures
            text@ == self.message_text(),
    {
        match self {
            DzipError::CorruptArchive => "corrupt archive".to_owned(),
            DzipError::CodecError { file, chunk_id: _ } => {
                let mut text = "codec failure in ".to_owned();
                text.append(file.as_str());
                text
            },
            DzipError::IoContext(path, cause) => {
                let mut text = path.clone();
                text.append(": ");
                text.append(cause.as_str());
                text
            },
            DzipError::ConfigFormat(cause) => {
                let mut text = "config format: ".to_owned();
                text.append(cause.as_str());
                text
            },
            DzipError::Generic(cause) => cause.clone(),
        }
    }
}

} // verus!
