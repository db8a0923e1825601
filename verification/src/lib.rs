//! Archive engine for the dzip container format: the binary metadata model,
//! the chunk flag scheme, and the pack, unpack and list operations.
//!
//! An archive is a header followed by a payload. The header is a version,
//! a table of directories, a table of filenames, a table of chunks and a
//! table of map entries, each of which makes a file out of a directory, a
//! filename and a list of chunks. The payload holds the stored bytes of the
//! chunks, one after the other. Files with the same content share chunks.

pub mod bytes;
pub mod codec;
pub mod error;
pub mod format;
pub mod io;
pub mod laws;
pub mod list;
pub mod memory;
pub mod model;
pub mod pack;
pub mod reader;
pub mod text;
pub mod unpack;
pub mod utils;
pub mod writer;

pub use crate::codec::create_default_registry;
pub use crate::error::{DzipError, Result};
pub use crate::io::Recorded;
pub use crate::list::{do_list, ListEntry};
pub use crate::pack::do_pack;
pub use crate::unpack::do_unpack;
