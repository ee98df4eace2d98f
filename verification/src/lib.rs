//! Reading, changing and rewriting hierarchical `pak` archives.
//!
//! An archive is a tree of containers. Each container holds named
//! entries: raw data, typed resources, nested containers, and links to
//! earlier entries. `PakInterface::open` reads the tree from a seekable
//! stream, leaving the bytes of the entries in the stream until they are
//! asked for. Entries can be renamed and their bytes replaced.
//! `PakInterface::save` writes the archive to another stream: whatever has
//! not changed is copied byte for byte, and only the containers on the way
//! to a change are laid out anew.
pub mod error;
pub mod memory;
pub mod pakinterface;
pub mod shell;
pub mod span;
pub mod util;

pub use error::{FormatError, PakError, StreamError, UsageError};
pub use memory::MemoryStream;
pub use pakinterface::{
    MetaData, PakInterface, ResourceChild, ResourceHeader, ResourceNode, ResourceType,
    RESOURCE_MAGIC,
};
pub use util::{string_length, u32_from_str, BinaryStream};
