//! The archive: headers, containers, entries, and the laws that hold of them.
pub mod embedding;
pub mod header;
pub mod header_laws;
pub mod image;
pub mod interface;
pub mod laws;
pub mod layout;
pub mod layout_laws;
pub mod node;
pub mod rewrite_laws;
pub mod round_trip;
pub mod state;

pub use header::{MetaData, ResourceHeader, RESOURCE_MAGIC};
pub use interface::PakInterface;
pub use node::{ResourceChild, ResourceNode, ResourceType};
