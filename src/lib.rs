//! Object storage and retrieval core: content identifiers, the loose-object
//! codec, the tree entry decoder and path lookup over any object source.

pub mod config;
pub mod error;
pub mod find;
pub mod loose;
pub mod memory;
pub mod oid;
pub mod tree;
pub mod tree_laws;

pub use config::{File, Source};
pub use error::{Error, ObjectKind};
pub use find::{expect_kind, lookup_entry_by_path, lookup_level_step, Find, Level};
pub use loose::{decode_loose, loose_path, parse_loose, DecodedObject};
pub use memory::MemoryStore;
pub use oid::{ObjectId, OidError};
pub use tree::{encode_tree, DecodeState, Entry, EntryKind, TreeRefIter};
