//! Reading ZIM archives.
//!
//! An archive is a header, a list of MIME types, lists of pointers, directory entries, and
//! clusters of compressed contents. [`store::Store`] presents its bytes, which may be spread over
//! several files, as one address space, and [`zim::Zim`] reads them.
pub mod checksum;
pub mod chunks;
pub mod cluster;
pub mod codec;
pub mod content;
pub mod directory_entry;
pub mod directory_iterator;
pub mod errors;
pub mod extract;
pub mod header;
pub mod laws;
pub mod lookup;
pub mod mime_type;
pub mod namespace;
pub mod path_order;
pub mod pointers;
pub mod raw;
pub mod redirect;
pub mod report;
pub mod store;
mod text;
pub mod uuid;
pub mod zim;

pub use crate::cluster::{Blob, Cluster, Compression};
pub use crate::content::{Content, Listing};
pub use crate::directory_entry::{DirectoryEntry, Target};
pub use crate::directory_iterator::DirectoryIterator;
pub use crate::errors::{Error, Result};
pub use crate::header::ZimHeader;
pub use crate::mime_type::MimeType;
pub use crate::namespace::Namespace;
pub use crate::store::Store;
pub use crate::uuid::Uuid;
pub use crate::zim::Zim;
