//! Pages: the in-memory page store of the tree, and the header of a database file.

pub mod header;
mod store;

pub use header::{encoding_name, parse, DbHeader, HeaderError, HEADER_SIZE, MAGIC};
pub use store::PageManager;
