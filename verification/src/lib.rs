//! Sorted-string-table storage layer of a log-structured-merge tree: the
//! block format, the block builder and iterator, and the table index that
//! maps keys to blocks and blocks to byte ranges of the table file.
//!
//! A block is modelled as the sequence of its key-value entries, a table
//! index as the sequence of its per-block entries; every contract is stated
//! over these models and over the byte layouts defined from them.

pub mod block;
pub mod error;
pub mod key;
pub mod table;
pub mod wire;

pub use block::{Block, BlockBuilder, BlockIterator};
pub use error::{ErrorKind, TableError};
pub use table::{BlockFetch, BlockMeta, ReadRequest, SsTable};
