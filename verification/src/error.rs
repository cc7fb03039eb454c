//! What can be wrong with the bytes of a table.

use vstd::prelude::*;

verus! {

/// The ways in which stored bytes fail to be what they should be.
#[derive(Clone, Copy, Debug, PartialEq, Eq, Structural)]
pub enum ErrorKind {
    /// The bytes of a block are no block: a count, an offset or a length in
    /// them disagrees with the bytes that are there.
    CorruptBlock,
    /// The footer points outside the file, or the index region is no index.
    CorruptFooter,
    /// A read gave another number of bytes than was asked for.
    ShortRead,
    /// An entry that no block can hold: its key is empty, or its key or
    /// its value is longer than a 16-bit length can say.
    InvalidEntry,
}

/// An error on a table, with the table and the file position it concerns.
#[derive(Clone, Copy, Debug, PartialEq, Eq, Structural)]
pub struct TableError {
    pub kind: ErrorKind,
    /// The table's identifier.
    pub table_id: usize,
    /// Where in the file the region begins that was found wrong.
    pub offset: u64,
}

} // verus!
