//! Blocks: the unit in which a table is read and cached.
//!
//! A block holds sorted key-value entries, densely packed, and an index of
//! the positions at which they begin. Once built or decoded it never
//! changes.

use vstd::prelude::*;
use vstd::slice::{slice_subrange, slice_to_vec};
use bytes::Bytes;
use crate::error::ErrorKind;
use crate::wire::{bytes_from_vec, contents, get_u16, put_u16, u16_at, u16_bytes};
use crate::block::format::{
    block_bytes, block_len, data_end, declared_count, entries_of, entry_end, entry_fits, key_len_at,
    layout_ok, lemma_block_len, lemma_layout_is_encoding, lemma_valid_entries_count, offsets_bytes, offsets_in,
    parse_block, valid_entries, value_len_at, Entry,
};

pub mod builder;
pub mod format;
pub mod iterator;
pub mod search;

pub use builder::BlockBuilder;
pub use iterator::BlockIterator;

verus! {

/// The width in bytes of a length, an offset or a count in a block.
pub const SIZE_OF_U16: usize = 2;

/// A sequence of key-value entries as it is stored: the entry data and the
/// position at which each entry begins.
pub struct Block {
    pub(crate) data: Vec<u8>,
    pub(crate) offsets: Vec<u16>,
}

impl View for Block {
    type V = Seq<Entry>;

    /// The entries of the block, in the order in which they are stored.
    open(crate) spec fn view(&self) -> Seq<Entry> {
        entries_of(self.data@, self.offsets@)
    }
}

impl Block {
    /// The offsets index the entry data exactly.
    pub open(crate) spec fn wf(&self) -> bool {
        layout_ok(self.data@, self.offsets@)
    }

    /// The entries of a well-formed block are entries that a block can
    /// hold.
    pub proof fn lemma_valid(&self)
        requires
            self.wf(),
        ensures
            valid_entries(self@),
    {
        lemma_layout_is_encoding(self.data@, self.offsets@);
    }

    /// The block as bytes: the entry data, the offsets, the number of
    /// entries.
    pub fn encode(&self) -> (r: Bytes)
        requires
            self.wf(),
        ensures
            contents(r) == block_bytes(self@),
            contents(r).len() == block_len(self@),
    {
        proof {
            lemma_block_len(self@);
            lemma_layout_is_encoding(self.data@, self.offsets@);
            lemma_valid_entries_count(self@);
        }
        let mut buf = self.data.clone();
        assert(buf@ =~= self.data@);
        let offsets_len = self.offsets.len();
        let mut i: usize = 0;
        while i < offsets_len
            invariant
                offsets_len == self.offsets@.len(),
                i <= offsets_len,
                buf@ == self.data@ + offsets_bytes(self.offsets@.take(i as int)),
            decreases offsets_len - i,
        {
            put_u16(&mut buf, self.offsets[i]);
            proof {
                assert(self.offsets@.take(i + 1).drop_last() =~= self.offsets@.take(i as int));
                assert(buf@ =~= self.data@ + offsets_bytes(self.offsets@.take(i + 1)));
            }
            i += 1;
        }
        assert(self.offsets@.take(offsets_len as int) =~= self.offsets@);
        put_u16(&mut buf, offsets_len as u16);
        bytes_from_vec(buf)
    }

    /// Reads a block from its bytes, or finds that they are no block.
    pub fn decode(data: &[u8]) -> (r: Result<Block, ErrorKind>)
        ensures
            match r {
                Ok(block) => block.wf() && parse_block(data@) == Some(block@),
                Err(e) => e == ErrorKind::CorruptBlock && parse_block(data@) is None,
            },
    {
        proof {
            reveal(layout_ok);
        }
        let len = data.len();
        if len < SIZE_OF_U16 {
            return Err(ErrorKind::CorruptBlock);
        }
        let count = get_u16(slice_subrange(data, len - SIZE_OF_U16, len)) as usize;
        assert(count == declared_count(data@));
        if count > (len - SIZE_OF_U16) / SIZE_OF_U16 {
            return Err(ErrorKind::CorruptBlock);
        }
        let limit = len - SIZE_OF_U16 - count * SIZE_OF_U16;
        assert(limit == data_end(data@));
        let ghost entry_data = data@.take(limit as int);
        let mut offsets: Vec<u16> = Vec::new();
        let mut i: usize = 0;
        while i < count
            invariant
                i <= count,
                count == declared_count(data@),
                limit == data_end(data@),
                len == data@.len(),
                limit + 2 * count + 2 == len,
                offsets@ == offsets_in(data@).take(i as int),
            decreases count - i,
        {
            proof {
                reveal(layout_ok);
            }
            let at = limit + i * SIZE_OF_U16;
            let offset = get_u16(slice_subrange(data, at, len));
            offsets.push(offset);
            proof {
                assert(offsets@ =~= offsets_in(data@).take(i + 1));
            }
            i += 1;
        }
        assert(offsets@ =~= offsets_in(data@));
        if count == 0 {
            if limit != 0 {
                return Err(ErrorKind::CorruptBlock);
            }
        } else if offsets[0] != 0 {
            return Err(ErrorKind::CorruptBlock);
        }
        let mut i: usize = 0;
        while i < count
            invariant
                i <= count,
                count == offsets@.len(),
                data@.len() >= 2,
                limit == data_end(data@),
                offsets@ == offsets_in(data@),
                entry_data == data@.take(limit as int),
                count == 0 ==> limit == 0,
                count > 0 ==> offsets@[0] == 0,
                forall|j: int| 0 <= j < i ==> entry_fits(entry_data, #[trigger] offsets@[j] as int),
                forall|j: int, k: int|
                    0 <= j < i && k == j + 1 && k < count ==> entry_end(
                        entry_data,
                        #[trigger] offsets@[j] as int,
                    ) == #[trigger] offsets@[k],
                i == count && count > 0 ==> entry_end(entry_data, offsets@[count - 1] as int)
                    == limit,
            decreases count - i,
        {
            proof {
                reveal(layout_ok);
            }
            let start = offsets[i] as usize;
            if limit < 4 || start > limit - 4 {
                assert(!entry_fits(entry_data, offsets@[i as int] as int));
                return Err(ErrorKind::CorruptBlock);
            }
            let key_len = get_u16(slice_subrange(data, start, limit)) as usize;
            assert(key_len == key_len_at(entry_data, start as int));
            if key_len == 0 || key_len > limit - 4 - start {
                assert(!entry_fits(entry_data, offsets@[i as int] as int));
                return Err(ErrorKind::CorruptBlock);
            }
            let value_len = get_u16(slice_subrange(data, start + 2 + key_len, limit)) as usize;
            assert(value_len == value_len_at(entry_data, start as int));
            if value_len > limit - 4 - start - key_len {
                assert(!entry_fits(entry_data, offsets@[i as int] as int));
                return Err(ErrorKind::CorruptBlock);
            }
            let end = start + 4 + key_len + value_len;
            let expected = if i + 1 < count {
                offsets[i + 1] as usize
            } else {
                limit
            };
            if end != expected {
                assert(!layout_ok(entry_data, offsets@)) by {
                    reveal(layout_ok);
                    if i + 1 < count {
                        assert(entry_end(entry_data, offsets@[i as int] as int) != offsets@[i + 1]);
                    } else {
                        assert(offsets@.last() == offsets@[i as int]);
                    }
                }
                return Err(ErrorKind::CorruptBlock);
            }
            i += 1;
        }
        proof {
            reveal(layout_ok);
        }
        let entries = slice_to_vec(slice_subrange(data, 0, limit));
        assert(entries@ =~= entry_data);
        Ok(Block { data: entries, offsets })
    }
}

} // verus!
