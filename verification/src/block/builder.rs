//! Building a block entry by entry, within a byte budget.

use vstd::prelude::*;
use crate::block::{Block, SIZE_OF_U16};
use crate::block::format::{
    block_len, entries_bytes, entries_of, entry_bytes, layout_ok, lemma_entries_bytes_push,
    lemma_layout_data, lemma_layout_push, lemma_layout_size, valid_entry, Entry,
};
use crate::error::ErrorKind;
use crate::wire::{put, put_u16};

verus! {

/// Collects entries for one block.
pub struct BlockBuilder {
    pub(crate) data: Vec<u8>,
    pub(crate) offsets: Vec<u16>,
    pub(crate) block_size: usize,
}

impl View for BlockBuilder {
    type V = Seq<Entry>;

    /// The entries added so far, in the order in which they were added.
    open(crate) spec fn view(&self) -> Seq<Entry> {
        entries_of(self.data@, self.offsets@)
    }
}

impl BlockBuilder {
    /// The byte budget that the builder was made with.
    pub open(crate) spec fn budget(&self) -> usize {
        self.block_size
    }

    /// A block of these entries, written out, stays within the budget,
    /// unless it is the first entry alone that exceeds it.
    pub open spec fn within_budget(&self) -> bool {
        self@.len() >= 2 ==> block_len(self@) <= self.budget()
    }

    /// The offsets index the entry data exactly, and the budget is kept.
    pub open(crate) spec fn wf(&self) -> bool {
        layout_ok(self.data@, self.offsets@) && self.within_budget()
    }

    /// Whether `add` takes an entry of this key and value. An empty builder
    /// takes any entry. Otherwise the block with the entry added must stay
    /// within the budget, and the entry must begin at a position that a
    /// 16-bit offset can hold.
    pub open spec fn accepts(&self, key: Seq<u8>, value: Seq<u8>) -> bool {
        self@.len() == 0 || (block_len(self@) + 6 + key.len() + value.len() <= self.budget()
            && entries_bytes(self@).len() <= 0xFFFF)
    }

    /// An empty builder with a budget of `block_size` bytes.
    pub fn new(block_size: usize) -> (r: Self)
        ensures
            r.wf(),
            r@ == Seq::<Entry>::empty(),
            r.budget() == block_size,
    {
        let r = Self { data: Vec::new(), offsets: Vec::new(), block_size };
        proof {
            reveal(layout_ok);
        }
        assert(r@ =~= Seq::<Entry>::empty());
        r
    }

    /// The number of bytes that the block would be written as.
    fn estimated_size(&self) -> (r: usize)
        requires
            self.wf(),
        ensures
            r == block_len(self@),
            r <= 0x6_0000,
    {
        proof {
            lemma_layout_data(self.data@, self.offsets@);
            lemma_layout_size(self.data@, self.offsets@);
        }
        self.data.len() + self.offsets.len() * SIZE_OF_U16 + SIZE_OF_U16
    }

    /// Adds an entry behind those already there, or refuses it and leaves
    /// the builder as it was. The answer says which.
    #[must_use]
    pub fn add(&mut self, key: &[u8], value: &[u8]) -> (r: bool)
        requires
            old(self).wf(),
            1 <= key@.len() <= 0xFFFF,
            value@.len() <= 0xFFFF,
        ensures
            final(self).wf(),
            final(self).within_budget(),
            final(self).budget() == old(self).budget(),
            r == old(self).accepts(key@, value@),
            r ==> final(self)@ == old(self)@.push((Entry { key: key@, value: value@ })),
            !r ==> final(self)@ == old(self)@,
    {
        let ghost entry = Entry { key: key@, value: value@ };
        proof {
            lemma_layout_data(self.data@, self.offsets@);
        }
        if !self.is_empty() && (self.estimated_size() + SIZE_OF_U16 + SIZE_OF_U16 * 2 + key.len()
            + value.len() > self.block_size || self.data.len() > 0xFFFF) {
            return false;
        }
        self.offsets.push(self.data.len() as u16);
        put_u16(&mut self.data, key.len() as u16);
        put(&mut self.data, key);
        put_u16(&mut self.data, value.len() as u16);
        put(&mut self.data, value);
        proof {
            assert(self.data@ == old(self).data@ + entry_bytes(entry)) by {
                assert(self.data@ =~= old(self).data@ + entry_bytes(entry));
            }
            assert(self.offsets@ == old(self).offsets@.push(old(self).data@.len() as u16));
            lemma_layout_push(old(self).data@, old(self).offsets@, entry);
            lemma_entries_bytes_push(old(self)@, entry);
        }
        true
    }

    /// `add` for a caller that has not looked at the entry: an entry that
    /// no block can hold is an error and leaves the builder as it was; any
    /// other goes to `add`.
    pub fn try_add(&mut self, key: &[u8], value: &[u8]) -> (r: Result<bool, ErrorKind>)
        requires
            old(self).wf(),
        ensures
            final(self).wf(),
            final(self).within_budget(),
            final(self).budget() == old(self).budget(),
            r == if valid_entry((Entry { key: key@, value: value@ })) {
                Ok::<bool, ErrorKind>(old(self).accepts(key@, value@))
            } else {
                Err::<bool, ErrorKind>(ErrorKind::InvalidEntry)
            },
            final(self)@ == if r == Ok::<bool, ErrorKind>(true) {
                old(self)@.push((Entry { key: key@, value: value@ }))
            } else {
                old(self)@
            },
    {
        if key.is_empty() || key.len() > 0xFFFF || value.len() > 0xFFFF {
            return Err(ErrorKind::InvalidEntry);
        }
        Ok(self.add(key, value))
    }

    /// Whether no entry has been added yet.
    pub fn is_empty(&self) -> (r: bool)
        ensures
            r == (self@.len() == 0),
    {
        self.offsets.is_empty()
    }

    /// The block of the entries added.
    pub fn build(self) -> (block: Block)
        requires
            self.wf(),
        ensures
            block.wf(),
            block@ == self@,
            block@.len() >= 2 ==> block_len(block@) <= self.budget(),
    {
        Block { data: self.data, offsets: self.offsets }
    }
}

} // verus!
