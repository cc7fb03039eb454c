//! Walking and searching the entries of a block.
//!
//! An iterator stands at a position between 0 and the number of entries.
//! At a position below that number it is valid and holds a copy of the
//! entry there. At the number itself it is exhausted, holds nothing, and
//! stays so when moved on.

use std::sync::Arc;
use vstd::prelude::*;
use vstd::slice::slice_subrange;
use crate::block::Block;
use crate::block::format::{
    entry_at, entry_fits, key_len_at, lemma_layout_entry_fits, sorted_entries, value_len_at,
    Entry,
};
use crate::block::search::{bisect, first_not_below, lemma_bisect_is_first_not_below};
use crate::key::{compare_keys, KeyOrder};
use crate::wire::get_u16;

verus! {

/// A position in a block, with a copy of the entry there.
pub struct BlockIterator {
    pub(crate) block: Arc<Block>,
    pub(crate) key: Vec<u8>,
    pub(crate) value: Vec<u8>,
    pub(crate) idx: usize,
}

impl BlockIterator {
    /// The entries of the block that the iterator walks.
    pub open(crate) spec fn entries(&self) -> Seq<Entry> {
        self.block@
    }

    /// Where the iterator stands: the index of its entry, or the number of
    /// entries where it is exhausted.
    pub open(crate) spec fn position(&self) -> int {
        self.idx as int
    }

    /// The block is well-formed, the position lies within it, and the
    /// buffers hold the entry at the position, or nothing past the end.
    pub open(crate) spec fn wf(&self) -> bool {
        &&& self.block.wf()
        &&& 0 <= self.position() <= self.entries().len()
        &&& self.key@ == self.current_key()
        &&& self.value@ == self.current_value()
    }

    /// Whether the iterator stands at an entry.
    pub open spec fn valid(&self) -> bool {
        0 <= self.position() < self.entries().len()
    }

    /// The key at the position; empty where the iterator is exhausted.
    pub open spec fn current_key(&self) -> Seq<u8> {
        if self.valid() {
            self.entries()[self.position()].key
        } else {
            Seq::empty()
        }
    }

    /// The value at the position; empty where the iterator is exhausted.
    pub open spec fn current_value(&self) -> Seq<u8> {
        if self.valid() {
            self.entries()[self.position()].value
        } else {
            Seq::empty()
        }
    }

    /// An exhausted iterator on `block`.
    fn new(block: Arc<Block>) -> (it: Self)
        requires
            block.wf(),
        ensures
            it.wf(),
            it.entries() == block@,
            it.position() == block@.len(),
    {
        let idx = block.offsets.len();
        Self { block, key: Vec::new(), value: Vec::new(), idx }
    }

    /// An iterator on `block` at its first entry.
    pub fn create_and_seek_to_first(block: Arc<Block>) -> (it: Self)
        requires
            block.wf(),
        ensures
            it.wf(),
            it.entries() == block@,
            it.position() == 0,
    {
        let mut it = BlockIterator::new(block);
        it.seek_to_first();
        it
    }

    /// An iterator on `block` at the entry that a search for `key` ends on.
    pub fn create_and_seek_to_key(block: Arc<Block>, key: &[u8]) -> (it: Self)
        requires
            block.wf(),
        ensures
            it.wf(),
            it.entries() == block@,
            it.position() == bisect(block@, key@, 0, block@.len() as int),
            sorted_entries(block@) ==> it.position() == first_not_below(block@, key@),
    {
        let mut it = BlockIterator::new(block);
        it.seek_to_key(key);
        it
    }

    /// The key of the current entry; empty where there is none.
    pub fn key(&self) -> (k: &[u8])
        requires
            self.wf(),
        ensures
            k@ == self.current_key(),
    {
        self.key.as_slice()
    }

    /// The value of the current entry; empty where there is none.
    pub fn value(&self) -> (v: &[u8])
        requires
            self.wf(),
        ensures
            v@ == self.current_value(),
    {
        self.value.as_slice()
    }

    /// Whether the iterator stands at an entry.
    pub fn is_valid(&self) -> (r: bool)
        requires
            self.wf(),
        ensures
            r == self.valid(),
    {
        proof {
            if self.valid() {
                lemma_layout_entry_fits(self.block.data@, self.block.offsets@, self.position());
            }
        }
        !self.key.is_empty()
    }

    /// Moves to entry `idx`, or past the end where there is no such entry.
    fn seek_to(&mut self, idx: usize)
        requires
            old(self).block.wf(),
        ensures
            final(self).wf(),
            final(self).entries() == old(self).entries(),
            final(self).position() == if idx < old(self).entries().len() {
                idx as int
            } else {
                old(self).entries().len() as int
            },
    {
        if idx >= self.block.offsets.len() {
            self.key.clear();
            self.value.clear();
            self.idx = self.block.offsets.len();
            return ;
        }
        self.idx = idx;
        let offset = self.block.offsets[idx];
        proof {
            lemma_layout_entry_fits(self.block.data@, self.block.offsets@, idx as int);
        }
        self.seek_to_offset(offset as usize);
    }

    /// Copies the entry that begins at `offset` into the buffers.
    fn seek_to_offset(&mut self, offset: usize)
        requires
            entry_fits(old(self).block.data@, offset as int),
        ensures
            final(self).block == old(self).block,
            final(self).idx == old(self).idx,
            final(self).key@ == entry_at(old(self).block.data@, offset as int).key,
            final(self).value@ == entry_at(old(self).block.data@, offset as int).value,
    {
        let data = self.block.data.as_slice();
        let len = data.len();
        let key_len = get_u16(slice_subrange(data, offset, len)) as usize;
        assert(key_len == key_len_at(data@, offset as int));
        let key_start = offset + 2;
        self.key.clear();
        self.key.extend_from_slice(slice_subrange(data, key_start, key_start + key_len));
        let value_len = get_u16(slice_subrange(data, key_start + key_len, len)) as usize;
        assert(value_len == value_len_at(data@, offset as int));
        let value_start = key_start + key_len + 2;
        self.value.clear();
        self.value.extend_from_slice(slice_subrange(data, value_start, value_start + value_len));
        assert(self.key@ =~= entry_at(data@, offset as int).key);
        assert(self.value@ =~= entry_at(data@, offset as int).value);
    }

    /// Moves to the first entry; an iterator on an empty block is
    /// exhausted there.
    pub fn seek_to_first(&mut self)
        requires
            old(self).wf(),
        ensures
            final(self).wf(),
            final(self).entries() == old(self).entries(),
            final(self).position() == 0,
    {
        self.idx = 0;
        self.seek_to(0);
    }

    /// Moves to the next entry. Behind the last entry the iterator is
    /// exhausted, and an exhausted iterator stays as it is.
    pub fn next(&mut self)
        requires
            old(self).wf(),
        ensures
            final(self).wf(),
            final(self).entries() == old(self).entries(),
            final(self).position() == if old(self).valid() {
                old(self).position() + 1
            } else {
                old(self).position()
            },
    {
        if self.idx < self.block.offsets.len() {
            self.idx += 1;
            let idx = self.idx;
            self.seek_to(idx);
        }
    }

    /// Searches for `key` by halving and moves to where the search ends.
    /// On a sorted block that is the first entry whose key is `key` or
    /// comes after it, and past the end where every key comes before it.
    pub fn seek_to_key(&mut self, key: &[u8])
        requires
            old(self).wf(),
        ensures
            final(self).wf(),
            final(self).entries() == old(self).entries(),
            final(self).position() == bisect(
                old(self).entries(),
                key@,
                0,
                old(self).entries().len() as int,
            ),
            sorted_entries(old(self).entries()) ==> final(self).position() == first_not_below(
                old(self).entries(),
                key@,
            ),
    {
        let ghost es = self.entries();
        proof {
            if sorted_entries(es) {
                lemma_bisect_is_first_not_below(es, key@);
            }
        }
        let mut low: usize = 0;
        let mut high: usize = self.block.offsets.len();
        while low < high
            invariant
                self.block.wf(),
                self.entries() == es,
                es == old(self).entries(),
                sorted_entries(es) ==> bisect(es, key@, 0, es.len() as int) == first_not_below(
                    es,
                    key@,
                ),
                0 <= low <= high <= es.len(),
                bisect(es, key@, low as int, high as int) == bisect(es, key@, 0, es.len() as int),
            decreases high - low,
        {
            let mid = low + (high - low) / 2;
            assert(mid == (low + high) / 2);
            self.seek_to(mid);
            match compare_keys(self.key(), key) {
                KeyOrder::Less => {
                    low = mid + 1;
                },
                KeyOrder::Equal => {
                    return ;
                },
                KeyOrder::Greater => {
                    high = mid;
                },
            }
        }
        self.seek_to(low);
    }
}

} // verus!
