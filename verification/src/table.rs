//! Tables: the index that maps keys to blocks and blocks to byte ranges.
//!
//! A table is opened from the size of its file, its footer and its index
//! region, and then never changes. It reads no file itself: it says which
//! bytes it needs, and is handed them.

use std::sync::Arc;
use vstd::prelude::*;
use vstd::slice::slice_subrange;
use bytes::Bytes;
use crate::block::Block;
use crate::block::format::parse_block;
use crate::error::{ErrorKind, TableError};
use crate::key::{compare_keys, key_lt, lemma_key_lt_asymmetric, lemma_key_lt_transitive, KeyOrder};
use crate::table::format::{
    block_end, floor_index, lemma_floor_index_of_split, lemma_metas_bytes_push, meta_at,
    meta_end, metas_bytes, ordered_blocks, parse_metas, parse_metas_from, prepend, sorted_metas,
    valid_meta, valid_metas, Meta, FOOTER_LEN,
};
use crate::wire::{
    bytes_as_slice, bytes_clone, contents, copy_to_bytes, get_u16, get_u32, put_slice, put_u16, put_u32,
    u32_at,
};

pub mod format;
pub mod image;

verus! {

/// The index entry of one block.
#[derive(Debug, PartialEq, Eq)]
pub struct BlockMeta {
    /// Where the block begins in the file.
    pub offset: usize,
    /// The first key of the block.
    pub first_key: Bytes,
}

impl View for BlockMeta {
    type V = Meta;

    open spec fn view(&self) -> Meta {
        Meta { offset: self.offset as nat, first_key: contents(self.first_key) }
    }
}

impl Clone for BlockMeta {
    fn clone(&self) -> (r: Self)
        ensures
            r@ == self@,
    {
        BlockMeta { offset: self.offset, first_key: bytes_clone(&self.first_key) }
    }
}

/// The index entries that a list of `BlockMeta` stands for.
pub open spec fn metas_view(metas: Seq<BlockMeta>) -> Seq<Meta> {
    Seq::new(metas.len(), |i: int| metas[i]@)
}

impl BlockMeta {
    /// Appends the encoding of the index entries to `buf`.
    pub fn encode_block_meta(block_meta: &[BlockMeta], buf: &mut Vec<u8>)
        requires
            valid_metas(metas_view(block_meta@)),
        ensures
            final(buf)@ == old(buf)@ + metas_bytes(metas_view(block_meta@)),
    {
        let ghost ms = metas_view(block_meta@);
        let mut i: usize = 0;
        assert(ms.take(0) =~= Seq::<Meta>::empty());
        assert(buf@ =~= old(buf)@ + metas_bytes(ms.take(0)));
        while i < block_meta.len()
            invariant
                i <= block_meta@.len(),
                ms == metas_view(block_meta@),
                valid_metas(ms),
                buf@ == old(buf)@ + metas_bytes(ms.take(i as int)),
            decreases block_meta@.len() - i,
        {
            let meta = &block_meta[i];
            let key = bytes_as_slice(&meta.first_key);
            assert(valid_meta(ms[i as int]));
            put_u32(buf, meta.offset as u32);
            put_u16(buf, key.len() as u16);
            put_slice(buf, key);
            proof {
                assert(ms.take(i + 1) =~= ms.take(i as int).push(ms[i as int]));
                lemma_metas_bytes_push(ms.take(i as int), ms[i as int]);
                assert(buf@ =~= old(buf)@ + metas_bytes(ms.take(i + 1)));
            }
            i += 1;
        }
        assert(ms.take(i as int) =~= ms);
    }

    /// Whether the format can hold this index entry.
    pub fn fits(&self) -> (r: bool)
        ensures
            r == valid_meta(self@),
    {
        self.offset <= 0xFFFF_FFFF && bytes_as_slice(&self.first_key).len() <= 0xFFFF
    }

    /// `encode_block_meta` for a caller that has not looked at the entries:
    /// where the format can hold them all they are appended to `buf`, else
    /// `buf` stays as it was. The answer says which.
    pub fn try_encode_block_meta(block_meta: &[BlockMeta], buf: &mut Vec<u8>) -> (r: bool)
        ensures
            r == valid_metas(metas_view(block_meta@)),
            final(buf)@ == if r {
                old(buf)@ + metas_bytes(metas_view(block_meta@))
            } else {
                old(buf)@
            },
    {
        let ghost ms = metas_view(block_meta@);
        let mut i: usize = 0;
        while i < block_meta.len()
            invariant
                i <= block_meta@.len(),
                ms == metas_view(block_meta@),
                forall|j: int| 0 <= j < i ==> valid_meta(#[trigger] ms[j]),
            decreases block_meta@.len() - i,
        {
            if !block_meta[i].fits() {
                assert(!valid_meta(ms[i as int]));
                return false;
            }
            i += 1;
        }
        Self::encode_block_meta(block_meta, buf);
        true
    }

    /// Reads index entries from the whole of `buf`, or finds that `buf` is
    /// no index.
    pub fn decode_block_meta(buf: &[u8]) -> (r: Result<Vec<BlockMeta>, ErrorKind>)
        ensures
            match r {
                Ok(metas) => parse_metas(buf@) == Some(metas_view(metas@)),
                Err(e) => e == ErrorKind::CorruptFooter && parse_metas(buf@) is None,
            },
    {
        let mut block_meta: Vec<BlockMeta> = Vec::new();
        let len = buf.len();
        let mut pos: usize = 0;
        assert(metas_view(block_meta@) =~= Seq::<Meta>::empty());
        assert(parse_metas_from(buf@, 0) matches Some(rest) ==> Seq::<Meta>::empty() + rest
            =~= rest);
        while pos < len
            invariant
                pos <= len,
                len == buf@.len(),
                parse_metas(buf@) == prepend(
                    metas_view(block_meta@),
                    parse_metas_from(buf@, pos as int),
                ),
            decreases len - pos,
        {
            if len - pos < 6 {
                return Err(ErrorKind::CorruptFooter);
            }
            let offset = get_u32(slice_subrange(buf, pos, len)) as usize;
            let key_len = get_u16(slice_subrange(buf, pos + 4, len)) as usize;
            if key_len > len - pos - 6 {
                return Err(ErrorKind::CorruptFooter);
            }
            let first_key = copy_to_bytes(slice_subrange(buf, pos + 6, len), key_len);
            let ghost before = metas_view(block_meta@);
            block_meta.push(BlockMeta { offset, first_key });
            proof {
                let m = meta_at(buf@, pos as int);
                assert(block_meta@.last()@.first_key =~= m.first_key);
                assert(block_meta@.last()@ == m);
                assert(metas_view(block_meta@) =~= before.push(m));
                let rest = parse_metas_from(buf@, meta_end(buf@, pos as int));
                if rest is Some {
                    assert(before + (seq![m] + rest.unwrap()) =~= before.push(m) + rest.unwrap());
                }
            }
            pos += 6 + key_len;
        }
        assert(metas_view(block_meta@) + Seq::<Meta>::empty() =~= metas_view(block_meta@));
        Ok(block_meta)
    }
}

/// A range of bytes of the table file that the table asks to be read.
#[derive(Clone, Copy, Debug, PartialEq, Eq, Structural)]
pub struct ReadRequest {
    /// Where the range begins.
    pub offset: u64,
    /// How many bytes it holds.
    pub len: u64,
}

/// Where a block comes from: the cache had it, or it is to be read.
pub enum BlockFetch {
    /// The block that the cache held.
    Cached(Arc<Block>),
    /// The bytes of the block in the file; once read they go to
    /// `read_block`, and the block that comes back goes into the cache.
    Read(ReadRequest),
}

/// The index of one table file.
pub struct SsTable {
    id: usize,
    file_size: u64,
    block_metas: Vec<BlockMeta>,
    block_meta_offset: usize,
}

/// The error of kind `kind` on table `id` at `offset`.
pub open spec fn table_error(kind: ErrorKind, id: usize, offset: int) -> TableError {
    TableError { kind, table_id: id, offset: offset as u64 }
}

/// Where the footer of a file of `file_size` bytes lies; a file too short
/// to hold one has a corrupt footer.
pub open spec fn footer_region(id: usize, file_size: u64) -> Result<ReadRequest, TableError> {
    if file_size < FOOTER_LEN {
        Err(table_error(ErrorKind::CorruptFooter, id, 0))
    } else {
        Ok(ReadRequest { offset: (file_size - FOOTER_LEN) as u64, len: FOOTER_LEN })
    }
}

/// Where the index region lies, given the footer's bytes: from the
/// position that the footer names up to the footer. A footer of another
/// length than four bytes is a short read; one that names a position
/// behind its own is corrupt.
pub open spec fn meta_region(id: usize, file_size: u64, footer: Seq<u8>) -> Result<
    ReadRequest,
    TableError,
> {
    if file_size < FOOTER_LEN {
        Err(table_error(ErrorKind::CorruptFooter, id, 0))
    } else if footer.len() != FOOTER_LEN {
        Err(table_error(ErrorKind::ShortRead, id, file_size - FOOTER_LEN))
    } else if u32_at(footer, 0) > file_size - FOOTER_LEN {
        Err(table_error(ErrorKind::CorruptFooter, id, file_size - FOOTER_LEN))
    } else {
        Ok(
            ReadRequest {
                offset: u32_at(footer, 0) as u64,
                len: (file_size - FOOTER_LEN - u32_at(footer, 0)) as u64,
            },
        )
    }
}

/// What is wrong with the footer and the index region of a table file, if
/// anything: what `meta_region` finds; an index region of another length
/// than was asked for, a short read; bytes that are no index, or an index
/// in which a block ends before it begins, a corrupt footer.
pub open spec fn open_error(id: usize, file_size: u64, footer: Seq<u8>, meta_raw: Seq<u8>) -> Option<
    TableError,
> {
    match meta_region(id, file_size, footer) {
        Err(e) => Some(e),
        Ok(region) => if meta_raw.len() != region.len {
            Some(table_error(ErrorKind::ShortRead, id, region.offset as int))
        } else {
            match parse_metas(meta_raw) {
                None => Some(table_error(ErrorKind::CorruptFooter, id, region.offset as int)),
                Some(ms) => if ordered_blocks(ms, region.offset as nat) {
                    None
                } else {
                    Some(table_error(ErrorKind::CorruptFooter, id, region.offset as int))
                },
            }
        },
    }
}

impl SsTable {
    /// The table's identifier.
    pub closed spec fn table_id(&self) -> usize {
        self.id
    }

    /// The size of the table file in bytes.
    pub closed spec fn size(&self) -> u64 {
        self.file_size
    }

    /// The index entries, one for each block, in file order.
    pub closed spec fn metas(&self) -> Seq<Meta> {
        metas_view(self.block_metas@)
    }

    /// Where the index region begins in the file, which is where the last
    /// block ends.
    pub closed spec fn meta_offset(&self) -> nat {
        self.block_meta_offset as nat
    }

    /// The index region lies before the footer, and no block ends before
    /// it begins.
    pub closed spec fn wf(&self) -> bool {
        &&& self.meta_offset() + FOOTER_LEN <= self.size()
        &&& ordered_blocks(self.metas(), self.meta_offset())
    }

    /// The bytes of block `block_idx` in the file: from where it begins to
    /// where it ends.
    pub open spec fn block_region(&self, block_idx: int) -> ReadRequest {
        ReadRequest {
            offset: self.metas()[block_idx].offset as u64,
            len: (block_end(self.metas(), self.meta_offset(), block_idx)
                - self.metas()[block_idx].offset) as u64,
        }
    }

    /// The first step of opening a table: where to read the footer.
    pub fn footer_request(id: usize, file_size: u64) -> (r: Result<ReadRequest, TableError>)
        ensures
            r == footer_region(id, file_size),
    {
        if file_size < FOOTER_LEN {
            return Err(TableError { kind: ErrorKind::CorruptFooter, table_id: id, offset: 0 });
        }
        Ok(ReadRequest { offset: file_size - FOOTER_LEN, len: FOOTER_LEN })
    }

    /// The second step of opening a table: where to read the index region,
    /// given the footer's bytes.
    pub fn meta_request(id: usize, file_size: u64, footer: &[u8]) -> (r: Result<
        ReadRequest,
        TableError,
    >)
        ensures
            r == meta_region(id, file_size, footer@),
    {
        if file_size < FOOTER_LEN {
            return Err(TableError { kind: ErrorKind::CorruptFooter, table_id: id, offset: 0 });
        }
        let footer_offset = file_size - FOOTER_LEN;
        if footer.len() != 4 {
            return Err(
                TableError { kind: ErrorKind::ShortRead, table_id: id, offset: footer_offset },
            );
        }
        let block_meta_offset = get_u32(footer) as u64;
        if block_meta_offset > footer_offset {
            return Err(
                TableError { kind: ErrorKind::CorruptFooter, table_id: id, offset: footer_offset },
            );
        }
        Ok(ReadRequest { offset: block_meta_offset, len: footer_offset - block_meta_offset })
    }

    /// Opens a table from the size of its file, its footer and its index
    /// region, or says what is wrong with them.
    pub fn open(id: usize, file_size: u64, footer: &[u8], meta_raw: &[u8]) -> (r: Result<
        SsTable,
        TableError,
    >)
        ensures
            match r {
                Ok(table) => {
                    &&& open_error(id, file_size, footer@, meta_raw@) is None
                    &&& table.wf()
                    &&& table.table_id() == id
                    &&& table.size() == file_size
                    &&& table.meta_offset() == u32_at(footer@, 0)
                    &&& parse_metas(meta_raw@) == Some(table.metas())
                },
                Err(e) => open_error(id, file_size, footer@, meta_raw@) == Some(e),
            },
    {
        let region = match Self::meta_request(id, file_size, footer) {
            Ok(region) => region,
            Err(e) => {
                return Err(e);
            },
        };
        if meta_raw.len() as u64 != region.len {
            return Err(
                TableError { kind: ErrorKind::ShortRead, table_id: id, offset: region.offset },
            );
        }
        let block_metas = match BlockMeta::decode_block_meta(meta_raw) {
            Ok(metas) => metas,
            Err(_) => {
                return Err(
                    TableError {
                        kind: ErrorKind::CorruptFooter,
                        table_id: id,
                        offset: region.offset,
                    },
                );
            },
        };
        let block_meta_offset = get_u32(footer) as usize;
        let ghost ms = metas_view(block_metas@);
        let count = block_metas.len();
        let mut i: usize = 0;
        while i < count
            invariant
                i <= count,
                count == block_metas@.len(),
                ms == metas_view(block_metas@),
                meta_region(id, file_size, footer@) == Ok::<ReadRequest, TableError>(region),
                meta_raw@.len() == region.len,
                parse_metas(meta_raw@) == Some(ms),
                block_meta_offset == region.offset,
                forall|j: int|
                    0 <= j < i ==> ms[j].offset <= #[trigger] block_end(
                        ms,
                        block_meta_offset as nat,
                        j,
                    ),
            decreases count - i,
        {
            let end = if i + 1 < count {
                block_metas[i + 1].offset
            } else {
                block_meta_offset
            };
            if block_metas[i].offset > end {
                assert(ms[i as int].offset > block_end(ms, block_meta_offset as nat, i as int));
                return Err(
                    TableError {
                        kind: ErrorKind::CorruptFooter,
                        table_id: id,
                        offset: region.offset,
                    },
                );
            }
            i += 1;
        }
        Ok(SsTable { id, file_size, block_metas, block_meta_offset })
    }

    /// The bytes of block `block_idx` in the file.
    pub fn block_request(&self, block_idx: usize) -> (r: ReadRequest)
        requires
            self.wf(),
            block_idx < self.metas().len(),
        ensures
            r == self.block_region(block_idx as int),
            r.offset + r.len == block_end(self.metas(), self.meta_offset(), block_idx as int),
    {
        let count = self.block_metas.len();
        let offset = self.block_metas[block_idx].offset;
        let next_offset = if block_idx + 1 < count {
            self.block_metas[block_idx + 1].offset
        } else {
            self.block_meta_offset
        };
        assert(self.metas()[block_idx as int].offset <= block_end(
            self.metas(),
            self.meta_offset(),
            block_idx as int,
        ));
        ReadRequest { offset: offset as u64, len: (next_offset - offset) as u64 }
    }

    /// Block `block_idx`, decoded from `raw`, the bytes read for
    /// `block_request`. Fewer or more bytes than were asked for are a short
    /// read; bytes that are no block are a corrupt block.
    pub fn read_block(&self, block_idx: usize, raw: &[u8]) -> (r: Result<Arc<Block>, TableError>)
        requires
            self.wf(),
            block_idx < self.metas().len(),
        ensures
            match r {
                Ok(block) => {
                    &&& raw@.len() == self.block_region(block_idx as int).len
                    &&& block.wf()
                    &&& parse_block(raw@) == Some(block@)
                },
                Err(e) => {
                    &&& e.table_id == self.table_id()
                    &&& e.offset == self.block_region(block_idx as int).offset
                    &&& e.kind == if raw@.len() != self.block_region(block_idx as int).len {
                        ErrorKind::ShortRead
                    } else {
                        ErrorKind::CorruptBlock
                    }
                    &&& e.kind == ErrorKind::CorruptBlock ==> parse_block(raw@) is None
                },
            },
    {
        let region = self.block_request(block_idx);
        if raw.len() as u64 != region.len {
            return Err(
                TableError { kind: ErrorKind::ShortRead, table_id: self.id, offset: region.offset },
            );
        }
        match Block::decode(raw) {
            Ok(block) => Ok(Arc::new(block)),
            Err(kind) => Err(TableError { kind, table_id: self.id, offset: region.offset }),
        }
    }

    /// The key under which block `block_idx` of this table is cached.
    pub fn cache_key(&self, block_idx: usize) -> (key: (usize, usize))
        ensures
            key == (self.table_id(), block_idx),
    {
        (self.id, block_idx)
    }

    /// Block `block_idx` by way of a cache: `cached` is what the cache
    /// holds under `cache_key`. What it holds is the block; where it holds
    /// nothing, the block is to be read from the file.
    pub fn read_block_cached(&self, block_idx: usize, cached: Option<Arc<Block>>) -> (r: BlockFetch)
        requires
            self.wf(),
            block_idx < self.metas().len(),
        ensures
            r == match cached {
                Some(block) => BlockFetch::Cached(block),
                None => BlockFetch::Read(self.block_region(block_idx as int)),
            },
    {
        match cached {
            Some(block) => BlockFetch::Cached(block),
            None => BlockFetch::Read(self.block_request(block_idx)),
        }
    }

    /// The block that may hold `key`: on a sorted index the last block
    /// whose first key is `key` or comes before it, and block 0 where
    /// there is none.
    pub fn find_block_idx(&self, key: &[u8]) -> (r: usize)
        ensures
            r == 0 || r < self.metas().len(),
            sorted_metas(self.metas()) ==> r == floor_index(self.metas(), key@),
    {
        let ghost ms = self.metas();
        let mut low: usize = 0;
        let mut high: usize = self.block_metas.len();
        while low < high
            invariant
                ms == self.metas(),
                0 <= low <= high <= ms.len(),
                sorted_metas(ms) ==> forall|j: int|
                    0 <= j < low ==> !key_lt(key@, #[trigger] ms[j].first_key),
                sorted_metas(ms) ==> forall|j: int|
                    high <= j < ms.len() ==> key_lt(key@, #[trigger] ms[j].first_key),
            decreases high - low,
        {
            let mid = low + (high - low) / 2;
            let first_key = bytes_as_slice(&self.block_metas[mid].first_key);
            assert(first_key@ == ms[mid as int].first_key);
            match compare_keys(key, first_key) {
                KeyOrder::Less => {
                    proof {
                        if sorted_metas(ms) {
                            assert forall|j: int| mid <= j < ms.len() implies key_lt(
                                key@,
                                #[trigger] ms[j].first_key,
                            ) by {
                                if mid < j {
                                    assert(key_lt(ms[mid as int].first_key, ms[j].first_key));
                                    lemma_key_lt_transitive(
                                        key@,
                                        ms[mid as int].first_key,
                                        ms[j].first_key,
                                    );
                                }
                            }
                        }
                    }
                    high = mid;
                },
                _ => {
                    proof {
                        if sorted_metas(ms) {
                            assert forall|j: int| 0 <= j < mid + 1 implies !key_lt(
                                key@,
                                #[trigger] ms[j].first_key,
                            ) by {
                                if j < mid && key_lt(key@, ms[j].first_key) {
                                    assert(key_lt(ms[j].first_key, ms[mid as int].first_key));
                                    lemma_key_lt_transitive(
                                        key@,
                                        ms[j].first_key,
                                        ms[mid as int].first_key,
                                    );
                                }
                            }
                        }
                    }
                    low = mid + 1;
                },
            }
        }
        proof {
            if sorted_metas(ms) {
                lemma_floor_index_of_split(ms, key@, low as int);
            }
        }
        if low == 0 {
            0
        } else {
            low - 1
        }
    }

    /// The number of blocks of the table.
    pub fn num_of_blocks(&self) -> (n: usize)
        ensures
            n == self.metas().len(),
    {
        self.block_metas.len()
    }
}

} // verus!
