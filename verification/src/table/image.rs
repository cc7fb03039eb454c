//! A whole table file, from the entries of its blocks, and what reading it
//! gives back.
//!
//! `table_bytes` is the file that holds the given blocks: the blocks back
//! to back, the index, the footer. The lemmas show that opening such a file
//! gives the index of those blocks, that the byte range of each block
//! parses as that block, and that on a sorted table a lookup by key ends at
//! the block and the entry that hold the key.

use vstd::prelude::*;
use crate::block::format::{
    block_bytes, lemma_parse_of_block_bytes, parse_block, sorted_entries, valid_entries, Entry,
};
use crate::block::search::{first_not_below, lemma_first_not_below_of_split};
use crate::error::TableError;
use crate::key::{key_lt, lemma_key_lt_asymmetric, lemma_key_lt_irreflexive};
use crate::table::format::{
    block_end, floor_index, lemma_floor_index_of_split, lemma_parse_of_metas_bytes, metas_bytes,
    ordered_blocks, parse_metas, sorted_metas, valid_metas, Meta, FOOTER_LEN,
};
use crate::table::{footer_region, meta_region, open_error, ReadRequest};
use crate::wire::{lemma_u32_round_trip, u32_at, u32_bytes};

verus! {

/// The blocks written one after another, with nothing between them.
pub open spec fn blocks_bytes(blocks: Seq<Seq<Entry>>) -> Seq<u8>
    decreases blocks.len(),
{
    if blocks.len() == 0 {
        Seq::empty()
    } else {
        blocks_bytes(blocks.drop_last()) + block_bytes(blocks.last())
    }
}

/// The position in the file at which block `i` begins.
pub open spec fn block_start(blocks: Seq<Seq<Entry>>, i: int) -> nat {
    blocks_bytes(blocks.take(i)).len()
}

/// The index of the table: for each block its position and its first key.
pub open spec fn table_metas(blocks: Seq<Seq<Entry>>) -> Seq<Meta> {
    Seq::new(
        blocks.len(),
        |i: int| Meta { offset: block_start(blocks, i), first_key: blocks[i][0].key },
    )
}

/// The table file: the blocks, the index, and in the last four bytes the
/// position at which the index begins.
pub open spec fn table_bytes(blocks: Seq<Seq<Entry>>) -> Seq<u8> {
    blocks_bytes(blocks) + metas_bytes(table_metas(blocks)) + u32_bytes(
        blocks_bytes(blocks).len() as u32,
    )
}

/// Blocks that one table file can hold: each holds entries that a block
/// can hold, and at least one; together they end at a position that fits
/// 32 bits.
pub open spec fn valid_table(blocks: Seq<Seq<Entry>>) -> bool {
    &&& forall|i: int|
        0 <= i < blocks.len() ==> valid_entries(#[trigger] blocks[i]) && blocks[i].len() > 0
    &&& blocks_bytes(blocks).len() <= 0xFFFF_FFFF
}

/// The keys come in strictly ascending order through the whole table.
pub open spec fn sorted_table(blocks: Seq<Seq<Entry>>) -> bool {
    forall|i: int, j: int, k: int, l: int|
        0 <= i <= k < blocks.len() && 0 <= j < blocks[i].len() && 0 <= l < blocks[k].len() && (i < k
            || j < l) ==> key_lt(#[trigger] blocks[i][j].key, #[trigger] blocks[k][l].key)
}

/// The blocks before block `k` are written as a prefix of the whole, and
/// block `k` follows them directly.
proof fn lemma_blocks_prefix(blocks: Seq<Seq<Entry>>, k: int)
    requires
        0 <= k <= blocks.len(),
    ensures
        block_start(blocks, k) <= blocks_bytes(blocks).len(),
        blocks_bytes(blocks.take(k)) == blocks_bytes(blocks).take(block_start(blocks, k) as int),
        k < blocks.len() ==> blocks_bytes(blocks.take(k + 1)) == blocks_bytes(blocks.take(k))
            + block_bytes(blocks[k]),
    decreases blocks.len(),
{
    if k == blocks.len() {
        assert(blocks.take(k) =~= blocks);
        assert(blocks_bytes(blocks).take(blocks_bytes(blocks).len() as int) =~= blocks_bytes(
            blocks,
        ));
    } else {
        let front = blocks.drop_last();
        lemma_blocks_prefix(front, k);
        assert(front.take(k) =~= blocks.take(k));
        assert(blocks_bytes(front).take(block_start(blocks, k) as int) =~= blocks_bytes(
            blocks,
        ).take(block_start(blocks, k) as int));
        assert(blocks.take(k + 1).drop_last() =~= blocks.take(k));
    }
}

/// Block `i` lies in the blocks' bytes from where it begins to where the
/// next block begins.
proof fn lemma_block_located(blocks: Seq<Seq<Entry>>, i: int)
    requires
        0 <= i < blocks.len(),
    ensures
        block_start(blocks, i) <= block_start(blocks, i + 1) <= blocks_bytes(blocks).len(),
        blocks_bytes(blocks).subrange(
            block_start(blocks, i) as int,
            block_start(blocks, i + 1) as int,
        ) == block_bytes(blocks[i]),
{
    let all = blocks_bytes(blocks);
    let lo = block_start(blocks, i) as int;
    let hi = block_start(blocks, i + 1) as int;
    lemma_blocks_prefix(blocks, i);
    lemma_blocks_prefix(blocks, i + 1);
    assert(all.take(hi) == all.take(lo) + block_bytes(blocks[i]));
    assert forall|j: int| 0 <= j < hi - lo implies all[lo + j] == block_bytes(blocks[i])[j] by {
        assert(all.take(hi)[lo + j] == block_bytes(blocks[i])[j]);
    }
    assert(all.subrange(lo, hi) =~= block_bytes(blocks[i]));
}

/// The index of a valid table holds entries that the format can hold, and
/// in it no block ends before it begins.
proof fn lemma_table_metas_valid(blocks: Seq<Seq<Entry>>)
    requires
        valid_table(blocks),
    ensures
        valid_metas(table_metas(blocks)),
        ordered_blocks(table_metas(blocks), blocks_bytes(blocks).len()),
        forall|i: int|
            0 <= i < blocks.len() ==> #[trigger] block_end(
                table_metas(blocks),
                blocks_bytes(blocks).len(),
                i,
            ) == block_start(blocks, i + 1),
{
    let ms = table_metas(blocks);
    let total = blocks_bytes(blocks).len();
    assert forall|i: int| 0 <= i < ms.len() implies crate::table::format::valid_meta(
        #[trigger] ms[i],
    ) && ms[i].offset <= block_end(ms, total, i) && block_end(ms, total, i) == block_start(
        blocks,
        i + 1,
    ) by {
        lemma_block_located(blocks, i);
        assert(valid_entries(blocks[i]));
        assert(crate::block::format::valid_entry(blocks[i][0]));
        if i + 1 == blocks.len() {
            assert(blocks.take(i + 1) =~= blocks);
        }
    }
}

/// What the parts of a table file are: its size, its footer and its index
/// region.
proof fn lemma_table_bytes_parts(blocks: Seq<Seq<Entry>>)
    requires
        valid_table(blocks),
    ensures
        table_bytes(blocks).len() == blocks_bytes(blocks).len() + metas_bytes(
            table_metas(blocks),
        ).len() + 4,
        table_bytes(blocks).subrange(
            table_bytes(blocks).len() - 4,
            table_bytes(blocks).len() as int,
        ) == u32_bytes(blocks_bytes(blocks).len() as u32),
        table_bytes(blocks).subrange(
            blocks_bytes(blocks).len() as int,
            table_bytes(blocks).len() - 4,
        ) == metas_bytes(table_metas(blocks)),
        table_bytes(blocks).take(blocks_bytes(blocks).len() as int) == blocks_bytes(blocks),
{
    let file = table_bytes(blocks);
    let data = blocks_bytes(blocks);
    let index = metas_bytes(table_metas(blocks));
    let footer = u32_bytes(data.len() as u32);
    assert(file.subrange(file.len() - 4, file.len() as int) =~= footer);
    assert(file.subrange(data.len() as int, file.len() - 4) =~= index);
    assert(file.take(data.len() as int) =~= data);
}

/// Opening the file of a valid table finds nothing wrong and gives the
/// index of its blocks: the footer is the last four bytes, it names the
/// position behind the last block, and the bytes between the two parse as
/// the table's index.
pub proof fn lemma_table_opens(id: usize, blocks: Seq<Seq<Entry>>)
    requires
        valid_table(blocks),
        table_bytes(blocks).len() <= u64::MAX,
    ensures
        ({
            let file = table_bytes(blocks);
            let size = file.len() as u64;
            let data_len = blocks_bytes(blocks).len() as int;
            let footer = file.subrange(size - FOOTER_LEN, size as int);
            let index = file.subrange(data_len, size - FOOTER_LEN);
            &&& footer_region(id, size) == Ok::<ReadRequest, TableError>(
                (ReadRequest { offset: (size - FOOTER_LEN) as u64, len: FOOTER_LEN }),
            )
            &&& meta_region(id, size, footer) == Ok::<ReadRequest, TableError>(
                (ReadRequest {
                    offset: data_len as u64,
                    len: (size - FOOTER_LEN - data_len) as u64,
                }),
            )
            &&& open_error(id, size, footer, index) is None
            &&& parse_metas(index) == Some(table_metas(blocks))
        }),
{
    let file = table_bytes(blocks);
    let size = file.len() as u64;
    let data_len = blocks_bytes(blocks).len() as int;
    let footer = file.subrange(size - FOOTER_LEN, size as int);
    let index = file.subrange(data_len, size - FOOTER_LEN);
    lemma_table_bytes_parts(blocks);
    lemma_table_metas_valid(blocks);
    lemma_u32_round_trip(data_len as u32);
    assert(u32_at(footer, 0) == data_len);
    lemma_parse_of_metas_bytes(table_metas(blocks));
}

/// In the file of a valid table the byte range of each block, from its
/// index entry's position to where the block ends, parses as that block.
pub proof fn lemma_table_block_reads_back(blocks: Seq<Seq<Entry>>, i: int)
    requires
        valid_table(blocks),
        0 <= i < blocks.len(),
    ensures
        ({
            let file = table_bytes(blocks);
            let ms = table_metas(blocks);
            let end = block_end(ms, blocks_bytes(blocks).len(), i);
            &&& ms[i].offset <= end <= blocks_bytes(blocks).len()
            &&& file.subrange(ms[i].offset as int, end as int) == block_bytes(blocks[i])
            &&& parse_block(file.subrange(ms[i].offset as int, end as int)) == Some(blocks[i])
        }),
{
    let file = table_bytes(blocks);
    let data = blocks_bytes(blocks);
    let ms = table_metas(blocks);
    let end = block_end(ms, data.len(), i);
    lemma_table_bytes_parts(blocks);
    lemma_table_metas_valid(blocks);
    lemma_block_located(blocks, i);
    assert(end == block_start(blocks, i + 1));
    assert(file.subrange(ms[i].offset as int, end as int) =~= data.subrange(
        ms[i].offset as int,
        end as int,
    ));
    lemma_parse_of_block_bytes(blocks[i]);
}

/// On a sorted table a lookup ends where the key is: the floor index of
/// the key of entry `j` of block `i` is `i`, and within block `i` the first
/// key not before it is at `j`.
pub proof fn lemma_table_lookup(blocks: Seq<Seq<Entry>>, i: int, j: int)
    requires
        valid_table(blocks),
        sorted_table(blocks),
        0 <= i < blocks.len(),
        0 <= j < blocks[i].len(),
    ensures
        sorted_metas(table_metas(blocks)),
        sorted_entries(blocks[i]),
        floor_index(table_metas(blocks), blocks[i][j].key) == i,
        first_not_below(blocks[i], blocks[i][j].key) == j,
{
    let ms = table_metas(blocks);
    let key = blocks[i][j].key;
    lemma_key_lt_irreflexive(key);
    assert forall|a: int, b: int| 0 <= a < b < ms.len() implies key_lt(
        #[trigger] ms[a].first_key,
        #[trigger] ms[b].first_key,
    ) by {
        assert(blocks[a].len() > 0 && blocks[b].len() > 0);
        assert(key_lt(blocks[a][0].key, blocks[b][0].key));
    }
    assert forall|a: int, b: int| 0 <= a < b < blocks[i].len() implies key_lt(
        #[trigger] blocks[i][a].key,
        #[trigger] blocks[i][b].key,
    ) by {}
    assert forall|a: int| 0 <= a < i + 1 implies !key_lt(key, #[trigger] ms[a].first_key) by {
        assert(blocks[a].len() > 0);
        if a < i || 0 < j {
            assert(key_lt(blocks[a][0].key, blocks[i][j].key));
            lemma_key_lt_asymmetric(blocks[a][0].key, key);
        }
    }
    assert forall|a: int| i + 1 <= a < ms.len() implies key_lt(key, #[trigger] ms[a].first_key) by {
        assert(blocks[a].len() > 0);
        assert(key_lt(blocks[i][j].key, blocks[a][0].key));
    }
    lemma_floor_index_of_split(ms, key, i + 1);
    assert forall|a: int| 0 <= a < j implies key_lt(#[trigger] blocks[i][a].key, key) by {}
    lemma_first_not_below_of_split(blocks[i], key, j);
}

} // verus!
