//! The index of a table and the byte layout of a table file.
//!
//! A table file holds its blocks back to back, then one index entry for
//! each block, then four bytes that say where the index begins. An index
//! entry gives the position of its block in the file and the first key of
//! the block.

use vstd::prelude::*;
use crate::key::{key_lt, lemma_key_lt_asymmetric, lemma_key_lt_irreflexive, lemma_key_lt_transitive};
use crate::wire::{
    lemma_u16_bytes_of_value, lemma_u32_bytes_of_value, u16_at, u16_bytes, u32_at, u32_bytes,
};

verus! {

/// The number of bytes of the footer of a table file.
pub const FOOTER_LEN: u64 = 4;

/// One entry of a table's index: where a block begins in the file, and the
/// first key of that block.
pub struct Meta {
    pub offset: nat,
    pub first_key: Seq<u8>,
}

/// An index entry as it is written: the block's position in four bytes,
/// the length of the first key in two, and the first key.
pub open spec fn meta_bytes(m: Meta) -> Seq<u8> {
    u32_bytes(m.offset as u32) + u16_bytes(m.first_key.len() as u16) + m.first_key
}

/// The index entries written one after another.
pub open spec fn metas_bytes(ms: Seq<Meta>) -> Seq<u8>
    decreases ms.len(),
{
    if ms.len() == 0 {
        Seq::empty()
    } else {
        metas_bytes(ms.drop_last()) + meta_bytes(ms.last())
    }
}

/// An index entry that the format can hold: a position that fits 32 bits
/// and a key length that fits 16.
pub open spec fn valid_meta(m: Meta) -> bool {
    m.offset <= 0xFFFF_FFFF && m.first_key.len() <= 0xFFFF
}

/// Index entries that the format can hold.
pub open spec fn valid_metas(ms: Seq<Meta>) -> bool {
    forall|i: int| 0 <= i < ms.len() ==> valid_meta(#[trigger] ms[i])
}

/// The index entry read at `pos`.
pub open spec fn meta_at(bytes: Seq<u8>, pos: int) -> Meta {
    Meta {
        offset: u32_at(bytes, pos) as nat,
        first_key: bytes.subrange(pos + 6, pos + 6 + u16_at(bytes, pos + 4)),
    }
}

/// The position just behind the index entry read at `pos`.
pub open spec fn meta_end(bytes: Seq<u8>, pos: int) -> int {
    pos + 6 + u16_at(bytes, pos + 4)
}

/// `ms` in front of what `rest` holds, where it holds anything.
pub open spec fn prepend(ms: Seq<Meta>, rest: Option<Seq<Meta>>) -> Option<Seq<Meta>> {
    match rest {
        Some(tail) => Some(ms + tail),
        None => None,
    }
}

/// The index entries that the bytes from `pos` on are read as, one after
/// another until the bytes are used up, or `None` where an entry is cut
/// short.
pub open spec fn parse_metas_from(bytes: Seq<u8>, pos: int) -> Option<Seq<Meta>>
    decreases bytes.len() - pos,
{
    if pos < 0 || pos > bytes.len() {
        None
    } else if pos == bytes.len() {
        Some(Seq::empty())
    } else if pos + 6 > bytes.len() || meta_end(bytes, pos) > bytes.len() {
        None
    } else {
        prepend(seq![meta_at(bytes, pos)], parse_metas_from(bytes, meta_end(bytes, pos)))
    }
}

/// The index entries that `bytes` is read as, or `None` where `bytes` is
/// no index.
pub open spec fn parse_metas(bytes: Seq<u8>) -> Option<Seq<Meta>> {
    parse_metas_from(bytes, 0)
}

/// The first keys come in strictly ascending order.
pub open spec fn sorted_metas(ms: Seq<Meta>) -> bool {
    forall|i: int, j: int|
        0 <= i < j < ms.len() ==> key_lt(#[trigger] ms[i].first_key, #[trigger] ms[j].first_key)
}

/// Where block `i` ends in the file: where the next block begins, or, for
/// the last block, where the index begins.
pub open spec fn block_end(ms: Seq<Meta>, meta_offset: nat, i: int) -> nat {
    if i + 1 < ms.len() {
        ms[i + 1].offset
    } else {
        meta_offset
    }
}

/// No block ends before it begins.
pub open spec fn ordered_blocks(ms: Seq<Meta>, meta_offset: nat) -> bool {
    forall|i: int| 0 <= i < ms.len() ==> ms[i].offset <= #[trigger] block_end(ms, meta_offset, i)
}

/// The first index from `i` on whose first key comes after `key`, or the
/// number of index entries where there is none.
pub open spec fn first_above_from(ms: Seq<Meta>, key: Seq<u8>, i: int) -> int
    decreases ms.len() - i,
{
    if i < 0 || i >= ms.len() {
        ms.len() as int
    } else if key_lt(key, ms[i].first_key) {
        i
    } else {
        first_above_from(ms, key, i + 1)
    }
}

/// The index of the last block whose first key is `key` or comes before
/// it; 0 where there is no such block.
pub open spec fn floor_index(ms: Seq<Meta>, key: Seq<u8>) -> int {
    if first_above_from(ms, key, 0) == 0 {
        0
    } else {
        first_above_from(ms, key, 0) - 1
    }
}

/// Appending an index entry appends its bytes.
pub proof fn lemma_metas_bytes_push(ms: Seq<Meta>, m: Meta)
    ensures
        metas_bytes(ms.push(m)) == metas_bytes(ms) + meta_bytes(m),
{
    assert(ms.push(m).drop_last() =~= ms);
}

/// A single index entry is written as its own bytes.
proof fn lemma_metas_bytes_one(m: Meta)
    ensures
        metas_bytes(seq![m]) == meta_bytes(m),
{
    assert(seq![m].drop_last() =~= Seq::<Meta>::empty());
    assert(metas_bytes(Seq::<Meta>::empty()) =~= Seq::<u8>::empty());
    assert(metas_bytes(seq![m]) =~= meta_bytes(m));
}

/// Index entries put together are written as their bytes put together.
proof fn lemma_metas_bytes_concat(a: Seq<Meta>, b: Seq<Meta>)
    ensures
        metas_bytes(a + b) == metas_bytes(a) + metas_bytes(b),
    decreases b.len(),
{
    if b.len() == 0 {
        assert(a + b =~= a);
        assert(metas_bytes(a) + metas_bytes(b) =~= metas_bytes(a));
    } else {
        lemma_metas_bytes_concat(a, b.drop_last());
        assert((a + b).drop_last() =~= a + b.drop_last());
        assert((a + b).last() == b.last());
        assert(metas_bytes(a) + (metas_bytes(b.drop_last()) + meta_bytes(b.last())) =~= (
        metas_bytes(a) + metas_bytes(b.drop_last())) + meta_bytes(b.last()));
    }
}

/// Where the bytes at `pos` are the encoding of a valid index entry, that
/// entry is what is read there.
proof fn lemma_meta_read_back(bytes: Seq<u8>, pos: int, m: Meta)
    requires
        valid_meta(m),
        0 <= pos,
        pos + meta_bytes(m).len() <= bytes.len(),
        bytes.subrange(pos, pos + meta_bytes(m).len()) == meta_bytes(m),
    ensures
        meta_end(bytes, pos) == pos + meta_bytes(m).len(),
        meta_bytes(m).len() == 6 + m.first_key.len(),
        meta_at(bytes, pos) == m,
{
    let mb = meta_bytes(m);
    let kl = m.first_key.len() as int;
    assert(mb.len() == 6 + kl);
    assert forall|j: int| 0 <= j < mb.len() implies bytes[pos + j] == mb[j] by {
        assert(bytes.subrange(pos, pos + mb.len())[j] == bytes[pos + j]);
    }
    assert(bytes[pos] == mb[0] && bytes[pos + 1] == mb[1] && bytes[pos + 2] == mb[2] && bytes[pos
        + 3] == mb[3]);
    assert(u32_at(bytes, pos) == m.offset);
    assert(bytes[pos + 4] == mb[4] && bytes[pos + 5] == mb[5]);
    assert(u16_at(bytes, pos + 4) == kl);
    assert(meta_at(bytes, pos).first_key =~= m.first_key) by {
        assert forall|j: int| 0 <= j < kl implies bytes[pos + 6 + j] == m.first_key[j] by {
            assert(mb[6 + j] == m.first_key[j]);
        }
    }
}

/// The bytes of valid index entries, wherever they end a byte string, are
/// read as those entries.
proof fn lemma_parse_suffix(bytes: Seq<u8>, pos: int, ms: Seq<Meta>)
    requires
        valid_metas(ms),
        0 <= pos <= bytes.len(),
        bytes.skip(pos) == metas_bytes(ms),
    ensures
        parse_metas_from(bytes, pos) == Some(ms),
    decreases ms.len(),
{
    if ms.len() == 0 {
    } else {
        let m = ms[0];
        let rest = ms.skip(1);
        assert(ms =~= seq![m] + rest);
        lemma_metas_bytes_concat(seq![m], rest);
        lemma_metas_bytes_one(m);
        assert(valid_meta(m));
        let mb = meta_bytes(m);
        assert(bytes.skip(pos).len() == mb.len() + metas_bytes(rest).len());
        assert(bytes.subrange(pos, pos + mb.len()) =~= mb) by {
            assert forall|j: int| 0 <= j < mb.len() implies bytes[pos + j] == mb[j] by {
                assert(bytes.skip(pos)[j] == mb[j]);
            }
        }
        lemma_meta_read_back(bytes, pos, m);
        let next = pos + mb.len();
        assert(bytes.skip(next) =~= metas_bytes(rest)) by {
            assert forall|j: int| 0 <= j < metas_bytes(rest).len() implies bytes[next + j]
                == metas_bytes(rest)[j] by {
                assert(bytes.skip(pos)[mb.len() + j] == metas_bytes(rest)[j]);
            }
        }
        assert forall|i: int| 0 <= i < rest.len() implies valid_meta(#[trigger] rest[i]) by {
            assert(rest[i] == ms[i + 1]);
        }
        lemma_parse_suffix(bytes, next, rest);
    }
}

/// Reading what was written gives the index back: valid index entries,
/// written out, parse as themselves.
pub proof fn lemma_parse_of_metas_bytes(ms: Seq<Meta>)
    requires
        valid_metas(ms),
    ensures
        parse_metas(metas_bytes(ms)) == Some(ms),
{
    assert(metas_bytes(ms).skip(0) =~= metas_bytes(ms));
    lemma_parse_suffix(metas_bytes(ms), 0, ms);
}

/// What is read from `pos` on is valid, and written out it is the bytes
/// from `pos` on.
proof fn lemma_unparse_suffix(bytes: Seq<u8>, pos: int)
    requires
        parse_metas_from(bytes, pos) is Some,
    ensures
        0 <= pos <= bytes.len(),
        valid_metas(parse_metas_from(bytes, pos).unwrap()),
        metas_bytes(parse_metas_from(bytes, pos).unwrap()) == bytes.skip(pos),
    decreases bytes.len() - pos,
{
    if pos == bytes.len() {
        assert(bytes.skip(pos) =~= Seq::<u8>::empty());
    } else {
        let m = meta_at(bytes, pos);
        let next = meta_end(bytes, pos);
        lemma_unparse_suffix(bytes, next);
        let rest = parse_metas_from(bytes, next).unwrap();
        let ms = seq![m] + rest;
        assert(parse_metas_from(bytes, pos) == Some(ms));
        lemma_u32_bytes_of_value(bytes, pos);
        lemma_u16_bytes_of_value(bytes, pos + 4);
        assert(valid_meta(m));
        assert(meta_bytes(m) =~= bytes.subrange(pos, pos + 4) + bytes.subrange(pos + 4, pos + 6)
            + bytes.subrange(pos + 6, next));
        lemma_metas_bytes_concat(seq![m], rest);
        lemma_metas_bytes_one(m);
        assert(meta_bytes(m) + bytes.skip(next) =~= bytes.skip(pos));
        assert forall|i: int| 0 <= i < ms.len() implies valid_meta(#[trigger] ms[i]) by {
            if i > 0 {
                assert(ms[i] == rest[i - 1]);
            }
        }
    }
}

/// Writing what was read gives the bytes back: a byte string that parses
/// as an index is the encoding of the entries it parses as, and these are
/// valid.
pub proof fn lemma_metas_bytes_of_parse(bytes: Seq<u8>)
    requires
        parse_metas(bytes) is Some,
    ensures
        valid_metas(parse_metas(bytes).unwrap()),
        metas_bytes(parse_metas(bytes).unwrap()) == bytes,
{
    lemma_unparse_suffix(bytes, 0);
    assert(bytes.skip(0) =~= bytes);
}

/// A scan that passes no first key after `key` up to `at`, and finds one
/// at `at`, ends at `at`.
proof fn lemma_first_above_reaches(ms: Seq<Meta>, key: Seq<u8>, i: int, at: int)
    requires
        0 <= i <= at <= ms.len(),
        forall|j: int| 0 <= j < at ==> !key_lt(key, #[trigger] ms[j].first_key),
        at < ms.len() ==> key_lt(key, ms[at].first_key),
    ensures
        first_above_from(ms, key, i) == at,
    decreases at - i,
{
    if i < at {
        lemma_first_above_reaches(ms, key, i + 1, at);
    }
}

/// A partition of sorted index entries into those whose first key is not
/// after `key` and those whose first key is, gives the floor index: the
/// entry just before the split, or 0.
pub proof fn lemma_floor_index_of_split(ms: Seq<Meta>, key: Seq<u8>, split: int)
    requires
        0 <= split <= ms.len(),
        forall|j: int| 0 <= j < split ==> !key_lt(key, #[trigger] ms[j].first_key),
        forall|j: int| split <= j < ms.len() ==> key_lt(key, #[trigger] ms[j].first_key),
    ensures
        floor_index(ms, key) == if split == 0 {
            0
        } else {
            split - 1
        },
{
    lemma_first_above_reaches(ms, key, 0, split);
}

/// The floor index is 0 for a key that comes before the first key of the
/// first block, and on an empty index.
pub proof fn lemma_floor_index_below_first(ms: Seq<Meta>, key: Seq<u8>)
    requires
        ms.len() > 0 ==> key_lt(key, ms[0].first_key),
    ensures
        floor_index(ms, key) == 0,
{
}

/// On a sorted index the floor index of a block's own first key is that
/// block's index.
pub proof fn lemma_floor_index_at_first_key(ms: Seq<Meta>, i: int)
    requires
        sorted_metas(ms),
        0 <= i < ms.len(),
    ensures
        floor_index(ms, ms[i].first_key) == i,
{
    let key = ms[i].first_key;
    assert forall|j: int| 0 <= j < i + 1 implies !key_lt(key, #[trigger] ms[j].first_key) by {
        lemma_key_lt_irreflexive(key);
        if j < i {
            assert(key_lt(ms[j].first_key, ms[i].first_key));
            lemma_key_lt_asymmetric(ms[j].first_key, key);
        }
    }
    assert forall|j: int| i + 1 <= j < ms.len() implies key_lt(key, #[trigger] ms[j].first_key) by {
        assert(key_lt(ms[i].first_key, ms[j].first_key));
    }
    lemma_floor_index_of_split(ms, key, i + 1);
}

/// On a sorted index the floor index names the one block that can hold
/// `key`: its first key is not after `key`, unless every first key is, and
/// the first key of every later block is after `key`.
pub proof fn lemma_floor_index_sorted(ms: Seq<Meta>, key: Seq<u8>)
    requires
        sorted_metas(ms),
        ms.len() > 0,
    ensures
        0 <= floor_index(ms, key) < ms.len(),
        key_lt(key, ms[floor_index(ms, key)].first_key) ==> floor_index(ms, key) == 0,
        forall|j: int|
            floor_index(ms, key) < j < ms.len() ==> key_lt(key, #[trigger] ms[j].first_key),
{
    lemma_first_above_from(ms, key, 0);
    let split = first_above_from(ms, key, 0);
    assert forall|j: int| floor_index(ms, key) < j < ms.len() implies key_lt(
        key,
        #[trigger] ms[j].first_key,
    ) by {
        if split < j {
            assert(key_lt(ms[split].first_key, ms[j].first_key));
            lemma_key_lt_transitive(key, ms[split].first_key, ms[j].first_key);
        }
    }
}

/// What the scan from `i` finds: an index from `i` on with no first key
/// after `key` between `i` and it, and such a first key at it.
proof fn lemma_first_above_from(ms: Seq<Meta>, key: Seq<u8>, i: int)
    requires
        0 <= i <= ms.len(),
    ensures
        i <= first_above_from(ms, key, i) <= ms.len(),
        forall|j: int|
            i <= j < first_above_from(ms, key, i) ==> !key_lt(key, #[trigger] ms[j].first_key),
        first_above_from(ms, key, i) < ms.len() ==> key_lt(
            key,
            ms[first_above_from(ms, key, i)].first_key,
        ),
    decreases ms.len() - i,
{
    if i < ms.len() && !key_lt(key, ms[i].first_key) {
        lemma_first_above_from(ms, key, i + 1);
    }
}

} // verus!
