//! The byte layout of a block, stated twice and proved to agree.
//!
//! `block_bytes` says what bytes a sequence of entries is written as.
//! `parse_block` says which entries a byte string is read as, by following
//! the offset index the way a reader does. The lemmas at the end show that
//! each undoes the other.

use vstd::prelude::*;
use crate::wire::{u16_at, u16_bytes, lemma_u16_bytes_of_value};
use crate::key::key_lt;

verus! {

/// One key-value pair of a block.
pub struct Entry {
    pub key: Seq<u8>,
    pub value: Seq<u8>,
}

/// An entry as it is written: key length, key, value length, value.
pub open spec fn entry_bytes(e: Entry) -> Seq<u8> {
    u16_bytes(e.key.len() as u16) + e.key + u16_bytes(e.value.len() as u16) + e.value
}

/// The entries written one after another, with nothing between them.
pub open spec fn entries_bytes(es: Seq<Entry>) -> Seq<u8>
    decreases es.len(),
{
    if es.len() == 0 {
        Seq::empty()
    } else {
        entries_bytes(es.drop_last()) + entry_bytes(es.last())
    }
}

/// The position in the entry data at which entry `i` begins.
pub open spec fn entry_start(es: Seq<Entry>, i: int) -> int {
    entries_bytes(es.take(i)).len() as int
}

/// The offset index of a block: where each entry begins.
pub open spec fn entry_offsets(es: Seq<Entry>) -> Seq<u16> {
    Seq::new(es.len(), |i: int| entry_start(es, i) as u16)
}

/// The offset index as it is written: two bytes for each offset.
pub open spec fn offsets_bytes(offsets: Seq<u16>) -> Seq<u8>
    decreases offsets.len(),
{
    if offsets.len() == 0 {
        Seq::empty()
    } else {
        offsets_bytes(offsets.drop_last()) + u16_bytes(offsets.last())
    }
}

/// A block as it is written: the entries, the offset index, the number of
/// entries.
pub open spec fn block_bytes(es: Seq<Entry>) -> Seq<u8> {
    entries_bytes(es) + offsets_bytes(entry_offsets(es)) + u16_bytes(es.len() as u16)
}

/// The number of bytes that a block of these entries is written as.
pub open spec fn block_len(es: Seq<Entry>) -> nat {
    entries_bytes(es).len() + 2 * es.len() + 2
}

/// An entry that the format can hold: a key that is not empty, and lengths
/// that fit their 16-bit fields.
pub open spec fn valid_entry(e: Entry) -> bool {
    1 <= e.key.len() <= 0xFFFF && e.value.len() <= 0xFFFF
}

/// Entries that one block can hold: each is valid, and the last one (and
/// so each of them) begins at a position that fits a 16-bit offset.
pub open spec fn valid_entries(es: Seq<Entry>) -> bool {
    &&& forall|i: int| 0 <= i < es.len() ==> valid_entry(#[trigger] es[i])
    &&& es.len() > 0 ==> entry_start(es, es.len() - 1) <= 0xFFFF
}

/// The keys come in strictly ascending order.
pub open spec fn sorted_entries(es: Seq<Entry>) -> bool {
    forall|i: int, j: int| 0 <= i < j < es.len() ==> key_lt(#[trigger] es[i].key, #[trigger] es[j].key)
}

/// The key length that the entry beginning at `off` declares.
pub open spec fn key_len_at(data: Seq<u8>, off: int) -> int {
    u16_at(data, off)
}

/// The value length that the entry beginning at `off` declares.
pub open spec fn value_len_at(data: Seq<u8>, off: int) -> int {
    u16_at(data, off + 2 + key_len_at(data, off))
}

/// The position just behind the entry beginning at `off`.
pub open spec fn entry_end(data: Seq<u8>, off: int) -> int {
    off + 4 + key_len_at(data, off) + value_len_at(data, off)
}

/// The entry read at `off`.
pub open spec fn entry_at(data: Seq<u8>, off: int) -> Entry {
    Entry {
        key: data.subrange(off + 2, off + 2 + key_len_at(data, off)),
        value: data.subrange(off + 4 + key_len_at(data, off), entry_end(data, off)),
    }
}

/// A whole entry with a non-empty key lies at `off`, inside `data`.
pub open spec fn entry_fits(data: Seq<u8>, off: int) -> bool {
    &&& 0 <= off
    &&& off + 4 <= data.len()
    &&& 1 <= key_len_at(data, off)
    &&& off + 4 + key_len_at(data, off) <= data.len()
    &&& entry_end(data, off) <= data.len()
}

/// The offsets index the entries of `data` exactly: the first entry begins
/// at 0, each entry ends where the next begins, and the last ends with the
/// data.
#[verifier::opaque]
pub open spec fn layout_ok(data: Seq<u8>, offsets: Seq<u16>) -> bool {
    &&& offsets.len() == 0 ==> data.len() == 0
    &&& offsets.len() > 0 ==> offsets[0] == 0 && entry_end(data, offsets.last() as int)
        == data.len()
    &&& forall|i: int| 0 <= i < offsets.len() ==> entry_fits(data, #[trigger] offsets[i] as int)
    &&& forall|i: int, j: int|
        0 <= i && j == i + 1 && j < offsets.len() ==> entry_end(data, #[trigger] offsets[i] as int)
            == #[trigger] offsets[j]
}

/// The entries that the offsets point at.
pub open spec fn entries_of(data: Seq<u8>, offsets: Seq<u16>) -> Seq<Entry> {
    Seq::new(offsets.len(), |i: int| entry_at(data, offsets[i] as int))
}

/// The number of entries that the last two bytes of a block declare.
pub open spec fn declared_count(bytes: Seq<u8>) -> int {
    u16_at(bytes, bytes.len() - 2)
}

/// Where the entry data of a block ends and its offset index begins.
pub open spec fn data_end(bytes: Seq<u8>) -> int {
    bytes.len() - 2 - 2 * declared_count(bytes)
}

/// The offset index read from a block.
pub open spec fn offsets_in(bytes: Seq<u8>) -> Seq<u16> {
    Seq::new(declared_count(bytes) as nat, |i: int| u16_at(bytes, data_end(bytes) + 2 * i) as u16)
}

/// The entries that `bytes` is read as, or `None` where `bytes` is no
/// block: too short for its count, or with an offset index that does not
/// index its entry data exactly.
pub open spec fn parse_block(bytes: Seq<u8>) -> Option<Seq<Entry>> {
    if bytes.len() < 2 || data_end(bytes) < 0 {
        None
    } else if !layout_ok(bytes.take(data_end(bytes)), offsets_in(bytes)) {
        None
    } else {
        Some(entries_of(bytes.take(data_end(bytes)), offsets_in(bytes)))
    }
}

/// The position where entry `i` begins, or the end of the data for `i`
/// past the last entry.
pub open spec fn boundary(data: Seq<u8>, offsets: Seq<u16>, i: int) -> int {
    if i < offsets.len() {
        offsets[i] as int
    } else {
        data.len() as int
    }
}

/// An entry that fits is, byte for byte, its own encoding.
pub proof fn lemma_entry_at_bytes(data: Seq<u8>, off: int)
    requires
        entry_fits(data, off),
    ensures
        valid_entry(entry_at(data, off)),
        entry_bytes(entry_at(data, off)) == data.subrange(off, entry_end(data, off)),
{
    let kl = key_len_at(data, off);
    let vl = value_len_at(data, off);
    lemma_u16_bytes_of_value(data, off);
    lemma_u16_bytes_of_value(data, off + 2 + kl);
    let e = entry_at(data, off);
    assert(e.key.len() == kl);
    assert(e.value.len() == vl);
    assert(entry_bytes(e) =~= data.subrange(off, off + 2) + data.subrange(off + 2, off + 2 + kl)
        + data.subrange(off + 2 + kl, off + 4 + kl) + data.subrange(off + 4 + kl, off + 4 + kl + vl));
    assert(entry_bytes(e) =~= data.subrange(off, entry_end(data, off)));
}

/// In a layout the entries before entry `k` are written as the data before
/// the position where entry `k` begins.
proof fn lemma_layout_prefix(data: Seq<u8>, offsets: Seq<u16>, k: int)
    requires
        layout_ok(data, offsets),
        0 <= k <= offsets.len(),
    ensures
        0 <= boundary(data, offsets, k) <= data.len(),
        entries_bytes(entries_of(data, offsets).take(k)) == data.take(boundary(data, offsets, k)),
    decreases k,
{
    reveal(layout_ok);
    let es = entries_of(data, offsets);
    if k == 0 {
        assert(es.take(0) =~= Seq::<Entry>::empty());
        assert(data.take(0) =~= Seq::<u8>::empty());
    } else {
        lemma_layout_prefix(data, offsets, k - 1);
        let off = offsets[k - 1] as int;
        assert(entry_fits(data, off));
        lemma_entry_at_bytes(data, off);
        assert(es.take(k).drop_last() =~= es.take(k - 1));
        assert(es.take(k).last() == entry_at(data, off));
        if k < offsets.len() {
            assert(entry_end(data, off) == offsets[k]);
        }
        assert(entry_end(data, off) == boundary(data, offsets, k));
        assert(data.take(off) + data.subrange(off, entry_end(data, off)) =~= data.take(
            entry_end(data, off),
        ));
    }
}

/// In a layout every entry is valid and begins where its offset says.
proof fn lemma_layout_entry(data: Seq<u8>, offsets: Seq<u16>, i: int)
    requires
        layout_ok(data, offsets),
        0 <= i < offsets.len(),
    ensures
        valid_entry(entries_of(data, offsets)[i]),
        entry_start(entries_of(data, offsets), i) == offsets[i],
{
    reveal(layout_ok);
    lemma_layout_prefix(data, offsets, i);
    assert(entry_fits(data, offsets[i] as int));
    lemma_entry_at_bytes(data, offsets[i] as int);
}

/// The data of a layout are its entries written one after another.
pub proof fn lemma_layout_data(data: Seq<u8>, offsets: Seq<u16>)
    requires
        layout_ok(data, offsets),
    ensures
        entries_bytes(entries_of(data, offsets)) == data,
{
    let es = entries_of(data, offsets);
    lemma_layout_prefix(data, offsets, offsets.len() as int);
    assert(es.take(offsets.len() as int) =~= es);
    assert(data.take(data.len() as int) =~= data);
}

/// The entries of a layout are entries that a block can hold.
pub proof fn lemma_layout_valid(data: Seq<u8>, offsets: Seq<u16>)
    requires
        layout_ok(data, offsets),
    ensures
        valid_entries(entries_of(data, offsets)),
{
    let es = entries_of(data, offsets);
    assert forall|i: int| 0 <= i < es.len() implies valid_entry(#[trigger] es[i]) by {
        lemma_layout_entry(data, offsets, i);
    }
    if es.len() > 0 {
        lemma_layout_entry(data, offsets, es.len() - 1);
    }
}

/// The offsets of a layout are where its entries begin.
pub proof fn lemma_layout_offsets(data: Seq<u8>, offsets: Seq<u16>)
    requires
        layout_ok(data, offsets),
    ensures
        entry_offsets(entries_of(data, offsets)) == offsets,
{
    let es = entries_of(data, offsets);
    assert forall|i: int| 0 <= i < es.len() implies entry_offsets(es)[i] == offsets[i] by {
        lemma_layout_entry(data, offsets, i);
    }
    assert(entry_offsets(es) =~= offsets);
}

/// What a layout holds is its own entries' encoding: the data are the
/// entries written one after another, and the offsets are where they begin.
pub proof fn lemma_layout_is_encoding(data: Seq<u8>, offsets: Seq<u16>)
    requires
        layout_ok(data, offsets),
    ensures
        valid_entries(entries_of(data, offsets)),
        entries_bytes(entries_of(data, offsets)) == data,
        entry_offsets(entries_of(data, offsets)) == offsets,
{
    lemma_layout_data(data, offsets);
    lemma_layout_valid(data, offsets);
    lemma_layout_offsets(data, offsets);
}

/// Appending an entry appends its bytes.
pub proof fn lemma_entries_bytes_push(es: Seq<Entry>, e: Entry)
    ensures
        entries_bytes(es.push(e)) == entries_bytes(es) + entry_bytes(e),
        entries_bytes(es.push(e)).len() == entries_bytes(es).len() + 4 + e.key.len() + e.value.len(),
{
    assert(es.push(e).drop_last() =~= es);
}

/// The entries before entry `k` are written as a prefix of the whole, and
/// entry `k` follows them directly.
proof fn lemma_entries_prefix(es: Seq<Entry>, k: int)
    requires
        0 <= k <= es.len(),
    ensures
        0 <= entry_start(es, k) <= entries_bytes(es).len(),
        entries_bytes(es.take(k)) == entries_bytes(es).take(entry_start(es, k)),
        k < es.len() ==> entries_bytes(es.take(k + 1)) == entries_bytes(es.take(k)) + entry_bytes(
            es[k],
        ),
    decreases es.len(),
{
    if k == es.len() {
        assert(es.take(k) =~= es);
        assert(entries_bytes(es).take(entries_bytes(es).len() as int) =~= entries_bytes(es));
    } else {
        let front = es.drop_last();
        lemma_entries_prefix(front, k);
        assert(front.take(k) =~= es.take(k));
        assert(entries_bytes(front).take(entry_start(es, k)) =~= entries_bytes(es).take(
            entry_start(es, k),
        ));
        assert(es.take(k + 1).drop_last() =~= es.take(k));
    }
}

/// Every entry takes at least five bytes, so entry `i` begins at `5 * i` or
/// later.
proof fn lemma_entry_start_lower_bound(es: Seq<Entry>, i: int)
    requires
        0 <= i <= es.len(),
        forall|j: int| 0 <= j < es.len() ==> valid_entry(#[trigger] es[j]),
    ensures
        entry_start(es, i) >= 5 * i,
    decreases i,
{
    if i > 0 {
        lemma_entry_start_lower_bound(es, i - 1);
        lemma_entries_prefix(es, i - 1);
        assert(valid_entry(es[i - 1]));
    }
}

/// A block holds fewer than 65536 entries.
pub proof fn lemma_valid_entries_count(es: Seq<Entry>)
    requires
        valid_entries(es),
    ensures
        es.len() <= 0xFFFF,
{
    if es.len() > 0 {
        lemma_entry_start_lower_bound(es, es.len() - 1);
    }
}

/// Entries begin in the order in which they stand.
pub proof fn lemma_entry_start_monotonic(es: Seq<Entry>, i: int, j: int)
    requires
        0 <= i <= j <= es.len(),
    ensures
        0 <= entry_start(es, i) <= entry_start(es, j) <= entries_bytes(es).len(),
{
    lemma_entries_prefix(es.take(j), i);
    assert(es.take(j).take(i) =~= es.take(i));
    lemma_entries_prefix(es, j);
}

/// Where the bytes at `off` are the encoding of a valid entry, that entry
/// is what is read there.
proof fn lemma_entry_read_back(data: Seq<u8>, off: int, e: Entry)
    requires
        valid_entry(e),
        0 <= off,
        off + entry_bytes(e).len() <= data.len(),
        data.subrange(off, off + entry_bytes(e).len()) == entry_bytes(e),
    ensures
        entry_fits(data, off),
        entry_end(data, off) == off + entry_bytes(e).len(),
        entry_at(data, off) == e,
{
    let eb = entry_bytes(e);
    let kl = e.key.len() as int;
    let vl = e.value.len() as int;
    assert(eb.len() == 4 + kl + vl);
    assert forall|j: int| 0 <= j < eb.len() implies data[off + j] == eb[j] by {
        assert(data.subrange(off, off + eb.len())[j] == data[off + j]);
    }
    assert(data[off] == eb[0] && data[off + 1] == eb[1]);
    assert(key_len_at(data, off) == kl);
    assert(data[off + 2 + kl] == eb[2 + kl] && data[off + 3 + kl] == eb[3 + kl]);
    assert(value_len_at(data, off) == vl);
    assert(entry_at(data, off).key =~= e.key) by {
        assert forall|j: int| 0 <= j < kl implies data[off + 2 + j] == e.key[j] by {
            assert(eb[2 + j] == e.key[j]);
        }
    }
    assert(entry_at(data, off).value =~= e.value) by {
        assert forall|j: int| 0 <= j < vl implies data[off + 4 + kl + j] == e.value[j] by {
            assert(eb[4 + kl + j] == e.value[j]);
        }
    }
}

/// In the encoding of valid entries, entry `i` is read back at its start
/// and ends where the next begins.
proof fn lemma_encoding_entry(es: Seq<Entry>, i: int)
    requires
        valid_entries(es),
        0 <= i < es.len(),
    ensures
        entry_fits(entries_bytes(es), entry_start(es, i)),
        entry_end(entries_bytes(es), entry_start(es, i)) == entry_start(es, i + 1),
        entry_at(entries_bytes(es), entry_start(es, i)) == es[i],
        0 <= entry_start(es, i) <= 0xFFFF,
        entry_start(es, i + 1) <= entries_bytes(es).len(),
{
    let data = entries_bytes(es);
    let lo = entry_start(es, i);
    let hi = entry_start(es, i + 1);
    lemma_entries_prefix(es, i);
    lemma_entries_prefix(es, i + 1);
    lemma_entry_start_monotonic(es, i, es.len() - 1);
    assert(valid_entry(es[i]));
    assert(data.subrange(lo, hi) =~= entry_bytes(es[i])) by {
        assert(data.take(hi) == data.take(lo) + entry_bytes(es[i]));
        assert forall|j: int| 0 <= j < hi - lo implies data[lo + j] == entry_bytes(es[i])[j] by {
            assert(data.take(hi)[lo + j] == entry_bytes(es[i])[j]);
        }
    }
    lemma_entry_read_back(data, lo, es[i]);
}

/// The encoding of valid entries is a layout, and reads back as them.
pub proof fn lemma_encoding_is_layout(es: Seq<Entry>)
    requires
        valid_entries(es),
    ensures
        layout_ok(entries_bytes(es), entry_offsets(es)),
        entries_of(entries_bytes(es), entry_offsets(es)) == es,
{
    reveal(layout_ok);
    let data = entries_bytes(es);
    let offsets = entry_offsets(es);
    assert forall|i: int| 0 <= i < offsets.len() implies entry_fits(
        data,
        #[trigger] offsets[i] as int,
    ) && offsets[i] == entry_start(es, i) && entry_at(data, offsets[i] as int) == es[i]
        && entry_end(data, offsets[i] as int) == entry_start(es, i + 1) by {
        lemma_encoding_entry(es, i);
    }
    if es.len() == 0 {
        assert(es.take(0) =~= es);
    } else {
        assert(es.take(0) =~= Seq::<Entry>::empty());
        assert(es.take(es.len() as int) =~= es);
    }
    assert(entries_of(data, offsets) =~= es);
}

/// An offset index of `n` offsets is written as `2 * n` bytes, and offset
/// `i` is read back from position `2 * i`.
pub proof fn lemma_offsets_bytes_index(offsets: Seq<u16>, i: int)
    requires
        0 <= i < offsets.len(),
    ensures
        offsets_bytes(offsets).len() == 2 * offsets.len(),
        u16_at(offsets_bytes(offsets), 2 * i) == offsets[i],
    decreases offsets.len(),
{
    let front = offsets.drop_last();
    lemma_offsets_bytes_len(front);
    if i < front.len() {
        lemma_offsets_bytes_index(front, i);
    }
}

/// An offset index of `n` offsets is written as `2 * n` bytes.
pub proof fn lemma_offsets_bytes_len(offsets: Seq<u16>)
    ensures
        offsets_bytes(offsets).len() == 2 * offsets.len(),
    decreases offsets.len(),
{
    if offsets.len() > 0 {
        lemma_offsets_bytes_len(offsets.drop_last());
    }
}

/// The offsets read from `2 * n` bytes are written as those bytes.
proof fn lemma_offsets_read_back(bytes: Seq<u8>, start: int, n: nat)
    requires
        0 <= start,
        start + 2 * n <= bytes.len(),
    ensures
        offsets_bytes(Seq::new(n, |i: int| u16_at(bytes, start + 2 * i) as u16)) == bytes.subrange(
            start,
            start + 2 * n,
        ),
    decreases n,
{
    let offsets = Seq::new(n, |i: int| u16_at(bytes, start + 2 * i) as u16);
    if n == 0 {
        assert(bytes.subrange(start, start) =~= Seq::<u8>::empty());
    } else {
        let m = (n - 1) as nat;
        lemma_offsets_read_back(bytes, start, m);
        assert(offsets.drop_last() =~= Seq::new(m, |i: int| u16_at(bytes, start + 2 * i) as u16));
        lemma_u16_bytes_of_value(bytes, start + 2 * m);
        assert(bytes.subrange(start, start + 2 * m) + bytes.subrange(start + 2 * m, start + 2 * n)
            =~= bytes.subrange(start, start + 2 * n));
    }
}

/// A block of `n` entries is written as the entries' bytes, `2 * n` bytes
/// of offsets, and two bytes for `n`.
pub proof fn lemma_block_len(es: Seq<Entry>)
    ensures
        block_bytes(es).len() == block_len(es),
{
    lemma_offsets_bytes_len(entry_offsets(es));
}

/// The parts of an encoded block: its length, the count it declares, where
/// its data end, and the offsets it holds.
proof fn lemma_block_bytes_parts(es: Seq<Entry>)
    requires
        valid_entries(es),
    ensures
        block_bytes(es).len() == block_len(es),
        declared_count(block_bytes(es)) == es.len(),
        data_end(block_bytes(es)) == entries_bytes(es).len(),
        block_bytes(es).take(data_end(block_bytes(es))) == entries_bytes(es),
        offsets_in(block_bytes(es)) == entry_offsets(es),
{
    let data = entries_bytes(es);
    let offsets = entry_offsets(es);
    let index = offsets_bytes(offsets);
    let bytes = block_bytes(es);
    lemma_valid_entries_count(es);
    lemma_offsets_bytes_len(offsets);
    assert(bytes.len() == data.len() + 2 * es.len() + 2);
    assert(bytes[bytes.len() - 2] == u16_bytes(es.len() as u16)[0]);
    assert(bytes[bytes.len() - 1] == u16_bytes(es.len() as u16)[1]);
    assert(declared_count(bytes) == es.len());
    assert(bytes.take(data.len() as int) =~= data);
    assert forall|i: int| 0 <= i < es.len() implies offsets_in(bytes)[i] == offsets[i] by {
        lemma_offsets_bytes_index(offsets, i);
        assert(bytes[data.len() + 2 * i] == index[2 * i]);
        assert(bytes[data.len() + 2 * i + 1] == index[2 * i + 1]);
    }
    assert(offsets_in(bytes) =~= offsets);
}

/// Reading what was written gives the entries back: valid entries, encoded
/// as a block, parse as themselves.
pub proof fn lemma_parse_of_block_bytes(es: Seq<Entry>)
    requires
        valid_entries(es),
    ensures
        parse_block(block_bytes(es)) == Some(es),
{
    lemma_block_bytes_parts(es);
    lemma_encoding_is_layout(es);
}

/// A byte string is its data, its offset index and its count, in turn.
proof fn lemma_block_bytes_assemble(bytes: Seq<u8>, es: Seq<Entry>)
    requires
        bytes.len() >= 2,
        data_end(bytes) >= 0,
        es.len() == declared_count(bytes),
        entries_bytes(es) == bytes.take(data_end(bytes)),
        entry_offsets(es) == offsets_in(bytes),
    ensures
        block_bytes(es) == bytes,
{
    let end = data_end(bytes);
    let count = declared_count(bytes);
    lemma_offsets_read_back(bytes, end, count as nat);
    lemma_u16_bytes_of_value(bytes, bytes.len() - 2);
    assert(bytes.take(end) + bytes.subrange(end, end + 2 * count) + bytes.subrange(
        bytes.len() - 2,
        bytes.len() as int,
    ) =~= bytes);
}

/// Writing what was read gives the bytes back: a byte string that parses
/// is the encoding of the entries it parses as, and these are valid.
pub proof fn lemma_block_bytes_of_parse(bytes: Seq<u8>)
    requires
        parse_block(bytes) is Some,
    ensures
        valid_entries(parse_block(bytes).unwrap()),
        block_bytes(parse_block(bytes).unwrap()) == bytes,
{
    let data = bytes.take(data_end(bytes));
    let offsets = offsets_in(bytes);
    lemma_layout_is_encoding(data, offsets);
    lemma_block_bytes_assemble(bytes, entries_of(data, offsets));
}

/// Appending the encoding of a valid entry to a layout, and the position
/// where it begins to the offsets, gives a layout with that entry added.
pub proof fn lemma_layout_push(data: Seq<u8>, offsets: Seq<u16>, e: Entry)
    requires
        layout_ok(data, offsets),
        valid_entry(e),
        data.len() <= 0xFFFF,
    ensures
        layout_ok(data + entry_bytes(e), offsets.push(data.len() as u16)),
        entries_of(data + entry_bytes(e), offsets.push(data.len() as u16)) == entries_of(
            data,
            offsets,
        ).push(e),
{
    let es = entries_of(data, offsets);
    let grown = es.push(e);
    lemma_layout_is_encoding(data, offsets);
    lemma_entries_bytes_push(es, e);
    assert(grown.take(es.len() as int) =~= es);
    assert(valid_entries(grown));
    assert forall|i: int| 0 <= i < grown.len() implies entry_offsets(grown)[i] == offsets.push(
        data.len() as u16,
    )[i] by {
        if i < es.len() {
            assert(grown.take(i) =~= es.take(i));
        }
    }
    assert(entry_offsets(grown) =~= offsets.push(data.len() as u16));
    lemma_encoding_is_layout(grown);
}

/// A layout has fewer than 65536 offsets and fewer than 200000 bytes of
/// data: its last entry begins within 16 bits, and its lengths fit 16 bits.
pub proof fn lemma_layout_size(data: Seq<u8>, offsets: Seq<u16>)
    requires
        layout_ok(data, offsets),
    ensures
        offsets.len() <= 0xFFFF,
        data.len() <= 0x3_0002,
{
    reveal(layout_ok);
    lemma_layout_valid(data, offsets);
    lemma_valid_entries_count(entries_of(data, offsets));
    if offsets.len() > 0 {
        assert(entry_fits(data, offsets.last() as int));
    }
}

/// In a layout a whole entry lies at every offset, and it is the entry of
/// that index.
pub proof fn lemma_layout_entry_fits(data: Seq<u8>, offsets: Seq<u16>, i: int)
    requires
        layout_ok(data, offsets),
        0 <= i < offsets.len(),
    ensures
        entry_fits(data, offsets[i] as int),
        entries_of(data, offsets)[i] == entry_at(data, offsets[i] as int),
        valid_entry(entries_of(data, offsets)[i]),
{
    reveal(layout_ok);
    lemma_entry_at_bytes(data, offsets[i] as int);
}

} // verus!
