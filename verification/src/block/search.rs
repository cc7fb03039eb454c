//! Where a key stands among the entries of a block.
//!
//! `first_not_below` is the answer of a scan from the front: the first
//! entry whose key is the target or comes after it. `bisect` is the answer
//! of a search by halving. On sorted entries the two agree.

use vstd::prelude::*;
use crate::block::format::{sorted_entries, Entry};
use crate::key::{
    key_lt, lemma_key_lt_irreflexive, lemma_key_lt_total, lemma_key_lt_transitive,
};

verus! {

/// The first index from `i` on whose key is not before `target`, or the
/// number of entries where there is none.
pub open spec fn scan_from(es: Seq<Entry>, target: Seq<u8>, i: int) -> int
    decreases es.len() - i,
{
    if i < 0 || i >= es.len() {
        es.len() as int
    } else if !key_lt(es[i].key, target) {
        i
    } else {
        scan_from(es, target, i + 1)
    }
}

/// The index of the first entry whose key is `target` or comes after it,
/// or the number of entries where every key comes before `target`.
pub open spec fn first_not_below(es: Seq<Entry>, target: Seq<u8>) -> int {
    scan_from(es, target, 0)
}

/// The index that a search by halving between `low` and `high` ends on: it
/// looks at the middle entry, goes on above it where that key is before
/// `target`, stops there where it is `target`, and goes on below it
/// otherwise.
pub open spec fn bisect(es: Seq<Entry>, target: Seq<u8>, low: int, high: int) -> int
    decreases high - low,
{
    if low < 0 || low >= high || high > es.len() {
        low
    } else {
        let mid = (low + high) / 2;
        if key_lt(es[mid].key, target) {
            bisect(es, target, mid + 1, high)
        } else if es[mid].key == target {
            mid
        } else {
            bisect(es, target, low, mid)
        }
    }
}

/// A scan that passes only keys before the target up to `at`, and finds no
/// such key at `at`, ends at `at`.
proof fn lemma_scan_reaches(es: Seq<Entry>, target: Seq<u8>, i: int, at: int)
    requires
        0 <= i <= at <= es.len(),
        forall|j: int| 0 <= j < at ==> key_lt(#[trigger] es[j].key, target),
        at < es.len() ==> !key_lt(es[at].key, target),
    ensures
        scan_from(es, target, i) == at,
    decreases at - i,
{
    if i < at {
        lemma_scan_reaches(es, target, i + 1, at);
    }
}

/// What the scan from `i` finds: an index from `i` on with only keys before
/// the target between `i` and it, and no such key at it.
proof fn lemma_scan_from(es: Seq<Entry>, target: Seq<u8>, i: int)
    requires
        0 <= i <= es.len(),
    ensures
        i <= scan_from(es, target, i) <= es.len(),
        forall|j: int| i <= j < scan_from(es, target, i) ==> key_lt(#[trigger] es[j].key, target),
        scan_from(es, target, i) < es.len() ==> !key_lt(
            es[scan_from(es, target, i)].key,
            target,
        ),
    decreases es.len() - i,
{
    if i < es.len() && key_lt(es[i].key, target) {
        lemma_scan_from(es, target, i + 1);
    }
}

/// An index with only keys before the target in front of it, and no such
/// key at it, is `first_not_below`.
pub proof fn lemma_first_not_below_of_split(es: Seq<Entry>, target: Seq<u8>, at: int)
    requires
        0 <= at <= es.len(),
        forall|j: int| 0 <= j < at ==> key_lt(#[trigger] es[j].key, target),
        at < es.len() ==> !key_lt(es[at].key, target),
    ensures
        first_not_below(es, target) == at,
{
    lemma_scan_reaches(es, target, 0, at);
}

/// `first_not_below` is an index, every key before it comes before the
/// target, and the key at it does not.
pub proof fn lemma_first_not_below(es: Seq<Entry>, target: Seq<u8>)
    ensures
        0 <= first_not_below(es, target) <= es.len(),
        forall|j: int|
            0 <= j < first_not_below(es, target) ==> key_lt(#[trigger] es[j].key, target),
        first_not_below(es, target) < es.len() ==> !key_lt(
            es[first_not_below(es, target)].key,
            target,
        ),
{
    lemma_scan_from(es, target, 0);
}

/// On sorted entries every key from `first_not_below` on is the target or
/// comes after it, so the index splits the entries in two.
pub proof fn lemma_first_not_below_sorted(es: Seq<Entry>, target: Seq<u8>, j: int)
    requires
        sorted_entries(es),
        first_not_below(es, target) <= j < es.len(),
    ensures
        !key_lt(es[j].key, target),
{
    lemma_first_not_below(es, target);
    let at = first_not_below(es, target);
    if at < j && key_lt(es[j].key, target) {
        assert(key_lt(es[at].key, es[j].key));
        lemma_key_lt_transitive(es[at].key, es[j].key, target);
    }
}

/// On sorted entries a search by halving ends where a scan from the front
/// does, given that what lies outside `low..high` is already decided.
pub proof fn lemma_bisect_sorted(es: Seq<Entry>, target: Seq<u8>, low: int, high: int)
    requires
        sorted_entries(es),
        0 <= low <= high <= es.len(),
        forall|j: int| 0 <= j < low ==> key_lt(#[trigger] es[j].key, target),
        forall|j: int| high <= j < es.len() ==> !key_lt(#[trigger] es[j].key, target),
    ensures
        bisect(es, target, low, high) == first_not_below(es, target),
    decreases high - low,
{
    if low >= high {
        lemma_scan_reaches(es, target, 0, low);
    } else {
        let mid = (low + high) / 2;
        let at = es[mid].key;
        if key_lt(at, target) {
            assert forall|j: int| 0 <= j < mid + 1 implies key_lt(#[trigger] es[j].key, target) by {
                if j < mid {
                    assert(key_lt(es[j].key, es[mid].key));
                    lemma_key_lt_transitive(es[j].key, at, target);
                }
            }
            lemma_bisect_sorted(es, target, mid + 1, high);
        } else if at == target {
            lemma_key_lt_irreflexive(target);
            assert forall|j: int| 0 <= j < mid implies key_lt(#[trigger] es[j].key, target) by {
                assert(key_lt(es[j].key, es[mid].key));
            }
            lemma_scan_reaches(es, target, 0, mid);
        } else {
            assert forall|j: int| mid <= j < es.len() implies !key_lt(
                #[trigger] es[j].key,
                target,
            ) by {
                if mid < j && key_lt(es[j].key, target) {
                    assert(key_lt(es[mid].key, es[j].key));
                    lemma_key_lt_transitive(at, es[j].key, target);
                }
            }
            lemma_bisect_sorted(es, target, low, mid);
        }
    }
}

/// On sorted entries the search by halving over the whole block finds the
/// first entry whose key is the target or comes after it.
pub proof fn lemma_bisect_is_first_not_below(es: Seq<Entry>, target: Seq<u8>)
    requires
        sorted_entries(es),
    ensures
        bisect(es, target, 0, es.len() as int) == first_not_below(es, target),
{
    lemma_bisect_sorted(es, target, 0, es.len() as int);
}

} // verus!
