//! What holds of the entries of a tree through insertions and deletions.
//!
//! The operations of the tree state how the sequence of its entries
//! changes; this file draws from that what a search finds afterwards.

use crate::index::layout::Entry;
use crate::index::order::{has_key, inserted, inserted_at, removed, removed_at};
use crate::storage::value::ValueView;
use vstd::prelude::*;

verus! {

/// Whether `states` are the entries of a tree before and after each of the
/// insertions of `items`, one after the other.
pub open spec fn inserted_all(states: Seq<Seq<Entry>>, items: Seq<Entry>) -> bool {
    &&& states.len() == items.len() + 1
    &&& forall|i: int|
        0 <= i < items.len() ==> inserted(#[trigger] states[i], states[i + 1], items[i])
}

/// Whether no two of the entries have one key.
pub open spec fn distinct_keys(items: Seq<Entry>) -> bool {
    forall|i: int, j: int| 0 <= i < j < items.len() ==> items[i].0 != items[j].0
}

/// An entry put in under a key that was not there is the one entry with
/// the key afterwards, and the entries with other keys are those that were
/// there: a search for the key finds the value, and a search for another
/// key what it found before.
pub proof fn lemma_insert_then_search(before: Seq<Entry>, after: Seq<Entry>, e: Entry)
    requires
        inserted(before, after, e),
        !has_key(before, e.0),
    ensures
        has_key(after, e.0),
        forall|v: ValueView| #[trigger] after.contains((e.0, v)) <==> v == e.1,
        forall|x: Entry| x.0 != e.0 ==> (#[trigger] after.contains(x) <==> before.contains(x)),
        forall|k: i32| k != e.0 ==> (#[trigger] has_key(after, k) <==> has_key(before, k)),
{
    let at = choose|at: int| inserted_at(before, after, e, at);
    assert(after[at] == e);
    assert forall|v: ValueView| #[trigger] after.contains((e.0, v)) implies v == e.1 by {
        let i = choose|i: int| 0 <= i < after.len() && after[i] == (e.0, v);
        if i < at {
            assert(before[i].0 == e.0);
        } else if i > at {
            assert(before[i - 1].0 == e.0);
        }
    }
    assert forall|x: Entry| x.0 != e.0 implies (#[trigger] after.contains(x) <==> before.contains(
        x,
    )) by {
        if after.contains(x) {
            let i = choose|i: int| 0 <= i < after.len() && after[i] == x;
            if i < at {
                assert(before[i] == x);
            } else {
                assert(before[i - 1] == x);
            }
        }
        if before.contains(x) {
            let i = choose|i: int| 0 <= i < before.len() && before[i] == x;
            if i < at {
                assert(after[i] == x);
            } else {
                assert(after[i + 1] == x);
            }
        }
    }
    assert forall|k: i32| k != e.0 implies (#[trigger] has_key(after, k) <==> has_key(
        before,
        k,
    )) by {
        if has_key(after, k) {
            let i = choose|i: int| 0 <= i < after.len() && (#[trigger] after[i]).0 == k;
            assert(before.contains(after[i]));
            let j = choose|j: int| 0 <= j < before.len() && before[j] == after[i];
            assert(before[j].0 == k);
        }
        if has_key(before, k) {
            let i = choose|i: int| 0 <= i < before.len() && (#[trigger] before[i]).0 == k;
            assert(after.contains(before[i]));
            let j = choose|j: int| 0 <= j < after.len() && after[j] == before[i];
            assert(after[j].0 == k);
        }
    }
}

/// After insertions under keys that differ, into a tree that was empty, a
/// search for each of the keys finds the value that was put in under it:
/// the tree holds that value against the key, and no other.
pub proof fn lemma_inserts_then_search(states: Seq<Seq<Entry>>, items: Seq<Entry>, i: int)
    requires
        inserted_all(states, items),
        states[0] == Seq::<Entry>::empty(),
        distinct_keys(items),
        0 <= i < items.len(),
    ensures
        has_key(states.last(), items[i].0),
        forall|v: ValueView| #[trigger] states.last().contains((items[i].0, v)) <==> v == items[i].1,
{
    lemma_inserts_keys(states, items, items.len() as int);
    lemma_inserts_found(states, items, i, items.len() as int);
}

/// After the first `n` insertions the tree has the keys of the first `n`
/// items, and no others.
proof fn lemma_inserts_keys(states: Seq<Seq<Entry>>, items: Seq<Entry>, n: int)
    requires
        inserted_all(states, items),
        states[0] == Seq::<Entry>::empty(),
        distinct_keys(items),
        0 <= n <= items.len(),
    ensures
        forall|m: int, k: i32|
            0 <= m <= n ==> (#[trigger] has_key(states[m], k) <==> exists|j: int|
                0 <= j < m && (#[trigger] items[j]).0 == k),
    decreases n,
{
    if n > 0 {
        lemma_inserts_keys(states, items, n - 1);
        let before = states[n - 1];
        let after = states[n];
        let e = items[n - 1];
        assert(inserted(before, after, e));
        assert(!has_key(before, e.0)) by {
            if has_key(before, e.0) {
                let j = choose|j: int| 0 <= j < n - 1 && (#[trigger] items[j]).0 == e.0;
            }
        }
        lemma_insert_then_search(before, after, e);
        assert forall|k: i32| #[trigger]
            has_key(after, k) <==> exists|j: int| 0 <= j < n && (#[trigger] items[j]).0 == k by {
            if k == e.0 {
                assert(items[n - 1].0 == k);
            } else {
                if has_key(before, k) {
                    let j = choose|j: int| 0 <= j < n - 1 && (#[trigger] items[j]).0 == k;
                    assert(items[j].0 == k);
                }
                if exists|j: int| 0 <= j < n && (#[trigger] items[j]).0 == k {
                    let j = choose|j: int| 0 <= j < n && (#[trigger] items[j]).0 == k;
                    assert(j < n - 1);
                }
            }
        }
    } else {
        assert forall|k: i32| !(#[trigger] has_key(states[0], k)) by {}
    }
}

/// From the insertion of item `i` on, the tree holds its value against its
/// key, and no other.
proof fn lemma_inserts_found(states: Seq<Seq<Entry>>, items: Seq<Entry>, i: int, n: int)
    requires
        inserted_all(states, items),
        states[0] == Seq::<Entry>::empty(),
        distinct_keys(items),
        0 <= i < n <= items.len(),
    ensures
        has_key(states[n], items[i].0),
        forall|v: ValueView| #[trigger] states[n].contains((items[i].0, v)) <==> v == items[i].1,
    decreases n,
{
    lemma_inserts_keys(states, items, n);
    let before = states[n - 1];
    let after = states[n];
    let e = items[n - 1];
    assert(inserted(before, after, e));
    assert(!has_key(before, e.0)) by {
        if has_key(before, e.0) {
            let j = choose|j: int| 0 <= j < n - 1 && (#[trigger] items[j]).0 == e.0;
        }
    }
    lemma_insert_then_search(before, after, e);
    if i < n - 1 {
        lemma_inserts_found(states, items, i, n - 1);
        assert(items[i].0 != e.0);
        assert forall|v: ValueView| #[trigger]
            after.contains((items[i].0, v)) <==> v == items[i].1 by {
            assert(after.contains((items[i].0, v)) <==> before.contains((items[i].0, v)));
        }
    }
}

/// Where a key with one entry is deleted, a search for it finds nothing
/// afterwards, and the entries with other keys are those that were there.
pub proof fn lemma_delete_then_search(before: Seq<Entry>, after: Seq<Entry>, key: i32)
    requires
        removed(before, after, key),
        forall|i: int, j: int|
            0 <= i < j < before.len() ==> !(before[i].0 == key && before[j].0 == key),
    ensures
        !has_key(after, key),
        forall|x: Entry| x.0 != key ==> (#[trigger] after.contains(x) <==> before.contains(x)),
{
    if has_key(before, key) {
        let at = choose|at: int| removed_at(before, after, key, at);
        if has_key(after, key) {
            let i = choose|i: int| 0 <= i < after.len() && (#[trigger] after[i]).0 == key;
            if i < at {
                assert(before[i].0 == key);
            } else {
                assert(before[i + 1].0 == key);
            }
        }
        assert forall|x: Entry| x.0 != key implies (#[trigger] after.contains(x)
            <==> before.contains(x)) by {
            if after.contains(x) {
                let i = choose|i: int| 0 <= i < after.len() && after[i] == x;
                if i < at {
                    assert(before[i] == x);
                } else {
                    assert(before[i + 1] == x);
                }
            }
            if before.contains(x) {
                let i = choose|i: int| 0 <= i < before.len() && before[i] == x;
                if i < at {
                    assert(after[i] == x);
                } else {
                    assert(after[i - 1] == x);
                }
            }
        }
    }
}

/// A key that was put in where it was not, and is deleted then, leaves the
/// tree with the entries that it had before: a search for the key finds
/// nothing, and the other keys are as they were.
pub proof fn lemma_insert_then_delete(
    start: Seq<Entry>,
    with: Seq<Entry>,
    without: Seq<Entry>,
    e: Entry,
)
    requires
        !has_key(start, e.0),
        inserted(start, with, e),
        removed(with, without, e.0),
    ensures
        without == start,
        !has_key(without, e.0),
{
    let at = choose|at: int| inserted_at(start, with, e, at);
    assert(with[at].0 == e.0);
    let gone = choose|gone: int| removed_at(with, without, e.0, gone);
    if gone < at {
        assert(start[gone].0 == e.0);
    } else if gone > at {
        assert(start[gone - 1].0 == e.0);
    }
    assert(without =~= start);
}

} // verus!
