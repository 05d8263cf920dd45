//! The entries of a node and of its subtrees, read in key order.
//!
//! An internal node with children `c0 .. cn` and entries `e0 .. e(n-1)`
//! holds, in order, what `c0` holds, then `e0`, then what `c1` holds, and so
//! on up to `cn`. This file states that reading and proves how it changes
//! when a child or a neighbourhood of two children changes.

use crate::index::layout::Entry;
use vstd::prelude::*;

verus! {

/// Whether the keys never decrease from one entry to the next.
pub open spec fn sorted(s: Seq<Entry>) -> bool {
    forall|i: int, j: int| 0 <= i < j < s.len() ==> s[i].0 <= s[j].0
}

/// Whether some entry has the key.
pub open spec fn has_key(s: Seq<Entry>, key: i32) -> bool {
    exists|i: int| 0 <= i < s.len() && (#[trigger] s[i]).0 == key
}

/// What stands before child `i`: `c0 e0 .. c(i-1) e(i-1)`.
pub open spec fn flat_upto(cs: Seq<Seq<Entry>>, es: Seq<Entry>, i: int) -> Seq<Entry>
    decreases i,
{
    if i <= 0 {
        Seq::empty()
    } else {
        flat_upto(cs, es, i - 1) + cs[i - 1] + seq![es[i - 1]]
    }
}

/// What stands from child `i` on: `ci ei .. e(n-1) cn`.
pub open spec fn flat_from(cs: Seq<Seq<Entry>>, es: Seq<Entry>, i: int) -> Seq<Entry>
    decreases es.len() - i,
{
    if i >= es.len() {
        cs[es.len() as int]
    } else {
        cs[i] + seq![es[i]] + flat_from(cs, es, i + 1)
    }
}

/// What stands behind child `i`: `ei c(i+1) .. cn`, or nothing behind the
/// last child.
pub open spec fn flat_after(cs: Seq<Seq<Entry>>, es: Seq<Entry>, i: int) -> Seq<Entry> {
    if i >= es.len() {
        Seq::empty()
    } else {
        seq![es[i]] + flat_from(cs, es, i + 1)
    }
}

/// All of it: `c0 e0 c1 .. e(n-1) cn`.
pub open spec fn flat(cs: Seq<Seq<Entry>>, es: Seq<Entry>) -> Seq<Entry> {
    flat_from(cs, es, 0)
}

/// The whole is what stands before child `i`, then the child, then what
/// stands behind it.
pub proof fn lemma_flat_split(cs: Seq<Seq<Entry>>, es: Seq<Entry>, i: int)
    requires
        0 <= i <= es.len(),
    ensures
        flat(cs, es) == flat_upto(cs, es, i) + cs[i] + flat_after(cs, es, i),
        flat_from(cs, es, i) == cs[i] + flat_after(cs, es, i),
    decreases i,
{
    if i == 0 {
        assert(flat_from(cs, es, 0) =~= cs[0] + flat_after(cs, es, 0));
        assert(flat(cs, es) =~= flat_upto(cs, es, 0) + cs[0] + flat_after(cs, es, 0));
    } else {
        lemma_flat_split(cs, es, i - 1);
        assert(flat_from(cs, es, i) =~= cs[i] + flat_after(cs, es, i));
        assert(flat_after(cs, es, i - 1) =~= seq![es[i - 1]] + (cs[i] + flat_after(cs, es, i)));
        assert(flat(cs, es) =~= flat_upto(cs, es, i) + cs[i] + flat_after(cs, es, i));
    }
}

/// What stands before child `i` depends on the children and entries below
/// `i` alone.
pub proof fn lemma_flat_upto_local(
    cs: Seq<Seq<Entry>>,
    es: Seq<Entry>,
    cs2: Seq<Seq<Entry>>,
    es2: Seq<Entry>,
    i: int,
)
    requires
        forall|j: int| 0 <= j < i ==> cs[j] == cs2[j] && es[j] == es2[j],
    ensures
        flat_upto(cs, es, i) == flat_upto(cs2, es2, i),
    decreases i,
{
    if i > 0 {
        lemma_flat_upto_local(cs, es, cs2, es2, i - 1);
    }
}

/// What stands from child `i` on depends on the children and entries from
/// `i` on alone, wherever they stand: here `d` places further in the second
/// node.
pub proof fn lemma_flat_from_local(
    cs: Seq<Seq<Entry>>,
    es: Seq<Entry>,
    cs2: Seq<Seq<Entry>>,
    es2: Seq<Entry>,
    i: int,
    d: int,
)
    requires
        0 <= i <= es.len(),
        0 <= i + d,
        es2.len() == es.len() + d,
        forall|j: int| i <= j <= es.len() ==> cs[j] == cs2[j + d],
        forall|j: int| i <= j < es.len() ==> es[j] == es2[j + d],
    ensures
        flat_from(cs, es, i) == flat_from(cs2, es2, i + d),
        flat_after(cs, es, i) == flat_after(cs2, es2, i + d),
    decreases es.len() - i,
{
    if i < es.len() {
        lemma_flat_from_local(cs, es, cs2, es2, i + 1, d);
    }
}

/// A change within child `i` is the same change of the whole, further back
/// by what stands before the child.
pub proof fn lemma_flat_child_changed(
    cs: Seq<Seq<Entry>>,
    es: Seq<Entry>,
    i: int,
    child: Seq<Entry>,
)
    requires
        0 <= i <= es.len(),
        cs.len() == es.len() + 1,
    ensures
        flat(cs.update(i, child), es) == flat_upto(cs, es, i) + child + flat_after(cs, es, i),
{
    let cs2 = cs.update(i, child);
    lemma_flat_split(cs2, es, i);
    lemma_flat_upto_local(cs, es, cs2, es, i);
    if i < es.len() {
        lemma_flat_from_local(cs, es, cs2, es, i + 1, 0);
    }
}

/// Two children with the entry between them may be replaced by two others
/// that hold the same in the same order.
pub proof fn lemma_flat_pair_changed(
    cs: Seq<Seq<Entry>>,
    es: Seq<Entry>,
    i: int,
    left: Seq<Entry>,
    mid: Entry,
    right: Seq<Entry>,
)
    requires
        0 <= i < es.len(),
        cs.len() == es.len() + 1,
        left + seq![mid] + right == cs[i] + seq![es[i]] + cs[i + 1],
    ensures
        flat(cs.update(i, left).update(i + 1, right), es.update(i, mid)) == flat(cs, es),
{
    let cs2 = cs.update(i, left).update(i + 1, right);
    let es2 = es.update(i, mid);
    lemma_flat_split(cs, es, i);
    lemma_flat_split(cs, es, i + 1);
    lemma_flat_split(cs2, es2, i);
    lemma_flat_split(cs2, es2, i + 1);
    lemma_flat_upto_local(cs, es, cs2, es2, i);
    if i + 1 < es.len() {
        lemma_flat_from_local(cs, es, cs2, es2, i + 2, 0);
    }
    assert(flat_after(cs, es, i) =~= seq![es[i]] + (cs[i + 1] + flat_after(cs, es, i + 1)));
    assert(flat_after(cs2, es2, i) =~= seq![mid] + (right + flat_after(cs2, es2, i + 1)));
    assert(flat_after(cs2, es2, i + 1) == flat_after(cs, es, i + 1));
    assert(flat(cs2, es2) =~= flat_upto(cs, es, i) + (left + seq![mid] + right) + flat_after(
        cs,
        es,
        i + 1,
    ));
    assert(flat(cs, es) =~= flat_upto(cs, es, i) + (cs[i] + seq![es[i]] + cs[i + 1]) + flat_after(
        cs,
        es,
        i + 1,
    ));
}

/// A child may be replaced by two children and an entry between them that
/// hold the same in the same order.
pub proof fn lemma_flat_child_split(
    cs: Seq<Seq<Entry>>,
    es: Seq<Entry>,
    i: int,
    left: Seq<Entry>,
    mid: Entry,
    right: Seq<Entry>,
)
    requires
        0 <= i <= es.len(),
        cs.len() == es.len() + 1,
        left + seq![mid] + right == cs[i],
    ensures
        flat(cs.update(i, left).insert(i + 1, right), es.insert(i, mid)) == flat(cs, es),
{
    let cs2 = cs.update(i, left).insert(i + 1, right);
    let es2 = es.insert(i, mid);
    lemma_flat_split(cs, es, i);
    lemma_flat_split(cs2, es2, i);
    lemma_flat_split(cs2, es2, i + 1);
    lemma_flat_upto_local(cs, es, cs2, es2, i);
    if i < es.len() {
        lemma_flat_from_local(cs, es, cs2, es2, i + 1, 1);
    }
    assert(flat_after(cs2, es2, i) =~= seq![mid] + (right + flat_after(cs2, es2, i + 1)));
    assert(flat_after(cs2, es2, i + 1) =~= flat_after(cs, es, i)) by {
        if i < es.len() {
            assert(es2[i + 1] == es[i]);
        }
    }
    assert(flat(cs2, es2) =~= flat_upto(cs, es, i) + (left + seq![mid] + right) + flat_after(
        cs,
        es,
        i,
    ));
}

/// Two children and the entry between them may be replaced by one child
/// that holds the same in the same order.
pub proof fn lemma_flat_pair_merged(cs: Seq<Seq<Entry>>, es: Seq<Entry>, i: int)
    requires
        0 <= i < es.len(),
        cs.len() == es.len() + 1,
    ensures
        flat(cs.update(i, cs[i] + seq![es[i]] + cs[i + 1]).remove(i + 1), es.remove(i)) == flat(
            cs,
            es,
        ),
{
    let merged = cs[i] + seq![es[i]] + cs[i + 1];
    let cs2 = cs.update(i, merged).remove(i + 1);
    let es2 = es.remove(i);
    assert(cs2.update(i, cs[i]).insert(i + 1, cs[i + 1]) =~= cs);
    assert(es2.insert(i, es[i]) =~= es);
    lemma_flat_child_split(cs2, es2, i, cs[i], es[i], cs[i + 1]);
}

/// Part of a sorted sequence is sorted.
pub proof fn lemma_sorted_parts(a: Seq<Entry>, b: Seq<Entry>)
    requires
        sorted(a + b),
    ensures
        sorted(a),
        sorted(b),
{
    let s = a + b;
    assert forall|i: int, j: int| 0 <= i < j < a.len() implies a[i].0 <= a[j].0 by {
        assert(s[i] == a[i] && s[j] == a[j]);
    }
    assert forall|i: int, j: int| 0 <= i < j < b.len() implies b[i].0 <= b[j].0 by {
        assert(s[i + a.len()] == b[i] && s[j + a.len()] == b[j]);
    }
}

/// In a sorted node, what stands before child `i` has keys up to that of the
/// entry before the child, what stands behind it has keys from that of the
/// entry behind the child, and the child is sorted and lies between the two.
pub proof fn lemma_flat_bounds(cs: Seq<Seq<Entry>>, es: Seq<Entry>, i: int)
    requires
        0 <= i <= es.len(),
        sorted(flat(cs, es)),
    ensures
        sorted(cs[i]),
        sorted(flat_upto(cs, es, i)),
        sorted(flat_after(cs, es, i)),
        i > 0 ==> forall|j: int|
            0 <= j < flat_upto(cs, es, i).len() ==> (#[trigger] flat_upto(cs, es, i)[j]).0 <= es[i
                - 1].0,
        i > 0 ==> forall|j: int| 0 <= j < cs[i].len() ==> es[i - 1].0 <= (#[trigger] cs[i][j]).0,
        i < es.len() ==> forall|j: int|
            0 <= j < flat_after(cs, es, i).len() ==> es[i].0 <= (#[trigger] flat_after(
                cs,
                es,
                i,
            )[j]).0,
        i < es.len() ==> forall|j: int| 0 <= j < cs[i].len() ==> (#[trigger] cs[i][j]).0 <= es[i].0,
{
    let before = flat_upto(cs, es, i);
    let after = flat_after(cs, es, i);
    let all = flat(cs, es);
    lemma_flat_split(cs, es, i);
    assert(all == (before + cs[i]) + after);
    lemma_sorted_parts(before + cs[i], after);
    lemma_sorted_parts(before, cs[i]);
    if i > 0 {
        let last = before.len() - 1;
        assert(before[last] == es[i - 1]);
        assert forall|j: int| 0 <= j < before.len() implies (#[trigger] before[j]).0 <= es[i
            - 1].0 by {
            assert(all[j] == before[j] && all[last] == before[last]);
        }
        assert forall|j: int| 0 <= j < cs[i].len() implies es[i - 1].0 <= (#[trigger] cs[i][j]).0 by {
            assert(all[last] == before[last]);
            assert(all[before.len() + j] == cs[i][j]);
        }
    }
    if i < es.len() {
        let first = (before.len() + cs[i].len()) as int;
        assert(after[0] == es[i]);
        assert(all[first] == after[0]);
        assert forall|j: int| 0 <= j < after.len() implies es[i].0 <= (#[trigger] after[j]).0 by {
            assert(all[first + j] == after[j]);
        }
        assert forall|j: int| 0 <= j < cs[i].len() implies (#[trigger] cs[i][j]).0 <= es[i].0 by {
            assert(all[before.len() + j] == cs[i][j]);
        }
    }
}

/// In a sorted node, a key that lies strictly between the entries around
/// child `i` occurs in that child or nowhere.
pub proof fn lemma_flat_key_in_child(cs: Seq<Seq<Entry>>, es: Seq<Entry>, i: int, key: i32)
    requires
        0 <= i <= es.len(),
        sorted(flat(cs, es)),
        i > 0 ==> es[i - 1].0 < key,
        i < es.len() ==> key < es[i].0,
    ensures
        forall|e: Entry| e.0 == key ==> (flat(cs, es).contains(e) <==> cs[i].contains(e)),
        has_key(flat(cs, es), key) <==> has_key(cs[i], key),
{
    let before = flat_upto(cs, es, i);
    let after = flat_after(cs, es, i);
    let all = flat(cs, es);
    lemma_flat_split(cs, es, i);
    lemma_flat_bounds(cs, es, i);
    assert forall|j: int| 0 <= j < all.len() && all[j].0 == key implies before.len() <= j
        < before.len() + cs[i].len() by {
        if j < before.len() {
            assert(all[j] == before[j]);
        } else if j >= before.len() + cs[i].len() {
            assert(all[j] == after[j - before.len() - cs[i].len()]);
        }
    }
    assert forall|e: Entry| e.0 == key implies (all.contains(e) <==> cs[i].contains(e)) by {
        if all.contains(e) {
            let j = choose|j: int| 0 <= j < all.len() && all[j] == e;
            assert(all[j] == cs[i][j - before.len()]);
        }
        if cs[i].contains(e) {
            let j = choose|j: int| 0 <= j < cs[i].len() && cs[i][j] == e;
            assert(all[before.len() + j] == e);
        }
    }
    if has_key(all, key) {
        let j = choose|j: int| 0 <= j < all.len() && (#[trigger] all[j]).0 == key;
        assert(cs[i][j - before.len()] == all[j]);
    }
    if has_key(cs[i], key) {
        let j = choose|j: int| 0 <= j < cs[i].len() && (#[trigger] cs[i][j]).0 == key;
        assert(all[before.len() + j] == cs[i][j]);
    }
}

/// Entry `i` of a node is among what the node holds, behind what stands
/// before child `i` and the child itself.
pub proof fn lemma_flat_entry_place(cs: Seq<Seq<Entry>>, es: Seq<Entry>, i: int)
    requires
        0 <= i < es.len(),
    ensures
        flat_upto(cs, es, i).len() + cs[i].len() < flat(cs, es).len(),
        flat(cs, es)[(flat_upto(cs, es, i).len() + cs[i].len()) as int] == es[i],
        flat(cs, es).contains(es[i]),
{
    lemma_flat_split(cs, es, i);
    let at = (flat_upto(cs, es, i).len() + cs[i].len()) as int;
    assert(flat_after(cs, es, i)[0] == es[i]);
    assert(flat(cs, es)[at] == es[i]);
}

/// Two nodes side by side, with an entry between them, hold what one node
/// with the children and entries of both holds.
pub proof fn lemma_flat_concat(
    cs0: Seq<Seq<Entry>>,
    es0: Seq<Entry>,
    sep: Entry,
    cs1: Seq<Seq<Entry>>,
    es1: Seq<Entry>,
)
    requires
        cs0.len() == es0.len() + 1,
        cs1.len() == es1.len() + 1,
    ensures
        flat(cs0 + cs1, es0 + seq![sep] + es1) == flat(cs0, es0) + seq![sep] + flat(cs1, es1),
{
    let cs = cs0 + cs1;
    let es = es0 + seq![sep] + es1;
    let n0 = es0.len() as int;
    lemma_flat_split(cs, es, n0);
    lemma_flat_split(cs0, es0, n0);
    lemma_flat_upto_local(cs0, es0, cs, es, n0);
    lemma_flat_from_local(cs1, es1, cs, es, 0, n0 + 1);
    assert(flat_after(cs0, es0, n0) =~= Seq::<Entry>::empty());
    assert(flat(cs0, es0) =~= flat_upto(cs0, es0, n0) + cs0[n0]);
    assert(flat_after(cs, es, n0) =~= seq![sep] + flat(cs1, es1));
    assert(flat(cs, es) =~= flat(cs0, es0) + seq![sep] + flat(cs1, es1));
}

/// Whether `after` is `before` with `e` put in at place `at`, between an
/// entry with a key that is not greater and one with a key that is not
/// less.
pub open spec fn inserted_at(before: Seq<Entry>, after: Seq<Entry>, e: Entry, at: int) -> bool {
    &&& 0 <= at <= before.len()
    &&& after == before.insert(at, e)
    &&& at > 0 ==> before[at - 1].0 <= e.0
    &&& at < before.len() ==> e.0 <= before[at].0
}

/// Whether `after` is `before` with `e` put in at a place that keeps the
/// keys in order.
pub open spec fn inserted(before: Seq<Entry>, after: Seq<Entry>, e: Entry) -> bool {
    exists|at: int| inserted_at(before, after, e, at)
}

/// Whether `after` is `before` without the entry at place `at`, which has
/// the key.
pub open spec fn removed_at(before: Seq<Entry>, after: Seq<Entry>, key: i32, at: int) -> bool {
    &&& 0 <= at < before.len()
    &&& before[at].0 == key
    &&& after == before.remove(at)
}

/// Whether `after` is `before` without one entry that has the key, or
/// `before` itself where no entry has the key.
pub open spec fn removed(before: Seq<Entry>, after: Seq<Entry>, key: i32) -> bool {
    if has_key(before, key) {
        exists|at: int| removed_at(before, after, key, at)
    } else {
        after == before
    }
}

/// Whether `after` is `before` with an entry with the key of `e` taken out,
/// if there was one, and `e` put in.
pub open spec fn replaced(before: Seq<Entry>, after: Seq<Entry>, e: Entry) -> bool {
    exists|between: Seq<Entry>|
        removed(before, between, e.0) && #[trigger] inserted(between, after, e)
}

/// A sorted sequence with an entry put in at a place that keeps the order
/// is sorted.
pub proof fn lemma_inserted_sorted(before: Seq<Entry>, after: Seq<Entry>, e: Entry)
    requires
        sorted(before),
        inserted(before, after, e),
    ensures
        sorted(after),
{
    let at = choose|at: int| inserted_at(before, after, e, at);
    assert forall|i: int, j: int| 0 <= i < j < after.len() implies after[i].0 <= after[j].0 by {
        if j < at {
        } else if i > at {
        } else if i == at {
            assert(after[j] == before[j - 1]);
            if j - 1 > at {
                assert(before[at].0 <= before[j - 1].0);
            }
        } else if j == at {
            assert(after[i] == before[i]);
            if i < at - 1 {
                assert(before[i].0 <= before[at - 1].0);
            }
        } else {
            assert(after[i] == before[i]);
            assert(after[j] == before[j - 1]);
        }
    }
}

/// A sorted sequence without one of its entries is sorted.
pub proof fn lemma_removed_sorted(before: Seq<Entry>, after: Seq<Entry>, key: i32)
    requires
        sorted(before),
        removed(before, after, key),
    ensures
        sorted(after),
{
    if has_key(before, key) {
        let at = choose|at: int| removed_at(before, after, key, at);
        assert forall|i: int, j: int| 0 <= i < j < after.len() implies after[i].0 <= after[j].0 by {
            let i0 = if i < at {
                i
            } else {
                i + 1
            };
            let j0 = if j < at {
                j
            } else {
                j + 1
            };
            assert(after[i] == before[i0] && after[j] == before[j0]);
        }
    }
}

/// An entry put into the middle one of three parts is put into the whole.
pub proof fn lemma_inserted_in_middle(
    a: Seq<Entry>,
    b: Seq<Entry>,
    c: Seq<Entry>,
    b2: Seq<Entry>,
    e: Entry,
    at: int,
)
    requires
        inserted_at(b, b2, e, at),
        a.len() > 0 ==> a[a.len() - 1].0 <= e.0,
        c.len() > 0 ==> e.0 <= c[0].0,
    ensures
        inserted_at(a + b + c, a + b2 + c, e, a.len() + at),
{
    let all = a + b + c;
    let all2 = a + b2 + c;
    let place = a.len() + at;
    assert(all2 =~= all.insert(place, e));
    if place > 0 {
        if at > 0 {
            assert(all[place - 1] == b[at - 1]);
        } else {
            assert(all[place - 1] == a[a.len() - 1]);
        }
    }
    if place < all.len() {
        if at < b.len() {
            assert(all[place] == b[at]);
        } else {
            assert(all[place] == c[0]);
        }
    }
}

/// An entry put into child `i`, with a key between those of the entries
/// around the child, is put into the node at a place that keeps the order.
pub proof fn lemma_flat_child_inserted(
    cs: Seq<Seq<Entry>>,
    es: Seq<Entry>,
    i: int,
    child: Seq<Entry>,
    e: Entry,
)
    requires
        0 <= i <= es.len(),
        cs.len() == es.len() + 1,
        inserted(cs[i], child, e),
        i > 0 ==> es[i - 1].0 <= e.0,
        i < es.len() ==> e.0 <= es[i].0,
    ensures
        inserted(flat(cs, es), flat(cs.update(i, child), es), e),
{
    let at = choose|at: int| inserted_at(cs[i], child, e, at);
    let before = flat_upto(cs, es, i);
    let after = flat_after(cs, es, i);
    lemma_flat_split(cs, es, i);
    lemma_flat_child_changed(cs, es, i, child);
    assert(before.len() > 0 ==> before[before.len() - 1].0 <= e.0) by {
        if i > 0 {
            assert(before[before.len() - 1] == es[i - 1]);
        }
    }
    assert(after.len() > 0 ==> e.0 <= after[0].0) by {
        if i < es.len() {
            assert(after[0] == es[i]);
        }
    }
    lemma_inserted_in_middle(before, cs[i], after, child, e, at);
}

/// An entry taken out of child `i` is taken out of the node.
pub proof fn lemma_flat_child_removed(
    cs: Seq<Seq<Entry>>,
    es: Seq<Entry>,
    i: int,
    child: Seq<Entry>,
    key: i32,
    at: int,
)
    requires
        0 <= i <= es.len(),
        cs.len() == es.len() + 1,
        removed_at(cs[i], child, key, at),
    ensures
        removed_at(
            flat(cs, es),
            flat(cs.update(i, child), es),
            key,
            flat_upto(cs, es, i).len() + at,
        ),
{
    let before = flat_upto(cs, es, i);
    let all = flat(cs, es);
    let all2 = flat(cs.update(i, child), es);
    lemma_flat_split(cs, es, i);
    lemma_flat_child_changed(cs, es, i, child);
    let place = before.len() + at;
    assert(all[place] == cs[i][at]);
    assert(all2 =~= all.remove(place));
}

/// Children `lo .. hi` of a node, one or two, and the entry between them
/// may be replaced by one or two others that hold the same in the same
/// order.
pub proof fn lemma_flat_window(
    cs: Seq<Seq<Entry>>,
    es: Seq<Entry>,
    lo: int,
    hi: int,
    news: Seq<Seq<Entry>>,
    new_sep: Entry,
)
    requires
        cs.len() == es.len() + 1,
        0 <= lo < hi <= cs.len(),
        hi - lo <= 2,
        1 <= news.len() <= 2,
        (if news.len() == 1 {
            news[0]
        } else {
            news[0] + seq![new_sep] + news[1]
        }) == (if hi - lo == 1 {
            cs[lo]
        } else {
            cs[lo] + seq![es[lo]] + cs[lo + 1]
        }),
    ensures
        flat(
            cs.take(lo) + news + cs.skip(hi),
            if news.len() == 2 {
                es.take(lo) + seq![new_sep] + es.skip(hi - 1)
            } else {
                es.take(lo) + es.skip(hi - 1)
            },
        ) == flat(cs, es),
{
    let cs2 = cs.take(lo) + news + cs.skip(hi);
    if hi - lo == 1 && news.len() == 2 {
        let es2 = es.take(lo) + seq![new_sep] + es.skip(lo);
        assert(cs2 =~= cs.update(lo, news[0]).insert(lo + 1, news[1]));
        assert(es2 =~= es.insert(lo, new_sep));
        lemma_flat_child_split(cs, es, lo, news[0], new_sep, news[1]);
    } else if hi - lo == 2 && news.len() == 2 {
        let es2 = es.take(lo) + seq![new_sep] + es.skip(lo + 1);
        assert(cs2 =~= cs.update(lo, news[0]).update(lo + 1, news[1]));
        assert(es2 =~= es.update(lo, new_sep));
        lemma_flat_pair_changed(cs, es, lo, news[0], new_sep, news[1]);
    } else if hi - lo == 2 && news.len() == 1 {
        let es2 = es.take(lo) + es.skip(lo + 1);
        assert(cs2 =~= cs.update(lo, cs[lo] + seq![es[lo]] + cs[lo + 1]).remove(lo + 1));
        assert(es2 =~= es.remove(lo));
        lemma_flat_pair_merged(cs, es, lo);
    } else {
        let es2 = es.take(lo) + es.skip(lo);
        assert(cs2 =~= cs);
        assert(es2 =~= es);
    }
}

/// What stands before a child grows with the child's place.
pub proof fn lemma_flat_upto_len(cs: Seq<Seq<Entry>>, es: Seq<Entry>, i: int, j: int)
    requires
        0 <= i <= j,
    ensures
        flat_upto(cs, es, i).len() + (j - i) <= flat_upto(cs, es, j).len(),
    decreases j - i,
{
    if i < j {
        lemma_flat_upto_len(cs, es, i, j - 1);
    }
}

/// The entries of a sorted node are sorted.
pub proof fn lemma_flat_entries_sorted(cs: Seq<Seq<Entry>>, es: Seq<Entry>)
    requires
        sorted(flat(cs, es)),
    ensures
        sorted(es),
{
    assert forall|i: int, j: int| 0 <= i < j < es.len() implies es[i].0 <= es[j].0 by {
        lemma_flat_entry_place(cs, es, i);
        lemma_flat_entry_place(cs, es, j);
        lemma_flat_upto_len(cs, es, i + 1, j);
        let pi = (flat_upto(cs, es, i).len() + cs[i].len()) as int;
        let pj = (flat_upto(cs, es, j).len() + cs[j].len()) as int;
        assert(flat_upto(cs, es, i + 1).len() == pi + 1);
        assert(pi < pj);
    }
}

/// Where child `i` gives up its last entry, and the entry takes the place
/// of entry `i` of the node, the node holds what it held but for its old
/// entry `i`.
pub proof fn lemma_flat_entry_swapped(
    cs: Seq<Seq<Entry>>,
    es: Seq<Entry>,
    i: int,
    child: Seq<Entry>,
    last: Entry,
)
    requires
        0 <= i < es.len(),
        cs.len() == es.len() + 1,
        cs[i] == child.push(last),
    ensures
        removed_at(
            flat(cs, es),
            flat(cs.update(i, child), es.update(i, last)),
            es[i].0,
            (flat_upto(cs, es, i).len() + cs[i].len()) as int,
        ),
{
    let cs2 = cs.update(i, child);
    let es2 = es.update(i, last);
    let before = flat_upto(cs, es, i);
    let rest = flat_from(cs, es, i + 1);
    lemma_flat_split(cs, es, i);
    lemma_flat_split(cs2, es2, i);
    lemma_flat_upto_local(cs, es, cs2, es2, i);
    lemma_flat_from_local(cs, es, cs2, es2, i + 1, 0);
    let all = flat(cs, es);
    let all2 = flat(cs2, es2);
    let at = (before.len() + cs[i].len()) as int;
    assert(all =~= before + cs[i] + seq![es[i]] + rest);
    assert(all2 =~= before + child + seq![last] + rest);
    assert(all[at] == es[i]);
    assert(all2 =~= all.remove(at));
}

/// A node whose last child gives up its last entry gives up its last
/// entry.
pub proof fn lemma_flat_last_taken(
    cs: Seq<Seq<Entry>>,
    es: Seq<Entry>,
    child: Seq<Entry>,
    last: Entry,
)
    requires
        cs.len() == es.len() + 1,
        cs[es.len() as int] == child.push(last),
    ensures
        flat(cs, es) == flat(cs.update(es.len() as int, child), es).push(last),
{
    let n = es.len() as int;
    lemma_flat_split(cs, es, n);
    lemma_flat_child_changed(cs, es, n, child);
    assert(flat(cs, es) =~= flat(cs.update(n, child), es).push(last));
}

} // verus!
