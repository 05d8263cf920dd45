//! The steps of a deletion, stated on the pool and proved to keep the tree
//! well-formed: giving a child more than `MIN_KEYS` entries before the
//! descent goes into it, taking an entry out of a leaf, and putting the
//! last entry under a child in the place of an entry of the node.

use crate::index::bounds::{lemma_child_entry_bounds, lemma_entry_held, lemma_node_sorted};
use crate::index::layout::{Entry, NodeView};
use crate::index::node::{lemma_first_from, lower_bound, MIN_KEYS};
use crate::index::order::{
    flat_upto, has_key, lemma_flat_child_removed, lemma_flat_entry_swapped,
    lemma_flat_key_in_child, lemma_flat_last_taken, removed, removed_at, sorted,
};
use crate::index::reshape::{
    after_merge, after_move, can_merge, can_move, lemma_entry_replaced, lemma_merge,
    lemma_merge_nodes, lemma_merge_pool, lemma_move, lemma_move_nodes, lemma_move_pool,
    lemma_pair, merge_result, merged_nodes, moved_left_nodes, moved_nodes, moved_right_nodes,
    with_entry,
};
use crate::index::root::{after_collapse, can_collapse, lemma_collapse};
use crate::index::shape::{
    children_contents, contents, fits, lemma_lift, lemma_node_fits, lemma_pages_stored,
    lemma_unchanged, lemma_updated_twice, lemma_with_node, node_at, node_ok, node_page,
    pages_of, pool_ok, same_page, small, subtree, updated, with_node, without_page,
};
use crate::index::window::{children_of, entries_of};
use crate::storage::buffer_pool::PoolView;
use crate::storage::disk_manager::{block, DiskManager, lemma_written_block, zeros};
use crate::storage::page::PAGE_SIZE;
use vstd::prelude::*;

verus! {

/// Whether child `idx` of the node in page `p`, or a sibling next to it,
/// has more than `MIN_KEYS` entries.
pub open spec fn lendable(a: PoolView, p: u32, idx: int) -> bool {
    let cs = children_of(a, p);
    ||| entries_of(a, cs[idx]).len() > MIN_KEYS
    ||| (idx > 0 && entries_of(a, cs[idx - 1]).len() > MIN_KEYS)
    ||| (idx + 1 < cs.len() && entries_of(a, cs[idx + 1]).len() > MIN_KEYS)
}

/// Whether child `idx` of the node in page `p` can be given more than
/// `MIN_KEYS` entries: from a sibling, or by a merge that the node can
/// afford.
pub open spec fn can_ensure(a: PoolView, p: u32, h: nat, min: nat, idx: int) -> bool {
    &&& pool_ok(a)
    &&& h >= 1
    &&& subtree(a, p, h, min)
    &&& sorted(contents(a, p, h))
    &&& 0 <= idx < children_of(a, p).len()
    &&& lendable(a, p, idx) || (entries_of(a, p).len() > min && entries_of(a, p).len() >= 1)
}

/// Whether `b` is `a` after child `idx` of the node in page `p` was given
/// more than `MIN_KEYS` entries, and is child `j` now: the subtree holds
/// what it held, and the keys that lay between the entries around child
/// `idx` lie between those around child `j`.
pub open spec fn ensured(
    a: PoolView,
    b: PoolView,
    p: u32,
    h: nat,
    min: nat,
    idx: int,
    j: int,
) -> bool {
    let es = entries_of(a, p);
    let es2 = entries_of(b, p);
    &&& subtree(b, p, h, min)
    &&& updated(a, b, p, h)
    &&& contents(b, p, h) == contents(a, p, h)
    &&& 0 <= j < children_of(b, p).len()
    &&& entries_of(b, children_of(b, p)[j]).len() > MIN_KEYS
    &&& j > 0 ==> idx > 0 && es2[j - 1].0 <= es[idx - 1].0
    &&& j < es2.len() ==> idx < es.len() && es[idx].0 <= es2[j].0
    &&& idx == es.len() ==> j == es2.len()
    &&& es2.len() + 1 >= es.len()
    &&& lendable(a, p, idx) ==> es2.len() == es.len()
}

/// Whether `b` is `a` after an entry went between the children `i` and
/// `i + 1` of the node in page `p`, through the node: the three nodes are
/// what the move makes of them, no page came into the cache or left it, and
/// every other page is as it was.
pub open spec fn borrowed(a: PoolView, b: PoolView, p: u32, i: int, to_right: bool) -> bool {
    let parent = node_at(a, p).unwrap();
    let l = parent.children[i];
    let r = parent.children[i + 1];
    let left = node_at(a, l).unwrap();
    let right = node_at(a, r).unwrap();
    let after = if to_right {
        moved_right_nodes(parent, left, right, i)
    } else {
        moved_left_nodes(parent, left, right, i)
    };
    &&& b == after_move(a, p, i, to_right)
    &&& node_at(b, p) == Some(after.0)
    &&& node_at(b, l) == Some(after.1)
    &&& node_at(b, r) == Some(after.2)
    &&& b.pages.dom() == a.pages.dom()
    &&& b.disk.next_page_id == a.disk.next_page_id
    &&& forall|q: u32| q != p && q != l && q != r ==> #[trigger] same_page(a, b, q)
}

/// Whether `b` is `a` after the children `i` and `i + 1` of the node in
/// page `p` were merged: the node has lost the entry between the two and
/// its right child, the left child holds the entries and children of both
/// with that entry between them, the page of the right child is out of the
/// cache and zeros on disk, and every other page is as it was.
pub open spec fn merged_into(a: PoolView, b: PoolView, p: u32, i: int) -> bool {
    let parent = node_at(a, p).unwrap();
    let l = parent.children[i];
    let r = parent.children[i + 1];
    let left = node_at(a, l).unwrap();
    let right = node_at(a, r).unwrap();
    let after = merged_nodes(parent, left, right, i);
    &&& b == after_merge(a, p, i)
    &&& node_at(b, p) == Some(after.0)
    &&& node_at(b, l) == Some(after.1)
    &&& b.pages.dom() == a.pages.dom().remove(r)
    &&& block(b.disk.heap, r) == Some(zeros(PAGE_SIZE as int))
    &&& b.disk.next_page_id == a.disk.next_page_id
    &&& forall|q: u32| q != p && q != l && q != r ==> #[trigger] same_page(a, b, q)
}

/// What giving child `idx` of the node in page `p` more than `MIN_KEYS`
/// entries does, and which child it is afterwards. Nothing is done where
/// the child has more than `MIN_KEYS` entries. Else the left sibling gives
/// an entry if it has more than `MIN_KEYS`; else the right sibling does if
/// it has; else the child is merged with its right sibling; and the last
/// child, which has no right sibling, is merged into its left sibling.
pub open spec fn ensure_effect(a: PoolView, b: PoolView, p: u32, idx: int, j: int) -> bool {
    let cs = children_of(a, p);
    if entries_of(a, cs[idx]).len() > MIN_KEYS {
        b == a && j == idx
    } else if idx > 0 && entries_of(a, cs[idx - 1]).len() > MIN_KEYS {
        borrowed(a, b, p, idx - 1, true) && j == idx
    } else if idx + 1 < cs.len() && entries_of(a, cs[idx + 1]).len() > MIN_KEYS {
        borrowed(a, b, p, idx, false) && j == idx
    } else if idx + 1 < cs.len() {
        merged_into(a, b, p, idx) && j == idx
    } else {
        merged_into(a, b, p, idx - 1) && j == idx - 1
    }
}

/// A move is a borrowing.
pub proof fn lemma_borrowed(a: PoolView, p: u32, h: nat, min: nat, i: int, to_right: bool)
    requires
        can_move(a, p, h, min, i, to_right),
    ensures
        borrowed(a, after_move(a, p, i, to_right), p, i, to_right),
{
    let b = after_move(a, p, i, to_right);
    lemma_move(a, p, h, min, i, to_right);
    lemma_move_nodes(a, p, h, min, i, to_right);
    lemma_move_pool(a, p, h, min, i, to_right);
    reveal(moved_nodes);
    let parent = node_at(a, p).unwrap();
    let l = parent.children[i];
    let r = parent.children[i + 1];
    assert forall|q: u32| b.pages.dom().contains(q) == a.pages.dom().contains(q) by {
        if q != p && q != l && q != r {
            assert(same_page(a, b, q));
        }
    }
    assert(b.pages.dom() =~= a.pages.dom());
}

/// A merge is a merging into the left child.
pub proof fn lemma_merged_into(a: PoolView, p: u32, h: nat, min: nat, i: int)
    requires
        can_merge(a, p, h, min, i),
    ensures
        merged_into(a, after_merge(a, p, i), p, i),
{
    let b = after_merge(a, p, i);
    lemma_merge(a, p, h, min, i);
    lemma_merge_nodes(a, p, h, min, i);
    lemma_merge_pool(a, p, h, min, i);
    reveal(merge_result);
    reveal(without_page);
    let parent = node_at(a, p).unwrap();
    let l = parent.children[i];
    let r = parent.children[i + 1];
    let (parent2, merged) = merge_result(a, p, i);
    let mid = with_node(with_node(a, parent2), merged);
    assert(b == without_page(mid, r));
    lemma_written_block(mid.disk.heap, r, zeros(PAGE_SIZE as int), r);
    assert(!b.pages.contains_key(r));
    assert forall|q: u32| b.pages.dom().contains(q) == a.pages.dom().remove(r).contains(q) by {
        if q != p && q != l && q != r {
            assert(same_page(a, b, q));
        }
    }
    assert(b.pages.dom() =~= a.pages.dom().remove(r));
}

/// A child with more than `MIN_KEYS` entries needs nothing.
pub proof fn lemma_ensure_none(a: PoolView, p: u32, h: nat, min: nat, idx: int)
    requires
        can_ensure(a, p, h, min, idx),
        entries_of(a, children_of(a, p)[idx]).len() > MIN_KEYS,
    ensures
        ensured(a, a, p, h, min, idx, idx),
        ensure_effect(a, a, p, idx, idx),
{
    lemma_unchanged(a, p, h);
    assert(node_ok(node_at(a, p).unwrap(), p, h, min));
}

/// A child with `MIN_KEYS` entries gets one from its left sibling, if that
/// has more.
pub proof fn lemma_ensure_from_left(a: PoolView, p: u32, h: nat, min: nat, idx: int)
    requires
        can_ensure(a, p, h, min, idx),
        idx > 0,
        entries_of(a, children_of(a, p)[idx]).len() <= MIN_KEYS,
        entries_of(a, children_of(a, p)[idx - 1]).len() > MIN_KEYS,
    ensures
        can_move(a, p, h, min, idx - 1, true),
        ensured(a, after_move(a, p, idx - 1, true), p, h, min, idx, idx),
        ensure_effect(a, after_move(a, p, idx - 1, true), p, idx, idx),
{
    let i = idx - 1;
    let b = after_move(a, p, i, true);
    let parent = node_at(a, p).unwrap();
    assert(node_ok(parent, p, h, min));
    lemma_pair(a, p, h, min, i);
    assert(can_move(a, p, h, min, i, true));
    lemma_borrowed(a, p, h, min, i, true);
    lemma_move(a, p, h, min, i, true);
    lemma_move_nodes(a, p, h, min, i, true);
    let left = node_at(a, parent.children[i]).unwrap();
    assert(entries_of(b, p) == parent.entries.update(i, left.entries.last())
        && entries_of(b, children_of(b, p)[idx]).len() == entries_of(
        a,
        children_of(a, p)[idx],
    ).len() + 1) by {
        reveal(moved_nodes);
    }
    lemma_child_entry_bounds(a, p, h, min, i, left.entries.len() - 1);
}

/// A child with `MIN_KEYS` entries gets one from its right sibling, if that
/// has more.
pub proof fn lemma_ensure_from_right(a: PoolView, p: u32, h: nat, min: nat, idx: int)
    requires
        can_ensure(a, p, h, min, idx),
        idx + 1 < children_of(a, p).len(),
        entries_of(a, children_of(a, p)[idx]).len() <= MIN_KEYS,
        entries_of(a, children_of(a, p)[idx + 1]).len() > MIN_KEYS,
    ensures
        can_move(a, p, h, min, idx, false),
        ensured(a, after_move(a, p, idx, false), p, h, min, idx, idx),
        idx == 0 || entries_of(a, children_of(a, p)[idx - 1]).len() <= MIN_KEYS ==> ensure_effect(
            a,
            after_move(a, p, idx, false),
            p,
            idx,
            idx,
        ),
{
    let i = idx;
    let b = after_move(a, p, i, false);
    let parent = node_at(a, p).unwrap();
    assert(node_ok(parent, p, h, min));
    lemma_pair(a, p, h, min, i);
    assert(can_move(a, p, h, min, i, false));
    lemma_borrowed(a, p, h, min, i, false);
    lemma_move(a, p, h, min, i, false);
    lemma_move_nodes(a, p, h, min, i, false);
    let right = node_at(a, parent.children[i + 1]).unwrap();
    assert(entries_of(b, p) == parent.entries.update(i, right.entries[0]) && entries_of(
        b,
        children_of(b, p)[idx],
    ).len() == entries_of(a, children_of(a, p)[idx]).len() + 1) by {
        reveal(moved_nodes);
    }
    lemma_child_entry_bounds(a, p, h, min, i + 1, 0);
}

/// A child with `MIN_KEYS` entries is merged with a sibling that has no
/// more, where the node can give the entry between them.
pub proof fn lemma_ensure_merge(a: PoolView, p: u32, h: nat, min: nat, idx: int, i: int)
    requires
        can_ensure(a, p, h, min, idx),
        !lendable(a, p, idx),
        0 <= i < entries_of(a, p).len(),
        i == idx || (i == idx - 1 && idx == entries_of(a, p).len()),
    ensures
        can_merge(a, p, h, min, i),
        ensured(a, after_merge(a, p, i), p, h, min, idx, i),
        ensure_effect(a, after_merge(a, p, i), p, idx, i),
{
    let b = after_merge(a, p, i);
    let parent = node_at(a, p).unwrap();
    assert(node_ok(parent, p, h, min));
    lemma_pair(a, p, h, min, i);
    assert(can_merge(a, p, h, min, i));
    lemma_merged_into(a, p, h, min, i);
    lemma_merge(a, p, h, min, i);
    lemma_merge_nodes(a, p, h, min, i);
    lemma_node_sorted(a, p, h, min);
    let es = parent.entries;
    let es2 = entries_of(b, p);
    assert(es2 == es.remove(i));
    if i > 0 {
        assert(es2[i - 1] == es[i - 1]);
    }
    if i < es2.len() {
        assert(es2[i] == es[i + 1]);
    }
}

/// The leaf without the first entry that has the key.
pub open spec fn leaf_without(node: NodeView, key: i32) -> NodeView {
    let at = lower_bound(node.entries, key);
    if at < node.entries.len() && node.entries[at].0 == key {
        NodeView { entries: node.entries.remove(at), ..node }
    } else {
        node
    }
}

/// Whether the first entry of the node with a key that is not less has
/// the key.
pub open spec fn found(node: NodeView, key: i32) -> bool {
    let at = lower_bound(node.entries, key);
    at < node.entries.len() && node.entries[at].0 == key
}

/// Taking an entry out of a leaf that may lose one.
pub proof fn lemma_delete_leaf(a: PoolView, id: u32, min: nat, key: i32)
    requires
        pool_ok(a),
        subtree(a, id, 0, min),
        sorted(contents(a, id, 0)),
        min == 0 || entries_of(a, id).len() > min,
    ensures
        ({
            let node = leaf_without(node_at(a, id).unwrap(), key);
            let b = with_node(a, node);
            &&& fits(node)
            &&& DiskManager::write_outcome(a.disk, node_page(node)) is Ok
            &&& subtree(b, id, 0, min)
            &&& updated(a, b, id, 0)
            &&& removed(contents(a, id, 0), contents(b, id, 0), key)
            &&& !found(node_at(a, id).unwrap(), key) ==> removed(
                contents(a, id, 0),
                contents(a, id, 0),
                key,
            )
        }),
{
    let old_node = node_at(a, id).unwrap();
    let node = leaf_without(old_node, key);
    let es = old_node.entries;
    let at = lower_bound(es, key);
    lemma_first_from(es, key, false, 0);
    lemma_pages_stored(a, id, 0, min);
    assert(node_ok(node, id, 0, min)) by {
        assert forall|i: int| 0 <= i < node.entries.len() implies small(#[trigger] node.entries[i]) by {
            if found(old_node, key) {
                if i < at {
                    assert(node.entries[i] == es[i]);
                } else {
                    assert(node.entries[i] == es[i + 1]);
                }
            }
        }
    }
    lemma_node_fits(node, id, 0, min);
    lemma_with_node(a, node);
    let b = with_node(a, node);
    assert(contents(b, id, 0) == node.entries);
    assert(contents(a, id, 0) == es);
    assert(pages_of(b, id, 0) =~= pages_of(a, id, 0));
    if found(old_node, key) {
        assert(removed_at(es, node.entries, key, at));
    } else {
        if has_key(es, key) {
            let j = choose|j: int| 0 <= j < es.len() && (#[trigger] es[j]).0 == key;
            if j >= at {
                assert(es[at].0 <= es[j].0);
            }
        }
    }
}

/// An entry that was taken out under child `j`, where all entries with its
/// key are, was taken out of the node.
pub proof fn lemma_remove_lifted(
    a: PoolView,
    b: PoolView,
    id: u32,
    h: nat,
    min: nat,
    j: int,
    key: i32,
)
    requires
        h >= 1,
        subtree(a, id, h, min),
        sorted(contents(a, id, h)),
        0 <= j < children_of(a, id).len(),
        updated(a, b, children_of(a, id)[j], (h - 1) as nat),
        subtree(b, children_of(a, id)[j], (h - 1) as nat, MIN_KEYS as nat),
        removed(
            contents(a, children_of(a, id)[j], (h - 1) as nat),
            contents(b, children_of(a, id)[j], (h - 1) as nat),
            key,
        ),
        has_key(contents(a, children_of(a, id)[j], (h - 1) as nat), key) || ((j > 0 ==> entries_of(
            a,
            id,
        )[j - 1].0 < key) && (j < entries_of(a, id).len() ==> key < entries_of(a, id)[j].0)),
    ensures
        subtree(b, id, h, min),
        updated(a, b, id, h),
        node_at(b, id) == node_at(a, id),
        removed(contents(a, id, h), contents(b, id, h), key),
{
    let node = node_at(a, id).unwrap();
    let g = (h - 1) as nat;
    let cs = children_contents(a, node, g);
    let child = node.children[j];
    let before = contents(a, child, g);
    let after = contents(b, child, g);
    lemma_lift(a, b, id, h, min, j);
    assert(cs[j] == before);
    if has_key(before, key) {
        let at = choose|at: int| removed_at(before, after, key, at);
        lemma_flat_child_removed(cs, node.entries, j, after, key, at);
        let place = flat_upto(cs, node.entries, j).len() + at;
        assert(removed_at(contents(a, id, h), contents(b, id, h), key, place));
        assert(contents(a, id, h)[place].0 == key);
    } else {
        assert(cs.update(j, after) =~= cs);
        lemma_flat_key_in_child(cs, node.entries, j, key);
    }
}

/// Where the last entry under child `i` was taken out and put in the place
/// of entry `i` of the node, the old entry `i` was taken out of the node.
pub proof fn lemma_delete_swapped(
    a: PoolView,
    b: PoolView,
    id: u32,
    h: nat,
    min: nat,
    i: int,
    last: Entry,
)
    requires
        h >= 1,
        pool_ok(a),
        subtree(a, id, h, min),
        0 <= i < entries_of(a, id).len(),
        small(last),
        updated(a, b, children_of(a, id)[i], (h - 1) as nat),
        subtree(b, children_of(a, id)[i], (h - 1) as nat, MIN_KEYS as nat),
        contents(a, children_of(a, id)[i], (h - 1) as nat) == contents(
            b,
            children_of(a, id)[i],
            (h - 1) as nat,
        ).push(last),
    ensures
        ({
            let node = with_entry(node_at(a, id).unwrap(), i, last);
            let c = with_node(b, node);
            &&& node_at(b, id) == node_at(a, id)
            &&& b.pages.contains_key(id)
            &&& fits(node)
            &&& DiskManager::write_outcome(b.disk, node_page(node)) is Ok
            &&& subtree(c, id, h, min)
            &&& updated(a, c, id, h)
            &&& removed(contents(a, id, h), contents(c, id, h), entries_of(a, id)[i].0)
            &&& entries_of(c, id).len() == entries_of(a, id).len()
        }),
{
    let old_node = node_at(a, id).unwrap();
    let node = with_entry(old_node, i, last);
    let g = (h - 1) as nat;
    let cs = children_contents(a, old_node, g);
    let child = old_node.children[i];
    lemma_lift(a, b, id, h, min, i);
    lemma_pages_stored(b, id, h, min);
    lemma_entry_replaced(b, id, h, min, i, last);
    let c = with_node(b, node);
    lemma_updated_twice(a, b, c, id, h);
    assert(node_ok(node, id, h, min));
    lemma_node_fits(node, id, h, min);
    lemma_with_node(b, node);
    assert(cs[i] == contents(a, child, g));
    lemma_flat_entry_swapped(cs, old_node.entries, i, contents(b, child, g), last);
    let place = (flat_upto(cs, old_node.entries, i).len() + cs[i].len()) as int;
    assert(removed_at(contents(a, id, h), contents(c, id, h), old_node.entries[i].0, place));
    assert(contents(a, id, h)[place].0 == old_node.entries[i].0);
}

/// The leaf without its last entry.
pub open spec fn leaf_without_last(node: NodeView) -> NodeView {
    NodeView { entries: node.entries.drop_last(), ..node }
}

/// Taking the last entry out of a leaf that has more than `MIN_KEYS`.
pub proof fn lemma_take_last_leaf(a: PoolView, id: u32)
    requires
        pool_ok(a),
        subtree(a, id, 0, MIN_KEYS as nat),
        entries_of(a, id).len() > MIN_KEYS,
    ensures
        ({
            let node = leaf_without_last(node_at(a, id).unwrap());
            let b = with_node(a, node);
            &&& fits(node)
            &&& DiskManager::write_outcome(a.disk, node_page(node)) is Ok
            &&& subtree(b, id, 0, MIN_KEYS as nat)
            &&& updated(a, b, id, 0)
            &&& contents(a, id, 0) == contents(b, id, 0).push(entries_of(a, id).last())
            &&& small(entries_of(a, id).last())
        }),
{
    let old_node = node_at(a, id).unwrap();
    let node = leaf_without_last(old_node);
    lemma_pages_stored(a, id, 0, MIN_KEYS as nat);
    assert(small(old_node.entries[old_node.entries.len() - 1]));
    assert(node_ok(node, id, 0, MIN_KEYS as nat)) by {
        assert forall|i: int| 0 <= i < node.entries.len() implies small(#[trigger] node.entries[i]) by {
            assert(node.entries[i] == old_node.entries[i]);
        }
    }
    lemma_node_fits(node, id, 0, MIN_KEYS as nat);
    lemma_with_node(a, node);
    let b = with_node(a, node);
    assert(contents(b, id, 0) == node.entries);
    assert(pages_of(b, id, 0) =~= pages_of(a, id, 0));
    assert(old_node.entries =~= node.entries.push(old_node.entries.last()));
}

/// The last entry taken out under the last child was the last entry under
/// the node.
pub proof fn lemma_take_last_lifted(
    a: PoolView,
    b: PoolView,
    id: u32,
    h: nat,
    min: nat,
    last: Entry,
)
    requires
        h >= 1,
        subtree(a, id, h, min),
        updated(a, b, children_of(a, id).last(), (h - 1) as nat),
        subtree(b, children_of(a, id).last(), (h - 1) as nat, MIN_KEYS as nat),
        contents(a, children_of(a, id).last(), (h - 1) as nat) == contents(
            b,
            children_of(a, id).last(),
            (h - 1) as nat,
        ).push(last),
    ensures
        subtree(b, id, h, min),
        updated(a, b, id, h),
        node_at(b, id) == node_at(a, id),
        contents(a, id, h) == contents(b, id, h).push(last),
{
    let node = node_at(a, id).unwrap();
    let g = (h - 1) as nat;
    let n = node.entries.len() as int;
    let cs = children_contents(a, node, g);
    assert(node_ok(node, id, h, min));
    lemma_lift(a, b, id, h, min, n);
    assert(cs[n] == contents(a, node.children[n], g));
    lemma_flat_last_taken(cs, node.entries, contents(b, node.children[n], g), last);
}

/// Whether the topmost node of the subtree of height `h` under page `id`
/// can lose an entry, or give one to a merge of two of its children, and
/// still have `min` entries, and one at least if it is no leaf.
pub open spec fn can_lose(a: PoolView, id: u32, h: nat, min: nat) -> bool {
    let n = entries_of(a, id).len();
    if h == 0 {
        min == 0 || n > min
    } else {
        (n >= 2 && n > min) || (min == 0 && n == 1 && (entries_of(a, children_of(a, id)[0]).len()
            > MIN_KEYS || entries_of(a, children_of(a, id)[1]).len() > MIN_KEYS))
    }
}

/// Whether an entry can be taken out of the subtree of height `h` under
/// page `id`.
pub open spec fn deletable(a: PoolView, id: u32, h: nat, min: nat) -> bool {
    &&& pool_ok(a)
    &&& subtree(a, id, h, min)
    &&& sorted(contents(a, id, h))
    &&& can_lose(a, id, h, min)
}

/// Whether the last entry can be taken out of the subtree of height `h`
/// under page `id`, which is not the root.
pub open spec fn can_take(a: PoolView, id: u32, h: nat) -> bool {
    &&& pool_ok(a)
    &&& subtree(a, id, h, MIN_KEYS as nat)
    &&& sorted(contents(a, id, h))
    &&& entries_of(a, id).len() > MIN_KEYS
}

/// A subtree that an entry can be taken out of, or its last entry, has its
/// pages in the cache; so have its children.
pub proof fn lemma_cached(a: PoolView, id: u32, h: nat, min: nat)
    requires
        subtree(a, id, h, min),
    ensures
        a.pages.contains_key(id),
        node_at(a, id) is Some,
        node_ok(node_at(a, id).unwrap(), id, h, min),
        h > 0 ==> forall|i: int|
            0 <= i < children_of(a, id).len() ==> a.pages.contains_key(
                #[trigger] children_of(a, id)[i],
            ) && node_at(a, children_of(a, id)[i]) is Some && node_ok(
                node_at(a, children_of(a, id)[i]).unwrap(),
                children_of(a, id)[i],
                (h - 1) as nat,
                MIN_KEYS as nat,
            ),
{
    lemma_pages_stored(a, id, h, min);
    if h > 0 {
        assert forall|i: int| 0 <= i < children_of(a, id).len() implies a.pages.contains_key(
            #[trigger] children_of(a, id)[i],
        ) && node_at(a, children_of(a, id)[i]) is Some && node_ok(
            node_at(a, children_of(a, id)[i]).unwrap(),
            children_of(a, id)[i],
            (h - 1) as nat,
            MIN_KEYS as nat,
        ) by {
            let c = children_of(a, id)[i];
            assert(subtree(a, c, (h - 1) as nat, MIN_KEYS as nat));
            lemma_pages_stored(a, c, (h - 1) as nat, MIN_KEYS as nat);
        }
    }
}

/// The last entry under a node that is no leaf is taken out under its last
/// child, once that has more than `MIN_KEYS` entries.
pub proof fn lemma_take_last_down(a: PoolView, b: PoolView, id: u32, h: nat, j: int)
    requires
        h >= 1,
        can_take(a, id, h),
        ensured(a, b, id, h, MIN_KEYS as nat, entries_of(a, id).len() as int, j),
    ensures
        j == children_of(b, id).len() - 1,
        children_of(b, id)[j] == children_of(b, id).last(),
        can_take(b, children_of(b, id)[j], (h - 1) as nat),
        pool_ok(b),
{
    lemma_cached(b, id, h, MIN_KEYS as nat);
    lemma_node_sorted(b, id, h, MIN_KEYS as nat);
    assert(subtree(b, children_of(b, id)[j], (h - 1) as nat, MIN_KEYS as nat));
}

/// Where the key is that of entry `i` of a node that is no leaf, and the
/// child before the entry has more than `MIN_KEYS` entries, the last entry
/// under that child can be taken out.
pub proof fn lemma_found_take(a: PoolView, id: u32, h: nat, min: nat, i: int)
    requires
        h >= 1,
        deletable(a, id, h, min),
        0 <= i < entries_of(a, id).len(),
        entries_of(a, children_of(a, id)[i]).len() > MIN_KEYS,
    ensures
        can_take(a, children_of(a, id)[i], (h - 1) as nat),
{
    lemma_cached(a, id, h, min);
    lemma_node_sorted(a, id, h, min);
    assert(subtree(a, children_of(a, id)[i], (h - 1) as nat, MIN_KEYS as nat));
}

/// Where the key is that of entry `i` of a node that is no leaf, the child
/// before the entry has `MIN_KEYS` entries and the child behind it more,
/// the entry goes down into the child before it, and can be taken out
/// there.
pub proof fn lemma_found_move(a: PoolView, id: u32, h: nat, min: nat, i: int)
    requires
        h >= 1,
        deletable(a, id, h, min),
        0 <= i < entries_of(a, id).len(),
        entries_of(a, children_of(a, id)[i]).len() <= MIN_KEYS,
        entries_of(a, children_of(a, id)[i + 1]).len() > MIN_KEYS,
    ensures
        ({
            let b = after_move(a, id, i, false);
            let child = children_of(a, id)[i];
            &&& can_move(a, id, h, min, i, false)
            &&& subtree(b, id, h, min)
            &&& updated(a, b, id, h)
            &&& contents(b, id, h) == contents(a, id, h)
            &&& children_of(b, id) == children_of(a, id)
            &&& entries_of(b, id).len() == entries_of(a, id).len()
            &&& deletable(b, child, (h - 1) as nat, MIN_KEYS as nat)
            &&& has_key(contents(b, child, (h - 1) as nat), entries_of(a, id)[i].0)
        }),
{
    let b = after_move(a, id, i, false);
    let parent = node_at(a, id).unwrap();
    let child = parent.children[i];
    let g = (h - 1) as nat;
    lemma_pair(a, id, h, min, i);
    assert(can_move(a, id, h, min, i, false));
    lemma_move(a, id, h, min, i, false);
    lemma_move_nodes(a, id, h, min, i, false);
    let left = node_at(a, child).unwrap();
    assert(entries_of(b, child) == left.entries.push(parent.entries[i])) by {
        reveal(moved_nodes);
    }
    lemma_cached(b, id, h, min);
    lemma_node_sorted(b, id, h, min);
    assert(subtree(b, child, g, MIN_KEYS as nat));
    let k = left.entries.len() as int;
    lemma_entry_held(b, child, g, MIN_KEYS as nat, k);
    let held = contents(b, child, g);
    let m = choose|m: int| 0 <= m < held.len() && held[m] == entries_of(b, child)[k];
    assert(held[m].0 == parent.entries[i].0);
    if g > 0 {
        assert(node_ok(node_at(b, child).unwrap(), child, g, MIN_KEYS as nat));
    }
}

/// Where the key is that of entry `i` of a node that is no leaf, and the
/// children around the entry have `MIN_KEYS` entries each, the entry goes
/// down into the merged child, and can be taken out there.
pub proof fn lemma_found_merge(a: PoolView, id: u32, h: nat, min: nat, i: int)
    requires
        h >= 1,
        deletable(a, id, h, min),
        0 <= i < entries_of(a, id).len(),
        entries_of(a, children_of(a, id)[i]).len() <= MIN_KEYS,
        entries_of(a, children_of(a, id)[i + 1]).len() <= MIN_KEYS,
    ensures
        ({
            let b = after_merge(a, id, i);
            let child = children_of(a, id)[i];
            &&& can_merge(a, id, h, min, i)
            &&& subtree(b, id, h, min)
            &&& updated(a, b, id, h)
            &&& contents(b, id, h) == contents(a, id, h)
            &&& i < children_of(b, id).len()
            &&& children_of(b, id)[i] == child
            &&& entries_of(b, id).len() + 1 == entries_of(a, id).len()
            &&& entries_of(b, id).len() >= 1
            &&& deletable(b, child, (h - 1) as nat, MIN_KEYS as nat)
            &&& has_key(contents(b, child, (h - 1) as nat), entries_of(a, id)[i].0)
        }),
{
    let b = after_merge(a, id, i);
    let parent = node_at(a, id).unwrap();
    let child = parent.children[i];
    let g = (h - 1) as nat;
    lemma_pair(a, id, h, min, i);
    assert(node_ok(parent, id, h, min));
    if parent.entries.len() == 1 {
        assert(i == 0);
    }
    assert(can_merge(a, id, h, min, i));
    lemma_merge(a, id, h, min, i);
    lemma_merge_nodes(a, id, h, min, i);
    let left = node_at(a, child).unwrap();
    lemma_cached(b, id, h, min);
    lemma_node_sorted(b, id, h, min);
    assert(children_of(b, id)[i] == child);
    assert(subtree(b, child, g, MIN_KEYS as nat));
    let k = left.entries.len() as int;
    assert(entries_of(b, child)[k] == parent.entries[i]);
    lemma_entry_held(b, child, g, MIN_KEYS as nat, k);
    let held = contents(b, child, g);
    let m = choose|m: int| 0 <= m < held.len() && held[m] == entries_of(b, child)[k];
    assert(held[m].0 == parent.entries[i].0);
}

/// Where the key is that of no entry of a node that is no leaf, the
/// entries with the key are under the child between the entries with a
/// lesser and a greater key, which can be given more than `MIN_KEYS`
/// entries.
pub proof fn lemma_not_found(a: PoolView, id: u32, h: nat, min: nat, key: i32)
    requires
        h >= 1,
        deletable(a, id, h, min),
        !found(node_at(a, id).unwrap(), key),
    ensures
        can_ensure(a, id, h, min, lower_bound(entries_of(a, id), key)),
{
    let node = node_at(a, id).unwrap();
    let i = lower_bound(node.entries, key);
    lemma_first_from(node.entries, key, false, 0);
    assert(node_ok(node, id, h, min));
    if node.entries.len() == 1 {
        assert(i == 0 || i == 1);
    }
}

/// After the child that the entries with the key are under was given more
/// than `MIN_KEYS` entries, an entry can be taken out under it.
pub proof fn lemma_not_found_down(
    a: PoolView,
    b: PoolView,
    id: u32,
    h: nat,
    min: nat,
    key: i32,
    j: int,
)
    requires
        h >= 1,
        deletable(a, id, h, min),
        !found(node_at(a, id).unwrap(), key),
        ensured(a, b, id, h, min, lower_bound(entries_of(a, id), key), j),
    ensures
        pool_ok(b),
        sorted(contents(b, id, h)),
        entries_of(b, id).len() >= 1,
        deletable(b, children_of(b, id)[j], (h - 1) as nat, MIN_KEYS as nat),
        j > 0 ==> entries_of(b, id)[j - 1].0 < key,
        j < entries_of(b, id).len() ==> key < entries_of(b, id)[j].0,
{
    let node = node_at(a, id).unwrap();
    let i = lower_bound(node.entries, key);
    lemma_first_from(node.entries, key, false, 0);
    assert(node_ok(node, id, h, min));
    if node.entries.len() == 1 {
        assert(i == 0 || i == 1);
    }
    lemma_cached(b, id, h, min);
    lemma_node_sorted(b, id, h, min);
    let child = children_of(b, id)[j];
    assert(subtree(b, child, (h - 1) as nat, MIN_KEYS as nat));
    if i > 0 {
        assert(node.entries[i - 1].0 < key);
    }
}

/// A tree whose root has one entry and two children with `MIN_KEYS`
/// entries each loses a level before an entry is taken out of it; any
/// other tree is ready as it is.
pub proof fn lemma_root_ready(a: PoolView, r: u32, h: nat)
    requires
        pool_ok(a),
        subtree(a, r, h, 0),
        sorted(contents(a, r, h)),
        h > 0 ==> entries_of(a, r).len() >= 1,
    ensures
        ({
            let both_least = h > 0 && entries_of(a, r).len() == 1 && entries_of(
                a,
                children_of(a, r)[0],
            ).len() <= MIN_KEYS && entries_of(a, children_of(a, r)[1]).len() <= MIN_KEYS;
            &&& both_least ==> can_collapse(a, r, h) && deletable(
                after_collapse(a, r),
                r,
                (h - 1) as nat,
                0,
            )
            &&& !both_least ==> deletable(a, r, h, 0)
        }),
{
    lemma_cached(a, r, h, 0);
    if h > 0 && entries_of(a, r).len() == 1 && entries_of(a, children_of(a, r)[0]).len()
        <= MIN_KEYS && entries_of(a, children_of(a, r)[1]).len() <= MIN_KEYS {
        assert(can_collapse(a, r, h));
        lemma_collapse(a, r, h);
    }
}

} // verus!
