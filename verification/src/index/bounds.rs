//! How the keys of a node's entries lie to the keys in its children.

use crate::index::node::MIN_KEYS;
use crate::index::order::{
    lemma_flat_bounds, lemma_flat_entries_sorted, lemma_flat_entry_place, sorted,
};
use crate::index::shape::{children_contents, contents, node_at, subtree};
use crate::index::window::{children_of, entries_of};
use crate::storage::buffer_pool::PoolView;
use vstd::prelude::*;

verus! {

/// An entry of a node is among what the subtree under the node holds.
pub proof fn lemma_entry_held(pool: PoolView, id: u32, h: nat, min: nat, k: int)
    requires
        subtree(pool, id, h, min),
        0 <= k < entries_of(pool, id).len(),
    ensures
        contents(pool, id, h).contains(entries_of(pool, id)[k]),
{
    let node = node_at(pool, id).unwrap();
    if h > 0 {
        lemma_flat_entry_place(children_contents(pool, node, (h - 1) as nat), node.entries, k);
    } else {
        assert(contents(pool, id, h)[k] == node.entries[k]);
    }
}

/// In a sorted subtree the entries of the topmost node are sorted, and the
/// subtrees under its children are sorted.
pub proof fn lemma_node_sorted(pool: PoolView, id: u32, h: nat, min: nat)
    requires
        subtree(pool, id, h, min),
        sorted(contents(pool, id, h)),
    ensures
        sorted(entries_of(pool, id)),
        h > 0 ==> forall|i: int|
            0 <= i < children_of(pool, id).len() ==> sorted(
                contents(pool, #[trigger] children_of(pool, id)[i], (h - 1) as nat),
            ),
{
    let node = node_at(pool, id).unwrap();
    if h > 0 {
        let cs = children_contents(pool, node, (h - 1) as nat);
        lemma_flat_entries_sorted(cs, node.entries);
        assert forall|i: int| 0 <= i < node.children.len() implies sorted(
            contents(pool, #[trigger] node.children[i], (h - 1) as nat),
        ) by {
            lemma_flat_bounds(cs, node.entries, i);
            assert(cs[i] == contents(pool, node.children[i], (h - 1) as nat));
        }
    }
}

/// In a sorted subtree the keys of the entries of child `i` lie between the
/// keys of the entries around the child.
pub proof fn lemma_child_entry_bounds(pool: PoolView, id: u32, h: nat, min: nat, i: int, k: int)
    requires
        h >= 1,
        subtree(pool, id, h, min),
        sorted(contents(pool, id, h)),
        0 <= i < children_of(pool, id).len(),
        0 <= k < entries_of(pool, children_of(pool, id)[i]).len(),
    ensures
        i > 0 ==> entries_of(pool, id)[i - 1].0 <= entries_of(pool, children_of(pool, id)[i])[k].0,
        i < entries_of(pool, id).len() ==> entries_of(pool, children_of(pool, id)[i])[k].0
            <= entries_of(pool, id)[i].0,
{
    let node = node_at(pool, id).unwrap();
    let g = (h - 1) as nat;
    let cs = children_contents(pool, node, g);
    let child = node.children[i];
    let e = entries_of(pool, child)[k];
    assert(subtree(pool, child, g, MIN_KEYS as nat));
    lemma_entry_held(pool, child, g, MIN_KEYS as nat, k);
    assert(cs[i] == contents(pool, child, g));
    let m = choose|m: int| 0 <= m < cs[i].len() && cs[i][m] == e;
    lemma_flat_bounds(cs, node.entries, i);
    assert(cs[i][m] == e);
}

} // verus!
