//! Taking a level off the tree: a root with one entry and two children
//! that together fit one node is replaced by that node.

use crate::index::layout::NodeView;
use crate::index::node::{MAX_KEYS, MIN_KEYS};
use crate::index::order::lemma_flat_split;
use crate::index::reshape::lemma_pair;
use crate::index::shape::{
    changed, children_contents, contents, holds, lemma_child_pages, lemma_frame,
    lemma_node_fits, lemma_node_two_freed, lemma_page_place, lemma_pages_stored, node_at,
    node_ok, pages_of, pool_ok, same_page, small, subtree, with_node, without_page,
};
use crate::index::window::{
    children_of, contents_of_all, entries_of, grandchildren, lemma_grandchild,
    lemma_grandchildren_apart, lemma_origin, lemma_window_contents, origin, window_contents,
    window_entries,
};
use crate::storage::buffer_pool::{all_clean, PoolView};
use vstd::prelude::*;

verus! {

/// The node that takes the place of a root with one entry and the two
/// children `left` and `right`.
pub open spec fn collapsed_node(root: NodeView, left: NodeView, right: NodeView) -> NodeView {
    NodeView {
        page_id: root.page_id,
        is_leaf: left.is_leaf,
        entries: left.entries + seq![root.entries[0]] + right.entries,
        children: left.children + right.children,
    }
}

/// The node that takes the place of the root in page `r`.
#[verifier::opaque]
pub open spec fn collapse_result(a: PoolView, r: u32) -> NodeView {
    let root = node_at(a, r).unwrap();
    collapsed_node(
        root,
        node_at(a, root.children[0]).unwrap(),
        node_at(a, root.children[1]).unwrap(),
    )
}

/// The pool after the root in page `r` and its two children were made one
/// node in page `r`, and the pages of the children were freed.
pub open spec fn after_collapse(a: PoolView, r: u32) -> PoolView {
    without_page(
        without_page(with_node(a, collapse_result(a, r)), children_of(a, r)[0]),
        children_of(a, r)[1],
    )
}

/// Whether the root in page `r` of a tree of height `h` and its two
/// children can be made one node.
pub open spec fn can_collapse(a: PoolView, r: u32, h: nat) -> bool {
    &&& pool_ok(a)
    &&& h >= 1
    &&& subtree(a, r, h, 0)
    &&& entries_of(a, r).len() == 1
    &&& entries_of(a, children_of(a, r)[0]).len() + 1 + entries_of(a, children_of(a, r)[1]).len()
        <= MAX_KEYS
}

/// The node after a collapse is a node of the tree, one level lower.
pub proof fn lemma_collapse_node(a: PoolView, r: u32, h: nat)
    requires
        can_collapse(a, r, h),
    ensures
        ({
            let root = node_at(a, r).unwrap();
            let l = root.children[0];
            let rr = root.children[1];
            let left = node_at(a, l).unwrap();
            let right = node_at(a, rr).unwrap();
            let node = collapse_result(a, r);
            &&& node_ok(node, r, (h - 1) as nat, 0)
            &&& node.page_id == r
            &&& node.entries == left.entries + seq![root.entries[0]] + right.entries
            &&& node.children == left.children + right.children
            &&& node.entries.len() >= 3
            &&& l != r && rr != r && l != rr
            &&& l < a.disk.next_page_id && rr < a.disk.next_page_id && r < a.disk.next_page_id
            &&& a.pages.contains_key(r) && a.pages.contains_key(l) && a.pages.contains_key(rr)
            &&& node_at(a, r) is Some && node_at(a, l) is Some && node_at(a, rr) is Some
            &&& left.children.len() == if h >= 2 {
                left.entries.len() + 1
            } else {
                0
            }
            &&& right.children.len() == if h >= 2 {
                right.entries.len() + 1
            } else {
                0
            }
        }),
{
    reveal(collapse_result);
    let root = node_at(a, r).unwrap();
    let l = root.children[0];
    let rr = root.children[1];
    let left = node_at(a, l).unwrap();
    let right = node_at(a, rr).unwrap();
    let node = collapse_result(a, r);
    lemma_pair(a, r, h, 0, 0);
    assert(small(root.entries[0]));
    assert forall|k: int| 0 <= k < node.entries.len() implies small(#[trigger] node.entries[k]) by {
        if k < left.entries.len() {
            assert(node.entries[k] == left.entries[k]);
        } else if k > left.entries.len() {
            assert(node.entries[k] == right.entries[k - left.entries.len() - 1]);
        }
    }
}

/// The pool after a collapse holds the new root, and every other page but
/// the freed ones as it was.
pub proof fn lemma_collapse_pool(a: PoolView, r: u32, h: nat)
    requires
        can_collapse(a, r, h),
    ensures
        ({
            let b = after_collapse(a, r);
            &&& pool_ok(b)
            &&& b.capacity == a.capacity
            &&& b.disk.next_page_id == a.disk.next_page_id
            &&& b.pages.len() <= a.pages.len()
            &&& holds(b, collapse_result(a, r))
            &&& forall|q: u32|
                q != r && q != children_of(a, r)[0] && q != children_of(a, r)[1]
                    ==> #[trigger] same_page(a, b, q)
            &&& (all_clean(a) ==> all_clean(b))
        }),
{
    let node = collapse_result(a, r);
    lemma_collapse_node(a, r, h);
    lemma_node_fits(node, r, (h - 1) as nat, 0);
    lemma_node_two_freed(a, node, children_of(a, r)[0], children_of(a, r)[1]);
}

/// After a collapse, a grandchild of the old root is the subtree that it
/// was.
pub proof fn lemma_collapse_grandchild(a: PoolView, r: u32, h: nat, x: int)
    requires
        can_collapse(a, r, h),
        h >= 2,
        0 <= x < grandchildren(a, r, 0, 2).len(),
    ensures
        ({
            let b = after_collapse(a, r);
            let g = grandchildren(a, r, 0, 2)[x];
            &&& subtree(b, g, (h - 2) as nat, MIN_KEYS as nat)
            &&& pages_of(b, g, (h - 2) as nat) == pages_of(a, g, (h - 2) as nat)
            &&& contents(b, g, (h - 2) as nat) == contents(a, g, (h - 2) as nat)
            &&& forall|q: u32|
                #[trigger] pages_of(a, g, (h - 2) as nat).contains(q) ==> q != r && pages_of(
                    a,
                    r,
                    h,
                ).contains(q)
        }),
{
    let b = after_collapse(a, r);
    let g = grandchildren(a, r, 0, 2)[x];
    let root = node_at(a, r).unwrap();
    lemma_pair(a, r, h, 0, 0);
    lemma_collapse_pool(a, r, h);
    lemma_origin(a, r, 0, 2, x);
    let (i, k) = origin(a, r, 0, 2, x);
    lemma_grandchild(a, r, h, 0, 0, 2, i, k);
    assert forall|q: u32| #[trigger] pages_of(a, g, (h - 2) as nat).contains(q) implies same_page(
        a,
        b,
        q,
    ) && q != r && pages_of(a, r, h).contains(q) by {
        assert(q != children_of(a, r)[0]);
        assert(q != children_of(a, r)[1]);
        lemma_child_pages(a, r, h, i, q);
    }
    lemma_frame(a, b, g, (h - 2) as nat, MIN_KEYS as nat);
}

/// A collapse leaves a well-formed tree that is one level lower and holds
/// what the tree held.
pub proof fn lemma_collapse(a: PoolView, r: u32, h: nat)
    requires
        can_collapse(a, r, h),
    ensures
        subtree(after_collapse(a, r), r, (h - 1) as nat, 0),
        changed(a, after_collapse(a, r), r, h, r, (h - 1) as nat),
        contents(after_collapse(a, r), r, (h - 1) as nat) == contents(a, r, h),
        node_at(after_collapse(a, r), r) == Some(collapse_result(a, r)),
        entries_of(after_collapse(a, r), r).len() >= 3,
{
    let b = after_collapse(a, r);
    let root = node_at(a, r).unwrap();
    let l = root.children[0];
    let rr = root.children[1];
    let node = collapse_result(a, r);
    let g = (h - 1) as nat;
    let ids = root.children.subrange(0, 2);
    let all = grandchildren(a, r, 0, 2);
    lemma_collapse_node(a, r, h);
    lemma_collapse_pool(a, r, h);
    lemma_pair(a, r, h, 0, 0);
    lemma_pages_stored(a, r, h, 0);
    assert(ids =~= seq![l, rr]);
    assert(root.children =~= ids);
    if h >= 2 {
        let gg = (h - 2) as nat;
        assert(node.children == all);
        assert forall|k: int| 0 <= k < node.children.len() implies subtree(
            b,
            #[trigger] node.children[k],
            gg,
            MIN_KEYS as nat,
        ) && !pages_of(b, node.children[k], gg).contains(r) by {
            lemma_collapse_grandchild(a, r, h, k);
        }
        assert forall|k1: int, k2: int| 0 <= k1 < k2 < node.children.len() implies pages_of(
            b,
            #[trigger] node.children[k1],
            gg,
        ).disjoint(pages_of(b, #[trigger] node.children[k2], gg)) by {
            lemma_collapse_grandchild(a, r, h, k1);
            lemma_collapse_grandchild(a, r, h, k2);
            lemma_origin(a, r, 0, 2, k1);
            lemma_origin(a, r, 0, 2, k2);
            let (i1, j1) = origin(a, r, 0, 2, k1);
            let (i2, j2) = origin(a, r, 0, 2, k2);
            lemma_grandchildren_apart(a, r, h, 0, i1, j1, i2, j2);
        }
        assert(subtree(b, r, g, 0));
        assert forall|q: u32| #[trigger] pages_of(b, r, g).contains(q) implies pages_of(
            a,
            r,
            h,
        ).contains(q) by {
            if q != r {
                let k = lemma_page_place(b, r, g, q);
                lemma_collapse_grandchild(a, r, h, k);
            }
        }
        assert(children_contents(b, node, gg) =~= contents_of_all(a, all, gg)) by {
            assert forall|k: int| 0 <= k < all.len() implies contents(b, all[k], gg) == contents(
                a,
                all[k],
                gg,
            ) by {
                lemma_collapse_grandchild(a, r, h, k);
            }
        }
    } else {
        assert(subtree(b, r, g, 0));
        assert(pages_of(b, r, g) =~= set![r]);
    }
    assert(changed(a, b, r, h, r, g)) by {
        assert forall|q: u32|
            q < a.disk.next_page_id && !pages_of(a, r, h).contains(q) implies #[trigger] same_page(
            a,
            b,
            q,
        ) by {
            lemma_child_pages(a, r, h, 0, l);
            lemma_child_pages(a, r, h, 1, rr);
        }
    }
    // What the tree holds.
    let sep = root.entries[0];
    assert forall|t: int| 0 <= t < ids.len() implies node_at(a, #[trigger] ids[t]) is Some && (g
        > 0 ==> children_of(a, ids[t]).len() == entries_of(a, ids[t]).len() + 1) by {}
    lemma_window_contents(a, ids, sep, g);
    assert(window_entries(a, ids, sep) == node.entries);
    assert(contents(a, r, h) == window_contents(a, ids, sep, g)) by {
        let cs = children_contents(a, root, g);
        lemma_flat_split(cs, root.entries, 0);
        lemma_flat_split(cs, root.entries, 1);
        assert(contents(a, r, h) =~= cs[0] + seq![sep] + cs[1]);
    }
}

} // verus!
