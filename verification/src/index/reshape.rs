//! The steps that reshape the tree: the split of a full child, the move of
//! an entry from one sibling to the other through the parent, and the
//! merge of two siblings. Each is stated as the pool after the step, and
//! proved to keep the tree well-formed with what it holds.

use crate::index::layout::{Entry, NodeView};
use crate::index::node::{MAX_KEYS, MIN_KEYS};
use crate::index::order::flat;
use crate::index::shape::{
    children_contents, contents, holds, lemma_child_pages, lemma_frame, lemma_node_fits,
    lemma_page_place, lemma_pages_stored, lemma_three_nodes, lemma_two_nodes_freed,
    lemma_with_new_page, lemma_with_node, node_at, node_ok, pages_of, pool_ok, same_page,
    small, stored, subtree, updated, with_node, without_page,
};
use crate::index::window::{
    children_of, entries_of, kids, lemma_rebuilt, lemma_rebuilt_same, rebuilt, window_entries,
};
use crate::storage::buffer_pool::{all_clean, PoolView};
use vstd::prelude::*;

verus! {

/// The parent, the child and the new sibling after child `idx` of `parent`,
/// which has `MAX_KEYS` entries, was split: the child keeps its first entry,
/// the sibling in page `new_id` gets the last, and the middle one goes up
/// into the parent.
pub open spec fn split_nodes(parent: NodeView, child: NodeView, idx: int, new_id: u32) -> (
    NodeView,
    NodeView,
    NodeView,
) {
    (
        NodeView {
            entries: parent.entries.insert(idx, child.entries[1]),
            children: parent.children.insert(idx + 1, new_id),
            ..parent
        },
        NodeView {
            entries: child.entries.take(1),
            children: if child.is_leaf {
                child.children
            } else {
                child.children.take(2)
            },
            ..child
        },
        NodeView {
            page_id: new_id,
            is_leaf: child.is_leaf,
            entries: child.entries.skip(2),
            children: if child.is_leaf {
                Seq::empty()
            } else {
                child.children.skip(2)
            },
        },
    )
}

/// The pool after child `idx` of the node in page `p` was split.
pub open spec fn after_split(a: PoolView, p: u32, idx: int) -> PoolView {
    let parent = node_at(a, p).unwrap();
    let child = node_at(a, parent.children[idx]).unwrap();
    let (parent2, child2, sibling) = split_nodes(parent, child, idx, a.disk.next_page_id);
    with_node(with_node(with_node(a.with_new_page(), parent2), child2), sibling)
}

/// Whether child `idx` of the node in page `p` can be split: it is full,
/// and the node is not.
pub open spec fn can_split(a: PoolView, p: u32, h: nat, min: nat, idx: int) -> bool {
    &&& pool_ok(a)
    &&& h >= 1
    &&& subtree(a, p, h, min)
    &&& 0 <= idx < children_of(a, p).len()
    &&& entries_of(a, p).len() < MAX_KEYS
    &&& entries_of(a, children_of(a, p)[idx]).len() == MAX_KEYS
}

/// The nodes after a split are nodes of the tree.
pub proof fn lemma_split_nodes(a: PoolView, p: u32, h: nat, min: nat, idx: int)
    requires
        can_split(a, p, h, min, idx),
    ensures
        ({
            let parent = node_at(a, p).unwrap();
            let c = parent.children[idx];
            let child = node_at(a, c).unwrap();
            let new_id = a.disk.next_page_id;
            let (parent2, child2, sibling) = split_nodes(parent, child, idx, new_id);
            &&& node_ok(parent2, p, h, min)
            &&& node_ok(child2, c, (h - 1) as nat, MIN_KEYS as nat)
            &&& node_ok(sibling, new_id, (h - 1) as nat, MIN_KEYS as nat)
            &&& c != p
            &&& c < new_id
            &&& p < new_id
            &&& a.pages.contains_key(p)
            &&& a.pages.contains_key(c)
            &&& node_at(a, p) is Some
            &&& node_at(a, c) is Some
            &&& child.entries =~= child2.entries + seq![child.entries[1]] + sibling.entries
            &&& h >= 2 ==> child.children =~= child2.children + sibling.children
        }),
{
    let parent = node_at(a, p).unwrap();
    let c = parent.children[idx];
    let child = node_at(a, c).unwrap();
    let new_id = a.disk.next_page_id;
    let (parent2, child2, sibling) = split_nodes(parent, child, idx, new_id);
    let g = (h - 1) as nat;
    assert(subtree(a, c, g, MIN_KEYS as nat));
    lemma_pages_stored(a, p, h, min);
    lemma_pages_stored(a, c, g, MIN_KEYS as nat);
    assert(!pages_of(a, c, g).contains(p));
    assert(node_ok(child, c, g, MIN_KEYS as nat));
    assert forall|i: int| 0 <= i < parent2.entries.len() implies small(
        #[trigger] parent2.entries[i],
    ) by {
        if i < idx {
            assert(parent2.entries[i] == parent.entries[i]);
        } else if i == idx {
            assert(small(child.entries[1]));
        } else {
            assert(parent2.entries[i] == parent.entries[i - 1]);
        }
    }
    assert forall|i: int| 0 <= i < child2.entries.len() implies small(#[trigger] child2.entries[i]) by {
        assert(child2.entries[i] == child.entries[i]);
    }
    assert forall|i: int| 0 <= i < sibling.entries.len() implies small(
        #[trigger] sibling.entries[i],
    ) by {
        assert(sibling.entries[i] == child.entries[i + 2]);
    }
}

/// The pool after a split holds the three nodes, and every other page that
/// was allocated as it was.
pub proof fn lemma_split_pool(a: PoolView, p: u32, h: nat, min: nat, idx: int)
    requires
        can_split(a, p, h, min, idx),
        a.disk.can_allocate(),
    ensures
        ({
            let parent = node_at(a, p).unwrap();
            let c = parent.children[idx];
            let child = node_at(a, c).unwrap();
            let new_id = a.disk.next_page_id;
            let (parent2, child2, sibling) = split_nodes(parent, child, idx, new_id);
            let b = after_split(a, p, idx);
            &&& pool_ok(b)
            &&& b.capacity == a.capacity
            &&& b.disk.next_page_id == a.disk.next_page_id + 1
            &&& b.pages.len() <= a.pages.len() + 1
            &&& holds(b, parent2)
            &&& holds(b, child2)
            &&& holds(b, sibling)
            &&& forall|q: u32|
                q != p && q != c && q != new_id ==> #[trigger] same_page(a, b, q)
            &&& (all_clean(a) ==> all_clean(b))
        }),
{
    let parent = node_at(a, p).unwrap();
    let c = parent.children[idx];
    let child = node_at(a, c).unwrap();
    let new_id = a.disk.next_page_id;
    let (parent2, child2, sibling) = split_nodes(parent, child, idx, new_id);
    let g = (h - 1) as nat;
    let a1 = a.with_new_page();
    let b = after_split(a, p, idx);
    lemma_split_nodes(a, p, h, min, idx);
    lemma_node_fits(parent2, p, h, min);
    lemma_node_fits(child2, c, g, MIN_KEYS as nat);
    lemma_node_fits(sibling, new_id, g, MIN_KEYS as nat);
    lemma_with_new_page(a);
    lemma_three_nodes(a1, parent2, child2, sibling);
    assert(same_page(a, a1, p) && same_page(a, a1, c));
    assert forall|q: u32| q != p && q != c && q != new_id implies #[trigger] same_page(a, b, q) by {
        assert(same_page(a, a1, q));
        assert(same_page(a1, b, q));
    }
}

/// The pool after a split has the split child rebuilt as two.
pub proof fn lemma_split_rebuilt(a: PoolView, p: u32, h: nat, min: nat, idx: int)
    requires
        can_split(a, p, h, min, idx),
        a.disk.can_allocate(),
    ensures
        rebuilt(
            a,
            after_split(a, p, idx),
            p,
            h,
            min,
            idx,
            idx + 1,
            seq![children_of(a, p)[idx], a.disk.next_page_id],
        ),
{
    let parent = node_at(a, p).unwrap();
    let c = parent.children[idx];
    let child = node_at(a, c).unwrap();
    let new_id = a.disk.next_page_id;
    let (parent2, child2, sibling) = split_nodes(parent, child, idx, new_id);
    let b = after_split(a, p, idx);
    let news = seq![c, new_id];
    let olds = parent.children.subrange(idx, idx + 1);
    reveal(rebuilt);
    lemma_split_nodes(a, p, h, min, idx);
    lemma_split_pool(a, p, h, min, idx);
    assert(olds =~= seq![c]);
    assert(olds[0] == c);
    assert forall|q: u32|
        q < a.disk.next_page_id && q != p && !olds.contains(q) implies #[trigger] same_page(
        a,
        b,
        q,
    ) by {
        assert(q != c);
    }
    assert(children_of(b, p) =~= children_of(a, p).take(idx) + news + children_of(a, p).skip(
        idx + 1,
    ));
    assert forall|t: int| 0 <= t < news.len() implies {
        &&& (#[trigger] news[t]) < b.disk.next_page_id
        &&& (news[t] >= a.disk.next_page_id || olds.contains(news[t]))
        &&& stored(b, news[t])
        &&& node_at(b, news[t]) is Some
        &&& node_ok(node_at(b, news[t]).unwrap(), news[t], (h - 1) as nat, MIN_KEYS as nat)
    } by {}
    if h >= 2 {
        assert(kids(b, news) =~= kids(a, olds));
    }
}

/// A split keeps the subtree under the parent well-formed, with what it
/// held.
pub proof fn lemma_split(a: PoolView, p: u32, h: nat, min: nat, idx: int)
    requires
        can_split(a, p, h, min, idx),
        a.disk.can_allocate(),
    ensures
        subtree(after_split(a, p, idx), p, h, min),
        updated(a, after_split(a, p, idx), p, h),
        contents(after_split(a, p, idx), p, h) == contents(a, p, h),
        after_split(a, p, idx).disk.next_page_id == a.disk.next_page_id + 1,
        node_at(after_split(a, p, idx), p) == Some(
            split_nodes(
                node_at(a, p).unwrap(),
                node_at(a, children_of(a, p)[idx]).unwrap(),
                idx,
                a.disk.next_page_id,
            ).0,
        ),
        entries_of(after_split(a, p, idx), children_of(after_split(a, p, idx), p)[idx]).len() == 1,
        entries_of(after_split(a, p, idx), children_of(after_split(a, p, idx), p)[idx + 1]).len()
            == 1,
{
    let parent = node_at(a, p).unwrap();
    let c = parent.children[idx];
    let child = node_at(a, c).unwrap();
    let new_id = a.disk.next_page_id;
    let (parent2, child2, sibling) = split_nodes(parent, child, idx, new_id);
    let g = (h - 1) as nat;
    let b = after_split(a, p, idx);
    let news = seq![c, new_id];
    let olds = parent.children.subrange(idx, idx + 1);
    let sep = child.entries[1];
    lemma_split_nodes(a, p, h, min, idx);
    lemma_split_pool(a, p, h, min, idx);
    lemma_split_rebuilt(a, p, h, min, idx);
    lemma_rebuilt(a, b, p, h, min, idx, idx + 1, news);
    assert(olds =~= seq![c]);
    assert(window_entries(b, news, sep) =~= window_entries(a, olds, parent.entries[idx]));
    assert(entries_of(b, p) =~= entries_of(a, p).take(idx) + seq![sep] + entries_of(a, p).skip(
        idx,
    ));
    lemma_rebuilt_same(a, b, p, h, min, idx, idx + 1, news, sep);
}

/// The parent, the left and the right child after the last entry of the
/// left child `i` went up into the parent, and the entry between the two
/// children went down to the front of the right child `i + 1`. With the
/// entry goes the left child's last child.
pub open spec fn moved_right_nodes(parent: NodeView, left: NodeView, right: NodeView, i: int) -> (
    NodeView,
    NodeView,
    NodeView,
) {
    (
        NodeView { entries: parent.entries.update(i, left.entries.last()), ..parent },
        NodeView {
            entries: left.entries.drop_last(),
            children: if left.is_leaf {
                left.children
            } else {
                left.children.drop_last()
            },
            ..left
        },
        NodeView {
            entries: seq![parent.entries[i]] + right.entries,
            children: if right.is_leaf {
                right.children
            } else {
                seq![left.children.last()] + right.children
            },
            ..right
        },
    )
}

/// The parent, the left and the right child after the first entry of the
/// right child `i + 1` went up into the parent, and the entry between the
/// two children went down to the back of the left child `i`. With the entry
/// goes the right child's first child.
pub open spec fn moved_left_nodes(parent: NodeView, left: NodeView, right: NodeView, i: int) -> (
    NodeView,
    NodeView,
    NodeView,
) {
    (
        NodeView { entries: parent.entries.update(i, right.entries[0]), ..parent },
        NodeView {
            entries: left.entries.push(parent.entries[i]),
            children: if left.is_leaf {
                left.children
            } else {
                left.children.push(right.children[0])
            },
            ..left
        },
        NodeView {
            entries: right.entries.skip(1),
            children: if right.is_leaf {
                right.children
            } else {
                right.children.skip(1)
            },
            ..right
        },
    )
}

/// The three nodes after an entry was moved between the children `i` and
/// `i + 1` of the node in page `p`: to the right child, or to the left.
#[verifier::opaque]
pub open spec fn moved_nodes(a: PoolView, p: u32, i: int, to_right: bool) -> (
    NodeView,
    NodeView,
    NodeView,
) {
    let parent = node_at(a, p).unwrap();
    let left = node_at(a, parent.children[i]).unwrap();
    let right = node_at(a, parent.children[i + 1]).unwrap();
    if to_right {
        moved_right_nodes(parent, left, right, i)
    } else {
        moved_left_nodes(parent, left, right, i)
    }
}

/// The pool after an entry was moved between the children `i` and `i + 1`
/// of the node in page `p`.
pub open spec fn after_move(a: PoolView, p: u32, i: int, to_right: bool) -> PoolView {
    let (parent2, left2, right2) = moved_nodes(a, p, i, to_right);
    with_node(with_node(with_node(a, parent2), left2), right2)
}

/// Whether an entry can be moved between the children `i` and `i + 1` of
/// the node in page `p`: the giving child has more than `MIN_KEYS` entries,
/// the taking child is not full.
pub open spec fn can_move(a: PoolView, p: u32, h: nat, min: nat, i: int, to_right: bool) -> bool {
    &&& pool_ok(a)
    &&& h >= 1
    &&& subtree(a, p, h, min)
    &&& 0 <= i < entries_of(a, p).len()
    &&& if to_right {
        entries_of(a, children_of(a, p)[i]).len() > MIN_KEYS && entries_of(
            a,
            children_of(a, p)[i + 1],
        ).len() < MAX_KEYS
    } else {
        entries_of(a, children_of(a, p)[i + 1]).len() > MIN_KEYS && entries_of(
            a,
            children_of(a, p)[i],
        ).len() < MAX_KEYS
    }
}

/// The nodes after a move to the right are nodes of the tree, with the
/// entries and children that the old ones had, in their order.
pub proof fn lemma_moved_right(
    parent: NodeView,
    left: NodeView,
    right: NodeView,
    i: int,
    h: nat,
    min: nat,
)
    requires
        h >= 1,
        node_ok(parent, parent.page_id, h, min),
        node_ok(left, left.page_id, (h - 1) as nat, MIN_KEYS as nat),
        node_ok(right, right.page_id, (h - 1) as nat, MIN_KEYS as nat),
        0 <= i < parent.entries.len(),
        left.entries.len() > MIN_KEYS,
        right.entries.len() < MAX_KEYS,
    ensures
        ({
            let (parent2, left2, right2) = moved_right_nodes(parent, left, right, i);
            &&& node_ok(parent2, parent.page_id, h, min)
            &&& node_ok(left2, left.page_id, (h - 1) as nat, MIN_KEYS as nat)
            &&& node_ok(right2, right.page_id, (h - 1) as nat, MIN_KEYS as nat)
            &&& left2.entries + seq![parent2.entries[i]] + right2.entries =~= left.entries + seq![
                parent.entries[i],
            ] + right.entries
            &&& h >= 2 ==> left2.children + right2.children =~= left.children + right.children
            &&& parent2.children == parent.children
            &&& parent2.entries.len() == parent.entries.len()
        }),
{
    let (parent2, left2, right2) = moved_right_nodes(parent, left, right, i);
    assert(small(parent.entries[i]));
    assert(small(left.entries[left.entries.len() - 1]));
    assert forall|k: int| 0 <= k < parent2.entries.len() implies small(
        #[trigger] parent2.entries[k],
    ) by {
        if k != i {
            assert(parent2.entries[k] == parent.entries[k]);
        }
    }
    assert forall|k: int| 0 <= k < left2.entries.len() implies small(#[trigger] left2.entries[k]) by {
        assert(left2.entries[k] == left.entries[k]);
    }
    assert forall|k: int| 0 <= k < right2.entries.len() implies small(
        #[trigger] right2.entries[k],
    ) by {
        if k > 0 {
            assert(right2.entries[k] == right.entries[k - 1]);
        }
    }
}

/// The nodes after a move to the left are nodes of the tree, with the
/// entries and children that the old ones had, in their order.
pub proof fn lemma_moved_left(
    parent: NodeView,
    left: NodeView,
    right: NodeView,
    i: int,
    h: nat,
    min: nat,
)
    requires
        h >= 1,
        node_ok(parent, parent.page_id, h, min),
        node_ok(left, left.page_id, (h - 1) as nat, MIN_KEYS as nat),
        node_ok(right, right.page_id, (h - 1) as nat, MIN_KEYS as nat),
        0 <= i < parent.entries.len(),
        right.entries.len() > MIN_KEYS,
        left.entries.len() < MAX_KEYS,
    ensures
        ({
            let (parent2, left2, right2) = moved_left_nodes(parent, left, right, i);
            &&& node_ok(parent2, parent.page_id, h, min)
            &&& node_ok(left2, left.page_id, (h - 1) as nat, MIN_KEYS as nat)
            &&& node_ok(right2, right.page_id, (h - 1) as nat, MIN_KEYS as nat)
            &&& left2.entries + seq![parent2.entries[i]] + right2.entries =~= left.entries + seq![
                parent.entries[i],
            ] + right.entries
            &&& h >= 2 ==> left2.children + right2.children =~= left.children + right.children
            &&& parent2.children == parent.children
            &&& parent2.entries.len() == parent.entries.len()
        }),
{
    let (parent2, left2, right2) = moved_left_nodes(parent, left, right, i);
    assert(small(parent.entries[i]));
    assert(small(right.entries[0]));
    assert forall|k: int| 0 <= k < parent2.entries.len() implies small(
        #[trigger] parent2.entries[k],
    ) by {
        if k != i {
            assert(parent2.entries[k] == parent.entries[k]);
        }
    }
    assert forall|k: int| 0 <= k < left2.entries.len() implies small(#[trigger] left2.entries[k]) by {
        if k < left.entries.len() {
            assert(left2.entries[k] == left.entries[k]);
        }
    }
    assert forall|k: int| 0 <= k < right2.entries.len() implies small(
        #[trigger] right2.entries[k],
    ) by {
        assert(right2.entries[k] == right.entries[k + 1]);
    }
}

/// The parent and two neighbouring children are three different pages of
/// the pool, and hold nodes of the tree.
pub proof fn lemma_pair(a: PoolView, p: u32, h: nat, min: nat, i: int)
    requires
        h >= 1,
        subtree(a, p, h, min),
        0 <= i < entries_of(a, p).len(),
    ensures
        ({
            let parent = node_at(a, p).unwrap();
            let l = parent.children[i];
            let r = parent.children[i + 1];
            &&& node_ok(parent, p, h, min)
            &&& node_at(a, p) is Some && node_at(a, l) is Some && node_at(a, r) is Some
            &&& node_ok(node_at(a, l).unwrap(), l, (h - 1) as nat, MIN_KEYS as nat)
            &&& node_ok(node_at(a, r).unwrap(), r, (h - 1) as nat, MIN_KEYS as nat)
            &&& subtree(a, l, (h - 1) as nat, MIN_KEYS as nat)
            &&& subtree(a, r, (h - 1) as nat, MIN_KEYS as nat)
            &&& l != p && r != p && l != r
            &&& l < a.disk.next_page_id && r < a.disk.next_page_id && p < a.disk.next_page_id
            &&& a.pages.contains_key(p) && a.pages.contains_key(l) && a.pages.contains_key(r)
        }),
{
    let parent = node_at(a, p).unwrap();
    let l = parent.children[i];
    let r = parent.children[i + 1];
    let g = (h - 1) as nat;
    assert(subtree(a, l, g, MIN_KEYS as nat));
    assert(subtree(a, r, g, MIN_KEYS as nat));
    lemma_pages_stored(a, p, h, min);
    lemma_pages_stored(a, l, g, MIN_KEYS as nat);
    lemma_pages_stored(a, r, g, MIN_KEYS as nat);
    assert(!pages_of(a, l, g).contains(p));
    assert(!pages_of(a, r, g).contains(p));
    assert(pages_of(a, parent.children[i], g).disjoint(pages_of(a, parent.children[i + 1], g)));
}

/// The nodes after a move are nodes of the tree.
pub proof fn lemma_move_nodes(a: PoolView, p: u32, h: nat, min: nat, i: int, to_right: bool)
    requires
        can_move(a, p, h, min, i, to_right),
    ensures
        ({
            let parent = node_at(a, p).unwrap();
            let l = parent.children[i];
            let r = parent.children[i + 1];
            let left = node_at(a, l).unwrap();
            let right = node_at(a, r).unwrap();
            let (parent2, left2, right2) = moved_nodes(a, p, i, to_right);
            &&& node_ok(parent2, p, h, min)
            &&& node_ok(left2, l, (h - 1) as nat, MIN_KEYS as nat)
            &&& node_ok(right2, r, (h - 1) as nat, MIN_KEYS as nat)
            &&& l != p && r != p && l != r
            &&& l < a.disk.next_page_id && r < a.disk.next_page_id && p < a.disk.next_page_id
            &&& a.pages.contains_key(p) && a.pages.contains_key(l) && a.pages.contains_key(r)
            &&& node_at(a, p) is Some && node_at(a, l) is Some && node_at(a, r) is Some
            &&& left2.entries + seq![parent2.entries[i]] + right2.entries =~= left.entries + seq![
                parent.entries[i],
            ] + right.entries
            &&& h >= 2 ==> left2.children + right2.children =~= left.children + right.children
            &&& parent2.children == parent.children
            &&& parent2.entries.len() == parent.entries.len()
        }),
{
    reveal(moved_nodes);
    let parent = node_at(a, p).unwrap();
    let left = node_at(a, parent.children[i]).unwrap();
    let right = node_at(a, parent.children[i + 1]).unwrap();
    lemma_pair(a, p, h, min, i);
    if to_right {
        lemma_moved_right(parent, left, right, i, h, min);
    } else {
        lemma_moved_left(parent, left, right, i, h, min);
    }
}

/// The pool after a move holds the three nodes, and every other page as it
/// was.
pub proof fn lemma_move_pool(a: PoolView, p: u32, h: nat, min: nat, i: int, to_right: bool)
    requires
        can_move(a, p, h, min, i, to_right),
    ensures
        ({
            let b = after_move(a, p, i, to_right);
            let (parent2, left2, right2) = moved_nodes(a, p, i, to_right);
            &&& pool_ok(b)
            &&& b.capacity == a.capacity
            &&& b.disk.next_page_id == a.disk.next_page_id
            &&& b.pages.len() == a.pages.len()
            &&& holds(b, parent2)
            &&& holds(b, left2)
            &&& holds(b, right2)
            &&& forall|q: u32|
                q != p && q != children_of(a, p)[i] && q != children_of(a, p)[i + 1]
                    ==> #[trigger] same_page(a, b, q)
            &&& (all_clean(a) ==> all_clean(b))
        }),
{
    let parent = node_at(a, p).unwrap();
    let l = parent.children[i];
    let r = parent.children[i + 1];
    let (parent2, left2, right2) = moved_nodes(a, p, i, to_right);
    let g = (h - 1) as nat;
    lemma_move_nodes(a, p, h, min, i, to_right);
    lemma_node_fits(parent2, p, h, min);
    lemma_node_fits(left2, l, g, MIN_KEYS as nat);
    lemma_node_fits(right2, r, g, MIN_KEYS as nat);
    lemma_three_nodes(a, parent2, left2, right2);
}

/// The pool after a move has the two children rebuilt.
#[verifier::rlimit(60)]
pub proof fn lemma_move_rebuilt(a: PoolView, p: u32, h: nat, min: nat, i: int, to_right: bool)
    requires
        can_move(a, p, h, min, i, to_right),
    ensures
        rebuilt(
            a,
            after_move(a, p, i, to_right),
            p,
            h,
            min,
            i,
            i + 2,
            seq![children_of(a, p)[i], children_of(a, p)[i + 1]],
        ),
{
    let parent = node_at(a, p).unwrap();
    let l = parent.children[i];
    let r = parent.children[i + 1];
    let (parent2, left2, right2) = moved_nodes(a, p, i, to_right);
    let b = after_move(a, p, i, to_right);
    let news = seq![l, r];
    let olds = parent.children.subrange(i, i + 2);
    reveal(rebuilt);
    lemma_move_nodes(a, p, h, min, i, to_right);
    lemma_move_pool(a, p, h, min, i, to_right);
    assert(olds =~= news);
    assert(olds[0] == l && olds[1] == r);
    assert forall|q: u32|
        q < a.disk.next_page_id && q != p && !olds.contains(q) implies #[trigger] same_page(
        a,
        b,
        q,
    ) by {
        assert(q != l && q != r);
    }
    assert(children_of(b, p) =~= children_of(a, p).take(i) + news + children_of(a, p).skip(i + 2));
    assert forall|t: int| 0 <= t < news.len() implies {
        &&& (#[trigger] news[t]) < b.disk.next_page_id
        &&& (news[t] >= a.disk.next_page_id || olds.contains(news[t]))
        &&& stored(b, news[t])
        &&& node_at(b, news[t]) is Some
        &&& node_ok(node_at(b, news[t]).unwrap(), news[t], (h - 1) as nat, MIN_KEYS as nat)
    } by {}
    if h >= 2 {
        assert(kids(b, news) =~= kids(a, olds));
    }
}

/// A move keeps the subtree under the parent well-formed, with what it
/// held.
pub proof fn lemma_move(a: PoolView, p: u32, h: nat, min: nat, i: int, to_right: bool)
    requires
        can_move(a, p, h, min, i, to_right),
    ensures
        subtree(after_move(a, p, i, to_right), p, h, min),
        updated(a, after_move(a, p, i, to_right), p, h),
        contents(after_move(a, p, i, to_right), p, h) == contents(a, p, h),
        after_move(a, p, i, to_right).disk.next_page_id == a.disk.next_page_id,
        node_at(after_move(a, p, i, to_right), p) == Some(moved_nodes(a, p, i, to_right).0),
        node_at(after_move(a, p, i, to_right), children_of(a, p)[i]) == Some(
            moved_nodes(a, p, i, to_right).1,
        ),
        node_at(after_move(a, p, i, to_right), children_of(a, p)[i + 1]) == Some(
            moved_nodes(a, p, i, to_right).2,
        ),
{
    let parent = node_at(a, p).unwrap();
    let l = parent.children[i];
    let r = parent.children[i + 1];
    let (parent2, left2, right2) = moved_nodes(a, p, i, to_right);
    let b = after_move(a, p, i, to_right);
    let news = seq![l, r];
    let olds = parent.children.subrange(i, i + 2);
    let new_sep = parent2.entries[i];
    lemma_move_nodes(a, p, h, min, i, to_right);
    lemma_move_pool(a, p, h, min, i, to_right);
    lemma_move_rebuilt(a, p, h, min, i, to_right);
    lemma_rebuilt(a, b, p, h, min, i, i + 2, news);
    lemma_move_entries(a, p, h, min, i, to_right);
    lemma_rebuilt_same(a, b, p, h, min, i, i + 2, news, new_sep);
}

/// A move keeps the entries of the two children and between them in their
/// order, and the other entries of the parent as they were.
pub proof fn lemma_move_entries(a: PoolView, p: u32, h: nat, min: nat, i: int, to_right: bool)
    requires
        can_move(a, p, h, min, i, to_right),
    ensures
        ({
            let b = after_move(a, p, i, to_right);
            let news = seq![children_of(a, p)[i], children_of(a, p)[i + 1]];
            let new_sep = moved_nodes(a, p, i, to_right).0.entries[i];
            &&& window_entries(b, news, new_sep) == window_entries(
                a,
                children_of(a, p).subrange(i, i + 2),
                entries_of(a, p)[i],
            )
            &&& entries_of(b, p) == entries_of(a, p).take(i) + seq![new_sep] + entries_of(
                a,
                p,
            ).skip(i + 1)
        }),
{
    let parent = node_at(a, p).unwrap();
    let l = parent.children[i];
    let r = parent.children[i + 1];
    let (parent2, left2, right2) = moved_nodes(a, p, i, to_right);
    let b = after_move(a, p, i, to_right);
    let news = seq![l, r];
    let olds = parent.children.subrange(i, i + 2);
    let new_sep = parent2.entries[i];
    lemma_move_nodes(a, p, h, min, i, to_right);
    lemma_move_pool(a, p, h, min, i, to_right);
    assert(olds =~= news);
    assert(window_entries(b, news, new_sep) =~= window_entries(a, olds, parent.entries[i]));
    assert(entries_of(b, p) =~= entries_of(a, p).take(i) + seq![new_sep] + entries_of(a, p).skip(
        i + 1,
    )) by {
        reveal(moved_nodes);
    }
}

/// The parent and the merged child after the children `i` and `i + 1` were
/// merged: the merged child has the entries of the left child, the entry
/// that stood between the two in the parent, and the entries of the right
/// child, and the children of both.
pub open spec fn merged_nodes(parent: NodeView, left: NodeView, right: NodeView, i: int) -> (
    NodeView,
    NodeView,
) {
    (
        NodeView {
            entries: parent.entries.remove(i),
            children: parent.children.remove(i + 1),
            ..parent
        },
        NodeView {
            entries: left.entries + seq![parent.entries[i]] + right.entries,
            children: left.children + right.children,
            ..left
        },
    )
}

/// The two nodes after the children `i` and `i + 1` of the node in page `p`
/// were merged.
#[verifier::opaque]
pub open spec fn merge_result(a: PoolView, p: u32, i: int) -> (NodeView, NodeView) {
    let parent = node_at(a, p).unwrap();
    let left = node_at(a, parent.children[i]).unwrap();
    let right = node_at(a, parent.children[i + 1]).unwrap();
    merged_nodes(parent, left, right, i)
}

/// The pool after the children `i` and `i + 1` of the node in page `p` were
/// merged into the page of the left one, and the page of the right one was
/// freed.
pub open spec fn after_merge(a: PoolView, p: u32, i: int) -> PoolView {
    let (parent2, merged) = merge_result(a, p, i);
    without_page(with_node(with_node(a, parent2), merged), children_of(a, p)[i + 1])
}

/// Whether the children `i` and `i + 1` of the node in page `p` can be
/// merged: their entries and the one between them are no more than a node
/// holds, and the node has an entry more than it needs.
pub open spec fn can_merge(a: PoolView, p: u32, h: nat, min: nat, i: int) -> bool {
    &&& pool_ok(a)
    &&& h >= 1
    &&& subtree(a, p, h, min)
    &&& 0 <= i < entries_of(a, p).len()
    &&& entries_of(a, p).len() > min
    &&& entries_of(a, children_of(a, p)[i]).len() + 1 + entries_of(
        a,
        children_of(a, p)[i + 1],
    ).len() <= MAX_KEYS
}

/// The nodes after a merge are nodes of the tree, with the entries and
/// children that the old ones had, in their order.
pub proof fn lemma_merged(
    parent: NodeView,
    left: NodeView,
    right: NodeView,
    i: int,
    h: nat,
    min: nat,
)
    requires
        h >= 1,
        node_ok(parent, parent.page_id, h, min),
        node_ok(left, left.page_id, (h - 1) as nat, MIN_KEYS as nat),
        node_ok(right, right.page_id, (h - 1) as nat, MIN_KEYS as nat),
        0 <= i < parent.entries.len(),
        parent.entries.len() > min,
        left.entries.len() + 1 + right.entries.len() <= MAX_KEYS,
    ensures
        ({
            let (parent2, merged) = merged_nodes(parent, left, right, i);
            &&& node_ok(parent2, parent.page_id, h, min)
            &&& node_ok(merged, left.page_id, (h - 1) as nat, MIN_KEYS as nat)
            &&& merged.entries == left.entries + seq![parent.entries[i]] + right.entries
            &&& merged.children == left.children + right.children
            &&& parent2.children == parent.children.remove(i + 1)
            &&& parent2.entries == parent.entries.remove(i)
        }),
{
    let (parent2, merged) = merged_nodes(parent, left, right, i);
    assert(small(parent.entries[i]));
    assert forall|k: int| 0 <= k < parent2.entries.len() implies small(
        #[trigger] parent2.entries[k],
    ) by {
        if k < i {
            assert(parent2.entries[k] == parent.entries[k]);
        } else {
            assert(parent2.entries[k] == parent.entries[k + 1]);
        }
    }
    assert forall|k: int| 0 <= k < merged.entries.len() implies small(#[trigger] merged.entries[k]) by {
        if k < left.entries.len() {
            assert(merged.entries[k] == left.entries[k]);
        } else if k > left.entries.len() {
            assert(merged.entries[k] == right.entries[k - left.entries.len() - 1]);
        }
    }
}

/// The nodes after a merge are nodes of the tree.
pub proof fn lemma_merge_nodes(a: PoolView, p: u32, h: nat, min: nat, i: int)
    requires
        can_merge(a, p, h, min, i),
    ensures
        ({
            let parent = node_at(a, p).unwrap();
            let l = parent.children[i];
            let r = parent.children[i + 1];
            let left = node_at(a, l).unwrap();
            let right = node_at(a, r).unwrap();
            let (parent2, merged) = merge_result(a, p, i);
            &&& node_ok(parent2, p, h, min)
            &&& node_ok(merged, l, (h - 1) as nat, MIN_KEYS as nat)
            &&& l != p && r != p && l != r
            &&& l < a.disk.next_page_id && r < a.disk.next_page_id && p < a.disk.next_page_id
            &&& a.pages.contains_key(p) && a.pages.contains_key(l) && a.pages.contains_key(r)
            &&& node_at(a, p) is Some && node_at(a, l) is Some && node_at(a, r) is Some
            &&& merged.entries == left.entries + seq![parent.entries[i]] + right.entries
            &&& merged.children == left.children + right.children
            &&& parent2.children == parent.children.remove(i + 1)
            &&& parent2.entries == parent.entries.remove(i)
        }),
{
    reveal(merge_result);
    let parent = node_at(a, p).unwrap();
    let left = node_at(a, parent.children[i]).unwrap();
    let right = node_at(a, parent.children[i + 1]).unwrap();
    lemma_pair(a, p, h, min, i);
    lemma_merged(parent, left, right, i, h, min);
}

/// The pool after a merge holds the two nodes, and every other page but
/// the freed one as it was.
pub proof fn lemma_merge_pool(a: PoolView, p: u32, h: nat, min: nat, i: int)
    requires
        can_merge(a, p, h, min, i),
    ensures
        ({
            let b = after_merge(a, p, i);
            let (parent2, merged) = merge_result(a, p, i);
            &&& pool_ok(b)
            &&& b.capacity == a.capacity
            &&& b.disk.next_page_id == a.disk.next_page_id
            &&& b.pages.len() <= a.pages.len()
            &&& holds(b, parent2)
            &&& holds(b, merged)
            &&& forall|q: u32|
                q != p && q != children_of(a, p)[i] && q != children_of(a, p)[i + 1]
                    ==> #[trigger] same_page(a, b, q)
            &&& (all_clean(a) ==> all_clean(b))
        }),
{
    let parent = node_at(a, p).unwrap();
    let l = parent.children[i];
    let r = parent.children[i + 1];
    let (parent2, merged) = merge_result(a, p, i);
    let g = (h - 1) as nat;
    lemma_merge_nodes(a, p, h, min, i);
    lemma_node_fits(parent2, p, h, min);
    lemma_node_fits(merged, l, g, MIN_KEYS as nat);
    lemma_two_nodes_freed(a, parent2, merged, r);
}

/// The pool after a merge has the two children rebuilt as one.
pub proof fn lemma_merge_rebuilt(a: PoolView, p: u32, h: nat, min: nat, i: int)
    requires
        can_merge(a, p, h, min, i),
    ensures
        rebuilt(a, after_merge(a, p, i), p, h, min, i, i + 2, seq![children_of(a, p)[i]]),
{
    let parent = node_at(a, p).unwrap();
    let l = parent.children[i];
    let r = parent.children[i + 1];
    let (parent2, merged) = merge_result(a, p, i);
    let b = after_merge(a, p, i);
    let news = seq![l];
    let olds = parent.children.subrange(i, i + 2);
    reveal(rebuilt);
    lemma_merge_nodes(a, p, h, min, i);
    lemma_merge_pool(a, p, h, min, i);
    assert(olds =~= seq![l, r]);
    assert(olds[0] == l && olds[1] == r);
    assert forall|q: u32|
        q < a.disk.next_page_id && q != p && !olds.contains(q) implies #[trigger] same_page(
        a,
        b,
        q,
    ) by {
        assert(q != l && q != r);
    }
    assert(children_of(b, p) =~= children_of(a, p).take(i) + news + children_of(a, p).skip(i + 2));
    assert forall|t: int| 0 <= t < news.len() implies {
        &&& (#[trigger] news[t]) < b.disk.next_page_id
        &&& (news[t] >= a.disk.next_page_id || olds.contains(news[t]))
        &&& stored(b, news[t])
        &&& node_at(b, news[t]) is Some
        &&& node_ok(node_at(b, news[t]).unwrap(), news[t], (h - 1) as nat, MIN_KEYS as nat)
    } by {}
    if h >= 2 {
        assert(kids(b, news) =~= kids(a, olds));
    }
}

/// A merge keeps the subtree under the parent well-formed, with what it
/// held.
pub proof fn lemma_merge(a: PoolView, p: u32, h: nat, min: nat, i: int)
    requires
        can_merge(a, p, h, min, i),
    ensures
        subtree(after_merge(a, p, i), p, h, min),
        updated(a, after_merge(a, p, i), p, h),
        contents(after_merge(a, p, i), p, h) == contents(a, p, h),
        after_merge(a, p, i).disk.next_page_id == a.disk.next_page_id,
        node_at(after_merge(a, p, i), p) == Some(merge_result(a, p, i).0),
        node_at(after_merge(a, p, i), children_of(a, p)[i]) == Some(merge_result(a, p, i).1),
{
    let parent = node_at(a, p).unwrap();
    let l = parent.children[i];
    let r = parent.children[i + 1];
    let (parent2, merged) = merge_result(a, p, i);
    let b = after_merge(a, p, i);
    let news = seq![l];
    let olds = parent.children.subrange(i, i + 2);
    lemma_merge_nodes(a, p, h, min, i);
    lemma_merge_pool(a, p, h, min, i);
    lemma_merge_rebuilt(a, p, h, min, i);
    lemma_rebuilt(a, b, p, h, min, i, i + 2, news);
    assert(olds =~= seq![l, r]);
    assert(window_entries(b, news, parent.entries[i]) =~= window_entries(
        a,
        olds,
        parent.entries[i],
    ));
    assert(entries_of(b, p) =~= entries_of(a, p).take(i) + entries_of(a, p).skip(i + 1));
    lemma_rebuilt_same(a, b, p, h, min, i, i + 2, news, parent.entries[i]);
}

/// The node with entry `i` replaced by `e`.
pub open spec fn with_entry(node: NodeView, i: int, e: Entry) -> NodeView {
    NodeView { entries: node.entries.update(i, e), ..node }
}

/// Replacing an entry of an internal node leaves the subtrees under it as
/// they were.
pub proof fn lemma_entry_replaced(a: PoolView, p: u32, h: nat, min: nat, i: int, e: Entry)
    requires
        pool_ok(a),
        h >= 1,
        subtree(a, p, h, min),
        0 <= i < entries_of(a, p).len(),
        small(e),
    ensures
        ({
            let node = with_entry(node_at(a, p).unwrap(), i, e);
            let b = with_node(a, node);
            &&& subtree(b, p, h, min)
            &&& updated(a, b, p, h)
            &&& node_at(b, p) == Some(node)
            &&& contents(b, p, h) == flat(
                children_contents(a, node_at(a, p).unwrap(), (h - 1) as nat),
                node.entries,
            )
        }),
{
    let old = node_at(a, p).unwrap();
    let node = with_entry(old, i, e);
    let b = with_node(a, node);
    let g = (h - 1) as nat;
    lemma_pages_stored(a, p, h, min);
    assert(node_ok(node, p, h, min)) by {
        assert forall|k: int| 0 <= k < node.entries.len() implies small(#[trigger] node.entries[k]) by {
            if k != i {
                assert(node.entries[k] == old.entries[k]);
            }
        }
    }
    lemma_node_fits(node, p, h, min);
    lemma_with_node(a, node);
    assert forall|j: int| 0 <= j < old.children.len() implies subtree(
        b,
        #[trigger] old.children[j],
        g,
        MIN_KEYS as nat,
    ) && pages_of(b, old.children[j], g) == pages_of(a, old.children[j], g) && contents(
        b,
        old.children[j],
        g,
    ) == contents(a, old.children[j], g) by {
        let c = old.children[j];
        assert(subtree(a, c, g, MIN_KEYS as nat));
        assert(!pages_of(a, c, g).contains(p));
        assert forall|q: u32| #[trigger] pages_of(a, c, g).contains(q) implies same_page(a, b, q) by {}
        lemma_frame(a, b, c, g, MIN_KEYS as nat);
    }
    assert(children_contents(b, node, g) =~= children_contents(a, old, g));
    assert forall|j1: int, j2: int| 0 <= j1 < j2 < node.children.len() implies pages_of(
        b,
        #[trigger] node.children[j1],
        g,
    ).disjoint(pages_of(b, #[trigger] node.children[j2], g)) by {
        assert(pages_of(a, old.children[j1], g).disjoint(pages_of(a, old.children[j2], g)));
    }
    assert(subtree(b, p, h, min));
    assert forall|q: u32| #[trigger] pages_of(b, p, h).contains(q) implies pages_of(
        a,
        p,
        h,
    ).contains(q) by {
        if q != p {
            let j = lemma_page_place(b, p, h, q);
            lemma_child_pages(a, p, h, j, q);
        }
    }
}

} // verus!
