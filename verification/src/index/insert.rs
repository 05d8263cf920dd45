//! Insertion into the B-tree: full nodes on the way down are split before
//! they are gone into.

use crate::index::layout::{Entry, NodeView};
use crate::index::node::{BTreeNode, lemma_first_from, MAX_KEYS, MIN_KEYS, ORDER, upper_bound};
use crate::index::order::{
    inserted, inserted_at, lemma_flat_bounds, lemma_flat_child_inserted, lemma_flat_split,
    lemma_inserted_sorted, sorted,
};
use crate::index::reshape::{after_split, can_split, lemma_split, lemma_split_nodes, split_nodes};
use crate::index::shape::{
    changed, children_contents, contents, fits, lemma_changed_twice, lemma_frame, lemma_lift,
    lemma_node_fits, lemma_pages_stored, lemma_subtree_min, lemma_unchanged,
    lemma_updated_twice, lemma_with_new_page, lemma_with_node, MAX_VALUE_SIZE, node_at,
    node_ok, pages_of, pool_ok, same_page, small, subtree, updated, with_node,
};
use crate::index::tree::BTree;
use crate::index::window::{children_of, entries_of};
use crate::storage::buffer_pool::{BufferPool, PoolView};
use crate::storage::error::DatabaseError;
use crate::storage::page::PAGE_SIZE;
use crate::storage::value::Value;
use vstd::prelude::*;
use vstd::string::*;

verus! {

/// Whether the pool can take `k` new pages: the cache has room for them,
/// page ids are left, and the file stays within what the machine can
/// address.
pub open spec fn has_room(pool: PoolView, k: nat) -> bool {
    &&& pool.pages.len() + k <= pool.capacity
    &&& pool.disk.next_page_id + k < u32::MAX
    &&& (pool.disk.next_page_id + k) * PAGE_SIZE <= usize::MAX
}

/// Whether an entry can be put into the subtree of height `h` under page
/// `id`: the subtree is well-formed and sorted, its topmost node is not
/// full, and the value is small.
pub open spec fn insertable(pool: PoolView, id: u32, h: nat, min: nat, e: Entry) -> bool {
    &&& pool_ok(pool)
    &&& subtree(pool, id, h, min)
    &&& sorted(contents(pool, id, h))
    &&& entries_of(pool, id).len() < MAX_KEYS
    &&& small(e)
}

/// Whether the key of `e` lies between the keys of the entries around
/// child `idx` of the node in page `id`.
pub open spec fn between(pool: PoolView, id: u32, idx: int, e: Entry) -> bool {
    &&& 0 <= idx < children_of(pool, id).len()
    &&& idx > 0 ==> entries_of(pool, id)[idx - 1].0 <= e.0
    &&& idx < entries_of(pool, id).len() ==> e.0 <= entries_of(pool, id)[idx].0
}

/// The leaf with the entry put in before the first entry with a greater
/// key.
pub open spec fn leaf_with(node: NodeView, e: Entry) -> NodeView {
    NodeView { entries: node.entries.insert(upper_bound(node.entries, e.0), e), ..node }
}

/// Putting an entry into a leaf that is not full.
pub proof fn lemma_insert_leaf(a: PoolView, id: u32, min: nat, e: Entry)
    requires
        insertable(a, id, 0, min, e),
    ensures
        ({
            let node = leaf_with(node_at(a, id).unwrap(), e);
            let b = with_node(a, node);
            &&& fits(node)
            &&& crate::storage::disk_manager::DiskManager::write_outcome(
                a.disk,
                crate::index::shape::node_page(node),
            ) is Ok
            &&& subtree(b, id, 0, min)
            &&& updated(a, b, id, 0)
            &&& inserted(contents(a, id, 0), contents(b, id, 0), e)
            &&& entries_of(b, id).len() == entries_of(a, id).len() + 1
        }),
{
    let old_node = node_at(a, id).unwrap();
    let node = leaf_with(old_node, e);
    let at = upper_bound(old_node.entries, e.0);
    lemma_first_from(old_node.entries, e.0, true, 0);
    lemma_pages_stored(a, id, 0, min);
    assert(node_ok(node, id, 0, min)) by {
        assert forall|i: int| 0 <= i < node.entries.len() implies small(#[trigger] node.entries[i]) by {
            if i < at {
                assert(node.entries[i] == old_node.entries[i]);
            } else if i > at {
                assert(node.entries[i] == old_node.entries[i - 1]);
            }
        }
    }
    lemma_node_fits(node, id, 0, min);
    lemma_with_node(a, node);
    let b = with_node(a, node);
    assert(contents(b, id, 0) == node.entries);
    assert(inserted_at(old_node.entries, node.entries, e, at));
    assert(subtree(b, id, 0, min));
    assert(pages_of(b, id, 0) =~= pages_of(a, id, 0));
}

/// After the split of the full child that an entry is to go into, the
/// entry goes into the left half or the right, by its key and that of the
/// entry that went up.
pub proof fn lemma_split_choice(a: PoolView, id: u32, h: nat, min: nat, idx: int, e: Entry)
    requires
        can_split(a, id, h, min, idx),
        a.disk.can_allocate(),
        sorted(contents(a, id, h)),
        idx == upper_bound(entries_of(a, id), e.0),
    ensures
        ({
            let b = after_split(a, id, idx);
            let next = if e.0 > entries_of(b, id)[idx].0 {
                idx + 1
            } else {
                idx
            };
            &&& pool_ok(b)
            &&& subtree(b, id, h, min)
            &&& updated(a, b, id, h)
            &&& contents(b, id, h) == contents(a, id, h)
            &&& b.disk.next_page_id == a.disk.next_page_id + 1
            &&& entries_of(b, id).len() == entries_of(a, id).len() + 1
            &&& children_of(b, id).len() == children_of(a, id).len() + 1
            &&& between(b, id, next, e)
            &&& entries_of(b, children_of(b, id)[next]).len() < MAX_KEYS
        }),
{
    let b = after_split(a, id, idx);
    lemma_split(a, id, h, min, idx);
    lemma_first_from(entries_of(a, id), e.0, true, 0);
    let es = entries_of(a, id);
    let es2 = entries_of(b, id);
    assert(es2 == es.insert(idx, es2[idx]));
    if idx > 0 {
        assert(es2[idx - 1] == es[idx - 1]);
    }
    if idx < es.len() {
        assert(es2[idx + 1] == es[idx]);
    }
}

/// A child that an entry can go into, by its key, takes the entry if it is
/// not full.
pub proof fn lemma_insert_target(a: PoolView, id: u32, h: nat, min: nat, idx: int, e: Entry)
    requires
        pool_ok(a),
        h >= 1,
        subtree(a, id, h, min),
        sorted(contents(a, id, h)),
        between(a, id, idx, e),
        entries_of(a, children_of(a, id)[idx]).len() < MAX_KEYS,
        small(e),
    ensures
        insertable(a, children_of(a, id)[idx], (h - 1) as nat, MIN_KEYS as nat, e),
{
    let node = node_at(a, id).unwrap();
    let g = (h - 1) as nat;
    let cs = children_contents(a, node, g);
    assert(subtree(a, node.children[idx], g, MIN_KEYS as nat));
    lemma_flat_bounds(cs, node.entries, idx);
    assert(cs[idx] == contents(a, node.children[idx], g));
}

/// An entry that was put into the child that it can go into, by its key,
/// was put into the node.
pub proof fn lemma_insert_lifted(
    a: PoolView,
    b: PoolView,
    id: u32,
    h: nat,
    min: nat,
    idx: int,
    e: Entry,
    done: bool,
)
    requires
        h >= 1,
        subtree(a, id, h, min),
        between(a, id, idx, e),
        updated(a, b, children_of(a, id)[idx], (h - 1) as nat),
        subtree(b, children_of(a, id)[idx], (h - 1) as nat, MIN_KEYS as nat),
        done ==> inserted(
            contents(a, children_of(a, id)[idx], (h - 1) as nat),
            contents(b, children_of(a, id)[idx], (h - 1) as nat),
            e,
        ),
        !done ==> contents(b, children_of(a, id)[idx], (h - 1) as nat) == contents(
            a,
            children_of(a, id)[idx],
            (h - 1) as nat,
        ),
    ensures
        subtree(b, id, h, min),
        updated(a, b, id, h),
        node_at(b, id) == node_at(a, id),
        done ==> inserted(contents(a, id, h), contents(b, id, h), e),
        !done ==> contents(b, id, h) == contents(a, id, h),
{
    let node = node_at(a, id).unwrap();
    let g = (h - 1) as nat;
    let cs = children_contents(a, node, g);
    let child = node.children[idx];
    lemma_lift(a, b, id, h, min, idx);
    assert(cs[idx] == contents(a, child, g));
    if done {
        lemma_flat_child_inserted(cs, node.entries, idx, contents(b, child, g), e);
    } else {
        assert(cs.update(idx, contents(b, child, g)) =~= cs);
    }
}

/// How root, height and allocated pages change where an entry is put into
/// a tree with root `id` and height `h`. A root that is not full stays the
/// root, and the tree keeps its height; no more pages are allocated than the
/// tree is high, one for each node that is split on the way down. A full
/// root gets a new root above it, in the page that is allocated first, and
/// the tree is one level higher; two pages more are allocated for that.
/// Where the entry is not put in, a full root may also be left as it was.
pub open spec fn grown(
    a: PoolView,
    b: PoolView,
    id: u32,
    h: nat,
    id2: u32,
    h2: nat,
    done: bool,
) -> bool {
    if entries_of(a, id).len() < MAX_KEYS {
        &&& id2 == id
        &&& h2 == h
        &&& b.disk.next_page_id <= a.disk.next_page_id + h
    } else {
        &&& entries_of(a, id).len() == MAX_KEYS
        &&& (id2 == a.disk.next_page_id && h2 == h + 1) || (!done && id2 == id && h2 == h)
        &&& b.disk.next_page_id <= a.disk.next_page_id + h + 3
    }
}

/// A tree that is left as it is has grown by nothing.
pub proof fn lemma_grown_none(tree: BTree, pool: PoolView)
    requires
        tree.wf(pool),
    ensures
        grown(pool, pool, tree.root(), tree.height(), tree.root(), tree.height(), false),
{
    reveal(BTree::wf);
    assert(node_ok(node_at(pool, tree.root()).unwrap(), tree.root(), tree.height(), 0));
}

impl BTree {
    /// Whether the layout of the value is small enough for the tree.
    pub fn is_small(value: &Value) -> (res: bool)
        ensures
            res == small((0i32, value@)),
    {
        match value {
            Value::String(s) => s.as_str().as_bytes().len() <= MAX_VALUE_SIZE - 5,
            _ => true,
        }
    }

    /// Splits the full child `child_idx` of the node in page `parent_id`,
    /// which is not full.
    pub(crate) fn split_child(
        &self,
        parent_id: u32,
        child_idx: usize,
        pool: &mut BufferPool,
        Ghost(h): Ghost<nat>,
        Ghost(min): Ghost<nat>,
    ) -> (res: Result<(), DatabaseError>)
        ensures
            final(pool)@.capacity == old(pool)@.capacity,
            can_split(old(pool)@, parent_id, h, min, child_idx as int) ==> {
                &&& res is Err ==> final(pool)@ == old(pool)@ && (res matches Err(
                    DatabaseError::BufferPoolFull,
                ) || res matches Err(DatabaseError::InvalidOperation(_)))
                &&& res is Ok ==> final(pool)@ == after_split(
                    old(pool)@,
                    parent_id,
                    child_idx as int,
                ) && old(pool)@.disk.can_allocate()
                &&& !old(pool)@.is_full() && old(pool)@.disk.can_allocate() ==> res is Ok
            },
    {
        let ghost a = pool@;
        let ghost ok = can_split(a, parent_id, h, min, child_idx as int);
        let mut parent = self.get_node(parent_id, pool)?;
        if child_idx >= parent.children.len() || child_idx > parent.entries.len() {
            return Err(DatabaseError::InvalidData(String::from_str("Malformed tree")));
        }
        let child_id = parent.children[child_idx];
        proof {
            if ok {
                lemma_split_nodes(a, parent_id, h, min, child_idx as int);
            }
        }
        let mut child = self.get_node(child_id, pool)?;
        if child.entries.len() != MAX_KEYS || (!child.is_leaf && child.children.len() != ORDER) {
            return Err(DatabaseError::InvalidData(String::from_str("Malformed tree")));
        }
        let ghost old_parent = parent@;
        let ghost old_child = child@;
        let sibling_page = pool.new_page()?;
        let new_id = sibling_page.header.page_id;
        let mut sibling = BTreeNode::new(new_id, child.is_leaf);
        sibling.entries = child.entries.split_off(2);
        let mid = match child.entries.pop() {
            Some(entry) => entry,
            None => {
                return Err(DatabaseError::InvalidData(String::from_str("Malformed tree")));
            },
        };
        if !child.is_leaf {
            sibling.children = child.children.split_off(2);
        }
        parent.entries.insert(child_idx, mid);
        parent.children.insert(child_idx + 1, new_id);
        proof {
            if ok {
                let (parent2, child2, sibling2) = split_nodes(
                    old_parent,
                    old_child,
                    child_idx as int,
                    a.disk.next_page_id,
                );
                assert(parent@.entries =~= parent2.entries);
                assert(parent@.children =~= parent2.children);
                assert(child@.entries =~= child2.entries);
                assert(child@.children =~= child2.children);
                assert(sibling@.entries =~= sibling2.entries);
                assert(sibling@.children =~= sibling2.children);
                assert(parent@ == parent2 && child@ == child2 && sibling@ == sibling2);
                lemma_node_fits(parent2, parent_id, h, min);
                lemma_node_fits(child2, child_id, (h - 1) as nat, MIN_KEYS as nat);
                lemma_node_fits(sibling2, new_id, (h - 1) as nat, MIN_KEYS as nat);
                lemma_with_new_page(a);
                let a1 = a.with_new_page();
                lemma_with_node(a1, parent2);
                lemma_with_node(with_node(a1, parent2), child2);
                lemma_with_node(with_node(with_node(a1, parent2), child2), sibling2);
            }
        }
        Self::write_node(&parent, pool)?;
        Self::write_node(&child, pool)?;
        Self::write_node(&sibling, pool)?;
        Ok(())
    }

    /// Puts an entry into the subtree under `page_id`, whose topmost node
    /// is not full.
    pub(crate) fn insert_non_full(
        &self,
        page_id: u32,
        key: i32,
        value: Value,
        pool: &mut BufferPool,
        fuel: usize,
        Ghost(h): Ghost<nat>,
        Ghost(min): Ghost<nat>,
    ) -> (res: Result<(), DatabaseError>)
        ensures
            final(pool)@.capacity == old(pool)@.capacity,
            insertable(old(pool)@, page_id, h, min, (key, value@)) && h <= fuel ==> {
                &&& subtree(final(pool)@, page_id, h, min)
                &&& updated(old(pool)@, final(pool)@, page_id, h)
                &&& final(pool)@.disk.next_page_id <= old(pool)@.disk.next_page_id + h
                &&& entries_of(final(pool)@, page_id).len() >= entries_of(old(pool)@, page_id).len()
                &&& res is Ok ==> inserted(
                    contents(old(pool)@, page_id, h),
                    contents(final(pool)@, page_id, h),
                    (key, value@),
                )
                &&& res is Err ==> contents(final(pool)@, page_id, h) == contents(
                    old(pool)@,
                    page_id,
                    h,
                ) && (res matches Err(DatabaseError::BufferPoolFull) || res matches Err(
                    DatabaseError::InvalidOperation(_),
                ))
                &&& has_room(old(pool)@, h) ==> res is Ok
            },
        decreases fuel,
    {
        let ghost a = pool@;
        let ghost e = (key, value@);
        let ghost ok = insertable(a, page_id, h, min, e) && h <= fuel;
        proof {
            if ok {
                lemma_pages_stored(a, page_id, h, min);
            }
        }
        let mut node = self.get_node(page_id, pool)?;
        if node.is_leaf {
            node.insert_non_full(key, value)?;
            proof {
                if ok {
                    lemma_insert_leaf(a, page_id, min, e);
                }
            }
            return Self::write_node(&node, pool);
        }
        let mut idx = node.find(key, true);
        if idx >= node.children.len() || fuel == 0 {
            return Err(DatabaseError::InvalidData(String::from_str("Malformed tree")));
        }
        let child_id = node.children[idx];
        let ghost g = (h - 1) as nat;
        proof {
            if ok {
                assert(subtree(a, child_id, g, MIN_KEYS as nat));
                lemma_pages_stored(a, child_id, g, MIN_KEYS as nat);
            }
        }
        let child = self.get_node(child_id, pool)?;
        let mut target = child_id;
        if child.is_full() {
            proof {
                if ok {
                    assert(can_split(a, page_id, h, min, idx as int));
                    if a.disk.can_allocate() {
                        lemma_split_choice(a, page_id, h, min, idx as int, e);
                    } else {
                        lemma_unchanged(a, page_id, h);
                    }
                }
            }
            match self.split_child(page_id, idx, pool, Ghost(h), Ghost(min)) {
                Ok(()) => {},
                Err(err) => {
                    proof {
                        if ok {
                            lemma_unchanged(a, page_id, h);
                        }
                    }
                    return Err(err);
                },
            }
            proof {
                if ok {
                    lemma_pages_stored(pool@, page_id, h, min);
                }
            }
            let node2 = self.get_node(page_id, pool)?;
            if idx >= node2.entries.len() || idx + 1 >= node2.children.len() {
                return Err(DatabaseError::InvalidData(String::from_str("Malformed tree")));
            }
            if key > node2.entries[idx].key {
                idx += 1;
            }
            target = node2.children[idx];
        } else {
            proof {
                if ok {
                    lemma_unchanged(a, page_id, h);
                    lemma_first_from(entries_of(a, page_id), key, true, 0);
                }
            }
        }
        let ghost a1 = pool@;
        proof {
            if ok {
                lemma_insert_target(a1, page_id, h, min, idx as int, e);
            }
        }
        let res = self.insert_non_full(
            target,
            key,
            value,
            pool,
            fuel - 1,
            Ghost(g),
            Ghost(MIN_KEYS as nat),
        );
        proof {
            if ok {
                lemma_insert_lifted(a1, pool@, page_id, h, min, idx as int, e, res is Ok);
                lemma_updated_twice(a, a1, pool@, page_id, h);
            }
        }
        res
    }

    /// Puts a new root above the full root, and splits the old root under
    /// it.
    fn grow(&mut self, pool: &mut BufferPool) -> (res: Result<(), DatabaseError>)
        ensures
            final(pool)@.capacity == old(pool)@.capacity,
            old(self).wf(old(pool)@) && entries_of(old(pool)@, old(self).root()).len()
                == MAX_KEYS ==> {
                &&& final(self).wf(final(pool)@)
                &&& final(self).entries(final(pool)@) == old(self).entries(old(pool)@)
                &&& changed(
                    old(pool)@,
                    final(pool)@,
                    old(self).root(),
                    old(self).height(),
                    final(self).root(),
                    final(self).height(),
                )
                &&& final(pool)@.disk.next_page_id <= old(pool)@.disk.next_page_id + 2
                &&& res is Ok ==> final(self).height() == old(self).height() + 1 && 1
                    <= entries_of(final(pool)@, final(self).root()).len() < MAX_KEYS
                    && final(self).root() == old(pool)@.disk.next_page_id
                &&& res is Err ==> *final(self) == *old(self) && (res matches Err(
                    DatabaseError::BufferPoolFull,
                ) || res matches Err(DatabaseError::InvalidOperation(_)))
                &&& has_room(old(pool)@, 2) && old(self).height() < usize::MAX ==> res is Ok
            },
    {
        proof {
            reveal(BTree::wf);
        }
        let ghost a = pool@;
        let ghost h = self.height();
        let ghost ok = self.wf(a) && entries_of(a, self.root()).len() == MAX_KEYS;
        let root_id = self.root_page_id();
        if self.levels() == usize::MAX {
            proof {
                if ok {
                    lemma_unchanged(a, root_id, h);
                }
            }
            return Err(DatabaseError::InvalidOperation(String::from_str("Tree too high")));
        }
        let new_root_page = match pool.new_page() {
            Ok(page) => page,
            Err(err) => {
                proof {
                    if ok {
                        lemma_unchanged(a, root_id, h);
                    }
                }
                return Err(err);
            },
        };
        let new_id = new_root_page.header.page_id;
        let mut new_root = BTreeNode::new(new_id, false);
        new_root.children.push(root_id);
        let ghost top = new_root@;
        let ghost a1 = a.with_new_page();
        let ghost a2 = with_node(a1, top);
        proof {
            if ok {
                Self::lemma_new_root(a, root_id, h, top);
                if a2.disk.can_allocate() {
                    lemma_split(a2, new_id, h + 1, 0, 0);
                }
                lemma_with_new_page(a);
                lemma_node_fits(top, new_id, h + 1, 0);
                lemma_with_node(a1, top);
            }
        }
        Self::write_node(&new_root, pool)?;
        match self.split_child(new_id, 0, pool, Ghost(h + 1), Ghost(0)) {
            Ok(()) => {},
            Err(err) => {
                return Err(err);
            },
        }
        self.set_root_above(new_id);
        proof {
            if ok {
                lemma_changed_twice(a, a2, pool@, root_id, h, new_id, h + 1, new_id, h + 1);
            }
        }
        Ok(())
    }

    /// A new root above the old one, with the old one as its only child,
    /// is the root of a well-formed tree that holds what the old one held.
    proof fn lemma_new_root(a: PoolView, root_id: u32, h: nat, top: NodeView)
        requires
            pool_ok(a),
            subtree(a, root_id, h, 0),
            entries_of(a, root_id).len() == MAX_KEYS,
            a.disk.can_allocate(),
            top == (NodeView {
                page_id: a.disk.next_page_id,
                is_leaf: false,
                entries: Seq::empty(),
                children: seq![root_id],
            }),
        ensures
            ({
                let b = with_node(a.with_new_page(), top);
                &&& subtree(b, root_id, h, 0)
                &&& contents(b, root_id, h) == contents(a, root_id, h)
                &&& changed(a, b, root_id, h, root_id, h)
                &&& subtree(b, top.page_id, h + 1, 0)
                &&& contents(b, top.page_id, h + 1) == contents(a, root_id, h)
                &&& changed(a, b, root_id, h, top.page_id, h + 1)
                &&& can_split(b, top.page_id, h + 1, 0, 0)
                &&& b.disk.next_page_id == a.disk.next_page_id + 1
                &&& b.pages.len() <= a.pages.len() + 1
            }),
    {
        let new_id = a.disk.next_page_id;
        let a1 = a.with_new_page();
        let b = with_node(a1, top);
        lemma_with_new_page(a);
        assert(node_ok(top, new_id, h + 1, 0));
        lemma_node_fits(top, new_id, h + 1, 0);
        lemma_with_node(a1, top);
        assert forall|q: u32| q < a.disk.next_page_id implies #[trigger] same_page(a, b, q) by {
            assert(same_page(a, a1, q));
            assert(same_page(a1, b, q));
        }
        lemma_subtree_min(a, root_id, h, 0, MIN_KEYS as nat);
        lemma_pages_stored(a, root_id, h, MIN_KEYS as nat);
        assert forall|q: u32| #[trigger] pages_of(a, root_id, h).contains(q) implies same_page(
            a,
            b,
            q,
        ) by {}
        lemma_frame(a, b, root_id, h, 0);
        lemma_frame(a, b, root_id, h, MIN_KEYS as nat);
        assert(top.children[0] == root_id);
        assert(subtree(b, new_id, h + 1, 0));
        assert(children_contents(b, top, h) =~= seq![contents(a, root_id, h)]);
        assert(contents(b, new_id, h + 1) == contents(a, root_id, h)) by {
            lemma_flat_split(children_contents(b, top, h), top.entries, 0);
            assert(contents(b, new_id, h + 1) =~= contents(a, root_id, h));
        }
        assert forall|q: u32| #[trigger] pages_of(b, new_id, h + 1).contains(q) implies pages_of(
            a,
            root_id,
            h,
        ).contains(q) || a.disk.next_page_id <= q by {
            if q != new_id {
                let i = crate::index::shape::lemma_page_place(b, new_id, h + 1, q);
            }
        }
    }

    /// Puts an entry for `key` into the tree. A key that the tree has
    /// already gets a second entry.
    pub fn insert(&mut self, key: i32, value: Value, pool: &mut BufferPool) -> (res: Result<
        (),
        DatabaseError,
    >)
        ensures
            final(pool)@.capacity == old(pool)@.capacity,
            res is Ok ==> small((key, value@)),
            old(self).wf(old(pool)@) ==> {
                &&& final(self).wf(final(pool)@)
                &&& grown(
                    old(pool)@,
                    final(pool)@,
                    old(self).root(),
                    old(self).height(),
                    final(self).root(),
                    final(self).height(),
                    res is Ok,
                )
                &&& final(self).height() >= old(self).height()
                &&& changed(
                    old(pool)@,
                    final(pool)@,
                    old(self).root(),
                    old(self).height(),
                    final(self).root(),
                    final(self).height(),
                )
                &&& res is Ok ==> small((key, value@)) && inserted(
                    old(self).entries(old(pool)@),
                    final(self).entries(final(pool)@),
                    (key, value@),
                )
                &&& res is Err ==> final(self).entries(final(pool)@) == old(self).entries(
                    old(pool)@,
                )
                &&& !small((key, value@)) ==> (res matches Err(DatabaseError::InvalidData(_)))
                    && final(pool)@ == old(pool)@ && *final(self) == *old(self)
                &&& small((key, value@)) ==> !(res matches Err(DatabaseError::InvalidData(_)))
                &&& small((key, value@)) && has_room(old(pool)@, old(self).height() + 3) && old(self).height() < usize::MAX ==> res is Ok
            },
    {
        proof {
            reveal(BTree::wf);
        }
        let ghost a = pool@;
        let ghost e = (key, value@);
        let ghost h = self.height();
        let ghost r = self.root();
        let ghost ok = self.wf(a);
        let ghost all = self.entries(a);
        if !Self::is_small(&value) {
            proof {
                if ok {
                    lemma_unchanged(a, r, h);
                }
            }
            return Err(DatabaseError::InvalidData(String::from_str("Value too large")));
        }
        proof {
            if ok {
                lemma_pages_stored(a, r, h, 0);
            }
        }
        let root = self.get_node(self.root_page_id(), pool)?;
        if root.is_full() {
            match self.grow(pool) {
                Ok(()) => {},
                Err(err) => {
                    return Err(err);
                },
            }
        }
        let ghost a1 = pool@;
        let res = self.insert_non_full(
            self.root_page_id(),
            key,
            value,
            pool,
            self.fuel(),
            Ghost(self.height()),
            Ghost(0),
        );
        proof {
            if ok {
                if res is Ok {
                    lemma_inserted_sorted(all, self.entries(pool@), e);
                }
                lemma_changed_twice(
                    a,
                    a1,
                    pool@,
                    r,
                    h,
                    self.root(),
                    self.height(),
                    self.root(),
                    self.height(),
                );
            }
        }
        res
    }
}

} // verus!
