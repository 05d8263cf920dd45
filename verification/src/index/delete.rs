//! Deletion from the B-tree: before the descent goes into a child, the
//! child is given more than `MIN_KEYS` entries, from a sibling or by a
//! merge.

use crate::index::bounds::lemma_node_sorted;
use crate::index::insert::has_room;
use crate::index::node::{BTreeNode, KeyValue, lemma_first_from, lower_bound, MIN_KEYS};
use crate::index::order::{inserted, lemma_removed_sorted, removed, replaced};
use crate::index::remove::{
    can_ensure, can_take, deletable, ensure_effect, ensured, found, leaf_without, leaf_without_last,
    lemma_cached, lemma_delete_leaf, lemma_delete_swapped, lemma_ensure_from_left,
    lemma_ensure_from_right, lemma_ensure_merge, lemma_ensure_none, lemma_found_merge,
    lemma_found_move, lemma_found_take, lemma_not_found, lemma_not_found_down,
    lemma_remove_lifted, lemma_root_ready, lemma_take_last_down, lemma_take_last_leaf,
    lemma_take_last_lifted,
};
use crate::index::reshape::{
    after_merge, after_move, can_merge, can_move, lemma_merge_nodes, lemma_move_nodes,
    lemma_pair, merge_result, merged_nodes, moved_left_nodes, moved_nodes, moved_right_nodes,
    with_entry,
};
use crate::index::root::{
    after_collapse, can_collapse, collapse_result, collapsed_node, lemma_collapse,
    lemma_collapse_node,
};
use crate::index::shape::{
    changed, contents, lemma_changed_twice, lemma_node_fits, lemma_pages_stored,
    lemma_unchanged, lemma_updated_twice, lemma_with_node, lemma_without_page, node_at,
    node_ok, pool_ok, small, subtree, updated, with_node, without_page,
};
use crate::index::tree::BTree;
use crate::index::window::{children_of, entries_of};
use crate::storage::buffer_pool::BufferPool;
use crate::storage::error::DatabaseError;
use crate::storage::value::Value;
use vstd::prelude::*;
use vstd::string::*;

verus! {

impl BTree {
    /// Frees the page of a node of the tree.
    fn free_node(page_id: u32, pool: &mut BufferPool) -> (res: Result<(), DatabaseError>)
        ensures
            final(pool)@.capacity == old(pool)@.capacity,
            final(pool)@.disk.next_page_id == old(pool)@.disk.next_page_id,
            pool_ok(old(pool)@) && page_id < old(pool)@.disk.next_page_id ==> res is Ok && final(pool)@ == without_page(old(pool)@, page_id),
    {
        proof {
            reveal(without_page);
            if pool_ok(pool@) && page_id < pool@.disk.next_page_id {
                lemma_without_page(pool@, page_id);
            }
        }
        pool.free_page(page_id)
    }

    /// Moves the last entry of `left` up into `parent` in place of entry
    /// `i`, which goes down to the front of `right`, and with it the last
    /// child of `left`.
    fn move_right(parent: &mut BTreeNode, left: &mut BTreeNode, right: &mut BTreeNode, i: usize)
        requires
            i < old(parent).entries@.len(),
            old(left).entries@.len() > 0,
            !old(left).is_leaf ==> old(left).children@.len() > 0,
            old(left).is_leaf == old(right).is_leaf,
        ensures
            (final(parent)@, final(left)@, final(right)@) == moved_right_nodes(
                old(parent)@,
                old(left)@,
                old(right)@,
                i as int,
            ),
    {
        let sep = parent.entries.remove(i);
        let moved = left.entries.pop().unwrap();
        right.entries.insert(0, sep);
        parent.entries.insert(i, moved);
        if !left.is_leaf {
            let child = left.children.pop().unwrap();
            if !right.is_leaf {
                right.children.insert(0, child);
            }
        }
        proof {
            let (parent2, left2, right2) = moved_right_nodes(
                old(parent)@,
                old(left)@,
                old(right)@,
                i as int,
            );
            assert(parent@.entries =~= parent2.entries);
            assert(left@.entries =~= left2.entries);
            assert(left@.children =~= left2.children);
            assert(right@.entries =~= right2.entries);
            assert(right@.children =~= right2.children);
        }
    }

    /// Moves the first entry of `right` up into `parent` in place of entry
    /// `i`, which goes down to the back of `left`, and with it the first
    /// child of `right`.
    fn move_left(parent: &mut BTreeNode, left: &mut BTreeNode, right: &mut BTreeNode, i: usize)
        requires
            i < old(parent).entries@.len(),
            old(right).entries@.len() > 0,
            !old(right).is_leaf ==> old(right).children@.len() > 0,
            old(left).is_leaf == old(right).is_leaf,
        ensures
            (final(parent)@, final(left)@, final(right)@) == moved_left_nodes(
                old(parent)@,
                old(left)@,
                old(right)@,
                i as int,
            ),
    {
        let sep = parent.entries.remove(i);
        left.entries.push(sep);
        let moved = right.entries.remove(0);
        parent.entries.insert(i, moved);
        if !right.is_leaf {
            let child = right.children.remove(0);
            if !left.is_leaf {
                left.children.push(child);
            }
        }
        proof {
            let (parent2, left2, right2) = moved_left_nodes(
                old(parent)@,
                old(left)@,
                old(right)@,
                i as int,
            );
            assert(parent@.entries =~= parent2.entries);
            assert(left@.entries =~= left2.entries);
            assert(left@.children =~= left2.children);
            assert(right@.entries =~= right2.entries);
            assert(right@.children =~= right2.children);
        }
    }

    /// Moves an entry between the children `i` and `i + 1` of the node in
    /// page `parent_id`, through the node: the last entry of the left child
    /// to the right child, or the first entry of the right child to the
    /// left child.
    fn shift_entry(
        &self,
        parent_id: u32,
        i: usize,
        to_right: bool,
        pool: &mut BufferPool,
        Ghost(h): Ghost<nat>,
        Ghost(min): Ghost<nat>,
    ) -> (res: Result<(), DatabaseError>)
        ensures
            final(pool)@.capacity == old(pool)@.capacity,
            final(pool)@.disk.next_page_id == old(pool)@.disk.next_page_id,
            can_move(old(pool)@, parent_id, h, min, i as int, to_right) ==> res is Ok && final(pool)@ == after_move(old(pool)@, parent_id, i as int, to_right),
    {
        let ghost a = pool@;
        let ghost ok = can_move(a, parent_id, h, min, i as int, to_right);
        proof {
            if ok {
                lemma_move_nodes(a, parent_id, h, min, i as int, to_right);
                lemma_pair(a, parent_id, h, min, i as int);
            }
        }
        let mut parent = self.get_node(parent_id, pool)?;
        if i >= parent.entries.len() || i + 1 >= parent.children.len() {
            return Err(DatabaseError::InvalidData(String::from_str("Malformed tree")));
        }
        let mut left = self.get_node(parent.children[i], pool)?;
        let mut right = self.get_node(parent.children[i + 1], pool)?;
        if left.is_leaf != right.is_leaf {
            return Err(DatabaseError::InvalidData(String::from_str("Malformed tree")));
        }
        if to_right {
            if left.entries.len() == 0 || (!left.is_leaf && left.children.len() == 0) {
                return Err(DatabaseError::InvalidData(String::from_str("Malformed tree")));
            }
            Self::move_right(&mut parent, &mut left, &mut right, i);
        } else {
            if right.entries.len() == 0 || (!right.is_leaf && right.children.len() == 0) {
                return Err(DatabaseError::InvalidData(String::from_str("Malformed tree")));
            }
            Self::move_left(&mut parent, &mut left, &mut right, i);
        }
        proof {
            if ok {
                let (parent2, left2, right2) = moved_nodes(a, parent_id, i as int, to_right);
                assert(parent@ == parent2 && left@ == left2 && right@ == right2) by {
                    reveal(moved_nodes);
                }
                lemma_node_fits(parent2, parent_id, h, min);
                lemma_node_fits(left2, left2.page_id, (h - 1) as nat, MIN_KEYS as nat);
                lemma_node_fits(right2, right2.page_id, (h - 1) as nat, MIN_KEYS as nat);
                lemma_with_node(a, parent2);
                lemma_with_node(with_node(a, parent2), left2);
                lemma_with_node(with_node(with_node(a, parent2), left2), right2);
            }
        }
        Self::write_node(&parent, pool)?;
        Self::write_node(&left, pool)?;
        Self::write_node(&right, pool)?;
        Ok(())
    }

    /// Merges the children `i` and `i + 1` of the node in page `parent_id`
    /// into the page of the left one: it gets the entry that stood between
    /// the two, and the entries and children of the right one, whose page is
    /// freed.
    pub(crate) fn merge_children(
        &self,
        parent_id: u32,
        i: usize,
        pool: &mut BufferPool,
        Ghost(h): Ghost<nat>,
        Ghost(min): Ghost<nat>,
    ) -> (res: Result<(), DatabaseError>)
        ensures
            final(pool)@.capacity == old(pool)@.capacity,
            final(pool)@.disk.next_page_id == old(pool)@.disk.next_page_id,
            can_merge(old(pool)@, parent_id, h, min, i as int) ==> res is Ok && final(pool)@
                == after_merge(old(pool)@, parent_id, i as int),
    {
        let ghost a = pool@;
        let ghost ok = can_merge(a, parent_id, h, min, i as int);
        proof {
            if ok {
                lemma_merge_nodes(a, parent_id, h, min, i as int);
            }
        }
        let mut parent = self.get_node(parent_id, pool)?;
        if i >= parent.entries.len() || i + 1 >= parent.children.len() {
            return Err(DatabaseError::InvalidData(String::from_str("Malformed tree")));
        }
        let left_id = parent.children[i];
        let right_id = parent.children[i + 1];
        let mut left = self.get_node(left_id, pool)?;
        let mut right = self.get_node(right_id, pool)?;
        let ghost old_parent = parent@;
        let ghost old_left = left@;
        let ghost old_right = right@;
        let sep = parent.entries.remove(i);
        left.entries.push(sep);
        left.entries.append(&mut right.entries);
        left.children.append(&mut right.children);
        parent.children.remove(i + 1);
        proof {
            if ok {
                reveal(merge_result);
                let (parent2, merged) = merged_nodes(old_parent, old_left, old_right, i as int);
                assert(parent@.entries =~= parent2.entries);
                assert(parent@.children =~= parent2.children);
                assert(left@.entries =~= merged.entries);
                assert(left@.children =~= merged.children);
                assert(parent@ == parent2 && left@ == merged);
                lemma_node_fits(parent2, parent_id, h, min);
                lemma_node_fits(merged, left_id, (h - 1) as nat, MIN_KEYS as nat);
                lemma_with_node(a, parent2);
                lemma_with_node(with_node(a, parent2), merged);
            }
        }
        Self::write_node(&parent, pool)?;
        Self::write_node(&left, pool)?;
        Self::free_node(right_id, pool)?;
        Ok(())
    }

    /// Makes the root, which has one entry, and its two children one node
    /// in the root's page, and frees the pages of the children. The tree is
    /// one level lower after it.
    fn collapse_root(&mut self, pool: &mut BufferPool) -> (res: Result<(), DatabaseError>)
        ensures
            final(pool)@.capacity == old(pool)@.capacity,
            final(pool)@.disk.next_page_id == old(pool)@.disk.next_page_id,
            final(self).root() == old(self).root(),
            can_collapse(old(pool)@, old(self).root(), old(self).height()) ==> res is Ok && final(pool)@ == after_collapse(old(pool)@, old(self).root()) && final(self).height() == old(self).height() - 1,
            res is Err ==> *final(self) == *old(self),
    {
        let ghost a = pool@;
        let ghost h = self.height();
        let ghost r = self.root();
        let ghost ok = can_collapse(a, r, h);
        proof {
            if ok {
                lemma_collapse_node(a, r, h);
            }
        }
        let root_id = self.root_page_id();
        let root = self.get_node(root_id, pool)?;
        if self.levels() == 0 || root.entries.len() != 1 || root.children.len() != 2 {
            return Err(DatabaseError::InvalidData(String::from_str("Malformed tree")));
        }
        let left_id = root.children[0];
        let right_id = root.children[1];
        let mut left = self.get_node(left_id, pool)?;
        let mut right = self.get_node(right_id, pool)?;
        let ghost old_left = left@;
        let ghost old_right = right@;
        let mut node = BTreeNode::new(root_id, left.is_leaf);
        node.entries.append(&mut left.entries);
        node.entries.push(root.entries[0].clone());
        node.entries.append(&mut right.entries);
        node.children.append(&mut left.children);
        node.children.append(&mut right.children);
        proof {
            if ok {
                reveal(collapse_result);
                let want = collapsed_node(root@, old_left, old_right);
                assert(node@.entries =~= want.entries);
                assert(node@.children =~= want.children);
                assert(node@ == want);
                lemma_node_fits(want, r, (h - 1) as nat, 0);
                lemma_with_node(a, want);
                lemma_without_page(with_node(a, want), left_id);
            }
        }
        Self::write_node(&node, pool)?;
        Self::free_node(left_id, pool)?;
        Self::free_node(right_id, pool)?;
        self.set_root_below();
        Ok(())
    }

    /// Gives child `idx` of the node in page `parent_id` more than
    /// `MIN_KEYS` entries before the descent goes into it: an entry from the
    /// left sibling if that has more than `MIN_KEYS`, else one from the right
    /// sibling if that has, else by a merge with the right sibling, or with
    /// the left one where there is no right one. Says which child it is
    /// after that.
    pub(crate) fn ensure_min_keys(
        &self,
        parent_id: u32,
        idx: usize,
        pool: &mut BufferPool,
        Ghost(h): Ghost<nat>,
        Ghost(min): Ghost<nat>,
    ) -> (res: Result<usize, DatabaseError>)
        ensures
            final(pool)@.capacity == old(pool)@.capacity,
            final(pool)@.disk.next_page_id == old(pool)@.disk.next_page_id,
            can_ensure(old(pool)@, parent_id, h, min, idx as int) ==> (res matches Ok(j)
                && ensured(old(pool)@, final(pool)@, parent_id, h, min, idx as int, j as int)
                && ensure_effect(old(pool)@, final(pool)@, parent_id, idx as int, j as int)),
    {
        let ghost a = pool@;
        let ghost ok = can_ensure(a, parent_id, h, min, idx as int);
        proof {
            if ok {
                lemma_pages_stored(a, parent_id, h, min);
                assert(node_ok(node_at(a, parent_id).unwrap(), parent_id, h, min));
            }
        }
        let parent = self.get_node(parent_id, pool)?;
        if idx >= parent.children.len() {
            return Err(DatabaseError::InvalidData(String::from_str("Malformed tree")));
        }
        let count = parent.children.len();
        proof {
            if ok {
                let c = parent@.children[idx as int];
                assert(subtree(a, c, (h - 1) as nat, MIN_KEYS as nat));
                lemma_pages_stored(a, c, (h - 1) as nat, MIN_KEYS as nat);
            }
        }
        let child = self.get_node(parent.children[idx], pool)?;
        if child.entries.len() > MIN_KEYS {
            proof {
                if ok {
                    lemma_ensure_none(a, parent_id, h, min, idx as int);
                }
            }
            return Ok(idx);
        }
        if idx > 0 {
            proof {
                if ok {
                    let c = parent@.children[idx - 1];
                    assert(subtree(a, c, (h - 1) as nat, MIN_KEYS as nat));
                    lemma_pages_stored(a, c, (h - 1) as nat, MIN_KEYS as nat);
                }
            }
            let left = self.get_node(parent.children[idx - 1], pool)?;
            if left.entries.len() > MIN_KEYS {
                proof {
                    if ok {
                        lemma_ensure_from_left(a, parent_id, h, min, idx as int);
                    }
                }
                self.shift_entry(parent_id, idx - 1, true, pool, Ghost(h), Ghost(min))?;
                return Ok(idx);
            }
        }
        if idx + 1 < count {
            proof {
                if ok {
                    let c = parent@.children[idx + 1];
                    assert(subtree(a, c, (h - 1) as nat, MIN_KEYS as nat));
                    lemma_pages_stored(a, c, (h - 1) as nat, MIN_KEYS as nat);
                }
            }
            let right = self.get_node(parent.children[idx + 1], pool)?;
            if right.entries.len() > MIN_KEYS {
                proof {
                    if ok {
                        lemma_ensure_from_right(a, parent_id, h, min, idx as int);
                    }
                }
                self.shift_entry(parent_id, idx, false, pool, Ghost(h), Ghost(min))?;
                return Ok(idx);
            }
            proof {
                if ok {
                    lemma_ensure_merge(a, parent_id, h, min, idx as int, idx as int);
                }
            }
            self.merge_children(parent_id, idx, pool, Ghost(h), Ghost(min))?;
            return Ok(idx);
        }
        if idx == 0 {
            return Err(DatabaseError::InvalidData(String::from_str("Malformed tree")));
        }
        proof {
            if ok {
                lemma_ensure_merge(a, parent_id, h, min, idx as int, idx - 1);
            }
        }
        self.merge_children(parent_id, idx - 1, pool, Ghost(h), Ghost(min))?;
        Ok(idx - 1)
    }

    /// Takes the last entry out of the subtree under `page_id`, whose
    /// topmost node has more than `MIN_KEYS` entries, and hands it out.
    fn take_last(
        &self,
        page_id: u32,
        pool: &mut BufferPool,
        fuel: usize,
        Ghost(h): Ghost<nat>,
    ) -> (res: Result<KeyValue, DatabaseError>)
        ensures
            final(pool)@.capacity == old(pool)@.capacity,
            final(pool)@.disk.next_page_id == old(pool)@.disk.next_page_id,
            can_take(old(pool)@, page_id, h) && h <= fuel ==> (res matches Ok(entry) && {
                &&& subtree(final(pool)@, page_id, h, MIN_KEYS as nat)
                &&& updated(old(pool)@, final(pool)@, page_id, h)
                &&& contents(old(pool)@, page_id, h) == contents(final(pool)@, page_id, h).push(
                    entry@,
                )
                &&& small(entry@)
            }),
        decreases fuel,
    {
        let ghost a = pool@;
        let ghost ok = can_take(a, page_id, h) && h <= fuel;
        proof {
            if ok {
                lemma_cached(a, page_id, h, MIN_KEYS as nat);
            }
        }
        let mut node = self.get_node(page_id, pool)?;
        if node.is_leaf {
            let entry = match node.entries.pop() {
                Some(entry) => entry,
                None => {
                    return Err(DatabaseError::InvalidData(String::from_str("Malformed tree")));
                },
            };
            proof {
                if ok {
                    lemma_take_last_leaf(a, page_id);
                    assert(node@.entries =~= leaf_without_last(node_at(a, page_id).unwrap()).entries);
                }
            }
            Self::write_node(&node, pool)?;
            return Ok(entry);
        }
        if fuel == 0 || node.children.len() == 0 {
            return Err(DatabaseError::InvalidData(String::from_str("Malformed tree")));
        }
        let last = node.children.len() - 1;
        proof {
            if ok {
                assert(can_ensure(a, page_id, h, MIN_KEYS as nat, last as int));
            }
        }
        let j = self.ensure_min_keys(page_id, last, pool, Ghost(h), Ghost(MIN_KEYS as nat))?;
        let ghost b = pool@;
        proof {
            if ok {
                lemma_take_last_down(a, b, page_id, h, j as int);
                lemma_cached(b, page_id, h, MIN_KEYS as nat);
            }
        }
        let node2 = self.get_node(page_id, pool)?;
        if j >= node2.children.len() {
            return Err(DatabaseError::InvalidData(String::from_str("Malformed tree")));
        }
        let entry = self.take_last(node2.children[j], pool, fuel - 1, Ghost((h - 1) as nat))?;
        proof {
            if ok {
                lemma_take_last_lifted(b, pool@, page_id, h, MIN_KEYS as nat, entry@);
                lemma_updated_twice(a, b, pool@, page_id, h);
            }
        }
        Ok(entry)
    }

    /// Takes an entry with the key out of the subtree under `page_id`, if
    /// there is one.
    pub(crate) fn delete_key(
        &self,
        page_id: u32,
        key: i32,
        pool: &mut BufferPool,
        fuel: usize,
        Ghost(h): Ghost<nat>,
        Ghost(min): Ghost<nat>,
    ) -> (res: Result<(), DatabaseError>)
        ensures
            final(pool)@.capacity == old(pool)@.capacity,
            final(pool)@.disk.next_page_id == old(pool)@.disk.next_page_id,
            deletable(old(pool)@, page_id, h, min) && h <= fuel ==> {
                &&& res is Ok
                &&& subtree(final(pool)@, page_id, h, min)
                &&& updated(old(pool)@, final(pool)@, page_id, h)
                &&& removed(
                    contents(old(pool)@, page_id, h),
                    contents(final(pool)@, page_id, h),
                    key,
                )
                &&& h > 0 ==> entries_of(final(pool)@, page_id).len() >= 1
            },
        decreases fuel, 1nat,
    {
        let ghost a = pool@;
        let ghost ok = deletable(a, page_id, h, min) && h <= fuel;
        proof {
            if ok {
                lemma_cached(a, page_id, h, min);
                lemma_first_from(entries_of(a, page_id), key, false, 0);
            }
        }
        let mut node = self.get_node(page_id, pool)?;
        let idx = node.find(key, false);
        let hit = idx < node.entries.len() && node.entries[idx].key == key;
        if node.is_leaf {
            proof {
                if ok {
                    lemma_delete_leaf(a, page_id, min, key);
                    lemma_unchanged(a, page_id, h);
                }
            }
            if hit {
                node.entries.remove(idx);
                proof {
                    if ok {
                        assert(node@.entries =~= leaf_without(
                            node_at(a, page_id).unwrap(),
                            key,
                        ).entries);
                    }
                }
                return Self::write_node(&node, pool);
            }
            return Ok(());
        }
        if fuel == 0 || idx >= node.children.len() {
            return Err(DatabaseError::InvalidData(String::from_str("Malformed tree")));
        }
        if hit {
            self.delete_found(page_id, key, idx, pool, fuel, Ghost(h), Ghost(min))
        } else {
            self.delete_below(page_id, key, idx, pool, fuel, Ghost(h), Ghost(min))
        }
    }

    /// Takes an entry with the key out under a node that is no leaf and has
    /// no entry with the key: under child `idx`, after the child was given
    /// more than `MIN_KEYS` entries.
    fn delete_below(
        &self,
        page_id: u32,
        key: i32,
        idx: usize,
        pool: &mut BufferPool,
        fuel: usize,
        Ghost(h): Ghost<nat>,
        Ghost(min): Ghost<nat>,
    ) -> (res: Result<(), DatabaseError>)
        requires
            fuel > 0,
        ensures
            final(pool)@.capacity == old(pool)@.capacity,
            final(pool)@.disk.next_page_id == old(pool)@.disk.next_page_id,
            deletable(old(pool)@, page_id, h, min) && 1 <= h <= fuel && !found(
                node_at(old(pool)@, page_id).unwrap(),
                key,
            ) && idx == lower_bound(entries_of(old(pool)@, page_id), key) ==> {
                &&& res is Ok
                &&& subtree(final(pool)@, page_id, h, min)
                &&& updated(old(pool)@, final(pool)@, page_id, h)
                &&& removed(
                    contents(old(pool)@, page_id, h),
                    contents(final(pool)@, page_id, h),
                    key,
                )
                &&& entries_of(final(pool)@, page_id).len() >= 1
            },
        decreases fuel, 0nat,
    {
        let ghost a = pool@;
        let ghost ok = deletable(a, page_id, h, min) && 1 <= h <= fuel && !found(
            node_at(a, page_id).unwrap(),
            key,
        ) && idx == lower_bound(entries_of(a, page_id), key);
        proof {
            if ok {
                lemma_not_found(a, page_id, h, min, key);
            }
        }
        let j = self.ensure_min_keys(page_id, idx, pool, Ghost(h), Ghost(min))?;
        let ghost b = pool@;
        proof {
            if ok {
                lemma_not_found_down(a, b, page_id, h, min, key, j as int);
                lemma_cached(b, page_id, h, min);
            }
        }
        let node2 = self.get_node(page_id, pool)?;
        if j >= node2.children.len() {
            return Err(DatabaseError::InvalidData(String::from_str("Malformed tree")));
        }
        let res = self.delete_key(
            node2.children[j],
            key,
            pool,
            fuel - 1,
            Ghost((h - 1) as nat),
            Ghost(MIN_KEYS as nat),
        );
        proof {
            if ok {
                lemma_remove_lifted(b, pool@, page_id, h, min, j as int, key);
                lemma_updated_twice(a, b, pool@, page_id, h);
            }
        }
        res
    }

    /// Takes entry `idx`, which has the key, out of a node that is no leaf:
    /// the last entry under the child before it takes its place, if that
    /// child has more than `MIN_KEYS` entries; else the entry goes down into
    /// that child, with an entry from the child behind it or by a merge of
    /// the two, and is taken out there.
    fn delete_found(
        &self,
        page_id: u32,
        key: i32,
        idx: usize,
        pool: &mut BufferPool,
        fuel: usize,
        Ghost(h): Ghost<nat>,
        Ghost(min): Ghost<nat>,
    ) -> (res: Result<(), DatabaseError>)
        requires
            fuel > 0,
        ensures
            final(pool)@.capacity == old(pool)@.capacity,
            final(pool)@.disk.next_page_id == old(pool)@.disk.next_page_id,
            deletable(old(pool)@, page_id, h, min) && 1 <= h <= fuel && idx < entries_of(
                old(pool)@,
                page_id,
            ).len() && entries_of(old(pool)@, page_id)[idx as int].0 == key ==> {
                &&& res is Ok
                &&& subtree(final(pool)@, page_id, h, min)
                &&& updated(old(pool)@, final(pool)@, page_id, h)
                &&& removed(
                    contents(old(pool)@, page_id, h),
                    contents(final(pool)@, page_id, h),
                    key,
                )
                &&& entries_of(final(pool)@, page_id).len() >= 1
            },
        decreases fuel, 0nat,
    {
        let ghost a = pool@;
        let ghost ok = deletable(a, page_id, h, min) && 1 <= h <= fuel && idx < entries_of(
            a,
            page_id,
        ).len() && entries_of(a, page_id)[idx as int].0 == key;
        proof {
            if ok {
                lemma_cached(a, page_id, h, min);
            }
        }
        let node = self.get_node(page_id, pool)?;
        if idx >= node.entries.len() || idx + 1 >= node.children.len() {
            return Err(DatabaseError::InvalidData(String::from_str("Malformed tree")));
        }
        let left_id = node.children[idx];
        let left = self.get_node(left_id, pool)?;
        if left.entries.len() > MIN_KEYS {
            return self.delete_swap(page_id, idx, pool, fuel, Ghost(h), Ghost(min));
        }
        let right = self.get_node(node.children[idx + 1], pool)?;
        if right.entries.len() > MIN_KEYS {
            proof {
                if ok {
                    lemma_found_move(a, page_id, h, min, idx as int);
                }
            }
            self.shift_entry(page_id, idx, false, pool, Ghost(h), Ghost(min))?;
        } else {
            proof {
                if ok {
                    lemma_found_merge(a, page_id, h, min, idx as int);
                }
            }
            self.merge_children(page_id, idx, pool, Ghost(h), Ghost(min))?;
        }
        let ghost b = pool@;
        let res = self.delete_key(
            left_id,
            key,
            pool,
            fuel - 1,
            Ghost((h - 1) as nat),
            Ghost(MIN_KEYS as nat),
        );
        proof {
            if ok {
                lemma_node_sorted(b, page_id, h, min);
                lemma_remove_lifted(b, pool@, page_id, h, min, idx as int, key);
                lemma_updated_twice(a, b, pool@, page_id, h);
            }
        }
        res
    }

    /// Takes entry `idx` out of a node that is no leaf, and puts the last
    /// entry under the child before it, which has more than `MIN_KEYS`
    /// entries, in its place.
    fn delete_swap(
        &self,
        page_id: u32,
        idx: usize,
        pool: &mut BufferPool,
        fuel: usize,
        Ghost(h): Ghost<nat>,
        Ghost(min): Ghost<nat>,
    ) -> (res: Result<(), DatabaseError>)
        requires
            fuel > 0,
        ensures
            final(pool)@.capacity == old(pool)@.capacity,
            final(pool)@.disk.next_page_id == old(pool)@.disk.next_page_id,
            deletable(old(pool)@, page_id, h, min) && 1 <= h <= fuel && idx < entries_of(
                old(pool)@,
                page_id,
            ).len() && entries_of(old(pool)@, children_of(old(pool)@, page_id)[idx as int]).len()
                > MIN_KEYS ==> {
                &&& res is Ok
                &&& subtree(final(pool)@, page_id, h, min)
                &&& updated(old(pool)@, final(pool)@, page_id, h)
                &&& removed(
                    contents(old(pool)@, page_id, h),
                    contents(final(pool)@, page_id, h),
                    entries_of(old(pool)@, page_id)[idx as int].0,
                )
                &&& entries_of(final(pool)@, page_id).len() >= 1
            },
    {
        let ghost a = pool@;
        let ghost ok = deletable(a, page_id, h, min) && 1 <= h <= fuel && idx < entries_of(
            a,
            page_id,
        ).len() && entries_of(a, children_of(a, page_id)[idx as int]).len() > MIN_KEYS;
        proof {
            if ok {
                lemma_cached(a, page_id, h, min);
                lemma_found_take(a, page_id, h, min, idx as int);
            }
        }
        let node = self.get_node(page_id, pool)?;
        if idx >= node.entries.len() || idx >= node.children.len() {
            return Err(DatabaseError::InvalidData(String::from_str("Malformed tree")));
        }
        let entry = self.take_last(node.children[idx], pool, fuel - 1, Ghost((h - 1) as nat))?;
        proof {
            if ok {
                lemma_delete_swapped(a, pool@, page_id, h, min, idx as int, entry@);
            }
        }
        let mut node2 = self.get_node(page_id, pool)?;
        if idx >= node2.entries.len() {
            return Err(DatabaseError::InvalidData(String::from_str("Malformed tree")));
        }
        node2.entries.remove(idx);
        node2.entries.insert(idx, entry);
        proof {
            if ok {
                assert(node2@.entries =~= with_entry(
                    node_at(a, page_id).unwrap(),
                    idx as int,
                    entry@,
                ).entries);
            }
        }
        Self::write_node(&node2, pool)
    }

    /// Takes an entry with the key out of the tree, if there is one.
    pub fn delete(&mut self, key: i32, pool: &mut BufferPool) -> (res: Result<(), DatabaseError>)
        ensures
            final(pool)@.capacity == old(pool)@.capacity,
            final(pool)@.disk.next_page_id == old(pool)@.disk.next_page_id,
            final(self).root() == old(self).root(),
            old(self).wf(old(pool)@) ==> {
                &&& res is Ok
                &&& final(self).wf(final(pool)@)
                &&& final(self).height() <= old(self).height()
                &&& changed(
                    old(pool)@,
                    final(pool)@,
                    old(self).root(),
                    old(self).height(),
                    final(self).root(),
                    final(self).height(),
                )
                &&& removed(
                    old(self).entries(old(pool)@),
                    final(self).entries(final(pool)@),
                    key,
                )
            },
    {
        proof {
            reveal(BTree::wf);
        }
        let ghost a = pool@;
        let ghost h = self.height();
        let ghost r = self.root();
        let ghost ok = self.wf(a);
        let ghost all = self.entries(a);
        proof {
            if ok {
                lemma_cached(a, r, h, 0);
                lemma_root_ready(a, r, h);
                lemma_unchanged(a, r, h);
            }
        }
        let root_id = self.root_page_id();
        let root = self.get_node(root_id, pool)?;
        if !root.is_leaf && root.entries.len() == 1 && root.children.len() == 2 {
            let left = self.get_node(root.children[0], pool)?;
            let right = self.get_node(root.children[1], pool)?;
            if left.entries.len() <= MIN_KEYS && right.entries.len() <= MIN_KEYS {
                proof {
                    if ok {
                        crate::index::root::lemma_collapse(a, r, h);
                    }
                }
                self.collapse_root(pool)?;
            }
        }
        let ghost b = pool@;
        let res = self.delete_key(
            root_id,
            key,
            pool,
            self.fuel(),
            Ghost(self.height()),
            Ghost(0),
        );
        proof {
            if ok {
                lemma_removed_sorted(all, self.entries(pool@), key);
                lemma_changed_twice(
                    a,
                    b,
                    pool@,
                    r,
                    h,
                    r,
                    self.height(),
                    r,
                    self.height(),
                );
            }
        }
        res
    }

    /// Puts `value` in the place of what is stored against `key`: takes an
    /// entry with the key out, if there is one, and puts the new entry in.
    /// Where the new entry cannot be put in, the old one stays out.
    pub fn update(&mut self, key: i32, value: Value, pool: &mut BufferPool) -> (res: Result<
        (),
        DatabaseError,
    >)
        ensures
            final(pool)@.capacity == old(pool)@.capacity,
            res is Ok ==> small((key, value@)),
            old(self).wf(old(pool)@) ==> {
                &&& final(self).wf(final(pool)@)
                &&& changed(
                    old(pool)@,
                    final(pool)@,
                    old(self).root(),
                    old(self).height(),
                    final(self).root(),
                    final(self).height(),
                )
                &&& res is Ok ==> replaced(
                    old(self).entries(old(pool)@),
                    final(self).entries(final(pool)@),
                    (key, value@),
                )
                &&& res is Err ==> removed(
                    old(self).entries(old(pool)@),
                    final(self).entries(final(pool)@),
                    key,
                )
                &&& !small((key, value@)) ==> (res matches Err(DatabaseError::InvalidData(_)))
                &&& small((key, value@)) && has_room(old(pool)@, old(self).height() + 3)
                    && old(self).height() < usize::MAX ==> res is Ok
            },
    {
        let ghost ok = self.wf(pool@);
        let ghost before = self.entries(pool@);
        let ghost a = pool@;
        let ghost r = self.root();
        let ghost h = self.height();
        match self.delete(key, pool) {
            Ok(()) => {},
            Err(e) => {
                return Err(e);
            },
        }
        let ghost between = self.entries(pool@);
        let ghost b = pool@;
        let ghost h1 = self.height();
        assert(ok ==> self.wf(pool@) && removed(before, between, key));
        let res = self.insert(key, value, pool);
        proof {
            if ok {
                lemma_changed_twice(a, b, pool@, r, h, r, h1, self.root(), self.height());
                assert(self.wf(pool@));
                if res is Ok {
                    assert(removed(before, between, key) && inserted(
                        between,
                        self.entries(pool@),
                        (key, value@),
                    ));
                    assert(replaced(before, self.entries(pool@), (key, value@)));
                } else {
                    assert(self.entries(pool@) == between);
                }
            }
        }
        res
    }
}

} // verus!
