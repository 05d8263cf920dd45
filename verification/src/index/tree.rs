//! The B-tree index: an ordered map from keys to values in pages of the
//! buffer pool.

use crate::index::layout::{Entry, NodeView};
use crate::index::node::{BTreeNode, lemma_first_from, MIN_KEYS};
use crate::index::order::{
    flat, flat_upto, has_key, lemma_flat_bounds, lemma_flat_entry_place,
    lemma_flat_key_in_child, lemma_flat_split, sorted,
};
use crate::index::shape::{
    children_contents, contents, fits, lemma_height_unique, lemma_with_node, node_at, node_ok,
    node_page, pool_ok, small, stored, subtree, with_node,
};
use crate::storage::buffer_pool::{BufferPool, PoolView};
use crate::storage::disk_manager::{DiskManager, zeros};
use crate::storage::error::DatabaseError;
use crate::storage::page::{Page, PAYLOAD_SIZE};
use crate::storage::value::Value;
use vstd::prelude::*;
use vstd::string::*;

verus! {

/// The number of levels that a descent goes down at least before it gives
/// a tree up as malformed.
pub const MAX_DEPTH: usize = 64;

/// The keys and values of a list of pairs.
pub open spec fn pairs_view(pairs: Seq<(i32, Value)>) -> Seq<Entry> {
    pairs.map_values(|p: (i32, Value)| (p.0, p.1@))
}

/// A B-tree, known by the page of its root and its height.
pub struct BTree {
    pub(crate) root_page_id: u32,
    pub(crate) height: usize,
}

impl BTree {
    /// The page id of the root.
    pub closed spec fn root(&self) -> u32 {
        self.root_page_id
    }

    /// The height of the tree: 0 where the root is a leaf.
    pub closed spec fn height(&self) -> nat {
        self.height as nat
    }

    /// What the tree holds in `pool`, in key order.
    pub open spec fn entries(&self, pool: PoolView) -> Seq<Entry> {
        contents(pool, self.root(), self.height())
    }

    /// Whether the pages of `pool` hold this tree as a well-formed B-tree
    /// with its entries in key order, and a root that has an entry unless it
    /// is a leaf.
    #[verifier::opaque]
    pub open spec fn wf(&self, pool: PoolView) -> bool {
        &&& pool_ok(pool)
        &&& subtree(pool, self.root(), self.height(), 0)
        &&& sorted(self.entries(pool))
        &&& self.height() > 0 ==> node_at(pool, self.root()).unwrap().entries.len() >= 1
    }

    /// A tree with the given root page, taken to be a leaf.
    pub fn new(root_page_id: u32) -> (tree: Self)
        ensures
            tree.root() == root_page_id,
            tree.height() == 0,
    {
        Self { root_page_id, height: 0 }
    }

    /// The page id of the root.
    pub fn root_page_id(&self) -> (id: u32)
        ensures
            id == self.root(),
    {
        self.root_page_id
    }

    /// A tree with the given root page and height.
    pub(crate) fn of_height(root_page_id: u32, height: usize) -> (tree: Self)
        ensures
            tree.root() == root_page_id,
            tree.height() == height,
    {
        Self { root_page_id, height }
    }

    /// The height of the tree.
    pub(crate) fn levels(&self) -> (height: usize)
        ensures
            height == self.height(),
    {
        self.height
    }

    /// Makes `new_root` the root, one level above the old one.
    pub(crate) fn set_root_above(&mut self, new_root: u32)
        requires
            old(self).height() < usize::MAX,
        ensures
            final(self).root() == new_root,
            final(self).height() == old(self).height() + 1,
    {
        self.root_page_id = new_root;
        self.height = self.height + 1;
    }

    /// Notes that the tree is one level lower, under the same root.
    pub(crate) fn set_root_below(&mut self)
        requires
            old(self).height() > 0,
        ensures
            final(self).root() == old(self).root(),
            final(self).height() == old(self).height() - 1,
    {
        self.height = self.height - 1;
    }

    /// The number of levels that a descent may go down: the height of the
    /// tree, and `MAX_DEPTH` at least.
    pub(crate) fn fuel(&self) -> (fuel: usize)
        ensures
            fuel >= self.height(),
            fuel >= MAX_DEPTH,
    {
        if self.height > MAX_DEPTH {
            self.height
        } else {
            MAX_DEPTH
        }
    }

    /// Reads the node of a page.
    pub(crate) fn get_node(&self, page_id: u32, pool: &mut BufferPool) -> (res: Result<
        BTreeNode,
        DatabaseError,
    >)
        ensures
            final(pool)@.capacity == old(pool)@.capacity,
            final(pool)@.disk == old(pool)@.disk,
            old(pool)@.pages.contains_key(page_id) ==> final(pool)@ == old(pool)@ && match node_at(
                old(pool)@,
                page_id,
            ) {
                Some(n) => res matches Ok(node) && node@ == n,
                None => res is Err,
            },
    {
        let page = pool.get_page(page_id)?;
        BTreeNode::deserialize(page.data.as_slice())
    }

    /// Writes a node to its page.
    pub(crate) fn write_node(node: &BTreeNode, pool: &mut BufferPool) -> (res: Result<(), DatabaseError>)
        ensures
            final(pool)@.capacity == old(pool)@.capacity,
            final(pool)@.disk.next_page_id == old(pool)@.disk.next_page_id,
            !fits(node@) ==> res is Err && final(pool)@ == old(pool)@,
            fits(node@) ==> match DiskManager::write_outcome(old(pool)@.disk, node_page(node@)) {
                Ok(heap) => res is Ok && final(pool)@ == with_node(old(pool)@, node@),
                Err(_) => res is Err,
            },
    {
        if node.entries.len() > 0xffff {
            return Err(DatabaseError::InvalidData(String::from_str("Too many entries")));
        }
        let mut i: usize = 0;
        while i < node.entries.len()
            invariant
                i <= node.entries@.len(),
                forall|j: int| 0 <= j < i ==> (#[trigger] node@.entries[j]).1.encodable(),
            decreases node.entries@.len() - i,
        {
            if !node.entries[i].value.is_encodable() {
                assert(!node@.entries[i as int].1.encodable());
                return Err(DatabaseError::InvalidData(String::from_str("Value too long")));
            }
            i += 1;
        }
        let mut bytes = node.serialize();
        if bytes.len() > PAYLOAD_SIZE {
            return Err(DatabaseError::InvalidData(String::from_str("Node does not fit a page")));
        }
        while bytes.len() < PAYLOAD_SIZE
            invariant
                bytes@.len() <= PAYLOAD_SIZE,
                bytes@ == node@.encode() + zeros(bytes@.len() - node@.encode().len()),
            decreases PAYLOAD_SIZE - bytes@.len(),
        {
            bytes.push(0);
            assert(bytes@ =~= node@.encode() + zeros(bytes@.len() - node@.encode().len()));
        }
        let mut page = Page::new(node.page_id);
        page.data = bytes;
        proof {
            assert(page@ == node_page(node@));
            reveal(with_node);
        }
        pool.write_page(node.page_id, page)
    }

    /// Writes an empty leaf to the root page.
    pub fn init(&self, pool: &mut BufferPool) -> (res: Result<(), DatabaseError>)
        ensures
            final(pool)@.capacity == old(pool)@.capacity,
            final(pool)@.disk.next_page_id == old(pool)@.disk.next_page_id,
            pool_ok(old(pool)@) && self.root() < old(pool)@.disk.next_page_id ==> {
                &&& res is Ok
                &&& final(pool)@.pages.dom() == old(pool)@.pages.dom().insert(self.root())
                &&& final(pool)@.pages.len() <= old(pool)@.pages.len() + 1
                &&& old(pool)@.pages.contains_key(self.root()) ==> final(pool)@.pages.len() == old(pool)@.pages.len()
                &&& final(pool)@ == with_node(
                    old(pool)@,
                    NodeView {
                        page_id: self.root(),
                        is_leaf: true,
                        entries: Seq::empty(),
                        children: Seq::empty(),
                    },
                )
                &&& self.height() == 0 ==> self.wf(final(pool)@) && self.entries(final(pool)@)
                    == Seq::<Entry>::empty()
            },
    {
        let root = BTreeNode::new(self.root_page_id, true);
        proof {
            reveal(BTree::wf);
            if pool_ok(pool@) && self.root() < pool@.disk.next_page_id {
                assert(node_ok(root@, self.root(), 0, 0));
                crate::index::shape::lemma_node_fits(root@, self.root(), 0, 0);
                lemma_with_node(pool@, root@);
                reveal(with_node);
                assert(with_node(pool@, root@).pages.dom() =~= pool@.pages.dom().insert(
                    self.root(),
                ));
            }
        }
        Self::write_node(&root, pool)
    }

    /// The value stored against `key`, if there is one.
    pub fn search(&self, key: i32, pool: &mut BufferPool) -> (res: Result<
        Option<Value>,
        DatabaseError,
    >)
        ensures
            final(pool)@.capacity == old(pool)@.capacity,
            final(pool)@.disk == old(pool)@.disk,
            self.wf(old(pool)@) ==> {
                &&& final(pool)@ == old(pool)@
                &&& res matches Ok(found)
                &&& match found {
                    Some(value) => self.entries(old(pool)@).contains((key, value@)) && small(
                        (key, value@),
                    ),
                    None => !has_key(self.entries(old(pool)@), key),
                }
            },
    {
        proof {
            reveal(BTree::wf);
        }
        let ghost start = pool@;
        let ghost ok = self.wf(start);
        let ghost all = self.entries(start);
        let ghost mut h = self.height();
        let ghost mut min = 0nat;
        let mut current = self.root_page_id;
        let mut fuel = self.fuel();
        loop
            invariant
                pool@.capacity == start.capacity,
                pool@.disk == start.disk,
                start == old(pool)@,
                all == self.entries(start),
                ok == self.wf(start),
                ok ==> {
                    &&& pool@ == start
                    &&& h <= fuel
                    &&& subtree(start, current, h, min)
                    &&& sorted(contents(start, current, h))
                    &&& has_key(all, key) <==> has_key(contents(start, current, h), key)
                    &&& forall|e: Entry|
                        e.0 == key ==> (all.contains(e) <==> contents(start, current, h).contains(
                            e,
                        ))
                },
            decreases fuel,
        {
            let node = self.get_node(current, pool)?;
            let idx = node.find(key, false);
            let ghost cs = children_contents(start, node@, (h - 1) as nat);
            let ghost es = node@.entries;
            proof {
                lemma_first_from(es, key, false, 0);
            }
            if idx < node.entries.len() && node.entries[idx].key == key {
                let value = node.entries[idx].value.clone();
                proof {
                    if ok {
                        assert(es[idx as int] == (key, value@));
                        assert(small(es[idx as int]));
                        if h > 0 {
                            lemma_flat_entry_place(cs, es, idx as int);
                        }
                        assert(contents(start, current, h).contains((key, value@)));
                    }
                }
                return Ok(Some(value));
            }
            if node.is_leaf {
                proof {
                    if ok {
                        assert(contents(start, current, h) == es);
                        if has_key(es, key) {
                            let j = choose|j: int| 0 <= j < es.len() && (#[trigger] es[j]).0 == key;
                            if j < idx {
                                assert(es[j].0 < key);
                            } else {
                                assert(es[idx as int].0 <= es[j].0);
                            }
                        }
                    }
                }
                return Ok(None);
            }
            if idx >= node.children.len() || fuel == 0 {
                return Err(DatabaseError::InvalidData(String::from_str("Malformed tree")));
            }
            proof {
                if ok {
                    lemma_flat_key_in_child(cs, es, idx as int, key);
                    lemma_flat_bounds(cs, es, idx as int);
                    assert(cs[idx as int] == contents(
                        start,
                        node@.children[idx as int],
                        (h - 1) as nat,
                    ));
                    h = (h - 1) as nat;
                    min = MIN_KEYS as nat;
                }
            }
            current = node.children[idx];
            fuel -= 1;
        }
    }

    /// Appends what the subtree under `page_id` holds to `result`, in key
    /// order. The subtree may be as high as the tree, or `MAX_DEPTH`.
    pub fn traverse(
        &self,
        page_id: u32,
        pool: &mut BufferPool,
        result: &mut Vec<(i32, Value)>,
    ) -> (res: Result<(), DatabaseError>)
        ensures
            final(pool)@.capacity == old(pool)@.capacity,
            final(pool)@.disk == old(pool)@.disk,
            forall|h: nat, min: nat|
                #![trigger subtree(old(pool)@, page_id, h, min)]
                subtree(old(pool)@, page_id, h, min) && (h <= self.height() || h <= MAX_DEPTH) ==> {
                    &&& res is Ok
                    &&& final(pool)@ == old(pool)@
                    &&& pairs_view(final(result)@) == pairs_view(old(result)@) + contents(
                        old(pool)@,
                        page_id,
                        h,
                    )
                },
    {
        let ghost start = pool@;
        let ghost (h0, min0) = choose|h: nat, min: nat|
            #![trigger subtree(start, page_id, h, min)]
            subtree(start, page_id, h, min) && (h <= self.height() || h <= MAX_DEPTH);
        let res = self.traverse_from(page_id, pool, result, self.fuel(), Ghost(h0), Ghost(min0));
        proof {
            assert forall|h: nat, min: nat| #![trigger subtree(start, page_id, h, min)]
                subtree(start, page_id, h, min) && (h <= self.height() || h <= MAX_DEPTH) implies {
                &&& res is Ok
                &&& pool@ == start
                &&& pairs_view(result@) == pairs_view(old(result)@) + contents(start, page_id, h)
            } by {
                lemma_height_unique(start, page_id, h, min, h0, min0);
            }
        }
        res
    }

    /// Appends what the subtree of height `h` under `page_id` holds, going
    /// down `fuel` levels at most.
    fn traverse_from(
        &self,
        page_id: u32,
        pool: &mut BufferPool,
        result: &mut Vec<(i32, Value)>,
        fuel: usize,
        Ghost(h): Ghost<nat>,
        Ghost(min): Ghost<nat>,
    ) -> (res: Result<(), DatabaseError>)
        ensures
            final(pool)@.capacity == old(pool)@.capacity,
            final(pool)@.disk == old(pool)@.disk,
            subtree(old(pool)@, page_id, h, min) && h <= fuel ==> {
                &&& res is Ok
                &&& final(pool)@ == old(pool)@
                &&& pairs_view(final(result)@) == pairs_view(old(result)@) + contents(
                    old(pool)@,
                    page_id,
                    h,
                )
            },
        decreases fuel,
    {
        let ghost start = pool@;
        let ghost ok = subtree(start, page_id, h, min) && h <= fuel;
        let ghost before = pairs_view(result@);
        let node = self.get_node(page_id, pool)?;
        let ghost cs = children_contents(start, node@, (h - 1) as nat);
        let ghost es = node@.entries;
        if node.is_leaf {
            let mut i: usize = 0;
            while i < node.entries.len()
                invariant
                    i <= node.entries@.len(),
                    es == node@.entries,
                    pairs_view(result@) == before + es.take(i as int),
                decreases node.entries@.len() - i,
            {
                let entry = &node.entries[i];
                let value = entry.value.clone();
                assert(pairs_view(result@.push((entry.key, value))) =~= pairs_view(result@).push(
                    (entry.key, value@),
                ));
                result.push((entry.key, value));
                i += 1;
                assert(es.take(i as int) =~= es.take(i - 1).push(es[i - 1]));
            }
            assert(es.take(i as int) =~= es);
            return Ok(());
        }
        if fuel == 0 || node.children.len() == 0 || node.children.len() - 1 != node.entries.len() {
            return Err(DatabaseError::InvalidData(String::from_str("Malformed tree")));
        }
        let mut i: usize = 0;
        while i < node.children.len()
            invariant
                i <= node.children@.len() == node.entries@.len() + 1,
                fuel > 0,
                start == old(pool)@,
                es == node@.entries,
                cs == children_contents(start, node@, (h - 1) as nat),
                pool@.capacity == start.capacity,
                pool@.disk == start.disk,
                ok == (subtree(start, page_id, h, min) && h <= fuel),
                ok ==> node_at(start, page_id) == Some(node@) && h > 0,
                ok ==> pool@ == start,
                ok ==> i <= es.len() ==> pairs_view(result@) == before + flat_upto(
                    cs,
                    es,
                    i as int,
                ),
                ok ==> i == node.children@.len() ==> pairs_view(result@) == before + flat(cs, es),
            decreases node.children@.len() - i,
        {
            let ghost so_far = pairs_view(result@);
            self.traverse_from(
                node.children[i],
                pool,
                result,
                fuel - 1,
                Ghost((h - 1) as nat),
                Ghost(MIN_KEYS as nat),
            )?;
            proof {
                if ok {
                    assert(subtree(
                        start,
                        node@.children[i as int],
                        (h - 1) as nat,
                        MIN_KEYS as nat,
                    ));
                    assert(cs[i as int] == contents(
                        start,
                        node@.children[i as int],
                        (h - 1) as nat,
                    ));
                    assert(pairs_view(result@) == so_far + cs[i as int]);
                }
            }
            if i < node.entries.len() {
                let entry = &node.entries[i];
                let value = entry.value.clone();
                assert(pairs_view(result@.push((entry.key, value))) =~= pairs_view(result@).push(
                    (entry.key, value@),
                ));
                result.push((entry.key, value));
                proof {
                    if ok {
                        assert(pairs_view(result@) =~= before + flat_upto(cs, es, i + 1));
                    }
                }
            } else {
                proof {
                    if ok {
                        lemma_flat_split(cs, es, i as int);
                        assert(pairs_view(result@) =~= before + flat(cs, es));
                    }
                }
            }
            i += 1;
        }
        Ok(())
    }

    /// All that the tree holds, in key order.
    pub fn all(&self, pool: &mut BufferPool) -> (res: Result<Vec<(i32, Value)>, DatabaseError>)
        ensures
            final(pool)@.capacity == old(pool)@.capacity,
            final(pool)@.disk == old(pool)@.disk,
            self.wf(old(pool)@) ==> {
                &&& final(pool)@ == old(pool)@
                &&& res matches Ok(pairs)
                &&& pairs_view(pairs@) == self.entries(old(pool)@)
                &&& sorted(pairs_view(pairs@))
            },
    {
        proof {
            reveal(BTree::wf);
        }
        let mut result: Vec<(i32, Value)> = Vec::new();
        assert(pairs_view(result@) =~= Seq::<Entry>::empty());
        self.traverse_from(
            self.root_page_id,
            pool,
            &mut result,
            self.fuel(),
            Ghost(self.height()),
            Ghost(0),
        )?;
        assert(Seq::<Entry>::empty() + self.entries(old(pool)@) =~= self.entries(old(pool)@));
        Ok(result)
    }
}

} // verus!
