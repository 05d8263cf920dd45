//! The tree as it lies in the buffer pool: which pages make up a subtree,
//! when they form a well-formed B-tree, and what the subtree holds.

use crate::bytes::{lemma_le_bytes_len, twos};
use crate::index::layout::{Entry, lemma_encode_len, lemma_node_round_trip, NodeView};
use crate::index::node::{MAX_KEYS, MIN_KEYS};
use crate::index::order::flat;
use crate::storage::buffer_pool::{all_clean, PoolView};
use crate::storage::disk_manager::{
    block, block_image, DiskManager, DiskView, lemma_written_block, lemma_written_len, written,
    zeros,
};
use crate::storage::page::{lemma_page_round_trip, PAGE_SIZE, PageHeader, PageView, PAYLOAD_SIZE};
use crate::storage::value::ValueView;
use vstd::prelude::*;
use vstd::utf8::*;

verus! {

/// The most bytes that the layout of a value in the tree takes. With it a
/// node of `MAX_KEYS` entries fits a page's payload.
pub const MAX_VALUE_SIZE: usize = 1351;

/// Whether the entry's value is small enough for the tree: any value but a
/// string whose byte layout, five bytes and the bytes of the string, is
/// longer than `MAX_VALUE_SIZE`.
pub open spec fn small(entry: Entry) -> bool {
    entry.1 matches ValueView::String(s) ==> encode_utf8(s).len() + 5 <= MAX_VALUE_SIZE
}

/// A small value has a byte layout, of `MAX_VALUE_SIZE` bytes at most.
pub proof fn lemma_small_layout(entry: Entry)
    requires
        small(entry),
    ensures
        entry.1.encodable(),
        entry.1.encode().len() <= MAX_VALUE_SIZE,
{
    match entry.1 {
        ValueView::Integer(i) => {
            lemma_le_bytes_len(twos(i as int, 8), 8);
        },
        ValueView::Float(bits) => {
            lemma_le_bytes_len(bits as nat, 8);
        },
        ValueView::String(s) => {
            lemma_le_bytes_len(encode_utf8(s).len(), 4);
        },
        _ => {},
    }
}

/// The page that a node is written as: a payload of the node's bytes, then
/// zeros; clean and not pinned.
pub open spec fn node_page(node: NodeView) -> PageView {
    PageView {
        header: PageHeader { page_id: node.page_id, record_count: 0 },
        data: node.encode() + zeros(PAYLOAD_SIZE - node.encode().len()),
        is_dirty: false,
        pin_count: 0,
    }
}

/// The node in the cached page `id`, if the page is cached and holds one.
pub open spec fn node_at(pool: PoolView, id: u32) -> Option<NodeView> {
    if pool.pages.contains_key(id) {
        NodeView::decode(pool.pages[id].data)
    } else {
        None
    }
}

/// Whether page `id` is in the cache and on disk, the same in both.
pub open spec fn stored(pool: PoolView, id: u32) -> bool {
    pool.pages.contains_key(id) && pool.disk.page(id) == Some(pool.pages[id])
}

/// Whether the pool has a finite cache and a disk that holds every
/// allocated page at an offset that the machine can address.
pub open spec fn pool_ok(pool: PoolView) -> bool {
    &&& pool.pages.dom().finite()
    &&& pool.disk.next_page_id * PAGE_SIZE <= usize::MAX
    &&& pool.disk.heap.len() >= pool.disk.next_page_id * PAGE_SIZE
}

/// Whether `node` can be the node of page `id` at height `h` (a leaf has
/// height 0), with `min` entries or more.
pub open spec fn node_ok(node: NodeView, id: u32, h: nat, min: nat) -> bool {
    &&& node.page_id == id
    &&& min <= node.entries.len() <= MAX_KEYS
    &&& forall|i: int| 0 <= i < node.entries.len() ==> small(#[trigger] node.entries[i])
    &&& if h == 0 {
        node.is_leaf && node.children.len() == 0
    } else {
        !node.is_leaf && node.children.len() == node.entries.len() + 1
    }
}

/// The pages of the subtree of height `h` under page `id`.
pub open spec fn pages_of(pool: PoolView, id: u32, h: nat) -> Set<u32>
    decreases h, 0nat,
{
    match node_at(pool, id) {
        Some(node) => if h > 0 {
            pages_under(pool, node.children, (h - 1) as nat, node.children.len()).insert(id)
        } else {
            set![id]
        },
        None => set![id],
    }
}

/// The pages of the subtrees of height `h` under the first `k` of the
/// pages `ids`.
pub open spec fn pages_under(pool: PoolView, ids: Seq<u32>, h: nat, k: nat) -> Set<u32>
    decreases h, k,
{
    if k == 0 {
        Set::empty()
    } else {
        pages_under(pool, ids, h, (k - 1) as nat).union(pages_of(pool, ids[k - 1], h))
    }
}

/// Whether the pages under `id` form a B-tree of height `h`: every page is
/// allocated, cached and on disk; every node has at most `MAX_KEYS` entries
/// and at least `MIN_KEYS`, the topmost at least `min`; an internal node has
/// one child more than entries; all leaves are at height 0; and no page
/// occurs twice.
pub open spec fn subtree(pool: PoolView, id: u32, h: nat, min: nat) -> bool
    decreases h,
{
    &&& id < pool.disk.next_page_id
    &&& stored(pool, id)
    &&& match node_at(pool, id) {
        None => false,
        Some(node) => {
            &&& node_ok(node, id, h, min)
            &&& h > 0 ==> {
                &&& forall|i: int|
                    0 <= i < node.children.len() ==> subtree(
                        pool,
                        #[trigger] node.children[i],
                        (h - 1) as nat,
                        MIN_KEYS as nat,
                    )
                &&& forall|i: int|
                    0 <= i < node.children.len() ==> !pages_of(
                        pool,
                        #[trigger] node.children[i],
                        (h - 1) as nat,
                    ).contains(id)
                &&& forall|i: int, j: int|
                    0 <= i < j < node.children.len() ==> pages_of(
                        pool,
                        #[trigger] node.children[i],
                        (h - 1) as nat,
                    ).disjoint(pages_of(pool, #[trigger] node.children[j], (h - 1) as nat))
            }
        },
    }
}

/// What the children of `node`, each of height `h`, hold.
pub open spec fn children_contents(pool: PoolView, node: NodeView, h: nat) -> Seq<Seq<Entry>>
    decreases h, 1nat,
{
    Seq::new(node.children.len(), |i: int| contents(pool, node.children[i], h))
}

/// What the subtree of height `h` under page `id` holds, in key order.
pub open spec fn contents(pool: PoolView, id: u32, h: nat) -> Seq<Entry>
    decreases h, 0nat,
{
    match node_at(pool, id) {
        None => Seq::empty(),
        Some(node) => if h == 0 {
            node.entries
        } else {
            flat(children_contents(pool, node, (h - 1) as nat), node.entries)
        },
    }
}

/// Whether page `q` is the same in both pools, in the cache and on disk.
pub open spec fn same_page(a: PoolView, b: PoolView, q: u32) -> bool {
    &&& a.pages.contains_key(q) == b.pages.contains_key(q)
    &&& a.pages.contains_key(q) ==> a.pages[q] == b.pages[q]
    &&& a.disk.page(q) == b.disk.page(q)
}

/// A page is under the first `k` of `ids` exactly if it is in the subtree
/// of one of them.
pub proof fn lemma_pages_under(pool: PoolView, ids: Seq<u32>, h: nat, k: nat, q: u32)
    ensures
        pages_under(pool, ids, h, k).contains(q) <==> exists|i: int|
            0 <= i < k && #[trigger] pages_of(pool, ids[i], h).contains(q),
    decreases k,
{
    if k > 0 {
        lemma_pages_under(pool, ids, h, (k - 1) as nat, q);
        if pages_under(pool, ids, h, k).contains(q) {
            if pages_of(pool, ids[k - 1], h).contains(q) {
            } else {
                let i = choose|i: int|
                    0 <= i < k - 1 && #[trigger] pages_of(pool, ids[i], h).contains(q);
                assert(pages_of(pool, ids[i], h).contains(q));
            }
        }
        if exists|i: int| 0 <= i < k && #[trigger] pages_of(pool, ids[i], h).contains(q) {
            let i = choose|i: int| 0 <= i < k && #[trigger] pages_of(pool, ids[i], h).contains(q);
            if i < k - 1 {
                assert(pages_of(pool, ids[i], h).contains(q));
            }
        }
    }
}

/// The pages of a child's subtree are pages of the parent's subtree.
pub proof fn lemma_child_pages(pool: PoolView, id: u32, h: nat, i: int, q: u32)
    requires
        h > 0,
        node_at(pool, id) is Some,
        0 <= i < node_at(pool, id).unwrap().children.len(),
        pages_of(pool, node_at(pool, id).unwrap().children[i], (h - 1) as nat).contains(q),
    ensures
        pages_of(pool, id, h).contains(q),
{
    let node = node_at(pool, id).unwrap();
    lemma_pages_under(pool, node.children, (h - 1) as nat, node.children.len(), q);
}

/// A page of a subtree is its root or a page of a child's subtree.
pub proof fn lemma_page_place(pool: PoolView, id: u32, h: nat, q: u32) -> (i: int)
    requires
        pages_of(pool, id, h).contains(q),
        q != id,
    ensures
        h > 0,
        node_at(pool, id) is Some,
        0 <= i < node_at(pool, id).unwrap().children.len(),
        pages_of(pool, node_at(pool, id).unwrap().children[i], (h - 1) as nat).contains(q),
{
    let node = node_at(pool, id).unwrap();
    lemma_pages_under(pool, node.children, (h - 1) as nat, node.children.len(), q);
    choose|i: int|
        0 <= i < node.children.len() && #[trigger] pages_of(
            pool,
            node.children[i],
            (h - 1) as nat,
        ).contains(q)
}

/// The pages of a subtree are allocated and stored, and its root is one of
/// them.
pub proof fn lemma_pages_stored(pool: PoolView, id: u32, h: nat, min: nat)
    requires
        subtree(pool, id, h, min),
    ensures
        pages_of(pool, id, h).contains(id),
        forall|q: u32|
            #[trigger] pages_of(pool, id, h).contains(q) ==> q < pool.disk.next_page_id && stored(
                pool,
                q,
            ),
    decreases h,
{
    let node = node_at(pool, id).unwrap();
    if h > 0 {
        assert forall|q: u32| #[trigger] pages_of(pool, id, h).contains(q) implies q
            < pool.disk.next_page_id && stored(pool, q) by {
            if q != id {
                let i = lemma_page_place(pool, id, h, q);
                lemma_pages_stored(pool, node.children[i], (h - 1) as nat, MIN_KEYS as nat);
            }
        }
    }
}

/// A subtree whose pages are the same in another pool is the same subtree
/// there.
pub proof fn lemma_frame(a: PoolView, b: PoolView, id: u32, h: nat, min: nat)
    requires
        subtree(a, id, h, min),
        a.disk.next_page_id <= b.disk.next_page_id,
        forall|q: u32| #[trigger] pages_of(a, id, h).contains(q) ==> same_page(a, b, q),
    ensures
        subtree(b, id, h, min),
        pages_of(b, id, h) == pages_of(a, id, h),
        contents(b, id, h) == contents(a, id, h),
    decreases h,
{
    lemma_pages_stored(a, id, h, min);
    let node = node_at(a, id).unwrap();
    assert(same_page(a, b, id));
    assert(node_at(b, id) == Some(node));
    if h > 0 {
        let g = (h - 1) as nat;
        assert forall|i: int| 0 <= i < node.children.len() implies subtree(
            b,
            #[trigger] node.children[i],
            g,
            MIN_KEYS as nat,
        ) && pages_of(b, node.children[i], g) == pages_of(a, node.children[i], g) && contents(
            b,
            node.children[i],
            g,
        ) == contents(a, node.children[i], g) by {
            assert forall|q: u32| #[trigger]
                pages_of(a, node.children[i], g).contains(q) implies same_page(a, b, q) by {
                lemma_child_pages(a, id, h, i, q);
            }
            lemma_frame(a, b, node.children[i], g, MIN_KEYS as nat);
        }
        assert forall|q: u32| pages_of(b, id, h).contains(q) == pages_of(a, id, h).contains(q) by {
            if pages_of(a, id, h).contains(q) && q != id {
                let i = lemma_page_place(a, id, h, q);
                lemma_child_pages(b, id, h, i, q);
            }
            if pages_of(b, id, h).contains(q) && q != id {
                let i = lemma_page_place(b, id, h, q);
                lemma_child_pages(a, id, h, i, q);
            }
        }
        assert(pages_of(b, id, h) =~= pages_of(a, id, h));
        assert(children_contents(b, node, g) =~= children_contents(a, node, g));
    }
}

/// Whether the node can be written to a page: it has a byte layout that
/// fits the payload.
pub open spec fn fits(node: NodeView) -> bool {
    node.encodable() && node.encode().len() <= PAYLOAD_SIZE
}

/// The pool after `node` was written to its page, in the cache and on disk.
#[verifier::opaque]
pub open spec fn with_node(pool: PoolView, node: NodeView) -> PoolView {
    PoolView {
        pages: pool.pages.insert(node.page_id, node_page(node)),
        disk: DiskView {
            heap: written(
                pool.disk.heap,
                node.page_id * PAGE_SIZE,
                block_image(node_page(node)),
            ),
            next_page_id: pool.disk.next_page_id,
        },
        capacity: pool.capacity,
    }
}

/// The pool after page `id` was freed: out of the cache, zeros on disk.
#[verifier::opaque]
pub open spec fn without_page(pool: PoolView, id: u32) -> PoolView {
    PoolView {
        pages: pool.pages.remove(id),
        disk: DiskView {
            heap: written(pool.disk.heap, id * PAGE_SIZE, zeros(PAGE_SIZE as int)),
            next_page_id: pool.disk.next_page_id,
        },
        capacity: pool.capacity,
    }
}

/// A node of the tree fits a page.
pub proof fn lemma_node_fits(node: NodeView, id: u32, h: nat, min: nat)
    requires
        node_ok(node, id, h, min),
    ensures
        fits(node),
        node.shaped(),
{
    assert forall|i: int| 0 <= i < node.entries.len() implies (#[trigger] node.entries[i]).1.encode().len()
        <= MAX_VALUE_SIZE && node.entries[i].1.encodable() by {
        assert(small(node.entries[i]));
        lemma_small_layout(node.entries[i]);
    }
    lemma_encode_len(node, MAX_VALUE_SIZE as nat);
    assert(node.entries.len() * (4 + MAX_VALUE_SIZE) <= 3 * (4 + MAX_VALUE_SIZE)) by (nonlinear_arith)
        requires
            node.entries.len() <= 3,
    ;
}

/// Writing a node to an allocated page puts the node there, in the cache
/// and on disk, and leaves every other page as it was.
pub proof fn lemma_with_node(pool: PoolView, node: NodeView)
    requires
        pool_ok(pool),
        node.page_id < pool.disk.next_page_id,
        fits(node),
        node.shaped(),
    ensures
        pool_ok(with_node(pool, node)),
        DiskManager::write_outcome(pool.disk, node_page(node)) == Ok::<Seq<u8>, bool>(
            with_node(pool, node).disk.heap,
        ),
        node_at(with_node(pool, node), node.page_id) == Some(node),
        stored(with_node(pool, node), node.page_id),
        forall|q: u32| q != node.page_id ==> same_page(pool, with_node(pool, node), q),
        with_node(pool, node).pages.len() <= pool.pages.len() + 1,
        pool.pages.contains_key(node.page_id) ==> with_node(pool, node).pages.len()
            == pool.pages.len(),
        with_node(pool, node).capacity == pool.capacity,
        with_node(pool, node).disk.next_page_id == pool.disk.next_page_id,
        all_clean(pool) ==> all_clean(with_node(pool, node)),
{
    reveal(with_node);
    let after = with_node(pool, node);
    let page = node_page(node);
    let id = node.page_id;
    let pad = zeros(PAYLOAD_SIZE - node.encode().len());
    lemma_node_round_trip(node, pad);
    lemma_page_round_trip(page);
    assert(block_image(page) =~= page.encode());
    lemma_written_len(pool.disk.heap, id * PAGE_SIZE, block_image(page));
    lemma_written_block(pool.disk.heap, id, block_image(page), id);
    assert forall|q: u32| q != id implies same_page(pool, after, q) by {
        lemma_written_block(pool.disk.heap, id, block_image(page), q);
    }
    if pool.pages.contains_key(id) {
        assert(after.pages.dom() =~= pool.pages.dom());
    }
}

/// Making a new page leaves every other page as it was.
pub proof fn lemma_with_new_page(pool: PoolView)
    requires
        pool_ok(pool),
        pool.disk.can_allocate(),
    ensures
        pool_ok(pool.with_new_page()),
        pool.with_new_page().disk.next_page_id == pool.disk.next_page_id + 1,
        pool.with_new_page().pages.contains_key(pool.disk.next_page_id),
        forall|q: u32| q != pool.disk.next_page_id ==> same_page(pool, pool.with_new_page(), q),
        pool.with_new_page().pages.len() <= pool.pages.len() + 1,
        pool.with_new_page().capacity == pool.capacity,
        all_clean(pool) ==> all_clean(pool.with_new_page()),
{
    let after = pool.with_new_page();
    let id = pool.disk.next_page_id;
    lemma_written_len(pool.disk.heap, id * PAGE_SIZE, zeros(PAGE_SIZE as int));
    assert forall|q: u32| q != id implies same_page(pool, after, q) by {
        lemma_written_block(pool.disk.heap, id, zeros(PAGE_SIZE as int), q);
        if block(pool.disk.heap, q) is None {
            assert(block(after.disk.heap, q) is None);
        }
    }
}

/// Freeing an allocated page leaves every other page as it was.
pub proof fn lemma_without_page(pool: PoolView, id: u32)
    requires
        pool_ok(pool),
        id < pool.disk.next_page_id,
    ensures
        pool_ok(without_page(pool, id)),
        DiskManager::free_outcome(pool.disk, id) == Ok::<Seq<u8>, bool>(
            without_page(pool, id).disk.heap,
        ),
        forall|q: u32| q != id ==> same_page(pool, without_page(pool, id), q),
        without_page(pool, id).pages.len() <= pool.pages.len(),
        without_page(pool, id).capacity == pool.capacity,
        without_page(pool, id).disk.next_page_id == pool.disk.next_page_id,
        !without_page(pool, id).pages.contains_key(id),
        all_clean(pool) ==> all_clean(without_page(pool, id)),
{
    reveal(without_page);
    let after = without_page(pool, id);
    lemma_written_len(pool.disk.heap, id * PAGE_SIZE, zeros(PAGE_SIZE as int));
    assert forall|q: u32| q != id implies same_page(pool, after, q) by {
        lemma_written_block(pool.disk.heap, id, zeros(PAGE_SIZE as int), q);
    }
    if pool.pages.contains_key(id) {
        assert(after.pages.len() == pool.pages.len() - 1);
    } else {
        assert(after.pages.dom() =~= pool.pages.dom());
    }
}

/// A page is the root of a well-formed subtree of one height only.
pub proof fn lemma_height_unique(pool: PoolView, id: u32, h1: nat, min1: nat, h2: nat, min2: nat)
    requires
        subtree(pool, id, h1, min1),
        subtree(pool, id, h2, min2),
    ensures
        h1 == h2,
    decreases h1,
{
    let node = node_at(pool, id).unwrap();
    if h1 > 0 && h2 > 0 {
        assert(subtree(pool, node.children[0], (h1 - 1) as nat, MIN_KEYS as nat));
        assert(subtree(pool, node.children[0], (h2 - 1) as nat, MIN_KEYS as nat));
        lemma_height_unique(
            pool,
            node.children[0],
            (h1 - 1) as nat,
            MIN_KEYS as nat,
            (h2 - 1) as nat,
            MIN_KEYS as nat,
        );
    }
}

/// How the pool may change where the subtree of height `h` under page
/// `id` becomes the subtree of height `h2` under page `id2`: pages that were
/// allocated and are not in the subtree stay as they were, the new
/// subtree's pages are pages of the old one or newly allocated ones, and
/// the cache grows by no more pages than were allocated and gets no dirty
/// page where it had none.
pub open spec fn changed(a: PoolView, b: PoolView, id: u32, h: nat, id2: u32, h2: nat) -> bool {
    &&& pool_ok(b)
    &&& b.capacity == a.capacity
    &&& a.disk.next_page_id <= b.disk.next_page_id
    &&& forall|q: u32|
        q < a.disk.next_page_id && !pages_of(a, id, h).contains(q) ==> #[trigger] same_page(
            a,
            b,
            q,
        )
    &&& forall|q: u32| #[trigger]
        pages_of(b, id2, h2).contains(q) ==> pages_of(a, id, h).contains(q)
            || a.disk.next_page_id <= q
    &&& b.pages.len() <= a.pages.len() + (b.disk.next_page_id - a.disk.next_page_id)
    &&& all_clean(a) ==> all_clean(b)
}

/// How the pool may change where the subtree of height `h` under page
/// `id` is changed and stays under that page.
pub open spec fn updated(a: PoolView, b: PoolView, id: u32, h: nat) -> bool {
    changed(a, b, id, h, id, h)
}

/// One change of a subtree after another is a change of the subtree.
pub proof fn lemma_changed_twice(
    a: PoolView,
    b: PoolView,
    c: PoolView,
    id: u32,
    h: nat,
    id2: u32,
    h2: nat,
    id3: u32,
    h3: nat,
)
    requires
        changed(a, b, id, h, id2, h2),
        changed(b, c, id2, h2, id3, h3),
    ensures
        changed(a, c, id, h, id3, h3),
{
    assert forall|q: u32|
        q < a.disk.next_page_id && !pages_of(a, id, h).contains(q) implies #[trigger] same_page(
        a,
        c,
        q,
    ) by {
        assert(same_page(a, b, q));
        assert(same_page(b, c, q));
    }
}

/// One change of a subtree after another is a change of the subtree.
pub proof fn lemma_updated_twice(a: PoolView, b: PoolView, c: PoolView, id: u32, h: nat)
    requires
        updated(a, b, id, h),
        updated(b, c, id, h),
    ensures
        updated(a, c, id, h),
{
    lemma_changed_twice(a, b, c, id, h, id, h, id, h);
}

/// A pool that is as it was is changed in no page.
pub proof fn lemma_unchanged(a: PoolView, id: u32, h: nat)
    requires
        pool_ok(a),
    ensures
        updated(a, a, id, h),
{
}

/// A change of the subtree under child `i` is a change of the subtree under
/// the parent, which is well-formed after it as before. The parent holds
/// what it held, but for the child.
pub proof fn lemma_lift(a: PoolView, b: PoolView, id: u32, h: nat, min: nat, i: int)
    requires
        h > 0,
        subtree(a, id, h, min),
        0 <= i < node_at(a, id).unwrap().children.len(),
        updated(a, b, node_at(a, id).unwrap().children[i], (h - 1) as nat),
        subtree(b, node_at(a, id).unwrap().children[i], (h - 1) as nat, MIN_KEYS as nat),
    ensures
        subtree(b, id, h, min),
        updated(a, b, id, h),
        node_at(b, id) == node_at(a, id),
        children_contents(b, node_at(a, id).unwrap(), (h - 1) as nat) == children_contents(
            a,
            node_at(a, id).unwrap(),
            (h - 1) as nat,
        ).update(i, contents(b, node_at(a, id).unwrap().children[i], (h - 1) as nat)),
{
    let node = node_at(a, id).unwrap();
    let g = (h - 1) as nat;
    let child = node.children[i];
    lemma_pages_stored(a, id, h, min);
    lemma_pages_stored(a, child, g, MIN_KEYS as nat);
    assert(subtree(a, child, g, MIN_KEYS as nat));
    assert(!pages_of(a, child, g).contains(id));
    assert(same_page(a, b, id));
    assert(node_at(b, id) == Some(node));
    assert forall|j: int| 0 <= j < node.children.len() && j != i implies subtree(
        b,
        #[trigger] node.children[j],
        g,
        MIN_KEYS as nat,
    ) && pages_of(b, node.children[j], g) == pages_of(a, node.children[j], g) && contents(
        b,
        node.children[j],
        g,
    ) == contents(a, node.children[j], g) by {
        let other = node.children[j];
        assert(subtree(a, other, g, MIN_KEYS as nat));
        lemma_pages_stored(a, other, g, MIN_KEYS as nat);
        if i < j {
            assert(pages_of(a, node.children[i], g).disjoint(pages_of(a, node.children[j], g)));
        } else {
            assert(pages_of(a, node.children[j], g).disjoint(pages_of(a, node.children[i], g)));
        }
        assert forall|q: u32| #[trigger] pages_of(a, other, g).contains(q) implies same_page(
            a,
            b,
            q,
        ) by {
            assert(!pages_of(a, child, g).contains(q));
        }
        lemma_frame(a, b, other, g, MIN_KEYS as nat);
    }
    assert(children_contents(b, node, g) =~= children_contents(a, node, g).update(
        i,
        contents(b, child, g),
    ));
    // The children's subtrees in `b` do not hold the parent and do not overlap.
    assert forall|j: int| 0 <= j < node.children.len() implies !pages_of(
        b,
        #[trigger] node.children[j],
        g,
    ).contains(id) by {
        if j == i {
            if pages_of(b, child, g).contains(id) {
                assert(pages_of(a, child, g).contains(id) || a.disk.next_page_id <= id);
            }
        }
    }
    assert forall|j: int, k: int| 0 <= j < k < node.children.len() implies pages_of(
        b,
        #[trigger] node.children[j],
        g,
    ).disjoint(pages_of(b, #[trigger] node.children[k], g)) by {
        assert(pages_of(a, node.children[j], g).disjoint(pages_of(a, node.children[k], g)));
        assert forall|q: u32|
            !(pages_of(b, node.children[j], g).contains(q) && pages_of(
                b,
                node.children[k],
                g,
            ).contains(q)) by {
            if pages_of(b, node.children[j], g).contains(q) && pages_of(
                b,
                node.children[k],
                g,
            ).contains(q) {
                lemma_pages_stored(a, node.children[j], g, MIN_KEYS as nat);
                lemma_pages_stored(a, node.children[k], g, MIN_KEYS as nat);
                if j == i {
                    assert(pages_of(a, child, g).contains(q) || a.disk.next_page_id <= q);
                } else if k == i {
                    assert(pages_of(a, child, g).contains(q) || a.disk.next_page_id <= q);
                }
            }
        }
    }
    assert(subtree(b, id, h, min));
    assert forall|q: u32|
        q < a.disk.next_page_id && !pages_of(a, id, h).contains(q) implies #[trigger] same_page(
        a,
        b,
        q,
    ) by {
        if pages_of(a, child, g).contains(q) {
            lemma_child_pages(a, id, h, i, q);
        }
    }
    assert forall|q: u32| #[trigger] pages_of(b, id, h).contains(q) implies pages_of(
        a,
        id,
        h,
    ).contains(q) || a.disk.next_page_id <= q by {
        if q != id {
            let j = lemma_page_place(b, id, h, q);
            if j == i {
                assert(pages_of(a, child, g).contains(q) || a.disk.next_page_id <= q);
                if pages_of(a, child, g).contains(q) {
                    lemma_child_pages(a, id, h, i, q);
                }
            } else {
                lemma_child_pages(a, id, h, j, q);
            }
        }
    }
}

/// Whether the pool holds `node` in the node's page, in the cache and on
/// disk.
pub open spec fn holds(pool: PoolView, node: NodeView) -> bool {
    stored(pool, node.page_id) && node_at(pool, node.page_id) == Some(node)
}

/// Writing three nodes to three allocated pages puts the nodes there and
/// leaves every other page as it was.
pub proof fn lemma_three_nodes(pool: PoolView, n1: NodeView, n2: NodeView, n3: NodeView)
    requires
        pool_ok(pool),
        n1.page_id < pool.disk.next_page_id,
        n2.page_id < pool.disk.next_page_id,
        n3.page_id < pool.disk.next_page_id,
        n1.page_id != n2.page_id,
        n1.page_id != n3.page_id,
        n2.page_id != n3.page_id,
        fits(n1) && n1.shaped(),
        fits(n2) && n2.shaped(),
        fits(n3) && n3.shaped(),
    ensures
        ({
            let b = with_node(with_node(with_node(pool, n1), n2), n3);
            &&& pool_ok(b)
            &&& b.capacity == pool.capacity
            &&& b.disk.next_page_id == pool.disk.next_page_id
            &&& holds(b, n1)
            &&& holds(b, n2)
            &&& holds(b, n3)
            &&& forall|q: u32|
                q != n1.page_id && q != n2.page_id && q != n3.page_id ==> #[trigger] same_page(
                    pool,
                    b,
                    q,
                )
            &&& (pool.pages.contains_key(n1.page_id) && pool.pages.contains_key(n2.page_id)
                && pool.pages.contains_key(n3.page_id) ==> b.pages.len() == pool.pages.len())
            &&& (all_clean(pool) ==> all_clean(b))
        }),
{
    let a1 = with_node(pool, n1);
    let a2 = with_node(a1, n2);
    let b = with_node(a2, n3);
    lemma_with_node(pool, n1);
    lemma_with_node(a1, n2);
    lemma_with_node(a2, n3);
    assert(same_page(a1, a2, n1.page_id));
    assert(same_page(a2, b, n1.page_id));
    assert(same_page(a2, b, n2.page_id));
    assert(same_page(pool, a1, n2.page_id));
    assert(same_page(pool, a1, n3.page_id));
    assert(same_page(a1, a2, n3.page_id));
    assert forall|q: u32|
        q != n1.page_id && q != n2.page_id && q != n3.page_id implies #[trigger] same_page(
        pool,
        b,
        q,
    ) by {
        assert(same_page(pool, a1, q));
        assert(same_page(a1, a2, q));
        assert(same_page(a2, b, q));
    }
}

/// The least number of entries that is asked of the topmost node of a
/// subtree can be any that the node has.
pub proof fn lemma_subtree_min(pool: PoolView, id: u32, h: nat, min: nat, min2: nat)
    requires
        subtree(pool, id, h, min),
        min2 <= node_at(pool, id).unwrap().entries.len(),
    ensures
        subtree(pool, id, h, min2),
{
}

/// Writing two nodes to two allocated pages and freeing a third puts the
/// nodes there and leaves every other page as it was.
pub proof fn lemma_two_nodes_freed(pool: PoolView, n1: NodeView, n2: NodeView, freed: u32)
    requires
        pool_ok(pool),
        n1.page_id < pool.disk.next_page_id,
        n2.page_id < pool.disk.next_page_id,
        freed < pool.disk.next_page_id,
        n1.page_id != n2.page_id,
        n1.page_id != freed,
        n2.page_id != freed,
        fits(n1) && n1.shaped(),
        fits(n2) && n2.shaped(),
    ensures
        ({
            let b = without_page(with_node(with_node(pool, n1), n2), freed);
            &&& pool_ok(b)
            &&& b.capacity == pool.capacity
            &&& b.disk.next_page_id == pool.disk.next_page_id
            &&& holds(b, n1)
            &&& holds(b, n2)
            &&& forall|q: u32|
                q != n1.page_id && q != n2.page_id && q != freed ==> #[trigger] same_page(
                    pool,
                    b,
                    q,
                )
            &&& (pool.pages.contains_key(n1.page_id) && pool.pages.contains_key(n2.page_id)
                ==> b.pages.len() <= pool.pages.len())
            &&& (all_clean(pool) ==> all_clean(b))
        }),
{
    let a1 = with_node(pool, n1);
    let a2 = with_node(a1, n2);
    let b = without_page(a2, freed);
    lemma_with_node(pool, n1);
    lemma_with_node(a1, n2);
    lemma_without_page(a2, freed);
    assert(same_page(a1, a2, n1.page_id));
    assert(same_page(a2, b, n1.page_id));
    assert(same_page(a2, b, n2.page_id));
    assert(same_page(pool, a1, n2.page_id));
    assert forall|q: u32|
        q != n1.page_id && q != n2.page_id && q != freed implies #[trigger] same_page(
        pool,
        b,
        q,
    ) by {
        assert(same_page(pool, a1, q));
        assert(same_page(a1, a2, q));
        assert(same_page(a2, b, q));
    }
}

/// Writing a node to an allocated page and freeing two others puts the
/// node there and leaves every other page as it was.
pub proof fn lemma_node_two_freed(pool: PoolView, n1: NodeView, f1: u32, f2: u32)
    requires
        pool_ok(pool),
        n1.page_id < pool.disk.next_page_id,
        f1 < pool.disk.next_page_id,
        f2 < pool.disk.next_page_id,
        n1.page_id != f1,
        n1.page_id != f2,
        fits(n1) && n1.shaped(),
    ensures
        ({
            let b = without_page(without_page(with_node(pool, n1), f1), f2);
            &&& pool_ok(b)
            &&& b.capacity == pool.capacity
            &&& b.disk.next_page_id == pool.disk.next_page_id
            &&& holds(b, n1)
            &&& forall|q: u32|
                q != n1.page_id && q != f1 && q != f2 ==> #[trigger] same_page(pool, b, q)
            &&& (pool.pages.contains_key(n1.page_id) ==> b.pages.len() <= pool.pages.len())
            &&& (all_clean(pool) ==> all_clean(b))
        }),
{
    let a1 = with_node(pool, n1);
    let a2 = without_page(a1, f1);
    let b = without_page(a2, f2);
    lemma_with_node(pool, n1);
    lemma_without_page(a1, f1);
    lemma_without_page(a2, f2);
    assert(same_page(a1, a2, n1.page_id));
    assert(same_page(a2, b, n1.page_id));
    assert forall|q: u32| q != n1.page_id && q != f1 && q != f2 implies #[trigger] same_page(
        pool,
        b,
        q,
    ) by {
        assert(same_page(pool, a1, q));
        assert(same_page(a1, a2, q));
        assert(same_page(a2, b, q));
    }
}

} // verus!
