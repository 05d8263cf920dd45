//! Opening a tree that a file holds: the pages under the root are read
//! into the cache one by one and checked, so that what is opened is a
//! well-formed tree with its entries in key order.

use crate::index::bounds::{lemma_entry_held, lemma_node_sorted};
use crate::index::layout::{Entry, NodeView};
use crate::index::node::{BTreeNode, MAX_KEYS, MIN_KEYS};
use crate::index::order::{flat, flat_from, flat_upto, lemma_flat_bounds, lemma_flat_split, sorted};
use crate::index::shape::{
    children_contents, contents, lemma_child_pages, lemma_frame, lemma_page_place,
    lemma_pages_stored, lemma_pages_under, node_at, node_ok, pages_of, pages_under, pool_ok,
    same_page, small, stored, subtree,
};
use crate::index::tree::{BTree, MAX_DEPTH};
use crate::storage::buffer_pool::{all_clean, BufferPool, PoolView};
use crate::storage::error::DatabaseError;
use crate::storage::page::PageView;
use vstd::prelude::*;
use vstd::string::*;

verus! {

/// Whether the key lies between the bounds, where there are bounds.
pub open spec fn bounded(key: i32, lo: Option<i32>, hi: Option<i32>) -> bool {
    &&& lo matches Some(l) ==> l <= key
    &&& hi matches Some(u) ==> key <= u
}

/// Whether the keys of the entries lie between the bounds.
pub open spec fn within(s: Seq<Entry>, lo: Option<i32>, hi: Option<i32>) -> bool {
    forall|k: int| 0 <= k < s.len() ==> bounded((#[trigger] s[k]).0, lo, hi)
}

/// The bound from below of child `i` of a node with the entries `es` and
/// the bound `lo`: the key of the entry before the child.
pub open spec fn lower(es: Seq<Entry>, lo: Option<i32>, i: int) -> Option<i32> {
    if i <= 0 {
        lo
    } else {
        Some(es[i - 1].0)
    }
}

/// The bound from above of child `i` of a node with the entries `es` and
/// the bound `hi`: the key of the entry behind the child.
pub open spec fn upper(es: Seq<Entry>, hi: Option<i32>, i: int) -> Option<i32> {
    if i >= es.len() {
        hi
    } else {
        Some(es[i].0)
    }
}

/// Children in key order, each between the entries around it, and entries
/// in key order read in key order as a whole.
pub proof fn lemma_flat_sorted(
    cs: Seq<Seq<Entry>>,
    es: Seq<Entry>,
    lo: Option<i32>,
    hi: Option<i32>,
    i: int,
)
    requires
        cs.len() == es.len() + 1,
        0 <= i <= es.len(),
        sorted(es),
        within(es, lo, hi),
        forall|j: int|
            0 <= j < cs.len() ==> sorted(#[trigger] cs[j]) && within(
                cs[j],
                lower(es, lo, j),
                upper(es, hi, j),
            ),
    ensures
        sorted(flat_from(cs, es, i)),
        within(flat_from(cs, es, i), lower(es, lo, i), hi),
    decreases es.len() - i,
{
    let all = flat_from(cs, es, i);
    assert(sorted(cs[i]) && within(cs[i], lower(es, lo, i), upper(es, hi, i)));
    if i < es.len() {
        lemma_flat_sorted(cs, es, lo, hi, i + 1);
        let n = cs[i].len() as int;
        let tail = flat_from(cs, es, i + 1);
        assert(all =~= cs[i] + seq![es[i]] + tail);
        assert(bounded(es[i].0, lo, hi));
        if i > 0 {
            assert(es[i - 1].0 <= es[i].0);
        }
        assert forall|k: int| 0 <= k < all.len() implies bounded(
            (#[trigger] all[k]).0,
            lower(es, lo, i),
            hi,
        ) && (k < n ==> all[k].0 <= es[i].0) && (k >= n ==> es[i].0 <= all[k].0) by {
            if k < n {
                assert(all[k] == cs[i][k]);
                assert(bounded(cs[i][k].0, lower(es, lo, i), upper(es, hi, i)));
            } else if k == n {
                assert(all[k] == es[i]);
            } else {
                assert(all[k] == tail[k - n - 1]);
                assert(bounded(tail[k - n - 1].0, lower(es, lo, i + 1), hi));
            }
        }
        assert forall|a: int, b: int| 0 <= a < b < all.len() implies all[a].0 <= all[b].0 by {
            assert(bounded(all[a].0, lower(es, lo, i), hi));
            assert(bounded(all[b].0, lower(es, lo, i), hi));
            if b < n {
                assert(all[a] == cs[i][a] && all[b] == cs[i][b]);
            } else if a > n {
                assert(all[a] == tail[a - n - 1] && all[b] == tail[b - n - 1]);
            }
        }
    } else {
        assert(all == cs[i]);
    }
}

/// Whether the pool `b` is the pool `a` with more pages in its cache, each
/// clean and as it is on disk.
pub open spec fn read_in(a: PoolView, b: PoolView) -> bool {
    &&& b.capacity == a.capacity
    &&& b.disk == a.disk
    &&& forall|q: u32| #[trigger]
        a.pages.contains_key(q) ==> b.pages.contains_key(q) && b.pages[q] == a.pages[q]
    &&& forall|q: u32| #[trigger]
        b.pages.contains_key(q) && !a.pages.contains_key(q) ==> b.disk.page(q) == Some(
            b.pages[q],
        ) && !b.pages[q].is_dirty
    &&& a.pages.dom().finite() ==> b.pages.dom().finite()
}

/// Whether the pages that were read into the cache from `a` to `b` hold
/// the subtree of height `h` under page `id`, in key order and between the
/// bounds.
pub open spec fn opened(
    a: PoolView,
    b: PoolView,
    id: u32,
    h: nat,
    min: nat,
    lo: Option<i32>,
    hi: Option<i32>,
) -> bool {
    &&& subtree(b, id, h, min)
    &&& forall|q: u32| #[trigger]
        pages_of(b, id, h).contains(q) ==> b.pages.contains_key(q) && !a.pages.contains_key(q)
    &&& sorted(contents(b, id, h))
    &&& within(contents(b, id, h), lo, hi)
}

/// Whether child `j` of `node` was opened behind the pool `b`, as a
/// subtree of height `h` between the entries around it.
pub open spec fn child_opened(
    b: PoolView,
    now: PoolView,
    node: NodeView,
    j: int,
    h: nat,
    lo: Option<i32>,
    hi: Option<i32>,
) -> bool {
    opened(
        b,
        now,
        node.children[j],
        h,
        MIN_KEYS as nat,
        lower(node.entries, lo, j),
        upper(node.entries, hi, j),
    )
}

/// Whether the subtrees under the children `j` and `k` of `node` share no
/// page.
pub open spec fn apart(now: PoolView, node: NodeView, j: int, k: int, h: nat) -> bool {
    pages_of(now, node.children[j], h).disjoint(pages_of(now, node.children[k], h))
}

/// Pages read in after pages read in are pages read in.
pub proof fn lemma_read_in_twice(a: PoolView, b: PoolView, c: PoolView)
    requires
        read_in(a, b),
        read_in(b, c),
    ensures
        read_in(a, c),
{
    assert forall|q: u32| #[trigger] a.pages.contains_key(q) implies c.pages.contains_key(q)
        && c.pages[q] == a.pages[q] by {
        assert(b.pages.contains_key(q));
    }
    assert forall|q: u32| #[trigger]
        c.pages.contains_key(q) && !a.pages.contains_key(q) implies c.disk.page(q) == Some(
        c.pages[q],
    ) && !c.pages[q].is_dirty by {
        if b.pages.contains_key(q) {
            assert(c.pages[q] == b.pages[q]);
        }
    }
}

/// A subtree that was opened stays as it is while more pages are read in.
pub proof fn lemma_opened_stays(
    a: PoolView,
    b: PoolView,
    c: PoolView,
    id: u32,
    h: nat,
    min: nat,
    lo: Option<i32>,
    hi: Option<i32>,
)
    requires
        opened(a, b, id, h, min, lo, hi),
        read_in(b, c),
    ensures
        opened(a, c, id, h, min, lo, hi),
        pages_of(c, id, h) == pages_of(b, id, h),
        contents(c, id, h) == contents(b, id, h),
{
    assert forall|q: u32| #[trigger] pages_of(b, id, h).contains(q) implies same_page(
        b,
        c,
        q,
    ) by {
        assert(b.pages.contains_key(q));
    }
    lemma_frame(b, c, id, h, min);
}

/// The pool `a` with every page of its disk in the cache that is not
/// there already.
pub open spec fn all_read(a: PoolView) -> PoolView {
    PoolView {
        pages: Map::new(
            |q: u32| a.pages.contains_key(q) || a.disk.page(q) is Some,
            |q: u32|
                if a.pages.contains_key(q) {
                    a.pages[q]
                } else {
                    a.disk.page(q).unwrap()
                },
        ),
        ..a
    }
}

/// Whether the disk of `a` holds, in pages that are not in the cache, a
/// subtree of height `h` under page `id` that is in key order between the
/// bounds.
pub open spec fn openable(
    a: PoolView,
    id: u32,
    h: nat,
    min: nat,
    lo: Option<i32>,
    hi: Option<i32>,
) -> bool {
    opened(a, all_read(a), id, h, min, lo, hi)
}

/// Whether the cache of `a` has room for the pages of the subtree of height
/// `h` that its disk holds under page `id`.
pub open spec fn roomy(a: PoolView, id: u32, h: nat) -> bool {
    a.pages.dom().finite() && a.pages.len() + pages_of(all_read(a), id, h).len() <= a.capacity
}

/// Pages that were read in make no difference to what the disk holds.
pub proof fn lemma_all_read_same(a: PoolView, b: PoolView)
    requires
        read_in(a, b),
    ensures
        all_read(b) == all_read(a),
{
    assert forall|q: u32| #[trigger]
        all_read(b).pages.contains_key(q) == all_read(a).pages.contains_key(q) && (all_read(
            a,
        ).pages.contains_key(q) ==> all_read(b).pages[q] == all_read(a).pages[q]) by {
        if b.pages.contains_key(q) && !a.pages.contains_key(q) {
            assert(b.disk.page(q) == Some(b.pages[q]));
        }
        if a.pages.contains_key(q) {
            assert(b.pages.contains_key(q));
        }
    }
    assert(all_read(b).pages =~= all_read(a).pages);
}

/// A subtree has finitely many pages.
pub proof fn lemma_pages_finite(pool: PoolView, id: u32, h: nat)
    ensures
        pages_of(pool, id, h).finite(),
    decreases h, 0nat,
{
    match node_at(pool, id) {
        Some(node) => {
            if h > 0 {
                lemma_pages_under_finite(pool, node.children, (h - 1) as nat, node.children.len());
            }
        },
        None => {},
    }
}

/// The subtrees under some pages have finitely many pages.
pub proof fn lemma_pages_under_finite(pool: PoolView, ids: Seq<u32>, h: nat, k: nat)
    ensures
        pages_under(pool, ids, h, k).finite(),
    decreases h, 1nat, k,
{
    if k > 0 {
        lemma_pages_under_finite(pool, ids, h, (k - 1) as nat);
        lemma_pages_finite(pool, ids[k - 1], h);
    }
}

/// What holds of the topmost node of a subtree that the disk holds: its
/// page is allocated, out of the cache, and holds a well-formed node with
/// its entries in key order between the bounds.
pub proof fn lemma_openable_node(
    a: PoolView,
    id: u32,
    h: nat,
    min: nat,
    lo: Option<i32>,
    hi: Option<i32>,
)
    requires
        openable(a, id, h, min, lo, hi),
    ensures
        id < a.disk.next_page_id,
        !a.pages.contains_key(id),
        a.disk.page(id) is Some,
        node_at(all_read(a), id) is Some,
        NodeView::decode(a.disk.page(id).unwrap().data) == node_at(all_read(a), id),
        node_ok(node_at(all_read(a), id).unwrap(), id, h, min),
        sorted(node_at(all_read(a), id).unwrap().entries),
        within(node_at(all_read(a), id).unwrap().entries, lo, hi),
        pages_of(all_read(a), id, h).finite(),
        pages_of(all_read(a), id, h).len() >= 1,
{
    let t = all_read(a);
    let node = node_at(t, id).unwrap();
    lemma_pages_stored(t, id, h, min);
    lemma_pages_finite(t, id, h);
    assert(pages_of(t, id, h).contains(id));
    assert(t.pages.contains_key(id));
    lemma_node_sorted(t, id, h, min);
    assert forall|k: int| 0 <= k < node.entries.len() implies bounded(
        (#[trigger] node.entries[k]).0,
        lo,
        hi,
    ) by {
        lemma_entry_held(t, id, h, min, k);
        let all = contents(t, id, h);
        let m = choose|m: int| 0 <= m < all.len() && all[m] == node.entries[k];
        assert(bounded(all[m].0, lo, hi));
    }
}

/// What holds of child `i` of a subtree that the disk holds, once the
/// topmost node and the subtrees under the children before `i` are in the
/// cache: the disk holds the child's subtree out of the cache, between the
/// entries around the child, and the cache has room for it.
pub proof fn lemma_openable_child(
    a: PoolView,
    b: PoolView,
    id: u32,
    h: nat,
    min: nat,
    lo: Option<i32>,
    hi: Option<i32>,
    i: int,
)
    requires
        h > 0,
        openable(a, id, h, min, lo, hi),
        roomy(a, id, h),
        read_in(a, b),
        0 <= i < node_at(all_read(a), id).unwrap().children.len(),
        forall|q: u32| #[trigger]
            b.pages.contains_key(q) ==> a.pages.contains_key(q) || q == id || pages_under(
                all_read(a),
                node_at(all_read(a), id).unwrap().children,
                (h - 1) as nat,
                i as nat,
            ).contains(q),
    ensures
        openable(
            b,
            node_at(all_read(a), id).unwrap().children[i],
            (h - 1) as nat,
            MIN_KEYS as nat,
            lower(node_at(all_read(a), id).unwrap().entries, lo, i),
            upper(node_at(all_read(a), id).unwrap().entries, hi, i),
        ),
        roomy(b, node_at(all_read(a), id).unwrap().children[i], (h - 1) as nat),
{
    let t = all_read(a);
    let node = node_at(t, id).unwrap();
    let g = (h - 1) as nat;
    let child = node.children[i];
    let cs = children_contents(t, node, g);
    let es = node.entries;
    let part = pages_of(t, child, g);
    let whole = pages_of(t, id, h);
    lemma_all_read_same(a, b);
    assert(subtree(t, child, g, MIN_KEYS as nat));
    assert forall|q: u32| #[trigger] part.contains(q) implies !b.pages.contains_key(q)
        && whole.contains(q) by {
        lemma_child_pages(t, id, h, i, q);
        if b.pages.contains_key(q) {
            if a.pages.contains_key(q) {
            } else if q == id {
            } else {
                lemma_pages_under(t, node.children, g, i as nat, q);
                let j = choose|j: int|
                    0 <= j < i && #[trigger] pages_of(t, node.children[j], g).contains(q);
                assert(pages_of(t, node.children[j], g).disjoint(
                    pages_of(t, node.children[i], g),
                ));
            }
        }
    }
    lemma_node_sorted(t, id, h, min);
    lemma_flat_bounds(cs, es, i);
    lemma_flat_split(cs, es, i);
    assert(cs[i] == contents(t, child, g));
    assert(contents(t, id, h) == flat(cs, es));
    assert forall|k: int| 0 <= k < cs[i].len() implies bounded(
        (#[trigger] cs[i][k]).0,
        lower(es, lo, i),
        upper(es, hi, i),
    ) by {
        let all = flat(cs, es);
        let at = flat_upto(cs, es, i).len() + k;
        assert(all[at] == cs[i][k]);
        assert(bounded(all[at].0, lo, hi));
    }
    // The room.
    lemma_pages_finite(t, child, g);
    lemma_pages_finite(t, id, h);
    lemma_pages_stored(t, id, h, min);
    let cached = b.pages.dom();
    let both = cached.union(part);
    let most = a.pages.dom().union(whole);
    assert forall|q: u32| both.contains(q) implies most.contains(q) by {
        if cached.contains(q) {
            if !a.pages.contains_key(q) && q != id {
                lemma_pages_under(t, node.children, g, i as nat, q);
                let j = choose|j: int|
                    0 <= j < i && #[trigger] pages_of(t, node.children[j], g).contains(q);
                lemma_child_pages(t, id, h, j, q);
            }
        }
    }
    assert(cached.disjoint(part));
    vstd::set_lib::lemma_set_disjoint_lens(cached, part);
    vstd::set_lib::lemma_len_union(a.pages.dom(), whole);
    vstd::set_lib::lemma_len_subset(both, most);
}

/// Whether the cache gained no pages from `a` to `b` but pages of the
/// subtree of height `h` under page `id`.
pub open spec fn gained(a: PoolView, b: PoolView, id: u32, h: nat) -> bool {
    forall|q: u32| #[trigger]
        b.pages.contains_key(q) ==> a.pages.contains_key(q) || pages_of(b, id, h).contains(q)
}

/// Whether the cache gained no pages from `b` to `now` but pages of the
/// subtrees of height `h` under the first `i` children of `node`.
pub open spec fn gained_under(b: PoolView, now: PoolView, node: NodeView, h: nat, i: nat) -> bool {
    forall|q: u32| #[trigger]
        now.pages.contains_key(q) ==> b.pages.contains_key(q) || pages_under(
            now,
            node.children,
            h,
            i,
        ).contains(q)
}

/// Subtrees with the same pages in two pools have the same pages there
/// together.
pub proof fn lemma_pages_under_same(p: PoolView, q: PoolView, ids: Seq<u32>, h: nat, k: nat)
    requires
        forall|j: int| 0 <= j < k ==> pages_of(p, #[trigger] ids[j], h) == pages_of(q, ids[j], h),
    ensures
        pages_under(p, ids, h, k) == pages_under(q, ids, h, k),
    decreases k,
{
    if k > 0 {
        lemma_pages_under_same(p, q, ids, h, (k - 1) as nat);
        assert(pages_of(p, ids[k - 1], h) == pages_of(q, ids[k - 1], h));
    }
}

/// A subtree that was opened is the subtree that the disk holds.
pub proof fn lemma_opened_on_disk(
    a: PoolView,
    b: PoolView,
    id: u32,
    h: nat,
    min: nat,
    lo: Option<i32>,
    hi: Option<i32>,
)
    requires
        opened(a, b, id, h, min, lo, hi),
    ensures
        subtree(all_read(b), id, h, min),
        pages_of(all_read(b), id, h) == pages_of(b, id, h),
        contents(all_read(b), id, h) == contents(b, id, h),
{
    let t = all_read(b);
    assert forall|q: u32| #[trigger] pages_of(b, id, h).contains(q) implies same_page(
        b,
        t,
        q,
    ) by {
        assert(b.pages.contains_key(q));
    }
    lemma_frame(b, t, id, h, min);
}

/// Whether the cache holds no more pages than it may.
pub open spec fn in_capacity(a: PoolView) -> bool {
    a.pages.dom().finite() && a.pages.len() <= a.capacity
}

/// A cache that holds a subtree that was opened, and no more pages than it
/// may, had room for the subtree.
pub proof fn lemma_opened_roomy(
    a: PoolView,
    b: PoolView,
    id: u32,
    h: nat,
    min: nat,
    lo: Option<i32>,
    hi: Option<i32>,
)
    requires
        read_in(a, b),
        opened(a, b, id, h, min, lo, hi),
        a.pages.dom().finite(),
        in_capacity(b),
    ensures
        roomy(a, id, h),
{
    lemma_opened_on_disk(a, b, id, h, min, lo, hi);
    lemma_all_read_same(a, b);
    let part = pages_of(b, id, h);
    lemma_pages_finite(b, id, h);
    let both = a.pages.dom().union(part);
    assert(a.pages.dom().disjoint(part));
    vstd::set_lib::lemma_set_disjoint_lens(a.pages.dom(), part);
    assert forall|q: u32| both.contains(q) implies b.pages.dom().contains(q) by {
        if a.pages.dom().contains(q) {
            assert(a.pages.contains_key(q));
        }
    }
    vstd::set_lib::lemma_len_subset(both, b.pages.dom());
}

/// A subtree that was opened is a subtree that the disk held.
pub proof fn lemma_opened_openable(
    a: PoolView,
    b: PoolView,
    id: u32,
    h: nat,
    min: nat,
    lo: Option<i32>,
    hi: Option<i32>,
)
    requires
        read_in(a, b),
        opened(a, b, id, h, min, lo, hi),
    ensures
        openable(a, id, h, min, lo, hi),
        contents(all_read(a), id, h) == contents(b, id, h),
{
    lemma_opened_on_disk(a, b, id, h, min, lo, hi);
    lemma_all_read_same(a, b);
    let t = all_read(a);
    lemma_pages_stored(t, id, h, min);
}

/// A well-formed tree whose pages are in the cache as they are on disk can
/// be opened from the disk into an empty cache that has room for its pages,
/// and holds the same entries there.
pub proof fn lemma_opens_again(tree: BTree, pool: PoolView, fresh: PoolView)
    requires
        tree.wf(pool),
        tree.height() <= MAX_DEPTH,
        fresh.pages == Map::<u32, PageView>::empty(),
        fresh.disk.heap == pool.disk.heap,
        fresh.disk.next_page_id >= pool.disk.next_page_id,
        pages_of(pool, tree.root(), tree.height()).len() <= fresh.capacity,
    ensures
        can_open(fresh, tree.root(), tree.height()),
        contents(all_read(fresh), tree.root(), tree.height()) == tree.entries(pool),
{
    reveal(BTree::wf);
    let id = tree.root();
    let h = tree.height();
    let t = all_read(fresh);
    lemma_pages_stored(pool, id, h, 0);
    assert forall|q: u32| #[trigger] pages_of(pool, id, h).contains(q) implies same_page(
        pool,
        t,
        q,
    ) by {
        assert(stored(pool, q));
        assert(fresh.disk.page(q) == pool.disk.page(q));
    }
    lemma_frame(pool, t, id, h, 0);
    assert(fresh.pages.dom() =~= Set::<u32>::empty());
    assert(within(contents(t, id, h), None, None));
}

/// Whether the disk of `a` holds a tree of height `h` under page `root`
/// that can be opened: a well-formed tree in key order, of `MAX_DEPTH`
/// levels at most, in pages that are not in the cache, which has room for
/// them; with a root that has an entry unless it is a leaf.
pub open spec fn can_open(a: PoolView, root: u32, h: nat) -> bool {
    &&& openable(a, root, h, 0, None, None)
    &&& roomy(a, root, h)
    &&& h <= MAX_DEPTH
    &&& h > 0 ==> node_at(all_read(a), root).unwrap().entries.len() >= 1
}

/// After child `i` of `node` was opened, the children up to it are opened,
/// they share no page, and the cache has gained their pages alone.
pub proof fn lemma_child_read(
    b: PoolView,
    before: PoolView,
    now: PoolView,
    node: NodeView,
    i: int,
    g: nat,
    lo: Option<i32>,
    hi: Option<i32>,
)
    requires
        0 <= i < node.children.len(),
        read_in(b, before),
        read_in(before, now),
        forall|j: int| 0 <= j < i ==> #[trigger] child_opened(b, before, node, j, g, lo, hi),
        forall|j: int, k: int| 0 <= j < k < i ==> #[trigger] apart(before, node, j, k, g),
        gained_under(b, before, node, g, i as nat),
        child_opened(before, now, node, i, g, lo, hi),
        gained(before, now, node.children[i], g),
    ensures
        read_in(b, now),
        forall|j: int| 0 <= j < i + 1 ==> #[trigger] child_opened(b, now, node, j, g, lo, hi),
        forall|j: int, k: int| 0 <= j < k < i + 1 ==> #[trigger] apart(now, node, j, k, g),
        gained_under(b, now, node, g, (i + 1) as nat),
{
    lemma_read_in_twice(b, before, now);
    assert forall|j: int| 0 <= j < i + 1 implies #[trigger] child_opened(b, now, node, j, g, lo, hi)
        && (j < i ==> pages_of(now, node.children[j], g) == pages_of(before, node.children[j], g)) by {
        if j < i {
            assert(child_opened(b, before, node, j, g, lo, hi));
            lemma_opened_stays(
                b,
                before,
                now,
                node.children[j],
                g,
                MIN_KEYS as nat,
                lower(node.entries, lo, j),
                upper(node.entries, hi, j),
            );
        } else {
            assert forall|q: u32| #[trigger]
                pages_of(now, node.children[j], g).contains(q) implies !b.pages.contains_key(q) by {
                if b.pages.contains_key(q) {
                    assert(before.pages.contains_key(q));
                }
            }
        }
    }
    assert forall|j: int, k: int| 0 <= j < k < i + 1 implies #[trigger] apart(now, node, j, k, g) by {
        assert(child_opened(b, before, node, j, g, lo, hi));
        assert(child_opened(b, now, node, j, g, lo, hi));
        assert(child_opened(b, now, node, k, g, lo, hi));
        if k < i {
            assert(apart(before, node, j, k, g));
        } else {
            assert forall|q: u32|
                pages_of(now, node.children[j], g).contains(q) implies !pages_of(
                now,
                node.children[k],
                g,
            ).contains(q) by {
                assert(pages_of(before, node.children[j], g).contains(q));
                assert(before.pages.contains_key(q));
            }
        }
    }
    assert forall|j: int| 0 <= j < i implies pages_of(now, #[trigger] node.children[j], g)
        == pages_of(before, node.children[j], g) by {
        assert(child_opened(b, now, node, j, g, lo, hi));
    }
    lemma_pages_under_same(now, before, node.children, g, i as nat);
    assert forall|q: u32| #[trigger] now.pages.contains_key(q) implies b.pages.contains_key(q)
        || pages_under(now, node.children, g, (i + 1) as nat).contains(q) by {
        if !before.pages.contains_key(q) {
            assert(pages_of(now, node.children[i], g).contains(q));
        } else if !b.pages.contains_key(q) {
            assert(pages_under(before, node.children, g, i as nat).contains(q));
        }
    }
}

/// Where the disk holds a subtree, and its topmost node and the children
/// before `i` were opened, the disk holds the subtree under child `i` out
/// of the cache, and the cache has room for it.
pub proof fn lemma_child_goal(
    a: PoolView,
    b: PoolView,
    before: PoolView,
    id: u32,
    goal: nat,
    min: nat,
    lo: Option<i32>,
    hi: Option<i32>,
    node: NodeView,
    i: int,
)
    requires
        goal > 0,
        openable(a, id, goal, min, lo, hi),
        roomy(a, id, goal),
        node_at(all_read(a), id) == Some(node),
        0 <= i < node.children.len(),
        read_in(a, b),
        read_in(b, before),
        forall|q: u32| #[trigger] b.pages.contains_key(q) ==> a.pages.contains_key(q) || q == id,
        forall|j: int|
            0 <= j < i ==> #[trigger] child_opened(b, before, node, j, (goal - 1) as nat, lo, hi),
        gained_under(b, before, node, (goal - 1) as nat, i as nat),
    ensures
        openable(
            before,
            node.children[i],
            (goal - 1) as nat,
            MIN_KEYS as nat,
            lower(node.entries, lo, i),
            upper(node.entries, hi, i),
        ),
        roomy(before, node.children[i], (goal - 1) as nat),
{
    let t = all_read(a);
    let g = (goal - 1) as nat;
    lemma_read_in_twice(a, b, before);
    lemma_all_read_same(a, before);
    assert forall|j: int| 0 <= j < i implies pages_of(before, #[trigger] node.children[j], g)
        == pages_of(t, node.children[j], g) by {
        assert(child_opened(b, before, node, j, g, lo, hi));
        lemma_opened_on_disk(
            b,
            before,
            node.children[j],
            g,
            MIN_KEYS as nat,
            lower(node.entries, lo, j),
            upper(node.entries, hi, j),
        );
    }
    lemma_pages_under_same(before, t, node.children, g, i as nat);
    assert forall|q: u32| #[trigger] before.pages.contains_key(q) implies a.pages.contains_key(q)
        || q == id || pages_under(t, node.children, g, i as nat).contains(q) by {
        if !b.pages.contains_key(q) {
            assert(pages_under(before, node.children, g, i as nat).contains(q));
        }
    }
    lemma_openable_child(a, before, id, goal, min, lo, hi, i);
}

/// The topmost node with its children opened is a subtree that was opened.
pub proof fn lemma_node_read(
    a: PoolView,
    b: PoolView,
    now: PoolView,
    id: u32,
    node: NodeView,
    g: nat,
    min: nat,
    lo: Option<i32>,
    hi: Option<i32>,
)
    requires
        read_in(a, b),
        read_in(b, now),
        !a.pages.contains_key(id),
        forall|q: u32| #[trigger] b.pages.contains_key(q) ==> a.pages.contains_key(q) || q == id,
        id < b.disk.next_page_id,
        stored(b, id),
        node_at(b, id) == Some(node),
        node_ok(node, id, g + 1, min),
        sorted(node.entries),
        within(node.entries, lo, hi),
        forall|j: int|
            0 <= j < node.children.len() ==> #[trigger] child_opened(b, now, node, j, g, lo, hi),
        forall|j: int, k: int|
            0 <= j < k < node.children.len() ==> #[trigger] apart(now, node, j, k, g),
        gained_under(b, now, node, g, node.children.len()),
    ensures
        read_in(a, now),
        opened(a, now, id, g + 1, min, lo, hi),
        gained(a, now, id, g + 1),
{
    let top = g + 1;
    lemma_read_in_twice(a, b, now);
    assert(now.pages.contains_key(id) && now.pages[id] == b.pages[id]);
    assert(node_at(now, id) == Some(node));
    assert(stored(now, id));
    assert forall|j: int| 0 <= j < node.children.len() implies subtree(
        now,
        #[trigger] node.children[j],
        g,
        MIN_KEYS as nat,
    ) && !pages_of(now, node.children[j], g).contains(id) by {
        assert(child_opened(b, now, node, j, g, lo, hi));
    }
    assert forall|j: int, k: int| 0 <= j < k < node.children.len() implies pages_of(
        now,
        #[trigger] node.children[j],
        g,
    ).disjoint(pages_of(now, #[trigger] node.children[k], g)) by {
        assert(apart(now, node, j, k, g));
    }
    assert(subtree(now, id, top, min));
    assert forall|q: u32| #[trigger] pages_of(now, id, top).contains(q) implies now.pages.contains_key(
        q,
    ) && !a.pages.contains_key(q) by {
        if q != id {
            let j = lemma_page_place(now, id, top, q);
            assert(child_opened(b, now, node, j, g, lo, hi));
            if a.pages.contains_key(q) {
                assert(b.pages.contains_key(q));
            }
        }
    }
    lemma_pages_stored(now, id, top, min);
    assert forall|q: u32| #[trigger] now.pages.contains_key(q) implies a.pages.contains_key(q)
        || pages_of(now, id, top).contains(q) by {
        if !b.pages.contains_key(q) {
            assert(pages_under(now, node.children, g, node.children.len()).contains(q));
        }
    }
    let cs = children_contents(now, node, g);
    assert forall|j: int| 0 <= j < cs.len() implies sorted(#[trigger] cs[j]) && within(
        cs[j],
        lower(node.entries, lo, j),
        upper(node.entries, hi, j),
    ) by {
        assert(child_opened(b, now, node, j, g, lo, hi));
    }
    lemma_flat_sorted(cs, node.entries, lo, hi, 0);
    assert(contents(now, id, top) == flat(cs, node.entries));
}

impl BTree {
    /// Whether the entries of the node are in key order, between the
    /// bounds, and small enough for the tree.
    fn entries_fit(node: &BTreeNode, lo: Option<i32>, hi: Option<i32>) -> (res: bool)
        ensures
            res == (sorted(node@.entries) && within(node@.entries, lo, hi) && forall|k: int|
                0 <= k < node@.entries.len() ==> small(#[trigger] node@.entries[k])),
    {
        let ghost es = node@.entries;
        let mut i: usize = 0;
        while i < node.entries.len()
            invariant
                i <= node.entries@.len(),
                es == node@.entries,
                es.len() == node.entries@.len(),
                forall|k: int| 0 <= k < i ==> small(#[trigger] es[k]) && bounded(es[k].0, lo, hi),
                forall|a: int, b: int| 0 <= a < b < i ==> es[a].0 <= es[b].0,
            decreases node.entries@.len() - i,
        {
            let entry = &node.entries[i];
            assert(es[i as int] == (entry.key, entry.value@));
            if !Self::is_small(&entry.value) {
                assert(!small(es[i as int]));
                return false;
            }
            match lo {
                Some(l) => {
                    if entry.key < l {
                        assert(!bounded(es[i as int].0, lo, hi));
                        return false;
                    }
                },
                None => {},
            }
            match hi {
                Some(u) => {
                    if entry.key > u {
                        assert(!bounded(es[i as int].0, lo, hi));
                        return false;
                    }
                },
                None => {},
            }
            if i > 0 {
                let previous = &node.entries[i - 1];
                assert(es[i - 1] == (previous.key, previous.value@));
                if previous.key > entry.key {
                    assert(es[i - 1].0 > es[i as int].0);
                    return false;
                }
                assert forall|a: int, b: int| 0 <= a < b < i + 1 implies es[a].0 <= es[b].0 by {
                    if b == i && a < i - 1 {
                        assert(es[a].0 <= es[i - 1].0);
                    }
                }
            }
            i += 1;
        }
        true
    }

    /// Reads the subtree under page `id` into the cache, page by page, and
    /// checks it: no page of it may be in the cache already, every node must
    /// be well-formed with `min` entries or more at the top, all leaves must
    /// be at one depth, `fuel` levels down at most, and the keys must be in
    /// order between the bounds. Gives the height of the subtree.
    fn read_subtree(
        id: u32,
        min: usize,
        lo: Option<i32>,
        hi: Option<i32>,
        pool: &mut BufferPool,
        fuel: usize,
        Ghost(goal): Ghost<nat>,
    ) -> (res: Result<usize, DatabaseError>)
        ensures
            read_in(old(pool)@, final(pool)@),
            in_capacity(old(pool)@) ==> in_capacity(final(pool)@),
            res matches Ok(h) ==> h <= fuel && opened(
                old(pool)@,
                final(pool)@,
                id,
                h as nat,
                min as nat,
                lo,
                hi,
            ) && gained(old(pool)@, final(pool)@, id, h as nat),
            openable(old(pool)@, id, goal, min as nat, lo, hi) && roomy(old(pool)@, id, goal)
                && goal <= fuel ==> (res matches Ok(h) && h == goal),
        decreases fuel,
    {
        let ghost a = pool@;
        let ghost t = all_read(a);
        let ghost ok = openable(a, id, goal, min as nat, lo, hi) && roomy(a, id, goal) && goal
            <= fuel;
        proof {
            if ok {
                lemma_openable_node(a, id, goal, min as nat, lo, hi);
            }
        }
        if id >= pool.disk_manager().page_count() || pool.holds(id) {
            return Err(DatabaseError::InvalidData(String::from_str("Malformed tree")));
        }
        let page = pool.get_page(id)?;
        let ghost b = pool@;
        assert(b.pages =~= a.pages.insert(id, page@));
        assert(read_in(a, b));
        let node = BTreeNode::deserialize(page.data.as_slice())?;
        assert(node_at(b, id) == Some(node@));
        assert(ok ==> node_at(t, id) == Some(node@));
        assert(stored(b, id));
        if node.page_id != id || node.entries.len() > MAX_KEYS || node.entries.len() < min
            || !Self::entries_fit(&node, lo, hi) {
            return Err(DatabaseError::InvalidData(String::from_str("Malformed tree")));
        }
        if node.is_leaf {
            if node.children.len() != 0 {
                return Err(DatabaseError::InvalidData(String::from_str("Malformed tree")));
            }
            proof {
                assert(node_ok(node@, id, 0, min as nat));
                assert(subtree(b, id, 0, min as nat));
                assert(pages_of(b, id, 0) =~= set![id]);
                assert(contents(b, id, 0) == node@.entries);
            }
            return Ok(0);
        }
        if fuel == 0 || node.children.len() != node.entries.len() + 1 {
            return Err(DatabaseError::InvalidData(String::from_str("Malformed tree")));
        }
        let count = node.children.len();
        let mut height: usize = 0;
        let mut i: usize = 0;
        assert(gained_under(b, b, node@, 0, 0));
        while i < count
            invariant
                i <= count == node.children@.len() == node@.entries.len() + 1,
                fuel > 0,
                a == old(pool)@,
                t == all_read(a),
                ok == (openable(a, id, goal, min as nat, lo, hi) && roomy(a, id, goal) && goal
                    <= fuel),
                ok ==> node_at(t, id) == Some(node@) && goal > 0,
                read_in(a, b),
                read_in(b, pool@),
                in_capacity(a) ==> in_capacity(pool@),
                b.pages.contains_key(id),
                forall|q: u32| #[trigger] b.pages.contains_key(q) ==> a.pages.contains_key(q) || q == id,
                i > 0 ==> height < fuel,
                ok && i > 0 ==> height == goal - 1,
                i == 0 ==> height == 0,
                forall|j: int|
                    0 <= j < i ==> #[trigger] child_opened(b, pool@, node@, j, height as nat, lo, hi),
                forall|j: int, k: int|
                    0 <= j < k < i ==> #[trigger] apart(pool@, node@, j, k, height as nat),
                gained_under(b, pool@, node@, height as nat, i as nat),
            decreases count - i,
        {
            let child_lo = if i == 0 {
                lo
            } else {
                Some(node.entries[i - 1].key)
            };
            let child_hi = if i < node.entries.len() {
                Some(node.entries[i].key)
            } else {
                hi
            };
            let ghost before = pool@;
            proof {
                if ok {
                    if i == 0 {
                        assert(gained_under(b, before, node@, (goal - 1) as nat, 0));
                    }
                    lemma_child_goal(a, b, before, id, goal, min as nat, lo, hi, node@, i as int);
                }
            }
            let h = match Self::read_subtree(
                node.children[i],
                MIN_KEYS,
                child_lo,
                child_hi,
                pool,
                fuel - 1,
                Ghost((goal - 1) as nat),
            ) {
                Ok(h) => h,
                Err(e) => {
                    proof {
                        lemma_read_in_twice(a, b, before);
                        lemma_read_in_twice(a, before, pool@);
                    }
                    return Err(e);
                },
            };
            if i > 0 && h != height {
                proof {
                    lemma_read_in_twice(a, b, before);
                    lemma_read_in_twice(a, before, pool@);
                }
                return Err(DatabaseError::InvalidData(String::from_str("Malformed tree")));
            }
            proof {
                if i == 0 {
                    assert(gained_under(b, before, node@, h as nat, 0));
                }
                lemma_child_read(b, before, pool@, node@, i as int, h as nat, lo, hi);
            }
            height = h;
            i += 1;
        }
        proof {
            lemma_node_read(a, b, pool@, id, node@, height as nat, min as nat, lo, hi);
        }
        Ok(height + 1)
    }

    /// Opens the tree that the file holds under page `root`: reads its
    /// pages into the cache and checks them. A tree that is not well-formed
    /// is refused with `InvalidData`, and so is one with a page that the
    /// cache holds already; a cache that is too small for the tree gives
    /// `BufferPoolFull`.
    pub fn open(root: u32, pool: &mut BufferPool) -> (res: Result<BTree, DatabaseError>)
        ensures
            read_in(old(pool)@, final(pool)@),
            all_clean(old(pool)@) ==> all_clean(final(pool)@),
            in_capacity(old(pool)@) ==> in_capacity(final(pool)@),
            res matches Ok(tree) ==> {
                &&& in_capacity(old(pool)@) ==> can_open(old(pool)@, root, tree.height())
                &&& tree.root() == root
                &&& tree.height() <= MAX_DEPTH
                &&& gained(old(pool)@, final(pool)@, root, tree.height())
                &&& openable(old(pool)@, root, tree.height(), 0, None, None)
                &&& tree.entries(final(pool)@) == contents(
                    all_read(old(pool)@),
                    root,
                    tree.height(),
                )
                &&& pool_ok(old(pool)@) ==> tree.wf(final(pool)@)
            },
            forall|h: nat| #[trigger] can_open(old(pool)@, root, h) ==> res is Ok,
    {
        let ghost a = pool@;
        let ghost able = exists|h: nat| #[trigger] can_open(a, root, h);
        let ghost goal = choose|h: nat| #[trigger] can_open(a, root, h);
        let height = Self::read_subtree(root, 0, None, None, pool, MAX_DEPTH, Ghost(goal))?;
        let tree = BTree::of_height(root, height);
        let ghost b = pool@;
        proof {
            lemma_opened_on_disk(a, b, root, height as nat, 0, None, None);
            lemma_all_read_same(a, b);
            lemma_pages_stored(b, root, height as nat, 0);
            assert(node_at(all_read(a), root) == node_at(b, root));
        }
        let node = match tree.get_node(root, pool) {
            Ok(node) => node,
            Err(e) => {
                return Err(e);
            },
        };
        if height > 0 && node.entries.len() == 0 {
            return Err(DatabaseError::InvalidData(String::from_str("Malformed tree")));
        }
        proof {
            reveal(BTree::wf);
            assert(pool@ == b);
            lemma_opened_openable(a, b, root, height as nat, 0, None, None);
            if in_capacity(a) {
                lemma_opened_roomy(a, b, root, height as nat, 0, None, None);
            }
        }
        Ok(tree)
    }
}

} // verus!
