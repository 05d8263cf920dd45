//! Rebuilding one or two neighbouring children of a node.
//!
//! A split, a merge and a move of an entry between siblings all write the
//! parent and one or two of its children anew, and hand the grandchildren
//! under them on as they are. This file proves once that the subtree under
//! the parent is well-formed after such a step.

use crate::index::layout::Entry;
use crate::index::node::MIN_KEYS;
use crate::index::order::{flat, lemma_flat_concat, lemma_flat_window};
use crate::index::shape::{
    children_contents, contents, lemma_child_pages, lemma_frame, lemma_page_place,
    lemma_pages_stored, node_at, node_ok, pages_of, same_page, stored, subtree,
};
use crate::storage::buffer_pool::PoolView;
use vstd::prelude::*;

verus! {

/// The children of the node in page `id`.
pub open spec fn children_of(pool: PoolView, id: u32) -> Seq<u32> {
    node_at(pool, id).unwrap().children
}

/// The children of the nodes in the one or two pages `ids`, one list after
/// the other.
pub open spec fn kids(pool: PoolView, ids: Seq<u32>) -> Seq<u32> {
    if ids.len() == 1 {
        children_of(pool, ids[0])
    } else if ids.len() == 2 {
        children_of(pool, ids[0]) + children_of(pool, ids[1])
    } else {
        Seq::empty()
    }
}

/// What holds of a grandchild under the children `lo .. hi` of a node: it
/// is a well-formed subtree, its pages are pages of its parent's subtree,
/// and none of them is the node, or one of the children `lo .. hi`.
pub proof fn lemma_grandchild(
    a: PoolView,
    p: u32,
    h: nat,
    min: nat,
    lo: int,
    hi: int,
    i: int,
    k: int,
)
    requires
        h >= 2,
        subtree(a, p, h, min),
        0 <= lo <= i < hi <= children_of(a, p).len(),
        0 <= k < children_of(a, children_of(a, p)[i]).len(),
    ensures
        subtree(a, children_of(a, children_of(a, p)[i])[k], (h - 2) as nat, MIN_KEYS as nat),
        forall|q: u32|
            #[trigger] pages_of(
                a,
                children_of(a, children_of(a, p)[i])[k],
                (h - 2) as nat,
            ).contains(q) ==> {
                &&& q < a.disk.next_page_id
                &&& q != p
                &&& pages_of(a, children_of(a, p)[i], (h - 1) as nat).contains(q)
                &&& forall|j: int| lo <= j < hi ==> q != #[trigger] children_of(a, p)[j]
            },
{
    let node = node_at(a, p).unwrap();
    let d = node.children[i];
    let dn = node_at(a, d).unwrap();
    let g = dn.children[k];
    assert(subtree(a, d, (h - 1) as nat, MIN_KEYS as nat));
    assert(subtree(a, g, (h - 2) as nat, MIN_KEYS as nat));
    lemma_pages_stored(a, g, (h - 2) as nat, MIN_KEYS as nat);
    assert(!pages_of(a, d, (h - 1) as nat).contains(p));
    assert(!pages_of(a, g, (h - 2) as nat).contains(d));
    assert forall|q: u32| #[trigger] pages_of(a, g, (h - 2) as nat).contains(q) implies {
        &&& q < a.disk.next_page_id
        &&& q != p
        &&& pages_of(a, d, (h - 1) as nat).contains(q)
        &&& forall|j: int| lo <= j < hi ==> q != #[trigger] children_of(a, p)[j]
    } by {
        lemma_child_pages(a, d, (h - 1) as nat, k, q);
        assert forall|j: int| lo <= j < hi implies q != #[trigger] children_of(a, p)[j] by {
            if j != i {
                let other = node.children[j];
                assert(subtree(a, other, (h - 1) as nat, MIN_KEYS as nat));
                lemma_pages_stored(a, other, (h - 1) as nat, MIN_KEYS as nat);
                if i < j {
                    assert(pages_of(a, node.children[i], (h - 1) as nat).disjoint(
                        pages_of(a, node.children[j], (h - 1) as nat),
                    ));
                } else {
                    assert(pages_of(a, node.children[j], (h - 1) as nat).disjoint(
                        pages_of(a, node.children[i], (h - 1) as nat),
                    ));
                }
            }
        }
    }
}

/// Two different grandchildren have no page in common.
pub proof fn lemma_grandchildren_apart(
    a: PoolView,
    p: u32,
    h: nat,
    min: nat,
    i1: int,
    k1: int,
    i2: int,
    k2: int,
)
    requires
        h >= 2,
        subtree(a, p, h, min),
        0 <= i1 < children_of(a, p).len(),
        0 <= i2 < children_of(a, p).len(),
        0 <= k1 < children_of(a, children_of(a, p)[i1]).len(),
        0 <= k2 < children_of(a, children_of(a, p)[i2]).len(),
        i1 != i2 || k1 != k2,
    ensures
        pages_of(a, children_of(a, children_of(a, p)[i1])[k1], (h - 2) as nat).disjoint(
            pages_of(a, children_of(a, children_of(a, p)[i2])[k2], (h - 2) as nat),
        ),
{
    let node = node_at(a, p).unwrap();
    let d1 = node.children[i1];
    let d2 = node.children[i2];
    let g1 = children_of(a, d1)[k1];
    let g2 = children_of(a, d2)[k2];
    assert(subtree(a, d1, (h - 1) as nat, MIN_KEYS as nat));
    assert(subtree(a, d2, (h - 1) as nat, MIN_KEYS as nat));
    if i1 == i2 {
        let dn = node_at(a, d1).unwrap();
        if k1 < k2 {
            assert(pages_of(a, dn.children[k1], (h - 2) as nat).disjoint(
                pages_of(a, dn.children[k2], (h - 2) as nat),
            ));
        } else {
            assert(pages_of(a, dn.children[k2], (h - 2) as nat).disjoint(
                pages_of(a, dn.children[k1], (h - 2) as nat),
            ));
        }
    } else {
        if i1 < i2 {
            assert(pages_of(a, node.children[i1], (h - 1) as nat).disjoint(
                pages_of(a, node.children[i2], (h - 1) as nat),
            ));
        } else {
            assert(pages_of(a, node.children[i2], (h - 1) as nat).disjoint(
                pages_of(a, node.children[i1], (h - 1) as nat),
            ));
        }
        assert forall|q: u32| #[trigger]
            pages_of(a, g1, (h - 2) as nat).contains(q) implies !pages_of(
            a,
            g2,
            (h - 2) as nat,
        ).contains(q) by {
            if pages_of(a, g2, (h - 2) as nat).contains(q) {
                lemma_child_pages(a, d1, (h - 1) as nat, k1, q);
                lemma_child_pages(a, d2, (h - 1) as nat, k2, q);
            }
        }
    }
}

/// What holds of a child outside `lo .. hi`: none of its pages is the node,
/// or one of the children `lo .. hi`.
pub proof fn lemma_child_outside(a: PoolView, p: u32, h: nat, min: nat, lo: int, hi: int, j: int)
    requires
        h >= 1,
        subtree(a, p, h, min),
        0 <= lo <= hi <= children_of(a, p).len(),
        0 <= j < children_of(a, p).len(),
        !(lo <= j < hi),
    ensures
        subtree(a, children_of(a, p)[j], (h - 1) as nat, MIN_KEYS as nat),
        forall|q: u32|
            #[trigger] pages_of(a, children_of(a, p)[j], (h - 1) as nat).contains(q) ==> {
                &&& q < a.disk.next_page_id
                &&& q != p
                &&& forall|i: int| lo <= i < hi ==> q != #[trigger] children_of(a, p)[i]
            },
{
    let node = node_at(a, p).unwrap();
    let c = node.children[j];
    assert(subtree(a, c, (h - 1) as nat, MIN_KEYS as nat));
    lemma_pages_stored(a, c, (h - 1) as nat, MIN_KEYS as nat);
    assert(!pages_of(a, c, (h - 1) as nat).contains(p));
    assert forall|q: u32| #[trigger] pages_of(a, c, (h - 1) as nat).contains(q) implies {
        &&& q < a.disk.next_page_id
        &&& q != p
        &&& forall|i: int| lo <= i < hi ==> q != #[trigger] children_of(a, p)[i]
    } by {
        assert forall|i: int| lo <= i < hi implies q != #[trigger] children_of(a, p)[i] by {
            let other = node.children[i];
            assert(subtree(a, other, (h - 1) as nat, MIN_KEYS as nat));
            lemma_pages_stored(a, other, (h - 1) as nat, MIN_KEYS as nat);
            if i < j {
                assert(pages_of(a, node.children[i], (h - 1) as nat).disjoint(
                    pages_of(a, node.children[j], (h - 1) as nat),
                ));
            } else {
                assert(pages_of(a, node.children[j], (h - 1) as nat).disjoint(
                    pages_of(a, node.children[i], (h - 1) as nat),
                ));
            }
        }
    }
}

/// The child and the place among its children from which grandchild `x`
/// under the children `lo .. hi` comes.
pub open spec fn origin(a: PoolView, p: u32, lo: int, hi: int, x: int) -> (int, int) {
    let first = children_of(a, children_of(a, p)[lo]).len();
    if hi - lo == 2 && x >= first {
        (lo + 1, x - first)
    } else {
        (lo, x)
    }
}

/// The grandchildren under the children `lo .. hi` of the node in page `p`.
pub open spec fn grandchildren(a: PoolView, p: u32, lo: int, hi: int) -> Seq<u32> {
    kids(a, children_of(a, p).subrange(lo, hi))
}

/// Whether `b` is `a` after the children `lo .. hi` of the node in page `p`
/// were rebuilt as the pages `news`: the new parent has `news` in their
/// place; each of `news` is one of the old children or newly allocated, and
/// holds a node of the children's height; the grandchildren are handed on
/// in their order; and all other allocated pages are as they were.
#[verifier::opaque]
pub open spec fn rebuilt(
    a: PoolView,
    b: PoolView,
    p: u32,
    h: nat,
    min: nat,
    lo: int,
    hi: int,
    news: Seq<u32>,
) -> bool {
    let olds = children_of(a, p).subrange(lo, hi);
    &&& h >= 1
    &&& subtree(a, p, h, min)
    &&& a.disk.next_page_id <= b.disk.next_page_id
    &&& 0 <= lo < hi <= children_of(a, p).len()
    &&& hi - lo <= 2
    &&& 1 <= news.len() <= 2
    &&& news.no_duplicates()
    &&& forall|q: u32|
        q < a.disk.next_page_id && q != p && !olds.contains(q) ==> #[trigger] same_page(a, b, q)
    &&& stored(b, p)
    &&& node_at(b, p) is Some
    &&& node_ok(node_at(b, p).unwrap(), p, h, min)
    &&& children_of(b, p) == children_of(a, p).take(lo) + news + children_of(a, p).skip(hi)
    &&& forall|t: int|
        0 <= t < news.len() ==> {
            &&& (#[trigger] news[t]) < b.disk.next_page_id
            &&& (news[t] >= a.disk.next_page_id || olds.contains(news[t]))
            &&& stored(b, news[t])
            &&& node_at(b, news[t]) is Some
            &&& node_ok(node_at(b, news[t]).unwrap(), news[t], (h - 1) as nat, MIN_KEYS as nat)
        }
    &&& h >= 2 ==> kids(b, news) == grandchildren(a, p, lo, hi)
}

/// Where grandchild `x` comes from.
pub proof fn lemma_origin(a: PoolView, p: u32, lo: int, hi: int, x: int)
    requires
        0 <= lo < hi <= children_of(a, p).len(),
        hi - lo <= 2,
        0 <= x < grandchildren(a, p, lo, hi).len(),
    ensures
        lo <= origin(a, p, lo, hi, x).0 < hi,
        0 <= origin(a, p, lo, hi, x).1 < children_of(
            a,
            children_of(a, p)[origin(a, p, lo, hi, x).0],
        ).len(),
        grandchildren(a, p, lo, hi)[x] == children_of(
            a,
            children_of(a, p)[origin(a, p, lo, hi, x).0],
        )[origin(a, p, lo, hi, x).1],
{
    let olds = children_of(a, p).subrange(lo, hi);
    assert(olds[0] == children_of(a, p)[lo]);
    if hi - lo == 2 {
        assert(olds[1] == children_of(a, p)[lo + 1]);
    }
}

/// After the children `lo .. hi` were rebuilt, a grandchild under them is
/// the subtree that it was.
pub proof fn lemma_rebuilt_grandchild(
    a: PoolView,
    b: PoolView,
    p: u32,
    h: nat,
    min: nat,
    lo: int,
    hi: int,
    news: Seq<u32>,
    x: int,
)
    requires
        rebuilt(a, b, p, h, min, lo, hi, news),
        h >= 2,
        0 <= x < grandchildren(a, p, lo, hi).len(),
    ensures
        subtree(a, grandchildren(a, p, lo, hi)[x], (h - 2) as nat, MIN_KEYS as nat),
        subtree(b, grandchildren(a, p, lo, hi)[x], (h - 2) as nat, MIN_KEYS as nat),
        pages_of(b, grandchildren(a, p, lo, hi)[x], (h - 2) as nat) == pages_of(
            a,
            grandchildren(a, p, lo, hi)[x],
            (h - 2) as nat,
        ),
        contents(b, grandchildren(a, p, lo, hi)[x], (h - 2) as nat) == contents(
            a,
            grandchildren(a, p, lo, hi)[x],
            (h - 2) as nat,
        ),
        forall|q: u32|
            #[trigger] pages_of(a, grandchildren(a, p, lo, hi)[x], (h - 2) as nat).contains(q)
                ==> {
                &&& q < a.disk.next_page_id
                &&& q != p
                &&& pages_of(a, p, h).contains(q)
                &&& !children_of(a, p).subrange(lo, hi).contains(q)
            },
{
    reveal(rebuilt);
    let olds = children_of(a, p).subrange(lo, hi);
    let g = grandchildren(a, p, lo, hi)[x];
    let (i, k) = origin(a, p, lo, hi, x);
    lemma_origin(a, p, lo, hi, x);
    lemma_grandchild(a, p, h, min, lo, hi, i, k);
    assert forall|q: u32| #[trigger] pages_of(a, g, (h - 2) as nat).contains(q) implies {
        &&& q < a.disk.next_page_id
        &&& q != p
        &&& pages_of(a, p, h).contains(q)
        &&& !olds.contains(q)
    } by {
        lemma_child_pages(a, p, h, i, q);
        if olds.contains(q) {
            let j = choose|j: int| 0 <= j < olds.len() && olds[j] == q;
            assert(children_of(a, p)[lo + j] == q);
        }
    }
    assert forall|q: u32| #[trigger] pages_of(a, g, (h - 2) as nat).contains(q) implies same_page(
        a,
        b,
        q,
    ) by {}
    lemma_frame(a, b, g, (h - 2) as nat, MIN_KEYS as nat);
}

/// After the children `lo .. hi` were rebuilt, a child outside them is the
/// subtree that it was.
pub proof fn lemma_rebuilt_outside(
    a: PoolView,
    b: PoolView,
    p: u32,
    h: nat,
    min: nat,
    lo: int,
    hi: int,
    news: Seq<u32>,
    j: int,
)
    requires
        rebuilt(a, b, p, h, min, lo, hi, news),
        0 <= j < children_of(a, p).len(),
        !(lo <= j < hi),
    ensures
        subtree(b, children_of(a, p)[j], (h - 1) as nat, MIN_KEYS as nat),
        pages_of(b, children_of(a, p)[j], (h - 1) as nat) == pages_of(
            a,
            children_of(a, p)[j],
            (h - 1) as nat,
        ),
        contents(b, children_of(a, p)[j], (h - 1) as nat) == contents(
            a,
            children_of(a, p)[j],
            (h - 1) as nat,
        ),
        forall|q: u32|
            #[trigger] pages_of(a, children_of(a, p)[j], (h - 1) as nat).contains(q) ==> {
                &&& q < a.disk.next_page_id
                &&& q != p
                &&& pages_of(a, p, h).contains(q)
                &&& !children_of(a, p).subrange(lo, hi).contains(q)
            },
{
    reveal(rebuilt);
    let olds = children_of(a, p).subrange(lo, hi);
    let c = children_of(a, p)[j];
    lemma_child_outside(a, p, h, min, lo, hi, j);
    assert forall|q: u32| #[trigger] pages_of(a, c, (h - 1) as nat).contains(q) implies {
        &&& q < a.disk.next_page_id
        &&& q != p
        &&& pages_of(a, p, h).contains(q)
        &&& !olds.contains(q)
    } by {
        lemma_child_pages(a, p, h, j, q);
        if olds.contains(q) {
            let i = choose|i: int| 0 <= i < olds.len() && olds[i] == q;
            assert(children_of(a, p)[lo + i] == q);
        }
    }
    assert forall|q: u32| #[trigger] pages_of(a, c, (h - 1) as nat).contains(q) implies same_page(
        a,
        b,
        q,
    ) by {}
    lemma_frame(a, b, c, (h - 1) as nat, MIN_KEYS as nat);
}

/// The place among the grandchildren of child `k` of the rebuilt page
/// `news[t]`.
pub open spec fn place(b: PoolView, news: Seq<u32>, t: int, k: int) -> int {
    if t == 0 {
        k
    } else {
        children_of(b, news[0]).len() + k
    }
}

/// A rebuilt page is the root of a well-formed subtree, whose pages are the
/// page itself and those of the grandchildren handed to it.
pub proof fn lemma_rebuilt_child(
    a: PoolView,
    b: PoolView,
    p: u32,
    h: nat,
    min: nat,
    lo: int,
    hi: int,
    news: Seq<u32>,
    t: int,
)
    requires
        rebuilt(a, b, p, h, min, lo, hi, news),
        0 <= t < news.len(),
    ensures
        subtree(b, news[t], (h - 1) as nat, MIN_KEYS as nat),
        forall|q: u32|
            #[trigger] pages_of(b, news[t], (h - 1) as nat).contains(q) ==> q == news[t] || (h >= 2
                && exists|k: int|
                0 <= k < children_of(b, news[t]).len() && #[trigger] pages_of(
                    a,
                    grandchildren(a, p, lo, hi)[place(b, news, t, k)],
                    (h - 2) as nat,
                ).contains(q)),
        h >= 2 ==> forall|k: int|
            0 <= k < children_of(b, news[t]).len() ==> 0 <= #[trigger] place(b, news, t, k)
                < grandchildren(a, p, lo, hi).len() && children_of(b, news[t])[k] == grandchildren(
                a,
                p,
                lo,
                hi,
            )[place(b, news, t, k)],
{
    reveal(rebuilt);
    let id = news[t];
    let node = node_at(b, id).unwrap();
    let olds = children_of(a, p).subrange(lo, hi);
    let all = grandchildren(a, p, lo, hi);
    let g = (h - 1) as nat;
    assert(node_ok(node, id, g, MIN_KEYS as nat));
    if h >= 2 {
        let gg = (h - 2) as nat;
        assert forall|k: int| 0 <= k < node.children.len() implies 0 <= #[trigger] place(
            b,
            news,
            t,
            k,
        ) < all.len() && node.children[k] == all[place(b, news, t, k)] by {
            assert(kids(b, news) == all);
        }
        assert forall|k: int| 0 <= k < node.children.len() implies subtree(
            b,
            #[trigger] node.children[k],
            gg,
            MIN_KEYS as nat,
        ) && pages_of(b, node.children[k], gg) == pages_of(a, node.children[k], gg)
            && !pages_of(b, node.children[k], gg).contains(id) by {
            let x = place(b, news, t, k);
            lemma_rebuilt_grandchild(a, b, p, h, min, lo, hi, news, x);
        }
        assert forall|k1: int, k2: int| 0 <= k1 < k2 < node.children.len() implies pages_of(
            b,
            #[trigger] node.children[k1],
            gg,
        ).disjoint(pages_of(b, #[trigger] node.children[k2], gg)) by {
            let x1 = place(b, news, t, k1);
            let x2 = place(b, news, t, k2);
            lemma_origin(a, p, lo, hi, x1);
            lemma_origin(a, p, lo, hi, x2);
            let (i1, j1) = origin(a, p, lo, hi, x1);
            let (i2, j2) = origin(a, p, lo, hi, x2);
            lemma_grandchildren_apart(a, p, h, min, i1, j1, i2, j2);
        }
        assert(subtree(b, id, g, MIN_KEYS as nat));
        assert forall|q: u32| #[trigger] pages_of(b, id, g).contains(q) implies q == id || (
        exists|k: int|
            0 <= k < children_of(b, id).len() && #[trigger] pages_of(
                a,
                all[place(b, news, t, k)],
                gg,
            ).contains(q)) by {
            if q != id {
                let k = lemma_page_place(b, id, g, q);
                assert(pages_of(a, all[place(b, news, t, k)], gg).contains(q));
            }
        }
    } else {
        assert(subtree(b, id, g, MIN_KEYS as nat));
    }
}

/// The place among the old children of the new child `j` that is none of
/// the rebuilt ones.
pub open spec fn old_place(lo: int, hi: int, n: int, j: int) -> int {
    if j < lo {
        j
    } else {
        j - n + (hi - lo)
    }
}

/// A page of a rebuilt child is none of the pages of a child outside.
proof fn lemma_rebuilt_apart_outside(
    a: PoolView,
    b: PoolView,
    p: u32,
    h: nat,
    min: nat,
    lo: int,
    hi: int,
    news: Seq<u32>,
    t: int,
    o: int,
    q: u32,
)
    requires
        rebuilt(a, b, p, h, min, lo, hi, news),
        0 <= t < news.len(),
        0 <= o < children_of(a, p).len(),
        !(lo <= o < hi),
        pages_of(b, news[t], (h - 1) as nat).contains(q),
    ensures
        !pages_of(a, children_of(a, p)[o], (h - 1) as nat).contains(q),
{
    reveal(rebuilt);
    let olds = children_of(a, p).subrange(lo, hi);
    let all = grandchildren(a, p, lo, hi);
    lemma_rebuilt_child(a, b, p, h, min, lo, hi, news, t);
    lemma_rebuilt_outside(a, b, p, h, min, lo, hi, news, o);
    lemma_pages_stored(a, p, h, min);
    if q == news[t] {
        if olds.contains(q) {
            let i = choose|i: int| 0 <= i < olds.len() && olds[i] == q;
            assert(children_of(a, p)[lo + i] == q);
            let d = children_of(a, p)[lo + i];
            assert(subtree(a, d, (h - 1) as nat, MIN_KEYS as nat));
            lemma_pages_stored(a, d, (h - 1) as nat, MIN_KEYS as nat);
            lemma_child_pages(a, p, h, lo + i, q);
            assert(!pages_of(a, d, (h - 1) as nat).contains(p));
        }
    } else {
        let k = choose|k: int|
            0 <= k < children_of(b, news[t]).len() && #[trigger] pages_of(
                a,
                all[place(b, news, t, k)],
                (h - 2) as nat,
            ).contains(q);
        let x = place(b, news, t, k);
        lemma_rebuilt_grandchild(a, b, p, h, min, lo, hi, news, x);
        lemma_origin(a, p, lo, hi, x);
        let (i, j) = origin(a, p, lo, hi, x);
        lemma_grandchild(a, p, h, min, lo, hi, i, j);
        let node = node_at(a, p).unwrap();
        if i < o {
            assert(pages_of(a, node.children[i], (h - 1) as nat).disjoint(
                pages_of(a, node.children[o], (h - 1) as nat),
            ));
        } else {
            assert(pages_of(a, node.children[o], (h - 1) as nat).disjoint(
                pages_of(a, node.children[i], (h - 1) as nat),
            ));
        }
    }
}

/// A page of a rebuilt child is not the parent's, and is an old page of the
/// parent's subtree or newly allocated.
proof fn lemma_rebuilt_page(
    a: PoolView,
    b: PoolView,
    p: u32,
    h: nat,
    min: nat,
    lo: int,
    hi: int,
    news: Seq<u32>,
    t: int,
    q: u32,
)
    requires
        rebuilt(a, b, p, h, min, lo, hi, news),
        0 <= t < news.len(),
        pages_of(b, news[t], (h - 1) as nat).contains(q),
    ensures
        q != p,
        pages_of(a, p, h).contains(q) || q >= a.disk.next_page_id,
{
    reveal(rebuilt);
    let olds = children_of(a, p).subrange(lo, hi);
    let all = grandchildren(a, p, lo, hi);
    lemma_rebuilt_child(a, b, p, h, min, lo, hi, news, t);
    lemma_pages_stored(a, p, h, min);
    if q == news[t] {
        if olds.contains(q) {
            let i = choose|i: int| 0 <= i < olds.len() && olds[i] == q;
            assert(children_of(a, p)[lo + i] == q);
            let d = children_of(a, p)[lo + i];
            assert(subtree(a, d, (h - 1) as nat, MIN_KEYS as nat));
            lemma_pages_stored(a, d, (h - 1) as nat, MIN_KEYS as nat);
            lemma_child_pages(a, p, h, lo + i, q);
            assert(!pages_of(a, d, (h - 1) as nat).contains(p));
        }
    } else {
        let k = choose|k: int|
            0 <= k < children_of(b, news[t]).len() && #[trigger] pages_of(
                a,
                all[place(b, news, t, k)],
                (h - 2) as nat,
            ).contains(q);
        let x = place(b, news, t, k);
        lemma_rebuilt_grandchild(a, b, p, h, min, lo, hi, news, x);
    }
}

/// Two rebuilt children have no page in common.
proof fn lemma_rebuilt_apart(
    a: PoolView,
    b: PoolView,
    p: u32,
    h: nat,
    min: nat,
    lo: int,
    hi: int,
    news: Seq<u32>,
    q: u32,
)
    requires
        rebuilt(a, b, p, h, min, lo, hi, news),
        news.len() == 2,
        pages_of(b, news[0], (h - 1) as nat).contains(q),
    ensures
        !pages_of(b, news[1], (h - 1) as nat).contains(q),
{
    reveal(rebuilt);
    let olds = children_of(a, p).subrange(lo, hi);
    let all = grandchildren(a, p, lo, hi);
    let gg = (h - 2) as nat;
    lemma_rebuilt_child(a, b, p, h, min, lo, hi, news, 0);
    lemma_rebuilt_child(a, b, p, h, min, lo, hi, news, 1);
    if pages_of(b, news[1], (h - 1) as nat).contains(q) {
        if q == news[0] {
            assert(q != news[1]);
            let k = choose|k: int|
                0 <= k < children_of(b, news[1]).len() && #[trigger] pages_of(
                    a,
                    all[place(b, news, 1, k)],
                    gg,
                ).contains(q);
            lemma_rebuilt_grandchild(a, b, p, h, min, lo, hi, news, place(b, news, 1, k));
        } else if q == news[1] {
            let k = choose|k: int|
                0 <= k < children_of(b, news[0]).len() && #[trigger] pages_of(
                    a,
                    all[place(b, news, 0, k)],
                    gg,
                ).contains(q);
            lemma_rebuilt_grandchild(a, b, p, h, min, lo, hi, news, place(b, news, 0, k));
        } else {
            let k0 = choose|k: int|
                0 <= k < children_of(b, news[0]).len() && #[trigger] pages_of(
                    a,
                    all[place(b, news, 0, k)],
                    gg,
                ).contains(q);
            let k1 = choose|k: int|
                0 <= k < children_of(b, news[1]).len() && #[trigger] pages_of(
                    a,
                    all[place(b, news, 1, k)],
                    gg,
                ).contains(q);
            let x0 = place(b, news, 0, k0);
            let x1 = place(b, news, 1, k1);
            lemma_origin(a, p, lo, hi, x0);
            lemma_origin(a, p, lo, hi, x1);
            let (i0, j0) = origin(a, p, lo, hi, x0);
            let (i1, j1) = origin(a, p, lo, hi, x1);
            lemma_grandchildren_apart(a, p, h, min, i0, j0, i1, j1);
        }
    }
}

/// After the children `lo .. hi` of a node were rebuilt, the subtree under
/// the node is well-formed, and its pages are old ones of its own or newly
/// allocated ones.
pub proof fn lemma_rebuilt(
    a: PoolView,
    b: PoolView,
    p: u32,
    h: nat,
    min: nat,
    lo: int,
    hi: int,
    news: Seq<u32>,
)
    requires
        rebuilt(a, b, p, h, min, lo, hi, news),
    ensures
        subtree(b, p, h, min),
        forall|q: u32|
            #[trigger] pages_of(b, p, h).contains(q) ==> pages_of(a, p, h).contains(q)
                || a.disk.next_page_id <= q,
        forall|q: u32|
            q < a.disk.next_page_id && !pages_of(a, p, h).contains(q) ==> #[trigger] same_page(
                a,
                b,
                q,
            ),
{
    reveal(rebuilt);
    let old = node_at(a, p).unwrap();
    let new = node_at(b, p).unwrap();
    let olds = old.children.subrange(lo, hi);
    let n = news.len() as int;
    let g = (h - 1) as nat;
    lemma_pages_stored(a, p, h, min);
    assert(new.children.len() == old.children.len() - (hi - lo) + n);
    assert forall|j: int| 0 <= j < new.children.len() implies {
        &&& subtree(b, #[trigger] new.children[j], g, MIN_KEYS as nat)
        &&& !pages_of(b, new.children[j], g).contains(p)
        &&& forall|q: u32|
            pages_of(b, new.children[j], g).contains(q) ==> pages_of(a, p, h).contains(q)
                || a.disk.next_page_id <= q
    } by {
        if lo <= j < lo + n {
            let t = j - lo;
            assert(new.children[j] == news[t]);
            lemma_rebuilt_child(a, b, p, h, min, lo, hi, news, t);
            assert forall|q: u32| pages_of(b, new.children[j], g).contains(q) implies q != p && (
            pages_of(a, p, h).contains(q) || a.disk.next_page_id <= q) by {
                lemma_rebuilt_page(a, b, p, h, min, lo, hi, news, t, q);
            }
        } else {
            let o = old_place(lo, hi, n, j);
            assert(new.children[j] == old.children[o]);
            lemma_rebuilt_outside(a, b, p, h, min, lo, hi, news, o);
        }
    }
    assert forall|j1: int, j2: int| 0 <= j1 < j2 < new.children.len() implies pages_of(
        b,
        #[trigger] new.children[j1],
        g,
    ).disjoint(pages_of(b, #[trigger] new.children[j2], g)) by {
        let r1 = lo <= j1 < lo + n;
        let r2 = lo <= j2 < lo + n;
        assert forall|q: u32| #[trigger]
            pages_of(b, new.children[j1], g).contains(q) implies !pages_of(
            b,
            new.children[j2],
            g,
        ).contains(q) by {
            if r1 && r2 {
                assert(new.children[j1] == news[0] && new.children[j2] == news[1]);
                lemma_rebuilt_apart(a, b, p, h, min, lo, hi, news, q);
            } else if r1 {
                let o = old_place(lo, hi, n, j2);
                assert(new.children[j1] == news[j1 - lo]);
                assert(new.children[j2] == old.children[o]);
                lemma_rebuilt_outside(a, b, p, h, min, lo, hi, news, o);
                lemma_rebuilt_apart_outside(a, b, p, h, min, lo, hi, news, j1 - lo, o, q);
            } else if r2 {
                let o = old_place(lo, hi, n, j1);
                assert(new.children[j2] == news[j2 - lo]);
                assert(new.children[j1] == old.children[o]);
                lemma_rebuilt_outside(a, b, p, h, min, lo, hi, news, o);
                if pages_of(b, new.children[j2], g).contains(q) {
                    lemma_rebuilt_apart_outside(a, b, p, h, min, lo, hi, news, j2 - lo, o, q);
                }
            } else {
                let o1 = old_place(lo, hi, n, j1);
                let o2 = old_place(lo, hi, n, j2);
                assert(new.children[j1] == old.children[o1]);
                assert(new.children[j2] == old.children[o2]);
                lemma_rebuilt_outside(a, b, p, h, min, lo, hi, news, o1);
                lemma_rebuilt_outside(a, b, p, h, min, lo, hi, news, o2);
                assert(pages_of(a, old.children[o1], g).disjoint(pages_of(a, old.children[o2], g)));
            }
        }
    }
    assert(subtree(b, p, h, min));
    assert forall|q: u32| #[trigger] pages_of(b, p, h).contains(q) implies pages_of(
        a,
        p,
        h,
    ).contains(q) || a.disk.next_page_id <= q by {
        if q != p {
            let j = lemma_page_place(b, p, h, q);
            assert(pages_of(b, new.children[j], g).contains(q));
        }
    }
    assert forall|q: u32|
        q < a.disk.next_page_id && !pages_of(a, p, h).contains(q) implies #[trigger] same_page(
        a,
        b,
        q,
    ) by {
        if olds.contains(q) {
            let i = choose|i: int| 0 <= i < olds.len() && olds[i] == q;
            let d = old.children[lo + i];
            assert(subtree(a, d, g, MIN_KEYS as nat));
            lemma_pages_stored(a, d, g, MIN_KEYS as nat);
            lemma_child_pages(a, p, h, lo + i, q);
        }
    }
}

/// The entries of the node in page `id`.
pub open spec fn entries_of(pool: PoolView, id: u32) -> Seq<Entry> {
    node_at(pool, id).unwrap().entries
}

/// The entries of the one or two nodes in the pages `ids`, with `sep`
/// between those of the first and those of the second.
pub open spec fn window_entries(pool: PoolView, ids: Seq<u32>, sep: Entry) -> Seq<Entry> {
    if ids.len() == 1 {
        entries_of(pool, ids[0])
    } else {
        entries_of(pool, ids[0]) + seq![sep] + entries_of(pool, ids[1])
    }
}

/// What the one or two subtrees of height `h` under the pages `ids` hold,
/// with `sep` between the first and the second.
pub open spec fn window_contents(pool: PoolView, ids: Seq<u32>, sep: Entry, h: nat) -> Seq<Entry> {
    if ids.len() == 1 {
        contents(pool, ids[0], h)
    } else {
        contents(pool, ids[0], h) + seq![sep] + contents(pool, ids[1], h)
    }
}

/// What the subtrees of height `h` under the pages `ids` hold, one by one.
pub open spec fn contents_of_all(pool: PoolView, ids: Seq<u32>, h: nat) -> Seq<Seq<Entry>> {
    Seq::new(ids.len(), |i: int| contents(pool, ids[i], h))
}

/// One or two subtrees side by side hold their entries where they are
/// leaves, and else what one node with the entries and children of both
/// would hold.
pub proof fn lemma_window_contents(pool: PoolView, ids: Seq<u32>, sep: Entry, h: nat)
    requires
        1 <= ids.len() <= 2,
        forall|t: int|
            0 <= t < ids.len() ==> node_at(pool, #[trigger] ids[t]) is Some && (h > 0
                ==> children_of(pool, ids[t]).len() == entries_of(pool, ids[t]).len() + 1),
    ensures
        window_contents(pool, ids, sep, h) == if h == 0 {
            window_entries(pool, ids, sep)
        } else {
            flat(
                contents_of_all(pool, kids(pool, ids), (h - 1) as nat),
                window_entries(pool, ids, sep),
            )
        },
{
    if h > 0 {
        let g = (h - 1) as nat;
        let n0 = node_at(pool, ids[0]).unwrap();
        assert(children_contents(pool, n0, g) =~= contents_of_all(pool, n0.children, g));
        if ids.len() == 2 {
            let n1 = node_at(pool, ids[1]).unwrap();
            assert(children_contents(pool, n1, g) =~= contents_of_all(pool, n1.children, g));
            lemma_flat_concat(
                contents_of_all(pool, n0.children, g),
                n0.entries,
                sep,
                contents_of_all(pool, n1.children, g),
                n1.entries,
            );
            assert(contents_of_all(pool, kids(pool, ids), g) =~= contents_of_all(
                pool,
                n0.children,
                g,
            ) + contents_of_all(pool, n1.children, g));
        }
    }
}

/// Rebuilt children that have the entries of the old ones in their order
/// hold what the old ones held.
pub proof fn lemma_rebuilt_contents(
    a: PoolView,
    b: PoolView,
    p: u32,
    h: nat,
    min: nat,
    lo: int,
    hi: int,
    news: Seq<u32>,
    old_sep: Entry,
    new_sep: Entry,
)
    requires
        rebuilt(a, b, p, h, min, lo, hi, news),
        window_entries(b, news, new_sep) == window_entries(
            a,
            children_of(a, p).subrange(lo, hi),
            old_sep,
        ),
    ensures
        window_contents(b, news, new_sep, (h - 1) as nat) == window_contents(
            a,
            children_of(a, p).subrange(lo, hi),
            old_sep,
            (h - 1) as nat,
        ),
{
    reveal(rebuilt);
    let olds = children_of(a, p).subrange(lo, hi);
    let g = (h - 1) as nat;
    assert forall|t: int| 0 <= t < olds.len() implies node_at(a, #[trigger] olds[t]) is Some && (g
        > 0 ==> children_of(a, olds[t]).len() == entries_of(a, olds[t]).len() + 1) by {
        assert(olds[t] == children_of(a, p)[lo + t]);
        assert(subtree(a, children_of(a, p)[lo + t], g, MIN_KEYS as nat));
    }
    assert forall|t: int| 0 <= t < news.len() implies node_at(b, #[trigger] news[t]) is Some && (g
        > 0 ==> children_of(b, news[t]).len() == entries_of(b, news[t]).len() + 1) by {
        assert(node_ok(node_at(b, news[t]).unwrap(), news[t], g, MIN_KEYS as nat));
    }
    lemma_window_contents(a, olds, old_sep, g);
    lemma_window_contents(b, news, new_sep, g);
    if g > 0 {
        let all = grandchildren(a, p, lo, hi);
        assert(contents_of_all(b, all, (g - 1) as nat) =~= contents_of_all(a, all, (g - 1) as nat))
            by {
            assert forall|x: int| 0 <= x < all.len() implies contents(b, all[x], (g - 1) as nat)
                == contents(a, all[x], (g - 1) as nat) by {
                lemma_rebuilt_grandchild(a, b, p, h, min, lo, hi, news, x);
            }
        }
    }
}

/// After a rebuild the children of the node hold what the old children
/// outside `lo .. hi` held, with what the rebuilt ones hold in between.
pub proof fn lemma_rebuilt_children(
    a: PoolView,
    b: PoolView,
    p: u32,
    h: nat,
    min: nat,
    lo: int,
    hi: int,
    news: Seq<u32>,
)
    requires
        rebuilt(a, b, p, h, min, lo, hi, news),
    ensures
        0 <= lo < hi <= children_of(a, p).len(),
        children_contents(b, node_at(b, p).unwrap(), (h - 1) as nat) == children_contents(
            a,
            node_at(a, p).unwrap(),
            (h - 1) as nat,
        ).take(lo) + contents_of_all(b, news, (h - 1) as nat) + children_contents(
            a,
            node_at(a, p).unwrap(),
            (h - 1) as nat,
        ).skip(hi),
{
    reveal(rebuilt);
    let g = (h - 1) as nat;
    let old = node_at(a, p).unwrap();
    let new = node_at(b, p).unwrap();
    let n = news.len() as int;
    let cs = children_contents(a, old, g);
    let cs2 = children_contents(b, new, g);
    let want = cs.take(lo) + contents_of_all(b, news, g) + cs.skip(hi);
    assert(cs2.len() == want.len());
    assert forall|j: int| 0 <= j < cs2.len() implies cs2[j] == want[j] by {
        if lo <= j < lo + n {
            assert(new.children[j] == news[j - lo]);
        } else {
            let o = old_place(lo, hi, n, j);
            assert(new.children[j] == old.children[o]);
            lemma_rebuilt_outside(a, b, p, h, min, lo, hi, news, o);
        }
    }
    assert(cs2 =~= want);
}

/// After a rebuild that keeps the entries of the rebuilt children and
/// between them in their order, the node holds what it held.
pub proof fn lemma_rebuilt_same(
    a: PoolView,
    b: PoolView,
    p: u32,
    h: nat,
    min: nat,
    lo: int,
    hi: int,
    news: Seq<u32>,
    new_sep: Entry,
)
    requires
        rebuilt(a, b, p, h, min, lo, hi, news),
        window_entries(b, news, new_sep) == window_entries(
            a,
            children_of(a, p).subrange(lo, hi),
            entries_of(a, p)[lo],
        ),
        entries_of(b, p) == if news.len() == 2 {
            entries_of(a, p).take(lo) + seq![new_sep] + entries_of(a, p).skip(hi - 1)
        } else {
            entries_of(a, p).take(lo) + entries_of(a, p).skip(hi - 1)
        },
    ensures
        contents(b, p, h) == contents(a, p, h),
{
    let g = (h - 1) as nat;
    let old = node_at(a, p).unwrap();
    let new = node_at(b, p).unwrap();
    let olds = old.children.subrange(lo, hi);
    let old_sep = old.entries[lo];
    let cs = children_contents(a, old, g);
    let es = old.entries;
    let mid = contents_of_all(b, news, g);
    lemma_rebuilt_contents(a, b, p, h, min, lo, hi, news, old_sep, new_sep);
    lemma_rebuilt_children(a, b, p, h, min, lo, hi, news);
    assert(h >= 1 && node_at(a, p) is Some && node_at(b, p) is Some && cs.len() == es.len() + 1
        && hi - lo <= 2 && 1 <= news.len() <= 2) by {
        reveal(rebuilt);
    }
    assert(contents(a, p, h) == flat(cs, es));
    assert(contents(b, p, h) == flat(children_contents(b, new, g), new.entries));
    assert(olds[0] == old.children[lo]);
    assert(cs[lo] == contents(a, olds[0], g));
    if hi - lo == 2 {
        assert(olds[1] == old.children[lo + 1]);
        assert(cs[lo + 1] == contents(a, olds[1], g));
    }
    assert(mid[0] == contents(b, news[0], g));
    if news.len() == 2 {
        assert(mid[1] == contents(b, news[1], g));
    }
    lemma_flat_window(cs, es, lo, hi, mid, new_sep);
}

} // verus!
