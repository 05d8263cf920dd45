//! A bounded cache of pages over the disk manager, with write-through.

use crate::storage::disk_manager::{DiskManager, DiskView};
use crate::storage::error::DatabaseError;
use crate::storage::page::{Page, PAGE_SIZE, PageView};
use std::collections::HashMap;
use vstd::prelude::*;
use vstd::std_specs::iter::IteratorSpec;
use vstd::string::*;

verus! {

broadcast use vstd::std_specs::hash::group_hash_axioms;

/// The state of a buffer pool: the cached pages by id, the number of pages
/// that the cache may hold, and the disk under it.
pub struct PoolView {
    pub pages: Map<u32, PageView>,
    pub capacity: nat,
    pub disk: DiskView,
}

impl PoolView {
    /// Whether the cache holds as many pages as it may, or more.
    pub open spec fn is_full(self) -> bool {
        self.pages.len() >= self.capacity
    }

    /// The state after a new page was made, where that is possible.
    pub open spec fn with_new_page(self) -> PoolView {
        PoolView {
            pages: self.pages.insert(
                self.disk.next_page_id,
                PageView::fresh(self.disk.next_page_id),
            ),
            disk: self.disk.allocated(),
            ..self
        }
    }

    /// The state after `k` new pages were made one after the other.
    pub open spec fn with_new_pages(self, k: nat) -> PoolView
        decreases k,
    {
        if k == 0 {
            self
        } else {
            self.with_new_pages((k - 1) as nat).with_new_page()
        }
    }
}

/// The file after the dirty pages among `pages` were written one after the
/// other, up to the first whose write fails, and whether none failed.
pub open spec fn flushed(disk: DiskView, pages: Seq<PageView>) -> (Seq<u8>, bool)
    decreases pages.len(),
{
    if pages.len() == 0 {
        (disk.heap, true)
    } else {
        let (heap, ok) = flushed(disk, pages.drop_last());
        if !ok {
            (heap, false)
        } else if !pages.last().is_dirty {
            (heap, true)
        } else {
            match DiskManager::write_outcome(
                DiskView { heap, next_page_id: disk.next_page_id },
                pages.last(),
            ) {
                Ok(after) => (after, true),
                Err(_) => (heap, false),
            }
        }
    }
}

/// The cached pages with the ids in `order`, in that order.
pub open spec fn pages_in_order(pages: Map<u32, PageView>, order: Seq<u32>) -> Seq<PageView> {
    Seq::new(order.len(), |i: int| pages[order[i]])
}

/// Whether no cached page has its dirty flag set.
pub open spec fn all_clean(pool: PoolView) -> bool {
    forall|id: u32| pool.pages.contains_key(id) ==> !(#[trigger] pool.pages[id]).is_dirty
}

/// Where no page is dirty, none is written.
pub proof fn lemma_flushed_clean(disk: DiskView, pages: Seq<PageView>)
    requires
        forall|i: int| 0 <= i < pages.len() ==> !(#[trigger] pages[i]).is_dirty,
    ensures
        flushed(disk, pages) == (disk.heap, true),
    decreases pages.len(),
{
    if pages.len() > 0 {
        lemma_flushed_clean(disk, pages.drop_last());
    }
}

/// Once a write has failed, the pages behind it are not written.
pub proof fn lemma_flushed_stops(disk: DiskView, pages: Seq<PageView>, n: int)
    requires
        0 <= n <= pages.len(),
        !flushed(disk, pages.take(n)).1,
    ensures
        flushed(disk, pages) == flushed(disk, pages.take(n)),
    decreases pages.len() - n,
{
    if n < pages.len() {
        assert(pages.take(n + 1).drop_last() =~= pages.take(n));
        lemma_flushed_stops(disk, pages, n + 1);
    } else {
        assert(pages.take(n) =~= pages);
    }
}

/// The cache and the disk manager.
pub struct BufferPool {
    pages: HashMap<u32, Page>,
    capacity: usize,
    disk_manager: DiskManager,
}

impl View for BufferPool {
    type V = PoolView;

    closed spec fn view(&self) -> PoolView {
        PoolView {
            pages: self.pages@.map_values(|p: Page| p@),
            capacity: self.capacity as nat,
            disk: self.disk_manager@,
        }
    }
}

impl BufferPool {
    proof fn lemma_cache_view(&self)
        ensures
            self@.pages.dom() == self.pages@.dom(),
            self@.pages.len() == self.pages@.len(),
            forall|k: u32| self.pages@.contains_key(k) ==> #[trigger] self@.pages[k] == self.pages@[k]@,
    {
        assert(self@.pages.dom() =~= self.pages@.dom());
    }

    /// The cache holds finitely many pages.
    pub proof fn lemma_cache_finite(&self)
        ensures
            self@.pages.dom().finite(),
    {
        assert(self@.pages.dom() =~= self.pages@.dom());
    }

    /// A pool with an empty cache.
    pub fn new(capacity: usize, disk_manager: DiskManager) -> (pool: Self)
        ensures
            pool@ == (PoolView {
                pages: Map::empty(),
                capacity: capacity as nat,
                disk: disk_manager@,
            }),
    {
        let pool = Self { pages: HashMap::new(), capacity, disk_manager };
        assert(pool@.pages =~= Map::empty());
        pool
    }

    /// The disk manager under the cache.
    pub fn disk_manager(&self) -> (disk: &DiskManager)
        ensures
            disk@ == self@.disk,
    {
        &self.disk_manager
    }

    /// Whether the page is in the cache.
    pub fn holds(&self, page_id: u32) -> (res: bool)
        ensures
            res == self@.pages.contains_key(page_id),
    {
        proof {
            self.lemma_cache_view();
        }
        self.pages.contains_key(&page_id)
    }

    /// The page with the given id: from the cache where it is there, else
    /// from disk and into the cache. A pool that is full reads no page in.
    pub fn get_page(&mut self, page_id: u32) -> (res: Result<Page, DatabaseError>)
        ensures
            old(self)@.pages.contains_key(page_id) ==> (res matches Ok(page) && page@ == old(self)@.pages[page_id]) && final(self)@ == old(self)@,
            !old(self)@.pages.contains_key(page_id) && old(self)@.is_full() ==> (
            res matches Err(DatabaseError::BufferPoolFull)) && final(self)@ == old(self)@,
            !old(self)@.pages.contains_key(page_id) && !old(self)@.is_full() ==> match old(self)@.disk.page(page_id) {
                Some(p) => (res matches Ok(page) && page@ == p) && final(self)@ == (PoolView {
                    pages: old(self)@.pages.insert(page_id, p),
                    ..old(self)@
                }),
                None => (res matches Err(DatabaseError::InvalidOperation(_))) && final(self)@
                    == old(self)@,
            },
    {
        proof {
            self.lemma_cache_view();
        }
        if let Some(page) = self.pages.get(&page_id) {
            return Ok(page.clone());
        }
        if self.pages.len() >= self.capacity {
            return Err(DatabaseError::BufferPoolFull);
        }
        match self.disk_manager.read_page(page_id) {
            Ok(page) => {
                let copy = page.clone();
                self.pages.insert(page_id, page);
                assert(self@.pages =~= old(self)@.pages.insert(page_id, copy@));
                Ok(copy)
            },
            Err(_) => Err(DatabaseError::InvalidOperation(String::from_str("Failed to read page"))),
        }
    }

    /// A new page: zeros on disk under the next page id, and a fresh page in
    /// the cache. A pool that is full makes no page.
    pub fn new_page(&mut self) -> (res: Result<Page, DatabaseError>)
        ensures
            old(self)@.is_full() ==> (res matches Err(DatabaseError::BufferPoolFull)) && final(self)@ == old(self)@,
            !old(self)@.is_full() && !old(self)@.disk.can_allocate() ==> (
            res matches Err(DatabaseError::InvalidOperation(_))) && final(self)@ == old(self)@,
            !old(self)@.is_full() && old(self)@.disk.can_allocate() ==> (res matches Ok(page)
                && page@ == PageView::fresh(old(self)@.disk.next_page_id)) && final(self)@ == old(self)@.with_new_page(),
    {
        proof {
            self.lemma_cache_view();
        }
        if self.pages.len() >= self.capacity {
            return Err(DatabaseError::BufferPoolFull);
        }
        let page_id = self.disk_manager.allocate_page()?;
        let page = Page::new(page_id);
        self.pages.insert(page_id, page.clone());
        assert(self@.pages =~= old(self)@.pages.insert(page_id, page@));
        Ok(page)
    }

    /// Puts the page into the cache under `page_id`, in place of what was
    /// there, and writes it to disk at the place of the id in its header.
    pub fn write_page(&mut self, page_id: u32, page: Page) -> (res: Result<(), DatabaseError>)
        ensures
            final(self)@.pages == old(self)@.pages.insert(page_id, page@),
            final(self)@.capacity == old(self)@.capacity,
            final(self)@.disk.next_page_id == old(self)@.disk.next_page_id,
            match DiskManager::write_outcome(old(self)@.disk, page@) {
                Ok(heap) => res is Ok && final(self)@.disk.heap == heap,
                Err(_) => (res matches Err(DatabaseError::InvalidOperation(_))) && final(self)@.disk == old(self)@.disk,
            },
    {
        self.pages.insert(page_id, page.clone());
        assert(self@.pages =~= old(self)@.pages.insert(page_id, page@));
        match self.disk_manager.write_page(&page) {
            Ok(()) => Ok(()),
            Err(_) => Err(DatabaseError::InvalidOperation(String::from_str("Failed to write page"))),
        }
    }

    /// Takes the page out of the cache and overwrites it with zeros on disk.
    pub fn free_page(&mut self, page_id: u32) -> (res: Result<(), DatabaseError>)
        ensures
            final(self)@.pages == old(self)@.pages.remove(page_id),
            final(self)@.capacity == old(self)@.capacity,
            final(self)@.disk.next_page_id == old(self)@.disk.next_page_id,
            match DiskManager::free_outcome(old(self)@.disk, page_id) {
                Ok(heap) => res is Ok && final(self)@.disk.heap == heap,
                Err(true) => (res matches Err(DatabaseError::InvalidPage)) && final(self)@.disk
                    == old(self)@.disk,
                Err(false) => (res matches Err(DatabaseError::IoError(_))) && final(self)@.disk
                    == old(self)@.disk,
            },
    {
        self.pages.remove(&page_id);
        assert(self@.pages =~= old(self)@.pages.remove(page_id));
        self.disk_manager.free_page(page_id)
    }

    /// Writes every cached page whose dirty flag is set to disk. The order
    /// is that in which the cache hands its pages out; the first write that
    /// fails ends the flush.
    pub fn flush(&mut self) -> (res: Result<(), DatabaseError>)
        ensures
            final(self)@.pages == old(self)@.pages,
            final(self)@.capacity == old(self)@.capacity,
            final(self)@.disk.next_page_id == old(self)@.disk.next_page_id,
            res is Err ==> res matches Err(DatabaseError::InvalidOperation(_)),
            exists|order: Seq<u32>|
                {
                    &&& order.no_duplicates()
                    &&& order.to_set() == old(self)@.pages.dom()
                    &&& flushed(
                        old(self)@.disk,
                        #[trigger] pages_in_order(old(self)@.pages, order),
                    ) == (final(self)@.disk.heap, res is Ok)
                },
            all_clean(old(self)@) ==> res is Ok && final(self)@ == old(self)@,
    {
        proof {
            self.lemma_cache_view();
        }
        let ghost start = self@;
        let ghost order: Seq<u32> = vstd::std_specs::hash::spec_keys_iter(
            &self.pages,
        ).remaining().unref();
        proof {
            if all_clean(start) {
                assert forall|i: int| 0 <= i < order.len() implies !(#[trigger] pages_in_order(
                    start.pages,
                    order,
                )[i]).is_dirty by {
                    assert(order.to_set().contains(order[i]));
                }
                lemma_flushed_clean(start.disk, pages_in_order(start.pages, order));
                assert forall|n: int| 0 <= n <= order.len() implies #[trigger] flushed(
                    start.disk,
                    pages_in_order(start.pages, order.take(n)),
                ) == (start.disk.heap, true) by {
                    assert forall|i: int| 0 <= i < n implies !(#[trigger] pages_in_order(
                        start.pages,
                        order.take(n),
                    )[i]).is_dirty by {
                        assert(order.to_set().contains(order[i]));
                    }
                    lemma_flushed_clean(start.disk, pages_in_order(start.pages, order.take(n)));
                }
            }
        }
        for key in it: self.pages.keys()
            invariant
                self.pages == old(self).pages,
                self.capacity == old(self).capacity,
                self@.pages == start.pages,
                self@.disk.next_page_id == start.disk.next_page_id,
                start == old(self)@,
                order == it.seq().unref(),
                order.no_duplicates(),
                order.to_set() == start.pages.dom(),
                flushed(start.disk, pages_in_order(start.pages, order.take(it.index()))) == (
                    self@.disk.heap,
                    true,
                ),
                all_clean(start) ==> self@ == start,
        {
            proof {
                self.lemma_cache_view();
            }
            let ghost i = it.index();
            assert(order.to_set().contains(order[i]));
            match self.pages.get(key) {
                Some(page) => {
                    let ghost done = pages_in_order(start.pages, order.take(i));
                    let ghost next = pages_in_order(start.pages, order.take(i + 1));
                    assert(next.drop_last() =~= done);
                    assert(next.last() == page@);
                    if page.is_dirty() {
                        match self.disk_manager.write_page(page) {
                            Ok(()) => {},
                            Err(_) => {
                                proof {
                                    lemma_flushed_stops(
                                        start.disk,
                                        pages_in_order(start.pages, order),
                                        i + 1,
                                    );
                                    assert(pages_in_order(start.pages, order).take(i + 1) =~= next);
                                }
                                return Err(
                                    DatabaseError::InvalidOperation(
                                        String::from_str("Failed to write page"),
                                    ),
                                );
                            },
                        }
                    }
                },
                None => {},
            }
        }
        proof {
            assert(order.take(order.len() as int) =~= order);
        }
        Ok(())
    }
}

/// A pool whose cache is empty can make as many pages as its capacity says,
/// one after the other, and is full after that: one more `new_page` fails
/// with `BufferPoolFull`, and so does `get_page` of a page that is not in
/// the cache.
pub proof fn lemma_pool_fills_up(pool: PoolView, k: nat)
    requires
        pool.pages == Map::<u32, PageView>::empty(),
        k <= pool.capacity,
        pool.disk.next_page_id + k < u32::MAX,
        (pool.disk.next_page_id + k) * PAGE_SIZE <= usize::MAX,
    ensures
        forall|i: nat|
            i < k ==> !(#[trigger] pool.with_new_pages(i)).is_full() && pool.with_new_pages(
                i,
            ).disk.can_allocate(),
        pool.with_new_pages(k).pages.dom().finite(),
        pool.with_new_pages(k).pages.len() == k,
        pool.with_new_pages(k).capacity == pool.capacity,
        pool.with_new_pages(k).disk.next_page_id == pool.disk.next_page_id + k,
        forall|id: u32|
            pool.with_new_pages(k).pages.contains_key(id) <==> pool.disk.next_page_id <= id
                < pool.disk.next_page_id + k,
        k == pool.capacity ==> pool.with_new_pages(k).is_full(),
    decreases k,
{
    if k > 0 {
        let j = (k - 1) as nat;
        lemma_pool_fills_up(pool, j);
        let before = pool.with_new_pages(j);
        assert(!before.pages.contains_key(before.disk.next_page_id));
        assert forall|i: nat| i < k implies !(#[trigger] pool.with_new_pages(i)).is_full()
            && pool.with_new_pages(i).disk.can_allocate() by {
            if i == j {
                assert(!before.is_full());
                assert(before.disk.can_allocate());
            }
        }
    } else {
        assert(pool.pages.dom() =~= Set::<u32>::empty());
    }
}

} // verus!
