//! The engine: an index in a buffer pool over the heap file, and a log
//! that every change of the index leaves its records in.

use crate::index::insert::{grown, has_room, lemma_grown_none};
use crate::index::layout::{Entry, NodeView};
use crate::index::open::{all_read, can_open, lemma_opens_again, lemma_pages_finite};
use crate::index::order::{has_key, inserted, removed, replaced, sorted};
use crate::index::shape::{
    contents, lemma_height_unique, lemma_node_fits, lemma_pages_stored, lemma_with_new_page,
    lemma_with_node, node_ok, pages_of, pool_ok, small, stored,
};
use crate::index::tree::{BTree, MAX_DEPTH, pairs_view};
use crate::storage::operations;
use crate::storage::buffer_pool::{
    all_clean, BufferPool, flushed, pages_in_order, PoolView,
};
use crate::storage::disk_manager::{DiskManager, DiskView, pages_in};
use crate::storage::error::DatabaseError;
use crate::storage::operations::{
    byte_slice, cut_to, joinable, joined_to, length_outcome, no_strings, only_strings,
    unjoinable, write_record,
};
use crate::storage::page::PAGE_SIZE;
use crate::storage::transaction::{
    ManagerView, next_id, Transaction, TransactionId, TransactionManager,
};
use crate::storage::value::{sum, Value, ValueView};
use crate::storage::wal::{RecordView, WalView, WriteAheadLog};
use vstd::prelude::*;
use vstd::string::*;
use vstd::utf8::*;

verus! {

/// The number of pages that the engine's buffer pool may hold.
pub const POOL_CAPACITY: usize = 1000;

/// The disk of an engine that was opened on a file with the given bytes:
/// the whole pages of the file count as allocated.
pub open spec fn reopened(bytes: Seq<u8>) -> DiskView {
    DiskView { heap: bytes, next_page_id: pages_in(bytes.len()) }
}

/// The pool of an engine that is about to open a file with the given
/// bytes: nothing is in the cache.
pub open spec fn fresh_pool(bytes: Seq<u8>) -> PoolView {
    PoolView { pages: Map::empty(), capacity: POOL_CAPACITY as nat, disk: reopened(bytes) }
}

/// The page id of the root of the index that a file holds: the one that
/// the header of page 0 names.
pub open spec fn index_root(bytes: Seq<u8>) -> u32 {
    reopened(bytes).page(0).unwrap().header.page_id
}

/// Whether a file with the given bytes holds an index that the engine
/// opens: a well-formed tree in key order under the page that the header of
/// page 0 names, of no more pages than the buffer pool may hold.
pub open spec fn holds_index(bytes: Seq<u8>) -> bool {
    reopened(bytes).page(0) is Some && exists|h: nat| #[trigger]
        can_open(fresh_pool(bytes), index_root(bytes), h)
}

/// The height of the index that a file holds.
pub open spec fn index_height(bytes: Seq<u8>) -> nat {
    choose|h: nat| #[trigger] can_open(fresh_pool(bytes), index_root(bytes), h)
}

/// The entries of the index that a file holds, in key order.
pub open spec fn index_of(bytes: Seq<u8>) -> Seq<Entry> {
    contents(all_read(fresh_pool(bytes)), index_root(bytes), index_height(bytes))
}

/// The index that a file holds has one height.
pub proof fn lemma_index_height(bytes: Seq<u8>, h: nat)
    requires
        can_open(fresh_pool(bytes), index_root(bytes), h),
    ensures
        index_height(bytes) == h,
{
    lemma_height_unique(
        all_read(fresh_pool(bytes)),
        index_root(bytes),
        h,
        0,
        index_height(bytes),
        0,
    );
}

/// What an engine holds, an engine opens again from the bytes of its
/// heap file with the same entries, where the header of page 0 names the
/// root of the index, the index is `MAX_DEPTH` levels high at most, and the
/// cache holds no more pages than it may.
pub proof fn lemma_engine_opens_again(db: Database)
    requires
        db.wf(),
        db.tree().height() <= MAX_DEPTH,
        db.pool().capacity == POOL_CAPACITY,
        db.pool().pages.len() <= POOL_CAPACITY,
        db.pool().disk.page(0) is Some,
        db.pool().disk.page(0).unwrap().header.page_id == db.tree().root(),
    ensures
        holds_index(db.pool().disk.heap),
        index_of(db.pool().disk.heap) == db.entries(),
{
    let pool = db.pool();
    let bytes = pool.disk.heap;
    let fresh = fresh_pool(bytes);
    let root = db.tree().root();
    let h = db.tree().height();
    reveal(BTree::wf);
    assert(pool.disk.next_page_id <= pages_in(bytes.len())) by (nonlinear_arith)
        requires
            pool.disk.next_page_id * PAGE_SIZE <= bytes.len(),
            PAGE_SIZE == 4096,
            pool.disk.next_page_id <= u32::MAX,
            pages_in(bytes.len()) == (if bytes.len() / 4096 >= u32::MAX {
                u32::MAX
            } else {
                (bytes.len() / 4096) as u32
            }),
    ;
    assert(reopened(bytes).page(0) == pool.disk.page(0));
    lemma_pages_stored(pool, root, h, 0);
    lemma_pages_finite(pool, root, h);
    assert forall|q: u32| pages_of(pool, root, h).contains(q) implies pool.pages.dom().contains(
        q,
    ) by {
        assert(stored(pool, q));
    }
    vstd::set_lib::lemma_len_subset(pages_of(pool, root, h), pool.pages.dom());
    lemma_opens_again(db.tree(), pool, fresh);
    lemma_index_height(bytes, h);
}

/// The log after a transaction that changed the index and was committed:
/// a begin record, a write record and a commit record behind what was
/// there.
pub open spec fn committed(log: WalView, txn: u64, root: u32, data: Seq<u8>) -> WalView {
    log.logged(RecordView::Begin(txn)).logged(
        RecordView::Write { txn_id: txn, page_id: root, offset: 0, data },
    ).logged(RecordView::Commit(txn))
}

/// The log after a transaction that was rolled back: a begin record and a
/// rollback record behind what was there.
pub open spec fn rolled_back(log: WalView, txn: u64) -> WalView {
    log.logged(RecordView::Begin(txn)).logged(RecordView::Rollback(txn))
}

/// The engine.
pub struct Database {
    buffer_pool: BufferPool,
    transaction_manager: TransactionManager,
    index: BTree,
    wal: WriteAheadLog,
}

impl Database {
    /// The buffer pool of the engine.
    pub closed spec fn pool(&self) -> PoolView {
        self.buffer_pool@
    }

    /// The index of the engine.
    pub closed spec fn tree(&self) -> BTree {
        self.index
    }

    /// The log of the engine.
    pub closed spec fn log(&self) -> WalView {
        self.wal@
    }

    /// The transactions of the engine.
    pub closed spec fn transactions(&self) -> ManagerView {
        self.transaction_manager@
    }

    /// The id that the next transaction gets.
    pub open spec fn next_txn(&self) -> u64 {
        self.transactions().next_txn_id
    }

    /// Whether the index is a well-formed B-tree in the pages of the pool,
    /// and no page in the cache is dirty.
    pub open spec fn wf(&self) -> bool {
        self.tree().wf(self.pool()) && all_clean(self.pool())
    }

    /// What the engine holds, in key order.
    pub open spec fn entries(&self) -> Seq<Entry> {
        self.tree().entries(self.pool())
    }

    /// Whether the log has sequence numbers left for the three records of a
    /// transaction.
    pub open spec fn log_room(&self) -> bool {
        self.log().sequence <= u64::MAX - 3
    }

    /// Whether the pool has room for the pages that putting an entry in may
    /// take.
    pub open spec fn room(&self) -> bool {
        has_room(self.pool(), self.tree().height() + 3) && self.tree().height() < usize::MAX
    }

    /// Opens the engine on a heap file. `None` stands for a file that was
    /// not there, and gives an empty index with its root in page 0. Else
    /// the bytes of the file are taken to hold an index with its root in the
    /// page that the header of page 0 names: the pages of the index are read
    /// into the cache and checked, and a file that holds no well-formed index
    /// there is refused.
    pub fn new(existing: Option<Vec<u8>>) -> (res: Result<Self, DatabaseError>)
        ensures
            existing is None ==> (res matches Ok(db) && {
                &&& db.wf()
                &&& db.entries() == Seq::<Entry>::empty()
                &&& db.log() == (WalView { bytes: Seq::empty(), sequence: 0 })
                &&& db.next_txn() == 1
                &&& db.tree().height() == 0
                &&& db.tree().root() == 0
                &&& db.pool().capacity == POOL_CAPACITY
                &&& db.pool().pages.len() == 1
                &&& db.pool().disk.next_page_id == 1
            }),
            existing matches Some(bytes) ==> {
                &&& reopened(bytes@).page(0) is None ==> (res matches Err(
                    DatabaseError::InvalidOperation(_),
                ))
                &&& res is Ok <==> holds_index(bytes@)
                &&& res matches Ok(db) ==> {
                    &&& db.wf()
                    &&& db.pool().disk == reopened(bytes@)
                    &&& db.tree().root() == index_root(bytes@)
                    &&& db.tree().height() == index_height(bytes@)
                    &&& db.entries() == index_of(bytes@)
                }
            },
            res matches Ok(db) ==> db.pool().capacity == POOL_CAPACITY && db.log() == (WalView {
                bytes: Seq::empty(),
                sequence: 0,
            }) && db.next_txn() == 1,
    {
        let wal = WriteAheadLog::new();
        match existing {
            None => {
                let disk_manager = DiskManager::new(Vec::new());
                let mut buffer_pool = BufferPool::new(POOL_CAPACITY, disk_manager);
                let ghost empty = buffer_pool@;
                proof {
                    assert(empty.pages.dom() =~= Set::<u32>::empty());
                    lemma_with_new_page(empty);
                }
                let page = buffer_pool.new_page()?;
                let page_id = page.header.page_id;
                let ghost paged = buffer_pool@;
                let index = BTree::new(page_id);
                proof {
                    let leaf = NodeView {
                        page_id: 0,
                        is_leaf: true,
                        entries: Seq::empty(),
                        children: Seq::empty(),
                    };
                    assert(node_ok(leaf, 0, 0, 0));
                    lemma_node_fits(leaf, 0, 0, 0);
                    lemma_with_node(paged, leaf);
                    assert(paged.pages.dom() =~= set![0u32]);
                }
                index.init(&mut buffer_pool)?;
                proof {
                    reveal(BTree::wf);
                }
                Ok(
                    Self {
                        buffer_pool,
                        transaction_manager: TransactionManager::new(),
                        index,
                        wal,
                    },
                )
            },
            Some(heap) => {
                let ghost len = heap.len();
                let ghost old_bytes = heap@;
                let mut disk_manager = DiskManager::new(heap);
                let first = match disk_manager.read_page(0) {
                    Ok(page) => page,
                    Err(_) => {
                        return Err(
                            DatabaseError::InvalidOperation(
                                String::from_str("Failed to read page"),
                            ),
                        );
                    },
                };
                let mut buffer_pool = BufferPool::new(POOL_CAPACITY, disk_manager);
                let ghost empty = buffer_pool@;
                proof {
                    assert(empty.pages.dom() =~= Set::<u32>::empty());
                    assert(empty.disk.next_page_id * PAGE_SIZE <= empty.disk.heap.len());
                    assert(empty.pages.dom().finite());
                    assert(pool_ok(empty));
                    assert(all_clean(empty));
                }
                assert(empty == fresh_pool(old_bytes));
                let index = BTree::open(first.header.page_id, &mut buffer_pool)?;
                proof {
                    lemma_index_height(old_bytes, index.height());
                }
                Ok(
                    Self {
                        buffer_pool,
                        transaction_manager: TransactionManager::new(),
                        index,
                        wal,
                    },
                )
            },
        }
    }

    /// Begins a transaction.
    pub fn begin_transaction(&mut self) -> (res: Result<Transaction, DatabaseError>)
        ensures
            final(self).pool() == old(self).pool(),
            final(self).tree() == old(self).tree(),
            final(self).next_txn() == next_id(old(self).next_txn()),
            old(self).log().sequence < u64::MAX ==> (res matches Ok(txn) && txn.active()
                && txn.spec_id() == TransactionId(old(self).next_txn())) && final(self).log()
                == old(self).log().logged(RecordView::Begin(old(self).next_txn())),
            old(self).log().sequence == u64::MAX ==> res is Err && final(self).log() == old(self).log(),
    {
        self.transaction_manager.begin_transaction(&mut self.wal)
    }

    /// Ends the transaction of a change: with a commit record where the
    /// change was made, with a rollback record where it was not.
    fn end(&mut self, txn: &mut Transaction, done: bool) -> (res: Result<(), DatabaseError>)
        requires
            old(txn).active(),
        ensures
            final(self).pool() == old(self).pool(),
            final(self).tree() == old(self).tree(),
            final(self).transactions() == old(self).transactions(),
            old(self).log().sequence < u64::MAX ==> res is Ok && final(self).log() == old(self).log().logged(
                if done {
                    RecordView::Commit(old(txn).spec_id().0)
                } else {
                    RecordView::Rollback(old(txn).spec_id().0)
                },
            ),
            old(self).log().sequence == u64::MAX ==> res is Err && final(self).log() == old(self).log(),
    {
        if done {
            txn.commit(&mut self.wal)
        } else {
            txn.rollback(&mut self.wal)
        }
    }

    /// Stores `value` against `key`, in a transaction of its own. A key
    /// that the engine has already gets a second entry.
    pub fn insert(&mut self, key: i32, value: &Value) -> (res: Result<(), DatabaseError>)
        ensures
            final(self).pool().capacity == old(self).pool().capacity,
            final(self).next_txn() == next_id(old(self).next_txn()),
            old(self).wf() ==> final(self).wf(),
            old(self).wf() ==> grown(
                old(self).pool(),
                final(self).pool(),
                old(self).tree().root(),
                old(self).tree().height(),
                final(self).tree().root(),
                final(self).tree().height(),
                res is Ok,
            ) && final(self).pool().pages.len() <= old(self).pool().pages.len() + (final(self).pool().disk.next_page_id - old(self).pool().disk.next_page_id),
            old(self).wf() && old(self).log_room() ==> {
                &&& res is Ok ==> inserted(old(self).entries(), final(self).entries(), (key, value@))
                    && final(self).log() == committed(
                    old(self).log(),
                    old(self).next_txn(),
                    final(self).tree().root(),
                    value@.encode(),
                )
                &&& res is Err ==> final(self).entries() == old(self).entries() && final(self).log() == rolled_back(old(self).log(), old(self).next_txn())
                &&& small((key, value@)) && old(self).room() ==> res is Ok
            },
    {
        proof {
            if self.wf() {
                lemma_grown_none(self.index, self.buffer_pool@);
            }
        }
        let mut txn = self.begin_transaction()?;
        let result = operations::insert(
            &mut txn,
            &mut self.index,
            &mut self.buffer_pool,
            &mut self.wal,
            key,
            value,
        );
        self.end(&mut txn, result.is_ok())?;
        result
    }

    /// Takes an entry with the key out, if there is one, in a transaction
    /// of its own.
    pub fn delete(&mut self, key: i32) -> (res: Result<(), DatabaseError>)
        ensures
            final(self).pool().capacity == old(self).pool().capacity,
            final(self).next_txn() == next_id(old(self).next_txn()),
            old(self).wf() ==> final(self).wf(),
            old(self).wf() && old(self).log_room() ==> {
                &&& res is Ok
                &&& removed(old(self).entries(), final(self).entries(), key)
                &&& final(self).log() == committed(
                    old(self).log(),
                    old(self).next_txn(),
                    final(self).tree().root(),
                    Seq::empty(),
                )
            },
    {
        let mut txn = self.begin_transaction()?;
        let result = operations::delete(
            &mut txn,
            &mut self.index,
            &mut self.buffer_pool,
            &mut self.wal,
            key,
        );
        self.end(&mut txn, result.is_ok())?;
        result
    }

    /// Stores `value` against `key` in place of what is stored against it,
    /// in a transaction of its own. Where the new entry cannot be put in,
    /// the old one stays out.
    pub fn update(&mut self, key: i32, value: &Value) -> (res: Result<(), DatabaseError>)
        ensures
            final(self).pool().capacity == old(self).pool().capacity,
            final(self).next_txn() == next_id(old(self).next_txn()),
            old(self).wf() ==> final(self).wf(),
            old(self).wf() && old(self).log_room() ==> {
                &&& res is Ok ==> replaced(old(self).entries(), final(self).entries(), (key, value@))
                    && final(self).log() == committed(
                    old(self).log(),
                    old(self).next_txn(),
                    final(self).tree().root(),
                    value@.encode(),
                )
                &&& res is Err ==> removed(old(self).entries(), final(self).entries(), key)
                    && final(self).log() == rolled_back(old(self).log(), old(self).next_txn())
                &&& small((key, value@)) && old(self).room() ==> res is Ok
            },
    {
        let mut txn = self.begin_transaction()?;
        let result = operations::update(
            &mut txn,
            &mut self.index,
            &mut self.buffer_pool,
            &mut self.wal,
            key,
            value,
        );
        self.end(&mut txn, result.is_ok())?;
        result
    }

    /// The value stored against the key, if there is one.
    pub fn get(&mut self, key: i32) -> (res: Result<Option<Value>, DatabaseError>)
        ensures
            final(self).pool().capacity == old(self).pool().capacity,
            final(self).tree() == old(self).tree(),
            final(self).log() == old(self).log(),
            final(self).transactions() == old(self).transactions(),
            old(self).wf() ==> {
                &&& final(self).pool() == old(self).pool()
                &&& res matches Ok(found)
                &&& match found {
                    Some(value) => old(self).entries().contains((key, value@)),
                    None => !has_key(old(self).entries(), key),
                }
            },
    {
        operations::get(&self.index, &mut self.buffer_pool, key)
    }

    /// All that the engine holds, in key order.
    pub fn all(&mut self) -> (res: Result<Vec<(i32, Value)>, DatabaseError>)
        ensures
            final(self).pool().capacity == old(self).pool().capacity,
            final(self).tree() == old(self).tree(),
            final(self).log() == old(self).log(),
            final(self).transactions() == old(self).transactions(),
            old(self).wf() ==> {
                &&& final(self).pool() == old(self).pool()
                &&& res matches Ok(pairs)
                &&& pairs_view(pairs@) == old(self).entries()
                &&& sorted(pairs_view(pairs@))
            },
    {
        operations::all(&self.index, &mut self.buffer_pool)
    }

    /// The length in bytes of the string stored against the key.
    pub fn strlen(&mut self, key: i32) -> (res: Result<Option<usize>, DatabaseError>)
        ensures
            final(self).pool().capacity == old(self).pool().capacity,
            final(self).tree() == old(self).tree(),
            final(self).log() == old(self).log(),
            final(self).transactions() == old(self).transactions(),
            old(self).wf() ==> {
                &&& final(self).pool() == old(self).pool()
                &&& length_outcome(old(self).entries(), key, res)
            },
    {
        operations::strlen(&self.index, &mut self.buffer_pool, key)
    }

    /// Stores the sum of what is stored against the key and `value` in its
    /// place, in a transaction of its own: for two strings, the one with the
    /// other behind it.
    pub fn strcat(&mut self, key: i32, value: &Value) -> (res: Result<(), DatabaseError>)
        ensures
            final(self).pool().capacity == old(self).pool().capacity,
            final(self).next_txn() == next_id(old(self).next_txn()),
            old(self).wf() ==> final(self).wf(),
            old(self).wf() && old(self).log_room() ==> {
                &&& res is Ok ==> exists|joined: ValueView|
                    #[trigger] joined_to(
                        old(self).entries(),
                        final(self).entries(),
                        key,
                        value@,
                        joined,
                    ) && final(self).log() == committed(
                        old(self).log(),
                        old(self).next_txn(),
                        final(self).tree().root(),
                        joined.encode(),
                    )
                &&& !has_key(old(self).entries(), key) ==> (res matches Err(
                    DatabaseError::KeyNotFound(_),
                )) && final(self).entries() == old(self).entries()
                &&& has_key(old(self).entries(), key) && unjoinable(
                    old(self).entries(),
                    key,
                    value@,
                ) ==> (res matches Err(DatabaseError::InvalidOperation(_))) && final(self).entries()
                    == old(self).entries()
                &&& res is Err ==> final(self).log() == rolled_back(
                    old(self).log(),
                    old(self).next_txn(),
                )
                &&& has_key(old(self).entries(), key) && joinable(old(self).entries(), key, value@)
                    && old(self).room() ==> res is Ok
            },
    {
        let ghost start = *self;
        let mut txn = self.begin_transaction()?;
        let ghost begun = self.log();
        let ghost mid = *self;
        let ghost txn0 = txn;
        let result = operations::strcat(
            &mut txn,
            &mut self.index,
            &mut self.buffer_pool,
            &mut self.wal,
            key,
            value,
        );
        let ghost written = self.log();
        self.end(&mut txn, result.is_ok())?;
        proof {
            if start.wf() && start.log_room() && result is Ok {
                assert(mid.tree().wf(mid.pool()));
                assert(mid.entries() == start.entries());
                let joined = choose|joined: ValueView|
                    #[trigger] joined_to(mid.entries(), self.entries(), key, value@, joined)
                        && written == begun.logged(
                        write_record(txn0, self.tree().root(), joined.encode()),
                    );
                assert(joined_to(start.entries(), self.entries(), key, value@, joined)
                    && self.log() == committed(
                    start.log(),
                    start.next_txn(),
                    self.tree().root(),
                    joined.encode(),
                ));
            }
        }
        result
    }

    /// Stores a part of the string stored against the key in its place, in
    /// a transaction of its own: the part from the byte offset `start` on
    /// that is `length` bytes long, or the empty string where there is no
    /// such part.
    pub fn substr(&mut self, key: i32, start: usize, length: usize) -> (res: Result<
        (),
        DatabaseError,
    >)
        ensures
            final(self).pool().capacity == old(self).pool().capacity,
            final(self).next_txn() == next_id(old(self).next_txn()),
            old(self).wf() ==> final(self).wf(),
            old(self).wf() && old(self).log_room() ==> {
                &&& res is Ok ==> exists|s: Seq<char>|
                    #[trigger] cut_to(
                        old(self).entries(),
                        final(self).entries(),
                        key,
                        s,
                        start as int,
                        length as int,
                    ) && final(self).log() == committed(
                        old(self).log(),
                        old(self).next_txn(),
                        final(self).tree().root(),
                        ValueView::String(byte_slice(s, start as int, length as int)).encode(),
                    )
                &&& !has_key(old(self).entries(), key) ==> (res matches Err(
                    DatabaseError::KeyNotFound(_),
                )) && final(self).entries() == old(self).entries()
                &&& has_key(old(self).entries(), key) && no_strings(old(self).entries(), key) ==> (
                res matches Err(DatabaseError::InvalidOperation(_))) && final(self).entries()
                    == old(self).entries()
                &&& res is Err ==> final(self).log() == rolled_back(
                    old(self).log(),
                    old(self).next_txn(),
                )
                &&& has_key(old(self).entries(), key) && only_strings(old(self).entries(), key)
                    && old(self).room() ==> res is Ok
            },
    {
        let ghost first = *self;
        let mut txn = self.begin_transaction()?;
        let ghost begun = self.log();
        let ghost mid = *self;
        let ghost txn0 = txn;
        let result = operations::substr(
            &mut txn,
            &mut self.index,
            &mut self.buffer_pool,
            &mut self.wal,
            key,
            start,
            length,
        );
        let ghost written = self.log();
        self.end(&mut txn, result.is_ok())?;
        proof {
            if first.wf() && first.log_room() && result is Ok {
                assert(mid.tree().wf(mid.pool()));
                assert(mid.entries() == first.entries());
                let s = choose|s: Seq<char>|
                    #[trigger] cut_to(
                        mid.entries(),
                        self.entries(),
                        key,
                        s,
                        start as int,
                        length as int,
                    ) && written == begun.logged(
                        write_record(
                            txn0,
                            self.tree().root(),
                            ValueView::String(byte_slice(s, start as int, length as int)).encode(),
                        ),
                    );
                assert(cut_to(first.entries(), self.entries(), key, s, start as int, length as int)
                    && self.log() == committed(
                    first.log(),
                    first.next_txn(),
                    self.tree().root(),
                    ValueView::String(byte_slice(s, start as int, length as int)).encode(),
                ));
            }
        }
        result
    }

    /// Writes every cached page whose dirty flag is set to disk. The order
    /// is that in which the cache hands its pages out; the first write that
    /// fails ends the flush. The file afterwards is what these writes, one
    /// after the other, make of the file before.
    pub fn flush(&mut self) -> (res: Result<(), DatabaseError>)
        ensures
            final(self).pool().pages == old(self).pool().pages,
            final(self).pool().capacity == old(self).pool().capacity,
            final(self).pool().disk.next_page_id == old(self).pool().disk.next_page_id,
            exists|order: Seq<u32>|
                {
                    &&& order.no_duplicates()
                    &&& order.to_set() == old(self).pool().pages.dom()
                    &&& flushed(
                        old(self).pool().disk,
                        #[trigger] pages_in_order(old(self).pool().pages, order),
                    ) == (final(self).pool().disk.heap, res is Ok)
                },
            final(self).tree() == old(self).tree(),
            final(self).log() == old(self).log(),
            final(self).transactions() == old(self).transactions(),
            all_clean(old(self).pool()) ==> res is Ok && final(self).pool() == old(self).pool(),
            old(self).wf() ==> res is Ok && final(self).wf() && final(self).entries() == old(self).entries(),
            res is Err ==> res matches Err(DatabaseError::InvalidOperation(_)),
    {
        self.buffer_pool.flush()
    }

    /// The bytes of the heap file as the engine has written it.
    pub fn heap(&self) -> (bytes: &Vec<u8>)
        ensures
            bytes@ == self.pool().disk.heap,
    {
        self.buffer_pool.disk_manager().contents()
    }

    /// The bytes of the records that the engine has written to its log.
    pub fn log_bytes(&self) -> (bytes: &Vec<u8>)
        ensures
            bytes@ == self.log().bytes,
    {
        self.wal.bytes()
    }
}

} // verus!
