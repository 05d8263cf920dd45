//! Transactions: an id, a flag that says whether the transaction is still
//! open, and the records that its begin and its end leave in the log.

use crate::storage::error::DatabaseError;
use crate::storage::wal::{LogRecord, RecordView, WriteAheadLog};
use vstd::prelude::*;

verus! {

/// The id of a transaction.
#[derive(Debug, Clone, Copy, PartialEq, Eq, Structural, PartialOrd, Ord)]
pub struct TransactionId(pub u64);

/// The transactions that made and that deleted a version of a value.
#[derive(Debug, Clone, Copy, PartialEq, Eq, Structural)]
pub struct VersionId {
    xmin: TransactionId,
    xmax: TransactionId,
}

impl VersionId {
    /// The transaction that made the version.
    pub closed spec fn made_by(self) -> TransactionId {
        self.xmin
    }

    /// The transaction that deleted the version; the id 0 where none did.
    pub closed spec fn deleted_by(self) -> TransactionId {
        self.xmax
    }

    /// Whether a transaction sees the version: one made by an earlier
    /// transaction, and not deleted, or deleted by a later one.
    pub open spec fn visible_to(self, txn_id: TransactionId) -> bool {
        self.made_by().0 < txn_id.0 && (self.deleted_by().0 == 0 || self.deleted_by().0 > txn_id.0)
    }

    /// A version made by `xmin` that no transaction has deleted.
    pub fn new(xmin: TransactionId) -> (version: Self)
        ensures
            version.made_by() == xmin,
            version.deleted_by() == TransactionId(0),
    {
        Self { xmin, xmax: TransactionId(0) }
    }

    /// Whether the transaction sees the version.
    pub fn is_visible_to(&self, txn_id: TransactionId) -> (visible: bool)
        ensures
            visible == self.visible_to(txn_id),
    {
        self.xmin.0 < txn_id.0 && (self.xmax.0 == 0 || self.xmax.0 > txn_id.0)
    }
}

/// A transaction.
pub struct Transaction {
    id: TransactionId,
    is_active: bool,
}

impl Transaction {
    /// The id of the transaction.
    pub closed spec fn spec_id(&self) -> TransactionId {
        self.id
    }

    /// Whether the transaction is neither committed nor rolled back.
    pub closed spec fn active(&self) -> bool {
        self.is_active
    }

    /// Ends an open transaction with a commit record in the log. A
    /// transaction that has ended stays as it is.
    pub fn commit(&mut self, wal: &mut WriteAheadLog) -> (res: Result<(), DatabaseError>)
        ensures
            final(self).spec_id() == old(self).spec_id(),
            !old(self).active() ==> res is Ok && !final(self).active() && final(wal)@ == old(wal)@,
            old(self).active() && old(wal)@.sequence < u64::MAX ==> res is Ok && !final(self).active() && final(wal)@ == old(wal)@.logged(RecordView::Commit(old(self).spec_id().0)),
            old(self).active() && old(wal)@.sequence == u64::MAX ==> res is Err && final(self).active() && final(wal)@ == old(wal)@,
    {
        if !self.is_active {
            return Ok(());
        }
        wal.log(LogRecord::Commit(self.id.0))?;
        self.is_active = false;
        Ok(())
    }

    /// Ends an open transaction with a rollback record in the log. A
    /// transaction that has ended stays as it is.
    pub fn rollback(&mut self, wal: &mut WriteAheadLog) -> (res: Result<(), DatabaseError>)
        ensures
            final(self).spec_id() == old(self).spec_id(),
            !old(self).active() ==> res is Ok && !final(self).active() && final(wal)@ == old(wal)@,
            old(self).active() && old(wal)@.sequence < u64::MAX ==> res is Ok && !final(self).active() && final(wal)@ == old(wal)@.logged(
                RecordView::Rollback(old(self).spec_id().0),
            ),
            old(self).active() && old(wal)@.sequence == u64::MAX ==> res is Err && final(self).active() && final(wal)@ == old(wal)@,
    {
        if !self.is_active {
            return Ok(());
        }
        wal.log(LogRecord::Rollback(self.id.0))?;
        self.is_active = false;
        Ok(())
    }

    /// The id of the transaction.
    pub fn id(&self) -> (id: TransactionId)
        ensures
            id == self.spec_id(),
    {
        self.id
    }
}

/// The state of a transaction manager: the id that the next transaction
/// gets, and the ids of the transactions begun.
pub struct ManagerView {
    pub next_txn_id: u64,
    pub begun: Seq<TransactionId>,
}

/// The source of transaction ids.
pub struct TransactionManager {
    next_txn_id: u64,
    active_txns: Vec<TransactionId>,
}

impl View for TransactionManager {
    type V = ManagerView;

    closed spec fn view(&self) -> ManagerView {
        ManagerView { next_txn_id: self.next_txn_id, begun: self.active_txns@ }
    }
}

/// The id behind `id`; the id 0 behind the greatest.
pub open spec fn next_id(id: u64) -> u64 {
    if id == u64::MAX {
        0
    } else {
        (id + 1) as u64
    }
}

impl TransactionManager {
    /// A manager whose first transaction gets the id 1.
    pub fn new() -> (manager: Self)
        ensures
            manager@ == (ManagerView { next_txn_id: 1, begun: Seq::empty() }),
    {
        Self { next_txn_id: 1, active_txns: Vec::new() }
    }

    /// Begins a transaction: takes the next id, and leaves a begin record
    /// in the log. The id is used up also where the record cannot be
    /// written.
    pub fn begin_transaction(&mut self, wal: &mut WriteAheadLog) -> (res: Result<
        Transaction,
        DatabaseError,
    >)
        ensures
            final(self)@.next_txn_id == next_id(old(self)@.next_txn_id),
            old(wal)@.sequence < u64::MAX ==> (res matches Ok(txn) && txn.active() && txn.spec_id()
                == TransactionId(old(self)@.next_txn_id)) && final(self)@.begun == old(self)@.begun.push(TransactionId(old(self)@.next_txn_id)) && final(wal)@ == old(wal)@.logged(RecordView::Begin(old(self)@.next_txn_id)),
            old(wal)@.sequence == u64::MAX ==> res is Err && final(self)@.begun == old(self)@.begun && final(wal)@ == old(wal)@,
    {
        let id = self.next_txn_id;
        self.next_txn_id = if id == u64::MAX {
            0
        } else {
            id + 1
        };
        wal.log(LogRecord::Begin(id))?;
        let txn_id = TransactionId(id);
        self.active_txns.push(txn_id);
        Ok(Transaction { id: txn_id, is_active: true })
    }
}

} // verus!
