//! The write-ahead log: framed records with a sequence number and a
//! checksum each, one after the other.
//!
//! The log holds the bytes of the records written since it was made;
//! appending them to the log file is left to the caller.

use crate::bytes::{
    le_bytes, le_value, lemma_le_bytes_len, lemma_le_value_of_bytes, lemma_limits, put_u16,
    put_u32, put_u64,
};
use crate::storage::error::DatabaseError;
use vstd::prelude::*;
use vstd::string::*;

verus! {

/// A record of the log.
pub enum LogRecord {
    /// A transaction began.
    Begin(u64),
    /// A transaction was committed.
    Commit(u64),
    /// A transaction was rolled back.
    Rollback(u64),
    /// A transaction wrote `data` at `offset` in a page.
    Write { txn_id: u64, page_id: u32, offset: u16, data: Vec<u8> },
}

/// The mathematical content of a [`LogRecord`].
pub enum RecordView {
    Begin(u64),
    Commit(u64),
    Rollback(u64),
    Write { txn_id: u64, page_id: u32, offset: u16, data: Seq<u8> },
}

impl View for LogRecord {
    type V = RecordView;

    open spec fn view(&self) -> RecordView {
        match self {
            LogRecord::Begin(id) => RecordView::Begin(*id),
            LogRecord::Commit(id) => RecordView::Commit(*id),
            LogRecord::Rollback(id) => RecordView::Rollback(*id),
            LogRecord::Write { txn_id, page_id, offset, data } => RecordView::Write {
                txn_id: *txn_id,
                page_id: *page_id,
                offset: *offset,
                data: data@,
            },
        }
    }
}

/// One step of the checksum's register: a shift to the right by one bit,
/// and the polynomial of CRC-32, bits reversed, put into the register where
/// the bit that fell out was set.
pub open spec fn crc_shift(register: u32) -> u32 {
    if register & 1 == 1 {
        (register >> 1) ^ 0xedb8_8320
    } else {
        register >> 1
    }
}

/// The register after `n` steps.
pub open spec fn crc_shifts(register: u32, n: nat) -> u32
    decreases n,
{
    if n == 0 {
        register
    } else {
        crc_shifts(crc_shift(register), (n - 1) as nat)
    }
}

/// The register after `bytes`: it starts with all bits set, and each byte
/// is put into its low bits and followed by eight steps.
pub open spec fn crc_register(bytes: Seq<u8>) -> u32
    decreases bytes.len(),
{
    if bytes.len() == 0 {
        0xffff_ffff
    } else {
        crc_shifts(crc_register(bytes.drop_last()) ^ (bytes.last() as u32), 8)
    }
}

/// The CRC-32 checksum of `bytes`, as IEEE 802.3 has it: the register
/// after the bytes, with every bit turned over.
pub open spec fn crc32(bytes: Seq<u8>) -> u32 {
    crc_register(bytes) ^ 0xffff_ffff
}

/// `crc32fast::hash`: the CRC-32 (IEEE) checksum of the bytes.
#[verifier::external_body]
fn checksum(bytes: &[u8]) -> (sum: u32)
    ensures
        sum == crc32(bytes@),
{
    crc32fast::hash(bytes)
}

impl RecordView {
    /// Whether the record can be framed: the length of what a write
    /// record holds must fit four bytes.
    pub open spec fn encodable(self) -> bool {
        self matches RecordView::Write { data, .. } ==> data.len() <= u32::MAX
    }

    /// The type tag of the record.
    pub open spec fn tag(self) -> u8 {
        match self {
            RecordView::Begin(_) => 1,
            RecordView::Commit(_) => 2,
            RecordView::Rollback(_) => 3,
            RecordView::Write { .. } => 4,
        }
    }

    /// The fields of the record as bytes: the transaction id, and for a
    /// write record the page id, the offset, the length of the data and the
    /// data. All integers are little-endian.
    pub open spec fn payload(self) -> Seq<u8> {
        match self {
            RecordView::Begin(id) => le_bytes(id as nat, 8),
            RecordView::Commit(id) => le_bytes(id as nat, 8),
            RecordView::Rollback(id) => le_bytes(id as nat, 8),
            RecordView::Write { txn_id, page_id, offset, data } => le_bytes(txn_id as nat, 8)
                + le_bytes(page_id as nat, 4) + le_bytes(offset as nat, 2) + le_bytes(
                data.len(),
                4,
            ) + data,
        }
    }

    /// What the checksum is taken over: the sequence number, the type tag
    /// and the fields.
    pub open spec fn body(self, sequence: u64) -> Seq<u8> {
        le_bytes(sequence as nat, 8) + seq![self.tag()] + self.payload()
    }

    /// The record as it stands in the log: the body, then its checksum.
    pub open spec fn frame(self, sequence: u64) -> Seq<u8> {
        self.body(sequence) + le_bytes(crc32(self.body(sequence)) as nat, 4)
    }
}

/// The state of a log: the bytes written, and the sequence number of the
/// last record.
pub struct WalView {
    pub bytes: Seq<u8>,
    pub sequence: u64,
}

impl WalView {
    /// Whether one more record can be written: a sequence number is left,
    /// and the record can be framed.
    pub open spec fn can_log(self, record: RecordView) -> bool {
        self.sequence < u64::MAX && record.encodable()
    }

    /// The state after the record was written.
    pub open spec fn logged(self, record: RecordView) -> WalView {
        WalView {
            bytes: self.bytes + record.frame((self.sequence + 1) as u64),
            sequence: (self.sequence + 1) as u64,
        }
    }
}

/// The log.
pub struct WriteAheadLog {
    log: Vec<u8>,
    sequence: u64,
}

impl View for WriteAheadLog {
    type V = WalView;

    closed spec fn view(&self) -> WalView {
        WalView { bytes: self.log@, sequence: self.sequence }
    }
}

impl WriteAheadLog {
    /// A log without records.
    pub fn new() -> (wal: Self)
        ensures
            wal@ == (WalView { bytes: Seq::empty(), sequence: 0 }),
    {
        Self { log: Vec::new(), sequence: 0 }
    }

    /// The sequence number of the last record written; 0 where none was.
    pub fn get_sequence(&self) -> (sequence: u64)
        ensures
            sequence == self@.sequence,
    {
        self.sequence
    }

    /// The bytes of the records written.
    pub fn bytes(&self) -> (bytes: &Vec<u8>)
        ensures
            bytes@ == self@.bytes,
    {
        &self.log
    }

    /// Writes a record: the next sequence number, the record's type tag and
    /// fields, and the checksum of these.
    pub fn log(&mut self, record: LogRecord) -> (res: Result<(), DatabaseError>)
        ensures
            old(self)@.can_log(record@) ==> res is Ok && final(self)@ == old(self)@.logged(
                record@,
            ),
            old(self)@.sequence == u64::MAX ==> (res matches Err(
                DatabaseError::InvalidOperation(_),
            )) && final(self)@ == old(self)@,
            old(self)@.sequence < u64::MAX && !record@.encodable() ==> (res matches Err(
                DatabaseError::InvalidRecord,
            )) && final(self)@ == old(self)@,
    {
        if self.sequence == u64::MAX {
            return Err(
                DatabaseError::InvalidOperation(String::from_str("No sequence number is left")),
            );
        }
        let sequence = self.sequence + 1;
        let mut frame: Vec<u8> = Vec::new();
        put_u64(&mut frame, sequence);
        match record {
            LogRecord::Begin(txn_id) => {
                frame.push(1);
                put_u64(&mut frame, txn_id);
            },
            LogRecord::Commit(txn_id) => {
                frame.push(2);
                put_u64(&mut frame, txn_id);
            },
            LogRecord::Rollback(txn_id) => {
                frame.push(3);
                put_u64(&mut frame, txn_id);
            },
            LogRecord::Write { txn_id, page_id, offset, data } => {
                if data.len() as u64 > u32::MAX as u64 {
                    return Err(DatabaseError::InvalidRecord);
                }
                frame.push(4);
                put_u64(&mut frame, txn_id);
                put_u32(&mut frame, page_id);
                put_u16(&mut frame, offset);
                put_u32(&mut frame, data.len() as u32);
                let ghost head = frame@;
                let mut i: usize = 0;
                while i < data.len()
                    invariant
                        i <= data@.len(),
                        frame@ == head + data@.take(i as int),
                    decreases data@.len() - i,
                {
                    frame.push(data[i]);
                    i += 1;
                    assert(data@.take(i as int) =~= data@.take(i - 1).push(data@[i - 1]));
                }
                assert(data@.take(i as int) =~= data@);
            },
        }
        assert(frame@ =~= record@.body(sequence));
        let sum = checksum(frame.as_slice());
        put_u32(&mut frame, sum);
        let ghost before = self.log@;
        let mut k: usize = 0;
        while k < frame.len()
            invariant
                k <= frame@.len(),
                self.sequence == old(self).sequence,
                self.log@ == before + frame@.take(k as int),
            decreases frame@.len() - k,
        {
            self.log.push(frame[k]);
            k += 1;
            assert(frame@.take(k as int) =~= frame@.take(k - 1).push(frame@[k - 1]));
        }
        assert(frame@.take(k as int) =~= frame@);
        self.sequence = sequence;
        Ok(())
    }
}

/// The frame of a record starts with its sequence number and ends with the
/// checksum of all that stands before the checksum.
pub proof fn lemma_frame_checked(record: RecordView, sequence: u64)
    ensures
        ({
            let frame = record.frame(sequence);
            let n = frame.len() as int;
            &&& n >= 13
            &&& le_value(frame.subrange(0, 8)) == sequence
            &&& frame[8] == record.tag()
            &&& le_value(frame.subrange(n - 4, n)) == crc32(frame.subrange(0, n - 4))
        }),
{
    let body = record.body(sequence);
    let frame = record.frame(sequence);
    let sum = crc32(body);
    lemma_limits();
    lemma_le_bytes_len(sequence as nat, 8);
    lemma_le_bytes_len(sum as nat, 4);
    lemma_le_value_of_bytes(sequence as nat, 8);
    lemma_le_value_of_bytes(sum as nat, 4);
    let n = frame.len() as int;
    assert(frame.subrange(0, 8) =~= le_bytes(sequence as nat, 8));
    assert(frame.subrange(n - 4, n) =~= le_bytes(sum as nat, 4));
    assert(frame.subrange(0, n - 4) =~= body);
}

/// Of two records written one after the other, the second has the sequence
/// number of the first and one, and each stands in the log with its
/// sequence number in front and its checksum behind.
pub proof fn lemma_log_twice(wal: WalView, first: RecordView, second: RecordView)
    requires
        wal.sequence < u64::MAX - 1,
    ensures
        ({
            let one = wal.logged(first);
            let two = one.logged(second);
            &&& one.sequence == wal.sequence + 1
            &&& two.sequence == one.sequence + 1
            &&& one.bytes == wal.bytes + first.frame(one.sequence)
            &&& two.bytes == one.bytes + second.frame(two.sequence)
            &&& le_value(first.frame(one.sequence).subrange(0, 8)) + 1 == le_value(
                second.frame(two.sequence).subrange(0, 8),
            )
        }),
{
    lemma_frame_checked(first, (wal.sequence + 1) as u64);
    lemma_frame_checked(second, (wal.sequence + 2) as u64);
}

} // verus!
