//! A page's payload read as records of varying length: a directory of
//! slots grows from the start of the payload, the records grow from its end
//! toward the directory.

use crate::bytes::{
    get_u16, le_bytes, le_value, lemma_le_bytes_len, lemma_le_value_of_bytes, lemma_limits,
    put_u16,
};
use crate::storage::error::DatabaseError;
use crate::storage::page::{Page, PageView};
use vstd::prelude::*;
use vstd::slice::*;

verus! {

/// The size of a slot in the directory: two bytes of offset, two of length.
pub const SLOT_SIZE: usize = 4;

/// An entry of the slot directory: where a record starts in the payload,
/// and how long it is. A length of zero marks a deleted record.
#[derive(Debug, Clone, Copy)]
pub struct Slot {
    pub offset: u16,
    pub length: u16,
}

impl Slot {
    /// The four bytes of the slot: the offset, then the length, both
    /// little-endian.
    pub open spec fn encode(self) -> Seq<u8> {
        le_bytes(self.offset as nat, 2) + le_bytes(self.length as nat, 2)
    }

    /// The slot that `bytes` start with, if they are four or more.
    pub open spec fn decode(bytes: Seq<u8>) -> Option<Slot> {
        if bytes.len() < 4 {
            None
        } else {
            Some(
                Slot {
                    offset: le_value(bytes.subrange(0, 2)) as u16,
                    length: le_value(bytes.subrange(2, 4)) as u16,
                },
            )
        }
    }

    /// A slot with the given offset and length.
    pub fn new(offset: u16, length: u16) -> (slot: Self)
        ensures
            slot == (Slot { offset, length }),
    {
        Self { offset, length }
    }

    /// The four bytes of the slot.
    pub fn serialize(&self) -> (bytes: [u8; 4])
        ensures
            bytes@ == self.encode(),
    {
        let mut buffer: Vec<u8> = Vec::new();
        put_u16(&mut buffer, self.offset);
        put_u16(&mut buffer, self.length);
        proof {
            lemma_le_bytes_len(self.offset as nat, 2);
            lemma_le_bytes_len(self.length as nat, 2);
        }
        let bytes: [u8; 4] = [buffer[0], buffer[1], buffer[2], buffer[3]];
        assert(bytes@ =~= self.encode());
        bytes
    }

    /// Reads a slot from the first four bytes of `bytes`.
    pub fn deserialize(bytes: &[u8]) -> (res: Result<Self, DatabaseError>)
        ensures
            match Slot::decode(bytes@) {
                Some(s) => res == Ok::<Slot, DatabaseError>(s),
                None => res matches Err(DatabaseError::InvalidRecord),
            },
    {
        if bytes.len() < SLOT_SIZE {
            return Err(DatabaseError::InvalidRecord);
        }
        proof {
            lemma_limits();
        }
        Ok(Self { offset: get_u16(bytes, 0), length: get_u16(bytes, 2) })
    }
}

/// A slot read back from its bytes, whatever follows them, is the slot.
pub proof fn lemma_slot_round_trip(slot: Slot, rest: Seq<u8>)
    ensures
        slot.encode().len() == 4,
        Slot::decode(slot.encode() + rest) == Some(slot),
{
    let bytes = slot.encode() + rest;
    lemma_limits();
    lemma_le_bytes_len(slot.offset as nat, 2);
    lemma_le_bytes_len(slot.length as nat, 2);
    lemma_le_value_of_bytes(slot.offset as nat, 2);
    lemma_le_value_of_bytes(slot.length as nat, 2);
    assert(bytes.subrange(0, 2) =~= le_bytes(slot.offset as nat, 2));
    assert(bytes.subrange(2, 4) =~= le_bytes(slot.length as nat, 2));
}

/// The bytes `data` with `bytes` in the place of those from `at` on.
pub open spec fn overwritten(data: Seq<u8>, at: int, bytes: Seq<u8>) -> Seq<u8> {
    data.subrange(0, at) + bytes + data.subrange(at + bytes.len(), data.len() as int)
}

/// Puts `bytes` in the place of the bytes of `data` from `at` on.
fn overwrite(data: &mut Vec<u8>, at: usize, bytes: &[u8])
    requires
        at + bytes@.len() <= old(data)@.len(),
    ensures
        final(data)@ == overwritten(old(data)@, at as int, bytes@),
{
    let len = data.len();
    let mut i: usize = 0;
    while i < bytes.len()
        invariant
            i <= bytes@.len(),
            at + bytes@.len() <= len == data@.len() == old(data)@.len(),
            forall|k: int|
                0 <= k < len ==> data@[k] == if at <= k < at + i {
                    bytes@[k - at]
                } else {
                    old(data)@[k]
                },
        decreases bytes@.len() - i,
    {
        data[at + i] = bytes[i];
        i += 1;
    }
    assert(data@ =~= overwritten(old(data)@, at as int, bytes@));
}

/// The state of a slotted page: the page, and the offset in the payload
/// below which the next record is put.
pub struct SlottedView {
    pub page: PageView,
    pub free: nat,
}

impl SlottedView {
    /// The number of slots in the directory.
    pub open spec fn count(self) -> nat {
        self.page.header.record_count as nat
    }

    /// Slot `i` of the directory.
    pub open spec fn slot(self, i: int) -> Slot {
        Slot::decode(self.page.data.subrange(4 * i, 4 * i + 4)).unwrap()
    }

    /// The record of slot `i`, or `None` where it was deleted.
    pub open spec fn record(self, i: int) -> Option<Seq<u8>> {
        let s = self.slot(i);
        if s.length == 0 {
            None
        } else {
            Some(self.page.data.subrange(s.offset as int, s.offset + s.length))
        }
    }

    /// The records of the page by slot number.
    pub open spec fn records(self) -> Seq<Option<Seq<u8>>> {
        Seq::new(self.count(), |i: int| self.record(i))
    }

    /// The number of bytes between the directory and the records.
    pub open spec fn room(self) -> int {
        self.free - 4 * self.count()
    }

    /// Whether the directory and the records lie in the payload and apart:
    /// the directory below the free-space offset, the records of the slots
    /// at or above it.
    pub open spec fn wf(self) -> bool {
        &&& 1 <= self.page.data.len() <= 0x1_0000
        &&& self.free < self.page.data.len()
        &&& 4 * self.count() <= self.free
        &&& forall|i: int|
            0 <= i < self.count() ==> (#[trigger] self.slot(i)).length == 0 || (self.free
                <= self.slot(i).offset && self.slot(i).offset + self.slot(i).length
                <= self.page.data.len())
    }

    /// The state after a record of `bytes` was put in.
    pub open spec fn with_record(self, bytes: Seq<u8>) -> SlottedView {
        let start = self.free - bytes.len();
        let slot = Slot { offset: start as u16, length: bytes.len() as u16 };
        let at = 4 * self.count() as int;
        SlottedView {
            page: PageView {
                header: crate::storage::page::PageHeader {
                    page_id: self.page.header.page_id,
                    record_count: (self.page.header.record_count + 1) as u32,
                },
                data: overwritten(overwritten(self.page.data, start, bytes), at, slot.encode()),
                is_dirty: true,
                pin_count: self.page.pin_count,
            },
            free: start as nat,
        }
    }

    /// The state after slot `i` was marked as deleted.
    pub open spec fn without_record(self, i: int) -> SlottedView {
        let gone = Slot { offset: 0, length: 0 };
        SlottedView {
            page: PageView {
                data: overwritten(self.page.data, 4 * i, gone.encode()),
                is_dirty: true,
                ..self.page
            },
            free: self.free,
        }
    }
}

/// A page read as a slotted page.
pub struct SlottedPage {
    page: Page,
    free_space_pointer: u16,
}

impl View for SlottedPage {
    type V = SlottedView;

    closed spec fn view(&self) -> SlottedView {
        SlottedView { page: self.page@, free: self.free_space_pointer as nat }
    }
}

impl SlottedPage {
    /// Reads `page` as a slotted page whose next record goes below the
    /// payload's last byte.
    pub fn new(page: Page) -> (slotted: Self)
        requires
            1 <= page@.data.len() <= 0x1_0000,
        ensures
            slotted@ == (SlottedView { page: page@, free: (page@.data.len() - 1) as nat }),
            page@.header.record_count == 0 ==> slotted@.wf() && slotted@.records()
                == Seq::<Option<Seq<u8>>>::empty(),
    {
        let data_len = page.data.len();
        let slotted = Self { page, free_space_pointer: (data_len - 1) as u16 };
        proof {
            if slotted@.page.header.record_count == 0 {
                assert(slotted@.records() =~= Seq::<Option<Seq<u8>>>::empty());
            }
        }
        slotted
    }

    /// The page under the slots.
    pub fn page(&self) -> (page: &Page)
        ensures
            page@ == self@.page,
    {
        &self.page
    }

    /// Puts a record in: its bytes below the free-space offset, its slot at
    /// the end of the directory. Gives the number of the slot.
    pub fn insert_record(&mut self, record_data: &[u8]) -> (res: Result<u16, DatabaseError>)
        ensures
            record_data@.len() > u16::MAX ==> (res matches Err(DatabaseError::InvalidRecord))
                && final(self)@ == old(self)@,
            record_data@.len() <= u16::MAX && 4 + record_data@.len() > old(self)@.room() ==> (
            res matches Err(DatabaseError::PageFull)) && final(self)@ == old(self)@,
            record_data@.len() <= u16::MAX && 4 + record_data@.len() <= old(self)@.room() && old(self)@.free < old(self)@.page.data.len() ==> res == Ok::<u16, DatabaseError>(
                old(self)@.count() as u16,
            ) && final(self)@ == old(self)@.with_record(record_data@),
    {
        let record_len = record_data.len();
        if record_len > 0xffff {
            return Err(DatabaseError::InvalidRecord);
        }
        let slot_count = self.page.header.record_count as u64;
        let free = self.free_space_pointer as u64;
        if 4 * slot_count + 4 + record_len as u64 > free {
            return Err(DatabaseError::PageFull);
        }
        if self.free_space_pointer as usize >= self.page.data.len() {
            return Err(DatabaseError::PageFull);
        }
        let end_pos = self.free_space_pointer as usize;
        let start_pos = end_pos - record_len;
        let slot_pos = slot_count as usize * SLOT_SIZE;
        let slot = Slot::new(start_pos as u16, record_len as u16);
        let slot_bytes = slot.serialize();
        proof {
            lemma_slot_round_trip(slot, Seq::empty());
        }
        overwrite(&mut self.page.data, start_pos, record_data);
        overwrite(&mut self.page.data, slot_pos, slot_bytes.as_slice());
        self.free_space_pointer = start_pos as u16;
        self.page.header.record_count = self.page.header.record_count + 1;
        self.page.mark_dirty();
        proof {
            let want = old(self)@.with_record(record_data@);
            assert(self@.page.header == want.page.header);
            assert(self@.page.data == want.page.data);
            assert(self@.page == want.page);
        }
        Ok(slot_count as u16)
    }

    /// The record of a slot.
    pub fn get_record(&self, slot_number: u16) -> (res: Result<Vec<u8>, DatabaseError>)
        ensures
            slot_number >= self@.count() ==> res matches Err(DatabaseError::InvalidSlot),
            self@.wf() && slot_number < self@.count() ==> match self@.records()[slot_number as int] {
                Some(bytes) => res matches Ok(record) && record@ == bytes,
                None => res matches Err(DatabaseError::DeletedRecord),
            },
            res matches Ok(record) ==> self@.record(slot_number as int) == Some(record@),
    {
        if slot_number as u32 >= self.page.header.record_count {
            return Err(DatabaseError::InvalidSlot);
        }
        let slot_pos = slot_number as usize * SLOT_SIZE;
        let len = self.page.data.len();
        if len < 4 || slot_pos > len - 4 {
            return Err(DatabaseError::InvalidSlot);
        }
        let slot = Slot::deserialize(slice_subrange(self.page.data.as_slice(), slot_pos, slot_pos + 4))?;
        if slot.length == 0 {
            return Err(DatabaseError::DeletedRecord);
        }
        let start = slot.offset as usize;
        let end = start + slot.length as usize;
        if end > len {
            return Err(DatabaseError::InvalidRecord);
        }
        Ok(slice_to_vec(slice_subrange(self.page.data.as_slice(), start, end)))
    }

    /// Marks the record of a slot as deleted. Its bytes stay where they
    /// are.
    pub fn delete_record(&mut self, slot_number: u16) -> (res: Result<(), DatabaseError>)
        ensures
            slot_number >= old(self)@.count() ==> (res matches Err(DatabaseError::InvalidSlot))
                && final(self)@ == old(self)@,
            slot_number < old(self)@.count() && 4 * slot_number + 4 <= old(self)@.page.data.len()
                ==> res is Ok && final(self)@ == old(self)@.without_record(slot_number as int),
            res is Err ==> final(self)@ == old(self)@,
    {
        if slot_number as u32 >= self.page.header.record_count {
            return Err(DatabaseError::InvalidSlot);
        }
        let slot_pos = slot_number as usize * SLOT_SIZE;
        let len = self.page.data.len();
        if len < 4 || slot_pos > len - 4 {
            return Err(DatabaseError::InvalidSlot);
        }
        let deleted_slot = Slot::new(0, 0);
        let slot_bytes = deleted_slot.serialize();
        proof {
            lemma_slot_round_trip(deleted_slot, Seq::empty());
        }
        overwrite(&mut self.page.data, slot_pos, slot_bytes.as_slice());
        self.page.mark_dirty();
        proof {
            let want = old(self)@.without_record(slot_number as int);
            assert(self@.page.data == want.page.data);
            assert(self@.page == want.page);
        }
        Ok(())
    }
}

/// A slot of the directory read from the payload after bytes outside the
/// slot were overwritten is the slot that it was.
proof fn lemma_slot_kept(data: Seq<u8>, at: int, bytes: Seq<u8>, i: int)
    requires
        0 <= at,
        at + bytes.len() <= data.len(),
        0 <= i,
        4 * i + 4 <= data.len(),
        4 * i + 4 <= at || at + bytes.len() <= 4 * i,
    ensures
        overwritten(data, at, bytes).subrange(4 * i, 4 * i + 4) == data.subrange(4 * i, 4 * i + 4),
{
    assert(overwritten(data, at, bytes).subrange(4 * i, 4 * i + 4) =~= data.subrange(
        4 * i,
        4 * i + 4,
    ));
}

/// A record put into a well-formed slotted page with room for it leaves a
/// well-formed page, with the records that it had and the new one behind
/// them. A record of no bytes counts as deleted.
pub proof fn lemma_record_inserted(v: SlottedView, bytes: Seq<u8>)
    requires
        v.wf(),
        bytes.len() <= u16::MAX,
        4 + bytes.len() <= v.room(),
    ensures
        v.with_record(bytes).wf(),
        v.with_record(bytes).records() == v.records().push(
            if bytes.len() == 0 {
                None
            } else {
                Some(bytes)
            },
        ),
{
    let w = v.with_record(bytes);
    let start = v.free - bytes.len();
    let slot = Slot { offset: start as u16, length: bytes.len() as u16 };
    let at = 4 * v.count() as int;
    let mid = overwritten(v.page.data, start, bytes);
    lemma_slot_round_trip(slot, Seq::empty());
    assert(slot.encode() + Seq::<u8>::empty() =~= slot.encode());
    assert(w.page.data.len() == v.page.data.len());
    assert(w.page.data.subrange(at, at + 4) =~= slot.encode());
    assert(w.slot(v.count() as int) == slot);
    assert forall|i: int| 0 <= i < v.count() implies #[trigger] w.slot(i) == v.slot(i) && w.record(
        i,
    ) == v.record(i) by {
        lemma_slot_kept(v.page.data, start, bytes, i);
        lemma_slot_kept(mid, at, slot.encode(), i);
        let s = v.slot(i);
        if s.length != 0 {
            assert(w.page.data.subrange(s.offset as int, s.offset + s.length)
                =~= v.page.data.subrange(s.offset as int, s.offset + s.length));
        }
    }
    if bytes.len() > 0 {
        assert(w.page.data.subrange(start, start + bytes.len()) =~= bytes);
    }
    assert(w.records() =~= v.records().push(
        if bytes.len() == 0 {
            None
        } else {
            Some(bytes)
        },
    ));
}

/// A slot of a well-formed slotted page marked as deleted leaves a
/// well-formed page, with the records that it had but for that of the slot.
pub proof fn lemma_record_deleted(v: SlottedView, i: int)
    requires
        v.wf(),
        0 <= i < v.count(),
    ensures
        v.without_record(i).wf(),
        v.without_record(i).records() == v.records().update(i, None),
{
    let w = v.without_record(i);
    let gone = Slot { offset: 0, length: 0 };
    lemma_slot_round_trip(gone, Seq::empty());
    assert(gone.encode() + Seq::<u8>::empty() =~= gone.encode());
    assert(w.page.data.subrange(4 * i, 4 * i + 4) =~= gone.encode());
    assert(w.slot(i) == gone);
    assert forall|j: int| 0 <= j < v.count() && j != i implies #[trigger] w.slot(j) == v.slot(j)
        && w.record(j) == v.record(j) by {
        lemma_slot_kept(v.page.data, 4 * i, gone.encode(), j);
        let s = v.slot(j);
        if s.length != 0 {
            assert(w.page.data.subrange(s.offset as int, s.offset + s.length)
                =~= v.page.data.subrange(s.offset as int, s.offset + s.length));
        }
    }
    assert(w.records() =~= v.records().update(i, None));
}

} // verus!
