//! The unit of disk I/O: a header of eight bytes and a payload.

use crate::bytes::{
    get_u32, le_bytes, le_value, lemma_le_bytes_len, lemma_le_value_of_bytes, lemma_limits,
    put_u32,
};
use crate::storage::error::DatabaseError;
use vstd::prelude::*;
use vstd::slice::*;
use vstd::string::*;

verus! {

/// The size of a page on disk, header and payload together.
pub const PAGE_SIZE: usize = 4096;

/// The size of a page's header: four bytes of page id, four of record count.
pub const PAGE_HEADER_SIZE: usize = 8;

/// The size of a page's payload.
pub const PAYLOAD_SIZE: usize = 4088;

/// The header of a page.
#[derive(Debug)]
pub struct PageHeader {
    pub page_id: u32,
    pub record_count: u32,
}

impl PageHeader {
    /// The eight bytes of the header: the page id, then the record count,
    /// both little-endian.
    pub open spec fn encode(self) -> Seq<u8> {
        le_bytes(self.page_id as nat, 4) + le_bytes(self.record_count as nat, 4)
    }

    /// The header that `bytes` start with, if they are eight or more.
    pub open spec fn decode(bytes: Seq<u8>) -> Option<PageHeader> {
        if bytes.len() < 8 {
            None
        } else {
            Some(
                PageHeader {
                    page_id: le_value(bytes.subrange(0, 4)) as u32,
                    record_count: le_value(bytes.subrange(4, 8)) as u32,
                },
            )
        }
    }

    /// The header of a page without records.
    pub fn new(page_id: u32) -> (header: Self)
        ensures
            header == (PageHeader { page_id, record_count: 0 }),
    {
        Self { page_id, record_count: 0 }
    }

    /// Reads a header from the first eight bytes of `buffer`.
    pub fn deserialize(buffer: &[u8]) -> (res: Result<Self, DatabaseError>)
        ensures
            match PageHeader::decode(buffer@) {
                Some(h) => res == Ok::<PageHeader, DatabaseError>(h),
                None => res matches Err(DatabaseError::InvalidPage),
            },
    {
        if buffer.len() < PAGE_HEADER_SIZE {
            return Err(DatabaseError::InvalidPage);
        }
        Ok(Self { page_id: get_u32(buffer, 0), record_count: get_u32(buffer, 4) })
    }

    /// The eight bytes of the header.
    pub fn serialize(&self) -> (buffer: Vec<u8>)
        ensures
            buffer@ == self.encode(),
    {
        let mut buffer: Vec<u8> = Vec::with_capacity(PAGE_HEADER_SIZE);
        put_u32(&mut buffer, self.page_id);
        put_u32(&mut buffer, self.record_count);
        assert(buffer@ =~= self.encode());
        buffer
    }

    /// A copy of the header.
    pub fn clone(&self) -> (header: Self)
        ensures
            header == *self,
    {
        Self { page_id: self.page_id, record_count: self.record_count }
    }
}

/// A page in memory: what is on disk, a dirty flag and a pin count.
#[derive(Debug)]
pub struct Page {
    pub header: PageHeader,
    pub data: Vec<u8>,
    pub is_dirty: bool,
    pub pin_count: u32,
}

/// The mathematical content of a [`Page`].
pub struct PageView {
    pub header: PageHeader,
    pub data: Seq<u8>,
    pub is_dirty: bool,
    pub pin_count: nat,
}

impl PageView {
    /// The bytes of the page on disk: the header, then the payload.
    pub open spec fn encode(self) -> Seq<u8> {
        self.header.encode() + self.data
    }

    /// The page that `bytes` hold: a header, and the rest as payload. A page
    /// read from bytes is clean and not pinned.
    pub open spec fn decode(bytes: Seq<u8>) -> Option<PageView> {
        match PageHeader::decode(bytes) {
            Some(header) => Some(
                PageView {
                    header,
                    data: bytes.subrange(8, bytes.len() as int),
                    is_dirty: false,
                    pin_count: 0,
                },
            ),
            None => None,
        }
    }

    /// The page without records and with a payload of zeros.
    pub open spec fn fresh(page_id: u32) -> PageView {
        PageView {
            header: PageHeader { page_id, record_count: 0 },
            data: Seq::new(PAYLOAD_SIZE as nat, |i: int| 0u8),
            is_dirty: false,
            pin_count: 0,
        }
    }
}

impl View for Page {
    type V = PageView;

    open spec fn view(&self) -> PageView {
        PageView {
            header: self.header,
            data: self.data@,
            is_dirty: self.is_dirty,
            pin_count: self.pin_count as nat,
        }
    }
}

impl Page {
    /// A page without records, with a payload of zeros, clean and not pinned.
    pub fn new(page_id: u32) -> (page: Self)
        ensures
            page@ == PageView::fresh(page_id),
    {
        let page = Self {
            header: PageHeader::new(page_id),
            data: vec![0; PAYLOAD_SIZE],
            is_dirty: false,
            pin_count: 0,
        };
        assert(page.data@ =~= PageView::fresh(page_id).data);
        page
    }

    /// Whether the page was changed since it was read or made.
    pub fn is_dirty(&self) -> (dirty: bool)
        ensures
            dirty == self@.is_dirty,
    {
        self.is_dirty
    }

    /// Marks the page as changed.
    pub fn mark_dirty(&mut self)
        ensures
            final(self)@ == (PageView { is_dirty: true, ..old(self)@ }),
    {
        self.is_dirty = true;
    }

    /// Pins the page once more.
    pub fn pin(&mut self)
        requires
            old(self)@.pin_count < u32::MAX,
        ensures
            final(self)@ == (PageView { pin_count: old(self)@.pin_count + 1, ..old(self)@ }),
    {
        self.pin_count += 1;
    }

    /// Takes one pin away. A page that is not pinned stays as it is, and the
    /// call fails.
    pub fn unpin(&mut self) -> (res: Result<(), DatabaseError>)
        ensures
            old(self)@.pin_count == 0 ==> (res matches Err(DatabaseError::InvalidOperation(_)))
                && final(self)@ == old(self)@,
            old(self)@.pin_count > 0 ==> res is Ok && final(self)@ == (PageView {
                pin_count: (old(self)@.pin_count - 1) as nat,
                ..old(self)@
            }),
    {
        if self.pin_count == 0 {
            return Err(
                DatabaseError::InvalidOperation(String::from_str("Cannot unpin an unpinned page")),
            );
        }
        self.pin_count -= 1;
        Ok(())
    }

    /// A copy of the page, flags and pins included.
    pub fn clone(&self) -> (page: Self)
        ensures
            page@ == self@,
    {
        Self {
            header: self.header.clone(),
            data: self.data.clone(),
            is_dirty: self.is_dirty,
            pin_count: self.pin_count,
        }
    }

    /// The bytes of the page on disk: `PAGE_SIZE` of them where the payload
    /// has `PAYLOAD_SIZE`.
    pub fn serialize(&self) -> (buffer: Vec<u8>)
        ensures
            buffer@ == self@.encode(),
            buffer@.len() == 8 + self@.data.len(),
    {
        let mut buffer = self.header.serialize();
        proof {
            lemma_le_bytes_len(self.header.page_id as nat, 4);
            lemma_le_bytes_len(self.header.record_count as nat, 4);
        }
        let mut i: usize = 0;
        while i < self.data.len()
            invariant
                i <= self.data@.len(),
                buffer@ == self.header.encode() + self.data@.subrange(0, i as int),
            decreases self.data@.len() - i,
        {
            buffer.push(self.data[i]);
            i += 1;
            assert(self.data@.subrange(0, i as int) =~= self.data@.subrange(0, i - 1).push(
                self.data@[i - 1],
            ));
        }
        assert(self.data@.subrange(0, i as int) =~= self.data@);
        buffer
    }

    /// Reads a page from bytes: the header from the first eight, the payload
    /// from the rest.
    pub fn deserialize(buffer: &[u8]) -> (res: Result<Self, DatabaseError>)
        ensures
            match PageView::decode(buffer@) {
                Some(p) => res matches Ok(page) && page@ == p,
                None => res matches Err(DatabaseError::InvalidPage),
            },
    {
        if buffer.len() < PAGE_HEADER_SIZE {
            return Err(DatabaseError::InvalidPage);
        }
        let header = PageHeader::deserialize(slice_subrange(buffer, 0, PAGE_HEADER_SIZE))?;
        let data = slice_to_vec(slice_subrange(buffer, PAGE_HEADER_SIZE, buffer.len()));
        proof {
            let head = buffer@.subrange(0, 8);
            assert(head.subrange(0, 4) =~= buffer@.subrange(0, 4));
            assert(head.subrange(4, 8) =~= buffer@.subrange(4, 8));
        }
        Ok(Self { header, data, is_dirty: false, pin_count: 0 })
    }

    /// Records that the page was written to.
    pub fn write(&mut self) -> (res: Result<(), DatabaseError>)
        ensures
            res is Ok,
            final(self)@ == (PageView { is_dirty: true, ..old(self)@ }),
    {
        self.is_dirty = true;
        Ok(())
    }
}

/// A header read back from its bytes, whatever follows them, is the header.
pub proof fn lemma_header_round_trip(header: PageHeader, rest: Seq<u8>)
    ensures
        header.encode().len() == 8,
        PageHeader::decode(header.encode() + rest) == Some(header),
{
    let bytes = header.encode() + rest;
    lemma_limits();
    lemma_le_bytes_len(header.page_id as nat, 4);
    lemma_le_bytes_len(header.record_count as nat, 4);
    lemma_le_value_of_bytes(header.page_id as nat, 4);
    lemma_le_value_of_bytes(header.record_count as nat, 4);
    assert(bytes.subrange(0, 4) =~= le_bytes(header.page_id as nat, 4));
    assert(bytes.subrange(4, 8) =~= le_bytes(header.record_count as nat, 4));
}

/// A page read back from its bytes has the header and the payload that were
/// written; it is clean and not pinned.
pub proof fn lemma_page_round_trip(page: PageView)
    ensures
        page.encode().len() == 8 + page.data.len(),
        PageView::decode(page.encode()) == Some(
            PageView { is_dirty: false, pin_count: 0, ..page },
        ),
{
    lemma_header_round_trip(page.header, page.data);
    assert(page.encode().subrange(8, page.encode().len() as int) =~= page.data);
}

} // verus!
