//! The heap file as a sequence of bytes, cut into pages of `PAGE_SIZE`.
//!
//! The manager holds the bytes of the file and works on them; reading the
//! file into memory and writing it back is left to the caller.

use crate::storage::error::DatabaseError;
use crate::storage::page::{Page, PAGE_SIZE, PageView, PAYLOAD_SIZE};
use vstd::prelude::*;
use vstd::slice::*;
use vstd::string::*;

verus! {

/// `n` bytes of zero.
pub open spec fn zeros(n: int) -> Seq<u8> {
    Seq::new(
        if n >= 0 {
            n as nat
        } else {
            0
        },
        |i: int| 0u8,
    )
}

/// What a file holds after `bytes` were written at `offset`. A file that
/// ends before the offset is filled with zeros up to it.
pub open spec fn written(heap: Seq<u8>, offset: int, bytes: Seq<u8>) -> Seq<u8> {
    let base = heap + zeros(offset + bytes.len() - heap.len());
    Seq::new(
        base.len(),
        |i: int|
            if offset <= i < offset + bytes.len() {
                bytes[i - offset]
            } else {
                base[i]
            },
    )
}

/// The bytes of page `page_id` in the file, if the file holds all of them.
pub open spec fn block(heap: Seq<u8>, page_id: u32) -> Option<Seq<u8>> {
    if (page_id + 1) * PAGE_SIZE <= heap.len() {
        Some(heap.subrange(page_id * PAGE_SIZE, (page_id + 1) * PAGE_SIZE))
    } else {
        None
    }
}

/// The `PAGE_SIZE` bytes that a page with a payload of at most
/// `PAYLOAD_SIZE` is written as: its bytes, then zeros.
pub open spec fn block_image(page: PageView) -> Seq<u8> {
    page.encode() + zeros(PAYLOAD_SIZE - page.data.len())
}

/// The state of a disk manager: the bytes of the heap file, and the id that
/// the next allocated page gets.
pub struct DiskView {
    pub heap: Seq<u8>,
    pub next_page_id: u32,
}

impl DiskView {
    /// Every page id below the next one has its bytes in the file.
    pub open spec fn wf(self) -> bool {
        self.heap.len() >= self.next_page_id * PAGE_SIZE
    }

    /// Whether one more page can be allocated: an id is left, and the new
    /// page's end is a file offset that the machine can address.
    pub open spec fn can_allocate(self) -> bool {
        &&& self.next_page_id < u32::MAX
        &&& (self.next_page_id + 1) * PAGE_SIZE <= usize::MAX
    }

    /// The state after one page was allocated.
    pub open spec fn allocated(self) -> DiskView {
        DiskView {
            heap: written(self.heap, self.next_page_id * PAGE_SIZE, zeros(PAGE_SIZE as int)),
            next_page_id: (self.next_page_id + 1) as u32,
        }
    }

    /// The state after `k` pages were allocated one after the other.
    pub open spec fn allocated_times(self, k: nat) -> DiskView
        decreases k,
    {
        if k == 0 {
            self
        } else {
            self.allocated_times((k - 1) as nat).allocated()
        }
    }

    /// The page that a read of `page_id` gives, if the file holds it.
    pub open spec fn page(self, page_id: u32) -> Option<PageView> {
        match block(self.heap, page_id) {
            Some(bytes) => PageView::decode(bytes),
            None => None,
        }
    }
}

/// The heap file and the counter of allocated pages.
pub struct DiskManager {
    heap: Vec<u8>,
    next_page_id: u32,
}

impl View for DiskManager {
    type V = DiskView;

    closed spec fn view(&self) -> DiskView {
        DiskView { heap: self.heap@, next_page_id: self.next_page_id }
    }
}

/// The number of whole pages in a file of `len` bytes, as far as page ids
/// go.
pub open spec fn pages_in(len: nat) -> u32 {
    if len / (PAGE_SIZE as nat) >= u32::MAX {
        u32::MAX
    } else {
        (len / (PAGE_SIZE as nat)) as u32
    }
}

impl DiskManager {
    /// A manager of the file with the given bytes; an empty vector stands
    /// for a new file. The whole pages that the file holds count as
    /// allocated: allocation starts at page 0 in a new file, and behind the
    /// last whole page in any other.
    pub fn new(heap: Vec<u8>) -> (disk: Self)
        ensures
            disk@ == (DiskView { heap: heap@, next_page_id: pages_in(heap@.len()) }),
            disk@.wf(),
    {
        let pages = heap.len() / PAGE_SIZE;
        let next_page_id: u32 = if pages >= 0xffff_ffff {
            0xffff_ffff
        } else {
            pages as u32
        };
        assert(next_page_id * PAGE_SIZE <= heap@.len()) by (nonlinear_arith)
            requires
                next_page_id <= heap@.len() / (PAGE_SIZE as nat),
                PAGE_SIZE == 4096,
        ;
        Self { heap, next_page_id }
    }

    /// The number of pages that were allocated: the id that the next page
    /// gets.
    pub fn page_count(&self) -> (count: u32)
        ensures
            count == self@.next_page_id,
    {
        self.next_page_id
    }

    /// The bytes of the heap file.
    pub fn contents(&self) -> (heap: &Vec<u8>)
        ensures
            heap@ == self@.heap,
    {
        &self.heap
    }

    /// Writes `bytes` at `offset`, after filling the file up to the offset
    /// with zeros where it is shorter.
    fn write_at(&mut self, offset: usize, bytes: &[u8])
        requires
            offset + bytes@.len() <= usize::MAX,
        ensures
            final(self)@.heap == written(old(self)@.heap, offset as int, bytes@),
            final(self)@.next_page_id == old(self)@.next_page_id,
    {
        let end: usize = offset + bytes.len();
        while self.heap.len() < end
            invariant
                self.next_page_id == old(self).next_page_id,
                self.heap@.len() >= old(self).heap@.len(),
                self.heap@.len() <= end || self.heap@.len() == old(self).heap@.len(),
                self.heap@ == old(self).heap@ + zeros(self.heap@.len() - old(self).heap@.len()),
            decreases end - self.heap@.len(),
        {
            let ghost before = self.heap@;
            self.heap.push(0);
            assert(self.heap@ =~= old(self).heap@ + zeros(
                self.heap@.len() - old(self).heap@.len(),
            ));
        }
        let ghost base = self.heap@;
        assert(base =~= old(self).heap@ + zeros(offset + bytes@.len() - old(self).heap@.len()));
        let mut i: usize = 0;
        while i < bytes.len()
            invariant
                i <= bytes@.len(),
                offset + bytes@.len() == end <= self.heap@.len() == base.len(),
                self.next_page_id == old(self).next_page_id,
                forall|j: int|
                    0 <= j < base.len() ==> self.heap@[j] == if offset <= j < offset + i {
                        bytes@[j - offset]
                    } else {
                        base[j]
                    },
            decreases bytes@.len() - i,
        {
            self.heap[offset + i] = bytes[i];
            i += 1;
        }
        assert(self.heap@ =~= written(old(self)@.heap, offset as int, bytes@));
    }

    /// Gives the next page id out, and writes a page of zeros at its place
    /// in the file.
    pub fn allocate_page(&mut self) -> (res: Result<u32, DatabaseError>)
        ensures
            old(self)@.can_allocate() ==> res == Ok::<u32, DatabaseError>(
                old(self)@.next_page_id,
            ) && final(self)@ == old(self)@.allocated(),
            !old(self)@.can_allocate() ==> (res matches Err(DatabaseError::InvalidOperation(_)))
                && final(self)@ == old(self)@,
    {
        let page_id = self.next_page_id;
        if page_id == u32::MAX || (usize::MAX / PAGE_SIZE) as u64 <= (page_id as u64) {
            return Err(DatabaseError::InvalidOperation(String::from_str("No page id is left")));
        }
        let zeros_block: Vec<u8> = vec![0u8; PAGE_SIZE];
        assert(zeros_block@ =~= zeros(PAGE_SIZE as int));
        self.write_at(page_id as usize * PAGE_SIZE, zeros_block.as_slice());
        self.next_page_id = page_id + 1;
        Ok(page_id)
    }

    /// Reads page `page_id` from the file.
    pub fn read_page(&mut self, page_id: u32) -> (res: Result<Page, DatabaseError>)
        ensures
            final(self)@ == old(self)@,
            match old(self)@.page(page_id) {
                Some(p) => res matches Ok(page) && page@ == p,
                None => res == Err::<Page, DatabaseError>(DatabaseError::PageNotFound(page_id)),
            },
    {
        let len = self.heap.len();
        if (len / PAGE_SIZE) as u64 <= (page_id as u64) {
            return Err(DatabaseError::PageNotFound(page_id));
        }
        let start: usize = page_id as usize * PAGE_SIZE;
        let bytes = slice_subrange(self.heap.as_slice(), start, start + PAGE_SIZE);
        Page::deserialize(bytes)
    }

    /// Writes the page at its place in the file, as `PAGE_SIZE` bytes: a
    /// payload shorter than `PAYLOAD_SIZE` is followed by zeros, a longer one
    /// is refused.
    pub fn write_page(&mut self, page: &Page) -> (res: Result<(), DatabaseError>)
        ensures
            final(self)@.next_page_id == old(self)@.next_page_id,
            match Self::write_outcome(old(self)@, page@) {
                Ok(heap) => res is Ok && final(self)@.heap == heap,
                Err(true) => (res matches Err(DatabaseError::InvalidPage)) && final(self)@ == old(self)@,
                Err(false) => (res matches Err(DatabaseError::IoError(_))) && final(self)@ == old(self)@,
            },
    {
        if page.data.len() > PAYLOAD_SIZE {
            return Err(DatabaseError::InvalidPage);
        }
        let page_id = page.header.page_id;
        if (usize::MAX / PAGE_SIZE) as u64 <= (page_id as u64) {
            return Err(DatabaseError::IoError(String::from_str("File offset out of range")));
        }
        let mut buffer = page.serialize();
        while buffer.len() < PAGE_SIZE
            invariant
                buffer@.len() <= PAGE_SIZE,
                buffer@ == page@.encode() + zeros(buffer@.len() - page@.encode().len()),
            decreases PAGE_SIZE - buffer@.len(),
        {
            buffer.push(0);
            assert(buffer@ =~= page@.encode() + zeros(buffer@.len() - page@.encode().len()));
        }
        self.write_at(page_id as usize * PAGE_SIZE, buffer.as_slice());
        Ok(())
    }

    /// What a write of `page` does to the file: the new bytes; or `Err(true)`
    /// where the payload is too long, `Err(false)` where the page's place is
    /// no file offset that the machine can address.
    pub open spec fn write_outcome(disk: DiskView, page: PageView) -> Result<Seq<u8>, bool> {
        if page.data.len() > PAYLOAD_SIZE {
            Err(true)
        } else if (page.header.page_id + 1) * PAGE_SIZE > usize::MAX {
            Err(false)
        } else {
            Ok(written(disk.heap, page.header.page_id * PAGE_SIZE, block_image(page)))
        }
    }

    /// Overwrites an allocated page with zeros. Its id is not given out
    /// again.
    pub fn free_page(&mut self, page_id: u32) -> (res: Result<(), DatabaseError>)
        ensures
            final(self)@.next_page_id == old(self)@.next_page_id,
            match Self::free_outcome(old(self)@, page_id) {
                Ok(heap) => res is Ok && final(self)@.heap == heap,
                Err(true) => (res matches Err(DatabaseError::InvalidPage)) && final(self)@ == old(self)@,
                Err(false) => (res matches Err(DatabaseError::IoError(_))) && final(self)@ == old(self)@,
            },
    {
        if page_id >= self.next_page_id {
            return Err(DatabaseError::InvalidPage);
        }
        if (usize::MAX / PAGE_SIZE) as u64 <= (page_id as u64) {
            return Err(DatabaseError::IoError(String::from_str("File offset out of range")));
        }
        let zeros_block: Vec<u8> = vec![0u8; PAGE_SIZE];
        assert(zeros_block@ =~= zeros(PAGE_SIZE as int));
        self.write_at(page_id as usize * PAGE_SIZE, zeros_block.as_slice());
        Ok(())
    }

    /// What freeing `page_id` does to the file: the new bytes; or `Err(true)`
    /// where the page was never allocated, `Err(false)` where its place is no
    /// file offset that the machine can address.
    pub open spec fn free_outcome(disk: DiskView, page_id: u32) -> Result<Seq<u8>, bool> {
        if page_id >= disk.next_page_id {
            Err(true)
        } else if (page_id + 1) * PAGE_SIZE > usize::MAX {
            Err(false)
        } else {
            Ok(written(disk.heap, page_id * PAGE_SIZE, zeros(PAGE_SIZE as int)))
        }
    }
}

/// A write makes the file long enough to hold what was written, and never
/// shorter than it was.
pub proof fn lemma_written_len(heap: Seq<u8>, offset: int, bytes: Seq<u8>)
    requires
        offset >= 0,
    ensures
        written(heap, offset, bytes).len() == if heap.len() >= offset + bytes.len() {
            heap.len() as int
        } else {
            offset + bytes.len()
        },
{
}

/// A write of a whole page changes the bytes of that page and of no other
/// page that was in the file.
pub proof fn lemma_written_block(heap: Seq<u8>, page_id: u32, bytes: Seq<u8>, other: u32)
    requires
        bytes.len() == PAGE_SIZE,
    ensures
        block(written(heap, page_id * PAGE_SIZE, bytes), page_id) == Some(bytes),
        other != page_id ==> block(heap, other) is Some ==> block(
            written(heap, page_id * PAGE_SIZE, bytes),
            other,
        ) == block(heap, other),
{
    let after = written(heap, page_id * PAGE_SIZE, bytes);
    lemma_written_len(heap, page_id * PAGE_SIZE, bytes);
    assert(after.subrange(page_id * PAGE_SIZE, (page_id + 1) * PAGE_SIZE) =~= bytes);
    if other != page_id && block(heap, other) is Some {
        assert(after.subrange(other * PAGE_SIZE, (other + 1) * PAGE_SIZE) =~= heap.subrange(
            other * PAGE_SIZE,
            (other + 1) * PAGE_SIZE,
        ));
    }
}

/// Allocation is dense: on a manager that has given out no page yet, `k`
/// allocations one after the other give out the ids 0, 1, .., `k - 1` in this
/// order, and leave a file of at least `k` pages.
pub proof fn lemma_allocation_is_dense(disk: DiskView, k: nat)
    requires
        disk.next_page_id == 0,
        k < u32::MAX,
        k * PAGE_SIZE <= usize::MAX,
    ensures
        forall|i: nat|
            i < k ==> (#[trigger] disk.allocated_times(i)).can_allocate() && disk.allocated_times(
                i,
            ).next_page_id == i,
        disk.allocated_times(k).next_page_id == k,
        disk.allocated_times(k).heap.len() >= k * PAGE_SIZE,
    decreases k,
{
    if k > 0 {
        let j = (k - 1) as nat;
        lemma_allocation_is_dense(disk, j);
        let before = disk.allocated_times(j);
        lemma_written_len(before.heap, before.next_page_id * PAGE_SIZE, zeros(PAGE_SIZE as int));
        assert forall|i: nat| i < k implies (#[trigger] disk.allocated_times(i)).can_allocate()
            && disk.allocated_times(i).next_page_id == i by {
            if i == j {
                assert(before.can_allocate());
            }
        }
    }
}

} // verus!
