//! Kernel page allocator keeping one bit per page in 64-bit bitmap entries;
//! a run of pages is handed out within a single entry.
use vstd::prelude::*;

use super::PAGE_SIZE;
use crate::mem::bits::{lemma_masks, lemma_shifted_one, low_mask};

verus! {

/// Kernel page allocator over a region of pages: `count` pages from
/// `start_addr` on, one bit per page in `bitmap`.
pub struct KernelPageBitmapAllocator {
    bitmap: Vec<u64>,
    start_addr: usize,
    count: usize,
}

/// Potential errors which can be returned when attempting an allocation or
/// free via a `KernelPageBitmapAllocator`.
#[derive(Clone, Copy, Debug, PartialEq, Eq, Structural)]
pub enum KernelPageBitmapAllocatorError {
    OutOfMemory { requested: usize },
    PageNotMapped { address: usize },
    UnalignedPage { address: usize },
}

/// The mask of `page_count` pages starting at bit `index % 64` of an entry.
pub open spec fn mask_for(index: int, page_count: int) -> u64 {
    low_mask(page_count as u64) << ((index % 64) as u64)
}

/// The mask of a run of `c` pages from bit `b` of an entry has exactly the
/// bits `b` to `b + c - 1` set: a run is free exactly when those pages'
/// bits are clear.
pub proof fn lemma_mask_for_bits(b: u64, c: u64, q: u64)
    requires
        b + c < 64,
        q < 64,
    ensures
        ((mask_for(b as int, c as int) >> q) & 1 == 1) == (b <= q && q < b + c),
{
    assert(((b as int) % 64) as u64 == b);
    assert(mask_for(b as int, c as int) == low_mask(c) << b);
    assert((((low_mask(c) << b) >> q) & 1 == 1) == (b <= q && q < b + c)) by (bit_vector)
        requires
            b + c < 64,
            q < 64,
    ;
}

/// A run of `page_count` pages starting at bit `bit` of entry `entry` fits
/// in the region and every page in it is free.
pub open spec fn slot_free(bitmap: Seq<u64>, total: int, page_count: int, entry: int, bit: int) -> bool {
    &&& entry * 64 + bit + page_count <= total
    &&& bitmap[entry] & mask_for(bit, page_count) == 0
}

/// Slot (`e1`, `b1`) comes before slot (`e2`, `b2`).
pub open spec fn slot_before(e1: int, b1: int, e2: int, b2: int) -> bool {
    e1 < e2 || (e1 == e2 && b1 < b2)
}

impl KernelPageBitmapAllocator {
    /// The bitmap entries.
    pub closed spec fn entries(&self) -> Seq<u64> {
        self.bitmap@
    }

    /// The address of the first page handed out.
    pub closed spec fn start(&self) -> usize {
        self.start_addr
    }

    /// The number of pages handed out.
    pub closed spec fn page_total(&self) -> usize {
        self.count
    }

    /// The region lies in the address space and the bitmap covers its pages.
    pub closed spec fn wf(&self) -> bool {
        &&& self.count <= 64 * self.bitmap@.len()
        &&& 64 * self.bitmap@.len() + 64 <= usize::MAX
        &&& self.start_addr + self.count * PAGE_SIZE <= usize::MAX
    }

    /// Construct a new allocator which points to a null region of memory.
    pub fn new() -> (r: Self)
        ensures
            r.wf(),
            r.entries().len() == 0,
            r.start() == 0,
            r.page_total() == 0,
    {
        Self { bitmap: Vec::new(), start_addr: 0, count: 0 }
    }

    /// Point the allocator at the pages from `start` up to `end`: the first
    /// pages hold the bitmap and the pages after them are handed out.
    pub fn initialize(&mut self, start: usize, end: usize)
        requires
            start <= end,
            (end - start) % (PAGE_SIZE as int) == 0,
        ensures
            final(self).wf(),
            ({
                let page_count = (end - start) / (PAGE_SIZE as int);
                let bitmap_page_count = (page_count + 8 * PAGE_SIZE - 1) / (8 * PAGE_SIZE as int);
                &&& final(self).entries() == Seq::new(
                    (page_count - bitmap_page_count) as nat,
                    |i: int| 0u64,
                )
                &&& final(self).start() == start + bitmap_page_count * PAGE_SIZE
                &&& final(self).page_total() == page_count - bitmap_page_count
            }),
    {
        // Get the number of pages in the range
        let page_count = (end - start) / PAGE_SIZE;

        // Get the size of the bitmap
        let bitmap_page_count = (page_count + 8 * PAGE_SIZE - 1) / (8 * PAGE_SIZE);
        let remaining_page_count = page_count - bitmap_page_count;

        // Get the starting address of the allocation area
        let allocation_start_address = start + bitmap_page_count * PAGE_SIZE;

        // Fill the bitmap with zeroes to denote free pages
        let mut bitmap: Vec<u64> = Vec::new();
        let mut i: usize = 0;
        while i < remaining_page_count
            invariant
                i <= remaining_page_count,
                bitmap@ == Seq::new(i as nat, |k: int| 0u64),
            decreases remaining_page_count - i,
        {
            bitmap.push(0);
            i = i + 1;
            assert(bitmap@ =~= Seq::new(i as nat, |k: int| 0u64));
        }

        // Update the allocator
        self.bitmap = bitmap;
        self.start_addr = allocation_start_address;
        self.count = page_count - bitmap_page_count;
    }

    /// Construct the mask for the given number of pages at the given index
    /// (the index is required so the mask is clipped at the right number of
    /// bits to stay within a bitmap entry).
    fn make_mask_for(index: usize, page_count: usize) -> (r: Option<u64>)
        ensures
            page_count < 64 ==> r == Some(mask_for(index as int, page_count as int)),
            page_count >= 64 ==> r is None,
    {
        if page_count < 64 {
            let shift = page_count as u64;
            proof {
                lemma_shifted_one(shift);
            }
            let low = (1u64 << shift) - 1;
            Some(low << (index % 64) as u64)
        } else {
            None
        }
    }
}

/// Setting the bits of a mask and then clearing the bits that were not set
/// before gives the entry back.
proof fn lemma_undo_mask(read: u64, mask: u64)
    ensures
        (read | mask) & !(mask ^ (read & mask)) == read,
{
    assert((read | mask) & !(mask ^ (read & mask)) == read) by (bit_vector);
}

/// The result of looking up the index of the page at `ptr`.
pub open spec fn mapped_index(start: usize, count: usize, ptr: usize) -> Result<usize, KernelPageBitmapAllocatorError> {
    if start % PAGE_SIZE != 0 {
        Err(KernelPageBitmapAllocatorError::UnalignedPage { address: ptr })
    } else if start <= ptr {
        let index = ((ptr - start) / (PAGE_SIZE as int)) as usize;
        if index >= count {
            Err(KernelPageBitmapAllocatorError::PageNotMapped { address: ptr })
        } else {
            Ok(index)
        }
    } else {
        Err(KernelPageBitmapAllocatorError::PageNotMapped { address: ptr })
    }
}

impl KernelPageBitmapAllocator {
    /// Allocates the pages within a single bitmap entry, returning true if the
    /// allocation was successful; if it was not, the entry is as it was.
    fn mark_as_allocated_within_one(&mut self, index: usize, page_count: usize) -> (r: bool)
        requires
            old(self).wf(),
            index + page_count <= usize::MAX,
            page_count < 64 && index + page_count <= old(self).page_total() ==> index / 64 < old(
                self,
            ).entries().len(),
        ensures
            final(self).wf(),
            final(self).start() == old(self).start(),
            final(self).page_total() == old(self).page_total(),
            ({
                let w = old(self).entries()[index as int / 64];
                let m = mask_for(index as int, page_count as int);
                if page_count >= 64 || index + page_count > old(self).page_total() || w & m != 0 {
                    !r && final(self).entries() == old(self).entries()
                } else {
                    r && final(self).entries() == old(self).entries().update(index as int / 64, w | m)
                }
            }),
    {
        if page_count > 64 {
            return false;
        }
        if index + page_count > self.count {
            return false;
        }
        // Produce the mask to use to update the bitmap entry

        match Self::make_mask_for(index, page_count) {
            Some(mask) => {
                let read = self.bitmap[index / 64];
                self.bitmap.set(index / 64, read | mask);

                // If the pages were all free
                if read & mask == 0 {
                    true
                } else {
                    // Then we modify the mask to reflect the bits that couldn't be allocated
                    let mask_take_away_failed = mask ^ (read & mask);

                    // Then we clear those bits
                    let current = self.bitmap[index / 64];
                    self.bitmap.set(index / 64, current & !mask_take_away_failed);
                    proof {
                        lemma_undo_mask(read, mask);
                        assert(self.bitmap@ =~= old(self).bitmap@);
                    }
                    false
                }
            },
            None => false,
        }
    }

    /// Frees the pages within a single bitmap entry, returning true if
    /// successful.
    fn mark_as_free_within_one(&mut self, index: usize, page_count: usize) -> (r: bool)
        requires
            old(self).wf(),
            index + page_count <= usize::MAX,
            page_count < 64 && index + page_count <= old(self).page_total() ==> index / 64 < old(
                self,
            ).entries().len(),
        ensures
            final(self).wf(),
            final(self).start() == old(self).start(),
            final(self).page_total() == old(self).page_total(),
            ({
                let w = old(self).entries()[index as int / 64];
                let m = mask_for(index as int, page_count as int);
                if page_count >= 64 || index + page_count > old(self).page_total() {
                    !r && final(self).entries() == old(self).entries()
                } else {
                    r && final(self).entries() == old(self).entries().update(index as int / 64, w & !m)
                }
            }),
    {
        if page_count > 64 {
            return false;
        }
        if index + page_count > self.count {
            return false;
        }
        // Produce the mask to use to update the bitmap entry

        match Self::make_mask_for(index, page_count) {
            Some(mask) => {
                let current = self.bitmap[index / 64];
                self.bitmap.set(index / 64, current & !mask);
                true
            },
            None => false,
        }
    }

    /// Allocates the pages in the bitmap starting at the given index,
    /// returning a boolean if the allocation was successful.
    fn mark_pages_as_allocated(&mut self, index: usize, page_count: usize) -> (r: bool)
        requires
            old(self).wf(),
            index % 64 + page_count < 64,
            index < 64 * old(self).entries().len(),
        ensures
            final(self).wf(),
            final(self).start() == old(self).start(),
            final(self).page_total() == old(self).page_total(),
            ({
                let w = old(self).entries()[index as int / 64];
                let m = mask_for(index as int, page_count as int);
                if index + page_count > old(self).page_total() || w & m != 0 {
                    !r && final(self).entries() == old(self).entries()
                } else {
                    r && final(self).entries() == old(self).entries().update(index as int / 64, w | m)
                }
            }),
    {
        self.mark_as_allocated_within_one(index, page_count)
    }

    /// Frees the pages in the bitmap starting at the given index, returning a
    /// boolean if it successfully freed all of the pages.
    fn mark_pages_as_free(&mut self, index: usize, page_count: usize) -> (r: bool)
        requires
            old(self).wf(),
            index % 64 + page_count < 64,
            index < 64 * old(self).entries().len(),
        ensures
            final(self).wf(),
            final(self).start() == old(self).start(),
            final(self).page_total() == old(self).page_total(),
            ({
                let w = old(self).entries()[index as int / 64];
                let m = mask_for(index as int, page_count as int);
                if index + page_count > old(self).page_total() {
                    !r && final(self).entries() == old(self).entries()
                } else {
                    r && final(self).entries() == old(self).entries().update(index as int / 64, w & !m)
                }
            }),
    {
        self.mark_as_free_within_one(index, page_count)
    }

    /// Get the address of the page with the given index
    fn pointer_for_index(&self, index: usize) -> (r: usize)
        requires
            self.start() + index * PAGE_SIZE <= usize::MAX,
        ensures
            r == self.start() + index * PAGE_SIZE,
    {
        self.start_addr + index * PAGE_SIZE
    }

    /// Ensure the page referenced by the given pointer is properly mapped and
    /// returns the index of that page within the bitmap.
    ///
    /// # Errors
    /// Returns an error if the page being requested is either not mapped, not
    /// aligned or not present within the bitmap.
    fn ensure_mapped_index(&self, ptr: usize) -> (r: Result<usize, KernelPageBitmapAllocatorError>)
        requires
            self.start() <= ptr ==> (ptr - self.start()) % (PAGE_SIZE as int) == 0,
        ensures
            r == mapped_index(self.start(), self.page_total(), ptr),
    {
        let start_ptr = self.start_addr;
        let mapped_count = self.count;

        if start_ptr % PAGE_SIZE != 0 {
            return Err(KernelPageBitmapAllocatorError::UnalignedPage { address: ptr });
        }
        if start_ptr <= ptr {
            let index = (ptr - start_ptr) / PAGE_SIZE;
            if index >= mapped_count {
                Err(KernelPageBitmapAllocatorError::PageNotMapped { address: ptr })
            } else {
                Ok(index)
            }
        } else {
            Err(KernelPageBitmapAllocatorError::PageNotMapped { address: ptr })
        }
    }
}

/// Slot (`e`, `b`) is the first free run of `count` pages, entry by entry
/// and bit by bit, among the bits from which a run fits in its entry.
pub open spec fn first_free_slot(bitmap: Seq<u64>, total: int, count: int, e: int, b: int) -> bool {
    &&& 0 <= e < bitmap.len()
    &&& 0 <= b < 64 - count
    &&& slot_free(bitmap, total, count, e, b)
    &&& forall|e2: int, b2: int|
        0 <= e2 < bitmap.len() && 0 <= b2 < 64 - count && slot_before(e2, b2, e, b)
            ==> !#[trigger] slot_free(bitmap, total, count, e2, b2)
}

/// No run of `count` pages that fits in one entry is free.
pub open spec fn no_free_slot(bitmap: Seq<u64>, total: int, count: int) -> bool {
    forall|e: int, b: int|
        0 <= e < bitmap.len() && 0 <= b < 64 - count ==> !#[trigger] slot_free(bitmap, total, count, e, b)
}

/// The address of the last page of a run of `count` pages at `location`
/// (the first page itself for an empty run).
pub open spec fn last_page_of(location: usize, count: usize) -> int {
    location + (if count == 0 { 0int } else { count - 1 }) * PAGE_SIZE
}

impl KernelPageBitmapAllocator {
    /// Allocate a number of continuous pages.
    ///
    /// # Errors
    /// If no suitable location is able to be found, an `OutOfMemoryError` is
    /// returned.
    pub fn allocate_pages(&mut self, count: usize) -> (r: Result<usize, KernelPageBitmapAllocatorError>)
        requires
            old(self).wf(),
            count <= 64,
        ensures
            final(self).wf(),
            final(self).start() == old(self).start(),
            final(self).page_total() == old(self).page_total(),
            match r {
                Ok(addr) => exists|e: int, b: int|
                    #[trigger] first_free_slot(old(self).entries(), old(self).page_total() as int, count as int, e, b)
                    && addr == old(self).start() + (64 * e + b) * PAGE_SIZE
                    && final(self).entries() == old(self).entries().update(
                        e,
                        old(self).entries()[e] | mask_for(b, count as int),
                    ),
                Err(err) => err == (KernelPageBitmapAllocatorError::OutOfMemory { requested: count })
                    && no_free_slot(old(self).entries(), old(self).page_total() as int, count as int)
                    && final(self).entries() == old(self).entries(),
            },
    {
        let count_up_to = 64 - count;
        let len = self.bitmap.len();
        let ghost total = self.count as int;

        let mut entry_index: usize = 0;
        while entry_index < len
            invariant
                self.wf(),
                self.entries() == old(self).entries(),
                self.start() == old(self).start(),
                total == old(self).page_total(),
                total == self.page_total(),
                len == self.entries().len(),
                count <= 64,
                count_up_to == 64 - count,
                entry_index <= len,
                forall|e: int, b: int|
                    0 <= e < entry_index && 0 <= b < count_up_to
                        ==> !#[trigger] slot_free(self.entries(), total, count as int, e, b),
            decreases len - entry_index,
        {
            let mut bit: usize = 0;
            while bit < count_up_to
                invariant
                    self.wf(),
                    self.entries() == old(self).entries(),
                    self.start() == old(self).start(),
                    total == old(self).page_total(),
                    total == self.page_total(),
                    len == self.entries().len(),
                    count <= 64,
                    count_up_to == 64 - count,
                    entry_index < len,
                    bit <= count_up_to,
                    forall|e: int, b: int|
                        0 <= e < entry_index && 0 <= b < count_up_to
                            ==> !#[trigger] slot_free(self.entries(), total, count as int, e, b),
                    forall|b: int|
                        0 <= b < bit ==> !#[trigger] slot_free(
                            self.entries(),
                            total,
                            count as int,
                            entry_index as int,
                            b,
                        ),
                decreases count_up_to - bit,
            {
                let index = entry_index * 64 + bit;
                assert(index as int / 64 == entry_index as int && index as int % 64 == bit as int);
                let ghost before = self.entries();
                if self.mark_pages_as_allocated(index, count) {
                    proof {
                        assert(slot_free(before, total, count as int, entry_index as int, bit as int));
                        assert(first_free_slot(before, total, count as int, entry_index as int, bit as int));
                    }
                    let ptr = self.pointer_for_index(index);
                    return Ok(ptr);
                }
                bit = bit + 1;
            }
            entry_index = entry_index + 1;
        }
        Err(KernelPageBitmapAllocatorError::OutOfMemory { requested: count })
    }

    /// Free a consecutive region of pages.
    ///
    /// # Errors
    /// Returns an error if the location given is unaligned or not within the
    /// mapped region. Also returns an error if the entire region of pages is
    /// not within the bounds of the mapped area.
    pub fn free_pages(&mut self, location: usize, count: usize) -> (r: Result<(), KernelPageBitmapAllocatorError>)
        requires
            old(self).wf(),
            last_page_of(location, count) <= usize::MAX,
            old(self).start() <= location ==> (location - old(self).start()) % (PAGE_SIZE as int) == 0,
            ({
                let first = mapped_index(old(self).start(), old(self).page_total(), location);
                let last = mapped_index(old(self).start(), old(self).page_total(), last_page_of(location, count) as usize);
                first is Ok && last is Ok ==> first->Ok_0 % 64 + count < 64
            }),
        ensures
            final(self).wf(),
            final(self).start() == old(self).start(),
            final(self).page_total() == old(self).page_total(),
            ({
                let first = mapped_index(old(self).start(), old(self).page_total(), location);
                let last = mapped_index(old(self).start(), old(self).page_total(), last_page_of(location, count) as usize);
                match first {
                    Err(e) => r == Err::<(), _>(e) && final(self).entries() == old(self).entries(),
                    Ok(i) => match last {
                        Err(e) => r == Err::<(), _>(e) && final(self).entries() == old(self).entries(),
                        Ok(_) => r is Ok && final(self).entries() == old(self).entries().update(
                            i as int / 64,
                            old(self).entries()[i as int / 64] & !mask_for(i as int, count as int),
                        ),
                    },
                }
            }),
    {
        // Ensure first page is valid and get the index
        let index = match self.ensure_mapped_index(location) {
            Ok(index) => index,
            Err(e) => return Err(e),
        };

        // Ensure the last page is valid
        let last_offset = if count == 0 { 0 } else { count - 1 };
        let last = location + last_offset * PAGE_SIZE;
        match self.ensure_mapped_index(last) {
            Ok(_) => {},
            Err(e) => return Err(e),
        }

        // Mark the pages as free
        self.mark_pages_as_free(index, count);

        Ok(())
    }
}

/// Freeing the run of pages just handed out gives the bitmap back as it
/// was: the address handed out names the run's first page, its last page
/// is mapped too, and clearing the run undoes setting it.
pub proof fn lemma_free_undoes_allocate(start: usize, total: usize, entries: Seq<u64>, count: int, e: int, b: int)
    requires
        start % PAGE_SIZE == 0,
        start + total * PAGE_SIZE <= usize::MAX,
        first_free_slot(entries, total as int, count, e, b),
        0 < count <= 64,
    ensures
        ({
            let i = 64 * e + b;
            let addr = (start + i * PAGE_SIZE) as usize;
            let after = entries.update(e, entries[e] | mask_for(b, count));
            &&& mapped_index(start, total, addr) == Ok::<usize, KernelPageBitmapAllocatorError>(i as usize)
            &&& mapped_index(start, total, last_page_of(addr, count as usize) as usize) is Ok
            &&& (i as usize) % 64 + count < 64
            &&& after.update(i / 64, after[i / 64] & !mask_for(i, count)) == entries
        }),
{
    let i = 64 * e + b;
    let addr = start + i * PAGE_SIZE;
    let last = addr + (count - 1) * PAGE_SIZE;
    assert(0 <= i && i + count <= total);
    assert(i * PAGE_SIZE + (count - 1) * PAGE_SIZE == (i + count - 1) * PAGE_SIZE) by (nonlinear_arith);
    assert((i + count - 1) * PAGE_SIZE < total * PAGE_SIZE) by (nonlinear_arith)
        requires
            i + count - 1 < total,
    ;
    assert(i * PAGE_SIZE / (PAGE_SIZE as int) == i) by (nonlinear_arith);
    assert((i + count - 1) * PAGE_SIZE / (PAGE_SIZE as int) == i + count - 1) by (nonlinear_arith);
    assert(i / 64 == e && i % 64 == b);
    let x = entries[e];
    let m = mask_for(b, count);
    assert(x & m == 0);
    assert((x | m) & !m == x) by (bit_vector)
        requires
            x & m == 0,
    ;
    let after = entries.update(e, x | m);
    assert(after.update(i / 64, after[i / 64] & !mask_for(i, count)) =~= entries);
}

} // verus!
