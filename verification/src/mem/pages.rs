//! Global kernel page allocator: a bitmap with one bit per page of the heap,
//! kept in the first pages of the heap.
use vstd::prelude::*;

use super::bits::{bit_of, lemma_low_bit, lemma_set_clear_bit};
use super::error::GlobalPageAllocatorError;

verus! {

/// Size of a page in bytes
pub const PAGE_SIZE: usize = 4096;

/// Internal Global Kernel Page Allocator Data
struct GlobalPageAllocatorData {
    bitmap: Vec<u64>,
    count: usize,
    start_addr: usize,
}

/// Global Page Allocator Object
pub struct GlobalPageAllocator {
    data: Option<GlobalPageAllocatorData>,
}

const ALLOCATED: bool = true;

const FREE: bool = false;

/// Whether page `index` is marked allocated in the bitmap.
pub open spec fn page_allocated(bitmap: Seq<u64>, index: int) -> bool {
    bit_of(bitmap[index / 64], (index % 64) as u64)
}

/// The pages from `index` on, `n` of them, are all free.
pub open spec fn window_free(bitmap: Seq<u64>, index: int, n: int) -> bool {
    forall|k: int| index <= k < index + n ==> !#[trigger] page_allocated(bitmap, k)
}

/// The view of the allocator's state.
pub struct AllocatorState {
    pub bitmap: Seq<u64>,
    pub count: nat,
    pub start_addr: nat,
}

impl GlobalPageAllocatorData {
    spec fn wf(&self) -> bool {
        &&& self.count <= 64 * self.bitmap@.len()
        &&& self.start_addr + self.count * PAGE_SIZE <= usize::MAX
    }

    /// Construct an offset and mask from an index into the bitmask
    fn offset_and_mask(index: usize) -> (r: (usize, u64))
        ensures
            r.0 == index / 64,
            r.1 == 1u64 << (index % 64) as u64,
    {
        (index / 64, 1 << (index % 64) as u64)
    }

    /// Check if the page at a given index is allocated
    fn is_page_allocated(&self, index: usize) -> (r: bool)
        requires
            self.wf(),
            index < self.count,
        ensures
            r == page_allocated(self.bitmap@, index as int),
    {
        let (offset, mask) = Self::offset_and_mask(index);
        let flag = self.bitmap[offset];
        proof {
            let i = (index % 64) as u64;
            assert((flag & (1u64 << i) > 0) == bit_of(flag, i)) by (bit_vector)
                requires
                    i < 64,
            ;
        }
        flag & mask > 0
    }

    /// Allocate the page at the given index
    fn allocate_page(&mut self, index: usize) -> (r: Result<(), ()>)
        requires
            old(self).wf(),
            index < old(self).count,
        ensures
            final(self).wf(),
            final(self).count == old(self).count,
            final(self).start_addr == old(self).start_addr,
            page_allocated(old(self).bitmap@, index as int) ==> r is Err && final(self).bitmap@
                == old(self).bitmap@,
            !page_allocated(old(self).bitmap@, index as int) ==> r is Ok && final(self).bitmap@
                == old(self).bitmap@.update(
                index as int / 64,
                old(self).bitmap@[index as int / 64] | (1u64 << (index % 64) as u64),
            ),
    {
        let (offset, mask) = Self::offset_and_mask(index);
        if self.is_page_allocated(index) {
            Err(())
        } else {
            let flag = self.bitmap[offset] | mask;
            self.bitmap.set(offset, flag);
            Ok(())
        }
    }

    /// Free the page at the given index, returning the previous state of the page, true if allocated, false if not
    fn free_page(&mut self, index: usize) -> (r: bool)
        requires
            old(self).wf(),
            index < old(self).count,
        ensures
            final(self).wf(),
            final(self).count == old(self).count,
            final(self).start_addr == old(self).start_addr,
            r == page_allocated(old(self).bitmap@, index as int),
            final(self).bitmap@ == old(self).bitmap@.update(
                index as int / 64,
                old(self).bitmap@[index as int / 64] & !(1u64 << (index % 64) as u64),
            ),
    {
        let (offset, mask) = Self::offset_and_mask(index);
        let result = self.is_page_allocated(index);
        let flag = self.bitmap[offset] & !mask;
        self.bitmap.set(offset, flag);
        result
    }
}

/// `index` is the first page from which `n` pages in a row are free, and
/// that run lies within the first `count` pages.
pub open spec fn first_fit(bitmap: Seq<u64>, count: int, n: int, index: int) -> bool {
    &&& 0 <= index <= count - n
    &&& window_free(bitmap, index, n)
    &&& forall|j: int| 0 <= j < index ==> !#[trigger] window_free(bitmap, j, n)
}

/// No run of `n` free pages lies within the first `count` pages.
pub open spec fn no_fit(bitmap: Seq<u64>, count: int, n: int) -> bool {
    forall|j: int| 0 <= j <= count - n ==> !#[trigger] window_free(bitmap, j, n)
}

/// `new` is `old` with the pages `lo .. hi` marked allocated.
pub open spec fn pages_set(old: Seq<u64>, new: Seq<u64>, lo: int, hi: int) -> bool {
    &&& new.len() == old.len()
    &&& forall|k: int|
        0 <= k < 64 * old.len() ==> #[trigger] page_allocated(new, k) == (page_allocated(old, k)
            || lo <= k < hi)
}

/// `new` is `old` with the pages `lo .. hi` marked free.
pub open spec fn pages_cleared(old: Seq<u64>, new: Seq<u64>, lo: int, hi: int) -> bool {
    &&& new.len() == old.len()
    &&& forall|k: int|
        0 <= k < 64 * old.len() ==> #[trigger] page_allocated(new, k) == (page_allocated(old, k)
            && !(lo <= k < hi))
}

/// Setting or clearing one page's bit changes that page's state only.
proof fn lemma_page_update(bitmap: Seq<u64>, index: int, nb: Seq<u64>, set: bool)
    requires
        0 <= index < 64 * bitmap.len(),
        set ==> nb == bitmap.update(
            index / 64,
            bitmap[index / 64] | (1u64 << (index % 64) as u64),
        ),
        !set ==> nb == bitmap.update(
            index / 64,
            bitmap[index / 64] & !(1u64 << (index % 64) as u64),
        ),
    ensures
        nb.len() == bitmap.len(),
        page_allocated(nb, index) == set,
        forall|k: int|
            0 <= k < 64 * bitmap.len() && k != index ==> #[trigger] page_allocated(nb, k)
                == page_allocated(bitmap, k),
{
    let w = bitmap[index / 64];
    let i = (index % 64) as u64;
    lemma_set_clear_bit(w, i);
    assert forall|k: int|
        0 <= k < 64 * bitmap.len() && k != index implies #[trigger] page_allocated(nb, k)
        == page_allocated(bitmap, k) by {
        if k / 64 == index / 64 {
            assert((k % 64) as u64 != i);
        }
    }
}

impl GlobalPageAllocator {
    /// The state of the allocator, if it was initialized.
    pub closed spec fn state(&self) -> Option<AllocatorState> {
        match &self.data {
            Some(d) => Some(
                AllocatorState {
                    bitmap: d.bitmap@,
                    count: d.count as nat,
                    start_addr: d.start_addr as nat,
                },
            ),
            None => None,
        }
    }

    /// The state is consistent: the bitmap covers the pages and the pages
    /// lie in the address space.
    pub closed spec fn wf(&self) -> bool {
        match &self.data {
            Some(d) => d.wf(),
            None => true,
        }
    }

    /// Construct a new Global Page Allocator object, which is not initialized
    pub fn new() -> (r: Self)
        ensures
            r.wf(),
            r.state() is None,
    {
        Self { data: None }
    }

    /// Initialize the Global Page Allocator over the heap from `heap_start`
    /// to `heap_end`: the first pages of the heap hold the bitmap and the
    /// pages after them are handed out.
    pub fn initialize(&mut self, heap_start: usize, heap_end: usize) -> (r: Result<
        (),
        GlobalPageAllocatorError,
    >)
        requires
            old(self).wf(),
            heap_start <= heap_end,
            heap_start != 0,
        ensures
            final(self).wf(),
            ({
                let heap_page_count = (heap_end - heap_start) / (PAGE_SIZE as int);
                let pages_for_bitmap = (heap_page_count + 8 * PAGE_SIZE - 1) / (8 * PAGE_SIZE as int);
                if pages_for_bitmap >= heap_page_count {
                    &&& r == Err::<(), GlobalPageAllocatorError>(
                        GlobalPageAllocatorError::BitmapSpaceError,
                    )
                    &&& final(self).state() == old(self).state()
                } else {
                    &&& r == Ok::<(), GlobalPageAllocatorError>(())
                    &&& final(self).state() == Some(
                        AllocatorState {
                            bitmap: Seq::new((pages_for_bitmap * 512) as nat, |i: int| 0u64),
                            count: (heap_page_count - pages_for_bitmap) as nat,
                            start_addr: (heap_start + PAGE_SIZE * pages_for_bitmap) as nat,
                        },
                    )
                }
            }),
    {
        // First, we get the size of the heap
        let heap_size = heap_end - heap_start;

        // Next, we can determine how many pages of memory we have available
        let heap_page_count = heap_size / PAGE_SIZE;

        // Now, we need the bitmap to denote page allocations, we will construct this in the first couple of pages we have been given
        let bits_per_page = PAGE_SIZE * 8;
        let pages_for_bitmap = (heap_page_count + bits_per_page - 1) / bits_per_page;

        // Make sure we actually have the space for the bitmap (this is only a problem for extremely low memory systems)
        if pages_for_bitmap >= heap_page_count {
            return Err(GlobalPageAllocatorError::BitmapSpaceError);
        }
        // Get the address of the remainder of the heap

        let page_heap_address = heap_start + PAGE_SIZE * pages_for_bitmap;

        // Remove these pages from the final count
        let final_heap_page_count = heap_page_count - pages_for_bitmap;

        // Fill the bitmap with zeros
        let words = pages_for_bitmap * (PAGE_SIZE / 8);
        let mut bitmap: Vec<u64> = Vec::new();
        let mut i: usize = 0;
        while i < words
            invariant
                i <= words,
                bitmap@ == Seq::new(i as nat, |k: int| 0u64),
            decreases words - i,
        {
            bitmap.push(0);
            i = i + 1;
            assert(bitmap@ =~= Seq::new(i as nat, |k: int| 0u64));
        }

        proof {
            assert(final_heap_page_count <= 64 * words);
            assert(page_heap_address + final_heap_page_count * PAGE_SIZE <= heap_end);
        }
        self.data = Some(
            GlobalPageAllocatorData {
                bitmap,
                count: final_heap_page_count,
                start_addr: page_heap_address,
            },
        );

        Ok(())
    }
}

/// The outcome of allocating `page_count` pages: the first fitting run is
/// marked allocated and its address returned with the number of pages, or
/// the allocation fails with the bitmap unchanged when no run fits.
pub open spec fn allocation_outcome(
    s: AllocatorState,
    f: AllocatorState,
    page_count: usize,
    r: Result<(usize, usize), GlobalPageAllocatorError>,
) -> bool {
    &&& f.count == s.count
    &&& f.start_addr == s.start_addr
    &&& match r {
        Ok((addr, n)) => {
            let index = (addr - s.start_addr) / (PAGE_SIZE as int);
            &&& n == page_count
            &&& addr == s.start_addr + index * PAGE_SIZE
            &&& first_fit(s.bitmap, s.count as int, page_count as int, index)
            &&& pages_set(s.bitmap, f.bitmap, index, index + page_count)
        },
        Err(e) => {
            &&& e == GlobalPageAllocatorError::OutOfMemory
            &&& no_fit(s.bitmap, s.count as int, page_count as int)
            &&& f.bitmap == s.bitmap
        },
    }
}

/// The outcome of freeing `page_count` pages from page `index`: every page
/// was allocated and is now free, or the free stopped with an error at the
/// first page that was not allocated, the pages before it freed.
pub open spec fn free_outcome(
    s: AllocatorState,
    f: AllocatorState,
    index: int,
    start_pointer: usize,
    page_count: usize,
    r: Result<(), GlobalPageAllocatorError>,
) -> bool {
    &&& f.count == s.count
    &&& f.start_addr == s.start_addr
    &&& match r {
        Ok(()) => {
            &&& forall|k: int|
                0 <= k < page_count ==> #[trigger] page_allocated(s.bitmap, index + k)
            &&& pages_cleared(s.bitmap, f.bitmap, index, index + page_count)
        },
        Err(e) => {
            &&& e == GlobalPageAllocatorError::MemoryNotAllocated(start_pointer, page_count)
            &&& exists|m: int|
                #![trigger page_allocated(s.bitmap, index + m)]
                0 <= m < page_count && !page_allocated(s.bitmap, index + m) && (forall|k: int|
                    0 <= k < m ==> #[trigger] page_allocated(s.bitmap, index + k))
                    && pages_cleared(s.bitmap, f.bitmap, index, index + m + 1)
        },
    }
}

impl GlobalPageAllocatorData {
    spec fn spec_state(&self) -> AllocatorState {
        AllocatorState {
            bitmap: self.bitmap@,
            count: self.count as nat,
            start_addr: self.start_addr as nat,
        }
    }

    /// First-fit allocation of `page_count` pages.
    fn allocate_run(&mut self, page_count: usize) -> (r: Result<(usize, usize), GlobalPageAllocatorError>)
        requires
            old(self).wf(),
            page_count <= old(self).count,
        ensures
            final(self).wf(),
            allocation_outcome(old(self).spec_state(), final(self).spec_state(), page_count, r),
    {
        let ghost bitmap0 = self.bitmap@;
        // We loop over the indexes
        let mut index: usize = 0;
        while index <= self.count - page_count
            invariant
                self.wf(),
                self.bitmap@ == bitmap0,
                self.count == old(self).count,
                self.start_addr == old(self).start_addr,
                bitmap0 == old(self).bitmap@,
                page_count <= self.count,
                index <= self.count,
                forall|j: int| 0 <= j < index ==> !#[trigger] window_free(bitmap0, j, page_count as int),
            decreases self.count + 1 - index,
        {
            let mut viable = true;
            let mut add: usize = 0;
            while add < page_count
                invariant_except_break
                    viable,
                invariant
                    self.wf(),
                    self.bitmap@ == bitmap0,
                    page_count <= self.count,
                    index <= self.count - page_count,
                    add <= page_count,
                    window_free(bitmap0, index as int, add as int),
                ensures
                    add <= page_count,
                    window_free(bitmap0, index as int, add as int),
                    viable ==> add == page_count,
                    !viable ==> add < page_count && page_allocated(bitmap0, index + add),
                decreases page_count - add,
            {
                if self.is_page_allocated(index + add) {
                    viable = false;
                    break ;
                }
                add = add + 1;
            }

            if viable {
                let mut k: usize = 0;
                while k < page_count
                    invariant
                        self.wf(),
                        self.count == old(self).count,
                        self.start_addr == old(self).start_addr,
                        page_count <= self.count,
                        index <= self.count - page_count,
                        k <= page_count,
                        window_free(bitmap0, index as int, page_count as int),
                        pages_set(bitmap0, self.bitmap@, index as int, index + k),
                    decreases page_count - k,
                {
                    let ghost before = self.bitmap@;
                    let ghost p = index + k;
                    proof {
                        assert(!page_allocated(bitmap0, p));
                        assert(!page_allocated(before, p));
                    }
                    let ok = self.allocate_page(index + k);
                    proof {
                        assert(self.bitmap@ == before.update(p / 64, before[p / 64] | (1u64 << (p % 64) as u64)));
                        lemma_page_update(before, p, self.bitmap@, true);
                        assert forall|q: int| 0 <= q < 64 * bitmap0.len() implies #[trigger] page_allocated(
                            self.bitmap@,
                            q,
                        ) == (page_allocated(bitmap0, q) || index <= q < index + k + 1) by {
                            if q != p {
                                assert(page_allocated(self.bitmap@, q) == page_allocated(before, q));
                            }
                        }
                    }
                    k = k + 1;
                }

                proof {
                    assert(index * PAGE_SIZE <= self.count * PAGE_SIZE) by (nonlinear_arith)
                        requires
                            index <= self.count,
                    ;
                }
                let start_pointer = self.start_addr + index * PAGE_SIZE;
                proof {
                    assert((start_pointer - self.start_addr) / (PAGE_SIZE as int) == index) by (nonlinear_arith)
                        requires
                            start_pointer - self.start_addr == index * 4096,
                    ;
                }

                return Ok((start_pointer, page_count));
            }
            proof {
                assert forall|j: int| 0 <= j < index + add + 1 implies !#[trigger] window_free(
                    bitmap0,
                    j,
                    page_count as int,
                ) by {
                    if j >= index {
                        assert(page_allocated(bitmap0, index + add));
                    }
                }
            }
            index = index + add + 1;
        }

        Err(GlobalPageAllocatorError::OutOfMemory)
    }

    /// Free `page_count` pages from page `index`, stopping at the first page
    /// that was not allocated.
    fn free_run(&mut self, index: usize, start_pointer: usize, page_count: usize) -> (r: Result<(), GlobalPageAllocatorError>)
        requires
            old(self).wf(),
            index + page_count <= old(self).count,
        ensures
            final(self).wf(),
            free_outcome(old(self).spec_state(), final(self).spec_state(), index as int, start_pointer, page_count, r),
    {
        let ghost bitmap0 = self.bitmap@;
        let mut add: usize = 0;
        while add < page_count
            invariant
                self.wf(),
                self.count == old(self).count,
                self.start_addr == old(self).start_addr,
                bitmap0 == old(self).bitmap@,
                index + page_count <= self.count,
                add <= page_count,
                forall|k: int| 0 <= k < add ==> #[trigger] page_allocated(bitmap0, index + k),
                pages_cleared(bitmap0, self.bitmap@, index as int, index + add),
            decreases page_count - add,
        {
            let ghost before = self.bitmap@;
            let ghost p = index + add;
            proof {
                assert(page_allocated(before, p) == page_allocated(bitmap0, p));
            }
            let was = self.free_page(index + add);
            proof {
                assert(self.bitmap@ == before.update(p / 64, before[p / 64] & !(1u64 << (p % 64) as u64)));
                lemma_page_update(before, p, self.bitmap@, false);
                assert forall|q: int| 0 <= q < 64 * bitmap0.len() implies #[trigger] page_allocated(
                    self.bitmap@,
                    q,
                ) == (page_allocated(bitmap0, q) && !(index <= q < index + add + 1)) by {
                    if q != p {
                        assert(page_allocated(self.bitmap@, q) == page_allocated(before, q));
                    }
                }
            }
            if was == FREE {
                proof {
                    let m = add as int;
                    assert(!page_allocated(bitmap0, index + m));
                    assert(pages_cleared(bitmap0, self.bitmap@, index as int, index + m + 1));
                    assert(forall|k: int| 0 <= k < m ==> #[trigger] page_allocated(bitmap0, index + k));
                    assert(bitmap0 == old(self).spec_state().bitmap);
                    assert(self.bitmap@ == self.spec_state().bitmap);
                }
                return Err(GlobalPageAllocatorError::MemoryNotAllocated(start_pointer, page_count));
            }
            add = add + 1;
        }

        Ok(())
    }
}

impl GlobalPageAllocator {
    /// Allocate `page_count` pages from the global page allocator table: the
    /// first run of free pages long enough is marked allocated and its
    /// address returned with the number of pages.
    pub fn allocate_pages_raw(&mut self, page_count: usize) -> (r: Result<
        (usize, usize),
        GlobalPageAllocatorError,
    >)
        requires
            old(self).wf(),
            old(self).state() matches Some(s) ==> page_count <= s.count,
        ensures
            final(self).wf(),
            old(self).state() is None ==> r == Err::<(usize, usize), GlobalPageAllocatorError>(
                GlobalPageAllocatorError::NotInitialized,
            ) && final(self).state() == old(self).state(),
            old(self).state() matches Some(s) ==> final(self).state() matches Some(f)
                && allocation_outcome(s, f, page_count, r),
    {
        match &mut self.data {
            Some(data) => data.allocate_run(page_count),
            None => Err(GlobalPageAllocatorError::NotInitialized),
        }
    }

    /// Free a block of pages back to the page allocator table: each page in
    /// turn is marked free; at the first page that was not allocated the
    /// free stops with an error.
    pub fn free_pages_unchecked(&mut self, start_pointer: usize, page_count: usize) -> (r: Result<
        (),
        GlobalPageAllocatorError,
    >)
        requires
            old(self).wf(),
            old(self).state() matches Some(s) ==> start_pointer >= s.start_addr && (start_pointer
                - s.start_addr) / (PAGE_SIZE as int) + page_count <= s.count,
        ensures
            final(self).wf(),
            old(self).state() is None ==> r == Err::<(), GlobalPageAllocatorError>(
                GlobalPageAllocatorError::NotInitialized,
            ) && final(self).state() == old(self).state(),
            old(self).state() matches Some(s) ==> final(self).state() matches Some(f)
                && free_outcome(
                s,
                f,
                (start_pointer - s.start_addr) / (PAGE_SIZE as int),
                start_pointer,
                page_count,
                r,
            ),
    {
        match &mut self.data {
            Some(data) => {
                let index = (start_pointer - data.start_addr) / PAGE_SIZE;
                data.free_run(index, start_pointer, page_count)
            },
            None => Err(GlobalPageAllocatorError::NotInitialized),
        }
    }
}

/// Freeing the pages just allocated succeeds and marks every page as it
/// was before the allocation.
pub proof fn lemma_free_undoes_allocate(
    s: AllocatorState,
    m: AllocatorState,
    f: AllocatorState,
    n: usize,
    addr: usize,
    r: Result<(), GlobalPageAllocatorError>,
)
    requires
        s.count <= 64 * s.bitmap.len(),
        allocation_outcome(s, m, n, Ok((addr, n))),
        free_outcome(m, f, (addr - m.start_addr) / (PAGE_SIZE as int), addr, n, r),
    ensures
        r is Ok,
        f.bitmap.len() == s.bitmap.len(),
        forall|k: int| 0 <= k < 64 * s.bitmap.len() ==> #[trigger] page_allocated(f.bitmap, k) == page_allocated(s.bitmap, k),
{
    let index = (addr - s.start_addr) / (PAGE_SIZE as int);
    assert(window_free(s.bitmap, index, n as int));
    if let Err(e) = r {
        let w = choose|w: int|
            #![trigger page_allocated(m.bitmap, index + w)]
            0 <= w < n && !page_allocated(m.bitmap, index + w) && (forall|k: int|
                0 <= k < w ==> #[trigger] page_allocated(m.bitmap, index + k)) && pages_cleared(
                m.bitmap,
                f.bitmap,
                index,
                index + w + 1,
            );
        assert(0 <= index + w < 64 * s.bitmap.len());
        assert(page_allocated(m.bitmap, index + w) == (page_allocated(s.bitmap, index + w) || index <= index + w < index
            + n));
        assert(false);
    }
    assert forall|k: int| 0 <= k < 64 * s.bitmap.len() implies #[trigger] page_allocated(f.bitmap, k) == page_allocated(
        s.bitmap,
        k,
    ) by {
        assert(page_allocated(m.bitmap, k) == (page_allocated(s.bitmap, k) || index <= k < index + n));
        if index <= k < index + n {
            assert(!page_allocated(s.bitmap, k));
        }
    }
}

} // verus!
