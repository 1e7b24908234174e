//! Kernel space static allocator of page-scale regions of memory which
//! cannot be freed.
use vstd::prelude::*;

use super::PAGE_SIZE;

verus! {

/// Kernel space static allocator of page-scale regions of memory which cannot
/// be freed. Addresses are byte addresses; the region handed out is the one
/// from the walking address to the end address.
pub struct KernelPageStaticBumpAllocator {
    pages_walking_pointer: usize,
    pages_end: usize,
    total: usize,
}

/// Potential errors which can be returned when attempting an allocation via a
/// `KernelPageStaticBumpAllocator`.
#[derive(Clone, Copy, Debug, PartialEq, Eq, Structural)]
pub enum KernelPageStaticBumpAllocatorError {
    OutOfMemoryError { requested: usize, remaining: usize, total: usize },
}

impl KernelPageStaticBumpAllocator {
    /// The address of the next page to hand out.
    pub closed spec fn walking(&self) -> usize {
        self.pages_walking_pointer
    }

    /// The address one past the region.
    pub closed spec fn end(&self) -> usize {
        self.pages_end
    }

    /// The number of pages the region was made with.
    pub closed spec fn spec_total(&self) -> usize {
        self.total
    }

    /// The number of whole pages left.
    pub open spec fn spec_free(&self) -> int {
        if self.walking() >= self.end() {
            0
        } else {
            (self.end() - self.walking()) / (PAGE_SIZE as int)
        }
    }

    /// Construct a KernelPageStaticBumpAllocator over the pages from `start`
    /// up to `end`.
    pub fn new(start: usize, end: usize) -> (r: Self)
        requires
            start <= end,
            (end - start) % (PAGE_SIZE as int) == 0,
        ensures
            r.walking() == start,
            r.end() == end,
            r.spec_total() == (end - start) / (PAGE_SIZE as int),
    {
        Self { pages_walking_pointer: start, pages_end: end, total: (end - start) / PAGE_SIZE }
    }

    /// Update the allocator to point to the pages from `start` up to `end`.
    pub fn update(&mut self, start: usize, end: usize)
        requires
            start <= end,
            (end - start) % (PAGE_SIZE as int) == 0,
        ensures
            final(self).walking() == start,
            final(self).end() == end,
            final(self).spec_total() == (end - start) / (PAGE_SIZE as int),
    {
        self.pages_walking_pointer = start;
        self.pages_end = end;
        self.total = (end - start) / PAGE_SIZE;
    }

    /// Get the number of free pages.
    pub fn free(&self) -> (r: usize)
        ensures
            r == self.spec_free(),
    {
        let current = self.pages_walking_pointer;
        let end = self.pages_end;

        if current >= end {
            0
        } else {
            (end - current) / PAGE_SIZE
        }
    }

    /// Get the total number of pages assigned to the allocator
    pub fn total(&self) -> (r: usize)
        ensures
            r == self.spec_total(),
    {
        self.total
    }

    /// Allocate `count` pages of memory, returning the address of the region
    /// of memory `count` pages long.
    ///
    /// # Errors
    ///
    /// If there are not enough pages remaining to allocate `count` pages of
    /// memory, a `KernelPageStaticBumpAllocatorError` is returned.
    pub fn alloc_pages(&mut self, count: usize) -> (r: Result<
        usize,
        KernelPageStaticBumpAllocatorError,
    >)
        requires
            old(self).walking() + count * PAGE_SIZE <= usize::MAX,
        ensures
            final(self).end() == old(self).end(),
            final(self).spec_total() == old(self).spec_total(),
            old(self).walking() + count * PAGE_SIZE <= old(self).end() ==> {
                &&& r == Ok::<usize, KernelPageStaticBumpAllocatorError>(old(self).walking())
                &&& final(self).walking() == old(self).walking() + count * PAGE_SIZE
            },
            old(self).walking() + count * PAGE_SIZE > old(self).end() ==> {
                &&& r == Err::<usize, KernelPageStaticBumpAllocatorError>(
                    KernelPageStaticBumpAllocatorError::OutOfMemoryError {
                        requested: count,
                        remaining: old(self).spec_free() as usize,
                        total: old(self).spec_total(),
                    },
                )
                &&& final(self).walking() == old(self).walking()
            },
    {
        // Advance the pointer
        let pointer = self.pages_walking_pointer;
        self.pages_walking_pointer = pointer + count * PAGE_SIZE;

        // Check if the resulting region overruns the buffer
        let after_known_buffer = pointer + count * PAGE_SIZE;

        if after_known_buffer <= self.pages_end {
            Ok(pointer)
        } else {
            self.pages_walking_pointer = self.pages_walking_pointer - count * PAGE_SIZE;
            Err(
                KernelPageStaticBumpAllocatorError::OutOfMemoryError {
                    requested: count,
                    remaining: self.free(),
                    total: self.total(),
                },
            )
        }
    }
}

/// Two successful allocations in a row hand out regions that do not overlap:
/// the second starts where the first ends.
pub proof fn lemma_bump_allocations_disjoint(
    a: KernelPageStaticBumpAllocator,
    b: KernelPageStaticBumpAllocator,
    first: usize,
    first_count: usize,
    second: usize,
)
    requires
        first == a.walking(),
        b.walking() == a.walking() + first_count * PAGE_SIZE,
        second == b.walking(),
    ensures
        first + first_count * PAGE_SIZE <= second,
{
}

/// Point a `KernelPageStaticBumpAllocator` at the heap of the linker
/// script, the pages from `heap_start` up to `heap_end`: every page of it is
/// free.
pub fn initialize_kernel_bump_allocator(
    allocator: &mut KernelPageStaticBumpAllocator,
    heap_start: usize,
    heap_end: usize,
)
    requires
        heap_start <= heap_end,
        (heap_end - heap_start) % (PAGE_SIZE as int) == 0,
    ensures
        final(allocator).walking() == heap_start,
        final(allocator).end() == heap_end,
        final(allocator).spec_total() == (heap_end - heap_start) / (PAGE_SIZE as int),
        final(allocator).spec_free() == (heap_end - heap_start) / (PAGE_SIZE as int),
{
    // Construct a range over the heap
    let start = heap_start;
    let end = heap_end;

    // Initialize the allocator
    allocator.update(start, end);
}

} // verus!
