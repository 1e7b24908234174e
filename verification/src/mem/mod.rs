//! Memory management for the Qor kernel.
use vstd::prelude::*;

pub mod allocator;
pub mod byte_alloc;
pub mod bits;
pub mod error;
pub mod kernel;
pub mod mmu;
pub mod page;
pub mod page_map;
pub mod pages;
pub mod pagetable;
pub mod units;

verus! {

/// Size of a page of memory.
pub const PAGE_SIZE: usize = 4096;

} // verus!
