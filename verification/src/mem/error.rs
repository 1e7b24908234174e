//! Errors of the global page allocator.
use vstd::prelude::*;

verus! {

/// Global Page Allocator Error
#[derive(Clone, Copy, Debug, PartialEq, Eq, Structural)]
pub enum GlobalPageAllocatorError {
    NotInitialized,
    OutOfMemory,
    BitmapSpaceError,
    MemoryNotAllocated(usize, usize),
}

} // verus!
