//! Page scale allocators.
use vstd::prelude::*;

pub mod bitmap;
pub mod bump;

verus! {

/// Size of a page in bytes
pub const PAGE_SIZE: usize = 4096;

/// A page of memory
pub struct Page(pub [u8; 4096]);

impl Default for Page {
    fn default() -> (r: Self)
        ensures
            forall|i: int| 0 <= i < 4096 ==> #[trigger] r.0@[i] == 0,
    {
        Self([0u8; 4096])
    }
}

} // verus!
