//! Memory management and filesystem structures of the Qor kernel.
use vstd::prelude::*;

pub mod bytes;
pub mod elf;
pub mod fs;
pub mod mem;
pub mod types;

verus! {
} // verus!
