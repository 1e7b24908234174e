//! Filesystem structures and drivers of the Qor kernel.
use vstd::prelude::*;

pub mod devfs;
pub mod generic;
pub mod minix3;
pub mod procfs;
pub mod ramdisk;
pub mod structures;
pub mod vfs;

verus! {

} // verus!
