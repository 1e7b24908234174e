//! Sizes of memory regions counted in units of a fixed number of bytes.
use vstd::prelude::*;

verus! {

/// Memory Unit Generic Type, stores the size of a memory region as a number of a particular size of units
pub struct MemoryUnit<const SCALE: usize>(usize);

/// Memory Unit for Pages
pub type PageCount = MemoryUnit<4096>;

/// Memory Unit for KiBytes
pub type KiByteCount = MemoryUnit<1024>;

/// Memory Unit for Bytes
pub type ByteCount = MemoryUnit<1>;

impl<const SCALE: usize> View for MemoryUnit<SCALE> {
    type V = nat;

    closed spec fn view(&self) -> nat {
        self.0 as nat
    }
}

impl<const SCALE: usize> MemoryUnit<SCALE> {
    /// Construct the type from a particular number of units
    pub fn new(units: usize) -> (r: Self)
        ensures
            r@ == units,
    {
        Self(units)
    }

    /// Get the raw number of units
    pub fn raw(&self) -> (r: usize)
        ensures
            r == self@,
    {
        self.0
    }

    /// Get the raw number of bytes
    pub fn raw_bytes(&self) -> (r: usize)
        requires
            SCALE * self@ <= usize::MAX,
        ensures
            r == SCALE * self@,
    {
        SCALE * self.0
    }

    /// Get a mutable reference to the number of units
    pub fn mut_raw(&mut self) -> (r: &mut usize)
        ensures
            *r == old(self)@,
            final(self)@ == *final(r),
    {
        &mut self.0
    }

    /// Convert to another unit, rounding up to whole units
    pub fn convert<const DEST: usize>(&self) -> (r: MemoryUnit<DEST>)
        requires
            DEST > 0,
            SCALE * self@ + DEST <= usize::MAX,
        ensures
            r@ == (SCALE * self@ + DEST - 1) / (DEST as int),
    {
        MemoryUnit((self.raw_bytes() + DEST - 1) / DEST)
    }
}

} // verus!
