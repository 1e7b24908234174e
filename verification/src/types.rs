//! Identifier types shared by the kernel's subsystems.
use vstd::prelude::*;

verus! {

/// Identifier of a mounted device.
pub type DeviceIdentifier = usize;

/// Identifier of a user or a group.
pub type UserIdentifier = u16;

/// A point in time, in seconds.
#[derive(Clone, Copy, Debug, PartialEq, Eq)]
pub struct TimeRepr(pub usize);

} // verus!
