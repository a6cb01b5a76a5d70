//! Signals asserted on kernel objects.
use vstd::prelude::*;

verus! {

pub const READABLE: u32 = 0x1;

pub const WRITABLE: u32 = 0x2;

pub const PEER_CLOSED: u32 = 0x4;

pub const OBJECT_DESTROYED: u32 = 0x8;

} // verus!
