//! Flags of a capability node.
use vstd::prelude::*;

verus! {

pub const DELEGATED: u16 = 0x1;

pub const IMMUTABLE: u16 = 0x2;

} // verus!
