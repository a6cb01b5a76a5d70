//! Access rights of handles.
use vstd::prelude::*;

verus! {

pub const READ: u16 = 0x0001;

pub const WRITE: u16 = 0x0002;

pub const MAP_RO: u16 = 0x0004;

pub const MAP_RW: u16 = 0x0008;

pub const TRANSFER: u16 = 0x0010;

pub const DUPLICATE: u16 = 0x0020;

pub const SIGNAL: u16 = 0x0040;

pub const WAIT: u16 = 0x0080;

} // verus!
