//! Rights that a capability carries. The low eight bits depend on the type of the object.
use vstd::prelude::*;

verus! {

/// Derive a child capability.
pub const DUPLICATE: u16 = 0x0100;

/// Hand the capability to another process.
pub const TRANSFER: u16 = 0x0200;

/// Revoke the capabilities derived from this one.
pub const REVOKE: u16 = 0x0400;

/// Release this capability.
pub const CLOSE: u16 = 0x0800;

/// Query the state and signals of the object.
pub const INSPECT: u16 = 0x1000;

/// Look at the derivation tree.
pub const AUDIT: u16 = 0x2000;

pub const CHANNEL_RECEIVE: u16 = 0x0001;

pub const CHANNEL_SEND: u16 = 0x0002;

pub const SHM_MAP_READ: u16 = 0x0004;

pub const SHM_MAP_WRITE: u16 = 0x0008;

pub const SHM_UNMAP: u16 = 0x0010;

pub const FILE_READ: u16 = 0x0020;

pub const FILE_WRITE: u16 = 0x0040;

pub const FILE_SYNC: u16 = 0x0080;

pub const DEV_READ: u16 = 0x0001;

pub const DEV_WRITE: u16 = 0x0002;

pub const DEV_CONTROL: u16 = 0x0004;

pub const DEV_MAP_MMIO: u16 = 0x0008;

pub const DEV_DMA_ACQUIRE: u16 = 0x0010;

pub const DEV_INTERRUPT_LISTEN: u16 = 0x0020;

pub const DEV_RESET: u16 = 0x0040;

pub const DEV_ATTACH: u16 = 0x0080;

pub const NET_BIND: u16 = 0x0001;

pub const NET_LISTEN: u16 = 0x0002;

pub const NET_ACCEPT: u16 = 0x0004;

pub const NET_CONNECT: u16 = 0x0008;

pub const NET_SEND: u16 = 0x0010;

pub const NET_RECV: u16 = 0x0020;

pub const NET_ROUTE: u16 = 0x0040;

pub const NET_CONFIG: u16 = 0x0080;

pub const NET_RAW: u16 = 0x4000;

/// Every right of `child` is a right of `parent`.
pub open spec fn rights_within(child: u16, parent: u16) -> bool {
    child & !parent == 0
}

/// Decides whether every right of `child` is a right of `parent`.
pub fn is_rights_subset(child: u16, parent: u16) -> (r: bool)
    ensures
        r == rights_within(child, parent),
{
    (child & !parent) == 0
}

/// Subsets of rights are ordered: a right that is in no rights of the middle is in none below it.
pub proof fn law_rights_within_is_transitive(a: u16, b: u16, c: u16)
    requires
        rights_within(a, b),
        rights_within(b, c),
    ensures
        rights_within(a, c),
{
    assert((a & !b == 0) && (b & !c == 0) ==> (a & !c == 0)) by (bit_vector);
}

/// A set of rights is a subset of itself, and a right that a subset has, the whole has.
pub proof fn law_rights_within_keeps_rights(a: u16, b: u16, right: u16)
    ensures
        rights_within(a, a),
        rights_within(a, b) && a & right == right ==> b & right == right,
{
    assert(a & !a == 0) by (bit_vector);
    assert((a & !b == 0) && (a & right == right) ==> (b & right == right)) by (bit_vector);
}

} // verus!
