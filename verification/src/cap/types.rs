//! The node that ties a capability into the derivation tree.
use vstd::prelude::*;

pub mod cap_rights;
pub mod node_flags;

pub use crate::ipc::handle::MAX_HANDLES_PER_PROCESS;
pub use crate::process::MAX_PROCESSES;

verus! {

pub const MAX_DERIVATION_DEPTH: u8 = 8;

pub const MAX_CAPABILITY_NODES: usize = MAX_PROCESSES * MAX_HANDLES_PER_PROCESS;

/// The number that stands for "no slot" in the links of a node.
pub const NO_SLOT: u8 = 0xFF;

/// One capability in the derivation tree. Links name a process slot and a handle slot; both are
/// `NO_SLOT` where there is no such node.
#[derive(Debug, Clone, Copy)]
pub struct CapabilityNode {
    /// Identifier of the capability; identifiers only ever grow.
    pub capability_id: u64,
    pub parent_pslot: u8,
    pub parent_hslot: u8,
    /// Generation of the parent handle at the time of derivation.
    pub parent_gen: u16,
    /// Distance from the root at the time of derivation.
    pub derivation_depth: u8,
    pub is_revoked: bool,
    pub flags: u16,
    pub first_child_pslot: u8,
    pub first_child_hslot: u8,
    pub next_sibling_pslot: u8,
    pub next_sibling_hslot: u8,
    pub _reserved: [u8; 4],
}

impl CapabilityNode {
    /// A node that is in no tree.
    pub open spec fn is_blank(&self) -> bool {
        &&& self.capability_id == 0
        &&& self.parent_pslot == NO_SLOT
        &&& self.parent_hslot == NO_SLOT
        &&& self.parent_gen == 0
        &&& self.derivation_depth == 0
        &&& !self.is_revoked
        &&& self.flags == 0
        &&& self.first_child_pslot == NO_SLOT
        &&& self.first_child_hslot == NO_SLOT
        &&& self.next_sibling_pslot == NO_SLOT
        &&& self.next_sibling_hslot == NO_SLOT
        &&& self._reserved@ == seq![0u8, 0u8, 0u8, 0u8]
    }

    pub fn empty() -> (r: Self)
        ensures
            r.is_blank(),
    {
        let r = CapabilityNode {
            capability_id: 0,
            parent_pslot: NO_SLOT,
            parent_hslot: NO_SLOT,
            parent_gen: 0,
            derivation_depth: 0,
            is_revoked: false,
            flags: 0,
            first_child_pslot: NO_SLOT,
            first_child_hslot: NO_SLOT,
            next_sibling_pslot: NO_SLOT,
            next_sibling_hslot: NO_SLOT,
            _reserved: [0u8; 4],
        };
        assert(r._reserved@ =~= seq![0u8, 0u8, 0u8, 0u8]);
        r
    }

    /// A root has no parent.
    pub fn is_root(&self) -> (r: bool)
        ensures
            r == (self.parent_pslot == NO_SLOT && self.parent_hslot == NO_SLOT),
    {
        self.parent_pslot == NO_SLOT && self.parent_hslot == NO_SLOT
    }
}

} // verus!
