//! Handles: how a process names a capability it holds.
use crate::cap::node::{slot_at, Slot};
use crate::cap::ops::{
    allocate_handle_slot_locked, capability_close_locked, handle_check,
    install_root_capability_locked, is_first_free, names_slot, root_installed, table_full,
    validate_capability_locked,
};
use crate::cap::tree::closed;
use crate::ipc::object::MAX_KERNEL_OBJECTS;
use crate::ipc::space::handle_added;
use crate::ipc::types::IpcError;
use crate::kernel::KernelState;
use crate::process::MAX_PROCESSES;
use vstd::array::spec_array_fill_for_copy_type;
use vstd::prelude::*;

verus! {

pub const MAX_HANDLES_PER_PROCESS: usize = 32;

/// A token that user space presents: the slot in the low half, the generation in the high half.
#[derive(Debug, Clone, Copy, PartialEq, Eq, Structural)]
pub struct Handle(pub u32);

/// The slot that a handle names.
pub open spec fn handle_slot(h: Handle) -> int {
    h.0 as int % 0x1_0000
}

/// The generation that a handle names.
pub open spec fn handle_gen(h: Handle) -> int {
    h.0 as int / 0x1_0000
}

impl Handle {
    pub fn new(slot_index: u16, generation: u16) -> (r: Self)
        ensures
            r.0 == generation * 0x1_0000 + slot_index,
            handle_slot(r) == slot_index,
            handle_gen(r) == generation,
    {
        Handle((generation as u32) * 0x1_0000 + (slot_index as u32))
    }

    pub fn slot_index(&self) -> (r: usize)
        ensures
            r == handle_slot(*self),
    {
        (self.0 % 0x1_0000) as usize
    }

    pub fn generation(&self) -> (r: u16)
        ensures
            r == handle_gen(*self),
    {
        (self.0 / 0x1_0000) as u16
    }
}

/// One slot of a process's handle table.
#[derive(Debug, Clone, Copy)]
pub struct HandleEntry {
    /// Index of the object.
    pub object_index: u16,
    /// Changes whenever the slot is freed, so that old handles go stale.
    pub handle_generation: u16,
    /// Generation of the object's slot when the handle was made.
    pub object_generation: u16,
    pub rights: u16,
    /// Which end of a channel the handle stands for.
    pub endpoint: u8,
    pub occupied: bool,
    pub _reserved: [u8; 6],
}

/// A handle entry that was never used.
pub open spec fn empty_handle_entry() -> HandleEntry {
    HandleEntry {
        object_index: 0,
        handle_generation: 1,
        object_generation: 0,
        rights: 0,
        endpoint: 0,
        occupied: false,
        _reserved: spec_array_fill_for_copy_type::<u8, 6>(0),
    }
}

impl HandleEntry {
    pub fn empty() -> (r: Self)
        ensures
            r == empty_handle_entry(),
    {
        HandleEntry {
            object_index: 0,
            handle_generation: 1,
            object_generation: 0,
            rights: 0,
            endpoint: 0,
            occupied: false,
            _reserved: [0u8; 6],
        }
    }
}

/// The handles of one process.
#[derive(Debug, Clone, Copy)]
pub struct HandleTable {
    pub entries: [HandleEntry; MAX_HANDLES_PER_PROCESS],
    /// Number of occupied entries.
    pub count: u16,
    pub _reserved: [u8; 6],
}

impl HandleTable {
    pub fn empty() -> (r: Self)
        ensures
            r.count == 0,
            r._reserved == spec_array_fill_for_copy_type::<u8, 6>(0),
            forall|i: int|
                0 <= i < MAX_HANDLES_PER_PROCESS ==> (#[trigger] r.entries@[i])
                    == empty_handle_entry(),
    {
        HandleTable {
            entries: [HandleEntry::empty(); MAX_HANDLES_PER_PROCESS],
            count: 0,
            _reserved: [0u8; 6],
        }
    }
}

/// The outcome of giving a process a root capability for an object.
pub open spec fn entry_allocation(
    old_k: &KernelState,
    new_k: &KernelState,
    p: int,
    object_index: int,
    rights: u16,
    endpoint: u8,
    r: Result<Handle, IpcError>,
) -> bool {
    if table_full(&old_k.caps, p) {
        r == Err::<Handle, IpcError>(IpcError::HandleTableFull) && *new_k == *old_k
    } else if old_k.caps.next_capability_id == u64::MAX {
        r == Err::<Handle, IpcError>(IpcError::CapabilityIdExhausted) && *new_k == *old_k
    } else {
        &&& r is Ok
        &&& new_k.same_rest(old_k)
        &&& new_k.objs@ == handle_added(old_k.objs@, object_index, endpoint)
        &&& is_first_free(&old_k.caps, p, handle_slot(r->Ok_0))
        &&& names_slot(r->Ok_0, &new_k.caps, Slot { p, h: handle_slot(r->Ok_0) })
        &&& root_installed(
            &old_k.caps,
            &new_k.caps,
            Slot { p, h: handle_slot(r->Ok_0) },
            object_index as u16,
            old_k.objs@.slots[object_index].generation,
            rights,
            endpoint,
        )
    }
}

/// Gives a process a root capability for an object, in its first free slot.
pub fn allocate_handle_entry_locked(
    k: &mut KernelState,
    process_slot_index: usize,
    object_index: usize,
    rights: u16,
    endpoint: u8,
) -> (r: Result<Handle, IpcError>)
    requires
        old(k).wf(),
        process_slot_index < MAX_PROCESSES,
        object_index < MAX_KERNEL_OBJECTS,
        old(k).objs@.slots[object_index as int].occupied,
    ensures
        final(k).wf(),
        entry_allocation(
            old(k),
            final(k),
            process_slot_index as int,
            object_index as int,
            rights,
            endpoint,
            r,
        ),
{
    let h: usize = match allocate_handle_slot_locked(k, process_slot_index) {
        Err(e) => {
            return Err(e);
        },
        Ok(h) => h,
    };
    assert(slot_at(process_slot_index, h) == Slot { p: process_slot_index as int, h: h as int });
    assert(!table_full(&k.caps, process_slot_index as int)) by {
        assert(!k.caps.tables@[process_slot_index as int].entries@[h as int].occupied);
    }
    install_root_capability_locked(k, process_slot_index, h, object_index, rights, endpoint)
}

/// Checks a handle that a process presents: the object, the endpoint and the rights.
pub fn validate_handle_locked(
    k: &KernelState,
    process_slot_index: usize,
    handle: Handle,
    required_rights: u16,
) -> (r: Result<(usize, u8, u16), IpcError>)
    requires
        process_slot_index < MAX_PROCESSES,
    ensures
        match handle_check(k, process_slot_index as int, handle, required_rights) {
            Err(e) => r == Err::<(usize, u8, u16), IpcError>(e),
            Ok(v) => r is Ok && r->Ok_0.0 == v.0 && r->Ok_0.1 == v.1 && r->Ok_0.2 == v.2 && v.0
                < MAX_KERNEL_OBJECTS,
        },
{
    validate_capability_locked(k, process_slot_index, handle, required_rights)
}

/// Why a handle cannot be closed; `None` when it can.
pub open spec fn close_fault(k: &KernelState, p: int, h: Handle) -> Option<IpcError> {
    let s = Slot { p, h: handle_slot(h) };
    if s.h >= MAX_HANDLES_PER_PROCESS {
        Some(IpcError::InvalidHandle)
    } else if k.caps.entry(s).handle_generation != handle_gen(h) {
        Some(IpcError::BadHandleGeneration)
    } else if !k.caps.entry(s).occupied {
        Some(IpcError::InvalidHandle)
    } else {
        None
    }
}

/// Closes a handle of a process. The result is the object and the endpoint it stood for.
pub fn close_handle_locked(k: &mut KernelState, process_slot_index: usize, handle: Handle) -> (r:
    Result<(usize, u8), IpcError>)
    requires
        old(k).wf(),
        process_slot_index < MAX_PROCESSES,
    ensures
        final(k).wf(),
        match close_fault(old(k), process_slot_index as int, handle) {
            Some(e) => r == Err::<(usize, u8), IpcError>(e) && *final(k) == *old(k),
            None => {
                let s = Slot { p: process_slot_index as int, h: handle_slot(handle) };
                let e = old(k).caps.entry(s);
                &&& r == Ok::<(usize, u8), IpcError>((e.object_index as usize, e.endpoint))
                &&& e.object_index < MAX_KERNEL_OBJECTS
                &&& final(k).same_rest(old(k))
                &&& closed(&old(k).caps, &final(k).caps, s)
                &&& final(k).objs@ == old(k).objs@.handle_gone(e.object_index as int, e.endpoint)
            },
        },
{
    let h: usize = handle.slot_index();
    if h >= MAX_HANDLES_PER_PROCESS {
        return Err(IpcError::InvalidHandle);
    }
    let e = k.caps.tables[process_slot_index].entries[h];
    assert(slot_at(process_slot_index, h) == Slot {
        p: process_slot_index as int,
        h: handle_slot(handle),
    });
    assert(e == k.caps.entry(slot_at(process_slot_index, h)));
    if e.handle_generation != handle.generation() {
        return Err(IpcError::BadHandleGeneration);
    }
    if !e.occupied {
        return Err(IpcError::InvalidHandle);
    }
    capability_close_locked(k, process_slot_index, h)
}

} // verus!
