//! The table of kernel objects.
use crate::ipc::types::IpcError;
use vstd::prelude::*;

verus! {

pub const MAX_KERNEL_OBJECTS: usize = 256;

#[derive(Debug, Clone, Copy, PartialEq, Eq, Structural)]
pub enum KernelObjectType {
    Free,
    Channel,
    ShmObject,
    Event,
    Process,
    StorageObject,
    Device,
    Socket,
}

#[derive(Debug, Clone, Copy, PartialEq, Eq, Structural)]
pub enum ObjectLifecycleState {
    Free,
    Active,
    PeerClosed,
    Quiescent,
    Reclaiming,
}

/// What all kernel objects have in common.
#[derive(Debug, Clone, Copy, PartialEq, Eq, Structural)]
pub struct KernelObjectHeader {
    /// Identifier of the object; identifiers only ever grow.
    pub object_id: u64,
    pub creator_pid: u64,
    /// Handles to the object in all processes.
    pub handle_refs: u16,
    /// Mappings of the object in all address spaces.
    pub mapping_refs: u16,
    /// Operations in progress on the object.
    pub in_flight_op_refs: u16,
    pub state: ObjectLifecycleState,
    pub _reserved1: u8,
    pub signals: u32,
    pub _reserved2: u32,
}

/// The header of a free slot.
pub open spec fn blank_header() -> KernelObjectHeader {
    KernelObjectHeader {
        object_id: 0,
        creator_pid: 0,
        handle_refs: 0,
        mapping_refs: 0,
        in_flight_op_refs: 0,
        state: ObjectLifecycleState::Free,
        _reserved1: 0,
        signals: 0,
        _reserved2: 0,
    }
}

/// The header of an object that was just created.
pub open spec fn fresh_header(object_id: u64, creator_pid: u64) -> KernelObjectHeader {
    KernelObjectHeader {
        object_id,
        creator_pid,
        state: ObjectLifecycleState::Active,
        ..blank_header()
    }
}

impl KernelObjectHeader {
    pub fn empty() -> (r: Self)
        ensures
            r == blank_header(),
    {
        KernelObjectHeader {
            object_id: 0,
            creator_pid: 0,
            handle_refs: 0,
            mapping_refs: 0,
            in_flight_op_refs: 0,
            state: ObjectLifecycleState::Free,
            _reserved1: 0,
            signals: 0,
            _reserved2: 0,
        }
    }

    /// All references of any kind.
    pub open spec fn total_refs(&self) -> int {
        self.handle_refs + self.mapping_refs + self.in_flight_op_refs
    }

    pub fn ref_count(&self) -> (r: usize)
        ensures
            r == self.total_refs(),
    {
        (self.handle_refs as usize) + (self.mapping_refs as usize) + (
        self.in_flight_op_refs as usize)
    }
}

/// A slot of the object table.
#[derive(Debug, Clone, Copy, PartialEq, Eq, Structural)]
pub struct KernelObjectSlot {
    pub occupied: bool,
    pub obj_type: KernelObjectType,
    /// Changes whenever the slot is freed, so that handles to what it held go stale.
    pub generation: u16,
    /// Index into the table of the object's type.
    pub pool_index: u16,
    pub _pad: u16,
    pub header: KernelObjectHeader,
}

/// A slot that never held anything.
pub open spec fn unused_slot() -> KernelObjectSlot {
    KernelObjectSlot {
        occupied: false,
        obj_type: KernelObjectType::Free,
        generation: 1,
        pool_index: 0,
        _pad: 0,
        header: blank_header(),
    }
}

impl KernelObjectSlot {
    pub fn empty() -> (r: Self)
        ensures
            r == unused_slot(),
    {
        KernelObjectSlot {
            occupied: false,
            obj_type: KernelObjectType::Free,
            generation: 1,
            pool_index: 0,
            _pad: 0,
            header: KernelObjectHeader::empty(),
        }
    }
}

/// The generation after `g`; zero is never one.
pub open spec fn next_generation(g: u16) -> u16 {
    if g == 0xFFFF {
        1
    } else {
        (g + 1) as u16
    }
}

/// Moves a generation on.
pub fn bump_generation(g: u16) -> (r: u16)
    ensures
        r == next_generation(g),
        r != 0,
{
    if g == 0xFFFF {
        1
    } else {
        g + 1
    }
}

/// The slot `s` after what it held is gone.
pub open spec fn freed_slot(s: KernelObjectSlot) -> KernelObjectSlot {
    KernelObjectSlot {
        occupied: false,
        obj_type: KernelObjectType::Free,
        generation: next_generation(s.generation),
        header: blank_header(),
        ..s
    }
}

/// The slot `s` after an object was put into it. The generation stays.
pub open spec fn filled_slot(
    s: KernelObjectSlot,
    obj_type: KernelObjectType,
    pool_index: u16,
    object_id: u64,
    creator_pid: u64,
) -> KernelObjectSlot {
    KernelObjectSlot {
        occupied: true,
        obj_type,
        pool_index,
        header: fresh_header(object_id, creator_pid),
        ..s
    }
}

/// The first free slot at or after `from`, or the number of slots.
pub open spec fn first_free(slots: Seq<KernelObjectSlot>, from: int) -> int
    decreases slots.len() - from,
{
    if from >= slots.len() {
        slots.len() as int
    } else if !slots[from].occupied {
        from
    } else {
        first_free(slots, from + 1)
    }
}

/// The kernel objects.
pub struct KernelObjectTable {
    pub slots: [KernelObjectSlot; MAX_KERNEL_OBJECTS],
    pub next_object_id: u64,
}

impl KernelObjectTable {
    pub fn new() -> (r: Self)
        ensures
            r.next_object_id == 1,
            forall|i: int|
                0 <= i < MAX_KERNEL_OBJECTS ==> (#[trigger] r.slots@[i]) == unused_slot(),
    {
        KernelObjectTable { slots: [KernelObjectSlot::empty(); MAX_KERNEL_OBJECTS], next_object_id: 1 }
    }
}

/// The lock of the object table. It is taken with interrupts off; what they were before is kept
/// by whoever holds the lock.
#[derive(Debug, PartialEq, Eq, Structural)]
pub struct KernelObjectTableLock {
    pub lock: bool,
}

/// Interrupts were on when the flags were saved.
pub open spec fn interrupts_on(rflags: u64) -> bool {
    rflags & 0x200 != 0
}

impl KernelObjectTableLock {
    pub fn new() -> (r: Self)
        ensures
            !r.lock,
    {
        KernelObjectTableLock { lock: false }
    }

    pub fn is_locked(&self) -> (r: bool)
        ensures
            r == self.lock,
    {
        self.lock
    }

    /// Takes the lock once it is free. The result is the flags register as it was, to be handed
    /// back on release.
    pub fn acquire(&mut self, rflags: u64) -> (r: u64)
        requires
            !old(self).lock,
        ensures
            final(self).lock,
            r == rflags,
    {
        self.lock = true;
        rflags
    }

    /// Releases the lock. The result says whether interrupts are to be switched on again.
    pub fn unlock_restore(&mut self, rflags: u64) -> (r: bool)
        ensures
            !final(self).lock,
            r == interrupts_on(rflags),
    {
        self.lock = false;
        (rflags & 0x200) != 0
    }
}

/// Hands out the next identifier. The last number is never handed out, so that the counter never
/// wraps.
pub fn allocate_object_id(t: &mut KernelObjectTable) -> (r: Result<u64, IpcError>)
    ensures
        final(t).slots == old(t).slots,
        if old(t).next_object_id == u64::MAX {
            r == Err::<u64, IpcError>(IpcError::ObjectIdExhausted) && final(t).next_object_id
                == old(t).next_object_id
        } else {
            r == Ok::<u64, IpcError>(old(t).next_object_id) && final(t).next_object_id == old(t).next_object_id + 1
        },
{
    if t.next_object_id == u64::MAX {
        return Err(IpcError::ObjectIdExhausted);
    }
    let id: u64 = t.next_object_id;
    t.next_object_id = id + 1;
    Ok(id)
}

/// Puts a new object into the first free slot. The identifier is used up even when there is no
/// free slot.
pub fn allocate_object_slot_locked(
    t: &mut KernelObjectTable,
    obj_type: KernelObjectType,
    pool_index: u16,
    creator_pid: u64,
) -> (r: Result<usize, IpcError>)
    ensures
        ({
            let k = first_free(old(t).slots@, 0);
            if old(t).next_object_id == u64::MAX {
                r == Err::<usize, IpcError>(IpcError::ObjectIdExhausted) && *final(t) == *old(t)
            } else if k >= MAX_KERNEL_OBJECTS {
                &&& r == Err::<usize, IpcError>(IpcError::ObjectTableFull)
                &&& final(t).slots == old(t).slots
                &&& final(t).next_object_id == old(t).next_object_id + 1
            } else {
                &&& 0 <= k
                &&& r == Ok::<usize, IpcError>(k as usize)
                &&& !old(t).slots@[k].occupied
                &&& final(t).slots@ == old(t).slots@.update(
                    k,
                    filled_slot(
                        old(t).slots@[k],
                        obj_type,
                        pool_index,
                        old(t).next_object_id,
                        creator_pid,
                    ),
                )
                &&& final(t).next_object_id == old(t).next_object_id + 1
            }
        }),
{
    let object_id: u64 = match allocate_object_id(t) {
        Err(e) => {
            return Err(e);
        },
        Ok(id) => id,
    };
    let mut i: usize = 0;
    while i < MAX_KERNEL_OBJECTS
        invariant
            i <= MAX_KERNEL_OBJECTS,
            t.slots == old(t).slots,
            t.next_object_id == old(t).next_object_id + 1,
            object_id == old(t).next_object_id,
            first_free(old(t).slots@, 0) == first_free(old(t).slots@, i as int),
            old(t).next_object_id < u64::MAX,
        decreases MAX_KERNEL_OBJECTS - i,
    {
        if !t.slots[i].occupied {
            t.slots[i] = KernelObjectSlot {
                occupied: true,
                obj_type,
                generation: t.slots[i].generation,
                pool_index,
                _pad: t.slots[i]._pad,
                header: KernelObjectHeader {
                    object_id,
                    creator_pid,
                    handle_refs: 0,
                    mapping_refs: 0,
                    in_flight_op_refs: 0,
                    state: ObjectLifecycleState::Active,
                    _reserved1: 0,
                    signals: 0,
                    _reserved2: 0,
                },
            };
            return Ok(i);
        }
        i = i + 1;
    }
    Err(IpcError::ObjectTableFull)
}

/// Frees a slot and moves its generation on.
pub fn free_object_slot_locked(t: &mut KernelObjectTable, object_index: usize)
    requires
        object_index < MAX_KERNEL_OBJECTS,
        old(t).slots@[object_index as int].occupied,
    ensures
        final(t).slots@ == old(t).slots@.update(
            object_index as int,
            freed_slot(old(t).slots@[object_index as int]),
        ),
        final(t).next_object_id == old(t).next_object_id,
{
    let generation: u16 = bump_generation(t.slots[object_index].generation);
    t.slots[object_index].generation = generation;
    t.slots[object_index].occupied = false;
    t.slots[object_index].obj_type = KernelObjectType::Free;
    t.slots[object_index].header = KernelObjectHeader::empty();
    assert(t.slots@ =~= old(t).slots@.update(
        object_index as int,
        freed_slot(old(t).slots@[object_index as int]),
    ));
}

} // verus!
