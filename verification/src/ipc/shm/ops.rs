//! Operations on shared memory. Frames come from the caller and go back through the list of
//! effects; page tables are changed by the caller, page by page, as a plan says.
use crate::cap::exit::{mapping_pages, mapping_removed, remove_mapping};
use crate::cap::node::Slot;
use crate::cap::ops::{
    handle_check, is_first_free, names_slot, process_slot_of, resolve_current_process_slot,
    root_installed, table_full,
};
use crate::cap::tree::closed;
use crate::cap::types::cap_rights;
use crate::ipc::handle::{
    allocate_handle_entry_locked, close_fault, close_handle_locked, handle_slot,
    validate_handle_locked, Handle,
};
use crate::ipc::object::{
    first_free, freed_slot, KernelObjectHeader, KernelObjectType, MAX_KERNEL_OBJECTS,
};
use crate::ipc::shm::{
    blank_shm, ShmMapping, ShmObject, ShmView, MAX_SHM_MAPPINGS, MAX_SHM_OBJECTS, MAX_SHM_PAGES,
};
use crate::ipc::space::{
    check_and_reclaim_shm_locked, handle_added, object_added, pool_entry_unused, with_header,
    Effects, EffectsView, ObjectSpace, ObjectsView, World,
};
use crate::ipc::types::{rights, IpcError};
use crate::kernel::{
    lemma_mapping_changed, lemma_new_object_keeps_refs, lemma_pins_kept, lemma_room_for_mapping,
    lemma_shrunk_keeps_refs, mapping_ok, slots_shrunk, KernelState,
};
use crate::mm::{user_flags, MapOutcome, PageFlags};
use vstd::prelude::*;

verus! {

/// The rights of the creator of a shared memory object.
pub const SHM_DEFAULT_RIGHTS: u16 = rights::READ | rights::WRITE | rights::MAP_RO | rights::MAP_RW
    | rights::TRANSFER | rights::DUPLICATE | cap_rights::SHM_MAP_READ | cap_rights::SHM_MAP_WRITE
    | cap_rights::SHM_UNMAP | cap_rights::DUPLICATE | cap_rights::TRANSFER | cap_rights::REVOKE
    | cap_rights::CLOSE | cap_rights::INSPECT | cap_rights::AUDIT;

/// A shared memory object that may be given to a new kernel object.
pub open spec fn shm_is_unused(o: ObjectsView, s: int) -> bool {
    &&& o.shm[s].page_count == 0
    &&& pool_entry_unused(o, KernelObjectType::ShmObject, s)
}

/// The first unused shared memory object at or after `from`, or the number of them.
pub open spec fn first_free_shm(o: ObjectsView, from: int) -> int
    decreases MAX_SHM_OBJECTS - from,
{
    if from >= MAX_SHM_OBJECTS {
        MAX_SHM_OBJECTS as int
    } else if shm_is_unused(o, from) {
        from
    } else {
        first_free_shm(o, from + 1)
    }
}

/// The shared memory object that holds the frames given.
pub open spec fn fresh_shm(frames: Seq<u64>, pid: u64) -> ShmView {
    ShmView {
        page_count: frames.len() as int,
        frames: Seq::new(16, |i: int| if i < frames.len() { frames[i] } else { 0u64 }),
        creator_pid: pid,
    }
}

/// The objects after shared memory object `s` was given to a new object in slot `i`.
pub open spec fn shm_added(o: ObjectsView, i: int, s: int, frames: Seq<u64>, pid: u64) -> ObjectsView {
    let n = object_added(o, i, KernelObjectType::ShmObject, s as u16, pid);
    ObjectsView { shm: n.shm.update(s, fresh_shm(frames, pid)), ..n }
}

/// How many frames a request for shared memory needs, or why it is refused outright.
pub open spec fn frames_needed(k: &KernelState, pid: u64, page_count: usize) -> Result<
    usize,
    IpcError,
> {
    if page_count == 0 || page_count > MAX_SHM_PAGES {
        Err(IpcError::BadMessageSize)
    } else if process_slot_of(k, pid) is Err {
        Err(IpcError::InvalidProcess)
    } else {
        Ok(page_count)
    }
}

/// Why no shared memory object can be created from `granted` frames; `None` when one can.
pub open spec fn shm_create_fault(
    k: &KernelState,
    pid: u64,
    page_count: usize,
    granted: int,
) -> Option<IpcError> {
    match frames_needed(k, pid, page_count) {
        Err(e) => Some(e),
        Ok(_) => if granted < page_count {
            Some(IpcError::PmmExhausted)
        } else if first_free_shm(k.objs@, 0) >= MAX_SHM_OBJECTS {
            Some(IpcError::ShmTableFull)
        } else if k.objs@.next_object_id == u64::MAX {
            Some(IpcError::ObjectIdExhausted)
        } else if first_free(k.objs@.slots, 0) >= MAX_KERNEL_OBJECTS {
            Some(IpcError::ObjectTableFull)
        } else if table_full(&k.caps, process_slot_of(k, pid)->Ok_0) {
            Some(IpcError::HandleTableFull)
        } else if k.caps.next_capability_id == u64::MAX {
            Some(IpcError::CapabilityIdExhausted)
        } else {
            None
        },
    }
}

/// What a failed creation leaves of the objects: at most a number and a generation are used up.
pub open spec fn objects_after_shm_failure(o: ObjectsView, f: IpcError) -> ObjectsView {
    let i = first_free(o.slots, 0);
    if f == IpcError::ObjectTableFull {
        ObjectsView { next_object_id: (o.next_object_id + 1) as u64, ..o }
    } else if f == IpcError::HandleTableFull || f == IpcError::CapabilityIdExhausted {
        ObjectsView {
            slots: o.slots.update(
                i,
                freed_slot(
                    crate::ipc::object::filled_slot(
                        o.slots[i],
                        KernelObjectType::ShmObject,
                        first_free_shm(o, 0) as u16,
                        o.next_object_id,
                        0,
                    ),
                ),
            ),
            next_object_id: (o.next_object_id + 1) as u64,
            shm: o.shm.update(first_free_shm(o, 0), blank_shm()),
            ..o
        }
    } else {
        o
    }
}

/// Says how many zeroed frames `shm_create` needs, if it can succeed at all.
pub fn shm_frames_needed(k: &KernelState, current_pid: u64, page_count: usize) -> (r: Result<
    usize,
    IpcError,
>)
    ensures
        r == frames_needed(k, current_pid, page_count),
{
    if page_count == 0 || page_count > MAX_SHM_PAGES {
        return Err(IpcError::BadMessageSize);
    }
    match resolve_current_process_slot(k, current_pid) {
        Err(e) => Err(e),
        Ok(_) => Ok(page_count),
    }
}

/// Finds a shared memory object that is not in use.
fn find_free_shm(o: &ObjectSpace) -> (r: Option<usize>)
    requires
        o.wf(),
    ensures
        match r {
            None => first_free_shm(o@, 0) >= MAX_SHM_OBJECTS,
            Some(s) => s < MAX_SHM_OBJECTS && first_free_shm(o@, 0) == s && shm_is_unused(
                o@,
                s as int,
            ),
        },
{
    let mut s: usize = 0;
    while s < MAX_SHM_OBJECTS
        invariant
            s <= MAX_SHM_OBJECTS,
            o.wf(),
            first_free_shm(o@, 0) == first_free_shm(o@, s as int),
        decreases MAX_SHM_OBJECTS - s,
    {
        assert(o@.shm[s as int] == o.shm@[s as int]@);
        if o.shm[s].page_count == 0 {
            let mut in_use = false;
            let mut i: usize = 0;
            while i < MAX_KERNEL_OBJECTS && !in_use
                invariant
                    i <= MAX_KERNEL_OBJECTS,
                    o.wf(),
                    !in_use ==> forall|j: int|
                        j < i ==> !(#[trigger] o@.holds(j, KernelObjectType::ShmObject)
                            && o@.slots[j].pool_index == s),
                    in_use ==> exists|j: int|
                        #[trigger] o@.holds(j, KernelObjectType::ShmObject)
                            && o@.slots[j].pool_index == s,
                decreases MAX_KERNEL_OBJECTS - i,
            {
                let slot = o.objects.slots[i];
                assert(slot == o@.slots[i as int]);
                if slot.occupied && slot.obj_type == KernelObjectType::ShmObject
                    && slot.pool_index as usize == s {
                    assert(o@.holds(i as int, KernelObjectType::ShmObject));
                    in_use = true;
                }
                i = i + 1;
            }
            if !in_use {
                assert(shm_is_unused(o@, s as int));
                return Some(s);
            }
            assert(!shm_is_unused(o@, s as int));
        }
        s = s + 1;
    }
    None
}

/// Gives frames back.
fn give_back(frames: &[u64], fx: &mut Effects)
    ensures
        final(fx)@ == old(fx)@.freeing(frames@),
{
    let mut i: usize = 0;
    assert(fx@ =~= old(fx)@.freeing(frames@.take(0)));
    while i < frames.len()
        invariant
            i <= frames@.len(),
            fx@ == old(fx)@.freeing(frames@.take(i as int)),
        decreases frames@.len() - i,
    {
        fx.freed_frames.push(frames[i]);
        assert(frames@.take(i + 1) =~= frames@.take(i as int).push(frames@[i as int]));
        assert(fx@ =~= old(fx)@.freeing(frames@.take(i + 1)));
        i = i + 1;
    }
    assert(frames@.take(i as int) =~= frames@);
}

/// The shared memory object that holds the frames given.
fn shm_from(frames: &[u64], pid: u64) -> (r: ShmObject)
    requires
        frames@.len() <= MAX_SHM_PAGES,
    ensures
        r@ == fresh_shm(frames@, pid),
{
    let mut all: [u64; MAX_SHM_PAGES] = [0u64; MAX_SHM_PAGES];
    let mut i: usize = 0;
    while i < frames.len()
        invariant
            i <= frames@.len() <= MAX_SHM_PAGES,
            forall|j: int| 0 <= j < 16 ==> all@[j] == (if j < i { frames@[j] } else { 0u64 }),
        decreases frames@.len() - i,
    {
        all[i] = frames[i];
        i = i + 1;
    }
    let r = ShmObject { page_count: frames.len(), frames: all, creator_pid: pid };
    assert(r@ =~= fresh_shm(frames@, pid));
    r
}

/// The outcome of creating a shared memory object from the frames in `granted`.
pub open spec fn shm_creating(
    old_k: &KernelState,
    new_k: &KernelState,
    old_fx: EffectsView,
    new_fx: EffectsView,
    pid: u64,
    page_count: usize,
    granted: Seq<u64>,
    r: Result<Handle, IpcError>,
) -> bool {
    match shm_create_fault(old_k, pid, page_count, granted.len() as int) {
        Some(e) => {
            &&& r == Err::<Handle, IpcError>(e)
            &&& new_k.caps == old_k.caps
            &&& new_k.objs@ == objects_after_shm_failure(old_k.objs@, e)
            &&& new_fx == old_fx.freeing(granted)
        },
        None => {
            let p = process_slot_of(old_k, pid)->Ok_0;
            let o = old_k.objs@;
            let i = first_free(o.slots, 0);
            let s = Slot { p, h: handle_slot(r->Ok_0) };
            &&& r is Ok
            &&& is_first_free(&old_k.caps, p, s.h)
            &&& names_slot(r->Ok_0, &new_k.caps, s)
            &&& root_installed(
                &old_k.caps,
                &new_k.caps,
                s,
                i as u16,
                o.slots[i].generation,
                SHM_DEFAULT_RIGHTS,
                0,
            )
            &&& new_k.objs@ == handle_added(
                shm_added(o, i, first_free_shm(o, 0), granted, pid),
                i,
                0,
            )
            &&& new_fx == old_fx
        },
    }
}

/// Creates a shared memory object from frames that the caller took, at most as many as were asked
/// for. If that fails, all of them go back.
pub fn shm_create(
    k: &mut KernelState,
    fx: &mut Effects,
    current_pid: u64,
    page_count: usize,
    granted: &[u64],
) -> (r: Result<Handle, IpcError>)
    requires
        old(k).wf(),
        granted@.len() <= page_count,
    ensures
        final(k).wf(),
        final(k).same_rest(old(k)),
        shm_creating(
            old(k),
            final(k),
            old(fx)@,
            final(fx)@,
            current_pid,
            page_count,
            granted@,
            r,
        ),
{
    let ghost o = k.objs@;
    if let Err(e) = shm_frames_needed(k, current_pid, page_count) {
        give_back(granted, fx);
        return Err(e);
    }
    if granted.len() < page_count {
        give_back(granted, fx);
        return Err(IpcError::PmmExhausted);
    }
    let p: usize = match resolve_current_process_slot(k, current_pid) {
        Err(e) => {
            give_back(granted, fx);
            return Err(e);
        },
        Ok(p) => p,
    };
    let s_idx: usize = match find_free_shm(&k.objs) {
        None => {
            give_back(granted, fx);
            return Err(IpcError::ShmTableFull);
        },
        Some(s) => s,
    };
    let obj_idx: usize = match k.objs.add_object(
        KernelObjectType::ShmObject,
        s_idx as u16,
        current_pid,
    ) {
        Err(e) => {
            give_back(granted, fx);
            proof {
                assert(slots_shrunk(o, k.objs@));
                lemma_shrunk_keeps_refs(&k.caps, o, k.objs@);
                lemma_pins_kept(k.threads@, k.mappings@, o, k.objs@);
            }
            return Err(e);
        },
        Ok(i) => i,
    };
    let ghost i = obj_idx as int;
    k.objs.set_shm(s_idx, shm_from(granted, current_pid));
    let ghost made = k.objs@;
    proof {
        assert(made =~= shm_added(o, i, s_idx as int, granted@, current_pid));
        lemma_new_object_keeps_refs(&k.caps, o, made, i);
        assert(o.slot_ok(i));
        lemma_pins_kept(k.threads@, k.mappings@, o, made);
    }
    match allocate_handle_entry_locked(k, p, obj_idx, SHM_DEFAULT_RIGHTS, 0) {
        Err(e) => {
            k.objs.free_slot(obj_idx);
            k.objs.set_shm(s_idx, ShmObject::empty());
            give_back(granted, fx);
            proof {
                assert(slots_shrunk(made, k.objs@));
                lemma_shrunk_keeps_refs(&k.caps, made, k.objs@);
                lemma_pins_kept(k.threads@, k.mappings@, made, k.objs@);
                assert(k.objs@ =~= objects_after_shm_failure(o, e));
            }
            Err(e)
        },
        Ok(h) => Ok(h),
    }
}

/// A mapping that is about to be made: the pages are to be mapped in order.
#[derive(Debug, Clone, Copy)]
pub struct ShmMapPlan {
    pub object_index: usize,
    pub mapping_index: usize,
    pub process_id: u64,
    pub virtual_base: u64,
    pub writable: bool,
    pub page_count: usize,
    pub frames: [u64; MAX_SHM_PAGES],
}

/// One page to map.
#[derive(Debug, Clone, Copy, PartialEq, Eq, Structural)]
pub struct MapRequest {
    pub page: u64,
    pub frame: u64,
    pub flags: PageFlags,
}

/// Any of these rights allows a mapping.
pub open spec fn rights_to_map(writable: bool) -> u16 {
    if writable {
        rights::MAP_RW | cap_rights::SHM_MAP_WRITE
    } else {
        rights::MAP_RO | cap_rights::SHM_MAP_READ
    }
}

/// The first free mapping at or after `from`, or the number of mappings.
pub open spec fn first_free_mapping(ms: Seq<ShmMapping>, from: int) -> int
    decreases ms.len() - from,
{
    if from >= ms.len() {
        ms.len() as int
    } else if !ms[from].occupied {
        from
    } else {
        first_free_mapping(ms, from + 1)
    }
}

/// Why a mapping cannot be begun, or the index of the object.
pub open spec fn map_check(k: &KernelState, pid: u64, h: Handle, vaddr: u64, writable: bool) -> Result<
    int,
    IpcError,
> {
    if vaddr % 4096 != 0 || vaddr >= 0x0000_8000_0000_0000 {
        Err(IpcError::InvalidAddress)
    } else {
        match process_slot_of(k, pid) {
            Err(e) => Err(e),
            Ok(p) => match handle_check(k, p, h, 0) {
                Err(e) => Err(e),
                Ok(v) => if v.2 & rights_to_map(writable) == 0 {
                    Err(IpcError::PermissionDenied)
                } else if first_free_mapping(k.mappings@, 0) >= MAX_SHM_MAPPINGS {
                    Err(IpcError::MappingTableFull)
                } else {
                    Ok(v.0)
                },
            },
        }
    }
}

/// A handle that may be used for a mapping stands for shared memory.
pub open spec fn shm_expected(k: &KernelState, pid: u64, h: Handle, writable: bool) -> bool {
    match process_slot_of(k, pid) {
        Err(_) => true,
        Ok(p) => match handle_check(k, p, h, 0) {
            Err(_) => true,
            Ok(v) => v.2 & rights_to_map(writable) == 0 || k.objs@.slots[v.0].obj_type
                == KernelObjectType::ShmObject,
        },
    }
}

impl ShmMapPlan {
    /// The plan is about a shared memory object of the kernel and a free mapping.
    pub open spec fn fits(&self, k: &KernelState) -> bool {
        &&& k.objs@.holds(self.object_index as int, KernelObjectType::ShmObject)
        &&& self.mapping_index < MAX_SHM_MAPPINGS
        &&& self.virtual_base % 4096 == 0
        &&& self.virtual_base < 0x0000_8000_0000_0000
        &&& self.page_count <= MAX_SHM_PAGES
    }

    /// The mapping that the plan is for.
    pub open spec fn mapping(&self, k: &KernelState) -> ShmMapping {
        ShmMapping {
            occupied: true,
            _pad1: 0,
            object_index: self.object_index as u16,
            object_generation: k.objs@.slots[self.object_index as int].generation,
            rights: rights_to_map(self.writable),
            process_id: self.process_id,
            virtual_base: self.virtual_base,
            page_count: self.page_count,
        }
    }

    /// Page number `i` of the plan. Shared memory is never executable.
    pub fn page(&self, i: usize) -> (r: MapRequest)
        requires
            i < self.page_count <= MAX_SHM_PAGES,
            self.virtual_base < 0x0000_8000_0000_0000,
        ensures
            r.page == self.virtual_base + i * 4096,
            r.frame == self.frames@[i as int],
            r.flags == user_flags(self.writable, true),
    {
        MapRequest {
            page: self.virtual_base + (i as u64) * 4096,
            frame: self.frames[i],
            flags: PageFlags::user_memory(self.writable, true),
        }
    }
}

/// The outcome of beginning a mapping.
pub open spec fn planning(
    k: &KernelState,
    pid: u64,
    handle: Handle,
    vaddr: u64,
    writable: bool,
    r: Result<ShmMapPlan, IpcError>,
) -> bool {
    match map_check(k, pid, handle, vaddr, writable) {
        Err(e) => r == Err::<ShmMapPlan, IpcError>(e),
        Ok(i) => {
            &&& r is Ok
            &&& r->Ok_0.fits(k)
            &&& r->Ok_0.object_index == i
            &&& r->Ok_0.mapping_index == first_free_mapping(k.mappings@, 0)
            &&& r->Ok_0.process_id == pid
            &&& r->Ok_0.virtual_base == vaddr
            &&& r->Ok_0.writable == writable
            &&& r->Ok_0.page_count == k.objs@.shm_of(i).page_count
            &&& r->Ok_0.frames@ == k.objs@.shm_of(i).frames
        },
    }
}

/// Begins to map a shared memory object into the address space of the calling process.
pub fn shm_map(
    k: &KernelState,
    current_pid: u64,
    handle: Handle,
    vaddr: u64,
    writable: bool,
) -> (r: Result<ShmMapPlan, IpcError>)
    requires
        k.wf(),
        shm_expected(k, current_pid, handle, writable),
    ensures
        planning(k, current_pid, handle, vaddr, writable, r),
{
    if vaddr % 4096 != 0 || vaddr >= 0x0000_8000_0000_0000 {
        return Err(IpcError::InvalidAddress);
    }
    let p: usize = match resolve_current_process_slot(k, current_pid) {
        Err(e) => {
            return Err(e);
        },
        Ok(p) => p,
    };
    let (obj_idx, _, granted) = match validate_handle_locked(k, p, handle, 0) {
        Err(e) => {
            return Err(e);
        },
        Ok(v) => v,
    };
    let needed: u16 = if writable {
        rights::MAP_RW | cap_rights::SHM_MAP_WRITE
    } else {
        rights::MAP_RO | cap_rights::SHM_MAP_READ
    };
    if granted & needed == 0 {
        return Err(IpcError::PermissionDenied);
    }
    let ghost i = obj_idx as int;
    assert(k.objs@.slot_ok(i));
    let s_idx: usize = k.objs.objects.slots[obj_idx].pool_index as usize;
    assert(s_idx == k.objs@.slots[i].pool_index);
    let shm = k.objs.shm[s_idx];
    assert(shm@ == k.objs@.shm[s_idx as int]);
    let mut m: usize = 0;
    while m < MAX_SHM_MAPPINGS
        invariant
            m <= MAX_SHM_MAPPINGS,
            first_free_mapping(k.mappings@, 0) == first_free_mapping(k.mappings@, m as int),
            k.wf(),
            obj_idx == i,
            map_check(k, current_pid, handle, vaddr, writable) == (if first_free_mapping(
                k.mappings@,
                0,
            ) >= MAX_SHM_MAPPINGS {
                Err::<int, IpcError>(IpcError::MappingTableFull)
            } else {
                Ok::<int, IpcError>(i)
            }),
            k.objs@.holds(i, KernelObjectType::ShmObject),
            shm@ == k.objs@.shm_of(i),
            shm.page_count <= MAX_SHM_PAGES,
            vaddr % 4096 == 0,
            vaddr < 0x0000_8000_0000_0000,
        decreases MAX_SHM_MAPPINGS - m,
    {
        if !k.mappings[m].occupied {
            return Ok(
                ShmMapPlan {
                    object_index: obj_idx,
                    mapping_index: m,
                    process_id: current_pid,
                    virtual_base: vaddr,
                    writable,
                    page_count: shm.page_count,
                    frames: shm.frames,
                },
            );
        }
        m = m + 1;
    }
    Err(IpcError::MappingTableFull)
}

/// One mapping of an object more.
pub open spec fn mapping_added(o: ObjectsView, i: int) -> ObjectsView {
    let h = o.slots[i].header;
    o.with_slot(
        i,
        with_header(
            o.slots[i],
            KernelObjectHeader { mapping_refs: (h.mapping_refs + 1) as u16, ..h },
        ),
    )
}

/// Ends what `shm_map` began: records the mapping, or lists the pages that are to be unmapped
/// again. A page with an unsuitable address ends the operation as it stands.
pub fn finish_shm_map(
    k: &mut KernelState,
    fx: &mut Effects,
    plan: &ShmMapPlan,
    outcome: MapOutcome,
) -> (r: Result<(), IpcError>)
    requires
        old(k).wf(),
        plan.fits(old(k)),
        !old(k).mappings@[plan.mapping_index as int].occupied,
        match outcome {
            MapOutcome::Mapped => true,
            MapOutcome::BadPage(i) | MapOutcome::Failed(i) => i < plan.page_count,
        },
    ensures
        final(k).wf(),
        final(k).caps == old(k).caps,
        final(k).threads == old(k).threads,
        final(k).processes == old(k).processes,
        match outcome {
            MapOutcome::Mapped => {
                &&& r is Ok
                &&& final(k).mappings@ == old(k).mappings@.update(
                    plan.mapping_index as int,
                    plan.mapping(old(k)),
                )
                &&& final(k).objs@ == mapping_added(old(k).objs@, plan.object_index as int)
                &&& final(fx)@ == old(fx)@
            },
            MapOutcome::BadPage(_) => {
                &&& r == Err::<(), IpcError>(IpcError::InvalidAddress)
                &&& *final(k) == *old(k)
                &&& final(fx)@ == old(fx)@
            },
            MapOutcome::Failed(i) => {
                &&& r == Err::<(), IpcError>(IpcError::VmmError)
                &&& *final(k) == *old(k)
                &&& final(fx)@ == old(fx)@.unmapping(mapping_pages(plan.mapping(old(k)), i as int))
            },
        },
{
    match outcome {
        MapOutcome::BadPage(_) => Err(IpcError::InvalidAddress),
        MapOutcome::Failed(i) => {
            let ghost m = plan.mapping(k);
            let mut j: usize = 0;
            assert(fx@ =~= old(fx)@.unmapping(mapping_pages(m, 0)));
            while j < i
                invariant
                    j <= i < plan.page_count <= MAX_SHM_PAGES,
                    plan.virtual_base < 0x0000_8000_0000_0000,
                    m.virtual_base == plan.virtual_base,
                    fx@ == old(fx)@.unmapping(mapping_pages(m, j as int)),
                decreases i - j,
            {
                fx.unmapped_pages.push(plan.virtual_base + (j as u64) * 4096);
                assert(mapping_pages(m, j + 1) =~= mapping_pages(m, j as int).push(
                    (m.virtual_base + j * 4096) as u64,
                ));
                assert(fx@ =~= old(fx)@.unmapping(mapping_pages(m, j + 1)));
                j = j + 1;
            }
            Err(IpcError::VmmError)
        },
        MapOutcome::Mapped => {
            let ghost o = k.objs@;
            let slot = k.objs.objects.slots[plan.object_index];
            assert(slot == o.slots[plan.object_index as int]);
            let needed: u16 = if plan.writable {
                rights::MAP_RW | cap_rights::SHM_MAP_WRITE
            } else {
                rights::MAP_RO | cap_rights::SHM_MAP_READ
            };
            k.mappings[plan.mapping_index] = ShmMapping {
                occupied: true,
                _pad1: 0,
                object_index: plan.object_index as u16,
                object_generation: slot.generation,
                rights: needed,
                process_id: plan.process_id,
                virtual_base: plan.virtual_base,
                page_count: plan.page_count,
            };
            let mut header = slot.header;
            proof {
                lemma_room_for_mapping(
                    old(k).threads@,
                    old(k).mappings@,
                    o,
                    plan.object_index as int,
                );
            }
            header.mapping_refs = header.mapping_refs + 1;
            k.objs.set_header(plan.object_index, header);
            proof {
                lemma_mapping_changed(
                    old(k).threads@,
                    old(k).mappings@,
                    o,
                    k.objs@,
                    plan.mapping_index as int,
                    k.mappings@[plan.mapping_index as int],
                );
                assert(k.mappings@ =~= old(k).mappings@.update(
                    plan.mapping_index as int,
                    k.mappings@[plan.mapping_index as int],
                ));
                assert(slots_shrunk(o, k.objs@));
                lemma_shrunk_keeps_refs(&k.caps, o, k.objs@);
                assert forall|j: int| 0 <= j < MAX_SHM_MAPPINGS implies mapping_ok(
                    #[trigger] k.mappings@[j],
                ) by {
                    assert(mapping_ok(old(k).mappings@[j]));
                }
            }
            Ok(())
        },
    }
}

/// The first mapping of a process at an address at or after `from`, or the number of mappings.
pub open spec fn mapping_at(ms: Seq<ShmMapping>, pid: u64, vaddr: u64, from: int) -> int
    decreases ms.len() - from,
{
    if from >= ms.len() {
        ms.len() as int
    } else if ms[from].occupied && ms[from].process_id == pid && ms[from].virtual_base == vaddr {
        from
    } else {
        mapping_at(ms, pid, vaddr, from + 1)
    }
}

/// Why an address cannot be unmapped; `None` when it can. A handle that is valid must stand for
/// the object that is mapped there; one that is not valid does not matter.
pub open spec fn unmap_fault(k: &KernelState, pid: u64, h: Handle, vaddr: u64) -> Option<IpcError> {
    match process_slot_of(k, pid) {
        Err(e) => Some(e),
        Ok(p) => {
            let j = mapping_at(k.mappings@, pid, vaddr, 0);
            let m = k.mappings@[j];
            let s = k.objs@.slots[m.object_index as int];
            if j >= MAX_SHM_MAPPINGS {
                Some(IpcError::InvalidAddress)
            } else if !s.occupied || s.generation != m.object_generation {
                Some(IpcError::InvalidHandle)
            } else if handle_check(k, p, h, 0) is Ok && handle_check(k, p, h, 0)->Ok_0.0
                != m.object_index {
                Some(IpcError::PermissionDenied)
            } else {
                None
            }
        },
    }
}

/// The outcome of taking a mapping out of the address space of a process.
pub open spec fn unmapping(
    old_k: &KernelState,
    new_k: &KernelState,
    old_fx: &Effects,
    new_fx: &Effects,
    pid: u64,
    handle: Handle,
    vaddr: u64,
    r: Result<(), IpcError>,
) -> bool {
    match unmap_fault(old_k, pid, handle, vaddr) {
        Some(e) => r == Err::<(), IpcError>(e) && *new_k == *old_k && *new_fx == *old_fx,
        None => {
            let j = mapping_at(old_k.mappings@, pid, vaddr, 0);
            let m = old_k.mappings@[j];
            &&& r is Ok
            &&& new_k.mappings@ == old_k.mappings@.update(
                j,
                ShmMapping { occupied: false, ..m },
            )
            &&& new_k.world(new_fx) == mapping_removed(old_k.world(old_fx), m)
        },
    }
}

/// Takes a mapping out of the address space of the calling process. The object goes with the
/// last reference to it.
pub fn shm_unmap(
    k: &mut KernelState,
    fx: &mut Effects,
    current_pid: u64,
    handle: Handle,
    vaddr: u64,
) -> (r: Result<(), IpcError>)
    requires
        old(k).wf(),
    ensures
        final(k).wf(),
        final(k).caps == old(k).caps,
        final(k).threads == old(k).threads,
        final(k).processes == old(k).processes,
        unmapping(old(k), final(k), old(fx), final(fx), current_pid, handle, vaddr, r),
{
    let p: usize = match resolve_current_process_slot(k, current_pid) {
        Err(e) => {
            return Err(e);
        },
        Ok(p) => p,
    };
    let mut j: usize = 0;
    while j < MAX_SHM_MAPPINGS && !(k.mappings[j].occupied && k.mappings[j].process_id
        == current_pid && k.mappings[j].virtual_base == vaddr)
        invariant
            j <= MAX_SHM_MAPPINGS,
            *k == *old(k),
            mapping_at(k.mappings@, current_pid, vaddr, 0) == mapping_at(
                k.mappings@,
                current_pid,
                vaddr,
                j as int,
            ),
        decreases MAX_SHM_MAPPINGS - j,
    {
        j = j + 1;
    }
    if j >= MAX_SHM_MAPPINGS {
        return Err(IpcError::InvalidAddress);
    }
    let m = k.mappings[j];
    assert(mapping_ok(k.mappings@[j as int]));
    let obj_idx: usize = m.object_index as usize;
    let slot = k.objs.objects.slots[obj_idx];
    assert(slot == k.objs@.slots[obj_idx as int]);
    if !slot.occupied || slot.generation != m.object_generation {
        return Err(IpcError::InvalidHandle);
    }
    if let Ok(v) = validate_handle_locked(k, p, handle, 0) {
        if v.0 != obj_idx {
            return Err(IpcError::PermissionDenied);
        }
    }
    remove_mapping(k, j, fx);
    Ok(())
}

/// Closes a handle to shared memory. The object goes with the last reference to it, and its
/// frames go back.
pub fn shm_close(k: &mut KernelState, fx: &mut Effects, current_pid: u64, handle: Handle) -> (r:
    Result<(), IpcError>)
    requires
        old(k).wf(),
    ensures
        final(k).wf(),
        match process_slot_of(old(k), current_pid) {
            Err(e) => r == Err::<(), IpcError>(e) && *final(k) == *old(k) && *final(fx) == *old(fx),
            Ok(p) => match close_fault(old(k), p, handle) {
                Some(e) => r == Err::<(), IpcError>(e) && *final(k) == *old(k) && *final(fx) == *old(
                    fx,
                ),
                None => {
                    let s = Slot { p, h: handle_slot(handle) };
                    let e = old(k).caps.entry(s);
                    let i = e.object_index as int;
                    let w = old(k).world(old(fx));
                    &&& r is Ok
                    &&& final(k).same_rest(old(k))
                    &&& closed(&old(k).caps, &final(k).caps, s)
                    &&& final(k).world(final(fx)) == (World {
                        objs: w.objs.handle_gone(i, e.endpoint),
                        ..w
                    }).reclaim_shm(i)
                },
            },
        },
{
    let p: usize = match resolve_current_process_slot(k, current_pid) {
        Err(e) => {
            return Err(e);
        },
        Ok(p) => p,
    };
    let (obj_idx, _) = match close_handle_locked(k, p, handle) {
        Err(e) => {
            return Err(e);
        },
        Ok(v) => v,
    };
    let ghost o = k.objs@;
    check_and_reclaim_shm_locked(&mut k.objs, obj_idx, fx);
    proof {
        assert(slots_shrunk(o, k.objs@));
        lemma_shrunk_keeps_refs(&k.caps, o, k.objs@);
        lemma_pins_kept(k.threads@, k.mappings@, o, k.objs@);
    }
    Ok(())
}

} // verus!
