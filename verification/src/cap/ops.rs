//! Operations on capabilities: creation, derivation, revocation and release.
use crate::cap::laws::{
    attenuated, law_closing_keeps_attenuation, law_derivation_keeps_attenuation,
    law_moving_keeps_attenuation, law_revocation_keeps_attenuation, law_root_keeps_attenuation,
};
use crate::cap::node::{
    allocate_capability_id, core_of, is_slot, no_slot, slot_at, CapabilitySpace, Slot,
};
use crate::cap::revoke::{descendants, lemma_collected, slot_number, slots_of, withdrawn};
use crate::cap::tree::{
    closed, freed_entry, fresh_core, installed_entry, moved, same_caps_but,
};
use crate::cap::types::cap_rights;
use crate::cap::types::{
    MAX_CAPABILITY_NODES, MAX_DERIVATION_DEPTH, MAX_HANDLES_PER_PROCESS, MAX_PROCESSES,
};
use crate::ipc::handle::{handle_gen, handle_slot, Handle, HandleEntry};
use crate::ipc::object::{KernelObjectType, MAX_KERNEL_OBJECTS};
use crate::ipc::space::{handle_added, Effects, ObjectsView, World};
use crate::ipc::types::{rights, IpcError};
use crate::kernel::{
    all_entries, ends_counted, ends_to, entries_ok, entry_target_ok, lemma_entries_update,
    lemma_freed_keeps_entries, lemma_pins_kept, lemma_refs_as_list, lemma_refs_bounds,
    lemma_refs_update, lemma_refs_update_two, lemma_shrunk_keeps_entries, lemma_slot_number,
    pins_kept, pins_ok, refs_ok, refs_to, slot_pins_kept, slot_shrunk, slots_shrunk, target_ok,
    KernelState,
};
use vstd::prelude::*;

verus! {

/// Finds a free slot in the table of a process. Nothing is marked.
pub fn allocate_handle_slot_locked(k: &KernelState, process_slot: usize) -> (r: Result<
    usize,
    IpcError,
>)
    requires
        process_slot < MAX_PROCESSES,
    ensures
        match r {
            Ok(h) => is_first_free(&k.caps, process_slot as int, h as int),
            Err(e) => e == IpcError::HandleTableFull && table_full(&k.caps, process_slot as int),
        },
{
    let mut h: usize = 0;
    while h < MAX_HANDLES_PER_PROCESS
        invariant
            process_slot < MAX_PROCESSES,
            h <= MAX_HANDLES_PER_PROCESS,
            forall|g: int|
                0 <= g < h ==> #[trigger] k.caps.tables@[process_slot as int].entries@[g].occupied,
        decreases MAX_HANDLES_PER_PROCESS - h,
    {
        if !k.caps.tables[process_slot].entries[h].occupied {
            return Ok(h);
        }
        h = h + 1;
    }
    Err(IpcError::HandleTableFull)
}

/// Every entry of the table of a process is in use.
pub open spec fn table_full(c: &CapabilitySpace, p: int) -> bool {
    forall|g: int| 0 <= g < MAX_HANDLES_PER_PROCESS ==> #[trigger] c.tables@[p].entries@[g].occupied
}

/// The first free slot in the table of a process.
pub open spec fn is_first_free(c: &CapabilitySpace, p: int, h: int) -> bool {
    &&& 0 <= h < MAX_HANDLES_PER_PROCESS
    &&& !c.tables@[p].entries@[h].occupied
    &&& forall|g: int| 0 <= g < h ==> #[trigger] c.tables@[p].entries@[g].occupied
}

/// A root capability appeared at `s`.
pub open spec fn root_installed(
    old_space: &CapabilitySpace,
    new: &CapabilitySpace,
    s: Slot,
    object_index: u16,
    object_generation: u16,
    rights: u16,
    endpoint: u8,
) -> bool {
    &&& same_caps_but(new, old_space, s)
    &&& new.next_capability_id == old_space.next_capability_id + 1
    &&& new.children == old_space.children
    &&& new.entry(s) == installed_entry(
        old_space.entry(s),
        object_index,
        object_generation,
        rights,
        endpoint,
    )
    &&& new.node_core(s) == fresh_core(
        old_space.node(s),
        old_space.next_capability_id,
        no_slot(),
        0,
        0,
        0,
    )
}

/// A capability with some of the rights of the one at `par` appeared at `s`, below it.
pub open spec fn child_installed(
    old_space: &CapabilitySpace,
    new: &CapabilitySpace,
    s: Slot,
    par: Slot,
    rights: u16,
) -> bool {
    let pe = old_space.entry(par);
    &&& same_caps_but(new, old_space, s)
    &&& new.next_capability_id == old_space.next_capability_id + 1
    &&& new.children@ == old_space.children@.insert(par, seq![s] + old_space.kids(par))
    &&& new.entry(s) == installed_entry(
        old_space.entry(s),
        pe.object_index,
        pe.object_generation,
        rights,
        pe.endpoint,
    )
    &&& new.node_core(s) == fresh_core(
        old_space.node(s),
        old_space.next_capability_id,
        par,
        pe.handle_generation,
        (old_space.node(par).derivation_depth + 1) as u8,
        0,
    )
}

/// The result names the slot and its generation.
pub open spec fn names_slot(h: Handle, c: &CapabilitySpace, s: Slot) -> bool {
    handle_slot(h) == s.h && handle_gen(h) == c.entry(s).handle_generation
}

/// A new entry for an object in use keeps the counts right.
proof fn lemma_added_keeps_refs(
    before: &CapabilitySpace,
    after: &CapabilitySpace,
    o: ObjectsView,
    s: Slot,
    i: int,
)
    requires
        refs_ok(before, o),
        o.wf(),
        is_slot(s),
        !before.live(s),
        forall|t: Slot| is_slot(t) && t != s ==> (#[trigger] after.entry(t)) == before.entry(t),
        after.live(s),
        after.entry(s).object_index == i,
        0 <= i < MAX_KERNEL_OBJECTS,
        o.slots[i].occupied,
        after.entry(s).object_generation == o.slots[i].generation,
    ensures
        o.slots[i].header.handle_refs < 0xFFFF,
        o.slots[i].obj_type == KernelObjectType::Channel ==> o.channel_of(i).mine(
            after.entry(s).endpoint,
        ).handle_refs < 0xFFFF,
        refs_ok(after, handle_added(o, i, after.entry(s).endpoint)),
{
    let n = handle_added(o, i, after.entry(s).endpoint);
    lemma_refs_bounds(before, i);
    assert forall|t: Slot| #[trigger] after.live(t) implies target_ok(after, n, t) by {
        if t != s {
            assert(before.live(t));
        }
    }
    assert forall|j: int| 0 <= j < MAX_KERNEL_OBJECTS && (#[trigger] n.slots[j]).occupied implies
        n.slots[j].header.handle_refs == refs_to(after, j) by {
        lemma_refs_update(before, after, s, j);
        assert(o.slots[j].occupied);
    }
    assert(ends_to(before, i, true) <= MAX_CAPABILITY_NODES);
    assert(ends_to(before, i, false) <= MAX_CAPABILITY_NODES);
    assert forall|j: int|
        0 <= j < MAX_KERNEL_OBJECTS && (#[trigger] n.slots[j]).occupied && n.slots[j].obj_type
            == KernelObjectType::Channel implies ends_counted(
        n,
        j,
        ends_to(after, j, true),
        ends_to(after, j, false),
    ) by {
        lemma_refs_update(before, after, s, j);
        assert(o.slots[j].occupied);
        assert(o.slot_ok(j) && o.slot_ok(i) && o.apart(j, i));
    }
}

/// Puts a root capability for an object into a free slot.
pub fn install_root_capability_locked(
    k: &mut KernelState,
    process_slot: usize,
    handle_slot_idx: usize,
    object_index: usize,
    rights: u16,
    endpoint: u8,
) -> (r: Result<Handle, IpcError>)
    requires
        old(k).wf(),
        is_slot(slot_at(process_slot, handle_slot_idx)),
        !old(k).caps.live(slot_at(process_slot, handle_slot_idx)),
        object_index < MAX_KERNEL_OBJECTS,
        old(k).objs@.slots[object_index as int].occupied,
    ensures
        final(k).wf(),
        final(k).same_rest(old(k)),
        if old(k).caps.next_capability_id == u64::MAX {
            &&& r == Err::<Handle, IpcError>(IpcError::CapabilityIdExhausted)
            &&& *final(k) == *old(k)
        } else {
            let s = slot_at(process_slot, handle_slot_idx);
            &&& r is Ok
            &&& names_slot(r->Ok_0, &final(k).caps, s)
            &&& root_installed(
                &old(k).caps,
                &final(k).caps,
                s,
                object_index as u16,
                old(k).objs@.slots[object_index as int].generation,
                rights,
                endpoint,
            )
            &&& final(k).objs@ == handle_added(old(k).objs@, object_index as int, endpoint)
        },
{
    let ghost s = slot_at(process_slot, handle_slot_idx);
    let ghost before = k.caps;
    let id: u64 = match allocate_capability_id(&mut k.caps) {
        Err(e) => {
            return Err(e);
        },
        Ok(id) => id,
    };
    let ghost numbered = k.caps;
    proof {
        lemma_number_keeps_wf(&before, &numbered);
    }
    let slot = k.objs.objects.slots[object_index];
    assert(slot == k.objs@.slots[object_index as int]);
    k.caps.attach_root(
        process_slot,
        handle_slot_idx,
        id,
        object_index as u16,
        slot.generation,
        rights,
        endpoint,
    );
    proof {
        lemma_same_entries(&before, &numbered);
        assert forall|t: Slot| is_slot(t) && t != s implies (#[trigger] k.caps.entry(t))
            == before.entry(t) by {
            assert(numbered.entry(t) == before.entry(t));
        }
        assert forall|t: Slot| is_slot(t) && t != s implies core_of(#[trigger] k.caps.node(t))
            == core_of(before.node(t)) by {
            assert(numbered.node(t) == before.node(t));
        }
        assert(numbered.entry(s) == before.entry(s) && numbered.node(s) == before.node(s));
        lemma_added_keeps_refs(&before, &k.caps, k.objs@, s, object_index as int);
        law_root_keeps_attenuation(
            &before,
            &k.caps,
            s,
            object_index as u16,
            slot.generation,
            rights,
            endpoint,
        );
    }
    k.objs.add_handle(object_index, endpoint);
    proof {
        lemma_pins_kept(old(k).threads@, old(k).mappings@, old(k).objs@, k.objs@);
    }
    let gen: u16 = k.caps.tables[process_slot].entries[handle_slot_idx].handle_generation;
    assert(gen == k.caps.entry(s).handle_generation);
    Ok(Handle::new(handle_slot_idx as u16, gen))
}

/// Taking a number changes no entry and no node.
proof fn lemma_same_entries(before: &CapabilitySpace, after: &CapabilitySpace)
    requires
        after.tables == before.tables,
        after.nodes == before.nodes,
    ensures
        forall|t: Slot| (#[trigger] after.entry(t)) == before.entry(t),
        forall|t: Slot| (#[trigger] after.node(t)) == before.node(t),
{
}

/// Taking a number keeps the invariant, and nobody carries the number.
pub(crate) proof fn lemma_number_keeps_wf(before: &CapabilitySpace, after: &CapabilitySpace)
    requires
        before.wf(),
        after.tables == before.tables,
        after.nodes == before.nodes,
        after.children == before.children,
        after.next_capability_id == before.next_capability_id + 1,
    ensures
        after.wf(),
        forall|t: Slot|
            #[trigger] after.live(t) ==> after.node(t).capability_id != before.next_capability_id,
{
    assert forall|s: Slot| is_slot(s) implies after.chain(s, #[trigger] after.kids(s)) by {
        assert(before.chain(s, before.kids(s)));
    }
    assert forall|s: Slot, i: int| is_slot(s) && 0 <= i < after.kids(s).len() implies after.kid_ok(
        s,
        #[trigger] after.kids(s)[i],
    ) by {
        assert(before.kid_ok(s, before.kids(s)[i]));
    }
    assert forall|s: Slot| #[trigger] after.live(s) implies after.parent_ok(s) && after.node_ok(
        s,
    ) && after.node(s).capability_id != before.next_capability_id by {
        assert(before.live(s));
        assert(before.parent_ok(s) && before.node_ok(s));
    }
    assert forall|s: Slot| is_slot(s) && !after.live(s) implies (#[trigger] after.kids(s)).len()
        == 0 by {
        assert(!before.live(s));
        assert(before.kids(s).len() == 0);
    }
    assert forall|s: Slot, t: Slot|
        #![trigger after.live(s), after.live(t)]
        after.live(s) && after.live(t) && s != t implies after.node(s).capability_id != after.node(
        t,
    ).capability_id by {
        assert(before.live(s) && before.live(t));
    }
    assert forall|p: int| 0 <= p < MAX_PROCESSES implies (#[trigger] after.tables@[p]).count
        == crate::cap::tree::occupied_count(
        after.tables@[p].entries@,
        MAX_HANDLES_PER_PROCESS as int,
    ) by {
        assert(before.tables@[p] == after.tables@[p]);
    }
    assert forall|s: Slot| is_slot(s) implies (#[trigger] after.entry(s)).handle_generation
        != 0 by {
        assert(before.entry(s).handle_generation != 0);
    }
}

/// Why a capability cannot be derived from the one at `par` with these rights; `None` when it
/// can.
pub open spec fn derive_fault(k: &KernelState, par: Slot, requested_rights: u16) -> Option<
    IpcError,
> {
    let e = k.caps.entry(par);
    let n = k.caps.node(par);
    let o = e.object_index as int;
    if !e.occupied {
        Some(IpcError::InvalidHandle)
    } else if n.is_revoked {
        Some(IpcError::CapabilityRevoked)
    } else if e.rights & (cap_rights::DUPLICATE | rights::DUPLICATE) == 0 {
        Some(IpcError::CapabilityNotDuplicable)
    } else if !cap_rights::rights_within(requested_rights, e.rights) {
        Some(IpcError::RightsAmplificationRejected)
    } else if n.derivation_depth >= MAX_DERIVATION_DEPTH {
        Some(IpcError::MaxDerivationDepthExceeded)
    } else if o >= MAX_KERNEL_OBJECTS {
        Some(IpcError::InvalidHandle)
    } else if !k.objs@.slots[o].occupied || k.objs@.slots[o].generation != e.object_generation {
        Some(IpcError::BadHandleGeneration)
    } else if k.caps.next_capability_id == u64::MAX {
        Some(IpcError::CapabilityIdExhausted)
    } else {
        None
    }
}

/// The outcome of a derivation into the slot `s`.
pub open spec fn derivation(
    old_k: &KernelState,
    new_k: &KernelState,
    s: Slot,
    par: Slot,
    requested_rights: u16,
    r: Result<Handle, IpcError>,
) -> bool {
    match derive_fault(old_k, par, requested_rights) {
        Some(e) => r == Err::<Handle, IpcError>(e) && *new_k == *old_k,
        None => {
            &&& r is Ok
            &&& names_slot(r->Ok_0, &new_k.caps, s)
            &&& child_installed(&old_k.caps, &new_k.caps, s, par, requested_rights)
            &&& new_k.objs@ == handle_added(
                old_k.objs@,
                old_k.caps.entry(par).object_index as int,
                old_k.caps.entry(par).endpoint,
            )
            &&& new_k.same_rest(old_k)
        },
    }
}

/// Derives a capability from another and puts it into a free slot.
pub fn install_derived_capability_locked(
    k: &mut KernelState,
    dst_pslot: usize,
    dst_hslot: usize,
    parent_pslot: usize,
    parent_hslot: usize,
    requested_rights: u16,
) -> (r: Result<Handle, IpcError>)
    requires
        old(k).wf(),
        is_slot(slot_at(dst_pslot, dst_hslot)),
        is_slot(slot_at(parent_pslot, parent_hslot)),
        !old(k).caps.live(slot_at(dst_pslot, dst_hslot)),
    ensures
        final(k).wf(),
        derivation(
            old(k),
            final(k),
            slot_at(dst_pslot, dst_hslot),
            slot_at(parent_pslot, parent_hslot),
            requested_rights,
            r,
        ),
{
    let ghost s = slot_at(dst_pslot, dst_hslot);
    let ghost par = slot_at(parent_pslot, parent_hslot);
    let ghost before = k.caps;
    let e = k.caps.tables[parent_pslot].entries[parent_hslot];
    let n = k.caps.nodes[parent_pslot][parent_hslot];
    assert(e == k.caps.entry(par) && n == k.caps.node(par));
    if !e.occupied {
        return Err(IpcError::InvalidHandle);
    }
    if n.is_revoked {
        return Err(IpcError::CapabilityRevoked);
    }
    if (e.rights & (cap_rights::DUPLICATE | rights::DUPLICATE)) == 0 {
        return Err(IpcError::CapabilityNotDuplicable);
    }
    if !cap_rights::is_rights_subset(requested_rights, e.rights) {
        return Err(IpcError::RightsAmplificationRejected);
    }
    if n.derivation_depth >= MAX_DERIVATION_DEPTH {
        return Err(IpcError::MaxDerivationDepthExceeded);
    }
    let obj_idx: usize = e.object_index as usize;
    if obj_idx >= MAX_KERNEL_OBJECTS {
        return Err(IpcError::InvalidHandle);
    }
    let slot = k.objs.objects.slots[obj_idx];
    assert(slot == k.objs@.slots[obj_idx as int]);
    if !slot.occupied || slot.generation != e.object_generation {
        return Err(IpcError::BadHandleGeneration);
    }
    let id: u64 = match allocate_capability_id(&mut k.caps) {
        Err(e) => {
            return Err(e);
        },
        Ok(id) => id,
    };
    let ghost numbered = k.caps;
    proof {
        lemma_number_keeps_wf(&before, &numbered);
        lemma_same_entries(&before, &numbered);
        assert(numbered.entry(par) == before.entry(par) && numbered.node(par) == before.node(par));
        assert(numbered.entry(s) == before.entry(s) && numbered.node(s) == before.node(s));
        assert(numbered.kids(par) == before.kids(par));
    }
    k.caps.attach_child(dst_pslot, dst_hslot, parent_pslot, parent_hslot, id, requested_rights);
    proof {
        assert forall|t: Slot| is_slot(t) && t != s implies (#[trigger] k.caps.entry(t))
            == before.entry(t) by {
            assert(numbered.entry(t) == before.entry(t));
        }
        assert forall|t: Slot| is_slot(t) && t != s implies core_of(#[trigger] k.caps.node(t))
            == core_of(before.node(t)) by {
            assert(numbered.node(t) == before.node(t));
        }
        lemma_added_keeps_refs(&before, &k.caps, k.objs@, s, obj_idx as int);
        law_derivation_keeps_attenuation(&before, &k.caps, s, par, requested_rights);
    }
    k.objs.add_handle(obj_idx, e.endpoint);
    proof {
        lemma_pins_kept(old(k).threads@, old(k).mappings@, old(k).objs@, k.objs@);
    }
    let gen: u16 = k.caps.tables[dst_pslot].entries[dst_hslot].handle_generation;
    assert(gen == k.caps.entry(s).handle_generation);
    Ok(Handle::new(dst_hslot as u16, gen))
}

/// Moves a capability to a free slot under an identifier that was reserved for it.
pub fn install_moved_capability_locked(
    k: &mut KernelState,
    dst_pslot: usize,
    dst_hslot: usize,
    src_pslot: usize,
    src_hslot: usize,
    reserved_capability_id: u64,
) -> (r: Result<Handle, IpcError>)
    requires
        old(k).wf(),
        is_slot(slot_at(dst_pslot, dst_hslot)),
        !old(k).caps.live(slot_at(dst_pslot, dst_hslot)),
        old(k).caps.live(slot_at(src_pslot, src_hslot)),
        0 < reserved_capability_id < old(k).caps.next_capability_id,
        forall|t: Slot|
            #[trigger] old(k).caps.live(t) ==> old(k).caps.node(t).capability_id
                != reserved_capability_id,
    ensures
        final(k).wf(),
        final(k).same_rest(old(k)),
        r is Ok,
        names_slot(r->Ok_0, &final(k).caps, slot_at(dst_pslot, dst_hslot)),
        moved(
            &old(k).caps,
            &final(k).caps,
            slot_at(dst_pslot, dst_hslot),
            slot_at(src_pslot, src_hslot),
            reserved_capability_id,
        ),
        final(k).objs == old(k).objs,
{
    let ghost dst = slot_at(dst_pslot, dst_hslot);
    let ghost src = slot_at(src_pslot, src_hslot);
    let ghost before = k.caps;
    k.caps.relocate(dst_pslot, dst_hslot, src_pslot, src_hslot, reserved_capability_id);
    proof {
        let o = k.objs@;
        let after = k.caps;
        law_moving_keeps_attenuation(&before, &after, dst, src, reserved_capability_id);
        assert(target_ok(&before, o, src));
        assert forall|t: Slot| #[trigger] after.live(t) implies target_ok(&after, o, t) by {
            if t != dst {
                assert(t != src);
                assert(before.live(t));
            }
        }
        assert forall|j: int| 0 <= j < MAX_KERNEL_OBJECTS && (#[trigger] o.slots[j]).occupied implies
            o.slots[j].header.handle_refs == refs_to(&after, j) by {
            lemma_refs_update_two(&before, &after, dst, src, j);
        }
        assert forall|j: int|
            0 <= j < MAX_KERNEL_OBJECTS && (#[trigger] o.slots[j]).occupied && o.slots[j].obj_type
                == KernelObjectType::Channel implies ends_counted(
            o,
            j,
            ends_to(&after, j, true),
            ends_to(&after, j, false),
        ) by {
            lemma_refs_update_two(&before, &after, dst, src, j);
        }
    }
    let gen: u16 = k.caps.tables[dst_pslot].entries[dst_hslot].handle_generation;
    assert(gen == k.caps.entry(dst).handle_generation);
    Ok(Handle::new(dst_hslot as u16, gen))
}

/// The slot of a process in use with an identifier: the first one.
pub open spec fn process_slot_of(k: &KernelState, pid: u64) -> Result<int, IpcError> {
    if exists|i: int|
        0 <= i < MAX_PROCESSES && #[trigger] k.processes@[i].occupied && k.processes@[i].id == pid {
        Ok(first_process(k, pid, 0))
    } else {
        Err(IpcError::InvalidProcess)
    }
}

/// The first slot at or after `from` of a process with an identifier.
pub open spec fn first_process(k: &KernelState, pid: u64, from: int) -> int
    decreases MAX_PROCESSES - from,
{
    if from >= MAX_PROCESSES || (k.processes@[from].occupied && k.processes@[from].id == pid) {
        from
    } else {
        first_process(k, pid, from + 1)
    }
}

/// Finds the slot of the process with an identifier.
pub fn resolve_current_process_slot(k: &KernelState, current_pid: u64) -> (r: Result<
    usize,
    IpcError,
>)
    ensures
        match process_slot_of(k, current_pid) {
            Ok(i) => r is Ok && r->Ok_0 == i && i < MAX_PROCESSES,
            Err(e) => r == Err::<usize, IpcError>(e),
        },
{
    let mut i: usize = 0;
    while i < MAX_PROCESSES
        invariant
            i <= MAX_PROCESSES,
            first_process(k, current_pid, 0) == first_process(k, current_pid, i as int),
            forall|j: int|
                0 <= j < i ==> !(#[trigger] k.processes@[j].occupied && k.processes@[j].id
                    == current_pid),
        decreases MAX_PROCESSES - i,
    {
        if k.processes[i].occupied && k.processes[i].id == current_pid {
            assert(k.processes@[i as int].occupied);
            return Ok(i);
        }
        i = i + 1;
    }
    Err(IpcError::InvalidProcess)
}

/// The outcome of a derivation within one process: into its first free slot.
pub open spec fn local_derivation(
    old_k: &KernelState,
    new_k: &KernelState,
    p: int,
    src_h: int,
    requested_rights: u16,
    r: Result<Handle, IpcError>,
) -> bool {
    if table_full(&old_k.caps, p) {
        r == Err::<Handle, IpcError>(IpcError::HandleTableFull) && *new_k == *old_k
    } else {
        exists|h: int|
            #[trigger] is_first_free(&old_k.caps, p, h) && derivation(
                old_k,
                new_k,
                Slot { p, h },
                Slot { p, h: src_h },
                requested_rights,
                r,
            )
    }
}

/// The outcome of deriving a capability from one that a process presents.
pub open spec fn deriving(
    old_k: &KernelState,
    new_k: &KernelState,
    pid: u64,
    src_handle: Handle,
    requested_rights: u16,
    r: Result<Handle, IpcError>,
) -> bool {
    match process_slot_of(old_k, pid) {
        Err(e) => r == Err::<Handle, IpcError>(e) && *new_k == *old_k,
        Ok(p) => {
            let src = Slot { p, h: handle_slot(src_handle) };
            if handle_slot(src_handle) >= MAX_HANDLES_PER_PROCESS || !old_k.caps.live(src)
                || old_k.caps.entry(src).handle_generation != handle_gen(src_handle) {
                r == Err::<Handle, IpcError>(IpcError::InvalidHandle) && *new_k == *old_k
            } else {
                local_derivation(old_k, new_k, p, handle_slot(src_handle), requested_rights, r)
            }
        },
    }
}

/// The outcome of duplicating a capability that a process presents.
pub open spec fn duplicating(
    old_k: &KernelState,
    new_k: &KernelState,
    pid: u64,
    src_handle: Handle,
    r: Result<Handle, IpcError>,
) -> bool {
    let src = Slot { p: process_slot_of(old_k, pid)->Ok_0, h: handle_slot(src_handle) };
    deriving(old_k, new_k, pid, src_handle, old_k.caps.entry(src).rights, r)
}

/// Derives a capability from one that the calling process holds.
pub fn capability_derive(
    k: &mut KernelState,
    current_pid: u64,
    src_handle: Handle,
    requested_rights: u16,
) -> (r: Result<Handle, IpcError>)
    requires
        old(k).wf(),
    ensures
        final(k).wf(),
        deriving(old(k), final(k), current_pid, src_handle, requested_rights, r),
{
    let p: usize = match resolve_current_process_slot(k, current_pid) {
        Err(e) => {
            return Err(e);
        },
        Ok(p) => p,
    };
    let src_hslot: usize = src_handle.slot_index();
    if src_hslot >= MAX_HANDLES_PER_PROCESS {
        return Err(IpcError::InvalidHandle);
    }
    let e = k.caps.tables[p].entries[src_hslot];
    assert(e == k.caps.entry(slot_at(p, src_hslot)));
    assert(slot_at(p, src_hslot) == Slot { p: p as int, h: handle_slot(src_handle) });
    if !e.occupied || e.handle_generation != src_handle.generation() {
        return Err(IpcError::InvalidHandle);
    }
    let dst_hslot: usize = match allocate_handle_slot_locked(k, p) {
        Err(e) => {
            return Err(e);
        },
        Ok(h) => h,
    };
    assert(is_first_free(&k.caps, p as int, dst_hslot as int));
    let r = install_derived_capability_locked(k, p, dst_hslot, p, src_hslot, requested_rights);
    assert(slot_at(p, dst_hslot) == Slot { p: p as int, h: dst_hslot as int });
    assert(slot_at(p, src_hslot) == Slot { p: p as int, h: handle_slot(src_handle) });
    r
}

/// Derives a capability with the same rights from one that the calling process holds.
pub fn capability_duplicate(k: &mut KernelState, current_pid: u64, src_handle: Handle) -> (r: Result<
    Handle,
    IpcError,
>)
    requires
        old(k).wf(),
    ensures
        final(k).wf(),
        duplicating(old(k), final(k), current_pid, src_handle, r),
{
    let p: usize = match resolve_current_process_slot(k, current_pid) {
        Err(e) => {
            return Err(e);
        },
        Ok(p) => p,
    };
    let src_hslot: usize = src_handle.slot_index();
    if src_hslot >= MAX_HANDLES_PER_PROCESS {
        return Err(IpcError::InvalidHandle);
    }
    let e = k.caps.tables[p].entries[src_hslot];
    assert(e == k.caps.entry(slot_at(p, src_hslot)));
    assert(slot_at(p, src_hslot) == Slot { p: p as int, h: handle_slot(src_handle) });
    if !e.occupied || e.handle_generation != src_handle.generation() {
        return Err(IpcError::InvalidHandle);
    }
    let dst_hslot: usize = match allocate_handle_slot_locked(k, p) {
        Err(e) => {
            return Err(e);
        },
        Ok(h) => h,
    };
    assert(is_first_free(&k.caps, p as int, dst_hslot as int));
    let r = install_derived_capability_locked(k, p, dst_hslot, p, src_hslot, e.rights);
    assert(slot_at(p, dst_hslot) == Slot { p: p as int, h: dst_hslot as int });
    r
}

/// What a check of a handle finds: the object, the endpoint and the rights, or what is wrong.
pub open spec fn handle_check(k: &KernelState, p: int, h: Handle, required_rights: u16) -> Result<
    (int, u8, u16),
    IpcError,
> {
    let s = Slot { p, h: handle_slot(h) };
    let e = k.caps.entry(s);
    let o = e.object_index as int;
    if s.h >= MAX_HANDLES_PER_PROCESS {
        Err(IpcError::InvalidHandle)
    } else if e.handle_generation != handle_gen(h) {
        Err(IpcError::BadHandleGeneration)
    } else if !e.occupied {
        Err(IpcError::InvalidHandle)
    } else if k.caps.node(s).is_revoked {
        Err(IpcError::CapabilityRevoked)
    } else if o >= MAX_KERNEL_OBJECTS {
        Err(IpcError::InvalidHandle)
    } else if !k.objs@.slots[o].occupied || k.objs@.slots[o].generation != e.object_generation {
        Err(IpcError::BadHandleGeneration)
    } else if e.rights & required_rights != required_rights {
        Err(IpcError::PermissionDenied)
    } else {
        Ok((o, e.endpoint, e.rights))
    }
}

/// Checks a handle that a process presents.
pub fn validate_capability_locked(
    k: &KernelState,
    process_slot_index: usize,
    handle: Handle,
    required_rights: u16,
) -> (r: Result<(usize, u8, u16), IpcError>)
    requires
        process_slot_index < MAX_PROCESSES,
    ensures
        match handle_check(k, process_slot_index as int, handle, required_rights) {
            Err(e) => r == Err::<(usize, u8, u16), IpcError>(e),
            Ok(v) => r is Ok && r->Ok_0.0 == v.0 && r->Ok_0.1 == v.1 && r->Ok_0.2 == v.2 && v.0
                < MAX_KERNEL_OBJECTS,
        },
{
    let h: usize = handle.slot_index();
    if h >= MAX_HANDLES_PER_PROCESS {
        return Err(IpcError::InvalidHandle);
    }
    let ghost s = slot_at(process_slot_index, h);
    assert(s == Slot { p: process_slot_index as int, h: handle_slot(handle) });
    let e = k.caps.tables[process_slot_index].entries[h];
    assert(e == k.caps.entry(s));
    if e.handle_generation != handle.generation() {
        return Err(IpcError::BadHandleGeneration);
    }
    if !e.occupied {
        return Err(IpcError::InvalidHandle);
    }
    if k.caps.nodes[process_slot_index][h].is_revoked {
        return Err(IpcError::CapabilityRevoked);
    }
    let o: usize = e.object_index as usize;
    if o >= MAX_KERNEL_OBJECTS {
        return Err(IpcError::InvalidHandle);
    }
    let slot = k.objs.objects.slots[o];
    assert(slot == k.objs@.slots[o as int]);
    if !slot.occupied || slot.generation != e.object_generation {
        return Err(IpcError::BadHandleGeneration);
    }
    if required_rights != 0 && (e.rights & required_rights) != required_rights {
        return Err(IpcError::PermissionDenied);
    }
    proof {
        let rr = e.rights;
        assert(rr & 0u16 == 0u16) by (bit_vector);
    }
    Ok((o, e.endpoint, e.rights))
}

/// Takes a capability away from its slot. Its children go to its parent, or become roots. The
/// result is the object and the endpoint that it referred to.
pub fn capability_close_locked(k: &mut KernelState, process_slot: usize, handle_slot_idx: usize) -> (r:
    Result<(usize, u8), IpcError>)
    requires
        old(k).wf(),
        is_slot(slot_at(process_slot, handle_slot_idx)),
    ensures
        final(k).wf(),
        final(k).same_rest(old(k)),
        ({
            let s = slot_at(process_slot, handle_slot_idx);
            let e = old(k).caps.entry(s);
            if !old(k).caps.live(s) {
                &&& r == Err::<(usize, u8), IpcError>(IpcError::InvalidHandle)
                &&& *final(k) == *old(k)
            } else {
                &&& r == Ok::<(usize, u8), IpcError>((e.object_index as usize, e.endpoint))
                &&& e.object_index < MAX_KERNEL_OBJECTS
                &&& closed(&old(k).caps, &final(k).caps, s)
                &&& final(k).objs@ == old(k).objs@.handle_gone(e.object_index as int, e.endpoint)
            }
        }),
{
    let ghost s = slot_at(process_slot, handle_slot_idx);
    let ghost before = k.caps;
    let ghost o = k.objs@;
    let e = k.caps.tables[process_slot].entries[handle_slot_idx];
    assert(e == k.caps.entry(s));
    if !e.occupied {
        return Err(IpcError::InvalidHandle);
    }
    assert(k.caps.live(s));
    assert(target_ok(&k.caps, o, s));
    k.caps.detach(process_slot, handle_slot_idx);
    k.objs.drop_handle(e.object_index as usize, e.endpoint);
    proof {
        let es = all_entries(&before);
        let i = slot_number(s);
        lemma_refs_as_list(&before, o);
        lemma_slot_number(&before, s);
        lemma_entries_update(&before, &k.caps, s);
        lemma_freed_keeps_entries(es, o, i);
        lemma_refs_as_list(&k.caps, k.objs@);
        law_closing_keeps_attenuation(&before, &k.caps, s);
        lemma_pins_kept(old(k).threads@, old(k).mappings@, old(k).objs@, k.objs@);
    }
    Ok((e.object_index as usize, e.endpoint))
}

/// What is left of an object after a handle was closed shrinks the table at most.
pub(crate) proof fn lemma_end_released_shrinks(w: World, i: int, endpoint: u8)
    requires
        w.objs.wf(),
        0 <= i < MAX_KERNEL_OBJECTS,
    ensures
        slots_shrunk(w.objs, w.end_released(i, endpoint).objs),
        pins_kept(w.objs, w.end_released(i, endpoint).objs),
{
    let o = w.objs;
    let n = w.end_released(i, endpoint).objs;
    assert forall|j: int| 0 <= j < MAX_KERNEL_OBJECTS implies #[trigger] slot_pins_kept(o, n, j) by {
        assert(o.slot_ok(i) && o.slot_ok(j) && o.apart(i, j));
    }
    assert forall|j: int| 0 <= j < MAX_KERNEL_OBJECTS implies #[trigger] slot_shrunk(o, n, j) by {
        assert(o.slot_ok(i) && o.slot_ok(j) && o.apart(i, j));
    }
}

/// A capability is closed, and so is the end of the channel it stood for, if it was the last
/// handle to it; an object without references goes.
pub fn close_and_reclaim_capability_locked(
    k: &mut KernelState,
    process_slot: usize,
    handle_slot_idx: usize,
    fx: &mut Effects,
) -> (r: Result<(), IpcError>)
    requires
        old(k).wf(),
        is_slot(slot_at(process_slot, handle_slot_idx)),
    ensures
        final(k).wf(),
        final(k).same_rest(old(k)),
        close_outcome(
            old(k),
            final(k),
            old(fx),
            final(fx),
            slot_at(process_slot, handle_slot_idx),
            r,
        ),
{
    let (obj_idx, endpoint) = match capability_close_locked(k, process_slot, handle_slot_idx) {
        Err(e) => {
            return Err(e);
        },
        Ok(v) => v,
    };
    let ghost w = k.world(fx);
    proof {
        lemma_refs_as_list(&k.caps, k.objs@);
        lemma_end_released_shrinks(w, obj_idx as int, endpoint);
        lemma_shrunk_keeps_entries(
            all_entries(&k.caps),
            k.objs@,
            w.end_released(obj_idx as int, endpoint).objs,
        );
    }
    k.objs.release_closed(obj_idx, endpoint, fx);
    proof {
        lemma_refs_as_list(&k.caps, k.objs@);
        lemma_pins_kept(k.threads@, k.mappings@, w.objs, k.objs@);
    }
    Ok(())
}

/// The outcome of closing the capability at `s` together with what it stood for.
pub open spec fn close_outcome(
    old_k: &KernelState,
    new_k: &KernelState,
    old_fx: &Effects,
    new_fx: &Effects,
    s: Slot,
    r: Result<(), IpcError>,
) -> bool {
    let e = old_k.caps.entry(s);
    let o = e.object_index as int;
    if !old_k.caps.live(s) {
        &&& r == Err::<(), IpcError>(IpcError::InvalidHandle)
        &&& *new_k == *old_k
        &&& *new_fx == *old_fx
    } else {
        &&& r == Ok::<(), IpcError>(())
        &&& closed(&old_k.caps, &new_k.caps, s)
        &&& new_k.world(new_fx) == (World {
            objs: old_k.objs@.handle_gone(o, e.endpoint),
            fx: old_fx@,
        }).end_released(o, e.endpoint)
    }
}

/// The handles at a list of slots are revoked one after the other.
pub open spec fn handles_revoked(w: World, c: &CapabilitySpace, l: Seq<Slot>) -> World
    decreases l.len(),
{
    if l.len() == 0 {
        w
    } else {
        let e = c.entry(l.last());
        handles_revoked(w, c, l.drop_last()).handle_revoked(e.object_index as int, e.endpoint)
    }
}

/// The entries after those at a list of slots were freed.
spec fn entries_without(c: &CapabilitySpace, l: Seq<Slot>) -> Seq<HandleEntry> {
    Seq::new(
        MAX_CAPABILITY_NODES as nat,
        |i: int|
            {
                let s = Slot { p: i / MAX_HANDLES_PER_PROCESS as int, h: i % MAX_HANDLES_PER_PROCESS as int };
                if l.contains(s) {
                    freed_entry(c.entry(s))
                } else {
                    c.entry(s)
                }
            },
    )
}

/// Revoking a handle shrinks the table at most, apart from the handle itself.
proof fn lemma_handle_revoked_shrinks(w: World, i: int, endpoint: u8)
    requires
        w.objs.wf(),
        0 <= i < MAX_KERNEL_OBJECTS,
    ensures
        slots_shrunk(w.objs.handle_gone(i, endpoint), w.handle_revoked(i, endpoint).objs),
        pins_kept(w.objs, w.handle_revoked(i, endpoint).objs),
{
    let o = w.objs.handle_gone(i, endpoint);
    let n = w.handle_revoked(i, endpoint).objs;
    assert forall|j: int| 0 <= j < MAX_KERNEL_OBJECTS implies #[trigger] slot_pins_kept(
        w.objs,
        n,
        j,
    ) by {
        assert(w.objs.slot_ok(i) && w.objs.slot_ok(j) && w.objs.apart(i, j));
    }
    assert forall|j: int| 0 <= j < MAX_KERNEL_OBJECTS implies #[trigger] slot_shrunk(o, n, j) by {
        assert(w.objs.slot_ok(i) && w.objs.slot_ok(j) && w.objs.apart(i, j));
    }
}

/// Withdraws everything derived from the capability at a slot, which itself stays. The result is
/// the number of capabilities withdrawn.
pub fn revoke_descendants_tree_locked(
    k: &mut KernelState,
    pslot: usize,
    hslot: usize,
    fx: &mut Effects,
) -> (r: usize)
    requires
        old(k).wf(),
        is_slot(slot_at(pslot, hslot)),
    ensures
        final(k).wf(),
        final(k).same_rest(old(k)),
        revocation(old(k), final(k), old(fx), final(fx), slot_at(pslot, hslot), r as int),
{
    let ghost s = slot_at(pslot, hslot);
    let ghost before = k.caps;
    let ghost w0 = k.world(fx);
    let work: Vec<(u8, u8)> = k.caps.collect_descendants(pslot, hslot);
    let ghost w = slots_of(work@);
    k.caps.withdraw(pslot, hslot, &work);
    let ghost after = k.caps;
    proof {
        law_revocation_keeps_attenuation(&before, &after, s);
        lemma_collected(&before, s, w, work@.len() as int);
        lemma_refs_as_list(&before, k.objs@);
        assert(entries_without(&before, w.take(0)) =~= all_entries(&before));
        assert(w.take(0) =~= Seq::<Slot>::empty());
    }
    let mut idx: usize = 0;
    while idx < work.len()
        invariant
            idx <= work@.len(),
            w == slots_of(work@),
            w == descendants(&before, s),
            w.no_duplicates(),
            forall|j: int| 0 <= j < w.len() ==> before.live(#[trigger] w[j]),
            k.caps == after,
            attenuated(&after),
            withdrawn(&before, &after, s),
            k.same_rest(old(k)),
            k.mappings == old(k).mappings,
            k.objs.wf(),
            entries_ok(entries_without(&before, w.take(idx as int)), k.objs@),
            pins_ok(k.threads@, k.mappings@, k.objs@),
            k.world(fx) == handles_revoked(w0, &before, w.take(idx as int)),
        decreases work@.len() - idx,
    {
        let (cp, ch) = work[idx];
        let ghost t = w[idx as int];
        assert(t == slot_at(cp as usize, ch as usize));
        assert(before.live(t));
        let e = k.caps.tables[cp as usize].entries[ch as usize];
        let ghost es = entries_without(&before, w.take(idx as int));
        let ghost i = slot_number(t);
        let ghost at = k.world(fx);
        proof {
            assert(e == after.entry(t));
            assert(w.contains(t));
            assert(e == freed_entry(before.entry(t)));
            lemma_slot_number(&before, t);
            assert(i / 32 == t.p && i % 32 == t.h);
            assert(!w.take(idx as int).contains(t)) by {
                if w.take(idx as int).contains(t) {
                    let j = w.take(idx as int).index_of(t);
                    assert(w[j] == w[idx as int]);
                }
            }
            assert(es[i] == before.entry(t));
            assert(entry_target_ok(es[i], k.objs@));
            lemma_freed_keeps_entries(es, k.objs@, i);
            lemma_handle_revoked_shrinks(at, e.object_index as int, e.endpoint);
            lemma_shrunk_keeps_entries(
                es.update(i, freed_entry(es[i])),
                k.objs@.handle_gone(e.object_index as int, e.endpoint),
                at.handle_revoked(e.object_index as int, e.endpoint).objs,
            );
            assert(w.take(idx + 1).drop_last() =~= w.take(idx as int));
            assert(w.take(idx + 1).last() == t);
            lemma_entries_without_step(&before, w, idx as int);
        }
        k.objs.release_revoked(e.object_index as usize, e.endpoint, fx);
        proof {
            lemma_pins_kept(k.threads@, k.mappings@, at.objs, k.objs@);
        }
        idx = idx + 1;
    }
    proof {
        assert(w.take(idx as int) =~= w);
        assert(entries_without(&before, w) =~= all_entries(&after)) by {
            assert forall|i: int| 0 <= i < MAX_CAPABILITY_NODES implies entries_without(
                &before,
                w,
            )[i] == all_entries(&after)[i] by {
                let t = Slot { p: i / 32, h: i % 32 };
                assert(is_slot(t));
                assert(after.entry(t) == (if w.contains(t) {
                    freed_entry(before.entry(t))
                } else {
                    before.entry(t)
                }));
            }
        }
        lemma_refs_as_list(&after, k.objs@);
    }
    work.len()
}

/// One more entry is freed.
proof fn lemma_entries_without_step(c: &CapabilitySpace, w: Seq<Slot>, idx: int)
    requires
        0 <= idx < w.len(),
        w.no_duplicates(),
        is_slot(w[idx]),
    ensures
        entries_without(c, w.take(idx + 1)) == entries_without(c, w.take(idx)).update(
            slot_number(w[idx]),
            freed_entry(c.entry(w[idx])),
        ),
{
    let t = w[idx];
    let k = slot_number(t);
    lemma_slot_number(c, t);
    let a = entries_without(c, w.take(idx + 1));
    let b = entries_without(c, w.take(idx)).update(k, freed_entry(c.entry(t)));
    assert forall|i: int| 0 <= i < MAX_CAPABILITY_NODES implies a[i] == b[i] by {
        let s = Slot { p: i / 32, h: i % 32 };
        if i == k {
            assert(s == t);
            assert(w.take(idx + 1)[idx] == t);
        } else {
            assert(s != t) by {
                assert(i == 32 * (i / 32) + i % 32);
            }
            if w.take(idx).contains(s) {
                let j = w.take(idx).index_of(s);
                assert(w.take(idx + 1)[j] == s);
            }
            if w.take(idx + 1).contains(s) {
                let j = w.take(idx + 1).index_of(s);
                assert(j < idx);
                assert(w.take(idx)[j] == s);
            }
        }
    }
    assert(a =~= b);
}

/// The outcome of withdrawing everything derived from the capability at `s`.
pub open spec fn revocation(
    old_k: &KernelState,
    new_k: &KernelState,
    old_fx: &Effects,
    new_fx: &Effects,
    s: Slot,
    count: int,
) -> bool {
    let d = descendants(&old_k.caps, s);
    &&& count == d.len()
    &&& withdrawn(&old_k.caps, &new_k.caps, s)
    &&& new_k.world(new_fx) == handles_revoked(old_k.world(old_fx), &old_k.caps, d)
}

/// The outcome of withdrawing everything derived from a capability on its authority.
pub open spec fn revoking(
    old_k: &KernelState,
    new_k: &KernelState,
    old_fx: &Effects,
    new_fx: &Effects,
    s: Slot,
    r: Result<usize, IpcError>,
) -> bool {
    let fault = if !old_k.caps.entry(s).occupied {
        Some(IpcError::InvalidHandle)
    } else if old_k.caps.node(s).is_revoked {
        Some(IpcError::CapabilityRevoked)
    } else if old_k.caps.entry(s).rights & cap_rights::REVOKE == 0 {
        Some(IpcError::PermissionDenied)
    } else {
        None
    };
    match fault {
        Some(e) => {
            &&& r == Err::<usize, IpcError>(e)
            &&& *new_k == *old_k
            &&& *new_fx == *old_fx
        },
        None => {
            &&& r is Ok
            &&& revocation(old_k, new_k, old_fx, new_fx, s, r->Ok_0 as int)
        },
    }
}

/// Withdraws everything derived from a capability, if it carries the right to do so.
pub fn capability_revoke_descendants_locked(
    k: &mut KernelState,
    pslot: usize,
    hslot: usize,
    fx: &mut Effects,
) -> (r: Result<usize, IpcError>)
    requires
        old(k).wf(),
        is_slot(slot_at(pslot, hslot)),
    ensures
        final(k).wf(),
        final(k).same_rest(old(k)),
        revoking(old(k), final(k), old(fx), final(fx), slot_at(pslot, hslot), r),
{
    let e = k.caps.tables[pslot].entries[hslot];
    assert(e == k.caps.entry(slot_at(pslot, hslot)));
    if !e.occupied {
        return Err(IpcError::InvalidHandle);
    }
    if k.caps.nodes[pslot][hslot].is_revoked {
        return Err(IpcError::CapabilityRevoked);
    }
    if (e.rights & cap_rights::REVOKE) == 0 {
        return Err(IpcError::PermissionDenied);
    }
    let count: usize = revoke_descendants_tree_locked(k, pslot, hslot, fx);
    Ok(count)
}

} // verus!
