//! Capabilities that go from one process to another.
use crate::cap::laws::{attenuated, within_parent};
use crate::cap::node::{allocate_capability_id, core_of, is_slot, slot_at, Slot};
use crate::cap::ops::{
    allocate_handle_slot_locked, derivation, derive_fault, install_derived_capability_locked,
    install_moved_capability_locked, is_first_free, lemma_number_keeps_wf, names_slot, table_full,
};
use crate::cap::tree::{moved_children, moved_to};
use crate::cap::types::cap_rights;
use crate::cap::types::{MAX_DERIVATION_DEPTH, MAX_PROCESSES};
use crate::ipc::handle::{handle_slot, Handle};
use crate::ipc::types::{rights, IpcError};
use crate::kernel::{refs_ok, KernelState};
use vstd::prelude::*;

verus! {

/// Why a capability cannot be moved to a process; `None` when it can.
pub open spec fn move_fault(k: &KernelState, src: Slot, dst_p: int) -> Option<IpcError> {
    let e = k.caps.entry(src);
    if !e.occupied {
        Some(IpcError::InvalidHandle)
    } else if k.caps.node(src).is_revoked {
        Some(IpcError::CapabilityRevoked)
    } else if e.rights & (cap_rights::TRANSFER | rights::TRANSFER) == 0 {
        Some(IpcError::CapabilityNotTransferable)
    } else if table_full(&k.caps, dst_p) {
        Some(IpcError::HandleTableFull)
    } else if k.caps.next_capability_id == u64::MAX {
        Some(IpcError::CapabilityIdExhausted)
    } else {
        None
    }
}

/// The outcome of a move of the capability at `src` to a process.
pub open spec fn moving(
    old_k: &KernelState,
    new_k: &KernelState,
    src: Slot,
    dst_p: int,
    r: Result<Handle, IpcError>,
) -> bool {
    match move_fault(old_k, src, dst_p) {
        Some(e) => r == Err::<Handle, IpcError>(e) && *new_k == *old_k,
        None => {
            let dst = Slot { p: dst_p, h: handle_slot(r->Ok_0) };
            &&& r is Ok
            &&& is_first_free(&old_k.caps, dst_p, handle_slot(r->Ok_0))
            &&& names_slot(r->Ok_0, &new_k.caps, dst)
            &&& moved_to(
                &old_k.caps,
                &new_k.caps,
                dst,
                src,
                old_k.caps.next_capability_id,
            )
            &&& new_k.caps.next_capability_id == old_k.caps.next_capability_id + 1
            &&& new_k.objs == old_k.objs
            &&& new_k.same_rest(old_k)
        },
    }
}

/// Moves a capability to another process. If that fails, nothing changed.
pub fn transfer_move_locked(
    k: &mut KernelState,
    src_pslot: usize,
    src_hslot: usize,
    dst_pslot: usize,
) -> (r: Result<Handle, IpcError>)
    requires
        old(k).wf(),
        is_slot(slot_at(src_pslot, src_hslot)),
        dst_pslot < MAX_PROCESSES,
    ensures
        final(k).wf(),
        moving(old(k), final(k), slot_at(src_pslot, src_hslot), dst_pslot as int, r),
{
    let ghost src = slot_at(src_pslot, src_hslot);
    let ghost before = k.caps;
    let e = k.caps.tables[src_pslot].entries[src_hslot];
    assert(e == k.caps.entry(src));
    if !e.occupied {
        return Err(IpcError::InvalidHandle);
    }
    if k.caps.nodes[src_pslot][src_hslot].is_revoked {
        return Err(IpcError::CapabilityRevoked);
    }
    if (e.rights & (cap_rights::TRANSFER | rights::TRANSFER)) == 0 {
        return Err(IpcError::CapabilityNotTransferable);
    }
    let dst_hslot: usize = match allocate_handle_slot_locked(k, dst_pslot) {
        Err(e) => {
            return Err(e);
        },
        Ok(h) => h,
    };
    assert(!table_full(&k.caps, dst_pslot as int)) by {
        assert(!k.caps.tables@[dst_pslot as int].entries@[dst_hslot as int].occupied);
    }
    let id: u64 = match allocate_capability_id(&mut k.caps) {
        Err(e) => {
            return Err(e);
        },
        Ok(id) => id,
    };
    let ghost numbered = k.caps;
    let ghost dst = slot_at(dst_pslot, dst_hslot);
    proof {
        lemma_number_keeps_wf(&before, &numbered);
        assert forall|t: Slot| (#[trigger] numbered.entry(t)) == before.entry(t) by {}
        assert forall|t: Slot| (#[trigger] numbered.node(t)) == before.node(t) by {}
        assert forall|t: Slot| (#[trigger] numbered.kids(t)) == before.kids(t) by {}
        assert(attenuated(&numbered)) by {
            assert forall|t: Slot| #[trigger] numbered.live(t) implies within_parent(
                &numbered,
                t,
            ) by {
                assert(before.live(t) && within_parent(&before, t));
            }
        }
        assert(refs_ok(&numbered, k.objs@)) by {
            assert(refs_ok(&before, k.objs@));
            crate::kernel::lemma_refs_as_list(&before, k.objs@);
            crate::kernel::lemma_refs_as_list(&numbered, k.objs@);
            assert(crate::kernel::all_entries(&numbered) =~= crate::kernel::all_entries(&before));
        }
    }
    let r = install_moved_capability_locked(k, dst_pslot, dst_hslot, src_pslot, src_hslot, id);
    proof {
        assert(dst == Slot { p: dst_pslot as int, h: dst_hslot as int });
        assert(moved_children(&numbered, dst, src) == moved_children(&before, dst, src));
        assert(moved_to(&before, &k.caps, dst, src, id)) by {
            assert forall|t: Slot|
                is_slot(t) && t != src && t != dst implies (#[trigger] k.caps.entry(t))
                == before.entry(t) by {
                assert(numbered.entry(t) == before.entry(t));
            }
            assert(numbered.entry(src) == before.entry(src) && numbered.entry(dst) == before.entry(
                dst,
            ));
            assert(numbered.node(src) == before.node(src) && numbered.node(dst) == before.node(
                dst,
            ));
            assert(numbered.kids(src) == before.kids(src));
            assert forall|t: Slot|
                is_slot(t) && t != src && t != dst implies core_of(#[trigger] k.caps.node(t)) == (
            if before.kids(src).contains(t) {
                crate::cap::tree::reparented_core(
                    core_of(before.node(t)),
                    dst,
                    before.entry(dst).handle_generation,
                    before.node(t).derivation_depth,
                )
            } else {
                core_of(before.node(t))
            }) by {
                assert(numbered.node(t) == before.node(t));
            }
        }
    }
    r
}

/// Why a capability cannot be delegated to a process; `None` when it can.
pub open spec fn delegate_fault(
    k: &KernelState,
    src: Slot,
    dst_p: int,
    requested_rights: u16,
) -> Option<IpcError> {
    let e = k.caps.entry(src);
    if !e.occupied {
        Some(IpcError::InvalidHandle)
    } else if k.caps.node(src).is_revoked {
        Some(IpcError::CapabilityRevoked)
    } else if e.rights & (cap_rights::TRANSFER | rights::TRANSFER) == 0 {
        Some(IpcError::CapabilityNotTransferable)
    } else if e.rights & (cap_rights::DUPLICATE | rights::DUPLICATE) == 0 {
        Some(IpcError::CapabilityNotDuplicable)
    } else if !cap_rights::rights_within(requested_rights, e.rights) {
        Some(IpcError::RightsAmplificationRejected)
    } else if k.caps.node(src).derivation_depth >= MAX_DERIVATION_DEPTH {
        Some(IpcError::MaxDerivationDepthExceeded)
    } else if table_full(&k.caps, dst_p) {
        Some(IpcError::HandleTableFull)
    } else {
        derive_fault(k, src, requested_rights)
    }
}

/// The outcome of a delegation of the capability at `src` to a process.
pub open spec fn delegation(
    old_k: &KernelState,
    new_k: &KernelState,
    src: Slot,
    dst_p: int,
    requested_rights: u16,
    r: Result<Handle, IpcError>,
) -> bool {
    match delegate_fault(old_k, src, dst_p, requested_rights) {
        Some(e) => r == Err::<Handle, IpcError>(e) && *new_k == *old_k,
        None => {
            &&& r is Ok
            &&& is_first_free(&old_k.caps, dst_p, handle_slot(r->Ok_0))
            &&& derivation(
                old_k,
                new_k,
                Slot { p: dst_p, h: handle_slot(r->Ok_0) },
                src,
                requested_rights,
                r,
            )
        },
    }
}

/// Derives a capability for another process. If that fails, nothing changed.
pub fn transfer_delegate_locked(
    k: &mut KernelState,
    src_pslot: usize,
    src_hslot: usize,
    dst_pslot: usize,
    requested_rights: u16,
) -> (r: Result<Handle, IpcError>)
    requires
        old(k).wf(),
        is_slot(slot_at(src_pslot, src_hslot)),
        dst_pslot < MAX_PROCESSES,
    ensures
        final(k).wf(),
        delegation(
            old(k),
            final(k),
            slot_at(src_pslot, src_hslot),
            dst_pslot as int,
            requested_rights,
            r,
        ),
{
    let ghost src = slot_at(src_pslot, src_hslot);
    let e = k.caps.tables[src_pslot].entries[src_hslot];
    let n = k.caps.nodes[src_pslot][src_hslot];
    assert(e == k.caps.entry(src) && n == k.caps.node(src));
    if !e.occupied {
        return Err(IpcError::InvalidHandle);
    }
    if n.is_revoked {
        return Err(IpcError::CapabilityRevoked);
    }
    if (e.rights & (cap_rights::TRANSFER | rights::TRANSFER)) == 0 {
        return Err(IpcError::CapabilityNotTransferable);
    }
    if (e.rights & (cap_rights::DUPLICATE | rights::DUPLICATE)) == 0 {
        return Err(IpcError::CapabilityNotDuplicable);
    }
    if !cap_rights::is_rights_subset(requested_rights, e.rights) {
        return Err(IpcError::RightsAmplificationRejected);
    }
    if n.derivation_depth >= MAX_DERIVATION_DEPTH {
        return Err(IpcError::MaxDerivationDepthExceeded);
    }
    let dst_hslot: usize = match allocate_handle_slot_locked(k, dst_pslot) {
        Err(e) => {
            return Err(e);
        },
        Ok(h) => h,
    };
    assert(!table_full(&k.caps, dst_pslot as int)) by {
        assert(!k.caps.tables@[dst_pslot as int].entries@[dst_hslot as int].occupied);
    }
    assert(slot_at(dst_pslot, dst_hslot) == Slot { p: dst_pslot as int, h: dst_hslot as int });
    install_derived_capability_locked(
        k,
        dst_pslot,
        dst_hslot,
        src_pslot,
        src_hslot,
        requested_rights,
    )
}

} // verus!
