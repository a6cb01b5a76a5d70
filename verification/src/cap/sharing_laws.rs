//! When capabilities can be derived, delegated and moved, and what comes of it.
use crate::cap::exit::{mapping_after_exit, mapping_pages, mappings_removed};
use crate::cap::laws::{
    law_closing_keeps_children, law_identifiers_are_unique, law_revocation_is_scoped,
};
use crate::cap::node::{carries_id, core_of, is_slot, no_slot, parent_of, CapabilitySpace, Slot};
use crate::cap::ops::{
    close_outcome, derivation, deriving, duplicating, first_process, is_first_free, local_derivation, process_slot_of,
    revoking, table_full,
};
use crate::cap::revoke::{derived_from, descendants, law_descendants};
use crate::cap::transfer::{delegation, moving};
use crate::cap::types::cap_rights;
use crate::ipc::handle::{entry_allocation, handle_gen, handle_slot, Handle};
use crate::ipc::shm::ShmMapping;
use crate::ipc::space::{Effects, World};
use crate::ipc::types::IpcError;
use crate::kernel::{target_ok, KernelState};
use vstd::prelude::*;

verus! {

/// The rights include the one to hand a capability on, in either place where it may stand.
pub open spec fn may_transfer(rights: u16) -> bool {
    rights & 0x0200 != 0 || rights & 0x0010 != 0
}

/// The rights include the one to derive from a capability, in either place where it may stand.
pub open spec fn may_duplicate(rights: u16) -> bool {
    rights & 0x0100 != 0 || rights & 0x0020 != 0
}

/// Every entry of a process before the one given is in use.
pub open spec fn none_free_before(c: &CapabilitySpace, p: int, h: int) -> bool {
    forall|g: int| 0 <= g < h ==> #[trigger] c.tables@[p].entries@[g].occupied
}

/// The table of a process has a free entry.
pub open spec fn has_room(c: &CapabilitySpace, p: int) -> bool {
    exists|h: int| 0 <= h < 32 && !(#[trigger] c.tables@[p].entries@[h].occupied)
}

proof fn lemma_masks(r: u16, a: u16, b: u16)
    by (bit_vector)
    ensures
        (r & (0x0200u16 | 0x0010u16) != 0) == (r & 0x0200 != 0 || r & 0x0010 != 0),
        (r & (0x0100u16 | 0x0020u16) != 0) == (r & 0x0100 != 0 || r & 0x0020 != 0),
        (a & !b == 0) == (a & b == a),
{
}

/// Rights lie within others exactly if taking those in common with them takes nothing away.
pub proof fn law_rights_within_is_inclusion(child: u16, parent: u16)
    ensures
        cap_rights::rights_within(child, parent) <==> child & parent == child,
{
    lemma_masks(0, child, parent);
}

/// What a capability is that came from another one: it is for the same object and end, has the
/// rights asked for, lies one step further from the root, and has a number of its own. No other
/// entry changed.
pub open spec fn made_from(
    before: &CapabilitySpace,
    after: &CapabilitySpace,
    dst: Slot,
    src: Slot,
    rights: u16,
) -> bool {
    let e = after.entry(dst);
    let n = after.node(dst);
    let was = before.entry(src);
    &&& e.occupied
    &&& e.rights == rights
    &&& e.object_index == was.object_index
    &&& e.object_generation == was.object_generation
    &&& e.endpoint == was.endpoint
    &&& e.handle_generation == before.entry(dst).handle_generation
    &&& n.derivation_depth == before.node(src).derivation_depth + 1
    &&& n.capability_id == before.next_capability_id
    &&& parent_of(n) == src
    &&& n.parent_gen == was.handle_generation
    &&& !n.is_revoked
    &&& after.next_capability_id == before.next_capability_id + 1
    &&& forall|t: Slot| is_slot(t) && t != dst ==> (#[trigger] after.entry(t)) == before.entry(t)
}

/// A capability can be derived exactly if the one it comes from is in use, may be duplicated, has
/// the rights asked for, is less than eight steps from its root, and a number is left. Otherwise
/// nothing changes.
pub proof fn law_derivation_succeeds_exactly_if_allowed(
    before: &KernelState,
    after: &KernelState,
    dst: Slot,
    src: Slot,
    rights: u16,
    r: Result<Handle, IpcError>,
)
    requires
        before.wf(),
        is_slot(src),
        is_slot(dst),
        !before.caps.live(dst),
        derivation(before, after, dst, src, rights, r),
    ensures
        ({
            let e = before.caps.entry(src);
            let depth = before.caps.node(src).derivation_depth;
            &&& r is Ok <==> {
                &&& before.caps.live(src)
                &&& may_duplicate(e.rights)
                &&& rights & e.rights == rights
                &&& depth < 8
                &&& before.caps.next_capability_id < 0xFFFF_FFFF_FFFF_FFFF
            }
            &&& r is Err ==> *after == *before
            &&& r is Ok ==> {
                &&& handle_slot(r->Ok_0) == dst.h
                &&& handle_gen(r->Ok_0) == before.caps.entry(dst).handle_generation
                &&& made_from(&before.caps, &after.caps, dst, src, rights)
            }
            &&& r == Err::<Handle, IpcError>(IpcError::InvalidHandle) <==> !before.caps.live(src)
            &&& r == Err::<Handle, IpcError>(IpcError::CapabilityNotDuplicable) ==> !may_duplicate(
                e.rights,
            )
            &&& r == Err::<Handle, IpcError>(IpcError::RightsAmplificationRejected) ==> rights
                & e.rights != rights
            &&& r == Err::<Handle, IpcError>(IpcError::MaxDerivationDepthExceeded) ==> depth >= 8
            &&& r == Err::<Handle, IpcError>(IpcError::CapabilityIdExhausted)
                ==> before.caps.next_capability_id == 0xFFFF_FFFF_FFFF_FFFF
            &&& r is Err ==> r == Err::<Handle, IpcError>(IpcError::InvalidHandle) || r == Err::<
                Handle,
                IpcError,
            >(IpcError::CapabilityNotDuplicable) || r == Err::<Handle, IpcError>(
                IpcError::RightsAmplificationRejected,
            ) || r == Err::<Handle, IpcError>(IpcError::MaxDerivationDepthExceeded) || r == Err::<
                Handle,
                IpcError,
            >(IpcError::CapabilityIdExhausted)
        }),
{
    let e = before.caps.entry(src);
    lemma_masks(e.rights, rights, e.rights);
    if before.caps.live(src) {
        assert(before.caps.node_ok(src));
        assert(target_ok(&before.caps, before.objs@, src));
    }
}

/// A capability can be delegated exactly if it is in use, may be handed on and duplicated, has the
/// rights asked for, is less than eight steps from its root, the other process has a free entry
/// and a number is left. Otherwise nothing changes.
pub proof fn law_delegation_succeeds_exactly_if_allowed(
    before: &KernelState,
    after: &KernelState,
    src: Slot,
    dst_p: int,
    rights: u16,
    r: Result<Handle, IpcError>,
)
    requires
        before.wf(),
        is_slot(src),
        0 <= dst_p < 16,
        delegation(before, after, src, dst_p, rights, r),
    ensures
        ({
            let e = before.caps.entry(src);
            let depth = before.caps.node(src).derivation_depth;
            &&& r is Ok <==> {
                &&& before.caps.live(src)
                &&& may_transfer(e.rights)
                &&& may_duplicate(e.rights)
                &&& rights & e.rights == rights
                &&& depth < 8
                &&& has_room(&before.caps, dst_p)
                &&& before.caps.next_capability_id < 0xFFFF_FFFF_FFFF_FFFF
            }
            &&& r is Err ==> *after == *before
            &&& r is Ok ==> {
                let dst = Slot { p: dst_p, h: handle_slot(r->Ok_0) };
                &&& is_slot(dst)
                &&& none_free_before(&before.caps, dst.p, dst.h)
                &&& !before.caps.live(dst)
                &&& handle_gen(r->Ok_0) == before.caps.entry(dst).handle_generation
                &&& made_from(&before.caps, &after.caps, dst, src, rights)
            }
            &&& r == Err::<Handle, IpcError>(IpcError::InvalidHandle) <==> !before.caps.live(src)
            &&& r == Err::<Handle, IpcError>(IpcError::CapabilityNotTransferable)
                <==> before.caps.live(src) && !may_transfer(e.rights)
            &&& r == Err::<Handle, IpcError>(IpcError::CapabilityNotDuplicable) ==> !may_duplicate(
                e.rights,
            )
            &&& r == Err::<Handle, IpcError>(IpcError::RightsAmplificationRejected) ==> rights
                & e.rights != rights
            &&& r == Err::<Handle, IpcError>(IpcError::MaxDerivationDepthExceeded) ==> depth >= 8
            &&& r == Err::<Handle, IpcError>(IpcError::HandleTableFull) ==> !has_room(
                &before.caps,
                dst_p,
            )
            &&& r == Err::<Handle, IpcError>(IpcError::CapabilityIdExhausted)
                ==> before.caps.next_capability_id == 0xFFFF_FFFF_FFFF_FFFF
        }),
{
    let e = before.caps.entry(src);
    lemma_masks(e.rights, rights, e.rights);
    if before.caps.live(src) {
        assert(before.caps.node_ok(src));
        assert(target_ok(&before.caps, before.objs@, src));
    }
    if r is Ok {
        let h = handle_slot(r->Ok_0);
        assert(!before.caps.tables@[dst_p].entries@[h].occupied);
    }
}

/// A capability can be moved exactly if it is in use, may be handed on, the other process has a
/// free entry and a number is left. It then has another number, is at its new place what it was
/// and is gone from its old one; otherwise nothing changes.
pub proof fn law_move_succeeds_exactly_if_allowed(
    before: &KernelState,
    after: &KernelState,
    src: Slot,
    dst_p: int,
    r: Result<Handle, IpcError>,
)
    requires
        before.wf(),
        is_slot(src),
        0 <= dst_p < 16,
        moving(before, after, src, dst_p, r),
    ensures
        ({
            let e = before.caps.entry(src);
            &&& r is Ok <==> {
                &&& before.caps.live(src)
                &&& may_transfer(e.rights)
                &&& has_room(&before.caps, dst_p)
                &&& before.caps.next_capability_id < 0xFFFF_FFFF_FFFF_FFFF
            }
            &&& r is Err ==> *after == *before
            &&& r is Ok ==> {
                let dst = Slot { p: dst_p, h: handle_slot(r->Ok_0) };
                let n = after.caps.entry(dst);
                &&& is_slot(dst)
                &&& none_free_before(&before.caps, dst.p, dst.h)
                &&& !before.caps.live(dst)
                &&& !after.caps.live(src)
                &&& after.caps.entry(src).handle_generation != e.handle_generation
                &&& handle_gen(r->Ok_0) == n.handle_generation
                &&& n.occupied
                &&& n.rights == e.rights
                &&& n.object_index == e.object_index
                &&& n.object_generation == e.object_generation
                &&& n.endpoint == e.endpoint
                &&& after.caps.node(dst).derivation_depth == before.caps.node(src).derivation_depth
                &&& parent_of(after.caps.node(dst)) == parent_of(before.caps.node(src))
                &&& after.caps.node(dst).capability_id == before.caps.next_capability_id
                &&& after.objs == before.objs
                &&& forall|t: Slot|
                    is_slot(t) && t != dst && t != src ==> (#[trigger] after.caps.entry(t))
                        == before.caps.entry(t)
            }
            &&& r == Err::<Handle, IpcError>(IpcError::InvalidHandle) <==> !before.caps.live(src)
            &&& r == Err::<Handle, IpcError>(IpcError::CapabilityNotTransferable)
                <==> before.caps.live(src) && !may_transfer(e.rights)
            &&& r == Err::<Handle, IpcError>(IpcError::HandleTableFull) <==> before.caps.live(src)
                && may_transfer(e.rights) && !has_room(&before.caps, dst_p)
        }),
{
    let e = before.caps.entry(src);
    lemma_masks(e.rights, 0, 0);
    if before.caps.live(src) {
        assert(before.caps.node_ok(src));
    }
    if r is Ok {
        let h = handle_slot(r->Ok_0);
        assert(!before.caps.tables@[dst_p].entries@[h].occupied);
    }
}

/// A process can derive from a capability of its own exactly if that one is in use, may be
/// duplicated, has the rights asked for, is less than eight steps from its root, the process has a
/// free entry and a number is left.
pub proof fn law_local_derivation_succeeds_exactly_if_allowed(
    before: &KernelState,
    after: &KernelState,
    p: int,
    src_h: int,
    rights: u16,
    r: Result<Handle, IpcError>,
)
    requires
        before.wf(),
        is_slot(Slot { p, h: src_h }),
        local_derivation(before, after, p, src_h, rights, r),
    ensures
        ({
            let src = Slot { p, h: src_h };
            let e = before.caps.entry(src);
            &&& r is Ok <==> {
                &&& before.caps.live(src)
                &&& may_duplicate(e.rights)
                &&& rights & e.rights == rights
                &&& before.caps.node(src).derivation_depth < 8
                &&& has_room(&before.caps, p)
                &&& before.caps.next_capability_id < 0xFFFF_FFFF_FFFF_FFFF
            }
            &&& r is Err ==> *after == *before
            &&& r is Ok ==> {
                let dst = Slot { p, h: handle_slot(r->Ok_0) };
                &&& is_slot(dst)
                &&& none_free_before(&before.caps, p, dst.h)
                &&& !before.caps.live(dst)
                &&& handle_gen(r->Ok_0) == before.caps.entry(dst).handle_generation
                &&& made_from(&before.caps, &after.caps, dst, src, rights)
            }
            &&& r == Err::<Handle, IpcError>(IpcError::HandleTableFull) <==> !has_room(
                &before.caps,
                p,
            )
        }),
{
    let src = Slot { p, h: src_h };
    if !table_full(&before.caps, p) {
        let h = choose|h: int|
            #[trigger] is_first_free(&before.caps, p, h) && derivation(
                before,
                after,
                Slot { p, h },
                src,
                rights,
                r,
            );
        assert(!before.caps.tables@[p].entries@[h].occupied);
        assert(has_room(&before.caps, p));
        law_derivation_succeeds_exactly_if_allowed(before, after, Slot { p, h }, src, rights, r);
    }
}

/// A process is found exactly if a slot in use has its identifier, and none before the slot that
/// is found has it.
pub proof fn law_process_is_found(k: &KernelState, pid: u64)
    ensures
        match process_slot_of(k, pid) {
            Ok(i) => {
                &&& 0 <= i < 16
                &&& k.processes@[i].occupied && k.processes@[i].id == pid
                &&& forall|j: int|
                    0 <= j < i ==> !(#[trigger] k.processes@[j].occupied && k.processes@[j].id == pid)
            },
            Err(e) => {
                &&& e == IpcError::InvalidProcess
                &&& forall|j: int|
                    0 <= j < 16 ==> !(#[trigger] k.processes@[j].occupied && k.processes@[j].id
                        == pid)
            },
        },
{
    lemma_first_process(k, pid, 0);
}

proof fn lemma_first_process(k: &KernelState, pid: u64, from: int)
    requires
        0 <= from <= 16,
    ensures
        from <= first_process(k, pid, from) <= 16,
        forall|j: int|
            from <= j < first_process(k, pid, from) ==> !(#[trigger] k.processes@[j].occupied
                && k.processes@[j].id == pid),
        first_process(k, pid, from) < 16 ==> k.processes@[first_process(k, pid, from)].occupied
            && k.processes@[first_process(k, pid, from)].id == pid,
    decreases 16 - from,
{
    if from < 16 && !(k.processes@[from].occupied && k.processes@[from].id == pid) {
        lemma_first_process(k, pid, from + 1);
    }
}

/// What was derived from a capability can be withdrawn exactly if the capability is in use and
/// carries the right to revoke. The capability itself stays as it is, everything derived from it is
/// gone, and the answer is how many that were; otherwise nothing changes.
pub proof fn law_revocation_succeeds_exactly_if_allowed(
    before: &KernelState,
    after: &KernelState,
    fx: &Effects,
    fx_after: &Effects,
    s: Slot,
    r: Result<usize, IpcError>,
    t: Slot,
)
    requires
        before.wf(),
        is_slot(s),
        revoking(before, after, fx, fx_after, s, r),
    ensures
        ({
            let e = before.caps.entry(s);
            &&& r is Ok <==> before.caps.live(s) && e.rights & 0x0400 != 0
            &&& r == Err::<usize, IpcError>(IpcError::InvalidHandle) <==> !before.caps.live(s)
            &&& r == Err::<usize, IpcError>(IpcError::PermissionDenied) <==> before.caps.live(s)
                && e.rights & 0x0400 == 0
            &&& r is Err ==> *after == *before && *fx_after == *fx
            &&& r is Ok ==> {
                &&& after.caps.live(s)
                &&& after.caps.entry(s) == e
                &&& after.caps.live(t) <==> before.caps.live(t) && !derived_from(
                    &before.caps,
                    t,
                    s,
                )
                &&& descendants(&before.caps, s).len() == r->Ok_0
                &&& descendants(&before.caps, s).contains(t) <==> derived_from(&before.caps, t, s)
                &&& descendants(&before.caps, s).no_duplicates()
            }
        }),
{
    if before.caps.live(s) {
        assert(before.caps.node_ok(s));
        if r is Ok {
            law_revocation_is_scoped(&before.caps, &after.caps, s);
            law_descendants(&before.caps, s);
        }
    }
}

/// Closing a capability succeeds exactly if it is in use. Its entry is then free and goes by
/// another generation, no other entry changes, and what was derived from it lies one step below
/// its parent, or is a root if it had none.
pub proof fn law_closing_succeeds_exactly_if_in_use(
    before: &KernelState,
    after: &KernelState,
    fx: &Effects,
    fx_after: &Effects,
    s: Slot,
    r: Result<(), IpcError>,
    t: Slot,
)
    requires
        before.wf(),
        is_slot(s),
        close_outcome(before, after, fx, fx_after, s, r),
    ensures
        r is Ok <==> before.caps.live(s),
        r is Err ==> *after == *before && *fx_after == *fx,
        r is Ok ==> {
            let par = parent_of(before.caps.node(s));
            &&& !after.caps.live(s)
            &&& after.caps.entry(s).handle_generation != before.caps.entry(s).handle_generation
            &&& is_slot(t) && t != s ==> after.caps.entry(t) == before.caps.entry(t)
            &&& is_slot(t) && t != s && !before.caps.kids(s).contains(t)
                ==> after.caps.node(t).derivation_depth == before.caps.node(t).derivation_depth
                && parent_of(after.caps.node(t)) == parent_of(before.caps.node(t))
            &&& before.caps.kids(s).contains(t) ==> {
                &&& parent_of(after.caps.node(t)) == par
                &&& par == no_slot() ==> after.caps.node(t).derivation_depth == 0
                &&& par != no_slot() ==> after.caps.node(t).derivation_depth
                    == before.caps.node(par).derivation_depth + 1
            }
        },
{
    if before.caps.live(s) {
        let par = parent_of(before.caps.node(s));
        assert(before.caps.node_ok(s));
        assert(before.caps.parent_ok(s));
        if par != no_slot() {
            let i = choose|i: int|
                0 <= i < before.caps.kids(par).len() && before.caps.kids(par)[i] == s;
            assert(before.caps.kid_ok(par, before.caps.kids(par)[i]));
        }
        if before.caps.kids(s).contains(t) {
            law_closing_keeps_children(&before.caps, &after.caps, s, t);
            let i = choose|i: int| 0 <= i < before.caps.kids(s).len() && before.caps.kids(s)[i] == t;
            assert(before.caps.kid_ok(s, before.caps.kids(s)[i]));
            assert(t != s);
        }
        if is_slot(t) && t != s {
            let n = after.caps.node(t);
            assert(core_of(n).parent == parent_of(n));
        }
    }
}

/// A process that ended has no mapping left, and the mappings of others stay.
pub proof fn law_ended_process_maps_nothing(m: ShmMapping, pid: u64)
    ensures
        ({
            let now = mapping_after_exit(m, pid);
            &&& !(now.occupied && now.process_id == pid)
            &&& m.process_id != pid ==> now == m
            &&& now.object_index == m.object_index
        }),
{
}

/// Every page of every mapping of a process that ends is unmapped.
pub proof fn law_pages_of_ended_process_are_unmapped(
    w: World,
    mappings: Seq<ShmMapping>,
    pid: u64,
    n: int,
    j: int,
    i: int,
)
    requires
        0 <= j < n <= mappings.len(),
        mappings[j].occupied,
        mappings[j].process_id == pid,
        0 <= i < mappings[j].page_count,
    ensures
        mappings_removed(w, mappings, pid, n).fx.unmapped_pages.contains(
            (mappings[j].virtual_base + 4096 * i) as u64,
        ),
    decreases n,
{
    let m = mappings[n - 1];
    let v = mappings_removed(w, mappings, pid, n - 1);
    let page = (mappings[j].virtual_base + 4096 * i) as u64;
    let list = mapping_pages(m, m.page_count as int);
    if j < n - 1 {
        law_pages_of_ended_process_are_unmapped(w, mappings, pid, n - 1, j, i);
        let k = choose|k: int|
            0 <= k < v.fx.unmapped_pages.len() && v.fx.unmapped_pages[k] == page;
        if m.occupied && m.process_id == pid {
            assert((v.fx.unmapped_pages + list)[k] == page);
        }
    } else {
        let k = v.fx.unmapped_pages.len() + i;
        assert(list[i] == page);
        assert((v.fx.unmapped_pages + list)[k] == page);
    }
}

/// A capability is found by its identifier exactly if it is in use and carries it, and no other
/// capability is found by it.
pub proof fn law_capability_is_found_by_its_identifier(
    c: &CapabilitySpace,
    s: Slot,
    t: Slot,
    id: u64,
)
    requires
        c.wf(),
    ensures
        carries_id(c, s, id) <==> c.live(s) && c.node(s).capability_id == id,
        carries_id(c, s, id) && carries_id(c, t, id) ==> s == t,
        carries_id(c, s, id) ==> 0 < id < c.next_capability_id,
{
    if c.live(s) {
        assert(c.node_ok(s));
    }
    if c.live(s) && c.live(t) {
        law_identifiers_are_unique(c, s, t);
    }
}

/// A process gets a handle to an object exactly if it has a free entry and a number is left. The
/// handle is then to that object as it is now, with the rights and for the end given; otherwise
/// nothing changes.
pub proof fn law_handle_is_given_exactly_if_there_is_room(
    before: &KernelState,
    after: &KernelState,
    p: int,
    object_index: u16,
    rights: u16,
    endpoint: u8,
    r: Result<Handle, IpcError>,
)
    requires
        before.wf(),
        0 <= p < 16,
        entry_allocation(before, after, p, object_index as int, rights, endpoint, r),
    ensures
        r is Ok <==> has_room(&before.caps, p) && before.caps.next_capability_id
            < 0xFFFF_FFFF_FFFF_FFFF,
        r is Err ==> *after == *before,
        r == Err::<Handle, IpcError>(IpcError::HandleTableFull) <==> !has_room(&before.caps, p),
        r is Ok ==> {
            let s = Slot { p, h: handle_slot(r->Ok_0) };
            let e = after.caps.entry(s);
            &&& is_slot(s)
            &&& none_free_before(&before.caps, p, s.h)
            &&& !before.caps.live(s)
            &&& handle_gen(r->Ok_0) == e.handle_generation
            &&& e.occupied
            &&& e.object_index == object_index
            &&& e.object_generation == before.objs@.slots[object_index as int].generation
            &&& e.rights == rights
            &&& e.endpoint == endpoint
            &&& after.caps.node(s).derivation_depth == 0
            &&& parent_of(after.caps.node(s)) == no_slot()
            &&& after.caps.node(s).capability_id == before.caps.next_capability_id
            &&& after.caps.next_capability_id == before.caps.next_capability_id + 1
            &&& forall|t: Slot|
                is_slot(t) && t != s ==> (#[trigger] after.caps.entry(t)) == before.caps.entry(t)
        },
{
    if r is Ok {
        let h = handle_slot(r->Ok_0);
        assert(!before.caps.tables@[p].entries@[h].occupied);
    }
}

/// A process can derive a capability from one that it presents exactly if its handle is good, the
/// capability may be duplicated, has the rights asked for and is less than eight steps from its
/// root, the process has a free entry and a number is left. The new one is for the process itself.
pub proof fn law_process_derives_exactly_if_allowed(
    before: &KernelState,
    after: &KernelState,
    pid: u64,
    h: Handle,
    rights: u16,
    r: Result<Handle, IpcError>,
)
    requires
        before.wf(),
        deriving(before, after, pid, h, rights, r),
    ensures
        ({
            let src = Slot { p: process_slot_of(before, pid)->Ok_0, h: handle_slot(h) };
            let e = before.caps.entry(src);
            &&& r is Ok <==> {
                &&& process_slot_of(before, pid) is Ok
                &&& before.caps.live(src)
                &&& e.handle_generation == handle_gen(h)
                &&& may_duplicate(e.rights)
                &&& rights & e.rights == rights
                &&& before.caps.node(src).derivation_depth < 8
                &&& has_room(&before.caps, src.p)
                &&& before.caps.next_capability_id < 0xFFFF_FFFF_FFFF_FFFF
            }
            &&& r is Err ==> *after == *before
            &&& r is Ok ==> made_from(
                &before.caps,
                &after.caps,
                Slot { p: src.p, h: handle_slot(r->Ok_0) },
                src,
                rights,
            )
        }),
{
    law_process_is_found(before, pid);
    let src = Slot { p: process_slot_of(before, pid)->Ok_0, h: handle_slot(h) };
    if process_slot_of(before, pid) is Ok && before.caps.live(src) && before.caps.entry(
        src,
    ).handle_generation == handle_gen(h) {
        law_local_derivation_succeeds_exactly_if_allowed(before, after, src.p, src.h, rights, r);
    }
}

/// A duplicate has all the rights of what it was made of, and those alone, and can be made exactly
/// if the handle is good, the capability may be duplicated and is less than eight steps from its
/// root, the process has a free entry and a number is left.
pub proof fn law_duplicate_has_the_same_rights(
    before: &KernelState,
    after: &KernelState,
    pid: u64,
    h: Handle,
    r: Result<Handle, IpcError>,
)
    requires
        before.wf(),
        duplicating(before, after, pid, h, r),
    ensures
        ({
            let src = Slot { p: process_slot_of(before, pid)->Ok_0, h: handle_slot(h) };
            let e = before.caps.entry(src);
            &&& r is Ok <==> {
                &&& process_slot_of(before, pid) is Ok
                &&& before.caps.live(src)
                &&& e.handle_generation == handle_gen(h)
                &&& may_duplicate(e.rights)
                &&& before.caps.node(src).derivation_depth < 8
                &&& has_room(&before.caps, src.p)
                &&& before.caps.next_capability_id < 0xFFFF_FFFF_FFFF_FFFF
            }
            &&& r is Ok ==> after.caps.entry(Slot { p: src.p, h: handle_slot(r->Ok_0) }).rights
                == e.rights
        }),
{
    let src = Slot { p: process_slot_of(before, pid)->Ok_0, h: handle_slot(h) };
    let e = before.caps.entry(src);
    law_process_derives_exactly_if_allowed(before, after, pid, h, e.rights, r);
    cap_rights::law_rights_within_keeps_rights(e.rights, e.rights, e.rights);
    law_rights_within_is_inclusion(e.rights, e.rights);
}

} // verus!
