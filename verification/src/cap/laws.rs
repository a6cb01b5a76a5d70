//! What holds of the capabilities as a whole.
use crate::cap::node::{core_of, is_slot, no_slot, parent_of, CapabilitySpace, Slot};
use crate::cap::ops::{
    child_installed, derivation, derive_fault, handle_check, names_slot, root_installed,
};
use crate::cap::revoke::{
    derived_from, descendants, law_descendants, leads_to, slot_number, withdrawn,
};
use crate::cap::tree::{closed, idle_blanked, moved_to};
use crate::cap::types::cap_rights::{
    law_rights_within_is_transitive, law_rights_within_keeps_rights, rights_within,
};
use crate::cap::types::{
    MAX_CAPABILITY_NODES, MAX_DERIVATION_DEPTH, MAX_HANDLES_PER_PROCESS, MAX_PROCESSES,
};
use crate::ipc::handle::{handle_gen, handle_slot, Handle, HandleEntry};
use crate::ipc::object::KernelObjectType;
use crate::ipc::types::IpcError;
use crate::kernel::{
    all_entries, count_ends, ends_to, lemma_count_bounds, lemma_slot_number, points_to_end, refs_to,
    target_ok, KernelState,
};
use vstd::prelude::*;

verus! {

/// A capability has no right that its parent lacks, and stands for the same object and end.
pub open spec fn within_parent(c: &CapabilitySpace, k: Slot) -> bool {
    let p = parent_of(c.node(k));
    p != no_slot() ==> {
        &&& rights_within(c.entry(k).rights, c.entry(p).rights)
        &&& c.entry(k).object_index == c.entry(p).object_index
        &&& c.entry(k).object_generation == c.entry(p).object_generation
        &&& c.entry(k).endpoint == c.entry(p).endpoint
    }
}

/// Every capability in use is within its parent.
pub open spec fn attenuated(c: &CapabilitySpace) -> bool {
    forall|k: Slot| #[trigger] c.live(k) ==> within_parent(c, k)
}

/// A root capability keeps the capabilities attenuated.
pub proof fn law_root_keeps_attenuation(
    before: &CapabilitySpace,
    after: &CapabilitySpace,
    s: Slot,
    object_index: u16,
    object_generation: u16,
    rights: u16,
    endpoint: u8,
)
    requires
        before.wf(),
        after.wf(),
        attenuated(before),
        is_slot(s),
        !before.live(s),
        root_installed(
            before,
            after,
            s,
            object_index,
            object_generation,
            rights,
            endpoint,
        ),
    ensures
        attenuated(after),
{
    assert forall|k: Slot| #[trigger] after.live(k) implies within_parent(after, k) by {
        if k == s {
            assert(after.node_core(s).parent == no_slot());
        } else {
            assert(after.entry(k) == before.entry(k));
            lemma_same_parent(before, after, k);
            assert(before.live(k));
            assert(before.parent_ok(k));
            assert(within_parent(before, k));
        }
    }
}

/// What a node says of its parent is part of what it says of its capability.
proof fn lemma_same_parent(before: &CapabilitySpace, after: &CapabilitySpace, k: Slot)
    requires
        core_of(after.node(k)) == core_of(before.node(k)),
    ensures
        parent_of(after.node(k)) == parent_of(before.node(k)),
{
}

/// A capability derived with a subset of the parent's rights keeps the capabilities attenuated.
pub proof fn law_derivation_keeps_attenuation(
    before: &CapabilitySpace,
    after: &CapabilitySpace,
    s: Slot,
    par: Slot,
    rights: u16,
)
    requires
        before.wf(),
        after.wf(),
        attenuated(before),
        is_slot(s),
        !before.live(s),
        before.live(par),
        rights_within(rights, before.entry(par).rights),
        child_installed(before, after, s, par, rights),
    ensures
        attenuated(after),
        within_parent(after, s),
        parent_of(after.node(s)) == par,
{
    assert(after.node_core(s).parent == par);
    assert(after.entry(par) == before.entry(par));
    assert forall|k: Slot| #[trigger] after.live(k) implies within_parent(after, k) by {
        if k != s {
            assert(after.entry(k) == before.entry(k));
            lemma_same_parent(before, after, k);
            assert(before.live(k));
            assert(before.parent_ok(k));
            assert(within_parent(before, k));
        }
    }
}

/// Closing a capability keeps the capabilities attenuated: a child has no right that its
/// grandparent lacks.
pub proof fn law_closing_keeps_attenuation(
    before: &CapabilitySpace,
    after: &CapabilitySpace,
    s: Slot,
)
    requires
        before.wf(),
        after.wf(),
        attenuated(before),
        before.live(s),
        closed(before, after, s),
    ensures
        attenuated(after),
{
    let par = parent_of(before.node(s));
    assert(within_parent(before, s) && before.parent_ok(s));
    assert forall|k: Slot| #[trigger] after.live(k) implies within_parent(after, k) by {
        assert(k != s);
        assert(after.entry(k) == before.entry(k));
        assert(before.live(k));
        assert(before.parent_ok(k));
        assert(within_parent(before, k));
        assert(after.parent_ok(k));
        if before.kids(s).contains(k) {
            let i = choose|i: int| 0 <= i < before.kids(s).len() && before.kids(s)[i] == k;
            assert(before.kid_ok(s, before.kids(s)[i]));
            assert(core_of(after.node(k)).parent == par);
            if par != no_slot() {
                assert(par != s);
                law_rights_within_is_transitive(
                    before.entry(k).rights,
                    before.entry(s).rights,
                    before.entry(par).rights,
                );
            }
        } else {
            lemma_same_parent(before, after, k);
        }
    }
}

/// Moving a capability keeps the capabilities attenuated.
#[verifier::spinoff_prover]
#[verifier::rlimit(60)]
pub proof fn law_moving_keeps_attenuation(
    before: &CapabilitySpace,
    after: &CapabilitySpace,
    dst: Slot,
    src: Slot,
    id: u64,
)
    requires
        before.wf(),
        after.wf(),
        attenuated(before),
        before.live(src),
        is_slot(dst),
        !before.live(dst),
        moved_to(before, after, dst, src, id),
    ensures
        attenuated(after),
{
    let par = parent_of(before.node(src));
    assert(within_parent(before, src) && before.parent_ok(src));
    assert forall|k: Slot| #[trigger] after.live(k) implies within_parent(after, k) by {
        assert(after.parent_ok(k));
        if k == dst {
            assert(after.node_core(dst).parent == par);
            if par != no_slot() {
                assert(after.live(par));
                assert(par != src && par != dst);
            }
        } else {
            assert(k != src);
            assert(after.entry(k) == before.entry(k));
            assert(before.live(k));
            assert(before.parent_ok(k));
            assert(within_parent(before, k));
            if before.kids(src).contains(k) {
                let i = choose|i: int|
                    0 <= i < before.kids(src).len() && before.kids(src)[i] == k;
                assert(before.kid_ok(src, before.kids(src)[i]));
                assert(core_of(after.node(k)).parent == dst);
            } else {
                lemma_same_parent(before, after, k);
            }
        }
    }
}

/// Revocation keeps the capabilities attenuated.
pub proof fn law_revocation_keeps_attenuation(
    before: &CapabilitySpace,
    after: &CapabilitySpace,
    s: Slot,
)
    requires
        before.wf(),
        after.wf(),
        attenuated(before),
        is_slot(s),
        withdrawn(before, after, s),
    ensures
        attenuated(after),
{
    assert forall|k: Slot| #[trigger] after.live(k) implies within_parent(after, k) by {
        assert(after.parent_ok(k));
        assert(!descendants(before, s).contains(k));
        lemma_same_parent(before, after, k);
        assert(before.live(k) && within_parent(before, k));
        let p = parent_of(after.node(k));
        if p != no_slot() {
            assert(after.live(p));
            assert(!descendants(before, s).contains(p));
        }
    }
}

/// Clearing what a withdrawn capability left in a free slot keeps the capabilities attenuated.
pub proof fn law_clearing_keeps_attenuation(
    before: &CapabilitySpace,
    after: &CapabilitySpace,
    s: Slot,
)
    requires
        before.wf(),
        attenuated(before),
        !before.live(s),
        idle_blanked(before, after, s),
    ensures
        attenuated(after),
{
    assert forall|t: Slot| (#[trigger] after.entry(t)) == before.entry(t) by {}
    assert forall|k: Slot| #[trigger] after.live(k) implies within_parent(after, k) by {
        assert(before.live(k));
        assert(within_parent(before, k) && before.parent_ok(k));
        assert(after.node(k) == before.node(k));
    }
}

/// Going up the tree never loses a right.
proof fn lemma_ancestors_have_the_rights(c: &CapabilitySpace, k: Slot, s: Slot, n: nat)
    requires
        c.wf(),
        attenuated(c),
        c.live(k),
        leads_to(c, k, s, n),
    ensures
        c.live(s),
        rights_within(c.entry(k).rights, c.entry(s).rights),
        c.entry(k).object_index == c.entry(s).object_index,
        c.entry(k).object_generation == c.entry(s).object_generation,
        c.entry(k).endpoint == c.entry(s).endpoint,
    decreases n,
{
    let q = parent_of(c.node(k));
    assert(within_parent(c, k) && c.parent_ok(k));
    if q != s {
        lemma_ancestors_have_the_rights(c, q, s, (n - 1) as nat);
        law_rights_within_is_transitive(
            c.entry(k).rights,
            c.entry(q).rights,
            c.entry(s).rights,
        );
    }
}

/// No capability has a right that one it was derived from lacks, however far apart they are, and
/// both stand for the same object.
pub proof fn law_no_amplification(c: &CapabilitySpace, k: Slot, s: Slot)
    requires
        c.wf(),
        attenuated(c),
        derived_from(c, k, s),
    ensures
        rights_within(c.entry(k).rights, c.entry(s).rights),
        c.entry(k).object_index == c.entry(s).object_index,
        c.entry(k).object_generation == c.entry(s).object_generation,
        forall|right: u16|
            c.entry(k).rights & right == right ==> #[trigger] (c.entry(s).rights & right) == right,
{
    lemma_ancestors_have_the_rights(c, k, s, MAX_DERIVATION_DEPTH as nat);
    assert forall|right: u16| c.entry(k).rights & right == right implies #[trigger] (c.entry(
        s,
    ).rights & right) == right by {
        law_rights_within_keeps_rights(c.entry(k).rights, c.entry(s).rights, right);
    }
}

/// Revocation takes exactly what was derived: those capabilities are gone, whoever held them, and
/// every other one is as it was, the revoked one's own among them.
pub proof fn law_revocation_is_scoped(before: &CapabilitySpace, after: &CapabilitySpace, s: Slot)
    requires
        before.wf(),
        before.live(s),
        withdrawn(before, after, s),
    ensures
        forall|k: Slot| #[trigger]
            after.live(k) <==> before.live(k) && !derived_from(before, k, s),
        forall|k: Slot|
            is_slot(k) && !derived_from(before, k, s) ==> (#[trigger] after.entry(k))
                == before.entry(k) && core_of(after.node(k)) == core_of(before.node(k)),
        after.live(s),
        forall|k: Slot| !derived_from(after, k, s),
{
    law_descendants(before, s);
    assert forall|k: Slot| #[trigger] after.live(k) <==> before.live(k) && !derived_from(
        before,
        k,
        s,
    ) by {
        assert(descendants(before, s).contains(k) <==> derived_from(before, k, s));
        if is_slot(k) {
            assert(after.entry(k) == (if descendants(before, s).contains(k) {
                crate::cap::tree::freed_entry(before.entry(k))
            } else {
                before.entry(k)
            }));
        }
    }
    assert forall|k: Slot| is_slot(k) && !derived_from(before, k, s) implies (#[trigger] after.entry(
        k,
    )) == before.entry(k) && core_of(after.node(k)) == core_of(before.node(k)) by {
        assert(!descendants(before, s).contains(k));
    }
    if derived_from(before, s, s) {
        lemma_deeper_than_ancestors(before, s, s, MAX_DERIVATION_DEPTH as nat);
    }
    assert(after.live(s));
    assert forall|k: Slot| !derived_from(after, k, s) by {
        if derived_from(after, k, s) {
            assert(after.live(k));
            lemma_path_remains(before, after, s, k, MAX_DERIVATION_DEPTH as nat);
        }
    }
}

/// A capability lies deeper than one it was derived from.
proof fn lemma_deeper_than_ancestors(c: &CapabilitySpace, k: Slot, s: Slot, n: nat)
    requires
        c.wf(),
        c.live(k),
        leads_to(c, k, s, n),
    ensures
        c.live(s),
        c.node(s).derivation_depth < c.node(k).derivation_depth,
    decreases n,
{
    let q = parent_of(c.node(k));
    assert(c.parent_ok(k));
    let i = choose|i: int| 0 <= i < c.kids(q).len() && c.kids(q)[i] == k;
    assert(c.kid_ok(q, c.kids(q)[i]));
    if q != s {
        lemma_deeper_than_ancestors(c, q, s, (n - 1) as nat);
    }
}

/// A path that is left after a revocation was there before.
proof fn lemma_path_remains(
    before: &CapabilitySpace,
    after: &CapabilitySpace,
    s: Slot,
    k: Slot,
    n: nat,
)
    requires
        before.wf(),
        before.live(s),
        withdrawn(before, after, s),
        before.live(k),
        leads_to(after, k, s, n),
    ensures
        leads_to(before, k, s, n),
    decreases n,
{
    let q = parent_of(before.node(k));
    assert(core_of(after.node(k)).parent == q);
    assert(before.parent_ok(k));
    if q != s {
        lemma_path_remains(before, after, s, q, (n - 1) as nat);
    }
}

/// What a handle that a process presents is good for, said without the tables of objects: a
/// capability in use is never revoked, and its object is there.
pub proof fn law_handle_is_checked_completely(
    k: &KernelState,
    p: int,
    h: Handle,
    required_rights: u16,
)
    requires
        k.wf(),
        0 <= p < MAX_PROCESSES,
    ensures
        ({
            let s = Slot { p, h: handle_slot(h) };
            let e = k.caps.entry(s);
            handle_check(k, p, h, required_rights) is Ok <==> k.caps.live(s) && e.handle_generation
                == handle_gen(h) && e.rights & required_rights == required_rights
        }),
{
    let s = Slot { p, h: handle_slot(h) };
    if k.caps.live(s) {
        assert(k.caps.node_ok(s));
        assert(target_ok(&k.caps, k.objs@, s));
    }
}

/// A handle goes stale with its capability: once the entry was freed, a check of the handle fails
/// because of its generation.
pub proof fn law_freed_handle_is_stale(
    before: &KernelState,
    after: &KernelState,
    p: int,
    h: Handle,
    required_rights: u16,
)
    requires
        0 <= p < MAX_PROCESSES,
        handle_slot(h) < MAX_HANDLES_PER_PROCESS,
        names_slot(h, &before.caps, Slot { p, h: handle_slot(h) }),
        after.caps.entry(Slot { p, h: handle_slot(h) }) == crate::cap::tree::freed_entry(
            before.caps.entry(Slot { p, h: handle_slot(h) }),
        ),
    ensures
        handle_check(after, p, h, required_rights) == Err::<(int, u8, u16), IpcError>(
            IpcError::BadHandleGeneration,
        ),
{
}

/// A derived capability can be used at once, with the rights asked for and no others.
pub proof fn law_derived_handle_is_good(
    before: &KernelState,
    after: &KernelState,
    dst: Slot,
    par: Slot,
    rights: u16,
    r: Result<Handle, IpcError>,
    required_rights: u16,
)
    requires
        before.wf(),
        after.wf(),
        is_slot(dst),
        !before.caps.live(dst),
        before.caps.live(par),
        derive_fault(before, par, rights) is None,
        derivation(before, after, dst, par, rights, r),
    ensures
        r is Ok,
        handle_check(after, dst.p, r->Ok_0, required_rights) is Ok <==> rights & required_rights
            == required_rights,
{
    law_handle_is_checked_completely(after, dst.p, r->Ok_0, required_rights);
}

/// A move leaves everything that was derived from the capability below it, at its new place.
pub proof fn law_move_takes_descendants_along(
    before: &CapabilitySpace,
    after: &CapabilitySpace,
    dst: Slot,
    src: Slot,
    id: u64,
    k: Slot,
)
    requires
        before.wf(),
        after.wf(),
        before.live(src),
        is_slot(dst),
        !before.live(dst),
        moved_to(before, after, dst, src, id),
        derived_from(before, k, src),
    ensures
        derived_from(after, k, dst),
        after.entry(k) == before.entry(k),
{
    lemma_deeper_than_ancestors(before, k, src, MAX_DERIVATION_DEPTH as nat);
    lemma_path_moves(before, after, dst, src, id, k, MAX_DERIVATION_DEPTH as nat);
    assert(after.entry(k) == before.entry(k));
}

/// A path to a capability that was moved leads to its new place.
proof fn lemma_path_moves(
    before: &CapabilitySpace,
    after: &CapabilitySpace,
    dst: Slot,
    src: Slot,
    id: u64,
    k: Slot,
    n: nat,
)
    requires
        before.wf(),
        before.live(src),
        is_slot(dst),
        !before.live(dst),
        moved_to(before, after, dst, src, id),
        before.live(k),
        leads_to(before, k, src, n),
    ensures
        leads_to(after, k, dst, n),
    decreases n,
{
    let q = parent_of(before.node(k));
    lemma_deeper_than_ancestors(before, k, src, n);
    assert(before.parent_ok(k));
    if q == src {
        assert(before.kids(src).contains(k));
        assert(core_of(after.node(k)).parent == dst);
    } else {
        if before.kids(src).contains(k) {
            let i = choose|i: int| 0 <= i < before.kids(src).len() && before.kids(src)[i] == k;
            assert(before.kid_ok(src, before.kids(src)[i]));
        }
        assert(core_of(after.node(k)).parent == q);
        lemma_path_moves(before, after, dst, src, id, q, (n - 1) as nat);
    }
}

/// Closing a capability leaves what was derived from it in use: the direct children belong to
/// its parent, or become roots if it had none.
pub proof fn law_closing_keeps_children(
    before: &CapabilitySpace,
    after: &CapabilitySpace,
    s: Slot,
    k: Slot,
)
    requires
        before.wf(),
        before.live(s),
        closed(before, after, s),
        before.kids(s).contains(k),
    ensures
        after.live(k),
        after.entry(k) == before.entry(k),
        parent_of(after.node(k)) == parent_of(before.node(s)),
{
    let i = choose|i: int| 0 <= i < before.kids(s).len() && before.kids(s)[i] == k;
    assert(before.kid_ok(s, before.kids(s)[i]));
    assert(k != s);
    assert(after.entry(k) == before.entry(k));
    assert(core_of(after.node(k)).parent == parent_of(before.node(s)));
}

/// No two capabilities that are in use at the same time share an identifier, and no identifier is
/// handed out that one of them carries.
pub proof fn law_identifiers_are_unique(c: &CapabilitySpace, s: Slot, t: Slot)
    requires
        c.wf(),
        c.live(s),
        c.live(t),
    ensures
        c.node(s).capability_id == c.node(t).capability_id ==> s == t,
        c.node(s).capability_id < c.next_capability_id,
{
    assert(c.node_ok(s));
}

/// Every object counts the handles to it: the count is zero exactly if no capability stands for
/// the object.
pub proof fn law_objects_count_their_handles(k: &KernelState, i: int)
    requires
        k.wf(),
        0 <= i < crate::ipc::object::MAX_KERNEL_OBJECTS,
        k.objs@.slots[i].occupied,
    ensures
        k.objs@.slots[i].header.handle_refs == refs_to(&k.caps, i),
        forall|s: Slot|
            #[trigger] k.caps.live(s) && k.caps.entry(s).object_index == i
                ==> k.objs@.slots[i].header.handle_refs > 0,
{
    crate::kernel::lemma_refs_bounds(&k.caps, i);
}

/// Each end of a channel counts the handles to it: the count is zero exactly if no capability
/// stands for that end.
pub proof fn law_ends_count_their_handles(k: &KernelState, i: int, endpoint: u8)
    requires
        k.wf(),
        k.objs@.holds(i, KernelObjectType::Channel),
    ensures
        k.objs@.channel_of(i).mine(endpoint).handle_refs == ends_to(&k.caps, i, endpoint == 0),
        k.objs@.channel_of(i).mine(endpoint).handle_refs == 0 <==> forall|s: Slot|
            !(#[trigger] k.caps.live(s) && k.caps.entry(s).object_index == i && (k.caps.entry(
                s,
            ).endpoint == 0) == (endpoint == 0)),
{
    let first = endpoint == 0;
    let es = all_entries(&k.caps);
    assert(k.objs@.slots[i].occupied);
    lemma_count_bounds(es, i, MAX_CAPABILITY_NODES as int);
    assert forall|s: Slot|
        #[trigger] k.caps.live(s) && k.caps.entry(s).object_index == i && (k.caps.entry(s).endpoint
            == 0) == first implies ends_to(&k.caps, i, first) > 0 by {
        lemma_slot_number(&k.caps, s);
        let n = slot_number(s);
        assert(points_to_end(es[n], i, first) == 1);
        assert(points_to_end(es[n], i, first) <= count_ends(
            es,
            i,
            first,
            MAX_CAPABILITY_NODES as int,
        ));
    }
    if ends_to(&k.caps, i, first) > 0 {
        let n = lemma_some_end(es, i, first, MAX_CAPABILITY_NODES as int);
        let s = Slot { p: n / 32, h: n % 32 };
        assert(is_slot(s));
        assert(k.caps.live(s));
    }
}

/// A count above zero comes from some entry.
proof fn lemma_some_end(es: Seq<HandleEntry>, o: int, first: bool, n: int) -> (i: int)
    requires
        count_ends(es, o, first, n) > 0,
    ensures
        0 <= i < n,
        points_to_end(es[i], o, first) == 1,
    decreases n,
{
    if points_to_end(es[n - 1], o, first) == 1 {
        n - 1
    } else {
        lemma_some_end(es, o, first, n - 1)
    }
}

} // verus!
