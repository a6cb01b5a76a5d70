//! What becomes of the capabilities and mappings of a process that ends.
use crate::cap::laws::law_clearing_keeps_attenuation;
use crate::cap::node::{core_of, first_of, is_slot, no_slot, slot_at, CapabilitySpace, Slot};
use crate::cap::ops::{close_and_reclaim_capability_locked, close_outcome};
use crate::cap::tree::{closed, idle_blanked, lemma_idle_is_unlinked, occupied_count};
use crate::cap::types::{MAX_HANDLES_PER_PROCESS, MAX_PROCESSES};
use crate::ipc::object::{blank_header, MAX_KERNEL_OBJECTS};
use crate::ipc::shm::{ShmMapping, MAX_SHM_MAPPINGS, MAX_SHM_PAGES};
use crate::ipc::space::{check_and_reclaim_shm_locked, Effects, ObjectSpace, World};
use crate::kernel::{
    all_entries, lemma_mapping_changed, lemma_mapping_pins, lemma_pins_kept, lemma_refs_as_list,
    lemma_shrunk_keeps_entries, mapping_ok, slot_shrunk, slots_shrunk, KernelState,
};
use vstd::prelude::*;

verus! {

/// The addresses of the first `n` pages of a mapping.
pub open spec fn mapping_pages(m: ShmMapping, n: int) -> Seq<u64> {
    Seq::new(n as nat, |i: int| (m.virtual_base + i * 4096) as u64)
}

/// A mapping of a process goes: its pages are unmapped, and an object without references goes.
pub open spec fn mapping_removed(w: World, m: ShmMapping) -> World {
    let fx = w.fx.unmapping(mapping_pages(m, m.page_count as int));
    (World { objs: w.objs.mapping_gone(m.object_index as int), fx }).reclaim_shm(
        m.object_index as int,
    )
}

/// The mappings of a process among the first `n` go.
pub open spec fn mappings_removed(
    w: World,
    mappings: Seq<ShmMapping>,
    pid: u64,
    n: int,
) -> World
    decreases n,
{
    if n <= 0 {
        w
    } else {
        let v = mappings_removed(w, mappings, pid, n - 1);
        let m = mappings[n - 1];
        if m.occupied && m.process_id == pid {
            mapping_removed(v, m)
        } else {
            v
        }
    }
}

/// The mapping `m` after the process with an identifier is gone.
pub open spec fn mapping_after_exit(m: ShmMapping, pid: u64) -> ShmMapping {
    if m.occupied && m.process_id == pid {
        ShmMapping { occupied: false, ..m }
    } else {
        m
    }
}

impl ObjectSpace {
    /// Counts one mapping of an object off.
    pub(crate) fn drop_mapping(&mut self, i: usize)
        requires
            old(self).wf(),
            i < MAX_KERNEL_OBJECTS,
        ensures
            final(self).wf(),
            final(self)@ == old(self)@.mapping_gone(i as int),
    {
        assert(self@.slot_ok(i as int));
        let mut header = self.objects.slots[i].header;
        if self.objects.slots[i].occupied {
            header.mapping_refs = header.mapping_refs.saturating_sub(1);
            self.set_header(i, header);
        } else {
            assert(self@.slots[i as int].header == blank_header());
            assert(self@.mapping_gone(i as int).slots =~= self@.slots);
            assert(self@ =~= self@.mapping_gone(i as int));
        }
    }
}

/// Removing a mapping shrinks the table at most.
proof fn lemma_mapping_removed_shrinks(w: World, m: ShmMapping)
    requires
        w.objs.wf(),
        m.object_index < MAX_KERNEL_OBJECTS,
    ensures
        slots_shrunk(w.objs, mapping_removed(w, m).objs),
{
    let o = w.objs;
    let n = mapping_removed(w, m).objs;
    assert forall|j: int| 0 <= j < MAX_KERNEL_OBJECTS implies #[trigger] slot_shrunk(o, n, j) by {
        assert(o.slot_ok(j));
    }
}

/// Lists the pages of a mapping as to be unmapped.
fn list_pages(m: &ShmMapping, fx: &mut Effects)
    requires
        mapping_ok(*m),
        m.occupied,
    ensures
        final(fx)@ == old(fx)@.unmapping(mapping_pages(*m, m.page_count as int)),
{
    let mut i: usize = 0;
    assert(fx@ =~= old(fx)@.unmapping(mapping_pages(*m, 0)));
    while i < m.page_count
        invariant
            i <= m.page_count <= MAX_SHM_PAGES,
            m.virtual_base < 0x0000_8000_0000_0000,
            fx@ == old(fx)@.unmapping(mapping_pages(*m, i as int)),
        decreases m.page_count - i,
    {
        fx.unmapped_pages.push(m.virtual_base + (i as u64) * 4096);
        assert(mapping_pages(*m, i + 1) =~= mapping_pages(*m, i as int).push(
            (m.virtual_base + i * 4096) as u64,
        ));
        assert(fx@ =~= old(fx)@.unmapping(mapping_pages(*m, i + 1)));
        i = i + 1;
    }
}

/// Removes one mapping of a kernel.
pub(crate) fn remove_mapping(k: &mut KernelState, i: usize, fx: &mut Effects)
    requires
        old(k).wf(),
        i < MAX_SHM_MAPPINGS,
        old(k).mappings@[i as int].occupied,
    ensures
        final(k).wf(),
        final(k).caps == old(k).caps,
        final(k).threads == old(k).threads,
        final(k).processes == old(k).processes,
        final(k).mappings@ == old(k).mappings@.update(
            i as int,
            ShmMapping { occupied: false, ..old(k).mappings@[i as int] },
        ),
        final(k).world(final(fx)) == mapping_removed(
            old(k).world(old(fx)),
            old(k).mappings@[i as int],
        ),
{
    let m = k.mappings[i];
    assert(mapping_ok(k.mappings@[i as int]));
    let ghost w = k.world(fx);
    proof {
        lemma_refs_as_list(&k.caps, k.objs@);
        lemma_mapping_removed_shrinks(w, m);
        lemma_shrunk_keeps_entries(all_entries(&k.caps), k.objs@, mapping_removed(w, m).objs);
    }
    list_pages(&m, fx);
    k.mappings[i].occupied = false;
    k.objs.drop_mapping(m.object_index as usize);
    proof {
        lemma_mapping_pins(old(k).threads@, old(k).mappings@, old(k).objs@, i as int);
        lemma_mapping_changed(
            old(k).threads@,
            old(k).mappings@,
            old(k).objs@,
            k.objs@,
            i as int,
            ShmMapping { occupied: false, ..m },
        );
        assert(k.mappings@ =~= old(k).mappings@.update(
            i as int,
            ShmMapping { occupied: false, ..m },
        ));
    }
    let ghost dropped = k.objs@;
    check_and_reclaim_shm_locked(&mut k.objs, m.object_index as usize, fx);
    proof {
        lemma_refs_as_list(&k.caps, k.objs@);
        lemma_pins_kept(k.threads@, k.mappings@, dropped, k.objs@);
        assert forall|j: int| 0 <= j < MAX_SHM_MAPPINGS implies mapping_ok(
            #[trigger] k.mappings@[j],
        ) by {
            assert(mapping_ok(old(k).mappings@[j]));
        }
    }
}

/// Removes all mappings of a process.
fn remove_mappings_of(k: &mut KernelState, pid: u64, fx: &mut Effects)
    requires
        old(k).wf(),
    ensures
        final(k).wf(),
        final(k).caps == old(k).caps,
        final(k).threads == old(k).threads,
        final(k).processes == old(k).processes,
        forall|i: int|
            0 <= i < MAX_SHM_MAPPINGS ==> (#[trigger] final(k).mappings@[i]) == mapping_after_exit(
                old(k).mappings@[i],
                pid,
            ),
        final(k).world(final(fx)) == mappings_removed(
            old(k).world(old(fx)),
            old(k).mappings@,
            pid,
            MAX_SHM_MAPPINGS as int,
        ),
{
    let mut i: usize = 0;
    while i < MAX_SHM_MAPPINGS
        invariant
            i <= MAX_SHM_MAPPINGS,
            k.wf(),
            k.caps == old(k).caps,
            k.threads == old(k).threads,
            k.processes == old(k).processes,
            forall|j: int|
                0 <= j < MAX_SHM_MAPPINGS ==> (#[trigger] k.mappings@[j]) == (if j < i {
                    mapping_after_exit(old(k).mappings@[j], pid)
                } else {
                    old(k).mappings@[j]
                }),
            k.world(fx) == mappings_removed(
                old(k).world(old(fx)),
                old(k).mappings@,
                pid,
                i as int,
            ),
        decreases MAX_SHM_MAPPINGS - i,
    {
        assert(k.mappings@[i as int] == old(k).mappings@[i as int]);
        if k.mappings[i].occupied && k.mappings[i].process_id == pid {
            remove_mapping(k, i, fx);
        }
        i = i + 1;
    }
}

/// A kernel together with what is to be done outside.
pub struct Stage {
    pub k: KernelState,
    pub fx: Effects,
}

/// The capabilities of a process in its first `n` slots were closed one after the other.
pub open spec fn closed_up_to(start: Stage, now: Stage, p: int, n: int) -> bool
    decreases n,
{
    if n <= 0 {
        now == start
    } else {
        exists|mid: Stage|
            closed_up_to(start, mid, p, n - 1) && #[trigger] close_step(mid, now, p, n - 1)
    }
}

/// The capability in one slot, if there is one, was closed. What a withdrawn capability left in a
/// free slot was cleared away.
pub open spec fn close_step(before: Stage, after: Stage, p: int, h: int) -> bool {
    if before.k.caps.live(Slot { p, h }) {
        &&& close_outcome(&before.k, &after.k, &before.fx, &after.fx, Slot { p, h }, Ok(()))
        &&& after.k.same_rest(&before.k)
    } else {
        &&& idle_blanked(&before.k.caps, &after.k.caps, Slot { p, h })
        &&& after.k.objs == before.k.objs
        &&& after.fx == before.fx
        &&& after.k.same_rest(&before.k)
    }
}

/// No capability of a process is left.
pub open spec fn nothing_left(c: &CapabilitySpace, p: int) -> bool {
    &&& c.tables@[p].count == 0
    &&& forall|h: int|
        0 <= h < MAX_HANDLES_PER_PROCESS ==> !(#[trigger] c.tables@[p].entries@[h]).occupied
    &&& forall|h: int|
        0 <= h < MAX_HANDLES_PER_PROCESS ==> (#[trigger] c.nodes@[p]@[h]).capability_id == 0
            && first_of(c.nodes@[p]@[h]) == no_slot()
}

/// A table without occupied entries counts none.
proof fn lemma_count_none(c: &CapabilitySpace, p: int, n: int)
    requires
        0 <= n <= MAX_HANDLES_PER_PROCESS,
        forall|h: int|
            0 <= h < MAX_HANDLES_PER_PROCESS ==> !(#[trigger] c.tables@[p].entries@[h]).occupied,
    ensures
        occupied_count(c.tables@[p].entries@, n) == 0,
    decreases n,
{
    if n > 0 {
        lemma_count_none(c, p, n - 1);
        assert(!c.tables@[p].entries@[n - 1].occupied);
    }
}

/// Removes the mappings of a process that ends and closes its capabilities. Capabilities that
/// others derived from them stay; no entry of another process changes.
pub fn process_exit_capability_cleanup_locked(
    k: &mut KernelState,
    process_slot: usize,
    pid: u64,
    fx: &mut Effects,
)
    requires
        old(k).wf(),
        process_slot < MAX_PROCESSES,
    ensures
        final(k).wf(),
        final(k).threads == old(k).threads,
        final(k).processes == old(k).processes,
        nothing_left(&final(k).caps, process_slot as int),
        forall|i: int|
            0 <= i < MAX_SHM_MAPPINGS ==> (#[trigger] final(k).mappings@[i]) == mapping_after_exit(
                old(k).mappings@[i],
                pid,
            ),
        forall|s: Slot|
            is_slot(s) && s.p != process_slot ==> (#[trigger] final(k).caps.entry(s)) == old(
                k,
            ).caps.entry(s),
        exists|mid: Stage|
            {
                &&& mid.k.caps == old(k).caps
                &&& mid.k.same_rest(final(k))
                &&& mid.k.world(&mid.fx) == mappings_removed(
                    old(k).world(old(fx)),
                    old(k).mappings@,
                    pid,
                    MAX_SHM_MAPPINGS as int,
                )
                &&& #[trigger] closed_up_to(
                    mid,
                    (Stage { k: *final(k), fx: *final(fx) }),
                    process_slot as int,
                    MAX_HANDLES_PER_PROCESS as int,
                )
            },
{
    let ghost c0 = k.caps;
    remove_mappings_of(k, pid, fx);
    let ghost mid = Stage { k: *k, fx: *fx };
    let mut h: usize = 0;
    assert(closed_up_to(mid, Stage { k: *k, fx: *fx }, process_slot as int, 0));
    while h < MAX_HANDLES_PER_PROCESS
        invariant
            process_slot < MAX_PROCESSES,
            h <= MAX_HANDLES_PER_PROCESS,
            k.wf(),
            k.same_rest(&mid.k),
            mid.k.caps == c0,
            closed_up_to(mid, (Stage { k: *k, fx: *fx }), process_slot as int, h as int),
            forall|s: Slot|
                is_slot(s) && s.p == process_slot && s.h < h ==> !(#[trigger] k.caps.entry(
                    s,
                )).occupied,
            forall|s: Slot|
                is_slot(s) && s.p == process_slot && s.h < h ==> (#[trigger] k.caps.node(
                    s,
                )).capability_id == 0,
            forall|s: Slot|
                is_slot(s) && s.p != process_slot ==> (#[trigger] k.caps.entry(s)) == c0.entry(s),
        decreases MAX_HANDLES_PER_PROCESS - h,
    {
        let ghost s = slot_at(process_slot, h);
        let ghost at = Stage { k: *k, fx: *fx };
        assert(s == Slot { p: process_slot as int, h: h as int });
        if k.caps.tables[process_slot].entries[h].occupied {
            assert(k.caps.live(s));
            let r = close_and_reclaim_capability_locked(k, process_slot, h, fx);
            proof {
                assert(closed(&at.k.caps, &k.caps, s));
                assert forall|t: Slot|
                    is_slot(t) && t.p == process_slot && t.h < h + 1 implies (
                #[trigger] k.caps.node(t)).capability_id == 0 by {
                    if t != s {
                        assert(k.caps.entry(t) == at.k.caps.entry(t));
                        assert(!at.k.caps.entry(t).occupied);
                        assert(!at.k.caps.live(t));
                        lemma_idle_is_unlinked(&at.k.caps, t, s);
                        assert(core_of(k.caps.node(t)) == core_of(at.k.caps.node(t)));
                        assert(at.k.caps.node(t).capability_id == 0);
                    }
                }
            }
        } else {
            assert(!k.caps.live(s));
            k.caps.blank_idle(process_slot, h);
            proof {
                lemma_refs_as_list(&at.k.caps, k.objs@);
                lemma_refs_as_list(&k.caps, k.objs@);
                assert(all_entries(&k.caps) =~= all_entries(&at.k.caps));
                assert forall|t: Slot| (#[trigger] k.caps.entry(t)) == at.k.caps.entry(t) by {}
                law_clearing_keeps_attenuation(&at.k.caps, &k.caps, s);
                assert forall|t: Slot|
                    is_slot(t) && t.p == process_slot && t.h < h + 1 implies (
                #[trigger] k.caps.node(t)).capability_id == 0 by {
                    if t != s {
                        assert(k.caps.node(t) == at.k.caps.node(t));
                    }
                }
            }
        }
        proof {
            let now = Stage { k: *k, fx: *fx };
            let n = h + 1;
            assert(close_step(at, now, process_slot as int, n - 1));
            assert(closed_up_to(mid, now, process_slot as int, n));
        }
        h = h + 1;
    }
    proof {
        let c = k.caps;
        let p = process_slot as int;
        assert forall|g: int| 0 <= g < MAX_HANDLES_PER_PROCESS implies !(
        #[trigger] c.tables@[p].entries@[g]).occupied by {
            assert(!c.entry(Slot { p, h: g }).occupied);
        }
        assert forall|g: int| 0 <= g < MAX_HANDLES_PER_PROCESS implies (
        #[trigger] c.nodes@[p]@[g]).capability_id == 0 && first_of(c.nodes@[p]@[g])
            == no_slot() by {
            let s = Slot { p, h: g };
            assert(!c.entry(s).occupied);
            assert(c.node(s).capability_id == 0);
            assert(c.kids(s).len() == 0);
            assert(c.chain(s, c.kids(s)));
        }
        lemma_count_none(&c, p, MAX_HANDLES_PER_PROCESS as int);
        assert(c.tables@[p].count == occupied_count(
            c.tables@[p].entries@,
            MAX_HANDLES_PER_PROCESS as int,
        ));
    }
}

} // verus!
