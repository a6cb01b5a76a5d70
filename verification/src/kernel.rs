//! The state that the capability system and the objects share, and what ties the two together.
use crate::cap::laws::attenuated;
use crate::cap::node::{is_slot, CapabilitySpace, Slot};
use crate::cap::types::{CapabilityNode, MAX_CAPABILITY_NODES, MAX_HANDLES_PER_PROCESS};
use crate::ipc::handle::{HandleEntry, HandleTable};
use crate::ipc::channel::{blank_channel, MAX_CHANNELS};
use crate::ipc::object::{unused_slot, KernelObjectType, MAX_KERNEL_OBJECTS};
use crate::ipc::shm::{
    blank_shm, ShmMapping, MAX_SHM_MAPPINGS, MAX_SHM_OBJECTS, MAX_SHM_PAGES,
};
use crate::ipc::space::{Effects, ObjectSpace, ObjectsView, World};
use crate::process::{ProcessRecord, MAX_PROCESSES};
use vstd::prelude::*;

verus! {

/// The operation that a thread has in progress, if any.
#[derive(Debug, Clone, Copy, PartialEq, Eq, Structural)]
pub struct ThreadIpcState {
    pub occupied: bool,
    pub _pad: u8,
    pub object_index: u16,
}

/// All tables of the capability system and the objects.
pub struct KernelState {
    pub caps: CapabilitySpace,
    pub objs: ObjectSpace,
    pub mappings: [ShmMapping; MAX_SHM_MAPPINGS],
    pub threads: Vec<ThreadIpcState>,
    pub processes: [ProcessRecord; MAX_PROCESSES],
}

/// All entries of all tables in one list.
pub open spec fn all_entries(c: &CapabilitySpace) -> Seq<HandleEntry> {
    Seq::new(
        MAX_CAPABILITY_NODES as nat,
        |i: int|
            c.entry(Slot { p: i / MAX_HANDLES_PER_PROCESS as int, h: i % MAX_HANDLES_PER_PROCESS as int }),
    )
}

/// An entry that is in use and refers to an object counts one.
pub open spec fn points_to(e: HandleEntry, o: int) -> int {
    if e.occupied && e.object_index == o {
        1
    } else {
        0
    }
}

/// How many of the first `n` entries refer to an object.
pub open spec fn count_refs(es: Seq<HandleEntry>, o: int, n: int) -> int
    decreases n,
{
    if n <= 0 {
        0
    } else {
        count_refs(es, o, n - 1) + points_to(es[n - 1], o)
    }
}

/// An entry that is in use and refers to one end of an object counts one. Every number but 0
/// means the second end.
pub open spec fn points_to_end(e: HandleEntry, o: int, first: bool) -> int {
    if e.occupied && e.object_index == o && (e.endpoint == 0) == first {
        1
    } else {
        0
    }
}

/// How many of the first `n` entries refer to one end of an object.
pub open spec fn count_ends(es: Seq<HandleEntry>, o: int, first: bool, n: int) -> int
    decreases n,
{
    if n <= 0 {
        0
    } else {
        count_ends(es, o, first, n - 1) + points_to_end(es[n - 1], o, first)
    }
}

/// How many handles refer to one end of an object.
pub open spec fn ends_to(c: &CapabilitySpace, o: int, first: bool) -> int {
    count_ends(all_entries(c), o, first, MAX_CAPABILITY_NODES as int)
}

/// Each end of the channel of an object counts so many handles.
pub open spec fn ends_counted(o: ObjectsView, i: int, first: int, second: int) -> bool {
    &&& o.channel_of(i).endpoint_0.handle_refs == first
    &&& o.channel_of(i).endpoint_1.handle_refs == second
}

/// How many handles refer to an object.
pub open spec fn refs_to(c: &CapabilitySpace, o: int) -> int {
    count_refs(all_entries(c), o, MAX_CAPABILITY_NODES as int)
}

/// A capability in use refers to an object in use, of the same generation.
pub open spec fn target_ok(c: &CapabilitySpace, o: ObjectsView, s: Slot) -> bool {
    let e = c.entry(s);
    &&& e.object_index < MAX_KERNEL_OBJECTS
    &&& o.slots[e.object_index as int].occupied
    &&& o.slots[e.object_index as int].generation == e.object_generation
}

/// The capabilities refer to objects in use, every object counts the handles that refer to it,
/// and each end of a channel counts the handles that refer to that end.
pub open spec fn refs_ok(c: &CapabilitySpace, o: ObjectsView) -> bool {
    &&& forall|s: Slot| #[trigger] c.live(s) ==> target_ok(c, o, s)
    &&& forall|i: int|
        0 <= i < MAX_KERNEL_OBJECTS && (#[trigger] o.slots[i]).occupied
            ==> o.slots[i].header.handle_refs == refs_to(c, i)
    &&& forall|i: int|
        0 <= i < MAX_KERNEL_OBJECTS && (#[trigger] o.slots[i]).occupied && o.slots[i].obj_type
            == KernelObjectType::Channel ==> ends_counted(
            o,
            i,
            ends_to(c, i, true),
            ends_to(c, i, false),
        )
}

/// A mapping names a slot of the object table and a range of user pages.
pub open spec fn mapping_ok(m: ShmMapping) -> bool {
    m.occupied ==> {
        &&& m.object_index < MAX_KERNEL_OBJECTS
        &&& m.page_count <= MAX_SHM_PAGES
        &&& m.virtual_base < 0x0000_8000_0000_0000
    }
}

/// How many of the first `n` threads have an operation on an object in progress.
pub open spec fn count_ops(threads: Seq<ThreadIpcState>, o: int, n: int) -> int
    decreases n,
{
    if n <= 0 {
        0
    } else {
        count_ops(threads, o, n - 1) + (if threads[n - 1].occupied && threads[n - 1].object_index
            == o {
            1int
        } else {
            0int
        })
    }
}

/// How many of the first `n` mappings are mappings of an object.
pub open spec fn count_mappings(mappings: Seq<ShmMapping>, o: int, n: int) -> int
    decreases n,
{
    if n <= 0 {
        0
    } else {
        count_mappings(mappings, o, n - 1) + (if mappings[n - 1].occupied && mappings[n
            - 1].object_index == o {
            1int
        } else {
            0int
        })
    }
}

/// How many threads have an operation on an object in progress.
pub open spec fn ops_on(threads: Seq<ThreadIpcState>, o: int) -> int {
    count_ops(threads, o, threads.len() as int)
}

/// How many mappings of an object there are.
pub open spec fn mappings_of(mappings: Seq<ShmMapping>, o: int) -> int {
    count_mappings(mappings, o, mappings.len() as int)
}

/// Threads have operations in progress on channels, and mappings are mappings of shared memory.
/// Every object counts the operations and the mappings that there are of it, so none goes while
/// there is one.
#[verifier::opaque]
pub open spec fn pins_ok(
    threads: Seq<ThreadIpcState>,
    mappings: Seq<ShmMapping>,
    o: ObjectsView,
) -> bool {
    &&& threads.len() <= u16::MAX
    &&& forall|t: int|
        0 <= t < threads.len() && (#[trigger] threads[t]).occupied ==> o.holds(
            threads[t].object_index as int,
            KernelObjectType::Channel,
        )
    &&& forall|m: int|
        0 <= m < mappings.len() && (#[trigger] mappings[m]).occupied ==> o.holds(
            mappings[m].object_index as int,
            KernelObjectType::ShmObject,
        )
    &&& forall|i: int|
        0 <= i < MAX_KERNEL_OBJECTS ==> (#[trigger] o.slots[i]).header.in_flight_op_refs == ops_on(
            threads,
            i,
        ) && o.slots[i].header.mapping_refs == mappings_of(mappings, i)
}

/// The object in a slot counts the same operations and mappings, and is still there if there are
/// any.
pub open spec fn slot_pins_kept(o: ObjectsView, n: ObjectsView, j: int) -> bool {
    let s = o.slots[j];
    let t = n.slots[j];
    &&& t.header.in_flight_op_refs == s.header.in_flight_op_refs
    &&& t.header.mapping_refs == s.header.mapping_refs
    &&& s.header.in_flight_op_refs > 0 || s.header.mapping_refs > 0 ==> t.occupied == s.occupied
        && t.obj_type == s.obj_type
}

/// All objects count the same operations and mappings.
pub open spec fn pins_kept(o: ObjectsView, n: ObjectsView) -> bool {
    forall|j: int| 0 <= j < MAX_KERNEL_OBJECTS ==> #[trigger] slot_pins_kept(o, n, j)
}

/// Changing one thread changes the count by that thread.
pub proof fn lemma_count_ops_update(
    threads: Seq<ThreadIpcState>,
    k: int,
    t: ThreadIpcState,
    o: int,
    n: int,
)
    requires
        0 <= k < threads.len(),
        n <= threads.len(),
    ensures
        count_ops(threads.update(k, t), o, n) == count_ops(threads, o, n) + (if k < n {
            (if t.occupied && t.object_index == o {
                1int
            } else {
                0int
            }) - (if threads[k].occupied && threads[k].object_index == o {
                1int
            } else {
                0int
            })
        } else {
            0
        }),
    decreases n,
{
    if n > 0 {
        lemma_count_ops_update(threads, k, t, o, n - 1);
    }
}

/// Changing one mapping changes the count by that mapping.
pub proof fn lemma_count_mappings_update(
    mappings: Seq<ShmMapping>,
    k: int,
    m: ShmMapping,
    o: int,
    n: int,
)
    requires
        0 <= k < mappings.len(),
        n <= mappings.len(),
    ensures
        count_mappings(mappings.update(k, m), o, n) == count_mappings(mappings, o, n) + (if k < n {
            (if m.occupied && m.object_index == o {
                1int
            } else {
                0int
            }) - (if mappings[k].occupied && mappings[k].object_index == o {
                1int
            } else {
                0int
            })
        } else {
            0
        }),
    decreases n,
{
    if n > 0 {
        lemma_count_mappings_update(mappings, k, m, o, n - 1);
    }
}

/// No more threads have an operation on an object in progress than there are, fewer if one has
/// none on it, and at least one if some has.
pub proof fn lemma_count_ops_bounds(threads: Seq<ThreadIpcState>, o: int, n: int)
    requires
        0 <= n <= threads.len(),
    ensures
        0 <= count_ops(threads, o, n) <= n,
        forall|k: int|
            0 <= k < n && !((#[trigger] threads[k]).occupied && threads[k].object_index == o)
                ==> count_ops(threads, o, n) < n,
        forall|k: int|
            0 <= k < n && (#[trigger] threads[k]).occupied && threads[k].object_index == o
                ==> count_ops(threads, o, n) > 0,
    decreases n,
{
    if n > 0 {
        lemma_count_ops_bounds(threads, o, n - 1);
    }
}

/// There are no more mappings of an object than there are mappings, fewer if one is none of it, and
/// at least one if some is.
pub proof fn lemma_count_mappings_bounds(mappings: Seq<ShmMapping>, o: int, n: int)
    requires
        0 <= n <= mappings.len(),
    ensures
        0 <= count_mappings(mappings, o, n) <= n,
        forall|k: int|
            0 <= k < n && !((#[trigger] mappings[k]).occupied && mappings[k].object_index == o)
                ==> count_mappings(mappings, o, n) < n,
        forall|k: int|
            0 <= k < n && (#[trigger] mappings[k]).occupied && mappings[k].object_index == o
                ==> count_mappings(mappings, o, n) > 0,
    decreases n,
{
    if n > 0 {
        lemma_count_mappings_bounds(mappings, o, n - 1);
    }
}

/// The objects are the same, and one of them counts other operations and mappings.
pub open spec fn repinned(o: ObjectsView, n: ObjectsView, i: int, ops: int, maps: int) -> bool {
    &&& n.slots[i].header.in_flight_op_refs == o.slots[i].header.in_flight_op_refs + ops
    &&& n.slots[i].header.mapping_refs == o.slots[i].header.mapping_refs + maps
    &&& forall|j: int|
        0 <= j < MAX_KERNEL_OBJECTS ==> (#[trigger] n.slots[j]).occupied == o.slots[j].occupied
            && n.slots[j].obj_type == o.slots[j].obj_type && (j != i
            ==> n.slots[j].header.in_flight_op_refs == o.slots[j].header.in_flight_op_refs
            && n.slots[j].header.mapping_refs == o.slots[j].header.mapping_refs)
}

/// An object has room to count the operation of a thread that has none in progress.
pub proof fn lemma_room_for_op(
    threads: Seq<ThreadIpcState>,
    mappings: Seq<ShmMapping>,
    o: ObjectsView,
    t: int,
    i: int,
)
    requires
        pins_ok(threads, mappings, o),
        0 <= t < threads.len(),
        !threads[t].occupied,
        0 <= i < MAX_KERNEL_OBJECTS,
    ensures
        o.slots[i].header.in_flight_op_refs < u16::MAX,
{
    reveal(pins_ok);
    lemma_count_ops_bounds(threads, i, threads.len() as int);
    assert(o.slots[i].header.in_flight_op_refs == ops_on(threads, i));
}

/// An object has room to count a mapping that there is a place for.
pub proof fn lemma_room_for_mapping(
    threads: Seq<ThreadIpcState>,
    mappings: Seq<ShmMapping>,
    o: ObjectsView,
    i: int,
)
    requires
        pins_ok(threads, mappings, o),
        mappings.len() < u16::MAX,
        0 <= i < MAX_KERNEL_OBJECTS,
    ensures
        o.slots[i].header.mapping_refs < u16::MAX,
{
    reveal(pins_ok);
    lemma_count_mappings_bounds(mappings, i, mappings.len() as int);
    assert(o.slots[i].header.mapping_refs == mappings_of(mappings, i));
}

/// The operation that a thread has in progress is one on a channel, which counts it.
pub proof fn lemma_op_pins(
    threads: Seq<ThreadIpcState>,
    mappings: Seq<ShmMapping>,
    o: ObjectsView,
    t: int,
)
    requires
        pins_ok(threads, mappings, o),
        0 <= t < threads.len(),
        threads[t].occupied,
    ensures
        o.holds(threads[t].object_index as int, KernelObjectType::Channel),
        o.slots[threads[t].object_index as int].header.in_flight_op_refs > 0,
{
    reveal(pins_ok);
    let i = threads[t].object_index as int;
    lemma_count_ops_bounds(threads, i, threads.len() as int);
    assert(o.slots[i].header.in_flight_op_refs == ops_on(threads, i));
}

/// A mapping is one of shared memory, which counts it.
pub proof fn lemma_mapping_pins(
    threads: Seq<ThreadIpcState>,
    mappings: Seq<ShmMapping>,
    o: ObjectsView,
    m: int,
)
    requires
        pins_ok(threads, mappings, o),
        0 <= m < mappings.len(),
        mappings[m].occupied,
    ensures
        o.holds(mappings[m].object_index as int, KernelObjectType::ShmObject),
        o.slots[mappings[m].object_index as int].header.mapping_refs > 0,
{
    reveal(pins_ok);
    let i = mappings[m].object_index as int;
    lemma_count_mappings_bounds(mappings, i, mappings.len() as int);
    assert(o.slots[i].header.mapping_refs == mappings_of(mappings, i));
}

/// A thread that begins an operation or ends one is counted on or off.
pub proof fn lemma_thread_changed(
    threads: Seq<ThreadIpcState>,
    mappings: Seq<ShmMapping>,
    o: ObjectsView,
    n: ObjectsView,
    t: int,
    now: ThreadIpcState,
)
    requires
        pins_ok(threads, mappings, o),
        0 <= t < threads.len(),
        threads[t].occupied ==> !now.occupied && repinned(
            o,
            n,
            threads[t].object_index as int,
            -1,
            0,
        ),
        !threads[t].occupied ==> now.occupied && repinned(o, n, now.object_index as int, 1, 0)
            && o.holds(now.object_index as int, KernelObjectType::Channel),
    ensures
        pins_ok(threads.update(t, now), mappings, n),
{
    reveal(pins_ok);
    let after = threads.update(t, now);
    assert forall|k: int| 0 <= k < after.len() && (#[trigger] after[k]).occupied implies n.holds(
        after[k].object_index as int,
        KernelObjectType::Channel,
    ) by {
        if k != t {
            assert(threads[k].occupied);
            assert(o.holds(threads[k].object_index as int, KernelObjectType::Channel));
        }
        assert(n.slots[after[k].object_index as int].occupied);
    }
    assert forall|m: int| 0 <= m < mappings.len() && (#[trigger] mappings[m]).occupied implies n.holds(
        mappings[m].object_index as int,
        KernelObjectType::ShmObject,
    ) by {
        assert(o.holds(mappings[m].object_index as int, KernelObjectType::ShmObject));
        assert(n.slots[mappings[m].object_index as int].occupied);
    }
    assert forall|i: int| 0 <= i < MAX_KERNEL_OBJECTS implies (
    #[trigger] n.slots[i]).header.in_flight_op_refs == ops_on(after, i)
        && n.slots[i].header.mapping_refs == mappings_of(mappings, i) by {
        lemma_count_ops_update(threads, t, now, i, threads.len() as int);
        assert(o.slots[i].header.in_flight_op_refs == ops_on(threads, i));
    }
}

/// A mapping that is made or removed is counted on or off.
pub proof fn lemma_mapping_changed(
    threads: Seq<ThreadIpcState>,
    mappings: Seq<ShmMapping>,
    o: ObjectsView,
    n: ObjectsView,
    m: int,
    now: ShmMapping,
)
    requires
        pins_ok(threads, mappings, o),
        0 <= m < mappings.len(),
        mappings[m].occupied ==> !now.occupied && repinned(
            o,
            n,
            mappings[m].object_index as int,
            0,
            -1,
        ),
        !mappings[m].occupied ==> now.occupied && repinned(o, n, now.object_index as int, 0, 1)
            && o.holds(now.object_index as int, KernelObjectType::ShmObject),
    ensures
        pins_ok(threads, mappings.update(m, now), n),
{
    reveal(pins_ok);
    let after = mappings.update(m, now);
    assert forall|k: int| 0 <= k < after.len() && (#[trigger] after[k]).occupied implies n.holds(
        after[k].object_index as int,
        KernelObjectType::ShmObject,
    ) by {
        if k != m {
            assert(mappings[k].occupied);
            assert(o.holds(mappings[k].object_index as int, KernelObjectType::ShmObject));
        }
        assert(n.slots[after[k].object_index as int].occupied);
    }
    assert forall|t: int| 0 <= t < threads.len() && (#[trigger] threads[t]).occupied implies n.holds(
        threads[t].object_index as int,
        KernelObjectType::Channel,
    ) by {
        assert(o.holds(threads[t].object_index as int, KernelObjectType::Channel));
        assert(n.slots[threads[t].object_index as int].occupied);
    }
    assert forall|i: int| 0 <= i < MAX_KERNEL_OBJECTS implies (
    #[trigger] n.slots[i]).header.in_flight_op_refs == ops_on(threads, i)
        && n.slots[i].header.mapping_refs == mappings_of(after, i) by {
        lemma_count_mappings_update(mappings, m, now, i, mappings.len() as int);
        assert(o.slots[i].header.in_flight_op_refs == ops_on(threads, i));
    }
}

/// Counts that were right stay right when objects keep them.
pub proof fn lemma_pins_kept(
    threads: Seq<ThreadIpcState>,
    mappings: Seq<ShmMapping>,
    o: ObjectsView,
    n: ObjectsView,
)
    requires
        pins_ok(threads, mappings, o),
        pins_kept(o, n),
    ensures
        pins_ok(threads, mappings, n),
{
    reveal(pins_ok);
    assert forall|t: int| 0 <= t < threads.len() && (#[trigger] threads[t]).occupied implies n.holds(
        threads[t].object_index as int,
        KernelObjectType::Channel,
    ) by {
        let i = threads[t].object_index as int;
        lemma_count_ops_bounds(threads, i, threads.len() as int);
        assert(o.holds(i, KernelObjectType::Channel));
        assert(slot_pins_kept(o, n, i));
        assert(o.slots[i].header.in_flight_op_refs == ops_on(threads, i));
    }
    assert forall|m: int| 0 <= m < mappings.len() && (#[trigger] mappings[m]).occupied implies n.holds(
        mappings[m].object_index as int,
        KernelObjectType::ShmObject,
    ) by {
        let i = mappings[m].object_index as int;
        lemma_count_mappings_bounds(mappings, i, mappings.len() as int);
        assert(o.holds(i, KernelObjectType::ShmObject));
        assert(slot_pins_kept(o, n, i));
        assert(o.slots[i].header.mapping_refs == mappings_of(mappings, i));
    }
    assert forall|i: int| 0 <= i < MAX_KERNEL_OBJECTS implies (
    #[trigger] n.slots[i]).header.in_flight_op_refs == ops_on(threads, i)
        && n.slots[i].header.mapping_refs == mappings_of(mappings, i) by {
        assert(slot_pins_kept(o, n, i));
        assert(o.slots[i].header.in_flight_op_refs == ops_on(threads, i));
    }
}

impl KernelState {
    pub open spec fn wf(&self) -> bool {
        &&& self.caps.wf()
        &&& attenuated(&self.caps)
        &&& self.objs.wf()
        &&& refs_ok(&self.caps, self.objs@)
        &&& forall|i: int| 0 <= i < MAX_SHM_MAPPINGS ==> mapping_ok(#[trigger] self.mappings@[i])
        &&& pins_ok(self.threads@, self.mappings@, self.objs@)
    }

    /// The objects together with what is to be done outside.
    pub open spec fn world(&self, fx: &Effects) -> World {
        World { objs: self.objs@, fx: fx@ }
    }

    /// Only the capabilities and the objects differ.
    pub open spec fn same_rest(&self, other: &Self) -> bool {
        &&& self.mappings == other.mappings
        &&& self.threads == other.threads
        &&& self.processes == other.processes
    }

    /// A kernel without processes, handles or objects, for a number of threads.
    pub fn new(thread_count: usize) -> (r: Self)
        requires
            thread_count <= u16::MAX,
        ensures
            r.wf(),
            r.threads@.len() == thread_count,
            r.caps.next_capability_id == 1,
            r.objs@.next_object_id == 1,
            forall|s: Slot| !(#[trigger] r.caps.live(s)),
            forall|s: Slot| is_slot(s) ==> (#[trigger] r.caps.entry(s)).handle_generation == 1,
            forall|s: Slot| is_slot(s) ==> (#[trigger] r.caps.node(s)).is_blank(),
            forall|i: int|
                0 <= i < MAX_KERNEL_OBJECTS ==> (#[trigger] r.objs@.slots[i]) == unused_slot(),
            forall|i: int|
                0 <= i < MAX_CHANNELS ==> (#[trigger] r.objs@.channels[i]) == blank_channel(),
            forall|i: int| 0 <= i < MAX_SHM_OBJECTS ==> (#[trigger] r.objs@.shm[i]) == blank_shm(),
            forall|i: int| 0 <= i < MAX_SHM_MAPPINGS ==> !(#[trigger] r.mappings@[i]).occupied,
            forall|i: int| 0 <= i < thread_count ==> !(#[trigger] r.threads@[i]).occupied,
            forall|i: int| 0 <= i < MAX_PROCESSES ==> !(#[trigger] r.processes@[i]).occupied,
    {
        let mut threads: Vec<ThreadIpcState> = Vec::new();
        let mut i: usize = 0;
        while i < thread_count
            invariant
                i <= thread_count,
                threads@.len() == i,
                forall|j: int| 0 <= j < i ==> !(#[trigger] threads@[j]).occupied,
            decreases thread_count - i,
        {
            threads.push(ThreadIpcState { occupied: false, _pad: 0, object_index: 0 });
            i = i + 1;
        }
        let r = KernelState {
            caps: CapabilitySpace {
                tables: [HandleTable::empty(); MAX_PROCESSES],
                nodes: [[CapabilityNode::empty(); MAX_HANDLES_PER_PROCESS]; MAX_PROCESSES],
                next_capability_id: 1,
                children: Ghost(Map::new(|s: Slot| true, |s: Slot| Seq::empty())),
            },
            objs: ObjectSpace::new(),
            mappings: [ShmMapping::empty(); MAX_SHM_MAPPINGS],
            threads,
            processes: [ProcessRecord { occupied: false, id: 0 }; MAX_PROCESSES],
        };
        proof {
            assert forall|s: Slot| is_slot(s) implies (#[trigger] r.caps.node(s)).is_blank() by {}
            assert forall|s: Slot| is_slot(s) implies !(#[trigger] r.caps.entry(s)).occupied
                && r.caps.entry(s).handle_generation == 1 by {}
            assert forall|p: int| 0 <= p < MAX_PROCESSES implies (#[trigger] r.caps.tables@[p]).count
                == crate::cap::tree::occupied_count(
                r.caps.tables@[p].entries@,
                MAX_HANDLES_PER_PROCESS as int,
            ) by {
                lemma_none_occupied(r.caps.tables@[p].entries@, MAX_HANDLES_PER_PROCESS as int);
            }
            assert(r.caps.wf());
            reveal(pins_ok);
            assert forall|i: int| 0 <= i < MAX_KERNEL_OBJECTS implies (
            #[trigger] r.objs@.slots[i]).header.in_flight_op_refs == ops_on(r.threads@, i)
                && r.objs@.slots[i].header.mapping_refs == mappings_of(r.mappings@, i) by {
                assert(r.objs@.slots[i] == unused_slot());
                lemma_no_ops(r.threads@, i, r.threads@.len() as int);
                lemma_no_mappings(r.mappings@, i, r.mappings@.len() as int);
            }
        }
        r
    }
}

/// Threads without operations in progress have none on an object.
proof fn lemma_no_ops(threads: Seq<ThreadIpcState>, o: int, n: int)
    requires
        0 <= n <= threads.len(),
        forall|i: int| 0 <= i < threads.len() ==> !(#[trigger] threads[i]).occupied,
    ensures
        count_ops(threads, o, n) == 0,
    decreases n,
{
    if n > 0 {
        lemma_no_ops(threads, o, n - 1);
        assert(!threads[n - 1].occupied);
    }
}

/// Where there are no mappings, there is none of an object.
proof fn lemma_no_mappings(mappings: Seq<ShmMapping>, o: int, n: int)
    requires
        0 <= n <= mappings.len(),
        forall|i: int| 0 <= i < mappings.len() ==> !(#[trigger] mappings[i]).occupied,
    ensures
        count_mappings(mappings, o, n) == 0,
    decreases n,
{
    if n > 0 {
        lemma_no_mappings(mappings, o, n - 1);
        assert(!mappings[n - 1].occupied);
    }
}

/// A table without occupied entries counts none.
proof fn lemma_none_occupied(entries: Seq<HandleEntry>, n: int)
    requires
        0 <= n <= entries.len(),
        forall|i: int| 0 <= i < entries.len() ==> !(#[trigger] entries[i]).occupied,
    ensures
        crate::cap::tree::occupied_count(entries, n) == 0,
    decreases n,
{
    if n > 0 {
        lemma_none_occupied(entries, n - 1);
    }
}

/// Changing one entry changes the count by that entry.
pub proof fn lemma_count_update(es: Seq<HandleEntry>, k: int, e: HandleEntry, o: int, n: int)
    requires
        0 <= k < es.len(),
        n <= es.len(),
    ensures
        count_refs(es.update(k, e), o, n) == count_refs(es, o, n) + (if k < n {
            points_to(e, o) - points_to(es[k], o)
        } else {
            0
        }),
        forall|first: bool|
            #[trigger] count_ends(es.update(k, e), o, first, n) == count_ends(es, o, first, n) + (
            if k < n {
                points_to_end(e, o, first) - points_to_end(es[k], o, first)
            } else {
                0
            }),
    decreases n,
{
    if n > 0 {
        lemma_count_update(es, k, e, o, n - 1);
        let fs = es.update(k, e);
        assert forall|first: bool| #[trigger] count_ends(fs, o, first, n) == count_ends(
            es,
            o,
            first,
            n,
        ) + (if k < n {
            points_to_end(e, o, first) - points_to_end(es[k], o, first)
        } else {
            0
        }) by {
            lemma_count_ends_step(fs, o, first, n);
            lemma_count_ends_step(es, o, first, n);
        }
    }
}

/// The last of the first `n` entries adds to the count of an end.
proof fn lemma_count_ends_step(es: Seq<HandleEntry>, o: int, first: bool, n: int)
    requires
        n > 0,
    ensures
        count_ends(es, o, first, n) == count_ends(es, o, first, n - 1) + points_to_end(
            es[n - 1],
            o,
            first,
        ),
{
}

/// A count is at most the number of entries, and at least that of any one entry.
pub proof fn lemma_count_bounds(es: Seq<HandleEntry>, o: int, n: int)
    requires
        0 <= n <= es.len(),
    ensures
        0 <= count_refs(es, o, n) <= n,
        forall|k: int| 0 <= k < n ==> points_to(#[trigger] es[k], o) <= count_refs(es, o, n),
        forall|first: bool| 0 <= #[trigger] count_ends(es, o, first, n) <= n,
        forall|k: int, first: bool|
            #![trigger es[k], count_ends(es, o, first, n)]
            0 <= k < n ==> points_to_end(es[k], o, first) <= count_ends(es, o, first, n),
    decreases n,
{
    if n > 0 {
        lemma_count_bounds(es, o, n - 1);
        assert forall|first: bool| 0 <= #[trigger] count_ends(es, o, first, n) <= n by {
            lemma_count_ends_step(es, o, first, n);
        }
        assert forall|k: int, first: bool|
            #![trigger es[k], count_ends(es, o, first, n)]
            0 <= k < n implies points_to_end(es[k], o, first) <= count_ends(es, o, first, n) by {
            lemma_count_ends_step(es, o, first, n);
            assert(0 <= count_ends(es, o, first, n - 1));
            if k < n - 1 {
                assert(points_to_end(es[k], o, first) <= count_ends(es, o, first, n - 1));
            }
        }
    }
}

/// The number of a slot finds it in the list of all entries.
pub proof fn lemma_slot_number(c: &CapabilitySpace, s: Slot)
    requires
        is_slot(s),
    ensures
        0 <= crate::cap::revoke::slot_number(s) < MAX_CAPABILITY_NODES,
        all_entries(c)[crate::cap::revoke::slot_number(s)] == c.entry(s),
{
    let i = crate::cap::revoke::slot_number(s);
    assert(i / 32 == s.p && i % 32 == s.h);
}

/// If two spaces differ in one entry, their lists of entries differ in that one.
pub proof fn lemma_entries_update(before: &CapabilitySpace, after: &CapabilitySpace, s: Slot)
    requires
        is_slot(s),
        forall|t: Slot| is_slot(t) && t != s ==> (#[trigger] after.entry(t)) == before.entry(t),
    ensures
        all_entries(after) == all_entries(before).update(
            crate::cap::revoke::slot_number(s),
            after.entry(s),
        ),
{
    let k = crate::cap::revoke::slot_number(s);
    lemma_slot_number(after, s);
    let a = all_entries(after);
    let b = all_entries(before).update(k, after.entry(s));
    assert forall|i: int| 0 <= i < a.len() implies a[i] == b[i] by {
        let t = Slot { p: i / 32, h: i % 32 };
        assert(is_slot(t));
        if i != k {
            assert(t != s) by {
                if t == s {
                    assert(i == 32 * (i / 32) + i % 32);
                }
            }
            assert(after.entry(t) == before.entry(t));
        }
    }
    assert(a =~= b);
}

/// If two spaces differ in one entry, so do their counts.
pub proof fn lemma_refs_update(before: &CapabilitySpace, after: &CapabilitySpace, s: Slot, o: int)
    requires
        is_slot(s),
        forall|t: Slot| is_slot(t) && t != s ==> (#[trigger] after.entry(t)) == before.entry(t),
    ensures
        refs_to(after, o) == refs_to(before, o) + points_to(after.entry(s), o) - points_to(
            before.entry(s),
            o,
        ),
        forall|first: bool|
            #[trigger] ends_to(after, o, first) == ends_to(before, o, first) + points_to_end(
                after.entry(s),
                o,
                first,
            ) - points_to_end(before.entry(s), o, first),
{
    let k = crate::cap::revoke::slot_number(s);
    lemma_slot_number(before, s);
    lemma_entries_update(before, after, s);
    lemma_count_update(all_entries(before), k, after.entry(s), o, MAX_CAPABILITY_NODES as int);
}

/// No more handles refer to an object than there are entries, and at least one if some entry
/// does.
pub proof fn lemma_refs_bounds(c: &CapabilitySpace, o: int)
    ensures
        0 <= refs_to(c, o) <= MAX_CAPABILITY_NODES,
        forall|s: Slot|
            #[trigger] c.live(s) && c.entry(s).object_index == o ==> refs_to(c, o) >= 1,
        forall|first: bool| 0 <= #[trigger] ends_to(c, o, first) <= MAX_CAPABILITY_NODES,
{
    lemma_count_bounds(all_entries(c), o, MAX_CAPABILITY_NODES as int);
    assert forall|s: Slot|
        #[trigger] c.live(s) && c.entry(s).object_index == o implies refs_to(c, o) >= 1 by {
        lemma_slot_number(c, s);
        let k = crate::cap::revoke::slot_number(s);
        assert(points_to(all_entries(c)[k], o) == 1);
    }
}

/// A handle to one end of an object is a handle to the object.
pub proof fn lemma_ends_within_refs(c: &CapabilitySpace, o: int, first: bool)
    ensures
        0 <= ends_to(c, o, first) <= refs_to(c, o),
{
    lemma_count_ends_within(all_entries(c), o, first, MAX_CAPABILITY_NODES as int);
}

proof fn lemma_count_ends_within(es: Seq<HandleEntry>, o: int, first: bool, n: int)
    ensures
        0 <= count_ends(es, o, first, n) <= count_refs(es, o, n),
    decreases n,
{
    if n > 0 {
        lemma_count_ends_within(es, o, first, n - 1);
    }
}

/// If two spaces differ in two entries, so do their counts.
pub proof fn lemma_refs_update_two(
    before: &CapabilitySpace,
    after: &CapabilitySpace,
    s: Slot,
    t: Slot,
    o: int,
)
    requires
        is_slot(s),
        is_slot(t),
        s != t,
        forall|u: Slot|
            is_slot(u) && u != s && u != t ==> (#[trigger] after.entry(u)) == before.entry(u),
    ensures
        refs_to(after, o) == refs_to(before, o) + points_to(after.entry(s), o) - points_to(
            before.entry(s),
            o,
        ) + points_to(after.entry(t), o) - points_to(before.entry(t), o),
        forall|first: bool|
            #[trigger] ends_to(after, o, first) == ends_to(before, o, first) + points_to_end(
                after.entry(s),
                o,
                first,
            ) - points_to_end(before.entry(s), o, first) + points_to_end(
                after.entry(t),
                o,
                first,
            ) - points_to_end(before.entry(t), o, first),
{
    let a = crate::cap::revoke::slot_number(s);
    let b = crate::cap::revoke::slot_number(t);
    lemma_slot_number(before, s);
    lemma_slot_number(before, t);
    lemma_slot_number(after, s);
    lemma_slot_number(after, t);
    assert(a != b) by {
        assert(a / 32 == s.p && a % 32 == s.h);
        assert(b / 32 == t.p && b % 32 == t.h);
    }
    let e1 = all_entries(before).update(a, after.entry(s));
    let e2 = e1.update(b, after.entry(t));
    assert forall|i: int| 0 <= i < MAX_CAPABILITY_NODES implies all_entries(after)[i] == e2[i] by {
        let u = Slot { p: i / 32, h: i % 32 };
        assert(is_slot(u));
        if i != a && i != b {
            assert(u != s && u != t) by {
                assert(i == 32 * (i / 32) + i % 32);
            }
            assert(after.entry(u) == before.entry(u));
        }
    }
    assert(all_entries(after) =~= e2);
    lemma_count_update(all_entries(before), a, after.entry(s), o, MAX_CAPABILITY_NODES as int);
    lemma_count_update(e1, b, after.entry(t), o, MAX_CAPABILITY_NODES as int);
}

/// An entry refers to an object in use, of the same generation.
pub open spec fn entry_target_ok(e: HandleEntry, o: ObjectsView) -> bool {
    &&& e.object_index < MAX_KERNEL_OBJECTS
    &&& o.slots[e.object_index as int].occupied
    &&& o.slots[e.object_index as int].generation == e.object_generation
}

/// What `refs_ok` says, of a list of entries.
pub open spec fn entries_ok(es: Seq<HandleEntry>, o: ObjectsView) -> bool {
    &&& forall|i: int| 0 <= i < es.len() && (#[trigger] es[i]).occupied ==> entry_target_ok(es[i], o)
    &&& forall|j: int|
        0 <= j < MAX_KERNEL_OBJECTS && (#[trigger] o.slots[j]).occupied
            ==> o.slots[j].header.handle_refs == count_refs(es, j, es.len() as int)
    &&& forall|j: int|
        0 <= j < MAX_KERNEL_OBJECTS && (#[trigger] o.slots[j]).occupied && o.slots[j].obj_type
            == KernelObjectType::Channel ==> ends_counted(
            o,
            j,
            count_ends(es, j, true, es.len() as int),
            count_ends(es, j, false, es.len() as int),
        )
}

/// The two ways of stating it agree.
pub proof fn lemma_refs_as_list(c: &CapabilitySpace, o: ObjectsView)
    ensures
        refs_ok(c, o) <==> entries_ok(all_entries(c), o),
{
    let es = all_entries(c);
    if refs_ok(c, o) {
        assert forall|i: int| 0 <= i < es.len() && (#[trigger] es[i]).occupied implies
            entry_target_ok(es[i], o) by {
            let s = Slot { p: i / 32, h: i % 32 };
            assert(is_slot(s));
            assert(c.live(s));
            assert(target_ok(c, o, s));
        }
        assert forall|j: int| 0 <= j < MAX_KERNEL_OBJECTS && (#[trigger] o.slots[j]).occupied implies
            o.slots[j].header.handle_refs == count_refs(es, j, es.len() as int) by {
            assert(o.slots[j].header.handle_refs == refs_to(c, j));
        }
        assert forall|j: int|
            0 <= j < MAX_KERNEL_OBJECTS && (#[trigger] o.slots[j]).occupied && o.slots[j].obj_type
                == KernelObjectType::Channel implies ends_counted(
            o,
            j,
            count_ends(es, j, true, es.len() as int),
            count_ends(es, j, false, es.len() as int),
        ) by {
            assert(ends_counted(o, j, ends_to(c, j, true), ends_to(c, j, false)));
        }
    }
    if entries_ok(es, o) {
        assert forall|s: Slot| #[trigger] c.live(s) implies target_ok(c, o, s) by {
            lemma_slot_number(c, s);
            let i = crate::cap::revoke::slot_number(s);
            assert(es[i].occupied);
            assert(entry_target_ok(es[i], o));
        }
        assert forall|j: int| 0 <= j < MAX_KERNEL_OBJECTS && (#[trigger] o.slots[j]).occupied implies
            o.slots[j].header.handle_refs == refs_to(c, j) by {}
    }
}

/// Objects only lost references of other kinds, or went because no handle referred to them.
pub open spec fn slots_shrunk(o: ObjectsView, n: ObjectsView) -> bool {
    forall|j: int| 0 <= j < MAX_KERNEL_OBJECTS ==> #[trigger] slot_shrunk(o, n, j)
}

/// The object in a slot only lost references of other kinds, or went because no handle referred
/// to it.
pub open spec fn slot_shrunk(o: ObjectsView, n: ObjectsView, j: int) -> bool {
    let s = o.slots[j];
    let t = n.slots[j];
    &&& t.occupied ==> {
        &&& s.occupied
        &&& t.generation == s.generation
        &&& t.obj_type == s.obj_type
        &&& t.header.handle_refs == s.header.handle_refs
        &&& t.obj_type == KernelObjectType::Channel ==> n.channel_of(j).same_refs(o.channel_of(j))
    }
    &&& s.occupied && !t.occupied ==> s.header.handle_refs == 0
}

/// Letting objects go to which no handle refers keeps the counts right.
pub proof fn lemma_shrunk_keeps_entries(es: Seq<HandleEntry>, o: ObjectsView, n: ObjectsView)
    requires
        entries_ok(es, o),
        slots_shrunk(o, n),
    ensures
        entries_ok(es, n),
{
    assert forall|i: int| 0 <= i < es.len() && (#[trigger] es[i]).occupied implies entry_target_ok(
        es[i],
        n,
    ) by {
        let j = es[i].object_index as int;
        assert(entry_target_ok(es[i], o));
        lemma_count_bounds(es, j, es.len() as int);
        assert(points_to(es[i], j) == 1);
        assert(o.slots[j].header.handle_refs >= 1);
        assert(slot_shrunk(o, n, j));
    }
    assert forall|j: int| 0 <= j < MAX_KERNEL_OBJECTS && (#[trigger] n.slots[j]).occupied implies
        n.slots[j].header.handle_refs == count_refs(es, j, es.len() as int) by {
        assert(slot_shrunk(o, n, j));
        assert(o.slots[j].occupied);
    }
    assert forall|j: int|
        0 <= j < MAX_KERNEL_OBJECTS && (#[trigger] n.slots[j]).occupied && n.slots[j].obj_type
            == KernelObjectType::Channel implies ends_counted(
        n,
        j,
        count_ends(es, j, true, es.len() as int),
        count_ends(es, j, false, es.len() as int),
    ) by {
        assert(slot_shrunk(o, n, j));
        assert(o.slots[j].occupied);
    }
}

/// A space that satisfies `refs_ok` still does after objects shrank.
pub proof fn lemma_shrunk_keeps_refs(c: &CapabilitySpace, o: ObjectsView, n: ObjectsView)
    requires
        refs_ok(c, o),
        slots_shrunk(o, n),
    ensures
        refs_ok(c, n),
{
    lemma_refs_as_list(c, o);
    lemma_refs_as_list(c, n);
    lemma_shrunk_keeps_entries(all_entries(c), o, n);
}

/// If no entry refers to an object, the count is zero.
proof fn lemma_count_zero(es: Seq<HandleEntry>, o: int, n: int)
    requires
        0 <= n <= es.len(),
        forall|k: int| 0 <= k < n ==> points_to(#[trigger] es[k], o) == 0,
    ensures
        count_refs(es, o, n) == 0,
        forall|first: bool| #[trigger] count_ends(es, o, first, n) == 0,
    decreases n,
{
    if n > 0 {
        lemma_count_zero(es, o, n - 1);
        assert(points_to(es[n - 1], o) == 0);
        assert forall|first: bool| #[trigger] count_ends(es, o, first, n) == 0 by {
            lemma_count_ends_step(es, o, first, n);
        }
    }
}

/// A new object without handles in a free slot keeps the counts right.
pub proof fn lemma_new_object_keeps_refs(
    c: &CapabilitySpace,
    o: ObjectsView,
    n: ObjectsView,
    i: int,
)
    requires
        refs_ok(c, o),
        0 <= i < MAX_KERNEL_OBJECTS,
        !o.slots[i].occupied,
        n.slots[i].header.handle_refs == 0,
        n.slots[i].obj_type == KernelObjectType::Channel ==> ends_counted(n, i, 0, 0),
        forall|j: int|
            0 <= j < MAX_KERNEL_OBJECTS && j != i ==> (#[trigger] n.slots[j]) == o.slots[j] && (
            o.holds(j, KernelObjectType::Channel) ==> n.channel_of(j).same_refs(o.channel_of(j))),
    ensures
        refs_ok(c, n),
{
    let es = all_entries(c);
    lemma_refs_as_list(c, o);
    lemma_refs_as_list(c, n);
    assert forall|k: int| 0 <= k < es.len() implies points_to(#[trigger] es[k], i) == 0 by {
        if es[k].occupied {
            assert(entry_target_ok(es[k], o));
        }
    }
    lemma_count_zero(es, i, es.len() as int);
    assert forall|k: int| 0 <= k < es.len() && (#[trigger] es[k]).occupied implies entry_target_ok(
        es[k],
        n,
    ) by {
        assert(entry_target_ok(es[k], o));
        assert(es[k].object_index != i);
    }
    assert forall|j: int| 0 <= j < MAX_KERNEL_OBJECTS && (#[trigger] n.slots[j]).occupied implies
        n.slots[j].header.handle_refs == count_refs(es, j, es.len() as int) by {
        if j != i {
            assert(o.slots[j].occupied);
        }
    }
    assert(entries_ok(es, n));
}

/// Freeing an entry and counting its handle off keeps the counts right.
pub proof fn lemma_freed_keeps_entries(es: Seq<HandleEntry>, o: ObjectsView, i: int)
    requires
        entries_ok(es, o),
        o.wf(),
        0 <= i < es.len(),
        es[i].occupied,
    ensures
        entries_ok(
            es.update(i, crate::cap::tree::freed_entry(es[i])),
            o.handle_gone(es[i].object_index as int, es[i].endpoint),
        ),
{
    let x = es[i].object_index as int;
    let e2 = crate::cap::tree::freed_entry(es[i]);
    let fs = es.update(i, e2);
    let n = o.handle_gone(x, es[i].endpoint);
    assert(entry_target_ok(es[i], o));
    lemma_count_bounds(es, x, es.len() as int);
    assert(points_to(es[i], x) == 1);
    assert forall|a: int| 0 <= a < fs.len() && (#[trigger] fs[a]).occupied implies entry_target_ok(
        fs[a],
        n,
    ) by {
        assert(a != i);
        assert(fs[a] == es[a]);
        assert(entry_target_ok(es[a], o));
    }
    assert forall|j: int| 0 <= j < MAX_KERNEL_OBJECTS && (#[trigger] n.slots[j]).occupied implies
        n.slots[j].header.handle_refs == count_refs(fs, j, fs.len() as int) by {
        lemma_count_update(es, i, e2, j, es.len() as int);
        assert(o.slots[j].occupied);
    }
    assert forall|j: int|
        0 <= j < MAX_KERNEL_OBJECTS && (#[trigger] n.slots[j]).occupied && n.slots[j].obj_type
            == KernelObjectType::Channel implies ends_counted(
        n,
        j,
        count_ends(fs, j, true, fs.len() as int),
        count_ends(fs, j, false, fs.len() as int),
    ) by {
        lemma_count_update(es, i, e2, j, es.len() as int);
        assert(o.slots[j].occupied);
        assert(o.slot_ok(j) && o.slot_ok(x) && o.apart(j, x));
        let first = es[i].endpoint == 0;
        assert(points_to_end(es[i], x, first) == 1);
        assert(points_to_end(es[i], x, first) <= count_ends(es, x, first, es.len() as int));
    }
}

} // verus!
