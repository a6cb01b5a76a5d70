//! The objects behind the handles: the object table with the channels and the shared memory it
//! points to, and what happens to an object when a reference to it goes.
use crate::ipc::channel::{blank_channel, Channel, ChannelView, MAX_CHANNELS};
use crate::ipc::object::{
    allocate_object_slot_locked, blank_header, filled_slot, first_free, free_object_slot_locked,
    freed_slot, unused_slot, KernelObjectHeader, KernelObjectSlot, KernelObjectTable,
    KernelObjectType, MAX_KERNEL_OBJECTS,
};
use crate::ipc::shm::{blank_shm, ShmObject, ShmView, MAX_SHM_OBJECTS, MAX_SHM_PAGES};
use crate::ipc::types::{signals, IpcError};
use crate::ipc::wait::Waiter;
use vstd::prelude::*;

verus! {

/// What has to be done outside the tables: threads to make runnable, frames to give back, pages
/// to unmap, each in the order listed.
pub struct Effects {
    pub woken: Vec<Waiter>,
    pub freed_frames: Vec<u64>,
    pub unmapped_pages: Vec<u64>,
}

#[verifier::ext_equal]
pub struct EffectsView {
    pub woken: Seq<Waiter>,
    pub freed_frames: Seq<u64>,
    pub unmapped_pages: Seq<u64>,
}

impl EffectsView {
    pub open spec fn waking(self, w: Seq<Waiter>) -> EffectsView {
        EffectsView { woken: self.woken + w, ..self }
    }

    pub open spec fn freeing(self, f: Seq<u64>) -> EffectsView {
        EffectsView { freed_frames: self.freed_frames + f, ..self }
    }

    pub open spec fn unmapping(self, p: Seq<u64>) -> EffectsView {
        EffectsView { unmapped_pages: self.unmapped_pages + p, ..self }
    }
}

impl Effects {
    pub open spec fn view(&self) -> EffectsView {
        EffectsView {
            woken: self.woken@,
            freed_frames: self.freed_frames@,
            unmapped_pages: self.unmapped_pages@,
        }
    }

    pub fn new() -> (r: Self)
        ensures
            r@ == (EffectsView {
                woken: Seq::empty(),
                freed_frames: Seq::empty(),
                unmapped_pages: Seq::empty(),
            }),
    {
        Effects { woken: Vec::new(), freed_frames: Vec::new(), unmapped_pages: Vec::new() }
    }
}

/// The object table, the channels and the shared memory objects.
pub struct ObjectSpace {
    pub objects: KernelObjectTable,
    pub channels: Vec<Channel>,
    pub shm: [ShmObject; MAX_SHM_OBJECTS],
}

/// What the object tables hold.
#[verifier::ext_equal]
pub struct ObjectsView {
    pub slots: Seq<KernelObjectSlot>,
    pub next_object_id: u64,
    pub channels: Seq<ChannelView>,
    pub shm: Seq<ShmView>,
}

/// The header `h` with one handle less.
pub open spec fn one_handle_less(h: KernelObjectHeader) -> KernelObjectHeader {
    KernelObjectHeader {
        handle_refs: if h.handle_refs == 0 {
            0
        } else {
            (h.handle_refs - 1) as u16
        },
        ..h
    }
}

/// The slot `s` with another header.
pub open spec fn with_header(s: KernelObjectSlot, header: KernelObjectHeader) -> KernelObjectSlot {
    KernelObjectSlot { header, ..s }
}

impl ObjectsView {
    /// An object of a type is in the slot.
    pub open spec fn holds(self, i: int, t: KernelObjectType) -> bool {
        0 <= i < MAX_KERNEL_OBJECTS && self.slots[i].occupied && self.slots[i].obj_type == t
    }

    pub open spec fn slot_ok(self, i: int) -> bool {
        let s = self.slots[i];
        &&& s.generation != 0
        &&& !s.occupied ==> s.obj_type == KernelObjectType::Free && s.header == blank_header()
        &&& s.occupied ==> 0 < s.header.object_id < self.next_object_id
        &&& self.holds(i, KernelObjectType::Channel) ==> s.pool_index < MAX_CHANNELS
        &&& self.holds(i, KernelObjectType::ShmObject) ==> s.pool_index < MAX_SHM_OBJECTS
    }

    /// No two objects share an identifier, a channel or a shared memory object.
    pub open spec fn apart(self, i: int, j: int) -> bool {
        let s = self.slots[i];
        let t = self.slots[j];
        s.occupied && t.occupied && i != j ==> {
            &&& s.header.object_id != t.header.object_id
            &&& s.obj_type == t.obj_type && (s.obj_type == KernelObjectType::Channel || s.obj_type
                == KernelObjectType::ShmObject) ==> s.pool_index != t.pool_index
        }
    }

    pub open spec fn wf(self) -> bool {
        &&& self.slots.len() == MAX_KERNEL_OBJECTS
        &&& self.channels.len() == MAX_CHANNELS
        &&& self.shm.len() == MAX_SHM_OBJECTS
        &&& self.next_object_id >= 1
        &&& forall|i: int| 0 <= i < MAX_KERNEL_OBJECTS ==> #[trigger] self.slot_ok(i)
        &&& forall|i: int, j: int|
            0 <= i < MAX_KERNEL_OBJECTS && 0 <= j < MAX_KERNEL_OBJECTS ==> #[trigger] self.apart(
                i,
                j,
            )
        &&& forall|k: int|
            0 <= k < MAX_SHM_OBJECTS ==> (#[trigger] self.shm[k]).page_count <= MAX_SHM_PAGES
                && self.shm[k].frames.len() == MAX_SHM_PAGES && self.shm[k].page_count >= 0
    }

    /// The channel that belongs to the object in a slot.
    pub open spec fn channel_of(self, i: int) -> ChannelView {
        self.channels[self.slots[i].pool_index as int]
    }

    pub open spec fn with_channel(self, i: int, ch: ChannelView) -> ObjectsView {
        ObjectsView { channels: self.channels.update(self.slots[i].pool_index as int, ch), ..self }
    }

    pub open spec fn with_slot(self, i: int, s: KernelObjectSlot) -> ObjectsView {
        ObjectsView { slots: self.slots.update(i, s), ..self }
    }

    /// A channel that nobody refers to and at which nobody waits goes.
    pub open spec fn reclaim_channel(self, i: int) -> ObjectsView {
        if self.holds(i, KernelObjectType::Channel) && self.slots[i].header.total_refs() == 0
            && self.channel_of(i).is_quiet() {
            self.with_channel(i, blank_channel()).with_slot(i, freed_slot(self.slots[i]))
        } else {
            self
        }
    }

    pub open spec fn shm_of(self, i: int) -> ShmView {
        self.shm[self.slots[i].pool_index as int]
    }

    /// Nobody refers to the shared memory object in a slot.
    pub open spec fn shm_is_free(self, i: int) -> bool {
        self.holds(i, KernelObjectType::ShmObject) && self.slots[i].header.total_refs() == 0
    }

    /// A shared memory object that nobody refers to goes.
    pub open spec fn reclaim_shm(self, i: int) -> ObjectsView {
        if self.shm_is_free(i) {
            ObjectsView {
                shm: self.shm.update(self.slots[i].pool_index as int, blank_shm()),
                ..self.with_slot(i, freed_slot(self.slots[i]))
            }
        } else {
            self
        }
    }

    /// The frames that go back when a shared memory object goes.
    pub open spec fn shm_frames(self, i: int) -> Seq<u64> {
        if self.shm_is_free(i) {
            self.shm_of(i).frames.take(self.shm_of(i).page_count)
        } else {
            Seq::empty()
        }
    }

    /// One handle to an object less. At a channel the end that it stood for counts it off too.
    pub open spec fn handle_gone(self, i: int, endpoint: u8) -> ObjectsView {
        if 0 <= i < MAX_KERNEL_OBJECTS && self.slots[i].occupied {
            let n = self.with_slot(
                i,
                with_header(self.slots[i], one_handle_less(self.slots[i].header)),
            );
            if self.slots[i].obj_type == KernelObjectType::Channel {
                n.with_channel(i, self.channel_of(i).one_ref_less(endpoint))
            } else {
                n
            }
        } else {
            self
        }
    }

    /// One mapping of an object less.
    pub open spec fn mapping_gone(self, i: int) -> ObjectsView {
        let h = self.slots[i].header;
        self.with_slot(
            i,
            with_header(
                self.slots[i],
                KernelObjectHeader {
                    mapping_refs: if h.mapping_refs == 0 {
                        0
                    } else {
                        (h.mapping_refs - 1) as u16
                    },
                    ..h
                },
            ),
        )
    }
}

/// One handle to an object more. At a channel the end that it stands for counts it too.
pub open spec fn handle_added(o: ObjectsView, i: int, endpoint: u8) -> ObjectsView {
    let h = o.slots[i].header;
    let n = o.with_slot(
        i,
        with_header(
            o.slots[i],
            KernelObjectHeader { handle_refs: (h.handle_refs + 1) as u16, ..h },
        ),
    );
    if o.slots[i].obj_type == KernelObjectType::Channel {
        n.with_channel(i, o.channel_of(i).one_ref_more(endpoint))
    } else {
        n
    }
}

/// The objects together with what is to be done outside.
#[verifier::ext_equal]
pub struct World {
    pub objs: ObjectsView,
    pub fx: EffectsView,
}

impl World {
    /// A shared memory object that nobody refers to goes, and its frames go back.
    pub open spec fn reclaim_shm(self, i: int) -> World {
        World { objs: self.objs.reclaim_shm(i), fx: self.fx.freeing(self.objs.shm_frames(i)) }
    }

    /// A handle was revoked: whoever waits at a channel is woken, and an object without
    /// references goes.
    pub open spec fn handle_revoked(self, i: int, endpoint: u8) -> World {
        let o = self.objs.handle_gone(i, endpoint);
        if o.holds(i, KernelObjectType::Channel) {
            let ch = o.channel_of(i);
            World {
                objs: o.with_channel(i, ch.quieted()).reclaim_channel(i),
                fx: self.fx.waking(ch.all_waiters(endpoint)),
            }
        } else {
            (World { objs: o, fx: self.fx }).reclaim_shm(i)
        }
    }

    /// What a closed handle leaves of the object, after the handle itself was counted off: the
    /// last handle to one end of a channel closes that end.
    pub open spec fn end_released(self, i: int, endpoint: u8) -> World {
        let o = self.objs;
        if o.holds(i, KernelObjectType::Channel) {
            let ch = o.channel_of(i);
            if ch.mine(endpoint).handle_refs == 0 {
                let h = o.slots[i].header;
                let marked = o.with_slot(
                    i,
                    with_header(
                        o.slots[i],
                        KernelObjectHeader { signals: h.signals | signals::PEER_CLOSED, ..h },
                    ),
                );
                World {
                    objs: marked.with_channel(
                        i,
                        ch.end_closed(endpoint).quieted(),
                    ).reclaim_channel(i),
                    fx: self.fx.waking(ch.all_waiters(endpoint)),
                }
            } else {
                World { objs: o.reclaim_channel(i), fx: self.fx }
            }
        } else {
            self.reclaim_shm(i)
        }
    }
}

impl ObjectSpace {
    pub open spec fn view(&self) -> ObjectsView {
        ObjectsView {
            slots: self.objects.slots@,
            next_object_id: self.objects.next_object_id,
            channels: Seq::new(self.channels@.len(), |i: int| self.channels@[i]@),
            shm: Seq::new(MAX_SHM_OBJECTS as nat, |i: int| self.shm@[i]@),
        }
    }

    pub open spec fn wf(&self) -> bool {
        &&& self@.wf()
        &&& forall|i: int| 0 <= i < self.channels@.len() ==> (#[trigger] self.channels@[i]).wf()
    }

    pub fn new() -> (r: Self)
        ensures
            r.wf(),
            r@.next_object_id == 1,
            forall|i: int|
                0 <= i < MAX_KERNEL_OBJECTS ==> (#[trigger] r@.slots[i]) == unused_slot(),
            forall|i: int| 0 <= i < MAX_CHANNELS ==> (#[trigger] r@.channels[i]) == blank_channel(),
            forall|i: int| 0 <= i < MAX_SHM_OBJECTS ==> (#[trigger] r@.shm[i]) == blank_shm(),
    {
        let mut channels: Vec<Channel> = Vec::new();
        let mut i: usize = 0;
        while i < MAX_CHANNELS
            invariant
                i <= MAX_CHANNELS,
                channels@.len() == i,
                forall|j: int|
                    0 <= j < i ==> (#[trigger] channels@[j]).wf() && channels@[j]@
                        == blank_channel(),
            decreases MAX_CHANNELS - i,
        {
            channels.push(Channel::empty());
            i = i + 1;
        }
        ObjectSpace {
            objects: KernelObjectTable::new(),
            channels,
            shm: [ShmObject::empty(); MAX_SHM_OBJECTS],
        }
    }
}

/// Only counters, signals and the state of an object changed.
pub open spec fn same_object(s: KernelObjectSlot, t: KernelObjectSlot) -> bool {
    &&& t.occupied == s.occupied
    &&& t.occupied
    &&& t.obj_type == s.obj_type
    &&& t.generation == s.generation
    &&& t.pool_index == s.pool_index
    &&& t.header.object_id == s.header.object_id
}

/// Changing the counters of an object keeps the invariant.
pub proof fn lemma_same_object_keeps_wf(o: ObjectsView, i: int, t: KernelObjectSlot)
    requires
        o.wf(),
        0 <= i < MAX_KERNEL_OBJECTS,
        same_object(o.slots[i], t),
    ensures
        o.with_slot(i, t).wf(),
{
    let n = o.with_slot(i, t);
    assert forall|a: int| 0 <= a < MAX_KERNEL_OBJECTS implies #[trigger] n.slot_ok(a) by {
        assert(o.slot_ok(a));
    }
    assert forall|a: int, b: int|
        0 <= a < MAX_KERNEL_OBJECTS && 0 <= b < MAX_KERNEL_OBJECTS implies #[trigger] n.apart(
        a,
        b,
    ) by {
        assert(o.apart(a, b));
    }
    assert forall|k: int| 0 <= k < MAX_SHM_OBJECTS implies (#[trigger] n.shm[k]).page_count
        <= MAX_SHM_PAGES && n.shm[k].frames.len() == MAX_SHM_PAGES && n.shm[k].page_count >= 0 by {
        assert(n.shm[k] == o.shm[k]);
    }
}

/// Freeing a slot keeps the invariant.
pub proof fn lemma_freed_keeps_wf(o: ObjectsView, i: int)
    requires
        o.wf(),
        0 <= i < MAX_KERNEL_OBJECTS,
    ensures
        o.with_slot(i, freed_slot(o.slots[i])).wf(),
{
    let n = o.with_slot(i, freed_slot(o.slots[i]));
    assert forall|a: int| 0 <= a < MAX_KERNEL_OBJECTS implies #[trigger] n.slot_ok(a) by {
        assert(o.slot_ok(a));
    }
    assert forall|a: int, b: int|
        0 <= a < MAX_KERNEL_OBJECTS && 0 <= b < MAX_KERNEL_OBJECTS implies #[trigger] n.apart(
        a,
        b,
    ) by {
        assert(o.apart(a, b));
    }
    assert forall|k: int| 0 <= k < MAX_SHM_OBJECTS implies (#[trigger] n.shm[k]).page_count
        <= MAX_SHM_PAGES && n.shm[k].frames.len() == MAX_SHM_PAGES && n.shm[k].page_count >= 0 by {
        assert(n.shm[k] == o.shm[k]);
    }
}

/// The objects after a new one was put into the free slot `i`.
pub open spec fn object_added(
    o: ObjectsView,
    i: int,
    t: KernelObjectType,
    pool_index: u16,
    creator_pid: u64,
) -> ObjectsView {
    ObjectsView {
        slots: o.slots.update(
            i,
            filled_slot(o.slots[i], t, pool_index, o.next_object_id, creator_pid),
        ),
        next_object_id: (o.next_object_id + 1) as u64,
        ..o
    }
}

/// No object of a type stands for an entry of the type's table.
pub open spec fn pool_entry_unused(o: ObjectsView, t: KernelObjectType, k: int) -> bool {
    forall|i: int| !(#[trigger] o.holds(i, t) && o.slots[i].pool_index == k)
}

/// A new object that stands for an unused entry keeps the invariant.
pub proof fn lemma_added_object_keeps_wf(
    o: ObjectsView,
    i: int,
    t: KernelObjectType,
    pool_index: u16,
    creator_pid: u64,
)
    requires
        o.wf(),
        0 <= i < MAX_KERNEL_OBJECTS,
        !o.slots[i].occupied,
        o.next_object_id < u64::MAX,
        t != KernelObjectType::Free,
        pool_entry_unused(o, t, pool_index as int),
        t == KernelObjectType::Channel ==> pool_index < MAX_CHANNELS,
        t == KernelObjectType::ShmObject ==> pool_index < MAX_SHM_OBJECTS,
    ensures
        object_added(o, i, t, pool_index, creator_pid).wf(),
{
    let n = object_added(o, i, t, pool_index, creator_pid);
    assert forall|a: int| 0 <= a < MAX_KERNEL_OBJECTS implies #[trigger] n.slot_ok(a) by {
        assert(o.slot_ok(a));
    }
    assert forall|a: int, b: int|
        0 <= a < MAX_KERNEL_OBJECTS && 0 <= b < MAX_KERNEL_OBJECTS implies #[trigger] n.apart(
        a,
        b,
    ) by {
        assert(o.apart(a, b));
        assert(o.slot_ok(a) && o.slot_ok(b));
        assert(!(o.holds(a, t) && o.slots[a].pool_index == pool_index));
        assert(!(o.holds(b, t) && o.slots[b].pool_index == pool_index));
    }
    assert forall|k: int| 0 <= k < MAX_SHM_OBJECTS implies (#[trigger] n.shm[k]).page_count
        <= MAX_SHM_PAGES && n.shm[k].frames.len() == MAX_SHM_PAGES && n.shm[k].page_count >= 0 by {
        assert(n.shm[k] == o.shm[k]);
    }
}

/// Taking an object number keeps the invariant.
pub proof fn lemma_object_number_keeps_wf(o: ObjectsView)
    requires
        o.wf(),
        o.next_object_id < u64::MAX,
    ensures
        (ObjectsView { next_object_id: (o.next_object_id + 1) as u64, ..o }).wf(),
{
    let n = ObjectsView { next_object_id: (o.next_object_id + 1) as u64, ..o };
    assert forall|a: int| 0 <= a < MAX_KERNEL_OBJECTS implies #[trigger] n.slot_ok(a) by {
        assert(o.slot_ok(a));
    }
    assert forall|a: int, b: int|
        0 <= a < MAX_KERNEL_OBJECTS && 0 <= b < MAX_KERNEL_OBJECTS implies #[trigger] n.apart(
        a,
        b,
    ) by {
        assert(o.apart(a, b));
    }
    assert forall|k: int| 0 <= k < MAX_SHM_OBJECTS implies (#[trigger] n.shm[k]).page_count
        <= MAX_SHM_PAGES && n.shm[k].frames.len() == MAX_SHM_PAGES && n.shm[k].page_count >= 0 by {
        assert(n.shm[k] == o.shm[k]);
    }
}

/// The outcome of putting a new object into the first free slot.
pub open spec fn object_allocation(
    o: ObjectsView,
    n: ObjectsView,
    t: KernelObjectType,
    pool_index: u16,
    creator_pid: u64,
    r: Result<usize, IpcError>,
) -> bool {
    let i = first_free(o.slots, 0);
    if o.next_object_id == u64::MAX {
        r == Err::<usize, IpcError>(IpcError::ObjectIdExhausted) && n == o
    } else if i >= MAX_KERNEL_OBJECTS {
        &&& r == Err::<usize, IpcError>(IpcError::ObjectTableFull)
        &&& n == (ObjectsView { next_object_id: (o.next_object_id + 1) as u64, ..o })
    } else {
        &&& 0 <= i
        &&& !o.slots[i].occupied
        &&& r == Ok::<usize, IpcError>(i as usize)
        &&& n == object_added(o, i, t, pool_index, creator_pid)
    }
}

/// Changing what a channel holds keeps the invariant.
pub proof fn lemma_channel_keeps_wf(o: ObjectsView, k: int, ch: ChannelView)
    requires
        o.wf(),
        0 <= k < MAX_CHANNELS,
    ensures
        (ObjectsView { channels: o.channels.update(k, ch), ..o }).wf(),
{
    let n = ObjectsView { channels: o.channels.update(k, ch), ..o };
    assert forall|a: int| 0 <= a < MAX_KERNEL_OBJECTS implies #[trigger] n.slot_ok(a) by {
        assert(o.slot_ok(a));
    }
    assert forall|a: int, b: int|
        0 <= a < MAX_KERNEL_OBJECTS && 0 <= b < MAX_KERNEL_OBJECTS implies #[trigger] n.apart(
        a,
        b,
    ) by {
        assert(o.apart(a, b));
    }
    assert forall|k: int| 0 <= k < MAX_SHM_OBJECTS implies (#[trigger] n.shm[k]).page_count
        <= MAX_SHM_PAGES && n.shm[k].frames.len() == MAX_SHM_PAGES && n.shm[k].page_count >= 0 by {
        assert(n.shm[k] == o.shm[k]);
    }
}

/// Changing a shared memory object keeps the invariant.
pub proof fn lemma_shm_keeps_wf(o: ObjectsView, k: int, m: ShmView)
    requires
        o.wf(),
        0 <= k < MAX_SHM_OBJECTS,
        0 <= m.page_count <= MAX_SHM_PAGES,
        m.frames.len() == MAX_SHM_PAGES,
    ensures
        (ObjectsView { shm: o.shm.update(k, m), ..o }).wf(),
{
    let n = ObjectsView { shm: o.shm.update(k, m), ..o };
    assert forall|a: int| 0 <= a < MAX_KERNEL_OBJECTS implies #[trigger] n.slot_ok(a) by {
        assert(o.slot_ok(a));
    }
    assert forall|a: int, b: int|
        0 <= a < MAX_KERNEL_OBJECTS && 0 <= b < MAX_KERNEL_OBJECTS implies #[trigger] n.apart(
        a,
        b,
    ) by {
        assert(o.apart(a, b));
    }
    assert forall|j: int| 0 <= j < MAX_SHM_OBJECTS implies (#[trigger] n.shm[j]).page_count
        <= MAX_SHM_PAGES && n.shm[j].frames.len() == MAX_SHM_PAGES && n.shm[j].page_count >= 0 by {
        if j != k {
            assert(n.shm[j] == o.shm[j]);
        }
    }
}

impl ObjectSpace {
    /// Replaces the header of an object.
    pub(crate) fn set_header(&mut self, i: usize, header: KernelObjectHeader)
        requires
            old(self).wf(),
            i < MAX_KERNEL_OBJECTS,
            old(self)@.slots[i as int].occupied,
            header.object_id == old(self)@.slots[i as int].header.object_id,
        ensures
            final(self).wf(),
            final(self)@ == old(self)@.with_slot(
                i as int,
                with_header(old(self)@.slots[i as int], header),
            ),
    {
        proof {
            lemma_same_object_keeps_wf(
                self@,
                i as int,
                with_header(self@.slots[i as int], header),
            );
        }
        self.objects.slots[i].header = header;
        assert(self@ =~= old(self)@.with_slot(
            i as int,
            with_header(old(self)@.slots[i as int], header),
        ));
    }

    /// Puts a new object into the first free slot.
    pub(crate) fn add_object(
        &mut self,
        t: KernelObjectType,
        pool_index: u16,
        creator_pid: u64,
    ) -> (r: Result<usize, IpcError>)
        requires
            old(self).wf(),
            t != KernelObjectType::Free,
            pool_entry_unused(old(self)@, t, pool_index as int),
            t == KernelObjectType::Channel ==> pool_index < MAX_CHANNELS,
            t == KernelObjectType::ShmObject ==> pool_index < MAX_SHM_OBJECTS,
        ensures
            final(self).wf(),
            object_allocation(old(self)@, final(self)@, t, pool_index, creator_pid, r),
    {
        let ghost o = self@;
        let r = allocate_object_slot_locked(&mut self.objects, t, pool_index, creator_pid);
        proof {
            let i = first_free(o.slots, 0);
            if o.next_object_id == u64::MAX {
                assert(self@ =~= o);
            } else if i >= MAX_KERNEL_OBJECTS {
                lemma_object_number_keeps_wf(o);
                assert(self@ =~= (ObjectsView {
                    next_object_id: (o.next_object_id + 1) as u64,
                    ..o
                }));
            } else {
                lemma_added_object_keeps_wf(o, i, t, pool_index, creator_pid);
                assert(self@ =~= object_added(o, i, t, pool_index, creator_pid));
            }
        }
        r
    }

    /// Frees the slot of an object.
    pub(crate) fn free_slot(&mut self, i: usize)
        requires
            old(self).wf(),
            i < MAX_KERNEL_OBJECTS,
            old(self)@.slots[i as int].occupied,
        ensures
            final(self).wf(),
            final(self)@ == old(self)@.with_slot(
                i as int,
                freed_slot(old(self)@.slots[i as int]),
            ),
    {
        proof {
            lemma_freed_keeps_wf(self@, i as int);
        }
        free_object_slot_locked(&mut self.objects, i);
        assert(self@ =~= old(self)@.with_slot(i as int, freed_slot(old(self)@.slots[i as int])));
    }

    /// Replaces a channel.
    pub(crate) fn set_channel(&mut self, k: usize, ch: Channel)
        requires
            old(self).wf(),
            k < MAX_CHANNELS,
            ch.wf(),
        ensures
            final(self).wf(),
            final(self)@ == (ObjectsView {
                channels: old(self)@.channels.update(k as int, ch@),
                ..old(self)@
            }),
    {
        proof {
            lemma_channel_keeps_wf(self@, k as int, ch@);
        }
        let ghost before = self@;
        self.channels.set(k, ch);
        assert(self@ =~= (ObjectsView { channels: before.channels.update(k as int, ch@), ..before }));
    }

    /// Replaces a shared memory object.
    pub(crate) fn set_shm(&mut self, k: usize, m: ShmObject)
        requires
            old(self).wf(),
            k < MAX_SHM_OBJECTS,
            m.page_count <= MAX_SHM_PAGES,
        ensures
            final(self).wf(),
            final(self)@ == (ObjectsView {
                shm: old(self)@.shm.update(k as int, m@),
                ..old(self)@
            }),
    {
        proof {
            lemma_shm_keeps_wf(self@, k as int, m@);
        }
        let ghost before = self@;
        self.shm[k] = m;
        assert(self@ =~= (ObjectsView { shm: before.shm.update(k as int, m@), ..before }));
    }

    /// Counts one handle to an object more.
    pub(crate) fn add_handle(&mut self, i: usize, endpoint: u8)
        requires
            old(self).wf(),
            i < MAX_KERNEL_OBJECTS,
            old(self)@.slots[i as int].occupied,
            old(self)@.slots[i as int].header.handle_refs < u16::MAX,
            old(self)@.slots[i as int].obj_type == KernelObjectType::Channel ==> old(
                self,
            )@.channel_of(i as int).mine(endpoint).handle_refs < u16::MAX,
        ensures
            final(self).wf(),
            final(self)@ == handle_added(old(self)@, i as int, endpoint),
    {
        let ghost o = self@;
        let mut header = self.objects.slots[i].header;
        header.handle_refs = header.handle_refs + 1;
        self.set_header(i, header);
        if self.objects.slots[i].obj_type == KernelObjectType::Channel {
            assert(self@.slot_ok(i as int));
            let k: usize = self.objects.slots[i].pool_index as usize;
            let mut ch = self.take_channel(k);
            assert(ch@ == o.channel_of(i as int));
            ch.add_ref(endpoint);
            self.set_channel(k, ch);
        }
        assert(self@ =~= handle_added(o, i as int, endpoint));
    }

    /// Counts one handle to an object off.
    pub(crate) fn drop_handle(&mut self, i: usize, endpoint: u8)
        requires
            old(self).wf(),
        ensures
            final(self).wf(),
            final(self)@ == old(self)@.handle_gone(i as int, endpoint),
    {
        if i < MAX_KERNEL_OBJECTS {
            if self.objects.slots[i].occupied {
                let ghost o = self@;
                let mut header = self.objects.slots[i].header;
                header.handle_refs = header.handle_refs.saturating_sub(1);
                assert(header == one_handle_less(self@.slots[i as int].header));
                self.set_header(i, header);
                if self.objects.slots[i].obj_type == KernelObjectType::Channel {
                    assert(self@.slot_ok(i as int));
                    let k: usize = self.objects.slots[i].pool_index as usize;
                    let mut ch = self.take_channel(k);
                    assert(ch@ == o.channel_of(i as int));
                    ch.drop_ref(endpoint);
                    self.set_channel(k, ch);
                }
                assert(self@ =~= o.handle_gone(i as int, endpoint));
            }
        }
    }
}

/// Lets a channel go that nobody refers to and at which nobody waits.
pub fn check_and_reclaim_channel_locked(o: &mut ObjectSpace, obj_idx: usize)
    requires
        old(o).wf(),
        obj_idx < MAX_KERNEL_OBJECTS,
    ensures
        final(o).wf(),
        final(o)@ == old(o)@.reclaim_channel(obj_idx as int),
{
    let slot = o.objects.slots[obj_idx];
    assert(slot == o@.slots[obj_idx as int]);
    if !slot.occupied || slot.obj_type != KernelObjectType::Channel {
        return;
    }
    assert(o@.slot_ok(obj_idx as int));
    let ch_idx: usize = slot.pool_index as usize;
    assert(o@.channel_of(obj_idx as int) == o.channels@[ch_idx as int]@);
    if slot.header.ref_count() == 0 && o.channels[ch_idx].is_quiet() {
        o.set_channel(ch_idx, Channel::empty());
        o.free_slot(obj_idx);
        assert(o@ =~= old(o)@.reclaim_channel(obj_idx as int));
    }
}

/// Lets a shared memory object go that nobody refers to, and gives its frames back.
pub fn check_and_reclaim_shm_locked(o: &mut ObjectSpace, obj_idx: usize, fx: &mut Effects)
    requires
        old(o).wf(),
        obj_idx < MAX_KERNEL_OBJECTS,
    ensures
        final(o).wf(),
        (World { objs: final(o)@, fx: final(fx)@ }) == (World {
            objs: old(o)@,
            fx: old(fx)@,
        }).reclaim_shm(obj_idx as int),
{
    let slot = o.objects.slots[obj_idx];
    let ghost i = obj_idx as int;
    assert(slot == o@.slots[i]);
    if !slot.occupied || slot.obj_type != KernelObjectType::ShmObject || slot.header.ref_count()
        != 0 {
        assert(fx@ =~= old(fx)@.freeing(Seq::empty()));
        return;
    }
    assert(o@.slot_ok(i));
    let s_idx: usize = slot.pool_index as usize;
    let m = o.shm[s_idx];
    assert(m@ == o@.shm_of(i));
    assert(o@.shm[s_idx as int].page_count <= MAX_SHM_PAGES);
    let mut k: usize = 0;
    assert(m.frames@.take(0) =~= Seq::<u64>::empty());
    assert(fx@ =~= old(fx)@.freeing(Seq::empty()));
    while k < m.page_count
        invariant
            k <= m.page_count <= MAX_SHM_PAGES,
            fx@ == old(fx)@.freeing(m.frames@.take(k as int)),
        decreases m.page_count - k,
    {
        fx.freed_frames.push(m.frames[k]);
        assert(m.frames@.take(k + 1) =~= m.frames@.take(k as int).push(m.frames@[k as int]));
        assert(fx@ =~= old(fx)@.freeing(m.frames@.take(k + 1)));
        k = k + 1;
    }
    o.set_shm(s_idx, ShmObject::empty());
    o.free_slot(obj_idx);
    assert(o@ =~= old(o)@.reclaim_shm(i));
}

impl ObjectSpace {
    /// A handle to an object was revoked.
    pub(crate) fn release_revoked(&mut self, i: usize, endpoint: u8, fx: &mut Effects)
        requires
            old(self).wf(),
        ensures
            final(self).wf(),
            (World { objs: final(self)@, fx: final(fx)@ }) == (World {
                objs: old(self)@,
                fx: old(fx)@,
            }).handle_revoked(i as int, endpoint),
    {
        self.drop_handle(i, endpoint);
        let ghost o = self@;
        if i >= MAX_KERNEL_OBJECTS {
            assert(fx@ =~= old(fx)@.freeing(Seq::empty()));
            return;
        }
        if self.objects.slots[i].occupied && self.objects.slots[i].obj_type
            == KernelObjectType::Channel {
            assert(self@.slot_ok(i as int));
            let k: usize = self.objects.slots[i].pool_index as usize;
            let ghost ch0 = self.channels@[k as int]@;
            assert(ch0 == o.channel_of(i as int));
            let mut ch = self.take_channel(k);
            ch.wake_all(endpoint, &mut fx.woken);
            self.set_channel(k, ch);
            assert(self@ =~= o.with_channel(i as int, ch0.quieted()));
            assert(fx@ =~= old(fx)@.waking(ch0.all_waiters(endpoint)));
            check_and_reclaim_channel_locked(self, i);
        } else {
            check_and_reclaim_shm_locked(self, i, fx);
        }
    }

    /// Takes a channel out of the table, leaving an empty one in its place.
    pub(crate) fn take_channel(&mut self, k: usize) -> (r: Channel)
        requires
            old(self).wf(),
            k < MAX_CHANNELS,
        ensures
            final(self).wf(),
            r.wf(),
            r@ == old(self)@.channels[k as int],
            final(self)@ == (ObjectsView {
                channels: old(self)@.channels.update(k as int, blank_channel()),
                ..old(self)@
            }),
    {
        proof {
            lemma_channel_keeps_wf(self@, k as int, blank_channel());
        }
        let ghost before = self@;
        let mut ch = Channel::empty();
        std::mem::swap(&mut ch, &mut self.channels[k]);
        assert(self@ =~= (ObjectsView {
            channels: before.channels.update(k as int, blank_channel()),
            ..before
        }));
        ch
    }

    /// A handle to an object was closed, and counted off already.
    pub(crate) fn release_closed(&mut self, i: usize, endpoint: u8, fx: &mut Effects)
        requires
            old(self).wf(),
        ensures
            final(self).wf(),
            (World { objs: final(self)@, fx: final(fx)@ }) == (World {
                objs: old(self)@,
                fx: old(fx)@,
            }).end_released(i as int, endpoint),
    {
        let ghost o = self@;
        if i >= MAX_KERNEL_OBJECTS {
            assert(fx@ =~= old(fx)@.freeing(Seq::empty()));
            return;
        }
        if self.objects.slots[i].occupied && self.objects.slots[i].obj_type
            == KernelObjectType::Channel {
            assert(self@.slot_ok(i as int));
            let k: usize = self.objects.slots[i].pool_index as usize;
            let ghost ch0 = self.channels@[k as int]@;
            assert(ch0 == o.channel_of(i as int));
            if self.channels[k].is_unheld(endpoint) {
                let mut ch = self.take_channel(k);
                ch.close_end(endpoint);
                let mut header = self.objects.slots[i].header;
                header.signals = header.signals | signals::PEER_CLOSED;
                ch.wake_all(endpoint, &mut fx.woken);
                self.set_header(i, header);
                self.set_channel(k, ch);
                assert(ch0.end_closed(endpoint).all_waiters(endpoint) == ch0.all_waiters(endpoint));
                assert(fx@ =~= old(fx)@.waking(ch0.all_waiters(endpoint)));
                assert(self@ =~= o.with_slot(
                    i as int,
                    with_header(o.slots[i as int], header),
                ).with_channel(i as int, ch0.end_closed(endpoint).quieted()));
            }
            check_and_reclaim_channel_locked(self, i);
        } else {
            check_and_reclaim_shm_locked(self, i, fx);
        }
    }
}

} // verus!
