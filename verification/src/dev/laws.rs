//! What devices, their interrupts, their memory and their registers may be used for, and what
//! comes of it.
use crate::dev::dma::{
    allocating, buffer_ok, buffer_slot, buffers_in, frames_of, frames_owned, free_buffer, giving_up, has_pin, is_buffer,
    is_pinned, lemma_pins_after, owned_in, pin_ok, pin_place, pin_room, pinned_in, DmaTables,
};
use crate::dev::interrupt::{
    binding, dispatching, event_slot, free_binding, is_event, law_all_listeners_hear,
    line_after_tick, listeners, unbinding, Delivery, InterruptTable,
};
use crate::dev::mmio::{is_mmio_range, page_addresses, planning_mmio, MmioAperture, MmioMapPlan};
use crate::dev::registry::{
    class_slot, device_slot, devices_in, driven_in, drives, free_device_slot, free_resource_slot, giving_resource, in_the_way,
    is_device, is_driven_by, is_legal_step, law_device_is_found, registered, registering, stepping, with_resource, without_device, without_driver,
    DeviceRegistry,
};
use crate::dev::types::{
    empty_buffer, DeviceClass, DeviceError, DeviceId, DeviceLifecycleState, DeviceResourceSlot, DeviceSlot,
    DmaBufferDescriptor, InterruptBinding, IrqLineState, PhysicalFramePinRecord, ResourceSharing,
    ResourceType,
};
use crate::ipc::object::{KernelObjectSlot, KernelObjectType};
use vstd::prelude::*;

verus! {

proof fn lemma_free_device_slot(devices: Seq<DeviceSlot>, from: int)
    requires
        0 <= from <= devices.len(),
    ensures
        from <= free_device_slot(devices, from) <= devices.len(),
        free_device_slot(devices, from) < devices.len() ==> !devices[free_device_slot(
            devices,
            from,
        )].occupied,
        forall|i: int|
            from <= i < free_device_slot(devices, from) ==> (#[trigger] devices[i]).occupied,
    decreases devices.len() - from,
{
    if from < devices.len() && devices[from].occupied {
        lemma_free_device_slot(devices, from + 1);
    }
}

/// A device is added exactly if none has its identifier and a slot is free. It then has been
/// discovered and nothing more: no process drives it and it has no resources. Other devices are as
/// they were.
pub proof fn law_device_is_added_exactly_if_new(
    devices: Seq<DeviceSlot>,
    id: DeviceId,
    class: DeviceClass,
)
    requires
        devices.len() == 16,
    ensures
        ({
            let r = registering(devices, id);
            let now = registered(devices, id, class);
            let known = exists|i: int| 0 <= i < 16 && is_device(#[trigger] devices[i], id);
            let room = exists|i: int| 0 <= i < 16 && !(#[trigger] devices[i]).occupied;
            &&& r is Ok <==> !known && room
            &&& r == Err::<usize, DeviceError>(DeviceError::ResourceConflict) <==> known
            &&& r == Err::<usize, DeviceError>(DeviceError::CapacityExceeded) <==> !known && !room
            &&& r is Err ==> now == devices
            &&& r is Ok ==> {
                let i = r->Ok_0 as int;
                &&& 0 <= i < 16
                &&& !devices[i].occupied
                &&& forall|j: int| 0 <= j < i ==> (#[trigger] devices[j]).occupied
                &&& now[i].occupied
                &&& now[i].device_id == id
                &&& now[i].class == class
                &&& now[i].state == DeviceLifecycleState::Discovered
                &&& now[i].driver_pid == 0
                &&& now[i].resource_mask == 0
                &&& now[i].bound_event_id == 0
                &&& now[i].generation != devices[i].generation
                &&& forall|j: int| 0 <= j < 16 && j != i ==> (#[trigger] now[j]) == devices[j]
            }
        }),
{
    lemma_free_device_slot(devices, 0);
    law_device_is_found(devices, id, 0, 0);
    assert forall|i: int| 0 <= i < 16 && is_device(#[trigger] devices[i], id) implies
        device_slot(devices, id, 0) <= i by {
        law_device_is_found(devices, id, 0, i);
    }
    let d = device_slot(devices, id, 0);
    if d < 16 {
        assert(is_device(devices[d], id));
    }
    let f = free_device_slot(devices, 0);
    if f < 16 {
        assert(!devices[f].occupied);
    }
}

/// The first device of a class is found, and where none is found there is none.
pub proof fn law_class_is_found(devices: Seq<DeviceSlot>, class: DeviceClass, from: int)
    requires
        0 <= from <= devices.len(),
    ensures
        from <= class_slot(devices, class, from) <= devices.len(),
        class_slot(devices, class, from) < devices.len() ==> devices[class_slot(
            devices,
            class,
            from,
        )].occupied && devices[class_slot(devices, class, from)].class == class,
        forall|i: int|
            from <= i < class_slot(devices, class, from) ==> !((#[trigger] devices[i]).occupied
                && devices[i].class == class),
    decreases devices.len() - from,
{
    if from < devices.len() && !(devices[from].occupied && devices[from].class == class) {
        law_class_is_found(devices, class, from + 1);
    }
}

proof fn lemma_free_resource_slot(resources: Seq<DeviceResourceSlot>, from: int)
    requires
        0 <= from <= resources.len(),
    ensures
        from <= free_resource_slot(resources, from) <= resources.len(),
        free_resource_slot(resources, from) < resources.len() ==> !resources[free_resource_slot(
            resources,
            from,
        )].occupied,
        forall|i: int|
            from <= i < free_resource_slot(resources, from) ==> (#[trigger] resources[i]).occupied,
    decreases resources.len() - from,
{
    if from < resources.len() && resources[from].occupied {
        lemma_free_resource_slot(resources, from + 1);
    }
}

/// Two ranges of one type share an address, and not both may be shared. Ports are never shared.
pub open spec fn collides(
    s: DeviceResourceSlot,
    res_type: ResourceType,
    sharing: ResourceSharing,
    base: u64,
    size: u64,
) -> bool {
    &&& s.occupied
    &&& s.res_type == res_type
    &&& res_type != ResourceType::Unused
    &&& exists|a: int| #[trigger] covers(s, a) && base <= a < base + size
    &&& !(s.sharing == ResourceSharing::Shared && sharing == ResourceSharing::Shared && res_type
        != ResourceType::IoPort)
}

/// The range of a resource covers an address.
pub open spec fn covers(s: DeviceResourceSlot, a: int) -> bool {
    s.base <= a < s.base + s.size
}

proof fn lemma_collides(
    s: DeviceResourceSlot,
    res_type: ResourceType,
    sharing: ResourceSharing,
    base: u64,
    size: u64,
)
    requires
        size > 0,
        s.occupied ==> s.size > 0 && s.base + s.size <= u64::MAX,
    ensures
        in_the_way(s, res_type, sharing, base as int, size as int) <==> collides(
            s,
            res_type,
            sharing,
            base,
            size,
        ),
{
    if in_the_way(s, res_type, sharing, base as int, size as int) {
        let a = if base <= s.base {
            s.base as int
        } else {
            base as int
        };
        assert(covers(s, a));
    }
}

/// A resource is given out exactly if it is a range of addresses that no other resource of its type
/// shares against its will, and a slot is free. It is then recorded as asked for; otherwise nothing
/// changes.
pub proof fn law_resource_is_given_exactly_if_free(
    before: &DeviceRegistry,
    after: &DeviceRegistry,
    id: DeviceId,
    res_type: ResourceType,
    sharing: ResourceSharing,
    base: u64,
    size: u64,
    r: Result<usize, DeviceError>,
)
    requires
        forall|i: int|
            0 <= i < 64 && (#[trigger] before.resources@[i]).occupied ==> before.resources@[i].size
                > 0 && before.resources@[i].base + before.resources@[i].size <= u64::MAX,
        giving_resource(before, after, id, res_type, sharing, base, size, r),
    ensures
        ({
            let range = size > 0 && base + size <= 0xFFFF_FFFF_FFFF_FFFF;
            let clash = exists|i: int|
                0 <= i < 64 && collides(
                    #[trigger] before.resources@[i],
                    res_type,
                    sharing,
                    base,
                    size,
                );
            let room = exists|i: int| 0 <= i < 64 && !(#[trigger] before.resources@[i]).occupied;
            &&& r is Ok <==> range && !clash && room
            &&& r == Err::<usize, DeviceError>(DeviceError::InvalidParameter) <==> !range
            &&& r == Err::<usize, DeviceError>(DeviceError::ResourceConflict) <==> range && clash
            &&& r == Err::<usize, DeviceError>(DeviceError::CapacityExceeded) <==> range && !clash
                && !room
            &&& r is Err ==> *after == *before
            &&& r is Ok ==> {
                let i = r->Ok_0 as int;
                let now = after.resources@[i];
                &&& 0 <= i < 64
                &&& !before.resources@[i].occupied
                &&& forall|j: int| 0 <= j < i ==> (#[trigger] before.resources@[j]).occupied
                &&& now.occupied && now.device_id == id && now.res_type == res_type
                &&& now.sharing == sharing && now.base == base && now.size == size
                &&& forall|j: int|
                    0 <= j < 64 && j != i ==> (#[trigger] after.resources@[j])
                        == before.resources@[j]
                &&& forall|d: int|
                    0 <= d < 16 && !is_device(before.devices@[d], id) ==> (
                    #[trigger] after.devices@[d]) == before.devices@[d]
            }
        }),
{
    lemma_free_resource_slot(before.resources@, 0);
    let f = free_resource_slot(before.resources@, 0);
    if f < 64 {
        assert(!before.resources@[f].occupied);
    }
    if size > 0 {
        assert forall|i: int| 0 <= i < 64 implies in_the_way(
            #[trigger] before.resources@[i],
            res_type,
            sharing,
            base as int,
            size as int,
        ) == collides(before.resources@[i], res_type, sharing, base, size) by {
            lemma_collides(before.resources@[i], res_type, sharing, base, size);
        }
        let clash = exists|i: int|
            0 <= i < 64 && collides(
                #[trigger] before.resources@[i],
                res_type,
                sharing,
                base,
                size,
            );
        if clash {
            let i = choose|i: int|
                0 <= i < 64 && collides(
                    #[trigger] before.resources@[i],
                    res_type,
                    sharing,
                    base,
                    size,
                );
            assert(in_the_way(before.resources@[i], res_type, sharing, base as int, size as int));
        }
    }
    law_device_is_found(before.devices@, id, 0, 0);
}

/// The steps by which a device gets into each state of its life.
pub proof fn law_how_a_device_gets_there(from: DeviceLifecycleState, to: DeviceLifecycleState)
    ensures
        is_legal_step(from, to) <==> match to {
            DeviceLifecycleState::Discovered => false,
            DeviceLifecycleState::Probed => from == DeviceLifecycleState::Discovered,
            DeviceLifecycleState::Attached => from == DeviceLifecycleState::Probed,
            DeviceLifecycleState::Ready => from == DeviceLifecycleState::Attached || from
                == DeviceLifecycleState::Active || from == DeviceLifecycleState::Resetting,
            DeviceLifecycleState::Active => from == DeviceLifecycleState::Ready,
            DeviceLifecycleState::Quiescing => from == DeviceLifecycleState::Ready || from
                == DeviceLifecycleState::Active,
            DeviceLifecycleState::Detached => from == DeviceLifecycleState::Quiescing || from
                == DeviceLifecycleState::Faulted,
            DeviceLifecycleState::Released => from == DeviceLifecycleState::Detached,
            DeviceLifecycleState::Faulted => from == DeviceLifecycleState::Ready || from
                == DeviceLifecycleState::Active,
            DeviceLifecycleState::Resetting => from == DeviceLifecycleState::Ready || from
                == DeviceLifecycleState::Quiescing || from == DeviceLifecycleState::Faulted,
        },
{
}

/// A step succeeds exactly if there is a device in the slot and its state allows the step. The
/// device is then in that state, and its slot is free if it was released; nothing else changes.
pub proof fn law_step_succeeds_exactly_if_legal(
    before: Seq<DeviceSlot>,
    after: Seq<DeviceSlot>,
    slot: usize,
    to: DeviceLifecycleState,
    r: Result<(), DeviceError>,
)
    requires
        before.len() == 16,
        stepping(before, after, slot, to, r),
    ensures
        r is Ok <==> slot < 16 && before[slot as int].occupied && is_legal_step(
            before[slot as int].state,
            to,
        ),
        r == Err::<(), DeviceError>(DeviceError::DeviceNotFound) <==> slot < 16
            && !before[slot as int].occupied,
        r is Err ==> after == before,
        r is Ok ==> {
            &&& after[slot as int].state == to
            &&& after[slot as int].occupied <==> to != DeviceLifecycleState::Released
            &&& after[slot as int].device_id == before[slot as int].device_id
            &&& after[slot as int].driver_pid == before[slot as int].driver_pid
            &&& after[slot as int].resource_mask == before[slot as int].resource_mask
            &&& forall|i: int| 0 <= i < 16 && i != slot ==> (#[trigger] after[i]) == before[i]
        },
{
}

proof fn lemma_free_binding_slot(bs: Seq<InterruptBinding>, from: int)
    requires
        0 <= from <= bs.len(),
    ensures
        from <= free_binding(bs, from) <= bs.len(),
        free_binding(bs, from) < bs.len() ==> !bs[free_binding(bs, from)].occupied,
        forall|i: int| from <= i < free_binding(bs, from) ==> (#[trigger] bs[i]).occupied,
    decreases bs.len() - from,
{
    if from < bs.len() && bs[from].occupied {
        lemma_free_binding_slot(bs, from + 1);
    }
}

/// A driver hears of a line exactly if nobody else does, or if the line is shared, the driver
/// shares it and fewer than four listen. Its binding is then found by the number that it gets, and
/// the other listeners stay.
pub proof fn law_binding_is_added_exactly_if_allowed(
    before: &InterruptTable,
    after: &InterruptTable,
    vector: u8,
    sharing: ResourceSharing,
    device_id: DeviceId,
    driver_pid: u64,
    event_object_id: u64,
    top_half: Option<u64>,
    r: Result<u16, DeviceError>,
)
    requires
        before.wf(),
        binding(
            before,
            after,
            vector,
            sharing,
            device_id,
            driver_pid,
            event_object_id,
            top_half,
            r,
        ),
    ensures
        ({
            let v = vector as int;
            let line = before.lines@[v];
            let n = line.active_bindings;
            let both = line.sharing == ResourceSharing::Shared && sharing
                == ResourceSharing::Shared;
            &&& r is Ok <==> n == 0 || (both && n < 4)
            &&& r == Err::<u16, DeviceError>(DeviceError::ResourceConflict) <==> n > 0 && !both
            &&& r == Err::<u16, DeviceError>(DeviceError::CapacityExceeded) <==> both && n >= 4
            &&& r is Err ==> after.lines@[v] == line && after.bindings@[v] == before.bindings@[v]
            &&& r is Ok ==> {
                let b = r->Ok_0 as int % 256;
                let now = after.bindings@[v]@[b];
                &&& r->Ok_0 as int / 256 == v
                &&& 0 <= b < 4
                &&& !before.bindings@[v]@[b].occupied
                &&& forall|j: int| 0 <= j < b ==> (#[trigger] before.bindings@[v]@[j]).occupied
                &&& now.occupied && now.binding_id == r->Ok_0
                &&& now.device_id == device_id && now.driver_pid == driver_pid
                &&& now.event_object_id == event_object_id && now.top_half == top_half
                &&& now.interrupt_count == 0
                &&& after.lines@[v].active_bindings == n + 1
                &&& after.lines@[v].sharing == sharing
                &&& after.lines@[v].masked == line.masked
                &&& after.lines@[v].in_storm == line.in_storm
                &&& forall|j: int|
                    0 <= j < 4 && j != b ==> (#[trigger] after.bindings@[v]@[j])
                        == before.bindings@[v]@[j]
            }
        }),
{
    let bs = before.bindings@[vector as int]@;
    lemma_free_binding_slot(bs, 0);
}

/// A binding is removed exactly if its number is that of one in use; the others stay. A line that
/// loses its last listener is as if nobody had ever listened: not shared, not masked, in no storm.
pub proof fn law_binding_is_removed_exactly_if_there(
    before: &InterruptTable,
    after: &InterruptTable,
    id: u16,
    r: Result<(), DeviceError>,
)
    requires
        before.wf(),
        unbinding(before, after, id, r),
    ensures
        ({
            let v = id as int / 256;
            let b = id as int % 256;
            let line = before.lines@[v];
            let now = after.lines@[v];
            &&& r is Ok <==> b < 4 && before.bindings@[v]@[b].occupied
            &&& r is Err ==> *after == *before
            &&& r is Ok ==> {
                &&& !after.bindings@[v]@[b].occupied
                &&& now.active_bindings + 1 == line.active_bindings
                &&& now.active_bindings == 0 ==> now.sharing == ResourceSharing::Exclusive
                    && !now.masked && !now.in_storm
                &&& now.active_bindings > 0 ==> now.sharing == line.sharing && now.masked
                    == line.masked && now.in_storm == line.in_storm
                &&& forall|j: int|
                    0 <= j < 4 && j != b ==> (#[trigger] after.bindings@[v]@[j])
                        == before.bindings@[v]@[j]
            }
        }),
{
    let v = id as int / 256;
    let b = id as int % 256;
    assert(before.lines@[v].active_bindings == listeners(before.bindings@[v]@, 4));
    if b < 4 && before.bindings@[v]@[b].occupied {
        let bs = before.bindings@[v]@;
        reveal_with_fuel(listeners, 5);
        assert(bs[b].occupied);
        assert(listeners(bs, 4) >= 1);
    }
}

/// An interrupt reaches everyone who listens, once, exactly if its line is not masked and fired
/// fewer than a thousand times in this tick; otherwise it reaches nobody. It is counted in any
/// case.
pub proof fn law_interrupt_reaches_its_listeners(
    before: &InterruptTable,
    after: &InterruptTable,
    v: int,
    r: Seq<Delivery>,
)
    requires
        before.wf(),
        0 <= v < 256,
        before.lines@[v].total_line_interrupts < u64::MAX,
        before.lines@[v].irq_count_current_tick < u32::MAX,
        forall|b: int|
            0 <= b < 4 ==> (#[trigger] before.bindings@[v]@[b]).interrupt_count < u64::MAX,
        dispatching(before, after, v, r),
    ensures
        ({
            let line = before.lines@[v];
            let heard = !line.masked && line.irq_count_current_tick < 1000;
            &&& r.len() == (if heard {
                line.active_bindings as int
            } else {
                0
            })
            &&& forall|b: int|
                0 <= b < 4 ==> (#[trigger] after.bindings@[v]@[b]).interrupt_count
                    == before.bindings@[v]@[b].interrupt_count + (if heard
                    && before.bindings@[v]@[b].occupied {
                    1int
                } else {
                    0int
                })
            &&& forall|b: int|
                0 <= b < 4 && heard && (#[trigger] before.bindings@[v]@[b]).occupied ==> exists|
                    i: int,
                |
                    0 <= i < r.len() && (#[trigger] r[i]).device_id
                        == before.bindings@[v]@[b].device_id && r[i].event_object_id
                        == before.bindings@[v]@[b].event_object_id && r[i].top_half
                        == before.bindings@[v]@[b].top_half
            &&& after.lines@[v].total_line_interrupts == line.total_line_interrupts + 1
            &&& after.lines@[v].irq_count_current_tick == line.irq_count_current_tick + 1
            &&& after.lines@[v].active_bindings == line.active_bindings
            &&& after.lines@[v].sharing == line.sharing
            &&& line.irq_count_current_tick >= 1000 ==> after.lines@[v].masked
                && after.lines@[v].in_storm && after.lines@[v].cooldown_ticks_remaining == 50
            &&& line.irq_count_current_tick < 1000 ==> after.lines@[v].masked == line.masked
                && after.lines@[v].in_storm == line.in_storm
                && after.lines@[v].cooldown_ticks_remaining == line.cooldown_ticks_remaining
        }),
{
    let bs = before.bindings@[v]@;
    assert(before.lines@[v].active_bindings == listeners(bs, 4));
    law_all_listeners_hear(bs, 4);
    let line = before.lines@[v];
    let heard = !line.masked && line.irq_count_current_tick < 1000;
    if heard {
        assert forall|b: int| 0 <= b < 4 && (#[trigger] bs[b]).occupied implies exists|i: int|
            0 <= i < r.len() && (#[trigger] r[i]).device_id == bs[b].device_id
                && r[i].event_object_id == bs[b].event_object_id && r[i].top_half
                == bs[b].top_half by {
            let i = listeners(bs, b);
            reveal_with_fuel(listeners, 5);
            assert(0 <= i < listeners(bs, 4));
            assert(r[i].device_id == bs[b].device_id);
        }
    }
}

/// A tick begins the count anew and takes one tick off the time that a line stays masked; what the
/// line is told by its listeners stays.
pub proof fn law_effect_of_a_tick(line: IrqLineState)
    ensures
        ({
            let now = line_after_tick(line);
            &&& now.irq_count_current_tick == 0
            &&& line.cooldown_ticks_remaining > 0 ==> now.cooldown_ticks_remaining + 1
                == line.cooldown_ticks_remaining
            &&& line.cooldown_ticks_remaining == 0 ==> now.cooldown_ticks_remaining == 0
            &&& now.active_bindings == line.active_bindings
            &&& now.sharing == line.sharing
            &&& now.total_line_interrupts == line.total_line_interrupts
            &&& line.masked && !now.masked <==> line.masked && line.in_storm
                && line.cooldown_ticks_remaining == 1
            &&& now.masked ==> line.masked
            &&& now.in_storm ==> line.in_storm
        }),
{
}

/// The event object that is found is one with the identifier, and where none is found there is
/// none.
pub proof fn law_event_is_found(slots: Seq<KernelObjectSlot>, id: u64, from: int)
    requires
        0 <= from <= slots.len(),
    ensures
        from <= event_slot(slots, id, from) <= slots.len(),
        ({
            let i = event_slot(slots, id, from);
            i < slots.len() ==> slots[i].occupied && slots[i].obj_type == KernelObjectType::Event
                && slots[i].header.object_id == id
        }),
        forall|i: int|
            from <= i < event_slot(slots, id, from) ==> !((#[trigger] slots[i]).occupied
                && slots[i].obj_type == KernelObjectType::Event && slots[i].header.object_id == id),
    decreases slots.len() - from,
{
    if from < slots.len() && !is_event(slots[from], id) {
        law_event_is_found(slots, id, from + 1);
    }
}

proof fn lemma_free_buffer(bs: Seq<DmaBufferDescriptor>, from: int)
    requires
        0 <= from <= bs.len(),
    ensures
        from <= free_buffer(bs, from) <= bs.len(),
        free_buffer(bs, from) < bs.len() ==> !bs[free_buffer(bs, from)].occupied,
        forall|i: int| from <= i < free_buffer(bs, from) ==> (#[trigger] bs[i]).occupied,
    decreases bs.len() - from,
{
    if from < bs.len() && bs[from].occupied {
        lemma_free_buffer(bs, from + 1);
    }
}

proof fn lemma_buffer_slot(bs: Seq<DmaBufferDescriptor>, id: u32, from: int)
    requires
        0 <= from <= bs.len(),
    ensures
        from <= buffer_slot(bs, id, from) <= bs.len(),
        buffer_slot(bs, id, from) < bs.len() ==> is_buffer(bs[buffer_slot(bs, id, from)], id),
        forall|i: int| from <= i < buffer_slot(bs, id, from) ==> !is_buffer(#[trigger] bs[i], id),
    decreases bs.len() - from,
{
    if from < bs.len() && !is_buffer(bs[from], id) {
        lemma_buffer_slot(bs, id, from + 1);
    }
}

/// Every record either pins a frame or is free: those that pin one and those that are left make up
/// the whole table.
pub proof fn law_pins_and_room_make_up_the_table(pins: Seq<PhysicalFramePinRecord>, n: int)
    requires
        0 <= n <= pins.len(),
        forall|p: int| 0 <= p < pins.len() ==> pin_ok(#[trigger] pins[p]),
    ensures
        pinned_in(pins, n) + pin_room(pins, 0) - pin_room(pins, n) == n,
        n == pins.len() ==> pinned_in(pins, n) + pin_room(pins, 0) == n,
    decreases n,
{
    if n > 0 {
        law_pins_and_room_make_up_the_table(pins, n - 1);
        assert(pin_ok(pins[n - 1]));
    }
}

/// A buffer is made exactly if it has one to sixteen frames, all of them could be had, a descriptor
/// is free and the table has room for as many pins. It then consists of the frames that were given,
/// in order, and all of them are pinned; otherwise every frame goes back and nothing changes.
pub proof fn law_buffer_is_made_exactly_if_there_is_room(
    before: &DmaTables,
    after: &DmaTables,
    device_id: DeviceId,
    pid: u64,
    frame_count: u16,
    sharing: ResourceSharing,
    frames: Seq<u64>,
    freed: Seq<u64>,
    freed_after: Seq<u64>,
    r: Result<(u32, u64), DeviceError>,
)
    requires
        before.wf(),
        frames.len() <= frame_count,
        allocating(
            before,
            after,
            device_id,
            pid,
            frame_count,
            sharing,
            frames,
            freed,
            freed_after,
            r,
        ),
    ensures
        ({
            let room = exists|b: int| 0 <= b < 32 && !(#[trigger] before.buffers@[b]).occupied;
            &&& r is Ok <==> {
                &&& 1 <= frame_count <= 16
                &&& room
                &&& frames.len() == frame_count
                &&& pinned_in(before.pins@, 128) + frame_count <= 128
            }
            &&& r == Err::<(u32, u64), DeviceError>(DeviceError::InvalidParameter) <==> frame_count
                == 0 || frame_count > 16
            &&& r == Err::<(u32, u64), DeviceError>(DeviceError::OutOfMemory) ==> frames.len()
                < frame_count
            &&& r is Err ==> *after == *before && freed_after == freed + frames
            &&& r is Ok ==> exists|b: int|
                {
                    let now = after.buffers@[b];
                    &&& 0 <= b < 32
                    &&& !before.buffers@[b].occupied
                    &&& forall|c: int| 0 <= c < b ==> (#[trigger] before.buffers@[c]).occupied
                    &&& (#[trigger] after.buffers@[b]).occupied
                    &&& now.buffer_id == r->Ok_0.0
                    &&& now.owning_pid == pid
                    &&& now.device_id == device_id
                    &&& now.sharing == sharing
                    &&& now.frame_count == frame_count
                    &&& now.phys_base == r->Ok_0.1
                    &&& r->Ok_0.0 == before.next_buffer_id
                    &&& r->Ok_0.1 == frames[0]
                    &&& frames_of(now, after.pins@, frame_count as int) == frames
                    &&& forall|i: int|
                        0 <= i < frames.len() ==> is_pinned(after.pins@, #[trigger] frames[i])
                    &&& forall|c: int|
                        0 <= c < 32 && c != b ==> (#[trigger] after.buffers@[c])
                            == before.buffers@[c]
                    &&& forall|p: int|
                        0 <= p < 128 && (#[trigger] before.pins@[p]).occupied ==> after.pins@[p]
                            == before.pins@[p]
                    &&& freed_after == freed
                    &&& forall|i: int|
                        0 <= i < frames.len() ==> {
                            let p = after.pins@[#[trigger] now.frame_indices@[i] as int];
                            p.pin_count == 1 && p.owning_buffer_mask == 1u32 << (b as u32)
                        }
                }
        }),
        r is Ok && before.next_buffer_id < 0xFFFF_FFFF ==> after.next_buffer_id
            == before.next_buffer_id + 1,
{
    lemma_free_buffer(before.buffers@, 0);
    law_pins_and_room_make_up_the_table(before.pins@, 128);
    let b = free_buffer(before.buffers@, 0);
    if b < 32 {
        assert(!before.buffers@[b].occupied);
    }
    if r is Ok {
        let n = frame_count as int;
        lemma_pins_after(before.pins@, frames, b, n);
        let now = after.buffers@[b];
        assert(frames_of(now, after.pins@, n) =~= frames) by {
            assert forall|i: int| 0 <= i < n implies frames_of(now, after.pins@, n)[i]
                == frames[i] by {
                assert(now.frame_indices@[i] == pin_place(before.pins@, frames, b, i));
            }
        }
        assert forall|i: int| 0 <= i < frames.len() implies is_pinned(
            after.pins@,
            #[trigger] frames[i],
        ) by {
            let k = pin_place(before.pins@, frames, b, i);
            assert(after.pins@[k].occupied);
        }
        assert forall|i: int| 0 <= i < frames.len() implies {
            let p = after.pins@[#[trigger] now.frame_indices@[i] as int];
            p.pin_count == 1 && p.owning_buffer_mask == 1u32 << (b as u32)
        } by {
            assert(now.frame_indices@[i] == pin_place(before.pins@, frames, b, i));
        }
        assert(after.buffers@[b].occupied);
        assert forall|p: int| 0 <= p < 128 && (#[trigger] before.pins@[p]).occupied implies
            after.pins@[p] == before.pins@[p] by {
            assert forall|i: int| 0 <= i < n implies p != #[trigger] pin_place(
                before.pins@,
                frames,
                b,
                i,
            ) by {}
            assert(after.pins@[p] == before.pins@[p]);
        }
    }
}

/// A buffer is given up exactly if there is one with the identifier. Then all its frames go back,
/// in order, its descriptor is free and its pins are gone; other buffers and their pins stay.
pub proof fn law_buffer_is_given_up_exactly_if_there(
    before: &DmaTables,
    after: &DmaTables,
    id: u32,
    freed: Seq<u64>,
    freed_after: Seq<u64>,
    r: Result<(), DeviceError>,
)
    requires
        before.wf(),
        giving_up(before, after, id, freed, freed_after, r),
    ensures
        ({
            let there = exists|b: int| 0 <= b < 32 && is_buffer(#[trigger] before.buffers@[b], id);
            &&& r is Ok <==> there
            &&& r is Err ==> r == Err::<(), DeviceError>(DeviceError::DeviceNotFound) && *after
                == *before && freed_after == freed
            &&& r is Ok ==> exists|b: int|
                {
                    let gone = before.buffers@[b];
                    &&& 0 <= b < 32
                    &&& is_buffer(#[trigger] before.buffers@[b], id)
                    &&& !after.buffers@[b].occupied
                    &&& freed_after.len() == freed.len() + gone.frame_count
                    &&& forall|i: int|
                        0 <= i < gone.frame_count ==> #[trigger] freed_after[freed.len() + i]
                            == before.pins@[gone.frame_indices@[i] as int].phys_addr
                    &&& forall|i: int|
                        0 <= i < gone.frame_count
                            ==> !after.pins@[#[trigger] gone.frame_indices@[i] as int].occupied
                    &&& forall|c: int|
                        0 <= c < 32 && c != b ==> (#[trigger] after.buffers@[c])
                            == before.buffers@[c]
                    &&& forall|c: int, i: int|
                        0 <= c < 32 && c != b && before.buffers@[c].occupied && 0 <= i
                            < before.buffers@[c].frame_count
                            ==> after.pins@[#[trigger] before.buffers@[c].frame_indices@[i] as int]
                            == before.pins@[before.buffers@[c].frame_indices@[i] as int]
                }
        }),
{
    lemma_buffer_slot(before.buffers@, id, 0);
    let b = buffer_slot(before.buffers@, id, 0);
    if b < 32 {
        assert(is_buffer(before.buffers@[b], id));
        let gone = before.buffers@[b];
        assert(buffer_ok(gone, before.pins@));
        assert forall|i: int| 0 <= i < gone.frame_count implies
            !after.pins@[#[trigger] gone.frame_indices@[i] as int].occupied by {
            assert(has_pin(gone, gone.frame_indices@[i] as int));
        }
        assert forall|c: int, i: int|
            0 <= c < 32 && c != b && before.buffers@[c].occupied && 0 <= i
                < before.buffers@[c].frame_count implies
            after.pins@[#[trigger] before.buffers@[c].frame_indices@[i] as int]
            == before.pins@[before.buffers@[c].frame_indices@[i] as int] by {
            let p = before.buffers@[c].frame_indices@[i] as int;
            assert(buffer_ok(before.buffers@[c], before.pins@));
            assert(has_pin(before.buffers@[c], p));
            assert(!has_pin(gone, p));
        }
    }
}

/// Registers are mapped exactly if they begin at a page, make up whole pages, up to 16 MiB of them,
/// and the window that is next still fits. The window then begins where the last one ended, shows
/// as many pages as were asked for, and may not be run or cached.
pub proof fn law_registers_are_mapped_exactly_if_they_fit(
    before: MmioAperture,
    after: MmioAperture,
    phys_base: u64,
    size: u64,
    writable: bool,
    r: Result<MmioMapPlan, DeviceError>,
)
    requires
        before.next <= 0x7000_0000_0000,
        planning_mmio(before, after, phys_base, size, writable, r),
    ensures
        ({
            let whole = phys_base % 4096 == 0 && size % 4096 == 0 && 0 < size <= 0x100_0000;
            &&& r is Ok <==> whole && before.next + size <= 0x7000_0000_0000
            &&& r == Err::<MmioMapPlan, DeviceError>(DeviceError::InvalidParameter) <==> !whole
            &&& !whole ==> after == before
            &&& whole ==> after.next == before.next + size
            &&& r is Ok ==> {
                let plan = r->Ok_0;
                &&& plan.vaddr == before.next
                &&& plan.phys_base == phys_base
                &&& plan.page_count * 4096 == size
                &&& plan.flags.present && plan.flags.user
                &&& plan.flags.writable == writable
                &&& plan.flags.no_execute && plan.flags.cache_disable && plan.flags.write_through
            }
        }),
{
}

/// An address is set aside for the registers of devices.
pub open spec fn is_register_address(a: int) -> bool {
    0x6000_0000_0000 <= a < 0x7000_0000_0000
}

/// A range is one for registers exactly if it makes up whole pages, all of them between the two
/// ends of the part of the address space that is set aside for registers.
pub proof fn law_register_ranges_lie_in_their_part(vaddr: u64, size: u64)
    ensures
        is_mmio_range(vaddr as int, size as int) <==> size > 0 && size % 4096 == 0 && vaddr % 4096
            == 0 && (forall|a: int|
            vaddr <= a < vaddr + size ==> #[trigger] is_register_address(a)),
{
    if size > 0 && (forall|a: int|
        vaddr <= a < vaddr + size ==> #[trigger] is_register_address(a)) {
        assert(is_register_address(vaddr as int));
        assert(is_register_address(vaddr + size - 1));
    }
}

/// The pages of a range are listed one after another, from its beginning on.
pub proof fn law_pages_follow_each_other(vaddr: int, n: int, i: int)
    requires
        0 <= vaddr,
        0 <= n,
        vaddr + n * 4096 <= u64::MAX,
        0 <= i < n,
    ensures
        page_addresses(vaddr, n).len() == n,
        page_addresses(vaddr, n)[0] == vaddr,
        i > 0 ==> page_addresses(vaddr, n)[i] == page_addresses(vaddr, n)[i - 1] + 4096,
{
}

proof fn lemma_mask(m: u64, i: u64, j: u64)
    by (bit_vector)
    requires
        i < 64,
        j < 64,
    ensures
        ((m | (1u64 << i)) & (1u64 << j) != 0) == (i == j || m & (1u64 << j) != 0),
{
}

/// A device that is given a resource notes it, and forgets none of those that it has; other devices
/// note nothing.
pub proof fn law_device_notes_its_resource(
    devices: Seq<DeviceSlot>,
    id: DeviceId,
    i: int,
    d: int,
    j: u64,
)
    requires
        devices.len() == 16,
        0 <= i < 64,
        0 <= d < 16,
        j < 64,
    ensures
        ({
            let now = with_resource(devices, id, i);
            let owner = device_slot(devices, id, 0);
            &&& now.len() == 16
            &&& d == owner ==> (now[d].resource_mask & (1u64 << j) != 0) == (i == j
                || devices[d].resource_mask & (1u64 << j) != 0)
            &&& d == owner ==> now[d].state == devices[d].state && now[d].device_id
                == devices[d].device_id && now[d].driver_pid == devices[d].driver_pid
            &&& d != owner ==> now[d] == devices[d]
        }),
{
    lemma_mask(devices[d].resource_mask, i as u64, j);
    law_device_is_found(devices, id, 0, 0);
}

/// A device that loses its driver is detached, has no resources and no driver; any other device is
/// as it was.
pub proof fn law_device_without_driver_is_detached(s: DeviceSlot, pid: u64)
    ensures
        ({
            let now = without_driver(s, pid);
            &&& s.occupied && s.driver_pid == pid ==> now.state == DeviceLifecycleState::Detached
                && now.driver_pid == 0 && now.resource_mask == 0 && now.occupied && now.device_id
                == s.device_id && now.class == s.class
            &&& !s.occupied || s.driver_pid != pid ==> now == s
        }),
{
}

/// A resource is free again exactly if its device was driven by the process that ended.
pub proof fn law_resources_of_lost_devices_are_free(
    s: DeviceResourceSlot,
    devices: Seq<DeviceSlot>,
    pid: u64,
    n: int,
)
    ensures
        ({
            let lost = exists|i: int|
                0 <= i < n && (#[trigger] devices[i]).occupied && devices[i].driver_pid == pid
                    && devices[i].device_id == s.device_id;
            let now = without_device(s, devices, pid, n);
            &&& s.occupied && lost ==> !now.occupied
            &&& !s.occupied || !lost ==> now == s
        }),
{
    if drives(devices, pid, n, s.device_id) {
        let i = choose|i: int|
            0 <= i < n && is_driven_by(#[trigger] devices[i], pid) && devices[i].device_id
                == s.device_id;
        assert(devices[i].occupied);
    }
}

/// When the buffers of a process are given up, as many are left as there were less those of the
/// process.
pub proof fn law_buffers_of_a_process_are_counted(
    before: Seq<DmaBufferDescriptor>,
    after: Seq<DmaBufferDescriptor>,
    pid: u64,
    n: int,
)
    requires
        0 <= n <= before.len(),
        after.len() == before.len(),
        forall|b: int|
            0 <= b < before.len() ==> (#[trigger] after[b]) == (if before[b].occupied
                && before[b].owning_pid == pid {
                empty_buffer()
            } else {
                before[b]
            }),
    ensures
        buffers_in(after, n) + owned_in(before, pid, n) == buffers_in(before, n),
    decreases n,
{
    if n > 0 {
        law_buffers_of_a_process_are_counted(before, after, pid, n - 1);
        assert(after[n - 1] == (if before[n - 1].occupied && before[n - 1].owning_pid == pid {
            empty_buffer()
        } else {
            before[n - 1]
        }));
    }
}

/// Every frame of every buffer of a process goes back when the process ends.
pub proof fn law_frames_of_a_process_go_back(
    buffers: Seq<DmaBufferDescriptor>,
    pins: Seq<PhysicalFramePinRecord>,
    pid: u64,
    n: int,
    b: int,
    i: int,
)
    requires
        0 <= b < n <= buffers.len(),
        buffers[b].occupied,
        buffers[b].owning_pid == pid,
        0 <= i < buffers[b].frame_count,
    ensures
        frames_owned(buffers, pins, pid, n).contains(
            pins[buffers[b].frame_indices@[i] as int].phys_addr,
        ),
    decreases n,
{
    let x = pins[buffers[b].frame_indices@[i] as int].phys_addr;
    let rest = frames_owned(buffers, pins, pid, n - 1);
    let own = frames_of(buffers[n - 1], pins, buffers[n - 1].frame_count as int);
    if b < n - 1 {
        law_frames_of_a_process_go_back(buffers, pins, pid, n - 1, b, i);
        let k = choose|k: int| 0 <= k < rest.len() && rest[k] == x;
        assert((rest + own)[k] == x);
    } else {
        assert(own[i] == x);
        assert((rest + own)[rest.len() + i] == x);
    }
}

/// When a process ends, it drives no device any more, and no device appears or goes.
pub proof fn law_devices_of_a_process_are_counted(
    before: Seq<DeviceSlot>,
    after: Seq<DeviceSlot>,
    pid: u64,
    n: int,
)
    requires
        pid != 0,
        0 <= n <= before.len(),
        after.len() == before.len(),
        forall|i: int|
            0 <= i < before.len() ==> (#[trigger] after[i]) == without_driver(before[i], pid),
    ensures
        devices_in(after, n) == devices_in(before, n),
        driven_in(after, pid, n) == 0,
        driven_in(before, pid, n) <= devices_in(before, n),
        driven_in(after, 0, n) == driven_in(before, 0, n) + driven_in(before, pid, n),
    decreases n,
{
    if n > 0 {
        law_devices_of_a_process_are_counted(before, after, pid, n - 1);
        assert(after[n - 1] == without_driver(before[n - 1], pid));
    }
}

} // verus!
