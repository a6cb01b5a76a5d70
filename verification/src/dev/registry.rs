//! The devices and the resources that they have.
use crate::dev::types::{
    empty_device, empty_resource, DeviceClass, DeviceError, DeviceId, DeviceLifecycleState,
    DeviceResourceSlot, DeviceSlot, ResourceSharing, ResourceType, MAX_DEVICES,
    MAX_DEVICE_RESOURCES,
};
use crate::ipc::object::{bump_generation, next_generation};
use vstd::prelude::*;

verus! {

/// The lock of the device table.
#[derive(Debug, PartialEq, Eq, Structural)]
pub struct DeviceRegistryLock {
    pub lock: bool,
}

impl DeviceRegistryLock {
    pub fn new() -> (r: Self)
        ensures
            !r.lock,
    {
        DeviceRegistryLock { lock: false }
    }

    /// Takes the lock once it is free.
    pub fn acquire(&mut self)
        requires
            !old(self).lock,
        ensures
            final(self).lock,
    {
        self.lock = true;
    }

    pub fn release(&mut self)
        ensures
            !final(self).lock,
    {
        self.lock = false;
    }
}

/// The lock of the resource table.
#[derive(Debug, PartialEq, Eq, Structural)]
pub struct DeviceResourceLock {
    pub lock: bool,
}

impl DeviceResourceLock {
    pub fn new() -> (r: Self)
        ensures
            !r.lock,
    {
        DeviceResourceLock { lock: false }
    }

    /// Takes the lock once it is free.
    pub fn acquire(&mut self)
        requires
            !old(self).lock,
        ensures
            final(self).lock,
    {
        self.lock = true;
    }

    pub fn release(&mut self)
        ensures
            !final(self).lock,
    {
        self.lock = false;
    }
}

/// The devices and their resources.
pub struct DeviceRegistry {
    pub devices: [DeviceSlot; MAX_DEVICES],
    pub resources: [DeviceResourceSlot; MAX_DEVICE_RESOURCES],
}

impl DeviceRegistry {
    /// A registry without devices.
    pub fn new() -> (r: Self)
        ensures
            r.is_empty(),
    {
        DeviceRegistry {
            devices: [DeviceSlot::empty(); MAX_DEVICES],
            resources: [DeviceResourceSlot::empty(); MAX_DEVICE_RESOURCES],
        }
    }

    pub open spec fn is_empty(&self) -> bool {
        &&& forall|i: int| 0 <= i < MAX_DEVICES ==> (#[trigger] self.devices@[i]) == empty_device()
        &&& forall|i: int|
            0 <= i < MAX_DEVICE_RESOURCES ==> (#[trigger] self.resources@[i]) == empty_resource()
    }
}

/// Forgets all devices and resources.
pub fn init(r: &mut DeviceRegistry)
    ensures
        final(r).is_empty(),
{
    r.devices = [DeviceSlot::empty(); MAX_DEVICES];
    r.resources = [DeviceResourceSlot::empty(); MAX_DEVICE_RESOURCES];
}

/// The slot holds the device with this identifier.
pub open spec fn is_device(s: DeviceSlot, id: DeviceId) -> bool {
    s.occupied && s.device_id == id
}

/// The first slot from `from` on that holds a device, or the number of slots.
pub open spec fn device_slot(devices: Seq<DeviceSlot>, id: DeviceId, from: int) -> int
    decreases devices.len() - from,
{
    if from >= devices.len() {
        devices.len() as int
    } else if is_device(devices[from], id) {
        from
    } else {
        device_slot(devices, id, from + 1)
    }
}

/// The first slot from `from` on that holds a device of a class, or the number of slots.
pub open spec fn class_slot(devices: Seq<DeviceSlot>, class: DeviceClass, from: int) -> int
    decreases devices.len() - from,
{
    if from >= devices.len() {
        devices.len() as int
    } else if devices[from].occupied && devices[from].class == class {
        from
    } else {
        class_slot(devices, class, from + 1)
    }
}

/// The first free device slot from `from` on, or the number of slots.
pub open spec fn free_device_slot(devices: Seq<DeviceSlot>, from: int) -> int
    decreases devices.len() - from,
{
    if from >= devices.len() {
        devices.len() as int
    } else if !devices[from].occupied {
        from
    } else {
        free_device_slot(devices, from + 1)
    }
}

/// The first free resource slot from `from` on, or the number of slots.
pub open spec fn free_resource_slot(resources: Seq<DeviceResourceSlot>, from: int) -> int
    decreases resources.len() - from,
{
    if from >= resources.len() {
        resources.len() as int
    } else if !resources[from].occupied {
        from
    } else {
        free_resource_slot(resources, from + 1)
    }
}

/// How many of the first `n` slots hold a device.
pub open spec fn devices_in(devices: Seq<DeviceSlot>, n: int) -> int
    decreases n,
{
    if n <= 0 {
        0
    } else {
        devices_in(devices, n - 1) + (if devices[n - 1].occupied {
            1int
        } else {
            0int
        })
    }
}

/// A slot after a device was put into it.
pub open spec fn discovered(s: DeviceSlot, id: DeviceId, class: DeviceClass) -> DeviceSlot {
    DeviceSlot {
        occupied: true,
        class,
        state: DeviceLifecycleState::Discovered,
        generation: next_generation(s.generation),
        device_id: id,
        driver_pid: 0,
        kernel_object_id: 0,
        resource_mask: 0,
        bound_event_id: 0,
        ..s
    }
}

/// What adding a device answers.
pub open spec fn registering(devices: Seq<DeviceSlot>, id: DeviceId) -> Result<usize, DeviceError> {
    if device_slot(devices, id, 0) < devices.len() {
        Err(DeviceError::ResourceConflict)
    } else if free_device_slot(devices, 0) >= devices.len() {
        Err(DeviceError::CapacityExceeded)
    } else {
        Ok(free_device_slot(devices, 0) as usize)
    }
}

/// The device table after an attempt to add a device.
pub open spec fn registered(devices: Seq<DeviceSlot>, id: DeviceId, class: DeviceClass) -> Seq<
    DeviceSlot,
> {
    match registering(devices, id) {
        Err(_) => devices,
        Ok(slot) => devices.update(
            slot as int,
            discovered(devices[slot as int], id, class),
        ),
    }
}

/// Finds the slot of a device.
pub fn find_device(r: &DeviceRegistry, device_id: DeviceId) -> (idx: Option<usize>)
    ensures
        match idx {
            Some(i) => i == device_slot(r.devices@, device_id, 0) < MAX_DEVICES,
            None => device_slot(r.devices@, device_id, 0) == MAX_DEVICES,
        },
{
    let mut i: usize = 0;
    while i < MAX_DEVICES
        invariant
            i <= MAX_DEVICES,
            device_slot(r.devices@, device_id, 0) == device_slot(
                r.devices@,
                device_id,
                i as int,
            ),
        decreases MAX_DEVICES - i,
    {
        if r.devices[i].occupied && r.devices[i].device_id == device_id {
            return Some(i);
        }
        i = i + 1;
    }
    None
}

/// Finds the first device of a class.
pub fn find_device_by_class(r: &DeviceRegistry, class: DeviceClass) -> (idx: Option<usize>)
    ensures
        match idx {
            Some(i) => i == class_slot(r.devices@, class, 0) < MAX_DEVICES,
            None => class_slot(r.devices@, class, 0) == MAX_DEVICES,
        },
{
    let mut i: usize = 0;
    while i < MAX_DEVICES
        invariant
            i <= MAX_DEVICES,
            class_slot(r.devices@, class, 0) == class_slot(r.devices@, class, i as int),
        decreases MAX_DEVICES - i,
    {
        if r.devices[i].occupied && r.devices[i].class == class {
            return Some(i);
        }
        i = i + 1;
    }
    None
}

/// How many devices there are.
pub fn count_devices(r: &DeviceRegistry) -> (n: usize)
    ensures
        n == devices_in(r.devices@, MAX_DEVICES as int),
{
    let mut n: usize = 0;
    let mut i: usize = 0;
    while i < MAX_DEVICES
        invariant
            i <= MAX_DEVICES,
            n <= i,
            n == devices_in(r.devices@, i as int),
        decreases MAX_DEVICES - i,
    {
        if r.devices[i].occupied {
            n = n + 1;
        }
        i = i + 1;
    }
    n
}

/// Adds a device. Its identifier must not be taken.
pub fn register_device(r: &mut DeviceRegistry, device_id: DeviceId, class: DeviceClass) -> (res: Result<
    usize,
    DeviceError,
>)
    ensures
        final(r).resources == old(r).resources,
        res == registering(old(r).devices@, device_id),
        final(r).devices@ == registered(old(r).devices@, device_id, class),
{
    if find_device(r, device_id).is_some() {
        return Err(DeviceError::ResourceConflict);
    }
    let mut i: usize = 0;
    while i < MAX_DEVICES
        invariant
            i <= MAX_DEVICES,
            *r == *old(r),
            device_slot(old(r).devices@, device_id, 0) == MAX_DEVICES,
            free_device_slot(r.devices@, 0) == free_device_slot(r.devices@, i as int),
        decreases MAX_DEVICES - i,
    {
        if !r.devices[i].occupied {
            let s = r.devices[i];
            r.devices[i] = DeviceSlot {
                occupied: true,
                class,
                state: DeviceLifecycleState::Discovered,
                _pad0: s._pad0,
                generation: bump_generation(s.generation),
                _pad1: s._pad1,
                device_id,
                driver_pid: 0,
                kernel_object_id: 0,
                resource_mask: 0,
                bound_event_id: 0,
            };
            return Ok(i);
        }
        i = i + 1;
    }
    Err(DeviceError::CapacityExceeded)
}

/// Where a resource ends.
pub open spec fn resource_end(s: DeviceResourceSlot) -> int {
    if s.base + s.size > u64::MAX {
        u64::MAX as int
    } else {
        s.base + s.size
    }
}

/// A resource stands in the way of another: they overlap, and they cannot be shared. Ports are
/// never shared.
pub open spec fn in_the_way(
    s: DeviceResourceSlot,
    res_type: ResourceType,
    sharing: ResourceSharing,
    base: int,
    size: int,
) -> bool {
    &&& s.occupied
    &&& s.res_type == res_type
    &&& base < resource_end(s)
    &&& base + size > s.base
    &&& res_type != ResourceType::Unused
    &&& res_type == ResourceType::IoPort || sharing != ResourceSharing::Shared || s.sharing
        != ResourceSharing::Shared
}

/// Some resource from `from` on stands in the way.
pub open spec fn any_in_the_way(
    resources: Seq<DeviceResourceSlot>,
    res_type: ResourceType,
    sharing: ResourceSharing,
    base: int,
    size: int,
) -> bool {
    exists|i: int|
        0 <= i < resources.len() && in_the_way(
            #[trigger] resources[i],
            res_type,
            sharing,
            base,
            size,
        )
}

/// The devices after one of them was given a resource.
pub open spec fn with_resource(devices: Seq<DeviceSlot>, id: DeviceId, idx: int) -> Seq<DeviceSlot> {
    let d = device_slot(devices, id, 0);
    if d >= devices.len() {
        devices
    } else {
        devices.update(
            d,
            DeviceSlot {
                resource_mask: devices[d].resource_mask | (1u64 << (idx as u64)),
                ..devices[d]
            },
        )
    }
}

/// The outcome of giving a device a resource.
pub open spec fn giving_resource(
    before: &DeviceRegistry,
    after: &DeviceRegistry,
    device_id: DeviceId,
    res_type: ResourceType,
    sharing: ResourceSharing,
    base: u64,
    size: u64,
    res: Result<usize, DeviceError>,
) -> bool {
    let free = free_resource_slot(before.resources@, 0);
    if size == 0 || base + size > u64::MAX {
        &&& res == Err::<usize, DeviceError>(DeviceError::InvalidParameter)
        &&& *after == *before
    } else if any_in_the_way(before.resources@, res_type, sharing, base as int, size as int) {
        &&& res == Err::<usize, DeviceError>(DeviceError::ResourceConflict)
        &&& *after == *before
    } else if free >= MAX_DEVICE_RESOURCES {
        &&& res == Err::<usize, DeviceError>(DeviceError::CapacityExceeded)
        &&& *after == *before
    } else {
        &&& res == Ok::<usize, DeviceError>(free as usize)
        &&& after.resources@ == before.resources@.update(
            free,
            DeviceResourceSlot {
                occupied: true,
                res_type,
                sharing,
                device_id,
                base,
                size,
                ..before.resources@[free]
            },
        )
        &&& after.devices@ == with_resource(before.devices@, device_id, free)
    }
}

/// Gives a device a resource, unless that is in use in a way that cannot be shared.
pub fn register_resource(
    r: &mut DeviceRegistry,
    device_id: DeviceId,
    res_type: ResourceType,
    sharing: ResourceSharing,
    base: u64,
    size: u64,
) -> (res: Result<usize, DeviceError>)
    ensures
        giving_resource(old(r), final(r), device_id, res_type, sharing, base, size, res),
{
    if size == 0 {
        return Err(DeviceError::InvalidParameter);
    }
    let new_end: u64 = match base.checked_add(size) {
        None => {
            return Err(DeviceError::InvalidParameter);
        },
        Some(e) => e,
    };
    let mut i: usize = 0;
    while i < MAX_DEVICE_RESOURCES
        invariant
            i <= MAX_DEVICE_RESOURCES,
            *r == *old(r),
            size > 0,
            new_end == base + size,
            forall|j: int|
                0 <= j < i ==> !in_the_way(
                    #[trigger] r.resources@[j],
                    res_type,
                    sharing,
                    base as int,
                    size as int,
                ),
        decreases MAX_DEVICE_RESOURCES - i,
    {
        let s = r.resources[i];
        if s.occupied && s.res_type == res_type {
            let exist_end: u64 = s.base.saturating_add(s.size);
            if base < exist_end && new_end > s.base {
                let clash: bool = match res_type {
                    ResourceType::IoPort => true,
                    ResourceType::Unused => false,
                    _ => sharing != ResourceSharing::Shared || s.sharing
                        != ResourceSharing::Shared,
                };
                if clash {
                    assert(in_the_way(
                        r.resources@[i as int],
                        res_type,
                        sharing,
                        base as int,
                        size as int,
                    ));
                    return Err(DeviceError::ResourceConflict);
                }
            }
        }
        i = i + 1;
    }
    let mut k: usize = 0;
    while k < MAX_DEVICE_RESOURCES
        invariant
            k <= MAX_DEVICE_RESOURCES,
            *r == *old(r),
            size > 0,
            base + size <= u64::MAX,
            !any_in_the_way(r.resources@, res_type, sharing, base as int, size as int),
            free_resource_slot(r.resources@, 0) == free_resource_slot(r.resources@, k as int),
        decreases MAX_DEVICE_RESOURCES - k,
    {
        let s = r.resources[k];
        if !s.occupied {
            r.resources[k] = DeviceResourceSlot {
                occupied: true,
                res_type,
                sharing,
                _pad: s._pad,
                _reserved: s._reserved,
                device_id,
                base,
                size,
            };
            if let Some(d) = find_device(r, device_id) {
                let mask: u64 = r.devices[d].resource_mask;
                r.devices[d].resource_mask = mask | (1u64 << (k as u64));
            }
            assert(r.devices@ =~= with_resource(old(r).devices@, device_id, k as int));
            return Ok(k);
        }
        k = k + 1;
    }
    Err(DeviceError::CapacityExceeded)
}

/// The steps that the life of a device may take.
pub open spec fn is_legal_step(from: DeviceLifecycleState, to: DeviceLifecycleState) -> bool {
    match from {
        DeviceLifecycleState::Discovered => to == DeviceLifecycleState::Probed,
        DeviceLifecycleState::Probed => to == DeviceLifecycleState::Attached,
        DeviceLifecycleState::Attached => to == DeviceLifecycleState::Ready,
        DeviceLifecycleState::Ready => to == DeviceLifecycleState::Active || to
            == DeviceLifecycleState::Quiescing || to == DeviceLifecycleState::Faulted || to
            == DeviceLifecycleState::Resetting,
        DeviceLifecycleState::Active => to == DeviceLifecycleState::Ready || to
            == DeviceLifecycleState::Quiescing || to == DeviceLifecycleState::Faulted,
        DeviceLifecycleState::Quiescing => to == DeviceLifecycleState::Detached || to
            == DeviceLifecycleState::Resetting,
        DeviceLifecycleState::Detached => to == DeviceLifecycleState::Released,
        DeviceLifecycleState::Released => false,
        DeviceLifecycleState::Faulted => to == DeviceLifecycleState::Resetting || to
            == DeviceLifecycleState::Detached,
        DeviceLifecycleState::Resetting => to == DeviceLifecycleState::Ready,
    }
}

fn legal_step(from: DeviceLifecycleState, to: DeviceLifecycleState) -> (r: bool)
    ensures
        r == is_legal_step(from, to),
{
    match from {
        DeviceLifecycleState::Discovered => to == DeviceLifecycleState::Probed,
        DeviceLifecycleState::Probed => to == DeviceLifecycleState::Attached,
        DeviceLifecycleState::Attached => to == DeviceLifecycleState::Ready,
        DeviceLifecycleState::Ready => to == DeviceLifecycleState::Active || to
            == DeviceLifecycleState::Quiescing || to == DeviceLifecycleState::Faulted || to
            == DeviceLifecycleState::Resetting,
        DeviceLifecycleState::Active => to == DeviceLifecycleState::Ready || to
            == DeviceLifecycleState::Quiescing || to == DeviceLifecycleState::Faulted,
        DeviceLifecycleState::Quiescing => to == DeviceLifecycleState::Detached || to
            == DeviceLifecycleState::Resetting,
        DeviceLifecycleState::Detached => to == DeviceLifecycleState::Released,
        DeviceLifecycleState::Released => false,
        DeviceLifecycleState::Faulted => to == DeviceLifecycleState::Resetting || to
            == DeviceLifecycleState::Detached,
        DeviceLifecycleState::Resetting => to == DeviceLifecycleState::Ready,
    }
}

/// The outcome of taking a device one step further in its life.
pub open spec fn stepping(
    before: Seq<DeviceSlot>,
    after: Seq<DeviceSlot>,
    slot_idx: usize,
    new_state: DeviceLifecycleState,
    res: Result<(), DeviceError>,
) -> bool {
    &&& res == (if slot_idx >= MAX_DEVICES {
        Err::<(), DeviceError>(DeviceError::InvalidParameter)
    } else if !before[slot_idx as int].occupied {
        Err::<(), DeviceError>(DeviceError::DeviceNotFound)
    } else if !is_legal_step(before[slot_idx as int].state, new_state) {
        Err::<(), DeviceError>(DeviceError::InvalidParameter)
    } else {
        Ok::<(), DeviceError>(())
    })
    &&& after == (if res is Ok {
        before.update(
            slot_idx as int,
            DeviceSlot {
                state: new_state,
                occupied: new_state != DeviceLifecycleState::Released,
                ..before[slot_idx as int]
            },
        )
    } else {
        before
    })
}

/// Takes a device one step further in its life. A released device gives its slot up.
pub fn transition_state(
    r: &mut DeviceRegistry,
    slot_idx: usize,
    new_state: DeviceLifecycleState,
) -> (res: Result<(), DeviceError>)
    ensures
        final(r).resources == old(r).resources,
        stepping(old(r).devices@, final(r).devices@, slot_idx, new_state, res),
{
    if slot_idx >= MAX_DEVICES {
        return Err(DeviceError::InvalidParameter);
    }
    let s = r.devices[slot_idx];
    if !s.occupied {
        return Err(DeviceError::DeviceNotFound);
    }
    if !legal_step(s.state, new_state) {
        return Err(DeviceError::InvalidParameter);
    }
    r.devices[slot_idx].state = new_state;
    if new_state == DeviceLifecycleState::Released {
        r.devices[slot_idx].occupied = false;
    }
    assert(r.devices@ =~= old(r).devices@.update(
        slot_idx as int,
        DeviceSlot {
            state: new_state,
            occupied: new_state != DeviceLifecycleState::Released,
            ..s
        },
    ));
    Ok(())
}

/// The slot holds a device that a process drives.
pub open spec fn is_driven_by(s: DeviceSlot, pid: u64) -> bool {
    s.occupied && s.driver_pid == pid
}

/// A slot after its driver is gone.
pub open spec fn without_driver(s: DeviceSlot, pid: u64) -> DeviceSlot {
    if is_driven_by(s, pid) {
        DeviceSlot {
            driver_pid: 0,
            state: DeviceLifecycleState::Detached,
            resource_mask: 0,
            ..s
        }
    } else {
        s
    }
}

/// How many of the first `n` slots hold devices that a process drives.
pub open spec fn driven_in(devices: Seq<DeviceSlot>, pid: u64, n: int) -> int
    decreases n,
{
    if n <= 0 {
        0
    } else {
        driven_in(devices, pid, n - 1) + (if is_driven_by(devices[n - 1], pid) {
            1int
        } else {
            0int
        })
    }
}

/// One of the first `n` slots holds a device with this identifier that a process drives.
pub open spec fn drives(devices: Seq<DeviceSlot>, pid: u64, n: int, id: DeviceId) -> bool {
    exists|i: int|
        0 <= i < n && is_driven_by(#[trigger] devices[i], pid) && devices[i].device_id == id
}

/// A resource after its device lost its driver: it is free again.
pub open spec fn without_device(
    s: DeviceResourceSlot,
    devices: Seq<DeviceSlot>,
    pid: u64,
    n: int,
) -> DeviceResourceSlot {
    if s.occupied && drives(devices, pid, n, s.device_id) {
        empty_resource()
    } else {
        s
    }
}

/// Takes all resources from a device.
fn release_resources(r: &mut DeviceRegistry, device_id: DeviceId)
    ensures
        final(r).devices == old(r).devices,
        forall|j: int|
            0 <= j < MAX_DEVICE_RESOURCES ==> (#[trigger] final(r).resources@[j]) == (if old(
                r,
            ).resources@[j].occupied && old(r).resources@[j].device_id == device_id {
                empty_resource()
            } else {
                old(r).resources@[j]
            }),
{
    let mut i: usize = 0;
    while i < MAX_DEVICE_RESOURCES
        invariant
            i <= MAX_DEVICE_RESOURCES,
            r.devices == old(r).devices,
            forall|j: int|
                0 <= j < MAX_DEVICE_RESOURCES ==> (#[trigger] r.resources@[j]) == (if j < i && old(
                    r,
                ).resources@[j].occupied && old(r).resources@[j].device_id == device_id {
                    empty_resource()
                } else {
                    old(r).resources@[j]
                }),
        decreases MAX_DEVICE_RESOURCES - i,
    {
        assert(r.resources@[i as int] == old(r).resources@[i as int]);
        if r.resources[i].occupied && r.resources[i].device_id == device_id {
            r.resources[i] = DeviceResourceSlot::empty();
        }
        i = i + 1;
    }
}

/// Detaches the devices of a process that ends, takes their resources from them, and counts them.
pub fn teardown_process_devices(r: &mut DeviceRegistry, pid: u64) -> (n: usize)
    ensures
        forall|j: int|
            0 <= j < MAX_DEVICE_RESOURCES ==> (#[trigger] final(r).resources@[j])
                == without_device(old(r).resources@[j], old(r).devices@, pid, MAX_DEVICES as int),
        n == driven_in(old(r).devices@, pid, MAX_DEVICES as int),
        forall|i: int|
            0 <= i < MAX_DEVICES ==> (#[trigger] final(r).devices@[i]) == without_driver(
                old(r).devices@[i],
                pid,
            ),
{
    let mut n: usize = 0;
    let mut i: usize = 0;
    while i < MAX_DEVICES
        invariant
            i <= MAX_DEVICES,
            n <= i,
            n == driven_in(old(r).devices@, pid, i as int),
            forall|j: int|
                0 <= j < MAX_DEVICE_RESOURCES ==> (#[trigger] r.resources@[j]) == without_device(
                    old(r).resources@[j],
                    old(r).devices@,
                    pid,
                    i as int,
                ),
            forall|j: int|
                0 <= j < MAX_DEVICES ==> (#[trigger] r.devices@[j]) == (if j < i {
                    without_driver(old(r).devices@[j], pid)
                } else {
                    old(r).devices@[j]
                }),
        decreases MAX_DEVICES - i,
    {
        assert(r.devices@[i as int] == old(r).devices@[i as int]);
        let ghost resources = r.resources@;
        let ghost devices = old(r).devices@;
        if r.devices[i].occupied && r.devices[i].driver_pid == pid {
            let id = r.devices[i].device_id;
            release_resources(r, id);
            r.devices[i].driver_pid = 0;
            r.devices[i].state = DeviceLifecycleState::Detached;
            r.devices[i].resource_mask = 0;
            n = n + 1;
        }
        proof {
            assert forall|j: int| 0 <= j < MAX_DEVICE_RESOURCES implies (#[trigger] r.resources@[j])
                == without_device(old(r).resources@[j], devices, pid, i + 1) by {
                let s = old(r).resources@[j];
                assert(resources[j] == without_device(s, devices, pid, i as int));
                lemma_drives_next(devices, pid, i as int, s.device_id);
            }
        }
        i = i + 1;
    }
    n
}

/// A device is driven if the next one is it, or if one before is.
proof fn lemma_drives_next(devices: Seq<DeviceSlot>, pid: u64, n: int, id: DeviceId)
    requires
        0 <= n < devices.len(),
    ensures
        drives(devices, pid, n + 1, id) == (drives(devices, pid, n, id) || (is_driven_by(
            devices[n],
            pid,
        ) && devices[n].device_id == id)),
{
    if drives(devices, pid, n + 1, id) {
        let i = choose|i: int|
            0 <= i < n + 1 && is_driven_by(#[trigger] devices[i], pid) && devices[i].device_id
                == id;
        assert(i == n || drives(devices, pid, n, id));
    }
    if drives(devices, pid, n, id) {
        let i = choose|i: int|
            0 <= i < n && is_driven_by(#[trigger] devices[i], pid) && devices[i].device_id == id;
        assert(is_driven_by(devices[i], pid));
    }
}

/// When a process ended, it drives no device, and where identifiers are unique no device that it
/// drove has a resource left. Resources that did not stand in the way of each other still do not.
pub proof fn law_ended_process_holds_no_device(
    devices: Seq<DeviceSlot>,
    resources: Seq<DeviceResourceSlot>,
    after: Seq<DeviceSlot>,
    left: Seq<DeviceResourceSlot>,
    pid: u64,
)
    requires
        pid != 0,
        ids_unique(devices),
        no_conflicts(resources),
        after.len() == devices.len(),
        left.len() == resources.len(),
        forall|i: int|
            0 <= i < after.len() ==> (#[trigger] after[i]) == without_driver(devices[i], pid),
        forall|j: int|
            0 <= j < left.len() ==> (#[trigger] left[j]) == without_device(
                resources[j],
                devices,
                pid,
                devices.len() as int,
            ),
    ensures
        forall|i: int| 0 <= i < after.len() ==> !is_driven_by(#[trigger] after[i], pid),
        forall|i: int, j: int|
            0 <= i < devices.len() && 0 <= j < left.len() && is_driven_by(
                #[trigger] devices[i],
                pid,
            ) && (#[trigger] left[j]).occupied ==> left[j].device_id != devices[i].device_id,
        forall|i: int, j: int|
            0 <= i < devices.len() && 0 <= j < left.len() && (#[trigger] devices[i]).occupied
                && devices[i].driver_pid != pid && (#[trigger] resources[j]).occupied
                && resources[j].device_id == devices[i].device_id ==> left[j] == resources[j],
        no_conflicts(left),
{
    assert forall|i: int, j: int|
        0 <= i < left.len() && 0 <= j < left.len() && i != j && (
        #[trigger] left[j]).occupied implies !in_the_way(
        #[trigger] left[i],
        left[j].res_type,
        left[j].sharing,
        left[j].base as int,
        left[j].size as int,
    ) by {
        assert(left[j] == resources[j]);
        if left[i].occupied {
            assert(left[i] == resources[i]);
        }
    }
    assert forall|i: int| 0 <= i < left.len() && (#[trigger] left[i]).occupied implies left[i].size
        > 0 && left[i].base + left[i].size <= u64::MAX by {
        assert(left[i] == resources[i]);
    }
}

/// No identifier is taken twice.
pub open spec fn ids_unique(devices: Seq<DeviceSlot>) -> bool {
    forall|i: int, j: int|
        0 <= i < devices.len() && 0 <= j < devices.len() && i != j && (#[trigger] devices[i]).occupied
            && (#[trigger] devices[j]).occupied ==> devices[i].device_id != devices[j].device_id
}

/// Resources that are in use are ranges, and none stands in the way of another.
pub open spec fn no_conflicts(resources: Seq<DeviceResourceSlot>) -> bool {
    &&& forall|i: int|
        0 <= i < resources.len() && (#[trigger] resources[i]).occupied ==> resources[i].size > 0
            && resources[i].base + resources[i].size <= u64::MAX
    &&& forall|i: int, j: int|
        0 <= i < resources.len() && 0 <= j < resources.len() && i != j && (
        #[trigger] resources[j]).occupied ==> !in_the_way(
            #[trigger] resources[i],
            resources[j].res_type,
            resources[j].sharing,
            resources[j].base as int,
            resources[j].size as int,
        )
}

/// The slot that is found holds the device, and where none is found, none does.
pub proof fn law_device_is_found(devices: Seq<DeviceSlot>, id: DeviceId, from: int, i: int)
    requires
        0 <= from <= devices.len(),
        from <= i < devices.len(),
    ensures
        from <= device_slot(devices, id, from) <= devices.len(),
        device_slot(devices, id, from) < devices.len() ==> is_device(
            devices[device_slot(devices, id, from)],
            id,
        ),
        is_device(devices[i], id) ==> device_slot(devices, id, from) <= i,
    decreases devices.len() - from,
{
    if from < devices.len() && !is_device(devices[from], id) && from < i {
        law_device_is_found(devices, id, from + 1, i);
    } else if from < devices.len() && !is_device(devices[from], id) {
        if from + 1 < devices.len() {
            law_device_is_found(devices, id, from + 1, devices.len() - 1);
        }
    }
}

/// Adding a device whose identifier is not taken keeps identifiers unique, and the device is found
/// afterwards.
pub proof fn law_added_device_is_found(
    devices: Seq<DeviceSlot>,
    id: DeviceId,
    class: DeviceClass,
    slot: int,
)
    requires
        ids_unique(devices),
        0 <= slot < devices.len(),
        device_slot(devices, id, 0) >= devices.len(),
        !devices[slot].occupied,
    ensures
        ids_unique(devices.update(slot, discovered(devices[slot], id, class))),
        device_slot(devices.update(slot, discovered(devices[slot], id, class)), id, 0) == slot,
{
    let now = devices.update(slot, discovered(devices[slot], id, class));
    assert forall|i: int| 0 <= i < devices.len() && i != slot implies !is_device(
        #[trigger] now[i],
        id,
    ) by {
        law_device_is_found(devices, id, 0, i);
    }
    law_device_is_found(now, id, 0, slot);
    assert(is_device(now[slot], id));
}

/// Giving out a resource that nothing stands in the way of keeps resources free of conflicts.
pub proof fn law_resources_never_conflict(
    resources: Seq<DeviceResourceSlot>,
    slot: int,
    s: DeviceResourceSlot,
)
    requires
        no_conflicts(resources),
        0 <= slot < resources.len(),
        !resources[slot].occupied,
        s.occupied,
        s.size > 0,
        s.base + s.size <= u64::MAX,
        !any_in_the_way(resources, s.res_type, s.sharing, s.base as int, s.size as int),
    ensures
        no_conflicts(resources.update(slot, s)),
{
    let now = resources.update(slot, s);
    assert forall|i: int, j: int|
        0 <= i < now.len() && 0 <= j < now.len() && i != j && (
        #[trigger] now[j]).occupied implies !in_the_way(
        #[trigger] now[i],
        now[j].res_type,
        now[j].sharing,
        now[j].base as int,
        now[j].size as int,
    ) by {
        if j == slot {
            assert(!in_the_way(
                resources[i],
                s.res_type,
                s.sharing,
                s.base as int,
                s.size as int,
            ));
        } else if i == slot {
            assert(!in_the_way(
                resources[j],
                s.res_type,
                s.sharing,
                s.base as int,
                s.size as int,
            ));
        } else {
            assert(resources[j].occupied);
            assert(!in_the_way(
                resources[i],
                resources[j].res_type,
                resources[j].sharing,
                resources[j].base as int,
                resources[j].size as int,
            ));
        }
    }
}

/// Two exclusive resources of one type, or two ranges of ports, never overlap.
pub proof fn law_exclusive_resources_are_disjoint(
    resources: Seq<DeviceResourceSlot>,
    i: int,
    j: int,
)
    requires
        no_conflicts(resources),
        0 <= i < resources.len(),
        0 <= j < resources.len(),
        i != j,
        resources[i].occupied,
        resources[j].occupied,
        resources[i].res_type == resources[j].res_type,
        resources[i].res_type != ResourceType::Unused,
        resources[i].res_type == ResourceType::IoPort || resources[i].sharing
            == ResourceSharing::Exclusive,
    ensures
        resources[i].base + resources[i].size <= resources[j].base || resources[j].base
            + resources[j].size <= resources[i].base,
{
    assert(!in_the_way(
        resources[i],
        resources[j].res_type,
        resources[j].sharing,
        resources[j].base as int,
        resources[j].size as int,
    ));
}

/// Every device can be brought from discovery into use, and from use to release; a released one
/// goes nowhere.
pub proof fn law_life_of_a_device(to: DeviceLifecycleState)
    ensures
        is_legal_step(DeviceLifecycleState::Discovered, DeviceLifecycleState::Probed),
        is_legal_step(DeviceLifecycleState::Probed, DeviceLifecycleState::Attached),
        is_legal_step(DeviceLifecycleState::Attached, DeviceLifecycleState::Ready),
        is_legal_step(DeviceLifecycleState::Ready, DeviceLifecycleState::Quiescing),
        is_legal_step(DeviceLifecycleState::Quiescing, DeviceLifecycleState::Detached),
        is_legal_step(DeviceLifecycleState::Detached, to) <==> to
            == DeviceLifecycleState::Released,
        !is_legal_step(DeviceLifecycleState::Released, to),
        !is_legal_step(to, DeviceLifecycleState::Discovered),
{
}

} // verus!
