//! Who hears of an interrupt, and how a line that fires too often is kept quiet.
use crate::dev::types::{
    empty_binding, empty_line, DeviceError, DeviceId, InterruptBinding, IrqLineState,
    ResourceSharing, MAX_INTERRUPT_VECTORS, MAX_SHARED_IRQ_BINDINGS,
};
use crate::ipc::object::{
    KernelObjectHeader, KernelObjectSlot, KernelObjectTable, KernelObjectType, MAX_KERNEL_OBJECTS,
};
use vstd::prelude::*;

verus! {

/// A line that fires more often in one tick is masked.
pub const MAX_IRQS_PER_TICK: u32 = 1000;

/// For how many ticks.
pub const STORM_COOLDOWN_TICKS: u32 = 50;

/// The interrupt lines and who listens to them.
pub struct InterruptTable {
    pub bindings: [[InterruptBinding; MAX_SHARED_IRQ_BINDINGS]; MAX_INTERRUPT_VECTORS],
    pub lines: [IrqLineState; MAX_INTERRUPT_VECTORS],
}

/// What one driver is told of an interrupt.
#[derive(Debug, Clone, Copy, PartialEq, Eq, Structural)]
pub struct Delivery {
    pub device_id: DeviceId,
    /// The routine to run at once.
    pub top_half: Option<u64>,
    /// The event object to signal, or 0.
    pub event_object_id: u64,
}

impl InterruptTable {
    pub open spec fn is_empty(&self) -> bool {
        &&& forall|v: int|
            0 <= v < MAX_INTERRUPT_VECTORS ==> (#[trigger] self.lines@[v]) == empty_line()
        &&& forall|v: int, b: int|
            0 <= v < MAX_INTERRUPT_VECTORS && 0 <= b < MAX_SHARED_IRQ_BINDINGS ==> (
            #[trigger] self.bindings@[v]@[b]) == empty_binding()
    }

    /// A table in which nobody listens to anything.
    pub fn new() -> (r: Self)
        ensures
            r.is_empty(),
            r.wf(),
    {
        let r = InterruptTable {
            bindings: [[InterruptBinding::empty(); MAX_SHARED_IRQ_BINDINGS]; MAX_INTERRUPT_VECTORS],
            lines: [IrqLineState::empty(); MAX_INTERRUPT_VECTORS],
        };
        proof {
            lemma_empty_is_wf(&r);
        }
        r
    }

    /// Every line knows how many listen to it, and every binding has the identifier of its place.
    pub open spec fn wf(&self) -> bool {
        &&& forall|v: int|
            0 <= v < MAX_INTERRUPT_VECTORS ==> (#[trigger] self.lines@[v]).active_bindings
                == listeners(self.bindings@[v]@, 4)
        &&& forall|v: int, b: int|
            0 <= v < MAX_INTERRUPT_VECTORS && 0 <= b < MAX_SHARED_IRQ_BINDINGS && (
            #[trigger] self.bindings@[v]@[b]).occupied ==> self.bindings@[v]@[b].binding_id == v
                * 256 + b
    }
}

/// How many of the first `n` bindings of a line are in use.
pub open spec fn listeners(bindings: Seq<InterruptBinding>, n: int) -> int
    decreases n,
{
    if n <= 0 {
        0
    } else {
        listeners(bindings, n - 1) + (if bindings[n - 1].occupied {
            1int
        } else {
            0int
        })
    }
}

/// The first binding of a line that is not in use, from `from` on, or the number of bindings.
pub open spec fn free_binding(bindings: Seq<InterruptBinding>, from: int) -> int
    decreases bindings.len() - from,
{
    if from >= bindings.len() {
        bindings.len() as int
    } else if !bindings[from].occupied {
        from
    } else {
        free_binding(bindings, from + 1)
    }
}

proof fn lemma_empty_is_wf(t: &InterruptTable)
    requires
        t.is_empty(),
    ensures
        t.wf(),
{
    assert forall|v: int| 0 <= v < MAX_INTERRUPT_VECTORS implies (
    #[trigger] t.lines@[v]).active_bindings == listeners(t.bindings@[v]@, 4) by {
        reveal_with_fuel(listeners, 5);
        assert(t.bindings@[v]@[0] == empty_binding());
        assert(t.bindings@[v]@[1] == empty_binding());
        assert(t.bindings@[v]@[2] == empty_binding());
        assert(t.bindings@[v]@[3] == empty_binding());
    }
}

/// Forgets all listeners and the state of all lines.
pub fn init(t: &mut InterruptTable)
    ensures
        final(t).is_empty(),
        final(t).wf(),
{
    t.lines = [IrqLineState::empty(); MAX_INTERRUPT_VECTORS];
    t.bindings = [[InterruptBinding::empty(); MAX_SHARED_IRQ_BINDINGS]; MAX_INTERRUPT_VECTORS];
    proof {
        lemma_empty_is_wf(t);
    }
}

/// Nothing changed but the line and the bindings of one vector.
pub open spec fn only_vector(before: &InterruptTable, after: &InterruptTable, v: int) -> bool {
    &&& forall|k: int|
        0 <= k < MAX_INTERRUPT_VECTORS && k != v ==> (#[trigger] after.lines@[k])
            == before.lines@[k]
    &&& forall|k: int|
        0 <= k < MAX_INTERRUPT_VECTORS && k != v ==> (#[trigger] after.bindings@[k])
            == before.bindings@[k]
}

/// Adding a binding, or removing one, changes the number of listeners by one.
proof fn lemma_listeners_update(b: Seq<InterruptBinding>, i: int, x: InterruptBinding, n: int)
    requires
        b.len() == 4,
        0 <= i < 4,
        0 <= n <= 4,
    ensures
        listeners(b.update(i, x), n) == listeners(b, n) + (if i < n && x.occupied
            && !b[i].occupied {
            1int
        } else if i < n && !x.occupied && b[i].occupied {
            -1int
        } else {
            0int
        }),
        0 <= listeners(b, n) <= n,
    decreases n,
{
    if n > 0 {
        lemma_listeners_update(b, i, x, n - 1);
    }
}

/// The first binding that is not in use is not in use; where there is none, all four are.
proof fn lemma_free_binding(b: Seq<InterruptBinding>, from: int)
    requires
        b.len() == 4,
        0 <= from <= 4,
        forall|k: int| 0 <= k < from ==> (#[trigger] b[k]).occupied,
    ensures
        from <= free_binding(b, from) <= 4,
        free_binding(b, from) < 4 ==> !b[free_binding(b, from)].occupied,
        free_binding(b, from) == 4 ==> listeners(b, 4) == 4,
    decreases 4 - from,
{
    if from < 4 {
        if b[from].occupied {
            lemma_free_binding(b, from + 1);
        }
    } else {
        reveal_with_fuel(listeners, 5);
        assert(b[0].occupied && b[1].occupied && b[2].occupied && b[3].occupied);
    }
}

/// Why a binding cannot be added to a line.
pub open spec fn binding_fault(
    line: IrqLineState,
    sharing: ResourceSharing,
) -> Option<DeviceError> {
    if line.active_bindings != 0 && (line.sharing != ResourceSharing::Shared || sharing
        != ResourceSharing::Shared) {
        Some(DeviceError::ResourceConflict)
    } else if line.active_bindings >= MAX_SHARED_IRQ_BINDINGS {
        Some(DeviceError::CapacityExceeded)
    } else {
        None
    }
}

/// The outcome of adding a binding to a line.
pub open spec fn binding(
    before: &InterruptTable,
    after: &InterruptTable,
    vector: u8,
    sharing: ResourceSharing,
    device_id: DeviceId,
    driver_pid: u64,
    event_object_id: u64,
    top_half: Option<u64>,
    r: Result<u16, DeviceError>,
) -> bool {
    let line = before.lines@[vector as int];
    let b = free_binding(before.bindings@[vector as int]@, 0);
    match binding_fault(line, sharing) {
        Some(e) => {
            &&& r == Err::<u16, DeviceError>(e)
            &&& after.lines@[vector as int] == line
            &&& after.bindings@[vector as int] == before.bindings@[vector as int]
        },
        None => {
            &&& b < 4
            &&& r == Ok::<u16, DeviceError>((vector * 256 + b) as u16)
            &&& after.lines@[vector as int] == (IrqLineState {
                active_bindings: (line.active_bindings + 1) as u8,
                sharing: if line.active_bindings == 0 {
                    sharing
                } else {
                    line.sharing
                },
                ..line
            })
            &&& after.bindings@[vector as int]@ == before.bindings@[vector as int]@.update(
                b,
                InterruptBinding {
                    occupied: true,
                    binding_id: (vector * 256 + b) as u16,
                    device_id,
                    driver_pid,
                    event_object_id,
                    interrupt_count: 0,
                    top_half,
                    ..before.bindings@[vector as int]@[b]
                },
            )
        },
    }
}

/// Has a driver hear of an interrupt. A line that is not shared has one listener at most.
pub fn register_irq_binding(
    t: &mut InterruptTable,
    vector: u8,
    sharing: ResourceSharing,
    device_id: DeviceId,
    driver_pid: u64,
    event_object_id: u64,
    top_half: Option<u64>,
) -> (r: Result<u16, DeviceError>)
    requires
        old(t).wf(),
    ensures
        final(t).wf(),
        only_vector(old(t), final(t), vector as int),
        binding(
            old(t),
            final(t),
            vector,
            sharing,
            device_id,
            driver_pid,
            event_object_id,
            top_half,
            r,
        ),
{
    let v: usize = vector as usize;
    let ghost bs = t.bindings@[v as int]@;
    proof {
        lemma_free_binding(bs, 0);
        assert(t.lines@[v as int].active_bindings == listeners(bs, 4));
        lemma_listeners_update(bs, 0, bs[0], 4);
    }
    let line = t.lines[v];
    if line.active_bindings != 0 && (line.sharing != ResourceSharing::Shared || sharing
        != ResourceSharing::Shared) {
        return Err(DeviceError::ResourceConflict);
    }
    if line.active_bindings as usize >= MAX_SHARED_IRQ_BINDINGS {
        return Err(DeviceError::CapacityExceeded);
    }
    let mut b: usize = 0;
    while t.bindings[v][b].occupied
        invariant
            v == vector,
            b < 4,
            *t == *old(t),
            bs == t.bindings@[v as int]@,
            free_binding(bs, 0) == free_binding(bs, b as int),
            free_binding(bs, 0) < 4,
        decreases 4 - b,
    {
        assert(free_binding(bs, b as int) == free_binding(bs, b + 1));
        b = b + 1;
    }
    let was = t.bindings[v][b];
    let binding_id: u16 = (vector as u16) * 256 + b as u16;
    let now = InterruptBinding {
        occupied: true,
        binding_id,
        _pad: was._pad,
        device_id,
        driver_pid,
        event_object_id,
        interrupt_count: 0,
        top_half,
    };
    t.bindings[v][b] = now;
    if line.active_bindings == 0 {
        t.lines[v].sharing = sharing;
    }
    t.lines[v].active_bindings = line.active_bindings + 1;
    proof {
        lemma_listeners_update(bs, b as int, now, 4);
        assert(t.bindings@[v as int]@ =~= bs.update(b as int, now));
        lemma_wf_elsewhere(old(t), t, v as int);
    }
    Ok(binding_id)
}

/// A table stays in order where only one vector changed and that is in order.
proof fn lemma_wf_elsewhere(before: &InterruptTable, after: &InterruptTable, v: int)
    requires
        before.wf(),
        only_vector(before, after, v),
        0 <= v < MAX_INTERRUPT_VECTORS,
        after.lines@[v].active_bindings == listeners(after.bindings@[v]@, 4),
        forall|b: int|
            0 <= b < 4 && (#[trigger] after.bindings@[v]@[b]).occupied
                ==> after.bindings@[v]@[b].binding_id == v * 256 + b,
    ensures
        after.wf(),
{
    assert forall|k: int| 0 <= k < MAX_INTERRUPT_VECTORS implies (
    #[trigger] after.lines@[k]).active_bindings == listeners(after.bindings@[k]@, 4) by {
        if k != v {
            assert(after.lines@[k] == before.lines@[k]);
            assert(after.bindings@[k] == before.bindings@[k]);
        }
    }
    assert forall|k: int, b: int|
        0 <= k < MAX_INTERRUPT_VECTORS && 0 <= b < MAX_SHARED_IRQ_BINDINGS && (
        #[trigger] after.bindings@[k]@[b]).occupied implies after.bindings@[k]@[b].binding_id == k
        * 256 + b by {
        if k != v {
            assert(after.bindings@[k] == before.bindings@[k]);
            assert(before.bindings@[k]@[b].occupied);
        }
    }
}

/// A line after one of its listeners left.
pub open spec fn line_after_leaving(line: IrqLineState) -> IrqLineState {
    let n = if line.active_bindings == 0 {
        0u8
    } else {
        (line.active_bindings - 1) as u8
    };
    if n == 0 {
        IrqLineState {
            active_bindings: 0,
            sharing: ResourceSharing::Exclusive,
            masked: false,
            in_storm: false,
            ..line
        }
    } else {
        IrqLineState { active_bindings: n, ..line }
    }
}

/// The outcome of removing a binding.
pub open spec fn unbinding(
    before: &InterruptTable,
    after: &InterruptTable,
    binding_id: u16,
    r: Result<(), DeviceError>,
) -> bool {
    let v = binding_id as int / 256;
    let b = binding_id as int % 256;
    if b >= MAX_SHARED_IRQ_BINDINGS {
        &&& r == Err::<(), DeviceError>(DeviceError::InvalidParameter)
        &&& *after == *before
    } else if !before.bindings@[v]@[b].occupied {
        &&& r == Err::<(), DeviceError>(DeviceError::DeviceNotFound)
        &&& *after == *before
    } else {
        &&& r is Ok
        &&& only_vector(before, after, v)
        &&& after.bindings@[v]@ == before.bindings@[v]@.update(b, empty_binding())
        &&& after.lines@[v] == line_after_leaving(before.lines@[v])
    }
}

/// Removes a binding. The last one to leave a line resets it.
pub fn unregister_irq_binding(t: &mut InterruptTable, binding_id: u16) -> (r: Result<
    (),
    DeviceError,
>)
    requires
        old(t).wf(),
    ensures
        final(t).wf(),
        unbinding(old(t), final(t), binding_id, r),
{
    let v: usize = (binding_id / 256) as usize;
    let b: usize = (binding_id % 256) as usize;
    if b >= MAX_SHARED_IRQ_BINDINGS {
        return Err(DeviceError::InvalidParameter);
    }
    let ghost bs = t.bindings@[v as int]@;
    let was = t.bindings[v][b];
    assert(was == bs[b as int]);
    if !was.occupied || was.binding_id != binding_id {
        return Err(DeviceError::DeviceNotFound);
    }
    t.bindings[v][b] = InterruptBinding::empty();
    let n: u8 = t.lines[v].active_bindings.saturating_sub(1);
    t.lines[v].active_bindings = n;
    if n == 0 {
        t.lines[v].sharing = ResourceSharing::Exclusive;
        t.lines[v].masked = false;
        t.lines[v].in_storm = false;
    }
    proof {
        assert(old(t).lines@[v as int].active_bindings == listeners(bs, 4));
        lemma_listeners_update(bs, b as int, empty_binding(), 4);
        lemma_listeners_nonnegative(bs.update(b as int, empty_binding()), 4);
        assert(t.bindings@[v as int]@ =~= bs.update(b as int, empty_binding()));
        lemma_wf_elsewhere(old(t), t, v as int);
    }
    Ok(())
}

/// A line after it fired.
pub open spec fn line_after_firing(line: IrqLineState) -> IrqLineState {
    let fired = IrqLineState {
        total_line_interrupts: (line.total_line_interrupts + 1) as u64,
        irq_count_current_tick: (line.irq_count_current_tick + 1) as u32,
        ..line
    };
    if fired.irq_count_current_tick > MAX_IRQS_PER_TICK {
        IrqLineState {
            masked: true,
            in_storm: true,
            cooldown_ticks_remaining: STORM_COOLDOWN_TICKS,
            ..fired
        }
    } else {
        fired
    }
}

/// An interrupt on the line reaches its listeners.
pub open spec fn is_delivered(line: IrqLineState) -> bool {
    line.irq_count_current_tick < MAX_IRQS_PER_TICK && !line.masked
}

/// A binding after an interrupt reached it.
pub open spec fn counted(b: InterruptBinding) -> InterruptBinding {
    if b.occupied {
        InterruptBinding { interrupt_count: (b.interrupt_count + 1) as u64, ..b }
    } else {
        b
    }
}

/// What the first `n` bindings of a line are told.
pub open spec fn deliveries(bindings: Seq<InterruptBinding>, n: int) -> Seq<Delivery>
    decreases n,
{
    if n <= 0 {
        Seq::empty()
    } else if bindings[n - 1].occupied {
        deliveries(bindings, n - 1).push(
            Delivery {
                device_id: bindings[n - 1].device_id,
                top_half: bindings[n - 1].top_half,
                event_object_id: bindings[n - 1].event_object_id,
            },
        )
    } else {
        deliveries(bindings, n - 1)
    }
}

/// The outcome of an interrupt on a line.
pub open spec fn dispatching(
    before: &InterruptTable,
    after: &InterruptTable,
    v: int,
    r: Seq<Delivery>,
) -> bool {
    &&& after.lines@[v] == line_after_firing(before.lines@[v])
    &&& is_delivered(before.lines@[v]) ==> {
        &&& r == deliveries(before.bindings@[v]@, 4)
        &&& forall|b: int|
            0 <= b < 4 ==> (#[trigger] after.bindings@[v]@[b]) == counted(before.bindings@[v]@[b])
    }
    &&& !is_delivered(before.lines@[v]) ==> {
        &&& r.len() == 0
        &&& after.bindings@[v] == before.bindings@[v]
    }
}

/// Counts an interrupt and says who is to hear of it. A line that fires too often is masked, and
/// what comes in on a masked line reaches nobody.
pub fn dispatch_interrupt(t: &mut InterruptTable, vector: u8) -> (r: Vec<Delivery>)
    requires
        old(t).wf(),
        old(t).lines@[vector as int].total_line_interrupts < u64::MAX,
        old(t).lines@[vector as int].irq_count_current_tick < u32::MAX,
        forall|b: int|
            0 <= b < 4 ==> (#[trigger] old(t).bindings@[vector as int]@[b]).interrupt_count
                < u64::MAX,
    ensures
        final(t).wf(),
        only_vector(old(t), final(t), vector as int),
        dispatching(old(t), final(t), vector as int, r@),
{
    let v: usize = vector as usize;
    let mut out: Vec<Delivery> = Vec::new();
    let total: u64 = t.lines[v].total_line_interrupts;
    let count: u32 = t.lines[v].irq_count_current_tick;
    t.lines[v].total_line_interrupts = total + 1;
    t.lines[v].irq_count_current_tick = count + 1;
    if count + 1 > MAX_IRQS_PER_TICK {
        t.lines[v].masked = true;
        t.lines[v].in_storm = true;
        t.lines[v].cooldown_ticks_remaining = STORM_COOLDOWN_TICKS;
        proof {
            lemma_wf_elsewhere(old(t), t, v as int);
        }
        return out;
    }
    if t.lines[v].masked {
        proof {
            lemma_wf_elsewhere(old(t), t, v as int);
        }
        return out;
    }
    let ghost fired = *t;
    let ghost bs = t.bindings@[v as int]@;
    let mut b: usize = 0;
    while b < MAX_SHARED_IRQ_BINDINGS
        invariant
            v == vector,
            b <= 4,
            bs == old(t).bindings@[v as int]@,
            bs.len() == 4,
            forall|k: int| 0 <= k < 4 ==> (#[trigger] bs[k]).interrupt_count < u64::MAX,
            t.lines == fired.lines,
            only_vector(old(t), &fired, v as int),
            forall|k: int|
                0 <= k < MAX_INTERRUPT_VECTORS && k != v ==> (#[trigger] t.bindings@[k]) == old(
                    t,
                ).bindings@[k],
            forall|k: int|
                0 <= k < 4 ==> (#[trigger] t.bindings@[v as int]@[k]) == (if k < b {
                    counted(bs[k])
                } else {
                    bs[k]
                }),
            out@ == deliveries(bs, b as int),
        decreases 4 - b,
    {
        let slot = t.bindings[v][b];
        assert(slot == bs[b as int]);
        if slot.occupied {
            t.bindings[v][b].interrupt_count = slot.interrupt_count + 1;
            out.push(
                Delivery {
                    device_id: slot.device_id,
                    top_half: slot.top_half,
                    event_object_id: slot.event_object_id,
                },
            );
        }
        b = b + 1;
    }
    proof {
        let now = t.bindings@[v as int]@;
        lemma_same_listeners(bs, now, 4);
        assert(old(t).lines@[v as int].active_bindings == listeners(bs, 4));
        assert forall|k: int|
            0 <= k < 4 && (#[trigger] t.bindings@[v as int]@[k]).occupied implies t.bindings@[v as int]@[k].binding_id
            == v * 256 + k by {
            assert(old(t).bindings@[v as int]@[k].occupied);
        }
        lemma_wf_elsewhere(old(t), t, v as int);
    }
    out
}

/// Bindings that are in use in the same places are as many.
proof fn lemma_same_listeners(a: Seq<InterruptBinding>, b: Seq<InterruptBinding>, n: int)
    requires
        a.len() == 4,
        b.len() == 4,
        0 <= n <= 4,
        forall|k: int| 0 <= k < 4 ==> (#[trigger] a[k]).occupied == b[k].occupied,
    ensures
        listeners(a, n) == listeners(b, n),
    decreases n,
{
    if n > 0 {
        assert(a[n - 1].occupied == b[n - 1].occupied);
        lemma_same_listeners(a, b, n - 1);
    }
}

/// The event object with an identifier.
pub open spec fn is_event(s: KernelObjectSlot, id: u64) -> bool {
    s.occupied && s.obj_type == KernelObjectType::Event && s.header.object_id == id
}

/// The first slot from `from` on that holds an event object, or the number of slots.
pub open spec fn event_slot(slots: Seq<KernelObjectSlot>, id: u64, from: int) -> int
    decreases slots.len() - from,
{
    if from >= slots.len() {
        slots.len() as int
    } else if is_event(slots[from], id) {
        from
    } else {
        event_slot(slots, id, from + 1)
    }
}

/// Signals an event object; one that is not there is ignored.
pub fn signal_event_by_id(t: &mut KernelObjectTable, event_obj_id: u64)
    ensures
        final(t).next_object_id == old(t).next_object_id,
        ({
            let i = event_slot(old(t).slots@, event_obj_id, 0);
            final(t).slots@ == (if i >= MAX_KERNEL_OBJECTS {
                old(t).slots@
            } else {
                let s = old(t).slots@[i];
                old(t).slots@.update(
                    i,
                    KernelObjectSlot {
                        header: KernelObjectHeader { signals: s.header.signals | 1, ..s.header },
                        ..s
                    },
                )
            })
        }),
{
    let mut i: usize = 0;
    while i < MAX_KERNEL_OBJECTS
        invariant
            i <= MAX_KERNEL_OBJECTS,
            *t == *old(t),
            event_slot(t.slots@, event_obj_id, 0) == event_slot(
                t.slots@,
                event_obj_id,
                i as int,
            ),
        decreases MAX_KERNEL_OBJECTS - i,
    {
        let s = t.slots[i];
        if s.occupied && s.obj_type == KernelObjectType::Event && s.header.object_id
            == event_obj_id {
            t.slots[i].header.signals = s.header.signals | 1;
            assert(t.slots@ =~= old(t).slots@.update(
                i as int,
                KernelObjectSlot {
                    header: KernelObjectHeader { signals: s.header.signals | 1, ..s.header },
                    ..s
                },
            ));
            return;
        }
        i = i + 1;
    }
}

/// A line after a tick.
pub open spec fn line_after_tick(line: IrqLineState) -> IrqLineState {
    let left = if line.cooldown_ticks_remaining > 0 {
        (line.cooldown_ticks_remaining - 1) as u32
    } else {
        0u32
    };
    let over = line.cooldown_ticks_remaining == 1 && line.in_storm;
    IrqLineState {
        irq_count_current_tick: 0,
        cooldown_ticks_remaining: left,
        in_storm: line.in_storm && !over,
        masked: line.masked && !over,
        ..line
    }
}

/// Begins a new tick: interrupts are counted anew, and a line that was quiet long enough is heard
/// again.
pub fn on_timer_tick(t: &mut InterruptTable)
    requires
        old(t).wf(),
    ensures
        final(t).wf(),
        final(t).bindings == old(t).bindings,
        forall|v: int|
            0 <= v < MAX_INTERRUPT_VECTORS ==> (#[trigger] final(t).lines@[v]) == line_after_tick(
                old(t).lines@[v],
            ),
{
    let mut v: usize = 0;
    while v < MAX_INTERRUPT_VECTORS
        invariant
            v <= MAX_INTERRUPT_VECTORS,
            t.bindings == old(t).bindings,
            forall|k: int|
                0 <= k < MAX_INTERRUPT_VECTORS ==> (#[trigger] t.lines@[k]) == (if k < v {
                    line_after_tick(old(t).lines@[k])
                } else {
                    old(t).lines@[k]
                }),
        decreases MAX_INTERRUPT_VECTORS - v,
    {
        let mut line = t.lines[v];
        line.irq_count_current_tick = 0;
        if line.cooldown_ticks_remaining > 0 {
            line.cooldown_ticks_remaining = line.cooldown_ticks_remaining - 1;
            if line.cooldown_ticks_remaining == 0 && line.in_storm {
                line.in_storm = false;
                line.masked = false;
            }
        }
        t.lines[v] = line;
        v = v + 1;
    }
}

/// How many listen to a line.
pub fn get_vector_binding_count(t: &InterruptTable, vector: u8) -> (r: u8)
    ensures
        r == t.lines@[vector as int].active_bindings,
{
    t.lines[vector as usize].active_bindings
}

/// Whether a line fired too often.
pub fn is_vector_in_storm(t: &InterruptTable, vector: u8) -> (r: bool)
    ensures
        r == t.lines@[vector as int].in_storm,
{
    t.lines[vector as usize].in_storm
}

/// Whether a line is masked.
pub fn is_vector_masked(t: &InterruptTable, vector: u8) -> (r: bool)
    ensures
        r == t.lines@[vector as int].masked,
{
    t.lines[vector as usize].masked
}

/// For how many ticks a line stays masked.
pub fn get_vector_cooldown_remaining(t: &InterruptTable, vector: u8) -> (r: u32)
    ensures
        r == t.lines@[vector as int].cooldown_ticks_remaining,
{
    t.lines[vector as usize].cooldown_ticks_remaining
}

/// A line after it fired `n` times in a row.
pub open spec fn fired(line: IrqLineState, n: int) -> IrqLineState
    decreases n,
{
    if n <= 0 {
        line
    } else {
        line_after_firing(fired(line, n - 1))
    }
}

/// A line after `n` ticks.
pub open spec fn ticked(line: IrqLineState, n: int) -> IrqLineState
    decreases n,
{
    if n <= 0 {
        line
    } else {
        line_after_tick(ticked(line, n - 1))
    }
}

/// Up to a thousand interrupts in a tick leave a line as it is; one more masks it for fifty ticks.
pub proof fn law_storm_begins(line: IrqLineState, n: int)
    requires
        line.irq_count_current_tick == 0,
        !line.masked,
        !line.in_storm,
        line.total_line_interrupts <= u64::MAX - 1001,
        0 <= n <= 1000,
    ensures
        !fired(line, n).masked,
        !fired(line, n).in_storm,
        fired(line, n).irq_count_current_tick == n,
        n < 1000 ==> is_delivered(fired(line, n)),
        n == 1000 ==> {
            let f = line_after_firing(fired(line, n));
            f.masked && f.in_storm && f.cooldown_ticks_remaining == 50
        },
        n == 1000 ==> !is_delivered(fired(line, n)),
        fired(line, n).total_line_interrupts == line.total_line_interrupts + n,
    decreases n,
{
    if n > 0 {
        law_storm_begins(line, n - 1);
    }
}

/// A line in a storm stays masked for exactly as many ticks as its cooldown says, if it does not
/// fire again.
pub proof fn law_storm_ends(line: IrqLineState, n: int)
    requires
        line.masked,
        line.in_storm,
        line.cooldown_ticks_remaining > 0,
        0 <= n <= line.cooldown_ticks_remaining,
    ensures
        ticked(line, n).cooldown_ticks_remaining == line.cooldown_ticks_remaining - n,
        ticked(line, n).masked <==> n < line.cooldown_ticks_remaining,
        ticked(line, n).in_storm <==> n < line.cooldown_ticks_remaining,
    decreases n,
{
    if n > 0 {
        law_storm_ends(line, n - 1);
    }
}

/// Everybody who listens hears of a delivered interrupt, and hears of it once.
pub proof fn law_all_listeners_hear(bindings: Seq<InterruptBinding>, n: int)
    requires
        bindings.len() == 4,
        0 <= n <= 4,
    ensures
        deliveries(bindings, n).len() == listeners(bindings, n),
        forall|b: int|
            0 <= b < n && (#[trigger] bindings[b]).occupied ==> deliveries(bindings, n)[listeners(
                bindings,
                b,
            )] == (Delivery {
                device_id: bindings[b].device_id,
                top_half: bindings[b].top_half,
                event_object_id: bindings[b].event_object_id,
            }),
    decreases n,
{
    if n > 0 {
        law_all_listeners_hear(bindings, n - 1);
        assert forall|b: int| 0 <= b < n && (#[trigger] bindings[b]).occupied implies deliveries(
            bindings,
            n,
        )[listeners(bindings, b)] == (Delivery {
            device_id: bindings[b].device_id,
            top_half: bindings[b].top_half,
            event_object_id: bindings[b].event_object_id,
        }) by {
            if b < n - 1 {
                lemma_listeners_grow(bindings, b, n - 1);
            }
        }
    }
}

proof fn lemma_listeners_grow(bindings: Seq<InterruptBinding>, b: int, n: int)
    requires
        0 <= b < n <= bindings.len(),
        bindings[b].occupied,
    ensures
        0 <= listeners(bindings, b) < listeners(bindings, n),
    decreases n,
{
    if b < n - 1 {
        lemma_listeners_grow(bindings, b, n - 1);
    } else {
        lemma_listeners_nonnegative(bindings, b);
    }
}

proof fn lemma_listeners_nonnegative(bindings: Seq<InterruptBinding>, n: int)
    ensures
        listeners(bindings, n) >= 0,
    decreases n,
{
    if n > 0 {
        lemma_listeners_nonnegative(bindings, n - 1);
    }
}

/// A line that is not shared has one listener at most, and none can be added to it.
pub proof fn law_exclusive_line_has_one_owner(line: IrqLineState, sharing: ResourceSharing)
    requires
        line.active_bindings > 0,
        line.sharing == ResourceSharing::Exclusive || sharing == ResourceSharing::Exclusive,
    ensures
        binding_fault(line, sharing) == Some(DeviceError::ResourceConflict),
{
}

} // verus!
