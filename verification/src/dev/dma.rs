//! Buffers that devices reach by themselves, in frames that stay where they are.
use crate::dev::types::{
    empty_buffer, empty_pin, DeviceError, DeviceId, DmaBufferDescriptor, PhysicalFramePinRecord,
    ResourceSharing, MAX_DMA_BUFFERS, MAX_FRAMES_PER_BUFFER, MAX_PINNED_DMA_FRAMES,
};
use vstd::prelude::*;

verus! {

/// The buffers and the frames that they pin.
pub struct DmaTables {
    pub buffers: [DmaBufferDescriptor; MAX_DMA_BUFFERS],
    pub pins: [PhysicalFramePinRecord; MAX_PINNED_DMA_FRAMES],
    pub next_buffer_id: u32,
}

/// A pin record is not in use and blank, or pins a frame once.
pub open spec fn pin_ok(p: PhysicalFramePinRecord) -> bool {
    if p.occupied {
        p.pin_count == 1
    } else {
        p == empty_pin()
    }
}

/// A buffer has between one and sixteen frames, all of them pinned.
pub open spec fn buffer_ok(b: DmaBufferDescriptor, pins: Seq<PhysicalFramePinRecord>) -> bool {
    if b.occupied {
        &&& 0 < b.frame_count <= MAX_FRAMES_PER_BUFFER
        &&& forall|i: int|
            0 <= i < b.frame_count ==> (#[trigger] b.frame_indices@[i]) < MAX_PINNED_DMA_FRAMES
                && pins[b.frame_indices@[i] as int].occupied
    } else {
        b == empty_buffer()
    }
}

/// The buffer has a frame with this pin record.
pub open spec fn has_pin(b: DmaBufferDescriptor, p: int) -> bool {
    b.occupied && exists|i: int| 0 <= i < b.frame_count && (#[trigger] b.frame_indices@[i]) == p
}

/// No frame occurs twice in a buffer.
pub open spec fn frames_differ(b: DmaBufferDescriptor) -> bool {
    forall|i: int, j: int|
        0 <= i < b.frame_count && 0 <= j < b.frame_count && i != j ==> (
        #[trigger] b.frame_indices@[i]) != (#[trigger] b.frame_indices@[j])
}

impl DmaTables {
    /// Records are in order, and no frame belongs to two buffers.
    pub open spec fn wf(&self) -> bool {
        &&& forall|p: int| 0 <= p < MAX_PINNED_DMA_FRAMES ==> pin_ok(#[trigger] self.pins@[p])
        &&& forall|b: int|
            0 <= b < MAX_DMA_BUFFERS ==> buffer_ok(#[trigger] self.buffers@[b], self.pins@)
                && frames_differ(self.buffers@[b])
        &&& forall|b: int, c: int, p: int|
            0 <= b < MAX_DMA_BUFFERS && 0 <= c < MAX_DMA_BUFFERS && b != c && #[trigger] has_pin(
                self.buffers@[b],
                p,
            ) ==> !#[trigger] has_pin(self.buffers@[c], p)
    }

    pub open spec fn is_empty(&self) -> bool {
        &&& forall|b: int| 0 <= b < MAX_DMA_BUFFERS ==> (#[trigger] self.buffers@[b]) == empty_buffer()
        &&& forall|p: int|
            0 <= p < MAX_PINNED_DMA_FRAMES ==> (#[trigger] self.pins@[p]) == empty_pin()
    }

    /// Tables without buffers.
    pub fn new() -> (r: Self)
        ensures
            r.is_empty(),
            r.wf(),
            r.next_buffer_id == 1,
    {
        DmaTables {
            buffers: [DmaBufferDescriptor::empty(); MAX_DMA_BUFFERS],
            pins: [PhysicalFramePinRecord::empty(); MAX_PINNED_DMA_FRAMES],
            next_buffer_id: 1,
        }
    }
}

/// Forgets all buffers and pins.
pub fn init(d: &mut DmaTables)
    ensures
        final(d).is_empty(),
        final(d).wf(),
        final(d).next_buffer_id == old(d).next_buffer_id,
{
    d.buffers = [DmaBufferDescriptor::empty(); MAX_DMA_BUFFERS];
    d.pins = [PhysicalFramePinRecord::empty(); MAX_PINNED_DMA_FRAMES];
}

/// The first descriptor that is not in use from `from` on, or the number of descriptors.
pub open spec fn free_buffer(buffers: Seq<DmaBufferDescriptor>, from: int) -> int
    decreases buffers.len() - from,
{
    if from >= buffers.len() {
        buffers.len() as int
    } else if !buffers[from].occupied {
        from
    } else {
        free_buffer(buffers, from + 1)
    }
}

/// The first pin record that is not in use from `from` on, or the number of records.
pub open spec fn free_pin(pins: Seq<PhysicalFramePinRecord>, from: int) -> int
    decreases pins.len() - from,
{
    if from >= pins.len() {
        pins.len() as int
    } else if !pins[from].occupied {
        from
    } else {
        free_pin(pins, from + 1)
    }
}

/// How many of the pin records from `from` on are not in use.
pub open spec fn pin_room(pins: Seq<PhysicalFramePinRecord>, from: int) -> int
    decreases pins.len() - from,
{
    if from >= pins.len() {
        0
    } else {
        (if pins[from].occupied {
            0int
        } else {
            1int
        }) + pin_room(pins, from + 1)
    }
}

/// The record of a frame that a buffer pins.
pub open spec fn pin_of(frame: u64, b: int) -> PhysicalFramePinRecord {
    PhysicalFramePinRecord {
        occupied: true,
        _pad: 0,
        pin_count: 1,
        owning_buffer_mask: 1u32 << (b as u32),
        phys_addr: frame,
    }
}

/// The pin records after the first `n` frames were pinned, each in the first place that was free.
pub open spec fn pins_after(
    pins: Seq<PhysicalFramePinRecord>,
    frames: Seq<u64>,
    b: int,
    n: int,
) -> Seq<PhysicalFramePinRecord>
    decreases n,
{
    if n <= 0 {
        pins
    } else {
        let before = pins_after(pins, frames, b, n - 1);
        before.update(free_pin(before, 0), pin_of(frames[n - 1], b))
    }
}

/// Where a frame is pinned.
pub open spec fn pin_place(
    pins: Seq<PhysicalFramePinRecord>,
    frames: Seq<u64>,
    b: int,
    i: int,
) -> int {
    free_pin(pins_after(pins, frames, b, i), 0)
}

proof fn lemma_pin_room_update(pins: Seq<PhysicalFramePinRecord>, k: int, p: PhysicalFramePinRecord, from: int)
    requires
        0 <= from,
        0 <= k < pins.len(),
        !pins[k].occupied,
        p.occupied,
    ensures
        pin_room(pins.update(k, p), from) == pin_room(pins, from) - (if from <= k {
            1int
        } else {
            0int
        }),
    decreases pins.len() - from,
{
    if from < pins.len() {
        lemma_pin_room_update(pins, k, p, from + 1);
    }
}

proof fn lemma_free_pin(pins: Seq<PhysicalFramePinRecord>, from: int)
    requires
        0 <= from <= pins.len(),
    ensures
        from <= free_pin(pins, from) <= pins.len(),
        free_pin(pins, from) < pins.len() ==> !pins[free_pin(pins, from)].occupied,
        pin_room(pins, from) >= 0,
        pin_room(pins, from) > 0 <==> free_pin(pins, from) < pins.len(),
    decreases pins.len() - from,
{
    if from < pins.len() {
        lemma_free_pin(pins, from + 1);
    }
}

/// Frames are pinned in places that were free and all differ.
pub proof fn lemma_pins_after(pins: Seq<PhysicalFramePinRecord>, frames: Seq<u64>, b: int, n: int)
    requires
        0 <= n <= frames.len(),
        n <= pin_room(pins, 0),
    ensures
        ({
            let now = pins_after(pins, frames, b, n);
            &&& now.len() == pins.len()
            &&& pin_room(now, 0) == pin_room(pins, 0) - n
            &&& forall|i: int|
                0 <= i < n ==> {
                    let k = #[trigger] pin_place(pins, frames, b, i);
                    &&& 0 <= k < pins.len()
                    &&& !pins[k].occupied
                    &&& now[k] == pin_of(frames[i], b)
                }
            &&& forall|i: int, j: int|
                0 <= i < n && 0 <= j < n && i != j ==> (#[trigger] pin_place(pins, frames, b, i))
                    != (#[trigger] pin_place(pins, frames, b, j))
            &&& forall|k: int|
                0 <= k < pins.len() && (forall|i: int|
                    0 <= i < n ==> k != #[trigger] pin_place(pins, frames, b, i)) ==> (
                #[trigger] now[k]) == pins[k]
        }),
    decreases n,
{
    if n > 0 {
        lemma_pins_after(pins, frames, b, n - 1);
        let before = pins_after(pins, frames, b, n - 1);
        let now = pins_after(pins, frames, b, n);
        let k = pin_place(pins, frames, b, n - 1);
        lemma_free_pin(before, 0);
        lemma_pin_room_update(before, k, pin_of(frames[n - 1], b), 0);
        assert forall|i: int| 0 <= i < n - 1 implies (#[trigger] pin_place(pins, frames, b, i))
            != k by {
            assert(before[pin_place(pins, frames, b, i)].occupied);
        }
        assert(now == before.update(k, pin_of(frames[n - 1], b)));
        assert(!pins[k].occupied) by {
            assert(before[k] == pins[k]);
        }
        assert forall|x: int|
            0 <= x < pins.len() && (forall|i: int|
                0 <= i < n ==> x != #[trigger] pin_place(pins, frames, b, i)) implies (
        #[trigger] now[x]) == pins[x] by {
            assert(x != pin_place(pins, frames, b, n - 1));
            assert(before[x] == pins[x]);
        }
    }
}

/// Why a buffer cannot be made of the frames that could be had.
pub open spec fn alloc_fault(d: &DmaTables, frame_count: u16, granted: int) -> Option<DeviceError> {
    if frame_count == 0 || frame_count > MAX_FRAMES_PER_BUFFER {
        Some(DeviceError::InvalidParameter)
    } else if free_buffer(d.buffers@, 0) >= MAX_DMA_BUFFERS {
        Some(DeviceError::CapacityExceeded)
    } else if granted < frame_count {
        if pin_room(d.pins@, 0) < granted {
            Some(DeviceError::CapacityExceeded)
        } else {
            Some(DeviceError::OutOfMemory)
        }
    } else if pin_room(d.pins@, 0) < frame_count {
        Some(DeviceError::CapacityExceeded)
    } else {
        None
    }
}

fn count_free_pins(d: &DmaTables) -> (n: usize)
    ensures
        n == pin_room(d.pins@, 0),
{
    let mut n: usize = 0;
    let mut i: usize = 0;
    while i < MAX_PINNED_DMA_FRAMES
        invariant
            i <= MAX_PINNED_DMA_FRAMES,
            n <= i,
            n + pin_room(d.pins@, i as int) == pin_room(d.pins@, 0),
        decreases MAX_PINNED_DMA_FRAMES - i,
    {
        if !d.pins[i].occupied {
            n = n + 1;
        }
        i = i + 1;
    }
    n
}

fn find_free_pin(d: &DmaTables) -> (r: usize)
    requires
        free_pin(d.pins@, 0) < MAX_PINNED_DMA_FRAMES,
    ensures
        r == free_pin(d.pins@, 0),
{
    let mut i: usize = 0;
    while d.pins[i].occupied
        invariant
            i < MAX_PINNED_DMA_FRAMES,
            free_pin(d.pins@, 0) == free_pin(d.pins@, i as int),
            free_pin(d.pins@, 0) < MAX_PINNED_DMA_FRAMES,
        decreases MAX_PINNED_DMA_FRAMES - i,
    {
        assert(free_pin(d.pins@, i as int) == free_pin(d.pins@, i + 1));
        i = i + 1;
    }
    i
}

fn find_free_buffer(d: &DmaTables) -> (r: usize)
    ensures
        r == free_buffer(d.buffers@, 0),
        r <= MAX_DMA_BUFFERS,
        r < MAX_DMA_BUFFERS ==> !d.buffers@[r as int].occupied,
{
    let mut i: usize = 0;
    while i < MAX_DMA_BUFFERS && d.buffers[i].occupied
        invariant
            i <= MAX_DMA_BUFFERS,
            free_buffer(d.buffers@, 0) == free_buffer(d.buffers@, i as int),
        decreases MAX_DMA_BUFFERS - i,
    {
        i = i + 1;
    }
    i
}

fn give_back(frames: &[u64], freed: &mut Vec<u64>)
    ensures
        final(freed)@ == old(freed)@ + frames@,
{
    let mut i: usize = 0;
    assert(freed@ =~= old(freed)@ + frames@.take(0));
    while i < frames.len()
        invariant
            i <= frames@.len(),
            freed@ == old(freed)@ + frames@.take(i as int),
        decreases frames@.len() - i,
    {
        freed.push(frames[i]);
        assert(freed@ =~= old(freed)@ + frames@.take(i + 1));
        i = i + 1;
    }
    assert(frames@.take(i as int) =~= frames@);
}

/// The outcome of making a buffer of the frames that could be had.
pub open spec fn allocating(
    before: &DmaTables,
    after: &DmaTables,
    device_id: DeviceId,
    owning_pid: u64,
    frame_count: u16,
    sharing: ResourceSharing,
    frames: Seq<u64>,
    freed: Seq<u64>,
    freed_after: Seq<u64>,
    r: Result<(u32, u64), DeviceError>,
) -> bool {
    match alloc_fault(before, frame_count, frames.len() as int) {
        Some(e) => {
            &&& r == Err::<(u32, u64), DeviceError>(e)
            &&& *after == *before
            &&& freed_after == freed + frames
        },
        None => {
            let b = free_buffer(before.buffers@, 0);
            let now = after.buffers@[b];
            &&& r == Ok::<(u32, u64), DeviceError>((before.next_buffer_id, frames[0]))
            &&& freed_after == freed
            &&& after.next_buffer_id == (if before.next_buffer_id == u32::MAX {
                0
            } else {
                before.next_buffer_id + 1
            })
            &&& after.pins@ == pins_after(before.pins@, frames, b, frame_count as int)
            &&& after.buffers@ == before.buffers@.update(b, now)
            &&& now.occupied
            &&& now.buffer_id == before.next_buffer_id
            &&& now.frame_count == frame_count
            &&& now.sharing == sharing
            &&& now.device_id == device_id
            &&& now.owning_pid == owning_pid
            &&& now.phys_base == frames[0]
            &&& now.user_virt_addr == 0
            &&& forall|i: int|
                0 <= i < 16 ==> (#[trigger] now.frame_indices@[i]) == (if i < frame_count {
                    pin_place(before.pins@, frames, b, i)
                } else {
                    0xFFFF
                })
        },
    }
}

/// Makes a buffer of frames. `frames` holds those that could be had, at most as many as were asked
/// for. Where the buffer cannot be made, all of them go back and nothing changes.
pub fn alloc_dma_buffer(
    d: &mut DmaTables,
    device_id: DeviceId,
    owning_pid: u64,
    frame_count: u16,
    sharing: ResourceSharing,
    frames: &[u64],
    freed: &mut Vec<u64>,
) -> (r: Result<(u32, u64), DeviceError>)
    requires
        old(d).wf(),
        frames@.len() <= frame_count,
    ensures
        final(d).wf(),
        allocating(
            old(d),
            final(d),
            device_id,
            owning_pid,
            frame_count,
            sharing,
            frames@,
            old(freed)@,
            final(freed)@,
            r,
        ),
{
    if frame_count == 0 || frame_count as usize > MAX_FRAMES_PER_BUFFER {
        give_back(frames, freed);
        return Err(DeviceError::InvalidParameter);
    }
    let b: usize = find_free_buffer(d);
    if b >= MAX_DMA_BUFFERS {
        give_back(frames, freed);
        return Err(DeviceError::CapacityExceeded);
    }
    let room: usize = count_free_pins(d);
    if room < frames.len() {
        give_back(frames, freed);
        return Err(DeviceError::CapacityExceeded);
    }
    if frames.len() < frame_count as usize {
        give_back(frames, freed);
        return Err(DeviceError::OutOfMemory);
    }
    let ghost pins = d.pins@;
    let mut places: [u16; 16] = [0xFFFFu16; 16];
    let mut i: usize = 0;
    while i < frame_count as usize
        invariant
            i <= frame_count <= 16,
            frames@.len() == frame_count,
            frame_count <= pin_room(pins, 0),
            b < MAX_DMA_BUFFERS,
            pins == old(d).pins@,
            forall|p: int| 0 <= p < MAX_PINNED_DMA_FRAMES ==> pin_ok(#[trigger] pins[p]),
            d.buffers == old(d).buffers,
            d.next_buffer_id == old(d).next_buffer_id,
            d.pins@ == pins_after(pins, frames@, b as int, i as int),
            forall|j: int|
                0 <= j < 16 ==> (#[trigger] places@[j]) == (if j < i {
                    pin_place(pins, frames@, b as int, j)
                } else {
                    0xFFFF
                }),
        decreases frame_count - i,
    {
        proof {
            lemma_pins_after(pins, frames@, b as int, i as int);
            lemma_free_pin(d.pins@, 0);
        }
        let p: usize = find_free_pin(d);
        d.pins[p] = PhysicalFramePinRecord {
            occupied: true,
            _pad: 0,
            pin_count: 1,
            owning_buffer_mask: 1u32 << (b as u32),
            phys_addr: frames[i],
        };
        places[i] = p as u16;
        assert(p == pin_place(pins, frames@, b as int, i as int));
        i = i + 1;
    }
    let id: u32 = d.next_buffer_id;
    d.next_buffer_id = id.wrapping_add(1);
    d.buffers[b] = DmaBufferDescriptor {
        occupied: true,
        buffer_id: id,
        frame_count,
        sharing,
        device_id,
        owning_pid,
        phys_base: frames[0],
        user_virt_addr: 0,
        frame_indices: places,
    };
    proof {
        lemma_pins_after(pins, frames@, b as int, frame_count as int);
        assert(d.buffers@ =~= old(d).buffers@.update(b as int, d.buffers@[b as int]));
        lemma_alloc_keeps_wf(old(d), d, b as int, frames@);
    }
    Ok((id, frames[0]))
}

/// A new buffer leaves the tables in order.
proof fn lemma_alloc_keeps_wf(before: &DmaTables, after: &DmaTables, b: int, frames: Seq<u64>)
    requires
        before.wf(),
        0 <= b < MAX_DMA_BUFFERS,
        !before.buffers@[b].occupied,
        0 < frames.len() <= 16,
        frames.len() <= pin_room(before.pins@, 0),
        after.buffers@ == before.buffers@.update(b, after.buffers@[b]),
        after.pins@ == pins_after(before.pins@, frames, b, frames.len() as int),
        after.buffers@[b].occupied,
        after.buffers@[b].frame_count == frames.len(),
        forall|i: int|
            0 <= i < frames.len() ==> (#[trigger] after.buffers@[b].frame_indices@[i])
                == pin_place(before.pins@, frames, b, i),
    ensures
        after.wf(),
{
    let n = frames.len() as int;
    let pins = before.pins@;
    let now = after.pins@;
    let new = after.buffers@[b];
    lemma_pins_after(pins, frames, b, n);
    // Records in use are as they were.
    assert forall|k: int| 0 <= k < MAX_PINNED_DMA_FRAMES && pins[k].occupied implies (
    #[trigger] now[k]) == pins[k] by {
        assert forall|i: int| 0 <= i < n implies k != #[trigger] pin_place(pins, frames, b, i) by {
            assert(!pins[pin_place(pins, frames, b, i)].occupied);
        }
    }
    assert forall|p: int| 0 <= p < MAX_PINNED_DMA_FRAMES implies pin_ok(#[trigger] now[p]) by {
        if exists|i: int| 0 <= i < n && p == #[trigger] pin_place(pins, frames, b, i) {
        } else {
            assert(now[p] == pins[p]);
            assert(pin_ok(pins[p]));
        }
    }
    assert(buffer_ok(new, now)) by {
        assert forall|i: int| 0 <= i < new.frame_count implies (#[trigger] new.frame_indices@[i])
            < MAX_PINNED_DMA_FRAMES && now[new.frame_indices@[i] as int].occupied by {
            assert(new.frame_indices@[i] == pin_place(pins, frames, b, i));
        }
    }
    assert forall|c: int| 0 <= c < MAX_DMA_BUFFERS implies buffer_ok(
        #[trigger] after.buffers@[c],
        now,
    ) && frames_differ(after.buffers@[c]) by {
        if c != b {
            assert(after.buffers@[c] == before.buffers@[c]);
            let o = before.buffers@[c];
            assert(buffer_ok(o, pins) && frames_differ(o));
            if o.occupied {
                assert forall|i: int| 0 <= i < o.frame_count implies (
                #[trigger] o.frame_indices@[i]) < MAX_PINNED_DMA_FRAMES
                    && now[o.frame_indices@[i] as int].occupied by {
                    assert(pins[o.frame_indices@[i] as int].occupied);
                }
            }
        } else {
            assert forall|i: int, j: int|
                0 <= i < new.frame_count && 0 <= j < new.frame_count && i != j implies (
            #[trigger] new.frame_indices@[i]) != (#[trigger] new.frame_indices@[j]) by {
                assert(pin_place(pins, frames, b, i) != pin_place(pins, frames, b, j));
            }
        }
    }
    assert forall|c: int, e: int, p: int|
        0 <= c < MAX_DMA_BUFFERS && 0 <= e < MAX_DMA_BUFFERS && c != e && #[trigger] has_pin(
            after.buffers@[c],
            p,
        ) implies !#[trigger] has_pin(after.buffers@[e], p) by {
        if c != b && e != b {
            assert(after.buffers@[c] == before.buffers@[c]);
            assert(after.buffers@[e] == before.buffers@[e]);
            assert(has_pin(before.buffers@[c], p));
        } else {
            let other = if c == b {
                e
            } else {
                c
            };
            assert(after.buffers@[other] == before.buffers@[other]);
            if has_pin(after.buffers@[c], p) && has_pin(after.buffers@[e], p) {
                let o = before.buffers@[other];
                assert(buffer_ok(o, pins));
                let i = choose|i: int|
                    0 <= i < o.frame_count && (#[trigger] o.frame_indices@[i]) == p;
                let k = choose|k: int|
                    0 <= k < new.frame_count && (#[trigger] new.frame_indices@[k]) == p;
                assert(pins[p].occupied);
                assert(p == pin_place(pins, frames, b, k));
                assert(!pins[p].occupied);
            }
        }
    }
}

/// The frames of a buffer.
pub open spec fn frames_of(b: DmaBufferDescriptor, pins: Seq<PhysicalFramePinRecord>, n: int) -> Seq<
    u64,
> {
    Seq::new(n as nat, |i: int| pins[b.frame_indices@[i] as int].phys_addr)
}

/// The pin records without those of a buffer.
pub open spec fn pins_without(pins: Seq<PhysicalFramePinRecord>, b: DmaBufferDescriptor) -> Seq<
    PhysicalFramePinRecord,
> {
    Seq::new(
        pins.len(),
        |p: int|
            if has_pin(b, p) {
                empty_pin()
            } else {
                pins[p]
            },
    )
}

/// Gives the frames of a buffer back and forgets the buffer.
fn release_buffer(d: &mut DmaTables, b: usize, freed: &mut Vec<u64>)
    requires
        old(d).wf(),
        b < MAX_DMA_BUFFERS,
        old(d).buffers@[b as int].occupied,
    ensures
        final(d).wf(),
        final(d).next_buffer_id == old(d).next_buffer_id,
        final(d).buffers@ == old(d).buffers@.update(b as int, empty_buffer()),
        final(d).pins@ == pins_without(old(d).pins@, old(d).buffers@[b as int]),
        final(freed)@ == old(freed)@ + frames_of(
            old(d).buffers@[b as int],
            old(d).pins@,
            old(d).buffers@[b as int].frame_count as int,
        ),
{
    let desc = d.buffers[b];
    let ghost pins = d.pins@;
    let count: usize = desc.frame_count as usize;
    assert(buffer_ok(desc, pins) && frames_differ(desc));
    let mut i: usize = 0;
    assert(freed@ =~= old(freed)@ + frames_of(desc, pins, 0));
    while i < count
        invariant
            i <= count,
            count == desc.frame_count,
            count <= 16,
            desc.occupied,
            buffer_ok(desc, pins),
            frames_differ(desc),
            forall|p: int| 0 <= p < MAX_PINNED_DMA_FRAMES ==> pin_ok(#[trigger] pins[p]),
            pins.len() == MAX_PINNED_DMA_FRAMES,
            d.buffers == old(d).buffers,
            d.next_buffer_id == old(d).next_buffer_id,
            freed@ == old(freed)@ + frames_of(desc, pins, i as int),
            forall|p: int|
                0 <= p < MAX_PINNED_DMA_FRAMES && (forall|k: int|
                    0 <= k < i ==> (#[trigger] desc.frame_indices@[k]) != p) ==> (
                #[trigger] d.pins@[p]) == pins[p],
            forall|k: int|
                0 <= k < i ==> d.pins@[(#[trigger] desc.frame_indices@[k]) as int] == empty_pin(),
        decreases count - i,
    {
        let pin_idx: usize = desc.frame_indices[i] as usize;
        assert(d.pins@[pin_idx as int] == pins[pin_idx as int]) by {
            assert forall|k: int| 0 <= k < i implies (#[trigger] desc.frame_indices@[k])
                != pin_idx by {
                assert(desc.frame_indices@[i as int] != desc.frame_indices@[k]);
            }
        }
        if pin_idx < MAX_PINNED_DMA_FRAMES {
            if d.pins[pin_idx].occupied {
                let left: u16 = d.pins[pin_idx].pin_count.saturating_sub(1);
                d.pins[pin_idx].pin_count = left;
                if left == 0 {
                    let phys: u64 = d.pins[pin_idx].phys_addr;
                    d.pins[pin_idx] = PhysicalFramePinRecord::empty();
                    freed.push(phys);
                }
            }
        }
        assert(freed@ =~= old(freed)@ + frames_of(desc, pins, i + 1));
        i = i + 1;
    }
    d.buffers[b] = DmaBufferDescriptor::empty();
    proof {
        assert(d.pins@ =~= pins_without(pins, desc)) by {
            assert forall|p: int| 0 <= p < MAX_PINNED_DMA_FRAMES implies (#[trigger] d.pins@[p])
                == pins_without(pins, desc)[p] by {
                if has_pin(desc, p) {
                    let k = choose|k: int|
                        0 <= k < desc.frame_count && (#[trigger] desc.frame_indices@[k]) == p;
                    assert(d.pins@[desc.frame_indices@[k] as int] == empty_pin());
                } else {
                    assert forall|k: int| 0 <= k < count implies (
                    #[trigger] desc.frame_indices@[k]) != p by {}
                }
            }
        }
        lemma_release_keeps_wf(old(d), d, b as int);
    }
}

/// Tables without a buffer are in order.
proof fn lemma_release_keeps_wf(before: &DmaTables, after: &DmaTables, b: int)
    requires
        before.wf(),
        0 <= b < MAX_DMA_BUFFERS,
        before.buffers@[b].occupied,
        after.buffers@ == before.buffers@.update(b, empty_buffer()),
        after.pins@ == pins_without(before.pins@, before.buffers@[b]),
    ensures
        after.wf(),
{
    let gone = before.buffers@[b];
    assert forall|p: int| 0 <= p < MAX_PINNED_DMA_FRAMES implies pin_ok(
        #[trigger] after.pins@[p],
    ) by {
        assert(pin_ok(before.pins@[p]));
    }
    assert forall|c: int| 0 <= c < MAX_DMA_BUFFERS implies buffer_ok(
        #[trigger] after.buffers@[c],
        after.pins@,
    ) && frames_differ(after.buffers@[c]) by {
        if c != b {
            let o = before.buffers@[c];
            assert(after.buffers@[c] == o);
            assert(buffer_ok(o, before.pins@) && frames_differ(o));
            if o.occupied {
                assert forall|i: int| 0 <= i < o.frame_count implies (
                #[trigger] o.frame_indices@[i]) < MAX_PINNED_DMA_FRAMES
                    && after.pins@[o.frame_indices@[i] as int].occupied by {
                    assert(has_pin(o, o.frame_indices@[i] as int));
                    assert(!has_pin(gone, o.frame_indices@[i] as int));
                }
            }
        }
    }
    assert forall|c: int, e: int, p: int|
        0 <= c < MAX_DMA_BUFFERS && 0 <= e < MAX_DMA_BUFFERS && c != e && #[trigger] has_pin(
            after.buffers@[c],
            p,
        ) implies !#[trigger] has_pin(after.buffers@[e], p) by {
        assert(c != b);
        assert(has_pin(before.buffers@[c], p));
        if e != b {
            assert(after.buffers@[e] == before.buffers@[e]);
        }
    }
}

/// The descriptor is that of a buffer.
pub open spec fn is_buffer(b: DmaBufferDescriptor, id: u32) -> bool {
    b.occupied && b.buffer_id == id
}

/// The first descriptor of a buffer from `from` on, or the number of descriptors.
pub open spec fn buffer_slot(buffers: Seq<DmaBufferDescriptor>, id: u32, from: int) -> int
    decreases buffers.len() - from,
{
    if from >= buffers.len() {
        buffers.len() as int
    } else if is_buffer(buffers[from], id) {
        from
    } else {
        buffer_slot(buffers, id, from + 1)
    }
}

/// The outcome of giving a buffer up.
pub open spec fn giving_up(
    before: &DmaTables,
    after: &DmaTables,
    buffer_id: u32,
    freed: Seq<u64>,
    freed_after: Seq<u64>,
    r: Result<(), DeviceError>,
) -> bool {
    let b = buffer_slot(before.buffers@, buffer_id, 0);
    if b >= MAX_DMA_BUFFERS {
        &&& r == Err::<(), DeviceError>(DeviceError::DeviceNotFound)
        &&& *after == *before
        &&& freed_after == freed
    } else {
        let gone = before.buffers@[b];
        &&& r is Ok
        &&& after.next_buffer_id == before.next_buffer_id
        &&& after.buffers@ == before.buffers@.update(b, empty_buffer())
        &&& after.pins@ == pins_without(before.pins@, gone)
        &&& freed_after == freed + frames_of(gone, before.pins@, gone.frame_count as int)
    }
}

/// Gives a buffer up. Its frames go back.
pub fn free_dma_buffer(d: &mut DmaTables, buffer_id: u32, freed: &mut Vec<u64>) -> (r: Result<
    (),
    DeviceError,
>)
    requires
        old(d).wf(),
    ensures
        final(d).wf(),
        giving_up(old(d), final(d), buffer_id, old(freed)@, final(freed)@, r),
{
    let mut b: usize = 0;
    while b < MAX_DMA_BUFFERS
        invariant
            b <= MAX_DMA_BUFFERS,
            *d == *old(d),
            d.wf(),
            freed@ == old(freed)@,
            buffer_slot(d.buffers@, buffer_id, 0) == buffer_slot(d.buffers@, buffer_id, b as int),
        decreases MAX_DMA_BUFFERS - b,
    {
        if d.buffers[b].occupied && d.buffers[b].buffer_id == buffer_id {
            release_buffer(d, b, freed);
            return Ok(());
        }
        b = b + 1;
    }
    Err(DeviceError::DeviceNotFound)
}

/// A frame is pinned.
pub open spec fn is_pinned(pins: Seq<PhysicalFramePinRecord>, phys_addr: u64) -> bool {
    exists|p: int|
        0 <= p < pins.len() && (#[trigger] pins[p]).occupied && pins[p].phys_addr == phys_addr
            && pins[p].pin_count > 0
}

/// Whether a frame is pinned.
pub fn is_frame_pinned(d: &DmaTables, phys_addr: u64) -> (r: bool)
    ensures
        r == is_pinned(d.pins@, phys_addr),
{
    let mut i: usize = 0;
    while i < MAX_PINNED_DMA_FRAMES
        invariant
            i <= MAX_PINNED_DMA_FRAMES,
            forall|p: int|
                0 <= p < i ==> !((#[trigger] d.pins@[p]).occupied && d.pins@[p].phys_addr
                    == phys_addr && d.pins@[p].pin_count > 0),
        decreases MAX_PINNED_DMA_FRAMES - i,
    {
        if d.pins[i].occupied && d.pins[i].phys_addr == phys_addr && d.pins[i].pin_count > 0 {
            assert(d.pins@[i as int].occupied);
            return true;
        }
        i = i + 1;
    }
    false
}

/// The descriptor is that of a buffer of a process.
pub open spec fn is_owned(b: DmaBufferDescriptor, pid: u64) -> bool {
    b.occupied && b.owning_pid == pid
}

/// How many of the first `n` buffers belong to a process.
pub open spec fn owned_in(buffers: Seq<DmaBufferDescriptor>, pid: u64, n: int) -> int
    decreases n,
{
    if n <= 0 {
        0
    } else {
        owned_in(buffers, pid, n - 1) + (if is_owned(buffers[n - 1], pid) {
            1int
        } else {
            0int
        })
    }
}

/// The frames of those of the first `n` buffers that belong to a process.
pub open spec fn frames_owned(
    buffers: Seq<DmaBufferDescriptor>,
    pins: Seq<PhysicalFramePinRecord>,
    pid: u64,
    n: int,
) -> Seq<u64>
    decreases n,
{
    if n <= 0 {
        Seq::empty()
    } else if is_owned(buffers[n - 1], pid) {
        frames_owned(buffers, pins, pid, n - 1) + frames_of(
            buffers[n - 1],
            pins,
            buffers[n - 1].frame_count as int,
        )
    } else {
        frames_owned(buffers, pins, pid, n - 1)
    }
}

/// Gives up the buffers of a process that ends, and counts them.
pub fn teardown_process_dma(d: &mut DmaTables, pid: u64, freed: &mut Vec<u64>) -> (n: usize)
    requires
        old(d).wf(),
    ensures
        final(d).wf(),
        final(d).next_buffer_id == old(d).next_buffer_id,
        n == owned_in(old(d).buffers@, pid, MAX_DMA_BUFFERS as int),
        final(freed)@ == old(freed)@ + frames_owned(
            old(d).buffers@,
            old(d).pins@,
            pid,
            MAX_DMA_BUFFERS as int,
        ),
        forall|b: int|
            0 <= b < MAX_DMA_BUFFERS ==> (#[trigger] final(d).buffers@[b]) == (if is_owned(
                old(d).buffers@[b],
                pid,
            ) {
                empty_buffer()
            } else {
                old(d).buffers@[b]
            }),
        forall|p: int|
            0 <= p < MAX_PINNED_DMA_FRAMES ==> (#[trigger] final(d).pins@[p]) == (if exists|b: int|
                0 <= b < MAX_DMA_BUFFERS && is_owned(#[trigger] old(d).buffers@[b], pid)
                    && has_pin(old(d).buffers@[b], p) {
                empty_pin()
            } else {
                old(d).pins@[p]
            }),
{
    let ghost before = *d;
    let mut n: usize = 0;
    let mut b: usize = 0;
    assert(freed@ =~= old(freed)@ + frames_owned(before.buffers@, before.pins@, pid, 0));
    while b < MAX_DMA_BUFFERS
        invariant
            b <= MAX_DMA_BUFFERS,
            n <= b,
            before == *old(d),
            before.wf(),
            d.wf(),
            d.next_buffer_id == before.next_buffer_id,
            n == owned_in(before.buffers@, pid, b as int),
            freed@ == old(freed)@ + frames_owned(before.buffers@, before.pins@, pid, b as int),
            forall|c: int|
                0 <= c < MAX_DMA_BUFFERS ==> (#[trigger] d.buffers@[c]) == (if c < b && is_owned(
                    before.buffers@[c],
                    pid,
                ) {
                    empty_buffer()
                } else {
                    before.buffers@[c]
                }),
            forall|p: int|
                0 <= p < MAX_PINNED_DMA_FRAMES ==> (#[trigger] d.pins@[p]) == (if exists|c: int|
                    0 <= c < b && is_owned(#[trigger] before.buffers@[c], pid) && has_pin(
                        before.buffers@[c],
                        p,
                    ) {
                    empty_pin()
                } else {
                    before.pins@[p]
                }),
        decreases MAX_DMA_BUFFERS - b,
    {
        let ghost now = *d;
        let ghost x = before.buffers@[b as int];
        assert(d.buffers@[b as int] == x);
        if d.buffers[b].occupied && d.buffers[b].owning_pid == pid {
            release_buffer(d, b, freed);
            proof {
                assert(frames_of(x, now.pins@, x.frame_count as int) =~= frames_of(
                    x,
                    before.pins@,
                    x.frame_count as int,
                )) by {
                    assert forall|i: int| 0 <= i < x.frame_count implies now.pins@[(
                    #[trigger] x.frame_indices@[i]) as int] == before.pins@[x.frame_indices@[i] as int] by {
                        let p = x.frame_indices@[i] as int;
                        assert(has_pin(x, p));
                        assert(buffer_ok(x, before.pins@));
                        assert forall|c: int|
                            0 <= c < b && is_owned(#[trigger] before.buffers@[c], pid) implies !has_pin(
                            before.buffers@[c],
                            p,
                        ) by {}
                    }
                }
                assert(freed@ =~= old(freed)@ + frames_owned(
                    before.buffers@,
                    before.pins@,
                    pid,
                    b + 1,
                ));
                assert forall|p: int| 0 <= p < MAX_PINNED_DMA_FRAMES implies (
                #[trigger] d.pins@[p]) == (if exists|c: int|
                    0 <= c < b + 1 && is_owned(#[trigger] before.buffers@[c], pid) && has_pin(
                        before.buffers@[c],
                        p,
                    ) {
                    empty_pin()
                } else {
                    before.pins@[p]
                }) by {
                    assert(d.pins@[p] == (if has_pin(x, p) {
                        empty_pin()
                    } else {
                        now.pins@[p]
                    }));
                    if has_pin(x, p) {
                        assert(is_owned(before.buffers@[b as int], pid) && has_pin(
                            before.buffers@[b as int],
                            p,
                        ));
                    } else if exists|c: int|
                        0 <= c < b + 1 && is_owned(#[trigger] before.buffers@[c], pid) && has_pin(
                            before.buffers@[c],
                            p,
                        ) {
                        let c = choose|c: int|
                            0 <= c < b + 1 && is_owned(#[trigger] before.buffers@[c], pid)
                                && has_pin(before.buffers@[c], p);
                        assert(c != b);
                        assert(is_owned(before.buffers@[c], pid) && has_pin(
                            before.buffers@[c],
                            p,
                        ));
                    }
                }
            }
            n = n + 1;
        } else {
            proof {
                assert forall|p: int| 0 <= p < MAX_PINNED_DMA_FRAMES implies (
                #[trigger] d.pins@[p]) == (if exists|c: int|
                    0 <= c < b + 1 && is_owned(#[trigger] before.buffers@[c], pid) && has_pin(
                        before.buffers@[c],
                        p,
                    ) {
                    empty_pin()
                } else {
                    before.pins@[p]
                }) by {
                    if exists|c: int|
                        0 <= c < b + 1 && is_owned(#[trigger] before.buffers@[c], pid) && has_pin(
                            before.buffers@[c],
                            p,
                        ) {
                        let c = choose|c: int|
                            0 <= c < b + 1 && is_owned(#[trigger] before.buffers@[c], pid)
                                && has_pin(before.buffers@[c], p);
                        assert(c != b);
                        assert(is_owned(before.buffers@[c], pid) && has_pin(
                            before.buffers@[c],
                            p,
                        ));
                    }
                }
            }
        }
        b = b + 1;
    }
    n
}

/// How many of the first `n` descriptors are in use.
pub open spec fn buffers_in(buffers: Seq<DmaBufferDescriptor>, n: int) -> int
    decreases n,
{
    if n <= 0 {
        0
    } else {
        buffers_in(buffers, n - 1) + (if buffers[n - 1].occupied {
            1int
        } else {
            0int
        })
    }
}

/// How many of the first `n` records pin a frame.
pub open spec fn pinned_in(pins: Seq<PhysicalFramePinRecord>, n: int) -> int
    decreases n,
{
    if n <= 0 {
        0
    } else {
        pinned_in(pins, n - 1) + (if pins[n - 1].occupied && pins[n - 1].pin_count > 0 {
            1int
        } else {
            0int
        })
    }
}

/// How many buffers there are.
pub fn get_active_buffer_count(d: &DmaTables) -> (n: usize)
    ensures
        n == buffers_in(d.buffers@, MAX_DMA_BUFFERS as int),
{
    let mut n: usize = 0;
    let mut i: usize = 0;
    while i < MAX_DMA_BUFFERS
        invariant
            i <= MAX_DMA_BUFFERS,
            n <= i,
            n == buffers_in(d.buffers@, i as int),
        decreases MAX_DMA_BUFFERS - i,
    {
        if d.buffers[i].occupied {
            n = n + 1;
        }
        i = i + 1;
    }
    n
}

/// How many frames are pinned.
pub fn get_pinned_frame_count(d: &DmaTables) -> (n: usize)
    ensures
        n == pinned_in(d.pins@, MAX_PINNED_DMA_FRAMES as int),
{
    let mut n: usize = 0;
    let mut i: usize = 0;
    while i < MAX_PINNED_DMA_FRAMES
        invariant
            i <= MAX_PINNED_DMA_FRAMES,
            n <= i,
            n == pinned_in(d.pins@, i as int),
        decreases MAX_PINNED_DMA_FRAMES - i,
    {
        if d.pins[i].occupied && d.pins[i].pin_count > 0 {
            n = n + 1;
        }
        i = i + 1;
    }
    n
}

/// While a buffer is there, all its frames are pinned.
pub proof fn law_frames_of_a_buffer_are_pinned(d: &DmaTables, b: int, i: int)
    requires
        d.wf(),
        0 <= b < MAX_DMA_BUFFERS,
        d.buffers@[b].occupied,
        0 <= i < d.buffers@[b].frame_count,
    ensures
        is_pinned(d.pins@, frames_of(d.buffers@[b], d.pins@, d.buffers@[b].frame_count as int)[i]),
{
    let p = d.buffers@[b].frame_indices@[i] as int;
    assert(buffer_ok(d.buffers@[b], d.pins@));
    assert(pin_ok(d.pins@[p]));
    assert(d.pins@[p].occupied);
}

/// A buffer that is made and given up again gives exactly its frames back, in order, and leaves the
/// tables as they were.
pub proof fn law_buffer_gives_its_frames_back(
    pins: Seq<PhysicalFramePinRecord>,
    frames: Seq<u64>,
    b: int,
    desc: DmaBufferDescriptor,
)
    requires
        pins.len() == MAX_PINNED_DMA_FRAMES,
        forall|p: int| 0 <= p < MAX_PINNED_DMA_FRAMES ==> pin_ok(#[trigger] pins[p]),
        0 < frames.len() <= 16,
        frames.len() <= pin_room(pins, 0),
        desc.occupied,
        desc.frame_count == frames.len(),
        forall|i: int|
            0 <= i < frames.len() ==> (#[trigger] desc.frame_indices@[i]) == pin_place(
                pins,
                frames,
                b,
                i,
            ),
    ensures
        frames_of(
            desc,
            pins_after(pins, frames, b, frames.len() as int),
            frames.len() as int,
        ) == frames,
        pins_without(pins_after(pins, frames, b, frames.len() as int), desc) == pins,
{
    let n = frames.len() as int;
    let now = pins_after(pins, frames, b, n);
    lemma_pins_after(pins, frames, b, n);
    assert(frames_of(desc, now, n) =~= frames) by {
        assert forall|i: int| 0 <= i < n implies frames_of(desc, now, n)[i] == frames[i] by {
            assert(desc.frame_indices@[i] == pin_place(pins, frames, b, i));
        }
    }
    assert(pins_without(now, desc) =~= pins) by {
        assert forall|p: int| 0 <= p < pins.len() implies pins_without(now, desc)[p] == pins[p] by {
            if has_pin(desc, p) {
                let i = choose|i: int|
                    0 <= i < desc.frame_count && (#[trigger] desc.frame_indices@[i]) == p;
                assert(p == pin_place(pins, frames, b, i));
                assert(pin_ok(pins[p]));
            } else {
                assert forall|i: int| 0 <= i < n implies p != #[trigger] pin_place(
                    pins,
                    frames,
                    b,
                    i,
                ) by {
                    assert(desc.frame_indices@[i] == pin_place(pins, frames, b, i));
                }
            }
        }
    }
}

} // verus!
