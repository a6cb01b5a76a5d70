//! A cache of four blocks in front of the devices.
use crate::fs::dev::{
    content, dependable, surviving, torn, with_fault, zero_block, BlockDevice, DeviceState, MemDeviceWrapper,
};
use crate::fs::types::{FsError, BLOCK_SIZE};
use vstd::prelude::*;

verus! {

pub const MAX_BUFFERS: usize = 4;

#[derive(Debug, Clone, Copy, PartialEq, Eq, Structural)]
pub enum BufferState {
    Free,
    /// Holds what the device holds.
    Clean,
    /// Holds what the device is still to get.
    Dirty,
    /// Is being filled.
    Pinned,
    /// Is being written to the device.
    Writeback,
}

#[derive(Clone, Copy)]
pub struct BlockBuffer {
    pub device_id: u8,
    pub block_idx: u64,
    pub state: BufferState,
    pub pin_count: u16,
    /// When the buffer was used last.
    pub lru_seq: u64,
    pub data: [u8; BLOCK_SIZE],
}

impl BlockBuffer {
    pub fn empty() -> (r: Self)
        ensures
            r.device_id == 0,
            r.block_idx == 0,
            r.state == BufferState::Free,
            r.pin_count == 0,
            r.lru_seq == 0,
            forall|i: int| 0 <= i < BLOCK_SIZE ==> r.data@[i] == 0,
    {
        BlockBuffer {
            device_id: 0,
            block_idx: 0,
            state: BufferState::Free,
            pin_count: 0,
            lru_seq: 0,
            data: [0u8; BLOCK_SIZE],
        }
    }

    /// The buffer holds a block of a device.
    pub open spec fn holds(&self, id: u8, b: int) -> bool {
        self.state != BufferState::Free && self.device_id == id && self.block_idx == b
    }

    /// The buffer may be given to another block.
    pub open spec fn evictable(&self) -> bool {
        self.pin_count == 0 && self.state != BufferState::Pinned && self.state
            != BufferState::Writeback
    }
}

/// The lock of the cache.
#[derive(Debug, PartialEq, Eq, Structural)]
pub struct BlockCacheLock {
    pub lock: bool,
}

impl BlockCacheLock {
    pub fn new() -> (r: Self)
        ensures
            !r.lock,
    {
        BlockCacheLock { lock: false }
    }

    /// Takes the lock once it is free.
    pub fn acquire(&mut self)
        requires
            !old(self).lock,
        ensures
            final(self).lock,
    {
        self.lock = true;
    }

    pub fn release(&mut self)
        ensures
            !final(self).lock,
    {
        self.lock = false;
    }
}

/// The devices and the cache in front of them: device 0 lives in memory, device 1 is a disk.
pub struct Storage<A: BlockDevice> {
    pub mem: MemDeviceWrapper,
    pub ata: A,
    pub buffers: [BlockBuffer; MAX_BUFFERS],
    pub next_lru_seq: u64,
}

/// Which device a number stands for.
#[derive(Debug, Clone, Copy, PartialEq, Eq, Structural)]
pub enum DeviceKind {
    Memory,
    Disk,
}

/// Finds the device that a number stands for.
pub fn get_device(id: u8) -> (r: Result<DeviceKind, FsError>)
    ensures
        r == (if id == 0 {
            Ok::<DeviceKind, FsError>(DeviceKind::Memory)
        } else if id == 1 {
            Ok::<DeviceKind, FsError>(DeviceKind::Disk)
        } else {
            Err::<DeviceKind, FsError>(FsError::NotFound)
        }),
{
    match id {
        0 => Ok(DeviceKind::Memory),
        1 => Ok(DeviceKind::Disk),
        _ => Err(FsError::NotFound),
    }
}

impl<A: BlockDevice> Storage<A> {
    /// There is a device with this number.
    pub open spec fn known(&self, id: u8) -> bool {
        id == 0 || id == 1
    }

    /// What a device itself holds.
    pub open spec fn stored(&self, id: u8) -> Map<int, Seq<u8>> {
        if id == 0 {
            content(&self.mem)
        } else if id == 1 {
            content(&self.ata)
        } else {
            Map::new(|b: int| true, |b: int| zero_block())
        }
    }

    /// What a device would still hold after a loss of power.
    pub open spec fn kept(&self, id: u8) -> Map<int, Seq<u8>> {
        if id == 0 {
            surviving(&self.mem)
        } else if id == 1 {
            surviving(&self.ata)
        } else {
            Map::new(|b: int| true, |b: int| zero_block())
        }
    }

    /// How many blocks a device has.
    pub open spec fn size(&self, id: u8) -> u64 {
        if id == 0 {
            self.mem.count()
        } else {
            self.ata.count()
        }
    }

    pub open spec fn status(&self, id: u8) -> DeviceState {
        if id == 0 {
            self.mem.status()
        } else {
            self.ata.status()
        }
    }

    /// There is such a device, and it is ready.
    pub open spec fn online(&self, id: u8) -> bool {
        self.known(id) && self.status(id) == DeviceState::Ready
    }

    /// The errors with which a device answered requests that were in order.
    pub open spec fn faults(&self, id: u8) -> Seq<FsError> {
        if id == 0 {
            self.mem.faults()
        } else if id == 1 {
            self.ata.faults()
        } else {
            Seq::empty()
        }
    }

    /// No device failed since.
    pub open spec fn unfailed_since(&self, before: &Self) -> bool {
        &&& self.faults(0).len() == before.faults(0).len()
        &&& self.faults(1).len() == before.faults(1).len()
    }

    /// A block as the file system sees it: from the cache, or else from the device.
    pub open spec fn block(&self, id: u8, b: int) -> Seq<u8> {
        if self.buffers@[0].holds(id, b) {
            self.buffers@[0].data@
        } else if self.buffers@[1].holds(id, b) {
            self.buffers@[1].data@
        } else if self.buffers@[2].holds(id, b) {
            self.buffers@[2].data@
        } else if self.buffers@[3].holds(id, b) {
            self.buffers@[3].data@
        } else {
            self.stored(id)[b]
        }
    }

    /// A device as the file system sees it.
    pub open spec fn vol(&self, id: u8) -> Map<int, Seq<u8>> {
        Map::new(|b: int| true, |b: int| self.block(id, b))
    }

    /// No two buffers hold the same block, and none was used in the future.
    pub open spec fn wf(&self) -> bool {
        &&& forall|i: int, j: int, id: u8, b: int|
            0 <= i < 4 && 0 <= j < 4 && i != j && #[trigger] self.buffers@[i].holds(id, b)
                ==> !#[trigger] self.buffers@[j].holds(id, b)
        &&& forall|i: int|
            0 <= i < 4 ==> (#[trigger] self.buffers@[i]).lru_seq <= self.next_lru_seq
    }

    /// A buffer in use belongs to a block of a device and can be evicted. It holds what the device
    /// holds, or what will be written to it, and then the device is ready.
    pub open spec fn buffer_ok(&self, i: int) -> bool {
        let f = self.buffers@[i];
        f.state != BufferState::Free ==> {
            &&& f.pin_count == 0
            &&& f.state == BufferState::Clean || f.state == BufferState::Dirty
            &&& self.known(f.device_id)
            &&& f.state == BufferState::Dirty ==> self.online(f.device_id)
            &&& f.block_idx < self.size(f.device_id)
            &&& f.state == BufferState::Clean ==> f.data@ == self.stored(f.device_id)[f.block_idx as int]
        }
    }

    /// The cache is in order, and all that it holds can be written back.
    pub open spec fn healthy(&self) -> bool {
        self.wf() && forall|i: int| 0 <= i < 4 ==> #[trigger] self.buffer_ok(i)
    }

    /// The cache is in order and the device is ready.
    pub open spec fn ready(&self, id: u8) -> bool {
        self.healthy() && self.online(id)
    }

    /// No device failed since, and the counter that orders the uses of buffers has not run out.
    pub open spec fn steady_since(&self, before: &Self) -> bool {
        self.next_lru_seq < u64::MAX && self.unfailed_since(before)
    }

    /// Buffers were used at most `n` times since.
    pub open spec fn aged_at_most(&self, before: &Self, n: int) -> bool {
        self.next_lru_seq <= before.next_lru_seq + n
    }

    /// Devices keep their sizes, go on being ready until one fails, and do not forget that they
    /// failed. Those that never fail did not.
    pub open spec fn same_devices(&self, other: &Self) -> bool {
        &&& self.size(0) == other.size(0)
        &&& self.size(1) == other.size(1)
        &&& self.unfailed_since(other) && other.online(0) ==> self.online(0)
        &&& self.unfailed_since(other) && other.online(1) ==> self.online(1)
        &&& self.faults(0).len() >= other.faults(0).len()
        &&& self.faults(1).len() >= other.faults(1).len()
        &&& dependable(&other.mem) ==> dependable(&self.mem) && self.faults(0) == other.faults(0)
        &&& dependable(&other.ata) ==> dependable(&self.ata) && self.faults(1) == other.faults(1)
        &&& self.next_lru_seq >= other.next_lru_seq
    }

    /// Puts an empty cache in front of two devices.
    pub fn new(mem: MemDeviceWrapper, ata: A) -> (r: Self)
        ensures
            r.mem == mem,
            r.ata == ata,
            r.healthy(),
            r.next_lru_seq == 1,
            forall|id: u8| #![auto] r.vol(id) == r.stored(id),
    {
        let mut r = Storage {
            mem,
            ata,
            buffers: [
                BlockBuffer::empty(),
                BlockBuffer::empty(),
                BlockBuffer::empty(),
                BlockBuffer::empty(),
            ],
            next_lru_seq: 1,
        };
        init_cache(&mut r);
        r
    }

    fn device_read(&mut self, id: u8, b: u64, buf: &mut [u8; BLOCK_SIZE]) -> (r: Result<(), FsError>)
        ensures
            final(self).buffers == old(self).buffers,
            final(self).next_lru_seq == old(self).next_lru_seq,
            final(self).same_devices(old(self)),
            final(self).faults(id) == with_fault(old(self).faults(id), old(self).online(id) && b < old(self).size(id), r),
            forall|k: u8| k != id ==> (#[trigger] final(self).faults(k)) == old(self).faults(k),
            forall|k: u8, n: int|
                (#[trigger] final(self).kept(k)[n]) == old(self).kept(k)[n] || final(self).kept(
                    k,
                )[n] == old(self).stored(k)[n],
            r is Ok ==> final(self).online(id),
            old(self).online(id) && !final(self).online(id) ==> final(self).faults(id) != old(
                self,
            ).faults(id),
            forall|k: u8| (#[trigger] final(self).stored(k)) == old(self).stored(k),
            r is Ok ==> old(self).known(id) && final(buf)@ == old(self).stored(id)[b as int],
            !old(self).known(id) ==> r == Err::<(), FsError>(FsError::NotFound),
            old(self).known(id) && old(self).status(id) != DeviceState::Ready ==> r == Err::<
                (),
                FsError,
            >(FsError::DeviceError),
            old(self).known(id) && old(self).status(id) == DeviceState::Ready && b >= old(
                self,
            ).size(id) ==> r == Err::<(), FsError>(FsError::InvalidArgument),
    {
        match id {
            0 => self.mem.read_block(b, buf),
            1 => self.ata.read_block(b, buf),
            _ => Err(FsError::NotFound),
        }
    }

    fn device_write(&mut self, id: u8, b: u64, buf: &[u8; BLOCK_SIZE]) -> (r: Result<(), FsError>)
        ensures
            final(self).buffers == old(self).buffers,
            final(self).next_lru_seq == old(self).next_lru_seq,
            final(self).same_devices(old(self)),
            final(self).faults(id) == with_fault(old(self).faults(id), old(self).online(id) && b < old(self).size(id), r),
            forall|k: u8| k != id ==> (#[trigger] final(self).faults(k)) == old(self).faults(k),
            !old(self).online(id) ==> !final(self).online(id),
            forall|k: u8, n: int|
                k != id || n != b ==> (#[trigger] final(self).kept(k)[n]) == old(self).kept(k)[n]
                    || final(self).kept(k)[n] == old(self).stored(k)[n],
            forall|k: u8, n: int|
                k != id || n != b ==> (#[trigger] final(self).stored(k)[n]) == old(self).stored(
                    k,
                )[n],
            torn(final(self).stored(id)[b as int], old(self).stored(id)[b as int], buf@),
            old(self).kept(id)[b as int] == old(self).stored(id)[b as int] ==> torn(
                final(self).kept(id)[b as int],
                old(self).stored(id)[b as int],
                buf@,
            ),
            r is Ok ==> final(self).online(id),
            old(self).online(id) && !final(self).online(id) ==> final(self).faults(id) != old(
                self,
            ).faults(id),
            r is Ok ==> old(self).known(id) && final(self).stored(id) == old(self).stored(id).insert(
                b as int,
                buf@,
            ),
            forall|k: u8| k != id ==> (#[trigger] final(self).stored(k)) == old(self).stored(k),
            id != 0 ==> final(self).mem == old(self).mem,
            id != 1 ==> final(self).ata == old(self).ata,
            !old(self).known(id) ==> r == Err::<(), FsError>(FsError::NotFound) && final(self).stored(id) == old(self).stored(id),
            old(self).known(id) && old(self).status(id) != DeviceState::Ready ==> r == Err::<
                (),
                FsError,
            >(FsError::DeviceError),
            old(self).known(id) && old(self).status(id) == DeviceState::Ready && b >= old(
                self,
            ).size(id) ==> r == Err::<(), FsError>(FsError::InvalidArgument),
    {
        match id {
            0 => self.mem.write_block(b, buf),
            1 => self.ata.write_block(b, buf),
            _ => Err(FsError::NotFound),
        }
    }

    fn device_flush(&mut self, id: u8) -> (r: Result<(), FsError>)
        ensures
            final(self).buffers == old(self).buffers,
            final(self).next_lru_seq == old(self).next_lru_seq,
            final(self).same_devices(old(self)),
            final(self).faults(id) == with_fault(old(self).faults(id), old(self).online(id), r),
            forall|k: u8| k != id ==> (#[trigger] final(self).faults(k)) == old(self).faults(k),
            forall|k: u8, n: int|
                (#[trigger] final(self).kept(k)[n]) == old(self).kept(k)[n] || final(self).kept(
                    k,
                )[n] == old(self).stored(k)[n],
            r is Ok ==> forall|n: int| (#[trigger] final(self).kept(id)[n]) == final(self).stored(
                id,
            )[n],
            r is Ok ==> final(self).online(id),
            old(self).online(id) && !final(self).online(id) ==> final(self).faults(id) != old(
                self,
            ).faults(id),
            forall|k: u8| (#[trigger] final(self).stored(k)) == old(self).stored(k),
            !old(self).known(id) ==> r == Err::<(), FsError>(FsError::NotFound),
            old(self).known(id) && old(self).status(id) != DeviceState::Ready ==> r == Err::<
                (),
                FsError,
            >(FsError::DeviceError),
    {
        match id {
            0 => self.mem.flush(),
            1 => self.ata.flush(),
            _ => Err(FsError::NotFound),
        }
    }

    /// The next place in the order of uses.
    fn next_use(&mut self) -> (r: u64)
        ensures
            final(self).mem == old(self).mem,
            final(self).ata == old(self).ata,
            final(self).buffers == old(self).buffers,
            final(self).next_lru_seq == r,
            r == (if old(self).next_lru_seq == u64::MAX {
                u64::MAX
            } else {
                (old(self).next_lru_seq + 1) as u64
            }),
    {
        self.next_lru_seq = self.next_lru_seq.saturating_add(1);
        self.next_lru_seq
    }

    /// The buffer that holds a block, if one does.
    fn find(&self, id: u8, b: u64) -> (r: Option<usize>)
        ensures
            match r {
                Some(i) => i < 4 && self.buffers@[i as int].holds(id, b as int),
                None => forall|i: int| 0 <= i < 4 ==> !(#[trigger] self.buffers@[i]).holds(id, b as int),
            },
    {
        let mut i: usize = 0;
        while i < MAX_BUFFERS
            invariant
                i <= 4,
                forall|j: int| 0 <= j < i ==> !(#[trigger] self.buffers@[j]).holds(id, b as int),
            decreases 4 - i,
        {
            if self.buffers[i].state != BufferState::Free && self.buffers[i].device_id == id
                && self.buffers[i].block_idx == b {
                return Some(i);
            }
            i = i + 1;
        }
        None
    }

    /// A buffer that holds nothing, if there is one.
    fn find_free(&self) -> (r: Option<usize>)
        ensures
            match r {
                Some(i) => i < 4 && self.buffers@[i as int].state == BufferState::Free,
                None => forall|i: int|
                    0 <= i < 4 ==> (#[trigger] self.buffers@[i]).state != BufferState::Free,
            },
    {
        let mut i: usize = 0;
        while i < MAX_BUFFERS
            invariant
                i <= 4,
                forall|j: int| 0 <= j < i ==> (#[trigger] self.buffers@[j]).state != BufferState::Free,
            decreases 4 - i,
        {
            if self.buffers[i].state == BufferState::Free {
                return Some(i);
            }
            i = i + 1;
        }
        None
    }

    /// The buffer that was not used for the longest time, among those that can be evicted.
    fn find_victim(&self) -> (r: Option<usize>)
        ensures
            match r {
                Some(i) => {
                    &&& i < 4
                    &&& self.buffers@[i as int].evictable()
                    &&& forall|j: int|
                        0 <= j < 4 && (#[trigger] self.buffers@[j]).evictable()
                            ==> self.buffers@[i as int].lru_seq <= self.buffers@[j].lru_seq
                },
                None => forall|j: int|
                    0 <= j < 4 && (#[trigger] self.buffers@[j]).evictable()
                        ==> self.buffers@[j].lru_seq == u64::MAX,
            },
    {
        let mut victim: Option<usize> = None;
        let mut min_lru: u64 = u64::MAX;
        let mut i: usize = 0;
        while i < MAX_BUFFERS
            invariant
                i <= 4,
                match victim {
                    Some(v) => {
                        &&& v < i
                        &&& self.buffers@[v as int].evictable()
                        &&& self.buffers@[v as int].lru_seq == min_lru
                    },
                    None => min_lru == u64::MAX,
                },
                forall|j: int|
                    0 <= j < i && (#[trigger] self.buffers@[j]).evictable() ==> min_lru
                        <= self.buffers@[j].lru_seq,
            decreases 4 - i,
        {
            if self.buffers[i].pin_count == 0 && self.buffers[i].state != BufferState::Pinned
                && self.buffers[i].state != BufferState::Writeback {
                if self.buffers[i].lru_seq < min_lru {
                    min_lru = self.buffers[i].lru_seq;
                    victim = Some(i);
                }
            }
            i = i + 1;
        }
        victim
    }
}

/// The buffer that a block gets: the one that holds it, a free one, or else the one that was not
/// used for the longest time among those that can be evicted.
pub open spec fn right_buffer<A: BlockDevice>(s: &Storage<A>, id: u8, b: int, i: int) -> bool {
    if exists|j: int| 0 <= j < 4 && (#[trigger] s.buffers@[j]).holds(id, b) {
        s.buffers@[i].holds(id, b)
    } else if exists|j: int| 0 <= j < 4 && (#[trigger] s.buffers@[j]).state == BufferState::Free {
        s.buffers@[i].state == BufferState::Free
    } else {
        &&& s.buffers@[i].evictable()
        &&& forall|j: int|
            0 <= j < 4 && (#[trigger] s.buffers@[j]).evictable() ==> s.buffers@[i].lru_seq
                <= s.buffers@[j].lru_seq
    }
}

/// The right buffer holds a block now and was used last; the others are as they were.
pub open spec fn buffer_used<A: BlockDevice>(
    before: &Storage<A>,
    after: &Storage<A>,
    id: u8,
    b: int,
    i: int,
) -> bool {
    &&& 0 <= i < 4
    &&& right_buffer(before, id, b, i)
    &&& same_buffers_but(after, before, i)
    &&& after.buffers@[i].holds(id, b)
    &&& after.buffers@[i].lru_seq == after.next_lru_seq
    &&& after.next_lru_seq == (if before.next_lru_seq == u64::MAX {
        u64::MAX as int
    } else {
        before.next_lru_seq + 1
    })
}

/// What became of the errors of a device is told: success means that there was none, and an error
/// is the first there was. A block beyond the end of a device is refused before.
pub open spec fn told_of<T>(before: Seq<FsError>, after: Seq<FsError>, r: Result<T, FsError>) -> bool {
    after == before || {
        &&& r is Err
        &&& after.len() > before.len()
        &&& after[before.len() as int] == r->Err_0 || r->Err_0 == FsError::InvalidArgument
    }
}

/// No failure of a device goes untold.
pub open spec fn told<A: BlockDevice, T>(
    before: &Storage<A>,
    after: &Storage<A>,
    r: Result<T, FsError>,
) -> bool {
    &&& told_of(before.faults(0), after.faults(0), r)
    &&& told_of(before.faults(1), after.faults(1), r)
}

/// A buffer holds a block.
pub open spec fn cached<A: BlockDevice>(s: &Storage<A>, id: u8, b: int) -> bool {
    exists|i: int| 0 <= i < 4 && (#[trigger] s.buffers@[i]).holds(id, b)
}

/// A buffer holds a block that its device still has to get.
pub open spec fn unsaved<A: BlockDevice>(s: &Storage<A>, id: u8, b: int) -> bool {
    exists|i: int|
        0 <= i < 4 && (#[trigger] s.buffers@[i]).holds(id, b) && s.buffers@[i].state
            == BufferState::Dirty
}

/// A buffer holds something for a block beyond the end of its device. It can never be written back.
#[verifier::opaque]
pub open spec fn overdue<A: BlockDevice>(s: &Storage<A>, id: u8) -> bool {
    exists|b: int| b >= s.size(id) && #[trigger] unsaved(s, id, b)
}

/// A buffer with something for a block beyond the end of its device.
pub proof fn lemma_overdue<A: BlockDevice>(s: &Storage<A>, id: u8, b: int)
    requires
        unsaved(s, id, b),
        b >= s.size(id),
    ensures
        overdue(s, id),
{
    reveal(overdue);
}

/// The cache is in order, and all that it has to write back is for devices that are ready.
#[verifier::opaque]
pub open spec fn tidy<A: BlockDevice>(s: &Storage<A>) -> bool {
    &&& s.wf()
    &&& forall|i: int| 0 <= i < 4 ==> tidy_buffer(s, #[trigger] s.buffers@[i])
}

/// A buffer that holds nothing, what its device holds, or something for a device that is ready.
pub open spec fn tidy_buffer<A: BlockDevice>(s: &Storage<A>, f: BlockBuffer) -> bool {
    f.state != BufferState::Free ==> {
        &&& f.pin_count == 0
        &&& f.state == BufferState::Clean || f.state == BufferState::Dirty
        &&& f.state == BufferState::Dirty ==> s.online(f.device_id)
    }
}

/// A healthy cache is tidy.
pub proof fn lemma_healthy_is_tidy<A: BlockDevice>(s: &Storage<A>)
    requires
        s.healthy(),
    ensures
        tidy(s),
{
    reveal(tidy);
    assert forall|i: int| 0 <= i < 4 implies tidy_buffer(s, #[trigger] s.buffers@[i]) by {
        assert(s.buffer_ok(i));
    }
}

/// What a change is refused for when the device is too small for it.
pub open spec fn is_lack(e: FsError) -> bool {
    e == FsError::InvalidArgument || e == FsError::NoSpace || e == FsError::CorruptMetadata
}

/// What cannot be written back stays in the cache, and an operation on a device that is ready is
/// refused, if no device fails, only because it asks for a block that there is not.
pub open spec fn holds_out<A: BlockDevice, T>(
    before: &Storage<A>,
    after: &Storage<A>,
    id: u8,
    r: Result<T, FsError>,
) -> bool {
    &&& overdue(before, id) && r is Ok ==> overdue(after, id)
    &&& tidy(before) && before.online(id) && after.steady_since(before) ==> match r {
        Ok(_) => tidy(after),
        Err(e) => is_lack(e),
    }
}

/// A block is at rest: it would survive a loss of power as it is stored, and the cache has nothing
/// else for it.
#[verifier::opaque]
pub open spec fn resting<A: BlockDevice>(s: &Storage<A>, id: u8, b: int) -> bool {
    &&& s.kept(id)[b] == s.stored(id)[b]
    &&& forall|i: int|
        0 <= i < 4 && (#[trigger] s.buffers@[i]).holds(id, b) ==> s.buffers@[i].state
            == BufferState::Clean && s.buffers@[i].data@ == s.stored(id)[b]
}

/// What is at rest is seen as it would survive.
pub proof fn lemma_resting<A: BlockDevice>(s: &Storage<A>, id: u8, b: int)
    requires
        resting(s, id, b),
    ensures
        s.kept(id)[b] == s.stored(id)[b],
        s.vol(id)[b] == s.stored(id)[b],
{
    reveal(resting);
}

/// A block that was at rest still is, whatever became of others.
pub open spec fn spares<A: BlockDevice>(
    before: &Storage<A>,
    after: &Storage<A>,
    id: u8,
    b: int,
) -> bool {
    resting(before, id, b) ==> resting(after, id, b) && after.stored(id)[b] == before.stored(id)[b]
}

/// The device holds a block as it did; what it stored of it may have become what survives.
pub open spec fn device_spares<A: BlockDevice>(
    before: &Storage<A>,
    after: &Storage<A>,
    id: u8,
    b: int,
) -> bool {
    &&& after.stored(id)[b] == before.stored(id)[b]
    &&& after.kept(id)[b] == before.kept(id)[b] || after.kept(id)[b] == before.stored(id)[b]
}

/// A write to a device leaves other blocks alone.
proof fn lemma_written_spares<A: BlockDevice>(
    before: &Storage<A>,
    after: &Storage<A>,
    k: u8,
    w: int,
    id: u8,
)
    requires
        forall|m: u8, n: int|
            m != k || n != w ==> (#[trigger] after.kept(m)[n]) == before.kept(m)[n] || after.kept(
                m,
            )[n] == before.stored(m)[n],
        forall|m: u8, n: int|
            m != k || n != w ==> (#[trigger] after.stored(m)[n]) == before.stored(m)[n],
    ensures
        forall|n: int| id != k || n != w ==> #[trigger] device_spares(before, after, id, n),
{
}

/// A buffer that changes, and what it held that is written, spare blocks at rest.
proof fn lemma_spares<A: BlockDevice>(
    before: &Storage<A>,
    after: &Storage<A>,
    id: u8,
    i: int,
    w: Option<int>,
)
    requires
        0 <= i < 4,
        same_buffers_but(after, before, i),
        forall|n: int|
            Some(n) != w && !(before.buffers@[i].holds(id, n) && before.buffers@[i].state
                != BufferState::Clean) ==> {
                &&& #[trigger] device_spares(before, after, id, n)
                &&& after.buffers@[i].holds(id, n) ==> after.buffers@[i].state
                    == BufferState::Clean && (after.buffers@[i].data@ == after.stored(id)[n] || (
                before.buffers@[i].holds(id, n) && after.buffers@[i].data == before.buffers@[i].data))
            },
    ensures
        forall|n: int| Some(n) != w ==> #[trigger] spares(before, after, id, n),
{
    reveal(resting);
    assert forall|n: int| Some(n) != w implies #[trigger] spares(before, after, id, n) by {
        if resting(before, id, n) {
            if before.buffers@[i].holds(id, n) {
                assert(before.buffers@[i].state == BufferState::Clean);
            }
            assert(device_spares(before, after, id, n));
            assert forall|j: int| 0 <= j < 4 && (#[trigger] after.buffers@[j]).holds(id, n) implies
                after.buffers@[j].state == BufferState::Clean && after.buffers@[j].data@
                == after.stored(id)[n] by {
                if j != i {
                    assert(before.buffers@[j].holds(id, n));
                }
            }
        }
    }
}

/// What cannot be written back stays when another buffer changes, or when its buffer goes on
/// holding it.
proof fn lemma_overdue_kept<A: BlockDevice>(
    before: &Storage<A>,
    after: &Storage<A>,
    id: u8,
    i: int,
)
    requires
        0 <= i < 4,
        same_buffers_but(after, before, i),
        after.size(id) == before.size(id),
        before.buffers@[i].state == BufferState::Dirty && before.buffers@[i].device_id == id
            && before.buffers@[i].block_idx >= before.size(id) ==> {
            &&& after.buffers@[i].state == BufferState::Dirty
            &&& after.buffers@[i].device_id == id
            &&& after.buffers@[i].block_idx == before.buffers@[i].block_idx
        },
    ensures
        overdue(before, id) ==> overdue(after, id),
{
    reveal(overdue);
    if overdue(before, id) {
        let b = choose|b: int| b >= before.size(id) && #[trigger] unsaved(before, id, b);
        let j = choose|j: int|
            0 <= j < 4 && (#[trigger] before.buffers@[j]).holds(id, b) && before.buffers@[j].state
                == BufferState::Dirty;
        assert(after.buffers@[j].holds(id, b) && after.buffers@[j].state == BufferState::Dirty);
        assert(unsaved(after, id, b));
    }
}

/// A cache stays tidy when a buffer is given to a block of a device that is ready.
proof fn lemma_tidy_kept<A: BlockDevice>(before: &Storage<A>, after: &Storage<A>, i: int)
    requires
        tidy(before),
        after.wf(),
        0 <= i < 4,
        same_buffers_but(after, before, i),
        after.same_devices(before),
        after.unfailed_since(before),
        tidy_buffer(after, after.buffers@[i]),
    ensures
        tidy(after),
{
    reveal(tidy);
    assert forall|j: int| 0 <= j < 4 implies tidy_buffer(after, #[trigger] after.buffers@[j]) by {
        if j != i {
            assert(tidy_buffer(before, before.buffers@[j]));
        }
    }
}

/// The buffers but one are the same.
pub open spec fn same_buffers_but<A: BlockDevice>(
    after: &Storage<A>,
    before: &Storage<A>,
    i: int,
) -> bool {
    forall|j: int| 0 <= j < 4 && j != i ==> (#[trigger] after.buffers@[j]) == before.buffers@[j]
}

/// Every block of a device stayed as it was or got what the file system saw of it.
pub open spec fn settling<A: BlockDevice>(before: &Storage<A>, after: &Storage<A>) -> bool {
    forall|k: u8, n: int|
        (#[trigger] after.stored(k)[n]) == before.stored(k)[n] || after.stored(k)[n]
            == before.block(k, n)
}

/// What a buffer is given to another block for: nothing that the file system sees of other blocks
/// changes.
pub open spec fn slot_given<A: BlockDevice>(
    before: &Storage<A>,
    after: &Storage<A>,
    id: u8,
    b: int,
    i: int,
) -> bool {
    &&& after.wf()
    &&& 0 <= i < 4
    &&& after.buffers@[i].holds(id, b)
    &&& after.buffers@[i].pin_count == 0
    &&& forall|j: int| 0 <= j < 4 && j != i ==> #[trigger] after.buffer_ok(j)
    &&& forall|k: u8, n: int|
        k != id || n != b ==> (#[trigger] after.block(k, n)) == before.block(k, n)
    &&& settling(before, after)
    &&& if exists|j: int| 0 <= j < 4 && (#[trigger] before.buffers@[j]).holds(id, b) {
        &&& after.buffer_ok(i)
        &&& after.block(id, b) == before.block(id, b)
    } else {
        &&& after.buffers@[i].state == BufferState::Clean
        &&& after.stored(id)[b] == before.block(id, b)
    }
}

/// Giving a buffer to another block, after what it held was written back, changes nothing else.
proof fn lemma_slot_given<A: BlockDevice>(
    before: &Storage<A>,
    after: &Storage<A>,
    id: u8,
    b: int,
    i: int,
)
    requires
        before.healthy(),
        after.unfailed_since(before),
        0 <= i < 4,
        same_buffers_but(after, before, i),
        after.same_devices(before),
        after.buffers@[i].holds(id, b),
        after.buffers@[i].pin_count == 0,
        after.buffers@[i].state == BufferState::Clean,
        after.buffers@[i].lru_seq <= after.next_lru_seq,
        forall|j: int| 0 <= j < 4 ==> !(#[trigger] before.buffers@[j]).holds(id, b),
        forall|k: u8, n: int|
            !before.buffers@[i].holds(k, n) ==> (#[trigger] after.stored(k)[n])
                == before.stored(k)[n],
        before.buffers@[i].state != BufferState::Free ==> after.stored(
            before.buffers@[i].device_id,
        )[before.buffers@[i].block_idx as int] == before.buffers@[i].data@,
    ensures
        slot_given(before, after, id, b, i),
{
    let f = before.buffers@[i];
    lemma_still_distinct(before, after, id, b, i);
    assert forall|k: u8, n: int| k != id || n != b implies (#[trigger] after.block(k, n))
        == before.block(k, n) by {
        assert(!after.buffers@[i].holds(k, n));
        if f.holds(k, n) {
            assert forall|j: int| 0 <= j < 4 && j != i implies !(
            #[trigger] before.buffers@[j]).holds(k, n) by {}
            assert(before.block(k, n) == f.data@);
            assert(after.block(k, n) == after.stored(k)[n]);
        } else {
            assert(after.stored(k)[n] == before.stored(k)[n]);
            assert forall|j: int| 0 <= j < 4 implies (#[trigger] after.buffers@[j]).holds(k, n)
                == before.buffers@[j].holds(k, n) by {}
        }
    }
    assert forall|j: int| 0 <= j < 4 && j != i implies #[trigger] after.buffer_ok(j) by {
        assert(before.buffer_ok(j));
        let g = before.buffers@[j];
        assert(after.buffers@[j] == g);
        if g.state != BufferState::Free {
            assert(g.holds(g.device_id, g.block_idx as int));
            assert(!f.holds(g.device_id, g.block_idx as int));
        }
    }
    assert(before.block(id, b) == before.stored(id)[b]);
    assert(!f.holds(id, b));
    assert forall|k: u8, n: int|
        (#[trigger] after.stored(k)[n]) == before.stored(k)[n] || after.stored(k)[n]
            == before.block(k, n) by {
        if f.holds(k, n) {
            lemma_held_block(before, k, n, i);
        }
    }
}

impl<A: BlockDevice> Storage<A> {
    /// Finds a buffer for a block: the one that holds it, a free one, or the one that was not used
    /// for the longest time, after it was written back.
    #[verifier::rlimit(40)]
    fn allocate_slot(&mut self, id: u8, b: u64) -> (r: Result<usize, FsError>)
        requires
            old(self).wf(),
        ensures
            final(self).wf(),
            final(self).same_devices(old(self)),
            final(self).aged_at_most(old(self), 1),
            told(old(self), final(self), r),
            holds_out(old(self), final(self), id, r),
            forall|n: int| n != b ==> #[trigger] spares(old(self), final(self), id, n),
            r is Err ==> spares(old(self), final(self), id, b as int),
            device_spares(old(self), final(self), id, b as int),
            r is Ok && !cached(old(self), id, b as int) ==> final(self).buffers@[r->Ok_0 as int].state
                == BufferState::Clean,
            r is Ok ==> buffer_used(old(self), final(self), id, b as int, r->Ok_0 as int),
            cached(old(self), id, b as int) ==> r is Ok && final(self).mem == old(self).mem
                && final(self).ata == old(self).ata && final(self).buffers@[r->Ok_0 as int] == (
            BlockBuffer {
                lru_seq: final(self).next_lru_seq,
                ..old(self).buffers@[r->Ok_0 as int]
            }),
            old(self).healthy() && !old(self).online(0) ==> final(self).mem == old(self).mem,
            old(self).healthy() && !old(self).online(1) ==> final(self).ata == old(self).ata,
            old(self).healthy() && final(self).steady_since(old(self)) ==> r is Ok && slot_given(
                old(self),
                final(self),
                id,
                b as int,
                r->Ok_0 as int,
            ),
    {
        let ghost before = *self;
        if let Some(i) = self.find(id, b) {
            let seq: u64 = self.next_use();
            self.buffers[i].lru_seq = seq;
            proof {
                lemma_touched(&before, self, i as int);
                lemma_overdue_kept(&before, self, id, i as int);
                lemma_spares(&before, self, id, i as int, Some(b as int));
                if tidy(&before) && self.unfailed_since(&before) {
                    reveal(tidy);
                    assert(tidy_buffer(&before, before.buffers@[i as int]));
                    lemma_tidy_kept(&before, self, i as int);
                }
                if before.healthy() {
                    assert(before.buffer_ok(i as int));
                    assert(before.buffers@[i as int].holds(id, b as int));
                    assert forall|k: u8| (#[trigger] self.stored(k)) == before.stored(k) by {}
                }
            }
            return Ok(i);
        }
        if let Some(i) = self.find_free() {
            let seq: u64 = self.next_use();
            self.buffers[i].device_id = id;
            self.buffers[i].block_idx = b;
            self.buffers[i].state = BufferState::Clean;
            self.buffers[i].pin_count = 0;
            self.buffers[i].lru_seq = seq;
            proof {
                lemma_still_distinct(&before, self, id, b as int, i as int);
                lemma_overdue_kept(&before, self, id, i as int);
                lemma_spares(&before, self, id, i as int, Some(b as int));
                if tidy(&before) && before.online(id) && self.unfailed_since(&before) {
                    lemma_tidy_kept(&before, self, i as int);
                }
                if before.healthy() && self.steady_since(&before) {
                    lemma_slot_given(&before, self, id, b as int, i as int);
                }
            }
            return Ok(i);
        }
        let v: usize = match self.find_victim() {
            None => {
                proof {
                    if before.healthy() {
                        assert(before.buffer_ok(0));
                        assert(before.buffers@[0].evictable());
                    }
                    if tidy(&before) {
                        reveal(tidy);
                        assert(tidy_buffer(&before, before.buffers@[0]));
                        assert(before.buffers@[0].evictable());
                    }
                }
                return Err(FsError::Busy);
            },
            Some(v) => v,
        };
        proof {
            if before.healthy() {
                assert(before.buffer_ok(v as int));
            }
        }
        if self.buffers[v].state == BufferState::Dirty {
            self.buffers[v].state = BufferState::Writeback;
            let f = self.buffers[v];
            let ghost marked = *self;
            match self.device_write(f.device_id, f.block_idx, &f.data) {
                Err(e) => {
                    proof {
                        lemma_same_keys(&before, self);
                        assert(before.buffers@[v as int].holds(f.device_id, f.block_idx as int));
                        lemma_written_spares(&marked, self, f.device_id, f.block_idx as int, id);
                        assert forall|n: int|
                            !before.buffers@[v as int].holds(id, n) implies #[trigger] device_spares(
                            &before,
                            self,
                            id,
                            n,
                        ) by {
                            assert(device_spares(&marked, self, id, n));
                        }
                        lemma_spares(&before, self, id, v as int, None);
                        assert(!before.buffers@[v as int].holds(id, b as int));
                        assert(device_spares(&before, self, id, b as int));
                        if before.healthy() {
                            assert(before.buffer_ok(v as int));
                        }
                        if tidy(&before) {
                            reveal(tidy);
                            assert(tidy_buffer(&before, before.buffers@[v as int]));
                        }
                    }
                    return Err(e);
                },
                Ok(_) => {
                    proof {
                        assert(before.buffers@[v as int].holds(f.device_id, f.block_idx as int));
                        lemma_written_spares(&marked, self, f.device_id, f.block_idx as int, id);
                        assert forall|n: int|
                            !before.buffers@[v as int].holds(id, n) implies #[trigger] device_spares(
                            &before,
                            self,
                            id,
                            n,
                        ) by {
                            assert(device_spares(&marked, self, id, n));
                        }
                    }
                },
            }
        }
        let ghost written = *self;
        let seq: u64 = self.next_use();
        self.buffers[v].device_id = id;
        self.buffers[v].block_idx = b;
        self.buffers[v].state = BufferState::Clean;
        self.buffers[v].pin_count = 0;
        self.buffers[v].lru_seq = seq;
        proof {
            lemma_still_distinct(&before, self, id, b as int, v as int);
            lemma_overdue_kept(&before, self, id, v as int);
            assert forall|n: int|
                !(before.buffers@[v as int].holds(id, n) && before.buffers@[v as int].state
                    == BufferState::Dirty) implies #[trigger] device_spares(
                &before,
                self,
                id,
                n,
            ) by {
                assert(device_spares(&before, &written, id, n));
            }
            assert(!before.buffers@[v as int].holds(id, b as int));
            assert(device_spares(&before, self, id, b as int));
            lemma_spares(&before, self, id, v as int, Some(b as int));
            if tidy(&before) && before.online(id) && self.unfailed_since(&before) {
                lemma_tidy_kept(&before, self, v as int);
            }
            if before.healthy() && self.steady_since(&before) {
                assert(before.buffer_ok(v as int));
                let f = before.buffers@[v as int];
                assert(f.holds(f.device_id, f.block_idx as int));
                assert forall|k: u8, n: int| !f.holds(k, n) implies (#[trigger] self.stored(k)[n])
                    == before.stored(k)[n] by {
                    assert(self.stored(k) == written.stored(k));
                    if f.state == BufferState::Dirty {
                        if k == f.device_id {
                            assert(n != f.block_idx);
                        }
                    }
                }
                lemma_slot_given(&before, self, id, b as int, v as int);
            }
        }
        Ok(v)
    }
}

/// Buffers that hold the same blocks as before are as distinct as before.
proof fn lemma_same_keys<A: BlockDevice>(before: &Storage<A>, after: &Storage<A>)
    requires
        before.wf(),
        forall|j: int| 0 <= j < 4 ==> (#[trigger] after.buffers@[j]).lru_seq <= after.next_lru_seq,
        forall|j: int, k: u8, n: int|
            0 <= j < 4 ==> (#[trigger] after.buffers@[j].holds(k, n)) == before.buffers@[j].holds(
                k,
                n,
            ),
    ensures
        after.wf(),
{
    assert forall|x: int, y: int, k: u8, n: int|
        0 <= x < 4 && 0 <= y < 4 && x != y && #[trigger] after.buffers@[x].holds(k, n) implies
        !#[trigger] after.buffers@[y].holds(k, n) by {
        assert(before.buffers@[x].holds(k, n));
        assert(!before.buffers@[y].holds(k, n));
    }
}

/// A block that no buffer held may be given one.
proof fn lemma_still_distinct<A: BlockDevice>(
    before: &Storage<A>,
    after: &Storage<A>,
    id: u8,
    b: int,
    i: int,
)
    requires
        before.wf(),
        0 <= i < 4,
        same_buffers_but(after, before, i),
        after.buffers@[i].holds(id, b),
        after.buffers@[i].lru_seq <= after.next_lru_seq,
        before.next_lru_seq <= after.next_lru_seq,
        forall|j: int| 0 <= j < 4 ==> !(#[trigger] before.buffers@[j]).holds(id, b),
    ensures
        after.wf(),
{
    assert forall|j: int| 0 <= j < 4 implies (#[trigger] after.buffers@[j]).lru_seq
        <= after.next_lru_seq by {
        if j != i {
            assert(before.buffers@[j].lru_seq <= before.next_lru_seq);
        }
    }
    assert forall|x: int, y: int, k: u8, n: int|
        0 <= x < 4 && 0 <= y < 4 && x != y && #[trigger] after.buffers@[x].holds(k, n) implies
        !#[trigger] after.buffers@[y].holds(k, n) by {
        if x == i {
            assert(!before.buffers@[y].holds(id, b));
        } else if y == i {
            assert(!before.buffers@[x].holds(id, b));
        } else {
            assert(before.buffers@[x].holds(k, n));
            assert(!before.buffers@[y].holds(k, n));
        }
    }
}

/// Noting the use of a buffer changes nothing else.
proof fn lemma_touched<A: BlockDevice>(before: &Storage<A>, after: &Storage<A>, i: int)
    requires
        before.wf(),
        0 <= i < 4,
        same_buffers_but(after, before, i),
        after.buffers@[i] == (BlockBuffer {
            lru_seq: after.buffers@[i].lru_seq,
            ..before.buffers@[i]
        }),
        after.buffers@[i].lru_seq <= after.next_lru_seq,
        before.next_lru_seq <= after.next_lru_seq,
        after.mem == before.mem,
        after.ata == before.ata,
    ensures
        after.wf(),
        before.healthy() ==> after.healthy(),
        forall|k: u8, n: int| (#[trigger] after.block(k, n)) == before.block(k, n),
{
    assert forall|j: int, k: u8, n: int| 0 <= j < 4 implies (#[trigger] after.buffers@[j].holds(
        k,
        n,
    )) == before.buffers@[j].holds(k, n) by {}
    assert forall|j: int| 0 <= j < 4 implies (#[trigger] after.buffers@[j]).lru_seq
        <= after.next_lru_seq by {
        assert(before.buffers@[j].lru_seq <= before.next_lru_seq);
    }
    lemma_same_keys(before, after);
    if before.healthy() {
        assert forall|j: int| 0 <= j < 4 implies #[trigger] after.buffer_ok(j) by {
            assert(before.buffer_ok(j));
        }
    }
    assert forall|k: u8, n: int| (#[trigger] after.block(k, n)) == before.block(k, n) by {
        assert(forall|j: int|
            0 <= j < 4 ==> (#[trigger] after.buffers@[j].holds(k, n)) == before.buffers@[j].holds(
                k,
                n,
            ));
        assert(forall|j: int|
            0 <= j < 4 ==> (#[trigger] after.buffers@[j]).data == before.buffers@[j].data);
    }
}

/// What a request for a block is told, unless the device fails: a block that a buffer holds is
/// there, whatever the device.
pub open spec fn read_verdict<A: BlockDevice>(s: &Storage<A>, id: u8, b: int) -> Result<(), FsError> {
    if cached(s, id, b) {
        Ok(())
    } else {
        device_verdict(s, id, b)
    }
}

/// What a device tells a request for a block, unless it fails.
pub open spec fn device_verdict<A: BlockDevice>(s: &Storage<A>, id: u8, b: int) -> Result<
    (),
    FsError,
> {
    if !s.known(id) {
        Err(FsError::NotFound)
    } else if s.status(id) != DeviceState::Ready {
        Err(FsError::DeviceError)
    } else if b >= s.size(id) {
        Err(FsError::InvalidArgument)
    } else {
        Ok(())
    }
}

/// What the file system sees of every device is the same.
pub open spec fn same_volumes<A: BlockDevice>(after: &Storage<A>, before: &Storage<A>) -> bool {
    forall|k: u8| (#[trigger] after.vol(k)) == before.vol(k)
}

/// Blocks that are the same make volumes that are the same.
proof fn lemma_same_volumes<A: BlockDevice>(after: &Storage<A>, before: &Storage<A>)
    requires
        forall|k: u8, n: int| (#[trigger] after.block(k, n)) == before.block(k, n),
    ensures
        same_volumes(after, before),
{
    assert forall|k: u8| (#[trigger] after.vol(k)) == before.vol(k) by {
        assert(after.vol(k) =~= before.vol(k));
    }
}

/// A buffer that was given to a block and then filled or dropped leaves all volumes as they were.
proof fn lemma_slot_settled<A: BlockDevice>(
    before: &Storage<A>,
    given: &Storage<A>,
    after: &Storage<A>,
    id: u8,
    b: int,
    i: int,
)
    requires
        slot_given(before, given, id, b, i),
        after.unfailed_since(given),
        forall|j: int| 0 <= j < 4 ==> !(#[trigger] before.buffers@[j]).holds(id, b),
        same_buffers_but(after, given, i),
        after.same_devices(given),
        forall|k: u8| (#[trigger] after.stored(k)) == given.stored(k),
        after.next_lru_seq == given.next_lru_seq,
        after.buffers@[i].lru_seq == given.buffers@[i].lru_seq,
        after.buffers@[i].state == BufferState::Free || (after.buffers@[i].holds(id, b)
            && after.buffers@[i].data@ == given.stored(id)[b] && after.buffers@[i].state
            == BufferState::Clean && after.buffers@[i].pin_count == 0),
    ensures
        after.wf(),
        same_volumes(after, before),
        after.buffers@[i].state == BufferState::Free || (after.online(id) && b < after.size(id))
            ==> after.healthy(),
{
    assert forall|x: int, y: int, k: u8, n: int|
        0 <= x < 4 && 0 <= y < 4 && x != y && #[trigger] after.buffers@[x].holds(k, n) implies
        !#[trigger] after.buffers@[y].holds(k, n) by {
        assert(given.buffers@[x].holds(k, n));
        assert(!given.buffers@[y].holds(k, n));
    }
    assert forall|j: int| 0 <= j < 4 implies (#[trigger] after.buffers@[j]).lru_seq
        <= after.next_lru_seq by {
        assert(given.buffers@[j].lru_seq <= given.next_lru_seq);
    }
    assert forall|k: u8, n: int| (#[trigger] after.block(k, n)) == before.block(k, n) by {
        assert(after.stored(k) == given.stored(k));
        if k == id && n == b {
            assert forall|j: int| 0 <= j < 4 && j != i implies !(
            #[trigger] after.buffers@[j]).holds(k, n) by {
                assert(given.buffers@[i].holds(k, n));
                assert(!given.buffers@[j].holds(k, n));
            }
            assert(after.block(k, n) == given.stored(id)[b]);
        } else {
            assert(!after.buffers@[i].holds(k, n));
            assert(!given.buffers@[i].holds(k, n));
            assert(after.block(k, n) == given.block(k, n));
        }
    }
    lemma_same_volumes(after, before);
    if after.buffers@[i].state == BufferState::Free || (after.online(id) && b < after.size(id)) {
        assert forall|j: int| 0 <= j < 4 implies #[trigger] after.buffer_ok(j) by {
            if j != i {
                assert(given.buffer_ok(j));
                assert(after.buffers@[j] == given.buffers@[j]);
                let g = given.buffers@[j];
                assert(after.stored(g.device_id) == given.stored(g.device_id));
            } else {
                assert(after.stored(id) == given.stored(id));
            }
        }
    }
}

/// A buffer that holds a block decides what is seen of it.
proof fn lemma_held_block<A: BlockDevice>(s: &Storage<A>, id: u8, b: int, i: int)
    requires
        s.wf(),
        0 <= i < 4,
        s.buffers@[i].holds(id, b),
    ensures
        s.block(id, b) == s.buffers@[i].data@,
{
    assert forall|j: int| 0 <= j < 4 && j != i implies !(#[trigger] s.buffers@[j]).holds(id, b) by {}
}

/// A buffer that goes on holding its block, or holds none any more, leaves the buffers distinct.
proof fn lemma_dropped<A: BlockDevice>(before: &Storage<A>, after: &Storage<A>, i: int)
    requires
        before.wf(),
        0 <= i < 4,
        same_buffers_but(after, before, i),
        after.next_lru_seq == before.next_lru_seq,
        after.buffers@[i].lru_seq == before.buffers@[i].lru_seq,
        before.buffers@[i].state != BufferState::Free,
        after.buffers@[i].device_id == before.buffers@[i].device_id,
        after.buffers@[i].block_idx == before.buffers@[i].block_idx,
    ensures
        after.wf(),
{
    assert forall|x: int, y: int, k: u8, n: int|
        0 <= x < 4 && 0 <= y < 4 && x != y && #[trigger] after.buffers@[x].holds(k, n) implies
        !#[trigger] after.buffers@[y].holds(k, n) by {
        assert(before.buffers@[x].holds(k, n));
        assert(!before.buffers@[y].holds(k, n));
    }
    assert forall|j: int| 0 <= j < 4 implies (#[trigger] after.buffers@[j]).lru_seq
        <= after.next_lru_seq by {
        assert(before.buffers@[j].lru_seq <= before.next_lru_seq);
    }
}

/// A buffer that was given to a block and then written changes that block alone.
proof fn lemma_slot_written<A: BlockDevice>(
    before: &Storage<A>,
    given: &Storage<A>,
    after: &Storage<A>,
    id: u8,
    b: int,
    i: int,
)
    requires
        slot_given(before, given, id, b, i),
        after.wf(),
        same_buffers_but(after, given, i),
        after.mem == given.mem,
        after.ata == given.ata,
        after.buffers@[i].holds(id, b),
        after.buffers@[i].pin_count == 0,
        after.buffers@[i].state == BufferState::Dirty,
    ensures
        after.vol(id) == before.vol(id).insert(b, after.buffers@[i].data@),
        forall|k: u8| k != id ==> (#[trigger] after.vol(k)) == before.vol(k),
        after.online(id) && b < after.size(id) ==> after.healthy(),
{
    lemma_held_block(after, id, b, i);
    assert forall|k: u8, n: int| k != id || n != b implies (#[trigger] after.block(k, n))
        == before.block(k, n) by {
        assert(!after.buffers@[i].holds(k, n));
        assert(!given.buffers@[i].holds(k, n));
        assert(after.block(k, n) == given.block(k, n));
    }
    assert(after.vol(id) =~= before.vol(id).insert(b, after.buffers@[i].data@));
    assert forall|k: u8| k != id implies (#[trigger] after.vol(k)) == before.vol(k) by {
        assert(after.vol(k) =~= before.vol(k));
    }
    if after.online(id) && b < after.size(id) {
        assert forall|j: int| 0 <= j < 4 implies #[trigger] after.buffer_ok(j) by {
            if j != i {
                assert(given.buffer_ok(j));
            }
        }
    }
}

/// Writing a buffer back changes nothing that the file system sees.
proof fn lemma_cleaned<A: BlockDevice>(before: &Storage<A>, after: &Storage<A>, i: int)
    requires
        before.healthy(),
        after.unfailed_since(before),
        0 <= i < 4,
        before.buffers@[i].state == BufferState::Dirty,
        same_buffers_but(after, before, i),
        after.buffers@[i] == (BlockBuffer { state: BufferState::Clean, ..before.buffers@[i] }),
        after.next_lru_seq == before.next_lru_seq,
        after.same_devices(before),
        after.stored(before.buffers@[i].device_id) == before.stored(
            before.buffers@[i].device_id,
        ).insert(before.buffers@[i].block_idx as int, before.buffers@[i].data@),
        forall|k: u8|
            k != before.buffers@[i].device_id ==> (#[trigger] after.stored(k)) == before.stored(k),
    ensures
        after.healthy(),
        same_volumes(after, before),
{
    let f = before.buffers@[i];
    lemma_dropped(before, after, i);
    assert(f.holds(f.device_id, f.block_idx as int));
    assert forall|k: u8, n: int| (#[trigger] after.block(k, n)) == before.block(k, n) by {
        assert(forall|j: int|
            0 <= j < 4 ==> (#[trigger] after.buffers@[j].holds(k, n)) == before.buffers@[j].holds(
                k,
                n,
            ));
        assert(forall|j: int|
            0 <= j < 4 ==> (#[trigger] after.buffers@[j]).data == before.buffers@[j].data);
        if !f.holds(k, n) {
            assert(after.stored(k)[n] == before.stored(k)[n]);
        }
    }
    lemma_same_volumes(after, before);
    assert forall|j: int| 0 <= j < 4 implies #[trigger] after.buffer_ok(j) by {
        assert(before.buffer_ok(j));
        let g = before.buffers@[j];
        if j != i && g.state != BufferState::Free {
            assert(g.holds(g.device_id, g.block_idx as int));
            assert(!f.holds(g.device_id, g.block_idx as int));
            assert(after.stored(g.device_id)[g.block_idx as int] == before.stored(
                g.device_id,
            )[g.block_idx as int]);
        }
    }
}

/// A block that no dirty buffer holds is stored as it is seen.
proof fn lemma_clean_block_is_stored<A: BlockDevice>(s: &Storage<A>, id: u8, b: int)
    requires
        s.healthy(),
        forall|j: int|
            0 <= j < 4 && (#[trigger] s.buffers@[j]).holds(id, b) ==> s.buffers@[j].state
                != BufferState::Dirty,
    ensures
        s.block(id, b) == s.stored(id)[b],
{
    assert(s.buffer_ok(0) && s.buffer_ok(1) && s.buffer_ok(2) && s.buffer_ok(3));
}

/// Empties the cache. What was not written back is lost.
pub fn init_cache<A: BlockDevice>(s: &mut Storage<A>)
    ensures
        final(s).mem == old(s).mem,
        final(s).ata == old(s).ata,
        final(s).healthy(),
        final(s).next_lru_seq == 1,
        forall|id: u8| #![auto] final(s).vol(id) == old(s).stored(id),
{
    s.buffers = [
        BlockBuffer::empty(),
        BlockBuffer::empty(),
        BlockBuffer::empty(),
        BlockBuffer::empty(),
    ];
    s.next_lru_seq = 1;
    assert forall|id: u8| #![auto] s.vol(id) == old(s).stored(id) by {
        assert(s.vol(id) =~= old(s).stored(id));
    }
}

/// Reads a block, from the cache if it is there.
pub fn read_block_cached<A: BlockDevice>(s: &mut Storage<A>, id: u8, b: u64, out: &mut [u8; BLOCK_SIZE]) -> (r: Result<
    (),
    FsError,
>)
    requires
        old(s).wf(),
    ensures
        final(s).wf(),
        final(s).same_devices(old(s)),
        final(s).aged_at_most(old(s), 1),
        told(old(s), final(s), r),
        holds_out(old(s), final(s), id, r),
        forall|n: int|
            #![trigger spares(old(s), final(s), id, n)]
            #![trigger resting(old(s), id, n)]
            spares(old(s), final(s), id, n),
        r is Ok ==> {
            &&& final(out)@ == final(s).vol(id)[b as int]
            &&& exists|i: int| buffer_used(old(s), final(s), id, b as int, i)
        },
        cached(old(s), id, b as int) ==> {
            &&& r is Ok
            &&& final(out)@ == old(s).vol(id)[b as int]
            &&& final(s).mem == old(s).mem
            &&& final(s).ata == old(s).ata
            &&& same_volumes(final(s), old(s))
        },
        old(s).healthy() && final(s).steady_since(old(s)) ==> {
            &&& same_volumes(final(s), old(s))
            &&& settling(old(s), final(s))
            &&& r == read_verdict(old(s), id, b as int)
            &&& old(s).online(id) ==> r == device_verdict(old(s), id, b as int)
            &&& r is Ok ==> final(out)@ == old(s).vol(id)[b as int]
            &&& final(s).healthy()
        },
{
    let ghost before = *s;
    if let Some(i) = s.find(id, b) {
        let seq: u64 = s.next_use();
        s.buffers[i].lru_seq = seq;
        *out = s.buffers[i].data;
        proof {
            lemma_touched(&before, s, i as int);
            lemma_overdue_kept(&before, s, id, i as int);
            lemma_spares(&before, s, id, i as int, None);
            if tidy(&before) && s.unfailed_since(&before) {
                reveal(tidy);
                assert(tidy_buffer(&before, before.buffers@[i as int]));
                lemma_tidy_kept(&before, s, i as int);
            }
            lemma_same_volumes(s, &before);
            lemma_held_block(&before, id, b as int, i as int);
            lemma_held_block(s, id, b as int, i as int);
            assert(buffer_used(&before, s, id, b as int, i as int));
            if before.healthy() {
                assert(before.buffer_ok(i as int));
            }
        }
        return Ok(());
    }
    let slot: usize = match s.allocate_slot(id, b) {
        Err(e) => {
            return Err(e);
        },
        Ok(s) => s,
    };
    let ghost given = *s;
    s.buffers[slot].state = BufferState::Pinned;
    s.buffers[slot].pin_count = 1;
    let mut data: [u8; BLOCK_SIZE] = [0u8; BLOCK_SIZE];
    let ghost pinned = *s;
    let res = s.device_read(id, b, &mut data);
    let ghost fetched = *s;
    proof {
        assert forall|k: u8| (#[trigger] fetched.stored(k)) == given.stored(k) by {
            assert(fetched.stored(k) == pinned.stored(k));
        }
    }
    match res {
        Err(e) => {
            s.buffers[slot].state = BufferState::Free;
            s.buffers[slot].pin_count = 0;
            proof {
                assert forall|k: u8| (#[trigger] s.stored(k)) == given.stored(k) by {
                    assert(fetched.stored(k) == given.stored(k));
                }
                lemma_dropped(&given, s, slot as int);
                assert forall|n: int| #[trigger] device_spares(&given, s, id, n) by {
                    assert(s.stored(id) == given.stored(id));
                    assert(fetched.kept(id)[n] == given.kept(id)[n] || fetched.kept(id)[n]
                        == given.stored(id)[n]);
                }
                lemma_spares(&given, s, id, slot as int, Some(b as int));
                lemma_read_spares(&before, &given, s, id, b as int, slot as int);
                if before.healthy() && s.steady_since(&before) {
                    lemma_slot_settled(&before, &given, s, id, b as int, slot as int);
                }
            }
            Err(e)
        },
        Ok(_) => {
            s.buffers[slot].data = data;
            *out = data;
            s.buffers[slot].state = BufferState::Clean;
            s.buffers[slot].pin_count = 0;
            proof {
                assert(buffer_used(&before, s, id, b as int, slot as int));
                assert forall|k: u8| (#[trigger] s.stored(k)) == given.stored(k) by {
                    assert(fetched.stored(k) == given.stored(k));
                }
                lemma_dropped(&given, s, slot as int);
                assert forall|n: int| #[trigger] device_spares(&given, s, id, n) by {
                    assert(s.stored(id) == given.stored(id));
                    assert(fetched.kept(id)[n] == given.kept(id)[n] || fetched.kept(id)[n]
                        == given.stored(id)[n]);
                }
                lemma_spares(&given, s, id, slot as int, Some(b as int));
                lemma_read_spares(&before, &given, s, id, b as int, slot as int);
                lemma_overdue_kept(&given, s, id, slot as int);
                if tidy(&before) && before.online(id) && s.steady_since(&before) {
                    lemma_tidy_kept(&given, s, slot as int);
                }
                lemma_held_block(s, id, b as int, slot as int);
                if before.healthy() && s.steady_since(&before) {
                    lemma_slot_settled(&before, &given, s, id, b as int, slot as int);
                }
            }
            Ok(())
        },
    }
}

/// A block that was read is at rest if it was, and others are too.
proof fn lemma_read_spares<A: BlockDevice>(
    before: &Storage<A>,
    given: &Storage<A>,
    after: &Storage<A>,
    id: u8,
    b: int,
    i: int,
)
    requires
        after.wf(),
        0 <= i < 4,
        forall|n: int| n != b ==> #[trigger] spares(before, given, id, n),
        forall|n: int| n != b ==> #[trigger] spares(given, after, id, n),
        device_spares(before, given, id, b),
        device_spares(given, after, id, b),
        given.buffers@[i].holds(id, b),
        given.wf(),
        same_buffers_but(after, given, i),
        after.buffers@[i].state == BufferState::Free || (after.buffers@[i].state
            == BufferState::Clean && after.buffers@[i].data@ == after.stored(id)[b]),
    ensures
        forall|n: int| #[trigger] spares(before, after, id, n),
{
    assert forall|n: int| #[trigger] spares(before, after, id, n) by {
        if n != b {
            assert(spares(before, given, id, n) && spares(given, after, id, n));
        } else {
            reveal(resting);
            if resting(before, id, b) {
                assert forall|j: int|
                    0 <= j < 4 && (#[trigger] after.buffers@[j]).holds(id, b) implies
                    after.buffers@[j].state == BufferState::Clean && after.buffers@[j].data@
                    == after.stored(id)[b] by {
                    if j != i {
                        assert(given.buffers@[j].holds(id, b));
                    }
                }
            }
        }
    }
}

/// Writes a block to the cache. It gets to the device when it is evicted or synced.
pub fn write_block_cached<A: BlockDevice>(s: &mut Storage<A>, id: u8, b: u64, data: &[u8; BLOCK_SIZE]) -> (r: Result<
    (),
    FsError,
>)
    requires
        old(s).wf(),
    ensures
        final(s).wf(),
        final(s).same_devices(old(s)),
        final(s).aged_at_most(old(s), 1),
        told(old(s), final(s), r),
        holds_out(old(s), final(s), id, r),
        forall|n: int|
            #![trigger spares(old(s), final(s), id, n)]
            #![trigger resting(old(s), id, n)]
            n != b ==> spares(old(s), final(s), id, n),
        device_spares(old(s), final(s), id, b as int),
        r is Ok ==> {
            &&& final(s).vol(id)[b as int] == data@
            &&& unsaved(final(s), id, b as int)
            &&& exists|i: int| buffer_used(old(s), final(s), id, b as int, i)
        },
        old(s).healthy() && final(s).steady_since(old(s)) ==> {
            &&& r is Ok
            &&& final(s).vol(id) == old(s).vol(id).insert(b as int, data@)
            &&& forall|k: u8| k != id ==> (#[trigger] final(s).vol(k)) == old(s).vol(k)
            &&& settling(old(s), final(s))
            &&& old(s).online(id) && b < old(s).size(id) ==> final(s).healthy()
        },
{
    let ghost before = *s;
    let slot: usize = match s.allocate_slot(id, b) {
        Err(e) => {
            return Err(e);
        },
        Ok(s) => s,
    };
    let ghost given = *s;
    s.buffers[slot].data = *data;
    s.buffers[slot].state = BufferState::Dirty;
    proof {
        lemma_dropped(&given, s, slot as int);
        lemma_spares(&given, s, id, slot as int, Some(b as int));
        assert forall|n: int| n != b implies #[trigger] spares(&before, s, id, n) by {
            assert(spares(&before, &given, id, n) && spares(&given, s, id, n));
        }
        lemma_overdue_kept(&given, s, id, slot as int);
        if tidy(&before) && before.online(id) && s.steady_since(&before) {
            reveal(tidy);
            assert(tidy_buffer(&given, given.buffers@[slot as int]));
            lemma_tidy_kept(&given, s, slot as int);
        }
        lemma_held_block(s, id, b as int, slot as int);
        assert(buffer_used(&before, s, id, b as int, slot as int));
        assert(s.buffers@[slot as int].state == BufferState::Dirty);
        if before.healthy() && s.steady_since(&before) {
            lemma_slot_written(&before, &given, s, id, b as int, slot as int);
            assert forall|k: u8, n: int|
                (#[trigger] s.stored(k)[n]) == before.stored(k)[n] || s.stored(k)[n]
                    == before.block(k, n) by {
                assert(s.stored(k) == given.stored(k));
                assert(given.stored(k)[n] == before.stored(k)[n] || given.stored(k)[n]
                    == before.block(k, n));
            }
        }
    }
    Ok(())
}

/// Writes a block to its device, if the device still has to get it.
pub fn sync_block<A: BlockDevice>(s: &mut Storage<A>, id: u8, b: u64) -> (r: Result<(), FsError>)
    requires
        old(s).wf(),
    ensures
        final(s).wf(),
        final(s).same_devices(old(s)),
        final(s).aged_at_most(old(s), 0),
        told(old(s), final(s), r),
        holds_out(old(s), final(s), id, r),
        forall|n: int|
            #![trigger spares(old(s), final(s), id, n)]
            #![trigger resting(old(s), id, n)]
            n != b ==> spares(old(s), final(s), id, n),
        old(s).kept(id)[b as int] == old(s).stored(id)[b as int] ==> {
            &&& torn(
                final(s).stored(id)[b as int],
                old(s).stored(id)[b as int],
                old(s).vol(id)[b as int],
            )
            &&& torn(
                final(s).kept(id)[b as int],
                old(s).stored(id)[b as int],
                old(s).vol(id)[b as int],
            )
        },
        final(s).vol(id)[b as int] == old(s).vol(id)[b as int],
        cached(old(s), id, b as int) ==> cached(final(s), id, b as int),
        !unsaved(old(s), id, b as int) ==> r is Ok && *final(s) == *old(s),
        unsaved(old(s), id, b as int) ==> {
            &&& r is Ok ==> {
                &&& final(s).stored(id)[b as int] == old(s).vol(id)[b as int]
                &&& forall|n: int| (#[trigger] final(s).kept(id)[n]) == final(s).stored(id)[n]
                &&& resting(final(s), id, b as int)
            }
            &&& match device_verdict(old(s), id, b as int) {
                Err(e) => r == Err::<(), FsError>(e),
                Ok(_) => r is Ok <==> final(s).unfailed_since(old(s)),
            }
        },
        old(s).healthy() && final(s).unfailed_since(old(s)) ==> {
            &&& r is Ok
            &&& final(s).healthy()
            &&& same_volumes(final(s), old(s))
            &&& settling(old(s), final(s))
            &&& final(s).stored(id)[b as int] == old(s).vol(id)[b as int]
            &&& final(s).next_lru_seq == old(s).next_lru_seq
        },
{
    let ghost before = *s;
    let mut i: usize = 0;
    while i < MAX_BUFFERS
        invariant
            i <= 4,
            *s == before,
            before == *old(s),
            before.wf(),
            forall|j: int|
                0 <= j < i ==> !((#[trigger] s.buffers@[j]).state == BufferState::Dirty
                    && s.buffers@[j].holds(id, b as int)),
        decreases 4 - i,
    {
        if s.buffers[i].state == BufferState::Dirty && s.buffers[i].device_id == id
            && s.buffers[i].block_idx == b {
            s.buffers[i].state = BufferState::Writeback;
            let data: [u8; BLOCK_SIZE] = s.buffers[i].data;
            let w = s.device_write(id, b, &data);
            let ghost written = *s;
            let f = s.device_flush(id);
            let ghost flushed = *s;
            s.buffers[i].state = BufferState::Clean;
            proof {
                lemma_dropped(&before, s, i as int);
                lemma_held_block(&before, id, b as int, i as int);
                lemma_held_block(s, id, b as int, i as int);
                if w is Ok {
                    lemma_overdue_kept(&before, s, id, i as int);
                }
                assert forall|n: int| n != b implies #[trigger] device_spares(
                    &before,
                    s,
                    id,
                    n,
                ) by {
                    assert(s.stored(id)[n] == flushed.stored(id)[n]);
                    assert(flushed.stored(id) == written.stored(id));
                    assert(s.kept(id)[n] == flushed.kept(id)[n]);
                    assert(written.kept(id)[n] == before.kept(id)[n] || written.kept(id)[n]
                        == before.stored(id)[n]);
                }
                lemma_spares(&before, s, id, i as int, Some(b as int));
                assert(s.kept(id)[b as int] == flushed.kept(id)[b as int]);
                if w is Ok && f is Ok {
                    reveal(resting);
                    assert forall|n: int| (#[trigger] s.kept(id)[n]) == s.stored(id)[n] by {
                        assert(s.kept(id)[n] == flushed.kept(id)[n]);
                    }
                    assert forall|j: int|
                        0 <= j < 4 && (#[trigger] s.buffers@[j]).holds(id, b as int) implies
                        s.buffers@[j].state == BufferState::Clean && s.buffers@[j].data@
                        == s.stored(id)[b as int] by {
                        if j != i {
                            assert(before.buffers@[i as int].holds(id, b as int));
                            assert(before.buffers@[j].holds(id, b as int));
                        }
                    }
                }
                if tidy(&before) && s.unfailed_since(&before) {
                    reveal(tidy);
                    assert(tidy_buffer(&before, before.buffers@[i as int]));
                    lemma_tidy_kept(&before, s, i as int);
                }
                assert(s.stored(id) == flushed.stored(id));
                assert(s.faults(0) == flushed.faults(0) && s.faults(1) == flushed.faults(1));
                if w is Err && written.faults(id) != before.faults(id) {
                    assert(written.faults(id) == before.faults(id).push(w->Err_0));
                    assert(flushed.faults(id)[before.faults(id).len() as int] == w->Err_0);
                }
                if before.healthy() && s.unfailed_since(&before) {
                    assert(before.buffer_ok(i as int));
                    assert forall|k: u8| k != id implies (#[trigger] s.stored(k))
                        == before.stored(k) by {
                        assert(s.stored(k) == flushed.stored(k));
                        assert(flushed.stored(k) == written.stored(k));
                    }
                    lemma_cleaned(&before, s, i as int);
                }
            }
            if w.is_err() {
                return w;
            }
            return f;
        }
        i = i + 1;
    }
    proof {
        if before.healthy() {
            lemma_clean_block_is_stored(s, id, b as int);
        }
    }
    Ok(())
}

/// Writes all blocks of a device, or of every device if the number is 0xFF, that the devices
/// still have to get.
pub fn sync_all_buffers<A: BlockDevice>(s: &mut Storage<A>, id: u8) -> (r: Result<(), FsError>)
    requires
        old(s).wf(),
    ensures
        final(s).wf(),
        final(s).same_devices(old(s)),
        final(s).aged_at_most(old(s), 0),
        told(old(s), final(s), r),
        holds_out(old(s), final(s), id, r),
        overdue(old(s), id) ==> r is Err,
        forall|n: int|
            #![trigger spares(old(s), final(s), id, n)]
            #![trigger resting(old(s), id, n)]
            spares(old(s), final(s), id, n),
        r is Ok && old(s).known(id) ==> forall|n: int|
            (#[trigger] final(s).kept(id)[n]) == final(s).stored(id)[n],
        old(s).healthy() && final(s).unfailed_since(old(s)) && r is Ok && old(s).known(id)
            ==> forall|n: int| #[trigger] resting(final(s), id, n),
        r is Ok ==> forall|k: u8, b: int|
            (k == id || id == 0xFF) && #[trigger] unsaved(old(s), k, b) ==> final(s).stored(k)[b]
                == old(s).vol(k)[b],
        old(s).healthy() && final(s).unfailed_since(old(s)) ==> {
            &&& same_volumes(final(s), old(s))
            &&& settling(old(s), final(s))
            &&& final(s).healthy()
            &&& final(s).next_lru_seq == old(s).next_lru_seq
            &&& final(s).stored(id) == old(s).vol(id)
            &&& id == 0xFF ==> forall|k: u8| (#[trigger] final(s).stored(k)) == old(s).vol(k)
            &&& old(s).online(id) || !old(s).known(id) ==> r is Ok
            &&& old(s).known(id) && old(s).status(id) != DeviceState::Ready ==> r == Err::<
                (),
                FsError,
            >(FsError::DeviceError)
        },
{
    let ghost before = *s;
    let mut i: usize = 0;
    while i < MAX_BUFFERS
        invariant
            i <= 4,
            before == *old(s),
            before.wf(),
            s.wf(),
            s.same_devices(&before),
            s.aged_at_most(&before, 0),
            s.unfailed_since(&before),
            tidy(&before) ==> tidy(s),
            forall|n: int| #[trigger] spares(&before, s, id, n),
            forall|j: int|
                0 <= j < i && (#[trigger] before.buffers@[j]).state == BufferState::Dirty && (
                before.buffers@[j].device_id == id || id == 0xFF) ==> before.buffers@[j].block_idx
                    < before.size(before.buffers@[j].device_id),
            s.faults(0) == before.faults(0),
            s.faults(1) == before.faults(1),
            forall|j: int|
                0 <= j < 4 ==> {
                    &&& (#[trigger] s.buffers@[j]).device_id == before.buffers@[j].device_id
                    &&& s.buffers@[j].block_idx == before.buffers@[j].block_idx
                    &&& s.buffers@[j].data == before.buffers@[j].data
                    &&& j >= i ==> s.buffers@[j] == before.buffers@[j]
                    &&& j < i && before.buffers@[j].state == BufferState::Dirty && (
                    before.buffers@[j].device_id == id || id == 0xFF) ==> s.stored(
                        before.buffers@[j].device_id,
                    )[before.buffers@[j].block_idx as int] == before.buffers@[j].data@
                },
            before.healthy() && s.unfailed_since(&before) ==> {
                &&& s.healthy()
                &&& same_volumes(s, &before)
                &&& settling(&before, s)
                &&& s.next_lru_seq == before.next_lru_seq
                &&& !before.online(0) ==> s.mem == before.mem
                &&& !before.online(1) ==> s.ata == before.ata
                &&& forall|j: int|
                    0 <= j < i && ((#[trigger] s.buffers@[j]).device_id == id || id == 0xFF)
                        ==> s.buffers@[j].state != BufferState::Dirty
            },
        decreases 4 - i,
    {
        let ghost now = *s;
        if s.buffers[i].state == BufferState::Dirty && (s.buffers[i].device_id == id || id
            == 0xFF) {
            s.buffers[i].state = BufferState::Writeback;
            let f = s.buffers[i];
            let ghost marked = *s;
            let res = s.device_write(f.device_id, f.block_idx, &f.data);
            let ghost written = *s;
            s.buffers[i].state = BufferState::Clean;
            proof {
                lemma_dropped(&now, s, i as int);
                assert(now.buffers@[i as int].holds(f.device_id, f.block_idx as int));
                lemma_written_spares(&marked, &written, f.device_id, f.block_idx as int, id);
                assert forall|n: int|
                    !now.buffers@[i as int].holds(id, n) implies #[trigger] device_spares(
                    &now,
                    s,
                    id,
                    n,
                ) by {
                    assert(device_spares(&marked, &written, id, n));
                }
                lemma_spares(&now, s, id, i as int, None);
                assert forall|n: int| #[trigger] spares(&before, s, id, n) by {
                    assert(spares(&before, &now, id, n) && spares(&now, s, id, n));
                }
                if tidy(&before) {
                    reveal(tidy);
                    assert(tidy_buffer(&now, now.buffers@[i as int]));
                    if s.unfailed_since(&now) {
                        lemma_tidy_kept(&now, s, i as int);
                    }
                }
                if res is Ok {
                    assert forall|j: int|
                        0 <= j < i && (#[trigger] before.buffers@[j]).state == BufferState::Dirty
                            && (before.buffers@[j].device_id == id || id == 0xFF) implies s.stored(
                        before.buffers@[j].device_id,
                    )[before.buffers@[j].block_idx as int] == before.buffers@[j].data@ by {
                        let g = before.buffers@[j];
                        assert(s.buffers@[j].device_id == g.device_id);
                        assert(now.buffers@[j].device_id == g.device_id);
                        assert(before.buffers@[j].holds(g.device_id, g.block_idx as int));
                        assert(!before.buffers@[i as int].holds(g.device_id, g.block_idx as int));
                        assert(s.stored(g.device_id) == written.stored(g.device_id));
                    }
                    assert(s.stored(f.device_id) == written.stored(f.device_id));
                    assert(f.data == before.buffers@[i as int].data);
                }
                if before.healthy() && s.unfailed_since(&before) {
                    assert(now.buffer_ok(i as int));
                    assert(s.stored(f.device_id) == written.stored(f.device_id));
                    assert forall|k: u8| k != f.device_id implies (#[trigger] s.stored(k))
                        == now.stored(k) by {
                        assert(s.stored(k) == written.stored(k));
                    }
                    lemma_cleaned(&now, s, i as int);
                    assert forall|k: u8| (#[trigger] s.vol(k)) == before.vol(k) by {
                        assert(s.vol(k) == now.vol(k));
                    }
                    assert forall|k: u8, n: int|
                        (#[trigger] s.stored(k)[n]) == before.stored(k)[n] || s.stored(k)[n]
                            == before.block(k, n) by {
                        let w = now.buffers@[i as int];
                        assert(now.stored(k)[n] == before.stored(k)[n] || now.stored(k)[n]
                            == before.block(k, n));
                        if w.holds(k, n) {
                            lemma_held_block(&now, k, n, i as int);
                            assert(now.vol(k)[n] == before.vol(k)[n]);
                        }
                    }
                }
            }
            if let Err(e) = res {
                return Err(e);
            }
        }
        i = i + 1;
    }
    let ghost synced = *s;
    let f_res = match get_device(id) {
        Ok(_) => s.device_flush(id),
        Err(_) => Ok(()),
    };
    proof {
        lemma_same_keys(&synced, s);
        assert forall|n: int| #[trigger] device_spares(&synced, s, id, n) by {
            assert(s.stored(id) == synced.stored(id));
            assert(s.kept(id)[n] == synced.kept(id)[n] || s.kept(id)[n] == synced.stored(id)[n]);
        }
        lemma_spares(&synced, s, id, 0, None);
        assert forall|n: int| #[trigger] spares(&before, s, id, n) by {
            assert(spares(&before, &synced, id, n) && spares(&synced, s, id, n));
        }
        if tidy(&before) && s.unfailed_since(&before) {
            reveal(tidy);
            assert(tidy_buffer(&synced, synced.buffers@[0]));
            lemma_tidy_kept(&synced, s, 0);
        }
        assert(!overdue(&before, id)) by {
            reveal(overdue);
            if overdue(&before, id) {
                let b = choose|b: int| b >= before.size(id) && #[trigger] unsaved(&before, id, b);
                let j = choose|j: int|
                    0 <= j < 4 && (#[trigger] before.buffers@[j]).holds(id, b)
                        && before.buffers@[j].state == BufferState::Dirty;
                assert(before.buffers@[j].block_idx < before.size(id));
            }
        }
        assert forall|k: u8, b: int|
            (k == id || id == 0xFF) && #[trigger] unsaved(&before, k, b) implies s.stored(k)[b]
            == before.vol(k)[b] by {
            let j = choose|j: int|
                0 <= j < 4 && (#[trigger] before.buffers@[j]).holds(k, b) && before.buffers@[j].state
                    == BufferState::Dirty;
            lemma_held_block(&before, k, b, j);
            assert(s.stored(k) == synced.stored(k));
            assert(synced.buffers@[j].device_id == k);
        }
        if before.healthy() && s.unfailed_since(&before) {
            assert forall|k: u8| (#[trigger] s.stored(k)) == synced.stored(k) by {}
            assert forall|j: int| 0 <= j < 4 implies #[trigger] s.buffer_ok(j) by {
                assert(synced.buffer_ok(j));
                assert(s.stored(s.buffers@[j].device_id) == synced.stored(
                    s.buffers@[j].device_id,
                ));
            }
            assert forall|k: u8, n: int| (#[trigger] s.block(k, n)) == synced.block(k, n) by {
                assert(s.stored(k) == synced.stored(k));
            }
            lemma_same_volumes(s, &synced);
            assert forall|k: u8| (#[trigger] s.vol(k)) == before.vol(k) by {
                assert(s.vol(k) == synced.vol(k));
                assert(synced.vol(k) == before.vol(k));
            }
            assert forall|k: u8, n: int|
                (#[trigger] s.stored(k)[n]) == before.stored(k)[n] || s.stored(k)[n]
                    == before.block(k, n) by {
                assert(s.stored(k) == synced.stored(k));
                assert(synced.stored(k)[n] == before.stored(k)[n] || synced.stored(k)[n]
                    == before.block(k, n));
            }
            assert forall|k: u8| k == id || id == 0xFF implies (#[trigger] s.stored(k))
                == before.vol(k) by {
                assert forall|b: int| #[trigger] s.stored(k)[b] == s.vol(k)[b] by {
                    lemma_clean_block_is_stored(s, k, b);
                }
                assert(s.stored(k) =~= s.vol(k));
            }
            if f_res is Ok && before.known(id) {
                assert forall|n: int| #[trigger] resting(s, id, n) by {
                    reveal(resting);
                    assert(s.kept(id)[n] == s.stored(id)[n]);
                    assert forall|j: int|
                        0 <= j < 4 && (#[trigger] s.buffers@[j]).holds(id, n) implies
                        s.buffers@[j].state == BufferState::Clean && s.buffers@[j].data@
                        == s.stored(id)[n] by {
                        assert(s.buffer_ok(j));
                        assert(synced.buffers@[j] == s.buffers@[j]);
                    }
                }
            }
        }
    }
    f_res
}

} // verus!
