//! Block devices.
use crate::dev::registry::{register_device, registered, DeviceRegistry};
use crate::dev::types::{DeviceClass, DeviceId, BOOTSTRAP_MEM_DEVICE_ID};
use crate::fs::types::{FsError, BLOCK_SIZE};
use vstd::array::spec_array_fill_for_copy_type;
use vstd::prelude::*;

verus! {

pub const MAX_BLOCK_DEVICES: usize = 2;

#[derive(Debug, Clone, Copy, PartialEq, Eq, Structural)]
pub enum DeviceState {
    Offline,
    Probing,
    Ready,
    Faulted,
}

/// A block of zeros.
pub open spec fn zero_block() -> Seq<u8> {
    Seq::new(4096, |i: int| 0u8)
}

/// The errors of a device after a request that it should have met, if `owed`.
pub open spec fn with_fault(faults: Seq<FsError>, owed: bool, r: Result<(), FsError>) -> Seq<FsError> {
    if owed && r is Err {
        faults.push(r->Err_0)
    } else {
        faults
    }
}

/// Every byte of a block is what it was or what was to be written.
pub open spec fn torn(x: Seq<u8>, was: Seq<u8>, new: Seq<u8>) -> bool {
    forall|k: int| 0 <= k < BLOCK_SIZE ==> (#[trigger] x[k]) == was[k] || x[k] == new[k]
}

/// A device that stores blocks.
pub trait BlockDevice {
    /// The number of the device.
    open spec fn ident(&self) -> u8 {
        arbitrary()
    }

    /// How many blocks it has.
    open spec fn count(&self) -> u64 {
        arbitrary()
    }

    open spec fn status(&self) -> DeviceState {
        arbitrary()
    }

    /// What it stores in a block.
    open spec fn stored_block(&self, b: int) -> [u8; BLOCK_SIZE] {
        arbitrary()
    }

    /// What would be left of a block if the power went now: what it stores may not have got
    /// further than to a cache of its own.
    open spec fn kept_block(&self, b: int) -> [u8; BLOCK_SIZE] {
        arbitrary()
    }

    /// Every request for one of its blocks succeeds while it is ready.
    open spec fn reliable(&self) -> bool {
        arbitrary()
    }

    /// The errors with which it answered requests that were in order: for one of its blocks,
    /// while it was ready.
    open spec fn faults(&self) -> Seq<FsError> {
        arbitrary()
    }

    fn device_id(&self) -> (r: u8)
        ensures
            r == self.ident(),
    ;

    fn block_count(&self) -> (r: u64)
        ensures
            r == self.count(),
    ;

    fn state(&self) -> (r: DeviceState)
        ensures
            r == self.status(),
    ;

    fn read_block(&mut self, block_idx: u64, buf: &mut [u8; BLOCK_SIZE]) -> (r: Result<(), FsError>)
        ensures
            final(self).ident() == old(self).ident(),
            final(self).count() == old(self).count(),
            final(self).faults() == with_fault(
                old(self).faults(),
                old(self).status() == DeviceState::Ready && block_idx < old(self).count(),
                r,
            ),
            r is Ok ==> final(self).status() == DeviceState::Ready,
            old(self).status() != DeviceState::Ready ==> final(self).status() == old(self).status(),
            old(self).status() == DeviceState::Ready && block_idx >= old(self).count() ==> final(self).status() == DeviceState::Ready,
            forall|b: int|
                #![trigger final(self).stored_block(b)]
                final(self).stored_block(b) == old(self).stored_block(b),
            forall|b: int|
                #![trigger final(self).kept_block(b)]
                final(self).kept_block(b) == old(self).kept_block(b) || final(self).kept_block(b)
                    == old(self).stored_block(b),
            old(self).reliable() && old(self).status() == DeviceState::Ready ==> final(self).reliable() && final(self).status() == DeviceState::Ready,
            r is Ok ==> *final(buf) == old(self).stored_block(block_idx as int),
            old(self).status() != DeviceState::Ready ==> r == Err::<(), FsError>(
                FsError::DeviceError,
            ),
            old(self).status() == DeviceState::Ready && block_idx >= old(self).count() ==> r
                == Err::<(), FsError>(FsError::InvalidArgument),
            old(self).reliable() && old(self).status() == DeviceState::Ready && block_idx < old(
                self,
            ).count() ==> r is Ok,
    ;

    fn write_block(&mut self, block_idx: u64, buf: &[u8; BLOCK_SIZE]) -> (r: Result<(), FsError>)
        ensures
            final(self).ident() == old(self).ident(),
            final(self).count() == old(self).count(),
            final(self).faults() == with_fault(
                old(self).faults(),
                old(self).status() == DeviceState::Ready && block_idx < old(self).count(),
                r,
            ),
            r is Ok ==> final(self).status() == DeviceState::Ready,
            old(self).status() != DeviceState::Ready ==> final(self).status() == old(self).status(),
            old(self).status() == DeviceState::Ready && block_idx >= old(self).count() ==> final(self).status() == DeviceState::Ready,
            forall|b: int|
                #![trigger final(self).stored_block(b)]
                b != block_idx ==> final(self).stored_block(b) == old(self).stored_block(b),
            forall|b: int|
                #![trigger final(self).kept_block(b)]
                b != block_idx ==> final(self).kept_block(b) == old(self).kept_block(b) || final(self).kept_block(b) == old(self).stored_block(b),
            torn(
                final(self).stored_block(block_idx as int)@,
                old(self).stored_block(block_idx as int)@,
                buf@,
            ),
            forall|k: int|
                0 <= k < BLOCK_SIZE ==> {
                    let x = #[trigger] final(self).kept_block(block_idx as int)@[k];
                    ||| x == old(self).kept_block(block_idx as int)@[k]
                    ||| x == old(self).stored_block(block_idx as int)@[k]
                    ||| x == buf@[k]
                },
            r is Ok ==> final(self).stored_block(block_idx as int) == *buf,
            old(self).reliable() && old(self).status() == DeviceState::Ready ==> final(self).reliable() && final(self).status() == DeviceState::Ready,
            old(self).status() != DeviceState::Ready ==> {
                &&& r == Err::<(), FsError>(FsError::DeviceError)
                &&& final(self).stored_block(block_idx as int) == old(self).stored_block(
                    block_idx as int,
                )
            },
            old(self).status() == DeviceState::Ready && block_idx >= old(self).count() ==> {
                &&& r == Err::<(), FsError>(FsError::InvalidArgument)
                &&& final(self).stored_block(block_idx as int) == old(self).stored_block(
                    block_idx as int,
                )
            },
            old(self).reliable() && old(self).status() == DeviceState::Ready && block_idx < old(
                self,
            ).count() ==> r is Ok,
    ;

    fn flush(&mut self) -> (r: Result<(), FsError>)
        ensures
            final(self).ident() == old(self).ident(),
            final(self).count() == old(self).count(),
            final(self).faults() == with_fault(
                old(self).faults(),
                old(self).status() == DeviceState::Ready,
                r,
            ),
            r is Ok ==> final(self).status() == DeviceState::Ready,
            old(self).status() != DeviceState::Ready ==> final(self).status() == old(self).status(),
            forall|b: int|
                #![trigger final(self).stored_block(b)]
                final(self).stored_block(b) == old(self).stored_block(b),
            forall|b: int|
                #![trigger final(self).kept_block(b)]
                final(self).kept_block(b) == old(self).kept_block(b) || final(self).kept_block(b)
                    == old(self).stored_block(b),
            r is Ok ==> forall|b: int|
                #![trigger final(self).kept_block(b)]
                final(self).kept_block(b) == final(self).stored_block(b),
            old(self).reliable() && old(self).status() == DeviceState::Ready ==> final(self).reliable() && final(self).status() == DeviceState::Ready,
            old(self).status() != DeviceState::Ready ==> r == Err::<(), FsError>(
                FsError::DeviceError,
            ),
            old(self).reliable() && old(self).status() == DeviceState::Ready ==> r is Ok,
    ;
}

/// What a device stores.
pub open spec fn content<D: BlockDevice>(d: &D) -> Map<int, Seq<u8>> {
    Map::new(|b: int| true, |b: int| d.stored_block(b)@)
}

/// What a device would still hold after a loss of power.
pub open spec fn surviving<D: BlockDevice>(d: &D) -> Map<int, Seq<u8>> {
    Map::new(|b: int| true, |b: int| d.kept_block(b)@)
}

/// The device is ready, and every request for one of its blocks succeeds.
pub open spec fn dependable<D: BlockDevice>(d: &D) -> bool {
    d.reliable() && d.status() == DeviceState::Ready
}

pub const MEM_DEVICE_BLOCKS: usize = 256;

/// The kind of the device that lives in memory.
pub struct MemBlockDevice;

/// A device that lives in memory.
pub struct MemDeviceWrapper {
    pub device_id: u8,
    pub state: DeviceState,
    pub total_blocks: u64,
    /// The storage, once there is any.
    pub blocks: Vec<[u8; BLOCK_SIZE]>,
    /// The errors with which requests were answered that were in order.
    pub faults: Ghost<Seq<FsError>>,
}

impl MemDeviceWrapper {
    pub open spec fn has_storage(&self) -> bool {
        self.blocks@.len() == self.total_blocks
    }

    /// A ready device without storage.
    pub fn new() -> (r: Self)
        ensures
            r.device_id == 0,
            r.state == DeviceState::Ready,
            r.total_blocks == MEM_DEVICE_BLOCKS,
            r.blocks@.len() == 0,
            r.faults@.len() == 0,
    {
        MemDeviceWrapper {
            device_id: 0,
            state: DeviceState::Ready,
            total_blocks: MEM_DEVICE_BLOCKS as u64,
            blocks: Vec::new(),
            faults: Ghost(Seq::empty()),
        }
    }

    /// Gives the device zeroed storage where it has none yet, and makes it known as a device.
    pub fn init_storage(&mut self, registry: &mut DeviceRegistry)
        requires
            old(self).total_blocks == MEM_DEVICE_BLOCKS,
            old(self).blocks@.len() <= MEM_DEVICE_BLOCKS,
        ensures
            final(self).device_id == old(self).device_id,
            final(self).state == DeviceState::Ready,
            final(self).total_blocks == old(self).total_blocks,
            final(self).has_storage(),
            dependable(final(self)),
            final(self).faults == old(self).faults,
            final(registry).resources == old(registry).resources,
            final(registry).devices@ == registered(
                old(registry).devices@,
                DeviceId(BOOTSTRAP_MEM_DEVICE_ID),
                DeviceClass::Storage,
            ),
            forall|b: int|
                0 <= b < MEM_DEVICE_BLOCKS ==> (#[trigger] final(self).blocks@[b])@ == (if b < old(
                    self,
                ).blocks@.len() {
                    old(self).blocks@[b]@
                } else {
                    zero_block()
                }),
    {
        while self.blocks.len() < MEM_DEVICE_BLOCKS
            invariant
                self.blocks@.len() <= MEM_DEVICE_BLOCKS,
                old(self).blocks@.len() <= self.blocks@.len(),
                self.device_id == old(self).device_id,
                self.total_blocks == old(self).total_blocks,
                self.faults == old(self).faults,
                forall|b: int|
                    0 <= b < self.blocks@.len() ==> (#[trigger] self.blocks@[b])@ == (if b < old(
                        self,
                    ).blocks@.len() {
                        old(self).blocks@[b]@
                    } else {
                        zero_block()
                    }),
            decreases MEM_DEVICE_BLOCKS - self.blocks@.len(),
        {
            let zero: [u8; BLOCK_SIZE] = [0u8; BLOCK_SIZE];
            assert(zero@ =~= zero_block());
            self.blocks.push(zero);
        }
        let _ = register_device(
            registry,
            DeviceId::new(BOOTSTRAP_MEM_DEVICE_ID),
            DeviceClass::Storage,
        );
        self.state = DeviceState::Ready;
    }

    /// Zeroes the storage.
    pub fn reset(&mut self)
        ensures
            final(self).device_id == old(self).device_id,
            final(self).state == DeviceState::Ready,
            final(self).total_blocks == old(self).total_blocks,
            final(self).blocks@.len() == old(self).blocks@.len(),
            final(self).faults == old(self).faults,
            forall|b: int|
                0 <= b < final(self).blocks@.len() ==> (#[trigger] final(self).blocks@[b])@
                    == zero_block(),
    {
        let mut i: usize = 0;
        while i < self.blocks.len()
            invariant
                i <= self.blocks@.len(),
                self.device_id == old(self).device_id,
                self.total_blocks == old(self).total_blocks,
                self.blocks@.len() == old(self).blocks@.len(),
                self.faults == old(self).faults,
                forall|b: int| 0 <= b < i ==> (#[trigger] self.blocks@[b])@ == zero_block(),
            decreases self.blocks@.len() - i,
        {
            let zero: [u8; BLOCK_SIZE] = [0u8; BLOCK_SIZE];
            assert(zero@ =~= zero_block());
            self.blocks.set(i, zero);
            i = i + 1;
        }
        self.state = DeviceState::Ready;
    }
}

impl BlockDevice for MemDeviceWrapper {
    open spec fn ident(&self) -> u8 {
        self.device_id
    }

    open spec fn count(&self) -> u64 {
        self.total_blocks
    }

    open spec fn status(&self) -> DeviceState {
        self.state
    }

    open spec fn stored_block(&self, b: int) -> [u8; BLOCK_SIZE] {
        if 0 <= b < self.blocks@.len() {
            self.blocks@[b]
        } else {
            spec_array_fill_for_copy_type::<u8, BLOCK_SIZE>(0)
        }
    }

    open spec fn kept_block(&self, b: int) -> [u8; BLOCK_SIZE] {
        self.stored_block(b)
    }

    open spec fn reliable(&self) -> bool {
        self.has_storage()
    }

    open spec fn faults(&self) -> Seq<FsError> {
        self.faults@
    }

    fn device_id(&self) -> u8 {
        self.device_id
    }

    fn block_count(&self) -> u64 {
        self.total_blocks
    }

    fn state(&self) -> DeviceState {
        self.state
    }

    /// A block without storage cannot be read.
    fn read_block(&mut self, block_idx: u64, buf: &mut [u8; BLOCK_SIZE]) -> (r: Result<(), FsError>)
        ensures
            r is Ok ==> *final(self) == *old(self),
            final(self).state == old(self).state,
            final(self).blocks == old(self).blocks,
            old(self).state == DeviceState::Ready && block_idx < old(self).total_blocks
                && block_idx >= old(self).blocks@.len() ==> r == Err::<(), FsError>(
                FsError::DeviceError,
            ),
            old(self).state == DeviceState::Ready && block_idx < old(self).total_blocks
                && block_idx < old(self).blocks@.len() ==> r is Ok,
            r is Err ==> final(buf)@ == old(buf)@,
    {
        if self.state != DeviceState::Ready {
            return Err(FsError::DeviceError);
        }
        if block_idx >= self.total_blocks {
            return Err(FsError::InvalidArgument);
        }
        if block_idx >= self.blocks.len() as u64 {
            proof {
                self.faults@ = self.faults@.push(FsError::DeviceError);
            }
            return Err(FsError::DeviceError);
        }
        *buf = self.blocks[block_idx as usize];
        Ok(())
    }

    /// A block without storage cannot be written.
    fn write_block(&mut self, block_idx: u64, buf: &[u8; BLOCK_SIZE]) -> (r: Result<(), FsError>)
        ensures
            r is Err ==> final(self).blocks == old(self).blocks,
            final(self).state == old(self).state,
            final(self).blocks@.len() == old(self).blocks@.len(),
            old(self).state == DeviceState::Ready && block_idx < old(self).total_blocks
                && block_idx >= old(self).blocks@.len() ==> r == Err::<(), FsError>(
                FsError::DeviceError,
            ),
            old(self).state == DeviceState::Ready && block_idx < old(self).total_blocks
                && block_idx < old(self).blocks@.len() ==> r is Ok,
    {
        if self.state != DeviceState::Ready {
            return Err(FsError::DeviceError);
        }
        if block_idx >= self.total_blocks {
            return Err(FsError::InvalidArgument);
        }
        if block_idx >= self.blocks.len() as u64 {
            proof {
                self.faults@ = self.faults@.push(FsError::DeviceError);
            }
            return Err(FsError::DeviceError);
        }
        self.blocks.set(block_idx as usize, *buf);
        Ok(())
    }

    fn flush(&mut self) -> (r: Result<(), FsError>)
        ensures
            *final(self) == *old(self),
            old(self).state == DeviceState::Ready ==> r is Ok,
    {
        if self.state != DeviceState::Ready {
            return Err(FsError::DeviceError);
        }
        Ok(())
    }
}

/// The lock of the block devices.
#[derive(Debug, PartialEq, Eq, Structural)]
pub struct BlockDeviceLock {
    pub lock: bool,
}

impl BlockDeviceLock {
    pub fn new() -> (r: Self)
        ensures
            !r.lock,
    {
        BlockDeviceLock { lock: false }
    }

    /// Takes the lock once it is free.
    pub fn acquire(&mut self)
        requires
            !old(self).lock,
        ensures
            final(self).lock,
    {
        self.lock = true;
    }

    pub fn release(&mut self)
        ensures
            !final(self).lock,
    {
        self.lock = false;
    }
}

} // verus!
