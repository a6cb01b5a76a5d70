//! Open files.
use crate::fs::buf::{
    read_block_cached, resting, sync_all_buffers, told, unsaved, Storage,
};
use crate::fs::dev::{zero_block, BlockDevice};
use crate::fs::inode::{fresh_change, inode_given_back, mapping, reading, InodeManager, FILE_BLOCKS};
use crate::fs::types::{
    DiskInode, FsError, UserFileStat, BLOCK_SIZE, INODE_FLAG_PENDING_DELETE, O_APPEND,
};
use crate::fs::volume::{turned, Volume};
use vstd::array::spec_array_fill_for_copy_type;
use vstd::prelude::*;

verus! {

pub const MAX_OPEN_STORAGE_OBJECTS: usize = 32;

/// An open file.
#[derive(Debug, Clone, Copy)]
pub struct StorageObject {
    pub occupied: bool,
    pub _pad0: [u8; 3],
    pub inode_num: u32,
    pub generation: u32,
    pub device_id: u8,
    pub _pad1: [u8; 3],
    /// Where the next read or write begins.
    pub cursor_offset: u64,
    pub open_flags: u32,
    /// Operations in progress.
    pub in_flight_ops: u16,
    pub _pad2: u16,
    pub cached_size: u64,
    pub _reserved: [u8; 8],
}

impl StorageObject {
    pub fn empty() -> (r: Self)
        ensures
            r == empty_object(),
    {
        StorageObject {
            occupied: false,
            _pad0: [0u8; 3],
            inode_num: 0,
            generation: 0,
            device_id: 0,
            _pad1: [0u8; 3],
            cursor_offset: 0,
            open_flags: 0,
            in_flight_ops: 0,
            _pad2: 0,
            cached_size: 0,
            _reserved: [0u8; 8],
        }
    }
}

/// The slot that is not in use.
pub open spec fn empty_object() -> StorageObject {
    StorageObject {
        occupied: false,
        _pad0: spec_array_fill_for_copy_type::<u8, 3>(0),
        inode_num: 0,
        generation: 0,
        device_id: 0,
        _pad1: spec_array_fill_for_copy_type::<u8, 3>(0),
        cursor_offset: 0,
        open_flags: 0,
        in_flight_ops: 0,
        _pad2: 0,
        cached_size: 0,
        _reserved: spec_array_fill_for_copy_type::<u8, 8>(0),
    }
}

/// The lock of the table of open files.
#[derive(Debug, PartialEq, Eq, Structural)]
pub struct StorageObjectTableLock {
    pub lock: bool,
}

impl StorageObjectTableLock {
    pub fn new() -> (r: Self)
        ensures
            !r.lock,
    {
        StorageObjectTableLock { lock: false }
    }

    /// Takes the lock once it is free.
    pub fn acquire(&mut self)
        requires
            !old(self).lock,
        ensures
            final(self).lock,
    {
        self.lock = true;
    }

    pub fn release(&mut self)
        ensures
            !final(self).lock,
    {
        self.lock = false;
    }
}

/// The open files.
pub struct StorageObjectTable {
    pub slots: [StorageObject; MAX_OPEN_STORAGE_OBJECTS],
}

/// Operations on open files.
pub struct FileManager;

/// The first free slot from `from` on, or the number of slots.
pub open spec fn first_free_object(slots: Seq<StorageObject>, from: int) -> int
    decreases slots.len() - from,
{
    if from >= slots.len() {
        slots.len() as int
    } else if !slots[from].occupied {
        from
    } else {
        first_free_object(slots, from + 1)
    }
}

/// The slot after a file was opened in it.
pub open spec fn opened(
    o: StorageObject,
    device_id: u8,
    inode_num: u32,
    generation: u32,
    open_flags: u32,
    cached_size: u64,
) -> StorageObject {
    StorageObject {
        occupied: true,
        device_id,
        inode_num,
        generation,
        open_flags,
        cursor_offset: if open_flags & O_APPEND != 0 {
            cached_size
        } else {
            0
        },
        in_flight_ops: 0,
        cached_size,
        ..o
    }
}

/// The outcome of opening a file.
pub open spec fn opening(
    before: Seq<StorageObject>,
    after: Seq<StorageObject>,
    device_id: u8,
    inode_num: u32,
    generation: u32,
    open_flags: u32,
    cached_size: u64,
    r: Result<usize, FsError>,
) -> bool {
    let k = first_free_object(before, 0);
    if k >= MAX_OPEN_STORAGE_OBJECTS {
        r == Err::<usize, FsError>(FsError::TableFull) && after == before
    } else {
        &&& 0 <= k
        &&& !before[k].occupied
        &&& r == Ok::<usize, FsError>(k as usize)
        &&& after == before.update(
            k,
            opened(before[k], device_id, inode_num, generation, open_flags, cached_size),
        )
    }
}

/// Some open file stands for an inode.
pub open spec fn is_open(slots: Seq<StorageObject>, device_id: u8, inode_num: u32) -> bool {
    exists|i: int|
        0 <= i < slots.len() && (#[trigger] slots[i]).occupied && slots[i].device_id == device_id
            && slots[i].inode_num == inode_num
}

/// The file is to go with its last handle: it is marked for that, and no name stands for it.
pub open spec fn is_doomed(i: DiskInode) -> bool {
    i.flags & INODE_FLAG_PENDING_DELETE != 0 && i.links_count == 0
}

/// What is left of a volume after the last handle to a file was closed.
pub open spec fn after_last_close(v: Volume, size: int, n: u32) -> Volume {
    match reading(v, n) {
        Err(_) => v,
        Ok(i) => if is_doomed(i) {
            inode_given_back(fresh_change(v, i).truncated(0, size).0.v, n as int)
        } else {
            v
        },
    }
}

/// The content of a logical block of a file; a block that is not there reads as zeros.
pub open spec fn block_of(v: Volume, size: int, i: DiskInode, l: int) -> Result<Seq<u8>, FsError> {
    match mapping(v, size, i, l) {
        Err(e) => Err(e),
        Ok(None) => Ok(zero_block()),
        Ok(Some(lba)) => if lba >= size {
            Err(FsError::InvalidArgument)
        } else {
            Ok(v[lba as int])
        },
    }
}

/// Every block that holds one of the `n` bytes from `pos` on can be read.
pub open spec fn is_readable(v: Volume, size: int, i: DiskInode, pos: int, n: int) -> bool {
    forall|l: int|
        0 < n && pos / 4096 <= l && l * 4096 < pos + n ==> (#[trigger] block_of(v, size, i, l)) is Ok
}

/// The byte of a file at a position.
pub open spec fn file_byte(v: Volume, size: int, i: DiskInode, pos: int) -> u8 {
    block_of(v, size, i, pos / 4096)->Ok_0[pos % 4096]
}

/// How many bytes a read of `len` bytes from an open file delivers.
pub open spec fn read_count(o: StorageObject, len: int) -> int {
    let left = o.cached_size - o.cursor_offset;
    if left <= 0 {
        0
    } else if left < len {
        left
    } else {
        len
    }
}

/// An open file after bytes were read from it.
pub open spec fn read_on(o: StorageObject, n: int) -> StorageObject {
    StorageObject { cursor_offset: (o.cursor_offset + n) as u64, ..o }
}

/// A buffer after `n` bytes of a file, from `pos` on, were read into it.
pub open spec fn filled(
    v: Volume,
    size: int,
    i: DiskInode,
    pos: int,
    n: int,
    buf: Seq<u8>,
) -> Seq<u8> {
    Seq::new(
        buf.len(),
        |k: int|
            if k < n {
                file_byte(v, size, i, pos + k)
            } else {
                buf[k]
            },
    )
}

impl FileManager {
    /// A table without open files.
    pub fn new_table() -> (r: StorageObjectTable)
        ensures
            forall|i: int|
                0 <= i < MAX_OPEN_STORAGE_OBJECTS ==> (#[trigger] r.slots@[i]) == empty_object(),
    {
        StorageObjectTable { slots: [StorageObject::empty(); MAX_OPEN_STORAGE_OBJECTS] }
    }

    /// Closes all files.
    pub fn init(t: &mut StorageObjectTable)
        ensures
            forall|i: int|
                0 <= i < MAX_OPEN_STORAGE_OBJECTS ==> (#[trigger] final(t).slots@[i])
                    == empty_object(),
    {
        t.slots = [StorageObject::empty(); MAX_OPEN_STORAGE_OBJECTS];
    }

    /// Opens a file in the first free slot.
    pub fn alloc_storage_object(
        t: &mut StorageObjectTable,
        device_id: u8,
        inode_num: u32,
        generation: u32,
        open_flags: u32,
        cached_size: u64,
    ) -> (r: Result<usize, FsError>)
        ensures
            opening(
                old(t).slots@,
                final(t).slots@,
                device_id,
                inode_num,
                generation,
                open_flags,
                cached_size,
                r,
            ),
    {
        let mut i: usize = 0;
        while i < MAX_OPEN_STORAGE_OBJECTS
            invariant
                i <= MAX_OPEN_STORAGE_OBJECTS,
                *t == *old(t),
                first_free_object(t.slots@, 0) == first_free_object(t.slots@, i as int),
            decreases MAX_OPEN_STORAGE_OBJECTS - i,
        {
            if !t.slots[i].occupied {
                t.slots[i].occupied = true;
                t.slots[i].device_id = device_id;
                t.slots[i].inode_num = inode_num;
                t.slots[i].generation = generation;
                t.slots[i].open_flags = open_flags;
                t.slots[i].cursor_offset = if (open_flags & O_APPEND) != 0 {
                    cached_size
                } else {
                    0
                };
                t.slots[i].in_flight_ops = 0;
                t.slots[i].cached_size = cached_size;
                assert(t.slots@ =~= old(t).slots@.update(
                    i as int,
                    opened(
                        old(t).slots@[i as int],
                        device_id,
                        inode_num,
                        generation,
                        open_flags,
                        cached_size,
                    ),
                ));
                return Ok(i);
            }
            i = i + 1;
        }
        Err(FsError::TableFull)
    }

    /// Whether some open file stands for an inode.
    pub fn has_open_references(t: &StorageObjectTable, device_id: u8, inode_num: u32) -> (r: bool)
        ensures
            r == is_open(t.slots@, device_id, inode_num),
    {
        let mut i: usize = 0;
        while i < MAX_OPEN_STORAGE_OBJECTS
            invariant
                i <= MAX_OPEN_STORAGE_OBJECTS,
                forall|j: int|
                    0 <= j < i ==> !((#[trigger] t.slots@[j]).occupied && t.slots@[j].device_id
                        == device_id && t.slots@[j].inode_num == inode_num),
            decreases MAX_OPEN_STORAGE_OBJECTS - i,
        {
            if t.slots[i].occupied && t.slots[i].device_id == device_id && t.slots[i].inode_num
                == inode_num {
                assert(t.slots@[i as int].occupied);
                return true;
            }
            i = i + 1;
        }
        false
    }

    /// Closes an open file. The last one gives the blocks and the inode of a file that is to go
    /// back; what goes wrong with that is not reported.
    pub fn free_storage_object<A: BlockDevice>(
        t: &mut StorageObjectTable,
        s: &mut Storage<A>,
        idx: usize,
    ) -> (r: Result<(), FsError>)
        requires
            old(s).wf(),
        ensures
            final(s).wf(),
            final(s).same_devices(old(s)),
            final(s).aged_at_most(old(s), 2200),
            r == (if idx >= MAX_OPEN_STORAGE_OBJECTS {
                Err::<(), FsError>(FsError::InvalidArgument)
            } else {
                Ok::<(), FsError>(())
            }),
            idx >= MAX_OPEN_STORAGE_OBJECTS || !old(t).slots@[idx as int].occupied ==> *final(t)
                == *old(t) && *final(s) == *old(s),
            idx < MAX_OPEN_STORAGE_OBJECTS && old(t).slots@[idx as int].occupied ==> {
                let o = old(t).slots@[idx as int];
                let last = !is_open(final(t).slots@, o.device_id, o.inode_num);
                &&& final(t).slots@ == old(t).slots@.update(idx as int, empty_object())
                &&& !last ==> *final(s) == *old(s)
                &&& last && old(s).usable(o.device_id) && final(s).steady_since(old(s)) ==> {
                    &&& turned(
                        old(s),
                        final(s),
                        o.device_id,
                        after_last_close(
                            old(s).vol(o.device_id),
                            old(s).size(o.device_id) as int,
                            o.inode_num,
                        ),
                    )
                    &&& final(s).usable(o.device_id)
                }
            },
    {
        if idx >= MAX_OPEN_STORAGE_OBJECTS {
            return Err(FsError::InvalidArgument);
        }
        let o = t.slots[idx];
        if !o.occupied {
            return Ok(());
        }
        t.slots[idx] = StorageObject::empty();
        assert(t.slots@ =~= old(t).slots@.update(idx as int, empty_object()));
        if !Self::has_open_references(t, o.device_id, o.inode_num) {
            if let Ok(i) = InodeManager::read_inode(s, o.device_id, o.inode_num) {
                let mut inode: DiskInode = i;
                if (inode.flags & INODE_FLAG_PENDING_DELETE) != 0 && inode.links_count == 0 {
                    let mut allocated: [u32; 10] = [0u32; 10];
                    let mut allocated_count: usize = 0;
                    let mut freed: [u32; 10] = [0u32; 10];
                    let mut freed_count: usize = 0;
                    let _ = InodeManager::truncate(
                        s,
                        o.device_id,
                        &mut inode,
                        0,
                        &mut allocated,
                        &mut allocated_count,
                        &mut freed,
                        &mut freed_count,
                    );
                    let _ = InodeManager::free_inode(s, o.device_id, o.inode_num);
                }
            }
        }
        Ok(())
    }

    /// What is known of an open file.
    pub fn stat<A: BlockDevice>(t: &StorageObjectTable, s: &mut Storage<A>, idx: usize) -> (r: Result<
        UserFileStat,
        FsError,
    >)
        requires
            old(s).wf(),
        ensures
            final(s).wf(),
            final(s).same_devices(old(s)),
            told(old(s), final(s), r),
            final(s).aged_at_most(old(s), 1),
            idx >= MAX_OPEN_STORAGE_OBJECTS ==> r == Err::<UserFileStat, FsError>(
                FsError::InvalidArgument,
            ) && *final(s) == *old(s),
            idx < MAX_OPEN_STORAGE_OBJECTS && !t.slots@[idx as int].occupied ==> r == Err::<
                UserFileStat,
                FsError,
            >(FsError::NotFound) && *final(s) == *old(s),
            idx < MAX_OPEN_STORAGE_OBJECTS && t.slots@[idx as int].occupied ==> {
                let o = t.slots@[idx as int];
                old(s).usable(o.device_id) && final(s).steady_since(old(s)) ==> {
                    &&& turned(old(s), final(s), o.device_id, old(s).vol(o.device_id))
                    &&& final(s).usable(o.device_id)
                    &&& match reading(old(s).vol(o.device_id), o.inode_num) {
                        Err(e) => r == Err::<UserFileStat, FsError>(e),
                        Ok(i) => r == Ok::<UserFileStat, FsError>(
                            UserFileStat {
                                size_bytes: i.size_bytes,
                                blocks_count: i.blocks_count,
                                file_type: i.file_type as u32,
                                generation: i.generation,
                                mtime_ticks: i.mtime_ticks,
                            },
                        ),
                    }
                }
            },
    {
        if idx >= MAX_OPEN_STORAGE_OBJECTS {
            return Err(FsError::InvalidArgument);
        }
        let o = t.slots[idx];
        if !o.occupied {
            return Err(FsError::NotFound);
        }
        match InodeManager::read_inode(s, o.device_id, o.inode_num) {
            Err(e) => Err(e),
            Ok(i) => Ok(
                UserFileStat {
                    size_bytes: i.size_bytes,
                    blocks_count: i.blocks_count,
                    file_type: i.file_type as u32,
                    generation: i.generation,
                    mtime_ticks: i.mtime_ticks,
                },
            ),
        }
    }

    /// Writes everything that the device of an open file still has to get. When this succeeds, all
    /// of it would survive a loss of power.
    pub fn sync<A: BlockDevice>(t: &StorageObjectTable, s: &mut Storage<A>, idx: usize) -> (r: Result<
        (),
        FsError,
    >)
        requires
            old(s).wf(),
        ensures
            final(s).wf(),
            final(s).same_devices(old(s)),
            told(old(s), final(s), r),
            final(s).aged_at_most(old(s), 0),
            idx >= MAX_OPEN_STORAGE_OBJECTS ==> r == Err::<(), FsError>(FsError::InvalidArgument)
                && *final(s) == *old(s),
            idx < MAX_OPEN_STORAGE_OBJECTS && !t.slots@[idx as int].occupied ==> r == Err::<
                (),
                FsError,
            >(FsError::NotFound) && *final(s) == *old(s),
            idx < MAX_OPEN_STORAGE_OBJECTS && t.slots@[idx as int].occupied && r is Ok ==> {
                let id = t.slots@[idx as int].device_id;
                forall|b: int| #[trigger]
                    unsaved(old(s), id, b) ==> final(s).stored(id)[b] == old(s).vol(id)[b]
            },
            idx < MAX_OPEN_STORAGE_OBJECTS && t.slots@[idx as int].occupied && r is Ok && old(
                s,
            ).known(t.slots@[idx as int].device_id) ==> {
                let id = t.slots@[idx as int].device_id;
                forall|b: int| (#[trigger] final(s).kept(id)[b]) == final(s).stored(id)[b]
            },
            idx < MAX_OPEN_STORAGE_OBJECTS && t.slots@[idx as int].occupied && old(s).ready(
                t.slots@[idx as int].device_id,
            ) && final(s).unfailed_since(old(s)) ==> {
                let id = t.slots@[idx as int].device_id;
                &&& r is Ok
                &&& turned(old(s), final(s), id, old(s).vol(id))
                &&& final(s).stored(id) == old(s).vol(id)
                &&& forall|b: int| #[trigger] resting(final(s), id, b)
                &&& final(s).ready(id)
            },
    {
        if idx >= MAX_OPEN_STORAGE_OBJECTS {
            return Err(FsError::InvalidArgument);
        }
        let o = t.slots[idx];
        if !o.occupied {
            return Err(FsError::NotFound);
        }
        sync_all_buffers(s, o.device_id)
    }

    /// Reads from an open file, from where it stands on. Blocks that are not there read as zeros.
    pub fn read<A: BlockDevice>(
        t: &mut StorageObjectTable,
        s: &mut Storage<A>,
        idx: usize,
        buf: &mut [u8],
    ) -> (r: Result<usize, FsError>)
        requires
            old(s).wf(),
            idx < MAX_OPEN_STORAGE_OBJECTS && old(t).slots@[idx as int].occupied ==> old(
                t,
            ).slots@[idx as int].in_flight_ops < u16::MAX,
        ensures
            final(s).wf(),
            final(s).same_devices(old(s)),
            told(old(s), final(s), r),
            final(s).aged_at_most(old(s), 1 + 2 * old(buf)@.len() as int),
            final(buf)@.len() == old(buf)@.len(),
            idx >= MAX_OPEN_STORAGE_OBJECTS || old(buf)@.len() == 0 ==> r == Ok::<usize, FsError>(
                0,
            ) && *final(t) == *old(t) && *final(s) == *old(s) && final(buf)@ == old(buf)@,
            idx < MAX_OPEN_STORAGE_OBJECTS && old(buf)@.len() > 0 && !old(
                t,
            ).slots@[idx as int].occupied ==> r == Err::<usize, FsError>(FsError::NotFound)
                && *final(t) == *old(t) && *final(s) == *old(s) && final(buf)@ == old(buf)@,
            idx < MAX_OPEN_STORAGE_OBJECTS && old(buf)@.len() > 0 && old(
                t,
            ).slots@[idx as int].occupied ==> {
                let o = old(t).slots@[idx as int];
                let n = read_count(o, old(buf)@.len() as int);
                if o.cursor_offset >= o.cached_size {
                    &&& r == Ok::<usize, FsError>(0)
                    &&& final(t).slots@ == old(t).slots@
                    &&& *final(s) == *old(s)
                    &&& final(buf)@ == old(buf)@
                } else {
                    &&& final(t).slots@ == old(t).slots@.update(
                        idx as int,
                        if r is Ok {
                            read_on(o, r->Ok_0 as int)
                        } else {
                            o
                        },
                    )
                    &&& r is Ok ==> r->Ok_0 == n
                    &&& old(s).usable(o.device_id) && final(s).steady_since(old(s)) ==> {
                        let v = old(s).vol(o.device_id);
                        let size = old(s).size(o.device_id) as int;
                        &&& turned(old(s), final(s), o.device_id, v)
                        &&& final(s).usable(o.device_id)
                        &&& match reading(v, o.inode_num) {
                            Err(e) => r == Err::<usize, FsError>(e),
                            Ok(i) => if is_readable(v, size, i, o.cursor_offset as int, n) {
                                &&& r is Ok
                                &&& final(buf)@ == filled(
                                    v,
                                    size,
                                    i,
                                    o.cursor_offset as int,
                                    n,
                                    old(buf)@,
                                )
                            } else {
                                r == Err::<usize, FsError>(FsError::InvalidArgument)
                            },
                        }
                    }
                }
            },
    {
        let ghost buf0 = buf@;
        if idx >= MAX_OPEN_STORAGE_OBJECTS || buf.len() == 0 {
            return Ok(0);
        }
        let o = t.slots[idx];
        if !o.occupied {
            return Err(FsError::NotFound);
        }
        t.slots[idx].in_flight_ops = o.in_flight_ops + 1;
        if o.cursor_offset >= o.cached_size {
            t.slots[idx].in_flight_ops = t.slots[idx].in_flight_ops.saturating_sub(1);
            assert(t.slots@ =~= old(t).slots@);
            return Ok(0);
        }
        let left: u64 = o.cached_size - o.cursor_offset;
        let to_read: usize = if left < buf.len() as u64 {
            left as usize
        } else {
            buf.len()
        };
        let inode = match InodeManager::read_inode(s, o.device_id, o.inode_num) {
            Err(e) => {
                t.slots[idx].in_flight_ops = t.slots[idx].in_flight_ops.saturating_sub(1);
                assert(t.slots@ =~= old(t).slots@.update(idx as int, o));
                return Err(e);
            },
            Ok(i) => i,
        };
        let got = Self::read_span(s, o.device_id, &inode, o.cursor_offset, buf, to_read);
        match got {
            Err(e) => {
                t.slots[idx].in_flight_ops = t.slots[idx].in_flight_ops.saturating_sub(1);
                assert(t.slots@ =~= old(t).slots@.update(idx as int, o));
                Err(e)
            },
            Ok(_) => {
                t.slots[idx].cursor_offset = o.cursor_offset + to_read as u64;
                t.slots[idx].in_flight_ops = t.slots[idx].in_flight_ops.saturating_sub(1);
                assert(t.slots@ =~= old(t).slots@.update(
                    idx as int,
                    StorageObject { cursor_offset: (o.cursor_offset + to_read) as u64, ..o },
                ));
                Ok(to_read)
            },
        }
    }

    /// Reads a span of a file into the start of a buffer.
    fn read_span<A: BlockDevice>(
        s: &mut Storage<A>,
        device_id: u8,
        inode: &DiskInode,
        pos: u64,
        buf: &mut [u8],
        n: usize,
    ) -> (r: Result<(), FsError>)
        requires
            old(s).wf(),
            n <= old(buf)@.len(),
            pos + n <= u64::MAX,
        ensures
            final(s).wf(),
            final(s).same_devices(old(s)),
            told(old(s), final(s), r),
            final(s).aged_at_most(old(s), 2 * n),
            final(buf)@.len() == old(buf)@.len(),
            old(s).usable(device_id) && final(s).steady_since(old(s)) ==> {
                let v = old(s).vol(device_id);
                let size = old(s).size(device_id) as int;
                &&& turned(old(s), final(s), device_id, v)
                &&& final(s).usable(device_id)
                &&& if is_readable(v, size, *inode, pos as int, n as int) {
                    &&& r is Ok
                    &&& final(buf)@ == Seq::new(
                        old(buf)@.len(),
                        |k: int|
                            if k < n {
                                file_byte(v, size, *inode, pos + k)
                            } else {
                                old(buf)@[k]
                            },
                    )
                } else {
                    r == Err::<(), FsError>(FsError::InvalidArgument)
                }
            },
    {
        let ghost v = s.vol(device_id);
        let ghost size = s.size(device_id) as int;
        let mut done: usize = 0;
        while done < n
            invariant
                done <= n <= buf@.len(),
                buf@.len() == old(buf)@.len(),
                pos + n <= u64::MAX,
                s.wf(),
                s.same_devices(old(s)),
                told(old(s), s, Ok::<(), FsError>(())),
                s.aged_at_most(old(s), 2 * done),
                v == old(s).vol(device_id),
                size == old(s).size(device_id),
                done < n ==> (pos + done) % 4096 == 0 || done == 0,
                old(s).usable(device_id) && s.steady_since(old(s)) ==> {
                    &&& turned(old(s), s, device_id, v)
                    &&& s.usable(device_id)
                    &&& forall|l: int|
                        0 < done && pos as int / 4096 <= l && l * 4096 < pos + done ==> (
                        #[trigger] block_of(
                            v,
                            size,
                            *inode,
                            l,
                        )) is Ok
                    &&& forall|k: int|
                        0 <= k < buf@.len() ==> buf@[k] == (if k < done {
                            file_byte(v, size, *inode, pos + k)
                        } else {
                            old(buf)@[k]
                        })
                },
            decreases n - done,
        {
            let at: u64 = pos + done as u64;
            let logical: u64 = at / 4096;
            let off: usize = (at % 4096) as usize;
            let room: usize = BLOCK_SIZE - off;
            let len: usize = if room < n - done {
                room
            } else {
                n - done
            };
            let l: usize = if logical < FILE_BLOCKS as u64 {
                logical as usize
            } else {
                FILE_BLOCKS
            };
            let ghost b = block_of(v, size, *inode, logical as int);
            proof {
                assert(mapping(v, size, *inode, logical as int) == mapping(v, size, *inode, l as int));
                assert(logical * 4096 <= at < logical * 4096 + 4096);
            }
            let mut data: [u8; BLOCK_SIZE] = [0u8; BLOCK_SIZE];
            match InodeManager::bmap(s, device_id, inode, l) {
                Err(e) => {
                    proof {
                        if old(s).usable(device_id) && s.steady_since(old(s)) {
                            assert(b is Err);
                            assert(!is_readable(v, size, *inode, pos as int, n as int));
                        }
                    }
                    return Err(e);
                },
                Ok(None) => {
                    assert(data@ =~= zero_block());
                },
                Ok(Some(lba)) => {
                    if let Err(e) = read_block_cached(s, device_id, lba as u64, &mut data) {
                        proof {
                            if old(s).usable(device_id) && s.steady_since(old(s)) {
                                assert(b is Err);
                                assert(!is_readable(v, size, *inode, pos as int, n as int));
                            }
                        }
                        return Err(e);
                    }
                },
            }
            let ghost before = buf@;
            copy_part(buf, done, &data, off, len);
            proof {
                if old(s).usable(device_id) && s.steady_since(old(s)) {
                    assert(b is Ok && b->Ok_0 == data@);
                    assert forall|k: int| 0 <= k < buf@.len() implies buf@[k] == (if k < done
                        + len {
                        file_byte(v, size, *inode, pos + k)
                    } else {
                        old(buf)@[k]
                    }) by {
                        if done <= k < done + len {
                            assert((pos + k) / 4096 == logical);
                            assert((pos + k) % 4096 == off + (k - done));
                        } else {
                            assert(buf@[k] == before[k]);
                        }
                    }
                    assert forall|l: int|
                        pos as int / 4096 <= l && l * 4096 < pos + done + len implies (
                    #[trigger] block_of(v, size, *inode, l)) is Ok by {
                        if done == 0 || l * 4096 >= pos + done {
                            assert(l <= logical);
                            assert(l >= logical);
                        }
                    }
                }
            }
            done = done + len;
        }
        proof {
            if old(s).usable(device_id) && s.steady_since(old(s)) {
                assert(buf@ =~= Seq::new(
                    old(buf)@.len(),
                    |k: int|
                        if k < n {
                            file_byte(v, size, *inode, pos + k)
                        } else {
                            old(buf)@[k]
                        },
                ));
            }
        }
        Ok(())
    }
}

/// Copies a part of a block into a buffer.
fn copy_part(buf: &mut [u8], at: usize, data: &[u8; BLOCK_SIZE], off: usize, len: usize)
    requires
        at + len <= old(buf)@.len(),
        off + len <= BLOCK_SIZE,
    ensures
        final(buf)@.len() == old(buf)@.len(),
        forall|k: int|
            0 <= k < final(buf)@.len() ==> final(buf)@[k] == (if at <= k < at + len {
                data@[off + k - at]
            } else {
                old(buf)@[k]
            }),
{
    let mut i: usize = 0;
    while i < len
        invariant
            i <= len,
            at + len <= buf@.len(),
            off + len <= BLOCK_SIZE,
            buf@.len() == old(buf)@.len(),
            forall|k: int|
                0 <= k < buf@.len() ==> buf@[k] == (if at <= k < at + i {
                    data@[off + k - at]
                } else {
                    old(buf)@[k]
                }),
        decreases len - i,
    {
        assert(buf@.len() == buf.len());
        buf[at + i] = data[off + i];
        i = i + 1;
    }
}

} // verus!
