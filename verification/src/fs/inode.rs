//! Inodes and the blocks of files.
use crate::bytes::{le32, put_le, read_u32, write_u32};
use crate::fs::buf::{
    holds_out, lemma_overdue, overdue, read_block_cached, resting, spares, told, write_block_cached,
    Storage,
};
use crate::fs::dev::{zero_block, BlockDevice};
use crate::fs::types::disk_inode::empty_inode;
use crate::fs::types::{
    DiskInode, FsError, InodeType, BLOCK_BITMAP_BLOCK, BLOCK_SIZE, DATA_BLOCK_START,
    INODES_PER_BLOCK, INODE_BITMAP_BLOCK, INODE_TABLE_START, MAX_INODES, MAX_VOLUME_BLOCKS,
};
use crate::fs::volume::{
    after_taking, block_given_back, block_taken, clear_bit, find_clear, first_clear, inode_at,
    inode_block, inode_bytes, is_data_block, law_first_clear, lemma_inode_at, lemma_tables_spared,
    lemma_volume_ok, roomy, set_bit, tables_spared, taking, turned, with_bit, with_inode,
    without_bit, Volume,
};
use vstd::array::{spec_array_fill_for_copy_type, spec_array_update};
use vstd::prelude::*;

verus! {

/// Operations on inodes and on the blocks of files.
pub struct InodeManager;

/// A number that an inode may have.
pub open spec fn is_inode_number(n: u32) -> bool {
    0 < n < MAX_INODES
}

/// What reading an inode answers.
pub open spec fn reading(v: Volume, n: u32) -> Result<DiskInode, FsError> {
    let i = inode_at(v, n as int);
    if !is_inode_number(n) {
        Err(FsError::InvalidArgument)
    } else if i.file_type != 0 && i.checksum != i.crc() {
        Err(FsError::CorruptMetadata)
    } else {
        Ok(i)
    }
}

/// The inode of a new file.
pub open spec fn new_inode(file_type: InodeType, creator_pid: u64) -> DiskInode {
    DiskInode {
        file_type: file_type.number(),
        creator_pid,
        links_count: 1,
        ..empty_inode()
    }
}

/// The inode that is handed out next; the number of inodes if there is none.
pub open spec fn next_inode(v: Volume) -> int {
    first_clear(v[INODE_BITMAP_BLOCK as int], 2, MAX_INODES as int)
}

/// The volume after an inode was handed out.
pub open spec fn inode_taken(v: Volume, n: int, i: DiskInode) -> Volume {
    with_inode(
        v.insert(INODE_BITMAP_BLOCK as int, with_bit(v[INODE_BITMAP_BLOCK as int], n)),
        n,
        i,
    )
}

/// The volume after an inode was given back.
pub open spec fn inode_given_back(v: Volume, n: int) -> Volume {
    with_inode(
        v.insert(INODE_BITMAP_BLOCK as int, without_bit(v[INODE_BITMAP_BLOCK as int], n)),
        n,
        empty_inode().sealed(),
    )
}

impl InodeManager {
    /// Reads an inode. One that is in use must have the right checksum.
    pub fn read_inode<A: BlockDevice>(s: &mut Storage<A>, device_id: u8, inode_num: u32) -> (r: Result<
        DiskInode,
        FsError,
    >)
        requires
            old(s).wf(),
        ensures
            final(s).wf(),
            final(s).same_devices(old(s)),
            told(old(s), final(s), r),
            forall|b: int|
                #![trigger spares(old(s), final(s), device_id, b)]
                #![trigger resting(old(s), device_id, b)]
                spares(old(s), final(s), device_id, b),
            final(s).aged_at_most(old(s), 1),
            !is_inode_number(inode_num) ==> r == Err::<DiskInode, FsError>(
                FsError::InvalidArgument,
            ) && *final(s) == *old(s),
            old(s).usable(device_id) && final(s).steady_since(old(s)) ==> {
                &&& r == reading(old(s).vol(device_id), inode_num)
                &&& turned(old(s), final(s), device_id, old(s).vol(device_id))
                &&& final(s).usable(device_id)
                &&& r is Ok ==> r->Ok_0.bytes() == inode_bytes(
                    old(s).vol(device_id),
                    inode_num as int,
                )
            },
    {
        if inode_num == 0 || inode_num >= MAX_INODES as u32 {
            return Err(FsError::InvalidArgument);
        }
        let n: usize = inode_num as usize;
        let mut raw: [u8; BLOCK_SIZE] = [0u8; BLOCK_SIZE];
        if let Err(e) = read_block_cached(
            s,
            device_id,
            INODE_TABLE_START + (n / INODES_PER_BLOCK) as u64,
            &mut raw,
        ) {
            return Err(e);
        }
        let inode = DiskInode::load(&raw, (n % INODES_PER_BLOCK) * 256);
        proof {
            if old(s).usable(device_id) && s.steady_since(old(s)) {
                lemma_inode_at(old(s).vol(device_id), n as int, inode);
            }
        }
        if inode.file_type != 0 && !inode.is_valid_checksum() {
            return Err(FsError::CorruptMetadata);
        }
        Ok(inode)
    }

    /// Stores an inode with the right checksum.
    pub fn write_inode<A: BlockDevice>(
        s: &mut Storage<A>,
        device_id: u8,
        inode_num: u32,
        inode: DiskInode,
    ) -> (r: Result<(), FsError>)
        requires
            old(s).wf(),
        ensures
            final(s).wf(),
            final(s).same_devices(old(s)),
            told(old(s), final(s), r),
            forall|b: int|
                #![trigger spares(old(s), final(s), device_id, b)]
                #![trigger resting(old(s), device_id, b)]
                b != inode_block(inode_num as int) ==> spares(old(s), final(s), device_id, b),
            final(s).aged_at_most(old(s), 2),
            !is_inode_number(inode_num) ==> r == Err::<(), FsError>(FsError::InvalidArgument)
                && *final(s) == *old(s),
            old(s).usable(device_id) && final(s).steady_since(old(s)) && is_inode_number(inode_num) ==> {
                &&& r is Ok
                &&& turned(
                    old(s),
                    final(s),
                    device_id,
                    with_inode(old(s).vol(device_id), inode_num as int, inode.sealed()),
                )
                &&& final(s).usable(device_id)
            },
    {
        if inode_num == 0 || inode_num >= MAX_INODES as u32 {
            return Err(FsError::InvalidArgument);
        }
        let mut sealed: DiskInode = inode;
        sealed.recompute_checksum();
        let n: usize = inode_num as usize;
        let block_idx: u64 = INODE_TABLE_START + (n / INODES_PER_BLOCK) as u64;
        let mut raw: [u8; BLOCK_SIZE] = [0u8; BLOCK_SIZE];
        if let Err(e) = read_block_cached(s, device_id, block_idx, &mut raw) {
            return Err(e);
        }
        sealed.store(&mut raw, (n % INODES_PER_BLOCK) * 256);
        let ghost read = *s;
        let r = write_block_cached(s, device_id, block_idx, &raw);
        proof {
            assert forall|b: int| b != inode_block(inode_num as int) implies #[trigger] spares(
                old(s),
                s,
                device_id,
                b,
            ) by {
                assert(spares(old(s), &read, device_id, b) && spares(&read, s, device_id, b));
            }
        }
        r
    }

    /// Hands out the first free inode after that of the root directory.
    pub fn alloc_inode<A: BlockDevice>(
        s: &mut Storage<A>,
        device_id: u8,
        file_type: InodeType,
        creator_pid: u64,
    ) -> (r: Result<u32, FsError>)
        requires
            old(s).wf(),
        ensures
            final(s).wf(),
            final(s).same_devices(old(s)),
            told(old(s), final(s), r),
            final(s).aged_at_most(old(s), 4),
            old(s).usable(device_id) && final(s).steady_since(old(s)) ==> {
                let v = old(s).vol(device_id);
                let n = next_inode(v);
                &&& final(s).usable(device_id)
                &&& if n >= MAX_INODES {
                    &&& r == Err::<u32, FsError>(FsError::NoInode)
                    &&& turned(old(s), final(s), device_id, v)
                } else {
                    &&& r == Ok::<u32, FsError>(n as u32)
                    &&& 2 <= n
                    &&& turned(
                        old(s),
                        final(s),
                        device_id,
                        inode_taken(v, n, new_inode(file_type, creator_pid).sealed()),
                    )
                }
            },
    {
        let ghost v = s.vol(device_id);
        let mut bitmap: [u8; BLOCK_SIZE] = [0u8; BLOCK_SIZE];
        if let Err(e) = read_block_cached(s, device_id, INODE_BITMAP_BLOCK, &mut bitmap) {
            return Err(e);
        }
        let ghost bm = bitmap@;
        proof {
            law_first_clear(bm, 2, MAX_INODES as int);
        }
        match find_clear(&bitmap, 2, MAX_INODES) {
            None => Err(FsError::NoInode),
            Some(idx) => {
                set_bit(&mut bitmap, idx);
                if let Err(e) = write_block_cached(s, device_id, INODE_BITMAP_BLOCK, &bitmap) {
                    return Err(e);
                }
                let mut inode: DiskInode = DiskInode::empty();
                inode.file_type = file_type.code();
                inode.creator_pid = creator_pid;
                inode.links_count = 1;
                assert(inode == new_inode(file_type, creator_pid));
                if let Err(e) = Self::write_inode(s, device_id, idx as u32, inode) {
                    return Err(e);
                }
                Ok(idx as u32)
            },
        }
    }

    /// Gives an inode back.
    pub fn free_inode<A: BlockDevice>(s: &mut Storage<A>, device_id: u8, inode_num: u32) -> (r: Result<
        (),
        FsError,
    >)
        requires
            old(s).wf(),
        ensures
            final(s).wf(),
            final(s).same_devices(old(s)),
            told(old(s), final(s), r),
            final(s).aged_at_most(old(s), 4),
            !is_inode_number(inode_num) ==> r == Err::<(), FsError>(FsError::InvalidArgument)
                && *final(s) == *old(s),
            old(s).usable(device_id) && final(s).steady_since(old(s)) && is_inode_number(inode_num) ==> {
                &&& r is Ok
                &&& final(s).usable(device_id)
                &&& turned(
                    old(s),
                    final(s),
                    device_id,
                    inode_given_back(old(s).vol(device_id), inode_num as int),
                )
            },
    {
        if inode_num == 0 || inode_num >= MAX_INODES as u32 {
            return Err(FsError::InvalidArgument);
        }
        let mut bitmap: [u8; BLOCK_SIZE] = [0u8; BLOCK_SIZE];
        if let Err(e) = read_block_cached(s, device_id, INODE_BITMAP_BLOCK, &mut bitmap) {
            return Err(e);
        }
        clear_bit(&mut bitmap, inode_num as usize);
        if let Err(e) = write_block_cached(s, device_id, INODE_BITMAP_BLOCK, &bitmap) {
            return Err(e);
        }
        let empty: DiskInode = DiskInode::empty();
        Self::write_inode(s, device_id, inode_num, empty)
    }

    /// Hands out the first free data block, zeroed.
    pub fn alloc_block<A: BlockDevice>(s: &mut Storage<A>, device_id: u8) -> (r: Result<
        u32,
        FsError,
    >)
        requires
            old(s).wf(),
        ensures
            final(s).wf(),
            final(s).same_devices(old(s)),
            told(old(s), final(s), r),
            holds_out(old(s), final(s), device_id, r),
            tables_spared(old(s), final(s), device_id),
            r is Ok ==> is_data_block(r->Ok_0 as int),
            r is Ok && r->Ok_0 >= old(s).size(device_id) ==> overdue(final(s), device_id),
            final(s).aged_at_most(old(s), 3),
            old(s).usable(device_id) && final(s).steady_since(old(s)) ==> {
                let v = old(s).vol(device_id);
                &&& r == taking(v)
                &&& turned(old(s), final(s), device_id, after_taking(v))
                &&& r is Ok ==> is_data_block(r->Ok_0 as int)
                &&& roomy(v[BLOCK_BITMAP_BLOCK as int], old(s).size(device_id) as int, 1)
                    ==> final(s).usable(device_id)
            },
    {
        let ghost v = s.vol(device_id);
        let mut bitmap: [u8; BLOCK_SIZE] = [0u8; BLOCK_SIZE];
        if let Err(e) = read_block_cached(s, device_id, BLOCK_BITMAP_BLOCK, &mut bitmap) {
            return Err(e);
        }
        let ghost bm = bitmap@;
        let ghost read = *s;
        proof {
            law_first_clear(bm, DATA_BLOCK_START as int, MAX_VOLUME_BLOCKS as int);
            reveal_with_fuel(roomy, 2);
            assert(tables_spared(old(s), &read, device_id));
        }
        match find_clear(&bitmap, DATA_BLOCK_START as usize, MAX_VOLUME_BLOCKS as usize) {
            None => Err(FsError::NoSpace),
            Some(lba) => {
                set_bit(&mut bitmap, lba);
                let w = write_block_cached(s, device_id, BLOCK_BITMAP_BLOCK, &bitmap);
                let ghost marked = *s;
                proof {
                    assert(tables_spared(&read, &marked, device_id));
                    lemma_tables_spared(old(s), &read, &marked, device_id);
                }
                if let Err(e) = w {
                    return Err(e);
                }
                let zero: [u8; BLOCK_SIZE] = [0u8; BLOCK_SIZE];
                assert(zero@ =~= zero_block());
                let w = write_block_cached(s, device_id, lba as u64, &zero);
                proof {
                    assert(tables_spared(&marked, s, device_id));
                    lemma_tables_spared(old(s), &marked, s, device_id);
                }
                if let Err(e) = w {
                    return Err(e);
                }
                proof {
                    if lba >= s.size(device_id) {
                        lemma_overdue(s, device_id, lba as int);
                    }
                }
                Ok(lba as u32)
            },
        }
    }

    /// Gives a data block back.
    pub fn free_block<A: BlockDevice>(s: &mut Storage<A>, device_id: u8, lba: u32) -> (r: Result<
        (),
        FsError,
    >)
        requires
            old(s).wf(),
        ensures
            final(s).wf(),
            final(s).same_devices(old(s)),
            told(old(s), final(s), r),
            final(s).aged_at_most(old(s), 2),
            !is_data_block(lba as int) ==> r == Err::<(), FsError>(FsError::InvalidArgument)
                && *final(s) == *old(s),
            old(s).usable(device_id) && final(s).steady_since(old(s)) && is_data_block(lba as int) ==> {
                &&& r is Ok
                &&& turned(
                    old(s),
                    final(s),
                    device_id,
                    block_given_back(old(s).vol(device_id), lba as int),
                )
                &&& final(s).usable(device_id)
            },
    {
        if (lba as u64) < DATA_BLOCK_START || (lba as u64) >= MAX_VOLUME_BLOCKS {
            return Err(FsError::InvalidArgument);
        }
        let mut bitmap: [u8; BLOCK_SIZE] = [0u8; BLOCK_SIZE];
        if let Err(e) = read_block_cached(s, device_id, BLOCK_BITMAP_BLOCK, &mut bitmap) {
            return Err(e);
        }
        clear_bit(&mut bitmap, lba as usize);
        write_block_cached(s, device_id, BLOCK_BITMAP_BLOCK, &bitmap)
    }
}

/// Logical blocks that an inode points to itself.
pub const DIRECT_BLOCKS: usize = 18;

/// Logical blocks that an inode can have.
pub const FILE_BLOCKS: usize = 1042;

/// Entry number `slot` of a block of pointers.
pub open spec fn pointer(data: Seq<u8>, slot: int) -> u32 {
    le32(data, 4 * slot)
}

/// Where a logical block of a file is, on a device of a size.
pub open spec fn mapping(v: Volume, size: int, inode: DiskInode, l: int) -> Result<
    Option<u32>,
    FsError,
> {
    if l < DIRECT_BLOCKS {
        Ok(
            if inode.direct_blocks@[l] == 0 {
                None
            } else {
                Some(inode.direct_blocks@[l])
            },
        )
    } else if l < FILE_BLOCKS {
        if inode.indirect_block == 0 {
            Ok(None)
        } else if inode.indirect_block >= size {
            Err(FsError::InvalidArgument)
        } else {
            let p = pointer(v[inode.indirect_block as int], l - DIRECT_BLOCKS);
            Ok(
                if p == 0 {
                    None
                } else {
                    Some(p)
                },
            )
        }
    } else {
        Err(FsError::InvalidArgument)
    }
}

/// The inode with another pointer for a direct block.
pub open spec fn with_direct(i: DiskInode, l: int, lba: u32) -> DiskInode {
    DiskInode { direct_blocks: spec_array_update(i.direct_blocks, l, lba), ..i }
}

/// The state of a change to a file: the volume, the inode as it will be, and the blocks that were
/// handed out and given up, as far as they are recorded.
#[verifier::ext_equal]
pub struct Change {
    pub v: Volume,
    pub inode: DiskInode,
    pub allocated: [u32; 10],
    pub allocated_count: usize,
    pub freed: [u32; 10],
    pub freed_count: usize,
}

impl Change {
    /// The number of a block is recorded as handed out, if there is room.
    pub open spec fn noting(self, lba: u32) -> Change {
        if self.allocated_count < 10 {
            Change {
                allocated: spec_array_update(self.allocated, self.allocated_count as int, lba),
                allocated_count: (self.allocated_count + 1) as usize,
                ..self
            }
        } else {
            self
        }
    }

    /// The number of a block is recorded as given up, if there is room.
    pub open spec fn noting_freed(self, lba: u32) -> Change {
        if self.freed_count < 10 {
            Change {
                freed: spec_array_update(self.freed, self.freed_count as int, lba),
                freed_count: (self.freed_count + 1) as usize,
                ..self
            }
        } else {
            self
        }
    }

    pub open spec fn with_volume(self, v: Volume) -> Change {
        Change { v, ..self }
    }

    /// One block of the file less.
    pub open spec fn one_block_less(self) -> Change {
        Change {
            inode: DiskInode {
                blocks_count: if self.inode.blocks_count == 0 {
                    0
                } else {
                    (self.inode.blocks_count - 1) as u64
                },
                ..self.inode
            },
            ..self
        }
    }

    /// A block was handed out and recorded.
    pub open spec fn taking_block(self) -> Change {
        if taking(self.v) is Ok {
            self.with_volume(block_taken(self.v)).noting(taking(self.v)->Ok_0)
        } else {
            self
        }
    }

    /// Makes sure that a direct block is there.
    pub open spec fn map_direct(self, l: int) -> (Change, Result<u32, FsError>) {
        if self.inode.direct_blocks@[l] != 0 {
            (self, Ok(self.inode.direct_blocks@[l]))
        } else {
            match taking(self.v) {
                Err(e) => (self, Err(e)),
                Ok(lba) => {
                    let c = self.taking_block();
                    let i = with_direct(c.inode, l, lba);
                    (
                        Change {
                            inode: DiskInode { blocks_count: (i.blocks_count + 1) as u64, ..i },
                            ..c
                        },
                        Ok(lba),
                    )
                },
            }
        }
    }

    /// The block of pointers is one that this change itself handed out.
    pub open spec fn made_pointers(self) -> bool {
        self.inode.indirect_block >= DATA_BLOCK_START && is_noted(
            self.allocated@,
            self.allocated_count as int,
            self.inode.indirect_block,
        )
    }

    /// Gives an indirect block a new data block and puts a changed copy in the place of the block
    /// of pointers, which is never changed itself. A copy that this change made takes further
    /// pointers.
    pub open spec fn map_indirect(self, l: int) -> (Change, Result<u32, FsError>) {
        match taking(self.v) {
            Err(e) => (self, Err(e)),
            Ok(data) => if self.made_pointers() {
                let c1 = self.taking_block();
                let at = self.inode.indirect_block as int;
                (
                    Change {
                        v: c1.v.insert(
                            at,
                            put_le(c1.v[at], 4 * (l - DIRECT_BLOCKS), data as int, 4),
                        ),
                        inode: DiskInode {
                            blocks_count: (c1.inode.blocks_count + 1) as u64,
                            ..c1.inode
                        },
                        ..c1
                    },
                    Ok(data),
                )
            } else {
                let c1 = self.taking_block();
                match taking(c1.v) {
                    Err(e) => (c1, Err(e)),
                    Ok(copy) => {
                        let c2 = c1.taking_block();
                        let was = self.inode.indirect_block;
                        let c3 = if was == 0 {
                            c2
                        } else {
                            c2.noting_freed(was)
                        };
                        let base = if was == 0 {
                            zero_block()
                        } else {
                            c2.v[was as int]
                        };
                        (
                            Change {
                                v: c3.v.insert(
                                    copy as int,
                                    put_le(base, 4 * (l - DIRECT_BLOCKS), data as int, 4),
                                ),
                                inode: DiskInode {
                                    indirect_block: copy,
                                    blocks_count: (c3.inode.blocks_count + (if was == 0 {
                                        2int
                                    } else {
                                        1int
                                    })) as u64,
                                    ..c3.inode
                                },
                                ..c3
                            },
                            Ok(data),
                        )
                    },
                }
            },
        }
    }

    /// Makes sure that a logical block is there: the one that the file has, or a new one.
    pub open spec fn map_block(self, l: int, size: int) -> (Change, Result<u32, FsError>) {
        match mapping(self.v, size, self.inode, l) {
            Err(e) => (self, Err(e)),
            Ok(Some(p)) => (self, Ok(p)),
            Ok(None) => if l < DIRECT_BLOCKS {
                self.map_direct(l)
            } else {
                self.map_indirect(l)
            },
        }
    }

    /// The new blocks that a logical block needs lie on the device: none for a block that the file
    /// has, one for a direct block, and two for an indirect one, the first time.
    pub open spec fn finds_room(self, l: int, size: int) -> bool {
        mapping(self.v, size, self.inode, l) == Ok::<Option<u32>, FsError>(None) ==> roomy(
            self.v[BLOCK_BITMAP_BLOCK as int],
            size,
            if l < DIRECT_BLOCKS || self.made_pointers() {
                1
            } else {
                2
            },
        )
    }
}

/// A block is among the first `n` of a list of ten.
pub open spec fn is_noted(list: Seq<u32>, n: int, lba: u32) -> bool {
    exists|j: int| 0 <= j < 10 && j < n && (#[trigger] list[j]) == lba
}

/// The state that an operation on a file works on.
pub open spec fn change_of<A: BlockDevice>(
    s: &Storage<A>,
    id: u8,
    inode: DiskInode,
    allocated: [u32; 10],
    allocated_count: usize,
    freed: [u32; 10],
    freed_count: usize,
) -> Change {
    Change {
        v: s.vol(id),
        inode,
        allocated,
        allocated_count,
        freed,
        freed_count,
    }
}

/// A change to a file at its beginning.
pub open spec fn fresh_change(v: Volume, inode: DiskInode) -> Change {
    Change {
        v,
        inode,
        allocated: spec_array_fill_for_copy_type::<u32, 10>(0),
        allocated_count: 0,
        freed: spec_array_fill_for_copy_type::<u32, 10>(0),
        freed_count: 0,
    }
}

/// Records the number of a block, if there is room.
fn note(list: &mut [u32; 10], count: &mut usize, lba: u32)
    ensures
        *old(count) < 10 ==> *final(list) == spec_array_update(
            *old(list),
            *old(count) as int,
            lba,
        ) && *final(count) == *old(count) + 1,
        *old(count) >= 10 ==> *final(list) == *old(list) && *final(count) == *old(count),
{
    if *count < 10 {
        list[*count] = lba;
        *count = *count + 1;
        assert(*list =~= spec_array_update(*old(list), *old(count) as int, lba));
    }
}

/// Finds out whether a block is recorded.
fn noted(list: &[u32; 10], count: usize, lba: u32) -> (r: bool)
    ensures
        r == is_noted(list@, count as int, lba),
{
    let mut i: usize = 0;
    while i < 10 && i < count
        invariant
            i <= 10,
            i <= count,
            forall|j: int| 0 <= j < i ==> (#[trigger] list@[j]) != lba,
        decreases 10 - i,
    {
        if list[i] == lba {
            return true;
        }
        i = i + 1;
    }
    false
}

impl InodeManager {
    /// Finds the block behind a logical block.
    pub fn bmap<A: BlockDevice>(
        s: &mut Storage<A>,
        device_id: u8,
        inode: &DiskInode,
        logical_idx: usize,
    ) -> (r: Result<Option<u32>, FsError>)
        requires
            old(s).wf(),
        ensures
            final(s).wf(),
            final(s).same_devices(old(s)),
            told(old(s), final(s), r),
            holds_out(old(s), final(s), device_id, r),
            forall|b: int| #[trigger] spares(old(s), final(s), device_id, b),
            final(s).aged_at_most(old(s), 1),
            logical_idx < DIRECT_BLOCKS || logical_idx >= FILE_BLOCKS || inode.indirect_block == 0
                ==> r == mapping(
                old(s).vol(device_id),
                old(s).size(device_id) as int,
                *inode,
                logical_idx as int,
            ) && *final(s) == *old(s),
            old(s).usable(device_id) && final(s).steady_since(old(s)) ==> {
                &&& r == mapping(
                    old(s).vol(device_id),
                    old(s).size(device_id) as int,
                    *inode,
                    logical_idx as int,
                )
                &&& turned(old(s), final(s), device_id, old(s).vol(device_id))
                &&& final(s).usable(device_id)
            },
    {
        if logical_idx < DIRECT_BLOCKS {
            let lba: u32 = inode.direct_blocks[logical_idx];
            if lba == 0 {
                Ok(None)
            } else {
                Ok(Some(lba))
            }
        } else if logical_idx < FILE_BLOCKS {
            if inode.indirect_block == 0 {
                return Ok(None);
            }
            let mut data: [u8; BLOCK_SIZE] = [0u8; BLOCK_SIZE];
            if let Err(e) = read_block_cached(s, device_id, inode.indirect_block as u64, &mut data) {
                return Err(e);
            }
            let lba: u32 = read_u32(&data, 4 * (logical_idx - DIRECT_BLOCKS));
            if lba == 0 {
                Ok(None)
            } else {
                Ok(Some(lba))
            }
        } else {
            Err(FsError::InvalidArgument)
        }
    }

    /// Makes sure that a direct block is there.
    fn map_direct<A: BlockDevice>(
        s: &mut Storage<A>,
        device_id: u8,
        inode: &mut DiskInode,
        logical_idx: usize,
        allocated_blocks: &mut [u32; 10],
        allocated_count: &mut usize,
        freed: Ghost<([u32; 10], usize)>,
    ) -> (r: Result<u32, FsError>)
        requires
            old(s).wf(),
            logical_idx < DIRECT_BLOCKS,
            old(inode).blocks_count < u64::MAX,
        ensures
            final(s).wf(),
            final(s).same_devices(old(s)),
            told(old(s), final(s), r),
            holds_out(old(s), final(s), device_id, r),
            tables_spared(old(s), final(s), device_id),
            old(s).usable(device_id) && final(s).steady_since(old(s)) && old(
                inode,
            ).direct_blocks@[logical_idx as int] == 0 && !roomy(
                old(s).vol(device_id)[BLOCK_BITMAP_BLOCK as int],
                old(s).size(device_id) as int,
                1,
            ) && r is Ok ==> overdue(final(s), device_id),
            final(s).aged_at_most(old(s), 3),
            old(s).usable(device_id) && final(s).steady_since(old(s)) && (old(
                inode,
            ).direct_blocks@[logical_idx as int] == 0 ==> roomy(
                old(s).vol(device_id)[BLOCK_BITMAP_BLOCK as int],
                old(s).size(device_id) as int,
                1,
            )) ==> {
                let c = Change {
                    v: old(s).vol(device_id),
                    inode: *old(inode),
                    allocated: *old(allocated_blocks),
                    allocated_count: *old(allocated_count),
                    freed: freed@.0,
                    freed_count: freed@.1,
                };
                let (n, res) = c.map_direct(logical_idx as int);
                &&& r == res
                &&& n == (Change {
                    v: final(s).vol(device_id),
                    inode: *final(inode),
                    allocated: *final(allocated_blocks),
                    allocated_count: *final(allocated_count),
                    freed: freed@.0,
                    freed_count: freed@.1,
                })
                &&& turned(old(s), final(s), device_id, n.v)
                &&& final(s).usable(device_id)
            },
    {
        if inode.direct_blocks[logical_idx] != 0 {
            return Ok(inode.direct_blocks[logical_idx]);
        }
        let lba: u32 = match Self::alloc_block(s, device_id) {
            Err(e) => {
                return Err(e);
            },
            Ok(lba) => lba,
        };
        let ghost before = *inode;
        proof {
            reveal_with_fuel(roomy, 2);
        }
        inode.direct_blocks[logical_idx] = lba;
        inode.blocks_count = inode.blocks_count + 1;
        proof {
            assert(inode.direct_blocks =~= spec_array_update(
                before.direct_blocks,
                logical_idx as int,
                lba,
            ));
        }
        note(allocated_blocks, allocated_count, lba);
        Ok(lba)
    }

    /// Makes sure that a logical block is there. A block of pointers is never changed: a changed
    /// copy takes its place. The blocks listed as handed out are those of this change; a copy among
    /// them takes further pointers.
    #[verifier::rlimit(60)]
    #[verifier::spinoff_prover]
    pub fn bmap_alloc<A: BlockDevice>(
        s: &mut Storage<A>,
        device_id: u8,
        inode: &mut DiskInode,
        logical_idx: usize,
        allocated_blocks: &mut [u32; 10],
        allocated_count: &mut usize,
        freed_blocks: &mut [u32; 10],
        freed_count: &mut usize,
    ) -> (r: Result<u32, FsError>)
        requires
            old(s).wf(),
            old(inode).blocks_count <= u64::MAX - 2,
        ensures
            final(s).wf(),
            final(s).same_devices(old(s)),
            told(old(s), final(s), r),
            holds_out(old(s), final(s), device_id, r),
            tables_spared(old(s), final(s), device_id),
            final(s).aged_at_most(old(s), 9),
            logical_idx >= FILE_BLOCKS ==> r == Err::<u32, FsError>(FsError::InvalidArgument),
            ({
                let size = old(s).size(device_id) as int;
                let c = change_of(
                    old(s),
                    device_id,
                    *old(inode),
                    *old(allocated_blocks),
                    *old(allocated_count),
                    *old(freed_blocks),
                    *old(freed_count),
                );
                old(s).usable(device_id) && final(s).steady_since(old(s)) && c.finds_room(
                    logical_idx as int,
                    size,
                ) ==> {
                    let (n, res) = c.map_block(logical_idx as int, size);
                    &&& r == res
                    &&& n == change_of(
                        final(s),
                        device_id,
                        *final(inode),
                        *final(allocated_blocks),
                        *final(allocated_count),
                        *final(freed_blocks),
                        *final(freed_count),
                    )
                    &&& turned(old(s), final(s), device_id, n.v)
                    &&& final(s).usable(device_id)
                }
            }),
            ({
                let c = change_of(
                    old(s),
                    device_id,
                    *old(inode),
                    *old(allocated_blocks),
                    *old(allocated_count),
                    *old(freed_blocks),
                    *old(freed_count),
                );
                old(s).usable(device_id) && final(s).steady_since(old(s)) && !c.finds_room(
                    logical_idx as int,
                    old(s).size(device_id) as int,
                ) && r is Ok ==> overdue(final(s), device_id)
            }),
    {
        proof {
            reveal_with_fuel(roomy, 3);
        }
        if logical_idx < DIRECT_BLOCKS {
            return Self::map_direct(
                s,
                device_id,
                inode,
                logical_idx,
                allocated_blocks,
                allocated_count,
                Ghost((*freed_blocks, *freed_count)),
            );
        }
        if logical_idx >= FILE_BLOCKS {
            return Err(FsError::InvalidArgument);
        }
        let slot: usize = logical_idx - DIRECT_BLOCKS;
        let ghost size = s.size(device_id) as int;
        let ghost start = change_of(
            s,
            device_id,
            *inode,
            *allocated_blocks,
            *allocated_count,
            *freed_blocks,
            *freed_count,
        );
        let ghost exact = s.usable(device_id) && start.finds_room(logical_idx as int, size);
        match Self::bmap(s, device_id, inode, logical_idx) {
            Err(e) => {
                return Err(e);
            },
            Ok(Some(lba)) => {
                return Ok(lba);
            },
            Ok(None) => {},
        }
        let ghost found = *s;
        let ghost c0 = change_of(
            s,
            device_id,
            *inode,
            *allocated_blocks,
            *allocated_count,
            *freed_blocks,
            *freed_count,
        );
        proof {
            lemma_volume_ok(s, device_id);
            if exact && s.steady_since(old(s)) {
                assert(c0 =~= start);
            }
        }
        let own: bool = (inode.indirect_block as u64) >= DATA_BLOCK_START && noted(
            allocated_blocks,
            *allocated_count,
            inode.indirect_block,
        );
        assert(own == c0.made_pointers());
        let taken = Self::alloc_block(s, device_id);
        let ghost s1 = *s;
        proof {
            lemma_tables_spared(old(s), &found, &s1, device_id);
        }
        let data_lba: u32 = match taken {
            Err(e) => {
                return Err(e);
            },
            Ok(lba) => lba,
        };
        note(allocated_blocks, allocated_count, data_lba);
        let ghost c1 = c0.taking_block();
        proof {
            if exact && s.steady_since(old(s)) {
                crate::fs::volume::law_taken_block_was_free(c0.v);
            }
        }
        if own {
            let at: u32 = inode.indirect_block;
            let mut own_buf: [u8; BLOCK_SIZE] = [0u8; BLOCK_SIZE];
            let res = read_block_cached(s, device_id, at as u64, &mut own_buf);
            let ghost own_read = *s;
            proof {
                lemma_tables_spared(old(s), &s1, &own_read, device_id);
            }
            if let Err(e) = res {
                return Err(e);
            }
            write_u32(&mut own_buf, 4 * slot, data_lba);
            let res = write_block_cached(s, device_id, at as u64, &own_buf);
            proof {
                assert(tables_spared(&own_read, s, device_id));
                lemma_tables_spared(old(s), &own_read, s, device_id);
            }
            if let Err(e) = res {
                return Err(e);
            }
            inode.blocks_count = inode.blocks_count + 1;
            proof {
                if exact && s.steady_since(old(s)) {
                    let (n, res) = c0.map_block(logical_idx as int, old(s).size(device_id) as int);
                    let now = change_of(
                        s,
                        device_id,
                        *inode,
                        *allocated_blocks,
                        *allocated_count,
                        *freed_blocks,
                        *freed_count,
                    );
                    assert(now.v =~= n.v);
                    assert(now.inode == n.inode);
                    assert(now =~= n);
                    assert forall|k: u8| k != device_id implies (#[trigger] s.vol(k)) == old(
                        s,
                    ).vol(k) by {
                        assert(found.vol(k) == old(s).vol(k));
                    }
                }
            }
            return Ok(data_lba);
        }
        let taken = Self::alloc_block(s, device_id);
        let ghost s2 = *s;
        proof {
            lemma_tables_spared(old(s), &s1, &s2, device_id);
        }
        let copy_lba: u32 = match taken {
            Err(e) => {
                return Err(e);
            },
            Ok(lba) => lba,
        };
        note(allocated_blocks, allocated_count, copy_lba);
        let ghost c2 = c1.taking_block();
        proof {
            if exact && s.steady_since(old(s)) {
                crate::fs::volume::law_taken_block_was_free(c1.v);
                assert(copy_lba < old(s).size(device_id));
                assert(s.usable(device_id));
                assert(c2 =~= change_of(
                    s,
                    device_id,
                    *inode,
                    *allocated_blocks,
                    *allocated_count,
                    *freed_blocks,
                    *freed_count,
                ));
            }
        }
        let was: u32 = inode.indirect_block;
        let mut buf: [u8; BLOCK_SIZE] = [0u8; BLOCK_SIZE];
        if was == 0 {
            assert(buf@ =~= zero_block());
        } else {
            note(freed_blocks, freed_count, was);
            let res = read_block_cached(s, device_id, was as u64, &mut buf);
            proof {
                lemma_tables_spared(old(s), &s2, s, device_id);
            }
            if let Err(e) = res {
                return Err(e);
            }
        }
        let ghost s3 = *s;
        write_u32(&mut buf, 4 * slot, data_lba);
        let res = write_block_cached(s, device_id, copy_lba as u64, &buf);
        proof {
            assert(tables_spared(&s3, s, device_id));
            lemma_tables_spared(old(s), &s3, s, device_id);
        }
        if let Err(e) = res {
            return Err(e);
        }
        inode.indirect_block = copy_lba;
        if was == 0 {
            inode.blocks_count = inode.blocks_count + 2;
        } else {
            inode.blocks_count = inode.blocks_count + 1;
        }
        proof {
            if exact && s.steady_since(old(s)) {
                let (n, res) = c0.map_block(logical_idx as int, old(s).size(device_id) as int);
                let now = change_of(
                    s,
                    device_id,
                    *inode,
                    *allocated_blocks,
                    *allocated_count,
                    *freed_blocks,
                    *freed_count,
                );
                assert(now.v =~= n.v);
                assert(now.inode == n.inode);
                assert(now =~= n);
                assert forall|k: u8| k != device_id implies (#[trigger] s.vol(k)) == old(s).vol(
                    k,
                ) by {
                    assert(found.vol(k) == old(s).vol(k));
                }
            }
        }
        Ok(data_lba)
    }
}

/// The first `n` pointers of a block of pointers.
pub open spec fn kept_pointers(data: Seq<u8>, n: int) -> Seq<u8> {
    Seq::new(4096, |i: int| if i < 4 * n { data[i] } else { 0u8 })
}

/// How many blocks a file of a size needs.
pub open spec fn blocks_needed(size: int) -> int {
    (size + 4095) / 4096
}

impl Change {
    /// A block of the file was given back and recorded.
    pub open spec fn dropping(self, lba: u32) -> Change {
        self.with_volume(block_given_back(self.v, lba as int)).one_block_less().noting_freed(lba)
    }

    /// The direct blocks from `from` on were given back, up to the first that is no data block.
    pub open spec fn drop_direct(self, from: int) -> (Change, Result<(), FsError>)
        decreases 18 - from,
    {
        if from >= DIRECT_BLOCKS {
            (self, Ok(()))
        } else {
            let p = self.inode.direct_blocks@[from];
            if p == 0 {
                self.drop_direct(from + 1)
            } else if !is_data_block(p as int) {
                (self, Err(FsError::InvalidArgument))
            } else {
                let c = self.dropping(p);
                (Change { inode: with_direct(c.inode, from, 0), ..c }).drop_direct(from + 1)
            }
        }
    }

    /// The blocks in a block of pointers from `from` on were given back, up to the first that is
    /// no data block.
    pub open spec fn drop_pointers(self, data: Seq<u8>, from: int) -> (Change, Result<(), FsError>)
        decreases 1024 - from,
    {
        if from >= 1024 {
            (self, Ok(()))
        } else {
            let p = pointer(data, from);
            if p == 0 {
                self.drop_pointers(data, from + 1)
            } else if !is_data_block(p as int) {
                (self, Err(FsError::InvalidArgument))
            } else {
                self.dropping(p).drop_pointers(data, from + 1)
            }
        }
    }

    pub open spec fn with_size(self, size: u64) -> Change {
        Change { inode: DiskInode { size_bytes: size, ..self.inode }, ..self }
    }

    pub open spec fn with_indirect(self, lba: u32) -> Change {
        Change { inode: DiskInode { indirect_block: lba, ..self.inode }, ..self }
    }

    /// All indirect blocks were given back, and the block of pointers too.
    pub open spec fn drop_indirect(self, size: int) -> (Change, Result<(), FsError>) {
        let was = self.inode.indirect_block;
        if was >= size {
            (self, Err(FsError::InvalidArgument))
        } else {
            let (c, r) = self.drop_pointers(self.v[was as int], 0);
            if r is Err {
                (c, r)
            } else if !is_data_block(was as int) {
                (c, Err(FsError::InvalidArgument))
            } else {
                (
                    c.with_volume(block_given_back(c.v, was as int)).with_indirect(
                        0,
                    ).one_block_less().noting_freed(was),
                    Ok(()),
                )
            }
        }
    }

    /// The indirect blocks from number `keep` on were given back; a copy of the block of pointers
    /// that holds the others took its place.
    pub open spec fn cut_indirect(self, keep: int, size: int) -> (Change, Result<(), FsError>) {
        let was = self.inode.indirect_block;
        match taking(self.v) {
            Err(e) => (self, Err(e)),
            Ok(copy) => {
                let c1 = self.taking_block().noting_freed(was);
                if was >= size {
                    (c1, Err(FsError::InvalidArgument))
                } else {
                    let data = c1.v[was as int];
                    let (c2, r) = c1.drop_pointers(data, keep);
                    if r is Err {
                        (c2, r)
                    } else {
                        (
                            c2.with_volume(
                                c2.v.insert(copy as int, kept_pointers(data, keep)),
                            ).with_indirect(copy),
                            Ok(()),
                        )
                    }
                }
            },
        }
    }

    /// The file was cut to a size.
    pub open spec fn truncated(self, new_size: u64, size: int) -> (Change, Result<(), FsError>) {
        let needed = blocks_needed(new_size as int);
        let (c, r) = self.drop_direct(needed);
        if r is Err {
            (c, r)
        } else {
            let (d, r2) = if c.inode.indirect_block == 0 || needed >= FILE_BLOCKS {
                (c, Ok::<(), FsError>(()))
            } else if needed <= DIRECT_BLOCKS {
                c.drop_indirect(size)
            } else {
                c.cut_indirect(needed - DIRECT_BLOCKS, size)
            };
            if r2 is Err {
                (d, r2)
            } else {
                (d.with_size(new_size), Ok(()))
            }
        }
    }
}

/// Cutting a file to a size puts a copy in the place of its block of pointers.
pub open spec fn copies_pointers(i: DiskInode, new_size: int) -> bool {
    i.indirect_block != 0 && DIRECT_BLOCKS < blocks_needed(new_size) < FILE_BLOCKS
}

impl InodeManager {
    /// Gives the direct blocks from a number on back.
    fn drop_direct<A: BlockDevice>(
        s: &mut Storage<A>,
        device_id: u8,
        inode: &mut DiskInode,
        from: usize,
        freed_blocks: &mut [u32; 10],
        freed_count: &mut usize,
        allocated: Ghost<([u32; 10], usize)>,
    ) -> (r: Result<(), FsError>)
        requires
            old(s).wf(),
            from <= DIRECT_BLOCKS,
        ensures
            final(s).wf(),
            final(s).same_devices(old(s)),
            told(old(s), final(s), r),
            final(s).aged_at_most(old(s), 36),
            old(s).usable(device_id) && final(s).steady_since(old(s)) ==> {
                let c = change_of(
                    old(s),
                    device_id,
                    *old(inode),
                    allocated@.0,
                    allocated@.1,
                    *old(freed_blocks),
                    *old(freed_count),
                );
                let (n, res) = c.drop_direct(from as int);
                &&& r == res
                &&& n == change_of(
                    final(s),
                    device_id,
                    *final(inode),
                    allocated@.0,
                    allocated@.1,
                    *final(freed_blocks),
                    *final(freed_count),
                )
                &&& turned(old(s), final(s), device_id, n.v)
                &&& final(s).usable(device_id)
            },
    {
        let ghost c0 = change_of(
            s,
            device_id,
            *inode,
            allocated@.0,
            allocated@.1,
            *freed_blocks,
            *freed_count,
        );
        let mut idx: usize = from;
        while idx < DIRECT_BLOCKS
            invariant
                from <= idx <= DIRECT_BLOCKS,
                s.wf(),
                s.same_devices(old(s)),
                told(old(s), s, Ok::<(), FsError>(())),
                s.aged_at_most(old(s), 2 * idx),
                c0 == change_of(
                    old(s),
                    device_id,
                    *old(inode),
                    allocated@.0,
                    allocated@.1,
                    *old(freed_blocks),
                    *old(freed_count),
                ),
                old(s).usable(device_id) && s.steady_since(old(s)) ==> {
                    &&& s.usable(device_id)
                    &&& turned(old(s), s, device_id, s.vol(device_id))
                    &&& c0.drop_direct(from as int) == change_of(
                        s,
                        device_id,
                        *inode,
                        allocated@.0,
                        allocated@.1,
                        *freed_blocks,
                        *freed_count,
                    ).drop_direct(idx as int)
                },
            decreases DIRECT_BLOCKS - idx,
        {
            let ghost now = change_of(
                s,
                device_id,
                *inode,
                allocated@.0,
                allocated@.1,
                *freed_blocks,
                *freed_count,
            );
            let lba: u32 = inode.direct_blocks[idx];
            if lba != 0 {
                if let Err(e) = Self::free_block(s, device_id, lba) {
                    return Err(e);
                }
                let ghost was = *inode;
                inode.direct_blocks[idx] = 0;
                inode.blocks_count = inode.blocks_count.saturating_sub(1);
                note(freed_blocks, freed_count, lba);
                proof {
                    assert(inode.direct_blocks =~= spec_array_update(
                        was.direct_blocks,
                        idx as int,
                        0,
                    ));
                    if old(s).usable(device_id) && s.steady_since(old(s)) {
                        if !is_data_block(lba as int) {
                            assert(false);
                        }
                        let c = now.dropping(lba);
                        let n = Change { inode: with_direct(c.inode, idx as int, 0), ..c };
                        assert(n =~= change_of(
                            s,
                            device_id,
                            *inode,
                            allocated@.0,
                            allocated@.1,
                            *freed_blocks,
                            *freed_count,
                        ));
                    }
                }
            }
            idx = idx + 1;
        }
        Ok(())
    }

    /// Gives the blocks in a block of pointers from a number on back.
    fn drop_pointers<A: BlockDevice>(
        s: &mut Storage<A>,
        device_id: u8,
        inode: &mut DiskInode,
        data: &[u8; BLOCK_SIZE],
        from: usize,
        freed_blocks: &mut [u32; 10],
        freed_count: &mut usize,
        allocated: Ghost<([u32; 10], usize)>,
    ) -> (r: Result<(), FsError>)
        requires
            old(s).wf(),
            from <= 1024,
        ensures
            final(s).wf(),
            final(s).same_devices(old(s)),
            told(old(s), final(s), r),
            final(s).aged_at_most(old(s), 2048),
            old(s).usable(device_id) && final(s).steady_since(old(s)) ==> {
                let c = change_of(
                    old(s),
                    device_id,
                    *old(inode),
                    allocated@.0,
                    allocated@.1,
                    *old(freed_blocks),
                    *old(freed_count),
                );
                let (n, res) = c.drop_pointers(data@, from as int);
                &&& r == res
                &&& n == change_of(
                    final(s),
                    device_id,
                    *final(inode),
                    allocated@.0,
                    allocated@.1,
                    *final(freed_blocks),
                    *final(freed_count),
                )
                &&& turned(old(s), final(s), device_id, n.v)
                &&& final(s).usable(device_id)
            },
    {
        let ghost c0 = change_of(
            s,
            device_id,
            *inode,
            allocated@.0,
            allocated@.1,
            *freed_blocks,
            *freed_count,
        );
        let mut slot: usize = from;
        while slot < 1024
            invariant
                from <= slot <= 1024,
                s.wf(),
                s.same_devices(old(s)),
                told(old(s), s, Ok::<(), FsError>(())),
                s.aged_at_most(old(s), 2 * slot),
                c0 == change_of(
                    old(s),
                    device_id,
                    *old(inode),
                    allocated@.0,
                    allocated@.1,
                    *old(freed_blocks),
                    *old(freed_count),
                ),
                old(s).usable(device_id) && s.steady_since(old(s)) ==> {
                    &&& s.usable(device_id)
                    &&& turned(old(s), s, device_id, s.vol(device_id))
                    &&& c0.drop_pointers(data@, from as int) == change_of(
                        s,
                        device_id,
                        *inode,
                        allocated@.0,
                        allocated@.1,
                        *freed_blocks,
                        *freed_count,
                    ).drop_pointers(data@, slot as int)
                },
            decreases 1024 - slot,
        {
            let ghost now = change_of(
                s,
                device_id,
                *inode,
                allocated@.0,
                allocated@.1,
                *freed_blocks,
                *freed_count,
            );
            let lba: u32 = read_u32(data, 4 * slot);
            if lba != 0 {
                if let Err(e) = Self::free_block(s, device_id, lba) {
                    return Err(e);
                }
                inode.blocks_count = inode.blocks_count.saturating_sub(1);
                note(freed_blocks, freed_count, lba);
                proof {
                    if old(s).usable(device_id) && s.steady_since(old(s)) {
                        if !is_data_block(lba as int) {
                            assert(false);
                        }
                        assert(now.dropping(lba) =~= change_of(
                            s,
                            device_id,
                            *inode,
                            allocated@.0,
                            allocated@.1,
                            *freed_blocks,
                            *freed_count,
                        ));
                    }
                }
            }
            slot = slot + 1;
        }
        Ok(())
    }
}

impl InodeManager {
    /// Gives all indirect blocks back.
    fn drop_indirect<A: BlockDevice>(
        s: &mut Storage<A>,
        device_id: u8,
        inode: &mut DiskInode,
        freed_blocks: &mut [u32; 10],
        freed_count: &mut usize,
        allocated: Ghost<([u32; 10], usize)>,
    ) -> (r: Result<(), FsError>)
        requires
            old(s).wf(),
        ensures
            final(s).wf(),
            final(s).same_devices(old(s)),
            told(old(s), final(s), r),
            final(s).aged_at_most(old(s), 2051),
            old(s).usable(device_id) && final(s).steady_since(old(s)) ==> {
                let c = change_of(
                    old(s),
                    device_id,
                    *old(inode),
                    allocated@.0,
                    allocated@.1,
                    *old(freed_blocks),
                    *old(freed_count),
                );
                let (n, res) = c.drop_indirect(old(s).size(device_id) as int);
                &&& r == res
                &&& n == change_of(
                    final(s),
                    device_id,
                    *final(inode),
                    allocated@.0,
                    allocated@.1,
                    *final(freed_blocks),
                    *final(freed_count),
                )
                &&& turned(old(s), final(s), device_id, n.v)
                &&& final(s).usable(device_id)
            },
    {
        let was: u32 = inode.indirect_block;
        let mut data: [u8; BLOCK_SIZE] = [0u8; BLOCK_SIZE];
        if let Err(e) = read_block_cached(s, device_id, was as u64, &mut data) {
            return Err(e);
        }
        if let Err(e) = Self::drop_pointers(
            s,
            device_id,
            inode,
            &data,
            0,
            freed_blocks,
            freed_count,
            allocated,
        ) {
            return Err(e);
        }
        let ghost c = change_of(
            s,
            device_id,
            *inode,
            allocated@.0,
            allocated@.1,
            *freed_blocks,
            *freed_count,
        );
        if let Err(e) = Self::free_block(s, device_id, was) {
            return Err(e);
        }
        inode.indirect_block = 0;
        inode.blocks_count = inode.blocks_count.saturating_sub(1);
        note(freed_blocks, freed_count, was);
        proof {
            if old(s).usable(device_id) && s.steady_since(old(s)) {
                let n = c.with_volume(block_given_back(c.v, was as int)).with_indirect(
                    0,
                ).one_block_less().noting_freed(was);
                assert(n =~= change_of(
                    s,
                    device_id,
                    *inode,
                    allocated@.0,
                    allocated@.1,
                    *freed_blocks,
                    *freed_count,
                ));
            }
        }
        Ok(())
    }

    /// Gives the indirect blocks from a number on back and puts a copy with the others in the
    /// place of the block of pointers.
    #[verifier::rlimit(40)]
    fn cut_indirect<A: BlockDevice>(
        s: &mut Storage<A>,
        device_id: u8,
        inode: &mut DiskInode,
        keep: usize,
        allocated_blocks: &mut [u32; 10],
        allocated_count: &mut usize,
        freed_blocks: &mut [u32; 10],
        freed_count: &mut usize,
    ) -> (r: Result<(), FsError>)
        requires
            old(s).wf(),
            keep <= 1024,
        ensures
            final(s).wf(),
            final(s).same_devices(old(s)),
            told(old(s), final(s), r),
            final(s).aged_at_most(old(s), 2055),
            old(s).usable(device_id) && final(s).steady_since(old(s)) && !roomy(
                old(s).vol(device_id)[BLOCK_BITMAP_BLOCK as int],
                old(s).size(device_id) as int,
                1,
            ) && r is Ok ==> overdue(final(s), device_id),
            old(s).usable(device_id) && final(s).steady_since(old(s)) && roomy(
                old(s).vol(device_id)[BLOCK_BITMAP_BLOCK as int],
                old(s).size(device_id) as int,
                1,
            ) ==> {
                let c = change_of(
                    old(s),
                    device_id,
                    *old(inode),
                    *old(allocated_blocks),
                    *old(allocated_count),
                    *old(freed_blocks),
                    *old(freed_count),
                );
                let (n, res) = c.cut_indirect(keep as int, old(s).size(device_id) as int);
                &&& r == res
                &&& n == change_of(
                    final(s),
                    device_id,
                    *final(inode),
                    *final(allocated_blocks),
                    *final(allocated_count),
                    *final(freed_blocks),
                    *final(freed_count),
                )
                &&& turned(old(s), final(s), device_id, n.v)
                &&& final(s).usable(device_id)
            },
    {
        let ghost exact = old(s).usable(device_id) && roomy(
            old(s).vol(device_id)[BLOCK_BITMAP_BLOCK as int],
            old(s).size(device_id) as int,
            1,
        );
        let ghost c0 = change_of(
            s,
            device_id,
            *inode,
            *allocated_blocks,
            *allocated_count,
            *freed_blocks,
            *freed_count,
        );
        proof {
            reveal_with_fuel(roomy, 2);
            lemma_volume_ok(s, device_id);
        }
        let was: u32 = inode.indirect_block;
        let copy: u32 = match Self::alloc_block(s, device_id) {
            Err(e) => {
                return Err(e);
            },
            Ok(lba) => lba,
        };
        note(allocated_blocks, allocated_count, copy);
        note(freed_blocks, freed_count, was);
        let ghost c1 = c0.taking_block().noting_freed(was);
        proof {
            if exact && s.steady_since(old(s)) {
                crate::fs::volume::law_taken_block_was_free(c0.v);
                assert(copy < old(s).size(device_id));
                assert(c1 =~= change_of(
                    s,
                    device_id,
                    *inode,
                    *allocated_blocks,
                    *allocated_count,
                    *freed_blocks,
                    *freed_count,
                ));
            }
        }
        let mut data: [u8; BLOCK_SIZE] = [0u8; BLOCK_SIZE];
        if let Err(e) = read_block_cached(s, device_id, was as u64, &mut data) {
            return Err(e);
        }
        let mut kept: [u8; BLOCK_SIZE] = [0u8; BLOCK_SIZE];
        let mut i: usize = 0;
        while i < 4 * keep
            invariant
                i <= 4 * keep <= 4096,
                forall|j: int| 0 <= j < 4096 ==> kept@[j] == (if j < i { data@[j] } else { 0u8 }),
            decreases 4 * keep - i,
        {
            kept[i] = data[i];
            i = i + 1;
        }
        assert(kept@ =~= kept_pointers(data@, keep as int));
        if let Err(e) = Self::drop_pointers(
            s,
            device_id,
            inode,
            &data,
            keep,
            freed_blocks,
            freed_count,
            Ghost((*allocated_blocks, *allocated_count)),
        ) {
            return Err(e);
        }
        let ghost c2 = change_of(
            s,
            device_id,
            *inode,
            *allocated_blocks,
            *allocated_count,
            *freed_blocks,
            *freed_count,
        );
        if let Err(e) = write_block_cached(s, device_id, copy as u64, &kept) {
            return Err(e);
        }
        inode.indirect_block = copy;
        proof {
            if copy >= s.size(device_id) {
                lemma_overdue(s, device_id, copy as int);
            }
            if exact && s.steady_since(old(s)) {
                let n = c2.with_volume(
                    c2.v.insert(copy as int, kept_pointers(data@, keep as int)),
                ).with_indirect(copy);
                assert(n =~= change_of(
                    s,
                    device_id,
                    *inode,
                    *allocated_blocks,
                    *allocated_count,
                    *freed_blocks,
                    *freed_count,
                ));
            }
        }
        Ok(())
    }

    /// Cuts a file to a size and gives the blocks that it does not need any more back.
    pub fn truncate<A: BlockDevice>(
        s: &mut Storage<A>,
        device_id: u8,
        inode: &mut DiskInode,
        new_size: u64,
        allocated_blocks: &mut [u32; 10],
        allocated_count: &mut usize,
        freed_blocks: &mut [u32; 10],
        freed_count: &mut usize,
    ) -> (r: Result<(), FsError>)
        requires
            old(s).wf(),
            new_size <= u64::MAX - 4095,
        ensures
            final(s).wf(),
            final(s).same_devices(old(s)),
            told(old(s), final(s), r),
            final(s).aged_at_most(old(s), 2100),
            old(s).usable(device_id) && final(s).steady_since(old(s)) && copies_pointers(
                *old(inode),
                new_size as int,
            ) && !roomy(
                old(s).vol(device_id)[BLOCK_BITMAP_BLOCK as int],
                old(s).size(device_id) as int,
                1,
            ) && r is Ok ==> overdue(final(s), device_id),
            old(s).usable(device_id) && final(s).steady_since(old(s)) && (copies_pointers(
                *old(inode),
                new_size as int,
            ) ==> roomy(
                old(s).vol(device_id)[BLOCK_BITMAP_BLOCK as int],
                old(s).size(device_id) as int,
                1,
            )) ==> {
                let c = change_of(
                    old(s),
                    device_id,
                    *old(inode),
                    *old(allocated_blocks),
                    *old(allocated_count),
                    *old(freed_blocks),
                    *old(freed_count),
                );
                let (n, res) = c.truncated(new_size, old(s).size(device_id) as int);
                &&& r == res
                &&& n == change_of(
                    final(s),
                    device_id,
                    *final(inode),
                    *final(allocated_blocks),
                    *final(allocated_count),
                    *final(freed_blocks),
                    *final(freed_count),
                )
                &&& turned(old(s), final(s), device_id, n.v)
                &&& final(s).usable(device_id)
            },
    {
        let needed: u64 = (new_size + 4095) / 4096;
        let from: usize = if needed < 18 {
            needed as usize
        } else {
            DIRECT_BLOCKS
        };
        let ghost c0 = change_of(
            s,
            device_id,
            *inode,
            *allocated_blocks,
            *allocated_count,
            *freed_blocks,
            *freed_count,
        );
        assert(c0.drop_direct(needed as int) == c0.drop_direct(from as int));
        if let Err(e) = Self::drop_direct(
            s,
            device_id,
            inode,
            from,
            freed_blocks,
            freed_count,
            Ghost((*allocated_blocks, *allocated_count)),
        ) {
            return Err(e);
        }
        if inode.indirect_block != 0 {
            if needed <= 18 {
                if let Err(e) = Self::drop_indirect(
                    s,
                    device_id,
                    inode,
                    freed_blocks,
                    freed_count,
                    Ghost((*allocated_blocks, *allocated_count)),
                ) {
                    return Err(e);
                }
            } else if needed < 1042 {
                if let Err(e) = Self::cut_indirect(
                    s,
                    device_id,
                    inode,
                    needed as usize - DIRECT_BLOCKS,
                    allocated_blocks,
                    allocated_count,
                    freed_blocks,
                    freed_count,
                ) {
                    return Err(e);
                }
            }
        }
        inode.size_bytes = new_size;
        Ok(())
    }
}

} // verus!
