//! Making volumes and taking them into use.
use crate::bytes::overwrite;
use crate::dev::registry::{registered, DeviceRegistry};
use crate::dev::types::{DeviceClass, DeviceId, BOOTSTRAP_MEM_DEVICE_ID};
use crate::fs::buf::{
    init_cache, read_block_cached, resting, sync_all_buffers, told, write_block_cached, Storage,
};
use crate::fs::dev::{zero_block, BlockDevice, MEM_DEVICE_BLOCKS};
use crate::fs::file::{empty_object, FileManager, StorageObjectTable};
use crate::fs::inode::InodeManager;
use crate::fs::journal::{record_at, recovered, recovering, target_has_bit, Journal};
use crate::fs::types::disk_inode::{empty_inode, law_sealed_inode_is_valid};
use crate::fs::types::disk_journal_block::empty_record;
use crate::fs::types::{
    lemma_superblock_bytes_determine, DiskInode, DiskJournalBlock, DiskSuperblock, FsError,
    InodeType, BLOCK_BITMAP_BLOCK, BLOCK_SIZE, DATA_BLOCK_START, INODE_BITMAP_BLOCK,
    INODE_TABLE_BLOCKS, INODE_TABLE_START, JOURNAL_BLOCK, MAX_INODES, MAX_VOLUME_BLOCKS,
    ROOT_DIR_BLOCK, ROOT_DIR_INODE, SUPERBLOCK_BLOCK, SUPERBLOCK_MAGIC,
};
use crate::fs::volume::{turned, with_inode, Volume};
use vstd::array::{spec_array_fill_for_copy_type, spec_array_update};
use vstd::prelude::*;

verus! {

/// The lock of the file system.
#[derive(Debug, PartialEq, Eq, Structural)]
pub struct FilesystemLock {
    pub lock: bool,
}

impl FilesystemLock {
    pub fn new() -> (r: Self)
        ensures
            !r.lock,
    {
        FilesystemLock { lock: false }
    }

    /// Takes the lock once it is free.
    pub fn acquire(&mut self)
        requires
            !old(self).lock,
        ensures
            final(self).lock,
    {
        self.lock = true;
    }

    pub fn release(&mut self)
        ensures
            !final(self).lock,
    {
        self.lock = false;
    }
}

/// Gives the device in memory its storage and makes it known, empties the cache and closes all
/// files.
pub fn init<A: BlockDevice>(
    s: &mut Storage<A>,
    t: &mut StorageObjectTable,
    registry: &mut DeviceRegistry,
)
    requires
        old(s).mem.total_blocks == MEM_DEVICE_BLOCKS,
        old(s).mem.blocks@.len() <= MEM_DEVICE_BLOCKS,
    ensures
        final(s).healthy(),
        final(s).usable(0),
        final(s).ata == old(s).ata,
        final(s).size(0) == MEM_DEVICE_BLOCKS,
        forall|b: int|
            (#[trigger] final(s).vol(0)[b]) == (if 0 <= b < old(s).mem.blocks@.len() {
                old(s).mem.blocks@[b]@
            } else {
                zero_block()
            }),
        final(s).next_lru_seq == 1,
        final(registry).resources == old(registry).resources,
        final(registry).devices@ == registered(
            old(registry).devices@,
            DeviceId(BOOTSTRAP_MEM_DEVICE_ID),
            DeviceClass::Storage,
        ),
        forall|i: int| 0 <= i < 32 ==> (#[trigger] final(t).slots@[i]) == empty_object(),
{
    s.mem.init_storage(registry);
    init_cache(s);
    FileManager::init(t);
}

/// The first bytes of a label, with zeros behind.
pub open spec fn label_of(label: Seq<u8>, n: int) -> [u8; 32]
    decreases n,
{
    if n <= 0 {
        spec_array_fill_for_copy_type::<u8, 32>(0)
    } else {
        spec_array_update(label_of(label, n - 1), n - 1, label[n - 1])
    }
}

/// How much of a label a superblock holds.
pub open spec fn label_len(label: Seq<u8>) -> int {
    if label.len() < 31 {
        label.len() as int
    } else {
        31
    }
}

/// The superblock of a new volume.
pub open spec fn new_superblock(total_blocks: u64, label: Seq<u8>) -> DiskSuperblock {
    DiskSuperblock {
        magic: SUPERBLOCK_MAGIC,
        version: 1,
        block_size: BLOCK_SIZE as u32,
        total_blocks,
        free_blocks: (total_blocks - DATA_BLOCK_START) as u64,
        total_inodes: MAX_INODES as u32,
        free_inodes: (MAX_INODES - 2) as u32,
        journal_block: JOURNAL_BLOCK,
        block_bitmap_block: BLOCK_BITMAP_BLOCK,
        inode_bitmap_block: INODE_BITMAP_BLOCK,
        inode_table_block: INODE_TABLE_START,
        inode_table_blocks: INODE_TABLE_BLOCKS as u32,
        root_dir_inode: ROOT_DIR_INODE,
        volume_state: 0,
        mount_count: 0,
        checksum: 0,
        _pad: 0,
        volume_label: label_of(label, label_len(label)),
    }.sealed()
}

/// The inode of the root directory of a new volume.
pub open spec fn root_inode() -> DiskInode {
    DiskInode {
        file_type: InodeType::Directory.number(),
        links_count: 1,
        blocks_count: 1,
        size_bytes: BLOCK_SIZE as u64,
        creator_pid: 1,
        direct_blocks: spec_array_update(empty_inode().direct_blocks, 0, ROOT_DIR_BLOCK as u32),
        ..empty_inode()
    }.sealed()
}

/// A new volume on a device: nothing is allocated but the blocks that every volume has, and the
/// root directory is empty. Data blocks are as they were.
pub open spec fn formatted(v: Volume, total_blocks: u64, label: Seq<u8>) -> Volume {
    Map::new(
        |b: int| true,
        |b: int|
            if b == SUPERBLOCK_BLOCK {
                overwrite(zero_block(), 0, new_superblock(total_blocks, label).bytes())
            } else if b == JOURNAL_BLOCK {
                empty_record().bytes()
            } else if b == INODE_BITMAP_BLOCK {
                zero_block().update(0, 0x03)
            } else if b == BLOCK_BITMAP_BLOCK {
                zero_block().update(0, 0xFF).update(1, 0xFF).update(2, 0x3F)
            } else if b == INODE_TABLE_START {
                overwrite(zero_block(), 256, root_inode().bytes())
            } else if 0 <= b < DATA_BLOCK_START {
                zero_block()
            } else {
                v[b]
            },
    )
}

/// Writes zeros to a range of blocks.
fn clear_blocks<A: BlockDevice>(s: &mut Storage<A>, device_id: u8, from: u64, to: u64) -> (r: Result<
    (),
    FsError,
>)
    requires
        old(s).wf(),
        from <= to <= DATA_BLOCK_START,
    ensures
        final(s).wf(),
        final(s).same_devices(old(s)),
        told(old(s), final(s), r),
        final(s).aged_at_most(old(s), to - from),
        old(s).usable(device_id) && final(s).steady_since(old(s)) ==> {
            &&& r is Ok
            &&& turned(
                old(s),
                final(s),
                device_id,
                Map::new(
                    |b: int| true,
                    |b: int|
                        if from <= b < to {
                            zero_block()
                        } else {
                            old(s).vol(device_id)[b]
                        },
                ),
            )
            &&& final(s).usable(device_id)
        },
{
    let zero: [u8; BLOCK_SIZE] = [0u8; BLOCK_SIZE];
    assert(zero@ =~= zero_block());
    let mut b: u64 = from;
    while b < to
        invariant
            from <= b <= to <= DATA_BLOCK_START,
            zero@ == zero_block(),
            s.wf(),
            s.same_devices(old(s)),
            told(old(s), s, Ok::<(), FsError>(())),
            s.aged_at_most(old(s), b - from),
            old(s).usable(device_id) && s.steady_since(old(s)) ==> {
                &&& turned(old(s), s, device_id, s.vol(device_id))
                &&& forall|n: int|
                    (#[trigger] s.vol(device_id)[n]) == (if from <= n < b {
                        zero_block()
                    } else {
                        old(s).vol(device_id)[n]
                    })
                &&& s.usable(device_id)
            },
        decreases to - b,
    {
        let ghost before = *s;
        if let Err(e) = write_block_cached(s, device_id, b, &zero) {
            return Err(e);
        }
        proof {
            if old(s).usable(device_id) && s.steady_since(old(s)) {
                assert(before.steady_since(old(s)));
                assert forall|k: u8| k != device_id implies (#[trigger] s.vol(k)) == old(s).vol(
                    k,
                ) by {
                    assert(before.vol(k) == old(s).vol(k));
                }
                assert forall|n: int|
                    (#[trigger] s.vol(device_id)[n]) == (if from <= n < b + 1 {
                        zero_block()
                    } else {
                        old(s).vol(device_id)[n]
                    }) by {
                    if n != b {
                        assert(s.vol(device_id)[n] == before.vol(device_id)[n]);
                    }
                }
            }
        }
        b = b + 1;
    }
    proof {
        if old(s).usable(device_id) && s.steady_since(old(s)) {
            assert(s.vol(device_id) =~= Map::new(
                |b: int| true,
                |b: int|
                    if from <= b < to {
                        zero_block()
                    } else {
                        old(s).vol(device_id)[b]
                    },
            ));
        }
    }
    Ok(())
}

/// The superblock of a new volume.
fn make_superblock(total_blocks: u64, label: &[u8]) -> (r: DiskSuperblock)
    requires
        DATA_BLOCK_START <= total_blocks,
    ensures
        r == new_superblock(total_blocks, label@),
{
    let mut volume_label: [u8; 32] = [0u8; 32];
    let n: usize = if label.len() < 31 {
        label.len()
    } else {
        31
    };
    let mut i: usize = 0;
    assert(volume_label =~= label_of(label@, 0));
    while i < n
        invariant
            i <= n <= 31,
            n <= label@.len(),
            volume_label == label_of(label@, i as int),
        decreases n - i,
    {
        volume_label[i] = label[i];
        assert(volume_label =~= label_of(label@, i + 1));
        i = i + 1;
    }
    let mut sb = DiskSuperblock {
        magic: SUPERBLOCK_MAGIC,
        version: 1,
        block_size: BLOCK_SIZE as u32,
        total_blocks,
        free_blocks: total_blocks - DATA_BLOCK_START,
        total_inodes: MAX_INODES as u32,
        free_inodes: (MAX_INODES - 2) as u32,
        journal_block: JOURNAL_BLOCK,
        block_bitmap_block: BLOCK_BITMAP_BLOCK,
        inode_bitmap_block: INODE_BITMAP_BLOCK,
        inode_table_block: INODE_TABLE_START,
        inode_table_blocks: INODE_TABLE_BLOCKS as u32,
        root_dir_inode: ROOT_DIR_INODE,
        volume_state: 0,
        mount_count: 0,
        checksum: 0,
        _pad: 0,
        volume_label,
    };
    sb.recompute_checksum();
    sb
}

/// The inode of the root directory.
fn make_root_inode() -> (r: DiskInode)
    ensures
        r == root_inode(),
{
    let mut root = DiskInode::empty();
    root.file_type = InodeType::Directory.code();
    root.links_count = 1;
    root.blocks_count = 1;
    root.size_bytes = BLOCK_SIZE as u64;
    root.creator_pid = 1;
    root.direct_blocks[0] = ROOT_DIR_BLOCK as u32;
    assert(root.direct_blocks =~= spec_array_update(
        empty_inode().direct_blocks,
        0,
        ROOT_DIR_BLOCK as u32,
    ));
    root.recompute_checksum();
    root
}

/// Puts a new volume on a device.
#[verifier::rlimit(60)]
#[verifier::spinoff_prover]
pub fn format_volume<A: BlockDevice>(
    s: &mut Storage<A>,
    device_id: u8,
    total_blocks: u64,
    label: &[u8],
) -> (r: Result<(), FsError>)
    requires
        old(s).wf(),
    ensures
        final(s).wf(),
        final(s).same_devices(old(s)),
        told(old(s), final(s), r),
        final(s).aged_at_most(old(s), 30),
        total_blocks > MAX_VOLUME_BLOCKS || total_blocks < 64 ==> r == Err::<(), FsError>(
            FsError::InvalidArgument,
        ) && *final(s) == *old(s),
        64 <= total_blocks <= MAX_VOLUME_BLOCKS && old(s).usable(device_id)
            && final(s).steady_since(old(s)) ==> {
            &&& r is Ok
            &&& turned(
                old(s),
                final(s),
                device_id,
                formatted(old(s).vol(device_id), total_blocks, label@),
            )
            &&& final(s).stored(device_id) == final(s).vol(device_id)
            &&& forall|b: int| #[trigger] resting(final(s), device_id, b)
            &&& final(s).usable(device_id)
        },
{
    if total_blocks > MAX_VOLUME_BLOCKS || total_blocks < 64 {
        return Err(FsError::InvalidArgument);
    }
    let ghost v = s.vol(device_id);
    let ghost exact = s.usable(device_id);
    if let Err(e) = clear_blocks(s, device_id, 0, 1) {
        return Err(e);
    }
    let ghost s1 = *s;
    let sb: DiskSuperblock = make_superblock(total_blocks, label);
    let mut raw: [u8; BLOCK_SIZE] = [0u8; BLOCK_SIZE];
    assert(raw@ =~= zero_block());
    sb.store(&mut raw);
    if let Err(e) = write_block_cached(s, device_id, SUPERBLOCK_BLOCK, &raw) {
        return Err(e);
    }
    let ghost s2 = *s;
    let record: [u8; BLOCK_SIZE] = DiskJournalBlock::empty().to_block();
    if let Err(e) = write_block_cached(s, device_id, JOURNAL_BLOCK, &record) {
        return Err(e);
    }
    let ghost s3 = *s;
    let mut inodes: [u8; BLOCK_SIZE] = [0u8; BLOCK_SIZE];
    inodes[0] = 0x03;
    assert(inodes@ =~= zero_block().update(0, 0x03));
    if let Err(e) = write_block_cached(s, device_id, INODE_BITMAP_BLOCK, &inodes) {
        return Err(e);
    }
    let ghost s4 = *s;
    let mut blocks: [u8; BLOCK_SIZE] = [0u8; BLOCK_SIZE];
    blocks[0] = 0xFF;
    blocks[1] = 0xFF;
    blocks[2] = 0x3F;
    assert(blocks@ =~= zero_block().update(0, 0xFF).update(1, 0xFF).update(2, 0x3F));
    if let Err(e) = write_block_cached(s, device_id, BLOCK_BITMAP_BLOCK, &blocks) {
        return Err(e);
    }
    let ghost s5 = *s;
    if let Err(e) = clear_blocks(
        s,
        device_id,
        INODE_TABLE_START,
        INODE_TABLE_START + INODE_TABLE_BLOCKS,
    ) {
        return Err(e);
    }
    let ghost s6 = *s;
    let root: DiskInode = make_root_inode();
    if let Err(e) = InodeManager::write_inode(s, device_id, ROOT_DIR_INODE, root) {
        return Err(e);
    }
    let ghost s7 = *s;
    if let Err(e) = clear_blocks(s, device_id, ROOT_DIR_BLOCK, ROOT_DIR_BLOCK + 1) {
        return Err(e);
    }
    let ghost s8 = *s;
    let r = sync_all_buffers(s, device_id);
    proof {
        if exact && s.steady_since(old(s)) {
            assert(root_inode().sealed() == root_inode()) by {
                law_sealed_inode_is_valid(DiskInode {
                    file_type: InodeType::Directory.number(),
                    links_count: 1,
                    blocks_count: 1,
                    size_bytes: BLOCK_SIZE as u64,
                    creator_pid: 1,
                    direct_blocks: spec_array_update(
                        empty_inode().direct_blocks,
                        0,
                        ROOT_DIR_BLOCK as u32,
                    ),
                    ..empty_inode()
                });
            }
            let w = formatted(v, total_blocks, label@);
            assert(s8.vol(device_id) =~= w) by {
                assert forall|b: int| (#[trigger] s8.vol(device_id)[b]) == w[b] by {
                    assert(s7.vol(device_id) == with_inode(
                        s6.vol(device_id),
                        ROOT_DIR_INODE as int,
                        root,
                    ));
                    if b != ROOT_DIR_BLOCK {
                        assert(s8.vol(device_id)[b] == s7.vol(device_id)[b]);
                    }
                    if b != INODE_TABLE_START {
                        assert(s7.vol(device_id)[b] == s6.vol(device_id)[b]);
                    }
                    if !(INODE_TABLE_START <= b < INODE_TABLE_START + INODE_TABLE_BLOCKS) {
                        assert(s6.vol(device_id)[b] == s5.vol(device_id)[b]);
                    }
                }
            }
            assert forall|k: u8| k != device_id implies (#[trigger] s.vol(k)) == old(s).vol(k) by {
                assert(s1.vol(k) == old(s).vol(k));
                assert(s2.vol(k) == s1.vol(k));
                assert(s3.vol(k) == s2.vol(k));
                assert(s4.vol(k) == s3.vol(k));
                assert(s5.vol(k) == s4.vol(k));
                assert(s6.vol(k) == s5.vol(k));
                assert(s7.vol(k) == s6.vol(k));
                assert(s8.vol(k) == s7.vol(k));
            }
        }
    }
    r
}

/// The superblock of a volume.
pub open spec fn superblock_at(v: Volume) -> DiskSuperblock {
    choose|sb: DiskSuperblock| #[trigger] sb.bytes() == v[SUPERBLOCK_BLOCK as int].take(128)
}

/// The superblock after the volume was taken into use.
pub open spec fn mounted_superblock(sb: DiskSuperblock) -> DiskSuperblock {
    DiskSuperblock {
        mount_count: if sb.mount_count < u32::MAX {
            (sb.mount_count + 1) as u32
        } else {
            u32::MAX
        },
        volume_state: 0,
        ..sb
    }.sealed()
}

/// What taking a volume into use answers.
pub open spec fn mounting(v: Volume) -> Result<DiskSuperblock, FsError> {
    if !superblock_at(v).valid() {
        Err(FsError::InvalidSuperblock)
    } else {
        match recovering(v) {
            Err(e) => Err(e),
            Ok(_) => Ok(mounted_superblock(superblock_at(v))),
        }
    }
}

/// A volume after it was taken into use.
pub open spec fn mounted(v: Volume) -> Volume {
    if !superblock_at(v).valid() {
        v
    } else if recovering(v) is Err {
        recovered(v)
    } else {
        recovered(v).insert(
            SUPERBLOCK_BLOCK as int,
            overwrite(
                v[SUPERBLOCK_BLOCK as int],
                0,
                mounted_superblock(superblock_at(v)).bytes(),
            ),
        )
    }
}

/// Takes a volume into use: checks the superblock, brings the volume into order after a crash and
/// counts the mount.
pub fn mount_volume<A: BlockDevice>(s: &mut Storage<A>, device_id: u8) -> (r: Result<
    DiskSuperblock,
    FsError,
>)
    requires
        old(s).wf(),
    ensures
        final(s).wf(),
        final(s).same_devices(old(s)),
        told(old(s), final(s), r),
        final(s).aged_at_most(old(s), 12),
        old(s).usable(device_id) && final(s).steady_since(old(s)) && target_has_bit(
            record_at(old(s).vol(device_id)),
        ) ==> {
            &&& r == mounting(old(s).vol(device_id))
            &&& turned(old(s), final(s), device_id, mounted(old(s).vol(device_id)))
            &&& r is Ok ==> {
                &&& final(s).stored(device_id) == final(s).vol(device_id)
                &&& forall|b: int| #[trigger] resting(final(s), device_id, b)
            }
            &&& final(s).usable(device_id)
        },
{
    let ghost v = s.vol(device_id);
    let mut raw: [u8; BLOCK_SIZE] = [0u8; BLOCK_SIZE];
    if let Err(e) = read_block_cached(s, device_id, SUPERBLOCK_BLOCK, &mut raw) {
        return Err(e);
    }
    let ghost s1 = *s;
    let mut sb: DiskSuperblock = DiskSuperblock::load(&raw);
    proof {
        if old(s).usable(device_id) && s.steady_since(old(s)) {
            lemma_superblock_bytes_determine(sb, superblock_at(v));
        }
    }
    if !sb.is_valid() {
        return Err(FsError::InvalidSuperblock);
    }
    if let Err(e) = Journal::recover(s, device_id) {
        return Err(e);
    }
    let ghost s2 = *s;
    sb.mount_count = sb.mount_count.saturating_add(1);
    sb.volume_state = 0;
    sb.recompute_checksum();
    sb.store(&mut raw);
    if let Err(e) = write_block_cached(s, device_id, SUPERBLOCK_BLOCK, &raw) {
        return Err(e);
    }
    let ghost s3 = *s;
    if let Err(e) = sync_all_buffers(s, device_id) {
        return Err(e);
    }
    proof {
        if old(s).usable(device_id) && s.steady_since(old(s)) && target_has_bit(record_at(v)) {
            assert forall|k: u8| k != device_id implies (#[trigger] s.vol(k)) == old(s).vol(k) by {
                assert(s1.vol(k) == old(s).vol(k));
                assert(s2.vol(k) == s1.vol(k));
                assert(s3.vol(k) == s2.vol(k));
            }
        }
    }
    Ok(sb)
}

} // verus!
