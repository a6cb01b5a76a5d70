//! The journal: one record that says what a change is about to do, or has done.
use crate::bytes::overwrite;
use crate::fs::buf::{
    cached, holds_out, lemma_resting, read_block_cached, resting, same_volumes, spares,
    sync_all_buffers, sync_block, told, write_block_cached, Storage,
};
use crate::fs::dev::{torn, BlockDevice};
use crate::fs::inode::is_inode_number;
use crate::fs::types::disk_journal_block::{empty_record, lemma_record_bytes_determine};
use crate::fs::types::{
    DiskInode, DiskJournalBlock, FsError, JournalOpType, JournalState, BLOCK_BITMAP_BLOCK,
    BLOCK_SIZE, DATA_BLOCK_START, DIR_ENTRIES_PER_BLOCK, INODES_PER_BLOCK, INODE_BITMAP_BLOCK,
    INODE_TABLE_START, JOURNAL_BLOCK, JOURNAL_MAGIC, MAX_INODES, MAX_VOLUME_BLOCKS,
    ROOT_DIR_BLOCK,
};
use crate::fs::volume::{
    clear_bit, is_data_block, set_bit, turned, with_bit, with_inode, without_bit, Volume,
};
use vstd::prelude::*;

verus! {

/// Operations on the journal.
pub struct Journal;

/// The record in the journal.
pub open spec fn record_at(v: Volume) -> DiskJournalBlock {
    choose|j: DiskJournalBlock| j.bytes() == v[JOURNAL_BLOCK as int]
}

/// A record with the right bytes is the one that is stored.
pub proof fn lemma_record_at(v: Volume, j: DiskJournalBlock)
    requires
        j.bytes() == v[JOURNAL_BLOCK as int],
    ensures
        record_at(v) == j,
{
    lemma_record_bytes_determine(record_at(v), j);
}

/// The volume after a record was stored.
pub open spec fn with_record(v: Volume, j: DiskJournalBlock) -> Volume {
    v.insert(JOURNAL_BLOCK as int, j.bytes())
}

/// The record that says that nothing is going on.
pub open spec fn cleared_record(seq: u64) -> DiskJournalBlock {
    (DiskJournalBlock { sequence: seq, ..empty_record() }).sealed()
}

/// A record is in the journal of a device, in the cache and on the device itself, where it would
/// survive a loss of power.
pub open spec fn record_in_place<A: BlockDevice>(
    s: &Storage<A>,
    id: u8,
    j: DiskJournalBlock,
) -> bool {
    &&& cached(s, id, JOURNAL_BLOCK as int)
    &&& s.vol(id)[JOURNAL_BLOCK as int] == j.bytes()
    &&& s.stored(id)[JOURNAL_BLOCK as int] == j.bytes()
    &&& s.kept(id)[JOURNAL_BLOCK as int] == j.bytes()
    &&& resting(s, id, JOURNAL_BLOCK as int)
}

/// Storing a record leaves other blocks at rest. Of the journal, if it was at rest, every byte
/// that would survive is the old one or the new one, whatever became of the record.
pub open spec fn record_stored<A: BlockDevice>(
    before: &Storage<A>,
    after: &Storage<A>,
    id: u8,
    j: DiskJournalBlock,
) -> bool {
    &&& forall|b: int|
        #![trigger spares(before, after, id, b)]
        #![trigger resting(before, id, b)]
        b != JOURNAL_BLOCK ==> spares(before, after, id, b)
    &&& resting(before, id, JOURNAL_BLOCK as int) ==> torn(
        after.kept(id)[JOURNAL_BLOCK as int],
        before.stored(id)[JOURNAL_BLOCK as int],
        j.bytes(),
    )
}

/// How many entries of a list count.
pub open spec fn listed(n: u32) -> int {
    if n < 10 {
        n as int
    } else {
        10
    }
}

/// The bitmap with the bits of the first `n` blocks of a list set, those of data blocks only.
pub open spec fn all_set(bm: Seq<u8>, list: Seq<u32>, n: int) -> Seq<u8>
    decreases n,
{
    if n <= 0 {
        bm
    } else {
        let m = all_set(bm, list, n - 1);
        if is_data_block(list[n - 1] as int) {
            with_bit(m, list[n - 1] as int)
        } else {
            m
        }
    }
}

/// The bitmap with the bits of the first `n` blocks of a list cleared, those of data blocks only.
pub open spec fn all_cleared(bm: Seq<u8>, list: Seq<u32>, n: int) -> Seq<u8>
    decreases n,
{
    if n <= 0 {
        bm
    } else {
        let m = all_cleared(bm, list, n - 1);
        if is_data_block(list[n - 1] as int) {
            without_bit(m, list[n - 1] as int)
        } else {
            m
        }
    }
}

/// The inode of the record is put back or installed.
pub open spec fn with_image(v: Volume, j: DiskJournalBlock, image: DiskInode) -> Volume {
    if is_inode_number(j.target_inode_num) {
        with_inode(v, j.target_inode_num as int, image)
    } else {
        v
    }
}

/// What undoing a change leaves: the old inode, and the blocks and the inode that were handed out
/// for it free again.
pub open spec fn rolled_back(v: Volume, j: DiskJournalBlock) -> Volume {
    let v1 = with_image(v, j, j.old_inode_image);
    let v2 = if j.allocated_blocks_count > 0 {
        v1.insert(
            BLOCK_BITMAP_BLOCK as int,
            all_cleared(
                v1[BLOCK_BITMAP_BLOCK as int],
                j.allocated_blocks@,
                listed(j.allocated_blocks_count),
            ),
        )
    } else {
        v1
    };
    if j.op_type == JournalOpType::Create.number() && j.target_inode_num != 0 {
        v2.insert(
            INODE_BITMAP_BLOCK as int,
            without_bit(v2[INODE_BITMAP_BLOCK as int], j.target_inode_num as int),
        )
    } else {
        v2
    }
}

/// The directory entry of the record is installed.
pub open spec fn with_recorded_entry(v: Volume, j: DiskJournalBlock) -> Volume {
    if j.dir_entry_slot < DIR_ENTRIES_PER_BLOCK {
        v.insert(
            ROOT_DIR_BLOCK as int,
            overwrite(
                v[ROOT_DIR_BLOCK as int],
                j.dir_entry_slot * 64,
                j.dir_entry_copy.bytes(),
            ),
        )
    } else {
        v
    }
}

/// The bitmap of blocks after a change.
pub open spec fn blocks_after(bm: Seq<u8>, j: DiskJournalBlock) -> Seq<u8> {
    all_cleared(
        all_set(bm, j.allocated_blocks@, listed(j.allocated_blocks_count)),
        j.freed_blocks@,
        listed(j.freed_blocks_count),
    )
}

/// The bitmap of inodes after a change.
pub open spec fn inodes_after(bm: Seq<u8>, j: DiskJournalBlock) -> Seq<u8> {
    if !is_inode_number(j.target_inode_num) {
        bm
    } else if j.op_type == JournalOpType::Create.number() {
        with_bit(bm, j.target_inode_num as int)
    } else if j.op_type == JournalOpType::Delete.number() {
        without_bit(bm, j.target_inode_num as int)
    } else {
        bm
    }
}

/// What completing a change leaves: the new inode, the directory entry, and the bitmaps as the
/// record says.
pub open spec fn rolled_forward(v: Volume, j: DiskJournalBlock) -> Volume {
    let v1 = with_recorded_entry(with_image(v, j, j.new_inode_image), j);
    let v2 = v1.insert(BLOCK_BITMAP_BLOCK as int, blocks_after(v1[BLOCK_BITMAP_BLOCK as int], j));
    if is_inode_number(j.target_inode_num) {
        v2.insert(INODE_BITMAP_BLOCK as int, inodes_after(v2[INODE_BITMAP_BLOCK as int], j))
    } else {
        v2
    }
}

/// The record can be trusted.
pub open spec fn is_sound(j: DiskJournalBlock) -> bool {
    j.magic == JOURNAL_MAGIC && j.checksum == j.crc()
}

/// What recovery answers.
pub open spec fn recovering(v: Volume) -> Result<(), FsError> {
    let j = record_at(v);
    if j.state == JournalState::Free.number() {
        Ok(())
    } else if !is_sound(j) || j.state > 2 {
        Err(FsError::CorruptJournal)
    } else {
        Ok(())
    }
}

/// What recovery leaves.
pub open spec fn recovered(v: Volume) -> Volume {
    let j = record_at(v);
    if j.state == JournalState::Free.number() || recovering(v) is Err {
        v
    } else if j.state == JournalState::Intent.number() {
        with_record(rolled_back(v, j), cleared_record(j.sequence))
    } else {
        with_record(rolled_forward(v, j), cleared_record(j.sequence))
    }
}

/// What a device would hold of a volume after recovery, wherever it ended: while the record is
/// there, recovery can begin again, and before it goes, all that it stands for is there.
pub open spec fn recovery_fate(v: Volume, kept: Volume) -> bool {
    let j = record_at(v);
    ||| kept[JOURNAL_BLOCK as int] == v[JOURNAL_BLOCK as int]
    ||| {
        &&& recovering(v) is Ok
        &&& torn(
            kept[JOURNAL_BLOCK as int],
            v[JOURNAL_BLOCK as int],
            cleared_record(j.sequence).bytes(),
        )
        &&& forall|b: int| b != JOURNAL_BLOCK ==> (#[trigger] kept[b]) == recovered(v)[b]
    }
}

/// An undone creation names an inode that the bitmap has a bit for.
pub open spec fn target_has_bit(j: DiskJournalBlock) -> bool {
    j.state == JournalState::Intent.number() && j.op_type == JournalOpType::Create.number()
        ==> j.target_inode_num < 32768
}

/// Sets or clears the bits of the data blocks in a list.
pub fn mark_all(bm: &mut [u8; BLOCK_SIZE], list: &[u32; 10], n: u32, set: bool)
    ensures
        final(bm)@ == (if set {
            all_set(old(bm)@, list@, listed(n))
        } else {
            all_cleared(old(bm)@, list@, listed(n))
        }),
{
    let count: usize = if n < 10 {
        n as usize
    } else {
        10
    };
    let mut i: usize = 0;
    while i < count
        invariant
            i <= count <= 10,
            count == listed(n),
            bm@ == (if set {
                all_set(old(bm)@, list@, i as int)
            } else {
                all_cleared(old(bm)@, list@, i as int)
            }),
        decreases count - i,
    {
        let lba: u32 = list[i];
        if lba >= DATA_BLOCK_START as u32 && (lba as u64) < MAX_VOLUME_BLOCKS {
            if set {
                set_bit(bm, lba as usize);
            } else {
                clear_bit(bm, lba as usize);
            }
        }
        i = i + 1;
    }
}

impl Journal {
    /// Reads the record.
    pub fn read_journal_block<A: BlockDevice>(s: &mut Storage<A>, device_id: u8) -> (r: Result<
        DiskJournalBlock,
        FsError,
    >)
        requires
            old(s).wf(),
        ensures
            final(s).wf(),
            final(s).same_devices(old(s)),
            told(old(s), final(s), r),
            forall|b: int|
                #![trigger spares(old(s), final(s), device_id, b)]
                #![trigger resting(old(s), device_id, b)]
                spares(old(s), final(s), device_id, b),
            final(s).aged_at_most(old(s), 1),
            r is Ok ==> r->Ok_0.bytes() == final(s).vol(device_id)[JOURNAL_BLOCK as int],
            cached(old(s), device_id, JOURNAL_BLOCK as int) ==> {
                &&& r == Ok::<DiskJournalBlock, FsError>(record_at(old(s).vol(device_id)))
                &&& same_volumes(final(s), old(s))
                &&& final(s).mem == old(s).mem
                &&& final(s).ata == old(s).ata
            },
            old(s).usable(device_id) && final(s).steady_since(old(s)) ==> {
                &&& r == Ok::<DiskJournalBlock, FsError>(record_at(old(s).vol(device_id)))
                &&& r->Ok_0.bytes() == old(s).vol(device_id)[JOURNAL_BLOCK as int]
                &&& turned(old(s), final(s), device_id, old(s).vol(device_id))
                &&& final(s).usable(device_id)
            },
    {
        let mut raw: [u8; BLOCK_SIZE] = [0u8; BLOCK_SIZE];
        if let Err(e) = read_block_cached(s, device_id, JOURNAL_BLOCK, &mut raw) {
            return Err(e);
        }
        let j = DiskJournalBlock::load(&raw);
        proof {
            if cached(old(s), device_id, JOURNAL_BLOCK as int) || (old(s).usable(device_id)
                && s.steady_since(old(s))) {
                lemma_record_at(old(s).vol(device_id), j);
            }
        }
        Ok(j)
    }

    /// Stores a record with the right checksum. It is on the device when this returns.
    pub fn write_journal_block<A: BlockDevice>(
        s: &mut Storage<A>,
        device_id: u8,
        jrn: DiskJournalBlock,
    ) -> (r: Result<(), FsError>)
        requires
            old(s).wf(),
        ensures
            final(s).wf(),
            final(s).same_devices(old(s)),
            holds_out(old(s), final(s), device_id, r),
            told(old(s), final(s), r),
            final(s).aged_at_most(old(s), 1),
            r is Ok ==> record_in_place(final(s), device_id, jrn.sealed()),
            record_stored(old(s), final(s), device_id, jrn.sealed()),
            old(s).usable(device_id) && final(s).steady_since(old(s)) ==> {
                &&& r is Ok
                &&& turned(
                    old(s),
                    final(s),
                    device_id,
                    with_record(old(s).vol(device_id), jrn.sealed()),
                )
                &&& final(s).stored(device_id)[JOURNAL_BLOCK as int] == jrn.sealed().bytes()
                &&& forall|b: int|
                    b != JOURNAL_BLOCK ==> (#[trigger] final(s).stored(device_id)[b]) == old(
                        s,
                    ).stored(device_id)[b] || final(s).stored(device_id)[b] == old(s).vol(
                        device_id,
                    )[b]
                &&& final(s).usable(device_id)
            },
    {
        let mut sealed: DiskJournalBlock = jrn;
        sealed.recompute_checksum();
        let raw: [u8; BLOCK_SIZE] = sealed.to_block();
        let w = write_block_cached(s, device_id, JOURNAL_BLOCK, &raw);
        let ghost written = *s;
        proof {
            if resting(old(s), device_id, JOURNAL_BLOCK as int) {
                lemma_resting(old(s), device_id, JOURNAL_BLOCK as int);
            }
        }
        if let Err(e) = w {
            return Err(e);
        }
        let r = sync_block(s, device_id, JOURNAL_BLOCK);
        proof {
            assert forall|b: int| b != JOURNAL_BLOCK implies #[trigger] spares(
                old(s),
                s,
                device_id,
                b,
            ) by {
                assert(spares(old(s), &written, device_id, b) && spares(&written, s, device_id, b));
            }
            if r is Ok {
                lemma_resting(s, device_id, JOURNAL_BLOCK as int);
            }
            if old(s).usable(device_id) && s.steady_since(old(s)) {
                assert forall|k: u8| k != device_id implies (#[trigger] s.vol(k)) == old(s).vol(
                    k,
                ) by {
                    assert(s.vol(k) == written.vol(k));
                }
                assert forall|b: int| b != JOURNAL_BLOCK implies (#[trigger] s.stored(device_id)[b])
                    == old(s).stored(device_id)[b] || s.stored(device_id)[b] == old(s).vol(
                    device_id,
                )[b] by {
                    assert(written.vol(device_id)[b] == old(s).vol(device_id)[b]);
                    assert(written.stored(device_id)[b] == old(s).stored(device_id)[b]
                        || written.stored(device_id)[b] == old(s).block(device_id, b));
                }
            }
        }
        r
    }

    /// Stores the record that says that nothing is going on.
    pub fn clear<A: BlockDevice>(s: &mut Storage<A>, device_id: u8, seq: u64) -> (r: Result<
        (),
        FsError,
    >)
        requires
            old(s).wf(),
        ensures
            final(s).wf(),
            final(s).same_devices(old(s)),
            told(old(s), final(s), r),
            final(s).aged_at_most(old(s), 1),
            r is Ok ==> record_in_place(final(s), device_id, cleared_record(seq)),
            record_stored(old(s), final(s), device_id, cleared_record(seq)),
            old(s).usable(device_id) && final(s).steady_since(old(s)) ==> {
                &&& r is Ok
                &&& turned(
                    old(s),
                    final(s),
                    device_id,
                    with_record(old(s).vol(device_id), cleared_record(seq)),
                )
                &&& final(s).stored(device_id)[JOURNAL_BLOCK as int] == cleared_record(
                    seq,
                ).bytes()
                &&& forall|b: int|
                    b != JOURNAL_BLOCK ==> (#[trigger] final(s).stored(device_id)[b]) == old(
                        s,
                    ).stored(device_id)[b] || final(s).stored(device_id)[b] == old(s).vol(
                        device_id,
                    )[b]
                &&& final(s).usable(device_id)
            },
    {
        let mut empty: DiskJournalBlock = DiskJournalBlock::empty();
        empty.sequence = seq;
        Self::write_journal_block(s, device_id, empty)
    }

    /// Stores an image in the inode table.
    fn store_image<A: BlockDevice>(
        s: &mut Storage<A>,
        device_id: u8,
        inode_num: u32,
        image: &DiskInode,
    ) -> (r: Result<(), FsError>)
        requires
            old(s).wf(),
            is_inode_number(inode_num),
        ensures
            final(s).wf(),
            final(s).same_devices(old(s)),
            told(old(s), final(s), r),
            forall|b: int|
                #![trigger spares(old(s), final(s), device_id, b)]
                #![trigger resting(old(s), device_id, b)]
                b < INODE_TABLE_START ==> spares(old(s), final(s), device_id, b),
            final(s).aged_at_most(old(s), 2),
            old(s).usable(device_id) && final(s).steady_since(old(s)) ==> {
                &&& r is Ok
                &&& turned(
                    old(s),
                    final(s),
                    device_id,
                    with_inode(old(s).vol(device_id), inode_num as int, *image),
                )
                &&& final(s).usable(device_id)
            },
    {
        let n: usize = inode_num as usize;
        let block_idx: u64 = INODE_TABLE_START + (n / INODES_PER_BLOCK) as u64;
        let mut raw: [u8; BLOCK_SIZE] = [0u8; BLOCK_SIZE];
        if let Err(e) = read_block_cached(s, device_id, block_idx, &mut raw) {
            return Err(e);
        }
        image.store(&mut raw, (n % INODES_PER_BLOCK) * 256);
        write_block_cached(s, device_id, block_idx, &raw)
    }

    /// Undoes a change that was not completed.
    #[verifier::rlimit(40)]
    #[verifier::spinoff_prover]
    fn rollback_transaction<A: BlockDevice>(
        s: &mut Storage<A>,
        device_id: u8,
        jrn: &DiskJournalBlock,
    ) -> (r: Result<(), FsError>)
        requires
            old(s).wf(),
        ensures
            final(s).wf(),
            final(s).same_devices(old(s)),
            told(old(s), final(s), r),
            spares(old(s), final(s), device_id, JOURNAL_BLOCK as int),
            final(s).aged_at_most(old(s), 6),
            old(s).usable(device_id) && final(s).steady_since(old(s)) && (jrn.op_type
                == JournalOpType::Create.number() ==> jrn.target_inode_num < 32768) ==> {
                &&& r is Ok
                &&& turned(
                    old(s),
                    final(s),
                    device_id,
                    rolled_back(old(s).vol(device_id), *jrn),
                )
                &&& final(s).usable(device_id)
            },
    {
        if jrn.target_inode_num != 0 && jrn.target_inode_num < MAX_INODES as u32 {
            if let Err(e) = Self::store_image(
                s,
                device_id,
                jrn.target_inode_num,
                &jrn.old_inode_image,
            ) {
                return Err(e);
            }
        }
        if jrn.allocated_blocks_count > 0 {
            let mut bm: [u8; BLOCK_SIZE] = [0u8; BLOCK_SIZE];
            if let Err(e) = read_block_cached(s, device_id, BLOCK_BITMAP_BLOCK, &mut bm) {
                return Err(e);
            }
            mark_all(&mut bm, &jrn.allocated_blocks, jrn.allocated_blocks_count, false);
            if let Err(e) = write_block_cached(s, device_id, BLOCK_BITMAP_BLOCK, &bm) {
                return Err(e);
            }
        }
        if jrn.op_type == JournalOpType::Create.code() && jrn.target_inode_num != 0 {
            let mut bm: [u8; BLOCK_SIZE] = [0u8; BLOCK_SIZE];
            if let Err(e) = read_block_cached(s, device_id, INODE_BITMAP_BLOCK, &mut bm) {
                return Err(e);
            }
            if jrn.target_inode_num >= 32768 {
                return Err(FsError::CorruptJournal);
            }
            clear_bit(&mut bm, jrn.target_inode_num as usize);
            if let Err(e) = write_block_cached(s, device_id, INODE_BITMAP_BLOCK, &bm) {
                return Err(e);
            }
        }
        Ok(())
    }

    /// Completes a change.
    #[verifier::rlimit(40)]
    #[verifier::spinoff_prover]
    fn rollforward_transaction<A: BlockDevice>(
        s: &mut Storage<A>,
        device_id: u8,
        jrn: &DiskJournalBlock,
    ) -> (r: Result<(), FsError>)
        requires
            old(s).wf(),
        ensures
            final(s).wf(),
            final(s).same_devices(old(s)),
            told(old(s), final(s), r),
            spares(old(s), final(s), device_id, JOURNAL_BLOCK as int),
            final(s).aged_at_most(old(s), 8),
            old(s).usable(device_id) && final(s).steady_since(old(s)) ==> {
                &&& r is Ok
                &&& turned(
                    old(s),
                    final(s),
                    device_id,
                    rolled_forward(old(s).vol(device_id), *jrn),
                )
                &&& final(s).usable(device_id)
            },
    {
        if jrn.target_inode_num != 0 && jrn.target_inode_num < MAX_INODES as u32 {
            if let Err(e) = Self::store_image(
                s,
                device_id,
                jrn.target_inode_num,
                &jrn.new_inode_image,
            ) {
                return Err(e);
            }
        }
        if jrn.dir_entry_slot != 0xFFFF_FFFF {
            if (jrn.dir_entry_slot as u64) < DIR_ENTRIES_PER_BLOCK as u64 {
                let slot: usize = jrn.dir_entry_slot as usize;
                let mut raw: [u8; BLOCK_SIZE] = [0u8; BLOCK_SIZE];
                if let Err(e) = read_block_cached(s, device_id, ROOT_DIR_BLOCK, &mut raw) {
                    return Err(e);
                }
                jrn.dir_entry_copy.store(&mut raw, slot * 64);
                if let Err(e) = write_block_cached(s, device_id, ROOT_DIR_BLOCK, &raw) {
                    return Err(e);
                }
            }
        }
        let mut bm: [u8; BLOCK_SIZE] = [0u8; BLOCK_SIZE];
        if let Err(e) = read_block_cached(s, device_id, BLOCK_BITMAP_BLOCK, &mut bm) {
            return Err(e);
        }
        mark_all(&mut bm, &jrn.allocated_blocks, jrn.allocated_blocks_count, true);
        mark_all(&mut bm, &jrn.freed_blocks, jrn.freed_blocks_count, false);
        if let Err(e) = write_block_cached(s, device_id, BLOCK_BITMAP_BLOCK, &bm) {
            return Err(e);
        }
        if jrn.target_inode_num != 0 && jrn.target_inode_num < MAX_INODES as u32 {
            let mut im: [u8; BLOCK_SIZE] = [0u8; BLOCK_SIZE];
            if let Err(e) = read_block_cached(s, device_id, INODE_BITMAP_BLOCK, &mut im) {
                return Err(e);
            }
            if jrn.op_type == JournalOpType::Create.code() {
                set_bit(&mut im, jrn.target_inode_num as usize);
            } else if jrn.op_type == JournalOpType::Delete.code() {
                clear_bit(&mut im, jrn.target_inode_num as usize);
            }
            if let Err(e) = write_block_cached(s, device_id, INODE_BITMAP_BLOCK, &im) {
                return Err(e);
            }
        }
        Ok(())
    }

    /// Brings a volume into order after a crash: a change that was announced is undone, one that
    /// was committed is completed. All of that is on the device before the record is cleared. A
    /// record that cannot be trusted is refused.
    pub fn recover<A: BlockDevice>(s: &mut Storage<A>, device_id: u8) -> (r: Result<(), FsError>)
        requires
            old(s).wf(),
        ensures
            final(s).wf(),
            final(s).same_devices(old(s)),
            told(old(s), final(s), r),
            final(s).aged_at_most(old(s), 10),
            cached(old(s), device_id, JOURNAL_BLOCK as int) && record_at(
                old(s).vol(device_id),
            ).state == JournalState::Free.number() ==> {
                &&& r is Ok
                &&& same_volumes(final(s), old(s))
                &&& final(s).mem == old(s).mem
                &&& final(s).ata == old(s).ata
            },
            old(s).usable(device_id) && final(s).steady_since(old(s)) && target_has_bit(
                record_at(old(s).vol(device_id)),
            ) ==> {
                &&& r == recovering(old(s).vol(device_id))
                &&& turned(old(s), final(s), device_id, recovered(old(s).vol(device_id)))
                &&& r is Ok && record_at(old(s).vol(device_id)).state != 0 ==> {
                    &&& final(s).stored(device_id) == final(s).vol(device_id)
                    &&& forall|b: int| #[trigger] resting(final(s), device_id, b)
                }
                &&& final(s).usable(device_id)
            },
            old(s).usable(device_id) && final(s).next_lru_seq < u64::MAX && target_has_bit(
                record_at(old(s).vol(device_id)),
            ) && resting(old(s), device_id, JOURNAL_BLOCK as int) ==> recovery_fate(
                old(s).vol(device_id),
                final(s).kept(device_id),
            ),
    {
        let ghost v = s.vol(device_id);
        let ghost before = *s;
        proof {
            if resting(&before, device_id, JOURNAL_BLOCK as int) {
                lemma_resting(&before, device_id, JOURNAL_BLOCK as int);
            }
        }
        let got = Self::read_journal_block(s, device_id);
        let ghost read = *s;
        proof {
            if resting(&before, device_id, JOURNAL_BLOCK as int) {
                lemma_resting(s, device_id, JOURNAL_BLOCK as int);
            }
        }
        let jrn = match got {
            Err(e) => {
                return Err(e);
            },
            Ok(j) => j,
        };
        if jrn.state == JournalState::Free.code() {
            return Ok(());
        }
        if jrn.magic != JOURNAL_MAGIC || !jrn.is_valid_checksum() {
            return Err(FsError::CorruptJournal);
        }
        if jrn.state == JournalState::Intent.code() {
            let res = Self::rollback_transaction(s, device_id, &jrn);
            proof {
                if resting(&before, device_id, JOURNAL_BLOCK as int) {
                    lemma_resting(s, device_id, JOURNAL_BLOCK as int);
                }
            }
            if let Err(e) = res {
                return Err(e);
            }
        } else if jrn.state == JournalState::Committed.code() {
            let res = Self::rollforward_transaction(s, device_id, &jrn);
            proof {
                if resting(&before, device_id, JOURNAL_BLOCK as int) {
                    lemma_resting(s, device_id, JOURNAL_BLOCK as int);
                }
            }
            if let Err(e) = res {
                return Err(e);
            }
        } else {
            return Err(FsError::CorruptJournal);
        }
        let ghost done = *s;
        let res = sync_all_buffers(s, device_id);
        let ghost synced = *s;
        proof {
            if resting(&before, device_id, JOURNAL_BLOCK as int) {
                lemma_resting(s, device_id, JOURNAL_BLOCK as int);
            }
        }
        if let Err(e) = res {
            return Err(e);
        }
        let r = Self::clear(s, device_id, jrn.sequence);
        proof {
            if old(s).usable(device_id) && s.next_lru_seq < u64::MAX && target_has_bit(
                record_at(v),
            ) {
                assert(read.steady_since(old(s)) && synced.steady_since(old(s)));
                assert(jrn == record_at(v) && recovering(v) is Ok);
                assert(synced.vol(device_id) == done.vol(device_id));
                assert forall|b: int| b != JOURNAL_BLOCK implies #[trigger] resting(s, device_id, b)
                    && s.kept(device_id)[b] == recovered(v)[b] by {
                    assert(resting(&synced, device_id, b));
                    lemma_resting(&synced, device_id, b);
                    assert(spares(&synced, s, device_id, b));
                    lemma_resting(s, device_id, b);
                }
                assert forall|b: int| b != JOURNAL_BLOCK implies (#[trigger] s.kept(device_id)[b])
                    == recovered(v)[b] by {
                    assert(resting(s, device_id, b));
                }
            }
            if old(s).usable(device_id) && s.steady_since(old(s)) && target_has_bit(
                record_at(old(s).vol(device_id)),
            ) {
                assert forall|k: u8| k != device_id implies (#[trigger] s.vol(k)) == old(s).vol(
                    k,
                ) by {
                    assert(s.vol(k) == synced.vol(k));
                    assert(synced.vol(k) == done.vol(k));
                }
                assert forall|b: int| #[trigger] resting(s, device_id, b) by {
                    if b == JOURNAL_BLOCK {
                        assert(record_in_place(s, device_id, cleared_record(jrn.sequence)));
                    }
                }
                assert(s.vol(device_id) == recovered(v));
                assert(s.stored(device_id) =~= s.vol(device_id)) by {
                    assert forall|b: int| (#[trigger] s.stored(device_id)[b]) == s.vol(
                        device_id,
                    )[b] by {
                        if b != JOURNAL_BLOCK {
                            assert(resting(s, device_id, b));
                            lemma_resting(s, device_id, b);
                        }
                    }
                }
            }
        }
        match r {
            Err(e) => Err(e),
            Ok(_) => Ok(()),
        }
    }
}

} // verus!
