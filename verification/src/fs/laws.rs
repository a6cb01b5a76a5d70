//! What holds of volumes, directories and the journal.
use crate::bytes::byte_of;
use crate::fs::buf::{lemma_resting, resting, Storage};
use crate::fs::dev::{torn, BlockDevice};
use crate::fs::dir::{
    dir_block, entry_at, first_called, first_unused, insert_fault, is_called, is_entry_for,
    is_name, law_entry_is_read_back, lemma_entry_at, looking_up, named_type, with_entry,
};
use crate::fs::inode::{fresh_change, is_inode_number, reading};
use crate::fs::journal::{
    all_cleared, all_set, blocks_after, cleared_record, inodes_after, is_sound, lemma_record_at,
    listed, record_at, record_in_place, recovered, recovering, rolled_back, rolled_forward, target_has_bit,
    with_image, with_recorded_entry,
};
use crate::fs::mount::{formatted, mounted, mounting, new_superblock, root_inode, superblock_at};
use crate::fs::file::{block_of, file_byte, is_readable};
use crate::fs::transaction::{
    data_kept, first_piece, grown, piece_fate, piece_fits, piece_record, piece_written, pieces_fit,
    write_fate, write_record,
};
use crate::fs::write_laws::{
    file_ok, in_use, lba_of, lemma_block_of, lemma_piece, lemma_piece_bytes,
    lemma_touched_is_logical, touched,
};
use crate::fs::types::disk_dir_entry::empty_entry;
use crate::fs::types::disk_inode::law_sealed_inode_is_valid;
use crate::fs::types::disk_journal_block::{empty_record, law_sealed_record_is_valid};
use crate::fs::types::{
    law_sealed_superblock_is_valid, lemma_superblock_bytes_determine, DiskDirEntry, DiskInode,
    DiskJournalBlock, DiskSuperblock, FsError, InodeType, JournalOpType, JournalState,
    BLOCK_BITMAP_BLOCK, BLOCK_SIZE, DIR_ENTRIES_PER_BLOCK, INODE_BITMAP_BLOCK, JOURNAL_BLOCK,
    MAX_VOLUME_BLOCKS, ROOT_DIR_BLOCK, ROOT_DIR_INODE, SUPERBLOCK_BLOCK,
};
use crate::fs::volume::{
    bit, inode_at, inode_block, inode_bytes, is_data_block, law_bits, law_inode_is_read_back,
    lemma_inode_at, volume_ok, without_bit, Volume,
};
use vstd::prelude::*;

verus! {

/// A data block is among the first `n` of a list.
pub open spec fn names(list: Seq<u32>, n: int, b: int) -> bool {
    exists|k: int| 0 <= k < n && (#[trigger] list[k]) == b
}

/// Setting the bits of a list sets those of its data blocks and no others.
pub proof fn law_all_set(bm: Seq<u8>, list: Seq<u32>, n: int, b: int)
    requires
        bm.len() == BLOCK_SIZE,
        0 <= n <= list.len(),
        0 <= b < 32768,
    ensures
        bit(all_set(bm, list, n), b) == (bit(bm, b) || (is_data_block(b) && names(list, n, b))),
        all_set(bm, list, n).len() == BLOCK_SIZE,
    decreases n,
{
    if n > 0 {
        law_all_set(bm, list, n - 1, b);
        let m = all_set(bm, list, n - 1);
        let x = list[n - 1] as int;
        if is_data_block(x) {
            law_bits(m, x, b);
        }
        if names(list, n, b) && x != b {
            let k = choose|k: int| 0 <= k < n && (#[trigger] list[k]) == b;
            assert(k != n - 1);
            assert(names(list, n - 1, b));
        }
        if names(list, n - 1, b) {
            let k = choose|k: int| 0 <= k < n - 1 && (#[trigger] list[k]) == b;
            assert(list[k] == b);
        }
        assert(x == b ==> names(list, n, b));
    }
}

/// Clearing the bits of a list clears those of its data blocks and no others.
pub proof fn law_all_cleared(bm: Seq<u8>, list: Seq<u32>, n: int, b: int)
    requires
        bm.len() == BLOCK_SIZE,
        0 <= n <= list.len(),
        0 <= b < 32768,
    ensures
        bit(all_cleared(bm, list, n), b) == (bit(bm, b) && !(is_data_block(b) && names(
            list,
            n,
            b,
        ))),
        all_cleared(bm, list, n).len() == BLOCK_SIZE,
    decreases n,
{
    if n > 0 {
        law_all_cleared(bm, list, n - 1, b);
        let m = all_cleared(bm, list, n - 1);
        let x = list[n - 1] as int;
        if is_data_block(x) {
            law_bits(m, x, b);
        }
        if names(list, n, b) && x != b {
            let k = choose|k: int| 0 <= k < n && (#[trigger] list[k]) == b;
            assert(k != n - 1);
            assert(names(list, n - 1, b));
        }
        if names(list, n - 1, b) {
            let k = choose|k: int| 0 <= k < n - 1 && (#[trigger] list[k]) == b;
            assert(list[k] == b);
        }
        assert(x == b ==> names(list, n, b));
    }
}

/// Recovery after a change that was announced only: the file has its old inode, the blocks that
/// were handed out for it are free, the bits of other blocks are as they were, and the journal is
/// clear.
pub proof fn law_announced_change_is_undone(v: Volume, b: int)
    requires
        volume_ok(v),
        is_sound(record_at(v)),
        record_at(v).state == JournalState::Intent.number(),
        record_at(v).op_type != JournalOpType::Create.number(),
        0 <= b < 32768,
    ensures
        ({
            let j = record_at(v);
            let w = recovered(v);
            &&& recovering(v) is Ok
            &&& is_inode_number(j.target_inode_num) ==> inode_at(w, j.target_inode_num as int)
                == j.old_inode_image
            &&& bit(w[BLOCK_BITMAP_BLOCK as int], b) == (bit(v[BLOCK_BITMAP_BLOCK as int], b) && !(
            is_data_block(b) && names(
                j.allocated_blocks@,
                listed(j.allocated_blocks_count),
                b,
            )))
            &&& record_at(w) == cleared_record(j.sequence)
        }),
{
    let j = record_at(v);
    let w = recovered(v);
    lemma_record_at(w, cleared_record(j.sequence));
    law_all_cleared(
        v[BLOCK_BITMAP_BLOCK as int],
        j.allocated_blocks@,
        listed(j.allocated_blocks_count),
        b,
    );
    if is_inode_number(j.target_inode_num) {
        let n = j.target_inode_num as int;
        law_inode_is_read_back(v, n, j.old_inode_image, n);
        let v1 = with_image(v, j, j.old_inode_image);
        assert(v1[BLOCK_BITMAP_BLOCK as int] == v[BLOCK_BITMAP_BLOCK as int]);
        assert(w[inode_block(n)] == v1[inode_block(n)]);
        assert(inode_bytes(w, n) == inode_bytes(v1, n));
    }
}

/// Recovery after a change that was committed: the file has its new inode, the blocks that were
/// given up are free, those that were handed out and not given up are in use, the bits of other
/// blocks are as they were, and the journal is clear.
pub proof fn law_committed_change_is_completed(v: Volume, b: int)
    requires
        volume_ok(v),
        is_sound(record_at(v)),
        record_at(v).state == JournalState::Committed.number(),
        0 <= b < 32768,
    ensures
        ({
            let j = record_at(v);
            let w = recovered(v);
            let freed = is_data_block(b) && names(
                j.freed_blocks@,
                listed(j.freed_blocks_count),
                b,
            );
            let allocated = is_data_block(b) && names(
                j.allocated_blocks@,
                listed(j.allocated_blocks_count),
                b,
            );
            &&& recovering(v) is Ok
            &&& is_inode_number(j.target_inode_num) ==> inode_at(w, j.target_inode_num as int)
                == j.new_inode_image
            &&& bit(w[BLOCK_BITMAP_BLOCK as int], b) == (!freed && (allocated || bit(
                v[BLOCK_BITMAP_BLOCK as int],
                b,
            )))
            &&& j.dir_entry_slot < DIR_ENTRIES_PER_BLOCK ==> entry_at(
                w[ROOT_DIR_BLOCK as int],
                j.dir_entry_slot as int,
            ) == j.dir_entry_copy
            &&& record_at(w) == cleared_record(j.sequence)
        }),
{
    let j = record_at(v);
    let w = recovered(v);
    lemma_record_at(w, cleared_record(j.sequence));
    let bm = v[BLOCK_BITMAP_BLOCK as int];
    law_all_set(bm, j.allocated_blocks@, listed(j.allocated_blocks_count), b);
    law_all_cleared(
        all_set(bm, j.allocated_blocks@, listed(j.allocated_blocks_count)),
        j.freed_blocks@,
        listed(j.freed_blocks_count),
        b,
    );
    let v0 = with_image(v, j, j.new_inode_image);
    let v1 = with_recorded_entry(v0, j);
    if is_inode_number(j.target_inode_num) {
        let n = j.target_inode_num as int;
        law_inode_is_read_back(v, n, j.new_inode_image, n);
        assert(w[inode_block(n)] == v0[inode_block(n)]);
        assert(inode_bytes(w, n) == inode_bytes(v0, n));
    }
    assert(v1[BLOCK_BITMAP_BLOCK as int] == bm);
    if j.dir_entry_slot < DIR_ENTRIES_PER_BLOCK {
        law_entry_is_read_back(
            v0[ROOT_DIR_BLOCK as int],
            j.dir_entry_slot as int,
            j.dir_entry_copy,
            j.dir_entry_slot as int,
        );
        assert(w[ROOT_DIR_BLOCK as int] == v1[ROOT_DIR_BLOCK as int]);
    }
}

/// Recovery done once is recovery done twice: a volume that was brought into order is in order.
pub proof fn law_recovery_is_idempotent(v: Volume)
    requires
        recovering(v) is Ok,
    ensures
        recovering(recovered(v)) is Ok,
        recovered(recovered(v)) == recovered(v),
{
    let j = record_at(v);
    if j.state != JournalState::Free.number() {
        lemma_record_at(recovered(v), cleared_record(j.sequence));
    }
}

/// A cleared journal has nothing to recover, whether or not the device fails later: the record
/// that was stored is the one that is read back, it can be trusted and says that nothing is going
/// on, and recovery answers at once and leaves the volume as it is.
pub proof fn law_cleared_journal_has_nothing_to_recover<A: BlockDevice>(
    s: &Storage<A>,
    id: u8,
    seq: u64,
)
    requires
        record_in_place(s, id, cleared_record(seq)),
    ensures
        record_at(s.vol(id)) == cleared_record(seq),
        record_at(s.stored(id)) == cleared_record(seq),
        is_sound(cleared_record(seq)),
        cleared_record(seq).state == JournalState::Free.number(),
        cleared_record(seq).sequence == seq,
        cleared_record(seq).op_type == 0,
        cleared_record(seq).allocated_blocks_count == 0,
        cleared_record(seq).freed_blocks_count == 0,
        cleared_record(seq).dir_entry_slot == 0xFFFF_FFFF,
        recovering(s.vol(id)) is Ok,
        recovered(s.vol(id)) == s.vol(id),
{
    lemma_record_at(s.vol(id), cleared_record(seq));
    lemma_record_at(s.stored(id), cleared_record(seq));
    law_sealed_record_is_valid(DiskJournalBlock { sequence: seq, ..empty_record() });
}

/// A record that cannot be trusted changes nothing.
pub proof fn law_damaged_journal_is_refused(v: Volume)
    requires
        record_at(v).state != JournalState::Free.number(),
        !is_sound(record_at(v)),
    ensures
        recovering(v) == Err::<(), FsError>(FsError::CorruptJournal),
        recovered(v) == v,
{
}

/// Bitmaps with the same bits are the same.
proof fn lemma_bits_determine(a: Seq<u8>, b: Seq<u8>)
    requires
        a.len() == BLOCK_SIZE,
        b.len() == BLOCK_SIZE,
        forall|i: int| 0 <= i < 32768 ==> #[trigger] bit(a, i) == bit(b, i),
    ensures
        a == b,
{
    assert forall|k: int| 0 <= k < BLOCK_SIZE implies a[k] == b[k] by {
        let x = a[k];
        let y = b[k];
        assert(bit(a, 8 * k) == bit(b, 8 * k));
        assert(bit(a, 8 * k + 1) == bit(b, 8 * k + 1));
        assert(bit(a, 8 * k + 2) == bit(b, 8 * k + 2));
        assert(bit(a, 8 * k + 3) == bit(b, 8 * k + 3));
        assert(bit(a, 8 * k + 4) == bit(b, 8 * k + 4));
        assert(bit(a, 8 * k + 5) == bit(b, 8 * k + 5));
        assert(bit(a, 8 * k + 6) == bit(b, 8 * k + 6));
        assert(bit(a, 8 * k + 7) == bit(b, 8 * k + 7));
        assert(x == y) by (bit_vector)
            requires
                (x & (1u8 << 0u8) != 0) == (y & (1u8 << 0u8) != 0),
                (x & (1u8 << 1u8) != 0) == (y & (1u8 << 1u8) != 0),
                (x & (1u8 << 2u8) != 0) == (y & (1u8 << 2u8) != 0),
                (x & (1u8 << 3u8) != 0) == (y & (1u8 << 3u8) != 0),
                (x & (1u8 << 4u8) != 0) == (y & (1u8 << 4u8) != 0),
                (x & (1u8 << 5u8) != 0) == (y & (1u8 << 5u8) != 0),
                (x & (1u8 << 6u8) != 0) == (y & (1u8 << 6u8) != 0),
                (x & (1u8 << 7u8) != 0) == (y & (1u8 << 7u8) != 0),
        ;
    }
    assert(a =~= b);
}

/// Completing a committed change again, as after a crash in the middle of recovery, gives the same
/// volume.
pub proof fn law_completing_again_changes_nothing(v: Volume, j: DiskJournalBlock)
    requires
        volume_ok(v),
    ensures
        rolled_forward(rolled_forward(v, j), j) == rolled_forward(v, j),
{
    let w = rolled_forward(v, j);
    let u = rolled_forward(w, j);
    let bm = v[BLOCK_BITMAP_BLOCK as int];
    let im = v[INODE_BITMAP_BLOCK as int];
    let n = j.target_inode_num as int;
    assert(bm.len() == BLOCK_SIZE && im.len() == BLOCK_SIZE);
    law_all_set(bm, j.allocated_blocks@, listed(j.allocated_blocks_count), 0);
    law_all_cleared(
        all_set(bm, j.allocated_blocks@, listed(j.allocated_blocks_count)),
        j.freed_blocks@,
        listed(j.freed_blocks_count),
        0,
    );
    let b1 = blocks_after(bm, j);
    law_all_set(b1, j.allocated_blocks@, listed(j.allocated_blocks_count), 0);
    law_all_cleared(
        all_set(b1, j.allocated_blocks@, listed(j.allocated_blocks_count)),
        j.freed_blocks@,
        listed(j.freed_blocks_count),
        0,
    );
    assert forall|i: int| 0 <= i < 32768 implies #[trigger] bit(blocks_after(b1, j), i) == bit(
        b1,
        i,
    ) by {
        law_all_set(bm, j.allocated_blocks@, listed(j.allocated_blocks_count), i);
        law_all_cleared(
            all_set(bm, j.allocated_blocks@, listed(j.allocated_blocks_count)),
            j.freed_blocks@,
            listed(j.freed_blocks_count),
            i,
        );
        law_all_set(b1, j.allocated_blocks@, listed(j.allocated_blocks_count), i);
        law_all_cleared(
            all_set(b1, j.allocated_blocks@, listed(j.allocated_blocks_count)),
            j.freed_blocks@,
            listed(j.freed_blocks_count),
            i,
        );
    }
    lemma_bits_determine(blocks_after(b1, j), b1);
    let i1 = inodes_after(im, j);
    assert(inodes_after(i1, j) == i1) by {
        if is_inode_number(j.target_inode_num) {
            assert forall|i: int| 0 <= i < 32768 implies #[trigger] bit(inodes_after(i1, j), i)
                == bit(i1, i) by {
                law_bits(im, n, i);
                law_bits(i1, n, i);
            }
            lemma_bits_determine(inodes_after(i1, j), i1);
        }
    }
    assert(w[BLOCK_BITMAP_BLOCK as int] == b1);
    assert(u =~= w) by {
        assert forall|b: int| (#[trigger] u[b]) == w[b] by {
            assert(v[b].len() == BLOCK_SIZE);
            assert(u[b] =~= w[b]);
        }
        assert forall|b: int| (#[trigger] u.dom().contains(b)) == w.dom().contains(b) by {
            assert(v.dom().contains(b));
        }
    }
}

/// Undoing an announced change again gives the same volume.
pub proof fn law_undoing_again_changes_nothing(v: Volume, j: DiskJournalBlock)
    requires
        volume_ok(v),
        target_has_bit(j),
        j.state == JournalState::Intent.number(),
    ensures
        rolled_back(rolled_back(v, j), j) == rolled_back(v, j),
{
    let w = rolled_back(v, j);
    let u = rolled_back(w, j);
    let bm = v[BLOCK_BITMAP_BLOCK as int];
    let im = v[INODE_BITMAP_BLOCK as int];
    let n = j.target_inode_num as int;
    assert(bm.len() == BLOCK_SIZE && im.len() == BLOCK_SIZE);
    let count = listed(j.allocated_blocks_count);
    let b1 = all_cleared(bm, j.allocated_blocks@, count);
    law_all_cleared(bm, j.allocated_blocks@, count, 0);
    law_all_cleared(b1, j.allocated_blocks@, count, 0);
    assert forall|i: int| 0 <= i < 32768 implies #[trigger] bit(
        all_cleared(b1, j.allocated_blocks@, count),
        i,
    ) == bit(b1, i) by {
        law_all_cleared(bm, j.allocated_blocks@, count, i);
        law_all_cleared(b1, j.allocated_blocks@, count, i);
    }
    lemma_bits_determine(all_cleared(b1, j.allocated_blocks@, count), b1);
    if n < 32768 {
        let i1 = without_bit(im, n);
        assert forall|i: int| 0 <= i < 32768 implies #[trigger] bit(without_bit(i1, n), i) == bit(
            i1,
            i,
        ) by {
            law_bits(im, n, i);
            law_bits(i1, n, i);
        }
        lemma_bits_determine(without_bit(i1, n), i1);
    }
    assert(u =~= w) by {
        assert forall|b: int| (#[trigger] u[b]) == w[b] by {
            assert(v[b].len() == BLOCK_SIZE);
            assert(u[b] =~= w[b]);
        }
        assert forall|b: int| (#[trigger] u.dom().contains(b)) == w.dom().contains(b) by {
            assert(v.dom().contains(b));
        }
    }
}

/// No two entries in use have the same name.
pub open spec fn names_unique(raw: Seq<u8>) -> bool {
    forall|a: int, b: int, name: Seq<u8>|
        0 <= a < 64 && 0 <= b < 64 && a != b && #[trigger] is_called(entry_at(raw, a), name)
            ==> !#[trigger] is_called(entry_at(raw, b), name)
}

/// The first entry with a name has it, and none before it does.
pub proof fn lemma_first_called(raw: Seq<u8>, name: Seq<u8>, from: int)
    requires
        0 <= from <= 64,
    ensures
        from <= first_called(raw, name, from) <= 64,
        forall|k: int|
            from <= k < first_called(raw, name, from) ==> !is_called(
                #[trigger] entry_at(raw, k),
                name,
            ),
        first_called(raw, name, from) < 64 ==> is_called(
            entry_at(raw, first_called(raw, name, from)),
            name,
        ),
    decreases 64 - from,
{
    if from < 64 && !is_called(entry_at(raw, from), name) {
        lemma_first_called(raw, name, from + 1);
    }
}

/// The first entry that is not in use is not in use.
pub proof fn lemma_first_unused(raw: Seq<u8>, from: int)
    requires
        0 <= from <= 64,
    ensures
        from <= first_unused(raw, from) <= 64,
        first_unused(raw, from) < 64 ==> entry_at(raw, first_unused(raw, from)).inode_num == 0,
    decreases 64 - from,
{
    if from < 64 && entry_at(raw, from).inode_num != 0 {
        lemma_first_unused(raw, from + 1);
    }
}

/// Blocks with entries of the same names in the same places have the same first entry of a name.
proof fn lemma_same_first_called(a: Seq<u8>, b: Seq<u8>, name: Seq<u8>, from: int)
    requires
        0 <= from <= 64,
        forall|k: int|
            0 <= k < 64 ==> is_called(#[trigger] entry_at(a, k), name) == is_called(
                entry_at(b, k),
                name,
            ),
    ensures
        first_called(a, name, from) == first_called(b, name, from),
    decreases 64 - from,
{
    if from < 64 {
        assert(is_called(entry_at(a, from), name) == is_called(entry_at(b, from), name));
        lemma_same_first_called(a, b, name, from + 1);
    }
}

/// An entry for a file is called as the file and not otherwise.
proof fn lemma_entry_for_is_called(
    e: DiskDirEntry,
    name: Seq<u8>,
    target: u32,
    file_type: InodeType,
    other: Seq<u8>,
)
    requires
        is_name(name),
        target != 0,
        is_entry_for(e, name, target, file_type),
    ensures
        is_called(e, other) == (other == name),
{
    assert(e.name@.take(name.len() as int) =~= name);
    if is_called(e, other) {
        assert(other == e.name@.take(name.len() as int));
    }
}

/// The entries of a directory lie behind the tables.
pub open spec fn holds_directory(v: Volume, dir: u32) -> bool {
    &&& reading(v, dir) is Ok
    &&& dir_block(dir, reading(v, dir)->Ok_0) >= ROOT_DIR_BLOCK
}

/// Changing the entries of a directory leaves its inode alone.
proof fn lemma_directory_inode_kept(v: Volume, dir: u32, data: Seq<u8>)
    requires
        holds_directory(v, dir),
    ensures
        reading(v.insert(dir_block(dir, reading(v, dir)->Ok_0), data), dir) == reading(v, dir),
{
    let w = v.insert(dir_block(dir, reading(v, dir)->Ok_0), data);
    assert(inode_bytes(w, dir as int) == inode_bytes(v, dir as int));
}

/// A name that was added to a directory is found, in the place where it was put; all other names
/// are looked up as before, and names stay unique.
pub proof fn law_added_name_is_found(
    v: Volume,
    size: int,
    dir: u32,
    name: Seq<u8>,
    target: u32,
    file_type: InodeType,
    e: DiskDirEntry,
    other: Seq<u8>,
)
    requires
        volume_ok(v),
        holds_directory(v, dir),
        insert_fault(v, size, dir, name) is None,
        target != 0,
        is_entry_for(e, name, target, file_type),
    ensures
        ({
            let b = dir_block(dir, reading(v, dir)->Ok_0);
            let slot = first_unused(v[b], 0);
            let w = v.insert(b, with_entry(v[b], slot, e));
            &&& looking_up(w, size, dir, name) == Ok::<(u32, InodeType, usize), FsError>(
                (target, file_type, slot as usize),
            )
            &&& other != name ==> looking_up(w, size, dir, other) == looking_up(
                v,
                size,
                dir,
                other,
            )
            &&& names_unique(v[b]) ==> names_unique(w[b])
        }),
{
    let b = dir_block(dir, reading(v, dir)->Ok_0);
    let raw = v[b];
    let slot = first_unused(raw, 0);
    let now = with_entry(raw, slot, e);
    let w = v.insert(b, now);
    lemma_directory_inode_kept(v, dir, now);
    lemma_first_unused(raw, 0);
    lemma_first_called(raw, name, 0);
    lemma_first_called(now, name, 0);
    lemma_entry_for_is_called(e, name, target, file_type, name);
    assert(raw.len() == BLOCK_SIZE);
    assert(first_called(raw, name, 0) == 64);
    assert forall|k: int| 0 <= k < 64 implies (#[trigger] entry_at(now, k)) == (if k == slot {
        e
    } else {
        entry_at(raw, k)
    }) by {
        law_entry_is_read_back(raw, slot, e, k);
    }
    let found = first_called(now, name, 0);
    assert(found == slot) by {
        assert(is_called(entry_at(now, slot), name));
        if found != slot && found < 64 {
            assert(entry_at(now, found) == entry_at(raw, found));
        }
    }
    assert(named_type(file_type.number() as u8) == file_type);
    if other != name {
        lemma_entry_for_is_called(e, name, target, file_type, other);
        assert forall|k: int| 0 <= k < 64 implies is_called(#[trigger] entry_at(raw, k), other)
            == is_called(entry_at(now, k), other) by {
            assert(entry_at(now, k) == (if k == slot {
                e
            } else {
                entry_at(raw, k)
            }));
        }
        lemma_same_first_called(raw, now, other, 0);
        lemma_first_called(raw, other, 0);
        let found2 = first_called(raw, other, 0);
        if found2 < 64 {
            assert(found2 != slot);
            assert(entry_at(now, found2) == entry_at(raw, found2));
        }
    }
    if names_unique(raw) {
        assert forall|x: int, y: int, any: Seq<u8>|
            0 <= x < 64 && 0 <= y < 64 && x != y && #[trigger] is_called(
                entry_at(now, x),
                any,
            ) implies !#[trigger] is_called(entry_at(now, y), any) by {
            lemma_entry_for_is_called(e, name, target, file_type, any);
            if x != slot {
                assert(entry_at(now, x) == entry_at(raw, x));
            }
            if y != slot {
                assert(entry_at(now, y) == entry_at(raw, y));
            }
            if x != slot && y != slot {
                assert(is_called(entry_at(raw, x), any));
            }
        }
    }
}

/// A name that was removed from a directory is not found any more; all other names are looked up as
/// before, and names stay unique.
pub proof fn law_removed_name_is_gone(
    v: Volume,
    size: int,
    dir: u32,
    name: Seq<u8>,
    other: Seq<u8>,
)
    requires
        volume_ok(v),
        holds_directory(v, dir),
        looking_up(v, size, dir, name) is Ok,
        names_unique(v[dir_block(dir, reading(v, dir)->Ok_0)]),
    ensures
        ({
            let b = dir_block(dir, reading(v, dir)->Ok_0);
            let slot = looking_up(v, size, dir, name)->Ok_0.2 as int;
            let w = v.insert(b, with_entry(v[b], slot, empty_entry()));
            &&& looking_up(w, size, dir, name) == Err::<(u32, InodeType, usize), FsError>(
                FsError::NotFound,
            )
            &&& other != name ==> looking_up(w, size, dir, other) == looking_up(
                v,
                size,
                dir,
                other,
            )
            &&& names_unique(w[b])
        }),
{
    let b = dir_block(dir, reading(v, dir)->Ok_0);
    let raw = v[b];
    let slot = looking_up(v, size, dir, name)->Ok_0.2 as int;
    let e = empty_entry();
    let now = with_entry(raw, slot, e);
    let w = v.insert(b, now);
    lemma_directory_inode_kept(v, dir, now);
    lemma_first_called(raw, name, 0);
    lemma_first_called(now, name, 0);
    assert(raw.len() == BLOCK_SIZE);
    assert(slot == first_called(raw, name, 0));
    assert forall|k: int| 0 <= k < 64 implies (#[trigger] entry_at(now, k)) == (if k == slot {
        e
    } else {
        entry_at(raw, k)
    }) by {
        law_entry_is_read_back(raw, slot, e, k);
    }
    let found = first_called(now, name, 0);
    if found < 64 {
        assert(found != slot);
        assert(entry_at(now, found) == entry_at(raw, found));
        assert(is_called(entry_at(raw, slot), name));
        assert(false);
    }
    if other != name {
        assert(!is_called(entry_at(raw, slot), other)) by {
            let x = entry_at(raw, slot);
            if is_called(x, other) {
                assert(other == x.name@.take(x.name_len as int));
                assert(name == x.name@.take(x.name_len as int));
            }
        }
        assert forall|k: int| 0 <= k < 64 implies is_called(#[trigger] entry_at(raw, k), other)
            == is_called(entry_at(now, k), other) by {
            assert(entry_at(now, k) == (if k == slot {
                e
            } else {
                entry_at(raw, k)
            }));
        }
        lemma_same_first_called(raw, now, other, 0);
        lemma_first_called(raw, other, 0);
        let found2 = first_called(raw, other, 0);
        if found2 < 64 {
            assert(found2 != slot);
            assert(entry_at(now, found2) == entry_at(raw, found2));
        }
    }
    assert forall|x: int, y: int, any: Seq<u8>|
        0 <= x < 64 && 0 <= y < 64 && x != y && #[trigger] is_called(
            entry_at(now, x),
            any,
        ) implies !#[trigger] is_called(entry_at(now, y), any) by {
        assert(entry_at(now, x) == entry_at(raw, x));
        if y != slot {
            assert(entry_at(now, y) == entry_at(raw, y));
            assert(is_called(entry_at(raw, x), any));
        }
    }
}

/// A new volume can be mounted, counts one mount, needs no recovery, and has an empty root
/// directory in which no name is found.
pub proof fn law_new_volume_can_be_mounted(
    v: Volume,
    size: int,
    total_blocks: u64,
    label: Seq<u8>,
    name: Seq<u8>,
)
    requires
        volume_ok(v),
        22 <= size,
        64 <= total_blocks <= MAX_VOLUME_BLOCKS,
        is_name(name),
    ensures
        ({
            let w = formatted(v, total_blocks, label);
            &&& volume_ok(w)
            &&& target_has_bit(record_at(w))
            &&& recovered(w) == w
            &&& superblock_at(w) == new_superblock(total_blocks, label)
            &&& mounting(w) is Ok
            &&& mounting(w)->Ok_0.mount_count == 1
            &&& mounting(w)->Ok_0.total_blocks == total_blocks
            &&& reading(w, ROOT_DIR_INODE) == Ok::<DiskInode, FsError>(root_inode())
            &&& looking_up(w, size, ROOT_DIR_INODE, name) == Err::<
                (u32, InodeType, usize),
                FsError,
            >(FsError::NotFound)
            &&& names_unique(w[ROOT_DIR_BLOCK as int])
        }),
{
    let w = formatted(v, total_blocks, label);
    assert forall|b: int| (#[trigger] w[b]).len() == BLOCK_SIZE by {
        assert(v[b].len() == BLOCK_SIZE);
    }
    lemma_record_at(w, empty_record());
    let sb = new_superblock(total_blocks, label);
    assert(w[SUPERBLOCK_BLOCK as int].take(128) =~= sb.bytes());
    lemma_superblock_bytes_determine(sb, superblock_at(w));
    let raw_sb = DiskSuperblock { checksum: 0, ..sb };
    assert(sb == raw_sb.sealed());
    law_sealed_superblock_is_valid(raw_sb);
    let root = root_inode();
    let raw_root = DiskInode { checksum: 0, ..root };
    assert(root == raw_root.sealed());
    law_sealed_inode_is_valid(raw_root);
    assert(inode_bytes(w, 1) =~= root.bytes());
    lemma_inode_at(w, 1, root);
    let raw = w[ROOT_DIR_BLOCK as int];
    assert forall|k: int| 0 <= k < 64 implies (#[trigger] entry_at(raw, k)).inode_num == 0 by {
        let e = empty_entry();
        lemma_zero_entry();
        assert(crate::fs::dir::entry_bytes(raw, k) =~= e.bytes());
        lemma_entry_at(raw, k, e);
    }
    lemma_first_called(raw, name, 0);
}

/// The entry that is not in use is stored as zeros.
proof fn lemma_zero_entry()
    ensures
        forall|k: int| 0 <= k < 64 ==> (#[trigger] empty_entry().bytes()[k]) == 0,
{
    reveal(crate::bytes::byte_of);
    assert forall|k: int| 0 <= k < 64 implies (#[trigger] empty_entry().bytes()[k]) == 0 by {
        assert(empty_entry().byte(k) == 0);
    }
}

/// A volume that was mounted can be mounted again, and the mount is counted.
pub proof fn law_mounted_volume_can_be_mounted_again(v: Volume)
    requires
        volume_ok(v),
        mounting(v) is Ok,
        superblock_at(v).bytes() == v[SUPERBLOCK_BLOCK as int].take(128),
    ensures
        mounting(mounted(v)) is Ok,
        superblock_at(mounted(v)) == mounting(v)->Ok_0,
        mounting(v)->Ok_0.mount_count < u32::MAX ==> mounting(mounted(v))->Ok_0.mount_count
            == mounting(v)->Ok_0.mount_count + 1,
{
    let w = mounted(v);
    let sb = mounting(v)->Ok_0;
    let old_sb = superblock_at(v);
    assert(v[SUPERBLOCK_BLOCK as int].len() == BLOCK_SIZE);
    assert(w[SUPERBLOCK_BLOCK as int].take(128) =~= sb.bytes());
    lemma_superblock_bytes_determine(sb, superblock_at(w));
    let raw = DiskSuperblock {
        mount_count: if old_sb.mount_count < u32::MAX {
            (old_sb.mount_count + 1) as u32
        } else {
            u32::MAX
        },
        volume_state: 0,
        ..old_sb
    };
    law_sealed_superblock_is_valid(raw);
    law_recovery_is_idempotent(v);
    assert(w[JOURNAL_BLOCK as int] == recovered(v)[JOURNAL_BLOCK as int]);
    assert(record_at(w) == record_at(recovered(v)));
}

/// What was synced survives a loss of power: when the device comes back with what it kept and the
/// volume is mounted again, every block but the superblock holds what it held, and inodes and names
/// are found as before.
pub proof fn law_volume_survives_a_restart<A: BlockDevice>(
    before: &Storage<A>,
    synced: &Storage<A>,
    restarted: &Storage<A>,
    id: u8,
)
    requires
        synced.vol(id) == before.vol(id),
        forall|b: int| #[trigger] resting(synced, id, b),
        restarted.vol(id) == synced.kept(id),
        record_at(before.vol(id)).state == JournalState::Free.number(),
    ensures
        ({
            let v = before.vol(id);
            let w = mounted(restarted.vol(id));
            &&& mounting(restarted.vol(id)) == mounting(v)
            &&& forall|b: int| b != SUPERBLOCK_BLOCK ==> (#[trigger] w[b]) == v[b]
            &&& forall|n: u32| (#[trigger] reading(w, n)) == reading(v, n)
            &&& forall|size: int, dir: u32, name: Seq<u8>|
                dir_block(dir, inode_at(v, dir as int)) != SUPERBLOCK_BLOCK ==> (
                #[trigger] looking_up(w, size, dir, name)) == looking_up(v, size, dir, name)
        }),
{
    let v = before.vol(id);
    let w = mounted(v);
    assert(restarted.vol(id) =~= v) by {
        assert forall|b: int| (#[trigger] synced.kept(id)[b]) == v[b] by {
            assert(resting(synced, id, b));
            lemma_resting(synced, id, b);
        }
    }
    assert forall|n: u32| (#[trigger] reading(w, n)) == reading(v, n) by {
        if is_inode_number(n) {
            assert(w[inode_block(n as int)] == v[inode_block(n as int)]);
            assert(inode_bytes(w, n as int) == inode_bytes(v, n as int));
        }
    }
    assert forall|size: int, dir: u32, name: Seq<u8>|
        dir_block(dir, inode_at(v, dir as int)) != SUPERBLOCK_BLOCK implies (
    #[trigger] looking_up(w, size, dir, name)) == looking_up(v, size, dir, name) by {
        assert(reading(w, dir) == reading(v, dir));
        let b = dir_block(dir, inode_at(v, dir as int));
        assert(w[b] == v[b]);
    }
}

/// No part of a record passes for a whole one: if what a device kept of the journal is taken for a
/// record of a change, it is the announcement or the commitment of the piece. This is what the
/// checksum of a record is for.
pub open spec fn unbroken_record(
    v: Volume,
    kept: Volume,
    size: int,
    n: u32,
    start: int,
    chunk: Seq<u8>,
) -> bool {
    recovering(kept) is Ok && record_at(kept).state != JournalState::Free.number() ==> {
        let record = kept[JOURNAL_BLOCK as int];
        ||| record == piece_record(v, size, n, start, chunk, JournalState::Intent).bytes()
        ||| record == piece_record(v, size, n, start, chunk, JournalState::Committed).bytes()
    }
}

/// A file has the inode that a piece leaves, and the bytes of the piece are read back.
pub open spec fn has_piece(
    u: Volume,
    w: Volume,
    size: int,
    n: u32,
    start: int,
    chunk: Seq<u8>,
) -> bool {
    &&& inode_at(u, n as int) == inode_at(w, n as int)
    &&& is_readable(u, size, inode_at(u, n as int), start, chunk.len() as int)
    &&& forall|p: int|
        start <= p < start + chunk.len() ==> (#[trigger] file_byte(
            u,
            size,
            inode_at(u, n as int),
            p,
        )) == chunk[p - start]
}

/// What is seen of a piece depends on the inode and on data blocks alone.
proof fn lemma_has_piece(
    v: Volume,
    u: Volume,
    size: int,
    n: u32,
    start: int,
    chunk: Seq<u8>,
)
    requires
        volume_ok(v),
        22 <= size,
        0 <= start,
        start % 4096 + chunk.len() <= 32768,
        start + chunk.len() <= u64::MAX,
        reading(v, n) is Ok,
        file_ok(v, size, reading(v, n)->Ok_0),
        piece_fits(v, size, n, start, chunk.len() as int),
        piece_written(v, size, n, start, chunk).1 is Ok,
        data_kept(u, piece_written(v, size, n, start, chunk).0),
        inode_at(u, n as int) == inode_at(
            piece_written(v, size, n, start, chunk).0,
            n as int,
        ),
    ensures
        has_piece(u, piece_written(v, size, n, start, chunk).0, size, n, start, chunk),
{
    let w = piece_written(v, size, n, start, chunk).0;
    let i = inode_at(u, n as int);
    let end = start + chunk.len();
    lemma_piece_bytes(v, size, n, start, chunk);
    assert(reading(w, n) == Ok::<DiskInode, FsError>(i));
    assert forall|l: int|
        0 < chunk.len() && start / 4096 <= l && l * 4096 < start + chunk.len() implies (
    #[trigger] block_of(u, size, i, l)) == block_of(w, size, i, l) && block_of(w, size, i, l) is Ok by {
        assert(touched(start, end, l));
        lemma_touched_is_logical(v, size, n, start, chunk, l);
        lemma_block_of(w, size, i, l);
        if i.indirect_block != 0 {
            assert(u[i.indirect_block as int] == w[i.indirect_block as int]);
        }
        assert(lba_of(u, i, l) == lba_of(w, i, l));
        if lba_of(w, i, l) != 0 {
            assert(in_use(w, lba_of(w, i, l) as int));
            assert(u[lba_of(w, i, l) as int] == w[lba_of(w, i, l) as int]);
        }
    }
    assert forall|p: int| start <= p < end implies (#[trigger] file_byte(u, size, i, p)) == chunk[p
        - start] by {
        let l = p / 4096;
        assert(block_of(u, size, i, l) == block_of(w, size, i, l));
        assert(file_byte(w, size, i, p) == chunk[p - start]);
    }
}

/// The same block of the inode table holds the same inode.
proof fn lemma_same_inode(v: Volume, u: Volume, n: int)
    requires
        u[inode_block(n)] == v[inode_block(n)],
    ensures
        inode_at(u, n) == inode_at(v, n),
{
    assert(inode_bytes(u, n) == inode_bytes(v, n));
}

/// Recovery leaves data blocks alone where the record names no place in the root directory.
proof fn lemma_recovery_keeps_data(v: Volume)
    ensures
        forall|b: int| b >= 22 ==> (#[trigger] recovered(v)[b]) == v[b],
{
    let j = record_at(v);
    assert forall|b: int| b >= 22 implies (#[trigger] recovered(v)[b]) == v[b] by {
        if is_inode_number(j.target_inode_num) {
            assert(inode_block(j.target_inode_num as int) < 22);
        }
    }
}

/// Wherever the power goes while a piece is written to a file, what the device kept is brought
/// into order by recovery such that the file has its old inode, or the new one with all bytes of
/// the piece. `free` is what the journal held before.
#[verifier::rlimit(40)]
#[verifier::spinoff_prover]
pub proof fn law_interrupted_write_is_all_or_nothing(
    v: Volume,
    kept: Volume,
    free: DiskJournalBlock,
    size: int,
    n: u32,
    start: int,
    chunk: Seq<u8>,
)
    requires
        volume_ok(v),
        volume_ok(kept),
        22 <= size,
        0 <= start,
        start % 4096 + chunk.len() <= 32768,
        start + chunk.len() <= u64::MAX,
        reading(v, n) is Ok,
        file_ok(v, size, reading(v, n)->Ok_0),
        piece_fits(v, size, n, start, chunk.len() as int),
        v[JOURNAL_BLOCK as int] == free.bytes(),
        free.state == JournalState::Free.number(),
        piece_fate(v, kept, size, n, start, chunk),
        unbroken_record(v, kept, size, n, start, chunk),
    ensures
        ({
            let (w, r) = piece_written(v, size, n, start, chunk);
            let u = recovered(kept);
            ||| inode_at(u, n as int) == inode_at(v, n as int)
            ||| r is Ok && has_piece(u, w, size, n, start, chunk)
        }),
{
    let (w, r) = piece_written(v, size, n, start, chunk);
    let u = recovered(kept);
    let at = inode_block(n as int);
    let record = kept[JOURNAL_BLOCK as int];
    let intent = piece_record(v, size, n, start, chunk, JournalState::Intent);
    let committed = piece_record(v, size, n, start, chunk, JournalState::Committed);
    lemma_state_byte(free);
    lemma_state_byte(intent);
    lemma_state_byte(committed);
    lemma_state_byte(cleared_record(2));
    lemma_recovery_keeps_data(kept);
    if record == free.bytes() {
        lemma_record_at(kept, free);
    }
    if recovering(kept) is Err || record_at(kept).state == JournalState::Free.number() {
        assert(u == kept);
        if kept[at] == v[at] {
            lemma_same_inode(v, kept, n as int);
        } else if r is Ok && kept[at] == w[at] && data_kept(kept, w) {
            lemma_same_inode(w, kept, n as int);
            lemma_has_piece(v, u, size, n, start, chunk);
        } else {
            lemma_sealed_piece_is_sound(v, size, n, start, chunk);
            lemma_record_at(kept, committed);
        }
    } else if record == intent.bytes() {
        lemma_sealed_piece_is_sound(v, size, n, start, chunk);
        lemma_record_at(kept, intent);
        law_announced_change_is_undone(kept, 0);
    } else {
        lemma_sealed_piece_is_sound(v, size, n, start, chunk);
        lemma_record_at(kept, committed);
        law_committed_change_is_completed(kept, 0);
        assert(record[24] == committed.bytes()[24]);
        assert(r is Ok && data_kept(kept, w));
        lemma_piece(v, size, n, start, chunk);
        assert forall|b: int| b >= 22 implies (#[trigger] u[b]) == w[b] by {
            assert(kept[b] == w[b]);
        }
        lemma_has_piece(v, u, size, n, start, chunk);
    }
}

/// The order in which a piece gets to the device: when the device kept the committed record, it
/// kept the data of the piece and its block of pointers, and when it kept a new inode, it kept the
/// committed record, the cleared one, or bytes of both, and the data.
pub proof fn law_commitment_follows_data_and_precedes_the_inode(
    v: Volume,
    kept: Volume,
    free: DiskJournalBlock,
    size: int,
    n: u32,
    start: int,
    chunk: Seq<u8>,
)
    requires
        v[JOURNAL_BLOCK as int] == free.bytes(),
        free.state == JournalState::Free.number(),
        piece_fate(v, kept, size, n, start, chunk),
    ensures
        ({
            let w = piece_written(v, size, n, start, chunk).0;
            let j = piece_record(v, size, n, start, chunk, JournalState::Committed);
            let record = kept[JOURNAL_BLOCK as int];
            &&& record == j.bytes() ==> data_kept(kept, w)
            &&& kept[inode_block(n as int)] != v[inode_block(n as int)] ==> data_kept(kept, w) && (
            record == j.bytes() || torn(record, j.bytes(), cleared_record(2).bytes()))
        }),
{
    lemma_state_byte(free);
    lemma_state_byte(piece_record(v, size, n, start, chunk, JournalState::Intent));
    lemma_state_byte(piece_record(v, size, n, start, chunk, JournalState::Committed));
}

/// Where the state of a record stands.
proof fn lemma_state_byte(j: DiskJournalBlock)
    ensures
        j.state < 256 ==> j.bytes()[24] == j.state,
{
    reveal(byte_of);
    assert(j.bytes()[24] == j.byte(24));
}

/// The records of a piece can be trusted.
proof fn lemma_sealed_piece_is_sound(v: Volume, size: int, n: u32, start: int, chunk: Seq<u8>)
    ensures
        is_sound(piece_record(v, size, n, start, chunk, JournalState::Intent)),
        is_sound(piece_record(v, size, n, start, chunk, JournalState::Committed)),
{
    let before = reading(v, n)->Ok_0;
    let end = start + chunk.len();
    let c = fresh_change(v, before).map_span(start, end, size, Seq::empty()).0;
    law_sealed_record_is_valid(
        write_record(n, before, grown(c.inode, end).sealed(), c, JournalState::Intent),
    );
    law_sealed_record_is_valid(
        write_record(n, before, grown(c.inode, end).sealed(), c, JournalState::Committed),
    );
}

/// The inode of a file is the one that it had, or the one that a number of whole pieces leave.
pub open spec fn after_whole_pieces(
    v: Volume,
    size: int,
    n: u32,
    pos: int,
    data: Seq<u8>,
    i: DiskInode,
) -> bool
    decreases data.len(),
{
    ||| i == inode_at(v, n as int)
    ||| data.len() > 0 && {
        let m = first_piece(pos, data.len() as int);
        let (w, r) = piece_written(v, size, n, pos, data.take(m));
        r is Ok && after_whole_pieces(w, size, n, pos + m, data.skip(m), i)
    }
}

/// No part of a record passes for a whole one, in whichever piece the write ended.
pub open spec fn unbroken_records(
    v: Volume,
    kept: Volume,
    size: int,
    n: u32,
    pos: int,
    data: Seq<u8>,
) -> bool
    decreases data.len(),
{
    data.len() > 0 ==> {
        let m = first_piece(pos, data.len() as int);
        let (w, r) = piece_written(v, size, n, pos, data.take(m));
        &&& piece_fate(v, kept, size, n, pos, data.take(m)) ==> unbroken_record(
            v,
            kept,
            size,
            n,
            pos,
            data.take(m),
        )
        &&& r is Ok ==> unbroken_records(w, kept, size, n, pos + m, data.skip(m))
    }
}

/// Wherever the power goes while bytes are written to a file, recovery leaves it the inode that a
/// number of whole pieces leave.
pub proof fn law_interrupted_write_leaves_whole_pieces(
    v: Volume,
    kept: Volume,
    free: DiskJournalBlock,
    size: int,
    n: u32,
    pos: int,
    data: Seq<u8>,
)
    requires
        volume_ok(v),
        volume_ok(kept),
        22 <= size,
        0 <= pos,
        pos + data.len() <= u64::MAX,
        reading(v, n) is Ok,
        file_ok(v, size, reading(v, n)->Ok_0),
        pieces_fit(v, size, n, pos, data),
        v[JOURNAL_BLOCK as int] == free.bytes(),
        free.state == JournalState::Free.number(),
        write_fate(v, kept, size, n, pos, data),
        unbroken_records(v, kept, size, n, pos, data),
    ensures
        after_whole_pieces(v, size, n, pos, data, inode_at(recovered(kept), n as int)),
    decreases data.len(),
{
    if data.len() == 0 {
        assert(kept[JOURNAL_BLOCK as int] == v[JOURNAL_BLOCK as int]);
        lemma_record_at(kept, free);
        assert(kept[inode_block(n as int)] == v[inode_block(n as int)]);
        lemma_same_inode(v, kept, n as int);
    } else {
        let m = first_piece(pos, data.len() as int);
        let chunk = data.take(m);
        let (w, r) = piece_written(v, size, n, pos, chunk);
        let i = inode_at(recovered(kept), n as int);
        if piece_fate(v, kept, size, n, pos, chunk) {
            law_interrupted_write_is_all_or_nothing(v, kept, free, size, n, pos, chunk);
            if i != inode_at(v, n as int) {
                assert(after_whole_pieces(w, size, n, pos + m, data.skip(m), i));
            }
        } else {
            lemma_piece(v, size, n, pos, chunk);
            law_interrupted_write_leaves_whole_pieces(
                w,
                kept,
                cleared_record(2),
                size,
                n,
                pos + m,
                data.skip(m),
            );
        }
    }
}

} // verus!
