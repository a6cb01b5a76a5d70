//! What recovery does to a volume, block by block and bit by bit.
use crate::fs::dir::{entry_at, law_entry_is_read_back, with_entry};
use crate::fs::inode::is_inode_number;
use crate::fs::journal::{
    all_set, cleared_record, is_sound, lemma_record_at, listed, record_at, recovered, recovering,
    with_image, with_recorded_entry,
};
use crate::fs::laws::{law_all_cleared, law_all_set, names};
use crate::fs::types::DiskJournalBlock;
use crate::fs::volume::{
    bit, inode_at, inode_block, inode_bytes, is_data_block, law_bits, law_inode_is_read_back,
    volume_ok, Volume,
};
use vstd::prelude::*;

verus! {

/// The record names a block among those that were handed out.
pub open spec fn hands_out(j: DiskJournalBlock, b: int) -> bool {
    22 <= b < 32768 && exists|k: int|
        0 <= k < 10 && k < j.allocated_blocks_count && (#[trigger] j.allocated_blocks@[k]) == b
}

/// The record names a block among those that were given up.
pub open spec fn gives_up(j: DiskJournalBlock, b: int) -> bool {
    22 <= b < 32768 && exists|k: int|
        0 <= k < 10 && k < j.freed_blocks_count && (#[trigger] j.freed_blocks@[k]) == b
}

/// Completing a change that was committed touches the bit of one inode at most: that of the file
/// which the record names, set if the change created the file and clear if it deleted it. Any
/// other change keeps the bitmap of inodes as it is.
pub proof fn law_completing_touches_one_inode_bit(v: Volume, b: int)
    requires
        volume_ok(v),
        is_sound(record_at(v)),
        record_at(v).state == 2,
        0 <= b < 32768,
    ensures
        ({
            let j = record_at(v);
            let w = recovered(v);
            let target = b == j.target_inode_num && 0 < b < 256;
            &&& bit(w[3], b) == (if target && j.op_type == 1 {
                true
            } else if target && j.op_type == 4 {
                false
            } else {
                bit(v[3], b)
            })
            &&& j.op_type != 1 && j.op_type != 4 ==> w[3] == v[3]
            &&& !(0 < j.target_inode_num < 256) ==> w[3] == v[3]
        }),
{
    let j = record_at(v);
    assert(v[3].len() == 4096);
    if is_inode_number(j.target_inode_num) {
        law_bits(v[3], j.target_inode_num as int, b);
    }
}

/// Undoing a change that was announced touches the bit of one inode at most: that of the file that
/// the change would have created, which is clear again. Any other change keeps the bitmap of
/// inodes as it is.
pub proof fn law_undoing_touches_one_inode_bit(v: Volume, b: int)
    requires
        volume_ok(v),
        is_sound(record_at(v)),
        record_at(v).state == 1,
        record_at(v).op_type == 1 ==> record_at(v).target_inode_num < 32768,
        0 <= b < 32768,
    ensures
        ({
            let j = record_at(v);
            let w = recovered(v);
            &&& bit(w[3], b) == (bit(v[3], b) && !(j.op_type == 1 && b != 0 && b
                == j.target_inode_num))
            &&& j.op_type != 1 ==> w[3] == v[3]
        }),
{
    let j = record_at(v);
    assert(v[3].len() == 4096);
    if j.op_type == 1 {
        law_bits(v[3], j.target_inode_num as int, b);
    }
}

/// Completing a change gives the file its new inode, the entry of the directory what was recorded
/// for it, and the bits of blocks what the record says: a block that was given up is free, one
/// that was handed out is in use. Every other inode, entry and block is as it was.
pub proof fn law_completing_touches_only_what_is_recorded(v: Volume, n: int, e: int, b: int)
    requires
        volume_ok(v),
        is_sound(record_at(v)),
        record_at(v).state == 2,
        0 < n < 256,
        0 <= e < 64,
        0 <= b < 32768,
    ensures
        ({
            let j = record_at(v);
            let w = recovered(v);
            &&& inode_at(w, n) == (if n == j.target_inode_num {
                j.new_inode_image
            } else {
                inode_at(v, n)
            })
            &&& entry_at(w[21], e) == (if e == j.dir_entry_slot {
                j.dir_entry_copy
            } else {
                entry_at(v[21], e)
            })
            &&& bit(w[4], b) == (!gives_up(j, b) && (hands_out(j, b) || bit(v[4], b)))
            &&& b < 2 || b >= 22 ==> w[b] == v[b]
        }),
{
    let j = record_at(v);
    let w = recovered(v);
    let v0 = with_image(v, j, j.new_inode_image);
    let v1 = with_recorded_entry(v0, j);
    assert(v[4].len() == 4096);
    let t = j.target_inode_num as int;
    if 0 < t < 256 {
        law_inode_is_read_back(v, t, j.new_inode_image, n);
    }
    assert(w[inode_block(n)] == v0[inode_block(n)]);
    assert(inode_bytes(w, n) == inode_bytes(v0, n));
    assert(v0[21] == v[21] && v[21].len() == 4096);
    if j.dir_entry_slot < 64 {
        assert(v1[21] == with_entry(v[21], j.dir_entry_slot as int, j.dir_entry_copy));
        law_entry_is_read_back(v[21], j.dir_entry_slot as int, j.dir_entry_copy, e);
    }
    assert(w[21] == v1[21]);
    law_all_set(v[4], j.allocated_blocks@, listed(j.allocated_blocks_count), b);
    law_all_cleared(
        all_set(v[4], j.allocated_blocks@, listed(j.allocated_blocks_count)),
        j.freed_blocks@,
        listed(j.freed_blocks_count),
        b,
    );
    assert(v1[4] == v[4]);
    assert(hands_out(j, b) == (is_data_block(b) && names(
        j.allocated_blocks@,
        listed(j.allocated_blocks_count),
        b,
    )));
    assert(gives_up(j, b) == (is_data_block(b) && names(
        j.freed_blocks@,
        listed(j.freed_blocks_count),
        b,
    )));
}

/// Undoing a change gives the file its old inode and frees the blocks that were handed out for it.
/// Every other inode, every entry of the directory and every other block is as it was.
pub proof fn law_undoing_touches_only_what_is_recorded(v: Volume, n: int, b: int)
    requires
        volume_ok(v),
        is_sound(record_at(v)),
        record_at(v).state == 1,
        0 < n < 256,
        0 <= b < 32768,
    ensures
        ({
            let j = record_at(v);
            let w = recovered(v);
            &&& inode_at(w, n) == (if n == j.target_inode_num {
                j.old_inode_image
            } else {
                inode_at(v, n)
            })
            &&& bit(w[4], b) == (!hands_out(j, b) && bit(v[4], b))
            &&& b < 2 || b >= 21 ==> w[b] == v[b]
        }),
{
    let j = record_at(v);
    let w = recovered(v);
    let v0 = with_image(v, j, j.old_inode_image);
    assert(v[4].len() == 4096);
    let t = j.target_inode_num as int;
    if 0 < t < 256 {
        law_inode_is_read_back(v, t, j.old_inode_image, n);
    }
    assert(w[inode_block(n)] == v0[inode_block(n)]);
    assert(inode_bytes(w, n) == inode_bytes(v0, n));
    law_all_cleared(v[4], j.allocated_blocks@, listed(j.allocated_blocks_count), b);
    assert(hands_out(j, b) == (is_data_block(b) && names(
        j.allocated_blocks@,
        listed(j.allocated_blocks_count),
        b,
    )));
}

/// A volume whose journal says that nothing is going on is left alone. A record that says anything
/// else is acted on if it carries its mark, agrees with its checksum and says that a change was
/// announced or committed. Any other is refused and nothing is changed. Once a change was completed
/// or undone the journal says that nothing is going on.
pub proof fn law_recovery_acts_on_sound_records_only(v: Volume)
    ensures
        ({
            let j = record_at(v);
            &&& (recovering(v) is Ok) == (j.state == 0 || (j.magic
                == 0x5A45_524F_5F4A_524E && j.checksum == j.crc() && j.state <= 2))
            &&& j.state == 0 || recovering(v) is Err ==> recovered(v) == v
            &&& j.state != 0 && recovering(v) is Ok ==> record_at(
                recovered(v),
            ).state == 0 && record_at(recovered(v)).sequence == j.sequence
        }),
{
    let j = record_at(v);
    if j.state != 0 && recovering(v) is Ok {
        lemma_record_at(
            recovered(v),
            cleared_record(j.sequence),
        );
    }
}

} // verus!
