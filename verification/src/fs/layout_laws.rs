//! Where the numbers of each structure on disk stand, least significant byte first.
use crate::bytes::{
    byte_of, le16, le32, le64, lemma_bytes_determine_u16, lemma_bytes_determine_u32,
    lemma_bytes_determine_u64, lemma_bytes_le16, lemma_bytes_le32, lemma_bytes_le64,
};
use crate::fs::types::{DiskDirEntry, DiskInode, DiskJournalBlock, DiskSuperblock};
use vstd::prelude::*;

verus! {

/// A number whose bytes stand at an offset is read there.
proof fn lemma_stored16(s: Seq<u8>, off: int, v: u16)
    requires
        forall|k: int| 0 <= k < 2 ==> s[off + k] == #[trigger] byte_of(v as int, k),
    ensures
        le16(s, off) == v,
{
    lemma_bytes_le16(s, off);
    let r = le16(s, off);
    assert forall|k: int| 0 <= k < 2 implies #[trigger] byte_of(r as int, k) == byte_of(
        v as int,
        k,
    ) by {
        assert(s[off + k] == byte_of(v as int, k));
    }
    lemma_bytes_determine_u16(r, v);
}

/// A number whose bytes stand at an offset is read there.
proof fn lemma_stored32(s: Seq<u8>, off: int, v: u32)
    requires
        forall|k: int| 0 <= k < 4 ==> s[off + k] == #[trigger] byte_of(v as int, k),
    ensures
        le32(s, off) == v,
{
    lemma_bytes_le32(s, off);
    let r = le32(s, off);
    assert forall|k: int| 0 <= k < 4 implies #[trigger] byte_of(r as int, k) == byte_of(
        v as int,
        k,
    ) by {
        assert(s[off + k] == byte_of(v as int, k));
    }
    lemma_bytes_determine_u32(r, v);
}

/// A number whose bytes stand at an offset is read there.
proof fn lemma_stored64(s: Seq<u8>, off: int, v: u64)
    requires
        forall|k: int| 0 <= k < 8 ==> s[off + k] == #[trigger] byte_of(v as int, k),
    ensures
        le64(s, off) == v,
{
    lemma_bytes_le64(s, off);
    let r = le64(s, off);
    assert forall|k: int| 0 <= k < 8 implies #[trigger] byte_of(r as int, k) == byte_of(
        v as int,
        k,
    ) by {
        assert(s[off + k] == byte_of(v as int, k));
    }
    lemma_bytes_determine_u64(r, v);
}

/// Where the numbers of an inode stand in its 256 bytes.
pub proof fn law_inode_on_disk(x: DiskInode, l: int)
    requires
        0 <= l < 18,
    ensures
        x.bytes().len() == 256,
        le16(x.bytes(), 0) == x.file_type,
        le16(x.bytes(), 2) == x.flags,
        le32(x.bytes(), 4) == x.links_count,
        le64(x.bytes(), 8) == x.size_bytes,
        le64(x.bytes(), 16) == x.blocks_count,
        le64(x.bytes(), 24) == x.creator_pid,
        le64(x.bytes(), 32) == x.ctime_ticks,
        le64(x.bytes(), 40) == x.mtime_ticks,
        le32(x.bytes(), 48) == x.generation,
        le32(x.bytes(), 52) == x.checksum,
        le32(x.bytes(), 136) == x.indirect_block,
        le32(x.bytes(), 64 + 4 * l) == x.direct_blocks@[l],
{
    let s = x.bytes();
    lemma_stored16(s, 0, x.file_type);
    lemma_stored16(s, 2, x.flags);
    lemma_stored32(s, 4, x.links_count);
    lemma_stored64(s, 8, x.size_bytes);
    lemma_stored64(s, 16, x.blocks_count);
    lemma_stored64(s, 24, x.creator_pid);
    lemma_stored64(s, 32, x.ctime_ticks);
    lemma_stored64(s, 40, x.mtime_ticks);
    lemma_stored32(s, 48, x.generation);
    lemma_stored32(s, 52, x.checksum);
    lemma_stored32(s, 136, x.indirect_block);
    assert forall|k: int| 0 <= k < 4 implies s[64 + 4 * l + k] == #[trigger] byte_of(
        x.direct_blocks@[l] as int,
        k,
    ) by {
        assert((4 * l + k) / 4 == l && (4 * l + k) % 4 == k);
    }
    lemma_stored32(s, 64 + 4 * l, x.direct_blocks@[l]);
}

/// Where the numbers of a superblock stand in its 128 bytes, and its mark and label.
pub proof fn law_superblock_on_disk(x: DiskSuperblock, i: int)
    ensures
        x.bytes().len() == 128,
        le32(x.bytes(), 8) == x.version,
        le32(x.bytes(), 12) == x.block_size,
        le64(x.bytes(), 16) == x.total_blocks,
        le64(x.bytes(), 24) == x.free_blocks,
        le32(x.bytes(), 32) == x.total_inodes,
        le32(x.bytes(), 36) == x.free_inodes,
        le64(x.bytes(), 40) == x.journal_block,
        le64(x.bytes(), 48) == x.block_bitmap_block,
        le64(x.bytes(), 56) == x.inode_bitmap_block,
        le64(x.bytes(), 64) == x.inode_table_block,
        le32(x.bytes(), 72) == x.inode_table_blocks,
        le32(x.bytes(), 76) == x.root_dir_inode,
        le32(x.bytes(), 80) == x.volume_state,
        le32(x.bytes(), 84) == x.mount_count,
        le32(x.bytes(), 88) == x.checksum,
        0 <= i < 8 ==> x.bytes()[i] == x.magic@[i],
        0 <= i < 32 ==> x.bytes()[96 + i] == x.volume_label@[i],
{
    let s = x.bytes();
    lemma_stored32(s, 8, x.version);
    lemma_stored32(s, 12, x.block_size);
    lemma_stored64(s, 16, x.total_blocks);
    lemma_stored64(s, 24, x.free_blocks);
    lemma_stored32(s, 32, x.total_inodes);
    lemma_stored32(s, 36, x.free_inodes);
    lemma_stored64(s, 40, x.journal_block);
    lemma_stored64(s, 48, x.block_bitmap_block);
    lemma_stored64(s, 56, x.inode_bitmap_block);
    lemma_stored64(s, 64, x.inode_table_block);
    lemma_stored32(s, 72, x.inode_table_blocks);
    lemma_stored32(s, 76, x.root_dir_inode);
    lemma_stored32(s, 80, x.volume_state);
    lemma_stored32(s, 84, x.mount_count);
    lemma_stored32(s, 88, x.checksum);
}

/// Where the parts of an entry of a directory stand in its 64 bytes.
pub proof fn law_entry_on_disk(x: DiskDirEntry, i: int)
    ensures
        x.bytes().len() == 64,
        le32(x.bytes(), 0) == x.inode_num,
        x.bytes()[4] == x.name_len,
        x.bytes()[5] == x.file_type,
        0 <= i < 55 ==> x.bytes()[8 + i] == x.name@[i],
{
    let s = x.bytes();
    lemma_stored32(s, 0, x.inode_num);
}

/// Where the parts of a record of the journal stand in its block.
pub proof fn law_record_on_disk(x: DiskJournalBlock, l: int)
    requires
        0 <= l < 10,
    ensures
        x.bytes().len() == 4096,
        le64(x.bytes(), 0) == x.magic,
        le64(x.bytes(), 8) == x.sequence,
        le32(x.bytes(), 16) == x.format_version,
        le32(x.bytes(), 20) == x.op_type,
        le32(x.bytes(), 24) == x.state,
        le32(x.bytes(), 28) == x.target_inode_num,
        le32(x.bytes(), 32) == x.parent_dir_inode,
        le32(x.bytes(), 36) == x.dir_entry_slot,
        le32(x.bytes(), 40) == x.allocated_blocks_count,
        le32(x.bytes(), 44) == x.freed_blocks_count,
        le32(x.bytes(), 704) == x.checksum,
        le32(x.bytes(), 48 + 4 * l) == x.allocated_blocks@[l],
        le32(x.bytes(), 88 + 4 * l) == x.freed_blocks@[l],
        x.bytes().subrange(128, 192) == x.dir_entry_copy.bytes(),
        x.bytes().subrange(192, 448) == x.old_inode_image.bytes(),
        x.bytes().subrange(448, 704) == x.new_inode_image.bytes(),
{
    let s = x.bytes();
    lemma_stored64(s, 0, x.magic);
    lemma_stored64(s, 8, x.sequence);
    lemma_stored32(s, 16, x.format_version);
    lemma_stored32(s, 20, x.op_type);
    lemma_stored32(s, 24, x.state);
    lemma_stored32(s, 28, x.target_inode_num);
    lemma_stored32(s, 32, x.parent_dir_inode);
    lemma_stored32(s, 36, x.dir_entry_slot);
    lemma_stored32(s, 40, x.allocated_blocks_count);
    lemma_stored32(s, 44, x.freed_blocks_count);
    lemma_stored32(s, 704, x.checksum);
    assert forall|k: int| 0 <= k < 4 implies s[48 + 4 * l + k] == #[trigger] byte_of(
        x.allocated_blocks@[l] as int,
        k,
    ) by {
        assert((4 * l + k) / 4 == l && (4 * l + k) % 4 == k);
    }
    lemma_stored32(s, 48 + 4 * l, x.allocated_blocks@[l]);
    assert forall|k: int| 0 <= k < 4 implies s[88 + 4 * l + k] == #[trigger] byte_of(
        x.freed_blocks@[l] as int,
        k,
    ) by {
        assert((4 * l + k) / 4 == l && (4 * l + k) % 4 == k);
    }
    lemma_stored32(s, 88 + 4 * l, x.freed_blocks@[l]);
    assert(s.subrange(128, 192) =~= x.dir_entry_copy.bytes());
    assert(s.subrange(192, 448) =~= x.old_inode_image.bytes());
    assert(s.subrange(448, 704) =~= x.new_inode_image.bytes());
}

} // verus!
