//! The journal record: one block.
use crate::bytes::{
    byte_of, le32, le64, lemma_bytes_determine_u32, lemma_bytes_determine_u64, lemma_bytes_le32,
    lemma_bytes_le64, nth_byte, read_u32, read_u64,
};
use crate::fs::types::disk_dir_entry::{
    empty_entry, lemma_entry_bytes_determine, DiskDirEntry,
};
use crate::fs::types::disk_inode::{empty_inode, lemma_inode_bytes_determine, DiskInode};
use crate::fs::types::{crc_of, crc_push, crc_register, BLOCK_SIZE, JOURNAL_MAGIC};
use vstd::array::spec_array_fill_for_copy_type;
use vstd::prelude::*;

verus! {

/// What a change is about to do, or has done, to a volume.
#[derive(Debug, Clone, Copy)]
pub struct DiskJournalBlock {
    pub magic: u64,
    pub sequence: u64,
    pub format_version: u32,
    pub op_type: u32,
    pub state: u32,
    pub target_inode_num: u32,
    pub parent_dir_inode: u32,
    /// All bits set mean that no directory entry changes.
    pub dir_entry_slot: u32,
    pub allocated_blocks_count: u32,
    pub freed_blocks_count: u32,
    pub allocated_blocks: [u32; 10],
    pub freed_blocks: [u32; 10],
    pub dir_entry_copy: DiskDirEntry,
    pub old_inode_image: DiskInode,
    pub new_inode_image: DiskInode,
    /// CRC-32 of the 704 bytes before it.
    pub checksum: u32,
    pub _reserved: [u8; 3388],
}

impl DiskJournalBlock {
    /// Byte number `i` of what is stored.
    pub open spec fn byte(&self, i: int) -> u8 {
        if i < 8 {
            byte_of(self.magic as int, i)
        } else if i < 16 {
            byte_of(self.sequence as int, i - 8)
        } else if i < 20 {
            byte_of(self.format_version as int, i - 16)
        } else if i < 24 {
            byte_of(self.op_type as int, i - 20)
        } else if i < 28 {
            byte_of(self.state as int, i - 24)
        } else if i < 32 {
            byte_of(self.target_inode_num as int, i - 28)
        } else if i < 36 {
            byte_of(self.parent_dir_inode as int, i - 32)
        } else if i < 40 {
            byte_of(self.dir_entry_slot as int, i - 36)
        } else if i < 44 {
            byte_of(self.allocated_blocks_count as int, i - 40)
        } else if i < 48 {
            byte_of(self.freed_blocks_count as int, i - 44)
        } else if i < 88 {
            byte_of(self.allocated_blocks@[(i - 48) / 4] as int, (i - 48) % 4)
        } else if i < 128 {
            byte_of(self.freed_blocks@[(i - 88) / 4] as int, (i - 88) % 4)
        } else if i < 192 {
            self.dir_entry_copy.byte(i - 128)
        } else if i < 448 {
            self.old_inode_image.byte(i - 192)
        } else if i < 704 {
            self.new_inode_image.byte(i - 448)
        } else if i < 708 {
            byte_of(self.checksum as int, i - 704)
        } else {
            self._reserved@[i - 708]
        }
    }

    /// The 4096 bytes that are stored.
    pub open spec fn bytes(&self) -> Seq<u8> {
        Seq::new(4096, |i: int| self.byte(i))
    }

    /// What the checksum has to be.
    pub open spec fn crc(&self) -> u32 {
        crc_of(self.bytes().take(704))
    }

    /// The record with the right checksum.
    pub open spec fn sealed(self) -> DiskJournalBlock {
        DiskJournalBlock { checksum: self.crc(), ..self }
    }

    pub fn empty() -> (r: Self)
        ensures
            r == empty_record(),
    {
        DiskJournalBlock {
            magic: JOURNAL_MAGIC,
            sequence: 0,
            format_version: 1,
            op_type: 0,
            state: 0,
            target_inode_num: 0,
            parent_dir_inode: 0,
            dir_entry_slot: 0xFFFF_FFFF,
            allocated_blocks_count: 0,
            freed_blocks_count: 0,
            allocated_blocks: [0u32; 10],
            freed_blocks: [0u32; 10],
            dir_entry_copy: DiskDirEntry::empty(),
            old_inode_image: DiskInode::empty(),
            new_inode_image: DiskInode::empty(),
            checksum: 0,
            _reserved: [0u8; 3388],
        }
    }

    fn byte_at(&self, i: usize) -> (r: u8)
        requires
            i < 4096,
        ensures
            r == self.byte(i as int),
    {
        if i < 8 {
            nth_byte(self.magic, i)
        } else if i < 16 {
            nth_byte(self.sequence, i - 8)
        } else if i < 20 {
            nth_byte(self.format_version as u64, i - 16)
        } else if i < 24 {
            nth_byte(self.op_type as u64, i - 20)
        } else if i < 28 {
            nth_byte(self.state as u64, i - 24)
        } else if i < 32 {
            nth_byte(self.target_inode_num as u64, i - 28)
        } else if i < 36 {
            nth_byte(self.parent_dir_inode as u64, i - 32)
        } else if i < 40 {
            nth_byte(self.dir_entry_slot as u64, i - 36)
        } else if i < 44 {
            nth_byte(self.allocated_blocks_count as u64, i - 40)
        } else if i < 48 {
            nth_byte(self.freed_blocks_count as u64, i - 44)
        } else if i < 88 {
            nth_byte(self.allocated_blocks[(i - 48) / 4] as u64, (i - 48) % 4)
        } else if i < 128 {
            nth_byte(self.freed_blocks[(i - 88) / 4] as u64, (i - 88) % 4)
        } else if i < 192 {
            self.dir_entry_copy.byte_at(i - 128)
        } else if i < 448 {
            self.old_inode_image.byte_at(i - 192)
        } else if i < 704 {
            self.new_inode_image.byte_at(i - 448)
        } else if i < 708 {
            nth_byte(self.checksum as u64, i - 704)
        } else {
            self._reserved[i - 708]
        }
    }

    fn compute_crc(&self) -> (r: u32)
        ensures
            r == self.crc(),
    {
        let ghost b = self.bytes();
        let mut crc: u32 = 0xFFFF_FFFF;
        let mut i: usize = 0;
        assert(b.take(0).len() == 0);
        while i < 704
            invariant
                i <= 704,
                b == self.bytes(),
                crc == crc_register(b.take(i as int)),
            decreases 704 - i,
        {
            assert(b.take(i + 1).drop_last() =~= b.take(i as int));
            assert(b.take(i + 1).last() == b[i as int]);
            crc = crc_push(crc, self.byte_at(i));
            i = i + 1;
        }
        !crc
    }

    pub fn is_valid_checksum(&self) -> (r: bool)
        ensures
            r == (self.checksum == self.crc()),
    {
        self.compute_crc() == self.checksum
    }

    pub fn recompute_checksum(&mut self)
        ensures
            *final(self) == old(self).sealed(),
    {
        let crc: u32 = self.compute_crc();
        self.checksum = crc;
    }

    /// The record as a block.
    pub fn to_block(&self) -> (raw: [u8; BLOCK_SIZE])
        ensures
            raw@ == self.bytes(),
    {
        let mut raw: [u8; BLOCK_SIZE] = [0u8; BLOCK_SIZE];
        let mut i: usize = 0;
        while i < BLOCK_SIZE
            invariant
                i <= BLOCK_SIZE,
                forall|j: int| 0 <= j < i ==> raw@[j] == self.byte(j),
            decreases BLOCK_SIZE - i,
        {
            raw[i] = self.byte_at(i);
            i = i + 1;
        }
        assert(raw@ =~= self.bytes());
        raw
    }

    /// The record that a block holds.
    pub fn load(raw: &[u8; BLOCK_SIZE]) -> (r: Self)
        ensures
            r.bytes() == raw@,
    {
        let s: &[u8] = raw;
        let mut allocated_blocks: [u32; 10] = [0u32; 10];
        let mut freed_blocks: [u32; 10] = [0u32; 10];
        let mut k: usize = 0;
        while k < 10
            invariant
                k <= 10,
                s@ == raw@,
                s@.len() == BLOCK_SIZE,
                forall|j: int|
                    0 <= j < k ==> allocated_blocks@[j] == #[trigger] le32(raw@, 48 + 4 * j),
                forall|j: int|
                    0 <= j < k ==> freed_blocks@[j] == #[trigger] le32(raw@, 88 + 4 * j),
            decreases 10 - k,
        {
            allocated_blocks[k] = read_u32(s, 48 + 4 * k);
            freed_blocks[k] = read_u32(s, 88 + 4 * k);
            k = k + 1;
        }
        let mut _reserved: [u8; 3388] = [0u8; 3388];
        let mut m: usize = 0;
        while m < 3388
            invariant
                m <= 3388,
                forall|j: int| 0 <= j < m ==> _reserved@[j] == raw@[708 + j],
            decreases 3388 - m,
        {
            _reserved[m] = raw[708 + m];
            m = m + 1;
        }
        let r = DiskJournalBlock {
            magic: read_u64(s, 0),
            sequence: read_u64(s, 8),
            format_version: read_u32(s, 16),
            op_type: read_u32(s, 20),
            state: read_u32(s, 24),
            target_inode_num: read_u32(s, 28),
            parent_dir_inode: read_u32(s, 32),
            dir_entry_slot: read_u32(s, 36),
            allocated_blocks_count: read_u32(s, 40),
            freed_blocks_count: read_u32(s, 44),
            allocated_blocks,
            freed_blocks,
            dir_entry_copy: DiskDirEntry::load(raw, 128),
            old_inode_image: DiskInode::load(raw, 192),
            new_inode_image: DiskInode::load(raw, 448),
            checksum: read_u32(s, 704),
            _reserved,
        };
        proof {
            lemma_record_loaded(r, raw@);
        }
        r
    }
}

/// The fields of `r` are those stored in a block.
spec fn loaded_from(r: DiskJournalBlock, b: Seq<u8>) -> bool {
    &&& r.magic == le64(b, 0)
    &&& r.sequence == le64(b, 8)
    &&& r.format_version == le32(b, 16)
    &&& r.op_type == le32(b, 20)
    &&& r.state == le32(b, 24)
    &&& r.target_inode_num == le32(b, 28)
    &&& r.parent_dir_inode == le32(b, 32)
    &&& r.dir_entry_slot == le32(b, 36)
    &&& r.allocated_blocks_count == le32(b, 40)
    &&& r.freed_blocks_count == le32(b, 44)
    &&& forall|j: int| 0 <= j < 10 ==> r.allocated_blocks@[j] == #[trigger] le32(b, 48 + 4 * j)
    &&& forall|j: int| 0 <= j < 10 ==> r.freed_blocks@[j] == #[trigger] le32(b, 88 + 4 * j)
    &&& r.dir_entry_copy.bytes() == b.subrange(128, 192)
    &&& r.old_inode_image.bytes() == b.subrange(192, 448)
    &&& r.new_inode_image.bytes() == b.subrange(448, 704)
    &&& r.checksum == le32(b, 704)
    &&& forall|j: int| 0 <= j < 3388 ==> r._reserved@[j] == b[708 + j]
}

/// The lists of blocks that were read are stored as they were.
proof fn lemma_lists_loaded(r: DiskJournalBlock, b: Seq<u8>, j: int)
    requires
        loaded_from(r, b),
        48 <= j < 128,
    ensures
        r.byte(j) == b[j],
{
    if j < 88 {
        let q = (j - 48) / 4;
        let k = (j - 48) % 4;
        assert(r.allocated_blocks@[q] == le32(b, 48 + 4 * q));
        lemma_bytes_le32(b, 48 + 4 * q);
        assert(byte_of(le32(b, 48 + 4 * q) as int, k) == b[48 + 4 * q + k]);
        assert(48 + 4 * q + k == j);
    } else {
        let q = (j - 88) / 4;
        let k = (j - 88) % 4;
        assert(r.freed_blocks@[q] == le32(b, 88 + 4 * q));
        lemma_bytes_le32(b, 88 + 4 * q);
        assert(byte_of(le32(b, 88 + 4 * q) as int, k) == b[88 + 4 * q + k]);
        assert(88 + 4 * q + k == j);
    }
}

/// The images that were read are stored as they were.
proof fn lemma_images_loaded(r: DiskJournalBlock, b: Seq<u8>, j: int)
    requires
        loaded_from(r, b),
        b.len() == 4096,
        128 <= j < 704,
    ensures
        r.byte(j) == b[j],
{
    if j < 192 {
        assert(r.dir_entry_copy.bytes()[j - 128] == r.dir_entry_copy.byte(j - 128));
        assert(b.subrange(128, 192)[j - 128] == b[j]);
    } else if j < 448 {
        assert(r.old_inode_image.bytes()[j - 192] == r.old_inode_image.byte(j - 192));
        assert(b.subrange(192, 448)[j - 192] == b[j]);
    } else {
        assert(r.new_inode_image.bytes()[j - 448] == r.new_inode_image.byte(j - 448));
        assert(b.subrange(448, 704)[j - 448] == b[j]);
    }
}

/// The numbers that were read are stored as they were.
proof fn lemma_numbers_loaded(r: DiskJournalBlock, b: Seq<u8>, j: int)
    requires
        loaded_from(r, b),
        0 <= j < 48 || 704 <= j < 708,
    ensures
        r.byte(j) == b[j],
{
    if j < 8 {
        lemma_bytes_le64(b, 0);
        assert(byte_of(r.magic as int, j) == b[j]);
    } else if j < 16 {
        lemma_bytes_le64(b, 8);
        assert(byte_of(r.sequence as int, j - 8) == b[8 + (j - 8)]);
    } else if j < 20 {
        lemma_bytes_le32(b, 16);
        assert(byte_of(r.format_version as int, j - 16) == b[16 + (j - 16)]);
    } else if j < 24 {
        lemma_bytes_le32(b, 20);
        assert(byte_of(r.op_type as int, j - 20) == b[20 + (j - 20)]);
    } else if j < 28 {
        lemma_bytes_le32(b, 24);
        assert(byte_of(r.state as int, j - 24) == b[24 + (j - 24)]);
    } else if j < 32 {
        lemma_bytes_le32(b, 28);
        assert(byte_of(r.target_inode_num as int, j - 28) == b[28 + (j - 28)]);
    } else if j < 36 {
        lemma_bytes_le32(b, 32);
        assert(byte_of(r.parent_dir_inode as int, j - 32) == b[32 + (j - 32)]);
    } else if j < 40 {
        lemma_bytes_le32(b, 36);
        assert(byte_of(r.dir_entry_slot as int, j - 36) == b[36 + (j - 36)]);
    } else if j < 44 {
        lemma_bytes_le32(b, 40);
        assert(byte_of(r.allocated_blocks_count as int, j - 40) == b[40 + (j - 40)]);
    } else if j < 48 {
        lemma_bytes_le32(b, 44);
        assert(byte_of(r.freed_blocks_count as int, j - 44) == b[44 + (j - 44)]);
    } else {
        lemma_bytes_le32(b, 704);
        assert(byte_of(r.checksum as int, j - 704) == b[704 + (j - 704)]);
    }
}

/// A record that was read is stored as it was.
proof fn lemma_record_loaded(r: DiskJournalBlock, b: Seq<u8>)
    requires
        loaded_from(r, b),
        b.len() == 4096,
    ensures
        r.bytes() == b,
{
    assert forall|j: int| 0 <= j < 4096 implies r.byte(j) == b[j] by {
        if j < 48 || 704 <= j < 708 {
            lemma_numbers_loaded(r, b, j);
        } else if j < 128 {
            lemma_lists_loaded(r, b, j);
        } else if j < 704 {
            lemma_images_loaded(r, b, j);
        } else {
            assert(r._reserved@[j - 708] == b[708 + (j - 708)]);
        }
    }
    assert(r.bytes() =~= b);
}

/// The numbers of two records with the same bytes are the same.
proof fn lemma_same_numbers(a: DiskJournalBlock, b: DiskJournalBlock)
    requires
        forall|i: int| 0 <= i < 4096 ==> #[trigger] a.byte(i) == b.byte(i),
    ensures
        a.magic == b.magic,
        a.sequence == b.sequence,
        a.format_version == b.format_version,
        a.op_type == b.op_type,
        a.state == b.state,
        a.target_inode_num == b.target_inode_num,
        a.parent_dir_inode == b.parent_dir_inode,
        a.dir_entry_slot == b.dir_entry_slot,
        a.allocated_blocks_count == b.allocated_blocks_count,
        a.freed_blocks_count == b.freed_blocks_count,
        a.checksum == b.checksum,
{
    assert forall|k: int| 0 <= k < 8 implies #[trigger] byte_of(a.magic as int, k) == byte_of(
        b.magic as int,
        k,
    ) by {
        assert(a.byte(k) == b.byte(k));
    }
    lemma_bytes_determine_u64(a.magic, b.magic);
    assert forall|k: int| 0 <= k < 8 implies #[trigger] byte_of(a.sequence as int, k) == byte_of(
        b.sequence as int,
        k,
    ) by {
        assert(a.byte(k + 8) == b.byte(k + 8));
    }
    lemma_bytes_determine_u64(a.sequence, b.sequence);
    assert forall|k: int| 0 <= k < 4 implies #[trigger] byte_of(a.format_version as int, k)
        == byte_of(b.format_version as int, k) by {
        assert(a.byte(k + 16) == b.byte(k + 16));
    }
    lemma_bytes_determine_u32(a.format_version, b.format_version);
    assert forall|k: int| 0 <= k < 4 implies #[trigger] byte_of(a.op_type as int, k) == byte_of(
        b.op_type as int,
        k,
    ) by {
        assert(a.byte(k + 20) == b.byte(k + 20));
    }
    lemma_bytes_determine_u32(a.op_type, b.op_type);
    assert forall|k: int| 0 <= k < 4 implies #[trigger] byte_of(a.state as int, k) == byte_of(
        b.state as int,
        k,
    ) by {
        assert(a.byte(k + 24) == b.byte(k + 24));
    }
    lemma_bytes_determine_u32(a.state, b.state);
    assert forall|k: int| 0 <= k < 4 implies #[trigger] byte_of(a.target_inode_num as int, k)
        == byte_of(b.target_inode_num as int, k) by {
        assert(a.byte(k + 28) == b.byte(k + 28));
    }
    lemma_bytes_determine_u32(a.target_inode_num, b.target_inode_num);
    assert forall|k: int| 0 <= k < 4 implies #[trigger] byte_of(a.parent_dir_inode as int, k)
        == byte_of(b.parent_dir_inode as int, k) by {
        assert(a.byte(k + 32) == b.byte(k + 32));
    }
    lemma_bytes_determine_u32(a.parent_dir_inode, b.parent_dir_inode);
    assert forall|k: int| 0 <= k < 4 implies #[trigger] byte_of(a.dir_entry_slot as int, k)
        == byte_of(b.dir_entry_slot as int, k) by {
        assert(a.byte(k + 36) == b.byte(k + 36));
    }
    lemma_bytes_determine_u32(a.dir_entry_slot, b.dir_entry_slot);
    assert forall|k: int| 0 <= k < 4 implies #[trigger] byte_of(a.allocated_blocks_count as int, k)
        == byte_of(b.allocated_blocks_count as int, k) by {
        assert(a.byte(k + 40) == b.byte(k + 40));
    }
    lemma_bytes_determine_u32(a.allocated_blocks_count, b.allocated_blocks_count);
    assert forall|k: int| 0 <= k < 4 implies #[trigger] byte_of(a.freed_blocks_count as int, k)
        == byte_of(b.freed_blocks_count as int, k) by {
        assert(a.byte(k + 44) == b.byte(k + 44));
    }
    lemma_bytes_determine_u32(a.freed_blocks_count, b.freed_blocks_count);
    assert forall|k: int| 0 <= k < 4 implies #[trigger] byte_of(a.checksum as int, k) == byte_of(
        b.checksum as int,
        k,
    ) by {
        assert(a.byte(k + 704) == b.byte(k + 704));
    }
    lemma_bytes_determine_u32(a.checksum, b.checksum);
}

/// The lists of two records with the same bytes are the same.
proof fn lemma_same_lists(a: DiskJournalBlock, b: DiskJournalBlock)
    requires
        forall|i: int| 0 <= i < 4096 ==> #[trigger] a.byte(i) == b.byte(i),
    ensures
        a.allocated_blocks == b.allocated_blocks,
        a.freed_blocks == b.freed_blocks,
        a._reserved == b._reserved,
{
    assert forall|q: int| 0 <= q < 10 implies #[trigger] a.allocated_blocks@[q]
        == b.allocated_blocks@[q] by {
        assert forall|k: int| 0 <= k < 4 implies #[trigger] byte_of(
            a.allocated_blocks@[q] as int,
            k,
        ) == byte_of(b.allocated_blocks@[q] as int, k) by {
            let i = 48 + 4 * q + k;
            assert((i - 48) / 4 == q && (i - 48) % 4 == k);
            assert(a.byte(i) == b.byte(i));
        }
        lemma_bytes_determine_u32(a.allocated_blocks@[q], b.allocated_blocks@[q]);
    }
    assert(a.allocated_blocks@ =~= b.allocated_blocks@);
    assert forall|q: int| 0 <= q < 10 implies #[trigger] a.freed_blocks@[q]
        == b.freed_blocks@[q] by {
        assert forall|k: int| 0 <= k < 4 implies #[trigger] byte_of(a.freed_blocks@[q] as int, k)
            == byte_of(b.freed_blocks@[q] as int, k) by {
            let i = 88 + 4 * q + k;
            assert((i - 88) / 4 == q && (i - 88) % 4 == k);
            assert(a.byte(i) == b.byte(i));
        }
        lemma_bytes_determine_u32(a.freed_blocks@[q], b.freed_blocks@[q]);
    }
    assert(a.freed_blocks@ =~= b.freed_blocks@);
    assert forall|k: int| 0 <= k < 3388 implies #[trigger] a._reserved@[k] == b._reserved@[k] by {
        assert(a.byte(k + 708) == b.byte(k + 708));
    }
    assert(a._reserved@ =~= b._reserved@);
}

/// A record is determined by its bytes.
pub proof fn lemma_record_bytes_determine(a: DiskJournalBlock, b: DiskJournalBlock)
    requires
        a.bytes() == b.bytes(),
    ensures
        a == b,
{
    assert forall|i: int| 0 <= i < 4096 implies #[trigger] a.byte(i) == b.byte(i) by {
        assert(a.bytes()[i] == a.byte(i));
        assert(b.bytes()[i] == b.byte(i));
    }
    lemma_same_numbers(a, b);
    lemma_same_lists(a, b);
    assert forall|i: int| 0 <= i < 64 implies a.dir_entry_copy.bytes()[i]
        == b.dir_entry_copy.bytes()[i] by {
        assert(a.byte(i + 128) == b.byte(i + 128));
    }
    assert(a.dir_entry_copy.bytes() =~= b.dir_entry_copy.bytes());
    lemma_entry_bytes_determine(a.dir_entry_copy, b.dir_entry_copy);
    assert forall|i: int| 0 <= i < 256 implies a.old_inode_image.bytes()[i]
        == b.old_inode_image.bytes()[i] by {
        assert(a.byte(i + 192) == b.byte(i + 192));
    }
    assert(a.old_inode_image.bytes() =~= b.old_inode_image.bytes());
    lemma_inode_bytes_determine(a.old_inode_image, b.old_inode_image);
    assert forall|i: int| 0 <= i < 256 implies a.new_inode_image.bytes()[i]
        == b.new_inode_image.bytes()[i] by {
        assert(a.byte(i + 448) == b.byte(i + 448));
    }
    assert(a.new_inode_image.bytes() =~= b.new_inode_image.bytes());
    lemma_inode_bytes_determine(a.new_inode_image, b.new_inode_image);
}

/// Giving a record the right checksum makes its checksum right.
pub proof fn law_sealed_record_is_valid(j: DiskJournalBlock)
    ensures
        j.sealed().checksum == j.sealed().crc(),
        j.sealed().sealed() == j.sealed(),
{
    let s = j.sealed();
    assert forall|k: int| 0 <= k < 704 implies s.bytes().take(704)[k] == j.bytes().take(704)[k] by {}
    assert(s.bytes().take(704) =~= j.bytes().take(704));
}

/// The record of no change.
pub open spec fn empty_record() -> DiskJournalBlock {
    DiskJournalBlock {
        magic: JOURNAL_MAGIC,
        sequence: 0,
        format_version: 1,
        op_type: 0,
        state: 0,
        target_inode_num: 0,
        parent_dir_inode: 0,
        dir_entry_slot: 0xFFFF_FFFF,
        allocated_blocks_count: 0,
        freed_blocks_count: 0,
        allocated_blocks: spec_array_fill_for_copy_type::<u32, 10>(0),
        freed_blocks: spec_array_fill_for_copy_type::<u32, 10>(0),
        dir_entry_copy: empty_entry(),
        old_inode_image: empty_inode(),
        new_inode_image: empty_inode(),
        checksum: 0,
        _reserved: spec_array_fill_for_copy_type::<u8, 3388>(0),
    }
}

} // verus!
