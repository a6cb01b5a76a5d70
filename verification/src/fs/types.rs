//! What is stored on a volume, byte by byte.
use crate::bytes::{
    byte_of, lemma_bytes_determine_u32, lemma_bytes_determine_u64, lemma_bytes_le32,
    lemma_bytes_le64, nth_byte, overwrite, read_u32, read_u64,
};
use vstd::prelude::*;

pub mod disk_dir_entry;
pub mod disk_inode;
pub mod disk_journal_block;

pub use self::disk_dir_entry::DiskDirEntry;
pub use self::disk_inode::DiskInode;
pub use self::disk_journal_block::DiskJournalBlock;

verus! {

pub const SECTOR_SIZE: usize = 512;

pub const BLOCK_SIZE: usize = 4096;

pub const SECTORS_PER_BLOCK: usize = 8;

/// A volume has at most 128 MiB.
pub const MAX_VOLUME_BLOCKS: u64 = 32_768;

pub const MAX_INODES: usize = 256;

pub const INODES_PER_BLOCK: usize = 16;

pub const INODE_TABLE_BLOCKS: u64 = 16;

pub const SUPERBLOCK_BLOCK: u64 = 1;

pub const JOURNAL_BLOCK: u64 = 2;

pub const INODE_BITMAP_BLOCK: u64 = 3;

pub const BLOCK_BITMAP_BLOCK: u64 = 4;

pub const INODE_TABLE_START: u64 = 5;

pub const ROOT_DIR_BLOCK: u64 = 21;

pub const DATA_BLOCK_START: u64 = 22;

pub const ROOT_DIR_INODE: u32 = 1;

pub const NULL_INODE: u32 = 0;

/// `ZERO_FS` and a zero byte.
pub const SUPERBLOCK_MAGIC: [u8; 8] = [0x5A, 0x45, 0x52, 0x4F, 0x5F, 0x46, 0x53, 0x00];

pub const JOURNAL_MAGIC: u64 = 0x5A45_524F_5F4A_524E;

pub const MAX_DATA_BLOCKS_PER_TX: usize = 8;

pub const MAX_METADATA_BLOCKS_PER_TX: usize = 1;

pub const MAX_TOTAL_ALLOCATIONS_PER_TX: usize = 10;

pub const MAX_TOTAL_FREES_PER_TX: usize = 10;

pub const MAX_TRANSACTION_BYTES: usize = 32_768;

pub const MAX_FILENAME_LEN: usize = 55;

pub const DIR_ENTRIES_PER_BLOCK: usize = 64;

pub const INODE_FLAG_IMMUTABLE: u16 = 1;

pub const INODE_FLAG_SYNC: u16 = 2;

pub const INODE_FLAG_PENDING_DELETE: u16 = 4;

pub const O_READ: u32 = 1;

pub const O_WRITE: u32 = 2;

pub const O_CREATE: u32 = 4;

pub const O_TRUNC: u32 = 8;

pub const O_APPEND: u32 = 16;

#[derive(Debug, Clone, Copy, PartialEq, Eq, Structural)]
pub enum InodeType {
    Free,
    Regular,
    Directory,
}

impl InodeType {
    /// The number by which the type is stored.
    pub open spec fn number(self) -> u16 {
        match self {
            InodeType::Free => 0,
            InodeType::Regular => 1,
            InodeType::Directory => 2,
        }
    }

    pub fn code(self) -> (r: u16)
        ensures
            r == self.number(),
    {
        match self {
            InodeType::Free => 0,
            InodeType::Regular => 1,
            InodeType::Directory => 2,
        }
    }
}

#[derive(Debug, Clone, Copy, PartialEq, Eq, Structural)]
pub enum JournalOpType {
    Nothing,
    Create,
    Write,
    Truncate,
    Delete,
}

impl JournalOpType {
    /// The number by which the operation is stored.
    pub open spec fn number(self) -> u32 {
        match self {
            JournalOpType::Nothing => 0,
            JournalOpType::Create => 1,
            JournalOpType::Write => 2,
            JournalOpType::Truncate => 3,
            JournalOpType::Delete => 4,
        }
    }

    pub fn code(self) -> (r: u32)
        ensures
            r == self.number(),
    {
        match self {
            JournalOpType::Nothing => 0,
            JournalOpType::Create => 1,
            JournalOpType::Write => 2,
            JournalOpType::Truncate => 3,
            JournalOpType::Delete => 4,
        }
    }
}

#[derive(Debug, Clone, Copy, PartialEq, Eq, Structural)]
pub enum JournalState {
    Free,
    Intent,
    Committed,
}

impl JournalState {
    /// The number by which the state is stored.
    pub open spec fn number(self) -> u32 {
        match self {
            JournalState::Free => 0,
            JournalState::Intent => 1,
            JournalState::Committed => 2,
        }
    }

    pub fn code(self) -> (r: u32)
        ensures
            r == self.number(),
    {
        match self {
            JournalState::Free => 0,
            JournalState::Intent => 1,
            JournalState::Committed => 2,
        }
    }
}

#[derive(Debug, Clone, Copy, PartialEq, Eq, Structural)]
pub enum FsError {
    DeviceError,
    DeviceTimeout,
    InvalidSuperblock,
    CorruptJournal,
    CorruptMetadata,
    NoSpace,
    NoInode,
    NotFound,
    AlreadyExists,
    IsDirectory,
    NotDirectory,
    NotEmpty,
    InvalidArgument,
    PermissionDenied,
    TableFull,
    Busy,
}

/// One bit of the division by the polynomial of CRC-32.
pub open spec fn crc_bit(c: u32) -> u32 {
    if c & 1 == 1 {
        (c >> 1) ^ 0xEDB8_8320
    } else {
        c >> 1
    }
}

/// `n` bits of the division.
pub open spec fn crc_bits(c: u32, n: nat) -> u32
    decreases n,
{
    if n == 0 {
        c
    } else {
        crc_bit(crc_bits(c, (n - 1) as nat))
    }
}

/// The remainder after the bytes of `s`.
pub open spec fn crc_register(s: Seq<u8>) -> u32
    decreases s.len(),
{
    if s.len() == 0 {
        0xFFFF_FFFF
    } else {
        crc_bits(crc_register(s.drop_last()) ^ (s.last() as u32), 8)
    }
}

/// The CRC-32 of a sequence of bytes.
pub open spec fn crc_of(s: Seq<u8>) -> u32 {
    !crc_register(s)
}

/// Moves a remainder on by one byte.
pub(crate) fn crc_push(c: u32, byte: u8) -> (r: u32)
    ensures
        r == crc_bits(c ^ (byte as u32), 8),
{
    let ghost start = c ^ (byte as u32);
    let mut crc: u32 = c ^ (byte as u32);
    let mut k: usize = 0;
    while k < 8
        invariant
            k <= 8,
            crc == crc_bits(start, k as nat),
        decreases 8 - k,
    {
        crc = if crc & 1 == 1 {
            (crc >> 1) ^ 0xEDB8_8320
        } else {
            crc >> 1
        };
        k = k + 1;
    }
    crc
}

/// The CRC-32 of IEEE 802.3.
pub fn crc32(data: &[u8]) -> (r: u32)
    ensures
        r == crc_of(data@),
{
    let mut crc: u32 = 0xFFFF_FFFF;
    let mut i: usize = 0;
    assert(data@.take(0).len() == 0);
    while i < data.len()
        invariant
            i <= data@.len(),
            crc == crc_register(data@.take(i as int)),
        decreases data@.len() - i,
    {
        assert(data@.take(i + 1).drop_last() =~= data@.take(i as int));
        assert(data@.take(i + 1).last() == data@[i as int]);
        crc = crc_push(crc, data[i]);
        i = i + 1;
    }
    assert(data@.take(i as int) =~= data@);
    !crc
}

/// The first block of a volume that is in use: what the volume is and how it is laid out.
#[derive(Debug, Clone, Copy)]
pub struct DiskSuperblock {
    pub magic: [u8; 8],
    pub version: u32,
    pub block_size: u32,
    pub total_blocks: u64,
    pub free_blocks: u64,
    pub total_inodes: u32,
    pub free_inodes: u32,
    pub journal_block: u64,
    pub block_bitmap_block: u64,
    pub inode_bitmap_block: u64,
    pub inode_table_block: u64,
    pub inode_table_blocks: u32,
    pub root_dir_inode: u32,
    /// 0 is clean, 1 dirty, 2 recovering, 3 faulted.
    pub volume_state: u32,
    pub mount_count: u32,
    /// CRC-32 of the 88 bytes before it.
    pub checksum: u32,
    pub _pad: u32,
    pub volume_label: [u8; 32],
}

impl DiskSuperblock {
    /// Byte number `i` of what is stored.
    pub open spec fn byte(&self, i: int) -> u8 {
        if i < 8 {
            self.magic@[i]
        } else if i < 12 {
            byte_of(self.version as int, i - 8)
        } else if i < 16 {
            byte_of(self.block_size as int, i - 12)
        } else if i < 24 {
            byte_of(self.total_blocks as int, i - 16)
        } else if i < 32 {
            byte_of(self.free_blocks as int, i - 24)
        } else if i < 36 {
            byte_of(self.total_inodes as int, i - 32)
        } else if i < 40 {
            byte_of(self.free_inodes as int, i - 36)
        } else if i < 48 {
            byte_of(self.journal_block as int, i - 40)
        } else if i < 56 {
            byte_of(self.block_bitmap_block as int, i - 48)
        } else if i < 64 {
            byte_of(self.inode_bitmap_block as int, i - 56)
        } else if i < 72 {
            byte_of(self.inode_table_block as int, i - 64)
        } else if i < 76 {
            byte_of(self.inode_table_blocks as int, i - 72)
        } else if i < 80 {
            byte_of(self.root_dir_inode as int, i - 76)
        } else if i < 84 {
            byte_of(self.volume_state as int, i - 80)
        } else if i < 88 {
            byte_of(self.mount_count as int, i - 84)
        } else if i < 92 {
            byte_of(self.checksum as int, i - 88)
        } else if i < 96 {
            byte_of(self._pad as int, i - 92)
        } else {
            self.volume_label@[i - 96]
        }
    }

    /// The 128 bytes that are stored.
    pub open spec fn bytes(&self) -> Seq<u8> {
        Seq::new(128, |i: int| self.byte(i))
    }

    /// What the checksum has to be.
    pub open spec fn crc(&self) -> u32 {
        crc_of(self.bytes().take(88))
    }

    /// The superblock with the right checksum.
    pub open spec fn sealed(self) -> DiskSuperblock {
        DiskSuperblock { checksum: self.crc(), ..self }
    }

    /// The superblock describes a volume that can be mounted.
    pub open spec fn valid(&self) -> bool {
        &&& self.magic@ == SUPERBLOCK_MAGIC@
        &&& self.version == 1
        &&& self.block_size == BLOCK_SIZE
        &&& self.total_blocks <= MAX_VOLUME_BLOCKS
        &&& self.total_inodes == MAX_INODES
        &&& self.checksum == self.crc()
    }

    fn byte_at(&self, i: usize) -> (r: u8)
        requires
            i < 128,
        ensures
            r == self.byte(i as int),
    {
        if i < 8 {
            self.magic[i]
        } else if i < 12 {
            nth_byte(self.version as u64, i - 8)
        } else if i < 16 {
            nth_byte(self.block_size as u64, i - 12)
        } else if i < 24 {
            nth_byte(self.total_blocks, i - 16)
        } else if i < 32 {
            nth_byte(self.free_blocks, i - 24)
        } else if i < 36 {
            nth_byte(self.total_inodes as u64, i - 32)
        } else if i < 40 {
            nth_byte(self.free_inodes as u64, i - 36)
        } else if i < 48 {
            nth_byte(self.journal_block, i - 40)
        } else if i < 56 {
            nth_byte(self.block_bitmap_block, i - 48)
        } else if i < 64 {
            nth_byte(self.inode_bitmap_block, i - 56)
        } else if i < 72 {
            nth_byte(self.inode_table_block, i - 64)
        } else if i < 76 {
            nth_byte(self.inode_table_blocks as u64, i - 72)
        } else if i < 80 {
            nth_byte(self.root_dir_inode as u64, i - 76)
        } else if i < 84 {
            nth_byte(self.volume_state as u64, i - 80)
        } else if i < 88 {
            nth_byte(self.mount_count as u64, i - 84)
        } else if i < 92 {
            nth_byte(self.checksum as u64, i - 88)
        } else if i < 96 {
            nth_byte(self._pad as u64, i - 92)
        } else {
            self.volume_label[i - 96]
        }
    }

    fn compute_crc(&self) -> (r: u32)
        ensures
            r == self.crc(),
    {
        let ghost b = self.bytes();
        let mut crc: u32 = 0xFFFF_FFFF;
        let mut i: usize = 0;
        assert(b.take(0).len() == 0);
        while i < 88
            invariant
                i <= 88,
                b == self.bytes(),
                crc == crc_register(b.take(i as int)),
            decreases 88 - i,
        {
            assert(b.take(i + 1).drop_last() =~= b.take(i as int));
            assert(b.take(i + 1).last() == b[i as int]);
            crc = crc_push(crc, self.byte_at(i));
            i = i + 1;
        }
        !crc
    }

    pub fn is_valid(&self) -> (r: bool)
        ensures
            r == self.valid(),
    {
        let mut i: usize = 0;
        while i < 8
            invariant
                i <= 8,
                forall|j: int| 0 <= j < i ==> self.magic@[j] == SUPERBLOCK_MAGIC@[j],
            decreases 8 - i,
        {
            if self.magic[i] != SUPERBLOCK_MAGIC[i] {
                return false;
            }
            i = i + 1;
        }
        assert(self.magic@ =~= SUPERBLOCK_MAGIC@);
        if self.version != 1 || self.block_size != BLOCK_SIZE as u32 {
            return false;
        }
        if self.total_blocks > MAX_VOLUME_BLOCKS || self.total_inodes != MAX_INODES as u32 {
            return false;
        }
        self.compute_crc() == self.checksum
    }

    pub fn recompute_checksum(&mut self)
        ensures
            *final(self) == old(self).sealed(),
    {
        let crc: u32 = self.compute_crc();
        self.checksum = crc;
    }

    /// Writes the superblock to the start of a block.
    pub fn store(&self, raw: &mut [u8; BLOCK_SIZE])
        ensures
            final(raw)@ == overwrite(old(raw)@, 0, self.bytes()),
    {
        let mut i: usize = 0;
        while i < 128
            invariant
                i <= 128,
                forall|j: int|
                    0 <= j < BLOCK_SIZE ==> raw@[j] == (if j < i {
                        self.byte(j)
                    } else {
                        old(raw)@[j]
                    }),
            decreases 128 - i,
        {
            raw[i] = self.byte_at(i);
            i = i + 1;
        }
        assert(raw@ =~= overwrite(old(raw)@, 0, self.bytes()));
    }

    /// Reads a superblock from the start of a block.
    pub fn load(raw: &[u8; BLOCK_SIZE]) -> (r: Self)
        ensures
            r.bytes() == raw@.take(128),
    {
        let s: &[u8] = raw;
        let mut magic: [u8; 8] = [0u8; 8];
        let mut i: usize = 0;
        while i < 8
            invariant
                i <= 8,
                forall|j: int| 0 <= j < i ==> magic@[j] == raw@[j],
            decreases 8 - i,
        {
            magic[i] = raw[i];
            i = i + 1;
        }
        let mut volume_label: [u8; 32] = [0u8; 32];
        let mut k: usize = 0;
        while k < 32
            invariant
                k <= 32,
                forall|j: int| 0 <= j < k ==> volume_label@[j] == raw@[96 + j],
            decreases 32 - k,
        {
            volume_label[k] = raw[96 + k];
            k = k + 1;
        }
        let r = DiskSuperblock {
            magic,
            version: read_u32(s, 8),
            block_size: read_u32(s, 12),
            total_blocks: read_u64(s, 16),
            free_blocks: read_u64(s, 24),
            total_inodes: read_u32(s, 32),
            free_inodes: read_u32(s, 36),
            journal_block: read_u64(s, 40),
            block_bitmap_block: read_u64(s, 48),
            inode_bitmap_block: read_u64(s, 56),
            inode_table_block: read_u64(s, 64),
            inode_table_blocks: read_u32(s, 72),
            root_dir_inode: read_u32(s, 76),
            volume_state: read_u32(s, 80),
            mount_count: read_u32(s, 84),
            checksum: read_u32(s, 88),
            _pad: read_u32(s, 92),
            volume_label,
        };
        proof {
            let b = raw@;
            lemma_bytes_le32(b, 8);
            lemma_bytes_le32(b, 12);
            lemma_bytes_le64(b, 16);
            lemma_bytes_le64(b, 24);
            lemma_bytes_le32(b, 32);
            lemma_bytes_le32(b, 36);
            lemma_bytes_le64(b, 40);
            lemma_bytes_le64(b, 48);
            lemma_bytes_le64(b, 56);
            lemma_bytes_le64(b, 64);
            lemma_bytes_le32(b, 72);
            lemma_bytes_le32(b, 76);
            lemma_bytes_le32(b, 80);
            lemma_bytes_le32(b, 84);
            lemma_bytes_le32(b, 88);
            lemma_bytes_le32(b, 92);
            assert(r.bytes() =~= b.take(128));
        }
        r
    }
}

/// The bytes of a superblock determine it.
#[verifier::spinoff_prover]
#[verifier::rlimit(60)]
pub proof fn lemma_superblock_bytes_determine(a: DiskSuperblock, b: DiskSuperblock)
    requires
        a.bytes() == b.bytes(),
    ensures
        a == b,
{
    assert forall|i: int| 0 <= i < 128 implies #[trigger] a.byte(i) == b.byte(i) by {
        assert(a.bytes()[i] == a.byte(i));
        assert(b.bytes()[i] == b.byte(i));
    }
    assert forall|k: int| 0 <= k < 8 implies #[trigger] a.magic@[k] == b.magic@[k] by {
        assert(a.byte(k) == b.byte(k));
    }
    assert(a.magic@ =~= b.magic@);
    assert(a.magic == b.magic);
    assert forall|k: int| 0 <= k < 4 implies #[trigger] byte_of(a.version as int, k) == byte_of(
        b.version as int,
        k,
    ) by {
        assert(a.byte(k + 8) == b.byte(k + 8));
    }
    lemma_bytes_determine_u32(a.version, b.version);
    assert forall|k: int| 0 <= k < 4 implies #[trigger] byte_of(a.block_size as int, k) == byte_of(
        b.block_size as int,
        k,
    ) by {
        assert(a.byte(k + 12) == b.byte(k + 12));
    }
    lemma_bytes_determine_u32(a.block_size, b.block_size);
    assert forall|k: int| 0 <= k < 8 implies #[trigger] byte_of(a.total_blocks as int, k) == byte_of(
        b.total_blocks as int,
        k,
    ) by {
        assert(a.byte(k + 16) == b.byte(k + 16));
    }
    lemma_bytes_determine_u64(a.total_blocks, b.total_blocks);
    assert forall|k: int| 0 <= k < 8 implies #[trigger] byte_of(a.free_blocks as int, k) == byte_of(
        b.free_blocks as int,
        k,
    ) by {
        assert(a.byte(k + 24) == b.byte(k + 24));
    }
    lemma_bytes_determine_u64(a.free_blocks, b.free_blocks);
    assert forall|k: int| 0 <= k < 4 implies #[trigger] byte_of(a.total_inodes as int, k) == byte_of(
        b.total_inodes as int,
        k,
    ) by {
        assert(a.byte(k + 32) == b.byte(k + 32));
    }
    lemma_bytes_determine_u32(a.total_inodes, b.total_inodes);
    assert forall|k: int| 0 <= k < 4 implies #[trigger] byte_of(a.free_inodes as int, k) == byte_of(
        b.free_inodes as int,
        k,
    ) by {
        assert(a.byte(k + 36) == b.byte(k + 36));
    }
    lemma_bytes_determine_u32(a.free_inodes, b.free_inodes);
    assert forall|k: int| 0 <= k < 8 implies #[trigger] byte_of(a.journal_block as int, k) == byte_of(
        b.journal_block as int,
        k,
    ) by {
        assert(a.byte(k + 40) == b.byte(k + 40));
    }
    lemma_bytes_determine_u64(a.journal_block, b.journal_block);
    assert forall|k: int| 0 <= k < 8 implies #[trigger] byte_of(a.block_bitmap_block as int, k) == byte_of(
        b.block_bitmap_block as int,
        k,
    ) by {
        assert(a.byte(k + 48) == b.byte(k + 48));
    }
    lemma_bytes_determine_u64(a.block_bitmap_block, b.block_bitmap_block);
    assert forall|k: int| 0 <= k < 8 implies #[trigger] byte_of(a.inode_bitmap_block as int, k) == byte_of(
        b.inode_bitmap_block as int,
        k,
    ) by {
        assert(a.byte(k + 56) == b.byte(k + 56));
    }
    lemma_bytes_determine_u64(a.inode_bitmap_block, b.inode_bitmap_block);
    assert forall|k: int| 0 <= k < 8 implies #[trigger] byte_of(a.inode_table_block as int, k) == byte_of(
        b.inode_table_block as int,
        k,
    ) by {
        assert(a.byte(k + 64) == b.byte(k + 64));
    }
    lemma_bytes_determine_u64(a.inode_table_block, b.inode_table_block);
    assert forall|k: int| 0 <= k < 4 implies #[trigger] byte_of(a.inode_table_blocks as int, k) == byte_of(
        b.inode_table_blocks as int,
        k,
    ) by {
        assert(a.byte(k + 72) == b.byte(k + 72));
    }
    lemma_bytes_determine_u32(a.inode_table_blocks, b.inode_table_blocks);
    assert forall|k: int| 0 <= k < 4 implies #[trigger] byte_of(a.root_dir_inode as int, k) == byte_of(
        b.root_dir_inode as int,
        k,
    ) by {
        assert(a.byte(k + 76) == b.byte(k + 76));
    }
    lemma_bytes_determine_u32(a.root_dir_inode, b.root_dir_inode);
    assert forall|k: int| 0 <= k < 4 implies #[trigger] byte_of(a.volume_state as int, k) == byte_of(
        b.volume_state as int,
        k,
    ) by {
        assert(a.byte(k + 80) == b.byte(k + 80));
    }
    lemma_bytes_determine_u32(a.volume_state, b.volume_state);
    assert forall|k: int| 0 <= k < 4 implies #[trigger] byte_of(a.mount_count as int, k) == byte_of(
        b.mount_count as int,
        k,
    ) by {
        assert(a.byte(k + 84) == b.byte(k + 84));
    }
    lemma_bytes_determine_u32(a.mount_count, b.mount_count);
    assert forall|k: int| 0 <= k < 4 implies #[trigger] byte_of(a.checksum as int, k) == byte_of(
        b.checksum as int,
        k,
    ) by {
        assert(a.byte(k + 88) == b.byte(k + 88));
    }
    lemma_bytes_determine_u32(a.checksum, b.checksum);
    assert forall|k: int| 0 <= k < 4 implies #[trigger] byte_of(a._pad as int, k) == byte_of(
        b._pad as int,
        k,
    ) by {
        assert(a.byte(k + 92) == b.byte(k + 92));
    }
    lemma_bytes_determine_u32(a._pad, b._pad);
    assert forall|k: int| 0 <= k < 32 implies #[trigger] a.volume_label@[k] == b.volume_label@[k] by {
        assert(a.byte(k + 96) == b.byte(k + 96));
    }
    assert(a.volume_label@ =~= b.volume_label@);
    assert(a.volume_label == b.volume_label);
}

/// Giving a superblock the right checksum makes its checksum right.
pub proof fn law_sealed_superblock_is_valid(b: DiskSuperblock)
    ensures
        b.sealed().checksum == b.sealed().crc(),
        b.sealed().sealed() == b.sealed(),
{
    let s = b.sealed();
    assert forall|k: int| 0 <= k < 88 implies s.bytes().take(88)[k] == b.bytes().take(88)[k] by {}
    assert(s.bytes().take(88) =~= b.bytes().take(88));
}

/// What a query about a file answers.
#[derive(Debug, Clone, Copy, PartialEq, Eq, Structural)]
pub struct UserFileStat {
    pub size_bytes: u64,
    pub blocks_count: u64,
    pub file_type: u32,
    pub generation: u32,
    pub mtime_ticks: u64,
}

} // verus!
