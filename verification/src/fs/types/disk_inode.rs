//! Inodes as they are stored: 256 bytes each.
use crate::bytes::{
    byte_of, le16, le32, le64, lemma_bytes_determine_u16, lemma_bytes_determine_u32,
    lemma_bytes_determine_u64, lemma_bytes_le16, lemma_bytes_le32, lemma_bytes_le64, nth_byte,
    overwrite, read_u16, read_u32, read_u64,
};
use crate::fs::types::{crc_of, crc_push, crc_register, BLOCK_SIZE};
use vstd::array::spec_array_fill_for_copy_type;
use vstd::prelude::*;

verus! {

/// What is known of a file.
#[derive(Debug, Clone, Copy)]
pub struct DiskInode {
    pub file_type: u16,
    pub flags: u16,
    pub links_count: u32,
    pub size_bytes: u64,
    pub blocks_count: u64,
    pub creator_pid: u64,
    pub ctime_ticks: u64,
    pub mtime_ticks: u64,
    pub generation: u32,
    /// CRC-32 of the 52 bytes before it.
    pub checksum: u32,
    pub _reserved: [u8; 8],
    pub direct_blocks: [u32; 18],
    pub indirect_block: u32,
    pub _pad_indirect: u32,
    pub _reserved_expansion: [u8; 112],
}

impl DiskInode {
    /// Byte number `i` of what is stored.
    pub open spec fn byte(&self, i: int) -> u8 {
        if i < 2 {
            byte_of(self.file_type as int, i)
        } else if i < 4 {
            byte_of(self.flags as int, i - 2)
        } else if i < 8 {
            byte_of(self.links_count as int, i - 4)
        } else if i < 16 {
            byte_of(self.size_bytes as int, i - 8)
        } else if i < 24 {
            byte_of(self.blocks_count as int, i - 16)
        } else if i < 32 {
            byte_of(self.creator_pid as int, i - 24)
        } else if i < 40 {
            byte_of(self.ctime_ticks as int, i - 32)
        } else if i < 48 {
            byte_of(self.mtime_ticks as int, i - 40)
        } else if i < 52 {
            byte_of(self.generation as int, i - 48)
        } else if i < 56 {
            byte_of(self.checksum as int, i - 52)
        } else if i < 64 {
            self._reserved@[i - 56]
        } else if i < 136 {
            byte_of(self.direct_blocks@[(i - 64) / 4] as int, (i - 64) % 4)
        } else if i < 140 {
            byte_of(self.indirect_block as int, i - 136)
        } else if i < 144 {
            byte_of(self._pad_indirect as int, i - 140)
        } else {
            self._reserved_expansion@[i - 144]
        }
    }

    /// The 256 bytes that are stored.
    pub open spec fn bytes(&self) -> Seq<u8> {
        Seq::new(256, |i: int| self.byte(i))
    }

    /// What the checksum has to be.
    pub open spec fn crc(&self) -> u32 {
        crc_of(self.bytes().take(52))
    }

    /// The inode with the right checksum.
    pub open spec fn sealed(self) -> DiskInode {
        DiskInode { checksum: self.crc(), ..self }
    }

    pub fn empty() -> (r: Self)
        ensures
            r == empty_inode(),
    {
        DiskInode {
            file_type: 0,
            flags: 0,
            links_count: 0,
            size_bytes: 0,
            blocks_count: 0,
            creator_pid: 0,
            ctime_ticks: 0,
            mtime_ticks: 0,
            generation: 1,
            checksum: 0,
            _reserved: [0u8; 8],
            direct_blocks: [0u32; 18],
            indirect_block: 0,
            _pad_indirect: 0,
            _reserved_expansion: [0u8; 112],
        }
    }

    pub(crate) fn byte_at(&self, i: usize) -> (r: u8)
        requires
            i < 256,
        ensures
            r == self.byte(i as int),
    {
        if i < 2 {
            nth_byte(self.file_type as u64, i)
        } else if i < 4 {
            nth_byte(self.flags as u64, i - 2)
        } else if i < 8 {
            nth_byte(self.links_count as u64, i - 4)
        } else if i < 16 {
            nth_byte(self.size_bytes, i - 8)
        } else if i < 24 {
            nth_byte(self.blocks_count, i - 16)
        } else if i < 32 {
            nth_byte(self.creator_pid, i - 24)
        } else if i < 40 {
            nth_byte(self.ctime_ticks, i - 32)
        } else if i < 48 {
            nth_byte(self.mtime_ticks, i - 40)
        } else if i < 52 {
            nth_byte(self.generation as u64, i - 48)
        } else if i < 56 {
            nth_byte(self.checksum as u64, i - 52)
        } else if i < 64 {
            self._reserved[i - 56]
        } else if i < 136 {
            nth_byte(self.direct_blocks[(i - 64) / 4] as u64, (i - 64) % 4)
        } else if i < 140 {
            nth_byte(self.indirect_block as u64, i - 136)
        } else if i < 144 {
            nth_byte(self._pad_indirect as u64, i - 140)
        } else {
            self._reserved_expansion[i - 144]
        }
    }

    fn compute_crc(&self) -> (r: u32)
        ensures
            r == self.crc(),
    {
        let ghost b = self.bytes();
        let mut crc: u32 = 0xFFFF_FFFF;
        let mut i: usize = 0;
        assert(b.take(0).len() == 0);
        while i < 52
            invariant
                i <= 52,
                b == self.bytes(),
                crc == crc_register(b.take(i as int)),
            decreases 52 - i,
        {
            assert(b.take(i + 1).drop_last() =~= b.take(i as int));
            assert(b.take(i + 1).last() == b[i as int]);
            crc = crc_push(crc, self.byte_at(i));
            i = i + 1;
        }
        !crc
    }

    pub fn is_valid_checksum(&self) -> (r: bool)
        ensures
            r == (self.checksum == self.crc()),
    {
        self.compute_crc() == self.checksum
    }

    pub fn recompute_checksum(&mut self)
        ensures
            *final(self) == old(self).sealed(),
    {
        let crc: u32 = self.compute_crc();
        self.checksum = crc;
    }

    /// Writes the inode into a block.
    pub fn store(&self, raw: &mut [u8; BLOCK_SIZE], off: usize)
        requires
            off + 256 <= BLOCK_SIZE,
        ensures
            final(raw)@ == overwrite(old(raw)@, off as int, self.bytes()),
    {
        let mut i: usize = 0;
        while i < 256
            invariant
                i <= 256,
                off + 256 <= BLOCK_SIZE,
                forall|j: int|
                    0 <= j < BLOCK_SIZE ==> raw@[j] == (if off <= j < off + i {
                        self.byte(j - off)
                    } else {
                        old(raw)@[j]
                    }),
            decreases 256 - i,
        {
            raw[off + i] = self.byte_at(i);
            i = i + 1;
        }
        assert(raw@ =~= overwrite(old(raw)@, off as int, self.bytes()));
    }

    /// Reads an inode from a block.
    pub fn load(raw: &[u8; BLOCK_SIZE], off: usize) -> (r: Self)
        requires
            off + 256 <= BLOCK_SIZE,
        ensures
            r.bytes() == raw@.subrange(off as int, off + 256),
    {
        let s: &[u8] = raw;
        let mut _reserved: [u8; 8] = [0u8; 8];
        let mut i: usize = 0;
        while i < 8
            invariant
                i <= 8,
                off + 256 <= BLOCK_SIZE,
                forall|j: int| 0 <= j < i ==> _reserved@[j] == raw@[off + 56 + j],
            decreases 8 - i,
        {
            _reserved[i] = raw[off + 56 + i];
            i = i + 1;
        }
        let mut direct_blocks: [u32; 18] = [0u32; 18];
        let mut k: usize = 0;
        while k < 18
            invariant
                k <= 18,
                off + 256 <= BLOCK_SIZE,
                s@ == raw@,
                forall|j: int|
                    0 <= j < k ==> direct_blocks@[j] == #[trigger] le32(raw@, off + 64 + 4 * j),
            decreases 18 - k,
        {
            direct_blocks[k] = read_u32(s, off + 64 + 4 * k);
            k = k + 1;
        }
        let mut _reserved_expansion: [u8; 112] = [0u8; 112];
        let mut m: usize = 0;
        while m < 112
            invariant
                m <= 112,
                off + 256 <= BLOCK_SIZE,
                forall|j: int| 0 <= j < m ==> _reserved_expansion@[j] == raw@[off + 144 + j],
            decreases 112 - m,
        {
            _reserved_expansion[m] = raw[off + 144 + m];
            m = m + 1;
        }
        let r = DiskInode {
            file_type: read_u16(s, off),
            flags: read_u16(s, off + 2),
            links_count: read_u32(s, off + 4),
            size_bytes: read_u64(s, off + 8),
            blocks_count: read_u64(s, off + 16),
            creator_pid: read_u64(s, off + 24),
            ctime_ticks: read_u64(s, off + 32),
            mtime_ticks: read_u64(s, off + 40),
            generation: read_u32(s, off + 48),
            checksum: read_u32(s, off + 52),
            _reserved,
            direct_blocks,
            indirect_block: read_u32(s, off + 136),
            _pad_indirect: read_u32(s, off + 140),
            _reserved_expansion,
        };
        proof {
            lemma_inode_loaded(r, raw@, off as int);
        }
        r
    }
}

/// The fields of `r` are those stored at `o`.
spec fn loaded_from(r: DiskInode, b: Seq<u8>, o: int) -> bool {
    &&& r.file_type == le16(b, o)
    &&& r.flags == le16(b, o + 2)
    &&& r.links_count == le32(b, o + 4)
    &&& r.size_bytes == le64(b, o + 8)
    &&& r.blocks_count == le64(b, o + 16)
    &&& r.creator_pid == le64(b, o + 24)
    &&& r.ctime_ticks == le64(b, o + 32)
    &&& r.mtime_ticks == le64(b, o + 40)
    &&& r.generation == le32(b, o + 48)
    &&& r.checksum == le32(b, o + 52)
    &&& forall|j: int| 0 <= j < 8 ==> r._reserved@[j] == b[o + 56 + j]
    &&& forall|j: int| 0 <= j < 18 ==> r.direct_blocks@[j] == #[trigger] le32(b, o + 64 + 4 * j)
    &&& r.indirect_block == le32(b, o + 136)
    &&& r._pad_indirect == le32(b, o + 140)
    &&& forall|j: int| 0 <= j < 112 ==> r._reserved_expansion@[j] == b[o + 144 + j]
}

/// The pointers to blocks that were read are stored as they were.
proof fn lemma_pointers_loaded(r: DiskInode, b: Seq<u8>, o: int, j: int)
    requires
        loaded_from(r, b, o),
        64 <= j < 136,
    ensures
        r.byte(j) == b[o + j],
{
    let q = (j - 64) / 4;
    let k = (j - 64) % 4;
    assert(r.direct_blocks@[q] == le32(b, o + 64 + 4 * q));
    lemma_bytes_le32(b, o + 64 + 4 * q);
    assert(byte_of(le32(b, o + 64 + 4 * q) as int, k) == b[o + 64 + 4 * q + k]);
    assert(64 + 4 * q + k == j);
}

/// An inode that was read is stored as it was.
#[verifier::spinoff_prover]
#[verifier::rlimit(60)]
proof fn lemma_inode_loaded(r: DiskInode, b: Seq<u8>, o: int)
    requires
        loaded_from(r, b, o),
        0 <= o,
        o + 256 <= b.len(),
    ensures
        r.bytes() == b.subrange(o, o + 256),
{
    lemma_bytes_le16(b, o);
    lemma_bytes_le16(b, o + 2);
    lemma_bytes_le32(b, o + 4);
    lemma_bytes_le64(b, o + 8);
    lemma_bytes_le64(b, o + 16);
    lemma_bytes_le64(b, o + 24);
    lemma_bytes_le64(b, o + 32);
    lemma_bytes_le64(b, o + 40);
    lemma_bytes_le32(b, o + 48);
    lemma_bytes_le32(b, o + 52);
    lemma_bytes_le32(b, o + 136);
    lemma_bytes_le32(b, o + 140);
    assert forall|j: int| 0 <= j < 256 implies r.byte(j) == b[o + j] by {
        if j < 2 {
            assert(byte_of(r.file_type as int, j) == b[o + j]);
        } else if j < 4 {
            assert(byte_of(r.flags as int, j - 2) == b[o + 2 + (j - 2)]);
        } else if j < 8 {
            assert(byte_of(r.links_count as int, j - 4) == b[o + 4 + (j - 4)]);
        } else if j < 16 {
            assert(byte_of(r.size_bytes as int, j - 8) == b[o + 8 + (j - 8)]);
        } else if j < 24 {
            assert(byte_of(r.blocks_count as int, j - 16) == b[o + 16 + (j - 16)]);
        } else if j < 32 {
            assert(byte_of(r.creator_pid as int, j - 24) == b[o + 24 + (j - 24)]);
        } else if j < 40 {
            assert(byte_of(r.ctime_ticks as int, j - 32) == b[o + 32 + (j - 32)]);
        } else if j < 48 {
            assert(byte_of(r.mtime_ticks as int, j - 40) == b[o + 40 + (j - 40)]);
        } else if j < 52 {
            assert(byte_of(r.generation as int, j - 48) == b[o + 48 + (j - 48)]);
        } else if j < 56 {
            assert(byte_of(r.checksum as int, j - 52) == b[o + 52 + (j - 52)]);
        } else if j < 64 {
            assert(r._reserved@[j - 56] == b[o + 56 + (j - 56)]);
        } else if j < 136 {
            lemma_pointers_loaded(r, b, o, j);
        } else if j < 140 {
            assert(byte_of(r.indirect_block as int, j - 136) == b[o + 136 + (j - 136)]);
        } else if j < 144 {
            assert(byte_of(r._pad_indirect as int, j - 140) == b[o + 140 + (j - 140)]);
        } else {
            assert(r._reserved_expansion@[j - 144] == b[o + 144 + (j - 144)]);
        }
    }
    assert(r.bytes() =~= b.subrange(o, o + 256));
}

/// An inode is determined by its bytes.
pub proof fn lemma_inode_bytes_determine(a: DiskInode, b: DiskInode)
    requires
        a.bytes() == b.bytes(),
    ensures
        a == b,
{
    assert forall|i: int| 0 <= i < 256 implies #[trigger] a.byte(i) == b.byte(i) by {
        assert(a.bytes()[i] == a.byte(i));
        assert(b.bytes()[i] == b.byte(i));
    }
    assert forall|k: int| 0 <= k < 2 implies #[trigger] byte_of(a.file_type as int, k) == byte_of(
        b.file_type as int,
        k,
    ) by {
        assert(a.byte(k) == b.byte(k));
    }
    lemma_bytes_determine_u16(a.file_type, b.file_type);
    assert forall|k: int| 0 <= k < 2 implies #[trigger] byte_of(a.flags as int, k) == byte_of(
        b.flags as int,
        k,
    ) by {
        assert(a.byte(k + 2) == b.byte(k + 2));
    }
    lemma_bytes_determine_u16(a.flags, b.flags);
    assert forall|k: int| 0 <= k < 4 implies #[trigger] byte_of(a.links_count as int, k) == byte_of(
        b.links_count as int,
        k,
    ) by {
        assert(a.byte(k + 4) == b.byte(k + 4));
    }
    lemma_bytes_determine_u32(a.links_count, b.links_count);
    assert forall|k: int| 0 <= k < 8 implies #[trigger] byte_of(a.size_bytes as int, k) == byte_of(
        b.size_bytes as int,
        k,
    ) by {
        assert(a.byte(k + 8) == b.byte(k + 8));
    }
    lemma_bytes_determine_u64(a.size_bytes, b.size_bytes);
    assert forall|k: int| 0 <= k < 8 implies #[trigger] byte_of(a.blocks_count as int, k)
        == byte_of(b.blocks_count as int, k) by {
        assert(a.byte(k + 16) == b.byte(k + 16));
    }
    lemma_bytes_determine_u64(a.blocks_count, b.blocks_count);
    assert forall|k: int| 0 <= k < 8 implies #[trigger] byte_of(a.creator_pid as int, k) == byte_of(
        b.creator_pid as int,
        k,
    ) by {
        assert(a.byte(k + 24) == b.byte(k + 24));
    }
    lemma_bytes_determine_u64(a.creator_pid, b.creator_pid);
    assert forall|k: int| 0 <= k < 8 implies #[trigger] byte_of(a.ctime_ticks as int, k) == byte_of(
        b.ctime_ticks as int,
        k,
    ) by {
        assert(a.byte(k + 32) == b.byte(k + 32));
    }
    lemma_bytes_determine_u64(a.ctime_ticks, b.ctime_ticks);
    assert forall|k: int| 0 <= k < 8 implies #[trigger] byte_of(a.mtime_ticks as int, k) == byte_of(
        b.mtime_ticks as int,
        k,
    ) by {
        assert(a.byte(k + 40) == b.byte(k + 40));
    }
    lemma_bytes_determine_u64(a.mtime_ticks, b.mtime_ticks);
    assert forall|k: int| 0 <= k < 4 implies #[trigger] byte_of(a.generation as int, k) == byte_of(
        b.generation as int,
        k,
    ) by {
        assert(a.byte(k + 48) == b.byte(k + 48));
    }
    lemma_bytes_determine_u32(a.generation, b.generation);
    assert forall|k: int| 0 <= k < 4 implies #[trigger] byte_of(a.checksum as int, k) == byte_of(
        b.checksum as int,
        k,
    ) by {
        assert(a.byte(k + 52) == b.byte(k + 52));
    }
    lemma_bytes_determine_u32(a.checksum, b.checksum);
    assert forall|k: int| 0 <= k < 8 implies #[trigger] a._reserved@[k] == b._reserved@[k] by {
        assert(a.byte(k + 56) == b.byte(k + 56));
    }
    assert(a._reserved@ =~= b._reserved@);
    assert forall|q: int| 0 <= q < 18 implies #[trigger] a.direct_blocks@[q]
        == b.direct_blocks@[q] by {
        assert forall|k: int| 0 <= k < 4 implies #[trigger] byte_of(a.direct_blocks@[q] as int, k)
            == byte_of(b.direct_blocks@[q] as int, k) by {
            let i = 64 + 4 * q + k;
            assert((i - 64) / 4 == q && (i - 64) % 4 == k);
            assert(a.byte(i) == b.byte(i));
        }
        lemma_bytes_determine_u32(a.direct_blocks@[q], b.direct_blocks@[q]);
    }
    assert(a.direct_blocks@ =~= b.direct_blocks@);
    assert forall|k: int| 0 <= k < 4 implies #[trigger] byte_of(a.indirect_block as int, k)
        == byte_of(b.indirect_block as int, k) by {
        assert(a.byte(k + 136) == b.byte(k + 136));
    }
    lemma_bytes_determine_u32(a.indirect_block, b.indirect_block);
    assert forall|k: int| 0 <= k < 4 implies #[trigger] byte_of(a._pad_indirect as int, k)
        == byte_of(b._pad_indirect as int, k) by {
        assert(a.byte(k + 140) == b.byte(k + 140));
    }
    lemma_bytes_determine_u32(a._pad_indirect, b._pad_indirect);
    assert forall|k: int| 0 <= k < 112 implies #[trigger] a._reserved_expansion@[k]
        == b._reserved_expansion@[k] by {
        assert(a.byte(k + 144) == b.byte(k + 144));
    }
    assert(a._reserved_expansion@ =~= b._reserved_expansion@);
    assert(a._reserved == b._reserved);
    assert(a.direct_blocks == b.direct_blocks);
    assert(a._reserved_expansion == b._reserved_expansion);
}

/// The inode that is not in use.
pub open spec fn empty_inode() -> DiskInode {
    DiskInode {
        file_type: 0,
        flags: 0,
        links_count: 0,
        size_bytes: 0,
        blocks_count: 0,
        creator_pid: 0,
        ctime_ticks: 0,
        mtime_ticks: 0,
        generation: 1,
        checksum: 0,
        _reserved: spec_array_fill_for_copy_type::<u8, 8>(0),
        direct_blocks: spec_array_fill_for_copy_type::<u32, 18>(0),
        indirect_block: 0,
        _pad_indirect: 0,
        _reserved_expansion: spec_array_fill_for_copy_type::<u8, 112>(0),
    }
}

/// Giving an inode the right checksum makes its checksum right, and does so once and for all.
pub proof fn law_sealed_inode_is_valid(i: DiskInode)
    ensures
        i.sealed().checksum == i.sealed().crc(),
        i.sealed().sealed() == i.sealed(),
{
    let s = i.sealed();
    assert forall|k: int| 0 <= k < 52 implies s.bytes().take(52)[k] == i.bytes().take(52)[k] by {}
    assert(s.bytes().take(52) =~= i.bytes().take(52));
}

} // verus!
