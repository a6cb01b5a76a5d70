//! Directory entries as they are stored: 64 bytes each.
use crate::bytes::{
    byte_of, lemma_bytes_determine_u16, lemma_bytes_determine_u32, lemma_bytes_le16,
    lemma_bytes_le32, nth_byte, overwrite, read_u16, read_u32,
};
use crate::fs::types::BLOCK_SIZE;
use vstd::array::spec_array_fill_for_copy_type;
use vstd::prelude::*;

verus! {

/// A name in a directory and the inode it stands for.
#[derive(Debug, Clone, Copy)]
pub struct DiskDirEntry {
    /// Zero marks an entry that is not in use.
    pub inode_num: u32,
    pub name_len: u8,
    pub file_type: u8,
    pub _pad: u16,
    pub name: [u8; 55],
    pub _null_terminator: u8,
}

impl DiskDirEntry {
    /// Byte number `i` of what is stored.
    pub open spec fn byte(&self, i: int) -> u8 {
        if i < 4 {
            byte_of(self.inode_num as int, i)
        } else if i < 5 {
            self.name_len
        } else if i < 6 {
            self.file_type
        } else if i < 8 {
            byte_of(self._pad as int, i - 6)
        } else if i < 63 {
            self.name@[i - 8]
        } else {
            self._null_terminator
        }
    }

    /// The 64 bytes that are stored.
    pub open spec fn bytes(&self) -> Seq<u8> {
        Seq::new(64, |i: int| self.byte(i))
    }

    pub fn empty() -> (r: Self)
        ensures
            r == empty_entry(),
    {
        DiskDirEntry {
            inode_num: 0,
            name_len: 0,
            file_type: 0,
            _pad: 0,
            name: [0u8; 55],
            _null_terminator: 0,
        }
    }

    pub(crate) fn byte_at(&self, i: usize) -> (r: u8)
        requires
            i < 64,
        ensures
            r == self.byte(i as int),
    {
        if i < 4 {
            nth_byte(self.inode_num as u64, i)
        } else if i < 5 {
            self.name_len
        } else if i < 6 {
            self.file_type
        } else if i < 8 {
            nth_byte(self._pad as u64, i - 6)
        } else if i < 63 {
            self.name[i - 8]
        } else {
            self._null_terminator
        }
    }

    /// Writes the entry into a block.
    pub fn store(&self, raw: &mut [u8; BLOCK_SIZE], off: usize)
        requires
            off + 64 <= BLOCK_SIZE,
        ensures
            final(raw)@ == overwrite(old(raw)@, off as int, self.bytes()),
    {
        let mut i: usize = 0;
        while i < 64
            invariant
                i <= 64,
                off + 64 <= BLOCK_SIZE,
                forall|j: int|
                    0 <= j < BLOCK_SIZE ==> raw@[j] == (if off <= j < off + i {
                        self.byte(j - off)
                    } else {
                        old(raw)@[j]
                    }),
            decreases 64 - i,
        {
            raw[off + i] = self.byte_at(i);
            i = i + 1;
        }
        assert(raw@ =~= overwrite(old(raw)@, off as int, self.bytes()));
    }

    /// Reads an entry from a block.
    pub fn load(raw: &[u8; BLOCK_SIZE], off: usize) -> (r: Self)
        requires
            off + 64 <= BLOCK_SIZE,
        ensures
            r.bytes() == raw@.subrange(off as int, off + 64),
    {
        let s: &[u8] = raw;
        let mut name: [u8; 55] = [0u8; 55];
        let mut i: usize = 0;
        while i < 55
            invariant
                i <= 55,
                off + 64 <= BLOCK_SIZE,
                forall|j: int| 0 <= j < i ==> name@[j] == raw@[off + 8 + j],
            decreases 55 - i,
        {
            name[i] = raw[off + 8 + i];
            i = i + 1;
        }
        let r = DiskDirEntry {
            inode_num: read_u32(s, off),
            name_len: raw[off + 4],
            file_type: raw[off + 5],
            _pad: read_u16(s, off + 6),
            name,
            _null_terminator: raw[off + 63],
        };
        proof {
            let b = raw@;
            let o = off as int;
            lemma_bytes_le32(b, o);
            lemma_bytes_le16(b, o + 6);
            assert(r.bytes() =~= b.subrange(o, o + 64));
        }
        r
    }
}

/// A directory entry is determined by its bytes.
pub proof fn lemma_entry_bytes_determine(a: DiskDirEntry, b: DiskDirEntry)
    requires
        a.bytes() == b.bytes(),
    ensures
        a == b,
{
    assert forall|i: int| 0 <= i < 64 implies #[trigger] a.byte(i) == b.byte(i) by {
        assert(a.bytes()[i] == a.byte(i));
        assert(b.bytes()[i] == b.byte(i));
    }
    assert forall|k: int| 0 <= k < 4 implies #[trigger] byte_of(a.inode_num as int, k) == byte_of(
        b.inode_num as int,
        k,
    ) by {
        assert(a.byte(k) == b.byte(k));
    }
    lemma_bytes_determine_u32(a.inode_num, b.inode_num);
    assert(a.byte(4) == b.byte(4));
    assert(a.byte(5) == b.byte(5));
    assert forall|k: int| 0 <= k < 2 implies #[trigger] byte_of(a._pad as int, k) == byte_of(
        b._pad as int,
        k,
    ) by {
        assert(a.byte(k + 6) == b.byte(k + 6));
    }
    lemma_bytes_determine_u16(a._pad, b._pad);
    assert forall|k: int| 0 <= k < 55 implies #[trigger] a.name@[k] == b.name@[k] by {
        assert(a.byte(k + 8) == b.byte(k + 8));
    }
    assert(a.name@ =~= b.name@);
    assert(a.name == b.name);
    assert(a.byte(63) == b.byte(63));
}

/// The entry that is not in use.
pub open spec fn empty_entry() -> DiskDirEntry {
    DiskDirEntry {
        inode_num: 0,
        name_len: 0,
        file_type: 0,
        _pad: 0,
        name: spec_array_fill_for_copy_type::<u8, 55>(0),
        _null_terminator: 0,
    }
}

} // verus!
