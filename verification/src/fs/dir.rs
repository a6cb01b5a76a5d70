//! Directories: blocks of 64 entries.
use crate::bytes::overwrite;
use crate::fs::buf::{read_block_cached, told, unsaved, write_block_cached, Storage};
use crate::fs::dev::BlockDevice;
use crate::fs::inode::{reading, InodeManager};
use crate::fs::types::disk_dir_entry::{
    empty_entry, lemma_entry_bytes_determine,
};
use crate::fs::types::{
    DiskDirEntry, DiskInode, FsError, InodeType, BLOCK_SIZE, DIR_ENTRIES_PER_BLOCK,
    MAX_FILENAME_LEN, ROOT_DIR_BLOCK, ROOT_DIR_INODE,
};
use crate::fs::volume::{turned, Volume};
use vstd::prelude::*;

verus! {

/// Operations on directories.
pub struct DirectoryManager;

/// A name that an entry may have: not empty, not too long, without separators and zero bytes, and
/// neither `.` nor `..`.
pub open spec fn is_name(name: Seq<u8>) -> bool {
    &&& 0 < name.len() <= MAX_FILENAME_LEN
    &&& name != seq![0x2Eu8]
    &&& name != seq![0x2Eu8, 0x2Eu8]
    &&& forall|i: int|
        0 <= i < name.len() ==> (#[trigger] name[i]) != 0 && name[i] != 0x2F && name[i] != 0x5C
}

/// The bytes of an entry of a directory block.
pub open spec fn entry_bytes(raw: Seq<u8>, slot: int) -> Seq<u8> {
    raw.subrange(slot * 64, slot * 64 + 64)
}

/// An entry of a directory block.
pub open spec fn entry_at(raw: Seq<u8>, slot: int) -> DiskDirEntry {
    choose|e: DiskDirEntry| e.bytes() == entry_bytes(raw, slot)
}

/// An entry with the right bytes is the one that is stored.
pub proof fn lemma_entry_at(raw: Seq<u8>, slot: int, e: DiskDirEntry)
    requires
        e.bytes() == entry_bytes(raw, slot),
    ensures
        entry_at(raw, slot) == e,
{
    lemma_entry_bytes_determine(entry_at(raw, slot), e);
}

/// The block after an entry was stored.
pub open spec fn with_entry(raw: Seq<u8>, slot: int, e: DiskDirEntry) -> Seq<u8> {
    overwrite(raw, slot * 64, e.bytes())
}

/// An entry that was stored is read back, and no other one changed.
pub proof fn law_entry_is_read_back(raw: Seq<u8>, slot: int, e: DiskDirEntry, other: int)
    requires
        raw.len() == BLOCK_SIZE,
        0 <= slot < DIR_ENTRIES_PER_BLOCK,
        0 <= other < DIR_ENTRIES_PER_BLOCK,
    ensures
        entry_at(with_entry(raw, slot, e), slot) == e,
        other != slot ==> entry_at(with_entry(raw, slot, e), other) == entry_at(raw, other),
{
    let w = with_entry(raw, slot, e);
    assert(entry_bytes(w, slot) =~= e.bytes());
    lemma_entry_at(w, slot, e);
    if other != slot {
        assert(entry_bytes(w, other) =~= entry_bytes(raw, other));
    }
}

/// The entry is in use and has the name.
pub open spec fn is_called(e: DiskDirEntry, name: Seq<u8>) -> bool {
    e.inode_num != 0 && e.name_len == name.len() && e.name@.take(name.len() as int) == name
}

/// The first entry with a name from `from` on, or the number of entries.
pub open spec fn first_called(raw: Seq<u8>, name: Seq<u8>, from: int) -> int
    decreases 64 - from,
{
    if from >= DIR_ENTRIES_PER_BLOCK {
        DIR_ENTRIES_PER_BLOCK as int
    } else if is_called(entry_at(raw, from), name) {
        from
    } else {
        first_called(raw, name, from + 1)
    }
}

/// The first entry that is not in use from `from` on, or the number of entries.
pub open spec fn first_unused(raw: Seq<u8>, from: int) -> int
    decreases 64 - from,
{
    if from >= DIR_ENTRIES_PER_BLOCK {
        DIR_ENTRIES_PER_BLOCK as int
    } else if entry_at(raw, from).inode_num == 0 {
        from
    } else {
        first_unused(raw, from + 1)
    }
}

/// The type that an entry names.
pub open spec fn named_type(file_type: u8) -> InodeType {
    if file_type == 1 {
        InodeType::Regular
    } else if file_type == 2 {
        InodeType::Directory
    } else {
        InodeType::Free
    }
}

/// The block that holds the entries of a directory.
pub open spec fn dir_block(n: u32, inode: DiskInode) -> int {
    if n == ROOT_DIR_INODE {
        ROOT_DIR_BLOCK as int
    } else {
        inode.direct_blocks@[0] as int
    }
}

/// What looking a name up answers.
pub open spec fn looking_up(v: Volume, size: int, dir: u32, name: Seq<u8>) -> Result<
    (u32, InodeType, usize),
    FsError,
> {
    if !is_name(name) {
        Err(FsError::InvalidArgument)
    } else {
        match reading(v, dir) {
            Err(e) => Err(e),
            Ok(inode) => {
                let b = dir_block(dir, inode);
                let slot = first_called(v[b], name, 0);
                if inode.file_type != InodeType::Directory.number() {
                    Err(FsError::NotDirectory)
                } else if b == 0 {
                    Err(FsError::NotFound)
                } else if b >= size {
                    Err(FsError::InvalidArgument)
                } else if slot >= DIR_ENTRIES_PER_BLOCK {
                    Err(FsError::NotFound)
                } else {
                    let e = entry_at(v[b], slot);
                    Ok((e.inode_num, named_type(e.file_type), slot as usize))
                }
            },
        }
    }
}

/// The entry that stands for a file.
pub open spec fn is_entry_for(e: DiskDirEntry, name: Seq<u8>, target: u32, file_type: InodeType) -> bool {
    &&& e.inode_num == target
    &&& e.name_len == name.len()
    &&& e.file_type == file_type.number()
    &&& e._pad == 0
    &&& e.name@ == Seq::new(55, |i: int| if i < name.len() { name[i] } else { 0u8 })
    &&& e._null_terminator == 0
}

/// Why an entry cannot be added; `None` when it can.
pub open spec fn insert_fault(v: Volume, size: int, dir: u32, name: Seq<u8>) -> Option<FsError> {
    if !is_name(name) {
        Some(FsError::InvalidArgument)
    } else if looking_up(v, size, dir, name) is Ok {
        Some(FsError::AlreadyExists)
    } else {
        match reading(v, dir) {
            Err(e) => Some(e),
            Ok(inode) => {
                let b = dir_block(dir, inode);
                if inode.file_type != InodeType::Directory.number() {
                    Some(FsError::NotDirectory)
                } else if b == 0 {
                    Some(FsError::NotFound)
                } else if b >= size {
                    Some(FsError::InvalidArgument)
                } else if first_unused(v[b], 0) >= DIR_ENTRIES_PER_BLOCK {
                    Some(FsError::NoSpace)
                } else {
                    None
                }
            },
        }
    }
}

/// The outcome of adding an entry to a directory.
pub open spec fn inserting(
    v: Volume,
    w: Volume,
    size: int,
    dir: u32,
    name: Seq<u8>,
    target: u32,
    file_type: InodeType,
    r: Result<(usize, DiskDirEntry), FsError>,
) -> bool {
    match insert_fault(v, size, dir, name) {
        Some(e) => {
            &&& r == Err::<(usize, DiskDirEntry), FsError>(e)
            &&& w == v
        },
        None => {
            let b = dir_block(dir, reading(v, dir)->Ok_0);
            &&& r is Ok
            &&& r->Ok_0.0 == first_unused(v[b], 0)
            &&& is_entry_for(r->Ok_0.1, name, target, file_type)
            &&& w == v.insert(b, with_entry(v[b], r->Ok_0.0 as int, r->Ok_0.1))
        },
    }
}

/// The outcome of removing an entry from a directory.
pub open spec fn unlinking(
    v: Volume,
    w: Volume,
    size: int,
    dir: u32,
    name: Seq<u8>,
    r: Result<(u32, usize, DiskDirEntry), FsError>,
) -> bool {
    match looking_up(v, size, dir, name) {
        Err(e) => {
            &&& r == Err::<(u32, usize, DiskDirEntry), FsError>(e)
            &&& w == v
        },
        Ok((n, _, slot)) => {
            let b = dir_block(dir, reading(v, dir)->Ok_0);
            &&& r == Ok::<(u32, usize, DiskDirEntry), FsError>(
                (n, slot, entry_at(v[b], slot as int)),
            )
            &&& w == v.insert(b, with_entry(v[b], slot as int, empty_entry()))
        },
    }
}

impl DirectoryManager {
    /// Checks a name.
    pub fn validate_filename(name: &[u8]) -> (r: Result<(), FsError>)
        ensures
            r == (if is_name(name@) {
                Ok::<(), FsError>(())
            } else {
                Err::<(), FsError>(FsError::InvalidArgument)
            }),
    {
        if name.len() == 0 || name.len() > MAX_FILENAME_LEN {
            return Err(FsError::InvalidArgument);
        }
        if name.len() == 1 && name[0] == 0x2E {
            assert(name@ =~= seq![0x2Eu8]);
            return Err(FsError::InvalidArgument);
        }
        if name.len() == 2 && name[0] == 0x2E && name[1] == 0x2E {
            assert(name@ =~= seq![0x2Eu8, 0x2Eu8]);
            return Err(FsError::InvalidArgument);
        }
        let mut i: usize = 0;
        while i < name.len()
            invariant
                i <= name@.len(),
                forall|j: int|
                    0 <= j < i ==> (#[trigger] name@[j]) != 0 && name@[j] != 0x2F && name@[j]
                        != 0x5C,
            decreases name@.len() - i,
        {
            if name[i] == 0 || name[i] == 0x2F || name[i] == 0x5C {
                return Err(FsError::InvalidArgument);
            }
            i = i + 1;
        }
        assert(name@ != seq![0x2Eu8]) by {
            assert(seq![0x2Eu8].len() == 1 && seq![0x2Eu8][0] == 0x2E);
        }
        assert(name@ != seq![0x2Eu8, 0x2Eu8]) by {
            let d = seq![0x2Eu8, 0x2Eu8];
            assert(d.len() == 2 && d[0] == 0x2E && d[1] == 0x2E);
        }
        Ok(())
    }

    /// Whether an entry is in use and has a name.
    fn entry_is_called(e: &DiskDirEntry, name: &[u8]) -> (r: bool)
        requires
            name@.len() <= MAX_FILENAME_LEN,
        ensures
            r == is_called(*e, name@),
    {
        if e.inode_num == 0 || e.name_len as usize != name.len() {
            return false;
        }
        let mut i: usize = 0;
        while i < name.len()
            invariant
                i <= name@.len() <= 55,
                forall|j: int| 0 <= j < i ==> e.name@[j] == name@[j],
            decreases name@.len() - i,
        {
            if e.name[i] != name[i] {
                assert(e.name@.take(name@.len() as int)[i as int] != name@[i as int]);
                return false;
            }
            i = i + 1;
        }
        assert(e.name@.take(name@.len() as int) =~= name@);
        true
    }

    /// The first entry of a block with a name.
    fn find_called(raw: &[u8; BLOCK_SIZE], name: &[u8]) -> (r: Option<(usize, DiskDirEntry)>)
        requires
            name@.len() <= MAX_FILENAME_LEN,
        ensures
            match r {
                None => first_called(raw@, name@, 0) >= DIR_ENTRIES_PER_BLOCK,
                Some((slot, e)) => slot < DIR_ENTRIES_PER_BLOCK && first_called(raw@, name@, 0)
                    == slot && e == entry_at(raw@, slot as int),
            },
    {
        let mut slot: usize = 0;
        while slot < DIR_ENTRIES_PER_BLOCK
            invariant
                slot <= 64,
                name@.len() <= MAX_FILENAME_LEN,
                first_called(raw@, name@, 0) == first_called(raw@, name@, slot as int),
            decreases 64 - slot,
        {
            let e = DiskDirEntry::load(raw, slot * 64);
            proof {
                lemma_entry_at(raw@, slot as int, e);
            }
            if Self::entry_is_called(&e, name) {
                return Some((slot, e));
            }
            slot = slot + 1;
        }
        None
    }

    /// The first entry of a block that is not in use.
    fn find_unused(raw: &[u8; BLOCK_SIZE]) -> (r: Option<usize>)
        ensures
            match r {
                None => first_unused(raw@, 0) >= DIR_ENTRIES_PER_BLOCK,
                Some(slot) => slot < DIR_ENTRIES_PER_BLOCK && first_unused(raw@, 0) == slot,
            },
    {
        let mut slot: usize = 0;
        while slot < DIR_ENTRIES_PER_BLOCK
            invariant
                slot <= 64,
                first_unused(raw@, 0) == first_unused(raw@, slot as int),
            decreases 64 - slot,
        {
            let e = DiskDirEntry::load(raw, slot * 64);
            proof {
                lemma_entry_at(raw@, slot as int, e);
            }
            if e.inode_num == 0 {
                return Some(slot);
            }
            slot = slot + 1;
        }
        None
    }

    /// Looks a name up in a directory: the inode, the type and the entry.
    pub fn lookup<A: BlockDevice>(
        s: &mut Storage<A>,
        device_id: u8,
        dir_inode_num: u32,
        name: &[u8],
    ) -> (r: Result<(u32, InodeType, usize), FsError>)
        requires
            old(s).wf(),
        ensures
            final(s).wf(),
            final(s).same_devices(old(s)),
            told(old(s), final(s), r),
            final(s).aged_at_most(old(s), 2),
            !is_name(name@) ==> r == Err::<(u32, InodeType, usize), FsError>(
                FsError::InvalidArgument,
            ) && *final(s) == *old(s),
            r is Ok ==> r->Ok_0.2 < DIR_ENTRIES_PER_BLOCK,
            old(s).usable(device_id) && final(s).steady_since(old(s)) ==> {
                &&& r == looking_up(
                    old(s).vol(device_id),
                    old(s).size(device_id) as int,
                    dir_inode_num,
                    name@,
                )
                &&& turned(old(s), final(s), device_id, old(s).vol(device_id))
                &&& final(s).usable(device_id)
            },
    {
        if let Err(e) = Self::validate_filename(name) {
            return Err(e);
        }
        let inode = match InodeManager::read_inode(s, device_id, dir_inode_num) {
            Err(e) => {
                return Err(e);
            },
            Ok(i) => i,
        };
        if inode.file_type != InodeType::Directory.code() {
            return Err(FsError::NotDirectory);
        }
        let block_idx: u64 = if dir_inode_num == ROOT_DIR_INODE {
            ROOT_DIR_BLOCK
        } else {
            if inode.direct_blocks[0] == 0 {
                return Err(FsError::NotFound);
            }
            inode.direct_blocks[0] as u64
        };
        let mut raw: [u8; BLOCK_SIZE] = [0u8; BLOCK_SIZE];
        if let Err(e) = read_block_cached(s, device_id, block_idx, &mut raw) {
            return Err(e);
        }
        match Self::find_called(&raw, name) {
            None => Err(FsError::NotFound),
            Some((slot, e)) => {
                let ftype = if e.file_type == 1 {
                    InodeType::Regular
                } else if e.file_type == 2 {
                    InodeType::Directory
                } else {
                    InodeType::Free
                };
                Ok((e.inode_num, ftype, slot))
            },
        }
    }

    /// The entry for a file.
    fn make_entry(name: &[u8], target_inode_num: u32, file_type: InodeType) -> (r: DiskDirEntry)
        requires
            name@.len() <= MAX_FILENAME_LEN,
        ensures
            is_entry_for(r, name@, target_inode_num, file_type),
    {
        let mut e = DiskDirEntry::empty();
        e.inode_num = target_inode_num;
        e.name_len = name.len() as u8;
        e.file_type = file_type.code() as u8;
        let mut i: usize = 0;
        while i < name.len()
            invariant
                i <= name@.len() <= 55,
                e.inode_num == target_inode_num,
                e.name_len == name@.len(),
                e.file_type == file_type.number(),
                e._pad == 0,
                e._null_terminator == 0,
                forall|j: int| 0 <= j < 55 ==> e.name@[j] == (if j < i { name@[j] } else { 0u8 }),
            decreases name@.len() - i,
        {
            e.name[i] = name[i];
            i = i + 1;
        }
        assert(e.name@ =~= Seq::new(55, |i: int| if i < name@.len() { name@[i] } else { 0u8 }));
        e
    }

    /// Adds an entry to a directory, in the first place that is not in use. A directory without a
    /// block takes none.
    pub fn insert<A: BlockDevice>(
        s: &mut Storage<A>,
        device_id: u8,
        dir_inode_num: u32,
        name: &[u8],
        target_inode_num: u32,
        file_type: InodeType,
    ) -> (r: Result<(usize, DiskDirEntry), FsError>)
        requires
            old(s).wf(),
        ensures
            final(s).wf(),
            final(s).same_devices(old(s)),
            told(old(s), final(s), r),
            final(s).aged_at_most(old(s), 3),
            r is Ok ==> {
                &&& r->Ok_0.0 < DIR_ENTRIES_PER_BLOCK
                &&& is_entry_for(r->Ok_0.1, name@, target_inode_num, file_type)
                &&& exists|b: int| #[trigger]
                    unsaved(final(s), device_id, b) && entry_at(
                        final(s).vol(device_id)[b],
                        r->Ok_0.0 as int,
                    ) == r->Ok_0.1
            },
            !is_name(name@) ==> r == Err::<(usize, DiskDirEntry), FsError>(
                FsError::InvalidArgument,
            ) && *final(s) == *old(s),
            old(s).usable(device_id) && final(s).steady_since(old(s)) ==> {
                &&& final(s).usable(device_id)
                &&& turned(old(s), final(s), device_id, final(s).vol(device_id))
                &&& inserting(
                    old(s).vol(device_id),
                    final(s).vol(device_id),
                    old(s).size(device_id) as int,
                    dir_inode_num,
                    name@,
                    target_inode_num,
                    file_type,
                    r,
                )
            },
    {
        if let Err(e) = Self::validate_filename(name) {
            return Err(e);
        }
        let inode = match InodeManager::read_inode(s, device_id, dir_inode_num) {
            Err(e) => {
                return Err(e);
            },
            Ok(i) => i,
        };
        if inode.file_type != InodeType::Directory.code() {
            return Err(FsError::NotDirectory);
        }
        let block_idx: u64 = if dir_inode_num == ROOT_DIR_INODE {
            ROOT_DIR_BLOCK
        } else {
            inode.direct_blocks[0] as u64
        };
        if block_idx == 0 {
            return Err(FsError::NotFound);
        }
        let mut raw: [u8; BLOCK_SIZE] = [0u8; BLOCK_SIZE];
        if let Err(e) = read_block_cached(s, device_id, block_idx, &mut raw) {
            return Err(e);
        }
        if Self::find_called(&raw, name).is_some() {
            return Err(FsError::AlreadyExists);
        }
        match Self::find_unused(&raw) {
            None => Err(FsError::NoSpace),
            Some(slot) => {
                let e = Self::make_entry(name, target_inode_num, file_type);
                let ghost was = raw@;
                e.store(&mut raw, slot * 64);
                if let Err(e) = write_block_cached(s, device_id, block_idx, &raw) {
                    return Err(e);
                }
                proof {
                    law_entry_is_read_back(was, slot as int, e, slot as int);
                    assert(unsaved(s, device_id, block_idx as int));
                }
                Ok((slot, e))
            },
        }
    }

    /// Removes an entry from a directory.
    pub fn unlink<A: BlockDevice>(
        s: &mut Storage<A>,
        device_id: u8,
        dir_inode_num: u32,
        name: &[u8],
    ) -> (r: Result<(u32, usize, DiskDirEntry), FsError>)
        requires
            old(s).wf(),
        ensures
            final(s).wf(),
            final(s).same_devices(old(s)),
            told(old(s), final(s), r),
            final(s).aged_at_most(old(s), 5),
            !is_name(name@) ==> r == Err::<(u32, usize, DiskDirEntry), FsError>(
                FsError::InvalidArgument,
            ) && *final(s) == *old(s),
            old(s).usable(device_id) && final(s).steady_since(old(s)) ==> {
                &&& final(s).usable(device_id)
                &&& turned(old(s), final(s), device_id, final(s).vol(device_id))
                &&& unlinking(
                    old(s).vol(device_id),
                    final(s).vol(device_id),
                    old(s).size(device_id) as int,
                    dir_inode_num,
                    name@,
                    r,
                )
            },
    {
        let (target, _, slot) = match Self::lookup(s, device_id, dir_inode_num, name) {
            Err(e) => {
                return Err(e);
            },
            Ok(x) => x,
        };
        let block_idx: u64 = if dir_inode_num == ROOT_DIR_INODE {
            ROOT_DIR_BLOCK
        } else {
            match InodeManager::read_inode(s, device_id, dir_inode_num) {
                Err(e) => {
                    return Err(e);
                },
                Ok(i) => i.direct_blocks[0] as u64,
            }
        };
        let mut raw: [u8; BLOCK_SIZE] = [0u8; BLOCK_SIZE];
        if let Err(e) = read_block_cached(s, device_id, block_idx, &mut raw) {
            return Err(e);
        }
        let old_entry = DiskDirEntry::load(&raw, slot * 64);
        let empty = DiskDirEntry::empty();
        proof {
            lemma_entry_at(raw@, slot as int, old_entry);
        }
        empty.store(&mut raw, slot * 64);
        if let Err(e) = write_block_cached(s, device_id, block_idx, &raw) {
            return Err(e);
        }
        Ok((target, slot, old_entry))
    }
}

} // verus!
