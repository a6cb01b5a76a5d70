//! What holds of names, inodes, open files and whole volumes.
use crate::bytes::{le16, le32};
use crate::fs::buf::{buffer_used, device_verdict, read_verdict, BufferState, Storage};
use crate::fs::dev::{zero_block, BlockDevice, DeviceState};
use crate::fs::dir::{
    dir_block, entry_at, first_called, first_unused, insert_fault, inserting, is_called, is_name,
    looking_up, unlinking,
};
use crate::fs::file::{
    after_last_close, block_of, empty_object, file_byte, filled, first_free_object, is_open, opening,
    read_count, read_on, StorageObject, StorageObjectTable,
};
use crate::fs::inode::{
    fresh_change, inode_given_back, inode_taken, mapping, new_inode, next_inode, pointer,
    reading,
};
use crate::fs::journal::{lemma_record_at, record_at, recovered, recovering};
use crate::fs::laws::{
    holds_directory, law_added_name_is_found, law_removed_name_is_gone, lemma_first_called,
    lemma_first_unused, names_unique,
};
use crate::fs::mount::{
    formatted, label_len, label_of, mounted, mounting, new_superblock, root_inode, superblock_at,
};
use crate::fs::transaction::{advanced, first_piece, grown, is_writable};
use crate::fs::truncate_laws::{law_cut_file_keeps_its_start, lemma_cut_keeps_volume};
use crate::fs::types::disk_inode::{empty_inode, law_sealed_inode_is_valid};
use crate::fs::types::disk_journal_block::empty_record;
use crate::fs::types::{
    law_sealed_superblock_is_valid, lemma_superblock_bytes_determine, DiskDirEntry, DiskInode,
    DiskSuperblock, FsError, InodeType, SUPERBLOCK_MAGIC,
};
use crate::fs::volume::{
    after_taking, bit, inode_at, inode_block, inode_bytes, law_bits, law_first_clear,
    law_inode_is_read_back, law_taken_block_was_free, lemma_inode_at, taking, volume_ok, with_bit, without_bit, Volume,
};
use crate::fs::write_laws::{file_ok, in_use, is_logical, lba_of};
use vstd::prelude::*;

verus! {

/// A name is accepted exactly if it has between one and 55 bytes, none of which is a zero byte or a
/// separator of either kind, and is neither the name for the directory itself nor for the one above.
pub proof fn law_names_that_are_accepted(name: Seq<u8>)
    ensures
        is_name(name) <==> {
            &&& 1 <= name.len() <= 55
            &&& !name.contains(0x00)
            &&& !name.contains(0x2F)
            &&& !name.contains(0x5C)
            &&& !(name.len() == 1 && name[0] == 0x2E)
            &&& !(name.len() == 2 && name[0] == 0x2E && name[1] == 0x2E)
        },
{
    if name.len() == 1 && name[0] == 0x2E {
        assert(name =~= seq![0x2Eu8]);
    }
    if name.len() == 2 && name[0] == 0x2E && name[1] == 0x2E {
        assert(name =~= seq![0x2Eu8, 0x2Eu8]);
    }
}

/// An entry in use has a name, byte for byte.
pub open spec fn carries(e: DiskDirEntry, name: Seq<u8>) -> bool {
    &&& e.inode_num != 0
    &&& e.name_len == name.len()
    &&& forall|i: int| 0 <= i < name.len() ==> e.name@[i] == #[trigger] name[i]
}

proof fn lemma_carries(e: DiskDirEntry, name: Seq<u8>)
    requires
        name.len() <= 55,
    ensures
        is_called(e, name) <==> carries(e, name),
{
    let t = e.name@.take(name.len() as int);
    if is_called(e, name) {
        assert forall|i: int| 0 <= i < name.len() implies e.name@[i] == #[trigger] name[i] by {
            assert(t[i] == name[i]);
        }
    }
    if carries(e, name) {
        assert(t =~= name);
    }
}

/// Where the entries of a directory are: the root directory has a block of its own, any other
/// directory the first of its blocks.
pub open spec fn entries_block(n: u32, i: DiskInode) -> int {
    if n == 1 {
        21
    } else {
        i.direct_blocks@[0] as int
    }
}

/// A directory can be searched: its inode can be read and is that of a directory, and its block of
/// entries is there.
pub open spec fn searchable(v: Volume, size: int, dir: u32) -> bool {
    let i = inode_at(v, dir as int);
    &&& 0 < dir < 256
    &&& i.file_type == 2
    &&& i.checksum == i.crc()
    &&& 0 < entries_block(dir, i) < size
}

/// In a directory that can be searched, a name is found exactly if one of the 64 entries carries
/// it; the answer is what the first such entry says.
pub proof fn law_lookup_finds_the_entry(v: Volume, size: int, dir: u32, name: Seq<u8>)
    requires
        searchable(v, size, dir),
        is_name(name),
    ensures
        ({
            let raw = v[entries_block(dir, inode_at(v, dir as int))];
            let r = looking_up(v, size, dir, name);
            &&& r is Ok <==> exists|s: int| 0 <= s < 64 && carries(#[trigger] entry_at(raw, s), name)
            &&& r is Err ==> r == Err::<(u32, InodeType, usize), FsError>(FsError::NotFound)
            &&& r is Ok ==> {
                let s = r->Ok_0.2 as int;
                let e = entry_at(raw, s);
                &&& 0 <= s < 64
                &&& carries(e, name)
                &&& r->Ok_0.0 == e.inode_num
                &&& r->Ok_0.1 == InodeType::Regular <==> e.file_type == 1
                &&& r->Ok_0.1 == InodeType::Directory <==> e.file_type == 2
                &&& forall|k: int| 0 <= k < s ==> !carries(#[trigger] entry_at(raw, k), name)
            }
        }),
{
    let raw = v[entries_block(dir, inode_at(v, dir as int))];
    lemma_first_called(raw, name, 0);
    assert forall|k: int| 0 <= k < 64 implies is_called(#[trigger] entry_at(raw, k), name)
        == carries(entry_at(raw, k), name) by {
        lemma_carries(entry_at(raw, k), name);
    }
    let s = first_called(raw, name, 0);
    if s < 64 {
        assert(carries(entry_at(raw, s), name));
    }
}

/// A name can be added to a directory that can be searched exactly if it is a name, no entry
/// carries it and an entry is not in use.
pub proof fn law_name_is_added_exactly_if_new(v: Volume, size: int, dir: u32, name: Seq<u8>)
    requires
        searchable(v, size, dir),
    ensures
        ({
            let raw = v[entries_block(dir, inode_at(v, dir as int))];
            let f = insert_fault(v, size, dir, name);
            let taken = exists|s: int| 0 <= s < 64 && carries(#[trigger] entry_at(raw, s), name);
            let room = exists|s: int| 0 <= s < 64 && (#[trigger] entry_at(raw, s)).inode_num == 0;
            &&& f is None <==> is_name(name) && !taken && room
            &&& f == Some(FsError::InvalidArgument) <==> !is_name(name)
            &&& f == Some(FsError::AlreadyExists) <==> is_name(name) && taken
            &&& f == Some(FsError::NoSpace) <==> is_name(name) && !taken && !room
        }),
{
    let raw = v[entries_block(dir, inode_at(v, dir as int))];
    lemma_first_unused(raw, 0);
    if is_name(name) {
        law_lookup_finds_the_entry(v, size, dir, name);
    }
    let u = first_unused(raw, 0);
    if u < 64 {
        assert(entry_at(raw, u).inode_num == 0);
    } else {
        assert forall|s: int| 0 <= s < 64 implies (#[trigger] entry_at(raw, s)).inode_num != 0 by {
            lemma_unused_before(raw, 0, s);
        }
    }
}

proof fn lemma_unused_before(raw: Seq<u8>, from: int, s: int)
    requires
        0 <= from <= s < first_unused(raw, from),
    ensures
        s < 64 ==> entry_at(raw, s).inode_num != 0,
    decreases 64 - from,
{
    if from < 64 && from < s && entry_at(raw, from).inode_num != 0 {
        lemma_unused_before(raw, from + 1, s);
    }
}

/// An inode can be read exactly if its number is one of the 255 that there are and, if it is in
/// use, it agrees with its checksum.
pub proof fn law_inode_can_be_read_exactly_if_sound(v: Volume, n: u32)
    ensures
        ({
            let i = inode_at(v, n as int);
            &&& reading(v, n) is Ok <==> 1 <= n <= 255 && (i.file_type == 0 || i.checksum
                == i.crc())
            &&& reading(v, n) is Ok ==> reading(v, n)->Ok_0 == i
            &&& reading(v, n) == Err::<DiskInode, FsError>(FsError::InvalidArgument) <==> n == 0
                || n > 255
            &&& reading(v, n) == Err::<DiskInode, FsError>(FsError::CorruptMetadata) <==> 1 <= n
                <= 255 && i.file_type != 0 && i.checksum != i.crc()
        }),
{
}

/// The inode that is handed out is the first that is free behind that of the root directory, and
/// where none is handed out all of them are in use. It is then in use and can be read back; no
/// other inode and no other bit changes.
pub proof fn law_inode_is_handed_out_once(v: Volume, i: DiskInode, m: int, b: int)
    requires
        volume_ok(v),
        0 <= m < 256,
        0 <= b < 32768,
    ensures
        ({
            let n = next_inode(v);
            let w = inode_taken(v, n, i);
            &&& 2 <= n <= 256
            &&& forall|k: int| 2 <= k < n ==> bit(v[3], k)
            &&& n < 256 ==> {
                &&& !bit(v[3], n)
                &&& bit(w[3], b) == (b == n || bit(v[3], b))
                &&& inode_at(w, m) == (if m == n {
                    i
                } else {
                    inode_at(v, m)
                })
                &&& b < 3 || b == 4 || b >= 21 ==> w[b] == v[b]
                &&& next_inode(w) > n
            }
        }),
{
    let n = next_inode(v);
    law_first_clear(v[3], 2, 256);
    assert(v[3].len() == 4096);
    if n < 256 {
        let u = v.insert(3, with_bit(v[3], n));
        assert(volume_ok(u));
        law_bits(v[3], n, b);
        law_inode_is_read_back(u, n, i, m);
        assert(u[inode_block(m)] == v[inode_block(m)]);
        assert(inode_bytes(u, m) == inode_bytes(v, m));
        let w = inode_taken(v, n, i);
        assert(w[3] == u[3]);
        law_first_clear(w[3], 2, 256);
        assert forall|k: int| 2 <= k <= n implies bit(w[3], k) by {
            law_bits(v[3], n, k);
        }
        let q = next_inode(w);
        if q <= n {
            assert(bit(w[3], q));
        }
    }
}

/// The inode of a new file is that of an empty file with one name, with no blocks.
pub proof fn law_new_file_is_empty(t: InodeType, pid: u64, l: int)
    requires
        0 <= l < 18,
    ensures
        ({
            let i = new_inode(t, pid);
            &&& t == InodeType::Regular ==> i.file_type == 1
            &&& t == InodeType::Directory ==> i.file_type == 2
            &&& i.links_count == 1
            &&& i.size_bytes == 0
            &&& i.blocks_count == 0
            &&& i.flags == 0
            &&& i.creator_pid == pid
            &&& i.direct_blocks@[l] == 0
            &&& i.indirect_block == 0
        }),
{
}

/// An inode that is given back is free: its bit is clear and it is that of no file. No other inode
/// and no other bit changes, and an inode that was handed out and given back leaves the bits as they
/// were.
pub proof fn law_inode_given_back_is_free(v: Volume, n: int, m: int, b: int)
    requires
        volume_ok(v),
        1 <= n < 256,
        0 <= m < 256,
        0 <= b < 32768,
    ensures
        ({
            let w = inode_given_back(v, n);
            &&& bit(w[3], b) == (b != n && bit(v[3], b))
            &&& inode_at(w, n).file_type == 0
            &&& inode_at(w, n).links_count == 0
            &&& inode_at(w, n).size_bytes == 0
            &&& m != n ==> inode_at(w, m) == inode_at(v, m)
            &&& b < 3 || b == 4 || b >= 21 ==> w[b] == v[b]
            &&& n >= 2 ==> next_inode(w) <= n
        }),
{
    assert(v[3].len() == 4096);
    let u = v.insert(3, without_bit(v[3], n));
    assert(volume_ok(u));
    law_bits(v[3], n, b);
    law_bits(v[3], n, n);
    let e = empty_inode().sealed();
    law_inode_is_read_back(u, n, e, m);
    assert(u[inode_block(m)] == v[inode_block(m)]);
    assert(inode_bytes(u, m) == inode_bytes(v, m));
    let w = inode_given_back(v, n);
    assert(w[3] == u[3]);
    law_first_clear(w[3], 2, 256);
    if n >= 2 && next_inode(w) > n {
        assert(bit(w[3], n));
    }
}

/// When the last handle to a file is closed, the file goes exactly if it is marked to go and has no
/// name any more: its inode is free and, for a file in order that could be cut, so are its blocks.
/// Otherwise nothing happens.
pub proof fn law_file_goes_with_its_last_handle(v: Volume, size: int, n: u32, l: int)
    requires
        volume_ok(v),
        is_logical(l),
    ensures
        ({
            let i = inode_at(v, n as int);
            let w = after_last_close(v, size, n);
            let goes = reading(v, n) is Ok && i.flags & 4 != 0 && i.links_count == 0;
            &&& !goes ==> w == v
            &&& goes && file_ok(v, size, i) && fresh_change(v, i).truncated(0, size).1 is Ok ==> {
                &&& !bit(w[3], n as int)
                &&& inode_at(w, n as int).file_type == 0
                &&& lba_of(v, i, l) != 0 ==> !in_use(w, lba_of(v, i, l) as int)
            }
        }),
{
    let i = inode_at(v, n as int);
    let goes = reading(v, n) is Ok && i.flags & 4 != 0 && i.links_count == 0;
    if goes && file_ok(v, size, i) && fresh_change(v, i).truncated(0, size).1 is Ok {
        law_cut_file_keeps_its_start(v, size, i, 0, l);
        let c = fresh_change(v, i).truncated(0, size).0.v;
        lemma_cut_keeps_volume(v, size, i, 0);
        law_inode_given_back_is_free(c, n as int, n as int, n as int);
        let w = after_last_close(v, size, n);
        assert(w == inode_given_back(c, n as int));
        assert(w[4] == c[4]);
    }
}

/// A file is opened exactly if a slot is free. It stands at its beginning, or at its end if it is
/// opened to append to it; other open files are as they were.
pub proof fn law_file_is_opened_exactly_if_there_is_room(
    before: Seq<StorageObject>,
    after: Seq<StorageObject>,
    device_id: u8,
    inode_num: u32,
    generation: u32,
    open_flags: u32,
    size: u64,
    r: Result<usize, FsError>,
)
    requires
        before.len() == 32,
        opening(before, after, device_id, inode_num, generation, open_flags, size, r),
    ensures
        r is Ok <==> exists|k: int| 0 <= k < 32 && !(#[trigger] before[k]).occupied,
        r is Err ==> r == Err::<usize, FsError>(FsError::TableFull) && after == before,
        r is Ok ==> {
            let k = r->Ok_0 as int;
            let o = after[k];
            &&& 0 <= k < 32
            &&& !before[k].occupied
            &&& forall|j: int| 0 <= j < k ==> (#[trigger] before[j]).occupied
            &&& o.occupied
            &&& o.device_id == device_id && o.inode_num == inode_num
            &&& o.generation == generation && o.open_flags == open_flags
            &&& o.cached_size == size
            &&& o.in_flight_ops == 0
            &&& open_flags & 16 != 0 ==> o.cursor_offset == size
            &&& open_flags & 16 == 0 ==> o.cursor_offset == 0
            &&& forall|j: int| 0 <= j < 32 && j != k ==> (#[trigger] after[j]) == before[j]
        },
{
    lemma_first_free_object(before, 0);
    let k = first_free_object(before, 0);
    if k < 32 {
        assert(!before[k].occupied);
    }
}

proof fn lemma_first_free_object(slots: Seq<StorageObject>, from: int)
    requires
        0 <= from <= slots.len(),
    ensures
        from <= first_free_object(slots, from) <= slots.len(),
        first_free_object(slots, from) < slots.len() ==> !slots[first_free_object(
            slots,
            from,
        )].occupied,
        forall|i: int| from <= i < first_free_object(slots, from) ==> (#[trigger] slots[i]).occupied,
    decreases slots.len() - from,
{
    if from < slots.len() && slots[from].occupied {
        lemma_first_free_object(slots, from + 1);
    }
}

/// Two reads in a row deliver what one read of both lengths delivers, and leave the file where that
/// one leaves it. A read delivers what was asked for as long as the file goes on, never more than
/// that, and nothing past its end.
pub proof fn law_reads_add_up(o: StorageObject, a: int, b: int)
    requires
        0 <= a,
        0 <= b,
    ensures
        ({
            let n = read_count(o, a);
            let p = read_on(o, n);
            let m = read_count(p, b);
            &&& 0 <= n <= a
            &&& o.cursor_offset <= o.cached_size ==> o.cursor_offset + n <= o.cached_size
            &&& n < a ==> o.cursor_offset + n >= o.cached_size
            &&& o.cursor_offset <= o.cached_size ==> {
                &&& n + m == read_count(o, a + b)
                &&& read_on(p, m) == read_on(o, read_count(o, a + b))
                &&& p.cursor_offset == o.cursor_offset + n
                &&& p.cached_size == o.cached_size
                &&& p.occupied == o.occupied && p.inode_num == o.inode_num
            }
        }),
{
}

/// A buffer that was read into holds the bytes of the file, one after another, and behind them what
/// it held before.
pub proof fn law_buffer_holds_the_file(
    v: Volume,
    size: int,
    i: DiskInode,
    pos: int,
    n: int,
    buf: Seq<u8>,
    k: int,
)
    requires
        0 <= n <= buf.len(),
        0 <= k < buf.len(),
    ensures
        ({
            let r = filled(v, size, i, pos, n, buf);
            &&& r.len() == buf.len()
            &&& k < n ==> r[k] == file_byte(v, size, i, pos + k)
            &&& k >= n ==> r[k] == buf[k]
            &&& 0 < k < n ==> r[k] == filled(v, size, i, pos + k, n - k, buf)[0]
        }),
{
}

/// Two writes in a row leave an open file as one write of both lengths does: it stands behind what
/// was written, and is as long as the farthest byte that was ever written says.
pub proof fn law_writes_add_up(o: StorageObject, a: int, b: int)
    requires
        0 <= a,
        0 <= b,
        o.cursor_offset + a + b <= u64::MAX,
    ensures
        advanced(advanced(o, a), b) == advanced(o, a + b),
        advanced(o, a).cursor_offset == o.cursor_offset + a,
        advanced(o, a).cached_size >= o.cached_size,
        advanced(o, a).cached_size >= o.cursor_offset + a,
        advanced(o, a).cached_size == o.cached_size || advanced(o, a).cached_size
            == o.cursor_offset + a,
{
}

/// A file that was written to is as long as its last byte says, and never shorter than before.
pub proof fn law_file_grows_to_its_last_byte(i: DiskInode, end: int)
    requires
        0 <= end <= u64::MAX,
    ensures
        grown(i, end).size_bytes >= end,
        grown(i, end).size_bytes >= i.size_bytes,
        grown(i, end).size_bytes == end || grown(i, end).size_bytes == i.size_bytes,
        grown(i, end).direct_blocks == i.direct_blocks,
        grown(i, end).indirect_block == i.indirect_block,
        grown(i, end).blocks_count == i.blocks_count,
        grown(i, end).file_type == i.file_type,
        grown(i, end).links_count == i.links_count,
{
}

/// A piece of what is written is never empty, touches eight blocks at most, and ends with a block
/// unless it is the last.
pub proof fn law_pieces_are_whole_blocks(pos: int, len: int)
    requires
        0 <= pos,
        0 < len,
    ensures
        0 < first_piece(pos, len) <= len,
        (pos + first_piece(pos, len) - 1) / 4096 - pos / 4096 < 8,
        first_piece(pos, len) < len ==> (pos + first_piece(pos, len)) % 4096 == 0,
        first_piece(pos, len) < len ==> (pos + first_piece(pos, len)) / 4096 == pos / 4096 + 8,
{
}

proof fn lemma_label(label: Seq<u8>, n: int, i: int)
    requires
        0 <= n <= 31,
        n <= label.len(),
        0 <= i < 32,
    ensures
        label_of(label, n)@[i] == (if i < n {
            label[i]
        } else {
            0
        }),
    decreases n,
{
    if n > 0 {
        lemma_label(label, n - 1, i);
    }
}

/// The superblock of a new volume says how large the volume is and that all its data blocks are
/// free, where its parts are, and what it is called: as much of the label as fits before a zero.
pub proof fn law_superblock_of_a_new_volume(total_blocks: u64, label: Seq<u8>, i: int)
    requires
        22 <= total_blocks <= 32768,
        0 <= i < 32,
    ensures
        ({
            let sb = new_superblock(total_blocks, label);
            &&& sb.valid()
            &&& sb.total_blocks == total_blocks
            &&& sb.free_blocks + 22 == total_blocks
            &&& sb.total_inodes == 256
            &&& sb.free_inodes == 254
            &&& sb.block_size == 4096
            &&& sb.journal_block == 2
            &&& sb.inode_bitmap_block == 3
            &&& sb.block_bitmap_block == 4
            &&& sb.inode_table_block == 5
            &&& sb.inode_table_blocks == 16
            &&& sb.root_dir_inode == 1
            &&& sb.mount_count == 0
            &&& sb.volume_state == 0
            &&& sb.volume_label@[i] == (if i < label.len() && i < 31 {
                label[i]
            } else {
                0
            })
        }),
{
    lemma_label(label, label_len(label), i);
    let sb = new_superblock(total_blocks, label);
    let raw = DiskSuperblock { checksum: 0, ..sb };
    law_sealed_superblock_is_valid(raw);
}

proof fn lemma_bits_of_bytes(k: u8)
    by (bit_vector)
    requires
        k < 8,
    ensures
        0xFFu8 & (1u8 << k) != 0,
        (0x3Fu8 & (1u8 << k) != 0) == (k < 6),
        (0x03u8 & (1u8 << k) != 0) == (k < 2),
        0x00u8 & (1u8 << k) == 0,
{
}

/// On a new volume exactly the 22 blocks in front of the data blocks are in use, and of the inodes
/// exactly the one that is never used and that of the root directory. Nothing is going on in the
/// journal, and the data blocks hold what they held.
pub proof fn law_new_volume_has_nothing_in_use(
    v: Volume,
    total_blocks: u64,
    label: Seq<u8>,
    b: int,
)
    requires
        0 <= b < 32768,
    ensures
        ({
            let w = formatted(v, total_blocks, label);
            &&& bit(w[4], b) <==> b < 22
            &&& bit(w[3], b) <==> b < 2
            &&& b >= 22 ==> w[b] == v[b]
            &&& next_inode(w) == 2
            &&& record_at(w).state == 0
            &&& superblock_at(w) == new_superblock(total_blocks, label)
            &&& inode_at(w, 1).file_type == 2
            &&& inode_at(w, 1).size_bytes == 4096
            &&& inode_at(w, 1).blocks_count == 1
            &&& inode_at(w, 1).direct_blocks@[0] == 21
            &&& inode_at(w, 1).checksum == inode_at(w, 1).crc()
        }),
{
    let w = formatted(v, total_blocks, label);
    lemma_bits_of_bytes((b % 8) as u8);
    lemma_bits_of_bytes(2);
    lemma_record_at(w, empty_record());
    let sb = new_superblock(total_blocks, label);
    assert(w[1].take(128) =~= sb.bytes());
    lemma_superblock_bytes_determine(sb, superblock_at(w));
    assert(inode_bytes(w, 1) =~= root_inode().bytes());
    lemma_inode_at(w, 1, root_inode());
    assert(!bit(w[3], 2));
    let raw = DiskInode { checksum: 0, ..root_inode() };
    law_sealed_inode_is_valid(raw);
}

/// A volume is taken into use exactly if its superblock describes a volume and its journal can be
/// trusted. One more use is then counted, as far as the count goes, and the rest of the superblock
/// is kept; every other block is what recovery leaves. Where the superblock describes no volume,
/// nothing changes.
pub proof fn law_volume_is_mounted_exactly_if_sound(v: Volume, b: int)
    requires
        volume_ok(v),
    ensures
        ({
            let sb = superblock_at(v);
            let w = mounted(v);
            let r = mounting(v);
            let describes = {
                &&& sb.magic@ == seq![0x5Au8, 0x45u8, 0x52u8, 0x4Fu8, 0x5Fu8, 0x46u8, 0x53u8, 0x00u8]
                &&& sb.version == 1
                &&& sb.block_size == 4096
                &&& sb.total_blocks <= 32768
                &&& sb.total_inodes == 256
                &&& sb.checksum == sb.crc()
            };
            &&& r is Ok <==> describes && recovering(v) is Ok
            &&& r == Err::<DiskSuperblock, FsError>(FsError::InvalidSuperblock) <==> !describes
            &&& !describes ==> w == v
            &&& describes && b != 1 ==> w[b] == recovered(v)[b]
            &&& r is Ok ==> {
                let n = r->Ok_0;
                &&& n.mount_count == sb.mount_count + 1 || (sb.mount_count == 0xFFFF_FFFF
                    && n.mount_count == 0xFFFF_FFFF)
                &&& n.volume_state == 0
                &&& n.total_blocks == sb.total_blocks
                &&& n.free_blocks == sb.free_blocks
                &&& n.free_inodes == sb.free_inodes
                &&& n.volume_label == sb.volume_label
                &&& n.checksum == n.crc()
                &&& superblock_at(w) == n
            }
        }),
{
    let sb = superblock_at(v);
    let w = mounted(v);
    if mounting(v) is Ok {
        let n = mounting(v)->Ok_0;
        let raw = DiskSuperblock { checksum: sb.checksum, ..n };
        law_sealed_superblock_is_valid(raw);
        assert(v[1].len() == 4096);
        assert(w[1].take(128) =~= n.bytes());
        lemma_superblock_bytes_determine(n, superblock_at(w));
    }
    assert(SUPERBLOCK_MAGIC@ =~= seq![
        0x5Au8,
        0x45u8,
        0x52u8,
        0x4Fu8,
        0x5Fu8,
        0x46u8,
        0x53u8,
        0x00u8,
    ]);
}

/// A block that the cache has is never put into a second buffer, and a block leaves the cache only
/// for another one that was not there, when no buffer was free, and only if no other that could have
/// left was used longer ago.
pub proof fn law_cache_gives_up_what_was_used_longest_ago<A: BlockDevice>(
    before: &Storage<A>,
    after: &Storage<A>,
    id: u8,
    b: int,
    i: int,
    j: int,
)
    requires
        buffer_used(before, after, id, b, i),
        0 <= j < 4,
    ensures
        after.buffers@[i].holds(id, b),
        after.buffers@[i].lru_seq == after.next_lru_seq,
        before.next_lru_seq < u64::MAX ==> after.next_lru_seq > before.next_lru_seq,
        before.buffers@[j].holds(id, b) && j != i ==> before.buffers@[i].holds(id, b),
        after.buffers@[j] != before.buffers@[j] ==> j == i,
        before.buffers@[i].state != BufferState::Free && !before.buffers@[i].holds(id, b) ==> {
            &&& before.buffers@[j].state != BufferState::Free
            &&& !before.buffers@[j].holds(id, b)
            &&& before.buffers@[i].pin_count == 0
            &&& before.buffers@[j].pin_count == 0 && before.buffers@[j].state
                != BufferState::Pinned && before.buffers@[j].state != BufferState::Writeback
                ==> before.buffers@[i].lru_seq <= before.buffers@[j].lru_seq
        },
{
}

/// A request for a block is in order exactly if the cache has the block, or there is such a device,
/// it is ready and it has the block.
pub proof fn law_requests_that_are_in_order<A: BlockDevice>(s: &Storage<A>, id: u8, b: int)
    ensures
        read_verdict(s, id, b) is Ok <==> (exists|i: int|
            0 <= i < 4 && (#[trigger] s.buffers@[i]).holds(id, b)) || ((id == 0 || id == 1)
            && s.status(id) == DeviceState::Ready && b < s.size(id)),
        device_verdict(s, id, b) == Err::<(), FsError>(FsError::NotFound) <==> id > 1,
        device_verdict(s, id, b) == Err::<(), FsError>(FsError::InvalidArgument) <==> id <= 1
            && s.status(id) == DeviceState::Ready && b >= s.size(id),
{
}

/// A file can be written to through an open file exactly if that was opened for writing.
pub proof fn law_writing_needs_to_be_asked_for(t: &StorageObjectTable, idx: usize)
    ensures
        is_writable(t, idx) <==> idx < 32 && t.slots@[idx as int].occupied
            && t.slots@[idx as int].open_flags & 2 != 0,
{
}

/// A file is still open after one of its handles was closed exactly if another slot stands for it.
pub proof fn law_file_stays_open_with_another_handle(
    slots: Seq<StorageObject>,
    idx: int,
    device_id: u8,
    inode_num: u32,
)
    requires
        0 <= idx < slots.len(),
    ensures
        is_open(slots.update(idx, empty_object()), device_id, inode_num) <==> exists|i: int|
            0 <= i < slots.len() && i != idx && (#[trigger] slots[i]).occupied
                && slots[i].device_id == device_id && slots[i].inode_num == inode_num,
{
    let now = slots.update(idx, empty_object());
    if is_open(now, device_id, inode_num) {
        let i = choose|i: int|
            0 <= i < now.len() && (#[trigger] now[i]).occupied && now[i].device_id == device_id
                && now[i].inode_num == inode_num;
        assert(slots[i].occupied);
    }
    if exists|i: int|
        0 <= i < slots.len() && i != idx && (#[trigger] slots[i]).occupied && slots[i].device_id
            == device_id && slots[i].inode_num == inode_num {
        let i = choose|i: int|
            0 <= i < slots.len() && i != idx && (#[trigger] slots[i]).occupied
                && slots[i].device_id == device_id && slots[i].inode_num == inode_num;
        assert(now[i].occupied);
    }
}

/// A block is handed out exactly if one of the data blocks is free: then it is the first of them,
/// in use from then on and full of zeros, and nothing else changes. Where none is free, nothing
/// changes.
pub proof fn law_block_is_handed_out_exactly_if_one_is_free(v: Volume, b: int)
    requires
        volume_ok(v),
        0 <= b < 32768,
    ensures
        ({
            let w = after_taking(v);
            let r = taking(v);
            &&& r is Ok <==> exists|k: int| 22 <= k < 32768 && !(#[trigger] bit(v[4], k))
            &&& r is Err ==> r == Err::<u32, FsError>(FsError::NoSpace) && w == v
            &&& r is Ok ==> {
                let l = r->Ok_0 as int;
                &&& 22 <= l < 32768
                &&& !bit(v[4], l)
                &&& 22 <= b < l ==> bit(v[4], b)
                &&& bit(w[4], b) == (b == l || bit(v[4], b))
                &&& w[l] == Seq::new(4096, |i: int| 0u8)
                &&& b != 4 && b != l ==> w[b] == v[b]
            }
        }),
{
    law_first_clear(v[4], 22, 32768);
    if taking(v) is Ok {
        law_taken_block_was_free(v);
        assert(after_taking(v)[taking(v)->Ok_0 as int] =~= Seq::new(4096, |i: int| 0u8));
    }
}

/// A name that was added is found and leads to what it was added for, names that were there are
/// found as before, and a name that could not be added changes nothing.
pub proof fn law_inserted_name_is_found(
    v: Volume,
    w: Volume,
    size: int,
    dir: u32,
    name: Seq<u8>,
    target: u32,
    file_type: InodeType,
    r: Result<(usize, DiskDirEntry), FsError>,
    other: Seq<u8>,
)
    requires
        volume_ok(v),
        holds_directory(v, dir),
        searchable(v, size, dir),
        target != 0,
        inserting(v, w, size, dir, name, target, file_type, r),
    ensures
        r is Err ==> w == v,
        r is Ok ==> {
            &&& looking_up(w, size, dir, name) == Ok::<(u32, InodeType, usize), FsError>(
                (target, file_type, r->Ok_0.0),
            )
            &&& forall|k: int|
                0 <= k < r->Ok_0.0 ==> (#[trigger] entry_at(
                    v[entries_block(dir, inode_at(v, dir as int))],
                    k,
                )).inode_num != 0
            &&& other != name ==> looking_up(w, size, dir, other) == looking_up(
                v,
                size,
                dir,
                other,
            )
        },
        r == Err::<(usize, DiskDirEntry), FsError>(FsError::AlreadyExists) ==> looking_up(
            v,
            size,
            dir,
            name,
        ) is Ok,
{
    if r is Ok {
        law_added_name_is_found(v, size, dir, name, target, file_type, r->Ok_0.1, other);
        let raw = v[entries_block(dir, inode_at(v, dir as int))];
        lemma_first_unused(raw, 0);
        assert forall|k: int| 0 <= k < r->Ok_0.0 implies (#[trigger] entry_at(raw, k)).inode_num
            != 0 by {
            lemma_unused_before(raw, 0, k);
        }
    }
    if is_name(name) {
        law_lookup_finds_the_entry(v, size, dir, name);
    }
    law_name_is_added_exactly_if_new(v, size, dir, name);
}

/// A name is removed exactly if it is there; it is then found no more, and other names are found as
/// before. The answer is what the name led to.
pub proof fn law_unlinked_name_is_gone(
    v: Volume,
    w: Volume,
    size: int,
    dir: u32,
    name: Seq<u8>,
    r: Result<(u32, usize, DiskDirEntry), FsError>,
    other: Seq<u8>,
)
    requires
        volume_ok(v),
        holds_directory(v, dir),
        names_unique(v[dir_block(dir, reading(v, dir)->Ok_0)]),
        unlinking(v, w, size, dir, name, r),
    ensures
        r is Ok <==> looking_up(v, size, dir, name) is Ok,
        r is Err ==> w == v,
        r is Ok ==> {
            &&& r->Ok_0.0 == looking_up(v, size, dir, name)->Ok_0.0
            &&& r->Ok_0.2.inode_num == r->Ok_0.0
            &&& looking_up(w, size, dir, name) == Err::<(u32, InodeType, usize), FsError>(
                FsError::NotFound,
            )
            &&& other != name ==> looking_up(w, size, dir, other) == looking_up(
                v,
                size,
                dir,
                other,
            )
        },
{
    if looking_up(v, size, dir, name) is Ok {
        let raw = v[dir_block(dir, reading(v, dir)->Ok_0)];
        lemma_first_called(raw, name, 0);
        law_removed_name_is_gone(v, size, dir, name, other);
    }
}

/// A file has 1042 blocks at most: 18 that its inode names, and 1024 that its block of pointers
/// names, four bytes each and lowest byte first. A block that is not named reads as zeros.
pub proof fn law_blocks_of_a_file(v: Volume, size: int, i: DiskInode, l: int)
    requires
        0 <= l,
    ensures
        ({
            let m = mapping(v, size, i, l);
            let raw = v[i.indirect_block as int];
            let o = 4 * (l - 18);
            let p = raw[o] + 0x100 * raw[o + 1] + 0x1_0000 * raw[o + 2] + 0x100_0000 * raw[o + 3];
            &&& m is Ok <==> l < 18 || (l < 1042 && (i.indirect_block == 0 || i.indirect_block
                < size))
            &&& m is Err ==> m == Err::<Option<u32>, FsError>(FsError::InvalidArgument)
            &&& l < 18 && i.direct_blocks@[l] != 0 ==> m->Ok_0 == Some(i.direct_blocks@[l])
            &&& l < 18 && i.direct_blocks@[l] == 0 ==> m->Ok_0 is None
            &&& 18 <= l && m is Ok && i.indirect_block == 0 ==> m->Ok_0 is None
            &&& 18 <= l && m is Ok && i.indirect_block != 0 && p == 0 ==> m->Ok_0 is None
            &&& 18 <= l && m is Ok && i.indirect_block != 0 && p != 0 ==> m->Ok_0 is Some
                && m->Ok_0->Some_0 == p
            &&& m is Ok && l < 1042 ==> lba_of(v, i, l) == (match m->Ok_0 {
                Some(b) => b,
                None => 0u32,
            })
            &&& m is Ok && m->Ok_0 is None ==> {
                let b = block_of(v, size, i, l);
                b is Ok && b->Ok_0.len() == 4096 && forall|k: int|
                    0 <= k < 4096 ==> #[trigger] b->Ok_0[k] == 0
            }
            &&& m is Ok && m->Ok_0 is Some ==> {
                let at = m->Ok_0->Some_0;
                &&& at < size ==> block_of(v, size, i, l) == Ok::<Seq<u8>, FsError>(v[at as int])
                &&& at >= size ==> block_of(v, size, i, l) is Err
            }
        }),
{
    let raw = v[i.indirect_block as int];
    let o = 4 * (l - 18);
    let low = raw[o] + 0x100 * raw[o + 1];
    let high = raw[o + 2] + 0x100 * raw[o + 3];
    assert(le16(raw, o) == low && le16(raw, o + 2) == high);
    assert(le32(raw, o) == low + 0x1_0000 * high);
    assert(pointer(raw, l - 18) == le32(raw, o));
    if block_of(v, size, i, l) is Ok && mapping(v, size, i, l)->Ok_0 is None {
        assert(block_of(v, size, i, l)->Ok_0 == zero_block());
    }
}

/// A directory that cannot be searched is refused for what is wrong: the name, the number of the
/// directory or its checksum, what the inode is, or where its entries should be. Nothing can be
/// found in it and nothing added to it.
pub proof fn law_reason_of_a_refused_directory(v: Volume, size: int, dir: u32, name: Seq<u8>)
    ensures
        ({
            let i = inode_at(v, dir as int);
            let r = looking_up(v, size, dir, name);
            let f = insert_fault(v, size, dir, name);
            let broken = i.file_type != 0 && i.checksum != i.crc();
            &&& !is_name(name) ==> r == Err::<(u32, InodeType, usize), FsError>(
                FsError::InvalidArgument,
            )
            &&& is_name(name) && !(1 <= dir <= 255) ==> r == Err::<
                (u32, InodeType, usize),
                FsError,
            >(FsError::InvalidArgument)
            &&& r == Err::<(u32, InodeType, usize), FsError>(FsError::CorruptMetadata) <==> is_name(
                name,
            ) && 1 <= dir <= 255 && broken
            &&& r == Err::<(u32, InodeType, usize), FsError>(FsError::NotDirectory) <==> is_name(
                name,
            ) && 1 <= dir <= 255 && !broken && i.file_type != 2
            &&& is_name(name) && 1 <= dir <= 255 && !broken && i.file_type == 2 ==> {
                &&& entries_block(dir, i) == 0 ==> r == Err::<(u32, InodeType, usize), FsError>(
                    FsError::NotFound,
                )
                &&& entries_block(dir, i) != 0 && entries_block(dir, i) >= size ==> r == Err::<
                    (u32, InodeType, usize),
                    FsError,
                >(FsError::InvalidArgument)
            }
            &&& is_name(name) && !searchable(v, size, dir) ==> r is Err && f == Some(r->Err_0)
        }),
{
}

} // verus!
