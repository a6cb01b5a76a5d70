//! What a volume holds, seen as a map from block numbers to blocks.
use crate::bytes::overwrite;
use crate::fs::buf::{resting, spares, Storage};
use crate::fs::dev::{zero_block, BlockDevice};
use crate::fs::types::disk_inode::lemma_inode_bytes_determine;
use crate::fs::types::{
    DiskInode, FsError, BLOCK_BITMAP_BLOCK, BLOCK_SIZE, DATA_BLOCK_START, INODE_TABLE_START,
    MAX_INODES, MAX_VOLUME_BLOCKS,
};
use vstd::prelude::*;

verus! {

/// The blocks of a volume.
pub type Volume = Map<int, Seq<u8>>;

/// Every block is there and has the right size.
pub open spec fn volume_ok(v: Volume) -> bool {
    &&& forall|b: int| #[trigger] v.dom().contains(b)
    &&& forall|b: int| (#[trigger] v[b]).len() == BLOCK_SIZE
}

/// What the file system sees of a device is a volume.
pub proof fn lemma_volume_ok<A: BlockDevice>(s: &Storage<A>, id: u8)
    ensures
        volume_ok(s.vol(id)),
{
}

impl<A: BlockDevice> Storage<A> {
    /// The device is ready and has room for what every volume has.
    pub open spec fn usable(&self, id: u8) -> bool {
        self.ready(id) && self.size(id) >= DATA_BLOCK_START
    }
}

/// The volume of a device became `v`; other devices are as they were.
pub open spec fn turned<A: BlockDevice>(
    before: &Storage<A>,
    after: &Storage<A>,
    id: u8,
    v: Volume,
) -> bool {
    &&& after.vol(id) == v
    &&& forall|k: u8| k != id ==> (#[trigger] after.vol(k)) == before.vol(k)
}

/// The blocks in front of the data blocks, other than the bitmap of blocks, are at rest if they
/// were.
pub open spec fn tables_spared<A: BlockDevice>(
    before: &Storage<A>,
    after: &Storage<A>,
    id: u8,
) -> bool {
    forall|b: int|
        #![trigger spares(before, after, id, b)]
        #![trigger resting(before, id, b)]
        b < DATA_BLOCK_START && b != BLOCK_BITMAP_BLOCK ==> spares(before, after, id, b)
}

/// What is spared twice is spared.
pub proof fn lemma_tables_spared<A: BlockDevice>(
    a: &Storage<A>,
    b: &Storage<A>,
    c: &Storage<A>,
    id: u8,
)
    requires
        tables_spared(a, b, id),
        tables_spared(b, c, id),
    ensures
        tables_spared(a, c, id),
{
    assert forall|n: int| n < DATA_BLOCK_START && n != BLOCK_BITMAP_BLOCK implies #[trigger] spares(
        a,
        c,
        id,
        n,
    ) by {
        assert(spares(a, b, id, n) && spares(b, c, id, n));
    }
}

/// The bit for `i` in a bitmap.
pub open spec fn bit(bm: Seq<u8>, i: int) -> bool {
    bm[i / 8] & (1u8 << ((i % 8) as u8)) != 0
}

/// The bitmap with the bit for `i` set.
pub open spec fn with_bit(bm: Seq<u8>, i: int) -> Seq<u8> {
    bm.update(i / 8, bm[i / 8] | (1u8 << ((i % 8) as u8)))
}

/// The bitmap with the bit for `i` cleared.
pub open spec fn without_bit(bm: Seq<u8>, i: int) -> Seq<u8> {
    bm.update(i / 8, bm[i / 8] & !(1u8 << ((i % 8) as u8)))
}

proof fn lemma_set_one_bit(a: u8, k: u8, m: u8)
    by (bit_vector)
    requires
        k < 8,
        m < 8,
    ensures
        ((a | (1u8 << k)) & (1u8 << m) != 0) == (k == m || a & (1u8 << m) != 0),
        ((a & !(1u8 << k)) & (1u8 << m) != 0) == (k != m && a & (1u8 << m) != 0),
{
}

/// Setting a bit sets that bit, clearing it clears it, and neither touches another one.
pub proof fn law_bits(bm: Seq<u8>, i: int, j: int)
    requires
        0 <= i < 8 * bm.len(),
        0 <= j < 8 * bm.len(),
    ensures
        bit(with_bit(bm, i), j) == (i == j || bit(bm, j)),
        bit(without_bit(bm, i), j) == (i != j && bit(bm, j)),
{
    lemma_set_one_bit(bm[i / 8], (i % 8) as u8, (j % 8) as u8);
    assert(i == 8 * (i / 8) + i % 8);
    assert(j == 8 * (j / 8) + j % 8);
}

/// Reads a bit.
pub fn get_bit(bm: &[u8; BLOCK_SIZE], i: usize) -> (r: bool)
    requires
        i < 32768,
    ensures
        r == bit(bm@, i as int),
{
    let k: u8 = (i % 8) as u8;
    (bm[i / 8] & (1u8 << k)) != 0
}

/// Sets a bit.
pub fn set_bit(bm: &mut [u8; BLOCK_SIZE], i: usize)
    requires
        i < 32768,
    ensures
        final(bm)@ == with_bit(old(bm)@, i as int),
{
    let k: u8 = (i % 8) as u8;
    bm[i / 8] = bm[i / 8] | (1u8 << k);
    assert(bm@ =~= with_bit(old(bm)@, i as int));
}

/// Clears a bit.
pub fn clear_bit(bm: &mut [u8; BLOCK_SIZE], i: usize)
    requires
        i < 32768,
    ensures
        final(bm)@ == without_bit(old(bm)@, i as int),
{
    let k: u8 = (i % 8) as u8;
    bm[i / 8] = bm[i / 8] & !(1u8 << k);
    assert(bm@ =~= without_bit(old(bm)@, i as int));
}

/// The first clear bit from `from` on, or `end` if there is none before it.
pub open spec fn first_clear(bm: Seq<u8>, from: int, end: int) -> int
    decreases end - from,
{
    if from >= end {
        end
    } else if !bit(bm, from) {
        from
    } else {
        first_clear(bm, from + 1, end)
    }
}

/// The first clear bit is clear, and those before it are set.
pub proof fn law_first_clear(bm: Seq<u8>, from: int, end: int)
    requires
        from <= end,
    ensures
        from <= first_clear(bm, from, end) <= end,
        first_clear(bm, from, end) < end ==> !bit(bm, first_clear(bm, from, end)),
        forall|j: int| from <= j < first_clear(bm, from, end) ==> bit(bm, j),
    decreases end - from,
{
    if from < end && bit(bm, from) {
        law_first_clear(bm, from + 1, end);
    }
}

/// Finds the first clear bit.
pub fn find_clear(bm: &[u8; BLOCK_SIZE], from: usize, end: usize) -> (r: Option<usize>)
    requires
        from <= end <= 32768,
    ensures
        match r {
            None => first_clear(bm@, from as int, end as int) == end,
            Some(i) => from <= i < end && i == first_clear(bm@, from as int, end as int) && !bit(
                bm@,
                i as int,
            ),
        },
{
    let mut i: usize = from;
    while i < end
        invariant
            from <= i <= end <= 32768,
            first_clear(bm@, from as int, end as int) == first_clear(bm@, i as int, end as int),
        decreases end - i,
    {
        if !get_bit(bm, i) {
            return Some(i);
        }
        i = i + 1;
    }
    None
}

/// The block of the inode table that holds an inode.
pub open spec fn inode_block(n: int) -> int {
    INODE_TABLE_START + n / 16
}

/// Where in that block the inode is.
pub open spec fn inode_offset(n: int) -> int {
    n % 16 * 256
}

/// The bytes of an inode.
pub open spec fn inode_bytes(v: Volume, n: int) -> Seq<u8> {
    v[inode_block(n)].subrange(inode_offset(n), inode_offset(n) + 256)
}

/// The inode with a number.
pub open spec fn inode_at(v: Volume, n: int) -> DiskInode {
    choose|i: DiskInode| i.bytes() == inode_bytes(v, n)
}

/// An inode with the right bytes is the one that is stored.
pub proof fn lemma_inode_at(v: Volume, n: int, i: DiskInode)
    requires
        i.bytes() == inode_bytes(v, n),
    ensures
        inode_at(v, n) == i,
{
    lemma_inode_bytes_determine(inode_at(v, n), i);
}

/// The volume after an inode was stored.
pub open spec fn with_inode(v: Volume, n: int, i: DiskInode) -> Volume {
    v.insert(inode_block(n), overwrite(v[inode_block(n)], inode_offset(n), i.bytes()))
}

/// An inode that was stored is read back, and no other one changed.
pub proof fn law_inode_is_read_back(v: Volume, n: int, i: DiskInode, m: int)
    requires
        volume_ok(v),
        0 <= n < MAX_INODES,
        0 <= m < MAX_INODES,
    ensures
        inode_at(with_inode(v, n, i), n) == i,
        m != n ==> inode_at(with_inode(v, n, i), m) == inode_at(v, m),
        volume_ok(with_inode(v, n, i)),
{
    let w = with_inode(v, n, i);
    assert(v[inode_block(n)].len() == BLOCK_SIZE);
    assert(inode_bytes(w, n) =~= i.bytes());
    lemma_inode_at(w, n, i);
    if m != n {
        assert(v[inode_block(m)].len() == BLOCK_SIZE);
        assert(n == 16 * (n / 16) + n % 16);
        assert(m == 16 * (m / 16) + m % 16);
        assert(inode_bytes(w, m) =~= inode_bytes(v, m));
    }
    assert forall|b: int| (#[trigger] w[b]).len() == BLOCK_SIZE by {
        assert(v[b].len() == BLOCK_SIZE);
    }
}

/// Whether a block may be handed out as a data block.
pub open spec fn is_data_block(lba: int) -> bool {
    DATA_BLOCK_START <= lba < MAX_VOLUME_BLOCKS
}

/// The block that is handed out next; the number of blocks if there is none.
pub open spec fn next_block(bm: Seq<u8>) -> int {
    first_clear(bm, DATA_BLOCK_START as int, MAX_VOLUME_BLOCKS as int)
}

/// The next `n` blocks that are handed out lie on a device of this size.
pub open spec fn roomy(bm: Seq<u8>, size: int, n: nat) -> bool
    decreases n,
{
    n == 0 || next_block(bm) >= MAX_VOLUME_BLOCKS || (next_block(bm) < size && roomy(
        with_bit(bm, next_block(bm)),
        size,
        (n - 1) as nat,
    ))
}

/// The volume after the next block was handed out.
pub open spec fn block_taken(v: Volume) -> Volume {
    let l = next_block(v[BLOCK_BITMAP_BLOCK as int]);
    v.insert(
        BLOCK_BITMAP_BLOCK as int,
        with_bit(v[BLOCK_BITMAP_BLOCK as int], l),
    ).insert(l, zero_block())
}

/// What handing out a block answers.
pub open spec fn taking(v: Volume) -> Result<u32, FsError> {
    let l = next_block(v[BLOCK_BITMAP_BLOCK as int]);
    if l >= MAX_VOLUME_BLOCKS {
        Err(FsError::NoSpace)
    } else {
        Ok(l as u32)
    }
}

/// The volume after an attempt to hand out a block.
pub open spec fn after_taking(v: Volume) -> Volume {
    if taking(v) is Ok {
        block_taken(v)
    } else {
        v
    }
}

/// The volume after a data block was given back.
pub open spec fn block_given_back(v: Volume, lba: int) -> Volume {
    v.insert(BLOCK_BITMAP_BLOCK as int, without_bit(v[BLOCK_BITMAP_BLOCK as int], lba))
}

/// A block that is handed out was free and is not free any more; it lies behind the tables, and
/// nothing but it and the bitmap changed.
pub proof fn law_taken_block_was_free(v: Volume)
    requires
        volume_ok(v),
        taking(v) is Ok,
    ensures
        ({
            let l = taking(v)->Ok_0 as int;
            let bm = v[BLOCK_BITMAP_BLOCK as int];
            let w = block_taken(v);
            &&& is_data_block(l)
            &&& l == next_block(bm)
            &&& !bit(bm, l)
            &&& w[BLOCK_BITMAP_BLOCK as int] == with_bit(bm, l)
            &&& bit(w[BLOCK_BITMAP_BLOCK as int], l)
            &&& w[l] == zero_block()
            &&& forall|b: int|
                b != l && b != BLOCK_BITMAP_BLOCK ==> (#[trigger] w[b]) == v[b]
            &&& forall|j: int|
                0 <= j < 32768 && j != l ==> #[trigger] bit(w[BLOCK_BITMAP_BLOCK as int], j) == bit(bm, j)
            &&& volume_ok(w)
        }),
{
    let bm = v[BLOCK_BITMAP_BLOCK as int];
    assert(bm.len() == BLOCK_SIZE);
    law_first_clear(bm, DATA_BLOCK_START as int, MAX_VOLUME_BLOCKS as int);
    let l = next_block(bm);
    let w = block_taken(v);
    law_bits(bm, l, l);
    assert(w[BLOCK_BITMAP_BLOCK as int] == with_bit(bm, l));
    assert forall|j: int| 0 <= j < 32768 && j != l implies #[trigger] bit(
        w[BLOCK_BITMAP_BLOCK as int],
        j,
    ) == bit(bm, j) by {
        law_bits(bm, l, j);
    }
    assert forall|b: int| (#[trigger] w[b]).len() == BLOCK_SIZE by {
        assert(v[b].len() == BLOCK_SIZE);
    }
}

/// Two blocks that are handed out one after the other are different.
pub proof fn law_blocks_are_handed_out_once(v: Volume)
    requires
        volume_ok(v),
        taking(v) is Ok,
        taking(block_taken(v)) is Ok,
    ensures
        taking(v)->Ok_0 != taking(block_taken(v))->Ok_0,
{
    law_taken_block_was_free(v);
    law_taken_block_was_free(block_taken(v));
}

/// A block that was given back can be handed out again, and only that changed.
pub proof fn law_block_given_back_is_free(v: Volume, lba: int)
    requires
        volume_ok(v),
        is_data_block(lba),
    ensures
        ({
            let w = block_given_back(v, lba);
            &&& !bit(w[BLOCK_BITMAP_BLOCK as int], lba)
            &&& forall|j: int|
                0 <= j < 32768 && j != lba ==> #[trigger] bit(w[BLOCK_BITMAP_BLOCK as int], j) == bit(
                    v[BLOCK_BITMAP_BLOCK as int],
                    j,
                )
            &&& forall|b: int| b != BLOCK_BITMAP_BLOCK ==> (#[trigger] w[b]) == v[b]
            &&& taking(w) is Ok
            &&& volume_ok(w)
        }),
{
    let bm = v[BLOCK_BITMAP_BLOCK as int];
    let w = block_given_back(v, lba);
    assert(bm.len() == BLOCK_SIZE);
    law_bits(bm, lba, lba);
    assert forall|j: int| 0 <= j < 32768 && j != lba implies #[trigger] bit(
        w[BLOCK_BITMAP_BLOCK as int],
        j,
    ) == bit(bm, j) by {
        law_bits(bm, lba, j);
    }
    law_first_clear(
        w[BLOCK_BITMAP_BLOCK as int],
        DATA_BLOCK_START as int,
        MAX_VOLUME_BLOCKS as int,
    );
    assert forall|b: int| (#[trigger] w[b]).len() == BLOCK_SIZE by {
        assert(v[b].len() == BLOCK_SIZE);
    }
}

} // verus!
