//! What is written to a file is read back.
use crate::bytes::{lemma_put_get32, overwrite, put_le};
use crate::fs::dev::zero_block;
use crate::fs::file::{block_of, file_byte, is_readable};
use crate::fs::inode::{
    fresh_change, is_noted, pointer, reading, Change, DIRECT_BLOCKS, FILE_BLOCKS,
};
use crate::fs::journal::{cleared_record, listed, with_record};
use crate::fs::laws::law_all_cleared;
use crate::fs::transaction::{
    data_written, first_piece, grown, next_pos, piece_fits, piece_record, piece_written, pieces_fit,
    pieces_written, released, spanned, write_record,
};
use crate::fs::types::disk_inode::law_sealed_inode_is_valid;
use crate::fs::types::{
    DiskInode, FsError, JournalState, BLOCK_BITMAP_BLOCK, BLOCK_SIZE, MAX_VOLUME_BLOCKS,
};
use crate::fs::volume::{
    bit, inode_at, inode_block, inode_bytes, is_data_block, law_inode_is_read_back,
    law_taken_block_was_free, next_block, roomy, taking, volume_ok, with_bit, with_inode, Volume,
};
use vstd::prelude::*;

verus! {

/// A data block is in use.
pub open spec fn in_use(v: Volume, b: int) -> bool {
    is_data_block(b) && bit(v[BLOCK_BITMAP_BLOCK as int], b)
}

/// The block that an inode has for a logical block, or 0.
pub open spec fn lba_of(v: Volume, i: DiskInode, l: int) -> u32 {
    if l < DIRECT_BLOCKS {
        i.direct_blocks@[l]
    } else if i.indirect_block == 0 {
        0
    } else {
        pointer(v[i.indirect_block as int], l - DIRECT_BLOCKS)
    }
}

/// A logical block that an inode can have.
pub open spec fn is_logical(l: int) -> bool {
    0 <= l < FILE_BLOCKS
}

/// The blocks of a file are in use, lie on the device and are all different.
pub open spec fn file_ok(v: Volume, size: int, i: DiskInode) -> bool {
    &&& forall|l: int|
        is_logical(l) && (#[trigger] lba_of(v, i, l)) != 0 ==> in_use(v, lba_of(v, i, l) as int)
            && lba_of(v, i, l) < size && lba_of(v, i, l) != i.indirect_block
    &&& forall|l: int, m: int|
        is_logical(l) && is_logical(m) && l != m && (#[trigger] lba_of(v, i, l)) != 0 ==> lba_of(
            v,
            i,
            l,
        ) != (#[trigger] lba_of(v, i, m))
    &&& i.indirect_block != 0 ==> in_use(v, i.indirect_block as int) && i.indirect_block < size
}

/// Blocks in use, and those in front of the data blocks other than the bitmap, are as they were.
/// So is the block of pointers, unless the change made it.
pub open spec fn used_kept(c: Change, after: Volume) -> bool {
    forall|b: int|
        b != BLOCK_BITMAP_BLOCK && (b < 22 || in_use(c.v, b)) && !(c.made_pointers() && b
            == c.inode.indirect_block) ==> (#[trigger] after[b]) == c.v[b]
}

/// Where a change made no block of pointers yet, it goes on not having made the one that the file
/// had.
pub open spec fn pointers_kept(c: Change, d: Change) -> bool {
    &&& d.inode.indirect_block == c.inode.indirect_block ==> d.made_pointers()
        == c.made_pointers()
    &&& d.inode.indirect_block != c.inode.indirect_block ==> !in_use(
        c.v,
        d.inode.indirect_block as int,
    ) && d.inode.indirect_block != 0
}

/// No block went out of use.
pub open spec fn use_kept(before: Volume, after: Volume) -> bool {
    forall|b: int| in_use(before, b) ==> #[trigger] in_use(after, b)
}

/// What a logical block holds before anything is written to it.
pub open spec fn base_block(v: Volume, i: DiskInode, l: int) -> Seq<u8> {
    if lba_of(v, i, l) != 0 {
        v[lba_of(v, i, l) as int]
    } else {
        zero_block()
    }
}

/// A block is the one that an inode has for a logical block, or it was not in use.
pub open spec fn own_or_new(v: Volume, i: DiskInode, l: int, b: u32) -> bool {
    if lba_of(v, i, l) != 0 {
        b == lba_of(v, i, l)
    } else {
        !in_use(v, b as int)
    }
}

/// Blocks in use that hold no data of a file are as they were.
pub open spec fn used_elsewhere_kept(before: Volume, after: Volume, i: DiskInode) -> bool {
    forall|b: int|
        in_use(before, b) && (forall|l: int|
            is_logical(l) ==> (#[trigger] lba_of(before, i, l)) != b) ==> (#[trigger] after[b])
            == before[b]
}

/// Storing a pointer leaves the others as they are.
pub proof fn lemma_pointer_put(data: Seq<u8>, slot: int, other: int, p: u32)
    requires
        data.len() == BLOCK_SIZE,
        0 <= slot < 1024,
        0 <= other < 1024,
    ensures
        pointer(put_le(data, 4 * slot, p as int, 4), other) == (if other == slot {
            p
        } else {
            pointer(data, other)
        }),
        put_le(data, 4 * slot, p as int, 4).len() == BLOCK_SIZE,
{
    if other == slot {
        lemma_put_get32(data, 4 * slot, p);
    } else {
        let d = put_le(data, 4 * slot, p as int, 4);
        assert(d[4 * other] == data[4 * other]);
        assert(d[4 * other + 1] == data[4 * other + 1]);
        assert(d[4 * other + 2] == data[4 * other + 2]);
        assert(d[4 * other + 3] == data[4 * other + 3]);
    }
}

/// A block of zeros holds no pointers.
proof fn lemma_zero_pointer(slot: int)
    requires
        0 <= slot < 1024,
    ensures
        pointer(zero_block(), slot) == 0,
{
}

/// The blocks that a change gave up are still in use, and none of them is one of the file any more.
pub open spec fn freed_apart(c: Change) -> bool {
    &&& c.freed_count <= 10
    &&& forall|j: int|
        0 <= j < c.freed_count ==> in_use(c.v, (#[trigger] c.freed@[j]) as int) && c.freed@[j]
            != c.inode.indirect_block
    &&& forall|j: int, l: int|
        0 <= j < c.freed_count && is_logical(l) ==> (#[trigger] c.freed@[j]) != (#[trigger] lba_of(
            c.v,
            c.inode,
            l,
        ))
}

/// Recording a block records that one alone.
pub proof fn lemma_noting(c: Change, lba: u32, x: u32)
    ensures
        is_noted(c.noting(lba).allocated@, c.noting(lba).allocated_count as int, x) == (is_noted(
            c.allocated@,
            c.allocated_count as int,
            x,
        ) || (c.allocated_count < 10 && x == lba)),
{
    let d = c.noting(lba);
    if c.allocated_count < 10 {
        assert(d.allocated@ == c.allocated@.update(c.allocated_count as int, lba));
        if is_noted(c.allocated@, c.allocated_count as int, x) {
            let j = choose|j: int|
                0 <= j < 10 && j < c.allocated_count && (#[trigger] c.allocated@[j]) == x;
            assert(d.allocated@[j] == x);
        }
        if x == lba {
            assert(d.allocated@[c.allocated_count as int] == x);
        }
        if is_noted(d.allocated@, d.allocated_count as int, x) && x != lba {
            let j = choose|j: int|
                0 <= j < 10 && j < d.allocated_count && (#[trigger] d.allocated@[j]) == x;
            assert(c.allocated@[j] == x);
        }
    }
}

/// One step of mapping.
pub open spec fn step_ok(c: Change, d: Change, size: int, l: int, lba: u32) -> bool {
    &&& volume_ok(d.v)
    &&& file_ok(d.v, size, d.inode)
    &&& lba != 0
    &&& lba_of(d.v, d.inode, l) == lba
    &&& own_or_new(c.v, c.inode, l, lba)
    &&& d.v[lba as int] == base_block(c.v, c.inode, l)
    &&& forall|m: int| is_logical(m) && m != l ==> (#[trigger] lba_of(d.v, d.inode, m)) == lba_of(
        c.v,
        c.inode,
        m,
    )
    &&& used_kept(c, d.v)
    &&& use_kept(c.v, d.v)
    &&& pointers_kept(c, d)
    &&& freed_apart(c) ==> freed_apart(d)
    &&& d.inode.size_bytes == c.inode.size_bytes
}

pub proof fn lemma_step_direct(c: Change, size: int, l: int)
    requires
        volume_ok(c.v),
        file_ok(c.v, size, c.inode),
        0 <= l < DIRECT_BLOCKS,
        lba_of(c.v, c.inode, l) == 0,
        c.map_direct(l).1 is Ok,
        roomy(c.v[BLOCK_BITMAP_BLOCK as int], size, 1),
    ensures
        step_ok(c, c.map_direct(l).0, size, l, c.map_direct(l).1->Ok_0),
{
    let (d, r) = c.map_direct(l);
    let lba = r->Ok_0;
    if c.inode.direct_blocks@[l] == 0 {
        reveal_with_fuel(roomy, 2);
        law_taken_block_was_free(c.v);
        assert(d.inode.direct_blocks@ == c.inode.direct_blocks@.update(l, lba));
        assert(use_kept(c.v, d.v));
        assert(used_kept(c, d.v));
        if c.inode.indirect_block != 0 {
            assert(in_use(c.v, c.inode.indirect_block as int));
            assert(!in_use(c.v, lba as int));
        }
        lemma_noting(c.with_volume(d.v), lba, c.inode.indirect_block);
        assert(pointers_kept(c, d));
        assert forall|m: int| is_logical(m) && m != l implies (#[trigger] lba_of(
            d.v,
            d.inode,
            m,
        )) == lba_of(c.v, c.inode, m) by {
            if m >= DIRECT_BLOCKS && c.inode.indirect_block != 0 {
                assert(d.v[c.inode.indirect_block as int] == c.v[c.inode.indirect_block as int]);
            }
        }
        assert(lba_of(c.v, c.inode, l) == 0);
        assert(lba_of(d.v, d.inode, l) == lba);
        assert(in_use(d.v, lba as int));
        assert forall|m: int| is_logical(m) && m != l implies lba != (#[trigger] lba_of(
            c.v,
            c.inode,
            m,
        )) by {
            assert(!in_use(c.v, lba as int));
        }
        assert forall|m: int| is_logical(m) && (#[trigger] lba_of(d.v, d.inode, m)) != 0 implies in_use(d.v, lba_of(d.v, d.inode, m) as int)
            && lba_of(d.v, d.inode, m) < size && lba_of(d.v, d.inode, m) != d.inode.indirect_block by {
            if m != l {
                assert(in_use(c.v, lba_of(c.v, c.inode, m) as int));
            }
        }
        assert forall|m: int, k: int|
            is_logical(m) && is_logical(k) && m != k && (#[trigger] lba_of(d.v, d.inode, m))
                != 0 implies lba_of(d.v, d.inode, m) != (#[trigger] lba_of(d.v, d.inode, k)) by {
            if m != l {
                assert(lba_of(d.v, d.inode, m) == lba_of(c.v, c.inode, m));
            }
            if k != l {
                assert(lba_of(d.v, d.inode, k) == lba_of(c.v, c.inode, k));
            }
        }
        if c.inode.indirect_block != 0 {
            assert(in_use(d.v, c.inode.indirect_block as int));
        }
        if freed_apart(c) {
            assert forall|j: int, m: int| 0 <= j < d.freed_count && is_logical(m) implies (
            #[trigger] d.freed@[j]) != (#[trigger] lba_of(d.v, d.inode, m)) by {
                assert(in_use(c.v, c.freed@[j] as int));
                if m != l {
                    assert(lba_of(d.v, d.inode, m) == lba_of(c.v, c.inode, m));
                }
            }
            assert forall|j: int| 0 <= j < d.freed_count implies in_use(
                d.v,
                (#[trigger] d.freed@[j]) as int,
            ) && d.freed@[j] != d.inode.indirect_block by {
                assert(in_use(c.v, c.freed@[j] as int));
            }
        }
    } else {
        assert(lba_of(c.v, c.inode, l) == lba);
    }
}

#[verifier::spinoff_prover]
#[verifier::rlimit(60)]
pub proof fn lemma_step_indirect(c: Change, size: int, l: int)
    requires
        volume_ok(c.v),
        file_ok(c.v, size, c.inode),
        DIRECT_BLOCKS <= l < FILE_BLOCKS,
        lba_of(c.v, c.inode, l) == 0,
        c.map_indirect(l).1 is Ok,
        !c.made_pointers(),
        roomy(c.v[BLOCK_BITMAP_BLOCK as int], size, 2),
    ensures
        step_ok(c, c.map_indirect(l).0, size, l, c.map_indirect(l).1->Ok_0),
        c.allocated_count <= 8 ==> {
            &&& c.map_indirect(l).0.made_pointers()
            &&& c.map_indirect(l).0.allocated_count == c.allocated_count + 2
        },
{
    let (d, r) = c.map_indirect(l);
    let lba = r->Ok_0;
    let c1 = c.taking_block();
    let c2 = c1.taking_block();
    reveal_with_fuel(roomy, 3);
    law_taken_block_was_free(c.v);
    law_taken_block_was_free(c1.v);
    let copy = d.inode.indirect_block;
    let was = c.inode.indirect_block;
    let base = if was == 0 {
        zero_block()
    } else {
        c2.v[was as int]
    };
    assert(lba == taking(c.v)->Ok_0 && copy == taking(c1.v)->Ok_0);
    assert(lba != copy);
    assert(!in_use(c.v, lba as int));
    assert(in_use(c1.v, lba as int));
    lemma_noting(c1.with_volume(c2.v), copy, copy);
    assert(!in_use(c.v, copy as int)) by {
        assert(bit(c1.v[BLOCK_BITMAP_BLOCK as int], copy as int) == bit(
            c.v[BLOCK_BITMAP_BLOCK as int],
            copy as int,
        ));
    }
    assert(base.len() == BLOCK_SIZE);
    if was != 0 {
        assert(c1.v[was as int] == c.v[was as int]);
        assert(in_use(c1.v, was as int));
        assert(c2.v[was as int] == c.v[was as int]);
    }
    assert(d.v[copy as int] == put_le(base, 4 * (l - DIRECT_BLOCKS), lba as int, 4));
    assert forall|b: int| (#[trigger] d.v[b]).len() == BLOCK_SIZE by {
        assert(c2.v[b].len() == BLOCK_SIZE);
        assert(put_le(base, 4 * (l - DIRECT_BLOCKS), lba as int, 4).len() == base.len());
    }
    assert forall|b: int| in_use(c.v, b) implies #[trigger] in_use(d.v, b) by {
        assert(in_use(c1.v, b));
        assert(in_use(c2.v, b));
    }
    assert(in_use(d.v, lba as int)) by {
        assert(in_use(c2.v, lba as int));
    }
    assert(in_use(d.v, copy as int));
    assert forall|b: int| b != BLOCK_BITMAP_BLOCK && (b < 22 || in_use(c.v, b)) implies (
    #[trigger] d.v[b]) == c.v[b] by {
        assert(b != lba && b != copy);
        assert(c1.v[b] == c.v[b]);
        assert(c2.v[b] == c1.v[b]);
    }
    assert(d.v[lba as int] == zero_block());
    assert forall|m: int| is_logical(m) && m != l implies (#[trigger] lba_of(d.v, d.inode, m))
        == lba_of(c.v, c.inode, m) by {
        if m >= DIRECT_BLOCKS {
            lemma_pointer_put(base, l - DIRECT_BLOCKS, m - DIRECT_BLOCKS, lba);
            if was == 0 {
                lemma_zero_pointer(m - DIRECT_BLOCKS);
            }
        }
    }
    lemma_pointer_put(base, l - DIRECT_BLOCKS, l - DIRECT_BLOCKS, lba);
    assert(lba_of(d.v, d.inode, l) == lba);
    assert forall|m: int| is_logical(m) && m != l && (#[trigger] lba_of(c.v, c.inode, m)) != 0 implies lba
        != lba_of(c.v, c.inode, m) && copy != lba_of(c.v, c.inode, m) by {
        assert(in_use(c.v, lba_of(c.v, c.inode, m) as int));
    }
    assert forall|m: int| is_logical(m) && (#[trigger] lba_of(d.v, d.inode, m)) != 0 implies in_use(
        d.v,
        lba_of(d.v, d.inode, m) as int,
    ) && lba_of(d.v, d.inode, m) < size && lba_of(d.v, d.inode, m) != d.inode.indirect_block by {
        if m != l {
            assert(lba_of(d.v, d.inode, m) == lba_of(c.v, c.inode, m));
            assert(in_use(c.v, lba_of(c.v, c.inode, m) as int));
        }
    }
    assert forall|m: int, k: int|
        is_logical(m) && is_logical(k) && m != k && (#[trigger] lba_of(d.v, d.inode, m))
            != 0 implies lba_of(d.v, d.inode, m) != (#[trigger] lba_of(d.v, d.inode, k)) by {
        if m != l {
            assert(lba_of(d.v, d.inode, m) == lba_of(c.v, c.inode, m));
        }
        if k != l {
            assert(lba_of(d.v, d.inode, k) == lba_of(c.v, c.inode, k));
        }
    }
    assert(pointers_kept(c, d));
    if freed_apart(c) {
        assert forall|j: int| 0 <= j < d.freed_count implies in_use(
            d.v,
            (#[trigger] d.freed@[j]) as int,
        ) && d.freed@[j] != d.inode.indirect_block && in_use(c.v, d.freed@[j] as int) && (forall|
            m: int,
        | is_logical(m) ==> d.freed@[j] != #[trigger] lba_of(c.v, c.inode, m)) by {
            if j < c.freed_count {
                assert(d.freed@[j] == c.freed@[j]);
            } else {
                assert(d.freed@[j] == was);
                assert(in_use(c.v, was as int));
                assert forall|m: int| is_logical(m) implies was != #[trigger] lba_of(
                    c.v,
                    c.inode,
                    m,
                ) by {}
            }
        }
        assert forall|j: int, m: int| 0 <= j < d.freed_count && is_logical(m) implies (
        #[trigger] d.freed@[j]) != (#[trigger] lba_of(d.v, d.inode, m)) by {
            if m != l {
                assert(lba_of(d.v, d.inode, m) == lba_of(c.v, c.inode, m));
            } else {
                assert(in_use(c.v, d.freed@[j] as int));
            }
        }
    }
}

/// A step that puts a pointer into the block of pointers that the change made.
#[verifier::spinoff_prover]
#[verifier::rlimit(60)]
pub proof fn lemma_step_own(c: Change, size: int, l: int)
    requires
        volume_ok(c.v),
        file_ok(c.v, size, c.inode),
        DIRECT_BLOCKS <= l < FILE_BLOCKS,
        lba_of(c.v, c.inode, l) == 0,
        c.map_indirect(l).1 is Ok,
        c.made_pointers(),
        roomy(c.v[BLOCK_BITMAP_BLOCK as int], size, 1),
    ensures
        step_ok(c, c.map_indirect(l).0, size, l, c.map_indirect(l).1->Ok_0),
        c.map_indirect(l).0.made_pointers(),
        c.allocated_count <= 9 ==> c.map_indirect(l).0.allocated_count == c.allocated_count + 1,
{
    let (d, r) = c.map_indirect(l);
    let lba = r->Ok_0;
    let c1 = c.taking_block();
    reveal_with_fuel(roomy, 2);
    law_taken_block_was_free(c.v);
    let at = c.inode.indirect_block;
    let base = c.v[at as int];
    assert(in_use(c.v, at as int) && !in_use(c.v, lba as int));
    assert(lba != at);
    assert(c1.v[at as int] == base);
    lemma_noting(c.with_volume(c1.v), lba, at);
    assert(d.v[at as int] == put_le(base, 4 * (l - DIRECT_BLOCKS), lba as int, 4));
    assert forall|b: int| (#[trigger] d.v[b]).len() == BLOCK_SIZE by {
        assert(c1.v[b].len() == BLOCK_SIZE);
        assert(put_le(base, 4 * (l - DIRECT_BLOCKS), lba as int, 4).len() == base.len());
    }
    assert forall|b: int| in_use(c.v, b) implies #[trigger] in_use(d.v, b) by {
        assert(in_use(c1.v, b));
    }
    assert(in_use(d.v, lba as int));
    assert(d.v[lba as int] == zero_block());
    assert forall|m: int| is_logical(m) && m != l implies (#[trigger] lba_of(d.v, d.inode, m))
        == lba_of(c.v, c.inode, m) by {
        if m >= DIRECT_BLOCKS {
            lemma_pointer_put(base, l - DIRECT_BLOCKS, m - DIRECT_BLOCKS, lba);
        }
    }
    lemma_pointer_put(base, l - DIRECT_BLOCKS, l - DIRECT_BLOCKS, lba);
    assert(lba_of(d.v, d.inode, l) == lba);
    assert forall|m: int| is_logical(m) && m != l && (#[trigger] lba_of(c.v, c.inode, m)) != 0 implies lba
        != lba_of(c.v, c.inode, m) by {
        assert(in_use(c.v, lba_of(c.v, c.inode, m) as int));
    }
    assert forall|m: int| is_logical(m) && (#[trigger] lba_of(d.v, d.inode, m)) != 0 implies in_use(
        d.v,
        lba_of(d.v, d.inode, m) as int,
    ) && lba_of(d.v, d.inode, m) < size && lba_of(d.v, d.inode, m) != d.inode.indirect_block by {
        if m != l {
            assert(lba_of(d.v, d.inode, m) == lba_of(c.v, c.inode, m));
            assert(in_use(c.v, lba_of(c.v, c.inode, m) as int));
        }
    }
    assert forall|m: int, k: int|
        is_logical(m) && is_logical(k) && m != k && (#[trigger] lba_of(d.v, d.inode, m))
            != 0 implies lba_of(d.v, d.inode, m) != (#[trigger] lba_of(d.v, d.inode, k)) by {
        if m != l {
            assert(lba_of(d.v, d.inode, m) == lba_of(c.v, c.inode, m));
        }
        if k != l {
            assert(lba_of(d.v, d.inode, k) == lba_of(c.v, c.inode, k));
        }
    }
    if freed_apart(c) {
        assert forall|j: int, m: int| 0 <= j < d.freed_count && is_logical(m) implies (
        #[trigger] d.freed@[j]) != (#[trigger] lba_of(d.v, d.inode, m)) by {
            assert(in_use(c.v, c.freed@[j] as int));
            if m != l {
                assert(lba_of(d.v, d.inode, m) == lba_of(c.v, c.inode, m));
            }
        }
        assert forall|j: int| 0 <= j < d.freed_count implies in_use(
            d.v,
            (#[trigger] d.freed@[j]) as int,
        ) && d.freed@[j] != d.inode.indirect_block by {
            assert(in_use(c.v, c.freed@[j] as int));
        }
    }
}

/// A logical block that a span of a file touches.
pub open spec fn touched(pos: int, end: int, l: int) -> bool {
    pos < end && pos / 4096 <= l && l * 4096 < end
}

/// What mapping a span leaves: the blocks touched are listed, the others are as they were.
pub open spec fn span_ok(
    c: Change,
    d: Change,
    size: int,
    pos: int,
    end: int,
    list: Seq<u32>,
    full: Seq<u32>,
) -> bool {
    &&& volume_ok(d.v)
    &&& file_ok(d.v, size, d.inode)
    &&& full.len() == list.len() + spanned(pos, end - pos)
    &&& full.take(list.len() as int) == list
    &&& forall|l: int| #[trigger] touched(pos, end, l) ==> is_logical(l)
    &&& forall|l: int|
        #![trigger lba_of(d.v, d.inode, l)]
        touched(pos, end, l) ==> {
            &&& lba_of(d.v, d.inode, l) == full[list.len() + l - pos / 4096]
            &&& lba_of(d.v, d.inode, l) != 0
            &&& own_or_new(c.v, c.inode, l, lba_of(d.v, d.inode, l))
            &&& d.v[lba_of(d.v, d.inode, l) as int] == base_block(c.v, c.inode, l)
        }
    &&& forall|m: int|
        is_logical(m) && !touched(pos, end, m) ==> (#[trigger] lba_of(d.v, d.inode, m)) == lba_of(
            c.v,
            c.inode,
            m,
        )
    &&& used_kept(c, d.v)
    &&& use_kept(c.v, d.v)
    &&& freed_apart(c) ==> freed_apart(d)
    &&& d.inode.size_bytes == c.inode.size_bytes
}

/// The blocks that a span of a file in order gets are data blocks.
pub proof fn lemma_span_lies_in_data(v: Volume, size: int, i: DiskInode, pos: int, end: int)
    requires
        volume_ok(v),
        file_ok(v, size, i),
        0 <= pos <= end,
        0 < size,
        fresh_change(v, i).span_fits(pos, end, size),
        fresh_change(v, i).map_span(pos, end, size, Seq::empty()).1 is Ok,
    ensures
        ({
            let list = fresh_change(v, i).map_span(pos, end, size, Seq::empty()).1->Ok_0;
            forall|j: int| 0 <= j < list.len() ==> (#[trigger] list[j]) >= 22
        }),
{
    let c = fresh_change(v, i);
    lemma_span(c, size, pos, end, Seq::empty());
    let (d, r) = c.map_span(pos, end, size, Seq::empty());
    let list = r->Ok_0;
    assert forall|j: int| 0 <= j < list.len() implies (#[trigger] list[j]) >= 22 by {
        assert(touched(pos, end, j + pos / 4096));
        assert(lba_of(d.v, d.inode, j + pos / 4096) == list[j]);
    }
}

/// Mapping a span keeps a file in order.
#[verifier::spinoff_prover]
#[verifier::rlimit(60)]
proof fn lemma_span(c: Change, size: int, pos: int, end: int, list: Seq<u32>)
    requires
        volume_ok(c.v),
        file_ok(c.v, size, c.inode),
        0 <= pos <= end,
        0 < size,
        c.span_fits(pos, end, size),
        c.map_span(pos, end, size, list).1 is Ok,
    ensures
        span_ok(
            c,
            c.map_span(pos, end, size, list).0,
            size,
            pos,
            end,
            list,
            c.map_span(pos, end, size, list).1->Ok_0,
        ),
    decreases end - pos,
{
    let (d, r) = c.map_span(pos, end, size, list);
    if pos < end {
        let l0 = pos / 4096;
        let q = next_pos(pos, end);
        let (c1, r1) = c.map_block(l0, size);
        let lba = r1->Ok_0;
        let n = spanned(pos, end - pos);
        let list1 = list.push(lba);
        assert(n == 1 + spanned(q, end - q));
        if lba_of(c.v, c.inode, l0) != 0 {
            assert(c1 == c && lba == lba_of(c.v, c.inode, l0));
        } else if l0 < DIRECT_BLOCKS {
            lemma_step_direct(c, size, l0);
        } else if c.made_pointers() {
            lemma_step_own(c, size, l0);
        } else {
            lemma_step_indirect(c, size, l0);
        }
        assert(step_ok(c, c1, size, l0, lba));
        lemma_span(c1, size, q, end, list1);
        let full = r->Ok_0;
        assert(span_ok(c1, d, size, q, end, list1, full));
        assert(full.take(list.len() as int) =~= list) by {
            assert(full.take(list1.len() as int) == list1);
            assert forall|k: int| 0 <= k < list.len() implies full[k] == list[k] by {
                assert(full.take(list1.len() as int)[k] == list1[k]);
            }
        }
        assert(full[list.len() as int] == lba) by {
            assert(full.take(list1.len() as int)[list.len() as int] == lba);
        }
        assert(q < end ==> q / 4096 == l0 + 1);
        assert forall|l: int| is_logical(l) && l != l0 implies #[trigger] touched(pos, end, l)
            == touched(q, end, l) by {}
        assert(!touched(q, end, l0));
        assert(lba_of(d.v, d.inode, l0) == lba_of(c1.v, c1.inode, l0));
        assert forall|l: int| #[trigger] touched(pos, end, l) implies is_logical(l) by {
            if l != l0 {
                assert(touched(q, end, l));
            }
        }
        assert forall|l: int| touched(pos, end, l) implies {
            &&& #[trigger] lba_of(d.v, d.inode, l) == full[list.len() + l - pos / 4096]
            &&& lba_of(d.v, d.inode, l) != 0
            &&& own_or_new(c.v, c.inode, l, lba_of(d.v, d.inode, l))
            &&& d.v[lba_of(d.v, d.inode, l) as int] == base_block(c.v, c.inode, l)
        } by {
            if l == l0 {
                assert(in_use(c1.v, lba as int)) by {
                    assert(lba_of(c1.v, c1.inode, l0) == lba);
                }
                assert(lba_of(c1.v, c1.inode, l0) != c1.inode.indirect_block);
                assert(d.v[lba as int] == c1.v[lba as int]);
            } else {
                assert(touched(q, end, l));
                assert(lba_of(d.v, d.inode, l) == full[list1.len() + l - q / 4096]);
                if is_logical(l) {
                    assert(lba_of(c1.v, c1.inode, l) == lba_of(c.v, c.inode, l));
                    if lba_of(c.v, c.inode, l) != 0 {
                        assert(in_use(c.v, lba_of(c.v, c.inode, l) as int));
                        assert(lba_of(c.v, c.inode, l) != c.inode.indirect_block);
                        assert(c1.v[lba_of(c.v, c.inode, l) as int] == c.v[lba_of(
                            c.v,
                            c.inode,
                            l,
                        ) as int]);
                    }
                }
            }
        }
        assert forall|m: int| is_logical(m) && !touched(pos, end, m) implies (#[trigger] lba_of(
            d.v,
            d.inode,
            m,
        )) == lba_of(c.v, c.inode, m) by {
            assert(m != l0);
            assert(!touched(q, end, m));
            assert(lba_of(c1.v, c1.inode, m) == lba_of(c.v, c.inode, m));
        }
        assert forall|b: int|
            b != BLOCK_BITMAP_BLOCK && (b < 22 || in_use(c.v, b)) && !(c.made_pointers() && b
                == c.inode.indirect_block) implies (#[trigger] d.v[b]) == c.v[b] by {
            if b >= 22 {
                assert(in_use(c1.v, b));
            }
            assert(c1.v[b] == c.v[b]);
            assert(!(c1.made_pointers() && b == c1.inode.indirect_block));
        }
        assert forall|b: int| in_use(c.v, b) implies #[trigger] in_use(d.v, b) by {
            assert(in_use(c1.v, b));
        }
    } else {
        assert(list.take(list.len() as int) =~= list);
        assert forall|l: int| !touched(pos, end, l) by {}
    }
}

/// Where the part of a span that lies in a logical block begins.
pub open spec fn part_from(pos: int, l: int) -> int {
    if l * 4096 < pos {
        pos
    } else {
        l * 4096
    }
}

/// Where the part of a span that lies in a logical block ends.
pub open spec fn part_to(end: int, l: int) -> int {
    if l * 4096 + 4096 < end {
        l * 4096 + 4096
    } else {
        end
    }
}

/// What a block holds after the part of a span that lies in it was written.
pub open spec fn part_written(
    data: Seq<u8>,
    pos: int,
    end: int,
    start: int,
    chunk: Seq<u8>,
    l: int,
) -> Seq<u8> {
    overwrite(
        data,
        part_from(pos, l) % 4096,
        chunk.subrange(part_from(pos, l) - start, part_to(end, l) - start),
    )
}

/// The entries of a list from `from` on are all different.
pub open spec fn all_different(list: Seq<u32>, from: int) -> bool {
    forall|i: int, j: int|
        from <= i < list.len() && from <= j < list.len() && i != j ==> (#[trigger] list[i]) != (
        #[trigger] list[j])
}

/// A block is listed from `from` on.
pub open spec fn is_listed(list: Seq<u32>, from: int, b: int) -> bool {
    exists|j: int| from <= j < list.len() && (#[trigger] list[j]) == b
}

/// Every block listed gets its part of the span, and no other block changes.
#[verifier::spinoff_prover]
proof fn lemma_data_written(
    v: Volume,
    pos: int,
    end: int,
    start: int,
    chunk: Seq<u8>,
    lbas: Seq<u32>,
    k: int,
)
    requires
        volume_ok(v),
        0 <= start <= pos <= end,
        0 <= k,
        lbas.len() == k + spanned(pos, end - pos),
        all_different(lbas, k),
    ensures
        ({
            let w = data_written(v, pos, end, start, chunk, lbas, k);
            &&& volume_ok(w)
            &&& forall|b: int| !is_listed(lbas, k, b) ==> (#[trigger] w[b]) == v[b]
            &&& forall|l: int|
                #[trigger] touched(pos, end, l) ==> w[lbas[k + l - pos / 4096] as int]
                    == part_written(
                    v[lbas[k + l - pos / 4096] as int],
                    pos,
                    end,
                    start,
                    chunk,
                    l,
                )
        }),
    decreases end - pos,
{
    if pos < end {
        let q = next_pos(pos, end);
        let l0 = pos / 4096;
        let b0 = lbas[k] as int;
        let w1 = v.insert(
            b0,
            overwrite(v[b0], pos % 4096, chunk.subrange(pos - start, q - start)),
        );
        let w = data_written(v, pos, end, start, chunk, lbas, k);
        assert(spanned(pos, end - pos) == 1 + spanned(q, end - q));
        assert forall|b: int| (#[trigger] w1[b]).len() == BLOCK_SIZE by {
            assert(v[b].len() == BLOCK_SIZE);
        }
        lemma_data_written(w1, q, end, start, chunk, lbas, k + 1);
        assert(w == data_written(w1, q, end, start, chunk, lbas, k + 1));
        assert forall|b: int| !is_listed(lbas, k, b) implies (#[trigger] w[b]) == v[b] by {
            assert(lbas[k] != b);
            assert(!is_listed(lbas, k + 1, b));
            assert(w[b] == w1[b]);
        }
        assert(q < end ==> q / 4096 == l0 + 1);
        assert forall|l: int| #[trigger] touched(pos, end, l) implies w[lbas[k + l - pos
            / 4096] as int] == part_written(
            v[lbas[k + l - pos / 4096] as int],
            pos,
            end,
            start,
            chunk,
            l,
        ) by {
            if l == l0 {
                assert(!is_listed(lbas, k + 1, b0));
                assert(w[b0] == w1[b0]);
                assert(part_from(pos, l) == pos);
                assert(part_to(end, l) == q);
            } else {
                assert(touched(q, end, l));
                assert(lbas[k + 1 + l - q / 4096] == lbas[k + l - pos / 4096]);
                assert(lbas[k + l - pos / 4096] != lbas[k]);
                assert(part_from(q, l) == part_from(pos, l));
            }
        }
    } else {
        assert forall|l: int| !touched(pos, end, l) by {}
    }
}

/// What a logical block of a file in order holds.
pub open spec fn content(v: Volume, i: DiskInode, l: int) -> Seq<u8> {
    if lba_of(v, i, l) == 0 {
        zero_block()
    } else {
        v[lba_of(v, i, l) as int]
    }
}

/// All blocks of a file in order can be read.
pub proof fn lemma_block_of(v: Volume, size: int, i: DiskInode, l: int)
    requires
        file_ok(v, size, i),
        is_logical(l),
    ensures
        block_of(v, size, i, l) == Ok::<Seq<u8>, FsError>(content(v, i, l)),
{
    assert(lba_of(v, i, l) != 0 ==> lba_of(v, i, l) < size);
}

/// A file in order stays in order when its block of pointers stays as it is, its blocks stay in use,
/// and its inode changes in other respects.
proof fn lemma_file_ok_kept(v: Volume, w: Volume, size: int, i: DiskInode, j: DiskInode)
    requires
        file_ok(v, size, i),
        j.direct_blocks == i.direct_blocks,
        j.indirect_block == i.indirect_block,
        i.indirect_block != 0 ==> w[i.indirect_block as int] == v[i.indirect_block as int]
            && in_use(w, i.indirect_block as int),
        forall|l: int|
            is_logical(l) && (#[trigger] lba_of(v, i, l)) != 0 ==> in_use(
                w,
                lba_of(v, i, l) as int,
            ),
    ensures
        file_ok(w, size, j),
        forall|l: int| #[trigger] lba_of(w, j, l) == lba_of(v, i, l),
{
    assert forall|l: int| #[trigger] lba_of(w, j, l) == lba_of(v, i, l) by {}
    assert forall|l: int| is_logical(l) && (#[trigger] lba_of(w, j, l)) != 0 implies in_use(
        w,
        lba_of(w, j, l) as int,
    ) && lba_of(w, j, l) < size && lba_of(w, j, l) != j.indirect_block by {
        assert(in_use(w, lba_of(v, i, l) as int));
    }
    assert forall|l: int, m: int|
        is_logical(l) && is_logical(m) && l != m && (#[trigger] lba_of(w, j, l))
            != 0 implies lba_of(w, j, l) != (#[trigger] lba_of(w, j, m)) by {
        assert(lba_of(v, i, l) != lba_of(v, i, m));
    }
}

/// A block that a change did not give up stays in use when the others are given back.
proof fn lemma_release(v: Volume, c: Change, b: int)
    requires
        volume_ok(v),
        c.freed_count <= 10,
        in_use(v, b),
        forall|j: int| 0 <= j < c.freed_count ==> (#[trigger] c.freed@[j]) != b,
    ensures
        in_use(released(v, c.freed@, c.freed_count as u32), b),
{
    law_all_cleared(
        v[BLOCK_BITMAP_BLOCK as int],
        c.freed@,
        listed(c.freed_count as u32),
        b,
    );
}

/// What a written piece leaves of the blocks of its file.
pub open spec fn piece_ok(
    v: Volume,
    w: Volume,
    size: int,
    i: DiskInode,
    j: DiskInode,
    start: int,
    chunk: Seq<u8>,
) -> bool {
    let end = start + chunk.len();
    &&& volume_ok(w)
    &&& file_ok(w, size, j)
    &&& j.size_bytes == (if i.size_bytes < end {
        end
    } else {
        i.size_bytes as int
    })
    &&& forall|l: int| #[trigger] touched(start, end, l) ==> is_logical(l)
    &&& forall|l: int|
        #![trigger content(w, j, l)]
        is_logical(l) ==> content(w, j, l) == (if touched(start, end, l) {
            part_written(base_block(v, i, l), start, end, start, chunk, l)
        } else {
            content(v, i, l)
        })
}

/// The blocks of a file after a piece was written.
#[verifier::spinoff_prover]
#[verifier::rlimit(60)]
pub proof fn lemma_piece(v: Volume, size: int, n: u32, start: int, chunk: Seq<u8>)
    requires
        volume_ok(v),
        22 <= size,
        0 <= start,
        start % 4096 + chunk.len() <= 32768,
        start + chunk.len() <= u64::MAX,
        reading(v, n) is Ok,
        file_ok(v, size, reading(v, n)->Ok_0),
        piece_fits(v, size, n, start, chunk.len() as int),
        piece_written(v, size, n, start, chunk).1 is Ok,
    ensures
        ({
            let w = piece_written(v, size, n, start, chunk).0;
            &&& reading(w, n) is Ok
            &&& piece_ok(
                v,
                w,
                size,
                reading(v, n)->Ok_0,
                reading(w, n)->Ok_0,
                start,
                chunk,
            )
            &&& forall|m: int|
                0 <= m < 256 && m != n ==> (#[trigger] inode_at(w, m)) == inode_at(v, m)
            &&& used_elsewhere_kept(v, w, reading(v, n)->Ok_0)
            &&& inode_at(w, n as int) == piece_record(
                v,
                size,
                n,
                start,
                chunk,
                JournalState::Committed,
            ).new_inode_image
        }),
{
    let before = reading(v, n)->Ok_0;
    let end = start + chunk.len();
    let c0 = fresh_change(v, before);
    let (c, r) = c0.map_span(start, end, size, Seq::empty());
    let lbas = r->Ok_0;
    let k = spanned(start, end - start);
    assert(k <= 8);
    lemma_span(c0, size, start, end, Seq::empty());
    assert(span_ok(c0, c, size, start, end, Seq::empty(), lbas));
    let after = grown(c.inode, end).sealed();
    let v1 = with_record(
        c.v,
        write_record(n, before, after, c, JournalState::Intent).sealed(),
    );
    let v2 = data_written(v1, start, end, start, chunk, lbas, 0);
    let v3 = with_record(
        v2,
        write_record(n, before, after, c, JournalState::Committed).sealed(),
    );
    let v4 = with_inode(v3, n as int, after.sealed());
    let v5 = released(v4, c.freed@, c.freed_count as u32);
    let w = with_record(v5, cleared_record(2));
    assert(w == piece_written(v, size, n, start, chunk).0);
    assert(!c0.made_pointers());
    assert(freed_apart(c0));
    assert(freed_apart(c));
    assert forall|j: int| 0 <= j < lbas.len() implies {
        &&& touched(start, end, j + start / 4096)
        &&& (#[trigger] lbas[j]) == lba_of(c.v, c.inode, j + start / 4096)
        &&& in_use(c.v, lbas[j] as int)
        &&& lbas[j] != c.inode.indirect_block
    } by {
        assert(touched(start, end, j + start / 4096));
        assert(lba_of(c.v, c.inode, j + start / 4096) == lbas[j]);
    }
    assert(all_different(lbas, 0)) by {
        assert forall|a: int, b: int|
            0 <= a < lbas.len() && 0 <= b < lbas.len() && a != b implies (#[trigger] lbas[a]) != (
        #[trigger] lbas[b]) by {
            assert(lba_of(c.v, c.inode, a + start / 4096) != lba_of(
                c.v,
                c.inode,
                b + start / 4096,
            ));
        }
    }
    assert forall|b: int| (#[trigger] v1[b]).len() == BLOCK_SIZE by {
        assert(c.v[b].len() == BLOCK_SIZE);
    }
    lemma_data_written(v1, start, end, start, chunk, lbas, 0);
    assert forall|b: int| (#[trigger] v3[b]).len() == BLOCK_SIZE by {
        assert(v2[b].len() == BLOCK_SIZE);
    }
    law_sealed_inode_is_valid(grown(c.inode, end));
    law_inode_is_read_back(v3, n as int, after, n as int);
    assert(w[inode_block(n as int)] == v4[inode_block(n as int)]);
    assert(inode_bytes(w, n as int) == inode_bytes(v4, n as int));
    assert(inode_at(w, n as int) == after);
    assert(reading(w, n) == Ok::<DiskInode, FsError>(after));
    // Blocks that are not listed and hold no record and no inode of this file stay.
    assert forall|b: int| b >= 22 && !is_listed(lbas, 0, b) implies (#[trigger] w[b]) == c.v[b] by {
        assert(v2[b] == v1[b]);
    }
    assert(!is_listed(lbas, 0, BLOCK_BITMAP_BLOCK as int));
    assert(v2[BLOCK_BITMAP_BLOCK as int] == v1[BLOCK_BITMAP_BLOCK as int]);
    assert(v4[BLOCK_BITMAP_BLOCK as int] == c.v[BLOCK_BITMAP_BLOCK as int]);
    if c.inode.indirect_block != 0 {
        assert(!is_listed(lbas, 0, c.inode.indirect_block as int));
        assert(in_use(v4, c.inode.indirect_block as int));
        lemma_release(v4, c, c.inode.indirect_block as int);
        assert(w[BLOCK_BITMAP_BLOCK as int] == v5[BLOCK_BITMAP_BLOCK as int]);
        assert(in_use(w, c.inode.indirect_block as int));
    }
    assert forall|l: int| is_logical(l) && (#[trigger] lba_of(c.v, c.inode, l)) != 0 implies in_use(
        w,
        lba_of(c.v, c.inode, l) as int,
    ) by {
        let b = lba_of(c.v, c.inode, l) as int;
        assert(in_use(v4, b));
        assert forall|j: int| 0 <= j < c.freed_count implies (#[trigger] c.freed@[j]) != b by {}
        lemma_release(v4, c, b);
        assert(w[BLOCK_BITMAP_BLOCK as int] == v5[BLOCK_BITMAP_BLOCK as int]);
    }
    lemma_file_ok_kept(c.v, w, size, c.inode, after);
    assert forall|b: int| (#[trigger] w[b]).len() == BLOCK_SIZE by {
        assert(v4[b].len() == BLOCK_SIZE);
        law_all_cleared(
            v4[BLOCK_BITMAP_BLOCK as int],
            c.freed@,
            listed(c.freed_count as u32),
            22,
        );
    }
    assert forall|l: int| is_logical(l) implies #[trigger] content(w, after, l) == (if touched(
        start,
        end,
        l,
    ) {
        part_written(base_block(v, before, l), start, end, start, chunk, l)
    } else {
        content(v, before, l)
    }) by {
        assert(lba_of(w, after, l) == lba_of(c.v, c.inode, l));
        let b = lba_of(c.v, c.inode, l);
        if touched(start, end, l) {
            assert(lbas[l - start / 4096] == b);
            assert(v2[b as int] == part_written(v1[b as int], start, end, start, chunk, l));
            assert(v1[b as int] == c.v[b as int]);
            assert(w[b as int] == v2[b as int]);
        } else {
            assert(b == lba_of(v, before, l));
            if b != 0 {
                assert(in_use(v, b as int));
                assert(!is_listed(lbas, 0, b as int)) by {
                    assert forall|j: int| 0 <= j < lbas.len() implies (#[trigger] lbas[j]) != b by {
                        assert(lba_of(c.v, c.inode, j + start / 4096) != lba_of(c.v, c.inode, l));
                    }
                }
                assert(w[b as int] == c.v[b as int]);
                assert(c.v[b as int] == v[b as int]);
            }
        }
    }
    assert forall|m: int| 0 <= m < 256 && m != n implies (#[trigger] inode_at(w, m)) == inode_at(
        v,
        m,
    ) by {
        law_inode_is_read_back(v3, n as int, after, m);
        assert(!is_listed(lbas, 0, inode_block(m)));
        assert(inode_bytes(w, m) == inode_bytes(v4, m));
        assert(inode_bytes(v3, m) == inode_bytes(v, m)) by {
            assert(v2[inode_block(m)] == v1[inode_block(m)]);
            assert(c.v[inode_block(m)] == v[inode_block(m)]);
        }
    }
    assert forall|b: int|
        in_use(v, b) && (forall|l: int|
            is_logical(l) ==> (#[trigger] lba_of(v, before, l)) != b) implies (#[trigger] w[b])
        == v[b] by {
        assert(!is_listed(lbas, 0, b)) by {
            assert forall|j: int| 0 <= j < lbas.len() implies (#[trigger] lbas[j]) != b by {
                let l = j + start / 4096;
                assert(lbas[j] == lba_of(c.v, c.inode, l));
                assert(own_or_new(v, before, l, lbas[j]));
                assert(lba_of(v, before, l) != b);
            }
        }
        assert(w[b] == c.v[b]);
    }
}

/// What holds of a file after bytes were written to it: they are read back, the file is as long as
/// it has to be, and bytes outside of what was written are as they were.
pub open spec fn write_ok(v: Volume, w: Volume, size: int, n: u32, pos: int, data: Seq<u8>) -> bool {
    let i = reading(v, n)->Ok_0;
    let j = reading(w, n)->Ok_0;
    let end = pos + data.len();
    &&& volume_ok(w)
    &&& reading(w, n) is Ok
    &&& file_ok(w, size, j)
    &&& j.size_bytes == (if i.size_bytes < end {
        end
    } else {
        i.size_bytes as int
    })
    &&& is_readable(w, size, j, pos, data.len() as int)
    &&& forall|p: int|
        pos <= p < end ==> (#[trigger] file_byte(w, size, j, p)) == data[p - pos]
    &&& forall|p: int|
        0 <= p && !(pos <= p < end) && is_logical(p / 4096) ==> (#[trigger] file_byte(w, size, j, p))
            == file_byte(v, size, i, p)
    &&& forall|m: int| 0 <= m < 256 && m != n ==> (#[trigger] inode_at(w, m)) == inode_at(v, m)
}

#[verifier::spinoff_prover]
pub proof fn lemma_piece_bytes(v: Volume, size: int, n: u32, start: int, chunk: Seq<u8>)
    requires
        volume_ok(v),
        22 <= size,
        0 <= start,
        start % 4096 + chunk.len() <= 32768,
        start + chunk.len() <= u64::MAX,
        reading(v, n) is Ok,
        file_ok(v, size, reading(v, n)->Ok_0),
        piece_fits(v, size, n, start, chunk.len() as int),
        piece_written(v, size, n, start, chunk).1 is Ok,
    ensures
        write_ok(v, piece_written(v, size, n, start, chunk).0, size, n, start, chunk),
{
    lemma_piece(v, size, n, start, chunk);
    let w = piece_written(v, size, n, start, chunk).0;
    let i = reading(v, n)->Ok_0;
    let j = reading(w, n)->Ok_0;
    let end = start + chunk.len();
    assert forall|l: int|
        0 < chunk.len() && start / 4096 <= l && l * 4096 < start + chunk.len() implies (
    #[trigger] block_of(w, size, j, l)) is Ok by {
        assert(touched(start, end, l));
        lemma_block_of(w, size, j, l);
    }
    assert forall|p: int| start <= p < end implies (#[trigger] file_byte(w, size, j, p))
        == chunk[p - start] by {
        let l = p / 4096;
        assert(touched(start, end, l));
        lemma_block_of(w, size, j, l);
        lemma_base_size(v, i, l);
        assert(content(w, j, l) == part_written(base_block(v, i, l), start, end, start, chunk, l));
        let f = part_from(start, l);
        let t = part_to(end, l);
        assert(f <= p < t);
        assert(f % 4096 <= p % 4096 < f % 4096 + (t - f));
        assert(chunk.subrange(f - start, t - start)[p % 4096 - f % 4096] == chunk[p - start]);
    }
    assert forall|p: int|
        0 <= p && !(start <= p < end) && is_logical(p / 4096) implies (#[trigger] file_byte(w, size, j, p))
        == file_byte(v, size, i, p) by {
        let l = p / 4096;
        lemma_block_of(w, size, j, l);
        lemma_block_of(v, size, i, l);
        lemma_base_size(v, i, l);
        assert(content(w, j, l) == (if touched(start, end, l) {
            part_written(base_block(v, i, l), start, end, start, chunk, l)
        } else {
            content(v, i, l)
        }));
        if touched(start, end, l) {
            assert(base_block(v, i, l) == content(v, i, l));
            let f = part_from(start, l);
            let t = part_to(end, l);
            assert(!(f <= p < t));
            assert(!(f % 4096 <= p % 4096 < f % 4096 + (t - f)));
        }
    }
}

proof fn lemma_base_size(v: Volume, i: DiskInode, l: int)
    requires
        volume_ok(v),
    ensures
        base_block(v, i, l).len() == BLOCK_SIZE,
{
}

/// Bytes that were written to a file are read back, however many pieces they were written in, and
/// nothing else of the file or of another inode changes.
#[verifier::spinoff_prover]
#[verifier::rlimit(60)]
pub proof fn law_written_bytes_are_read_back(
    v: Volume,
    size: int,
    n: u32,
    pos: int,
    data: Seq<u8>,
)
    requires
        volume_ok(v),
        22 <= size,
        0 <= pos,
        data.len() > 0,
        pos + data.len() <= u64::MAX,
        reading(v, n) is Ok,
        file_ok(v, size, reading(v, n)->Ok_0),
        pieces_fit(v, size, n, pos, data),
        pieces_written(v, size, n, pos, data).2 is None,
    ensures
        pieces_written(v, size, n, pos, data).1 == data.len(),
        write_ok(v, pieces_written(v, size, n, pos, data).0, size, n, pos, data),
    decreases data.len(),
{
    let m = first_piece(pos, data.len() as int);
    let chunk = data.take(m);
    let rest = data.skip(m);
    let (w1, r) = piece_written(v, size, n, pos, chunk);
    lemma_piece_bytes(v, size, n, pos, chunk);
    let w = pieces_written(v, size, n, pos, data).0;
    let i = reading(v, n)->Ok_0;
    let i1 = reading(w1, n)->Ok_0;
    let j = reading(w, n)->Ok_0;
    let end = pos + data.len();
    if rest.len() == 0 {
        assert(pieces_written(w1, size, n, pos + m, rest) == (w1, 0int, None::<FsError>));
        assert(w == w1);
        assert(chunk =~= data);
    } else {
        assert((pos + m) % 4096 == 0);
        law_written_bytes_are_read_back(w1, size, n, pos + m, rest);
        assert((pos + m) / 4096 == pos / 4096 + 8);
        assert forall|p: int| pos <= p < end implies (#[trigger] file_byte(w, size, j, p))
            == data[p - pos] by {
            if p < pos + m {
                assert(!touched(pos + m, end, p / 4096));
                assert(touched(pos, pos + m, p / 4096));
                lemma_touched_is_logical(v, size, n, pos, chunk, p / 4096);
                assert(file_byte(w, size, j, p) == file_byte(w1, size, i1, p));
                assert(chunk[p - pos] == data[p - pos]);
            } else {
                assert(rest[p - (pos + m)] == data[p - pos]);
            }
        }
        assert forall|p: int|
            0 <= p && !(pos <= p < end) && is_logical(p / 4096) implies (#[trigger] file_byte(
            w,
            size,
            j,
            p,
        )) == file_byte(v, size, i, p) by {
            assert(file_byte(w, size, j, p) == file_byte(w1, size, i1, p));
        }
        assert forall|l: int|
            0 < data.len() && pos / 4096 <= l && l * 4096 < pos + data.len() implies (
        #[trigger] block_of(w, size, j, l)) is Ok by {
            if l * 4096 < pos + m {
                assert(touched(pos, pos + m, l));
                lemma_touched_is_logical(v, size, n, pos, chunk, l);
                lemma_block_of(w, size, j, l);
            }
        }
    }
}

/// The blocks that a written piece touches are such as an inode can have.
pub proof fn lemma_touched_is_logical(
    v: Volume,
    size: int,
    n: u32,
    start: int,
    chunk: Seq<u8>,
    l: int,
)
    requires
        volume_ok(v),
        22 <= size,
        0 <= start,
        start % 4096 + chunk.len() <= 32768,
        start + chunk.len() <= u64::MAX,
        reading(v, n) is Ok,
        file_ok(v, size, reading(v, n)->Ok_0),
        piece_fits(v, size, n, start, chunk.len() as int),
        piece_written(v, size, n, start, chunk).1 is Ok,
        touched(start, start + chunk.len(), l),
    ensures
        is_logical(l),
{
    lemma_piece(v, size, n, start, chunk);
}

/// There are `n` free blocks that are handed out next and lie on the device.
pub open spec fn has_free(bm: Seq<u8>, size: int, n: nat) -> bool
    decreases n,
{
    n == 0 || (next_block(bm) < MAX_VOLUME_BLOCKS && next_block(bm) < size && has_free(
        with_bit(bm, next_block(bm)),
        size,
        (n - 1) as nat,
    ))
}

/// How many new blocks a logical block of a file needs before it can be written: none if the file
/// has it, one if it is direct, and for an indirect one two, or one once the block of pointers was
/// copied.
pub open spec fn new_blocks(v: Volume, i: DiskInode, l: int, copied: bool) -> nat {
    if lba_of(v, i, l) != 0 {
        0
    } else if l < DIRECT_BLOCKS || copied {
        1
    } else {
        2
    }
}

/// The block of pointers was copied once a new indirect block was needed.
pub open spec fn copied_by(v: Volume, i: DiskInode, l: int, copied: bool) -> bool {
    copied || (lba_of(v, i, l) == 0 && l >= DIRECT_BLOCKS)
}

/// How many new blocks a span of a file needs before it can be written.
pub open spec fn new_blocks_for(v: Volume, i: DiskInode, pos: int, end: int, copied: bool) -> nat
    decreases end - pos,
{
    if pos >= end {
        0
    } else {
        new_blocks(v, i, pos / 4096, copied) + new_blocks_for(
            v,
            i,
            next_pos(pos, end),
            end,
            copied_by(v, i, pos / 4096, copied),
        )
    }
}

/// A span needs no more than a block for each that it touches, and one for the pointers.
proof fn lemma_need_is_small(v: Volume, i: DiskInode, pos: int, end: int, copied: bool)
    requires
        0 <= pos <= end,
    ensures
        new_blocks_for(v, i, pos, end, copied) <= spanned(pos, end - pos) + (if copied {
            0int
        } else {
            1int
        }),
    decreases end - pos,
{
    if pos < end {
        let q = next_pos(pos, end);
        assert(spanned(pos, end - pos) == 1 + spanned(q, end - q));
        lemma_need_is_small(v, i, q, end, copied_by(v, i, pos / 4096, copied));
    }
}

/// What a span needs depends on the blocks that it touches alone.
proof fn lemma_same_need(
    v: Volume,
    i: DiskInode,
    w: Volume,
    j: DiskInode,
    pos: int,
    end: int,
    copied: bool,
)
    requires
        0 <= pos,
        forall|l: int| #[trigger] touched(pos, end, l) ==> lba_of(w, j, l) == lba_of(v, i, l),
    ensures
        new_blocks_for(w, j, pos, end, copied) == new_blocks_for(v, i, pos, end, copied),
    decreases end - pos,
{
    if pos < end {
        let q = next_pos(pos, end);
        assert(touched(pos, end, pos / 4096));
        assert forall|l: int| #[trigger] touched(q, end, l) implies lba_of(w, j, l) == lba_of(
            v,
            i,
            l,
        ) by {
            assert(touched(pos, end, l));
        }
        lemma_same_need(v, i, w, j, q, end, copied_by(v, i, pos / 4096, copied));
    }
}

/// Free blocks are room, and more are also fewer.
proof fn lemma_free_is_room(bm: Seq<u8>, size: int, n: nat, m: nat)
    requires
        has_free(bm, size, n),
        m <= n,
    ensures
        roomy(bm, size, m),
    decreases m,
{
    if m > 0 {
        lemma_free_is_room(with_bit(bm, next_block(bm)), size, (n - 1) as nat, (m - 1) as nat);
    }
}

/// A span that finds as many free blocks as it needs can be mapped.
#[verifier::spinoff_prover]
#[verifier::rlimit(60)]
proof fn lemma_enough_room(c: Change, size: int, pos: int, end: int, list: Seq<u32>)
    requires
        volume_ok(c.v),
        file_ok(c.v, size, c.inode),
        0 <= pos <= end,
        0 < size,
        forall|l: int| #[trigger] touched(pos, end, l) ==> is_logical(l),
        c.inode.blocks_count <= u64::MAX - 2 * spanned(pos, end - pos),
        has_free(
            c.v[BLOCK_BITMAP_BLOCK as int],
            size,
            new_blocks_for(c.v, c.inode, pos, end, c.made_pointers()),
        ),
        c.allocated_count + new_blocks_for(c.v, c.inode, pos, end, c.made_pointers()) <= 10,
    ensures
        c.span_fits(pos, end, size),
        c.map_span(pos, end, size, list).1 is Ok,
    decreases end - pos,
{
    if pos < end {
        let l = pos / 4096;
        let q = next_pos(pos, end);
        let need = new_blocks_for(c.v, c.inode, pos, end, c.made_pointers());
        let bm = c.v[BLOCK_BITMAP_BLOCK as int];
        assert(touched(pos, end, l));
        assert(spanned(pos, end - pos) == 1 + spanned(q, end - q));
        let (c1, r) = c.map_block(l, size);
        reveal_with_fuel(has_free, 3);
        if lba_of(c.v, c.inode, l) != 0 {
            assert(c1 == c && r == Ok::<u32, FsError>(lba_of(c.v, c.inode, l)));
        } else if l < DIRECT_BLOCKS {
            lemma_free_is_room(bm, size, need, 1);
            law_taken_block_was_free(c.v);
            lemma_step_direct(c, size, l);
            assert(c1.v[BLOCK_BITMAP_BLOCK as int] == with_bit(bm, next_block(bm)));
            assert(c1.made_pointers() == c.made_pointers());
        } else if c.made_pointers() {
            lemma_free_is_room(bm, size, need, 1);
            law_taken_block_was_free(c.v);
            lemma_step_own(c, size, l);
            assert(c.inode.indirect_block != BLOCK_BITMAP_BLOCK);
            assert(c1.v[BLOCK_BITMAP_BLOCK as int] == with_bit(bm, next_block(bm)));
        } else {
            lemma_free_is_room(bm, size, need, 2);
            law_taken_block_was_free(c.v);
            let d = c.taking_block();
            let bd = d.v[BLOCK_BITMAP_BLOCK as int];
            assert(bd == with_bit(bm, next_block(bm)));
            law_taken_block_was_free(d.v);
            lemma_step_indirect(c, size, l);
            assert(c1.v[BLOCK_BITMAP_BLOCK as int] == with_bit(bd, next_block(bd)));
        }
        assert(r is Ok && r->Ok_0 < size);
        assert forall|m: int| #[trigger] touched(q, end, m) implies is_logical(m) && lba_of(
            c1.v,
            c1.inode,
            m,
        ) == lba_of(c.v, c.inode, m) by {
            assert(touched(pos, end, m));
            assert(m != l);
        }
        assert(c1.made_pointers() == copied_by(c.v, c.inode, l, c.made_pointers()));
        lemma_same_need(c.v, c.inode, c1.v, c1.inode, q, end, c1.made_pointers());
        lemma_enough_room(c1, size, q, end, list.push(r->Ok_0));
    }
}

/// A piece is written where the device has as many free blocks as the piece needs: none at all to
/// rewrite what the file has, however full the volume is.
pub proof fn law_piece_is_written_where_there_is_room(
    v: Volume,
    size: int,
    n: u32,
    start: int,
    chunk: Seq<u8>,
)
    requires
        volume_ok(v),
        22 <= size,
        0 <= start,
        start % 4096 + chunk.len() <= 32768,
        start + chunk.len() <= FILE_BLOCKS * 4096,
        reading(v, n) is Ok,
        file_ok(v, size, reading(v, n)->Ok_0),
        reading(v, n)->Ok_0.blocks_count <= u64::MAX - 16,
        has_free(
            v[BLOCK_BITMAP_BLOCK as int],
            size,
            new_blocks_for(v, reading(v, n)->Ok_0, start, start + chunk.len(), false),
        ),
    ensures
        piece_fits(v, size, n, start, chunk.len() as int),
        piece_written(v, size, n, start, chunk).1 == Ok::<usize, FsError>(chunk.len() as usize),
{
    let end = start + chunk.len();
    let c = fresh_change(v, reading(v, n)->Ok_0);
    assert forall|l: int| #[trigger] touched(start, end, l) implies is_logical(l) by {}
    assert(spanned(start, end - start) <= 8);
    assert(!c.made_pointers());
    lemma_need_is_small(v, c.inode, start, end, false);
    lemma_enough_room(c, size, start, end, Seq::empty());
}

/// A piece that needs a new block when no block is free is refused, and says so.
pub proof fn law_full_volume_refuses_new_blocks(
    v: Volume,
    size: int,
    n: u32,
    start: int,
    chunk: Seq<u8>,
)
    requires
        volume_ok(v),
        0 <= start,
        chunk.len() > 0,
        is_logical(start / 4096),
        reading(v, n) is Ok,
        file_ok(v, size, reading(v, n)->Ok_0),
        lba_of(v, reading(v, n)->Ok_0, start / 4096) == 0,
        next_block(v[BLOCK_BITMAP_BLOCK as int]) >= MAX_VOLUME_BLOCKS,
    ensures
        piece_written(v, size, n, start, chunk) == (v, Err::<usize, FsError>(FsError::NoSpace)),
{
    let c = fresh_change(v, reading(v, n)->Ok_0);
    assert(c.map_block(start / 4096, size) == (c, Err::<u32, FsError>(FsError::NoSpace)));
}

/// Writing a piece to a file changes no data block in use but those that hold data of the file, so
/// other files keep what they hold.
pub proof fn law_write_touches_own_blocks_only(
    v: Volume,
    size: int,
    n: u32,
    start: int,
    chunk: Seq<u8>,
)
    requires
        volume_ok(v),
        22 <= size,
        0 <= start,
        start % 4096 + chunk.len() <= 32768,
        start + chunk.len() <= u64::MAX,
        reading(v, n) is Ok,
        file_ok(v, size, reading(v, n)->Ok_0),
        piece_fits(v, size, n, start, chunk.len() as int),
        piece_written(v, size, n, start, chunk).1 is Ok,
    ensures
        used_elsewhere_kept(
            v,
            piece_written(v, size, n, start, chunk).0,
            reading(v, n)->Ok_0,
        ),
{
    lemma_piece(v, size, n, start, chunk);
}

} // verus!
