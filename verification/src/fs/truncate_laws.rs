//! What cutting a file leaves of it.
use crate::fs::file::{block_of, file_byte};
use crate::fs::inode::{
    blocks_needed, fresh_change, kept_pointers, pointer, with_direct, Change, DIRECT_BLOCKS,
    FILE_BLOCKS,
};
use crate::fs::types::{DiskInode, FsError, BLOCK_BITMAP_BLOCK, BLOCK_SIZE};
use crate::fs::volume::{
    law_block_given_back_is_free, law_taken_block_was_free, taking, volume_ok, Volume,
};
use crate::fs::write_laws::{content, file_ok, in_use, is_logical, lba_of, lemma_block_of};
use vstd::prelude::*;

verus! {

/// Blocks were given back and nothing else happened to the volume.
pub open spec fn only_freed(v: Volume, w: Volume) -> bool {
    &&& volume_ok(w)
    &&& forall|b: int| b != BLOCK_BITMAP_BLOCK ==> (#[trigger] w[b]) == v[b]
    &&& forall|b: int| #[trigger] in_use(w, b) ==> in_use(v, b)
}

/// A block is one of the direct blocks from `from` on.
pub open spec fn is_direct(i: DiskInode, from: int, b: int) -> bool {
    exists|l: int| from <= l < 18 && (#[trigger] i.direct_blocks@[l]) == b
}

/// A block is one of those that a block of pointers names from `from` on.
pub open spec fn is_pointed(data: Seq<u8>, from: int, b: int) -> bool {
    exists|s: int| from <= s < 1024 && (#[trigger] pointer(data, s)) == b
}

/// Giving direct blocks back.
pub proof fn lemma_drop_direct(c: Change, from: int)
    requires
        volume_ok(c.v),
        0 <= from,
        c.drop_direct(from).1 is Ok,
    ensures
        ({
            let d = c.drop_direct(from).0;
            &&& only_freed(c.v, d.v)
            &&& d.inode.indirect_block == c.inode.indirect_block
            &&& forall|l: int|
                0 <= l < DIRECT_BLOCKS ==> (#[trigger] d.inode.direct_blocks@[l]) == (if l < from {
                    c.inode.direct_blocks@[l]
                } else {
                    0
                })
            &&& forall|l: int|
                from <= l < DIRECT_BLOCKS && (#[trigger] c.inode.direct_blocks@[l]) != 0 ==> !in_use(
                    d.v,
                    c.inode.direct_blocks@[l] as int,
                )
            &&& forall|b: int|
                #![trigger in_use(d.v, b)]
                in_use(c.v, b) && !is_direct(c.inode, from, b) ==> in_use(d.v, b)
        }),
    decreases 18 - from,
{
    if from < DIRECT_BLOCKS {
        let p = c.inode.direct_blocks@[from];
        let d = c.drop_direct(from).0;
        if p == 0 {
            lemma_drop_direct(c, from + 1);
            assert(d.inode.direct_blocks@[from] == 0);
            assert forall|b: int|
                #![trigger in_use(d.v, b)]
                in_use(c.v, b) && !is_direct(c.inode, from, b) implies in_use(d.v, b) by {
                assert(is_direct(c.inode, from + 1, b) ==> is_direct(c.inode, from, b));
            }
        } else {
            let c1 = c.dropping(p);
            let c2 = Change { inode: with_direct(c1.inode, from, 0), ..c1 };
            law_block_given_back_is_free(c.v, p as int);
            assert(c2.inode.direct_blocks@ == c.inode.direct_blocks@.update(from, 0));
            lemma_drop_direct(c2, from + 1);
            assert(d.inode.direct_blocks@[from] == c2.inode.direct_blocks@[from]);
            assert(!in_use(c2.v, p as int));
            assert forall|l: int|
                from <= l < DIRECT_BLOCKS && (#[trigger] c.inode.direct_blocks@[l])
                    != 0 implies !in_use(d.v, c.inode.direct_blocks@[l] as int) by {
                if l > from {
                    assert(c2.inode.direct_blocks@[l] == c.inode.direct_blocks@[l]);
                }
            }
            assert forall|b: int|
                #![trigger in_use(d.v, b)]
                in_use(c.v, b) && !is_direct(c.inode, from, b) implies in_use(d.v, b) by {
                if is_direct(c2.inode, from + 1, b) {
                    let l = choose|l: int|
                        from + 1 <= l < 18 && (#[trigger] c2.inode.direct_blocks@[l]) == b;
                    assert(c.inode.direct_blocks@[l] == b);
                }
                assert(c.inode.direct_blocks@[from] == p);
                assert(in_use(c2.v, b));
            }
            assert forall|b: int| #[trigger] in_use(d.v, b) implies in_use(c.v, b) by {
                assert(in_use(c2.v, b));
            }
        }
    }
}

/// Giving indirect blocks back.
pub proof fn lemma_drop_pointers(c: Change, data: Seq<u8>, from: int)
    requires
        volume_ok(c.v),
        0 <= from,
        c.drop_pointers(data, from).1 is Ok,
    ensures
        ({
            let d = c.drop_pointers(data, from).0;
            &&& only_freed(c.v, d.v)
            &&& d.inode.indirect_block == c.inode.indirect_block
            &&& d.inode.direct_blocks == c.inode.direct_blocks
            &&& forall|s: int|
                from <= s < 1024 && (#[trigger] pointer(data, s)) != 0 ==> !in_use(
                    d.v,
                    pointer(data, s) as int,
                )
            &&& forall|b: int|
                #![trigger in_use(d.v, b)]
                in_use(c.v, b) && !is_pointed(data, from, b) ==> in_use(d.v, b)
        }),
    decreases 1024 - from,
{
    if from < 1024 {
        let p = pointer(data, from);
        let d = c.drop_pointers(data, from).0;
        if p == 0 {
            lemma_drop_pointers(c, data, from + 1);
            assert forall|b: int|
                #![trigger in_use(d.v, b)]
                in_use(c.v, b) && !is_pointed(data, from, b) implies in_use(d.v, b) by {
                assert(is_pointed(data, from + 1, b) ==> is_pointed(data, from, b));
            }
        } else {
            let c1 = c.dropping(p);
            law_block_given_back_is_free(c.v, p as int);
            lemma_drop_pointers(c1, data, from + 1);
            assert(!in_use(c1.v, p as int));
            assert forall|b: int| #[trigger] in_use(d.v, b) implies in_use(c.v, b) by {
                assert(in_use(c1.v, b));
            }
            assert forall|b: int|
                #![trigger in_use(d.v, b)]
                in_use(c.v, b) && !is_pointed(data, from, b) implies in_use(d.v, b) by {
                assert(is_pointed(data, from + 1, b) ==> is_pointed(data, from, b));
                assert(pointer(data, from) == p);
                assert(in_use(c1.v, b));
            }
        }
    }
}

/// The pointers that are kept are the same, the others are gone.
pub proof fn lemma_kept_pointers(data: Seq<u8>, n: int, s: int)
    requires
        data.len() == BLOCK_SIZE,
        0 <= n <= 1024,
        0 <= s < 1024,
    ensures
        pointer(kept_pointers(data, n), s) == (if s < n {
            pointer(data, s)
        } else {
            0
        }),
{
    let k = kept_pointers(data, n);
    if s < n {
        assert(k[4 * s] == data[4 * s]);
        assert(k[4 * s + 1] == data[4 * s + 1]);
        assert(k[4 * s + 2] == data[4 * s + 2]);
        assert(k[4 * s + 3] == data[4 * s + 3]);
    } else {
        assert(k[4 * s] == 0);
        assert(k[4 * s + 1] == 0);
        assert(k[4 * s + 2] == 0);
        assert(k[4 * s + 3] == 0);
    }
}

/// A file that was cut has the size asked for. A block of it that holds a byte below that size
/// stays where it is, in use, with what it holds; any other is given back.
#[verifier::spinoff_prover]
#[verifier::rlimit(60)]
pub proof fn law_cut_file_keeps_its_start(v: Volume, size: int, i: DiskInode, new_size: u64, l: int)
    requires
        volume_ok(v),
        file_ok(v, size, i),
        is_logical(l),
        fresh_change(v, i).truncated(new_size, size).1 is Ok,
    ensures
        ({
            let d = fresh_change(v, i).truncated(new_size, size).0;
            &&& d.inode.size_bytes == new_size
            &&& d.inode.indirect_block == 0 || d.inode.indirect_block == i.indirect_block
                || taking(v) == Ok::<u32, FsError>(d.inode.indirect_block)
            &&& if l * 4096 < new_size {
                &&& content(d.v, d.inode, l) == content(v, i, l)
                &&& lba_of(d.v, d.inode, l) == lba_of(v, i, l)
                &&& lba_of(v, i, l) != 0 ==> in_use(d.v, lba_of(v, i, l) as int)
            } else {
                &&& lba_of(d.v, d.inode, l) == 0
                &&& lba_of(v, i, l) != 0 ==> !in_use(d.v, lba_of(v, i, l) as int)
            }
        }),
{
    let c0 = fresh_change(v, i);
    let needed = blocks_needed(new_size as int);
    let d = c0.truncated(new_size, size).0;
    let c = c0.drop_direct(needed).0;
    lemma_drop_direct(c0, needed);
    let was = i.indirect_block;
    let x = lba_of(v, i, l);
    if l < DIRECT_BLOCKS {
        assert(c.inode.direct_blocks@[l] == (if l < needed {
            i.direct_blocks@[l]
        } else {
            0
        }));
        assert(i.direct_blocks@[l] == x);
    }
    assert((l < needed) == (l * 4096 < new_size));
    if x != 0 {
        assert(in_use(v, x as int));
    }
    if l < needed && x != 0 {
        if is_direct(i, needed, x as int) {
            let m = choose|m: int| needed <= m < 18 && (#[trigger] i.direct_blocks@[m]) == x;
            assert(lba_of(v, i, m) == x);
        }
        assert(in_use(c.v, x as int));
    }
    if was == 0 || needed >= FILE_BLOCKS {
        if was != 0 {
            assert(c.v[was as int] == v[was as int]);
        }
    } else if needed <= DIRECT_BLOCKS {
        assert(c.v[was as int] == v[was as int]);
        let (c2, r2) = c.drop_pointers(c.v[was as int], 0);
        lemma_drop_pointers(c, c.v[was as int], 0);
        law_block_given_back_is_free(c2.v, was as int);
        assert(d.inode.direct_blocks == c.inode.direct_blocks);
        assert(d.inode.indirect_block == 0);
        if l >= DIRECT_BLOCKS && x != 0 {
            assert(pointer(c.v[was as int], l - DIRECT_BLOCKS) == x);
            assert(!in_use(c2.v, x as int));
        }
        if x != 0 {
            assert(in_use(d.v, x as int) ==> in_use(c2.v, x as int));
            assert(in_use(c2.v, x as int) ==> in_use(c.v, x as int));
        }
        if l < needed && x != 0 {
            if is_pointed(v[was as int], 0, x as int) {
                let s = choose|s: int| 0 <= s < 1024 && (#[trigger] pointer(v[was as int], s)) == x;
                assert(lba_of(v, i, s + DIRECT_BLOCKS) == x);
            }
            assert(in_use(c2.v, x as int));
            assert(x != was);
        }
    } else {
        let keep = needed - DIRECT_BLOCKS;
        assert(in_use(v, was as int));
        assert(c.v[was as int] == v[was as int]);
        assert(c.inode.direct_blocks =~= i.direct_blocks) by {
            assert(c.inode.direct_blocks@ =~= i.direct_blocks@);
        }
        lemma_nothing_dropped(c0, needed);
        law_taken_block_was_free(c.v);
        let copy = taking(c.v)->Ok_0;
        let c1 = c.taking_block().noting_freed(was);
        assert(copy != was);
        assert(c1.v[was as int] == v[was as int]);
        let data = c1.v[was as int];
        assert(data.len() == BLOCK_SIZE);
        let c2 = c1.drop_pointers(data, keep).0;
        lemma_drop_pointers(c1, data, keep);
        assert(d.inode.indirect_block == copy);
        assert(d.v[copy as int] == kept_pointers(data, keep));
        assert(d.inode.direct_blocks == i.direct_blocks);
        assert(d.v[BLOCK_BITMAP_BLOCK as int] == c2.v[BLOCK_BITMAP_BLOCK as int]);
        if x != 0 {
            assert(x != copy);
            assert(c1.v[x as int] == v[x as int]);
            assert(c2.v[x as int] == c1.v[x as int]);
            assert(d.v[x as int] == v[x as int]);
        }
        if l < needed && x != 0 {
            if is_pointed(data, keep, x as int) {
                let s = choose|s: int| keep <= s < 1024 && (#[trigger] pointer(data, s)) == x;
                assert(lba_of(v, i, s + DIRECT_BLOCKS) == x);
            }
            assert(in_use(c1.v, x as int));
            assert(in_use(c2.v, x as int));
        }
        if l >= DIRECT_BLOCKS {
            lemma_kept_pointers(data, keep, l - DIRECT_BLOCKS);
            assert(pointer(data, l - DIRECT_BLOCKS) == x);
            if l >= needed && x != 0 {
                assert(!in_use(c2.v, x as int));
                assert(in_use(d.v, x as int) == in_use(c2.v, x as int));
            }
        }
    }
}

/// A volume on which a file was cut to nothing is still a volume.
pub proof fn lemma_cut_keeps_volume(v: Volume, size: int, i: DiskInode, new_size: u64)
    requires
        volume_ok(v),
        file_ok(v, size, i),
        new_size == 0,
        fresh_change(v, i).truncated(new_size, size).1 is Ok,
    ensures
        volume_ok(fresh_change(v, i).truncated(new_size, size).0.v),
{
    let c0 = fresh_change(v, i);
    let c = c0.drop_direct(0).0;
    lemma_drop_direct(c0, 0);
    let was = i.indirect_block;
    if was != 0 {
        let c2 = c.drop_pointers(c.v[was as int], 0).0;
        lemma_drop_pointers(c, c.v[was as int], 0);
        law_block_given_back_is_free(c2.v, was as int);
    }
}

/// A file that was cut reads below its new size as it did before.
#[verifier::spinoff_prover]
pub proof fn law_cut_file_reads_as_before(v: Volume, size: int, i: DiskInode, new_size: u64, p: int)
    requires
        volume_ok(v),
        file_ok(v, size, i),
        fresh_change(v, i).truncated(new_size, size).1 is Ok,
        taking(v) is Ok ==> taking(v)->Ok_0 < size,
        0 <= p < new_size,
        p < 1042 * 4096,
    ensures
        ({
            let d = fresh_change(v, i).truncated(new_size, size).0;
            &&& block_of(d.v, size, d.inode, p / 4096) is Ok
            &&& file_byte(d.v, size, d.inode, p) == file_byte(v, size, i, p)
        }),
{
    let l = p / 4096;
    assert(l * 4096 <= p);
    law_cut_file_keeps_its_start(v, size, i, new_size, l);
    lemma_block_of(v, size, i, l);
    assert(lba_of(v, i, l) != 0 ==> lba_of(v, i, l) < size);
}

/// Where all direct blocks are needed, none is given back.
pub proof fn lemma_nothing_dropped(c: Change, from: int)
    requires
        from >= DIRECT_BLOCKS,
    ensures
        c.drop_direct(from).0 == c,
{
}

} // verus!
