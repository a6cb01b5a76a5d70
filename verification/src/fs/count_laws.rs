//! How the number of blocks that an inode names relates to the blocks that it has.
use crate::bytes::put_le;
use crate::fs::dev::zero_block;
use crate::fs::inode::{
    blocks_needed, fresh_change, kept_pointers, mapping, pointer, with_direct, Change,
};
use crate::fs::truncate_laws::{
    lemma_drop_direct, lemma_drop_pointers, lemma_kept_pointers, lemma_nothing_dropped,
};
use crate::fs::types::{DiskInode, FsError};
use crate::fs::volume::{
    law_block_given_back_is_free, law_taken_block_was_free, taking, volume_ok, Volume,
};
use crate::fs::write_laws::{file_ok, in_use, lemma_pointer_put};
use vstd::prelude::*;

verus! {

/// How many of the first `n` direct blocks there are.
pub open spec fn direct_held(i: DiskInode, n: int) -> int
    decreases n,
{
    if n <= 0 {
        0
    } else {
        direct_held(i, n - 1) + (if i.direct_blocks@[n - 1] != 0 {
            1int
        } else {
            0int
        })
    }
}

/// How many of the first `n` pointers of a block name a block.
pub open spec fn pointers_held(data: Seq<u8>, n: int) -> int
    decreases n,
{
    if n <= 0 {
        0
    } else {
        pointers_held(data, n - 1) + (if pointer(data, n - 1) != 0 {
            1int
        } else {
            0int
        })
    }
}

/// How many blocks a file has, the block of pointers included.
pub open spec fn blocks_held(v: Volume, i: DiskInode) -> int {
    direct_held(i, 18) + (if i.indirect_block == 0 {
        0
    } else {
        1 + pointers_held(v[i.indirect_block as int], 1024)
    })
}

proof fn lemma_direct_same(a: DiskInode, b: DiskInode, n: int)
    requires
        n <= 18,
        forall|l: int| 0 <= l < n ==> (a.direct_blocks@[l] != 0) == (b.direct_blocks@[l] != 0),
    ensures
        direct_held(a, n) == direct_held(b, n),
    decreases n,
{
    if n > 0 {
        lemma_direct_same(a, b, n - 1);
    }
}

proof fn lemma_direct_added(a: DiskInode, b: DiskInode, l: int, n: int)
    requires
        0 <= l < n <= 18,
        a.direct_blocks@[l] == 0,
        b.direct_blocks@[l] != 0,
        forall|k: int| 0 <= k < 18 && k != l ==> a.direct_blocks@[k] == b.direct_blocks@[k],
    ensures
        direct_held(b, n) == direct_held(a, n) + 1,
    decreases n,
{
    if l < n - 1 {
        lemma_direct_added(a, b, l, n - 1);
    } else {
        lemma_direct_same(a, b, n - 1);
    }
}

proof fn lemma_pointers_same(a: Seq<u8>, b: Seq<u8>, n: int)
    requires
        n <= 1024,
        forall|s: int| 0 <= s < n ==> (#[trigger] pointer(a, s)) == pointer(b, s),
    ensures
        pointers_held(a, n) == pointers_held(b, n),
    decreases n,
{
    if n > 0 {
        lemma_pointers_same(a, b, n - 1);
        assert(pointer(a, n - 1) == pointer(b, n - 1));
    }
}

proof fn lemma_pointers_added(a: Seq<u8>, s: int, p: u32, n: int)
    requires
        a.len() == 4096,
        0 <= s < n <= 1024,
        pointer(a, s) == 0,
        p != 0,
    ensures
        pointers_held(put_le(a, 4 * s, p as int, 4), n) == pointers_held(a, n) + 1,
    decreases n,
{
    let b = put_le(a, 4 * s, p as int, 4);
    lemma_pointer_put(a, s, n - 1, p);
    if s < n - 1 {
        lemma_pointers_added(a, s, p, n - 1);
    } else {
        assert forall|t: int| 0 <= t < n - 1 implies (#[trigger] pointer(b, t)) == pointer(a, t) by {
            lemma_pointer_put(a, s, t, p);
        }
        lemma_pointers_same(b, a, n - 1);
    }
}

proof fn lemma_zero_pointers(n: int)
    requires
        n <= 1024,
    ensures
        pointers_held(zero_block(), n) == 0,
    decreases n,
{
    if n > 0 {
        lemma_zero_pointers(n - 1);
    }
}

/// Making sure that a logical block of a file is there raises the number of blocks that its inode
/// names by as many blocks as the file has more.
pub proof fn law_new_blocks_are_counted(c: Change, l: int, size: int)
    requires
        volume_ok(c.v),
        file_ok(c.v, size, c.inode),
        0 <= l < 1042,
        c.inode.blocks_count <= u64::MAX - 2,
        c.map_block(l, size).1 is Ok,
    ensures
        ({
            let d = c.map_block(l, size).0;
            d.inode.blocks_count - c.inode.blocks_count == blocks_held(d.v, d.inode) - blocks_held(
                c.v,
                c.inode,
            )
        }),
{
    let d = c.map_block(l, size).0;
    let at = c.inode.indirect_block;
    if mapping(c.v, size, c.inode, l) == Ok::<Option<u32>, FsError>(None) {
        law_taken_block_was_free(c.v);
        let lba = taking(c.v)->Ok_0;
        let c1 = c.taking_block();
        if at != 0 {
            assert(in_use(c.v, at as int));
            assert(at != lba);
            assert(c1.v[at as int] == c.v[at as int]);
        }
        if l < 18 {
            assert(d.inode.direct_blocks@ == c.inode.direct_blocks@.update(l, lba));
            lemma_direct_added(c.inode, d.inode, l, 18);
            assert(d.v == c1.v);
        } else {
            let s = l - 18;
            lemma_direct_same(c.inode, d.inode, 18);
            if at == 0 {
                lemma_zero_pointers(1024);
                assert(pointer(zero_block(), s) == 0);
                lemma_pointers_added(zero_block(), s, lba, 1024);
                law_taken_block_was_free(c1.v);
            } else {
                assert(pointer(c.v[at as int], s) == 0);
                lemma_pointers_added(c.v[at as int], s, lba, 1024);
                if !c.made_pointers() {
                    law_taken_block_was_free(c1.v);
                    let copy = taking(c1.v)->Ok_0;
                    assert(in_use(c1.v, at as int));
                    assert(copy != at);
                }
            }
        }
    }
}

/// Giving direct blocks back lowers the number by as many as there were.
proof fn lemma_direct_dropped(c: Change, from: int)
    requires
        0 <= from <= 18,
        volume_ok(c.v),
        c.drop_direct(from).1 is Ok,
        c.inode.blocks_count >= direct_held(c.inode, 18) - direct_held(c.inode, from),
    ensures
        c.drop_direct(from).0.inode.blocks_count == c.inode.blocks_count - (direct_held(
            c.inode,
            18,
        ) - direct_held(c.inode, from)),
        direct_held(c.drop_direct(from).0.inode, 18) == direct_held(c.inode, from),
    decreases 18 - from,
{
    lemma_drop_direct(c, from);
    let d = c.drop_direct(from).0;
    lemma_tail_dropped(c.inode, d.inode, from, 18);
    if from < 18 {
        let p = c.inode.direct_blocks@[from];
        if p == 0 {
            lemma_direct_dropped(c, from + 1);
        } else {
            let c1 = c.dropping(p);
            let c2 = Change { inode: with_direct(c1.inode, from, 0), ..c1 };
            law_block_given_back_is_free(c.v, p as int);
            assert(c2.inode.direct_blocks@ == c.inode.direct_blocks@.update(from, 0));
            lemma_direct_added(c2.inode, c.inode, from, 18);
            lemma_direct_added(c2.inode, c.inode, from, from + 1);
            lemma_held_grows(c.inode, from + 1, 18);
            lemma_direct_dropped(c2, from + 1);
        }
    }
}

proof fn lemma_held_grows(i: DiskInode, m: int, n: int)
    requires
        0 <= m <= n,
    ensures
        0 <= direct_held(i, m) <= direct_held(i, n),
    decreases n,
{
    if m < n {
        lemma_held_grows(i, m, n - 1);
    } else if n > 0 {
        lemma_held_grows(i, m - 1, n - 1);
    }
}

proof fn lemma_tail_dropped(a: DiskInode, b: DiskInode, from: int, n: int)
    requires
        0 <= from <= n <= 18,
        forall|l: int|
            0 <= l < 18 ==> (#[trigger] b.direct_blocks@[l]) == (if l < from {
                a.direct_blocks@[l]
            } else {
                0
            }),
    ensures
        direct_held(b, n) == direct_held(a, from),
    decreases n,
{
    if n > from {
        lemma_tail_dropped(a, b, from, n - 1);
    } else {
        lemma_direct_same(a, b, n);
    }
}

proof fn lemma_pointers_grow(data: Seq<u8>, m: int, n: int)
    requires
        0 <= m <= n,
    ensures
        0 <= pointers_held(data, m) <= pointers_held(data, n),
    decreases n,
{
    if m < n {
        lemma_pointers_grow(data, m, n - 1);
    } else if n > 0 {
        lemma_pointers_grow(data, m - 1, n - 1);
    }
}

/// Giving indirect blocks back lowers the number by as many as there were.
proof fn lemma_pointers_dropped(c: Change, data: Seq<u8>, from: int)
    requires
        0 <= from <= 1024,
        c.drop_pointers(data, from).1 is Ok,
        c.inode.blocks_count >= pointers_held(data, 1024) - pointers_held(data, from),
    ensures
        c.drop_pointers(data, from).0.inode.blocks_count == c.inode.blocks_count - (pointers_held(
            data,
            1024,
        ) - pointers_held(data, from)),
    decreases 1024 - from,
{
    if from < 1024 {
        let p = pointer(data, from);
        lemma_pointers_grow(data, from + 1, 1024);
        if p == 0 {
            lemma_pointers_dropped(c, data, from + 1);
        } else {
            lemma_pointers_dropped(c.dropping(p), data, from + 1);
        }
    }
}

proof fn lemma_kept_held(data: Seq<u8>, keep: int, n: int)
    requires
        data.len() == 4096,
        0 <= keep <= n <= 1024,
    ensures
        pointers_held(kept_pointers(data, keep), n) == pointers_held(data, keep),
    decreases n,
{
    if n > keep {
        lemma_kept_held(data, keep, n - 1);
        lemma_kept_pointers(data, keep, n - 1);
    } else {
        assert forall|s: int| 0 <= s < n implies (#[trigger] pointer(
            kept_pointers(data, keep),
            s,
        )) == pointer(data, s) by {
            lemma_kept_pointers(data, keep, s);
        }
        lemma_pointers_same(kept_pointers(data, keep), data, n);
    }
}

/// An inode that names as many blocks as its file has still does after the file was cut.
#[verifier::spinoff_prover]
#[verifier::rlimit(60)]
pub proof fn law_dropped_blocks_are_counted(v: Volume, size: int, i: DiskInode, new_size: u64)
    requires
        volume_ok(v),
        file_ok(v, size, i),
        fresh_change(v, i).truncated(new_size, size).1 is Ok,
        i.blocks_count == blocks_held(v, i),
    ensures
        ({
            let d = fresh_change(v, i).truncated(new_size, size).0;
            d.inode.blocks_count == blocks_held(d.v, d.inode)
        }),
{
    let c0 = fresh_change(v, i);
    let needed = blocks_needed(new_size as int);
    let d = c0.truncated(new_size, size).0;
    let c = c0.drop_direct(needed).0;
    let was = i.indirect_block;
    lemma_pointers_grow(v[was as int], 0, 1024);
    lemma_held_grows(i, 0, 18);
    if needed >= 18 {
        lemma_nothing_dropped(c0, needed);
    } else {
        lemma_held_grows(i, needed, 18);
        lemma_direct_dropped(c0, needed);
        lemma_drop_direct(c0, needed);
    }
    if was == 0 || needed >= 1042 {
        if was != 0 {
            assert(c.v[was as int] == v[was as int]);
        }
        lemma_direct_same(c.inode, d.inode, 18);
    } else if needed <= 18 {
        assert(in_use(v, was as int));
        assert(c.v[was as int] == v[was as int]);
        let data = c.v[was as int];
        lemma_pointers_dropped(c, data, 0);
        lemma_drop_pointers(c, data, 0);
        lemma_held_grows(c.inode, 0, 18);
        lemma_direct_same(c.inode, d.inode, 18);
    } else {
        let keep = needed - 18;
        assert(in_use(v, was as int));
        law_taken_block_was_free(c.v);
        let copy = taking(c.v)->Ok_0;
        let c1 = c.taking_block().noting_freed(was);
        assert(copy != was);
        assert(c1.v[was as int] == v[was as int]);
        let data = c1.v[was as int];
        assert(data.len() == 4096);
        lemma_pointers_grow(data, 0, keep);
        lemma_pointers_dropped(c1, data, keep);
        lemma_drop_pointers(c1, data, keep);
        lemma_kept_held(data, keep, 1024);
        assert(d.v[copy as int] == kept_pointers(data, keep));
        lemma_direct_same(i, d.inode, 18);
    }
}

} // verus!
