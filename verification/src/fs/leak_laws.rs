//! No block is lost: what a change hands out is in the file or in the record, and what it replaces
//! is given back.
use crate::bytes::overwrite;
use crate::fs::inode::{fresh_change, is_noted, mapping, reading, Change};
use crate::fs::journal::{
    all_cleared, cleared_record, is_sound, lemma_record_at, listed, record_at, recovered,
    with_record,
};
use crate::fs::laws::{law_all_cleared, names};
use crate::fs::recovery_laws::{hands_out, law_undoing_touches_only_what_is_recorded};
use crate::fs::transaction::{
    data_written, grown, next_pos, piece_fits, piece_record, piece_written, spanned,
    write_record,
};
use crate::fs::types::disk_inode::law_sealed_inode_is_valid;
use crate::fs::types::disk_journal_block::law_sealed_record_is_valid;
use crate::fs::types::{DiskInode, DiskJournalBlock, FsError, JournalState};
use crate::fs::volume::{bit, inode_at, law_taken_block_was_free, taking, volume_ok, Volume};
use crate::fs::write_laws::{
    file_ok, in_use, lba_of, lemma_noting, lemma_piece, lemma_span_lies_in_data,
    lemma_step_direct, lemma_step_indirect, lemma_step_own,
};
use vstd::prelude::*;

verus! {

/// A block was handed out by a change.
pub open spec fn is_new(c: Change, b: int) -> bool {
    0 <= b < 32768 && is_noted(c.allocated@, c.allocated_count as int, b as u32)
}

/// What a change to a file of a volume has handed out so far, for `k` blocks of the file: every
/// block that it set in the bitmap is noted, was free, and belongs to the file; the block of
/// pointers that it replaced is noted as given up.
pub open spec fn accounts(v: Volume, i: DiskInode, c: Change, size: int, k: int) -> bool {
    &&& volume_ok(c.v)
    &&& file_ok(c.v, size, c.inode)
    &&& c.allocated_count <= k + (if c.made_pointers() {
        1int
    } else {
        0int
    })
    &&& forall|b: int|
        0 <= b < 32768 ==> #[trigger] bit(c.v[4], b) == (bit(v[4], b) || is_new(c, b))
    &&& forall|b: int| #[trigger] is_new(c, b) ==> b >= 22 && !bit(v[4], b)
    &&& c.made_pointers() == (c.inode.indirect_block != i.indirect_block)
    &&& c.freed_count == (if c.inode.indirect_block != i.indirect_block && i.indirect_block != 0 {
        1int
    } else {
        0int
    })
    &&& c.freed_count == 1 ==> c.freed@[0] == i.indirect_block
}

/// Handing out one more block keeps the account of the bitmap.
proof fn lemma_taking(v: Volume, c: Change)
    requires
        volume_ok(c.v),
        taking(c.v) is Ok,
        c.allocated_count < 10,
        forall|b: int|
            0 <= b < 32768 ==> #[trigger] bit(c.v[4], b) == (bit(v[4], b) || is_new(c, b)),
        forall|b: int| #[trigger] is_new(c, b) ==> b >= 22 && !bit(v[4], b),
    ensures
        ({
            let d = c.taking_block();
            &&& volume_ok(d.v)
            &&& d.allocated_count == c.allocated_count + 1
            &&& forall|b: int|
                0 <= b < 32768 ==> #[trigger] bit(d.v[4], b) == (bit(v[4], b) || is_new(d, b))
            &&& forall|b: int| #[trigger] is_new(d, b) ==> b >= 22 && !bit(v[4], b)
            &&& forall|b: int| #[trigger] is_new(d, b) <==> is_new(c, b) || b == taking(c.v)->Ok_0
        }),
{
    law_taken_block_was_free(c.v);
    let d = c.taking_block();
    let lba = taking(c.v)->Ok_0;
    let c1 = c.with_volume(d.v);
    assert forall|b: int| #[trigger] is_new(d, b) <==> is_new(c, b) || b == lba by {
        if 0 <= b < 32768 {
            lemma_noting(c1, lba, b as u32);
        }
    }
    assert(!bit(c.v[4], lba as int));
    assert forall|b: int| 0 <= b < 32768 implies #[trigger] bit(d.v[4], b) == (bit(v[4], b)
        || is_new(d, b)) by {
        if b != lba {
            assert(bit(d.v[4], b) == bit(c.v[4], b));
        }
        assert(is_new(d, b) <==> is_new(c, b) || b == lba);
    }
}

/// One more block of the file keeps the account.
#[verifier::spinoff_prover]
#[verifier::rlimit(60)]
proof fn lemma_block_accounted(v: Volume, i: DiskInode, c: Change, size: int, k: int, l: int)
    requires
        accounts(v, i, c, size, k),
        file_ok(v, size, i),
        0 <= k < 8,
        0 <= l,
        c.finds_room(l, size),
        c.map_block(l, size).1 is Ok,
    ensures
        accounts(v, i, c.map_block(l, size).0, size, k + 1),
{
    let (d, r) = c.map_block(l, size);
    if mapping(c.v, size, c.inode, l) == Ok::<Option<u32>, FsError>(None) {
        assert(lba_of(c.v, c.inode, l) == 0);
        let c1 = c.taking_block();
        lemma_taking(v, c);
        let at = c.inode.indirect_block;
        if l < 18 {
            lemma_step_direct(c, size, l);
            assert(d.v == c1.v);
            assert(d.allocated == c1.allocated && d.allocated_count == c1.allocated_count);
            assert forall|b: int|
                #![trigger is_new(d, b)]
                #![trigger is_new(c1, b)]
                is_new(d, b) == is_new(c1, b) by {}
        } else if c.made_pointers() {
            lemma_step_own(c, size, l);
            assert(in_use(c.v, at as int));
            assert(at != 4 && d.inode.indirect_block == at);
            assert(d.v[4] == c1.v[4]);
            assert forall|b: int|
                #![trigger is_new(d, b)]
                #![trigger is_new(c1, b)]
                is_new(d, b) == is_new(c1, b) by {}
        } else {
            lemma_step_indirect(c, size, l);
            let c2 = c1.taking_block();
            lemma_taking(v, c1);
            law_taken_block_was_free(c1.v);
            assert(d.v[4] == c2.v[4]);
            assert forall|b: int|
                #![trigger is_new(d, b)]
                #![trigger is_new(c2, b)]
                is_new(d, b) == is_new(c2, b) by {}
            let copy = taking(c1.v)->Ok_0;
            assert(d.inode.indirect_block == copy);
            assert(copy != at) by {
                if at != 0 {
                    assert(in_use(c.v, at as int));
                    law_taken_block_was_free(c.v);
                    assert(in_use(c1.v, at as int));
                }
            }
            assert(at == i.indirect_block);
            assert(c.freed_count == 0);
            if at != 0 {
                assert(d.freed_count == 1 && d.freed@[0] == at);
            } else {
                assert(d.freed_count == 0);
            }
            assert(d.made_pointers());
        }
        assert forall|b: int| 0 <= b < 32768 implies #[trigger] bit(d.v[4], b) == (bit(v[4], b)
            || is_new(d, b)) by {}
        assert forall|b: int| #[trigger] is_new(d, b) implies b >= 22 && !bit(v[4], b) by {}
        assert(file_ok(d.v, size, d.inode) && volume_ok(d.v));
        assert(d.made_pointers() == (d.inode.indirect_block != i.indirect_block));
        assert(d.allocated_count <= k + 1 + (if d.made_pointers() {
            1int
        } else {
            0int
        }));
    }
}

/// All blocks of a span keep the account.
#[verifier::spinoff_prover]
#[verifier::rlimit(60)]
proof fn lemma_span_accounted(
    v: Volume,
    i: DiskInode,
    c: Change,
    size: int,
    k: int,
    pos: int,
    end: int,
    list: Seq<u32>,
)
    requires
        accounts(v, i, c, size, k),
        file_ok(v, size, i),
        0 <= k,
        0 <= pos <= end,
        k + spanned(pos, end - pos) <= 8,
        c.span_fits(pos, end, size),
        c.map_span(pos, end, size, list).1 is Ok,
    ensures
        accounts(v, i, c.map_span(pos, end, size, list).0, size, k + spanned(pos, end - pos)),
    decreases end - pos,
{
    if pos < end {
        let q = next_pos(pos, end);
        let (c1, r1) = c.map_block(pos / 4096, size);
        assert(spanned(pos, end - pos) == 1 + spanned(q, end - q));
        lemma_block_accounted(v, i, c, size, k, pos / 4096);
        lemma_span_accounted(v, i, c1, size, k + 1, q, end, list.push(r1->Ok_0));
    }
}

/// A write that was announced and not carried out leaves no trace in the bitmap of blocks: once it
/// was undone, exactly those blocks are in use that were in use before it.
pub proof fn law_undone_write_loses_no_block(
    v: Volume,
    size: int,
    n: u32,
    start: int,
    chunk: Seq<u8>,
    b: int,
)
    requires
        volume_ok(v),
        22 <= size,
        0 <= start,
        start % 4096 + chunk.len() <= 32768,
        start + chunk.len() <= u64::MAX,
        reading(v, n) is Ok,
        file_ok(v, size, reading(v, n)->Ok_0),
        piece_fits(v, size, n, start, chunk.len() as int),
        fresh_change(v, reading(v, n)->Ok_0).map_span(
            start,
            start + chunk.len(),
            size,
            Seq::empty(),
        ).1 is Ok,
        0 <= b < 32768,
    ensures
        ({
            let i = reading(v, n)->Ok_0;
            let c = fresh_change(v, i).map_span(start, start + chunk.len(), size, Seq::empty()).0;
            let u = with_record(c.v, piece_record(v, size, n, start, chunk, JournalState::Intent));
            &&& bit(recovered(u)[4], b) == bit(v[4], b)
            &&& inode_at(recovered(u), n as int) == i
        }),
{
    let i = reading(v, n)->Ok_0;
    let end = start + chunk.len();
    let c0 = fresh_change(v, i);
    let c = c0.map_span(start, end, size, Seq::empty()).0;
    let j = piece_record(v, size, n, start, chunk, JournalState::Intent);
    let u = with_record(c.v, j);
    assert(!c0.made_pointers());
    assert forall|x: int| !(#[trigger] is_new(c0, x)) by {}
    assert(spanned(start, end - start) <= 8);
    lemma_span_accounted(v, i, c0, size, 0, start, end, Seq::empty());
    lemma_record_at(u, j);
    law_sealed_record_is_valid(DiskJournalBlock { checksum: 0, ..j });
    assert(is_sound(j));
    assert(volume_ok(u)) by {
        assert forall|x: int| (#[trigger] u[x]).len() == 4096 by {
            assert(c.v[x].len() == 4096);
        }
        assert forall|x: int| #[trigger] u.dom().contains(x) by {
            assert(c.v.dom().contains(x));
        }
    }
    law_undoing_touches_only_what_is_recorded(u, n as int, b);
    assert(u[4] == c.v[4]);
    assert(hands_out(j, b) == is_new(c, b)) by {
        if is_new(c, b) {
            assert(b >= 22);
            let x = choose|x: int|
                0 <= x < 10 && x < c.allocated_count && (#[trigger] c.allocated@[x]) == b as u32;
            assert(j.allocated_blocks@[x] == b);
        }
        if hands_out(j, b) {
            let x = choose|x: int|
                0 <= x < 10 && x < j.allocated_blocks_count && (
                #[trigger] j.allocated_blocks@[x]) == b;
            assert(c.allocated@[x] == b as u32);
        }
    }
}

/// Writing data to data blocks keeps the bitmap.
proof fn lemma_data_spares_bitmap(
    v: Volume,
    pos: int,
    end: int,
    start: int,
    chunk: Seq<u8>,
    lbas: Seq<u32>,
    k: int,
)
    requires
        0 <= k,
        0 <= pos <= end,
        lbas.len() == k + spanned(pos, end - pos),
        forall|j: int| 0 <= j < lbas.len() ==> (#[trigger] lbas[j]) >= 22,
    ensures
        data_written(v, pos, end, start, chunk, lbas, k)[4] == v[4],
    decreases end - pos,
{
    if pos < end {
        let q = next_pos(pos, end);
        let b = lbas[k] as int;
        assert(spanned(pos, end - pos) == 1 + spanned(q, end - q));
        lemma_data_spares_bitmap(
            v.insert(b, overwrite(v[b], pos % 4096, chunk.subrange(pos - start, q - start))),
            q,
            end,
            start,
            chunk,
            lbas,
            k + 1,
        );
    }
}

/// A piece that was written takes the blocks that were handed out for it into use and, where it
/// replaced the block of pointers of the file, gives the old one back. No other block goes into or
/// out of use.
pub proof fn law_written_piece_loses_no_block(
    v: Volume,
    size: int,
    n: u32,
    start: int,
    chunk: Seq<u8>,
    b: int,
)
    requires
        volume_ok(v),
        22 <= size,
        0 <= start,
        start % 4096 + chunk.len() <= 32768,
        start + chunk.len() <= u64::MAX,
        reading(v, n) is Ok,
        file_ok(v, size, reading(v, n)->Ok_0),
        piece_fits(v, size, n, start, chunk.len() as int),
        piece_written(v, size, n, start, chunk).1 is Ok,
        22 <= b < 32768,
    ensures
        ({
            let i = reading(v, n)->Ok_0;
            let w = piece_written(v, size, n, start, chunk).0;
            let j = inode_at(w, n as int);
            let c = fresh_change(v, i).map_span(start, start + chunk.len(), size, Seq::empty()).0;
            let replaced = b == i.indirect_block && j.indirect_block != i.indirect_block;
            &&& bit(w[4], b) == ((bit(v[4], b) && !replaced) || is_new(c, b))
            &&& is_new(c, b) ==> !bit(v[4], b)
        }),
{
    let i = reading(v, n)->Ok_0;
    let end = start + chunk.len();
    let c0 = fresh_change(v, i);
    let (c, r) = c0.map_span(start, end, size, Seq::empty());
    let lbas = r->Ok_0;
    assert(!c0.made_pointers());
    assert forall|x: int| !(#[trigger] is_new(c0, x)) by {}
    assert(spanned(start, end - start) <= 8);
    lemma_span_accounted(v, i, c0, size, 0, start, end, Seq::empty());
    lemma_span_lies_in_data(v, size, i, start, end);
    lemma_piece(v, size, n, start, chunk);
    lemma_span_length(c0, size, start, end, Seq::empty());
    let j1 = piece_record(v, size, n, start, chunk, JournalState::Intent);
    let v1 = with_record(c.v, j1);
    lemma_data_spares_bitmap(v1, start, end, start, chunk, lbas, 0);
    let w = piece_written(v, size, n, start, chunk).0;
    assert(c.v[4].len() == 4096);
    assert(w[4] == all_cleared(c.v[4], c.freed@, listed(c.freed_count as u32)));
    law_all_cleared(c.v[4], c.freed@, listed(c.freed_count as u32), b);
    assert(names(c.freed@, listed(c.freed_count as u32), b) == (c.freed_count == 1 && b
        == i.indirect_block)) by {
        if c.freed_count == 1 && b == i.indirect_block {
            assert(c.freed@[0] == b);
        }
    }
    assert(inode_at(w, n as int).indirect_block == c.inode.indirect_block);
    if i.indirect_block != 0 {
        assert(in_use(v, i.indirect_block as int));
        assert(bit(v[4], i.indirect_block as int));
    }
}

/// As many blocks are listed as a span touches.
proof fn lemma_span_length(c: Change, size: int, pos: int, end: int, list: Seq<u32>)
    requires
        0 <= pos <= end,
        c.map_span(pos, end, size, list).1 is Ok,
    ensures
        c.map_span(pos, end, size, list).1->Ok_0.len() == list.len() + spanned(pos, end - pos),
    decreases end - pos,
{
    if pos < end {
        let q = next_pos(pos, end);
        let (c1, r1) = c.map_block(pos / 4096, size);
        assert(spanned(pos, end - pos) == 1 + spanned(q, end - q));
        lemma_span_length(c1, size, q, end, list.push(r1->Ok_0));
    }
}

/// The record of a write names the write, the file, its inode before and after it, the blocks that
/// were handed out and those that are given up. It can be trusted, touches no entry of the
/// directory, and once the write is done the journal says that nothing is going on.
pub proof fn law_record_of_a_write(
    v: Volume,
    size: int,
    n: u32,
    start: int,
    chunk: Seq<u8>,
    state: JournalState,
)
    requires
        volume_ok(v),
        reading(v, n) is Ok,
    ensures
        ({
            let i = reading(v, n)->Ok_0;
            let c = fresh_change(v, i).map_span(start, start + chunk.len(), size, Seq::empty()).0;
            let j = piece_record(v, size, n, start, chunk, state);
            let (w, r) = piece_written(v, size, n, start, chunk);
            &&& is_sound(j)
            &&& j.op_type == 2
            &&& state == JournalState::Intent ==> j.state == 1
            &&& state == JournalState::Committed ==> j.state == 2
            &&& j.target_inode_num == n
            &&& j.old_inode_image == i
            &&& j.new_inode_image.direct_blocks == c.inode.direct_blocks
            &&& j.new_inode_image.indirect_block == c.inode.indirect_block
            &&& start + chunk.len() <= u64::MAX ==> {
                let size = j.new_inode_image.size_bytes;
                &&& size >= start + chunk.len()
                &&& size >= c.inode.size_bytes
                &&& size == start + chunk.len() || size == c.inode.size_bytes
            }
            &&& j.new_inode_image.checksum == j.new_inode_image.crc()
            &&& j.allocated_blocks == c.allocated
            &&& j.freed_blocks == c.freed
            &&& c.allocated_count <= u32::MAX ==> j.allocated_blocks_count == c.allocated_count
            &&& c.freed_count <= u32::MAX ==> j.freed_blocks_count == c.freed_count
            &&& j.dir_entry_slot >= 64
            &&& r is Ok ==> record_at(w).state == 0
        }),
{
    let i = reading(v, n)->Ok_0;
    let end = start + chunk.len();
    let c = fresh_change(v, i).map_span(start, end, size, Seq::empty()).0;
    let j = piece_record(v, size, n, start, chunk, state);
    law_sealed_inode_is_valid(grown(c.inode, end));
    let raw = write_record(n, i, grown(c.inode, end).sealed(), c, state);
    assert(j == raw.sealed());
    law_sealed_record_is_valid(raw);
    let (w, r) = piece_written(v, size, n, start, chunk);
    if r is Ok {
        lemma_record_at(w, cleared_record(2));
    }
}

} // verus!
