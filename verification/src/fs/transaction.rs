//! Writing to a file as one change: announced in the journal, carried out, committed, completed.
use crate::bytes::{overwrite, write_bytes};
use crate::fs::buf::{
    holds_out, is_lack, lemma_healthy_is_tidy, lemma_overdue, lemma_resting, overdue,
    read_block_cached, resting, spares, sync_all_buffers, tidy, told, write_block_cached, Storage,
};
use crate::fs::dev::{torn, BlockDevice};
use crate::fs::file::{
    FileManager, StorageObject, StorageObjectTable, MAX_OPEN_STORAGE_OBJECTS,
};
use crate::fs::inode::{
    change_of, fresh_change, is_inode_number, reading, Change, InodeManager, FILE_BLOCKS,
};
use crate::fs::journal::{
    all_cleared, cleared_record, listed, mark_all, record_in_place, with_record, Journal,
};
use crate::fs::types::disk_journal_block::empty_record;
use crate::fs::types::{
    DiskInode, DiskJournalBlock, FsError, JournalOpType, JournalState, BLOCK_BITMAP_BLOCK,
    BLOCK_SIZE, DATA_BLOCK_START, JOURNAL_BLOCK, MAX_TRANSACTION_BYTES, O_WRITE,
};
use crate::fs::volume::{
    inode_block, lemma_tables_spared, lemma_volume_ok, tables_spared, turned,
    with_inode, Volume,
};
use crate::fs::write_laws::{file_ok, lemma_piece, lemma_span_lies_in_data};
use vstd::prelude::*;
use vstd::slice::slice_subrange;

verus! {

/// Where the part of a span that lies in the same block as `pos` ends.
pub open spec fn next_pos(pos: int, end: int) -> int {
    let q = (pos / 4096 + 1) * 4096;
    if q < end {
        q
    } else {
        end
    }
}

impl Change {
    /// Makes sure that all blocks of a span of a file are there; `lbas` lists those before it.
    pub open spec fn map_span(self, pos: int, end: int, size: int, lbas: Seq<u32>) -> (
        Change,
        Result<Seq<u32>, FsError>,
    )
        decreases end - pos,
    {
        if pos >= end {
            (self, Ok(lbas))
        } else {
            let (c, r) = self.map_block(pos / 4096, size);
            match r {
                Err(e) => (c, Err(e)),
                Ok(lba) => c.map_span(next_pos(pos, end), end, size, lbas.push(lba)),
            }
        }
    }

    /// The new blocks that a span of a file needs, and those of the file that it touches, lie on
    /// the device. The count of blocks of the file has not run out.
    pub open spec fn span_fits(self, pos: int, end: int, size: int) -> bool
        decreases end - pos,
    {
        pos < end ==> {
            let (c, r) = self.map_block(pos / 4096, size);
            &&& self.inode.blocks_count <= u64::MAX - 2
            &&& self.finds_room(pos / 4096, size)
            &&& r is Ok ==> r->Ok_0 < size && c.span_fits(next_pos(pos, end), end, size)
        }
    }
}

/// The inode of a file after bytes up to `end` were written.
pub open spec fn grown(i: DiskInode, end: int) -> DiskInode {
    DiskInode {
        size_bytes: if i.size_bytes < end {
            end as u64
        } else {
            i.size_bytes
        },
        ..i
    }
}

/// The record of a write.
pub open spec fn write_record(
    n: u32,
    before: DiskInode,
    after: DiskInode,
    c: Change,
    state: JournalState,
) -> DiskJournalBlock {
    DiskJournalBlock {
        sequence: 1,
        op_type: JournalOpType::Write.number(),
        state: state.number(),
        target_inode_num: n,
        allocated_blocks_count: c.allocated_count as u32,
        freed_blocks_count: c.freed_count as u32,
        allocated_blocks: c.allocated,
        freed_blocks: c.freed,
        old_inode_image: before,
        new_inode_image: after,
        ..empty_record()
    }
}

/// The volume after the bytes of a span were written to the blocks listed, from `lbas[k]` on.
pub open spec fn data_written(
    v: Volume,
    pos: int,
    end: int,
    start: int,
    chunk: Seq<u8>,
    lbas: Seq<u32>,
    k: int,
) -> Volume
    decreases end - pos,
{
    if pos >= end {
        v
    } else {
        let q = next_pos(pos, end);
        let b = lbas[k] as int;
        data_written(
            v.insert(b, overwrite(v[b], pos % 4096, chunk.subrange(pos - start, q - start))),
            q,
            end,
            start,
            chunk,
            lbas,
            k + 1,
        )
    }
}

/// The volume after the blocks that a change gave up were given back.
pub open spec fn released(v: Volume, freed: Seq<u32>, count: u32) -> Volume {
    v.insert(
        BLOCK_BITMAP_BLOCK as int,
        all_cleared(v[BLOCK_BITMAP_BLOCK as int], freed, listed(count)),
    )
}

/// What is left when a record was committed and completed: the new inode is installed, what the
/// change gave up is free, and the journal is clear.
pub open spec fn completed(v: Volume, j: DiskJournalBlock) -> Volume {
    with_record(
        released(
            with_inode(with_record(v, j), j.target_inode_num as int, j.new_inode_image.sealed()),
            j.freed_blocks@,
            j.freed_blocks_count,
        ),
        cleared_record(2),
    )
}

/// What writing a piece of a file leaves, and what it answers.
pub open spec fn piece_written(v: Volume, size: int, n: u32, start: int, chunk: Seq<u8>) -> (
    Volume,
    Result<usize, FsError>,
) {
    match reading(v, n) {
        Err(e) => (v, Err(e)),
        Ok(before) => {
            let end = start + chunk.len();
            let (c, r) = fresh_change(v, before).map_span(start, end, size, Seq::empty());
            match r {
                Err(e) => (c.v, Err(e)),
                Ok(lbas) => {
                    let after = grown(c.inode, end).sealed();
                    let v1 = with_record(
                        c.v,
                        write_record(n, before, after, c, JournalState::Intent).sealed(),
                    );
                    let v2 = data_written(v1, start, end, start, chunk, lbas, 0);
                    (
                        completed(
                            v2,
                            write_record(n, before, after, c, JournalState::Committed).sealed(),
                        ),
                        Ok(chunk.len() as usize),
                    )
                },
            }
        },
    }
}

/// The record of a piece that is written.
pub open spec fn piece_record(
    v: Volume,
    size: int,
    n: u32,
    start: int,
    chunk: Seq<u8>,
    state: JournalState,
) -> DiskJournalBlock {
    let before = reading(v, n)->Ok_0;
    let end = start + chunk.len();
    let c = fresh_change(v, before).map_span(start, end, size, Seq::empty()).0;
    write_record(n, before, grown(c.inode, end).sealed(), c, state).sealed()
}

/// Every data block would survive as it is in a volume.
pub open spec fn data_kept(kept: Volume, w: Volume) -> bool {
    forall|b: int| b >= DATA_BLOCK_START ==> (#[trigger] kept[b]) == w[b]
}

/// What a device would hold when a committed record is carried out, wherever that ended: the
/// inode is the old one until the whole record is there, and the record is there until the inode
/// is the new one. The data is there all the time.
pub open spec fn completion_fate(
    announced: Volume,
    kept: Volume,
    w: Volume,
    j: DiskJournalBlock,
) -> bool {
    let at = inode_block(j.target_inode_num as int);
    let record = kept[JOURNAL_BLOCK as int];
    &&& data_kept(kept, announced)
    &&& {
        ||| kept[at] == announced[at] && torn(record, announced[JOURNAL_BLOCK as int], j.bytes())
        ||| record == j.bytes()
        ||| kept[at] == w[at] && torn(record, j.bytes(), cleared_record(2).bytes())
    }
}

/// What a device would hold when a piece is written to a file of a volume, wherever that ended. As
/// long as the commitment was not begun, the inode is the old one, and the journal holds what it
/// held, the announcement, or bytes of both. From then on the data of the piece is there.
pub open spec fn piece_fate(
    v: Volume,
    kept: Volume,
    size: int,
    n: u32,
    start: int,
    chunk: Seq<u8>,
) -> bool {
    let (w, r) = piece_written(v, size, n, start, chunk);
    let at = inode_block(n as int);
    let record = kept[JOURNAL_BLOCK as int];
    let intent = piece_record(v, size, n, start, chunk, JournalState::Intent);
    ||| kept[at] == v[at] && record == v[JOURNAL_BLOCK as int]
    ||| r is Ok && kept[at] == v[at] && torn(record, v[JOURNAL_BLOCK as int], intent.bytes())
    ||| r is Ok && data_kept(kept, w) && {
        let j = piece_record(v, size, n, start, chunk, JournalState::Committed);
        ||| kept[at] == v[at] && torn(record, intent.bytes(), j.bytes())
        ||| record == j.bytes()
        ||| kept[at] == w[at] && torn(record, j.bytes(), cleared_record(2).bytes())
    }
}

/// The new blocks that a piece needs, and those of the file that it touches, lie on the device.
pub open spec fn piece_fits(v: Volume, size: int, n: u32, start: int, len: int) -> bool {
    reading(v, n) is Ok ==> fresh_change(v, reading(v, n)->Ok_0).span_fits(start, start + len, size)
}

/// One of the first `k` blocks listed lies beyond the end of the device.
pub open spec fn beyond(lbas: Seq<u32>, k: int, size: int) -> bool {
    exists|j: int| 0 <= j < k && (#[trigger] lbas[j]) >= size
}

/// A block is one of the first `k` blocks listed.
pub open spec fn among(lbas: Seq<u32>, k: int, b: int) -> bool {
    exists|j: int| 0 <= j < k && (#[trigger] lbas[j]) == b
}

/// How many blocks a span of a file touches.
pub open spec fn spanned(start: int, len: int) -> int {
    if len == 0 {
        0
    } else {
        (start % 4096 + len + 4095) / 4096
    }
}

impl FileManager {
    /// Makes sure that the blocks of a span of a file are there, and lists them.
    #[verifier::rlimit(40)]
    #[verifier::spinoff_prover]
    fn map_blocks<A: BlockDevice>(
        s: &mut Storage<A>,
        device_id: u8,
        inode: &mut DiskInode,
        start: u64,
        len: usize,
        allocated: &mut [u32; 10],
        allocated_count: &mut usize,
        freed: &mut [u32; 10],
        freed_count: &mut usize,
        lbas: &mut [u32; 8],
    ) -> (r: Result<usize, FsError>)
        requires
            old(s).wf(),
            start % 4096 + len <= MAX_TRANSACTION_BYTES,
            start + len <= u64::MAX,
        ensures
            final(s).wf(),
            final(s).same_devices(old(s)),
            told(old(s), final(s), r),
            tables_spared(old(s), final(s), device_id),
            final(s).aged_at_most(old(s), 9 * len),
            ({
                let size = old(s).size(device_id) as int;
                let c = change_of(
                    old(s),
                    device_id,
                    *old(inode),
                    *old(allocated),
                    *old(allocated_count),
                    *old(freed),
                    *old(freed_count),
                );
                old(s).usable(device_id) && final(s).steady_since(old(s)) && !c.span_fits(
                    start as int,
                    start + len,
                    size,
                ) ==> match r {
                    Err(e) => is_lack(e),
                    Ok(k) => {
                        &&& k == spanned(start as int, len as int) <= 8
                        &&& tidy(final(s))
                        &&& overdue(final(s), device_id) || beyond(final(lbas)@, k as int, size)
                    },
                }
            }),
            ({
                let size = old(s).size(device_id) as int;
                let c = change_of(
                    old(s),
                    device_id,
                    *old(inode),
                    *old(allocated),
                    *old(allocated_count),
                    *old(freed),
                    *old(freed_count),
                );
                old(s).usable(device_id) && final(s).steady_since(old(s)) && c.span_fits(
                    start as int,
                    start + len,
                    size,
                ) ==> {
                    let (n, res) = c.map_span(
                        start as int,
                        start + len,
                        size,
                        Seq::empty(),
                    );
                    &&& n == change_of(
                        final(s),
                        device_id,
                        *final(inode),
                        *final(allocated),
                        *final(allocated_count),
                        *final(freed),
                        *final(freed_count),
                    )
                    &&& turned(old(s), final(s), device_id, n.v)
                    &&& final(s).usable(device_id)
                    &&& match r {
                        Err(e) => res == Err::<Seq<u32>, FsError>(e),
                        Ok(k) => {
                            &&& k == spanned(start as int, len as int) <= 8
                            &&& res == Ok::<Seq<u32>, FsError>(final(lbas)@.take(k as int))
                            &&& forall|j: int| 0 <= j < k ==> (#[trigger] final(lbas)@[j]) < size
                        },
                    }
                }
            }),
    {
        let ghost size = s.size(device_id) as int;
        let ghost c = change_of(
            s,
            device_id,
            *inode,
            *allocated,
            *allocated_count,
            *freed,
            *freed_count,
        );
        let ghost end = start + len;
        let ghost fits = c.span_fits(start as int, end, size);
        let ghost exact = s.usable(device_id);
        let ghost mut good = true;
        proof {
            if exact {
                lemma_healthy_is_tidy(s);
            }
        }
        let mut k: usize = 0;
        let mut done: usize = 0;
        assert(lbas@.take(0) =~= Seq::empty());
        while done < len
            invariant
                exact == old(s).usable(device_id),
                fits == c.span_fits(start as int, end, size),
                fits ==> good,
                exact ==> tidy(old(s)),
                exact && s.steady_since(old(s)) ==> tidy(s),
                exact && s.steady_since(old(s)) && !good ==> overdue(s, device_id) || beyond(
                    lbas@,
                    k as int,
                    size,
                ),
                size == old(s).size(device_id),
                c == change_of(
                    old(s),
                    device_id,
                    *old(inode),
                    *old(allocated),
                    *old(allocated_count),
                    *old(freed),
                    *old(freed_count),
                ),
                end == start + len,
                start % 4096 + len <= MAX_TRANSACTION_BYTES,
                end <= u64::MAX,
                s.wf(),
                s.same_devices(old(s)),
                told(old(s), s, Ok::<(), FsError>(())),
                tables_spared(old(s), s, device_id),
                s.aged_at_most(old(s), 9 * done),
                done <= len,
                k <= 8,
                done < len ==> start % 4096 + done == (if k == 0 {
                    (start % 4096) as int
                } else {
                    k * 4096
                }),
                done == len ==> k == spanned(start as int, len as int),
                exact && good && s.steady_since(old(s)) ==> {
                    let now = change_of(
                        s,
                        device_id,
                        *inode,
                        *allocated,
                        *allocated_count,
                        *freed,
                        *freed_count,
                    );
                    &&& turned(old(s), s, device_id, s.vol(device_id))
                    &&& s.usable(device_id)
                    &&& now.span_fits(start + done, end, size) == fits
                    &&& now.map_span(start + done, end, size, lbas@.take(k as int)) == c.map_span(
                        start as int,
                        end,
                        size,
                        Seq::empty(),
                    )
                    &&& forall|j: int| 0 <= j < k ==> (#[trigger] lbas@[j]) < size
                },
            decreases len - done,
        {
            let at: u64 = start + done as u64;
            let logical: u64 = at / 4096;
            let off: usize = (at % 4096) as usize;
            let room: usize = BLOCK_SIZE - off;
            let part: usize = if room < len - done {
                room
            } else {
                len - done
            };
            let l: usize = if logical < FILE_BLOCKS as u64 {
                logical as usize
            } else {
                FILE_BLOCKS
            };
            assert(k < 8);
            assert(next_pos(at as int, end) == at + part);
            if inode.blocks_count > u64::MAX - 2 {
                return Err(FsError::CorruptMetadata);
            }
            let ghost before = *s;
            let ghost was = change_of(
                s,
                device_id,
                *inode,
                *allocated,
                *allocated_count,
                *freed,
                *freed_count,
            );
            proof {
                lemma_volume_ok(s, device_id);
                if exact && good && s.steady_since(old(s)) {
                    assert(was.map_block(logical as int, size) == was.map_block(l as int, size));
                    assert(was.finds_room(logical as int, size) == was.finds_room(l as int, size));
                }
            }
            let found = InodeManager::bmap_alloc(
                s,
                device_id,
                inode,
                l,
                allocated,
                allocated_count,
                freed,
                freed_count,
            );
            proof {
                lemma_tables_spared(old(s), &before, s, device_id);
            }
            let lba: u32 = match found {
                Err(e) => {
                    return Err(e);
                },
                Ok(lba) => lba,
            };
            let ghost list = lbas@;
            lbas[k] = lba;
            proof {
                if exact && s.steady_since(old(s)) && !good {
                    assert(before.steady_since(old(s)));
                    if beyond(list, k as int, size) {
                        let j = choose|j: int| 0 <= j < k && (#[trigger] list[j]) >= size;
                        assert(lbas@[j] >= size);
                    }
                }
                if good && !(was.finds_room(l as int, size) && lba < size) {
                    if exact && s.steady_since(old(s)) {
                        assert(before.steady_since(old(s)));
                        assert(lbas@[k as int] == lba);
                        assert(!fits);
                    }
                    good = !exact || !s.steady_since(old(s)) || fits;
                }
                if exact && good && s.steady_since(old(s)) {
                    assert(before.steady_since(old(s)));
                    assert(lbas@.take(k + 1) =~= list.take(k as int).push(lba));
                    assert forall|m: u8| m != device_id implies (#[trigger] s.vol(m)) == old(s).vol(
                        m,
                    ) by {
                        assert(before.vol(m) == old(s).vol(m));
                    }
                }
            }
            k = k + 1;
            done = done + part;
        }
        Ok(k)
    }

    /// Writes the bytes of a span into the blocks listed.
    #[verifier::rlimit(40)]
    #[verifier::spinoff_prover]
    fn write_blocks<A: BlockDevice>(
        s: &mut Storage<A>,
        device_id: u8,
        start: u64,
        chunk: &[u8],
        lbas: &[u32; 8],
    ) -> (r: Result<(), FsError>)
        requires
            old(s).wf(),
            start % 4096 + chunk@.len() <= MAX_TRANSACTION_BYTES,
            start + chunk@.len() <= u64::MAX,
        ensures
            final(s).wf(),
            final(s).same_devices(old(s)),
            told(old(s), final(s), r),
            holds_out(old(s), final(s), device_id, r),
            forall|b: int|
                #![trigger spares(old(s), final(s), device_id, b)]
                #![trigger resting(old(s), device_id, b)]
                !among(lbas@, spanned(start as int, chunk@.len() as int), b) ==> spares(
                    old(s),
                    final(s),
                    device_id,
                    b,
                ),
            r is Ok && beyond(
                lbas@,
                spanned(start as int, chunk@.len() as int),
                old(s).size(device_id) as int,
            ) ==> overdue(final(s), device_id),
            final(s).aged_at_most(old(s), 2 * chunk@.len() as int),
            old(s).usable(device_id) && final(s).steady_since(old(s)) && (forall|j: int|
                0 <= j < spanned(start as int, chunk@.len() as int) ==> (#[trigger] lbas@[j])
                    < old(s).size(device_id)) ==> {
                &&& r is Ok
                &&& turned(
                    old(s),
                    final(s),
                    device_id,
                    data_written(
                        old(s).vol(device_id),
                        start as int,
                        start + chunk@.len(),
                        start as int,
                        chunk@,
                        lbas@,
                        0,
                    ),
                )
                &&& final(s).usable(device_id)
            },
    {
        let len: usize = chunk.len();
        let ghost exact = s.usable(device_id) && (forall|j: int|
            0 <= j < spanned(start as int, len as int) ==> (#[trigger] lbas@[j]) < s.size(
                device_id,
            ));
        let ghost end = start + len;
        let mut k: usize = 0;
        let mut done: usize = 0;
        let mut data: [u8; BLOCK_SIZE] = [0u8; BLOCK_SIZE];
        while done < len
            invariant
                len == chunk@.len(),
                exact == (old(s).usable(device_id) && (forall|j: int|
                    0 <= j < spanned(start as int, len as int) ==> (#[trigger] lbas@[j]) < old(
                        s,
                    ).size(device_id))),
                end == start + len,
                start % 4096 + len <= MAX_TRANSACTION_BYTES,
                end <= u64::MAX,
                s.wf(),
                s.same_devices(old(s)),
                told(old(s), s, Ok::<(), FsError>(())),
                forall|b: int|
                    !among(lbas@, spanned(start as int, len as int), b) ==> #[trigger] spares(
                        old(s),
                        s,
                        device_id,
                        b,
                    ),
                s.aged_at_most(old(s), 2 * done),
                done <= len,
                k <= 8,
                done < len ==> start % 4096 + done == (if k == 0 {
                    (start % 4096) as int
                } else {
                    k * 4096
                }),
                done == len ==> k == spanned(start as int, len as int),
                overdue(old(s), device_id) ==> overdue(s, device_id),
                tidy(old(s)) && old(s).online(device_id) && s.steady_since(old(s)) ==> tidy(s),
                beyond(lbas@, k as int, old(s).size(device_id) as int) ==> overdue(s, device_id),
                exact && s.steady_since(old(s)) ==> {
                    &&& turned(old(s), s, device_id, s.vol(device_id))
                    &&& s.usable(device_id)
                    &&& data_written(
                        s.vol(device_id),
                        start + done,
                        end,
                        start as int,
                        chunk@,
                        lbas@,
                        k as int,
                    ) == data_written(
                        old(s).vol(device_id),
                        start as int,
                        end,
                        start as int,
                        chunk@,
                        lbas@,
                        0,
                    )
                },
            decreases len - done,
        {
            let at: u64 = start + done as u64;
            let off: usize = (at % 4096) as usize;
            let room: usize = BLOCK_SIZE - off;
            let part: usize = if room < len - done {
                room
            } else {
                len - done
            };
            assert(k < 8);
            assert(next_pos(at as int, end) == at + part);
            assert(k < spanned(start as int, len as int));
            let lba: u32 = lbas[k];
            let ghost before = *s;
            let ghost v = s.vol(device_id);
            proof {
                lemma_volume_ok(s, device_id);
                if exact {
                    assert(lbas@[k as int] < old(s).size(device_id));
                }
            }
            if off > 0 || part < BLOCK_SIZE {
                let res = read_block_cached(s, device_id, lba as u64, &mut data);
                proof {
                    assert forall|b: int|
                        !among(lbas@, spanned(start as int, len as int), b) implies #[trigger] spares(
                        old(s),
                        s,
                        device_id,
                        b,
                    ) by {
                        assert(spares(old(s), &before, device_id, b));
                        assert(spares(&before, s, device_id, b));
                    }
                }
                if let Err(e) = res {
                    return Err(e);
                }
            }
            let ghost read = *s;
            let ghost held = data@;
            write_bytes(&mut data, off, slice_subrange(chunk, done, done + part));
            assert(data@.len() == BLOCK_SIZE);
            let res = write_block_cached(s, device_id, lba as u64, &data);
            proof {
                assert forall|b: int|
                    !among(lbas@, spanned(start as int, len as int), b) implies #[trigger] spares(
                    old(s),
                    s,
                    device_id,
                    b,
                ) by {
                    assert(lbas@[k as int] != b);
                    assert(spares(old(s), &read, device_id, b) && spares(&read, s, device_id, b));
                }
            }
            if let Err(e) = res {
                return Err(e);
            }
            proof {
                let end_of = old(s).size(device_id) as int;
                if beyond(lbas@, k + 1, end_of) {
                    if lba >= end_of {
                        lemma_overdue(s, device_id, lba as int);
                    } else {
                        let j = choose|j: int| 0 <= j < k + 1 && (#[trigger] lbas@[j]) >= end_of;
                        assert(j < k);
                        assert(beyond(lbas@, k as int, end_of));
                    }
                }
                if exact && s.steady_since(old(s)) {
                    assert(before.steady_since(old(s)) && read.steady_since(old(s)));
                    assert(read.vol(device_id) == v);
                    let piece = chunk@.subrange(done as int, done + part);
                    assert(data@ =~= overwrite(v[lba as int], off as int, piece));
                    assert forall|m: u8| m != device_id implies (#[trigger] s.vol(m)) == old(s).vol(
                        m,
                    ) by {
                        assert(read.vol(m) == before.vol(m));
                        assert(before.vol(m) == old(s).vol(m));
                    }
                    assert(start + done - start == done);
                }
            }
            k = k + 1;
            done = done + part;
        }
        Ok(())
    }

    /// Commits a change that was announced and whose data is on the device: stores the record,
    /// installs the new inode, gives back what the change gave up, and clears the journal. Each of
    /// the three is on the device before the next begins.
    #[verifier::rlimit(40)]
    #[verifier::spinoff_prover]
    fn complete_tx<A: BlockDevice>(s: &mut Storage<A>, device_id: u8, jrn: DiskJournalBlock) -> (r:
        Result<(), FsError>)
        requires
            old(s).wf(),
        ensures
            final(s).wf(),
            final(s).same_devices(old(s)),
            told(old(s), final(s), r),
            final(s).aged_at_most(old(s), 6),
            old(s).usable(device_id) && final(s).steady_since(old(s)) && is_inode_number(
                jrn.target_inode_num,
            ) ==> {
                &&& r is Ok
                &&& turned(
                    old(s),
                    final(s),
                    device_id,
                    completed(old(s).vol(device_id), jrn.sealed()),
                )
                &&& forall|b: int| #[trigger] resting(final(s), device_id, b)
                &&& final(s).usable(device_id)
            },
            old(s).usable(device_id) && final(s).next_lru_seq < u64::MAX && is_inode_number(
                jrn.target_inode_num,
            ) && (forall|b: int| #[trigger] resting(old(s), device_id, b)) ==> completion_fate(
                old(s).vol(device_id),
                final(s).kept(device_id),
                completed(old(s).vol(device_id), jrn.sealed()),
                jrn.sealed(),
            ),
    {
        let ghost v = s.vol(device_id);
        let ghost before = *s;
        let ghost j = jrn.sealed();
        let ghost w = completed(v, j);
        let ghost at = inode_block(jrn.target_inode_num as int);
        let ghost calm = s.usable(device_id) && is_inode_number(jrn.target_inode_num) && (forall|
            b: int,
        | #[trigger] resting(s, device_id, b));
        proof {
            if calm {
                assert forall|b: int| s.stored(device_id)[b] == #[trigger] v[b] by {
                    assert(resting(s, device_id, b));
                    lemma_resting(s, device_id, b);
                }
            }
        }
        let stored = Journal::write_journal_block(s, device_id, jrn);
        let ghost s1 = *s;
        proof {
            if calm {
                lemma_still_resting(&before, s, device_id, v, JOURNAL_BLOCK as int);
                assert(completion_fate(v, s.kept(device_id), w, j));
            }
        }
        if let Err(e) = stored {
            return Err(e);
        }
        proof {
            if calm {
                assert(committed_to(s, device_id, v, j)) by {
                    assert(record_in_place(s, device_id, j));
                    assert forall|b: int| b >= DATA_BLOCK_START implies #[trigger] resting(
                        s,
                        device_id,
                        b,
                    ) && s.stored(device_id)[b] == v[b] by {}
                }
            }
        }
        let installed = InodeManager::write_inode(
            s,
            device_id,
            jrn.target_inode_num,
            jrn.new_inode_image,
        );
        let ghost s2 = *s;
        proof {
            if calm {
                lemma_committed(&s1, s, device_id, v, w, j, at);
            }
        }
        if let Err(e) = installed {
            return Err(e);
        }
        if jrn.freed_blocks_count > 0 {
            let mut bm: [u8; BLOCK_SIZE] = [0u8; BLOCK_SIZE];
            let got = read_block_cached(s, device_id, BLOCK_BITMAP_BLOCK, &mut bm);
            let ghost read = *s;
            proof {
                if calm {
                    lemma_committed(&s2, s, device_id, v, w, j, -1);
                }
            }
            if let Err(e) = got {
                return Err(e);
            }
            mark_all(&mut bm, &jrn.freed_blocks, jrn.freed_blocks_count, false);
            let put = write_block_cached(s, device_id, BLOCK_BITMAP_BLOCK, &bm);
            proof {
                if calm {
                    lemma_committed(&read, s, device_id, v, w, j, BLOCK_BITMAP_BLOCK as int);
                }
            }
            if let Err(e) = put {
                return Err(e);
            }
        }
        let ghost s3 = *s;
        let ghost good = old(s).usable(device_id) && is_inode_number(jrn.target_inode_num);
        proof {
            if good && s3.steady_since(old(s)) {
                let u = with_inode(
                    with_record(v, j),
                    jrn.target_inode_num as int,
                    jrn.new_inode_image.sealed(),
                );
                assert(s1.vol(device_id) == with_record(v, j));
                assert(s2.vol(device_id) == u);
                assert(s3.vol(device_id) =~= released(u, jrn.freed_blocks@, jrn.freed_blocks_count));
                assert forall|m: u8| m != device_id implies (#[trigger] s3.vol(m)) == old(s).vol(
                    m,
                ) by {
                    assert(s1.vol(m) == old(s).vol(m));
                    assert(s2.vol(m) == s1.vol(m));
                }
            }
        }
        let synced = sync_all_buffers(s, device_id);
        let ghost s4 = *s;
        proof {
            if calm {
                lemma_committed(&s3, s, device_id, v, w, j, -1);
            }
        }
        if let Err(e) = synced {
            return Err(e);
        }
        let r = Journal::clear(s, device_id, 2);
        proof {
            if good && s.next_lru_seq < u64::MAX {
                assert(s4.steady_since(old(s)));
                assert(s4.vol(device_id) == s3.vol(device_id));
                assert(w == with_record(s4.vol(device_id), cleared_record(2)));
                assert forall|b: int| b != JOURNAL_BLOCK implies #[trigger] resting(s, device_id, b)
                    && s.kept(device_id)[b] == w[b] by {
                    assert(resting(&s4, device_id, b));
                    lemma_resting(&s4, device_id, b);
                    assert(spares(&s4, s, device_id, b));
                    lemma_resting(s, device_id, b);
                }
                if calm {
                    assert(resting(&s4, device_id, JOURNAL_BLOCK as int));
                    lemma_resting(&s4, device_id, JOURNAL_BLOCK as int);
                    assert(s4.stored(device_id)[JOURNAL_BLOCK as int] == j.bytes());
                    assert forall|b: int| b >= DATA_BLOCK_START implies (#[trigger] s.kept(
                        device_id,
                    )[b]) == v[b] by {
                        assert(resting(s, device_id, b));
                    }
                    assert(resting(s, device_id, at));
                }
            }
            if good && s.steady_since(old(s)) {
                assert forall|b: int| #[trigger] resting(s, device_id, b) by {
                    if b == JOURNAL_BLOCK {
                        assert(record_in_place(s, device_id, cleared_record(2)));
                    }
                }
                assert forall|m: u8| m != device_id implies (#[trigger] s.vol(m)) == old(s).vol(
                    m,
                ) by {
                    assert(s.vol(m) == s4.vol(m));
                    assert(s4.vol(m) == s3.vol(m));
                    assert(s3.vol(m) == old(s).vol(m));
                }
            }
        }
        r
    }

    /// Writes a piece of a file: maps its blocks, announces the change in the journal, writes the
    /// data, commits, installs the new inode and completes. When it succeeds, the device holds
    /// all of it.
    #[verifier::rlimit(60)]
    #[verifier::spinoff_prover]
    fn write_chunk_tx<A: BlockDevice>(
        s: &mut Storage<A>,
        device_id: u8,
        inode_num: u32,
        start: u64,
        chunk: &[u8],
    ) -> (r: Result<usize, FsError>)
        requires
            old(s).wf(),
            start % 4096 + chunk@.len() <= MAX_TRANSACTION_BYTES,
            start + chunk@.len() <= u64::MAX,
        ensures
            final(s).wf(),
            final(s).same_devices(old(s)),
            told(old(s), final(s), r),
            final(s).aged_at_most(old(s), 11 * chunk@.len() as int + 10),
            old(s).usable(device_id) && final(s).steady_since(old(s)) && !piece_fits(
                old(s).vol(device_id),
                old(s).size(device_id) as int,
                inode_num,
                start as int,
                chunk@.len() as int,
            ) ==> r is Err && is_lack(r->Err_0),
            r is Ok ==> r->Ok_0 == chunk@.len(),
            old(s).usable(device_id) && final(s).steady_since(old(s)) && piece_fits(
                old(s).vol(device_id),
                old(s).size(device_id) as int,
                inode_num,
                start as int,
                chunk@.len() as int,
            ) ==> {
                let (v, res) = piece_written(
                    old(s).vol(device_id),
                    old(s).size(device_id) as int,
                    inode_num,
                    start as int,
                    chunk@,
                );
                &&& r == res
                &&& turned(old(s), final(s), device_id, v)
                &&& final(s).usable(device_id)
                &&& r is Ok ==> {
                    &&& final(s).stored(device_id) == v
                    &&& forall|b: int| #[trigger] resting(final(s), device_id, b)
                }
            },
            piece_begins_calm(
                old(s),
                device_id,
                inode_num,
                start as int,
                chunk@.len() as int,
            ) && final(s).next_lru_seq < u64::MAX ==> piece_fate(
                old(s).vol(device_id),
                final(s).kept(device_id),
                old(s).size(device_id) as int,
                inode_num,
                start as int,
                chunk@,
            ),
    {
        let ghost v = s.vol(device_id);
        let ghost size = s.size(device_id) as int;
        let ghost fits = s.usable(device_id) && piece_fits(
            v,
            size,
            inode_num,
            start as int,
            chunk@.len() as int,
        );
        let ghost calm = piece_begins_calm(
            s,
            device_id,
            inode_num,
            start as int,
            chunk@.len() as int,
        );
        let ghost end = start + chunk@.len();
        let ghost at = inode_block(inode_num as int);
        proof {
            if calm {
                lemma_resting(s, device_id, at);
                lemma_resting(s, device_id, JOURNAL_BLOCK as int);
            }
        }
        let got = InodeManager::read_inode(s, device_id, inode_num);
        let ghost s0 = *s;
        proof {
            if calm {
                lemma_untouched(old(s), s, device_id, at);
            }
        }
        let old_inode: DiskInode = match got {
            Err(e) => {
                return Err(e);
            },
            Ok(i) => i,
        };
        let mut new_inode: DiskInode = old_inode;
        let mut allocated: [u32; 10] = [0u32; 10];
        let mut allocated_count: usize = 0;
        let mut freed: [u32; 10] = [0u32; 10];
        let mut freed_count: usize = 0;
        let mut lbas: [u32; 8] = [0u32; 8];
        let ghost c0 = change_of(s, device_id, new_inode, allocated, 0, freed, 0);
        proof {
            if fits && s.steady_since(old(s)) {
                assert(c0 == fresh_change(v, old_inode));
            }
        }
        let mapped = Self::map_blocks(
            s,
            device_id,
            &mut new_inode,
            start,
            chunk.len(),
            &mut allocated,
            &mut allocated_count,
            &mut freed,
            &mut freed_count,
            &mut lbas,
        );
        let ghost s1 = *s;
        proof {
            if calm {
                lemma_untouched(&s0, s, device_id, at);
            }
        }
        let k: usize = match mapped {
            Err(e) => {
                proof {
                    if fits && s.steady_since(old(s)) {
                        assert forall|m: u8| m != device_id implies (#[trigger] s.vol(m)) == old(
                            s,
                        ).vol(m) by {
                            assert(s0.vol(m) == old(s).vol(m));
                        }
                    }
                }
                return Err(e);
            },
            Ok(k) => k,
        };
        let reached: u64 = start + chunk.len() as u64;
        if new_inode.size_bytes < reached {
            new_inode.size_bytes = reached;
        }
        new_inode.recompute_checksum();
        let mut jrn: DiskJournalBlock = DiskJournalBlock::empty();
        jrn.sequence = 1;
        jrn.op_type = JournalOpType::Write.code();
        jrn.state = JournalState::Intent.code();
        jrn.target_inode_num = inode_num;
        jrn.allocated_blocks_count = allocated_count as u32;
        jrn.freed_blocks_count = freed_count as u32;
        jrn.allocated_blocks = allocated;
        jrn.freed_blocks = freed;
        jrn.old_inode_image = old_inode;
        jrn.new_inode_image = new_inode;
        let ghost intent = jrn.sealed();
        let ghost list = lbas@.take(k as int);
        proof {
            if fits && s.steady_since(old(s)) {
                let (c, res) = fresh_change(v, old_inode).map_span(
                    start as int,
                    end,
                    size,
                    Seq::empty(),
                );
                assert(res == Ok::<Seq<u32>, FsError>(list));
                assert(new_inode == grown(c.inode, end).sealed());
                assert(jrn == write_record(
                    inode_num,
                    old_inode,
                    new_inode,
                    c,
                    JournalState::Intent,
                ));
                assert(intent == piece_record(
                    v,
                    size,
                    inode_num,
                    start as int,
                    chunk@,
                    JournalState::Intent,
                ));
                if calm {
                    lemma_volume_ok(old(s), device_id);
                    lemma_span_lies_in_data(v, size, old_inode, start as int, end);
                    assert forall|j: int| 0 <= j < k implies (#[trigger] lbas@[j])
                        >= DATA_BLOCK_START by {
                        assert(list[j] == lbas@[j]);
                    }
                }
            }
        }
        let announced = Journal::write_journal_block(s, device_id, jrn);
        let ghost s2 = *s;
        proof {
            if calm && s2.next_lru_seq < u64::MAX {
                assert(s1.steady_since(old(s)));
                assert(spares(&s1, s, device_id, at));
                lemma_resting(s, device_id, at);
            }
        }
        if let Err(e) = announced {
            return Err(e);
        }
        let written = Self::write_blocks(s, device_id, start, chunk, &lbas);
        let ghost s3 = *s;
        proof {
            if calm && s3.next_lru_seq < u64::MAX {
                assert(s1.steady_since(old(s)));
                assert(!among(lbas@, k as int, at) && !among(lbas@, k as int, JOURNAL_BLOCK as int));
                lemma_untouched(&s2, s, device_id, at);
            }
        }
        if let Err(e) = written {
            return Err(e);
        }
        let synced = sync_all_buffers(s, device_id);
        let ghost s4 = *s;
        proof {
            if calm && s4.next_lru_seq < u64::MAX {
                assert(s1.steady_since(old(s)));
                lemma_untouched(&s3, s, device_id, at);
            }
        }
        if let Err(e) = synced {
            return Err(e);
        }
        jrn.state = JournalState::Committed.code();
        let ghost u = s4.vol(device_id);
        let completed_tx = Self::complete_tx(s, device_id, jrn);
        proof {
            if fits && s.next_lru_seq < u64::MAX {
                assert(s4.steady_since(old(s)) && s3.steady_since(old(s)) && s2.steady_since(old(s))
                    && s1.steady_since(old(s)));
                let (c, res) = fresh_change(v, old_inode).map_span(
                    start as int,
                    end,
                    size,
                    Seq::empty(),
                );
                lemma_data_written_to(
                    s2.vol(device_id),
                    start as int,
                    end,
                    start as int,
                    chunk@,
                    lbas@,
                    list,
                    0,
                );
                assert(jrn == write_record(
                    inode_num,
                    old_inode,
                    new_inode,
                    c,
                    JournalState::Committed,
                ));
                assert(s2.vol(device_id) == with_record(c.v, intent));
                assert(u == s3.vol(device_id));
                let w = piece_written(v, size, inode_num, start as int, chunk@).0;
                assert(w == completed(u, jrn.sealed()));
                assert(is_inode_number(inode_num));
                if calm {
                    lemma_piece_fate(
                        v,
                        u,
                        s.kept(device_id),
                        size,
                        inode_num,
                        start as int,
                        chunk@,
                    );
                }
            }
        }
        if let Err(e) = completed_tx {
            return Err(e);
        }
        proof {
            if fits && s.steady_since(old(s)) {
                assert forall|m: u8| m != device_id implies (#[trigger] s.vol(m)) == old(s).vol(
                    m,
                ) by {
                    assert(s0.vol(m) == old(s).vol(m));
                    assert(s1.vol(m) == s0.vol(m));
                    assert(s2.vol(m) == s1.vol(m));
                    assert(s3.vol(m) == s2.vol(m));
                    assert(s4.vol(m) == s3.vol(m));
                }
                assert(s.stored(device_id) =~= s.vol(device_id)) by {
                    assert forall|b: int| (#[trigger] s.stored(device_id)[b]) == s.vol(
                        device_id,
                    )[b] by {
                        assert(resting(s, device_id, b));
                        lemma_resting(s, device_id, b);
                    }
                }
            }
        }
        Ok(chunk.len())
    }
}

/// A piece can be written to a file in order, and nothing of its inode or of the journal is still
/// to be written back.
pub open spec fn piece_begins_calm<A: BlockDevice>(
    s: &Storage<A>,
    id: u8,
    n: u32,
    start: int,
    len: int,
) -> bool {
    &&& s.usable(id)
    &&& reading(s.vol(id), n) is Ok
    &&& file_ok(s.vol(id), s.size(id) as int, reading(s.vol(id), n)->Ok_0)
    &&& piece_fits(s.vol(id), s.size(id) as int, n, start, len)
    &&& resting(s, id, inode_block(n as int))
    &&& resting(s, id, JOURNAL_BLOCK as int)
}

/// The inode of a file and the journal are as they were.
proof fn lemma_untouched<A: BlockDevice>(
    before: &Storage<A>,
    after: &Storage<A>,
    id: u8,
    at: int,
)
    requires
        resting(before, id, at),
        resting(before, id, JOURNAL_BLOCK as int),
        spares(before, after, id, at),
        spares(before, after, id, JOURNAL_BLOCK as int),
    ensures
        resting(after, id, at),
        resting(after, id, JOURNAL_BLOCK as int),
        after.stored(id)[at] == before.stored(id)[at],
        after.stored(id)[JOURNAL_BLOCK as int] == before.stored(id)[JOURNAL_BLOCK as int],
        after.kept(id)[at] == before.stored(id)[at],
        after.kept(id)[JOURNAL_BLOCK as int] == before.stored(id)[JOURNAL_BLOCK as int],
{
    lemma_resting(after, id, at);
    lemma_resting(after, id, JOURNAL_BLOCK as int);
}

/// A record is in the journal and the data blocks hold what they should; all of that would survive.
spec fn committed_to<A: BlockDevice>(
    s: &Storage<A>,
    id: u8,
    v: Volume,
    j: DiskJournalBlock,
) -> bool {
    &&& resting(s, id, JOURNAL_BLOCK as int)
    &&& s.stored(id)[JOURNAL_BLOCK as int] == j.bytes()
    &&& forall|b: int|
        b >= DATA_BLOCK_START ==> #[trigger] resting(s, id, b) && s.stored(id)[b] == v[b]
}

/// A committed change stays so while other blocks are written.
proof fn lemma_committed<A: BlockDevice>(
    before: &Storage<A>,
    after: &Storage<A>,
    id: u8,
    v: Volume,
    w: Volume,
    j: DiskJournalBlock,
    x: int,
)
    requires
        committed_to(before, id, v, j),
        x < DATA_BLOCK_START,
        x != JOURNAL_BLOCK,
        forall|b: int| b != x ==> #[trigger] spares(before, after, id, b),
    ensures
        committed_to(after, id, v, j),
        completion_fate(v, after.kept(id), w, j),
{
    assert(spares(before, after, id, JOURNAL_BLOCK as int));
    lemma_resting(after, id, JOURNAL_BLOCK as int);
    assert forall|b: int| b >= DATA_BLOCK_START implies #[trigger] resting(after, id, b)
        && after.stored(id)[b] == v[b] && after.kept(id)[b] == v[b] by {
        assert(resting(before, id, b));
        assert(spares(before, after, id, b));
        lemma_resting(after, id, b);
    }
    assert forall|b: int| b >= DATA_BLOCK_START implies (#[trigger] after.kept(id)[b]) == v[b] by {
        assert(resting(after, id, b));
    }
}

/// Wherever the completion of a piece ended, that is an end of the piece.
proof fn lemma_piece_fate(
    v: Volume,
    announced: Volume,
    kept: Volume,
    size: int,
    n: u32,
    start: int,
    chunk: Seq<u8>,
)
    requires
        is_inode_number(n),
        piece_written(v, size, n, start, chunk).1 is Ok,
        ({
            let j = piece_record(v, size, n, start, chunk, JournalState::Committed);
            let w = completed(announced, j);
            &&& piece_written(v, size, n, start, chunk).0 == w
            &&& completion_fate(announced, kept, w, j)
            &&& j.target_inode_num == n
        }),
        announced[JOURNAL_BLOCK as int] == piece_record(
            v,
            size,
            n,
            start,
            chunk,
            JournalState::Intent,
        ).bytes(),
        announced[inode_block(n as int)] == v[inode_block(n as int)],
    ensures
        piece_fate(v, kept, size, n, start, chunk),
{
    let w = piece_written(v, size, n, start, chunk).0;
    assert forall|b: int| b >= DATA_BLOCK_START implies (#[trigger] kept[b]) == w[b] by {
        assert(kept[b] == announced[b]);
    }
}

/// Blocks at rest that a step spares would survive as they are.
proof fn lemma_still_resting<A: BlockDevice>(
    before: &Storage<A>,
    after: &Storage<A>,
    id: u8,
    v: Volume,
    x: int,
)
    requires
        forall|b: int| b != x ==> #[trigger] resting(before, id, b),
        forall|b: int| b != x ==> before.stored(id)[b] == #[trigger] v[b],
        forall|b: int| b != x ==> #[trigger] spares(before, after, id, b),
    ensures
        forall|b: int| b != x ==> #[trigger] resting(after, id, b),
        forall|b: int| b != x ==> after.stored(id)[b] == #[trigger] v[b],
        forall|b: int| b != x ==> (#[trigger] after.kept(id)[b]) == v[b],
{
    assert forall|b: int| b != x implies resting(after, id, b) && after.stored(id)[b]
        == #[trigger] v[b] && after.kept(id)[b] == v[b] by {
        assert(spares(before, after, id, b));
        assert(resting(before, id, b));
        lemma_resting(after, id, b);
    }
    assert forall|b: int| b != x implies #[trigger] resting(after, id, b) by {
        assert(after.stored(id)[b] == v[b]);
    }
    assert forall|b: int| b != x implies (#[trigger] after.kept(id)[b]) == v[b] by {
        assert(after.stored(id)[b] == v[b]);
    }
}

/// What is written does not depend on entries of the list beyond the span.
proof fn lemma_data_written_to(
    v: Volume,
    pos: int,
    end: int,
    start: int,
    chunk: Seq<u8>,
    a: Seq<u32>,
    b: Seq<u32>,
    k: int,
)
    requires
        0 <= start <= pos <= end,
        0 <= k,
        k + spanned(pos, end - pos) <= b.len() <= a.len(),
        forall|j: int| 0 <= j < b.len() ==> (#[trigger] a[j]) == b[j],
    ensures
        data_written(v, pos, end, start, chunk, a, k) == data_written(
            v,
            pos,
            end,
            start,
            chunk,
            b,
            k,
        ),
    decreases end - pos,
{
    if pos < end {
        let q = next_pos(pos, end);
        assert(a[k] == b[k]);
        lemma_data_written_to(
            v.insert(
                b[k] as int,
                overwrite(v[b[k] as int], pos % 4096, chunk.subrange(pos - start, q - start)),
            ),
            q,
            end,
            start,
            chunk,
            a,
            b,
            k + 1,
        );
    }
}

/// The length of the first piece of what is written: a piece touches as many blocks as fit into one
/// change, and ends with a block if more follows.
pub open spec fn first_piece(pos: int, len: int) -> int {
    let m = MAX_TRANSACTION_BYTES - pos % 4096;
    if len < m {
        len
    } else {
        m
    }
}

/// What writing to a file piece by piece leaves, how many bytes were written, and why no more were.
pub open spec fn pieces_written(v: Volume, size: int, n: u32, pos: int, data: Seq<u8>) -> (
    Volume,
    int,
    Option<FsError>,
)
    decreases data.len(),
{
    if data.len() == 0 {
        (v, 0, None)
    } else {
        let m = first_piece(pos, data.len() as int);
        let (w, r) = piece_written(v, size, n, pos, data.take(m));
        match r {
            Err(e) => (w, 0, Some(e)),
            Ok(_) => {
                let (u, k, e) = pieces_written(w, size, n, pos + m, data.skip(m));
                (u, m + k, e)
            },
        }
    }
}

/// Every piece that is written finds room on the device.
pub open spec fn pieces_fit(v: Volume, size: int, n: u32, pos: int, data: Seq<u8>) -> bool
    decreases data.len(),
{
    data.len() > 0 ==> {
        let m = first_piece(pos, data.len() as int);
        let (w, r) = piece_written(v, size, n, pos, data.take(m));
        piece_fits(v, size, n, pos, m) && (r is Ok ==> pieces_fit(w, size, n, pos + m, data.skip(m)))
    }
}

/// How many bytes are written before the first piece that finds no room on the device.
pub open spec fn fitting(v: Volume, size: int, n: u32, pos: int, data: Seq<u8>) -> int
    decreases data.len(),
{
    if data.len() == 0 {
        0
    } else {
        let m = first_piece(pos, data.len() as int);
        let (w, r) = piece_written(v, size, n, pos, data.take(m));
        if !piece_fits(v, size, n, pos, m) || r is Err {
            0
        } else {
            m + fitting(w, size, n, pos + m, data.skip(m))
        }
    }
}

/// What a device would hold when bytes are written to a file of a volume piece by piece, wherever
/// that ended: all of a number of pieces, and what an end of the next one leaves.
pub open spec fn write_fate(
    v: Volume,
    kept: Volume,
    size: int,
    n: u32,
    pos: int,
    data: Seq<u8>,
) -> bool
    decreases data.len(),
{
    if data.len() == 0 {
        forall|b: int| (#[trigger] kept[b]) == v[b]
    } else {
        let m = first_piece(pos, data.len() as int);
        let (w, r) = piece_written(v, size, n, pos, data.take(m));
        ||| piece_fate(v, kept, size, n, pos, data.take(m))
        ||| r is Ok && write_fate(w, kept, size, n, pos + m, data.skip(m))
    }
}

/// Bytes can be written to a file in order, and nothing of its inode or of the journal is still to
/// be written back.
pub open spec fn write_begins_calm<A: BlockDevice>(
    s: &Storage<A>,
    id: u8,
    n: u32,
    pos: int,
    data: Seq<u8>,
) -> bool {
    &&& s.usable(id)
    &&& reading(s.vol(id), n) is Ok
    &&& file_ok(s.vol(id), s.size(id) as int, reading(s.vol(id), n)->Ok_0)
    &&& pieces_fit(s.vol(id), s.size(id) as int, n, pos, data)
    &&& resting(s, id, inode_block(n as int))
    &&& resting(s, id, JOURNAL_BLOCK as int)
}

/// An open file after bytes were written to it.
pub open spec fn advanced(o: StorageObject, written: int) -> StorageObject {
    StorageObject {
        cursor_offset: (o.cursor_offset + written) as u64,
        cached_size: if o.cached_size < o.cursor_offset + written {
            (o.cursor_offset + written) as u64
        } else {
            o.cached_size
        },
        ..o
    }
}

/// A file can be written to through this slot.
pub open spec fn is_writable(t: &StorageObjectTable, idx: usize) -> bool {
    idx < MAX_OPEN_STORAGE_OBJECTS && t.slots@[idx as int].occupied && t.slots@[idx as int].open_flags
        & O_WRITE != 0
}

impl FileManager {
    /// Writes to a file from the cursor on, in pieces that each are one change. A piece that fails
    /// ends the write; what was written before it stays. Wherever the write ends, what the device
    /// would hold is what whole pieces leave, and what an end of the next one leaves.
    #[verifier::rlimit(80)]
    #[verifier::spinoff_prover]
    pub fn write<A: BlockDevice>(
        t: &mut StorageObjectTable,
        s: &mut Storage<A>,
        idx: usize,
        data: &[u8],
    ) -> (r: Result<usize, FsError>)
        requires
            old(s).wf(),
            is_writable(old(t), idx) ==> {
                let o = old(t).slots@[idx as int];
                &&& o.in_flight_ops < u16::MAX
                &&& o.cursor_offset + data@.len() <= u64::MAX
            },
        ensures
            final(s).wf(),
            final(s).same_devices(old(s)),
            r is Err ==> told(old(s), final(s), r),
            r is Ok && (is_writable(old(t), idx) ==> r->Ok_0 == data@.len()) ==> final(s).unfailed_since(old(s)),
            final(s).aged_at_most(old(s), 21 * data@.len() as int),
            idx >= MAX_OPEN_STORAGE_OBJECTS || data@.len() == 0 ==> r == Ok::<usize, FsError>(0)
                && *final(t) == *old(t) && *final(s) == *old(s),
            idx < MAX_OPEN_STORAGE_OBJECTS && data@.len() > 0 && !old(
                t,
            ).slots@[idx as int].occupied ==> r == Err::<usize, FsError>(FsError::NotFound)
                && *final(t) == *old(t) && *final(s) == *old(s),
            idx < MAX_OPEN_STORAGE_OBJECTS && data@.len() > 0 && old(
                t,
            ).slots@[idx as int].occupied && !is_writable(old(t), idx) ==> r == Err::<
                usize,
                FsError,
            >(FsError::PermissionDenied) && *final(t) == *old(t) && *final(s) == *old(s),
            is_writable(old(t), idx) && data@.len() > 0 ==> {
                let o = old(t).slots@[idx as int];
                &&& final(t).slots@ == old(t).slots@.update(
                    idx as int,
                    advanced(
                        o,
                        if r is Ok {
                            r->Ok_0 as int
                        } else {
                            0
                        },
                    ),
                )
                &&& r is Ok ==> 0 < r->Ok_0 <= data@.len()
                &&& old(s).usable(o.device_id) && final(s).steady_since(old(s)) && pieces_fit(
                    old(s).vol(o.device_id),
                    old(s).size(o.device_id) as int,
                    o.inode_num,
                    o.cursor_offset as int,
                    data@,
                ) ==> {
                    let (v, k, e) = pieces_written(
                        old(s).vol(o.device_id),
                        old(s).size(o.device_id) as int,
                        o.inode_num,
                        o.cursor_offset as int,
                        data@,
                    );
                    &&& turned(old(s), final(s), o.device_id, v)
                    &&& final(s).usable(o.device_id)
                    &&& e is None ==> {
                        &&& final(s).stored(o.device_id) == v
                        &&& forall|b: int| #[trigger] resting(final(s), o.device_id, b)
                    }
                    &&& r == (if k > 0 {
                        Ok::<usize, FsError>(k as usize)
                    } else {
                        Err::<usize, FsError>(e->Some_0)
                    })
                }
                &&& old(s).usable(o.device_id) && final(s).steady_since(old(s)) && !pieces_fit(
                    old(s).vol(o.device_id),
                    old(s).size(o.device_id) as int,
                    o.inode_num,
                    o.cursor_offset as int,
                    data@,
                ) ==> {
                    let k = fitting(
                        old(s).vol(o.device_id),
                        old(s).size(o.device_id) as int,
                        o.inode_num,
                        o.cursor_offset as int,
                        data@,
                    );
                    match r {
                        Ok(w) => k > 0 && w == k,
                        Err(e) => k == 0 && is_lack(e),
                    }
                }
                &&& write_begins_calm(
                    old(s),
                    o.device_id,
                    o.inode_num,
                    o.cursor_offset as int,
                    data@,
                ) && final(s).next_lru_seq < u64::MAX ==> write_fate(
                    old(s).vol(o.device_id),
                    final(s).kept(o.device_id),
                    old(s).size(o.device_id) as int,
                    o.inode_num,
                    o.cursor_offset as int,
                    data@,
                )
            },
    {
        if idx >= MAX_OPEN_STORAGE_OBJECTS || data.len() == 0 {
            return Ok(0);
        }
        let o = t.slots[idx];
        if !o.occupied {
            return Err(FsError::NotFound);
        }
        if (o.open_flags & O_WRITE) == 0 {
            return Err(FsError::PermissionDenied);
        }
        t.slots[idx].in_flight_ops = o.in_flight_ops + 1;
        let ghost id = o.device_id;
        let ghost size = s.size(id) as int;
        let ghost whole = pieces_written(
            s.vol(id),
            size,
            o.inode_num,
            o.cursor_offset as int,
            data@,
        );
        let ghost fits = pieces_fit(s.vol(id), size, o.inode_num, o.cursor_offset as int, data@);
        let ghost fit = fitting(s.vol(id), size, o.inode_num, o.cursor_offset as int, data@);
        let ghost exact = s.usable(id);
        let ghost calm = write_begins_calm(s, id, o.inode_num, o.cursor_offset as int, data@);
        let ghost at_inode = inode_block(o.inode_num as int);
        let len: usize = data.len();
        let mut total: usize = 0;
        let mut fault: Option<FsError> = None;
        assert(data@.skip(0) =~= data@);
        while total < len && fault.is_none()
            invariant
                len == data@.len(),
                len > 0,
                total <= len,
                o.cursor_offset + len <= u64::MAX,
                id == o.device_id,
                size == old(s).size(id),
                s.wf(),
                s.same_devices(old(s)),
                match fault {
                    Some(e) => told(old(s), s, Err::<usize, FsError>(e)),
                    None => told(old(s), s, Ok::<(), FsError>(())),
                },
                s.aged_at_most(
                    old(s),
                    21 * (if fault.is_none() {
                        total as int
                    } else {
                        len as int
                    }),
                ),
                exact ==> old(s).usable(id),
                exact && s.steady_since(old(s)) && !fits && fault is Some ==> total == fit && is_lack(
                    fault->Some_0,
                ),
                exact && s.steady_since(old(s)) && (fits || fault is None) ==> {
                    &&& turned(old(s), s, id, s.vol(id))
                    &&& s.usable(id)
                    &&& total == len && total > 0 ==> s.stored(id) == s.vol(id)
                    &&& total > 0 && fault is None ==> forall|b: int| #[trigger] resting(s, id, b)
                    &&& if fault is Some {
                        whole == (s.vol(id), total as int, fault)
                    } else {
                        let rest = pieces_written(
                            s.vol(id),
                            size,
                            o.inode_num,
                            o.cursor_offset + total,
                            data@.skip(total as int),
                        );
                        &&& whole == (rest.0, total + rest.1, rest.2)
                        &&& pieces_fit(
                            s.vol(id),
                            size,
                            o.inode_num,
                            o.cursor_offset + total,
                            data@.skip(total as int),
                        ) == fits
                        &&& fit == total + fitting(
                            s.vol(id),
                            size,
                            o.inode_num,
                            o.cursor_offset + total,
                            data@.skip(total as int),
                        )
                    }
                },
                fault is Some ==> total < len,
                calm ==> exact && fits,
                at_inode == inode_block(o.inode_num as int),
                calm && s.next_lru_seq < u64::MAX && fault is Some ==> write_fate(
                    old(s).vol(id),
                    s.kept(id),
                    size,
                    o.inode_num,
                    o.cursor_offset as int,
                    data@,
                ),
                calm && s.next_lru_seq < u64::MAX && fault is None ==> {
                    &&& reading(s.vol(id), o.inode_num) is Ok
                    &&& file_ok(s.vol(id), size, reading(s.vol(id), o.inode_num)->Ok_0)
                    &&& resting(s, id, at_inode)
                    &&& resting(s, id, JOURNAL_BLOCK as int)
                    &&& forall|kept: Volume|
                        write_fate(
                            s.vol(id),
                            kept,
                            size,
                            o.inode_num,
                            o.cursor_offset + total,
                            data@.skip(total as int),
                        ) ==> #[trigger] write_fate(
                            old(s).vol(id),
                            kept,
                            size,
                            o.inode_num,
                            o.cursor_offset as int,
                            data@,
                        )
                },
            decreases len - total + (if fault is Some {
                0int
            } else {
                1int
            }),
        {
            let left: usize = len - total;
            let at: u64 = o.cursor_offset + total as u64;
            let room: usize = MAX_TRANSACTION_BYTES - (at % 4096) as usize;
            let m: usize = if left < room {
                left
            } else {
                room
            };
            let piece = slice_subrange(data, total, total + m);
            let ghost before = *s;
            proof {
                let rest = data@.skip(total as int);
                assert(m == first_piece(at as int, rest.len() as int));
                assert(piece@ =~= rest.take(m as int));
                assert(rest.skip(m as int) =~= data@.skip(total + m));
            }
            let done = Self::write_chunk_tx(
                s,
                o.device_id,
                o.inode_num,
                at,
                piece,
            );
            proof {
                if exact && s.steady_since(old(s)) && piece_fits(
                    before.vol(id),
                    size,
                    o.inode_num,
                    at as int,
                    m as int,
                ) {
                    assert(before.steady_since(old(s)));
                    assert forall|k: u8| k != id implies (#[trigger] s.vol(k)) == old(s).vol(
                        k,
                    ) by {
                        assert(before.vol(k) == old(s).vol(k));
                    }
                }
                if calm && s.next_lru_seq < u64::MAX {
                    assert(before.steady_since(old(s)));
                    let rest = data@.skip(total as int);
                    assert(piece_begins_calm(&before, id, o.inode_num, at as int, m as int));
                    if done is Err {
                        assert(write_fate(
                            before.vol(id),
                            s.kept(id),
                            size,
                            o.inode_num,
                            at as int,
                            rest,
                        ));
                    } else {
                        assert(s.steady_since(old(s)) && s.steady_since(&before));
                        lemma_volume_ok(&before, id);
                        lemma_piece(before.vol(id), size, o.inode_num, at as int, piece@);
                        assert forall|kept: Volume|
                            write_fate(
                                s.vol(id),
                                kept,
                                size,
                                o.inode_num,
                                at + m,
                                data@.skip(total + m),
                            ) implies #[trigger] write_fate(
                            old(s).vol(id),
                            kept,
                            size,
                            o.inode_num,
                            o.cursor_offset as int,
                            data@,
                        ) by {
                            assert(write_fate(
                                before.vol(id),
                                kept,
                                size,
                                o.inode_num,
                                at as int,
                                rest,
                            ));
                        }
                    }
                }
            }
            match done {
                Err(e) => {
                    fault = Some(e);
                },
                Ok(w) => {
                    total = total + w;
                },
            }
        }
        proof {
            if calm && s.next_lru_seq < u64::MAX && fault is None {
                assert(s.steady_since(old(s)));
                assert forall|b: int| (#[trigger] s.kept(id)[b]) == s.vol(id)[b] by {
                    assert(resting(s, id, b));
                    lemma_resting(s, id, b);
                }
                assert(write_fate(
                    s.vol(id),
                    s.kept(id),
                    size,
                    o.inode_num,
                    o.cursor_offset + total,
                    data@.skip(total as int),
                ));
            }
        }
        let moved: u64 = o.cursor_offset + total as u64;
        t.slots[idx].cursor_offset = moved;
        if t.slots[idx].cached_size < moved {
            t.slots[idx].cached_size = moved;
        }
        t.slots[idx].in_flight_ops = t.slots[idx].in_flight_ops.saturating_sub(1);
        assert(t.slots@ =~= old(t).slots@.update(idx as int, advanced(o, total as int)));
        match fault {
            Some(e) => if total > 0 {
                Ok(total)
            } else {
                Err(e)
            },
            None => Ok(total),
        }
    }
}

} // verus!
