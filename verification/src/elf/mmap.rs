//! Which pages and frames a process has been given by the loader.
use crate::elf::types::ElfError;
use crate::process::MAX_PROCESSES;
use vstd::prelude::*;

verus! {

pub const MAX_PROCESS_MAPPED_PAGES: usize = 64;

#[derive(Debug, Clone, Copy, PartialEq, Eq, Structural)]
pub enum MemoryMapState {
    Free,
    Allocating,
    Active,
    Reclaiming,
}

/// The pages of one process: each entry is a page address and the address of its frame.
#[derive(Debug, Clone, Copy)]
pub struct ProcessMemoryMap {
    pub state: MemoryMapState,
    pub page_count: usize,
    pub pages: [(u64, u64); MAX_PROCESS_MAPPED_PAGES],
}

impl ProcessMemoryMap {
    pub open spec fn wf(&self) -> bool {
        self.page_count <= MAX_PROCESS_MAPPED_PAGES
    }

    /// The pages recorded, in the order of recording.
    pub open spec fn recorded(&self) -> Seq<(u64, u64)> {
        self.pages@.take(self.page_count as int)
    }

    pub fn empty() -> (r: Self)
        ensures
            r.wf(),
            r.state == MemoryMapState::Free,
            r.page_count == 0,
            r.recorded() == Seq::<(u64, u64)>::empty(),
            forall|i: int| 0 <= i < MAX_PROCESS_MAPPED_PAGES ==> r.pages@[i] == (0u64, 0u64),
    {
        let r = ProcessMemoryMap {
            state: MemoryMapState::Free,
            page_count: 0,
            pages: [(0u64, 0u64); MAX_PROCESS_MAPPED_PAGES],
        };
        assert(r.recorded() =~= Seq::<(u64, u64)>::empty());
        r
    }
}

/// The memory maps of all process slots.
pub struct ProcessMemoryMaps {
    pub maps: [ProcessMemoryMap; MAX_PROCESSES],
}

/// Those recorded pages that hold a frame.
pub open spec fn backed(pages: Seq<(u64, u64)>) -> Seq<(u64, u64)>
    decreases pages.len(),
{
    if pages.len() == 0 {
        Seq::empty()
    } else if pages.last().1 != 0 {
        backed(pages.drop_last()).push(pages.last())
    } else {
        backed(pages.drop_last())
    }
}

impl ProcessMemoryMaps {
    pub open spec fn wf(&self) -> bool {
        forall|i: int| 0 <= i < MAX_PROCESSES ==> (#[trigger] self.maps@[i]).wf()
    }

    pub fn new() -> (r: Self)
        ensures
            r.wf(),
            forall|i: int|
                0 <= i < MAX_PROCESSES ==> (#[trigger] r.maps@[i]).state == MemoryMapState::Free
                    && r.maps@[i].page_count == 0,
    {
        ProcessMemoryMaps { maps: [ProcessMemoryMap::empty(); MAX_PROCESSES] }
    }

    /// The maps other than that of `slot` are the same in both.
    pub open spec fn same_but(&self, other: &Self, slot: int) -> bool {
        forall|i: int|
            0 <= i < MAX_PROCESSES && i != slot ==> (#[trigger] self.maps@[i]) == other.maps@[i]
    }
}

/// Opens the map of a process slot for loading.
pub fn begin_allocation(table: &mut ProcessMemoryMaps, slot_idx: usize) -> (r: Result<(), ElfError>)
    requires
        old(table).wf(),
    ensures
        final(table).wf(),
        final(table).same_but(old(table), slot_idx as int),
        r == (if slot_idx >= MAX_PROCESSES {
            Err::<(), ElfError>(ElfError::ProcessCreationFailed)
        } else if old(table).maps@[slot_idx as int].state != MemoryMapState::Free {
            Err(ElfError::CapacityExceeded)
        } else {
            Ok(())
        }),
        r is Err ==> *final(table) == *old(table),
        r is Ok ==> {
            let m = final(table).maps@[slot_idx as int];
            &&& m.state == MemoryMapState::Allocating
            &&& m.recorded() == Seq::<(u64, u64)>::empty()
            &&& forall|i: int| 0 <= i < MAX_PROCESS_MAPPED_PAGES ==> m.pages@[i] == (0u64, 0u64)
        },
{
    if slot_idx >= MAX_PROCESSES {
        return Err(ElfError::ProcessCreationFailed);
    }
    if table.maps[slot_idx].state != MemoryMapState::Free {
        return Err(ElfError::CapacityExceeded);
    }
    table.maps[slot_idx] = ProcessMemoryMap {
        state: MemoryMapState::Allocating,
        page_count: 0,
        pages: [(0u64, 0u64); MAX_PROCESS_MAPPED_PAGES],
    };
    assert(table.maps@[slot_idx as int].recorded() =~= Seq::<(u64, u64)>::empty());
    Ok(())
}

/// Records a page and its frame.
pub fn record_page(table: &mut ProcessMemoryMaps, slot_idx: usize, page: u64, frame: u64) -> (r: Result<
    (),
    ElfError,
>)
    requires
        old(table).wf(),
    ensures
        final(table).wf(),
        final(table).same_but(old(table), slot_idx as int),
        r == (if slot_idx >= MAX_PROCESSES || old(table).maps@[slot_idx as int].state
            != MemoryMapState::Allocating {
            Err::<(), ElfError>(ElfError::ProcessCreationFailed)
        } else if old(table).maps@[slot_idx as int].page_count >= MAX_PROCESS_MAPPED_PAGES {
            Err(ElfError::CapacityExceeded)
        } else {
            Ok(())
        }),
        r is Err ==> *final(table) == *old(table),
        r is Ok ==> {
            let m = final(table).maps@[slot_idx as int];
            &&& m.state == MemoryMapState::Allocating
            &&& m.recorded() == old(table).maps@[slot_idx as int].recorded().push((page, frame))
        },
{
    if slot_idx >= MAX_PROCESSES {
        return Err(ElfError::ProcessCreationFailed);
    }
    if table.maps[slot_idx].state != MemoryMapState::Allocating {
        return Err(ElfError::ProcessCreationFailed);
    }
    if table.maps[slot_idx].page_count >= MAX_PROCESS_MAPPED_PAGES {
        return Err(ElfError::CapacityExceeded);
    }
    let n: usize = table.maps[slot_idx].page_count;
    assert(table.maps@[slot_idx as int].wf());
    table.maps[slot_idx].pages[n] = (page, frame);
    table.maps[slot_idx].page_count = n + 1;
    assert(table.maps@[slot_idx as int].recorded() =~= old(table).maps@[slot_idx as int].recorded().push((page, frame)));
    Ok(())
}

/// Closes the map of a slot after a load that succeeded.
pub fn commit_allocation(table: &mut ProcessMemoryMaps, slot_idx: usize) -> (r: Result<(), ElfError>)
    requires
        old(table).wf(),
    ensures
        final(table).wf(),
        final(table).same_but(old(table), slot_idx as int),
        r == (if slot_idx >= MAX_PROCESSES || old(table).maps@[slot_idx as int].state
            != MemoryMapState::Allocating {
            Err::<(), ElfError>(ElfError::ProcessCreationFailed)
        } else {
            Ok(())
        }),
        r is Err ==> *final(table) == *old(table),
        r is Ok ==> final(table).maps@[slot_idx as int] == (ProcessMemoryMap {
            state: MemoryMapState::Active,
            ..old(table).maps@[slot_idx as int]
        }),
{
    if slot_idx >= MAX_PROCESSES {
        return Err(ElfError::ProcessCreationFailed);
    }
    if table.maps[slot_idx].state != MemoryMapState::Allocating {
        return Err(ElfError::ProcessCreationFailed);
    }
    assert(table.maps@[slot_idx as int].wf());
    table.maps[slot_idx].state = MemoryMapState::Active;
    Ok(())
}

/// What giving up the map of a slot leaves behind, and which pages it hands back.
pub open spec fn released(old_maps: &ProcessMemoryMaps, new_maps: &ProcessMemoryMaps, slot: int, r: Seq<(u64, u64)>) -> bool {
    if slot >= MAX_PROCESSES || old_maps.maps@[slot].state == MemoryMapState::Free {
        *new_maps == *old_maps && r == Seq::<(u64, u64)>::empty()
    } else {
        &&& new_maps.same_but(old_maps, slot)
        &&& new_maps.maps@[slot] == (ProcessMemoryMap {
            state: MemoryMapState::Free,
            page_count: 0,
            ..old_maps.maps@[slot]
        })
        &&& r == backed(old_maps.maps@[slot].recorded())
    }
}

/// Gives up a load that failed. The result lists, in the order of recording, the pages to
/// unmap and the frames to free.
pub fn rollback_allocation(table: &mut ProcessMemoryMaps, slot_idx: usize) -> (r: Vec<(u64, u64)>)
    requires
        old(table).wf(),
    ensures
        final(table).wf(),
        released(old(table), final(table), slot_idx as int, r@),
{
    let mut out: Vec<(u64, u64)> = Vec::new();
    if slot_idx >= MAX_PROCESSES {
        return out;
    }
    if table.maps[slot_idx].state == MemoryMapState::Free {
        return out;
    }
    assert(table.maps@[slot_idx as int].wf());
    let m = table.maps[slot_idx];
    let mut i: usize = 0;
    assert(m.pages@.take(0) =~= Seq::<(u64, u64)>::empty());
    while i < m.page_count
        invariant
            i <= m.page_count <= MAX_PROCESS_MAPPED_PAGES,
            out@ == backed(m.pages@.take(i as int)),
        decreases m.page_count - i,
    {
        assert(m.pages@.take(i + 1).drop_last() =~= m.pages@.take(i as int));
        assert(m.pages@.take(i + 1).last() == m.pages@[i as int]);
        if m.pages[i].1 != 0 {
            out.push(m.pages[i]);
        }
        i = i + 1;
    }
    table.maps[slot_idx].page_count = 0;
    table.maps[slot_idx].state = MemoryMapState::Free;
    out
}

/// Gives up the map of a process that ends. The result lists the pages to unmap and the
/// frames to free.
pub fn reclaim_process_memory_map_locked(table: &mut ProcessMemoryMaps, slot_idx: usize) -> (r: Vec<(u64, u64)>)
    requires
        old(table).wf(),
    ensures
        final(table).wf(),
        released(old(table), final(table), slot_idx as int, r@),
{
    rollback_allocation(table, slot_idx)
}
} // verus!
