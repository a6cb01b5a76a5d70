//! The loader: what it does next, given what the machine answered.
//!
//! A load is a transaction. [`load_elf`] checks the image and starts it; after that the caller
//! performs the action the loader asks for and reports the outcome to [`ElfLoad::step`], until
//! the action is `Done` or one of the two that give up.
use crate::bytes::le64;
use crate::elf::mmap::{
    begin_allocation, commit_allocation, record_page, released, rollback_allocation,
    MemoryMapState, ProcessMemoryMap, ProcessMemoryMaps, MAX_PROCESS_MAPPED_PAGES,
};
use crate::elf::types::{
    ElfError, MAX_PROGRAM_HEADERS, PF_W, PF_X, USER_INITIAL_RSP, USER_STACK_BASE, USER_STACK_PAGES,
};
use crate::elf::validate::{
    law_valid_images_are_safe, page_floor, segment_is_safe, segments_are_safe, validate_elf,
    validation, ElfValidationSummary, UserSpace, ValidatedSegment,
};
use crate::mm::{user_flags, PageFlags};
use crate::process::{ProcessRecord, MAX_PROCESSES};
use vstd::prelude::*;

verus! {

/// What the loader waits for.
#[derive(Debug, Clone, Copy, PartialEq, Eq, Structural)]
pub enum LoadPhase {
    /// A process with an address space of its own.
    Process,
    /// A frame for the current page.
    Frame,
    /// The current page to be mapped and filled.
    Mapping,
    /// The flags of the page that holds the entry point.
    EntryFlags,
    /// The first thread of the process.
    Thread,
    /// Nothing: the load is over.
    Finished,
}

/// What the machine answered.
#[derive(Debug, Clone, Copy, PartialEq, Eq, Structural)]
pub enum LoadEvent {
    /// The slot of the new process, if one was created.
    Process(Option<usize>),
    /// The frame that was allocated, if there was one.
    Frame(Option<u64>),
    /// Whether the page was mapped and its contents were written.
    Mapped(bool),
    /// The flags of the page asked for, if it is mapped.
    EntryFlags(Option<PageFlags>),
    /// Whether the thread was created.
    Thread(bool),
}

/// What the caller has to do next.
pub enum LoadAction {
    /// Allocate one frame.
    AllocFrame,
    /// Map `page` to `frame` and write `contents` into the frame.
    MapPage { page: u64, frame: u64, flags: PageFlags, contents: [u8; 4096] },
    /// Report the flags of the mapped page.
    QueryFlags { page: u64 },
    /// Create the first thread of the process.
    CreateThread { entry: u64, stack_pointer: u64 },
    /// The program is loaded.
    Done,
    /// No process came into being, or its memory map is in use: drop the process, if there is
    /// one, and report the error.
    Refuse { error: ElfError },
    /// Free the stray frame, unmap and free each page listed, destroy the address space and the
    /// process, and report the error.
    Abort { error: ElfError, stray_frame: Option<u64>, release: Vec<(u64, u64)> },
}

/// A load in progress.
pub struct ElfLoad {
    pub summary: ElfValidationSummary,
    pub user_space: UserSpace,
    pub phase: LoadPhase,
    pub proc_slot: usize,
    /// The segment being loaded; equal to the number of segments once the stack is being built.
    pub seg_idx: usize,
    /// The page of that segment being loaded.
    pub page: u64,
    /// The page of the stack being built.
    pub stack_idx: usize,
}

/// The mapping of a segment follows its permissions.
pub open spec fn segment_flags(p_flags: u32) -> PageFlags {
    user_flags(p_flags & PF_W != 0, p_flags & PF_X == 0)
}

/// The byte that a segment puts at an address: from the file where the file part reaches, zero
/// beyond it and around it.
pub open spec fn segment_byte(image: Seq<u8>, seg: ValidatedSegment, addr: int) -> u8 {
    if seg.p_vaddr <= addr < seg.p_vaddr + seg.p_filesz {
        image[seg.p_offset + (addr - seg.p_vaddr)]
    } else {
        0
    }
}

/// The contents of one page of a segment.
pub open spec fn segment_page(image: Seq<u8>, seg: ValidatedSegment, page: int) -> Seq<u8> {
    Seq::new(4096, |i: int| segment_byte(image, seg, page + i))
}

/// Computes the contents of one page of a segment.
pub fn build_segment_page(image: &[u8], seg: &ValidatedSegment, page: u64) -> (r: [u8; 4096])
    requires
        seg.p_offset + seg.p_filesz <= image@.len(),
        seg.p_vaddr + seg.p_filesz <= u64::MAX,
        page + 4096 <= u64::MAX,
    ensures
        r@ == segment_page(image@, *seg, page as int),
{
    let mut r: [u8; 4096] = [0u8; 4096];
    let mut i: usize = 0;
    assert(image@.len() == image.len());
    while i < 4096
        invariant
            i <= 4096,
            image@.len() == image.len(),
            seg.p_offset + seg.p_filesz <= image@.len(),
            seg.p_vaddr + seg.p_filesz <= u64::MAX,
            page + 4096 <= u64::MAX,
            forall|j: int| 0 <= j < i ==> r@[j] == segment_byte(image@, *seg, page + j),
            forall|j: int| i <= j < 4096 ==> r@[j] == 0,
        decreases 4096 - i,
    {
        let addr: u64 = page + i as u64;
        if addr >= seg.p_vaddr && addr - seg.p_vaddr < seg.p_filesz {
            let at: u64 = seg.p_offset + (addr - seg.p_vaddr);
            r[i] = image[at as usize];
        }
        i = i + 1;
    }
    assert(r@ =~= segment_page(image@, *seg, page as int));
    r
}

/// Where in the image the loader stands.
pub struct LoadPos {
    pub seg: int,
    pub page: int,
}

/// The position `pos`, moved on to the next segment while the current one has no page left.
pub open spec fn settle(segs: Seq<ValidatedSegment>, pos: LoadPos) -> LoadPos
    decreases segs.len() - pos.seg,
{
    if 0 <= pos.seg < segs.len() && pos.page >= segs[pos.seg].page_end {
        let next = pos.seg + 1;
        settle(
            segs,
            LoadPos { seg: next, page: if next < segs.len() { segs[next].page_start as int } else { 0 } },
        )
    } else {
        pos
    }
}

impl ElfLoad {
    pub open spec fn segs(&self) -> Seq<ValidatedSegment> {
        self.summary.segs()
    }

    pub open spec fn pos(&self) -> LoadPos {
        LoadPos { seg: self.seg_idx as int, page: self.page as int }
    }

    /// The loader works on a valid image, and stands on a page of it or of the stack.
    pub open spec fn wf(&self, image: Seq<u8>) -> bool {
        &&& self.summary.segment_count <= MAX_PROGRAM_HEADERS
        &&& validation(image, self.user_space) == Ok::<Seq<ValidatedSegment>, ElfError>(self.segs())
        &&& self.summary.entry_point == le64(image, 24)
        &&& self.proc_slot < MAX_PROCESSES
        &&& self.seg_idx <= self.summary.segment_count
        &&& self.stack_idx <= USER_STACK_PAGES
        &&& self.seg_idx < self.summary.segment_count ==> {
            &&& self.page % 4096 == 0
            &&& self.segs()[self.seg_idx as int].page_start <= self.page
            &&& self.page < self.segs()[self.seg_idx as int].page_end
        }
        &&& (self.phase == LoadPhase::Frame || self.phase == LoadPhase::Mapping) && self.seg_idx
            == self.summary.segment_count ==> self.stack_idx < USER_STACK_PAGES
    }

    /// The page the loader stands on.
    pub open spec fn target_page(&self) -> int {
        if self.seg_idx < self.summary.segment_count {
            self.page as int
        } else {
            USER_STACK_BASE + self.stack_idx * 4096
        }
    }

    pub open spec fn target_flags(&self) -> PageFlags {
        if self.seg_idx < self.summary.segment_count {
            segment_flags(self.segs()[self.seg_idx as int].p_flags)
        } else {
            user_flags(true, true)
        }
    }

    pub open spec fn target_contents(&self, image: Seq<u8>) -> Seq<u8> {
        if self.seg_idx < self.summary.segment_count {
            segment_page(image, self.segs()[self.seg_idx as int], self.page as int)
        } else {
            Seq::new(4096, |i: int| 0u8)
        }
    }

    /// The error of a page of the image or of the stack.
    pub open spec fn target_error(&self, of_image: ElfError) -> ElfError {
        if self.seg_idx < self.summary.segment_count {
            of_image
        } else {
            ElfError::StackCreationFailed
        }
    }

    /// The two loaders differ in their progress only.
    pub open spec fn same_load(&self, other: &Self) -> bool {
        self.summary == other.summary && self.user_space == other.user_space
    }

    /// Whether a page of the image or of the stack is left.
    pub open spec fn on_page(&self) -> bool {
        self.seg_idx < self.summary.segment_count || self.stack_idx < USER_STACK_PAGES
    }

    /// What the loader does on arriving at a page, or past the last one, with the memory maps
    /// `before`.
    pub open spec fn arrives(
        &self,
        before: &ProcessMemoryMaps,
        after: &ProcessMemoryMaps,
        action: LoadAction,
    ) -> bool {
        let addr = if self.on_page() {
            self.target_page()
        } else {
            page_floor(self.summary.entry_point as int)
        };
        if !self.user_space.canonical(addr) {
            &&& self.phase == LoadPhase::Finished
            &&& self.aborts(
                before,
                after,
                action,
                if self.on_page() {
                    self.target_error(ElfError::InvalidEntryPoint)
                } else {
                    ElfError::InvalidEntryPoint
                },
                None,
            )
        } else {
            &&& *after == *before
            &&& if self.on_page() {
                self.phase == LoadPhase::Frame && action is AllocFrame
            } else {
                self.phase == LoadPhase::EntryFlags && action is QueryFlags
                    && action->QueryFlags_page == addr
            }
        }
    }

    /// The action gives up the load: every page recorded so far is handed back.
    pub open spec fn aborts(
        &self,
        before: &ProcessMemoryMaps,
        after: &ProcessMemoryMaps,
        action: LoadAction,
        error: ElfError,
        stray_frame: Option<u64>,
    ) -> bool {
        &&& action is Abort
        &&& action->Abort_error == error
        &&& action->Abort_stray_frame == stray_frame
        &&& released(before, after, self.proc_slot as int, action->Abort_release@)
    }

    /// The loader asked for what the event reports.
    pub open spec fn expects(&self, ev: LoadEvent) -> bool {
        match ev {
            LoadEvent::Process(_) => self.phase == LoadPhase::Process,
            LoadEvent::Frame(_) => self.phase == LoadPhase::Frame,
            LoadEvent::Mapped(_) => self.phase == LoadPhase::Mapping,
            LoadEvent::EntryFlags(_) => self.phase == LoadPhase::EntryFlags,
            LoadEvent::Thread(_) => self.phase == LoadPhase::Thread,
        }
    }

    /// The next position after the current page is done.
    pub open spec fn next_pos(&self) -> LoadPos {
        if self.seg_idx < self.summary.segment_count {
            settle(
                self.segs(),
                LoadPos { seg: self.seg_idx as int, page: self.page + 4096 },
            )
        } else {
            self.pos()
        }
    }

    /// Skips the segments that have no page left.
    fn settle_position(&mut self, Ghost(image): Ghost<Seq<u8>>)
        requires
            old(self).summary.segment_count <= MAX_PROGRAM_HEADERS,
            validation(image, old(self).user_space) == Ok::<Seq<ValidatedSegment>, ElfError>(
                old(self).segs(),
            ),
            old(self).summary.entry_point == le64(image, 24),
            old(self).seg_idx < old(self).summary.segment_count,
            old(self).page % 4096 == 0,
            old(self).segs()[old(self).seg_idx as int].page_start <= old(self).page,
        ensures
            *final(self) == (ElfLoad {
                seg_idx: final(self).seg_idx,
                page: final(self).page,
                ..*old(self)
            }),
            final(self).seg_idx <= final(self).summary.segment_count,
            final(self).pos() == settle(old(self).segs(), old(self).pos()),
            final(self).seg_idx < final(self).summary.segment_count ==> {
                &&& final(self).page % 4096 == 0
                &&& final(self).segs()[final(self).seg_idx as int].page_start <= final(self).page
                &&& final(self).page < final(self).segs()[final(self).seg_idx as int].page_end
            },
    {
        proof {
            law_valid_images_are_safe(image, self.user_space);
        }
        let n: usize = self.summary.segment_count;
        let ghost segs = self.segs();
        while self.seg_idx < n && self.page >= self.summary.segments[self.seg_idx].page_end
            invariant
                n == self.summary.segment_count,
                n <= MAX_PROGRAM_HEADERS,
                segs == self.segs(),
                segments_are_safe(segs, image.len() as int, self.user_space),
                self.seg_idx <= n,
                *self == (ElfLoad { seg_idx: self.seg_idx, page: self.page, ..*old(self) }),
                settle(segs, self.pos()) == settle(segs, old(self).pos()),
                self.seg_idx < n ==> self.page % 4096 == 0 && segs[self.seg_idx as int].page_start
                    <= self.page,
            decreases n - self.seg_idx,
        {
            assert(segs[self.seg_idx as int] == self.summary.segments@[self.seg_idx as int]);
            self.seg_idx = self.seg_idx + 1;
            if self.seg_idx < n {
                self.page = self.summary.segments[self.seg_idx].page_start;
                assert(segment_is_safe(segs[self.seg_idx as int], image.len() as int, self.user_space));
                assert(segs[self.seg_idx as int] == self.summary.segments@[self.seg_idx as int]);
            } else {
                self.page = 0;
            }
        }
        if self.seg_idx < n {
            assert(segs[self.seg_idx as int] == self.summary.segments@[self.seg_idx as int]);
        }
    }

    /// Gives up the load.
    fn abort(
        &mut self,
        maps: &mut ProcessMemoryMaps,
        error: ElfError,
        stray_frame: Option<u64>,
    ) -> (r: LoadAction)
        requires
            old(maps).wf(),
        ensures
            final(maps).wf(),
            *final(self) == (ElfLoad { phase: LoadPhase::Finished, ..*old(self) }),
            final(self).aborts(old(maps), final(maps), r, error, stray_frame),
    {
        let release = rollback_allocation(maps, self.proc_slot);
        self.phase = LoadPhase::Finished;
        LoadAction::Abort { error, stray_frame, release }
    }

    /// Asks for what the page the loader stands on needs.
    fn arrive(&mut self, maps: &mut ProcessMemoryMaps) -> (r: LoadAction)
        requires
            old(maps).wf(),
            old(self).seg_idx <= old(self).summary.segment_count <= MAX_PROGRAM_HEADERS,
            old(self).stack_idx <= USER_STACK_PAGES,
        ensures
            final(maps).wf(),
            *final(self) == (ElfLoad { phase: final(self).phase, ..*old(self) }),
            final(self).arrives(old(maps), final(maps), r),
    {
        if self.seg_idx < self.summary.segment_count {
            if !self.user_space.is_canonical(self.page) {
                return self.abort(maps, ElfError::InvalidEntryPoint, None);
            }
            self.phase = LoadPhase::Frame;
            LoadAction::AllocFrame
        } else if self.stack_idx < USER_STACK_PAGES {
            let page: u64 = USER_STACK_BASE + (self.stack_idx as u64) * 4096;
            if !self.user_space.is_canonical(page) {
                return self.abort(maps, ElfError::StackCreationFailed, None);
            }
            self.phase = LoadPhase::Frame;
            LoadAction::AllocFrame
        } else {
            let page: u64 = self.summary.entry_point - self.summary.entry_point % 4096;
            if !self.user_space.is_canonical(page) {
                return self.abort(maps, ElfError::InvalidEntryPoint, None);
            }
            self.phase = LoadPhase::EntryFlags;
            LoadAction::QueryFlags { page }
        }
    }

    /// The effect of an answer on the loader, the memory maps and what the caller does next.
    pub open spec fn steps(
        old_self: &Self,
        new_self: &Self,
        image: Seq<u8>,
        before: &ProcessMemoryMaps,
        after: &ProcessMemoryMaps,
        ev: LoadEvent,
        action: LoadAction,
    ) -> bool {
        match ev {
            LoadEvent::Process(None) => {
                &&& *new_self == (ElfLoad { phase: LoadPhase::Finished, ..*old_self })
                &&& *after == *before
                &&& action is Refuse
                &&& action->Refuse_error == ElfError::ProcessCreationFailed
            },
            LoadEvent::Process(Some(slot)) => if slot >= MAX_PROCESSES
                || before.maps@[slot as int].state != MemoryMapState::Free {
                &&& *new_self == (ElfLoad { phase: LoadPhase::Finished, ..*old_self })
                &&& *after == *before
                &&& action is Refuse
                &&& action->Refuse_error == (if slot >= MAX_PROCESSES {
                    ElfError::ProcessCreationFailed
                } else {
                    ElfError::CapacityExceeded
                })
            } else {
                &&& new_self.proc_slot == slot
                &&& new_self.stack_idx == 0
                &&& new_self.pos() == settle(
                    old_self.segs(),
                    LoadPos { seg: 0, page: old_self.segs()[0].page_start as int },
                )
                &&& exists|mid: ProcessMemoryMaps|
                    {
                        &&& mid.same_but(before, slot as int)
                        &&& mid.maps@[slot as int].state == MemoryMapState::Allocating
                        &&& mid.maps@[slot as int].recorded() == Seq::<(u64, u64)>::empty()
                        &&& #[trigger] new_self.arrives(&mid, after, action)
                    }
            },
            LoadEvent::Frame(None) => {
                &&& *new_self == (ElfLoad { phase: LoadPhase::Finished, ..*old_self })
                &&& new_self.aborts(before, after, action, ElfError::OutOfMemory, None)
            },
            LoadEvent::Frame(Some(frame)) => {
                let m = before.maps@[old_self.proc_slot as int];
                if m.state != MemoryMapState::Allocating || m.page_count
                    >= MAX_PROCESS_MAPPED_PAGES {
                    &&& *new_self == (ElfLoad { phase: LoadPhase::Finished, ..*old_self })
                    &&& new_self.aborts(
                        before,
                        after,
                        action,
                        if m.state != MemoryMapState::Allocating {
                            ElfError::ProcessCreationFailed
                        } else {
                            ElfError::CapacityExceeded
                        },
                        Some(frame),
                    )
                } else {
                    &&& *new_self == (ElfLoad { phase: LoadPhase::Mapping, ..*old_self })
                    &&& after.same_but(before, old_self.proc_slot as int)
                    &&& after.maps@[old_self.proc_slot as int].state == MemoryMapState::Allocating
                    &&& after.maps@[old_self.proc_slot as int].recorded() == m.recorded().push(
                        (old_self.target_page() as u64, frame),
                    )
                    &&& action is MapPage
                    &&& action->MapPage_page == old_self.target_page()
                    &&& action->MapPage_frame == frame
                    &&& action->MapPage_flags == old_self.target_flags()
                    &&& action->MapPage_contents@ == old_self.target_contents(image)
                }
            },
            LoadEvent::Mapped(false) => {
                &&& *new_self == (ElfLoad { phase: LoadPhase::Finished, ..*old_self })
                &&& new_self.aborts(
                    before,
                    after,
                    action,
                    old_self.target_error(ElfError::MappingFailed),
                    None,
                )
            },
            LoadEvent::Mapped(true) => {
                &&& new_self.proc_slot == old_self.proc_slot
                &&& new_self.pos() == old_self.next_pos()
                &&& new_self.stack_idx == if old_self.seg_idx < old_self.summary.segment_count {
                    old_self.stack_idx as int
                } else {
                    old_self.stack_idx + 1
                }
                &&& new_self.arrives(before, after, action)
            },
            LoadEvent::EntryFlags(flags) => if flags is None || flags->0.no_execute {
                &&& *new_self == (ElfLoad { phase: LoadPhase::Finished, ..*old_self })
                &&& new_self.aborts(before, after, action, ElfError::InvalidEntryPoint, None)
            } else {
                &&& *new_self == (ElfLoad { phase: LoadPhase::Thread, ..*old_self })
                &&& *after == *before
                &&& action is CreateThread
                &&& action->CreateThread_entry == old_self.summary.entry_point
                &&& action->CreateThread_stack_pointer == USER_INITIAL_RSP
            },
            LoadEvent::Thread(created) => {
                let m = before.maps@[old_self.proc_slot as int];
                &&& *new_self == (ElfLoad { phase: LoadPhase::Finished, ..*old_self })
                &&& if !created {
                    new_self.aborts(before, after, action, ElfError::ThreadCreationFailed, None)
                } else if m.state != MemoryMapState::Allocating {
                    new_self.aborts(before, after, action, ElfError::ProcessCreationFailed, None)
                } else {
                    &&& action is Done
                    &&& after.same_but(before, old_self.proc_slot as int)
                    &&& after.maps@[old_self.proc_slot as int] == (ProcessMemoryMap {
                        state: MemoryMapState::Active,
                        ..m
                    })
                }
            },
        }
    }

    /// The process was created, or not.
    fn on_process(&mut self, image: &[u8], maps: &mut ProcessMemoryMaps, slot: Option<usize>) -> (r: LoadAction)
        requires
            old(self).wf(image@),
            old(maps).wf(),
            old(self).expects(LoadEvent::Process(slot)),
        ensures
            final(self).wf(image@),
            final(self).same_load(old(self)),
            final(maps).wf(),
            Self::steps(old(self), final(self), image@, old(maps), final(maps), LoadEvent::Process(slot), r),
    {
        proof {
            law_valid_images_are_safe(image@, self.user_space);
        }
        let slot: usize = match slot {
            None => {
                self.phase = LoadPhase::Finished;
                return LoadAction::Refuse { error: ElfError::ProcessCreationFailed };
            },
            Some(i) => i,
        };
        match begin_allocation(maps, slot) {
            Err(error) => {
                self.phase = LoadPhase::Finished;
                LoadAction::Refuse { error }
            },
            Ok(_) => {
                let ghost mid = *maps;
                self.proc_slot = slot;
                self.seg_idx = 0;
                self.stack_idx = 0;
                self.page = self.summary.segments[0].page_start;
                assert(self.segs()[0] == self.summary.segments@[0]);
                assert(segment_is_safe(self.segs()[0], image@.len() as int, self.user_space));
                self.settle_position(Ghost(image@));
                let action = self.arrive(maps);
                assert(self.arrives(&mid, maps, action));
                action
            },
        }
    }

    /// A frame was allocated, or not.
    fn on_frame(&mut self, image: &[u8], maps: &mut ProcessMemoryMaps, frame: Option<u64>) -> (r: LoadAction)
        requires
            old(self).wf(image@),
            old(maps).wf(),
            old(self).expects(LoadEvent::Frame(frame)),
        ensures
            final(self).wf(image@),
            final(self).same_load(old(self)),
            final(maps).wf(),
            Self::steps(old(self), final(self), image@, old(maps), final(maps), LoadEvent::Frame(frame), r),
    {
        proof {
            law_valid_images_are_safe(image@, self.user_space);
        }
        let frame: u64 = match frame {
            None => {
                return self.abort(maps, ElfError::OutOfMemory, None);
            },
            Some(f) => f,
        };
        let n: usize = self.summary.segment_count;
        let page: u64 = if self.seg_idx < n {
            self.page
        } else {
            USER_STACK_BASE + (self.stack_idx as u64) * 4096
        };
        match record_page(maps, self.proc_slot, page, frame) {
            Err(error) => self.abort(maps, error, Some(frame)),
            Ok(_) => {
                self.phase = LoadPhase::Mapping;
                if self.seg_idx < n {
                    let seg = self.summary.segments[self.seg_idx];
                    assert(self.segs()[self.seg_idx as int] == seg);
                    assert(segment_is_safe(seg, image@.len() as int, self.user_space));
                    let contents = build_segment_page(image, &seg, page);
                    let flags = PageFlags::user_memory(
                        seg.p_flags & PF_W != 0,
                        seg.p_flags & PF_X == 0,
                    );
                    LoadAction::MapPage { page, frame, flags, contents }
                } else {
                    let contents: [u8; 4096] = [0u8; 4096];
                    assert(contents@ =~= Seq::new(4096, |i: int| 0u8));
                    let flags = PageFlags::user_memory(true, true);
                    LoadAction::MapPage { page, frame, flags, contents }
                }
            },
        }
    }

    /// The page was mapped and filled, or not.
    fn on_mapped(&mut self, image: &[u8], maps: &mut ProcessMemoryMaps, mapped: bool) -> (r: LoadAction)
        requires
            old(self).wf(image@),
            old(maps).wf(),
            old(self).expects(LoadEvent::Mapped(mapped)),
        ensures
            final(self).wf(image@),
            final(self).same_load(old(self)),
            final(maps).wf(),
            Self::steps(old(self), final(self), image@, old(maps), final(maps), LoadEvent::Mapped(mapped), r),
    {
        proof {
            law_valid_images_are_safe(image@, self.user_space);
        }
        let n: usize = self.summary.segment_count;
        if !mapped {
            if self.seg_idx < n {
                return self.abort(maps, ElfError::MappingFailed, None);
            } else {
                return self.abort(maps, ElfError::StackCreationFailed, None);
            }
        }
        if self.seg_idx < n {
            assert(segment_is_safe(
                self.segs()[self.seg_idx as int],
                image@.len() as int,
                self.user_space,
            ));
            self.page = self.page + 4096;
            self.settle_position(Ghost(image@));
        } else {
            self.stack_idx = self.stack_idx + 1;
        }
        self.arrive(maps)
    }

    /// The flags of the page of the entry point.
    fn on_entry_flags(&mut self, image: &[u8], maps: &mut ProcessMemoryMaps, flags: Option<PageFlags>) -> (r: LoadAction)
        requires
            old(self).wf(image@),
            old(maps).wf(),
            old(self).expects(LoadEvent::EntryFlags(flags)),
        ensures
            final(self).wf(image@),
            final(self).same_load(old(self)),
            final(maps).wf(),
            Self::steps(old(self), final(self), image@, old(maps), final(maps), LoadEvent::EntryFlags(flags), r),
    {
        match flags {
            None => self.abort(maps, ElfError::InvalidEntryPoint, None),
            Some(flags) => {
                if flags.no_execute {
                    return self.abort(maps, ElfError::InvalidEntryPoint, None);
                }
                self.phase = LoadPhase::Thread;
                LoadAction::CreateThread {
                    entry: self.summary.entry_point,
                    stack_pointer: USER_INITIAL_RSP,
                }
            },
        }
    }

    /// The first thread was created, or not.
    fn on_thread(&mut self, image: &[u8], maps: &mut ProcessMemoryMaps, created: bool) -> (r: LoadAction)
        requires
            old(self).wf(image@),
            old(maps).wf(),
            old(self).expects(LoadEvent::Thread(created)),
        ensures
            final(self).wf(image@),
            final(self).same_load(old(self)),
            final(maps).wf(),
            Self::steps(old(self), final(self), image@, old(maps), final(maps), LoadEvent::Thread(created), r),
    {
        if !created {
            return self.abort(maps, ElfError::ThreadCreationFailed, None);
        }
        match commit_allocation(maps, self.proc_slot) {
            Err(error) => self.abort(maps, error, None),
            Ok(_) => {
                self.phase = LoadPhase::Finished;
                LoadAction::Done
            },
        }
    }

    /// Takes what the machine answered and says what to do next.
    pub fn step(&mut self, image: &[u8], maps: &mut ProcessMemoryMaps, ev: LoadEvent) -> (r:
        LoadAction)
        requires
            old(self).wf(image@),
            old(maps).wf(),
            old(self).expects(ev),
        ensures
            final(self).wf(image@),
            final(self).same_load(old(self)),
            final(maps).wf(),
            Self::steps(old(self), final(self), image@, old(maps), final(maps), ev, r),
    {
        match ev {
            LoadEvent::Process(slot) => self.on_process(image, maps, slot),
            LoadEvent::Frame(frame) => self.on_frame(image, maps, frame),
            LoadEvent::Mapped(mapped) => self.on_mapped(image, maps, mapped),
            LoadEvent::EntryFlags(flags) => self.on_entry_flags(image, maps, flags),
            LoadEvent::Thread(created) => self.on_thread(image, maps, created),
        }
    }
}

/// Checks an image and starts to load it. Nothing is allocated for an image that fails a check.
pub fn load_elf(image: &[u8], us: &UserSpace) -> (r: Result<ElfLoad, ElfError>)
    ensures
        match validation(image@, *us) {
            Err(e) => r == Err::<ElfLoad, ElfError>(e),
            Ok(segs) => {
                &&& r is Ok
                &&& r->Ok_0.wf(image@)
                &&& r->Ok_0.phase == LoadPhase::Process
                &&& r->Ok_0.user_space == *us
                &&& r->Ok_0.segs() == segs
                &&& r->Ok_0.summary.entry_point == le64(image@, 24)
            },
        },
{
    match validate_elf(image, us) {
        Err(e) => Err(e),
        Ok(summary) => {
            Ok(
                ElfLoad {
                    summary,
                    user_space: *us,
                    phase: LoadPhase::Process,
                    proc_slot: 0,
                    seg_idx: summary.segment_count,
                    page: 0,
                    stack_idx: 0,
                },
            )
        },
    }
}

/// Finds the slot of a process that was just created; slot 0 is the kernel's.
pub fn find_loaded_process_slot(table: &[ProcessRecord; MAX_PROCESSES], pid: u64) -> (r: Option<
    usize,
>)
    ensures
        match r {
            Some(i) => {
                &&& 1 <= i < MAX_PROCESSES
                &&& table@[i as int].occupied && table@[i as int].id == pid
                &&& forall|j: int|
                    1 <= j < i ==> !((#[trigger] table@[j]).occupied && table@[j].id == pid)
            },
            None => forall|j: int|
                1 <= j < MAX_PROCESSES ==> !((#[trigger] table@[j]).occupied && table@[j].id
                    == pid),
        },
{
    let mut i: usize = 1;
    while i < MAX_PROCESSES
        invariant
            1 <= i <= MAX_PROCESSES,
            forall|j: int|
                1 <= j < i ==> !((#[trigger] table@[j]).occupied && table@[j].id == pid),
        decreases MAX_PROCESSES - i,
    {
        if table[i].occupied && table[i].id == pid {
            return Some(i);
        }
        i = i + 1;
    }
    None
}

} // verus!
