//! What holds of a load as a whole, from its first step to its last.
use crate::elf::load::{settle, ElfLoad, LoadAction, LoadEvent, LoadPhase, LoadPos};
use crate::elf::mmap::{backed, MemoryMapState, ProcessMemoryMaps};
use crate::elf::types::{USER_STACK_BASE, USER_STACK_PAGES};
use crate::elf::validate::{
    law_valid_images_are_safe, segment_is_safe, segments_are_safe, UserSpace, ValidatedSegment,
};
use crate::process::MAX_PROCESSES;
use vstd::prelude::*;

verus! {

/// A load between two steps.
pub struct LoadMoment {
    pub load: ElfLoad,
    pub maps: ProcessMemoryMaps,
}

/// One step of a load.
pub open spec fn is_step(
    image: Seq<u8>,
    a: LoadMoment,
    b: LoadMoment,
    ev: LoadEvent,
    action: LoadAction,
) -> bool {
    &&& a.load.wf(image)
    &&& a.maps.wf()
    &&& a.load.expects(ev)
    &&& b.load.wf(image)
    &&& b.load.same_load(&a.load)
    &&& b.maps.wf()
    &&& ElfLoad::steps(&a.load, &b.load, image, &a.maps, &b.maps, ev, action)
}

/// The moments of a load, from its start, with what the machine answered and what the loader asked
/// for in between.
pub open spec fn is_run(
    image: Seq<u8>,
    ms: Seq<LoadMoment>,
    evs: Seq<LoadEvent>,
    acts: Seq<LoadAction>,
) -> bool {
    &&& ms.len() == evs.len() + 1
    &&& acts.len() == evs.len()
    &&& ms[0].load.phase == LoadPhase::Process
    &&& forall|i: int|
        0 <= i < evs.len() ==> is_step(image, ms[i], ms[i + 1], #[trigger] evs[i], acts[i])
}

/// The frames that the machine gave in the first `n` steps, each with the page it was asked for.
pub open spec fn granted(ms: Seq<LoadMoment>, evs: Seq<LoadEvent>, n: int) -> Seq<(u64, u64)>
    decreases n,
{
    if n <= 0 {
        Seq::empty()
    } else {
        with_grant(granted(ms, evs, n - 1), ms[n - 1].load, evs[n - 1])
    }
}

/// The frames given, after the next answer of the machine.
pub open spec fn with_grant(g: Seq<(u64, u64)>, load: ElfLoad, ev: LoadEvent) -> Seq<(u64, u64)> {
    match ev {
        LoadEvent::Frame(Some(f)) => g.push((load.target_page() as u64, f)),
        _ => g,
    }
}

/// The pages of a segment below `upto`.
pub open spec fn segment_pages(seg: ValidatedSegment, upto: int) -> Seq<u64> {
    Seq::new(
        ((upto - seg.page_start) / 4096) as nat,
        |i: int| (seg.page_start + 4096 * i) as u64,
    )
}

/// The pages of the first `n` segments.
pub open spec fn image_pages(segs: Seq<ValidatedSegment>, n: int) -> Seq<u64>
    decreases n,
{
    if n <= 0 {
        Seq::empty()
    } else {
        image_pages(segs, n - 1) + segment_pages(segs[n - 1], segs[n - 1].page_end as int)
    }
}

/// The lowest `n` pages of the stack.
pub open spec fn stack_pages(n: int) -> Seq<u64> {
    Seq::new(n as nat, |i: int| (USER_STACK_BASE + 4096 * i) as u64)
}

/// The pages of a program: those of its segments, then those of its stack.
pub open spec fn program_pages(segs: Seq<ValidatedSegment>) -> Seq<u64> {
    image_pages(segs, segs.len() as int) + stack_pages(USER_STACK_PAGES as int)
}

/// The pages before a position in the image.
spec fn pages_at(segs: Seq<ValidatedSegment>, pos: LoadPos) -> Seq<u64> {
    image_pages(segs, pos.seg) + (if pos.seg < segs.len() {
        segment_pages(segs[pos.seg], pos.page)
    } else {
        Seq::empty()
    })
}

/// The pages that the loader has passed.
spec fn pages_before(load: &ElfLoad) -> Seq<u64> {
    pages_at(load.segs(), load.pos()) + stack_pages(load.stack_idx as int)
}

/// The pages of a list.
pub open spec fn pages_of(list: Seq<(u64, u64)>) -> Seq<u64> {
    list.map_values(|p: (u64, u64)| p.0)
}

/// A position lies on a page boundary of its segment, at its end at the latest.
spec fn pos_ok(segs: Seq<ValidatedSegment>, pos: LoadPos) -> bool {
    &&& 0 <= pos.seg <= segs.len()
    &&& pos.seg < segs.len() ==> {
        &&& segs[pos.seg].page_start <= pos.page <= segs[pos.seg].page_end
        &&& pos.page % 4096 == 0
    }
}

/// Passing over segments without pages passes no page.
proof fn lemma_settle(segs: Seq<ValidatedSegment>, pos: LoadPos, len: int, us: UserSpace)
    requires
        segments_are_safe(segs, len, us),
        pos_ok(segs, pos),
    ensures
        pages_at(segs, settle(segs, pos)) == pages_at(segs, pos),
        pos_ok(segs, settle(segs, pos)),
    decreases segs.len() - pos.seg,
{
    if pos.seg < segs.len() && pos.page >= segs[pos.seg].page_end {
        let next = LoadPos {
            seg: pos.seg + 1,
            page: if pos.seg + 1 < segs.len() {
                segs[pos.seg + 1].page_start as int
            } else {
                0
            },
        };
        if next.seg < segs.len() {
            assert(segment_is_safe(segs[next.seg], len, us));
            assert(segment_pages(segs[next.seg], next.page) =~= Seq::<u64>::empty());
        }
        assert(pages_at(segs, next) =~= pages_at(segs, pos));
        lemma_settle(segs, next, len, us);
    }
}

/// What is true of a load between two steps: the pages recorded are those for which frames were
/// given, and they are the pages that the loader has passed.
spec fn accounted(first: LoadMoment, m: LoadMoment, g: Seq<(u64, u64)>) -> bool {
    &&& m.load.summary == first.load.summary
    &&& m.load.user_space == first.load.user_space
    &&& forall|i: int|
        0 <= i < MAX_PROCESSES && i != m.load.proc_slot ==> (#[trigger] m.maps.maps@[i])
            == first.maps.maps@[i]
    &&& m.load.phase == LoadPhase::Process ==> g.len() == 0 && m.maps == first.maps
    &&& under_way(m.load.phase) ==> {
        &&& m.maps.maps@[m.load.proc_slot as int].state == MemoryMapState::Allocating
        &&& m.maps.maps@[m.load.proc_slot as int].recorded() == g
        &&& pages_of(g) == passed(&m.load)
        &&& m.load.phase == LoadPhase::EntryFlags || m.load.phase == LoadPhase::Thread
            ==> !m.load.on_page()
        &&& m.load.seg_idx < m.load.summary.segment_count ==> m.load.stack_idx == 0
    }
}

/// The load has a process and is not over.
spec fn under_way(phase: LoadPhase) -> bool {
    phase != LoadPhase::Process && phase != LoadPhase::Finished
}

/// The pages that have a frame.
spec fn passed(load: &ElfLoad) -> Seq<u64> {
    if load.phase == LoadPhase::Mapping {
        pages_before(load).push(load.target_page() as u64)
    } else {
        pages_before(load)
    }
}

/// The account after the process was created.
proof fn lemma_process_step(
    image: Seq<u8>,
    first: LoadMoment,
    a: LoadMoment,
    b: LoadMoment,
    slot: Option<usize>,
    action: LoadAction,
    g: Seq<(u64, u64)>,
)
    requires
        is_step(image, a, b, LoadEvent::Process(slot), action),
        accounted(first, a, g),
    ensures
        accounted(first, b, g),
        action is Abort ==> {
            &&& action->Abort_release@ == g
            &&& action->Abort_stray_frame is None
            &&& b.maps.maps@[b.load.proc_slot as int].state == MemoryMapState::Free
        },
        action is Refuse ==> b.maps == first.maps,
{
    law_valid_images_are_safe(image, a.load.user_space);
    let segs = a.load.segs();
    assert(g =~= Seq::<(u64, u64)>::empty());
    if action !is Refuse {
        let s = slot->0 as int;
        let mid = choose|mid: ProcessMemoryMaps|
            {
                &&& mid.same_but(&a.maps, s)
                &&& mid.maps@[s].state == MemoryMapState::Allocating
                &&& mid.maps@[s].recorded() == Seq::<(u64, u64)>::empty()
                &&& #[trigger] b.load.arrives(&mid, &b.maps, action)
            };
        assert(b.load.arrives(&mid, &b.maps, action));
        if under_way(b.load.phase) {
            let start = LoadPos { seg: 0, page: segs[0].page_start as int };
            assert(segment_is_safe(segs[0], image.len() as int, a.load.user_space));
            lemma_settle(segs, start, image.len() as int, a.load.user_space);
            assert(segment_pages(segs[0], start.page) =~= Seq::<u64>::empty());
            assert(pages_at(segs, start) =~= Seq::<u64>::empty());
            assert(stack_pages(0) =~= Seq::<u64>::empty());
            assert(pages_before(&b.load) =~= Seq::<u64>::empty());
            assert(pages_of(g) =~= Seq::<u64>::empty());
        } else {
            assert(backed(Seq::<(u64, u64)>::empty()) =~= Seq::<(u64, u64)>::empty());
        }
    }
}

/// The number of pages of the stack that the loader has passed, after the current page.
spec fn next_stack(load: &ElfLoad) -> int {
    if load.seg_idx < load.summary.segment_count {
        load.stack_idx as int
    } else {
        load.stack_idx + 1
    }
}

/// Going on from a page adds that page to those passed.
proof fn lemma_page_passed(image: Seq<u8>, load: &ElfLoad)
    requires
        load.wf(image),
        load.phase == LoadPhase::Mapping,
        load.seg_idx < load.summary.segment_count ==> load.stack_idx == 0,
    ensures
        pages_at(load.segs(), load.next_pos()) + stack_pages(next_stack(load)) == pages_before(
            load,
        ).push(load.target_page() as u64),
{
    law_valid_images_are_safe(image, load.user_space);
    let segs = load.segs();
    let p = load.target_page() as u64;
    if load.seg_idx < load.summary.segment_count {
        let k = load.seg_idx as int;
        assert(segment_is_safe(segs[k], image.len() as int, load.user_space));
        let next = LoadPos { seg: k, page: load.page + 4096 };
        assert(segment_pages(segs[k], next.page) =~= segment_pages(
            segs[k],
            load.page as int,
        ).push(p));
        lemma_settle(segs, next, image.len() as int, load.user_space);
        assert(stack_pages(0) =~= Seq::<u64>::empty());
        assert(pages_at(segs, next) =~= pages_at(segs, load.pos()).push(p));
        assert(pages_at(segs, next) + stack_pages(0) =~= pages_before(load).push(p));
    } else {
        let before = stack_pages(load.stack_idx as int);
        assert(stack_pages(load.stack_idx + 1) =~= before.push(p));
        assert(pages_at(segs, load.pos()) + before.push(p) =~= pages_before(load).push(p));
    }
}

/// The account after a page was mapped.
proof fn lemma_mapped_step(
    image: Seq<u8>,
    first: LoadMoment,
    a: LoadMoment,
    b: LoadMoment,
    action: LoadAction,
    g: Seq<(u64, u64)>,
)
    requires
        is_step(image, a, b, LoadEvent::Mapped(true), action),
        accounted(first, a, g),
    ensures
        accounted(first, b, g),
{
    lemma_page_passed(image, &a.load);
    assert(b.load.segs() == a.load.segs());
    assert(pages_before(&b.load) == pages_before(&a.load).push(a.load.target_page() as u64));
    assert(b.load.arrives(&a.maps, &b.maps, action));
}

/// A step of a load keeps the account.
proof fn lemma_step_keeps_account(
    image: Seq<u8>,
    first: LoadMoment,
    a: LoadMoment,
    b: LoadMoment,
    ev: LoadEvent,
    action: LoadAction,
    g: Seq<(u64, u64)>,
)
    requires
        is_step(image, a, b, ev, action),
        accounted(first, a, g),
    ensures
        accounted(first, b, with_grant(g, a.load, ev)),
{
    match ev {
        LoadEvent::Process(slot) => lemma_process_step(image, first, a, b, slot, action, g),
        LoadEvent::Frame(Some(f)) => {
            let p = a.load.target_page() as u64;
            assert(pages_of(g.push((p, f))) =~= pages_of(g).push(p));
            assert(pages_before(&b.load) == pages_before(&a.load));
        },
        LoadEvent::Mapped(true) => lemma_mapped_step(image, first, a, b, action, g),
        _ => {
            assert(pages_before(&b.load) == pages_before(&a.load));
        },
    }
}

/// The account is kept from the start.
proof fn lemma_account_is_kept(
    image: Seq<u8>,
    ms: Seq<LoadMoment>,
    evs: Seq<LoadEvent>,
    acts: Seq<LoadAction>,
    n: int,
)
    requires
        is_run(image, ms, evs, acts),
        0 <= n <= evs.len(),
    ensures
        accounted(ms[0], ms[n], granted(ms, evs, n)),
    decreases n,
{
    if n > 0 {
        lemma_account_is_kept(image, ms, evs, acts, n - 1);
        assert(is_step(image, ms[n - 1], ms[n - 1 + 1], evs[n - 1], acts[n - 1]));
        lemma_step_keeps_account(
            image,
            ms[0],
            ms[n - 1],
            ms[n],
            evs[n - 1],
            acts[n - 1],
            granted(ms, evs, n - 1),
        );
    }
}

/// Where every page has a frame, all of them are handed back.
proof fn lemma_all_backed(list: Seq<(u64, u64)>)
    requires
        forall|i: int| 0 <= i < list.len() ==> (#[trigger] list[i]).1 != 0,
    ensures
        backed(list) == list,
    decreases list.len(),
{
    if list.len() > 0 {
        let rest = list.drop_last();
        assert forall|i: int| 0 <= i < rest.len() implies (#[trigger] rest[i]).1 != 0 by {
            assert(rest[i] == list[i]);
        }
        lemma_all_backed(rest);
        assert(list =~= rest.push(list.last()));
    } else {
        assert(backed(list) =~= list);
    }
}

/// What a load that gives up hands back: the pages recorded, and the frame for which there was no
/// room.
pub open spec fn handed_back(m: LoadMoment, action: LoadAction) -> Seq<(u64, u64)> {
    match action {
        LoadAction::Abort { error, stray_frame, release } => match stray_frame {
            Some(f) => release@.push((m.load.target_page() as u64, f)),
            None => release@,
        },
        _ => Seq::empty(),
    }
}

/// A load that fails leaves nothing behind: it hands back every frame that it was given, in order,
/// with the page it was for, and the memory maps of all processes but its own are as they were; its
/// own is free.
pub proof fn law_failed_load_leaves_nothing_behind(
    image: Seq<u8>,
    ms: Seq<LoadMoment>,
    evs: Seq<LoadEvent>,
    acts: Seq<LoadAction>,
)
    requires
        is_run(image, ms, evs, acts),
        evs.len() > 0,
        acts.last() is Abort || acts.last() is Refuse,
        forall|i: int| 0 <= i < evs.len() ==> #[trigger] evs[i] != LoadEvent::Frame(Some(0u64)),
    ensures
        handed_back(ms[evs.len() - 1], acts.last()) == granted(ms, evs, evs.len() as int),
        forall|i: int|
            0 <= i < MAX_PROCESSES && i != ms.last().load.proc_slot ==> (
            #[trigger] ms.last().maps.maps@[i]) == ms[0].maps.maps@[i],
        acts.last() is Refuse ==> ms.last().maps == ms[0].maps,
        acts.last() is Abort ==> ms.last().maps.maps@[ms.last().load.proc_slot as int].state
            == MemoryMapState::Free,
{
    let n = evs.len() - 1;
    lemma_account_is_kept(image, ms, evs, acts, n);
    lemma_account_is_kept(image, ms, evs, acts, n + 1);
    let a = ms[n];
    let b = ms[n + 1];
    assert(is_step(image, a, b, evs[n], acts[n]));
    let g = granted(ms, evs, n);
    lemma_grants_are_backed(ms, evs, n);
    lemma_all_backed(g);
    if evs[n] is Process {
        lemma_process_step(image, ms[0], a, b, evs[n]->Process_0, acts[n], g);
    } else {
        assert(acts[n]->Abort_release@ == backed(g));
    }
    assert(handed_back(a, acts[n]) =~= granted(ms, evs, n + 1));
}

/// No frame that was given is frame zero, if the machine never gave that.
proof fn lemma_grants_are_backed(ms: Seq<LoadMoment>, evs: Seq<LoadEvent>, n: int)
    requires
        n <= evs.len(),
        forall|i: int| 0 <= i < evs.len() ==> #[trigger] evs[i] != LoadEvent::Frame(Some(0u64)),
    ensures
        forall|i: int|
            0 <= i < granted(ms, evs, n).len() ==> (#[trigger] granted(ms, evs, n)[i]).1 != 0,
    decreases n,
{
    if n > 0 {
        lemma_grants_are_backed(ms, evs, n - 1);
        let prev = granted(ms, evs, n - 1);
        let all = granted(ms, evs, n);
        assert(evs[n - 1] != LoadEvent::Frame(Some(0u64)));
        assert forall|i: int| 0 <= i < all.len() implies (#[trigger] all[i]).1 != 0 by {
            if i < prev.len() {
                assert(all[i] == prev[i]);
            }
        }
    }
}

/// A load that succeeds gave the process exactly the pages of its segments and of its stack, in
/// order, each with the frame that the machine gave for it, and touched no other process.
pub proof fn law_loaded_program_is_complete(
    image: Seq<u8>,
    ms: Seq<LoadMoment>,
    evs: Seq<LoadEvent>,
    acts: Seq<LoadAction>,
)
    requires
        is_run(image, ms, evs, acts),
        evs.len() > 0,
        acts.last() is Done,
    ensures
        ({
            let m = ms.last().maps.maps@[ms.last().load.proc_slot as int];
            &&& m.state == MemoryMapState::Active
            &&& m.recorded() == granted(ms, evs, evs.len() as int)
            &&& pages_of(m.recorded()) == program_pages(ms[0].load.segs())
        }),
        forall|i: int|
            0 <= i < MAX_PROCESSES && i != ms.last().load.proc_slot ==> (
            #[trigger] ms.last().maps.maps@[i]) == ms[0].maps.maps@[i],
{
    let n = evs.len() - 1;
    lemma_account_is_kept(image, ms, evs, acts, n);
    lemma_account_is_kept(image, ms, evs, acts, n + 1);
    let a = ms[n];
    assert(is_step(image, a, ms[n + 1], evs[n], acts[n]));
    law_valid_images_are_safe(image, a.load.user_space);
    let segs = a.load.segs();
    assert(pages_before(&a.load) =~= program_pages(segs));
    assert(ms[n + 1].maps.maps@[a.load.proc_slot as int].recorded()
        =~= a.maps.maps@[a.load.proc_slot as int].recorded());
}

} // verus!
