//! How a load ends.
use crate::bytes::le64;
use crate::elf::laws::{is_run, is_step, LoadMoment};
use crate::elf::load::{LoadAction, LoadEvent, LoadPhase};
use crate::elf::mmap::backed;
use crate::elf::types::ElfError;
use vstd::prelude::*;

verus! {

/// A program that was loaded runs from its entry point on, with a stack pointer at the top of its
/// stack.
pub proof fn law_loaded_program_is_started(
    image: Seq<u8>,
    ms: Seq<LoadMoment>,
    evs: Seq<LoadEvent>,
    acts: Seq<LoadAction>,
)
    requires
        is_run(image, ms, evs, acts),
        evs.len() > 0,
        acts.last() is Done,
    ensures
        evs.len() > 1,
        ({
            let a = acts[evs.len() - 2];
            &&& a is CreateThread
            &&& a->CreateThread_entry == le64(image, 24)
            &&& a->CreateThread_stack_pointer == 0x7F7F_FFFF_0000
        }),
        evs.last() == LoadEvent::Thread(true),
{
    let n = evs.len() - 1;
    assert(is_step(image, ms[n], ms[n + 1], evs[n], acts[n]));
    assert(acts[n] == acts.last());
    assert(ms[n].load.phase == LoadPhase::Thread);
    assert(n > 0);
    assert(is_step(image, ms[n - 1], ms[n - 1 + 1], evs[n - 1], acts[n - 1]));
}

/// Why a load fails: each answer of the machine that ends it is told as its own error.
pub proof fn law_errors_of_a_load(
    image: Seq<u8>,
    a: LoadMoment,
    b: LoadMoment,
    ev: LoadEvent,
    action: LoadAction,
)
    requires
        is_step(image, a, b, ev, action),
    ensures
        ({
            let in_image = a.load.seg_idx < a.load.summary.segment_count;
            &&& ev == LoadEvent::Process(None) ==> action is Refuse && action->Refuse_error
                == ElfError::ProcessCreationFailed
            &&& ev == LoadEvent::Frame(None) ==> action is Abort && action->Abort_error
                == ElfError::OutOfMemory
            &&& ev == LoadEvent::Mapped(false) && in_image ==> action is Abort
                && action->Abort_error == ElfError::MappingFailed
            &&& ev == LoadEvent::Mapped(false) && !in_image ==> action is Abort
                && action->Abort_error == ElfError::StackCreationFailed
            &&& ev == LoadEvent::EntryFlags(None) ==> action is Abort && action->Abort_error
                == ElfError::InvalidEntryPoint
            &&& ev is EntryFlags && ev->EntryFlags_0 is Some ==> (action is Abort
                <==> ev->EntryFlags_0->Some_0.no_execute)
            &&& ev == LoadEvent::Thread(false) ==> action is Abort && action->Abort_error
                == ElfError::ThreadCreationFailed
        }),
{
}

/// Of the pages that were recorded exactly those that have a frame are handed back, in their order.
pub proof fn law_pages_with_a_frame_are_handed_back(list: Seq<(u64, u64)>, p: (u64, u64))
    ensures
        backed(list).contains(p) <==> list.contains(p) && p.1 != 0,
        backed(list).len() <= list.len(),
    decreases list.len(),
{
    if list.len() > 0 {
        let front = list.drop_last();
        law_pages_with_a_frame_are_handed_back(front, p);
        let rest = backed(front);
        let all = backed(list);
        assert(list.contains(p) <==> front.contains(p) || list.last() == p) by {
            if list.contains(p) {
                let i = choose|i: int| 0 <= i < list.len() && list[i] == p;
                if i < front.len() {
                    assert(front[i] == p);
                }
            }
            if front.contains(p) {
                let i = choose|i: int| 0 <= i < front.len() && front[i] == p;
                assert(list[i] == p);
            }
            assert(list[list.len() - 1] == list.last());
        }
        if list.last().1 != 0 {
            assert(all.contains(p) <==> rest.contains(p) || list.last() == p) by {
                if rest.contains(p) {
                    let i = choose|i: int| 0 <= i < rest.len() && rest[i] == p;
                    assert(all[i] == p);
                }
                if all.contains(p) {
                    let i = choose|i: int| 0 <= i < all.len() && all[i] == p;
                    if i < rest.len() {
                        assert(rest[i] == p);
                    }
                }
                assert(all[rest.len() as int] == list.last());
            }
        }
    }
}

} // verus!
