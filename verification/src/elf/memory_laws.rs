//! What the memory of a loaded program holds.
use crate::bytes::{le16, le32, le64};
use crate::elf::laws::{
    granted, image_pages, is_run, is_step, law_loaded_program_is_complete, pages_of, program_pages,
    segment_pages, stack_pages, LoadMoment,
};
use crate::elf::load::{ElfLoad, LoadAction, LoadEvent};
use crate::elf::types::{phdr_at, Elf64Phdr, PT_LOAD};
use crate::elf::validate::{
    header_step, law_valid_images_are_safe, load_fault, ranges_meet, scan, segment_is_safe,
    segment_of, segments_are_safe, validation, UserSpace, ValidatedSegment,
};
use vstd::prelude::*;

verus! {

/// The step maps the page that holds an address.
pub open spec fn maps_address(action: LoadAction, a: int) -> bool {
    action is MapPage && action->MapPage_page <= a < action->MapPage_page + 4096
}

/// The byte that the step puts at an address of the page that it maps.
pub open spec fn byte_at(action: LoadAction, a: int) -> u8 {
    action->MapPage_contents@[a - action->MapPage_page]
}

/// All steps of a load are about the same program.
proof fn lemma_same_program(
    image: Seq<u8>,
    ms: Seq<LoadMoment>,
    evs: Seq<LoadEvent>,
    acts: Seq<LoadAction>,
    i: int,
)
    requires
        is_run(image, ms, evs, acts),
        0 <= i <= evs.len(),
    ensures
        ms[i].load.same_load(&ms[0].load),
    decreases i,
{
    if i > 0 {
        lemma_same_program(image, ms, evs, acts, i - 1);
        assert(is_step(image, ms[i - 1], ms[i - 1 + 1], evs[i - 1], acts[i - 1]));
    }
}

/// A step that maps a page stands on a page of one segment or of the stack.
proof fn lemma_map_step(
    image: Seq<u8>,
    ms: Seq<LoadMoment>,
    evs: Seq<LoadEvent>,
    acts: Seq<LoadAction>,
    i: int,
)
    requires
        is_run(image, ms, evs, acts),
        0 <= i < evs.len(),
        acts[i] is MapPage,
    ensures
        ms[i].load.wf(image),
        ms[i].load.same_load(&ms[0].load),
        acts[i]->MapPage_page == ms[i].load.target_page(),
        acts[i]->MapPage_flags == ms[i].load.target_flags(),
        acts[i]->MapPage_contents@ == ms[i].load.target_contents(image),
        ms[i].load.seg_idx == ms[i].load.summary.segment_count ==> ms[i].load.stack_idx < 4,
        evs[i] is Frame,
        evs[i]->Frame_0 is Some,
{
    lemma_same_program(image, ms, evs, acts, i);
    assert(is_step(image, ms[i], ms[i + 1], evs[i], acts[i]));
}

/// Every frame given in a load that goes on was used to map the page that it was asked for.
proof fn lemma_grants_are_mapped(
    image: Seq<u8>,
    ms: Seq<LoadMoment>,
    evs: Seq<LoadEvent>,
    acts: Seq<LoadAction>,
    n: int,
    g: int,
)
    requires
        is_run(image, ms, evs, acts),
        acts.last() is Done,
        0 <= n <= evs.len(),
        0 <= g < granted(ms, evs, n).len(),
    ensures
        exists|i: int|
            0 <= i < n && (#[trigger] acts[i]) is MapPage && acts[i]->MapPage_page == granted(
                ms,
                evs,
                n,
            )[g].0,
    decreases n,
{
    if n > 0 {
        let prev = granted(ms, evs, n - 1);
        let a = ms[n - 1];
        assert(is_step(image, a, ms[n - 1 + 1], evs[n - 1], acts[n - 1]));
        if g < prev.len() {
            lemma_grants_are_mapped(image, ms, evs, acts, n - 1, g);
            assert(granted(ms, evs, n)[g] == prev[g]);
        } else {
            if n < evs.len() {
                assert(is_step(image, ms[n], ms[n + 1], evs[n], acts[n]));
            } else {
                assert(acts[n - 1] == acts.last());
            }
            assert(acts[n - 1] is MapPage);
        }
    }
}

/// Every page of a segment is among the pages of the image.
proof fn lemma_image_pages(segs: Seq<ValidatedSegment>, n: int, s: int, page: u64)
    requires
        0 <= s < n <= segs.len(),
        segs[s].page_start <= page < segs[s].page_end,
        segs[s].page_start % 4096 == 0,
        segs[s].page_end % 4096 == 0,
        page % 4096 == 0,
    ensures
        exists|j: int|
            0 <= j < image_pages(segs, n).len() && (#[trigger] image_pages(segs, n)[j]) == page,
    decreases n,
{
    let before = image_pages(segs, n - 1);
    let own = segment_pages(segs[n - 1], segs[n - 1].page_end as int);
    let all = image_pages(segs, n);
    assert(all == before + own);
    if s == n - 1 {
        let k = (page - segs[s].page_start) / 4096;
        assert(own[k] == page);
        assert(all[before.len() + k] == page);
    } else {
        lemma_image_pages(segs, n - 1, s, page);
        let j = choose|j: int| 0 <= j < before.len() && (#[trigger] before[j]) == page;
        assert(all[j] == page);
    }
}

/// No address lies on the pages of two segments.
proof fn lemma_one_segment(
    segs: Seq<ValidatedSegment>,
    len: int,
    us: UserSpace,
    s: int,
    t: int,
    a: int,
)
    requires
        segments_are_safe(segs, len, us),
        0 <= s < segs.len(),
        0 <= t < segs.len(),
        segs[s].page_start <= a < segs[s].page_end,
        segs[t].page_start <= a < segs[t].page_end,
    ensures
        s == t,
{
    if s < t {
        assert(!ranges_meet(
            segs[t].page_start as int,
            segs[t].page_end as int,
            segs[s].page_start as int,
            segs[s].page_end as int,
        ));
    } else if t < s {
        assert(!ranges_meet(
            segs[s].page_start as int,
            segs[s].page_end as int,
            segs[t].page_start as int,
            segs[t].page_end as int,
        ));
    }
}

/// A loader that stands on the page of an address of a segment stands in that segment.
#[verifier::spinoff_prover]
#[verifier::rlimit(40)]
proof fn lemma_page_of_segment(image: Seq<u8>, load: ElfLoad, s: int, a: int)
    requires
        load.wf(image),
        load.seg_idx == load.summary.segment_count ==> load.stack_idx < 4,
        0 <= s < load.segs().len(),
        load.segs()[s].page_start <= a < load.segs()[s].page_end,
        load.target_page() <= a < load.target_page() + 4096,
    ensures
        load.seg_idx == s,
        load.seg_idx < load.summary.segment_count,
{
    let segs = load.segs();
    let us = load.user_space;
    law_valid_images_are_safe(image, us);
    let len = image.len() as int;
    assert(segment_is_safe(segs[s], len, us));
    if load.seg_idx < load.summary.segment_count {
        let t = load.seg_idx as int;
        assert(segs[t].page_start <= a);
        assert(a < segs[t].page_end) by {
            assert(segment_is_safe(segs[t], len, us));
        }
        lemma_one_segment(segs, len, us, s, t, a);
    }
}

/// What the page that the loader stands on holds at an address of a segment.
proof fn lemma_contents(image: Seq<u8>, load: ElfLoad, s: int, k: int)
    requires
        load.wf(image),
        load.seg_idx == load.summary.segment_count ==> load.stack_idx < 4,
        0 <= s < load.segs().len(),
        0 <= k < load.segs()[s].p_memsz,
        load.target_page() <= load.segs()[s].p_vaddr + k < load.target_page() + 4096,
    ensures
        ({
            let seg = load.segs()[s];
            let c = load.target_contents(image);
            let o = seg.p_vaddr + k - load.target_page();
            let f = load.target_flags();
            &&& k < seg.p_filesz ==> c[o] == image[seg.p_offset + k]
            &&& k >= seg.p_filesz ==> c[o] == 0
            &&& f.present && f.user && !f.cache_disable && !f.write_through
            &&& f.writable == (seg.p_flags & 2 != 0)
            &&& f.no_execute == (seg.p_flags & 1 == 0)
        }),
{
    let seg = load.segs()[s];
    law_valid_images_are_safe(image, load.user_space);
    assert(segment_is_safe(seg, image.len() as int, load.user_space));
    lemma_page_of_segment(image, load, s, seg.p_vaddr + k);
}

/// Every page of a loaded program was mapped.
proof fn lemma_every_page_is_mapped(
    image: Seq<u8>,
    ms: Seq<LoadMoment>,
    evs: Seq<LoadEvent>,
    acts: Seq<LoadAction>,
    j: int,
    a: int,
)
    requires
        is_run(image, ms, evs, acts),
        evs.len() > 0,
        acts.last() is Done,
        0 <= j < program_pages(ms[0].load.segs()).len(),
        program_pages(ms[0].load.segs())[j] <= a < program_pages(ms[0].load.segs())[j] + 4096,
    ensures
        exists|i: int| 0 <= i < acts.len() && #[trigger] maps_address(acts[i], a),
{
    let segs = ms[0].load.segs();
    law_loaded_program_is_complete(image, ms, evs, acts);
    let all = granted(ms, evs, evs.len() as int);
    assert(pages_of(all) == program_pages(segs));
    assert(pages_of(all).len() == all.len());
    assert(pages_of(all)[j] == all[j].0);
    lemma_grants_are_mapped(image, ms, evs, acts, evs.len() as int, j);
    let w = choose|i: int|
        0 <= i < evs.len() && (#[trigger] acts[i]) is MapPage && acts[i]->MapPage_page == all[j].0;
    assert(maps_address(acts[w], a));
}

/// Every address of a segment of a loaded program was mapped.
#[verifier::spinoff_prover]
#[verifier::rlimit(40)]
proof fn lemma_segment_is_mapped(
    image: Seq<u8>,
    ms: Seq<LoadMoment>,
    evs: Seq<LoadEvent>,
    acts: Seq<LoadAction>,
    s: int,
    k: int,
)
    requires
        is_run(image, ms, evs, acts),
        evs.len() > 0,
        acts.last() is Done,
        ms[0].load.wf(image),
        0 <= s < ms[0].load.segs().len(),
        0 <= k < ms[0].load.segs()[s].p_memsz,
    ensures
        exists|i: int|
            0 <= i < acts.len() && #[trigger] maps_address(
                acts[i],
                ms[0].load.segs()[s].p_vaddr + k,
            ),
{
    let segs = ms[0].load.segs();
    let a = segs[s].p_vaddr + k;
    let page = (a - a % 4096) as u64;
    let img = image_pages(segs, segs.len() as int);
    assert(page == a - a % 4096 && exists|j: int|
        0 <= j < img.len() && (#[trigger] img[j]) == page) by {
        law_valid_images_are_safe(image, ms[0].load.user_space);
        assert(segment_is_safe(segs[s], image.len() as int, ms[0].load.user_space));
        lemma_image_pages(segs, segs.len() as int, s, page);
    }
    let j = choose|j: int| 0 <= j < img.len() && (#[trigger] img[j]) == page;
    assert(program_pages(segs)[j] == page);
    lemma_every_page_is_mapped(image, ms, evs, acts, j, a);
}

/// In the memory of a loaded program every address of a segment is there, and the byte at the
/// place `k` of the file part of the segment is the byte at that place of the segment in the
/// image, whichever step put it there. The page may be written or run as the segment says.
#[verifier::rlimit(50)]
#[verifier::spinoff_prover]
pub proof fn law_loaded_segment_is_in_memory(
    image: Seq<u8>,
    ms: Seq<LoadMoment>,
    evs: Seq<LoadEvent>,
    acts: Seq<LoadAction>,
    s: int,
    k: int,
)
    requires
        is_run(image, ms, evs, acts),
        evs.len() > 0,
        acts.last() is Done,
        0 <= s < ms[0].load.segs().len(),
        0 <= k < ms[0].load.segs()[s].p_memsz,
    ensures
        ({
            let seg = ms[0].load.segs()[s];
            let a = seg.p_vaddr + k;
            &&& exists|i: int| 0 <= i < acts.len() && #[trigger] maps_address(acts[i], a)
            &&& forall|i: int|
                0 <= i < acts.len() && #[trigger] maps_address(acts[i], a) ==> {
                    &&& k < seg.p_filesz ==> byte_at(acts[i], a) == image[seg.p_offset + k]
                    &&& k >= seg.p_filesz ==> byte_at(acts[i], a) == 0
                    &&& acts[i]->MapPage_flags.present && acts[i]->MapPage_flags.user
                    &&& acts[i]->MapPage_flags.writable == (seg.p_flags & 2 != 0)
                    &&& acts[i]->MapPage_flags.no_execute == (seg.p_flags & 1 == 0)
                    &&& !acts[i]->MapPage_flags.cache_disable
                    &&& !acts[i]->MapPage_flags.write_through
                }
        }),
{
    let segs = ms[0].load.segs();
    let seg = segs[s];
    let a = seg.p_vaddr + k;
    assert(ms[0].load.wf(image)) by {
        assert(is_step(image, ms[0], ms[1], evs[0], acts[0]));
    }
    lemma_segment_is_mapped(image, ms, evs, acts, s, k);
    assert forall|i: int| 0 <= i < acts.len() && #[trigger] maps_address(acts[i], a) implies {
        &&& k < seg.p_filesz ==> byte_at(acts[i], a) == image[seg.p_offset + k]
        &&& k >= seg.p_filesz ==> byte_at(acts[i], a) == 0
        &&& acts[i]->MapPage_flags.present && acts[i]->MapPage_flags.user
        &&& acts[i]->MapPage_flags.writable == (seg.p_flags & 2 != 0)
        &&& acts[i]->MapPage_flags.no_execute == (seg.p_flags & 1 == 0)
        &&& !acts[i]->MapPage_flags.cache_disable
        &&& !acts[i]->MapPage_flags.write_through
    } by {
        lemma_map_step(image, ms, evs, acts, i);
        assert(ms[i].load.segs() == segs);
        lemma_contents(image, ms[i].load, s, k);
    }
}

/// A byte of the memory of a program that no file part of a segment reaches is zero, whichever
/// step put it there: the rest of the pages of its segments, and its stack.
pub proof fn law_rest_of_loaded_memory_is_zero(
    image: Seq<u8>,
    ms: Seq<LoadMoment>,
    evs: Seq<LoadEvent>,
    acts: Seq<LoadAction>,
    i: int,
    a: int,
)
    requires
        is_run(image, ms, evs, acts),
        0 <= i < evs.len(),
        maps_address(acts[i], a),
        forall|s: int|
            0 <= s < ms[0].load.segs().len() ==> !((#[trigger] ms[0].load.segs()[s]).p_vaddr <= a
                < ms[0].load.segs()[s].p_vaddr + ms[0].load.segs()[s].p_filesz),
    ensures
        byte_at(acts[i], a) == 0,
{
    lemma_map_step(image, ms, evs, acts, i);
    let load = ms[i].load;
    assert(load.segs() == ms[0].load.segs());
    if load.seg_idx < load.summary.segment_count {
        let seg = ms[0].load.segs()[load.seg_idx as int];
        assert(!(seg.p_vaddr <= a < seg.p_vaddr + seg.p_filesz));
    }
}

/// What the page that the loader stands on holds at an address of the stack.
#[verifier::spinoff_prover]
#[verifier::rlimit(40)]
proof fn lemma_stack_contents(image: Seq<u8>, load: ElfLoad, a: int)
    requires
        load.wf(image),
        load.seg_idx == load.summary.segment_count ==> load.stack_idx < 4,
        0x7F7F_FFFF_0000 - 0x4000 <= a < 0x7F7F_FFFF_0000,
        load.target_page() <= a < load.target_page() + 4096,
    ensures
        ({
            let f = load.target_flags();
            &&& load.target_contents(image)[a - load.target_page()] == 0
            &&& f.present && f.user && f.writable && f.no_execute
        }),
{
    if load.seg_idx < load.summary.segment_count {
        let seg = load.segs()[load.seg_idx as int];
        law_valid_images_are_safe(image, load.user_space);
        assert(segment_is_safe(seg, image.len() as int, load.user_space));
        assert(a < seg.page_end);
    }
}

/// Every address of the stack of a loaded program was mapped.
proof fn lemma_stack_is_mapped(
    image: Seq<u8>,
    ms: Seq<LoadMoment>,
    evs: Seq<LoadEvent>,
    acts: Seq<LoadAction>,
    a: int,
)
    requires
        is_run(image, ms, evs, acts),
        evs.len() > 0,
        acts.last() is Done,
        0x7F7F_FFFF_0000 - 0x4000 <= a < 0x7F7F_FFFF_0000,
    ensures
        exists|i: int| 0 <= i < acts.len() && #[trigger] maps_address(acts[i], a),
{
    let segs = ms[0].load.segs();
    let page = (a - a % 4096) as u64;
    let img = image_pages(segs, segs.len() as int);
    let n = (page - (0x7F7F_FFFF_0000 - 0x4000)) / 4096;
    assert(stack_pages(4)[n] == page);
    let j = img.len() + n;
    assert(program_pages(segs)[j] == page);
    lemma_every_page_is_mapped(image, ms, evs, acts, j, a);
}

/// The stack of a loaded program: the four pages below its top are there, hold zeros, and may be
/// written but not run.
#[verifier::spinoff_prover]
pub proof fn law_stack_of_loaded_program(
    image: Seq<u8>,
    ms: Seq<LoadMoment>,
    evs: Seq<LoadEvent>,
    acts: Seq<LoadAction>,
    a: int,
)
    requires
        is_run(image, ms, evs, acts),
        evs.len() > 0,
        acts.last() is Done,
        0x7F7F_FFFF_0000 - 0x4000 <= a < 0x7F7F_FFFF_0000,
    ensures
        exists|i: int| 0 <= i < acts.len() && #[trigger] maps_address(acts[i], a),
        forall|i: int|
            0 <= i < acts.len() && #[trigger] maps_address(acts[i], a) ==> {
                &&& byte_at(acts[i], a) == 0
                &&& acts[i]->MapPage_flags.present && acts[i]->MapPage_flags.user
                &&& acts[i]->MapPage_flags.writable && acts[i]->MapPage_flags.no_execute
            },
{
    lemma_stack_is_mapped(image, ms, evs, acts, a);
    assert forall|i: int| 0 <= i < acts.len() && #[trigger] maps_address(acts[i], a) implies {
        &&& byte_at(acts[i], a) == 0
        &&& acts[i]->MapPage_flags.present && acts[i]->MapPage_flags.user
        &&& acts[i]->MapPage_flags.writable && acts[i]->MapPage_flags.no_execute
    } by {
        lemma_map_step(image, ms, evs, acts, i);
        lemma_stack_contents(image, ms[i].load, a);
    }
}

/// The program header `h` of an image asks for a segment to be loaded.
pub open spec fn is_loadable(image: Seq<u8>, h: int) -> bool {
    le32(image, le64(image, 32) + 56 * h) == 1
}

/// A header of an image is what a segment was made of.
pub open spec fn describes(image: Seq<u8>, h: int, seg: ValidatedSegment) -> bool {
    let o = le64(image, 32) + 56 * h;
    &&& le32(image, o) == 1
    &&& seg.p_flags == le32(image, o + 4)
    &&& seg.p_offset == le64(image, o + 8)
    &&& seg.p_vaddr == le64(image, o + 16)
    &&& seg.p_filesz == le64(image, o + 32)
    &&& seg.p_memsz == le64(image, o + 40)
    &&& seg.page_start % 4096 == 0
    &&& seg.page_start <= seg.p_vaddr < seg.page_start + 4096
    &&& seg.page_end % 4096 == 0
    &&& seg.page_end - 4096 < seg.p_vaddr + seg.p_memsz <= seg.page_end
}

/// The pages of a segment are those that its memory touches.
proof fn lemma_segment_pages(
    ph: Elf64Phdr,
    len: int,
    us: UserSpace,
    prior: Seq<ValidatedSegment>,
)
    requires
        load_fault(ph, len, us, prior) is None,
    ensures
        ({
            let seg = segment_of(ph);
            &&& seg.page_start % 4096 == 0
            &&& seg.page_start <= ph.p_vaddr < seg.page_start + 4096
            &&& seg.page_end % 4096 == 0
            &&& seg.page_end - 4096 < ph.p_vaddr + ph.p_memsz <= seg.page_end
        }),
{
}

/// A header without fault describes the segment that is made of it.
proof fn lemma_described(s: Seq<u8>, h: int, us: UserSpace, prior: Seq<ValidatedSegment>)
    requires
        load_fault(phdr_at(s, le64(s, 32) + h * 56), s.len() as int, us, prior) is None,
        is_loadable(s, h),
    ensures
        describes(s, h, segment_of(phdr_at(s, le64(s, 32) + h * 56))),
{
    let o = le64(s, 32) + 56 * h;
    assert(o == le64(s, 32) + h * 56);
    lemma_segment_pages(phdr_at(s, o), s.len() as int, us, prior);
}

/// What a scan adds for its last header.
proof fn lemma_scan_step(s: Seq<u8>, n: int, us: UserSpace)
    requires
        scan(s, le64(s, 32) as int, n, us) is Ok,
        0 < n,
    ensures
        scan(s, le64(s, 32) as int, n - 1, us) is Ok,
        ({
            let prior = scan(s, le64(s, 32) as int, n - 1, us)->Ok_0;
            let segs = scan(s, le64(s, 32) as int, n, us)->Ok_0;
            if is_loadable(s, n - 1) {
                &&& segs.len() == prior.len() + 1
                &&& segs.drop_last() == prior
                &&& describes(s, n - 1, segs.last())
            } else {
                segs == prior
            }
        }),
{
    let phoff = le64(s, 32) as int;
    let prior = scan(s, phoff, n - 1, us)->Ok_0;
    let segs = scan(s, phoff, n, us)->Ok_0;
    let ph = phdr_at(s, phoff + (n - 1) * 56);
    assert(56 * (n - 1) == (n - 1) * 56);
    if is_loadable(s, n - 1) {
        assert(ph.p_type == PT_LOAD);
        assert(header_step(ph, s.len() as int, us, prior) is Ok);
        lemma_described(s, n - 1, us, prior);
        assert(segs == prior.push(segment_of(ph)));
        assert(segs.drop_last() =~= prior);
    }
}

pub proof fn lemma_header_scanned(s: Seq<u8>, n: int, us: UserSpace, h: int)
    requires
        scan(s, le64(s, 32) as int, n, us) is Ok,
        0 <= h < n,
        is_loadable(s, h),
    ensures
        exists|k: int|
            0 <= k < scan(s, le64(s, 32) as int, n, us)->Ok_0.len() && describes(
                s,
                h,
                #[trigger] scan(s, le64(s, 32) as int, n, us)->Ok_0[k],
            ),
    decreases n,
{
    lemma_scan_step(s, n, us);
    let prior = scan(s, le64(s, 32) as int, n - 1, us)->Ok_0;
    let segs = scan(s, le64(s, 32) as int, n, us)->Ok_0;
    if h < n - 1 {
        lemma_header_scanned(s, n - 1, us, h);
        let k = choose|k: int| 0 <= k < prior.len() && describes(s, h, #[trigger] prior[k]);
        assert(segs[k] == prior[k]);
    } else {
        assert(describes(s, h, segs[segs.len() - 1]));
    }
}

pub proof fn lemma_segment_scanned(s: Seq<u8>, n: int, us: UserSpace, k: int)
    requires
        scan(s, le64(s, 32) as int, n, us) is Ok,
        0 <= n,
        0 <= k < scan(s, le64(s, 32) as int, n, us)->Ok_0.len(),
    ensures
        exists|h: int|
            0 <= h < n && #[trigger] describes(
                s,
                h,
                scan(s, le64(s, 32) as int, n, us)->Ok_0[k],
            ),
    decreases n,
{
    if n > 0 {
        lemma_scan_step(s, n, us);
        let prior = scan(s, le64(s, 32) as int, n - 1, us)->Ok_0;
        let segs = scan(s, le64(s, 32) as int, n, us)->Ok_0;
        if k < prior.len() {
            lemma_segment_scanned(s, n - 1, us, k);
            assert(segs[k] == prior[k]);
        } else {
            assert(describes(s, n - 1, segs[k]));
        }
    }
}

/// The segments of a valid image are those that a scan of its headers finds.
proof fn lemma_validation_scans(s: Seq<u8>, us: UserSpace)
    requires
        validation(s, us) is Ok,
    ensures
        scan(s, le64(s, 32) as int, le16(s, 56) as int, us) == validation(s, us),
{
    reveal(validation);
}

/// Each loadable header of a valid image gives a segment with the numbers that the image holds for
/// it, whose pages are those that its memory touches.
pub proof fn law_loadable_header_has_its_segment(s: Seq<u8>, us: UserSpace, h: int)
    requires
        validation(s, us) is Ok,
        0 <= h < le16(s, 56),
        is_loadable(s, h),
    ensures
        exists|k: int|
            0 <= k < validation(s, us)->Ok_0.len() && describes(
                s,
                h,
                #[trigger] validation(s, us)->Ok_0[k],
            ),
{
    lemma_validation_scans(s, us);
    lemma_header_scanned(s, le16(s, 56) as int, us, h);
}

/// Each segment of a valid image comes from one of its loadable headers.
pub proof fn law_segment_has_its_header(s: Seq<u8>, us: UserSpace, k: int)
    requires
        validation(s, us) is Ok,
        0 <= k < validation(s, us)->Ok_0.len(),
    ensures
        exists|h: int|
            0 <= h < le16(s, 56) && #[trigger] describes(s, h, validation(s, us)->Ok_0[k]),
{
    lemma_validation_scans(s, us);
    lemma_segment_scanned(s, le16(s, 56) as int, us, k);
}

/// The memory of a loaded program is its image: for each loadable header, the byte at the place
/// `k` of its file part is at the address that the header gives for it.
pub proof fn law_loaded_memory_is_the_image(
    image: Seq<u8>,
    ms: Seq<LoadMoment>,
    evs: Seq<LoadEvent>,
    acts: Seq<LoadAction>,
    h: int,
    k: int,
)
    requires
        is_run(image, ms, evs, acts),
        evs.len() > 0,
        acts.last() is Done,
        0 <= h < le16(image, 56),
        is_loadable(image, h),
        0 <= k < le64(image, le64(image, 32) + 56 * h + 32),
    ensures
        ({
            let o = le64(image, 32) + 56 * h;
            let a = le64(image, o + 16) + k;
            exists|i: int|
                0 <= i < acts.len() && #[trigger] maps_address(acts[i], a) && byte_at(acts[i], a)
                    == image[le64(image, o + 8) + k]
        }),
{
    assert(is_step(image, ms[0], ms[1], evs[0], acts[0]));
    let us = ms[0].load.user_space;
    let segs = ms[0].load.segs();
    law_loadable_header_has_its_segment(image, us, h);
    law_valid_images_are_safe(image, us);
    let s = choose|s: int| 0 <= s < segs.len() && describes(image, h, #[trigger] segs[s]);
    assert(segment_is_safe(segs[s], image.len() as int, us));
    law_loaded_segment_is_in_memory(image, ms, evs, acts, s, k);
    let a = segs[s].p_vaddr + k;
    let i = choose|i: int| 0 <= i < acts.len() && #[trigger] maps_address(acts[i], a);
    assert(byte_at(acts[i], a) == image[segs[s].p_offset + k]);
}

} // verus!
