//! Which images are accepted.
use crate::bytes::{le16, le32, le64};
use crate::elf::memory_laws::{
    describes, is_loadable, lemma_header_scanned, lemma_segment_scanned,
};
use crate::elf::types::{phdr_at, Elf64Phdr, ELFMAG};
use crate::elf::validate::{
    covers_entry, header_fault, header_step, load_fault, scan, validation, UserSpace,
    ValidatedSegment,
};
use vstd::arithmetic::power2::is_pow2;
use vstd::prelude::*;

verus! {

/// The program header `h` of an image.
pub open spec fn header_at(s: Seq<u8>, h: int) -> Elf64Phdr {
    phdr_at(s, le64(s, 32) + 56 * h)
}

/// A segment can be loaded: its file part lies in the image and is no larger than the segment, the
/// segment lies in the part of the address space that programs may use and off the stack, address
/// and place in the file agree within a page, and it may be read, but not both written and run.
pub open spec fn can_be_loaded(ph: Elf64Phdr, len: int, us: UserSpace) -> bool {
    &&& ph.p_offset + ph.p_filesz <= len
    &&& ph.p_filesz <= ph.p_memsz
    &&& us.va_min <= ph.p_vaddr
    &&& ph.p_vaddr + ph.p_memsz <= us.va_max_exclusive
    &&& ph.p_vaddr + ph.p_memsz + 4095 <= u64::MAX
    &&& us.canonical(ph.p_vaddr as int)
    &&& ph.p_memsz > 0 ==> us.canonical(ph.p_vaddr + ph.p_memsz - 1)
    &&& ph.p_align > 1 ==> is_pow2(ph.p_align as int) && ph.p_align >= 4096 && ph.p_vaddr
        % ph.p_align == ph.p_offset % ph.p_align
    &&& ph.p_vaddr % 4096 == ph.p_offset % 4096
    &&& ph.p_flags & 4 != 0
    &&& ph.p_flags & 2 == 0 || ph.p_flags & 1 == 0
    &&& pages_end(ph) <= 0x7F7F_FFFE_B000 || pages_start(ph) >= 0x7F7F_FFFF_0000
}

/// Where the pages of a segment begin.
pub open spec fn pages_start(ph: Elf64Phdr) -> int {
    ph.p_vaddr as int / 4096 * 4096
}

/// Where the pages of a segment end.
pub open spec fn pages_end(ph: Elf64Phdr) -> int {
    (ph.p_vaddr + ph.p_memsz + 4095) / 4096 * 4096
}

/// A program header is one that the loader knows and is in order by itself.
pub open spec fn is_acceptable(ph: Elf64Phdr, len: int, us: UserSpace) -> bool {
    ||| ph.p_type == 1 && can_be_loaded(ph, len, us)
    ||| (ph.p_type == 4 || ph.p_type == 6) && ph.p_offset + ph.p_filesz <= len
    ||| ph.p_type == 0x6474_E551 && ph.p_flags & 1 == 0
}

/// Two segments have no page in common.
pub open spec fn are_apart(a: Elf64Phdr, b: Elf64Phdr) -> bool {
    a.p_type == 1 && b.p_type == 1 ==> pages_end(a) <= pages_start(b) || pages_end(b)
        <= pages_start(a)
}

/// The first `n` program headers are in order.
pub open spec fn headers_fit(s: Seq<u8>, us: UserSpace, n: int) -> bool {
    &&& forall|h: int|
        0 <= h < n ==> is_acceptable(#[trigger] header_at(s, h), s.len() as int, us)
    &&& forall|g: int, h: int|
        0 <= g < h < n ==> are_apart(#[trigger] header_at(s, g), #[trigger] header_at(s, h))
}

/// The file header is that of a program for this machine.
pub open spec fn is_program(s: Seq<u8>) -> bool {
    &&& s.len() >= 64
    &&& s[0] == 0x7F && s[1] == 0x45 && s[2] == 0x4C && s[3] == 0x46
    &&& s[4] == 2 && s[5] == 1 && s[6] == 1
    &&& le16(s, 16) == 2
    &&& le16(s, 18) == 0x3E
    &&& le32(s, 20) == 1
    &&& le16(s, 52) == 64
    &&& le16(s, 54) == 56
    &&& 1 <= le16(s, 56) <= 16
    &&& le64(s, 32) + 56 * le16(s, 56) <= s.len()
}

/// The entry point lies in a segment that may be run.
pub open spec fn entry_is_covered(s: Seq<u8>, us: UserSpace) -> bool {
    let entry = le64(s, 24);
    &&& us.va_min <= entry < us.va_max_exclusive
    &&& us.canonical(entry as int)
    &&& exists|h: int|
        0 <= h < le16(s, 56) && (#[trigger] header_at(s, h)).p_type == 1 && header_at(s, h).p_flags
            & 1 != 0 && header_at(s, h).p_vaddr <= entry < header_at(s, h).p_vaddr + header_at(
            s,
            h,
        ).p_memsz
}

proof fn lemma_header_fault(s: Seq<u8>)
    ensures
        header_fault(s) is None <==> is_program(s),
{
    if s.len() >= 64 {
        let t = s.take(4);
        assert(t[0] == s[0] && t[1] == s[1] && t[2] == s[2] && t[3] == s[3]);
        let m = ELFMAG@;
        assert(m[0] == 0x7F && m[1] == 0x45 && m[2] == 0x4C && m[3] == 0x46);
        if s[0] == 0x7F && s[1] == 0x45 && s[2] == 0x4C && s[3] == 0x46 {
            assert(t =~= m);
        }
    }
}

/// The pages that a described segment has are those of its header.
proof fn lemma_described_pages(s: Seq<u8>, h: int, seg: ValidatedSegment)
    requires
        describes(s, h, seg),
    ensures
        seg.page_start == pages_start(header_at(s, h)),
        seg.page_end == pages_end(header_at(s, h)),
        seg.p_flags == header_at(s, h).p_flags,
        seg.p_vaddr == header_at(s, h).p_vaddr,
        seg.p_memsz == header_at(s, h).p_memsz,
        header_at(s, h).p_type == 1,
{
    let ph = header_at(s, h);
    assert(seg.p_vaddr == ph.p_vaddr && seg.p_memsz == ph.p_memsz);
    lemma_floor(seg.p_vaddr as int, seg.page_start as int);
    lemma_ceil(seg.p_vaddr + seg.p_memsz, seg.page_end as int);
}

proof fn lemma_floor(a: int, p: int)
    requires
        p % 4096 == 0,
        p <= a < p + 4096,
    ensures
        p == a / 4096 * 4096,
{
}

proof fn lemma_ceil(a: int, p: int)
    requires
        p % 4096 == 0,
        p - 4096 < a <= p,
    ensures
        p == (a + 4095) / 4096 * 4096,
{
}

/// One more loadable header passes exactly if it can be loaded and shares no page with a segment
/// before it.
proof fn lemma_load_passes(
    ph: Elf64Phdr,
    len: int,
    us: UserSpace,
    prior: Seq<ValidatedSegment>,
)
    ensures
        load_fault(ph, len, us, prior) is None <==> can_be_loaded(ph, len, us) && forall|k: int|
            0 <= k < prior.len() ==> pages_start(ph) >= (#[trigger] prior[k]).page_end
                || pages_end(ph) <= prior[k].page_start,
{
    let a = ph.p_vaddr as int;
    let e = ph.p_vaddr + ph.p_memsz;
    assert(a - a % 4096 == a / 4096 * 4096);
    assert((e + 4095) - (e + 4095) % 4096 == (e + 4095) / 4096 * 4096);
}

/// A scan of the first headers succeeds exactly if they are in order.
pub proof fn lemma_scan_succeeds(s: Seq<u8>, us: UserSpace, n: int)
    requires
        0 <= n,
    ensures
        scan(s, le64(s, 32) as int, n, us) is Ok <==> headers_fit(s, us, n),
    decreases n,
{
    if n > 0 {
        lemma_scan_succeeds(s, us, n - 1);
        let phoff = le64(s, 32) as int;
        let ph = header_at(s, n - 1);
        assert(56 * (n - 1) == (n - 1) * 56);
        assert(ph == phdr_at(s, phoff + (n - 1) * 56));
        if scan(s, phoff, n - 1, us) is Ok {
            let prior = scan(s, phoff, n - 1, us)->Ok_0;
            lemma_load_passes(ph, s.len() as int, us, prior);
            assert((header_step(ph, s.len() as int, us, prior) is Ok) == (is_acceptable(
                ph,
                s.len() as int,
                us,
            ) && (ph.p_type == 1 ==> load_fault(ph, s.len() as int, us, prior) is None)));
            if ph.p_type == 1 {
                lemma_apart_from_prior(s, us, n, ph, prior);
            }
        }
    }
}

/// A segment shares no page with those before it exactly if its header shares none with the headers
/// before it.
proof fn lemma_apart_from_prior(
    s: Seq<u8>,
    us: UserSpace,
    n: int,
    ph: Elf64Phdr,
    prior: Seq<ValidatedSegment>,
)
    requires
        0 < n,
        scan(s, le64(s, 32) as int, n - 1, us) is Ok,
        prior == scan(s, le64(s, 32) as int, n - 1, us)->Ok_0,
        ph.p_type == 1,
    ensures
        (forall|k: int|
            0 <= k < prior.len() ==> pages_start(ph) >= (#[trigger] prior[k]).page_end
                || pages_end(ph) <= prior[k].page_start) <==> (forall|g: int|
            0 <= g < n - 1 ==> are_apart(#[trigger] header_at(s, g), ph)),
{
    if forall|g: int| 0 <= g < n - 1 ==> are_apart(#[trigger] header_at(s, g), ph) {
        assert forall|k: int| 0 <= k < prior.len() implies pages_start(ph) >= (
        #[trigger] prior[k]).page_end || pages_end(ph) <= prior[k].page_start by {
            lemma_segment_scanned(s, n - 1, us, k);
            let g = choose|g: int| 0 <= g < n - 1 && #[trigger] describes(s, g, prior[k]);
            lemma_described_pages(s, g, prior[k]);
            assert(are_apart(header_at(s, g), ph));
        }
    }
    if forall|k: int|
        0 <= k < prior.len() ==> pages_start(ph) >= (#[trigger] prior[k]).page_end || pages_end(ph)
            <= prior[k].page_start {
        assert forall|g: int| 0 <= g < n - 1 implies are_apart(
            #[trigger] header_at(s, g),
            ph,
        ) by {
            if header_at(s, g).p_type == 1 {
                assert(is_loadable(s, g));
                lemma_header_scanned(s, n - 1, us, g);
                let k = choose|k: int| 0 <= k < prior.len() && describes(s, g, #[trigger] prior[k]);
                lemma_described_pages(s, g, prior[k]);
            }
        }
    }
}

/// An image is accepted exactly if its file header is that of a program for this machine, each of
/// its program headers is in order, no two segments share a page, and its entry point lies in a
/// segment that may be run.
pub proof fn law_image_is_accepted_exactly_if_sound(s: Seq<u8>, us: UserSpace)
    ensures
        validation(s, us) is Ok <==> is_program(s) && headers_fit(s, us, le16(s, 56) as int)
            && entry_is_covered(s, us),
{
    lemma_header_fault(s);
    let n = le16(s, 56) as int;
    lemma_scan_succeeds(s, us, n);
    lemma_validation_splits(s, us);
    if scan(s, le64(s, 32) as int, n, us) is Ok {
        lemma_entry(s, us);
    }
}

/// What an image has to pass.
proof fn lemma_validation_splits(s: Seq<u8>, us: UserSpace)
    ensures
        validation(s, us) is Ok <==> {
            let r = scan(s, le64(s, 32) as int, le16(s, 56) as int, us);
            &&& header_fault(s) is None
            &&& r is Ok
            &&& segment_covers(r->Ok_0, us, le64(s, 24) as int)
        },
{
    reveal(validation);
    let r = scan(s, le64(s, 32) as int, le16(s, 56) as int, us);
    if r is Ok && segment_covers(r->Ok_0, us, le64(s, 24) as int) {
        let segs = r->Ok_0;
        let k = choose|k: int|
            0 <= k < segs.len() && covers_entry(#[trigger] segs[k], le64(s, 24) as int);
        assert(covers_entry(segs[k], le64(s, 24) as int));
    }
}

/// One of the segments covers the entry point, which is an address that programs may use.
spec fn segment_covers(segs: Seq<ValidatedSegment>, us: UserSpace, entry: int) -> bool {
    &&& us.canonical(entry)
    &&& us.va_min <= entry < us.va_max_exclusive
    &&& exists|k: int| 0 <= k < segs.len() && covers_entry(#[trigger] segs[k], entry)
}

/// A segment covers the entry point exactly if a header does.
proof fn lemma_entry(s: Seq<u8>, us: UserSpace)
    requires
        scan(s, le64(s, 32) as int, le16(s, 56) as int, us) is Ok,
    ensures
        segment_covers(
            scan(s, le64(s, 32) as int, le16(s, 56) as int, us)->Ok_0,
            us,
            le64(s, 24) as int,
        ) <==> entry_is_covered(s, us),
{
    let n = le16(s, 56) as int;
    let segs = scan(s, le64(s, 32) as int, n, us)->Ok_0;
    let entry = le64(s, 24) as int;
    if exists|k: int| 0 <= k < segs.len() && covers_entry(#[trigger] segs[k], entry) {
        let k = choose|k: int| 0 <= k < segs.len() && covers_entry(#[trigger] segs[k], entry);
        lemma_segment_scanned(s, n, us, k);
        let h = choose|h: int| 0 <= h < n && #[trigger] describes(s, h, segs[k]);
        lemma_described_pages(s, h, segs[k]);
        assert(header_at(s, h).p_type == 1);
    }
    if entry_is_covered(s, us) {
        let h = choose|h: int|
            0 <= h < n && (#[trigger] header_at(s, h)).p_type == 1 && header_at(s, h).p_flags & 1
                != 0 && header_at(s, h).p_vaddr <= entry < header_at(s, h).p_vaddr + header_at(
                s,
                h,
            ).p_memsz;
        assert(is_loadable(s, h));
        lemma_header_scanned(s, n, us, h);
        let k = choose|k: int| 0 <= k < segs.len() && describes(s, h, #[trigger] segs[k]);
        lemma_described_pages(s, h, segs[k]);
        assert(covers_entry(segs[k], entry));
    }
}

/// The addresses that exist are the lower half up to its end and its mirror image at the top; what
/// lies between them does not exist.
pub proof fn law_addresses_that_exist(us: UserSpace, a: u64)
    ensures
        us.canonical(a as int) <==> us.canonical(0xFFFF_FFFF_FFFF_FFFF - a),
        a < us.low_half_end ==> us.canonical(a as int),
        us.low_half_end <= a && a + us.low_half_end < 0x1_0000_0000_0000_0000 ==> !us.canonical(
            a as int,
        ),
{
}

} // verus!
