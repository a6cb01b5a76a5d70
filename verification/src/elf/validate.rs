//! Checks that an image has to pass before anything of it is loaded.
use crate::bytes::{le16, le32, le64};
use crate::elf::types::{
    is_ehdr_of, phdr_at, Elf64Ehdr, Elf64Phdr, ElfError, ELFCLASS64, ELFDATA2LSB, ELFMAG, EM_X86_64, ET_EXEC,
    MAX_PROGRAM_HEADERS, PF_R, PF_W, PF_X, PT_GNU_STACK, PT_LOAD, PT_NOTE, PT_PHDR,
    USER_STACK_GUARD, USER_STACK_TOP,
};
use vstd::arithmetic::power2::is_pow2;
use vstd::prelude::*;

verus! {

/// Which virtual addresses a user program may use.
#[derive(Debug, Clone, Copy, PartialEq, Eq, Structural)]
pub struct UserSpace {
    /// Lowest user address.
    pub va_min: u64,
    /// First address above the user half.
    pub va_max_exclusive: u64,
    /// End of the lower half of the canonical addresses; the upper half mirrors it.
    pub low_half_end: u64,
}

impl UserSpace {
    /// An address is canonical when it lies in the lower half or in its mirror image at the top.
    pub open spec fn canonical(self, addr: int) -> bool {
        addr < self.low_half_end || addr >= 0x1_0000_0000_0000_0000 - self.low_half_end
    }

    pub fn is_canonical(&self, addr: u64) -> (r: bool)
        ensures
            r == self.canonical(addr as int),
    {
        addr < self.low_half_end || u64::MAX - addr < self.low_half_end
    }
}

/// A loadable segment that passed every check.
#[derive(Debug, Clone, Copy, PartialEq, Eq, Structural)]
pub struct ValidatedSegment {
    pub p_flags: u32,
    pub p_offset: u64,
    pub p_vaddr: u64,
    pub p_filesz: u64,
    pub p_memsz: u64,
    pub page_start: u64,
    pub page_end: u64,
}

/// What is known of an image that passed every check.
#[derive(Debug, Clone, Copy)]
pub struct ElfValidationSummary {
    pub entry_point: u64,
    pub segment_count: usize,
    pub segments: [ValidatedSegment; MAX_PROGRAM_HEADERS],
}

impl ElfValidationSummary {
    /// The segments in the order of their program headers.
    pub open spec fn segs(&self) -> Seq<ValidatedSegment> {
        self.segments@.take(self.segment_count as int)
    }
}

/// The largest multiple of the page size that is at most `a`.
pub open spec fn page_floor(a: int) -> int {
    a - a % 4096
}

/// The smallest multiple of the page size that is at least `a`.
pub open spec fn page_ceil(a: int) -> int {
    (a + 4095) - (a + 4095) % 4096
}

/// Two half-open address ranges share an address, or one of them is empty and lies inside the
/// other.
pub open spec fn ranges_meet(s1: int, e1: int, s2: int, e2: int) -> bool {
    s1 < e2 && e1 > s2
}

/// The segment that a loadable program header describes.
pub open spec fn segment_of(ph: Elf64Phdr) -> ValidatedSegment {
    ValidatedSegment {
        p_flags: ph.p_flags,
        p_offset: ph.p_offset,
        p_vaddr: ph.p_vaddr,
        p_filesz: ph.p_filesz,
        p_memsz: ph.p_memsz,
        page_start: page_floor(ph.p_vaddr as int) as u64,
        page_end: page_ceil(ph.p_vaddr + ph.p_memsz) as u64,
    }
}

/// The file part of a header lies inside an image of `len` bytes.
pub open spec fn in_file(ph: Elf64Phdr, len: int) -> bool {
    ph.p_offset + ph.p_filesz <= len
}

/// Address and file offset agree modulo the alignment of the header.
pub open spec fn aligned_alike(ph: Elf64Phdr) -> bool {
    &&& ph.p_align > 1 ==> ph.p_vaddr % ph.p_align == ph.p_offset % ph.p_align
    &&& ph.p_vaddr % 4096 == ph.p_offset % 4096
}

/// The first check that a loadable header fails, with `prior` the segments before it; `None` when
/// it passes all of them.
pub open spec fn load_fault(
    ph: Elf64Phdr,
    len: int,
    us: UserSpace,
    prior: Seq<ValidatedSegment>,
) -> Option<ElfError> {
    let mem_end = ph.p_vaddr + ph.p_memsz;
    if !in_file(ph, len) {
        Some(ElfError::FileBoundsExceeded)
    } else if ph.p_filesz > ph.p_memsz {
        Some(ElfError::MalformedSegment)
    } else if mem_end > u64::MAX {
        Some(ElfError::VirtualAddressOverflow)
    } else if ph.p_vaddr < us.va_min || mem_end > us.va_max_exclusive {
        Some(ElfError::OutOfUserBounds)
    } else if !us.canonical(ph.p_vaddr as int) || (ph.p_memsz > 0 && !us.canonical(mem_end - 1)) {
        Some(ElfError::OutOfUserBounds)
    } else if ph.p_align > 1 && !(is_pow2(ph.p_align as int) && ph.p_align >= 4096) {
        Some(ElfError::InvalidAlignment)
    } else if !aligned_alike(ph) {
        Some(ElfError::MisalignedOffsetCongruence)
    } else if ph.p_flags & PF_W != 0 && ph.p_flags & PF_X != 0 {
        Some(ElfError::WwxViolation)
    } else if ph.p_flags & PF_R == 0 {
        Some(ElfError::InvalidPermissions)
    } else if mem_end + 4095 > u64::MAX {
        Some(ElfError::VirtualAddressOverflow)
    } else if ranges_meet(
        page_floor(ph.p_vaddr as int),
        page_ceil(mem_end),
        USER_STACK_GUARD as int,
        USER_STACK_TOP as int,
    ) {
        Some(ElfError::OverlappingSegments)
    } else if exists|k: int|
        0 <= k < prior.len() && ranges_meet(
            page_floor(ph.p_vaddr as int),
            page_ceil(mem_end),
            (#[trigger] prior[k]).page_start as int,
            prior[k].page_end as int,
        ) {
        Some(ElfError::OverlappingSegments)
    } else {
        None
    }
}

/// What one program header adds to the segments `prior` before it, or what is wrong with it.
pub open spec fn header_step(
    ph: Elf64Phdr,
    len: int,
    us: UserSpace,
    prior: Seq<ValidatedSegment>,
) -> Result<Option<ValidatedSegment>, ElfError> {
    if ph.p_type == PT_LOAD {
        match load_fault(ph, len, us, prior) {
            Some(e) => Err(e),
            None => Ok(Some(segment_of(ph))),
        }
    } else if ph.p_type == PT_PHDR || ph.p_type == PT_NOTE {
        if in_file(ph, len) {
            Ok(None)
        } else {
            Err(ElfError::FileBoundsExceeded)
        }
    } else if ph.p_type == PT_GNU_STACK {
        if ph.p_flags & PF_X != 0 {
            Err(ElfError::ExecutableStackRejected)
        } else {
            Ok(None)
        }
    } else {
        Err(ElfError::UnsupportedProgramHeader)
    }
}

/// The segments of the first `n` program headers, or the error of the first header at fault.
pub open spec fn scan(s: Seq<u8>, phoff: int, n: int, us: UserSpace) -> Result<
    Seq<ValidatedSegment>,
    ElfError,
>
    decreases n,
{
    if n <= 0 {
        Ok(Seq::empty())
    } else {
        match scan(s, phoff, n - 1, us) {
            Err(e) => Err(e),
            Ok(prior) => match header_step(
                phdr_at(s, phoff + (n - 1) * 56),
                s.len() as int,
                us,
                prior,
            ) {
                Err(e) => Err(e),
                Ok(None) => Ok(prior),
                Ok(Some(seg)) => Ok(prior.push(seg)),
            },
        }
    }
}

/// An executable segment covers the address.
pub open spec fn covers_entry(seg: ValidatedSegment, entry: int) -> bool {
    seg.p_flags & PF_X != 0 && seg.p_vaddr <= entry < seg.p_vaddr + seg.p_memsz
}

/// The first check that the file header fails.
pub open spec fn header_fault(s: Seq<u8>) -> Option<ElfError> {
    if s.len() < 64 {
        Some(ElfError::ImageTooSmall)
    } else if s.take(4) != ELFMAG@ {
        Some(ElfError::InvalidMagic)
    } else if s[4] != ELFCLASS64 {
        Some(ElfError::UnsupportedClass)
    } else if s[5] != ELFDATA2LSB {
        Some(ElfError::UnsupportedEndian)
    } else if s[6] != 1 {
        Some(ElfError::UnsupportedVersion)
    } else if le16(s, 16) != ET_EXEC {
        Some(ElfError::UnsupportedType)
    } else if le16(s, 18) != EM_X86_64 {
        Some(ElfError::UnsupportedMachine)
    } else if le32(s, 20) != 1 {
        Some(ElfError::UnsupportedVersion)
    } else if le16(s, 52) != 64 || le16(s, 54) != 56 {
        Some(ElfError::InvalidHeader)
    } else if le16(s, 56) == 0 || le16(s, 56) > MAX_PROGRAM_HEADERS {
        Some(ElfError::InvalidHeader)
    } else if le64(s, 32) + le16(s, 56) * 56 > s.len() {
        Some(ElfError::FileBoundsExceeded)
    } else {
        None
    }
}

/// What the checks say of an image: its segments, or the first error.
#[verifier::opaque]
pub open spec fn validation(s: Seq<u8>, us: UserSpace) -> Result<Seq<ValidatedSegment>, ElfError> {
    match header_fault(s) {
        Some(e) => Err(e),
        None => match scan(s, le64(s, 32) as int, le16(s, 56) as int, us) {
            Err(e) => Err(e),
            Ok(segs) => {
                let entry = le64(s, 24) as int;
                if segs.len() == 0 {
                    Err(ElfError::MalformedSegment)
                } else if !us.canonical(entry) || entry < us.va_min || entry >= us.va_max_exclusive
                    || !(exists|k: int|
                    0 <= k < segs.len() && covers_entry(#[trigger] segs[k], entry)) {
                    Err(ElfError::InvalidEntryPoint)
                } else {
                    Ok(segs)
                }
            },
        },
    }
}

/// Decides whether a number is a power of two.
fn is_power_of_two(v: u64) -> (r: bool)
    ensures
        r == is_pow2(v as int),
{
    if v == 0 {
        reveal(is_pow2);
        return false;
    }
    let mut x: u64 = v;
    while x % 2 == 0
        invariant
            x > 0,
            is_pow2(x as int) == is_pow2(v as int),
        decreases x,
    {
        reveal(is_pow2);
        x = x / 2;
    }
    reveal(is_pow2);
    x == 1
}

/// Runs the checks of a loadable header.
fn check_load(
    ph: &Elf64Phdr,
    len: u64,
    us: &UserSpace,
    segments: &[ValidatedSegment; MAX_PROGRAM_HEADERS],
    load_count: usize,
) -> (r: Result<ValidatedSegment, ElfError>)
    requires
        load_count <= MAX_PROGRAM_HEADERS,
    ensures
        match load_fault(*ph, len as int, *us, segments@.take(load_count as int)) {
            Some(e) => r == Err::<ValidatedSegment, ElfError>(e),
            None => r == Ok::<ValidatedSegment, ElfError>(segment_of(*ph)),
        },
{
    match ph.p_offset.checked_add(ph.p_filesz) {
        None => {
            return Err(ElfError::FileBoundsExceeded);
        },
        Some(file_end) => {
            if file_end > len {
                return Err(ElfError::FileBoundsExceeded);
            }
        },
    }
    if ph.p_filesz > ph.p_memsz {
        return Err(ElfError::MalformedSegment);
    }
    let mem_end: u64 = match ph.p_vaddr.checked_add(ph.p_memsz) {
        None => {
            return Err(ElfError::VirtualAddressOverflow);
        },
        Some(e) => e,
    };
    if ph.p_vaddr < us.va_min || mem_end > us.va_max_exclusive {
        return Err(ElfError::OutOfUserBounds);
    }
    if !us.is_canonical(ph.p_vaddr) || (ph.p_memsz > 0 && !us.is_canonical(mem_end - 1)) {
        return Err(ElfError::OutOfUserBounds);
    }
    if ph.p_align > 1 {
        if !is_power_of_two(ph.p_align) || ph.p_align < 4096 {
            return Err(ElfError::InvalidAlignment);
        }
        if ph.p_vaddr % ph.p_align != ph.p_offset % ph.p_align {
            return Err(ElfError::MisalignedOffsetCongruence);
        }
    }
    if ph.p_vaddr % 4096 != ph.p_offset % 4096 {
        return Err(ElfError::MisalignedOffsetCongruence);
    }
    if ph.p_flags & PF_W != 0 && ph.p_flags & PF_X != 0 {
        return Err(ElfError::WwxViolation);
    }
    if ph.p_flags & PF_R == 0 {
        return Err(ElfError::InvalidPermissions);
    }
    let page_start: u64 = ph.p_vaddr - ph.p_vaddr % 4096;
    let page_end: u64 = match mem_end.checked_add(0xFFF) {
        None => {
            return Err(ElfError::VirtualAddressOverflow);
        },
        Some(e) => e - e % 4096,
    };
    if page_start < USER_STACK_TOP && page_end > USER_STACK_GUARD {
        return Err(ElfError::OverlappingSegments);
    }
    let ghost prior = segments@.take(load_count as int);
    let mut k: usize = 0;
    while k < load_count
        invariant
            k <= load_count <= MAX_PROGRAM_HEADERS,
            prior == segments@.take(load_count as int),
            page_start == page_floor(ph.p_vaddr as int),
            page_end == page_ceil(mem_end as int),
            mem_end == ph.p_vaddr + ph.p_memsz,
            forall|j: int|
                0 <= j < k ==> !ranges_meet(
                    page_floor(ph.p_vaddr as int),
                    page_ceil(mem_end as int),
                    (#[trigger] prior[j]).page_start as int,
                    prior[j].page_end as int,
                ),
            forall|p: Seq<ValidatedSegment>, j: int|
                p == prior && 0 <= j < p.len() && ranges_meet(
                    page_floor(ph.p_vaddr as int),
                    page_ceil(mem_end as int),
                    (#[trigger] p[j]).page_start as int,
                    p[j].page_end as int,
                ) ==> load_fault(*ph, len as int, *us, prior) == Some(
                    ElfError::OverlappingSegments,
                ),
        decreases load_count - k,
    {
        assert(prior[k as int] == segments@[k as int]);
        if page_start < segments[k].page_end && page_end > segments[k].page_start {
            return Err(ElfError::OverlappingSegments);
        }
        k = k + 1;
    }
    Ok(
        ValidatedSegment {
            p_flags: ph.p_flags,
            p_offset: ph.p_offset,
            p_vaddr: ph.p_vaddr,
            p_filesz: ph.p_filesz,
            p_memsz: ph.p_memsz,
            page_start,
            page_end,
        },
    )
}

/// Runs the checks of the file header.
fn check_header(image: &[u8]) -> (r: Result<Elf64Ehdr, ElfError>)
    ensures
        match header_fault(image@) {
            Some(e) => r == Err::<Elf64Ehdr, ElfError>(e),
            None => r is Ok && is_ehdr_of(r->Ok_0, image@),
        },
{
    let len: usize = image.len();
    if len < 64 {
        return Err(ElfError::ImageTooSmall);
    }
    let ghost t = image@.take(4);
    assert(t[0] == image@[0] && t[1] == image@[1] && t[2] == image@[2] && t[3] == image@[3]);
    if image[0] != ELFMAG[0] || image[1] != ELFMAG[1] || image[2] != ELFMAG[2] || image[3]
        != ELFMAG[3] {
        return Err(ElfError::InvalidMagic);
    }
    assert(t =~= ELFMAG@);
    if image[4] != ELFCLASS64 {
        return Err(ElfError::UnsupportedClass);
    }
    if image[5] != ELFDATA2LSB {
        return Err(ElfError::UnsupportedEndian);
    }
    if image[6] != 1 {
        return Err(ElfError::UnsupportedVersion);
    }
    let ehdr = Elf64Ehdr::parse(image);
    if ehdr.e_type != ET_EXEC {
        return Err(ElfError::UnsupportedType);
    }
    if ehdr.e_machine != EM_X86_64 {
        return Err(ElfError::UnsupportedMachine);
    }
    if ehdr.e_version != 1 {
        return Err(ElfError::UnsupportedVersion);
    }
    if ehdr.e_ehsize != 64 || ehdr.e_phentsize != 56 {
        return Err(ElfError::InvalidHeader);
    }
    if ehdr.e_phnum == 0 || (ehdr.e_phnum as usize) > MAX_PROGRAM_HEADERS {
        return Err(ElfError::InvalidHeader);
    }
    match ehdr.e_phoff.checked_add((ehdr.e_phnum as u64) * 56) {
        None => Err(ElfError::FileBoundsExceeded),
        Some(ph_table_end) => if ph_table_end > len as u64 {
            Err(ElfError::FileBoundsExceeded)
        } else {
            Ok(ehdr)
        },
    }
}

/// Checks one program header.
fn check_program_header(
    ph: &Elf64Phdr,
    len: u64,
    us: &UserSpace,
    segments: &[ValidatedSegment; MAX_PROGRAM_HEADERS],
    load_count: usize,
) -> (r: Result<Option<ValidatedSegment>, ElfError>)
    requires
        load_count <= MAX_PROGRAM_HEADERS,
    ensures
        r == header_step(*ph, len as int, *us, segments@.take(load_count as int)),
{
    if ph.p_type == PT_LOAD {
        match check_load(ph, len, us, segments, load_count) {
            Err(e) => Err(e),
            Ok(seg) => Ok(Some(seg)),
        }
    } else if ph.p_type == PT_PHDR || ph.p_type == PT_NOTE {
        match ph.p_offset.checked_add(ph.p_filesz) {
            None => Err(ElfError::FileBoundsExceeded),
            Some(file_end) => if file_end > len {
                Err(ElfError::FileBoundsExceeded)
            } else {
                Ok(None)
            },
        }
    } else if ph.p_type == PT_GNU_STACK {
        if ph.p_flags & PF_X != 0 {
            Err(ElfError::ExecutableStackRejected)
        } else {
            Ok(None)
        }
    } else {
        Err(ElfError::UnsupportedProgramHeader)
    }
}

/// Checks the program headers in their order and collects the loadable segments.
fn check_program_headers(
    image: &[u8],
    phoff: usize,
    phnum: usize,
    us: &UserSpace,
    segments: &mut [ValidatedSegment; MAX_PROGRAM_HEADERS],
) -> (r: Result<usize, ElfError>)
    requires
        phnum <= MAX_PROGRAM_HEADERS,
        phoff + phnum * 56 <= image@.len(),
    ensures
        match scan(image@, phoff as int, phnum as int, *us) {
            Err(e) => r == Err::<usize, ElfError>(e),
            Ok(segs) => {
                &&& r is Ok
                &&& r->Ok_0 <= phnum
                &&& final(segments)@.take(r->Ok_0 as int) == segs
            },
        },
{
    let len: usize = image.len();
    let mut load_count: usize = 0;
    let mut i: usize = 0;
    assert(segments@.take(0) =~= Seq::<ValidatedSegment>::empty());
    while i < phnum
        invariant
            i <= phnum <= MAX_PROGRAM_HEADERS,
            phoff + phnum * 56 <= image@.len(),
            image@.len() == len,
            load_count <= i,
            scan(image@, phoff as int, i as int, *us) == Ok::<Seq<ValidatedSegment>, ElfError>(
                segments@.take(load_count as int),
            ),
        decreases phnum - i,
    {
        let ghost prior = segments@.take(load_count as int);
        let ph = Elf64Phdr::parse(image, phoff + i * 56);
        match check_program_header(&ph, len as u64, us, segments, load_count) {
            Err(e) => {
                proof {
                    lemma_scan_error_stays(image@, phoff as int, i + 1, phnum as int, *us);
                }
                return Err(e);
            },
            Ok(None) => {},
            Ok(Some(seg)) => {
                segments[load_count] = seg;
                load_count = load_count + 1;
                assert(segments@.take(load_count as int) =~= prior.push(seg));
            },
        }
        i = i + 1;
    }
    Ok(load_count)
}

/// Decides whether an executable segment covers the entry point.
fn entry_covered(
    segments: &[ValidatedSegment; MAX_PROGRAM_HEADERS],
    load_count: usize,
    entry: u64,
) -> (r: bool)
    requires
        load_count <= MAX_PROGRAM_HEADERS,
    ensures
        r == exists|k: int|
            0 <= k < load_count && covers_entry(
                #[trigger] segments@.take(load_count as int)[k],
                entry as int,
            ),
{
    let ghost segs = segments@.take(load_count as int);
    let mut k: usize = 0;
    while k < load_count
        invariant
            k <= load_count <= MAX_PROGRAM_HEADERS,
            segs == segments@.take(load_count as int),
            forall|j: int| 0 <= j < k ==> !covers_entry(#[trigger] segs[j], entry as int),
        decreases load_count - k,
    {
        assert(segs[k as int] == segments@[k as int]);
        if segments[k].p_flags & PF_X != 0 && entry >= segments[k].p_vaddr && entry
            - segments[k].p_vaddr < segments[k].p_memsz {
            assert(covers_entry(segs[k as int], entry as int));
            return true;
        }
        k = k + 1;
    }
    false
}

/// Checks an image in memory; nothing is allocated.
pub fn validate_elf(image: &[u8], us: &UserSpace) -> (r: Result<ElfValidationSummary, ElfError>)
    ensures
        match validation(image@, *us) {
            Err(e) => r == Err::<ElfValidationSummary, ElfError>(e),
            Ok(segs) => {
                &&& r is Ok
                &&& r->Ok_0.entry_point == le64(image@, 24)
                &&& r->Ok_0.segment_count <= MAX_PROGRAM_HEADERS
                &&& r->Ok_0.segs() == segs
            },
        },
{
    reveal(validation);
    let ehdr = match check_header(image) {
        Err(e) => {
            return Err(e);
        },
        Ok(h) => h,
    };
    let blank = ValidatedSegment {
        p_flags: 0,
        p_offset: 0,
        p_vaddr: 0,
        p_filesz: 0,
        p_memsz: 0,
        page_start: 0,
        page_end: 0,
    };
    let mut segments: [ValidatedSegment; MAX_PROGRAM_HEADERS] = [blank; MAX_PROGRAM_HEADERS];
    assert(image@.len() == image.len());
    let load_count: usize = match check_program_headers(
        image,
        ehdr.e_phoff as usize,
        ehdr.e_phnum as usize,
        us,
        &mut segments,
    ) {
        Err(e) => {
            return Err(e);
        },
        Ok(n) => n,
    };
    if load_count == 0 {
        return Err(ElfError::MalformedSegment);
    }
    if !us.is_canonical(ehdr.e_entry) || ehdr.e_entry < us.va_min || ehdr.e_entry
        >= us.va_max_exclusive || !entry_covered(&segments, load_count, ehdr.e_entry) {
        return Err(ElfError::InvalidEntryPoint);
    }
    Ok(ElfValidationSummary { entry_point: ehdr.e_entry, segment_count: load_count, segments })
}

/// A header at fault decides the scan, whatever follows it.
pub proof fn lemma_scan_error_stays(s: Seq<u8>, phoff: int, n: int, m: int, us: UserSpace)
    requires
        n <= m,
        scan(s, phoff, n, us) is Err,
    ensures
        scan(s, phoff, m, us) == scan(s, phoff, n, us),
    decreases m - n,
{
    if n < m {
        lemma_scan_error_stays(s, phoff, n, m - 1, us);
    }
}

/// What a valid image promises: every segment lies inside the file and the user half, none is
/// both writable and executable, none touches the stack or its guard page, and no two of them
/// share a page.
pub open spec fn segments_are_safe(segs: Seq<ValidatedSegment>, len: int, us: UserSpace) -> bool {
    &&& forall|k: int| 0 <= k < segs.len() ==> segment_is_safe(#[trigger] segs[k], len, us)
    &&& forall|j: int, k: int|
        0 <= j < k < segs.len() ==> !ranges_meet(
            (#[trigger] segs[k]).page_start as int,
            segs[k].page_end as int,
            (#[trigger] segs[j]).page_start as int,
            segs[j].page_end as int,
        )
}

/// The part of the promise that concerns one segment.
pub open spec fn segment_is_safe(seg: ValidatedSegment, len: int, us: UserSpace) -> bool {
    &&& seg.p_offset + seg.p_filesz <= len
    &&& seg.p_filesz <= seg.p_memsz
    &&& us.va_min <= seg.p_vaddr
    &&& seg.p_vaddr + seg.p_memsz <= us.va_max_exclusive
    &&& us.canonical(seg.p_vaddr as int)
    &&& seg.p_memsz > 0 ==> us.canonical(seg.p_vaddr + seg.p_memsz - 1)
    &&& !(seg.p_flags & PF_W != 0 && seg.p_flags & PF_X != 0)
    &&& seg.p_flags & PF_R != 0
    &&& seg.p_vaddr % 4096 == seg.p_offset % 4096
    &&& seg.page_start == page_floor(seg.p_vaddr as int)
    &&& seg.page_end == page_ceil(seg.p_vaddr + seg.p_memsz)
    &&& !ranges_meet(
        seg.page_start as int,
        seg.page_end as int,
        USER_STACK_GUARD as int,
        USER_STACK_TOP as int,
    )
}

/// The segments that a scan collects keep the promise.
proof fn lemma_scan_is_safe(s: Seq<u8>, phoff: int, n: int, us: UserSpace)
    requires
        scan(s, phoff, n, us) is Ok,
    ensures
        segments_are_safe(scan(s, phoff, n, us)->Ok_0, s.len() as int, us),
        scan(s, phoff, n, us)->Ok_0.len() <= (if n < 0 { 0 } else { n }),
    decreases n,
{
    if n > 0 {
        lemma_scan_is_safe(s, phoff, n - 1, us);
    }
}

/// Every image that passes the checks is safe to load, and its entry point lies in one of its
/// executable segments.
pub proof fn law_valid_images_are_safe(s: Seq<u8>, us: UserSpace)
    requires
        validation(s, us) is Ok,
    ensures
        segments_are_safe(validation(s, us)->Ok_0, s.len() as int, us),
        0 < validation(s, us)->Ok_0.len() <= MAX_PROGRAM_HEADERS,
        us.va_min <= le64(s, 24) < us.va_max_exclusive,
        exists|k: int|
            0 <= k < validation(s, us)->Ok_0.len() && covers_entry(
                #[trigger] validation(s, us)->Ok_0[k],
                le64(s, 24) as int,
            ),
{
    reveal(validation);
    lemma_scan_is_safe(s, le64(s, 32) as int, le16(s, 56) as int, us);
}

} // verus!
