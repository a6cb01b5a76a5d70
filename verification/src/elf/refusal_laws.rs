//! Where the fields of the headers lie, and why an image is refused.
use crate::bytes::{byte_of, le16, le32, le64, lemma_bytes_le16, lemma_bytes_le32, lemma_bytes_le64};
use crate::elf::accept_laws::{
    header_at, headers_fit, lemma_scan_succeeds, pages_end, pages_start,
};
use crate::elf::memory_laws::{
    describes, is_loadable, lemma_header_scanned, lemma_segment_scanned,
};
use crate::elf::types::{is_ehdr_of, phdr_at, Elf64Ehdr, Elf64Phdr, ElfError, ELFMAG};
use crate::elf::validate::{
    header_fault, header_step, lemma_scan_error_stays, scan, validation, UserSpace,
    ValidatedSegment,
};
use vstd::arithmetic::power2::is_pow2;
use vstd::prelude::*;

verus! {

/// The bytes of a number, lowest first, are those of an image from `off` on.
pub open spec fn lies_at(s: Seq<u8>, off: int, v: int, n: int) -> bool {
    forall|k: int| 0 <= k < n ==> #[trigger] byte_of(v, k) == s[off + k]
}

/// The fields of a program header follow one another without a gap, lowest byte first, and fill 56
/// bytes.
pub proof fn law_fields_of_a_program_header(s: Seq<u8>, off: int)
    ensures
        ({
            let p = phdr_at(s, off);
            &&& lies_at(s, off, p.p_type as int, 4)
            &&& lies_at(s, off + 4, p.p_flags as int, 4)
            &&& lies_at(s, off + 8, p.p_offset as int, 8)
            &&& lies_at(s, off + 16, p.p_vaddr as int, 8)
            &&& lies_at(s, off + 24, p.p_paddr as int, 8)
            &&& lies_at(s, off + 32, p.p_filesz as int, 8)
            &&& lies_at(s, off + 40, p.p_memsz as int, 8)
            &&& lies_at(s, off + 48, p.p_align as int, 8)
        }),
{
    lemma_bytes_le32(s, off);
    lemma_bytes_le32(s, off + 4);
    lemma_bytes_le64(s, off + 8);
    lemma_bytes_le64(s, off + 16);
    lemma_bytes_le64(s, off + 24);
    lemma_bytes_le64(s, off + 32);
    lemma_bytes_le64(s, off + 40);
    lemma_bytes_le64(s, off + 48);
}

/// The fields of a file header follow one another without a gap, lowest byte first, and fill 64
/// bytes.
pub proof fn law_fields_of_a_file_header(h: Elf64Ehdr, s: Seq<u8>)
    requires
        s.len() >= 64,
        is_ehdr_of(h, s),
    ensures
        forall|k: int| 0 <= k < 16 ==> #[trigger] h.e_ident@[k] == s[k],
        lies_at(s, 16, h.e_type as int, 2),
        lies_at(s, 18, h.e_machine as int, 2),
        lies_at(s, 20, h.e_version as int, 4),
        lies_at(s, 24, h.e_entry as int, 8),
        lies_at(s, 32, h.e_phoff as int, 8),
        lies_at(s, 40, h.e_shoff as int, 8),
        lies_at(s, 48, h.e_flags as int, 4),
        lies_at(s, 52, h.e_ehsize as int, 2),
        lies_at(s, 54, h.e_phentsize as int, 2),
        lies_at(s, 56, h.e_phnum as int, 2),
        lies_at(s, 58, h.e_shentsize as int, 2),
        lies_at(s, 60, h.e_shnum as int, 2),
        lies_at(s, 62, h.e_shstrndx as int, 2),
{
    lemma_bytes_le16(s, 16);
    lemma_bytes_le16(s, 18);
    lemma_bytes_le32(s, 20);
    lemma_bytes_le64(s, 24);
    lemma_bytes_le64(s, 32);
    lemma_bytes_le64(s, 40);
    lemma_bytes_le32(s, 48);
    lemma_bytes_le16(s, 52);
    lemma_bytes_le16(s, 54);
    lemma_bytes_le16(s, 56);
    lemma_bytes_le16(s, 58);
    lemma_bytes_le16(s, 60);
    lemma_bytes_le16(s, 62);
}

/// A file header is refused for what is wrong with it, and for the first of several faults: an
/// image that is too short to have one, then what it is, then for which machine, then its sizes,
/// then the place of the program headers.
pub proof fn law_reason_of_a_refused_file_header(s: Seq<u8>)
    ensures
        header_fault(s) == Some(ElfError::ImageTooSmall) <==> s.len() < 64,
        s.len() >= 64 ==> {
            let f = header_fault(s);
            let named = s[0] == 0x7F && s[1] == 0x45 && s[2] == 0x4C && s[3] == 0x46;
            &&& f == Some(ElfError::InvalidMagic) <==> !named
            &&& f == Some(ElfError::UnsupportedClass) <==> named && s[4] != 2
            &&& f == Some(ElfError::UnsupportedEndian) ==> s[4] == 2 && s[5] != 1
            &&& f == Some(ElfError::UnsupportedVersion) ==> s[5] == 1 && (s[6] != 1 || le32(s, 20)
                != 1)
            &&& f == Some(ElfError::UnsupportedType) ==> s[6] == 1 && le16(s, 16) != 2
            &&& f == Some(ElfError::UnsupportedMachine) ==> le16(s, 16) == 2 && le16(s, 18) != 0x3E
            &&& f == Some(ElfError::InvalidHeader) ==> le16(s, 18) == 0x3E && le32(s, 20) == 1 && (
            le16(s, 52) != 64 || le16(s, 54) != 56 || le16(s, 56) == 0 || le16(s, 56) > 16)
            &&& f == Some(ElfError::FileBoundsExceeded) ==> le16(s, 52) == 64 && le16(s, 54) == 56
                && 1 <= le16(s, 56) <= 16 && le64(s, 32) + 56 * le16(s, 56) > s.len()
            &&& f matches Some(e) ==> {
                ||| e == ElfError::InvalidMagic
                ||| e == ElfError::UnsupportedClass
                ||| e == ElfError::UnsupportedEndian
                ||| e == ElfError::UnsupportedVersion
                ||| e == ElfError::UnsupportedType
                ||| e == ElfError::UnsupportedMachine
                ||| e == ElfError::InvalidHeader
                ||| e == ElfError::FileBoundsExceeded
            }
        },
{
    if s.len() >= 64 {
        let t = s.take(4);
        assert(t[0] == s[0] && t[1] == s[1] && t[2] == s[2] && t[3] == s[3]);
        let m = ELFMAG@;
        assert(m[0] == 0x7F && m[1] == 0x45 && m[2] == 0x4C && m[3] == 0x46);
        if s[0] == 0x7F && s[1] == 0x45 && s[2] == 0x4C && s[3] == 0x46 {
            assert(t =~= m);
        }
    }
}

/// A header of a kind that is not loaded is refused for what is wrong with it.
pub proof fn law_reason_of_a_refused_note(
    p: Elf64Phdr,
    len: int,
    us: UserSpace,
    prior: Seq<ValidatedSegment>,
)
    requires
        p.p_type != 1,
    ensures
        ({
            let r = header_step(p, len, us, prior);
            let outside = p.p_offset + p.p_filesz > len;
            &&& r == Err::<Option<ValidatedSegment>, ElfError>(ElfError::ExecutableStackRejected)
                <==> p.p_type == 0x6474_E551 && p.p_flags & 1 != 0
            &&& r == Err::<Option<ValidatedSegment>, ElfError>(ElfError::UnsupportedProgramHeader)
                <==> p.p_type != 4 && p.p_type != 6 && p.p_type != 0x6474_E551
            &&& r == Err::<Option<ValidatedSegment>, ElfError>(ElfError::FileBoundsExceeded) <==> (
            p.p_type == 4 || p.p_type == 6) && outside
            &&& r is Ok ==> r->Ok_0 is None
        }),
{
}

/// A segment is refused for what is wrong with it, and for the first of several faults: its place
/// in the file, its sizes, its addresses, its alignment, its rights, then the pages that it shares
/// with the stack or with a segment before it.
pub proof fn law_reason_of_a_refused_segment(
    p: Elf64Phdr,
    len: int,
    us: UserSpace,
    prior: Seq<ValidatedSegment>,
)
    requires
        p.p_type == 1,
        header_step(p, len, us, prior) is Err,
    ensures
        ({
            let e = header_step(p, len, us, prior)->Err_0;
            let end = p.p_vaddr + p.p_memsz;
            let outside = p.p_offset + p.p_filesz > len;
            let shrunk = p.p_filesz > p.p_memsz;
            let misplaced = p.p_vaddr < us.va_min || end > us.va_max_exclusive || !us.canonical(
                p.p_vaddr as int,
            ) || (p.p_memsz > 0 && !us.canonical(end - 1));
            let odd = p.p_align > 1 && !(is_pow2(p.p_align as int) && p.p_align >= 4096);
            let skewed = p.p_vaddr % 4096 != p.p_offset % 4096 || (p.p_align > 1 && p.p_vaddr
                % p.p_align != p.p_offset % p.p_align);
            let both = p.p_flags & 2 != 0 && p.p_flags & 1 != 0;
            let unreadable = p.p_flags & 4 == 0;
            &&& e == ElfError::FileBoundsExceeded <==> outside
            &&& e == ElfError::MalformedSegment <==> !outside && shrunk
            &&& e == ElfError::VirtualAddressOverflow ==> !outside && !shrunk && end + 4095
                > u64::MAX
            &&& !outside && !shrunk && end > u64::MAX ==> e == ElfError::VirtualAddressOverflow
            &&& e == ElfError::OutOfUserBounds <==> !outside && !shrunk && end <= u64::MAX
                && misplaced
            &&& e == ElfError::InvalidAlignment ==> odd && !misplaced
            &&& e == ElfError::MisalignedOffsetCongruence ==> skewed && !odd && !misplaced
            &&& e == ElfError::WwxViolation ==> both && !skewed && !odd && !misplaced
            &&& e == ElfError::InvalidPermissions ==> unreadable && !both && !skewed && !odd
                && !misplaced
            &&& e == ElfError::OverlappingSegments ==> !unreadable && !both && !skewed && !odd
                && !misplaced && !shrunk && !outside && !(pages_end(p) <= 0x7F7F_FFFE_B000
                && forall|k: int|
                0 <= k < prior.len() ==> pages_start(p) >= (#[trigger] prior[k]).page_end
                    || pages_end(p) <= prior[k].page_start)
            &&& {
                ||| e == ElfError::FileBoundsExceeded
                ||| e == ElfError::MalformedSegment
                ||| e == ElfError::VirtualAddressOverflow
                ||| e == ElfError::OutOfUserBounds
                ||| e == ElfError::InvalidAlignment
                ||| e == ElfError::MisalignedOffsetCongruence
                ||| e == ElfError::WwxViolation
                ||| e == ElfError::InvalidPermissions
                ||| e == ElfError::OverlappingSegments
            }
        }),
{
    let a = p.p_vaddr as int;
    let end = p.p_vaddr + p.p_memsz;
    assert(a - a % 4096 == a / 4096 * 4096);
    assert((end + 4095) - (end + 4095) % 4096 == (end + 4095) / 4096 * 4096);
}

/// What the scan of the program headers means for the image.
proof fn lemma_scan_decides(s: Seq<u8>, us: UserSpace)
    ensures
        header_fault(s) matches Some(e) ==> validation(s, us) == Err::<
            Seq<ValidatedSegment>,
            ElfError,
        >(e),
        header_fault(s) is None ==> {
            let r = scan(s, le64(s, 32) as int, le16(s, 56) as int, us);
            &&& r is Err ==> validation(s, us) == r
            &&& r is Ok && r->Ok_0.len() == 0 ==> validation(s, us) == Err::<
                Seq<ValidatedSegment>,
                ElfError,
            >(ElfError::MalformedSegment)
            &&& r is Ok && r->Ok_0.len() > 0 ==> validation(s, us) is Ok || validation(s, us)
                == Err::<Seq<ValidatedSegment>, ElfError>(ElfError::InvalidEntryPoint)
        },
{
    reveal(validation);
}

/// A segment is that of a header before header `h`.
pub open spec fn comes_before(s: Seq<u8>, seg: ValidatedSegment, h: int) -> bool {
    exists|g: int| 0 <= g < h && #[trigger] describes(s, g, seg)
}

/// The segments listed are those of headers before header `h`.
pub open spec fn come_before(s: Seq<u8>, prior: Seq<ValidatedSegment>, h: int) -> bool {
    forall|k: int| 0 <= k < prior.len() ==> comes_before(s, #[trigger] prior[k], h)
}

/// Header `h`, seen after the segments listed, is refused with an error.
pub open spec fn is_refused_with(
    s: Seq<u8>,
    us: UserSpace,
    h: int,
    prior: Seq<ValidatedSegment>,
    e: ElfError,
) -> bool {
    header_step(header_at(s, h), s.len() as int, us, prior) == Err::<
        Option<ValidatedSegment>,
        ElfError,
    >(e)
}

proof fn lemma_step_of_scan(s: Seq<u8>, us: UserSpace, h: int)
    requires
        0 <= h,
        scan(s, le64(s, 32) as int, h, us) is Ok,
        scan(s, le64(s, 32) as int, h + 1, us) is Err,
    ensures
        is_refused_with(
            s,
            us,
            h,
            scan(s, le64(s, 32) as int, h, us)->Ok_0,
            scan(s, le64(s, 32) as int, h + 1, us)->Err_0,
        ),
{
    assert(56 * h == h * 56);
}

proof fn lemma_come_before(s: Seq<u8>, us: UserSpace, h: int)
    requires
        0 <= h,
        scan(s, le64(s, 32) as int, h, us) is Ok,
    ensures
        come_before(s, scan(s, le64(s, 32) as int, h, us)->Ok_0, h),
{
    let prior = scan(s, le64(s, 32) as int, h, us)->Ok_0;
    assert forall|k: int| 0 <= k < prior.len() implies comes_before(
        s,
        #[trigger] prior[k],
        h,
    ) by {
        lemma_segment_scanned(s, h, us, k);
    }
}

/// The error of the first header that does not pass is that of the image.
proof fn lemma_first_error(s: Seq<u8>, us: UserSpace, h: int, prior: Seq<ValidatedSegment>)
    requires
        header_fault(s) is None,
        0 <= h < le16(s, 56),
        scan(s, le64(s, 32) as int, h, us) == Ok::<Seq<ValidatedSegment>, ElfError>(prior),
        scan(s, le64(s, 32) as int, h + 1, us) is Err,
    ensures
        validation(s, us) is Err,
        is_refused_with(s, us, h, prior, validation(s, us)->Err_0),
{
    lemma_scan_decides(s, us);
    lemma_step_of_scan(s, us, h);
    lemma_scan_error_stays(s, le64(s, 32) as int, h + 1, le16(s, 56) as int, us);
}

/// An image is refused for its file header first, and then for the first of its program headers
/// that is at fault.
pub proof fn law_first_fault_decides(s: Seq<u8>, us: UserSpace, h: int)
    requires
        header_fault(s) is None ==> 0 <= h < le16(s, 56) && headers_fit(s, us, h) && !headers_fit(
            s,
            us,
            h + 1,
        ),
    ensures
        validation(s, us) is Err,
        header_fault(s) matches Some(e) ==> validation(s, us)->Err_0 == e,
        header_fault(s) is None ==> exists|prior: Seq<ValidatedSegment>| #[trigger]
            come_before(s, prior, h) && is_refused_with(
                s,
                us,
                h,
                prior,
                validation(s, us)->Err_0,
            ),
{
    if header_fault(s) is None {
        lemma_scan_succeeds(s, us, h);
        lemma_scan_succeeds(s, us, h + 1);
        let prior = scan(s, le64(s, 32) as int, h, us)->Ok_0;
        lemma_first_error(s, us, h, prior);
        lemma_come_before(s, us, h);
    } else {
        lemma_scan_decides(s, us);
    }
}

/// An image whose headers are all in order is refused for having nothing to load, and otherwise
/// for its entry point only.
pub proof fn law_refusal_of_sound_headers(s: Seq<u8>, us: UserSpace)
    requires
        header_fault(s) is None,
        headers_fit(s, us, le16(s, 56) as int),
        validation(s, us) is Err,
    ensures
        validation(s, us)->Err_0 == ElfError::MalformedSegment || validation(s, us)->Err_0
            == ElfError::InvalidEntryPoint,
        validation(s, us)->Err_0 == ElfError::MalformedSegment <==> forall|g: int|
            0 <= g < le16(s, 56) ==> !#[trigger] is_loadable(s, g),
{
    lemma_scan_decides(s, us);
    let n = le16(s, 56) as int;
    lemma_scan_succeeds(s, us, n);
    let segs = scan(s, le64(s, 32) as int, n, us)->Ok_0;
    if segs.len() > 0 {
        lemma_segment_scanned(s, n, us, 0);
        let g = choose|g: int| 0 <= g < n && #[trigger] describes(s, g, segs[0]);
        assert(is_loadable(s, g));
    } else {
        assert forall|g: int| 0 <= g < n implies !#[trigger] is_loadable(s, g) by {
            if is_loadable(s, g) {
                lemma_header_scanned(s, n, us, g);
            }
        }
    }
}

} // verus!
