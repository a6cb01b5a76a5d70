//! Structures and numbers of the ELF64 format, and the layout of a user stack.
use crate::bytes::{le16, le32, le64, read_u16, read_u32, read_u64};
use vstd::prelude::*;

verus! {

pub const ELFMAG: [u8; 4] = [0x7f, 0x45, 0x4c, 0x46];

pub const ELFCLASS64: u8 = 2;

pub const ELFDATA2LSB: u8 = 1;

pub const EV_CURRENT: u32 = 1;

pub const ET_EXEC: u16 = 2;

pub const EM_X86_64: u16 = 0x3e;

pub const PT_LOAD: u32 = 1;

pub const PT_NOTE: u32 = 4;

pub const PT_PHDR: u32 = 6;

pub const PT_GNU_STACK: u32 = 0x6474e551;

pub const PF_X: u32 = 0x1;

pub const PF_W: u32 = 0x2;

pub const PF_R: u32 = 0x4;

pub const MAX_PROGRAM_HEADERS: usize = 16;

/// Size of a user stack: four pages.
pub const USER_STACK_SIZE: u64 = 0x4000;

pub const USER_STACK_PAGES: usize = 4;

pub const USER_STACK_TOP: u64 = 0x0000_7F7F_FFFF_0000;

pub const USER_STACK_BASE: u64 = USER_STACK_TOP - USER_STACK_SIZE;

/// The page below the stack, which stays unmapped.
pub const USER_STACK_GUARD: u64 = USER_STACK_BASE - 4096;

pub const USER_INITIAL_RSP: u64 = USER_STACK_TOP;

/// File header of an ELF64 image.
#[derive(Debug, Clone, Copy)]
pub struct Elf64Ehdr {
    pub e_ident: [u8; 16],
    pub e_type: u16,
    pub e_machine: u16,
    pub e_version: u32,
    pub e_entry: u64,
    pub e_phoff: u64,
    pub e_shoff: u64,
    pub e_flags: u32,
    pub e_ehsize: u16,
    pub e_phentsize: u16,
    pub e_phnum: u16,
    pub e_shentsize: u16,
    pub e_shnum: u16,
    pub e_shstrndx: u16,
}

/// Program header of an ELF64 image.
#[derive(Debug, Clone, Copy)]
pub struct Elf64Phdr {
    pub p_type: u32,
    pub p_flags: u32,
    pub p_offset: u64,
    pub p_vaddr: u64,
    pub p_paddr: u64,
    pub p_filesz: u64,
    pub p_memsz: u64,
    pub p_align: u64,
}

/// What can be wrong with an image, or can go wrong while it is loaded.
#[derive(Debug, Clone, Copy, PartialEq, Eq, Structural)]
pub enum ElfError {
    ImageTooSmall,
    InvalidMagic,
    UnsupportedClass,
    UnsupportedEndian,
    UnsupportedVersion,
    UnsupportedType,
    UnsupportedMachine,
    InvalidHeader,
    UnsupportedProgramHeader,
    ExecutableStackRejected,
    MalformedSegment,
    FileBoundsExceeded,
    VirtualAddressOverflow,
    OutOfUserBounds,
    InvalidAlignment,
    MisalignedOffsetCongruence,
    OverlappingSegments,
    PagePermissionConflict,
    WwxViolation,
    InvalidPermissions,
    InvalidEntryPoint,
    CapacityExceeded,
    OutOfMemory,
    MappingFailed,
    StackCreationFailed,
    ProcessCreationFailed,
    ThreadCreationFailed,
}

/// The header `h` is the one stored in the first 64 bytes of `s`.
pub open spec fn is_ehdr_of(h: Elf64Ehdr, s: Seq<u8>) -> bool {
    &&& h.e_ident@ == s.subrange(0, 16)
    &&& h.e_type == le16(s, 16)
    &&& h.e_machine == le16(s, 18)
    &&& h.e_version == le32(s, 20)
    &&& h.e_entry == le64(s, 24)
    &&& h.e_phoff == le64(s, 32)
    &&& h.e_shoff == le64(s, 40)
    &&& h.e_flags == le32(s, 48)
    &&& h.e_ehsize == le16(s, 52)
    &&& h.e_phentsize == le16(s, 54)
    &&& h.e_phnum == le16(s, 56)
    &&& h.e_shentsize == le16(s, 58)
    &&& h.e_shnum == le16(s, 60)
    &&& h.e_shstrndx == le16(s, 62)
}

/// The program header stored in the 56 bytes of `s` from `off` on.
pub open spec fn phdr_at(s: Seq<u8>, off: int) -> Elf64Phdr {
    Elf64Phdr {
        p_type: le32(s, off),
        p_flags: le32(s, off + 4),
        p_offset: le64(s, off + 8),
        p_vaddr: le64(s, off + 16),
        p_paddr: le64(s, off + 24),
        p_filesz: le64(s, off + 32),
        p_memsz: le64(s, off + 40),
        p_align: le64(s, off + 48),
    }
}

impl Elf64Ehdr {
    /// Reads the file header of an image.
    pub fn parse(image: &[u8]) -> (h: Self)
        requires
            image@.len() >= 64,
        ensures
            is_ehdr_of(h, image@),
    {
        let mut e_ident: [u8; 16] = [0u8; 16];
        let mut i: usize = 0;
        while i < 16
            invariant
                i <= 16,
                image@.len() >= 64,
                forall|j: int| 0 <= j < i ==> e_ident@[j] == image@[j],
            decreases 16 - i,
        {
            e_ident[i] = image[i];
            i = i + 1;
        }
        assert(e_ident@ =~= image@.subrange(0, 16));
        Elf64Ehdr {
            e_ident,
            e_type: read_u16(image, 16),
            e_machine: read_u16(image, 18),
            e_version: read_u32(image, 20),
            e_entry: read_u64(image, 24),
            e_phoff: read_u64(image, 32),
            e_shoff: read_u64(image, 40),
            e_flags: read_u32(image, 48),
            e_ehsize: read_u16(image, 52),
            e_phentsize: read_u16(image, 54),
            e_phnum: read_u16(image, 56),
            e_shentsize: read_u16(image, 58),
            e_shnum: read_u16(image, 60),
            e_shstrndx: read_u16(image, 62),
        }
    }
}

impl Elf64Phdr {
    /// Reads the program header at `off` of an image.
    pub fn parse(image: &[u8], off: usize) -> (h: Self)
        requires
            off + 56 <= image@.len(),
        ensures
            h == phdr_at(image@, off as int),
    {
        assert(image@.len() == image.len());
        Elf64Phdr {
            p_type: read_u32(image, off),
            p_flags: read_u32(image, off + 4),
            p_offset: read_u64(image, off + 8),
            p_vaddr: read_u64(image, off + 16),
            p_paddr: read_u64(image, off + 24),
            p_filesz: read_u64(image, off + 32),
            p_memsz: read_u64(image, off + 40),
            p_align: read_u64(image, off + 48),
        }
    }
}

} // verus!
