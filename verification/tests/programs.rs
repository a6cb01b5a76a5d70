use zero_kernel::elf::load::{
    find_loaded_process_slot, load_elf, ElfLoad, LoadAction, LoadEvent, LoadPhase,
};
use zero_kernel::elf::mmap::{
    begin_allocation, commit_allocation, reclaim_process_memory_map_locked, record_page,
    rollback_allocation, MemoryMapState, ProcessMemoryMaps, MAX_PROCESS_MAPPED_PAGES,
};
use zero_kernel::elf::types::{
    ElfError, ELFCLASS64, ELFDATA2LSB, ELFMAG, PF_R, PF_W, PF_X, PT_GNU_STACK, PT_LOAD, PT_NOTE,
    USER_INITIAL_RSP, USER_STACK_BASE, USER_STACK_GUARD, USER_STACK_PAGES, USER_STACK_TOP,
};
use zero_kernel::elf::validate::{validate_elf, UserSpace};
use zero_kernel::process::{ProcessRecord, MAX_PROCESSES};

const MINIMAL_ELF_SIZE: usize = 256;
const USER_CODE_BASE: u64 = 0x0020_0000;
const USER_DATA_BASE: u64 = 0x0040_0000;
const US: UserSpace = UserSpace {
    va_min: 0x0010_0000,
    va_max_exclusive: 0x0000_7FFF_FFFF_F000,
    low_half_end: 0x0000_8000_0000_0000,
};

fn create_valid_test_elf() -> [u8; MINIMAL_ELF_SIZE] {
    let mut buf = [0u8; MINIMAL_ELF_SIZE];
    buf[0..4].copy_from_slice(&ELFMAG);
    buf[4] = ELFCLASS64;
    buf[5] = ELFDATA2LSB;
    buf[6] = 1;
    buf[7] = 0;
    buf[16..18].copy_from_slice(&2u16.to_ne_bytes());
    buf[18..20].copy_from_slice(&0x3Eu16.to_ne_bytes());
    buf[20..24].copy_from_slice(&1u32.to_ne_bytes());
    let entry_addr = USER_CODE_BASE + 120;
    buf[24..32].copy_from_slice(&entry_addr.to_ne_bytes());
    buf[32..40].copy_from_slice(&64u64.to_ne_bytes());
    buf[52..54].copy_from_slice(&64u16.to_ne_bytes());
    buf[54..56].copy_from_slice(&56u16.to_ne_bytes());
    buf[56..58].copy_from_slice(&1u16.to_ne_bytes());
    buf[64..68].copy_from_slice(&PT_LOAD.to_ne_bytes());
    buf[68..72].copy_from_slice(&(PF_R | PF_X).to_ne_bytes());
    buf[72..80].copy_from_slice(&0u64.to_ne_bytes());
    buf[80..88].copy_from_slice(&USER_CODE_BASE.to_ne_bytes());
    buf[88..96].copy_from_slice(&USER_CODE_BASE.to_ne_bytes());
    buf[96..104].copy_from_slice(&(MINIMAL_ELF_SIZE as u64).to_ne_bytes());
    buf[104..112].copy_from_slice(&(MINIMAL_ELF_SIZE as u64).to_ne_bytes());
    buf[112..120].copy_from_slice(&4096u64.to_ne_bytes());
    let payload = [
        0xb8, 0x02, 0x00, 0x00, 0x00, 0x0f, 0x05, 0xb8, 0x01, 0x00, 0x00, 0x00, 0x31, 0xff, 0x0f,
        0x05, 0xeb, 0xfe,
    ];
    buf[120..120 + payload.len()].copy_from_slice(&payload);
    buf
}

fn fault(image: &[u8]) -> Option<ElfError> {
    validate_elf(image, &US).err()
}

fn changed(at: usize, bytes: &[u8]) -> [u8; MINIMAL_ELF_SIZE] {
    let mut image = create_valid_test_elf();
    image[at..at + bytes.len()].copy_from_slice(bytes);
    image
}

#[test]
fn stage3j_a_header_and_identity() {
    let summary = validate_elf(&create_valid_test_elf(), &US).unwrap();
    assert_eq!(summary.entry_point, USER_CODE_BASE + 120);
    assert_eq!(summary.segment_count, 1);
    assert_eq!(summary.segments[0].p_vaddr, USER_CODE_BASE);
    assert_eq!(summary.segments[0].page_start, USER_CODE_BASE);
    assert_eq!(summary.segments[0].page_end, USER_CODE_BASE + 4096);
}

#[test]
fn stage3j_b_bad_identity() {
    assert_eq!(fault(&changed(0, &[0x00])), Some(ElfError::InvalidMagic));
    assert_eq!(fault(&changed(4, &[1])), Some(ElfError::UnsupportedClass));
    assert_eq!(fault(&changed(5, &[2])), Some(ElfError::UnsupportedEndian));
    assert_eq!(
        fault(&changed(18, &0x28u16.to_ne_bytes())),
        Some(ElfError::UnsupportedMachine)
    );
    assert_eq!(fault(&changed(16, &3u16.to_ne_bytes())), Some(ElfError::UnsupportedType));
}

#[test]
fn other_headers_are_refused() {
    let image = create_valid_test_elf();
    assert_eq!(fault(&image[..63]), Some(ElfError::ImageTooSmall));
    assert_eq!(fault(&changed(6, &[2])), Some(ElfError::UnsupportedVersion));
    assert_eq!(fault(&changed(52, &63u16.to_ne_bytes())), Some(ElfError::InvalidHeader));
    assert_eq!(fault(&changed(56, &17u16.to_ne_bytes())), Some(ElfError::InvalidHeader));
    assert_eq!(fault(&changed(112, &3u64.to_ne_bytes())), Some(ElfError::InvalidAlignment));
    assert_eq!(
        fault(&changed(72, &8u64.to_ne_bytes())),
        Some(ElfError::FileBoundsExceeded)
    );
    let mut skewed = changed(72, &8u64.to_ne_bytes());
    skewed[96..104].copy_from_slice(&100u64.to_ne_bytes());
    assert_eq!(fault(&skewed), Some(ElfError::MisalignedOffsetCongruence));
}

#[test]
fn stage3j_c_headers_and_executable_stack() {
    assert_eq!(
        fault(&changed(64, &2u32.to_ne_bytes())),
        Some(ElfError::UnsupportedProgramHeader)
    );
    let mut exec_stack_elf = changed(56, &2u16.to_ne_bytes());
    exec_stack_elf[120..124].copy_from_slice(&PT_GNU_STACK.to_ne_bytes());
    exec_stack_elf[124..128].copy_from_slice(&(PF_R | PF_W | PF_X).to_ne_bytes());
    assert_eq!(fault(&exec_stack_elf), Some(ElfError::ExecutableStackRejected));
    exec_stack_elf[124..128].copy_from_slice(&(PF_R | PF_W).to_ne_bytes());
    assert_eq!(fault(&exec_stack_elf), None);
    exec_stack_elf[120..124].copy_from_slice(&PT_NOTE.to_ne_bytes());
    assert_eq!(fault(&exec_stack_elf), Some(ElfError::FileBoundsExceeded));
    exec_stack_elf[128..176].fill(0);
    assert_eq!(fault(&exec_stack_elf), None);
}

#[test]
fn stage3j_d_file_bounds() {
    assert_eq!(
        fault(&changed(96, &1000u64.to_ne_bytes())),
        Some(ElfError::FileBoundsExceeded)
    );
}

#[test]
fn stage3j_e_memory_underflow() {
    let mut underflow_elf = changed(96, &200u64.to_ne_bytes());
    underflow_elf[104..112].copy_from_slice(&100u64.to_ne_bytes());
    assert_eq!(fault(&underflow_elf), Some(ElfError::MalformedSegment));
}

#[test]
fn stage3j_f_out_of_user_bounds() {
    assert_eq!(fault(&changed(80, &0x1000u64.to_ne_bytes())), Some(ElfError::OutOfUserBounds));
    assert_eq!(
        fault(&changed(80, &0xFFFF_8000_0000_0000u64.to_ne_bytes())),
        Some(ElfError::OutOfUserBounds)
    );
}

#[test]
fn stage3j_g_address_overflow() {
    let mut ovf_elf = changed(80, &0xFFFF_FFFF_FFFF_0000u64.to_ne_bytes());
    ovf_elf[104..112].copy_from_slice(&0x20000u64.to_ne_bytes());
    assert_eq!(fault(&ovf_elf), Some(ElfError::VirtualAddressOverflow));
}

fn two_segments(vaddr: u64) -> [u8; 320] {
    let mut elf = [0u8; 320];
    elf[0..MINIMAL_ELF_SIZE].copy_from_slice(&create_valid_test_elf());
    elf[56..58].copy_from_slice(&2u16.to_ne_bytes());
    elf[120..124].copy_from_slice(&PT_LOAD.to_ne_bytes());
    elf[124..128].copy_from_slice(&(PF_R | PF_W).to_ne_bytes());
    elf[128..136].copy_from_slice(&0u64.to_ne_bytes());
    elf[136..144].copy_from_slice(&vaddr.to_ne_bytes());
    elf[144..152].copy_from_slice(&vaddr.to_ne_bytes());
    elf[152..160].copy_from_slice(&100u64.to_ne_bytes());
    elf[160..168].copy_from_slice(&100u64.to_ne_bytes());
    elf[168..176].copy_from_slice(&4096u64.to_ne_bytes());
    elf
}

#[test]
fn stage3j_h_overlapping_segments() {
    assert_eq!(fault(&two_segments(USER_CODE_BASE)), Some(ElfError::OverlappingSegments));
    assert_eq!(fault(&two_segments(USER_CODE_BASE + 4096)), None);
    assert_eq!(fault(&two_segments(USER_STACK_GUARD)), Some(ElfError::OverlappingSegments));
}

#[test]
fn segments_on_one_page_are_refused() {
    let mut elf = two_segments(USER_CODE_BASE + 256);
    elf[128..136].copy_from_slice(&256u64.to_ne_bytes());
    elf[152..160].copy_from_slice(&10u64.to_ne_bytes());
    elf[160..168].copy_from_slice(&10u64.to_ne_bytes());
    assert_eq!(fault(&elf), Some(ElfError::OverlappingSegments));
}

#[test]
fn stage3j_i_write_or_execute() {
    assert_eq!(
        fault(&changed(68, &(PF_R | PF_W | PF_X).to_ne_bytes())),
        Some(ElfError::WwxViolation)
    );
    assert_eq!(
        fault(&changed(68, &(PF_W | PF_X).to_ne_bytes())),
        Some(ElfError::WwxViolation)
    );
    assert_eq!(fault(&changed(68, &PF_W.to_ne_bytes())), Some(ElfError::InvalidPermissions));
}

#[test]
fn stage3j_j_entry_point() {
    assert_eq!(
        fault(&changed(24, &0x1000u64.to_ne_bytes())),
        Some(ElfError::InvalidEntryPoint)
    );
    assert_eq!(
        fault(&changed(24, &USER_DATA_BASE.to_ne_bytes())),
        Some(ElfError::InvalidEntryPoint)
    );
}

struct Mapped {
    page: u64,
    frame: u64,
    writable: bool,
    no_execute: bool,
    user: bool,
    contents: [u8; 4096],
}

/// Plays a machine with `frames` free frames and says how the load ended.
fn run(image: &[u8], frames: u64, maps: &mut ProcessMemoryMaps) -> (ElfLoad, Vec<Mapped>, LoadAction) {
    let mut load = load_elf(image, &US).unwrap();
    let mut mapped: Vec<Mapped> = Vec::new();
    let mut taken = 0;
    let mut action = load.step(image, maps, LoadEvent::Process(Some(3)));
    loop {
        let event = match action {
            LoadAction::AllocFrame => {
                taken += 1;
                LoadEvent::Frame(if taken <= frames { Some(taken * 0x1000) } else { None })
            }
            LoadAction::MapPage { page, frame, flags, contents } => {
                mapped.push(Mapped {
                    page,
                    frame,
                    writable: flags.writable,
                    no_execute: flags.no_execute,
                    user: flags.user,
                    contents,
                });
                LoadEvent::Mapped(true)
            }
            LoadAction::QueryFlags { page } => {
                let m = mapped.iter().find(|m| m.page == page).unwrap();
                let mut flags = zero_kernel::mm::PageFlags::user_memory(m.writable, m.no_execute);
                flags.user = m.user;
                LoadEvent::EntryFlags(Some(flags))
            }
            LoadAction::CreateThread { entry, stack_pointer } => {
                assert_eq!(entry, USER_CODE_BASE + 120);
                assert_eq!(stack_pointer, USER_INITIAL_RSP);
                LoadEvent::Thread(true)
            }
            other => return (load, mapped, other),
        };
        action = load.step(image, maps, event);
    }
}

#[test]
fn stage3j_k_segment_copy_and_zero_fill() {
    let mut bss_elf = changed(96, &138u64.to_ne_bytes());
    bss_elf[104..112].copy_from_slice(&400u64.to_ne_bytes());
    let mut maps = ProcessMemoryMaps::new();
    let (load, mapped, end) = run(&bss_elf, 100, &mut maps);
    assert!(matches!(end, LoadAction::Done));
    assert_eq!(load.phase, LoadPhase::Finished);
    assert_eq!(mapped[0].page, USER_CODE_BASE);
    assert_eq!(mapped[0].contents[120], 0xb8);
    assert_eq!(mapped[0].contents[121], 0x02);
    for b in 138..400 {
        assert_eq!(mapped[0].contents[b], 0);
    }
    assert!(!mapped[0].writable);
    assert!(!mapped[0].no_execute);
}

#[test]
fn stage3j_l_guarded_stack() {
    let mut maps = ProcessMemoryMaps::new();
    let (_, mapped, end) = run(&create_valid_test_elf(), 100, &mut maps);
    assert!(matches!(end, LoadAction::Done));
    for i in 0..USER_STACK_PAGES {
        let vaddr = USER_STACK_BASE + (i as u64) * 4096;
        let m = mapped.iter().find(|m| m.page == vaddr).unwrap();
        assert!(m.user && m.writable && m.no_execute);
        assert_eq!(m.contents, [0; 4096]);
    }
    assert!(!mapped.iter().any(|m| m.page == USER_STACK_GUARD));
    assert_eq!(USER_STACK_BASE + 0x4000, USER_STACK_TOP);
}

#[test]
fn stage3j_m_p_loaded_program_is_torn_down() {
    let mut maps = ProcessMemoryMaps::new();
    let (load, mapped, end) = run(&create_valid_test_elf(), 100, &mut maps);
    assert!(matches!(end, LoadAction::Done));
    assert_eq!(load.proc_slot, 3);
    assert_eq!(maps.maps[3].state, MemoryMapState::Active);
    assert_eq!(maps.maps[3].page_count, 5);
    let back = reclaim_process_memory_map_locked(&mut maps, 3);
    let all: Vec<(u64, u64)> = mapped.iter().map(|m| (m.page, m.frame)).collect();
    assert_eq!(back, all);
    assert_eq!(maps.maps[3].state, MemoryMapState::Free);
    assert_eq!(reclaim_process_memory_map_locked(&mut maps, 3), vec![]);
}

#[test]
fn stage3j_o_failed_load_gives_everything_back() {
    assert_eq!(
        load_elf(&changed(96, &1000u64.to_ne_bytes()), &US).err(),
        Some(ElfError::FileBoundsExceeded)
    );
    for frames in 0..5 {
        let mut maps = ProcessMemoryMaps::new();
        let (_, mapped, end) = run(&create_valid_test_elf(), frames, &mut maps);
        match end {
            LoadAction::Abort { error, stray_frame, release } => {
                assert_eq!(error, ElfError::OutOfMemory);
                assert_eq!(stray_frame, None);
                let all: Vec<(u64, u64)> = mapped.iter().map(|m| (m.page, m.frame)).collect();
                assert_eq!(release, all);
                assert_eq!(release.len(), frames as usize);
            }
            _ => panic!("the load has to give up"),
        }
        assert_eq!(maps.maps[3].state, MemoryMapState::Free);
    }
}

#[test]
fn load_stops_at_each_failure() {
    let image = create_valid_test_elf();
    let mut maps = ProcessMemoryMaps::new();
    let mut load = load_elf(&image, &US).unwrap();
    assert!(matches!(
        load.step(&image, &mut maps, LoadEvent::Process(None)),
        LoadAction::Refuse { error: ElfError::ProcessCreationFailed }
    ));
    let mut load = load_elf(&image, &US).unwrap();
    load.step(&image, &mut maps, LoadEvent::Process(Some(1)));
    load.step(&image, &mut maps, LoadEvent::Frame(Some(0x9000)));
    match load.step(&image, &mut maps, LoadEvent::Mapped(false)) {
        LoadAction::Abort { error, stray_frame, release } => {
            assert_eq!(error, ElfError::MappingFailed);
            assert_eq!(stray_frame, None);
            assert_eq!(release, vec![(USER_CODE_BASE, 0x9000)]);
        }
        _ => panic!("the load has to give up"),
    }
}

#[test]
fn memory_map_is_kept() {
    let mut maps = ProcessMemoryMaps::new();
    assert_eq!(
        record_page(&mut maps, 1, 0x1000, 0x2000),
        Err(ElfError::ProcessCreationFailed)
    );
    assert_eq!(commit_allocation(&mut maps, 1), Err(ElfError::ProcessCreationFailed));
    assert_eq!(begin_allocation(&mut maps, 1), Ok(()));
    assert_eq!(begin_allocation(&mut maps, 1), Err(ElfError::CapacityExceeded));
    for i in 0..MAX_PROCESS_MAPPED_PAGES as u64 {
        assert_eq!(record_page(&mut maps, 1, i * 4096, i), Ok(()));
    }
    assert_eq!(record_page(&mut maps, 1, 0, 0), Err(ElfError::CapacityExceeded));
    assert_eq!(rollback_allocation(&mut maps, 1).len(), MAX_PROCESS_MAPPED_PAGES - 1);
    assert_eq!(begin_allocation(&mut maps, 1), Ok(()));
    assert_eq!(commit_allocation(&mut maps, 1), Ok(()));
    assert_eq!(begin_allocation(&mut maps, 1), Err(ElfError::CapacityExceeded));
    assert_eq!(begin_allocation(&mut maps, MAX_PROCESSES), Err(ElfError::ProcessCreationFailed));
}

#[test]
fn process_slot_is_found() {
    let mut table = [ProcessRecord { occupied: false, id: 0 }; MAX_PROCESSES];
    table[4] = ProcessRecord { occupied: true, id: 77 };
    assert_eq!(find_loaded_process_slot(&table, 77), Some(4));
    assert_eq!(find_loaded_process_slot(&table, 78), None);
}
