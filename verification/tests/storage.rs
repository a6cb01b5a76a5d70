use zero_kernel::cap::types::cap_rights;
use zero_kernel::dev::registry::{find_device, DeviceRegistry};
use zero_kernel::dev::types::{DeviceId, BOOTSTRAP_MEM_DEVICE_ID};
use zero_kernel::fs::ata::{
    AtaAction, AtaJobKind, AtaPhase, AtaPioBlockDevice, ATA_CMD_FLUSH_CACHE, ATA_CMD_IDENTIFY,
    ATA_CMD_READ_SECTORS, ATA_CMD_WRITE_SECTORS, MAX_ATA_POLL_ITERATIONS,
};
use zero_kernel::fs::buf::{
    get_device, init_cache, read_block_cached, sync_all_buffers, sync_block, write_block_cached,
    BufferState, DeviceKind, Storage,
};
use zero_kernel::fs::dev::{BlockDevice, DeviceState, MemDeviceWrapper};
use zero_kernel::fs::dir::DirectoryManager;
use zero_kernel::fs::file::{FileManager, StorageObjectTable};
use zero_kernel::fs::inode::InodeManager;
use zero_kernel::fs::journal::Journal;
use zero_kernel::fs::mount::{format_volume, init, mount_volume};
use zero_kernel::fs::types::{
    crc32, DiskInode, DiskJournalBlock, DiskSuperblock, FsError, InodeType, JournalOpType,
    JournalState, BLOCK_SIZE, INODE_FLAG_PENDING_DELETE, O_APPEND, O_READ, O_WRITE,
    ROOT_DIR_INODE, SUPERBLOCK_BLOCK, SUPERBLOCK_MAGIC,
};

struct Machine {
    s: Storage<MemDeviceWrapper>,
    t: StorageObjectTable,
}

fn machine() -> Machine {
    let mut disk = MemDeviceWrapper::new();
    disk.device_id = 1;
    let mut m = Machine {
        s: Storage::new(MemDeviceWrapper::new(), disk),
        t: FileManager::new_table(),
    };
    let mut registry = DeviceRegistry::new();
    init(&mut m.s, &mut m.t, &mut registry);
    assert_eq!(find_device(&registry, DeviceId::new(BOOTSTRAP_MEM_DEVICE_ID)), Some(0));
    m
}

fn formatted() -> Machine {
    let mut m = machine();
    format_volume(&mut m.s, 0, 256, b"TEST_VOL").unwrap();
    m
}

fn new_file(m: &mut Machine) -> (u32, usize) {
    let n = InodeManager::alloc_inode(&mut m.s, 0, InodeType::Regular, 1).unwrap();
    let idx = FileManager::alloc_storage_object(&mut m.t, 0, n, 1, O_READ | O_WRITE, 0).unwrap();
    (n, idx)
}

#[test]
fn test_3k_a_device_discovery() {
    let m = machine();
    assert_eq!(get_device(0), Ok(DeviceKind::Memory));
    assert_eq!(get_device(1), Ok(DeviceKind::Disk));
    assert_eq!(get_device(2), Err(FsError::NotFound));
    assert_eq!(m.s.mem.device_id(), 0);
    assert_eq!(m.s.mem.block_count(), 256);
    assert_eq!(m.s.mem.state(), DeviceState::Ready);
    let ata = AtaPioBlockDevice::new();
    assert_eq!(ata.device_id, 1);
    assert_eq!(ata.state, DeviceState::Offline);
    assert_eq!(ata.total_blocks, 0);
}

#[test]
fn test_3k_b_sector_read_write() {
    let mut m = machine();
    let mut pattern = [0u8; BLOCK_SIZE];
    for (i, b) in pattern.iter_mut().enumerate() {
        *b = (i % 251) as u8;
    }
    m.s.mem.write_block(100, &pattern).unwrap();
    let mut back = [0u8; BLOCK_SIZE];
    m.s.mem.read_block(100, &mut back).unwrap();
    assert_eq!(pattern, back);
}

#[test]
fn test_3k_c_bounds_check() {
    let mut m = machine();
    let mut buf = [0u8; BLOCK_SIZE];
    assert_eq!(m.s.mem.read_block(256, &mut buf), Err(FsError::InvalidArgument));
    assert_eq!(m.s.mem.write_block(500, &buf), Err(FsError::InvalidArgument));
}

#[test]
fn device_without_storage_or_out_of_use_fails() {
    let mut dev = MemDeviceWrapper::new();
    let mut buf = [0u8; BLOCK_SIZE];
    assert_eq!(dev.read_block(0, &mut buf), Err(FsError::DeviceError));
    assert_eq!(dev.write_block(0, &buf), Err(FsError::DeviceError));
    let mut m = machine();
    m.s.mem.state = DeviceState::Faulted;
    assert_eq!(m.s.mem.read_block(0, &mut buf), Err(FsError::DeviceError));
    assert_eq!(m.s.mem.flush(), Err(FsError::DeviceError));
    m.s.mem.reset();
    assert_eq!(m.s.mem.flush(), Ok(()));
}

#[test]
fn test_3k_d_volume_format() {
    let mut m = machine();
    init_cache(&mut m.s);
    m.s.mem.reset();
    assert_eq!(format_volume(&mut m.s, 0, 256, b"TEST_VOL"), Ok(()));
    assert_eq!(format_volume(&mut m.s, 0, 63, b"X"), Err(FsError::InvalidArgument));
    assert_eq!(format_volume(&mut m.s, 0, 32_769, b"X"), Err(FsError::InvalidArgument));
    let sb = DiskSuperblock::load(&m.s.mem.blocks[1]);
    assert_eq!(sb.free_blocks, 234);
    assert_eq!(sb.free_inodes, 254);
    assert_eq!(&sb.volume_label[..9], b"TEST_VOL\0");
    assert_eq!(&m.s.mem.blocks[4][..4], &[0xFF, 0xFF, 0x3F, 0x00]);
    assert_eq!(&m.s.mem.blocks[3][..2], &[0x03, 0x00]);
}

#[test]
fn long_label_is_cut() {
    let mut m = machine();
    format_volume(&mut m.s, 0, 64, &[b'z'; 40]).unwrap();
    let sb = mount_volume(&mut m.s, 0).unwrap();
    assert_eq!(&sb.volume_label[..31], &[b'z'; 31]);
    assert_eq!(sb.volume_label[31], 0);
}

#[test]
fn test_3k_e_superblock_validation() {
    let mut m = formatted();
    let sb = mount_volume(&mut m.s, 0).unwrap();
    assert_eq!(sb.magic, SUPERBLOCK_MAGIC);
    assert_eq!(sb.version, 1);
    assert_eq!(sb.block_size, 4096);
    assert_eq!(sb.total_blocks, 256);
    assert_eq!(sb.total_inodes, 256);
    assert_eq!(sb.root_dir_inode, 1);
    assert_eq!(sb.volume_state, 0);
    assert_eq!(sb.mount_count, 1);
    assert!(sb.is_valid());
    let again = mount_volume(&mut m.s, 0).unwrap();
    assert_eq!(again.mount_count, 2);
}

#[test]
fn checksum_of_known_text() {
    assert_eq!(crc32(b"123456789"), 0xCBF4_3926);
    assert_eq!(crc32(b""), 0);
}

#[test]
fn test_3k_f_inode_allocation() {
    let mut m = formatted();
    let a = InodeManager::alloc_inode(&mut m.s, 0, InodeType::Regular, 10).unwrap();
    let b = InodeManager::alloc_inode(&mut m.s, 0, InodeType::Regular, 10).unwrap();
    assert_eq!(a, 2);
    assert_eq!(b, 3);
    let inode = InodeManager::read_inode(&mut m.s, 0, a).unwrap();
    assert_eq!(inode.file_type, InodeType::Regular.code());
    assert_eq!(inode.creator_pid, 10);
    assert_eq!(inode.generation, 1);
    InodeManager::free_inode(&mut m.s, 0, a).unwrap();
    assert_eq!(InodeManager::alloc_inode(&mut m.s, 0, InodeType::Regular, 20), Ok(2));
}

#[test]
fn inode_numbers_are_checked() {
    let mut m = formatted();
    let i = DiskInode::empty();
    assert_eq!(InodeManager::read_inode(&mut m.s, 0, 0).err(), Some(FsError::InvalidArgument));
    assert_eq!(InodeManager::read_inode(&mut m.s, 0, 256).err(), Some(FsError::InvalidArgument));
    assert_eq!(InodeManager::write_inode(&mut m.s, 0, 0, i), Err(FsError::InvalidArgument));
    assert_eq!(InodeManager::free_inode(&mut m.s, 0, 0), Err(FsError::InvalidArgument));
    assert_eq!(InodeManager::free_inode(&mut m.s, 0, 256), Err(FsError::InvalidArgument));
    let (n, _) = new_file(&mut m);
    let mut raw = [0u8; BLOCK_SIZE];
    read_block_cached(&mut m.s, 0, 5, &mut raw).unwrap();
    raw[n as usize * 256 + 8] ^= 1;
    write_block_cached(&mut m.s, 0, 5, &raw).unwrap();
    assert_eq!(InodeManager::read_inode(&mut m.s, 0, n).err(), Some(FsError::CorruptMetadata));
}

#[test]
fn test_3k_g_block_allocation() {
    let mut m = formatted();
    let a = InodeManager::alloc_block(&mut m.s, 0).unwrap();
    let b = InodeManager::alloc_block(&mut m.s, 0).unwrap();
    assert_eq!(a, 22);
    assert_eq!(b, 23);
    InodeManager::free_block(&mut m.s, 0, a).unwrap();
    assert_eq!(InodeManager::alloc_block(&mut m.s, 0), Ok(22));
    assert_eq!(InodeManager::free_block(&mut m.s, 0, 21), Err(FsError::InvalidArgument));
    assert_eq!(InodeManager::free_block(&mut m.s, 0, 32_768), Err(FsError::InvalidArgument));
}

#[test]
fn test_3k_h_allocation_exhaustion() {
    let mut m = formatted();
    let mut taken = Vec::new();
    while let Ok(n) = InodeManager::alloc_inode(&mut m.s, 0, InodeType::Regular, 1) {
        taken.push(n);
        if taken.len() >= 254 {
            break;
        }
    }
    assert_eq!(
        InodeManager::alloc_inode(&mut m.s, 0, InodeType::Regular, 1),
        Err(FsError::NoInode)
    );
    for n in taken {
        InodeManager::free_inode(&mut m.s, 0, n).unwrap();
    }
    assert_eq!(InodeManager::alloc_inode(&mut m.s, 0, InodeType::Regular, 1), Ok(2));
}

#[test]
fn full_bitmap_leaves_no_space() {
    let mut m = formatted();
    write_block_cached(&mut m.s, 0, 4, &[0xFF; BLOCK_SIZE]).unwrap();
    assert_eq!(InodeManager::alloc_block(&mut m.s, 0), Err(FsError::NoSpace));
    let (_, idx) = new_file(&mut m);
    assert_eq!(FileManager::write(&mut m.t, &mut m.s, idx, b"x"), Err(FsError::NoSpace));
    assert_eq!(m.t.slots[idx].in_flight_ops, 0);
}

#[test]
fn test_3k_i_direct_block_mapping() {
    let mut m = formatted();
    let (_, idx) = new_file(&mut m);
    for blk in 0..18u8 {
        let chunk = [blk + 1; BLOCK_SIZE];
        assert_eq!(FileManager::write(&mut m.t, &mut m.s, idx, &chunk), Ok(BLOCK_SIZE));
    }
    m.t.slots[idx].cursor_offset = 0;
    for blk in 0..18u8 {
        let mut back = [0u8; BLOCK_SIZE];
        assert_eq!(FileManager::read(&mut m.t, &mut m.s, idx, &mut back), Ok(BLOCK_SIZE));
        assert_eq!(back, [blk + 1; BLOCK_SIZE]);
    }
    FileManager::free_storage_object(&mut m.t, &mut m.s, idx).unwrap();
}

#[test]
fn test_3k_j_indirect_cow_mapping() {
    let mut m = formatted();
    let (n, idx) = new_file(&mut m);
    for _ in 0..20 {
        assert_eq!(
            FileManager::write(&mut m.t, &mut m.s, idx, &[0xAA; BLOCK_SIZE]),
            Ok(BLOCK_SIZE)
        );
    }
    let first = InodeManager::read_inode(&mut m.s, 0, n).unwrap().indirect_block;
    assert_ne!(first, 0);
    for _ in 0..2 {
        assert_eq!(
            FileManager::write(&mut m.t, &mut m.s, idx, &[0xBB; BLOCK_SIZE]),
            Ok(BLOCK_SIZE)
        );
    }
    let inode = InodeManager::read_inode(&mut m.s, 0, n).unwrap();
    assert_ne!(inode.indirect_block, 0);
    assert_ne!(inode.indirect_block, first);
    assert_eq!(inode.size_bytes, 22 * 4096);
    m.t.slots[idx].cursor_offset = 17 * 4096;
    let mut back = vec![0u8; 5 * 4096];
    assert_eq!(FileManager::read(&mut m.t, &mut m.s, idx, &mut back), Ok(5 * 4096));
    assert!(back[..3 * 4096].iter().all(|b| *b == 0xAA));
    assert!(back[3 * 4096..].iter().all(|b| *b == 0xBB));
}

#[test]
fn test_3k_k_tail_zero_padding() {
    let mut m = formatted();
    let (n, idx) = new_file(&mut m);
    let data = [0x42u8; 100];
    assert_eq!(FileManager::write(&mut m.t, &mut m.s, idx, &data), Ok(100));
    let lba = InodeManager::read_inode(&mut m.s, 0, n).unwrap().direct_blocks[0];
    let mut raw = [0u8; BLOCK_SIZE];
    read_block_cached(&mut m.s, 0, lba as u64, &mut raw).unwrap();
    assert_eq!(&raw[..100], &data[..]);
    assert!(raw[100..].iter().all(|b| *b == 0));
}

#[test]
fn test_3k_l_directory_insertion() {
    let mut m = formatted();
    let n = InodeManager::alloc_inode(&mut m.s, 0, InodeType::Regular, 1).unwrap();
    let (slot, entry) =
        DirectoryManager::insert(&mut m.s, 0, ROOT_DIR_INODE, b"test.txt", n, InodeType::Regular)
            .unwrap();
    assert_eq!(entry.inode_num, n);
    assert_eq!(entry.name_len, 8);
    assert_eq!(
        DirectoryManager::insert(&mut m.s, 0, ROOT_DIR_INODE, b"test.txt", n, InodeType::Regular)
            .err(),
        Some(FsError::AlreadyExists)
    );
    let (found, kind, at) =
        DirectoryManager::lookup(&mut m.s, 0, ROOT_DIR_INODE, b"test.txt").unwrap();
    assert_eq!(found, n);
    assert_eq!(kind, InodeType::Regular);
    assert_eq!(at, slot);
    let (gone, gone_slot, _) =
        DirectoryManager::unlink(&mut m.s, 0, ROOT_DIR_INODE, b"test.txt").unwrap();
    assert_eq!(gone, n);
    assert_eq!(gone_slot, slot);
    assert_eq!(
        DirectoryManager::lookup(&mut m.s, 0, ROOT_DIR_INODE, b"test.txt").err(),
        Some(FsError::NotFound)
    );
}

#[test]
fn names_are_checked() {
    for bad in [&b""[..], b".", b"..", b"a/b", b"a\\b", b"a\0b", &[b'x'; 56]] {
        assert_eq!(DirectoryManager::validate_filename(bad), Err(FsError::InvalidArgument));
    }
    assert_eq!(DirectoryManager::validate_filename(b"..."), Ok(()));
    assert_eq!(DirectoryManager::validate_filename(&[b'x'; 55]), Ok(()));
}

#[test]
fn other_names_are_left_alone() {
    let mut m = formatted();
    for (i, name) in [&b"a"[..], b"ab", b"abc"].iter().enumerate() {
        DirectoryManager::insert(
            &mut m.s,
            0,
            ROOT_DIR_INODE,
            name,
            10 + i as u32,
            InodeType::Regular,
        )
        .unwrap();
    }
    DirectoryManager::unlink(&mut m.s, 0, ROOT_DIR_INODE, b"ab").unwrap();
    assert_eq!(
        DirectoryManager::lookup(&mut m.s, 0, ROOT_DIR_INODE, b"a"),
        Ok((10, InodeType::Regular, 0))
    );
    assert_eq!(
        DirectoryManager::lookup(&mut m.s, 0, ROOT_DIR_INODE, b"abc"),
        Ok((12, InodeType::Regular, 2))
    );
    let n = InodeManager::alloc_inode(&mut m.s, 0, InodeType::Regular, 1).unwrap();
    assert_eq!(
        DirectoryManager::lookup(&mut m.s, 0, n, b"a").err(),
        Some(FsError::NotDirectory)
    );
    let (slot, _) =
        DirectoryManager::insert(&mut m.s, 0, ROOT_DIR_INODE, b"d", 9, InodeType::Directory)
            .unwrap();
    assert_eq!(slot, 1);
}

#[test]
fn directory_fills_up() {
    let mut m = formatted();
    for i in 0..64u8 {
        let name = [b'a' + i / 26, b'a' + i % 26];
        DirectoryManager::insert(&mut m.s, 0, ROOT_DIR_INODE, &name, 7, InodeType::Regular)
            .unwrap();
    }
    assert_eq!(
        DirectoryManager::insert(&mut m.s, 0, ROOT_DIR_INODE, b"zz", 7, InodeType::Regular).err(),
        Some(FsError::NoSpace)
    );
}

#[test]
fn test_3k_m_file_truncation() {
    let mut m = formatted();
    let (n, idx) = new_file(&mut m);
    for _ in 0..4 {
        FileManager::write(&mut m.t, &mut m.s, idx, &[0x55; BLOCK_SIZE]).unwrap();
    }
    let mut inode = InodeManager::read_inode(&mut m.s, 0, n).unwrap();
    assert_eq!(inode.blocks_count, 4);
    let mut a_buf = [0u32; 10];
    let mut a_cnt = 0;
    let mut f_buf = [0u32; 10];
    let mut f_cnt = 0;
    InodeManager::truncate(
        &mut m.s, 0, &mut inode, 4096, &mut a_buf, &mut a_cnt, &mut f_buf, &mut f_cnt,
    )
    .unwrap();
    assert_eq!(inode.size_bytes, 4096);
    assert_eq!(inode.blocks_count, 1);
    assert_eq!(f_cnt, 3);
    assert_eq!(inode.direct_blocks[0], 22);
    assert_eq!(inode.direct_blocks[1..], [0; 17]);
}

#[test]
fn indirect_blocks_are_cut_off() {
    let mut m = formatted();
    let (n, idx) = new_file(&mut m);
    for _ in 0..21 {
        FileManager::write(&mut m.t, &mut m.s, idx, &[0x55; BLOCK_SIZE]).unwrap();
    }
    let mut inode = InodeManager::read_inode(&mut m.s, 0, n).unwrap();
    let was = inode.indirect_block;
    let mut a = [0u32; 10];
    let mut ac = 0;
    let mut f = [0u32; 10];
    let mut fc = 0;
    InodeManager::truncate(&mut m.s, 0, &mut inode, 19 * 4096, &mut a, &mut ac, &mut f, &mut fc)
        .unwrap();
    assert_ne!(inode.indirect_block, was);
    assert!(InodeManager::bmap(&mut m.s, 0, &inode, 18).unwrap().is_some());
    assert_eq!(InodeManager::bmap(&mut m.s, 0, &inode, 19), Ok(None));
    assert_eq!(InodeManager::bmap(&mut m.s, 0, &inode, 1042), Err(FsError::InvalidArgument));
    InodeManager::truncate(&mut m.s, 0, &mut inode, 0, &mut a, &mut ac, &mut f, &mut fc).unwrap();
    assert_eq!(inode.indirect_block, 0);
    assert_eq!(inode.size_bytes, 0);
}

#[test]
fn test_3k_n_process_exit_persistence() {
    let mut m = formatted();
    let (n, idx) = new_file(&mut m);
    DirectoryManager::insert(&mut m.s, 0, ROOT_DIR_INODE, b"persist.dat", n, InodeType::Regular)
        .unwrap();
    FileManager::write(&mut m.t, &mut m.s, idx, b"PERSISTENT_DATA_12345").unwrap();
    FileManager::free_storage_object(&mut m.t, &mut m.s, idx).unwrap();
    let (found, _, _) =
        DirectoryManager::lookup(&mut m.s, 0, ROOT_DIR_INODE, b"persist.dat").unwrap();
    assert_eq!(found, n);
    let again = FileManager::alloc_storage_object(&mut m.t, 0, found, 1, O_READ, 21).unwrap();
    let mut back = [0u8; 21];
    FileManager::read(&mut m.t, &mut m.s, again, &mut back).unwrap();
    assert_eq!(&back, b"PERSISTENT_DATA_12345");
    FileManager::free_storage_object(&mut m.t, &mut m.s, again).unwrap();
    DirectoryManager::unlink(&mut m.s, 0, ROOT_DIR_INODE, b"persist.dat").unwrap();
}

#[test]
fn test_3k_o_reboot_persistence() {
    let mut m = formatted();
    let (n, idx) = new_file(&mut m);
    DirectoryManager::insert(&mut m.s, 0, ROOT_DIR_INODE, b"reboot.txt", n, InodeType::Regular)
        .unwrap();
    FileManager::write(&mut m.t, &mut m.s, idx, b"REBOOT_SURVIVOR").unwrap();
    FileManager::free_storage_object(&mut m.t, &mut m.s, idx).unwrap();
    sync_all_buffers(&mut m.s, 0).unwrap();
    init_cache(&mut m.s);
    let sb = mount_volume(&mut m.s, 0).unwrap();
    assert_eq!(sb.magic, SUPERBLOCK_MAGIC);
    let (found, _, _) =
        DirectoryManager::lookup(&mut m.s, 0, ROOT_DIR_INODE, b"reboot.txt").unwrap();
    let again = FileManager::alloc_storage_object(&mut m.t, 0, found, 1, O_READ, 15).unwrap();
    let mut back = [0u8; 15];
    FileManager::read(&mut m.t, &mut m.s, again, &mut back).unwrap();
    assert_eq!(&back, b"REBOOT_SURVIVOR");
    FileManager::free_storage_object(&mut m.t, &mut m.s, again).unwrap();
    DirectoryManager::unlink(&mut m.s, 0, ROOT_DIR_INODE, b"reboot.txt").unwrap();
}

#[test]
fn written_bytes_are_on_the_device() {
    let mut m = formatted();
    let (n, idx) = new_file(&mut m);
    FileManager::write(&mut m.t, &mut m.s, idx, b"durable").unwrap();
    init_cache(&mut m.s);
    let inode = InodeManager::read_inode(&mut m.s, 0, n).unwrap();
    assert_eq!(inode.size_bytes, 7);
    assert_eq!(&m.s.mem.blocks[inode.direct_blocks[0] as usize][..7], b"durable");
    let j = Journal::read_journal_block(&mut m.s, 0).unwrap();
    assert_eq!(j.state, JournalState::Free.code());
    assert_eq!(j.sequence, 2);
}

#[test]
fn test_3k_p_corruption_rejection() {
    let mut m = formatted();
    let mut raw = [0u8; BLOCK_SIZE];
    read_block_cached(&mut m.s, 0, SUPERBLOCK_BLOCK, &mut raw).unwrap();
    raw[0x58] ^= 0xFF;
    write_block_cached(&mut m.s, 0, SUPERBLOCK_BLOCK, &raw).unwrap();
    sync_all_buffers(&mut m.s, 0).unwrap();
    init_cache(&mut m.s);
    assert_eq!(mount_volume(&mut m.s, 0).err(), Some(FsError::InvalidSuperblock));
    raw[0x58] ^= 0xFF;
    write_block_cached(&mut m.s, 0, SUPERBLOCK_BLOCK, &raw).unwrap();
    sync_all_buffers(&mut m.s, 0).unwrap();
    assert!(mount_volume(&mut m.s, 0).is_ok());
}

fn record(n: u32, state: JournalState, seq: u64) -> DiskJournalBlock {
    let mut j = DiskJournalBlock::empty();
    j.sequence = seq;
    j.op_type = JournalOpType::Write.code();
    j.state = state.code();
    j.target_inode_num = n;
    j
}

#[test]
fn test_3k_q_uncommitted_crash_recovery() {
    let mut m = formatted();
    let n = InodeManager::alloc_inode(&mut m.s, 0, InodeType::Regular, 1).unwrap();
    let mut old_inode = InodeManager::read_inode(&mut m.s, 0, n).unwrap();
    old_inode.size_bytes = 100;
    old_inode.direct_blocks[0] = 50;
    old_inode.indirect_block = 60;
    old_inode.recompute_checksum();
    InodeManager::write_inode(&mut m.s, 0, n, old_inode).unwrap();
    let mut j = record(n, JournalState::Intent, 10);
    j.allocated_blocks_count = 1;
    j.allocated_blocks[0] = 70;
    j.freed_blocks_count = 1;
    j.freed_blocks[0] = 60;
    j.old_inode_image = old_inode;
    let mut new_inode = old_inode;
    new_inode.size_bytes = 200;
    new_inode.indirect_block = 70;
    new_inode.recompute_checksum();
    j.new_inode_image = new_inode;
    Journal::write_journal_block(&mut m.s, 0, j).unwrap();
    Journal::recover(&mut m.s, 0).unwrap();
    let back = InodeManager::read_inode(&mut m.s, 0, n).unwrap();
    assert_eq!(back.size_bytes, 100);
    assert_eq!(back.indirect_block, 60);
    let post = Journal::read_journal_block(&mut m.s, 0).unwrap();
    assert_eq!(post.state, JournalState::Free.code());
}

#[test]
fn test_3k_r_committed_crash_recovery() {
    let mut m = formatted();
    let n = InodeManager::alloc_inode(&mut m.s, 0, InodeType::Regular, 1).unwrap();
    let mut old_inode = InodeManager::read_inode(&mut m.s, 0, n).unwrap();
    old_inode.size_bytes = 100;
    old_inode.indirect_block = 60;
    old_inode.recompute_checksum();
    InodeManager::write_inode(&mut m.s, 0, n, old_inode).unwrap();
    let mut new_inode = old_inode;
    new_inode.size_bytes = 300;
    new_inode.indirect_block = 70;
    new_inode.recompute_checksum();
    let mut j = record(n, JournalState::Committed, 20);
    j.allocated_blocks_count = 1;
    j.allocated_blocks[0] = 70;
    j.freed_blocks_count = 1;
    j.freed_blocks[0] = 60;
    j.old_inode_image = old_inode;
    j.new_inode_image = new_inode;
    Journal::write_journal_block(&mut m.s, 0, j).unwrap();
    Journal::recover(&mut m.s, 0).unwrap();
    let back = InodeManager::read_inode(&mut m.s, 0, n).unwrap();
    assert_eq!(back.size_bytes, 300);
    assert_eq!(back.indirect_block, 70);
    let post = Journal::read_journal_block(&mut m.s, 0).unwrap();
    assert_eq!(post.state, JournalState::Free.code());
    let mut bm = [0u8; BLOCK_SIZE];
    read_block_cached(&mut m.s, 0, 4, &mut bm).unwrap();
    assert_ne!(bm[70 / 8] & (1 << (70 % 8)), 0);
    assert_eq!(bm[60 / 8] & (1 << (60 % 8)), 0);
}

#[test]
fn test_3k_s_post_metadata_write_crash() {
    let mut m = formatted();
    let n = InodeManager::alloc_inode(&mut m.s, 0, InodeType::Regular, 1).unwrap();
    let mut target = InodeManager::read_inode(&mut m.s, 0, n).unwrap();
    target.size_bytes = 500;
    target.recompute_checksum();
    InodeManager::write_inode(&mut m.s, 0, n, target).unwrap();
    let mut j = record(n, JournalState::Committed, 30);
    j.new_inode_image = target;
    Journal::write_journal_block(&mut m.s, 0, j).unwrap();
    Journal::recover(&mut m.s, 0).unwrap();
    Journal::write_journal_block(&mut m.s, 0, j).unwrap();
    Journal::recover(&mut m.s, 0).unwrap();
    assert_eq!(InodeManager::read_inode(&mut m.s, 0, n).unwrap().size_bytes, 500);
}

#[test]
fn damaged_record_is_refused() {
    let mut m = formatted();
    let j = record(2, JournalState::Committed, 30);
    Journal::write_journal_block(&mut m.s, 0, j).unwrap();
    let mut raw = [0u8; BLOCK_SIZE];
    read_block_cached(&mut m.s, 0, 2, &mut raw).unwrap();
    raw[100] ^= 1;
    write_block_cached(&mut m.s, 0, 2, &raw).unwrap();
    assert_eq!(Journal::recover(&mut m.s, 0), Err(FsError::CorruptJournal));
    assert_eq!(mount_volume(&mut m.s, 0).err(), Some(FsError::CorruptJournal));
}

#[test]
fn test_3k_t_capability_enforcement() {
    assert_eq!(cap_rights::FILE_READ, 1 << 5);
    assert_eq!(cap_rights::FILE_WRITE, 1 << 6);
    assert_eq!(cap_rights::FILE_SYNC, 1 << 7);
}

#[test]
fn large_write_comes_back_whole() {
    let mut m = formatted();
    let (n, idx) = new_file(&mut m);
    let data: Vec<u8> = (0..100_000u32).map(|i| (i % 253) as u8).collect();
    assert_eq!(FileManager::write(&mut m.t, &mut m.s, idx, &data), Ok(100_000));
    assert_eq!(m.t.slots[idx].cursor_offset, 100_000);
    assert_eq!(m.t.slots[idx].cached_size, 100_000);
    assert_eq!(InodeManager::read_inode(&mut m.s, 0, n).unwrap().size_bytes, 100_000);
    m.t.slots[idx].cursor_offset = 0;
    let mut back = vec![0u8; 100_000];
    assert_eq!(FileManager::read(&mut m.t, &mut m.s, idx, &mut back), Ok(100_000));
    assert_eq!(back, data);
    m.t.slots[idx].cursor_offset = 5000;
    assert_eq!(FileManager::write(&mut m.t, &mut m.s, idx, b"patched"), Ok(7));
    m.t.slots[idx].cursor_offset = 4990;
    let mut part = [0u8; 30];
    assert_eq!(FileManager::read(&mut m.t, &mut m.s, idx, &mut part), Ok(30));
    assert_eq!(&part[..10], &data[4990..5000]);
    assert_eq!(&part[10..17], b"patched");
    assert_eq!(&part[17..], &data[5007..5020]);
}

#[test]
fn open_files_are_checked() {
    let mut m = formatted();
    let (_, idx) = new_file(&mut m);
    let mut buf = [0u8; 4];
    assert_eq!(FileManager::read(&mut m.t, &mut m.s, 32, &mut buf), Ok(0));
    assert_eq!(FileManager::write(&mut m.t, &mut m.s, 32, b"x"), Ok(0));
    assert_eq!(FileManager::write(&mut m.t, &mut m.s, idx, b""), Ok(0));
    assert_eq!(FileManager::read(&mut m.t, &mut m.s, idx, &mut buf), Ok(0));
    assert_eq!(FileManager::read(&mut m.t, &mut m.s, 9, &mut buf), Err(FsError::NotFound));
    assert_eq!(FileManager::write(&mut m.t, &mut m.s, 9, b"x"), Err(FsError::NotFound));
    let ro = FileManager::alloc_storage_object(&mut m.t, 0, 2, 1, O_READ, 0).unwrap();
    assert_eq!(
        FileManager::write(&mut m.t, &mut m.s, ro, b"x"),
        Err(FsError::PermissionDenied)
    );
    let app = FileManager::alloc_storage_object(&mut m.t, 0, 2, 1, O_WRITE | O_APPEND, 77).unwrap();
    assert_eq!(m.t.slots[app].cursor_offset, 77);
    assert!(FileManager::has_open_references(&m.t, 0, 2));
    assert!(!FileManager::has_open_references(&m.t, 1, 2));
    let st = FileManager::stat(&m.t, &mut m.s, idx).unwrap();
    assert_eq!(st.size_bytes, 0);
    assert_eq!(FileManager::stat(&m.t, &mut m.s, 20).err(), Some(FsError::NotFound));
    assert_eq!(FileManager::sync(&m.t, &mut m.s, idx), Ok(()));
}

#[test]
fn last_close_deletes_what_is_marked() {
    let mut m = formatted();
    let (n, idx) = new_file(&mut m);
    FileManager::write(&mut m.t, &mut m.s, idx, &[1; BLOCK_SIZE]).unwrap();
    let second = FileManager::alloc_storage_object(&mut m.t, 0, n, 1, O_READ, 0).unwrap();
    let mut inode = InodeManager::read_inode(&mut m.s, 0, n).unwrap();
    inode.links_count = 0;
    inode.flags |= INODE_FLAG_PENDING_DELETE;
    InodeManager::write_inode(&mut m.s, 0, n, inode).unwrap();
    FileManager::free_storage_object(&mut m.t, &mut m.s, idx).unwrap();
    assert_eq!(
        InodeManager::read_inode(&mut m.s, 0, n).unwrap().file_type,
        InodeType::Regular.code()
    );
    FileManager::free_storage_object(&mut m.t, &mut m.s, second).unwrap();
    assert_eq!(InodeManager::read_inode(&mut m.s, 0, n).unwrap().file_type, 0);
    assert_eq!(InodeManager::alloc_block(&mut m.s, 0), Ok(22));
}

#[test]
fn table_of_open_files_fills_up() {
    let mut m = formatted();
    for i in 0..32 {
        assert_eq!(FileManager::alloc_storage_object(&mut m.t, 0, 2, 1, O_READ, 0), Ok(i));
    }
    assert!(FileManager::alloc_storage_object(&mut m.t, 0, 2, 1, O_READ, 0).is_err());
}

#[test]
fn cache_gives_up_the_buffer_used_longest_ago() {
    let mut m = machine();
    let mut buf = [0u8; BLOCK_SIZE];
    for b in 0..4u64 {
        write_block_cached(&mut m.s, 0, b, &[b as u8 + 1; BLOCK_SIZE]).unwrap();
    }
    read_block_cached(&mut m.s, 0, 0, &mut buf).unwrap();
    assert_eq!(buf, [1; BLOCK_SIZE]);
    assert_eq!(m.s.mem.blocks[1][0], 0);
    write_block_cached(&mut m.s, 0, 9, &[9; BLOCK_SIZE]).unwrap();
    assert_eq!(m.s.mem.blocks[1][0], 2);
    assert_eq!(m.s.mem.blocks[0][0], 0);
    sync_block(&mut m.s, 0, 0).unwrap();
    assert_eq!(m.s.mem.blocks[0][0], 1);
    sync_all_buffers(&mut m.s, 0xFF).unwrap();
    assert!(m.s.buffers.iter().all(|f| f.state != BufferState::Dirty));
    assert_eq!(m.s.mem.blocks[9], [9; BLOCK_SIZE]);
    assert_eq!(read_block_cached(&mut m.s, 7, 0, &mut buf), Err(FsError::NotFound));
}

#[test]
fn devices_are_kept_apart() {
    let mut m = machine();
    let mut registry = DeviceRegistry::new();
    m.s.ata.init_storage(&mut registry);
    write_block_cached(&mut m.s, 0, 30, &[1; BLOCK_SIZE]).unwrap();
    write_block_cached(&mut m.s, 1, 30, &[2; BLOCK_SIZE]).unwrap();
    let mut buf = [0u8; BLOCK_SIZE];
    read_block_cached(&mut m.s, 0, 30, &mut buf).unwrap();
    assert_eq!(buf[0], 1);
    read_block_cached(&mut m.s, 1, 30, &mut buf).unwrap();
    assert_eq!(buf[0], 2);
}

#[test]
fn disk_is_probed() {
    let mut d = AtaPioBlockDevice::new();
    let mut buf = [0u8; BLOCK_SIZE];
    let mut job = d.probe();
    assert_eq!(d.state, DeviceState::Probing);
    match AtaPioBlockDevice::action(&job, &buf) {
        AtaAction::Send { writes, count } => {
            assert_eq!(count, 6);
            assert_eq!(writes[0].value, 0xA0);
            assert_eq!((writes[5].port, writes[5].value), (0x1F7, ATA_CMD_IDENTIFY));
        }
        _ => panic!("a command is due"),
    }
    AtaPioBlockDevice::sent(&mut job);
    assert!(matches!(AtaPioBlockDevice::action(&job, &buf), AtaAction::ReadStatus));
    d.status_read(&mut job, 0x50).unwrap();
    d.status_read(&mut job, 0x80).unwrap();
    d.status_read(&mut job, 0x50).unwrap();
    d.status_read(&mut job, 0x58).unwrap();
    for w in 0..256u32 {
        assert!(matches!(AtaPioBlockDevice::action(&job, &buf), AtaAction::ReadWord));
        let word = if w == 60 {
            0x4000
        } else if w == 61 {
            0x0001
        } else {
            0xFFFF
        };
        d.word_moved(&mut job, &mut buf, word);
    }
    assert!(matches!(AtaPioBlockDevice::action(&job, &buf), AtaAction::Done));
    assert_eq!(d.state, DeviceState::Ready);
    assert_eq!(d.total_blocks, 0x1_4000 / 8);
}

#[test]
fn missing_disk_is_not_found() {
    for status in [0u8, 0xFF] {
        let mut d = AtaPioBlockDevice::new();
        let mut job = d.probe();
        AtaPioBlockDevice::sent(&mut job);
        assert_eq!(d.status_read(&mut job, status), Err(FsError::NotFound));
        assert_eq!(d.state, DeviceState::Offline);
    }
}

#[test]
fn disk_moves_a_block() {
    let d0 = AtaPioBlockDevice { device_id: 1, state: DeviceState::Ready, total_blocks: 100 };
    let mut d = d0;
    let mut job = d.read_block(5).unwrap();
    let mut buf = [0u8; BLOCK_SIZE];
    let mut next: u16 = 0;
    let mut commands = 0u64;
    while job.phase != AtaPhase::Finished {
        match AtaPioBlockDevice::action(&job, &buf) {
            AtaAction::Send { writes, count } => {
                assert_eq!(count, 6);
                assert_eq!(writes[1].value, 1);
                assert_eq!(writes[2].value as u64, 40 + commands);
                assert_eq!(writes[5].value, ATA_CMD_READ_SECTORS);
                commands += 1;
                AtaPioBlockDevice::sent(&mut job);
            }
            AtaAction::ReadStatus => d.status_read(&mut job, 0x58).unwrap(),
            AtaAction::ReadWord => {
                d.word_moved(&mut job, &mut buf, next);
                next += 1;
            }
            _ => panic!("nothing else is due"),
        }
    }
    assert_eq!(commands, 8);
    assert_eq!(next, 2048);
    assert_eq!(&buf[..4], &[0, 0, 1, 0]);
    assert_eq!(&buf[4094..], &[0xFF, 0x07]);
    assert_eq!(d, d0);

    let mut job = d.write_block(0).unwrap();
    assert_eq!(job.kind, AtaJobKind::Write);
    d.status_read(&mut job, 0x50).unwrap();
    match AtaPioBlockDevice::action(&job, &buf) {
        AtaAction::Send { writes, .. } => assert_eq!(writes[5].value, ATA_CMD_WRITE_SECTORS),
        _ => panic!("a command is due"),
    }
    AtaPioBlockDevice::sent(&mut job);
    d.status_read(&mut job, 0x58).unwrap();
    d.word_moved(&mut job, &mut buf, 0);
    match AtaPioBlockDevice::action(&job, &buf) {
        AtaAction::WriteWord { word } => assert_eq!(word, 1),
        _ => panic!("a word is due"),
    }
}

#[test]
fn disk_requests_are_checked() {
    let off = AtaPioBlockDevice::new();
    assert_eq!(off.read_block(0).err(), Some(FsError::DeviceError));
    assert_eq!(off.write_block(0).err(), Some(FsError::DeviceError));
    assert_eq!(off.flush().err(), Some(FsError::DeviceError));
    let mut d = AtaPioBlockDevice { device_id: 1, state: DeviceState::Ready, total_blocks: 100 };
    assert_eq!(d.read_block(100).err(), Some(FsError::InvalidArgument));
    assert_eq!(d.write_block(100).err(), Some(FsError::InvalidArgument));
    let mut job = d.flush().unwrap();
    d.status_read(&mut job, 0x40).unwrap();
    let buf = [0u8; BLOCK_SIZE];
    match AtaPioBlockDevice::action(&job, &buf) {
        AtaAction::Send { writes, count } => {
            assert_eq!(count, 2);
            assert_eq!(writes[1].value, ATA_CMD_FLUSH_CACHE);
        }
        _ => panic!("a command is due"),
    }
    AtaPioBlockDevice::sent(&mut job);
    assert_eq!(d.status_read(&mut job, 0x21), Err(FsError::DeviceError));
    assert_eq!(d.state, DeviceState::Faulted);
}

#[test]
fn busy_disk_is_given_up() {
    let mut d = AtaPioBlockDevice { device_id: 1, state: DeviceState::Ready, total_blocks: 100 };
    let mut job = d.read_block(0).unwrap();
    for _ in 0..MAX_ATA_POLL_ITERATIONS - 1 {
        d.status_read(&mut job, 0x80).unwrap();
    }
    assert_eq!(d.status_read(&mut job, 0x80), Err(FsError::DeviceTimeout));
    assert_eq!(d.state, DeviceState::Faulted);
}

#[test]
fn files_keep_apart() {
    let mut m = formatted();
    let (_, a) = new_file(&mut m);
    let (_, b) = new_file(&mut m);
    for i in 0..6u8 {
        FileManager::write(&mut m.t, &mut m.s, a, &[10 + i; 3000]).unwrap();
        FileManager::write(&mut m.t, &mut m.s, b, &[50 + i; 5000]).unwrap();
    }
    m.t.slots[a].cursor_offset = 0;
    m.t.slots[b].cursor_offset = 0;
    for i in 0..6u8 {
        let mut x = [0u8; 3000];
        assert_eq!(FileManager::read(&mut m.t, &mut m.s, a, &mut x), Ok(3000));
        assert_eq!(x, [10 + i; 3000]);
        let mut y = [0u8; 5000];
        assert_eq!(FileManager::read(&mut m.t, &mut m.s, b, &mut y), Ok(5000));
        assert_eq!(y, [50 + i; 5000]);
    }
}

#[test]
fn cut_file_keeps_its_start() {
    let mut m = formatted();
    let (n, idx) = new_file(&mut m);
    let data: Vec<u8> = (0..20_000u32).map(|i| (i % 251) as u8).collect();
    FileManager::write(&mut m.t, &mut m.s, idx, &data).unwrap();
    let mut inode = InodeManager::read_inode(&mut m.s, 0, n).unwrap();
    let (mut a, mut ac, mut f, mut fc) = ([0u32; 10], 0, [0u32; 10], 0);
    InodeManager::truncate(&mut m.s, 0, &mut inode, 9000, &mut a, &mut ac, &mut f, &mut fc)
        .unwrap();
    inode.recompute_checksum();
    InodeManager::write_inode(&mut m.s, 0, n, inode).unwrap();
    let again = FileManager::alloc_storage_object(&mut m.t, 0, n, 1, O_READ, 9000).unwrap();
    let mut back = vec![0u8; 20_000];
    assert_eq!(FileManager::read(&mut m.t, &mut m.s, again, &mut back), Ok(9000));
    assert_eq!(back[..9000], data[..9000]);
}

#[test]
fn names_and_numbers_have_codes() {
    assert_eq!(InodeType::Regular.code(), 1);
    assert_eq!(InodeType::Directory.code(), 2);
    assert_eq!(JournalState::Free.code(), 0);
    assert_eq!(JournalState::Intent.code(), 1);
    assert_eq!(JournalState::Committed.code(), 2);
    assert_eq!(JournalOpType::Nothing.code(), 0);
}

/// A device in memory that fails on demand.
struct Flaky {
    inner: MemDeviceWrapper,
    fail_write: Option<FsError>,
    fail_flush: Option<FsError>,
}

impl BlockDevice for Flaky {
    fn device_id(&self) -> u8 {
        self.inner.device_id()
    }

    fn block_count(&self) -> u64 {
        self.inner.block_count()
    }

    fn state(&self) -> DeviceState {
        self.inner.state()
    }

    fn read_block(&mut self, b: u64, buf: &mut [u8; BLOCK_SIZE]) -> Result<(), FsError> {
        self.inner.read_block(b, buf)
    }

    fn write_block(&mut self, b: u64, buf: &[u8; BLOCK_SIZE]) -> Result<(), FsError> {
        match self.fail_write {
            Some(e) => Err(e),
            None => self.inner.write_block(b, buf),
        }
    }

    fn flush(&mut self) -> Result<(), FsError> {
        match self.fail_flush {
            Some(e) => Err(e),
            None => self.inner.flush(),
        }
    }
}

fn with_flaky_disk() -> Storage<Flaky> {
    let mut disk = MemDeviceWrapper::new();
    disk.device_id = 1;
    let mut registry = DeviceRegistry::new();
    disk.init_storage(&mut registry);
    let mut mem = MemDeviceWrapper::new();
    mem.init_storage(&mut registry);
    Storage::new(mem, Flaky { inner: disk, fail_write: None, fail_flush: None })
}

#[test]
fn failures_of_a_device_are_told() {
    let mut s = with_flaky_disk();
    let data = [7u8; BLOCK_SIZE];
    write_block_cached(&mut s, 1, 30, &data).unwrap();
    s.ata.fail_write = Some(FsError::Busy);
    assert_eq!(sync_block(&mut s, 1, 30), Err(FsError::Busy));
    s.ata.fail_write = None;
    write_block_cached(&mut s, 1, 30, &data).unwrap();
    s.ata.fail_flush = Some(FsError::DeviceError);
    assert_eq!(sync_block(&mut s, 1, 30), Err(FsError::DeviceError));
    assert_eq!(
        Journal::write_journal_block(&mut s, 1, DiskJournalBlock::empty()),
        Err(FsError::DeviceError)
    );
    let mut t = FileManager::new_table();
    let idx = FileManager::alloc_storage_object(&mut t, 1, 2, 1, O_READ, 0).unwrap();
    write_block_cached(&mut s, 1, 31, &data).unwrap();
    assert_eq!(FileManager::sync(&t, &mut s, idx), Err(FsError::DeviceError));
    s.ata.fail_flush = None;
    assert_eq!(FileManager::sync(&t, &mut s, idx), Ok(()));
    assert_eq!(s.ata.inner.blocks[31][0], 7);
}

#[test]
fn cleared_journal_has_nothing_to_recover() {
    let mut s = with_flaky_disk();
    let mut j = DiskJournalBlock::empty();
    j.state = JournalState::Intent.code();
    Journal::write_journal_block(&mut s, 1, j).unwrap();
    assert_eq!(Journal::clear(&mut s, 1, 9), Ok(()));
    let back = Journal::read_journal_block(&mut s, 1).unwrap();
    assert_eq!(back.state, JournalState::Free.code());
    assert_eq!(back.sequence, 9);
    assert!(back.is_valid_checksum());
    assert_eq!(DiskJournalBlock::load(&s.ata.inner.blocks[2]).sequence, 9);
    s.ata.fail_write = Some(FsError::DeviceError);
    assert_eq!(Journal::recover(&mut s, 1), Ok(()));
}

#[test]
fn unaligned_write_of_many_blocks() {
    let mut m = formatted();
    let (_, idx) = new_file(&mut m);
    assert_eq!(FileManager::write(&mut m.t, &mut m.s, idx, &[0u8; 1]), Ok(1));
    assert_eq!(FileManager::write(&mut m.t, &mut m.s, idx, &[0x5Au8; 32768]), Ok(32768));
    assert_eq!(m.t.slots[idx].cursor_offset, 32769);
    assert_eq!(m.t.slots[idx].cached_size, 32769);
    m.t.slots[idx].cursor_offset = 0;
    let mut back = vec![1u8; 32769];
    assert_eq!(FileManager::read(&mut m.t, &mut m.s, idx, &mut back), Ok(32769));
    assert_eq!(back[0], 0);
    assert!(back[1..].iter().all(|b| *b == 0x5A));
}

#[test]
fn rewriting_part_of_an_indirect_block_keeps_the_rest() {
    let mut m = formatted();
    let (n, idx) = new_file(&mut m);
    let all: Vec<u8> = (0..20 * 4096).map(|i| (i % 251) as u8).collect();
    assert_eq!(FileManager::write(&mut m.t, &mut m.s, idx, &all), Ok(20 * 4096));
    let before = InodeManager::read_inode(&mut m.s, 0, n).unwrap();
    m.t.slots[idx].cursor_offset = 19 * 4096 + 100;
    assert_eq!(FileManager::write(&mut m.t, &mut m.s, idx, &[0xEE; 10]), Ok(10));
    let after = InodeManager::read_inode(&mut m.s, 0, n).unwrap();
    assert_eq!(after.blocks_count, before.blocks_count);
    m.t.slots[idx].cursor_offset = 0;
    let mut back = vec![0u8; 20 * 4096];
    assert_eq!(FileManager::read(&mut m.t, &mut m.s, idx, &mut back), Ok(20 * 4096));
    let mut expected = all;
    for b in expected[19 * 4096 + 100..19 * 4096 + 110].iter_mut() {
        *b = 0xEE;
    }
    assert_eq!(back, expected);
}

#[test]
fn full_volume_can_be_rewritten_in_place() {
    let mut m = formatted();
    let (_, idx) = new_file(&mut m);
    assert_eq!(FileManager::write(&mut m.t, &mut m.s, idx, &[1u8; 4096]), Ok(4096));
    write_block_cached(&mut m.s, 0, 4, &[0xFF; BLOCK_SIZE]).unwrap();
    assert_eq!(
        FileManager::write(&mut m.t, &mut m.s, idx, &[2u8; 1]),
        Err(FsError::NoSpace)
    );
    m.t.slots[idx].cursor_offset = 10;
    assert_eq!(FileManager::write(&mut m.t, &mut m.s, idx, &[3u8; 1]), Ok(1));
    m.t.slots[idx].cursor_offset = 9;
    let mut back = [0u8; 3];
    assert_eq!(FileManager::read(&mut m.t, &mut m.s, idx, &mut back), Ok(3));
    assert_eq!(back, [1, 3, 1]);
}

#[test]
fn write_past_a_small_device_fails() {
    let mut m = formatted();
    let (_, idx) = new_file(&mut m);
    let mut bm = [0xFFu8; BLOCK_SIZE];
    bm[32] = 0xFE;
    write_block_cached(&mut m.s, 0, 4, &bm).unwrap();
    assert_eq!(
        FileManager::write(&mut m.t, &mut m.s, idx, &[2u8; 1]),
        Err(FsError::InvalidArgument)
    );
    assert_eq!(m.t.slots[idx].cursor_offset, 0);
}

#[test]
fn last_close_keeps_what_is_not_marked_or_still_has_a_name() {
    for (links, flags) in [(0, 0), (1, INODE_FLAG_PENDING_DELETE)] {
        let mut m = formatted();
        let (n, idx) = new_file(&mut m);
        FileManager::write(&mut m.t, &mut m.s, idx, &[1; BLOCK_SIZE]).unwrap();
        let mut inode = InodeManager::read_inode(&mut m.s, 0, n).unwrap();
        inode.links_count = links;
        inode.flags |= flags;
        InodeManager::write_inode(&mut m.s, 0, n, inode).unwrap();
        FileManager::free_storage_object(&mut m.t, &mut m.s, idx).unwrap();
        let after = InodeManager::read_inode(&mut m.s, 0, n).unwrap();
        assert_eq!(after.file_type, InodeType::Regular.code());
        assert_eq!(after.size_bytes, 4096);
        assert_eq!(InodeManager::alloc_block(&mut m.s, 0), Ok(23));
    }
}

#[test]
fn directory_without_a_block_takes_no_entry() {
    let mut m = formatted();
    let d = InodeManager::alloc_inode(&mut m.s, 0, InodeType::Directory, 1).unwrap();
    let mut before = [0u8; BLOCK_SIZE];
    read_block_cached(&mut m.s, 0, 0, &mut before).unwrap();
    let r = DirectoryManager::insert(&mut m.s, 0, d, b"lost", 7, InodeType::Regular);
    assert_eq!(r.err(), Some(FsError::NotFound));
    let mut after = [0u8; BLOCK_SIZE];
    read_block_cached(&mut m.s, 0, 0, &mut after).unwrap();
    assert_eq!(before, after);
    let b = InodeManager::alloc_block(&mut m.s, 0).unwrap();
    let mut inode = InodeManager::read_inode(&mut m.s, 0, d).unwrap();
    inode.direct_blocks[0] = b;
    InodeManager::write_inode(&mut m.s, 0, d, inode).unwrap();
    let r = DirectoryManager::insert(&mut m.s, 0, d, b"found", 7, InodeType::Regular);
    assert_eq!(r.map(|x| x.0).ok(), Some(0));
    assert_eq!(DirectoryManager::lookup(&mut m.s, 0, d, b"found").map(|x| x.0).ok(), Some(7));
}
