use zero_kernel::dev::registry::DeviceRegistry;
use zero_kernel::fs::buf::{
    read_block_cached, sync_all_buffers, sync_block, write_block_cached, Storage,
};
use zero_kernel::fs::dev::{BlockDevice, DeviceState, MemDeviceWrapper};
use zero_kernel::fs::file::{FileManager, StorageObjectTable};
use zero_kernel::fs::inode::InodeManager;
use zero_kernel::fs::journal::Journal;
use zero_kernel::fs::mount::{format_volume, mount_volume};
use zero_kernel::fs::types::{
    DiskJournalBlock, FsError, InodeType, JournalState, BLOCK_SIZE, O_READ, O_WRITE,
};

/// A disk with a cache of its own: what was written survives once it was flushed. It goes out of
/// use after a number of writes and flushes.
struct Volatile {
    stored: Vec<[u8; BLOCK_SIZE]>,
    kept: Vec<[u8; BLOCK_SIZE]>,
    left: usize,
    state: DeviceState,
    log: Vec<Option<u64>>,
}

impl Volatile {
    fn new(blocks: Vec<[u8; BLOCK_SIZE]>) -> Self {
        Volatile {
            kept: blocks.clone(),
            stored: blocks,
            left: usize::MAX,
            state: DeviceState::Ready,
            log: Vec::new(),
        }
    }

    fn step(&mut self) -> Result<(), FsError> {
        if self.left == 0 {
            self.state = DeviceState::Faulted;
        }
        if self.state != DeviceState::Ready {
            return Err(FsError::DeviceError);
        }
        self.left -= 1;
        Ok(())
    }
}

impl BlockDevice for Volatile {
    fn device_id(&self) -> u8 {
        1
    }

    fn block_count(&self) -> u64 {
        self.stored.len() as u64
    }

    fn state(&self) -> DeviceState {
        self.state
    }

    fn read_block(&mut self, b: u64, buf: &mut [u8; BLOCK_SIZE]) -> Result<(), FsError> {
        if self.state != DeviceState::Ready {
            return Err(FsError::DeviceError);
        }
        *buf = *self.stored.get(b as usize).ok_or(FsError::InvalidArgument)?;
        Ok(())
    }

    fn write_block(&mut self, b: u64, buf: &[u8; BLOCK_SIZE]) -> Result<(), FsError> {
        self.step()?;
        *self.stored.get_mut(b as usize).ok_or(FsError::InvalidArgument)? = *buf;
        self.log.push(Some(b));
        Ok(())
    }

    fn flush(&mut self) -> Result<(), FsError> {
        self.step()?;
        self.kept = self.stored.clone();
        self.log.push(None);
        Ok(())
    }
}

fn storage(blocks: Vec<[u8; BLOCK_SIZE]>) -> Storage<Volatile> {
    let mut mem = MemDeviceWrapper::new();
    mem.init_storage(&mut DeviceRegistry::new());
    Storage::new(mem, Volatile::new(blocks))
}

fn pattern(n: usize, seed: usize) -> Vec<u8> {
    (0..n).map(|i| ((i * 7 + seed) % 251) as u8).collect()
}

/// A volume with a file of some bytes that is open for reading and writing.
fn prepared(old: &[u8]) -> (Storage<Volatile>, StorageObjectTable, u32, usize) {
    let mut s = storage(vec![[0u8; BLOCK_SIZE]; 256]);
    format_volume(&mut s, 1, 256, b"CRASH").unwrap();
    let mut t = FileManager::new_table();
    let n = InodeManager::alloc_inode(&mut s, 1, InodeType::Regular, 1).unwrap();
    let idx = FileManager::alloc_storage_object(&mut t, 1, n, 1, O_READ | O_WRITE, 0).unwrap();
    assert_eq!(FileManager::write(&mut t, &mut s, idx, old), Ok(old.len()));
    FileManager::sync(&t, &mut s, idx).unwrap();
    assert!(s.ata.kept == s.ata.stored);
    (s, t, n, idx)
}

/// What is read of a file after a restart from what a disk kept.
fn after_restart(kept: Vec<[u8; BLOCK_SIZE]>, n: u32) -> Vec<u8> {
    let mut s = storage(kept);
    mount_volume(&mut s, 1).unwrap();
    let size = InodeManager::read_inode(&mut s, 1, n).unwrap().size_bytes;
    let mut t = FileManager::new_table();
    let idx = FileManager::alloc_storage_object(&mut t, 1, n, 1, O_READ, size).unwrap();
    let mut back = vec![0u8; size as usize];
    assert_eq!(FileManager::read(&mut t, &mut s, idx, &mut back), Ok(size as usize));
    back
}

/// Appends to a file while the disk goes out of use after `left` steps, and hands out what the disk
/// kept. Of what was not flushed, blocks for which `lucky` holds survive.
fn interrupted(
    old: &[u8],
    new: &[u8],
    left: usize,
    lucky: fn(usize) -> bool,
) -> (Vec<[u8; BLOCK_SIZE]>, u32, bool) {
    let (mut s, mut t, n, idx) = prepared(old);
    s.ata.left = left;
    let done = FileManager::write(&mut t, &mut s, idx, new).is_ok();
    for b in 0..s.ata.kept.len() {
        if lucky(b) {
            s.ata.kept[b] = s.ata.stored[b];
        }
    }
    (s.ata.kept, n, done)
}

fn check_all_points(old: &[u8], new: &[u8], lucky: fn(usize) -> bool) {
    let whole: Vec<u8> = old.iter().chain(new.iter()).copied().collect();
    let mut left = 0;
    loop {
        let (kept, n, done) = interrupted(old, new, left, lucky);
        let back = after_restart(kept, n);
        if done {
            assert_eq!(back, whole);
            break;
        }
        assert!(back == old || back == whole, "after {} steps", left);
        left += 1;
    }
    assert!(left > 6);
}

#[test]
fn interrupted_write_is_all_or_nothing() {
    check_all_points(&pattern(5000, 1), &pattern(12000, 2), |_| false);
    check_all_points(&pattern(5000, 3), &pattern(12000, 4), |_| true);
    check_all_points(&pattern(5000, 5), &pattern(12000, 6), |b| b % 2 == 0);
    check_all_points(&pattern(5000, 7), &pattern(12000, 8), |b| b % 2 == 1);
}

#[test]
fn interrupted_write_of_indirect_blocks_is_all_or_nothing() {
    check_all_points(&pattern(18 * 4096, 1), &pattern(5 * 4096, 2), |_| false);
    check_all_points(&pattern(19 * 4096, 3), &pattern(5 * 4096, 4), |b| b % 3 == 0);
}

#[test]
fn interrupted_write_leaves_whole_pieces() {
    let old = pattern(100, 1);
    let new = pattern(80_000, 2);
    let whole: Vec<u8> = old.iter().chain(new.iter()).copied().collect();
    for left in (0..70).step_by(3) {
        let (kept, n, done) = interrupted(&old, &new, left, |_| false);
        let back = after_restart(kept, n);
        assert!([100, 32768, 65536, 80_100].contains(&back.len()));
        assert!(!done || back.len() >= 32768);
        assert_eq!(back[..], whole[..back.len()]);
    }
}

#[test]
fn data_comes_before_the_commitment_and_that_before_the_inode() {
    let (mut s, mut t, _, idx) = prepared(&pattern(10, 1));
    s.ata.log.clear();
    FileManager::write(&mut t, &mut s, idx, &pattern(9000, 2)).unwrap();
    let log = s.ata.log.clone();
    let records: Vec<usize> = (0..log.len()).filter(|i| log[*i] == Some(2)).collect();
    let flushes: Vec<usize> = (0..log.len()).filter(|i| log[*i] == None).collect();
    assert_eq!(records.len(), 3);
    for (i, b) in log.iter().enumerate() {
        match b {
            Some(b) if *b >= 22 => assert!(flushes.iter().any(|f| i < *f && *f < records[1])),
            Some(5) => assert!(flushes.iter().any(|f| records[1] < *f && *f < i)),
            _ => {}
        }
    }
    assert_eq!(log.last(), Some(&None));
    assert!(s.ata.kept == s.ata.stored);
}

#[test]
fn what_is_synced_survives() {
    let mut s = storage(vec![[0u8; BLOCK_SIZE]; 64]);
    write_block_cached(&mut s, 1, 30, &[3; BLOCK_SIZE]).unwrap();
    assert_eq!(s.ata.kept[30][0], 0);
    sync_block(&mut s, 1, 30).unwrap();
    assert_eq!(s.ata.kept[30], [3; BLOCK_SIZE]);
    for b in 40..46u64 {
        write_block_cached(&mut s, 1, b, &[b as u8; BLOCK_SIZE]).unwrap();
    }
    assert_eq!(s.ata.stored[40][0], 40);
    assert_eq!(s.ata.kept[40][0], 0);
    sync_all_buffers(&mut s, 1).unwrap();
    assert!((40..46).all(|b| s.ata.kept[b][0] == b as u8));
    Journal::clear(&mut s, 1, 5).unwrap();
    assert_eq!(DiskJournalBlock::load(&s.ata.kept[2]).sequence, 5);
}

#[test]
fn recovery_keeps_the_record_until_all_is_there() {
    let old = pattern(5000, 1);
    let new = pattern(12000, 2);
    let whole: Vec<u8> = old.iter().chain(new.iter()).copied().collect();
    let mut committed = None;
    for left in 0..100 {
        let (kept, n, done) = interrupted(&old, &new, left, |_| false);
        if DiskJournalBlock::load(&kept[2]).state == JournalState::Committed.code() {
            committed = Some((kept, n));
            break;
        }
        assert!(!done);
    }
    let (kept, n) = committed.unwrap();
    for left in 0..12 {
        let mut s = storage(kept.clone());
        s.ata.left = left;
        let r = Journal::recover(&mut s, 1);
        let j = DiskJournalBlock::load(&s.ata.kept[2]);
        if r.is_err() {
            assert_eq!(j.state, JournalState::Committed.code());
        } else {
            assert_eq!(j.state, JournalState::Free.code());
        }
        assert_eq!(after_restart(s.ata.kept, n), whole);
    }
}

#[test]
fn cached_block_is_read_though_its_device_is_out_of_use() {
    let mut s = storage(vec![[0u8; BLOCK_SIZE]; 64]);
    let mut buf = [0u8; BLOCK_SIZE];
    write_block_cached(&mut s, 1, 30, &[3; BLOCK_SIZE]).unwrap();
    sync_block(&mut s, 1, 30).unwrap();
    s.ata.state = DeviceState::Offline;
    assert_eq!(read_block_cached(&mut s, 1, 30, &mut buf), Ok(()));
    assert_eq!(buf[0], 3);
    assert_eq!(read_block_cached(&mut s, 1, 31, &mut buf), Err(FsError::DeviceError));
    for b in 30..40u64 {
        write_block_cached(&mut s, 0, b, &[b as u8; BLOCK_SIZE]).unwrap();
    }
    assert_eq!(sync_all_buffers(&mut s, 0), Ok(()));
    assert_eq!(s.mem.blocks[39][0], 39);
}

#[test]
fn failed_read_is_not_in_progress_any_more() {
    let (mut s, mut t, _, idx) = prepared(&pattern(9000, 1));
    t.slots[idx].cursor_offset = 0;
    for b in 200..204u64 {
        write_block_cached(&mut s, 0, b, &[0; BLOCK_SIZE]).unwrap();
    }
    s.ata.state = DeviceState::Offline;
    let mut back = [0u8; 10];
    assert_eq!(
        FileManager::read(&mut t, &mut s, idx, &mut back),
        Err(FsError::DeviceError)
    );
    assert_eq!(t.slots[idx].in_flight_ops, 0);
    assert_eq!(t.slots[idx].cursor_offset, 0);
    s.ata.state = DeviceState::Ready;
    assert_eq!(FileManager::read(&mut t, &mut s, idx, &mut back), Ok(10));
    assert_eq!(back[..], pattern(10, 1)[..]);
}

fn blocks_in_use(s: &mut Storage<Volatile>) -> u32 {
    let mut bm = [0u8; BLOCK_SIZE];
    read_block_cached(s, 1, 4, &mut bm).unwrap();
    bm[..32].iter().map(|b| b.count_ones()).sum()
}

#[test]
fn pointers_are_copied_once_for_a_piece_and_the_old_ones_go() {
    let (mut s, mut t, n, idx) = prepared(&pattern(19 * 4096, 1));
    let before = blocks_in_use(&mut s);
    let first = InodeManager::read_inode(&mut s, 1, n).unwrap();
    let new = pattern(8 * 4096, 2);
    assert_eq!(FileManager::write(&mut t, &mut s, idx, &new), Ok(8 * 4096));
    let after = InodeManager::read_inode(&mut s, 1, n).unwrap();
    assert_ne!(after.indirect_block, first.indirect_block);
    assert_eq!(after.blocks_count, first.blocks_count + 8);
    assert_eq!(blocks_in_use(&mut s), before + 8);
    assert_eq!(InodeManager::alloc_block(&mut s, 1), Ok(first.indirect_block));
    t.slots[idx].cursor_offset = 19 * 4096;
    let mut back = vec![0u8; 8 * 4096];
    assert_eq!(FileManager::read(&mut t, &mut s, idx, &mut back), Ok(8 * 4096));
    assert_eq!(back, new);
}
