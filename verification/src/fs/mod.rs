//! The file system: volumes on block devices, with a journal, inodes, one directory and open files.
pub mod ata;
pub mod ata_laws;
pub mod buf;
pub mod count_laws;
pub mod crc_laws;
pub mod dev;
pub mod dir;
pub mod file;
pub mod file_laws;
pub mod inode;
pub mod journal;
pub mod laws;
pub mod layout_laws;
pub mod leak_laws;
pub mod mount;
pub mod recovery_laws;
pub mod transaction;
pub mod truncate_laws;
pub mod types;
pub mod volume;
pub mod write_laws;

pub use self::ata::AtaPioBlockDevice;
pub use self::buf::{
    get_device, init_cache, read_block_cached, sync_all_buffers, write_block_cached,
};
pub use self::dev::{BlockDevice, DeviceState, MemBlockDevice};
pub use self::dir::DirectoryManager;
pub use self::file::{FileManager, StorageObject, MAX_OPEN_STORAGE_OBJECTS};
pub use self::inode::InodeManager;
pub use self::journal::Journal;
pub use self::mount::{format_volume, init, mount_volume, FilesystemLock};
pub use self::types::{
    DiskDirEntry, DiskInode, DiskJournalBlock, DiskSuperblock, FsError, InodeType, JournalOpType,
    JournalState, UserFileStat,
};
