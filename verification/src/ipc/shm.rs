//! Shared memory: frames that several processes may map.
use vstd::prelude::*;

pub mod ops;

pub use self::ops::{finish_shm_map, shm_close, shm_create, shm_frames_needed, shm_map, shm_unmap};
pub use crate::cap::exit::process_exit_capability_cleanup_locked as cleanup_process_shm_and_handles_locked;
pub use crate::ipc::space::check_and_reclaim_shm_locked;

verus! {

pub const MAX_SHM_OBJECTS: usize = 64;

pub const MAX_SHM_PAGES: usize = 16;

pub const MAX_SHM_MAPPINGS: usize = 64;

/// The frames behind one shared memory object.
#[derive(Debug, Clone, Copy)]
pub struct ShmObject {
    /// Number of frames in use; zero means that the object is free.
    pub page_count: usize,
    /// Addresses of the frames.
    pub frames: [u64; MAX_SHM_PAGES],
    pub creator_pid: u64,
}

/// What a shared memory object holds.
#[verifier::ext_equal]
pub struct ShmView {
    pub page_count: int,
    pub frames: Seq<u64>,
    pub creator_pid: u64,
}

/// An object that is not in use.
pub open spec fn blank_shm() -> ShmView {
    ShmView { page_count: 0, frames: Seq::new(16, |i: int| 0u64), creator_pid: 0 }
}

impl ShmObject {
    pub open spec fn view(&self) -> ShmView {
        ShmView {
            page_count: self.page_count as int,
            frames: self.frames@,
            creator_pid: self.creator_pid,
        }
    }

    pub fn empty() -> (r: Self)
        ensures
            r@ == blank_shm(),
    {
        let r = ShmObject { page_count: 0, frames: [0u64; MAX_SHM_PAGES], creator_pid: 0 };
        assert(r@ =~= blank_shm());
        r
    }
}

/// One mapping of a shared memory object into an address space.
#[derive(Debug, Clone, Copy, PartialEq, Eq, Structural)]
pub struct ShmMapping {
    pub occupied: bool,
    pub _pad1: u8,
    pub object_index: u16,
    pub object_generation: u16,
    pub rights: u16,
    pub process_id: u64,
    pub virtual_base: u64,
    pub page_count: usize,
}

impl ShmMapping {
    pub fn empty() -> (r: Self)
        ensures
            r == (ShmMapping {
                occupied: false,
                _pad1: 0,
                object_index: 0,
                object_generation: 0,
                rights: 0,
                process_id: 0,
                virtual_base: 0,
                page_count: 0,
            }),
    {
        ShmMapping {
            occupied: false,
            _pad1: 0,
            object_index: 0,
            object_generation: 0,
            rights: 0,
            process_id: 0,
            virtual_base: 0,
            page_count: 0,
        }
    }
}

} // verus!
