//! What the kernel asks of the page tables.
use vstd::prelude::*;

verus! {

pub const PAGE_SIZE: u64 = 4096;

/// How a page is to be mapped.
#[derive(Debug, Clone, Copy, PartialEq, Eq, Structural)]
pub struct PageFlags {
    pub present: bool,
    pub user: bool,
    pub writable: bool,
    pub no_execute: bool,
    pub cache_disable: bool,
    pub write_through: bool,
}

/// Ordinary user memory.
pub open spec fn user_flags(writable: bool, no_execute: bool) -> PageFlags {
    PageFlags {
        present: true,
        user: true,
        writable,
        no_execute,
        cache_disable: false,
        write_through: false,
    }
}

impl PageFlags {
    /// Flags of ordinary user memory.
    pub fn user_memory(writable: bool, no_execute: bool) -> (r: Self)
        ensures
            r == user_flags(writable, no_execute),
    {
        PageFlags {
            present: true,
            user: true,
            writable,
            no_execute,
            cache_disable: false,
            write_through: false,
        }
    }
}

/// How mapping a run of pages went.
#[derive(Debug, Clone, Copy, PartialEq, Eq, Structural)]
pub enum MapOutcome {
    /// All pages are mapped.
    Mapped,
    /// The address of this page is not one that can be mapped; the pages before it are mapped.
    BadPage(usize),
    /// This page could not be mapped; the pages before it are.
    Failed(usize),
}

/// Memory of a device: never cached, never executed.
pub open spec fn device_flags(writable: bool) -> PageFlags {
    PageFlags {
        present: true,
        user: true,
        writable,
        no_execute: true,
        cache_disable: true,
        write_through: true,
    }
}

} // verus!
