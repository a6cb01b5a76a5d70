//! The process slots that the other tables are indexed by.
use vstd::prelude::*;

verus! {

pub const MAX_PROCESSES: usize = 16;

/// Who owns a process slot.
#[derive(Debug, Clone, Copy, PartialEq, Eq, Structural)]
pub struct ProcessRecord {
    pub occupied: bool,
    pub id: u64,
}

} // verus!
