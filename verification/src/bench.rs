//! How many cycles operations take.
use crate::hal::cpu::join_halves;
use vstd::prelude::*;

verus! {

/// The value of the cycle counter from its halves.
pub fn rdtsc(low: u32, high: u32) -> (r: u64)
    ensures
        r == low + 0x1_0000_0000 * high,
{
    join_halves(low, high)
}

/// Cycles of the operations that are measured.
#[derive(Debug, Clone, Copy, PartialEq, Eq, Structural)]
pub struct BenchmarkResults {
    pub pmm_alloc_cycles: u64,
    pub pmm_free_cycles: u64,
    pub vmm_map_cycles: u64,
    pub vmm_unmap_cycles: u64,
    pub heap_alloc_cycles: u64,
    pub heap_dealloc_cycles: u64,
    pub ipc_rendezvous_cycles: u64,
}

/// Works out the cycles from the counter, read before, between and after the operations: three
/// times around taking and giving back a frame, three times around mapping and unmapping a page,
/// three times around taking and giving back memory, and twice around sending and receiving.
pub fn run_benchmarks(t: &[u64; 11]) -> (r: BenchmarkResults)
    requires
        t@[0] <= t@[1] <= t@[2],
        t@[3] <= t@[4] <= t@[5],
        t@[6] <= t@[7] <= t@[8],
        t@[9] <= t@[10],
    ensures
        r == (BenchmarkResults {
            pmm_alloc_cycles: (t@[1] - t@[0]) as u64,
            pmm_free_cycles: (t@[2] - t@[1]) as u64,
            vmm_map_cycles: (t@[4] - t@[3]) as u64,
            vmm_unmap_cycles: (t@[5] - t@[4]) as u64,
            heap_alloc_cycles: (t@[7] - t@[6]) as u64,
            heap_dealloc_cycles: (t@[8] - t@[7]) as u64,
            ipc_rendezvous_cycles: (t@[10] - t@[9]) as u64,
        }),
{
    BenchmarkResults {
        pmm_alloc_cycles: t[1] - t[0],
        pmm_free_cycles: t[2] - t[1],
        vmm_map_cycles: t[4] - t[3],
        vmm_unmap_cycles: t[5] - t[4],
        heap_alloc_cycles: t[7] - t[6],
        heap_dealloc_cycles: t[8] - t[7],
        ipc_rendezvous_cycles: t[10] - t[9],
    }
}

} // verus!
