//! Devices, their resources, interrupts and memory.
use crate::dev::dma::DmaTables;
use crate::dev::interrupt::InterruptTable;
use crate::dev::registry::DeviceRegistry;
use vstd::prelude::*;

pub mod dma;
pub mod interrupt;
pub mod laws;
pub mod mmio;
pub mod registry;
pub mod types;

verus! {

/// Forgets all devices, listeners and buffers.
pub fn init(r: &mut DeviceRegistry, i: &mut InterruptTable, d: &mut DmaTables)
    ensures
        final(r).is_empty(),
        final(i).is_empty(),
        final(i).wf(),
        final(d).is_empty(),
        final(d).wf(),
        final(d).next_buffer_id == old(d).next_buffer_id,
{
    registry::init(r);
    interrupt::init(i);
    dma::init(d);
}

} // verus!
