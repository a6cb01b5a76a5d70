//! The part of the address space through which drivers reach the registers of devices.
use crate::dev::types::DeviceError;
use crate::mm::{device_flags, MapOutcome, PageFlags, PAGE_SIZE};
use vstd::prelude::*;

verus! {

pub const USER_DEV_MMIO_BASE: u64 = 0x0000_6000_0000_0000;

pub const USER_DEV_MMIO_END: u64 = 0x0000_7000_0000_0000;

/// The largest range that is mapped at once.
pub const MAX_MMIO_MAP_SIZE: u64 = 16_777_216;

/// Which part of the address space was given out.
#[derive(Debug, Clone, Copy, PartialEq, Eq, Structural)]
pub struct MmioAperture {
    pub next: u64,
}

/// A range of pages for the registers of devices.
pub open spec fn is_mmio_range(vaddr: int, size: int) -> bool {
    &&& size > 0
    &&& size % 4096 == 0
    &&& vaddr % 4096 == 0
    &&& USER_DEV_MMIO_BASE <= vaddr
    &&& vaddr + size <= USER_DEV_MMIO_END
}

/// A size that can be mapped at once.
pub open spec fn is_mmio_size(size: u64) -> bool {
    0 < size <= MAX_MMIO_MAP_SIZE && size % 4096 == 0
}

/// Whether a range lies in the part of the address space for the registers of devices.
pub fn validate_mmio_isolation(vaddr: u64, size: u64) -> (r: Result<(), DeviceError>)
    ensures
        r == (if is_mmio_range(vaddr as int, size as int) {
            Ok::<(), DeviceError>(())
        } else {
            Err::<(), DeviceError>(DeviceError::InvalidParameter)
        }),
{
    if size == 0 || size % PAGE_SIZE != 0 || vaddr % PAGE_SIZE != 0 {
        return Err(DeviceError::InvalidParameter);
    }
    match vaddr.checked_add(size) {
        None => Err(DeviceError::InvalidParameter),
        Some(end) => {
            if vaddr < USER_DEV_MMIO_BASE || end > USER_DEV_MMIO_END {
                Err(DeviceError::InvalidParameter)
            } else {
                Ok(())
            }
        },
    }
}

/// What giving out a window answers.
pub open spec fn window(next: u64, size: u64) -> Result<u64, DeviceError> {
    if !is_mmio_size(size) {
        Err(DeviceError::InvalidParameter)
    } else if next + size > USER_DEV_MMIO_END {
        Err(DeviceError::CapacityExceeded)
    } else {
        Ok(next)
    }
}

/// Where the next window begins.
pub open spec fn next_window(next: u64, size: u64) -> u64 {
    if !is_mmio_size(size) {
        next
    } else if next + size > u64::MAX {
        (next + size - 0x1_0000_0000_0000_0000) as u64
    } else {
        (next + size) as u64
    }
}

impl MmioAperture {
    /// Nothing was given out yet.
    pub fn new() -> (r: Self)
        ensures
            r.next == USER_DEV_MMIO_BASE,
    {
        MmioAperture { next: USER_DEV_MMIO_BASE }
    }
}

/// Gives out a window of addresses. One that does not fit any more uses its addresses up all the
/// same.
pub fn allocate_mmio_virtual_window(a: &mut MmioAperture, size: u64) -> (r: Result<
    u64,
    DeviceError,
>)
    ensures
        r == window(old(a).next, size),
        final(a).next == next_window(old(a).next, size),
{
    if size == 0 || size % PAGE_SIZE != 0 || size > MAX_MMIO_MAP_SIZE {
        return Err(DeviceError::InvalidParameter);
    }
    let vaddr: u64 = a.next;
    a.next = vaddr.wrapping_add(size);
    if vaddr.saturating_add(size) > USER_DEV_MMIO_END {
        return Err(DeviceError::CapacityExceeded);
    }
    Ok(vaddr)
}

/// The pages to map for a range of registers: page `i` of the window shows the frame at
/// `phys_base + i * 4096`.
#[derive(Debug, Clone, Copy, PartialEq, Eq, Structural)]
pub struct MmioMapPlan {
    pub vaddr: u64,
    pub phys_base: u64,
    pub page_count: u64,
    pub flags: PageFlags,
}

/// The outcome of planning the mapping of a range of registers.
pub open spec fn planning_mmio(
    before: MmioAperture,
    after: MmioAperture,
    phys_base: u64,
    size: u64,
    writable: bool,
    r: Result<MmioMapPlan, DeviceError>,
) -> bool {
    if phys_base % 4096 != 0 || !is_mmio_size(size) {
        &&& r == Err::<MmioMapPlan, DeviceError>(DeviceError::InvalidParameter)
        &&& after == before
    } else {
        &&& after.next == next_window(before.next, size)
        &&& r == (match window(before.next, size) {
            Err(e) => Err::<MmioMapPlan, DeviceError>(e),
            Ok(vaddr) => Ok::<MmioMapPlan, DeviceError>(
                MmioMapPlan {
                    vaddr,
                    phys_base,
                    page_count: (size / 4096) as u64,
                    flags: device_flags(writable),
                },
            ),
        })
    }
}

/// Plans the mapping of a range of registers.
pub fn map_device_mmio(a: &mut MmioAperture, phys_base: u64, size: u64, writable: bool) -> (r: Result<
    MmioMapPlan,
    DeviceError,
>)
    requires
        phys_base % 4096 == 0 && is_mmio_size(size) ==> phys_base + size
            <= 0x1_0000_0000_0000_0000,
    ensures
        planning_mmio(*old(a), *final(a), phys_base, size, writable, r),
{
    if phys_base % PAGE_SIZE != 0 || size % PAGE_SIZE != 0 || size == 0 || size
        > MAX_MMIO_MAP_SIZE {
        return Err(DeviceError::InvalidParameter);
    }
    match allocate_mmio_virtual_window(a, size) {
        Err(e) => Err(e),
        Ok(vaddr) => Ok(
            MmioMapPlan {
                vaddr,
                phys_base,
                page_count: size / PAGE_SIZE,
                flags: PageFlags {
                    present: true,
                    user: true,
                    writable,
                    no_execute: true,
                    cache_disable: true,
                    write_through: true,
                },
            },
        ),
    }
}

/// The addresses of the first `n` pages of a range.
pub open spec fn page_addresses(vaddr: int, n: int) -> Seq<u64> {
    Seq::new(n as nat, |i: int| (vaddr + i * 4096) as u64)
}

/// Lists the addresses of the first `n` pages of a range.
fn list_pages(vaddr: u64, n: u64) -> (r: Vec<u64>)
    requires
        vaddr + n * 4096 <= u64::MAX,
    ensures
        r@ == page_addresses(vaddr as int, n as int),
{
    let mut out: Vec<u64> = Vec::new();
    let mut i: u64 = 0;
    while i < n
        invariant
            i <= n,
            vaddr + n * 4096 <= u64::MAX,
            out@ == page_addresses(vaddr as int, i as int),
        decreases n - i,
    {
        out.push(vaddr + i * 4096);
        assert(out@ =~= page_addresses(vaddr as int, i + 1));
        i = i + 1;
    }
    out
}

/// Says how the mapping of a plan ended: with the address of the window, or with an error and the
/// pages to unmap again. Pages before one with a bad address stay mapped.
pub fn finish_device_mmio(plan: &MmioMapPlan, outcome: MapOutcome) -> (r: (
    Result<u64, DeviceError>,
    Vec<u64>,
))
    requires
        plan.vaddr + plan.page_count * 4096 <= u64::MAX,
        match outcome {
            MapOutcome::Mapped => true,
            MapOutcome::BadPage(i) | MapOutcome::Failed(i) => i < plan.page_count,
        },
    ensures
        match outcome {
            MapOutcome::Mapped => r.0 == Ok::<u64, DeviceError>(plan.vaddr) && r.1@.len() == 0,
            MapOutcome::BadPage(_) => r.0 == Err::<u64, DeviceError>(DeviceError::InvalidParameter)
                && r.1@.len() == 0,
            MapOutcome::Failed(i) => r.0 == Err::<u64, DeviceError>(DeviceError::OutOfMemory)
                && r.1@ == page_addresses(plan.vaddr as int, i as int),
        },
{
    match outcome {
        MapOutcome::Mapped => (Ok(plan.vaddr), Vec::new()),
        MapOutcome::BadPage(_) => (Err(DeviceError::InvalidParameter), Vec::new()),
        MapOutcome::Failed(i) => {
            let pages: Vec<u64> = list_pages(plan.vaddr, i as u64);
            (Err(DeviceError::OutOfMemory), pages)
        },
    }
}

/// Lists the pages of a window that are to be unmapped.
pub fn unmap_device_mmio(vaddr: u64, size: u64) -> (r: Result<Vec<u64>, DeviceError>)
    ensures
        if is_mmio_range(vaddr as int, size as int) {
            r is Ok && r->Ok_0@ == page_addresses(vaddr as int, size as int / 4096)
        } else {
            r == Err::<Vec<u64>, DeviceError>(DeviceError::InvalidParameter)
        },
{
    match validate_mmio_isolation(vaddr, size) {
        Err(e) => Err(e),
        Ok(_) => {
            let n: u64 = size / PAGE_SIZE;
            Ok(list_pages(vaddr, n))
        },
    }
}

/// A window that was given out lies in the aperture, is aligned, and no window that is given out
/// later overlaps it.
pub proof fn law_windows_are_disjoint(next: u64, size: u64, later_next: u64, later_size: u64)
    requires
        USER_DEV_MMIO_BASE <= next,
        next % 4096 == 0,
        window(next, size) is Ok,
        next_window(next, size) <= later_next,
        later_next % 4096 == 0,
        window(later_next, later_size) is Ok,
    ensures
        is_mmio_range(window(next, size)->Ok_0 as int, size as int),
        window(next, size)->Ok_0 + size <= window(later_next, later_size)->Ok_0,
        next_window(next, size) % 4096 == 0,
        next_window(next, size) >= USER_DEV_MMIO_BASE,
{
}

/// What lies outside of the aperture is never taken for a window: code and stacks of a process are
/// safe from it.
pub proof fn law_nothing_else_is_a_window(vaddr: int, size: int, a: int, n: int)
    requires
        is_mmio_range(vaddr, size),
        n > 0,
        a + n <= USER_DEV_MMIO_BASE || a >= USER_DEV_MMIO_END,
    ensures
        a + n <= vaddr || vaddr + size <= a,
{
}

} // verus!
