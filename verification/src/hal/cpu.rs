//! Control registers and port accesses.
use vstd::prelude::*;

verus! {

/// The register that enables the long mode and the no-execute bit.
pub const IA32_EFER: u32 = 0xC000_0080;

/// A byte for a port.
#[derive(Debug, Clone, Copy, PartialEq, Eq, Structural)]
pub struct PortWrite {
    pub port: u16,
    pub value: u8,
    /// The bus gets time to settle afterwards.
    pub pause: bool,
}

/// A bit of a register.
pub open spec fn register_bit(v: u64, n: u64) -> bool {
    v & (1u64 << n) != 0
}

/// The register with the write protection of the supervisor on.
pub fn enable_write_protect(cr0: u64) -> (r: u64)
    ensures
        r == cr0 | (1u64 << 16),
{
    cr0 | (1u64 << 16)
}

/// The register with the no-execute bit of pages on.
pub fn enable_nxe(efer: u64) -> (r: u64)
    ensures
        r == efer | (1u64 << 11),
{
    efer | (1u64 << 11)
}

/// Turning a bit on turns it on and leaves the others alone.
pub proof fn law_bit_is_turned_on(v: u64, n: u64, m: u64)
    requires
        n < 64,
        m < 64,
    ensures
        register_bit(v | (1u64 << n), n),
        m != n ==> register_bit(v | (1u64 << n), m) == register_bit(v, m),
{
    assert((v | (1u64 << n)) & (1u64 << n) != 0) by (bit_vector)
        requires
            n < 64,
    ;
    if m != n {
        assert(((v | (1u64 << n)) & (1u64 << m) != 0) == (v & (1u64 << m) != 0)) by (bit_vector)
            requires
                n < 64,
                m < 64,
                m != n,
        ;
    }
}

/// The value of a register from its halves.
pub fn join_halves(low: u32, high: u32) -> (r: u64)
    ensures
        r == low + 0x1_0000_0000 * high,
{
    low as u64 + 0x1_0000_0000 * high as u64
}

/// The halves of a value for a register, the low one first.
pub fn split_halves(v: u64) -> (r: (u32, u32))
    ensures
        r.0 + 0x1_0000_0000 * r.1 == v,
{
    ((v % 0x1_0000_0000) as u32, (v / 0x1_0000_0000) as u32)
}

/// The state of the processor.
#[derive(Debug, Clone, Copy, PartialEq, Eq, Structural)]
pub struct CpuDiagnostics {
    pub ring: u8,
    pub cs: u16,
    pub cr0: u64,
    pub cr3: u64,
    pub cr4: u64,
    pub efer: u64,
    pub rflags: u64,
    pub paging_enabled: bool,
    pub pae_enabled: bool,
    pub cr0_wp_enabled: bool,
    pub lme_enabled: bool,
    pub lma_active: bool,
    pub interrupts_enabled: bool,
}

impl CpuDiagnostics {
    /// Reads the state of the processor out of its registers.
    pub fn capture(cs: u16, cr0: u64, cr3: u64, cr4: u64, efer: u64, rflags: u64) -> (r: Self)
        ensures
            r == (CpuDiagnostics {
                ring: (cs % 4) as u8,
                cs,
                cr0,
                cr3,
                cr4,
                efer,
                rflags,
                paging_enabled: register_bit(cr0, 31),
                pae_enabled: register_bit(cr4, 5),
                cr0_wp_enabled: register_bit(cr0, 16),
                lme_enabled: register_bit(efer, 8),
                lma_active: register_bit(efer, 10),
                interrupts_enabled: register_bit(rflags, 9),
            }),
    {
        CpuDiagnostics {
            ring: (cs % 4) as u8,
            cs,
            cr0,
            cr3,
            cr4,
            efer,
            rflags,
            paging_enabled: (cr0 & (1u64 << 31)) != 0,
            pae_enabled: (cr4 & (1u64 << 5)) != 0,
            cr0_wp_enabled: (cr0 & (1u64 << 16)) != 0,
            lme_enabled: (efer & (1u64 << 8)) != 0,
            lma_active: (efer & (1u64 << 10)) != 0,
            interrupts_enabled: (rflags & (1u64 << 9)) != 0,
        }
    }
}

} // verus!
