//! The interrupt controller of the processor and its timer.
use crate::mm::PageFlags;
use vstd::prelude::*;

verus! {

pub const IA32_APIC_BASE_MSR: u32 = 0x0000_001B;

pub const APIC_BASE_GLOBAL_ENABLE: u64 = 1 << 11;

pub const APIC_BASE_BSP: u64 = 1 << 8;

/// Where the registers are mapped.
pub const LAPIC_VIRT_BASE: u64 = 0xFFFF_FFFF_FEE0_0000;

pub const LAPIC_ID_REG: u32 = 0x020;

pub const LAPIC_VERSION_REG: u32 = 0x030;

pub const LAPIC_TPR_REG: u32 = 0x080;

pub const LAPIC_EOI_REG: u32 = 0x0B0;

pub const LAPIC_LDR_REG: u32 = 0x0D0;

pub const LAPIC_DFR_REG: u32 = 0x0E0;

pub const LAPIC_SVR_REG: u32 = 0x0F0;

pub const LAPIC_ESR_REG: u32 = 0x280;

pub const LAPIC_LVT_TIMER_REG: u32 = 0x320;

pub const LAPIC_TIMER_INIT_CNT_REG: u32 = 0x380;

pub const LAPIC_TIMER_CURR_CNT_REG: u32 = 0x390;

pub const LAPIC_TIMER_DCR_REG: u32 = 0x3E0;

pub const LAPIC_ICR_LOW_REG: u32 = 0x300;

pub const LAPIC_ICR_HIGH_REG: u32 = 0x310;

pub const ICR_DELIVERY_FIXED: u32 = 0b000 << 8;

pub const ICR_DELIVERY_LOWEST_PRIO: u32 = 0b001 << 8;

pub const ICR_DELIVERY_SMI: u32 = 0b010 << 8;

pub const ICR_DELIVERY_NMI: u32 = 0b100 << 8;

pub const ICR_DELIVERY_INIT: u32 = 0b101 << 8;

pub const ICR_DELIVERY_STARTUP: u32 = 0b110 << 8;

pub const ICR_DEST_PHYSICAL: u32 = 0 << 11;

pub const ICR_DEST_LOGICAL: u32 = 1 << 11;

pub const ICR_DELIVERY_STATUS_PENDING: u32 = 1 << 12;

pub const ICR_LEVEL_DEASSERT: u32 = 0 << 14;

pub const ICR_LEVEL_ASSERT: u32 = 1 << 14;

pub const ICR_TRIGGER_EDGE: u32 = 0 << 15;

pub const ICR_TRIGGER_LEVEL: u32 = 1 << 15;

pub const ICR_SHORTHAND_NONE: u32 = 0b00 << 18;

pub const ICR_SHORTHAND_SELF: u32 = 0b01 << 18;

pub const ICR_SHORTHAND_ALL_INC: u32 = 0b10 << 18;

pub const ICR_SHORTHAND_ALL_EXC: u32 = 0b11 << 18;

pub const MAX_IPI_POLL_ITERATIONS: u32 = 100_000;

/// How far the interval timer counts in ten milliseconds.
pub const PIT_10MS_TICKS: u16 = 11_932;

/// What is known of the controller.
#[derive(Debug, Clone, Copy, PartialEq, Eq, Structural)]
pub struct LapicInfo {
    pub msr_raw: u64,
    pub phys_base: u64,
    pub virt_base: u64,
    pub global_enabled: bool,
    pub is_bsp: bool,
    pub lapic_id: u32,
    pub lapic_version: u32,
    pub max_lvt_entries: u32,
}

/// A value for a register of the controller.
#[derive(Debug, Clone, Copy, PartialEq, Eq, Structural)]
pub struct LapicWrite {
    pub offset: u32,
    pub value: u32,
}

/// The address of a register.
pub fn lapic_reg_address(offset: u32) -> (r: u64)
    requires
        offset < 0x1000,
    ensures
        r == LAPIC_VIRT_BASE + offset,
{
    LAPIC_VIRT_BASE + offset as u64
}

/// The write that ends an interrupt.
pub fn lapic_eoi() -> (r: LapicWrite)
    ensures
        r == (LapicWrite { offset: LAPIC_EOI_REG, value: 0 }),
{
    LapicWrite { offset: LAPIC_EOI_REG, value: 0 }
}

/// What has to be done to reach the controller.
#[derive(Debug, Clone, Copy, PartialEq, Eq, Structural)]
pub struct LapicMapPlan {
    /// The value to write to the register that says where the controller is, where it was off.
    pub enable: Option<u64>,
    pub phys_base: u64,
    pub virt_base: u64,
    pub flags: PageFlags,
}

/// The page at which the controller lies.
pub open spec fn lapic_base(msr: u64) -> int {
    msr as int % 0x10_0000_0000_0000 - msr as int % 4096
}

/// Plans how to reach the controller: it is turned on where it is off, and its registers are mapped
/// without caching.
pub fn plan_lapic_mmio(msr: u64) -> (r: LapicMapPlan)
    ensures
        r.enable == (if msr & APIC_BASE_GLOBAL_ENABLE != 0 {
            None
        } else {
            Some(msr | APIC_BASE_GLOBAL_ENABLE)
        }),
        r.phys_base == lapic_base(msr),
        r.virt_base == LAPIC_VIRT_BASE,
        r.flags == (PageFlags {
            present: true,
            user: false,
            writable: true,
            no_execute: true,
            cache_disable: true,
            write_through: true,
        }),
{
    LapicMapPlan {
        enable: if (msr & APIC_BASE_GLOBAL_ENABLE) != 0 {
            None
        } else {
            Some(msr | APIC_BASE_GLOBAL_ENABLE)
        },
        phys_base: msr % 0x10_0000_0000_0000 - msr % 4096,
        virt_base: LAPIC_VIRT_BASE,
        flags: PageFlags {
            present: true,
            user: false,
            writable: true,
            no_execute: true,
            cache_disable: true,
            write_through: true,
        },
    }
}

/// What is known of the controller once its registers can be read.
pub fn init_lapic_mmio(msr: u64, raw_id: u32, raw_version: u32) -> (r: LapicInfo)
    ensures
        r == (LapicInfo {
            msr_raw: msr,
            phys_base: lapic_base(msr) as u64,
            virt_base: LAPIC_VIRT_BASE,
            global_enabled: true,
            is_bsp: msr & APIC_BASE_BSP != 0,
            lapic_id: (raw_id / 0x100_0000) as u32,
            lapic_version: (raw_version % 256) as u32,
            max_lvt_entries: (raw_version / 0x1_0000 % 256) as u32,
        }),
{
    LapicInfo {
        msr_raw: msr,
        phys_base: msr % 0x10_0000_0000_0000 - msr % 4096,
        virt_base: LAPIC_VIRT_BASE,
        global_enabled: true,
        is_bsp: (msr & APIC_BASE_BSP) != 0,
        lapic_id: raw_id / 0x100_0000,
        lapic_version: raw_version % 256,
        max_lvt_entries: raw_version / 0x1_0000 % 256,
    }
}

/// The registers at an interrupt.
#[derive(Debug, Clone, Copy, PartialEq, Eq, Structural)]
pub struct InterruptFrame {
    pub r15: u64,
    pub r14: u64,
    pub r13: u64,
    pub r12: u64,
    pub r11: u64,
    pub r10: u64,
    pub r9: u64,
    pub r8: u64,
    pub rdi: u64,
    pub rsi: u64,
    pub rbp: u64,
    pub rbx: u64,
    pub rdx: u64,
    pub rcx: u64,
    pub rax: u64,
    pub rip: u64,
    pub cs: u64,
    pub rflags: u64,
    pub rsp: u64,
    pub ss: u64,
}

impl InterruptFrame {
    /// Every general register holds the value that it was set to for the check.
    pub open spec fn has_sentinels(&self) -> bool {
        &&& self.rax == 0x1111_1111_1111_1111
        &&& self.rcx == 0x2222_2222_2222_2222
        &&& self.rdx == 0x3333_3333_3333_3333
        &&& self.rbx == 0x4444_4444_4444_4444
        &&& self.rbp == 0x5555_5555_5555_5555
        &&& self.rsi == 0x6666_6666_6666_6666
        &&& self.rdi == 0x7777_7777_7777_7777
        &&& self.r8 == 0x8888_8888_8888_8888
        &&& self.r9 == 0x9999_9999_9999_9999
        &&& self.r10 == 0xAAAA_AAAA_AAAA_AAAA
        &&& self.r11 == 0xBBBB_BBBB_BBBB_BBBB
        &&& self.r12 == 0xCCCC_CCCC_CCCC_CCCC
        &&& self.r13 == 0xDDDD_DDDD_DDDD_DDDD
        &&& self.r14 == 0xEEEE_EEEE_EEEE_EEEE
        &&& self.r15 == 0xFFFF_FFFF_FFFF_FFFF
    }
}

/// Whether every general register holds the value that it was set to for the check.
pub fn sentinels_intact(f: &InterruptFrame) -> (r: bool)
    ensures
        r == f.has_sentinels(),
{
    f.rax == 0x1111_1111_1111_1111 && f.rcx == 0x2222_2222_2222_2222 && f.rdx
        == 0x3333_3333_3333_3333 && f.rbx == 0x4444_4444_4444_4444 && f.rbp
        == 0x5555_5555_5555_5555 && f.rsi == 0x6666_6666_6666_6666 && f.rdi
        == 0x7777_7777_7777_7777 && f.r8 == 0x8888_8888_8888_8888 && f.r9
        == 0x9999_9999_9999_9999 && f.r10 == 0xAAAA_AAAA_AAAA_AAAA && f.r11
        == 0xBBBB_BBBB_BBBB_BBBB && f.r12 == 0xCCCC_CCCC_CCCC_CCCC && f.r13
        == 0xDDDD_DDDD_DDDD_DDDD && f.r14 == 0xEEEE_EEEE_EEEE_EEEE && f.r15
        == 0xFFFF_FFFF_FFFF_FFFF
}

/// The registers after the check.
#[derive(Debug, Clone, Copy, PartialEq, Eq, Structural)]
pub struct GprSentinelResults {
    pub rax: u64,
    pub rcx: u64,
    pub rdx: u64,
    pub rbx: u64,
    pub rbp: u64,
    pub rsi: u64,
    pub rdi: u64,
    pub r8: u64,
    pub r9: u64,
    pub r10: u64,
    pub r11: u64,
    pub r12: u64,
    pub r13: u64,
    pub r14: u64,
    pub r15: u64,
    pub rsp: u64,
    pub rip: u64,
    pub rflags: u64,
    pub loop_count: u64,
    pub rsp_matched: u64,
}

/// The registers survived: they hold what they were set to, the stack pointer is the same, and
/// execution went on over at least ten ticks.
pub open spec fn check_passed(r: GprSentinelResults, observed_ticks: u64) -> bool {
    &&& observed_ticks >= 10
    &&& r.loop_count > 0
    &&& r.rax == 0x1111_1111_1111_1111
    &&& r.rcx == 0x2222_2222_2222_2222
    &&& r.rdx == 0x3333_3333_3333_3333
    &&& r.rbx == 0x4444_4444_4444_4444
    &&& r.rbp == 0x5555_5555_5555_5555
    &&& r.rsi == 0x6666_6666_6666_6666
    &&& r.rdi == 0x7777_7777_7777_7777
    &&& r.r8 == 0x8888_8888_8888_8888
    &&& r.r9 == 0x9999_9999_9999_9999
    &&& r.r10 == 0xAAAA_AAAA_AAAA_AAAA
    &&& r.r11 == 0xBBBB_BBBB_BBBB_BBBB
    &&& r.r12 == 0xCCCC_CCCC_CCCC_CCCC
    &&& r.r13 == 0xDDDD_DDDD_DDDD_DDDD
    &&& r.r14 == 0xEEEE_EEEE_EEEE_EEEE
    &&& r.r15 == 0xFFFF_FFFF_FFFF_FFFF
    &&& r.rsp_matched == 1
    &&& r.rip != 0
}

/// Whether the registers survived the check.
pub fn registers_survived(r: &GprSentinelResults, observed_ticks: u64) -> (ok: bool)
    ensures
        ok == check_passed(*r, observed_ticks),
{
    observed_ticks >= 10 && r.loop_count > 0 && r.rax == 0x1111_1111_1111_1111 && r.rcx
        == 0x2222_2222_2222_2222 && r.rdx == 0x3333_3333_3333_3333 && r.rbx
        == 0x4444_4444_4444_4444 && r.rbp == 0x5555_5555_5555_5555 && r.rsi
        == 0x6666_6666_6666_6666 && r.rdi == 0x7777_7777_7777_7777 && r.r8
        == 0x8888_8888_8888_8888 && r.r9 == 0x9999_9999_9999_9999 && r.r10
        == 0xAAAA_AAAA_AAAA_AAAA && r.r11 == 0xBBBB_BBBB_BBBB_BBBB && r.r12
        == 0xCCCC_CCCC_CCCC_CCCC && r.r13 == 0xDDDD_DDDD_DDDD_DDDD && r.r14
        == 0xEEEE_EEEE_EEEE_EEEE && r.r15 == 0xFFFF_FFFF_FFFF_FFFF && r.rsp_matched == 1 && r.rip
        != 0
}

/// The value for port 0x61 that stops the second interval timer and keeps the speaker quiet.
pub fn pit2_gate_off(port61: u8) -> (r: u8)
    ensures
        r == port61 & 0xFD & 0xFE,
{
    (port61 & 0xFD) & 0xFE
}

/// The value for port 0x61 that starts the second interval timer and keeps the speaker quiet.
pub fn pit2_gate_on(port61: u8) -> (r: u8)
    ensures
        r == (port61 & 0xFD) | 0x01,
{
    (port61 & 0xFD) | 0x01
}

/// Whether the second interval timer has run out.
pub fn pit2_is_done(port61: u8) -> (r: bool)
    ensures
        r == (port61 & 0x20 != 0),
{
    (port61 & 0x20) != 0
}

/// How far the timer counted down from its maximum; `None` if it did not count.
pub fn calibrate_lapic_timer_pit2(curr_count: u32) -> (r: Option<u32>)
    ensures
        r == (if curr_count == u32::MAX {
            None
        } else {
            Some((u32::MAX - curr_count) as u32)
        }),
{
    let elapsed: u32 = 0xFFFF_FFFFu32.saturating_sub(curr_count);
    if elapsed > 0 {
        Some(elapsed)
    } else {
        None
    }
}

/// The writes that have the timer tick.
pub open spec fn timer_setup(initial_count: u32) -> Seq<LapicWrite> {
    seq![
        LapicWrite { offset: LAPIC_SVR_REG, value: 0x1FF },
        LapicWrite { offset: LAPIC_TIMER_DCR_REG, value: 0x03 },
        LapicWrite { offset: LAPIC_LVT_TIMER_REG, value: (1u32 << 17) | 32 },
        LapicWrite { offset: LAPIC_TIMER_INIT_CNT_REG, value: initial_count },
    ]
}

/// Lists the writes that have the timer tick whenever it has counted down from a number.
pub fn configure_lapic_timer(initial_count: u32) -> (r: [LapicWrite; 4])
    ensures
        r@ == timer_setup(initial_count),
{
    let r = [
        LapicWrite { offset: LAPIC_SVR_REG, value: 0x1FF },
        LapicWrite { offset: LAPIC_TIMER_DCR_REG, value: 0x03 },
        LapicWrite { offset: LAPIC_LVT_TIMER_REG, value: (1u32 << 17) | 32 },
        LapicWrite { offset: LAPIC_TIMER_INIT_CNT_REG, value: initial_count },
    ];
    assert(r@ =~= timer_setup(initial_count));
    r
}

/// The write that stops the timer.
pub fn mask_lapic_timer(lvt: u32) -> (r: LapicWrite)
    ensures
        r == (LapicWrite { offset: LAPIC_LVT_TIMER_REG, value: lvt | (1u32 << 16) }),
{
    LapicWrite { offset: LAPIC_LVT_TIMER_REG, value: lvt | (1u32 << 16) }
}

/// Lists the writes that have the timer tick again. It must have been measured.
pub fn rearm_lapic_timer(calibrated_count: u32) -> (r: [LapicWrite; 4])
    requires
        calibrated_count > 0,
    ensures
        r@ == timer_setup(calibrated_count),
{
    configure_lapic_timer(calibrated_count)
}

} // verus!
