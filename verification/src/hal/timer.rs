//! The legacy interrupt controller, the interval timer and the clock.
use crate::hal::cpu::PortWrite;
use crate::hal::lapic::{sentinels_intact, InterruptFrame};
use vstd::prelude::*;

verus! {

pub const PIC1_COMMAND: u16 = 0x20;

pub const PIC1_DATA: u16 = 0x21;

pub const PIC2_COMMAND: u16 = 0xA0;

pub const PIC2_DATA: u16 = 0xA1;

pub const PIT_CHANNEL_0: u16 = 0x40;

pub const PIT_COMMAND: u16 = 0x43;

pub const PIT_BASE_FREQUENCY: u32 = 1_193_182;

/// The bytes that set the interrupt controllers up: their lines become vectors 32 to 47, and only
/// the timer is heard.
pub open spec fn pic_setup() -> Seq<PortWrite> {
    seq![
        PortWrite { port: PIC1_COMMAND, value: 0x11, pause: true },
        PortWrite { port: PIC2_COMMAND, value: 0x11, pause: true },
        PortWrite { port: PIC1_DATA, value: 32, pause: true },
        PortWrite { port: PIC2_DATA, value: 40, pause: true },
        PortWrite { port: PIC1_DATA, value: 0x04, pause: true },
        PortWrite { port: PIC2_DATA, value: 0x02, pause: true },
        PortWrite { port: PIC1_DATA, value: 0x01, pause: true },
        PortWrite { port: PIC2_DATA, value: 0x01, pause: true },
        PortWrite { port: PIC1_DATA, value: 0xFE, pause: false },
        PortWrite { port: PIC2_DATA, value: 0xFF, pause: false },
    ]
}

/// Lists the bytes that set the interrupt controllers up.
pub fn init_pic() -> (r: [PortWrite; 10])
    ensures
        r@ == pic_setup(),
{
    let r = [
        PortWrite { port: PIC1_COMMAND, value: 0x11, pause: true },
        PortWrite { port: PIC2_COMMAND, value: 0x11, pause: true },
        PortWrite { port: PIC1_DATA, value: 32, pause: true },
        PortWrite { port: PIC2_DATA, value: 40, pause: true },
        PortWrite { port: PIC1_DATA, value: 0x04, pause: true },
        PortWrite { port: PIC2_DATA, value: 0x02, pause: true },
        PortWrite { port: PIC1_DATA, value: 0x01, pause: true },
        PortWrite { port: PIC2_DATA, value: 0x01, pause: true },
        PortWrite { port: PIC1_DATA, value: 0xFE, pause: false },
        PortWrite { port: PIC2_DATA, value: 0xFF, pause: false },
    ];
    assert(r@ =~= pic_setup());
    r
}

/// Lists the bytes that end an interrupt: the second controller is told of its lines first.
pub fn send_eoi(irq: u8) -> (r: Vec<PortWrite>)
    ensures
        r@ == (if irq >= 8 {
            seq![
                PortWrite { port: PIC2_COMMAND, value: 0x20, pause: false },
                PortWrite { port: PIC1_COMMAND, value: 0x20, pause: false },
            ]
        } else {
            seq![PortWrite { port: PIC1_COMMAND, value: 0x20, pause: false }]
        }),
{
    let mut out: Vec<PortWrite> = Vec::new();
    if irq >= 8 {
        out.push(PortWrite { port: PIC2_COMMAND, value: 0x20, pause: false });
    }
    out.push(PortWrite { port: PIC1_COMMAND, value: 0x20, pause: false });
    out
}

/// By what the base frequency is divided; a frequency that is too low gives what is left of the
/// divisor in sixteen bits.
pub open spec fn pit_divisor(freq_hz: u32) -> int {
    PIT_BASE_FREQUENCY as int / freq_hz as int % 0x1_0000
}

/// Lists the bytes that have the interval timer tick at a frequency.
pub fn init_pit(freq_hz: u32) -> (r: [PortWrite; 3])
    requires
        freq_hz > 0,
    ensures
        r@[0] == (PortWrite { port: PIT_COMMAND, value: 0x34, pause: true }),
        r@[1].port == PIT_CHANNEL_0,
        r@[1].pause,
        r@[2].port == PIT_CHANNEL_0,
        !r@[2].pause,
        r@[1].value + 256 * r@[2].value == pit_divisor(freq_hz),
{
    let divisor: u32 = (PIT_BASE_FREQUENCY / freq_hz) % 0x1_0000;
    [
        PortWrite { port: PIT_COMMAND, value: 0x34, pause: true },
        PortWrite { port: PIT_CHANNEL_0, value: (divisor % 256) as u8, pause: true },
        PortWrite { port: PIT_CHANNEL_0, value: (divisor / 256) as u8, pause: false },
    ]
}

/// The clock, and the check that interrupts leave registers alone.
#[derive(Debug, Clone, Copy, PartialEq, Eq, Structural)]
pub struct TimerState {
    pub ticks: u64,
    pub gpr_test_active: bool,
    pub gpr_test_ticks: u64,
    pub gpr_test_target: u64,
}

impl TimerState {
    /// The clock at the start.
    pub fn new() -> (r: Self)
        ensures
            r == (TimerState {
                ticks: 0,
                gpr_test_active: false,
                gpr_test_ticks: 0,
                gpr_test_target: 10,
            }),
    {
        TimerState { ticks: 0, gpr_test_active: false, gpr_test_ticks: 0, gpr_test_target: 10 }
    }
}

/// Ticks since the start.
pub fn ticks(t: &TimerState) -> (r: u64)
    ensures
        r == t.ticks,
{
    t.ticks
}

/// Milliseconds since the start, at a hundred ticks a second.
pub fn uptime_ms(t: &TimerState) -> (r: u64)
    requires
        t.ticks * 10 <= u64::MAX,
    ensures
        r == t.ticks * 10,
{
    t.ticks * 10
}

/// What a tick is for.
#[derive(Debug, Clone, Copy, PartialEq, Eq, Structural)]
pub enum TimerAction {
    /// The check goes on. `intact` says whether the registers are as they were set; with `done` the
    /// code that is interrupted is told to stop.
    RegisterCheck { intact: bool, done: bool },
    /// Devices are told of the tick, and another thread may run.
    Preempt,
}

/// Decides what a tick is for.
pub fn timer_interrupt_handler(t: &mut TimerState, frame: &InterruptFrame) -> (r: TimerAction)
    requires
        old(t).gpr_test_active ==> old(t).ticks < u64::MAX && old(t).gpr_test_ticks < u64::MAX,
    ensures
        if old(t).gpr_test_active {
            &&& *final(t) == (TimerState {
                ticks: (old(t).ticks + 1) as u64,
                gpr_test_ticks: (old(t).gpr_test_ticks + 1) as u64,
                ..*old(t)
            })
            &&& r == (TimerAction::RegisterCheck {
                intact: frame.has_sentinels(),
                done: old(t).gpr_test_ticks + 1 >= old(t).gpr_test_target,
            })
        } else {
            *final(t) == *old(t) && r == TimerAction::Preempt
        },
{
    if t.gpr_test_active {
        t.ticks = t.ticks + 1;
        t.gpr_test_ticks = t.gpr_test_ticks + 1;
        let intact: bool = sentinels_intact(frame);
        return TimerAction::RegisterCheck { intact, done: t.gpr_test_ticks >= t.gpr_test_target };
    }
    TimerAction::Preempt
}

} // verus!
