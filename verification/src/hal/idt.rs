//! The interrupt table and what becomes of exceptions.
use crate::hal::gdt::KERNEL_CODE_SELECTOR;
use vstd::prelude::*;

verus! {

/// The registers at an exception.
#[derive(Debug, Clone, Copy, PartialEq, Eq, Structural)]
pub struct ExceptionFrame {
    pub r15: u64,
    pub r14: u64,
    pub r13: u64,
    pub r12: u64,
    pub r11: u64,
    pub r10: u64,
    pub r9: u64,
    pub r8: u64,
    pub rdi: u64,
    pub rsi: u64,
    pub rbp: u64,
    pub rbx: u64,
    pub rdx: u64,
    pub rcx: u64,
    pub rax: u64,
    pub vector: u64,
    pub error_code: u64,
    pub rip: u64,
    pub cs: u64,
    pub rflags: u64,
    pub rsp: u64,
    pub ss: u64,
}

/// An entry of the interrupt table.
#[derive(Debug, Clone, Copy, PartialEq, Eq, Structural)]
pub struct IdtEntry {
    pub offset_low: u16,
    pub selector: u16,
    pub ist: u8,
    pub type_attr: u8,
    pub offset_mid: u16,
    pub offset_high: u32,
    pub zero: u32,
}

/// An entry without a handler.
pub open spec fn missing_entry() -> IdtEntry {
    IdtEntry {
        offset_low: 0,
        selector: 0,
        ist: 0,
        type_attr: 0,
        offset_mid: 0,
        offset_high: 0,
        zero: 0,
    }
}

/// An entry that leads to a handler in the kernel, on a stack of the stack table if `ist` is not 0.
pub open spec fn gate(handler: u64, ist: u8) -> IdtEntry {
    IdtEntry {
        offset_low: (handler % 0x1_0000) as u16,
        selector: KERNEL_CODE_SELECTOR,
        ist: (ist % 8) as u8,
        type_attr: 0x8E,
        offset_mid: (handler / 0x1_0000 % 0x1_0000) as u16,
        offset_high: (handler / 0x1_0000_0000) as u32,
        zero: 0,
    }
}

impl IdtEntry {
    /// The handler that the entry leads to.
    pub open spec fn handler(&self) -> int {
        self.offset_low + 0x1_0000 * self.offset_mid + 0x1_0000_0000 * self.offset_high
    }

    pub fn missing() -> (r: Self)
        ensures
            r == missing_entry(),
    {
        IdtEntry {
            offset_low: 0,
            selector: 0,
            ist: 0,
            type_attr: 0,
            offset_mid: 0,
            offset_high: 0,
            zero: 0,
        }
    }

    pub fn ist_index(&self) -> (r: u8)
        ensures
            r == self.ist % 8,
    {
        self.ist % 8
    }

    pub fn is_present(&self) -> (r: bool)
        ensures
            r == (self.type_attr >= 0x80),
    {
        self.type_attr >= 0x80
    }

    /// Leads the entry to a handler.
    pub fn set_handler(&mut self, handler: u64, ist_index: u8)
        ensures
            *final(self) == gate(handler, ist_index),
            final(self).handler() == handler,
    {
        self.offset_low = (handler % 0x1_0000) as u16;
        self.selector = KERNEL_CODE_SELECTOR;
        self.ist = ist_index % 8;
        self.type_attr = 0x8E;
        self.offset_mid = (handler / 0x1_0000 % 0x1_0000) as u16;
        self.offset_high = (handler / 0x1_0000_0000) as u32;
        self.zero = 0;
    }
}

/// What the processor is told of the interrupt table.
#[derive(Debug, Clone, Copy, PartialEq, Eq, Structural)]
pub struct IdtrDescriptor {
    pub limit: u16,
    pub base: u64,
}

/// Entries of the interrupt table.
pub const IDT_ENTRIES: usize = 256;

/// Bytes of the interrupt table.
pub const IDT_SIZE: u64 = 4096;

/// The interrupt table.
pub struct Idt {
    pub entries: [IdtEntry; IDT_ENTRIES],
}

/// A fault that is provoked on purpose.
#[derive(Debug, Clone, Copy, PartialEq, Eq, Structural)]
pub struct ExpectedFault {
    pub vector: u64,
    /// Where to go on after the fault.
    pub resume_rip: u64,
    /// Where a page fault must happen, if that matters.
    pub expected_addr: Option<u64>,
}

/// A fault that was caught.
#[derive(Debug, Clone, Copy, PartialEq, Eq, Structural)]
pub struct FaultResult {
    pub vector: u64,
    pub error_code: u64,
    pub fault_addr: u64,
    pub fault_rip: u64,
}

/// The fault that is expected and the one that was caught last.
#[derive(Debug, Clone, Copy, PartialEq, Eq, Structural)]
pub struct FaultTraps {
    pub expected: Option<ExpectedFault>,
    pub last: Option<FaultResult>,
}

impl FaultTraps {
    pub fn new() -> (r: Self)
        ensures
            r.expected is None,
            r.last is None,
    {
        FaultTraps { expected: None, last: None }
    }
}

/// Expects a fault.
pub fn expect_fault(t: &mut FaultTraps, vector: u64, resume_rip: u64, expected_addr: Option<u64>)
    ensures
        final(t).expected == Some(ExpectedFault { vector, resume_rip, expected_addr }),
        final(t).last is None,
{
    t.expected = Some(ExpectedFault { vector, resume_rip, expected_addr });
    t.last = None;
}

/// The fault that was caught last.
pub fn last_fault_result(t: &FaultTraps) -> (r: Option<FaultResult>)
    ensures
        r == t.last,
{
    t.last
}

impl Idt {
    /// A table without handlers.
    pub fn new() -> (r: Self)
        ensures
            forall|v: int| 0 <= v < 256 ==> (#[trigger] r.entries@[v]) == missing_entry(),
    {
        Idt { entries: [IdtEntry::missing(); IDT_ENTRIES] }
    }
}

/// The stack of the stack table that a vector uses, or 0.
pub fn get_vector_ist(t: &Idt, vector: usize) -> (r: u8)
    ensures
        r == (if vector < 256 {
            t.entries@[vector as int].ist % 8
        } else {
            0
        }),
{
    if vector < IDT_ENTRIES {
        t.entries[vector].ist_index()
    } else {
        0
    }
}

/// Whether a vector has a handler.
pub fn get_vector_present(t: &Idt, vector: usize) -> (r: bool)
    ensures
        r == (vector < 256 && t.entries@[vector as int].type_attr >= 0x80),
{
    if vector < IDT_ENTRIES {
        t.entries[vector].is_present()
    } else {
        false
    }
}

/// Where an interrupt table at an address begins and ends.
pub fn get_idt_bounds(base: u64) -> (r: (u64, u64))
    requires
        base + IDT_SIZE <= u64::MAX,
    ensures
        r.0 == base,
        r.1 == base + IDT_SIZE,
{
    (base, base + IDT_SIZE)
}

/// The handlers for hardware: the timer, the requests between processors, and spurious interrupts.
#[derive(Debug, Clone, Copy, PartialEq, Eq, Structural)]
pub struct HardwareHandlers {
    pub timer: u64,
    pub stop: u64,
    pub reschedule: u64,
    pub tlb: u64,
    pub spurious: u64,
}

/// The entry of a vector after the table was filled.
pub open spec fn filled_entry(was: IdtEntry, isrs: Seq<u64>, hw: HardwareHandlers, v: int) -> IdtEntry {
    if v < 32 {
        gate(
            isrs[v],
            if v == 8 {
                1
            } else {
                0
            },
        )
    } else if v == 32 {
        gate(hw.timer, 0)
    } else if v == 251 {
        gate(hw.stop, 0)
    } else if v == 252 {
        gate(hw.reschedule, 0)
    } else if v == 253 {
        gate(hw.tlb, 0)
    } else if v == 255 {
        gate(hw.spurious, 0)
    } else {
        was
    }
}

/// Fills the interrupt table: a handler for each exception, that for double faults on a stack of
/// its own, and the handlers for hardware.
pub fn init_idt(t: &mut Idt, isrs: &[u64; 32], hw: &HardwareHandlers)
    ensures
        forall|v: int|
            0 <= v < 256 ==> (#[trigger] final(t).entries@[v]) == filled_entry(
                old(t).entries@[v],
                isrs@,
                *hw,
                v,
            ),
{
    let mut i: usize = 0;
    while i < 32
        invariant
            i <= 32,
            forall|v: int|
                0 <= v < 256 ==> (#[trigger] t.entries@[v]) == (if v < i {
                    filled_entry(old(t).entries@[v], isrs@, *hw, v)
                } else {
                    old(t).entries@[v]
                }),
        decreases 32 - i,
    {
        let ist: u8 = if i == 8 {
            1
        } else {
            0
        };
        let mut e = t.entries[i];
        e.set_handler(isrs[i], ist);
        t.entries[i] = e;
        i = i + 1;
    }
    let mut e = IdtEntry::missing();
    e.set_handler(hw.timer, 0);
    t.entries[32] = e;
    e.set_handler(hw.stop, 0);
    t.entries[251] = e;
    e.set_handler(hw.reschedule, 0);
    t.entries[252] = e;
    e.set_handler(hw.tlb, 0);
    t.entries[253] = e;
    e.set_handler(hw.spurious, 0);
    t.entries[255] = e;
}

/// What to tell the processor of an interrupt table at an address.
pub fn load_current_cpu_idt(base: u64) -> (r: IdtrDescriptor)
    ensures
        r == (IdtrDescriptor { limit: 4095, base }),
{
    IdtrDescriptor { limit: (IDT_SIZE - 1) as u16, base }
}

/// The name of an exception.
pub open spec fn exception_name(vector: u64) -> &'static str {
    if vector == 0 {
        "Divide Error (#DE)"
    } else if vector == 1 {
        "Debug Exception (#DB)"
    } else if vector == 2 {
        "Non-Maskable Interrupt (NMI)"
    } else if vector == 3 {
        "Breakpoint (#BP)"
    } else if vector == 4 {
        "Overflow (#OF)"
    } else if vector == 5 {
        "Bound Range Exceeded (#BR)"
    } else if vector == 6 {
        "Invalid Opcode (#UD)"
    } else if vector == 7 {
        "Device Not Available (#NM)"
    } else if vector == 8 {
        "Double Fault (#DF)"
    } else if vector == 10 {
        "Invalid TSS (#TS)"
    } else if vector == 11 {
        "Segment Not Present (#NP)"
    } else if vector == 12 {
        "Stack Fault (#SS)"
    } else if vector == 13 {
        "General Protection Fault (#GP)"
    } else if vector == 14 {
        "Page Fault (#PF)"
    } else if vector == 16 {
        "x87 Floating-Point Exception (#MF)"
    } else if vector == 17 {
        "Alignment Check (#AC)"
    } else if vector == 18 {
        "Machine Check (#MC)"
    } else if vector == 19 {
        "SIMD Floating-Point Exception (#XM)"
    } else if vector == 20 {
        "Virtualization Exception (#VE)"
    } else if vector == 21 {
        "Control Protection Exception (#CP)"
    } else if vector == 28 {
        "Hypervisor Injection Exception (#HV)"
    } else if vector == 29 {
        "VMM Communication Exception (#VC)"
    } else if vector == 30 {
        "Security Exception (#SX)"
    } else {
        "Reserved / Unknown Exception"
    }
}

/// The name of an exception.
pub fn get_exception_name(vector: u64) -> (r: &'static str)
    ensures
        r@ == exception_name(vector)@,
{
    match vector {
        0 => "Divide Error (#DE)",
        1 => "Debug Exception (#DB)",
        2 => "Non-Maskable Interrupt (NMI)",
        3 => "Breakpoint (#BP)",
        4 => "Overflow (#OF)",
        5 => "Bound Range Exceeded (#BR)",
        6 => "Invalid Opcode (#UD)",
        7 => "Device Not Available (#NM)",
        8 => "Double Fault (#DF)",
        10 => "Invalid TSS (#TS)",
        11 => "Segment Not Present (#NP)",
        12 => "Stack Fault (#SS)",
        13 => "General Protection Fault (#GP)",
        14 => "Page Fault (#PF)",
        16 => "x87 Floating-Point Exception (#MF)",
        17 => "Alignment Check (#AC)",
        18 => "Machine Check (#MC)",
        19 => "SIMD Floating-Point Exception (#XM)",
        20 => "Virtualization Exception (#VE)",
        21 => "Control Protection Exception (#CP)",
        28 => "Hypervisor Injection Exception (#HV)",
        29 => "VMM Communication Exception (#VC)",
        30 => "Security Exception (#SX)",
        _ => "Reserved / Unknown Exception",
    }
}

/// What the error code of a page fault says.
#[derive(Debug, Clone, Copy, PartialEq, Eq, Structural)]
pub struct PageFaultCause {
    /// The page was there but did not allow the access.
    pub protection: bool,
    pub write: bool,
    pub user: bool,
    pub reserved_bit: bool,
    pub instruction_fetch: bool,
}

/// Reads the error code of a page fault.
pub fn page_fault_cause(error_code: u64) -> (r: PageFaultCause)
    ensures
        r == (PageFaultCause {
            protection: error_code % 2 == 1,
            write: error_code / 2 % 2 == 1,
            user: error_code / 4 % 2 == 1,
            reserved_bit: error_code / 8 % 2 == 1,
            instruction_fetch: error_code / 16 % 2 == 1,
        }),
{
    PageFaultCause {
        protection: error_code % 2 == 1,
        write: error_code / 2 % 2 == 1,
        user: error_code / 4 % 2 == 1,
        reserved_bit: error_code / 8 % 2 == 1,
        instruction_fetch: error_code / 16 % 2 == 1,
    }
}

/// What becomes of an exception.
#[derive(Debug, Clone, Copy, PartialEq, Eq, Structural)]
pub enum Disposition {
    /// A breakpoint: execution goes on.
    Breakpoint,
    /// A fault that was expected: execution goes on elsewhere.
    Diverted,
    /// The kernel stops.
    Fatal,
}

/// Where a fault happened, for page faults.
pub open spec fn fault_address(frame: ExceptionFrame, cr2: u64) -> u64 {
    if frame.vector == 14 {
        cr2
    } else {
        0
    }
}

/// The exception is the one that is expected.
pub open spec fn is_expected(t: FaultTraps, frame: ExceptionFrame, cr2: u64) -> bool {
    match t.expected {
        None => false,
        Some(e) => e.vector == frame.vector && match e.expected_addr {
            None => true,
            Some(addr) => fault_address(frame, cr2) / 4096 == addr / 4096,
        },
    }
}

/// What becomes of an exception.
pub open spec fn dispatched(
    before: FaultTraps,
    after: FaultTraps,
    frame: ExceptionFrame,
    frame_after: ExceptionFrame,
    cr2: u64,
    r: Disposition,
) -> bool {
    if frame.vector == 3 {
        &&& r == Disposition::Breakpoint
        &&& after == before
        &&& frame_after == frame
    } else if is_expected(before, frame, cr2) {
        &&& r == Disposition::Diverted
        &&& after.expected is None
        &&& after.last == Some(
            FaultResult {
                vector: frame.vector,
                error_code: frame.error_code,
                fault_addr: fault_address(frame, cr2),
                fault_rip: frame.rip,
            },
        )
        &&& frame_after == (ExceptionFrame { rip: before.expected->Some_0.resume_rip, ..frame })
    } else {
        &&& r == Disposition::Fatal
        &&& after == before
        &&& frame_after == frame
    }
}

/// Decides what becomes of an exception. `cr2` is where a page fault happened.
pub fn exception_dispatch(t: &mut FaultTraps, frame: &mut ExceptionFrame, cr2: u64) -> (r: Disposition)
    ensures
        dispatched(*old(t), *final(t), *old(frame), *final(frame), cr2, r),
{
    if frame.vector == 3 {
        return Disposition::Breakpoint;
    }
    let addr: u64 = if frame.vector == 14 {
        cr2
    } else {
        0
    };
    if let Some(expected) = t.expected {
        if expected.vector == frame.vector {
            let addr_matches: bool = match expected.expected_addr {
                Some(want) => addr / 4096 == want / 4096,
                None => true,
            };
            if addr_matches {
                t.last = Some(
                    FaultResult {
                        vector: frame.vector,
                        error_code: frame.error_code,
                        fault_addr: addr,
                        fault_rip: frame.rip,
                    },
                );
                t.expected = None;
                frame.rip = expected.resume_rip;
                return Disposition::Diverted;
            }
        }
    }
    Disposition::Fatal
}

/// Whether a fault that was provoked was caught: the vector is right, and the page where that
/// matters.
pub fn fault_was_caught(last: Option<FaultResult>, vector: u64, addr: Option<u64>) -> (r: bool)
    ensures
        r == match last {
            None => false,
            Some(f) => f.vector == vector && match addr {
                None => true,
                Some(a) => f.fault_addr / 4096 == a / 4096,
            },
        },
{
    match last {
        None => false,
        Some(f) => {
            let page_matches: bool = match addr {
                None => true,
                Some(a) => f.fault_addr / 4096 == a / 4096,
            };
            f.vector == vector && page_matches
        },
    }
}

/// A provoked fault is caught once: what is expected is diverted to the place asked for, is then
/// reported, and the next one like it is fatal.
pub proof fn law_expected_fault_is_caught_once(
    before: FaultTraps,
    after: FaultTraps,
    frame: ExceptionFrame,
    next: ExceptionFrame,
    cr2: u64,
)
    requires
        is_expected(before, frame, cr2),
        after.expected is None,
    ensures
        !is_expected(after, next, cr2),
{
}

/// Once the table is filled, each exception has a handler, and that for double faults alone has a
/// stack of its own.
pub proof fn law_every_exception_has_a_handler(
    was: IdtEntry,
    isrs: Seq<u64>,
    hw: HardwareHandlers,
    v: int,
)
    requires
        0 <= v < 32,
        isrs.len() == 32,
    ensures
        filled_entry(was, isrs, hw, v).type_attr >= 0x80,
        filled_entry(was, isrs, hw, v).handler() == isrs[v],
        filled_entry(was, isrs, hw, v).ist == (if v == 8 {
            1u8
        } else {
            0u8
        }),
{
}

} // verus!
