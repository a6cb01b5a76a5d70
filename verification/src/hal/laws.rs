//! What holds of the tables, registers and bytes that the processor and the chips are given.
use crate::hal::gdt::{
    are_critical_ranges, are_tables_of, double_fault_ok, is_phys_range, law_tss_is_found,
    layout_ok, phys_of, range_between, KernelLayout, MemoryRange, SegmentTables,
    TaskStateSegment,
};
use crate::hal::idt::{
    dispatched, exception_name, filled_entry, gate, Disposition, ExceptionFrame, FaultTraps,
    HardwareHandlers, IdtEntry,
};
use crate::hal::lapic::{
    check_passed, lapic_base, timer_setup, GprSentinelResults, InterruptFrame,
};
use crate::hal::serial::SerialPort;
use crate::hal::timer::{pic_setup, pit_divisor};
use crate::ipc::object::interrupts_on;
use vstd::arithmetic::div_mod::{lemma_div_is_ordered_by_denominator, lemma_fundamental_div_mod};
use vstd::prelude::*;

verus! {

/// The parts of an address that an entry of the interrupt table holds, put together, are that
/// address. The entry leads into the kernel and turns interrupts off.
pub proof fn law_entry_leads_to_its_handler(handler: u64, ist: u8)
    ensures
        ({
            let g = gate(handler, ist);
            &&& g.offset_low + 0x1_0000 * g.offset_mid + 0x1_0000_0000 * g.offset_high == handler
            &&& g.selector == 0x08
            &&& g.type_attr == 0x8E
            &&& g.ist < 8
            &&& ist < 8 ==> g.ist == ist
            &&& g.zero == 0
        }),
{
}

/// Once the interrupt table is filled, every vector of the hardware leads to its handler, and every
/// other vector above the exceptions to where it led.
pub proof fn law_vectors_of_the_hardware(
    was: IdtEntry,
    isrs: Seq<u64>,
    hw: HardwareHandlers,
    v: int,
)
    requires
        32 <= v < 256,
        isrs.len() == 32,
    ensures
        ({
            let e = filled_entry(was, isrs, hw, v);
            let own = v == 32 || v == 251 || v == 252 || v == 253 || v == 255;
            &&& own ==> e.type_attr == 0x8E && e.selector == 0x08 && e.ist == 0
            &&& v == 32 ==> e.handler() == hw.timer
            &&& v == 251 ==> e.handler() == hw.stop
            &&& v == 252 ==> e.handler() == hw.reschedule
            &&& v == 253 ==> e.handler() == hw.tlb
            &&& v == 255 ==> e.handler() == hw.spurious
            &&& !own ==> e == was
        }),
{
}

/// A fault goes on at the place asked for exactly if it is no breakpoint, is of the kind that was
/// expected and, where an address was given, happened on the same page. It is then reported and
/// expected no more. A breakpoint just goes on; any other fault is fatal. Neither changes anything.
pub proof fn law_fault_is_diverted_exactly_if_expected(
    before: FaultTraps,
    after: FaultTraps,
    frame: ExceptionFrame,
    frame_after: ExceptionFrame,
    cr2: u64,
    r: Disposition,
)
    requires
        dispatched(before, after, frame, frame_after, cr2, r),
    ensures
        ({
            let e = before.expected->Some_0;
            let place = if frame.vector == 14 {
                cr2
            } else {
                0u64
            };
            let same_page = e.expected_addr is None || exists|n: int|
                #[trigger] is_page(n) && n <= place < n + 4096 && n <= e.expected_addr->Some_0 < n
                    + 4096;
            &&& r == Disposition::Breakpoint <==> frame.vector == 3
            &&& r == Disposition::Diverted <==> frame.vector != 3 && before.expected is Some
                && e.vector == frame.vector && same_page
            &&& r != Disposition::Diverted ==> after == before && frame_after == frame
            &&& r == Disposition::Diverted ==> {
                &&& frame_after.rip == e.resume_rip
                &&& frame_after.vector == frame.vector
                &&& after.expected is None
                &&& after.last is Some
                &&& after.last->Some_0.vector == frame.vector
                &&& after.last->Some_0.error_code == frame.error_code
                &&& after.last->Some_0.fault_rip == frame.rip
                &&& after.last->Some_0.fault_addr == place
            }
        }),
{
    if before.expected is Some {
        let e = before.expected->Some_0;
        let place = if frame.vector == 14 {
            cr2
        } else {
            0u64
        };
        if e.expected_addr is Some {
            let want = e.expected_addr->Some_0;
            let n = place as int / 4096 * 4096;
            assert(is_page(n));
            if exists|n: int|
                #[trigger] is_page(n) && n <= place < n + 4096 && n <= want < n + 4096 {
                let m = choose|m: int|
                    #[trigger] is_page(m) && m <= place < m + 4096 && m <= want < m + 4096;
                assert(place as int / 4096 == want as int / 4096);
            }
        }
    }
}

/// An address is where a page begins.
pub open spec fn is_page(n: int) -> bool {
    n % 4096 == 0
}

/// The registers of the local controller begin at a page, and with the bits above and below it the
/// address gives back the register that it was taken from.
pub proof fn law_registers_of_the_controller_are_found(msr: u64)
    ensures
        lapic_base(msr) % 4096 == 0,
        0 <= lapic_base(msr) < 0x10_0000_0000_0000,
        msr == lapic_base(msr) + msr as int % 4096 + 0x10_0000_0000_0000 * (msr as int
            / 0x10_0000_0000_0000),
{
    let low = msr as int % 0x10_0000_0000_0000;
    assert(msr as int == low + 0x10_0000_0000_0000 * (msr as int / 0x10_0000_0000_0000));
    assert(0x10_0000_0000_0000 == 4096 * 0x100_0000_0000);
    assert(low % 4096 == msr as int % 4096);
}

proof fn lemma_timer_entry()
    by (bit_vector)
    ensures
        ((1u32 << 17) | 32u32) == 0x2_0020u32,
{
}

/// The timer of the local controller is turned on with the vector 32, over and over, counts every
/// sixteenth cycle, and starts when the count is written, last.
pub proof fn law_local_timer_is_set_up(initial_count: u32)
    ensures
        ({
            let w = timer_setup(initial_count);
            &&& w.len() == 4
            &&& w[0].offset == 0xF0 && w[0].value == 0x1FF
            &&& w[1].offset == 0x3E0 && w[1].value == 3
            &&& w[2].offset == 0x320 && w[2].value == 0x2_0000 + 32
            &&& w[3].offset == 0x380 && w[3].value == initial_count
        }),
{
    lemma_timer_entry();
}

/// The check of the registers passes exactly if the timer ticked ten times at least, the loop ran,
/// and each register holds the digit that it was filled with.
pub proof fn law_register_check(r: GprSentinelResults, ticks: u64)
    ensures
        check_passed(r, ticks) <==> {
            let one: int = 0x1111_1111_1111_1111;
            &&& ticks >= 10
            &&& r.loop_count >= 1
            &&& r.rax == one && r.rcx == 2 * one && r.rdx == 3 * one && r.rbx == 4 * one
            &&& r.rbp == 5 * one && r.rsi == 6 * one && r.rdi == 7 * one
            &&& r.r8 == 8 * one && r.r9 == 9 * one && r.r10 == 10 * one && r.r11 == 11 * one
            &&& r.r12 == 12 * one && r.r13 == 13 * one && r.r14 == 14 * one && r.r15 == 15 * one
            &&& r.rsp_matched == 1
            &&& r.rip > 0
        },
{
}

/// The interrupt controllers deliver their sixteen lines as the vectors from 32 on, the second
/// behind the first, at whose third line it is, and let through the timer alone.
pub proof fn law_controllers_are_set_up()
    ensures
        ({
            let w = pic_setup();
            &&& w.len() == 10
            &&& forall|i: int|
                0 <= i < 10 ==> (#[trigger] w[i]).port == (if i < 2 {
                    if i % 2 == 0 {
                        0x20int
                    } else {
                        0xA0int
                    }
                } else if i % 2 == 0 {
                    0x21int
                } else {
                    0xA1int
                })
            &&& w[0].value == 0x11 && w[1].value == 0x11
            &&& w[2].value == 32 && w[3].value == w[2].value + 8
            &&& w[4].value == 4 && w[5].value == 2
            &&& w[6].value == 1 && w[7].value == 1
            &&& w[8].value == 0xFE && w[9].value == 0xFF
        }),
{
}

/// The interval timer comes as close to a frequency as it can without being slower: the divisor is
/// the largest that does not take more than a second for as many ticks.
pub proof fn law_interval_timer_keeps_time(freq: u32)
    requires
        19 <= freq,
    ensures
        pit_divisor(freq) * freq <= 1_193_182 < (pit_divisor(freq) + 1) * freq,
        0 <= pit_divisor(freq) < 0x1_0000,
{
    let q = 1_193_182int / freq as int;
    lemma_fundamental_div_mod(1_193_182, freq as int);
    lemma_div_is_ordered_by_denominator(1_193_182, 19, freq as int);
    assert(0 <= q <= 62_799);
    assert(pit_divisor(freq) == q);
    let r = 1_193_182int % freq as int;
    assert(freq * q == q * freq) by (nonlinear_arith);
    assert((q + 1) * freq == q * freq + freq) by (nonlinear_arith);
}

/// A serial port is set up without interrupts, at the highest speed, for eight bits without parity:
/// the divisor is written while the port shows it, and the port shows data again after that.
pub proof fn law_serial_port_is_set_up(p: SerialPort)
    requires
        p.base_port <= 0xFFFB,
    ensures
        ({
            let w = p.setup();
            &&& w.len() == 7
            &&& w[0].port == p.base_port + 1 && w[0].value == 0
            &&& w[1].port == p.base_port + 3 && w[1].value == 0x80
            &&& w[2].port == p.base_port && w[3].port == p.base_port + 1
            &&& w[2].value + 256 * w[3].value == 1
            &&& w[4].port == p.base_port + 3 && w[4].value == 3
            &&& w[5].port == p.base_port + 2 && w[5].value == 0xC7
            &&& w[6].port == p.base_port + 4 && w[6].value == 0x0B
        }),
{
}

/// Addresses of the kernel are taken to the memory behind them; others are that memory already.
pub proof fn law_addresses_of_the_kernel(a: u64)
    ensures
        a < 0x8000_0000 ==> phys_of((0xFFFF_FFFF_8000_0000 + a) as u64) == a,
        a < 0xFFFF_FFFF_8000_0000 ==> phys_of(a) == a,
        0 <= phys_of(a) <= a,
{
}

/// A kernel that lies as it has to has its guard page directly below its stack of sixteen pages,
/// and nothing else of it shares an address with the stack, the guard page or the page tables.
pub proof fn law_verified_layout_is_safe(l: &KernelLayout, x: int)
    requires
        layout_ok(l),
    ensures
        ({
            let image = range_between(l.kernel_start, l.bss_start);
            let bss = range_between(l.bss_start, l.bss_end);
            let meta = range_between(l.pmm_meta_start, l.pmm_meta_end);
            let tables = range_between(l.page_tables_start, l.page_tables_end);
            let guard = range_between(l.stack_guard_start, l.stack_guard_end);
            let stack = range_between(l.stack_start, l.stack_end);
            &&& guard.start + 4096 == stack.start
            &&& stack.start + 65536 == stack.end
            &&& stack.start % 4096 == 0
            &&& tables.start + 16384 == tables.end
            &&& meta.start + 16384 == meta.end
            &&& stack.contains(x) ==> !image.contains(x) && !bss.contains(x) && !tables.contains(x)
                && !guard.contains(x)
            &&& guard.contains(x) ==> !image.contains(x) && !bss.contains(x) && !tables.contains(x)
            &&& tables.contains(x) ==> !image.contains(x) && !bss.contains(x) && !meta.contains(x)
            &&& meta.contains(x) ==> !image.contains(x) && !bss.contains(x)
            &&& bss.contains(x) ==> !image.contains(x)
        }),
{
}

/// Double faults get a stack of their own exactly if the interrupt table and the task state segment
/// name the same one, it ends where that range of memory ends, at a multiple of 16 other than zero,
/// and shares no address with any other range.
pub proof fn law_double_faults_have_their_own_stack(
    tss: TaskStateSegment,
    df_ist: u8,
    ranges: Seq<MemoryRange>,
)
    requires
        ranges.len() == 7,
    ensures
        double_fault_ok(tss, df_ist, ranges) <==> {
            &&& df_ist == 1
            &&& tss.ist1 > 0
            &&& tss.ist1 % 16 == 0
            &&& tss.ist1 == ranges[3].end
            &&& forall|i: int, x: int|
                0 <= i < 7 && i != 3 && #[trigger] ranges[i].contains(x) ==> !ranges[3].contains(x)
        },
{
    if double_fault_ok(tss, df_ist, ranges) {
        assert forall|i: int, x: int|
            0 <= i < 7 && i != 3 && #[trigger] ranges[i].contains(x) implies !ranges[3].contains(
            x,
        ) by {
            assert(ranges[3].disjoint(&ranges[i]));
        }
    }
    if forall|i: int, x: int|
        0 <= i < 7 && i != 3 && #[trigger] ranges[i].contains(x) ==> !ranges[3].contains(x) {
        assert forall|i: int| 0 <= i < ranges.len() && i != 3 implies ranges[3].disjoint(
            &ranges[i],
        ) by {
            let x = if ranges[3].start > ranges[i].start {
                ranges[3].start as int
            } else {
                ranges[i].start as int
            };
            if ranges[i].contains(x) {
                assert(!ranges[3].contains(x));
            }
        }
    }
}

proof fn lemma_flag(rflags: u64)
    by (bit_vector)
    ensures
        (rflags & 0x200 != 0) == (rflags / 512 % 2 == 1),
{
}

/// Interrupts were on exactly if the bit of weight 512 of the flags was set.
pub proof fn law_interrupt_flag(rflags: u64)
    ensures
        interrupts_on(rflags) <==> rflags / 512 % 2 == 1,
{
    lemma_flag(rflags);
}

/// The two letters that stand for an exception.
pub open spec fn mnemonic(vector: u64) -> (char, char) {
    match vector {
        0 => ('D', 'E'),
        1 => ('D', 'B'),
        3 => ('B', 'P'),
        4 => ('O', 'F'),
        5 => ('B', 'R'),
        6 => ('U', 'D'),
        7 => ('N', 'M'),
        8 => ('D', 'F'),
        10 => ('T', 'S'),
        11 => ('N', 'P'),
        12 => ('S', 'S'),
        13 => ('G', 'P'),
        14 => ('P', 'F'),
        16 => ('M', 'F'),
        17 => ('A', 'C'),
        18 => ('M', 'C'),
        19 => ('X', 'M'),
        20 => ('V', 'E'),
        21 => ('C', 'P'),
        28 => ('H', 'V'),
        29 => ('V', 'C'),
        30 => ('S', 'X'),
        _ => ('?', '?'),
    }
}

/// The name of an exception that has a mnemonic ends with it, in parentheses.
pub proof fn law_exceptions_end_with_their_mnemonic(vector: u64)
    ensures
        mnemonic(vector).0 != '?' ==> ({
            let n = exception_name(vector)@;
            &&& n.len() > 5
            &&& n[n.len() - 5] == '('
            &&& n[n.len() - 4] == '#'
            &&& n[n.len() - 3] == mnemonic(vector).0
            &&& n[n.len() - 2] == mnemonic(vector).1
            &&& n[n.len() - 1] == ')'
        }),
{
    reveal_strlit("Divide Error (#DE)");
    reveal_strlit("Debug Exception (#DB)");
    reveal_strlit("Breakpoint (#BP)");
    reveal_strlit("Overflow (#OF)");
    reveal_strlit("Bound Range Exceeded (#BR)");
    reveal_strlit("Invalid Opcode (#UD)");
    reveal_strlit("Device Not Available (#NM)");
    reveal_strlit("Double Fault (#DF)");
    reveal_strlit("Invalid TSS (#TS)");
    reveal_strlit("Segment Not Present (#NP)");
    reveal_strlit("Stack Fault (#SS)");
    reveal_strlit("General Protection Fault (#GP)");
    reveal_strlit("Page Fault (#PF)");
    reveal_strlit("x87 Floating-Point Exception (#MF)");
    reveal_strlit("Alignment Check (#AC)");
    reveal_strlit("Machine Check (#MC)");
    reveal_strlit("SIMD Floating-Point Exception (#XM)");
    reveal_strlit("Virtualization Exception (#VE)");
    reveal_strlit("Control Protection Exception (#CP)");
    reveal_strlit("Hypervisor Injection Exception (#HV)");
    reveal_strlit("VMM Communication Exception (#VC)");
    reveal_strlit("Security Exception (#SX)");
}

/// The check of the registers at an interrupt finds each register filled with its digit.
pub proof fn law_registers_hold_their_digits(f: InterruptFrame)
    ensures
        f.has_sentinels() <==> {
            let one: int = 0x1111_1111_1111_1111;
            &&& f.rax == one && f.rcx == 2 * one && f.rdx == 3 * one && f.rbx == 4 * one
            &&& f.rbp == 5 * one && f.rsi == 6 * one && f.rdi == 7 * one
            &&& f.r8 == 8 * one && f.r9 == 9 * one && f.r10 == 10 * one && f.r11 == 11 * one
            &&& f.r12 == 12 * one && f.r13 == 13 * one && f.r14 == 14 * one && f.r15 == 15 * one
        },
{
}

/// A range of the kernel is as long in memory as it is in the address space.
pub proof fn law_ranges_keep_their_length(r: MemoryRange, start: u64, end: u64)
    requires
        is_phys_range(r, start, end),
        0xFFFF_FFFF_8000_0000 <= start <= end,
    ensures
        r.end - r.start == end - start,
        r.start + 0xFFFF_FFFF_8000_0000 == start,
{
}

/// The seven ranges that nothing may overlap are the image, the stack, the page tables, the stack
/// for double faults and the three tables of the processor, each where the layout says.
pub proof fn law_critical_ranges_are_those_of_the_layout(l: &KernelLayout, r: Seq<MemoryRange>)
    requires
        are_critical_ranges(l, r),
    ensures
        r.len() == 7,
        r[0].start == phys_of(l.kernel_start) && r[0].end == phys_of(l.bss_start),
        r[1].start == phys_of(l.stack_start) && r[1].end == phys_of(l.stack_end),
        r[2].start == phys_of(l.page_tables_start) && r[2].end == phys_of(l.page_tables_end),
        r[3].start == phys_of(l.double_fault_stack) && r[3].end == r[3].start + 16384,
        r[4].start == phys_of(l.gdt) && r[4].end == r[4].start + 56,
        r[5].start == phys_of(l.tss) && r[5].end == r[5].start + 104,
        r[6].start == phys_of(l.idt),
{
}

/// A descriptor of the table stands for all of memory: it begins at the address 0, ends with the
/// last of 2^20 pages, and is present. It is one for code or for data, of the kernel or of users;
/// code is that of a 64-bit program.
pub open spec fn is_flat(d: int, of_users: bool, of_code: bool) -> bool {
    let access = d / 0x100_0000_0000 % 0x100;
    &&& d % 0x1_0000 + 0x1_0000 * (d / 0x1_0000_0000_0000 % 0x10) == 0xF_FFFF
    &&& d / 0x80_0000_0000_0000 % 2 == 1
    &&& d / 0x1_0000 % 0x100_0000 == 0 && d / 0x100_0000_0000_0000 == 0
    &&& access / 0x80 == 1
    &&& access / 0x20 % 4 == (if of_users {
        3int
    } else {
        0int
    })
    &&& access / 0x10 % 2 == 1
    &&& access / 8 % 2 == (if of_code {
        1int
    } else {
        0int
    })
    &&& access / 2 % 2 == 1
    &&& d / 0x20_0000_0000_0000 % 2 == (if of_code {
        1int
    } else {
        0int
    })
    &&& d / 0x40_0000_0000_0000 % 2 == (if of_code {
        0int
    } else {
        1int
    })
}

/// The segment tables hold nothing, then code and data of the kernel, then data and code of users,
/// then the task state segment, which begins where the layout has it. The processor changes to the
/// end of the stack of the kernel, and for double faults to the end of a stack of its own.
pub proof fn law_segment_tables(l: &KernelLayout, r: &SegmentTables)
    requires
        l.fits(),
        are_tables_of(l, r),
    ensures
        r.gdt@[0] == 0,
        is_flat(r.gdt@[1] as int, false, true),
        is_flat(r.gdt@[2] as int, false, false),
        is_flat(r.gdt@[3] as int, true, false),
        is_flat(r.gdt@[4] as int, true, true),
        r.gdt@[5] / 0x1_0000 % 0x100_0000 + 0x100_0000 * (r.gdt@[5] / 0x100_0000_0000_0000)
            + 0x1_0000_0000 * r.gdt@[6] == l.tss,
        r.gdt@[5] % 0x1_0000 + 0x1_0000 * (r.gdt@[5] / 0x1_0000_0000_0000 % 0x10) == 103,
        r.gdt@[5] / 0x100_0000_0000 % 0x100 == 0x89,
        r.tss.rsp0 == phys_of(l.stack_end),
        r.tss.ist1 == phys_of(l.double_fault_stack) + 16_384,
        r.tss.rsp1 == 0 && r.tss.rsp2 == 0,
        r.tss.ist2 == 0 && r.tss.ist3 == 0 && r.tss.ist4 == 0,
        r.tss.ist5 == 0 && r.tss.ist6 == 0 && r.tss.ist7 == 0,
        r.tss.iomap_base == 104,
        r.descriptor.limit == 7 * 8 - 1,
        r.descriptor.base == l.gdt,
{
    law_tss_is_found(l.tss as int, 103);
    law_addresses_of_the_kernel(l.stack_end);
}

} // verus!
