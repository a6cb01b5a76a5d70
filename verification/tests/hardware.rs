use zero_kernel::bench::{rdtsc, run_benchmarks};
use zero_kernel::hal::cpu::{
    enable_nxe, enable_write_protect, join_halves, split_halves, CpuDiagnostics,
};
use zero_kernel::hal::gdt::{
    get_all_critical_ranges, get_idt_range, init_gdt, verify_critical_memory_disjointness,
    verify_double_fault_ist_structure, verify_stage2fa_invariants, virt_to_phys, KernelLayout,
    MemoryRange, TaskStateSegment, KERNEL_CODE_SELECTOR, KERNEL_VIRT_BASE, TSS_SELECTOR,
    USER_CODE_SELECTOR, USER_DATA_SELECTOR,
};
use zero_kernel::hal::idt::{
    exception_dispatch, expect_fault, fault_was_caught, get_exception_name, get_vector_ist,
    get_vector_present, init_idt, last_fault_result, load_current_cpu_idt, page_fault_cause,
    Disposition, ExceptionFrame, FaultTraps, HardwareHandlers, Idt, IdtEntry,
};
use zero_kernel::hal::lapic::{
    calibrate_lapic_timer_pit2, configure_lapic_timer, init_lapic_mmio, lapic_eoi,
    lapic_reg_address, mask_lapic_timer, pit2_gate_off, pit2_gate_on, pit2_is_done,
    plan_lapic_mmio, rearm_lapic_timer, registers_survived, GprSentinelResults, InterruptFrame,
    LAPIC_EOI_REG, LAPIC_LVT_TIMER_REG, LAPIC_VIRT_BASE,
};
use zero_kernel::hal::serial::{SerialPort, COM1_BASE};
use zero_kernel::hal::timer::{
    init_pic, init_pit, send_eoi, ticks, timer_interrupt_handler, uptime_ms, TimerAction,
    TimerState,
};

fn layout() -> KernelLayout {
    let v = KERNEL_VIRT_BASE;
    KernelLayout {
        kernel_start: v + 0x10_0000,
        bss_start: v + 0x20_0000,
        bss_end: v + 0x30_0000,
        pmm_meta_start: v + 0x30_0000,
        pmm_meta_end: v + 0x30_4000,
        page_tables_start: v + 0x30_4000,
        page_tables_end: v + 0x30_8000,
        stack_guard_start: v + 0x30_8000,
        stack_guard_end: v + 0x30_9000,
        stack_start: v + 0x30_9000,
        stack_end: v + 0x31_9000,
        double_fault_stack: v + 0x20_4000,
        gdt: v + 0x20_2000,
        tss: v + 0x20_3000,
        idt: v + 0x20_0000,
    }
}

#[test]
fn selectors() {
    assert_eq!(KERNEL_CODE_SELECTOR, 0x08);
    assert_eq!(USER_DATA_SELECTOR, 0x1B);
    assert_eq!(USER_CODE_SELECTOR, 0x23);
    assert_eq!(TSS_SELECTOR, 0x28);
}

#[test]
fn ranges_overlap() {
    let a = MemoryRange::new("a", 10, 20);
    assert_eq!(a.size(), 10);
    assert!(a.overlaps(&MemoryRange::new("b", 19, 30)));
    assert!(!a.overlaps(&MemoryRange::new("b", 20, 30)));
    assert!(!a.overlaps(&MemoryRange::new("b", 15, 15)));
    assert_eq!(MemoryRange::new("b", 20, 10).size(), 0);
    assert_eq!(virt_to_phys(KERNEL_VIRT_BASE + 5), 5);
    assert_eq!(virt_to_phys(5), 5);
}

#[test]
fn kernel_layout_is_verified() {
    let l = layout();
    assert!(verify_stage2fa_invariants(&l));
    let ranges = get_all_critical_ranges(&l);
    let names: Vec<&str> = ranges.iter().map(|r| r.name).collect();
    assert_eq!(
        names,
        vec![
            "Kernel Image (Text/Data)",
            "Normal Kernel Stack",
            "Early Page Tables",
            "IST1 Double-Fault Stack",
            "GDT Table",
            "TSS Structure",
            "IDT Table (256 Descriptors)",
        ]
    );
    assert!(verify_critical_memory_disjointness(&ranges));
    assert_eq!(get_idt_range(&l).size(), 4096);
    let mut bad = l;
    bad.gdt = l.tss;
    assert!(!verify_stage2fa_invariants(&bad));
    assert!(!verify_critical_memory_disjointness(&get_all_critical_ranges(&bad)));
    let mut gap = l;
    gap.stack_guard_start -= 0x1000;
    gap.stack_guard_end -= 0x1000;
    assert!(!verify_stage2fa_invariants(&gap));
}

#[test]
fn segment_tables_are_filled() {
    let l = layout();
    let t = init_gdt(&l);
    assert_eq!(t.tss.rsp0, 0x31_9000);
    assert_eq!(t.tss.ist1, 0x20_8000);
    assert_eq!(t.tss.iomap_base, 104);
    assert_eq!(t.gdt[1], 0x00AF_9A00_0000_FFFF);
    assert_eq!(t.gdt[4], 0x00AF_FA00_0000_FFFF);
    let base = l.tss;
    let limit = 103u64;
    let low = (limit & 0xFFFF)
        | ((base & 0xFFFF) << 16)
        | (((base >> 16) & 0xFF) << 32)
        | (0x89 << 40)
        | (((limit >> 16) & 0x0F) << 48)
        | (((base >> 24) & 0xFF) << 56);
    assert_eq!(t.gdt[5], low);
    assert_eq!(t.gdt[6], base >> 32);
    assert_eq!(t.descriptor.limit, 55);
    let ranges = get_all_critical_ranges(&l);
    assert!(verify_double_fault_ist_structure(&t.tss, 1, &ranges));
    assert!(!verify_double_fault_ist_structure(&t.tss, 0, &ranges));
    assert!(!verify_double_fault_ist_structure(&TaskStateSegment::zeroed(), 1, &ranges));
}

fn frame(vector: u64) -> ExceptionFrame {
    ExceptionFrame {
        r15: 0, r14: 0, r13: 0, r12: 0, r11: 0, r10: 0, r9: 0, r8: 0, rdi: 0, rsi: 0, rbp: 0,
        rbx: 0, rdx: 0, rcx: 0, rax: 0, vector, error_code: 2, rip: 0x1000, cs: 8, rflags: 2,
        rsp: 0x8000, ss: 16,
    }
}

#[test]
fn interrupt_table_is_filled() {
    let mut t = Idt::new();
    assert!(!get_vector_present(&t, 0));
    let isrs: [u64; 32] = core::array::from_fn(|i| 0xFFFF_FFFF_8010_0000 + 16 * i as u64);
    let hw = HardwareHandlers { timer: 1, stop: 2, reschedule: 3, tlb: 4, spurious: 5 };
    init_idt(&mut t, &isrs, &hw);
    for v in 0..32 {
        assert!(get_vector_present(&t, v));
        assert_eq!(get_vector_ist(&t, v), if v == 8 { 1 } else { 0 });
        let e: IdtEntry = t.entries[v];
        let handler =
            e.offset_low as u64 | (e.offset_mid as u64) << 16 | (e.offset_high as u64) << 32;
        assert_eq!(handler, isrs[v]);
        assert_eq!(e.selector, KERNEL_CODE_SELECTOR);
    }
    for v in [32, 251, 252, 253, 255] {
        assert!(get_vector_present(&t, v));
    }
    assert!(!get_vector_present(&t, 33));
    assert!(!get_vector_present(&t, 256));
    assert_eq!(get_vector_ist(&t, 300), 0);
    assert_eq!(t.entries[32].offset_low, 1);
    assert_eq!(load_current_cpu_idt(77).limit, 4095);
}

#[test]
fn exceptions_are_named() {
    assert_eq!(get_exception_name(0), "Divide Error (#DE)");
    assert_eq!(get_exception_name(14), "Page Fault (#PF)");
    assert_eq!(get_exception_name(30), "Security Exception (#SX)");
    assert_eq!(get_exception_name(9), "Reserved / Unknown Exception");
}

#[test]
fn breakpoint_goes_on() {
    let mut t = FaultTraps::new();
    let mut f = frame(3);
    assert_eq!(exception_dispatch(&mut t, &mut f, 0), Disposition::Breakpoint);
    assert_eq!(f, frame(3));
}

#[test]
fn invalid_opcode_and_divide_error_are_intercepted() {
    for vector in [6, 0] {
        let mut t = FaultTraps::new();
        expect_fault(&mut t, vector, 0x4242, None);
        let mut f = frame(vector);
        assert_eq!(exception_dispatch(&mut t, &mut f, 0), Disposition::Diverted);
        assert_eq!(f.rip, 0x4242);
        assert!(fault_was_caught(last_fault_result(&t), vector, None));
        assert_eq!(t.last.unwrap().fault_rip, 0x1000);
        let mut again = frame(vector);
        assert_eq!(exception_dispatch(&mut t, &mut again, 0), Disposition::Fatal);
    }
}

#[test]
fn page_fault_is_intercepted_at_its_page() {
    let mut t = FaultTraps::new();
    expect_fault(&mut t, 14, 0x4242, Some(0x6000_0000));
    let mut f = frame(14);
    assert_eq!(exception_dispatch(&mut t, &mut f, 0x7000_0000), Disposition::Fatal);
    assert!(!fault_was_caught(last_fault_result(&t), 14, Some(0x6000_0000)));
    assert_eq!(exception_dispatch(&mut t, &mut f, 0x6000_0FFF), Disposition::Diverted);
    assert!(fault_was_caught(last_fault_result(&t), 14, Some(0x6000_0000)));
    assert_eq!(t.last.unwrap().error_code, 2);
    let c = page_fault_cause(0b10110);
    assert!(!c.protection && c.write && c.user && !c.reserved_bit && c.instruction_fetch);
}

#[test]
fn registers_are_read() {
    let d = CpuDiagnostics::capture(0x1B, 0x8001_0011, 0x1000, 0x20, 0xD00, 0x202);
    assert_eq!(d.ring, 3);
    assert!(d.paging_enabled && d.pae_enabled && d.cr0_wp_enabled);
    assert!(d.lme_enabled && d.lma_active && d.interrupts_enabled);
    let e = CpuDiagnostics::capture(8, 0, 0, 0, 0, 0);
    assert!(!e.paging_enabled && !e.interrupts_enabled);
    assert_eq!(enable_write_protect(0x11), 0x1_0011);
    assert_eq!(enable_nxe(0x500), 0xD00);
    assert_eq!(join_halves(5, 7), 0x7_0000_0005);
    assert_eq!(split_halves(0x7_0000_0005), (5, 7));
    assert_eq!(rdtsc(1, 2), 0x2_0000_0001);
}

#[test]
fn cycles_are_differences() {
    let r = run_benchmarks(&[0, 5, 7, 10, 20, 50, 60, 61, 63, 100, 200]);
    assert_eq!((r.pmm_alloc_cycles, r.pmm_free_cycles), (5, 2));
    assert_eq!((r.vmm_map_cycles, r.vmm_unmap_cycles), (10, 30));
    assert_eq!((r.heap_alloc_cycles, r.heap_dealloc_cycles), (1, 2));
    assert_eq!(r.ipc_rendezvous_cycles, 100);
}

#[test]
fn serial_line_gets_carriage_returns() {
    let p = SerialPort::new(COM1_BASE);
    assert_eq!(p.write_str(b"a\nb\n"), b"a\r\nb\r\n".to_vec());
    assert_eq!(p.write_str(b""), Vec::<u8>::new());
    let setup = p.init();
    assert_eq!((setup[0].port, setup[0].value), (0x3F9, 0));
    assert_eq!((setup[6].port, setup[6].value), (0x3FC, 0x0B));
    assert_eq!(p.status_port(), 0x3FD);
    assert!(SerialPort::is_transmit_empty(0x20));
    assert!(!SerialPort::is_transmit_empty(0xDF));
    assert_eq!(p.send_byte(7).port, 0x3F8);
}

#[test]
fn timer_chips_are_set_up() {
    let pic = init_pic();
    assert_eq!((pic[2].port, pic[2].value), (0x21, 32));
    assert_eq!((pic[9].port, pic[9].value), (0xA1, 0xFF));
    assert_eq!(send_eoi(3).len(), 1);
    assert_eq!(send_eoi(8)[0].port, 0xA0);
    let pit = init_pit(100);
    assert_eq!(pit[1].value as u16 | (pit[2].value as u16) << 8, 11_931);
    let slow = init_pit(1);
    assert_eq!(
        slow[1].value as u32 | (slow[2].value as u32) << 8,
        1_193_182 % 65_536
    );
}

fn sentinels() -> InterruptFrame {
    let n = 0x1111_1111_1111_1111u64;
    InterruptFrame {
        rax: n, rcx: 2 * n, rdx: 3 * n, rbx: 4 * n, rbp: 5 * n, rsi: 6 * n, rdi: 7 * n, r8: 8 * n,
        r9: 9 * n, r10: 10 * n, r11: 11 * n, r12: 12 * n, r13: 13 * n, r14: 14 * n, r15: 15 * n,
        rip: 1, cs: 8, rflags: 2, rsp: 3, ss: 16,
    }
}

#[test]
fn ticks_are_counted_and_checked() {
    let mut t = TimerState::new();
    assert_eq!(timer_interrupt_handler(&mut t, &sentinels()), TimerAction::Preempt);
    assert_eq!(ticks(&t), 0);
    t.gpr_test_active = true;
    for i in 1..=10 {
        assert_eq!(
            timer_interrupt_handler(&mut t, &sentinels()),
            TimerAction::RegisterCheck { intact: true, done: i == 10 }
        );
    }
    assert_eq!(ticks(&t), 10);
    assert_eq!(uptime_ms(&t), 100);
    let mut f = sentinels();
    f.r12 = 0;
    assert_eq!(
        timer_interrupt_handler(&mut t, &f),
        TimerAction::RegisterCheck { intact: false, done: true }
    );
}

#[test]
fn local_controller_is_found() {
    let plan = plan_lapic_mmio(0xFEE0_0100);
    assert_eq!(plan.enable, Some(0xFEE0_0900));
    assert_eq!(plan.phys_base, 0xFEE0_0000);
    assert!(plan.flags.cache_disable && !plan.flags.user);
    assert_eq!(plan_lapic_mmio(0xFEE0_0900).enable, None);
    let info = init_lapic_mmio(0xFEE0_0900, 0x0300_0000, 0x0005_0014);
    assert!(info.is_bsp && info.global_enabled);
    assert_eq!(info.lapic_id, 3);
    assert_eq!(info.lapic_version, 0x14);
    assert_eq!(info.max_lvt_entries, 5);
    assert_eq!(lapic_reg_address(LAPIC_EOI_REG), LAPIC_VIRT_BASE + 0xB0);
    assert_eq!(lapic_eoi().value, 0);
}

#[test]
fn local_timer_is_set_up() {
    assert_eq!(calibrate_lapic_timer_pit2(u32::MAX), None);
    assert_eq!(calibrate_lapic_timer_pit2(u32::MAX - 62_500), Some(62_500));
    let w = configure_lapic_timer(62_500);
    assert_eq!((w[2].offset, w[2].value), (LAPIC_LVT_TIMER_REG, 0x2_0020));
    assert_eq!(w[3].value, 62_500);
    assert_eq!(rearm_lapic_timer(5)[3].value, 5);
    assert_eq!(mask_lapic_timer(0x2_0020).value, 0x3_0020);
    assert_eq!(pit2_gate_off(0xFF), 0xFC);
    assert_eq!(pit2_gate_on(0xFE), 0xFD);
    assert!(pit2_is_done(0x20));
    assert!(!pit2_is_done(0xDF));
}

#[test]
fn register_check_is_judged() {
    let n = 0x1111_1111_1111_1111u64;
    let r = GprSentinelResults {
        rax: n, rcx: 2 * n, rdx: 3 * n, rbx: 4 * n, rbp: 5 * n, rsi: 6 * n, rdi: 7 * n, r8: 8 * n,
        r9: 9 * n, r10: 10 * n, r11: 11 * n, r12: 12 * n, r13: 13 * n, r14: 14 * n, r15: 15 * n,
        rsp: 0, rip: 1, rflags: 2, loop_count: 9, rsp_matched: 1,
    };
    assert!(registers_survived(&r, 10));
    assert!(!registers_survived(&r, 9));
    let mut bad = r;
    bad.rsi = 0;
    assert!(!registers_survived(&bad, 10));
}
