//! Segments, the task state segment, and where the tables of the kernel lie.
use crate::hal::idt::get_idt_bounds;
use vstd::prelude::*;

verus! {

pub const KERNEL_CODE_SELECTOR: u16 = 0x08;

pub const KERNEL_DATA_SELECTOR: u16 = 0x10;

pub const USER_DATA_SELECTOR: u16 = 0x18 | 3;

pub const USER_CODE_SELECTOR: u16 = 0x20 | 3;

pub const TSS_SELECTOR: u16 = 0x28;

/// Bytes of a task state segment.
pub const TSS_SIZE: u64 = 104;

/// Bytes of the descriptor table.
pub const GDT_SIZE: u64 = 56;

/// Bytes of the stack for double faults.
pub const DOUBLE_FAULT_STACK_SIZE: u64 = 16_384;

/// Where the kernel is mapped.
pub const KERNEL_VIRT_BASE: u64 = 0xFFFF_FFFF_8000_0000;

/// The task state segment: the stacks that the processor changes to.
#[derive(Debug, Clone, Copy, PartialEq, Eq, Structural)]
pub struct TaskStateSegment {
    pub reserved_0: u32,
    pub rsp0: u64,
    pub rsp1: u64,
    pub rsp2: u64,
    pub reserved_1: u64,
    pub ist1: u64,
    pub ist2: u64,
    pub ist3: u64,
    pub ist4: u64,
    pub ist5: u64,
    pub ist6: u64,
    pub ist7: u64,
    pub reserved_2: u64,
    pub reserved_3: u16,
    pub iomap_base: u16,
}

/// A task state segment of zeros.
pub open spec fn zeroed_tss() -> TaskStateSegment {
    TaskStateSegment {
        reserved_0: 0,
        rsp0: 0,
        rsp1: 0,
        rsp2: 0,
        reserved_1: 0,
        ist1: 0,
        ist2: 0,
        ist3: 0,
        ist4: 0,
        ist5: 0,
        ist6: 0,
        ist7: 0,
        reserved_2: 0,
        reserved_3: 0,
        iomap_base: 0,
    }
}

impl TaskStateSegment {
    pub fn zeroed() -> (r: Self)
        ensures
            r == zeroed_tss(),
    {
        TaskStateSegment {
            reserved_0: 0,
            rsp0: 0,
            rsp1: 0,
            rsp2: 0,
            reserved_1: 0,
            ist1: 0,
            ist2: 0,
            ist3: 0,
            ist4: 0,
            ist5: 0,
            ist6: 0,
            ist7: 0,
            reserved_2: 0,
            reserved_3: 0,
            iomap_base: 0,
        }
    }
}

/// The addresses from `start` up to `end`.
#[derive(Debug, Clone, Copy)]
pub struct MemoryRange {
    pub name: &'static str,
    pub start: u64,
    pub end: u64,
}

impl MemoryRange {
    pub open spec fn contains(&self, x: int) -> bool {
        self.start <= x < self.end
    }

    /// The ranges lie apart from each other, or one of them is empty.
    pub open spec fn disjoint(&self, other: &MemoryRange) -> bool {
        ||| self.end <= other.start
        ||| other.end <= self.start
        ||| self.end <= self.start
        ||| other.end <= other.start
    }

    pub fn new(name: &'static str, start: u64, end: u64) -> (r: Self)
        ensures
            r == (MemoryRange { name, start, end }),
    {
        MemoryRange { name, start, end }
    }

    pub fn size(&self) -> (r: u64)
        ensures
            r == (if self.end > self.start {
                self.end - self.start
            } else {
                0
            }),
    {
        self.end.saturating_sub(self.start)
    }

    /// Whether some address lies in both ranges.
    pub fn overlaps(&self, other: &MemoryRange) -> (r: bool)
        ensures
            r == !self.disjoint(other),
    {
        let max_start: u64 = if self.start > other.start {
            self.start
        } else {
            other.start
        };
        let min_end: u64 = if self.end < other.end {
            self.end
        } else {
            other.end
        };
        max_start < min_end
    }
}

/// The physical address behind an address in the image of the kernel.
pub open spec fn phys_of(vaddr: u64) -> int {
    if vaddr >= KERNEL_VIRT_BASE {
        vaddr - KERNEL_VIRT_BASE
    } else {
        vaddr as int
    }
}

pub fn virt_to_phys(vaddr: u64) -> (r: u64)
    ensures
        r == phys_of(vaddr),
{
    if vaddr >= KERNEL_VIRT_BASE {
        vaddr - KERNEL_VIRT_BASE
    } else {
        vaddr
    }
}

/// What the processor is told of the descriptor table.
#[derive(Debug, Clone, Copy, PartialEq, Eq, Structural)]
pub struct GdtDescriptor {
    pub limit: u16,
    pub base: u64,
}

/// Where the linker and the kernel put things.
#[derive(Debug, Clone, Copy, PartialEq, Eq, Structural)]
pub struct KernelLayout {
    pub kernel_start: u64,
    pub bss_start: u64,
    pub bss_end: u64,
    pub pmm_meta_start: u64,
    pub pmm_meta_end: u64,
    pub page_tables_start: u64,
    pub page_tables_end: u64,
    pub stack_guard_start: u64,
    pub stack_guard_end: u64,
    pub stack_start: u64,
    pub stack_end: u64,
    pub double_fault_stack: u64,
    pub gdt: u64,
    pub tss: u64,
    pub idt: u64,
}

impl KernelLayout {
    /// The tables end before the addresses do.
    pub open spec fn fits(&self) -> bool {
        &&& phys_of(self.double_fault_stack) + DOUBLE_FAULT_STACK_SIZE <= u64::MAX
        &&& phys_of(self.gdt) + GDT_SIZE <= u64::MAX
        &&& phys_of(self.tss) + TSS_SIZE <= u64::MAX
        &&& self.idt + 4096 <= u64::MAX
    }
}

/// A range of physical memory, given by addresses of the kernel.
pub open spec fn is_phys_range(r: MemoryRange, start: u64, end: u64) -> bool {
    r.start == phys_of(start) && r.end == phys_of(end)
}

pub fn get_kernel_image_range(l: &KernelLayout) -> (r: MemoryRange)
    ensures
        is_phys_range(r, l.kernel_start, l.bss_start),
        r.name@ == "Kernel Image (Text/Data)"@,
{
    MemoryRange::new(
        "Kernel Image (Text/Data)",
        virt_to_phys(l.kernel_start),
        virt_to_phys(l.bss_start),
    )
}

pub fn get_kernel_bss_range(l: &KernelLayout) -> (r: MemoryRange)
    ensures
        is_phys_range(r, l.bss_start, l.bss_end),
        r.name@ == "Kernel BSS Storage"@,
{
    MemoryRange::new("Kernel BSS Storage", virt_to_phys(l.bss_start), virt_to_phys(l.bss_end))
}

pub fn get_pmm_meta_section_range(l: &KernelLayout) -> (r: MemoryRange)
    ensures
        is_phys_range(r, l.pmm_meta_start, l.pmm_meta_end),
        r.name@ == "PMM Bitmap Metadata Section"@,
{
    MemoryRange::new(
        "PMM Bitmap Metadata Section",
        virt_to_phys(l.pmm_meta_start),
        virt_to_phys(l.pmm_meta_end),
    )
}

pub fn get_page_tables_range(l: &KernelLayout) -> (r: MemoryRange)
    ensures
        is_phys_range(r, l.page_tables_start, l.page_tables_end),
        r.name@ == "Early Page Tables"@,
{
    MemoryRange::new(
        "Early Page Tables",
        virt_to_phys(l.page_tables_start),
        virt_to_phys(l.page_tables_end),
    )
}

pub fn get_stack_guard_range(l: &KernelLayout) -> (r: MemoryRange)
    ensures
        is_phys_range(r, l.stack_guard_start, l.stack_guard_end),
        r.name@ == "Stack Guard Page"@,
{
    MemoryRange::new(
        "Stack Guard Page",
        virt_to_phys(l.stack_guard_start),
        virt_to_phys(l.stack_guard_end),
    )
}

pub fn get_kernel_stack_range(l: &KernelLayout) -> (r: MemoryRange)
    ensures
        is_phys_range(r, l.stack_start, l.stack_end),
        r.name@ == "Normal Kernel Stack"@,
{
    MemoryRange::new(
        "Normal Kernel Stack",
        virt_to_phys(l.stack_start),
        virt_to_phys(l.stack_end),
    )
}

pub fn get_ist1_stack_range(l: &KernelLayout) -> (r: MemoryRange)
    requires
        l.fits(),
    ensures
        r.start == phys_of(l.double_fault_stack),
        r.end == r.start + DOUBLE_FAULT_STACK_SIZE,
        r.name@ == "IST1 Double-Fault Stack"@,
{
    let start: u64 = virt_to_phys(l.double_fault_stack);
    MemoryRange::new("IST1 Double-Fault Stack", start, start + DOUBLE_FAULT_STACK_SIZE)
}

pub fn get_gdt_range(l: &KernelLayout) -> (r: MemoryRange)
    requires
        l.fits(),
    ensures
        r.start == phys_of(l.gdt),
        r.end == r.start + GDT_SIZE,
        r.name@ == "GDT Table"@,
{
    let start: u64 = virt_to_phys(l.gdt);
    MemoryRange::new("GDT Table", start, start + GDT_SIZE)
}

pub fn get_tss_range(l: &KernelLayout) -> (r: MemoryRange)
    requires
        l.fits(),
    ensures
        r.start == phys_of(l.tss),
        r.end == r.start + TSS_SIZE,
        r.name@ == "TSS Structure"@,
{
    let start: u64 = virt_to_phys(l.tss);
    MemoryRange::new("TSS Structure", start, start + TSS_SIZE)
}

pub fn get_idt_range(l: &KernelLayout) -> (r: MemoryRange)
    requires
        l.fits(),
    ensures
        is_phys_range(r, l.idt, (l.idt + 4096) as u64),
        r.name@ == "IDT Table (256 Descriptors)"@,
{
    let (start, end) = get_idt_bounds(l.idt);
    MemoryRange::new("IDT Table (256 Descriptors)", virt_to_phys(start), virt_to_phys(end))
}

/// The ranges that nothing else may touch: the image, the stack, the early page tables, the stack
/// for double faults, and the tables of the processor.
pub open spec fn are_critical_ranges(l: &KernelLayout, r: Seq<MemoryRange>) -> bool {
    &&& r.len() == 7
    &&& is_phys_range(r[0], l.kernel_start, l.bss_start)
    &&& is_phys_range(r[1], l.stack_start, l.stack_end)
    &&& is_phys_range(r[2], l.page_tables_start, l.page_tables_end)
    &&& r[3].start == phys_of(l.double_fault_stack)
    &&& r[3].end == r[3].start + DOUBLE_FAULT_STACK_SIZE
    &&& r[4].start == phys_of(l.gdt)
    &&& r[4].end == r[4].start + GDT_SIZE
    &&& r[5].start == phys_of(l.tss)
    &&& r[5].end == r[5].start + TSS_SIZE
    &&& is_phys_range(r[6], l.idt, (l.idt + 4096) as u64)
    &&& r[0].name@ == "Kernel Image (Text/Data)"@
    &&& r[1].name@ == "Normal Kernel Stack"@
    &&& r[2].name@ == "Early Page Tables"@
    &&& r[3].name@ == "IST1 Double-Fault Stack"@
    &&& r[4].name@ == "GDT Table"@
    &&& r[5].name@ == "TSS Structure"@
    &&& r[6].name@ == "IDT Table (256 Descriptors)"@
}

pub fn get_all_critical_ranges(l: &KernelLayout) -> (r: [MemoryRange; 7])
    requires
        l.fits(),
    ensures
        are_critical_ranges(l, r@),
{
    [
        get_kernel_image_range(l),
        get_kernel_stack_range(l),
        get_page_tables_range(l),
        get_ist1_stack_range(l),
        get_gdt_range(l),
        get_tss_range(l),
        get_idt_range(l),
    ]
}

/// No two ranges share an address.
pub open spec fn all_disjoint(r: Seq<MemoryRange>) -> bool {
    forall|i: int, j: int| #![trigger r[i], r[j]]
        0 <= i < j < r.len() ==> r[i].disjoint(&r[j])
}

/// Whether no two ranges overlap. Each must hold an address.
pub fn verify_critical_memory_disjointness(ranges: &[MemoryRange]) -> (ok: bool)
    requires
        forall|i: int| 0 <= i < ranges@.len() ==> (#[trigger] ranges@[i]).start < ranges@[i].end,
    ensures
        ok == all_disjoint(ranges@),
{
    let mut i: usize = 0;
    while i < ranges.len()
        invariant
            i <= ranges@.len(),
            forall|a: int, b: int| #![trigger ranges@[a], ranges@[b]]
                0 <= a < i && a < b < ranges@.len() ==> ranges@[a].disjoint(&ranges@[b]),
        decreases ranges@.len() - i,
    {
        let mut j: usize = i + 1;
        while j < ranges.len()
            invariant
                i < j <= ranges@.len(),
                i < ranges@.len(),
                forall|b: int|
                    i < b < j ==> ranges@[i as int].disjoint(&ranges@[b]),
            decreases ranges@.len() - j,
        {
            if ranges[i].overlaps(&ranges[j]) {
                assert(!ranges@[i as int].disjoint(&ranges@[j as int]));
                return false;
            }
            j = j + 1;
        }
        i = i + 1;
    }
    true
}

/// A range lies in another.
pub open spec fn inside(r: &MemoryRange, outer: &MemoryRange) -> bool {
    r.start >= outer.start && r.end <= outer.end
}

/// The sections of the image, as they have to lie: apart from each other, the guard page directly
/// below the stack, with the right sizes, and the tables of the processor in the storage that is
/// zeroed at the start.
pub open spec fn sections_ok(
    image: &MemoryRange,
    bss: &MemoryRange,
    meta: &MemoryRange,
    tables: &MemoryRange,
    guard: &MemoryRange,
    stack: &MemoryRange,
) -> bool {
    &&& bss.disjoint(stack)
    &&& bss.disjoint(guard)
    &&& bss.disjoint(tables)
    &&& bss.disjoint(meta)
    &&& guard.disjoint(stack)
    &&& guard.end == stack.start
    &&& guard.start % 4096 == 0
    &&& guard.end % 4096 == 0
    &&& guard.end - guard.start == 4096
    &&& stack.start % 4096 == 0
    &&& stack.end % 4096 == 0
    &&& stack.end - stack.start == 65536
    &&& tables.end - tables.start == 16384
    &&& meta.end - meta.start == 16384
    &&& image.disjoint(bss)
    &&& image.disjoint(meta)
    &&& image.disjoint(tables)
    &&& image.disjoint(guard)
    &&& image.disjoint(stack)
    &&& meta.disjoint(tables)
    &&& tables.disjoint(guard)
    &&& tables.disjoint(stack)
}

/// The globals lie in the zeroed storage, apart from each other.
pub open spec fn globals_ok(bss: &MemoryRange, globals: Seq<MemoryRange>) -> bool {
    &&& forall|i: int| 0 <= i < globals.len() ==> inside(&globals[i], bss)
    &&& all_disjoint(globals)
}

fn check_sections(
    image: &MemoryRange,
    bss: &MemoryRange,
    meta: &MemoryRange,
    tables: &MemoryRange,
    guard: &MemoryRange,
    stack: &MemoryRange,
) -> (ok: bool)
    ensures
        ok == sections_ok(image, bss, meta, tables, guard, stack),
{
    let apart: bool = !bss.overlaps(stack) && !bss.overlaps(guard) && !bss.overlaps(tables)
        && !bss.overlaps(meta) && !guard.overlaps(stack);
    let sizes: bool = guard.end == stack.start && guard.start % 4096 == 0 && guard.end % 4096 == 0
        && guard.size() == 4096 && stack.start % 4096 == 0 && stack.end % 4096 == 0
        && stack.size() == 65536 && tables.size() == 16384 && meta.size() == 16384;
    let sequence: bool = !image.overlaps(bss) && !image.overlaps(meta) && !image.overlaps(tables)
        && !image.overlaps(guard) && !image.overlaps(stack) && !meta.overlaps(tables)
        && !tables.overlaps(guard) && !tables.overlaps(stack);
    apart && sizes && sequence
}

fn check_globals(bss: &MemoryRange, globals: &[MemoryRange; 4]) -> (ok: bool)
    ensures
        ok == globals_ok(bss, globals@),
{
    let mut i: usize = 0;
    while i < 4
        invariant
            i <= 4,
            forall|k: int| 0 <= k < i ==> inside(&globals@[k], bss),
            forall|a: int, b: int| #![trigger globals@[a], globals@[b]]
                0 <= a < i && a < b < 4 ==> globals@[a].disjoint(&globals@[b]),
        decreases 4 - i,
    {
        if !(globals[i].start >= bss.start && globals[i].end <= bss.end) {
            assert(!inside(&globals@[i as int], bss));
            return false;
        }
        let mut j: usize = i + 1;
        while j < 4
            invariant
                i < j <= 4,
                i < 4,
                forall|b: int| i < b < j ==> globals@[i as int].disjoint(&globals@[b]),
            decreases 4 - j,
        {
            if globals[i].overlaps(&globals[j]) {
                assert(!globals@[i as int].disjoint(&globals@[j as int]));
                return false;
            }
            j = j + 1;
        }
        i = i + 1;
    }
    true
}

/// The physical range between two addresses of the kernel.
pub open spec fn range_between(start: u64, end: u64) -> MemoryRange {
    MemoryRange { name: "", start: phys_of(start) as u64, end: phys_of(end) as u64 }
}

/// The physical range of something at an address of the kernel.
pub open spec fn range_at(start: u64, size: u64) -> MemoryRange {
    MemoryRange { name: "", start: phys_of(start) as u64, end: (phys_of(start) + size) as u64 }
}

/// The image of the kernel lies as it has to.
pub open spec fn layout_ok(l: &KernelLayout) -> bool {
    let bss = range_between(l.bss_start, l.bss_end);
    &&& sections_ok(
        &range_between(l.kernel_start, l.bss_start),
        &bss,
        &range_between(l.pmm_meta_start, l.pmm_meta_end),
        &range_between(l.page_tables_start, l.page_tables_end),
        &range_between(l.stack_guard_start, l.stack_guard_end),
        &range_between(l.stack_start, l.stack_end),
    )
    &&& globals_ok(
        &bss,
        seq![
            range_between(l.idt, (l.idt + 4096) as u64),
            range_at(l.double_fault_stack, DOUBLE_FAULT_STACK_SIZE),
            range_at(l.gdt, GDT_SIZE),
            range_at(l.tss, TSS_SIZE),
        ],
    )
}

/// Whether the image of the kernel lies as it has to.
pub fn verify_stage2fa_invariants(l: &KernelLayout) -> (ok: bool)
    requires
        l.fits(),
    ensures
        ok == layout_ok(l),
{
    let image = get_kernel_image_range(l);
    let bss = get_kernel_bss_range(l);
    let meta = get_pmm_meta_section_range(l);
    let tables = get_page_tables_range(l);
    let guard = get_stack_guard_range(l);
    let stack = get_kernel_stack_range(l);
    let globals = [
        get_idt_range(l),
        get_ist1_stack_range(l),
        get_gdt_range(l),
        get_tss_range(l),
    ];
    let a: bool = check_sections(&image, &bss, &meta, &tables, &guard, &stack);
    let b: bool = check_globals(&bss, &globals);
    proof {
        let want = seq![
            range_between(l.idt, (l.idt + 4096) as u64),
            range_at(l.double_fault_stack, DOUBLE_FAULT_STACK_SIZE),
            range_at(l.gdt, GDT_SIZE),
            range_at(l.tss, TSS_SIZE),
        ];
        assert forall|i: int| 0 <= i < 4 implies (#[trigger] globals@[i]).start == want[i].start
            && globals@[i].end == want[i].end by {}
        lemma_globals_by_address(&bss, &range_between(l.bss_start, l.bss_end), globals@, want);
    }
    a && b
}

/// Whether globals lie right depends on their addresses alone.
proof fn lemma_globals_by_address(
    a: &MemoryRange,
    b: &MemoryRange,
    x: Seq<MemoryRange>,
    y: Seq<MemoryRange>,
)
    requires
        a.start == b.start,
        a.end == b.end,
        x.len() == y.len(),
        forall|i: int|
            0 <= i < x.len() ==> (#[trigger] x[i]).start == y[i].start && x[i].end == y[i].end,
    ensures
        globals_ok(a, x) == globals_ok(b, y),
{
    if globals_ok(a, x) {
        assert forall|i: int| 0 <= i < y.len() implies inside(&y[i], b) by {
            assert(inside(&x[i], a));
        }
        assert forall|i: int, j: int| #![trigger y[i], y[j]] 0 <= i < j < y.len() implies y[i].disjoint(&y[j]) by {
            assert(x[i].disjoint(&x[j]));
        }
    }
    if globals_ok(b, y) {
        assert forall|i: int| 0 <= i < x.len() implies inside(&x[i], a) by {
            assert(inside(&y[i], b));
        }
        assert forall|i: int, j: int| #![trigger x[i], x[j]] 0 <= i < j < x.len() implies x[i].disjoint(&x[j]) by {
            assert(y[i].disjoint(&y[j]));
        }
    }
}

/// Ranges that lie apart share no address, and ranges that share none lie apart.
pub proof fn law_ranges_apart_share_nothing(a: MemoryRange, b: MemoryRange)
    ensures
        a.disjoint(&b) <==> forall|x: int| !(#[trigger] a.contains(x) && b.contains(x)),
        a.disjoint(&b) == b.disjoint(&a),
{
    if !a.disjoint(&b) {
        let x = if a.start > b.start {
            a.start as int
        } else {
            b.start as int
        };
        assert(a.contains(x) && b.contains(x));
    }
}

/// The tables that the processor is given.
#[derive(Debug, Clone, Copy)]
pub struct SegmentTables {
    pub tss: TaskStateSegment,
    pub gdt: [u64; 7],
    pub descriptor: GdtDescriptor,
}

/// The low half of the descriptor of a task state segment.
pub open spec fn tss_descriptor_low(base: int, limit: int) -> int {
    limit % 0x1_0000 + 0x1_0000 * (base % 0x100_0000) + 0x100_0000_0000 * 0x89
        + 0x1_0000_0000_0000 * (limit / 0x1_0000 % 0x10) + 0x100_0000_0000_0000 * (base
        / 0x100_0000 % 0x100)
}

/// The segment tables of a kernel.
pub open spec fn are_tables_of(l: &KernelLayout, r: &SegmentTables) -> bool {
    &&& r.tss == (TaskStateSegment {
        rsp0: phys_of(l.stack_end) as u64,
        ist1: (phys_of(l.double_fault_stack) + DOUBLE_FAULT_STACK_SIZE) as u64,
        iomap_base: TSS_SIZE as u16,
        ..zeroed_tss()
    })
    &&& r.gdt@[0] == 0
    &&& r.gdt@[1] == 0x00AF_9A00_0000_FFFF
    &&& r.gdt@[2] == 0x00CF_9200_0000_FFFF
    &&& r.gdt@[3] == 0x00CF_F200_0000_FFFF
    &&& r.gdt@[4] == 0x00AF_FA00_0000_FFFF
    &&& r.gdt@[5] == tss_descriptor_low(l.tss as int, TSS_SIZE - 1)
    &&& r.gdt@[6] == l.tss / 0x1_0000_0000
    &&& r.descriptor == (GdtDescriptor { limit: (GDT_SIZE - 1) as u16, base: l.gdt })
}

/// Fills the segment tables: flat segments for the kernel and for users, and a task state segment
/// with the stacks for the kernel and for double faults.
pub fn init_gdt(l: &KernelLayout) -> (r: SegmentTables)
    requires
        l.fits(),
    ensures
        are_tables_of(l, &r),
{
    let mut tss = TaskStateSegment::zeroed();
    tss.rsp0 = get_kernel_stack_range(l).end;
    tss.ist1 = get_ist1_stack_range(l).end;
    tss.iomap_base = TSS_SIZE as u16;
    let limit: u64 = TSS_SIZE - 1;
    let base: u64 = l.tss;
    let low: u64 = limit % 0x1_0000 + 0x1_0000 * (base % 0x100_0000) + 0x100_0000_0000 * 0x89
        + 0x1_0000_0000_0000 * (limit / 0x1_0000 % 0x10) + 0x100_0000_0000_0000 * (base
        / 0x100_0000 % 0x100);
    SegmentTables {
        tss,
        gdt: [
            0,
            0x00AF_9A00_0000_FFFF,
            0x00CF_9200_0000_FFFF,
            0x00CF_F200_0000_FFFF,
            0x00AF_FA00_0000_FFFF,
            low,
            base / 0x1_0000_0000,
        ],
        descriptor: GdtDescriptor { limit: (GDT_SIZE - 1) as u16, base: l.gdt },
    }
}

/// The processor finds the task state segment where it is: the fields of its descriptor, put
/// together, give its address and its last byte.
pub proof fn law_tss_is_found(base: int, limit: int)
    requires
        0 <= base <= u64::MAX,
        0 <= limit < 0x10_0000,
    ensures
        ({
            let low = tss_descriptor_low(base, limit);
            let high = base / 0x1_0000_0000;
            &&& 0 <= low <= u64::MAX
            &&& low % 0x1_0000 + 0x1_0000 * (low / 0x1_0000_0000_0000 % 0x10) == limit
            &&& low / 0x100_0000_0000 % 0x100 == 0x89
            &&& low / 0x1_0000 % 0x100_0000 + 0x100_0000 * (low / 0x100_0000_0000_0000)
                + 0x1_0000_0000 * high == base
        }),
{
    let low = tss_descriptor_low(base, limit);
    let a = limit % 0x1_0000;
    let b = base % 0x100_0000;
    let c = limit / 0x1_0000;
    let d = base / 0x100_0000 % 0x100;
    lemma_tss_fields(low, a, b, c, d);
    assert(base == b + 0x100_0000 * (base / 0x100_0000));
    assert(base / 0x100_0000 == d + 0x100 * (base / 0x100_0000 / 0x100));
    assert(base / 0x100_0000 / 0x100 == base / 0x1_0000_0000);
}

/// The fields of a descriptor can be read out of it.
#[verifier::spinoff_prover]
proof fn lemma_tss_fields(low: int, a: int, b: int, c: int, d: int)
    requires
        0 <= a < 0x1_0000,
        0 <= b < 0x100_0000,
        0 <= c < 0x10,
        0 <= d < 0x100,
        low == a + 0x1_0000 * b + 0x100_0000_0000 * 0x89 + 0x1_0000_0000_0000 * c
            + 0x100_0000_0000_0000 * d,
    ensures
        0 <= low <= u64::MAX,
        low % 0x1_0000 == a,
        low / 0x1_0000 % 0x100_0000 == b,
        low / 0x100_0000_0000 % 0x100 == 0x89,
        low / 0x1_0000_0000_0000 % 0x10 == c,
        low / 0x100_0000_0000_0000 == d,
{
    let g = c + 0x100 * d;
    let e = 0x89 + 0x100 * g;
    let f = b + 0x100_0000 * e;
    assert(low == a + 0x1_0000 * f);
    assert(low % 0x1_0000 == a && low / 0x1_0000 == f);
    assert(f % 0x100_0000 == b && f / 0x100_0000 == e);
    assert(low == (a + 0x1_0000 * b) + 0x100_0000_0000 * e);
    assert(low / 0x100_0000_0000 == e);
    assert(e % 0x100 == 0x89 && e / 0x100 == g);
    assert(low == (a + 0x1_0000 * b + 0x100_0000_0000 * 0x89) + 0x1_0000_0000_0000 * g);
    assert(low / 0x1_0000_0000_0000 == g);
    assert(g % 0x10 == c) by {
        assert(g == c + 0x10 * (0x10 * d));
    }
    assert(low == (a + 0x1_0000 * b + 0x100_0000_0000 * 0x89 + 0x1_0000_0000_0000 * c)
        + 0x100_0000_0000_0000 * d);
}

/// The stack for double faults is what the task state segment and the interrupt table say, aligned,
/// and apart from everything else that is critical.
pub open spec fn double_fault_ok(tss: TaskStateSegment, df_ist: u8, ranges: Seq<MemoryRange>) -> bool {
    &&& tss.ist1 != 0
    &&& tss.ist1 % 16 == 0
    &&& df_ist == 1
    &&& tss.ist1 == ranges[3].end
    &&& forall|i: int|
        0 <= i < ranges.len() && i != 3 ==> ranges[3].disjoint(&ranges[i])
}

/// Whether double faults get a stack of their own.
pub fn verify_double_fault_ist_structure(
    tss: &TaskStateSegment,
    df_ist: u8,
    ranges: &[MemoryRange; 7],
) -> (ok: bool)
    ensures
        ok == double_fault_ok(*tss, df_ist, ranges@),
{
    if tss.ist1 == 0 || tss.ist1 % 16 != 0 || df_ist != 1 || tss.ist1 != ranges[3].end {
        return false;
    }
    let mut i: usize = 0;
    while i < 7
        invariant
            i <= 7,
            forall|k: int|
                0 <= k < i && k != 3 ==> ranges@[3].disjoint(&ranges@[k]),
        decreases 7 - i,
    {
        if i != 3 && ranges[3].overlaps(&ranges[i]) {
            assert(!ranges@[3].disjoint(&ranges@[i as int]));
            return false;
        }
        i = i + 1;
    }
    true
}

} // verus!
