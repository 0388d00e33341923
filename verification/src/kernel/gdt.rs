//! The kernel's own Global Descriptor Table and Task State Segment.
//!
//! In 64-bit long mode segmentation is mostly vestigial. What the GDT is
//! still needed for is a valid code selector, which the IDT's gates refer
//! to, and a TSS, which is the only way to give an exception handler its own
//! stack.

use vstd::prelude::*;

verus! {

/// Which Interrupt Stack Table slot the double-fault handler uses.
pub const DOUBLE_FAULT_IST_INDEX: u8 = 0;

/// Size of the dedicated fault stack, in bytes.
pub const FAULT_STACK_SIZE: u64 = 16384;

/// The architectural size of a 64-bit TSS.
pub const TSS_SIZE: u16 = 104;

/// Null, kernel code, kernel data, then the TSS descriptor, which takes two.
pub const GDT_ENTRIES: u16 = 5;

/// Selectors are byte offsets into the GDT. The low two bits are the
/// requested privilege level, which is 0 for everything here.
pub const KERNEL_CODE_SELECTOR: u16 = 8;

pub const KERNEL_DATA_SELECTOR: u16 = 16;

pub const TSS_SELECTOR: u16 = 24;

/// A data segment that can be written: bit 41.
pub const WRITABLE: u64 = 0x0000_0200_0000_0000;

/// A code segment: bit 43.
pub const EXECUTABLE: u64 = 0x0000_0800_0000_0000;

/// Set for code and data segments, clear for system segments like the TSS:
/// bit 44.
pub const DESCRIPTOR_TYPE: u64 = 0x0000_1000_0000_0000;

/// Bit 47.
pub const PRESENT: u64 = 0x0000_8000_0000_0000;

/// Set on the code segment; must be clear on data: bit 53.
pub const LONG_MODE: u64 = 0x0020_0000_0000_0000;

/// The 64-bit Task State Segment: the privilege stack table and the
/// interrupt stack table.
#[derive(Clone, Copy, Debug)]
pub struct TaskStateSegment {
    /// Stack pointers for privilege levels 0-2.
    pub privilege_stack_table: [u64; 3],
    /// The seven IST stack pointers.
    pub interrupt_stack_table: [u64; 7],
    /// Offset to the I/O permission bitmap. The size of the TSS means that
    /// there is none.
    pub iomap_base: u16,
}

impl TaskStateSegment {
    /// A segment without any stack.
    pub fn new() -> (tss: TaskStateSegment)
        ensures
            tss.privilege_stack_table@ == seq![0u64, 0, 0],
            tss.interrupt_stack_table@ == seq![0u64, 0, 0, 0, 0, 0, 0],
            tss.iomap_base == TSS_SIZE,
    {
        let tss = TaskStateSegment {
            privilege_stack_table: [0, 0, 0],
            interrupt_stack_table: [0, 0, 0, 0, 0, 0, 0],
            iomap_base: TSS_SIZE,
        };
        assert(tss.privilege_stack_table@ =~= seq![0u64, 0, 0]);
        assert(tss.interrupt_stack_table@ =~= seq![0u64, 0, 0, 0, 0, 0, 0]);
        tss
    }
}

/// Argument to `lgdt` and `lidt`.
#[derive(Clone, Copy, Debug, PartialEq, Eq, Structural)]
pub struct DescriptorTablePointer {
    pub limit: u16,
    pub base: u64,
}

/// The descriptor of a 64-bit TSS at `base`, as its two words: from the
/// lowest bit up, the low half of the limit, the low 24 bits of the base,
/// the type and the present bit, and the next 8 bits of the base; then the
/// high half of the base.
pub open spec fn tss_words(base: u64) -> (int, int) {
    (
        (TSS_SIZE - 1) + (base % 0x100_0000) * 0x1_0000 + 0b1001 * 0x100_0000_0000 + PRESENT + (base
            / 0x100_0000 % 0x100) * 0x100_0000_0000_0000,
        (base / 0x1_0000_0000) as int,
    )
}

/// Build the descriptor of the TSS at `base`.
///
/// A system-segment descriptor is 16 bytes: the usual 8, plus 8 more holding
/// the upper half of the 64-bit base address.
pub fn tss_descriptor(base: u64) -> (words: (u64, u64))
    ensures
        words.0 == tss_words(base).0,
        words.1 == tss_words(base).1,
{
    let limit: u64 = 103;
    let low: u64 = (limit & 0xffff) | ((base & 0xff_ffff) << 16) | 0x0000_0900_0000_0000
        | 0x0000_8000_0000_0000 | (((limit >> 16) & 0xf) << 48) | (((base >> 24) & 0xff) << 56);
    let high: u64 = base >> 32;
    assert((103u64 & 0xffff) | ((base & 0xff_ffff) << 16) | 0x0000_0900_0000_0000u64
        | 0x0000_8000_0000_0000u64 | (((103u64 >> 16) & 0xf) << 48) | (((base >> 24) & 0xff) << 56)
        == 103 + (base % 0x100_0000) * 0x1_0000 + 0b1001 * 0x100_0000_0000 + 0x0000_8000_0000_0000
        + (base / 0x100_0000 % 0x100) * 0x100_0000_0000_0000) by (bit_vector);
    assert(base >> 32 == base / 0x1_0000_0000) by (bit_vector);
    (low, high)
}

/// The base address that a TSS descriptor holds.
pub open spec fn descriptor_base(low: int, high: int) -> int {
    low / 0x1_0000 % 0x100_0000 + low / 0x100_0000_0000_0000 % 0x100 * 0x100_0000 + high
        * 0x1_0000_0000
}

/// The limit that a descriptor holds.
pub open spec fn descriptor_limit(low: int) -> int {
    low % 0x1_0000 + low / 0x1_0000_0000_0000 % 0x10 * 0x1_0000
}

/// The processor reads back from the descriptor the address and the limit
/// that went in.
pub proof fn the_descriptor_holds_the_segment(base: u64)
    ensures
        descriptor_base(tss_words(base).0, tss_words(base).1) == base,
        descriptor_limit(tss_words(base).0) == TSS_SIZE - 1,
        tss_words(base).0 / 0x100_0000_0000 % 0x10 == 0b1001,
        tss_words(base).0 / 0x8000_0000_0000 % 2 == 1,
        tss_words(base).0 / 0x1000_0000_0000 % 2 == 0,
{
    let a = base % 0x100_0000;
    let b = base / 0x100_0000 % 0x100;
    let c = base / 0x1_0000_0000;
    assert(base == a + b * 0x100_0000 + c * 0x1_0000_0000);
    let low = tss_words(base).0;
    assert(low == 103 + a * 0x1_0000 + 0x8900 * 0x1_0000_0000 + b * 0x100_0000_0000_0000);
}

/// The tables that take over from the firmware's.
pub struct Tables {
    pub tss: TaskStateSegment,
    pub gdt: [u64; 5],
    pub pointer: DescriptorTablePointer,
}

/// Build the GDT and the TSS for the addresses they will stand at.
///
/// The first IST slot gets the top of the fault stack. Stacks grow down, so
/// that is one past the end of it.
pub fn init(fault_stack: u64, tss_base: u64, gdt_base: u64) -> (tables: Tables)
    requires
        fault_stack + FAULT_STACK_SIZE <= u64::MAX,
    ensures
        tables.tss.privilege_stack_table@ == seq![0u64, 0, 0],
        tables.tss.interrupt_stack_table@ == seq![
            (fault_stack + FAULT_STACK_SIZE) as u64,
            0u64,
            0,
            0,
            0,
            0,
            0,
        ],
        tables.tss.iomap_base == TSS_SIZE,
        tables.gdt@ == seq![
            0u64,
            (DESCRIPTOR_TYPE + PRESENT + EXECUTABLE + LONG_MODE) as u64,
            (DESCRIPTOR_TYPE + PRESENT + WRITABLE) as u64,
            tss_words(tss_base).0 as u64,
            tss_words(tss_base).1 as u64,
        ],
        tables.pointer == (DescriptorTablePointer {
            limit: (GDT_ENTRIES * 8 - 1) as u16,
            base: gdt_base,
        }),
{
    let mut tss = TaskStateSegment::new();
    tss.interrupt_stack_table[0] = fault_stack + FAULT_STACK_SIZE;
    assert(0x0000_1000_0000_0000u64 | 0x0000_8000_0000_0000u64 | 0x0000_0800_0000_0000u64
        | 0x0020_0000_0000_0000u64 == 0x0020_9800_0000_0000u64 && 0x0000_1000_0000_0000u64
        | 0x0000_8000_0000_0000u64 | 0x0000_0200_0000_0000u64 == 0x0000_9200_0000_0000u64)
        by (bit_vector);
    let (low, high) = tss_descriptor(tss_base);
    let gdt: [u64; 5] = [
        0,
        DESCRIPTOR_TYPE | PRESENT | EXECUTABLE | LONG_MODE,
        DESCRIPTOR_TYPE | PRESENT | WRITABLE,
        low,
        high,
    ];
    let pointer = DescriptorTablePointer { limit: GDT_ENTRIES * 8 - 1, base: gdt_base };
    assert(tss.interrupt_stack_table@ =~= seq![
        (fault_stack + FAULT_STACK_SIZE) as u64,
        0u64,
        0,
        0,
        0,
        0,
        0,
    ]);
    assert(gdt@ =~= seq![
        0u64,
        (DESCRIPTOR_TYPE + PRESENT + EXECUTABLE + LONG_MODE) as u64,
        (DESCRIPTOR_TYPE + PRESENT + WRITABLE) as u64,
        tss_words(tss_base).0 as u64,
        tss_words(tss_base).1 as u64,
    ]);
    Tables { tss, gdt, pointer }
}

/// The address range of the double-fault stack that starts at `bottom`.
pub fn fault_stack_range(bottom: u64) -> (range: (u64, u64))
    requires
        bottom + FAULT_STACK_SIZE <= u64::MAX,
    ensures
        range.0 == bottom,
        range.1 == bottom + FAULT_STACK_SIZE,
{
    (bottom, bottom + FAULT_STACK_SIZE)
}

/// Every selector names a descriptor other than the null one, asks for
/// privilege level 0, and lies inside the table's limit.
pub proof fn selectors_lie_inside_the_table(selector: u16)
    requires
        selector == KERNEL_CODE_SELECTOR || selector == KERNEL_DATA_SELECTOR || selector
            == TSS_SELECTOR,
    ensures
        selector % 8 == 0,
        0 < selector / 8 < GDT_ENTRIES,
        selector + 7 <= GDT_ENTRIES * 8 - 1,
{
}

/// The TSS descriptor is for privilege level 0, counts its limit in bytes,
/// and has nothing else set.
pub proof fn the_descriptor_holds_nothing_else(base: u64)
    ensures
        0 <= tss_words(base).0 < 0x1_0000_0000_0000_0000,
        0 <= tss_words(base).1 < 0x1_0000_0000,
        tss_words(base).0 / 0x2000_0000_0000 % 4 == 0,
        tss_words(base).0 / 0x1_0000_0000_0000 % 0x100 == 0,
{
    let a = base % 0x100_0000;
    let b = base / 0x100_0000 % 0x100;
    let low = tss_words(base).0;
    assert(low == 103 + a * 0x1_0000 + 0x8900 * 0x1_0000_0000 + b * 0x100_0000_0000_0000);
}

} // verus!
