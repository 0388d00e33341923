//! The kernel's Interrupt Descriptor Table.
//!
//! The IDT is a 256-entry array mapping vector numbers to handlers. Vectors
//! 0-31 are CPU exceptions with fixed meanings; 32-255 are available for
//! hardware and software interrupts.
//!
//! Each entry splits the handler address across three non-adjacent fields.

use crate::kernel::gdt::{DescriptorTablePointer, DOUBLE_FAULT_IST_INDEX, KERNEL_CODE_SELECTOR};
use crate::kernel::keyboard::{read_key, translated};
use crate::kernel::pic::{KEYBOARD_VECTOR, LAST_VECTOR, PIC1_OFFSET, TIMER_VECTOR};
use vstd::prelude::*;

verus! {

/// The stack frame the CPU pushes before entering a handler.
#[derive(Clone, Copy, Debug, PartialEq, Eq, Structural)]
pub struct InterruptStackFrame {
    /// Address of the faulting or interrupted instruction.
    pub instruction_pointer: u64,
    pub code_segment: u64,
    pub cpu_flags: u64,
    pub stack_pointer: u64,
    pub stack_segment: u64,
}

/// Present, ring 0, 64-bit interrupt gate. An *interrupt* gate clears the
/// interrupt flag on entry; a trap gate would leave it set.
pub const INTERRUPT_GATE: u8 = 0x8E;

/// One gate descriptor.
#[derive(Clone, Copy, Debug, PartialEq, Eq, Structural)]
pub struct Entry {
    pub offset_low: u16,
    pub selector: u16,
    /// Low three bits select an IST slot; 0 means "keep the current stack".
    pub ist: u8,
    /// Present bit, privilege level, and gate type.
    pub type_attributes: u8,
    pub offset_middle: u16,
    pub offset_high: u32,
    pub reserved: u32,
}

/// A gate that is not present.
pub open spec fn absent() -> Entry {
    Entry {
        offset_low: 0,
        selector: 0,
        ist: 0,
        type_attributes: 0,
        offset_middle: 0,
        offset_high: 0,
        reserved: 0,
    }
}

/// The entry for `handler`. The IST field is 1-based: 0 means "no IST", so
/// slot 0 of the table is encoded as 1.
pub open spec fn gate(handler: u64, ist_index: Option<u8>) -> Entry {
    Entry {
        offset_low: (handler % 0x1_0000) as u16,
        selector: KERNEL_CODE_SELECTOR,
        ist: match ist_index {
            Some(index) => (index + 1) as u8,
            None => 0,
        },
        type_attributes: INTERRUPT_GATE,
        offset_middle: (handler / 0x1_0000 % 0x1_0000) as u16,
        offset_high: (handler / 0x1_0000_0000) as u32,
        reserved: 0,
    }
}

impl Entry {
    /// The handler's address, put together from its three parts.
    pub open spec fn handler(self) -> int {
        self.offset_low + self.offset_middle * 0x1_0000 + self.offset_high * 0x1_0000_0000
    }

    /// The present bit.
    pub open spec fn present(self) -> bool {
        self.type_attributes >= 0x80
    }

    /// A gate that is not present.
    pub fn missing() -> (entry: Entry)
        ensures
            entry == absent(),
    {
        Entry {
            offset_low: 0,
            selector: 0,
            ist: 0,
            type_attributes: 0,
            offset_middle: 0,
            offset_high: 0,
            reserved: 0,
        }
    }

    /// Make this the entry for `handler`.
    ///
    /// Hardware IST slots are 1-7 and the field has three bits, so an index
    /// past 6 names no slot.
    pub fn set(&mut self, handler: u64, ist_index: Option<u8>)
        requires
            ist_index matches Some(index) ==> index < 7,
        ensures
            *final(self) == gate(handler, ist_index),
    {
        self.offset_low = (handler % 0x1_0000) as u16;
        self.offset_middle = (handler / 0x1_0000 % 0x1_0000) as u16;
        self.offset_high = (handler / 0x1_0000_0000) as u32;
        self.selector = KERNEL_CODE_SELECTOR;
        self.ist = match ist_index {
            Some(index) => {
                assert(index < 7 ==> (((index + 1) as u8) & 0b111 == index + 1)) by (bit_vector);
                (index + 1) & 0b111
            },
            None => 0,
        };
        self.type_attributes = INTERRUPT_GATE;
        self.reserved = 0;
    }
}

/// The entry for a handler leads to that handler, is present, goes through the
/// kernel's code segment, and names the IST slot that was asked for or none.
pub proof fn a_gate_leads_to_its_handler(handler: u64, ist_index: Option<u8>)
    requires
        ist_index matches Some(index) ==> index < 7,
    ensures
        gate(handler, ist_index).handler() == handler,
        gate(handler, ist_index).present(),
        gate(handler, ist_index).selector == KERNEL_CODE_SELECTOR,
        gate(handler, ist_index).ist == 0 <==> ist_index is None,
        gate(handler, ist_index).ist <= 7,
        !absent().present(),
{
}

/// The table itself.
pub struct Idt {
    entries: [Entry; 256],
}

/// The addresses of the kernel's handlers.
#[derive(Clone, Copy, Debug, PartialEq, Eq, Structural)]
pub struct Handlers {
    pub divide_error: u64,
    pub breakpoint: u64,
    pub invalid_opcode: u64,
    pub double_fault: u64,
    pub general_protection: u64,
    pub page_fault: u64,
    pub unhandled_irq: u64,
    pub timer: u64,
    pub keyboard: u64,
}

impl Handlers {
    /// What stands at `vector`: the exceptions that have handlers, the timer
    /// and the keyboard, and the catch-all across the rest of the remapped
    /// IRQs. The double fault alone gets a stack of its own.
    pub open spec fn at(self, vector: int) -> Entry {
        if vector == 0 {
            gate(self.divide_error, None)
        } else if vector == 3 {
            gate(self.breakpoint, None)
        } else if vector == 6 {
            gate(self.invalid_opcode, None)
        } else if vector == 8 {
            gate(self.double_fault, Some(DOUBLE_FAULT_IST_INDEX))
        } else if vector == 13 {
            gate(self.general_protection, None)
        } else if vector == 14 {
            gate(self.page_fault, None)
        } else if vector == TIMER_VECTOR {
            gate(self.timer, None)
        } else if vector == KEYBOARD_VECTOR {
            gate(self.keyboard, None)
        } else if PIC1_OFFSET <= vector <= LAST_VECTOR {
            gate(self.unhandled_irq, None)
        } else {
            absent()
        }
    }
}

impl Idt {
    /// The gates, by vector.
    pub closed spec fn gates(&self) -> Seq<Entry> {
        self.entries@
    }

    /// A table without any gate.
    pub fn new() -> (idt: Idt)
        ensures
            idt.gates() == Seq::new(256, |i: int| absent()),
    {
        let idt = Idt { entries: [Entry::missing();256] };
        assert(idt.gates() =~= Seq::new(256, |i: int| absent()));
        idt
    }

    /// Install a handler that runs on the current stack.
    pub fn set_handler(&mut self, vector: u8, handler: u64)
        ensures
            final(self).gates() == old(self).gates().update(vector as int, gate(handler, None)),
    {
        let ghost before = self.gates();
        let mut entry = Entry::missing();
        entry.set(handler, None);
        self.entries[vector as usize] = entry;
        assert(self.gates() =~= before.update(vector as int, gate(handler, None)));
    }

    /// Install a handler that runs on a dedicated IST stack.
    pub fn set_handler_with_ist(&mut self, vector: u8, handler: u64, ist_index: u8)
        requires
            ist_index < 7,
        ensures
            final(self).gates() == old(self).gates().update(
                vector as int,
                gate(handler, Some(ist_index)),
            ),
    {
        let ghost before = self.gates();
        let mut entry = Entry::missing();
        entry.set(handler, Some(ist_index));
        self.entries[vector as usize] = entry;
        assert(self.gates() =~= before.update(vector as int, gate(handler, Some(ist_index))));
    }

    /// The entry at `vector`.
    pub fn entry(&self, vector: u8) -> (entry: Entry)
        ensures
            entry == self.gates()[vector as int],
    {
        self.entries[vector as usize]
    }

    /// What `lidt` takes for a table that stands at `base`.
    pub fn pointer(base: u64) -> (pointer: DescriptorTablePointer)
        ensures
            pointer == (DescriptorTablePointer { limit: 4095, base }),
    {
        DescriptorTablePointer { limit: 4095, base }
    }
}

/// Build the table with the kernel's handlers.
///
/// The entire remapped IRQ range is gated first, and the specific handlers
/// then overwrite their own vectors, so that no line can reach a gate that
/// is not present.
pub fn init(handlers: &Handlers) -> (idt: Idt)
    ensures
        idt.gates() == Seq::new(256, |vector: int| handlers.at(vector)),
{
    let mut idt = Idt::new();
    let mut vector: u8 = PIC1_OFFSET;
    while vector <= LAST_VECTOR
        invariant
            PIC1_OFFSET <= vector <= LAST_VECTOR + 1,
            idt.gates() == Seq::new(
                256,
                |i: int|
                    if PIC1_OFFSET <= i < vector {
                        gate(handlers.unhandled_irq, None)
                    } else {
                        absent()
                    },
            ),
        decreases LAST_VECTOR + 1 - vector,
    {
        idt.set_handler(vector, handlers.unhandled_irq);
        vector = vector + 1;
        assert(idt.gates() =~= Seq::new(
            256,
            |i: int|
                if PIC1_OFFSET <= i < vector {
                    gate(handlers.unhandled_irq, None)
                } else {
                    absent()
                },
        ));
    }
    idt.set_handler(0, handlers.divide_error);
    idt.set_handler(3, handlers.breakpoint);
    idt.set_handler(6, handlers.invalid_opcode);
    idt.set_handler(13, handlers.general_protection);
    idt.set_handler(14, handlers.page_fault);
    idt.set_handler_with_ist(8, handlers.double_fault, DOUBLE_FAULT_IST_INDEX);
    idt.set_handler(TIMER_VECTOR, handlers.timer);
    idt.set_handler(KEYBOARD_VECTOR, handlers.keyboard);
    assert(idt.gates() =~= Seq::new(256, |vector: int| handlers.at(vector)));
    idt
}

/// Every IRQ of the remapped controllers lands on a present gate, so a stray
/// interrupt cannot turn into a fault; the double fault runs on its own
/// stack, and it alone.
pub proof fn every_irq_has_a_gate(handlers: Handlers, vector: int)
    ensures
        PIC1_OFFSET <= vector <= LAST_VECTOR ==> handlers.at(vector).present(),
        handlers.at(vector).ist != 0 <==> vector == 8,
{
}

/// The entry of the double fault names the stack slot that was given the top
/// of the fault stack.
pub proof fn the_double_fault_runs_on_the_fault_stack(
    handlers: Handlers,
    interrupt_stack_table: Seq<u64>,
    top: u64,
)
    requires
        interrupt_stack_table == seq![top, 0u64, 0, 0, 0, 0, 0],
    ensures
        interrupt_stack_table[handlers.at(8).ist - 1] == top,
{
}

/// One line of a fault report.
#[derive(Clone, Copy, Debug, PartialEq, Eq, Structural)]
pub enum ReportLine {
    /// An empty line.
    Blank,
    /// The name of the exception.
    Name,
    /// The address that a page fault was about.
    FaultingAddress(u64),
    InstructionPointer(u64),
    CodeSegment(u64),
    CpuFlags(u64),
    StackPointer(u64),
    ErrorCode(u64),
    /// That the kernel stops here.
    Halting,
}

/// The report for a CPU exception, line by line. The faulting address comes
/// right after the name of the exception it belongs to.
pub open spec fn fault_report(
    frame: InterruptStackFrame,
    error_code: Option<u64>,
    faulting_address: Option<u64>,
) -> Seq<ReportLine> {
    let head = seq![ReportLine::Blank, ReportLine::Name];
    let address = match faulting_address {
        Some(address) => seq![ReportLine::FaultingAddress(address)],
        None => Seq::empty(),
    };
    let registers = seq![
        ReportLine::InstructionPointer(frame.instruction_pointer),
        ReportLine::CodeSegment(frame.code_segment),
        ReportLine::CpuFlags(frame.cpu_flags),
        ReportLine::StackPointer(frame.stack_pointer),
    ];
    let code = match error_code {
        Some(code) => seq![ReportLine::ErrorCode(code)],
        None => Seq::empty(),
    };
    head + address + registers + code + seq![ReportLine::Halting]
}

/// Line `index` of the report for a CPU exception, or `None` past its end.
///
/// Every fault handler prints the same report, one line at a time, so it
/// needs no memory to be put together in.
pub fn report_fault(
    frame: &InterruptStackFrame,
    error_code: Option<u64>,
    faulting_address: Option<u64>,
    index: usize,
) -> (line: Option<ReportLine>)
    ensures
        line == (if index < fault_report(*frame, error_code, faulting_address).len() {
            Some(fault_report(*frame, error_code, faulting_address)[index as int])
        } else {
            None
        }),
{
    let ghost report = fault_report(*frame, error_code, faulting_address);
    if index == 0 {
        return Some(ReportLine::Blank);
    }
    if index == 1 {
        return Some(ReportLine::Name);
    }
    let mut rest: usize = index - 2;
    if let Some(address) = faulting_address {
        if rest == 0 {
            return Some(ReportLine::FaultingAddress(address));
        }
        rest = rest - 1;
    }
    match rest {
        0 => Some(ReportLine::InstructionPointer(frame.instruction_pointer)),
        1 => Some(ReportLine::CodeSegment(frame.code_segment)),
        2 => Some(ReportLine::CpuFlags(frame.cpu_flags)),
        3 => Some(ReportLine::StackPointer(frame.stack_pointer)),
        _ => {
            rest = rest - 4;
            if let Some(code) = error_code {
                if rest == 0 {
                    return Some(ReportLine::ErrorCode(code));
                }
                rest = rest - 1;
            }
            if rest == 0 {
                Some(ReportLine::Halting)
            } else {
                None
            }
        },
    }
}

/// Whether a handler whose stack pointer is `rsp` runs on the fault stack
/// with this range.
///
/// This is what proves that the switch to the IST stack happened: the stack
/// pointer in the frame is that of the interrupted code.
pub fn on_fault_stack(rsp: u64, range: (u64, u64)) -> (on: bool)
    ensures
        on == (range.0 <= rsp < range.1),
{
    rsp >= range.0 && rsp < range.1
}

/// What the interrupt handlers have counted since interrupts were enabled.
#[derive(Clone, Copy, Debug, PartialEq, Eq, Structural)]
pub struct Counters {
    pub ticks: u64,
    pub key_events: u64,
}

impl Counters {
    /// Nothing counted yet.
    pub fn new() -> (counters: Counters)
        ensures
            counters == (Counters { ticks: 0, key_events: 0 }),
    {
        Counters { ticks: 0, key_events: 0 }
    }

    /// A timer tick.
    pub fn timer_handler(&mut self)
        requires
            old(self).ticks < u64::MAX,
        ensures
            *final(self) == (Counters { ticks: (old(self).ticks + 1) as u64, ..*old(self) }),
    {
        self.ticks = self.ticks + 1;
    }

    /// A byte from the keyboard: the key it stands for, if it is translated,
    /// which counts as an event.
    pub fn keyboard_handler(&mut self, scancode: u8) -> (key: Option<u8>)
        requires
            old(self).key_events < u64::MAX,
        ensures
            key == translated(scancode),
            *final(self) == (if translated(scancode) is Some {
                Counters { key_events: (old(self).key_events + 1) as u64, ..*old(self) }
            } else {
                *old(self)
            }),
    {
        let key = read_key(scancode);
        if key.is_some() {
            self.key_events = self.key_events + 1;
        }
        key
    }

    /// The number of timer ticks so far.
    pub fn ticks(&self) -> (ticks: u64)
        ensures
            ticks == self.ticks,
    {
        self.ticks
    }

    /// The number of translated key events received so far.
    pub fn key_events_seen(&self) -> (events: u64)
        ensures
            events == self.key_events,
    {
        self.key_events
    }
}

/// The address that an entry leads to, told by the bits of its three parts.
pub open spec fn leads_to(entry: Entry, handler: u64) -> bool {
    &&& entry.offset_low == handler % 0x1_0000
    &&& entry.offset_middle == handler / 0x1_0000 % 0x1_0000
    &&& entry.offset_high == handler / 0x1_0000_0000
    &&& entry.selector == 8
    &&& entry.type_attributes == 0x8e
    &&& entry.reserved == 0
}

/// Every exception that has a handler leads to it at its own vector, the
/// timer and the keyboard at the first two of the remapped lines, the other
/// lines to the handler for the rest, and no other vector has an entry.
pub proof fn every_vector_leads_to_its_handler(handlers: Handlers, vector: int)
    ensures
        leads_to(handlers.at(0), handlers.divide_error),
        leads_to(handlers.at(3), handlers.breakpoint),
        leads_to(handlers.at(6), handlers.invalid_opcode),
        leads_to(handlers.at(8), handlers.double_fault),
        leads_to(handlers.at(13), handlers.general_protection),
        leads_to(handlers.at(14), handlers.page_fault),
        leads_to(handlers.at(32), handlers.timer),
        leads_to(handlers.at(33), handlers.keyboard),
        34 <= vector <= 47 ==> leads_to(handlers.at(vector), handlers.unhandled_irq),
        vector != 0 && vector != 3 && vector != 6 && vector != 8 && vector != 13 && vector != 14
            && !(32 <= vector <= 47) ==> handlers.at(vector).type_attributes == 0,
        vector == 8 ==> handlers.at(vector).ist == 1,
        vector != 8 ==> handlers.at(vector).ist == 0,
{
}

/// An entry leads to the handler it was made for, whatever the address, and
/// names the stack slot that was asked for, counted from one.
pub proof fn an_entry_leads_to_its_handler(handler: u64, slot: u8)
    requires
        slot < 7,
    ensures
        leads_to(gate(handler, None), handler),
        leads_to(gate(handler, Some(slot)), handler),
        gate(handler, None).ist == 0,
        gate(handler, Some(slot)).ist == slot + 1,
{
}

/// A fault report has a line for everything that is known of the fault, in
/// order: the exception's name, the address it was about if there is one,
/// the four registers, the error code if there is one, and the end.
pub proof fn a_fault_report_tells_all_that_is_known(
    frame: InterruptStackFrame,
    error_code: Option<u64>,
    faulting_address: Option<u64>,
)
    ensures
        ({
            let report = fault_report(frame, error_code, faulting_address);
            let at: int = if faulting_address is Some { 3 } else { 2 };
            let end: int = if error_code is Some { at + 5 } else { at + 4 };
            &&& report.len() == end + 1
            &&& report[0] == ReportLine::Blank
            &&& report[1] == ReportLine::Name
            &&& faulting_address matches Some(address) ==> report[2]
                == ReportLine::FaultingAddress(address)
            &&& report[at] == ReportLine::InstructionPointer(frame.instruction_pointer)
            &&& report[at + 1] == ReportLine::CodeSegment(frame.code_segment)
            &&& report[at + 2] == ReportLine::CpuFlags(frame.cpu_flags)
            &&& report[at + 3] == ReportLine::StackPointer(frame.stack_pointer)
            &&& error_code matches Some(code) ==> report[at + 4] == ReportLine::ErrorCode(code)
            &&& report[end] == ReportLine::Halting
        }),
{
}

} // verus!
