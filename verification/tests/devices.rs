use rust_bl::boot_info::{BootInfo, FrameBufferInfo, PixelFormatKind};
use rust_bl::kernel::boot::{
    accept_boot_info, exit_code, keyboard_deadline, keyboard_wait, timer_works, KeyboardWait,
};
use rust_bl::kernel::font::Font;
use rust_bl::kernel::gdt;
use rust_bl::kernel::idt::{
    self, on_fault_stack, report_fault, Counters, Entry, Handlers, Idt, InterruptStackFrame,
    ReportLine,
};
use rust_bl::kernel::interrupts::{critical_section, CriticalSection};
use rust_bl::kernel::keyboard::read_key;
use rust_bl::kernel::pic;
use rust_bl::kernel::pit;
use rust_bl::kernel::port::{io_wait, PortWrite};
use rust_bl::kernel::ps2::{Action, Setup, Step, SPIN_BUDGET};
use rust_bl::kernel::serial::{self, SerialPort};
use rust_bl::qemu_exit::QemuExitCode;

fn write(port: u16, value: u8) -> PortWrite {
    PortWrite { port, value }
}

#[test]
fn the_controllers_are_remapped_and_masked() {
    let writes = pic::init();
    let commands: Vec<PortWrite> =
        writes.iter().copied().filter(|write| *write != io_wait()).collect();
    assert_eq!(
        commands,
        vec![
            write(0x20, 0x11),
            write(0xa0, 0x11),
            write(0x21, 32),
            write(0xa1, 40),
            write(0x21, 4),
            write(0xa1, 2),
            write(0x21, 1),
            write(0xa1, 1),
            write(0x21, 0xfc),
            write(0xa1, 0xff),
        ]
    );
    assert_eq!(writes[1], write(0x80, 0));
}

#[test]
fn an_irq_of_the_slave_is_acknowledged_twice() {
    assert_eq!(pic::end_of_interrupt(pic::TIMER_VECTOR), (None, write(0x20, 0x20)));
    assert_eq!(pic::end_of_interrupt(39), (None, write(0x20, 0x20)));
    assert_eq!(pic::end_of_interrupt(40), (Some(write(0xa0, 0x20)), write(0x20, 0x20)));
    assert_eq!(pic::end_of_interrupt(47), (Some(write(0xa0, 0x20)), write(0x20, 0x20)));
}

#[test]
fn the_timer_divisor_is_sent_low_byte_first() {
    // 1193182 / 100 = 11931 = 0x2e9b
    assert_eq!(pit::init(100), [write(0x43, 0x36), write(0x40, 0x9b), write(0x40, 0x2e)]);
    assert_eq!(pit::init(19), [write(0x43, 0x36), write(0x40, 0x4f), write(0x40, 0xf5)]);
    assert_eq!(pit::init(1_193_182), [write(0x43, 0x36), write(0x40, 1), write(0x40, 0)]);
}

#[test]
fn scancodes_stand_for_the_unshifted_layout() {
    let typed = |codes: &[u8]| -> Vec<u8> { codes.iter().filter_map(|code| read_key(*code)).collect() };
    let row = |first: u8, last: u8| typed(&(first..=last).collect::<Vec<u8>>());
    assert_eq!(row(0x02, 0x0d), b"1234567890-=".to_vec());
    assert_eq!(row(0x10, 0x1b), b"qwertyuiop[]".to_vec());
    assert_eq!(row(0x1e, 0x29), b"asdfghjkl;'`".to_vec());
    assert_eq!(row(0x2b, 0x35), b"\\zxcvbnm,./".to_vec());
    assert_eq!(read_key(0x0e), Some(8));
    assert_eq!(read_key(0x0f), Some(b'\t'));
    assert_eq!(read_key(0x1c), Some(b'\n'));
    assert_eq!(read_key(0x37), Some(b'*'));
    assert_eq!(read_key(0x39), Some(b' '));
}

#[test]
fn releases_and_modifiers_are_not_translated() {
    for code in 0x80..=0xffu8 {
        assert_eq!(read_key(code), None);
    }
    for code in [0x00, 0x01, 0x1d, 0x2a, 0x36, 0x38, 0x3a, 0x3b, 0x58, 0x7f] {
        assert_eq!(read_key(code), None);
    }
}

#[test]
fn the_descriptor_tables_are_built_bit_by_bit() {
    let tables = gdt::init(0x30_0000, 0x1234_5678_9abc_def0, 0x40_0000);
    assert_eq!(tables.gdt[0], 0);
    assert_eq!(tables.gdt[1], 0x0020_9800_0000_0000);
    assert_eq!(tables.gdt[2], 0x0000_9200_0000_0000);
    assert_eq!(tables.gdt[3], 0x9a00_89bc_def0_0067);
    assert_eq!(tables.gdt[4], 0x1234_5678);
    assert_eq!(tables.tss.interrupt_stack_table, [0x30_4000, 0, 0, 0, 0, 0, 0]);
    assert_eq!(tables.tss.privilege_stack_table, [0, 0, 0]);
    assert_eq!(tables.tss.iomap_base, 104);
    assert_eq!((tables.pointer.limit, tables.pointer.base), (39, 0x40_0000));
    assert_eq!(gdt::fault_stack_range(0x30_0000), (0x30_0000, 0x30_4000));
}

#[test]
fn an_entry_splits_its_handler() {
    let mut entry = Entry::missing();
    assert_eq!(entry.type_attributes, 0);
    entry.set(0x1122_3344_5566_7788, None);
    assert_eq!(entry.offset_low, 0x7788);
    assert_eq!(entry.offset_middle, 0x5566);
    assert_eq!(entry.offset_high, 0x1122_3344);
    assert_eq!(entry.selector, 8);
    assert_eq!(entry.ist, 0);
    assert_eq!(entry.type_attributes, 0x8e);
    entry.set(1, Some(0));
    assert_eq!(entry.ist, 1);
    entry.set(1, Some(6));
    assert_eq!(entry.ist, 7);
}

fn handlers() -> Handlers {
    Handlers {
        divide_error: 1,
        breakpoint: 2,
        invalid_opcode: 3,
        double_fault: 4,
        general_protection: 5,
        page_fault: 6,
        unhandled_irq: 7,
        timer: 8,
        keyboard: 9,
    }
}

#[test]
fn every_handler_has_its_vector() {
    let idt = idt::init(&handlers());
    let at = |vector: u8| idt.entry(vector).offset_low;
    assert_eq!((at(0), at(3), at(6), at(8), at(13), at(14)), (1, 2, 3, 4, 5, 6));
    assert_eq!((at(32), at(33)), (8, 9));
    for vector in 34..=47 {
        assert_eq!(at(vector), 7);
    }
    for vector in 0..=255u8 {
        let known = [0, 3, 6, 8, 13, 14].contains(&vector) || (32..=47).contains(&vector);
        assert_eq!(idt.entry(vector) == Entry::missing(), !known);
        assert_eq!(idt.entry(vector).ist != 0, vector == 8);
    }
    assert_eq!(Idt::pointer(0x1000).limit, 4095);
    assert_eq!(Idt::pointer(0x1000).base, 0x1000);
}

#[test]
fn handlers_can_be_replaced_one_by_one() {
    let mut idt = Idt::new();
    assert_eq!(idt.entry(200), Entry::missing());
    idt.set_handler(200, 0x5000);
    idt.set_handler_with_ist(201, 0x6000, 2);
    assert_eq!(idt.entry(200).offset_low, 0x5000);
    assert_eq!(idt.entry(201).ist, 3);
    assert_eq!(idt.entry(199), Entry::missing());
}

fn frame() -> InterruptStackFrame {
    InterruptStackFrame {
        instruction_pointer: 1,
        code_segment: 2,
        cpu_flags: 3,
        stack_pointer: 4,
        stack_segment: 5,
    }
}

fn report(code: Option<u64>, address: Option<u64>) -> Vec<ReportLine> {
    let mut lines = Vec::new();
    while let Some(line) = report_fault(&frame(), code, address, lines.len()) {
        lines.push(line);
    }
    lines
}

#[test]
fn a_fault_report_has_its_lines_in_order() {
    assert_eq!(
        report(None, None),
        vec![
            ReportLine::Blank,
            ReportLine::Name,
            ReportLine::InstructionPointer(1),
            ReportLine::CodeSegment(2),
            ReportLine::CpuFlags(3),
            ReportLine::StackPointer(4),
            ReportLine::Halting,
        ]
    );
    let full = report(Some(8), Some(9));
    assert_eq!(full[2], ReportLine::FaultingAddress(9));
    assert_eq!(full[7], ReportLine::ErrorCode(8));
    assert_eq!(full[8], ReportLine::Halting);
    assert_eq!(full.len(), 9);
}

#[test]
fn the_fault_stack_is_told_by_its_range() {
    assert!(on_fault_stack(10, (10, 20)));
    assert!(on_fault_stack(19, (10, 20)));
    assert!(!on_fault_stack(20, (10, 20)));
    assert!(!on_fault_stack(9, (10, 20)));
}

#[test]
fn handlers_count_ticks_and_translated_keys() {
    let mut counters = Counters::new();
    counters.timer_handler();
    counters.timer_handler();
    assert_eq!(counters.keyboard_handler(0x1e), Some(b'a'));
    assert_eq!(counters.keyboard_handler(0x9e), None);
    assert_eq!((counters.ticks(), counters.key_events_seen()), (2, 1));
}

#[test]
fn a_responsive_keyboard_controller_is_set_up() {
    let mut setup = Setup::init();
    assert_eq!(setup.status(0x01), Action::Discard);
    assert_eq!(setup.status(0x00), Action::Poll);
    assert_eq!(setup.status(0x02), Action::Poll);
    assert_eq!(setup.status(0x00), Action::Send(write(0x64, 0xae)));
    assert_eq!(setup.status(0x00), Action::Send(write(0x64, 0x20)));
    assert_eq!(setup.status(0x00), Action::Poll);
    assert_eq!(setup.status(0x01), Action::Receive);
    setup.receive(0x74);
    assert_eq!(setup.status(0x00), Action::Send(write(0x64, 0x60)));
    assert!(!setup.finished());
    assert_eq!(setup.status(0x00), Action::Send(write(0x60, 0x65)));
    assert!(setup.finished());
}

/// How many readings of `status` it takes until `setup` gives up.
fn readings_until_timeout(mut setup: Setup, status: u8) -> (u32, Action) {
    let mut readings = 0;
    loop {
        readings += 1;
        let action = setup.status(status);
        if let Action::GiveUp(_, _) = action {
            return (readings, action);
        }
    }
}

#[test]
fn a_missing_keyboard_controller_is_given_up() {
    assert_eq!(
        readings_until_timeout(Setup::init(), 0xff),
        (SPIN_BUDGET, Action::GiveUp(Step::Drain, true))
    );
    let steps = [
        Step::EnableFirstPort,
        Step::RequestConfig,
        Step::RequestConfigWrite,
        Step::WriteConfig,
    ];
    for step in steps {
        let setup = Setup { step, left: 3, config: 0 };
        assert_eq!(readings_until_timeout(setup, 0x02), (3, Action::GiveUp(step, false)));
    }
    let reading = Setup { step: Step::ReadConfig, left: 1, config: 0 };
    assert_eq!(readings_until_timeout(reading, 0x00), (1, Action::GiveUp(Step::ReadConfig, false)));
}

#[test]
fn every_timeout_names_its_step() {
    let messages = [
        Step::Drain.timeout_message(),
        Step::EnableFirstPort.timeout_message(),
        Step::RequestConfig.timeout_message(),
        Step::ReadConfig.timeout_message(),
        Step::RequestConfigWrite.timeout_message(),
        Step::WriteConfig.timeout_message(),
    ];
    assert_eq!(messages[0], "ps2: timed out draining the output buffer; no 8042 present?");
    assert_eq!(messages[3], "ps2: timed out waiting to read the config byte");
    for (i, one) in messages.iter().enumerate() {
        for two in &messages[i + 1..] {
            assert_ne!(one, two);
        }
    }
}

#[test]
fn the_serial_line_is_set_up_for_38400_baud() {
    assert_eq!(
        serial::init(),
        [
            write(0x3f9, 0x00),
            write(0x3fb, 0x80),
            write(0x3f8, 0x03),
            write(0x3f9, 0x00),
            write(0x3fb, 0x03),
            write(0x3fa, 0xc7),
            write(0x3fc, 0x0b),
        ]
    );
    assert!(serial::ready_to_send(0x20));
    assert!(serial::ready_to_send(0xff));
    assert!(!serial::ready_to_send(0xdf));
}

#[test]
fn line_feeds_get_a_carriage_return() {
    assert_eq!(SerialPort.write_byte(b'x'), (None, b'x'));
    assert_eq!(SerialPort.write_byte(b'\n'), (Some(b'\r'), b'\n'));
    let font = Font { glyphs: [[0; 16]; 95] };
    let send = |text: &[u8]| SerialPort.write_str(&mut None, &mut [], &font, text);
    assert_eq!(send(b"a\nb\n"), b"a\r\nb\r\n".to_vec());
    assert_eq!(send(b""), b"".to_vec());
    let mut apart = send(b"one\n");
    apart.extend(send(b"two\n"));
    assert_eq!(send(b"one\ntwo\n"), apart);
}

#[test]
fn a_critical_section_leaves_the_flag_as_it_was() {
    assert_eq!(critical_section(0x202), CriticalSection { disable: true, restore: true });
    assert_eq!(critical_section(0x002), CriticalSection { disable: false, restore: false });
    assert_eq!(critical_section(!0x200), CriticalSection { disable: false, restore: false });
}

#[test]
fn the_handoff_is_checked_before_it_is_trusted() {
    let framebuffer =
        FrameBufferInfo::new(0x8000_0000, 4_096_000, 1280, 800, 1280, 4, PixelFormatKind::Bgr);
    let good = BootInfo::new(framebuffer, 0, 0, 0, 0);
    let mut bad = good;
    bad.version = 0;
    assert_eq!(accept_boot_info(Some(&good)), Ok(()));
    assert_eq!(accept_boot_info(None), Err("FATAL: boot_info pointer is null"));
    assert_eq!(
        accept_boot_info(Some(&bad)),
        Err("FATAL: boot_info failed validation (magic/version/format)")
    );
}

#[test]
fn both_interrupt_lines_are_waited_for() {
    assert!(!timer_works(99));
    assert!(timer_works(100));
    let deadline = keyboard_deadline(100);
    assert_eq!(deadline, 1100);
    assert_eq!(keyboard_wait(0, 1100, deadline), KeyboardWait::Waiting);
    assert_eq!(keyboard_wait(0, 1101, deadline), KeyboardWait::TimedOut);
    assert_eq!(keyboard_wait(1, 5000, deadline), KeyboardWait::Received);
    assert_eq!(exit_code(KeyboardWait::Waiting), None);
    assert_eq!(exit_code(KeyboardWait::Received), Some(QemuExitCode::Success));
    assert_eq!(exit_code(KeyboardWait::TimedOut), Some(QemuExitCode::Failed));
}
