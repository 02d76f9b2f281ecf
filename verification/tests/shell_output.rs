use saeos::arch::x86_64::interrupt_controller::{ControllerKind, InterruptController};
use saeos::arch::x86_64::apic::ioapic::{IoApic, RegisterWrite};
use saeos::shell::output::{apic_status_lines, echo_output, memory_header_lines};

fn text(lines: Vec<Vec<u8>>) -> Vec<String> {
    lines.into_iter().map(|l| String::from_utf8(l).unwrap()).collect()
}

#[test]
fn unknown_lines_are_echoed() {
    assert_eq!(echo_output(b"hello"), b"Echo: hello".to_vec());
    assert_eq!(echo_output(b""), b"Echo: ".to_vec());
}

#[test]
fn apic_diagnostics_name_the_controller_in_charge() {
    let apic = text(apic_status_lines(ControllerKind::Apic, 0xfee0_0000, 0, 0x50014, 0xfec0_0000, 2, 24));
    assert_eq!(
        apic,
        vec![
            "--- Interrupt Controller Diagnostics ---",
            "Mode:          APIC (Local APIC + I/O APIC) [ACTIVE]",
            "Local APIC:    Base=0xfee00000, ID=0, Version=0x50014",
            "I/O APIC:      Base=0xfec00000, ID=2, Max IRQs=24",
            "Legacy 8259:   Masked (Disabled)",
            "----------------------------------------",
        ]
    );
    let pic = text(apic_status_lines(ControllerKind::LegacyPic, 0, 0, 0, 0, 0, 0));
    assert_eq!(pic.len(), 4);
    assert_eq!(pic[1], "Mode:          8259 Legacy PIC (Fallback)");
    assert_eq!(pic[2], "Master/Slave:  Base Ports 0x20/0xA0 (IRQs 0x20..=0x2F)");
}

#[test]
fn memory_demo_starts_with_the_heap() {
    let lines = text(memory_header_lines(0x4444_4444_0000, 0xA0_0000));
    assert_eq!(lines[0], "--- Memory Management & Trait Collections ---");
    assert_eq!(lines[1], "Heap Base:     0x444444440000");
    assert_eq!(lines[2], "Heap Size:     10 MiB (10485760 bytes)");
}

#[test]
fn the_timer_entry_is_masked_with_one_write() {
    let io = IoApic::new();
    assert_eq!(io.mask_timer_irq(2), vec![RegisterWrite { register: 0x14, value: 0x1_0020 }]);
    let mut c = InterruptController::new();
    c.timer_irq_index = 0;
    assert_eq!(c.mask_ioapic_timer(), vec![RegisterWrite { register: 0x10, value: 0x1_0020 }]);
}
