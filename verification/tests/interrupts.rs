use saeos::apic::ioapic::IoApic as FirstIoApic;
use saeos::arch::x86_64::acpi::{InterruptOverride, InterruptTopology, IoApicInfo};
use saeos::arch::x86_64::apic::ioapic::{redirection_low_word, IoApic, RegisterWrite};
use saeos::arch::x86_64::apic::lapic::LocalApic;
use saeos::arch::x86_64::interrupt_controller::{
    apic_routing, notify_end_of_interrupt, ApicReadiness, ControllerKind, EndOfInterrupt,
    InterruptController,
};
use saeos::arch::x86_64::pic;
use saeos::gdt::{gdt_entries, tss_descriptor, TaskStateSegment, KERNEL_CODE_DESCRIPTOR, TSS_SIZE};
use saeos::interrupt_controller as first_controller;
use saeos::interrupts::{IdtEntry, InterruptDescriptorTable, IDT_ENTRIES};
use saeos::mm::paging::KERNEL_VIRT_BASE;

#[test]
fn ioapic_register_decoding() {
    assert_eq!(IoApic::max_redirection_entries(0x0017_0011), 24);
    assert_eq!(IoApic::version(0x0017_0011), 0x11);
    assert_eq!(IoApic::id(0x0A00_0000), 10);
    assert_eq!(redirection_low_word(0x20, 0x3, true), 0x1_2020);
    assert_eq!(redirection_low_word(0x21, 0xF, false), 0xA021);
    assert_eq!(redirection_low_word(0x21, 0x1, false), 0x21);
}

#[test]
fn ioapic_routes_timer_and_keyboard() {
    let mut ioapic = IoApic::new();
    ioapic.set_base_address(0xFEC0_0000, true);
    assert_eq!(ioapic.base_address(), 0xFEC0_0000);
    assert_eq!(ioapic.mapped_base_addr, 0xFEC0_0000);
    ioapic.set_base_address(0xFEC0_0000, false);
    assert_eq!(ioapic.mapped_base_addr, KERNEL_VIRT_BASE + 0xFEC0_0000);
    let writes = ioapic.init(24, 3, 0, 2, 0, 1, 0xF).unwrap();
    assert_eq!(writes.len(), 24 * 2 + 4);
    assert_eq!(
        writes[0],
        RegisterWrite {
            register: 0x11,
            value: 0x0300_0000
        }
    );
    assert_eq!(
        writes[1],
        RegisterWrite {
            register: 0x10,
            value: 0x1_00FF
        }
    );
    assert_eq!(
        &writes[48..],
        &[
            RegisterWrite { register: 0x15, value: 0x0300_0000 },
            RegisterWrite { register: 0x14, value: 0x20 },
            RegisterWrite { register: 0x13, value: 0x0300_0000 },
            RegisterWrite { register: 0x12, value: 0xA021 },
        ]
    );
}

#[test]
fn ioapic_refusals() {
    let ioapic = IoApic::new();
    assert_eq!(
        ioapic.init(0, 0, 0, 2, 0, 1, 0),
        Err("Invalid IOAPIC max redirection entries detected")
    );
    assert_eq!(ioapic.init(24, 0, 4, 2, 0, 5, 0), Err("Invalid timer GSI"));
    assert_eq!(ioapic.init(24, 0, 4, 6, 0, 1, 0), Err("Invalid keyboard GSI"));
    assert_eq!(
        ioapic.init(24, 0, 0, 30, 0, 1, 0),
        Err("MADT GSI is outside the selected IOAPIC range")
    );
    assert_eq!(ioapic.init_single(24, 0, 4, 2, 0x21, 0), Err("Invalid GSI"));
    let single = ioapic.init_single(2, 0, 0, 1, 0x21, 0).unwrap();
    assert_eq!(single.len(), 6);
    assert_eq!(single[5], RegisterWrite { register: 0x12, value: 0x21 });
}

#[test]
fn first_ioapic_identity_routing() {
    let ioapic = FirstIoApic::new();
    assert_eq!(ioapic.base_address(), 0xFEC0_0000);
    let writes = ioapic.init(2, 0).unwrap();
    assert_eq!(writes.len(), 8);
    assert_eq!(writes[1], RegisterWrite { register: 0x10, value: 0x1_0020 });
    assert_eq!(writes[3], RegisterWrite { register: 0x12, value: 0x1_0021 });
    assert_eq!(writes[5], RegisterWrite { register: 0x10, value: 0x20 });
    assert_eq!(writes[7], RegisterWrite { register: 0x12, value: 0x21 });
    assert!(ioapic.init(241, 0).is_err());
}

#[test]
fn local_apic_bring_up_decisions() {
    assert!(LocalApic::is_supported(1 << 9));
    assert!(!LocalApic::is_supported(0));
    let mut lapic = LocalApic::new();
    assert_eq!(
        lapic.init(true, 0xFEE0_0900),
        Err("APIC base address was not supplied by ACPI MADT")
    );
    lapic.set_base_address(0xFEE0_0000, true);
    assert_eq!(lapic.init(false, 0), Err("CPUID reports APIC is not supported"));
    assert_eq!(lapic.init(true, 0xFEE0_0900), Ok(None));
    assert_eq!(lapic.init(true, 0xFEE0_0100), Ok(Some(0xFEE0_0900)));
    assert_eq!(lapic.init(true, 0x100), Ok(Some(0x900)));
    assert_eq!(
        lapic.init(true, 0xFEC0_0800),
        Err("ACPI LAPIC base disagrees with IA32_APIC_BASE")
    );
    assert_eq!(LocalApic::flat_ldr(0xFFFF_FFFF), 0x01FF_FFFF);
    assert_eq!(LocalApic::svr_value(), 0x1FF);
    assert_eq!(LocalApic::id(0x0100_0000), 1);
    assert_eq!(lapic.base_address(), 0xFEE0_0000);
}

#[test]
fn pic_acknowledgement_and_masks() {
    assert_eq!(pic::notify_end_of_interrupt(40), vec![(0xA0, 0x20), (0x20, 0x20)]);
    assert_eq!(pic::notify_end_of_interrupt(33), vec![(0x20, 0x20)]);
    assert_eq!(pic::unmask_legacy_irqs(true), vec![(0x21, 0xFC), (0xA1, 0xFF)]);
    assert_eq!(pic::unmask_legacy_irqs(false), vec![(0x21, 0xFE), (0xA1, 0xFF)]);
    assert_eq!(pic::mask_all(), vec![(0x21, 0xFF), (0xA1, 0xFF)]);
    let init = pic::init_writes();
    assert_eq!(init.len(), 10);
    assert_eq!(init[2], (0x21, 32));
    assert_eq!(init[3], (0xA1, 40));
}

fn topology() -> InterruptTopology {
    let mut topology = InterruptTopology::empty();
    topology.lapic_address = 0xFEE0_0000;
    topology.ioapics.push(IoApicInfo {
        id: 0,
        address: 0xFEC0_0000,
        gsi_base: 0,
    });
    topology.ioapic_count = 1;
    topology.overrides.push(InterruptOverride {
        source_irq: 0,
        gsi: 2,
        flags: 0,
    });
    topology.override_count = 1;
    topology
}

#[test]
fn controller_selection() {
    let routing = apic_routing(&topology()).unwrap();
    assert_eq!(routing.timer_gsi, 2);
    assert_eq!(routing.keyboard_gsi, 1);
    assert!(routing.same_ioapic());
    let ready = ApicReadiness {
        lapic: true,
        timer_ioapic: true,
        keyboard_ioapic: false,
    };
    let mut controller = InterruptController::new();
    assert_eq!(controller.init(Some(routing), ready, true), ControllerKind::Apic);
    assert_eq!(controller.timer_irq_index, 2);
    assert_eq!(controller.lapic.base_address(), 0xFEE0_0000);
    assert_eq!(notify_end_of_interrupt(&controller, 32), EndOfInterrupt::LocalApic);

    let failed = ApicReadiness {
        lapic: false,
        timer_ioapic: true,
        keyboard_ioapic: true,
    };
    let mut fallback = InterruptController::default();
    assert_eq!(fallback.init(Some(routing), failed, true), ControllerKind::LegacyPic);
    assert_eq!(
        fallback.notify_end_of_interrupt(44),
        EndOfInterrupt::LegacyPic(vec![(0xA0, 0x20), (0x20, 0x20)])
    );
    assert_eq!(fallback.init(None, ready, true), ControllerKind::LegacyPic);

    let empty = InterruptTopology::empty();
    assert!(apic_routing(&empty).is_none());
}

#[test]
fn first_controller_selection() {
    let mut controller = first_controller::InterruptController::new();
    assert_eq!(first_controller::init(&mut controller, true, false), ControllerKind::LegacyPic);
    assert_eq!(
        first_controller::notify_end_of_interrupt(&controller, 33),
        EndOfInterrupt::LegacyPic(vec![(0x20, 0x20)])
    );
    assert_eq!(controller.init(true, true), ControllerKind::Apic);
    assert_eq!(controller.notify_end_of_interrupt(33), EndOfInterrupt::LocalApic);
}

#[test]
fn tss_descriptor_layout() {
    let base: u64 = 0x1234_5678_9abc_def0;
    let (low, high) = tss_descriptor(base, 103);
    assert_eq!(low & 0xFFFF, 103);
    assert_eq!((low >> 16) & 0xFF_FFFF, 0xbc_def0);
    assert_eq!((low >> 40) & 0xFF, 0x89);
    assert_eq!((low >> 48) & 0xF, 0);
    assert_eq!(low >> 56, 0x9a);
    assert_eq!(high, 0x1234_5678);
    let entries = gdt_entries(base);
    assert_eq!(entries.len(), 5);
    assert_eq!(entries[0], 0);
    assert_eq!(entries[1], KERNEL_CODE_DESCRIPTOR);
    assert_eq!((entries[3], entries[4]), (low, high));
    let mut tss = TaskStateSegment::new();
    assert_eq!(tss.iomap_base, TSS_SIZE);
    tss.set_interrupt_stack(0, 0x8000);
    assert_eq!(tss.interrupt_stack_table[0], 0xC000);
}

#[test]
fn idt_gates() {
    let mut entry = IdtEntry::missing();
    entry.set_handler_addr(0x1122_3344_5566_7788);
    assert_eq!(entry.pointer_low, 0x7788);
    assert_eq!(entry.pointer_middle, 0x5566);
    assert_eq!(entry.pointer_high, 0x1122_3344);
    assert_eq!(entry.gdt_selector, 0x08);
    assert_eq!(entry.options, 0x8E00);
    entry.set_stack_index(0);
    assert_eq!(entry.options, 0x8E01);
    let mut idt = InterruptDescriptorTable::new();
    assert_eq!(idt.entries.len(), IDT_ENTRIES);
    idt.set_handler(8, 0xFFFF_8000_0010_0000, Some(0));
    assert_eq!(idt.entries[8].options, 0x8E01);
    assert_eq!(idt.entries[9], IdtEntry::missing());
}
