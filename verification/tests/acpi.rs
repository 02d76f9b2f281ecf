use saeos::arch::x86_64::acpi::{
    find_rsdp_bios, find_rsdp_uefi, parse_madt, parse_rsdp, rsdp_valid, scan, AcpiError,
    InterruptOverride, InterruptTopology, IoApicInfo,
};
use saeos::arch::x86_64::uefi::{
    extract_framebuffer, hex_digits, parse_memory_map, pci_config_address, probe_bochs_vbe, uefi_memory_kind, vga_bar0,
};
use saeos::boot::boot_info::{PhysicalMemoryKind, PhysicalMemoryRegion, PixelFormat};
use saeos::arch::x86_64::uefi::proto::{
    EfiGraphicsOutputModeInformation,
    efi_acpi_20_table_guid, efi_acpi_table_guid, efi_graphics_output_protocol_guid,
    EfiConfigurationTable,
};

fn put(mem: &mut [u8], at: usize, bytes: &[u8]) {
    mem[at..at + bytes.len()].copy_from_slice(bytes);
}

fn fix_checksum(mem: &mut [u8], start: usize, length: usize, at: usize) {
    mem[at] = 0;
    let sum = mem[start..start + length]
        .iter()
        .fold(0u8, |acc, b| acc.wrapping_add(*b));
    mem[at] = 0u8.wrapping_sub(sum);
}

fn rsdp_v1(mem: &mut [u8], at: usize, rsdt: u32) {
    put(mem, at, b"RSD PTR ");
    put(mem, at + 15, &[0]);
    put(mem, at + 16, &rsdt.to_le_bytes());
    fix_checksum(mem, at, 20, at + 8);
}

fn table_header(mem: &mut [u8], at: usize, signature: &[u8; 4], length: u32) {
    put(mem, at, signature);
    put(mem, at + 4, &length.to_le_bytes());
}

/// Physical memory with an RSDP at 0x100, an RSDT at 0x200 and a MADT at
/// 0x400 describing one I/O APIC and one override of IRQ 0.
fn machine() -> Vec<u8> {
    let mut mem = vec![0u8; 0x1000];
    rsdp_v1(&mut mem, 0x100, 0x200);
    table_header(&mut mem, 0x200, b"RSDT", 40);
    put(&mut mem, 0x200 + 36, &0x400u32.to_le_bytes());
    fix_checksum(&mut mem, 0x200, 40, 0x209);
    let madt_len: u32 = 44 + 12 + 10 + 8;
    table_header(&mut mem, 0x400, b"APIC", madt_len);
    put(&mut mem, 0x400 + 36, &0xFEE0_0000u32.to_le_bytes());
    let mut at = 0x400 + 44;
    put(&mut mem, at, &[1, 12, 4, 0]);
    put(&mut mem, at + 4, &0xFEC0_0000u32.to_le_bytes());
    put(&mut mem, at + 8, &0u32.to_le_bytes());
    at += 12;
    put(&mut mem, at, &[2, 10, 0, 0]);
    put(&mut mem, at + 4, &2u32.to_le_bytes());
    put(&mut mem, at + 8, &0x000Fu16.to_le_bytes());
    at += 10;
    put(&mut mem, at, &[0, 8, 0, 0, 1, 0, 0, 0]);
    fix_checksum(&mut mem, 0x400, madt_len as usize, 0x409);
    mem
}

#[test]
fn madt_topology_through_rsdp() {
    let mem = machine();
    assert!(rsdp_valid(&mem, 0x100));
    let topology = parse_rsdp(&mem, 0x100).unwrap();
    assert_eq!(topology.lapic_address, 0xFEE0_0000);
    assert_eq!(topology.ioapic_count, 1);
    assert_eq!(
        topology.ioapics[0],
        IoApicInfo {
            id: 4,
            address: 0xFEC0_0000,
            gsi_base: 0
        }
    );
    assert_eq!(topology.override_count, 1);
    assert_eq!(
        topology.overrides[0],
        InterruptOverride {
            source_irq: 0,
            gsi: 2,
            flags: 0xF
        }
    );
    assert_eq!(topology.gsi_for_irq(0), (2, 0xF));
    assert_eq!(topology.gsi_for_irq(1), (1, 0));
    assert_eq!(topology.ioapic_for_gsi(2), Some(topology.ioapics[0]));
}

#[test]
fn acpi_errors() {
    let mut bad_rsdp = machine();
    bad_rsdp[0x108] ^= 1;
    assert!(matches!(parse_rsdp(&bad_rsdp, 0x100), Err(AcpiError::InvalidRsdp)));
    assert!(matches!(parse_rsdp(&machine(), 0x5000), Err(AcpiError::InvalidRsdp)));

    let mut bad_root = machine();
    put(&mut bad_root, 0x200, b"XSDT");
    fix_checksum(&mut bad_root, 0x200, 40, 0x209);
    assert!(matches!(parse_rsdp(&bad_root, 0x100), Err(AcpiError::InvalidRootTable)));

    let mut no_madt = machine();
    put(&mut no_madt, 0x400, b"FACP");
    assert!(matches!(parse_rsdp(&no_madt, 0x100), Err(AcpiError::NoMadt)));

    let mut bad_madt = machine();
    bad_madt[0x400 + 44 + 1] = 1;
    fix_checksum(&mut bad_madt, 0x400, 74, 0x409);
    assert!(matches!(parse_rsdp(&bad_madt, 0x100), Err(AcpiError::InvalidMadt)));

    let mut unsummed = machine();
    unsummed[0x400 + 36] ^= 0x10;
    assert!(matches!(parse_rsdp(&unsummed, 0x100), Err(AcpiError::InvalidMadt)));
}

#[test]
fn madt_limits() {
    let mut mem = vec![0u8; 0x400];
    let count = 9;
    let length = 44 + 12 * count;
    table_header(&mut mem, 0, b"APIC", length as u32);
    put(&mut mem, 36, &0xFEE0_0000u32.to_le_bytes());
    for i in 0..count {
        put(&mut mem, 44 + 12 * i, &[1, 12, i as u8, 0]);
    }
    assert!(matches!(parse_madt(&mem, 0, length), Err(AcpiError::TooManyEntries)));
    assert!(matches!(parse_madt(&mem, 0, 44), Err(AcpiError::InvalidMadt)));
    let topology = parse_madt(&mem, 0, 44 + 12 * 2).unwrap();
    assert_eq!(topology.ioapic_count, 2);
}

#[test]
fn ioapic_ranges_follow_gsi_bases() {
    let mut topology = InterruptTopology::empty();
    topology.ioapics.push(IoApicInfo {
        id: 1,
        address: 0xA000,
        gsi_base: 24,
    });
    topology.ioapics.push(IoApicInfo {
        id: 0,
        address: 0xB000,
        gsi_base: 0,
    });
    topology.ioapic_count = 2;
    assert_eq!(topology.ioapic_for_gsi(5).map(|i| i.id), Some(0));
    assert_eq!(topology.ioapic_for_gsi(30).map(|i| i.id), Some(1));
    assert_eq!(topology.ioapic_for_gsi(u32::MAX), None);
}

#[test]
fn rsdp_search_on_bios_machines() {
    let mut mem = vec![0u8; 0x10_0000];
    rsdp_v1(&mut mem, 0xE_0010, 0x200);
    assert_eq!(find_rsdp_bios(&mem), Some(0xE_0010));
    assert_eq!(scan(&mem, 0xE_0001, 0x10_0000), Some(0xE_0010));
    assert_eq!(scan(&mem, 0xE_0011, 0x10_0000), None);
    put(&mut mem, 0x40E, &0x9000u16.to_le_bytes());
    rsdp_v1(&mut mem, 0x9_0020, 0x300);
    assert_eq!(find_rsdp_bios(&mem), Some(0x9_0020));
    let empty = vec![0u8; 0x10_0000];
    assert_eq!(find_rsdp_bios(&empty), None);
}

#[test]
fn rsdp_from_uefi_configuration_table() {
    let mem = machine();
    let graphics = EfiConfigurationTable {
        vendor_guid: efi_graphics_output_protocol_guid(),
        vendor_table: 0x100,
    };
    let acpi1 = EfiConfigurationTable {
        vendor_guid: efi_acpi_table_guid(),
        vendor_table: 0x100,
    };
    let acpi2_bad = EfiConfigurationTable {
        vendor_guid: efi_acpi_20_table_guid(),
        vendor_table: 0x300,
    };
    assert_eq!(find_rsdp_uefi(&mem, &[graphics, acpi2_bad, acpi1]), Some(0x100));
    assert_eq!(find_rsdp_uefi(&mem, &[graphics, acpi2_bad]), None);
    let acpi2 = EfiConfigurationTable {
        vendor_guid: efi_acpi_20_table_guid(),
        vendor_table: 0x100,
    };
    assert_eq!(find_rsdp_uefi(&mem, &[acpi2]), Some(0x100));
    assert!(efi_acpi_20_table_guid().equals(&efi_acpi_20_table_guid()));
    assert!(!efi_acpi_20_table_guid().equals(&efi_acpi_table_guid()));
}

#[test]
fn firmware_framebuffer_decisions() {
    use_firmware();
}

fn use_firmware() {
    let info = EfiGraphicsOutputModeInformation {
        version: 0,
        horizontal_resolution: 800,
        vertical_resolution: 600,
        pixel_format: 1,
        pixel_information: [0; 4],
        pixels_per_scan_line: 832,
    };
    assert!(extract_framebuffer(0, 100, &info).is_none());
    let fb = extract_framebuffer(0x8000_0000, 0x20_0000, &info).unwrap();
    assert_eq!((fb.width, fb.height, fb.stride), (800, 600, 832));
    assert_eq!(fb.pixel_format, PixelFormat::Bgr);
    let vbe = probe_bochs_vbe(0xB0C5, 1024, 768, 32, 0, None).unwrap();
    assert_eq!(vbe.base_addr, 0xE000_0000);
    assert_eq!(vbe.stride, 1024);
    assert_eq!(vbe.size, 1024 * 768 * 4);
    assert!(probe_bochs_vbe(0xB0C6, 1024, 768, 32, 0, None).is_none());
    assert!(probe_bochs_vbe(0xB0C0, 0, 768, 32, 0, None).is_none());
    assert_eq!(probe_bochs_vbe(0xB0C0, 640, 480, 24, 700, Some(0xFD00_0000)).unwrap().size, 700 * 480 * 3);
    assert_eq!(pci_config_address(0, 2, 0, 0x10), 0x8000_1010);
    assert_eq!(vga_bar0(0x1111_1234, 0x0300_0002, 0xFD00_0008), Some(0xFD00_0000));
    assert_eq!(vga_bar0(0xFFFF_FFFF, 0x0300_0002, 0xFD00_0008), None);
    assert_eq!(vga_bar0(0x1111_1234, 0x0200_0000, 0xFD00_0008), None);
    assert_eq!(vga_bar0(0x1111_1234, 0x0300_0000, 0xFD00_0001), None);
    assert_eq!(&hex_digits(0x1234_abcd), b"000000001234abcd");
}

fn descriptor(bytes: &mut Vec<u8>, memory_type: u32, start: u64, pages: u64, size: usize) {
    let mut d = vec![0u8; size];
    d[0..4].copy_from_slice(&memory_type.to_le_bytes());
    d[8..16].copy_from_slice(&start.to_le_bytes());
    d[16..24].copy_from_slice(&0xdead_0000u64.to_le_bytes());
    d[24..32].copy_from_slice(&pages.to_le_bytes());
    bytes.extend_from_slice(&d);
}

#[test]
fn uefi_memory_map_descriptors_become_regions() {
    let mut bytes = Vec::new();
    descriptor(&mut bytes, 7, 0x1000, 0x9f, 48);
    descriptor(&mut bytes, 11, 0xfec0_0000, 1, 48);
    descriptor(&mut bytes, 9, 0x7fe0_0000, 0x20, 48);
    descriptor(&mut bytes, 0, 0x8000_0000, 2, 48);
    let map = parse_memory_map(&bytes, bytes.len(), 48, 1).unwrap();
    assert!(!map.overflowed);
    assert_eq!(map.regions.len(), 4);
    assert_eq!(map.regions[0], PhysicalMemoryRegion { start: 0x1000, length: 0x9_f000, kind: PhysicalMemoryKind::Usable });
    assert_eq!(map.regions[1].kind, PhysicalMemoryKind::Mmio);
    assert_eq!(map.regions[2].kind, PhysicalMemoryKind::AcpiReclaimable);
    assert_eq!(map.regions[2].length, 0x2_0000);
    assert_eq!(map.regions[3].kind, PhysicalMemoryKind::Reserved);
    // A trailing partial descriptor is not read.
    let map = parse_memory_map(&bytes, bytes.len() - 9, 48, 1).unwrap();
    assert_eq!(map.regions.len(), 3);
}

#[test]
fn uefi_memory_map_stops_at_an_extent_beyond_64_bits() {
    let mut bytes = Vec::new();
    descriptor(&mut bytes, 3, 0x10_0000, 0x100, 40);
    descriptor(&mut bytes, 7, 0x20_0000, u64::MAX / 0x800, 40);
    descriptor(&mut bytes, 7, 0x40_0000, 1, 40);
    let map = parse_memory_map(&bytes, bytes.len(), 40, 1).unwrap();
    assert!(map.overflowed);
    assert_eq!(map.regions.len(), 1);
    assert_eq!(map.regions[0].kind, PhysicalMemoryKind::Usable);
    assert_eq!(uefi_memory_kind(5), PhysicalMemoryKind::Runtime);
    assert_eq!(uefi_memory_kind(10), PhysicalMemoryKind::AcpiNvs);
    assert_eq!(uefi_memory_kind(12), PhysicalMemoryKind::Mmio);
}

#[test]
fn uefi_memory_map_with_an_unknown_layout_is_refused() {
    let mut bytes = Vec::new();
    descriptor(&mut bytes, 7, 0x1000, 1, 48);
    assert!(parse_memory_map(&bytes, bytes.len(), 32, 1).is_none());
    assert!(parse_memory_map(&bytes, bytes.len(), 44, 1).is_none());
    assert!(parse_memory_map(&bytes, bytes.len(), 48, 0).is_none());
    assert!(parse_memory_map(&bytes, 0, 48, 1).unwrap().regions.is_empty());
}
