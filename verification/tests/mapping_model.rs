use saeos::boot::boot_info::{PhysicalMemoryKind, PhysicalMemoryMap, PhysicalMemoryRegion};
use saeos::mm::mapping_model::{
    direct_virtual_address, identity_virtual_address, plan_memory_map, plan_range,
    usable_region_contains, MappingError, PageSize, FOUR_LEVEL_LIMIT, GIGABYTE, KERNEL_VIRT_BASE,
    PAGE_SIZE, TWO_MIB,
};

fn region(start: u64, length: u64, kind: PhysicalMemoryKind) -> PhysicalMemoryRegion {
    PhysicalMemoryRegion {
        start,
        length,
        kind,
    }
}

#[test]
fn direct_map_and_canonical_limits() {
    assert_eq!(
        direct_virtual_address(0x1234),
        Some(KERNEL_VIRT_BASE + 0x1234)
    );
    assert_eq!(direct_virtual_address(1 << 47), None);
    assert_eq!(identity_virtual_address(1 << 47), None);
}

#[test]
fn large_pages_split_at_alignment_and_holes() {
    let mut map = PhysicalMemoryMap::empty();
    map.push(region(0, 512 * GIGABYTE, PhysicalMemoryKind::Usable));
    map.push(region(
        512 * GIGABYTE,
        GIGABYTE,
        PhysicalMemoryKind::Reserved,
    ));
    map.push(region(513 * GIGABYTE, GIGABYTE, PhysicalMemoryKind::Usable));
    let plan = plan_memory_map(&map, true, true).unwrap();
    assert!(plan.iter().iter().any(|chunk| chunk.page_size == PageSize::OneGiB));
    assert!(plan
        .iter()
        .iter()
        .all(|chunk| chunk.physical_start < 512 * GIGABYTE
            || chunk.physical_start >= 513 * GIGABYTE));
}

#[test]
fn mmio_is_always_four_kib() {
    let plan = plan_range(
        0x1_0000,
        0x1_0000 + TWO_MIB,
        true,
        PhysicalMemoryKind::Mmio,
        true,
    )
    .unwrap();
    assert_eq!(plan.count, 512);
    assert!(plan
        .iter()
        .iter()
        .all(|chunk| chunk.page_size == PageSize::FourKiB));
}

#[test]
fn rejects_ranges_above_four_level_coverage() {
    assert_eq!(
        plan_range(
            FOUR_LEVEL_LIMIT - PAGE_SIZE,
            FOUR_LEVEL_LIMIT + PAGE_SIZE,
            true,
            PhysicalMemoryKind::Usable,
            true
        ),
        Err(MappingError::NonCanonicalRange)
    );
}

#[test]
fn high_memory_and_firmware_identity_cases_remain_supported() {
    let relocated_image = plan_range(
        4 * GIGABYTE,
        4 * GIGABYTE + TWO_MIB,
        true,
        PhysicalMemoryKind::Reserved,
        true,
    )
    .unwrap();
    assert_eq!(
        relocated_image.chunks[0].virtual_start,
        KERNEL_VIRT_BASE + 4 * GIGABYTE
    );

    let firmware = plan_range(
        1 * GIGABYTE,
        1 * GIGABYTE + PAGE_SIZE,
        false,
        PhysicalMemoryKind::Mmio,
        true,
    )
    .unwrap();
    assert_eq!(firmware.chunks[0].virtual_start, 1 * GIGABYTE);
}

#[test]
fn allocator_usable_frame_check_excludes_reserved_holes() {
    let mut map = PhysicalMemoryMap::empty();
    map.push(region(0, GIGABYTE, PhysicalMemoryKind::Usable));
    map.push(region(GIGABYTE, PAGE_SIZE, PhysicalMemoryKind::Reserved));
    assert!(usable_region_contains(&map, 0x2000));
    assert!(!usable_region_contains(&map, GIGABYTE));
}
