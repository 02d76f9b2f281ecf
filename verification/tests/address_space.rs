use saeos::boot::boot_info::{
    DisplayMode, FramebufferInfo, PhysicalMemoryKind, PhysicalMemoryMap, PhysicalMemoryRegion, PixelFormat,
};
use saeos::mm::frame::{Allocator, PhysAddr, PhysFrame, VirtAddr};
use saeos::mm::boot_map::{build_kernel_tables, whole_memory_end, MapStage};
use saeos::mm::page_table::{
    install_bootstrap_identity_map, alloc_table, overlaps_heap, AddressSpace, KernelPageTables, PageTableMemory,
};
use saeos::mm::selftest::{
    frame_probe_status, record_address_space_checks, record_frame_checks,
    reserved_holes_excluded, heap_check_entry, direct_map_policy_check, executable_user_test, invalid_address_test, map_unmap_check,
    reserved_hole_check, round_trip_check, writable_nx_test, Report, Status,
};
use saeos::mm::paging::{
    identity, phys_to_virt, pml4_index, virt_to_phys, AddressSpaceError, PageFlags, UserPageFlags,
    KERNEL_VIRT_BASE,
};

const KERNEL_ROOT: u64 = 0x9000;
const HEAP: u64 = 0x30_0000;

fn setup() -> (Allocator, PageTableMemory) {
    let mut map = PhysicalMemoryMap::empty();
    map.push(PhysicalMemoryRegion {
        start: 0,
        length: 0x40_0000,
        kind: PhysicalMemoryKind::Usable,
    });
    let mut allocator = Allocator::empty();
    allocator.init(map);
    let mut mem = PageTableMemory::new();
    mem.insert_zeroed(KERNEL_ROOT);
    mem.write(KERNEL_ROOT, 300, 0xABC003);
    (allocator, mem)
}

#[test]
fn new_space_shares_the_kernel_half() {
    let (mut allocator, mut mem) = setup();
    let space = AddressSpace::new(&mut allocator, &mut mem, PhysFrame(KERNEL_ROOT), HEAP).unwrap();
    let root = space.root_frame().0;
    assert_eq!(root, 0x10_0000);
    assert_eq!(mem.read(root, 300), 0xABC003);
    assert_eq!(mem.read(root, 0), 0);
    assert_eq!(
        space.page_entry(&mem, VirtAddr(0x4000_0000)),
        Err(AddressSpaceError::NotMapped)
    );
}

#[test]
fn map_then_unmap_returns_the_frame() {
    let (mut allocator, mut mem) = setup();
    let mut space =
        AddressSpace::new(&mut allocator, &mut mem, PhysFrame(KERNEL_ROOT), HEAP).unwrap();
    let va = VirtAddr(0x4000_0000);
    let frame = PhysFrame(0x5000);
    assert_eq!(
        space.map_user_page(&mut mem, &mut allocator, HEAP, va, frame, UserPageFlags::user_read()),
        Ok(())
    );
    assert_eq!(space.page_entry(&mem, va), Ok(0x8000_0000_0000_5005));
    assert_eq!(
        space.map_user_page(&mut mem, &mut allocator, HEAP, va, frame, UserPageFlags::user_read()),
        Err(AddressSpaceError::AlreadyMapped)
    );
    assert_eq!(space.unmap_user_page(&mut mem, va), Ok(frame));
    assert_eq!(space.page_entry(&mem, va), Err(AddressSpaceError::NotMapped));
    assert_eq!(
        space.unmap_user_page(&mut mem, va),
        Err(AddressSpaceError::NotMapped)
    );
}

#[test]
fn user_address_rejections() {
    let (mut allocator, mut mem) = setup();
    let mut space =
        AddressSpace::new(&mut allocator, &mut mem, PhysFrame(KERNEL_ROOT), HEAP).unwrap();
    let frame = PhysFrame(0x5000);
    let read = UserPageFlags::user_read();
    let mut try_map = |va: u64, frame: PhysFrame, flags: UserPageFlags| {
        space.map_user_page(&mut mem, &mut allocator, HEAP, VirtAddr(va), frame, flags)
    };
    assert_eq!(try_map(0x4000_0001, frame, read), Err(AddressSpaceError::Unaligned));
    assert_eq!(try_map(0x4000_0000, PhysFrame(0x5001), read), Err(AddressSpaceError::Unaligned));
    assert_eq!(try_map(1 << 48, frame, read), Err(AddressSpaceError::Noncanonical));
    assert_eq!(try_map(KERNEL_VIRT_BASE, frame, read), Err(AddressSpaceError::KernelAddress));
    let both = UserPageFlags::user_execute().union(UserPageFlags::user_no_execute());
    assert_eq!(try_map(0x6000_1000, frame, both), Err(AddressSpaceError::InvalidFlags));
    assert_eq!(
        try_map(0x6000_1000, frame, UserPageFlags::user_write()),
        Err(AddressSpaceError::InvalidFlags)
    );
}

#[test]
fn permission_bits_of_user_entries() {
    let (mut allocator, mut mem) = setup();
    let mut space =
        AddressSpace::new(&mut allocator, &mut mem, PhysFrame(KERNEL_ROOT), HEAP).unwrap();
    let writable = UserPageFlags::user_read().union(UserPageFlags::user_write());
    space
        .map_user_page(&mut mem, &mut allocator, HEAP, VirtAddr(0x6000_0000), PhysFrame(0x7000), writable)
        .unwrap();
    let entry = space.page_entry(&mem, VirtAddr(0x6000_0000)).unwrap();
    assert!(entry & (1 << 2) != 0 && entry & (1 << 1) != 0 && entry & (1 << 63) != 0);
    let executable = UserPageFlags::user_read().union(UserPageFlags::user_execute());
    space
        .map_user_page(&mut mem, &mut allocator, HEAP, VirtAddr(0x6000_1000), PhysFrame(0x8000), executable)
        .unwrap();
    let entry = space.page_entry(&mem, VirtAddr(0x6000_1000)).unwrap();
    assert!(entry & (1 << 2) != 0 && entry & (1 << 63) == 0);
    assert_eq!(
        space.page_entry(&mem, VirtAddr(0x6000_1001)),
        Err(AddressSpaceError::Unaligned)
    );
}

#[test]
fn destroy_frees_the_tables_and_keeps_the_kernel_root() {
    let (mut allocator, mut mem) = setup();
    let mut space =
        AddressSpace::new(&mut allocator, &mut mem, PhysFrame(KERNEL_ROOT), HEAP).unwrap();
    space
        .map_user_page(&mut mem, &mut allocator, HEAP, VirtAddr(0x4000_0000), PhysFrame(0x5000), UserPageFlags::user_read())
        .unwrap();
    let root = space.root_frame().0;
    space.destroy(&mut mem, &mut allocator);
    assert!(!mem.contains(root));
    assert!(!mem.contains(0x10_1000));
    assert!(mem.contains(KERNEL_ROOT));
    assert_eq!(
        allocator.alloc_frame_below(PhysAddr(0x1_0000_0000)),
        Some(PhysFrame(root))
    );
}

#[test]
fn table_frames_avoid_the_heap() {
    let (mut allocator, mut mem) = setup();
    assert_eq!(alloc_table(&mut allocator, &mut mem, 0x10_0000), None);
    let (mut allocator, mut mem) = setup();
    let frame = alloc_table(&mut allocator, &mut mem, HEAP).unwrap();
    assert_eq!(frame, PhysFrame(0x10_0000));
    assert!(mem.contains(frame.0));
    assert_eq!(mem.read(frame.0, 5), 0);
    assert!(overlaps_heap(PhysFrame(0x10_1000), 0x10_1000));
    assert!(!overlaps_heap(PhysFrame(0x10_0000), 0x10_1000));
}

#[test]
fn address_conversion_helpers() {
    assert_eq!(phys_to_virt(PhysAddr(0x1234)).0, KERNEL_VIRT_BASE + 0x1234);
    assert_eq!(virt_to_phys(phys_to_virt(PhysAddr(0x1234_5000))), Some(PhysAddr(0x1234_5000)));
    assert_eq!(virt_to_phys(identity(PhysAddr(0x5000))), Some(PhysAddr(0x5000)));
    assert_eq!(virt_to_phys(VirtAddr(1 << 47)), None);
    assert_eq!(pml4_index(0x80_0000_0000, true), Some(257));
    assert_eq!(pml4_index(0x80_0000_0000, false), Some(1));
    assert_eq!(pml4_index(1 << 47, true), None);
    assert_eq!(PageFlags::mmio().0, PageFlags::writable().0);
    assert_eq!(UserPageFlags::user_read().hardware(), 0x8000_0000_0000_0005);
    assert!(UserPageFlags::user_read().is_valid());
}

#[test]
fn kernel_map_page_splits_huge_pages_and_keeps_their_addresses() {
    let (mut allocator, mut mem) = setup();
    let mut tables = KernelPageTables::new(&mut allocator, &mut mem, HEAP).unwrap();
    let root = tables.page_table_frame().0;
    assert_eq!(
        tables.map_page(&mut mem, &mut allocator, HEAP, VirtAddr(0x1000), PhysAddr(0x1000), PageFlags::writable()),
        Ok(())
    );
    let pdpt = mem.read(root, 0) & 0x000f_ffff_ffff_f000;
    mem.write(pdpt, 1, 0x4000_0000 | 0x83);
    assert_eq!(
        tables.map_page(&mut mem, &mut allocator, HEAP, VirtAddr(0x4000_5000), PhysAddr(0x9000), PageFlags::read_only()),
        Ok(())
    );
    let pd = mem.read(pdpt, 1) & 0x000f_ffff_ffff_f000;
    assert_eq!(mem.read(pd, 1), 0x4020_0000 | 0x83);
    assert_eq!(mem.read(pd, 511), (0x4000_0000 + 511 * 0x20_0000) | 0x83);
    let pt = mem.read(pd, 0) & 0x000f_ffff_ffff_f000;
    assert_eq!(mem.read(pt, 4), 0x8000_0000_4000_4003);
    assert_eq!(mem.read(pt, 5), 0x9000 | 0x8000_0000_0000_0001);
    assert_eq!(
        tables.map_page(&mut mem, &mut allocator, HEAP, VirtAddr(0x4000_5001), PhysAddr(0x9000), PageFlags::read_only()),
        Err("unaligned page mapping")
    );
    assert_eq!(
        tables.map_page(&mut mem, &mut allocator, HEAP, VirtAddr(1 << 47), PhysAddr(0x9000), PageFlags::read_only()),
        Err("address outside direct map")
    );
    assert_eq!(
        tables.map_page(
            &mut mem,
            &mut allocator,
            HEAP,
            VirtAddr(KERNEL_VIRT_BASE + 0x2000),
            PhysAddr(0x2000),
            PageFlags::mmio()
        ),
        Ok(())
    );
    assert_ne!(mem.read(root, 256), 0);
}

#[test]
fn address_space_self_checks_pass_and_leave_no_trace() {
    use_self_checks();
}

fn use_self_checks() {
    let (mut allocator, mut mem) = setup();
    let mut space = Some(
        AddressSpace::new(&mut allocator, &mut mem, PhysFrame(KERNEL_ROOT), HEAP).unwrap(),
    );
    assert_eq!(
        invalid_address_test(&mut space, &mut mem, &mut allocator, HEAP),
        Status::Pass
    );
    assert_eq!(writable_nx_test(&mut space, &mut mem, &mut allocator, HEAP), Status::Pass);
    assert_eq!(
        executable_user_test(&mut space, &mut mem, &mut allocator, HEAP),
        Status::Pass
    );
    assert_eq!(map_unmap_check(&mut space, &mut mem, &mut allocator, HEAP), Status::Pass);
    let s = space.as_ref().unwrap();
    assert_eq!(
        s.page_entry(&mem, VirtAddr(0x4000_0000)),
        Err(AddressSpaceError::NotMapped)
    );
    let mut none: Option<AddressSpace> = None;
    assert_eq!(
        invalid_address_test(&mut none, &mut mem, &mut allocator, HEAP),
        Status::Fail
    );
    let mut report = Report::new();
    report.record(7, "invalid user-address rejection", Status::Pass);
    report.record(8, "user permissions and NX entry", Status::Fail);
    assert_eq!(report.passed, 1);
    assert_eq!(report.failed, 1);
    assert_eq!(report.total(), 2);
    assert_eq!(report.lines[7].name, "invalid user-address rejection");
}

#[test]
fn memory_map_self_checks() {
    assert_eq!(round_trip_check(), Status::Pass);
    let mut map = PhysicalMemoryMap::empty();
    map.push(PhysicalMemoryRegion {
        start: 0,
        length: 0x9_F000,
        kind: PhysicalMemoryKind::Usable,
    });
    map.push(PhysicalMemoryRegion {
        start: 0xF_0000,
        length: 0x1_0000,
        kind: PhysicalMemoryKind::Reserved,
    });
    map.push(PhysicalMemoryRegion {
        start: 0x10_0000,
        length: 0x40_0000,
        kind: PhysicalMemoryKind::Usable,
    });
    let mut allocator = Allocator::empty();
    allocator.init(map.copied());
    assert_eq!(reserved_hole_check(&map, &mut allocator), Status::Pass);
    assert_eq!(direct_map_policy_check(&map), Status::Pass);
    let mut overlapping = map.copied();
    overlapping.push(PhysicalMemoryRegion {
        start: 0x20_0000,
        length: 0x1000,
        kind: PhysicalMemoryKind::Reserved,
    });
    assert_eq!(reserved_hole_check(&overlapping, &mut allocator), Status::Fail);
    let mut too_high = PhysicalMemoryMap::empty();
    too_high.push(PhysicalMemoryRegion {
        start: 1 << 47,
        length: 0x1000,
        kind: PhysicalMemoryKind::Usable,
    });
    assert_eq!(direct_map_policy_check(&too_high), Status::Fail);
}

#[test]
fn kernel_map_range_takes_the_largest_leaf_that_fits() {
    let (mut allocator, mut mem) = setup();
    let mut tables = KernelPageTables::new(&mut allocator, &mut mem, HEAP).unwrap();
    let root = tables.page_table_frame().0;
    assert_eq!(
        tables.map_range(&mut mem, &mut allocator, HEAP, 0x20_0000, 0x40_3000, false, PhysicalMemoryKind::Usable, false),
        Ok(())
    );
    let pdpt = mem.read(root, 0) & 0x000f_ffff_ffff_f000;
    let pd = mem.read(pdpt, 0) & 0x000f_ffff_ffff_f000;
    assert_eq!(mem.read(pd, 1), 0x20_0000 | 0x83);
    let pt = mem.read(pd, 2) & 0x000f_ffff_ffff_f000;
    assert_eq!(mem.read(pd, 2) & 0x81, 0x01);
    assert_eq!(mem.read(pt, 0), 0x8000_0000_0040_0003);
    assert_eq!(mem.read(pt, 2), 0x8000_0000_0040_2003);
    assert_eq!(mem.read(pt, 3), 0);
    assert_eq!(mem.read(pd, 0), 0);
}

#[test]
fn kernel_map_range_flags_and_page_sizes_follow_the_kind() {
    let (mut allocator, mut mem) = setup();
    let mut tables = KernelPageTables::new(&mut allocator, &mut mem, HEAP).unwrap();
    let root = tables.page_table_frame().0;
    assert_eq!(
        tables.map_range(&mut mem, &mut allocator, HEAP, 0x4000_0000, 0x8000_0000, false, PhysicalMemoryKind::Usable, true),
        Ok(())
    );
    let pdpt = mem.read(root, 0) & 0x000f_ffff_ffff_f000;
    assert_eq!(mem.read(pdpt, 1), 0x4000_0000 | 0x83);
    assert_eq!(
        tables.map_range(&mut mem, &mut allocator, HEAP, 0x20_0000, 0x40_0000, true, PhysicalMemoryKind::Mmio, true),
        Ok(())
    );
    let high = mem.read(root, 256) & 0x000f_ffff_ffff_f000;
    let pd = mem.read(high, 0) & 0x000f_ffff_ffff_f000;
    let pt = mem.read(pd, 1) & 0x000f_ffff_ffff_f000;
    assert_eq!(mem.read(pt, 0), 0x8000_0000_0020_0003);
    assert_eq!(mem.read(pt, 511), 0x8000_0000_003f_f003);
    assert_eq!(
        tables.map_range(&mut mem, &mut allocator, HEAP, 0x1_0000, 0x1_2000, false, PhysicalMemoryKind::Reserved, true),
        Ok(())
    );
    let low_pd = mem.read(pdpt, 0) & 0x000f_ffff_ffff_f000;
    let low_pt = mem.read(low_pd, 0) & 0x000f_ffff_ffff_f000;
    assert_eq!(mem.read(low_pt, 0x10), 0x1_0001);
    assert_eq!(mem.read(low_pt, 0x11), 0x1_1001);
}

#[test]
fn kernel_map_range_refuses_what_it_cannot_map() {
    let (mut allocator, mut mem) = setup();
    let mut tables = KernelPageTables::new(&mut allocator, &mut mem, HEAP).unwrap();
    let root = tables.page_table_frame().0;
    assert_eq!(
        tables.map_range(&mut mem, &mut allocator, HEAP, 0x5000, 0x5000, false, PhysicalMemoryKind::Usable, false),
        Ok(())
    );
    assert_eq!(
        tables.map_range(&mut mem, &mut allocator, HEAP, 0x5001, 0x9000, false, PhysicalMemoryKind::Usable, false),
        Err("unaligned page mapping")
    );
    assert_eq!(
        tables.map_range(&mut mem, &mut allocator, HEAP, 0x5000, (1 << 47) + 1, true, PhysicalMemoryKind::Usable, false),
        Err("physical range exceeds four-level canonical coverage")
    );
    assert_eq!(mem.read(root, 0), 0);
    assert_eq!(mem.read(root, 256), 0);
}

#[test]
fn boot_memory_maps_regions_kernel_and_heap_in_both_halves() {
    let (mut allocator, mut mem) = setup();
    let mut tables = KernelPageTables::new(&mut allocator, &mut mem, HEAP).unwrap();
    let root = tables.page_table_frame().0;
    let mut map = PhysicalMemoryMap::empty();
    map.push(PhysicalMemoryRegion { start: 0, length: 0x40_0000, kind: PhysicalMemoryKind::Usable });
    map.push(PhysicalMemoryRegion { start: 0xfec0_0000, length: 0x1000, kind: PhysicalMemoryKind::Mmio });
    map.push(PhysicalMemoryRegion { start: 0x1_0000_0000, length: 0x1000, kind: PhysicalMemoryKind::Reserved });
    map.push(PhysicalMemoryRegion { start: 1 << 47, length: 0x1000, kind: PhysicalMemoryKind::Usable });
    let failures = tables.map_boot_memory(&mut mem, &mut allocator, HEAP, &map, 0x10_0000, 0x10_2000, false);
    assert_eq!(failures.len(), 2);
    assert_eq!(failures[0].stage, MapStage::Region);
    assert_eq!(failures[0].start, 1 << 47);
    assert!(!failures[0].direct);
    assert!(failures[1].direct);
    assert_eq!(failures[1].reason, "physical range exceeds four-level canonical coverage");
    for half in [0usize, 256] {
        let pdpt = mem.read(root, half) & 0x000f_ffff_ffff_f000;
        let pd = mem.read(pdpt, 0) & 0x000f_ffff_ffff_f000;
        // The kernel image split the first 2 MiB page; its pages keep their addresses.
        let pt = mem.read(pd, 0) & 0x000f_ffff_ffff_f000;
        assert_eq!(mem.read(pd, 0) & 0x81, 0x01);
        assert_eq!(mem.read(pt, 0x100) & 0x000f_ffff_ffff_f000, 0x10_0000);
        assert_eq!(mem.read(pt, 0x1ff) & 0x000f_ffff_ffff_f000, 0x1f_f000);
        // The heap's first megabyte split the second one; its 2 MiB pages follow.
        assert_eq!(mem.read(pd, 1) & 0x81, 0x01);
        assert_eq!(mem.read(pd, 2), 0x40_0000 | 0x83);
        assert_eq!(mem.read(pd, 5), 0xa0_0000 | 0x83);
        let mmio_pd = mem.read(pdpt, 3) & 0x000f_ffff_ffff_f000;
        let mmio_pt = mem.read(mmio_pd, 0x1f6) & 0x000f_ffff_ffff_f000;
        assert_eq!(mem.read(mmio_pt, 0), 0x8000_0000_fec0_0003);
        // The reserved region is not mapped.
        assert_eq!(mem.read(pdpt, 4), 0);
    }
}

fn direct_pt(mem: &PageTableMemory, root: u64, physical: u64) -> u64 {
    let pdpt = mem.read(root, 256 + ((physical >> 39) & 0x1ff) as usize) & 0x000f_ffff_ffff_f000;
    let pd = mem.read(pdpt, ((physical >> 30) & 0x1ff) as usize) & 0x000f_ffff_ffff_f000;
    mem.read(pd, ((physical >> 21) & 0x1ff) as usize) & 0x000f_ffff_ffff_f000
}

#[test]
fn framebuffer_pages_are_mapped_as_device_memory() {
    let (mut allocator, mut mem) = setup();
    let mut tables = KernelPageTables::new(&mut allocator, &mut mem, HEAP).unwrap();
    let root = tables.page_table_frame().0;
    let info = FramebufferInfo {
        base_addr: 0x8000_0800,
        size: 0x1900,
        width: 8,
        height: 8,
        stride: 8,
        pixel_format: PixelFormat::Bgr,
    };
    assert_eq!(
        tables.map_framebuffer(&mut mem, &mut allocator, HEAP, DisplayMode::GopFramebuffer(info), false),
        None
    );
    let pt = direct_pt(&mem, root, 0x8000_0000);
    assert_eq!(mem.read(pt, 0), 0x8000_0000_8000_0003);
    assert_eq!(mem.read(pt, 1), 0x8000_0000_8000_1003);
    assert_eq!(mem.read(pt, 2), 0x8000_0000_8000_2003);
    assert_eq!(mem.read(pt, 3), 0);
}

#[test]
fn framebuffer_is_left_to_the_identity_map_on_bios_boots() {
    let (mut allocator, mut mem) = setup();
    let mut tables = KernelPageTables::new(&mut allocator, &mut mem, HEAP).unwrap();
    let root = tables.page_table_frame().0;
    let vga = DisplayMode::VgaText { buffer_addr: 0xb8000 };
    assert_eq!(tables.map_framebuffer(&mut mem, &mut allocator, HEAP, vga, true), None);
    assert_eq!(mem.read(root, 256), 0);
    assert_eq!(tables.map_framebuffer(&mut mem, &mut allocator, HEAP, vga, false), None);
    let pt = direct_pt(&mem, root, 0xb8000);
    assert_eq!(mem.read(pt, 0xb8), 0x8000_0000_000b_8003);
    assert_eq!(mem.read(pt, 0xb9), 0);
}

#[test]
fn rsdp_pages_are_mapped_read_only() {
    let (mut allocator, mut mem) = setup();
    let mut tables = KernelPageTables::new(&mut allocator, &mut mem, HEAP).unwrap();
    let root = tables.page_table_frame().0;
    assert!(tables.map_rsdp(&mut mem, &mut allocator, HEAP, 0xe_0ff0));
    let pt = direct_pt(&mem, root, 0xe_0000);
    assert_eq!(mem.read(pt, 0xe0), 0x8000_0000_000e_0001);
    assert_eq!(mem.read(pt, 0xe1), 0x8000_0000_000e_1001);
    assert_eq!(mem.read(pt, 0xe2), 0);
}

#[test]
fn a_direct_page_maps_at_the_higher_half() {
    let (mut allocator, mut mem) = setup();
    let mut tables = KernelPageTables::new(&mut allocator, &mut mem, HEAP).unwrap();
    let root = tables.page_table_frame().0;
    assert_eq!(
        tables.map_direct_page(&mut mem, &mut allocator, HEAP, 0x7000, PageFlags::writable()),
        Ok(())
    );
    let pt = direct_pt(&mem, root, 0x7000);
    assert_eq!(mem.read(pt, 7), 0x8000_0000_0000_7003);
    assert_eq!(mem.read(root, 0), 0);
}

#[test]
fn heap_line_follows_the_integrity_checks() {
    assert!(heap_check_entry(true, true, false).is_none());
    assert!(heap_check_entry(true, true, true).is_none());
    assert_eq!(
        heap_check_entry(false, true, true),
        Some(("heap allocator (BIOS bootstrap corruption - skipped)", Status::Skip))
    );
    assert_eq!(
        heap_check_entry(false, true, false),
        Some(("heap allocator integrity before page-table tests", Status::Fail))
    );
    assert_eq!(
        heap_check_entry(true, false, false),
        Some(("heap allocator integrity after address-space cleanup", Status::Fail))
    );
}

const BOOT_PML4: u64 = 0x2_0000;
const BOOT_PDPT: u64 = 0x2_1000;
const BOOT_PDS: u64 = 0x2_2000;

fn insert_bootstrap_frames(mem: &mut PageTableMemory) {
    mem.insert_zeroed(BOOT_PML4);
    mem.insert_zeroed(BOOT_PDPT);
    for i in 0..16u64 {
        mem.insert_zeroed(BOOT_PDS + i * 0x1000);
    }
}

#[test]
fn bootstrap_window_maps_the_first_16_gib_with_2_mib_pages() {
    let (_, mut mem) = setup();
    insert_bootstrap_frames(&mut mem);
    mem.write(BOOT_PML4, 7, 0x1234);
    install_bootstrap_identity_map(&mut mem, BOOT_PML4, BOOT_PDPT, BOOT_PDS);
    assert_eq!(mem.read(BOOT_PML4, 0), BOOT_PDPT | 3);
    assert_eq!(mem.read(BOOT_PML4, 7), 0);
    assert_eq!(mem.read(BOOT_PDPT, 0), BOOT_PDS | 3);
    assert_eq!(mem.read(BOOT_PDPT, 15), (BOOT_PDS + 15 * 0x1000) | 3);
    assert_eq!(mem.read(BOOT_PDPT, 16), 0);
    assert_eq!(mem.read(BOOT_PDS, 1), 0x20_0000 | 0x83);
    assert_eq!(mem.read(BOOT_PDS + 15 * 0x1000, 511), (15 * 0x4000_0000 + 511 * 0x20_0000) | 0x83);
}

#[test]
fn kernel_tables_end_with_the_bootstrap_window_in_the_first_slot() {
    let (mut allocator, mut mem) = setup();
    insert_bootstrap_frames(&mut mem);
    let mut map = PhysicalMemoryMap::empty();
    map.push(PhysicalMemoryRegion { start: 0, length: 0x40_0000, kind: PhysicalMemoryKind::Usable });
    let (root, failures) = build_kernel_tables(
        &mut allocator,
        &mut mem,
        HEAP,
        &map,
        0x10_0000,
        0x10_2000,
        false,
        BOOT_PML4,
        BOOT_PDPT,
        BOOT_PDS,
    )
    .unwrap();
    assert!(failures.is_empty());
    assert_eq!(mem.read(root.0, 0), BOOT_PDPT | 3);
    assert_eq!(mem.read(BOOT_PML4, 0), BOOT_PDPT | 3);
    let pdpt = mem.read(root.0, 256) & 0x000f_ffff_ffff_f000;
    let pd = mem.read(pdpt, 0) & 0x000f_ffff_ffff_f000;
    assert_eq!(mem.read(pd, 2), 0x40_0000 | 0x83);
    assert!(allocator.is_reserved(BOOT_PDS + 15 * 0x1000, BOOT_PDS + 16 * 0x1000));
}

#[test]
fn all_memory_is_mapped_with_gigabyte_pages_and_a_2_mib_tail() {
    let (mut allocator, mut mem) = setup();
    let mut tables = KernelPageTables::new(&mut allocator, &mut mem, HEAP).unwrap();
    let root = tables.page_table_frame().0;
    assert!(tables.map_all_memory(&mut mem, &mut allocator, HEAP, 0x1_0030_0000));
    for half in [0usize, 256] {
        let pdpt = mem.read(root, half) & 0x000f_ffff_ffff_f000;
        assert_eq!(mem.read(pdpt, 0), 0x83);
        assert_eq!(mem.read(pdpt, 3), 0xc000_0000 | 0x83);
        let pd = mem.read(pdpt, 4) & 0x000f_ffff_ffff_f000;
        assert_eq!(mem.read(pdpt, 4) & 0x81, 0x01);
        assert_eq!(mem.read(pd, 0), 0x1_0000_0000 | 0x83);
        assert_eq!(mem.read(pd, 1), 0x1_0020_0000 | 0x83);
        assert_eq!(mem.read(pd, 2), 0);
        assert_eq!(mem.read(pdpt, 5), 0);
    }
}

#[test]
fn whole_memory_end_is_kept_between_4_and_512_gib() {
    let mut map = PhysicalMemoryMap::empty();
    assert_eq!(whole_memory_end(&map), 0x1_0000_0000);
    map.push(PhysicalMemoryRegion { start: 0, length: 0x4000_0000, kind: PhysicalMemoryKind::Usable });
    assert_eq!(whole_memory_end(&map), 0x1_0000_0000);
    map.push(PhysicalMemoryRegion { start: 0x2_0000_0000, length: 0x1000, kind: PhysicalMemoryKind::Reserved });
    map.push(PhysicalMemoryRegion { start: 0x1_0000_0000, length: 0x1000, kind: PhysicalMemoryKind::Usable });
    assert_eq!(whole_memory_end(&map), 0x2_0000_1000);
    map.push(PhysicalMemoryRegion { start: 0xff_0000_0000, length: 0x1000, kind: PhysicalMemoryKind::Mmio });
    assert_eq!(whole_memory_end(&map), 0x80_0000_0000);
}

#[test]
fn reserved_holes_inside_usable_memory_are_found() {
    let mut map = PhysicalMemoryMap::empty();
    map.push(PhysicalMemoryRegion { start: 0, length: 0x9_f000, kind: PhysicalMemoryKind::Usable });
    map.push(PhysicalMemoryRegion { start: 0x9_f000, length: 0x1000, kind: PhysicalMemoryKind::Reserved });
    assert!(reserved_holes_excluded(&map));
    map.push(PhysicalMemoryRegion { start: 0x5_0000, length: 0x1000, kind: PhysicalMemoryKind::AcpiNvs });
    assert!(!reserved_holes_excluded(&map));
}

#[test]
fn an_exhausted_allocator_gives_no_table_and_fails_the_probes() {
    let mut allocator = Allocator::empty();
    let mut mem = PageTableMemory::new();
    assert_eq!(alloc_table(&mut allocator, &mut mem, HEAP), None);
    assert!(KernelPageTables::new(&mut allocator, &mut mem, HEAP).is_none());
    let (mut full, mut mem) = setup();
    let mut space = Some(AddressSpace::new(&mut full, &mut mem, PhysFrame(KERNEL_ROOT), HEAP).unwrap());
    let mut empty = Allocator::empty();
    assert_eq!(map_unmap_check(&mut space, &mut mem, &mut empty, HEAP), Status::Fail);
    assert_eq!(writable_nx_test(&mut space, &mut mem, &mut empty, HEAP), Status::Fail);
    let mut map = PhysicalMemoryMap::empty();
    map.push(PhysicalMemoryRegion { start: 0, length: 0x40_0000, kind: PhysicalMemoryKind::Usable });
    assert_eq!(reserved_hole_check(&map, &mut empty), Status::Fail);
}

#[test]
fn firmware_ranges_stay_reserved() {
    assert_eq!(
        saeos::mm::firmware_reservations(Some(0xF_6A40), DisplayMode::VgaText { buffer_addr: 0xB8000 }),
        vec![(0xF_6000, 0xF_7000), (0xB8000, 0xB8000 + 4000)]
    );
    let info = FramebufferInfo {
        base_addr: u64::MAX - 0x10,
        size: 0x1900,
        width: 8,
        height: 8,
        stride: 8,
        pixel_format: PixelFormat::Rgb,
    };
    assert_eq!(
        saeos::mm::firmware_reservations(None, DisplayMode::GopFramebuffer(info)),
        vec![(u64::MAX - 0x10, u64::MAX)]
    );
}

#[test]
fn highest_physical_end_of_the_map() {
    let mut map = PhysicalMemoryMap::empty();
    assert_eq!(saeos::mm::boot_map::highest_physical_end(&map), None);
    map.push(PhysicalMemoryRegion { start: 0x10_0000, length: 0x7F0_0000, kind: PhysicalMemoryKind::Usable });
    map.push(PhysicalMemoryRegion { start: 0x1000, length: 0x1000, kind: PhysicalMemoryKind::Reserved });
    assert_eq!(saeos::mm::boot_map::highest_physical_end(&map), Some(0x800_0000));
}

#[test]
fn self_test_report_lines_in_order() {
    assert_eq!(frame_probe_status(Some(true), Status::Fail), Status::Pass);
    assert_eq!(frame_probe_status(Some(false), Status::Skip), Status::Fail);
    assert_eq!(frame_probe_status(None, Status::Skip), Status::Skip);
    let (mut allocator, mut mem) = setup();
    let mut report = Report::new();
    record_frame_checks(&mut report, &mut allocator, Some(true), None);
    record_address_space_checks(&mut report, &mut allocator, &mut mem, PhysFrame(KERNEL_ROOT), HEAP);
    let names: Vec<&str> = report.lines.iter().take(10).map(|l| l.name).collect();
    assert_eq!(
        names,
        vec![
            "low frame allocation and access",
            "physical/virtual address round trip",
            "high frame allocation and access",
            "reserved-hole exclusion",
            "direct-map policy and canonical addresses",
            "temporary address-space creation",
            "user-page map/unmap and frame return",
            "invalid user-address rejection",
            "user permissions and NX entry",
            "user read/execute permission entry",
        ]
    );
    assert_eq!(report.lines[0].status, Status::Pass);
    assert_eq!(report.lines[2].status, Status::Skip);
    for i in 5..10 {
        assert_eq!(report.lines[i].status, Status::Pass);
    }
    assert_eq!(report.skipped, 1);
    assert_eq!(report.total(), 10);
}
