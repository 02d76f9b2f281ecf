use saeos::mm::heap::init_heap;
use saeos::boot::boot_info::{
    BootInfo, PhysicalMemoryKind, PhysicalMemoryMap, PhysicalMemoryRegion,
};
use saeos::mm::frame::{Allocator, FrameAllocator, PhysAddr, PhysFrame, PAGE_SIZE};
use saeos::mm::heap::{
    alloc_from_region, heap_start, heap_virt_start, size_align, validate, validate_reason,
    FreeRegion, LinkedListAllocator, LockedHeap, HEAP_SIZE,
};
use saeos::mm::{init_boot_memory, regions_near_heap};
use saeos::mm::multiboot::MultibootInfo;
use saeos::mm::paging::KERNEL_VIRT_BASE;

fn usable(start: u64, length: u64) -> PhysicalMemoryRegion {
    PhysicalMemoryRegion {
        start,
        length,
        kind: PhysicalMemoryKind::Usable,
    }
}

fn allocator_over(regions: &[PhysicalMemoryRegion]) -> Allocator {
    let mut map = PhysicalMemoryMap::empty();
    for region in regions {
        map.push(*region);
    }
    let mut allocator = Allocator::empty();
    allocator.init(map);
    allocator
}

#[test]
fn frames_come_in_address_order_from_one_page_up() {
    let mut allocator = allocator_over(&[usable(0, 0x20_0000)]);
    assert_eq!(allocator.alloc_frame(), Some(PhysFrame(PAGE_SIZE)));
    assert_eq!(allocator.alloc_frame(), Some(PhysFrame(2 * PAGE_SIZE)));
    assert!(allocator.is_reserved(PAGE_SIZE, 2 * PAGE_SIZE));
}

#[test]
fn freed_frame_is_handed_out_next() {
    let mut allocator = allocator_over(&[usable(0, 0x20_0000)]);
    let first = allocator.alloc_frame().unwrap();
    let second = allocator.alloc_frame().unwrap();
    assert_ne!(first, second);
    allocator.free_frame(first);
    assert!(!allocator.is_reserved(first.0, first.0 + PAGE_SIZE));
    assert_eq!(allocator.alloc_frame(), Some(first));
}

#[test]
fn reserved_ranges_are_skipped() {
    let mut allocator = allocator_over(&[usable(0, 0x20_0000)]);
    assert!(allocator.reserve_range(PhysAddr(0x1000), PhysAddr(0x5000)));
    assert_eq!(allocator.alloc_frame(), Some(PhysFrame(0x5000)));
    assert!(allocator.is_permanent(0x2000, 0x3000));
    allocator.free_frame(PhysFrame(0x2000));
    assert!(allocator.is_reserved(0x2000, 0x3000));
}

#[test]
fn bounded_allocations() {
    let mut allocator = allocator_over(&[usable(0, 0x40_0000)]);
    assert_eq!(
        allocator.alloc_frame_below(PhysAddr(0x20_0000)),
        Some(PhysFrame(0x10_0000))
    );
    assert_eq!(
        allocator.alloc_frame_at_or_above(PhysAddr(0x30_0000)),
        Some(PhysFrame(0x30_0000))
    );
    assert_eq!(allocator.alloc_frame_below(PhysAddr(0x10_0000)), None);
    assert_eq!(
        allocator.allocate_frame(Some(PhysAddr(0x2000))),
        Some(PhysFrame(0x1000))
    );
    assert_eq!(allocator.memory_map().count, 1);
}

#[test]
fn empty_allocator_has_nothing() {
    let mut allocator = Allocator::empty();
    assert_eq!(allocator.alloc_frame(), None);
}

#[test]
fn boot_memory_reserves_kernel_and_heap() {
    let mut info = BootInfo::default_bios();
    info.memory_map.push(usable(0, 0x200_0000));
    info.kernel_physical_start = 0x1000;
    info.kernel_physical_end = 0x3000;
    let mut allocator = Allocator::empty();
    init_boot_memory(&mut allocator, &info, 0x40_0000);
    assert!(allocator.is_reserved(0x1000, 0x2000));
    assert!(allocator.is_reserved(0x40_0000, 0x40_1000));
    assert!(allocator.is_reserved(0x40_0000 + HEAP_SIZE as u64 - 0x1000, 0x40_0000 + HEAP_SIZE as u64));
    assert_eq!(allocator.alloc_frame(), Some(PhysFrame(0x3000)));
    assert_eq!(info.total_memory_mb(), 32);
}

#[test]
fn heap_size_and_alignment_adjustment() {
    assert_eq!(size_align(1, 1), (16, 8));
    assert_eq!(size_align(20, 4), (24, 8));
    assert_eq!(size_align(24, 16), (32, 16));
    assert_eq!(size_align(100, 64), (128, 64));
}

#[test]
fn heap_region_fit_rules() {
    let region = FreeRegion {
        start: 0x1000,
        size: 0x100,
    };
    assert_eq!(alloc_from_region(&region, 0x100, 8), Ok(0x1000));
    assert_eq!(alloc_from_region(&region, 0xF8, 8), Err(()));
    assert_eq!(alloc_from_region(&region, 0x10, 0x1000), Ok(0x1000));
    let offset = FreeRegion {
        start: 0x1008,
        size: 0x100,
    };
    assert_eq!(alloc_from_region(&offset, 0x10, 16), Err(()));
    assert_eq!(alloc_from_region(&offset, 0x10, 32), Ok(0x1020));
}

#[test]
fn heap_allocate_and_free_merge_back() {
    let mut heap = LockedHeap::empty();
    assert!(heap.init(0x1000, 0x1000));
    let small = heap.allocate(16, 8);
    assert_eq!(small, 0x1000);
    let aligned = heap.allocate(100, 64);
    assert_eq!(aligned, 0x1040);
    assert_eq!(
        heap.allocator().regions(),
        &[
            FreeRegion {
                start: 0x1010,
                size: 0x30
            },
            FreeRegion {
                start: 0x10C0,
                size: 0xF40
            }
        ]
    );
    heap.deallocate(aligned, 100, 64);
    assert_eq!(
        heap.allocator().regions(),
        &[FreeRegion {
            start: 0x1010,
            size: 0xFF0
        }]
    );
    heap.deallocate(small, 16, 8);
    assert_eq!(
        heap.allocator().regions(),
        &[FreeRegion {
            start: 0x1000,
            size: 0x1000
        }]
    );
}

#[test]
fn heap_refuses_what_does_not_fit_or_is_not_free() {
    let mut heap = LockedHeap::empty();
    assert!(!heap.init(0x1001, 0x1000));
    assert!(heap.allocator().regions().is_empty());
    assert!(heap.init(0x1000, 0x100));
    assert_eq!(heap.allocate(0x200, 8), 0);
    heap.deallocate(0x1010, 16, 8);
    assert_eq!(
        heap.allocator().regions(),
        &[FreeRegion {
            start: 0x1000,
            size: 0x100
        }]
    );
}

#[test]
fn heap_validation_reasons() {
    let mut allocator = LinkedListAllocator::new();
    assert!(!validate(Some(&allocator), 0x1000, true));
    assert_eq!(
        validate_reason(Some(&allocator), 0x1000, true),
        "free list empty after initialization"
    );
    assert!(validate(Some(&allocator), 0x1000, false));
    assert!(allocator.init(0x1000, 0x1000));
    assert!(validate(Some(&allocator), 0x1000, true));
    assert_eq!(validate_reason(Some(&allocator), 0x1000, true), "valid");
    assert!(!validate(Some(&allocator), 0x2000, true));
    assert_eq!(
        validate_reason(Some(&allocator), 0x2000, true),
        "free node outside heap"
    );
    assert!(!validate(None, 0x1000, true));
    assert_eq!(validate_reason(None, 0x1000, true), "allocator lock held");
    assert_eq!(
        validate_reason(Some(&allocator), usize::MAX - 16, true),
        "heap range overflow"
    );
}

#[test]
fn heap_address_before_and_after_paging() {
    assert_eq!(heap_virt_start(0x20_0000, false), 0x20_0000);
    assert_eq!(
        heap_virt_start(0x20_0000, true),
        (KERNEL_VIRT_BASE + 0x20_0000) as usize
    );
    assert_eq!(heap_start(0x20_0000, true), heap_virt_start(0x20_0000, true));
}

fn mmap_entry(bytes: &mut Vec<u8>, base: u64, length: u64, kind: u32) {
    bytes.extend_from_slice(&20u32.to_le_bytes());
    bytes.extend_from_slice(&base.to_le_bytes());
    bytes.extend_from_slice(&length.to_le_bytes());
    bytes.extend_from_slice(&kind.to_le_bytes());
}

fn multiboot_info(flags: u32, mmap_length: u32) -> MultibootInfo {
    MultibootInfo {
        flags,
        mem_lower: 640,
        mem_upper: 1_047_552,
        boot_device: 0,
        cmdline: 0,
        mods_count: 0,
        mods_addr: 0,
        syms: [0; 4],
        mmap_length,
        mmap_addr: 0,
    }
}

#[test]
fn multiboot_memory_map_keeps_available_entries() {
    let mut bytes = Vec::new();
    mmap_entry(&mut bytes, 0, 0x9FC00, 1);
    mmap_entry(&mut bytes, 0xF0000, 0x10000, 2);
    mmap_entry(&mut bytes, 0x10_0000, 0x7EE_0000, 1);
    let length = bytes.len() as u32;
    bytes.resize(bytes.len() + 24, 0);
    let info = multiboot_info(0x41, length);
    assert!(info.has_mem_info());
    assert!(info.has_mmap_info());
    assert_eq!(info.total_memory_mb(), 1024);
    let map = info.usable_memory_map(&bytes);
    assert_eq!(map.count, 2);
    assert_eq!(map.regions[0], usable(0, 0x9FC00));
    assert_eq!(map.regions[1], usable(0x10_0000, 0x7EE_0000));
}

#[test]
fn multiboot_without_flags_reports_nothing() {
    let info = multiboot_info(0, 0);
    assert_eq!(info.total_memory_mb(), 0);
    assert_eq!(info.usable_memory_map(&[0u8; 24]).count, 0);
}

#[test]
fn regions_near_the_heap_are_listed_in_order() {
    let mut map = PhysicalMemoryMap::empty();
    map.push(PhysicalMemoryRegion { start: 0, length: 0x9_0000, kind: PhysicalMemoryKind::Usable });
    map.push(PhysicalMemoryRegion { start: 0x10_0000, length: 0x1f_0000, kind: PhysicalMemoryKind::Usable });
    map.push(PhysicalMemoryRegion { start: 0x2f_8000, length: 0x1000, kind: PhysicalMemoryKind::Reserved });
    map.push(PhysicalMemoryRegion { start: 0xd0_f000, length: 0x1000, kind: PhysicalMemoryKind::AcpiNvs });
    map.push(PhysicalMemoryRegion { start: 0xd1_1000, length: 0x1000, kind: PhysicalMemoryKind::Usable });
    let near = regions_near_heap(&map, 0x30_0000);
    assert_eq!(near.len(), 3);
    assert_eq!(near[0].start, 0x10_0000);
    assert_eq!(near[1].start, 0x2f_8000);
    assert_eq!(near[2].start, 0xd0_f000);
}

#[test]
fn heap_init_reports_what_the_boot_log_prints() {
    let mut heap = LockedHeap::empty();
    assert_eq!(init_heap(&mut heap, 0x1000), (true, None));
    assert_eq!(heap.allocator().regions()[0].size, HEAP_SIZE);
    let mut heap = LockedHeap::empty();
    assert_eq!(init_heap(&mut heap, 0x1003), (false, Some("valid")));
    let mut heap = LockedHeap::empty();
    assert_eq!(init_heap(&mut heap, usize::MAX - 8), (false, Some("heap range overflow")));
}

#[test]
fn add_free_region_refuses_bad_regions_and_merges_neighbours() {
    let mut allocator = LinkedListAllocator::new();
    assert!(allocator.add_free_region(0x1000, 0x100));
    assert!(!allocator.add_free_region(0x2004, 0x100));
    assert!(!allocator.add_free_region(0x2000, 8));
    assert!(!allocator.add_free_region(usize::MAX - 0xF, 0x20));
    assert!(!allocator.add_free_region(0x1080, 0x100));
    assert_eq!(allocator.regions(), &[FreeRegion { start: 0x1000, size: 0x100 }]);
    assert!(allocator.add_free_region(0x1200, 0x100));
    assert!(allocator.add_free_region(0x1100, 0x100));
    assert_eq!(allocator.regions(), &[FreeRegion { start: 0x1000, size: 0x300 }]);
}

#[test]
fn frame_at_or_above_respects_the_minimum() {
    let mut allocator = allocator_over(&[usable(0, 0x20_0000)]);
    assert_eq!(allocator.alloc_frame_at_or_above(PhysAddr(0x10_0000)), Some(PhysFrame(0x10_0000)));
    assert_eq!(allocator.alloc_frame_at_or_above(PhysAddr(0x10_0800)), Some(PhysFrame(0x10_1000)));
    assert_eq!(allocator.alloc_frame_at_or_above(PhysAddr(0x20_0000)), None);
}
