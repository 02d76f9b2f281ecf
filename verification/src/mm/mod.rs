//! Physical and virtual memory management.
use vstd::prelude::*;
use crate::boot::boot_info::{sat_add, BootInfo, DisplayMode, PhysicalMemoryKind, PhysicalMemoryMap, PhysicalMemoryRegion};
use crate::mm::frame::{map_alignable, Allocator, PhysAddr, ReservationKind};
use crate::mm::heap::HEAP_SIZE;

pub mod boot_map;
pub mod frame;
pub mod heap;
pub mod mapping_model;
pub mod page_table;
pub mod multiboot;
pub mod paging;
pub mod selftest;

verus! {

/// The permanent reservation record of `[start, end)`.
pub open spec fn permanent_record(start: u64, end: u64) -> (PhysicalMemoryRegion, ReservationKind) {
    (
        PhysicalMemoryRegion { start, length: (end - start) as u64, kind: PhysicalMemoryKind::Reserved },
        ReservationKind::Permanent,
    )
}

/// The physical ranges of firmware data that stay reserved once the kernel
/// tables are built: the page holding the RSDP, where there is one, then the
/// VGA text buffer (4000 bytes) or the framebuffer (its end saturating).
pub open spec fn firmware_ranges(rsdp: Option<u64>, display: DisplayMode) -> Seq<(u64, u64)> {
    let first = match rsdp {
        Some(a) => seq![((a - a % 4096) as u64, (a - a % 4096 + 4096) as u64)],
        None => Seq::empty(),
    };
    let shown = match display {
        DisplayMode::VgaText { buffer_addr } => (buffer_addr as u64, (buffer_addr + 4000) as u64),
        DisplayMode::GopFramebuffer(info) => (info.base_addr, sat_add(info.base_addr, info.size as u64)),
    };
    first.push(shown)
}

/// The ranges of `firmware_ranges`, in that order, each as start and end.
pub fn firmware_reservations(rsdp: Option<u64>, display: DisplayMode) -> (r: Vec<(u64, u64)>)
    requires
        rsdp matches Some(a) ==> a < 0xffff_ffff_ffff_f000,
        display matches DisplayMode::VgaText { buffer_addr } ==> buffer_addr + 4000 <= u64::MAX,
    ensures
        r@ == firmware_ranges(rsdp, display),
{
    let mut ranges: Vec<(u64, u64)> = Vec::new();
    match rsdp {
        Some(a) => {
            let page = a - a % 4096;
            ranges.push((page, page + 4096));
        },
        None => {},
    }
    let shown = match display {
        DisplayMode::VgaText { buffer_addr } => (buffer_addr as u64, buffer_addr as u64 + 4000),
        DisplayMode::GopFramebuffer(info) => (info.base_addr, info.base_addr.saturating_add(info.size as u64)),
    };
    ranges.push(shown);
    proof {
        assert(ranges@ =~= firmware_ranges(rsdp, display));
    }
    ranges
}

/// Hands the frame allocator the boot memory map and reserves, for good,
/// the kernel image and the heap storage at `heap_phys`.
pub fn init_boot_memory(allocator: &mut Allocator, boot_info: &BootInfo, heap_phys: u64)
    requires
        boot_info.memory_map.wf(),
        map_alignable(boot_info.memory_map@),
        heap_phys + HEAP_SIZE <= u64::MAX,
    ensures
        final(allocator).wf(),
        final(allocator).memory() == boot_info.memory_map@,
        final(allocator).recycle_list().len() == 0,
        final(allocator).reservations() == (if boot_info.kernel_physical_start < boot_info.kernel_physical_end {
            seq![
                permanent_record(boot_info.kernel_physical_start, boot_info.kernel_physical_end),
                permanent_record(heap_phys, (heap_phys + HEAP_SIZE) as u64),
            ]
        } else {
            seq![permanent_record(heap_phys, (heap_phys + HEAP_SIZE) as u64)]
        }),
{
    allocator.init(boot_info.memory_map.copied());
    allocator.reserve_range(PhysAddr(boot_info.kernel_physical_start), PhysAddr(boot_info.kernel_physical_end));
    allocator.reserve_range(PhysAddr(heap_phys), PhysAddr(heap_phys + HEAP_SIZE as u64));
    proof {
        if boot_info.kernel_physical_start < boot_info.kernel_physical_end {
            assert(allocator.reservations() =~= seq![
                permanent_record(boot_info.kernel_physical_start, boot_info.kernel_physical_end),
                permanent_record(heap_phys, (heap_phys + HEAP_SIZE) as u64),
            ]);
        } else {
            assert(allocator.reservations() =~= seq![permanent_record(heap_phys, (heap_phys + HEAP_SIZE) as u64)]);
        }
    }
}

/// The region reaches within 64 KiB of the heap storage at `heap_start`.
pub open spec fn near_heap(region: PhysicalMemoryRegion, heap_start: u64) -> bool {
    let low = if heap_start < 0x10000 { 0 } else { heap_start - 0x10000 };
    region.spec_end() >= low && region.start <= sat_add((heap_start + HEAP_SIZE) as u64, 0x10000)
}

/// The regions of `map` that reach near the heap storage at `heap_start`,
/// in order: the boot log lists them.
pub fn regions_near_heap(map: &PhysicalMemoryMap, heap_start: u64) -> (r: Vec<PhysicalMemoryRegion>)
    requires
        map.wf(),
        heap_start + HEAP_SIZE <= u64::MAX,
    ensures
        r@ == map@.filter(|region: PhysicalMemoryRegion| near_heap(region, heap_start)),
{
    let heap_end = heap_start + HEAP_SIZE as u64;
    let low = heap_start.saturating_sub(0x10000);
    let high = heap_end.saturating_add(0x10000);
    let mut near: Vec<PhysicalMemoryRegion> = Vec::new();
    let mut i: usize = 0;
    while i < map.count
        invariant
            map.wf(),
            i <= map.count,
            heap_end == heap_start + HEAP_SIZE,
            low == (if heap_start < 0x10000 { 0 } else { heap_start - 0x10000 }),
            high == sat_add(heap_end, 0x10000),
            near@ == map@.subrange(0, i as int).filter(|region: PhysicalMemoryRegion| near_heap(region, heap_start)),
        decreases map.count - i,
    {
        let region = map.regions[i];
        proof {
            let pred = |region: PhysicalMemoryRegion| near_heap(region, heap_start);
            assert(map@.subrange(0, i as int + 1).drop_last() =~= map@.subrange(0, i as int));
            reveal(Seq::filter);
            assert(map@.subrange(0, i as int + 1).filter(pred) == if pred(region) {
                map@.subrange(0, i as int).filter(pred).push(region)
            } else {
                map@.subrange(0, i as int).filter(pred)
            });
        }
        if region.end() >= low && region.start <= high {
            near.push(region);
        }
        i = i + 1;
    }
    proof {
        assert(map@.subrange(0, map.count as int) =~= map@);
    }
    near
}

} // verus!
