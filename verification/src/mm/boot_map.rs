//! The kernel's identity map and direct map, built at boot from the memory
//! map, the kernel image and the heap.
use vstd::prelude::*;
use crate::boot::boot_info::{DisplayMode, PhysicalMemoryKind, PhysicalMemoryMap, PhysicalMemoryRegion, sat_add};
use crate::mm::frame::{Allocator, PhysAddr, PhysFrame};
use crate::mm::heap::HEAP_SIZE;
use crate::mm::mapping_model::{planned_chunks, law_planned_chunk_shape};
use crate::mm::page_table::{
    lemma_identity_changes_compose, lemma_identity_changes_none, lemma_kernel_flags, lemma_mapped_empty,
    lemma_mapped_join, lemma_mapped_stays, lemma_writes_own_tables_compose, lemma_writes_own_tables_none,
    lemma_writes_own_tables_write, lemma_supply_chain_any, lemma_supply_reserve, lemma_supply_same_dom, supply_kept,
    table_supply_ok, tables_exhausted,
    only_identity_changes, range_mapped, writes_own_tables, KernelPageTables, PageTableMemory, bootstrap_frames_ok,
    bootstrap_pd, bootstrap_resolve, bootstrap_tables, install_bootstrap_identity_map, low47, pml4_slot, resolve,
    map_address, lemma_bootstrap_walk_pub, lemma_empty_root_resolves_nothing, run_table, zero_table, BOOTSTRAP_PD_COUNT,
    HUGE_LEAF_BITS, chunk_mapped, lemma_direct_chunks_kept,
};
use crate::mm::paging::{maps_in_direct_map, PageFlags};

verus! {

/// What a boot-time mapping was for.
#[derive(Debug, Clone, Copy, PartialEq, Eq, Structural)]
pub enum MapStage {
    /// A region of the memory map.
    Region,
    /// The loaded kernel image.
    KernelImage,
    /// The heap storage.
    Heap,
}

/// A range that could not be mapped at boot, and why.
#[derive(Debug, Clone, Copy)]
pub struct MapFailure {
    pub stage: MapStage,
    pub start: u64,
    pub end: u64,
    /// The direct map, or else the identity map.
    pub direct: bool,
    pub reason: &'static str,
}

/// The error that mapping the failure's range can end in: a range past
/// four-level paging is refused, then one that starts off a page boundary;
/// an aligned range within reach can only run out of table frames.
pub open spec fn failure_fits(f: MapFailure) -> bool {
    &&& f.start < f.end
    &&& f.end > 0x8000_0000_0000 ==> f.reason@ == "physical range exceeds four-level canonical coverage"@
    &&& f.end <= 0x8000_0000_0000 && f.start % 0x1000 != 0 ==> f.reason@ == "unaligned page mapping"@
    &&& f.end <= 0x8000_0000_0000 && f.start % 0x1000 == 0 ==> f.reason@ == "out of page-table frames"@
}

/// `failures` reports `[start, end)` of `stage` in the half that `direct`
/// picks.
pub open spec fn reported(failures: Seq<MapFailure>, stage: MapStage, start: u64, end: u64, direct: bool) -> bool {
    exists|j: int|
        0 <= j < failures.len() && (#[trigger] failures[j]).stage == stage && failures[j].start == start
            && failures[j].end == end && failures[j].direct == direct
}

/// A range that cannot be mapped at all: past four-level paging, or
/// starting off a page boundary.
pub open spec fn unmappable(start: u64, end: u64) -> bool {
    start < end && (end > 0x8000_0000_0000 || start % 0x1000 != 0)
}

/// `[start, end)` of `stage` is mapped in the half that `direct` picks, or
/// `failures` reports it; one that cannot be mapped is reported.
pub open spec fn boot_range_done(
    m: Map<u64, Seq<u64>>,
    root: u64,
    failures: Seq<MapFailure>,
    stage: MapStage,
    start: u64,
    end: u64,
    direct: bool,
) -> bool {
    if unmappable(start, end) {
        reported(failures, stage, start, end, direct)
    } else {
        range_mapped(m, root, start, end, direct) || reported(failures, stage, start, end, direct)
    }
}

/// A range that was done stays done as the tables only gain mappings of
/// addresses to themselves and the failures only grow.
proof fn lemma_done_stays(
    m1: Map<u64, Seq<u64>>,
    m2: Map<u64, Seq<u64>>,
    root: u64,
    f1: Seq<MapFailure>,
    f2: Seq<MapFailure>,
    stage: MapStage,
    start: u64,
    end: u64,
    direct: bool,
)
    requires
        boot_range_done(m1, root, f1, stage, start, end, direct),
        only_identity_changes(m1, m2, root),
        f1.len() <= f2.len(),
        f2.subrange(0, f1.len() as int) == f1,
    ensures
        boot_range_done(m2, root, f2, stage, start, end, direct),
{
    if reported(f1, stage, start, end, direct) {
        let j = choose|j: int|
            0 <= j < f1.len() && (#[trigger] f1[j]).stage == stage && f1[j].start == start && f1[j].end == end
                && f1[j].direct == direct;
        assert(f2[j] == f2.subrange(0, f1.len() as int)[j]);
    } else {
        lemma_mapped_stays(m1, m2, root, start, end, direct);
    }
}

/// Some range failed for want of page-table frames.
#[verifier::opaque]
pub open spec fn ran_out(failures: Seq<MapFailure>) -> bool {
    exists|j: int| 0 <= j < failures.len() && (#[trigger] failures[j]).reason@ == "out of page-table frames"@
}

/// Extending a failure list keeps what it said of the supply.
proof fn lemma_supply_runs(
    a0: Allocator,
    m0: Map<u64, Seq<u64>>,
    a1: Allocator,
    m1: Map<u64, Seq<u64>>,
    a2: Allocator,
    m2: Map<u64, Seq<u64>>,
    heap_phys: u64,
    f1: Seq<MapFailure>,
    f2: Seq<MapFailure>,
)
    requires
        supply_kept(a0, m0, a1, m1, heap_phys, ran_out(f1)),
        supply_kept(a1, m1, a2, m2, heap_phys, ran_out(f2) && !ran_out(f1)),
        f1.len() <= f2.len(),
        f2.subrange(0, f1.len() as int) == f1,
    ensures
        supply_kept(a0, m0, a2, m2, heap_phys, ran_out(f2)),
{
    lemma_supply_chain_any(a0, m0, a1, m1, a2, m2, heap_phys, ran_out(f1), ran_out(f2) && !ran_out(f1));
    reveal(ran_out);
    if ran_out(f1) {
        let j = choose|j: int| 0 <= j < f1.len() && (#[trigger] f1[j]).reason@ == "out of page-table frames"@;
        assert(f2[j] == f2.subrange(0, f1.len() as int)[j]);
    }
}

/// Failures that fit, appended to failures that fit, still fit.
proof fn lemma_reasons_extend(f1: Seq<MapFailure>, f2: Seq<MapFailure>)
    requires
        forall|j: int| 0 <= j < f1.len() ==> failure_fits(#[trigger] f1[j]),
        f1.len() <= f2.len(),
        f2.subrange(0, f1.len() as int) == f1,
        forall|j: int| f1.len() <= j < f2.len() ==> failure_fits(#[trigger] f2[j]),
    ensures
        forall|j: int| 0 <= j < f2.len() ==> failure_fits(#[trigger] f2[j]),
{
    assert forall|j: int| 0 <= j < f2.len() implies failure_fits(#[trigger] f2[j]) by {
        if j < f1.len() {
            assert(f2[j] == f2.subrange(0, f1.len() as int)[j]);
        }
    }
}

impl KernelPageTables {
    /// Maps `[start, end)` of `stage` in one half, noting a failure in
    /// `failures`.
    fn map_boot_range(
        &mut self,
        mem: &mut PageTableMemory,
        alloc: &mut Allocator,
        heap_phys: u64,
        failures: &mut Vec<MapFailure>,
        stage: MapStage,
        start: u64,
        end: u64,
        direct: bool,
        kind: PhysicalMemoryKind,
        gigabyte_pages: bool,
    )
        requires
            old(self).inv(old(mem)@),
            old(mem).wf(),
            old(alloc).wf(),
        ensures
            final(self).root_addr() == old(self).root_addr(),
            final(self).inv(final(mem)@),
            final(mem).wf(),
            final(alloc).wf(),
            only_identity_changes(old(mem)@, final(mem)@, old(self).root_addr()),
            writes_own_tables(old(mem)@, final(mem)@, old(self).tables(), final(self).tables()),
            boot_range_done(final(mem)@, old(self).root_addr(), final(failures)@, stage, start, end, direct),
            old(failures)@.len() <= final(failures)@.len() <= old(failures)@.len() + 1,
            final(failures)@.subrange(0, old(failures)@.len() as int) == old(failures)@,
            forall|j: int|
                old(failures)@.len() <= j < final(failures)@.len() ==> failure_fits(#[trigger] final(failures)@[j])
                    && final(failures)@[j].stage == stage && final(failures)@[j].start == start
                    && final(failures)@[j].end == end && final(failures)@[j].direct == direct,
            start >= end ==> final(failures)@ == old(failures)@,
            start < end && (end > 0x8000_0000_0000 || start % 0x1000 != 0) ==> final(failures)@.len() == old(
                failures,
            )@.len() + 1,
            supply_kept(
                *old(alloc),
                old(mem)@,
                *final(alloc),
                final(mem)@,
                heap_phys,
                ran_out(final(failures)@) && !ran_out(old(failures)@),
            ),
            final(failures)@.len() == old(failures)@.len() ==> forall|i: int|
                0 <= i < planned_chunks(start as int, end as int, direct, kind, gigabyte_pages).len()
                    ==> #[trigger] chunk_mapped(
                    final(mem)@,
                    old(self).root_addr(),
                    planned_chunks(start as int, end as int, direct, kind, gigabyte_pages)[i],
                    direct,
                    kind,
                ),
    {
        match self.map_range(mem, alloc, heap_phys, start, end, direct, kind, gigabyte_pages) {
            Ok(()) => {
                proof {
                    assert(failures@.subrange(0, failures@.len() as int) =~= failures@);
                }
            },
            Err(reason) => {
                let ghost before = failures@;
                failures.push(MapFailure { stage, start, end, direct, reason });
                proof {
                    assert(failures@.subrange(0, before.len() as int) =~= before);
                    reveal(ran_out);
                    if ran_out(failures@) && !ran_out(before) {
                        let j = choose|j: int|
                            0 <= j < failures@.len() && (#[trigger] failures@[j]).reason@ == "out of page-table frames"@;
                        if j < before.len() {
                            assert(failures@[j] == before[j]);
                        }
                    }
                    assert(failures@[before.len() as int].stage == stage);
                    assert(reported(failures@, stage, start, end, direct));
                }
            },
        }
    }

    /// Maps, in the identity map and in the direct map, every region of
    /// `map` that belongs there, then the kernel image
    /// `[kernel_start, kernel_end)` (writable, as it holds mutable data)
    /// and the heap storage at `heap_phys` (writable); returns the ranges
    /// that could not be mapped, in order.
    /// With a sound table supply (`table_supply_ok`), running out of page-table frames means the allocator has none below 4 GiB left (`supply_kept`).
    pub fn map_boot_memory(
        &mut self,
        mem: &mut PageTableMemory,
        alloc: &mut Allocator,
        heap_phys: u64,
        map: &PhysicalMemoryMap,
        kernel_start: u64,
        kernel_end: u64,
        gigabyte_pages: bool,
    ) -> (failures: Vec<MapFailure>)
        requires
            old(self).inv(old(mem)@),
            old(mem).wf(),
            old(alloc).wf(),
            map.wf(),
        ensures
            final(self).root_addr() == old(self).root_addr(),
            final(self).inv(final(mem)@),
            final(mem).wf(),
            final(alloc).wf(),
            only_identity_changes(old(mem)@, final(mem)@, old(self).root_addr()),
            writes_own_tables(old(mem)@, final(mem)@, old(self).tables(), final(self).tables()),
            forall|i: int, direct: bool|
                0 <= i < map@.len() && map@[i].kind != PhysicalMemoryKind::Reserved ==> #[trigger] boot_range_done(
                    final(mem)@,
                    old(self).root_addr(),
                    failures@,
                    MapStage::Region,
                    map@[i].start,
                    map@[i].spec_end(),
                    direct,
                ),
            forall|direct: bool|
                #[trigger] boot_range_done(
                    final(mem)@,
                    old(self).root_addr(),
                    failures@,
                    MapStage::KernelImage,
                    kernel_start,
                    kernel_end,
                    direct,
                ),
            forall|direct: bool|
                #[trigger] boot_range_done(
                    final(mem)@,
                    old(self).root_addr(),
                    failures@,
                    MapStage::Heap,
                    heap_phys,
                    sat_add(heap_phys, HEAP_SIZE as u64),
                    direct,
                ),
            forall|j: int| 0 <= j < failures@.len() ==> failure_fits(#[trigger] failures@[j]),
            supply_kept(*old(alloc), old(mem)@, *final(alloc), final(mem)@, heap_phys, ran_out(failures@)),
            !reported(failures@, MapStage::Heap, heap_phys, sat_add(heap_phys, HEAP_SIZE as u64), true) ==> forall|i: int|
                0 <= i < planned_chunks(
                    heap_phys as int,
                    sat_add(heap_phys, HEAP_SIZE as u64) as int,
                    true,
                    PhysicalMemoryKind::Usable,
                    gigabyte_pages,
                ).len() ==> #[trigger] chunk_mapped(
                    final(mem)@,
                    old(self).root_addr(),
                    planned_chunks(
                        heap_phys as int,
                        sat_add(heap_phys, HEAP_SIZE as u64) as int,
                        true,
                        PhysicalMemoryKind::Usable,
                        gigabyte_pages,
                    )[i],
                    true,
                    PhysicalMemoryKind::Usable,
                ),
    {
        let ghost m0 = mem@;
        let ghost a0 = *alloc;
        let ghost root = self.root_addr();
        let ghost t0 = self.tables();
        let mut failures: Vec<MapFailure> = Vec::new();
        proof {
            lemma_identity_changes_none(m0, root);
            lemma_writes_own_tables_none(m0, t0);
            reveal(ran_out);
        }
        let mut i: usize = 0;
        while i < map.count
            invariant
                map.wf(),
                self.inv(mem@),
                mem.wf(),
                alloc.wf(),
                self.root_addr() == root,
                root == old(self).root_addr(),
                m0 == old(mem)@,
                0 <= i <= map.count,
                only_identity_changes(m0, mem@, root),
                t0 == old(self).tables(),
                writes_own_tables(m0, mem@, t0, self.tables()),
                forall|k: int, direct: bool|
                    0 <= k < i && map@[k].kind != PhysicalMemoryKind::Reserved ==> #[trigger] boot_range_done(
                        mem@,
                        root,
                        failures@,
                        MapStage::Region,
                        map@[k].start,
                        map@[k].spec_end(),
                        direct,
                    ),
                forall|j: int| 0 <= j < failures@.len() ==> failure_fits(#[trigger] failures@[j]),
                a0 == *old(alloc),
                supply_kept(a0, m0, *alloc, mem@, heap_phys, ran_out(failures@)),
            decreases map.count - i,
        {
            let region = map.regions[i];
            if maps_in_direct_map(region.kind) {
                let ghost m1 = mem@;
                let ghost f1 = failures@;
                let ghost t1 = self.tables();
                let ghost ax0 = *alloc;
                let ghost mx0 = mem@;
                let ghost fx0 = failures@;
                self.map_boot_range(
                    mem,
                    alloc,
                    heap_phys,
                    &mut failures,
                    MapStage::Region,
                    region.start,
                    region.end(),
                    false,
                    region.kind,
                    gigabyte_pages,
                );
                proof {
                    lemma_supply_runs(a0, m0, ax0, mx0, *alloc, mem@, heap_phys, fx0, failures@);
                }
                let ghost m2 = mem@;
                let ghost f2 = failures@;
                let ghost t2 = self.tables();
                let ghost ax1 = *alloc;
                let ghost mx1 = mem@;
                let ghost fx1 = failures@;
                self.map_boot_range(
                    mem,
                    alloc,
                    heap_phys,
                    &mut failures,
                    MapStage::Region,
                    region.start,
                    region.end(),
                    true,
                    region.kind,
                    gigabyte_pages,
                );
                proof {
                    lemma_supply_runs(a0, m0, ax1, mx1, *alloc, mem@, heap_phys, fx1, failures@);
                }
                proof {
                    lemma_writes_own_tables_compose(m0, m1, m2, t0, t1, t2);
                    lemma_writes_own_tables_compose(m0, m2, mem@, t0, t2, self.tables());
                    lemma_identity_changes_compose(m0, m1, m2, root);
                    lemma_identity_changes_compose(m0, m2, mem@, root);
                    lemma_identity_changes_compose(m1, m2, mem@, root);
                    assert(failures@.subrange(0, f1.len() as int) =~= f2.subrange(0, f1.len() as int));
                    assert forall|k: int, direct: bool|
                        0 <= k < i + 1 && map@[k].kind != PhysicalMemoryKind::Reserved implies #[trigger] boot_range_done(
                        mem@,
                        root,
                        failures@,
                        MapStage::Region,
                        map@[k].start,
                        map@[k].spec_end(),
                        direct,
                    ) by {
                        if k < i {
                            lemma_done_stays(
                                m1,
                                mem@,
                                root,
                                f1,
                                failures@,
                                MapStage::Region,
                                map@[k].start,
                                map@[k].spec_end(),
                                direct,
                            );
                        } else if !direct {
                            lemma_done_stays(
                                m2,
                                mem@,
                                root,
                                f2,
                                failures@,
                                MapStage::Region,
                                map@[k].start,
                                map@[k].spec_end(),
                                direct,
                            );
                        }
                    }
                    lemma_reasons_extend(f1, f2);
                    lemma_reasons_extend(f2, failures@);
                }
            }
            i = i + 1;
        }
        let ghost m3 = mem@;
        let ghost f3 = failures@;
        let ghost t3 = self.tables();
        // The loaded image holds code and mutable data alike: until
        // sections get their own permissions, all of it is writable.
        if kernel_start < kernel_end {
            let ghost ax2 = *alloc;
            let ghost mx2 = mem@;
            let ghost fx2 = failures@;
            self.map_boot_range(
                mem,
                alloc,
                heap_phys,
                &mut failures,
                MapStage::KernelImage,
                kernel_start,
                kernel_end,
                false,
                PhysicalMemoryKind::Usable,
                gigabyte_pages,
            );
            proof {
                lemma_supply_runs(a0, m0, ax2, mx2, *alloc, mem@, heap_phys, fx2, failures@);
            }
            let ghost m4 = mem@;
            let ghost f4 = failures@;
            let ghost t4 = self.tables();
            let ghost ax3 = *alloc;
            let ghost mx3 = mem@;
            let ghost fx3 = failures@;
            self.map_boot_range(
                mem,
                alloc,
                heap_phys,
                &mut failures,
                MapStage::KernelImage,
                kernel_start,
                kernel_end,
                true,
                PhysicalMemoryKind::Usable,
                gigabyte_pages,
            );
            proof {
                lemma_supply_runs(a0, m0, ax3, mx3, *alloc, mem@, heap_phys, fx3, failures@);
            }
            proof {
                lemma_writes_own_tables_compose(m3, m4, mem@, t3, t4, self.tables());
                lemma_identity_changes_compose(m3, m4, mem@, root);
                lemma_done_stays(m4, mem@, root, f4, failures@, MapStage::KernelImage, kernel_start, kernel_end, false);
                lemma_reasons_extend(f3, f4);
                lemma_reasons_extend(f4, failures@);
                assert(failures@.subrange(0, f3.len() as int) =~= f4.subrange(0, f3.len() as int));
            }
        } else {
            proof {
                reveal(range_mapped);
                lemma_identity_changes_none(m3, root);
                lemma_writes_own_tables_none(m3, t3);
            }
        }
        let ghost m5 = mem@;
        let ghost f5 = failures@;
        let ghost t5 = self.tables();
        // The heap lies in the kernel image on some boots, and must stay
        // writable whatever that image's mapping says.
        let heap_end = heap_phys.saturating_add(HEAP_SIZE as u64);
        let ghost ax4 = *alloc;
        let ghost mx4 = mem@;
        let ghost fx4 = failures@;
        self.map_boot_range(
            mem,
            alloc,
            heap_phys,
            &mut failures,
            MapStage::Heap,
            heap_phys,
            heap_end,
            false,
            PhysicalMemoryKind::Usable,
            gigabyte_pages,
        );
        proof {
            lemma_supply_runs(a0, m0, ax4, mx4, *alloc, mem@, heap_phys, fx4, failures@);
        }
        let ghost m6 = mem@;
        let ghost f6 = failures@;
        let ghost t6 = self.tables();
        let ghost ax5 = *alloc;
        let ghost mx5 = mem@;
        let ghost fx5 = failures@;
        self.map_boot_range(
            mem,
            alloc,
            heap_phys,
            &mut failures,
            MapStage::Heap,
            heap_phys,
            heap_end,
            true,
            PhysicalMemoryKind::Usable,
            gigabyte_pages,
        );
        proof {
            lemma_supply_runs(a0, m0, ax5, mx5, *alloc, mem@, heap_phys, fx5, failures@);
            if failures@.len() != fx5.len() {
                assert(failures@[fx5.len() as int].stage == MapStage::Heap);
                assert(reported(failures@, MapStage::Heap, heap_phys, heap_end, true));
            }
        }
        proof {
            lemma_writes_own_tables_compose(m5, m6, mem@, t5, t6, self.tables());
            lemma_writes_own_tables_compose(m3, m5, mem@, t3, t5, self.tables());
            lemma_writes_own_tables_compose(m0, m3, mem@, t0, t3, self.tables());
            lemma_identity_changes_compose(m5, m6, mem@, root);
            lemma_identity_changes_compose(m3, m5, mem@, root);
            lemma_identity_changes_compose(m0, m3, mem@, root);
            lemma_done_stays(m6, mem@, root, f6, failures@, MapStage::Heap, heap_phys, heap_end, false);
            assert(failures@.subrange(0, f5.len() as int) =~= f5) by {
                assert(f6.subrange(0, f5.len() as int) == f5);
                assert(failures@.subrange(0, f6.len() as int) == f6);
            }
            assert forall|direct: bool|
                #[trigger] boot_range_done(
                    mem@,
                    root,
                    failures@,
                    MapStage::KernelImage,
                    kernel_start,
                    kernel_end,
                    direct,
                ) by {
                lemma_done_stays(m5, mem@, root, f5, failures@, MapStage::KernelImage, kernel_start, kernel_end, direct);
            }
            assert(failures@.subrange(0, f3.len() as int) =~= f3) by {
                assert(f5.subrange(0, f3.len() as int) == f3);
            }
            assert forall|k: int, direct: bool|
                0 <= k < map@.len() && map@[k].kind != PhysicalMemoryKind::Reserved implies #[trigger] boot_range_done(
                mem@,
                root,
                failures@,
                MapStage::Region,
                map@[k].start,
                map@[k].spec_end(),
                direct,
            ) by {
                lemma_done_stays(m3, mem@, root, f3, failures@, MapStage::Region, map@[k].start, map@[k].spec_end(), direct);
            }
            lemma_reasons_extend(f5, f6);
            lemma_reasons_extend(f6, failures@);
        }
        failures
    }
}

/// The start of the page that holds `v`.
pub open spec fn page_floor(v: u64) -> u64 {
    (v - v % 0x1000) as u64
}

/// The first page boundary at or above `v`.
pub open spec fn page_ceil(v: int) -> int {
    if v % 0x1000 == 0 {
        v
    } else {
        v - v % 0x1000 + 0x1000
    }
}

/// Where a display's memory starts and how many bytes it spans.
pub open spec fn display_memory(display: DisplayMode) -> (u64, u64) {
    match display {
        DisplayMode::VgaText { buffer_addr } => (buffer_addr as u64, 4000),
        DisplayMode::GopFramebuffer(info) => (info.base_addr, info.size as u64),
    }
}

/// The page boundary at or above `v`, which must not pass `u64::MAX`.
fn round_up_to_page(v: u64) -> (r: u64)
    requires
        page_ceil(v as int) <= u64::MAX,
    ensures
        r == page_ceil(v as int),
{
    if v % 0x1000 == 0 {
        v
    } else {
        v - v % 0x1000 + 0x1000
    }
}

impl KernelPageTables {
    /// Maps the pages of `[start, end)` at their direct-map addresses with
    /// `flags`, stopping at the first that cannot be mapped, which is
    /// returned.
    fn map_direct_pages(
        &mut self,
        mem: &mut PageTableMemory,
        alloc: &mut Allocator,
        heap_phys: u64,
        start: u64,
        end: u64,
        flags: PageFlags,
    ) -> (r: Option<u64>)
        requires
            old(self).inv(old(mem)@),
            old(mem).wf(),
            old(alloc).wf(),
            start % 0x1000 == 0,
            end % 0x1000 == 0,
            start <= end,
            flags.0 & crate::mm::paging::ADDRESS_MASK == 0,
            flags.0 & crate::mm::paging::PRESENT != 0,
        ensures
            final(self).root_addr() == old(self).root_addr(),
            final(self).inv(final(mem)@),
            final(mem).wf(),
            final(alloc).wf(),
            only_identity_changes(old(mem)@, final(mem)@, old(self).root_addr()),
            writes_own_tables(old(mem)@, final(mem)@, old(self).tables(), final(self).tables()),
            r is None ==> range_mapped(final(mem)@, old(self).root_addr(), start, end, true),
            supply_kept(
                *old(alloc),
                old(mem)@,
                *final(alloc),
                final(mem)@,
                heap_phys,
                r matches Some(q) && q < 0x8000_0000_0000,
            ),
            r matches Some(q) ==> start <= q < end && q % 0x1000 == 0 && range_mapped(
                final(mem)@,
                old(self).root_addr(),
                start,
                q,
                true,
            ),
    {
        let ghost m0 = mem@;
        let ghost root = self.root_addr();
        let ghost t0 = self.tables();
        let ghost a0 = *alloc;
        proof {
            lemma_writes_own_tables_none(m0, t0);
            lemma_identity_changes_none(m0, root);
            lemma_mapped_empty(m0, root, start, true);
        }
        let mut physical = start;
        while physical < end
            invariant
                self.inv(mem@),
                mem.wf(),
                alloc.wf(),
                self.root_addr() == root,
                root == old(self).root_addr(),
                m0 == old(mem)@,
                start <= physical <= end,
                physical % 0x1000 == 0,
                end % 0x1000 == 0,
                flags.0 & crate::mm::paging::ADDRESS_MASK == 0,
                flags.0 & crate::mm::paging::PRESENT != 0,
                only_identity_changes(m0, mem@, root),
                range_mapped(mem@, root, start, physical, true),
                t0 == old(self).tables(),
                writes_own_tables(m0, mem@, t0, self.tables()),
                a0 == *old(alloc),
                supply_kept(a0, m0, *alloc, mem@, heap_phys, false),
            decreases end - physical,
        {
            if physical >= 0x8000_0000_0000 {
                return Some(physical);
            }
            let ghost m1 = mem@;
            let ghost t1 = self.tables();
            let ghost a1 = *alloc;
            let mapped = self.map_direct_page(mem, alloc, heap_phys, physical, flags);
            proof {
                lemma_supply_chain_any(a0, m0, a1, m1, *alloc, mem@, heap_phys, false, mapped is Err);
                lemma_writes_own_tables_compose(m0, m1, mem@, t0, t1, self.tables());
                lemma_identity_changes_compose(m0, m1, mem@, root);
                lemma_mapped_stays(m1, mem@, root, start, physical, true);
            }
            if mapped.is_err() {
                return Some(physical);
            }
            proof {
                lemma_mapped_join(mem@, root, start, physical, (physical + 0x1000) as u64, true);
            }
            physical = physical + 0x1000;
        }
        None
    }

    /// Maps the display's memory at its direct-map addresses as device
    /// memory, page by page, stopping at the first page that cannot be
    /// mapped, which is returned for the log. Nothing is mapped where the
    /// identity map already serves device memory (`prefer_identity`, the
    /// BIOS boot path) or where the display's end does not fit in 64 bits.
    /// With a sound table supply (`table_supply_ok`), running out of page-table frames means the allocator has none below 4 GiB left (`supply_kept`).
    pub fn map_framebuffer(
        &mut self,
        mem: &mut PageTableMemory,
        alloc: &mut Allocator,
        heap_phys: u64,
        display: DisplayMode,
        prefer_identity: bool,
    ) -> (r: Option<u64>)
        requires
            old(self).inv(old(mem)@),
            old(mem).wf(),
            old(alloc).wf(),
            !prefer_identity && display_memory(display).0 + display_memory(display).1 <= u64::MAX ==> page_ceil(
                display_memory(display).0 + display_memory(display).1,
            ) <= u64::MAX,
        ensures
            final(self).root_addr() == old(self).root_addr(),
            final(self).inv(final(mem)@),
            final(mem).wf(),
            final(alloc).wf(),
            supply_kept(
                *old(alloc),
                old(mem)@,
                *final(alloc),
                final(mem)@,
                heap_phys,
                r matches Some(q) && q < 0x8000_0000_0000,
            ),
            only_identity_changes(old(mem)@, final(mem)@, old(self).root_addr()),
            writes_own_tables(old(mem)@, final(mem)@, old(self).tables(), final(self).tables()),
            prefer_identity || display_memory(display).0 + display_memory(display).1 > u64::MAX ==> r is None
                && final(mem)@ == old(mem)@,
            ({
                let (base, size) = display_memory(display);
                !prefer_identity && base + size <= u64::MAX ==> {
                    &&& r is None ==> range_mapped(
                        final(mem)@,
                        old(self).root_addr(),
                        page_floor(base),
                        page_ceil(base + size) as u64,
                        true,
                    )
                    &&& r matches Some(q) ==> page_floor(base) <= q < page_ceil(base + size) && q % 0x1000 == 0
                        && range_mapped(final(mem)@, old(self).root_addr(), page_floor(base), q, true)
                }
            }),
    {
        proof {
            lemma_identity_changes_none(mem@, self.root_addr());
            lemma_writes_own_tables_none(mem@, self.tables());
        }
        // The BIOS path keeps the bootloader's writable identity map for
        // device memory: no huge page gets split just to remap it.
        if prefer_identity {
            return None;
        }
        let (base, size) = match display {
            DisplayMode::VgaText { buffer_addr } => (buffer_addr as u64, 4000u64),
            DisplayMode::GopFramebuffer(info) => (info.base_addr, info.size as u64),
        };
        let start = base - base % 0x1000;
        let end = match base.checked_add(size) {
            Some(v) => round_up_to_page(v),
            None => {
                return None;
            },
        };
        proof {
            lemma_kernel_flags();
        }
        self.map_direct_pages(mem, alloc, heap_phys, start, end, PageFlags::mmio())
    }

    /// Maps the pages that hold the 36-byte RSDP at `rsdp` at their
    /// direct-map addresses, read-only, going on past a page that cannot
    /// be mapped; `true` when every page was mapped.
    /// With a sound table supply (`table_supply_ok`), running out of page-table frames means the allocator has none below 4 GiB left (`supply_kept`).
    pub fn map_rsdp(&mut self, mem: &mut PageTableMemory, alloc: &mut Allocator, heap_phys: u64, rsdp: u64) -> (r:
        bool)
        requires
            old(self).inv(old(mem)@),
            old(mem).wf(),
            old(alloc).wf(),
            page_ceil(sat_add(rsdp, 36) as int) <= 0x8000_0000_0000,
        ensures
            final(self).root_addr() == old(self).root_addr(),
            final(self).inv(final(mem)@),
            final(mem).wf(),
            final(alloc).wf(),
            only_identity_changes(old(mem)@, final(mem)@, old(self).root_addr()),
            writes_own_tables(old(mem)@, final(mem)@, old(self).tables(), final(self).tables()),
            supply_kept(*old(alloc), old(mem)@, *final(alloc), final(mem)@, heap_phys, !r),
            r ==> range_mapped(
                final(mem)@,
                old(self).root_addr(),
                page_floor(rsdp),
                page_ceil(sat_add(rsdp, 36) as int) as u64,
                true,
            ),
    {
        let ghost m0 = mem@;
        let ghost root = self.root_addr();
        let ghost t0 = self.tables();
        let ghost a0 = *alloc;
        let start = rsdp - rsdp % 0x1000;
        let end = round_up_to_page(rsdp.saturating_add(36));
        proof {
            lemma_identity_changes_none(m0, root);
            lemma_writes_own_tables_none(m0, t0);
            lemma_mapped_empty(m0, root, start, true);
            lemma_kernel_flags();
        }
        let mut all_mapped = true;
        let mut physical = start;
        while physical < end
            invariant
                self.inv(mem@),
                mem.wf(),
                alloc.wf(),
                self.root_addr() == root,
                root == old(self).root_addr(),
                m0 == old(mem)@,
                start <= physical <= end,
                physical % 0x1000 == 0,
                end % 0x1000 == 0,
                end <= 0x8000_0000_0000,
                only_identity_changes(m0, mem@, root),
                all_mapped ==> range_mapped(mem@, root, start, physical, true),
                t0 == old(self).tables(),
                writes_own_tables(m0, mem@, t0, self.tables()),
                a0 == *old(alloc),
                supply_kept(a0, m0, *alloc, mem@, heap_phys, !all_mapped),
            decreases end - physical,
        {
            let ghost m1 = mem@;
            let ghost t1 = self.tables();
            let ghost a1 = *alloc;
            proof {
                lemma_kernel_flags();
            }
            let mapped = self.map_direct_page(mem, alloc, heap_phys, physical, PageFlags::read_only());
            proof {
                lemma_supply_chain_any(a0, m0, a1, m1, *alloc, mem@, heap_phys, !all_mapped, mapped is Err);
                lemma_writes_own_tables_compose(m0, m1, mem@, t0, t1, self.tables());
                lemma_identity_changes_compose(m0, m1, mem@, root);
                if all_mapped {
                    lemma_mapped_stays(m1, mem@, root, start, physical, true);
                    if mapped is Ok {
                        lemma_mapped_join(mem@, root, start, physical, (physical + 0x1000) as u64, true);
                    }
                }
            }
            if mapped.is_err() {
                all_mapped = false;
            }
            physical = physical + 0x1000;
        }
        all_mapped
    }
}

/// A range that resolves to itself in the direct map keeps doing so while
/// only the PML4's first slot changes.
proof fn lemma_direct_mapped_outside_first_slot(
    m1: Map<u64, Seq<u64>>,
    m2: Map<u64, Seq<u64>>,
    root: u64,
    start: u64,
    end: u64,
)
    requires
        range_mapped(m1, root, start, end, true),
        forall|x: u64| pml4_slot(x) != 0 ==> #[trigger] resolve(m2, root, x) == resolve(m1, root, x),
    ensures
        range_mapped(m2, root, start, end, true),
{
    reveal(range_mapped);
    assert forall|p: u64| start <= p < end && p < 0x8000_0000_0000 implies #[trigger] resolve(
        m2,
        root,
        map_address(p, true),
    ) == Some(p as int) by {
        assert(pml4_slot(map_address(p, true)) != 0);
    }
}

/// Addresses in the PML4's first slot are their own offset in the lower
/// half below 512 GiB.
proof fn lemma_first_slot_offset(x: u64)
    requires
        pml4_slot(x) == 0,
    ensures
        x as int % 0x80_0000_0000 == low47(x),
{
    assert(x % 0x8000_0000_0000 == x % 0x80_0000_0000) by (nonlinear_arith)
        requires
            (x / 0x80_0000_0000) % 512 == 0,
    ;
}

/// Steps that write only their own tables leave the bootstrap tables
/// (which are none of theirs) as they were.
proof fn lemma_bootstrap_untouched(
    m0: Map<u64, Seq<u64>>,
    m1: Map<u64, Seq<u64>>,
    t0: Set<u64>,
    t1: Set<u64>,
    pml4: u64,
    pdpt: u64,
    pd_base: u64,
)
    requires
        writes_own_tables(m0, m1, t0, t1),
        bootstrap_tables(m0, pdpt, pd_base),
        m0.contains_key(pml4),
        !t0.contains(pml4),
        !t0.contains(pdpt),
        forall|i: int| 0 <= i < BOOTSTRAP_PD_COUNT ==> !t0.contains(#[trigger] bootstrap_pd(pd_base, i)),
    ensures
        bootstrap_tables(m1, pdpt, pd_base),
        m1.contains_key(pml4),
        m1[pml4] == m0[pml4],
{
    reveal(writes_own_tables);
    assert(m0.contains_key(pdpt));
    assert(m1.contains_key(pdpt) && m1[pdpt] == m0[pdpt]);
    assert(m1.contains_key(pml4) && m1[pml4] == m0[pml4]);
    assert forall|i: int| 0 <= i < BOOTSTRAP_PD_COUNT implies #[trigger] m1.contains_key(bootstrap_pd(pd_base, i))
        && m1[bootstrap_pd(pd_base, i)] == run_table((i * 0x4000_0000) as u64, 0x20_0000, HUGE_LEAF_BITS) by {
        assert(m0.contains_key(bootstrap_pd(pd_base, i)));
        assert(m1[bootstrap_pd(pd_base, i)] == m0[bootstrap_pd(pd_base, i)]);
    }
}

/// A PML4 that started out empty and only gained mappings of addresses to
/// themselves resolves every address to itself or to nothing.
proof fn lemma_fresh_root_identity(m0: Map<u64, Seq<u64>>, m1: Map<u64, Seq<u64>>, root: u64)
    requires
        m0.contains_key(root),
        m0[root] == zero_table(),
        only_identity_changes(m0, m1, root),
    ensures
        forall|x: u64| #[trigger] resolve(m1, root, x) is None || resolve(m1, root, x) == Some(low47(x) as int),
{
    reveal(only_identity_changes);
    assert forall|x: u64| #[trigger] resolve(m1, root, x) is None || resolve(m1, root, x) == Some(
        low47(x) as int,
    ) by {
        lemma_empty_root_resolves_nothing(m0, root, x);
        assert(resolve(m1, root, x) == resolve(m0, root, x) || resolve(m1, root, x) == Some(low47(x) as int));
    }
}

/// The finished tables: the first slot is the bootstrap window, every
/// address resolves to itself or nothing, and what the direct map had
/// stays.
proof fn lemma_finished_tables(
    m_mapped: Map<u64, Seq<u64>>,
    m: Map<u64, Seq<u64>>,
    root: u64,
    map: Seq<PhysicalMemoryRegion>,
    failures: Seq<MapFailure>,
    kernel_start: u64,
    kernel_end: u64,
    heap_phys: u64,
)
    requires
        forall|x: u64| #[trigger] resolve(m_mapped, root, x) is None || resolve(m_mapped, root, x) == Some(
            low47(x) as int,
        ),
        forall|x: u64| pml4_slot(x) != 0 ==> #[trigger] resolve(m, root, x) == resolve(m_mapped, root, x),
        forall|x: u64| pml4_slot(x) == 0 ==> #[trigger] resolve(m, root, x) == bootstrap_resolve(x),
        forall|i: int, direct: bool|
            0 <= i < map.len() && map[i].kind != PhysicalMemoryKind::Reserved ==> #[trigger] boot_range_done(
                m_mapped,
                root,
                failures,
                MapStage::Region,
                map[i].start,
                map[i].spec_end(),
                direct,
            ),
        forall|direct: bool|
            #[trigger] boot_range_done(m_mapped, root, failures, MapStage::KernelImage, kernel_start, kernel_end, direct),
        forall|direct: bool|
            #[trigger] boot_range_done(
                m_mapped,
                root,
                failures,
                MapStage::Heap,
                heap_phys,
                sat_add(heap_phys, HEAP_SIZE as u64),
                direct,
            ),
    ensures
        forall|x: u64| #[trigger] resolve(m, root, x) is None || resolve(m, root, x) == Some(low47(x) as int),
        forall|i: int|
            0 <= i < map.len() && map[i].kind != PhysicalMemoryKind::Reserved ==> #[trigger] boot_range_done(
                m,
                root,
                failures,
                MapStage::Region,
                map[i].start,
                map[i].spec_end(),
                true,
            ),
        boot_range_done(m, root, failures, MapStage::KernelImage, kernel_start, kernel_end, true),
        boot_range_done(m, root, failures, MapStage::Heap, heap_phys, sat_add(heap_phys, HEAP_SIZE as u64), true),
{
    assert forall|x: u64| #[trigger] resolve(m, root, x) is None || resolve(m, root, x) == Some(low47(x) as int) by {
        if pml4_slot(x) == 0 {
            lemma_first_slot_offset(x);
        } else {
            assert(resolve(m_mapped, root, x) is None || resolve(m_mapped, root, x) == Some(low47(x) as int));
        }
    }
    assert forall|i: int|
        0 <= i < map.len() && map[i].kind != PhysicalMemoryKind::Reserved implies #[trigger] boot_range_done(
        m,
        root,
        failures,
        MapStage::Region,
        map[i].start,
        map[i].spec_end(),
        true,
    ) by {
        assert(boot_range_done(m_mapped, root, failures, MapStage::Region, map[i].start, map[i].spec_end(), true));
        if range_mapped(m_mapped, root, map[i].start, map[i].spec_end(), true) {
            lemma_direct_mapped_outside_first_slot(m_mapped, m, root, map[i].start, map[i].spec_end());
        }
    }
    assert(boot_range_done(m_mapped, root, failures, MapStage::KernelImage, kernel_start, kernel_end, true));
    if range_mapped(m_mapped, root, kernel_start, kernel_end, true) {
        lemma_direct_mapped_outside_first_slot(m_mapped, m, root, kernel_start, kernel_end);
    }
    assert(boot_range_done(
        m_mapped,
        root,
        failures,
        MapStage::Heap,
        heap_phys,
        sat_add(heap_phys, HEAP_SIZE as u64),
        true,
    ));
    if range_mapped(m_mapped, root, heap_phys, sat_add(heap_phys, HEAP_SIZE as u64), true) {
        lemma_direct_mapped_outside_first_slot(m_mapped, m, root, heap_phys, sat_add(heap_phys, HEAP_SIZE as u64));
    }
}

/// Reserves the frames of the bootstrap tables for good.
fn reserve_bootstrap_frames(alloc: &mut Allocator, pml4: u64, pdpt: u64, pd_base: u64)
    requires
        old(alloc).wf(),
        bootstrap_frames_ok(pml4, pdpt, pd_base),
    ensures
        final(alloc).wf(),
        forall|m: Map<u64, Seq<u64>>, h: u64|
            #[trigger] table_supply_ok(*old(alloc), m, h) ==> table_supply_ok(*final(alloc), m, h),
{
    let ghost a0 = *alloc;
    let _ = alloc.reserve_range(PhysAddr(pml4), PhysAddr(pml4 + 0x1000));
    let ghost a1 = *alloc;
    let _ = alloc.reserve_range(PhysAddr(pdpt), PhysAddr(pdpt + 0x1000));
    let ghost a2 = *alloc;
    proof {
        assert forall|m: Map<u64, Seq<u64>>, h: u64| #[trigger] table_supply_ok(a0, m, h) implies table_supply_ok(a2, m, h) by {
            lemma_supply_reserve(a0, a1, m, h);
            lemma_supply_reserve(a1, a2, m, h);
        }
    }
    let mut index: u64 = 0;
    while index < BOOTSTRAP_PD_COUNT as u64
        invariant
            alloc.wf(),
            bootstrap_frames_ok(pml4, pdpt, pd_base),
            index <= BOOTSTRAP_PD_COUNT,
            forall|m: Map<u64, Seq<u64>>, h: u64|
                #[trigger] table_supply_ok(a0, m, h) ==> table_supply_ok(*alloc, m, h),
        decreases BOOTSTRAP_PD_COUNT - index,
    {
        let address = pd_base + index * 0x1000;
        let ghost ar = *alloc;
        let _ = alloc.reserve_range(PhysAddr(address), PhysAddr(address + 0x1000));
        proof {
            assert forall|m: Map<u64, Seq<u64>>, h: u64| #[trigger] table_supply_ok(a0, m, h) implies table_supply_ok(
                *alloc,
                m,
                h,
            ) by {
                assert(table_supply_ok(ar, m, h));
                lemma_supply_reserve(ar, *alloc, m, h);
            }
        }
        index = index + 1;
    }
}

/// Installs the bootstrap identity map, reserves its frames and makes an
/// empty PML4; gives back the tables as they were before the PML4.
fn prepare_root(
    alloc: &mut Allocator,
    mem: &mut PageTableMemory,
    heap_phys: u64,
    bootstrap_pml4: u64,
    bootstrap_pdpt: u64,
    bootstrap_pd_base: u64,
) -> (r: (Option<KernelPageTables>, Ghost<Map<u64, Seq<u64>>>))
    requires
        old(alloc).wf(),
        old(mem).wf(),
        bootstrap_frames_ok(bootstrap_pml4, bootstrap_pdpt, bootstrap_pd_base),
        old(mem)@.contains_key(bootstrap_pml4),
        old(mem)@.contains_key(bootstrap_pdpt),
        forall|i: int|
            0 <= i < BOOTSTRAP_PD_COUNT ==> #[trigger] old(mem)@.contains_key(bootstrap_pd(bootstrap_pd_base, i)),
    ensures
        final(alloc).wf(),
        final(mem).wf(),
        ({
            let m_boot = r.1@;
            &&& bootstrap_tables(m_boot, bootstrap_pdpt, bootstrap_pd_base)
            &&& m_boot[bootstrap_pml4] == zero_table().update(0, crate::mm::page_table::link(bootstrap_pdpt))
            &&& m_boot.dom() == old(mem)@.dom()
            &&& forall|x: u64| #[trigger] resolve(m_boot, bootstrap_pml4, x) == bootstrap_resolve(x)
            &&& r.0 is None ==> final(mem)@ == m_boot
            &&& r.0 matches Some(t) ==> t.inv(final(mem)@) && !m_boot.contains_key(t.root_addr()) && final(mem)@
                == m_boot.insert(t.root_addr(), zero_table()) && t.tables() == set![t.root_addr()]
                && t.root_addr() % 0x1000 == 0 && t.root_addr() < crate::mm::page_table::TABLE_MEMORY_LIMIT
            &&& table_supply_ok(*old(alloc), old(mem)@, heap_phys) && r.0 is None ==> tables_exhausted(*final(alloc))
            &&& table_supply_ok(*old(alloc), old(mem)@, heap_phys) ==> table_supply_ok(*final(alloc), final(mem)@, heap_phys)
        }),
{
    install_bootstrap_identity_map(mem, bootstrap_pml4, bootstrap_pdpt, bootstrap_pd_base);
    let ghost m_boot = mem@;
    let ghost a0 = *alloc;
    reserve_bootstrap_frames(alloc, bootstrap_pml4, bootstrap_pdpt, bootstrap_pd_base);
    let ghost a1 = *alloc;
    proof {
        if table_supply_ok(a0, old(mem)@, heap_phys) {
            lemma_supply_same_dom(a0, old(mem)@, m_boot, heap_phys);
            assert(table_supply_ok(a1, m_boot, heap_phys));
        }
    }
    let got = KernelPageTables::new(alloc, mem, heap_phys);
    (got, Ghost(m_boot))
}

/// Builds the kernel's page tables at boot: the bootstrap identity window
/// of the first 16 GiB in the tables `bootstrap_pml4`, `bootstrap_pdpt` and
/// the 16 directories from `bootstrap_pd_base` (reserved in `alloc`), then
/// a new PML4 with the identity map and the direct map of the memory map,
/// the kernel image and the heap, whose first slot finally goes back to
/// the bootstrap window. Returns the new PML4 and the ranges that could not
/// be mapped; `None` where no frame was left for the PML4.
/// With a sound table supply (`table_supply_ok`), a range within reach and
/// page aligned is reported only when the allocator has no frame below
/// 4 GiB left (`tables_exhausted`).
pub fn build_kernel_tables(
    alloc: &mut Allocator,
    mem: &mut PageTableMemory,
    heap_phys: u64,
    map: &PhysicalMemoryMap,
    kernel_start: u64,
    kernel_end: u64,
    gigabyte_pages: bool,
    bootstrap_pml4: u64,
    bootstrap_pdpt: u64,
    bootstrap_pd_base: u64,
) -> (r: Option<(PhysFrame, Vec<MapFailure>)>)
    requires
        old(alloc).wf(),
        old(mem).wf(),
        map.wf(),
        bootstrap_frames_ok(bootstrap_pml4, bootstrap_pdpt, bootstrap_pd_base),
        old(mem)@.contains_key(bootstrap_pml4),
        old(mem)@.contains_key(bootstrap_pdpt),
        forall|i: int|
            0 <= i < BOOTSTRAP_PD_COUNT ==> #[trigger] old(mem)@.contains_key(bootstrap_pd(bootstrap_pd_base, i)),
    ensures
        final(alloc).wf(),
        final(mem).wf(),
        forall|x: u64| #[trigger] resolve(final(mem)@, bootstrap_pml4, x) == bootstrap_resolve(x),
        table_supply_ok(*old(alloc), old(mem)@, heap_phys) && r is None ==> tables_exhausted(*final(alloc)),
        r matches Some((root, failures)) ==> (table_supply_ok(*old(alloc), old(mem)@, heap_phys) ==> forall|j: int|
            0 <= j < failures@.len() ==> unmappable(#[trigger] failures@[j].start, failures@[j].end)
                || tables_exhausted(*final(alloc))),
        r matches Some((root, failures)) ==> {
            &&& !old(mem)@.contains_key(root.0)
            &&& forall|x: u64|
                pml4_slot(x) == 0 ==> #[trigger] resolve(final(mem)@, root.0, x) == bootstrap_resolve(x)
            &&& forall|x: u64|
                #[trigger] resolve(final(mem)@, root.0, x) is None || resolve(final(mem)@, root.0, x) == Some(
                    low47(x) as int,
                )
            &&& forall|i: int|
                0 <= i < map@.len() && map@[i].kind != PhysicalMemoryKind::Reserved ==> #[trigger] boot_range_done(
                    final(mem)@,
                    root.0,
                    failures@,
                    MapStage::Region,
                    map@[i].start,
                    map@[i].spec_end(),
                    true,
                )
            &&& boot_range_done(final(mem)@, root.0, failures@, MapStage::KernelImage, kernel_start, kernel_end, true)
            &&& boot_range_done(
                final(mem)@,
                root.0,
                failures@,
                MapStage::Heap,
                heap_phys,
                sat_add(heap_phys, HEAP_SIZE as u64),
                true,
            )
            &&& forall|j: int| 0 <= j < failures@.len() ==> failure_fits(#[trigger] failures@[j])
            &&& !reported(failures@, MapStage::Heap, heap_phys, sat_add(heap_phys, HEAP_SIZE as u64), true)
                ==> forall|i: int|
                0 <= i < planned_chunks(
                    heap_phys as int,
                    sat_add(heap_phys, HEAP_SIZE as u64) as int,
                    true,
                    PhysicalMemoryKind::Usable,
                    gigabyte_pages,
                ).len() ==> #[trigger] chunk_mapped(
                    final(mem)@,
                    root.0,
                    planned_chunks(
                        heap_phys as int,
                        sat_add(heap_phys, HEAP_SIZE as u64) as int,
                        true,
                        PhysicalMemoryKind::Usable,
                        gigabyte_pages,
                    )[i],
                    true,
                    PhysicalMemoryKind::Usable,
                )
        },
{
    let (got, Ghost(m_boot)) = prepare_root(alloc, mem, heap_phys, bootstrap_pml4, bootstrap_pdpt, bootstrap_pd_base);
    let mut tables = match got {
        Some(t) => t,
        None => {
            return None;
        },
    };
    let ghost m_root = mem@;
    let ghost root = tables.root_addr();
    let ghost t_root = tables.tables();
    proof {
        assert(root != bootstrap_pdpt && root != bootstrap_pml4);
        assert forall|i: int| 0 <= i < BOOTSTRAP_PD_COUNT implies root != #[trigger] bootstrap_pd(
            bootstrap_pd_base,
            i,
        ) by {
            assert(m_boot.contains_key(bootstrap_pd(bootstrap_pd_base, i)));
        }
        assert(bootstrap_frames_ok(root, bootstrap_pdpt, bootstrap_pd_base)) by {
            if bootstrap_pd_base <= root < bootstrap_pd_base + BOOTSTRAP_PD_COUNT * 0x1000 {
                let i = (root - bootstrap_pd_base) / 0x1000;
                assert(root == bootstrap_pd(bootstrap_pd_base, i));
            }
        }
        lemma_writes_own_tables_write(m_boot, Set::empty(), root, zero_table());
        lemma_bootstrap_untouched(
            m_boot,
            m_root,
            Set::empty(),
            Set::empty().insert(root),
            bootstrap_pml4,
            bootstrap_pdpt,
            bootstrap_pd_base,
        );
    }
    let ghost a_root = *alloc;
    let failures = tables.map_boot_memory(mem, alloc, heap_phys, map, kernel_start, kernel_end, gigabyte_pages);
    let ghost m_mapped = mem@;
    proof {
        if table_supply_ok(*old(alloc), old(mem)@, heap_phys) {
            assert(table_supply_ok(a_root, m_root, heap_phys));
            assert forall|j: int| 0 <= j < failures@.len() implies unmappable(
                #[trigger] failures@[j].start,
                failures@[j].end,
            ) || tables_exhausted(*alloc) by {
                assert(failure_fits(failures@[j]));
                if !unmappable(failures@[j].start, failures@[j].end) {
                    reveal(ran_out);
                    assert(failures@[j].reason@ == "out of page-table frames"@);
                    assert(ran_out(failures@));
                }
            }
        }
    }
    proof {
        lemma_bootstrap_untouched(m_root, m_mapped, t_root, tables.tables(), bootstrap_pml4, bootstrap_pdpt, bootstrap_pd_base);
        lemma_fresh_root_identity(m_root, m_mapped, root);
    }
    let root_frame = tables.finish_with_bootstrap_window(mem, bootstrap_pdpt, bootstrap_pd_base);
    proof {
        let m = mem@;
        assert(m[bootstrap_pml4] == m_boot[bootstrap_pml4]);
        assert forall|x: u64| #[trigger] resolve(m, bootstrap_pml4, x) == bootstrap_resolve(x) by {
            lemma_bootstrap_walk_pub(m, bootstrap_pml4, bootstrap_pdpt, bootstrap_pd_base, x);
        }
        lemma_finished_tables(m_mapped, m, root, map@, failures@, kernel_start, kernel_end, heap_phys);
        let heap_end = sat_add(heap_phys, HEAP_SIZE as u64);
        let chunks = planned_chunks(heap_phys as int, heap_end as int, true, PhysicalMemoryKind::Usable, gigabyte_pages);
        if !reported(failures@, MapStage::Heap, heap_phys, heap_end, true) {
            assert(boot_range_done(m_mapped, root, failures@, MapStage::Heap, heap_phys, heap_end, true));
            assert forall|i: int| 0 <= i < chunks.len() implies (#[trigger] chunks[i]).physical_start
                < 0x8000_0000_0000 by {
                law_planned_chunk_shape(heap_phys as int, heap_end as int, true, PhysicalMemoryKind::Usable, gigabyte_pages, i);
            }
            lemma_direct_chunks_kept(m_mapped, m, root, chunks, PhysicalMemoryKind::Usable);
        }
    }
    Some((root_frame, failures))
}

/// The highest end of a region of `regions`, if there is a region.
pub open spec fn highest_end(regions: Seq<PhysicalMemoryRegion>) -> Option<u64>
    decreases regions.len(),
{
    if regions.len() == 0 {
        None
    } else {
        let last = regions.last().spec_end();
        match highest_end(regions.drop_last()) {
            None => Some(last),
            Some(h) => Some(if last > h { last } else { h }),
        }
    }
}

/// How far the map of all memory reaches: the highest end of a region of
/// `map` (4 GiB where it has none), kept between 4 GiB and 512 GiB.
pub fn whole_memory_end(map: &PhysicalMemoryMap) -> (r: u64)
    requires
        map.wf(),
    ensures
        ({
            let h = match highest_end(map@) {
                Some(h) => h,
                None => 0x1_0000_0000u64,
            };
            r == (if h < 0x1_0000_0000 {
                0x1_0000_0000
            } else if h > 0x80_0000_0000 {
                0x80_0000_0000
            } else {
                h
            })
        }),
{
    let highest = match highest_physical_end(map) {
        Some(h) => h,
        None => 0x1_0000_0000,
    };
    if highest < 0x1_0000_0000 {
        0x1_0000_0000
    } else if highest > 0x80_0000_0000 {
        0x80_0000_0000
    } else {
        highest
    }
}

/// The highest end of a region of `map`, if it has a region: the highest
/// physical address the boot log reports.
pub fn highest_physical_end(map: &PhysicalMemoryMap) -> (r: Option<u64>)
    requires
        map.wf(),
    ensures
        r == highest_end(map@),
{
    let mut best: Option<u64> = None;
    let mut i: usize = 0;
    while i < map.count
        invariant
            map.wf(),
            i <= map.count,
            best == highest_end(map@.subrange(0, i as int)),
        decreases map.count - i,
    {
        let end = map.regions[i].end();
        proof {
            assert(map@.subrange(0, i as int + 1).drop_last() =~= map@.subrange(0, i as int));
        }
        best = match best {
            None => Some(end),
            Some(h) => Some(if end > h { end } else { h }),
        };
        i = i + 1;
    }
    proof {
        assert(map@.subrange(0, map.count as int) =~= map@);
    }
    best
}

} // verus!
