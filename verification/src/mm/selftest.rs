//! The memory-management self-test report.
use vstd::prelude::*;
use crate::boot::boot_info::{PhysicalMemoryKind, PhysicalMemoryMap};
use crate::mm::frame::{lemma_alloc_gives_next, lemma_allocated_frame_bounded, lemma_next_frame_unique, Allocator, PhysAddr, PhysFrame, VirtAddr};
use crate::mm::mapping_model::{
    direct_virtual_address, frame_in_region, identity_virtual_address, memory_map_plan, plan_memory_map,
    usable_region_contains,
};
use crate::mm::paging::{law_direct_map_round_trip, lemma_user_entry_bits, phys_to_virt, virt_to_phys};
use crate::mm::page_table::{
    entry_addr, lemma_entry_addr_bound, law_unmap_returns_mapped_frame, law_unmap_undoes_map, leaf_table_present, lookup,
    AddressSpace, PageTableMemory, table_frame_ok, TABLE_MEMORY_LIMIT, table_supply_ok, tables_spent_but, lemma_supply_alloc, lemma_freed_into_spent_supply,
};
use crate::mm::paging::{AddressSpaceError, UserPageFlags, KERNEL_VIRT_BASE};

verus! {

/// Number of checks in a self-test run.
pub const TEST_COUNT: usize = 11;

#[derive(Debug, Clone, Copy, PartialEq, Eq, Structural)]
pub enum Status {
    Pass,
    Fail,
    Skip,
}

/// The outcome of one check.
#[derive(Debug, Clone, Copy)]
pub struct ResultLine {
    pub name: &'static str,
    pub status: Status,
}

/// The outcome of a run: one line per check and how many passed, failed
/// and were skipped.
pub struct Report {
    pub lines: Vec<ResultLine>,
    pub passed: usize,
    pub failed: usize,
    pub skipped: usize,
}

impl Report {
    pub open spec fn wf(&self) -> bool {
        self.lines@.len() == TEST_COUNT
    }

    /// Every line unnamed and failed; nothing counted.
    pub fn new() -> (r: Self)
        ensures
            r.wf(),
            forall|i: int| 0 <= i < TEST_COUNT ==> (#[trigger] r.lines@[i]).status == Status::Fail && r.lines@[i].name@ == ""@,
            r.passed == 0 && r.failed == 0 && r.skipped == 0,
    {
        let blank = ResultLine { name: "", status: Status::Fail };
        let lines = vec![blank; TEST_COUNT];
        proof {
            assert forall|i: int| 0 <= i < TEST_COUNT implies (#[trigger] lines@[i]).status == Status::Fail
                && lines@[i].name@ == ""@ by {
                assert(lines@[i] == blank);
            }
        }
        Report { lines, passed: 0, failed: 0, skipped: 0 }
    }

    /// Records check `index` and counts its status.
    pub fn record(&mut self, index: usize, name: &'static str, status: Status)
        requires
            old(self).wf(),
            index < TEST_COUNT,
            old(self).passed < usize::MAX,
            old(self).failed < usize::MAX,
            old(self).skipped < usize::MAX,
        ensures
            final(self).wf(),
            final(self).lines@[index as int].name@ == name@,
            final(self).lines@[index as int].status == status,
            forall|i: int| 0 <= i < TEST_COUNT && i != index ==> #[trigger] final(self).lines@[i] == old(self).lines@[i],
            final(self).passed == old(self).passed + (if status == Status::Pass { 1int } else { 0 }),
            final(self).failed == old(self).failed + (if status == Status::Fail { 1int } else { 0 }),
            final(self).skipped == old(self).skipped + (if status == Status::Skip { 1int } else { 0 }),
    {
        self.lines.set(index, ResultLine { name, status });
        match status {
            Status::Pass => self.passed = self.passed + 1,
            Status::Fail => self.failed = self.failed + 1,
            Status::Skip => self.skipped = self.skipped + 1,
        }
    }

    /// Checks counted so far.
    pub fn total(&self) -> (r: usize)
        requires
            self.passed + self.failed + self.skipped <= usize::MAX,
        ensures
            r == self.passed + self.failed + self.skipped,
    {
        self.passed + self.failed + self.skipped
    }
}

/// The allocator's next frame can go into a user leaf entry: page aligned
/// and inside the 52-bit physical address field.
pub open spec fn next_frame_mappable(a: Allocator) -> bool {
    exists|f: u64| #[trigger] a.next_frame(f) && f % 0x1000 == 0 && f < 0x10_0000_0000_0000
}

/// The frame that `alloc` hands out is the next frame; where that one is
/// mappable, it is page aligned and inside the address field.
proof fn lemma_probe_frame(a0: Allocator, a1: Allocator, r: Option<PhysFrame>)
    requires
        a0.wf(),
        a0.alloc_post(a1, r),
    ensures
        r matches Some(g) ==> a0.next_frame(g.0),
        next_frame_mappable(a0) ==> (r matches Some(g) && g.0 % 0x1000 == 0 && g.0 < 0x10_0000_0000_0000),
{
    lemma_alloc_gives_next(a0, a1, r);
    if next_frame_mappable(a0) {
        let f = choose|f: u64| #[trigger] a0.next_frame(f) && f % 0x1000 == 0 && f < 0x10_0000_0000_0000;
        let g = r->0;
        lemma_next_frame_unique(a0, f, g.0);
    }
}

/// The bits of a user leaf entry that the checks read come from the
/// permission bits alone.
proof fn lemma_leaf_bits(f: u64, h: u64)
    requires
        f % 0x1000 == 0,
        f < 0x10_0000_0000_0000,
    ensures
        ((f | h) & 0x4 != 0) == (h & 0x4 != 0),
        ((f | h) & 0x2 != 0) == (h & 0x2 != 0),
        ((f | h) & 0x8000_0000_0000_0000 != 0) == (h & 0x8000_0000_0000_0000 != 0),
{
    assert(((f | h) & 0x4 != 0) == (h & 0x4 != 0) && ((f | h) & 0x2 != 0) == (h & 0x2 != 0) && ((f | h)
        & 0x8000_0000_0000_0000 != 0) == (h & 0x8000_0000_0000_0000 != 0)) by (bit_vector)
        requires
            f % 0x1000 == 0,
            f < 0x10_0000_0000_0000,
    ;
}

/// What the checks need of the permission sets they use.
proof fn lemma_probe_flags()
    ensures
        UserPageFlags(1).spec_valid(),
        UserPageFlags(1u8 | 2u8).spec_valid(),
        UserPageFlags(1u8 | 2u8).has(crate::mm::paging::USER_WRITE),
        !UserPageFlags(1u8 | 2u8).has(crate::mm::paging::USER_EXECUTE),
        UserPageFlags(1u8 | 4u8).spec_valid(),
        UserPageFlags(1u8 | 4u8).has(crate::mm::paging::USER_EXECUTE),
        !UserPageFlags(1u8 | 4u8).has(crate::mm::paging::USER_NO_EXECUTE),
        !UserPageFlags(4u8 | 8u8).spec_valid(),
{
    assert(1u8 & 1u8 != 0 && 1u8 & 4u8 == 0 && (1u8 | 2u8) & 1u8 != 0 && (1u8 | 2u8) & 4u8 == 0 && (1u8 | 2u8) & 2u8
        != 0 && (1u8 | 4u8) & 1u8 != 0 && (1u8 | 4u8) & 4u8 != 0 && (1u8 | 4u8) & 8u8 == 0 && (4u8 | 8u8) & 1u8 == 0)
        by (bit_vector);
}

/// The heap line of the report where the heap's integrity check failed
/// before or after the page-table checks: skipped on the BIOS path, whose
/// bootstrap identity map can leave the check failing on a working heap;
/// `None` where both checks passed and the heap exercise decides the line.
pub fn heap_check_entry(before: bool, after: bool, bios: bool) -> (r: Option<(&'static str, Status)>)
    ensures
        before && after ==> r is None,
        !(before && after) && bios ==> (r matches Some((name, status)) && status == Status::Skip && name@
            == "heap allocator (BIOS bootstrap corruption - skipped)"@),
        !before && !bios ==> (r matches Some((name, status)) && status == Status::Fail && name@
            == "heap allocator integrity before page-table tests"@),
        before && !after && !bios ==> (r matches Some((name, status)) && status == Status::Fail && name@
            == "heap allocator integrity after address-space cleanup"@),
{
    if (!before || !after) && bios {
        Some(("heap allocator (BIOS bootstrap corruption - skipped)", Status::Skip))
    } else if !before || !after {
        Some((
            if !before {
                "heap allocator integrity before page-table tests"
            } else {
                "heap allocator integrity after address-space cleanup"
            },
            Status::Fail,
        ))
    } else {
        None
    }
}

/// Refused addresses, a mapping made twice and the unmapping of an
/// unmapped page, probed on `space`: `Pass` when each probe gives the
/// expected answer. The probes leave every mapping as it was where the page
/// at `0x5000_0000` was not mapped. `Pass` needs a frame from the
/// allocator; it is owed where both probed pages are unmapped, the
/// allocator's next frame fits a leaf entry and the last-level table of
/// `0x4000_0000` is already there; where a table has to be built, it is owed
/// unless the allocator runs out of table frames (`tables_spent_but`).
pub fn invalid_address_test(
    space: &mut Option<AddressSpace>,
    mem: &mut PageTableMemory,
    alloc: &mut Allocator,
    heap_phys: u64,
) -> (r: Status)
    requires
        old(mem).wf(),
        old(alloc).wf(),
        *old(space) matches Some(s) ==> s.inv(old(mem)@),
    ensures
        final(mem).wf(),
        final(alloc).wf(),
        *old(space) matches Some(s) ==> *final(space) matches Some(t) && t.root_addr() == s.root_addr() && t.inv(
            final(mem)@,
        ),
        *old(space) is None ==> *final(space) is None,
        *old(space) is None ==> r == Status::Fail && final(mem)@ == old(mem)@,
        *old(space) matches Some(s) ==> {
            &&& lookup(old(mem)@, s.root_addr(), 0x4000_0000) is Ok ==> r == Status::Fail
            &&& lookup(old(mem)@, s.root_addr(), 0x5000_0000) is Ok ==> r == Status::Fail
            &&& lookup(old(mem)@, s.root_addr(), 0x5000_0000) is Err ==> forall|x: u64|
                #[trigger] lookup(final(mem)@, s.root_addr(), x) == lookup(old(mem)@, s.root_addr(), x)
            &&& lookup(old(mem)@, s.root_addr(), 0x4000_0000) is Err && lookup(old(mem)@, s.root_addr(), 0x5000_0000)
                is Err && leaf_table_present(old(mem)@, s.root_addr(), 0x4000_0000) && next_frame_mappable(*old(alloc))
                ==> r == Status::Pass
        },
        r == Status::Pass ==> exists|f: u64| #[trigger] old(alloc).next_frame(f),
        *old(space) matches Some(s) ==> (lookup(old(mem)@, s.root_addr(), 0x4000_0000) is Err && lookup(old(mem)@, s.root_addr(), 0x5000_0000) is Err && next_frame_mappable(*old(alloc))
            && table_supply_ok(*old(alloc), old(mem)@, heap_phys) ==> r == Status::Pass || exists|f: u64|
            #[trigger] old(alloc).next_frame(f) && tables_spent_but(*final(alloc), f)),
{
    let space = match space {
        Some(s) => s,
        None => {
            return Status::Fail;
        },
    };
    let ghost a0 = *alloc;
    let got = alloc.alloc_frame();
    proof {
        lemma_probe_frame(a0, *alloc, got);
    }
    let frame = match got {
        Some(f) => f,
        None => {
            return Status::Fail;
        },
    };
    proof {
        lemma_allocated_frame_bounded(a0, *alloc, Some(frame));
        lemma_probe_flags();
        if table_supply_ok(a0, mem@, heap_phys) {
            lemma_supply_alloc(a0, *alloc, got, mem@, heap_phys);
        }
    }
    let ghost m0 = mem@;
    let ghost a1 = *alloc;
    let ghost root = space.root_addr();
    let read = UserPageFlags::user_read();
    let unaligned = space.map_user_page(mem, alloc, heap_phys, VirtAddr(0x4000_0001), frame, read).is_err();
    let noncanonical = space.map_user_page(mem, alloc, heap_phys, VirtAddr(0x1_0000_0000_0000), frame, read).is_err();
    let kernel = space.map_user_page(mem, alloc, heap_phys, VirtAddr(KERNEL_VIRT_BASE), frame, read).is_err();
    let ghost m1 = mem@;
    let ghost a_first = *alloc;
    let first = space.map_user_page(mem, alloc, heap_phys, VirtAddr(0x4000_0000), frame, read);
    let ghost m2 = mem@;
    let ghost a2 = *alloc;
    let duplicate = first.is_ok() && space.map_user_page(mem, alloc, heap_phys, VirtAddr(0x4000_0000), frame, read).is_err();
    let ghost m3 = mem@;
    let unmapped = space.unmap_user_page(mem, VirtAddr(0x5000_0000)).is_err();
    let ghost m4 = mem@;
    if duplicate {
        let _ = space.unmap_user_page(mem, VirtAddr(0x4000_0000));
    }
    proof {
        assert(m1 == m0);
        if lookup(m0, root, 0x5000_0000) is Err {
            assert(m4 == m3);
            if first is Ok {
                law_unmap_undoes_map(m0, m2, mem@, root, 0x4000_0000);
            } else {
                assert forall|x: u64| #[trigger] lookup(mem@, root, x) == lookup(m0, root, x) by {
                    if x / 0x1000 != 0x4000_0000u64 / 0x1000 {
                        assert(lookup(m2, root, x) == lookup(m0, root, x));
                    }
                }
            }
        }
    }
    let ghost a_pre = *alloc;
    alloc.free_frame(frame);
    proof {
        if table_supply_ok(a0, m0, heap_phys) && first is Err && lookup(m0, root, 0x4000_0000) is Err
            && next_frame_mappable(a0) {
            assert(frame.0 % 0x1000 == 0 && frame.0 < 0x10_0000_0000_0000);
            assert(table_supply_ok(a1, m0, heap_phys));
            assert(table_supply_ok(a_first, m1, heap_phys));
            assert(first == Err::<(), AddressSpaceError>(AddressSpaceError::OutOfFrames));
            assert(crate::mm::page_table::tables_exhausted(a2));
            assert(a_pre == a2);
            lemma_freed_into_spent_supply(a_pre, *alloc, frame, m2, heap_phys);
            assert(a0.next_frame(frame.0));
        }
    }
    if unaligned && noncanonical && kernel && duplicate && unmapped {
        Status::Pass
    } else {
        Status::Fail
    }
}

/// A writable user page and a refused pair of contradictory flags, probed
/// on `space`: `Pass` when the page maps as user, writable and no-execute
/// and the contradictory flags are refused. Every mapping is left as it was.
/// `Pass` needs a frame from the allocator; it is owed where the page is
/// unmapped, the allocator's next frame fits a leaf entry and the page's
/// last-level table is already there; where a table has to be built, it is owed
/// unless the allocator runs out of table frames (`tables_spent_but`).
pub fn writable_nx_test(
    space: &mut Option<AddressSpace>,
    mem: &mut PageTableMemory,
    alloc: &mut Allocator,
    heap_phys: u64,
) -> (r: Status)
    requires
        old(mem).wf(),
        old(alloc).wf(),
        *old(space) matches Some(s) ==> s.inv(old(mem)@),
    ensures
        final(mem).wf(),
        final(alloc).wf(),
        *old(space) matches Some(s) ==> *final(space) matches Some(t) && t.root_addr() == s.root_addr() && t.inv(
            final(mem)@,
        ),
        *old(space) is None ==> *final(space) is None && r == Status::Fail && final(mem)@ == old(mem)@,
        *old(space) matches Some(s) ==> {
            &&& lookup(old(mem)@, s.root_addr(), 0x6000_0000) is Ok ==> r == Status::Fail
            &&& forall|x: u64| #[trigger] lookup(final(mem)@, s.root_addr(), x) == lookup(old(mem)@, s.root_addr(), x)
            &&& lookup(old(mem)@, s.root_addr(), 0x6000_0000) is Err && leaf_table_present(old(mem)@, s.root_addr(), 0x6000_0000)
                && next_frame_mappable(*old(alloc)) ==> r == Status::Pass
        },
        r == Status::Pass ==> exists|f: u64| #[trigger] old(alloc).next_frame(f),
        *old(space) matches Some(s) ==> (lookup(old(mem)@, s.root_addr(), 0x6000_0000) is Err && next_frame_mappable(*old(alloc))
            && table_supply_ok(*old(alloc), old(mem)@, heap_phys) ==> r == Status::Pass || exists|f: u64|
            #[trigger] old(alloc).next_frame(f) && tables_spent_but(*final(alloc), f)),
{
    let space = match space {
        Some(s) => s,
        None => {
            return Status::Fail;
        },
    };
    let ghost a0 = *alloc;
    let got = alloc.alloc_frame();
    proof {
        lemma_probe_frame(a0, *alloc, got);
    }
    let frame = match got {
        Some(f) => f,
        None => {
            return Status::Fail;
        },
    };
    proof {
        lemma_allocated_frame_bounded(a0, *alloc, Some(frame));
        lemma_probe_flags();
        if table_supply_ok(a0, mem@, heap_phys) {
            lemma_supply_alloc(a0, *alloc, got, mem@, heap_phys);
        }
    }
    let ghost m0 = mem@;
    let ghost a1 = *alloc;
    let ghost root = space.root_addr();
    let address = VirtAddr(0x6000_0000);
    let flags = UserPageFlags::user_read().union(UserPageFlags::user_write());
    let mapped = space.map_user_page(mem, alloc, heap_phys, address, frame, flags);
    let ghost m1 = mem@;
    let ghost a2 = *alloc;
    proof {
        if frame.0 % 0x1000 == 0 && frame.0 < 0x10_0000_0000_0000 {
            lemma_user_entry_bits(flags);
            lemma_leaf_bits(frame.0, flags.spec_hardware());
        }
    }
    let valid = mapped.is_ok() && match space.page_entry(mem, address) {
        Ok(entry) => entry & 0x4 != 0 && entry & 0x2 != 0 && entry & 0x8000_0000_0000_0000 != 0,
        Err(_) => false,
    };
    let both = UserPageFlags::user_execute().union(UserPageFlags::user_no_execute());
    let invalid_flags = space.map_user_page(mem, alloc, heap_phys, VirtAddr(0x6000_1000), frame, both).is_err();
    proof {
        assert(mem@ == m1);
    }
    if mapped.is_ok() {
        let _ = space.unmap_user_page(mem, address);
    }
    proof {
        if mapped is Ok {
            law_unmap_undoes_map(m0, m1, mem@, root, 0x6000_0000);
        } else {
            assert forall|x: u64| #[trigger] lookup(mem@, root, x) == lookup(m0, root, x) by {
                if x / 0x1000 != 0x6000_0000u64 / 0x1000 {
                    assert(lookup(m1, root, x) == lookup(m0, root, x));
                }
            }
        }
    }
    let ghost a_pre = *alloc;
    let ghost m_pre = mem@;
    alloc.free_frame(frame);
    proof {
        if table_supply_ok(a0, m0, heap_phys) && mapped is Err && lookup(m0, root, 0x6000_0000) is Err
            && next_frame_mappable(a0) {
            assert(frame.0 % 0x1000 == 0 && frame.0 < 0x10_0000_0000_0000);
            assert(table_supply_ok(a1, m0, heap_phys));
            assert(mapped == Err::<(), AddressSpaceError>(AddressSpaceError::OutOfFrames));
            assert(crate::mm::page_table::tables_exhausted(a2));
            assert(table_supply_ok(a2, m1, heap_phys));
            assert(crate::mm::page_table::tables_exhausted(a_pre));
            assert(table_supply_ok(a_pre, m_pre, heap_phys));
            lemma_freed_into_spent_supply(a_pre, *alloc, frame, m_pre, heap_phys);
            assert(a0.next_frame(frame.0));
        }
    }
    if valid && invalid_flags {
        Status::Pass
    } else {
        Status::Fail
    }
}

/// A readable and executable user page, probed on `space`: `Pass` when it
/// maps as a user page without the no-execute bit. Every mapping is left as
/// it was. `Pass` needs a frame from the allocator; it is owed where the
/// page is unmapped, the allocator's next frame fits a leaf entry and the
/// page's last-level table is already there; where a table has to be built, it is owed
/// unless the allocator runs out of table frames (`tables_spent_but`).
pub fn executable_user_test(
    space: &mut Option<AddressSpace>,
    mem: &mut PageTableMemory,
    alloc: &mut Allocator,
    heap_phys: u64,
) -> (r: Status)
    requires
        old(mem).wf(),
        old(alloc).wf(),
        *old(space) matches Some(s) ==> s.inv(old(mem)@),
    ensures
        final(mem).wf(),
        final(alloc).wf(),
        *old(space) matches Some(s) ==> *final(space) matches Some(t) && t.root_addr() == s.root_addr() && t.inv(
            final(mem)@,
        ),
        *old(space) is None ==> *final(space) is None && r == Status::Fail && final(mem)@ == old(mem)@,
        *old(space) matches Some(s) ==> {
            &&& lookup(old(mem)@, s.root_addr(), 0x6000_1000) is Ok ==> r == Status::Fail
            &&& forall|x: u64| #[trigger] lookup(final(mem)@, s.root_addr(), x) == lookup(old(mem)@, s.root_addr(), x)
            &&& lookup(old(mem)@, s.root_addr(), 0x6000_1000) is Err && leaf_table_present(old(mem)@, s.root_addr(), 0x6000_1000)
                && next_frame_mappable(*old(alloc)) ==> r == Status::Pass
        },
        r == Status::Pass ==> exists|f: u64| #[trigger] old(alloc).next_frame(f),
        *old(space) matches Some(s) ==> (lookup(old(mem)@, s.root_addr(), 0x6000_1000) is Err && next_frame_mappable(*old(alloc))
            && table_supply_ok(*old(alloc), old(mem)@, heap_phys) ==> r == Status::Pass || exists|f: u64|
            #[trigger] old(alloc).next_frame(f) && tables_spent_but(*final(alloc), f)),
{
    let space = match space {
        Some(s) => s,
        None => {
            return Status::Fail;
        },
    };
    let ghost a0 = *alloc;
    let got = alloc.alloc_frame();
    proof {
        lemma_probe_frame(a0, *alloc, got);
    }
    let frame = match got {
        Some(f) => f,
        None => {
            return Status::Fail;
        },
    };
    proof {
        lemma_allocated_frame_bounded(a0, *alloc, Some(frame));
        lemma_probe_flags();
        if table_supply_ok(a0, mem@, heap_phys) {
            lemma_supply_alloc(a0, *alloc, got, mem@, heap_phys);
        }
    }
    let ghost m0 = mem@;
    let ghost a1 = *alloc;
    let ghost root = space.root_addr();
    let address = VirtAddr(0x6000_1000);
    let flags = UserPageFlags::user_read().union(UserPageFlags::user_execute());
    let mapped = space.map_user_page(mem, alloc, heap_phys, address, frame, flags);
    let ghost m1 = mem@;
    let ghost a2 = *alloc;
    proof {
        if frame.0 % 0x1000 == 0 && frame.0 < 0x10_0000_0000_0000 {
            lemma_user_entry_bits(flags);
            lemma_leaf_bits(frame.0, flags.spec_hardware());
        }
    }
    let valid = mapped.is_ok() && match space.page_entry(mem, address) {
        Ok(entry) => entry & 0x4 != 0 && entry & 0x8000_0000_0000_0000 == 0,
        Err(_) => false,
    };
    if mapped.is_ok() {
        let _ = space.unmap_user_page(mem, address);
    }
    proof {
        if mapped is Ok {
            law_unmap_undoes_map(m0, m1, mem@, root, 0x6000_1000);
        } else {
            assert forall|x: u64| #[trigger] lookup(mem@, root, x) == lookup(m0, root, x) by {
                if x / 0x1000 != 0x6000_1000u64 / 0x1000 {
                    assert(lookup(m1, root, x) == lookup(m0, root, x));
                }
            }
        }
    }
    let ghost a_pre = *alloc;
    let ghost m_pre = mem@;
    alloc.free_frame(frame);
    proof {
        if table_supply_ok(a0, m0, heap_phys) && mapped is Err && lookup(m0, root, 0x6000_1000) is Err
            && next_frame_mappable(a0) {
            assert(frame.0 % 0x1000 == 0 && frame.0 < 0x10_0000_0000_0000);
            assert(table_supply_ok(a1, m0, heap_phys));
            assert(mapped == Err::<(), AddressSpaceError>(AddressSpaceError::OutOfFrames));
            assert(crate::mm::page_table::tables_exhausted(a2));
            assert(a_pre == a2);
            lemma_freed_into_spent_supply(a_pre, *alloc, frame, m1, heap_phys);
            assert(a0.next_frame(frame.0));
        }
    }
    if valid {
        Status::Pass
    } else {
        Status::Fail
    }
}

/// A physical address converted into the direct map converts back.
pub fn round_trip_check() -> (r: Status)
    ensures
        r == Status::Pass,
{
    let address = phys_to_virt(PhysAddr(0x1234_5000));
    proof {
        law_direct_map_round_trip(0x1234_5000);
    }
    match virt_to_phys(address) {
        Some(p) => if p.0 == 0x1234_5000 {
            Status::Pass
        } else {
            Status::Fail
        },
        None => Status::Fail,
    }
}

/// No region that is not usable starts inside a usable region.
pub open spec fn holes_excluded(map: Seq<crate::boot::boot_info::PhysicalMemoryRegion>) -> bool {
    forall|j: int|
        0 <= j < map.len() && (#[trigger] map[j]).kind != PhysicalMemoryKind::Usable ==> !(exists|i: int|
            0 <= i < map.len() && (#[trigger] map[i]).kind == PhysicalMemoryKind::Usable && frame_in_region(
                map[i],
                map[j].start,
            ))
}

/// No region that is not usable memory starts inside a usable region.
pub fn reserved_holes_excluded(map: &PhysicalMemoryMap) -> (r: bool)
    requires
        map.wf(),
    ensures
        r == holes_excluded(map@),
{
    let mut reserved_ok = true;
    let mut j: usize = 0;
    while j < map.count
        invariant
            map.wf(),
            j <= map.count,
            reserved_ok == forall|k: int|
                0 <= k < j && (#[trigger] map@[k]).kind != PhysicalMemoryKind::Usable ==> !(exists|i: int|
                    0 <= i < map@.len() && (#[trigger] map@[i]).kind == PhysicalMemoryKind::Usable && frame_in_region(
                        map@[i],
                        map@[k].start,
                    )),
        decreases map.count - j,
    {
        let region = map.regions[j];
        if region.kind != PhysicalMemoryKind::Usable && usable_region_contains(map, region.start) {
            reserved_ok = false;
        }
        proof {
            assert(map@[j as int] == region);
        }
        j = j + 1;
    }
    reserved_ok
}

/// The 4 KiB frame at `f` lies inside a usable region of `map`.
pub open spec fn in_usable(map: Seq<crate::boot::boot_info::PhysicalMemoryRegion>, f: u64) -> bool {
    exists|i: int|
        0 <= i < map.len() && (#[trigger] map[i]).kind == PhysicalMemoryKind::Usable && frame_in_region(map[i], f)
}

/// Reserved holes stay out of usable coverage, and a freshly allocated
/// frame lies in a usable region: `Pass` when both hold. The allocated
/// frame is given back.
pub fn reserved_hole_check(map: &PhysicalMemoryMap, alloc: &mut Allocator) -> (r: Status)
    requires
        map.wf(),
        old(alloc).wf(),
    ensures
        final(alloc).wf(),
        (r == Status::Pass) == (holes_excluded(map@) && exists|f: u64| #[trigger] old(alloc).next_frame(f) && in_usable(
            map@,
            f,
        )),
        r != Status::Skip,
{
    let reserved_ok = reserved_holes_excluded(map);
    let ghost a0 = *alloc;
    let got = alloc.alloc_frame();
    proof {
        lemma_alloc_gives_next(a0, *alloc, got);
        if got is Some {
            let g = got->0;
            assert forall|f: u64| #[trigger] a0.next_frame(f) implies f == g.0 by {
                lemma_next_frame_unique(a0, f, g.0);
            }
        }
    }
    let allocated_ok = match got {
        Some(frame) => {
            proof {
                lemma_allocated_frame_bounded(a0, *alloc, Some(frame));
            }
            let ok = usable_region_contains(map, frame.0);
            alloc.free_frame(frame);
            ok
        },
        None => false,
    };
    if reserved_ok && allocated_ok {
        Status::Pass
    } else {
        Status::Fail
    }
}

/// The memory map can be planned into the direct map, and the first address
/// past four-level coverage has neither a direct-map nor an identity
/// address.
pub fn direct_map_policy_check(map: &PhysicalMemoryMap) -> (r: Status)
    requires
        map.wf(),
    ensures
        r == (if memory_map_plan(map@, map@.len() as int, true, true) is Ok {
            Status::Pass
        } else {
            Status::Fail
        }),
{
    let policy = plan_memory_map(map, true, true).is_ok();
    let canonical = direct_virtual_address(0x8000_0000_0000).is_none() && identity_virtual_address(
        0x8000_0000_0000,
    ).is_none();
    if policy && canonical {
        Status::Pass
    } else {
        Status::Fail
    }
}

/// A user page mapped at `0x4000_0000` and unmapped again gives back its
/// frame: `Pass` when it does. Every mapping is left as it was. `Pass`
/// needs a frame from the allocator and the page unmapped; it is owed
/// where, besides, the allocator's next frame fits a leaf entry and the
/// page's last-level table is already there; where a table has to be built, it is owed
/// unless the allocator runs out of table frames (`tables_spent_but`).
pub fn map_unmap_check(
    space: &mut Option<AddressSpace>,
    mem: &mut PageTableMemory,
    alloc: &mut Allocator,
    heap_phys: u64,
) -> (r: Status)
    requires
        old(mem).wf(),
        old(alloc).wf(),
        *old(space) matches Some(s) ==> s.inv(old(mem)@),
    ensures
        final(mem).wf(),
        final(alloc).wf(),
        *old(space) matches Some(s) ==> *final(space) matches Some(t) && t.root_addr() == s.root_addr() && t.inv(
            final(mem)@,
        ),
        *old(space) is None ==> *final(space) is None && r == Status::Fail && final(mem)@ == old(mem)@,
        *old(space) matches Some(s) ==> {
            &&& lookup(old(mem)@, s.root_addr(), 0x4000_0000) is Ok ==> r == Status::Fail
            &&& forall|x: u64| #[trigger] lookup(final(mem)@, s.root_addr(), x) == lookup(old(mem)@, s.root_addr(), x)
            &&& lookup(old(mem)@, s.root_addr(), 0x4000_0000) is Err && leaf_table_present(
                old(mem)@,
                s.root_addr(),
                0x4000_0000,
            ) && next_frame_mappable(*old(alloc)) ==> r == Status::Pass
        },
        r == Status::Pass ==> exists|f: u64| #[trigger] old(alloc).next_frame(f),
        *old(space) matches Some(s) ==> (lookup(old(mem)@, s.root_addr(), 0x4000_0000) is Err && next_frame_mappable(*old(alloc))
            && table_supply_ok(*old(alloc), old(mem)@, heap_phys) ==> r == Status::Pass || exists|f: u64|
            #[trigger] old(alloc).next_frame(f) && tables_spent_but(*final(alloc), f)),
{
    let space = match space {
        Some(s) => s,
        None => {
            return Status::Fail;
        },
    };
    let ghost a0 = *alloc;
    let got = alloc.alloc_frame();
    proof {
        lemma_probe_frame(a0, *alloc, got);
    }
    let frame = match got {
        Some(f) => f,
        None => {
            return Status::Fail;
        },
    };
    proof {
        lemma_allocated_frame_bounded(a0, *alloc, Some(frame));
        lemma_probe_flags();
        if table_supply_ok(a0, mem@, heap_phys) {
            lemma_supply_alloc(a0, *alloc, got, mem@, heap_phys);
        }
    }
    let ghost m0 = mem@;
    let ghost a1 = *alloc;
    let ghost root = space.root_addr();
    let address = VirtAddr(0x4000_0000);
    let read = UserPageFlags::user_read();
    let attempt = space.map_user_page(mem, alloc, heap_phys, address, frame, read);
    let mapped = attempt.is_ok();
    let ghost m1 = mem@;
    let ghost a2 = *alloc;
    proof {
        if mapped && frame.0 % 0x1000 == 0 && frame.0 < 0x10_0000_0000_0000 {
            law_unmap_returns_mapped_frame(m1, root, 0x4000_0000, frame.0, read);
        }
    }
    let returned = if mapped {
        space.unmap_user_page(mem, address)
    } else {
        Err(AddressSpaceError::NotMapped)
    };
    proof {
        if mapped {
            law_unmap_undoes_map(m0, m1, mem@, root, 0x4000_0000);
        } else {
            assert forall|x: u64| #[trigger] lookup(mem@, root, x) == lookup(m0, root, x) by {
                if x / 0x1000 != 0x4000_0000u64 / 0x1000 {
                    assert(lookup(m1, root, x) == lookup(m0, root, x));
                }
            }
        }
    }
    let passed = match returned {
        Ok(f) => f.0 == frame.0,
        Err(_) => false,
    };
    match returned {
        Ok(returned_frame) => {
            proof {
                let e = lookup(m1, root, 0x4000_0000)->Ok_0;
                lemma_entry_addr_bound(e);
            }
            alloc.free_frame(returned_frame);
        },
        Err(_) => {
            let ghost a_pre = *alloc;
            alloc.free_frame(frame);
            proof {
                if table_supply_ok(a0, m0, heap_phys) && !mapped && lookup(m0, root, 0x4000_0000) is Err
                    && next_frame_mappable(a0) {
                    assert(frame.0 % 0x1000 == 0 && frame.0 < 0x10_0000_0000_0000);
                    assert(table_supply_ok(a1, m0, heap_phys));
                    assert(attempt == Err::<(), AddressSpaceError>(AddressSpaceError::OutOfFrames));
                    assert(crate::mm::page_table::tables_exhausted(a2));
                    assert(a_pre == a2);
                    lemma_freed_into_spent_supply(a_pre, *alloc, frame, m1, heap_phys);
                    assert(a0.next_frame(frame.0));
                }
            }
        },
    }
    if passed {
        Status::Pass
    } else {
        Status::Fail
    }
}

/// The status of a frame probe: `Pass` or `Fail` by what the probe read
/// back where a frame was had (`Some`), else `missing`.
pub fn frame_probe_status(probed: Option<bool>, missing: Status) -> (r: Status)
    ensures
        r == frame_probe_status_spec(probed, missing),
{
    match probed {
        Some(true) => Status::Pass,
        Some(false) => Status::Fail,
        None => missing,
    }
}

/// Records the first five checks of a run: the low frame probe (`Fail`
/// where no low frame was had), the address round trip, the high frame
/// probe (`Skip` where no frame above 4 GiB was had), the exclusion of
/// reserved holes from the allocator's memory map and the direct-map policy
/// over that map.
pub fn record_frame_checks(report: &mut Report, alloc: &mut Allocator, low: Option<bool>, high: Option<bool>)
    requires
        old(report).wf(),
        old(report).passed + old(report).failed + old(report).skipped <= TEST_COUNT,
        old(alloc).wf(),
    ensures
        final(report).wf(),
        final(alloc).wf(),
        final(report).lines@[0].name@ == "low frame allocation and access"@,
        final(report).lines@[0].status == frame_probe_status_spec(low, Status::Fail),
        final(report).lines@[1].name@ == "physical/virtual address round trip"@,
        final(report).lines@[1].status == Status::Pass,
        final(report).lines@[2].name@ == "high frame allocation and access"@,
        final(report).lines@[2].status == frame_probe_status_spec(high, Status::Skip),
        final(report).lines@[3].name@ == "reserved-hole exclusion"@,
        (final(report).lines@[3].status == Status::Pass) == (holes_excluded(old(alloc).memory()) && exists|f: u64|
            #[trigger] old(alloc).next_frame(f) && in_usable(old(alloc).memory(), f)),
        final(report).lines@[3].status != Status::Skip,
        final(report).lines@[4].name@ == "direct-map policy and canonical addresses"@,
        final(report).lines@[4].status == (if memory_map_plan(old(alloc).memory(), old(alloc).memory().len() as int, true, true) is Ok {
            Status::Pass
        } else {
            Status::Fail
        }),
        forall|i: int| 5 <= i < TEST_COUNT ==> #[trigger] final(report).lines@[i] == old(report).lines@[i],
        final(report).passed + final(report).failed + final(report).skipped == old(report).passed + old(report).failed
            + old(report).skipped + 5,
{
    report.record(0, "low frame allocation and access", frame_probe_status(low, Status::Fail));
    report.record(1, "physical/virtual address round trip", round_trip_check());
    report.record(2, "high frame allocation and access", frame_probe_status(high, Status::Skip));
    let map = alloc.memory_map();
    let holes = reserved_hole_check(&map, alloc);
    report.record(3, "reserved-hole exclusion", holes);
    let policy = direct_map_policy_check(&map);
    report.record(4, "direct-map policy and canonical addresses", policy);
}

/// What `frame_probe_status` gives.
pub open spec fn frame_probe_status_spec(probed: Option<bool>, missing: Status) -> Status {
    match probed {
        Some(true) => Status::Pass,
        Some(false) => Status::Fail,
        None => missing,
    }
}

/// Records the address-space checks of a run: the creation of a temporary
/// address space sharing the kernel half of `kernel_root`, then the four
/// user-page probes on it, which fail where no space could be made; the
/// space is destroyed afterwards.
pub fn record_address_space_checks(
    report: &mut Report,
    alloc: &mut Allocator,
    mem: &mut PageTableMemory,
    kernel_root: PhysFrame,
    heap_phys: u64,
)
    requires
        old(report).wf(),
        old(report).passed + old(report).failed + old(report).skipped <= TEST_COUNT,
        old(alloc).wf(),
        old(mem).wf(),
        old(mem)@.contains_key(kernel_root.0),
    ensures
        final(report).wf(),
        final(alloc).wf(),
        final(mem).wf(),
        final(report).lines@[5].name@ == "temporary address-space creation"@,
        final(report).lines@[6].name@ == "user-page map/unmap and frame return"@,
        final(report).lines@[7].name@ == "invalid user-address rejection"@,
        final(report).lines@[8].name@ == "user permissions and NX entry"@,
        final(report).lines@[9].name@ == "user read/execute permission entry"@,
        final(report).lines@[5].status == Status::Pass || final(report).lines@[5].status == Status::Fail,
        (forall|f: u64| !#[trigger] old(alloc).next_frame_below(TABLE_MEMORY_LIMIT, f)) ==> final(report).lines@[5].status
            == Status::Fail,
        (exists|f: u64| #[trigger] old(alloc).next_frame_below(TABLE_MEMORY_LIMIT, f)) && (forall|f: u64|
            #[trigger] old(alloc).next_frame_below(TABLE_MEMORY_LIMIT, f) ==> table_frame_ok(old(mem)@, f, heap_phys))
            ==> final(report).lines@[5].status == Status::Pass,
        final(report).lines@[5].status == Status::Fail ==> forall|i: int|
            6 <= i < 10 ==> (#[trigger] final(report).lines@[i]).status == Status::Fail,
        forall|i: int| (0 <= i < 5 || 10 <= i < TEST_COUNT) ==> #[trigger] final(report).lines@[i] == old(report).lines@[i],
        final(report).passed + final(report).failed + final(report).skipped == old(report).passed + old(report).failed
            + old(report).skipped + 5,
{
    let mut space = match AddressSpace::new(alloc, mem, kernel_root, heap_phys) {
        Ok(s) => Some(s),
        Err(_) => None,
    };
    report.record(5, "temporary address-space creation", if space.is_some() { Status::Pass } else { Status::Fail });
    let created = space.is_some();
    let s6 = map_unmap_check(&mut space, mem, alloc, heap_phys);
    report.record(6, "user-page map/unmap and frame return", s6);
    let s7 = invalid_address_test(&mut space, mem, alloc, heap_phys);
    report.record(7, "invalid user-address rejection", s7);
    let s8 = writable_nx_test(&mut space, mem, alloc, heap_phys);
    report.record(8, "user permissions and NX entry", s8);
    let s9 = executable_user_test(&mut space, mem, alloc, heap_phys);
    report.record(9, "user read/execute permission entry", s9);
    match space {
        Some(s) => s.destroy(mem, alloc),
        None => {},
    }
}

} // verus!
