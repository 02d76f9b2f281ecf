//! Physical frame allocator over the firmware memory map.
//!
//! Frames are handed out from usable regions in map order. Every handed-out
//! frame is recorded as a reservation; permanent reservations (kernel image,
//! heap, firmware tables) are never released. Freed frames are remembered in
//! a small recycle list and handed out again first.
use vstd::prelude::*;
use crate::boot::boot_info::{PhysicalMemoryKind, PhysicalMemoryMap, PhysicalMemoryRegion, sat_add};

verus! {

pub const PAGE_SIZE: u64 = 0x1000;
/// Lowest address handed out for page tables built under the bootstrap map.
pub const LOW_TABLE_MIN: u64 = 0x10_0000;
pub const MAX_RESERVED: usize = 16384;
pub const MAX_RECYCLED: usize = 256;
pub const MAX_PERMANENT_RANGES: usize = 64;
/// Largest page-aligned address.
pub const MAX_ALIGNED: u64 = 0xffff_ffff_ffff_f000;

#[derive(Debug, Clone, Copy, PartialEq, Eq, Structural)]
pub enum ReservationKind {
    Permanent,
    Allocated,
}

#[derive(Debug, Clone, Copy, PartialEq, Eq, Structural)]
pub struct PhysAddr(pub u64);

#[derive(Debug, Clone, Copy, PartialEq, Eq, Structural)]
pub struct VirtAddr(pub u64);

#[derive(Debug, Clone, Copy, PartialEq, Eq, Structural)]
pub struct PhysFrame(pub u64);

/// `[start, end)` intersects the region.
pub open spec fn overlaps(r: PhysicalMemoryRegion, start: int, end: int) -> bool {
    start < r.spec_end() && end > r.start
}

/// Some region of `rs` intersects `[start, end)`.
pub open spec fn any_overlap(rs: Seq<PhysicalMemoryRegion>, start: int, end: int) -> bool {
    exists|i: int| 0 <= i < rs.len() && overlaps(#[trigger] rs[i], start, end)
}

pub open spec fn aligned(a: int) -> bool {
    a % (PAGE_SIZE as int) == 0
}

/// Usable regions lie below the last page of the 64-bit address space
/// (physical addresses are at most 52 bits wide).
pub open spec fn map_alignable(map: Seq<PhysicalMemoryRegion>) -> bool {
    forall|i: int|
        0 <= i < map.len() && (#[trigger] map[i]).kind == PhysicalMemoryKind::Usable ==> map[i].spec_end()
            <= MAX_ALIGNED
}

/// Largest address at which a whole frame still fits below `u64::MAX`.
pub const MAX_FRAME: u64 = 0xffff_ffff_ffff_efff;

/// Reservation `e` is the allocation record of the frame at `f`.
pub open spec fn allocation_of(e: (PhysicalMemoryRegion, ReservationKind), f: int) -> bool {
    &&& e.1 == ReservationKind::Allocated
    &&& e.0.start == f
    &&& e.0.spec_end() == f + PAGE_SIZE
}

/// Index of the last allocation record of `f` among the first `n` entries, or -1.
pub open spec fn last_allocation_of(s: Seq<(PhysicalMemoryRegion, ReservationKind)>, f: int, n: int) -> int
    decreases n,
{
    if n <= 0 {
        -1
    } else if allocation_of(s[n - 1], f) {
        n - 1
    } else {
        last_allocation_of(s, f, n - 1)
    }
}

/// Reservations after releasing the allocation record of `f` (the last one,
/// replaced by the final entry), if there is one.
pub open spec fn released(s: Seq<(PhysicalMemoryRegion, ReservationKind)>, f: int) -> Seq<(PhysicalMemoryRegion, ReservationKind)> {
    let j = last_allocation_of(s, f, s.len() as int);
    if j < 0 {
        s
    } else {
        s.update(j, s.last()).drop_last()
    }
}

/// Rounds `x` up to a page boundary.
pub fn page_align_up(x: u64) -> (r: u64)
    requires
        x <= MAX_ALIGNED,
    ensures
        aligned(r as int),
        x <= r,
        r < x + PAGE_SIZE,
        r <= MAX_ALIGNED,
{
    let rem = x % PAGE_SIZE;
    if rem == 0 {
        x
    } else {
        x + (PAGE_SIZE - rem)
    }
}

/// `[start, end)` intersects a permanent range or a reservation.
pub open spec fn reserved_in(
    res: Seq<(PhysicalMemoryRegion, ReservationKind)>,
    perm: Seq<PhysicalMemoryRegion>,
    start: int,
    end: int,
) -> bool {
    any_overlap(perm, start, end) || any_overlap(
        res.map_values(|r: (PhysicalMemoryRegion, ReservationKind)| r.0),
        start,
        end,
    )
}

/// A frame at `a` in region `r`: page aligned, at least `lower` and at
/// least one page up, ending inside the region and at or below
/// `upper_end`, starting below `upper_start`.
pub open spec fn fits_in(m: Seq<PhysicalMemoryRegion>, r: int, a: int, lower: int, upper_end: int, upper_start: int) -> bool {
    &&& 0 <= r < m.len()
    &&& aligned(a)
    &&& a >= lower
    &&& a >= PAGE_SIZE
    &&& a + PAGE_SIZE <= m[r].spec_end()
    &&& a + PAGE_SIZE <= upper_end
    &&& a < upper_start
}

/// A free frame that an allocation scan of usable region `r` may hand out.
pub open spec fn candidate_in(
    m: Seq<PhysicalMemoryRegion>,
    res: Seq<(PhysicalMemoryRegion, ReservationKind)>,
    perm: Seq<PhysicalMemoryRegion>,
    r: int,
    a: int,
    lower: int,
    upper_end: int,
    upper_start: int,
) -> bool {
    &&& m[r].kind == PhysicalMemoryKind::Usable
    &&& fits_in(m, r, a, lower, upper_end, upper_start)
    &&& !reserved_in(res, perm, a, a + PAGE_SIZE)
}

/// `a` is the lowest candidate of region `r`.
pub open spec fn first_candidate_in(
    m: Seq<PhysicalMemoryRegion>,
    res: Seq<(PhysicalMemoryRegion, ReservationKind)>,
    perm: Seq<PhysicalMemoryRegion>,
    r: int,
    a: int,
    lower: int,
    upper_end: int,
    upper_start: int,
) -> bool {
    &&& candidate_in(m, res, perm, r, a, lower, upper_end, upper_start)
    &&& forall|b: int| b < a ==> !#[trigger] candidate_in(m, res, perm, r, b, lower, upper_end, upper_start)
}

/// Region `r` holds no candidate.
pub open spec fn no_candidate_in(
    m: Seq<PhysicalMemoryRegion>,
    res: Seq<(PhysicalMemoryRegion, ReservationKind)>,
    perm: Seq<PhysicalMemoryRegion>,
    r: int,
    lower: int,
    upper_end: int,
    upper_start: int,
) -> bool {
    forall|b: int| !#[trigger] candidate_in(m, res, perm, r, b, lower, upper_end, upper_start)
}

/// A physical frame allocator.
pub struct Allocator {
    map: PhysicalMemoryMap,
    reserved: Vec<(PhysicalMemoryRegion, ReservationKind)>,
    permanent: Vec<PhysicalMemoryRegion>,
    recycled: Vec<PhysFrame>,
    cursor: usize,
    cursor_address: u64,
    low_cursor_address: u64,
}

impl Allocator {
    pub closed spec fn memory(&self) -> Seq<PhysicalMemoryRegion> {
        self.map@
    }

    /// All reservations, allocated and permanent, in the order they were made.
    pub closed spec fn reservations(&self) -> Seq<(PhysicalMemoryRegion, ReservationKind)> {
        self.reserved@
    }

    pub closed spec fn permanent_ranges(&self) -> Seq<PhysicalMemoryRegion> {
        self.permanent@
    }

    /// Freed frames waiting to be handed out again (the last is handed out first).
    pub closed spec fn recycle_list(&self) -> Seq<PhysFrame> {
        self.recycled@
    }

    pub closed spec fn scan_cursor(&self) -> (int, int) {
        (self.cursor as int, self.cursor_address as int)
    }

    pub closed spec fn low_cursor(&self) -> int {
        self.low_cursor_address as int
    }

    pub open spec fn reserved_regions(&self) -> Seq<PhysicalMemoryRegion> {
        self.reservations().map_values(|r: (PhysicalMemoryRegion, ReservationKind)| r.0)
    }

    /// `[start, end)` intersects a permanent range or a reservation.
    #[verifier::inline]
    pub open spec fn spec_is_reserved(&self, start: int, end: int) -> bool {
        reserved_in(self.reservations(), self.permanent_ranges(), start, end)
    }

    /// The 4 KiB frame at `f` intersects no reservation.
    #[verifier::inline]
    pub open spec fn frame_free(&self, f: int) -> bool {
        !self.spec_is_reserved(f, f + PAGE_SIZE)
    }

    pub closed spec fn wf(&self) -> bool {
        &&& self.map.wf()
        &&& map_alignable(self.map@)
        &&& self.reserved@.len() <= MAX_RESERVED
        &&& self.permanent@.len() <= MAX_PERMANENT_RANGES
        &&& self.recycled@.len() <= MAX_RECYCLED
        &&& self.cursor <= self.map.count
        &&& self.cursor == self.map.count ==> self.cursor_address == 0
        &&& self.cursor_address <= MAX_ALIGNED
        &&& self.low_cursor_address <= MAX_ALIGNED
        &&& forall|i: int| 0 <= i < self.recycled@.len() ==> (#[trigger] self.recycled@[i]).0 <= MAX_FRAME
    }

    /// An allocator with an empty memory map.
    pub fn empty() -> (r: Self)
        ensures
            r.wf(),
            r.memory() == Seq::<PhysicalMemoryRegion>::empty(),
            r.reservations().len() == 0,
            r.permanent_ranges().len() == 0,
            r.recycle_list().len() == 0,
            r.scan_cursor() == (0int, 0int),
            r.low_cursor() == LOW_TABLE_MIN,
    {
        Allocator {
            map: PhysicalMemoryMap::empty(),
            reserved: Vec::new(),
            permanent: Vec::new(),
            recycled: Vec::new(),
            cursor: 0,
            cursor_address: 0,
            low_cursor_address: LOW_TABLE_MIN,
        }
    }

    /// Records `[start, end)` as reserved. A permanent range is also kept in
    /// the permanent list while that has room. Returns whether the
    /// reservation list recorded it.
    pub fn reserve(&mut self, start: u64, end: u64, kind: ReservationKind) -> (r: bool)
        requires
            old(self).wf(),
        ensures
            final(self).wf(),
            r == (start < end && old(self).reservations().len() < MAX_RESERVED),
            final(self).permanent_ranges() == (if kind == ReservationKind::Permanent && start < end
                && old(self).permanent_ranges().len() < MAX_PERMANENT_RANGES {
                old(self).permanent_ranges().push(
                    PhysicalMemoryRegion { start, length: (end - start) as u64, kind: PhysicalMemoryKind::Reserved },
                )
            } else {
                old(self).permanent_ranges()
            }),
            final(self).reservations() == (if r {
                old(self).reservations().push(
                    (PhysicalMemoryRegion { start, length: (end - start) as u64, kind: PhysicalMemoryKind::Reserved }, kind),
                )
            } else {
                old(self).reservations()
            }),
            final(self).memory() == old(self).memory(),
            final(self).recycle_list() == old(self).recycle_list(),
            final(self).scan_cursor() == old(self).scan_cursor(),
            final(self).low_cursor() == old(self).low_cursor(),
    {
        if kind == ReservationKind::Permanent && self.permanent.len() < MAX_PERMANENT_RANGES && start < end {
            self.permanent.push(
                PhysicalMemoryRegion { start, length: end - start, kind: PhysicalMemoryKind::Reserved },
            );
        }
        if start < end && self.reserved.len() < MAX_RESERVED {
            self.reserved.push(
                (PhysicalMemoryRegion { start, length: end - start, kind: PhysicalMemoryKind::Reserved }, kind),
            );
            true
        } else {
            false
        }
    }

    /// Whether `[start, end)` intersects a permanent range or a reservation.
    pub fn is_reserved(&self, start: u64, end: u64) -> (r: bool)
        requires
            self.wf(),
        ensures
            r == self.spec_is_reserved(start as int, end as int),
    {
        self.is_permanent(start, end) || self.overlaps_reservation(start, end)
    }

    fn overlaps_reservation(&self, start: u64, end: u64) -> (r: bool)
        ensures
            r == any_overlap(self.reserved_regions(), start as int, end as int),
    {
        let mut i: usize = 0;
        while i < self.reserved.len()
            invariant
                i <= self.reserved@.len(),
                forall|j: int| 0 <= j < i ==> !overlaps(#[trigger] self.reserved_regions()[j], start as int, end as int),
            decreases self.reserved@.len() - i,
        {
            let r = self.reserved[i].0;
            if start < r.end() && end > r.start {
                assert(self.reserved_regions()[i as int] == r);
                return true;
            }
            i = i + 1;
        }
        false
    }

    /// Whether `[start, end)` intersects a permanent range.
    pub fn is_permanent(&self, start: u64, end: u64) -> (r: bool)
        ensures
            r == any_overlap(self.permanent_ranges(), start as int, end as int),
    {
        let mut i: usize = 0;
        while i < self.permanent.len()
            invariant
                i <= self.permanent@.len(),
                forall|j: int| 0 <= j < i ==> !overlaps(#[trigger] self.permanent@[j], start as int, end as int),
            decreases self.permanent@.len() - i,
        {
            let r = self.permanent[i];
            if start < r.end() && end > r.start {
                return true;
            }
            i = i + 1;
        }
        false
    }
}


impl Allocator {
    #[verifier::inline]
    pub open spec fn fits(&self, r: int, a: int, lower: int, upper_end: int, upper_start: int) -> bool {
        fits_in(self.memory(), r, a, lower, upper_end, upper_start)
    }

    #[verifier::inline]
    pub open spec fn candidate(&self, r: int, a: int, lower: int, upper_end: int, upper_start: int) -> bool {
        candidate_in(self.memory(), self.reservations(), self.permanent_ranges(), r, a, lower, upper_end, upper_start)
    }

    #[verifier::inline]
    pub open spec fn first_candidate(&self, r: int, a: int, lower: int, upper_end: int, upper_start: int) -> bool {
        first_candidate_in(self.memory(), self.reservations(), self.permanent_ranges(), r, a, lower, upper_end, upper_start)
    }

    #[verifier::inline]
    pub open spec fn no_candidate(&self, r: int, lower: int, upper_end: int, upper_start: int) -> bool {
        no_candidate_in(self.memory(), self.reservations(), self.permanent_ranges(), r, lower, upper_end, upper_start)
    }

    /// Index of the last recycled frame (among the first `n`) that is free, or -1.
    pub open spec fn last_free_recycled(&self, n: int) -> int
        decreases n,
    {
        if n <= 0 {
            -1
        } else if self.frame_free(self.recycle_list()[n - 1].0 as int) {
            n - 1
        } else {
            self.last_free_recycled(n - 1)
        }
    }

    /// Index of the last recycled frame (among the first `n`) in
    /// `[minimum, maximum)` that is free, or -1.
    pub open spec fn last_free_recycled_in(&self, n: int, minimum: int, maximum: int) -> int
        decreases n,
    {
        if n <= 0 {
            -1
        } else if minimum <= self.recycle_list()[n - 1].0 < maximum && self.frame_free(
            self.recycle_list()[n - 1].0 as int,
        ) {
            n - 1
        } else {
            self.last_free_recycled_in(n - 1, minimum, maximum)
        }
    }

    /// The recycled frame that `last_free_recycled_in` picks lies in its range.
    pub proof fn lemma_last_free_recycled_in_bounds(&self, n: int, minimum: int, maximum: int)
        requires
            0 <= n <= self.recycle_list().len(),
        ensures
            ({
                let k = self.last_free_recycled_in(n, minimum, maximum);
                k >= 0 ==> 0 <= k < n && minimum <= self.recycle_list()[k].0 < maximum
            }),
        decreases n,
    {
        if n > 0 {
            self.lemma_last_free_recycled_in_bounds(n - 1, minimum, maximum);
        }
    }

    /// The lowest free frame of region `r` within the bounds, if any.
    fn scan_region(&self, r: usize, lower: u64, upper_end: u64, upper_start: u64) -> (res: Option<u64>)
        requires
            self.wf(),
            r < self.memory().len(),
            self.memory()[r as int].kind == PhysicalMemoryKind::Usable,
            lower <= MAX_ALIGNED,
        ensures
            res matches Some(a) ==> self.first_candidate(r as int, a as int, lower as int, upper_end as int, upper_start as int),
            res is None ==> self.no_candidate(r as int, lower as int, upper_end as int, upper_start as int),
    {
        let region = self.map.regions[r];
        let end = if region.end() < upper_end { region.end() } else { upper_end };
        let floor = if lower < PAGE_SIZE { PAGE_SIZE } else { lower };
        let first = page_align_up(floor);
        let mut start = first;
        proof {
            assert(region.spec_end() <= MAX_ALIGNED);
        }
        while start.saturating_add(PAGE_SIZE) <= end && start < upper_start
            invariant
                self.wf(),
                r < self.memory().len(),
                region == self.memory()[r as int],
                region.kind == PhysicalMemoryKind::Usable,
                region.spec_end() <= MAX_ALIGNED,
                end <= region.spec_end(),
                end <= upper_end,
                end == region.spec_end() || end == upper_end,
                aligned(start as int),
                first <= start,
                start <= MAX_ALIGNED,
                aligned(first as int),
                floor <= first < floor + PAGE_SIZE,
                floor >= lower,
                floor >= PAGE_SIZE,
                floor == lower || floor == PAGE_SIZE,
                forall|b: int| b < start ==> !#[trigger] self.candidate(r as int, b, lower as int, upper_end as int, upper_start as int),
            decreases MAX_ALIGNED - start,
        {
            if !self.is_reserved(start, start + PAGE_SIZE) {
                return Some(start);
            }
            start = start + PAGE_SIZE;
        }
        None
    }
}


impl Allocator {
    /// Forgets the allocation record of `frame` (the most recent one).
    pub fn release_frame_reservation(&mut self, frame: PhysFrame)
        requires
            old(self).wf(),
            frame.0 <= MAX_FRAME,
        ensures
            final(self).wf(),
            final(self).reservations() == released(old(self).reservations(), frame.0 as int),
            final(self).permanent_ranges() == old(self).permanent_ranges(),
            final(self).memory() == old(self).memory(),
            final(self).recycle_list() == old(self).recycle_list(),
            final(self).scan_cursor() == old(self).scan_cursor(),
            final(self).low_cursor() == old(self).low_cursor(),
    {
        let start = frame.0;
        let end = start + PAGE_SIZE;
        let mut index = self.reserved.len();
        while index > 0
            invariant
                self.wf(),
                *self == *old(self),
                start == frame.0,
                end == start + PAGE_SIZE,
                index <= self.reserved@.len(),
                last_allocation_of(self.reserved@, start as int, self.reserved@.len() as int)
                    == last_allocation_of(self.reserved@, start as int, index as int),
            decreases index,
        {
            index = index - 1;
            let reservation = self.reserved[index];
            let hit = reservation.1 == ReservationKind::Allocated && reservation.0.start == start
                && reservation.0.end() == end;
            proof {
                assert(reservation == self.reserved@[index as int]);
                assert(hit == allocation_of(self.reserved@[index as int], start as int));
                assert(last_allocation_of(self.reserved@, start as int, index as int + 1) == (if hit {
                    index as int
                } else {
                    last_allocation_of(self.reserved@, start as int, index as int)
                }));
            }
            if hit {
                self.reserved.swap_remove(index);
                return;
            }
        }
    }

    /// Returns a frame to the allocator: unless it lies in a permanent
    /// range, its allocation record is dropped and it joins the recycle list
    /// (if that has room and does not hold it yet).
    pub fn free_frame(&mut self, frame: PhysFrame)
        requires
            old(self).wf(),
            frame.0 <= MAX_FRAME,
        ensures
            final(self).wf(),
            old(self).free_post(*final(self), frame),
    {
        if self.is_permanent(frame.0, frame.0 + PAGE_SIZE) {
            return;
        }
        self.release_frame_reservation(frame);
        self.recycle(frame);
    }

    /// Appends `frame` to the recycle list if that has room and lacks it.
    fn recycle(&mut self, frame: PhysFrame)
        requires
            old(self).wf(),
            frame.0 <= MAX_FRAME,
        ensures
            final(self).wf(),
            final(self).recycle_list() == (if old(self).recycle_list().len() < MAX_RECYCLED
                && !old(self).recycle_list().contains(frame) {
                old(self).recycle_list().push(frame)
            } else {
                old(self).recycle_list()
            }),
            final(self).reservations() == old(self).reservations(),
            final(self).permanent_ranges() == old(self).permanent_ranges(),
            final(self).memory() == old(self).memory(),
            final(self).scan_cursor() == old(self).scan_cursor(),
            final(self).low_cursor() == old(self).low_cursor(),
    {
        if self.recycled.len() < MAX_RECYCLED {
            let mut i: usize = 0;
            let mut found = false;
            while i < self.recycled.len()
                invariant
                    i <= self.recycled@.len(),
                    found == exists|j: int| 0 <= j < i && self.recycled@[j] == frame,
                decreases self.recycled@.len() - i,
            {
                if self.recycled[i] == frame {
                    found = true;
                }
                i = i + 1;
            }
            if !found {
                self.recycled.push(frame);
            } else {
                proof {
                    let j = choose|j: int| 0 <= j < i && self.recycled@[j] == frame;
                    assert(self.recycled@.contains(frame));
                }
            }
        }
    }

    /// Takes the last recycled frame in `[minimum, maximum)` that is free
    /// and reserves it; `None` if there is none, or if the reservation list
    /// is full (the frame then leaves the recycle list unrecorded).
    pub fn take_recycled_in_range(&mut self, minimum: u64, maximum: u64) -> (r: Option<PhysFrame>)
        requires
            old(self).wf(),
        ensures
            final(self).wf(),
            ({
                let k = old(self).last_free_recycled_in(
                    old(self).recycle_list().len() as int,
                    minimum as int,
                    maximum as int,
                );
                let f = old(self).recycle_list()[k];
                let room = old(self).reservations().len() < MAX_RESERVED;
                &&& k < 0 ==> *final(self) == *old(self) && r is None
                &&& k >= 0 ==> {
                    &&& final(self).recycle_list() == old(self).recycle_list().update(
                        k,
                        old(self).recycle_list().last(),
                    ).drop_last()
                    &&& r == (if room { Some(f) } else { None::<PhysFrame> })
                    &&& final(self).reservations() == (if room {
                        old(self).reservations().push(
                            (
                                PhysicalMemoryRegion {
                                    start: f.0,
                                    length: PAGE_SIZE,
                                    kind: PhysicalMemoryKind::Reserved,
                                },
                                ReservationKind::Allocated,
                            ),
                        )
                    } else {
                        old(self).reservations()
                    })
                }
                &&& final(self).permanent_ranges() == old(self).permanent_ranges()
                &&& final(self).memory() == old(self).memory()
                &&& final(self).scan_cursor() == old(self).scan_cursor()
                &&& final(self).low_cursor() == old(self).low_cursor()
            }),
    {
        let mut index = self.recycled.len();
        while index > 0
            invariant
                self.wf(),
                *self == *old(self),
                index <= self.recycled@.len(),
                old(self).last_free_recycled_in(self.recycled@.len() as int, minimum as int, maximum as int)
                    == old(self).last_free_recycled_in(index as int, minimum as int, maximum as int),
            decreases index,
        {
            index = index - 1;
            let frame = self.recycled[index];
            if frame.0 >= minimum && frame.0 < maximum && !self.is_reserved(frame.0, frame.0 + PAGE_SIZE) {
                self.recycled.swap_remove(index);
                if self.reserve(frame.0, frame.0 + PAGE_SIZE, ReservationKind::Allocated) {
                    return Some(frame);
                }
                return None;
            }
        }
        None
    }
}


/// The allocation record of the frame at `f`.
pub open spec fn frame_record(f: u64) -> (PhysicalMemoryRegion, ReservationKind) {
    (PhysicalMemoryRegion { start: f, length: PAGE_SIZE, kind: PhysicalMemoryKind::Reserved }, ReservationKind::Allocated)
}

/// Reservations after recording an allocation of `f`, if the list has room.
pub open spec fn recorded(s: Seq<(PhysicalMemoryRegion, ReservationKind)>, f: u64) -> Seq<(PhysicalMemoryRegion, ReservationKind)> {
    if s.len() < MAX_RESERVED {
        s.push(frame_record(f))
    } else {
        s
    }
}

impl Allocator {
    /// Lower bound of the cursor scan in region `ri`.
    pub open spec fn scan_lower(&self, ri: int) -> int {
        if ri == self.scan_cursor().0 && self.scan_cursor().1 != 0 {
            self.scan_cursor().1
        } else {
            self.memory()[ri].start as int
        }
    }

    /// `f` in region `ri` is the first frame the cursor scan finds.
    pub open spec fn cursor_hit(&self, ri: int, f: int) -> bool {
        &&& self.scan_cursor().0 <= ri < self.memory().len()
        &&& self.first_candidate(ri, f, self.scan_lower(ri), u64::MAX as int, u64::MAX as int)
        &&& forall|j: int|
            self.scan_cursor().0 <= j < ri ==> #[trigger] self.no_candidate(j, self.scan_lower(j), u64::MAX as int, u64::MAX as int)
    }

    /// The cursor scan finds nothing in the remaining regions.
    pub open spec fn cursor_exhausted(&self) -> bool {
        forall|j: int|
            self.scan_cursor().0 <= j < self.memory().len() ==> #[trigger] self.no_candidate(
                j,
                self.scan_lower(j),
                u64::MAX as int,
                u64::MAX as int,
            )
    }

    /// First free frame, scanning every region in order, with per-region
    /// lower bound `max(start, lower)` and the given upper bounds.
    pub open spec fn global_hit(&self, ri: int, f: int, lower: int, upper_end: int, upper_start: int) -> bool {
        &&& 0 <= ri < self.memory().len()
        &&& self.first_candidate(ri, f, max_int(self.memory()[ri].start as int, lower), upper_end, upper_start)
        &&& forall|j: int|
            0 <= j < ri ==> #[trigger] self.no_candidate(j, max_int(self.memory()[j].start as int, lower), upper_end, upper_start)
    }

    pub open spec fn global_exhausted(&self, lower: int, upper_end: int, upper_start: int) -> bool {
        forall|j: int|
            0 <= j < self.memory().len() ==> #[trigger] self.no_candidate(
                j,
                max_int(self.memory()[j].start as int, lower),
                upper_end,
                upper_start,
            )
    }

    /// The lowest free frame over all regions (region order first), with
    /// per-region lower bound `max(start, lower)`.
    fn scan_all(&self, lower: u64, upper_end: u64, upper_start: u64) -> (res: Option<(usize, u64)>)
        requires
            self.wf(),
            lower <= MAX_ALIGNED,
        ensures
            res matches Some((ri, f)) ==> self.global_hit(ri as int, f as int, lower as int, upper_end as int, upper_start as int),
            res is None ==> self.global_exhausted(lower as int, upper_end as int, upper_start as int),
    {
        let mut i: usize = 0;
        while i < self.map.count
            invariant
                self.wf(),
                lower <= MAX_ALIGNED,
                i <= self.memory().len(),
                forall|j: int|
                    0 <= j < i ==> #[trigger] self.no_candidate(j, max_int(self.memory()[j].start as int, lower as int), upper_end as int, upper_start as int),
            decreases self.memory().len() - i,
        {
            let region = self.map.regions[i];
            if region.kind == PhysicalMemoryKind::Usable {
                let low = if region.start < lower { lower } else { region.start };
                proof {
                    assert(region.spec_end() <= MAX_ALIGNED);
                }
                match self.scan_region(i, low, upper_end, upper_start) {
                    Some(f) => {
                        return Some((i, f));
                    },
                    None => {},
                }
            }
            i = i + 1;
        }
        None
    }

    /// A frame at or above `minimum`: the last suitable recycled frame if
    /// there is one, else the lowest free frame of any usable region.
    pub fn alloc_frame_at_or_above(&mut self, minimum: PhysAddr) -> (r: Option<PhysFrame>)
        requires
            old(self).wf(),
            minimum.0 <= MAX_ALIGNED,
        ensures
            final(self).wf(),
            final(self).permanent_ranges() == old(self).permanent_ranges(),
            final(self).memory() == old(self).memory(),
            final(self).scan_cursor() == old(self).scan_cursor(),
            final(self).low_cursor() == old(self).low_cursor(),
            ({
                let k = old(self).last_free_recycled_in(
                    old(self).recycle_list().len() as int,
                    minimum.0 as int,
                    u64::MAX as int,
                );
                let room = old(self).reservations().len() < MAX_RESERVED;
                &&& k >= 0 && room ==> {
                    &&& final(self).recycle_list() == old(self).recycle_list().update(k, old(self).recycle_list().last()).drop_last()
                    &&& r == Some(old(self).recycle_list()[k])
                    &&& final(self).reservations() == recorded(old(self).reservations(), old(self).recycle_list()[k].0)
                }
                &&& !(k >= 0 && room) ==> {
                    &&& final(self).recycle_list() == (if k >= 0 {
                        old(self).recycle_list().update(k, old(self).recycle_list().last()).drop_last()
                    } else {
                        old(self).recycle_list()
                    })
                    &&& r matches Some(f) ==> (exists|ri: int| old(self).global_hit(ri, f.0 as int, minimum.0 as int, u64::MAX as int, u64::MAX as int))
                        && final(self).reservations() == recorded(old(self).reservations(), f.0)
                    &&& r is None ==> old(self).global_exhausted(minimum.0 as int, u64::MAX as int, u64::MAX as int)
                        && final(self).reservations() == old(self).reservations()
                }
            }),
            r matches Some(f) ==> minimum.0 <= f.0 && old(self).frame_free(f.0 as int),
    {
        let k_some = self.take_recycled_in_range(minimum.0, u64::MAX);
        let ghost k = old(self).last_free_recycled_in(old(self).recycle_list().len() as int, minimum.0 as int, u64::MAX as int);
        proof {
            old(self).lemma_last_free_recycled_in_bounds(old(self).recycle_list().len() as int, minimum.0 as int, u64::MAX as int);
            if k >= 0 {
                lemma_last_free_recycled_in_free(*old(self), old(self).recycle_list().len() as int, minimum.0 as int, u64::MAX as int);
            }
        }
        if k_some.is_some() {
            return k_some;
        }
        proof {
            assert(self.reservations() == old(self).reservations());
            assert(self.permanent_ranges() == old(self).permanent_ranges());
            assert(self.memory() == old(self).memory());
        }
        match self.scan_all(minimum.0, u64::MAX, u64::MAX) {
            Some((ri, start)) => {
                proof {
                    assert(self.memory()[ri as int].spec_end() <= MAX_ALIGNED);
                    assert(old(self).global_hit(ri as int, start as int, minimum.0 as int, u64::MAX as int, u64::MAX as int));
                }
                self.reserve(start, start + PAGE_SIZE, ReservationKind::Allocated);
                proof {
                    assert(self.reservations() == recorded(old(self).reservations(), start));
                }
                Some(PhysFrame(start))
            },
            None => {
                proof {
                    assert(old(self).global_exhausted(minimum.0 as int, u64::MAX as int, u64::MAX as int));
                }
                None
            },
        }
    }

    /// A frame whose start is below `maximum`, used for page tables while only
    /// low memory is identity mapped: the last suitable recycled frame if
    /// there is one, else the lowest free frame at or above the low cursor.
    pub fn alloc_frame_below(&mut self, maximum: PhysAddr) -> (r: Option<PhysFrame>)
        requires
            old(self).wf(),
        ensures
            final(self).wf(),
            final(self).permanent_ranges() == old(self).permanent_ranges(),
            final(self).memory() == old(self).memory(),
            final(self).scan_cursor() == old(self).scan_cursor(),
            ({
                let k = old(self).last_free_recycled_in(
                    old(self).recycle_list().len() as int,
                    0,
                    maximum.0 as int,
                );
                let room = old(self).reservations().len() < MAX_RESERVED;
                &&& k >= 0 && room ==> {
                    &&& final(self).recycle_list() == old(self).recycle_list().update(k, old(self).recycle_list().last()).drop_last()
                    &&& r == Some(old(self).recycle_list()[k])
                    &&& final(self).reservations() == recorded(old(self).reservations(), old(self).recycle_list()[k].0)
                    &&& final(self).low_cursor() == old(self).low_cursor()
                }
                &&& !(k >= 0 && room) ==> {
                    &&& final(self).recycle_list() == (if k >= 0 {
                        old(self).recycle_list().update(k, old(self).recycle_list().last()).drop_last()
                    } else {
                        old(self).recycle_list()
                    })
                    &&& r matches Some(f) ==> (exists|ri: int| old(self).global_hit(ri, f.0 as int, old(self).low_cursor(), maximum.0 as int, u64::MAX as int))
                        && final(self).reservations() == recorded(old(self).reservations(), f.0)
                        && final(self).low_cursor() == f.0 + PAGE_SIZE
                    &&& r is None ==> old(self).global_exhausted(old(self).low_cursor(), maximum.0 as int, u64::MAX as int)
                        && final(self).reservations() == old(self).reservations()
                        && final(self).low_cursor() == old(self).low_cursor()
                }
            }),
    {
        let k_some = self.take_recycled_in_range(0, maximum.0);
        let ghost k = old(self).last_free_recycled_in(old(self).recycle_list().len() as int, 0, maximum.0 as int);
        if k_some.is_some() {
            return k_some;
        }
        proof {
            assert(self.reservations() == old(self).reservations());
            assert(self.permanent_ranges() == old(self).permanent_ranges());
            assert(self.memory() == old(self).memory());
        }
        match self.scan_all(self.low_cursor_address, maximum.0, u64::MAX) {
            Some((ri, start)) => {
                proof {
                    assert(self.memory()[ri as int].spec_end() <= MAX_ALIGNED);
                    assert(old(self).global_hit(ri as int, start as int, old(self).low_cursor(), maximum.0 as int, u64::MAX as int));
                }
                self.low_cursor_address = start + PAGE_SIZE;
                self.reserve(start, start + PAGE_SIZE, ReservationKind::Allocated);
                proof {
                    assert(self.reservations() == recorded(old(self).reservations(), start));
                }
                Some(PhysFrame(start))
            },
            None => {
                proof {
                    assert(old(self).global_exhausted(old(self).low_cursor(), maximum.0 as int, u64::MAX as int));
                }
                None
            },
        }
    }

    /// With a bound, the lowest free frame starting below it (recycled frames
    /// are not consulted); without one, the same as `allocate`.
    pub fn alloc_with_max(&mut self, max_address: Option<PhysAddr>) -> (r: Option<PhysFrame>)
        requires
            old(self).wf(),
        ensures
            final(self).wf(),
            max_address is None ==> old(self).alloc_post(*final(self), r),
            max_address matches Some(m) ==> {
                &&& r matches Some(f) ==> (exists|ri: int| old(self).global_hit(ri, f.0 as int, 0, u64::MAX as int, m.0 as int))
                    && final(self).reservations() == recorded(old(self).reservations(), f.0)
                &&& r is None ==> old(self).global_exhausted(0, u64::MAX as int, m.0 as int)
                    && final(self).reservations() == old(self).reservations()
                &&& final(self).recycle_list() == old(self).recycle_list()
                &&& final(self).permanent_ranges() == old(self).permanent_ranges()
                &&& final(self).memory() == old(self).memory()
                &&& final(self).scan_cursor() == old(self).scan_cursor()
                &&& final(self).low_cursor() == old(self).low_cursor()
            },
    {
        match max_address {
            None => self.allocate(),
            Some(maximum) => {
                match self.scan_all(0, u64::MAX, maximum.0) {
                    Some((ri, start)) => {
                        proof {
                            assert(self.memory()[ri as int].spec_end() <= MAX_ALIGNED);
                        }
                        self.reserve(start, start + PAGE_SIZE, ReservationKind::Allocated);
                        Some(PhysFrame(start))
                    },
                    None => None,
                }
            },
        }
    }

    /// What `allocate` does, as a relation between the states before and after
    /// and the result.
    pub open spec fn alloc_post(&self, after: Self, r: Option<PhysFrame>) -> bool {
        let k = self.last_free_recycled(self.recycle_list().len() as int);
        &&& after.permanent_ranges() == self.permanent_ranges()
        &&& after.memory() == self.memory()
        &&& after.low_cursor() == self.low_cursor()
        &&& k >= 0 ==> {
            &&& after.recycle_list() == self.recycle_list().subrange(0, k)
            &&& r == (if self.reservations().len() < MAX_RESERVED {
                Some(self.recycle_list()[k])
            } else {
                None::<PhysFrame>
            })
            &&& after.reservations() == recorded(self.reservations(), self.recycle_list()[k].0)
            &&& after.scan_cursor() == self.scan_cursor()
        }
        &&& k < 0 ==> {
            &&& after.recycle_list().len() == 0
            &&& r matches Some(f) ==> (exists|ri: int| self.cursor_hit(ri, f.0 as int) && after.scan_cursor() == (ri, f.0 + PAGE_SIZE))
                && after.reservations() == recorded(self.reservations(), f.0)
            &&& r is None ==> self.cursor_exhausted() && after.reservations() == self.reservations()
                && after.scan_cursor() == (self.memory().len() as int, 0int)
        }
    }

    /// `f` is the frame that the next `alloc_frame` hands out.
    pub open spec fn next_frame(&self, f: u64) -> bool {
        let k = self.last_free_recycled(self.recycle_list().len() as int);
        if k >= 0 {
            self.reservations().len() < MAX_RESERVED && f == self.recycle_list()[k].0
        } else {
            exists|ri: int| self.cursor_hit(ri, f as int)
        }
    }

    /// `f` is the frame that the next `alloc_frame_below(maximum)` hands out.
    pub open spec fn next_frame_below(&self, maximum: u64, f: u64) -> bool {
        let k = self.last_free_recycled_in(self.recycle_list().len() as int, 0, maximum as int);
        if k >= 0 && self.reservations().len() < MAX_RESERVED {
            f == self.recycle_list()[k].0
        } else {
            exists|ri: int| self.global_hit(ri, f as int, self.low_cursor(), maximum as int, u64::MAX as int)
        }
    }

    /// The next frame: the most recently recycled free frame (recycled
    /// frames that are reserved again are dropped on the way), else the
    /// first free frame at or after the scan cursor.
    pub fn allocate(&mut self) -> (r: Option<PhysFrame>)
        requires
            old(self).wf(),
        ensures
            final(self).wf(),
            old(self).alloc_post(*final(self), r),
    {
        while self.recycled.len() != 0
            invariant
                self.wf(),
                self.reserved@ == old(self).reserved@,
                self.permanent@ == old(self).permanent@,
                self.map == old(self).map,
                self.cursor == old(self).cursor,
                self.cursor_address == old(self).cursor_address,
                self.low_cursor_address == old(self).low_cursor_address,
                self.recycled@ == old(self).recycled@.subrange(0, self.recycled@.len() as int),
                self.recycled@.len() <= old(self).recycled@.len(),
                old(self).last_free_recycled(old(self).recycle_list().len() as int) == old(self).last_free_recycled(
                    self.recycled@.len() as int,
                ),
            decreases self.recycled@.len(),
        {
            let ghost n = self.recycled@.len() as int;
            let frame = self.recycled.pop().unwrap();
            proof {
                assert(frame == old(self).recycle_list()[n - 1]);
                assert(self.recycled@ =~= old(self).recycled@.subrange(0, n - 1));
            }
            proof {
                assert(self.frame_free(frame.0 as int) == old(self).frame_free(frame.0 as int));
            }
            if !self.is_reserved(frame.0, frame.0 + PAGE_SIZE) {
                proof {
                    assert(old(self).last_free_recycled(n) == n - 1);
                }
                if self.reserve(frame.0, frame.0 + PAGE_SIZE, ReservationKind::Allocated) {
                    proof {
                        assert(self.reservations() == recorded(old(self).reservations(), frame.0));
                    }
                    return Some(frame);
                }
                return None;
            }
        }
        while self.cursor < self.map.count
            invariant
                self.wf(),
                self.reserved@ == old(self).reserved@,
                self.permanent@ == old(self).permanent@,
                self.map == old(self).map,
                self.low_cursor_address == old(self).low_cursor_address,
                self.recycled@.len() == 0,
                old(self).last_free_recycled(old(self).recycle_list().len() as int) < 0,
                old(self).cursor <= self.cursor,
                self.cursor == old(self).cursor ==> self.cursor_address == old(self).cursor_address,
                self.cursor != old(self).cursor ==> self.cursor_address == 0,
                forall|j: int|
                    old(self).cursor <= j < self.cursor ==> #[trigger] old(self).no_candidate(j, old(self).scan_lower(j), u64::MAX as int, u64::MAX as int),
            decreases self.map.count - self.cursor,
        {
            proof {
                assert(self.memory() == old(self).memory());
            }
            let region = self.map.regions[self.cursor];
            if region.kind != PhysicalMemoryKind::Usable {
                proof {
                    assert(old(self).no_candidate(self.cursor as int, old(self).scan_lower(self.cursor as int), u64::MAX as int, u64::MAX as int));
                }
                self.cursor = self.cursor + 1;
                self.cursor_address = 0;
                continue;
            }
            let minimum = if self.cursor_address == 0 {
                region.start
            } else {
                self.cursor_address
            };
            proof {
                assert(region.spec_end() <= MAX_ALIGNED);
                assert(minimum as int == old(self).scan_lower(self.cursor as int));
            }
            match self.scan_region(self.cursor, minimum, u64::MAX, u64::MAX) {
                Some(start) => {
                    proof {
                        assert(old(self).cursor_hit(self.cursor as int, start as int));
                    }
                    self.cursor_address = start + PAGE_SIZE;
                    self.reserve(start, start + PAGE_SIZE, ReservationKind::Allocated);
                    proof {
                        assert(self.reservations() == recorded(old(self).reservations(), start));
                    }
                    return Some(PhysFrame(start));
                },
                None => {
                    proof {
                        assert(old(self).no_candidate(self.cursor as int, old(self).scan_lower(self.cursor as int), u64::MAX as int, u64::MAX as int));
                    }
                    self.cursor = self.cursor + 1;
                    self.cursor_address = 0;
                },
            }
        }
        proof {
            assert(old(self).cursor_exhausted());
        }
        None
    }
}

pub open spec fn max_int(a: int, b: int) -> int {
    if a < b {
        b
    } else {
        a
    }
}


impl Allocator {
    /// What `free_frame` does, as a relation between the states before and after.
    pub open spec fn free_post(&self, after: Self, frame: PhysFrame) -> bool {
        if any_overlap(self.permanent_ranges(), frame.0 as int, frame.0 + PAGE_SIZE) {
            after == *self
        } else {
            &&& after.reservations() == released(self.reservations(), frame.0 as int)
            &&& after.recycle_list() == (if self.recycle_list().len() < MAX_RECYCLED
                && !self.recycle_list().contains(frame) {
                self.recycle_list().push(frame)
            } else {
                self.recycle_list()
            })
            &&& after.permanent_ranges() == self.permanent_ranges()
            &&& after.memory() == self.memory()
            &&& after.scan_cursor() == self.scan_cursor()
            &&& after.low_cursor() == self.low_cursor()
        }
    }

    /// Resets the allocator to hand out frames from `map`, with no
    /// reservations and no recycled frames.
    pub fn init(&mut self, map: PhysicalMemoryMap)
        requires
            map.wf(),
            map_alignable(map@),
        ensures
            final(self).wf(),
            final(self).memory() == map@,
            final(self).reservations().len() == 0,
            final(self).permanent_ranges().len() == 0,
            final(self).recycle_list().len() == 0,
            final(self).scan_cursor() == (0int, 0int),
            final(self).low_cursor() == LOW_TABLE_MIN,
    {
        self.map = map;
        self.reserved = Vec::new();
        self.permanent = Vec::new();
        self.recycled = Vec::new();
        self.cursor = 0;
        self.cursor_address = 0;
        self.low_cursor_address = LOW_TABLE_MIN;
    }

    /// The next frame (see `allocate`).
    pub fn alloc_frame(&mut self) -> (r: Option<PhysFrame>)
        requires
            old(self).wf(),
        ensures
            final(self).wf(),
            old(self).alloc_post(*final(self), r),
    {
        self.allocate()
    }

    /// Records `[start, end)` as a permanent reservation; returns whether
    /// the reservation list recorded it.
    pub fn try_reserve_range(&mut self, start: PhysAddr, end: PhysAddr) -> (r: bool)
        requires
            old(self).wf(),
        ensures
            final(self).wf(),
            r == (start.0 < end.0 && old(self).reservations().len() < MAX_RESERVED),
            final(self).permanent_ranges() == (if start.0 < end.0 && old(self).permanent_ranges().len()
                < MAX_PERMANENT_RANGES {
                old(self).permanent_ranges().push(
                    PhysicalMemoryRegion {
                        start: start.0,
                        length: (end.0 - start.0) as u64,
                        kind: PhysicalMemoryKind::Reserved,
                    },
                )
            } else {
                old(self).permanent_ranges()
            }),
            final(self).reservations() == (if r {
                old(self).reservations().push(
                    (
                        PhysicalMemoryRegion {
                            start: start.0,
                            length: (end.0 - start.0) as u64,
                            kind: PhysicalMemoryKind::Reserved,
                        },
                        ReservationKind::Permanent,
                    ),
                )
            } else {
                old(self).reservations()
            }),
            final(self).memory() == old(self).memory(),
            final(self).recycle_list() == old(self).recycle_list(),
            final(self).scan_cursor() == old(self).scan_cursor(),
            final(self).low_cursor() == old(self).low_cursor(),
    {
        self.reserve(start.0, end.0, ReservationKind::Permanent)
    }

    /// Reserves `[start, end)` permanently. Returns `false` exactly when the
    /// range is non-empty and could not be recorded (a fatal condition the
    /// caller reports).
    pub fn reserve_range(&mut self, start: PhysAddr, end: PhysAddr) -> (ok: bool)
        requires
            old(self).wf(),
        ensures
            final(self).wf(),
            ok == !(start.0 < end.0 && old(self).reservations().len() >= MAX_RESERVED),
            start.0 < end.0 ==> final(self).reservations() == (if ok {
                old(self).reservations().push(
                    (
                        PhysicalMemoryRegion {
                            start: start.0,
                            length: (end.0 - start.0) as u64,
                            kind: PhysicalMemoryKind::Reserved,
                        },
                        ReservationKind::Permanent,
                    ),
                )
            } else {
                old(self).reservations()
            }),
            !(start.0 < end.0) ==> *final(self) == *old(self),
            final(self).memory() == old(self).memory(),
            final(self).recycle_list() == old(self).recycle_list(),
            reserves_more(*old(self), *final(self)),
    {
        let ghost a0 = *self;
        if start.0 < end.0 && !self.try_reserve_range(start, end) {
            proof {
                assert(self.reservations().subrange(0, a0.reservations().len() as int) =~= a0.reservations());
                assert(self.permanent_ranges().subrange(0, a0.permanent_ranges().len() as int) =~= a0.permanent_ranges());
                lemma_reserves_more_ext(a0, *self);
            }
            return false;
        }
        proof {
            assert(self.reservations().subrange(0, a0.reservations().len() as int) =~= a0.reservations());
            assert(self.permanent_ranges().subrange(0, a0.permanent_ranges().len() as int) =~= a0.permanent_ranges());
            lemma_reserves_more_ext(a0, *self);
        }
        true
    }

    /// A copy of the memory map the allocator hands frames out of.
    pub fn memory_map(&self) -> (r: PhysicalMemoryMap)
        requires
            self.wf(),
        ensures
            r.wf(),
            r@ == self.memory(),
    {
        let mut r = PhysicalMemoryMap::empty();
        let mut i: usize = 0;
        while i < self.map.count
            invariant
                self.wf(),
                i <= self.map.count,
                r.wf(),
                r.count == i,
                r@ == self.memory().subrange(0, i as int),
            decreases self.map.count - i,
        {
            r.regions.push(self.map.regions[i]);
            r.count = r.count + 1;
            proof {
                assert(r@ =~= self.memory().subrange(0, i as int + 1));
            }
            i = i + 1;
        }
        proof {
            assert(r@ =~= self.memory());
        }
        r
    }
}

/// An allocator of physical frames.
pub trait FrameAllocator: Sized {
    spec fn ready(&self) -> bool;

    fn allocate_frame(&mut self, max_address: Option<PhysAddr>) -> (r: Option<PhysFrame>)
        requires
            old(self).ready(),
        ensures
            final(self).ready(),
    ;

    fn deallocate_frame(&mut self, frame: PhysFrame)
        requires
            old(self).ready(),
            frame.0 <= MAX_FRAME,
        ensures
            final(self).ready(),
    ;
}

impl FrameAllocator for Allocator {
    open spec fn ready(&self) -> bool {
        self.wf()
    }

    fn allocate_frame(&mut self, max_address: Option<PhysAddr>) -> (r: Option<PhysFrame>)
        ensures
            max_address is None ==> old(self).alloc_post(*final(self), r),
    {
        self.alloc_with_max(max_address)
    }

    /// Drops the allocation record of `frame` and recycles it (permanent
    /// ranges are not consulted here).
    fn deallocate_frame(&mut self, frame: PhysFrame)
        ensures
            final(self).reservations() == released(old(self).reservations(), frame.0 as int),
            final(self).recycle_list() == (if old(self).recycle_list().len() < MAX_RECYCLED
                && !old(self).recycle_list().contains(frame) {
                old(self).recycle_list().push(frame)
            } else {
                old(self).recycle_list()
            }),
            final(self).permanent_ranges() == old(self).permanent_ranges(),
            final(self).memory() == old(self).memory(),
    {
        self.release_frame_reservation(frame);
        self.recycle(frame);
    }
}

/// A frame handed out by `allocate` was free before the call, and, when the
/// reservation list had room, is reserved afterwards.
pub proof fn law_allocated_frame_is_fresh(before: Allocator, after: Allocator, r: Option<PhysFrame>)
    requires
        before.wf(),
        before.alloc_post(after, r),
        r is Some,
    ensures
        before.frame_free((r->0).0 as int),
        before.reservations().len() < MAX_RESERVED ==> !after.frame_free((r->0).0 as int),
{
    let f = r->0;
    let k = before.last_free_recycled(before.recycle_list().len() as int);
    if k >= 0 {
        lemma_last_free_recycled_is_free(before, before.recycle_list().len() as int);
    }
    if before.reservations().len() < MAX_RESERVED {
        let rs = after.reserved_regions();
        let idx = before.reservations().len() as int;
        assert(rs[idx] == frame_record(f.0).0);
        assert(overlaps(rs[idx], f.0 as int, f.0 + PAGE_SIZE));
    }
}

proof fn lemma_last_free_recycled_is_free(a: Allocator, n: int)
    requires
        a.last_free_recycled(n) >= 0,
    ensures
        0 <= a.last_free_recycled(n) < n,
        a.frame_free(a.recycle_list()[a.last_free_recycled(n)].0 as int),
    decreases n,
{
    if n > 0 && !a.frame_free(a.recycle_list()[n - 1].0 as int) {
        lemma_last_free_recycled_is_free(a, n - 1);
    }
}

/// An allocated frame lies below the last page of the address space.
pub proof fn lemma_allocated_frame_bounded(before: Allocator, after: Allocator, r: Option<PhysFrame>)
    requires
        before.wf(),
        before.alloc_post(after, r),
        r is Some,
    ensures
        (r->0).0 <= MAX_FRAME,
{
    let f = r->0;
    let k = before.last_free_recycled(before.recycle_list().len() as int);
    if k >= 0 {
        lemma_last_free_recycled_is_free(before, before.recycle_list().len() as int);
        assert(before.recycle_list()[k].0 <= MAX_FRAME);
    } else {
        let ri = choose|ri: int| before.cursor_hit(ri, f.0 as int) && after.scan_cursor() == (ri, f.0 + PAGE_SIZE);
        assert(before.memory()[ri].spec_end() <= MAX_ALIGNED);
    }
}

/// `alloc_frame` hands out the next frame, and hands out a frame whenever
/// there is a next one.
pub proof fn lemma_alloc_gives_next(before: Allocator, after: Allocator, r: Option<PhysFrame>)
    requires
        before.wf(),
        before.alloc_post(after, r),
    ensures
        r matches Some(g) ==> before.next_frame(g.0),
        (exists|f: u64| before.next_frame(f)) ==> r is Some,
{
    let k = before.last_free_recycled(before.recycle_list().len() as int);
    if k < 0 && r is None && exists|f: u64| before.next_frame(f) {
        let f = choose|f: u64| before.next_frame(f);
        let ri = choose|ri: int| before.cursor_hit(ri, f as int);
        assert(before.no_candidate(ri, before.scan_lower(ri), u64::MAX as int, u64::MAX as int));
        assert(before.candidate(ri, f as int, before.scan_lower(ri), u64::MAX as int, u64::MAX as int));
    }
}

/// There is at most one next frame.
pub proof fn lemma_next_frame_unique(a: Allocator, f: u64, g: u64)
    requires
        a.next_frame(f),
        a.next_frame(g),
    ensures
        f == g,
{
    let k = a.last_free_recycled(a.recycle_list().len() as int);
    if k < 0 {
        let r1 = choose|ri: int| a.cursor_hit(ri, f as int);
        let r2 = choose|ri: int| a.cursor_hit(ri, g as int);
        if r1 < r2 {
            assert(a.no_candidate(r1, a.scan_lower(r1), u64::MAX as int, u64::MAX as int));
            assert(a.candidate(r1, f as int, a.scan_lower(r1), u64::MAX as int, u64::MAX as int));
        } else if r2 < r1 {
            assert(a.no_candidate(r2, a.scan_lower(r2), u64::MAX as int, u64::MAX as int));
            assert(a.candidate(r2, g as int, a.scan_lower(r2), u64::MAX as int, u64::MAX as int));
        } else if f < g {
            assert(a.candidate(r1, f as int, a.scan_lower(r1), u64::MAX as int, u64::MAX as int));
        } else if g < f {
            assert(a.candidate(r1, g as int, a.scan_lower(r1), u64::MAX as int, u64::MAX as int));
        }
    }
}

/// The recycled frame that `last_free_recycled_in` picks is free.
pub proof fn lemma_last_free_recycled_in_free(a: Allocator, n: int, minimum: int, maximum: int)
    requires
        a.last_free_recycled_in(n, minimum, maximum) >= 0,
    ensures
        a.frame_free(a.recycle_list()[a.last_free_recycled_in(n, minimum, maximum)].0 as int),
    decreases n,
{
    if n > 0 && !(minimum <= a.recycle_list()[n - 1].0 < maximum && a.frame_free(a.recycle_list()[n - 1].0 as int)) {
        lemma_last_free_recycled_in_free(a, n - 1, minimum, maximum);
    }
}

/// Two allocators with the same recycle list and reservations pick the
/// same recycled frame.
pub proof fn lemma_last_free_recycled_in_same(a: Allocator, b: Allocator, n: int, minimum: int, maximum: int)
    requires
        a.recycle_list() == b.recycle_list(),
        a.reservations() == b.reservations(),
        a.permanent_ranges() == b.permanent_ranges(),
    ensures
        a.last_free_recycled_in(n, minimum, maximum) == b.last_free_recycled_in(n, minimum, maximum),
    decreases n,
{
    if n > 0 {
        lemma_last_free_recycled_in_same(a, b, n - 1, minimum, maximum);
    }
}

/// `b` keeps every reservation of `a`, and the same cursor and recycle list.
#[verifier::opaque]
pub open spec fn reserves_more(a: Allocator, b: Allocator) -> bool {
    &&& forall|s: int, e: int| #[trigger] a.spec_is_reserved(s, e) ==> b.spec_is_reserved(s, e)
    &&& a.reservations().len() <= b.reservations().len()
    &&& b.low_cursor() == a.low_cursor()
    &&& b.recycle_list() == a.recycle_list()
}

/// Lists that extend others keep every reservation those make.
pub proof fn lemma_extended_reserved(
    res: Seq<(PhysicalMemoryRegion, ReservationKind)>,
    perm: Seq<PhysicalMemoryRegion>,
    res2: Seq<(PhysicalMemoryRegion, ReservationKind)>,
    perm2: Seq<PhysicalMemoryRegion>,
    start: int,
    end: int,
)
    requires
        res.len() <= res2.len(),
        res2.subrange(0, res.len() as int) == res,
        perm.len() <= perm2.len(),
        perm2.subrange(0, perm.len() as int) == perm,
        reserved_in(res, perm, start, end),
    ensures
        reserved_in(res2, perm2, start, end),
{
    let v1 = res.map_values(|r: (PhysicalMemoryRegion, ReservationKind)| r.0);
    let v2 = res2.map_values(|r: (PhysicalMemoryRegion, ReservationKind)| r.0);
    if any_overlap(perm, start, end) {
        let i = choose|i: int| 0 <= i < perm.len() && overlaps(#[trigger] perm[i], start, end);
        assert(perm2[i] == perm2.subrange(0, perm.len() as int)[i]);
    } else {
        let i = choose|i: int| 0 <= i < v1.len() && overlaps(#[trigger] v1[i], start, end);
        assert(res2[i] == res2.subrange(0, res.len() as int)[i]);
        assert(v2[i] == v1[i]);
    }
}

/// Recording an allocation keeps every reservation, and with room in the
/// list reserves the recorded frame.
pub proof fn lemma_recorded_reserved(
    res: Seq<(PhysicalMemoryRegion, ReservationKind)>,
    perm: Seq<PhysicalMemoryRegion>,
    f: u64,
    start: int,
    end: int,
)
    ensures
        reserved_in(res, perm, start, end) ==> reserved_in(recorded(res, f), perm, start, end),
        res.len() < MAX_RESERVED && f + PAGE_SIZE <= u64::MAX ==> reserved_in(recorded(res, f), perm, f as int, f + PAGE_SIZE),
{
    let r2 = recorded(res, f);
    let v1 = res.map_values(|r: (PhysicalMemoryRegion, ReservationKind)| r.0);
    let v2 = r2.map_values(|r: (PhysicalMemoryRegion, ReservationKind)| r.0);
    if any_overlap(v1, start, end) {
        let i = choose|i: int| 0 <= i < v1.len() && overlaps(#[trigger] v1[i], start, end);
        assert(v2[i] == v1[i]);
    }
    if res.len() < MAX_RESERVED && f + PAGE_SIZE <= u64::MAX {
        let i = res.len() as int;
        assert(v2[i] == frame_record(f).0);
        assert(overlaps(v2[i], f as int, f + PAGE_SIZE));
    }
}

/// An allocator whose lists extend those of another keeps its reservations.
proof fn lemma_reserves_more_ext(a: Allocator, b: Allocator)
    requires
        a.reservations().len() <= b.reservations().len(),
        b.reservations().subrange(0, a.reservations().len() as int) == a.reservations(),
        a.permanent_ranges().len() <= b.permanent_ranges().len(),
        b.permanent_ranges().subrange(0, a.permanent_ranges().len() as int) == a.permanent_ranges(),
        b.low_cursor() == a.low_cursor(),
        b.recycle_list() == a.recycle_list(),
    ensures
        reserves_more(a, b),
{
    reveal(reserves_more);
    assert forall|s: int, e: int| #[trigger] a.spec_is_reserved(s, e) implies b.spec_is_reserved(s, e) by {
        lemma_extended_reserved(a.reservations(), a.permanent_ranges(), b.reservations(), b.permanent_ranges(), s, e);
    }
}

/// Two allocations in a row, the first with room in the reservation list,
/// hand out different frames.
pub proof fn law_consecutive_allocations_distinct(
    s0: Allocator,
    s1: Allocator,
    s2: Allocator,
    r1: Option<PhysFrame>,
    r2: Option<PhysFrame>,
)
    requires
        s0.wf(),
        s1.wf(),
        s0.alloc_post(s1, r1),
        s1.alloc_post(s2, r2),
        r1 is Some,
        r2 is Some,
        s0.reservations().len() < MAX_RESERVED,
    ensures
        r1 != r2,
{
    law_allocated_frame_is_fresh(s0, s1, r1);
    law_allocated_frame_is_fresh(s1, s2, r2);
}

/// The index of a last allocation record lies among the first `n` entries.
pub proof fn lemma_last_allocation_bounds(s: Seq<(PhysicalMemoryRegion, ReservationKind)>, f: int, n: int)
    ensures
        -1 <= last_allocation_of(s, f, n) < (if n > 0 { n } else { 0 }),
    decreases n,
{
    if n > 0 {
        lemma_last_allocation_bounds(s, f, n - 1);
    }
}

/// The recycled frame that `last_free_recycled` picks is among the first `n`.
pub proof fn lemma_last_free_recycled_bounds(a: Allocator, n: int)
    ensures
        a.last_free_recycled(n) >= 0 ==> a.last_free_recycled(n) < n,
        a.last_free_recycled(n) >= -1,
    decreases n,
{
    if n > 0 {
        lemma_last_free_recycled_bounds(a, n - 1);
    }
}

/// The entry that `last_allocation_of` finds is an allocation record of `f`.
pub proof fn lemma_last_allocation_is_record(s: Seq<(PhysicalMemoryRegion, ReservationKind)>, f: int, n: int)
    ensures
        last_allocation_of(s, f, n) >= 0 ==> allocation_of(s[last_allocation_of(s, f, n)], f),
    decreases n,
{
    if n > 0 && !allocation_of(s[n - 1], f) {
        lemma_last_allocation_is_record(s, f, n - 1);
    }
}

/// Releasing the allocation record of the page at `f` reserves nothing new,
/// and frees no page but that one.
pub proof fn lemma_released_reserved(
    res: Seq<(PhysicalMemoryRegion, ReservationKind)>,
    perm: Seq<PhysicalMemoryRegion>,
    f: int,
    a: int,
)
    requires
        f % (PAGE_SIZE as int) == 0,
        a % (PAGE_SIZE as int) == 0,
    ensures
        released(res, f).len() + 1 >= res.len(),
        released(res, f).len() <= res.len(),
        reserved_in(released(res, f), perm, a, a + PAGE_SIZE) ==> reserved_in(res, perm, a, a + PAGE_SIZE),
        a != f && reserved_in(res, perm, a, a + PAGE_SIZE) ==> reserved_in(released(res, f), perm, a, a + PAGE_SIZE),
{
    let n = res.len() as int;
    let j = last_allocation_of(res, f, n);
    lemma_last_allocation_bounds(res, f, n);
    lemma_last_allocation_is_record(res, f, n);
    let rel = released(res, f);
    let v = res.map_values(|r: (PhysicalMemoryRegion, ReservationKind)| r.0);
    let w = rel.map_values(|r: (PhysicalMemoryRegion, ReservationKind)| r.0);
    if reserved_in(rel, perm, a, a + PAGE_SIZE) && !any_overlap(perm, a, a + PAGE_SIZE) {
        let k = choose|k: int| 0 <= k < w.len() && overlaps(#[trigger] w[k], a, a + PAGE_SIZE);
        if j >= 0 && k == j {
            assert(w[k] == v[n - 1]);
            assert(overlaps(v[n - 1], a, a + PAGE_SIZE));
        } else {
            assert(w[k] == v[k]);
        }
    }
    if a != f && reserved_in(res, perm, a, a + PAGE_SIZE) && !any_overlap(perm, a, a + PAGE_SIZE) {
        let i = choose|i: int| 0 <= i < v.len() && overlaps(#[trigger] v[i], a, a + PAGE_SIZE);
        if j >= 0 && i == j {
            assert(v[i].start == f && v[i].spec_end() == f + PAGE_SIZE);
            assert(false) by (nonlinear_arith)
                requires
                    f % 4096 == 0,
                    a % 4096 == 0,
                    a != f,
                    a < f + 4096,
                    a + 4096 > f,
            ;
        } else if j >= 0 && i == n - 1 {
            assert(w[j] == v[i]);
            assert(overlaps(w[j], a, a + PAGE_SIZE));
        } else {
            assert(w[i] == v[i]);
            assert(overlaps(w[i], a, a + PAGE_SIZE));
        }
    }
}

/// A recycled frame among the first `n` that lies in the range and is free
/// makes `last_free_recycled_in` find one.
pub proof fn lemma_last_free_recycled_in_found(a: Allocator, n: int, minimum: int, maximum: int, i: int)
    requires
        0 <= i < n,
        minimum <= a.recycle_list()[i].0 < maximum,
        a.frame_free(a.recycle_list()[i].0 as int),
    ensures
        a.last_free_recycled_in(n, minimum, maximum) >= 0,
    decreases n,
{
    if i < n - 1 && !(minimum <= a.recycle_list()[n - 1].0 < maximum && a.frame_free(a.recycle_list()[n - 1].0 as int)) {
        lemma_last_free_recycled_in_found(a, n - 1, minimum, maximum, i);
    }
}

/// Freeing a frame whose own (last) allocation record is the only
/// reservation over it, outside the permanent ranges and with room in the
/// recycle list, makes it the next frame handed out (when the reservation
/// list has room).
pub proof fn law_freed_frame_is_reused(
    s0: Allocator,
    s1: Allocator,
    s2: Allocator,
    frame: PhysFrame,
    r: Option<PhysFrame>,
)
    requires
        s0.wf(),
        s1.wf(),
        frame.0 <= MAX_FRAME,
        s0.free_post(s1, frame),
        s1.alloc_post(s2, r),
        !any_overlap(s0.permanent_ranges(), frame.0 as int, frame.0 + PAGE_SIZE),
        forall|i: int|
            0 <= i < s0.reservations().len() && overlaps(#[trigger] s0.reservations()[i].0, frame.0 as int, frame.0
                + PAGE_SIZE) ==> i == last_allocation_of(
                s0.reservations(),
                frame.0 as int,
                s0.reservations().len() as int,
            ),
        s0.recycle_list().len() < MAX_RECYCLED,
        !s0.recycle_list().contains(frame),
        s1.reservations().len() < MAX_RESERVED,
    ensures
        s1.frame_free(frame.0 as int),
        r == Some(frame),
{
    let f = frame.0 as int;
    let res0 = s0.reservations();
    let n = res0.len() as int;
    let j = last_allocation_of(res0, f, n);
    let res1 = s1.reservations();
    lemma_last_allocation_bounds(res0, f, n);
    let regions1 = res1.map_values(|r: (PhysicalMemoryRegion, ReservationKind)| r.0);
    assert forall|k: int| 0 <= k < regions1.len() implies !overlaps(#[trigger] regions1[k], f, f + PAGE_SIZE) by {
        if j < 0 {
            assert(res1[k] == res0[k]);
        } else if k == j {
            assert(res1[k] == res0[n - 1]);
            assert(overlaps(res0[n - 1].0, f, f + PAGE_SIZE) ==> n - 1 == j);
        } else {
            assert(res1[k] == res0[k]);
        }
    }
    assert(s1.frame_free(f));
    let m = s1.recycle_list().len() as int;
    assert(s1.recycle_list()[m - 1] == frame);
    assert(s1.last_free_recycled(m) == m - 1);
}

} // verus!
