//! Mapping policy: how physical ranges are split into page-table leaves.
//!
//! Nothing here touches page tables; the planner describes what the hardware
//! mapper is expected to install.
use vstd::prelude::*;
use crate::boot::boot_info::{PhysicalMemoryKind, PhysicalMemoryMap, PhysicalMemoryRegion, sat_add};

verus! {

pub const PAGE_SIZE: u64 = 0x1000;
pub const TWO_MIB: u64 = 0x20_0000;
pub const GIGABYTE: u64 = 0x4000_0000;
/// First physical address that four-level paging cannot reach (`1 << 47`).
pub const FOUR_LEVEL_LIMIT: u64 = 0x8000_0000_0000;
pub const KERNEL_VIRT_BASE: u64 = 0xffff_8000_0000_0000;
pub const MAX_CHUNKS: usize = 4096;

#[derive(Debug, Clone, Copy, PartialEq, Eq, Structural)]
pub enum MappingError {
    EmptyRange,
    NonCanonicalRange,
    TooManyChunks,
}

#[derive(Debug, Clone, Copy, PartialEq, Eq, Structural)]
pub enum PageSize {
    OneGiB,
    TwoMiB,
    FourKiB,
}

#[derive(Debug, Clone, Copy, PartialEq, Eq, Structural)]
pub struct MappingChunk {
    pub physical_start: u64,
    pub virtual_start: u64,
    pub size: u64,
    pub page_size: PageSize,
}

#[derive(Debug, Clone, PartialEq, Eq)]
pub struct MappingPlan {
    pub chunks: Vec<MappingChunk>,
    pub count: usize,
}

impl MappingPlan {
    pub open spec fn wf(&self) -> bool {
        &&& self.chunks@.len() == self.count
        &&& self.count <= MAX_CHUNKS
    }

    pub open spec fn view(&self) -> Seq<MappingChunk> {
        self.chunks@
    }

    pub fn empty() -> (r: Self)
        ensures
            r.wf(),
            r@ == Seq::<MappingChunk>::empty(),
    {
        MappingPlan { chunks: Vec::new(), count: 0 }
    }

    /// The planned chunks, in order.
    pub fn iter(&self) -> (r: &[MappingChunk])
        requires
            self.wf(),
        ensures
            r@ == self@,
    {
        self.chunks.as_slice()
    }
}

/// Virtual address of `physical` in the kernel's direct map.
pub open spec fn spec_direct_virtual(physical: int) -> int {
    KERNEL_VIRT_BASE + physical
}

pub fn direct_virtual_address(physical: u64) -> (r: Option<u64>)
    ensures
        physical < FOUR_LEVEL_LIMIT ==> r == Some((KERNEL_VIRT_BASE + physical) as u64),
        physical >= FOUR_LEVEL_LIMIT ==> r.is_none(),
{
    if physical < FOUR_LEVEL_LIMIT {
        Some(KERNEL_VIRT_BASE + physical)
    } else {
        None
    }
}

pub fn identity_virtual_address(physical: u64) -> (r: Option<u64>)
    ensures
        physical < FOUR_LEVEL_LIMIT ==> r == Some(physical),
        physical >= FOUR_LEVEL_LIMIT ==> r.is_none(),
{
    if physical < FOUR_LEVEL_LIMIT {
        Some(physical)
    } else {
        None
    }
}

/// Size and page size of the leaf that starts at `physical` when mapping up
/// to `end`: the largest page that is aligned and fits, MMIO always 4 KiB.
pub open spec fn leaf_for(physical: int, end: int, kind: PhysicalMemoryKind, gigabyte_pages: bool) -> (
    u64,
    PageSize,
) {
    let remaining = end - physical;
    if kind != PhysicalMemoryKind::Mmio && gigabyte_pages && physical % (GIGABYTE as int) == 0
        && remaining >= GIGABYTE {
        (GIGABYTE, PageSize::OneGiB)
    } else if kind != PhysicalMemoryKind::Mmio && physical % (TWO_MIB as int) == 0 && remaining
        >= TWO_MIB {
        (TWO_MIB, PageSize::TwoMiB)
    } else {
        (PAGE_SIZE, PageSize::FourKiB)
    }
}

pub open spec fn virtual_for(physical: int, direct: bool) -> int {
    if direct {
        spec_direct_virtual(physical)
    } else {
        physical
    }
}

/// The chunks that cover `[physical, end)`, greedily choosing the largest leaf.
pub open spec fn planned_chunks(
    physical: int,
    end: int,
    direct: bool,
    kind: PhysicalMemoryKind,
    gigabyte_pages: bool,
) -> Seq<MappingChunk>
    decreases end - physical + PAGE_SIZE,
{
    if physical >= end {
        Seq::empty()
    } else {
        let size = leaf_for(physical, end, kind, gigabyte_pages).0;
        let page_size = leaf_for(physical, end, kind, gigabyte_pages).1;
        seq![
            MappingChunk {
                physical_start: physical as u64,
                virtual_start: virtual_for(physical, direct) as u64,
                size,
                page_size,
            },
        ] + planned_chunks(physical + size, end, direct, kind, gigabyte_pages)
    }
}

/// The result `plan_range` gives, with plans written as their chunk sequences.
pub open spec fn range_plan(
    start: u64,
    end: u64,
    direct: bool,
    kind: PhysicalMemoryKind,
    gigabyte_pages: bool,
) -> Result<Seq<MappingChunk>, MappingError> {
    if start >= end {
        Err(MappingError::EmptyRange)
    } else if end > FOUR_LEVEL_LIMIT {
        Err(MappingError::NonCanonicalRange)
    } else {
        let chunks = planned_chunks(start as int, end as int, direct, kind, gigabyte_pages);
        if chunks.len() > MAX_CHUNKS {
            Err(MappingError::TooManyChunks)
        } else {
            Ok(chunks)
        }
    }
}

pub open spec fn plan_view(r: Result<MappingPlan, MappingError>) -> Result<Seq<MappingChunk>, MappingError> {
    match r {
        Ok(plan) => Ok(plan@),
        Err(e) => Err(e),
    }
}

proof fn lemma_planned_chunks_unfold(
    physical: int,
    end: int,
    direct: bool,
    kind: PhysicalMemoryKind,
    gigabyte_pages: bool,
)
    requires
        physical < end,
    ensures
        ({
            let (size, page_size) = leaf_for(physical, end, kind, gigabyte_pages);
            planned_chunks(physical, end, direct, kind, gigabyte_pages) == seq![
                MappingChunk {
                    physical_start: physical as u64,
                    virtual_start: virtual_for(physical, direct) as u64,
                    size,
                    page_size,
                },
            ] + planned_chunks(physical + size, end, direct, kind, gigabyte_pages)
        }),
{
}

/// Splits `[start, end)` into page-table leaves.
pub fn plan_range(
    start: u64,
    end: u64,
    direct: bool,
    kind: PhysicalMemoryKind,
    gigabyte_pages: bool,
) -> (r: Result<MappingPlan, MappingError>)
    ensures
        plan_view(r) == range_plan(start, end, direct, kind, gigabyte_pages),
        r is Ok ==> r->Ok_0.wf(),
{
    if start >= end {
        return Err(MappingError::EmptyRange);
    }
    if end > FOUR_LEVEL_LIMIT {
        return Err(MappingError::NonCanonicalRange);
    }
    let ghost whole = planned_chunks(start as int, end as int, direct, kind, gigabyte_pages);
    let mut plan = MappingPlan::empty();
    let mut physical = start;
    while physical < end
        invariant
            start <= physical,
            physical < end + PAGE_SIZE,
            end <= FOUR_LEVEL_LIMIT,
            plan.wf(),
            whole == planned_chunks(start as int, end as int, direct, kind, gigabyte_pages),
            plan@ + planned_chunks(physical as int, end as int, direct, kind, gigabyte_pages)
                == whole,
        decreases end + PAGE_SIZE - physical,
    {
        let remaining = end - physical;
        let (size, page_size) = if kind != PhysicalMemoryKind::Mmio && gigabyte_pages
            && physical.is_multiple_of(GIGABYTE) && remaining >= GIGABYTE {
            (GIGABYTE, PageSize::OneGiB)
        } else if kind != PhysicalMemoryKind::Mmio && physical.is_multiple_of(TWO_MIB) && remaining
            >= TWO_MIB {
            (TWO_MIB, PageSize::TwoMiB)
        } else {
            (PAGE_SIZE, PageSize::FourKiB)
        };
        proof {
            lemma_planned_chunks_unfold(physical as int, end as int, direct, kind, gigabyte_pages);
            assert((size, page_size) == leaf_for(physical as int, end as int, kind, gigabyte_pages));
        }
        if plan.count == MAX_CHUNKS {
            proof {
                lemma_planned_chunks_len_pos(physical as int, end as int, direct, kind, gigabyte_pages);
                assert(whole.len() > MAX_CHUNKS);
            }
            return Err(MappingError::TooManyChunks);
        }
        let virtual_start = if direct {
            match direct_virtual_address(physical) {
                Some(v) => v,
                None => {
                    return Err(MappingError::NonCanonicalRange);
                },
            }
        } else {
            match identity_virtual_address(physical) {
                Some(v) => v,
                None => {
                    return Err(MappingError::NonCanonicalRange);
                },
            }
        };
        let chunk = MappingChunk { physical_start: physical, virtual_start, size, page_size };
        let ghost old_plan = plan@;
        plan.chunks.push(chunk);
        plan.count = plan.count + 1;
        proof {
            assert(plan@ == old_plan.push(chunk));
            assert(old_plan + planned_chunks(physical as int, end as int, direct, kind, gigabyte_pages)
                =~= plan@ + planned_chunks(physical + size, end as int, direct, kind, gigabyte_pages));
        }
        physical = physical + size;
    }
    proof {
        assert(plan@ =~= whole);
    }
    Ok(plan)
}

proof fn lemma_planned_chunks_len_pos(
    physical: int,
    end: int,
    direct: bool,
    kind: PhysicalMemoryKind,
    gigabyte_pages: bool,
)
    requires
        physical < end,
    ensures
        planned_chunks(physical, end, direct, kind, gigabyte_pages).len() > 0,
{
    lemma_planned_chunks_unfold(physical, end, direct, kind, gigabyte_pages);
}


/// Kinds of memory that receive direct-map and identity mappings.
pub open spec fn is_mapped_kind(kind: PhysicalMemoryKind) -> bool {
    kind != PhysicalMemoryKind::Reserved
}

/// What `plan_memory_map` gives after the first `n` regions: the plans of
/// the mapped regions concatenated in order, or the first error met.
pub open spec fn memory_map_plan(
    regions: Seq<PhysicalMemoryRegion>,
    n: int,
    direct: bool,
    gigabyte_pages: bool,
) -> Result<Seq<MappingChunk>, MappingError>
    decreases n,
{
    if n <= 0 {
        Ok(Seq::empty())
    } else {
        match memory_map_plan(regions, n - 1, direct, gigabyte_pages) {
            Err(e) => Err(e),
            Ok(acc) => {
                let region = regions[n - 1];
                if !is_mapped_kind(region.kind) {
                    Ok(acc)
                } else {
                    match range_plan(region.start, region.spec_end(), direct, region.kind, gigabyte_pages) {
                        Err(e) => Err(e),
                        Ok(chunks) => if acc.len() + chunks.len() > MAX_CHUNKS {
                            Err(MappingError::TooManyChunks)
                        } else {
                            Ok(acc + chunks)
                        },
                    }
                }
            },
        }
    }
}

/// Plans the mappings of every mapped region of `map`, in map order.
pub fn plan_memory_map(map: &PhysicalMemoryMap, direct: bool, gigabyte_pages: bool) -> (r: Result<
    MappingPlan,
    MappingError,
>)
    requires
        map.wf(),
    ensures
        plan_view(r) == memory_map_plan(map@, map@.len() as int, direct, gigabyte_pages),
        r is Ok ==> r->Ok_0.wf(),
{
    let mut combined = MappingPlan::empty();
    let mut i: usize = 0;
    while i < map.count
        invariant
            map.wf(),
            i <= map.count,
            combined.wf(),
            memory_map_plan(map@, i as int, direct, gigabyte_pages) == Ok::<
                Seq<MappingChunk>,
                MappingError,
            >(combined@),
        decreases map.count - i,
    {
        let region = map.regions[i];
        if region.kind != PhysicalMemoryKind::Reserved {
            let plan = plan_range(region.start, region.end(), direct, region.kind, gigabyte_pages);
            match plan {
                Err(e) => {
                    proof {
                        lemma_memory_map_plan_err_sticky(map@, i as int + 1, map@.len() as int, direct, gigabyte_pages);
                    }
                    return Err(e);
                },
                Ok(plan) => {
                    let ghost acc = combined@;
                    let mut j: usize = 0;
                    while j < plan.count
                        invariant
                            map.wf(),
                            i < map.count,
                            region == map@[i as int],
                            is_mapped_kind(region.kind),
                            memory_map_plan(map@, i as int, direct, gigabyte_pages) == Ok::<
                                Seq<MappingChunk>,
                                MappingError,
                            >(acc),
                            range_plan(region.start, region.spec_end(), direct, region.kind, gigabyte_pages)
                                == Ok::<Seq<MappingChunk>, MappingError>(plan@),
                            plan.wf(),
                            combined.wf(),
                            j <= plan.count,
                            combined@ == acc + plan@.subrange(0, j as int),
                            acc.len() + j <= MAX_CHUNKS,
                        decreases plan.count - j,
                    {
                        if combined.count == MAX_CHUNKS {
                            proof {
                                assert(memory_map_plan(map@, i as int + 1, direct, gigabyte_pages)
                                    == Err::<Seq<MappingChunk>, MappingError>(MappingError::TooManyChunks));
                                lemma_memory_map_plan_err_sticky(map@, i as int + 1, map@.len() as int, direct, gigabyte_pages);
                            }
                            return Err(MappingError::TooManyChunks);
                        }
                        combined.chunks.push(plan.chunks[j]);
                        combined.count = combined.count + 1;
                        proof {
                            assert(plan@.subrange(0, j as int + 1) =~= plan@.subrange(0, j as int).push(plan@[j as int]));
                        }
                        j = j + 1;
                    }
                    proof {
                        assert(plan@.subrange(0, j as int) =~= plan@);
                    }
                },
            }
        }
        i = i + 1;
    }
    proof {
        assert(map@.len() == map.count);
    }
    Ok(combined)
}

/// Once planning a prefix fails, planning any longer prefix fails the same way.
pub proof fn lemma_memory_map_plan_err_sticky(
    regions: Seq<PhysicalMemoryRegion>,
    n: int,
    m: int,
    direct: bool,
    gigabyte_pages: bool,
)
    requires
        0 < n <= m,
        memory_map_plan(regions, n, direct, gigabyte_pages) is Err,
    ensures
        memory_map_plan(regions, m, direct, gigabyte_pages) == memory_map_plan(
            regions,
            n,
            direct,
            gigabyte_pages,
        ),
    decreases m - n,
{
    if m > n {
        lemma_memory_map_plan_err_sticky(regions, n, m - 1, direct, gigabyte_pages);
    }
}

/// `frame` starts a whole 4 KiB page inside `region`.
pub open spec fn frame_in_region(region: PhysicalMemoryRegion, frame: u64) -> bool {
    &&& frame >= region.start
    &&& sat_add(frame, PAGE_SIZE) <= region.spec_end()
}

/// Whether the whole 4 KiB frame at `frame` lies inside one usable region.
pub fn usable_region_contains(map: &PhysicalMemoryMap, frame: u64) -> (r: bool)
    requires
        map.wf(),
    ensures
        r == exists|i: int|
            0 <= i < map@.len() && (#[trigger] map@[i]).kind == PhysicalMemoryKind::Usable
                && frame_in_region(map@[i], frame),
{
    let mut i: usize = 0;
    while i < map.count
        invariant
            map.wf(),
            i <= map.count,
            forall|k: int|
                0 <= k < i ==> !((#[trigger] map@[k]).kind == PhysicalMemoryKind::Usable
                    && frame_in_region(map@[k], frame)),
        decreases map.count - i,
    {
        let region = map.regions[i];
        if region.kind == PhysicalMemoryKind::Usable && frame >= region.start
            && frame.saturating_add(PAGE_SIZE) <= region.end() {
            proof {
                assert(map@[i as int] == region);
            }
            return true;
        }
        i = i + 1;
    }
    false
}


/// Bytes covered by one leaf of the given page size.
pub open spec fn page_bytes(page_size: PageSize) -> u64 {
    match page_size {
        PageSize::OneGiB => GIGABYTE,
        PageSize::TwoMiB => TWO_MIB,
        PageSize::FourKiB => PAGE_SIZE,
    }
}

/// Every planned chunk is a well-formed leaf of the range: its size matches
/// its page size, it starts inside the range, it is mapped at the direct-map
/// or identity address of its physical start, large leaves are aligned to
/// their size and lie wholly inside the range, MMIO is only mapped with
/// 4 KiB pages, and 1 GiB pages appear only when enabled.
pub proof fn law_planned_chunk_shape(
    physical: int,
    end: int,
    direct: bool,
    kind: PhysicalMemoryKind,
    gigabyte_pages: bool,
    i: int,
)
    requires
        0 <= physical,
        end <= FOUR_LEVEL_LIMIT,
        0 <= i < planned_chunks(physical, end, direct, kind, gigabyte_pages).len(),
    ensures
        ({
            let c = planned_chunks(physical, end, direct, kind, gigabyte_pages)[i];
            &&& c.size == page_bytes(c.page_size)
            &&& physical <= c.physical_start < end
            &&& c.virtual_start == virtual_for(c.physical_start as int, direct)
            &&& c.page_size != PageSize::FourKiB ==> c.physical_start % c.size == 0
                && c.physical_start + c.size <= end
            &&& kind == PhysicalMemoryKind::Mmio ==> c.page_size == PageSize::FourKiB
            &&& !gigabyte_pages ==> c.page_size != PageSize::OneGiB
        }),
    decreases end - physical + PAGE_SIZE,
{
    lemma_planned_chunks_unfold(physical, end, direct, kind, gigabyte_pages);
    let size = leaf_for(physical, end, kind, gigabyte_pages).0;
    if i > 0 {
        law_planned_chunk_shape(physical + size, end, direct, kind, gigabyte_pages, i - 1);
    }
}

/// The planned chunks tile the range without gaps: the first starts at the
/// range start, each next one starts where the previous one ends, and the
/// last one reaches the end of the range.
pub proof fn law_planned_chunks_contiguous(
    physical: int,
    end: int,
    direct: bool,
    kind: PhysicalMemoryKind,
    gigabyte_pages: bool,
)
    requires
        0 <= physical < end <= FOUR_LEVEL_LIMIT,
    ensures
        ({
            let cs = planned_chunks(physical, end, direct, kind, gigabyte_pages);
            &&& cs.len() > 0
            &&& cs[0].physical_start == physical
            &&& forall|i: int|
                0 <= i < cs.len() - 1 ==> #[trigger] cs[i + 1].physical_start == cs[i].physical_start
                    + cs[i].size
            &&& cs.last().physical_start + cs.last().size >= end
        }),
    decreases end - physical + PAGE_SIZE,
{
    lemma_planned_chunks_unfold(physical, end, direct, kind, gigabyte_pages);
    let size = leaf_for(physical, end, kind, gigabyte_pages).0;
    let cs = planned_chunks(physical, end, direct, kind, gigabyte_pages);
    let rest = planned_chunks(physical + size, end, direct, kind, gigabyte_pages);
    if physical + size < end {
        law_planned_chunks_contiguous(physical + size, end, direct, kind, gigabyte_pages);
        assert forall|i: int| 0 <= i < cs.len() - 1 implies #[trigger] cs[i + 1].physical_start
            == cs[i].physical_start + cs[i].size by {
            if i > 0 {
                assert(cs[i] == rest[i - 1]);
                assert(cs[i + 1] == rest[i]);
                let j = i - 1;
                assert(rest[j + 1].physical_start == rest[j].physical_start + rest[j].size);
            } else {
                assert(cs[1] == rest[0]);
                assert(cs[0].physical_start == physical);
                assert(cs[0].size == size);
            }
        }
    } else {
        assert(rest.len() == 0);
    }
}

} // verus!
