//! Boot information shared by the BIOS and UEFI entry paths.
use vstd::prelude::*;

verus! {

/// Maximum number of regions a physical memory map records.
pub const MAX_MEMORY_REGIONS: usize = 64;

#[derive(Debug, Clone, Copy, PartialEq, Eq, Structural)]
pub enum PixelFormat {
    Rgb,
    Bgr,
    Unknown,
}

#[derive(Debug, Clone, Copy)]
pub struct FramebufferInfo {
    pub base_addr: u64,
    pub size: usize,
    pub width: usize,
    pub height: usize,
    pub stride: usize,
    pub pixel_format: PixelFormat,
}

#[derive(Debug, Clone, Copy)]
pub enum DisplayMode {
    VgaText { buffer_addr: usize },
    GopFramebuffer(FramebufferInfo),
}

/// What firmware reported a physical range to be.
#[derive(Debug, Clone, Copy, PartialEq, Eq, Structural)]
pub enum PhysicalMemoryKind {
    Usable,
    Reserved,
    AcpiReclaimable,
    AcpiNvs,
    Runtime,
    Mmio,
}

#[derive(Debug, Clone, Copy, PartialEq, Eq, Structural)]
pub struct PhysicalMemoryRegion {
    pub start: u64,
    pub length: u64,
    pub kind: PhysicalMemoryKind,
}

/// `a + b`, clamped at `u64::MAX`.
pub open spec fn sat_add(a: u64, b: u64) -> u64 {
    if a + b > u64::MAX {
        u64::MAX
    } else {
        (a + b) as u64
    }
}

impl PhysicalMemoryRegion {
    pub open spec fn spec_end(self) -> u64 {
        sat_add(self.start, self.length)
    }

    /// One past the last byte of the region, saturating at `u64::MAX`.
    #[verifier::when_used_as_spec(spec_end)]
    pub fn end(self) -> (r: u64)
        ensures
            r == self.spec_end(),
    {
        self.start.saturating_add(self.length)
    }
}

/// A bounded list of physical memory regions, in the order they were reported.
#[derive(Debug, Clone)]
pub struct PhysicalMemoryMap {
    pub regions: Vec<PhysicalMemoryRegion>,
    pub count: usize,
}

impl PhysicalMemoryMap {
    /// The map is well formed when `count` is the number of stored regions
    /// and the capacity bound holds.
    pub open spec fn wf(&self) -> bool {
        &&& self.regions@.len() == self.count
        &&& self.count <= MAX_MEMORY_REGIONS
    }

    pub open spec fn view(&self) -> Seq<PhysicalMemoryRegion> {
        self.regions@
    }

    pub fn empty() -> (r: Self)
        ensures
            r.wf(),
            r@ == Seq::<PhysicalMemoryRegion>::empty(),
    {
        PhysicalMemoryMap { regions: Vec::new(), count: 0 }
    }

    /// A copy of the map.
    pub fn copied(&self) -> (r: Self)
        requires
            self.wf(),
        ensures
            r.wf(),
            r@ == self@,
    {
        let mut regions: Vec<PhysicalMemoryRegion> = Vec::new();
        let mut i: usize = 0;
        while i < self.count
            invariant
                self.wf(),
                i <= self.count,
                regions@ == self@.subrange(0, i as int),
            decreases self.count - i,
        {
            regions.push(self.regions[i]);
            proof {
                assert(regions@ =~= self@.subrange(0, i as int + 1));
            }
            i = i + 1;
        }
        proof {
            assert(regions@ =~= self@);
        }
        PhysicalMemoryMap { regions, count: self.count }
    }

    /// Appends a region; empty regions and regions past the capacity are dropped.
    pub fn push(&mut self, region: PhysicalMemoryRegion)
        requires
            old(self).wf(),
        ensures
            final(self).wf(),
            (region.length != 0 && old(self).count < MAX_MEMORY_REGIONS) ==> final(self)@ == old(
                self,
            )@.push(region),
            !(region.length != 0 && old(self).count < MAX_MEMORY_REGIONS) ==> final(self)@ == old(
                self,
            )@,
    {
        if region.length != 0 && self.count < MAX_MEMORY_REGIONS {
            self.regions.push(region);
            self.count = self.count + 1;
        }
    }
}

#[derive(Debug, Clone, Copy, PartialEq, Eq, Structural)]
pub enum BootMode {
    Bios,
    Uefi,
}

#[derive(Debug, Clone)]
pub struct BootInfo {
    pub display: DisplayMode,
    pub boot_mode: BootMode,
    pub memory_map: PhysicalMemoryMap,
    pub kernel_physical_start: u64,
    pub kernel_physical_end: u64,
    pub rsdp_addr: Option<u64>,
    pub memory_map_descriptor_count: usize,
    pub memory_map_discarded: usize,
}

/// Sum of the lengths of the given regions.
pub open spec fn total_length(regions: Seq<PhysicalMemoryRegion>) -> nat
    decreases regions.len(),
{
    if regions.len() == 0 {
        0
    } else {
        total_length(regions.drop_last()) + regions.last().length as nat
    }
}

pub const BYTES_PER_MIB: u64 = 0x10_0000;

impl BootInfo {
    /// Boot information for a legacy BIOS boot before the memory map is known.
    pub fn default_bios() -> (r: Self)
        ensures
            r.display == (DisplayMode::VgaText { buffer_addr: 0xb8000 }),
            r.boot_mode == BootMode::Bios,
            r.memory_map.wf(),
            r.memory_map@.len() == 0,
            r.kernel_physical_start == 0,
            r.kernel_physical_end == 0,
            r.rsdp_addr.is_none(),
            r.memory_map_descriptor_count == 0,
            r.memory_map_discarded == 0,
    {
        BootInfo {
            display: DisplayMode::VgaText { buffer_addr: 0xb8000 },
            boot_mode: BootMode::Bios,
            memory_map: PhysicalMemoryMap::empty(),
            kernel_physical_start: 0,
            kernel_physical_end: 0,
            rsdp_addr: None,
            memory_map_descriptor_count: 0,
            memory_map_discarded: 0,
        }
    }

    /// Total reported memory, in whole MiB (rounded down).
    pub fn total_memory_mb(&self) -> (r: u64)
        requires
            self.memory_map.wf(),
            total_length(self.memory_map@) <= u64::MAX,
        ensures
            r == total_length(self.memory_map@) / (BYTES_PER_MIB as nat),
    {
        let mut sum: u64 = 0;
        let mut i: usize = 0;
        while i < self.memory_map.count
            invariant
                self.memory_map.wf(),
                total_length(self.memory_map@) <= u64::MAX,
                i <= self.memory_map.count,
                sum == total_length(self.memory_map@.subrange(0, i as int)),
            decreases self.memory_map.count - i,
        {
            proof {
                lemma_total_length_prefix_monotone(self.memory_map@, i as int + 1);
                assert(self.memory_map@.subrange(0, i as int + 1).drop_last()
                    =~= self.memory_map@.subrange(0, i as int));
            }
            sum = sum + self.memory_map.regions[i].length;
            i = i + 1;
        }
        proof {
            assert(self.memory_map@.subrange(0, i as int) =~= self.memory_map@);
        }
        sum / BYTES_PER_MIB
    }
}

/// A prefix never totals more than the whole sequence.
pub proof fn lemma_total_length_prefix_monotone(regions: Seq<PhysicalMemoryRegion>, n: int)
    requires
        0 <= n <= regions.len(),
    ensures
        total_length(regions.subrange(0, n)) <= total_length(regions),
    decreases regions.len() - n,
{
    if n < regions.len() {
        lemma_total_length_prefix_monotone(regions, n + 1);
        assert(regions.subrange(0, n + 1).drop_last() =~= regions.subrange(0, n));
    } else {
        assert(regions.subrange(0, n) =~= regions);
    }
}

} // verus!
