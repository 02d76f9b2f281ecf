//! Multiboot 1 boot information and its memory map.
use vstd::prelude::*;
use crate::bytes::{le_at, lemma_le_at_bound, pow256_nat, read_le};
use crate::boot::boot_info::{PhysicalMemoryKind, PhysicalMemoryMap, PhysicalMemoryRegion, MAX_MEMORY_REGIONS};

verus! {

pub const MULTIBOOT_MEMORY_AVAILABLE: u32 = 1;
pub const MULTIBOOT_MEMORY_RESERVED: u32 = 2;
/// Bytes of one memory-map entry after its `size` field is read.
pub const MMAP_ENTRY_BYTES: u32 = 24;

/// The Multiboot 1 information block handed over by the boot loader.
#[derive(Debug, Clone, Copy)]
pub struct MultibootInfo {
    pub flags: u32,
    pub mem_lower: u32,
    pub mem_upper: u32,
    pub boot_device: u32,
    pub cmdline: u32,
    pub mods_count: u32,
    pub mods_addr: u32,
    pub syms: [u32; 4],
    pub mmap_length: u32,
    pub mmap_addr: u32,
}

/// One Multiboot memory-map entry.
#[derive(Debug, Clone, Copy)]
pub struct MultibootMmapEntry {
    pub size: u32,
    pub base_addr: u64,
    pub length: u64,
    pub memory_type: u32,
}

/// The entry stored at `at`.
pub open spec fn entry_at(bytes: Seq<u8>, at: int) -> MultibootMmapEntry {
    MultibootMmapEntry {
        size: le_at(bytes, at, 4) as u32,
        base_addr: le_at(bytes, at + 4, 8) as u64,
        length: le_at(bytes, at + 12, 8) as u64,
        memory_type: le_at(bytes, at + 20, 4) as u32,
    }
}

pub open spec fn sat_add_u32(a: u32, b: u32) -> u32 {
    if a + b > u32::MAX {
        u32::MAX
    } else {
        (a + b) as u32
    }
}

/// Offset of the `k`-th entry walked from offset 0 (entries advance by
/// `size + 4`, saturating), as long as the walk continues.
pub open spec fn walk_offset(bytes: Seq<u8>, k: nat) -> u32
    decreases k,
{
    if k == 0 {
        0
    } else {
        let prev = walk_offset(bytes, (k - 1) as nat);
        sat_add_u32(prev, sat_add_u32(entry_at(bytes, prev as int).size, 4))
    }
}

/// Each of the first `n` steps of the walk starts below `len` and moves forward.
pub open spec fn walk_advances(bytes: Seq<u8>, len: u32, n: nat) -> bool
    decreases n,
{
    n == 0 || (walk_advances(bytes, len, (n - 1) as nat) && walk_offset(bytes, (n - 1) as nat) < len
        && walk_offset(bytes, n) > walk_offset(bytes, (n - 1) as nat))
}

/// Usable regions reported by the entries at the given offsets, in order,
/// as `PhysicalMemoryMap::push` keeps them.
pub open spec fn available_regions(bytes: Seq<u8>, offsets: Seq<u32>) -> Seq<PhysicalMemoryRegion>
    decreases offsets.len(),
{
    if offsets.len() == 0 {
        Seq::empty()
    } else {
        let rest = available_regions(bytes, offsets.drop_last());
        let e = entry_at(bytes, offsets.last() as int);
        if e.memory_type == MULTIBOOT_MEMORY_AVAILABLE && e.length != 0 && rest.len() < MAX_MEMORY_REGIONS {
            rest.push(PhysicalMemoryRegion { start: e.base_addr, length: e.length, kind: PhysicalMemoryKind::Usable })
        } else {
            rest
        }
    }
}

impl MultibootInfo {
    pub open spec fn spec_has_mem_info(&self) -> bool {
        self.flags & 1 != 0
    }

    pub open spec fn spec_has_mmap_info(&self) -> bool {
        self.flags & 0x40 != 0
    }

    /// Bit 0: `mem_lower` and `mem_upper` are valid.
    pub fn has_mem_info(&self) -> (r: bool)
        ensures
            r == self.spec_has_mem_info(),
    {
        (self.flags & 1) != 0
    }

    /// Bit 6: `mmap_addr` and `mmap_length` are valid.
    pub fn has_mmap_info(&self) -> (r: bool)
        ensures
            r == self.spec_has_mmap_info(),
    {
        (self.flags & 0x40) != 0
    }

    /// Total detected RAM in MiB, rounded up (0 without memory information).
    pub fn total_memory_mb(&self) -> (r: u64)
        ensures
            r == (if self.spec_has_mem_info() {
                (self.mem_lower + self.mem_upper + 1023) / 1024
            } else {
                0
            }),
    {
        if self.has_mem_info() {
            (self.mem_lower as u64 + self.mem_upper as u64 + 1023) / 1024
        } else {
            0
        }
    }

    /// The usable regions of the memory map whose raw bytes are `mmap`
    /// (the bytes at `mmap_addr`, including the last entry in full).
    pub fn usable_memory_map(&self, mmap: &[u8]) -> (r: PhysicalMemoryMap)
        requires
            mmap@.len() >= self.mmap_length as int + MMAP_ENTRY_BYTES as int,
        ensures
            r.wf(),
            !self.spec_has_mmap_info() ==> r@.len() == 0,
            self.spec_has_mmap_info() ==> exists|n: nat|
                #![trigger walk_offset(mmap@, n)]
                walk_offset(mmap@, n) >= self.mmap_length && walk_advances(mmap@, self.mmap_length, n) && r@ == available_regions(
                    mmap@,
                    Seq::new(n, |k: int| walk_offset(mmap@, k as nat)),
                ),
    {
        let mut map = PhysicalMemoryMap::empty();
        if !self.has_mmap_info() {
            return map;
        }
        let total: usize = mmap.len();
        let mut offset: u32 = 0;
        let ghost mut n: nat = 0;
        while offset < self.mmap_length
            invariant
                total == mmap@.len(),
                mmap@.len() >= self.mmap_length as int + MMAP_ENTRY_BYTES as int,
                map.wf(),
                offset == walk_offset(mmap@, n),
                walk_advances(mmap@, self.mmap_length, n),
                map@ == available_regions(mmap@, Seq::new(n, |k: int| walk_offset(mmap@, k as nat))),
            ensures
                offset >= self.mmap_length,
                offset == walk_offset(mmap@, n),
                walk_advances(mmap@, self.mmap_length, n),
                map.wf(),
                map@ == available_regions(mmap@, Seq::new(n, |k: int| walk_offset(mmap@, k as nat))),
            decreases u32::MAX - offset,
        {
            let at = offset as usize;
            proof {
                lemma_le_at_bound(mmap@, at as int, 4);
                lemma_le_at_bound(mmap@, at as int + 20, 4);
                reveal_with_fuel(pow256_nat, 5);
                assert(pow256_nat(4) == 0x1_0000_0000);
            }
            let size = read_le(mmap, at, 4) as u32;
            let base_addr = read_le(mmap, at + 4, 8);
            let length = read_le(mmap, at + 12, 8);
            let memory_type = read_le(mmap, at + 20, 4) as u32;
            let ghost offsets = Seq::new(n, |k: int| walk_offset(mmap@, k as nat));
            let ghost offsets2 = Seq::new(n + 1, |k: int| walk_offset(mmap@, k as nat));
            proof {
                assert(offsets2.drop_last() =~= offsets);
                assert(offsets2.last() == offset);
            }
            if memory_type == MULTIBOOT_MEMORY_AVAILABLE {
                map.push(PhysicalMemoryRegion { start: base_addr, length, kind: PhysicalMemoryKind::Usable });
            }
            let step = size.saturating_add(4);
            assert(step >= 4);
            let ghost prev = offset;
            let ghost old_n = n;
            proof {
                n = n + 1;
                assert(walk_offset(mmap@, n) == offset.saturating_add(step));
            }
            if step == 0 {
                break;
            }
            offset = offset.saturating_add(step);
            proof {
                assert(prev < self.mmap_length);
                assert(offset > prev);
                assert(walk_offset(mmap@, (n - 1) as nat) == prev);
                assert(walk_advances(mmap@, self.mmap_length, n));
            }
        }
        proof {
            assert(offset >= self.mmap_length);
            assert(walk_offset(mmap@, n) >= self.mmap_length);
        }
        map
    }
}

} // verus!
