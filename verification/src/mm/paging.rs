//! Address conversion helpers and page-table entry encodings.
use vstd::prelude::*;
use crate::boot::boot_info::PhysicalMemoryKind;
use crate::mm::frame::{PhysAddr, VirtAddr};

verus! {

pub const KERNEL_VIRT_BASE: u64 = 0xffff_8000_0000_0000;
pub const PRESENT: u64 = 0x1;
pub const WRITABLE: u64 = 0x2;
pub const USER: u64 = 0x4;
pub const HUGE: u64 = 0x80;
pub const NO_EXECUTE: u64 = 0x8000_0000_0000_0000;
pub const ADDRESS_MASK: u64 = 0x000f_ffff_ffff_f000;
/// PML4 slots 256..511 cover the canonical upper half: 128 TiB.
pub const DIRECT_MAP_LIMIT: u64 = 0x8000_0000_0000;
pub const IDENTITY_MAP_LIMIT: u64 = 0x8000_0000_0000;

/// Hardware flags of a page-table leaf.
#[derive(Debug, Clone, Copy, PartialEq, Eq, Structural)]
pub struct PageFlags(pub u64);

impl PageFlags {
    /// Present, executable, read-only.
    pub fn kernel_text() -> (r: Self)
        ensures
            r.0 == PRESENT,
    {
        PageFlags(PRESENT)
    }

    /// Present, read-only, not executable.
    pub fn read_only() -> (r: Self)
        ensures
            r.0 == PRESENT | NO_EXECUTE,
    {
        PageFlags(PRESENT | NO_EXECUTE)
    }

    /// Present, writable, not executable.
    pub fn writable() -> (r: Self)
        ensures
            r.0 == PRESENT | WRITABLE | NO_EXECUTE,
    {
        PageFlags(PRESENT | WRITABLE | NO_EXECUTE)
    }

    /// Device memory: present, writable, not executable.
    pub fn mmio() -> (r: Self)
        ensures
            r.0 == PRESENT | WRITABLE | NO_EXECUTE,
    {
        PageFlags(PRESENT | WRITABLE | NO_EXECUTE)
    }
}

/// Permissions a process may ask for on a user page.
#[derive(Debug, Clone, Copy, PartialEq, Eq, Structural)]
pub struct UserPageFlags(pub u8);

pub const USER_READ: u8 = 0x1;
pub const USER_WRITE: u8 = 0x2;
pub const USER_EXECUTE: u8 = 0x4;
pub const USER_NO_EXECUTE: u8 = 0x8;

impl UserPageFlags {
    pub fn user_read() -> (r: Self)
        ensures
            r.0 == USER_READ,
    {
        UserPageFlags(USER_READ)
    }

    pub fn user_write() -> (r: Self)
        ensures
            r.0 == USER_WRITE,
    {
        UserPageFlags(USER_WRITE)
    }

    pub fn user_execute() -> (r: Self)
        ensures
            r.0 == USER_EXECUTE,
    {
        UserPageFlags(USER_EXECUTE)
    }

    pub fn user_no_execute() -> (r: Self)
        ensures
            r.0 == USER_NO_EXECUTE,
    {
        UserPageFlags(USER_NO_EXECUTE)
    }

    pub fn union(self, other: Self) -> (r: Self)
        ensures
            r.0 == self.0 | other.0,
    {
        UserPageFlags(self.0 | other.0)
    }

    pub open spec fn has(self, bit: u8) -> bool {
        self.0 & bit != 0
    }

    /// Whether the two flag sets share a bit.
    pub fn contains(self, other: Self) -> (r: bool)
        ensures
            r == (self.0 & other.0 != 0),
    {
        self.0 & other.0 != 0
    }

    /// Readable, and not both executable and no-execute.
    pub open spec fn spec_valid(self) -> bool {
        self.has(USER_READ) && !(self.has(USER_EXECUTE) && self.has(USER_NO_EXECUTE))
    }

    pub fn is_valid(self) -> (r: bool)
        ensures
            r == self.spec_valid(),
    {
        self.contains(UserPageFlags(USER_READ)) && !(self.contains(UserPageFlags(USER_EXECUTE))
            && self.contains(UserPageFlags(USER_NO_EXECUTE)))
    }

    /// The hardware bits of a user leaf: present and user; writable when
    /// asked; no-execute unless execution is asked and not forbidden.
    pub open spec fn spec_hardware(self) -> u64 {
        PRESENT | USER | (if self.has(USER_WRITE) {
            WRITABLE
        } else {
            0
        }) | (if self.has(USER_NO_EXECUTE) || !self.has(USER_EXECUTE) {
            NO_EXECUTE
        } else {
            0
        })
    }

    pub fn hardware(self) -> (r: u64)
        ensures
            r == self.spec_hardware(),
    {
        let writable: u64 = if self.contains(UserPageFlags(USER_WRITE)) {
            WRITABLE
        } else {
            0
        };
        let no_execute: u64 = if self.contains(UserPageFlags(USER_NO_EXECUTE)) || !self.contains(
            UserPageFlags(USER_EXECUTE),
        ) {
            NO_EXECUTE
        } else {
            0
        };
        PRESENT | USER | writable | no_execute
    }
}

/// Entry bits that the user permissions set, one by one.
pub proof fn lemma_user_entry_bits(flags: UserPageFlags)
    ensures
        flags.spec_hardware() & PRESENT != 0,
        flags.spec_hardware() & USER != 0,
        (flags.spec_hardware() & WRITABLE != 0) == flags.has(USER_WRITE),
        (flags.spec_hardware() & NO_EXECUTE != 0) == (flags.has(USER_NO_EXECUTE) || !flags.has(
            USER_EXECUTE,
        )),
{
    let w: u64 = if flags.has(USER_WRITE) { WRITABLE } else { 0 };
    let x: u64 = if flags.has(USER_NO_EXECUTE) || !flags.has(USER_EXECUTE) { NO_EXECUTE } else { 0 };
    assert((0x1u64 | 0x4u64 | w | x) & 0x1 != 0) by (bit_vector);
    assert((0x1u64 | 0x4u64 | w | x) & 0x4 != 0) by (bit_vector);
    assert(((0x1u64 | 0x4u64 | w | x) & 0x2 != 0) == (w == 0x2)) by (bit_vector)
        requires
            w == 0 || w == 0x2,
            x == 0 || x == 0x8000_0000_0000_0000u64,
    ;
    assert(((0x1u64 | 0x4u64 | w | x) & 0x8000_0000_0000_0000 != 0) == (x == 0x8000_0000_0000_0000u64))
        by (bit_vector)
        requires
            w == 0 || w == 0x2,
            x == 0 || x == 0x8000_0000_0000_0000u64,
    ;
}

/// Why an address-space operation was refused.
#[derive(Debug, Clone, Copy, PartialEq, Eq, Structural)]
pub enum AddressSpaceError {
    OutOfFrames,
    Unaligned,
    Noncanonical,
    KernelAddress,
    InvalidFlags,
    AlreadyMapped,
    NotMapped,
    HugePage,
}

/// Direct-map address of a physical address.
pub fn higher_half(p: PhysAddr) -> (r: VirtAddr)
    requires
        KERNEL_VIRT_BASE + p.0 <= u64::MAX,
    ensures
        r.0 == KERNEL_VIRT_BASE + p.0,
{
    VirtAddr(KERNEL_VIRT_BASE + p.0)
}

pub fn phys_to_virt(p: PhysAddr) -> (r: VirtAddr)
    requires
        KERNEL_VIRT_BASE + p.0 <= u64::MAX,
    ensures
        r.0 == KERNEL_VIRT_BASE + p.0,
{
    higher_half(p)
}

/// Physical address behind a direct-map or identity-mapped virtual address.
pub open spec fn spec_virt_to_phys(v: u64) -> Option<u64> {
    if v >= KERNEL_VIRT_BASE && v - KERNEL_VIRT_BASE < DIRECT_MAP_LIMIT {
        Some((v - KERNEL_VIRT_BASE) as u64)
    } else if v < IDENTITY_MAP_LIMIT {
        Some(v)
    } else {
        None
    }
}

pub fn virt_to_phys(v: VirtAddr) -> (r: Option<PhysAddr>)
    ensures
        r matches Some(p) ==> spec_virt_to_phys(v.0) == Some(p.0),
        r is None ==> spec_virt_to_phys(v.0) is None,
{
    if v.0 >= KERNEL_VIRT_BASE && v.0 - KERNEL_VIRT_BASE < DIRECT_MAP_LIMIT {
        Some(PhysAddr(v.0 - KERNEL_VIRT_BASE))
    } else if v.0 < IDENTITY_MAP_LIMIT {
        Some(PhysAddr(v.0))
    } else {
        None
    }
}

pub fn identity(p: PhysAddr) -> (r: VirtAddr)
    ensures
        r.0 == p.0,
{
    VirtAddr(p.0)
}

/// Converting a physical address into the direct map and back gives it back.
pub proof fn law_direct_map_round_trip(p: u64)
    requires
        p < DIRECT_MAP_LIMIT,
    ensures
        spec_virt_to_phys((KERNEL_VIRT_BASE + p) as u64) == Some(p),
{
}

/// Identity-mapped addresses convert to themselves.
pub proof fn law_identity_round_trip(p: u64)
    requires
        p < IDENTITY_MAP_LIMIT,
    ensures
        spec_virt_to_phys(p) == Some(p),
{
}

/// Kinds of memory that get direct-map and identity mappings.
pub fn maps_in_direct_map(kind: PhysicalMemoryKind) -> (r: bool)
    ensures
        r == (kind != PhysicalMemoryKind::Reserved),
{
    match kind {
        PhysicalMemoryKind::Usable | PhysicalMemoryKind::AcpiReclaimable | PhysicalMemoryKind::AcpiNvs
        | PhysicalMemoryKind::Runtime | PhysicalMemoryKind::Mmio => true,
        PhysicalMemoryKind::Reserved => false,
    }
}

/// PML4 slot of a physical address in the identity map (slots 0..255) or
/// the direct map (slots 256..511).
pub fn pml4_index(physical: u64, direct: bool) -> (r: Option<usize>)
    ensures
        physical >= DIRECT_MAP_LIMIT ==> r is None,
        physical < DIRECT_MAP_LIMIT ==> r == Some(
            (physical / 0x80_0000_0000 + if direct { 256int } else { 0 }) as usize,
        ),
{
    let limit = if direct { DIRECT_MAP_LIMIT } else { IDENTITY_MAP_LIMIT };
    if physical >= limit {
        return None;
    }
    let slot = (physical / 0x80_0000_0000) as usize;
    Some(if direct { slot + 256 } else { slot })
}

/// Page-table pages are reserved as they are allocated; nothing is left to do.
pub fn reserve_page_tables() {
}

} // verus!
