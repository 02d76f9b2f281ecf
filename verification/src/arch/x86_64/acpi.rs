//! Minimal ACPI discovery for interrupt-controller setup: the RSDP, the
//! root table and the MADT, read from physical memory given as bytes
//! indexed by physical address.
use vstd::prelude::*;
use crate::bytes::{le_at, read_u16, read_u32, read_u64};
use crate::arch::x86_64::uefi::proto::{
    efi_acpi_20_table_guid, efi_acpi_table_guid, is_acpi10_guid, is_acpi20_guid, EfiConfigurationTable,
};

verus! {

pub const MAX_IOAPICS: usize = 8;
pub const MAX_OVERRIDES: usize = 16;

/// One I/O APIC from the MADT.
#[derive(Debug, Clone, Copy, PartialEq, Eq, Structural)]
pub struct IoApicInfo {
    pub id: u8,
    pub address: u64,
    pub gsi_base: u32,
}

/// One interrupt source override from the MADT (ISA bus only).
#[derive(Debug, Clone, Copy, PartialEq, Eq, Structural)]
pub struct InterruptOverride {
    pub source_irq: u8,
    pub gsi: u32,
    pub flags: u16,
}

/// What the MADT says about interrupt routing.
#[derive(Debug, Clone)]
pub struct InterruptTopology {
    pub lapic_address: u64,
    pub ioapics: Vec<IoApicInfo>,
    pub ioapic_count: usize,
    pub overrides: Vec<InterruptOverride>,
    pub override_count: usize,
}

#[derive(Debug, Clone, Copy, PartialEq, Eq, Structural)]
pub enum AcpiError {
    InvalidRsdp,
    InvalidRootTable,
    NoMadt,
    InvalidMadt,
    TooManyEntries,
}

/// The local APIC address, the I/O APICs and the overrides, in table order.
pub type TopologyModel = (u64, Seq<IoApicInfo>, Seq<InterruptOverride>);

impl View for InterruptTopology {
    type V = TopologyModel;

    open spec fn view(&self) -> TopologyModel {
        (self.lapic_address, self.ioapics@, self.overrides@)
    }
}

/// The first override for `irq`, as an index.
pub open spec fn first_override(s: Seq<InterruptOverride>, irq: u8, i: int) -> bool {
    &&& 0 <= i < s.len()
    &&& s[i].source_irq == irq
    &&& forall|j: int| 0 <= j < i ==> (#[trigger] s[j]).source_irq != irq
}

/// The I/O APIC at `i` handles `gsi`: it lies at or above its base and
/// below the next higher base (or below `u32::MAX` where there is none).
pub open spec fn covers(s: Seq<IoApicInfo>, i: int, gsi: u32) -> bool {
    &&& s[i].gsi_base <= gsi
    &&& gsi < u32::MAX
    &&& forall|j: int| 0 <= j < s.len() && (#[trigger] s[j]).gsi_base > s[i].gsi_base ==> gsi < s[j].gsi_base
}

impl InterruptTopology {
    pub open spec fn wf(&self) -> bool {
        &&& self.ioapics@.len() == self.ioapic_count
        &&& self.overrides@.len() == self.override_count
        &&& self.ioapic_count <= MAX_IOAPICS
        &&& self.override_count <= MAX_OVERRIDES
    }

    /// No APIC and no override.
    pub fn empty() -> (r: Self)
        ensures
            r.wf(),
            r@ == (0u64, Seq::<IoApicInfo>::empty(), Seq::<InterruptOverride>::empty()),
    {
        InterruptTopology {
            lapic_address: 0,
            ioapics: Vec::new(),
            ioapic_count: 0,
            overrides: Vec::new(),
            override_count: 0,
        }
    }

    /// The GSI and polarity/trigger flags of legacy IRQ `irq`: those of the
    /// first override for it, else the identity mapping with no flags.
    pub fn gsi_for_irq(&self, irq: u8) -> (r: (u32, u16))
        requires
            self.wf(),
        ensures
            forall|i: int| first_override(self.overrides@, irq, i) ==> r == (
            self.overrides@[i].gsi,
            self.overrides@[i].flags,
            ),
            (forall|i: int| 0 <= i < self.overrides@.len() ==> (#[trigger] self.overrides@[i]).source_irq != irq)
                ==> r == (irq as u32, 0u16),
    {
        let mut i: usize = 0;
        while i < self.override_count
            invariant
                self.wf(),
                0 <= i <= self.override_count,
                forall|j: int| 0 <= j < i ==> (#[trigger] self.overrides@[j]).source_irq != irq,
            decreases self.override_count - i,
        {
            let entry = self.overrides[i];
            if entry.source_irq == irq {
                proof {
                    assert forall|k: int| first_override(self.overrides@, irq, k) implies k == i by {
                        if k < i {
                        } else if k > i {
                            assert(self.overrides@[i as int].source_irq != irq);
                        }
                    }
                }
                return (entry.gsi, entry.flags);
            }
            i = i + 1;
        }
        (irq as u32, 0)
    }

    /// The first I/O APIC, in table order, whose range holds `gsi`.
    pub fn ioapic_for_gsi(&self, gsi: u32) -> (r: Option<IoApicInfo>)
        requires
            self.wf(),
        ensures
            r is None <==> forall|i: int| 0 <= i < self.ioapics@.len() ==> !covers(self.ioapics@, i, gsi),
            r matches Some(info) ==> exists|i: int|
                0 <= i < self.ioapics@.len() && covers(self.ioapics@, i, gsi) && (forall|j: int|
                    0 <= j < i ==> !covers(self.ioapics@, j, gsi)) && info == self.ioapics@[i],
    {
        let ghost s = self.ioapics@;
        let mut i: usize = 0;
        while i < self.ioapic_count
            invariant
                self.wf(),
                s == self.ioapics@,
                0 <= i <= self.ioapic_count,
                forall|j: int| 0 <= j < i ==> !covers(s, j, gsi),
            decreases self.ioapic_count - i,
        {
            let ioapic = self.ioapics[i];
            let mut next_base: u32 = u32::MAX;
            let mut k: usize = 0;
            while k < self.ioapic_count
                invariant
                    self.wf(),
                    s == self.ioapics@,
                    0 <= k <= self.ioapic_count,
                    i < self.ioapic_count,
                    ioapic == s[i as int],
                    forall|j: int|
                        0 <= j < k && (#[trigger] s[j]).gsi_base > ioapic.gsi_base ==> next_base <= s[j].gsi_base,
                    next_base == u32::MAX || exists|j: int|
                        0 <= j < k && (#[trigger] s[j]).gsi_base > ioapic.gsi_base && next_base == s[j].gsi_base,
                decreases self.ioapic_count - k,
            {
                let candidate = self.ioapics[k];
                if candidate.gsi_base > ioapic.gsi_base && candidate.gsi_base < next_base {
                    next_base = candidate.gsi_base;
                }
                k = k + 1;
            }
            if ioapic.gsi_base <= gsi && gsi < next_base {
                proof {
                    assert(covers(s, i as int, gsi));
                }
                return Some(ioapic);
            }
            proof {
                if covers(s, i as int, gsi) {
                    if next_base != u32::MAX {
                        let j = choose|j: int|
                            0 <= j < self.ioapic_count && (#[trigger] s[j]).gsi_base > ioapic.gsi_base && next_base
                                == s[j].gsi_base;
                        assert(gsi < s[j].gsi_base);
                    }
                }
            }
            i = i + 1;
        }
        None
    }
}

/// `"RSD PTR "`.
pub open spec fn rsdp_signature() -> Seq<u8> {
    seq![0x52u8, 0x53u8, 0x44u8, 0x20u8, 0x50u8, 0x54u8, 0x52u8, 0x20u8]
}

/// `"XSDT"`.
pub open spec fn xsdt_signature() -> Seq<u8> {
    seq![0x58u8, 0x53u8, 0x44u8, 0x54u8]
}

/// `"RSDT"`.
pub open spec fn rsdt_signature() -> Seq<u8> {
    seq![0x52u8, 0x53u8, 0x44u8, 0x54u8]
}

/// `"APIC"`.
pub open spec fn madt_signature() -> Seq<u8> {
    seq![0x41u8, 0x50u8, 0x49u8, 0x43u8]
}

/// Sum of the bytes `m[a..a + n]`.
pub open spec fn byte_sum(m: Seq<u8>, a: int, n: int) -> int
    decreases n,
{
    if n <= 0 {
        0
    } else {
        byte_sum(m, a, n - 1) + m[a + n - 1]
    }
}

/// The `n` bytes at `a` can be read and add up to 0 modulo 256.
pub open spec fn checksum_valid(m: Seq<u8>, a: int, n: int) -> bool {
    &&& 0 <= a
    &&& 0 <= n
    &&& a + n <= m.len()
    &&& byte_sum(m, a, n) % 256 == 0
}

/// The bytes at `a` can be read and spell `sig`.
pub open spec fn signature_at(m: Seq<u8>, a: int, sig: Seq<u8>) -> bool {
    &&& 0 <= a
    &&& a + sig.len() <= m.len()
    &&& m.subrange(a, a + sig.len()) == sig
}

/// An RSDP sits at `a`: signature, checksum of the first 20 bytes and, from
/// revision 2 on, a length of at least 36 whose bytes check too.
pub open spec fn rsdp_at(m: Seq<u8>, a: int) -> bool {
    &&& signature_at(m, a, rsdp_signature())
    &&& checksum_valid(m, a, 20)
    &&& m[a + 15] >= 2 ==> le_at(m, a + 20, 4) >= 36 && checksum_valid(m, a, le_at(m, a + 20, 4))
}

/// The first RSDP at `a`, `a + 16`, ... whose 20 bytes end by `end`.
pub open spec fn scan_from(m: Seq<u8>, a: int, end: int) -> Option<int>
    decreases end - a,
{
    if a + 20 > end {
        None
    } else if rsdp_at(m, a) {
        Some(a)
    } else {
        scan_from(m, a + 16, end)
    }
}

pub open spec fn round_up_16(x: int) -> int {
    (x + 15) / 16 * 16
}

fn checksum_ok(mem: &[u8], address: usize, length: usize) -> (r: bool)
    ensures
        r == checksum_valid(mem@, address as int, length as int),
{
    if length > mem.len() || address > mem.len() - length {
        return false;
    }
    proof {
        assert(mem.len() == mem@.len());
    }
    let mut sum: u8 = 0;
    let mut offset: usize = 0;
    while offset < length
        invariant
            address + length <= mem@.len(),
            mem@.len() <= usize::MAX,
            0 <= offset <= length,
            sum == byte_sum(mem@, address as int, offset as int) % 256,
        decreases length - offset,
    {
        sum = ((sum as u16 + mem[address + offset] as u16) % 256) as u8;
        offset = offset + 1;
    }
    sum == 0
}

fn signature_equals(mem: &[u8], address: usize, signature: &[u8]) -> (r: bool)
    ensures
        r == signature_at(mem@, address as int, signature@),
{
    if signature.len() > mem.len() || address > mem.len() - signature.len() {
        return false;
    }
    proof {
        assert(mem.len() == mem@.len());
    }
    let mut i: usize = 0;
    while i < signature.len()
        invariant
            address + signature@.len() <= mem@.len(),
            mem@.len() <= usize::MAX,
            0 <= i <= signature@.len(),
            forall|j: int| 0 <= j < i ==> mem@[address + j] == signature@[j],
        decreases signature@.len() - i,
    {
        if mem[address + i] != signature[i] {
            proof {
                assert(mem@.subrange(address as int, address + signature@.len())[i as int] != signature@[i as int]);
            }
            return false;
        }
        i = i + 1;
    }
    proof {
        assert(mem@.subrange(address as int, address + signature@.len()) =~= signature@);
    }
    true
}

/// An RSDP sits at `address` of `mem`.
pub fn rsdp_valid(mem: &[u8], address: usize) -> (r: bool)
    ensures
        r == rsdp_at(mem@, address as int),
{
    let signature: [u8; 8] = [0x52, 0x53, 0x44, 0x20, 0x50, 0x54, 0x52, 0x20];
    proof {
        assert(signature@ =~= rsdp_signature());
    }
    if !signature_equals(mem, address, &signature) {
        return false;
    }
    if !checksum_ok(mem, address, 20) {
        return false;
    }
    proof {
        assert(mem.len() == mem@.len());
    }
    let revision = mem[address + 15];
    if revision >= 2 {
        if mem.len() - address < 24 {
            return false;
        }
        let length = read_u32(mem, address + 20) as usize;
        length >= 36 && checksum_ok(mem, address, length)
    } else {
        true
    }
}

/// The first RSDP on a 16-byte boundary at or after `start` whose first 20
/// bytes end by `end`.
pub fn scan(mem: &[u8], start: usize, end: usize) -> (r: Option<usize>)
    requires
        start + 15 <= usize::MAX,
    ensures
        r matches Some(a) ==> scan_from(mem@, round_up_16(start as int), end as int) == Some(a as int),
        r is None ==> scan_from(mem@, round_up_16(start as int), end as int) is None,
{
    let mut address: usize = (start + 15) / 16 * 16;
    while address <= end && end - address >= 20
        invariant
            scan_from(mem@, address as int, end as int) == scan_from(mem@, round_up_16(start as int), end as int),
        decreases end - address,
    {
        if rsdp_valid(mem, address) {
            return Some(address);
        }
        address = address + 16;
    }
    None
}

/// The RSDP of a BIOS machine: searched in the first KiB of the EBDA, whose
/// segment the BIOS data area holds at `0x40E`, then in `0xE0000..0x100000`.
pub open spec fn bios_rsdp(m: Seq<u8>) -> Option<int> {
    let ebda = le_at(m, 0x40E, 2) * 16;
    let end = if ebda + 1024 > usize::MAX { usize::MAX as int } else { ebda + 1024 };
    if ebda != 0 && scan_from(m, round_up_16(ebda), end) is Some {
        scan_from(m, round_up_16(ebda), end)
    } else {
        scan_from(m, 0xE0000, 0x100000)
    }
}

/// Finds the RSDP on a BIOS machine; `mem` holds physical memory from
/// address 0 on.
pub fn find_rsdp_bios(mem: &[u8]) -> (r: Option<u64>)
    requires
        mem@.len() >= 0x410,
    ensures
        r matches Some(a) ==> bios_rsdp(mem@) == Some(a as int),
        r is None ==> bios_rsdp(mem@) is None,
{
    let ebda = (read_u16(mem, 0x40E) as usize) * 16;
    if ebda != 0 {
        if let Some(address) = scan(mem, ebda, ebda.saturating_add(1024)) {
            return Some(address as u64);
        }
    }
    proof {
        assert(round_up_16(0xE0000) == 0xE0000);
    }
    match scan(mem, 0xE0000, 0x100000) {
        Some(address) => Some(address as u64),
        None => None,
    }
}

/// The entries of a MADT of `len` bytes at `a`, walked from `off` on with
/// the I/O APICs `io` and the overrides `ov` found so far.
pub open spec fn madt_walk(
    m: Seq<u8>,
    a: int,
    len: int,
    off: int,
    io: Seq<IoApicInfo>,
    ov: Seq<InterruptOverride>,
) -> Result<(Seq<IoApicInfo>, Seq<InterruptOverride>), AcpiError>
    decreases len - off,
{
    if off + 2 > len {
        Ok((io, ov))
    } else {
        let entry_type = m[a + off];
        let entry_length = m[a + off + 1] as int;
        if entry_length < 2 || off + entry_length > len {
            Err(AcpiError::InvalidMadt)
        } else if entry_type == 1 && entry_length >= 12 {
            if io.len() == MAX_IOAPICS {
                Err(AcpiError::TooManyEntries)
            } else {
                let info = IoApicInfo {
                    id: m[a + off + 2],
                    address: le_at(m, a + off + 4, 4) as u64,
                    gsi_base: le_at(m, a + off + 8, 4) as u32,
                };
                madt_walk(m, a, len, off + entry_length, io.push(info), ov)
            }
        } else if entry_type == 2 && entry_length >= 10 && m[a + off + 2] == 0 {
            if ov.len() == MAX_OVERRIDES {
                Err(AcpiError::TooManyEntries)
            } else {
                let entry = InterruptOverride {
                    source_irq: m[a + off + 3],
                    gsi: le_at(m, a + off + 4, 4) as u32,
                    flags: le_at(m, a + off + 8, 2) as u16,
                };
                madt_walk(m, a, len, off + entry_length, io, ov.push(entry))
            }
        } else {
            madt_walk(m, a, len, off + entry_length, io, ov)
        }
    }
}

/// The topology that the MADT of `len` bytes at `a` describes; it must name
/// a local APIC address and at least one I/O APIC.
pub open spec fn madt_topology(m: Seq<u8>, a: int, len: int) -> Result<TopologyModel, AcpiError> {
    match madt_walk(m, a, len, 44, Seq::empty(), Seq::empty()) {
        Err(e) => Err(e),
        Ok((io, ov)) => {
            let lapic = le_at(m, a + 36, 4);
            if lapic == 0 || io.len() == 0 {
                Err(AcpiError::InvalidMadt)
            } else {
                Ok((lapic as u64, io, ov))
            }
        },
    }
}

/// Where the root table is, and whether it is the 64-bit XSDT.
pub open spec fn root_table(m: Seq<u8>, rsdp: int) -> (int, bool) {
    if m[rsdp + 15] >= 2 && le_at(m, rsdp + 24, 8) != 0 {
        (le_at(m, rsdp + 24, 8), true)
    } else {
        (le_at(m, rsdp + 16, 4), false)
    }
}

/// Entry `index` of the root table at `root`.
pub open spec fn root_entry(m: Seq<u8>, root: int, wide: bool, index: int) -> int {
    if wide {
        le_at(m, root + 36 + index * 8, 8)
    } else {
        le_at(m, root + 36 + index * 4, 4)
    }
}

/// The MADT among the root-table entries `index..count`: the first entry
/// whose table is signed `"APIC"`, which must then be at least 44 bytes
/// long and check.
pub open spec fn find_madt(m: Seq<u8>, root: int, wide: bool, count: int, index: int) -> Result<
    TopologyModel,
    AcpiError,
>
    decreases count - index,
{
    if index >= count {
        Err(AcpiError::NoMadt)
    } else {
        let e = root_entry(m, root, wide, index);
        if e == 0 || !signature_at(m, e, madt_signature()) {
            find_madt(m, root, wide, count, index + 1)
        } else if e + 8 > m.len() {
            Err(AcpiError::InvalidMadt)
        } else {
            let len = le_at(m, e + 4, 4);
            if len < 44 || !checksum_valid(m, e, len) {
                Err(AcpiError::InvalidMadt)
            } else {
                madt_topology(m, e, len)
            }
        }
    }
}

/// The interrupt topology reached from the RSDP at `rsdp`.
pub open spec fn rsdp_topology(m: Seq<u8>, rsdp: int) -> Result<TopologyModel, AcpiError> {
    if !rsdp_at(m, rsdp) {
        Err(AcpiError::InvalidRsdp)
    } else {
        let (root, wide) = root_table(m, rsdp);
        if root == 0 || !signature_at(m, root, if wide { xsdt_signature() } else { rsdt_signature() }) || root + 8
            > m.len() {
            Err(AcpiError::InvalidRootTable)
        } else {
            let len = le_at(m, root + 4, 4);
            if len < 36 || !checksum_valid(m, root, len) {
                Err(AcpiError::InvalidRootTable)
            } else {
                find_madt(m, root, wide, (len - 36) / (if wide { 8int } else { 4int }), 0)
            }
        }
    }
}

/// The index in `mem` of the physical address `address`, where `mem` holds it.
fn mem_index(mem: &[u8], address: u64) -> (r: Option<usize>)
    ensures
        r matches Some(i) ==> i == address && address < mem@.len(),
        r is None ==> address >= mem@.len(),
{
    proof {
        assert(mem.len() == mem@.len());
    }
    if address < mem.len() as u64 {
        Some(address as usize)
    } else {
        None
    }
}

/// Reads the interrupt topology from the MADT of `length` bytes at
/// `address`.
pub fn parse_madt(mem: &[u8], address: usize, length: usize) -> (r: Result<InterruptTopology, AcpiError>)
    requires
        address + length <= mem@.len(),
        length >= 44,
    ensures
        match r {
            Ok(t) => t.wf() && madt_topology(mem@, address as int, length as int) == Ok::<TopologyModel, AcpiError>(t@),
            Err(e) => madt_topology(mem@, address as int, length as int) == Err::<TopologyModel, AcpiError>(e),
        },
{
    proof {
        assert(mem.len() == mem@.len());
    }
    let mut topology = InterruptTopology::empty();
    topology.lapic_address = read_u32(mem, address + 36) as u64;
    let mut offset: usize = 44;
    while offset <= length && length - offset >= 2
        invariant
            address + length <= mem@.len(),
            mem@.len() <= usize::MAX,
            44 <= offset <= length,
            topology.wf(),
            topology.lapic_address == le_at(mem@, address + 36, 4),
            madt_walk(mem@, address as int, length as int, offset as int, topology.ioapics@, topology.overrides@)
                == madt_walk(mem@, address as int, length as int, 44, Seq::empty(), Seq::empty()),
        decreases length - offset,
    {
        let entry_type = mem[address + offset];
        let entry_length = mem[address + offset + 1] as usize;
        if entry_length < 2 || entry_length > length - offset {
            return Err(AcpiError::InvalidMadt);
        }
        if entry_type == 1 && entry_length >= 12 {
            if topology.ioapic_count == MAX_IOAPICS {
                return Err(AcpiError::TooManyEntries);
            }
            let info = IoApicInfo {
                id: mem[address + offset + 2],
                address: read_u32(mem, address + offset + 4) as u64,
                gsi_base: read_u32(mem, address + offset + 8),
            };
            topology.ioapics.push(info);
            topology.ioapic_count = topology.ioapic_count + 1;
        } else if entry_type == 2 && entry_length >= 10 && mem[address + offset + 2] == 0 {
            if topology.override_count == MAX_OVERRIDES {
                return Err(AcpiError::TooManyEntries);
            }
            let entry = InterruptOverride {
                source_irq: mem[address + offset + 3],
                gsi: read_u32(mem, address + offset + 4),
                flags: read_u16(mem, address + offset + 8),
            };
            topology.overrides.push(entry);
            topology.override_count = topology.override_count + 1;
        }
        offset = offset + entry_length;
    }
    if topology.lapic_address == 0 || topology.ioapic_count == 0 {
        return Err(AcpiError::InvalidMadt);
    }
    Ok(topology)
}

/// Reads the interrupt topology through the RSDP at physical `address`;
/// `mem` holds physical memory from address 0 on.
pub fn parse_rsdp(mem: &[u8], address: u64) -> (r: Result<InterruptTopology, AcpiError>)
    ensures
        match r {
            Ok(t) => t.wf() && rsdp_topology(mem@, address as int) == Ok::<TopologyModel, AcpiError>(t@),
            Err(e) => rsdp_topology(mem@, address as int) == Err::<TopologyModel, AcpiError>(e),
        },
{
    proof {
        assert(mem.len() == mem@.len());
    }
    let rsdp = match mem_index(mem, address) {
        Some(i) => i,
        None => {
            return Err(AcpiError::InvalidRsdp);
        },
    };
    if !rsdp_valid(mem, rsdp) {
        return Err(AcpiError::InvalidRsdp);
    }
    let revision = mem[rsdp + 15];
    let (root, wide) = if revision >= 2 && read_u64(mem, rsdp + 24) != 0 {
        (read_u64(mem, rsdp + 24), true)
    } else {
        (read_u32(mem, rsdp + 16) as u64, false)
    };
    if root == 0 {
        return Err(AcpiError::InvalidRootTable);
    }
    let root_address = match mem_index(mem, root) {
        Some(i) => i,
        None => {
            return Err(AcpiError::InvalidRootTable);
        },
    };
    let xsdt: [u8; 4] = [0x58, 0x53, 0x44, 0x54];
    let rsdt: [u8; 4] = [0x52, 0x53, 0x44, 0x54];
    proof {
        assert(xsdt@ =~= xsdt_signature());
        assert(rsdt@ =~= rsdt_signature());
    }
    let signed = if wide {
        signature_equals(mem, root_address, &xsdt)
    } else {
        signature_equals(mem, root_address, &rsdt)
    };
    if !signed || mem.len() - root_address < 8 {
        return Err(AcpiError::InvalidRootTable);
    }
    let root_length = read_u32(mem, root_address + 4) as usize;
    if root_length < 36 || !checksum_ok(mem, root_address, root_length) {
        return Err(AcpiError::InvalidRootTable);
    }
    let entry_size: usize = if wide { 8 } else { 4 };
    let entry_count = (root_length - 36) / entry_size;
    let apic: [u8; 4] = [0x41, 0x50, 0x49, 0x43];
    proof {
        assert(apic@ =~= madt_signature());
    }
    let mut index: usize = 0;
    while index < entry_count
        invariant
            root_address + root_length <= mem@.len(),
            mem@.len() <= usize::MAX,
            root_length >= 36,
            entry_size == (if wide { 8usize } else { 4usize }),
            entry_count == (root_length - 36) / entry_size as int,
            apic@ == madt_signature(),
            0 <= index <= entry_count,
            find_madt(mem@, root_address as int, wide, entry_count as int, index as int) == rsdp_topology(
                mem@,
                address as int,
            ),
        decreases entry_count - index,
    {
        proof {
            assert(36 + index * entry_size + entry_size <= root_length) by (nonlinear_arith)
                requires
                    index < entry_count,
                    entry_count == (root_length - 36) / entry_size as int,
                    entry_size > 0,
                    root_length >= 36,
            ;
        }
        let entry = if wide {
            read_u64(mem, root_address + 36 + index * 8)
        } else {
            read_u32(mem, root_address + 36 + index * 4) as u64
        };
        let entry_address = match mem_index(mem, entry) {
            Some(i) => i,
            None => {
                index = index + 1;
                continue;
            },
        };
        if entry_address == 0 || !signature_equals(mem, entry_address, &apic) {
            index = index + 1;
            continue;
        }
        if mem.len() - entry_address < 8 {
            return Err(AcpiError::InvalidMadt);
        }
        let length = read_u32(mem, entry_address + 4) as usize;
        if length < 44 || !checksum_ok(mem, entry_address, length) {
            return Err(AcpiError::InvalidMadt);
        }
        return parse_madt(mem, entry_address, length);
    }
    Err(AcpiError::NoMadt)
}

/// An RSDP sits at the physical address `a`.
pub open spec fn rsdp_at_address(m: Seq<u8>, a: u64) -> bool {
    a < m.len() && rsdp_at(m, a as int)
}

/// The RSDP that the UEFI configuration table names, walked from entry `i`
/// with `acpi1` the last ACPI 1.0 table seen: the first ACPI 2.0 table that
/// holds a valid RSDP, else the last ACPI 1.0 table if its RSDP is valid.
pub open spec fn uefi_rsdp(m: Seq<u8>, t: Seq<EfiConfigurationTable>, i: int, acpi1: Option<u64>) -> Option<u64>
    decreases t.len() - i,
{
    if i >= t.len() || i < 0 {
        match acpi1 {
            Some(a) => if rsdp_at_address(m, a) {
                Some(a)
            } else {
                None
            },
            None => None,
        }
    } else {
        let e = t[i];
        if is_acpi20_guid(e.vendor_guid) && e.vendor_table != 0 && rsdp_at_address(m, e.vendor_table) {
            Some(e.vendor_table)
        } else if is_acpi10_guid(e.vendor_guid) && e.vendor_table != 0 {
            uefi_rsdp(m, t, i + 1, Some(e.vendor_table))
        } else {
            uefi_rsdp(m, t, i + 1, acpi1)
        }
    }
}

/// An RSDP sits at physical `address` of `mem`.
fn rsdp_valid_at(mem: &[u8], address: u64) -> (r: bool)
    ensures
        r == rsdp_at_address(mem@, address),
{
    match mem_index(mem, address) {
        Some(i) => rsdp_valid(mem, i),
        None => false,
    }
}

/// Finds the RSDP through the UEFI configuration table `tables`.
pub fn find_rsdp_uefi(mem: &[u8], tables: &[EfiConfigurationTable]) -> (r: Option<u64>)
    ensures
        r == uefi_rsdp(mem@, tables@, 0, None),
{
    let acpi2_guid = efi_acpi_20_table_guid();
    let acpi1_guid = efi_acpi_table_guid();
    let mut acpi1: Option<u64> = None;
    let mut i: usize = 0;
    while i < tables.len()
        invariant
            is_acpi20_guid(acpi2_guid),
            is_acpi10_guid(acpi1_guid),
            0 <= i <= tables@.len(),
            uefi_rsdp(mem@, tables@, i as int, acpi1) == uefi_rsdp(mem@, tables@, 0, None),
        decreases tables@.len() - i,
    {
        let entry = tables[i];
        if entry.vendor_guid.equals(&acpi2_guid) && entry.vendor_table != 0 {
            if rsdp_valid_at(mem, entry.vendor_table) {
                return Some(entry.vendor_table);
            }
        }
        if entry.vendor_guid.equals(&acpi1_guid) && entry.vendor_table != 0 {
            acpi1 = Some(entry.vendor_table);
        }
        i = i + 1;
    }
    match acpi1 {
        Some(address) => if rsdp_valid_at(mem, address) {
            Some(address)
        } else {
            None
        },
        None => None,
    }
}

/// By the ACPI layout of a MADT Interrupt Source Override entry, `e` is the
/// entry at byte `o` of the MADT at `a`: type 2, length at least 10, bus 0
/// (ISA), the source IRQ in byte 3, the GSI in bytes 4..8 and the flags in
/// bytes 8..10, little endian.
pub open spec fn override_entry_in(m: Seq<u8>, a: int, o: int, e: InterruptOverride) -> bool {
    &&& m[a + o] == 2
    &&& m[a + o + 1] >= 10
    &&& m[a + o + 2] == 0
    &&& e.source_irq == m[a + o + 3]
    &&& e.gsi == m[a + o + 4] + 0x100 * m[a + o + 5] + 0x1_0000 * m[a + o + 6] + 0x100_0000 * m[a + o + 7]
    &&& e.flags == m[a + o + 8] + 0x100 * m[a + o + 9]
}

/// By the ACPI layout of a MADT I/O APIC entry, `e` is the entry at byte `o`
/// of the MADT at `a`: type 1, length at least 12, the I/O APIC id in byte
/// 2, its address in bytes 4..8 and its first GSI in bytes 8..12, little
/// endian.
pub open spec fn ioapic_entry_in(m: Seq<u8>, a: int, o: int, e: IoApicInfo) -> bool {
    &&& m[a + o] == 1
    &&& m[a + o + 1] >= 12
    &&& e.id == m[a + o + 2]
    &&& e.address == m[a + o + 4] + 0x100 * m[a + o + 5] + 0x1_0000 * m[a + o + 6] + 0x100_0000 * m[a + o + 7]
    &&& e.gsi_base == m[a + o + 8] + 0x100 * m[a + o + 9] + 0x1_0000 * m[a + o + 10] + 0x100_0000 * m[a + o + 11]
}

proof fn lemma_le4(m: Seq<u8>, at: int)
    ensures
        le_at(m, at, 4) == m[at] + 0x100 * m[at + 1] + 0x1_0000 * m[at + 2] + 0x100_0000 * m[at + 3],
        le_at(m, at, 2) == m[at] + 0x100 * m[at + 1],
{
    reveal_with_fuel(le_at, 5);
}

/// `e` is an I/O APIC entry of the MADT at `a` that starts at or after byte
/// `off` and ends within its `len` bytes.
pub open spec fn ioapic_from_table(m: Seq<u8>, a: int, len: int, off: int, e: IoApicInfo) -> bool {
    exists|o: int| off <= o && o + 12 <= len && #[trigger] ioapic_entry_in(m, a, o, e)
}

/// `e` is an Interrupt Source Override entry of the MADT at `a` that starts
/// at or after byte `off` and ends within its `len` bytes.
pub open spec fn override_from_table(m: Seq<u8>, a: int, len: int, off: int, e: InterruptOverride) -> bool {
    exists|o: int| off <= o && o + 10 <= len && #[trigger] override_entry_in(m, a, o, e)
}

proof fn lemma_walk_entries(
    m: Seq<u8>,
    a: int,
    len: int,
    off: int,
    io: Seq<IoApicInfo>,
    ov: Seq<InterruptOverride>,
)
    requires
        madt_walk(m, a, len, off, io, ov) is Ok,
    ensures
        ({
            let r = madt_walk(m, a, len, off, io, ov)->Ok_0;
            &&& io.len() <= r.0.len()
            &&& ov.len() <= r.1.len()
            &&& forall|i: int| 0 <= i < io.len() ==> r.0[i] == io[i]
            &&& forall|i: int| 0 <= i < ov.len() ==> r.1[i] == ov[i]
            &&& forall|i: int| io.len() <= i < r.0.len() ==> ioapic_from_table(m, a, len, off, #[trigger] r.0[i])
            &&& forall|i: int| ov.len() <= i < r.1.len() ==> override_from_table(m, a, len, off, #[trigger] r.1[i])
        }),
    decreases len - off,
{
    if off + 2 <= len {
        let entry_type = m[a + off];
        let entry_length = m[a + off + 1] as int;
        lemma_le4(m, a + off + 4);
        lemma_le4(m, a + off + 8);
        let info = IoApicInfo {
            id: m[a + off + 2],
            address: le_at(m, a + off + 4, 4) as u64,
            gsi_base: le_at(m, a + off + 8, 4) as u32,
        };
        let entry = InterruptOverride {
            source_irq: m[a + off + 3],
            gsi: le_at(m, a + off + 4, 4) as u32,
            flags: le_at(m, a + off + 8, 2) as u16,
        };
        let is_io = entry_type == 1 && entry_length >= 12;
        let is_ov = !is_io && entry_type == 2 && entry_length >= 10 && m[a + off + 2] == 0;
        let io1 = if is_io { io.push(info) } else { io };
        let ov1 = if is_ov { ov.push(entry) } else { ov };
        let next = off + entry_length;
        assert(madt_walk(m, a, len, off, io, ov) == madt_walk(m, a, len, next, io1, ov1));
        lemma_walk_entries(m, a, len, next, io1, ov1);
        let r = madt_walk(m, a, len, off, io, ov)->Ok_0;
        if is_io {
            assert(ioapic_entry_in(m, a, off, info));
        }
        if is_ov {
            assert(override_entry_in(m, a, off, entry));
        }
        assert forall|i: int| 0 <= i < io.len() implies r.0[i] == io[i] by {
            assert(r.0[i] == io1[i]);
        }
        assert forall|i: int| 0 <= i < ov.len() implies r.1[i] == ov[i] by {
            assert(r.1[i] == ov1[i]);
        }
        assert forall|i: int| io.len() <= i < r.0.len() implies ioapic_from_table(m, a, len, off, #[trigger] r.0[i]) by {
            if i < io1.len() {
                assert(r.0[i] == io1[i]);
                assert(ioapic_entry_in(m, a, off, r.0[i]));
            } else {
                assert(ioapic_from_table(m, a, len, next, r.0[i]));
                let o = choose|o: int| next <= o && o + 12 <= len && #[trigger] ioapic_entry_in(m, a, o, r.0[i]);
                assert(ioapic_entry_in(m, a, o, r.0[i]));
            }
        }
        assert forall|i: int| ov.len() <= i < r.1.len() implies override_from_table(m, a, len, off, #[trigger] r.1[i]) by {
            if i < ov1.len() {
                assert(r.1[i] == ov1[i]);
                assert(override_entry_in(m, a, off, r.1[i]));
            } else {
                assert(override_from_table(m, a, len, next, r.1[i]));
                let o = choose|o: int| next <= o && o + 10 <= len && #[trigger] override_entry_in(m, a, o, r.1[i]);
                assert(override_entry_in(m, a, o, r.1[i]));
            }
        }
    }
}

/// Byte `o` of the MADT at `a` starts an entry when the entries are read
/// from byte `from` on: entries follow each other back to back, each as
/// long as its length byte (byte 1) says.
pub open spec fn entry_chain(m: Seq<u8>, a: int, len: int, from: int, o: int) -> bool
    decreases o - from,
{
    if from == o {
        true
    } else if from < o && from + 2 <= len && m[a + from + 1] >= 2 && from + m[a + from + 1] <= o {
        entry_chain(m, a, len, from + m[a + from + 1], o)
    } else {
        false
    }
}

/// Some I/O APIC of `s` is the one the entry at byte `o` describes.
pub open spec fn holds_ioapic_entry(m: Seq<u8>, a: int, o: int, s: Seq<IoApicInfo>) -> bool {
    exists|i: int| 0 <= i < s.len() && #[trigger] ioapic_entry_in(m, a, o, s[i])
}

/// Some override of `s` is the one the entry at byte `o` describes.
pub open spec fn holds_override_entry(m: Seq<u8>, a: int, o: int, s: Seq<InterruptOverride>) -> bool {
    exists|i: int| 0 <= i < s.len() && #[trigger] override_entry_in(m, a, o, s[i])
}

proof fn lemma_walk_complete(
    m: Seq<u8>,
    a: int,
    len: int,
    off: int,
    io: Seq<IoApicInfo>,
    ov: Seq<InterruptOverride>,
    o: int,
)
    requires
        madt_walk(m, a, len, off, io, ov) is Ok,
        entry_chain(m, a, len, off, o),
        o + 2 <= len,
    ensures
        ({
            let r = madt_walk(m, a, len, off, io, ov)->Ok_0;
            &&& m[a + o] == 1 && m[a + o + 1] >= 12 ==> holds_ioapic_entry(m, a, o, r.0)
            &&& m[a + o] == 2 && m[a + o + 1] >= 10 && m[a + o + 2] == 0 ==> holds_override_entry(m, a, o, r.1)
        }),
    decreases o - off,
{
    let entry_type = m[a + off];
    let entry_length = m[a + off + 1] as int;
    lemma_le4(m, a + off + 4);
    lemma_le4(m, a + off + 8);
    let info = IoApicInfo {
        id: m[a + off + 2],
        address: le_at(m, a + off + 4, 4) as u64,
        gsi_base: le_at(m, a + off + 8, 4) as u32,
    };
    let entry = InterruptOverride {
        source_irq: m[a + off + 3],
        gsi: le_at(m, a + off + 4, 4) as u32,
        flags: le_at(m, a + off + 8, 2) as u16,
    };
    let is_io = entry_type == 1 && entry_length >= 12;
    let is_ov = !is_io && entry_type == 2 && entry_length >= 10 && m[a + off + 2] == 0;
    let io1 = if is_io { io.push(info) } else { io };
    let ov1 = if is_ov { ov.push(entry) } else { ov };
    let next = off + entry_length;
    assert(madt_walk(m, a, len, off, io, ov) == madt_walk(m, a, len, next, io1, ov1));
    lemma_walk_entries(m, a, len, next, io1, ov1);
    let r = madt_walk(m, a, len, off, io, ov)->Ok_0;
    if off == o {
        if is_io {
            assert(r.0[io.len() as int] == io1[io.len() as int]);
            assert(ioapic_entry_in(m, a, o, r.0[io.len() as int]));
        }
        if is_ov {
            assert(r.1[ov.len() as int] == ov1[ov.len() as int]);
            assert(override_entry_in(m, a, o, r.1[ov.len() as int]));
        }
    } else {
        lemma_walk_complete(m, a, len, next, io1, ov1, o);
    }
}

/// Every I/O APIC entry and every ISA Interrupt Source Override entry that
/// the MADT's entry chain holds is in what a parse of it gives: the
/// override read off such an entry takes its source IRQ from byte 3.
pub proof fn law_madt_keeps_every_entry(m: Seq<u8>, a: int, len: int, o: int)
    requires
        madt_topology(m, a, len) is Ok,
        entry_chain(m, a, len, 44, o),
        o + 2 <= len,
    ensures
        ({
            let t = madt_topology(m, a, len)->Ok_0;
            &&& m[a + o] == 1 && m[a + o + 1] >= 12 ==> holds_ioapic_entry(m, a, o, t.1)
            &&& m[a + o] == 2 && m[a + o + 1] >= 10 && m[a + o + 2] == 0 ==> holds_override_entry(m, a, o, t.2)
        }),
{
    lemma_walk_complete(m, a, len, 44, Seq::empty(), Seq::empty(), o);
}

/// What a MADT parse gives is read off the table by the ACPI entry layout:
/// the local APIC address is the little-endian word at byte 36, each I/O
/// APIC is an I/O APIC entry (type 1) of the table, and each override is an
/// ISA Interrupt Source Override entry (type 2, bus 0) of the table, whose
/// source IRQ is the entry's byte 3.
pub proof fn law_madt_entries_follow_layout(m: Seq<u8>, a: int, len: int)
    requires
        madt_topology(m, a, len) is Ok,
    ensures
        ({
            let t = madt_topology(m, a, len)->Ok_0;
            &&& t.0 == m[a + 36] + 0x100 * m[a + 37] + 0x1_0000 * m[a + 38] + 0x100_0000 * m[a + 39]
            &&& forall|i: int| 0 <= i < t.1.len() ==> ioapic_from_table(m, a, len, 44, #[trigger] t.1[i])
            &&& forall|i: int| 0 <= i < t.2.len() ==> override_from_table(m, a, len, 44, #[trigger] t.2[i])
        }),
{
    lemma_walk_entries(m, a, len, 44, Seq::empty(), Seq::empty());
    lemma_le4(m, a + 36);
}

} // verus!
