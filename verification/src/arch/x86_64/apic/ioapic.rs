//! I/O APIC redirection programming. The register accesses themselves are
//! MMIO; here each operation yields the register writes it performs, in
//! order, and decodes the registers it reads.
use vstd::prelude::*;
use crate::mm::frame::PhysAddr;
use crate::mm::paging::{identity, phys_to_virt, KERNEL_VIRT_BASE};

verus! {

pub const IOAPIC_ID: u32 = 0x00;
pub const IOAPIC_VERSION: u32 = 0x01;
pub const IOAPIC_REDTBL_BASE: u32 = 0x10;
pub const REDTBL_MASKED: u32 = 0x1_0000;

/// One write of `value` to I/O APIC register `register`.
#[derive(Debug, Clone, Copy, PartialEq, Eq, Structural)]
pub struct RegisterWrite {
    pub register: u32,
    pub value: u32,
}

/// The low word of a redirection entry: the vector, active-low polarity and
/// level trigger where the MADT flags say so, and the mask bit.
pub open spec fn redirection_low(vector: u8, flags: u16, masked: bool) -> u32 {
    (vector + (if flags & 0x3 == 0x3 { 0x2000int } else { 0 }) + (if flags & 0xC == 0xC {
        0x8000int
    } else {
        0
    }) + (if masked { 0x1_0000int } else { 0 })) as u32
}

/// The writes that program redirection entry `irq`: the high word (the
/// destination APIC) first, then the low word.
pub open spec fn redirection_writes(irq: u8, vector: u8, dest_apic_id: u8, flags: u16, masked: bool) -> Seq<
    RegisterWrite,
> {
    seq![
        RegisterWrite { register: (IOAPIC_REDTBL_BASE + irq * 2 + 1) as u32, value: (dest_apic_id * 0x100_0000) as u32 },
        RegisterWrite { register: (IOAPIC_REDTBL_BASE + irq * 2) as u32, value: redirection_low(vector, flags, masked) },
    ]
}

/// Entries `0..n` masked, each routed to vector `0xFF`.
pub open spec fn mask_all_writes(n: nat, dest_apic_id: u8) -> Seq<RegisterWrite>
    decreases n,
{
    if n == 0 {
        Seq::empty()
    } else {
        mask_all_writes((n - 1) as nat, dest_apic_id) + redirection_writes(
            (n - 1) as u8,
            0xFF,
            dest_apic_id,
            0,
            true,
        )
    }
}

/// An I/O APIC by its physical base and the address it is reached through.
#[derive(Debug, Clone, Copy, PartialEq, Eq, Structural)]
pub struct IoApic {
    pub physical_base_addr: u64,
    pub mapped_base_addr: u64,
}

impl IoApic {
    pub open spec fn new_spec() -> Self {
        IoApic { physical_base_addr: 0, mapped_base_addr: 0 }
    }

    /// An I/O APIC with no address yet.
    pub fn new() -> (r: Self)
        ensures
            r == Self::new_spec(),
    {
        IoApic { physical_base_addr: 0, mapped_base_addr: 0 }
    }

    /// The APIC ID in the ID register's value.
    pub fn id(id_register: u32) -> (r: u32)
        ensures
            r == id_register / 0x100_0000,
    {
        proof {
            assert((id_register >> 24u32) & 0xFF == id_register / 0x100_0000) by (bit_vector);
        }
        (id_register >> 24) & 0xFF
    }

    /// The version in the version register's value.
    pub fn version(version_register: u32) -> (r: u32)
        ensures
            r == version_register % 0x100,
    {
        proof {
            assert(version_register & 0xFF == version_register % 0x100) by (bit_vector);
        }
        version_register & 0xFF
    }

    /// The number of redirection entries in the version register's value.
    pub fn max_redirection_entries(version_register: u32) -> (r: u32)
        ensures
            r == (version_register / 0x1_0000) % 0x100 + 1,
    {
        proof {
            assert((version_register >> 16u32) & 0xFF == (version_register / 0x1_0000) % 0x100) by (bit_vector);
        }
        ((version_register >> 16) & 0xFF) + 1
    }

    pub fn base_address(&self) -> (r: u64)
        ensures
            r == self.physical_base_addr,
    {
        self.physical_base_addr
    }

    /// Places the I/O APIC at physical `address`, reached through the
    /// identity map on BIOS machines and through the direct map otherwise.
    pub fn set_base_address(&mut self, address: u64, prefer_identity: bool)
        requires
            !prefer_identity ==> KERNEL_VIRT_BASE + address <= u64::MAX,
        ensures
            final(self).physical_base_addr == address,
            final(self).mapped_base_addr == (if prefer_identity { address as int } else { KERNEL_VIRT_BASE + address }),
    {
        self.physical_base_addr = address;
        self.mapped_base_addr = if prefer_identity {
            identity(PhysAddr(address)).0
        } else {
            phys_to_virt(PhysAddr(address)).0
        };
    }

    /// The writes that route entry `irq` to `vector` on `dest_apic_id`.
    pub fn set_redirection(&self, irq: u8, vector: u8, dest_apic_id: u8, masked: bool) -> (r: Vec<RegisterWrite>)
        ensures
            r@ == redirection_writes(irq, vector, dest_apic_id, 0, masked),
    {
        let mut r = Vec::new();
        append_redirection(&mut r, irq, vector, dest_apic_id, 0, masked);
        proof {
            assert(r@ =~= redirection_writes(irq, vector, dest_apic_id, 0, masked));
        }
        r
    }

    /// The writes that route entry `irq` to `vector` on `dest_apic_id` with
    /// the polarity and trigger mode of the MADT `flags`.
    pub fn set_redirection_with_flags(&self, irq: u8, vector: u8, dest_apic_id: u8, flags: u16, masked: bool) -> (r:
        Vec<RegisterWrite>)
        ensures
            r@ == redirection_writes(irq, vector, dest_apic_id, flags, masked),
    {
        let mut r = Vec::new();
        append_redirection(&mut r, irq, vector, dest_apic_id, flags, masked);
        proof {
            assert(r@ =~= redirection_writes(irq, vector, dest_apic_id, flags, masked));
        }
        r
    }

    /// The write that masks redirection entry `index`, the timer's: its low
    /// word with the timer vector `0x20` and the mask bit set.
    pub fn mask_timer_irq(&self, index: u8) -> (r: Vec<RegisterWrite>)
        ensures
            r@ == seq![
                RegisterWrite { register: (IOAPIC_REDTBL_BASE + index * 2) as u32, value: redirection_low(0x20, 0, true) },
            ],
    {
        let low = redirection_low_word(0x20, 0, true);
        let mut r = Vec::new();
        r.push(RegisterWrite { register: IOAPIC_REDTBL_BASE + (index as u32) * 2, value: low });
        proof {
            assert(r@ =~= seq![
                RegisterWrite { register: (IOAPIC_REDTBL_BASE + index * 2) as u32, value: redirection_low(0x20, 0, true) },
            ]);
        }
        r
    }

    /// Masks every entry, then routes the timer to vector `0x20` and the
    /// keyboard to `0x21`, given the entry count read from the version
    /// register.
    pub fn init(
        &self,
        max_entries: u32,
        dest_apic_id: u8,
        gsi_base: u32,
        timer_gsi: u32,
        timer_flags: u16,
        keyboard_gsi: u32,
        keyboard_flags: u16,
    ) -> (r: Result<Vec<RegisterWrite>, &'static str>)
        ensures
            (max_entries == 0 || max_entries > 240) ==> (r matches Err(e) && e@
                == "Invalid IOAPIC max redirection entries detected"@),
            (1 <= max_entries <= 240 && timer_gsi < gsi_base) ==> (r matches Err(e) && e@ == "Invalid timer GSI"@),
            (1 <= max_entries <= 240 && timer_gsi >= gsi_base && keyboard_gsi < gsi_base) ==> (r matches Err(e)
                && e@ == "Invalid keyboard GSI"@),
            (1 <= max_entries <= 240 && timer_gsi >= gsi_base && keyboard_gsi >= gsi_base && (timer_gsi - gsi_base
                >= max_entries || keyboard_gsi - gsi_base >= max_entries)) ==> (r matches Err(e) && e@
                == "MADT GSI is outside the selected IOAPIC range"@),
            (1 <= max_entries <= 240 && gsi_base <= timer_gsi < gsi_base + max_entries && gsi_base <= keyboard_gsi
                < gsi_base + max_entries) ==> (r matches Ok(w) && w@ == mask_all_writes(max_entries as nat, dest_apic_id)
                + redirection_writes((timer_gsi - gsi_base) as u8, 0x20, dest_apic_id, timer_flags, false)
                + redirection_writes((keyboard_gsi - gsi_base) as u8, 0x21, dest_apic_id, keyboard_flags, false)),
    {
        if max_entries == 0 || max_entries > 240 {
            return Err("Invalid IOAPIC max redirection entries detected");
        }
        let timer_index = match timer_gsi.checked_sub(gsi_base) {
            Some(i) => i,
            None => {
                return Err("Invalid timer GSI");
            },
        };
        let keyboard_index = match keyboard_gsi.checked_sub(gsi_base) {
            Some(i) => i,
            None => {
                return Err("Invalid keyboard GSI");
            },
        };
        if timer_index >= max_entries || keyboard_index >= max_entries {
            return Err("MADT GSI is outside the selected IOAPIC range");
        }
        let mut writes = mask_all(max_entries as u8, dest_apic_id);
        let ghost masked = writes@;
        append_redirection(&mut writes, timer_index as u8, 0x20, dest_apic_id, timer_flags, false);
        let ghost with_timer = writes@;
        append_redirection(&mut writes, keyboard_index as u8, 0x21, dest_apic_id, keyboard_flags, false);
        proof {
            assert(with_timer =~= masked + redirection_writes(timer_index as u8, 0x20, dest_apic_id, timer_flags, false));
            assert(writes@ =~= masked + redirection_writes(timer_index as u8, 0x20, dest_apic_id, timer_flags, false)
                + redirection_writes(keyboard_index as u8, 0x21, dest_apic_id, keyboard_flags, false));
        }
        Ok(writes)
    }

    /// Masks every entry, then routes the one entry of `gsi` to `vector`.
    pub fn init_single(&self, max_entries: u32, dest_apic_id: u8, gsi_base: u32, gsi: u32, vector: u8, flags: u16) -> (r:
        Result<Vec<RegisterWrite>, &'static str>)
        ensures
            (max_entries == 0 || max_entries > 240) ==> (r matches Err(e) && e@
                == "Invalid IOAPIC max redirection entries detected"@),
            (1 <= max_entries <= 240 && gsi < gsi_base) ==> (r matches Err(e) && e@ == "Invalid GSI"@),
            (1 <= max_entries <= 240 && gsi >= gsi_base && gsi - gsi_base >= max_entries) ==> (r matches Err(e) && e@
                == "MADT GSI is outside the selected IOAPIC range"@),
            (1 <= max_entries <= 240 && gsi_base <= gsi < gsi_base + max_entries) ==> (r matches Ok(w) && w@
                == mask_all_writes(max_entries as nat, dest_apic_id) + redirection_writes(
                (gsi - gsi_base) as u8,
                vector,
                dest_apic_id,
                flags,
                false,
            )),
    {
        if max_entries == 0 || max_entries > 240 {
            return Err("Invalid IOAPIC max redirection entries detected");
        }
        let index = match gsi.checked_sub(gsi_base) {
            Some(i) => i,
            None => {
                return Err("Invalid GSI");
            },
        };
        if index >= max_entries {
            return Err("MADT GSI is outside the selected IOAPIC range");
        }
        let mut writes = mask_all(max_entries as u8, dest_apic_id);
        let ghost masked = writes@;
        append_redirection(&mut writes, index as u8, vector, dest_apic_id, flags, false);
        proof {
            assert(writes@ =~= masked + redirection_writes(index as u8, vector, dest_apic_id, flags, false));
        }
        Ok(writes)
    }
}

impl Default for IoApic {
    fn default() -> (r: Self)
        ensures
            r.physical_base_addr == 0,
            r.mapped_base_addr == 0,
    {
        Self::new()
    }
}

/// The low word of a redirection entry (see `redirection_low`).
pub fn redirection_low_word(vector: u8, flags: u16, masked: bool) -> (r: u32)
    ensures
        r == redirection_low(vector, flags, masked),
{
    let mut low: u32 = vector as u32;
    if flags & 0x3 == 0x3 {
        low = low + 0x2000;
    }
    if flags & 0xC == 0xC {
        low = low + 0x8000;
    }
    if masked {
        low = low + REDTBL_MASKED;
    }
    low
}

/// Appends the writes of one redirection entry.
fn append_redirection(writes: &mut Vec<RegisterWrite>, irq: u8, vector: u8, dest_apic_id: u8, flags: u16, masked: bool)
    ensures
        final(writes)@ == old(writes)@ + redirection_writes(irq, vector, dest_apic_id, flags, masked),
{
    let reg_low = IOAPIC_REDTBL_BASE + (irq as u32) * 2;
    let reg_high = reg_low + 1;
    let low = redirection_low_word(vector, flags, masked);
    let high: u32 = (dest_apic_id as u32) * 0x100_0000;
    let ghost before = writes@;
    writes.push(RegisterWrite { register: reg_high, value: high });
    writes.push(RegisterWrite { register: reg_low, value: low });
    proof {
        assert(writes@ =~= before + redirection_writes(irq, vector, dest_apic_id, flags, masked));
    }
}

/// The writes that mask entries `0..n`.
fn mask_all(n: u8, dest_apic_id: u8) -> (r: Vec<RegisterWrite>)
    ensures
        r@ == mask_all_writes(n as nat, dest_apic_id),
{
    let mut writes = Vec::new();
    let mut irq: u8 = 0;
    while irq < n
        invariant
            irq <= n,
            writes@ == mask_all_writes(irq as nat, dest_apic_id),
        decreases n - irq,
    {
        append_redirection(&mut writes, irq, 0xFF, dest_apic_id, 0, true);
        irq = irq + 1;
    }
    writes
}

} // verus!
