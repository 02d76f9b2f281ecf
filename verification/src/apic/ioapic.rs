//! The first I/O APIC driver: a fixed base address, legacy IRQs routed one
//! to one onto vectors from `0x20`.
use vstd::prelude::*;
use crate::arch::x86_64::apic::ioapic::{redirection_writes, IoApic as RoutedIoApic, RegisterWrite};

verus! {

pub const DEFAULT_IOAPIC_BASE: u64 = 0xFEC0_0000;

/// Entries `0..n` masked, entry `i` on vector `0x20 + i`.
pub open spec fn mask_all_identity_writes(n: nat, dest_apic_id: u8) -> Seq<RegisterWrite>
    decreases n,
{
    if n == 0 {
        Seq::empty()
    } else {
        mask_all_identity_writes((n - 1) as nat, dest_apic_id) + redirection_writes(
            (n - 1) as u8,
            (0x20 + n - 1) as u8,
            dest_apic_id,
            0,
            true,
        )
    }
}

/// An I/O APIC at a fixed physical address, reached through the identity map.
#[derive(Debug, Clone, Copy, PartialEq, Eq, Structural)]
pub struct IoApic {
    pub base_addr: u64,
}

impl IoApic {
    /// The I/O APIC at the default address.
    pub fn new() -> (r: Self)
        ensures
            r.base_addr == DEFAULT_IOAPIC_BASE,
    {
        IoApic { base_addr: DEFAULT_IOAPIC_BASE }
    }

    pub fn base_address(&self) -> (r: u64)
        ensures
            r == self.base_addr,
    {
        self.base_addr
    }

    /// The writes that route entry `irq` to `vector` on `dest_apic_id`.
    pub fn set_redirection(&self, irq: u8, vector: u8, dest_apic_id: u8, masked: bool) -> (r: Vec<RegisterWrite>)
        ensures
            r@ == redirection_writes(irq, vector, dest_apic_id, 0, masked),
    {
        RoutedIoApic::new().set_redirection(irq, vector, dest_apic_id, masked)
    }

    /// Masks every entry (entry `i` on vector `0x20 + i`, which must stay a
    /// byte), then unmasks the
    /// timer on `0x20` and the keyboard on `0x21`, given the entry count
    /// read from the version register.
    pub fn init(&self, max_entries: u32, dest_apic_id: u8) -> (r: Result<Vec<RegisterWrite>, &'static str>)
        requires
            max_entries <= 224 || max_entries > 240,
        ensures
            (max_entries == 0 || max_entries > 240) ==> (r matches Err(e) && e@
                == "Invalid IOAPIC max redirection entries detected"@),
            1 <= max_entries <= 240 ==> (r matches Ok(w) && w@ == mask_all_identity_writes(
                max_entries as nat,
                dest_apic_id,
            ) + redirection_writes(0, 0x20, dest_apic_id, 0, false) + redirection_writes(
                1,
                0x21,
                dest_apic_id,
                0,
                false,
            )),
    {
        if max_entries == 0 || max_entries > 240 {
            return Err("Invalid IOAPIC max redirection entries detected");
        }
        let n = max_entries as u8;
        let mut writes: Vec<RegisterWrite> = Vec::new();
        let mut irq: u8 = 0;
        while irq < n
            invariant
                irq <= n,
                n <= 224,
                writes@ == mask_all_identity_writes(irq as nat, dest_apic_id),
            decreases n - irq,
        {
            let entry = self.set_redirection(irq, 0x20 + irq, dest_apic_id, true);
            let ghost before = writes@;
            let mut e = entry;
            writes.append(&mut e);
            proof {
                assert(writes@ =~= before + redirection_writes(irq, (0x20 + irq) as u8, dest_apic_id, 0, true));
            }
            irq = irq + 1;
        }
        let ghost masked = writes@;
        let mut timer = self.set_redirection(0, 0x20, dest_apic_id, false);
        writes.append(&mut timer);
        let mut keyboard = self.set_redirection(1, 0x21, dest_apic_id, false);
        writes.append(&mut keyboard);
        proof {
            assert(writes@ =~= masked + redirection_writes(0, 0x20, dest_apic_id, 0, false) + redirection_writes(
                1,
                0x21,
                dest_apic_id,
                0,
                false,
            ));
        }
        Ok(writes)
    }
}

impl Default for IoApic {
    fn default() -> (r: Self)
        ensures
            r.base_addr == DEFAULT_IOAPIC_BASE,
    {
        Self::new()
    }
}

} // verus!
