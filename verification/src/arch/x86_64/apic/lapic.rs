//! Local APIC setup decisions and register values.
use vstd::prelude::*;
use crate::mm::frame::PhysAddr;
use crate::mm::paging::{identity, phys_to_virt, KERNEL_VIRT_BASE};

verus! {

pub const IA32_APIC_BASE_MSR: u32 = 0x1B;
pub const IA32_APIC_BASE_MSR_ENABLE: u64 = 0x800;
pub const IA32_APIC_BASE_MSR_ADDR_MASK: u64 = 0x000F_FFFF_FFFF_F000;

pub const REG_ID: u32 = 0x020;
pub const REG_VERSION: u32 = 0x030;
pub const REG_TPR: u32 = 0x080;
pub const REG_EOI: u32 = 0x0B0;
pub const REG_LDR: u32 = 0x0D0;
pub const REG_DFR: u32 = 0x0E0;
pub const REG_SVR: u32 = 0x0F0;
pub const REG_ESR: u32 = 0x280;
pub const REG_LVT_TIMER: u32 = 0x320;
pub const REG_LVT_LINT0: u32 = 0x350;
pub const REG_LVT_LINT1: u32 = 0x360;
pub const REG_LVT_ERROR: u32 = 0x370;

pub const SVR_APIC_ENABLE: u32 = 0x100;
pub const SPURIOUS_INTERRUPT_VECTOR: u8 = 0xFF;
pub const LVT_MASKED: u32 = 0x1_0000;

/// A local APIC by its physical base and the address it is reached through.
#[derive(Debug, Clone, Copy, PartialEq, Eq, Structural)]
pub struct LocalApic {
    pub physical_base_addr: u64,
    pub mapped_base_addr: u64,
}

/// The MSR base field of `msr`.
pub open spec fn msr_base(msr: u64) -> u64 {
    msr & IA32_APIC_BASE_MSR_ADDR_MASK
}

impl LocalApic {
    pub open spec fn new_spec() -> Self {
        LocalApic { physical_base_addr: 0, mapped_base_addr: 0 }
    }

    /// A local APIC with no address yet.
    pub fn new() -> (r: Self)
        ensures
            r == Self::new_spec(),
    {
        LocalApic { physical_base_addr: 0, mapped_base_addr: 0 }
    }

    /// CPUID leaf 1 reports an APIC (EDX bit 9).
    pub fn is_supported(cpuid_edx: u32) -> (r: bool)
        ensures
            r == (cpuid_edx & 0x200 != 0),
    {
        (cpuid_edx & 0x200) != 0
    }

    /// Decides how to bring up the APIC given CPUID support and the value of
    /// `IA32_APIC_BASE`: `Ok(Some(v))` when `v` must be written back to set
    /// the global enable bit, `Ok(None)` when it is set already.
    pub fn init(&self, supported: bool, apic_base_msr: u64) -> (r: Result<Option<u64>, &'static str>)
        ensures
            !supported ==> (r matches Err(e) && e@ == "CPUID reports APIC is not supported"@),
            supported && self.physical_base_addr == 0 ==> (r matches Err(e) && e@
                == "APIC base address was not supplied by ACPI MADT"@),
            supported && self.physical_base_addr != 0 && msr_base(apic_base_msr) != 0 && msr_base(apic_base_msr)
                != self.physical_base_addr ==> (r matches Err(e) && e@ == "ACPI LAPIC base disagrees with IA32_APIC_BASE"@),
            supported && self.physical_base_addr != 0 && (msr_base(apic_base_msr) == 0 || msr_base(apic_base_msr)
                == self.physical_base_addr) ==> r == Ok::<Option<u64>, &'static str>(
                if apic_base_msr & IA32_APIC_BASE_MSR_ENABLE == 0 {
                    Some(apic_base_msr | IA32_APIC_BASE_MSR_ENABLE)
                } else {
                    None
                },
            ),
    {
        if !supported {
            return Err("CPUID reports APIC is not supported");
        }
        let base = apic_base_msr & IA32_APIC_BASE_MSR_ADDR_MASK;
        if self.physical_base_addr == 0 {
            return Err("APIC base address was not supplied by ACPI MADT");
        }
        if base != 0 && base != self.physical_base_addr {
            return Err("ACPI LAPIC base disagrees with IA32_APIC_BASE");
        }
        if apic_base_msr & IA32_APIC_BASE_MSR_ENABLE == 0 {
            Ok(Some(apic_base_msr | IA32_APIC_BASE_MSR_ENABLE))
        } else {
            Ok(None)
        }
    }

    /// The logical destination register for flat mode, logical ID 1.
    pub fn flat_ldr(ldr: u32) -> (r: u32)
        ensures
            r == (ldr & 0x00FF_FFFF) | 0x0100_0000,
    {
        (ldr & 0x00FF_FFFF) | 0x0100_0000
    }

    /// The spurious-vector register value that software-enables the APIC.
    pub fn svr_value() -> (r: u32)
        ensures
            r == SVR_APIC_ENABLE + SPURIOUS_INTERRUPT_VECTOR,
    {
        SVR_APIC_ENABLE + SPURIOUS_INTERRUPT_VECTOR as u32
    }

    /// Places the local APIC at physical `address`, reached through the
    /// identity map on BIOS machines and through the direct map otherwise.
    pub fn set_base_address(&mut self, address: u64, prefer_identity: bool)
        requires
            !prefer_identity ==> KERNEL_VIRT_BASE + address <= u64::MAX,
        ensures
            final(self).physical_base_addr == address,
            final(self).mapped_base_addr == (if prefer_identity { address as int } else { KERNEL_VIRT_BASE + address }),
    {
        self.physical_base_addr = address;
        self.mapped_base_addr = if prefer_identity {
            identity(PhysAddr(address)).0
        } else {
            phys_to_virt(PhysAddr(address)).0
        };
    }

    /// The APIC ID in the ID register's value.
    pub fn id(id_register: u32) -> (r: u32)
        ensures
            r == id_register / 0x100_0000,
    {
        proof {
            assert((id_register >> 24u32) & 0xFF == id_register / 0x100_0000) by (bit_vector);
        }
        (id_register >> 24) & 0xFF
    }

    /// The version in the version register's value.
    pub fn version(version_register: u32) -> (r: u32)
        ensures
            r == version_register % 0x100,
    {
        proof {
            assert(version_register & 0xFF == version_register % 0x100) by (bit_vector);
        }
        version_register & 0xFF
    }

    pub fn base_address(&self) -> (r: u64)
        ensures
            r == self.physical_base_addr,
    {
        self.physical_base_addr
    }
}

impl Default for LocalApic {
    fn default() -> (r: Self)
        ensures
            r.physical_base_addr == 0,
            r.mapped_base_addr == 0,
    {
        Self::new()
    }
}

} // verus!
