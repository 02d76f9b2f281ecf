//! Values the CPU helpers compute around their instructions.
use vstd::prelude::*;

verus! {

/// The extended-feature-enable MSR.
pub const EFER: u32 = 0xc000_0080;

/// No-execute enable in EFER.
pub const EFER_NXE: u64 = 0x800;

/// Interrupts are enabled in `rflags` (IF, bit 9).
pub fn interrupts_enabled(rflags: u64) -> (r: bool)
    ensures
        r == (rflags & 0x200 != 0),
{
    rflags & 0x200 != 0
}

/// The MSR value read back as `edx:eax`.
pub fn msr_value(low: u32, high: u32) -> (r: u64)
    ensures
        r == high as int * 0x1_0000_0000 + low as int,
{
    proof {
        assert(((high as u64) << 32u64) | (low as u64) == (high as u64) * 0x1_0000_0000 + (low as u64))
            by (bit_vector);
    }
    ((high as u64) << 32) | (low as u64)
}

/// The `eax` and `edx` halves written for MSR value `value`.
pub fn msr_halves(value: u64) -> (r: (u32, u32))
    ensures
        r.0 == value % 0x1_0000_0000,
        r.1 == value / 0x1_0000_0000,
        r.1 as int * 0x1_0000_0000 + r.0 as int == value,
{
    let low = (value % 0x1_0000_0000) as u32;
    let high = (value / 0x1_0000_0000) as u32;
    (low, high)
}

/// The EFER value to write so that no-execute page bits take effect, or
/// `None` where the CPU lacks them (`extended_max` below `0x8000_0001` or
/// bit 20 of that leaf's EDX clear) or EFER has them on already.
pub fn enable_nxe(extended_max: u32, extended_edx: u32, efer: u64) -> (r: Option<u64>)
    ensures
        (extended_max < 0x8000_0001 || extended_edx & 0x10_0000 == 0) ==> r is None,
        !(extended_max < 0x8000_0001 || extended_edx & 0x10_0000 == 0) ==> r == (if efer & EFER_NXE == 0 {
            Some(efer | EFER_NXE)
        } else {
            None::<u64>
        }),
{
    if extended_max < 0x8000_0001 || extended_edx & 0x10_0000 == 0 {
        return None;
    }
    if efer & EFER_NXE == 0 {
        Some(efer | EFER_NXE)
    } else {
        None
    }
}

} // verus!
