//! The 64-bit GDT: kernel code and data segments and the TSS descriptor.
use vstd::prelude::*;

verus! {

pub const DOUBLE_FAULT_IST_INDEX: u16 = 0;

/// Size of the task-state segment in bytes.
pub const TSS_SIZE: u16 = 104;

/// Size of the double-fault stack.
pub const STACK_SIZE: u64 = 0x4000;

/// The 64-bit task-state segment.
#[derive(Debug, Clone, Copy)]
pub struct TaskStateSegment {
    pub privilege_stack_table: [u64; 3],
    pub interrupt_stack_table: [u64; 7],
    pub iomap_base: u16,
}

impl TaskStateSegment {
    /// Empty stack tables; the I/O map base at the end of the segment (no
    /// I/O permission bitmap).
    pub fn new() -> (r: Self)
        ensures
            forall|i: int| 0 <= i < 3 ==> r.privilege_stack_table@[i] == 0,
            forall|i: int| 0 <= i < 7 ==> r.interrupt_stack_table@[i] == 0,
            r.iomap_base == TSS_SIZE,
    {
        TaskStateSegment { privilege_stack_table: [0; 3], interrupt_stack_table: [0; 7], iomap_base: TSS_SIZE }
    }

    /// Points interrupt stack `index` at the end of a stack that starts at
    /// `stack_start`.
    pub fn set_interrupt_stack(&mut self, index: u16, stack_start: u64)
        requires
            index < 7,
            stack_start + STACK_SIZE <= u64::MAX,
        ensures
            final(self).interrupt_stack_table@ == old(self).interrupt_stack_table@.update(
                index as int,
                (stack_start + STACK_SIZE) as u64,
            ),
            final(self).privilege_stack_table == old(self).privilege_stack_table,
            final(self).iomap_base == old(self).iomap_base,
    {
        self.interrupt_stack_table[index as usize] = stack_start + STACK_SIZE;
    }
}

impl Default for TaskStateSegment {
    fn default() -> (r: Self)
        ensures
            r.iomap_base == TSS_SIZE,
    {
        Self::new()
    }
}

/// Kernel code: executable, code/data, present, long mode.
pub const KERNEL_CODE_DESCRIPTOR: u64 = 0x0020_9A00_0000_0000;
/// Kernel data: writable, code/data, present.
pub const KERNEL_DATA_DESCRIPTOR: u64 = 0x0000_9200_0000_0000;

/// The two words of the TSS descriptor for a segment at `base` whose last
/// byte is at offset `limit`.
pub fn tss_descriptor(base: u64, limit: u64) -> (r: (u64, u64))
    ensures
        tss_fields(base, limit, r),
{
    let mut low: u64 = limit & 0xFFFF;
    low = low | ((base & 0x00FF_FFFF) << 16);
    low = low | 0x0000_8900_0000_0000;
    low = low | (((limit >> 16) & 0x0F) << 48);
    low = low | (((base >> 24) & 0xFF) << 56);
    proof {
        lemma_tss_layout(base, limit, low);
        assert(base >> 32u64 == base / 0x1_0000_0000) by (bit_vector);
    }
    (low, base >> 32)
}

/// The five GDT entries: null, kernel code (selector `0x08`), kernel data
/// (`0x10`) and the two words of the TSS descriptor (`0x18`) for the TSS at
/// `tss_base`.
pub fn gdt_entries(tss_base: u64) -> (r: Vec<u64>)
    ensures
        r@.len() == 5,
        r@[0] == 0,
        r@[1] == KERNEL_CODE_DESCRIPTOR,
        r@[2] == KERNEL_DATA_DESCRIPTOR,
        tss_fields(tss_base, (TSS_SIZE - 1) as u64, (r@[3], r@[4])),
{
    let (low, high) = tss_descriptor(tss_base, TSS_SIZE as u64 - 1);
    vec![0, KERNEL_CODE_DESCRIPTOR, KERNEL_DATA_DESCRIPTOR, low, high]
}

/// The words `d` hold `base` and `limit` in the TSS descriptor layout.
pub open spec fn tss_fields(base: u64, limit: u64, d: (u64, u64)) -> bool {
    &&& d.0 % 0x1_0000 == limit % 0x1_0000
    &&& (d.0 / 0x1_0000) % 0x100_0000 == base % 0x100_0000
    &&& (d.0 / 0x100_0000_0000) % 0x100 == 0x89
    &&& (d.0 / 0x1_0000_0000_0000) % 0x10 == (limit / 0x1_0000) % 0x10
    &&& (d.0 / 0x10_0000_0000_0000) % 0x10 == 0
    &&& d.0 / 0x100_0000_0000_0000 == (base / 0x100_0000) % 0x100
    &&& d.1 == base / 0x1_0000_0000
}

proof fn lemma_tss_layout(b: u64, l: u64, v: u64)
    requires
        v == (((((l & 0xFFFF) | ((b & 0x00FF_FFFF) << 16u64)) | 0x0000_8900_0000_0000u64) | (((l >> 16u64) & 0x0F)
            << 48u64)) | (((b >> 24u64) & 0xFF) << 56u64)),
    ensures
        v % 0x1_0000 == l % 0x1_0000,
        (v / 0x1_0000) % 0x100_0000 == b % 0x100_0000,
        (v / 0x100_0000_0000) % 0x100 == 0x89,
        (v / 0x1_0000_0000_0000) % 0x10 == (l / 0x1_0000) % 0x10,
        (v / 0x10_0000_0000_0000) % 0x10 == 0,
        v / 0x100_0000_0000_0000 == (b / 0x100_0000) % 0x100,
{
    assert(v % 0x1_0000 == l % 0x1_0000) by (bit_vector)
        requires
            v == (((((l & 0xFFFF) | ((b & 0x00FF_FFFF) << 16u64)) | 0x0000_8900_0000_0000u64) | (((l >> 16u64)
                & 0x0F) << 48u64)) | (((b >> 24u64) & 0xFF) << 56u64)),
    ;
    assert((v / 0x1_0000) % 0x100_0000 == b % 0x100_0000) by (bit_vector)
        requires
            v == (((((l & 0xFFFF) | ((b & 0x00FF_FFFF) << 16u64)) | 0x0000_8900_0000_0000u64) | (((l >> 16u64)
                & 0x0F) << 48u64)) | (((b >> 24u64) & 0xFF) << 56u64)),
    ;
    assert((v / 0x100_0000_0000) % 0x100 == 0x89) by (bit_vector)
        requires
            v == (((((l & 0xFFFF) | ((b & 0x00FF_FFFF) << 16u64)) | 0x0000_8900_0000_0000u64) | (((l >> 16u64)
                & 0x0F) << 48u64)) | (((b >> 24u64) & 0xFF) << 56u64)),
    ;
    assert((v / 0x1_0000_0000_0000) % 0x10 == (l / 0x1_0000) % 0x10) by (bit_vector)
        requires
            v == (((((l & 0xFFFF) | ((b & 0x00FF_FFFF) << 16u64)) | 0x0000_8900_0000_0000u64) | (((l >> 16u64)
                & 0x0F) << 48u64)) | (((b >> 24u64) & 0xFF) << 56u64)),
    ;
    assert((v / 0x10_0000_0000_0000) % 0x10 == 0) by (bit_vector)
        requires
            v == (((((l & 0xFFFF) | ((b & 0x00FF_FFFF) << 16u64)) | 0x0000_8900_0000_0000u64) | (((l >> 16u64)
                & 0x0F) << 48u64)) | (((b >> 24u64) & 0xFF) << 56u64)),
    ;
    assert(v / 0x100_0000_0000_0000 == (b / 0x100_0000) % 0x100) by (bit_vector)
        requires
            v == (((((l & 0xFFFF) | ((b & 0x00FF_FFFF) << 16u64)) | 0x0000_8900_0000_0000u64) | (((l >> 16u64)
                & 0x0F) << 48u64)) | (((b >> 24u64) & 0xFF) << 56u64)),
    ;
}

} // verus!
