//! The interrupt descriptor table and its gate entries.
use vstd::prelude::*;

verus! {

/// Kernel code segment selector.
pub const KERNEL_CODE_SELECTOR: u16 = 0x08;

/// Present, 64-bit interrupt gate.
pub const INTERRUPT_GATE: u16 = 0x8E00;

/// Number of gates in the IDT.
pub const IDT_ENTRIES: usize = 256;

/// What the CPU pushes on an interrupt.
#[derive(Debug, Clone, Copy, PartialEq, Eq, Structural)]
pub struct InterruptStackFrame {
    pub instruction_pointer: u64,
    pub code_segment: u64,
    pub cpu_flags: u64,
    pub stack_pointer: u64,
    pub stack_segment: u64,
}

/// One gate of the IDT in its hardware layout.
#[derive(Debug, Clone, Copy, PartialEq, Eq, Structural)]
pub struct IdtEntry {
    pub pointer_low: u16,
    pub gdt_selector: u16,
    pub options: u16,
    pub pointer_middle: u16,
    pub pointer_high: u32,
    pub reserved: u32,
}

impl IdtEntry {
    /// The handler address held in the entry.
    pub open spec fn handler_addr(&self) -> int {
        self.pointer_low + self.pointer_middle * 0x1_0000 + self.pointer_high * 0x1_0000_0000
    }

    /// The interrupt stack index held in the entry (0: none).
    pub open spec fn stack_index(&self) -> u16 {
        self.options % 8
    }

    pub open spec fn is_missing(&self) -> bool {
        self.pointer_low == 0 && self.gdt_selector == 0 && self.options == 0 && self.pointer_middle == 0
            && self.pointer_high == 0 && self.reserved == 0
    }

    /// A gate that is not present.
    pub fn missing() -> (r: Self)
        ensures
            r.is_missing(),
    {
        IdtEntry { pointer_low: 0, gdt_selector: 0, options: 0, pointer_middle: 0, pointer_high: 0, reserved: 0 }
    }

    /// Points the entry at the handler at `addr`: present, 64-bit
    /// interrupt type, kernel code segment.
    pub fn set_handler_addr(&mut self, addr: u64)
        ensures
            final(self).handler_addr() == addr,
            final(self).gdt_selector == KERNEL_CODE_SELECTOR,
            final(self).options == INTERRUPT_GATE,
            final(self).reserved == 0,
    {
        let low = (addr % 0x1_0000) as u16;
        let middle = ((addr / 0x1_0000) % 0x1_0000) as u16;
        let high = (addr / 0x1_0000_0000) as u32;
        self.pointer_low = low;
        self.pointer_middle = middle;
        self.pointer_high = high;
        self.gdt_selector = KERNEL_CODE_SELECTOR;
        self.options = INTERRUPT_GATE;
        self.reserved = 0;
        proof {
            let a = addr as int;
            assert(a == a % 0x1_0000 + ((a / 0x1_0000) % 0x1_0000) * 0x1_0000 + (a / 0x1_0000_0000) * 0x1_0000_0000)
                by (nonlinear_arith)
                requires
                    a >= 0,
            ;
        }
    }

    /// Selects interrupt stack `index` for the entry (stored plus one;
    /// only the low three bits are kept).
    pub fn set_stack_index(&mut self, index: u16)
        requires
            index < u16::MAX,
        ensures
            final(self).stack_index() == (index + 1) % 8,
            final(self).options / 8 == old(self).options / 8,
            final(self).pointer_low == old(self).pointer_low,
            final(self).pointer_middle == old(self).pointer_middle,
            final(self).pointer_high == old(self).pointer_high,
            final(self).gdt_selector == old(self).gdt_selector,
            final(self).reserved == old(self).reserved,
    {
        let o = self.options;
        let i = index + 1;
        let v = (o & 0xFFF8) | (i & 0x07);
        proof {
            assert(((o & 0xFFF8) | (i & 0x07)) % 8 == i % 8) by (bit_vector);
            assert(((o & 0xFFF8) | (i & 0x07)) / 8 == o / 8) by (bit_vector);
        }
        self.options = v;
    }
}

/// The 256 gates of the IDT.
pub struct InterruptDescriptorTable {
    pub entries: Vec<IdtEntry>,
}

impl InterruptDescriptorTable {
    /// Every gate missing.
    pub fn new() -> (r: Self)
        ensures
            r.entries@.len() == IDT_ENTRIES,
            forall|i: int| 0 <= i < IDT_ENTRIES ==> (#[trigger] r.entries@[i]).is_missing(),
    {
        let entries = vec![IdtEntry::missing(); IDT_ENTRIES];
        InterruptDescriptorTable { entries }
    }

    /// Installs the handler at `addr` for `vector`, optionally on interrupt
    /// stack `stack`; the other gates stay.
    pub fn set_handler(&mut self, vector: u8, addr: u64, stack: Option<u16>)
        requires
            old(self).entries@.len() == IDT_ENTRIES,
            stack matches Some(s) ==> s < u16::MAX,
        ensures
            final(self).entries@.len() == IDT_ENTRIES,
            final(self).entries@[vector as int].handler_addr() == addr,
            final(self).entries@[vector as int].gdt_selector == KERNEL_CODE_SELECTOR,
            final(self).entries@[vector as int].options / 8 == INTERRUPT_GATE / 8,
            stack is None ==> final(self).entries@[vector as int].options == INTERRUPT_GATE,
            stack matches Some(s) ==> final(self).entries@[vector as int].stack_index() == (s + 1) % 8,
            forall|i: int| 0 <= i < IDT_ENTRIES && i != vector ==> #[trigger] final(self).entries@[i] == old(
                self,
            ).entries@[i],
    {
        let mut entry = self.entries[vector as usize];
        entry.set_handler_addr(addr);
        if let Some(s) = stack {
            entry.set_stack_index(s);
        }
        self.entries.set(vector as usize, entry);
    }
}

impl Default for InterruptDescriptorTable {
    fn default() -> (r: Self)
        ensures
            r.entries@.len() == IDT_ENTRIES,
            forall|i: int| 0 <= i < IDT_ENTRIES ==> (#[trigger] r.entries@[i]).is_missing(),
    {
        Self::new()
    }
}

} // verus!
