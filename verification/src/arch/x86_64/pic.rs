//! The legacy 8259 PIC pair, as the port writes each operation performs.
use vstd::prelude::*;

verus! {

pub const PIC_1_OFFSET: u8 = 32;
pub const PIC_2_OFFSET: u8 = 40;

pub const CMD_PIC1: u16 = 0x20;
pub const DATA_PIC1: u16 = 0x21;
pub const CMD_PIC2: u16 = 0xA0;
pub const DATA_PIC2: u16 = 0xA1;

pub const PIC_EOI: u8 = 0x20;
pub const ICW1_INIT: u8 = 0x11;
pub const ICW4_8086: u8 = 0x01;

/// The initialisation sequence: cascade mode, vector offsets 32 and 40,
/// slave on IRQ 2, 8086 mode, and both controllers left fully masked.
pub fn init_writes() -> (r: Vec<(u16, u8)>)
    ensures
        r@ == seq![
            (CMD_PIC1, ICW1_INIT),
            (CMD_PIC2, ICW1_INIT),
            (DATA_PIC1, PIC_1_OFFSET),
            (DATA_PIC2, PIC_2_OFFSET),
            (DATA_PIC1, 4u8),
            (DATA_PIC2, 2u8),
            (DATA_PIC1, ICW4_8086),
            (DATA_PIC2, ICW4_8086),
            (DATA_PIC1, 0xFFu8),
            (DATA_PIC2, 0xFFu8),
        ],
{
    vec![
        (CMD_PIC1, ICW1_INIT),
        (CMD_PIC2, ICW1_INIT),
        (DATA_PIC1, PIC_1_OFFSET),
        (DATA_PIC2, PIC_2_OFFSET),
        (DATA_PIC1, 4u8),
        (DATA_PIC2, 2u8),
        (DATA_PIC1, ICW4_8086),
        (DATA_PIC2, ICW4_8086),
        (DATA_PIC1, 0xFFu8),
        (DATA_PIC2, 0xFFu8),
    ]
}

/// Unmasks the timer, and the keyboard where the kernel has it.
pub fn unmask_legacy_irqs(keyboard: bool) -> (r: Vec<(u16, u8)>)
    ensures
        r@ == seq![(DATA_PIC1, if keyboard { 0xFCu8 } else { 0xFEu8 }), (DATA_PIC2, 0xFFu8)],
{
    let master_mask: u8 = if keyboard { 0xFC } else { 0xFE };
    vec![(DATA_PIC1, master_mask), (DATA_PIC2, 0xFFu8)]
}

/// Masks every legacy IRQ.
pub fn mask_all() -> (r: Vec<(u16, u8)>)
    ensures
        r@ == seq![(DATA_PIC1, 0xFFu8), (DATA_PIC2, 0xFFu8)],
{
    vec![(DATA_PIC1, 0xFFu8), (DATA_PIC2, 0xFFu8)]
}

/// Acknowledges interrupt `interrupt_id`: the slave too when the vector
/// came through it.
pub fn notify_end_of_interrupt(interrupt_id: u8) -> (r: Vec<(u16, u8)>)
    ensures
        interrupt_id >= PIC_2_OFFSET ==> r@ == seq![(CMD_PIC2, PIC_EOI), (CMD_PIC1, PIC_EOI)],
        interrupt_id < PIC_2_OFFSET ==> r@ == seq![(CMD_PIC1, PIC_EOI)],
{
    let mut r = Vec::new();
    if interrupt_id >= PIC_2_OFFSET {
        r.push((CMD_PIC2, PIC_EOI));
    }
    r.push((CMD_PIC1, PIC_EOI));
    proof {
        if interrupt_id >= PIC_2_OFFSET {
            assert(r@ =~= seq![(CMD_PIC2, PIC_EOI), (CMD_PIC1, PIC_EOI)]);
        } else {
            assert(r@ =~= seq![(CMD_PIC1, PIC_EOI)]);
        }
    }
    r
}

} // verus!
