//! The text the shell commands print, as bytes.
use vstd::prelude::*;
use crate::arch::x86_64::interrupt_controller::ControllerKind;
use vstd::string::StringSliceAdditionalSpecFns;

verus! {

/// The ASCII digit of `d` in base 16 (lower case past 9).
pub open spec fn hex_digit(d: nat) -> u8 {
    if d < 10 {
        (0x30 + d) as u8
    } else {
        (0x57 + d) as u8
    }
}

/// `v` written in decimal, no leading zeros.
pub open spec fn dec_digits(v: nat) -> Seq<u8>
    decreases v,
{
    if v < 10 {
        seq![(0x30 + v) as u8]
    } else {
        dec_digits(v / 10).push((0x30 + v % 10) as u8)
    }
}

/// `v` written in hexadecimal, no leading zeros.
pub open spec fn hex_digits(v: nat) -> Seq<u8>
    decreases v,
{
    if v < 16 {
        seq![hex_digit(v)]
    } else {
        hex_digits(v / 16).push(hex_digit(v % 16))
    }
}

/// `v` written as `0x` and its hexadecimal digits.
pub open spec fn hex_text(v: nat) -> Seq<u8> {
    seq![0x30u8, 0x78u8] + hex_digits(v)
}

/// Appends the bytes of `s`.
fn push_text(out: &mut Vec<u8>, s: &str)
    ensures
        final(out)@ == old(out)@ + s.spec_bytes(),
{
    let b = s.as_bytes();
    let ghost start = out@;
    let mut i: usize = 0;
    while i < b.len()
        invariant
            i <= b@.len(),
            b@ == s.spec_bytes(),
            out@ == start + b@.subrange(0, i as int),
        decreases b@.len() - i,
    {
        out.push(b[i]);
        proof {
            assert(out@ =~= start + b@.subrange(0, i + 1));
        }
        i = i + 1;
    }
    proof {
        assert(b@.subrange(0, b@.len() as int) =~= b@);
    }
}

/// Appends `v` in decimal.
fn push_dec(out: &mut Vec<u8>, v: u64)
    ensures
        final(out)@ == old(out)@ + dec_digits(v as nat),
    decreases v,
{
    if v >= 10 {
        push_dec(out, v / 10);
    }
    let ghost mid = out@;
    out.push((0x30 + v % 10) as u8);
    proof {
        if v >= 10 {
            assert(out@ =~= old(out)@ + dec_digits(v as nat));
        } else {
            assert(out@ =~= old(out)@ + dec_digits(v as nat));
        }
    }
}

/// Appends `v` in hexadecimal.
fn push_hex(out: &mut Vec<u8>, v: u64)
    ensures
        final(out)@ == old(out)@ + hex_digits(v as nat),
    decreases v,
{
    if v >= 16 {
        push_hex(out, v / 16);
    }
    let d = v % 16;
    let c: u8 = if d < 10 {
        (0x30 + d) as u8
    } else {
        (0x57 + d) as u8
    };
    out.push(c);
    proof {
        assert(out@ =~= old(out)@ + hex_digits(v as nat));
    }
}

/// Appends `0x` and `v` in hexadecimal.
fn push_hex_text(out: &mut Vec<u8>, v: u64)
    ensures
        final(out)@ == old(out)@ + hex_text(v as nat),
{
    out.push(0x30);
    out.push(0x78);
    let ghost mid = out@;
    push_hex(out, v);
    proof {
        assert(out@ =~= old(out)@ + hex_text(v as nat));
    }
}

/// What a line that names no command prints: `Echo: ` and the line.
pub open spec fn echo_text(line: Seq<u8>) -> Seq<u8> {
    "Echo: ".spec_bytes() + line
}

/// The text echoed for a line that names no command.
pub fn echo_output(line: &[u8]) -> (r: Vec<u8>)
    ensures
        r@ == echo_text(line@),
{
    let mut out = Vec::new();
    push_text(&mut out, "Echo: ");
    let ghost mid = out@;
    let mut i: usize = 0;
    while i < line.len()
        invariant
            i <= line@.len(),
            out@ == mid + line@.subrange(0, i as int),
        decreases line@.len() - i,
    {
        out.push(line[i]);
        proof {
            assert(out@ =~= mid + line@.subrange(0, i + 1));
        }
        i = i + 1;
    }
    proof {
        assert(line@.subrange(0, line@.len() as int) =~= line@);
    }
    out
}

/// The lines of the interrupt controller diagnostics.
pub open spec fn apic_status_text(
    mode: ControllerKind,
    lapic_base: u64,
    lapic_id: u32,
    lapic_version: u32,
    ioapic_base: u64,
    ioapic_id: u32,
    max_irqs: u32,
) -> Seq<Seq<u8>> {
    let head = "--- Interrupt Controller Diagnostics ---".spec_bytes();
    let foot = "----------------------------------------".spec_bytes();
    match mode {
        ControllerKind::Apic => seq![
            head,
            "Mode:          APIC (Local APIC + I/O APIC) [ACTIVE]".spec_bytes(),
            "Local APIC:    Base=".spec_bytes() + hex_text(lapic_base as nat) + ", ID=".spec_bytes() + dec_digits(
                lapic_id as nat,
            ) + ", Version=".spec_bytes() + hex_text(lapic_version as nat),
            "I/O APIC:      Base=".spec_bytes() + hex_text(ioapic_base as nat) + ", ID=".spec_bytes() + dec_digits(
                ioapic_id as nat,
            ) + ", Max IRQs=".spec_bytes() + dec_digits(max_irqs as nat),
            "Legacy 8259:   Masked (Disabled)".spec_bytes(),
            foot,
        ],
        ControllerKind::LegacyPic => seq![
            head,
            "Mode:          8259 Legacy PIC (Fallback)".spec_bytes(),
            "Master/Slave:  Base Ports 0x20/0xA0 (IRQs 0x20..=0x2F)".spec_bytes(),
            foot,
        ],
    }
}

/// The interrupt controller diagnostics, one line per entry.
pub fn apic_status_lines(
    mode: ControllerKind,
    lapic_base: u64,
    lapic_id: u32,
    lapic_version: u32,
    ioapic_base: u64,
    ioapic_id: u32,
    max_irqs: u32,
) -> (r: Vec<Vec<u8>>)
    ensures
        r@.len() == apic_status_text(mode, lapic_base, lapic_id, lapic_version, ioapic_base, ioapic_id, max_irqs).len(),
        forall|i: int|
            0 <= i < r@.len() ==> (#[trigger] r@[i])@ == apic_status_text(
                mode,
                lapic_base,
                lapic_id,
                lapic_version,
                ioapic_base,
                ioapic_id,
                max_irqs,
            )[i],
{
    let mut head = Vec::new();
    push_text(&mut head, "--- Interrupt Controller Diagnostics ---");
    let mut foot = Vec::new();
    push_text(&mut foot, "----------------------------------------");
    match mode {
        ControllerKind::Apic => {
            let mut l1 = Vec::new();
            push_text(&mut l1, "Mode:          APIC (Local APIC + I/O APIC) [ACTIVE]");
            let mut l2 = Vec::new();
            push_text(&mut l2, "Local APIC:    Base=");
            push_hex_text(&mut l2, lapic_base);
            push_text(&mut l2, ", ID=");
            push_dec(&mut l2, lapic_id as u64);
            push_text(&mut l2, ", Version=");
            push_hex_text(&mut l2, lapic_version as u64);
            let mut l3 = Vec::new();
            push_text(&mut l3, "I/O APIC:      Base=");
            push_hex_text(&mut l3, ioapic_base);
            push_text(&mut l3, ", ID=");
            push_dec(&mut l3, ioapic_id as u64);
            push_text(&mut l3, ", Max IRQs=");
            push_dec(&mut l3, max_irqs as u64);
            let mut l4 = Vec::new();
            push_text(&mut l4, "Legacy 8259:   Masked (Disabled)");
            proof {
                let t = apic_status_text(mode, lapic_base, lapic_id, lapic_version, ioapic_base, ioapic_id, max_irqs);
                assert(l2@ =~= t[2]);
                assert(l3@ =~= t[3]);
            }
            vec![head, l1, l2, l3, l4, foot]
        },
        ControllerKind::LegacyPic => {
            let mut l1 = Vec::new();
            push_text(&mut l1, "Mode:          8259 Legacy PIC (Fallback)");
            let mut l2 = Vec::new();
            push_text(&mut l2, "Master/Slave:  Base Ports 0x20/0xA0 (IRQs 0x20..=0x2F)");
            vec![head, l1, l2, foot]
        },
    }
}

/// The first lines of the memory demonstration: its title, where the heap
/// starts and how large it is.
pub open spec fn memory_header_text(heap_base: u64, heap_size: u64) -> Seq<Seq<u8>> {
    seq![
        "--- Memory Management & Trait Collections ---".spec_bytes(),
        "Heap Base:     ".spec_bytes() + hex_text(heap_base as nat),
        "Heap Size:     ".spec_bytes() + dec_digits(heap_size as nat / 0x10_0000) + " MiB (".spec_bytes()
            + dec_digits(heap_size as nat) + " bytes)".spec_bytes(),
    ]
}

/// The title and heap lines of the memory demonstration.
pub fn memory_header_lines(heap_base: u64, heap_size: u64) -> (r: Vec<Vec<u8>>)
    ensures
        r@.len() == 3,
        forall|i: int| 0 <= i < 3 ==> (#[trigger] r@[i])@ == memory_header_text(heap_base, heap_size)[i],
{
    let mut l0 = Vec::new();
    push_text(&mut l0, "--- Memory Management & Trait Collections ---");
    let mut l1 = Vec::new();
    push_text(&mut l1, "Heap Base:     ");
    push_hex_text(&mut l1, heap_base);
    let mut l2 = Vec::new();
    push_text(&mut l2, "Heap Size:     ");
    push_dec(&mut l2, heap_size / 0x10_0000);
    push_text(&mut l2, " MiB (");
    push_dec(&mut l2, heap_size);
    push_text(&mut l2, " bytes)");
    proof {
        let t = memory_header_text(heap_base, heap_size);
        assert(l1@ =~= t[1]);
        assert(l2@ =~= t[2]);
    }
    vec![l0, l1, l2]
}

} // verus!
