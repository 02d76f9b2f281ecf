//! The first interrupt-controller selection: the APIC at its default
//! addresses when it comes up, the legacy PIC otherwise.
use vstd::prelude::*;
use crate::apic::ioapic::IoApic;
use crate::arch::x86_64::apic::lapic::LocalApic;
use crate::arch::x86_64::interrupt_controller::{ControllerKind, EndOfInterrupt};
use crate::arch::x86_64::pic;

verus! {

/// The interrupt controllers and which of them is in charge.
#[derive(Debug, Clone, Copy, PartialEq, Eq, Structural)]
pub struct InterruptController {
    pub lapic: LocalApic,
    pub ioapic: IoApic,
    pub mode: ControllerKind,
}

impl InterruptController {
    /// The legacy PIC in charge.
    pub fn new() -> (r: Self)
        ensures
            r.mode == ControllerKind::LegacyPic,
            r.lapic == LocalApic::new_spec(),
            r.ioapic.base_addr == crate::apic::ioapic::DEFAULT_IOAPIC_BASE,
    {
        InterruptController { lapic: LocalApic::new(), ioapic: IoApic::new(), mode: ControllerKind::LegacyPic }
    }

    /// Records the outcome of bringing up the local APIC and the I/O APIC:
    /// the APIC takes over when both came up.
    pub fn init(&mut self, lapic_ready: bool, ioapic_ready: bool) -> (r: ControllerKind)
        ensures
            r == final(self).mode,
            r == (if lapic_ready && ioapic_ready { ControllerKind::Apic } else { ControllerKind::LegacyPic }),
            final(self).lapic == old(self).lapic,
            final(self).ioapic == old(self).ioapic,
    {
        if lapic_ready && ioapic_ready {
            self.mode = ControllerKind::Apic;
            return ControllerKind::Apic;
        }
        self.mode = ControllerKind::LegacyPic;
        ControllerKind::LegacyPic
    }

    /// What acknowledging `vector` takes under the controller in charge.
    pub fn notify_end_of_interrupt(&self, vector: u8) -> (r: EndOfInterrupt)
        ensures
            self.mode == ControllerKind::Apic ==> r == EndOfInterrupt::LocalApic,
            self.mode == ControllerKind::LegacyPic ==> (r matches EndOfInterrupt::LegacyPic(w) && (vector
                >= pic::PIC_2_OFFSET ==> w@ == seq![(pic::CMD_PIC2, pic::PIC_EOI), (pic::CMD_PIC1, pic::PIC_EOI)])
                && (vector < pic::PIC_2_OFFSET ==> w@ == seq![(pic::CMD_PIC1, pic::PIC_EOI)])),
    {
        match self.mode {
            ControllerKind::Apic => EndOfInterrupt::LocalApic,
            ControllerKind::LegacyPic => EndOfInterrupt::LegacyPic(pic::notify_end_of_interrupt(vector)),
        }
    }
}

impl Default for InterruptController {
    fn default() -> (r: Self)
        ensures
            r.mode == ControllerKind::LegacyPic,
    {
        Self::new()
    }
}

/// Brings `controller` up (see `InterruptController::init`).
pub fn init(controller: &mut InterruptController, lapic_ready: bool, ioapic_ready: bool) -> (r: ControllerKind)
    ensures
        r == final(controller).mode,
        r == (if lapic_ready && ioapic_ready { ControllerKind::Apic } else { ControllerKind::LegacyPic }),
{
    controller.init(lapic_ready, ioapic_ready)
}

/// What acknowledging `vector` takes under `controller`.
pub fn notify_end_of_interrupt(controller: &InterruptController, vector: u8) -> (r: EndOfInterrupt)
    ensures
        controller.mode == ControllerKind::Apic ==> r == EndOfInterrupt::LocalApic,
        controller.mode == ControllerKind::LegacyPic ==> (r matches EndOfInterrupt::LegacyPic(w) && (vector
            >= pic::PIC_2_OFFSET ==> w@ == seq![(pic::CMD_PIC2, pic::PIC_EOI), (pic::CMD_PIC1, pic::PIC_EOI)]) && (
        vector < pic::PIC_2_OFFSET ==> w@ == seq![(pic::CMD_PIC1, pic::PIC_EOI)])),
{
    controller.notify_end_of_interrupt(vector)
}

} // verus!
