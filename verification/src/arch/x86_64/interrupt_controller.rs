//! Choice between the APIC and the legacy PIC, and where interrupts are
//! acknowledged.
use vstd::prelude::*;
use crate::arch::x86_64::acpi::{covers, first_override, InterruptTopology, IoApicInfo};
use crate::arch::x86_64::apic::ioapic::{redirection_low, IoApic, RegisterWrite, IOAPIC_REDTBL_BASE};
use crate::arch::x86_64::apic::lapic::LocalApic;
use crate::arch::x86_64::pic;
use crate::mm::paging::KERNEL_VIRT_BASE;

verus! {

#[derive(Debug, Clone, Copy, PartialEq, Eq, Structural)]
pub enum ControllerKind {
    Apic,
    LegacyPic,
}

/// Where the timer (IRQ 0) and the keyboard (IRQ 1) are routed under the
/// APIC, as the MADT describes it.
#[derive(Debug, Clone, Copy, PartialEq, Eq, Structural)]
pub struct ApicRouting {
    pub lapic_address: u64,
    pub timer_gsi: u32,
    pub timer_flags: u16,
    pub keyboard_gsi: u32,
    pub keyboard_flags: u16,
    pub timer_ioapic: IoApicInfo,
    pub keyboard_ioapic: IoApicInfo,
}

impl ApicRouting {
    /// The timer and the keyboard sit on the same I/O APIC.
    pub open spec fn spec_same_ioapic(&self) -> bool {
        self.timer_ioapic.address == self.keyboard_ioapic.address
    }

    pub fn same_ioapic(&self) -> (r: bool)
        ensures
            r == self.spec_same_ioapic(),
    {
        self.timer_ioapic.address == self.keyboard_ioapic.address
    }

    /// The redirection entry of the timer on its I/O APIC.
    pub open spec fn spec_timer_irq_index(&self) -> u8 {
        (if self.timer_gsi >= self.timer_ioapic.gsi_base {
            self.timer_gsi - self.timer_ioapic.gsi_base
        } else {
            0
        }) as u8
    }
}

/// The GSI and flags of `irq` under `t` (see `InterruptTopology::gsi_for_irq`).
pub open spec fn routed_gsi(t: InterruptTopology, irq: u8) -> (u32, u16) {
    if exists|i: int| first_override(t.overrides@, irq, i) {
        let i = choose|i: int| first_override(t.overrides@, irq, i);
        (t.overrides@[i].gsi, t.overrides@[i].flags)
    } else {
        (irq as u32, 0u16)
    }
}

/// The routing of the timer and the keyboard, where an I/O APIC handles
/// each of their GSIs.
pub fn apic_routing(topology: &InterruptTopology) -> (r: Option<ApicRouting>)
    requires
        topology.wf(),
    ensures
        r matches Some(a) ==> {
            &&& a.lapic_address == topology.lapic_address
            &&& (a.timer_gsi, a.timer_flags) == routed_gsi(*topology, 0)
            &&& (a.keyboard_gsi, a.keyboard_flags) == routed_gsi(*topology, 1)
            &&& exists|i: int| 0 <= i < topology.ioapics@.len() && covers(topology.ioapics@, i, a.timer_gsi) && a.timer_ioapic == topology.ioapics@[i]
            &&& exists|i: int| 0 <= i < topology.ioapics@.len() && covers(topology.ioapics@, i, a.keyboard_gsi) && a.keyboard_ioapic == topology.ioapics@[i]
        },
        r is None ==> {
            let (tg, _) = routed_gsi(*topology, 0);
            let (kg, _) = routed_gsi(*topology, 1);
            (forall|i: int| 0 <= i < topology.ioapics@.len() ==> !covers(topology.ioapics@, i, tg)) || (forall|i: int|
                0 <= i < topology.ioapics@.len() ==> !covers(topology.ioapics@, i, kg))
        },
{
    let (timer_gsi, timer_flags) = topology.gsi_for_irq(0);
    let (keyboard_gsi, keyboard_flags) = topology.gsi_for_irq(1);
    proof {
        lemma_routed_gsi(*topology, 0, timer_gsi, timer_flags);
        lemma_routed_gsi(*topology, 1, keyboard_gsi, keyboard_flags);
    }
    let timer_ioapic = topology.ioapic_for_gsi(timer_gsi);
    let keyboard_ioapic = topology.ioapic_for_gsi(keyboard_gsi);
    match (timer_ioapic, keyboard_ioapic) {
        (Some(t), Some(k)) => Some(
            ApicRouting {
                lapic_address: topology.lapic_address,
                timer_gsi,
                timer_flags,
                keyboard_gsi,
                keyboard_flags,
                timer_ioapic: t,
                keyboard_ioapic: k,
            },
        ),
        _ => None,
    }
}

proof fn lemma_routed_gsi(t: InterruptTopology, irq: u8, gsi: u32, flags: u16)
    requires
        forall|i: int| first_override(t.overrides@, irq, i) ==> (gsi, flags) == (
        t.overrides@[i].gsi,
        t.overrides@[i].flags,
        ),
        (forall|i: int| 0 <= i < t.overrides@.len() ==> (#[trigger] t.overrides@[i]).source_irq != irq) ==> (gsi, flags)
            == (irq as u32, 0u16),
    ensures
        routed_gsi(t, irq) == (gsi, flags),
{
    if exists|i: int| first_override(t.overrides@, irq, i) {
        let i = choose|i: int| first_override(t.overrides@, irq, i);
        assert(first_override(t.overrides@, irq, i));
    } else {
        assert forall|i: int| 0 <= i < t.overrides@.len() implies (#[trigger] t.overrides@[i]).source_irq != irq by {
            if t.overrides@[i].source_irq == irq {
                lemma_first_override_exists(t.overrides@, irq, i);
            }
        }
    }
}

/// Where an override for `irq` sits, a first one does too.
proof fn lemma_first_override_exists(s: Seq<crate::arch::x86_64::acpi::InterruptOverride>, irq: u8, k: int)
    requires
        0 <= k < s.len(),
        s[k].source_irq == irq,
    ensures
        exists|i: int| first_override(s, irq, i),
    decreases k,
{
    if forall|j: int| 0 <= j < k ==> (#[trigger] s[j]).source_irq != irq {
        assert(first_override(s, irq, k));
    } else {
        let j = choose|j: int| 0 <= j < k && (#[trigger] s[j]).source_irq == irq;
        lemma_first_override_exists(s, irq, j);
    }
}

/// How the hardware steps of an APIC bring-up went.
#[derive(Debug, Clone, Copy, PartialEq, Eq, Structural)]
pub struct ApicReadiness {
    /// The local APIC initialised.
    pub lapic: bool,
    /// The timer's I/O APIC was programmed (with the keyboard too where
    /// both share it).
    pub timer_ioapic: bool,
    /// The keyboard's own I/O APIC was programmed, where it has one.
    pub keyboard_ioapic: bool,
}

/// What acknowledging an interrupt takes.
#[derive(Debug, Clone, PartialEq, Eq)]
pub enum EndOfInterrupt {
    /// Write the local APIC's EOI register.
    LocalApic,
    /// These port writes to the PIC pair.
    LegacyPic(Vec<(u16, u8)>),
}

/// The interrupt controllers and which of them is in charge.
#[derive(Debug, Clone, Copy, PartialEq, Eq, Structural)]
pub struct InterruptController {
    pub lapic: LocalApic,
    pub ioapic: IoApic,
    pub secondary_ioapic: Option<IoApic>,
    pub mode: ControllerKind,
    /// I/O APIC redirection entry of the timer once the APIC is in charge.
    pub timer_irq_index: u8,
}

/// The APIC took over: both IRQs have a route and every step succeeded.
pub open spec fn apic_ready(routing: Option<ApicRouting>, ready: ApicReadiness) -> bool {
    routing matches Some(a) && ready.lapic && ready.timer_ioapic && (a.spec_same_ioapic() || ready.keyboard_ioapic)
}

impl InterruptController {
    /// Nothing set up; the legacy PIC in charge.
    pub fn new() -> (r: Self)
        ensures
            r.lapic == LocalApic::new_spec(),
            r.ioapic == IoApic::new_spec(),
            r.secondary_ioapic is None,
            r.mode == ControllerKind::LegacyPic,
            r.timer_irq_index == 0,
    {
        InterruptController {
            lapic: LocalApic::new(),
            ioapic: IoApic::new(),
            secondary_ioapic: None,
            mode: ControllerKind::LegacyPic,
            timer_irq_index: 0,
        }
    }

    /// Records the outcome of bringing up the controllers: the APIC takes
    /// over where `routing` exists and every hardware step succeeded, the
    /// legacy PIC otherwise. The APICs are placed at the routed addresses.
    pub fn init(&mut self, routing: Option<ApicRouting>, ready: ApicReadiness, prefer_identity: bool) -> (r:
        ControllerKind)
        requires
            routing matches Some(a) ==> (prefer_identity || (KERNEL_VIRT_BASE + a.lapic_address <= u64::MAX
                && KERNEL_VIRT_BASE + a.timer_ioapic.address <= u64::MAX && KERNEL_VIRT_BASE
                + a.keyboard_ioapic.address <= u64::MAX)),
        ensures
            r == final(self).mode,
            apic_ready(routing, ready) ==> r == ControllerKind::Apic && final(self).timer_irq_index
                == routing->0.spec_timer_irq_index(),
            !apic_ready(routing, ready) ==> r == ControllerKind::LegacyPic,
            routing matches Some(a) ==> final(self).lapic.physical_base_addr == a.lapic_address
                && final(self).ioapic.physical_base_addr == a.timer_ioapic.address,
            routing matches Some(a) ==> (!a.spec_same_ioapic() && ready.lapic && ready.keyboard_ioapic
                <==> final(self).secondary_ioapic is Some),
            routing matches Some(a) ==> (final(self).secondary_ioapic matches Some(s) ==> s.physical_base_addr
                == a.keyboard_ioapic.address),
            routing is None ==> final(self).lapic == old(self).lapic && final(self).ioapic == old(self).ioapic
                && final(self).secondary_ioapic == old(self).secondary_ioapic,
    {
        if let Some(a) = routing {
            self.lapic.set_base_address(a.lapic_address, prefer_identity);
            self.ioapic.set_base_address(a.timer_ioapic.address, prefer_identity);
            let same = a.same_ioapic();
            let timer_ready = ready.lapic && ready.timer_ioapic;
            let keyboard_ready = if same {
                timer_ready
            } else {
                let ok = ready.lapic && ready.keyboard_ioapic;
                if ok {
                    let mut secondary = IoApic::new();
                    secondary.set_base_address(a.keyboard_ioapic.address, prefer_identity);
                    self.secondary_ioapic = Some(secondary);
                } else {
                    self.secondary_ioapic = None;
                }
                ok
            };
            if same {
                self.secondary_ioapic = None;
            }
            if timer_ready && keyboard_ready {
                self.timer_irq_index = a.timer_gsi.saturating_sub(a.timer_ioapic.gsi_base) as u8;
                self.mode = ControllerKind::Apic;
                return ControllerKind::Apic;
            }
        }
        self.mode = ControllerKind::LegacyPic;
        ControllerKind::LegacyPic
    }

    /// The write that masks the timer's I/O APIC entry once the local APIC
    /// timer drives the ticks.
    pub fn mask_ioapic_timer(&self) -> (r: Vec<RegisterWrite>)
        ensures
            r@ == seq![
                RegisterWrite {
                    register: (IOAPIC_REDTBL_BASE + self.timer_irq_index * 2) as u32,
                    value: redirection_low(0x20, 0, true),
                },
            ],
    {
        self.ioapic.mask_timer_irq(self.timer_irq_index)
    }

    /// What acknowledging `vector` takes under the controller in charge.
    pub fn notify_end_of_interrupt(&self, vector: u8) -> (r: EndOfInterrupt)
        ensures
            self.mode == ControllerKind::Apic ==> r == EndOfInterrupt::LocalApic,
            self.mode == ControllerKind::LegacyPic ==> (r matches EndOfInterrupt::LegacyPic(w) && (vector
                >= pic::PIC_2_OFFSET ==> w@ == seq![(pic::CMD_PIC2, pic::PIC_EOI), (pic::CMD_PIC1, pic::PIC_EOI)])
                && (vector < pic::PIC_2_OFFSET ==> w@ == seq![(pic::CMD_PIC1, pic::PIC_EOI)])),
    {
        match self.mode {
            ControllerKind::Apic => EndOfInterrupt::LocalApic,
            ControllerKind::LegacyPic => EndOfInterrupt::LegacyPic(pic::notify_end_of_interrupt(vector)),
        }
    }
}

impl Default for InterruptController {
    fn default() -> (r: Self)
        ensures
            r.mode == ControllerKind::LegacyPic,
            r.secondary_ioapic is None,
            r.timer_irq_index == 0,
    {
        Self::new()
    }
}

/// What acknowledging `vector` takes under `controller`.
pub fn notify_end_of_interrupt(controller: &InterruptController, vector: u8) -> (r: EndOfInterrupt)
    ensures
        controller.mode == ControllerKind::Apic ==> r == EndOfInterrupt::LocalApic,
        controller.mode == ControllerKind::LegacyPic ==> (r matches EndOfInterrupt::LegacyPic(w) && (vector
            >= pic::PIC_2_OFFSET ==> w@ == seq![(pic::CMD_PIC2, pic::PIC_EOI), (pic::CMD_PIC1, pic::PIC_EOI)]) && (
        vector < pic::PIC_2_OFFSET ==> w@ == seq![(pic::CMD_PIC1, pic::PIC_EOI)])),
{
    controller.notify_end_of_interrupt(vector)
}

/// Brings `controller` up (see `InterruptController::init`).
pub fn init(controller: &mut InterruptController, routing: Option<ApicRouting>, ready: ApicReadiness, prefer_identity: bool) -> (r: ControllerKind)
    requires
        routing matches Some(a) ==> (prefer_identity || (KERNEL_VIRT_BASE + a.lapic_address <= u64::MAX
            && KERNEL_VIRT_BASE + a.timer_ioapic.address <= u64::MAX && KERNEL_VIRT_BASE + a.keyboard_ioapic.address
            <= u64::MAX)),
    ensures
        r == final(controller).mode,
        apic_ready(routing, ready) ==> r == ControllerKind::Apic,
        !apic_ready(routing, ready) ==> r == ControllerKind::LegacyPic,
{
    controller.init(routing, ready, prefer_identity)
}

} // verus!
