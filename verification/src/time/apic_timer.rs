//! Local APIC timer calibration and state.
use vstd::prelude::*;

verus! {

/// Divider 16 in the APIC timer divide configuration register.
pub const APIC_TIMER_DIV_16: u32 = 0x03;

/// The count loaded before calibration.
pub const CALIBRATION_COUNT: u32 = 0xFFFF_FFFF;

/// Whether the APIC timer drives the system ticks, and at how many timer
/// ticks per millisecond.
#[derive(Debug, Clone, Copy, PartialEq, Eq, Structural)]
pub struct ApicTimer {
    pub ticks_per_ms: u32,
    pub active: bool,
}

/// The ticks per millisecond measured when `remaining` of the calibration
/// count is left after 10 ms.
pub open spec fn calibration(remaining: u32) -> Result<u32, Seq<char>> {
    let elapsed = CALIBRATION_COUNT - remaining;
    if elapsed == 0 {
        Err("APIC timer counter did not decrement"@)
    } else {
        Ok((elapsed / 10) as u32)
    }
}

impl ApicTimer {
    /// Not calibrated, not running.
    pub fn new() -> (r: Self)
        ensures
            r.ticks_per_ms == 0,
            !r.active,
    {
        ApicTimer { ticks_per_ms: 0, active: false }
    }

    /// Starts the timer from a calibration run; refused unless the APIC is
    /// the active interrupt controller, or when the counter did not move.
    pub fn init(&mut self, apic_mode: bool, remaining: u32) -> (r: Result<(), &'static str>)
        ensures
            !apic_mode ==> (r matches Err(e) && e@ == "APIC is not the active interrupt controller"@),
            !apic_mode ==> *final(self) == *old(self),
            apic_mode ==> match calibration(remaining) {
                Err(m) => (r matches Err(e) && e@ == m) && *final(self) == *old(self),
                Ok(t) => r is Ok && final(self).ticks_per_ms == t && final(self).active,
            },
    {
        if !apic_mode {
            return Err("APIC is not the active interrupt controller");
        }
        let elapsed = CALIBRATION_COUNT - remaining;
        if elapsed == 0 {
            return Err("APIC timer counter did not decrement");
        }
        self.ticks_per_ms = elapsed / 10;
        self.active = true;
        Ok(())
    }

    pub fn is_active(&self) -> (r: bool)
        ensures
            r == self.active,
    {
        self.active
    }

    pub fn ticks_per_ms(&self) -> (r: u32)
        ensures
            r == self.ticks_per_ms,
    {
        self.ticks_per_ms
    }

    /// Stops the timer; its calibration stays.
    pub fn stop(&mut self)
        ensures
            !final(self).active,
            final(self).ticks_per_ms == old(self).ticks_per_ms,
    {
        self.active = false;
    }
}

} // verus!
