//! Time Stamp Counter calibration and conversions.
use vstd::prelude::*;

verus! {

/// PIT channel 2 counts run during calibration: about 10 ms.
pub const CALIBRATE_TICKS: u64 = 11_932;

/// PIT input clock in Hz.
pub const PIT_BASE_HZ: u64 = 1_193_182;

/// Frequency assumed when the PIT channel 2 never reaches terminal count.
pub const FALLBACK_HZ: u64 = 2_000_000_000;

/// Busy-wait iterations after which the calibration gives up on the PIT.
pub const CALIBRATE_SPIN_LIMIT: u32 = 10_000_000;

/// The calibrated TSC state: frequency (0 when uncalibrated) and whether
/// the counter is invariant.
#[derive(Debug, Clone, Copy, PartialEq, Eq, Structural)]
pub struct Tsc {
    pub hz: u64,
    pub invariant_tsc: bool,
}

/// The frequency measured by a calibration run: `tsc_start` and `tsc_end`
/// bracket the PIT countdown, `spins` is how often the wait loop polled.
pub open spec fn calibrated_hz(spins: u32, tsc_start: u64, tsc_end: u64) -> u64 {
    if spins <= CALIBRATE_SPIN_LIMIT && tsc_end > tsc_start {
        let scaled = (tsc_end - tsc_start) * PIT_BASE_HZ;
        (if scaled > u64::MAX { u64::MAX as int } else { scaled }) as u64 / CALIBRATE_TICKS
    } else {
        FALLBACK_HZ
    }
}

/// `a * b`, or `u64::MAX` where that overflows.
fn saturating_mul(a: u64, b: u64) -> (r: u64)
    ensures
        r == (if a * b > u64::MAX { u64::MAX as int } else { a * b }),
{
    match a.checked_mul(b) {
        Some(v) => v,
        None => u64::MAX,
    }
}

impl Tsc {
    /// A TSC that has not been calibrated.
    pub fn new(invariant_tsc: bool) -> (r: Self)
        ensures
            r.hz == 0,
            r.invariant_tsc == invariant_tsc,
    {
        Tsc { hz: 0, invariant_tsc }
    }

    /// Records the outcome of a calibration run; a CPU without `rdtsc`
    /// stays uncalibrated.
    pub fn init(invariant_tsc: bool, has_rdtsc: bool, spins: u32, tsc_start: u64, tsc_end: u64) -> (r: Self)
        ensures
            r.invariant_tsc == invariant_tsc,
            r.hz == (if has_rdtsc { calibrated_hz(spins, tsc_start, tsc_end) } else { 0 }),
    {
        if !has_rdtsc {
            return Tsc { hz: 0, invariant_tsc };
        }
        let hz = if spins <= CALIBRATE_SPIN_LIMIT && tsc_end > tsc_start {
            let delta = tsc_end - tsc_start;
            saturating_mul(delta, PIT_BASE_HZ) / CALIBRATE_TICKS
        } else {
            FALLBACK_HZ
        };
        Tsc { hz, invariant_tsc }
    }

    /// Calibrated frequency in Hz, 0 if uncalibrated.
    pub fn frequency_hz(&self) -> (r: u64)
        ensures
            r == self.hz,
    {
        self.hz
    }

    /// Whether the CPU has an invariant TSC.
    pub fn is_invariant(&self) -> (r: bool)
        ensures
            r == self.invariant_tsc,
    {
        self.invariant_tsc
    }

    /// Nanoseconds in `cycles` (0 when uncalibrated); the quotient is
    /// truncated to 64 bits.
    pub fn cycles_to_nanos(&self, cycles: u64) -> (r: u64)
        ensures
            self.hz == 0 ==> r == 0,
            self.hz != 0 ==> r == (cycles * 1_000_000_000 / self.hz as int) as u64,
    {
        if self.hz == 0 {
            return 0;
        }
        let wide = (cycles as u128 * 1_000_000_000u128) / (self.hz as u128);
        wide as u64
    }

    /// Microseconds in `cycles` (0 when uncalibrated).
    pub fn cycles_to_micros(&self, cycles: u64) -> (r: u64)
        ensures
            self.hz == 0 ==> r == 0,
            self.hz != 0 ==> r == (cycles * 1_000_000 / self.hz as int) as u64,
    {
        if self.hz == 0 {
            return 0;
        }
        let wide = (cycles as u128 * 1_000_000u128) / (self.hz as u128);
        wide as u64
    }

    /// The TSC cycles in a delay of `micros` microseconds, or `None` when
    /// uncalibrated (the delay then spins `micros * 1000` times).
    pub fn delay_cycles(&self, micros: u64) -> (r: Option<u64>)
        ensures
            self.hz == 0 ==> r is None,
            self.hz != 0 ==> r == Some((micros * self.hz / 1_000_000int) as u64),
    {
        if self.hz == 0 {
            return None;
        }
        proof {
            assert(micros * self.hz <= u64::MAX * u64::MAX) by (nonlinear_arith)
                requires
                    micros <= u64::MAX,
                    self.hz <= u64::MAX,
            ;
        }
        let wide = (micros as u128 * self.hz as u128) / 1_000_000u128;
        Some(wide as u64)
    }

    /// A delay that started at counter value `start` is over at `now` once
    /// `cycles` have passed.
    pub fn delay_elapsed(start: u64, now: u64, cycles: u64) -> (r: bool)
        ensures
            r == ((if now >= start { now - start } else { 0 }) >= cycles),
    {
        now.saturating_sub(start) >= cycles
    }
}

} // verus!
