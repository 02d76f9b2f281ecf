//! Kernel time services: PIT ticks for monotonic deadlines, the CMOS RTC for
//! wall-clock time.
use vstd::prelude::*;

pub mod apic_timer;
pub mod tsc;

verus! {

pub const PIT_CHANNEL_0: u16 = 0x40;
pub const PIT_COMMAND: u16 = 0x43;
pub const PIT_BASE_HZ: u32 = 1_193_182;
pub const TICK_HZ: u32 = 1_000;
/// `PIT_BASE_HZ / TICK_HZ`.
pub const PIT_DIVISOR: u16 = 1193;

#[derive(Debug, Clone, Copy, PartialEq, Eq, Structural)]
pub enum SleepError {
    Disabled,
}

#[derive(Debug, Clone, Copy, PartialEq, Eq, Structural)]
pub struct RtcTime {
    pub year: u16,
    pub month: u8,
    pub day: u8,
    pub hour: u8,
    pub minute: u8,
    pub second: u8,
}

/// The port writes that program PIT channel 0 as a rate generator at
/// `TICK_HZ`: the command, then the divisor's low and high bytes.
pub fn pit_init_writes() -> (r: Vec<(u16, u8)>)
    ensures
        r@ == seq![(PIT_COMMAND, 0x34u8), (PIT_CHANNEL_0, 0xA9u8), (PIT_CHANNEL_0, 0x04u8)],
{
    let low = (PIT_DIVISOR % 256) as u8;
    let high = (PIT_DIVISOR / 256) as u8;
    let r = vec![(PIT_COMMAND, 0x34u8), (PIT_CHANNEL_0, low), (PIT_CHANNEL_0, high)];
    proof {
        assert(r@ =~= seq![(PIT_COMMAND, 0x34u8), (PIT_CHANNEL_0, 0xA9u8), (PIT_CHANNEL_0, 0x04u8)]);
    }
    r
}

/// Milliseconds since boot after `ticks` timer interrupts.
pub open spec fn uptime_of(ticks: u64) -> u64 {
    ((if ticks * 1000 > u64::MAX { u64::MAX as int } else { ticks * 1000 }) / TICK_HZ as int) as u64
}

/// The PIT tick counter; `enabled` is false where the kernel is built
/// without the PIT tick source.
#[derive(Debug, Clone, Copy, PartialEq, Eq, Structural)]
pub struct TickCounter {
    pub ticks: u64,
    pub enabled: bool,
}

impl TickCounter {
    pub fn new(enabled: bool) -> (r: Self)
        ensures
            r.ticks == 0,
            r.enabled == enabled,
    {
        TickCounter { ticks: 0, enabled }
    }

    /// Counts one timer interrupt (wrapping like an atomic add).
    pub fn on_timer_interrupt(&mut self)
        ensures
            final(self).enabled == old(self).enabled,
            old(self).enabled ==> final(self).ticks == (if old(self).ticks == u64::MAX {
                0
            } else {
                old(self).ticks + 1
            }),
            !old(self).enabled ==> final(self).ticks == old(self).ticks,
    {
        if self.enabled {
            self.ticks = self.ticks.wrapping_add(1);
        }
    }

    /// Milliseconds since boot, or `None` without the PIT.
    pub fn uptime_ms(&self) -> (r: Option<u64>)
        ensures
            self.enabled ==> r == Some(uptime_of(self.ticks)),
            !self.enabled ==> r is None,
    {
        if !self.enabled {
            return None;
        }
        let scaled = match self.ticks.checked_mul(1000) {
            Some(v) => v,
            None => u64::MAX,
        };
        Some(scaled / TICK_HZ as u64)
    }

    /// Starts a sleep of `milliseconds`: the uptime at which it ends.
    pub fn sleep_ms(&self, milliseconds: u64) -> (r: Result<u64, SleepError>)
        ensures
            !self.enabled ==> r == Err::<u64, SleepError>(SleepError::Disabled),
            self.enabled ==> r == Ok::<u64, SleepError>(
                (if uptime_of(self.ticks) + milliseconds > u64::MAX {
                    u64::MAX as int
                } else {
                    uptime_of(self.ticks) + milliseconds
                }) as u64,
            ),
    {
        let start = match self.uptime_ms() {
            Some(s) => s,
            None => {
                return Err(SleepError::Disabled);
            },
        };
        Ok(start.saturating_add(milliseconds))
    }

    /// A sleep that ends at `deadline` goes on.
    pub fn still_sleeping(&self, deadline: u64) -> (r: bool)
        ensures
            r == (self.enabled && uptime_of(self.ticks) < deadline),
    {
        match self.uptime_ms() {
            Some(now) => now < deadline,
            None => false,
        }
    }
}

/// Uptime never goes backwards while the tick counter does not wrap.
pub proof fn law_uptime_monotone(before: u64, after: u64)
    requires
        before <= after,
    ensures
        uptime_of(before) <= uptime_of(after),
{
    assert(before * 1000 <= after * 1000) by (nonlinear_arith)
        requires
            before <= after,
    ;
    let a = if before * 1000 > u64::MAX { u64::MAX as int } else { before * 1000 };
    let b = if after * 1000 > u64::MAX { u64::MAX as int } else { after * 1000 };
    vstd::arithmetic::div_mod::lemma_div_is_ordered(a, b, 1000);
}

pub const STATUS_A_UIP: u8 = 0x80;
pub const STATUS_B_24_HOUR: u8 = 0x02;
pub const STATUS_B_BINARY: u8 = 0x04;

/// The CMOS clock registers as read.
#[derive(Debug, Clone, Copy, PartialEq, Eq, Structural)]
pub struct RawRtc {
    pub second: u8,
    pub minute: u8,
    pub hour: u8,
    pub day: u8,
    pub month: u8,
    pub year: u8,
    pub status_b: u8,
}

pub open spec fn bcd_value(value: u8) -> u8 {
    ((value % 16) + (value / 16) * 10) as u8
}

/// Decodes a binary-coded decimal byte.
pub fn bcd(value: u8) -> (r: u8)
    ensures
        r == bcd_value(value),
{
    proof {
        assert(value & 0x0F == value % 16) by (bit_vector);
        assert(value >> 4u8 == value / 16) by (bit_vector);
    }
    (value & 0x0F) + ((value >> 4) * 10)
}

pub open spec fn decode_spec(binary: bool, value: u8) -> u8 {
    if binary {
        value
    } else {
        bcd_value(value)
    }
}

/// The hour of `raw`: 12-hour readings with the PM bit set move to the
/// afternoon, where 12 PM reads as hour 0.
pub open spec fn hour_of(raw: RawRtc) -> u8 {
    let binary = raw.status_b & STATUS_B_BINARY != 0;
    let hour = decode_spec(binary, raw.hour & 0x7F);
    if raw.status_b & STATUS_B_24_HOUR == 0 && raw.hour & 0x80 != 0 {
        if hour == 12 {
            0
        } else {
            (hour + 12) as u8
        }
    } else {
        hour
    }
}

pub open spec fn convert_spec(raw: RawRtc) -> RtcTime {
    let binary = raw.status_b & STATUS_B_BINARY != 0;
    RtcTime {
        year: (2000 + decode_spec(binary, raw.year)) as u16,
        month: decode_spec(binary, raw.month),
        day: decode_spec(binary, raw.day),
        hour: hour_of(raw),
        minute: decode_spec(binary, raw.minute),
        second: decode_spec(binary, raw.second),
    }
}

/// How the CMOS clock registers read: with status B bit 2 set (binary mode)
/// each register holds its field as is; otherwise it holds two BCD digits,
/// the tens in the high nibble and the units in the low one. The year
/// register counts from 2000. The hour register's bit 7 is the PM flag,
/// which in 12-hour mode (status B bit 1 clear) moves the hour to the
/// afternoon, 12 PM reading as hour 0.
pub proof fn law_rtc_register_encoding(raw: RawRtc)
    ensures
        ({
            let t = convert_spec(raw);
            let hour_reg = raw.hour & 0x7F;
            &&& raw.status_b & 4 != 0 ==> {
                &&& t.second == raw.second
                &&& t.minute == raw.minute
                &&& t.day == raw.day
                &&& t.month == raw.month
                &&& t.year == 2000 + raw.year
            }
            &&& raw.status_b & 4 == 0 ==> {
                &&& t.second == (raw.second / 16) * 10 + raw.second % 16
                &&& t.minute == (raw.minute / 16) * 10 + raw.minute % 16
                &&& t.day == (raw.day / 16) * 10 + raw.day % 16
                &&& t.month == (raw.month / 16) * 10 + raw.month % 16
                &&& t.year == 2000 + (raw.year / 16) * 10 + raw.year % 16
            }
            &&& ({
                let h = if raw.status_b & 4 != 0 {
                    hour_reg as int
                } else {
                    (hour_reg / 16) * 10 + hour_reg % 16
                };
                &&& (raw.status_b & 2 != 0 || raw.hour & 0x80 == 0) ==> t.hour == h
                &&& (raw.status_b & 2 == 0 && raw.hour & 0x80 != 0) ==> t.hour == (if h == 12 {
                    0
                } else {
                    h + 12
                })
            })
        }),
{
    let hr = raw.hour;
    assert(hr & 0x7F <= 0x7F) by (bit_vector);
}

fn decode(binary: bool, value: u8) -> (r: u8)
    ensures
        r == decode_spec(binary, value),
{
    if binary {
        value
    } else {
        bcd(value)
    }
}

/// Converts raw CMOS registers to a time, honouring the binary and 24-hour
/// flags of status register B.
pub fn convert(raw: RawRtc) -> (r: RtcTime)
    ensures
        r == convert_spec(raw),
{
    let binary = raw.status_b & STATUS_B_BINARY != 0;
    let h = raw.hour;
    let masked = h & 0x7F;
    proof {
        assert(h & 0x7F <= 0x7F) by (bit_vector);
    }
    let mut hour = decode(binary, masked);
    if raw.status_b & STATUS_B_24_HOUR == 0 && raw.hour & 0x80 != 0 {
        hour = if hour == 12 {
            0
        } else {
            hour + 12
        };
    }
    RtcTime {
        year: 2000 + decode(binary, raw.year) as u16,
        month: decode(binary, raw.month),
        day: decode(binary, raw.day),
        hour,
        minute: decode(binary, raw.minute),
        second: decode(binary, raw.second),
    }
}

/// Attempts at reading two equal snapshots of the clock.
pub const RTC_ATTEMPTS: u8 = 4;

/// What to do after a snapshot was taken.
#[derive(Debug, Clone, Copy, PartialEq, Eq, Structural)]
pub enum RtcStep {
    /// Take another snapshot and feed it.
    ReadAgain,
    /// The read is over, with its result.
    Finished(Option<RtcTime>),
}

/// Reads the clock until two consecutive snapshots agree: a snapshot is
/// `None` when the clock stayed in an update; that ends the read.
#[derive(Debug, Clone, Copy, PartialEq, Eq, Structural)]
pub struct RtcReader {
    pub attempts: u8,
    pub first: Option<RawRtc>,
}

impl RtcReader {
    pub fn new() -> (r: Self)
        ensures
            r.attempts == 0,
            r.first is None,
    {
        RtcReader { attempts: 0, first: None }
    }

    /// Feeds the next snapshot.
    pub fn feed(&mut self, sample: Option<RawRtc>) -> (r: RtcStep)
        requires
            old(self).attempts < RTC_ATTEMPTS,
        ensures
            sample is None ==> r == RtcStep::Finished(None),
            sample matches Some(s) ==> match old(self).first {
                None => r == RtcStep::ReadAgain && final(self).first == Some(s) && final(self).attempts == old(
                    self,
                ).attempts,
                Some(f) => if f == s {
                    r == RtcStep::Finished(Some(convert_spec(f)))
                } else if old(self).attempts + 1 == RTC_ATTEMPTS {
                    r == RtcStep::Finished(None)
                } else {
                    r == RtcStep::ReadAgain && final(self).first is None && final(self).attempts == old(
                        self,
                    ).attempts + 1
                },
            },
            r == RtcStep::ReadAgain ==> final(self).attempts < RTC_ATTEMPTS,
    {
        let s = match sample {
            Some(s) => s,
            None => {
                return RtcStep::Finished(None);
            },
        };
        match self.first {
            None => {
                self.first = Some(s);
                RtcStep::ReadAgain
            },
            Some(f) => {
                if f == s {
                    return RtcStep::Finished(Some(convert(f)));
                }
                self.attempts = self.attempts + 1;
                self.first = None;
                if self.attempts == RTC_ATTEMPTS {
                    RtcStep::Finished(None)
                } else {
                    RtcStep::ReadAgain
                }
            },
        }
    }
}

/// The result of feeding `samples[i..]` to a reader in the given state; a
/// run that ends before the reader finishes gives `None`.
pub open spec fn rtc_read_from(samples: Seq<Option<RawRtc>>, i: int, attempts: u8, first: Option<RawRtc>) -> Option<
    RtcTime,
>
    decreases samples.len() - i,
{
    if i >= samples.len() || i < 0 {
        None
    } else {
        match samples[i] {
            None => None,
            Some(s) => match first {
                None => rtc_read_from(samples, i + 1, attempts, Some(s)),
                Some(f) => if f == s {
                    Some(convert_spec(f))
                } else if attempts + 1 >= RTC_ATTEMPTS {
                    None
                } else {
                    rtc_read_from(samples, i + 1, (attempts + 1) as u8, None)
                },
            },
        }
    }
}

/// The clock read from a run of snapshots, where the kernel is built with
/// the RTC; `None` without it.
pub fn read_rtc(enabled: bool, samples: &[Option<RawRtc>]) -> (r: Option<RtcTime>)
    ensures
        r == (if enabled { rtc_read_from(samples@, 0, 0, None) } else { None }),
{
    if !enabled {
        return None;
    }
    let mut reader = RtcReader::new();
    let mut i: usize = 0;
    while i < samples.len()
        invariant
            enabled,
            reader.attempts < RTC_ATTEMPTS,
            0 <= i <= samples@.len(),
            rtc_read_from(samples@, i as int, reader.attempts, reader.first) == rtc_read_from(samples@, 0, 0, None),
        decreases samples@.len() - i,
    {
        match reader.feed(samples[i]) {
            RtcStep::ReadAgain => {},
            RtcStep::Finished(result) => {
                return result;
            },
        }
        i = i + 1;
    }
    None
}

} // verus!
