use saeos::drivers::keyboard::{
    handle_scancode, pop_key, decode_key, KeyQueue, KeyboardState, KEY_BUFFER_CAPACITY,
};
use saeos::keyboard as first_keyboard;
use saeos::time::apic_timer::ApicTimer;
use saeos::time::tsc::Tsc;
use saeos::time::{
    bcd, convert, pit_init_writes, read_rtc, RawRtc, RtcReader, RtcStep, RtcTime, SleepError,
    TickCounter,
};

fn typed(scancodes: &[u8]) -> String {
    let mut state = KeyboardState::new();
    let mut queue = KeyQueue::new();
    for code in scancodes {
        handle_scancode(&mut state, &mut queue, *code);
    }
    let mut out = String::new();
    while let Some(c) = pop_key(&mut queue) {
        out.push(c);
    }
    out
}

#[test]
fn keys_come_out_in_typing_order() {
    assert_eq!(typed(&[0x23, 0x17, 0x39, 0x1C]), "hi \n");
}

#[test]
fn shift_and_caps_lock() {
    assert_eq!(typed(&[0x2A, 0x1E, 0x02, 0xAA, 0x1E]), "A!a");
    assert_eq!(typed(&[0x3A, 0x1E, 0x02]), "A1");
    assert_eq!(typed(&[0x3A, 0x36, 0x1E, 0xB6, 0x1E]), "aA");
    assert_eq!(typed(&[0x9E, 0x01, 0x3B]), "");
    assert_eq!(decode_key(0x28, true, false), Some('"'));
    assert_eq!(decode_key(0x0E, false, false), Some('\x08'));
    assert_eq!(decode_key(0x01, false, false), None);
}

#[test]
fn full_queue_drops_new_keys() {
    let mut queue = KeyQueue::new();
    for i in 0..(KEY_BUFFER_CAPACITY + 5) {
        queue.push(if i < KEY_BUFFER_CAPACITY { 'a' } else { 'z' });
    }
    assert_eq!(queue.len(), KEY_BUFFER_CAPACITY);
    let mut count = 0;
    while let Some(c) = queue.pop() {
        assert_eq!(c, 'a');
        count += 1;
    }
    assert_eq!(count, KEY_BUFFER_CAPACITY);
    assert_eq!(queue.pop(), None);
}

#[test]
fn keyboard_state_shift_rules() {
    let mut state = KeyboardState::new();
    assert!(!state.is_shifted());
    state.lshift = true;
    assert!(state.is_shifted());
    state.caps_lock = true;
    assert!(!state.is_shifted());
}

#[test]
fn first_keyboard_types_escape_and_keeps_a_slot_free() {
    let mut state = KeyboardState::new();
    let mut queue = first_keyboard::KeyQueue::new();
    first_keyboard::handle_scancode(&mut state, &mut queue, 0x01);
    first_keyboard::handle_scancode(&mut state, &mut queue, 0x1E);
    assert_eq!(first_keyboard::pop_key(&mut queue), Some('\x1b'));
    assert_eq!(first_keyboard::pop_key(&mut queue), Some('a'));
    assert_eq!(first_keyboard::pop_key(&mut queue), None);
    for _ in 0..200 {
        queue.push('x');
    }
    let mut count = 0;
    while queue.pop().is_some() {
        count += 1;
    }
    assert_eq!(count, 127);
}

#[test]
fn tsc_calibration_and_conversions() {
    let tsc = Tsc::init(true, true, 100, 1_000, 1_000 + 11_932);
    assert_eq!(tsc.frequency_hz(), 1_193_182);
    assert!(tsc.is_invariant());
    let stuck = Tsc::init(false, true, 10_000_001, 5, 10);
    assert_eq!(stuck.frequency_hz(), 2_000_000_000);
    let none = Tsc::init(false, false, 0, 0, 0);
    assert_eq!(none.frequency_hz(), 0);
    assert_eq!(none.cycles_to_nanos(1_000), 0);
    assert_eq!(none.delay_cycles(10), None);
    let ghz = Tsc::init(false, true, 0, 0, 0);
    assert_eq!(ghz.frequency_hz(), 2_000_000_000);
    assert_eq!(ghz.cycles_to_nanos(4_000), 2_000);
    assert_eq!(ghz.cycles_to_micros(4_000), 2);
    assert_eq!(ghz.delay_cycles(10), Some(20_000));
    assert!(Tsc::delay_elapsed(100, 300, 200));
    assert!(!Tsc::delay_elapsed(100, 299, 200));
    assert!(!Tsc::delay_elapsed(300, 100, 1));
}

#[test]
fn ticks_uptime_and_sleep() {
    let mut ticks = TickCounter::new(true);
    assert_eq!(ticks.uptime_ms(), Some(0));
    for _ in 0..3 {
        ticks.on_timer_interrupt();
    }
    assert_eq!(ticks.uptime_ms(), Some(3));
    let deadline = ticks.sleep_ms(10).unwrap();
    assert_eq!(deadline, 13);
    assert!(ticks.still_sleeping(deadline));
    let before = ticks.uptime_ms().unwrap();
    ticks.on_timer_interrupt();
    assert!(ticks.uptime_ms().unwrap() >= before);
    let mut off = TickCounter::new(false);
    off.on_timer_interrupt();
    assert_eq!(off.uptime_ms(), None);
    assert_eq!(off.sleep_ms(5), Err(SleepError::Disabled));
    assert!(!off.still_sleeping(5));
    let late = TickCounter {
        ticks: u64::MAX,
        enabled: true,
    };
    assert_eq!(late.uptime_ms(), Some(u64::MAX / 1000));
    assert_eq!(
        pit_init_writes(),
        vec![(0x43, 0x34), (0x40, 0xA9), (0x40, 0x04)]
    );
}

fn raw(hour: u8, status_b: u8) -> RawRtc {
    RawRtc {
        second: 0x45,
        minute: 0x30,
        hour,
        day: 0x17,
        month: 0x05,
        year: 0x24,
        status_b,
    }
}

#[test]
fn rtc_decoding() {
    assert_eq!(bcd(0x59), 59);
    assert_eq!(bcd(0x00), 0);
    let pm = convert(raw(0x81, 0));
    assert_eq!(
        pm,
        RtcTime {
            year: 2024,
            month: 5,
            day: 17,
            hour: 13,
            minute: 30,
            second: 45
        }
    );
    assert_eq!(convert(raw(0x92, 0)).hour, 0);
    assert_eq!(convert(raw(0x12, 0x02)).hour, 12);
    let binary = convert(RawRtc {
        second: 5,
        minute: 6,
        hour: 7,
        day: 8,
        month: 9,
        year: 25,
        status_b: 0x06,
    });
    assert_eq!(binary.year, 2025);
    assert_eq!(binary.hour, 7);
}

#[test]
fn rtc_reads_until_two_snapshots_agree() {
    let a = raw(0x10, 0x02);
    let b = raw(0x11, 0x02);
    let mut reader = RtcReader::new();
    assert_eq!(reader.feed(Some(a)), RtcStep::ReadAgain);
    assert_eq!(reader.feed(Some(b)), RtcStep::ReadAgain);
    assert_eq!(reader.feed(Some(b)), RtcStep::ReadAgain);
    assert_eq!(reader.feed(Some(b)), RtcStep::Finished(Some(convert(b))));
    assert_eq!(
        read_rtc(true, &[Some(a), Some(b), Some(b), Some(b)]),
        Some(convert(b))
    );
    assert_eq!(read_rtc(true, &[Some(a), None]), None);
    assert_eq!(read_rtc(false, &[Some(a), Some(a)]), None);
    let alternating = [Some(a), Some(b), Some(a), Some(b), Some(a), Some(b), Some(a), Some(b), Some(a), Some(a)];
    assert_eq!(read_rtc(true, &alternating), None);
}

#[test]
fn apic_timer_calibration() {
    let mut timer = ApicTimer::new();
    assert_eq!(
        timer.init(false, 0),
        Err("APIC is not the active interrupt controller")
    );
    assert_eq!(
        timer.init(true, 0xFFFF_FFFF),
        Err("APIC timer counter did not decrement")
    );
    assert!(!timer.is_active());
    assert_eq!(timer.init(true, 0xFFFF_FFFF - 10_000), Ok(()));
    assert_eq!(timer.ticks_per_ms(), 1_000);
    assert!(timer.is_active());
    timer.stop();
    assert!(!timer.is_active());
    assert_eq!(timer.ticks_per_ms(), 1_000);
}

#[test]
fn queue_keeps_order_and_drops_pushes_past_capacity() {
    let mut queue = KeyQueue::new();
    let chars: Vec<char> = (0..(KEY_BUFFER_CAPACITY as u32 + 2))
        .map(|i| char::from_u32(0x100 + i).unwrap())
        .collect();
    for c in &chars {
        queue.push(*c);
    }
    for c in chars.iter().take(KEY_BUFFER_CAPACITY) {
        assert_eq!(queue.pop(), Some(*c));
    }
    assert_eq!(queue.pop(), None);
    assert_eq!(queue.pop(), None);
}
