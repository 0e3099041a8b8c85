use chip8::sched::{
    frame_send_stops, idle_sleep_micros, key_recv_stops, should_send_frame, Emulator, PerfLimiter,
    RecvOutcome, SendOutcome,
};

#[test]
fn builders_accumulate_configuration() {
    let e = Emulator::new()
        .with_skip_frames(true)
        .with_fps_limit(Some(60_000))
        .with_ips_limit(Some(10_000_000))
        .with_colors(Some([1, 2, 3, 4]))
        .with_debug(2);
    assert!(e.skip_frames);
    assert_eq!(e.fps_limit_millihz, Some(60_000));
    assert_eq!(e.ips_limit_millihz, Some(10_000_000));
    assert_eq!(e.colors, Some([1, 2, 3, 4]));
    assert_eq!(e.debug, 2);
}

#[test]
fn default_configuration_is_unlimited() {
    let e = Emulator::new();
    assert!(!e.skip_frames);
    assert!(e.fps_limit_millihz.is_none());
    assert!(e.ips_limit_millihz.is_none());
    assert_eq!(e.debug, 0);
    assert!(e.colors.is_none());
}

#[test]
fn frames_are_sent_on_change_or_always_under_flicker_reduction() {
    assert!(should_send_frame(true, false));
    assert!(should_send_frame(false, true));
    assert!(!should_send_frame(false, false));
}

#[test]
fn full_slot_under_skip_frames_never_stops_the_engine() {
    assert!(!frame_send_stops(true, SendOutcome::Full, None));
    assert!(!frame_send_stops(
        true,
        SendOutcome::Delivered,
        Some(SendOutcome::Delivered),
    ));
    assert!(frame_send_stops(true, SendOutcome::Disconnected, None));
    assert!(frame_send_stops(
        false,
        SendOutcome::Delivered,
        Some(SendOutcome::Disconnected),
    ));
}

#[test]
fn only_disconnection_stops_the_key_drain() {
    assert!(!key_recv_stops(RecvOutcome::Received));
    assert!(!key_recv_stops(RecvOutcome::Empty));
    assert!(key_recv_stops(RecvOutcome::Disconnected));
}

#[test]
fn idle_tick_sleeps_a_fixed_millisecond() {
    assert_eq!(idle_sleep_micros(true), None);
    assert_eq!(idle_sleep_micros(false), Some(1000));
}

#[test]
fn limiter_paces_to_the_configured_rate() {
    // 60 Hz: one token every 16666 microseconds
    let mut p = PerfLimiter::new(Some(60_000), 0);
    let s1 = p.wait_micros(0);
    assert_eq!(s1, 16_666);
    // arriving exactly on time sleeps nothing
    let s2 = p.wait_micros(16_666 + 16_666);
    assert_eq!(s2, 0);
}

#[test]
fn limiter_without_a_rate_never_sleeps() {
    let mut p = PerfLimiter::new(None, 0);
    for t in 0..10u64 {
        assert_eq!(p.wait_micros(t), 0);
    }
    assert_eq!(p.counter, 10);
}

#[test]
fn high_rates_amortize_clock_checks() {
    // 10000 Hz: check the clock once per hundred tokens
    let mut p = PerfLimiter::new(Some(10_000_000), 0);
    assert_eq!(p.every_nths, 100);
    let mut sleeps = 0;
    for _ in 0..99 {
        if p.wait_micros(0) > 0 {
            sleeps += 1;
        }
    }
    assert_eq!(sleeps, 0);
    // the hundredth token finally consults the clock: a full batch early
    let s = p.wait_micros(0);
    assert_eq!(s, 100 * 1_000_000_000 / 10_000_000);
}

#[test]
fn nonblocking_check_reports_early_arrivals() {
    let mut p = PerfLimiter::new(Some(1_000), 0);
    // 1 Hz: the next slot is a second away
    assert!(p.wait_nonblocking(10));
    assert_eq!(p.counter, 0);
    assert!(!p.wait_nonblocking(1_000_000));
    assert_eq!(p.counter, 1);
}

#[test]
fn measured_rate_reflects_taken_tokens() {
    let mut p = PerfLimiter::new(None, 0);
    for t in 0..120u64 {
        p.wait_micros(t);
    }
    // 120 tokens over 2 seconds: 60 Hz, reported in millihertz
    let rate = p.measured_rate_millihz(2_000_000);
    assert_eq!(rate, 60_000);
    // the window resets
    let rate2 = p.measured_rate_millihz(2_000_000);
    assert_eq!(rate2, 0);
}
