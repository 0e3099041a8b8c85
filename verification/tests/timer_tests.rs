use chip8::timer::Timer;

#[test]
fn set_then_get_immediately() {
    let mut t = Timer::new(0, 60, 1000);
    t.set_reg(1_000, 60);
    assert_eq!(t.get_reg(1_000), 60);
}

#[test]
fn decays_to_half_after_half_second() {
    let mut t = Timer::new(0, 60, 1000);
    t.set_reg(0, 60);
    assert_eq!(t.get_reg(500_000), 30);
}

#[test]
fn reaches_zero_after_one_second() {
    let mut t = Timer::new(0, 60, 1000);
    t.set_reg(0, 60);
    assert_eq!(t.get_reg(1_000_000), 0);
}

#[test]
fn clamps_at_zero_long_after_expiry() {
    let mut t = Timer::new(0, 60, 1000);
    t.set_reg(0, 60);
    assert_eq!(t.get_reg(3_600_000_000), 0);
}

#[test]
fn no_double_decrement_within_ten_millis() {
    let mut t = Timer::new(0, 60, 1000);
    t.set_reg(123, 60);
    let mut now: u64 = 123;
    let mut prev = t.get_reg(now);
    for _ in 0..200 {
        now += 10_000;
        let cur = t.get_reg(now);
        assert!(cur <= prev);
        assert!(prev - cur <= 1);
        prev = cur;
    }
}

#[test]
fn reads_are_monotonically_nonincreasing() {
    let mut t = Timer::new(5, 60, 1000);
    t.set_reg(10, 200);
    let mut prev = t.get_reg(10);
    for k in 0..50 {
        let cur = t.get_reg(10 + k * 77_777);
        assert!(cur <= prev);
        prev = cur;
    }
}

#[test]
fn at_rest_register_reads_zero_and_has_no_time_left() {
    let t = Timer::new(0, 60, 1000);
    assert_eq!(t.get_reg(42), 0);
    assert!(t.time_left().is_none());
}

#[test]
fn time_left_reports_duration_at_frequency() {
    let mut t = Timer::new(0, 60, 1000);
    t.set_reg(0, 60);
    assert_eq!(t.time_left(), Some(1_000_000));
    t.set_reg(0, 6);
    assert_eq!(t.time_left(), Some(100_000));
}

#[test]
fn double_speed_multiplier_halves_the_decay_time() {
    let mut t = Timer::new(0, 60, 2000);
    t.set_reg(0, 60);
    assert_eq!(t.get_reg(500_000), 0);
    assert_eq!(t.get_reg(250_000), 30);
}
