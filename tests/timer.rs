use time_profiler::timer::{get_duration, TimerModule};

#[test]
fn new_timer_is_stopped_at_zero() {
    let mut t = TimerModule::new(100);
    assert!(!t.is_running);
    assert_eq!(t.get_time_ns(5_000), 0);
    assert_eq!(get_duration(&t, 9_000), 0);
}

#[test]
fn start_pause_and_resume() {
    let mut t = TimerModule::new(0);
    t.start(1_000);
    assert_eq!(get_duration(&t, 4_000), 3_000);
    t.pause(4_000);
    assert_eq!(t.get_time_ns(50_000), 3_000);
    t.start(10_000);
    assert_eq!(t.start_time, 7_000);
    assert_eq!(t.get_time_ns(12_000), 5_000);
}

#[test]
fn reset_and_refresh() {
    let mut t = TimerModule::new(0);
    t.start(0);
    t.reset(2_000_000);
    assert!(!t.is_running);
    assert_eq!(t.get_time_ns(9_000_000), 0);
    t.refresh(3_000_000);
    assert!(t.is_running);
    assert_eq!(t.get_time_ms(5_500_000), 2);
}

#[test]
fn set_time_in_seconds() {
    let mut t = TimerModule::new(0);
    t.set_time(10_000_000_000, 3);
    assert_eq!(t.get_time_ns(10_000_000_000), 3_000_000_000);
    assert_eq!(t.get_string(10_000_000_000), "3.00s");
    t.set_time(0, u64::MAX);
    assert_eq!(t.duration, u64::MAX);
}

#[test]
fn running_timer_string() {
    let mut t = TimerModule::new(0);
    t.start(0);
    assert_eq!(t.get_string(100_000_000), "100.00ms");
    assert_eq!(t.duration, 100_000_000);
}
