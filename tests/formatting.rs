use time_profiler::formatter::{format_fixed2, format_scaled, format_time};
use time_profiler::metrics::{CallableMetrics, TimeFormatterNs};
use time_profiler::report::ProfileMetricsReport;
use time_profiler::terminal::{ANSICode, Terminal};

#[test]
fn format_time_picks_unit() {
    assert_eq!(format_time(0), "0.00ns");
    assert_eq!(format_time(999), "999.00ns");
    assert_eq!(format_time(1_500), "1.50\u{3bc}s");
    assert_eq!(format_time(1_500_000), "1.50ms");
    assert_eq!(format_time(2_000_000_000), "2.00s");
    assert_eq!(format_time(61_250_000_000), "61.25s");
}

#[test]
fn format_time_rounds_half_up() {
    assert_eq!(format_time(1_005), "1.01\u{3bc}s");
    assert_eq!(format_time(1_004), "1.00\u{3bc}s");
    assert_eq!(format_time(999_999), "1000.00\u{3bc}s");
}

#[test]
fn format_time_largest_value() {
    assert_eq!(format_time(u64::MAX), "18446744073.71s");
}

#[test]
fn fixed_point_and_scaled() {
    assert_eq!(format_fixed2(0), "0.00");
    assert_eq!(format_fixed2(1205), "12.05");
    assert_eq!(format_fixed2(7), "0.07");
    assert_eq!(format_scaled(3, 2, "x"), "1.50x");
}

#[test]
fn time_formatter_units() {
    let f = TimeFormatterNs::new(2_500_000_000);
    assert_eq!(f.format_seconds(), "2.50s");
    assert_eq!(f.format_milliseconds(), "2500.00ms");
    assert_eq!(f.format_microseconds(), "2500000.00\u{3bc}s");
    assert_eq!(f.format_nanoseconds(), "2500000000.00ns");
    assert_eq!(f.auto_format(), "2.50s");
    assert_eq!(TimeFormatterNs::new(12).auto_format(), "12.00ns");
}

#[test]
fn percall_time_is_zero_without_calls() {
    let m = CallableMetrics::new("f".to_string(), "m".to_string(), 7, 0, 0);
    assert_eq!(m.get_percall_time(), 0);
    let m = CallableMetrics::new("f".to_string(), "m".to_string(), 7, 4, 1_000);
    assert_eq!(m.get_percall_time(), 250);
}

#[test]
fn clone_and_reset_keeps_identity() {
    let m = CallableMetrics::new("f".to_string(), "m".to_string(), 7, 4, 1_000);
    let r = m.clone_and_reset();
    assert_eq!(r.name, "f");
    assert_eq!(r.module, "m");
    assert_eq!(r.call_hash, 7);
    assert_eq!(r.ncalls, 0);
    assert_eq!(r.time_ns, 0);
}

#[test]
fn record_accumulates_and_saturates() {
    let mut m = CallableMetrics::new("f".to_string(), "m".to_string(), 7, 0, 0);
    m.record(10);
    m.record(15);
    assert_eq!(m.ncalls, 2);
    assert_eq!(m.time_ns, 25);
    m.record(u64::MAX);
    assert_eq!(m.ncalls, 3);
    assert_eq!(m.time_ns, u64::MAX);
}

#[test]
fn percentage_is_zero_when_either_time_is_zero() {
    let r = ProfileMetricsReport::new(false);
    assert_eq!(r.get_relative_percentage(0, 500), 0);
    assert_eq!(r.get_relative_percentage(500, 0), 0);
    assert_eq!(r.get_relative_percentage(0, 0), 0);
}

#[test]
fn percentage_in_hundredths() {
    let r = ProfileMetricsReport::new(false);
    assert_eq!(r.get_relative_percentage(400, 100), 2500);
    assert_eq!(r.get_relative_percentage(3, 1), 3333);
    assert_eq!(r.get_relative_percentage(3, 2), 6667);
    assert_eq!(r.get_relative_percentage(1, u64::MAX), (u64::MAX as u128) * 10_000);
}

#[test]
fn report_colors() {
    let r = ProfileMetricsReport::new(true);
    assert_eq!(r.header_color, ANSICode::Yellow);
    assert_eq!(r.call_color, ANSICode::Cyan);
    assert_eq!(r.total_time_color, ANSICode::Yellow);
    let r = ProfileMetricsReport::new(false);
    assert_eq!(r.header_color, ANSICode::Green);
    assert_eq!(r.call_color, ANSICode::White);
    assert_eq!(r.total_time_color, ANSICode::Green);
}

#[test]
fn ansi_codes() {
    assert_eq!(ANSICode::Reset.value(), "\x1b[0m");
    assert_eq!(ANSICode::Red.value(), "\x1b[31m");
    assert_eq!(ANSICode::Green.value(), "\x1b[32m");
    assert_eq!(ANSICode::Yellow.value(), "\x1b[33m");
    assert_eq!(ANSICode::Blue.value(), "\x1b[34m");
    assert_eq!(ANSICode::Magenta.value(), "\x1b[35m");
    assert_eq!(ANSICode::Cyan.value(), "\x1b[36m");
    assert_eq!(ANSICode::White.value(), "\x1b[37m");
}

#[test]
fn terminal_renders_in_current_color() {
    let mut t = Terminal::new();
    assert_eq!(t.render("hi"), "\x1b[37mhi\x1b[0m");
    t.set_ansi_color(ANSICode::Red);
    assert_eq!(t.ansi_color, ANSICode::Red);
    assert_eq!(t.render("hi"), "\x1b[31mhi\x1b[0m");
}
