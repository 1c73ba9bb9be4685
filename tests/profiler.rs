use time_profiler::profiler::TimeProfiler;

const SEARCH: u64 = 11;
const OUTER: u64 = 21;
const INNER: u64 = 22;

fn profiler_with(realtime: bool, ids: &[(u64, &str)]) -> TimeProfiler {
    let mut p = TimeProfiler::new(realtime);
    for (h, name) in ids {
        p.register(*h, name.to_string());
    }
    p
}

/// A call of `h` with no instrumented call inside it.
fn leaf_call(p: &mut TimeProfiler, h: u64, elapsed: u64) -> bool {
    p.begin_call(h);
    p.end_call(h, elapsed)
}

fn search(arr: &[i32], x: i32) -> i32 {
    match arr.iter().position(|v| *v == x) {
        Some(i) => i as i32,
        None => -1,
    }
}

#[test]
fn new_profiler_is_idle_and_empty() {
    let p = TimeProfiler::new(false);
    assert!(!p.realtime());
    assert_eq!(p.active_primary(), None);
    assert_eq!(p.in_flight(), 0);
    assert!(p.primary_calls().is_empty());
    assert!(p.call_metrics(SEARCH).is_none());
}

#[test]
fn register_is_idempotent() {
    let mut p = profiler_with(false, &[(SEARCH, "search")]);
    leaf_call(&mut p, SEARCH, 40);
    p.register(SEARCH, "again".to_string());
    let m = p.call_metrics(SEARCH).unwrap();
    assert_eq!(m.name, "search");
    assert_eq!(m.module, "wrapped_function");
    assert_eq!(m.ncalls, 1);
    assert_eq!(m.time_ns, 40);
    assert!(p.is_registered(SEARCH));
    assert!(!p.is_registered(OUTER));
}

#[test]
fn sequential_calls_count_every_call() {
    let mut p = profiler_with(false, &[(SEARCH, "search")]);
    let times = [5u64, 7, 11, 13];
    for t in times {
        assert!(!leaf_call(&mut p, SEARCH, t));
        assert_eq!(p.active_primary(), None);
    }
    let m = p.call_metrics(SEARCH).unwrap();
    assert_eq!(m.ncalls, 4);
    assert_eq!(m.time_ns, 36);
    let pc = p.primary_call(SEARCH).unwrap();
    assert_eq!(pc.primary.ncalls, 4);
    assert_eq!(pc.primary.time_ns, 36);
    assert!(pc.subcalls.is_empty());
}

#[test]
fn calls_in_flight_are_subcalls_of_the_primary() {
    let mut p = profiler_with(false, &[(OUTER, "outer"), (INNER, "inner")]);
    p.begin_call(OUTER);
    for t in [10u64, 20, 30] {
        p.begin_call(INNER);
        assert_eq!(p.active_primary(), Some(OUTER));
        p.end_call(INNER, t);
    }
    p.end_call(OUTER, 100);
    let pc = p.primary_call(OUTER).unwrap();
    assert_eq!(pc.subcalls.len(), 1);
    assert_eq!(pc.subcalls[0].call_hash, INNER);
    assert_eq!(pc.subcalls[0].ncalls, 3);
    assert_eq!(pc.subcalls[0].time_ns, 60);
    assert_eq!(p.call_metrics(INNER).unwrap().ncalls, 3);
    assert!(p.primary_call(INNER).is_none());
}

#[test]
fn outer_calls_inner_five_times() {
    let mut p = profiler_with(false, &[(OUTER, "outer"), (INNER, "inner")]);
    p.begin_call(OUTER);
    for _ in 0..5 {
        leaf_call(&mut p, INNER, 10);
    }
    p.end_call(OUTER, 80);
    assert_eq!(p.primary_calls().len(), 1);
    let pc = p.primary_call(OUTER).unwrap();
    assert_eq!(pc.subcalls.len(), 1);
    let row = &pc.subcalls[0];
    assert_eq!(row.name, "inner");
    assert_eq!(row.ncalls, 5);
    assert_eq!(p.call_metrics(INNER).unwrap().ncalls, 5);
    let report = time_profiler::report::ProfileMetricsReport::new(false);
    let pct = report.get_relative_percentage(pc.primary.time_ns, row.time_ns);
    assert!(pct <= 10_000);
    assert_eq!(pct, 6250);
    let lines = p.report();
    assert_eq!(lines.len(), 4);
    assert!(lines[1].contains("Name: inner"));
    assert!(lines[1].contains("T%: 62.50%"));
    assert!(lines[1].contains("NCalls: [5]"));
}

#[test]
fn reentrant_primary_has_one_context() {
    let mut p = profiler_with(false, &[(OUTER, "outer")]);
    p.begin_call(OUTER);
    assert_eq!(p.active_primary(), Some(OUTER));
    p.begin_call(OUTER);
    assert_eq!(p.active_primary(), Some(OUTER));
    assert_eq!(p.primary_calls().len(), 1);
    p.end_call(OUTER, 5);
    assert_eq!(p.active_primary(), Some(OUTER));
    p.end_call(OUTER, 9);
    assert_eq!(p.active_primary(), None);
    let pc = p.primary_call(OUTER).unwrap();
    assert!(pc.subcalls.is_empty());
    assert_eq!(pc.primary.ncalls, 2);
    assert_eq!(pc.primary.time_ns, 14);
    assert_eq!(p.call_metrics(OUTER).unwrap().ncalls, 2);
}

#[test]
fn failed_primary_call_releases_the_slot() {
    let mut p = profiler_with(false, &[(OUTER, "outer"), (INNER, "inner")]);
    p.begin_call(OUTER);
    p.begin_call(INNER);
    p.abandon_call();
    assert_eq!(p.active_primary(), Some(OUTER));
    p.abandon_call();
    assert_eq!(p.active_primary(), None);
    assert_eq!(p.in_flight(), 0);
    assert_eq!(p.call_metrics(OUTER).unwrap().ncalls, 0);
    leaf_call(&mut p, INNER, 3);
    assert_eq!(p.active_primary(), None);
    assert_eq!(p.primary_call(INNER).unwrap().primary.ncalls, 1);
}

#[test]
fn realtime_report_is_due_when_primary_completes() {
    let mut p = profiler_with(true, &[(OUTER, "outer"), (INNER, "inner")]);
    p.begin_call(OUTER);
    assert!(!leaf_call(&mut p, INNER, 1));
    assert!(p.end_call(OUTER, 2));
    let mut q = profiler_with(false, &[(OUTER, "outer")]);
    assert!(!leaf_call(&mut q, OUTER, 2));
}

#[test]
fn report_twice_is_identical() {
    let mut p = profiler_with(false, &[(OUTER, "outer"), (INNER, "inner")]);
    p.begin_call(OUTER);
    leaf_call(&mut p, INNER, 250);
    p.end_call(OUTER, 1_000);
    let first = p.report();
    let second = p.report();
    assert_eq!(first, second);
}

#[test]
fn search_called_once() {
    let arr = [1, 2, 3];
    let mut p = profiler_with(false, &[(SEARCH, "search")]);
    p.begin_call(SEARCH);
    let idx = search(&arr, 2);
    p.end_call(SEARCH, 1_500);
    assert_eq!(idx, 1);
    assert_eq!(p.primary_calls().len(), 1);
    let pc = p.primary_call(SEARCH).unwrap();
    assert_eq!(pc.primary.ncalls, 1);
    assert!(pc.subcalls.is_empty());
    let lines = p.report();
    assert_eq!(lines.len(), 3);
    assert!(lines[2].contains("Total Time: [1.50\u{3bc}s]"));
}

#[test]
fn report_exact_text() {
    let mut p = profiler_with(false, &[(OUTER, "f"), (INNER, "g")]);
    p.begin_call(OUTER);
    leaf_call(&mut p, INNER, 250);
    p.end_call(OUTER, 1_000);
    let lines = p.report();
    let header = "\u{2588} PROFILE: f \u{2588}";
    assert_eq!(
        lines[0],
        format!("\x1b[32m\n{}\n{}\x1b[0m", header, "=".repeat(header.len()))
    );
    assert_eq!(
        lines[1],
        "\x1b[37mName: g\nTime: [250.00ns] \u{2014} T%: 25.00%\nNCalls: [1] \u{2014} PerCall: [250.00ns]\n\u{2014}\u{2014}\x1b[0m"
    );
    assert_eq!(
        lines[2],
        "\x1b[37mProfile Time: [1.00\u{3bc}s]\nNCalls: [1] \u{2014} PerCall: [1.00\u{3bc}s]\n\u{2014}\u{2014}\u{2014}\u{2014}\u{2014}\u{2014}\n\x1b[0m"
    );
    assert_eq!(
        lines[3],
        "\x1b[32m\u{2015}\u{2015}\u{2015} Total Time: [1.00\u{3bc}s] \u{2015}\u{2015}\u{2015}\n\n\n\x1b[0m"
    );
}

#[test]
fn grand_total_sums_primaries() {
    let mut p = profiler_with(true, &[(OUTER, "a"), (INNER, "b")]);
    leaf_call(&mut p, OUTER, 1_000_000);
    leaf_call(&mut p, INNER, 2_000_000);
    let lines = p.report();
    assert_eq!(lines.len(), 5);
    assert!(lines[0].starts_with("\x1b[33m"));
    assert!(lines[1].starts_with("\x1b[36m"));
    assert!(lines[4].contains("Total Time: [3.00ms]"));
}

#[test]
fn empty_report_has_only_the_total() {
    let p = TimeProfiler::new(false);
    let lines = p.report();
    assert_eq!(lines.len(), 1);
    assert!(lines[0].contains("Total Time: [0.00ns]"));
}
