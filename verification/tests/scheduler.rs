//! Pure scheduler behavior over the mock executor. No real processes.

use relay::mock::MockExecutor;
use relay::pipeline::{Job, Pipeline};
use relay::report::Status;
use relay::schedule::{self, Limits};

/// Build a pipeline from (name, needs, continue_on_error) triples. Keeps the
/// tests focused on scheduling rather than config text.
fn pipeline(specs: &[(&str, &[&str], bool)]) -> Pipeline {
    let jobs = specs
        .iter()
        .map(|(name, needs, coe)| {
            let mut job = Job::new(*name);
            job.needs = needs.iter().map(|s| s.to_string()).collect();
            job.steps = vec!["run".to_string()];
            job.continue_on_error = *coe;
            job
        })
        .collect();
    Pipeline { jobs }
}

#[test]
fn dependency_order_is_respected() {
    let p = pipeline(&[("a", &[], false), ("b", &["a"], false), ("c", &["b"], false)]);
    let mut exec = MockExecutor::new().succeed("a", 10).succeed("b", 10).succeed("c", 10);
    let report = schedule::run(&p, &mut exec, Limits::new(4)).unwrap();

    let a = report.get("a").unwrap();
    let b = report.get("b").unwrap();
    let c = report.get("c").unwrap();
    assert!(a.start_nanos + a.duration.as_nanos() as u64 <= b.start_nanos);
    assert!(b.start_nanos + b.duration.as_nanos() as u64 <= c.start_nanos);
    assert!(report.succeeded());
}

#[test]
fn independent_jobs_run_up_to_the_limit_and_not_beyond() {
    let p = pipeline(&[("a", &[], false), ("b", &[], false), ("c", &[], false), ("d", &[], false)]);
    let mut exec = MockExecutor::new()
        .succeed("a", 10)
        .succeed("b", 10)
        .succeed("c", 10)
        .succeed("d", 10);
    let report = schedule::run(&p, &mut exec, Limits::new(2)).unwrap();

    assert_eq!(exec.max_concurrency, 2, "must run exactly 2 at once, never more");
    assert_eq!(report.count(Status::Success), 4);
}

#[test]
fn full_fan_out_saturates_the_limit() {
    let p = pipeline(&[
        ("a", &[], false),
        ("b", &[], false),
        ("c", &[], false),
        ("d", &[], false),
        ("e", &[], false),
    ]);
    let mut exec = MockExecutor::new()
        .succeed("a", 5)
        .succeed("b", 5)
        .succeed("c", 5)
        .succeed("d", 5)
        .succeed("e", 5);
    schedule::run(&p, &mut exec, Limits::new(3)).unwrap();
    assert_eq!(exec.max_concurrency, 3);
}

#[test]
fn failure_skips_transitive_dependents_and_does_not_run_them() {
    // a -> b -> c, and a fails. b and c must be SKIPPED and never executed.
    let p = pipeline(&[
        ("a", &[], false),
        ("b", &["a"], false),
        ("c", &["b"], false),
        ("d", &[], false),
    ]);
    let mut exec = MockExecutor::new()
        .fail("a", 10)
        .succeed("b", 10)
        .succeed("c", 10)
        .succeed("d", 10);
    let report = schedule::run(&p, &mut exec, Limits::new(4)).unwrap();

    assert_eq!(report.status("a"), Some(Status::Failed));
    assert_eq!(report.status("b"), Some(Status::Skipped));
    assert_eq!(report.status("c"), Some(Status::Skipped));
    assert_eq!(report.status("d"), Some(Status::Success), "independent branch keeps running");
    assert!(!exec.ran_job("b"), "skipped job must not be executed");
    assert!(!exec.ran_job("c"), "skipped job must not be executed");
    assert!(!report.succeeded());
}

#[test]
fn continue_on_error_keeps_dependents_running() {
    let p = pipeline(&[("a", &[], true), ("b", &["a"], false)]);
    let mut exec = MockExecutor::new().fail("a", 10).succeed("b", 10);
    let report = schedule::run(&p, &mut exec, Limits::new(4)).unwrap();

    assert_eq!(report.status("a"), Some(Status::Failed));
    assert_eq!(report.status("b"), Some(Status::Success));
    assert!(exec.ran_job("b"), "dependent of continue-on-error job must run");
}

#[test]
fn fail_fast_skips_remaining_dependent_work() {
    let p = pipeline(&[("a", &[], false), ("b", &[], false), ("c", &["b"], false)]);
    // a fails fast; b already started concurrently finishes, but c is skipped.
    let mut exec = MockExecutor::new().fail("a", 5).succeed("b", 50).succeed("c", 5);
    let report = schedule::run(&p, &mut exec, Limits::new(4).fail_fast(true)).unwrap();

    assert_eq!(report.status("a"), Some(Status::Failed));
    assert_eq!(report.status("c"), Some(Status::Skipped));
    assert!(!exec.ran_job("c"));
}

#[test]
fn schedule_is_deterministic_across_runs() {
    let p = pipeline(&[
        ("a", &[], false),
        ("b", &["a"], false),
        ("c", &["a"], false),
        ("d", &["b", "c"], false),
    ]);

    let order = |ms: u64| {
        let mut exec = MockExecutor::new()
            .succeed("a", ms)
            .succeed("b", ms)
            .succeed("c", ms)
            .succeed("d", ms);
        let _ = schedule::run(&p, &mut exec, Limits::new(2)).unwrap();
        exec.started
    };
    assert_eq!(order(10), order(10));
    let started = order(10);
    let b = started.iter().position(|n| n == "b").unwrap();
    let c = started.iter().position(|n| n == "c").unwrap();
    assert!(b < c, "config order tie-break: b starts before c");
}

#[test]
fn diamond_waves_are_correct() {
    let p = pipeline(&[
        ("a", &[], false),
        ("b", &["a"], false),
        ("c", &["a"], false),
        ("d", &["b", "c"], false),
    ]);
    let mut exec = MockExecutor::new();
    let report = schedule::run(&p, &mut exec, Limits::new(4)).unwrap();
    assert_eq!(report.get("a").unwrap().wave, 0);
    assert_eq!(report.get("b").unwrap().wave, 1);
    assert_eq!(report.get("c").unwrap().wave, 1);
    assert_eq!(report.get("d").unwrap().wave, 2);
}

#[test]
fn jobs_in_flight_finish_when_the_run_is_cut_short() {
    let p = pipeline(&[("a", &[], false), ("b", &[], false), ("c", &[], false)]);
    let mut exec = MockExecutor::new().fail("a", 5).succeed("b", 50).succeed("c", 5);
    let report = schedule::run(&p, &mut exec, Limits::new(2).fail_fast(true)).unwrap();
    assert_eq!(report.status("b"), Some(Status::Success));
    assert_eq!(report.status("c"), Some(Status::Skipped));
    assert_eq!(exec.started, vec!["a", "b"]);
}

#[test]
fn a_failure_that_is_passed_over_does_not_cut_the_run_short() {
    let p = pipeline(&[("a", &[], true), ("b", &["a"], false)]);
    let mut exec = MockExecutor::new().fail("a", 5);
    let report = schedule::run(&p, &mut exec, Limits::new(1).fail_fast(true)).unwrap();
    assert_eq!(report.status("b"), Some(Status::Success));
}

#[test]
fn the_clock_and_the_start_order_follow_the_durations() {
    let p = pipeline(&[
        ("slow", &[], false),
        ("quick", &[], false),
        ("late", &["quick"], false),
        ("last", &["slow", "late"], false),
    ]);
    let mut exec = MockExecutor::new().succeed("slow", 30).succeed("quick", 10).succeed("late", 5);
    let report = schedule::run(&p, &mut exec, Limits::new(2)).unwrap();
    assert_eq!(exec.started, vec!["slow", "quick", "late", "last"]);
    assert_eq!(exec.ran, exec.started);
    let late = report.get("late").unwrap();
    assert_eq!(late.start_nanos, 10_000_000);
    assert_eq!(late.start_order, 2);
    let last = report.get("last").unwrap();
    assert_eq!(last.start_nanos, 30_000_000);
    assert_eq!(last.duration, relay::Duration::from_millis(1));
    assert_eq!(exec.max_concurrency, 2);
    assert_eq!(exec.peak_running, vec!["slow", "quick"]);
}

#[test]
fn skipped_jobs_have_no_record_of_a_start() {
    let p = pipeline(&[("a", &[], false), ("b", &["a"], false)]);
    let mut exec = MockExecutor::new().fail("a", 1);
    let report = schedule::run(&p, &mut exec, Limits::new(1)).unwrap();
    let b = report.get("b").unwrap();
    assert_eq!(b.start_order, usize::MAX);
    assert_eq!(b.start_nanos, 0);
    assert_eq!(b.duration, relay::Duration::zero());
    assert_eq!(report.summary(), "0 success, 0 cached, 1 failed, 1 skipped");
    let names: Vec<String> = report.by_start().iter().map(|r| r.name.clone()).collect();
    assert_eq!(names, vec!["a", "b"]);
}

#[test]
fn no_jobs_at_once_means_one() {
    assert_eq!(Limits::new(0).jobs, 1);
    assert_eq!(Limits::new(3).jobs, 3);
    let mut limits = Limits::new(2);
    limits.jobs = 0;
    let p = pipeline(&[("a", &[], false), ("b", &[], false)]);
    let mut exec = MockExecutor::new();
    let report = schedule::run(&p, &mut exec, limits).unwrap();
    assert_eq!(report.count(Status::Success), 2);
    assert_eq!(exec.max_concurrency, 1);
}

#[test]
fn a_bad_graph_is_an_error_and_nothing_runs() {
    let p = pipeline(&[("a", &["b"], false), ("b", &["a"], false)]);
    let mut exec = MockExecutor::new();
    assert!(schedule::run(&p, &mut exec, Limits::new(1)).is_err());
    assert!(exec.started.is_empty());
}

#[test]
fn a_clock_at_its_end_stays_there() {
    let p = pipeline(&[("a", &[], false), ("b", &["a"], false)]);
    let mut exec = MockExecutor::new().succeed("a", u64::MAX).succeed("b", 1);
    let report = schedule::run(&p, &mut exec, Limits::new(1)).unwrap();
    // 2^64 - 1 milliseconds, cut to the 64 bits of the clock.
    let nanos = (u64::MAX as u128 * 1_000_000) as u64;
    assert_eq!(report.get("b").unwrap().start_nanos, nanos);
    assert_eq!(report.status("b"), Some(Status::Success));
}

#[test]
fn defaults_of_the_mock() {
    let mock = MockExecutor::default();
    assert_eq!(mock.max_concurrency, 0);
    assert!(!mock.ran_job("a"));
}

#[test]
fn jobs_overlap_up_to_the_limit_while_others_wait() {
    let p = pipeline(&[
        ("a", &[], false),
        ("b", &[], false),
        ("c", &[], false),
        ("d", &["a"], false),
        ("e", &[], false),
    ]);
    let mut exec = MockExecutor::new()
        .succeed("a", 7)
        .succeed("b", 3)
        .succeed("c", 9)
        .succeed("d", 2)
        .fail("e", 4);
    let report = schedule::run(&p, &mut exec, Limits::new(2)).unwrap();
    let times: Vec<(u128, u128)> = report
        .jobs
        .iter()
        .map(|r| (r.start_nanos as u128, r.start_nanos as u128 + r.duration.as_nanos()))
        .collect();
    assert_eq!(
        times,
        vec![
            (0, 7_000_000),
            (0, 3_000_000),
            (3_000_000, 12_000_000),
            (7_000_000, 9_000_000),
            (9_000_000, 13_000_000),
        ]
    );
    for ms in 0..14u128 {
        let t = ms * 1_000_000;
        let live = times.iter().filter(|(from, to)| *from <= t && t < *to).count();
        assert!(live <= 2);
        for (record, (from, _)) in report.jobs.iter().zip(&times) {
            let ready = if record.name == "d" { times[0].1 } else { 0 };
            if ready <= t && t < *from {
                assert_eq!(live, 2, "{} waits at {ms}", record.name);
            }
        }
    }
}

#[test]
fn the_first_listed_of_the_ready_jobs_starts_first() {
    let p = pipeline(&[
        ("late", &["root"], false),
        ("root", &[], false),
        ("x", &[], false),
        ("y", &[], false),
    ]);
    let mut exec = MockExecutor::new().succeed("root", 5).succeed("x", 5).succeed("y", 5);
    let report = schedule::run(&p, &mut exec, Limits::new(1)).unwrap();
    assert_eq!(exec.started, vec!["root", "late", "x", "y"]);
    assert_eq!(report.get("late").unwrap().start_nanos, 5_000_000);
}

#[test]
fn a_need_that_took_no_time_may_come_too_late() {
    // `zero` is over at the instant at which `x` starts, but `x` starts first.
    let p = pipeline(&[("late", &["zero"], false), ("x", &[], false), ("zero", &[], false)]);
    let mut exec = MockExecutor::new().succeed("zero", 0).succeed("x", 5);
    let report = schedule::run(&p, &mut exec, Limits::new(3)).unwrap();
    assert_eq!(exec.started, vec!["x", "zero", "late"]);
    assert_eq!(report.get("late").unwrap().start_nanos, 0);
}

#[test]
fn start_orders_have_no_gap_and_mark_the_skipped() {
    let p = pipeline(&[
        ("bad", &[], false),
        ("after", &["bad"], false),
        ("zero", &[], false),
        ("next", &["zero"], false),
    ]);
    let mut exec = MockExecutor::new().fail("bad", 3).succeed("zero", 0).succeed("next", 0);
    let report = schedule::run(&p, &mut exec, Limits::new(1)).unwrap();
    let orders: Vec<usize> = report.jobs.iter().map(|r| r.start_order).collect();
    assert_eq!(orders, vec![0, usize::MAX, 1, 2]);
    assert_eq!(report.status("after"), Some(Status::Skipped));
    assert_eq!(report.get("next").unwrap().wave, 1);
}
