//! What is decided when a job is run by the shell.

use relay::pipeline::{Job, Pipeline};
use relay::shell::{self, OutputResult, ShellAction, ShellRun, StepResult, StepWatch};
use relay::{Duration, ShellExecutor};

fn ended(success: bool, code: i32, out: &str, err: &[u8], timed_out: bool) -> StepResult {
    StepResult::Ended {
        success,
        code: Some(code),
        stdout: out.as_bytes().to_vec(),
        stderr: err.to_vec(),
        timed_out,
    }
}

fn job() -> Job {
    Pipeline::parse("job a {\n step one\n step two\n produces x, y\n}\n").unwrap().jobs[0].clone()
}

#[test]
fn steps_run_in_order_and_outputs_are_collected() {
    let job = job();
    let mut run = ShellRun::new(&job);
    assert_eq!(run.action(), ShellAction::Step(0));
    run.take_step(ended(true, 0, "1", b"e", false));
    assert_eq!(run.action(), ShellAction::Step(1));
    run.take_step(ended(true, 0, "2", &[0xff], false));
    assert_eq!(run.action(), ShellAction::Collect(0));
    run.take_output(OutputResult::Found { data: vec![5] });
    assert_eq!(run.action(), ShellAction::Collect(1));
    run.take_output(OutputResult::Missing { error: "gone".to_string() });
    assert_eq!(run.action(), ShellAction::Done);
    let o = run.into_outcome(Duration::from_secs(2));
    assert!(o.success);
    assert_eq!(o.exit_code, Some(0));
    assert_eq!(o.logs, "1e2\u{fffd}\n[relay] declared output missing: y (gone)\n");
    assert_eq!(o.artifacts.get("x"), Some(&[5u8][..]));
    assert_eq!(o.artifacts.len(), 1);
    assert_eq!(o.duration, Duration::from_secs(2));
}

#[test]
fn the_first_failing_step_is_the_last() {
    let job = job();
    let mut run = ShellRun::new(&job);
    run.take_step(ended(false, 3, "oops", b"", false));
    assert_eq!(run.action(), ShellAction::Done);
    let o = run.into_outcome(Duration::zero());
    assert!(!o.success);
    assert_eq!(o.exit_code, Some(3));
    assert_eq!(o.logs, "oops");
    assert!(o.artifacts.is_empty());
}

#[test]
fn a_step_that_took_too_long_has_failed() {
    let job = job();
    let mut run = ShellRun::new(&job);
    run.take_step(StepResult::Ended {
        success: true,
        code: None,
        stdout: b"part".to_vec(),
        stderr: vec![],
        timed_out: true,
    });
    assert_eq!(run.action(), ShellAction::Done);
    let o = run.into_outcome(Duration::zero());
    assert!(!o.success);
    assert_eq!(o.exit_code, None);
    assert_eq!(o.logs, "part\n[relay] step timed out: one\n");
}

#[test]
fn a_step_that_cannot_be_launched_has_failed() {
    let job = job();
    let mut run = ShellRun::new(&job);
    run.take_step(StepResult::NotLaunched { error: "no sh".to_string() });
    let o = run.into_outcome(Duration::zero());
    assert!(!o.success);
    assert_eq!(o.exit_code, None);
    assert_eq!(o.logs, "\n[relay] failed to launch step 'one': no sh\n");
}

#[test]
fn outputs_outside_the_workspace_are_refused() {
    let mut job = Job::new("a");
    job.produces = vec!["/etc/passwd".to_string(), "ok".to_string(), "../up".to_string()];
    let mut run = ShellRun::new(&job);
    assert_eq!(run.action(), ShellAction::Collect(1));
    run.take_output(OutputResult::Found { data: vec![1] });
    assert_eq!(run.action(), ShellAction::Done);
    let o = run.into_outcome(Duration::zero());
    assert!(o.success);
    assert_eq!(
        o.logs,
        "\n[relay] declared output missing: /etc/passwd (path escapes the workspace)\n\
         \n[relay] declared output missing: ../up (path escapes the workspace)\n"
    );
}

#[test]
fn the_tighter_limit_applies() {
    let mut job = Job::new("a");
    let none = ShellExecutor::new(".");
    let some = ShellExecutor::with_timeout(".", Duration::from_secs(10));
    assert_eq!(none.step_limit(&job, Duration::from_secs(5)), None);
    assert_eq!(some.step_limit(&job, Duration::from_secs(5)), Some(10_000_000_000));
    job.timeout = Some(Duration::from_secs(12));
    assert_eq!(none.step_limit(&job, Duration::from_secs(5)), Some(7_000_000_000));
    assert_eq!(some.step_limit(&job, Duration::from_secs(1)), Some(10_000_000_000));
    assert_eq!(some.step_limit(&job, Duration::from_secs(5)), Some(7_000_000_000));
    assert_eq!(some.step_limit(&job, Duration::from_secs(13)), Some(0));
}

#[test]
fn a_step_is_killed_only_past_its_limit() {
    let at = Duration::from_secs(10);
    assert_eq!(shell::watch_step(None, at, false), StepWatch::Wait);
    assert_eq!(shell::watch_step(Some(10_000_000_000), at, false), StepWatch::Wait);
    assert_eq!(shell::watch_step(Some(9_999_999_999), at, false), StepWatch::Kill);
    assert_eq!(shell::watch_step(Some(0), at, true), StepWatch::Take);
}
