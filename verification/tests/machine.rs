//! The scheduler driven by hand.

use relay::cache::CacheEntry;
use relay::content::PathContent;
use relay::machine::{Action, Reply, Scheduler};
use relay::pipeline::Pipeline;
use relay::report::Status;
use relay::{Duration, JobOutcome};

#[test]
fn it_says_what_it_waits_for() {
    let p = Pipeline::parse(
        "job a {\n step s\n cache {\n paths q, p\n }\n}\njob b {\n needs a\n step t\n}\n",
    )
    .unwrap();
    let mut s = Scheduler::new(&p, 1, false).unwrap();
    match s.action() {
        Action::Probe { job, paths } => {
            assert_eq!(job, 0);
            assert_eq!(paths, vec!["p", "q"]);
        }
        _ => panic!("expected a probe"),
    }
    // An answer to something else changes nothing.
    s.reply(Reply::Finished);
    assert!(matches!(s.action(), Action::Probe { job: 0, .. }));
    s.reply(Reply::Contents(vec![PathContent::Missing, PathContent::Missing]));
    let key = match s.action() {
        Action::Lookup { key } => key,
        _ => panic!("expected a lookup"),
    };
    s.reply(Reply::Entry(None));
    assert!(matches!(s.action(), Action::Run { job: 0, .. }));
    let mut outcome = JobOutcome::success(Duration::from_millis(2));
    outcome.artifacts.insert("o", vec![1]);
    outcome.logs = "log".to_string();
    s.reply(Reply::Outcome(outcome));
    match s.action() {
        Action::Finish { job: 0, store: Some((k, entry)) } => {
            assert_eq!(k, key);
            assert_eq!(entry.artifacts, vec![("o".to_string(), vec![1])]);
            assert_eq!(entry.logs, "log");
        }
        _ => panic!("expected the end of the first job"),
    }
    s.reply(Reply::Finished);
    assert!(matches!(s.action(), Action::Probe { job: 1, .. }));
    s.reply(Reply::Contents(vec![]));
    s.reply(Reply::Entry(None));
    match s.action() {
        Action::Run { job: 1, inputs } => assert_eq!(inputs.get("o"), Some(&[1u8][..])),
        _ => panic!("expected the second job"),
    }
    s.reply(Reply::Outcome(JobOutcome::failure(Duration::zero())));
    assert!(matches!(s.action(), Action::Finish { job: 1, store: None }));
    s.reply(Reply::Finished);
    assert!(matches!(s.action(), Action::Done));
    let report = s.report();
    assert_eq!(report.status("a"), Some(Status::Success));
    assert_eq!(report.status("b"), Some(Status::Failed));
    assert_eq!(report.get("b").unwrap().start_nanos, 2_000_000);
}

#[test]
fn a_found_entry_resolves_a_job_at_once() {
    let p = Pipeline::parse("job a {\n}\njob b {\n needs a\n}\n").unwrap();
    let mut s = Scheduler::new(&p, 1, false).unwrap();
    s.reply(Reply::Contents(vec![]));
    s.reply(Reply::Entry(Some(CacheEntry {
        artifacts: vec![("z".to_string(), vec![1]), ("y".to_string(), vec![2]), ("z".to_string(), vec![3])],
        logs: "kept".to_string(),
    })));
    s.reply(Reply::Contents(vec![]));
    s.reply(Reply::Entry(None));
    match s.action() {
        Action::Run { job: 1, inputs } => {
            assert_eq!(inputs.len(), 2);
            assert_eq!(inputs.get("z"), Some(&[3u8][..]));
        }
        _ => panic!("expected the second job"),
    }
    let report = s.report();
    assert_eq!(report.status("a"), Some(Status::Cached));
    assert_eq!(report.get("a").unwrap().logs, "kept");
    assert_eq!(report.status("b"), Some(Status::Skipped), "not done yet");
}

#[test]
fn jobs_retire_by_their_ends_and_then_in_config_order() {
    let p = Pipeline::parse("job a {\n}\njob b {\n}\njob c {\n}\njob d {\n}\n").unwrap();
    let durations = [4u64, 2, 4, 2];
    let mut s = Scheduler::new(&p, 4, false).unwrap();
    let mut retired = vec![];
    loop {
        let reply = match s.action() {
            Action::Probe { .. } => Reply::Contents(vec![]),
            Action::Lookup { .. } => Reply::Entry(None),
            Action::Run { job, .. } => {
                Reply::Outcome(JobOutcome::success(Duration::from_millis(durations[job])))
            }
            Action::Finish { job, .. } => {
                retired.push(job);
                Reply::Finished
            }
            Action::Done => break,
        };
        s.reply(reply);
    }
    assert_eq!(retired, vec![1, 3, 0, 2]);
}

#[test]
fn each_run_is_followed_by_one_end_before_its_dependents_run() {
    let p = Pipeline::parse(
        "job a {\n}\njob b {\n needs a\n}\njob c {\n needs a, b\n}\njob d {\n needs c\n}\n",
    )
    .unwrap();
    let mut s = Scheduler::new(&p, 2, false).unwrap();
    let mut seen = vec![];
    loop {
        let reply = match s.action() {
            Action::Probe { .. } => Reply::Contents(vec![]),
            Action::Lookup { .. } => Reply::Entry(None),
            Action::Run { job, .. } => {
                seen.push(format!("run {job}"));
                Reply::Outcome(if job == 2 {
                    JobOutcome::failure(Duration::zero())
                } else {
                    JobOutcome::success(Duration::zero())
                })
            }
            Action::Finish { job, .. } => {
                seen.push(format!("end {job}"));
                Reply::Finished
            }
            Action::Done => break,
        };
        s.reply(reply);
    }
    assert_eq!(seen, vec!["run 0", "end 0", "run 1", "end 1", "run 2", "end 2"]);
    assert_eq!(s.report().status("d"), Some(Status::Skipped));
}
