//! The parts: hashing, order, paths, artifacts, durations, reports.

use relay::executor::{Artifacts, JobOutcome};
use relay::hash::{fnv1a, Hasher};
use relay::report::{JobRecord, Report, Status};
use relay::safepath::is_confined;
use relay::{Duration, ShellExecutor};

#[test]
fn fnv1a_has_its_published_values() {
    assert_eq!(fnv1a(b""), 0xcbf29ce484222325);
    assert_eq!(fnv1a(b"a"), 0xaf63dc4c8601ec8c);
    assert_eq!(fnv1a(b"foobar"), 0x85944171f73967e8);
}

#[test]
fn writes_are_one_after_the_other_and_delimited() {
    let mut h = Hasher::new();
    h.write(b"foo");
    h.write(b"bar");
    assert_eq!(h.finish(), fnv1a(b"foobar"));
    let mut a = Hasher::default();
    a.write_str("ab");
    a.write_str("c");
    let mut b = Hasher::default();
    b.write_str("a");
    b.write_str("bc");
    assert_ne!(a.finish(), b.finish());
    let mut n = Hasher::new();
    n.write_u64(1);
    assert_eq!(n.finish(), fnv1a(&[1, 0, 0, 0, 0, 0, 0, 0]));
    assert_eq!(n.clone().finish(), n.finish());
}

#[test]
fn one_changed_byte_changes_the_digest() {
    let base = fnv1a(b"0123456789");
    for k in 0..10 {
        let mut v = b"0123456789".to_vec();
        v[k] ^= 1;
        assert_ne!(fnv1a(&v), base);
    }
}

#[test]
fn confined_paths() {
    for p in ["a", "a/b", ".", "./a", "", "a//b", "..a", "a..", "a/...", "a/."] {
        assert!(is_confined(p), "{p}");
    }
    for p in ["/", "/a", "..", "../a", "a/..", "a/../b", "a/b/.."] {
        assert!(!is_confined(p), "{p}");
    }
}

#[test]
fn artifacts_are_kept_by_name() {
    let mut a = Artifacts::new();
    assert!(a.is_empty());
    a.insert("b", vec![1]);
    a.insert("a", vec![2]);
    a.insert("b", vec![3]);
    assert_eq!(a.len(), 2);
    assert_eq!(a.get("b"), Some(&[3u8][..]));
    assert_eq!(a.get("c"), None);
    let names: Vec<&str> = a.iter().iter().map(|(k, _)| k.as_str()).collect();
    assert_eq!(names, vec!["a", "b"]);
    let mut other = Artifacts::default();
    other.insert("a", vec![9]);
    other.insert("c", vec![8]);
    a.merge(&other);
    assert_eq!(a.get("a"), Some(&[9u8][..]));
    assert_eq!(a.get("b"), Some(&[3u8][..]));
    assert_eq!(a.len(), 3);
    assert_eq!(a.clone(), a);
    assert_ne!(a, other);
}

#[test]
fn artifact_names_stand_in_byte_order() {
    let mut a = Artifacts::new();
    for n in ["\u{ffff}", "b", "\u{10000}", "B", "ba", ""] {
        a.insert(n, vec![]);
    }
    let names: Vec<&str> = a.iter().iter().map(|(k, _)| k.as_str()).collect();
    assert_eq!(names, vec!["", "B", "b", "ba", "\u{ffff}", "\u{10000}"]);
}

#[test]
fn outcomes() {
    let ok = JobOutcome::success(Duration::from_millis(1500));
    assert!(ok.success);
    assert_eq!(ok.exit_code, Some(0));
    assert_eq!(ok.duration, Duration { secs: 1, nanos: 500_000_000 });
    let bad = JobOutcome::failure(Duration::zero()).clone();
    assert!(!bad.success);
    assert_eq!(bad.exit_code, Some(1));
    assert!(bad.logs.is_empty());
    assert!(bad.artifacts.is_empty());
}

#[test]
fn durations() {
    let d = Duration { secs: 2, nanos: 5 };
    assert_eq!(d.as_secs(), 2);
    assert_eq!(d.as_nanos(), 2_000_000_005);
    assert_eq!(d.as_ticks(), 2_000_000_005);
    let long = Duration::from_secs(u64::MAX);
    assert_eq!(long.as_ticks(), (u64::MAX as u128 * 1_000_000_000) as u64);
}

fn record(name: &str, status: Status, start_order: usize) -> JobRecord {
    JobRecord {
        name: name.to_string(),
        status,
        wave: 0,
        start_order,
        start_nanos: 0,
        duration: Duration::zero(),
        logs: String::new(),
    }
}

#[test]
fn reports_are_read_by_name_status_and_start() {
    let r = Report {
        jobs: vec![
            record("a", Status::Skipped, usize::MAX),
            record("b", Status::Success, 2),
            record("c", Status::Cached, 0),
            record("d", Status::Skipped, usize::MAX),
            record("e", Status::Success, 1),
        ],
    };
    assert!(r.succeeded());
    assert_eq!(r.count(Status::Success), 2);
    assert_eq!(r.count(Status::Failed), 0);
    assert_eq!(r.status("c"), Some(Status::Cached));
    assert_eq!(r.status("x"), None);
    assert!(r.get("x").is_none());
    let names: Vec<&str> = r.by_start().iter().map(|j| j.name.as_str()).collect();
    assert_eq!(names, vec!["c", "e", "b", "a", "d"]);
    assert_eq!(r.summary(), "2 success, 1 cached, 0 failed, 2 skipped");
    assert_eq!(Status::Success.as_str(), "success");
    assert_eq!(Status::Failed.as_str(), "failed");
    assert_eq!(Status::Skipped.as_str(), "skipped");
    assert_eq!(Status::Cached.as_str(), "cached");
    assert!(Report::default().succeeded());
}

#[test]
fn shell_settings() {
    let s = ShellExecutor::new("dir");
    assert_eq!(s.base_dir, "dir");
    assert_eq!(s.timeout, None);
    let t = ShellExecutor::with_timeout("dir", Duration::from_secs(3));
    assert_eq!(t.timeout, Some(Duration::from_secs(3)));
}
