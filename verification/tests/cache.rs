//! Content-hash caching over the mock executor.

use relay::cache::{self, CacheEntry, CacheStore};
use relay::content::{DirEntry, PathContent};
use relay::entry;
use relay::error::Error;
use relay::mock::MockExecutor;
use relay::pipeline::{Cache, Job, Pipeline};
use relay::report::Status;
use relay::schedule::{self, Limits};

fn pipeline_over() -> Pipeline {
    Pipeline::parse(
        "job build {\n step compile\n cache {\n key v1\n paths input.txt\n }\n }\n",
    )
    .unwrap()
}

#[test]
fn unchanged_inputs_hit_the_cache_and_do_not_execute() {
    let p = pipeline_over();
    let mut cache = CacheStore::in_memory();
    let limits = || Limits::new(2).base_dir("work");

    let mut first = MockExecutor::new().succeed("build", 5).with_file("input.txt", b"hello");
    let r1 = schedule::run_with_cache(&p, &mut first, &mut cache, limits()).unwrap();
    assert_eq!(r1.status("build"), Some(Status::Success));
    assert!(first.ran_job("build"));

    let mut second = MockExecutor::new().succeed("build", 5).with_file("input.txt", b"hello");
    let r2 = schedule::run_with_cache(&p, &mut second, &mut cache, limits()).unwrap();
    assert_eq!(r2.status("build"), Some(Status::Cached));
    assert!(!second.ran_job("build"), "cache hit must not call the executor");
}

#[test]
fn changing_an_input_busts_the_key() {
    let p = pipeline_over();
    let mut cache = CacheStore::in_memory();
    let limits = || Limits::new(2).base_dir("work");

    let mut first = MockExecutor::new().succeed("build", 5).with_file("input.txt", b"hello");
    schedule::run_with_cache(&p, &mut first, &mut cache, limits()).unwrap();

    let mut second = MockExecutor::new().succeed("build", 5).with_file("input.txt", b"changed");
    let r2 = schedule::run_with_cache(&p, &mut second, &mut cache, limits()).unwrap();
    assert_eq!(r2.status("build"), Some(Status::Success));
    assert!(second.ran_job("build"), "changed input must force a re-run");
}

#[test]
fn key_is_deterministic() {
    let p = pipeline_over();
    let job = &p.jobs[0];
    let k1 = cache::compute_key(job, &vec![PathContent::File(b"hello".to_vec())]);
    let k2 = cache::compute_key(job, &vec![PathContent::File(b"hello".to_vec())]);
    assert_eq!(k1, k2);
}

fn file(bytes: &[u8]) -> Vec<PathContent> {
    vec![PathContent::File(bytes.to_vec())]
}

#[test]
fn one_byte_of_an_input_changes_the_key() {
    let job = &pipeline_over().jobs[0];
    assert_ne!(cache::compute_key(job, &file(b"hello")), cache::compute_key(job, &file(b"hellp")));
    assert_ne!(cache::compute_key(job, &file(b"hello")), cache::compute_key(job, &file(b"jello")));
}

/// The key as a plain sum of writes.
fn digest(pieces: &[&[u8]]) -> u64 {
    let mut h: u64 = 0xcbf29ce484222325;
    for piece in pieces {
        for b in piece.iter() {
            h = (h ^ (*b as u64)).wrapping_mul(0x0000_0100_0000_01b3);
        }
    }
    h
}

fn framed(s: &str) -> Vec<u8> {
    let mut v = (s.len() as u64).to_le_bytes().to_vec();
    v.extend_from_slice(s.as_bytes());
    v
}

#[test]
fn the_key_is_the_digest_of_its_parts() {
    let p = Pipeline::parse(
        "job b {\n needs a\n env K = v\n step s\n timeout 7\n continue-on-error\n cache {\n key l\n paths z, y\n }\n}\njob a {\n}\n",
    )
    .unwrap();
    let mut inputs = relay::Artifacts::new();
    inputs.insert("out", b"data".to_vec());
    let contents = vec![
        PathContent::File(b"why".to_vec()),
        PathContent::dir(vec![
            DirEntry { name: b"k".to_vec(), content: PathContent::Unreadable },
            DirEntry { name: vec![0xff], content: PathContent::Missing },
            DirEntry { name: b"d".to_vec(), content: PathContent::UnreadableDir },
        ]),
    ];
    let key = cache::compute_key_with_deps(&p.jobs[0], &contents, &inputs, &vec![42]);
    let expected = digest(&[
        &framed("relay-cache-v1"),
        &framed("b"),
        &framed("step"),
        &framed("s"),
        &framed("env"),
        &framed("K"),
        &framed("v"),
        &framed("needs"),
        &framed("a"),
        &1u64.to_le_bytes(),
        &framed("timeout"),
        &7u64.to_le_bytes(),
        &0u64.to_le_bytes(),
        &framed("dep"),
        &42u64.to_le_bytes(),
        &framed("input"),
        &framed("out"),
        &4u64.to_le_bytes(),
        b"data",
        &framed("label"),
        &framed("l"),
        &framed("path"),
        &framed("y"),
        &framed("file"),
        &3u64.to_le_bytes(),
        b"why",
        &framed("path"),
        &framed("z"),
        &framed("dir"),
        &framed("d"),
        &framed("dir"),
        &framed("unreadable"),
        &framed("k"),
        &framed("unreadable"),
        &framed("\u{fffd}"),
        &framed("missing"),
    ]);
    assert_eq!(key, expected);
    assert_eq!(cache::input_paths(&p.jobs[0]), vec!["y", "z"]);
}

#[test]
fn a_path_that_leaves_the_workspace_counts_as_missing() {
    let mut job = Job::new("a");
    job.cache = Some(Cache { key: None, paths: vec!["../secret".to_string()] });
    assert_eq!(
        cache::compute_key(&job, &file(b"one")),
        cache::compute_key(&job, &vec![PathContent::Missing])
    );
    let p = Pipeline { jobs: vec![job] };
    let mut store = CacheStore::default();
    let mut exec = MockExecutor::new().with_file("../secret", b"one");
    schedule::run_with_cache(&p, &mut exec, &mut store, Limits::new(1)).unwrap();
    let mut exec = MockExecutor::new().with_file("../secret", b"two");
    let r = schedule::run_with_cache(&p, &mut exec, &mut store, Limits::new(1)).unwrap();
    assert_eq!(r.status("a"), Some(Status::Cached));
}

#[test]
fn a_hit_restores_outputs_for_dependents() {
    let p = Pipeline::parse(
        "job make {\n step m\n cache {\n paths src\n }\n}\njob use {\n needs make\n step u\n cache {\n }\n}\n",
    )
    .unwrap();
    let mut store = CacheStore::in_memory();
    let mock = || MockExecutor::new().produce("make", "b.bin", b"BB").produce("make", "a.bin", b"A");
    let mut first = mock();
    let r1 = schedule::run_with_cache(&p, &mut first, &mut store, Limits::new(1)).unwrap();
    assert_eq!(r1.count(Status::Success), 2);
    let mut second = mock();
    let r2 = schedule::run_with_cache(&p, &mut second, &mut store, Limits::new(1)).unwrap();
    assert_eq!(r2.count(Status::Cached), 2);
    assert!(second.ran.is_empty());
    // A cached job counts as started, takes no time and holds no slot.
    assert_eq!(r2.get("use").unwrap().start_order, 1);
    assert_eq!(r2.get("use").unwrap().start_nanos, 0);
    assert_eq!(second.max_concurrency, 0);
}

#[test]
fn a_changed_upstream_output_busts_the_key_downstream() {
    let p = Pipeline::parse(
        "job make {\n step m\n}\njob use {\n needs make\n step u\n cache {\n }\n}\n",
    )
    .unwrap();
    let mut store = CacheStore::in_memory();
    let mut first = MockExecutor::new().produce("make", "o", b"1");
    schedule::run_with_cache(&p, &mut first, &mut store, Limits::new(1)).unwrap();
    let mut same = MockExecutor::new().produce("make", "o", b"1");
    let r = schedule::run_with_cache(&p, &mut same, &mut store, Limits::new(1)).unwrap();
    assert_eq!(r.status("make"), Some(Status::Success), "no cache block, so never stored");
    assert_eq!(r.status("use"), Some(Status::Cached));
    let mut other = MockExecutor::new().produce("make", "o", b"2");
    let r = schedule::run_with_cache(&p, &mut other, &mut store, Limits::new(1)).unwrap();
    assert_eq!(r.status("use"), Some(Status::Success));
}

#[test]
fn failures_are_not_stored() {
    let p = pipeline_over();
    let mut store = CacheStore::in_memory();
    let mut first = MockExecutor::new().fail("build", 1);
    schedule::run_with_cache(&p, &mut first, &mut store, Limits::new(1)).unwrap();
    let mut second = MockExecutor::new();
    let r = schedule::run_with_cache(&p, &mut second, &mut store, Limits::new(1)).unwrap();
    assert_eq!(r.status("build"), Some(Status::Success));
}

#[test]
fn a_hit_is_taken_while_all_slots_are_in_use() {
    let p = Pipeline::parse(
        "job slow {\n step s\n}\njob wait {\n step w\n}\njob kept {\n step k\n cache {\n }\n}\n",
    )
    .unwrap();
    let mut store = CacheStore::in_memory();
    let only = Pipeline { jobs: vec![p.jobs[2].clone()] };
    schedule::run_with_cache(&only, &mut MockExecutor::new(), &mut store, Limits::new(1)).unwrap();
    let mut exec = MockExecutor::new().succeed("slow", 9);
    let r = schedule::run_with_cache(&p, &mut exec, &mut store, Limits::new(1)).unwrap();
    assert_eq!(r.status("kept"), Some(Status::Cached));
    assert_eq!(r.get("kept").unwrap().start_order, 1);
    assert_eq!(r.get("wait").unwrap().start_order, 2);
    assert_eq!(r.get("wait").unwrap().start_nanos, 9_000_000);
}

#[test]
fn entries_survive_the_way_to_disk() {
    let e = CacheEntry {
        artifacts: vec![
            ("out/a".to_string(), vec![1, 2, 3]),
            ("\u{e9}".to_string(), vec![]),
        ],
        logs: "line\n\u{1f980}".to_string(),
    };
    let bytes = e.encode();
    assert_eq!(
        bytes,
        [
            &2u32.to_le_bytes()[..],
            &5u32.to_le_bytes()[..],
            b"out/a",
            &3u64.to_le_bytes()[..],
            &[1, 2, 3],
            &2u32.to_le_bytes()[..],
            "\u{e9}".as_bytes(),
            &0u64.to_le_bytes()[..],
            &9u64.to_le_bytes()[..],
            "line\n\u{1f980}".as_bytes(),
        ]
        .concat()
    );
    assert_eq!(CacheEntry::decode(&bytes).unwrap(), e);
    let mut longer = bytes.clone();
    longer.push(7);
    assert_eq!(CacheEntry::decode(&longer).unwrap(), e);
    for n in 0..bytes.len() {
        match CacheEntry::decode(&bytes[..n]) {
            Err(Error::Io(msg)) => assert_eq!(msg, "truncated cache entry"),
            other => panic!("expected a truncated entry, got {other:?}"),
        }
    }
}

#[test]
fn invalid_text_in_an_entry_is_replaced() {
    let mut bytes = 0u32.to_le_bytes().to_vec();
    bytes.extend_from_slice(&2u64.to_le_bytes());
    bytes.extend_from_slice(&[b'a', 0xff]);
    assert_eq!(CacheEntry::decode(&bytes).unwrap().logs, "a\u{fffd}");
}

#[test]
fn a_store_loads_what_was_kept() {
    let mut store = CacheStore::in_memory();
    let e = CacheEntry { artifacts: vec![], logs: "l".to_string() };
    assert!(store.load(5, &e.encode()).is_ok());
    assert_eq!(store.get(5), Some(e));
    assert!(store.load(6, &[1, 2]).is_err());
    assert_eq!(store.get(6), None);
    store.put(5, CacheEntry { artifacts: vec![], logs: "m".to_string() });
    assert_eq!(store.get(5).unwrap().logs, "m");
}

#[test]
fn entry_files_are_named_by_sixteen_digits() {
    assert_eq!(entry::entry_file(0), "0000000000000000.entry");
    assert_eq!(entry::entry_file(0xdead_beef), "00000000deadbeef.entry");
    assert_eq!(entry::entry_file(u64::MAX), "ffffffffffffffff.entry");
}

fn nested(byte: u8) -> Vec<PathContent> {
    let inner = PathContent::dir(vec![DirEntry {
        name: b"lib.rs".to_vec(),
        content: PathContent::File(vec![7, byte, 9]),
    }]);
    let outer = PathContent::dir(vec![DirEntry { name: b"src".to_vec(), content: inner }]);
    vec![outer]
}

#[test]
fn one_byte_below_a_directory_changes_the_key() {
    let job = &pipeline_over().jobs[0];
    assert_eq!(cache::compute_key(job, &nested(1)), cache::compute_key(job, &nested(1)));
    assert_ne!(cache::compute_key(job, &nested(1)), cache::compute_key(job, &nested(2)));
}

#[test]
fn every_part_of_a_job_has_a_say_in_its_key() {
    let base = pipeline_over().jobs[0].clone();
    let mut jobs = vec![base.clone()];
    let mut change = |edit: fn(&mut Job)| {
        let mut job = base.clone();
        edit(&mut job);
        jobs.push(job);
    };
    change(|j| j.name = "build2".to_string());
    change(|j| j.steps = vec!["com".to_string(), "pile".to_string()]);
    change(|j| j.env = vec![("K".to_string(), "V".to_string())]);
    change(|j| j.env = vec![("KV".to_string(), "".to_string())]);
    change(|j| j.needs = vec!["fetch".to_string()]);
    change(|j| j.continue_on_error = true);
    change(|j| j.timeout = Some(relay::Duration::from_secs(9)));
    change(|j| j.cache = None);
    change(|j| j.cache = Some(Cache { key: None, paths: vec!["input.txt".to_string()] }));
    change(|j| {
        j.cache = Some(Cache {
            key: Some("v2".to_string()),
            paths: vec!["input.txt".to_string()],
        })
    });
    change(|j| {
        j.cache = Some(Cache {
            key: Some("v1".to_string()),
            paths: vec!["other.txt".to_string()],
        })
    });

    let none = relay::Artifacts::new();
    let mut keys: Vec<u64> = jobs
        .iter()
        .map(|j| cache::compute_key_with_deps(j, &file(b"hello"), &none, &vec![]))
        .collect();
    keys.push(cache::compute_key_with_deps(&base, &file(b"hello"), &none, &vec![1]));
    keys.push(cache::compute_key_with_deps(&base, &file(b"hello"), &none, &vec![2]));
    let mut some = relay::Artifacts::new();
    some.insert("out", b"x".to_vec());
    keys.push(cache::compute_key_with_deps(&base, &file(b"hello"), &some, &vec![]));
    for a in 0..keys.len() {
        for b in 0..a {
            assert_ne!(keys[a], keys[b], "{a} and {b}");
        }
    }
}

#[test]
fn an_unchanged_pipeline_is_not_run_again() {
    let p = Pipeline::parse(
        "job a {\n step s\n cache {\n paths in\n }\n}\n\
         job b {\n needs a\n step s\n cache {\n paths in\n }\n}\n\
         job c {\n needs a, b\n step s\n cache {\n paths in\n }\n}\n",
    )
    .unwrap();
    let mock = || MockExecutor::new().produce("a", "out", b"1").with_file("in", b"x");
    let mut cache = CacheStore::in_memory();
    let mut first = mock();
    let r1 = schedule::run_with_cache(&p, &mut first, &mut cache, Limits::new(2)).unwrap();
    assert_eq!(r1.count(Status::Success), 3);
    let mut second = mock();
    let r2 = schedule::run_with_cache(&p, &mut second, &mut cache, Limits::new(2)).unwrap();
    assert_eq!(r2.count(Status::Cached), 3);
    assert!(!second.ran_job("a") && !second.ran_job("b") && !second.ran_job("c"));
}

#[test]
fn one_byte_of_the_config_changes_the_key() {
    let mut base = pipeline_over().jobs[0].clone();
    base.env = vec![("KEY".to_string(), "value".to_string())];
    let key = |j: &Job| cache::compute_key(j, &file(b"hello"));
    let mut step = base.clone();
    step.steps[0] = "compilf".to_string();
    assert_ne!(key(&base), key(&step));
    let mut value = base.clone();
    value.env[0].1 = "valuf".to_string();
    assert_ne!(key(&base), key(&value));
    let mut name = base.clone();
    name.env[0].0 = "KEX".to_string();
    assert_ne!(key(&base), key(&name));
    let mut label = base.clone();
    label.cache = Some(Cache { key: Some("v2".to_string()), paths: vec!["input.txt".to_string()] });
    assert_ne!(key(&base), key(&label));
    let mut flag = base.clone();
    flag.continue_on_error = !flag.continue_on_error;
    assert_ne!(key(&base), key(&flag));
}
