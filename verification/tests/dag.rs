//! Graph validation: cycles and missing dependencies are rejected.

use relay::dag::Dag;
use relay::error::Error;
use relay::pipeline::{Job, Pipeline};

#[test]
fn cycle_is_detected() {
    let p = Pipeline::parse(
        "job a {\n  needs c\n  step x\n}\n\
         job b {\n  needs a\n  step x\n}\n\
         job c {\n  needs b\n  step x\n}\n",
    )
    .unwrap();
    match Dag::build(&p) {
        Err(Error::Cycle(nodes)) => assert_eq!(nodes.len(), 3),
        other => panic!("expected a cycle error, got {other:?}"),
    }
}

#[test]
fn self_loop_is_a_cycle() {
    let p = Pipeline::parse("job a {\n  needs a\n  step x\n}\n").unwrap();
    assert!(matches!(Dag::build(&p), Err(Error::Cycle(_))));
}

#[test]
fn missing_dependency_errors() {
    let p = Pipeline::parse("job a {\n  needs ghost\n  step x\n}\n").unwrap();
    match Dag::build(&p) {
        Err(Error::MissingDependency { job, needs }) => {
            assert_eq!(job, "a");
            assert_eq!(needs, "ghost");
        }
        other => panic!("expected a missing-dependency error, got {other:?}"),
    }
}

#[test]
fn duplicate_job_errors() {
    let err = Pipeline::parse("job a {\n  step x\n}\njob a {\n  step y\n}\n");
    assert!(matches!(err, Err(Error::DuplicateJob(_))));
}

#[test]
fn valid_graph_builds_and_layers() {
    let p = Pipeline::parse(
        "job a {\n  step x\n}\n\
         job b {\n  needs a\n  step x\n}\n\
         job c {\n  needs a, b\n  step x\n}\n",
    )
    .unwrap();
    let dag = Dag::build(&p).unwrap();
    assert_eq!(dag.levels, vec![0, 1, 2]);
    assert_eq!(dag.waves().len(), 3);
}

fn job(name: &str, needs: &[&str]) -> Job {
    let mut job = Job::new(name);
    job.needs = needs.iter().map(|s| s.to_string()).collect();
    job
}

#[test]
fn duplicate_names_are_found_in_a_built_pipeline() {
    let p = Pipeline { jobs: vec![job("a", &[]), job("b", &[]), job("a", &["ghost"])] };
    match Dag::build(&p) {
        Err(Error::DuplicateJob(name)) => assert_eq!(name, "a"),
        other => panic!("expected a duplicate, got {other:?}"),
    }
}

#[test]
fn repeated_needs_count_once() {
    let p = Pipeline { jobs: vec![job("a", &[]), job("b", &["a", "a"])] };
    let dag = Dag::build(&p).unwrap();
    assert_eq!(dag.deps, vec![vec![], vec![0]]);
    assert_eq!(dag.dependents, vec![vec![1], vec![]]);
    assert_eq!(dag.levels, vec![0, 1]);
}

#[test]
fn only_the_jobs_that_cannot_be_layered_are_named() {
    let p = Pipeline {
        jobs: vec![
            job("root", &[]),
            job("x", &["y"]),
            job("y", &["x", "root"]),
            job("after", &["y"]),
        ],
    };
    match Dag::build(&p) {
        Err(Error::Cycle(nodes)) => assert_eq!(nodes, vec!["x", "y", "after"]),
        other => panic!("expected a cycle, got {other:?}"),
    }
}

#[test]
fn waves_stand_in_config_order() {
    let p = Pipeline {
        jobs: vec![job("c", &["a"]), job("a", &[]), job("d", &["c", "b"]), job("b", &["a"])],
    };
    let dag = Dag::build(&p).unwrap();
    assert_eq!(dag.levels, vec![1, 0, 2, 1]);
    assert_eq!(dag.waves(), vec![vec![1], vec![0, 3], vec![2]]);
    assert_eq!(dag.len(), 4);
    assert!(!dag.is_empty());
    assert_eq!(dag.index_of("d"), Some(2));
    assert_eq!(dag.index_of("ghost"), None);
}

#[test]
fn an_empty_pipeline_has_no_waves() {
    let dag = Dag::build(&Pipeline { jobs: vec![] }).unwrap();
    assert!(dag.is_empty());
    assert!(dag.waves().is_empty());
}
