//! The command line: its words, and the texts that are shown.

use relay::cli::{self, Command, Options};
use relay::mock::MockExecutor;
use relay::pipeline::Pipeline;
use relay::report::Status;
use relay::schedule::{self, Limits};

fn words(args: &[&str]) -> Vec<String> {
    args.iter().map(|s| s.to_string()).collect()
}

#[test]
fn options_are_read() {
    let o = cli::parse_options(&words(&["p.relay"])).unwrap();
    assert_eq!(o, Options { path: "p.relay".to_string(), jobs: 4, fail_fast: false });
    let o = cli::parse_options(&words(&["-j", "2", "a", "--fail-fast", "b", "--jobs", "+7"])).unwrap();
    assert_eq!(o, Options { path: "b".to_string(), jobs: 7, fail_fast: true });
}

#[test]
fn bad_options_have_their_messages() {
    let message = |args: &[&str]| cli::parse_options(&words(args)).unwrap_err();
    assert_eq!(message(&[]), "missing pipeline file");
    assert_eq!(message(&["p", "--jobs"]), "--jobs needs a number");
    assert_eq!(message(&["p", "-j", "x"]), "invalid --jobs value: x");
    assert_eq!(message(&["p", "-j", "0"]), "--jobs must be at least 1");
    assert_eq!(message(&["p", "-x"]), "unknown flag: -x");
    assert_eq!(message(&["-"]), "unknown flag: -");
}

#[test]
fn commands_are_read() {
    assert_eq!(cli::parse_command(&words(&["run", "x"])), Ok(Command::Run));
    assert_eq!(cli::parse_command(&words(&["plan"])), Ok(Command::Plan));
    assert_eq!(cli::parse_command(&words(&["graph"])), Ok(Command::Graph));
    for w in ["-h", "--help", "help"] {
        assert_eq!(cli::parse_command(&words(&[w])), Ok(Command::Help));
    }
    assert_eq!(cli::parse_command(&words(&[])), Err(cli::usage()));
    assert_eq!(
        cli::parse_command(&words(&["fly"])),
        Err(format!("unknown command 'fly'\n\n{}", cli::usage()))
    );
}

#[test]
fn the_usage_is_shown() {
    assert_eq!(
        cli::usage(),
        "\
relay - a readable CI/CD engine

usage:
  relay run   <pipeline> [--jobs N] [--fail-fast]   run the pipeline
  relay plan  <pipeline> [--jobs N]                 show the DAG and wave order, run nothing
  relay graph <pipeline>                            show the dependency graph"
    );
}

#[test]
fn base_directories() {
    let cases = [
        ("p.relay", "."),
        ("dir/p.relay", "dir"),
        ("a/b/p", "a/b"),
        ("/p", "/"),
        ("/", "."),
        ("", "."),
        (".", "."),
        ("..", "."),
        ("../p", ".."),
        ("./p", "."),
        ("a//p", "a"),
        ("a/p/", "a"),
        ("a/./p", "a"),
        ("a/.", "."),
        ("//p", "/"),
        (".p", "."),
        ("./a/p", "./a"),
    ];
    for (path, dir) in cases {
        assert_eq!(cli::base_dir(path), dir, "{path}");
        let std = std::path::Path::new(path)
            .parent()
            .filter(|p| !p.as_os_str().is_empty())
            .map(|p| p.to_str().unwrap().to_string())
            .unwrap_or_else(|| ".".to_string());
        assert_eq!(dir, std, "{path}");
    }
}

#[test]
fn marks() {
    assert_eq!(cli::mark(Status::Success), "ok       success");
    assert_eq!(cli::mark(Status::Cached), "==       cached");
    assert_eq!(cli::mark(Status::Failed), "xx       failed");
    assert_eq!(cli::mark(Status::Skipped), "--       skipped");
}

#[test]
fn a_run_is_shown_like_the_example() {
    let p = Pipeline::parse(
        "job setup {\n}\njob unit {\n needs setup\n}\njob docs {\n needs setup\n}\njob package {\n needs unit, docs\n}\njob deploy {\n needs package\n}\n",
    )
    .unwrap();
    let mut exec = MockExecutor::new().fail("unit", 3);
    let report = schedule::run(&p, &mut exec, Limits::new(4)).unwrap();
    let options = cli::parse_options(&words(&["examples/failure.relay"])).unwrap();
    assert_eq!(
        cli::run_text(&options, &report),
        "\
relay run: examples/failure.relay (--jobs 4)
  [ 0] setup                ok       success
  [ 1] unit                 xx       failed
  [ 2] docs                 ok       success
       package              --       skipped
       deploy               --       skipped
summary: 2 success, 0 cached, 1 failed, 2 skipped
"
    );
}

fn diamond() -> Pipeline {
    Pipeline::parse(
        "job fetch {\n}\njob build {\n needs fetch\n}\njob lint {\n needs fetch\n}\njob test {\n needs build, lint\n}\n",
    )
    .unwrap()
}

#[test]
fn a_plan_is_shown_like_the_example() {
    let options = cli::parse_options(&words(&["examples/diamond.relay", "--jobs", "2"])).unwrap();
    assert_eq!(
        cli::plan_text(&options, &diamond()).unwrap(),
        "\
plan: examples/diamond.relay (4 jobs, --jobs 2)

dependency graph:
  fetch (root)
  build <- fetch
  lint <- fetch
  test <- build, lint

execution waves (dependency order, up to 2 at once):
  wave 0: fetch
  wave 1: build, lint
  wave 2: test
"
    );
}

#[test]
fn a_graph_is_shown() {
    let options = cli::parse_options(&words(&["d"])).unwrap();
    assert_eq!(
        cli::graph_text(&options, &diamond()).unwrap(),
        "graph: d\n  fetch (root)\n  build <- fetch\n  lint <- fetch\n  test <- build, lint\n"
    );
    let bad = Pipeline::parse("job a {\n needs a\n}\n").unwrap();
    assert!(cli::graph_text(&options, &bad).is_err());
    assert!(cli::plan_text(&options, &bad).is_err());
}
