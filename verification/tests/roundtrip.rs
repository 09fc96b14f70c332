//! The parser and printer round-trip.

use relay::duration::Duration;
use relay::error::Error;
use relay::pipeline::Pipeline;

#[test]
fn parse_print_parse_is_stable() {
    let src = "\
job fetch {
  step git clone https://example.com/repo
  produces repo/src
}

job build {
  needs fetch
  env RUST_LOG = debug
  env CI = 1
  step cargo build
  step cargo doc
  produces target/app
  cache {
    key v1
    paths src, Cargo.toml
  }
  continue-on-error
}
";
    let first = Pipeline::parse(src).unwrap();
    let printed = first.to_string();
    let second = Pipeline::parse(&printed).unwrap();
    assert_eq!(first, second, "round-trip must preserve the pipeline exactly");
    // Reprinting the reparsed form is idempotent.
    assert_eq!(printed, second.to_string());
}

#[test]
fn comments_and_blank_lines_are_ignored() {
    let src = "\
# a comment
job a {
  # inner comment
  step echo hi

}
";
    let p = Pipeline::parse(src).unwrap();
    assert_eq!(p.jobs.len(), 1);
    assert_eq!(p.jobs[0].steps, vec!["echo hi".to_string()]);
}

#[test]
fn parse_errors_report_a_line() {
    let err = Pipeline::parse("job a {\n  bogus directive\n}\n").unwrap_err();
    assert!(err.to_string().contains("line 2"), "got: {}", err.to_string());
}

#[test]
fn the_printed_form_is_canonical() {
    let src = "job   a{  \r\n needs x ,, y,\n env  =  \n env K=a=b\n step   run it  \n timeout +90\n cache{\n paths  p/q ,r\n key  v 1\n }\n }";
    let p = Pipeline::parse(src).unwrap();
    assert_eq!(
        p.to_string(),
        "job a {\n  needs x, y\n  env  = \n  env K = a=b\n  step run it\n  timeout 90\n  cache {\n    key v 1\n    paths p/q, r\n  }\n}\n"
    );
    assert_eq!(p.jobs[0].env[0], (String::new(), String::new()));
    assert_eq!(p.jobs[0].env[1], ("K".to_string(), "a=b".to_string()));
    assert_eq!(p.jobs[0].timeout, Some(Duration::from_secs(90)));
    assert_eq!(Pipeline::parse(&p.to_string()).unwrap(), p);
}

#[test]
fn two_jobs_are_printed_with_a_blank_line_between() {
    let p = Pipeline::parse("job a {\n}\njob b {\nneeds a\n}\n").unwrap();
    assert_eq!(p.to_string(), "job a {\n}\n\njob b {\n  needs a\n}\n");
    assert_eq!(p.job("b").unwrap().needs, vec!["a".to_string()]);
    assert!(p.job("c").is_none());
}

fn message(src: &str) -> String {
    Pipeline::parse(src).unwrap_err().to_string()
}

#[test]
fn every_way_to_be_rejected_has_its_message() {
    assert_eq!(
        message("step x\n"),
        "parse error on line 1: expected a job definition, found: step x"
    );
    assert_eq!(message("\njob a\n"), "parse error on line 2: expected '{' after the job name");
    assert_eq!(message("job {\n}\n"), "parse error on line 1: missing job name");
    assert_eq!(
        message("job a b c {\n}\n"),
        "parse error on line 1: invalid job name 'a b c': names may not contain whitespace or control characters"
    );
    assert_eq!(
        message("job a\u{7}b {\n}\n"),
        "parse error on line 1: invalid job name 'a\u{7}b': names may not contain whitespace or control characters"
    );
    assert_eq!(message("job a {\n}\njob a {\n}\n"), "duplicate job name: a");
    assert_eq!(
        message("job a {\n env FOO\n}\n"),
        "parse error on line 2: env requires 'KEY = VALUE'"
    );
    assert_eq!(
        message("job a {\n produces ok, ../up, /abs\n}\n"),
        "parse error on line 2: produces path '../up' escapes the workspace (absolute or '..' not allowed)"
    );
    assert_eq!(
        message("job a {\n timeout 1.5\n}\n"),
        "parse error on line 2: timeout requires whole seconds, found: 1.5"
    );
    assert_eq!(
        message("job a {\n timeout 18446744073709551616\n}\n"),
        "parse error on line 2: timeout requires whole seconds, found: 18446744073709551616"
    );
    assert_eq!(
        message("job a {\n needs\n}\n"),
        "parse error on line 2: unknown directive in job 'a': needs"
    );
    assert_eq!(
        message("job a {\n step x\n\n"),
        "parse error on line 3: unterminated job 'a' (missing '}')"
    );
    assert_eq!(
        message("job a {\n cache {\n paths /etc\n }\n}\n"),
        "parse error on line 3: cache path '/etc' escapes the workspace (absolute or '..' not allowed)"
    );
    assert_eq!(
        message("job a {\n cache {\n label x\n }\n}\n"),
        "parse error on line 3: unknown cache directive: label x"
    );
    assert_eq!(
        message("job a {\n cache {\n key x\n"),
        "parse error on line 0: unterminated cache block (missing '}')"
    );
}

#[test]
fn other_errors_have_their_messages() {
    assert_eq!(
        Error::MissingDependency { job: "a".to_string(), needs: "b".to_string() }.to_string(),
        "job 'a' needs 'b', which is not defined"
    );
    assert_eq!(
        Error::Cycle(vec!["a".to_string(), "b".to_string()]).to_string(),
        "dependency cycle among jobs: a, b"
    );
    assert_eq!(Error::Io("gone".to_string()).to_string(), "io error: gone");
}

#[test]
fn later_lines_replace_or_add_as_their_kind_says() {
    let p = Pipeline::parse(
        "job a {\n needs x\n needs y\n step one\n step two\n cache {\n key k\n }\n cache {\n paths p\n }\n timeout 1\n timeout 2\n}\n",
    )
    .unwrap();
    let job = &p.jobs[0];
    assert_eq!(job.needs, vec!["y".to_string()]);
    assert_eq!(job.steps, vec!["one".to_string(), "two".to_string()]);
    let cache = job.cache.as_ref().unwrap();
    assert_eq!(cache.key, None);
    assert_eq!(cache.paths, vec!["p".to_string()]);
    assert_eq!(job.timeout, Some(Duration::from_secs(2)));
    assert!(!job.continue_on_error);
}

#[test]
fn an_empty_text_is_an_empty_pipeline() {
    assert!(Pipeline::parse("").unwrap().jobs.is_empty());
    assert_eq!(Pipeline { jobs: vec![] }.to_string(), "");
}
