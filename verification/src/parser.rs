//! The parser of the pipeline config.
//!
//! Grammar (whitespace-insensitive, `#` starts a comment line):
//!
//! ```text
//! job build {
//!   needs fetch, lint
//!   env RUST_LOG = debug
//!   step cargo build
//!   produces target/app
//!   timeout 60
//!   cache {
//!     key v1
//!     paths src, Cargo.toml
//!   }
//!   continue-on-error
//! }
//! ```
//!
//! A config is read line by line. What a line means depends on what it stands in:
//! nothing, a job, or the cache block of a job.

use vstd::prelude::*;
use vstd::string::*;

use crate::duration::Duration;
use crate::error::{Error, ErrorView};
use crate::pipeline;
use crate::pipeline::{Cache, CacheView, Job, JobView, Pipeline};
use crate::safepath;
use crate::text;

verus! {

/// How far the reading of a config has come.
pub enum ParseView {
    /// Between jobs.
    Top { jobs: Seq<JobView> },
    /// Within a job.
    InJob { jobs: Seq<JobView>, job: JobView },
    /// Within the cache block of a job.
    InCache { jobs: Seq<JobView>, job: JobView, cache: CacheView },
    /// The config was rejected.
    Failed(ErrorView),
}

/// A line that means nothing: a blank one or a comment.
pub open spec fn skippable(line: Seq<char>) -> bool {
    line.len() == 0 || line[0] == '#'
}

/// The config is rejected because of line `ln`.
pub open spec fn rejected(ln: nat, msg: Seq<char>) -> ParseView {
    ParseView::Failed(ErrorView::Parse { line: ln, msg })
}

/// The name holds white space or a control character.
pub open spec fn bad_name(name: Seq<char>) -> bool {
    exists|k: int|
        0 <= k < name.len() && (text::is_space(#[trigger] name[k]) || text::is_ctrl(name[k]))
}

/// The first path that is not confined.
pub open spec fn first_loose(paths: Seq<Seq<char>>) -> Option<Seq<char>>
    decreases paths.len(),
{
    if paths.len() == 0 {
        None
    } else if !safepath::confined(paths[0]) {
        Some(paths[0])
    } else {
        first_loose(paths.drop_first())
    }
}

/// What a line means between jobs: it opens one.
pub open spec fn top_line(jobs: Seq<JobView>, line: Seq<char>, ln: nat) -> ParseView {
    match text::strip_prefix(line, "job "@) {
        None => rejected(ln, "expected a job definition, found: "@ + line),
        Some(rest) => {
            let head = text::trim(rest);
            if head.len() == 0 || head.last() != '{' {
                rejected(ln, "expected '{' after the job name"@)
            } else {
                let name = text::trim(head.drop_last());
                if name.len() == 0 {
                    rejected(ln, "missing job name"@)
                } else if bad_name(name) {
                    rejected(
                        ln,
                        "invalid job name '"@ + name
                            + "': names may not contain whitespace or control characters"@,
                    )
                } else if pipeline::position(jobs, name) < jobs.len() {
                    ParseView::Failed(ErrorView::DuplicateJob(name))
                } else {
                    ParseView::InJob { jobs, job: JobView::named(name) }
                }
            }
        },
    }
}

/// What an `env` line means, from after the word on.
pub open spec fn env_line(
    jobs: Seq<JobView>,
    job: JobView,
    rest: Seq<char>,
    ln: nat,
) -> ParseView {
    let k = text::find(rest, '=');
    if k == rest.len() {
        rejected(ln, "env requires 'KEY = VALUE'"@)
    } else {
        ParseView::InJob {
            jobs,
            job: JobView {
                env: job.env.push((text::trim(rest.take(k)), text::trim(rest.skip(k + 1)))),
                ..job
            },
        }
    }
}

/// What a `produces` line means, from after the word on.
pub open spec fn produces_line(
    jobs: Seq<JobView>,
    job: JobView,
    rest: Seq<char>,
    ln: nat,
) -> ParseView {
    let paths = text::list_items(rest);
    match first_loose(paths) {
        Some(p) => rejected(
            ln,
            "produces path '"@ + p + "' escapes the workspace (absolute or '..' not allowed)"@,
        ),
        None => ParseView::InJob { jobs, job: JobView { produces: paths, ..job } },
    }
}

/// What a `timeout` line means, from after the word on.
pub open spec fn timeout_line(
    jobs: Seq<JobView>,
    job: JobView,
    rest: Seq<char>,
    ln: nat,
) -> ParseView {
    match text::parse_number(text::trim(rest), u64::MAX as nat) {
        Some(secs) => ParseView::InJob {
            jobs,
            job: JobView { timeout: Some(Duration { secs: secs as u64, nanos: 0 }), ..job },
        },
        None => rejected(ln, "timeout requires whole seconds, found: "@ + text::trim(rest)),
    }
}

/// What a line means within a job.
pub open spec fn job_line(
    jobs: Seq<JobView>,
    job: JobView,
    line: Seq<char>,
    ln: nat,
) -> ParseView {
    if line == "}"@ {
        ParseView::Top { jobs: jobs.push(job) }
    } else if let Some(rest) = text::strip_prefix(line, "needs "@) {
        ParseView::InJob { jobs, job: JobView { needs: text::list_items(rest), ..job } }
    } else if let Some(rest) = text::strip_prefix(line, "env "@) {
        env_line(jobs, job, rest, ln)
    } else if let Some(rest) = text::strip_prefix(line, "step "@) {
        ParseView::InJob { jobs, job: JobView { steps: job.steps.push(text::trim(rest)), ..job } }
    } else if let Some(rest) = text::strip_prefix(line, "produces "@) {
        produces_line(jobs, job, rest, ln)
    } else if let Some(rest) = text::strip_prefix(line, "timeout "@) {
        timeout_line(jobs, job, rest, ln)
    } else if line == "continue-on-error"@ {
        ParseView::InJob { jobs, job: JobView { continue_on_error: true, ..job } }
    } else if line == "cache {"@ || line == "cache{"@ {
        ParseView::InCache { jobs, job, cache: CacheView::blank() }
    } else {
        rejected(ln, "unknown directive in job '"@ + job.name + "': "@ + line)
    }
}

/// What a line means within a cache block.
pub open spec fn cache_line(
    jobs: Seq<JobView>,
    job: JobView,
    cache: CacheView,
    line: Seq<char>,
    ln: nat,
) -> ParseView {
    if line == "}"@ {
        ParseView::InJob { jobs, job: JobView { cache: Some(cache), ..job } }
    } else if let Some(rest) = text::strip_prefix(line, "key "@) {
        ParseView::InCache {
            jobs,
            job,
            cache: CacheView { key: Some(text::trim(rest)), ..cache },
        }
    } else if let Some(rest) = text::strip_prefix(line, "paths "@) {
        let paths = text::list_items(rest);
        match first_loose(paths) {
            Some(p) => rejected(
                ln,
                "cache path '"@ + p + "' escapes the workspace (absolute or '..' not allowed)"@,
            ),
            None => ParseView::InCache { jobs, job, cache: CacheView { paths, ..cache } },
        }
    } else {
        rejected(ln, "unknown cache directive: "@ + line)
    }
}

/// How the reading goes on with line `ln`.
pub open spec fn step(state: ParseView, line: Seq<char>, ln: nat) -> ParseView {
    match state {
        ParseView::Failed(_) => state,
        _ => if skippable(line) {
            state
        } else {
            match state {
                ParseView::Top { jobs } => top_line(jobs, line, ln),
                ParseView::InJob { jobs, job } => job_line(jobs, job, line, ln),
                ParseView::InCache { jobs, job, cache } => cache_line(jobs, job, cache, line, ln),
                ParseView::Failed(_) => state,
            }
        },
    }
}

/// How far the reading has come after the first `n` lines.
pub open spec fn state_at(lines: Seq<Seq<char>>, n: int) -> ParseView
    decreases n,
{
    if n <= 0 {
        ParseView::Top { jobs: Seq::empty() }
    } else {
        step(state_at(lines, n - 1), lines[n - 1], n as nat)
    }
}

/// What the reading of `n` lines has come to.
pub open spec fn conclude(state: ParseView, n: nat) -> Result<Seq<JobView>, ErrorView> {
    match state {
        ParseView::Top { jobs } => Ok(jobs),
        ParseView::InJob { job, .. } => Err(
            ErrorView::Parse {
                line: n,
                msg: "unterminated job '"@ + job.name + "' (missing '}')"@,
            },
        ),
        ParseView::InCache { .. } => Err(
            ErrorView::Parse { line: 0, msg: "unterminated cache block (missing '}')"@ },
        ),
        ParseView::Failed(e) => Err(e),
    }
}

/// What trimmed lines say.
pub open spec fn parse_lines(lines: Seq<Seq<char>>) -> Result<Seq<JobView>, ErrorView> {
    conclude(state_at(lines, lines.len() as int), lines.len())
}

/// What a config text says: its jobs, or why it is rejected.
pub open spec fn parsed(input: Seq<char>) -> Result<Seq<JobView>, ErrorView> {
    parse_lines(text::lines(input))
}

/// A rejected config stays rejected.
proof fn lemma_failed(lines: Seq<Seq<char>>, i: int, n: int)
    requires
        0 <= i <= n,
        state_at(lines, i) is Failed,
    ensures
        state_at(lines, n) == state_at(lines, i),
    decreases n,
{
    if i < n {
        lemma_failed(lines, i, n - 1);
    }
}

/// The three texts one after the other.
fn joined(a: &str, b: &str, c: &str) -> (s: String)
    ensures
        s@ == a@ + b@ + c@,
{
    let mut s = a.to_owned();
    s.append(b);
    s.append(c);
    s
}

/// The error that rejects a config because of line `i + 1`, which leads from the
/// state before it to a rejection with that message.
fn reject(lines: &Vec<Vec<char>>, i: usize, msg: String) -> (e: Error)
    requires
        i < lines.len(),
        state_at(text::char_views(lines@), i + 1) == rejected((i + 1) as nat, msg@),
    ensures
        parse_lines(text::char_views(lines@)) == Err::<Seq<JobView>, ErrorView>(e@),
{
    proof {
        let all = text::char_views(lines@);
        lemma_failed(all, i + 1, all.len() as int);
    }
    Error::parse(i + 1, msg)
}

/// True for a blank line and a comment.
fn is_skippable(line: &Vec<char>) -> (b: bool)
    ensures
        b == skippable(line@),
{
    line.len() == 0 || line[0] == '#'
}

/// True when the name holds white space or a control character.
fn is_bad_name(name: &Vec<char>) -> (b: bool)
    ensures
        b == bad_name(name@),
{
    let mut i: usize = 0;
    while i < name.len()
        invariant
            i <= name.len(),
            forall|k: int|
                0 <= k < i ==> !(text::is_space(#[trigger] name@[k]) || text::is_ctrl(name@[k])),
        decreases name.len() - i,
    {
        let c = name[i];
        if text::is_whitespace(c) || text::is_control(c) {
            assert(text::is_space(name@[i as int]) || text::is_ctrl(name@[i as int]));
            return true;
        }
        i += 1;
    }
    false
}

/// True when a job has that name.
fn is_taken(jobs: &Vec<Job>, name: &String) -> (b: bool)
    ensures
        b == (pipeline::position(jobs@.map_values(|j: Job| j@), name@) < jobs@.len()),
{
    let ghost all = jobs@.map_values(|j: Job| j@);
    let mut i: usize = 0;
    while i < jobs.len()
        invariant
            i <= jobs.len(),
            all == jobs@.map_values(|j: Job| j@),
            forall|j: int| 0 <= j < i ==> (#[trigger] all[j]).name != name@,
        decreases jobs.len() - i,
    {
        assert(all[i as int].name == jobs@[i as int].name@);
        if jobs[i].name == *name {
            proof {
                pipeline::lemma_position(all, name@, i as int);
            }
            return true;
        }
        i += 1;
    }
    proof {
        pipeline::lemma_position(all, name@, i as int);
    }
    false
}

proof fn lemma_first_loose(paths: Seq<Seq<char>>, k: int)
    requires
        0 <= k <= paths.len(),
        forall|j: int| 0 <= j < k ==> safepath::confined(#[trigger] paths[j]),
        k == paths.len() || !safepath::confined(paths[k]),
    ensures
        first_loose(paths) == (if k < paths.len() {
            Some(paths[k])
        } else {
            None
        }),
    decreases paths.len(),
{
    if k > 0 {
        lemma_first_loose(paths.drop_first(), k - 1);
    }
}

/// The position of the first path that is not confined, or the number of paths.
fn find_loose(paths: &Vec<String>) -> (k: usize)
    ensures
        k <= paths.len(),
        first_loose(text::views(paths@)) == (if k < paths.len() {
            Some(paths@[k as int]@)
        } else {
            None
        }),
{
    let ghost all = text::views(paths@);
    let mut k: usize = 0;
    while k < paths.len() && safepath::is_confined(paths[k].as_str())
        invariant
            k <= paths.len(),
            all == text::views(paths@),
            forall|j: int| 0 <= j < k ==> safepath::confined(#[trigger] all[j]),
        decreases paths.len() - k,
    {
        assert(all[k as int] == paths@[k as int]@);
        k += 1;
    }
    proof {
        if k < paths.len() {
            assert(all[k as int] == paths@[k as int]@);
        }
        lemma_first_loose(all, k as int);
    }
    k
}

/// Reads the lines of a cache block from line `start + 1` on, and gives the line
/// after it.
fn parse_cache(
    lines: &Vec<Vec<char>>,
    start: usize,
    Ghost(jobs): Ghost<Seq<JobView>>,
    Ghost(job): Ghost<JobView>,
) -> (r: Result<(Cache, usize), Error>)
    requires
        start <= lines.len(),
        state_at(text::char_views(lines@), start as int) == (ParseView::InCache {
            jobs,
            job,
            cache: CacheView::blank(),
        }),
    ensures
        match r {
            Ok((cache, next)) => start < next <= lines.len() && state_at(
                text::char_views(lines@),
                next as int,
            ) == (ParseView::InJob { jobs, job: JobView { cache: Some(cache@), ..job } }),
            Err(e) => parse_lines(text::char_views(lines@)) == Err::<Seq<JobView>, ErrorView>(e@),
        },
{
    let ghost all = text::char_views(lines@);
    let mut cache = Cache { key: None, paths: Vec::new() };
    assert(cache@ =~= CacheView::blank());
    let mut i: usize = start;
    while i < lines.len()
        invariant
            start <= i <= lines.len(),
            all == text::char_views(lines@),
            state_at(all, i as int) == (ParseView::InCache { jobs, job, cache: cache@ }),
        decreases lines.len() - i,
    {
        let line = &lines[i];
        let ghost before = cache@;
        assert(all[i as int] == line@);
        assert(state_at(all, i + 1) == step(state_at(all, i as int), line@, (i + 1) as nat));
        if is_skippable(line) {
            i += 1;
            continue ;
        }
        if text::same(line, "}") {
            return Ok((cache, i + 1));
        }
        if let Some(rest) = text::after_prefix(line, "key ") {
            cache.key = Some(text::string_of(&text::trim_chars(&rest)));
            assert(cache@ =~= (CacheView { key: Some(text::trim(rest@)), ..before }));
        } else if let Some(rest) = text::after_prefix(line, "paths ") {
            let paths = text::split_list(&rest);
            let k = find_loose(&paths);
            if k < paths.len() {
                let msg = joined(
                    "cache path '",
                    paths[k].as_str(),
                    "' escapes the workspace (absolute or '..' not allowed)",
                );
                return Err(reject(lines, i, msg));
            }
            cache.paths = paths;
            assert(cache@ =~= (CacheView { paths: text::list_items(rest@), ..before }));
        } else {
            let msg = joined("unknown cache directive: ", text::string_of(line).as_str(), "");
            proof {
                reveal_strlit("");
                assert(msg@ =~= "unknown cache directive: "@ + line@);
            }
            return Err(reject(lines, i, msg));
        }
        i += 1;
    }
    Err(Error::parse(0, "unterminated cache block (missing '}')".to_owned()))
}

/// Reads the lines of a job from line `start + 1` on, and gives the line after it.
fn parse_job(
    name: &String,
    lines: &Vec<Vec<char>>,
    start: usize,
    Ghost(jobs): Ghost<Seq<JobView>>,
) -> (r: Result<(Job, usize), Error>)
    requires
        start <= lines.len(),
        state_at(text::char_views(lines@), start as int) == (ParseView::InJob {
            jobs,
            job: JobView::named(name@),
        }),
    ensures
        match r {
            Ok((job, next)) => start < next <= lines.len() && state_at(
                text::char_views(lines@),
                next as int,
            ) == (ParseView::Top { jobs: jobs.push(job@) }),
            Err(e) => parse_lines(text::char_views(lines@)) == Err::<Seq<JobView>, ErrorView>(e@),
        },
{
    let ghost all = text::char_views(lines@);
    let mut job = Job::new(name.as_str());
    let mut i: usize = start;
    while i < lines.len()
        invariant
            start <= i <= lines.len(),
            all == text::char_views(lines@),
            job@.name == name@,
            state_at(all, i as int) == (ParseView::InJob { jobs, job: job@ }),
        decreases lines.len() - i,
    {
        let line = &lines[i];
        let ghost before = job@;
        assert(all[i as int] == line@);
        assert(state_at(all, i + 1) == step(state_at(all, i as int), line@, (i + 1) as nat));
        if is_skippable(line) {
            i += 1;
            continue ;
        }
        if text::same(line, "}") {
            return Ok((job, i + 1));
        }
        if let Some(rest) = text::after_prefix(line, "needs ") {
            job.needs = text::split_list(&rest);
            assert(job@ =~= (JobView { needs: text::list_items(rest@), ..before }));
        } else if let Some(rest) = text::after_prefix(line, "env ") {
            let k = text::find_char(&rest, '=');
            if k == rest.len() {
                return Err(reject(lines, i, "env requires 'KEY = VALUE'".to_owned()));
            }
            let left = text::slice(&rest, 0, k);
            let right = text::slice(&rest, k + 1, rest.len());
            assert(left@ =~= rest@.take(k as int));
            assert(right@ =~= rest@.skip(k + 1));
            job.env.push(
                (
                    text::string_of(&text::trim_chars(&left)),
                    text::string_of(&text::trim_chars(&right)),
                ),
            );
            assert(job@.env =~= before.env.push((text::trim(left@), text::trim(right@))));
        } else if let Some(rest) = text::after_prefix(line, "step ") {
            job.steps.push(text::string_of(&text::trim_chars(&rest)));
            assert(job@.steps =~= before.steps.push(text::trim(rest@)));
        } else if let Some(rest) = text::after_prefix(line, "produces ") {
            let paths = text::split_list(&rest);
            let k = find_loose(&paths);
            if k < paths.len() {
                let msg = joined(
                    "produces path '",
                    paths[k].as_str(),
                    "' escapes the workspace (absolute or '..' not allowed)",
                );
                return Err(reject(lines, i, msg));
            }
            job.produces = paths;
            assert(job@ =~= (JobView { produces: text::list_items(rest@), ..before }));
        } else if let Some(rest) = text::after_prefix(line, "timeout ") {
            let number = text::trim_chars(&rest);
            match text::parse_u64(&number, u64::MAX) {
                Some(secs) => {
                    job.timeout = Some(Duration::from_secs(secs));
                },
                None => {
                    let msg = joined(
                        "timeout requires whole seconds, found: ",
                        text::string_of(&number).as_str(),
                        "",
                    );
                    proof {
                        reveal_strlit("");
                        assert(msg@ =~= "timeout requires whole seconds, found: "@ + number@);
                    }
                    return Err(reject(lines, i, msg));
                },
            }
        } else if text::same(line, "continue-on-error") {
            job.continue_on_error = true;
        } else if text::same(line, "cache {") || text::same(line, "cache{") {
            match parse_cache(lines, i + 1, Ghost(jobs), Ghost(before)) {
                Ok((cache, next)) => {
                    job.cache = Some(cache);
                    i = next;
                    continue ;
                },
                Err(e) => {
                    return Err(e);
                },
            }
        } else {
            let mut msg = joined("unknown directive in job '", name.as_str(), "': ");
            msg.append(text::string_of(line).as_str());
            return Err(reject(lines, i, msg));
        }
        i += 1;
    }
    Err(
        Error::parse(
            lines.len(),
            joined("unterminated job '", name.as_str(), "' (missing '}')"),
        ),
    )
}

/// The name in a line that opens a job, or why there is none.
fn parse_name(
    lines: &Vec<Vec<char>>,
    i: usize,
    jobs: &Vec<Job>,
) -> (r: Result<String, Error>)
    requires
        i < lines.len(),
        !skippable(lines@[i as int]@),
        state_at(text::char_views(lines@), i as int) == (ParseView::Top {
            jobs: jobs@.map_values(|j: Job| j@),
        }),
    ensures
        match r {
            Ok(name) => state_at(text::char_views(lines@), i + 1) == (ParseView::InJob {
                jobs: jobs@.map_values(|j: Job| j@),
                job: JobView::named(name@),
            }),
            Err(e) => parse_lines(text::char_views(lines@)) == Err::<Seq<JobView>, ErrorView>(e@),
        },
{
    let ghost all = text::char_views(lines@);
    let line = &lines[i];
    assert(all[i as int] == line@);
    assert(state_at(all, i + 1) == step(state_at(all, i as int), line@, (i + 1) as nat));
    let rest = match text::after_prefix(line, "job ") {
        Some(rest) => rest,
        None => {
            let msg = joined(
                "expected a job definition, found: ",
                text::string_of(line).as_str(),
                "",
            );
            proof {
                reveal_strlit("");
                assert(msg@ =~= "expected a job definition, found: "@ + line@);
            }
            return Err(reject(lines, i, msg));
        },
    };
    let head = text::trim_chars(&rest);
    if head.len() == 0 || head[head.len() - 1] != '{' {
        return Err(reject(lines, i, "expected '{' after the job name".to_owned()));
    }
    let front = text::slice(&head, 0, head.len() - 1);
    assert(front@ =~= head@.drop_last());
    let name = text::trim_chars(&front);
    if name.len() == 0 {
        return Err(reject(lines, i, "missing job name".to_owned()));
    }
    let owned = text::string_of(&name);
    if is_bad_name(&name) {
        let msg = joined(
            "invalid job name '",
            owned.as_str(),
            "': names may not contain whitespace or control characters",
        );
        return Err(reject(lines, i, msg));
    }
    if is_taken(jobs, &owned) {
        proof {
            lemma_failed(all, i + 1, all.len() as int);
        }
        return Err(Error::DuplicateJob(owned));
    }
    Ok(owned)
}

impl Pipeline {
    /// Reads a config.
    pub fn parse(input: &str) -> (r: Result<Pipeline, Error>)
        ensures
            match r {
                Ok(p) => parsed(input@) == Ok::<Seq<JobView>, ErrorView>(p@),
                Err(e) => parsed(input@) == Err::<Seq<JobView>, ErrorView>(e@),
            },
    {
        let lines = text::lines_of(&text::chars_of(input));
        let ghost all = text::char_views(lines@);
        let mut jobs: Vec<Job> = Vec::new();
        let mut i: usize = 0;
        assert(jobs@.map_values(|j: Job| j@) =~= Seq::empty());
        while i < lines.len()
            invariant
                i <= lines.len(),
                all == text::char_views(lines@),
                all == text::lines(input@),
                state_at(all, i as int) == (ParseView::Top {
                    jobs: jobs@.map_values(|j: Job| j@),
                }),
            decreases lines.len() - i,
        {
            if is_skippable(&lines[i]) {
                assert(all[i as int] == lines@[i as int]@);
                i += 1;
                continue ;
            }
            let name = match parse_name(&lines, i, &jobs) {
                Ok(name) => name,
                Err(e) => {
                    return Err(e);
                },
            };
            let ghost before = jobs@.map_values(|j: Job| j@);
            match parse_job(&name, &lines, i + 1, Ghost(before)) {
                Ok((job, next)) => {
                    jobs.push(job);
                    assert(jobs@.map_values(|j: Job| j@) =~= before.push(job@));
                    i = next;
                },
                Err(e) => {
                    return Err(e);
                },
            }
        }
        Ok(Pipeline { jobs })
    }
}

} // verus!
