//! The printer of the pipeline config. What it prints, the parser reads back.

use vstd::prelude::*;
use vstd::string::*;

use crate::duration::Duration;
use crate::pipeline;
use crate::pipeline::{Cache, CacheView, Job, JobView, Pipeline};
use crate::text;
use crate::text_laws;

verus! {

/// No line, or a word and a list.
pub open spec fn list_line(word: Seq<char>, items: Seq<Seq<char>>) -> Seq<Seq<char>> {
    if items.len() == 0 {
        Seq::empty()
    } else {
        seq![word + text::join(items, ", "@)]
    }
}

/// The line of one environment pair.
pub open spec fn env_line(pair: (Seq<char>, Seq<char>)) -> Seq<char> {
    "  env "@ + pair.0 + " = "@ + pair.1
}

/// The line of one step.
pub open spec fn step_line(step: Seq<char>) -> Seq<char> {
    "  step "@ + step
}

/// The line of a time limit, if there is one.
pub open spec fn timeout_lines(timeout: Option<Duration>) -> Seq<Seq<char>> {
    match timeout {
        Some(d) => seq!["  timeout "@ + text::decimal(d.secs as nat)],
        None => Seq::empty(),
    }
}

/// The line of a label, if there is one.
pub open spec fn key_lines(key: Option<Seq<char>>) -> Seq<Seq<char>> {
    match key {
        Some(k) => seq!["    key "@ + k],
        None => Seq::empty(),
    }
}

/// The lines of a cache block, if there is one.
pub open spec fn cache_lines(cache: Option<CacheView>) -> Seq<Seq<char>> {
    match cache {
        Some(c) => seq!["  cache {"@] + key_lines(c.key) + list_line("    paths "@, c.paths)
            + seq!["  }"@],
        None => Seq::empty(),
    }
}

/// The line of the flag, if it is set.
pub open spec fn flag_lines(continue_on_error: bool) -> Seq<Seq<char>> {
    if continue_on_error {
        seq!["  continue-on-error"@]
    } else {
        Seq::empty()
    }
}

/// The lines between the first and the last of a job.
pub open spec fn body_lines(job: JobView) -> Seq<Seq<char>> {
    list_line("  needs "@, job.needs) + job.env.map_values(
        |p: (Seq<char>, Seq<char>)| env_line(p),
    ) + job.steps.map_values(|s: Seq<char>| step_line(s)) + list_line(
        "  produces "@,
        job.produces,
    ) + timeout_lines(job.timeout) + cache_lines(job.cache) + flag_lines(job.continue_on_error)
}

/// The lines of a job.
pub open spec fn job_lines(job: JobView) -> Seq<Seq<char>> {
    seq!["job "@ + job.name + " {"@] + body_lines(job) + seq!["}"@]
}

/// The lines of all jobs, with a blank one between each two jobs.
pub open spec fn all_lines(jobs: Seq<JobView>) -> Seq<Seq<char>>
    decreases jobs.len(),
{
    if jobs.len() == 0 {
        Seq::empty()
    } else if jobs.len() == 1 {
        job_lines(jobs[0])
    } else {
        all_lines(jobs.drop_last()).push(Seq::empty()) + job_lines(jobs.last())
    }
}

/// The config text of the jobs.
pub open spec fn printed(jobs: Seq<JobView>) -> Seq<char> {
    text::unlines(all_lines(jobs))
}

/// Adds a line that consists of the given pieces.
pub(crate) fn write_line(out: &mut String, a: &str, b: &str, c: &str, d: &str, Ghost(lines): Ghost<
    Seq<Seq<char>>,
>)
    requires
        old(out)@ == text::unlines(lines),
    ensures
        final(out)@ == text::unlines(lines.push(a@ + b@ + c@ + d@)),
{
    out.append(a);
    out.append(b);
    out.append(c);
    out.append(d);
    out.push('\n');
    proof {
        let line = a@ + b@ + c@ + d@;
        assert(lines.push(line).drop_last() =~= lines);
        assert(out@ =~= text::unlines(lines) + line.push('\n'));
    }
}

/// Adds the line of a list, if the list is not empty.
fn write_list(out: &mut String, word: &str, items: &Vec<String>, Ghost(lines): Ghost<
    Seq<Seq<char>>,
>)
    requires
        old(out)@ == text::unlines(lines),
    ensures
        final(out)@ == text::unlines(lines + list_line(word@, text::views(items@))),
{
    let ghost more = list_line(word@, text::views(items@));
    proof {
        reveal_strlit("");
    }
    if items.len() > 0 {
        let list = text::join_strings(items, ", ");
        write_line(out, word, list.as_str(), "", "", Ghost(lines));
        assert(word@ + list@ + ""@ + ""@ =~= word@ + list@);
        assert(lines.push(word@ + list@) =~= lines + more);
    } else {
        assert(lines + more =~= lines);
    }
}

/// Adds the lines of the environment.
fn write_env(out: &mut String, env: &Vec<(String, String)>, Ghost(lines): Ghost<Seq<Seq<char>>>)
    requires
        old(out)@ == text::unlines(lines),
    ensures
        final(out)@ == text::unlines(
            lines + pipeline::pair_views(env@).map_values(
                |p: (Seq<char>, Seq<char>)| env_line(p),
            ),
        ),
{
    let ghost all = pipeline::pair_views(env@).map_values(|p: (Seq<char>, Seq<char>)| env_line(p));
    let mut i: usize = 0;
    assert(lines + all.take(0) =~= lines);
    while i < env.len()
        invariant
            i <= env.len(),
            all == pipeline::pair_views(env@).map_values(
                |p: (Seq<char>, Seq<char>)| env_line(p),
            ),
            out@ == text::unlines(lines + all.take(i as int)),
        decreases env.len() - i,
    {
        write_line(
            out,
            "  env ",
            env[i].0.as_str(),
            " = ",
            env[i].1.as_str(),
            Ghost(lines + all.take(i as int)),
        );
        proof {
            let line = env_line((env@[i as int].0@, env@[i as int].1@));
            assert(all[i as int] == line);
            assert((lines + all.take(i as int)).push(line) =~= lines + all.take(i + 1));
        }
        i += 1;
    }
    assert(all.take(i as int) =~= all);
}

/// Adds the lines of the steps.
fn write_steps(out: &mut String, steps: &Vec<String>, Ghost(lines): Ghost<Seq<Seq<char>>>)
    requires
        old(out)@ == text::unlines(lines),
    ensures
        final(out)@ == text::unlines(
            lines + text::views(steps@).map_values(|s: Seq<char>| step_line(s)),
        ),
{
    let ghost all = text::views(steps@).map_values(|s: Seq<char>| step_line(s));
    let mut i: usize = 0;
    assert(lines + all.take(0) =~= lines);
    while i < steps.len()
        invariant
            i <= steps.len(),
            all == text::views(steps@).map_values(|s: Seq<char>| step_line(s)),
            out@ == text::unlines(lines + all.take(i as int)),
        decreases steps.len() - i,
    {
        write_line(
            out,
            "  step ",
            steps[i].as_str(),
            "",
            "",
            Ghost(lines + all.take(i as int)),
        );
        proof {
            reveal_strlit("");
            let line = step_line(steps@[i as int]@);
            assert(all[i as int] == line);
            assert("  step "@ + steps@[i as int]@ + ""@ + ""@ =~= line);
            assert((lines + all.take(i as int)).push(line) =~= lines + all.take(i + 1));
        }
        i += 1;
    }
    assert(all.take(i as int) =~= all);
}

/// Adds the line of a time limit, if there is one.
fn write_timeout(out: &mut String, timeout: &Option<Duration>, Ghost(lines): Ghost<Seq<Seq<char>>>)
    requires
        old(out)@ == text::unlines(lines),
    ensures
        final(out)@ == text::unlines(lines + timeout_lines(*timeout)),
{
    proof {
        reveal_strlit("");
    }
    match timeout {
        Some(d) => {
            let secs = text::decimal_of(d.as_secs());
            write_line(out, "  timeout ", secs.as_str(), "", "", Ghost(lines));
            assert("  timeout "@ + secs@ + ""@ + ""@ =~= "  timeout "@ + secs@);
            assert(lines.push("  timeout "@ + secs@) =~= lines + timeout_lines(*timeout));
        },
        None => {
            assert(lines + timeout_lines(*timeout) =~= lines);
        },
    }
}

/// Adds the lines of a cache block.
fn write_cache(out: &mut String, cache: &Cache, Ghost(lines): Ghost<Seq<Seq<char>>>)
    requires
        old(out)@ == text::unlines(lines),
    ensures
        final(out)@ == text::unlines(lines + cache_lines(Some(cache@))),
{
    proof {
        reveal_strlit("");
    }
    let ghost mut so_far = lines;
    write_line(out, "  cache {", "", "", "", Ghost(so_far));
    proof {
        assert("  cache {"@ + ""@ + ""@ + ""@ =~= "  cache {"@);
        so_far = so_far.push("  cache {"@);
    }
    if let Some(key) = &cache.key {
        write_line(out, "    key ", key.as_str(), "", "", Ghost(so_far));
        proof {
            assert("    key "@ + key@ + ""@ + ""@ =~= "    key "@ + key@);
            so_far = so_far.push("    key "@ + key@);
        }
    }
    assert(so_far =~= lines + seq!["  cache {"@] + key_lines(cache@.key));
    write_list(out, "    paths ", &cache.paths, Ghost(so_far));
    proof {
        so_far = so_far + list_line("    paths "@, cache@.paths);
    }
    write_line(out, "  }", "", "", "", Ghost(so_far));
    proof {
        assert("  }"@ + ""@ + ""@ + ""@ =~= "  }"@);
        assert(so_far.push("  }"@) =~= lines + cache_lines(Some(cache@)));
    }
}

proof fn lemma_regroup(a: Seq<Seq<char>>, b: Seq<Seq<char>>, c: Seq<Seq<char>>)
    ensures
        a + b + c == a + (b + c),
{
    assert(a + b + c =~= a + (b + c));
}

/// Adds the lines between the first and the last of a job.
fn write_body(out: &mut String, job: &Job, Ghost(lines): Ghost<Seq<Seq<char>>>)
    requires
        old(out)@ == text::unlines(lines),
    ensures
        final(out)@ == text::unlines(lines + body_lines(job@)),
{
    let ghost j = job@;
    write_list(out, "  needs ", &job.needs, Ghost(lines));
    let ghost mut body = list_line("  needs "@, j.needs);
    write_env(out, &job.env, Ghost(lines + body));
    proof {
        let more = j.env.map_values(|p: (Seq<char>, Seq<char>)| env_line(p));
        lemma_regroup(lines, body, more);
        body = body + more;
    }
    write_steps(out, &job.steps, Ghost(lines + body));
    proof {
        let more = j.steps.map_values(|s: Seq<char>| step_line(s));
        lemma_regroup(lines, body, more);
        body = body + more;
    }
    write_list(out, "  produces ", &job.produces, Ghost(lines + body));
    proof {
        lemma_regroup(lines, body, list_line("  produces "@, j.produces));
        body = body + list_line("  produces "@, j.produces);
    }
    write_timeout(out, &job.timeout, Ghost(lines + body));
    proof {
        lemma_regroup(lines, body, timeout_lines(j.timeout));
        body = body + timeout_lines(j.timeout);
    }
    if let Some(cache) = &job.cache {
        write_cache(out, cache, Ghost(lines + body));
    } else {
        assert(lines + body + cache_lines(j.cache) =~= lines + body);
    }
    proof {
        lemma_regroup(lines, body, cache_lines(j.cache));
        body = body + cache_lines(j.cache);
    }
    write_flag(out, job.continue_on_error, Ghost(lines + body));
    proof {
        lemma_regroup(lines, body, flag_lines(j.continue_on_error));
    }
}

/// Adds the line of the flag, if it is set.
fn write_flag(out: &mut String, continue_on_error: bool, Ghost(lines): Ghost<Seq<Seq<char>>>)
    requires
        old(out)@ == text::unlines(lines),
    ensures
        final(out)@ == text::unlines(lines + flag_lines(continue_on_error)),
{
    if continue_on_error {
        write_line(out, "  continue-on-error", "", "", "", Ghost(lines));
        proof {
            reveal_strlit("");
            assert("  continue-on-error"@ + ""@ + ""@ + ""@ =~= "  continue-on-error"@);
            assert(lines.push("  continue-on-error"@) =~= lines + flag_lines(true));
        }
    } else {
        assert(lines + flag_lines(false) =~= lines);
    }
}

/// Adds the lines of a job.
fn write_job(out: &mut String, job: &Job, Ghost(lines): Ghost<Seq<Seq<char>>>)
    requires
        old(out)@ == text::unlines(lines),
    ensures
        final(out)@ == text::unlines(lines + job_lines(job@)),
{
    proof {
        reveal_strlit("");
    }
    let ghost head = "job "@ + job.name@ + " {"@;
    write_line(out, "job ", job.name.as_str(), " {", "", Ghost(lines));
    assert("job "@ + job.name@ + " {"@ + ""@ =~= head);
    write_body(out, job, Ghost(lines.push(head)));
    write_line(out, "}", "", "", "", Ghost(lines.push(head) + body_lines(job@)));
    proof {
        assert("}"@ + ""@ + ""@ + ""@ =~= "}"@);
        assert((lines.push(head) + body_lines(job@)).push("}"@) =~= lines + job_lines(job@));
    }
}

impl Pipeline {
    /// The config text of the pipeline.
    pub fn to_string(&self) -> (s: String)
        ensures
            s@ == printed(self@),
    {
        let mut out = String::new();
        let ghost all = self@;
        let mut i: usize = 0;
        assert(out@ =~= text::unlines(all_lines(all.take(0))));
        while i < self.jobs.len()
            invariant
                i <= self.jobs.len(),
                all == self@,
                out@ == text::unlines(all_lines(all.take(i as int))),
            decreases self.jobs.len() - i,
        {
            let ghost before = all_lines(all.take(i as int));
            let ghost next = all.take(i + 1);
            proof {
                reveal_strlit("");
                assert(next.drop_last() =~= all.take(i as int));
                assert(next.last() == self.jobs@[i as int]@);
            }
            if i > 0 {
                write_line(&mut out, "", "", "", "", Ghost(before));
                assert(""@ + ""@ + ""@ + ""@ =~= Seq::empty());
                write_job(&mut out, &self.jobs[i], Ghost(before.push(Seq::empty())));
            } else {
                write_job(&mut out, &self.jobs[i], Ghost(before));
                assert(before + job_lines(next[0]) =~= job_lines(next[0]));
            }
            i += 1;
        }
        assert(all.take(i as int) =~= all);
        out
    }
}

/// The text of a line, or nothing.
pub open spec fn line_if(shown: bool, line: Seq<char>) -> Seq<char> {
    if shown {
        line + seq!['\n']
    } else {
        Seq::empty()
    }
}

/// The text of the block that a cache takes up.
pub open spec fn cache_text(cache: CacheView) -> Seq<char> {
    line_if(true, "  cache {"@) + line_if(cache.key is Some, "    key "@ + cache.key->0) + line_if(
        cache.paths.len() > 0,
        "    paths "@ + text::join(cache.paths, ", "@),
    ) + line_if(true, "  }"@)
}

/// What a job is printed as: its name, what it needs, its environment, its steps, what it
/// produces, its time limit in seconds, its cache block and its flag, each only where the
/// job has it.
pub proof fn law_printed_job(job: JobView)
    ensures
        printed(seq![job]) == line_if(true, "job "@ + job.name + " {"@) + line_if(
            job.needs.len() > 0,
            "  needs "@ + text::join(job.needs, ", "@),
        ) + text::unlines(
            Seq::new(
                job.env.len(),
                |k: int| "  env "@ + job.env[k].0 + " = "@ + job.env[k].1,
            ),
        ) + text::unlines(Seq::new(job.steps.len(), |k: int| "  step "@ + job.steps[k])) + line_if(
            job.produces.len() > 0,
            "  produces "@ + text::join(job.produces, ", "@),
        ) + line_if(
            job.timeout is Some,
            "  timeout "@ + text::decimal(job.timeout->0.secs as nat),
        ) + (if job.cache is Some {
            cache_text(job.cache->0)
        } else {
            Seq::empty()
        }) + line_if(job.continue_on_error, "  continue-on-error"@) + line_if(true, "}"@),
{
    let head = "job "@ + job.name + " {"@;
    let needs = list_line("  needs "@, job.needs);
    let env = job.env.map_values(|p: (Seq<char>, Seq<char>)| env_line(p));
    let steps = job.steps.map_values(|s: Seq<char>| step_line(s));
    let produces = list_line("  produces "@, job.produces);
    let timeout = timeout_lines(job.timeout);
    let cache = cache_lines(job.cache);
    let flag = flag_lines(job.continue_on_error);
    assert(env =~= Seq::new(
        job.env.len(),
        |k: int| "  env "@ + job.env[k].0 + " = "@ + job.env[k].1,
    ));
    assert(steps =~= Seq::new(job.steps.len(), |k: int| "  step "@ + job.steps[k]));
    let l0 = seq![head];
    let l1 = l0 + needs;
    let l2 = l1 + env;
    let l3 = l2 + steps;
    let l4 = l3 + produces;
    let l5 = l4 + timeout;
    let l6 = l5 + cache;
    let l7 = l6 + flag;
    assert(job_lines(job) =~= l7 + seq!["}"@]);
    text_laws::law_unlines(l0, needs, head);
    text_laws::law_unlines(l1, env, "  needs "@ + text::join(job.needs, ", "@));
    text_laws::law_unlines(l2, steps, "  produces "@ + text::join(job.produces, ", "@));
    text_laws::law_unlines(l3, produces, "  continue-on-error"@);
    text_laws::law_unlines(l4, timeout, "  timeout "@ + text::decimal(job.timeout->0.secs as nat));
    text_laws::law_unlines(l5, cache, "}"@);
    text_laws::law_unlines(l6, flag, "  continue-on-error"@);
    text_laws::law_unlines(l7, seq!["}"@], "}"@);
    if let Some(c) = job.cache {
        lemma_cache_text(c);
    }
    assert(seq![job][0] == job);
}

proof fn lemma_cache_text(c: CacheView)
    ensures
        text::unlines(cache_lines(Some(c))) == cache_text(c),
{
    let l0 = seq!["  cache {"@];
    let key = key_lines(c.key);
    let paths = list_line("    paths "@, c.paths);
    text_laws::law_unlines(l0, key, "  cache {"@);
    text_laws::law_unlines(l0 + key, paths, "    paths "@ + text::join(c.paths, ", "@));
    text_laws::law_unlines(l0 + key + paths, seq!["  }"@], "  }"@);
    text_laws::law_unlines(l0, key, "    key "@ + c.key->0);
}

/// Jobs are printed in config order, with a blank line between each two.
pub proof fn law_printed_jobs(jobs: Seq<JobView>, job: JobView)
    ensures
        printed(Seq::empty()) == Seq::<char>::empty(),
        jobs.len() > 0 ==> printed(jobs.push(job)) == printed(jobs) + seq!['\n'] + printed(
            seq![job],
        ),
{
    assert(all_lines(Seq::empty()) =~= Seq::empty());
    if jobs.len() > 0 {
        let all = jobs.push(job);
        let blank = Seq::<char>::empty();
        assert(all.drop_last() =~= jobs);
        assert(seq![job][0] == job);
        let front = all_lines(jobs);
        assert(front.push(blank) =~= front + seq![blank]);
        text_laws::law_unlines(front, seq![blank], blank);
        text_laws::law_unlines(front + seq![blank], job_lines(job), blank);
        assert(blank + seq!['\n'] =~= seq!['\n']);
    }
}

} // verus!
