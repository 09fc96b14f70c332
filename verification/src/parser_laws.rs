//! What each line of a config adds to what the lines before it say.

use vstd::prelude::*;

use crate::duration::Duration;
use crate::error::ErrorView;
use crate::parser;
use crate::parser::ParseView;
use crate::pipeline;
use crate::pipeline::{CacheView, JobView};
use crate::safepath;
use crate::text;
use crate::text_laws;

verus! {

/// The lines make up a text: none of them holds a line feed.
pub open spec fn are_lines(lines: Seq<Seq<char>>) -> bool {
    forall|k: int| 0 <= k < lines.len() ==> text_laws::lacks(#[trigger] lines[k], '\n')
}

/// What the config that consists of the lines says.
pub open spec fn told(lines: Seq<Seq<char>>) -> Result<Seq<JobView>, ErrorView> {
    parser::parsed(text::unlines(lines))
}

/// The lines are a config that says these jobs.
pub open spec fn tells(lines: Seq<Seq<char>>, jobs: Seq<JobView>) -> bool {
    are_lines(lines) && told(lines) == Ok::<Seq<JobView>, ErrorView>(jobs)
}

/// The lines are the beginning of a config: with the last job closed behind them they
/// say these jobs.
pub open spec fn opens_job(lines: Seq<Seq<char>>, jobs: Seq<JobView>) -> bool {
    tells(lines.push("}"@), jobs)
}

/// The lines are the beginning of a config: with a cache block and the last job closed
/// behind them they say these jobs.
pub open spec fn opens_cache(lines: Seq<Seq<char>>, jobs: Seq<JobView>) -> bool {
    tells(lines.push("}"@).push("}"@), jobs)
}

/// The jobs with another one in the place of the last.
pub open spec fn with_last(jobs: Seq<JobView>, job: JobView) -> Seq<JobView> {
    jobs.drop_last().push(job)
}

/// The line is rejected, with that message, whatever follows it.
pub open spec fn rejects(lines: Seq<Seq<char>>, line: Seq<char>, e: ErrorView) -> bool {
    forall|rest: Seq<Seq<char>>| #[trigger]
        are_lines(rest) ==> told(lines.push(line) + rest) == Err::<Seq<JobView>, ErrorView>(e)
}

/// A parse error at the line behind `lines`.
pub open spec fn error_behind(lines: Seq<Seq<char>>, msg: Seq<char>) -> ErrorView {
    ErrorView::Parse { line: lines.len() + 1, msg }
}

/// The state behind the lines.
spec fn state(lines: Seq<Seq<char>>) -> ParseView {
    parser::state_at(lines.map_values(|l: Seq<char>| text::trim(l)), lines.len() as int)
}

proof fn lemma_told(lines: Seq<Seq<char>>)
    requires
        are_lines(lines),
    ensures
        told(lines) == parser::conclude(state(lines), lines.len()),
{
    text_laws::law_lines(lines);
}

proof fn lemma_state_prefix(a: Seq<Seq<char>>, b: Seq<Seq<char>>, n: int)
    requires
        n <= a.len(),
        n <= b.len(),
        forall|k: int| 0 <= k < n ==> a[k] == #[trigger] b[k],
    ensures
        parser::state_at(a, n) == parser::state_at(b, n),
    decreases n,
{
    if n > 0 {
        lemma_state_prefix(a, b, n - 1);
    }
}

proof fn lemma_state_push(lines: Seq<Seq<char>>, line: Seq<char>)
    ensures
        state(lines.push(line)) == parser::step(state(lines), text::trim(line), lines.len() + 1),
{
    let a = lines.map_values(|l: Seq<char>| text::trim(l));
    let b = lines.push(line).map_values(|l: Seq<char>| text::trim(l));
    lemma_state_prefix(a, b, lines.len() as int);
}

proof fn lemma_lines_push(lines: Seq<Seq<char>>, line: Seq<char>)
    ensures
        are_lines(lines.push(line)) <==> are_lines(lines) && text_laws::lacks(line, '\n'),
{
    let all = lines.push(line);
    if are_lines(all) {
        assert(text_laws::lacks(all[lines.len() as int], '\n'));
        assert forall|k: int| 0 <= k < lines.len() implies text_laws::lacks(
            #[trigger] lines[k],
            '\n',
        ) by {
            assert(text_laws::lacks(all[k], '\n'));
        }
    }
}

proof fn lemma_brace()
    ensures
        text::trim("}"@) == "}"@,
        text_laws::lacks("}"@, '\n'),
        !parser::skippable("}"@),
        "}"@.len() == 1,
        "}"@[0] == '}',
        text::strip_prefix("}"@, "job "@) is None,
        text::strip_prefix("}"@, "needs "@) is None,
{
    reveal_strlit("}");
    reveal_strlit("job ");
    reveal_strlit("needs ");
    text_laws::law_trim_twice("}"@);
    text_laws::law_other_prefix("}"@, "job "@, 0);
    text_laws::law_other_prefix("}"@, "needs "@, 0);
}

proof fn lemma_opens_job(lines: Seq<Seq<char>>, jobs: Seq<JobView>)
    requires
        opens_job(lines, jobs),
    ensures
        are_lines(lines),
        jobs.len() > 0,
        state(lines) == (ParseView::InJob { jobs: jobs.drop_last(), job: jobs.last() }),
{
    lemma_brace();
    lemma_lines_push(lines, "}"@);
    lemma_told(lines.push("}"@));
    lemma_state_push(lines, "}"@);
    match state(lines) {
        ParseView::InJob { jobs: before, job } => {
            assert(jobs == before.push(job));
            assert(jobs.drop_last() =~= before);
        },
        _ => {},
    }
}

proof fn lemma_opens_cache(lines: Seq<Seq<char>>, jobs: Seq<JobView>)
    requires
        opens_cache(lines, jobs),
    ensures
        are_lines(lines),
        jobs.len() > 0,
        jobs.last().cache is Some,
        state(lines) matches ParseView::InCache { jobs: before, job, cache } && before
            == jobs.drop_last() && jobs.last() == (JobView { cache: Some(cache), ..job }),
{
    lemma_brace();
    lemma_lines_push(lines, "}"@);
    lemma_opens_job(lines.push("}"@), jobs);
    lemma_state_push(lines, "}"@);
    match state(lines) {
        ParseView::InJob { jobs: before, job } => {
            assert(false);
        },
        ParseView::InCache { jobs: before, job, cache } => {},
        _ => {},
    }
}

proof fn lemma_in_job(lines: Seq<Seq<char>>, jobs: Seq<JobView>, job: JobView)
    requires
        are_lines(lines),
        state(lines) == (ParseView::InJob { jobs, job }),
    ensures
        opens_job(lines, jobs.push(job)),
{
    lemma_brace();
    lemma_lines_push(lines, "}"@);
    lemma_told(lines.push("}"@));
    lemma_state_push(lines, "}"@);
}

proof fn lemma_in_cache(lines: Seq<Seq<char>>, jobs: Seq<JobView>, job: JobView, cache: CacheView)
    requires
        are_lines(lines),
        state(lines) == (ParseView::InCache { jobs, job, cache }),
    ensures
        opens_cache(lines, jobs.push(JobView { cache: Some(cache), ..job })),
{
    lemma_brace();
    lemma_lines_push(lines, "}"@);
    lemma_state_push(lines, "}"@);
    lemma_in_job(lines.push("}"@), jobs, JobView { cache: Some(cache), ..job });
}

proof fn lemma_failed(lines: Seq<Seq<char>>, rest: Seq<Seq<char>>, e: ErrorView)
    requires
        state(lines) == ParseView::Failed(e),
    ensures
        state(lines + rest) == ParseView::Failed(e),
    decreases rest.len(),
{
    if rest.len() == 0 {
        assert(lines + rest =~= lines);
    } else {
        lemma_failed(lines, rest.drop_last(), e);
        lemma_state_push(lines + rest.drop_last(), rest.last());
        assert((lines + rest.drop_last()).push(rest.last()) =~= lines + rest);
    }
}

proof fn lemma_rejects(lines: Seq<Seq<char>>, line: Seq<char>, e: ErrorView)
    requires
        are_lines(lines),
        text_laws::lacks(line, '\n'),
        state(lines.push(line)) == ParseView::Failed(e),
    ensures
        rejects(lines, line, e),
{
    lemma_lines_push(lines, line);
    assert forall|rest: Seq<Seq<char>>| #[trigger] are_lines(rest) implies told(
        lines.push(line) + rest,
    ) == Err::<Seq<JobView>, ErrorView>(e) by {
        let all = lines.push(line) + rest;
        assert forall|k: int| 0 <= k < all.len() implies text_laws::lacks(
            #[trigger] all[k],
            '\n',
        ) by {
            if k <= lines.len() {
                assert(text_laws::lacks(lines.push(line)[k], '\n'));
            } else {
                assert(text_laws::lacks(rest[k - lines.len() - 1], '\n'));
            }
        }
        lemma_told(all);
        lemma_failed(lines.push(line), rest, e);
    }
}

/// The line begins with the word, and this follows it.
pub open spec fn says(line: Seq<char>, word: Seq<char>, rest: Seq<char>) -> bool {
    text_laws::lacks(line, '\n') && text::trim(line) == word + rest
}

/// The words that begin a line, and how they are told apart.
proof fn lemma_words()
    ensures
        "job "@.len() == 4 && "job "@[0] == 'j',
        "needs "@.len() == 6 && "needs "@[0] == 'n',
        "env "@.len() == 4 && "env "@[0] == 'e',
        "step "@.len() == 5 && "step "@[0] == 's',
        "produces "@.len() == 9 && "produces "@[0] == 'p',
        "timeout "@.len() == 8 && "timeout "@[0] == 't',
        "continue-on-error"@.len() == 17 && "continue-on-error"@[0] == 'c',
        "cache {"@.len() == 7 && "cache {"@[0] == 'c',
        "cache{"@.len() == 6 && "cache{"@[0] == 'c',
        "key "@.len() == 4 && "key "@[0] == 'k',
        "paths "@.len() == 6 && "paths "@[0] == 'p',
        "}"@.len() == 1 && "}"@[0] == '}',
{
    reveal_strlit("job ");
    reveal_strlit("needs ");
    reveal_strlit("env ");
    reveal_strlit("step ");
    reveal_strlit("produces ");
    reveal_strlit("timeout ");
    reveal_strlit("continue-on-error");
    reveal_strlit("cache {");
    reveal_strlit("cache{");
    reveal_strlit("key ");
    reveal_strlit("paths ");
    reveal_strlit("}");
}

/// What a line that begins with another letter is not.
proof fn lemma_other(l: Seq<char>, word: Seq<char>)
    requires
        word.len() > 0,
        l.len() == 0 || l[0] != word[0],
    ensures
        text::strip_prefix(l, word) is None,
        l != word,
{
    text_laws::law_other_prefix(l, word, 0);
}

/// None of the words of a job begins with that letter.
proof fn lemma_said(word: Seq<char>, rest: Seq<char>)
    requires
        word.len() > 0,
    ensures
        text::strip_prefix(word + rest, word) == Some(rest),
        (word + rest)[0] == word[0],
        (word + rest).len() > 0,
{
    text_laws::law_prefix(word, rest);
}

proof fn lemma_not_job_words(l: Seq<char>)
    requires
        l.len() > 0,
    ensures
        l[0] != 'n' ==> text::strip_prefix(l, "needs "@) is None,
        l[0] != 'e' ==> text::strip_prefix(l, "env "@) is None,
        l[0] != 's' ==> text::strip_prefix(l, "step "@) is None,
        l[0] != 'p' ==> text::strip_prefix(l, "produces "@) is None && text::strip_prefix(
            l,
            "paths "@,
        ) is None,
        l[0] != 't' ==> text::strip_prefix(l, "timeout "@) is None,
        l[0] != 'k' ==> text::strip_prefix(l, "key "@) is None,
        l[0] != 'c' ==> l != "continue-on-error"@ && l != "cache {"@ && l != "cache{"@,
        l[0] != '}' ==> l != "}"@,
        l[0] != '#' ==> !parser::skippable(l),
{
    lemma_words();
    if l[0] != 'n' {
        lemma_other(l, "needs "@);
    }
    if l[0] != 'e' {
        lemma_other(l, "env "@);
    }
    if l[0] != 's' {
        lemma_other(l, "step "@);
    }
    if l[0] != 'p' {
        lemma_other(l, "produces "@);
        lemma_other(l, "paths "@);
    }
    if l[0] != 't' {
        lemma_other(l, "timeout "@);
    }
    if l[0] != 'k' {
        lemma_other(l, "key "@);
    }
}

/// How the state within a job goes on with a line.
proof fn lemma_job_step(lines: Seq<Seq<char>>, jobs: Seq<JobView>, line: Seq<char>)
    requires
        opens_job(lines, jobs),
        text_laws::lacks(line, '\n'),
        !parser::skippable(text::trim(line)),
    ensures
        are_lines(lines.push(line)),
        state(lines.push(line)) == parser::job_line(
            jobs.drop_last(),
            jobs.last(),
            text::trim(line),
            lines.len() + 1,
        ),
{
    lemma_opens_job(lines, jobs);
    lemma_lines_push(lines, line);
    lemma_state_push(lines, line);
}

/// A `step` line adds a step.
pub proof fn law_step_line(
    lines: Seq<Seq<char>>,
    jobs: Seq<JobView>,
    line: Seq<char>,
    rest: Seq<char>,
)
    requires
        opens_job(lines, jobs),
        says(line, "step "@, rest),
    ensures
        opens_job(
            lines.push(line),
            with_last(
                jobs,
                JobView { steps: jobs.last().steps.push(text::trim(rest)), ..jobs.last() },
            ),
        ),
{
    lemma_words();
    lemma_said("step "@, rest);
    lemma_not_job_words("step "@ + rest);
    lemma_job_step(lines, jobs, line);
    lemma_in_job(
        lines.push(line),
        jobs.drop_last(),
        JobView { steps: jobs.last().steps.push(text::trim(rest)), ..jobs.last() },
    );
}

/// A `needs` line says what the job needs, in place of what an earlier one said.
pub proof fn law_needs_line(
    lines: Seq<Seq<char>>,
    jobs: Seq<JobView>,
    line: Seq<char>,
    rest: Seq<char>,
)
    requires
        opens_job(lines, jobs),
        says(line, "needs "@, rest),
    ensures
        opens_job(
            lines.push(line),
            with_last(jobs, JobView { needs: text::list_items(rest), ..jobs.last() }),
        ),
{
    lemma_words();
    lemma_said("needs "@, rest);
    lemma_not_job_words("needs "@ + rest);
    lemma_job_step(lines, jobs, line);
    lemma_in_job(
        lines.push(line),
        jobs.drop_last(),
        JobView { needs: text::list_items(rest), ..jobs.last() },
    );
}

/// An `env` line adds a pair: what stands before the first equals sign, and what stands
/// behind it.
pub proof fn law_env_line(
    lines: Seq<Seq<char>>,
    jobs: Seq<JobView>,
    line: Seq<char>,
    name: Seq<char>,
    value: Seq<char>,
)
    requires
        opens_job(lines, jobs),
        says(line, "env "@, name + seq!['='] + value),
        text_laws::lacks(name, '='),
    ensures
        opens_job(
            lines.push(line),
            with_last(
                jobs,
                JobView {
                    env: jobs.last().env.push((text::trim(name), text::trim(value))),
                    ..jobs.last()
                },
            ),
        ),
{
    let rest = name + seq!['='] + value;
    lemma_words();
    lemma_said("env "@, rest);
    lemma_not_job_words("env "@ + rest);
    lemma_job_step(lines, jobs, line);
    text_laws::law_find(rest, '=');
    let k = text::find(rest, '=');
    assert(rest[name.len() as int] == '=');
    if k < name.len() {
        assert(rest[k] == name[k]);
    }
    assert(k == name.len());
    assert(rest.take(k) =~= name);
    assert(rest.skip(k + 1) =~= value);
    lemma_in_job(
        lines.push(line),
        jobs.drop_last(),
        JobView {
            env: jobs.last().env.push((text::trim(name), text::trim(value))),
            ..jobs.last()
        },
    );
}

/// An `env` line without an equals sign is rejected.
pub proof fn law_bad_env_line(
    lines: Seq<Seq<char>>,
    jobs: Seq<JobView>,
    line: Seq<char>,
    rest: Seq<char>,
)
    requires
        opens_job(lines, jobs),
        says(line, "env "@, rest),
        text_laws::lacks(rest, '='),
    ensures
        rejects(lines, line, error_behind(lines, "env requires 'KEY = VALUE'"@)),
{
    lemma_words();
    lemma_said("env "@, rest);
    lemma_not_job_words("env "@ + rest);
    lemma_job_step(lines, jobs, line);
    lemma_opens_job(lines, jobs);
    text_laws::law_find(rest, '=');
    let k = text::find(rest, '=');
    if k < rest.len() {
        assert(rest[k] != '=');
    }
    lemma_rejects(lines, line, error_behind(lines, "env requires 'KEY = VALUE'"@));
}

/// All of the paths stay inside the workspace.
pub open spec fn all_inside(paths: Seq<Seq<char>>) -> bool {
    forall|k: int| 0 <= k < paths.len() ==> safepath::confined(#[trigger] paths[k])
}

/// Path `k` is the first that leaves the workspace.
pub open spec fn first_outside(paths: Seq<Seq<char>>, k: int) -> bool {
    0 <= k < paths.len() && !safepath::confined(paths[k]) && all_inside(paths.take(k))
}

proof fn lemma_first_loose(paths: Seq<Seq<char>>, k: int)
    requires
        k == paths.len() && all_inside(paths) || first_outside(paths, k),
    ensures
        k == paths.len() ==> parser::first_loose(paths) is None,
        k < paths.len() ==> parser::first_loose(paths) == Some(paths[k]),
    decreases paths.len(),
{
    if paths.len() > 0 {
        let rest = paths.drop_first();
        if k == 0 {
        } else {
            assert(safepath::confined(paths[0])) by {
                if k < paths.len() {
                    assert(paths.take(k)[0] == paths[0]);
                }
            }
            if k == paths.len() {
                assert forall|m: int| 0 <= m < rest.len() implies safepath::confined(
                    #[trigger] rest[m],
                ) by {
                    assert(safepath::confined(paths[m + 1]));
                }
            } else {
                assert forall|m: int| 0 <= m < rest.take(k - 1).len() implies safepath::confined(
                    #[trigger] rest.take(k - 1)[m],
                ) by {
                    assert(paths.take(k)[m + 1] == rest.take(k - 1)[m]);
                }
            }
            lemma_first_loose(rest, k - 1);
        }
    }
}

/// A `produces` line says what the job produces, in place of what an earlier one said,
/// where all paths stay inside the workspace.
pub proof fn law_produces_line(
    lines: Seq<Seq<char>>,
    jobs: Seq<JobView>,
    line: Seq<char>,
    rest: Seq<char>,
)
    requires
        opens_job(lines, jobs),
        says(line, "produces "@, rest),
        all_inside(text::list_items(rest)),
    ensures
        opens_job(
            lines.push(line),
            with_last(jobs, JobView { produces: text::list_items(rest), ..jobs.last() }),
        ),
{
    lemma_words();
    lemma_said("produces "@, rest);
    lemma_not_job_words("produces "@ + rest);
    lemma_job_step(lines, jobs, line);
    lemma_first_loose(text::list_items(rest), text::list_items(rest).len() as int);
    lemma_in_job(
        lines.push(line),
        jobs.drop_last(),
        JobView { produces: text::list_items(rest), ..jobs.last() },
    );
}

/// A `produces` line with a path that leaves the workspace is rejected, and names the
/// first such path.
pub proof fn law_bad_produces_line(
    lines: Seq<Seq<char>>,
    jobs: Seq<JobView>,
    line: Seq<char>,
    rest: Seq<char>,
    k: int,
)
    requires
        opens_job(lines, jobs),
        says(line, "produces "@, rest),
        first_outside(text::list_items(rest), k),
    ensures
        rejects(
            lines,
            line,
            error_behind(
                lines,
                "produces path '"@ + text::list_items(rest)[k]
                    + "' escapes the workspace (absolute or '..' not allowed)"@,
            ),
        ),
{
    lemma_words();
    lemma_said("produces "@, rest);
    lemma_not_job_words("produces "@ + rest);
    lemma_job_step(lines, jobs, line);
    lemma_opens_job(lines, jobs);
    lemma_first_loose(text::list_items(rest), k);
    lemma_rejects(
        lines,
        line,
        error_behind(
            lines,
            "produces path '"@ + text::list_items(rest)[k]
                + "' escapes the workspace (absolute or '..' not allowed)"@,
        ),
    );
}

/// A `timeout` line sets the limit in whole seconds, and is rejected where it is no such
/// number.
pub proof fn law_timeout_line(
    lines: Seq<Seq<char>>,
    jobs: Seq<JobView>,
    line: Seq<char>,
    rest: Seq<char>,
)
    requires
        opens_job(lines, jobs),
        says(line, "timeout "@, rest),
    ensures
        match text::parse_number(text::trim(rest), u64::MAX as nat) {
            Some(n) => opens_job(
                lines.push(line),
                with_last(
                    jobs,
                    JobView { timeout: Some(Duration { secs: n as u64, nanos: 0 }), ..jobs.last() },
                ),
            ),
            None => rejects(
                lines,
                line,
                error_behind(
                    lines,
                    "timeout requires whole seconds, found: "@ + text::trim(rest),
                ),
            ),
        },
{
    lemma_words();
    lemma_said("timeout "@, rest);
    lemma_not_job_words("timeout "@ + rest);
    lemma_job_step(lines, jobs, line);
    lemma_opens_job(lines, jobs);
    match text::parse_number(text::trim(rest), u64::MAX as nat) {
        Some(n) => {
            lemma_in_job(
                lines.push(line),
                jobs.drop_last(),
                JobView { timeout: Some(Duration { secs: n as u64, nanos: 0 }), ..jobs.last() },
            );
        },
        None => {
            lemma_rejects(
                lines,
                line,
                error_behind(
                    lines,
                    "timeout requires whole seconds, found: "@ + text::trim(rest),
                ),
            );
        },
    }
}

/// A `continue-on-error` line sets the flag.
pub proof fn law_flag_line(lines: Seq<Seq<char>>, jobs: Seq<JobView>, line: Seq<char>)
    requires
        opens_job(lines, jobs),
        text_laws::lacks(line, '\n'),
        text::trim(line) == "continue-on-error"@,
    ensures
        opens_job(
            lines.push(line),
            with_last(jobs, JobView { continue_on_error: true, ..jobs.last() }),
        ),
{
    lemma_words();
    lemma_not_job_words("continue-on-error"@);
    lemma_job_step(lines, jobs, line);
    lemma_in_job(
        lines.push(line),
        jobs.drop_last(),
        JobView { continue_on_error: true, ..jobs.last() },
    );
}

/// A `cache {` line opens a cache block, which says nothing yet.
pub proof fn law_cache_line(lines: Seq<Seq<char>>, jobs: Seq<JobView>, line: Seq<char>)
    requires
        opens_job(lines, jobs),
        text_laws::lacks(line, '\n'),
        text::trim(line) == "cache {"@ || text::trim(line) == "cache{"@,
    ensures
        opens_cache(
            lines.push(line),
            with_last(
                jobs,
                JobView {
                    cache: Some(CacheView { key: None, paths: Seq::empty() }),
                    ..jobs.last()
                },
            ),
        ),
{
    lemma_words();
    lemma_not_job_words(text::trim(line));
    lemma_job_step(lines, jobs, line);
    lemma_in_cache(
        lines.push(line),
        jobs.drop_last(),
        jobs.last(),
        CacheView { key: None, paths: Seq::empty() },
    );
}

/// No line of a job begins like that.
pub open spec fn is_no_directive(l: Seq<char>) -> bool {
    &&& l.len() > 0 && l[0] != '#' && l != "}"@
    &&& !"needs "@.is_prefix_of(l) && !"env "@.is_prefix_of(l) && !"step "@.is_prefix_of(l)
    &&& !"produces "@.is_prefix_of(l) && !"timeout "@.is_prefix_of(l)
    &&& l != "continue-on-error"@ && l != "cache {"@ && l != "cache{"@
}

/// Any other line within a job is rejected.
pub proof fn law_unknown_line(lines: Seq<Seq<char>>, jobs: Seq<JobView>, line: Seq<char>)
    requires
        opens_job(lines, jobs),
        text_laws::lacks(line, '\n'),
        is_no_directive(text::trim(line)),
    ensures
        rejects(
            lines,
            line,
            error_behind(
                lines,
                "unknown directive in job '"@ + jobs.last().name + "': "@ + text::trim(line),
            ),
        ),
{
    lemma_job_step(lines, jobs, line);
    lemma_opens_job(lines, jobs);
    lemma_rejects(
        lines,
        line,
        error_behind(
            lines,
            "unknown directive in job '"@ + jobs.last().name + "': "@ + text::trim(line),
        ),
    );
}

/// How the state within a cache block goes on with a line.
proof fn lemma_cache_step(lines: Seq<Seq<char>>, jobs: Seq<JobView>, line: Seq<char>) -> (r: (
    JobView,
    CacheView,
))
    requires
        opens_cache(lines, jobs),
        text_laws::lacks(line, '\n'),
        !parser::skippable(text::trim(line)),
    ensures
        are_lines(lines),
        are_lines(lines.push(line)),
        jobs.last().cache == Some(r.1),
        jobs.last() == (JobView { cache: Some(r.1), ..r.0 }),
        state(lines.push(line)) == parser::cache_line(
            jobs.drop_last(),
            r.0,
            r.1,
            text::trim(line),
            lines.len() + 1,
        ),
{
    lemma_opens_cache(lines, jobs);
    lemma_lines_push(lines, line);
    lemma_state_push(lines, line);
    match state(lines) {
        ParseView::InCache { jobs: _, job, cache } => (job, cache),
        _ => (jobs.last(), CacheView { key: None, paths: Seq::empty() }),
    }
}

/// A `key` line within a cache block sets its label.
pub proof fn law_key_line(
    lines: Seq<Seq<char>>,
    jobs: Seq<JobView>,
    line: Seq<char>,
    rest: Seq<char>,
)
    requires
        opens_cache(lines, jobs),
        says(line, "key "@, rest),
    ensures
        opens_cache(
            lines.push(line),
            with_last(
                jobs,
                JobView {
                    cache: Some(CacheView { key: Some(text::trim(rest)), ..jobs.last().cache->0 }),
                    ..jobs.last()
                },
            ),
        ),
{
    lemma_words();
    lemma_said("key "@, rest);
    lemma_not_job_words("key "@ + rest);
    let (job, cache) = lemma_cache_step(lines, jobs, line);
    lemma_in_cache(
        lines.push(line),
        jobs.drop_last(),
        job,
        CacheView { key: Some(text::trim(rest)), ..cache },
    );
}

/// A `paths` line within a cache block sets its paths, where all of them stay inside the
/// workspace.
pub proof fn law_paths_line(
    lines: Seq<Seq<char>>,
    jobs: Seq<JobView>,
    line: Seq<char>,
    rest: Seq<char>,
)
    requires
        opens_cache(lines, jobs),
        says(line, "paths "@, rest),
        all_inside(text::list_items(rest)),
    ensures
        opens_cache(
            lines.push(line),
            with_last(
                jobs,
                JobView {
                    cache: Some(
                        CacheView { paths: text::list_items(rest), ..jobs.last().cache->0 },
                    ),
                    ..jobs.last()
                },
            ),
        ),
{
    lemma_words();
    lemma_said("paths "@, rest);
    lemma_not_job_words("paths "@ + rest);
    let (job, cache) = lemma_cache_step(lines, jobs, line);
    lemma_first_loose(text::list_items(rest), text::list_items(rest).len() as int);
    lemma_in_cache(
        lines.push(line),
        jobs.drop_last(),
        job,
        CacheView { paths: text::list_items(rest), ..cache },
    );
}

/// A `paths` line with a path that leaves the workspace is rejected, and names the first
/// such path.
pub proof fn law_bad_paths_line(
    lines: Seq<Seq<char>>,
    jobs: Seq<JobView>,
    line: Seq<char>,
    rest: Seq<char>,
    k: int,
)
    requires
        opens_cache(lines, jobs),
        says(line, "paths "@, rest),
        first_outside(text::list_items(rest), k),
    ensures
        rejects(
            lines,
            line,
            error_behind(
                lines,
                "cache path '"@ + text::list_items(rest)[k]
                    + "' escapes the workspace (absolute or '..' not allowed)"@,
            ),
        ),
{
    lemma_words();
    lemma_said("paths "@, rest);
    lemma_not_job_words("paths "@ + rest);
    let (job, cache) = lemma_cache_step(lines, jobs, line);
    lemma_first_loose(text::list_items(rest), k);
    lemma_rejects(
        lines,
        line,
        error_behind(
            lines,
            "cache path '"@ + text::list_items(rest)[k]
                + "' escapes the workspace (absolute or '..' not allowed)"@,
        ),
    );
}

/// Any other line within a cache block is rejected.
pub proof fn law_unknown_cache_line(lines: Seq<Seq<char>>, jobs: Seq<JobView>, line: Seq<char>)
    requires
        opens_cache(lines, jobs),
        text_laws::lacks(line, '\n'),
        text::trim(line).len() > 0,
        text::trim(line)[0] != '#',
        text::trim(line) != "}"@,
        !"key "@.is_prefix_of(text::trim(line)),
        !"paths "@.is_prefix_of(text::trim(line)),
    ensures
        rejects(
            lines,
            line,
            error_behind(lines, "unknown cache directive: "@ + text::trim(line)),
        ),
{
    let (job, cache) = lemma_cache_step(lines, jobs, line);
    lemma_rejects(
        lines,
        line,
        error_behind(lines, "unknown cache directive: "@ + text::trim(line)),
    );
}

/// An empty config says nothing.
pub proof fn law_no_lines()
    ensures
        tells(Seq::empty(), Seq::empty()),
{
    lemma_told(Seq::empty());
}

/// How the state between jobs goes on with a line.
proof fn lemma_top_step(lines: Seq<Seq<char>>, jobs: Seq<JobView>, line: Seq<char>)
    requires
        tells(lines, jobs),
        text_laws::lacks(line, '\n'),
        !parser::skippable(text::trim(line)),
    ensures
        are_lines(lines.push(line)),
        state(lines.push(line)) == parser::top_line(jobs, text::trim(line), lines.len() + 1),
{
    lemma_told(lines);
    lemma_lines_push(lines, line);
    lemma_state_push(lines, line);
}

/// The name holds neither white space nor a control character.
pub open spec fn is_plain(name: Seq<char>) -> bool {
    forall|k: int|
        0 <= k < name.len() ==> !text::is_space(#[trigger] name[k]) && !text::is_ctrl(name[k])
}

/// No job has that name.
pub open spec fn is_new(jobs: Seq<JobView>, name: Seq<char>) -> bool {
    forall|k: int| 0 <= k < jobs.len() ==> (#[trigger] jobs[k]).name != name
}

proof fn lemma_new(jobs: Seq<JobView>, name: Seq<char>)
    ensures
        is_new(jobs, name) <==> pipeline::position(jobs, name) >= jobs.len(),
    decreases jobs.len(),
{
    if jobs.len() > 0 {
        let rest = jobs.drop_first();
        if jobs[0].name != name {
            lemma_new(rest, name);
            if is_new(rest, name) {
                assert forall|k: int| 0 <= k < jobs.len() implies (#[trigger] jobs[k]).name
                    != name by {
                    if k > 0 {
                        assert(rest[k - 1].name != name);
                    }
                }
            }
            if is_new(jobs, name) {
                assert forall|k: int| 0 <= k < rest.len() implies (#[trigger] rest[k]).name
                    != name by {
                    assert(jobs[k + 1].name != name);
                }
            }
        } else {
            assert(jobs[0].name == name);
        }
    }
}

/// A `job` line opens a job that has its name and nothing else. A name that is taken, is
/// missing, or holds white space or a control character is rejected, and so is a line
/// that does not end with a brace.
pub proof fn law_job_line(
    lines: Seq<Seq<char>>,
    jobs: Seq<JobView>,
    line: Seq<char>,
    rest: Seq<char>,
)
    requires
        tells(lines, jobs),
        says(line, "job "@, rest),
    ensures
        ({
            let head = text::trim(rest);
            let name = text::trim(head.drop_last());
            if head.len() == 0 || head.last() != '{' {
                rejects(lines, line, error_behind(lines, "expected '{' after the job name"@))
            } else if name.len() == 0 {
                rejects(lines, line, error_behind(lines, "missing job name"@))
            } else if !is_plain(name) {
                rejects(
                    lines,
                    line,
                    error_behind(
                        lines,
                        "invalid job name '"@ + name
                            + "': names may not contain whitespace or control characters"@,
                    ),
                )
            } else if !is_new(jobs, name) {
                rejects(lines, line, ErrorView::DuplicateJob(name))
            } else {
                opens_job(
                    lines.push(line),
                    jobs.push(
                        JobView {
                            name,
                            needs: Seq::empty(),
                            env: Seq::empty(),
                            steps: Seq::empty(),
                            produces: Seq::empty(),
                            cache: None,
                            continue_on_error: false,
                            timeout: None,
                        },
                    ),
                )
            }
        }),
{
    let head = text::trim(rest);
    let name = text::trim(head.drop_last());
    lemma_words();
    lemma_said("job "@, rest);
    lemma_not_job_words("job "@ + rest);
    lemma_top_step(lines, jobs, line);
    lemma_new(jobs, name);
    assert(parser::bad_name(name) <==> !is_plain(name));
    let next = state(lines.push(line));
    match next {
        ParseView::Failed(e) => {
            lemma_rejects(lines, line, e);
        },
        ParseView::InJob { jobs: before, job } => {
            lemma_in_job(lines.push(line), before, job);
        },
        _ => {},
    }
}

/// Any other line between jobs is rejected.
pub proof fn law_stray_line(lines: Seq<Seq<char>>, jobs: Seq<JobView>, line: Seq<char>)
    requires
        tells(lines, jobs),
        text_laws::lacks(line, '\n'),
        text::trim(line).len() > 0,
        text::trim(line)[0] != '#',
        !"job "@.is_prefix_of(text::trim(line)),
    ensures
        rejects(
            lines,
            line,
            error_behind(lines, "expected a job definition, found: "@ + text::trim(line)),
        ),
{
    lemma_top_step(lines, jobs, line);
    lemma_rejects(
        lines,
        line,
        error_behind(lines, "expected a job definition, found: "@ + text::trim(line)),
    );
}

/// A config that ends within a job or a cache block is rejected.
pub proof fn law_unterminated(lines: Seq<Seq<char>>, jobs: Seq<JobView>)
    ensures
        opens_job(lines, jobs) ==> told(lines) == Err::<Seq<JobView>, ErrorView>(
            ErrorView::Parse {
                line: lines.len(),
                msg: "unterminated job '"@ + jobs.last().name + "' (missing '}')"@,
            },
        ),
        opens_cache(lines, jobs) ==> told(lines) == Err::<Seq<JobView>, ErrorView>(
            ErrorView::Parse { line: 0, msg: "unterminated cache block (missing '}')"@ },
        ),
{
    if opens_job(lines, jobs) {
        lemma_opens_job(lines, jobs);
        lemma_told(lines);
    }
    if opens_cache(lines, jobs) {
        lemma_opens_cache(lines, jobs);
        lemma_told(lines);
    }
}

/// The states say the same jobs, wherever the lines stand.
spec fn same_jobs(a: ParseView, b: ParseView) -> bool {
    a == b || (a is Failed && b is Failed)
}

proof fn lemma_same_jobs(
    a: Seq<Seq<char>>,
    b: Seq<Seq<char>>,
    rest: Seq<Seq<char>>,
)
    requires
        same_jobs(state(a), state(b)),
    ensures
        same_jobs(state(a + rest), state(b + rest)),
    decreases rest.len(),
{
    if rest.len() == 0 {
        assert(a + rest =~= a);
        assert(b + rest =~= b);
    } else {
        let some = rest.drop_last();
        lemma_same_jobs(a, b, some);
        lemma_state_push(a + some, rest.last());
        lemma_state_push(b + some, rest.last());
        assert((a + some).push(rest.last()) =~= a + rest);
        assert((b + some).push(rest.last()) =~= b + rest);
    }
}

/// Blank lines and comments mean nothing, wherever they stand: they change neither
/// whether a config is accepted nor the jobs that it says.
pub proof fn law_comments(lines: Seq<Seq<char>>, line: Seq<char>, rest: Seq<Seq<char>>)
    requires
        are_lines(lines.push(line) + rest),
        text::trim(line).len() == 0 || text::trim(line)[0] == '#',
    ensures
        told(lines + rest) is Ok <==> told(lines.push(line) + rest) is Ok,
        told(lines + rest) is Ok ==> told(lines.push(line) + rest) == told(lines + rest),
{
    let all = lines.push(line) + rest;
    assert forall|k: int| 0 <= k < (lines + rest).len() implies text_laws::lacks(
        #[trigger] (lines + rest)[k],
        '\n',
    ) by {
        if k < lines.len() {
            assert(text_laws::lacks(all[k], '\n'));
        } else {
            assert(text_laws::lacks(all[k + 1], '\n'));
        }
    }
    lemma_told(all);
    lemma_told(lines + rest);
    lemma_state_push(lines, line);
    lemma_same_jobs(lines.push(line), lines, rest);
}

/// White space around a line means nothing.
pub proof fn law_indentation(a: Seq<Seq<char>>, b: Seq<Seq<char>>)
    requires
        are_lines(a),
        are_lines(b),
        a.len() == b.len(),
        forall|k: int| 0 <= k < a.len() ==> text::trim(#[trigger] a[k]) == text::trim(b[k]),
    ensures
        told(a) == told(b),
{
    lemma_told(a);
    lemma_told(b);
    assert(a.map_values(|l: Seq<char>| text::trim(l)) =~= b.map_values(
        |l: Seq<char>| text::trim(l),
    ));
}

} // verus!
