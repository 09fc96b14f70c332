//! The parser and the printer round-trip: what was parsed and printed is parsed
//! to the same again.

use vstd::prelude::*;

use crate::duration::Duration;
use crate::error::ErrorView;
use crate::parser;
use crate::parser::ParseView;
use crate::pipeline;
use crate::pipeline::{CacheView, JobView};
use crate::printer;
use crate::safepath;
use crate::text;
use crate::text_laws;

verus! {

/// A text that can stand at the end of a line.
pub open spec fn is_word(s: Seq<char>) -> bool {
    s.len() > 0 && text_laws::trimmed(s) && text_laws::lacks(s, '\n')
}

/// Paths that a config may declare.
pub open spec fn are_paths(paths: Seq<Seq<char>>) -> bool {
    &&& text_laws::are_items(paths)
    &&& forall|k: int| 0 <= k < paths.len() ==> safepath::confined(#[trigger] paths[k])
}

/// An environment pair that a line can hold. Either side may be empty.
pub open spec fn is_pair(pair: (Seq<char>, Seq<char>)) -> bool {
    &&& text_laws::trimmed(pair.0) && text_laws::lacks(pair.0, '\n') && text_laws::lacks(
        pair.0,
        '=',
    )
    &&& text_laws::trimmed(pair.1) && text_laws::lacks(pair.1, '\n')
}

/// A cache block that a config can hold.
pub open spec fn is_cache(cache: CacheView) -> bool {
    &&& cache.key matches Some(k) ==> is_word(k)
    &&& are_paths(cache.paths)
}

/// A name that a job can have.
pub open spec fn is_name(name: Seq<char>) -> bool {
    name.len() > 0 && !parser::bad_name(name)
}

/// A job that a config can hold.
pub open spec fn is_job(job: JobView) -> bool {
    &&& is_name(job.name)
    &&& text_laws::are_items(job.needs)
    &&& forall|k: int| 0 <= k < job.env.len() ==> is_pair(#[trigger] job.env[k])
    &&& forall|k: int| 0 <= k < job.steps.len() ==> is_word(#[trigger] job.steps[k])
    &&& are_paths(job.produces)
    &&& job.timeout matches Some(d) ==> d.nanos == 0
    &&& job.cache matches Some(c) ==> is_cache(c)
}

/// No job has that name.
pub open spec fn is_free(jobs: Seq<JobView>, name: Seq<char>) -> bool {
    forall|k: int| 0 <= k < jobs.len() ==> (#[trigger] jobs[k]).name != name
}

/// Jobs that a config can hold: each one is such a job, and no two have one name.
pub open spec fn printable(jobs: Seq<JobView>) -> bool {
    &&& forall|k: int| 0 <= k < jobs.len() ==> is_job(#[trigger] jobs[k])
    &&& forall|a: int, b: int|
        0 <= a < b < jobs.len() ==> (#[trigger] jobs[a]).name != (#[trigger] jobs[b]).name
}

/// What has been read so far can be printed.
pub open spec fn state_ok(state: ParseView) -> bool {
    match state {
        ParseView::Top { jobs } => printable(jobs),
        ParseView::InJob { jobs, job } => printable(jobs) && is_job(job) && is_free(
            jobs,
            job.name,
        ),
        ParseView::InCache { jobs, job, cache } => printable(jobs) && is_job(job) && is_free(
            jobs,
            job.name,
        ) && is_cache(cache),
        ParseView::Failed(_) => true,
    }
}

proof fn lemma_free(jobs: Seq<JobView>, name: Seq<char>)
    ensures
        pipeline::position(jobs, name) <= jobs.len(),
        pipeline::position(jobs, name) == jobs.len() <==> is_free(jobs, name),
    decreases jobs.len(),
{
    if jobs.len() > 0 && jobs[0].name != name {
        let rest = jobs.drop_first();
        lemma_free(rest, name);
        if is_free(jobs, name) {
            assert forall|k: int| 0 <= k < rest.len() implies (#[trigger] rest[k]).name != name by {
                assert(jobs[k + 1].name != name);
            }
        }
        if is_free(rest, name) {
            assert forall|k: int| 0 <= k < jobs.len() implies (#[trigger] jobs[k]).name != name by {
                if k > 0 {
                    assert(rest[k - 1].name != name);
                }
            }
        }
    } else if jobs.len() > 0 {
        assert(!is_free(jobs, name));
    }
}

proof fn lemma_first_loose(paths: Seq<Seq<char>>)
    ensures
        parser::first_loose(paths) is None <==> forall|k: int|
            0 <= k < paths.len() ==> safepath::confined(#[trigger] paths[k]),
    decreases paths.len(),
{
    if paths.len() > 0 {
        let rest = paths.drop_first();
        lemma_first_loose(rest);
        if parser::first_loose(paths) is None {
            assert forall|k: int| 0 <= k < paths.len() implies safepath::confined(
                #[trigger] paths[k],
            ) by {
                if k > 0 {
                    assert(safepath::confined(rest[k - 1]));
                }
            }
        }
        if forall|k: int| 0 <= k < paths.len() ==> safepath::confined(#[trigger] paths[k]) {
            assert(safepath::confined(paths[0]));
            assert forall|k: int| 0 <= k < rest.len() implies safepath::confined(
                #[trigger] rest[k],
            ) by {
                assert(safepath::confined(paths[k + 1]));
            }
        }
    }
}

/// What follows a word and a space in a trimmed line can stand at the end of a line.
proof fn lemma_rest(line: Seq<char>, prefix: Seq<char>)
    requires
        text_laws::trimmed(line),
        text_laws::lacks(line, '\n'),
        prefix.len() > 0,
        prefix.last() == ' ',
        text::strip_prefix(line, prefix) is Some,
    ensures
        ({
            let rest = text::strip_prefix(line, prefix)->0;
            text_laws::lacks(rest, '\n') && is_word(text::trim(rest))
        }),
{
    let rest = text::strip_prefix(line, prefix)->0;
    let n = prefix.len() as int;
    assert(rest == line.skip(n));
    assert(line.subrange(0, n)[n - 1] == line[n - 1]);
    assert(text::is_space(' '));
    assert(line.len() > n);
    assert forall|k: int| 0 <= k < rest.len() implies #[trigger] rest[k] != '\n' by {
        assert(rest[k] == line[n + k]);
    }
    assert(rest.last() == line.last());
    text_laws::law_trim_lacks(rest, '\n');
    let at = text_laws::law_trim(rest);
    if text::trim(rest).len() == 0 {
        lemma_trim_to_nothing(rest);
        assert(text::is_space(rest[rest.len() - 1]));
    }
}

/// Only white space is trimmed to nothing.
proof fn lemma_trim_to_nothing(s: Seq<char>)
    requires
        text::trim(s).len() == 0,
    ensures
        text_laws::blank(s),
{
    text_laws::lemma_trim_start(s);
    let a = text::trim_start(s);
    if a.len() > 0 {
        lemma_trim_end_keeps(a);
    }
    assert(s.take(s.len() - a.len()) =~= s);
}

proof fn lemma_trim_end_keeps(s: Seq<char>)
    requires
        s.len() > 0,
        !text::is_space(s[0]),
    ensures
        text::trim_end(s).len() > 0,
    decreases s.len(),
{
    if text::is_space(s.last()) {
        lemma_trim_end_keeps(s.drop_last());
    }
}

proof fn lemma_top_line(jobs: Seq<JobView>, line: Seq<char>, ln: nat)
    requires
        printable(jobs),
    ensures
        state_ok(parser::top_line(jobs, line, ln)),
{
    if let ParseView::InJob { jobs: j, job } = parser::top_line(jobs, line, ln) {
        lemma_free(jobs, job.name);
    }
}

proof fn lemma_env_line(jobs: Seq<JobView>, job: JobView, rest: Seq<char>, ln: nat)
    requires
        printable(jobs),
        is_job(job),
        is_free(jobs, job.name),
        text_laws::lacks(rest, '\n'),
    ensures
        state_ok(parser::env_line(jobs, job, rest, ln)),
{
    let k = text::find(rest, '=');
    lemma_find_bound(rest, '=');
    if k < rest.len() {
        let a = rest.take(k);
        let b = rest.skip(k + 1);
        assert forall|i: int| 0 <= i < b.len() implies #[trigger] b[i] != '\n' by {
            assert(b[i] == rest[k + 1 + i]);
        }
        text_laws::law_trim_lacks(a, '\n');
        text_laws::law_trim_lacks(a, '=');
        text_laws::law_trim_lacks(b, '\n');
        let x = text_laws::law_trim(a);
        let y = text_laws::law_trim(b);
        let env = job.env.push((text::trim(a), text::trim(b)));
        assert forall|i: int| 0 <= i < env.len() implies is_pair(#[trigger] env[i]) by {
            if i < job.env.len() {
                assert(is_pair(job.env[i]));
            }
        }
    }
}

proof fn lemma_find_bound(s: Seq<char>, c: char)
    ensures
        0 <= text::find(s, c) <= s.len(),
        text_laws::lacks(s.take(text::find(s, c)), c),
    decreases s.len(),
{
    if s.len() > 0 && s[0] != c {
        let rest = s.drop_first();
        lemma_find_bound(rest, c);
        let k = text::find(s, c);
        assert forall|i: int| 0 <= i < k implies #[trigger] s.take(k)[i] != c by {
            if i > 0 {
                assert(rest.take(k - 1)[i - 1] == s[i]);
            }
        }
    }
}

proof fn lemma_job_line(jobs: Seq<JobView>, job: JobView, line: Seq<char>, ln: nat)
    requires
        printable(jobs),
        is_job(job),
        is_free(jobs, job.name),
        text_laws::trimmed(line),
        text_laws::lacks(line, '\n'),
    ensures
        state_ok(parser::job_line(jobs, job, line, ln)),
{
    reveal_strlit("needs ");
    reveal_strlit("env ");
    reveal_strlit("step ");
    reveal_strlit("produces ");
    if line == "}"@ {
        assert(printable(jobs.push(job)));
    } else if let Some(rest) = text::strip_prefix(line, "needs "@) {
        lemma_rest(line, "needs "@);
        text_laws::law_list_items(rest);
    } else if let Some(rest) = text::strip_prefix(line, "env "@) {
        lemma_rest(line, "env "@);
        lemma_env_line(jobs, job, rest, ln);
    } else if let Some(rest) = text::strip_prefix(line, "step "@) {
        lemma_rest(line, "step "@);
    } else if let Some(rest) = text::strip_prefix(line, "produces "@) {
        lemma_rest(line, "produces "@);
        text_laws::law_list_items(rest);
        lemma_first_loose(text::list_items(rest));
    }
}

proof fn lemma_cache_line(
    jobs: Seq<JobView>,
    job: JobView,
    cache: CacheView,
    line: Seq<char>,
    ln: nat,
)
    requires
        printable(jobs),
        is_job(job),
        is_free(jobs, job.name),
        is_cache(cache),
        text_laws::trimmed(line),
        text_laws::lacks(line, '\n'),
    ensures
        state_ok(parser::cache_line(jobs, job, cache, line, ln)),
{
    reveal_strlit("key ");
    reveal_strlit("paths ");
    if line == "}"@ {
    } else if let Some(rest) = text::strip_prefix(line, "key "@) {
        lemma_rest(line, "key "@);
    } else if let Some(rest) = text::strip_prefix(line, "paths "@) {
        lemma_rest(line, "paths "@);
        text_laws::law_list_items(rest);
        lemma_first_loose(text::list_items(rest));
    }
}

proof fn lemma_state_ok(lines: Seq<Seq<char>>, n: int)
    requires
        forall|k: int|
            0 <= k < lines.len() ==> text_laws::trimmed(#[trigger] lines[k]) && text_laws::lacks(
                lines[k],
                '\n',
            ),
        0 <= n <= lines.len(),
    ensures
        state_ok(parser::state_at(lines, n)),
    decreases n,
{
    if n > 0 {
        lemma_state_ok(lines, n - 1);
        let line = lines[n - 1];
        match parser::state_at(lines, n - 1) {
            ParseView::Top { jobs } => {
                lemma_top_line(jobs, line, n as nat);
            },
            ParseView::InJob { jobs, job } => {
                lemma_job_line(jobs, job, line, n as nat);
            },
            ParseView::InCache { jobs, job, cache } => {
                lemma_cache_line(jobs, job, cache, line, n as nat);
            },
            ParseView::Failed(_) => {},
        }
    }
}

/// What is parsed can be printed: names are unique and without white space, lists
/// hold no empty items, declared paths are confined, and no field runs over a line.
pub proof fn law_parsed_is_printable(input: Seq<char>)
    ensures
        parser::parsed(input) matches Ok(jobs) ==> printable(jobs),
{
    let raw = text::raw_lines(input);
    let lines = text::lines(input);
    text_laws::law_split_lacks(input, '\n', '\n');
    text::lemma_split_nonempty(input, '\n');
    assert forall|k: int| 0 <= k < lines.len() implies text_laws::trimmed(#[trigger] lines[k])
        && text_laws::lacks(lines[k], '\n') by {
        assert(raw[k] == text::split(input, '\n')[k]);
        text_laws::law_trim_lacks(raw[k], '\n');
        let at = text_laws::law_trim(raw[k]);
    }
    lemma_state_ok(lines, lines.len() as int);
}

/// How the reading goes on with `lines`, the first of which is line `from + 1`.
pub open spec fn feed(state: ParseView, lines: Seq<Seq<char>>, from: nat) -> ParseView
    decreases lines.len(),
{
    if lines.len() == 0 {
        state
    } else {
        parser::step(feed(state, lines.drop_last(), from), lines.last(), from + lines.len())
    }
}

proof fn lemma_feed_one(state: ParseView, line: Seq<char>, from: nat)
    ensures
        feed(state, seq![line], from) == parser::step(state, line, from + 1),
{
    assert(seq![line].drop_last() =~= Seq::empty());
    assert(feed(state, Seq::empty(), from) == state);
}

proof fn lemma_feed_concat(state: ParseView, a: Seq<Seq<char>>, b: Seq<Seq<char>>, from: nat)
    ensures
        feed(state, a + b, from) == feed(feed(state, a, from), b, from + a.len()),
    decreases b.len(),
{
    if b.len() == 0 {
        assert(a + b =~= a);
    } else {
        lemma_feed_concat(state, a, b.drop_last(), from);
        assert((a + b).drop_last() =~= a + b.drop_last());
    }
}

proof fn lemma_state_is_feed(lines: Seq<Seq<char>>, n: int)
    requires
        0 <= n <= lines.len(),
    ensures
        parser::state_at(lines, n) == feed(
            ParseView::Top { jobs: Seq::empty() },
            lines.take(n),
            0,
        ),
    decreases n,
{
    if n > 0 {
        lemma_state_is_feed(lines, n - 1);
        assert(lines.take(n).drop_last() =~= lines.take(n - 1));
    }
}

/// The lines, trimmed.
pub open spec fn trims(lines: Seq<Seq<char>>) -> Seq<Seq<char>> {
    lines.map_values(|l: Seq<char>| text::trim(l))
}

proof fn lemma_trims_concat(a: Seq<Seq<char>>, b: Seq<Seq<char>>)
    ensures
        trims(a + b) == trims(a) + trims(b),
{
    assert(trims(a + b) =~= trims(a) + trims(b));
}

/// An indented line that begins with a word and ends with a text.
proof fn lemma_indented(indent: Seq<char>, word: Seq<char>, end: Seq<char>)
    requires
        text_laws::blank(indent),
        word.len() > 0,
        !text::is_space(word[0]),
        end.len() > 0,
        text_laws::trimmed(end),
    ensures
        text::trim(indent + word + end) == word + end,
{
    let line = word + end;
    assert(line[0] == word[0]);
    assert(line.last() == end.last());
    text_laws::law_trim_padded(indent, line, Seq::empty());
    assert(indent + line + Seq::empty() =~= indent + word + end);
}

proof fn lemma_reads_needs(jobs: Seq<JobView>, job: JobView, items: Seq<Seq<char>>, from: nat)
    requires
        text_laws::are_items(items),
        job.needs == Seq::<Seq<char>>::empty(),
    ensures
        feed(
            ParseView::InJob { jobs, job },
            trims(printer::list_line("  needs "@, items)),
            from,
        ) == (ParseView::InJob { jobs, job: JobView { needs: items, ..job } }),
{
    if items.len() == 0 {
        assert(items =~= Seq::empty());
    } else {
        reveal_strlit("  needs ");
        reveal_strlit("needs ");
        reveal_strlit("  ");
        reveal_strlit("}");
        let list = text::join(items, ", "@);
        text_laws::law_join(items);
        lemma_indented("  "@, "needs "@, list);
        assert("  "@ + "needs "@ =~= "  needs "@);
        let line = "needs "@ + list;
        assert(line[0] == 'n');
        text_laws::law_prefix("needs "@, list);
        text_laws::law_list_round_trip(items);
        assert(trims(printer::list_line("  needs "@, items)) =~= seq![line]);
        lemma_feed_one(ParseView::InJob { jobs, job }, line, from);
    }
}

/// What is left of the line of a pair behind the word.
spec fn pair_rest(pair: (Seq<char>, Seq<char>)) -> Seq<char> {
    if pair.1.len() > 0 {
        pair.0 + " = "@ + pair.1
    } else {
        pair.0 + seq![' ', '=']
    }
}

proof fn lemma_pair_line(pair: (Seq<char>, Seq<char>))
    requires
        is_pair(pair),
    ensures
        text::trim(printer::env_line(pair)) == "env "@ + pair_rest(pair),
{
    reveal_strlit("  env ");
    reveal_strlit("env ");
    reveal_strlit(" = ");
    let raw = printer::env_line(pair);
    let pad = seq![' ', ' '];
    let line = "env "@ + pair_rest(pair);
    assert(line[0] == 'e');
    if pair.1.len() > 0 {
        assert(line.last() == pair.1.last());
        text_laws::law_trim_padded(pad, line, Seq::empty());
        assert(pad + line + Seq::empty() =~= raw);
    } else {
        assert(line.last() == '=');
        assert(!text::is_space('='));
        text_laws::law_trim_padded(pad, line, seq![' ']);
        assert(pad + line + seq![' '] =~= raw);
    }
}

proof fn lemma_pair_rest(pair: (Seq<char>, Seq<char>))
    requires
        is_pair(pair),
    ensures
        ({
            let rest = pair_rest(pair);
            let at = text::find(rest, '=');
            &&& 0 <= at < rest.len()
            &&& text::trim(rest.take(at)) == pair.0
            &&& text::trim(rest.skip(at + 1)) == pair.1
        }),
{
    reveal_strlit(" = ");
    let (k, v) = pair;
    let rest = pair_rest(pair);
    let at = k.len() as int + 1;
    assert(rest[at] == '=');
    assert forall|i: int| 0 <= i < at implies #[trigger] rest[i] != '=' by {
        if i < k.len() {
            assert(rest[i] == k[i]);
        } else {
            assert(rest[i] == ' ');
        }
    }
    text::lemma_find(rest, '=', at);
    assert(rest.take(at) =~= Seq::empty() + k + seq![' ']);
    text_laws::law_trim_padded(Seq::empty(), k, seq![' ']);
    if v.len() > 0 {
        assert(rest.skip(at + 1) =~= seq![' '] + v + Seq::empty());
        text_laws::law_trim_padded(seq![' '], v, Seq::empty());
    } else {
        assert(v =~= Seq::empty());
        assert(rest.skip(at + 1) =~= v);
        text_laws::law_trim_twice(v);
    }
}

proof fn lemma_reads_pair(jobs: Seq<JobView>, job: JobView, pair: (Seq<char>, Seq<char>), ln: nat)
    requires
        is_pair(pair),
    ensures
        parser::step(
            ParseView::InJob { jobs, job },
            text::trim(printer::env_line(pair)),
            ln,
        ) == (ParseView::InJob { jobs, job: JobView { env: job.env.push(pair), ..job } }),
{
    let rest = pair_rest(pair);
    let line = "env "@ + rest;
    lemma_pair_line(pair);
    lemma_pair_rest(pair);
    text_laws::law_prefix("env "@, rest);
    lemma_env_word(line, rest);
}

/// A line that begins with `env` is neither blank nor of another kind.
proof fn lemma_env_word(line: Seq<char>, rest: Seq<char>)
    requires
        line == "env "@ + rest,
    ensures
        !parser::skippable(line),
        line != "}"@,
        text::strip_prefix(line, "needs "@) is None,
{
    reveal_strlit("env ");
    reveal_strlit("needs ");
    reveal_strlit("}");
    assert(line[0] == 'e');
    text_laws::law_other_prefix(line, "needs "@, 0);
}

proof fn lemma_reads_env(
    jobs: Seq<JobView>,
    job: JobView,
    env: Seq<(Seq<char>, Seq<char>)>,
    from: nat,
)
    requires
        forall|k: int| 0 <= k < env.len() ==> is_pair(#[trigger] env[k]),
        job.env == Seq::<(Seq<char>, Seq<char>)>::empty(),
    ensures
        feed(
            ParseView::InJob { jobs, job },
            trims(env.map_values(|p: (Seq<char>, Seq<char>)| printer::env_line(p))),
            from,
        ) == (ParseView::InJob { jobs, job: JobView { env, ..job } }),
    decreases env.len(),
{
    let lines = trims(env.map_values(|p: (Seq<char>, Seq<char>)| printer::env_line(p)));
    if env.len() == 0 {
        assert(env =~= Seq::empty());
    } else {
        let rest = env.drop_last();
        let last = env.last();
        assert forall|k: int| 0 <= k < rest.len() implies is_pair(#[trigger] rest[k]) by {
            assert(is_pair(env[k]));
        }
        assert(is_pair(env[env.len() - 1]));
        lemma_reads_env(jobs, job, rest, from);
        assert(lines.drop_last() =~= trims(
            rest.map_values(|p: (Seq<char>, Seq<char>)| printer::env_line(p)),
        ));
        lemma_reads_pair(jobs, JobView { env: rest, ..job }, last, from + lines.len());
        assert(rest.push(last) =~= env);
    }
}

proof fn lemma_reads_step(jobs: Seq<JobView>, job: JobView, step: Seq<char>, ln: nat)
    requires
        is_word(step),
    ensures
        parser::step(
            ParseView::InJob { jobs, job },
            text::trim(printer::step_line(step)),
            ln,
        ) == (ParseView::InJob { jobs, job: JobView { steps: job.steps.push(step), ..job } }),
{
    reveal_strlit("  step ");
    reveal_strlit("step ");
    reveal_strlit("  ");
    reveal_strlit("needs ");
    reveal_strlit("env ");
    reveal_strlit("}");
    let line = "step "@ + step;
    lemma_indented("  "@, "step "@, step);
    assert("  "@ + "step "@ =~= "  step "@);
    assert(line[0] == 's');
    text_laws::law_other_prefix(line, "needs "@, 0);
    text_laws::law_other_prefix(line, "env "@, 0);
    text_laws::law_prefix("step "@, step);
    text_laws::law_trim_twice(step);
}

proof fn lemma_reads_steps(jobs: Seq<JobView>, job: JobView, steps: Seq<Seq<char>>, from: nat)
    requires
        forall|k: int| 0 <= k < steps.len() ==> is_word(#[trigger] steps[k]),
        job.steps == Seq::<Seq<char>>::empty(),
    ensures
        feed(
            ParseView::InJob { jobs, job },
            trims(steps.map_values(|s: Seq<char>| printer::step_line(s))),
            from,
        ) == (ParseView::InJob { jobs, job: JobView { steps, ..job } }),
    decreases steps.len(),
{
    let lines = trims(steps.map_values(|s: Seq<char>| printer::step_line(s)));
    if steps.len() == 0 {
        assert(steps =~= Seq::empty());
    } else {
        let rest = steps.drop_last();
        let last = steps.last();
        assert forall|k: int| 0 <= k < rest.len() implies is_word(#[trigger] rest[k]) by {
            assert(is_word(steps[k]));
        }
        assert(is_word(steps[steps.len() - 1]));
        lemma_reads_steps(jobs, job, rest, from);
        assert(lines.drop_last() =~= trims(
            rest.map_values(|s: Seq<char>| printer::step_line(s)),
        ));
        lemma_reads_step(jobs, JobView { steps: rest, ..job }, last, from + lines.len());
        assert(rest.push(last) =~= steps);
    }
}

proof fn lemma_reads_produces(jobs: Seq<JobView>, job: JobView, items: Seq<Seq<char>>, from: nat)
    requires
        are_paths(items),
        job.produces == Seq::<Seq<char>>::empty(),
    ensures
        feed(
            ParseView::InJob { jobs, job },
            trims(printer::list_line("  produces "@, items)),
            from,
        ) == (ParseView::InJob { jobs, job: JobView { produces: items, ..job } }),
{
    if items.len() == 0 {
        assert(items =~= Seq::empty());
    } else {
        reveal_strlit("  produces ");
        reveal_strlit("produces ");
        reveal_strlit("  ");
        reveal_strlit("needs ");
        reveal_strlit("env ");
        reveal_strlit("step ");
        reveal_strlit("}");
        let list = text::join(items, ", "@);
        text_laws::law_join(items);
        lemma_indented("  "@, "produces "@, list);
        assert("  "@ + "produces "@ =~= "  produces "@);
        let line = "produces "@ + list;
        assert(line[0] == 'p');
        text_laws::law_other_prefix(line, "needs "@, 0);
        text_laws::law_other_prefix(line, "env "@, 0);
        text_laws::law_other_prefix(line, "step "@, 0);
        text_laws::law_prefix("produces "@, list);
        text_laws::law_list_round_trip(items);
        lemma_first_loose(items);
        assert(trims(printer::list_line("  produces "@, items)) =~= seq![line]);
        lemma_feed_one(ParseView::InJob { jobs, job }, line, from);
    }
}

proof fn lemma_reads_timeout(
    jobs: Seq<JobView>,
    job: JobView,
    timeout: Option<Duration>,
    from: nat,
)
    requires
        timeout matches Some(d) ==> d.nanos == 0,
        job.timeout is None,
    ensures
        feed(ParseView::InJob { jobs, job }, trims(printer::timeout_lines(timeout)), from) == (
        ParseView::InJob { jobs, job: JobView { timeout, ..job } }),
{
    if let Some(d) = timeout {
        reveal_strlit("  timeout ");
        reveal_strlit("timeout ");
        reveal_strlit("  ");
        reveal_strlit("needs ");
        reveal_strlit("env ");
        reveal_strlit("step ");
        reveal_strlit("produces ");
        reveal_strlit("}");
        let number = text::decimal(d.secs as nat);
        text_laws::law_decimal(d.secs as nat);
        text_laws::law_number_round_trip(d.secs as nat, u64::MAX as nat);
        lemma_indented("  "@, "timeout "@, number);
        assert("  "@ + "timeout "@ =~= "  timeout "@);
        let line = "timeout "@ + number;
        assert(line[0] == 't');
        text_laws::law_other_prefix(line, "needs "@, 0);
        text_laws::law_other_prefix(line, "env "@, 0);
        text_laws::law_other_prefix(line, "step "@, 0);
        text_laws::law_other_prefix(line, "produces "@, 0);
        text_laws::law_prefix("timeout "@, number);
        text_laws::law_trim_twice(number);
        assert(trims(printer::timeout_lines(timeout)) =~= seq![line]);
        lemma_feed_one(ParseView::InJob { jobs, job }, line, from);
    }
}

proof fn lemma_reads_key(
    jobs: Seq<JobView>,
    job: JobView,
    cache: CacheView,
    key: Option<Seq<char>>,
    from: nat,
)
    requires
        key matches Some(k) ==> is_word(k),
        cache.key is None,
    ensures
        feed(ParseView::InCache { jobs, job, cache }, trims(printer::key_lines(key)), from) == (
        ParseView::InCache { jobs, job, cache: CacheView { key, ..cache } }),
{
    if let Some(k) = key {
        reveal_strlit("    key ");
        reveal_strlit("key ");
        reveal_strlit("    ");
        reveal_strlit("}");
        lemma_indented("    "@, "key "@, k);
        assert("    "@ + "key "@ =~= "    key "@);
        let line = "key "@ + k;
        assert(line[0] == 'k');
        text_laws::law_prefix("key "@, k);
        text_laws::law_trim_twice(k);
        assert(trims(printer::key_lines(key)) =~= seq![line]);
        lemma_feed_one(ParseView::InCache { jobs, job, cache }, line, from);
    }
}

proof fn lemma_reads_paths(
    jobs: Seq<JobView>,
    job: JobView,
    cache: CacheView,
    items: Seq<Seq<char>>,
    from: nat,
)
    requires
        are_paths(items),
        cache.paths == Seq::<Seq<char>>::empty(),
    ensures
        feed(
            ParseView::InCache { jobs, job, cache },
            trims(printer::list_line("    paths "@, items)),
            from,
        ) == (ParseView::InCache { jobs, job, cache: CacheView { paths: items, ..cache } }),
{
    if items.len() == 0 {
        assert(items =~= Seq::empty());
    } else {
        reveal_strlit("    paths ");
        reveal_strlit("paths ");
        reveal_strlit("    ");
        reveal_strlit("key ");
        reveal_strlit("}");
        let list = text::join(items, ", "@);
        text_laws::law_join(items);
        lemma_indented("    "@, "paths "@, list);
        assert("    "@ + "paths "@ =~= "    paths "@);
        let line = "paths "@ + list;
        assert(line[0] == 'p');
        text_laws::law_other_prefix(line, "key "@, 0);
        text_laws::law_prefix("paths "@, list);
        text_laws::law_list_round_trip(items);
        lemma_first_loose(items);
        assert(trims(printer::list_line("    paths "@, items)) =~= seq![line]);
        lemma_feed_one(ParseView::InCache { jobs, job, cache }, line, from);
    }
}

/// A line of white space and a text.
proof fn lemma_trim_indent(indent: Seq<char>, s: Seq<char>, line: Seq<char>)
    requires
        text_laws::blank(indent),
        text_laws::trimmed(s),
        line == indent + s,
    ensures
        text::trim(line) == s,
{
    text_laws::law_trim_padded(indent, s, Seq::empty());
    assert(indent + s + Seq::empty() =~= line);
}

proof fn lemma_reads_cache_open(jobs: Seq<JobView>, job: JobView, ln: nat)
    ensures
        parser::step(ParseView::InJob { jobs, job }, text::trim("  cache {"@), ln) == (
        ParseView::InCache { jobs, job, cache: CacheView::blank() }),
{
    reveal_strlit("  cache {");
    reveal_strlit("cache {");
    reveal_strlit("  ");
    reveal_strlit("needs ");
    reveal_strlit("env ");
    reveal_strlit("step ");
    reveal_strlit("produces ");
    reveal_strlit("timeout ");
    reveal_strlit("continue-on-error");
    reveal_strlit("}");
    let line = "cache {"@;
    assert("  cache {"@ =~= "  "@ + line);
    lemma_trim_indent("  "@, line, "  cache {"@);
    text_laws::law_other_prefix(line, "needs "@, 0);
    text_laws::law_other_prefix(line, "env "@, 0);
    text_laws::law_other_prefix(line, "step "@, 0);
    text_laws::law_other_prefix(line, "produces "@, 0);
    text_laws::law_other_prefix(line, "timeout "@, 0);
    assert(line.len() == 7);
}

proof fn lemma_reads_cache(
    jobs: Seq<JobView>,
    job: JobView,
    cache: Option<CacheView>,
    from: nat,
)
    requires
        cache matches Some(c) ==> is_cache(c),
        job.cache is None,
    ensures
        feed(ParseView::InJob { jobs, job }, trims(printer::cache_lines(cache)), from) == (
        ParseView::InJob { jobs, job: JobView { cache, ..job } }),
{
    let start = ParseView::InJob { jobs, job };
    if let Some(c) = cache {
        reveal_strlit("  }");
        reveal_strlit("}");
        reveal_strlit("  ");
        let a = seq!["  cache {"@];
        let b = printer::key_lines(c.key);
        let d = printer::list_line("    paths "@, c.paths);
        let e = seq!["  }"@];
        let blank = CacheView::blank();
        let keyed = CacheView { key: c.key, ..blank };
        assert(CacheView { paths: c.paths, ..keyed } =~= c);
        assert(trims(a) =~= seq![text::trim("  cache {"@)]);
        lemma_feed_one(start, text::trim("  cache {"@), from);
        lemma_reads_cache_open(jobs, job, from + 1);
        lemma_reads_key(jobs, job, blank, c.key, from + trims(a).len());
        lemma_feed_concat(start, trims(a), trims(b), from);
        lemma_trims_concat(a, b);
        lemma_reads_paths(jobs, job, keyed, c.paths, from + trims(a + b).len());
        lemma_feed_concat(start, trims(a + b), trims(d), from);
        lemma_trims_concat(a + b, d);
        assert("  }"@ =~= "  "@ + "}"@);
        lemma_trim_indent("  "@, "}"@, "  }"@);
        assert(trims(e) =~= seq!["}"@]);
        let inner = ParseView::InCache { jobs, job, cache: c };
        lemma_feed_one(inner, "}"@, from + trims(a + b + d).len());
        lemma_feed_concat(start, trims(a + b + d), trims(e), from);
        lemma_trims_concat(a + b + d, e);
    }
}

proof fn lemma_reads_flag(jobs: Seq<JobView>, job: JobView, flag: bool, from: nat)
    requires
        !job.continue_on_error,
    ensures
        feed(ParseView::InJob { jobs, job }, trims(printer::flag_lines(flag)), from) == (
        ParseView::InJob { jobs, job: JobView { continue_on_error: flag, ..job } }),
{
    if flag {
        reveal_strlit("  continue-on-error");
        reveal_strlit("continue-on-error");
        reveal_strlit("  ");
        reveal_strlit("needs ");
        reveal_strlit("env ");
        reveal_strlit("step ");
        reveal_strlit("produces ");
        reveal_strlit("timeout ");
        reveal_strlit("}");
        let line = "continue-on-error"@;
        assert("  continue-on-error"@ =~= "  "@ + line);
        lemma_trim_indent("  "@, line, "  continue-on-error"@);
        text_laws::law_other_prefix(line, "needs "@, 0);
        text_laws::law_other_prefix(line, "env "@, 0);
        text_laws::law_other_prefix(line, "step "@, 0);
        text_laws::law_other_prefix(line, "produces "@, 0);
        text_laws::law_other_prefix(line, "timeout "@, 0);
        assert(line[0] == 'c');
        assert(trims(printer::flag_lines(flag)) =~= seq![line]);
        lemma_feed_one(ParseView::InJob { jobs, job }, line, from);
    }
}

proof fn lemma_reads_body(jobs: Seq<JobView>, job: JobView, from: nat)
    requires
        is_job(job),
    ensures
        feed(
            ParseView::InJob { jobs, job: JobView::named(job.name) },
            trims(printer::body_lines(job)),
            from,
        ) == (ParseView::InJob { jobs, job }),
{
    let j0 = JobView::named(job.name);
    let start = ParseView::InJob { jobs, job: j0 };
    let a = printer::list_line("  needs "@, job.needs);
    let j1 = JobView { needs: job.needs, ..j0 };
    lemma_reads_needs(jobs, j0, job.needs, from);
    let b = job.env.map_values(|p: (Seq<char>, Seq<char>)| printer::env_line(p));
    let j2 = JobView { env: job.env, ..j1 };
    lemma_reads_env(jobs, j1, job.env, from + trims(a).len());
    lemma_feed_concat(start, trims(a), trims(b), from);
    lemma_trims_concat(a, b);
    let c = job.steps.map_values(|s: Seq<char>| printer::step_line(s));
    let j3 = JobView { steps: job.steps, ..j2 };
    lemma_reads_steps(jobs, j2, job.steps, from + trims(a + b).len());
    lemma_feed_concat(start, trims(a + b), trims(c), from);
    lemma_trims_concat(a + b, c);
    let d = printer::list_line("  produces "@, job.produces);
    let j4 = JobView { produces: job.produces, ..j3 };
    lemma_reads_produces(jobs, j3, job.produces, from + trims(a + b + c).len());
    lemma_feed_concat(start, trims(a + b + c), trims(d), from);
    lemma_trims_concat(a + b + c, d);
    let e = printer::timeout_lines(job.timeout);
    let j5 = JobView { timeout: job.timeout, ..j4 };
    lemma_reads_timeout(jobs, j4, job.timeout, from + trims(a + b + c + d).len());
    lemma_feed_concat(start, trims(a + b + c + d), trims(e), from);
    lemma_trims_concat(a + b + c + d, e);
    let f = printer::cache_lines(job.cache);
    let j6 = JobView { cache: job.cache, ..j5 };
    lemma_reads_cache(jobs, j5, job.cache, from + trims(a + b + c + d + e).len());
    lemma_feed_concat(start, trims(a + b + c + d + e), trims(f), from);
    lemma_trims_concat(a + b + c + d + e, f);
    let g = printer::flag_lines(job.continue_on_error);
    lemma_reads_flag(jobs, j6, job.continue_on_error, from + trims(a + b + c + d + e + f).len());
    lemma_feed_concat(start, trims(a + b + c + d + e + f), trims(g), from);
    lemma_trims_concat(a + b + c + d + e + f, g);
    assert(JobView { continue_on_error: job.continue_on_error, ..j6 } =~= job);
}

proof fn lemma_name(name: Seq<char>)
    requires
        is_name(name),
    ensures
        text_laws::trimmed(name),
        text_laws::lacks(name, '\n'),
{
    assert(text::is_space('\n'));
    assert(!text::is_space(name[0]));
    assert(!text::is_space(name[name.len() - 1]));
    assert forall|k: int| 0 <= k < name.len() implies #[trigger] name[k] != '\n' by {
        assert(!text::is_space(name[k]));
    }
}

proof fn lemma_reads_head(jobs: Seq<JobView>, name: Seq<char>, ln: nat)
    requires
        is_name(name),
        is_free(jobs, name),
    ensures
        parser::step(
            ParseView::Top { jobs },
            text::trim("job "@ + name + " {"@),
            ln,
        ) == (ParseView::InJob { jobs, job: JobView::named(name) }),
{
    reveal_strlit("job ");
    reveal_strlit(" {");
    lemma_name(name);
    let rest = name + " {"@;
    let line = "job "@ + name + " {"@;
    assert(line =~= "job "@ + rest);
    assert(line[0] == 'j');
    assert(line.last() == '{');
    assert(!text::is_space('j'));
    assert(!text::is_space('{'));
    text_laws::law_trim_twice(line);
    text_laws::law_prefix("job "@, rest);
    assert(rest[0] == name[0]);
    assert(rest.last() == '{');
    text_laws::law_trim_twice(rest);
    assert(rest.drop_last() =~= Seq::empty() + name + seq![' ']);
    text_laws::law_trim_padded(Seq::empty(), name, seq![' ']);
    lemma_free(jobs, name);
}

proof fn lemma_reads_job(jobs: Seq<JobView>, job: JobView, from: nat)
    requires
        is_job(job),
        is_free(jobs, job.name),
    ensures
        feed(ParseView::Top { jobs }, trims(printer::job_lines(job)), from) == (ParseView::Top {
            jobs: jobs.push(job),
        }),
{
    reveal_strlit("}");
    let start = ParseView::Top { jobs };
    let head = "job "@ + job.name + " {"@;
    let a = seq![head];
    let b = printer::body_lines(job);
    let c = seq!["}"@];
    assert(trims(a) =~= seq![text::trim(head)]);
    lemma_feed_one(start, text::trim(head), from);
    lemma_reads_head(jobs, job.name, from + 1);
    lemma_reads_body(jobs, job, from + trims(a).len());
    lemma_feed_concat(start, trims(a), trims(b), from);
    lemma_trims_concat(a, b);
    text_laws::law_trim_twice("}"@);
    assert(trims(c) =~= seq!["}"@]);
    lemma_feed_one(ParseView::InJob { jobs, job }, "}"@, from + trims(a + b).len());
    lemma_feed_concat(start, trims(a + b), trims(c), from);
    lemma_trims_concat(a + b, c);
}

proof fn lemma_reads_all(jobs: Seq<JobView>)
    requires
        printable(jobs),
    ensures
        feed(
            ParseView::Top { jobs: Seq::empty() },
            trims(printer::all_lines(jobs)),
            0,
        ) == (ParseView::Top { jobs }),
    decreases jobs.len(),
{
    let start = ParseView::Top { jobs: Seq::<JobView>::empty() };
    if jobs.len() == 0 {
        assert(jobs =~= Seq::empty());
        assert(trims(printer::all_lines(jobs)) =~= Seq::empty());
    } else {
        let rest = jobs.drop_last();
        let last = jobs.last();
        assert(is_job(jobs[jobs.len() - 1]));
        assert forall|k: int| 0 <= k < rest.len() implies is_job(#[trigger] rest[k]) by {
            assert(is_job(jobs[k]));
        }
        assert(printable(rest));
        assert forall|k: int| 0 <= k < rest.len() implies (#[trigger] rest[k]).name
            != last.name by {
            assert(jobs[k].name != jobs[jobs.len() - 1].name);
        }
        assert(rest.push(last) =~= jobs);
        if jobs.len() == 1 {
            assert(rest =~= Seq::empty());
            lemma_reads_job(rest, last, 0);
        } else {
            lemma_reads_all(rest);
            let a = printer::all_lines(rest);
            let b = seq![Seq::<char>::empty()];
            let c = printer::job_lines(last);
            assert(a.push(Seq::empty()) =~= a + b);
            text_laws::law_trim_twice(Seq::empty());
            assert(trims(b) =~= seq![Seq::<char>::empty()]);
            lemma_feed_one(ParseView::Top { jobs: rest }, Seq::empty(), trims(a).len());
            lemma_feed_concat(start, trims(a), trims(b), 0);
            lemma_trims_concat(a, b);
            lemma_reads_job(rest, last, trims(a + b).len());
            lemma_feed_concat(start, trims(a + b), trims(c), 0);
            lemma_trims_concat(a + b, c);
        }
    }
}

/// No line holds a line feed.
pub open spec fn plain(lines: Seq<Seq<char>>) -> bool {
    forall|k: int| 0 <= k < lines.len() ==> text_laws::lacks(#[trigger] lines[k], '\n')
}

proof fn lemma_plain_concat(a: Seq<Seq<char>>, b: Seq<Seq<char>>)
    requires
        plain(a),
        plain(b),
    ensures
        plain(a + b),
{
    let c = a + b;
    assert forall|k: int| 0 <= k < c.len() implies text_laws::lacks(#[trigger] c[k], '\n') by {
        if k < a.len() {
            assert(text_laws::lacks(a[k], '\n'));
        } else {
            assert(text_laws::lacks(b[k - a.len()], '\n'));
        }
    }
}

proof fn lemma_lacks_concat(a: Seq<char>, b: Seq<char>, c: char)
    requires
        text_laws::lacks(a, c),
        text_laws::lacks(b, c),
    ensures
        text_laws::lacks(a + b, c),
{
    let s = a + b;
    assert forall|k: int| 0 <= k < s.len() implies #[trigger] s[k] != c by {
        if k < a.len() {
            assert(s[k] == a[k]);
        } else {
            assert(s[k] == b[k - a.len()]);
        }
    }
}

proof fn lemma_plain_list(word: Seq<char>, items: Seq<Seq<char>>)
    requires
        text_laws::lacks(word, '\n'),
        text_laws::are_items(items),
    ensures
        plain(printer::list_line(word, items)),
{
    if items.len() > 0 {
        text_laws::law_join(items);
        lemma_lacks_concat(word, text::join(items, ", "@), '\n');
    }
}

proof fn lemma_plain_cache(cache: Option<CacheView>)
    requires
        cache matches Some(c) ==> is_cache(c),
    ensures
        plain(printer::cache_lines(cache)),
{
    if let Some(c) = cache {
        reveal_strlit("  cache {");
        reveal_strlit("    key ");
        reveal_strlit("    paths ");
        reveal_strlit("  }");
        let a = seq!["  cache {"@];
        let b = printer::key_lines(c.key);
        let d = printer::list_line("    paths "@, c.paths);
        let e = seq!["  }"@];
        if let Some(k) = c.key {
            lemma_lacks_concat("    key "@, k, '\n');
        }
        lemma_plain_list("    paths "@, c.paths);
        lemma_plain_concat(a, b);
        lemma_plain_concat(a + b, d);
        lemma_plain_concat(a + b + d, e);
    }
}

proof fn lemma_plain_env(env: Seq<(Seq<char>, Seq<char>)>)
    requires
        forall|k: int| 0 <= k < env.len() ==> is_pair(#[trigger] env[k]),
    ensures
        plain(env.map_values(|p: (Seq<char>, Seq<char>)| printer::env_line(p))),
{
    reveal_strlit("  env ");
    reveal_strlit(" = ");
    let lines = env.map_values(|p: (Seq<char>, Seq<char>)| printer::env_line(p));
    assert forall|k: int| 0 <= k < lines.len() implies text_laws::lacks(
        #[trigger] lines[k],
        '\n',
    ) by {
        assert(is_pair(env[k]));
        lemma_lacks_concat("  env "@, env[k].0, '\n');
        lemma_lacks_concat("  env "@ + env[k].0, " = "@, '\n');
        lemma_lacks_concat("  env "@ + env[k].0 + " = "@, env[k].1, '\n');
    }
}

proof fn lemma_plain_steps(steps: Seq<Seq<char>>)
    requires
        forall|k: int| 0 <= k < steps.len() ==> is_word(#[trigger] steps[k]),
    ensures
        plain(steps.map_values(|s: Seq<char>| printer::step_line(s))),
{
    reveal_strlit("  step ");
    let lines = steps.map_values(|s: Seq<char>| printer::step_line(s));
    assert forall|k: int| 0 <= k < lines.len() implies text_laws::lacks(
        #[trigger] lines[k],
        '\n',
    ) by {
        assert(is_word(steps[k]));
        lemma_lacks_concat("  step "@, steps[k], '\n');
    }
}

proof fn lemma_plain_body(job: JobView)
    requires
        is_job(job),
    ensures
        plain(printer::body_lines(job)),
{
    reveal_strlit("  needs ");
    reveal_strlit("  produces ");
    reveal_strlit("  timeout ");
    reveal_strlit("  continue-on-error");
    let a = printer::list_line("  needs "@, job.needs);
    let b = job.env.map_values(|p: (Seq<char>, Seq<char>)| printer::env_line(p));
    let c = job.steps.map_values(|s: Seq<char>| printer::step_line(s));
    let d = printer::list_line("  produces "@, job.produces);
    let e = printer::timeout_lines(job.timeout);
    let f = printer::cache_lines(job.cache);
    let g = printer::flag_lines(job.continue_on_error);
    lemma_plain_list("  needs "@, job.needs);
    lemma_plain_env(job.env);
    lemma_plain_steps(job.steps);
    lemma_plain_list("  produces "@, job.produces);
    if let Some(t) = job.timeout {
        text_laws::law_number_round_trip(t.secs as nat, t.secs as nat);
        lemma_lacks_concat("  timeout "@, text::decimal(t.secs as nat), '\n');
    }
    lemma_plain_cache(job.cache);
    lemma_plain_concat(a, b);
    lemma_plain_concat(a + b, c);
    lemma_plain_concat(a + b + c, d);
    lemma_plain_concat(a + b + c + d, e);
    lemma_plain_concat(a + b + c + d + e, f);
    lemma_plain_concat(a + b + c + d + e + f, g);
}

proof fn lemma_plain_job(job: JobView)
    requires
        is_job(job),
    ensures
        plain(printer::job_lines(job)),
{
    reveal_strlit("job ");
    reveal_strlit(" {");
    reveal_strlit("}");
    lemma_name(job.name);
    let head = "job "@ + job.name + " {"@;
    lemma_lacks_concat("job "@, job.name, '\n');
    lemma_lacks_concat("job "@ + job.name, " {"@, '\n');
    lemma_plain_body(job);
    lemma_plain_concat(seq![head], printer::body_lines(job));
    lemma_plain_concat(seq![head] + printer::body_lines(job), seq!["}"@]);
}

proof fn lemma_plain_all(jobs: Seq<JobView>)
    requires
        forall|k: int| 0 <= k < jobs.len() ==> is_job(#[trigger] jobs[k]),
    ensures
        plain(printer::all_lines(jobs)),
    decreases jobs.len(),
{
    if jobs.len() > 0 {
        assert(is_job(jobs[jobs.len() - 1]));
        lemma_plain_job(jobs.last());
        if jobs.len() > 1 {
            let rest = jobs.drop_last();
            assert forall|k: int| 0 <= k < rest.len() implies is_job(#[trigger] rest[k]) by {
                assert(is_job(jobs[k]));
            }
            lemma_plain_all(rest);
            let a = printer::all_lines(rest);
            lemma_plain_concat(a, seq![Seq::<char>::empty()]);
            assert(a.push(Seq::empty()) =~= a + seq![Seq::<char>::empty()]);
            lemma_plain_concat(a.push(Seq::empty()), printer::job_lines(jobs.last()));
        }
    }
}

/// What is printed is read back: jobs that a config can hold come back from their
/// text as they were.
pub proof fn law_printed_is_read_back(jobs: Seq<JobView>)
    requires
        printable(jobs),
    ensures
        parser::parsed(printer::printed(jobs)) == Ok::<Seq<JobView>, ErrorView>(jobs),
{
    let lines = printer::all_lines(jobs);
    lemma_plain_all(jobs);
    text_laws::law_lines(lines);
    lemma_reads_all(jobs);
    let read = text::lines(printer::printed(jobs));
    assert(read == trims(lines));
    lemma_state_is_feed(read, read.len() as int);
    assert(read.take(read.len() as int) =~= read);
}

/// Parsing, then printing, then parsing yields an identical pipeline.
pub proof fn law_round_trip(input: Seq<char>, jobs: Seq<JobView>)
    requires
        parser::parsed(input) == Ok::<Seq<JobView>, ErrorView>(jobs),
    ensures
        parser::parsed(printer::printed(jobs)) == Ok::<Seq<JobView>, ErrorView>(jobs),
{
    law_parsed_is_printable(input);
    law_printed_is_read_back(jobs);
}

} // verus!
