//! The heart: a pure, deterministic DAG scheduler.
//!
//! It owns no processes and no threads. It drives an `Executor` in virtual time:
//! `run` is called when a job starts (returning a duration), and the job retires
//! at start + duration on a virtual clock. Up to `jobs` run concurrently; ties
//! break by config order. Failure marks transitive dependents SKIPPED unless the
//! failing job is `continue-on-error`. Cache hits skip execution entirely.

use vstd::prelude::*;
use vstd::string::*;

use crate::cache;
use crate::cache::{CacheStore, EntryView};
use crate::content::PathContent;
use crate::dag;
use crate::error::Error;
use crate::executor;
use crate::executor::{Call, Executor};
use crate::machine;
use crate::machine::{Action, ActionView, Mode, Plan, Reply, RunView, Scheduler};
use crate::pipeline::Pipeline;
use crate::progress;
use crate::report::{RecordView, Report};
use crate::safepath;
use crate::soundness;
use crate::text;

verus! {

#[derive(Debug, Clone)]
pub struct Limits {
    pub jobs: usize,
    pub fail_fast: bool,
    /// Directory that a job's `cache.paths` and shell `produces` resolve against.
    pub base_dir: String,
}

impl Limits {
    /// At most `jobs` jobs at once, but one at least.
    pub fn new(jobs: usize) -> (r: Self)
        ensures
            r.jobs == machine::room(jobs),
            !r.fail_fast,
            r.base_dir@ == "."@,
    {
        let jobs = if jobs < 1 {
            1
        } else {
            jobs
        };
        Limits { jobs, fail_fast: false, base_dir: ".".to_owned() }
    }

    /// The same with another directory.
    pub fn base_dir(self, dir: &str) -> (r: Self)
        ensures
            r.jobs == self.jobs,
            r.fail_fast == self.fail_fast,
            r.base_dir@ == dir@,
    {
        Limits { jobs: self.jobs, fail_fast: self.fail_fast, base_dir: dir.to_owned() }
    }

    /// The same, stopping at the first failure or not.
    pub fn fail_fast(self, on: bool) -> (r: Self)
        ensures
            r.jobs == self.jobs,
            r.fail_fast == on,
            r.base_dir@ == self.base_dir@,
    {
        Limits { jobs: self.jobs, fail_fast: on, base_dir: self.base_dir }
    }
}

/// What is read where: nothing stands at a path that is not confined.
pub open spec fn contents_fit(paths: Seq<Seq<char>>, contents: Seq<PathContent>) -> bool {
    &&& contents.len() == paths.len()
    &&& forall|k: int|
        0 <= k < paths.len() && !safepath::confined(#[trigger] paths[k]) ==> contents[k]
            == PathContent::Missing
}

/// The answer is one to what is to be done, given what the cache holds.
pub open spec fn fits(plan: Plan, run: RunView, stored: Map<u64, EntryView>, reply: Reply) -> bool {
    match (run.mode, reply) {
        (Mode::Probe(i), Reply::Contents(c)) => contents_fit(
            cache::declared(plan.jobs[i as int]),
            c@,
        ),
        (Mode::Lookup(i), Reply::Entry(found)) => {
            let key = run.slots[i as int].key;
            match found {
                Some(e) => stored.contains_key(key) && e@ == stored[key],
                None => !stored.contains_key(key),
            }
        },
        (Mode::Start(_), Reply::Outcome(o)) => executor::ascending(o.artifacts@),
        (Mode::Finish(_), Reply::Finished) => true,
        _ => false,
    }
}

/// The calls that read the first `n` paths: one for each that is confined.
pub open spec fn reads(
    base_dir: Seq<char>,
    paths: Seq<Seq<char>>,
    contents: Seq<PathContent>,
    n: int,
) -> Seq<Call>
    decreases n,
{
    if n <= 0 {
        Seq::empty()
    } else if safepath::confined(paths[n - 1]) {
        reads(base_dir, paths, contents, n - 1).push(
            Call::Read { base_dir, path: paths[n - 1], content: contents[n - 1] },
        )
    } else {
        reads(base_dir, paths, contents, n - 1)
    }
}

/// The calls on the executor that bring an answer.
pub open spec fn calls_for(plan: Plan, base_dir: Seq<char>, run: RunView, reply: Reply) -> Seq<
    Call,
> {
    match (run.mode, reply) {
        (Mode::Probe(i), Reply::Contents(c)) => {
            let paths = cache::declared(plan.jobs[i as int]);
            reads(base_dir, paths, c@, paths.len() as int)
        },
        (Mode::Start(i), Reply::Outcome(o)) => seq![
            Call::Run {
                job: plan.jobs[i as int],
                inputs: machine::inputs_of(plan, run.slots, i as int),
                outcome: o@,
            },
        ],
        (Mode::Finish(i), Reply::Finished) => seq![Call::Finish { name: plan.jobs[i as int].name }],
        _ => Seq::empty(),
    }
}

/// What the cache holds once what is to be done was done.
pub open spec fn stored_after(plan: Plan, run: RunView, stored: Map<u64, EntryView>) -> Map<
    u64,
    EntryView,
> {
    match machine::action_of(plan, run) {
        ActionView::Finish { store: Some((key, entry)), .. } => stored.insert(key, entry),
        _ => stored,
    }
}

/// How far a run has come: the state, what the cache holds, and the calls that
/// were made.
pub struct Progress {
    pub run: RunView,
    pub stored: Map<u64, EntryView>,
    pub calls: Seq<Call>,
}

/// What a run is made of.
pub struct Setting {
    pub plan: Plan,
    pub base_dir: Seq<char>,
    /// What the cache holds when the run begins.
    pub stored: Map<u64, EntryView>,
}

/// How far a run has come with the given answers.
pub open spec fn progress_after(setting: Setting, replies: Seq<Reply>) -> Progress
    decreases replies.len(),
{
    if replies.len() == 0 {
        Progress {
            run: machine::initial(setting.plan),
            stored: setting.stored,
            calls: Seq::empty(),
        }
    } else {
        advance(setting, progress_after(setting, replies.drop_last()), replies.last())
    }
}

/// One answer more.
pub open spec fn advance(setting: Setting, p: Progress, reply: Reply) -> Progress {
    Progress {
        run: machine::after_reply(setting.plan, p.run, reply),
        stored: stored_after(setting.plan, p.run, p.stored),
        calls: p.calls + calls_for(setting.plan, setting.base_dir, p.run, reply),
    }
}

/// Every answer fits.
pub open spec fn all_fit(setting: Setting, replies: Seq<Reply>) -> bool
    decreases replies.len(),
{
    replies.len() > 0 ==> {
        let p = progress_after(setting, replies.drop_last());
        all_fit(setting, replies.drop_last()) && fits(
            setting.plan,
            p.run,
            p.stored,
            replies.last(),
        )
    }
}

/// The answers make up a run from its beginning to its end.
pub open spec fn complete(setting: Setting, replies: Seq<Reply>) -> bool {
    &&& soundness::valid_plan(setting.plan)
    &&& all_fit(setting, replies)
    &&& progress_after(setting, replies).run.mode == Mode::Halt
}

/// What a run over the pipeline is made of.
pub open spec fn setting_of(pipeline: &Pipeline, stored: Map<u64, EntryView>, limits: Limits) -> Setting {
    Setting {
        plan: machine::plan_of(pipeline@, machine::room(limits.jobs), limits.fail_fast),
        base_dir: limits.base_dir@,
        stored,
    }
}

/// A run ended like this: with this report, with this in the cache, and with the
/// calls on the executor gone on from `before` to `after`.
pub open spec fn ended(
    setting: Setting,
    replies: Seq<Reply>,
    report: Seq<RecordView>,
    stored: Map<u64, EntryView>,
    before: Seq<Call>,
    after: Seq<Call>,
) -> bool {
    let p = progress_after(setting, replies);
    &&& complete(setting, replies)
    &&& report == machine::report_of(setting.plan, p.run)
    &&& stored == p.stored
    &&& after == before + p.calls
}

/// Reads what stands at the paths. A path that is not confined is left alone.
fn read_inputs<E: Executor>(exec: &mut E, base_dir: &str, paths: &Vec<String>) -> (r: Vec<
    PathContent,
>)
    ensures
        executor::went_on(*old(exec), *final(exec)),
        contents_fit(text::views(paths@), r@),
        final(exec).history() == old(exec).history() + reads(
            base_dir@,
            text::views(paths@),
            r@,
            paths@.len() as int,
        ),
{
    let ghost h0 = exec.history();
    let ghost all = text::views(paths@);
    let mut r: Vec<PathContent> = Vec::new();
    let mut i: usize = 0;
    proof {
        assert(h0 + reads(base_dir@, all, r@, 0) =~= h0);
        executor::lemma_went_on_self(*exec);
    }
    while i < paths.len()
        invariant
            i <= paths.len(),
            all == text::views(paths@),
            r.len() == i,
            executor::went_on(*old(exec), *exec),
            forall|k: int|
                0 <= k < i && !safepath::confined(#[trigger] all[k]) ==> r@[k]
                    == PathContent::Missing,
            exec.history() == h0 + reads(base_dir@, all, r@, i as int),
        decreases paths.len() - i,
    {
        let path = paths[i].as_str();
        assert(all[i as int] == path@);
        let ghost before = r@;
        let ghost e0 = *exec;
        let content = if safepath::is_confined(path) {
            exec.read_input(base_dir, path)
        } else {
            PathContent::Missing
        };
        r.push(content);
        proof {
            if safepath::confined(path@) {
                executor::lemma_went_on_push(*old(exec), e0, *exec);
            }
            lemma_reads_prefix(base_dir@, all, before, r@, i as int);
            assert(exec.history() =~= h0 + reads(base_dir@, all, r@, i + 1));
        }
        i += 1;
    }
    r
}

proof fn lemma_reads_prefix(
    base_dir: Seq<char>,
    paths: Seq<Seq<char>>,
    a: Seq<PathContent>,
    b: Seq<PathContent>,
    n: int,
)
    requires
        forall|k: int| 0 <= k < n ==> a[k] == #[trigger] b[k],
    ensures
        reads(base_dir, paths, a, n) == reads(base_dir, paths, b, n),
    decreases n,
{
    if n > 0 {
        lemma_reads_prefix(base_dir, paths, a, b, n - 1);
    }
}

/// Every state of a run is sound.
pub proof fn lemma_sound(setting: Setting, replies: Seq<Reply>)
    requires
        soundness::valid_plan(setting.plan),
    ensures
        soundness::sound(setting.plan, progress_after(setting, replies).run),
    decreases replies.len(),
{
    if replies.len() == 0 {
        soundness::lemma_initial(setting.plan);
    } else {
        lemma_sound(setting, replies.drop_last());
        soundness::lemma_step(
            setting.plan,
            progress_after(setting, replies.drop_last()).run,
            replies.last(),
        );
    }
}

/// The run has come this far with these answers.
#[verifier::opaque]
spec fn reached(
    setting: Setting,
    replies: Seq<Reply>,
    run: RunView,
    stored: Map<u64, EntryView>,
    calls: Seq<Call>,
) -> bool {
    &&& soundness::valid_plan(setting.plan)
    &&& all_fit(setting, replies)
    &&& progress_after(setting, replies) == (Progress { run, stored, calls })
}

proof fn lemma_reached_first(setting: Setting)
    requires
        soundness::valid_plan(setting.plan),
    ensures
        reached(
            setting,
            Seq::empty(),
            machine::initial(setting.plan),
            setting.stored,
            Seq::empty(),
        ),
{
    reveal(reached);
}

/// One answer more keeps the run going, and brings it nearer to its end.
proof fn lemma_reached_next(
    setting: Setting,
    replies: Seq<Reply>,
    p: Progress,
    reply: Reply,
    q: Progress,
)
    requires
        reached(setting, replies, p.run, p.stored, p.calls),
        fits(setting.plan, p.run, p.stored, reply),
        q == advance(setting, p, reply),
    ensures
        reached(setting, replies.push(reply), q.run, q.stored, q.calls),
        0 <= progress::fuel(q.run) < progress::fuel(p.run),
{
    reveal(reached);
    lemma_sound(setting, replies);
    assert(replies.push(reply).drop_last() =~= replies);
    progress::lemma_progress(setting.plan, p.run, reply);
}

proof fn lemma_reached_last(
    setting: Setting,
    replies: Seq<Reply>,
    run: RunView,
    report: Seq<RecordView>,
    stored: Map<u64, EntryView>,
    before: Seq<Call>,
    after: Seq<Call>,
    calls: Seq<Call>,
)
    requires
        reached(setting, replies, run, stored, calls),
        run.mode == Mode::Halt,
        report == machine::report_of(setting.plan, run),
        after == before + calls,
    ensures
        ended(setting, replies, report, stored, before, after),
{
    reveal(reached);
}

/// Does what is to be done next, and gives the answer. There is none when the run
/// is over.
fn perform<E: Executor>(
    pipeline: &Pipeline,
    exec: &mut E,
    cache: &mut CacheStore,
    base_dir: &str,
    s: &Scheduler,
) -> (r: Option<Reply>)
    requires
        s.wf(),
        s.plan().jobs == pipeline@,
    ensures
        executor::went_on(*old(exec), *final(exec)),
        match r {
            Some(reply) => {
                &&& fits(s.plan(), s@, old(cache)@, reply)
                &&& final(exec).history() == old(exec).history() + calls_for(
                    s.plan(),
                    base_dir@,
                    s@,
                    reply,
                )
                &&& final(cache)@ == stored_after(s.plan(), s@, old(cache)@)
            },
            None => {
                &&& s@.mode == Mode::Halt
                &&& *final(exec) == *old(exec)
                &&& *final(cache) == *old(cache)
            },
        },
{
    let ghost e0 = *exec;
    proof {
        s.lemma_wf();
        executor::lemma_went_on_self(e0);
    }
    match s.action() {
        Action::Probe { job: _, paths } => {
            assert(text::views(paths@).len() == paths@.len());
            Some(Reply::Contents(read_inputs(exec, base_dir, &paths)))
        },
        Action::Lookup { key } => {
            assert(exec.history() =~= exec.history() + Seq::empty());
            Some(Reply::Entry(cache.get(key)))
        },
        Action::Run { job, inputs } => {
            let outcome = exec.run(&pipeline.jobs[job], &inputs);
            outcome.artifacts.know_order();
            proof {
                executor::lemma_went_on_push(e0, e0, *exec);
            }
            Some(Reply::Outcome(outcome))
        },
        Action::Finish { job, store } => {
            exec.on_finish(pipeline.jobs[job].name.as_str());
            proof {
                executor::lemma_went_on_push(e0, e0, *exec);
            }
            if let Some((key, entry)) = store {
                cache.put(key, entry);
            }
            Some(Reply::Finished)
        },
        Action::Done => None,
    }
}

/// Takes the run one answer further, and gives the answers and calls so far; or
/// nothing, when the run is over.
fn step<E: Executor>(
    pipeline: &Pipeline,
    exec: &mut E,
    cache: &mut CacheStore,
    base_dir: &str,
    s: &mut Scheduler,
    Ghost(setting): Ghost<Setting>,
    Ghost(replies): Ghost<Seq<Reply>>,
    Ghost(calls): Ghost<Seq<Call>>,
) -> (r: Option<Ghost<(Seq<Reply>, Seq<Call>)>>)
    requires
        old(s).wf(),
        old(s).plan() == setting.plan,
        old(s).plan().jobs == pipeline@,
        setting.base_dir == base_dir@,
        reached(setting, replies, old(s)@, old(cache)@, calls),
    ensures
        executor::went_on(*old(exec), *final(exec)),
        final(s).wf(),
        final(s).plan() == old(s).plan(),
        match r {
            Some(trace) => {
                &&& reached(setting, trace@.0, final(s)@, final(cache)@, trace@.1)
                &&& forall|h: Seq<Call>|
                    old(exec).history() == #[trigger] (h + calls) ==> final(exec).history() == h
                        + trace@.1
                &&& 0 <= progress::fuel(final(s)@) < progress::fuel(old(s)@)
            },
            None => {
                &&& old(s)@.mode == Mode::Halt
                &&& *final(s) == *old(s)
                &&& *final(exec) == *old(exec)
                &&& *final(cache) == *old(cache)
            },
        },
{
    let ghost p = Progress { run: s@, stored: cache@, calls };
    let ghost before = exec.history();
    match perform(pipeline, exec, cache, base_dir, s) {
        Some(reply) => {
            let ghost q = advance(setting, p, reply);
            proof {
                lemma_reached_next(setting, replies, p, reply, q);
                assert forall|h: Seq<Call>| before == #[trigger] (h + calls) implies exec.history()
                    == h + q.calls by {
                    assert(exec.history() =~= h + q.calls);
                }
            }
            let ghost replies = replies.push(reply);
            s.reply(reply);
            Some(Ghost((replies, q.calls)))
        },
        None => None,
    }
}

/// Convenience entry point matching the documented signature; uses a throwaway
/// in-memory cache.
pub fn run<E: Executor>(pipeline: &Pipeline, exec: &mut E, limits: Limits) -> (r: Result<
    Report,
    Error,
>)
    ensures
        executor::went_on(*old(exec), *final(exec)),
        match r {
            Ok(report) => {
                &&& dag::defect(pipeline@) is None
                &&& exists|replies: Seq<Reply>, stored: Map<u64, EntryView>| #[trigger]
                    ended(
                        setting_of(pipeline, Map::empty(), limits),
                        replies,
                        report@,
                        stored,
                        old(exec).history(),
                        final(exec).history(),
                    )
            },
            Err(e) => dag::defect(pipeline@) == Some(e@) && *final(exec) == *old(exec),
        },
{
    let mut cache = CacheStore::in_memory();
    run_with_cache(pipeline, exec, &mut cache, limits)
}

/// Runs the pipeline: drives the executor until every job is done, takes what the
/// cache holds, and stores in it what is to be kept.
pub fn run_with_cache<E: Executor>(
    pipeline: &Pipeline,
    exec: &mut E,
    cache: &mut CacheStore,
    limits: Limits,
) -> (r: Result<Report, Error>)
    ensures
        executor::went_on(*old(exec), *final(exec)),
        match r {
            Ok(report) => {
                &&& dag::defect(pipeline@) is None
                &&& exists|replies: Seq<Reply>| #[trigger]
                    ended(
                        setting_of(pipeline, old(cache)@, limits),
                        replies,
                        report@,
                        final(cache)@,
                        old(exec).history(),
                        final(exec).history(),
                    )
            },
            Err(e) => {
                &&& dag::defect(pipeline@) == Some(e@)
                &&& *final(exec) == *old(exec)
                &&& *final(cache) == *old(cache)
            },
        },
{
    proof {
        executor::lemma_went_on_self(*exec);
    }
    let mut s = match Scheduler::new(pipeline, limits.jobs, limits.fail_fast) {
        Ok(s) => s,
        Err(e) => {
            return Err(e);
        },
    };
    let ghost setting = setting_of(pipeline, cache@, limits);
    let ghost mut replies: Seq<Reply> = Seq::empty();
    let ghost mut calls: Seq<Call> = Seq::empty();
    proof {
        s.lemma_wf();
        lemma_reached_first(setting);
        assert(exec.history() =~= exec.history() + calls);
    }
    loop
        invariant
            executor::went_on(*old(exec), *exec),
            dag::defect(pipeline@) is None,
            s.wf(),
            s.plan() == setting.plan,
            s.plan().jobs == pipeline@,
            setting == setting_of(pipeline, old(cache)@, limits),
            setting.base_dir == limits.base_dir@,
            reached(setting, replies, s@, cache@, calls),
            exec.history() == old(exec).history() + calls,
        ensures
            s@.mode == Mode::Halt,
        decreases progress::fuel(s@),
    {
        let ghost e0 = *exec;
        let next = step(
            pipeline,
            exec,
            cache,
            limits.base_dir.as_str(),
            &mut s,
            Ghost(setting),
            Ghost(replies),
            Ghost(calls),
        );
        proof {
            executor::lemma_went_on(*old(exec), e0, *exec);
        }
        match next {
            Some(trace) => {
                proof {
                    replies = trace@.0;
                    calls = trace@.1;
                }
            },
            None => {
                break;
            },
        }
    }
    let report = s.report();
    proof {
        lemma_reached_last(
            setting,
            replies,
            s@,
            report@,
            cache@,
            old(exec).history(),
            exec.history(),
            calls,
        );
    }
    let r: Result<Report, Error> = Ok(report);
    assert(ended(
        setting,
        replies,
        r->Ok_0@,
        final(cache)@,
        old(exec).history(),
        final(exec).history(),
    ));
    r
}

} // verus!
