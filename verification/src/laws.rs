//! What holds of every run of the scheduler.

use vstd::prelude::*;

use crate::cache;
use crate::cache::EntryView;
use crate::content;
use crate::content::PathContent;
use crate::executor;
use crate::executor::{Call, Executor};
use crate::machine;
use crate::machine::{Mode, Phase, Plan, Reply, RunView, SlotView};
use crate::mock::{MockExecutor, Stats};
use crate::pipeline::JobView;
use crate::progress;
use crate::report::{RecordView, Status};
use crate::safepath;
use crate::schedule;
use crate::schedule::{Progress, Setting};
use crate::soundness;

verus! {

/// When nothing is ready and nothing runs, nothing is pending either.
proof fn lemma_none_pending(plan: Plan, run: RunView, i: int)
    requires
        soundness::sound(plan, run),
        run.mode == Mode::Halt,
        0 <= i < run.slots.len(),
    ensures
        machine::done(run.slots, i),
    decreases plan.levels[i],
{
    assert(!machine::running(run.slots, i));
    assert forall|d: usize| #[trigger] plan.deps[i].contains(d) implies machine::done(
        run.slots,
        d as int,
    ) by {
        lemma_none_pending(plan, run, d as int);
    }
    assert(!machine::ready(plan, run.slots, i));
}

/// A run ends only when every job has ended: each succeeded, failed, was resolved
/// from the cache, or was skipped.
pub proof fn law_every_job_ends(setting: Setting, replies: Seq<Reply>, i: int)
    requires
        schedule::complete(setting, replies),
        0 <= i < setting.plan.jobs.len(),
    ensures
        machine::done(schedule::progress_after(setting, replies).run.slots, i),
{
    schedule::lemma_sound(setting, replies);
    lemma_none_pending(setting.plan, schedule::progress_after(setting, replies).run, i);
}

/// A run comes to an end: it takes no more answers than it had fuel when it began.
pub proof fn law_runs_end(setting: Setting, replies: Seq<Reply>)
    requires
        soundness::valid_plan(setting.plan),
        schedule::all_fit(setting, replies),
    ensures
        replies.len() + progress::fuel(schedule::progress_after(setting, replies).run)
            <= progress::fuel(machine::initial(setting.plan)),
        progress::fuel(schedule::progress_after(setting, replies).run) >= 0,
    decreases replies.len(),
{
    let run = schedule::progress_after(setting, replies).run;
    schedule::lemma_sound(setting, replies);
    if replies.len() > 0 {
        let before = replies.drop_last();
        law_runs_end(setting, before);
        schedule::lemma_sound(setting, before);
        progress::lemma_progress(
            setting.plan,
            schedule::progress_after(setting, before).run,
            replies.last(),
        );
    } else {
        progress::lemma_fuel(setting.plan, run);
    }
}

/// A job starts only after every job it needs has ended in a way that lets it
/// pass: with success, from the cache, or with a failure that is passed over. On
/// the clock it starts no earlier than they end.
pub proof fn law_dependency_order(setting: Setting, replies: Seq<Reply>, i: int, d: usize)
    requires
        soundness::valid_plan(setting.plan),
        0 <= i < setting.plan.jobs.len(),
        setting.plan.deps[i].contains(d),
        soundness::started(schedule::progress_after(setting, replies).run.slots[i]),
    ensures
        ({
            let slots = schedule::progress_after(setting, replies).run.slots;
            &&& machine::done(slots, d as int)
            &&& !machine::blocking(setting.plan, slots, d as int)
            &&& slots[d as int].start_order < slots[i].start_order
            &&& soundness::finish_time(slots[d as int]) <= slots[i].start_nanos
        }),
{
    schedule::lemma_sound(setting, replies);
    let run = schedule::progress_after(setting, replies).run;
    assert(soundness::slot_sound(setting.plan, run, i));
}

/// The same of a report: a job that was not skipped began after every job it needs
/// had ended, and none of those was skipped or failed without `continue-on-error`.
pub proof fn law_reported_order(
    setting: Setting,
    replies: Seq<Reply>,
    report: Seq<RecordView>,
    i: int,
    d: usize,
)
    requires
        schedule::complete(setting, replies),
        report == machine::report_of(
            setting.plan,
            schedule::progress_after(setting, replies).run,
        ),
        0 <= i < setting.plan.jobs.len(),
        setting.plan.deps[i].contains(d),
        report[i].status != Status::Skipped,
    ensures
        report[d as int].status == Status::Success || report[d as int].status == Status::Cached || (
        report[d as int].status == Status::Failed
            && setting.plan.jobs[d as int].continue_on_error),
        report[d as int].start_order < report[i].start_order,
        machine::later(report[d as int].start_nanos, report[d as int].duration.ticks())
            <= report[i].start_nanos,
{
    let run = schedule::progress_after(setting, replies).run;
    schedule::lemma_sound(setting, replies);
    law_every_job_ends(setting, replies, i);
    law_every_job_ends(setting, replies, d as int);
    law_dependency_order(setting, replies, i, d);
}

/// Ties break by config order: a job is started only when no ready job stands
/// before it, and is retired only when none that retires at the same instant does.
pub proof fn law_config_order(setting: Setting, replies: Seq<Reply>)
    requires
        soundness::valid_plan(setting.plan),
    ensures
        ({
            let run = schedule::progress_after(setting, replies).run;
            &&& run.mode matches Mode::Start(i) ==> forall|j: int|
                0 <= j < i ==> !#[trigger] machine::ready(setting.plan, run.slots, j)
            &&& run.mode matches Mode::Finish(i) ==> forall|j: int|
                0 <= j < i ==> !#[trigger] machine::due(run.slots, run.clock, j)
        }),
{
    schedule::lemma_sound(setting, replies);
}

/// No slot stays free for nothing: the clock moves on only when every slot is
/// taken or no job is ready.
pub proof fn law_no_idle_slot(setting: Setting, replies: Seq<Reply>, reply: Reply)
    requires
        soundness::valid_plan(setting.plan),
    ensures
        ({
            let before = schedule::progress_after(setting, replies).run;
            let after = schedule::progress_after(setting, replies.push(reply)).run;
            after.clock != before.clock ==> {
                ||| machine::running_count(after.slots) >= setting.plan.slots
                ||| forall|j: int| !#[trigger] machine::ready(setting.plan, after.slots, j)
            }
        }),
{
    schedule::lemma_sound(setting, replies);
    assert(replies.push(reply).drop_last() =~= replies);
    soundness::lemma_step(
        setting.plan,
        schedule::progress_after(setting, replies).run,
        reply,
    );
}

proof fn lemma_reads_unrecorded(
    calls: Seq<Call>,
    base_dir: Seq<char>,
    paths: Seq<Seq<char>>,
    contents: Seq<PathContent>,
    n: int,
)
    ensures
        Stats::of(calls + schedule::reads(base_dir, paths, contents, n)) == Stats::of(calls),
    decreases n,
{
    let r = schedule::reads(base_dir, paths, contents, n);
    if n <= 0 {
        assert(calls + r =~= calls);
    } else {
        lemma_reads_unrecorded(calls, base_dir, paths, contents, n - 1);
        if safepath::confined(paths[n - 1]) {
            assert((calls + r).drop_last() =~= calls + schedule::reads(
                base_dir,
                paths,
                contents,
                n - 1,
            ));
        }
    }
}

/// What is recorded once one answer more was got.
proof fn lemma_recorded(setting: Setting, p: Progress, reply: Reply)
    ensures
        Stats::of(schedule::advance(setting, p, reply).calls) == (match (p.run.mode, reply) {
            (Mode::Start(i), Reply::Outcome(_)) => Stats::of(p.calls).with_start(
                setting.plan.jobs[i as int].name,
            ),
            (Mode::Finish(i), Reply::Finished) => Stats::of(p.calls).with_finish(
                setting.plan.jobs[i as int].name,
            ),
            _ => Stats::of(p.calls),
        }),
{
    let more = schedule::calls_for(setting.plan, setting.base_dir, p.run, reply);
    match (p.run.mode, reply) {
        (Mode::Probe(i), Reply::Contents(c)) => {
            let paths = cache::declared(setting.plan.jobs[i as int]);
            lemma_reads_unrecorded(p.calls, setting.base_dir, paths, c@, paths.len() as int);
        },
        (Mode::Start(_), Reply::Outcome(_)) => {
            assert((p.calls + more).drop_last() =~= p.calls);
        },
        (Mode::Finish(_), Reply::Finished) => {
            assert((p.calls + more).drop_last() =~= p.calls);
        },
        _ => {
            assert(p.calls + more =~= p.calls);
        },
    }
}

/// How one answer changes the number of running jobs.
proof fn lemma_running_step(plan: Plan, run: RunView, reply: Reply)
    requires
        soundness::sound(plan, run),
    ensures
        machine::running_count(machine::after_reply(plan, run, reply).slots)
            == machine::running_count(run.slots) + (match (run.mode, reply) {
            (Mode::Start(_), Reply::Outcome(_)) => 1int,
            (Mode::Finish(_), Reply::Finished) => -1int,
            _ => 0int,
        }),
{
    match (run.mode, reply) {
        (Mode::Probe(i), Reply::Contents(c)) => {
            let next = machine::after_reply(plan, run, reply);
            soundness::lemma_running_count_update(run.slots, i as int, next.slots[i as int]);
        },
        (Mode::Lookup(i), Reply::Entry(Some(e))) => {
            let mid = machine::hit(plan, run, i as int, e@);
            soundness::lemma_running_count_update(run.slots, i as int, mid.slots[i as int]);
        },
        (Mode::Start(i), Reply::Outcome(o)) => {
            let mid = machine::begun(plan, run, i as int, o);
            soundness::lemma_running_count_update(run.slots, i as int, mid.slots[i as int]);
        },
        (Mode::Finish(i), Reply::Finished) => {
            let mid = machine::retired(plan, run, i as int);
            soundness::lemma_running_count_update(run.slots, i as int, mid.slots[i as int]);
            let swept = machine::propagate(plan, mid.slots, mid.aborting);
            progress::lemma_same_running(mid.slots, swept);
        },
        _ => {},
    }
}

/// The number of jobs live at once never exceeds the limit: neither now nor at
/// the peak that was recorded. What counts as live is what the machine runs.
pub proof fn law_concurrency_limit(setting: Setting, replies: Seq<Reply>)
    requires
        soundness::valid_plan(setting.plan),
    ensures
        ({
            let p = schedule::progress_after(setting, replies);
            let stats = Stats::of(p.calls);
            &&& stats.live == machine::running_count(p.run.slots)
            &&& stats.live <= stats.max_concurrency <= setting.plan.slots
        }),
    decreases replies.len(),
{
    if replies.len() == 0 {
        lemma_running_initial(setting.plan);
    } else {
        let before = replies.drop_last();
        law_concurrency_limit(setting, before);
        schedule::lemma_sound(setting, before);
        let p = schedule::progress_after(setting, before);
        lemma_recorded(setting, p, replies.last());
        lemma_running_step(setting.plan, p.run, replies.last());
    }
}

proof fn lemma_running_initial(plan: Plan)
    requires
        soundness::valid_plan(plan),
    ensures
        machine::running_count(machine::initial(plan).slots) == 0,
{
    let slots = machine::initial(plan).slots;
    let fresh = Seq::new(plan.jobs.len(), |i: int| machine::fresh());
    soundness::lemma_no_running(fresh);
    assert(slots == fresh);
}

/// A job that had to wait for a slot shows that the limit was reached: when the
/// clock moves on while a job is ready, the peak is exactly the limit.
pub proof fn law_limit_is_reached(setting: Setting, replies: Seq<Reply>, reply: Reply, j: int)
    requires
        soundness::valid_plan(setting.plan),
        schedule::progress_after(setting, replies.push(reply)).run.clock
            != schedule::progress_after(setting, replies).run.clock,
        machine::ready(
            setting.plan,
            schedule::progress_after(setting, replies.push(reply)).run.slots,
            j,
        ),
    ensures
        Stats::of(schedule::progress_after(setting, replies.push(reply)).calls).max_concurrency
            == setting.plan.slots,
{
    law_no_idle_slot(setting, replies, reply);
    law_concurrency_limit(setting, replies.push(reply));
}

/// Distinct running jobs are counted each.
proof fn lemma_count_at_least(slots: Seq<SlotView>, ids: Seq<usize>)
    requires
        slots.len() <= usize::MAX,
        ids.no_duplicates(),
        forall|k: int|
            0 <= k < ids.len() ==> (#[trigger] ids[k]) < slots.len() && machine::running(
                slots,
                ids[k] as int,
            ),
    ensures
        ids.len() <= machine::running_count(slots),
    decreases slots.len(),
{
    if slots.len() == 0 {
        if ids.len() > 0 {
            assert(ids[0] < slots.len());
        }
    } else {
        let rest = slots.drop_last();
        let last = (slots.len() - 1) as usize;
        if ids.contains(last) {
            let at = ids.index_of(last);
            let fewer = ids.remove(at);
            assert forall|k: int| 0 <= k < fewer.len() implies (#[trigger] fewer[k]) < rest.len()
                && machine::running(rest, fewer[k] as int) by {
                let m = if k < at {
                    k
                } else {
                    k + 1
                };
                assert(fewer[k] == ids[m]);
                assert(ids[m] != ids[at]);
            }
            assert(fewer.no_duplicates()) by {
                assert forall|x: int, y: int|
                    0 <= x < fewer.len() && 0 <= y < fewer.len() && x != y implies fewer[x]
                    != fewer[y] by {
                    let m = if x < at {
                        x
                    } else {
                        x + 1
                    };
                    let n = if y < at {
                        y
                    } else {
                        y + 1
                    };
                    assert(ids[m] != ids[n]);
                }
            }
            lemma_count_at_least(rest, fewer);
            assert(machine::running(slots, last as int));
        } else {
            assert forall|k: int| 0 <= k < ids.len() implies (#[trigger] ids[k]) < rest.len()
                && machine::running(rest, ids[k] as int) by {
                assert(ids.contains(ids[k]));
                assert(machine::running(slots, ids[k] as int));
            }
            lemma_count_at_least(rest, ids);
        }
    }
}

/// No job has ended.
spec fn none_done(slots: Seq<SlotView>) -> bool {
    forall|i: int| 0 <= i < slots.len() ==> !#[trigger] machine::done(slots, i)
}

/// What is waited for after the first `k` answers.
spec fn mode_at(setting: Setting, replies: Seq<Reply>, k: int) -> Mode {
    schedule::progress_after(setting, replies.take(k)).run.mode
}

/// Until the first job is retired, none has ended when the cache is empty.
proof fn lemma_before_retirement(setting: Setting, replies: Seq<Reply>, k: int)
    requires
        soundness::valid_plan(setting.plan),
        schedule::all_fit(setting, replies),
        setting.stored == Map::<u64, EntryView>::empty(),
        0 <= k <= replies.len(),
        forall|j: int| 0 <= j < k ==> #[trigger] mode_at(setting, replies, j) !is Finish,
    ensures
        none_done(schedule::progress_after(setting, replies.take(k)).run.slots),
        schedule::progress_after(setting, replies.take(k)).stored == setting.stored,
    decreases k,
{
    if k == 0 {
        let fresh = Seq::new(setting.plan.jobs.len(), |i: int| machine::fresh());
        assert(schedule::progress_after(setting, replies.take(0)).run.slots == fresh);
        assert forall|i: int| 0 <= i < fresh.len() implies !#[trigger] machine::done(fresh, i) by {}
    } else {
        lemma_before_retirement(setting, replies, k - 1);
        lemma_fit_at(setting, replies, k - 1);
        schedule::lemma_sound(setting, replies.take(k - 1));
        let p = schedule::progress_after(setting, replies.take(k - 1));
        assert(mode_at(setting, replies, k - 1) !is Finish);
        lemma_none_done_step(setting, p, replies[k - 1]);
    }
}

proof fn lemma_none_done_step(setting: Setting, p: Progress, reply: Reply)
    requires
        soundness::sound(setting.plan, p.run),
        schedule::fits(setting.plan, p.run, p.stored, reply),
        p.stored == Map::<u64, EntryView>::empty(),
        p.run.mode !is Finish,
        none_done(p.run.slots),
    ensures
        none_done(schedule::advance(setting, p, reply).run.slots),
        schedule::advance(setting, p, reply).stored == p.stored,
{
    let next = schedule::advance(setting, p, reply).run.slots;
    assert forall|i: int| 0 <= i < next.len() implies !#[trigger] machine::done(next, i) by {
        assert(!machine::done(p.run.slots, i));
    }
}

/// The peak never goes down.
proof fn lemma_peak_stays(setting: Setting, replies: Seq<Reply>, k: int)
    requires
        0 <= k <= replies.len(),
    ensures
        Stats::of(schedule::progress_after(setting, replies.take(k)).calls).max_concurrency
            <= Stats::of(schedule::progress_after(setting, replies).calls).max_concurrency,
    decreases replies.len() - k,
{
    if k == replies.len() {
        assert(replies.take(k) =~= replies);
    } else {
        let before = replies.drop_last();
        assert(before.take(k) =~= replies.take(k));
        lemma_peak_stays(setting, before, k);
        lemma_recorded(setting, schedule::progress_after(setting, before), replies.last());
    }
}

/// The first point at which a job is retired, up to one at which one is.
proof fn lemma_first_retirement(setting: Setting, replies: Seq<Reply>, k: int) -> (m: int)
    requires
        0 <= k,
        mode_at(setting, replies, k) is Finish,
    ensures
        0 <= m <= k,
        mode_at(setting, replies, m) is Finish,
        forall|j: int| 0 <= j < m ==> #[trigger] mode_at(setting, replies, j) !is Finish,
    decreases k,
{
    if exists|j: int| 0 <= j < k && #[trigger] mode_at(setting, replies, j) is Finish {
        let j = choose|j: int| 0 <= j < k && #[trigger] mode_at(setting, replies, j) is Finish;
        lemma_first_retirement(setting, replies, j)
    } else {
        k
    }
}

/// When the first job is retired, as many jobs are live as the limit allows, if
/// there are that many that need nothing.
proof fn lemma_full_at_first(setting: Setting, replies: Seq<Reply>, m: int, roots: Seq<usize>)
    requires
        soundness::valid_plan(setting.plan),
        schedule::all_fit(setting, replies),
        setting.stored == Map::<u64, EntryView>::empty(),
        0 <= m <= replies.len(),
        mode_at(setting, replies, m) is Finish,
        forall|j: int| 0 <= j < m ==> #[trigger] mode_at(setting, replies, j) !is Finish,
        roots.no_duplicates(),
        forall|k: int|
            0 <= k < roots.len() ==> (#[trigger] roots[k]) < setting.plan.jobs.len()
                && setting.plan.deps[roots[k] as int].len() == 0,
        roots.len() >= setting.plan.slots,
    ensures
        machine::running_count(schedule::progress_after(setting, replies.take(m)).run.slots)
            >= setting.plan.slots,
{
    let run = schedule::progress_after(setting, replies.take(m)).run;
    schedule::lemma_sound(setting, replies.take(m));
    lemma_before_retirement(setting, replies, m);
    if m == 0 {
        let fresh = Seq::new(setting.plan.jobs.len(), |i: int| machine::fresh());
        assert(run.slots == fresh);
        assert(machine::due(run.slots, run.clock, run.mode->Finish_0 as int));
    } else {
        schedule::lemma_sound(setting, replies.take(m - 1));
        lemma_fit_at(setting, replies, m - 1);
        assert(mode_at(setting, replies, m - 1) !is Finish);
        soundness::lemma_step(
            setting.plan,
            schedule::progress_after(setting, replies.take(m - 1)).run,
            replies[m - 1],
        );
        if machine::running_count(run.slots) < setting.plan.slots {
            assert forall|k: int| 0 <= k < roots.len() implies (#[trigger] roots[k])
                < run.slots.len() && machine::running(run.slots, roots[k] as int) by {
                assert(!machine::done(run.slots, roots[k] as int));
                assert(!machine::ready(setting.plan, run.slots, roots[k] as int));
            }
            lemma_count_at_least(run.slots, roots);
        }
    }
}

/// A job that has ended was retired, when the cache was empty.
#[verifier::rlimit(30)]
proof fn lemma_retired_at(setting: Setting, replies: Seq<Reply>, i: int) -> (k: int)
    requires
        soundness::valid_plan(setting.plan),
        schedule::all_fit(setting, replies),
        setting.stored == Map::<u64, EntryView>::empty(),
        0 <= i < setting.plan.jobs.len(),
        machine::done(schedule::progress_after(setting, replies).run.slots, i),
    ensures
        0 <= k <= replies.len(),
        mode_at(setting, replies, k) is Finish,
{
    if forall|j: int| 0 <= j <= replies.len() ==> #[trigger] mode_at(setting, replies, j) !is Finish {
        lemma_before_retirement(setting, replies, replies.len() as int);
        schedule::lemma_sound(setting, replies);
        assert(replies.take(replies.len() as int) =~= replies);
        0
    } else {
        choose|j: int| 0 <= j <= replies.len() && #[trigger] mode_at(setting, replies, j) is Finish
    }
}

/// Full fan-out saturates the limit: when at least as many jobs need nothing as may
/// run at once, and the cache is empty, the peak is exactly the limit.
pub proof fn law_fan_out_saturates(setting: Setting, replies: Seq<Reply>, roots: Seq<usize>)
    requires
        schedule::complete(setting, replies),
        setting.stored == Map::<u64, EntryView>::empty(),
        roots.no_duplicates(),
        forall|k: int|
            0 <= k < roots.len() ==> (#[trigger] roots[k]) < setting.plan.jobs.len()
                && setting.plan.deps[roots[k] as int].len() == 0,
        roots.len() >= setting.plan.slots,
    ensures
        Stats::of(schedule::progress_after(setting, replies).calls).max_concurrency
            == setting.plan.slots,
{
    assert(roots[0] < setting.plan.jobs.len());
    law_every_job_ends(setting, replies, 0);
    let k = lemma_retired_at(setting, replies, 0);
    let m = lemma_first_retirement(setting, replies, k);
    lemma_full_at_first(setting, replies, m, roots);
    law_concurrency_limit(setting, replies.take(m));
    law_concurrency_limit(setting, replies);
    lemma_peak_stays(setting, replies, m);
}

/// A job is skipped exactly when a job it needs was skipped or failed without
/// `continue-on-error`, or when the run was cut short. It is cut short exactly when
/// there is such a failure and `fail-fast` is on. So without `fail-fast` jobs that
/// depend on no such job are run.
pub proof fn law_skipped(setting: Setting, replies: Seq<Reply>, i: int)
    requires
        schedule::complete(setting, replies),
        0 <= i < setting.plan.jobs.len(),
    ensures
        ({
            let run = schedule::progress_after(setting, replies).run;
            let skipped = run.slots[i].phase == Phase::Done(Status::Skipped);
            &&& soundness::held(setting.plan, run.slots, i) ==> skipped
            &&& skipped ==> soundness::held(setting.plan, run.slots, i) || run.aborting
            &&& run.aborting <==> setting.plan.fail_fast && exists|f: int| #[trigger]
                soundness::hard_failure(setting.plan, run.slots, f)
        }),
{
    schedule::lemma_sound(setting, replies);
    law_every_job_ends(setting, replies, i);
    let run = schedule::progress_after(setting, replies).run;
    assert(soundness::slot_sound(setting.plan, run, i));
    if soundness::held(setting.plan, run.slots, i) {
        let d = choose|d: usize| #[trigger]
            setting.plan.deps[i].contains(d) && machine::blocking(
                setting.plan,
                run.slots,
                d as int,
            );
        assert(machine::blocking(setting.plan, run.slots, d as int));
    }
}

/// Each job on the path needs the one before it.
pub open spec fn chain(plan: Plan, path: Seq<usize>) -> bool {
    &&& forall|k: int| 0 <= k < path.len() ==> (#[trigger] path[k]) < plan.jobs.len()
    &&& forall|k: int|
        0 < k < path.len() ==> #[trigger] plan.deps[path[k] as int].contains(path[k - 1])
}

/// A failed job without `continue-on-error` has all of its transitive dependents
/// skipped: every job on a path of dependents from it.
pub proof fn law_failure_propagates(setting: Setting, replies: Seq<Reply>, path: Seq<usize>, k: int)
    requires
        schedule::complete(setting, replies),
        chain(setting.plan, path),
        0 < k < path.len(),
        soundness::hard_failure(
            setting.plan,
            schedule::progress_after(setting, replies).run.slots,
            path[0] as int,
        ),
    ensures
        schedule::progress_after(setting, replies).run.slots[path[k] as int].phase == Phase::Done(
            Status::Skipped,
        ),
    decreases k,
{
    let run = schedule::progress_after(setting, replies).run;
    if k > 1 {
        law_failure_propagates(setting, replies, path, k - 1);
    }
    assert(setting.plan.deps[path[k] as int].contains(path[k - 1]));
    assert(machine::blocking(setting.plan, run.slots, path[k - 1] as int));
    law_skipped(setting, replies, path[k] as int);
}

/// With `fail-fast`, once a job has failed without `continue-on-error` no job is
/// started or resolved from the cache any more.
pub proof fn law_fail_fast(setting: Setting, replies: Seq<Reply>, f: int)
    requires
        soundness::valid_plan(setting.plan),
        setting.plan.fail_fast,
        soundness::hard_failure(
            setting.plan,
            schedule::progress_after(setting, replies).run.slots,
            f,
        ),
    ensures
        ({
            let mode = schedule::progress_after(setting, replies).run.mode;
            mode is Finish || mode is Halt
        }),
{
    schedule::lemma_sound(setting, replies);
    let run = schedule::progress_after(setting, replies).run;
    match run.mode {
        Mode::Probe(i) => {
            assert(machine::pending(run.slots, i as int));
        },
        Mode::Lookup(i) => {
            assert(machine::pending(run.slots, i as int));
        },
        Mode::Start(i) => {
            assert(machine::pending(run.slots, i as int));
        },
        _ => {},
    }
}

/// `b` is what `a` may become: a job that has ended stays as it is, and a running
/// one ends as it was going to.
pub open spec fn follows(a: SlotView, b: SlotView) -> bool {
    match a.phase {
        Phase::Pending => true,
        Phase::Running { success, .. } => b == a || b == (SlotView {
            phase: Phase::Done(
                if success {
                    Status::Success
                } else {
                    Status::Failed
                },
            ),
            ..a
        }),
        Phase::Done(_) => b == a,
    }
}

pub proof fn lemma_follows_step(plan: Plan, run: RunView, reply: Reply, i: int)
    requires
        soundness::sound(plan, run),
        0 <= i < run.slots.len(),
    ensures
        follows(run.slots[i], machine::after_reply(plan, run, reply).slots[i]),
{
    match (run.mode, reply) {
        (Mode::Probe(k), Reply::Contents(_)) => {
            assert(machine::pending(run.slots, k as int));
        },
        (Mode::Lookup(k), Reply::Entry(_)) => {
            assert(machine::pending(run.slots, k as int));
        },
        (Mode::Start(k), Reply::Outcome(_)) => {
            assert(machine::pending(run.slots, k as int));
        },
        (Mode::Finish(k), Reply::Finished) => {
            assert(machine::due(run.slots, run.clock, k as int));
        },
        _ => {},
    }
}

proof fn lemma_follows_self(a: SlotView)
    ensures
        follows(a, a),
{
}

proof fn lemma_follows_on(a: SlotView, b: SlotView, c: SlotView)
    requires
        follows(a, b),
        follows(b, c),
    ensures
        follows(a, c),
{
}

proof fn lemma_follows_next(setting: Setting, replies: Seq<Reply>, i: int)
    requires
        soundness::valid_plan(setting.plan),
        replies.len() > 0,
        0 <= i < setting.plan.jobs.len(),
    ensures
        follows(
            schedule::progress_after(setting, replies.drop_last()).run.slots[i],
            schedule::progress_after(setting, replies).run.slots[i],
        ),
{
    schedule::lemma_sound(setting, replies.drop_last());
    lemma_follows_step(
        setting.plan,
        schedule::progress_after(setting, replies.drop_last()).run,
        replies.last(),
        i,
    );
}

/// What was recorded stays: from any point of a run to any later one, a job that
/// has ended keeps its status, its outputs and its record, and a running job keeps
/// all but that it ends with the outcome it had.
pub proof fn law_records_stay(setting: Setting, replies: Seq<Reply>, k: int, i: int)
    requires
        soundness::valid_plan(setting.plan),
        0 <= k <= replies.len(),
        0 <= i < setting.plan.jobs.len(),
    ensures
        follows(
            schedule::progress_after(setting, replies.take(k)).run.slots[i],
            schedule::progress_after(setting, replies).run.slots[i],
        ),
    decreases replies.len() - k,
{
    if k == replies.len() {
        assert(replies.take(k) =~= replies);
        lemma_follows_self(schedule::progress_after(setting, replies).run.slots[i]);
    } else {
        let before = replies.drop_last();
        assert(before.take(k) =~= replies.take(k));
        law_records_stay(setting, before, k, i);
        lemma_follows_next(setting, replies, i);
        lemma_follows_on(
            schedule::progress_after(setting, replies.take(k)).run.slots[i],
            schedule::progress_after(setting, before).run.slots[i],
            schedule::progress_after(setting, replies).run.slots[i],
        );
    }
}

/// The first failure without `continue-on-error` has all work skipped that was not
/// started by then, when `fail-fast` is on.
pub proof fn law_fail_fast_skips(setting: Setting, replies: Seq<Reply>, k: int, f: int, i: int)
    requires
        schedule::complete(setting, replies),
        setting.plan.fail_fast,
        0 <= k <= replies.len(),
        soundness::hard_failure(
            setting.plan,
            schedule::progress_after(setting, replies.take(k)).run.slots,
            f,
        ),
        0 <= i < setting.plan.jobs.len(),
        !soundness::started(schedule::progress_after(setting, replies.take(k)).run.slots[i]),
    ensures
        schedule::progress_after(setting, replies).run.slots[i].phase == Phase::Done(
            Status::Skipped,
        ),
{
    law_every_job_ends(setting, replies, i);
    lemma_none_started_after(setting, replies, k, f, i);
}

proof fn lemma_none_started_after(setting: Setting, replies: Seq<Reply>, k: int, f: int, i: int)
    requires
        soundness::valid_plan(setting.plan),
        setting.plan.fail_fast,
        0 <= k <= replies.len(),
        soundness::hard_failure(
            setting.plan,
            schedule::progress_after(setting, replies.take(k)).run.slots,
            f,
        ),
        0 <= i < setting.plan.jobs.len(),
        !soundness::started(schedule::progress_after(setting, replies.take(k)).run.slots[i]),
    ensures
        !soundness::started(schedule::progress_after(setting, replies).run.slots[i]),
    decreases replies.len() - k,
{
    if k == replies.len() {
        assert(replies.take(k) =~= replies);
    } else {
        let before = replies.drop_last();
        let run = schedule::progress_after(setting, before).run;
        assert(before.take(k) =~= replies.take(k));
        lemma_none_started_after(setting, before, k, f, i);
        schedule::lemma_sound(setting, before);
        schedule::lemma_sound(setting, replies.take(k));
        law_records_stay(setting, before, k, f);
        law_fail_fast(setting, before, f);
        lemma_retiring_starts_none(setting.plan, run, replies.last(), i);
    }
}

/// No job is started by the end of another.
proof fn lemma_retiring_starts_none(plan: Plan, run: RunView, reply: Reply, i: int)
    requires
        soundness::sound(plan, run),
        run.mode is Finish || run.mode is Halt,
        0 <= i < run.slots.len(),
        !soundness::started(run.slots[i]),
    ensures
        !soundness::started(machine::after_reply(plan, run, reply).slots[i]),
{
    if let Mode::Finish(j) = run.mode {
        assert(machine::due(run.slots, run.clock, j as int));
    }
}

/// The jobs that were handed to the executor, in that order.
pub open spec fn ran_jobs(setting: Setting, replies: Seq<Reply>) -> Seq<usize>
    decreases replies.len(),
{
    if replies.len() == 0 {
        Seq::empty()
    } else {
        let before = ran_jobs(setting, replies.drop_last());
        match (schedule::progress_after(setting, replies.drop_last()).run.mode, replies.last()) {
            (Mode::Start(i), Reply::Outcome(_)) => before.push(i),
            _ => before,
        }
    }
}

/// The job was handed to the executor.
pub open spec fn was_run(slot: SlotView) -> bool {
    match slot.phase {
        Phase::Running { .. } => true,
        Phase::Done(s) => s == Status::Success || s == Status::Failed,
        Phase::Pending => false,
    }
}

/// `ran` are the jobs that were run, in the order of their starts.
pub open spec fn lists_runs(slots: Seq<SlotView>, ran: Seq<usize>) -> bool {
    &&& forall|k: int|
        0 <= k < ran.len() ==> (#[trigger] ran[k]) < slots.len() && was_run(slots[ran[k] as int])
    &&& forall|i: int|
        0 <= i < slots.len() && was_run(#[trigger] slots[i]) ==> ran.contains(i as usize)
    &&& forall|a: int, b: int|
        0 <= a < b < ran.len() ==> slots[(#[trigger] ran[a]) as int].start_order < slots[(
        #[trigger] ran[b]) as int].start_order
}

/// How one answer changes who was run.
pub proof fn lemma_was_run_step(plan: Plan, run: RunView, reply: Reply, i: int)
    requires
        soundness::sound(plan, run),
        0 <= i < run.slots.len(),
    ensures
        ({
            let next = machine::after_reply(plan, run, reply);
            let starts = run.mode == Mode::Start(i as usize) && reply is Outcome;
            &&& next.slots.len() == run.slots.len()
            &&& was_run(next.slots[i]) <==> was_run(run.slots[i]) || starts
            &&& was_run(run.slots[i]) ==> next.slots[i].start_order == run.slots[i].start_order
                && run.slots[i].start_order < run.counter
            &&& starts ==> next.slots[i].start_order == run.counter as usize && run.counter
                < usize::MAX && !was_run(run.slots[i])
        }),
{
    lemma_follows_step(plan, run, reply, i);
    assert(soundness::slot_sound(plan, run, i));
    soundness::lemma_started_count_bound(run.slots);
    match (run.mode, reply) {
        (Mode::Probe(k), Reply::Contents(_)) => {
            assert(machine::pending(run.slots, k as int));
        },
        (Mode::Lookup(k), Reply::Entry(_)) => {
            assert(machine::pending(run.slots, k as int));
        },
        (Mode::Start(k), Reply::Outcome(_)) => {
            assert(machine::pending(run.slots, k as int));
            assert(!soundness::started(run.slots[k as int]));
        },
        (Mode::Finish(k), Reply::Finished) => {
            assert(machine::due(run.slots, run.clock, k as int));
        },
        _ => {},
    }
}

proof fn lemma_lists_runs_step(plan: Plan, run: RunView, reply: Reply, ran: Seq<usize>)
    requires
        soundness::sound(plan, run),
        lists_runs(run.slots, ran),
    ensures
        lists_runs(
            machine::after_reply(plan, run, reply).slots,
            match (run.mode, reply) {
                (Mode::Start(i), Reply::Outcome(_)) => ran.push(i),
                _ => ran,
            },
        ),
{
    let next = machine::after_reply(plan, run, reply).slots;
    let more = match (run.mode, reply) {
        (Mode::Start(i), Reply::Outcome(_)) => ran.push(i),
        _ => ran,
    };
    assert forall|i: int| 0 <= i < run.slots.len() implies {
        let starts = run.mode == Mode::Start(i as usize) && reply is Outcome;
        &&& next.len() == run.slots.len()
        &&& #[trigger] was_run(next[i]) <==> was_run(run.slots[i]) || starts
        &&& was_run(run.slots[i]) ==> next[i].start_order == run.slots[i].start_order
            && run.slots[i].start_order < run.counter
        &&& starts ==> next[i].start_order == run.counter as usize && run.counter < usize::MAX
            && !was_run(run.slots[i])
    } by {
        lemma_was_run_step(plan, run, reply, i);
    }
    if run.slots.len() > 0 {
        lemma_was_run_step(plan, run, reply, 0);
    }
    assert forall|k: int| 0 <= k < more.len() implies (#[trigger] more[k]) < next.len() && was_run(
        next[more[k] as int],
    ) by {
        if k < ran.len() {
            assert(was_run(run.slots[ran[k] as int]));
            assert(was_run(next[ran[k] as int]));
        } else {
            assert(was_run(next[more[k] as int]));
        }
    }
    assert forall|i: int| 0 <= i < next.len() && was_run(#[trigger] next[i]) implies more.contains(
        i as usize,
    ) by {
        if was_run(run.slots[i]) {
            assert(ran.contains(i as usize));
            let k = ran.index_of(i as usize);
            assert(more[k] == i as usize);
        } else {
            assert(more[more.len() - 1] == i as usize);
        }
    }
    assert forall|a: int, b: int| 0 <= a < b < more.len() implies next[(
    #[trigger] more[a]) as int].start_order < next[(#[trigger] more[b]) as int].start_order by {
        assert(was_run(run.slots[ran[a] as int]));
        assert(was_run(next[more[a] as int]));
        assert(was_run(next[more[b] as int]));
        if b < ran.len() {
            assert(was_run(run.slots[ran[b] as int]));
            assert(run.slots[ran[a] as int].start_order < run.slots[ran[b] as int].start_order);
        }
    }
}

/// The names of the given jobs.
pub open spec fn names_of(plan: Plan, ran: Seq<usize>) -> Seq<Seq<char>> {
    ran.map_values(|i: usize| plan.jobs[i as int].name)
}

/// The executor is handed each job that was not skipped or found in the cache, and
/// no other; each once; and in the order of their starts.
pub proof fn law_runs_once(setting: Setting, replies: Seq<Reply>)
    requires
        soundness::valid_plan(setting.plan),
    ensures
        ({
            let p = schedule::progress_after(setting, replies);
            let ran = ran_jobs(setting, replies);
            &&& lists_runs(p.run.slots, ran)
            &&& Stats::of(p.calls).started == names_of(setting.plan, ran)
            &&& Stats::of(p.calls).ran == names_of(setting.plan, ran)
        }),
    decreases replies.len(),
{
    let ran = ran_jobs(setting, replies);
    if replies.len() == 0 {
        let fresh = Seq::new(setting.plan.jobs.len(), |i: int| machine::fresh());
        assert(schedule::progress_after(setting, replies).run.slots == fresh);
        assert(names_of(setting.plan, ran) =~= Seq::empty());
    } else {
        let before = replies.drop_last();
        law_runs_once(setting, before);
        schedule::lemma_sound(setting, before);
        let p = schedule::progress_after(setting, before);
        lemma_lists_runs_step(
            setting.plan,
            p.run,
            replies.last(),
            ran_jobs(setting, before),
        );
        lemma_recorded(setting, p, replies.last());
        match (p.run.mode, replies.last()) {
            (Mode::Start(i), Reply::Outcome(_)) => {
                assert(names_of(setting.plan, ran) =~= names_of(
                    setting.plan,
                    ran_jobs(setting, before),
                ).push(setting.plan.jobs[i as int].name));
            },
            _ => {},
        }
    }
}

/// The two answers say the same.
pub open spec fn same_reply(a: Reply, b: Reply) -> bool {
    match (a, b) {
        (Reply::Contents(x), Reply::Contents(y)) => {
            &&& x@.len() == y@.len()
            &&& forall|k: int|
                0 <= k < x@.len() ==> content::content_stream(#[trigger] x@[k])
                    == content::content_stream(y@[k])
        },
        (Reply::Entry(x), Reply::Entry(y)) => match (x, y) {
            (Some(e), Some(f)) => e@ == f@,
            (None, None) => true,
            _ => false,
        },
        (Reply::Outcome(x), Reply::Outcome(y)) => x@ == y@,
        (Reply::Finished, Reply::Finished) => true,
        _ => false,
    }
}

/// The first `n` answers say the same.
pub open spec fn alike_until(a: Seq<Reply>, b: Seq<Reply>, n: int) -> bool {
    forall|k: int| 0 <= k < n ==> same_reply(a[k], #[trigger] b[k])
}

/// Answer `k` says the same in both runs, or is none that the executor gave.
pub open spec fn executor_agrees(setting: Setting, a: Seq<Reply>, b: Seq<Reply>, k: int) -> bool {
    let mode = schedule::progress_after(setting, a.take(k)).run.mode;
    same_reply(a[k], b[k]) || !(mode is Probe || mode is Start)
}

/// Two runs in the same setting are given the same answers by the executor, as
/// long as all answers were the same before.
pub open spec fn answered_alike(setting: Setting, a: Seq<Reply>, b: Seq<Reply>) -> bool {
    forall|k: int|
        0 <= k < a.len() && k < b.len() && #[trigger] alike_until(a, b, k) ==> executor_agrees(
            setting,
            a,
            b,
            k,
        )
}

proof fn lemma_same_paths_stream(
    paths: Seq<Seq<char>>,
    x: Seq<PathContent>,
    y: Seq<PathContent>,
    n: int,
)
    requires
        x.len() == y.len(),
        forall|k: int|
            0 <= k < x.len() ==> content::content_stream(#[trigger] x[k])
                == content::content_stream(y[k]),
        n <= paths.len(),
    ensures
        cache::paths_stream(paths, x, n) == cache::paths_stream(paths, y, n),
    decreases n,
{
    if n > 0 {
        lemma_same_paths_stream(paths, x, y, n - 1);
    }
}

/// A key depends on what stands at the declared paths only by what is read there:
/// the same config, the same dependencies and the same content give the same key.
pub proof fn law_same_key(
    job: JobView,
    x: Seq<PathContent>,
    y: Seq<PathContent>,
    inputs: Seq<(Seq<char>, Seq<u8>)>,
    dep_keys: Seq<u64>,
)
    requires
        x.len() == y.len(),
        forall|k: int|
            0 <= k < x.len() ==> content::content_stream(#[trigger] x[k])
                == content::content_stream(y[k]),
    ensures
        cache::cache_key(job, x, inputs, dep_keys) == cache::cache_key(job, y, inputs, dep_keys),
{
    lemma_same_paths_stream(cache::declared(job), x, y, cache::declared(job).len() as int);
}

proof fn lemma_same_step(plan: Plan, run: RunView, a: Reply, b: Reply)
    requires
        same_reply(a, b),
    ensures
        machine::after_reply(plan, run, a) == machine::after_reply(plan, run, b),
{
    match (run.mode, a, b) {
        (Mode::Probe(i), Reply::Contents(x), Reply::Contents(y)) => {
            law_same_key(
                plan.jobs[i as int],
                x@,
                y@,
                machine::inputs_of(plan, run.slots, i as int),
                machine::dep_keys(plan, run.slots, i as int),
            );
        },
        _ => {},
    }
}

/// A run is a function of the plan, the cache and the answers of the executor: two
/// runs that were answered alike take the same steps and end the same, with the
/// same report and the same cache.
pub proof fn law_determinism(setting: Setting, a: Seq<Reply>, b: Seq<Reply>)
    requires
        schedule::complete(setting, a),
        schedule::complete(setting, b),
        answered_alike(setting, a, b),
    ensures
        a.len() == b.len(),
        alike_until(a, b, a.len() as int),
        schedule::progress_after(setting, a).run == schedule::progress_after(setting, b).run,
        schedule::progress_after(setting, a).stored == schedule::progress_after(setting, b).stored,
{
    if a.len() <= b.len() {
        lemma_alike(setting, a, b, a.len() as int);
        lemma_no_more(setting, a, b);
        lemma_end_in_step(setting, a, b);
    } else {
        lemma_alike(setting, a, b, b.len() as int);
        lemma_in_step_back(setting, a, b, b.len() as int);
        lemma_no_more(setting, b, a);
    }
}

/// A run that is over takes no more answers.
proof fn lemma_no_more(setting: Setting, a: Seq<Reply>, b: Seq<Reply>)
    requires
        schedule::complete(setting, a),
        schedule::all_fit(setting, b),
        a.len() <= b.len(),
        in_step(setting, a, b, a.len() as int),
    ensures
        a.len() == b.len(),
{
    let n = a.len() as int;
    if n < b.len() {
        lemma_fit_at(setting, b, n);
        assert(a.take(n) =~= a);
        assert(mode_at(setting, b, n) == Mode::Halt) by {
            reveal(in_step);
        }
    }
}

proof fn lemma_in_step_back(setting: Setting, a: Seq<Reply>, b: Seq<Reply>, n: int)
    requires
        in_step(setting, a, b, n),
    ensures
        in_step(setting, b, a, n),
{
    reveal(in_step);
    assert forall|k: int| 0 <= k < n implies same_reply(b[k], #[trigger] a[k]) by {
        assert(same_reply(a[k], b[k]));
        lemma_same_back(a[k], b[k]);
    }
}

proof fn lemma_same_back(a: Reply, b: Reply)
    requires
        same_reply(a, b),
    ensures
        same_reply(b, a),
{
}

proof fn lemma_end_in_step(setting: Setting, a: Seq<Reply>, b: Seq<Reply>)
    requires
        a.len() == b.len(),
        in_step(setting, a, b, a.len() as int),
    ensures
        alike_until(a, b, a.len() as int),
        schedule::progress_after(setting, a).run == schedule::progress_after(setting, b).run,
        schedule::progress_after(setting, a).stored == schedule::progress_after(setting, b).stored,
{
    reveal(in_step);
    assert(a.take(a.len() as int) =~= a);
    assert(b.take(b.len() as int) =~= b);
}

/// Every answer of a run fits where it was given.
pub proof fn lemma_fit_at(setting: Setting, replies: Seq<Reply>, k: int)
    requires
        schedule::all_fit(setting, replies),
        0 <= k < replies.len(),
    ensures
        schedule::fits(
            setting.plan,
            schedule::progress_after(setting, replies.take(k)).run,
            schedule::progress_after(setting, replies.take(k)).stored,
            replies[k],
        ),
        schedule::progress_after(setting, replies.take(k + 1)) == schedule::advance(
            setting,
            schedule::progress_after(setting, replies.take(k)),
            replies[k],
        ),
        schedule::all_fit(setting, replies.take(k)),
    decreases replies.len() - k,
{
    let before = replies.drop_last();
    assert(replies.take(k + 1).drop_last() =~= replies.take(k));
    if k == replies.len() - 1 {
        assert(before =~= replies.take(k));
    } else {
        assert(before.take(k) =~= replies.take(k));
        lemma_fit_at(setting, before, k);
    }
}

/// The two runs are in the same state after `n` answers that say the same.
#[verifier::opaque]
spec fn in_step(setting: Setting, a: Seq<Reply>, b: Seq<Reply>, n: int) -> bool {
    let p = schedule::progress_after(setting, a.take(n));
    let q = schedule::progress_after(setting, b.take(n));
    alike_until(a, b, n) && p.run == q.run && p.stored == q.stored
}

#[verifier::rlimit(30)]
proof fn lemma_alike(setting: Setting, a: Seq<Reply>, b: Seq<Reply>, n: int)
    requires
        schedule::complete(setting, a),
        schedule::complete(setting, b),
        answered_alike(setting, a, b),
        0 <= n <= a.len(),
        n <= b.len(),
    ensures
        in_step(setting, a, b, n),
    decreases n,
{
    if n == 0 {
        reveal(in_step);
        assert(a.take(0) =~= b.take(0));
    } else {
        lemma_alike(setting, a, b, n - 1);
        lemma_alike_next(setting, a, b, n - 1);
    }
}

proof fn lemma_alike_next(setting: Setting, a: Seq<Reply>, b: Seq<Reply>, k: int)
    requires
        schedule::all_fit(setting, a),
        schedule::all_fit(setting, b),
        answered_alike(setting, a, b),
        0 <= k < a.len(),
        k < b.len(),
        in_step(setting, a, b, k),
    ensures
        in_step(setting, a, b, k + 1),
{
    let p = schedule::progress_after(setting, a.take(k));
    let q = schedule::progress_after(setting, b.take(k));
    assert(alike_until(a, b, k) && p.run == q.run && p.stored == q.stored) by {
        reveal(in_step);
    }
    assert(executor_agrees(setting, a, b, k));
    lemma_fit_at(setting, a, k);
    lemma_fit_at(setting, b, k);
    lemma_alike_step(setting, p, q, a[k], b[k]);
    lemma_alike_more(a, b, k);
    lemma_in_step(setting, a, b, k + 1);
}

proof fn lemma_alike_more(a: Seq<Reply>, b: Seq<Reply>, k: int)
    requires
        alike_until(a, b, k),
        same_reply(a[k], b[k]),
    ensures
        alike_until(a, b, k + 1),
{
}

proof fn lemma_in_step(setting: Setting, a: Seq<Reply>, b: Seq<Reply>, n: int)
    requires
        alike_until(a, b, n),
        schedule::progress_after(setting, a.take(n)).run == schedule::progress_after(
            setting,
            b.take(n),
        ).run,
        schedule::progress_after(setting, a.take(n)).stored == schedule::progress_after(
            setting,
            b.take(n),
        ).stored,
    ensures
        in_step(setting, a, b, n),
{
    reveal(in_step);
}

proof fn lemma_alike_step(setting: Setting, p: Progress, q: Progress, a: Reply, b: Reply)
    requires
        p.run == q.run,
        p.stored == q.stored,
        schedule::fits(setting.plan, p.run, p.stored, a),
        schedule::fits(setting.plan, q.run, q.stored, b),
        same_reply(a, b) || !(p.run.mode is Probe || p.run.mode is Start),
    ensures
        same_reply(a, b),
        schedule::advance(setting, p, a).run == schedule::advance(setting, q, b).run,
        schedule::advance(setting, p, a).stored == schedule::advance(setting, q, b).stored,
{
    lemma_same_fit(setting.plan, p.run, p.stored, a, b);
    lemma_same_step(setting.plan, p.run, a, b);
}

/// What the cache holds decides what is found in it.
proof fn lemma_same_fit(
    plan: Plan,
    run: RunView,
    stored: Map<u64, EntryView>,
    a: Reply,
    b: Reply,
)
    requires
        schedule::fits(plan, run, stored, a),
        schedule::fits(plan, run, stored, b),
    ensures
        !(run.mode is Probe || run.mode is Start) ==> same_reply(a, b),
{
}

/// The two calls ask the same.
pub open spec fn same_question(a: Call, b: Call) -> bool {
    match (a, b) {
        (Call::Read { base_dir: d, path: p, .. }, Call::Read { base_dir: e, path: q, .. }) => d == e
            && p == q,
        (Call::Run { job: j, inputs: i, .. }, Call::Run { job: k, inputs: l, .. }) => j == k && i
            == l,
        (Call::Finish { name: n }, Call::Finish { name: m }) => n == m,
        _ => false,
    }
}

/// The two calls were answered the same.
pub open spec fn same_answer(a: Call, b: Call) -> bool {
    match (a, b) {
        (Call::Read { content: c, .. }, Call::Read { content: d, .. }) => content::content_stream(c)
            == content::content_stream(d),
        (Call::Run { outcome: o, .. }, Call::Run { outcome: p, .. }) => o == p,
        (Call::Finish { .. }, Call::Finish { .. }) => true,
        _ => false,
    }
}

/// The two executors answer the same question the same.
pub open spec fn answer_alike<E: Executor, F: Executor>(e: E, f: F) -> bool {
    forall|a: Call, b: Call| #[trigger]
        e.permits(a) && #[trigger] f.permits(b) && same_question(a, b) ==> same_answer(a, b)
}

/// The executor may answer all of the calls like that.
pub open spec fn all_permitted<E: Executor>(e: E, calls: Seq<Call>) -> bool {
    forall|k: int| 0 <= k < calls.len() ==> e.permits(#[trigger] calls[k])
}

/// Answers that say the same lead to the same state.
proof fn lemma_alike_state(setting: Setting, a: Seq<Reply>, b: Seq<Reply>, n: int)
    requires
        0 <= n <= a.len(),
        n <= b.len(),
        alike_until(a, b, n),
    ensures
        schedule::progress_after(setting, a.take(n)).run == schedule::progress_after(
            setting,
            b.take(n),
        ).run,
    decreases n,
{
    if n == 0 {
        assert(a.take(0) =~= b.take(0));
    } else {
        let k = n - 1;
        assert(alike_until(a, b, k));
        lemma_alike_state(setting, a, b, k);
        assert(same_reply(a[k], b[k]));
        assert(a.take(n).drop_last() =~= a.take(k));
        assert(b.take(n).drop_last() =~= b.take(k));
        lemma_same_step(
            setting.plan,
            schedule::progress_after(setting, a.take(k)).run,
            a[k],
            b[k],
        );
    }
}

/// The calls of each step are among those of the run.
proof fn lemma_calls_kept<E: Executor>(setting: Setting, replies: Seq<Reply>, k: int, e: E)
    requires
        0 <= k < replies.len(),
        all_permitted(e, schedule::progress_after(setting, replies).calls),
    ensures
        all_permitted(
            e,
            schedule::calls_for(
                setting.plan,
                setting.base_dir,
                schedule::progress_after(setting, replies.take(k)).run,
                replies[k],
            ),
        ),
    decreases replies.len(),
{
    let before = replies.drop_last();
    let p = schedule::progress_after(setting, before);
    let more = schedule::calls_for(setting.plan, setting.base_dir, p.run, replies.last());
    let all = p.calls + more;
    assert(schedule::progress_after(setting, replies).calls == all);
    if k == replies.len() - 1 {
        assert(before =~= replies.take(k));
        assert forall|j: int| 0 <= j < more.len() implies e.permits(#[trigger] more[j]) by {
            assert(all[p.calls.len() + j] == more[j]);
        }
    } else {
        assert forall|j: int| 0 <= j < p.calls.len() implies e.permits(#[trigger] p.calls[j]) by {
            assert(all[j] == p.calls[j]);
        }
        assert(before.take(k) =~= replies.take(k));
        lemma_calls_kept(setting, before, k, e);
    }
}

/// Every confined path was asked for.
proof fn lemma_read_is_call<E: Executor>(
    base_dir: Seq<char>,
    paths: Seq<Seq<char>>,
    contents: Seq<PathContent>,
    n: int,
    m: int,
    e: E,
)
    requires
        0 <= m < n <= paths.len(),
        safepath::confined(paths[m]),
        all_permitted(e, schedule::reads(base_dir, paths, contents, n)),
    ensures
        e.permits(Call::Read { base_dir, path: paths[m], content: contents[m] }),
    decreases n,
{
    let all = schedule::reads(base_dir, paths, contents, n);
    let rest = schedule::reads(base_dir, paths, contents, n - 1);
    if m == n - 1 {
        assert(e.permits(all[all.len() - 1]));
    } else {
        assert forall|j: int| 0 <= j < rest.len() implies e.permits(#[trigger] rest[j]) by {
            assert(all[j] == rest[j]);
        }
        lemma_read_is_call(base_dir, paths, contents, n - 1, m, e);
    }
}

/// Two executors that answer alike give the same answer in the same state.
proof fn lemma_same_answers<E: Executor, F: Executor>(
    setting: Setting,
    run: RunView,
    x: Map<u64, EntryView>,
    y: Map<u64, EntryView>,
    a: Reply,
    b: Reply,
    e: E,
    f: F,
)
    requires
        schedule::fits(setting.plan, run, x, a),
        schedule::fits(setting.plan, run, y, b),
        all_permitted(e, schedule::calls_for(setting.plan, setting.base_dir, run, a)),
        all_permitted(f, schedule::calls_for(setting.plan, setting.base_dir, run, b)),
        answer_alike(e, f),
        run.mode is Probe || run.mode is Start,
    ensures
        same_reply(a, b),
{
    match (run.mode, a, b) {
        (Mode::Probe(i), Reply::Contents(c), Reply::Contents(d)) => {
            let paths = cache::declared(setting.plan.jobs[i as int]);
            let n = paths.len() as int;
            assert forall|k: int| 0 <= k < c@.len() implies content::content_stream(
                #[trigger] c@[k],
            ) == content::content_stream(d@[k]) by {
                if safepath::confined(paths[k]) {
                    lemma_read_is_call(setting.base_dir, paths, c@, n, k, e);
                    lemma_read_is_call(setting.base_dir, paths, d@, n, k, f);
                    let p = Call::Read {
                        base_dir: setting.base_dir,
                        path: paths[k],
                        content: c@[k],
                    };
                    let q = Call::Read {
                        base_dir: setting.base_dir,
                        path: paths[k],
                        content: d@[k],
                    };
                    assert(e.permits(p) && f.permits(q) && same_question(p, q));
                }
            }
        },
        (Mode::Start(i), Reply::Outcome(o), Reply::Outcome(r)) => {
            let p = schedule::calls_for(setting.plan, setting.base_dir, run, a)[0];
            let q = schedule::calls_for(setting.plan, setting.base_dir, run, b)[0];
            assert(e.permits(p) && f.permits(q) && same_question(p, q));
        },
        _ => {},
    }
}

/// Same pipeline, same result: two runs in the same setting over executors that
/// answer the same questions the same take the same steps and end with the same
/// report and the same cache.
pub proof fn law_same_result<E: Executor, F: Executor>(
    setting: Setting,
    a: Seq<Reply>,
    b: Seq<Reply>,
    e: E,
    f: F,
)
    requires
        schedule::complete(setting, a),
        schedule::complete(setting, b),
        all_permitted(e, schedule::progress_after(setting, a).calls),
        all_permitted(f, schedule::progress_after(setting, b).calls),
        answer_alike(e, f),
    ensures
        a.len() == b.len(),
        alike_until(a, b, a.len() as int),
        schedule::progress_after(setting, a).run == schedule::progress_after(setting, b).run,
        schedule::progress_after(setting, a).stored == schedule::progress_after(setting, b).stored,
{
    assert forall|k: int|
        0 <= k < a.len() && k < b.len() && #[trigger] alike_until(a, b, k) implies executor_agrees(
        setting,
        a,
        b,
        k,
    ) by {
        lemma_executor_agrees(setting, a, b, e, f, k);
    }
    law_determinism(setting, a, b);
}

proof fn lemma_executor_agrees<E: Executor, F: Executor>(
    setting: Setting,
    a: Seq<Reply>,
    b: Seq<Reply>,
    e: E,
    f: F,
    k: int,
)
    requires
        schedule::all_fit(setting, a),
        schedule::all_fit(setting, b),
        all_permitted(e, schedule::progress_after(setting, a).calls),
        all_permitted(f, schedule::progress_after(setting, b).calls),
        answer_alike(e, f),
        0 <= k < a.len(),
        k < b.len(),
        alike_until(a, b, k),
    ensures
        executor_agrees(setting, a, b, k),
{
    let p = schedule::progress_after(setting, a.take(k));
    let q = schedule::progress_after(setting, b.take(k));
    lemma_alike_state(setting, a, b, k);
    lemma_fit_at(setting, a, k);
    lemma_fit_at(setting, b, k);
    lemma_calls_kept(setting, a, k, e);
    lemma_calls_kept(setting, b, k, f);
    if p.run.mode is Probe || p.run.mode is Start {
        lemma_same_answers(setting, p.run, p.stored, q.stored, a[k], b[k], e, f);
    }
}

/// Mocks with the same scripts and files answer alike.
pub proof fn law_mocks_answer_alike(e: MockExecutor, f: MockExecutor)
    requires
        forall|n: Seq<char>| #[trigger] e.script(n) == f.script(n),
        forall|p: Seq<char>| #[trigger] e.file(p) == f.file(p),
    ensures
        answer_alike(e, f),
{
    assert forall|a: Call, b: Call| #[trigger]
        e.permits(a) && #[trigger] f.permits(b) && same_question(a, b) implies same_answer(a, b) by {
        match (a, b) {
            (Call::Read { path, .. }, Call::Read { .. }) => {
                assert(e.file(path) == f.file(path));
            },
            (Call::Run { job, .. }, Call::Run { .. }) => {
                assert(e.script(job.name) == f.script(job.name));
            },
            _ => {},
        }
    }
}

/// The calls of a run that went through are ones that the executor may answer so.
proof fn lemma_ended_permitted<E: Executor>(
    setting: Setting,
    replies: Seq<Reply>,
    report: Seq<RecordView>,
    stored: Map<u64, EntryView>,
    before: E,
    after: E,
)
    requires
        schedule::ended(setting, replies, report, stored, before.history(), after.history()),
        executor::went_on(before, after),
    ensures
        all_permitted(before, schedule::progress_after(setting, replies).calls),
{
    let calls = schedule::progress_after(setting, replies).calls;
    let n = before.history().len();
    assert forall|k: int| 0 <= k < calls.len() implies before.permits(#[trigger] calls[k]) by {
        assert(after.history()[n + k] == calls[k]);
        assert(before.permits(after.history()[n + k]));
    }
}

/// The calls are as many, and each asks and is answered the same.
pub open spec fn same_calls(x: Seq<Call>, y: Seq<Call>) -> bool {
    &&& x.len() == y.len()
    &&& forall|k: int|
        0 <= k < x.len() ==> same_question(#[trigger] x[k], y[k]) && same_answer(x[k], y[k])
}

proof fn lemma_same_calls_add(x: Seq<Call>, s: Seq<Call>, y: Seq<Call>, t: Seq<Call>)
    requires
        same_calls(x, y),
        same_calls(s, t),
    ensures
        same_calls(x + s, y + t),
{
    assert forall|k: int| 0 <= k < (x + s).len() implies same_question(
        #[trigger] (x + s)[k],
        (y + t)[k],
    ) && same_answer((x + s)[k], (y + t)[k]) by {
        if k < x.len() {
            assert(same_question(x[k], y[k]));
        } else {
            assert(same_question(s[k - x.len()], t[k - x.len()]));
        }
    }
}

proof fn lemma_same_reads(
    base_dir: Seq<char>,
    paths: Seq<Seq<char>>,
    c: Seq<PathContent>,
    d: Seq<PathContent>,
    n: int,
)
    requires
        n <= c.len(),
        n <= d.len(),
        forall|k: int|
            0 <= k < n ==> content::content_stream(#[trigger] c[k]) == content::content_stream(
                d[k],
            ),
    ensures
        same_calls(
            schedule::reads(base_dir, paths, c, n),
            schedule::reads(base_dir, paths, d, n),
        ),
    decreases n,
{
    if n > 0 {
        lemma_same_reads(base_dir, paths, c, d, n - 1);
        assert(content::content_stream(c[n - 1]) == content::content_stream(d[n - 1]));
        let x = schedule::reads(base_dir, paths, c, n - 1);
        let y = schedule::reads(base_dir, paths, d, n - 1);
        if safepath::confined(paths[n - 1]) {
            let s = Call::Read { base_dir, path: paths[n - 1], content: c[n - 1] };
            let t = Call::Read { base_dir, path: paths[n - 1], content: d[n - 1] };
            assert(same_calls(seq![s], seq![t]));
            lemma_same_calls_add(x, seq![s], y, seq![t]);
            assert(x + seq![s] =~= x.push(s));
            assert(y + seq![t] =~= y.push(t));
        }
    }
}

/// Answers that say the same come from the same calls.
#[verifier::rlimit(30)]
proof fn lemma_alike_calls(setting: Setting, a: Seq<Reply>, b: Seq<Reply>, n: int)
    requires
        schedule::all_fit(setting, a),
        schedule::all_fit(setting, b),
        0 <= n <= a.len(),
        n <= b.len(),
        alike_until(a, b, n),
    ensures
        same_calls(
            schedule::progress_after(setting, a.take(n)).calls,
            schedule::progress_after(setting, b.take(n)).calls,
        ),
    decreases n,
{
    if n > 0 {
        let k = n - 1;
        assert(alike_until(a, b, k));
        lemma_alike_calls(setting, a, b, k);
        lemma_alike_state(setting, a, b, k);
        lemma_fit_at(setting, a, k);
        lemma_fit_at(setting, b, k);
        assert(same_reply(a[k], b[k]));
        let p = schedule::progress_after(setting, a.take(k));
        let q = schedule::progress_after(setting, b.take(k));
        let s = schedule::calls_for(setting.plan, setting.base_dir, p.run, a[k]);
        let t = schedule::calls_for(setting.plan, setting.base_dir, q.run, b[k]);
        match (p.run.mode, a[k], b[k]) {
            (Mode::Probe(i), Reply::Contents(c), Reply::Contents(d)) => {
                let paths = cache::declared(setting.plan.jobs[i as int]);
                lemma_same_reads(setting.base_dir, paths, c@, d@, paths.len() as int);
            },
            _ => {
                assert(same_calls(s, t));
            },
        }
        lemma_same_calls_add(p.calls, s, q.calls, t);
    }
}

/// The scheduler is deterministic: two runs of the same pipeline under the same
/// limits, from the same cache and over executors that answer alike, give the same
/// report and leave the same cache. Both executors get the same calls with the same
/// arguments in the same order.
pub proof fn law_run_is_deterministic<E: Executor, F: Executor>(
    setting: Setting,
    a: Seq<Reply>,
    first: Seq<RecordView>,
    first_stored: Map<u64, EntryView>,
    e: E,
    e_after: E,
    b: Seq<Reply>,
    second: Seq<RecordView>,
    second_stored: Map<u64, EntryView>,
    f: F,
    f_after: F,
)
    requires
        schedule::ended(setting, a, first, first_stored, e.history(), e_after.history()),
        executor::went_on(e, e_after),
        schedule::ended(setting, b, second, second_stored, f.history(), f_after.history()),
        executor::went_on(f, f_after),
        answer_alike(e, f),
    ensures
        first == second,
        first_stored == second_stored,
        same_calls(
            e_after.history().skip(e.history().len() as int),
            f_after.history().skip(f.history().len() as int),
        ),
{
    lemma_ended_permitted(setting, a, first, first_stored, e, e_after);
    lemma_ended_permitted(setting, b, second, second_stored, f, f_after);
    law_same_result(setting, a, b, e, f);
    lemma_alike_calls(setting, a, b, a.len() as int);
    assert(a.take(a.len() as int) =~= a);
    assert(b.take(a.len() as int) =~= b);
    assert(e_after.history().skip(e.history().len() as int) =~= schedule::progress_after(
        setting,
        a,
    ).calls);
    assert(f_after.history().skip(f.history().len() as int) =~= schedule::progress_after(
        setting,
        b,
    ).calls);
}

/// The peak that a fresh mock records during a run is within the limit, and the
/// names it records are those of the jobs that were run, in the order of their
/// starts.
pub proof fn law_mock_records(
    setting: Setting,
    replies: Seq<Reply>,
    report: Seq<RecordView>,
    stored: Map<u64, EntryView>,
    before: MockExecutor,
    after: MockExecutor,
)
    requires
        before.valid(),
        before.history() == Seq::<Call>::empty(),
        schedule::ended(setting, replies, report, stored, before.history(), after.history()),
        executor::went_on(before, after),
    ensures
        after.stats().max_concurrency <= setting.plan.slots,
        after.stats().live == 0,
        after.stats().started == names_of(setting.plan, ran_jobs(setting, replies)),
        after.stats().ran == names_of(setting.plan, ran_jobs(setting, replies)),
        lists_runs(
            schedule::progress_after(setting, replies).run.slots,
            ran_jobs(setting, replies),
        ),
{
    let p = schedule::progress_after(setting, replies);
    assert(after.history() =~= p.calls);
    after.lemma_valid();
    law_concurrency_limit(setting, replies);
    law_runs_once(setting, replies);
    schedule::lemma_sound(setting, replies);
    soundness::lemma_no_running(p.run.slots);
}

} // verus!
