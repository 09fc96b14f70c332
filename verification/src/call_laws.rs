//! What the start order of a report and the calls on the executor tell: which jobs
//! were handed over, that each of them was retired, and that what a job needs was
//! retired first.

use vstd::prelude::*;

use crate::cache;
use crate::cache::EntryView;
use crate::cache_laws;
use crate::content::PathContent;
use crate::dag;
use crate::duration::Duration;
use crate::executor;
use crate::executor::Call;
use crate::laws;
use crate::machine;
use crate::machine::{Mode, Phase, Plan, Reply, RunView, SlotView};
use crate::pipeline;
use crate::pipeline::{JobView, Pipeline};
use crate::report::{RecordView, Status};
use crate::safepath;
use crate::schedule;
use crate::schedule::{Limits, Progress, Setting};
use crate::soundness;
use crate::time_laws;

verus! {

/// How many jobs were not skipped.
pub open spec fn begun_count(report: Seq<RecordView>) -> nat
    decreases report.len(),
{
    if report.len() == 0 {
        0
    } else {
        begun_count(report.drop_last()) + (if report.last().status != Status::Skipped {
            1nat
        } else {
            0nat
        })
    }
}

/// Some job that was not skipped has that place in the start order.
pub open spec fn is_taken(report: Seq<RecordView>, n: int) -> bool {
    exists|i: int|
        0 <= i < report.len() && (#[trigger] report[i]).status != Status::Skipped
            && report[i].start_order == n
}

/// Some job that was started has that place in the start order.
spec fn is_place(slots: Seq<SlotView>, n: int) -> bool {
    exists|i: int|
        0 <= i < slots.len() && soundness::started(#[trigger] slots[i]) && slots[i].start_order == n
}

/// Every place up to the counter is taken.
spec fn gapless(run: RunView) -> bool {
    forall|n: int| 0 <= n < run.counter ==> #[trigger] is_place(run.slots, n)
}

proof fn lemma_gapless_step(plan: Plan, run: RunView, reply: Reply)
    requires
        soundness::sound(plan, run),
        gapless(run),
    ensures
        gapless(machine::after_reply(plan, run, reply)),
{
    let next = machine::after_reply(plan, run, reply);
    soundness::lemma_started_count_bound(run.slots);
    let begins = match (run.mode, reply) {
        (Mode::Lookup(i), Reply::Entry(Some(_))) => Some(i as int),
        (Mode::Start(i), Reply::Outcome(_)) => Some(i as int),
        _ => None,
    };
    if let Some(i) = begins {
        assert(machine::pending(run.slots, i));
        assert(!soundness::started(run.slots[i]));
        assert(soundness::started(next.slots[i]));
        time_laws::lemma_slot_step(plan, run, reply, i);
        assert(next.counter == run.counter + 1);
    } else {
        assert(next.counter == run.counter);
    }
    assert forall|n: int| 0 <= n < next.counter implies #[trigger] is_place(next.slots, n) by {
        if n < run.counter {
            assert(is_place(run.slots, n));
            let i = choose|i: int|
                0 <= i < run.slots.len() && soundness::started(#[trigger] run.slots[i])
                    && run.slots[i].start_order == n;
            time_laws::lemma_slot_step(plan, run, reply, i);
            assert(soundness::started(next.slots[i]));
        } else {
            assert(next.slots[begins->0].start_order == n);
        }
    }
}

proof fn lemma_gapless(setting: Setting, replies: Seq<Reply>)
    requires
        soundness::valid_plan(setting.plan),
    ensures
        gapless(schedule::progress_after(setting, replies).run),
    decreases replies.len(),
{
    if replies.len() > 0 {
        lemma_gapless(setting, replies.drop_last());
        schedule::lemma_sound(setting, replies.drop_last());
        lemma_gapless_step(
            setting.plan,
            schedule::progress_after(setting, replies.drop_last()).run,
            replies.last(),
        );
    }
}

proof fn lemma_begun_count(report: Seq<RecordView>, slots: Seq<SlotView>)
    requires
        report.len() == slots.len(),
        forall|i: int|
            0 <= i < slots.len() ==> (soundness::started(#[trigger] slots[i])
                <==> report[i].status != Status::Skipped),
    ensures
        begun_count(report) == soundness::started_count(slots),
    decreases slots.len(),
{
    if slots.len() > 0 {
        assert(soundness::started(slots[slots.len() - 1])
            <==> report[report.len() - 1].status != Status::Skipped);
        assert forall|i: int| 0 <= i < slots.drop_last().len() implies (soundness::started(
            #[trigger] slots.drop_last()[i],
        ) <==> report.drop_last()[i].status != Status::Skipped) by {
            assert(soundness::started(slots[i]) <==> report[i].status != Status::Skipped);
        }
        lemma_begun_count(report.drop_last(), slots.drop_last());
    }
}

/// A report lists every job under its name and its wave. The jobs that were not
/// skipped have the places from zero on in the start order, each place once and none
/// left out. The largest number marks exactly the skipped ones.
pub proof fn law_start_order_is_gapless(
    setting: Setting,
    replies: Seq<Reply>,
    report: Seq<RecordView>,
)
    requires
        schedule::complete(setting, replies),
        report == machine::report_of(
            setting.plan,
            schedule::progress_after(setting, replies).run,
        ),
    ensures
        report.len() == setting.plan.jobs.len(),
        forall|i: int|
            0 <= i < report.len() ==> {
                &&& (#[trigger] report[i]).name == setting.plan.jobs[i].name
                &&& report[i].wave == setting.plan.levels[i]
                &&& report[i].start_order == usize::MAX <==> report[i].status == Status::Skipped
                &&& report[i].status != Status::Skipped ==> report[i].start_order < begun_count(
                    report,
                )
            },
        forall|n: int| 0 <= n < begun_count(report) ==> #[trigger] is_taken(report, n),
        forall|i: int, j: int|
            0 <= i < j < report.len() && (#[trigger] report[i]).status != Status::Skipped && (
            #[trigger] report[j]).status != Status::Skipped ==> report[i].start_order
                != report[j].start_order,
{
    let last = schedule::progress_after(setting, replies).run;
    schedule::lemma_sound(setting, replies);
    lemma_gapless(setting, replies);
    assert forall|i: int| 0 <= i < last.slots.len() implies (soundness::started(
        #[trigger] last.slots[i],
    ) <==> report[i].status != Status::Skipped) by {
        laws::law_every_job_ends(setting, replies, i);
    }
    lemma_begun_count(report, last.slots);
    soundness::lemma_started_count_bound(last.slots);
    assert forall|i: int| 0 <= i < report.len() implies {
        &&& (#[trigger] report[i]).name == setting.plan.jobs[i].name
        &&& report[i].wave == setting.plan.levels[i]
        &&& report[i].start_order == usize::MAX <==> report[i].status == Status::Skipped
        &&& report[i].status != Status::Skipped ==> report[i].start_order < begun_count(report)
    } by {
        assert(soundness::slot_sound(setting.plan, last, i));
        laws::law_every_job_ends(setting, replies, i);
    }
    assert forall|n: int| 0 <= n < begun_count(report) implies #[trigger] is_taken(report, n) by {
        assert(is_place(last.slots, n));
        let i = choose|i: int|
            0 <= i < last.slots.len() && soundness::started(#[trigger] last.slots[i])
                && last.slots[i].start_order == n;
        assert(report[i].status != Status::Skipped);
    }
    assert forall|i: int, j: int|
        0 <= i < j < report.len() && (#[trigger] report[i]).status != Status::Skipped && (
        #[trigger] report[j]).status != Status::Skipped implies report[i].start_order
        != report[j].start_order by {
        assert(soundness::started(last.slots[i]));
        assert(soundness::started(last.slots[j]));
    }
}

/// No two jobs have one name.
pub open spec fn distinct(jobs: Seq<JobView>) -> bool {
    forall|i: int, j: int|
        0 <= i < jobs.len() && 0 <= j < jobs.len() && i != j ==> (#[trigger] jobs[i]).name != (
        #[trigger] jobs[j]).name
}

proof fn lemma_no_repeat(jobs: Seq<JobView>, n: int)
    requires
        dag::defect(jobs) is None,
        0 <= n <= jobs.len(),
    ensures
        forall|i: int| 0 <= i < n ==> !#[trigger] dag::repeats(jobs, i),
    decreases n,
{
    if n > 0 {
        lemma_no_repeat(jobs, n - 1);
        if dag::repeats(jobs, n - 1) {
            assert(dag::first_repeat(jobs, n - 1));
        }
    }
}

proof fn lemma_distinct(jobs: Seq<JobView>)
    requires
        dag::defect(jobs) is None,
    ensures
        distinct(jobs),
{
    lemma_no_repeat(jobs, jobs.len() as int);
    assert forall|i: int, j: int|
        0 <= i < jobs.len() && 0 <= j < jobs.len() && i != j implies (#[trigger] jobs[i]).name != (
    #[trigger] jobs[j]).name by {
        assert(!dag::repeats(jobs, i));
        assert(!dag::repeats(jobs, j));
    }
}

/// The call hands over a job of that name.
pub open spec fn hands_over(call: Call, name: Seq<char>) -> bool {
    call matches Call::Run { job, .. } && job.name == name
}

/// The call tells that the job of that name was retired.
pub open spec fn tells_end(call: Call, name: Seq<char>) -> bool {
    call matches Call::Finish { name: n } && n == name
}

/// No call is about the job of that name.
pub open spec fn unheard_of(calls: Seq<Call>, name: Seq<char>) -> bool {
    forall|m: int|
        0 <= m < calls.len() ==> !hands_over(#[trigger] calls[m], name) && !tells_end(
            calls[m],
            name,
        )
}

/// Call `p` hands over the job, with an outcome of that success, duration, logs and
/// outputs, and no other call hands it over.
pub open spec fn handed_over_at(
    calls: Seq<Call>,
    job: JobView,
    success: bool,
    duration: Duration,
    logs: Seq<char>,
    outputs: Seq<(Seq<char>, Seq<u8>)>,
    p: int,
) -> bool {
    &&& 0 <= p < calls.len()
    &&& calls[p] matches Call::Run { job: j, outcome, .. } && j == job && outcome.success == success
        && outcome.duration == duration && outcome.logs == logs && outcome.artifacts == outputs
    &&& forall|m: int|
        0 <= m < calls.len() && hands_over(#[trigger] calls[m], job.name) ==> m == p
}

/// Call `q` tells that the job of that name was retired, and no other call does.
pub open spec fn retired_at(calls: Seq<Call>, name: Seq<char>, q: int) -> bool {
    &&& 0 <= q < calls.len()
    &&& tells_end(calls[q], name)
    &&& forall|m: int| 0 <= m < calls.len() && tells_end(#[trigger] calls[m], name) ==> m == q
}

/// The job was handed over once, and after that retired once.
pub open spec fn handed_over_and_retired(
    calls: Seq<Call>,
    job: JobView,
    success: bool,
    duration: Duration,
    logs: Seq<char>,
    outputs: Seq<(Seq<char>, Seq<u8>)>,
) -> bool {
    exists|p: int, q: int|
        p < q && #[trigger] handed_over_at(calls, job, success, duration, logs, outputs, p)
            && #[trigger] retired_at(calls, job.name, q)
}

/// The calls so far about a job are those that its phase tells of.
spec fn heard(calls: Seq<Call>, job: JobView, slot: SlotView) -> bool {
    match slot.phase {
        Phase::Pending => unheard_of(calls, job.name),
        Phase::Running { success, .. } => {
            &&& exists|p: int| #[trigger]
                handed_over_at(calls, job, success, slot.duration, slot.logs, slot.outputs, p)
            &&& forall|m: int| 0 <= m < calls.len() ==> !tells_end(#[trigger] calls[m], job.name)
        },
        Phase::Done(s) => if s == Status::Success || s == Status::Failed {
            handed_over_and_retired(calls, job, s == Status::Success, slot.duration, slot.logs, slot.outputs)
        } else {
            unheard_of(calls, job.name)
        },
    }
}

proof fn lemma_reads_unheard(
    base_dir: Seq<char>,
    paths: Seq<Seq<char>>,
    contents: Seq<PathContent>,
    n: int,
    name: Seq<char>,
)
    ensures
        unheard_of(schedule::reads(base_dir, paths, contents, n), name),
    decreases n,
{
    if n > 0 {
        lemma_reads_unheard(base_dir, paths, contents, n - 1, name);
        let rest = schedule::reads(base_dir, paths, contents, n - 1);
        let all = schedule::reads(base_dir, paths, contents, n);
        assert forall|m: int| 0 <= m < all.len() implies !hands_over(#[trigger] all[m], name)
            && !tells_end(all[m], name) by {
            if m < rest.len() {
                assert(all[m] == rest[m]);
            }
        }
    }
}

/// Calls about other jobs change nothing.
proof fn lemma_heard_more(calls: Seq<Call>, more: Seq<Call>, job: JobView, slot: SlotView)
    requires
        heard(calls, job, slot),
        unheard_of(more, job.name),
    ensures
        heard(calls + more, job, slot),
{
    let all = calls + more;
    let n = calls.len() as int;
    assert forall|m: int| 0 <= m < all.len() implies all[m] == (if m < n {
        calls[m]
    } else {
        more[m - n]
    }) && (m >= n ==> !hands_over(#[trigger] all[m], job.name) && !tells_end(all[m], job.name)) by {
        if m >= n {
            assert(!hands_over(more[m - n], job.name));
        }
    }
    match slot.phase {
        Phase::Running { success, .. } => {
            let p = choose|p: int| #[trigger]
                handed_over_at(calls, job, success, slot.duration, slot.logs, slot.outputs, p);
            assert(handed_over_at(all, job, success, slot.duration, slot.logs, slot.outputs, p));
        },
        Phase::Done(s) => if s == Status::Success || s == Status::Failed {
            let ok = s == Status::Success;
            let (p, q) = choose|p: int, q: int|
                p < q && #[trigger] handed_over_at(calls, job, ok, slot.duration, slot.logs, slot.outputs, p)
                    && #[trigger] retired_at(calls, job.name, q);
            assert(handed_over_at(all, job, ok, slot.duration, slot.logs, slot.outputs, p));
            assert(retired_at(all, job.name, q));
        },
        _ => {},
    }
}

/// A pending job that is handed over is heard of as running.
proof fn lemma_heard_start(calls: Seq<Call>, call: Call, job: JobView, a: SlotView, b: SlotView)
    requires
        heard(calls, job, a),
        a.phase is Pending,
        b.phase is Running,
        call matches Call::Run { job: j, outcome, .. } && j == job && outcome.success
            == b.phase->success && outcome.duration == b.duration && outcome.logs == b.logs && outcome.artifacts == b.outputs,
    ensures
        heard(calls + seq![call], job, b),
{
    let all = calls + seq![call];
    let n = calls.len() as int;
    assert forall|m: int| 0 <= m < all.len() implies (#[trigger] all[m]) == (if m < n {
        calls[m]
    } else {
        call
    }) by {}
    assert(handed_over_at(all, job, b.phase->success, b.duration, b.logs, b.outputs, n));
}

/// A running job that is retired is heard of as ended.
proof fn lemma_heard_end(calls: Seq<Call>, call: Call, job: JobView, a: SlotView, b: SlotView)
    requires
        heard(calls, job, a),
        a.phase is Running,
        b == (SlotView {
            phase: Phase::Done(
                if a.phase->success {
                    Status::Success
                } else {
                    Status::Failed
                },
            ),
            ..a
        }),
        call == (Call::Finish { name: job.name }),
    ensures
        heard(calls + seq![call], job, b),
{
    let all = calls + seq![call];
    let n = calls.len() as int;
    let ok = a.phase->success;
    assert forall|m: int| 0 <= m < all.len() implies (#[trigger] all[m]) == (if m < n {
        calls[m]
    } else {
        call
    }) by {}
    let p = choose|p: int| #[trigger] handed_over_at(calls, job, ok, a.duration, a.logs, a.outputs, p);
    assert(handed_over_at(all, job, ok, b.duration, b.logs, b.outputs, p));
    assert(retired_at(all, job.name, n));
}

/// What is called to get an answer is about the job that starts or ends, if any.
proof fn lemma_calls_about(setting: Setting, run: RunView, reply: Reply, i: int)
    requires
        soundness::sound(setting.plan, run),
        distinct(setting.plan.jobs),
        0 <= i < setting.plan.jobs.len(),
        !(run.mode == Mode::Start(i as usize) && reply is Outcome),
        !(run.mode == Mode::Finish(i as usize) && reply is Finished),
    ensures
        unheard_of(
            schedule::calls_for(setting.plan, setting.base_dir, run, reply),
            setting.plan.jobs[i].name,
        ),
{
    let jobs = setting.plan.jobs;
    match (run.mode, reply) {
        (Mode::Probe(k), Reply::Contents(c)) => {
            let paths = cache::declared(jobs[k as int]);
            lemma_reads_unheard(
                setting.base_dir,
                paths,
                c@,
                paths.len() as int,
                jobs[i].name,
            );
        },
        (Mode::Start(k), Reply::Outcome(_)) => {
            assert(jobs[k as int].name != jobs[i].name);
        },
        (Mode::Finish(k), Reply::Finished) => {
            assert(jobs[k as int].name != jobs[i].name);
        },
        _ => {},
    }
}

proof fn lemma_heard_step(setting: Setting, p: Progress, reply: Reply, i: int)
    requires
        soundness::sound(setting.plan, p.run),
        distinct(setting.plan.jobs),
        0 <= i < setting.plan.jobs.len(),
        heard(p.calls, setting.plan.jobs[i], p.run.slots[i]),
    ensures
        ({
            let q = schedule::advance(setting, p, reply);
            heard(q.calls, setting.plan.jobs[i], q.run.slots[i])
        }),
{
    let plan = setting.plan;
    let job = plan.jobs[i];
    let q = schedule::advance(setting, p, reply);
    let more = schedule::calls_for(plan, setting.base_dir, p.run, reply);
    let a = p.run.slots[i];
    let b = q.run.slots[i];
    time_laws::lemma_slot_step(plan, p.run, reply, i);
    laws::lemma_follows_step(plan, p.run, reply, i);
    if p.run.mode == Mode::Start(i as usize) && reply is Outcome {
        assert(machine::pending(p.run.slots, i));
        assert(b == machine::begun(plan, p.run, i, reply->Outcome_0).slots[i]);
        assert(more =~= seq![more[0]]);
        lemma_heard_start(p.calls, more[0], job, a, b);
    } else if p.run.mode == Mode::Finish(i as usize) && reply is Finished {
        assert(more =~= seq![more[0]]);
        lemma_heard_end(p.calls, more[0], job, a, b);
    } else {
        lemma_calls_about(setting, p.run, reply, i);
        lemma_heard_more(p.calls, more, job, a);
    }
}

proof fn lemma_heard(setting: Setting, replies: Seq<Reply>, i: int)
    requires
        soundness::valid_plan(setting.plan),
        distinct(setting.plan.jobs),
        0 <= i < setting.plan.jobs.len(),
    ensures
        ({
            let p = schedule::progress_after(setting, replies);
            heard(p.calls, setting.plan.jobs[i], p.run.slots[i])
        }),
    decreases replies.len(),
{
    if replies.len() == 0 {
        time_laws::lemma_begins(setting.plan);
    } else {
        lemma_heard(setting, replies.drop_last(), i);
        schedule::lemma_sound(setting, replies.drop_last());
        lemma_heard_step(
            setting,
            schedule::progress_after(setting, replies.drop_last()),
            replies.last(),
            i,
        );
    }
}

/// Each job that ran was handed to the executor in exactly one call, whose outcome says
/// how it ended, how long it took, what it logged and what it left behind; and exactly
/// one later call tells that it was retired. No call is about a job that was skipped or found in the cache.
pub proof fn law_run_then_retired(
    setting: Setting,
    replies: Seq<Reply>,
    report: Seq<RecordView>,
    i: int,
)
    requires
        schedule::complete(setting, replies),
        dag::defect(setting.plan.jobs) is None,
        report == machine::report_of(
            setting.plan,
            schedule::progress_after(setting, replies).run,
        ),
        0 <= i < report.len(),
    ensures
        ({
            let calls = schedule::progress_after(setting, replies).calls;
            let job = setting.plan.jobs[i];
            if time_laws::ran(report[i]) {
                handed_over_and_retired(
                    calls,
                    job,
                    report[i].status == Status::Success,
                    report[i].duration,
                    report[i].logs,
                    schedule::progress_after(setting, replies).run.slots[i].outputs,
                )
            } else {
                unheard_of(calls, job.name)
            }
        }),
{
    schedule::lemma_sound(setting, replies);
    lemma_distinct(setting.plan.jobs);
    lemma_heard(setting, replies, i);
    laws::law_every_job_ends(setting, replies, i);
}

/// The calls of an earlier point of a run are the first ones of it.
proof fn lemma_calls_first(setting: Setting, replies: Seq<Reply>, k: int)
    requires
        0 <= k <= replies.len(),
    ensures
        schedule::progress_after(setting, replies.take(k)).calls.is_prefix_of(
            schedule::progress_after(setting, replies).calls,
        ),
    decreases replies.len() - k,
{
    let some = schedule::progress_after(setting, replies.take(k)).calls;
    let all = schedule::progress_after(setting, replies).calls;
    if k == replies.len() {
        assert(replies.take(k) =~= replies);
    } else {
        let before = replies.drop_last();
        let most = schedule::progress_after(setting, before).calls;
        assert(before.take(k) =~= replies.take(k));
        lemma_calls_first(setting, before, k);
        assert(most =~= all.take(most.len() as int));
        assert(some =~= all.take(some.len() as int));
    }
    assert(some =~= all.take(some.len() as int));
}

/// The call that tells that the job `need` was retired stands before the one that hands
/// over the job `name`, where there are both.
pub open spec fn ended_before_start(calls: Seq<Call>, need: Seq<char>, name: Seq<char>) -> bool {
    forall|q: int, p: int|
        0 <= q < calls.len() && 0 <= p < calls.len() && tells_end(#[trigger] calls[q], need)
            && hands_over(#[trigger] calls[p], name) ==> q < p
}

/// What a job needs comes first: it succeeded, was found in the cache or failed with
/// `continue-on-error`; it has the smaller place in the start order; and it had ended
/// when the job began, by the clock and by the calls. Where both ran, the call that
/// tells that the need was retired stands before the one that hands over the job.
pub proof fn law_needs_come_first(
    setting: Setting,
    replies: Seq<Reply>,
    report: Seq<RecordView>,
    j: int,
    d: usize,
)
    requires
        schedule::complete(setting, replies),
        dag::defect(setting.plan.jobs) is None,
        report == machine::report_of(
            setting.plan,
            schedule::progress_after(setting, replies).run,
        ),
        0 <= j < report.len(),
        setting.plan.deps[j].contains(d),
        report[j].status != Status::Skipped,
    ensures
        d < report.len(),
        report[d as int].status == Status::Success || report[d as int].status == Status::Cached || (
        report[d as int].status == Status::Failed
            && setting.plan.jobs[d as int].continue_on_error),
        report[d as int].start_order < report[j].start_order,
        time_laws::end_of(report[d as int]) <= report[j].start_nanos,
        time_laws::total_time(report) <= u64::MAX ==> report[d as int].start_nanos
            + report[d as int].duration.total() <= report[j].start_nanos,
        ended_before_start(
            schedule::progress_after(setting, replies).calls,
            setting.plan.jobs[d as int].name,
            setting.plan.jobs[j].name,
        ),
{
    let plan = setting.plan;
    let calls = schedule::progress_after(setting, replies).calls;
    schedule::lemma_sound(setting, replies);
    laws::law_reported_order(setting, replies, report, j, d);
    if time_laws::total_time(report) <= u64::MAX {
        time_laws::law_ends_after_its_duration(setting, replies, report, d as int);
    }
    assert forall|q: int, p: int|
        0 <= q < calls.len() && 0 <= p < calls.len() && tells_end(
            #[trigger] calls[q],
            plan.jobs[d as int].name,
        ) && hands_over(#[trigger] calls[p], plan.jobs[j].name) implies q < p by {
        lemma_need_retired(setting, replies, j, d, q, p);
    }
}

proof fn lemma_need_retired(
    setting: Setting,
    replies: Seq<Reply>,
    j: int,
    d: usize,
    q: int,
    p: int,
)
    requires
        schedule::complete(setting, replies),
        dag::defect(setting.plan.jobs) is None,
        0 <= j < setting.plan.jobs.len(),
        setting.plan.deps[j].contains(d),
        0 <= q < schedule::progress_after(setting, replies).calls.len(),
        0 <= p < schedule::progress_after(setting, replies).calls.len(),
        tells_end(
            schedule::progress_after(setting, replies).calls[q],
            setting.plan.jobs[d as int].name,
        ),
        hands_over(
            schedule::progress_after(setting, replies).calls[p],
            setting.plan.jobs[j].name,
        ),
    ensures
        q < p,
{
    let plan = setting.plan;
    let i = d as int;
    let last = schedule::progress_after(setting, replies);
    schedule::lemma_sound(setting, replies);
    lemma_distinct(plan.jobs);
    lemma_heard(setting, replies, i);
    lemma_heard(setting, replies, j);
    laws::law_every_job_ends(setting, replies, i);
    laws::law_every_job_ends(setting, replies, j);
    let k = time_laws::lemma_start_moment(setting, replies, j);
    let now = schedule::progress_after(setting, replies.take(k));
    schedule::lemma_sound(setting, replies.take(k));
    lemma_heard(setting, replies.take(k), i);
    lemma_heard(setting, replies.take(k), j);
    lemma_calls_first(setting, replies, k);
    laws::law_records_stay(setting, replies, k, i);
    assert(machine::ready(plan, now.run.slots, j));
    assert(machine::done(now.run.slots, i));
    assert(forall|m: int| 0 <= m < now.calls.len() ==> now.calls[m] == last.calls[m]);
    assert(unheard_of(now.calls, plan.jobs[j].name));
    if p < now.calls.len() {
        assert(!hands_over(now.calls[p], plan.jobs[j].name));
    }
    let status = now.run.slots[i].phase->Done_0;
    let ok = status == Status::Success;
    let slot = now.run.slots[i];
    let (a, b) = choose|a: int, b: int|
        a < b && #[trigger] handed_over_at(now.calls, plan.jobs[i], ok, slot.duration, slot.logs, slot.outputs, a)
            && #[trigger] retired_at(now.calls, plan.jobs[i].name, b);
    assert(tells_end(last.calls[b], plan.jobs[i].name));
    let (e, f) = choose|e: int, f: int|
        e < f && #[trigger] handed_over_at(
            last.calls,
            plan.jobs[i],
            ok,
            slot.duration,
            slot.logs,
            slot.outputs,
            e,
        ) && #[trigger] retired_at(last.calls, plan.jobs[i].name, f);
    assert(q == f);
    assert(b == f);
}

/// In a graph without a defect every need names another job.
proof fn lemma_no_fault(jobs: Seq<JobView>, i: int, k: int)
    requires
        dag::defect(jobs) is None,
        0 <= i,
        0 <= k,
    ensures
        !dag::faulty(jobs, i, k),
    decreases i, k,
{
    if dag::faulty(jobs, i, k) {
        assert forall|a: int, b: int| #[trigger] dag::faulty(jobs, a, b) implies i < a || (i == a
            && k <= b) by {
            if a < i || (a == i && b < k) {
                lemma_no_fault(jobs, a, b);
            }
        }
        assert(dag::first_fault(jobs, i, k));
    }
}

pub proof fn lemma_named(jobs: Seq<JobView>, needs: Seq<Seq<char>>, d: usize)
    requires
        jobs.len() <= usize::MAX,
        distinct(jobs),
        forall|k: int|
            0 <= k < needs.len() ==> pipeline::position(jobs, #[trigger] needs[k]) < jobs.len(),
        d < jobs.len(),
    ensures
        dag::resolve(jobs, needs).contains(d) <==> needs.contains(jobs[d as int].name),
    decreases needs.len(),
{
    if needs.len() > 0 {
        let rest = needs.drop_last();
        let before = dag::resolve(jobs, rest);
        let all = dag::resolve(jobs, needs);
        let name = jobs[d as int].name;
        assert forall|k: int| 0 <= k < rest.len() implies pipeline::position(
            jobs,
            #[trigger] rest[k],
        ) < jobs.len() by {
            assert(needs[k] == rest[k]);
        }
        lemma_named(jobs, rest, d);
        let at = pipeline::position(jobs, needs.last());
        dag::lemma_position_bound(jobs, needs.last());
        assert(at < jobs.len()) by {
            assert(needs[needs.len() - 1] == needs.last());
        }
        assert(at == d <==> needs.last() == name);
        assert(needs =~= rest.push(needs.last()));
        assert(needs.contains(name) <==> rest.contains(name) || needs.last() == name) by {
            if rest.contains(name) {
                let k = choose|k: int| 0 <= k < rest.len() && rest[k] == name;
                assert(needs[k] == name);
            }
            if needs.last() == name {
                assert(needs[needs.len() - 1] == name);
            }
        }
        if !before.contains(at as usize) {
            assert(all == before.push(at as usize));
            assert(all.contains(d) <==> before.contains(d) || at as usize == d) by {
                if before.contains(d) {
                    let k = choose|k: int| 0 <= k < before.len() && before[k] == d;
                    assert(all[k] == d);
                }
                if at as usize == d {
                    assert(all[before.len() as int] == d);
                }
            }
        }
    }
}

/// The jobs that a job depends on are those named in its `needs`.
pub proof fn law_named_needs(jobs: Seq<JobView>, j: int, d: usize)
    requires
        jobs.len() <= usize::MAX,
        dag::defect(jobs) is None,
        0 <= j < jobs.len(),
        d < jobs.len(),
    ensures
        dag::edges(jobs)[j].contains(d) <==> jobs[j].needs.contains(jobs[d as int].name),
{
    lemma_distinct(jobs);
    let needs = jobs[j].needs;
    assert forall|k: int| 0 <= k < needs.len() implies pipeline::position(
        jobs,
        #[trigger] needs[k],
    ) < jobs.len() by {
        lemma_no_fault(jobs, j, k);
        dag::lemma_position_bound(jobs, needs[k]);
    }
    lemma_named(jobs, needs, d);
}

/// Need `k` of job `j` left a blob of that name behind.
pub open spec fn leaves(plan: Plan, slots: Seq<SlotView>, j: int, k: int, name: Seq<char>) -> bool {
    0 <= k < plan.deps[j].len() && executor::by_name(
        slots[plan.deps[j][k] as int].outputs,
    ).contains_key(name)
}

/// The bag holds a blob under a name exactly where some job that `j` needs left one
/// behind, and then that of the last such job in the order of the needs.
pub open spec fn holds_outputs(
    inputs: Seq<(Seq<char>, Seq<u8>)>,
    plan: Plan,
    slots: Seq<SlotView>,
    j: int,
) -> bool {
    forall|name: Seq<char>|
        {
            &&& #[trigger] executor::by_name(inputs).contains_key(name) <==> exists|k: int|
                #[trigger] leaves(plan, slots, j, k, name)
            &&& forall|k: int|
                (#[trigger] leaves(plan, slots, j, k, name) && forall|m: int|
                    m > k ==> !#[trigger] leaves(plan, slots, j, m, name)) ==> executor::by_name(
                    inputs,
                )[name] == executor::by_name(slots[plan.deps[j][k] as int].outputs)[name]
        }
}

/// Among the first `n` of the given jobs, the last that left a blob of that name.
proof fn lemma_merged(slots: Seq<SlotView>, ds: Seq<usize>, name: Seq<char>)
    ensures
        executor::ascending(machine::merged(slots, ds)),
        executor::by_name(machine::merged(slots, ds)).contains_key(name) <==> exists|k: int|
            0 <= k < ds.len() && executor::by_name(
                slots[#[trigger] ds[k] as int].outputs,
            ).contains_key(name),
        forall|k: int|
            0 <= k < ds.len() && executor::by_name(
                slots[#[trigger] ds[k] as int].outputs,
            ).contains_key(name) && (forall|m: int|
                k < m < ds.len() ==> !executor::by_name(
                    slots[#[trigger] ds[m] as int].outputs,
                ).contains_key(name)) ==> executor::by_name(machine::merged(slots, ds))[name]
                == executor::by_name(slots[ds[k] as int].outputs)[name],
    decreases ds.len(),
{
    if ds.len() > 0 {
        let rest = ds.drop_last();
        let n = rest.len() as int;
        let before = machine::merged(slots, rest);
        let last = slots[ds.last() as int].outputs;
        lemma_merged(slots, rest, name);
        executor::law_with_items(before, last);
        executor::law_with_items_ascend(before, last);
        assert(ds[n] == ds.last());
        assert forall|k: int| 0 <= k < n implies ds[k] == #[trigger] rest[k] by {}
        if executor::by_name(before).contains_key(name) {
            let k = choose|k: int|
                0 <= k < rest.len() && executor::by_name(
                    slots[#[trigger] rest[k] as int].outputs,
                ).contains_key(name);
            assert(executor::by_name(slots[ds[k] as int].outputs).contains_key(name));
        }
        if exists|k: int|
            0 <= k < ds.len() && executor::by_name(
                slots[#[trigger] ds[k] as int].outputs,
            ).contains_key(name) {
            let k = choose|k: int|
                0 <= k < ds.len() && executor::by_name(
                    slots[#[trigger] ds[k] as int].outputs,
                ).contains_key(name);
            if k < n {
                assert(executor::by_name(slots[rest[k] as int].outputs).contains_key(name));
            }
        }
        assert forall|k: int|
            0 <= k < ds.len() && executor::by_name(
                slots[#[trigger] ds[k] as int].outputs,
            ).contains_key(name) && (forall|m: int|
                k < m < ds.len() ==> !executor::by_name(
                    slots[#[trigger] ds[m] as int].outputs,
                ).contains_key(name)) implies executor::by_name(
            machine::merged(slots, ds),
        )[name] == executor::by_name(slots[ds[k] as int].outputs)[name] by {
            if k < n {
                assert(!executor::by_name(slots[ds[n] as int].outputs).contains_key(name));
                assert(executor::by_name(slots[rest[k] as int].outputs).contains_key(name));
                assert forall|m: int| k < m < rest.len() implies !executor::by_name(
                    slots[#[trigger] rest[m] as int].outputs,
                ).contains_key(name) by {
                    assert(!executor::by_name(slots[ds[m] as int].outputs).contains_key(name));
                }
            }
        }
    }
}

/// What a job gets are the outputs of all jobs that it needs.
pub proof fn law_inputs_are_outputs(plan: Plan, slots: Seq<SlotView>, j: int)
    ensures
        holds_outputs(machine::inputs_of(plan, slots, j), plan, slots, j),
        executor::ascending(machine::inputs_of(plan, slots, j)),
{
    let ds = plan.deps[j];
    let inputs = machine::inputs_of(plan, slots, j);
    lemma_merged(slots, ds, Seq::empty());
    assert forall|name: Seq<char>|
        {
            &&& #[trigger] executor::by_name(inputs).contains_key(name) <==> exists|k: int|
                #[trigger] leaves(plan, slots, j, k, name)
            &&& forall|k: int|
                (#[trigger] leaves(plan, slots, j, k, name) && forall|m: int|
                    m > k ==> !#[trigger] leaves(plan, slots, j, m, name)) ==> executor::by_name(
                    inputs,
                )[name] == executor::by_name(slots[plan.deps[j][k] as int].outputs)[name]
        } by {
        lemma_merged(slots, ds, name);
        if executor::by_name(inputs).contains_key(name) {
            let k = choose|k: int|
                0 <= k < ds.len() && executor::by_name(
                    slots[#[trigger] ds[k] as int].outputs,
                ).contains_key(name);
            assert(leaves(plan, slots, j, k, name));
        }
        if exists|k: int| #[trigger] leaves(plan, slots, j, k, name) {
            let k = choose|k: int| #[trigger] leaves(plan, slots, j, k, name);
            assert(executor::by_name(slots[ds[k] as int].outputs).contains_key(name));
        }
        assert forall|k: int|
            (#[trigger] leaves(plan, slots, j, k, name) && forall|m: int|
                m > k ==> !#[trigger] leaves(plan, slots, j, m, name)) implies executor::by_name(
            inputs,
        )[name] == executor::by_name(slots[plan.deps[j][k] as int].outputs)[name] by {
            assert(executor::by_name(slots[ds[k] as int].outputs).contains_key(name));
            assert forall|m: int| k < m < ds.len() implies !executor::by_name(
                slots[#[trigger] ds[m] as int].outputs,
            ).contains_key(name) by {
                assert(!leaves(plan, slots, j, m, name));
            }
        }
    }
}

/// The keys that go into the key of a job are those of the jobs it needs, in the order
/// of the needs.
pub proof fn law_keys_of_needs(plan: Plan, slots: Seq<SlotView>, j: int)
    ensures
        machine::dep_keys(plan, slots, j).len() == plan.deps[j].len(),
        forall|k: int|
            0 <= k < plan.deps[j].len() ==> #[trigger] machine::dep_keys(plan, slots, j)[k]
                == slots[plan.deps[j][k] as int].key,
{
}

proof fn lemma_merged_same(a: Seq<SlotView>, b: Seq<SlotView>, ds: Seq<usize>)
    requires
        forall|k: int|
            0 <= k < ds.len() ==> a[#[trigger] ds[k] as int].outputs == b[ds[k] as int].outputs,
    ensures
        machine::merged(a, ds) == machine::merged(b, ds),
    decreases ds.len(),
{
    if ds.len() > 0 {
        let rest = ds.drop_last();
        assert forall|k: int| 0 <= k < rest.len() implies a[#[trigger] rest[k] as int].outputs
            == b[rest[k] as int].outputs by {
            assert(rest[k] == ds[k]);
        }
        lemma_merged_same(a, b, rest);
        assert(ds[ds.len() - 1] == ds.last());
    }
}

/// The outputs of all direct dependencies of a job are handed down to it: in the call
/// that hands over job `j`, a name is among the inputs exactly where some job that it
/// needs has it among its outputs, and stands for the data of the last such job in the
/// order of the needs.
pub proof fn law_inputs_handed_down(setting: Setting, replies: Seq<Reply>, j: int, p: int)
    requires
        schedule::complete(setting, replies),
        dag::defect(setting.plan.jobs) is None,
        0 <= j < setting.plan.jobs.len(),
        0 <= p < schedule::progress_after(setting, replies).calls.len(),
        hands_over(
            schedule::progress_after(setting, replies).calls[p],
            setting.plan.jobs[j].name,
        ),
    ensures
        schedule::progress_after(setting, replies).calls[p] matches Call::Run { inputs, .. }
            && holds_outputs(
            inputs,
            setting.plan,
            schedule::progress_after(setting, replies).run.slots,
            j,
        ),
{
    let plan = setting.plan;
    let last = schedule::progress_after(setting, replies);
    schedule::lemma_sound(setting, replies);
    lemma_distinct(plan.jobs);
    lemma_heard(setting, replies, j);
    laws::law_every_job_ends(setting, replies, j);
    let k = time_laws::lemma_start_moment(setting, replies, j);
    let now = schedule::progress_after(setting, replies.take(k));
    let next = schedule::progress_after(setting, replies.take(k + 1));
    laws::lemma_fit_at(setting, replies, k);
    schedule::lemma_sound(setting, replies.take(k));
    lemma_calls_first(setting, replies, k + 1);
    let n = now.calls.len() as int;
    let inputs = machine::inputs_of(plan, now.run.slots, j);
    assert(next.calls[n] matches Call::Run { job, inputs: i, .. } && job == plan.jobs[j] && i
        == inputs);
    assert(last.calls[n] == next.calls[n]);
    assert(hands_over(last.calls[n], plan.jobs[j].name));
    assert(p == n);
    assert(machine::ready(plan, now.run.slots, j));
    assert forall|m: int| 0 <= m < plan.deps[j].len() implies now.run.slots[
        #[trigger] plan.deps[j][m] as int
    ].outputs == last.run.slots[plan.deps[j][m] as int].outputs by {
        let d = plan.deps[j][m];
        assert(plan.deps[j].contains(d));
        assert(machine::done(now.run.slots, d as int));
        laws::law_records_stay(setting, replies, k, d as int);
    }
    lemma_merged_same(now.run.slots, last.run.slots, plan.deps[j]);
    law_inputs_are_outputs(plan, last.run.slots, j);
}

/// Some job that `i` needs was skipped, or failed without `continue-on-error`.
pub open spec fn is_barred(plan: Plan, report: Seq<RecordView>, i: int) -> bool {
    exists|d: usize| #[trigger]
        plan.deps[i].contains(d) && (report[d as int].status == Status::Skipped || (
        report[d as int].status == Status::Failed && !plan.jobs[d as int].continue_on_error))
}

/// Some job failed without `continue-on-error`.
pub open spec fn has_failure(plan: Plan, report: Seq<RecordView>) -> bool {
    exists|f: int|
        0 <= f < report.len() && (#[trigger] report[f]).status == Status::Failed
            && !plan.jobs[f].continue_on_error
}

/// A job is skipped where a job that it needs was skipped or failed without
/// `continue-on-error`. No other job is skipped, unless `fail-fast` is on and some job
/// failed like that.
pub proof fn law_who_is_skipped(
    setting: Setting,
    replies: Seq<Reply>,
    report: Seq<RecordView>,
    i: int,
)
    requires
        schedule::complete(setting, replies),
        report == machine::report_of(
            setting.plan,
            schedule::progress_after(setting, replies).run,
        ),
        0 <= i < report.len(),
    ensures
        is_barred(setting.plan, report, i) ==> report[i].status == Status::Skipped,
        report[i].status == Status::Skipped ==> is_barred(setting.plan, report, i) || (
        setting.plan.fail_fast && has_failure(setting.plan, report)),
{
    let plan = setting.plan;
    let last = schedule::progress_after(setting, replies).run;
    schedule::lemma_sound(setting, replies);
    laws::law_every_job_ends(setting, replies, i);
    laws::law_skipped(setting, replies, i);
    if is_barred(plan, report, i) {
        let d = choose|d: usize| #[trigger]
            plan.deps[i].contains(d) && (report[d as int].status == Status::Skipped || (
            report[d as int].status == Status::Failed && !plan.jobs[d as int].continue_on_error));
        laws::law_every_job_ends(setting, replies, d as int);
        assert(machine::blocking(plan, last.slots, d as int));
        assert(soundness::held(plan, last.slots, i));
    }
    if soundness::held(plan, last.slots, i) {
        let d = choose|d: usize| #[trigger]
            plan.deps[i].contains(d) && machine::blocking(plan, last.slots, d as int);
        assert(report[d as int].status == Status::Skipped || (report[d as int].status
            == Status::Failed && !plan.jobs[d as int].continue_on_error));
    }
    if last.aborting {
        let f = choose|f: int| #[trigger] soundness::hard_failure(plan, last.slots, f);
        assert(report[f].status == Status::Failed);
    }
}

/// Answer `k` is the entry that was found for job `i`.
pub open spec fn found_at(
    setting: Setting,
    replies: Seq<Reply>,
    i: int,
    k: int,
    entry: EntryView,
) -> bool {
    let p = schedule::progress_after(setting, replies.take(k));
    &&& 0 <= k < replies.len()
    &&& p.run.mode == Mode::Lookup(i as usize)
    &&& replies[k] matches Reply::Entry(Some(e)) && e@ == entry
    &&& p.stored.contains_key(p.run.slots[i].key) && p.stored[p.run.slots[i].key] == entry
}

proof fn lemma_found(setting: Setting, replies: Seq<Reply>, i: int) -> (k: int)
    requires
        soundness::valid_plan(setting.plan),
        schedule::all_fit(setting, replies),
        0 <= i < setting.plan.jobs.len(),
        schedule::progress_after(setting, replies).run.slots[i].phase == Phase::Done(Status::Cached),
    ensures
        0 <= k < replies.len(),
        replies[k] is Entry,
        replies[k]->Entry_0 is Some,
        ({
            let slot = schedule::progress_after(setting, replies).run.slots[i];
            let e = replies[k]->Entry_0->0@;
            &&& found_at(setting, replies, i, k, e)
            &&& slot.logs == e.logs
            &&& slot.outputs == executor::with_items(Seq::empty(), e.artifacts)
        }),
    decreases replies.len(),
{
    if replies.len() == 0 {
        time_laws::lemma_begins(setting.plan);
        0
    } else {
        let before = replies.drop_last();
        let n = before.len() as int;
        let p = schedule::progress_after(setting, before);
        schedule::lemma_sound(setting, before);
        time_laws::lemma_slot_step(setting.plan, p.run, replies.last(), i);
        laws::lemma_follows_step(setting.plan, p.run, replies.last(), i);
        if p.run.slots[i].phase == Phase::Done(Status::Cached) {
            let k = lemma_found(setting, before, i);
            assert(before.take(k) =~= replies.take(k));
            k
        } else {
            assert(replies.take(n) =~= before);
            assert(replies[n] == replies.last());
            match (p.run.mode, replies.last()) {
                (Mode::Probe(m), Reply::Contents(_)) => {
                    assert(machine::pending(p.run.slots, m as int));
                },
                (Mode::Lookup(m), Reply::Entry(_)) => {
                    assert(machine::pending(p.run.slots, m as int));
                },
                (Mode::Start(m), Reply::Outcome(_)) => {
                    assert(machine::pending(p.run.slots, m as int));
                },
                (Mode::Finish(m), Reply::Finished) => {
                    assert(machine::due(p.run.slots, p.run.clock, m as int));
                },
                _ => {},
            }
            n
        }
    }
}

/// A job that is reported as cached takes no time, and its logs and outputs are those of
/// the entry that the store held under its key.
#[verifier::spinoff_prover]
#[verifier::rlimit(30)]
pub proof fn law_cached_record(
    setting: Setting,
    replies: Seq<Reply>,
    report: Seq<RecordView>,
    i: int,
) -> (entry: EntryView)
    requires
        schedule::complete(setting, replies),
        report == machine::report_of(
            setting.plan,
            schedule::progress_after(setting, replies).run,
        ),
        0 <= i < report.len(),
        report[i].status == Status::Cached,
    ensures
        exists|k: int| #[trigger] found_at(setting, replies, i, k, entry),
        report[i].logs == entry.logs,
        report[i].duration.total() == 0,
        executor::by_name(schedule::progress_after(setting, replies).run.slots[i].outputs)
            == executor::by_name(entry.artifacts),
{
    let last = schedule::progress_after(setting, replies).run;
    schedule::lemma_sound(setting, replies);
    laws::law_every_job_ends(setting, replies, i);
    assert(soundness::slot_sound(setting.plan, last, i));
    let k = lemma_found(setting, replies, i);
    let e = replies[k]->Entry_0->0@;
    executor::law_with_items(Seq::empty(), e.artifacts);
    assert(executor::by_name(last.slots[i].outputs) =~= executor::by_name(e.artifacts));
    e
}

/// What a run over a pipeline is made of: its jobs, room for as many at once as the
/// limit says but for one at least, whether to stop at the first failure, where paths
/// are read, and what the cache holds.
pub proof fn law_setting(pipeline: &Pipeline, stored: Map<u64, EntryView>, limits: Limits)
    ensures
        ({
            let setting = schedule::setting_of(pipeline, stored, limits);
            &&& setting.plan.jobs == pipeline@
            &&& setting.plan.deps == dag::edges(pipeline@)
            &&& limits.jobs >= 1 ==> setting.plan.slots == limits.jobs
            &&& limits.jobs == 0 ==> setting.plan.slots == 1
            &&& setting.plan.fail_fast == limits.fail_fast
            &&& setting.base_dir == limits.base_dir@
            &&& setting.stored == stored
        }),
{
}

proof fn lemma_needs_order(jobs: Seq<JobView>, needs: Seq<Seq<char>>)
    requires
        jobs.len() <= usize::MAX,
        forall|k: int|
            0 <= k < needs.len() ==> pipeline::position(jobs, #[trigger] needs[k]) < jobs.len(),
    ensures
        ({
            let ds = dag::resolve(jobs, needs);
            &&& ds.no_duplicates()
            &&& forall|a: int| 0 <= a < ds.len() ==> (#[trigger] ds[a]) < jobs.len()
            &&& forall|a: int, b: int, m: int|
                0 <= a < b < ds.len() && 0 <= m < needs.len() && jobs[#[trigger] ds[b] as int].name
                    == #[trigger] needs[m] ==> mentioned_before(
                    needs,
                    jobs[#[trigger] ds[a] as int].name,
                    m,
                )
        }),
    decreases needs.len(),
{
    let ds = dag::resolve(jobs, needs);
    if needs.len() > 0 {
        let rest = needs.drop_last();
        let before = dag::resolve(jobs, rest);
        let n = rest.len() as int;
        assert forall|k: int| 0 <= k < rest.len() implies pipeline::position(
            jobs,
            #[trigger] rest[k],
        ) < jobs.len() by {
            assert(needs[k] == rest[k]);
        }
        lemma_needs_order(jobs, rest);
        let at = pipeline::position(jobs, needs.last());
        dag::lemma_position_bound(jobs, needs.last());
        assert(at < jobs.len()) by {
            assert(needs[n] == needs.last());
        }
        assert forall|a: int, b: int, m: int|
            0 <= a < b < ds.len() && 0 <= m < needs.len() && jobs[#[trigger] ds[b] as int].name
                == #[trigger] needs[m] implies mentioned_before(
            needs,
            jobs[#[trigger] ds[a] as int].name,
            m,
        ) by {
            let name = jobs[ds[a] as int].name;
            assert(ds[a] == before[a]);
            lemma_mentioned(jobs, rest, before[a]);
            if b < before.len() && m < n {
                assert(ds[b] == before[b]);
                assert(rest[m] == needs[m]);
                assert(mentioned_before(rest, name, m));
                let k = choose|k: int| 0 <= k < m && #[trigger] rest[k] == name;
                assert(needs[k] == name);
            } else if m == n {
                let k = choose|k: int| 0 <= k < rest.len() && #[trigger] rest[k] == name;
                assert(needs[k] == name);
            } else {
                assert(!before.contains(at as usize));
                assert(rest[m] == needs[m]);
                assert(ds[b] == at);
                lemma_resolved(jobs, rest, m);
                assert(jobs[at].name == rest[m]);
            }
        }
    }
}

/// The name is among the needs before place `m`.
pub open spec fn mentioned_before(needs: Seq<Seq<char>>, name: Seq<char>, m: int) -> bool {
    exists|k: int| 0 <= k < m && #[trigger] needs[k] == name
}

/// Whatever is resolved was named.
proof fn lemma_mentioned(jobs: Seq<JobView>, needs: Seq<Seq<char>>, d: usize)
    requires
        jobs.len() <= usize::MAX,
        forall|k: int|
            0 <= k < needs.len() ==> pipeline::position(jobs, #[trigger] needs[k]) < jobs.len(),
        dag::resolve(jobs, needs).contains(d),
    ensures
        exists|k: int| 0 <= k < needs.len() && #[trigger] needs[k] == jobs[d as int].name,
    decreases needs.len(),
{
    if needs.len() > 0 {
        let rest = needs.drop_last();
        let n = rest.len() as int;
        assert forall|k: int| 0 <= k < rest.len() implies pipeline::position(
            jobs,
            #[trigger] rest[k],
        ) < jobs.len() by {
            assert(needs[k] == rest[k]);
        }
        dag::lemma_position_bound(jobs, needs.last());
        assert(needs[n] == needs.last());
        if dag::resolve(jobs, rest).contains(d) {
            lemma_mentioned(jobs, rest, d);
            let k = choose|k: int| 0 <= k < rest.len() && #[trigger] rest[k] == jobs[d as int].name;
            assert(needs[k] == jobs[d as int].name);
        }
    }
}

/// Whatever was named is resolved.
proof fn lemma_resolved(jobs: Seq<JobView>, needs: Seq<Seq<char>>, m: int)
    requires
        0 <= m < needs.len(),
    ensures
        dag::resolve(jobs, needs).contains(pipeline::position(jobs, needs[m]) as usize),
    decreases needs.len(),
{
    let rest = needs.drop_last();
    let before = dag::resolve(jobs, rest);
    let all = dag::resolve(jobs, needs);
    let d = pipeline::position(jobs, needs.last()) as usize;
    if m < rest.len() {
        lemma_resolved(jobs, rest, m);
        let e = pipeline::position(jobs, needs[m]) as usize;
        let k = choose|k: int| 0 <= k < before.len() && before[k] == e;
        assert(all[k] == e);
    } else if !before.contains(d) {
        assert(all[before.len() as int] == d);
    }
}

/// The jobs that a job depends on stand in the order in which its `needs` first name
/// them, each once.
pub proof fn law_needs_in_order(jobs: Seq<JobView>, j: int)
    requires
        jobs.len() <= usize::MAX,
        dag::defect(jobs) is None,
        0 <= j < jobs.len(),
    ensures
        ({
            let ds = dag::edges(jobs)[j];
            &&& ds.no_duplicates()
            &&& forall|a: int| 0 <= a < ds.len() ==> (#[trigger] ds[a]) < jobs.len()
            &&& forall|a: int, b: int, m: int|
                0 <= a < b < ds.len() && 0 <= m < jobs[j].needs.len() && jobs[
                    #[trigger] ds[b] as int
                ].name == #[trigger] jobs[j].needs[m] ==> mentioned_before(
                    jobs[j].needs,
                    jobs[#[trigger] ds[a] as int].name,
                    m,
                )
        }),
{
    let needs = jobs[j].needs;
    assert forall|k: int| 0 <= k < needs.len() implies pipeline::position(
        jobs,
        #[trigger] needs[k],
    ) < jobs.len() by {
        lemma_no_fault(jobs, j, k);
        dag::lemma_position_bound(jobs, needs[k]);
    }
    lemma_needs_order(jobs, needs);
}

proof fn lemma_read(
    base_dir: Seq<char>,
    paths: Seq<Seq<char>>,
    contents: Seq<PathContent>,
    n: int,
    m: int,
)
    requires
        0 <= m < n,
        safepath::confined(paths[m]),
    ensures
        schedule::reads(base_dir, paths, contents, n).contains(
            Call::Read { base_dir, path: paths[m], content: contents[m] },
        ),
    decreases n,
{
    let call = Call::Read { base_dir, path: paths[m], content: contents[m] };
    let all = schedule::reads(base_dir, paths, contents, n);
    if m == n - 1 {
        assert(all[all.len() - 1] == call);
    } else {
        lemma_read(base_dir, paths, contents, n - 1, m);
        let rest = schedule::reads(base_dir, paths, contents, n - 1);
        let k = choose|k: int| 0 <= k < rest.len() && rest[k] == call;
        assert(all[k] == call);
    }
}

/// Every declared path inside the workspace is read, and what was read there is what
/// decides the key: answer `k`, for job `i`, holds for path `m` what a call read at it.
#[verifier::spinoff_prover]
#[verifier::rlimit(30)]
pub proof fn law_paths_are_read(
    setting: Setting,
    replies: Seq<Reply>,
    i: int,
    k: int,
    m: int,
)
    requires
        soundness::valid_plan(setting.plan),
        schedule::all_fit(setting, replies),
        cache_laws::probed(setting, replies, i, k),
        0 <= i < setting.plan.jobs.len(),
        0 <= m < cache::declared(setting.plan.jobs[i]).len(),
    ensures
        replies[k]->Contents_0@.len() == cache::declared(setting.plan.jobs[i]).len(),
        safepath::confined(cache::declared(setting.plan.jobs[i])[m])
            ==> schedule::progress_after(setting, replies).calls.contains(
            Call::Read {
                base_dir: setting.base_dir,
                path: cache::declared(setting.plan.jobs[i])[m],
                content: replies[k]->Contents_0@[m],
            },
        ),
{
    let paths = cache::declared(setting.plan.jobs[i]);
    let c = replies[k]->Contents_0@;
    let now = schedule::progress_after(setting, replies.take(k));
    let next = schedule::progress_after(setting, replies.take(k + 1));
    let last = schedule::progress_after(setting, replies);
    laws::lemma_fit_at(setting, replies, k);
    lemma_calls_first(setting, replies, k + 1);
    schedule::lemma_sound(setting, replies.take(k));
    if safepath::confined(paths[m]) {
        let call = Call::Read { base_dir: setting.base_dir, path: paths[m], content: c[m] };
        lemma_read(setting.base_dir, paths, c, paths.len() as int, m);
        let more = schedule::reads(setting.base_dir, paths, c, paths.len() as int);
        let x = choose|x: int| 0 <= x < more.len() && more[x] == call;
        assert(next.calls[now.calls.len() + x] == call);
        assert(last.calls[now.calls.len() + x] == call);
    }
}

proof fn lemma_reads_confined(
    base_dir: Seq<char>,
    paths: Seq<Seq<char>>,
    contents: Seq<PathContent>,
    n: int,
)
    ensures
        forall|m: int|
            0 <= m < schedule::reads(base_dir, paths, contents, n).len()
                ==> reads_inside(#[trigger] schedule::reads(base_dir, paths, contents, n)[m]),
    decreases n,
{
    if n > 0 {
        lemma_reads_confined(base_dir, paths, contents, n - 1);
        let rest = schedule::reads(base_dir, paths, contents, n - 1);
        let all = schedule::reads(base_dir, paths, contents, n);
        assert forall|m: int| 0 <= m < all.len() implies reads_inside(#[trigger] all[m]) by {
            if m < rest.len() {
                assert(all[m] == rest[m]);
            }
        }
    }
}

/// The call reads nothing outside the workspace.
pub open spec fn reads_inside(call: Call) -> bool {
    call matches Call::Read { path, .. } ==> safepath::confined(path)
}

/// No path outside the workspace is ever read.
pub proof fn law_reads_stay_inside(setting: Setting, replies: Seq<Reply>)
    ensures
        forall|m: int|
            0 <= m < schedule::progress_after(setting, replies).calls.len() ==> reads_inside(
                #[trigger] schedule::progress_after(setting, replies).calls[m],
            ),
    decreases replies.len(),
{
    if replies.len() > 0 {
        let before = replies.drop_last();
        law_reads_stay_inside(setting, before);
        let p = schedule::progress_after(setting, before);
        let more = schedule::calls_for(setting.plan, setting.base_dir, p.run, replies.last());
        if let (Mode::Probe(i), Reply::Contents(c)) = (p.run.mode, replies.last()) {
            let paths = cache::declared(setting.plan.jobs[i as int]);
            lemma_reads_confined(setting.base_dir, paths, c@, paths.len() as int);
        }
        let all = schedule::progress_after(setting, replies).calls;
        assert(all == p.calls + more);
        assert forall|m: int| 0 <= m < all.len() implies reads_inside(#[trigger] all[m]) by {
            if m < p.calls.len() {
                assert(all[m] == p.calls[m]);
            } else {
                assert(all[m] == more[m - p.calls.len()]);
            }
        }
    }
}

} // verus!
