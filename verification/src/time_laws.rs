//! What the times in a report tell: which jobs overlap, what a job waits for, and in
//! which order jobs start and retire.

use vstd::prelude::*;

use crate::cache;
use crate::content::PathContent;
use crate::duration::Duration;
use crate::executor::Call;
use crate::laws;
use crate::machine;
use crate::machine::{Mode, Plan, Reply, RunView, SlotView};
use crate::report::{RecordView, Status};
use crate::safepath;
use crate::schedule;
use crate::schedule::Setting;
use crate::soundness;

verus! {

/// The job was run: it was neither skipped nor found in the cache.
pub open spec fn ran(r: RecordView) -> bool {
    r.status == Status::Success || r.status == Status::Failed
}

/// The instant at which a job ended.
pub open spec fn end_of(r: RecordView) -> u64 {
    machine::later(r.start_nanos, r.duration.ticks())
}

/// The job was running at the instant `t`.
pub open spec fn live_at(r: RecordView, t: int) -> bool {
    ran(r) && r.start_nanos <= t < end_of(r)
}

/// How many jobs were running at the instant `t`.
pub open spec fn live_count(report: Seq<RecordView>, t: int) -> nat
    decreases report.len(),
{
    if report.len() == 0 {
        0
    } else {
        live_count(report.drop_last(), t) + (if live_at(report.last(), t) {
            1nat
        } else {
            0nat
        })
    }
}

/// The time that all jobs took together, in nanoseconds.
pub open spec fn total_time(report: Seq<RecordView>) -> nat
    decreases report.len(),
{
    if report.len() == 0 {
        0
    } else {
        total_time(report.drop_last()) + report.last().duration.total()
    }
}

/// How one answer changes what is known of job `i`, and when.
pub proof fn lemma_slot_step(plan: Plan, run: RunView, reply: Reply, i: int)
    requires
        soundness::sound(plan, run),
        0 <= i < run.slots.len(),
    ensures
        ({
            let next = machine::after_reply(plan, run, reply);
            let a = run.slots[i];
            let b = next.slots[i];
            let starts = run.mode == Mode::Start(i as usize) && reply is Outcome;
            let ends = run.mode == Mode::Finish(i as usize) && reply is Finished;
            &&& next.slots.len() == run.slots.len()
            &&& b.phase is Running <==> (a.phase is Running && !ends) || starts
            &&& laws::was_run(b) <==> laws::was_run(a) || starts
            &&& soundness::started(a) ==> soundness::started(b) && b.start_nanos == a.start_nanos
                && b.duration == a.duration && b.start_order == a.start_order
            &&& a.phase is Running && !ends ==> b == a
            &&& soundness::started(b) && !soundness::started(a) ==> b.start_nanos == run.clock
                && b.start_order == run.counter as usize
            &&& ends ==> a.phase is Running && soundness::finish_time(a) == run.clock
        }),
{
    laws::lemma_follows_step(plan, run, reply, i);
    laws::lemma_was_run_step(plan, run, reply, i);
    assert(soundness::slot_sound(plan, run, i));
    match (run.mode, reply) {
        (Mode::Probe(k), Reply::Contents(_)) => {
            assert(machine::pending(run.slots, k as int));
        },
        (Mode::Lookup(k), Reply::Entry(_)) => {
            assert(machine::pending(run.slots, k as int));
        },
        (Mode::Start(k), Reply::Outcome(_)) => {
            assert(machine::pending(run.slots, k as int));
        },
        (Mode::Finish(k), Reply::Finished) => {
            assert(machine::due(run.slots, run.clock, k as int));
        },
        _ => {},
    }
}

/// The clock does not run back.
proof fn lemma_clock_step(plan: Plan, run: RunView, reply: Reply)
    requires
        soundness::sound(plan, run),
    ensures
        machine::after_reply(plan, run, reply).clock >= run.clock,
{
    let next = machine::after_reply(plan, run, reply);
    soundness::lemma_step(plan, run, reply);
    if let Mode::Finish(k) = next.mode {
        let i = k as int;
        lemma_slot_step(plan, run, reply, i);
        assert(machine::due(next.slots, next.clock, i));
        assert(soundness::slot_sound(plan, run, i));
        assert(soundness::slot_sound(plan, next, i));
    }
}

/// The clock at an earlier point of a run is not ahead.
proof fn lemma_clock(setting: Setting, replies: Seq<Reply>, k: int)
    requires
        soundness::valid_plan(setting.plan),
        0 <= k <= replies.len(),
    ensures
        schedule::progress_after(setting, replies.take(k)).run.clock <= schedule::progress_after(
            setting,
            replies,
        ).run.clock,
    decreases replies.len() - k,
{
    if k == replies.len() {
        assert(replies.take(k) =~= replies);
    } else {
        let before = replies.drop_last();
        assert(before.take(k) =~= replies.take(k));
        lemma_clock(setting, before, k);
        schedule::lemma_sound(setting, before);
        lemma_clock_step(
            setting.plan,
            schedule::progress_after(setting, before).run,
            replies.last(),
        );
    }
}

/// A run begins at zero, with nothing running.
pub proof fn lemma_begins(plan: Plan)
    requires
        soundness::valid_plan(plan),
    ensures
        machine::initial(plan).clock == 0,
        machine::initial(plan).mode !is Finish,
        machine::initial(plan).slots == Seq::new(plan.jobs.len(), |i: int| machine::fresh()),
{
    let slots = Seq::new(plan.jobs.len(), |i: int| machine::fresh());
    soundness::lemma_earliest(slots);
    if machine::earliest(slots) is Some {
        let t = machine::earliest(slots)->0;
        let i = choose|i: int| 0 <= i < slots.len() && #[trigger] machine::due(slots, t, i);
        assert(slots[i] == machine::fresh());
    }
}

/// The answer at which the clock passes `t`.
proof fn lemma_moment(setting: Setting, replies: Seq<Reply>, t: int) -> (k: int)
    requires
        soundness::valid_plan(setting.plan),
        0 <= t < schedule::progress_after(setting, replies).run.clock,
    ensures
        0 <= k < replies.len(),
        schedule::progress_after(setting, replies.take(k)).run.clock <= t,
        t < schedule::progress_after(setting, replies.take(k + 1)).run.clock,
    decreases replies.len(),
{
    if replies.len() == 0 {
        lemma_begins(setting.plan);
        0
    } else {
        let before = replies.drop_last();
        let n = before.len() as int;
        if schedule::progress_after(setting, before).run.clock <= t {
            assert(replies.take(n) =~= before);
            assert(replies.take(n + 1) =~= replies);
            n
        } else {
            let k = lemma_moment(setting, before, t);
            assert(before.take(k) =~= replies.take(k));
            assert(before.take(k + 1) =~= replies.take(k + 1));
            k
        }
    }
}

/// A job that is not started yet starts no earlier than now.
proof fn lemma_late_start(setting: Setting, replies: Seq<Reply>, k: int, i: int)
    requires
        soundness::valid_plan(setting.plan),
        0 <= k <= replies.len(),
        0 <= i < setting.plan.jobs.len(),
        !soundness::started(schedule::progress_after(setting, replies.take(k)).run.slots[i]),
        soundness::started(schedule::progress_after(setting, replies).run.slots[i]),
    ensures
        schedule::progress_after(setting, replies).run.slots[i].start_nanos
            >= schedule::progress_after(setting, replies.take(k)).run.clock,
    decreases replies.len() - k,
{
    if k == replies.len() {
        assert(replies.take(k) =~= replies);
    } else {
        let before = replies.drop_last();
        let run = schedule::progress_after(setting, before).run;
        assert(before.take(k) =~= replies.take(k));
        schedule::lemma_sound(setting, before);
        lemma_slot_step(setting.plan, run, replies.last(), i);
        if soundness::started(run.slots[i]) {
            lemma_late_start(setting, before, k, i);
        } else {
            lemma_clock(setting, before, k);
        }
    }
}

/// When the clock passes `t`, what is running is what the report shows live at `t`.
proof fn lemma_live_one(setting: Setting, replies: Seq<Reply>, k: int, t: int, i: int)
    requires
        schedule::complete(setting, replies),
        0 <= k < replies.len(),
        schedule::progress_after(setting, replies.take(k)).run.clock <= t,
        t < schedule::progress_after(setting, replies.take(k + 1)).run.clock,
        0 <= i < setting.plan.jobs.len(),
    ensures
        ({
            let last = schedule::progress_after(setting, replies).run;
            let slot = schedule::progress_after(setting, replies.take(k + 1)).run.slots[i];
            &&& live_at(machine::record_of(setting.plan, last, i), t) <==> slot.phase is Running
            &&& soundness::started(slot) ==> slot.start_nanos <= t
        }),
{
    let plan = setting.plan;
    let run = schedule::progress_after(setting, replies.take(k)).run;
    let next = schedule::progress_after(setting, replies.take(k + 1)).run;
    let last = schedule::progress_after(setting, replies).run;
    assert(replies.take(k + 1).drop_last() =~= replies.take(k));
    assert(replies.take(k + 1).last() == replies[k]);
    schedule::lemma_sound(setting, replies.take(k));
    schedule::lemma_sound(setting, replies.take(k + 1));
    schedule::lemma_sound(setting, replies);
    lemma_slot_step(plan, run, replies[k], i);
    assert(soundness::slot_sound(plan, run, i));
    assert(soundness::slot_sound(plan, next, i));
    laws::law_every_job_ends(setting, replies, i);
    laws::law_records_stay(setting, replies, k + 1, i);
    if !soundness::started(next.slots[i]) && soundness::started(last.slots[i]) {
        lemma_late_start(setting, replies, k + 1, i);
    }
}

proof fn lemma_same_count(report: Seq<RecordView>, slots: Seq<SlotView>, t: int)
    requires
        report.len() == slots.len(),
        forall|i: int|
            0 <= i < slots.len() ==> (live_at(#[trigger] report[i], t) <==> slots[i].phase is Running),
    ensures
        live_count(report, t) == machine::running_count(slots),
    decreases report.len(),
{
    if report.len() > 0 {
        assert(live_at(report[report.len() - 1], t) <==> slots[slots.len() - 1].phase is Running);
        assert forall|i: int| 0 <= i < slots.drop_last().len() implies (live_at(
            #[trigger] report.drop_last()[i],
            t,
        ) <==> slots.drop_last()[i].phase is Running) by {
            assert(live_at(report[i], t) <==> slots[i].phase is Running);
        }
        lemma_same_count(report.drop_last(), slots.drop_last(), t);
    }
}

proof fn lemma_live_count(
    setting: Setting,
    replies: Seq<Reply>,
    report: Seq<RecordView>,
    k: int,
    t: int,
)
    requires
        schedule::complete(setting, replies),
        report == machine::report_of(
            setting.plan,
            schedule::progress_after(setting, replies).run,
        ),
        0 <= k < replies.len(),
        schedule::progress_after(setting, replies.take(k)).run.clock <= t,
        t < schedule::progress_after(setting, replies.take(k + 1)).run.clock,
    ensures
        live_count(report, t) == machine::running_count(
            schedule::progress_after(setting, replies.take(k + 1)).run.slots,
        ),
{
    let slots = schedule::progress_after(setting, replies.take(k + 1)).run.slots;
    schedule::lemma_sound(setting, replies.take(k + 1));
    schedule::lemma_sound(setting, replies);
    assert forall|i: int| 0 <= i < slots.len() implies (live_at(#[trigger] report[i], t)
        <==> slots[i].phase is Running) by {
        lemma_live_one(setting, replies, k, t, i);
    }
    lemma_same_count(report, slots, t);
}

proof fn lemma_none_live(report: Seq<RecordView>, t: int)
    requires
        forall|i: int| 0 <= i < report.len() ==> !live_at(#[trigger] report[i], t),
    ensures
        live_count(report, t) == 0,
    decreases report.len(),
{
    if report.len() > 0 {
        assert(!live_at(report[report.len() - 1], t));
        assert forall|i: int| 0 <= i < report.drop_last().len() implies !live_at(
            #[trigger] report.drop_last()[i],
            t,
        ) by {
            assert(!live_at(report[i], t));
        }
        lemma_none_live(report.drop_last(), t);
    }
}

/// Never more than N: at every instant at most as many jobs of a report overlap as
/// may run at once.
pub proof fn law_overlap_limit(
    setting: Setting,
    replies: Seq<Reply>,
    report: Seq<RecordView>,
    t: int,
)
    requires
        schedule::complete(setting, replies),
        report == machine::report_of(
            setting.plan,
            schedule::progress_after(setting, replies).run,
        ),
    ensures
        live_count(report, t) <= setting.plan.slots,
{
    let last = schedule::progress_after(setting, replies).run;
    schedule::lemma_sound(setting, replies);
    if 0 <= t < last.clock {
        let k = lemma_moment(setting, replies, t);
        lemma_live_count(setting, replies, report, k, t);
        schedule::lemma_sound(setting, replies.take(k + 1));
    } else {
        assert forall|i: int| 0 <= i < report.len() implies !live_at(#[trigger] report[i], t) by {
            assert(soundness::slot_sound(setting.plan, last, i));
            laws::law_every_job_ends(setting, replies, i);
        }
        lemma_none_live(report, t);
    }
}

/// Every job that job `j` needs has ended by the instant `t`.
pub open spec fn needs_ended(plan: Plan, report: Seq<RecordView>, j: int, t: int) -> bool {
    forall|d: usize| #[trigger] plan.deps[j].contains(d) ==> end_of(report[d as int]) <= t
}

/// No ready job waits while a slot is free: between the end of everything that a job
/// needs and its own start, exactly as many jobs run as may run at once.
pub proof fn law_waits_for_a_slot(
    setting: Setting,
    replies: Seq<Reply>,
    report: Seq<RecordView>,
    j: int,
    t: int,
)
    requires
        schedule::complete(setting, replies),
        report == machine::report_of(
            setting.plan,
            schedule::progress_after(setting, replies).run,
        ),
        0 <= j < report.len(),
        report[j].status != Status::Skipped,
        needs_ended(setting.plan, report, j, t),
        0 <= t < report[j].start_nanos,
    ensures
        live_count(report, t) == setting.plan.slots,
{
    let plan = setting.plan;
    let last = schedule::progress_after(setting, replies).run;
    schedule::lemma_sound(setting, replies);
    assert(soundness::slot_sound(plan, last, j));
    laws::law_every_job_ends(setting, replies, j);
    let k = lemma_moment(setting, replies, t);
    let next = schedule::progress_after(setting, replies.take(k + 1)).run;
    schedule::lemma_sound(setting, replies.take(k + 1));
    lemma_live_count(setting, replies, report, k, t);
    lemma_live_one(setting, replies, k, t, j);
    laws::law_records_stay(setting, replies, k + 1, j);
    assert(machine::pending(next.slots, j));
    assert forall|d: usize| #[trigger] plan.deps[j].contains(d) implies machine::done(
        next.slots,
        d as int,
    ) by {
        let i = d as int;
        assert(end_of(report[i]) <= t);
        laws::law_records_stay(setting, replies, k + 1, i);
        assert(soundness::slot_sound(plan, next, i));
        assert(soundness::started(last.slots[i]));
        if !soundness::started(next.slots[i]) {
            lemma_late_start(setting, replies, k + 1, i);
        }
    }
    assert(machine::ready(plan, next.slots, j));
    assert(replies.take(k).push(replies[k]) =~= replies.take(k + 1));
    laws::law_no_idle_slot(setting, replies.take(k), replies[k]);
}

/// A job that is reported as skipped was never begun: it has no place in the start order,
/// no time and no logs.
pub proof fn law_skipped_record(
    setting: Setting,
    replies: Seq<Reply>,
    report: Seq<RecordView>,
    i: int,
)
    requires
        schedule::complete(setting, replies),
        report == machine::report_of(
            setting.plan,
            schedule::progress_after(setting, replies).run,
        ),
        0 <= i < report.len(),
        report[i].status == Status::Skipped,
    ensures
        report[i].start_order == usize::MAX,
        report[i].start_nanos == 0,
        report[i].duration.total() == 0,
        report[i].logs == Seq::<char>::empty(),
{
    let last = schedule::progress_after(setting, replies).run;
    schedule::lemma_sound(setting, replies);
    laws::law_every_job_ends(setting, replies, i);
    assert(soundness::slot_sound(setting.plan, last, i));
}

/// The clock goes on by what a job takes, and stops at the last instant that it has.
pub proof fn law_clock(t: u64, ticks: nat)
    ensures
        machine::later(t, ticks) >= t,
        t + ticks <= u64::MAX ==> machine::later(t, ticks) == t + ticks,
        t + ticks > u64::MAX ==> machine::later(t, ticks) == u64::MAX,
{
}

/// The time that a job takes on the clock is its duration in nanoseconds, cut to the
/// sixty-four bits of the clock.
pub proof fn law_ticks(d: Duration)
    ensures
        d.ticks() <= u64::MAX,
        d.secs * 1_000_000_000 + d.nanos <= u64::MAX ==> d.ticks() == d.secs * 1_000_000_000
            + d.nanos,
        (d.secs * 1_000_000_000 + d.nanos - d.ticks()) % (u64::MAX + 1) == 0,
{
}

/// A job that is due in between retirements has only just begun.
spec fn due_is_new(run: RunView) -> bool {
    run.mode !is Finish ==> forall|i: int|
        0 <= i < run.slots.len() && #[trigger] machine::due(run.slots, run.clock, i)
            ==> run.slots[i].start_nanos == run.clock
}

proof fn lemma_due_step(plan: Plan, run: RunView, reply: Reply)
    requires
        soundness::sound(plan, run),
        due_is_new(run),
    ensures
        due_is_new(machine::after_reply(plan, run, reply)),
{
    let next = machine::after_reply(plan, run, reply);
    if next.mode !is Finish {
        if let (Mode::Finish(k), Reply::Finished) = (run.mode, reply) {
            let mid = machine::retired(plan, run, k as int);
            soundness::lemma_first_due(mid.slots, mid.clock, 0);
            assert forall|i: int|
                0 <= i < next.slots.len() && #[trigger] machine::due(
                    next.slots,
                    next.clock,
                    i,
                ) implies next.slots[i].start_nanos == next.clock by {
                assert(!machine::due(mid.slots, mid.clock, i));
            }
        } else {
            assert forall|i: int|
                0 <= i < next.slots.len() && #[trigger] machine::due(
                    next.slots,
                    next.clock,
                    i,
                ) implies next.slots[i].start_nanos == next.clock by {
                lemma_slot_step(plan, run, reply, i);
                if run.slots[i].phase is Running {
                    assert(machine::due(run.slots, run.clock, i));
                }
            }
        }
    }
}

proof fn lemma_due(setting: Setting, replies: Seq<Reply>)
    requires
        soundness::valid_plan(setting.plan),
    ensures
        due_is_new(schedule::progress_after(setting, replies).run),
    decreases replies.len(),
{
    if replies.len() == 0 {
        lemma_begins(setting.plan);
    } else {
        lemma_due(setting, replies.drop_last());
        schedule::lemma_sound(setting, replies.drop_last());
        lemma_due_step(
            setting.plan,
            schedule::progress_after(setting, replies.drop_last()).run,
            replies.last(),
        );
    }
}

/// The answer with which job `j` was run.
pub proof fn lemma_start_moment(setting: Setting, replies: Seq<Reply>, j: int) -> (k: int)
    requires
        soundness::valid_plan(setting.plan),
        0 <= j < setting.plan.jobs.len(),
        laws::was_run(schedule::progress_after(setting, replies).run.slots[j]),
    ensures
        0 <= k < replies.len(),
        ({
            let run = schedule::progress_after(setting, replies.take(k)).run;
            let slot = schedule::progress_after(setting, replies).run.slots[j];
            &&& run.mode == Mode::Start(j as usize)
            &&& slot.start_nanos == run.clock
            &&& slot.start_order == run.counter as usize
        }),
    decreases replies.len(),
{
    if replies.len() == 0 {
        lemma_begins(setting.plan);
        0
    } else {
        let before = replies.drop_last();
        let n = before.len() as int;
        let run = schedule::progress_after(setting, before).run;
        schedule::lemma_sound(setting, before);
        lemma_slot_step(setting.plan, run, replies.last(), j);
        if laws::was_run(run.slots[j]) {
            let k = lemma_start_moment(setting, before, j);
            assert(before.take(k) =~= replies.take(k));
            k
        } else {
            assert(replies.take(n) =~= before);
            assert(machine::pending(run.slots, j));
            n
        }
    }
}

/// Every job that job `i` needs began before the instant `t` and has ended by then.
pub open spec fn needs_over(plan: Plan, report: Seq<RecordView>, i: int, t: int) -> bool {
    forall|d: usize| #[trigger]
        plan.deps[i].contains(d) ==> report[d as int].start_nanos < t && end_of(report[d as int])
            <= t
}

/// Among ready jobs the one listed first starts first: of two jobs, where everything
/// that the one listed first needs was over when the other was run, the one listed
/// first has the smaller place in the start order. What took any time and has ended
/// began before.
pub proof fn law_starts_in_config_order(
    setting: Setting,
    replies: Seq<Reply>,
    report: Seq<RecordView>,
    i: int,
    j: int,
)
    requires
        schedule::complete(setting, replies),
        report == machine::report_of(
            setting.plan,
            schedule::progress_after(setting, replies).run,
        ),
        0 <= i < j < report.len(),
        report[i].status != Status::Skipped,
        ran(report[j]),
        needs_over(setting.plan, report, i, report[j].start_nanos as int),
    ensures
        report[i].start_order < report[j].start_order,
{
    let plan = setting.plan;
    let last = schedule::progress_after(setting, replies).run;
    schedule::lemma_sound(setting, replies);
    laws::law_every_job_ends(setting, replies, i);
    laws::law_every_job_ends(setting, replies, j);
    assert(soundness::slot_sound(plan, last, i));
    let k = lemma_start_moment(setting, replies, j);
    let run = schedule::progress_after(setting, replies.take(k)).run;
    schedule::lemma_sound(setting, replies.take(k));
    soundness::lemma_started_count_bound(run.slots);
    laws::law_records_stay(setting, replies, k, i);
    assert(soundness::slot_sound(plan, run, i));
    if !soundness::started(run.slots[i]) {
        assert(machine::pending(run.slots, i));
        assert forall|d: usize| #[trigger] plan.deps[i].contains(d) implies machine::done(
            run.slots,
            d as int,
        ) by {
            let m = d as int;
            assert(end_of(report[m]) <= report[j].start_nanos);
            laws::law_records_stay(setting, replies, k, m);
            assert(soundness::slot_sound(plan, run, m));
            assert(soundness::started(last.slots[m]));
            if !soundness::started(run.slots[m]) {
                lemma_late_start(setting, replies, k, m);
            }
            if run.slots[m].phase is Running {
                lemma_due(setting, replies.take(k));
                assert(machine::due(run.slots, run.clock, m));
            }
        }
        assert(machine::ready(plan, run.slots, i));
        laws::law_config_order(setting, replies.take(k));
    }
}

/// What an ended job adds to the time spent.
spec fn spent_on(slot: SlotView) -> nat {
    if slot.phase is Done {
        slot.duration.total()
    } else {
        0
    }
}

/// The time that the jobs that have ended took together.
spec fn spent(slots: Seq<SlotView>) -> nat
    decreases slots.len(),
{
    if slots.len() == 0 {
        0
    } else {
        spent(slots.drop_last()) + spent_on(slots.last())
    }
}

proof fn lemma_spent_update(slots: Seq<SlotView>, i: int, s: SlotView)
    requires
        0 <= i < slots.len(),
    ensures
        spent(slots.update(i, s)) == spent(slots) - spent_on(slots[i]) + spent_on(s),
    decreases slots.len(),
{
    let next = slots.update(i, s);
    if i == slots.len() - 1 {
        assert(next.drop_last() =~= slots.drop_last());
    } else {
        lemma_spent_update(slots.drop_last(), i, s);
        assert(next.drop_last() =~= slots.drop_last().update(i, s));
    }
}

proof fn lemma_spent_same(a: Seq<SlotView>, b: Seq<SlotView>)
    requires
        a.len() == b.len(),
        forall|i: int| 0 <= i < a.len() ==> spent_on(#[trigger] a[i]) == spent_on(b[i]),
    ensures
        spent(a) == spent(b),
    decreases a.len(),
{
    if a.len() > 0 {
        assert(spent_on(a[a.len() - 1]) == spent_on(b[b.len() - 1]));
        assert forall|i: int| 0 <= i < a.drop_last().len() implies spent_on(
            #[trigger] a.drop_last()[i],
        ) == spent_on(b.drop_last()[i]) by {
            assert(spent_on(a[i]) == spent_on(b[i]));
        }
        lemma_spent_same(a.drop_last(), b.drop_last());
    }
}

/// How one answer changes the time spent.
proof fn lemma_spent_step(plan: Plan, run: RunView, reply: Reply)
    requires
        soundness::sound(plan, run),
    ensures
        spent(machine::after_reply(plan, run, reply).slots) == spent(run.slots) + (match (
            run.mode,
            reply,
        ) {
            (Mode::Finish(i), Reply::Finished) => run.slots[i as int].duration.total(),
            _ => 0,
        }),
{
    match (run.mode, reply) {
        (Mode::Probe(i), Reply::Contents(c)) => {
            let next = machine::after_reply(plan, run, reply);
            assert(machine::pending(run.slots, i as int));
            lemma_spent_update(run.slots, i as int, next.slots[i as int]);
        },
        (Mode::Lookup(i), Reply::Entry(Some(e))) => {
            let mid = machine::hit(plan, run, i as int, e@);
            assert(soundness::slot_sound(plan, run, i as int));
            assert(machine::pending(run.slots, i as int));
            lemma_spent_update(run.slots, i as int, mid.slots[i as int]);
        },
        (Mode::Start(i), Reply::Outcome(o)) => {
            let mid = machine::begun(plan, run, i as int, o);
            assert(machine::pending(run.slots, i as int));
            lemma_spent_update(run.slots, i as int, mid.slots[i as int]);
        },
        (Mode::Finish(i), Reply::Finished) => {
            let mid = machine::retired(plan, run, i as int);
            assert(machine::due(run.slots, run.clock, i as int));
            lemma_spent_update(run.slots, i as int, mid.slots[i as int]);
            let swept = machine::propagate(plan, mid.slots, mid.aborting);
            assert forall|m: int| 0 <= m < mid.slots.len() implies spent_on(
                #[trigger] mid.slots[m],
            ) == spent_on(swept[m]) by {
                assert(soundness::slot_sound(plan, run, m));
            }
            lemma_spent_same(mid.slots, swept);
        },
        _ => {},
    }
}

/// The clock is not ahead of the time that was spent.
spec fn in_time(run: RunView) -> bool {
    &&& run.mode !is Finish ==> run.clock <= spent(run.slots)
    &&& forall|i: int|
        0 <= i < run.slots.len() && soundness::started(#[trigger] run.slots[i])
            ==> run.slots[i].start_nanos + spent_on(run.slots[i]) <= spent(run.slots)
}

proof fn lemma_in_time_step(plan: Plan, run: RunView, reply: Reply)
    requires
        soundness::sound(plan, run),
        in_time(run),
    ensures
        in_time(machine::after_reply(plan, run, reply)),
{
    let next = machine::after_reply(plan, run, reply);
    lemma_spent_step(plan, run, reply);
    if let (Mode::Finish(k), Reply::Finished) = (run.mode, reply) {
        assert(machine::due(run.slots, run.clock, k as int));
        assert(soundness::slot_sound(plan, run, k as int));
        assert(soundness::started(run.slots[k as int]));
        assert(run.slots[k as int].start_nanos <= spent(run.slots));
        assert(run.clock <= spent(next.slots));
    }
    assert forall|i: int|
        0 <= i < next.slots.len() && soundness::started(
            #[trigger] next.slots[i],
        ) implies next.slots[i].start_nanos + spent_on(next.slots[i]) <= spent(next.slots) by {
        lemma_slot_step(plan, run, reply, i);
        assert(soundness::slot_sound(plan, run, i));
        laws::lemma_follows_step(plan, run, reply, i);
        soundness::lemma_step(plan, run, reply);
        assert(soundness::slot_sound(plan, next, i));
    }
}

proof fn lemma_in_time(setting: Setting, replies: Seq<Reply>)
    requires
        soundness::valid_plan(setting.plan),
    ensures
        in_time(schedule::progress_after(setting, replies).run),
    decreases replies.len(),
{
    if replies.len() == 0 {
        lemma_begins(setting.plan);
    } else {
        lemma_in_time(setting, replies.drop_last());
        schedule::lemma_sound(setting, replies.drop_last());
        lemma_in_time_step(
            setting.plan,
            schedule::progress_after(setting, replies.drop_last()).run,
            replies.last(),
        );
    }
}

proof fn lemma_spent_in_all(report: Seq<RecordView>, slots: Seq<SlotView>)
    requires
        report.len() == slots.len(),
        forall|i: int|
            0 <= i < slots.len() ==> (#[trigger] slots[i]).phase is Done && report[i].duration
                == slots[i].duration,
    ensures
        spent(slots) == total_time(report),
    decreases slots.len(),
{
    if slots.len() > 0 {
        assert(slots[slots.len() - 1].phase is Done);
        assert forall|i: int| 0 <= i < slots.drop_last().len() implies (
        #[trigger] slots.drop_last()[i]).phase is Done && report.drop_last()[i].duration
            == slots.drop_last()[i].duration by {
            assert(slots[i].phase is Done);
        }
        lemma_spent_in_all(report.drop_last(), slots.drop_last());
    }
}

/// A job ends when its duration is over, as long as all durations together fit the
/// clock. So what has a duration above zero takes some time.
pub proof fn law_ends_after_its_duration(
    setting: Setting,
    replies: Seq<Reply>,
    report: Seq<RecordView>,
    i: int,
)
    requires
        schedule::complete(setting, replies),
        report == machine::report_of(
            setting.plan,
            schedule::progress_after(setting, replies).run,
        ),
        0 <= i < report.len(),
        total_time(report) <= u64::MAX,
    ensures
        end_of(report[i]) == report[i].start_nanos + report[i].duration.total(),
        report[i].duration.total() > 0 ==> report[i].start_nanos < end_of(report[i]),
{
    let last = schedule::progress_after(setting, replies).run;
    schedule::lemma_sound(setting, replies);
    lemma_in_time(setting, replies);
    assert forall|m: int| 0 <= m < last.slots.len() implies (#[trigger] last.slots[m]).phase is Done
        && report[m].duration == last.slots[m].duration by {
        laws::law_every_job_ends(setting, replies, m);
    }
    lemma_spent_in_all(report, last.slots);
    assert(last.slots[i].phase is Done);
    assert(soundness::slot_sound(setting.plan, last, i));
}

/// The same order of starts by durations: of two jobs, where everything that the one
/// listed first needs has a duration above zero and had ended when the other was run,
/// the one listed first has the smaller place in the start order.
pub proof fn law_durations_keep_config_order(
    setting: Setting,
    replies: Seq<Reply>,
    report: Seq<RecordView>,
    i: int,
    j: int,
)
    requires
        schedule::complete(setting, replies),
        report == machine::report_of(
            setting.plan,
            schedule::progress_after(setting, replies).run,
        ),
        0 <= i < j < report.len(),
        report[i].status != Status::Skipped,
        ran(report[j]),
        total_time(report) <= u64::MAX,
        forall|d: usize| #[trigger]
            setting.plan.deps[i].contains(d) ==> report[d as int].duration.total() > 0
                && report[d as int].start_nanos + report[d as int].duration.total()
                <= report[j].start_nanos,
    ensures
        report[i].start_order < report[j].start_order,
{
    schedule::lemma_sound(setting, replies);
    assert forall|d: usize| #[trigger] setting.plan.deps[i].contains(d) implies report[d as int]
        .start_nanos < report[j].start_nanos && end_of(report[d as int])
        <= report[j].start_nanos by {
        law_ends_after_its_duration(setting, replies, report, d as int);
    }
    law_starts_in_config_order(setting, replies, report, i, j);
}

/// The jobs that were retired, in that order.
pub open spec fn retired_jobs(setting: Setting, replies: Seq<Reply>) -> Seq<usize>
    decreases replies.len(),
{
    if replies.len() == 0 {
        Seq::empty()
    } else {
        let before = retired_jobs(setting, replies.drop_last());
        match (schedule::progress_after(setting, replies.drop_last()).run.mode, replies.last()) {
            (Mode::Finish(i), Reply::Finished) => before.push(i),
            _ => before,
        }
    }
}

/// The names with which the executor was told that a job was retired.
pub open spec fn told_retired(calls: Seq<Call>) -> Seq<Seq<char>>
    decreases calls.len(),
{
    if calls.len() == 0 {
        Seq::empty()
    } else {
        let before = told_retired(calls.drop_last());
        match calls.last() {
            Call::Finish { name } => before.push(name),
            _ => before,
        }
    }
}

proof fn lemma_reads_tell_none(
    calls: Seq<Call>,
    base_dir: Seq<char>,
    paths: Seq<Seq<char>>,
    contents: Seq<PathContent>,
    n: int,
)
    ensures
        told_retired(calls + schedule::reads(base_dir, paths, contents, n)) == told_retired(calls),
    decreases n,
{
    let r = schedule::reads(base_dir, paths, contents, n);
    if n <= 0 {
        assert(calls + r =~= calls);
    } else {
        lemma_reads_tell_none(calls, base_dir, paths, contents, n - 1);
        if safepath::confined(paths[n - 1]) {
            assert((calls + r).drop_last() =~= calls + schedule::reads(
                base_dir,
                paths,
                contents,
                n - 1,
            ));
        }
    }
}

proof fn lemma_told(setting: Setting, replies: Seq<Reply>)
    ensures
        told_retired(schedule::progress_after(setting, replies).calls) == laws::names_of(
            setting.plan,
            retired_jobs(setting, replies),
        ),
    decreases replies.len(),
{
    if replies.len() == 0 {
        assert(laws::names_of(setting.plan, Seq::empty()) =~= Seq::empty());
    } else {
        let before = replies.drop_last();
        let p = schedule::progress_after(setting, before);
        let more = schedule::calls_for(setting.plan, setting.base_dir, p.run, replies.last());
        lemma_told(setting, before);
        match (p.run.mode, replies.last()) {
            (Mode::Probe(i), Reply::Contents(c)) => {
                let paths = cache::declared(setting.plan.jobs[i as int]);
                lemma_reads_tell_none(p.calls, setting.base_dir, paths, c@, paths.len() as int);
            },
            (Mode::Start(_), Reply::Outcome(_)) => {
                assert((p.calls + more).drop_last() =~= p.calls);
            },
            (Mode::Finish(i), Reply::Finished) => {
                assert((p.calls + more).drop_last() =~= p.calls);
                assert(laws::names_of(setting.plan, retired_jobs(setting, replies))
                    =~= laws::names_of(setting.plan, retired_jobs(setting, before)).push(
                    setting.plan.jobs[i as int].name,
                ));
            },
            _ => {
                assert(p.calls + more =~= p.calls);
            },
        }
    }
}

/// Job `a` ends before job `b`, or at the same instant and is listed before it.
spec fn ends_before(slots: Seq<SlotView>, a: int, b: int) -> bool {
    let x = soundness::finish_time(slots[a]);
    let y = soundness::finish_time(slots[b]);
    x < y || (x == y && a < b)
}

/// Every job that was run took some time.
spec fn all_take_time(slots: Seq<SlotView>) -> bool {
    forall|i: int|
        0 <= i < slots.len() && laws::was_run(#[trigger] slots[i]) ==> slots[i].start_nanos
            < soundness::finish_time(slots[i])
}

/// The job was run and has ended.
spec fn is_over(slot: SlotView) -> bool {
    slot.phase is Done && laws::was_run(slot)
}

/// `out` are the jobs that were run and have ended, by their ends, and what still runs
/// ends after them.
spec fn lists_ends(slots: Seq<SlotView>, out: Seq<usize>) -> bool {
    &&& forall|k: int|
        0 <= k < out.len() ==> (#[trigger] out[k]) < slots.len() && is_over(slots[out[k] as int])
    &&& forall|i: int|
        0 <= i < slots.len() && is_over(#[trigger] slots[i]) ==> out.contains(i as usize)
    &&& forall|a: int, b: int|
        0 <= a < b < out.len() ==> ends_before(
            slots,
            #[trigger] out[a] as int,
            #[trigger] out[b] as int,
        )
    &&& forall|a: int, r: int|
        0 <= a < out.len() && 0 <= r < slots.len() && (#[trigger] slots[r]).phase is Running
            ==> ends_before(slots, #[trigger] out[a] as int, r)
}

/// All that one answer can change, of every job.
proof fn lemma_slots_step(plan: Plan, run: RunView, reply: Reply)
    requires
        soundness::sound(plan, run),
    ensures
        ({
            let next = machine::after_reply(plan, run, reply);
            &&& next.slots.len() == run.slots.len()
            &&& forall|i: int|
                0 <= i < run.slots.len() ==> {
                    let a = run.slots[i];
                    let b = #[trigger] next.slots[i];
                    let starts = run.mode == Mode::Start(i as usize) && reply is Outcome;
                    let ends = run.mode == Mode::Finish(i as usize) && reply is Finished;
                    &&& b.phase is Running <==> (a.phase is Running && !ends) || starts
                    &&& is_over(b) <==> is_over(a) || ends
                    &&& laws::was_run(a) ==> laws::was_run(b) && soundness::finish_time(b)
                        == soundness::finish_time(a) && b.start_nanos == a.start_nanos
                    &&& starts ==> b.start_nanos == run.clock && laws::was_run(b)
                    &&& ends ==> a.phase is Running && soundness::finish_time(a) == run.clock
                    &&& is_over(a) ==> soundness::finish_time(a) <= run.clock
                    &&& a.phase is Running ==> soundness::finish_time(a) >= run.clock
                }
        }),
{
    let next = machine::after_reply(plan, run, reply);
    soundness::lemma_step(plan, run, reply);
    assert forall|i: int| 0 <= i < run.slots.len() implies {
        let a = run.slots[i];
        let b = #[trigger] next.slots[i];
        let starts = run.mode == Mode::Start(i as usize) && reply is Outcome;
        let ends = run.mode == Mode::Finish(i as usize) && reply is Finished;
        &&& b.phase is Running <==> (a.phase is Running && !ends) || starts
        &&& is_over(b) <==> is_over(a) || ends
        &&& laws::was_run(a) ==> laws::was_run(b) && soundness::finish_time(b)
            == soundness::finish_time(a) && b.start_nanos == a.start_nanos
        &&& starts ==> b.start_nanos == run.clock && laws::was_run(b)
        &&& ends ==> a.phase is Running && soundness::finish_time(a) == run.clock
        &&& is_over(a) ==> soundness::finish_time(a) <= run.clock
        &&& a.phase is Running ==> soundness::finish_time(a) >= run.clock
    } by {
        lemma_slot_step(plan, run, reply, i);
        assert(soundness::slot_sound(plan, run, i));
        if run.mode == Mode::Start(i as usize) {
            assert(machine::pending(run.slots, i));
        }
    }
}

proof fn lemma_lists_ends_step(plan: Plan, run: RunView, reply: Reply, out: Seq<usize>)
    requires
        soundness::sound(plan, run),
        lists_ends(run.slots, out),
        all_take_time(machine::after_reply(plan, run, reply).slots),
    ensures
        lists_ends(
            machine::after_reply(plan, run, reply).slots,
            match (run.mode, reply) {
                (Mode::Finish(i), Reply::Finished) => out.push(i),
                _ => out,
            },
        ),
{
    let slots = run.slots;
    let next = machine::after_reply(plan, run, reply).slots;
    let more = match (run.mode, reply) {
        (Mode::Finish(i), Reply::Finished) => out.push(i),
        _ => out,
    };
    lemma_slots_step(plan, run, reply);
    let n = out.len() as int;
    assert(forall|k: int| 0 <= k < n ==> more[k] == out[k]);
    assert forall|k: int| 0 <= k < more.len() implies (#[trigger] more[k]) < next.len() && is_over(
        next[more[k] as int],
    ) by {
        if k < n {
            assert(is_over(slots[out[k] as int]));
        } else {
            assert(machine::due(slots, run.clock, more[k] as int));
        }
        assert(is_over(next[more[k] as int]));
    }
    assert forall|i: int| 0 <= i < next.len() && is_over(
        #[trigger] next[i],
    ) implies more.contains(i as usize) by {
        if is_over(slots[i]) {
            assert(out.contains(i as usize));
            let k = choose|k: int| 0 <= k < out.len() && out[k] == i as usize;
            assert(more[k] == i as usize);
        } else {
            assert(more[n] == i as usize);
        }
    }
    assert forall|a: int, b: int| 0 <= a < b < more.len() implies ends_before(
        next,
        #[trigger] more[a] as int,
        #[trigger] more[b] as int,
    ) by {
        assert(is_over(slots[out[a] as int]));
        assert(is_over(next[more[a] as int]));
        if b < n {
            assert(ends_before(slots, out[a] as int, out[b] as int));
            assert(is_over(slots[out[b] as int]));
            assert(is_over(next[more[b] as int]));
        } else {
            let r = more[b] as int;
            assert(is_over(next[r]));
            assert(slots[r].phase is Running);
            assert(ends_before(slots, out[a] as int, r));
        }
    }
    assert forall|a: int, r: int|
        0 <= a < more.len() && 0 <= r < next.len() && (
        #[trigger] next[r]).phase is Running implies ends_before(
        next,
        #[trigger] more[a] as int,
        r,
    ) by {
        assert(is_over(next[more[a] as int]));
        if a < n {
            assert(is_over(slots[out[a] as int]));
            if slots[r].phase is Running {
                assert(ends_before(slots, out[a] as int, r));
            } else {
                assert(next[r].start_nanos == run.clock);
                assert(laws::was_run(next[r]));
            }
        } else {
            assert(slots[r].phase is Running);
            assert(soundness::slot_sound(plan, run, r));
            if soundness::finish_time(slots[r]) == run.clock {
                assert(machine::due(slots, run.clock, r));
            }
        }
    }
}

proof fn lemma_lists_ends(setting: Setting, replies: Seq<Reply>)
    requires
        soundness::valid_plan(setting.plan),
        all_take_time(schedule::progress_after(setting, replies).run.slots),
    ensures
        lists_ends(
            schedule::progress_after(setting, replies).run.slots,
            retired_jobs(setting, replies),
        ),
    decreases replies.len(),
{
    if replies.len() == 0 {
        lemma_begins(setting.plan);
    } else {
        let before = replies.drop_last();
        let run = schedule::progress_after(setting, before).run;
        let next = schedule::progress_after(setting, replies).run;
        schedule::lemma_sound(setting, before);
        lemma_slots_step(setting.plan, run, replies.last());
        assert forall|i: int| 0 <= i < run.slots.len() && laws::was_run(
            #[trigger] run.slots[i],
        ) implies run.slots[i].start_nanos < soundness::finish_time(run.slots[i]) by {
            assert(laws::was_run(next.slots[i]));
        }
        lemma_lists_ends(setting, before);
        lemma_lists_ends_step(
            setting.plan,
            run,
            replies.last(),
            retired_jobs(setting, before),
        );
    }
}

/// Job `a` ended before job `b`, or at the same instant and is listed before it.
pub open spec fn ended_before(report: Seq<RecordView>, a: int, b: int) -> bool {
    end_of(report[a]) < end_of(report[b]) || (end_of(report[a]) == end_of(report[b]) && a < b)
}

/// Jobs retire by their ends, and at the same instant in config order: where every job
/// that was run took some time, the executor is told of exactly those jobs, each once,
/// in that order.
pub proof fn law_retires_in_order(
    setting: Setting,
    replies: Seq<Reply>,
    report: Seq<RecordView>,
)
    requires
        schedule::complete(setting, replies),
        report == machine::report_of(
            setting.plan,
            schedule::progress_after(setting, replies).run,
        ),
        forall|i: int|
            0 <= i < report.len() && ran(#[trigger] report[i]) ==> report[i].start_nanos < end_of(
                report[i],
            ),
    ensures
        ({
            let out = retired_jobs(setting, replies);
            &&& told_retired(schedule::progress_after(setting, replies).calls) == laws::names_of(
                setting.plan,
                out,
            )
            &&& forall|k: int|
                0 <= k < out.len() ==> (#[trigger] out[k]) < report.len() && ran(
                    report[out[k] as int],
                )
            &&& forall|i: int|
                0 <= i < report.len() && ran(#[trigger] report[i]) ==> out.contains(i as usize)
            &&& forall|a: int, b: int|
                0 <= a < b < out.len() ==> ended_before(
                    report,
                    #[trigger] out[a] as int,
                    #[trigger] out[b] as int,
                )
        }),
{
    let out = retired_jobs(setting, replies);
    let last = schedule::progress_after(setting, replies).run;
    schedule::lemma_sound(setting, replies);
    assert forall|i: int| 0 <= i < report.len() implies ran(#[trigger] report[i]) == is_over(
        last.slots[i],
    ) && end_of(report[i]) == soundness::finish_time(last.slots[i]) && laws::was_run(
        last.slots[i],
    ) == ran(report[i]) by {
        laws::law_every_job_ends(setting, replies, i);
    }
    assert forall|i: int| 0 <= i < last.slots.len() && laws::was_run(
        #[trigger] last.slots[i],
    ) implies last.slots[i].start_nanos < soundness::finish_time(last.slots[i]) by {
        assert(ran(report[i]));
    }
    lemma_lists_ends(setting, replies);
    lemma_told(setting, replies);
    assert forall|k: int| 0 <= k < out.len() implies (#[trigger] out[k]) < report.len() && ran(
        report[out[k] as int],
    ) by {
        assert(is_over(last.slots[out[k] as int]));
    }
    assert forall|i: int| 0 <= i < report.len() && ran(
        #[trigger] report[i],
    ) implies out.contains(i as usize) by {
        assert(is_over(last.slots[i]));
    }
    assert forall|a: int, b: int| 0 <= a < b < out.len() implies ended_before(
        report,
        #[trigger] out[a] as int,
        #[trigger] out[b] as int,
    ) by {
        assert(ends_before(last.slots, out[a] as int, out[b] as int));
        assert(ran(report[out[a] as int]));
        assert(ran(report[out[b] as int]));
    }
}

} // verus!
