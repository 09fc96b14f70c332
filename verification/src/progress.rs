//! Why every run comes to an end.

use vstd::prelude::*;

use crate::machine;
use crate::machine::{Mode, Phase, Plan, Reply, RunView, SlotView};
use crate::soundness;

verus! {

/// How many jobs are pending.
pub open spec fn pending_count(slots: Seq<SlotView>) -> nat
    decreases slots.len(),
{
    if slots.len() == 0 {
        0
    } else {
        pending_count(slots.drop_last()) + (if slots.last().phase == Phase::Pending {
            1nat
        } else {
            0nat
        })
    }
}

pub proof fn lemma_pending_count_update(slots: Seq<SlotView>, i: int, s: SlotView)
    requires
        0 <= i < slots.len(),
    ensures
        pending_count(slots.update(i, s)) == pending_count(slots) - (if slots[i].phase
            == Phase::Pending {
            1int
        } else {
            0
        }) + (if s.phase == Phase::Pending {
            1int
        } else {
            0
        }),
    decreases slots.len(),
{
    let u = slots.update(i, s);
    if i == slots.len() - 1 {
        assert(u.drop_last() =~= slots.drop_last());
    } else {
        lemma_pending_count_update(slots.drop_last(), i, s);
        assert(u.drop_last() =~= slots.drop_last().update(i, s));
        assert(u.last() == slots.last());
    }
}

/// How far what the machine waits for is from the end of a scan over the jobs.
pub open spec fn scan_left(run: RunView) -> int {
    match run.mode {
        Mode::Probe(i) => 3 * (run.slots.len() - i) + 2,
        Mode::Lookup(i) => 3 * (run.slots.len() - i) + 1,
        _ => 0,
    }
}

/// The work left, each job counted once for its start and once for its end.
pub open spec fn work_left(run: RunView) -> nat {
    2 * pending_count(run.slots) + machine::running_count(run.slots)
}

/// More than the answers that a run can still take.
pub open spec fn fuel(run: RunView) -> int {
    work_left(run) * (3 * run.slots.len() + 3) + scan_left(run)
}

/// The answer is one that the machine waits for.
pub open spec fn answers(mode: Mode, reply: Reply) -> bool {
    match (mode, reply) {
        (Mode::Probe(_), Reply::Contents(_)) => true,
        (Mode::Lookup(_), Reply::Entry(_)) => true,
        (Mode::Start(_), Reply::Outcome(_)) => true,
        (Mode::Finish(_), Reply::Finished) => true,
        _ => false,
    }
}

proof fn lemma_less_work(a: RunView, b: RunView)
    requires
        a.slots.len() == b.slots.len(),
        work_left(b) < work_left(a),
        0 <= scan_left(b) < 3 * b.slots.len() + 3,
        0 <= scan_left(a),
    ensures
        fuel(b) < fuel(a),
{
    let k = 3 * a.slots.len() + 3;
    let x = work_left(a);
    let y = work_left(b);
    assert(y * k + k <= x * k) by (nonlinear_arith)
        requires
            y + 1 <= x,
            k >= 0,
    ;
}

/// There is no less than nothing left to do.
pub proof fn lemma_fuel(plan: Plan, run: RunView)
    requires
        soundness::sound(plan, run),
    ensures
        fuel(run) >= 0,
{
    lemma_scan_bound(plan, run);
    assert(work_left(run) * (3 * run.slots.len() + 3) >= 0) by (nonlinear_arith)
        requires
            work_left(run) >= 0,
    ;
}

proof fn lemma_scan_bound(plan: Plan, run: RunView)
    requires
        soundness::sound(plan, run),
    ensures
        0 <= scan_left(run) < 3 * run.slots.len() + 3,
{
}

/// Skipping jobs adds no pending one.
proof fn lemma_fewer_pending(a: Seq<SlotView>, b: Seq<SlotView>)
    requires
        a.len() == b.len(),
        forall|i: int|
            0 <= i < a.len() && (#[trigger] b[i]).phase == Phase::Pending ==> a[i].phase
                == Phase::Pending,
    ensures
        pending_count(b) <= pending_count(a),
    decreases a.len(),
{
    if a.len() > 0 {
        assert(b[b.len() - 1] == b.last());
        lemma_fewer_pending(a.drop_last(), b.drop_last());
    }
}

pub proof fn lemma_same_running(a: Seq<SlotView>, b: Seq<SlotView>)
    requires
        a.len() == b.len(),
        forall|i: int|
            0 <= i < a.len() ==> ((#[trigger] a[i]).phase is Running <==> b[i].phase is Running),
    ensures
        machine::running_count(a) == machine::running_count(b),
    decreases a.len(),
{
    if a.len() > 0 {
        assert(a[a.len() - 1] == a.last());
        lemma_same_running(a.drop_last(), b.drop_last());
    }
}

/// Every answer brings the run nearer to its end.
pub proof fn lemma_progress(plan: Plan, run: RunView, reply: Reply)
    requires
        soundness::sound(plan, run),
        answers(run.mode, reply),
    ensures
        0 <= fuel(machine::after_reply(plan, run, reply)) < fuel(run),
{
    let next = machine::after_reply(plan, run, reply);
    soundness::lemma_step(plan, run, reply);
    lemma_scan_bound(plan, run);
    lemma_scan_bound(plan, next);
    lemma_fuel(plan, next);
    match (run.mode, reply) {
        (Mode::Probe(i), Reply::Contents(c)) => {
            lemma_pending_count_update(run.slots, i as int, next.slots[i as int]);
            soundness::lemma_running_count_update(run.slots, i as int, next.slots[i as int]);
        },
        (Mode::Lookup(i), Reply::Entry(found)) => {
            match found {
                Some(e) => {
                    let mid = machine::hit(plan, run, i as int, e@);
                    lemma_pending_count_update(run.slots, i as int, mid.slots[i as int]);
                    soundness::lemma_running_count_update(
                        run.slots,
                        i as int,
                        mid.slots[i as int],
                    );
                    lemma_less_work(run, next);
                },
                None => {
                    soundness::lemma_first_ready(plan, run.slots, i + 1);
                },
            }
        },
        (Mode::Start(i), Reply::Outcome(o)) => {
            let mid = machine::begun(plan, run, i as int, o);
            lemma_pending_count_update(run.slots, i as int, mid.slots[i as int]);
            soundness::lemma_running_count_update(run.slots, i as int, mid.slots[i as int]);
            lemma_less_work(run, next);
        },
        (Mode::Finish(i), Reply::Finished) => {
            let mid = machine::retired(plan, run, i as int);
            lemma_pending_count_update(run.slots, i as int, mid.slots[i as int]);
            soundness::lemma_running_count_update(run.slots, i as int, mid.slots[i as int]);
            let swept = machine::propagate(plan, mid.slots, mid.aborting);
            lemma_fewer_pending(mid.slots, swept);
            lemma_same_running(mid.slots, swept);
            lemma_less_work(run, next);
        },
        _ => {},
    }
}

} // verus!
