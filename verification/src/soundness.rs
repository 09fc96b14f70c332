//! What every state of a run keeps, whatever the answers were.

use vstd::prelude::*;

use crate::dag;
use crate::duration::Duration;
use crate::machine;
use crate::machine::{Mode, Phase, Plan, Reply, RunView, SlotView};
use crate::report::Status;

verus! {

/// A plan over an acyclic graph, with room for at least one job at a time.
pub open spec fn valid_plan(plan: Plan) -> bool {
    &&& plan.jobs.len() <= usize::MAX
    &&& plan.deps.len() == plan.jobs.len()
    &&& plan.slots >= 1
    &&& dag::is_leveling(plan.deps, plan.levels)
}

/// The job was started, or resolved from the cache.
pub open spec fn started(slot: SlotView) -> bool {
    match slot.phase {
        Phase::Pending => false,
        Phase::Running { .. } => true,
        Phase::Done(s) => s != Status::Skipped,
    }
}

/// The instant at which a started job ends.
pub open spec fn finish_time(slot: SlotView) -> u64 {
    machine::later(slot.start_nanos, slot.duration.ticks())
}

/// How many jobs were started.
pub open spec fn started_count(slots: Seq<SlotView>) -> nat
    decreases slots.len(),
{
    if slots.len() == 0 {
        0
    } else {
        started_count(slots.drop_last()) + (if started(slots.last()) {
            1nat
        } else {
            0nat
        })
    }
}

/// Everything that job `i` needs ended before it began, in a way that lets it pass.
pub open spec fn deps_passed(plan: Plan, slots: Seq<SlotView>, i: int) -> bool {
    forall|d: usize| #[trigger]
        plan.deps[i].contains(d) ==> {
            &&& machine::done(slots, d as int)
            &&& !machine::blocking(plan, slots, d as int)
            &&& slots[d as int].start_order < slots[i].start_order
            &&& finish_time(slots[d as int]) <= slots[i].start_nanos
        }
}

/// Nothing was recorded for the job.
pub open spec fn untouched(slot: SlotView) -> bool {
    &&& slot.outputs == Seq::<(Seq<char>, Seq<u8>)>::empty()
    &&& slot.logs == Seq::<char>::empty()
    &&& slot.start_order == usize::MAX
    &&& slot.start_nanos == 0
    &&& slot.duration == (Duration { secs: 0, nanos: 0 })
}

/// Some job that `i` needs is blocking.
pub open spec fn held(plan: Plan, slots: Seq<SlotView>, i: int) -> bool {
    exists|d: usize| #[trigger]
        plan.deps[i].contains(d) && machine::blocking(plan, slots, d as int)
}

/// What holds of one job.
pub open spec fn slot_sound(plan: Plan, run: RunView, i: int) -> bool {
    let slot = run.slots[i];
    let begun = slot.start_order < run.counter && slot.start_nanos <= run.clock && deps_passed(
        plan,
        run.slots,
        i,
    );
    match slot.phase {
        Phase::Pending => untouched(slot),
        Phase::Running { finish, .. } => begun && finish == finish_time(slot) && run.clock
            <= finish,
        Phase::Done(s) => match s {
            Status::Skipped => untouched(slot) && (run.aborting || held(plan, run.slots, i)),
            Status::Cached => begun && slot.duration == (Duration { secs: 0, nanos: 0 }),
            _ => begun && finish_time(slot) <= run.clock,
        },
    }
}

/// Started jobs have their own places in the start order, and time does not run
/// back along it.
pub open spec fn ordered(slots: Seq<SlotView>) -> bool {
    forall|i: int, j: int|
        0 <= i < slots.len() && 0 <= j < slots.len() && i != j && started(#[trigger] slots[i])
            && started(#[trigger] slots[j]) ==> {
            &&& slots[i].start_order != slots[j].start_order
            &&& slots[i].start_order < slots[j].start_order ==> slots[i].start_nanos
                <= slots[j].start_nanos
        }
}

/// A failure that is not passed over.
pub open spec fn hard_failure(plan: Plan, slots: Seq<SlotView>, f: int) -> bool {
    &&& 0 <= f < slots.len()
    &&& slots[f].phase == Phase::Done(Status::Failed)
    &&& !plan.jobs[f].continue_on_error
}

/// What holds in every state, whatever the machine waits for.
pub open spec fn steady(plan: Plan, run: RunView) -> bool {
    &&& valid_plan(plan)
    &&& run.slots.len() == plan.jobs.len()
    &&& forall|i: int| 0 <= i < run.slots.len() ==> #[trigger] slot_sound(plan, run, i)
    &&& machine::running_count(run.slots) <= plan.slots
    &&& run.counter == started_count(run.slots)
    &&& ordered(run.slots)
    &&& run.aborting <==> plan.fail_fast && exists|f: int| #[trigger]
        hard_failure(plan, run.slots, f)
}

/// No pending job is to be skipped.
pub open spec fn calm(plan: Plan, run: RunView) -> bool {
    forall|i: int|
        0 <= i < run.slots.len() && #[trigger] machine::pending(run.slots, i) ==> !run.aborting
            && !held(plan, run.slots, i)
}

/// Ready jobs before `i` find no room.
pub open spec fn scanned(plan: Plan, run: RunView, i: int) -> bool {
    forall|j: int|
        0 <= j < i && #[trigger] machine::ready(plan, run.slots, j) ==> machine::running_count(
            run.slots,
        ) >= plan.slots
}

/// What holds of what the machine waits for.
pub open spec fn mode_sound(plan: Plan, run: RunView) -> bool {
    match run.mode {
        Mode::Probe(i) => machine::ready(plan, run.slots, i as int) && calm(plan, run) && scanned(
            plan,
            run,
            i as int,
        ),
        Mode::Lookup(i) => machine::ready(plan, run.slots, i as int) && calm(plan, run) && scanned(
            plan,
            run,
            i as int,
        ),
        Mode::Start(i) => machine::ready(plan, run.slots, i as int) && calm(plan, run) && scanned(
            plan,
            run,
            i as int,
        ) && machine::running_count(run.slots) < plan.slots,
        Mode::Finish(i) => {
            &&& i < run.slots.len()
            &&& machine::due(run.slots, run.clock, i as int)
            &&& forall|j: int| 0 <= j < i ==> !#[trigger] machine::due(run.slots, run.clock, j)
        },
        Mode::Halt => {
            &&& calm(plan, run)
            &&& forall|j: int| !#[trigger] machine::ready(plan, run.slots, j)
            &&& forall|j: int| 0 <= j < run.slots.len() ==> !#[trigger] machine::running(run.slots, j)
        },
    }
}

/// What every state of a run keeps.
pub open spec fn sound(plan: Plan, run: RunView) -> bool {
    steady(plan, run) && mode_sound(plan, run)
}

pub proof fn lemma_running_count_update(slots: Seq<SlotView>, i: int, s: SlotView)
    requires
        0 <= i < slots.len(),
    ensures
        machine::running_count(slots.update(i, s)) == machine::running_count(slots) - (
        if slots[i].phase is Running {
            1int
        } else {
            0
        }) + (if s.phase is Running {
            1int
        } else {
            0
        }),
    decreases slots.len(),
{
    let u = slots.update(i, s);
    if i == slots.len() - 1 {
        assert(u.drop_last() =~= slots.drop_last());
    } else {
        lemma_running_count_update(slots.drop_last(), i, s);
        assert(u.drop_last() =~= slots.drop_last().update(i, s));
        assert(u.last() == slots.last());
    }
}

pub proof fn lemma_started_count_update(slots: Seq<SlotView>, i: int, s: SlotView)
    requires
        0 <= i < slots.len(),
    ensures
        started_count(slots.update(i, s)) == started_count(slots) - (if started(slots[i]) {
            1int
        } else {
            0
        }) + (if started(s) {
            1int
        } else {
            0
        }),
    decreases slots.len(),
{
    let u = slots.update(i, s);
    if i == slots.len() - 1 {
        assert(u.drop_last() =~= slots.drop_last());
    } else {
        lemma_started_count_update(slots.drop_last(), i, s);
        assert(u.drop_last() =~= slots.drop_last().update(i, s));
        assert(u.last() == slots.last());
    }
}

/// A job that was not started leaves room in the count.
pub proof fn lemma_started_count_bound(slots: Seq<SlotView>)
    ensures
        started_count(slots) <= slots.len(),
        (exists|i: int| 0 <= i < slots.len() && !started(#[trigger] slots[i])) ==> started_count(
            slots,
        ) < slots.len(),
    decreases slots.len(),
{
    if slots.len() > 0 {
        let rest = slots.drop_last();
        lemma_started_count_bound(rest);
        if exists|i: int| 0 <= i < slots.len() && !started(#[trigger] slots[i]) {
            let i = choose|i: int| 0 <= i < slots.len() && !started(#[trigger] slots[i]);
            if i < rest.len() {
                assert(!started(rest[i]));
            }
        }
    }
}

pub proof fn lemma_first_ready(plan: Plan, slots: Seq<SlotView>, from: int)
    requires
        0 <= from <= slots.len(),
    ensures
        match machine::first_ready(plan, slots, from) {
            Some(i) => from <= i < slots.len() && machine::ready(plan, slots, i) && forall|j: int|
                from <= j < i ==> !#[trigger] machine::ready(plan, slots, j),
            None => forall|j: int| from <= j ==> !#[trigger] machine::ready(plan, slots, j),
        },
    decreases slots.len() - from,
{
    if from < slots.len() && !machine::ready(plan, slots, from) {
        lemma_first_ready(plan, slots, from + 1);
    }
}

pub proof fn lemma_first_due(slots: Seq<SlotView>, t: u64, from: int)
    requires
        0 <= from <= slots.len(),
    ensures
        match machine::first_due(slots, t, from) {
            Some(i) => from <= i < slots.len() && machine::due(slots, t, i) && forall|j: int|
                from <= j < i ==> !#[trigger] machine::due(slots, t, j),
            None => forall|j: int|
                from <= j < slots.len() ==> !#[trigger] machine::due(slots, t, j),
        },
    decreases slots.len() - from,
{
    if from < slots.len() && !machine::due(slots, t, from) {
        lemma_first_due(slots, t, from + 1);
    }
}

pub proof fn lemma_earliest(slots: Seq<SlotView>)
    ensures
        match machine::earliest(slots) {
            Some(t) => {
                &&& exists|i: int| 0 <= i < slots.len() && #[trigger] machine::due(slots, t, i)
                &&& forall|i: int|
                    0 <= i < slots.len() && #[trigger] machine::running(slots, i) ==> t
                        <= slots[i].phase->finish
            },
            None => forall|i: int|
                0 <= i < slots.len() ==> !#[trigger] machine::running(slots, i),
        },
    decreases slots.len(),
{
    if slots.len() > 0 {
        let rest = slots.drop_last();
        let n = slots.len() - 1;
        lemma_earliest(rest);
        assert forall|i: int| 0 <= i < n implies (machine::running(rest, i) == #[trigger] machine::running(
            slots,
            i,
        )) by {
            assert(rest[i] == slots[i]);
        }
        if let Some(t) = machine::earliest(slots) {
            if let Some(r) = machine::earliest(rest) {
                let i = choose|i: int| 0 <= i < rest.len() && #[trigger] machine::due(rest, r, i);
                assert(rest[i] == slots[i]);
                if t == r {
                    assert(machine::due(slots, t, i));
                } else {
                    assert(machine::due(slots, t, n));
                }
            } else {
                assert(machine::due(slots, t, n));
            }
            assert forall|i: int|
                0 <= i < slots.len() && #[trigger] machine::running(slots, i) implies t
                <= slots[i].phase->finish by {
                if i < n {
                    assert(machine::running(rest, i));
                }
            }
        } else {
            assert forall|i: int| 0 <= i < slots.len() implies !#[trigger] machine::running(
                slots,
                i,
            ) by {
                if i < n {
                    assert(!machine::running(rest, i));
                }
            }
        }
    }
}

/// Going on to what comes next keeps the state sound.
pub proof fn lemma_settle(plan: Plan, run: RunView, from: int)
    requires
        steady(plan, run),
        calm(plan, run),
        0 <= from <= run.slots.len(),
        scanned(plan, run, from),
    ensures
        sound(plan, machine::settle(plan, run, from)),
        machine::settle(plan, run, from).mode is Finish ==> {
            ||| machine::running_count(run.slots) >= plan.slots
            ||| forall|j: int| !#[trigger] machine::ready(plan, run.slots, j)
        },
{
    let next = machine::settle(plan, run, from);
    lemma_first_ready(plan, run.slots, from);
    lemma_earliest(run.slots);
    assert(next.slots == run.slots);
    if let Some(t) = machine::earliest(run.slots) {
        lemma_first_due(run.slots, t, 0);
    }
    if machine::first_ready(plan, run.slots, from) is None {
        if machine::earliest(run.slots) is Some {
            let t = machine::earliest(run.slots).unwrap();
            let k = choose|k: int| 0 <= k < run.slots.len() && #[trigger] machine::due(run.slots, t, k);
            assert(slot_sound(plan, run, k));
            assert(run.clock <= t);
            assert forall|i: int| 0 <= i < next.slots.len() implies #[trigger] slot_sound(
                plan,
                next,
                i,
            ) by {
                assert(slot_sound(plan, run, i));
                if machine::running(run.slots, i) {
                }
            }
        } else {
            assert forall|i: int| 0 <= i < next.slots.len() implies #[trigger] slot_sound(
                plan,
                next,
                i,
            ) by {
                assert(slot_sound(plan, run, i));
            }
            lemma_no_running(run.slots);
            assert forall|j: int| !#[trigger] machine::ready(plan, run.slots, j) by {}
            assert forall|i: int|
                0 <= i < next.slots.len() && #[trigger] machine::pending(next.slots, i) implies
                !next.aborting && !held(plan, next.slots, i) by {
                assert(machine::pending(run.slots, i));
            }
        }
    } else {
        assert forall|i: int| 0 <= i < next.slots.len() implies #[trigger] slot_sound(
            plan,
            next,
            i,
        ) by {
            assert(slot_sound(plan, run, i));
        }
        assert forall|i: int|
            0 <= i < next.slots.len() && #[trigger] machine::pending(next.slots, i) implies
            !next.aborting && !held(plan, next.slots, i) by {
            assert(machine::pending(run.slots, i));
        }
    }
}

pub proof fn lemma_no_running(slots: Seq<SlotView>)
    requires
        forall|i: int| 0 <= i < slots.len() ==> !#[trigger] machine::running(slots, i),
    ensures
        machine::running_count(slots) == 0,
    decreases slots.len(),
{
    if slots.len() > 0 {
        let rest = slots.drop_last();
        assert forall|i: int| 0 <= i < rest.len() implies !#[trigger] machine::running(rest, i) by {
            assert(!machine::running(slots, i));
        }
        lemma_no_running(rest);
        assert(!machine::running(slots, slots.len() - 1));
    }
}

/// Beginning a ready job, whether to run it or to resolve it from the cache.
proof fn lemma_begin(plan: Plan, run: RunView, i: int, s: SlotView, next: RunView)
    requires
        steady(plan, run),
        calm(plan, run),
        machine::ready(plan, run.slots, i),
        next.slots == run.slots.update(i, s),
        next.counter == run.counter + 1,
        next.clock == run.clock,
        next.aborting == run.aborting,
        s.start_order == run.counter as usize,
        s.start_nanos == run.clock,
        (s.phase == Phase::Done(Status::Cached) && s.duration == (Duration { secs: 0, nanos: 0 }))
            || (s.phase is Running && s.phase->finish == finish_time(s)
            && machine::running_count(run.slots) < plan.slots),
    ensures
        steady(plan, next),
        calm(plan, next),
        run.counter < run.slots.len(),
{
    let u = next.slots;
    lemma_running_count_update(run.slots, i, s);
    lemma_started_count_update(run.slots, i, s);
    lemma_started_count_bound(run.slots);
    assert(machine::pending(run.slots, i));
    assert(!started(run.slots[i]));
    assert(run.counter < usize::MAX);
    assert forall|d: int| 0 <= d < u.len() implies (#[trigger] machine::blocking(plan, u, d)
        == machine::blocking(plan, run.slots, d)) by {}
    assert forall|k: int| 0 <= k < u.len() implies #[trigger] slot_sound(plan, next, k) by {
        assert(slot_sound(plan, run, k));
        if k == i {
            assert(!held(plan, run.slots, i));
            assert forall|d: usize| #[trigger] plan.deps[i].contains(d) implies {
                &&& machine::done(u, d as int)
                &&& !machine::blocking(plan, u, d as int)
                &&& u[d as int].start_order < u[i].start_order
                &&& finish_time(u[d as int]) <= u[i].start_nanos
            } by {
                assert(machine::done(run.slots, d as int));
                assert(slot_sound(plan, run, d as int));
                assert(!machine::blocking(plan, run.slots, d as int));
                assert(d != i);
            }
        } else {
            assert forall|d: usize| #[trigger] plan.deps[k].contains(d) implies d < u.len() by {}
            if held(plan, run.slots, k) {
                let d = choose|d: usize| #[trigger]
                    plan.deps[k].contains(d) && machine::blocking(plan, run.slots, d as int);
                assert(machine::blocking(plan, u, d as int));
            }
            if started(run.slots[k]) {
                assert(deps_passed(plan, run.slots, k));
                assert forall|d: usize| #[trigger] plan.deps[k].contains(d) implies {
                    &&& machine::done(u, d as int)
                    &&& !machine::blocking(plan, u, d as int)
                    &&& u[d as int].start_order < u[k].start_order
                    &&& finish_time(u[d as int]) <= u[k].start_nanos
                } by {
                    assert(machine::done(run.slots, d as int));
                    assert(d != i);
                }
            }
        }
    }
    assert forall|a: int, b: int|
        0 <= a < u.len() && 0 <= b < u.len() && a != b && started(#[trigger] u[a]) && started(
            #[trigger] u[b],
        ) implies {
        &&& u[a].start_order != u[b].start_order
        &&& u[a].start_order < u[b].start_order ==> u[a].start_nanos <= u[b].start_nanos
    } by {
        assert(slot_sound(plan, run, a));
        assert(slot_sound(plan, run, b));
        if a != i && b != i {
            assert(started(run.slots[a]) && started(run.slots[b]));
        }
    }
    assert forall|f: int| #[trigger] hard_failure(plan, u, f) == hard_failure(
        plan,
        run.slots,
        f,
    ) by {}
    lemma_same_failures(plan, run.slots, u);
    assert forall|k: int| 0 <= k < u.len() && #[trigger] machine::pending(u, k) implies
        !next.aborting && !held(plan, u, k) by {
        assert(machine::pending(run.slots, k));
        assert(!held(plan, run.slots, k));
        if held(plan, u, k) {
            let d = choose|d: usize| #[trigger]
                plan.deps[k].contains(d) && machine::blocking(plan, u, d as int);
            assert(machine::blocking(plan, run.slots, d as int));
        }
    }
}

proof fn lemma_same_failures(plan: Plan, a: Seq<SlotView>, b: Seq<SlotView>)
    requires
        forall|f: int| #[trigger] hard_failure(plan, b, f) == hard_failure(plan, a, f),
    ensures
        (exists|f: int| #[trigger] hard_failure(plan, a, f)) <==> (exists|f: int| #[trigger]
            hard_failure(plan, b, f)),
{
    if exists|f: int| #[trigger] hard_failure(plan, a, f) {
        let f = choose|f: int| #[trigger] hard_failure(plan, a, f);
        assert(hard_failure(plan, b, f));
    }
}

/// Retiring a job that is due.
proof fn lemma_retire(plan: Plan, run: RunView, i: int)
    requires
        steady(plan, run),
        0 <= i < run.slots.len(),
        machine::due(run.slots, run.clock, i),
    ensures
        steady(plan, machine::retired(plan, run, i)),
{
    let next = machine::retired(plan, run, i);
    let u = next.slots;
    lemma_running_count_update(run.slots, i, u[i]);
    lemma_started_count_update(run.slots, i, u[i]);
    assert forall|k: int| 0 <= k < u.len() implies #[trigger] slot_sound(plan, next, k) by {
        assert(slot_sound(plan, run, k));
        assert(slot_sound(plan, run, i));
        assert forall|d: usize| #[trigger] plan.deps[k].contains(d) implies d < u.len() by {}
        if held(plan, run.slots, k) {
            let d = choose|d: usize| #[trigger]
                plan.deps[k].contains(d) && machine::blocking(plan, run.slots, d as int);
            assert(machine::blocking(plan, u, d as int));
        }
        if started(run.slots[k]) {
            assert(deps_passed(plan, run.slots, k));
            assert forall|d: usize| #[trigger] plan.deps[k].contains(d) implies {
                &&& machine::done(u, d as int)
                &&& !machine::blocking(plan, u, d as int)
                &&& u[d as int].start_order < u[k].start_order
                &&& finish_time(u[d as int]) <= u[k].start_nanos
            } by {
                assert(machine::done(run.slots, d as int));
                assert(!machine::blocking(plan, run.slots, d as int));
                assert(d != i);
            }
        }
    }
    assert forall|a: int, b: int|
        0 <= a < u.len() && 0 <= b < u.len() && a != b && started(#[trigger] u[a]) && started(
            #[trigger] u[b],
        ) implies {
        &&& u[a].start_order != u[b].start_order
        &&& u[a].start_order < u[b].start_order ==> u[a].start_nanos <= u[b].start_nanos
    } by {
        assert(started(run.slots[a]) && started(run.slots[b]));
    }
    if exists|f: int| #[trigger] hard_failure(plan, run.slots, f) {
        let f = choose|f: int| #[trigger] hard_failure(plan, run.slots, f);
        assert(hard_failure(plan, u, f));
    }
    if !machine::succeeds(run.slots, i) && !plan.jobs[i].continue_on_error {
        assert(hard_failure(plan, u, i));
    } else if exists|f: int| #[trigger] hard_failure(plan, u, f) {
        let f = choose|f: int| #[trigger] hard_failure(plan, u, f);
        assert(hard_failure(plan, run.slots, f));
    }
}

proof fn lemma_counts_same(a: Seq<SlotView>, b: Seq<SlotView>)
    requires
        a.len() == b.len(),
        forall|i: int|
            0 <= i < a.len() ==> ((#[trigger] a[i]).phase is Running <==> b[i].phase is Running) && (
            started(a[i]) <==> started(b[i])),
    ensures
        machine::running_count(a) == machine::running_count(b),
        started_count(a) == started_count(b),
    decreases a.len(),
{
    if a.len() > 0 {
        assert(a[a.len() - 1] == a.last());
        assert(b[b.len() - 1] == b.last());
        lemma_counts_same(a.drop_last(), b.drop_last());
    }
}

/// Carrying the skips through leaves no pending job that is to be skipped.
proof fn lemma_propagate(plan: Plan, run: RunView, next: RunView)
    requires
        steady(plan, run),
        next == (RunView {
            slots: machine::propagate(plan, run.slots, run.aborting),
            ..run
        }),
    ensures
        steady(plan, next),
        calm(plan, next),
{
    let u = next.slots;
    assert forall|k: int| 0 <= k < u.len() implies ((#[trigger] u[k]).phase is Running
        <==> run.slots[k].phase is Running) && (started(u[k]) <==> started(run.slots[k])) by {}
    lemma_counts_same(u, run.slots);
    assert forall|d: int| 0 <= d < u.len() && machine::blocking(plan, run.slots, d) implies
        #[trigger] machine::blocking(plan, u, d) by {}
    assert forall|k: int| 0 <= k < u.len() implies #[trigger] slot_sound(plan, next, k) by {
        assert(slot_sound(plan, run, k));
        assert forall|d: usize| #[trigger] plan.deps[k].contains(d) implies d < u.len() by {}
        if held(plan, run.slots, k) {
            let d = choose|d: usize| #[trigger]
                plan.deps[k].contains(d) && machine::blocking(plan, run.slots, d as int);
            assert(machine::blocking(plan, u, d as int));
        }
        if started(run.slots[k]) {
            assert(deps_passed(plan, run.slots, k));
            assert forall|d: usize| #[trigger] plan.deps[k].contains(d) implies {
                &&& machine::done(u, d as int)
                &&& !machine::blocking(plan, u, d as int)
                &&& u[d as int].start_order < u[k].start_order
                &&& finish_time(u[d as int]) <= u[k].start_nanos
            } by {
                assert(machine::done(run.slots, d as int));
                assert(!machine::blocking(plan, run.slots, d as int));
                assert(u[d as int] == run.slots[d as int]);
            }
        }
        if machine::pending(run.slots, k) && machine::skips(plan, run.slots, run.aborting, k)
            && !run.aborting {
            let d = choose|d: usize| #[trigger]
                plan.deps[k].contains(d) && (machine::blocking(plan, run.slots, d as int) || (
                machine::pending(run.slots, d as int) && plan.levels[d as int] < plan.levels[k]
                    && machine::skips(plan, run.slots, run.aborting, d as int)));
            assert(machine::blocking(plan, u, d as int));
            assert(held(plan, u, k));
        }
    }
    assert forall|a: int, b: int|
        0 <= a < u.len() && 0 <= b < u.len() && a != b && started(#[trigger] u[a]) && started(
            #[trigger] u[b],
        ) implies {
        &&& u[a].start_order != u[b].start_order
        &&& u[a].start_order < u[b].start_order ==> u[a].start_nanos <= u[b].start_nanos
    } by {
        assert(started(run.slots[a]) && started(run.slots[b]));
    }
    assert forall|f: int| #[trigger] hard_failure(plan, u, f) == hard_failure(
        plan,
        run.slots,
        f,
    ) by {}
    lemma_same_failures(plan, run.slots, u);
    assert forall|k: int| 0 <= k < u.len() && #[trigger] machine::pending(u, k) implies
        !next.aborting && !held(plan, u, k) by {
        assert(!machine::skips(plan, run.slots, run.aborting, k));
        if held(plan, u, k) {
            let d = choose|d: usize| #[trigger]
                plan.deps[k].contains(d) && machine::blocking(plan, u, d as int);
            assert(machine::blocking(plan, run.slots, d as int) || (machine::pending(
                run.slots,
                d as int,
            ) && machine::skips(plan, run.slots, run.aborting, d as int)));
            assert(plan.levels[d as int] < plan.levels[k]);
        }
    }
}

/// A run begins in a sound state.
pub proof fn lemma_initial(plan: Plan)
    requires
        valid_plan(plan),
    ensures
        sound(plan, machine::initial(plan)),
{
    let run = RunView {
        slots: Seq::new(plan.jobs.len(), |i: int| machine::fresh()),
        clock: 0,
        counter: 0,
        aborting: false,
        mode: Mode::Halt,
    };
    assert forall|i: int| 0 <= i < run.slots.len() implies !#[trigger] machine::running(
        run.slots,
        i,
    ) by {}
    lemma_no_running(run.slots);
    lemma_none_started(run.slots);
    assert forall|i: int| 0 <= i < run.slots.len() implies #[trigger] slot_sound(plan, run, i) by {}
    assert forall|i: int| 0 <= i < run.slots.len() implies !held(plan, run.slots, i) by {}
    lemma_settle(plan, run, 0);
}

proof fn lemma_none_started(slots: Seq<SlotView>)
    requires
        forall|i: int| 0 <= i < slots.len() ==> !started(#[trigger] slots[i]),
    ensures
        started_count(slots) == 0,
    decreases slots.len(),
{
    if slots.len() > 0 {
        lemma_none_started(slots.drop_last());
        assert(!started(slots[slots.len() - 1]));
    }
}

/// Every answer leads from a sound state to a sound one.
pub proof fn lemma_step(plan: Plan, run: RunView, reply: Reply)
    requires
        sound(plan, run),
    ensures
        sound(plan, machine::after_reply(plan, run, reply)),
        machine::after_reply(plan, run, reply).clock != run.clock || (machine::after_reply(
            plan,
            run,
            reply,
        ).mode is Finish && run.mode !is Finish) ==> {
            let next = machine::after_reply(plan, run, reply);
            ||| machine::running_count(next.slots) >= plan.slots
            ||| forall|j: int| !#[trigger] machine::ready(plan, next.slots, j)
        },
{
    match (run.mode, reply) {
        (Mode::Probe(i), Reply::Contents(c)) => {
            let next = machine::after_reply(plan, run, reply);
            lemma_rekey(plan, run, next, i as int);
        },
        (Mode::Lookup(i), Reply::Entry(found)) => {
            match found {
                Some(e) => {
                    let next = machine::hit(plan, run, i as int, e@);
                    assert(slot_sound(plan, run, i as int));
                    assert(machine::pending(run.slots, i as int));
                    lemma_begin(plan, run, i as int, next.slots[i as int], next);
                    lemma_settle(plan, next, 0);
                },
                None => {
                    if machine::running_count(run.slots) < plan.slots {
                        let next = machine::after_reply(plan, run, reply);
                        lemma_remode(plan, run, next);
                    } else {
                        lemma_settle(plan, run, i + 1);
                    }
                },
            }
        },
        (Mode::Start(i), Reply::Outcome(o)) => {
            let next = machine::begun(plan, run, i as int, o);
            lemma_begin(plan, run, i as int, next.slots[i as int], next);
            lemma_settle(plan, next, 0);
        },
        (Mode::Finish(i), Reply::Finished) => {
            let next = machine::retired(plan, run, i as int);
            lemma_retire(plan, run, i as int);
            lemma_first_due(next.slots, next.clock, 0);
            match machine::first_due(next.slots, next.clock, 0) {
                Some(j) => {
                    lemma_remode(plan, next, machine::after_reply(plan, run, reply));
                },
                None => {
                    let calmed = RunView {
                        slots: machine::propagate(plan, next.slots, next.aborting),
                        ..next
                    };
                    lemma_propagate(plan, next, calmed);
                    lemma_settle(plan, calmed, 0);
                },
            }
        },
        _ => {},
    }
}

/// What the machine waits for plays no part in the rest.
proof fn lemma_remode(plan: Plan, run: RunView, next: RunView)
    requires
        steady(plan, run),
        next == (RunView { mode: next.mode, ..run }),
    ensures
        steady(plan, next),
        calm(plan, run) ==> calm(plan, next),
        forall|i: int| scanned(plan, run, i) ==> #[trigger] scanned(plan, next, i),
{
    assert forall|i: int| 0 <= i < next.slots.len() implies #[trigger] slot_sound(
        plan,
        next,
        i,
    ) by {
        assert(slot_sound(plan, run, i));
    }
    if calm(plan, run) {
        assert forall|i: int|
            0 <= i < next.slots.len() && #[trigger] machine::pending(next.slots, i) implies
            !next.aborting && !held(plan, next.slots, i) by {
            assert(machine::pending(run.slots, i));
        }
    }
}

/// Recording a key changes nothing else.
proof fn lemma_rekey(plan: Plan, run: RunView, next: RunView, i: int)
    requires
        sound(plan, run),
        run.mode == Mode::Probe(i as usize),
        0 <= i < run.slots.len(),
        next.slots == run.slots.update(
            i,
            SlotView { key: next.slots[i].key, ..run.slots[i] },
        ),
        next.mode == Mode::Lookup(i as usize),
        next.clock == run.clock,
        next.counter == run.counter,
        next.aborting == run.aborting,
    ensures
        sound(plan, next),
{
    let u = next.slots;
    lemma_running_count_update(run.slots, i, u[i]);
    lemma_started_count_update(run.slots, i, u[i]);
    assert forall|d: int| 0 <= d < u.len() implies (#[trigger] machine::blocking(plan, u, d)
        == machine::blocking(plan, run.slots, d)) by {}
    assert forall|k: int| 0 <= k < u.len() implies (#[trigger] held(plan, u, k) == held(
        plan,
        run.slots,
        k,
    )) by {
        if held(plan, u, k) {
            let d = choose|d: usize| #[trigger]
                plan.deps[k].contains(d) && machine::blocking(plan, u, d as int);
            assert(machine::blocking(plan, run.slots, d as int));
        }
        if held(plan, run.slots, k) {
            let d = choose|d: usize| #[trigger]
                plan.deps[k].contains(d) && machine::blocking(plan, run.slots, d as int);
            assert(machine::blocking(plan, u, d as int));
        }
    }
    assert forall|k: int| 0 <= k < u.len() implies #[trigger] slot_sound(plan, next, k) by {
        assert(slot_sound(plan, run, k));
        if started(run.slots[k]) {
            assert(deps_passed(plan, run.slots, k));
            assert(deps_passed(plan, u, k));
        }
    }
    assert forall|a: int, b: int|
        0 <= a < u.len() && 0 <= b < u.len() && a != b && started(#[trigger] u[a]) && started(
            #[trigger] u[b],
        ) implies {
        &&& u[a].start_order != u[b].start_order
        &&& u[a].start_order < u[b].start_order ==> u[a].start_nanos <= u[b].start_nanos
    } by {
        assert(started(run.slots[a]) && started(run.slots[b]));
    }
    assert forall|f: int| #[trigger] hard_failure(plan, u, f) == hard_failure(
        plan,
        run.slots,
        f,
    ) by {}
    lemma_same_failures(plan, run.slots, u);
    assert forall|k: int| 0 <= k < u.len() implies (#[trigger] machine::ready(plan, u, k)
        == machine::ready(plan, run.slots, k)) by {
        if machine::ready(plan, u, k) {
            assert forall|d: usize| #[trigger] plan.deps[k].contains(d) implies machine::done(
                run.slots,
                d as int,
            ) by {
                assert(machine::done(u, d as int));
            }
        }
        if machine::ready(plan, run.slots, k) {
            assert forall|d: usize| #[trigger] plan.deps[k].contains(d) implies machine::done(
                u,
                d as int,
            ) by {
                assert(machine::done(run.slots, d as int));
            }
        }
    }
    assert forall|k: int| 0 <= k < u.len() && #[trigger] machine::pending(u, k) implies
        !next.aborting && !held(plan, u, k) by {
        assert(machine::pending(run.slots, k));
    }
}

} // verus!
