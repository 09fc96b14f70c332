//! The scheduler as a machine: what it waits for, and how it goes on when the
//! answer comes.

use vstd::prelude::*;

use crate::cache;
use crate::cache::{CacheEntry, EntryView};
use crate::content::PathContent;
use crate::dag;
use crate::dag::Dag;
use crate::duration::Duration;
use crate::error::Error;
use crate::executor;
use crate::executor::{Artifacts, JobOutcome};
use crate::pipeline::{JobView, Pipeline};
use crate::progress;
use crate::report::{JobRecord, RecordView, Report, Status};
use crate::soundness;
use crate::text;

verus! {

/// What is fixed for a whole run.
pub struct Plan {
    pub jobs: Seq<JobView>,
    pub deps: Seq<Seq<usize>>,
    pub levels: Seq<usize>,
    /// The most jobs that may run at once.
    pub slots: nat,
    pub fail_fast: bool,
}

/// How far a job has come.
#[derive(Debug, Clone, Copy, PartialEq, Eq, Structural)]
pub enum Phase {
    Pending,
    /// Started; it retires at `finish` on the virtual clock and will then be
    /// known to have succeeded or not.
    Running { finish: u64, success: bool },
    Done(Status),
}

/// What is known of one job during a run.
#[verifier::ext_equal]
pub struct SlotView {
    pub phase: Phase,
    /// The cache key, once computed.
    pub key: u64,
    pub outputs: Seq<(Seq<char>, Seq<u8>)>,
    pub logs: Seq<char>,
    pub start_order: usize,
    pub start_nanos: u64,
    pub duration: Duration,
}

/// What the machine waits for.
#[derive(Debug, Clone, Copy, PartialEq, Eq, Structural)]
pub enum Mode {
    /// The content of the declared inputs of a job.
    Probe(usize),
    /// The cache entry of a job, if there is one.
    Lookup(usize),
    /// The outcome of running a job.
    Start(usize),
    /// That the end of a job was taken note of.
    Finish(usize),
    /// Nothing: the run is over.
    Halt,
}

/// The state of a run.
#[verifier::ext_equal]
pub struct RunView {
    pub slots: Seq<SlotView>,
    pub clock: u64,
    pub counter: nat,
    pub aborting: bool,
    pub mode: Mode,
}

/// An answer to what the machine waits for.
pub enum Reply {
    Contents(Vec<PathContent>),
    Entry(Option<CacheEntry>),
    Outcome(JobOutcome),
    Finished,
}

/// What is to be done to get the next answer.
pub enum Action {
    /// Read what stands at the declared input paths of a job.
    Probe { job: usize, paths: Vec<String> },
    /// Look up a cache entry.
    Lookup { key: u64 },
    /// Run a job on its inputs.
    Run { job: usize, inputs: Artifacts },
    /// Take note that a job ended, and store its cache entry if there is one.
    Finish { job: usize, store: Option<(u64, CacheEntry)> },
    /// Nothing: the run is over.
    Done,
}

/// What an [`Action`] says.
pub enum ActionView {
    Probe { job: int, paths: Seq<Seq<char>> },
    Lookup { key: u64 },
    Run { job: int, inputs: Seq<(Seq<char>, Seq<u8>)> },
    Finish { job: int, store: Option<(u64, EntryView)> },
    Done,
}

impl View for Action {
    type V = ActionView;

    open spec fn view(&self) -> ActionView {
        match *self {
            Action::Probe { job, paths } => ActionView::Probe {
                job: job as int,
                paths: text::views(paths@),
            },
            Action::Lookup { key } => ActionView::Lookup { key },
            Action::Run { job, inputs } => ActionView::Run { job: job as int, inputs: inputs@ },
            Action::Finish { job, store } => ActionView::Finish {
                job: job as int,
                store: match store {
                    Some(s) => Some((s.0, s.1@)),
                    None => None,
                },
            },
            Action::Done => ActionView::Done,
        }
    }
}

/// A job that has ended in a way that its dependents cannot pass: SKIPPED, or
/// FAILED without `continue-on-error`.
pub open spec fn blocking(plan: Plan, slots: Seq<SlotView>, d: int) -> bool {
    match slots[d].phase {
        Phase::Done(Status::Skipped) => true,
        Phase::Done(Status::Failed) => !plan.jobs[d].continue_on_error,
        _ => false,
    }
}

pub open spec fn pending(slots: Seq<SlotView>, i: int) -> bool {
    slots[i].phase == Phase::Pending
}

pub open spec fn running(slots: Seq<SlotView>, i: int) -> bool {
    slots[i].phase is Running
}

pub open spec fn done(slots: Seq<SlotView>, i: int) -> bool {
    slots[i].phase is Done
}

/// A pending job all of whose needs are done.
pub open spec fn ready(plan: Plan, slots: Seq<SlotView>, i: int) -> bool {
    &&& 0 <= i < slots.len()
    &&& pending(slots, i)
    &&& forall|d: usize| #[trigger] plan.deps[i].contains(d) ==> done(slots, d as int)
}

/// The first ready job from `from` on.
pub open spec fn first_ready(plan: Plan, slots: Seq<SlotView>, from: int) -> Option<int>
    decreases slots.len() - from,
{
    if from >= slots.len() {
        None
    } else if ready(plan, slots, from) {
        Some(from)
    } else {
        first_ready(plan, slots, from + 1)
    }
}

/// How many jobs are running.
pub open spec fn running_count(slots: Seq<SlotView>) -> nat
    decreases slots.len(),
{
    if slots.len() == 0 {
        0
    } else {
        running_count(slots.drop_last()) + (if slots.last().phase is Running {
            1nat
        } else {
            0nat
        })
    }
}

/// The earliest instant at which a running job retires.
pub open spec fn earliest(slots: Seq<SlotView>) -> Option<u64>
    decreases slots.len(),
{
    if slots.len() == 0 {
        None
    } else {
        let before = earliest(slots.drop_last());
        match slots.last().phase {
            Phase::Running { finish, .. } => match before {
                Some(t) => Some(
                    if t <= finish {
                        t
                    } else {
                        finish
                    },
                ),
                None => Some(finish),
            },
            _ => before,
        }
    }
}

/// Job `i` is running and retires at `t`.
pub open spec fn due(slots: Seq<SlotView>, t: u64, i: int) -> bool {
    match slots[i].phase {
        Phase::Running { finish, .. } => finish == t,
        _ => false,
    }
}

/// The first job from `from` on that retires at `t`.
pub open spec fn first_due(slots: Seq<SlotView>, t: u64, from: int) -> Option<int>
    decreases slots.len() - from,
{
    if from >= slots.len() {
        None
    } else if due(slots, t, from) {
        Some(from)
    } else {
        first_due(slots, t, from + 1)
    }
}

/// What the jobs `ds` leave behind, a later one before an earlier one.
pub open spec fn merged(slots: Seq<SlotView>, ds: Seq<usize>) -> Seq<(Seq<char>, Seq<u8>)>
    decreases ds.len(),
{
    if ds.len() == 0 {
        Seq::empty()
    } else {
        executor::with_items(merged(slots, ds.drop_last()), slots[ds.last() as int].outputs)
    }
}

/// What a job gets from the jobs it needs.
pub open spec fn inputs_of(plan: Plan, slots: Seq<SlotView>, i: int) -> Seq<(Seq<char>, Seq<u8>)> {
    merged(slots, plan.deps[i])
}

/// The keys of the jobs that a job needs.
pub open spec fn dep_keys(plan: Plan, slots: Seq<SlotView>, i: int) -> Seq<u64> {
    plan.deps[i].map_values(|d: usize| slots[d as int].key)
}

/// A pending job is to be skipped: the run is being aborted, or some job that it
/// needs is blocking, or is to be skipped in turn.
pub open spec fn skips(plan: Plan, slots: Seq<SlotView>, aborting: bool, i: int) -> bool
    decreases plan.levels[i],
{
    aborting || exists|d: usize| #[trigger]
        plan.deps[i].contains(d) && (blocking(plan, slots, d as int) || (pending(slots, d as int)
            && plan.levels[d as int] < plan.levels[i] && skips(plan, slots, aborting, d as int)))
}

/// `slot` marked as skipped.
pub open spec fn skipped(slot: SlotView) -> SlotView {
    SlotView { phase: Phase::Done(Status::Skipped), ..slot }
}

/// The jobs with all skips carried through.
pub open spec fn propagate(plan: Plan, slots: Seq<SlotView>, aborting: bool) -> Seq<SlotView> {
    Seq::new(
        slots.len(),
        |i: int|
            if pending(slots, i) && skips(plan, slots, aborting, i) {
                skipped(slots[i])
            } else {
                slots[i]
            },
    )
}

/// What comes next: the first ready job from `from` on is looked at; when there
/// is none, the clock goes to the earliest retirement; when there is no such
/// either, the run is over.
pub open spec fn settle(plan: Plan, run: RunView, from: int) -> RunView {
    match first_ready(plan, run.slots, from) {
        Some(i) => RunView { mode: Mode::Probe(i as usize), ..run },
        None => match earliest(run.slots) {
            Some(t) => RunView {
                clock: t,
                mode: Mode::Finish(first_due(run.slots, t, 0).unwrap() as usize),
                ..run
            },
            None => RunView { mode: Mode::Halt, ..run },
        },
    }
}

/// The instant `ticks` after `t`, or the last one that the clock has.
pub open spec fn later(t: u64, ticks: nat) -> u64 {
    if t + ticks > u64::MAX {
        u64::MAX
    } else {
        (t + ticks) as u64
    }
}

/// A job that has not begun.
pub open spec fn fresh() -> SlotView {
    SlotView {
        phase: Phase::Pending,
        key: 0,
        outputs: Seq::empty(),
        logs: Seq::empty(),
        start_order: usize::MAX,
        start_nanos: 0,
        duration: Duration { secs: 0, nanos: 0 },
    }
}

/// The state in which a run begins.
pub open spec fn initial(plan: Plan) -> RunView {
    settle(
        plan,
        RunView {
            slots: Seq::new(plan.jobs.len(), |i: int| fresh()),
            clock: 0,
            counter: 0,
            aborting: false,
            mode: Mode::Halt,
        },
        0,
    )
}

/// Job `i` resolved by a cache entry.
pub open spec fn hit(plan: Plan, run: RunView, i: int, e: EntryView) -> RunView {
    RunView {
        slots: run.slots.update(
            i,
            SlotView {
                phase: Phase::Done(Status::Cached),
                start_order: run.counter as usize,
                start_nanos: run.clock,
                logs: e.logs,
                outputs: executor::with_items(Seq::empty(), e.artifacts),
                ..run.slots[i]
            },
        ),
        counter: run.counter + 1,
        ..run
    }
}

/// Job `i` started, with the outcome that it will have.
pub open spec fn begun(plan: Plan, run: RunView, i: int, o: JobOutcome) -> RunView {
    RunView {
        slots: run.slots.update(
            i,
            SlotView {
                phase: Phase::Running {
                    finish: later(run.clock, o.duration.ticks()),
                    success: o.success,
                },
                start_order: run.counter as usize,
                start_nanos: run.clock,
                duration: o.duration,
                logs: o.logs@,
                outputs: o.artifacts@,
                ..run.slots[i]
            },
        ),
        counter: run.counter + 1,
        ..run
    }
}

/// Whether the running job `i` succeeds.
pub open spec fn succeeds(slots: Seq<SlotView>, i: int) -> bool {
    match slots[i].phase {
        Phase::Running { success, .. } => success,
        _ => false,
    }
}

/// Job `i` retired.
pub open spec fn retired(plan: Plan, run: RunView, i: int) -> RunView {
    let ok = succeeds(run.slots, i);
    RunView {
        slots: run.slots.update(
            i,
            SlotView {
                phase: Phase::Done(
                    if ok {
                        Status::Success
                    } else {
                        Status::Failed
                    },
                ),
                ..run.slots[i]
            },
        ),
        aborting: run.aborting || (!ok && !plan.jobs[i].continue_on_error && plan.fail_fast),
        ..run
    }
}

/// The state after an answer. One that does not fit changes nothing.
pub open spec fn after_reply(plan: Plan, run: RunView, reply: Reply) -> RunView {
    match (run.mode, reply) {
        (Mode::Probe(i), Reply::Contents(c)) => RunView {
            slots: run.slots.update(
                i as int,
                SlotView {
                    key: cache::cache_key(
                        plan.jobs[i as int],
                        c@,
                        inputs_of(plan, run.slots, i as int),
                        dep_keys(plan, run.slots, i as int),
                    ),
                    ..run.slots[i as int]
                },
            ),
            mode: Mode::Lookup(i),
            ..run
        },
        (Mode::Lookup(i), Reply::Entry(found)) => match found {
            Some(e) => settle(plan, hit(plan, run, i as int, e@), 0),
            None => if running_count(run.slots) < plan.slots {
                RunView { mode: Mode::Start(i), ..run }
            } else {
                settle(plan, run, i + 1)
            },
        },
        (Mode::Start(i), Reply::Outcome(o)) => settle(plan, begun(plan, run, i as int, o), 0),
        (Mode::Finish(i), Reply::Finished) => {
            let next = retired(plan, run, i as int);
            match first_due(next.slots, next.clock, 0) {
                Some(j) => RunView { mode: Mode::Finish(j as usize), ..next },
                None => settle(
                    plan,
                    RunView { slots: propagate(plan, next.slots, next.aborting), ..next },
                    0,
                ),
            }
        },
        _ => run,
    }
}

/// What is to be done in a state.
pub open spec fn action_of(plan: Plan, run: RunView) -> ActionView {
    match run.mode {
        Mode::Probe(i) => ActionView::Probe {
            job: i as int,
            paths: cache::declared(plan.jobs[i as int]),
        },
        Mode::Lookup(i) => ActionView::Lookup { key: run.slots[i as int].key },
        Mode::Start(i) => ActionView::Run {
            job: i as int,
            inputs: inputs_of(plan, run.slots, i as int),
        },
        Mode::Finish(i) => ActionView::Finish {
            job: i as int,
            store: if succeeds(run.slots, i as int) && plan.jobs[i as int].cache is Some {
                Some(
                    (
                        run.slots[i as int].key,
                        EntryView {
                            artifacts: run.slots[i as int].outputs,
                            logs: run.slots[i as int].logs,
                        },
                    ),
                )
            } else {
                None
            },
        },
        Mode::Halt => ActionView::Done,
    }
}

/// The levels of an acyclic graph.
pub open spec fn levels_of(deps: Seq<Seq<usize>>) -> Seq<usize> {
    choose|l: Seq<usize>| dag::is_leveling(deps, l)
}

/// The plan of a run over `jobs`.
pub open spec fn plan_of(jobs: Seq<JobView>, slots: nat, fail_fast: bool) -> Plan {
    Plan { jobs, deps: dag::edges(jobs), levels: levels_of(dag::edges(jobs)), slots, fail_fast }
}

/// What is reported of a job.
pub open spec fn record_of(plan: Plan, run: RunView, i: int) -> RecordView {
    RecordView {
        name: plan.jobs[i].name,
        status: match run.slots[i].phase {
            Phase::Done(s) => s,
            _ => Status::Skipped,
        },
        wave: plan.levels[i],
        start_order: run.slots[i].start_order,
        start_nanos: run.slots[i].start_nanos,
        duration: run.slots[i].duration,
        logs: run.slots[i].logs,
    }
}

/// What is reported of a run.
pub open spec fn report_of(plan: Plan, run: RunView) -> Seq<RecordView> {
    Seq::new(run.slots.len(), |i: int| record_of(plan, run, i))
}

/// How many jobs may run at once when `jobs` are asked for.
pub open spec fn room(jobs: usize) -> nat {
    if jobs < 1 {
        1
    } else {
        jobs as nat
    }
}

/// What is known of one job during a run.
struct Slot {
    phase: Phase,
    key: u64,
    outputs: Artifacts,
    logs: String,
    start_order: usize,
    start_nanos: u64,
    duration: Duration,
}

impl View for Slot {
    type V = SlotView;

    closed spec fn view(&self) -> SlotView {
        SlotView {
            phase: self.phase,
            key: self.key,
            outputs: self.outputs@,
            logs: self.logs@,
            start_order: self.start_order,
            start_nanos: self.start_nanos,
            duration: self.duration,
        }
    }
}

/// A run in progress. [`Scheduler::action`] says what is to be done next, and
/// [`Scheduler::reply`] takes the answer.
pub struct Scheduler<'a> {
    pipeline: &'a Pipeline,
    dag: Dag,
    limit: usize,
    fail_fast: bool,
    slots: Vec<Slot>,
    clock: u64,
    counter: usize,
    aborting: bool,
    mode: Mode,
}

impl<'a> View for Scheduler<'a> {
    type V = RunView;

    closed spec fn view(&self) -> RunView {
        RunView {
            slots: self.slots@.map_values(|s: Slot| s@),
            clock: self.clock,
            counter: self.counter as nat,
            aborting: self.aborting,
            mode: self.mode,
        }
    }
}

/// A dependency blocks its dependents when it was SKIPPED, or FAILED without
/// `continue-on-error`. SUCCESS, CACHED, and continue-on-error FAILED all clear.
fn is_blocking(phase: Phase, continue_on_error: bool) -> (b: bool)
    ensures
        b == (match phase {
            Phase::Done(Status::Skipped) => true,
            Phase::Done(Status::Failed) => !continue_on_error,
            _ => false,
        }),
{
    match phase {
        Phase::Done(Status::Skipped) => true,
        Phase::Done(Status::Failed) => !continue_on_error,
        _ => false,
    }
}

/// `cur` is `old` with some of the skips carried through.
spec fn skipping(plan: Plan, old_slots: Seq<SlotView>, cur: Seq<SlotView>, aborting: bool) -> bool {
    &&& cur.len() == old_slots.len()
    &&& forall|i: int|
        0 <= i < cur.len() ==> (#[trigger] cur[i] == old_slots[i]) || (pending(old_slots, i)
            && skips(plan, old_slots, aborting, i) && cur[i] == skipped(old_slots[i]))
}

/// When no pending job has a blocking need any more, all skips were carried through.
proof fn lemma_stable(
    plan: Plan,
    old_slots: Seq<SlotView>,
    cur: Seq<SlotView>,
    aborting: bool,
    i: int,
)
    requires
        dag::is_leveling(plan.deps, plan.levels),
        plan.deps.len() == cur.len(),
        skipping(plan, old_slots, cur, aborting),
        forall|k: int|
            0 <= k < cur.len() && #[trigger] pending(cur, k) ==> !aborting && forall|d: usize| #[trigger]
                plan.deps[k].contains(d) ==> !blocking(plan, cur, d as int),
        0 <= i < cur.len(),
        pending(cur, i),
    ensures
        !skips(plan, old_slots, aborting, i),
    decreases plan.levels[i],
{
    if skips(plan, old_slots, aborting, i) {
        let d = choose|d: usize| #[trigger]
            plan.deps[i].contains(d) && (blocking(plan, old_slots, d as int) || (pending(
                old_slots,
                d as int,
            ) && plan.levels[d as int] < plan.levels[i] && skips(
                plan,
                old_slots,
                aborting,
                d as int,
            )));
        assert(!blocking(plan, cur, d as int));
        assert(cur[d as int] == old_slots[d as int] || cur[d as int] == skipped(
            old_slots[d as int],
        ));
        if !blocking(plan, old_slots, d as int) {
            if pending(cur, d as int) {
                lemma_stable(plan, old_slots, cur, aborting, d as int);
            }
        }
    }
}

/// A graph has one leveling at most.
pub proof fn lemma_levels_unique(deps: Seq<Seq<usize>>, a: Seq<usize>, b: Seq<usize>)
    requires
        dag::is_leveling(deps, a),
        dag::is_leveling(deps, b),
    ensures
        a == b,
{
    assert forall|i: int| 0 <= i < a.len() implies a[i] == b[i] by {
        lemma_level_at_most(deps, a, b, i);
        lemma_level_at_most(deps, b, a, i);
    }
    assert(a =~= b);
}

proof fn lemma_level_at_most(deps: Seq<Seq<usize>>, a: Seq<usize>, b: Seq<usize>, i: int)
    requires
        dag::is_leveling(deps, a),
        dag::is_leveling(deps, b),
        0 <= i < deps.len(),
    ensures
        a[i] <= b[i],
    decreases a[i],
{
    if a[i] > 0 {
        assert(dag::rests_on(deps, a, i));
        let d = choose|d: usize| #[trigger]
            deps[i].contains(d) && a[d as int] + 1 == a[i];
        lemma_level_at_most(deps, a, b, d as int);
        assert(b[d as int] < b[i]);
    }
}

impl<'a> Scheduler<'a> {
    /// The plan that the run follows.
    pub closed spec fn plan(&self) -> Plan {
        Plan {
            jobs: self.pipeline@,
            deps: dag::index_views(self.dag.deps@),
            levels: self.dag.levels@,
            slots: self.limit as nat,
            fail_fast: self.fail_fast,
        }
    }

    /// The state is one of a run that follows its plan.
    pub closed spec fn wf(&self) -> bool {
        self.shape() && soundness::sound(self.plan(), self@)
    }

    pub proof fn lemma_wf(&self)
        requires
            self.wf(),
        ensures
            soundness::sound(self.plan(), self@),
    {
    }

    /// The parts fit together.
    spec fn shape(&self) -> bool {
        &&& soundness::valid_plan(self.plan())
        &&& self.slots@.len() == self.pipeline@.len()
    }

    /// Nothing but the state of the run differs.
    spec fn same_frame(&self, other: &Self) -> bool {
        &&& self.pipeline == other.pipeline
        &&& self.dag == other.dag
        &&& self.limit == other.limit
        &&& self.fail_fast == other.fail_fast
        &&& self.slots@.len() == other.slots@.len()
    }

    fn is_ready(&self, i: usize) -> (b: bool)
        requires
            self.shape(),
            i < self.slots@.len(),
        ensures
            b == ready(self.plan(), self@.slots, i as int),
    {
        if !matches!(self.slots[i].phase, Phase::Pending) {
            return false;
        }
        let ds = &self.dag.deps[i];
        assert(self.plan().deps[i as int] == ds@);
        let mut k: usize = 0;
        while k < ds.len()
            invariant
                self.shape(),
                i < self.slots@.len(),
                self.plan().deps[i as int] == ds@,
                k <= ds.len(),
                forall|j: int| 0 <= j < k ==> done(self@.slots, #[trigger] ds@[j] as int),
            decreases ds.len() - k,
        {
            let d = ds[k];
            assert(self.plan().deps[i as int].contains(d));
            if !matches!(self.slots[d].phase, Phase::Done(_)) {
                return false;
            }
            k += 1;
        }
        true
    }

    fn count_running(&self) -> (n: usize)
        ensures
            n == running_count(self@.slots),
    {
        let mut n: usize = 0;
        let mut i: usize = 0;
        assert(self@.slots.take(0) =~= Seq::empty());
        while i < self.slots.len()
            invariant
                i <= self.slots.len(),
                n == running_count(self@.slots.take(i as int)),
                n <= i,
            decreases self.slots.len() - i,
        {
            assert(self@.slots.take(i + 1).drop_last() =~= self@.slots.take(i as int));
            if matches!(self.slots[i].phase, Phase::Running { .. }) {
                n += 1;
            }
            i += 1;
        }
        assert(self@.slots.take(i as int) =~= self@.slots);
        n
    }

    fn find_ready(&self, from: usize) -> (r: Option<usize>)
        requires
            self.shape(),
            from <= self.slots@.len(),
        ensures
            match r {
                Some(i) => first_ready(self.plan(), self@.slots, from as int) == Some(i as int) && i
                    < self.slots@.len(),
                None => first_ready(self.plan(), self@.slots, from as int) is None,
            },
    {
        let mut i: usize = from;
        while i < self.slots.len()
            invariant
                self.shape(),
                from <= i <= self.slots@.len(),
                first_ready(self.plan(), self@.slots, from as int) == first_ready(
                    self.plan(),
                    self@.slots,
                    i as int,
                ),
            decreases self.slots.len() - i,
        {
            if self.is_ready(i) {
                return Some(i);
            }
            i += 1;
        }
        None
    }

    fn find_due(&self) -> (r: Option<usize>)
        ensures
            match r {
                Some(i) => first_due(self@.slots, self.clock, 0) == Some(i as int) && i
                    < self.slots@.len(),
                None => first_due(self@.slots, self.clock, 0) is None,
            },
    {
        let mut i: usize = 0;
        while i < self.slots.len()
            invariant
                i <= self.slots@.len(),
                first_due(self@.slots, self.clock, 0) == first_due(
                    self@.slots,
                    self.clock,
                    i as int,
                ),
            decreases self.slots.len() - i,
        {
            if let Phase::Running { finish, .. } = self.slots[i].phase {
                if finish == self.clock {
                    return Some(i);
                }
            }
            i += 1;
        }
        None
    }

    fn find_earliest(&self) -> (r: Option<u64>)
        ensures
            r == earliest(self@.slots),
    {
        let mut r: Option<u64> = None;
        let mut i: usize = 0;
        assert(self@.slots.take(0) =~= Seq::empty());
        while i < self.slots.len()
            invariant
                i <= self.slots.len(),
                r == earliest(self@.slots.take(i as int)),
            decreases self.slots.len() - i,
        {
            assert(self@.slots.take(i + 1).drop_last() =~= self@.slots.take(i as int));
            assert(self@.slots.take(i + 1).last() == self@.slots[i as int]);
            if let Phase::Running { finish, .. } = self.slots[i].phase {
                r = match r {
                    Some(t) => if t <= finish {
                        Some(t)
                    } else {
                        Some(finish)
                    },
                    None => Some(finish),
                };
            }
            i += 1;
        }
        assert(self@.slots.take(i as int) =~= self@.slots);
        r
    }

    /// What job `i` gets from the jobs it needs.
    fn inputs(&self, i: usize) -> (r: Artifacts)
        requires
            self.shape(),
            i < self.slots@.len(),
        ensures
            r@ == inputs_of(self.plan(), self@.slots, i as int),
    {
        let ds = &self.dag.deps[i];
        assert(self.plan().deps[i as int] == ds@);
        let mut r = Artifacts::new();
        let mut k: usize = 0;
        assert(ds@.take(0) =~= Seq::empty());
        while k < ds.len()
            invariant
                self.shape(),
                i < self.slots@.len(),
                self.plan().deps[i as int] == ds@,
                k <= ds.len(),
                r@ == merged(self@.slots, ds@.take(k as int)),
            decreases ds.len() - k,
        {
            let d = ds[k];
            assert(self.plan().deps[i as int].contains(d));
            assert(ds@.take(k + 1).drop_last() =~= ds@.take(k as int));
            r.merge(&self.slots[d].outputs);
            k += 1;
        }
        assert(ds@.take(k as int) =~= ds@);
        r
    }

    /// The keys of the jobs that job `i` needs.
    fn keys(&self, i: usize) -> (r: Vec<u64>)
        requires
            self.shape(),
            i < self.slots@.len(),
        ensures
            r@ == dep_keys(self.plan(), self@.slots, i as int),
    {
        let ds = &self.dag.deps[i];
        assert(self.plan().deps[i as int] == ds@);
        let mut r: Vec<u64> = Vec::new();
        let mut k: usize = 0;
        while k < ds.len()
            invariant
                self.shape(),
                i < self.slots@.len(),
                self.plan().deps[i as int] == ds@,
                k <= ds.len(),
                r.len() == k,
                forall|j: int| 0 <= j < k ==> #[trigger] r@[j] == self@.slots[ds@[j] as int].key,
            decreases ds.len() - k,
        {
            let d = ds[k];
            assert(self.plan().deps[i as int].contains(d));
            r.push(self.slots[d].key);
            k += 1;
        }
        assert(r@ =~= dep_keys(self.plan(), self@.slots, i as int));
        r
    }

    /// True when a job that job `i` needs is blocking.
    fn is_held(&self, i: usize) -> (b: bool)
        requires
            self.shape(),
            i < self.slots@.len(),
        ensures
            b == exists|d: usize| #[trigger]
                self.plan().deps[i as int].contains(d) && blocking(
                    self.plan(),
                    self@.slots,
                    d as int,
                ),
    {
        let ds = &self.dag.deps[i];
        assert(self.plan().deps[i as int] == ds@);
        let mut k: usize = 0;
        while k < ds.len()
            invariant
                self.shape(),
                i < self.slots@.len(),
                self.plan().deps[i as int] == ds@,
                k <= ds.len(),
                forall|j: int|
                    0 <= j < k ==> !blocking(self.plan(), self@.slots, #[trigger] ds@[j] as int),
            decreases ds.len() - k,
        {
            let d = ds[k];
            assert(self.plan().deps[i as int].contains(d));
            if is_blocking(self.slots[d].phase, self.pipeline.jobs[d].continue_on_error) {
                assert(blocking(self.plan(), self@.slots, d as int));
                return true;
            }
            k += 1;
        }
        false
    }

    /// Carries the skips through until nothing changes.
    fn propagate_skips(&mut self)
        requires
            old(self).shape(),
        ensures
            final(self).same_frame(old(self)),
            final(self)@ == (RunView {
                slots: propagate(old(self).plan(), old(self)@.slots, old(self)@.aborting),
                ..old(self)@
            }),
    {
        let ghost plan = self.plan();
        let ghost slots0 = self@.slots;
        let n = self.slots.len();
        let mut changed = true;
        while changed
            invariant
                self.shape(),
                self.same_frame(old(self)),
                self@ == (RunView { slots: self@.slots, ..old(self)@ }),
                plan == self.plan(),
                slots0 == old(self)@.slots,
                n == self.slots@.len(),
                skipping(plan, slots0, self@.slots, self.aborting),
                !changed ==> forall|k: int|
                    0 <= k < n && #[trigger] pending(self@.slots, k) ==> !self.aborting
                        && forall|d: usize| #[trigger]
                        plan.deps[k].contains(d) ==> !blocking(plan, self@.slots, d as int),
            decreases
                progress::pending_count(self@.slots) + (if changed {
                    1int
                } else {
                    0
                }),
        {
            let ghost start = self@.slots;
            changed = false;
            let mut i: usize = 0;
            while i < n
                invariant
                    self.shape(),
                    self.same_frame(old(self)),
                    self@ == (RunView { slots: self@.slots, ..old(self)@ }),
                    plan == self.plan(),
                    slots0 == old(self)@.slots,
                    n == self.slots@.len(),
                    i <= n,
                    skipping(plan, slots0, self@.slots, self.aborting),
                    changed ==> progress::pending_count(self@.slots) < progress::pending_count(start),
                    !changed ==> self@.slots == start && forall|k: int|
                        0 <= k < i && #[trigger] pending(self@.slots, k) ==> !self.aborting
                            && forall|d: usize| #[trigger]
                            plan.deps[k].contains(d) ==> !blocking(plan, self@.slots, d as int),
                decreases n - i,
            {
                if matches!(self.slots[i].phase, Phase::Pending) {
                    let held = self.aborting || self.is_held(i);
                    if held {
                        let ghost before = self@.slots;
                        proof {
                            assert(pending(before, i as int));
                            assert(before[i as int] == slots0[i as int]);
                            progress::lemma_pending_count_update(
                                before,
                                i as int,
                                skipped(before[i as int]),
                            );
                            if !self.aborting {
                                let d = choose|d: usize| #[trigger]
                                    plan.deps[i as int].contains(d) && blocking(
                                        plan,
                                        before,
                                        d as int,
                                    );
                                assert(plan.levels[d as int] < plan.levels[i as int]);
                                assert(before[d as int] == slots0[d as int] || before[d as int]
                                    == skipped(slots0[d as int]));
                                assert(skips(plan, slots0, self.aborting, i as int));
                            }
                        }
                        self.slots[i].phase = Phase::Done(Status::Skipped);
                        changed = true;
                        assert(self@.slots =~= before.update(
                            i as int,
                            skipped(before[i as int]),
                        ));
                    }
                }
                i += 1;
            }
        }
        proof {
            assert forall|i: int| 0 <= i < n implies self@.slots[i] == #[trigger] propagate(
                plan,
                slots0,
                self.aborting,
            )[i] by {
                assert(self@.slots[i] == slots0[i] || self@.slots[i] == skipped(slots0[i]));
                if pending(slots0, i) && skips(plan, slots0, self.aborting, i) {
                    if pending(self@.slots, i) {
                        lemma_stable(plan, slots0, self@.slots, self.aborting, i);
                    }
                }
            }
            assert(self@.slots =~= propagate(plan, slots0, self.aborting));
        }
    }

    /// Goes on to what comes next.
    fn settle_from(&mut self, from: usize)
        requires
            old(self).shape(),
            from <= old(self).slots@.len(),
        ensures
            final(self).same_frame(old(self)),
            final(self)@ == settle(old(self).plan(), old(self)@, from as int),
    {
        match self.find_ready(from) {
            Some(i) => {
                self.mode = Mode::Probe(i);
            },
            None => {
                match self.find_earliest() {
                    Some(t) => {
                        proof {
                            soundness::lemma_earliest(self@.slots);
                            soundness::lemma_first_due(self@.slots, t, 0);
                        }
                        self.clock = t;
                        assert(self@.slots == old(self)@.slots);
                        match self.find_due() {
                            Some(i) => {
                                self.mode = Mode::Finish(i);
                            },
                            None => {},
                        }
                    },
                    None => {
                        self.mode = Mode::Halt;
                    },
                }
            },
        }
    }

    /// A run over the pipeline with at most `jobs` jobs at once, but room for one
    /// at least.
    pub fn new(pipeline: &'a Pipeline, jobs: usize, fail_fast: bool) -> (r: Result<Self, Error>)
        ensures
            match r {
                Ok(s) => {
                    &&& dag::defect(pipeline@) is None
                    &&& s.wf()
                    &&& s.plan() == plan_of(pipeline@, room(jobs), fail_fast)
                    &&& s@ == initial(s.plan())
                },
                Err(e) => dag::defect(pipeline@) == Some(e@),
            },
    {
        let dag = match Dag::build(pipeline) {
            Ok(dag) => dag,
            Err(e) => {
                return Err(e);
            },
        };
        let n = pipeline.jobs.len();
        let mut slots: Vec<Slot> = Vec::new();
        while slots.len() < n
            invariant
                slots.len() <= n,
                forall|j: int| 0 <= j < slots.len() ==> (#[trigger] slots@[j])@ == fresh(),
            decreases n - slots.len(),
        {
            let slot = Slot {
                phase: Phase::Pending,
                key: 0,
                outputs: Artifacts::new(),
                logs: String::new(),
                start_order: usize::MAX,
                start_nanos: 0,
                duration: Duration::zero(),
            };
            assert(slot@ =~= fresh());
            slots.push(slot);
        }
        let limit = if jobs < 1 {
            1
        } else {
            jobs
        };
        let mut s = Scheduler {
            pipeline,
            dag,
            limit,
            fail_fast,
            slots,
            clock: 0,
            counter: 0,
            aborting: false,
            mode: Mode::Halt,
        };
        proof {
            lemma_levels_unique(dag::edges(pipeline@), s.dag.levels@, levels_of(
                dag::edges(pipeline@),
            ));
            assert(s@.slots =~= Seq::new(s.plan().jobs.len(), |i: int| fresh()));
            assert(s.plan() == plan_of(pipeline@, room(jobs), fail_fast));
            soundness::lemma_initial(s.plan());
        }
        s.settle_from(0);
        Ok(s)
    }

    /// What is to be done next.
    pub fn action(&self) -> (r: Action)
        requires
            self.wf(),
        ensures
            r@ == action_of(self.plan(), self@),
    {
        match self.mode {
            Mode::Probe(i) => Action::Probe {
                job: i,
                paths: cache::input_paths(&self.pipeline.jobs[i]),
            },
            Mode::Lookup(i) => Action::Lookup { key: self.slots[i].key },
            Mode::Start(i) => Action::Run { job: i, inputs: self.inputs(i) },
            Mode::Finish(i) => {
                let success = match self.slots[i].phase {
                    Phase::Running { success, .. } => success,
                    _ => false,
                };
                let store = if success && self.pipeline.jobs[i].cache.is_some() {
                    let entry = CacheEntry {
                        artifacts: self.slots[i].outputs.to_blobs(),
                        logs: self.slots[i].logs.clone(),
                    };
                    Some((self.slots[i].key, entry))
                } else {
                    None
                };
                Action::Finish { job: i, store }
            },
            Mode::Halt => Action::Done,
        }
    }

    /// Goes on with the answer to [`Scheduler::action`]. An answer to something
    /// else changes nothing.
    pub fn reply(&mut self, reply: Reply)
        requires
            old(self).wf(),
        ensures
            final(self).wf(),
            final(self).plan() == old(self).plan(),
            final(self)@ == after_reply(old(self).plan(), old(self)@, reply),
    {
        proof {
            soundness::lemma_step(self.plan(), self@, reply);
        }
        let ghost plan = self.plan();
        let ghost before = self@;
        match (self.mode, reply) {
            (Mode::Probe(i), Reply::Contents(contents)) => {
                let inputs = self.inputs(i);
                let dep_keys = self.keys(i);
                let key = cache::compute_key_with_deps(
                    &self.pipeline.jobs[i],
                    &contents,
                    &inputs,
                    &dep_keys,
                );
                self.slots[i].key = key;
                self.mode = Mode::Lookup(i);
                assert(self@ =~= after_reply(plan, before, reply));
            },
            (Mode::Lookup(i), Reply::Entry(found)) => {
                match found {
                    Some(entry) => {
                        self.take_entry(i, entry);
                        self.settle_from(0);
                    },
                    None => {
                        if self.count_running() < self.limit {
                            self.mode = Mode::Start(i);
                        } else {
                            self.settle_from(i + 1);
                        }
                    },
                }
            },
            (Mode::Start(i), Reply::Outcome(outcome)) => {
                self.take_outcome(i, outcome);
                self.settle_from(0);
            },
            (Mode::Finish(i), Reply::Finished) => {
                self.retire(i);
                match self.find_due() {
                    Some(j) => {
                        self.mode = Mode::Finish(j);
                    },
                    None => {
                        self.propagate_skips();
                        self.settle_from(0);
                    },
                }
            },
            _ => {},
        }
    }

    /// Resolves a job by a cache entry.
    fn take_entry(&mut self, i: usize, entry: CacheEntry)
        requires
            old(self).wf(),
            i < old(self).slots@.len(),
            pending(old(self)@.slots, i as int),
        ensures
            final(self).same_frame(old(self)),
            final(self)@ == hit(old(self).plan(), old(self)@, i as int, entry@),
    {
        let ghost plan = self.plan();
        let ghost before = self@;
        proof {
            soundness::lemma_started_count_bound(self@.slots);
            assert(!soundness::started(self@.slots[i as int]));
        }
        let CacheEntry { artifacts, logs } = entry;
        self.slots[i].phase = Phase::Done(Status::Cached);
        self.slots[i].start_order = self.counter;
        self.slots[i].start_nanos = self.clock;
        self.slots[i].logs = logs;
        self.slots[i].outputs = Artifacts::from_blobs(&artifacts);
        self.counter += 1;
        assert(self@.slots =~= hit(plan, before, i as int, entry@).slots);
    }

    /// Starts a job.
    fn take_outcome(&mut self, i: usize, outcome: JobOutcome)
        requires
            old(self).wf(),
            i < old(self).slots@.len(),
            pending(old(self)@.slots, i as int),
        ensures
            final(self).same_frame(old(self)),
            final(self)@ == begun(old(self).plan(), old(self)@, i as int, outcome),
    {
        let ghost plan = self.plan();
        let ghost before = self@;
        proof {
            soundness::lemma_started_count_bound(self@.slots);
            assert(!soundness::started(self@.slots[i as int]));
        }
        let finish = self.clock.saturating_add(outcome.duration.as_ticks());
        self.slots[i].phase = Phase::Running { finish, success: outcome.success };
        self.slots[i].start_order = self.counter;
        self.slots[i].start_nanos = self.clock;
        self.slots[i].duration = outcome.duration;
        self.slots[i].logs = outcome.logs;
        self.slots[i].outputs = outcome.artifacts;
        self.counter += 1;
        assert(self@.slots =~= begun(plan, before, i as int, outcome).slots);
    }

    /// Ends a job.
    fn retire(&mut self, i: usize)
        requires
            old(self).shape(),
            i < old(self).slots@.len(),
        ensures
            final(self).same_frame(old(self)),
            final(self)@ == retired(old(self).plan(), old(self)@, i as int),
    {
        let ghost plan = self.plan();
        let ghost before = self@;
        let success = match self.slots[i].phase {
            Phase::Running { success, .. } => success,
            _ => false,
        };
        if success {
            self.slots[i].phase = Phase::Done(Status::Success);
        } else {
            self.slots[i].phase = Phase::Done(Status::Failed);
            if !self.pipeline.jobs[i].continue_on_error && self.fail_fast {
                self.aborting = true;
            }
        }
        assert(plan.jobs[i as int] == self.pipeline.jobs@[i as int]@);
        assert(self@.slots =~= retired(plan, before, i as int).slots);
    }

    /// What is known of the jobs.
    pub fn report(&self) -> (r: Report)
        requires
            self.wf(),
        ensures
            r@ == report_of(self.plan(), self@),
    {
        let n = self.slots.len();
        let mut jobs: Vec<JobRecord> = Vec::new();
        let mut i: usize = 0;
        while i < n
            invariant
                self.wf(),
                i <= n == self.slots.len(),
                jobs.len() == i,
                forall|j: int|
                    0 <= j < i ==> (#[trigger] jobs@[j])@ == record_of(self.plan(), self@, j),
            decreases n - i,
        {
            let slot = &self.slots[i];
            let record = JobRecord {
                name: self.pipeline.jobs[i].name.clone(),
                status: match slot.phase {
                    Phase::Done(s) => s,
                    _ => Status::Skipped,
                },
                wave: self.dag.levels[i],
                start_order: slot.start_order,
                start_nanos: slot.start_nanos,
                duration: slot.duration,
                logs: slot.logs.clone(),
            };
            assert(record@ =~= record_of(self.plan(), self@, i as int));
            jobs.push(record);
            i += 1;
        }
        let r = Report { jobs };
        assert(r@ =~= report_of(self.plan(), self@));
        r
    }
}

} // verus!
