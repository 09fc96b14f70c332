//! What is decided when a job is run by the shell: which step comes next and how
//! long it may take, what goes into the logs, when to stop, and which outputs are
//! collected. Spawning the steps and reading the files is left to the caller.

use vstd::prelude::*;
use vstd::string::*;

use crate::content;
use crate::duration::Duration;
use crate::executor;
use crate::executor::{Artifacts, JobOutcome, OutcomeView, ShellExecutor};
use crate::pipeline::{Job, JobView};
use crate::safepath;

verus! {

/// What became of a step.
pub enum StepResult {
    /// It ended, on its own or because it was killed for its time.
    Ended {
        success: bool,
        code: Option<i32>,
        stdout: Vec<u8>,
        stderr: Vec<u8>,
        timed_out: bool,
    },
    /// It could not be launched.
    NotLaunched { error: String },
}

/// What became of a declared output.
pub enum OutputResult {
    Found { data: Vec<u8> },
    Missing { error: String },
}

/// What is to be done next.
#[derive(Debug, Clone, Copy, PartialEq, Eq, Structural)]
pub enum ShellAction {
    /// Run that step.
    Step(usize),
    /// Read that declared output.
    Collect(usize),
    /// Nothing: the job is over.
    Done,
}

/// How far the run of a job has come.
#[verifier::ext_equal]
pub struct ShellView {
    /// How many steps were run.
    pub steps: nat,
    /// How many declared outputs were seen to.
    pub outputs: nat,
    pub success: bool,
    pub exit_code: Option<i32>,
    pub logs: Seq<char>,
    pub artifacts: Seq<(Seq<char>, Seq<u8>)>,
}

/// What a step that ended printed.
pub open spec fn printed_by(stdout: Seq<u8>, stderr: Seq<u8>) -> Seq<char> {
    content::lossy_text(stdout) + content::lossy_text(stderr)
}

/// What the logs say of a step that took too long.
pub open spec fn timed_out_note(step: Seq<char>) -> Seq<char> {
    "\n[relay] step timed out: "@ + step + "\n"@
}

/// What the logs say of a step that could not be launched.
pub open spec fn not_launched_note(step: Seq<char>, error: Seq<char>) -> Seq<char> {
    "\n[relay] failed to launch step '"@ + step + "': "@ + error + "\n"@
}

/// What the logs say of an output that is not there.
pub open spec fn missing_note(path: Seq<char>, error: Seq<char>) -> Seq<char> {
    "\n[relay] declared output missing: "@ + path + " ("@ + error + ")\n"@
}

/// After a step. The first one that fails ends the steps.
pub open spec fn after_step(v: ShellView, step: Seq<char>, result: StepResult) -> ShellView {
    match result {
        StepResult::Ended { success, code, stdout, stderr, timed_out } => {
            let logs = v.logs + printed_by(stdout@, stderr@);
            if success && !timed_out {
                ShellView { steps: v.steps + 1, logs, ..v }
            } else {
                ShellView {
                    steps: v.steps + 1,
                    success: false,
                    exit_code: code,
                    logs: if timed_out {
                        logs + timed_out_note(step)
                    } else {
                        logs
                    },
                    ..v
                }
            }
        },
        StepResult::NotLaunched { error } => ShellView {
            steps: v.steps + 1,
            success: false,
            exit_code: None,
            logs: v.logs + not_launched_note(step, error@),
            ..v
        },
    }
}

/// After an output was looked for.
pub open spec fn after_output(v: ShellView, path: Seq<char>, result: OutputResult) -> ShellView {
    match result {
        OutputResult::Found { data } => ShellView {
            outputs: v.outputs + 1,
            artifacts: executor::with_item(v.artifacts, path, data@),
            ..v
        },
        OutputResult::Missing { error } => ShellView {
            outputs: v.outputs + 1,
            logs: v.logs + missing_note(path, error@),
            ..v
        },
    }
}

/// All steps have succeeded, and outputs are left to be seen to.
pub open spec fn collecting(job: JobView, v: ShellView) -> bool {
    v.success && v.steps >= job.steps.len() && v.outputs < job.produces.len()
}

/// With the outputs passed over that come next but are not confined: those are
/// refused.
pub open spec fn refuse_loose(job: JobView, v: ShellView) -> ShellView
    decreases job.produces.len() - v.outputs,
{
    if collecting(job, v) && !safepath::confined(job.produces[v.outputs as int]) {
        refuse_loose(
            job,
            ShellView {
                outputs: v.outputs + 1,
                logs: v.logs + missing_note(
                    job.produces[v.outputs as int],
                    "path escapes the workspace"@,
                ),
                ..v
            },
        )
    } else {
        v
    }
}

/// What is to be done next.
pub open spec fn next_action(job: JobView, v: ShellView) -> ShellAction {
    if v.success && v.steps < job.steps.len() {
        ShellAction::Step(v.steps as usize)
    } else if collecting(job, v) {
        ShellAction::Collect(v.outputs as usize)
    } else {
        ShellAction::Done
    }
}

/// How the run of a job begins.
pub open spec fn first(job: JobView) -> ShellView {
    refuse_loose(
        job,
        ShellView {
            steps: 0,
            outputs: 0,
            success: true,
            exit_code: Some(0i32),
            logs: Seq::empty(),
            artifacts: Seq::empty(),
        },
    )
}

/// A failed step is the last: nothing more is run, and nothing is collected.
pub proof fn law_stops_at_first_failure(
    job: JobView,
    v: ShellView,
    step: Seq<char>,
    result: StepResult,
)
    requires
        match result {
            StepResult::Ended { success, timed_out, .. } => !success || timed_out,
            StepResult::NotLaunched { .. } => true,
        },
    ensures
        next_action(job, refuse_loose(job, after_step(v, step, result))) == ShellAction::Done,
        !refuse_loose(job, after_step(v, step, result)).success,
        refuse_loose(job, after_step(v, step, result)).artifacts == v.artifacts,
{
}

/// Only paths inside the workspace are ever asked for.
pub proof fn law_collects_confined_only(job: JobView, v: ShellView)
    requires
        job.produces.len() <= usize::MAX,
    ensures
        next_action(job, refuse_loose(job, v)) matches ShellAction::Collect(k) ==> k
            < job.produces.len() && safepath::confined(job.produces[k as int]),
    decreases job.produces.len() - v.outputs,
{
    if collecting(job, v) && !safepath::confined(job.produces[v.outputs as int]) {
        law_collects_confined_only(
            job,
            ShellView {
                outputs: v.outputs + 1,
                logs: v.logs + missing_note(
                    job.produces[v.outputs as int],
                    "path escapes the workspace"@,
                ),
                ..v
            },
        );
    }
}

/// The tighter of two limits, where there is one.
pub open spec fn tighter(a: Option<nat>, b: Option<nat>) -> Option<nat> {
    match (a, b) {
        (Some(x), Some(y)) => Some(
            if x <= y {
                x
            } else {
                y
            },
        ),
        (Some(x), None) => Some(x),
        (None, y) => y,
    }
}

/// What is left of a job's limit after `elapsed`.
pub open spec fn left_of(limit: Option<Duration>, elapsed: Duration) -> Option<nat> {
    match limit {
        Some(d) => Some(
            if d.total() <= elapsed.total() {
                0
            } else {
                (d.total() - elapsed.total()) as nat
            },
        ),
        None => None,
    }
}

/// A limit in nanoseconds.
pub open spec fn nanos_of(limit: Option<Duration>) -> Option<nat> {
    match limit {
        Some(d) => Some(d.total()),
        None => None,
    }
}

/// The limit on a step is within both limits: no step may take longer than steps may,
/// and none may go on when the time of its job is over. There is no limit only where
/// neither is set.
pub proof fn law_step_limit(step: Option<Duration>, job: Option<Duration>, elapsed: Duration)
    ensures
        ({
            let limit = tighter(nanos_of(step), left_of(job, elapsed));
            &&& limit is None <==> step is None && job is None
            &&& step matches Some(s) ==> limit->0 <= s.total()
            &&& job matches Some(j) ==> limit->0 == 0 || elapsed.total() + limit->0 <= j.total()
        }),
{
}

/// What is to be done about a step that was launched.
#[derive(Debug, Clone, Copy, PartialEq, Eq, Structural)]
pub enum StepWatch {
    /// Wait a little.
    Wait,
    /// Kill it: its time is over.
    Kill,
    /// Take its result: it is over.
    Take,
}

/// What is to be done about a step that has taken `elapsed` nanoseconds.
pub open spec fn watched(limit: Option<nat>, elapsed: nat, over: bool) -> StepWatch {
    if over {
        StepWatch::Take
    } else {
        match limit {
            Some(n) => if elapsed > n {
                StepWatch::Kill
            } else {
                StepWatch::Wait
            },
            None => StepWatch::Wait,
        }
    }
}

/// What is to be done about a step that has taken `elapsed` under a limit in
/// nanoseconds, and is over or not.
pub fn watch_step(limit: Option<u128>, elapsed: Duration, over: bool) -> (w: StepWatch)
    ensures
        w == watched(
            match limit {
                Some(n) => Some(n as nat),
                None => None,
            },
            elapsed.total(),
            over,
        ),
{
    if over {
        return StepWatch::Take;
    }
    match limit {
        Some(n) => if elapsed.as_nanos() > n {
            StepWatch::Kill
        } else {
            StepWatch::Wait
        },
        None => StepWatch::Wait,
    }
}

impl ShellExecutor {
    /// How long the next step of a job may take, in nanoseconds, when the job has
    /// taken `elapsed` so far: the limit on each step or what is left of the limit
    /// on the job, whichever is tighter.
    pub fn step_limit(&self, job: &Job, elapsed: Duration) -> (r: Option<u128>)
        ensures
            match r {
                Some(n) => tighter(nanos_of(self.timeout), left_of(job@.timeout, elapsed)) == Some(
                    n as nat,
                ),
                None => tighter(nanos_of(self.timeout), left_of(job@.timeout, elapsed)) is None,
            },
    {
        let left = match job.timeout {
            Some(d) => {
                let cap: u128 = d.as_nanos();
                let spent: u128 = elapsed.as_nanos();
                if cap <= spent {
                    Some(0u128)
                } else {
                    Some(cap - spent)
                }
            },
            None => None,
        };
        match self.timeout {
            Some(d) => {
                let own: u128 = d.as_nanos();
                match left {
                    Some(n) => if own <= n {
                        Some(own)
                    } else {
                        Some(n)
                    },
                    None => Some(own),
                }
            },
            None => left,
        }
    }
}

/// The run of a job by the shell. [`ShellRun::action`] says what is to be done
/// next; [`ShellRun::take_step`] and [`ShellRun::take_output`] take the results.
pub struct ShellRun<'a> {
    job: &'a Job,
    steps: usize,
    outputs: usize,
    success: bool,
    exit_code: Option<i32>,
    logs: String,
    artifacts: Artifacts,
}

impl<'a> View for ShellRun<'a> {
    type V = ShellView;

    closed spec fn view(&self) -> ShellView {
        ShellView {
            steps: self.steps as nat,
            outputs: self.outputs as nat,
            success: self.success,
            exit_code: self.exit_code,
            logs: self.logs@,
            artifacts: self.artifacts@,
        }
    }
}

impl<'a> ShellRun<'a> {
    /// The job that is run.
    pub closed spec fn job(&self) -> JobView {
        self.job@
    }

    /// Begins the run of a job.
    pub fn new(job: &'a Job) -> (s: Self)
        ensures
            s.job() == job@,
            s@ == first(job@),
    {
        let mut s = ShellRun {
            job,
            steps: 0,
            outputs: 0,
            success: true,
            exit_code: Some(0),
            logs: String::new(),
            artifacts: Artifacts::new(),
        };
        assert(s@ =~= (ShellView {
            steps: 0,
            outputs: 0,
            success: true,
            exit_code: Some(0i32),
            logs: Seq::empty(),
            artifacts: Seq::empty(),
        }));
        s.pass_loose();
        s
    }

    /// What is to be done next.
    pub fn action(&self) -> (a: ShellAction)
        ensures
            a == next_action(self.job(), self@),
    {
        if self.success && self.steps < self.job.steps.len() {
            ShellAction::Step(self.steps)
        } else if self.success && self.outputs < self.job.produces.len() {
            ShellAction::Collect(self.outputs)
        } else {
            ShellAction::Done
        }
    }

    /// Refuses the outputs that come next but are not confined.
    fn pass_loose(&mut self)
        ensures
            final(self).job() == old(self).job(),
            final(self)@ == refuse_loose(old(self).job(), old(self)@),
    {
        let ghost job = self.job();
        while self.success && self.steps >= self.job.steps.len() && self.outputs
            < self.job.produces.len() && !safepath::is_confined(
            self.job.produces[self.outputs].as_str(),
        )
            invariant
                job == self.job(),
                job == old(self).job(),
                refuse_loose(job, self@) == refuse_loose(job, old(self)@),
            decreases self.job.produces.len() - self.outputs,
        {
            let ghost before = self@;
            assert(job.produces[self.outputs as int] == self.job.produces@[self.outputs as int]@);
            self.logs.append("\n[relay] declared output missing: ");
            self.logs.append(self.job.produces[self.outputs].as_str());
            self.logs.append(" (");
            self.logs.append("path escapes the workspace");
            self.logs.append(")\n");
            self.outputs += 1;
            assert(self@.logs =~= before.logs + missing_note(
                job.produces[before.outputs as int],
                "path escapes the workspace"@,
            ));
        }
        proof {
            if self.outputs < self.job.produces@.len() {
                assert(job.produces[self.outputs as int]
                    == self.job.produces@[self.outputs as int]@);
            }
        }
    }

    /// Takes the result of the step that was to be run.
    pub fn take_step(&mut self, result: StepResult)
        requires
            next_action(old(self).job(), old(self)@) is Step,
        ensures
            final(self).job() == old(self).job(),
            final(self)@ == refuse_loose(
                old(self).job(),
                after_step(
                    old(self)@,
                    old(self).job().steps[old(self)@.steps as int],
                    result,
                ),
            ),
    {
        let ghost before = self@;
        let ghost step = self.job().steps[self.steps as int];
        let total: usize = self.job.steps.len();
        assert(self.steps < total);
        let text = self.job.steps[self.steps].as_str();
        assert(text@ == step);
        match &result {
            StepResult::Ended { success, code, stdout, stderr, timed_out } => {
                self.logs.append(content::text_of_bytes(stdout.as_slice()).as_str());
                self.logs.append(content::text_of_bytes(stderr.as_slice()).as_str());
                assert(self.logs@ =~= before.logs + printed_by(stdout@, stderr@));
                if !*success || *timed_out {
                    self.success = false;
                    self.exit_code = *code;
                    if *timed_out {
                        let ghost so_far = self.logs@;
                        self.logs.append("\n[relay] step timed out: ");
                        self.logs.append(text);
                        self.logs.append("\n");
                        assert(self.logs@ =~= so_far + timed_out_note(step));
                    }
                }
            },
            StepResult::NotLaunched { error } => {
                self.logs.append("\n[relay] failed to launch step '");
                self.logs.append(text);
                self.logs.append("': ");
                self.logs.append(error.as_str());
                self.logs.append("\n");
                assert(self.logs@ =~= before.logs + not_launched_note(step, error@));
                self.success = false;
                self.exit_code = None;
            },
        }
        self.steps += 1;
        assert(self@ =~= after_step(before, step, result));
        self.pass_loose();
    }

    /// Takes the result of looking for the output that was to be collected.
    pub fn take_output(&mut self, result: OutputResult)
        requires
            next_action(old(self).job(), old(self)@) is Collect,
        ensures
            final(self).job() == old(self).job(),
            final(self)@ == refuse_loose(
                old(self).job(),
                after_output(
                    old(self)@,
                    old(self).job().produces[old(self)@.outputs as int],
                    result,
                ),
            ),
    {
        let ghost before = self@;
        let ghost path = self.job().produces[self.outputs as int];
        let total: usize = self.job.produces.len();
        assert(self.outputs < total);
        let name = self.job.produces[self.outputs].as_str();
        assert(name@ == path);
        match &result {
            OutputResult::Found { data } => {
                self.artifacts.insert(name, executor::copy_bytes(data));
            },
            OutputResult::Missing { error } => {
                self.logs.append("\n[relay] declared output missing: ");
                self.logs.append(name);
                self.logs.append(" (");
                self.logs.append(error.as_str());
                self.logs.append(")\n");
                assert(self.logs@ =~= before.logs + missing_note(path, error@));
            },
        }
        self.outputs += 1;
        assert(self@ =~= after_output(before, path, result));
        self.pass_loose();
    }

    /// What the job came to, when it took that long.
    pub fn into_outcome(self, duration: Duration) -> (o: JobOutcome)
        ensures
            o@ == (OutcomeView {
                success: self@.success,
                exit_code: self@.exit_code,
                logs: self@.logs,
                artifacts: self@.artifacts,
                duration,
            }),
    {
        JobOutcome {
            success: self.success,
            exit_code: self.exit_code,
            logs: self.logs,
            artifacts: self.artifacts,
            duration,
        }
    }
}

} // verus!
