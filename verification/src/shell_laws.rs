//! What a run of a job by the shell comes to.

use vstd::prelude::*;

use crate::content;
use crate::duration::Duration;
use crate::executor;
use crate::pipeline::JobView;
use crate::safepath;
use crate::shell;
use crate::shell::{OutputResult, ShellAction, ShellView, StepResult, StepWatch};

verus! {

/// As long as no step has failed the next step is run; when all have passed the next
/// declared output is read; and only when both are through, or a step has failed, the
/// job is over.
pub proof fn law_next_action(job: JobView, v: ShellView)
    requires
        job.steps.len() <= usize::MAX,
        job.produces.len() <= usize::MAX,
    ensures
        v.success && v.steps < job.steps.len() ==> shell::next_action(job, v) == ShellAction::Step(
            v.steps as usize,
        ),
        v.success && v.steps >= job.steps.len() && v.outputs < job.produces.len()
            ==> shell::next_action(job, v) == ShellAction::Collect(v.outputs as usize),
        shell::next_action(job, v) == ShellAction::Done <==> !v.success || (v.steps
            >= job.steps.len() && v.outputs >= job.produces.len()),
{
}

/// The step ended in time and with success.
pub open spec fn passed(r: StepResult) -> bool {
    r matches StepResult::Ended { success, timed_out, .. } && success && !timed_out
}

/// What the logs get from a step.
pub open spec fn logged(step: Seq<char>, r: StepResult) -> Seq<char> {
    match r {
        StepResult::Ended { stdout, stderr, timed_out, .. } => content::lossy_text(stdout@)
            + content::lossy_text(stderr@) + (if timed_out {
            "\n[relay] step timed out: "@ + step + "\n"@
        } else {
            Seq::empty()
        }),
        StepResult::NotLaunched { error } => "\n[relay] failed to launch step '"@ + step + "': "@
            + error@ + "\n"@,
    }
}

/// What the logs get from the first `n` steps.
pub open spec fn logged_by(steps: Seq<Seq<char>>, results: Seq<StepResult>, n: int) -> Seq<char>
    decreases n,
{
    if n <= 0 {
        Seq::empty()
    } else {
        logged_by(steps, results, n - 1) + logged(steps[n - 1], results[n - 1])
    }
}

/// One step makes one step more, adds what it printed to the logs, and has the job fail
/// unless it passed. Nothing else changes.
pub proof fn law_step_taken(v: ShellView, step: Seq<char>, r: StepResult)
    ensures
        ({
            let w = shell::after_step(v, step, r);
            &&& w.steps == v.steps + 1
            &&& w.outputs == v.outputs
            &&& w.artifacts == v.artifacts
            &&& w.logs == v.logs + logged(step, r)
            &&& w.success <==> v.success && passed(r)
            &&& passed(r) ==> w.exit_code == v.exit_code
            &&& !passed(r) ==> w.exit_code == (match r {
                StepResult::Ended { code, .. } => code,
                StepResult::NotLaunched { .. } => None,
            })
        }),
{
    let w = shell::after_step(v, step, r);
    match r {
        StepResult::Ended { stdout, stderr, timed_out, .. } => {
            assert(w.logs =~= v.logs + logged(step, r));
        },
        StepResult::NotLaunched { .. } => {},
    }
}

/// How a run has come along with the results of the first steps.
pub open spec fn after_steps(job: JobView, results: Seq<StepResult>) -> ShellView
    decreases results.len(),
{
    if results.len() == 0 {
        shell::first(job)
    } else {
        let v = after_steps(job, results.drop_last());
        shell::refuse_loose(job, shell::after_step(v, job.steps[v.steps as int], results.last()))
    }
}

/// Refusing outputs changes neither the steps nor how the job ended, and starts only
/// when all steps have passed.
proof fn lemma_refuse(job: JobView, v: ShellView)
    ensures
        ({
            let w = shell::refuse_loose(job, v);
            &&& w.steps == v.steps
            &&& w.success == v.success
            &&& w.exit_code == v.exit_code
            &&& w.artifacts == v.artifacts
            &&& !v.success || v.steps < job.steps.len() ==> w == v
        }),
    decreases job.produces.len() - v.outputs,
{
    if shell::collecting(job, v) && !safepath::confined(job.produces[v.outputs as int]) {
        let note = shell::missing_note(
            job.produces[v.outputs as int],
            "path escapes the workspace"@,
        );
        lemma_refuse(job, ShellView { outputs: v.outputs + 1, logs: v.logs + note, ..v });
    }
}

/// Steps run in order and stop at the first failure: the job has succeeded exactly when
/// all results so far passed; its exit code is zero until a step fails, and then that
/// step's; its logs hold what every step printed, in order.
pub proof fn law_steps_in_order(job: JobView, results: Seq<StepResult>)
    requires
        results.len() <= job.steps.len(),
        forall|k: int| 0 <= k < results.len() - 1 ==> passed(#[trigger] results[k]),
    ensures
        ({
            let v = after_steps(job, results);
            &&& v.steps == results.len()
            &&& v.success <==> forall|k: int| 0 <= k < results.len() ==> passed(#[trigger] results[k])
            &&& v.success ==> v.exit_code == Some(0i32)
            &&& !v.success ==> v.exit_code == (match results.last() {
                StepResult::Ended { code, .. } => code,
                StepResult::NotLaunched { .. } => None,
            })
            &&& v.artifacts == Seq::<(Seq<char>, Seq<u8>)>::empty()
            &&& results.len() < job.steps.len() || !v.success ==> v.logs == logged_by(
                job.steps,
                results,
                results.len() as int,
            ) && v.outputs == 0
        }),
    decreases results.len(),
{
    let n = results.len() as int;
    if n == 0 {
        lemma_refuse(
            job,
            ShellView {
                steps: 0,
                outputs: 0,
                success: true,
                exit_code: Some(0i32),
                logs: Seq::empty(),
                artifacts: Seq::empty(),
            },
        );
    } else {
        let before = results.drop_last();
        assert forall|k: int| 0 <= k < before.len() implies passed(#[trigger] before[k]) by {
            assert(passed(results[k]));
        }
        law_steps_in_order(job, before);
        let v = after_steps(job, before);
        let step = job.steps[n - 1];
        law_step_taken(v, step, results.last());
        lemma_refuse(job, shell::after_step(v, step, results.last()));
        lemma_logged_same(job.steps, before, results, n - 1);
        assert(results[n - 1] == results.last());
        if passed(results.last()) {
            assert forall|k: int| 0 <= k < results.len() implies passed(#[trigger] results[k]) by {
                if k < n - 1 {
                    assert(passed(before[k]));
                }
            }
        }
    }
}

proof fn lemma_logged_same(
    steps: Seq<Seq<char>>,
    a: Seq<StepResult>,
    b: Seq<StepResult>,
    n: int,
)
    requires
        n <= a.len(),
        n <= b.len(),
        forall|k: int| 0 <= k < n ==> a[k] == #[trigger] b[k],
    ensures
        logged_by(steps, a, n) == logged_by(steps, b, n),
    decreases n,
{
    if n > 0 {
        lemma_logged_same(steps, a, b, n - 1);
    }
}

/// One output makes one output more. One that is found becomes the artifact of its
/// path; one that is not is noted in the logs. How the job ended does not change.
pub proof fn law_output_taken(v: ShellView, path: Seq<char>, r: OutputResult)
    requires
        executor::ascending(v.artifacts),
    ensures
        ({
            let w = shell::after_output(v, path, r);
            &&& w.steps == v.steps
            &&& w.outputs == v.outputs + 1
            &&& w.success == v.success
            &&& w.exit_code == v.exit_code
            &&& executor::ascending(w.artifacts)
            &&& match r {
                OutputResult::Found { data } => executor::by_name(w.artifacts)
                    == executor::by_name(v.artifacts).insert(path, data@) && w.logs == v.logs,
                OutputResult::Missing { error } => w.artifacts == v.artifacts && w.logs == v.logs
                    + "\n[relay] declared output missing: "@ + path + " ("@ + error@ + ")\n"@,
            }
        }),
{
    match r {
        OutputResult::Found { data } => {
            executor::law_with_item(v.artifacts, path, data@);
        },
        OutputResult::Missing { error } => {
            assert(shell::after_output(v, path, r).logs =~= v.logs
                + "\n[relay] declared output missing: "@ + path + " ("@ + error@ + ")\n"@);
        },
    }
}

/// An output outside the workspace is passed over, with a note in the logs, once it is
/// its turn; any other is left for its turn.
pub proof fn law_loose_output_refused(job: JobView, v: ShellView)
    ensures
        v.success && v.steps >= job.steps.len() && v.outputs < job.produces.len()
            && !safepath::confined(job.produces[v.outputs as int]) ==> shell::refuse_loose(job, v)
            == shell::refuse_loose(
            job,
            ShellView {
                outputs: v.outputs + 1,
                logs: v.logs + ("\n[relay] declared output missing: "@
                    + job.produces[v.outputs as int] + " ("@ + "path escapes the workspace"@
                    + ")\n"@),
                ..v
            },
        ),
        !v.success || v.steps < job.steps.len() || v.outputs >= job.produces.len()
            || safepath::confined(job.produces[v.outputs as int]) ==> shell::refuse_loose(job, v)
            == v,
{
}

/// The limit on a step is one of the two limits: what steps may take, or what is left
/// of the time of the job.
pub proof fn law_limit_is_one_of_two(
    step: Option<Duration>,
    job: Option<Duration>,
    elapsed: Duration,
)
    ensures
        ({
            let limit = shell::tighter(shell::nanos_of(step), shell::left_of(job, elapsed));
            let left = match job {
                Some(j) => j.total() - elapsed.total(),
                None => 0,
            };
            &&& limit is None <==> step is None && job is None
            &&& job is None && step is Some ==> limit == Some(step->0.total())
            &&& step is None && job is Some && left >= 0 ==> limit == Some(left as nat)
            &&& step is None && job is Some && left < 0 ==> limit == Some(0nat)
            &&& step is Some && job is Some && step->0.total() <= left ==> limit == Some(
                step->0.total(),
            )
            &&& step is Some && job is Some && 0 <= left < step->0.total() ==> limit == Some(
                left as nat,
            )
            &&& step is Some && job is Some && left < 0 ==> limit == Some(0nat)
        }),
{
}

/// A step that is over is taken; one that is past its limit is killed; any other is
/// waited for.
pub proof fn law_watch(limit: Option<nat>, elapsed: nat, over: bool)
    ensures
        shell::watched(limit, elapsed, over) == StepWatch::Take <==> over,
        shell::watched(limit, elapsed, over) == StepWatch::Kill <==> !over && limit is Some
            && elapsed > limit->0,
{
}

} // verus!
