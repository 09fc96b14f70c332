//! What the records of a mock say of the calls that were made.

use vstd::prelude::*;

use crate::executor;
use crate::executor::Call;
use crate::mock;
use crate::mock::{MockExecutor, Stats};

verus! {

/// The names of the jobs that the calls hand over, in order.
pub open spec fn handed_over(calls: Seq<Call>) -> Seq<Seq<char>> {
    calls.filter(|c: Call| c is Run).map_values(|c: Call| c->job.name)
}

/// The mock records every job that was handed over, in order and as often as it was.
pub proof fn law_started(calls: Seq<Call>)
    ensures
        Stats::of(calls).started == handed_over(calls),
        Stats::of(calls).ran == handed_over(calls),
    decreases calls.len(),
{
    reveal(Seq::filter);
    if calls.len() == 0 {
        assert(handed_over(calls) =~= Seq::empty());
    } else {
        law_started(calls.drop_last());
        if calls.last() is Run {
            assert(handed_over(calls) =~= handed_over(calls.drop_last()).push(
                calls.last()->job.name,
            ));
        } else {
            assert(handed_over(calls) =~= handed_over(calls.drop_last()));
        }
    }
}

/// The jobs that were running after the first `k` calls.
pub open spec fn running_after(calls: Seq<Call>, k: int) -> Seq<Seq<char>> {
    Stats::of(calls.take(k)).running
}

/// A job is running from the call that hands it over to the call that retires it: it is
/// added at the end, and the first of its name is taken away.
pub proof fn law_running(calls: Seq<Call>, call: Call)
    ensures
        ({
            let before = Stats::of(calls).running;
            let after = Stats::of(calls.push(call)).running;
            match call {
                Call::Run { job, .. } => after == before.push(job.name),
                Call::Finish { name } => {
                    &&& !before.contains(name) ==> after == before
                    &&& forall|k: int|
                        0 <= k < before.len() && #[trigger] before[k] == name && !before.take(
                            k,
                        ).contains(name) ==> after == before.remove(k)
                },
                Call::Read { .. } => after == before,
            }
        }),
{
    assert(calls.push(call).drop_last() =~= calls);
    if let Call::Finish { name } = call {
        let before = Stats::of(calls).running;
        assert forall|k: int|
            0 <= k < before.len() && #[trigger] before[k] == name && !before.take(k).contains(
                name,
            ) implies mock::without(before, name) == before.remove(k) by {
            lemma_without(before, name, k);
        }
        if !before.contains(name) {
            lemma_without(before, name, before.len() as int);
        }
    }
}

proof fn lemma_without(names: Seq<Seq<char>>, name: Seq<char>, k: int)
    requires
        0 <= k <= names.len(),
        !names.take(k).contains(name),
        k < names.len() ==> names[k] == name,
    ensures
        mock::without(names, name) == (if k < names.len() {
            names.remove(k)
        } else {
            names
        }),
    decreases names.len(),
{
    if k > 0 {
        let rest = names.drop_first();
        assert(names.take(k)[0] == names[0]);
        let head = rest.take(k - 1);
        assert forall|m: int| 0 <= m < head.len() implies #[trigger] head[m] != name by {
            assert(names.take(k)[m + 1] == head[m]);
        }
        lemma_without(rest, name, k - 1);
        if k < names.len() {
            assert(seq![names[0]] + rest.remove(k - 1) =~= names.remove(k));
        } else {
            assert(seq![names[0]] + rest =~= names);
        }
    } else if names.len() > 0 {
        assert(names.drop_first() =~= names.remove(0));
    }
}

/// As many jobs were live after the first `k` calls.
pub open spec fn live_after(calls: Seq<Call>, k: int) -> nat {
    Stats::of(calls.take(k)).live
}

/// The number of live jobs goes up with each one handed over and down with each one
/// retired, and never below zero.
pub proof fn law_live(calls: Seq<Call>, call: Call)
    ensures
        Stats::of(Seq::empty()).live == 0,
        match call {
            Call::Run { .. } => Stats::of(calls.push(call)).live == Stats::of(calls).live + 1,
            Call::Finish { .. } => Stats::of(calls).live > 0 ==> Stats::of(calls.push(call)).live
                == Stats::of(calls).live - 1,
            Call::Read { .. } => Stats::of(calls.push(call)).live == Stats::of(calls).live,
        },
        call is Finish && Stats::of(calls).live == 0 ==> Stats::of(calls.push(call)).live == 0,
{
    assert(calls.push(call).drop_last() =~= calls);
}

/// The first time that as many jobs were live as ever after.
pub open spec fn is_first_peak(calls: Seq<Call>, k: int) -> bool {
    &&& 0 <= k <= calls.len()
    &&& forall|m: int| 0 <= m <= calls.len() ==> #[trigger] live_after(calls, m) <= live_after(
        calls,
        k,
    )
    &&& forall|m: int| 0 <= m < k ==> #[trigger] live_after(calls, m) < live_after(calls, k)
}

/// The recorded concurrency is the most jobs that were ever live at once, and the recorded
/// names are those that were running when that many were live for the first time.
pub proof fn law_peak(calls: Seq<Call>) -> (k: int)
    ensures
        is_first_peak(calls, k),
        Stats::of(calls).max_concurrency == live_after(calls, k),
        Stats::of(calls).peak_running == running_after(calls, k),
    decreases calls.len(),
{
    if calls.len() == 0 {
        assert(calls.take(0) =~= calls);
        0
    } else {
        let rest = calls.drop_last();
        let last = calls.len() as int;
        let k = law_peak(rest);
        assert forall|m: int| 0 <= m < last implies #[trigger] live_after(calls, m) == live_after(
            rest,
            m,
        ) && running_after(calls, m) == running_after(rest, m) by {
            assert(calls.take(m) =~= rest.take(m));
        }
        assert(calls.take(last) =~= calls);
        assert(live_after(calls, k) == live_after(rest, k));
        assert(rest.take(rest.len() as int) =~= rest);
        assert(live_after(rest, rest.len() as int) == Stats::of(rest).live);
        if live_after(calls, last) > live_after(calls, k) {
            assert forall|m: int| 0 <= m < last implies #[trigger] live_after(calls, m)
                < live_after(calls, last) by {
                assert(live_after(rest, m) <= live_after(rest, k));
            }
            last
        } else {
            assert forall|m: int| 0 <= m <= last implies #[trigger] live_after(calls, m)
                <= live_after(calls, k) by {
                if m < last {
                    assert(live_after(rest, m) <= live_after(rest, k));
                }
            }
            assert forall|m: int| 0 <= m < k implies #[trigger] live_after(calls, m) < live_after(
                calls,
                k,
            ) by {
                assert(live_after(rest, m) < live_after(rest, k));
            }
            k
        }
    }
}

/// A job without a script succeeds after a millisecond and leaves nothing behind. One with
/// a script ends as that says, and leaves its artifacts, the last of each name. The exit
/// code is zero exactly where the job succeeds, and there are no logs.
pub proof fn law_outcome(m: &MockExecutor, name: Seq<char>)
    ensures
        ({
            let o = m.outcome_of(name);
            &&& match m.script(name) {
                Some(s) => {
                    &&& o.success == s.success
                    &&& o.duration == s.duration
                    &&& executor::by_name(o.artifacts) == executor::by_name(s.artifacts)
                },
                None => {
                    &&& o.success
                    &&& o.duration.total() == 1_000_000
                    &&& o.artifacts.len() == 0
                },
            }
            &&& o.exit_code == Some(0i32) <==> o.success
            &&& o.exit_code == Some(1i32) <==> !o.success
            &&& o.logs.len() == 0
            &&& executor::ascending(o.artifacts)
        }),
{
    let none = Seq::<(Seq<char>, Seq<u8>)>::empty();
    if let Some(s) = m.script(name) {
        executor::law_with_items(none, s.artifacts);
        executor::law_with_items_ascend(none, s.artifacts);
        assert(executor::by_name(m.outcome_of(name).artifacts) =~= executor::by_name(s.artifacts));
    }
}

} // verus!
