//! What holds of every run of the scheduler with respect to the cache.

use vstd::prelude::*;

use crate::cache;
use crate::cache::EntryView;
use crate::content;
use crate::content::PathContent;
use crate::executor;
use crate::laws;
use crate::machine;
use crate::machine::{Mode, Phase, Plan, Reply, RunView, SlotView};
use crate::mock::Stats;
use crate::report::Status;
use crate::schedule;
use crate::schedule::{Progress, Setting};
use crate::soundness;

verus! {

/// What a job leaves in the cache.
pub open spec fn entry_of(slot: SlotView) -> EntryView {
    EntryView { artifacts: slot.outputs, logs: slot.logs }
}

/// A stored match marks the job CACHED: it is not executed, and its recorded
/// outputs and logs are restored. Without a match it is not CACHED.
pub proof fn law_lookup(setting: Setting, p: Progress, reply: Reply, i: usize)
    requires
        soundness::sound(setting.plan, p.run),
        p.run.mode == Mode::Lookup(i),
        schedule::fits(setting.plan, p.run, p.stored, reply),
    ensures
        ({
            let q = schedule::advance(setting, p, reply);
            let key = p.run.slots[i as int].key;
            let slot = q.run.slots[i as int];
            &&& q.calls == p.calls
            &&& q.stored == p.stored
            &&& slot.phase == Phase::Done(Status::Cached) <==> p.stored.contains_key(key)
            &&& p.stored.contains_key(key) ==> {
                &&& slot.logs == p.stored[key].logs
                &&& slot.outputs == executor::with_items(Seq::empty(), p.stored[key].artifacts)
                &&& slot.key == key
            }
            &&& !p.stored.contains_key(key) ==> {
                &&& q.run.slots == p.run.slots
                &&& machine::running_count(p.run.slots) < setting.plan.slots ==> q.run.mode
                    == Mode::Start(i)
            }
        }),
{
    let q = schedule::advance(setting, p, reply);
    assert(machine::pending(p.run.slots, i as int));
    assert(q.calls =~= p.calls);
}

/// Job `j` succeeded, has a cache block and the key `key`.
pub open spec fn keeps(plan: Plan, slots: Seq<SlotView>, j: int, key: u64) -> bool {
    &&& 0 <= j < slots.len()
    &&& slots[j].phase == Phase::Done(Status::Success)
    &&& plan.jobs[j].cache is Some
    &&& slots[j].key == key
}

/// What the cache holds under a key is what it held before, or what a job with
/// that key left behind; and every job that succeeded with a cache block has left
/// something under its key.
pub open spec fn store_sound(
    plan: Plan,
    slots: Seq<SlotView>,
    first: Map<u64, EntryView>,
    stored: Map<u64, EntryView>,
) -> bool {
    &&& forall|key: u64| first.contains_key(key) ==> #[trigger] stored.contains_key(key)
    &&& forall|key: u64| #[trigger]
        stored.contains_key(key) ==> {
            ||| first.contains_key(key) && stored[key] == first[key]
            ||| exists|j: int| #[trigger] keeps(plan, slots, j, key) && stored[key] == entry_of(
                slots[j],
            )
        }
    &&& forall|j: int, key: u64| #[trigger]
        keeps(plan, slots, j, key) ==> stored.contains_key(key) && exists|m: int| #[trigger]
            keeps(plan, slots, m, key) && stored[key] == entry_of(slots[m])
}

/// Only a retirement changes who left something in the cache.
proof fn lemma_keeps_step(plan: Plan, run: RunView, reply: Reply, j: int, key: u64)
    requires
        soundness::sound(plan, run),
    ensures
        ({
            let next = machine::after_reply(plan, run, reply).slots;
            let stores = run.mode == Mode::Finish(j as usize) && reply is Finished
                && machine::succeeds(run.slots, j) && 0 <= j < run.slots.len()
                && plan.jobs[j].cache is Some && run.slots[j].key == key;
            &&& next.len() == run.slots.len()
            &&& keeps(plan, run.slots, j, key) ==> keeps(plan, next, j, key) && next[j]
                == run.slots[j]
            &&& keeps(plan, next, j, key) ==> keeps(plan, run.slots, j, key) || stores
            &&& stores ==> keeps(plan, next, j, key) && entry_of(next[j]) == entry_of(run.slots[j])
        }),
{
    match (run.mode, reply) {
        (Mode::Probe(k), Reply::Contents(_)) => {
            assert(machine::pending(run.slots, k as int));
        },
        (Mode::Lookup(k), Reply::Entry(_)) => {
            assert(machine::pending(run.slots, k as int));
        },
        (Mode::Start(k), Reply::Outcome(_)) => {
            assert(machine::pending(run.slots, k as int));
        },
        (Mode::Finish(k), Reply::Finished) => {
            assert(machine::due(run.slots, run.clock, k as int));
        },
        _ => {},
    }
}

proof fn lemma_store_step(
    plan: Plan,
    run: RunView,
    reply: Reply,
    first: Map<u64, EntryView>,
    stored: Map<u64, EntryView>,
)
    requires
        soundness::sound(plan, run),
        schedule::fits(plan, run, stored, reply),
        store_sound(plan, run.slots, first, stored),
    ensures
        store_sound(
            plan,
            machine::after_reply(plan, run, reply).slots,
            first,
            schedule::stored_after(plan, run, stored),
        ),
{
    let slots = run.slots;
    let next = machine::after_reply(plan, run, reply).slots;
    let after = schedule::stored_after(plan, run, stored);
    assert forall|key: u64| #[trigger] after.contains_key(key) implies {
        ||| first.contains_key(key) && after[key] == first[key]
        ||| exists|j: int| #[trigger] keeps(plan, next, j, key) && after[key] == entry_of(next[j])
    } by {
        lemma_store_at(plan, run, reply, first, stored, key);
    }
    assert forall|j: int, key: u64| #[trigger] keeps(plan, next, j, key) implies after.contains_key(
        key,
    ) && exists|m: int| #[trigger] keeps(plan, next, m, key) && after[key] == entry_of(next[m]) by {
        lemma_keeps_step(plan, run, reply, j, key);
        lemma_store_at(plan, run, reply, first, stored, key);
    }
    assert forall|key: u64| first.contains_key(key) implies #[trigger] after.contains_key(key) by {
        assert(stored.contains_key(key));
    }
}

/// What the cache holds under one key after an answer.
proof fn lemma_store_at(
    plan: Plan,
    run: RunView,
    reply: Reply,
    first: Map<u64, EntryView>,
    stored: Map<u64, EntryView>,
    key: u64,
)
    requires
        soundness::sound(plan, run),
        schedule::fits(plan, run, stored, reply),
        store_sound(plan, run.slots, first, stored),
    ensures
        ({
            let next = machine::after_reply(plan, run, reply).slots;
            let after = schedule::stored_after(plan, run, stored);
            let kept = exists|m: int| #[trigger]
                keeps(plan, next, m, key) && after[key] == entry_of(next[m]);
            &&& after.contains_key(key) ==> kept || (first.contains_key(key) && after[key]
                == first[key])
            &&& (exists|j: int| #[trigger] keeps(plan, next, j, key)) ==> after.contains_key(key)
                && kept
        }),
{
    let slots = run.slots;
    let next = machine::after_reply(plan, run, reply).slots;
    let after = schedule::stored_after(plan, run, stored);
    let kept = exists|m: int| #[trigger]
        keeps(plan, next, m, key) && after[key] == entry_of(next[m]);
    let stores = run.mode is Finish && machine::succeeds(slots, run.mode->Finish_0 as int)
        && plan.jobs[run.mode->Finish_0 as int].cache is Some
        && slots[run.mode->Finish_0 as int].key == key;
    if stores {
        let m = run.mode->Finish_0 as int;
        lemma_keeps_step(plan, run, reply, m, key);
        assert(after[key] == entry_of(slots[m]));
        assert(keeps(plan, next, m, key) && after[key] == entry_of(next[m]));
    } else {
        assert(after.contains_key(key) == stored.contains_key(key));
        if stored.contains_key(key) {
            assert(after[key] == stored[key]);
            if exists|m: int| #[trigger]
                keeps(plan, slots, m, key) && stored[key] == entry_of(slots[m]) {
                let m = choose|m: int| #[trigger]
                    keeps(plan, slots, m, key) && stored[key] == entry_of(slots[m]);
                lemma_keeps_step(plan, run, reply, m, key);
                assert(keeps(plan, next, m, key) && after[key] == entry_of(next[m]));
            }
        }
        if exists|j: int| #[trigger] keeps(plan, next, j, key) {
            let j = choose|j: int| #[trigger] keeps(plan, next, j, key);
            lemma_keeps_step(plan, run, reply, j, key);
            assert(keeps(plan, slots, j, key));
            assert(stored.contains_key(key));
            let m = choose|m: int| #[trigger]
                keeps(plan, slots, m, key) && stored[key] == entry_of(slots[m]);
            lemma_keeps_step(plan, run, reply, m, key);
            assert(keeps(plan, next, m, key) && after[key] == entry_of(next[m]));
        }
    }
}

/// On success of a job that has a cache block, its entry is stored under its key.
/// Nothing else is stored, and nothing is taken out.
pub proof fn law_store(setting: Setting, replies: Seq<Reply>)
    requires
        soundness::valid_plan(setting.plan),
        schedule::all_fit(setting, replies),
    ensures
        ({
            let p = schedule::progress_after(setting, replies);
            store_sound(setting.plan, p.run.slots, setting.stored, p.stored)
        }),
    decreases replies.len(),
{
    if replies.len() > 0 {
        let before = replies.drop_last();
        law_store(setting, before);
        schedule::lemma_sound(setting, before);
        let p = schedule::progress_after(setting, before);
        lemma_store_step(setting.plan, p.run, replies.last(), setting.stored, p.stored);
    } else {
        let fresh = Seq::new(setting.plan.jobs.len(), |i: int| machine::fresh());
        assert(schedule::progress_after(setting, replies).run.slots == fresh);
    }
}

/// Every job's outputs ascend by name.
pub open spec fn outputs_ascend(slots: Seq<SlotView>) -> bool {
    forall|i: int| 0 <= i < slots.len() ==> executor::ascending((#[trigger] slots[i]).outputs)
}

proof fn lemma_outputs_step(plan: Plan, run: RunView, stored: Map<u64, EntryView>, reply: Reply)
    requires
        soundness::sound(plan, run),
        schedule::fits(plan, run, stored, reply),
        outputs_ascend(run.slots),
    ensures
        outputs_ascend(machine::after_reply(plan, run, reply).slots),
{
    let next = machine::after_reply(plan, run, reply).slots;
    match (run.mode, reply) {
        (Mode::Lookup(k), Reply::Entry(Some(e))) => {
            executor::law_with_items_ascend(Seq::empty(), e@.artifacts);
            assert(next == machine::hit(plan, run, k as int, e@).slots);
        },
        (Mode::Start(k), Reply::Outcome(o)) => {
            assert(next == machine::begun(plan, run, k as int, o).slots);
        },
        _ => {},
    }
    assert forall|i: int| 0 <= i < next.len() implies executor::ascending(
        (#[trigger] next[i]).outputs,
    ) by {
        assert(executor::ascending(run.slots[i].outputs));
    }
}

/// The outputs of a job ascend by name, so that nothing is lost or doubled when
/// they are stored and restored.
pub proof fn law_outputs_ascend(setting: Setting, replies: Seq<Reply>)
    requires
        soundness::valid_plan(setting.plan),
        schedule::all_fit(setting, replies),
    ensures
        outputs_ascend(schedule::progress_after(setting, replies).run.slots),
    decreases replies.len(),
{
    if replies.len() > 0 {
        let before = replies.drop_last();
        law_outputs_ascend(setting, before);
        schedule::lemma_sound(setting, before);
        let p = schedule::progress_after(setting, before);
        lemma_outputs_step(setting.plan, p.run, p.stored, replies.last());
    } else {
        let fresh = Seq::new(setting.plan.jobs.len(), |i: int| machine::fresh());
        assert(schedule::progress_after(setting, replies).run.slots == fresh);
    }
}

/// A cache hit gives back what a run stored: when job `i` of one run stored its
/// entry and a later lookup finds that entry, the later job has the same outputs
/// and logs, so that dependents see what they would have seen.
pub proof fn law_hit_restores(
    first: Setting,
    replies: Seq<Reply>,
    i: int,
    second: Setting,
    p: Progress,
    reply: Reply,
    j: usize,
)
    requires
        soundness::valid_plan(first.plan),
        schedule::all_fit(first, replies),
        0 <= i < first.plan.jobs.len(),
        soundness::sound(second.plan, p.run),
        p.run.mode == Mode::Lookup(j),
        schedule::fits(second.plan, p.run, p.stored, reply),
        p.stored.contains_key(p.run.slots[j as int].key),
        p.stored[p.run.slots[j as int].key] == entry_of(
            schedule::progress_after(first, replies).run.slots[i],
        ),
    ensures
        ({
            let a = schedule::progress_after(first, replies).run.slots[i];
            let b = schedule::advance(second, p, reply).run.slots[j as int];
            b.phase == Phase::Done(Status::Cached) && b.outputs == a.outputs && b.logs == a.logs
        }),
{
    schedule::lemma_sound(first, replies);
    law_outputs_ascend(first, replies);
    law_lookup(second, p, reply, j);
    executor::law_rebuilt(schedule::progress_after(first, replies).run.slots[i].outputs);
}

/// The key of job `i` is that of `contents` and of what the jobs it needs handed down.
pub open spec fn keyed(plan: Plan, slots: Seq<SlotView>, i: int, contents: Seq<PathContent>) -> bool {
    slots[i].key == cache::cache_key(
        plan.jobs[i],
        contents,
        machine::inputs_of(plan, slots, i),
        machine::dep_keys(plan, slots, i),
    )
}

/// Answer `k` is what was read at the declared paths of job `i`.
pub open spec fn probed(setting: Setting, replies: Seq<Reply>, i: int, k: int) -> bool {
    &&& 0 <= k < replies.len()
    &&& schedule::progress_after(setting, replies.take(k)).run.mode == Mode::Probe(i as usize)
    &&& replies[k] is Contents
}

/// The key of job `i` is known.
pub open spec fn has_key(run: RunView, i: int) -> bool {
    ||| soundness::started(run.slots[i])
    ||| run.mode == Mode::Lookup(i as usize)
    ||| run.mode == Mode::Start(i as usize)
}

proof fn lemma_merged_same(a: Seq<SlotView>, b: Seq<SlotView>, ds: Seq<usize>)
    requires
        forall|d: usize| #[trigger] ds.contains(d) ==> a[d as int].outputs == b[d as int].outputs,
    ensures
        machine::merged(a, ds) == machine::merged(b, ds),
    decreases ds.len(),
{
    if ds.len() > 0 {
        let rest = ds.drop_last();
        assert forall|d: usize| #[trigger] rest.contains(d) implies a[d as int].outputs
            == b[d as int].outputs by {
            let k = rest.index_of(d);
            assert(ds[k] == d);
            assert(ds.contains(d));
        }
        lemma_merged_same(a, b, rest);
        assert(ds.contains(ds.last()));
    }
}

/// What is handed down depends on the jobs needed alone.
proof fn lemma_upstream_same(plan: Plan, a: Seq<SlotView>, b: Seq<SlotView>, i: int)
    requires
        forall|d: usize| #[trigger]
            plan.deps[i].contains(d) ==> a[d as int].outputs == b[d as int].outputs
                && a[d as int].key == b[d as int].key,
    ensures
        machine::inputs_of(plan, a, i) == machine::inputs_of(plan, b, i),
        machine::dep_keys(plan, a, i) == machine::dep_keys(plan, b, i),
{
    lemma_merged_same(a, b, plan.deps[i]);
    assert forall|k: int| 0 <= k < plan.deps[i].len() implies machine::dep_keys(plan, a, i)[k]
        == machine::dep_keys(plan, b, i)[k] by {
        assert(plan.deps[i].contains(plan.deps[i][k]));
    }
    assert(machine::dep_keys(plan, a, i) =~= machine::dep_keys(plan, b, i));
}

/// While the key of a job is known, what it was computed from does not change.
proof fn lemma_keyed_step(plan: Plan, run: RunView, reply: Reply, i: int)
    requires
        soundness::sound(plan, run),
        0 <= i < run.slots.len(),
        has_key(machine::after_reply(plan, run, reply), i),
    ensures
        ({
            let next = machine::after_reply(plan, run, reply);
            if run.mode == Mode::Probe(i as usize) && reply is Contents {
                keyed(plan, next.slots, i, reply->Contents_0@)
            } else {
                has_key(run, i) && forall|c: Seq<PathContent>|
                    keyed(plan, run.slots, i, c) ==> #[trigger] keyed(plan, next.slots, i, c)
            }
        }),
{
    let next = machine::after_reply(plan, run, reply);
    assert(!plan.deps[i].contains(i as usize));
    if run.mode == Mode::Probe(i as usize) && reply is Contents {
        assert forall|d: usize| #[trigger] plan.deps[i].contains(d) implies run.slots[
            d as int].outputs == next.slots[d as int].outputs && run.slots[d as int].key
            == next.slots[d as int].key by {}
        lemma_upstream_same(plan, run.slots, next.slots, i);
    } else {
        lemma_has_key_step(plan, run, reply, i);
        assert(soundness::slot_sound(plan, run, i));
        assert forall|d: usize| #[trigger] plan.deps[i].contains(d) implies run.slots[
            d as int].outputs == next.slots[d as int].outputs && run.slots[d as int].key
            == next.slots[d as int].key by {
            assert(machine::done(run.slots, d as int));
            laws::lemma_follows_step(plan, run, reply, d as int);
        }
        lemma_upstream_same(plan, run.slots, next.slots, i);
    }
}

proof fn lemma_has_key_step(plan: Plan, run: RunView, reply: Reply, i: int)
    requires
        soundness::sound(plan, run),
        0 <= i < run.slots.len(),
        has_key(machine::after_reply(plan, run, reply), i),
        !(run.mode == Mode::Probe(i as usize) && reply is Contents),
    ensures
        has_key(run, i),
        machine::after_reply(plan, run, reply).slots[i].key == run.slots[i].key,
{
    match (run.mode, reply) {
        (Mode::Probe(k), Reply::Contents(_)) => {
            assert(machine::pending(run.slots, k as int));
        },
        (Mode::Lookup(k), Reply::Entry(_)) => {
            assert(machine::pending(run.slots, k as int));
        },
        (Mode::Start(k), Reply::Outcome(_)) => {
            assert(machine::pending(run.slots, k as int));
        },
        (Mode::Finish(k), Reply::Finished) => {
            assert(machine::due(run.slots, run.clock, k as int));
        },
        _ => {},
    }
}

/// The key of a job that was started or resolved from the cache is that of its
/// config, of the content of its declared paths as it was read during the run, and
/// of the keys and outputs of the jobs it needs.
pub proof fn law_key_of_inputs(setting: Setting, replies: Seq<Reply>, i: int) -> (k: int)
    requires
        soundness::valid_plan(setting.plan),
        0 <= i < setting.plan.jobs.len(),
        has_key(schedule::progress_after(setting, replies).run, i),
    ensures
        probed(setting, replies, i, k),
        keyed(
            setting.plan,
            schedule::progress_after(setting, replies).run.slots,
            i,
            replies[k]->Contents_0@,
        ),
    decreases replies.len(),
{
    if replies.len() == 0 {
        let fresh = Seq::new(setting.plan.jobs.len(), |i: int| machine::fresh());
        assert(schedule::progress_after(setting, replies).run.slots == fresh);
        assert(!soundness::started(fresh[i]));
        0
    } else {
        let before = replies.drop_last();
        let run = schedule::progress_after(setting, before).run;
        let last = replies.len() - 1;
        schedule::lemma_sound(setting, before);
        lemma_keyed_step(setting.plan, run, replies.last(), i);
        assert(replies.take(last) =~= before);
        if run.mode == Mode::Probe(i as usize) && replies.last() is Contents {
            last
        } else {
            let k = law_key_of_inputs(setting, before, i);
            assert(before.take(k) =~= replies.take(k));
            k
        }
    }
}

/// What stands at the declared paths of job `i` reads the same in both runs.
pub open spec fn reads_same(
    first: Setting,
    a: Seq<Reply>,
    second: Setting,
    b: Seq<Reply>,
    i: int,
) -> bool {
    forall|k: int, m: int| #[trigger]
        probed(first, a, i, k) && #[trigger] probed(second, b, i, m) ==> laws::same_reply(
            a[k],
            b[m],
        )
}

/// A job is handed to the executor only when the cache has nothing under its key.
proof fn lemma_start_is_miss(setting: Setting, replies: Seq<Reply>, i: usize)
    requires
        soundness::valid_plan(setting.plan),
        schedule::all_fit(setting, replies),
        schedule::progress_after(setting, replies).run.mode == Mode::Start(i),
    ensures
        ({
            let p = schedule::progress_after(setting, replies);
            !p.stored.contains_key(p.run.slots[i as int].key)
        }),
{
    if replies.len() > 0 {
        schedule::lemma_sound(setting, replies.drop_last());
    }
}

/// The answer by which a job that was run was started.
proof fn lemma_started_at(setting: Setting, replies: Seq<Reply>, i: int) -> (k: int)
    requires
        soundness::valid_plan(setting.plan),
        0 <= i < setting.plan.jobs.len(),
        laws::was_run(schedule::progress_after(setting, replies).run.slots[i]),
    ensures
        0 <= k < replies.len(),
        schedule::progress_after(setting, replies.take(k)).run.mode == Mode::Start(i as usize),
    decreases replies.len(),
{
    if replies.len() == 0 {
        let fresh = Seq::new(setting.plan.jobs.len(), |i: int| machine::fresh());
        assert(schedule::progress_after(setting, replies).run.slots == fresh);
        0
    } else {
        let before = replies.drop_last();
        let run = schedule::progress_after(setting, before).run;
        let last = replies.len() - 1;
        schedule::lemma_sound(setting, before);
        assert(replies.take(last) =~= before);
        laws::lemma_was_run_step(setting.plan, run, replies.last(), i);
        if laws::was_run(run.slots[i]) {
            let k = lemma_started_at(setting, before, i);
            assert(before.take(k) =~= replies.take(k));
            k
        } else {
            last
        }
    }
}

/// Unchanged inputs hit the cache: a job that succeeded in one run and has a cache
/// block is not executed in a later run over the same store, when its declared
/// paths read the same and the jobs it needs hand down the same.
pub proof fn law_unchanged_job_is_not_run(
    first: Setting,
    a: Seq<Reply>,
    second: Setting,
    b: Seq<Reply>,
    i: int,
)
    requires
        soundness::valid_plan(first.plan),
        schedule::all_fit(first, a),
        second.plan == first.plan,
        second.stored == schedule::progress_after(first, a).stored,
        schedule::all_fit(second, b),
        0 <= i < first.plan.jobs.len(),
        first.plan.jobs[i].cache is Some,
        schedule::progress_after(first, a).run.slots[i].phase == Phase::Done(Status::Success),
        reads_same(first, a, second, b, i),
        machine::inputs_of(first.plan, schedule::progress_after(first, a).run.slots, i)
            == machine::inputs_of(first.plan, schedule::progress_after(second, b).run.slots, i),
        machine::dep_keys(first.plan, schedule::progress_after(first, a).run.slots, i)
            == machine::dep_keys(first.plan, schedule::progress_after(second, b).run.slots, i),
    ensures
        !laws::was_run(schedule::progress_after(second, b).run.slots[i]),
{
    if laws::was_run(schedule::progress_after(second, b).run.slots[i]) {
        let m = lemma_started_at(second, b, i);
        law_unchanged_key(first, a, second, b, i);
        lemma_start_misses(second, b, m, i);
        lemma_slot_count(first, a);
        lemma_kept_is_stored(first, a, second, b.take(m), i);
    }
}

/// There is a slot for each job.
proof fn lemma_slot_count(setting: Setting, replies: Seq<Reply>)
    requires
        soundness::valid_plan(setting.plan),
    ensures
        schedule::progress_after(setting, replies).run.slots.len() == setting.plan.jobs.len(),
{
    schedule::lemma_sound(setting, replies);
}

/// A job that is started at some point finds nothing under the key it will end with.
proof fn lemma_start_misses(setting: Setting, replies: Seq<Reply>, m: int, i: int)
    requires
        soundness::valid_plan(setting.plan),
        schedule::all_fit(setting, replies),
        0 <= i < setting.plan.jobs.len(),
        0 <= m < replies.len(),
        schedule::progress_after(setting, replies.take(m)).run.mode == Mode::Start(i as usize),
    ensures
        schedule::all_fit(setting, replies.take(m)),
        !schedule::progress_after(setting, replies.take(m)).stored.contains_key(
            schedule::progress_after(setting, replies).run.slots[i].key,
        ),
{
    laws::lemma_fit_at(setting, replies, m);
    lemma_start_is_miss(setting, replies.take(m), i as usize);
    lemma_key_stays(setting, replies, m, i);
}

/// A job has the same key in two runs in which its declared paths read the same and
/// the jobs it needs hand down the same.
pub proof fn law_unchanged_key(
    first: Setting,
    a: Seq<Reply>,
    second: Setting,
    b: Seq<Reply>,
    i: int,
)
    requires
        soundness::valid_plan(first.plan),
        second.plan == first.plan,
        0 <= i < first.plan.jobs.len(),
        has_key(schedule::progress_after(first, a).run, i),
        has_key(schedule::progress_after(second, b).run, i),
        reads_same(first, a, second, b, i),
        machine::inputs_of(first.plan, schedule::progress_after(first, a).run.slots, i)
            == machine::inputs_of(first.plan, schedule::progress_after(second, b).run.slots, i),
        machine::dep_keys(first.plan, schedule::progress_after(first, a).run.slots, i)
            == machine::dep_keys(first.plan, schedule::progress_after(second, b).run.slots, i),
    ensures
        schedule::progress_after(first, a).run.slots[i].key == schedule::progress_after(
            second,
            b,
        ).run.slots[i].key,
{
    let s1 = schedule::progress_after(first, a).run.slots;
    let k1 = law_key_of_inputs(first, a, i);
    let k2 = law_key_of_inputs(second, b, i);
    assert(laws::same_reply(a[k1], b[k2]));
    laws::law_same_key(
        first.plan.jobs[i],
        a[k1]->Contents_0@,
        b[k2]->Contents_0@,
        machine::inputs_of(first.plan, s1, i),
        machine::dep_keys(first.plan, s1, i),
    );
}

/// What a job of one run stored is still there in a later one.
proof fn lemma_kept_is_stored(
    first: Setting,
    a: Seq<Reply>,
    second: Setting,
    b: Seq<Reply>,
    i: int,
)
    requires
        soundness::valid_plan(first.plan),
        schedule::all_fit(first, a),
        soundness::valid_plan(second.plan),
        second.stored == schedule::progress_after(first, a).stored,
        schedule::all_fit(second, b),
        keeps(
            first.plan,
            schedule::progress_after(first, a).run.slots,
            i,
            schedule::progress_after(first, a).run.slots[i].key,
        ),
    ensures
        schedule::progress_after(second, b).stored.contains_key(
            schedule::progress_after(first, a).run.slots[i].key,
        ),
{
    law_store(first, a);
    law_store(second, b);
}

/// From its start on, the key of a job stays.
proof fn lemma_key_stays(setting: Setting, replies: Seq<Reply>, m: int, i: int)
    requires
        soundness::valid_plan(setting.plan),
        0 <= i < setting.plan.jobs.len(),
        0 <= m <= replies.len(),
        has_key(schedule::progress_after(setting, replies.take(m)).run, i),
        schedule::progress_after(setting, replies.take(m)).run.mode !is Lookup,
        schedule::all_fit(setting, replies),
    ensures
        schedule::progress_after(setting, replies).run.slots[i].key == schedule::progress_after(
            setting,
            replies.take(m),
        ).run.slots[i].key,
        m < replies.len() ==> soundness::started(
            schedule::progress_after(setting, replies).run.slots[i],
        ),
    decreases replies.len() - m,
{
    if m == replies.len() {
        assert(replies.take(m) =~= replies);
    } else {
        let before = replies.drop_last();
        assert(before.take(m) =~= replies.take(m));
        lemma_key_stays(setting, before, m, i);
        schedule::lemma_sound(setting, before);
        let run = schedule::progress_after(setting, before).run;
        if m == before.len() {
            assert(before.take(m) =~= before);
        }
        lemma_key_stays_step(
            setting.plan,
            run,
            schedule::progress_after(setting, before).stored,
            replies.last(),
            i,
        );
    }
}

proof fn lemma_key_stays_step(
    plan: Plan,
    run: RunView,
    stored: Map<u64, EntryView>,
    reply: Reply,
    i: int,
)
    requires
        soundness::sound(plan, run),
        0 <= i < run.slots.len(),
        soundness::started(run.slots[i]) || run.mode == Mode::Start(i as usize),
        schedule::fits(plan, run, stored, reply),
    ensures
        machine::after_reply(plan, run, reply).slots[i].key == run.slots[i].key,
        soundness::started(machine::after_reply(plan, run, reply).slots[i]),
{
    laws::lemma_follows_step(plan, run, reply, i);
}

/// Every job of the run succeeded, has a cache block, and a key of its own.
pub open spec fn all_kept(plan: Plan, slots: Seq<SlotView>) -> bool {
    &&& slots.len() == plan.jobs.len()
    &&& forall|i: int|
        0 <= i < slots.len() ==> keeps(plan, slots, i, (#[trigger] slots[i]).key)
    &&& forall|i: int, j: int|
        0 <= i < slots.len() && 0 <= j < slots.len() && i != j ==> (#[trigger] slots[i]).key != (
        #[trigger] slots[j]).key
}

/// The job was found in the cache, as it was in the earlier run.
pub open spec fn recalled(earlier: SlotView, now: SlotView) -> bool {
    &&& now.phase == Phase::Done(Status::Cached)
    &&& now.key == earlier.key
    &&& now.outputs == earlier.outputs
    &&& now.logs == earlier.logs
}

/// Nothing was run: each job is pending or was found in the cache.
spec fn recalling(s1: Seq<SlotView>, run: RunView) -> bool {
    &&& run.slots.len() == s1.len()
    &&& forall|i: int|
        0 <= i < s1.len() ==> machine::pending(run.slots, i) || recalled(
            s1[i],
            #[trigger] run.slots[i],
        )
    &&& run.mode is Probe || run.mode is Lookup || run.mode is Halt
    &&& run.mode matches Mode::Lookup(i) ==> run.slots[i as int].key == s1[i as int].key
}

/// No job is due when none runs.
proof fn lemma_recalling_mode(plan: Plan, s1: Seq<SlotView>, run: RunView)
    requires
        soundness::sound(plan, run),
        run.slots.len() == s1.len(),
        forall|i: int|
            0 <= i < s1.len() ==> machine::pending(run.slots, i) || recalled(
                s1[i],
                #[trigger] run.slots[i],
            ),
        run.mode !is Start,
        run.mode !is Lookup,
    ensures
        recalling(s1, run),
{
    if let Mode::Finish(k) = run.mode {
        assert(machine::due(run.slots, run.clock, k as int));
        assert(machine::pending(run.slots, k as int) || recalled(
            s1[k as int],
            run.slots[k as int],
        ));
    }
}

/// What the jobs needed by one that is looked at hand down is what they handed
/// down before.
proof fn lemma_recalling_upstream(plan: Plan, s1: Seq<SlotView>, run: RunView, i: int)
    requires
        soundness::sound(plan, run),
        recalling(s1, run),
        0 <= i < run.slots.len(),
        forall|d: usize| #[trigger] plan.deps[i].contains(d) ==> machine::done(run.slots, d as int),
    ensures
        machine::inputs_of(plan, s1, i) == machine::inputs_of(plan, run.slots, i),
        machine::dep_keys(plan, s1, i) == machine::dep_keys(plan, run.slots, i),
{
    assert forall|d: usize| #[trigger] plan.deps[i].contains(d) implies s1[d as int].outputs
        == run.slots[d as int].outputs && s1[d as int].key == run.slots[d as int].key by {
        assert(machine::done(run.slots, d as int));
        assert(machine::pending(run.slots, d as int) || recalled(
            s1[d as int],
            run.slots[d as int],
        ));
    }
    lemma_upstream_same(plan, s1, run.slots, i);
}

/// The entry of a job with a key of its own is what it left behind.
proof fn lemma_kept_entry(setting: Setting, a: Seq<Reply>, i: int)
    requires
        soundness::valid_plan(setting.plan),
        schedule::all_fit(setting, a),
        all_kept(setting.plan, schedule::progress_after(setting, a).run.slots),
        0 <= i < setting.plan.jobs.len(),
    ensures
        ({
            let p = schedule::progress_after(setting, a);
            let slot = p.run.slots[i];
            &&& p.stored.contains_key(slot.key)
            &&& p.stored[slot.key] == entry_of(slot)
            &&& executor::with_items(Seq::empty(), slot.outputs) == slot.outputs
        }),
{
    law_store(setting, a);
    law_outputs_ascend(setting, a);
    let p = schedule::progress_after(setting, a);
    let slot = p.run.slots[i];
    executor::law_rebuilt(slot.outputs);
    assert(keeps(setting.plan, p.run.slots, i, slot.key));
    let m = choose|m: int| #[trigger]
        keeps(setting.plan, p.run.slots, m, slot.key) && p.stored[slot.key] == entry_of(
            p.run.slots[m],
        );
    assert(m == i);
}

proof fn lemma_reads_same_prefix(
    first: Setting,
    a: Seq<Reply>,
    second: Setting,
    b: Seq<Reply>,
    i: int,
    n: int,
)
    requires
        reads_same(first, a, second, b, i),
        0 <= n <= b.len(),
    ensures
        reads_same(first, a, second, b.take(n), i),
{
    assert forall|k: int, m: int| #[trigger] probed(first, a, i, k) && #[trigger] probed(
        second,
        b.take(n),
        i,
        m,
    ) implies laws::same_reply(a[k], b.take(n)[m]) by {
        assert(b.take(n).take(m) =~= b.take(m));
        assert(probed(second, b, i, m));
    }
}

/// One lookup that finds what the earlier run left.
proof fn lemma_recall_lookup(
    s1: Seq<SlotView>,
    second: Setting,
    p: Progress,
    reply: Reply,
    i: usize,
)
    requires
        soundness::sound(second.plan, p.run),
        recalling(s1, p.run),
        p.run.mode == Mode::Lookup(i),
        schedule::fits(second.plan, p.run, p.stored, reply),
        i < s1.len(),
        p.stored.contains_key(s1[i as int].key),
        p.stored[s1[i as int].key] == entry_of(s1[i as int]),
        executor::with_items(Seq::empty(), s1[i as int].outputs) == s1[i as int].outputs,
    ensures
        recalling(s1, schedule::advance(second, p, reply).run),
        schedule::advance(second, p, reply).stored == p.stored,
{
    law_lookup(second, p, reply, i);
    soundness::lemma_step(second.plan, p.run, reply);
    let next = schedule::advance(second, p, reply).run;
    assert(machine::pending(p.run.slots, i as int));
    assert forall|j: int| 0 <= j < s1.len() implies machine::pending(next.slots, j) || recalled(
        s1[j],
        #[trigger] next.slots[j],
    ) by {
        assert(machine::pending(p.run.slots, j) || recalled(s1[j], p.run.slots[j]));
        if j != i {
            assert(next.slots[j] == p.run.slots[j]);
        }
    }
    lemma_recalling_mode(second.plan, s1, next);
}

proof fn lemma_recall_probe(s1: Seq<SlotView>, second: Setting, p: Progress, reply: Reply, i: usize)
    requires
        soundness::sound(second.plan, p.run),
        recalling(s1, p.run),
        p.run.mode == Mode::Probe(i),
        schedule::fits(second.plan, p.run, p.stored, reply),
        schedule::advance(second, p, reply).run.slots[i as int].key == s1[i as int].key,
    ensures
        recalling(s1, schedule::advance(second, p, reply).run),
        schedule::advance(second, p, reply).stored == p.stored,
{
    let next = schedule::advance(second, p, reply).run;
    assert(machine::pending(p.run.slots, i as int));
    assert forall|j: int| 0 <= j < s1.len() implies machine::pending(next.slots, j) || recalled(
        s1[j],
        #[trigger] next.slots[j],
    ) by {
        assert(machine::pending(p.run.slots, j) || recalled(s1[j], p.run.slots[j]));
    }
}

proof fn lemma_recalling(first: Setting, a: Seq<Reply>, second: Setting, b: Seq<Reply>, n: int)
    requires
        soundness::valid_plan(first.plan),
        schedule::all_fit(first, a),
        all_kept(first.plan, schedule::progress_after(first, a).run.slots),
        second.plan == first.plan,
        second.stored == schedule::progress_after(first, a).stored,
        schedule::all_fit(second, b),
        forall|i: int|
            0 <= i < first.plan.jobs.len() ==> #[trigger] reads_same(first, a, second, b, i),
        0 <= n <= b.len(),
    ensures
        ({
            let p = schedule::progress_after(second, b.take(n));
            &&& recalling(schedule::progress_after(first, a).run.slots, p.run)
            &&& p.stored == second.stored
        }),
    decreases n,
{
    let s1 = schedule::progress_after(first, a).run.slots;
    if n == 0 {
        let fresh = Seq::new(second.plan.jobs.len(), |i: int| machine::fresh());
        let p = schedule::progress_after(second, b.take(0));
        assert(p.run.slots == fresh);
        schedule::lemma_sound(second, b.take(0));
        assert forall|j: int| 0 <= j < s1.len() implies machine::pending(p.run.slots, j)
            || recalled(s1[j], #[trigger] p.run.slots[j]) by {
            assert(machine::pending(p.run.slots, j));
        }
        lemma_recalling_mode(second.plan, s1, p.run);
    } else {
        lemma_recalling(first, a, second, b, n - 1);
        lemma_recalling_next(first, a, second, b, n - 1);
    }
}

proof fn lemma_recalling_next(first: Setting, a: Seq<Reply>, second: Setting, b: Seq<Reply>, m: int)
    requires
        soundness::valid_plan(first.plan),
        schedule::all_fit(first, a),
        all_kept(first.plan, schedule::progress_after(first, a).run.slots),
        second.plan == first.plan,
        second.stored == schedule::progress_after(first, a).stored,
        schedule::all_fit(second, b),
        forall|i: int|
            0 <= i < first.plan.jobs.len() ==> #[trigger] reads_same(first, a, second, b, i),
        0 <= m < b.len(),
        recalling(
            schedule::progress_after(first, a).run.slots,
            schedule::progress_after(second, b.take(m)).run,
        ),
        schedule::progress_after(second, b.take(m)).stored == second.stored,
    ensures
        ({
            let p = schedule::progress_after(second, b.take(m + 1));
            &&& recalling(schedule::progress_after(first, a).run.slots, p.run)
            &&& p.stored == second.stored
        }),
{
    let s1 = schedule::progress_after(first, a).run.slots;
    let p = schedule::progress_after(second, b.take(m));
    laws::lemma_fit_at(second, b, m);
    schedule::lemma_sound(second, b.take(m));
    match p.run.mode {
        Mode::Probe(i) => {
            lemma_probe_key(first, a, second, b, m, i);
            lemma_recall_probe(s1, second, p, b[m], i);
        },
        Mode::Lookup(i) => {
            lemma_kept_entry(first, a, i as int);
            lemma_recall_lookup(s1, second, p, b[m], i);
        },
        _ => {},
    }
}

/// A job that is looked at again gets the key it had.
proof fn lemma_probe_key(
    first: Setting,
    a: Seq<Reply>,
    second: Setting,
    b: Seq<Reply>,
    m: int,
    i: usize,
)
    requires
        soundness::valid_plan(first.plan),
        all_kept(first.plan, schedule::progress_after(first, a).run.slots),
        second.plan == first.plan,
        schedule::all_fit(second, b),
        reads_same(first, a, second, b, i as int),
        0 <= m < b.len(),
        schedule::progress_after(second, b.take(m)).run.mode == Mode::Probe(i),
        recalling(
            schedule::progress_after(first, a).run.slots,
            schedule::progress_after(second, b.take(m)).run,
        ),
        i < first.plan.jobs.len(),
    ensures
        schedule::progress_after(second, b.take(m + 1)).run.slots[i as int].key
            == schedule::progress_after(first, a).run.slots[i as int].key,
{
    let s1 = schedule::progress_after(first, a).run.slots;
    let run = schedule::progress_after(second, b.take(m)).run;
    let next = schedule::progress_after(second, b.take(m + 1)).run;
    laws::lemma_fit_at(second, b, m);
    schedule::lemma_sound(second, b.take(m));
    lemma_recalling_upstream(second.plan, s1, run, i as int);
    assert(!second.plan.deps[i as int].contains(i));
    assert forall|d: usize| #[trigger] second.plan.deps[i as int].contains(d) implies run.slots[
        d as int].outputs == next.slots[d as int].outputs && run.slots[d as int].key
        == next.slots[d as int].key by {}
    lemma_upstream_same(second.plan, run.slots, next.slots, i as int);
    lemma_reads_same_prefix(first, a, second, b, i as int, m + 1);
    assert(keeps(first.plan, s1, i as int, s1[i as int].key));
    law_unchanged_key(first, a, second, b.take(m + 1), i as int);
}

/// Run twice with the same store: when every job of the first run succeeded with a
/// cache block and a key of its own, and the declared paths read the same, the
/// second run finds every job in the cache and hands none to the executor. All
/// outputs, logs and keys are as they were, and so is the store.
pub proof fn law_unchanged_rerun(first: Setting, a: Seq<Reply>, second: Setting, b: Seq<Reply>)
    requires
        schedule::complete(first, a),
        all_kept(first.plan, schedule::progress_after(first, a).run.slots),
        second.plan == first.plan,
        second.stored == schedule::progress_after(first, a).stored,
        schedule::complete(second, b),
        forall|i: int|
            0 <= i < first.plan.jobs.len() ==> #[trigger] reads_same(first, a, second, b, i),
    ensures
        ({
            let s1 = schedule::progress_after(first, a).run.slots;
            let p = schedule::progress_after(second, b);
            &&& forall|i: int|
                0 <= i < first.plan.jobs.len() ==> recalled(s1[i], #[trigger] p.run.slots[i])
            &&& Stats::of(p.calls).ran == Seq::<Seq<char>>::empty()
            &&& p.stored == second.stored
        }),
{
    let s1 = schedule::progress_after(first, a).run.slots;
    let p = schedule::progress_after(second, b);
    assert(b.take(b.len() as int) =~= b);
    lemma_recalling(first, a, second, b, b.len() as int);
    assert forall|i: int| 0 <= i < first.plan.jobs.len() implies recalled(
        s1[i],
        #[trigger] p.run.slots[i],
    ) by {
        laws::law_every_job_ends(second, b, i);
        assert(machine::pending(p.run.slots, i) || recalled(s1[i], p.run.slots[i]));
    }
    laws::law_runs_once(second, b);
    let ran = laws::ran_jobs(second, b);
    if ran.len() > 0 {
        assert(laws::was_run(p.run.slots[ran[0] as int]));
        assert(recalled(s1[ran[0] as int], p.run.slots[ran[0] as int]));
    }
    assert(laws::names_of(second.plan, ran) =~= Seq::empty());
}

} // verus!
