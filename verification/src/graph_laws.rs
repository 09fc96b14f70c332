//! Which graphs are accepted, what is said of the others, and how the jobs of an accepted
//! one are laid out in waves.

use vstd::prelude::*;

use crate::call_laws;
use crate::dag;
use crate::error::ErrorView;
use crate::pipeline;
use crate::pipeline::JobView;

verus! {

/// The name is that of a job other than job `i`.
pub open spec fn names_another(jobs: Seq<JobView>, i: int, name: Seq<char>) -> bool {
    exists|m: int| 0 <= m < jobs.len() && m != i && (#[trigger] jobs[m]).name == name
}

/// The needs before need `k` of job `i`, in config order, all name another job.
pub open spec fn sound_before(jobs: Seq<JobView>, i: int, k: int) -> bool {
    forall|a: int, b: int|
        0 <= a < jobs.len() && 0 <= b < jobs[a].needs.len() && (a < i || (a == i && b < k))
            ==> names_another(jobs, a, #[trigger] jobs[a].needs[b])
}

/// Every need names another job.
pub open spec fn sound_needs(jobs: Seq<JobView>) -> bool {
    sound_before(jobs, jobs.len() as int, 0)
}

/// The first job with that name stands where the search finds it.
pub proof fn law_first_of_name(jobs: Seq<JobView>, name: Seq<char>)
    ensures
        ({
            let k = pipeline::position(jobs, name);
            &&& 0 <= k <= jobs.len()
            &&& k < jobs.len() ==> jobs[k].name == name
            &&& forall|j: int| 0 <= j < k ==> (#[trigger] jobs[j]).name != name
        }),
    decreases jobs.len(),
{
    if jobs.len() > 0 && jobs[0].name != name {
        let rest = jobs.drop_first();
        law_first_of_name(rest, name);
        assert forall|j: int| 0 <= j < pipeline::position(jobs, name) implies (
        #[trigger] jobs[j]).name != name by {
            if j > 0 {
                assert(rest[j - 1].name != name);
            }
        }
    }
}

/// A name that occurs twice is reported before all else, and of several that do, the one
/// that comes up again first.
pub proof fn law_repeated_name(jobs: Seq<JobView>, i: int, j: int)
    requires
        0 <= i < j < jobs.len(),
        jobs[i].name == jobs[j].name,
        call_laws::distinct(jobs.take(j)),
    ensures
        dag::defect(jobs) == Some(ErrorView::DuplicateJob(jobs[j].name)),
{
    assert(dag::repeats(jobs, j));
    assert forall|b: int| 0 <= b < j implies !#[trigger] dag::repeats(jobs, b) by {
        assert forall|a: int| 0 <= a < b implies #[trigger] jobs[a].name != jobs[b].name by {
            assert(jobs.take(j)[a] == jobs[a]);
            assert(jobs.take(j)[b] == jobs[b]);
        }
    }
    assert(dag::first_repeat(jobs, j));
    let f = choose|f: int| dag::first_repeat(jobs, f);
    if f < j {
        assert(!dag::repeats(jobs, f));
    } else if j < f {
        assert(!dag::repeats(jobs, j));
    }
}

proof fn lemma_no_repeat(jobs: Seq<JobView>)
    requires
        call_laws::distinct(jobs),
    ensures
        forall|i: int| !#[trigger] dag::first_repeat(jobs, i),
{
    assert forall|i: int| !#[trigger] dag::first_repeat(jobs, i) by {
        if 0 <= i < jobs.len() && dag::repeats(jobs, i) {
            let j = choose|j: int| 0 <= j < i && #[trigger] jobs[j].name == jobs[i].name;
            assert(jobs[j].name != jobs[i].name);
        }
    }
}

/// A need is found at another job exactly where it names one.
proof fn lemma_faulty(jobs: Seq<JobView>, i: int, k: int)
    requires
        call_laws::distinct(jobs),
        0 <= i < jobs.len(),
        0 <= k < jobs[i].needs.len(),
    ensures
        dag::faulty(jobs, i, k) <==> !names_another(jobs, i, jobs[i].needs[k]),
{
    let name = jobs[i].needs[k];
    law_first_of_name(jobs, name);
    let p = pipeline::position(jobs, name);
    if names_another(jobs, i, name) {
        let m = choose|m: int| 0 <= m < jobs.len() && m != i && (#[trigger] jobs[m]).name == name;
        if p == i {
            assert(jobs[i].name != jobs[m].name);
        }
    } else if p < jobs.len() {
        assert(jobs[p].name == name);
    }
}

proof fn lemma_first_fault(jobs: Seq<JobView>, i: int, k: int)
    requires
        call_laws::distinct(jobs),
        0 <= i < jobs.len(),
        0 <= k < jobs[i].needs.len(),
        sound_before(jobs, i, k),
        !names_another(jobs, i, jobs[i].needs[k]),
    ensures
        forall|a: int, b: int| #[trigger] dag::first_fault(jobs, a, b) <==> a == i && b == k,
{
    lemma_faulty(jobs, i, k);
    assert forall|a: int, b: int| #[trigger] dag::faulty(jobs, a, b) implies i < a || (i == a && k
        <= b) by {
        lemma_faulty(jobs, a, b);
    }
    assert(dag::first_fault(jobs, i, k));
}

/// A need that names no job is reported with the job that has it, the first such need in
/// config order, where no name occurs twice.
pub proof fn law_missing_need(jobs: Seq<JobView>, i: int, k: int)
    requires
        call_laws::distinct(jobs),
        0 <= i < jobs.len(),
        0 <= k < jobs[i].needs.len(),
        sound_before(jobs, i, k),
        forall|m: int| 0 <= m < jobs.len() ==> (#[trigger] jobs[m]).name != jobs[i].needs[k],
    ensures
        dag::defect(jobs) == Some(
            ErrorView::MissingDependency { job: jobs[i].name, needs: jobs[i].needs[k] },
        ),
{
    lemma_no_repeat(jobs);
    lemma_first_fault(jobs, i, k);
    assert(dag::first_fault(jobs, i, k));
    law_first_of_name(jobs, jobs[i].needs[k]);
    let (a, b) = choose|a: int, b: int| dag::first_fault(jobs, a, b);
    assert(a == i && b == k);
    assert(dag::missing(jobs, i, k));
}

/// A job that needs itself is reported as a cycle of its own.
pub proof fn law_own_need(jobs: Seq<JobView>, i: int, k: int)
    requires
        call_laws::distinct(jobs),
        0 <= i < jobs.len(),
        0 <= k < jobs[i].needs.len(),
        sound_before(jobs, i, k),
        jobs[i].needs[k] == jobs[i].name,
    ensures
        dag::defect(jobs) == Some(ErrorView::Cycle(seq![jobs[i].name])),
{
    assert(!names_another(jobs, i, jobs[i].needs[k]));
    lemma_no_repeat(jobs);
    lemma_first_fault(jobs, i, k);
    assert(dag::first_fault(jobs, i, k));
    law_first_of_name(jobs, jobs[i].needs[k]);
    let (a, b) = choose|a: int, b: int| dag::first_fault(jobs, a, b);
    assert(a == i && b == k);
    assert(!dag::missing(jobs, i, k)) by {
        assert(jobs[i].name == jobs[i].needs[k]);
    }
}

proof fn lemma_sound(jobs: Seq<JobView>)
    requires
        jobs.len() <= usize::MAX,
        call_laws::distinct(jobs),
        sound_needs(jobs),
    ensures
        forall|i: int| !#[trigger] dag::first_repeat(jobs, i),
        forall|a: int, b: int| !#[trigger] dag::faulty(jobs, a, b),
        forall|a: int, b: int| !#[trigger] dag::first_fault(jobs, a, b),
        forall|i: int, d: usize|
            0 <= i < jobs.len() && #[trigger] dag::edges(jobs)[i].contains(d) ==> d < jobs.len()
                && jobs[i].needs.contains(jobs[d as int].name),
        forall|i: int, d: usize|
            0 <= i < jobs.len() && d < jobs.len() && jobs[i].needs.contains(
                jobs[d as int].name,
            ) ==> #[trigger] dag::edges(jobs)[i].contains(d),
{
    lemma_no_repeat(jobs);
    assert forall|a: int, b: int| !#[trigger] dag::faulty(jobs, a, b) by {
        if 0 <= a < jobs.len() && 0 <= b < jobs[a].needs.len() {
            lemma_faulty(jobs, a, b);
            assert(names_another(jobs, a, jobs[a].needs[b]));
        }
    }
    dag::lemma_edges(jobs);
    assert forall|i: int, d: usize| 0 <= i < jobs.len() && d < jobs.len() implies (
    #[trigger] dag::edges(jobs)[i].contains(d) <==> jobs[i].needs.contains(jobs[d as int].name)) by {
        assert forall|k: int| 0 <= k < jobs[i].needs.len() implies pipeline::position(
            jobs,
            #[trigger] jobs[i].needs[k],
        ) < jobs.len() by {
            assert(!dag::faulty(jobs, i, k));
            law_first_of_name(jobs, jobs[i].needs[k]);
        }
        call_laws::lemma_named(jobs, jobs[i].needs, d);
    }
}

proof fn lemma_ranked(jobs: Seq<JobView>, rank: Seq<nat>, s: Set<int>, i: int)
    requires
        jobs.len() <= usize::MAX,
        call_laws::distinct(jobs),
        sound_needs(jobs),
        rank.len() == jobs.len(),
        forall|a: int, m: int|
            0 <= a < jobs.len() && 0 <= m < jobs.len() && #[trigger] jobs[a].needs.contains(
                (#[trigger] jobs[m]).name,
            ) ==> rank[m] < rank[a],
        dag::self_supporting(dag::edges(jobs), s),
        0 <= i < jobs.len(),
    ensures
        !s.contains(i),
    decreases rank[i],
{
    if s.contains(i) {
        lemma_sound(jobs);
        let d = choose|d: usize| #[trigger]
            dag::edges(jobs)[i].contains(d) && s.contains(d as int);
        assert(jobs[i].needs.contains(jobs[d as int].name));
        lemma_ranked(jobs, rank, s, d as int);
    }
}

/// A graph is accepted where its names differ, every need names another job, and the jobs
/// can be put in an order in which each comes after what it needs.
pub proof fn law_ordered_graph(jobs: Seq<JobView>, rank: Seq<nat>)
    requires
        jobs.len() <= usize::MAX,
        call_laws::distinct(jobs),
        sound_needs(jobs),
        rank.len() == jobs.len(),
        forall|a: int, m: int|
            0 <= a < jobs.len() && 0 <= m < jobs.len() && #[trigger] jobs[a].needs.contains(
                (#[trigger] jobs[m]).name,
            ) ==> rank[m] < rank[a],
    ensures
        dag::defect(jobs) is None,
{
    lemma_sound(jobs);
    let deps = dag::edges(jobs);
    assert forall|i: int| 0 <= i < deps.len() implies !dag::stuck(deps, i) by {
        assert forall|s: Set<int>| #[trigger] s.contains(i) implies !dag::self_supporting(
            deps,
            s,
        ) by {
            if dag::self_supporting(deps, s) {
                lemma_ranked(jobs, rank, s, i);
            }
        }
    }
}

/// The places of the stuck jobs among the first `n`.
proof fn lemma_stuck_names(deps: Seq<Seq<usize>>, order: Seq<Seq<char>>, n: int) -> (at: Seq<int>)
    requires
        0 <= n <= order.len(),
    ensures
        at.len() == dag::stuck_names(deps, order, n).len(),
        forall|t: int|
            0 <= t < at.len() ==> 0 <= #[trigger] at[t] < n && dag::stuck(deps, at[t])
                && dag::stuck_names(deps, order, n)[t] == order[at[t]],
        forall|t: int, u: int| 0 <= t < u < at.len() ==> #[trigger] at[t] < #[trigger] at[u],
        forall|i: int| 0 <= i < n && #[trigger] dag::stuck(deps, i) ==> at.contains(i),
    decreases n,
{
    if n == 0 {
        Seq::empty()
    } else {
        let before = lemma_stuck_names(deps, order, n - 1);
        if dag::stuck(deps, n - 1) {
            let at = before.push(n - 1);
            assert forall|i: int| 0 <= i < n && #[trigger] dag::stuck(deps, i) implies at.contains(
                i,
            ) by {
                if i < n - 1 {
                    let t = choose|t: int| 0 <= t < before.len() && before[t] == i;
                    assert(at[t] == i);
                } else {
                    assert(at[before.len() as int] == i);
                }
            }
            at
        } else {
            before
        }
    }
}

/// The job has a need that is among the names.
pub open spec fn needs_one_of(job: JobView, found: Seq<Seq<char>>) -> bool {
    exists|n: int| 0 <= n < found.len() && job.needs.contains(#[trigger] found[n])
}

/// What a cycle report names: jobs of the config, in config order, each of which needs one
/// that is named too; and every job that needs one of them is named as well.
pub proof fn law_cycle_names(jobs: Seq<JobView>, found: Seq<Seq<char>>)
    requires
        jobs.len() <= usize::MAX,
        call_laws::distinct(jobs),
        sound_needs(jobs),
        dag::defect(jobs) == Some(ErrorView::Cycle(found)),
    ensures
        found.len() > 0,
        forall|a: int| 0 <= a < found.len() ==> dag::names(jobs).contains(#[trigger] found[a]),
        forall|a: int, b: int, x: int, y: int|
            0 <= a < b < found.len() && 0 <= x < jobs.len() && 0 <= y < jobs.len()
                && #[trigger] found[a] == (#[trigger] jobs[x]).name && #[trigger] found[b] == (
            #[trigger] jobs[y]).name ==> x < y,
        forall|i: int|
            0 <= i < jobs.len() ==> (found.contains((#[trigger] jobs[i]).name) <==> needs_one_of(
                jobs[i],
                found,
            )),
{
    lemma_sound(jobs);
    let deps = dag::edges(jobs);
    let order = dag::names(jobs);
    let at = lemma_stuck_names(deps, order, jobs.len() as int);
    assert(found == dag::stuck_names(deps, order, jobs.len() as int));
    let one = choose|i: int| 0 <= i < deps.len() && dag::stuck(deps, i);
    assert(at.contains(one));
    assert forall|a: int| 0 <= a < found.len() implies order.contains(#[trigger] found[a]) by {
        assert(order[at[a]] == found[a]);
    }
    assert forall|a: int, x: int|
        0 <= a < found.len() && 0 <= x < jobs.len() && #[trigger] found[a] == (
        #[trigger] jobs[x]).name implies x == at[a] by {
        assert(jobs[at[a]].name == found[a]);
    }
    assert forall|i: int| 0 <= i < jobs.len() implies (found.contains((#[trigger] jobs[i]).name)
        <==> dag::stuck(deps, i)) by {
        if dag::stuck(deps, i) {
            let t = choose|t: int| 0 <= t < at.len() && at[t] == i;
            assert(found[t] == jobs[i].name);
        }
        if found.contains(jobs[i].name) {
            let t = choose|t: int| 0 <= t < found.len() && found[t] == jobs[i].name;
            assert(at[t] == i);
        }
    }
    assert forall|i: int| 0 <= i < jobs.len() implies (found.contains((#[trigger] jobs[i]).name)
        <==> needs_one_of(jobs[i], found)) by {
        lemma_stuck_step(jobs, i);
        if dag::stuck(deps, i) {
            let d = choose|d: int|
                0 <= d < jobs.len() && jobs[i].needs.contains((#[trigger] jobs[d]).name)
                    && dag::stuck(deps, d);
            assert(found.contains(jobs[d].name));
            let n = choose|n: int| 0 <= n < found.len() && found[n] == jobs[d].name;
            assert(jobs[i].needs.contains(found[n]));
        }
        if needs_one_of(jobs[i], found) {
            let n = choose|n: int| 0 <= n < found.len() && jobs[i].needs.contains(
                #[trigger] found[n],
            );
            assert(jobs[at[n]].name == found[n]);
        }
    }
}

/// A job is stuck exactly where it needs one that is.
proof fn lemma_stuck_step(jobs: Seq<JobView>, i: int)
    requires
        jobs.len() <= usize::MAX,
        call_laws::distinct(jobs),
        sound_needs(jobs),
        0 <= i < jobs.len(),
    ensures
        dag::stuck(dag::edges(jobs), i) <==> exists|d: int|
            0 <= d < jobs.len() && jobs[i].needs.contains((#[trigger] jobs[d]).name) && dag::stuck(
                dag::edges(jobs),
                d,
            ),
{
    lemma_sound(jobs);
    let deps = dag::edges(jobs);
    if dag::stuck(deps, i) {
        let s = choose|s: Set<int>| #[trigger] s.contains(i) && dag::self_supporting(deps, s);
        let d = choose|d: usize| #[trigger] deps[i].contains(d) && s.contains(d as int);
        assert(jobs[i].needs.contains(jobs[d as int].name));
        assert(s.contains(d as int));
    }
    if exists|d: int|
        0 <= d < jobs.len() && jobs[i].needs.contains((#[trigger] jobs[d]).name) && dag::stuck(
            deps,
            d,
        ) {
        let d = choose|d: int|
            0 <= d < jobs.len() && jobs[i].needs.contains((#[trigger] jobs[d]).name) && dag::stuck(
                deps,
                d,
            );
        let s = choose|s: Set<int>| #[trigger] s.contains(d) && dag::self_supporting(deps, s);
        let more = s.insert(i);
        assert(deps[i].contains(d as usize));
        assert forall|j: int| #[trigger] more.contains(j) implies 0 <= j < deps.len() && exists|
            e: usize,
        | #[trigger]
            deps[j].contains(e) && more.contains(e as int) by {
            if j == i {
                assert(deps[i].contains(d as usize) && more.contains(d as usize as int));
            } else {
                assert(s.contains(j));
                let e = choose|e: usize| #[trigger] deps[j].contains(e) && s.contains(e as int);
                assert(deps[j].contains(e) && more.contains(e as int));
            }
        }
        assert(more.contains(i));
    }
}

/// Job `round[t]` needs the next one on the way round.
pub open spec fn needs_next(jobs: Seq<JobView>, round: Seq<int>, t: int) -> bool {
    jobs[round[t]].needs.contains(jobs[round[(t + 1) % (round.len() as int)]].name)
}

/// Each of the jobs needs the next one, and the last of them the first.
pub open spec fn goes_round(jobs: Seq<JobView>, round: Seq<int>) -> bool {
    &&& round.len() > 0
    &&& forall|t: int| 0 <= t < round.len() ==> 0 <= #[trigger] round[t] < jobs.len()
    &&& forall|t: int| 0 <= t < round.len() ==> #[trigger] needs_next(jobs, round, t)
}

/// Jobs that need each other in a circle are rejected, and the report names all of them.
pub proof fn law_circle_is_reported(jobs: Seq<JobView>, round: Seq<int>)
    requires
        jobs.len() <= usize::MAX,
        call_laws::distinct(jobs),
        sound_needs(jobs),
        goes_round(jobs, round),
    ensures
        dag::defect(jobs) matches Some(ErrorView::Cycle(found)) && forall|t: int|
            0 <= t < round.len() ==> found.contains(jobs[#[trigger] round[t]].name),
{
    lemma_sound(jobs);
    let deps = dag::edges(jobs);
    let order = dag::names(jobs);
    let s = Set::new(|i: int| round.contains(i));
    assert forall|j: int| #[trigger] s.contains(j) implies 0 <= j < deps.len() && exists|d: usize|
     #[trigger]
        deps[j].contains(d) && s.contains(d as int) by {
        let t = choose|t: int| 0 <= t < round.len() && round[t] == j;
        let u = (t + 1) % (round.len() as int);
        assert(0 <= u < round.len());
        assert(needs_next(jobs, round, t));
        let d = round[u] as usize;
        assert(deps[j].contains(d));
        assert(s.contains(d as int));
    }
    assert forall|t: int| 0 <= t < round.len() implies dag::stuck(deps, #[trigger] round[t]) by {
        assert(s.contains(round[t]));
    }
    assert(dag::stuck(deps, round[0]));
    let found = dag::stuck_names(deps, order, jobs.len() as int);
    let at = lemma_stuck_names(deps, order, jobs.len() as int);
    assert forall|t: int| 0 <= t < round.len() implies found.contains(
        jobs[#[trigger] round[t]].name,
    ) by {
        assert(dag::stuck(deps, round[t]));
        let k = choose|k: int| 0 <= k < at.len() && at[k] == round[t];
        assert(found[k] == jobs[round[t]].name);
    }
}

/// A wave lists the jobs of its level in config order, each once.
pub proof fn law_wave(levels: Seq<usize>, w: int, n: int)
    requires
        0 <= n <= levels.len() <= usize::MAX,
    ensures
        ({
            let wave = dag::members(levels, w, n);
            &&& forall|k: int|
                0 <= k < wave.len() ==> (#[trigger] wave[k]) < n && levels[wave[k] as int] == w
            &&& forall|a: int, b: int|
                0 <= a < b < wave.len() ==> #[trigger] wave[a] < #[trigger] wave[b]
            &&& forall|i: int|
                0 <= i < n && #[trigger] levels[i] == w ==> wave.contains(i as usize)
        }),
    decreases n,
{
    if n > 0 {
        law_wave(levels, w, n - 1);
        let before = dag::members(levels, w, n - 1);
        let wave = dag::members(levels, w, n);
        assert forall|i: int| 0 <= i < n && #[trigger] levels[i] == w implies wave.contains(
            i as usize,
        ) by {
            if i < n - 1 {
                let k = choose|k: int| 0 <= k < before.len() && before[k] == i as usize;
                assert(wave[k] == i as usize);
            } else {
                assert(wave[before.len() as int] == i as usize);
            }
        }
    }
}

/// There are as many waves as it takes for the highest level to have one.
pub proof fn law_number_of_waves(levels: Seq<usize>, n: int)
    requires
        0 <= n <= levels.len(),
    ensures
        forall|i: int| 0 <= i < n ==> (#[trigger] levels[i]) < dag::height(levels, n),
        n == 0 ==> dag::height(levels, n) == 0,
        n > 0 ==> exists|i: int| 0 <= i < n && #[trigger] levels[i] + 1 == dag::height(levels, n),
    decreases n,
{
    if n > 0 {
        law_number_of_waves(levels, n - 1);
        if dag::height(levels, n - 1) < levels[n - 1] + 1 {
            assert(levels[n - 1] + 1 == dag::height(levels, n));
        } else if n > 1 {
            let i = choose|i: int|
                0 <= i < n - 1 && #[trigger] levels[i] + 1 == dag::height(levels, n - 1);
            assert(levels[i] + 1 == dag::height(levels, n));
        }
    }
}

/// Every job stands in a later wave than all that it needs, in the earliest such wave: in
/// the first where it needs nothing, and otherwise in the one behind some job that it
/// needs.
pub proof fn law_levels(jobs: Seq<JobView>, levels: Seq<usize>, i: int)
    requires
        jobs.len() <= usize::MAX,
        dag::defect(jobs) is None,
        dag::is_leveling(dag::edges(jobs), levels),
        0 <= i < jobs.len(),
    ensures
        forall|m: int|
            0 <= m < jobs.len() && jobs[i].needs.contains((#[trigger] jobs[m]).name) ==> levels[m]
                < levels[i],
        levels[i] > 0 ==> exists|m: int|
            0 <= m < jobs.len() && jobs[i].needs.contains((#[trigger] jobs[m]).name) && levels[m]
                + 1 == levels[i],
{
    let deps = dag::edges(jobs);
    assert forall|m: int|
        0 <= m < jobs.len() && jobs[i].needs.contains((#[trigger] jobs[m]).name) implies levels[m]
        < levels[i] by {
        call_laws::law_named_needs(jobs, i, m as usize);
        assert(deps[i].contains(m as usize));
    }
    if levels[i] > 0 {
        assert(dag::rests_on(deps, levels, i));
        let d = choose|d: usize| #[trigger] deps[i].contains(d) && levels[d as int] + 1
            == levels[i];
        call_laws::law_named_needs(jobs, i, d);
        assert(jobs[i].needs.contains(jobs[d as int].name));
    }
}

} // verus!
