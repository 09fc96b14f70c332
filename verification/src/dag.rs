//! The dependency graph: built from `needs`, validated for missing edges and
//! cycles, and layered into topological waves. Jobs keep their config index so
//! every operation has a deterministic, reproducible tie-break.

use vstd::prelude::*;

use crate::error::{Error, ErrorView};
use crate::pipeline;
use crate::pipeline::{Job, JobView, Pipeline};
use crate::text;

verus! {

#[derive(Debug)]
pub struct Dag {
    /// Job names in config order; index into this is the canonical job id.
    pub order: Vec<String>,
    /// deps[i] = indices of the jobs that job i needs.
    pub deps: Vec<Vec<usize>>,
    /// dependents[i] = indices of the jobs that need job i.
    pub dependents: Vec<Vec<usize>>,
    /// Topological level (longest path from any root) per job.
    pub levels: Vec<usize>,
}

/// The views of a sequence of index lists.
pub open spec fn index_views(v: Seq<Vec<usize>>) -> Seq<Seq<usize>> {
    v.map_values(|x: Vec<usize>| x@)
}

/// The names of the jobs.
pub open spec fn names(jobs: Seq<JobView>) -> Seq<Seq<char>> {
    jobs.map_values(|j: JobView| j.name)
}

/// An earlier job has the name of job `i` already.
pub open spec fn repeats(jobs: Seq<JobView>, i: int) -> bool {
    exists|j: int| 0 <= j < i && #[trigger] jobs[j].name == jobs[i].name
}

/// Job `i` is the first whose name is taken.
pub open spec fn first_repeat(jobs: Seq<JobView>, i: int) -> bool {
    &&& 0 <= i < jobs.len()
    &&& repeats(jobs, i)
    &&& forall|j: int| 0 <= j < i ==> !#[trigger] repeats(jobs, j)
}

/// Need `k` of job `i` names no job.
pub open spec fn missing(jobs: Seq<JobView>, i: int, k: int) -> bool {
    pipeline::position(jobs, jobs[i].needs[k]) == jobs.len()
}

/// Need `k` of job `i` names job `i` itself.
pub open spec fn own(jobs: Seq<JobView>, i: int, k: int) -> bool {
    pipeline::position(jobs, jobs[i].needs[k]) == i
}

/// Need `k` of job `i` names no job, or job `i` itself.
pub open spec fn faulty(jobs: Seq<JobView>, i: int, k: int) -> bool {
    &&& 0 <= i < jobs.len()
    &&& 0 <= k < jobs[i].needs.len()
    &&& missing(jobs, i, k) || own(jobs, i, k)
}

/// Need `k` of job `i` is the first faulty one, in config order.
pub open spec fn first_fault(jobs: Seq<JobView>, i: int, k: int) -> bool {
    &&& faulty(jobs, i, k)
    &&& forall|a: int, b: int| #[trigger] faulty(jobs, a, b) ==> i < a || (i == a && k <= b)
}

/// The indices of the named jobs in order, each once.
pub open spec fn resolve(jobs: Seq<JobView>, needs: Seq<Seq<char>>) -> Seq<usize>
    decreases needs.len(),
{
    if needs.len() == 0 {
        Seq::empty()
    } else {
        let before = resolve(jobs, needs.drop_last());
        let d = pipeline::position(jobs, needs.last()) as usize;
        if before.contains(d) {
            before
        } else {
            before.push(d)
        }
    }
}

/// For each job the indices of the jobs it needs.
pub open spec fn edges(jobs: Seq<JobView>) -> Seq<Seq<usize>> {
    Seq::new(jobs.len(), |i: int| resolve(jobs, jobs[i].needs))
}

/// Every member of `s` needs a member of `s`.
pub open spec fn self_supporting(deps: Seq<Seq<usize>>, s: Set<int>) -> bool {
    forall|j: int| #[trigger]
        s.contains(j) ==> 0 <= j < deps.len() && exists|d: usize| #[trigger]
            deps[j].contains(d) && s.contains(d as int)
}

/// Job `i` is on a cycle, or needs, however indirectly, a job that is.
pub open spec fn stuck(deps: Seq<Seq<usize>>, i: int) -> bool {
    exists|s: Set<int>| #[trigger] s.contains(i) && self_supporting(deps, s)
}

/// The names of the stuck jobs among the first `n`, in config order.
pub open spec fn stuck_names(deps: Seq<Seq<usize>>, order: Seq<Seq<char>>, n: int) -> Seq<Seq<char>>
    decreases n,
{
    if n <= 0 {
        Seq::empty()
    } else if stuck(deps, n - 1) {
        stuck_names(deps, order, n - 1).push(order[n - 1])
    } else {
        stuck_names(deps, order, n - 1)
    }
}

/// Some job is stuck.
pub open spec fn cyclic(deps: Seq<Seq<usize>>) -> bool {
    exists|i: int| 0 <= i < deps.len() && stuck(deps, i)
}

/// What is wrong with the graph of `jobs`: a name that occurs twice, else a need
/// that names no job or its own, else a cycle.
pub open spec fn defect(jobs: Seq<JobView>) -> Option<ErrorView> {
    if exists|i: int| first_repeat(jobs, i) {
        let i = choose|i: int| first_repeat(jobs, i);
        Some(ErrorView::DuplicateJob(jobs[i].name))
    } else if exists|i: int, k: int| first_fault(jobs, i, k) {
        let (i, k) = choose|i: int, k: int| first_fault(jobs, i, k);
        if missing(jobs, i, k) {
            Some(ErrorView::MissingDependency { job: jobs[i].name, needs: jobs[i].needs[k] })
        } else {
            Some(ErrorView::Cycle(seq![jobs[i].name]))
        }
    } else if cyclic(edges(jobs)) {
        Some(ErrorView::Cycle(stuck_names(edges(jobs), names(jobs), jobs.len() as int)))
    } else {
        None
    }
}

/// `levels` gives every job the length of the longest path from it to a job
/// that needs nothing.
pub open spec fn is_leveling(deps: Seq<Seq<usize>>, levels: Seq<usize>) -> bool {
    &&& levels.len() == deps.len()
    &&& forall|i: int, d: usize|
        0 <= i < deps.len() && #[trigger] deps[i].contains(d) ==> d < deps.len()
            && levels[d as int] < levels[i]
    &&& forall|i: int| 0 <= i < deps.len() && levels[i] > 0 ==> #[trigger] rests_on(deps, levels, i)
}

/// Some job that `i` needs stands one level below it.
pub open spec fn rests_on(deps: Seq<Seq<usize>>, levels: Seq<usize>, i: int) -> bool {
    exists|d: usize| #[trigger] deps[i].contains(d) && levels[d as int] + 1 == levels[i]
}

/// `dependents` is `deps` with every edge turned round, each list ascending.
pub open spec fn is_reverse(deps: Seq<Seq<usize>>, dependents: Seq<Seq<usize>>) -> bool {
    &&& dependents.len() == deps.len()
    &&& forall|d: int, i: usize|
        0 <= d < deps.len() ==> (#[trigger] dependents[d].contains(i) <==> i < deps.len()
            && deps[i as int].contains(d as usize))
    &&& forall|d: int, a: int, b: int|
        0 <= d < deps.len() && 0 <= a < b < dependents[d].len() ==> #[trigger] dependents[d][a]
            < #[trigger] dependents[d][b]
}

impl Dag {
    /// This is the graph of `jobs`.
    pub open spec fn graphs(&self, jobs: Seq<JobView>) -> bool {
        &&& text::views(self.order@) == names(jobs)
        &&& index_views(self.deps@) == edges(jobs)
        &&& is_reverse(edges(jobs), index_views(self.dependents@))
        &&& is_leveling(edges(jobs), self.levels@)
    }

    /// Every job has a level, below the number of jobs.
    pub open spec fn layered(&self) -> bool {
        &&& self.levels@.len() == self.order@.len()
        &&& forall|i: int|
            0 <= i < self.levels@.len() ==> (#[trigger] self.levels@[i]) < self.levels@.len()
    }
}

/// The number of members of `ds` outside of `p`.
spec fn open_count(ds: Seq<usize>, p: Set<usize>) -> nat
    decreases ds.len(),
{
    if ds.len() == 0 {
        0
    } else {
        open_count(ds.drop_last(), p) + (if p.contains(ds.last()) {
            0nat
        } else {
            1nat
        })
    }
}

proof fn lemma_open_count_empty(ds: Seq<usize>)
    ensures
        open_count(ds, Set::empty()) == ds.len(),
    decreases ds.len(),
{
    if ds.len() > 0 {
        lemma_open_count_empty(ds.drop_last());
    }
}

proof fn lemma_open_count_same(ds: Seq<usize>, p: Set<usize>, u: usize)
    requires
        !ds.contains(u),
    ensures
        open_count(ds, p.insert(u)) == open_count(ds, p),
    decreases ds.len(),
{
    if ds.len() > 0 {
        assert(!ds.drop_last().contains(u)) by {
            if ds.drop_last().contains(u) {
                let k = choose|k: int| 0 <= k < ds.drop_last().len() && ds.drop_last()[k] == u;
                assert(ds[k] == u);
            }
        }
        assert(ds[ds.len() - 1] != u);
        lemma_open_count_same(ds.drop_last(), p, u);
    }
}

proof fn lemma_open_count_insert(ds: Seq<usize>, p: Set<usize>, u: usize)
    requires
        ds.no_duplicates(),
        ds.contains(u),
        !p.contains(u),
    ensures
        open_count(ds, p.insert(u)) == open_count(ds, p) - 1,
        open_count(ds, p) >= 1,
    decreases ds.len(),
{
    let rest = ds.drop_last();
    let k = choose|k: int| 0 <= k < ds.len() && ds[k] == u;
    if ds.last() == u {
        assert(!rest.contains(u)) by {
            if rest.contains(u) {
                let j = choose|j: int| 0 <= j < rest.len() && rest[j] == u;
                assert(ds[j] == u && ds[ds.len() - 1] == u);
            }
        }
        lemma_open_count_same(rest, p, u);
    } else {
        assert(rest[k] == u);
        lemma_open_count_insert(rest, p, u);
    }
}

proof fn lemma_open_count_zero(ds: Seq<usize>, p: Set<usize>)
    ensures
        open_count(ds, p) == 0 <==> (forall|d: usize| #[trigger] ds.contains(d) ==> p.contains(d)),
    decreases ds.len(),
{
    if ds.len() > 0 {
        let rest = ds.drop_last();
        lemma_open_count_zero(rest, p);
        assert(ds[ds.len() - 1] == ds.last());
        if open_count(ds, p) == 0 {
            assert forall|d: usize| #[trigger] ds.contains(d) implies p.contains(d) by {
                let k = choose|k: int| 0 <= k < ds.len() && ds[k] == d;
                if k < rest.len() {
                    assert(rest[k] == d);
                    assert(rest.contains(d));
                }
            }
        }
        if forall|d: usize| #[trigger] ds.contains(d) ==> p.contains(d) {
            assert forall|d: usize| #[trigger] rest.contains(d) implies p.contains(d) by {
                let k = choose|k: int| 0 <= k < rest.len() && rest[k] == d;
                assert(ds[k] == d);
                assert(ds.contains(d));
            }
            assert(ds.contains(ds.last()));
        }
    }
}

/// The members of the first `n` positions of `q`.
spec fn taken(q: Seq<usize>, n: int) -> Set<usize> {
    q.take(n).to_set()
}

proof fn lemma_taken(q: Seq<usize>, n: int)
    requires
        0 <= n < q.len(),
    ensures
        taken(q, n + 1) == taken(q, n).insert(q[n]),
{
    let a = q.take(n);
    let b = q.take(n + 1);
    assert(b =~= a.push(q[n]));
    assert forall|x: usize| taken(q, n + 1).contains(x) <==> #[trigger] taken(q, n).insert(
        q[n],
    ).contains(x) by {
        if b.contains(x) {
            let k = choose|k: int| 0 <= k < b.len() && b[k] == x;
            if k < n {
                assert(a[k] == x);
            }
        }
        if a.contains(x) {
            let k = choose|k: int| 0 <= k < a.len() && a[k] == x;
            assert(b[k] == x);
        }
        assert(b[n] == q[n]);
    }
    assert(taken(q, n + 1) =~= taken(q, n).insert(q[n]));
}

/// What the layering loop keeps about the jobs that it has finished.
///
/// `q` holds the jobs whose needs are all finished, `n` of them finished
/// themselves; `indeg` counts the unfinished needs of every job, with the edges
/// out of job `u` counted as finished for the jobs in `seen` alone.
spec fn layering(
    deps: Seq<Seq<usize>>,
    q: Seq<usize>,
    n: int,
    indeg: Seq<usize>,
    level: Seq<usize>,
    u: usize,
    seen: Seq<usize>,
) -> bool {
    &&& 0 <= n <= q.len()
    &&& indeg.len() == deps.len()
    &&& level.len() == deps.len()
    &&& q.no_duplicates()
    &&& forall|k: int| 0 <= k < q.len() ==> (#[trigger] q[k]) < deps.len()
    // What is counted as finished for job v.
    &&& forall|v: int|
        0 <= v < deps.len() ==> #[trigger] indeg[v] == open_count(
            deps[v],
            if seen.contains(v as usize) {
                taken(q, n).insert(u)
            } else {
                taken(q, n)
            },
        )
    &&& forall|v: int|
        0 <= v < deps.len() ==> (#[trigger] indeg[v] == 0 <==> q.contains(v as usize))
    // Needs stand before what needs them.
    &&& forall|k: int, d: usize|
        0 <= k < q.len() && #[trigger] deps[q[k] as int].contains(d) ==> exists|j: int|
            0 <= j < k && (j < n || (j == n && seen.len() > 0)) && #[trigger] q[j] == d
    // Levels so far.
    &&& forall|k: int| 0 <= k < q.len() ==> level[#[trigger] q[k] as int] <= k
    &&& forall|v: int| 0 <= v < deps.len() ==> #[trigger] level[v] <= n + 1
    &&& forall|v: int, d: usize|
        0 <= v < deps.len() && #[trigger] deps[v].contains(d) && (taken(q, n).contains(d) || (d == u
            && seen.contains(v as usize))) ==> level[v] > level[d as int]
    &&& forall|v: int|
        0 <= v < deps.len() && #[trigger] level[v] > 0 ==> exists|d: usize| #[trigger]
            deps[v].contains(d) && (taken(q, n).contains(d) || (d == u && seen.contains(
                v as usize,
            ))) && level[d as int] + 1 == level[v]
}

/// No list repeats a job, and every index is one of a job.
spec fn clean_edges(deps: Seq<Seq<usize>>) -> bool {
    &&& forall|i: int| 0 <= i < deps.len() ==> (#[trigger] deps[i]).no_duplicates()
    &&& forall|i: int, d: usize|
        0 <= i < deps.len() && #[trigger] deps[i].contains(d) ==> d < deps.len()
}

proof fn lemma_not_taken(q: Seq<usize>, n: int)
    requires
        q.no_duplicates(),
        0 <= n < q.len(),
    ensures
        !taken(q, n).contains(q[n]),
{
    if taken(q, n).contains(q[n]) {
        let k = choose|k: int| 0 <= k < q.take(n).len() && q.take(n)[k] == q[n];
        assert(q[k] == q[n]);
    }
}

proof fn lemma_push_contains(s: Seq<usize>, v: usize)
    ensures
        forall|w: usize| #[trigger] s.push(v).contains(w) <==> s.contains(w) || w == v,
{
    assert forall|w: usize| #[trigger] s.push(v).contains(w) <==> s.contains(w) || w == v by {
        if s.contains(w) {
            let k = choose|k: int| 0 <= k < s.len() && s[k] == w;
            assert(s.push(v)[k] == w);
        }
        assert(s.push(v)[s.len() as int] == v);
        if s.push(v).contains(w) && w != v {
            let k = choose|k: int| 0 <= k < s.push(v).len() && s.push(v)[k] == w;
            assert(s[k] == w);
        }
    }
}

/// Counts the edge from `v` to its need `u` as finished.
fn relax(
    Ghost(deps): Ghost<Seq<Seq<usize>>>,
    queue: &mut Vec<usize>,
    n: usize,
    indeg: &mut Vec<usize>,
    level: &mut Vec<usize>,
    u: usize,
    v: usize,
    Ghost(seen): Ghost<Seq<usize>>,
)
    requires
        clean_edges(deps),
        layering(deps, old(queue)@, n as int, old(indeg)@, old(level)@, u, seen),
        n < old(queue)@.len(),
        old(queue)@[n as int] == u,
        v < deps.len(),
        deps[v as int].contains(u),
        !seen.contains(v),
    ensures
        layering(deps, final(queue)@, n as int, final(indeg)@, final(level)@, u, seen.push(v)),
        n < final(queue)@.len(),
        final(queue)@[n as int] == u,
{
    let ghost q0 = queue@;
    let ghost indeg0 = indeg@;
    let ghost level0 = level@;
    let ghost p = taken(q0, n as int);
    let ghost now = seen.push(v);
    proof {
        lemma_not_taken(q0, n as int);
        lemma_open_count_insert(deps[v as int], p, u);
        lemma_push_contains(seen, v);
        assert(indeg0[v as int] == open_count(deps[v as int], p));
        assert(level0[q0[n as int] as int] <= n);
        assert(!deps[u as int].contains(u)) by {
            if deps[q0[n as int] as int].contains(u) {
                let j = choose|j: int|
                    0 <= j < n && (j < n || (j == n && seen.len() > 0)) && #[trigger] q0[j] == u;
                assert(q0[j] == q0[n as int]);
            }
        }
    }
    let total: usize = indeg.len();
    let queued: usize = queue.len();
    let reach: usize = level[u] + 1;
    if level[v] < reach {
        level.set(v, reach);
    }
    let left: usize = indeg[v] - 1;
    indeg.set(v, left);
    if left == 0 {
        queue.push(v);
    }
    proof {
        let q = queue@;
        lemma_push_contains(q0, v);
        assert(q.take(n as int) =~= q0.take(n as int));
        assert(taken(q, n as int) == p);
        assert(!q0.contains(v));
        assert(u != v);
        assert forall|w: int| 0 <= w < deps.len() implies #[trigger] indeg@[w] == open_count(
            deps[w],
            if now.contains(w as usize) {
                taken(q, n as int).insert(u)
            } else {
                taken(q, n as int)
            },
        ) by {
            assert(indeg0[w] == open_count(
                deps[w],
                if seen.contains(w as usize) {
                    p.insert(u)
                } else {
                    p
                },
            ));
        }
        assert forall|w: int| 0 <= w < deps.len() implies (#[trigger] indeg@[w] == 0 <==> q.contains(
            w as usize,
        )) by {
            assert(indeg0[w] == 0 <==> q0.contains(w as usize));
        }
        assert forall|k: int, d: usize|
            0 <= k < q.len() && #[trigger] deps[q[k] as int].contains(d) implies exists|j: int|
            0 <= j < k && (j < n || (j == n && now.len() > 0)) && #[trigger] q[j] == d by {
            if k < q0.len() {
                assert(deps[q0[k] as int].contains(d));
                let j = choose|j: int|
                    0 <= j < k && (j < n || (j == n && seen.len() > 0)) && #[trigger] q0[j] == d;
                assert(q[j] == d);
            } else {
                lemma_open_count_zero(deps[v as int], p.insert(u));
                assert(p.insert(u).contains(d));
                if d == u {
                    assert(q[n as int] == d);
                } else {
                    let j = choose|j: int| 0 <= j < q0.take(n as int).len() && q0.take(n as int)[j] == d;
                    assert(q[j] == d);
                }
            }
        }
        assert forall|k: int| 0 <= k < q.len() implies level@[#[trigger] q[k] as int] <= k by {
            if k < q0.len() {
                assert(q[k] == q0[k]);
                assert(q0.contains(q0[k]));
                assert(level0[q0[k] as int] <= k);
            }
        }
        assert forall|w: int, d: usize|
            0 <= w < deps.len() && #[trigger] deps[w].contains(d) && (taken(q, n as int).contains(d)
                || (d == u && now.contains(w as usize))) implies level@[w] > level@[d as int] by {
            if p.contains(d) {
                let j = choose|j: int| 0 <= j < q0.take(n as int).len() && q0.take(n as int)[j] == d;
                assert(q0[j] == d);
                assert(d != v);
                assert(level0[w] > level0[d as int]);
            }
        }
        assert forall|w: int| 0 <= w < deps.len() && #[trigger] level@[w] > 0 implies exists|d: usize|
            #[trigger] deps[w].contains(d) && (taken(q, n as int).contains(d) || (d == u
                && now.contains(w as usize))) && level@[d as int] + 1 == level@[w] by {
            if w == v && level0[w] < reach {
                assert(deps[w].contains(u));
            } else {
                assert(level0[w] > 0);
                let d = choose|d: usize| #[trigger]
                    deps[w].contains(d) && (p.contains(d) || (d == u && seen.contains(w as usize)))
                        && level0[d as int] + 1 == level0[w];
                assert(deps[w].contains(d));
                if d == v {
                    assert(p.contains(d));
                    let j = choose|j: int| 0 <= j < q0.take(n as int).len() && q0.take(n as int)[j] == d;
                    assert(q0[j] == d);
                }
                assert(level@[d as int] == level0[d as int]);
            }
        }
    }
}

proof fn lemma_next_layer(
    deps: Seq<Seq<usize>>,
    q: Seq<usize>,
    n: int,
    indeg: Seq<usize>,
    level: Seq<usize>,
    u: usize,
    seen: Seq<usize>,
    next: usize,
)
    requires
        deps.len() <= usize::MAX,
        layering(deps, q, n, indeg, level, u, seen),
        n < q.len(),
        q[n] == u,
        forall|v: usize| #[trigger]
            seen.contains(v) <==> v < deps.len() && deps[v as int].contains(u),
    ensures
        layering(deps, q, n + 1, indeg, level, next, Seq::empty()),
{
    let none = Seq::<usize>::empty();
    lemma_taken(q, n);
    assert forall|v: int| 0 <= v < deps.len() implies #[trigger] indeg[v] == open_count(
        deps[v],
        if none.contains(v as usize) {
            taken(q, n + 1).insert(next)
        } else {
            taken(q, n + 1)
        },
    ) by {
        if !seen.contains(v as usize) {
            lemma_open_count_same(deps[v], taken(q, n), u);
        }
    }
    assert forall|k: int, d: usize|
        0 <= k < q.len() && #[trigger] deps[q[k] as int].contains(d) implies exists|j: int|
        0 <= j < k && (j < n + 1 || (j == n + 1 && none.len() > 0)) && #[trigger] q[j] == d by {
        let j = choose|j: int|
            0 <= j < k && (j < n || (j == n && seen.len() > 0)) && #[trigger] q[j] == d;
        assert(q[j] == d);
    }
    assert forall|v: int, d: usize|
        0 <= v < deps.len() && #[trigger] deps[v].contains(d) && (taken(q, n + 1).contains(d) || (d
            == next && none.contains(v as usize))) implies level[v] > level[d as int] by {
        if d == u {
            assert(seen.contains(v as usize));
        }
    }
    assert forall|v: int| 0 <= v < deps.len() && #[trigger] level[v] > 0 implies exists|d: usize|
        #[trigger] deps[v].contains(d) && (taken(q, n + 1).contains(d) || (d == next
            && none.contains(v as usize))) && level[d as int] + 1 == level[v] by {
        let d = choose|d: usize| #[trigger]
            deps[v].contains(d) && (taken(q, n).contains(d) || (d == u && seen.contains(v as usize)))
                && level[d as int] + 1 == level[v];
        assert(deps[v].contains(d));
    }
}

/// A finished job is not stuck: its needs stand before it, and so on down.
proof fn lemma_queued_not_stuck(deps: Seq<Seq<usize>>, q: Seq<usize>, k: int, s: Set<int>)
    requires
        0 <= k < q.len(),
        forall|k: int, d: usize|
            0 <= k < q.len() && #[trigger] deps[q[k] as int].contains(d) ==> exists|j: int|
                0 <= j < k && #[trigger] q[j] == d,
        self_supporting(deps, s),
    ensures
        !s.contains(q[k] as int),
    decreases k,
{
    if s.contains(q[k] as int) {
        let d = choose|d: usize| #[trigger]
            deps[q[k] as int].contains(d) && s.contains(d as int);
        let j = choose|j: int| 0 <= j < k && #[trigger] q[j] == d;
        lemma_queued_not_stuck(deps, q, j, s);
    }
}

/// The unfinished jobs support one another.
proof fn lemma_left_over(
    deps: Seq<Seq<usize>>,
    q: Seq<usize>,
    indeg: Seq<usize>,
    left: Set<int>,
)
    requires
        deps.len() <= usize::MAX,
        clean_edges(deps),
        indeg.len() == deps.len(),
        forall|v: int|
            0 <= v < deps.len() ==> #[trigger] indeg[v] == open_count(deps[v], q.to_set()),
        forall|v: int|
            0 <= v < deps.len() ==> (#[trigger] indeg[v] == 0 <==> q.contains(v as usize)),
        left == Set::new(|v: int| 0 <= v < deps.len() && indeg[v] > 0),
    ensures
        self_supporting(deps, left),
{
    let p = q.to_set();
    assert forall|j: int| #[trigger] left.contains(j) implies 0 <= j < deps.len() && exists|
        d: usize,
    | #[trigger]
        deps[j].contains(d) && left.contains(d as int) by {
        lemma_open_count_zero(deps[j], p);
        let d = choose|d: usize| #[trigger] deps[j].contains(d) && !p.contains(d);
        assert(deps[j].contains(d));
        assert(!q.contains(d));
        assert(indeg[d as int] != 0);
        assert(left.contains(d as int));
    }
}

/// When no finished job is left to look at, the unfinished ones are the stuck ones.
proof fn lemma_settled(deps: Seq<Seq<usize>>, q: Seq<usize>, indeg: Seq<usize>, level: Seq<usize>)
    requires
        deps.len() <= usize::MAX,
        clean_edges(deps),
        layering(deps, q, q.len() as int, indeg, level, 0, Seq::empty()),
    ensures
        forall|v: int| 0 <= v < deps.len() ==> (#[trigger] indeg[v] > 0 <==> stuck(deps, v)),
{
    let left = Set::new(|v: int| 0 <= v < deps.len() && indeg[v] > 0);
    assert(self_supporting(deps, left)) by {
        assert(q.take(q.len() as int) =~= q);
        lemma_left_over(deps, q, indeg, left);
    }
    assert forall|v: int| 0 <= v < deps.len() implies (#[trigger] indeg[v] > 0 <==> stuck(
        deps,
        v,
    )) by {
        if indeg[v] > 0 {
            assert(left.contains(v));
        } else {
            assert(q.contains(v as usize));
            let k = choose|k: int| 0 <= k < q.len() && q[k] == v as usize;
            if stuck(deps, v) {
                let s = choose|s: Set<int>| #[trigger] s.contains(v) && self_supporting(deps, s);
                lemma_queued_not_stuck(deps, q, k, s);
            }
        }
    }
}

/// Kahn's algorithm: detects cycles and, as a side effect, computes the
/// longest-path level of every node (its wave).
fn topo_levels(deps: &Vec<Vec<usize>>, dependents: &Vec<Vec<usize>>, order: &Vec<String>) -> (r:
    Result<Vec<usize>, Error>)
    requires
        clean_edges(index_views(deps@)),
        is_reverse(index_views(deps@), index_views(dependents@)),
        order.len() == deps.len(),
    ensures
        match r {
            Ok(levels) => !cyclic(index_views(deps@)) && is_leveling(
                index_views(deps@),
                levels@,
            ) && (forall|i: int|
                0 <= i < levels@.len() ==> (#[trigger] levels@[i]) < levels@.len()),
            Err(e) => cyclic(index_views(deps@)) && e@ == ErrorView::Cycle(
                stuck_names(index_views(deps@), text::views(order@), order@.len() as int),
            ),
        },
{
    let ghost es = index_views(deps@);
    let ghost rs = index_views(dependents@);
    let n = deps.len();
    let mut indeg: Vec<usize> = Vec::new();
    let mut level: Vec<usize> = Vec::new();
    let mut queue: Vec<usize> = Vec::new();
    let mut i: usize = 0;
    while i < n
        invariant
            i <= n == deps.len(),
            es == index_views(deps@),
            indeg.len() == i,
            level.len() == i,
            forall|v: int| 0 <= v < i ==> #[trigger] indeg@[v] == es[v].len(),
            forall|v: int| 0 <= v < i ==> #[trigger] level@[v] == 0,
            queue@.no_duplicates(),
            forall|k: int| 0 <= k < queue@.len() ==> (#[trigger] queue@[k]) < i,
            forall|v: int| 0 <= v < i ==> (#[trigger] indeg@[v] == 0 <==> queue@.contains(v as usize)),
        decreases n - i,
    {
        let d: usize = deps[i].len();
        assert(es[i as int] == deps@[i as int]@);
        indeg.push(d);
        level.push(0);
        let ghost q0 = queue@;
        if d == 0 {
            queue.push(i);
        }
        proof {
            lemma_push_contains(q0, i);
            assert(!q0.contains(i));
        }
        i += 1;
    }
    assert(layering(es, queue@, 0, indeg@, level@, 0, Seq::empty())) by {
        let q = queue@;
        assert(taken(q, 0) =~= Set::empty());
        assert forall|v: int| 0 <= v < es.len() implies #[trigger] indeg@[v] == open_count(
            es[v],
            taken(q, 0),
        ) by {
            lemma_open_count_empty(es[v]);
        }
        assert forall|k: int, d: usize|
            0 <= k < q.len() && #[trigger] es[q[k] as int].contains(d) implies false by {
            assert(q.contains(q[k]));
            assert(indeg@[q[k] as int] == 0);
        }
    }
    let mut qi: usize = 0;
    while qi < queue.len()
        invariant
            n == deps.len() == dependents.len(),
            es == index_views(deps@),
            rs == index_views(dependents@),
            clean_edges(es),
            is_reverse(es, rs),
            qi <= queue.len(),
            layering(es, queue@, qi as int, indeg@, level@, 0, Seq::empty()),
        decreases n - qi,
    {
        let u = queue[qi];
        let ghost none = Seq::<usize>::empty();
        proof {
            assert(rs[u as int] == dependents@[u as int]@);
            lemma_queue_short(es, queue@, qi as int, indeg@, level@);
        }
        let mut k: usize = 0;
        assert(rs[u as int].take(0) =~= none);
        assert(layering(es, queue@, qi as int, indeg@, level@, u, none));
        while k < dependents[u].len()
            invariant
                n == deps.len() == dependents.len(),
                es == index_views(deps@),
                rs == index_views(dependents@),
                clean_edges(es),
                is_reverse(es, rs),
                u < n,
                rs[u as int] == dependents@[u as int]@,
                k <= dependents@[u as int]@.len(),
                layering(
                    es,
                    queue@,
                    qi as int,
                    indeg@,
                    level@,
                    u,
                    rs[u as int].take(k as int),
                ),
                qi < queue@.len(),
                queue@[qi as int] == u,
            decreases dependents@[u as int]@.len() - k,
        {
            let v = dependents[u][k];
            let ghost seen = rs[u as int].take(k as int);
            proof {
                assert(rs[u as int].contains(v));
                assert(es[v as int].contains(u));
                if seen.contains(v) {
                    let j = choose|j: int| 0 <= j < seen.len() && seen[j] == v;
                    assert(rs[u as int][j] < rs[u as int][k as int]);
                }
            }
            relax(Ghost(es), &mut queue, qi, &mut indeg, &mut level, u, v, Ghost(seen));
            k += 1;
            assert(rs[u as int].take(k as int) =~= seen.push(v));
        }
        proof {
            assert(rs[u as int].take(k as int) =~= rs[u as int]);
            lemma_next_layer(es, queue@, qi as int, indeg@, level@, u, rs[u as int], 0);
        }
        qi += 1;
    }
    proof {
        lemma_settled(es, queue@, indeg@, level@);
    }
    let mut cycle: Vec<String> = Vec::new();
    let mut j: usize = 0;
    let ghost order_views = text::views(order@);
    while j < n
        invariant
            j <= n == order.len() == indeg.len(),
            es.len() == n,
            order_views == text::views(order@),
            forall|v: int| 0 <= v < es.len() ==> (#[trigger] indeg@[v] > 0 <==> stuck(es, v)),
            text::views(cycle@) == stuck_names(es, order_views, j as int),
            cycle@.len() == 0 <==> forall|v: int| 0 <= v < j ==> !#[trigger] stuck(es, v),
        decreases n - j,
    {
        let ghost c0 = cycle@;
        if indeg[j] > 0 {
            cycle.push(order[j].clone());
            assert(text::views(cycle@) =~= text::views(c0).push(order_views[j as int]));
            assert(stuck(es, j as int));
        } else {
            assert(!stuck(es, j as int));
        }
        j += 1;
    }
    if cycle.len() > 0 {
        return Err(Error::Cycle(cycle));
    }
    assert(is_leveling(es, level@)) by {
        let q = queue@;
        assert(q.take(q.len() as int) =~= q);
        assert forall|i: int, d: usize|
            0 <= i < es.len() && #[trigger] es[i].contains(d) implies d < es.len() && level@[d as int]
            < level@[i] by {
            assert(!stuck(es, d as int));
            assert(indeg@[d as int] == 0);
            assert(q.contains(d));
            assert(taken(q, q.len() as int).contains(d));
        }
        assert forall|i: int| 0 <= i < es.len() && level@[i] > 0 implies #[trigger] rests_on(
            es,
            level@,
            i,
        ) by {
            let d = choose|d: usize| #[trigger]
                es[i].contains(d) && (taken(q, q.len() as int).contains(d) || (d == 0 && Seq::<
                    usize,
                >::empty().contains(i as usize))) && level@[d as int] + 1 == level@[i];
            assert(es[i].contains(d));
        }
    }
    assert forall|i: int| 0 <= i < level@.len() implies (#[trigger] level@[i]) < level@.len() by {
        let q = queue@;
        lemma_queue_short(es, q, q.len() as int, indeg@, level@);
        assert(!stuck(es, i));
        assert(indeg@[i] == 0);
        assert(q.contains(i as usize));
        let k = choose|k: int| 0 <= k < q.len() && q[k] == i as usize;
        assert(level@[q[k] as int] <= k);
    }
    Ok(level)
}

/// The queue holds each job at most once.
proof fn lemma_queue_short(
    deps: Seq<Seq<usize>>,
    q: Seq<usize>,
    n: int,
    indeg: Seq<usize>,
    level: Seq<usize>,
)
    requires
        layering(deps, q, n, indeg, level, 0, Seq::empty()),
    ensures
        q.len() <= deps.len(),
{
    vstd::set_lib::lemma_int_range(0, deps.len() as int);
    let as_int = q.map_values(|x: usize| x as int);
    q.unique_seq_to_set();
    assert(as_int.no_duplicates());
    as_int.unique_seq_to_set();
    assert(as_int.to_set().subset_of(vstd::set_lib::set_int_range(0, deps.len() as int))) by {
        assert forall|x: int| as_int.to_set().contains(x) implies vstd::set_lib::set_int_range(
            0,
            deps.len() as int,
        ).contains(x) by {
            let k = choose|k: int| 0 <= k < as_int.len() && as_int[k] == x;
            assert(q[k] < deps.len());
        }
    }
    vstd::set_lib::lemma_len_subset(
        as_int.to_set(),
        vstd::set_lib::set_int_range(0, deps.len() as int),
    );
}

/// The position of the first `name` in `order`, or the length.
fn find_name(Ghost(jobs): Ghost<Seq<JobView>>, order: &Vec<String>, name: &String) -> (k: usize)
    requires
        text::views(order@) == names(jobs),
    ensures
        k == pipeline::position(jobs, name@),
        k <= order.len(),
{
    let mut i: usize = 0;
    assert(order@.len() == text::views(order@).len());
    while i < order.len() && order[i] != *name
        invariant
            text::views(order@) == names(jobs),
            order.len() == jobs.len(),
            i <= order.len(),
            forall|j: int| 0 <= j < i ==> (#[trigger] jobs[j]).name != name@,
        decreases order.len() - i,
    {
        assert(text::views(order@)[i as int] == jobs[i as int].name);
        i += 1;
    }
    proof {
        if i < order.len() {
            assert(text::views(order@)[i as int] == jobs[i as int].name);
        }
        pipeline::lemma_position(jobs, name@, i as int);
    }
    i
}

pub proof fn lemma_position_bound(jobs: Seq<JobView>, name: Seq<char>)
    ensures
        0 <= pipeline::position(jobs, name) <= jobs.len(),
        pipeline::position(jobs, name) < jobs.len() ==> jobs[pipeline::position(jobs, name)].name
            == name,
    decreases jobs.len(),
{
    if jobs.len() > 0 && jobs[0].name != name {
        lemma_position_bound(jobs.drop_first(), name);
    }
}

proof fn lemma_resolve(jobs: Seq<JobView>, needs: Seq<Seq<char>>)
    requires
        jobs.len() <= usize::MAX,
        forall|k: int|
            0 <= k < needs.len() ==> pipeline::position(jobs, #[trigger] needs[k]) < jobs.len(),
    ensures
        resolve(jobs, needs).no_duplicates(),
        forall|d: usize| #[trigger] resolve(jobs, needs).contains(d) ==> d < jobs.len(),
    decreases needs.len(),
{
    if needs.len() > 0 {
        let rest = needs.drop_last();
        assert forall|k: int| 0 <= k < rest.len() implies pipeline::position(
            jobs,
            #[trigger] rest[k],
        ) < jobs.len() by {
            assert(needs[k] == rest[k]);
        }
        lemma_resolve(jobs, rest);
        lemma_position_bound(jobs, needs.last());
        assert(needs[needs.len() - 1] == needs.last());
        let d = pipeline::position(jobs, needs.last()) as usize;
        lemma_push_contains(resolve(jobs, rest), d);
    }
}

/// A graph without faulty needs has clean edges.
pub proof fn lemma_edges(jobs: Seq<JobView>)
    requires
        jobs.len() <= usize::MAX,
        forall|a: int, b: int| !#[trigger] faulty(jobs, a, b),
    ensures
        forall|i: int| 0 <= i < jobs.len() ==> (#[trigger] edges(jobs)[i]).no_duplicates(),
        forall|i: int, d: usize|
            0 <= i < jobs.len() && #[trigger] edges(jobs)[i].contains(d) ==> d < jobs.len(),
{
    assert forall|i: int| 0 <= i < jobs.len() implies (#[trigger] edges(jobs)[i]).no_duplicates()
        && forall|d: usize| #[trigger] edges(jobs)[i].contains(d) ==> d < jobs.len() by {
        assert forall|k: int| 0 <= k < jobs[i].needs.len() implies pipeline::position(
            jobs,
            #[trigger] jobs[i].needs[k],
        ) < jobs.len() by {
            lemma_position_bound(jobs, jobs[i].needs[k]);
            assert(!faulty(jobs, i, k));
        }
        lemma_resolve(jobs, jobs[i].needs);
    }
}

/// Turns every edge of `deps` round.
fn reverse_edges(deps: &Vec<Vec<usize>>) -> (r: Vec<Vec<usize>>)
    requires
        clean_edges(index_views(deps@)),
    ensures
        is_reverse(index_views(deps@), index_views(r@)),
{
    let ghost es = index_views(deps@);
    let n = deps.len();
    let mut r: Vec<Vec<usize>> = Vec::new();
    let mut j: usize = 0;
    while j < n
        invariant
            j <= n,
            r.len() == j,
            forall|d: int| 0 <= d < j ==> (#[trigger] r@[d])@ == Seq::<usize>::empty(),
        decreases n - j,
    {
        r.push(Vec::new());
        j += 1;
    }
    let mut i: usize = 0;
    while i < n
        invariant
            i <= n == deps.len() == r.len(),
            es == index_views(deps@),
            clean_edges(es),
            forall|d: int, x: usize|
                0 <= d < n ==> (#[trigger] r@[d]@.contains(x) <==> x < i && es[x as int].contains(
                    d as usize,
                )),
            forall|d: int, a: int, b: int|
                0 <= d < n && 0 <= a < b < r@[d]@.len() ==> #[trigger] r@[d]@[a]
                    < #[trigger] r@[d]@[b],
        decreases n - i,
    {
        let mut k: usize = 0;
        assert(es[i as int] == deps@[i as int]@);
        assert(forall|d: int| 0 <= d < n ==> !es[i as int].take(0).contains(#[trigger] (d as usize)));
        while k < deps[i].len()
            invariant
                i < n == deps.len() == r.len(),
                es == index_views(deps@),
                es[i as int] == deps@[i as int]@,
                clean_edges(es),
                k <= es[i as int].len(),
                forall|d: int, x: usize|
                    0 <= d < n ==> (#[trigger] r@[d]@.contains(x) <==> (x < i
                        && es[x as int].contains(d as usize)) || (x == i && es[i as int].take(
                        k as int,
                    ).contains(d as usize))),
                forall|d: int, a: int, b: int|
                    0 <= d < n && 0 <= a < b < r@[d]@.len() ==> #[trigger] r@[d]@[a]
                        < #[trigger] r@[d]@[b],
            decreases es[i as int].len() - k,
        {
            let d: usize = deps[i][k];
            let ghost r0 = r@;
            proof {
                assert(es[i as int].contains(d));
                let seen = es[i as int].take(k as int);
                assert(!seen.contains(d)) by {
                    if seen.contains(d) {
                        let z = choose|z: int| 0 <= z < seen.len() && seen[z] == d;
                        assert(es[i as int][z] == es[i as int][k as int]);
                    }
                }
                assert(!r0[d as int]@.contains(i));
                lemma_push_contains(r0[d as int]@, i);
                lemma_push_contains(seen, d);
                assert(es[i as int].take(k + 1) =~= seen.push(d));
            }
            r[d].push(i);
            assert forall|e: int, a: int, b: int|
                0 <= e < n && 0 <= a < b < r@[e]@.len() implies #[trigger] r@[e]@[a]
                < #[trigger] r@[e]@[b] by {
                if e == d && b == r0[e]@.len() {
                    assert(r0[e]@.contains(r0[e]@[a]));
                } else {
                    assert(r0[e]@[a] < r0[e]@[b]);
                }
            }
            k += 1;
        }
        assert(es[i as int].take(k as int) =~= es[i as int]);
        i += 1;
    }
    assert forall|d: int, x: usize|
        0 <= d < es.len() implies (#[trigger] index_views(r@)[d].contains(x) <==> x < es.len()
        && es[x as int].contains(d as usize)) by {
        assert(index_views(r@)[d] == r@[d]@);
        assert(r@[d]@.contains(x) <==> x < n && es[x as int].contains(d as usize));
    }
    r
}

impl Dag {
    /// The graph of the pipeline's jobs, or what is wrong with it.
    pub fn build(pipeline: &Pipeline) -> (r: Result<Dag, Error>)
        ensures
            match r {
                Ok(dag) => defect(pipeline@) is None && dag.graphs(pipeline@) && dag.layered(),
                Err(e) => defect(pipeline@) == Some(e@),
            },
    {
        let ghost jobs = pipeline@;
        let n = pipeline.jobs.len();
        let mut order: Vec<String> = Vec::new();
        let mut i: usize = 0;
        while i < n
            invariant
                i <= n == pipeline.jobs.len(),
                jobs == pipeline@,
                order.len() == i,
                forall|j: int| 0 <= j < i ==> (#[trigger] order@[j])@ == jobs[j].name,
                forall|j: int| 0 <= j < i ==> !#[trigger] repeats(jobs, j),
            decreases n - i,
        {
            let name = &pipeline.jobs[i].name;
            let mut j: usize = 0;
            while j < i
                invariant
                    j <= i == order.len(),
                    i < jobs.len(),
                    jobs == pipeline@,
                    name@ == jobs[i as int].name,
                    forall|j: int| 0 <= j < i ==> (#[trigger] order@[j])@ == jobs[j].name,
                    forall|j: int| 0 <= j < i ==> !#[trigger] repeats(jobs, j),
                    forall|x: int| 0 <= x < j ==> (#[trigger] jobs[x]).name != name@,
                decreases i - j,
            {
                if order[j] == *name {
                    proof {
                        assert(jobs[j as int].name == jobs[i as int].name);
                        assert(first_repeat(jobs, i as int));
                        let z = choose|z: int| first_repeat(jobs, z);
                        if z < i {
                            assert(!repeats(jobs, z));
                        } else if z > i {
                            assert(repeats(jobs, i as int));
                        }
                    }
                    return Err(Error::DuplicateJob(name.clone()));
                }
                assert(jobs[j as int].name == order@[j as int]@);
                j += 1;
            }
            order.push(name.clone());
            i += 1;
        }
        assert(!exists|z: int| first_repeat(jobs, z));
        assert(text::views(order@) =~= names(jobs));
        let mut deps: Vec<Vec<usize>> = Vec::new();
        let mut i: usize = 0;
        while i < n
            invariant
                i <= n == pipeline.jobs.len(),
                jobs == pipeline@,
                text::views(order@) == names(jobs),
                !exists|z: int| first_repeat(jobs, z),
                deps.len() == i,
                forall|j: int| 0 <= j < i ==> (#[trigger] deps@[j])@ == edges(jobs)[j],
                forall|a: int, b: int| #[trigger] faulty(jobs, a, b) ==> i <= a,
            decreases n - i,
        {
            let job: &Job = &pipeline.jobs[i];
            let ghost needs = jobs[i as int].needs;
            let mut ds: Vec<usize> = Vec::new();
            let mut k: usize = 0;
            assert(needs =~= text::views(job.needs@));
            assert(ds@ =~= resolve(jobs, needs.take(0)));
            while k < job.needs.len()
                invariant
                    i < n == pipeline.jobs.len(),
                    jobs == pipeline@,
                    *job == pipeline.jobs@[i as int],
                    job@ == jobs[i as int],
                    needs == jobs[i as int].needs,
                    needs == text::views(job.needs@),
                    k <= job.needs.len(),
                    text::views(order@) == names(jobs),
                    !exists|z: int| first_repeat(jobs, z),
                    ds@ == resolve(jobs, needs.take(k as int)),
                    forall|a: int, b: int| #[trigger]
                        faulty(jobs, a, b) ==> i < a || (i == a && k <= b),
                decreases job.needs.len() - k,
            {
                let need = &job.needs[k];
                assert(need@ == needs[k as int]);
                let d: usize = find_name(Ghost(jobs), &order, need);
                assert(order@.len() == text::views(order@).len());
                assert(order@.len() == n);
                proof {
                    if d == n || d == i {
                        assert(faulty(jobs, i as int, k as int));
                        assert(first_fault(jobs, i as int, k as int));
                        let (a, b) = choose|a: int, b: int| first_fault(jobs, a, b);
                        assert(faulty(jobs, a, b));
                    }
                }
                if d == n {
                    return Err(
                        Error::MissingDependency { job: job.name.clone(), needs: need.clone() },
                    );
                }
                if d == i {
                    let mut own: Vec<String> = Vec::new();
                    own.push(job.name.clone());
                    assert(text::views(own@) =~= seq![jobs[i as int].name]);
                    return Err(Error::Cycle(own));
                }
                assert(!faulty(jobs, i as int, k as int));
                let ghost t = needs.take(k + 1);
                assert(t.drop_last() =~= needs.take(k as int));
                assert(t.last() == needs[k as int]);
                if !contains(&ds, d) {
                    ds.push(d);
                }
                k += 1;
            }
            assert(needs.take(k as int) =~= needs);
            deps.push(ds);
            i += 1;
        }
        proof {
            assert forall|a: int, b: int| !#[trigger] faulty(jobs, a, b) by {}
            assert(!exists|a: int, b: int| first_fault(jobs, a, b));
            lemma_edges(jobs);
            assert(index_views(deps@) =~= edges(jobs));
        }
        let dependents = reverse_edges(&deps);
        assert(order@.len() == text::views(order@).len());
        match topo_levels(&deps, &dependents, &order) {
            Ok(levels) => Ok(Dag { order, deps, dependents, levels }),
            Err(e) => Err(e),
        }
    }

    /// The number of jobs.
    pub fn len(&self) -> (n: usize)
        ensures
            n == self.order@.len(),
    {
        self.order.len()
    }

    /// True when there is no job.
    pub fn is_empty(&self) -> (b: bool)
        ensures
            b == (self.order@.len() == 0),
    {
        self.order.len() == 0
    }

    /// The index of the job named `name`.
    pub fn index_of(&self, name: &str) -> (r: Option<usize>)
        ensures
            match r {
                Some(i) => i < self.order@.len() && self.order@[i as int]@ == name@ && forall|
                    j: int,
                |
                    0 <= j < i ==> (#[trigger] self.order@[j])@ != name@,
                None => forall|j: int|
                    0 <= j < self.order@.len() ==> (#[trigger] self.order@[j])@ != name@,
            },
    {
        let wanted = name.to_owned();
        let mut i: usize = 0;
        while i < self.order.len()
            invariant
                i <= self.order.len(),
                wanted@ == name@,
                forall|j: int| 0 <= j < i ==> (#[trigger] self.order@[j])@ != name@,
            decreases self.order.len() - i,
        {
            if self.order[i] == wanted {
                return Some(i);
            }
            i += 1;
        }
        None
    }

    /// Jobs grouped by topological level; each wave is in config order.
    pub fn waves(&self) -> (r: Vec<Vec<usize>>)
        requires
            self.layered(),
        ensures
            r@.len() == height(self.levels@, self.levels@.len() as int),
            forall|w: int|
                0 <= w < r@.len() ==> (#[trigger] r@[w])@ == members(
                    self.levels@,
                    w,
                    self.levels@.len() as int,
                ),
    {
        let n = self.levels.len();
        let mut h: usize = 0;
        let mut i: usize = 0;
        while i < n
            invariant
                i <= n == self.levels.len(),
                self.layered(),
                h == height(self.levels@, i as int),
                h <= n,
                forall|j: int| 0 <= j < i ==> (#[trigger] self.levels@[j]) < h,
            decreases n - i,
        {
            let l: usize = self.levels[i];
            if h < l + 1 {
                h = l + 1;
            }
            i += 1;
        }
        let mut r: Vec<Vec<usize>> = Vec::new();
        let mut w: usize = 0;
        while w < h
            invariant
                w <= h,
                r.len() == w,
                forall|x: int| 0 <= x < w ==> (#[trigger] r@[x])@ == members(self.levels@, x, 0),
            decreases h - w,
        {
            r.push(Vec::new());
            w += 1;
        }
        let mut i: usize = 0;
        while i < n
            invariant
                i <= n == self.levels.len(),
                self.layered(),
                r.len() == h,
                forall|j: int| 0 <= j < n ==> (#[trigger] self.levels@[j]) < h,
                forall|x: int|
                    0 <= x < h ==> (#[trigger] r@[x])@ == members(self.levels@, x, i as int),
            decreases n - i,
        {
            let l: usize = self.levels[i];
            r[l].push(i);
            i += 1;
        }
        r
    }
}

/// One more than the highest of the first `n` levels, or nothing.
pub open spec fn height(levels: Seq<usize>, n: int) -> int
    decreases n,
{
    if n <= 0 {
        0
    } else if height(levels, n - 1) < levels[n - 1] + 1 {
        levels[n - 1] + 1
    } else {
        height(levels, n - 1)
    }
}

/// True when `v` holds `x`.
fn contains(v: &Vec<usize>, x: usize) -> (b: bool)
    ensures
        b == v@.contains(x),
{
    let mut i: usize = 0;
    while i < v.len()
        invariant
            i <= v.len(),
            forall|j: int| 0 <= j < i ==> #[trigger] v@[j] != x,
        decreases v.len() - i,
    {
        if v[i] == x {
            return true;
        }
        i += 1;
    }
    false
}

/// The jobs at level `w` among the first `n`, in config order.
pub open spec fn members(levels: Seq<usize>, w: int, n: int) -> Seq<usize>
    decreases n,
{
    if n <= 0 {
        Seq::empty()
    } else if levels[n - 1] == w {
        members(levels, w, n - 1).push((n - 1) as usize)
    } else {
        members(levels, w, n - 1)
    }
}

pub proof fn lemma_members(levels: Seq<usize>, w: int, n: int)
    requires
        0 <= n <= levels.len(),
        n <= usize::MAX,
    ensures
        forall|k: int|
            0 <= k < members(levels, w, n).len() ==> (#[trigger] members(levels, w, n)[k]) < n,
    decreases n,
{
    if n > 0 {
        lemma_members(levels, w, n - 1);
        let all = members(levels, w, n);
        let rest = members(levels, w, n - 1);
        assert forall|k: int| 0 <= k < all.len() implies (#[trigger] all[k]) < n by {
            if k < rest.len() {
                assert(all[k] == rest[k]);
            }
        }
    }
}

} // verus!
