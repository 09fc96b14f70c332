//! The pipeline config: the data model.

use vstd::prelude::*;

use crate::duration::Duration;
use crate::text;

verus! {

#[derive(Debug, Clone, PartialEq, Eq, Default)]
pub struct Cache {
    /// Optional label folded into the key so a user can force a bust.
    pub key: Option<String>,
    /// Declared input paths whose content decides the cache key.
    pub paths: Vec<String>,
}

#[derive(Debug, Clone, PartialEq, Eq)]
pub struct Job {
    pub name: String,
    pub needs: Vec<String>,
    /// Ordered key/value pairs (order is significant for hashing and round-trip).
    pub env: Vec<(String, String)>,
    pub steps: Vec<String>,
    /// Output file paths the executor collects as artifacts for dependents.
    pub produces: Vec<String>,
    pub cache: Option<Cache>,
    pub continue_on_error: bool,
    /// Wall-clock cap for the whole job, across all its steps. Complements the
    /// executor's per-step timeout. `None` means no job-level limit.
    pub timeout: Option<Duration>,
}

#[derive(Debug, Clone, PartialEq, Eq, Default)]
pub struct Pipeline {
    pub jobs: Vec<Job>,
}

/// What a [`Cache`] block says.
#[verifier::ext_equal]
pub struct CacheView {
    pub key: Option<Seq<char>>,
    pub paths: Seq<Seq<char>>,
}

/// What a [`Job`] says.
#[verifier::ext_equal]
pub struct JobView {
    pub name: Seq<char>,
    pub needs: Seq<Seq<char>>,
    pub env: Seq<(Seq<char>, Seq<char>)>,
    pub steps: Seq<Seq<char>>,
    pub produces: Seq<Seq<char>>,
    pub cache: Option<CacheView>,
    pub continue_on_error: bool,
    pub timeout: Option<Duration>,
}

/// The views of a sequence of pairs of strings.
pub open spec fn pair_views(v: Seq<(String, String)>) -> Seq<(Seq<char>, Seq<char>)> {
    v.map_values(|p: (String, String)| (p.0@, p.1@))
}

impl View for Cache {
    type V = CacheView;

    open spec fn view(&self) -> CacheView {
        CacheView {
            key: match self.key {
                Some(k) => Some(k@),
                None => None,
            },
            paths: text::views(self.paths@),
        }
    }
}

impl View for Job {
    type V = JobView;

    open spec fn view(&self) -> JobView {
        JobView {
            name: self.name@,
            needs: text::views(self.needs@),
            env: pair_views(self.env@),
            steps: text::views(self.steps@),
            produces: text::views(self.produces@),
            cache: match self.cache {
                Some(c) => Some(c@),
                None => None,
            },
            continue_on_error: self.continue_on_error,
            timeout: self.timeout,
        }
    }
}

impl View for Pipeline {
    type V = Seq<JobView>;

    open spec fn view(&self) -> Seq<JobView> {
        self.jobs@.map_values(|j: Job| j@)
    }
}

impl JobView {
    /// A job that has a name and nothing else.
    pub open spec fn named(name: Seq<char>) -> JobView {
        JobView {
            name,
            needs: Seq::empty(),
            env: Seq::empty(),
            steps: Seq::empty(),
            produces: Seq::empty(),
            cache: None,
            continue_on_error: false,
            timeout: None,
        }
    }
}

impl CacheView {
    /// A cache block that says nothing.
    pub open spec fn blank() -> CacheView {
        CacheView { key: None, paths: Seq::empty() }
    }
}

/// The first position at which a job named `name` stands, or the length.
pub open spec fn position(jobs: Seq<JobView>, name: Seq<char>) -> int
    decreases jobs.len(),
{
    if jobs.len() == 0 || jobs[0].name == name {
        0
    } else {
        1 + position(jobs.drop_first(), name)
    }
}

pub proof fn lemma_position(jobs: Seq<JobView>, name: Seq<char>, k: int)
    requires
        0 <= k <= jobs.len(),
        forall|j: int| 0 <= j < k ==> (#[trigger] jobs[j]).name != name,
        k == jobs.len() || jobs[k].name == name,
    ensures
        position(jobs, name) == k,
    decreases jobs.len(),
{
    if k > 0 {
        lemma_position(jobs.drop_first(), name, k - 1);
    }
}

impl Job {
    /// A job that has a name and nothing else.
    pub fn new(name: &str) -> (job: Self)
        ensures
            job@ == JobView::named(name@),
    {
        let job = Job {
            name: name.to_owned(),
            needs: Vec::new(),
            env: Vec::new(),
            steps: Vec::new(),
            produces: Vec::new(),
            cache: None,
            continue_on_error: false,
            timeout: None,
        };
        assert(job@ =~= JobView::named(name@));
        job
    }
}

impl Pipeline {
    /// The first job named `name`.
    pub fn job(&self, name: &str) -> (r: Option<&Job>)
        ensures
            match r {
                Some(j) => 0 <= position(self@, name@) < self@.len() && *j == self.jobs@[position(
                    self@,
                    name@,
                )],
                None => position(self@, name@) == self@.len(),
            },
    {
        let wanted = name.to_owned();
        let mut i: usize = 0;
        while i < self.jobs.len()
            invariant
                i <= self.jobs.len(),
                wanted@ == name@,
                forall|j: int| 0 <= j < i ==> (#[trigger] self@[j]).name != name@,
            decreases self.jobs.len() - i,
        {
            if self.jobs[i].name == wanted {
                proof {
                    lemma_position(self@, name@, i as int);
                }
                return Some(&self.jobs[i]);
            }
            i += 1;
        }
        proof {
            lemma_position(self@, name@, i as int);
        }
        None
    }
}

} // verus!
