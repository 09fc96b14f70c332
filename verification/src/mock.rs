//! A scripted executor for deterministic tests. It spawns no processes; it just
//! returns the outcome you told it to and records what the scheduler did:
//! start order, and the peak number of jobs live at once (proving the
//! concurrency limit and real parallelism without any threads).

use vstd::prelude::*;
use vstd::string::*;

use crate::content::PathContent;
use crate::duration::Duration;
use crate::executor;
use crate::executor::{Artifacts, Call, Executor, JobOutcome, OutcomeView};
use crate::pipeline::Job;
use crate::text;

verus! {

/// What a scripted job does.
struct Script {
    success: bool,
    duration: Duration,
    artifacts: Vec<(String, Vec<u8>)>,
}

/// What a script says.
#[verifier::ext_equal]
pub struct ScriptView {
    pub success: bool,
    pub duration: Duration,
    pub artifacts: Seq<(Seq<char>, Seq<u8>)>,
}

impl View for Script {
    type V = ScriptView;

    closed spec fn view(&self) -> ScriptView {
        ScriptView {
            success: self.success,
            duration: self.duration,
            artifacts: executor::blob_views(self.artifacts@),
        }
    }
}

/// The jobs that are live. Each is counted as long as its name is kept.
struct Live {
    count: usize,
    names: Vec<String>,
}

impl Live {
    #[verifier::type_invariant]
    spec fn inv(&self) -> bool {
        self.count <= self.names@.len()
    }

    fn none() -> (r: Live)
        ensures
            r.count == 0,
            text::views(r.names@) == Seq::<Seq<char>>::empty(),
    {
        let r = Live { count: 0, names: Vec::new() };
        assert(text::views(r.names@) =~= Seq::empty());
        r
    }

    fn add(self, name: String) -> (r: Live)
        ensures
            r.count == self.count + 1,
            text::views(r.names@) == text::views(self.names@).push(name@),
    {
        proof {
            use_type_invariant(&self);
        }
        let Live { count, names } = self;
        let ghost before = names@;
        let mut names = names;
        names.push(name);
        assert(text::views(names@) =~= text::views(before).push(name@));
        let kept = names.len();
        assert(count < kept);
        Live { count: count + 1, names }
    }

    fn drop_one(self, name: &str) -> (r: Live)
        ensures
            r.count == self.count - (if self.count > 0 {
                1int
            } else {
                0
            }),
            text::views(r.names@) == without(text::views(self.names@), name@),
    {
        proof {
            use_type_invariant(&self);
        }
        let Live { count, names } = self;
        let mut names = names;
        let ghost all = text::views(names@);
        let wanted = name.to_owned();
        let left = if count > 0 {
            count - 1
        } else {
            0
        };
        let mut i: usize = 0;
        while i < names.len() && names[i] != wanted
            invariant
                i <= names.len(),
                wanted@ == name@,
                all == text::views(names@),
                forall|j: int| 0 <= j < i ==> #[trigger] all[j] != name@,
            decreases names.len() - i,
        {
            assert(all[i as int] == names@[i as int]@);
            i += 1;
        }
        proof {
            if i < names.len() {
                assert(all[i as int] == names@[i as int]@);
            }
            lemma_without(all, name@, i as int);
        }
        if i < names.len() {
            let _ = names.remove(i);
            assert(text::views(names@) =~= all.remove(i as int));
        }
        Live { count: left, names }
    }
}

/// `names` without the first that is `name`.
pub open spec fn without(names: Seq<Seq<char>>, name: Seq<char>) -> Seq<Seq<char>>
    decreases names.len(),
{
    if names.len() == 0 {
        names
    } else if names[0] == name {
        names.drop_first()
    } else {
        seq![names[0]] + without(names.drop_first(), name)
    }
}

proof fn lemma_without(names: Seq<Seq<char>>, name: Seq<char>, k: int)
    requires
        0 <= k <= names.len(),
        forall|j: int| 0 <= j < k ==> #[trigger] names[j] != name,
        k == names.len() || names[k] == name,
    ensures
        without(names, name) == (if k < names.len() {
            names.remove(k)
        } else {
            names
        }),
    decreases names.len(),
{
    if names.len() > 0 {
        if k == 0 {
            assert(names.remove(0) =~= names.drop_first());
        } else {
            let rest = names.drop_first();
            lemma_without(rest, name, k - 1);
            if k < names.len() {
                assert(seq![names[0]] + rest.remove(k - 1) =~= names.remove(k));
            } else {
                assert(seq![names[0]] + rest =~= names);
            }
        }
    }
}

/// What the mock recorded.
#[verifier::ext_equal]
pub struct Stats {
    pub live: nat,
    pub running: Seq<Seq<char>>,
    pub max_concurrency: nat,
    pub peak_running: Seq<Seq<char>>,
    pub started: Seq<Seq<char>>,
    pub ran: Seq<Seq<char>>,
}

impl Stats {
    /// Nothing was recorded.
    pub open spec fn none() -> Stats {
        Stats {
            live: 0,
            running: Seq::empty(),
            max_concurrency: 0,
            peak_running: Seq::empty(),
            started: Seq::empty(),
            ran: Seq::empty(),
        }
    }

    /// A job was started.
    pub open spec fn with_start(self, name: Seq<char>) -> Stats {
        let live = self.live + 1;
        let running = self.running.push(name);
        Stats {
            live,
            running,
            max_concurrency: if live > self.max_concurrency {
                live
            } else {
                self.max_concurrency
            },
            peak_running: if live > self.max_concurrency {
                running
            } else {
                self.peak_running
            },
            started: self.started.push(name),
            ran: self.ran.push(name),
        }
    }

    /// A job was retired.
    pub open spec fn with_finish(self, name: Seq<char>) -> Stats {
        Stats {
            live: if self.live > 0 {
                (self.live - 1) as nat
            } else {
                0
            },
            running: without(self.running, name),
            ..self
        }
    }

    /// One call was made.
    pub open spec fn with_call(self, call: Call) -> Stats {
        match call {
            Call::Run { job, .. } => self.with_start(job.name),
            Call::Finish { name } => self.with_finish(name),
            Call::Read { .. } => self,
        }
    }

    /// What is recorded of a sequence of calls.
    pub open spec fn of(calls: Seq<Call>) -> Stats
        decreases calls.len(),
    {
        if calls.len() == 0 {
            Stats::none()
        } else {
            Stats::of(calls.drop_last()).with_call(calls.last())
        }
    }
}

/// The first value that stands by `name`.
spec fn first_of<T>(pairs: Seq<(String, T)>, name: Seq<char>) -> Option<T>
    decreases pairs.len(),
{
    if pairs.len() == 0 {
        None
    } else if pairs[0].0@ == name {
        Some(pairs[0].1)
    } else {
        first_of(pairs.drop_first(), name)
    }
}

proof fn lemma_first_of<T>(pairs: Seq<(String, T)>, name: Seq<char>, k: int)
    requires
        0 <= k <= pairs.len(),
        forall|j: int| 0 <= j < k ==> (#[trigger] pairs[j]).0@ != name,
        k == pairs.len() || pairs[k].0@ == name,
    ensures
        first_of(pairs, name) == (if k < pairs.len() {
            Some(pairs[k].1)
        } else {
            None
        }),
    decreases pairs.len(),
{
    if k > 0 {
        lemma_first_of(pairs.drop_first(), name, k - 1);
    }
}

/// What stands by each name once the value at `name` was replaced or added.
proof fn lemma_first_of_set<T>(
    pairs: Seq<(String, T)>,
    key: String,
    value: T,
    k: int,
    next: Seq<(String, T)>,
)
    requires
        0 <= k <= pairs.len(),
        forall|j: int| 0 <= j < k ==> (#[trigger] pairs[j]).0@ != key@,
        k == pairs.len() || pairs[k].0@ == key@,
        next == (if k < pairs.len() {
            pairs.update(k, (key, value))
        } else {
            pairs.push((key, value))
        }),
    ensures
        forall|n: Seq<char>| #[trigger]
            first_of(next, n) == (if n == key@ {
                Some(value)
            } else {
                first_of(pairs, n)
            }),
    decreases pairs.len(),
{
    assert forall|n: Seq<char>| #[trigger] first_of(next, n) == (if n == key@ {
        Some(value)
    } else {
        first_of(pairs, n)
    }) by {
        if k == 0 && pairs.len() > 0 {
            assert(next.drop_first() =~= pairs.drop_first());
        } else if pairs.len() == 0 {
            assert(next.drop_first() =~= Seq::empty());
            assert(first_of(next.drop_first(), n) is None);
        } else {
            let rest = pairs.drop_first();
            let tail = if k - 1 < rest.len() {
                rest.update(k - 1, (key, value))
            } else {
                rest.push((key, value))
            };
            assert(next.drop_first() =~= tail);
            lemma_first_of_set(rest, key, value, k - 1, tail);
            assert(first_of(tail, n) == (if n == key@ {
                Some(value)
            } else {
                first_of(rest, n)
            }));
        }
    }
}

/// The position of the first pair with that name, or the length.
fn find<T>(pairs: &Vec<(String, T)>, name: &str) -> (k: usize)
    ensures
        k <= pairs@.len(),
        forall|j: int| 0 <= j < k ==> (#[trigger] pairs@[j]).0@ != name@,
        k == pairs@.len() || pairs@[k as int].0@ == name@,
        first_of(pairs@, name@) == (if k < pairs@.len() {
            Some(pairs@[k as int].1)
        } else {
            None
        }),
{
    let wanted = name.to_owned();
    let mut k: usize = 0;
    while k < pairs.len() && pairs[k].0 != wanted
        invariant
            k <= pairs.len(),
            wanted@ == name@,
            forall|j: int| 0 <= j < k ==> (#[trigger] pairs@[j]).0@ != name@,
        decreases pairs.len() - k,
    {
        k += 1;
    }
    proof {
        lemma_first_of(pairs@, name@, k as int);
    }
    k
}

/// Sets the value that stands by `name`.
fn assign<T>(pairs: Vec<(String, T)>, name: &str, value: T) -> (r: Vec<(String, T)>)
    ensures
        forall|n: Seq<char>| #[trigger]
            first_of(r@, n) == (if n == name@ {
                Some(value)
            } else {
                first_of(pairs@, n)
            }),
{
    let k = find(&pairs, name);
    let key = name.to_owned();
    let mut r = pairs;
    let ghost next = if k < pairs@.len() {
        pairs@.update(k as int, (key, value))
    } else {
        pairs@.push((key, value))
    };
    proof {
        lemma_first_of_set(pairs@, key, value, k as int, next);
    }
    if k < r.len() {
        r.set(k, (key, value));
    } else {
        r.push((key, value));
    }
    assert(r@ =~= next);
    r
}

pub struct MockExecutor {
    scripts: Vec<(String, Script)>,
    files: Vec<(String, Vec<u8>)>,
    live: Live,
    calls: Ghost<Seq<Call>>,
    /// Peak number of jobs live at the same instant.
    pub max_concurrency: usize,
    /// The set of jobs live when the peak was hit.
    pub peak_running: Vec<String>,
    /// Names in the order the scheduler started them.
    pub started: Vec<String>,
    /// Names the scheduler actually executed (never includes cached/skipped).
    pub ran: Vec<String>,
}

impl MockExecutor {
    /// What a job was scripted to do.
    pub closed spec fn script(&self, name: Seq<char>) -> Option<ScriptView> {
        match first_of(self.scripts@, name) {
            Some(s) => Some(s@),
            None => None,
        }
    }

    /// The bytes of the file at a path.
    pub closed spec fn file(&self, path: Seq<char>) -> Option<Seq<u8>> {
        match first_of(self.files@, path) {
            Some(b) => Some(b@),
            None => None,
        }
    }

    /// What was recorded.
    pub closed spec fn stats(&self) -> Stats {
        Stats {
            live: self.live.count as nat,
            running: text::views(self.live.names@),
            max_concurrency: self.max_concurrency as nat,
            peak_running: text::views(self.peak_running@),
            started: text::views(self.started@),
            ran: text::views(self.ran@),
        }
    }

    /// What a job does: what it was scripted to, or else success after a millisecond.
    pub open spec fn outcome_of(&self, name: Seq<char>) -> OutcomeView {
        let s = match self.script(name) {
            Some(s) => s,
            None => ScriptView {
                success: true,
                duration: Duration { secs: 0, nanos: 1_000_000 },
                artifacts: Seq::empty(),
            },
        };
        OutcomeView {
            success: s.success,
            exit_code: Some(
                if s.success {
                    0
                } else {
                    1
                },
            ),
            logs: Seq::empty(),
            artifacts: executor::with_items(Seq::empty(), s.artifacts),
            duration: s.duration,
        }
    }

    /// What a valid mock recorded is what its calls come to.
    pub proof fn lemma_valid(&self)
        requires
            self.valid(),
        ensures
            self.stats() == Stats::of(self.history()),
    {
    }

    /// `other` was recorded as much, and does the same but for the script of `name`.
    pub open spec fn differs_at(&self, other: &MockExecutor, name: Seq<char>) -> bool {
        &&& self.stats() == other.stats()
        &&& self.history() == other.history()
        &&& self.valid() == other.valid()
        &&& forall|n: Seq<char>| n != name ==> #[trigger] self.script(n) == other.script(n)
        &&& forall|p: Seq<char>| #[trigger] self.file(p) == other.file(p)
    }

    /// A mock without scripts, files or records.
    pub fn new() -> (m: Self)
        ensures
            m.stats() == Stats::none(),
            m.history() == Seq::<Call>::empty(),
            m.valid(),
            forall|n: Seq<char>| #[trigger] m.script(n) is None,
            forall|p: Seq<char>| #[trigger] m.file(p) is None,
    {
        let m = MockExecutor {
            scripts: Vec::new(),
            files: Vec::new(),
            live: Live::none(),
            calls: Ghost(Seq::empty()),
            max_concurrency: 0,
            peak_running: Vec::new(),
            started: Vec::new(),
            ran: Vec::new(),
        };
        assert(m.stats() =~= Stats::none());
        m
    }

    /// The same with another script for `name`.
    fn scripted(self, name: &str, script: Script) -> (m: Self)
        ensures
            m.differs_at(&self, name@),
            m.script(name@) == Some(script@),
            m.max_concurrency == self.max_concurrency,
            m.peak_running == self.peak_running,
            m.started == self.started,
            m.ran == self.ran,
    {
        let MockExecutor {
            scripts,
            files,
            live,
            calls,
            max_concurrency,
            peak_running,
            started,
            ran,
        } = self;
        let scripts = assign(scripts, name, script);
        MockExecutor {
            scripts,
            files,
            live,
            calls,
            max_concurrency,
            peak_running,
            started,
            ran,
        }
    }

    /// The same, but the job succeeds after that many milliseconds.
    pub fn succeed(self, name: &str, duration_ms: u64) -> (m: Self)
        ensures
            m.differs_at(&self, name@),
            m.script(name@) == Some(
                ScriptView {
                    success: true,
                    duration: Duration {
                        secs: duration_ms / 1000,
                        nanos: ((duration_ms % 1000) * 1_000_000) as u32,
                    },
                    artifacts: Seq::empty(),
                },
            ),
    {
        let script = Script {
            success: true,
            duration: Duration::from_millis(duration_ms),
            artifacts: Vec::new(),
        };
        assert(script@.artifacts =~= Seq::empty());
        self.scripted(name, script)
    }

    /// The same, but the job fails after that many milliseconds.
    pub fn fail(self, name: &str, duration_ms: u64) -> (m: Self)
        ensures
            m.differs_at(&self, name@),
            m.script(name@) == Some(
                ScriptView {
                    success: false,
                    duration: Duration {
                        secs: duration_ms / 1000,
                        nanos: ((duration_ms % 1000) * 1_000_000) as u32,
                    },
                    artifacts: Seq::empty(),
                },
            ),
    {
        let script = Script {
            success: false,
            duration: Duration::from_millis(duration_ms),
            artifacts: Vec::new(),
        };
        assert(script@.artifacts =~= Seq::empty());
        self.scripted(name, script)
    }

    /// The same, but the job leaves one more artifact behind. A job without a
    /// script gets one: it succeeds after a millisecond.
    pub fn produce(self, name: &str, artifact: &str, bytes: &[u8]) -> (m: Self)
        ensures
            m.differs_at(&self, name@),
            m.script(name@) == Some(
                match self.script(name@) {
                    Some(s) => ScriptView {
                        artifacts: s.artifacts.push((artifact@, bytes@)),
                        ..s
                    },
                    None => ScriptView {
                        success: true,
                        duration: Duration { secs: 0, nanos: 1_000_000 },
                        artifacts: seq![(artifact@, bytes@)],
                    },
                },
            ),
    {
        let k = find(&self.scripts, name);
        let (success, duration, mut artifacts) = if k < self.scripts.len() {
            let s = &self.scripts[k].1;
            (s.success, s.duration, executor::copy_blobs(&s.artifacts))
        } else {
            (true, Duration::from_millis(1), Vec::new())
        };
        let ghost before = artifacts@;
        artifacts.push((artifact.to_owned(), copy_slice(bytes)));
        proof {
            assert(executor::blob_views(artifacts@) =~= executor::blob_views(before).push(
                (artifact@, bytes@),
            ));
            if k >= self.scripts@.len() {
                assert(executor::blob_views(artifacts@) =~= seq![(artifact@, bytes@)]);
            }
        }
        self.scripted(name, Script { success, duration, artifacts })
    }

    /// The same with a file at a path.
    pub fn with_file(self, path: &str, bytes: &[u8]) -> (m: Self)
        ensures
            m.stats() == self.stats(),
            m.history() == self.history(),
            m.valid() == self.valid(),
            forall|n: Seq<char>| #[trigger] m.script(n) == self.script(n),
            forall|p: Seq<char>| #[trigger]
                m.file(p) == (if p == path@ {
                    Some(bytes@)
                } else {
                    self.file(p)
                }),
    {
        let MockExecutor {
            scripts,
            files,
            live,
            calls,
            max_concurrency,
            peak_running,
            started,
            ran,
        } = self;
        let files = assign(files, path, copy_slice(bytes));
        MockExecutor {
            scripts,
            files,
            live,
            calls,
            max_concurrency,
            peak_running,
            started,
            ran,
        }
    }

    /// True when the job was executed.
    pub fn ran_job(&self, name: &str) -> (b: bool)
        ensures
            b == self.stats().ran.contains(name@),
    {
        let wanted = name.to_owned();
        let ghost all = text::views(self.ran@);
        let mut i: usize = 0;
        while i < self.ran.len()
            invariant
                i <= self.ran.len(),
                wanted@ == name@,
                all == text::views(self.ran@),
                forall|j: int| 0 <= j < i ==> #[trigger] all[j] != name@,
            decreases self.ran.len() - i,
        {
            assert(all[i as int] == self.ran@[i as int]@);
            if self.ran[i] == wanted {
                return true;
            }
            i += 1;
        }
        false
    }
}

impl Default for MockExecutor {
    fn default() -> (m: Self)
        ensures
            m.stats() == Stats::none(),
            m.history() == Seq::<Call>::empty(),
            m.valid(),
            forall|n: Seq<char>| #[trigger] m.script(n) is None,
            forall|p: Seq<char>| #[trigger] m.file(p) is None,
    {
        MockExecutor::new()
    }
}

/// The bytes of `v`.
fn copy_slice(v: &[u8]) -> (r: Vec<u8>)
    ensures
        r@ == v@,
{
    let mut r: Vec<u8> = Vec::new();
    let mut i: usize = 0;
    while i < v.len()
        invariant
            i <= v.len(),
            r@ == v@.take(i as int),
        decreases v.len() - i,
    {
        r.push(v[i]);
        assert(r@ =~= v@.take(i + 1));
        i += 1;
    }
    assert(v@.take(i as int) =~= v@);
    r
}

impl Executor for MockExecutor {
    closed spec fn history(&self) -> Seq<Call> {
        self.calls@
    }

    /// The records are those of the calls that were made.
    closed spec fn valid(&self) -> bool {
        self.stats() == Stats::of(self.calls@)
    }

    /// A job does what it was scripted to, and a path holds its file.
    open spec fn permits(&self, call: Call) -> bool {
        match call {
            Call::Run { job, outcome, .. } => outcome == self.outcome_of(job.name),
            Call::Read { path, content, .. } => match content {
                PathContent::File(bytes) => self.file(path) == Some(bytes@),
                PathContent::Missing => self.file(path) is None,
                _ => false,
            },
            Call::Finish { .. } => true,
        }
    }

    fn run(&mut self, job: &Job, inputs: &Artifacts) -> (outcome: JobOutcome)
        ensures
            outcome@ == old(self).outcome_of(job@.name),
            final(self).stats() == old(self).stats().with_start(job@.name),
            forall|n: Seq<char>| #[trigger] final(self).script(n) == old(self).script(n),
            forall|p: Seq<char>| #[trigger] final(self).file(p) == old(self).file(p),
    {
        let ghost before = self.stats();
        let mut live = Live::none();
        std::mem::swap(&mut live, &mut self.live);
        let live = live.add(job.name.clone());
        if live.count > self.max_concurrency {
            self.max_concurrency = live.count;
            self.peak_running = text::copy_strings(&live.names);
        }
        self.live = live;
        let ghost started = self.started@;
        let ghost ran = self.ran@;
        self.started.push(job.name.clone());
        self.ran.push(job.name.clone());
        proof {
            assert(text::views(self.started@) =~= text::views(started).push(job@.name));
            assert(text::views(self.ran@) =~= text::views(ran).push(job@.name));
        }
        let k = find(&self.scripts, job.name.as_str());
        let (success, duration, artifacts) = if k < self.scripts.len() {
            let s = &self.scripts[k].1;
            (s.success, s.duration, Artifacts::from_blobs(&s.artifacts))
        } else {
            (true, Duration::from_millis(1), Artifacts::new())
        };
        let exit_code: i32 = if success {
            0
        } else {
            1
        };
        let outcome = JobOutcome {
            success,
            exit_code: Some(exit_code),
            logs: String::new(),
            artifacts,
            duration,
        };
        proof {
            let call = Call::Run { job: job@, inputs: inputs@, outcome: outcome@ };
            assert(self.calls@.push(call).drop_last() =~= self.calls@);
            self.calls@ = self.calls@.push(call);
            assert(self.stats() =~= before.with_start(job@.name));
            assert(outcome@ =~= old(self).outcome_of(job@.name));
        }
        outcome
    }

    fn on_finish(&mut self, job: &str)
        ensures
            final(self).stats() == old(self).stats().with_finish(job@),
            forall|n: Seq<char>| #[trigger] final(self).script(n) == old(self).script(n),
            forall|p: Seq<char>| #[trigger] final(self).file(p) == old(self).file(p),
    {
        let ghost before = self.stats();
        let mut live = Live::none();
        std::mem::swap(&mut live, &mut self.live);
        self.live = live.drop_one(job);
        proof {
            let call = Call::Finish { name: job@ };
            assert(self.calls@.push(call).drop_last() =~= self.calls@);
            self.calls@ = self.calls@.push(call);
            assert(self.stats() =~= before.with_finish(job@));
        }
    }

    fn read_input(&mut self, base_dir: &str, path: &str) -> (content: PathContent)
        ensures
            final(self).stats() == old(self).stats(),
            forall|n: Seq<char>| #[trigger] final(self).script(n) == old(self).script(n),
            forall|p: Seq<char>| #[trigger] final(self).file(p) == old(self).file(p),
    {
        let k = find(&self.files, path);
        let content = if k < self.files.len() {
            PathContent::File(executor::copy_bytes(&self.files[k].1))
        } else {
            PathContent::Missing
        };
        proof {
            let call = Call::Read { base_dir: base_dir@, path: path@, content };
            assert(self.calls@.push(call).drop_last() =~= self.calls@);
            self.calls@ = self.calls@.push(call);
        }
        content
    }
}

} // verus!
