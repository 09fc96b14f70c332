//! What a run produced: a status, wave, start order, timing, and captured logs
//! per job. Pure data so tests can assert against it directly.

use vstd::prelude::*;
use vstd::string::*;

use crate::duration::Duration;
use crate::text;

verus! {

#[derive(Debug, Clone, Copy, PartialEq, Eq, Structural)]
pub enum Status {
    Success,
    Failed,
    Skipped,
    Cached,
}

#[derive(Debug, Clone)]
pub struct JobRecord {
    pub name: String,
    pub status: Status,
    /// Topological level (its wave in the plan).
    pub wave: usize,
    /// Order the scheduler started this job in; `usize::MAX` if it never started.
    pub start_order: usize,
    /// Virtual (mock) or real (shell) start offset, in nanoseconds.
    pub start_nanos: u64,
    pub duration: Duration,
    pub logs: String,
}

#[derive(Debug, Clone, Default)]
pub struct Report {
    /// Records in config order.
    pub jobs: Vec<JobRecord>,
}

/// What a [`JobRecord`] says.
#[verifier::ext_equal]
pub struct RecordView {
    pub name: Seq<char>,
    pub status: Status,
    pub wave: usize,
    pub start_order: usize,
    pub start_nanos: u64,
    pub duration: Duration,
    pub logs: Seq<char>,
}

impl View for JobRecord {
    type V = RecordView;

    open spec fn view(&self) -> RecordView {
        RecordView {
            name: self.name@,
            status: self.status,
            wave: self.wave,
            start_order: self.start_order,
            start_nanos: self.start_nanos,
            duration: self.duration,
            logs: self.logs@,
        }
    }
}

impl View for Report {
    type V = Seq<RecordView>;

    open spec fn view(&self) -> Seq<RecordView> {
        self.jobs@.map_values(|r: JobRecord| r@)
    }
}

impl Status {
    /// The word for the status.
    pub open spec fn word(self) -> Seq<char> {
        match self {
            Status::Success => "success"@,
            Status::Failed => "failed"@,
            Status::Skipped => "skipped"@,
            Status::Cached => "cached"@,
        }
    }

    /// The word for the status.
    pub fn as_str(&self) -> (s: &'static str)
        ensures
            s@ == self.word(),
    {
        match self {
            Status::Success => "success",
            Status::Failed => "failed",
            Status::Skipped => "skipped",
            Status::Cached => "cached",
        }
    }
}

/// The first position at which the record of that job stands, or the length.
pub open spec fn position(records: Seq<RecordView>, name: Seq<char>) -> int
    decreases records.len(),
{
    if records.len() == 0 || records[0].name == name {
        0
    } else {
        1 + position(records.drop_first(), name)
    }
}

proof fn lemma_position(records: Seq<RecordView>, name: Seq<char>, k: int)
    requires
        0 <= k <= records.len(),
        forall|j: int| 0 <= j < k ==> (#[trigger] records[j]).name != name,
        k == records.len() || records[k].name == name,
    ensures
        position(records, name) == k,
    decreases records.len(),
{
    if k > 0 {
        lemma_position(records.drop_first(), name, k - 1);
    }
}

/// How many records have that status.
pub open spec fn tally(records: Seq<RecordView>, status: Status) -> nat
    decreases records.len(),
{
    if records.len() == 0 {
        0
    } else {
        tally(records.drop_last(), status) + (if records.last().status == status {
            1nat
        } else {
            0nat
        })
    }
}

/// `order` lists the records by the sequence they started in, each once; records
/// that started at the same place stand in config order.
pub open spec fn is_start_order(records: Seq<RecordView>, order: Seq<int>) -> bool {
    &&& order.len() == records.len()
    &&& forall|k: int| 0 <= k < order.len() ==> 0 <= #[trigger] order[k] < records.len()
    &&& forall|a: int, b: int|
        0 <= a < b < order.len() ==> starts_before(
            records,
            #[trigger] order[a],
            #[trigger] order[b],
        )
}

/// Record `x` started before record `y`, or at the same place and stands before it.
pub open spec fn starts_before(records: Seq<RecordView>, x: int, y: int) -> bool {
    records[x].start_order < records[y].start_order || (records[x].start_order
        == records[y].start_order && x < y)
}

/// The one-line account of a run.
pub open spec fn summary_of(records: Seq<RecordView>) -> Seq<char> {
    text::decimal(tally(records, Status::Success)) + " success, "@ + text::decimal(
        tally(records, Status::Cached),
    ) + " cached, "@ + text::decimal(tally(records, Status::Failed)) + " failed, "@ + text::decimal(
        tally(records, Status::Skipped),
    ) + " skipped"@
}

impl Report {
    /// The record of a job.
    pub fn get(&self, name: &str) -> (r: Option<&JobRecord>)
        ensures
            match r {
                Some(record) => 0 <= position(self@, name@) < self@.len() && *record
                    == self.jobs@[position(self@, name@)],
                None => position(self@, name@) == self@.len(),
            },
    {
        let wanted = name.to_owned();
        let mut i: usize = 0;
        while i < self.jobs.len()
            invariant
                i <= self.jobs.len(),
                wanted@ == name@,
                forall|j: int| 0 <= j < i ==> (#[trigger] self@[j]).name != name@,
            decreases self.jobs.len() - i,
        {
            if self.jobs[i].name == wanted {
                proof {
                    lemma_position(self@, name@, i as int);
                }
                return Some(&self.jobs[i]);
            }
            i += 1;
        }
        proof {
            lemma_position(self@, name@, i as int);
        }
        None
    }

    /// The status of a job.
    pub fn status(&self, name: &str) -> (r: Option<Status>)
        ensures
            r == (if position(self@, name@) < self@.len() {
                Some(self@[position(self@, name@)].status)
            } else {
                None
            }),
    {
        match self.get(name) {
            Some(record) => Some(record.status),
            None => None,
        }
    }

    /// True when no job failed (cached, skipped, and success all count as not-failed).
    pub fn succeeded(&self) -> (b: bool)
        ensures
            b == forall|k: int|
                0 <= k < self@.len() ==> (#[trigger] self@[k]).status != Status::Failed,
    {
        let mut i: usize = 0;
        while i < self.jobs.len()
            invariant
                i <= self.jobs.len(),
                forall|k: int| 0 <= k < i ==> (#[trigger] self@[k]).status != Status::Failed,
            decreases self.jobs.len() - i,
        {
            if self.jobs[i].status == Status::Failed {
                assert(self@[i as int].status == Status::Failed);
                return false;
            }
            i += 1;
        }
        true
    }

    /// How many jobs have that status.
    pub fn count(&self, status: Status) -> (n: usize)
        ensures
            n == tally(self@, status),
    {
        let mut n: usize = 0;
        let mut i: usize = 0;
        assert(self@.take(0) =~= Seq::empty());
        while i < self.jobs.len()
            invariant
                n <= i <= self.jobs.len(),
                n == tally(self@.take(i as int), status),
            decreases self.jobs.len() - i,
        {
            assert(self@.take(i + 1).drop_last() =~= self@.take(i as int));
            assert(self@.take(i + 1).last() == self.jobs@[i as int]@);
            if self.jobs[i].status == status {
                n += 1;
            }
            i += 1;
        }
        assert(self@.take(i as int) =~= self@);
        n
    }

    /// Records ordered by the sequence they started (skipped jobs last).
    pub fn by_start(&self) -> (r: Vec<&JobRecord>)
        ensures
            exists|order: Seq<int>| #[trigger]
                is_start_order(self@, order) && r@.len() == order.len() && forall|k: int|
                    0 <= k < r@.len() ==> *(#[trigger] r@[k]) == self.jobs@[order[k]],
    {
        let mut r: Vec<&JobRecord> = Vec::new();
        let ghost mut order: Seq<int> = Seq::empty();
        let mut i: usize = 0;
        while i < self.jobs.len()
            invariant
                i <= self.jobs.len(),
                r@.len() == order.len() == i,
                forall|k: int| 0 <= k < r@.len() ==> *(#[trigger] r@[k]) == self.jobs@[order[k]],
                forall|k: int| 0 <= k < i ==> 0 <= #[trigger] order[k] < i,
                forall|a: int, b: int|
                    0 <= a < b < i ==> starts_before(
                        self@,
                        #[trigger] order[a],
                        #[trigger] order[b],
                    ),
            decreases self.jobs.len() - i,
        {
            let record = &self.jobs[i];
            let mut at: usize = r.len();
            while at > 0 && r[at - 1].start_order > record.start_order
                invariant
                    i < self.jobs.len(),
                    at <= i,
                    r@.len() == order.len() == i,
                    *record == self.jobs@[i as int],
                    forall|k: int|
                        0 <= k < r@.len() ==> *(#[trigger] r@[k]) == self.jobs@[order[k]],
                    forall|k: int| 0 <= k < i ==> 0 <= #[trigger] order[k] < i,
                    forall|k: int|
                        at <= k < i ==> starts_before(self@, i as int, #[trigger] order[k]),
                decreases at,
            {
                at -= 1;
                assert(*r@[at as int] == self.jobs@[order[at as int]]);
                assert(starts_before(self@, i as int, order[at as int]));
            }
            let ghost before = order;
            let ghost r0 = r@;
            proof {
                if at > 0 {
                    assert(*r@[at - 1] == self.jobs@[order[at - 1]]);
                    assert(starts_before(self@, order[at - 1], i as int));
                }
                order = order.insert(at as int, i as int);
                assert forall|a: int, b: int| 0 <= a < b < i + 1 implies starts_before(
                    self@,
                    #[trigger] order[a],
                    #[trigger] order[b],
                ) by {
                    let x = if a < at {
                        a
                    } else {
                        a - 1
                    };
                    let y = if b < at {
                        b
                    } else {
                        b - 1
                    };
                    if a == at {
                        assert(order[b] == before[b - 1]);
                    } else if b == at {
                        assert(order[a] == before[a]);
                        if a < at - 1 {
                            assert(starts_before(self@, before[a], before[at - 1]));
                        }
                    } else {
                        assert(order[a] == before[x]);
                        assert(order[b] == before[y]);
                        assert(starts_before(self@, before[x], before[y]));
                    }
                }
                assert forall|k: int| 0 <= k < i + 1 implies 0 <= #[trigger] order[k] < i + 1 by {
                    if k < at {
                        assert(order[k] == before[k]);
                    } else if k > at {
                        assert(order[k] == before[k - 1]);
                    }
                }
            }
            r.insert(at, record);
            assert forall|k: int| 0 <= k < r@.len() implies *(#[trigger] r@[k])
                == self.jobs@[order[k]] by {
                if k < at {
                    assert(r@[k] == r0[k]);
                } else if k > at {
                    assert(r@[k] == r0[k - 1]);
                }
            }
            i += 1;
        }
        assert(is_start_order(self@, order));
        r
    }

    /// The one-line account of the run.
    pub fn summary(&self) -> (s: String)
        ensures
            s@ == summary_of(self@),
    {
        let mut s = text::decimal_of(self.count(Status::Success) as u64);
        s.append(" success, ");
        s.append(text::decimal_of(self.count(Status::Cached) as u64).as_str());
        s.append(" cached, ");
        s.append(text::decimal_of(self.count(Status::Failed) as u64).as_str());
        s.append(" failed, ");
        s.append(text::decimal_of(self.count(Status::Skipped) as u64).as_str());
        s.append(" skipped");
        s
    }
}

/// The records have one order by start.
pub proof fn law_start_order_unique(records: Seq<RecordView>, a: Seq<int>, b: Seq<int>)
    requires
        is_start_order(records, a),
        is_start_order(records, b),
    ensures
        a == b,
{
    lemma_order_contains(records, a);
    lemma_order_contains(records, b);
    assert forall|k: int| 0 <= k < a.len() implies a[k] == b[k] by {
        lemma_same_place(records, a, b, k);
    }
    assert(a =~= b);
}

/// Every record stands somewhere in the order.
proof fn lemma_order_contains(records: Seq<RecordView>, order: Seq<int>)
    requires
        is_start_order(records, order),
    ensures
        forall|i: int| 0 <= i < records.len() ==> order.contains(i),
{
    assert(order.no_duplicates()) by {
        assert forall|x: int, y: int| 0 <= x < order.len() && 0 <= y < order.len() && x != y implies
            order[x] != order[y] by {
            if x < y {
                assert(starts_before(records, order[x], order[y]));
            } else {
                assert(starts_before(records, order[y], order[x]));
            }
        }
    }
    let all = vstd::set_lib::set_int_range(0, records.len() as int);
    vstd::set_lib::lemma_int_range(0, records.len() as int);
    order.unique_seq_to_set();
    assert(order.to_set().subset_of(all)) by {
        assert forall|x: int| order.to_set().contains(x) implies all.contains(x) by {
            let k = order.index_of(x);
            assert(order.contains(x));
        }
    }
    vstd::set_lib::lemma_subset_equality(order.to_set(), all);
    assert forall|i: int| 0 <= i < records.len() implies order.contains(i) by {
        assert(all.contains(i));
        assert(order.to_set().contains(i));
    }
}

/// Two orders agree place by place.
proof fn lemma_same_place(records: Seq<RecordView>, a: Seq<int>, b: Seq<int>, k: int)
    requires
        is_start_order(records, a),
        is_start_order(records, b),
        forall|i: int| 0 <= i < records.len() ==> a.contains(i),
        forall|i: int| 0 <= i < records.len() ==> b.contains(i),
        0 <= k < a.len(),
    ensures
        a[k] == b[k],
    decreases k,
{
    assert forall|j: int| 0 <= j < k implies a[j] == b[j] by {
        lemma_same_place(records, a, b, j);
    }
    if a[k] != b[k] {
        assert(b.contains(a[k]));
        let m = b.index_of(a[k]);
        assert(a.contains(b[k]));
        let n = a.index_of(b[k]);
        assert(m > k) by {
            if m < k {
                assert(a[m] == b[m]);
                assert(starts_before(records, a[m], a[k]));
            }
        }
        assert(n > k) by {
            if n < k {
                assert(a[n] == b[n]);
                assert(starts_before(records, b[n], b[k]));
            }
        }
        assert(starts_before(records, b[k], b[m]));
        assert(starts_before(records, a[k], a[n]));
    }
}

/// The order by start is that of the start numbers, with config order among equals, and
/// every record is in it.
pub proof fn law_start_order(records: Seq<RecordView>, order: Seq<int>, a: int, b: int)
    requires
        is_start_order(records, order),
        0 <= a < b < order.len(),
    ensures
        order.len() == records.len(),
        0 <= order[a] < records.len(),
        0 <= order[b] < records.len(),
        records[order[a]].start_order <= records[order[b]].start_order,
        records[order[a]].start_order == records[order[b]].start_order ==> order[a] < order[b],
        forall|i: int| 0 <= i < records.len() ==> #[trigger] order.contains(i),
{
    lemma_order_contains(records, order);
    assert(starts_before(records, order[a], order[b]));
}

/// The search for a record finds the first with that name.
pub proof fn law_first_record(records: Seq<RecordView>, name: Seq<char>)
    ensures
        ({
            let k = position(records, name);
            &&& 0 <= k <= records.len()
            &&& k < records.len() ==> records[k].name == name
            &&& forall|j: int| 0 <= j < k ==> (#[trigger] records[j]).name != name
        }),
    decreases records.len(),
{
    if records.len() > 0 && records[0].name != name {
        let rest = records.drop_first();
        law_first_record(rest, name);
        assert forall|j: int| 0 <= j < position(records, name) implies (
        #[trigger] records[j]).name != name by {
            if j > 0 {
                assert(rest[j - 1].name != name);
            }
        }
    }
}

/// Every status has a word of its own.
pub proof fn law_words(a: Status, b: Status)
    ensures
        a.word() == b.word() <==> a == b,
        Status::Success.word() == "success"@,
        Status::Failed.word() == "failed"@,
        Status::Skipped.word() == "skipped"@,
        Status::Cached.word() == "cached"@,
{
    reveal_strlit("success");
    reveal_strlit("failed");
    reveal_strlit("skipped");
    reveal_strlit("cached");
    assert("success"@[0] == 's' && "success"@[1] == 'u');
    assert("failed"@[0] == 'f');
    assert("skipped"@[0] == 's' && "skipped"@[1] == 'k');
    assert("cached"@[0] == 'c');
}

} // verus!
