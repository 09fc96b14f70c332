//! The boundary between the pure scheduler and the messy outside world.
//!
//! The scheduler never spawns a process. It calls `Executor::run` for each job
//! and reads back a `JobOutcome`. The `MockExecutor` (in `crate::mock`) returns
//! scripted outcomes so scheduling can be tested with no processes at all.

use vstd::prelude::*;
use vstd::string::*;

use crate::content::PathContent;
use crate::duration::Duration;
use crate::order;
use crate::pipeline::{Job, JobView};

verus! {

/// A content-addressed bag of named byte blobs handed between jobs. The names are
/// kept in order, so hashing and merging are deterministic.
#[derive(Debug, PartialEq, Eq)]
pub struct Artifacts {
    items: Vec<(String, Vec<u8>)>,
}

/// The views of named blobs.
pub open spec fn blob_views(v: Seq<(String, Vec<u8>)>) -> Seq<(Seq<char>, Seq<u8>)> {
    v.map_values(|p: (String, Vec<u8>)| (p.0@, p.1@))
}

/// The names ascend, so none occurs twice.
pub open spec fn ascending(items: Seq<(Seq<char>, Seq<u8>)>) -> bool {
    forall|a: int, b: int|
        0 <= a < b < items.len() ==> order::text_lt(#[trigger] items[a].0, #[trigger] items[b].0)
}

/// The number of items at the front whose names stand before `name`.
pub open spec fn rank(items: Seq<(Seq<char>, Seq<u8>)>, name: Seq<char>) -> int
    decreases items.len(),
{
    if items.len() == 0 || !order::text_lt(items[0].0, name) {
        0
    } else {
        1 + rank(items.drop_first(), name)
    }
}

/// `items` with the blob of `name` set to `data`.
pub open spec fn with_item(
    items: Seq<(Seq<char>, Seq<u8>)>,
    name: Seq<char>,
    data: Seq<u8>,
) -> Seq<(Seq<char>, Seq<u8>)> {
    let k = rank(items, name);
    if k < items.len() && items[k].0 == name {
        items.update(k, (name, data))
    } else {
        items.insert(k, (name, data))
    }
}

/// `items` with the blobs of `more` set, one after the other.
pub open spec fn with_items(
    items: Seq<(Seq<char>, Seq<u8>)>,
    more: Seq<(Seq<char>, Seq<u8>)>,
) -> Seq<(Seq<char>, Seq<u8>)>
    decreases more.len(),
{
    if more.len() == 0 {
        items
    } else {
        with_item(with_items(items, more.drop_last()), more.last().0, more.last().1)
    }
}

/// The blobs by name.
pub open spec fn by_name(items: Seq<(Seq<char>, Seq<u8>)>) -> Map<Seq<char>, Seq<u8>>
    decreases items.len(),
{
    if items.len() == 0 {
        Map::empty()
    } else {
        by_name(items.drop_last()).insert(items.last().0, items.last().1)
    }
}

proof fn lemma_rank(items: Seq<(Seq<char>, Seq<u8>)>, name: Seq<char>, k: int)
    requires
        0 <= k <= items.len(),
        forall|j: int| 0 <= j < k ==> order::text_lt(#[trigger] items[j].0, name),
        k < items.len() ==> !order::text_lt(items[k].0, name),
    ensures
        rank(items, name) == k,
    decreases items.len(),
{
    if k > 0 {
        lemma_rank(items.drop_first(), name, k - 1);
    }
}

proof fn lemma_rank_bound(items: Seq<(Seq<char>, Seq<u8>)>, name: Seq<char>)
    ensures
        0 <= rank(items, name) <= items.len(),
        forall|j: int| 0 <= j < rank(items, name) ==> order::text_lt(#[trigger] items[j].0, name),
        rank(items, name) < items.len() ==> !order::text_lt(
            items[rank(items, name)].0,
            name,
        ),
    decreases items.len(),
{
    if items.len() > 0 && order::text_lt(items[0].0, name) {
        let rest = items.drop_first();
        lemma_rank_bound(rest, name);
        assert forall|j: int| 0 <= j < rank(items, name) implies order::text_lt(
            #[trigger] items[j].0,
            name,
        ) by {
            if j > 0 {
                assert(rest[j - 1] == items[j]);
            }
        }
    }
}

/// A name is found in ascending items exactly where it stands.
proof fn lemma_by_name(items: Seq<(Seq<char>, Seq<u8>)>)
    requires
        ascending(items),
    ensures
        forall|k: int|
            0 <= k < items.len() ==> by_name(items).contains_key(#[trigger] items[k].0)
                && by_name(items)[items[k].0] == items[k].1,
        forall|name: Seq<char>| #[trigger]
            by_name(items).contains_key(name) ==> exists|k: int|
                0 <= k < items.len() && #[trigger] items[k].0 == name,
    decreases items.len(),
{
    if items.len() > 0 {
        let rest = items.drop_last();
        assert(ascending(rest));
        lemma_by_name(rest);
        assert forall|k: int| 0 <= k < items.len() implies by_name(items).contains_key(
            #[trigger] items[k].0,
        ) && by_name(items)[items[k].0] == items[k].1 by {
            if k < rest.len() {
                assert(rest[k] == items[k]);
                assert(order::text_lt(items[k].0, items[items.len() - 1].0));
                order::law_text_order(items[k].0, items[k].0, items[k].0);
            }
        }
        assert forall|name: Seq<char>| #[trigger] by_name(items).contains_key(name) implies exists|
            k: int,
        |
            0 <= k < items.len() && #[trigger] items[k].0 == name by {
            if name == items.last().0 {
                assert(items[items.len() - 1].0 == name);
            } else {
                assert(by_name(rest).contains_key(name));
                let k = choose|k: int| 0 <= k < rest.len() && #[trigger] rest[k].0 == name;
                assert(items[k].0 == name);
            }
        }
    }
}

proof fn lemma_with_item_ascends(
    items: Seq<(Seq<char>, Seq<u8>)>,
    name: Seq<char>,
    data: Seq<u8>,
)
    requires
        ascending(items),
    ensures
        ascending(with_item(items, name, data)),
{
    let k = rank(items, name);
    let r = with_item(items, name, data);
    lemma_rank_bound(items, name);
    let found = k < items.len() && items[k].0 == name;
    assert forall|a: int, b: int| 0 <= a < b < r.len() implies order::text_lt(
        #[trigger] r[a].0,
        #[trigger] r[b].0,
    ) by {
        if !found {
            if a < k && b == k {
                assert(order::text_lt(items[a].0, name));
            } else if a == k {
                order::law_text_order(items[k].0, name, name);
                assert(order::text_lt(name, items[k].0));
                if b > k + 1 {
                    assert(order::text_lt(items[k].0, items[b - 1].0));
                    order::law_text_order(name, items[k].0, items[b - 1].0);
                }
            } else {
                let x = if a < k {
                    a
                } else {
                    a - 1
                };
                let y = if b < k {
                    b
                } else {
                    b - 1
                };
                assert(order::text_lt(items[x].0, items[y].0));
            }
        } else {
            assert(order::text_lt(items[a].0, items[b].0));
        }
    }
}

/// Ascending items with the same blobs under the same names make the same map.
proof fn lemma_same_map(items: Seq<(Seq<char>, Seq<u8>)>, m: Map<Seq<char>, Seq<u8>>)
    requires
        ascending(items),
        forall|k: int|
            0 <= k < items.len() ==> m.contains_key(#[trigger] items[k].0) && m[items[k].0]
                == items[k].1,
        forall|x: Seq<char>| #[trigger]
            m.contains_key(x) ==> exists|k: int| 0 <= k < items.len() && #[trigger] items[k].0 == x,
    ensures
        by_name(items) == m,
{
    lemma_by_name(items);
    assert forall|x: Seq<char>| by_name(items).contains_key(x) <==> #[trigger] m.contains_key(
        x,
    ) by {}
    assert forall|x: Seq<char>| m.contains_key(x) implies #[trigger] by_name(items)[x] == m[x] by {
        let k = choose|k: int| 0 <= k < items.len() && #[trigger] items[k].0 == x;
        assert(by_name(items)[items[k].0] == items[k].1);
    }
    assert(by_name(items) =~= m);
}

/// Setting a blob keeps the names ascending and changes that blob alone.
pub proof fn law_with_item(items: Seq<(Seq<char>, Seq<u8>)>, name: Seq<char>, data: Seq<u8>)
    requires
        ascending(items),
    ensures
        ascending(with_item(items, name, data)),
        by_name(with_item(items, name, data)) == by_name(items).insert(name, data),
{
    lemma_with_item_ascends(items, name, data);
    let k = rank(items, name);
    let r = with_item(items, name, data);
    lemma_rank_bound(items, name);
    let found = k < items.len() && items[k].0 == name;
    let m = by_name(items).insert(name, data);
    lemma_by_name(items);
    assert(r[k] == (name, data));
    assert forall|j: int| 0 <= j < r.len() implies m.contains_key(#[trigger] r[j].0) && m[r[j].0]
        == r[j].1 by {
        if j != k {
            let y = if found || j < k {
                j
            } else {
                j - 1
            };
            assert(items[y] == r[j]);
            order::law_text_order(name, name, name);
            if j < k {
                assert(order::text_lt(r[j].0, r[k].0));
            } else {
                assert(order::text_lt(r[k].0, r[j].0));
            }
        }
    }
    assert forall|x: Seq<char>| #[trigger] m.contains_key(x) implies exists|j: int|
        0 <= j < r.len() && #[trigger] r[j].0 == x by {
        if x == name {
            assert(r[k].0 == x);
        } else {
            assert(by_name(items).contains_key(x));
            let j = choose|j: int| 0 <= j < items.len() && #[trigger] items[j].0 == x;
            let y = if found || j < k {
                j
            } else {
                j + 1
            };
            assert(r[y].0 == x);
        }
    }
    lemma_same_map(r, m);
}

impl View for Artifacts {
    type V = Seq<(Seq<char>, Seq<u8>)>;

    /// The blobs with their names, in the order of the names.
    closed spec fn view(&self) -> Seq<(Seq<char>, Seq<u8>)> {
        blob_views(self.items@)
    }
}

impl Clone for Artifacts {
    fn clone(&self) -> (a: Self)
        ensures
            a@ == self@,
    {
        proof {
            use_type_invariant(self);
        }
        Artifacts { items: copy_blobs(&self.items) }
    }
}

impl Default for Artifacts {
    fn default() -> (a: Self)
        ensures
            a@ == Seq::<(Seq<char>, Seq<u8>)>::empty(),
    {
        Artifacts::new()
    }
}

/// Blobs set one after the other ascend by name, if those before them did.
pub proof fn law_with_items_ascend(
    items: Seq<(Seq<char>, Seq<u8>)>,
    more: Seq<(Seq<char>, Seq<u8>)>,
)
    requires
        ascending(items),
    ensures
        ascending(with_items(items, more)),
    decreases more.len(),
{
    if more.len() > 0 {
        law_with_items_ascend(items, more.drop_last());
        law_with_item(with_items(items, more.drop_last()), more.last().0, more.last().1);
    }
}

/// Item `k` is listed under that name.
pub open spec fn listed(items: Seq<(Seq<char>, Seq<u8>)>, name: Seq<char>, k: int) -> bool {
    0 <= k < items.len() && items[k].0 == name
}

/// The blob of a name is the last one that is listed under it, and there is none exactly
/// where none is listed.
pub proof fn law_by_name(items: Seq<(Seq<char>, Seq<u8>)>, name: Seq<char>)
    ensures
        by_name(items).contains_key(name) <==> exists|k: int| #[trigger] listed(items, name, k),
        forall|k: int|
            #[trigger] listed(items, name, k) && (forall|m: int|
                m > k ==> !#[trigger] listed(items, name, m)) ==> by_name(items)[name]
                == items[k].1,
    decreases items.len(),
{
    if items.len() > 0 {
        let rest = items.drop_last();
        let n = rest.len() as int;
        law_by_name(rest, name);
        assert forall|k: int| #[trigger] listed(items, name, k) implies k == n || listed(
            rest,
            name,
            k,
        ) by {}
        if items.last().0 == name {
            assert(listed(items, name, n));
        } else if by_name(rest).contains_key(name) {
            let k = choose|k: int| #[trigger] listed(rest, name, k);
            assert(listed(items, name, k));
        }
        assert forall|k: int|
            #[trigger] listed(items, name, k) && (forall|m: int|
                m > k ==> !#[trigger] listed(items, name, m)) implies by_name(items)[name]
            == items[k].1 by {
            if k < n {
                assert(!listed(items, name, n));
                assert forall|m: int| m > k implies !#[trigger] listed(rest, name, m) by {
                    assert(!listed(items, name, m));
                }
                assert(listed(rest, name, k));
            }
        }
    }
}

/// Setting blobs one after the other takes the place of those of the same names, and
/// leaves all others.
pub proof fn law_with_items(items: Seq<(Seq<char>, Seq<u8>)>, more: Seq<(Seq<char>, Seq<u8>)>)
    requires
        ascending(items),
    ensures
        by_name(with_items(items, more)) == by_name(items).union_prefer_right(by_name(more)),
    decreases more.len(),
{
    if more.len() == 0 {
        assert(by_name(items) =~= by_name(items).union_prefer_right(by_name(more)));
    } else {
        let rest = more.drop_last();
        law_with_items(items, rest);
        law_with_items_ascend(items, rest);
        law_with_item(with_items(items, rest), more.last().0, more.last().1);
        assert(by_name(with_items(items, more)) =~= by_name(items).union_prefer_right(
            by_name(more),
        ));
    }
}

/// Blobs that ascend by name are given back as they are.
pub proof fn law_rebuilt(items: Seq<(Seq<char>, Seq<u8>)>)
    requires
        ascending(items),
    ensures
        with_items(Seq::empty(), items) == items,
    decreases items.len(),
{
    if items.len() > 0 {
        let rest = items.drop_last();
        law_rebuilt(rest);
        assert forall|j: int| 0 <= j < rest.len() implies order::text_lt(
            #[trigger] rest[j].0,
            items.last().0,
        ) by {
            assert(order::text_lt(items[j].0, items[items.len() - 1].0));
        }
        lemma_rank(rest, items.last().0, rest.len() as int);
        assert(rest.insert(rest.len() as int, items.last()) =~= items);
    }
}

impl Artifacts {
    #[verifier::type_invariant]
    closed spec fn inv(&self) -> bool {
        ascending(blob_views(self.items@))
    }

    pub fn new() -> (a: Self)
        ensures
            a@ == Seq::<(Seq<char>, Seq<u8>)>::empty(),
    {
        let a = Artifacts { items: Vec::new() };
        assert(a@ =~= Seq::empty());
        a
    }

    /// The first position whose name does not stand before `name`.
    fn find(&self, name: &str) -> (k: usize)
        ensures
            k == rank(self@, name@),
            k <= self.items@.len(),
    {
        let mut i: usize = 0;
        while i < self.items.len() && order::text_before(self.items[i].0.as_str(), name)
            invariant
                i <= self.items.len(),
                forall|j: int| 0 <= j < i ==> order::text_lt(#[trigger] self@[j].0, name@),
            decreases self.items.len() - i,
        {
            assert(self@[i as int].0 == self.items@[i as int].0@);
            i += 1;
        }
        proof {
            if i < self.items.len() {
                assert(self@[i as int].0 == self.items@[i as int].0@);
            }
            lemma_rank(self@, name@, i as int);
        }
        i
    }

    pub fn insert(&mut self, name: &str, data: Vec<u8>)
        ensures
            final(self)@ == with_item(old(self)@, name@, data@),
            by_name(final(self)@) == by_name(old(self)@).insert(name@, data@),
    {
        proof {
            use_type_invariant(&*self);
            law_with_item(self@, name@, data@);
        }
        let ghost before = self@;
        let k = self.find(name);
        let mut items: Vec<(String, Vec<u8>)> = Vec::new();
        std::mem::swap(&mut items, &mut self.items);
        let ghost i0 = items@;
        let same = k < items.len() && items[k].0 == name.to_owned();
        if same {
            items.set(k, (name.to_owned(), data));
        } else {
            items.insert(k, (name.to_owned(), data));
        }
        assert(blob_views(items@) =~= with_item(before, name@, data@));
        self.items = items;
    }

    pub fn get(&self, name: &str) -> (r: Option<&[u8]>)
        ensures
            match r {
                Some(data) => by_name(self@).contains_key(name@) && data@ == by_name(self@)[name@],
                None => !by_name(self@).contains_key(name@),
            },
    {
        proof {
            use_type_invariant(self);
            lemma_by_name(self@);
            lemma_rank_bound(self@, name@);
        }
        let k = self.find(name);
        if k < self.items.len() && self.items[k].0 == name.to_owned() {
            assert(self@[k as int].0 == name@);
            Some(self.items[k].1.as_slice())
        } else {
            proof {
                if by_name(self@).contains_key(name@) {
                    let j = choose|j: int| 0 <= j < self@.len() && #[trigger] self@[j].0 == name@;
                    order::law_text_order(name@, name@, name@);
                    if j > k {
                        assert(order::text_lt(self@[k as int].0, self@[j].0));
                    } else if j < k {
                        assert(order::text_lt(self@[j].0, name@));
                    } else {
                        assert(self@[k as int].0 == self.items@[k as int].0@);
                    }
                }
            }
            None
        }
    }

    /// Takes over every blob of `other`, in place of one of the same name.
    pub fn merge(&mut self, other: &Artifacts)
        ensures
            final(self)@ == with_items(old(self)@, other@),
            by_name(final(self)@) == by_name(old(self)@).union_prefer_right(by_name(other@)),
    {
        let mut i: usize = 0;
        let ghost a0 = self@;
        let ghost more = other@;
        proof {
            assert(by_name(a0) =~= by_name(a0).union_prefer_right(by_name(more.take(0))));
        }
        while i < other.items.len()
            invariant
                i <= other.items.len(),
                more == blob_views(other.items@),
                self@ == with_items(a0, more.take(i as int)),
                by_name(self@) == by_name(a0).union_prefer_right(by_name(more.take(i as int))),
            decreases other.items.len() - i,
        {
            let (name, data) = &other.items[i];
            let ghost before = by_name(self@);
            self.insert(name.as_str(), copy_bytes(data));
            i += 1;
            let ghost t = more.take(i as int);
            assert(t.drop_last() =~= more.take(i - 1));
            assert(t.last() == more[i - 1]);
            assert(by_name(self@) =~= by_name(a0).union_prefer_right(by_name(t)));
        }
        assert(more.take(i as int) =~= more);
    }

    /// The blobs with their names, in the order of the names.
    pub fn iter(&self) -> (r: Vec<(&String, &Vec<u8>)>)
        ensures
            r@.len() == self@.len(),
            forall|i: int|
                0 <= i < r@.len() ==> (#[trigger] r@[i]).0@ == self@[i].0 && r@[i].1@ == self@[i].1,
            ascending(self@),
    {
        proof {
            use_type_invariant(self);
        }
        let mut r: Vec<(&String, &Vec<u8>)> = Vec::new();
        let mut i: usize = 0;
        while i < self.items.len()
            invariant
                i <= self.items.len(),
                r.len() == i,
                forall|j: int|
                    0 <= j < i ==> (#[trigger] r@[j]).0@ == self@[j].0 && r@[j].1@ == self@[j].1,
            decreases self.items.len() - i,
        {
            r.push((&self.items[i].0, &self.items[i].1));
            i += 1;
        }
        r
    }

    /// The blobs with their names, to keep.
    pub(crate) fn to_blobs(&self) -> (r: Vec<(String, Vec<u8>)>)
        ensures
            blob_views(r@) == self@,
    {
        copy_blobs(&self.items)
    }

    /// A bag of the given blobs, a later one in place of an earlier one.
    pub(crate) fn from_blobs(blobs: &Vec<(String, Vec<u8>)>) -> (r: Artifacts)
        ensures
            r@ == with_items(Seq::empty(), blob_views(blobs@)),
    {
        let mut r = Artifacts::new();
        let ghost all = blob_views(blobs@);
        let mut i: usize = 0;
        assert(all.take(0) =~= Seq::empty());
        while i < blobs.len()
            invariant
                i <= blobs.len(),
                all == blob_views(blobs@),
                r@ == with_items(Seq::empty(), all.take(i as int)),
            decreases blobs.len() - i,
        {
            assert(all.take(i + 1).drop_last() =~= all.take(i as int));
            assert(all.take(i + 1).last() == all[i as int]);
            r.insert(blobs[i].0.as_str(), copy_bytes(&blobs[i].1));
            i += 1;
        }
        assert(all.take(i as int) =~= all);
        r
    }

    /// Makes known that the names ascend.
    pub(crate) fn know_order(&self)
        ensures
            ascending(self@),
    {
        proof {
            use_type_invariant(self);
        }
    }

    pub fn is_empty(&self) -> (b: bool)
        ensures
            b == (self@.len() == 0),
    {
        self.items.len() == 0
    }

    pub fn len(&self) -> (n: usize)
        ensures
            n == self@.len(),
    {
        self.items.len()
    }
}

/// What an `Executor` reports back for one job.
#[derive(Debug)]
pub struct JobOutcome {
    pub success: bool,
    pub exit_code: Option<i32>,
    pub logs: String,
    pub artifacts: Artifacts,
    /// How long the job took. For the mock this is virtual sim-time that the
    /// scheduler uses as a clock; for the shell it is the measured wall time.
    pub duration: Duration,
}

/// What a [`JobOutcome`] says.
#[verifier::ext_equal]
pub struct OutcomeView {
    pub success: bool,
    pub exit_code: Option<i32>,
    pub logs: Seq<char>,
    pub artifacts: Seq<(Seq<char>, Seq<u8>)>,
    pub duration: Duration,
}

impl View for JobOutcome {
    type V = OutcomeView;

    open spec fn view(&self) -> OutcomeView {
        OutcomeView {
            success: self.success,
            exit_code: self.exit_code,
            logs: self.logs@,
            artifacts: self.artifacts@,
            duration: self.duration,
        }
    }
}

impl Clone for JobOutcome {
    fn clone(&self) -> (r: Self)
        ensures
            r@ == self@,
    {
        JobOutcome {
            success: self.success,
            exit_code: self.exit_code,
            logs: self.logs.clone(),
            artifacts: self.artifacts.clone(),
            duration: self.duration,
        }
    }
}

impl JobOutcome {
    /// A success without logs or artifacts.
    pub fn success(duration: Duration) -> (o: Self)
        ensures
            o@ == (OutcomeView {
                success: true,
                exit_code: Some(0i32),
                logs: Seq::empty(),
                artifacts: Seq::empty(),
                duration,
            }),
    {
        JobOutcome {
            success: true,
            exit_code: Some(0),
            logs: String::new(),
            artifacts: Artifacts::new(),
            duration,
        }
    }

    /// A failure without logs or artifacts.
    pub fn failure(duration: Duration) -> (o: Self)
        ensures
            o@ == (OutcomeView {
                success: false,
                exit_code: Some(1i32),
                logs: Seq::empty(),
                artifacts: Seq::empty(),
                duration,
            }),
    {
        JobOutcome {
            success: false,
            exit_code: Some(1),
            logs: String::new(),
            artifacts: Artifacts::new(),
            duration,
        }
    }
}

/// One call that was made on an executor, with what came back.
pub enum Call {
    /// A declared input was read.
    Read { base_dir: Seq<char>, path: Seq<char>, content: PathContent },
    /// A job was run.
    Run { job: JobView, inputs: Seq<(Seq<char>, Seq<u8>)>, outcome: OutcomeView },
    /// A job was retired.
    Finish { name: Seq<char> },
}

/// The one seam the scheduler drives. `run` is called when a job starts;
/// `on_finish` is called when the scheduler retires it (used by the mock to
/// track live concurrency; the shell ignores it). `read_input` is called for
/// each declared input of a job that becomes ready.
pub trait Executor {
    /// The calls made so far.
    spec fn history(&self) -> Seq<Call>;

    /// What the executor keeps from one call to the next.
    spec fn valid(&self) -> bool;

    /// The calls that the executor may be made to answer like this. It does not
    /// change from call to call. An executor of which nothing is known may answer
    /// anyhow.
    spec fn permits(&self, call: Call) -> bool;

    /// Runs a job on its inputs.
    fn run(&mut self, job: &Job, inputs: &Artifacts) -> (outcome: JobOutcome)
        ensures
            old(self).valid() ==> final(self).valid(),
            final(self).history() == old(self).history().push(
                Call::Run { job: job@, inputs: inputs@, outcome: outcome@ },
            ),
            old(self).permits(Call::Run { job: job@, inputs: inputs@, outcome: outcome@ }),
            forall|c: Call| #[trigger] final(self).permits(c) == old(self).permits(c),
    ;

    /// Takes note that a job was retired.
    fn on_finish(&mut self, job: &str)
        ensures
            old(self).valid() ==> final(self).valid(),
            final(self).history() == old(self).history().push(Call::Finish { name: job@ }),
            old(self).permits(Call::Finish { name: job@ }),
            forall|c: Call| #[trigger] final(self).permits(c) == old(self).permits(c),
    ;

    /// Reads what stands at a path below a directory.
    fn read_input(&mut self, base_dir: &str, path: &str) -> (content: PathContent)
        ensures
            old(self).valid() ==> final(self).valid(),
            final(self).history() == old(self).history().push(
                Call::Read { base_dir: base_dir@, path: path@, content },
            ),
            old(self).permits(Call::Read { base_dir: base_dir@, path: path@, content }),
            forall|c: Call| #[trigger] final(self).permits(c) == old(self).permits(c),
    ;
}

/// The executor was called with nothing but calls that it may answer like that, and
/// may answer as before.
pub open spec fn went_on<E: Executor>(before: E, after: E) -> bool {
    &&& before.valid() ==> after.valid()
    &&& before.history().len() <= after.history().len()
    &&& before.history() == after.history().take(before.history().len() as int)
    &&& forall|k: int|
        before.history().len() <= k < after.history().len() ==> before.permits(
            #[trigger] after.history()[k],
        )
    &&& forall|c: Call| #[trigger] after.permits(c) == before.permits(c)
}

pub proof fn lemma_went_on_self<E: Executor>(e: E)
    ensures
        went_on(e, e),
{
    assert(e.history().take(e.history().len() as int) =~= e.history());
}

/// One call more.
pub proof fn lemma_went_on_push<E: Executor>(a: E, b: E, c: E)
    requires
        went_on(a, b),
        b.valid() ==> c.valid(),
        c.history().len() == b.history().len() + 1,
        c.history().drop_last() =~= b.history(),
        b.permits(c.history().last()),
        forall|x: Call| #[trigger] c.permits(x) == b.permits(x),
    ensures
        went_on(a, c),
{
    let n = a.history().len() as int;
    assert(c.history().take(n) =~= b.history().take(n));
    assert forall|k: int| n <= k < c.history().len() implies a.permits(
        #[trigger] c.history()[k],
    ) by {
        if k < b.history().len() {
            assert(c.history()[k] == b.history()[k]);
        } else {
            assert(b.permits(c.history()[k]));
        }
    }
    assert forall|x: Call| #[trigger] c.permits(x) == a.permits(x) by {
        assert(b.permits(x) == a.permits(x));
    }
}

pub proof fn lemma_went_on<E: Executor>(a: E, b: E, c: E)
    requires
        went_on(a, b),
        went_on(b, c),
    ensures
        went_on(a, c),
{
    let n = a.history().len() as int;
    let m = b.history().len() as int;
    assert(c.history().take(n) =~= c.history().take(m).take(n));
    assert forall|k: int| n <= k < c.history().len() implies a.permits(
        #[trigger] c.history()[k],
    ) by {
        if k < m {
            assert(c.history().take(m)[k] == b.history()[k]);
        } else {
            assert(b.permits(c.history()[k]));
        }
    }
    assert forall|x: Call| #[trigger] c.permits(x) == a.permits(x) by {
        assert(b.permits(x) == a.permits(x));
    }
}

/// Runs each step as `sh -c <step>` in its directory, stops at the first failing
/// step, and collects declared `produces` paths as artifacts. A per-step timeout
/// keeps a hung child from wedging the whole run. This holds the settings; what is
/// decided along the way stands in [`crate::shell`].
#[derive(Debug, Clone)]
pub struct ShellExecutor {
    pub base_dir: String,
    pub timeout: Option<Duration>,
}

impl ShellExecutor {
    /// In that directory, without a limit on steps.
    pub fn new(base_dir: &str) -> (s: Self)
        ensures
            s.base_dir@ == base_dir@,
            s.timeout is None,
    {
        ShellExecutor { base_dir: base_dir.to_owned(), timeout: None }
    }

    /// In that directory, with that limit on each step.
    pub fn with_timeout(base_dir: &str, timeout: Duration) -> (s: Self)
        ensures
            s.base_dir@ == base_dir@,
            s.timeout == Some(timeout),
    {
        ShellExecutor { base_dir: base_dir.to_owned(), timeout: Some(timeout) }
    }
}

/// A copy of `v`.
pub(crate) fn copy_bytes(v: &Vec<u8>) -> (r: Vec<u8>)
    ensures
        r@ == v@,
{
    let r = v.clone();
    assert(r@ =~= v@);
    r
}

/// A copy of `v`.
pub(crate) fn copy_blobs(v: &Vec<(String, Vec<u8>)>) -> (r: Vec<(String, Vec<u8>)>)
    ensures
        blob_views(r@) == blob_views(v@),
{
    let mut r: Vec<(String, Vec<u8>)> = Vec::new();
    let mut i: usize = 0;
    while i < v.len()
        invariant
            i <= v.len(),
            r.len() == i,
            forall|j: int|
                0 <= j < i ==> (#[trigger] r@[j]).0@ == v@[j].0@ && r@[j].1@ == v@[j].1@,
        decreases v.len() - i,
    {
        r.push((v[i].0.clone(), copy_bytes(&v[i].1)));
        i += 1;
    }
    assert(blob_views(r@) =~= blob_views(v@));
    r
}

} // verus!
