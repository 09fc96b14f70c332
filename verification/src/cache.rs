//! Content-hash caching. A job's key is an FNV-1a digest of its config plus the
//! content of its declared input paths and of what its dependencies hand down. A
//! matching stored entry means the job is CACHED and never runs; its recorded
//! outputs are restored.

use std::collections::HashMap;

use vstd::prelude::*;
use vstd::string::*;

use crate::content;
use crate::content::PathContent;
use crate::duration::Duration;
use crate::executor;
use crate::executor::Artifacts;
use crate::hash;
use crate::hash::Hasher;
use crate::order;
use crate::pipeline::{Job, JobView};
use crate::safepath;
use crate::text;

verus! {

/// `tag` and an item, for each item in order.
pub open spec fn tagged(tag: Seq<char>, items: Seq<Seq<char>>) -> Seq<u8>
    decreases items.len(),
{
    if items.len() == 0 {
        Seq::empty()
    } else {
        tagged(tag, items.drop_last()) + hash::framed(tag) + hash::framed(items.last())
    }
}

/// The environment, pair by pair.
pub open spec fn env_stream(env: Seq<(Seq<char>, Seq<char>)>) -> Seq<u8>
    decreases env.len(),
{
    if env.len() == 0 {
        Seq::empty()
    } else {
        env_stream(env.drop_last()) + hash::framed("env"@) + hash::framed(env.last().0)
            + hash::framed(env.last().1)
    }
}

/// The time limit, if there is one.
pub open spec fn timeout_stream(timeout: Option<Duration>) -> Seq<u8> {
    match timeout {
        Some(d) => hash::framed("timeout"@) + hash::le64(d.secs) + hash::le64(d.nanos as u64),
        None => Seq::empty(),
    }
}

/// The keys of the dependencies.
pub open spec fn deps_stream(keys: Seq<u64>) -> Seq<u8>
    decreases keys.len(),
{
    if keys.len() == 0 {
        Seq::empty()
    } else {
        deps_stream(keys.drop_last()) + hash::framed("dep"@) + hash::le64(keys.last())
    }
}

/// The artifacts that the dependencies hand down.
pub open spec fn inputs_stream(items: Seq<(Seq<char>, Seq<u8>)>) -> Seq<u8>
    decreases items.len(),
{
    if items.len() == 0 {
        Seq::empty()
    } else {
        inputs_stream(items.drop_last()) + hash::framed("input"@) + hash::framed(items.last().0)
            + hash::le64(items.last().1.len() as u64) + items.last().1
    }
}

/// The label, if there is one.
pub open spec fn label_stream(key: Option<Seq<char>>) -> Seq<u8> {
    match key {
        Some(k) => hash::framed("label"@) + hash::framed(k),
        None => Seq::empty(),
    }
}

/// What the key takes for path `i`: what was read there, but for a path that
/// leaves the workspace, which is refused and counts as missing.
pub open spec fn content_at(
    paths: Seq<Seq<char>>,
    contents: Seq<PathContent>,
    i: int,
) -> PathContent {
    if safepath::confined(paths[i]) && i < contents.len() {
        contents[i]
    } else {
        PathContent::Missing
    }
}

/// The first `n` paths with their contents.
pub open spec fn paths_stream(
    paths: Seq<Seq<char>>,
    contents: Seq<PathContent>,
    n: int,
) -> Seq<u8>
    decreases n,
{
    if n <= 0 {
        Seq::empty()
    } else {
        paths_stream(paths, contents, n - 1) + hash::framed("path"@) + hash::framed(paths[n - 1])
            + content::content_stream(content_at(paths, contents, n - 1))
    }
}

/// The declared input paths of a job, in ascending order.
pub open spec fn declared(job: JobView) -> Seq<Seq<char>> {
    match job.cache {
        Some(c) => order::sorted_texts(c.paths),
        None => Seq::empty(),
    }
}

/// The cache block and the content of its paths.
pub open spec fn cache_stream(job: JobView, contents: Seq<PathContent>) -> Seq<u8> {
    match job.cache {
        Some(c) => label_stream(c.key) + paths_stream(
            declared(job),
            contents,
            declared(job).len() as int,
        ),
        None => Seq::empty(),
    }
}

/// The flag as a number.
pub open spec fn flag(b: bool) -> u64 {
    if b {
        1
    } else {
        0
    }
}

/// The config of a job, up to its cache block.
pub open spec fn config_stream(job: JobView) -> Seq<u8> {
    hash::framed("relay-cache-v1"@) + hash::framed(job.name) + tagged("step"@, job.steps)
        + env_stream(job.env) + tagged("needs"@, job.needs) + hash::le64(
        flag(job.continue_on_error),
    ) + timeout_stream(job.timeout)
}

/// Everything that decides the key of a job: its config, the keys of its
/// dependencies and the artifacts they hand down, and the content of its
/// declared paths (given in the order of [`declared`]).
pub open spec fn key_stream(
    job: JobView,
    contents: Seq<PathContent>,
    inputs: Seq<(Seq<char>, Seq<u8>)>,
    dep_keys: Seq<u64>,
) -> Seq<u8> {
    config_stream(job) + deps_stream(dep_keys) + inputs_stream(inputs) + cache_stream(job, contents)
}

/// The key of a job.
pub open spec fn cache_key(
    job: JobView,
    contents: Seq<PathContent>,
    inputs: Seq<(Seq<char>, Seq<u8>)>,
    dep_keys: Seq<u64>,
) -> u64 {
    hash::digest(key_stream(job, contents, inputs, dep_keys))
}

/// The declared input paths of a job, in the order in which their content goes
/// into the key.
pub fn input_paths(job: &Job) -> (r: Vec<String>)
    ensures
        text::views(r@) == declared(job@),
{
    match &job.cache {
        Some(c) => order::sort_strings(&c.paths),
        None => {
            let r: Vec<String> = Vec::new();
            assert(text::views(r@) =~= Seq::empty());
            r
        },
    }
}

fn write_tagged(h: &mut Hasher, tag: &str, items: &Vec<String>)
    ensures
        final(h)@ == hash::fnv(old(h)@, tagged(tag@, text::views(items@))),
{
    let ghost h0 = h@;
    let ghost all = text::views(items@);
    let mut i: usize = 0;
    assert(tagged(tag@, all.take(0)) =~= Seq::empty());
    while i < items.len()
        invariant
            i <= items.len(),
            all == text::views(items@),
            h@ == hash::fnv(h0, tagged(tag@, all.take(i as int))),
        decreases items.len() - i,
    {
        let ghost so_far = tagged(tag@, all.take(i as int));
        h.write_str(tag);
        h.write_str(items[i].as_str());
        proof {
            let a = hash::framed(tag@);
            let b = hash::framed(items@[i as int]@);
            hash::law_writes_concatenate(h0, so_far, a);
            hash::law_writes_concatenate(h0, so_far + a, b);
            assert(all.take(i + 1).drop_last() =~= all.take(i as int));
            assert(all.take(i + 1).last() == items@[i as int]@);
        }
        i += 1;
    }
    assert(all.take(i as int) =~= all);
}

fn write_env(h: &mut Hasher, env: &Vec<(String, String)>)
    ensures
        final(h)@ == hash::fnv(old(h)@, env_stream(crate::pipeline::pair_views(env@))),
{
    let ghost h0 = h@;
    let ghost all = crate::pipeline::pair_views(env@);
    let mut i: usize = 0;
    assert(env_stream(all.take(0)) =~= Seq::empty());
    while i < env.len()
        invariant
            i <= env.len(),
            all == crate::pipeline::pair_views(env@),
            h@ == hash::fnv(h0, env_stream(all.take(i as int))),
        decreases env.len() - i,
    {
        let ghost so_far = env_stream(all.take(i as int));
        h.write_str("env");
        h.write_str(env[i].0.as_str());
        h.write_str(env[i].1.as_str());
        proof {
            let a = hash::framed("env"@);
            let b = hash::framed(env@[i as int].0@);
            let c = hash::framed(env@[i as int].1@);
            hash::law_writes_concatenate(h0, so_far, a);
            hash::law_writes_concatenate(h0, so_far + a, b);
            hash::law_writes_concatenate(h0, so_far + a + b, c);
            assert(all.take(i + 1).drop_last() =~= all.take(i as int));
            assert(all.take(i + 1).last() == (env@[i as int].0@, env@[i as int].1@));
        }
        i += 1;
    }
    assert(all.take(i as int) =~= all);
}

fn write_timeout(h: &mut Hasher, timeout: &Option<Duration>)
    ensures
        final(h)@ == hash::fnv(old(h)@, timeout_stream(*timeout)),
{
    let ghost h0 = h@;
    if let Some(d) = timeout {
        h.write_str("timeout");
        h.write_u64(d.secs);
        h.write_u64(d.nanos as u64);
        proof {
            let a = hash::framed("timeout"@);
            let b = hash::le64(d.secs);
            hash::law_writes_concatenate(h0, a, b);
            hash::law_writes_concatenate(h0, a + b, hash::le64(d.nanos as u64));
        }
    }
}

fn write_deps(h: &mut Hasher, keys: &Vec<u64>)
    ensures
        final(h)@ == hash::fnv(old(h)@, deps_stream(keys@)),
{
    let ghost h0 = h@;
    let mut i: usize = 0;
    assert(deps_stream(keys@.take(0)) =~= Seq::empty());
    while i < keys.len()
        invariant
            i <= keys.len(),
            h@ == hash::fnv(h0, deps_stream(keys@.take(i as int))),
        decreases keys.len() - i,
    {
        let ghost so_far = deps_stream(keys@.take(i as int));
        h.write_str("dep");
        h.write_u64(keys[i]);
        proof {
            let a = hash::framed("dep"@);
            hash::law_writes_concatenate(h0, so_far, a);
            hash::law_writes_concatenate(h0, so_far + a, hash::le64(keys@[i as int]));
            assert(keys@.take(i + 1).drop_last() =~= keys@.take(i as int));
        }
        i += 1;
    }
    assert(keys@.take(i as int) =~= keys@);
}

fn write_inputs(h: &mut Hasher, inputs: &Artifacts)
    ensures
        final(h)@ == hash::fnv(old(h)@, inputs_stream(inputs@)),
{
    let ghost h0 = h@;
    let ghost all = inputs@;
    let items = inputs.iter();
    let mut i: usize = 0;
    assert(inputs_stream(all.take(0)) =~= Seq::empty());
    while i < items.len()
        invariant
            i <= items.len() == all.len(),
            forall|j: int|
                0 <= j < items@.len() ==> (#[trigger] items@[j]).0@ == all[j].0 && items@[j].1@
                    == all[j].1,
            h@ == hash::fnv(h0, inputs_stream(all.take(i as int))),
        decreases items.len() - i,
    {
        let ghost so_far = inputs_stream(all.take(i as int));
        let (name, data) = items[i];
        h.write_str("input");
        h.write_str(name.as_str());
        h.write_u64(data.len() as u64);
        h.write(data.as_slice());
        proof {
            let a = hash::framed("input"@);
            let b = hash::framed(name@);
            let c = hash::le64(data@.len() as u64);
            hash::law_writes_concatenate(h0, so_far, a);
            hash::law_writes_concatenate(h0, so_far + a, b);
            hash::law_writes_concatenate(h0, so_far + a + b, c);
            hash::law_writes_concatenate(h0, so_far + a + b + c, data@);
            assert(all.take(i + 1).drop_last() =~= all.take(i as int));
            assert(all.take(i + 1).last() == all[i as int]);
        }
        i += 1;
    }
    assert(all.take(i as int) =~= all);
}

fn write_paths(h: &mut Hasher, paths: &Vec<String>, contents: &Vec<PathContent>)
    ensures
        final(h)@ == hash::fnv(
            old(h)@,
            paths_stream(text::views(paths@), contents@, paths@.len() as int),
        ),
{
    let ghost h0 = h@;
    let ghost all = text::views(paths@);
    let mut i: usize = 0;
    let missing = PathContent::Missing;
    while i < paths.len()
        invariant
            i <= paths.len(),
            missing == PathContent::Missing,
            all == text::views(paths@),
            h@ == hash::fnv(h0, paths_stream(all, contents@, i as int)),
        decreases paths.len() - i,
    {
        let ghost so_far = paths_stream(all, contents@, i as int);
        let p = paths[i].as_str();
        h.write_str("path");
        h.write_str(p);
        assert(all[i as int] == p@);
        if safepath::is_confined(p) && i < contents.len() {
            content::hash_content(h, &contents[i]);
        } else {
            content::hash_content(h, &missing);
        }
        proof {
            let a = hash::framed("path"@);
            let b = hash::framed(p@);
            let c = content::content_stream(content_at(all, contents@, i as int));
            hash::law_writes_concatenate(h0, so_far, a);
            hash::law_writes_concatenate(h0, so_far + a, b);
            hash::law_writes_concatenate(h0, so_far + a + b, c);
        }
        i += 1;
    }
}

fn write_cache(h: &mut Hasher, job: &Job, contents: &Vec<PathContent>)
    ensures
        final(h)@ == hash::fnv(old(h)@, cache_stream(job@, contents@)),
{
    let ghost h0 = h@;
    if let Some(c) = &job.cache {
        let ghost label = label_stream(c@.key);
        if let Some(k) = &c.key {
            h.write_str("label");
            h.write_str(k.as_str());
            proof {
                hash::law_writes_concatenate(h0, hash::framed("label"@), hash::framed(k@));
            }
        }
        assert(h@ == hash::fnv(h0, label));
        let paths = input_paths(job);
        assert(paths@.len() == text::views(paths@).len());
        write_paths(h, &paths, contents);
        proof {
            hash::law_writes_concatenate(
                h0,
                label,
                paths_stream(declared(job@), contents@, declared(job@).len() as int),
            );
        }
    }
}

/// Deterministic key for a job: identical config, identical input bytes and
/// identical dependencies yield an identical key on any machine.
///
/// `contents` holds what stands at the declared paths, in the order of
/// [`input_paths`].
pub fn compute_key_with_deps(
    job: &Job,
    contents: &Vec<PathContent>,
    inputs: &Artifacts,
    dep_keys: &Vec<u64>,
) -> (k: u64)
    ensures
        k == cache_key(job@, contents@, inputs@, dep_keys@),
{
    let mut h = Hasher::new();
    h.write_str("relay-cache-v1");
    h.write_str(job.name.as_str());
    let ghost s = hash::framed("relay-cache-v1"@);
    proof {
        hash::law_writes_concatenate(hash::FNV_OFFSET, s, hash::framed(job.name@));
        s = s + hash::framed(job.name@);
    }
    write_tagged(&mut h, "step", &job.steps);
    proof {
        hash::law_writes_concatenate(hash::FNV_OFFSET, s, tagged("step"@, job@.steps));
        s = s + tagged("step"@, job@.steps);
    }
    write_env(&mut h, &job.env);
    proof {
        hash::law_writes_concatenate(hash::FNV_OFFSET, s, env_stream(job@.env));
        s = s + env_stream(job@.env);
    }
    write_tagged(&mut h, "needs", &job.needs);
    proof {
        hash::law_writes_concatenate(hash::FNV_OFFSET, s, tagged("needs"@, job@.needs));
        s = s + tagged("needs"@, job@.needs);
    }
    h.write_u64(
        if job.continue_on_error {
            1
        } else {
            0
        },
    );
    proof {
        let f = hash::le64(flag(job@.continue_on_error));
        hash::law_writes_concatenate(hash::FNV_OFFSET, s, f);
        s = s + f;
    }
    write_timeout(&mut h, &job.timeout);
    proof {
        hash::law_writes_concatenate(hash::FNV_OFFSET, s, timeout_stream(job@.timeout));
        s = s + timeout_stream(job@.timeout);
        assert(s =~= config_stream(job@));
    }
    write_deps(&mut h, dep_keys);
    proof {
        hash::law_writes_concatenate(hash::FNV_OFFSET, s, deps_stream(dep_keys@));
        s = s + deps_stream(dep_keys@);
    }
    write_inputs(&mut h, inputs);
    proof {
        hash::law_writes_concatenate(hash::FNV_OFFSET, s, inputs_stream(inputs@));
        s = s + inputs_stream(inputs@);
    }
    write_cache(&mut h, job, contents);
    proof {
        hash::law_writes_concatenate(hash::FNV_OFFSET, s, cache_stream(job@, contents@));
        s = s + cache_stream(job@, contents@);
    }
    h.finish()
}

/// The key of a job that depends on nothing.
pub fn compute_key(job: &Job, contents: &Vec<PathContent>) -> (k: u64)
    ensures
        k == cache_key(job@, contents@, Seq::empty(), Seq::empty()),
{
    let none: Vec<u64> = Vec::new();
    compute_key_with_deps(job, contents, &Artifacts::new(), &none)
}

/// What a stored run of a job left behind.
#[derive(Debug, Clone, PartialEq, Eq)]
pub struct CacheEntry {
    pub artifacts: Vec<(String, Vec<u8>)>,
    pub logs: String,
}

/// What a [`CacheEntry`] says.
#[verifier::ext_equal]
pub struct EntryView {
    pub artifacts: Seq<(Seq<char>, Seq<u8>)>,
    pub logs: Seq<char>,
}

impl View for CacheEntry {
    type V = EntryView;

    open spec fn view(&self) -> EntryView {
        EntryView { artifacts: executor::blob_views(self.artifacts@), logs: self.logs@ }
    }
}

impl CacheEntry {
    /// A copy of the entry.
    pub(crate) fn copy(&self) -> (r: CacheEntry)
        ensures
            r@ == self@,
    {
        CacheEntry { artifacts: executor::copy_blobs(&self.artifacts), logs: self.logs.clone() }
    }
}

/// The entries of earlier runs by their keys, in memory.
pub struct CacheStore {
    entries: HashMap<u64, CacheEntry>,
}

impl View for CacheStore {
    type V = Map<u64, EntryView>;

    closed spec fn view(&self) -> Map<u64, EntryView> {
        self.entries@.map_values(|e: CacheEntry| e@)
    }
}

impl CacheStore {
    /// A store without entries.
    pub fn in_memory() -> (s: Self)
        ensures
            s@ == Map::<u64, EntryView>::empty(),
    {
        let s = CacheStore { entries: HashMap::new() };
        assert(s@ =~= Map::empty());
        s
    }

    /// The entry stored under `key`.
    pub fn get(&self, key: u64) -> (r: Option<CacheEntry>)
        ensures
            match r {
                Some(e) => self@.contains_key(key) && e@ == self@[key],
                None => !self@.contains_key(key),
            },
    {
        broadcast use vstd::std_specs::hash::group_hash_axioms;

        match self.entries.get(&key) {
            Some(e) => Some(e.copy()),
            None => None,
        }
    }

    /// Stores `entry` under `key`, in place of an earlier one.
    pub fn put(&mut self, key: u64, entry: CacheEntry)
        ensures
            final(self)@ == old(self)@.insert(key, entry@),
    {
        broadcast use vstd::std_specs::hash::group_hash_axioms;

        let ghost before = self@;
        let _ = self.entries.insert(key, entry);
        assert(self@ =~= before.insert(key, entry@));
    }
}

impl Default for CacheStore {
    fn default() -> (s: Self)
        ensures
            s@ == Map::<u64, EntryView>::empty(),
    {
        CacheStore::in_memory()
    }
}

} // verus!
