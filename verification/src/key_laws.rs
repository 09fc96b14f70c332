//! What a cache key tells apart: different configs, dependencies or inputs are
//! written as different bytes, and a changed byte changes the key.

use vstd::prelude::*;

use crate::cache;
use crate::content;
use crate::content::{DirEntry, PathContent};
use crate::duration::Duration;
use crate::hash;
use crate::order;
use crate::pipeline::{CacheView, JobView};
use crate::safepath;

verus! {

/// `x` and `y` differ in one byte.
pub open spec fn one_byte_apart(x: Seq<u8>, y: Seq<u8>) -> bool {
    x.len() == y.len() && exists|at: int| #[trigger] differ_at(x, y, at)
}

/// `x` and `y` differ there, and nowhere else.
pub open spec fn differ_at(x: Seq<u8>, y: Seq<u8>, at: int) -> bool {
    &&& 0 <= at < x.len()
    &&& x[at] != y[at]
    &&& forall|m: int| 0 <= m < x.len() && m != at ==> #[trigger] x[m] == y[m]
}

/// What stands around bytes that differ in one does not matter.
proof fn lemma_apart_within(p: Seq<u8>, x: Seq<u8>, y: Seq<u8>, s: Seq<u8>)
    requires
        one_byte_apart(x, y),
    ensures
        one_byte_apart(p + x + s, p + y + s),
{
    let at = choose|at: int| #[trigger] differ_at(x, y, at);
    let a = p + x + s;
    let b = p + y + s;
    assert forall|m: int| 0 <= m < a.len() && m != p.len() + at implies #[trigger] a[m] == b[m] by {
        if p.len() <= m < p.len() + x.len() {
            assert(x[m - p.len()] == y[m - p.len()]);
        }
    }
    assert(a[p.len() + at] == x[at]);
    assert(b[p.len() + at] == y[at]);
    assert(differ_at(a, b, p.len() + at));
}

/// Bytes that differ in one have different digests.
pub proof fn law_apart_digests_differ(x: Seq<u8>, y: Seq<u8>)
    requires
        one_byte_apart(x, y),
    ensures
        hash::digest(x) != hash::digest(y),
{
    let at = choose|at: int| #[trigger] differ_at(x, y, at);
    assert(y.take(at) =~= x.take(at));
    assert(y.skip(at + 1) =~= x.skip(at + 1));
    assert(x =~= x.take(at) + seq![x[at]] + x.skip(at + 1));
    assert(y =~= x.take(at) + seq![y[at]] + x.skip(at + 1));
    hash::law_one_byte_changes_digest(x.take(at), x[at], y[at], x.skip(at + 1));
}

/// A changed byte of a file is a changed byte of what is hashed.
pub proof fn law_changed_file(u: Vec<u8>, v: Vec<u8>)
    requires
        one_byte_apart(u@, v@),
    ensures
        one_byte_apart(
            content::content_stream(PathContent::File(u)),
            content::content_stream(PathContent::File(v)),
        ),
{
    let p = hash::framed("file"@) + hash::le64(u@.len() as u64);
    lemma_apart_within(p, u@, v@, Seq::empty());
    assert(p + u@ + Seq::empty() =~= p + u@);
    assert(p + v@ + Seq::empty() =~= p + v@);
}

proof fn lemma_same_entries(x: Seq<DirEntry>, y: Seq<DirEntry>, n: int)
    requires
        x.len() == y.len(),
        0 <= n <= x.len(),
        forall|j: int|
            0 <= j < n ==> (#[trigger] x[j]).name@ == y[j].name@ && content::content_stream(
                x[j].content,
            ) == content::content_stream(y[j].content),
    ensures
        content::entries_stream(x, n) == content::entries_stream(y, n),
    decreases n,
{
    if n > 0 {
        lemma_same_entries(x, y, n - 1);
        assert(x[n - 1].name@ == y[n - 1].name@);
    }
}

proof fn lemma_changed_entries(x: Seq<DirEntry>, y: Seq<DirEntry>, k: int, n: int)
    requires
        x.len() == y.len(),
        0 <= k < n <= x.len(),
        forall|j: int| 0 <= j < x.len() ==> (#[trigger] x[j]).name@ == y[j].name@,
        forall|j: int|
            0 <= j < x.len() && j != k ==> content::content_stream((#[trigger] x[j]).content)
                == content::content_stream(y[j].content),
        one_byte_apart(
            content::content_stream(x[k].content),
            content::content_stream(y[k].content),
        ),
    ensures
        one_byte_apart(content::entries_stream(x, n), content::entries_stream(y, n)),
    decreases n,
{
    let name = hash::framed(content::lossy_text(x[n - 1].name@));
    assert(x[n - 1].name@ == y[n - 1].name@);
    if n == k + 1 {
        lemma_same_entries(x, y, k);
        let p = content::entries_stream(x, k) + name;
        let u = content::content_stream(x[k].content);
        let v = content::content_stream(y[k].content);
        lemma_apart_within(p, u, v, Seq::empty());
        assert(p + u + Seq::empty() =~= content::entries_stream(x, n));
        assert(p + v + Seq::empty() =~= content::entries_stream(y, n));
    } else {
        lemma_changed_entries(x, y, k, n - 1);
        let more = name + content::content_stream(x[n - 1].content);
        let u = content::entries_stream(x, n - 1);
        let v = content::entries_stream(y, n - 1);
        lemma_apart_within(Seq::empty(), u, v, more);
        assert(Seq::empty() + u + more =~= content::entries_stream(x, n));
        assert(Seq::empty() + v + more =~= content::entries_stream(y, n));
    }
}

/// A changed byte below a directory is a changed byte of what is hashed.
pub proof fn law_changed_directory(x: Vec<DirEntry>, y: Vec<DirEntry>, k: int)
    requires
        x@.len() == y@.len(),
        0 <= k < x@.len(),
        forall|j: int| 0 <= j < x@.len() ==> (#[trigger] x@[j]).name@ == y@[j].name@,
        forall|j: int|
            0 <= j < x@.len() && j != k ==> content::content_stream((#[trigger] x@[j]).content)
                == content::content_stream(y@[j].content),
        one_byte_apart(
            content::content_stream(x@[k].content),
            content::content_stream(y@[k].content),
        ),
    ensures
        one_byte_apart(
            content::content_stream(PathContent::Dir(x)),
            content::content_stream(PathContent::Dir(y)),
        ),
{
    let n = x@.len() as int;
    lemma_changed_entries(x@, y@, k, n);
    let p = hash::framed("dir"@);
    let u = content::entries_stream(x@, n);
    let v = content::entries_stream(y@, n);
    lemma_apart_within(p, u, v, Seq::empty());
    assert(p + u + Seq::empty() =~= p + u);
    assert(p + v + Seq::empty() =~= p + v);
}

proof fn lemma_same_paths(
    paths: Seq<Seq<char>>,
    x: Seq<PathContent>,
    y: Seq<PathContent>,
    n: int,
)
    requires
        x.len() == y.len(),
        forall|j: int|
            0 <= j < n && j < x.len() ==> content::content_stream(#[trigger] x[j])
                == content::content_stream(y[j]),
    ensures
        cache::paths_stream(paths, x, n) == cache::paths_stream(paths, y, n),
    decreases n,
{
    if n > 0 {
        lemma_same_paths(paths, x, y, n - 1);
        if n - 1 < x.len() {
            assert(content::content_stream(x[n - 1]) == content::content_stream(y[n - 1]));
        }
    }
}

proof fn lemma_changed_paths(
    paths: Seq<Seq<char>>,
    x: Seq<PathContent>,
    y: Seq<PathContent>,
    k: int,
    n: int,
)
    requires
        x.len() == y.len(),
        0 <= k < n <= paths.len(),
        k < x.len(),
        safepath::confined(paths[k]),
        forall|j: int|
            0 <= j < x.len() && j != k ==> content::content_stream(#[trigger] x[j])
                == content::content_stream(y[j]),
        one_byte_apart(content::content_stream(x[k]), content::content_stream(y[k])),
    ensures
        one_byte_apart(cache::paths_stream(paths, x, n), cache::paths_stream(paths, y, n)),
    decreases n,
{
    let head = hash::framed("path"@) + hash::framed(paths[n - 1]);
    if n == k + 1 {
        lemma_same_paths(paths, x, y, k);
        let p = cache::paths_stream(paths, x, k) + head;
        let u = content::content_stream(x[k]);
        let v = content::content_stream(y[k]);
        lemma_apart_within(p, u, v, Seq::empty());
        assert(p + u + Seq::empty() =~= cache::paths_stream(paths, x, n));
        assert(p + v + Seq::empty() =~= cache::paths_stream(paths, y, n));
    } else {
        lemma_changed_paths(paths, x, y, k, n - 1);
        let c = content::content_stream(cache::content_at(paths, x, n - 1));
        assert(c == content::content_stream(cache::content_at(paths, y, n - 1))) by {
            if n - 1 < x.len() {
                assert(content::content_stream(x[n - 1]) == content::content_stream(y[n - 1]));
            }
        }
        let more = head + c;
        let u = cache::paths_stream(paths, x, n - 1);
        let v = cache::paths_stream(paths, y, n - 1);
        lemma_apart_within(Seq::empty(), u, v, more);
        assert(Seq::empty() + u + more =~= cache::paths_stream(paths, x, n));
        assert(Seq::empty() + v + more =~= cache::paths_stream(paths, y, n));
    }
}

/// Change any declared input byte and the key changes: when what stands at one
/// declared path differs in one byte, and nothing else does, the keys differ.
pub proof fn law_changed_byte_changes_key(
    job: JobView,
    x: Seq<PathContent>,
    y: Seq<PathContent>,
    inputs: Seq<(Seq<char>, Seq<u8>)>,
    dep_keys: Seq<u64>,
    k: int,
)
    requires
        x.len() == y.len(),
        0 <= k < cache::declared(job).len(),
        k < x.len(),
        safepath::confined(cache::declared(job)[k]),
        forall|j: int|
            0 <= j < x.len() && j != k ==> content::content_stream(#[trigger] x[j])
                == content::content_stream(y[j]),
        one_byte_apart(content::content_stream(x[k]), content::content_stream(y[k])),
    ensures
        cache::cache_key(job, x, inputs, dep_keys) != cache::cache_key(job, y, inputs, dep_keys),
{
    let paths = cache::declared(job);
    let n = paths.len() as int;
    lemma_changed_paths(paths, x, y, k, n);
    let config = cache::config_stream(job) + cache::deps_stream(dep_keys) + cache::inputs_stream(
        inputs,
    );
    let label = cache::label_stream(job.cache->0.key);
    let u = cache::paths_stream(paths, x, n);
    let v = cache::paths_stream(paths, y, n);
    lemma_apart_within(config + label, u, v, Seq::empty());
    lemma_embedded(config, label, u);
    lemma_embedded(config, label, v);
    law_apart_digests_differ(
        cache::key_stream(job, x, inputs, dep_keys),
        cache::key_stream(job, y, inputs, dep_keys),
    );
}

/// What stands before bytes that differ in one does not matter.
proof fn lemma_apart_after(p: Seq<u8>, x: Seq<u8>, y: Seq<u8>)
    requires
        one_byte_apart(x, y),
    ensures
        one_byte_apart(p + x, p + y),
{
    lemma_apart_within(p, x, y, Seq::empty());
    assert(p + x + Seq::empty() =~= p + x);
    assert(p + y + Seq::empty() =~= p + y);
}

/// What stands behind bytes that differ in one does not matter.
proof fn lemma_apart_before(x: Seq<u8>, y: Seq<u8>, s: Seq<u8>)
    requires
        one_byte_apart(x, y),
    ensures
        one_byte_apart(x + s, y + s),
{
    lemma_apart_within(Seq::empty(), x, y, s);
    assert(Seq::empty() + x + s =~= x + s);
    assert(Seq::empty() + y + s =~= y + s);
}

/// The texts are as long and differ in one byte.
pub open spec fn texts_apart(x: Seq<char>, y: Seq<char>) -> bool {
    one_byte_apart(vstd::utf8::encode_utf8(x), vstd::utf8::encode_utf8(y))
}

/// A changed byte of a text is a changed byte of what is hashed.
pub proof fn law_changed_text(x: Seq<char>, y: Seq<char>)
    requires
        texts_apart(x, y),
    ensures
        one_byte_apart(hash::framed(x), hash::framed(y)),
{
    let a = vstd::utf8::encode_utf8(x);
    let b = vstd::utf8::encode_utf8(y);
    lemma_apart_after(hash::le64(a.len() as u64), a, b);
}

proof fn lemma_changed_tagged(tag: Seq<char>, items: Seq<Seq<char>>, k: int, text: Seq<char>)
    requires
        0 <= k < items.len(),
        texts_apart(items[k], text),
    ensures
        one_byte_apart(cache::tagged(tag, items), cache::tagged(tag, items.update(k, text))),
    decreases items.len(),
{
    let next = items.update(k, text);
    let front = cache::tagged(tag, items.drop_last());
    if k == items.len() - 1 {
        assert(next.drop_last() =~= items.drop_last());
        law_changed_text(items[k], text);
        lemma_apart_after(front + hash::framed(tag), hash::framed(items[k]), hash::framed(text));
    } else {
        lemma_changed_tagged(tag, items.drop_last(), k, text);
        assert(next.drop_last() =~= items.drop_last().update(k, text));
        let other = cache::tagged(tag, next.drop_last());
        lemma_apart_before(front, other, hash::framed(tag));
        lemma_apart_before(
            front + hash::framed(tag),
            other + hash::framed(tag),
            hash::framed(items.last()),
        );
    }
}

proof fn lemma_changed_env(env: Seq<(Seq<char>, Seq<char>)>, k: int, pair: (Seq<char>, Seq<char>))
    requires
        0 <= k < env.len(),
        pair_apart(env[k], pair),
    ensures
        one_byte_apart(cache::env_stream(env), cache::env_stream(env.update(k, pair))),
    decreases env.len(),
{
    let next = env.update(k, pair);
    let tag = hash::framed("env"@);
    let front = cache::env_stream(env.drop_last());
    if k == env.len() - 1 {
        assert(next.drop_last() =~= env.drop_last());
        let old = env[k];
        if old.0 == pair.0 {
            law_changed_text(old.1, pair.1);
            lemma_apart_after(
                front + tag + hash::framed(old.0),
                hash::framed(old.1),
                hash::framed(pair.1),
            );
        } else {
            law_changed_text(old.0, pair.0);
            lemma_apart_after(front + tag, hash::framed(old.0), hash::framed(pair.0));
            lemma_apart_before(
                front + tag + hash::framed(old.0),
                front + tag + hash::framed(pair.0),
                hash::framed(old.1),
            );
        }
    } else {
        lemma_changed_env(env.drop_last(), k, pair);
        assert(next.drop_last() =~= env.drop_last().update(k, pair));
        let other = cache::env_stream(next.drop_last());
        let name = hash::framed(env.last().0);
        lemma_apart_before(front, other, tag);
        lemma_apart_before(front + tag, other + tag, name);
        lemma_apart_before(front + tag + name, other + tag + name, hash::framed(env.last().1));
    }
}

/// The pairs differ in one byte, of the name or of the value.
pub open spec fn pair_apart(x: (Seq<char>, Seq<char>), y: (Seq<char>, Seq<char>)) -> bool {
    ||| x.0 == y.0 && texts_apart(x.1, y.1)
    ||| texts_apart(x.0, y.0) && x.1 == y.1
}

/// Configs that are hashed from bytes that differ in one give different keys.
proof fn lemma_apart_configs(
    j1: JobView,
    j2: JobView,
    contents: Seq<PathContent>,
    inputs: Seq<(Seq<char>, Seq<u8>)>,
    dep_keys: Seq<u64>,
)
    requires
        one_byte_apart(cache::config_stream(j1), cache::config_stream(j2)),
        j1.cache == j2.cache,
    ensures
        cache::cache_key(j1, contents, inputs, dep_keys) != cache::cache_key(
            j2,
            contents,
            inputs,
            dep_keys,
        ),
{
    let x = cache::config_stream(j1);
    let y = cache::config_stream(j2);
    let d = cache::deps_stream(dep_keys);
    let i = cache::inputs_stream(inputs);
    lemma_apart_before(x, y, d);
    lemma_apart_before(x + d, y + d, i);
    lemma_apart_before(x + d + i, y + d + i, cache::cache_stream(j1, contents));
    law_apart_digests_differ(
        cache::key_stream(j1, contents, inputs, dep_keys),
        cache::key_stream(j2, contents, inputs, dep_keys),
    );
}

/// Change one byte of a step and the key changes.
pub proof fn law_changed_step_changes_key(
    job: JobView,
    k: int,
    step: Seq<char>,
    contents: Seq<PathContent>,
    inputs: Seq<(Seq<char>, Seq<u8>)>,
    dep_keys: Seq<u64>,
)
    requires
        0 <= k < job.steps.len(),
        texts_apart(job.steps[k], step),
    ensures
        cache::cache_key(job, contents, inputs, dep_keys) != cache::cache_key(
            JobView { steps: job.steps.update(k, step), ..job },
            contents,
            inputs,
            dep_keys,
        ),
{
    let next = JobView { steps: job.steps.update(k, step), ..job };
    let p = hash::framed("relay-cache-v1"@) + hash::framed(job.name);
    let x = cache::tagged("step"@, job.steps);
    let y = cache::tagged("step"@, next.steps);
    let e = cache::env_stream(job.env);
    let n = cache::tagged("needs"@, job.needs);
    let f = hash::le64(cache::flag(job.continue_on_error));
    lemma_changed_tagged("step"@, job.steps, k, step);
    lemma_apart_after(p, x, y);
    lemma_apart_before(p + x, p + y, e);
    lemma_apart_before(p + x + e, p + y + e, n);
    lemma_apart_before(p + x + e + n, p + y + e + n, f);
    lemma_apart_before(p + x + e + n + f, p + y + e + n + f, cache::timeout_stream(job.timeout));
    lemma_apart_configs(job, next, contents, inputs, dep_keys);
}

/// Change one byte of an environment pair and the key changes.
pub proof fn law_changed_env_changes_key(
    job: JobView,
    k: int,
    pair: (Seq<char>, Seq<char>),
    contents: Seq<PathContent>,
    inputs: Seq<(Seq<char>, Seq<u8>)>,
    dep_keys: Seq<u64>,
)
    requires
        0 <= k < job.env.len(),
        pair_apart(job.env[k], pair),
    ensures
        cache::cache_key(job, contents, inputs, dep_keys) != cache::cache_key(
            JobView { env: job.env.update(k, pair), ..job },
            contents,
            inputs,
            dep_keys,
        ),
{
    let next = JobView { env: job.env.update(k, pair), ..job };
    let p = hash::framed("relay-cache-v1"@) + hash::framed(job.name) + cache::tagged(
        "step"@,
        job.steps,
    );
    let x = cache::env_stream(job.env);
    let y = cache::env_stream(next.env);
    let n = cache::tagged("needs"@, job.needs);
    let f = hash::le64(cache::flag(job.continue_on_error));
    lemma_changed_env(job.env, k, pair);
    lemma_apart_after(p, x, y);
    lemma_apart_before(p + x, p + y, n);
    lemma_apart_before(p + x + n, p + y + n, f);
    lemma_apart_before(p + x + n + f, p + y + n + f, cache::timeout_stream(job.timeout));
    lemma_apart_configs(job, next, contents, inputs, dep_keys);
}

/// Zero and one are written as bytes that differ in one.
proof fn lemma_flags_apart()
    ensures
        one_byte_apart(hash::le64(0), hash::le64(1)),
        one_byte_apart(hash::le64(1), hash::le64(0)),
{
    let x = hash::le64(0);
    let y = hash::le64(1);
    assert((0u64 & 0xff) as u8 != (1u64 & 0xff) as u8) by (bit_vector);
    assert forall|s: u64| 8 <= s < 64 implies (#[trigger] (0u64 >> s)) == 1u64 >> s by {
        assert(8 <= s < 64 ==> 0u64 >> s == 1u64 >> s) by (bit_vector);
    }
    vstd::bytes::spec_u64_to_le_bytes_to_open(0);
    vstd::bytes::spec_u64_to_le_bytes_to_open(1);
    assert(differ_at(x, y, 0));
    assert(differ_at(y, x, 0));
}

/// Set or clear `continue-on-error` and the key changes.
pub proof fn law_changed_flag_changes_key(
    job: JobView,
    contents: Seq<PathContent>,
    inputs: Seq<(Seq<char>, Seq<u8>)>,
    dep_keys: Seq<u64>,
)
    ensures
        cache::cache_key(job, contents, inputs, dep_keys) != cache::cache_key(
            JobView { continue_on_error: !job.continue_on_error, ..job },
            contents,
            inputs,
            dep_keys,
        ),
{
    let next = JobView { continue_on_error: !job.continue_on_error, ..job };
    let p = hash::framed("relay-cache-v1"@) + hash::framed(job.name) + cache::tagged(
        "step"@,
        job.steps,
    ) + cache::env_stream(job.env) + cache::tagged("needs"@, job.needs);
    let x = hash::le64(cache::flag(job.continue_on_error));
    let y = hash::le64(cache::flag(next.continue_on_error));
    lemma_flags_apart();
    lemma_apart_after(p, x, y);
    lemma_apart_before(p + x, p + y, cache::timeout_stream(job.timeout));
    lemma_apart_configs(job, next, contents, inputs, dep_keys);
}

/// Change one byte of the cache label and the key changes.
pub proof fn law_changed_label_changes_key(
    job: JobView,
    label: Seq<char>,
    contents: Seq<PathContent>,
    inputs: Seq<(Seq<char>, Seq<u8>)>,
    dep_keys: Seq<u64>,
)
    requires
        label_of(job) matches Some(old) && texts_apart(old, label),
    ensures
        cache::cache_key(job, contents, inputs, dep_keys) != cache::cache_key(
            JobView { cache: Some(CacheView { key: Some(label), ..job.cache->0 }), ..job },
            contents,
            inputs,
            dep_keys,
        ),
{
    let old = label_of(job)->0;
    let next = JobView { cache: Some(CacheView { key: Some(label), ..job.cache->0 }), ..job };
    let paths = cache::declared(job);
    let rest = cache::paths_stream(paths, contents, paths.len() as int);
    let x = cache::label_stream(Some(old));
    let y = cache::label_stream(Some(label));
    law_changed_text(old, label);
    lemma_apart_after(hash::framed("label"@), hash::framed(old), hash::framed(label));
    lemma_apart_before(x, y, rest);
    lemma_apart_after(
        cache::config_stream(job) + cache::deps_stream(dep_keys) + cache::inputs_stream(inputs),
        x + rest,
        y + rest,
    );
    law_apart_digests_differ(
        cache::key_stream(job, contents, inputs, dep_keys),
        cache::key_stream(next, contents, inputs, dep_keys),
    );
}

proof fn lemma_embedded(p: Seq<u8>, l: Seq<u8>, m: Seq<u8>)
    ensures
        p + (l + m) == p + l + m + Seq::<u8>::empty(),
{
    assert(p + (l + m) =~= p + l + m + Seq::<u8>::empty());
}

proof fn lemma_associates(a: Seq<u8>, b: Seq<u8>, c: Seq<u8>)
    ensures
        a + b + c == a + (b + c),
{
    assert(a + b + c =~= a + (b + c));
}

proof fn lemma_group_three(a: Seq<u8>, b: Seq<u8>, c: Seq<u8>, x: Seq<u8>)
    ensures
        a + b + c + x == a + (b + (c + x)),
{
    lemma_associates(a + b, c, x);
    lemma_associates(a, b, c + x);
}

proof fn lemma_group_four(a: Seq<u8>, b: Seq<u8>, c: Seq<u8>, d: Seq<u8>, x: Seq<u8>)
    ensures
        a + b + c + d + x == a + (b + (c + (d + x))),
{
    lemma_associates(a + b + c, d, x);
    lemma_group_three(a, b, c, d + x);
}

/// What begins the same and goes on the same is the same.
proof fn lemma_first_and_rest<A>(a: Seq<A>, b: Seq<A>)
    requires
        a.len() > 0,
        b.len() > 0,
        a[0] == b[0],
        a.drop_first() == b.drop_first(),
    ensures
        a == b,
{
    assert(a =~= seq![a[0]] + a.drop_first());
    assert(b =~= seq![b[0]] + b.drop_first());
}

/// The number that the first eight bytes write, if there are that many.
spec fn lead(s: Seq<u8>) -> Option<u64> {
    if s.len() >= 8 {
        Some(vstd::bytes::spec_u64_from_le_bytes(s.take(8)))
    } else {
        None
    }
}

proof fn lemma_lead(v: u64, rest: Seq<u8>)
    ensures
        lead(hash::le64(v) + rest) == Some(v),
{
    vstd::bytes::lemma_auto_spec_u64_to_from_le_bytes();
    assert((hash::le64(v) + rest).take(8) =~= hash::le64(v));
}

/// A word in plain letters, of a length.
spec fn is_tag(tag: Seq<char>, n: u64) -> bool {
    tag.len() == n && vstd::utf8::is_ascii_chars(tag)
}

proof fn lemma_lead_text(tag: Seq<char>, n: u64, rest: Seq<u8>)
    requires
        is_tag(tag, n),
    ensures
        lead(hash::framed(tag) + rest) == Some(n),
        hash::short(tag),
{
    vstd::utf8::is_ascii_chars_encode_utf8(tag);
    let bytes = vstd::utf8::encode_utf8(tag);
    assert(hash::framed(tag) + rest =~= hash::le64(n) + (bytes + rest));
    lemma_lead(n, bytes + rest);
}

/// The words that begin the pieces, and their lengths.
proof fn lemma_tags()
    ensures
        is_tag("step"@, 4),
        is_tag("env"@, 3),
        is_tag("needs"@, 5),
        is_tag("timeout"@, 7),
        is_tag("dep"@, 3),
        is_tag("input"@, 5),
        is_tag("label"@, 5),
        is_tag("path"@, 4),
        is_tag("file"@, 4),
        is_tag("unreadable"@, 10),
        is_tag("dir"@, 3),
        is_tag("missing"@, 7),
        is_tag("relay-cache-v1"@, 14),
        "input"@ != "label"@,
{
    reveal_strlit("step");
    reveal_strlit("env");
    reveal_strlit("needs");
    reveal_strlit("timeout");
    reveal_strlit("dep");
    reveal_strlit("input");
    reveal_strlit("label");
    reveal_strlit("path");
    reveal_strlit("file");
    reveal_strlit("unreadable");
    reveal_strlit("dir");
    reveal_strlit("missing");
    reveal_strlit("relay-cache-v1");
    assert("input"@[0] == 'i');
    assert("label"@[0] == 'l');
}

/// All of the texts are short enough for their lengths to be written.
pub open spec fn all_short(items: Seq<Seq<char>>) -> bool {
    forall|k: int| 0 <= k < items.len() ==> hash::short(#[trigger] items[k])
}

/// What is written fits the numbers it is written with, as all that a machine
/// holds does.
pub open spec fn writable(job: JobView, inputs: Seq<(Seq<char>, Seq<u8>)>) -> bool {
    &&& hash::short(job.name)
    &&& all_short(job.steps)
    &&& all_short(job.needs)
    &&& forall|k: int|
        0 <= k < job.env.len() ==> hash::short((#[trigger] job.env[k]).0) && hash::short(
            job.env[k].1,
        )
    &&& forall|k: int|
        0 <= k < inputs.len() ==> hash::short((#[trigger] inputs[k]).0) && inputs[k].1.len()
            <= u64::MAX
    &&& label_of(job) matches Some(l) ==> hash::short(l)
    &&& all_short(cache::declared(job))
}

/// The label of a job, if it has one.
pub open spec fn label_of(job: JobView) -> Option<Seq<char>> {
    match job.cache {
        Some(c) => c.key,
        None => None,
    }
}

/// What the two directories list can be told apart: as many entries, and each of
/// them comparable. The end of a directory is not written, so that the number of
/// its entries cannot be read back.
pub open spec fn comparable_entries(x: Seq<DirEntry>, y: Seq<DirEntry>, n: int) -> bool
    decreases x, n,
{
    n <= 0 || n > x.len() || {
        &&& hash::short(content::lossy_text(x[n - 1].name@))
        &&& hash::short(content::lossy_text(y[n - 1].name@))
        &&& comparable(x[n - 1].content, y[n - 1].content)
        &&& comparable_entries(x, y, n - 1)
    }
}

/// Directories at the same place list as many entries, and no length is larger than
/// the number it is written as.
pub open spec fn comparable(c: PathContent, d: PathContent) -> bool
    decreases c, 0int,
{
    match (c, d) {
        (PathContent::Dir(x), PathContent::Dir(y)) => x@.len() == y@.len() && comparable_entries(
            x@,
            y@,
            x@.len() as int,
        ),
        (PathContent::Dir(_), PathContent::UnreadableDir) => false,
        (PathContent::UnreadableDir, PathContent::Dir(_)) => false,
        (PathContent::File(u), PathContent::File(v)) => u@.len() <= u64::MAX && v@.len()
            <= u64::MAX,
        _ => true,
    }
}

proof fn lemma_tagged_front(tag: Seq<char>, items: Seq<Seq<char>>)
    requires
        items.len() > 0,
    ensures
        cache::tagged(tag, items) == hash::framed(tag) + hash::framed(items[0]) + cache::tagged(
            tag,
            items.drop_first(),
        ),
    decreases items.len(),
{
    let rest = items.drop_first();
    if items.len() == 1 {
        assert(items.drop_last() =~= Seq::empty());
        assert(rest =~= Seq::empty());
        assert(cache::tagged(tag, items) =~= hash::framed(tag) + hash::framed(items[0])
            + cache::tagged(tag, rest));
    } else {
        lemma_tagged_front(tag, items.drop_last());
        assert(items.drop_last().drop_first() =~= rest.drop_last());
        assert(cache::tagged(tag, items) =~= hash::framed(tag) + hash::framed(items[0])
            + cache::tagged(tag, rest));
    }
}

proof fn lemma_lead_tagged(tag: Seq<char>, n: u64, items: Seq<Seq<char>>, rest: Seq<u8>)
    requires
        is_tag(tag, n),
    ensures
        lead(cache::tagged(tag, items) + rest) == (if items.len() > 0 {
            Some(n)
        } else {
            lead(rest)
        }),
{
    if items.len() > 0 {
        lemma_tagged_front(tag, items);
        let more = hash::framed(items[0]) + cache::tagged(tag, items.drop_first()) + rest;
        assert(cache::tagged(tag, items) + rest =~= hash::framed(tag) + more);
        lemma_lead_text(tag, n, more);
    } else {
        assert(cache::tagged(tag, items) + rest =~= rest);
    }
}

/// A list of tagged texts is told from what follows it.
proof fn lemma_tagged_unique(
    tag: Seq<char>,
    n: u64,
    a: Seq<Seq<char>>,
    x: Seq<u8>,
    b: Seq<Seq<char>>,
    y: Seq<u8>,
)
    requires
        is_tag(tag, n),
        all_short(a),
        all_short(b),
        cache::tagged(tag, a) + x == cache::tagged(tag, b) + y,
        lead(x) != Some(n),
        lead(y) != Some(n),
    ensures
        a == b,
        x == y,
    decreases a.len(),
{
    lemma_lead_tagged(tag, n, a, x);
    lemma_lead_tagged(tag, n, b, y);
    if a.len() > 0 {
        assert(b.len() > 0);
        lemma_tagged_front(tag, a);
        lemma_tagged_front(tag, b);
        lemma_lead_text(tag, n, Seq::empty());
        let p = cache::tagged(tag, a.drop_first()) + x;
        let q = cache::tagged(tag, b.drop_first()) + y;
        lemma_group_three(
            hash::framed(tag),
            hash::framed(a[0]),
            cache::tagged(tag, a.drop_first()),
            x,
        );
        lemma_group_three(
            hash::framed(tag),
            hash::framed(b[0]),
            cache::tagged(tag, b.drop_first()),
            y,
        );
        hash::law_texts_delimited(tag, hash::framed(a[0]) + p, tag, hash::framed(b[0]) + q);
        hash::law_texts_delimited(a[0], p, b[0], q);
        assert forall|k: int| 0 <= k < a.drop_first().len() implies hash::short(
            #[trigger] a.drop_first()[k],
        ) by {
            assert(hash::short(a[k + 1]));
        }
        assert forall|k: int| 0 <= k < b.drop_first().len() implies hash::short(
            #[trigger] b.drop_first()[k],
        ) by {
            assert(hash::short(b[k + 1]));
        }
        lemma_tagged_unique(tag, n, a.drop_first(), x, b.drop_first(), y);
        lemma_first_and_rest(a, b);
    } else {
        assert(b.len() == 0);
        assert(a =~= b);
        assert(cache::tagged(tag, a) + x =~= x);
        assert(cache::tagged(tag, b) + y =~= y);
    }
}

proof fn lemma_env_front(env: Seq<(Seq<char>, Seq<char>)>)
    requires
        env.len() > 0,
    ensures
        cache::env_stream(env) == hash::framed("env"@) + hash::framed(env[0].0) + hash::framed(
            env[0].1,
        ) + cache::env_stream(env.drop_first()),
    decreases env.len(),
{
    let rest = env.drop_first();
    if env.len() == 1 {
        assert(env.drop_last() =~= Seq::empty());
        assert(rest =~= Seq::empty());
    } else {
        lemma_env_front(env.drop_last());
        assert(env.drop_last().drop_first() =~= rest.drop_last());
    }
    assert(cache::env_stream(env) =~= hash::framed("env"@) + hash::framed(env[0].0) + hash::framed(
        env[0].1,
    ) + cache::env_stream(rest));
}

proof fn lemma_lead_env(env: Seq<(Seq<char>, Seq<char>)>, rest: Seq<u8>)
    ensures
        lead(cache::env_stream(env) + rest) == (if env.len() > 0 {
            Some(3u64)
        } else {
            lead(rest)
        }),
{
    lemma_tags();
    if env.len() > 0 {
        lemma_env_front(env);
        let more = hash::framed(env[0].0) + hash::framed(env[0].1) + cache::env_stream(
            env.drop_first(),
        ) + rest;
        assert(cache::env_stream(env) + rest =~= hash::framed("env"@) + more);
        lemma_lead_text("env"@, 3, more);
    } else {
        assert(cache::env_stream(env) + rest =~= rest);
    }
}

/// Pairs of short texts.
spec fn short_pairs(env: Seq<(Seq<char>, Seq<char>)>) -> bool {
    forall|k: int|
        0 <= k < env.len() ==> hash::short((#[trigger] env[k]).0) && hash::short(env[k].1)
}

proof fn lemma_env_unique(
    a: Seq<(Seq<char>, Seq<char>)>,
    x: Seq<u8>,
    b: Seq<(Seq<char>, Seq<char>)>,
    y: Seq<u8>,
)
    requires
        short_pairs(a),
        short_pairs(b),
        cache::env_stream(a) + x == cache::env_stream(b) + y,
        lead(x) != Some(3u64),
        lead(y) != Some(3u64),
    ensures
        a == b,
        x == y,
    decreases a.len(),
{
    lemma_tags();
    lemma_lead_env(a, x);
    lemma_lead_env(b, y);
    if a.len() > 0 {
        assert(b.len() > 0);
        lemma_env_front(a);
        lemma_env_front(b);
        lemma_lead_text("env"@, 3, Seq::empty());
        let p = cache::env_stream(a.drop_first()) + x;
        let q = cache::env_stream(b.drop_first()) + y;
        let p1 = hash::framed(a[0].1) + p;
        let q1 = hash::framed(b[0].1) + q;
        lemma_group_four(
            hash::framed("env"@),
            hash::framed(a[0].0),
            hash::framed(a[0].1),
            cache::env_stream(a.drop_first()),
            x,
        );
        lemma_group_four(
            hash::framed("env"@),
            hash::framed(b[0].0),
            hash::framed(b[0].1),
            cache::env_stream(b.drop_first()),
            y,
        );
        hash::law_texts_delimited(
            "env"@,
            hash::framed(a[0].0) + p1,
            "env"@,
            hash::framed(b[0].0) + q1,
        );
        hash::law_texts_delimited(a[0].0, p1, b[0].0, q1);
        hash::law_texts_delimited(a[0].1, p, b[0].1, q);
        assert forall|k: int| 0 <= k < a.drop_first().len() implies hash::short(
            (#[trigger] a.drop_first()[k]).0,
        ) && hash::short(a.drop_first()[k].1) by {
            assert(hash::short(a[k + 1].0));
        }
        assert forall|k: int| 0 <= k < b.drop_first().len() implies hash::short(
            (#[trigger] b.drop_first()[k]).0,
        ) && hash::short(b.drop_first()[k].1) by {
            assert(hash::short(b[k + 1].0));
        }
        lemma_env_unique(a.drop_first(), x, b.drop_first(), y);
        lemma_first_and_rest(a, b);
    } else {
        assert(b.len() == 0);
        assert(a =~= b);
        assert(cache::env_stream(a) + x =~= x);
        assert(cache::env_stream(b) + y =~= y);
    }
}

proof fn lemma_deps_front(keys: Seq<u64>)
    requires
        keys.len() > 0,
    ensures
        cache::deps_stream(keys) == hash::framed("dep"@) + hash::le64(keys[0])
            + cache::deps_stream(keys.drop_first()),
    decreases keys.len(),
{
    let rest = keys.drop_first();
    if keys.len() == 1 {
        assert(keys.drop_last() =~= Seq::empty());
        assert(rest =~= Seq::empty());
    } else {
        lemma_deps_front(keys.drop_last());
        assert(keys.drop_last().drop_first() =~= rest.drop_last());
    }
    assert(cache::deps_stream(keys) =~= hash::framed("dep"@) + hash::le64(keys[0])
        + cache::deps_stream(rest));
}

proof fn lemma_lead_deps(keys: Seq<u64>, rest: Seq<u8>)
    ensures
        lead(cache::deps_stream(keys) + rest) == (if keys.len() > 0 {
            Some(3u64)
        } else {
            lead(rest)
        }),
{
    lemma_tags();
    if keys.len() > 0 {
        lemma_deps_front(keys);
        let more = hash::le64(keys[0]) + cache::deps_stream(keys.drop_first()) + rest;
        assert(cache::deps_stream(keys) + rest =~= hash::framed("dep"@) + more);
        lemma_lead_text("dep"@, 3, more);
    } else {
        assert(cache::deps_stream(keys) + rest =~= rest);
    }
}

proof fn lemma_deps_unique(a: Seq<u64>, x: Seq<u8>, b: Seq<u64>, y: Seq<u8>)
    requires
        cache::deps_stream(a) + x == cache::deps_stream(b) + y,
        lead(x) != Some(3u64),
        lead(y) != Some(3u64),
    ensures
        a == b,
        x == y,
    decreases a.len(),
{
    lemma_tags();
    lemma_lead_deps(a, x);
    lemma_lead_deps(b, y);
    if a.len() > 0 {
        assert(b.len() > 0);
        lemma_deps_front(a);
        lemma_deps_front(b);
        lemma_lead_text("dep"@, 3, Seq::empty());
        let p = cache::deps_stream(a.drop_first()) + x;
        let q = cache::deps_stream(b.drop_first()) + y;
        lemma_group_three(
            hash::framed("dep"@),
            hash::le64(a[0]),
            cache::deps_stream(a.drop_first()),
            x,
        );
        lemma_group_three(
            hash::framed("dep"@),
            hash::le64(b[0]),
            cache::deps_stream(b.drop_first()),
            y,
        );
        hash::law_texts_delimited("dep"@, hash::le64(a[0]) + p, "dep"@, hash::le64(b[0]) + q);
        hash::law_numbers_delimited(a[0], p, b[0], q);
        lemma_deps_unique(a.drop_first(), x, b.drop_first(), y);
        lemma_first_and_rest(a, b);
    } else {
        assert(b.len() == 0);
        assert(a =~= b);
        assert(cache::deps_stream(a) + x =~= x);
        assert(cache::deps_stream(b) + y =~= y);
    }
}

#[verifier::rlimit(30)]
proof fn lemma_inputs_front(items: Seq<(Seq<char>, Seq<u8>)>)
    requires
        items.len() > 0,
    ensures
        cache::inputs_stream(items) == hash::framed("input"@) + hash::framed(items[0].0)
            + hash::le64(items[0].1.len() as u64) + items[0].1 + cache::inputs_stream(
            items.drop_first(),
        ),
    decreases items.len(),
{
    let rest = items.drop_first();
    if items.len() == 1 {
        assert(items.drop_last() =~= Seq::empty());
        assert(rest =~= Seq::empty());
    } else {
        lemma_inputs_front(items.drop_last());
        assert(items.drop_last().drop_first() =~= rest.drop_last());
    }
    assert(cache::inputs_stream(items) =~= hash::framed("input"@) + hash::framed(items[0].0)
        + hash::le64(items[0].1.len() as u64) + items[0].1 + cache::inputs_stream(rest));
}

/// What follows does not begin with an input.
spec fn no_input(s: Seq<u8>) -> bool {
    forall|r: Seq<u8>| s != #[trigger] (hash::framed("input"@) + r)
}

proof fn lemma_lead_inputs(items: Seq<(Seq<char>, Seq<u8>)>, rest: Seq<u8>)
    ensures
        items.len() > 0 ==> !no_input(cache::inputs_stream(items) + rest) && lead(
            cache::inputs_stream(items) + rest,
        ) == Some(5u64),
        items.len() == 0 ==> cache::inputs_stream(items) + rest == rest,
{
    lemma_tags();
    if items.len() > 0 {
        lemma_inputs_front(items);
        let more = hash::framed(items[0].0) + hash::le64(items[0].1.len() as u64) + items[0].1
            + cache::inputs_stream(items.drop_first()) + rest;
        assert(cache::inputs_stream(items) + rest =~= hash::framed("input"@) + more);
        lemma_lead_text("input"@, 5, more);
    } else {
        assert(cache::inputs_stream(items) + rest =~= rest);
    }
}

proof fn lemma_inputs_grouped(items: Seq<(Seq<char>, Seq<u8>)>, x: Seq<u8>)
    requires
        items.len() > 0,
    ensures
        cache::inputs_stream(items) + x == hash::framed("input"@) + (hash::framed(items[0].0) + (
        hash::le64(items[0].1.len() as u64) + items[0].1 + (cache::inputs_stream(
            items.drop_first(),
        ) + x))),
{
    lemma_inputs_front(items);
    let a = hash::framed("input"@);
    let b = hash::framed(items[0].0);
    let c = hash::le64(items[0].1.len() as u64);
    let d = items[0].1;
    let e = cache::inputs_stream(items.drop_first());
    lemma_associates(a + b + c + d, e, x);
    lemma_group_four(a, b, c, d, e + x);
    lemma_associates(c, d, e + x);
}

/// Blobs with short names that are not too long.
spec fn short_blobs(items: Seq<(Seq<char>, Seq<u8>)>) -> bool {
    forall|k: int|
        0 <= k < items.len() ==> hash::short((#[trigger] items[k]).0) && items[k].1.len()
            <= u64::MAX
}

proof fn lemma_inputs_unique(
    a: Seq<(Seq<char>, Seq<u8>)>,
    x: Seq<u8>,
    b: Seq<(Seq<char>, Seq<u8>)>,
    y: Seq<u8>,
)
    requires
        short_blobs(a),
        short_blobs(b),
        cache::inputs_stream(a) + x == cache::inputs_stream(b) + y,
        no_input(x),
        no_input(y),
    ensures
        a == b,
        x == y,
    decreases a.len(),
{
    lemma_tags();
    lemma_lead_inputs(a, x);
    lemma_lead_inputs(b, y);
    if a.len() > 0 {
        assert(b.len() > 0);
        lemma_inputs_front(a);
        lemma_inputs_front(b);
        lemma_lead_text("input"@, 5, Seq::empty());
        let p = cache::inputs_stream(a.drop_first()) + x;
        let q = cache::inputs_stream(b.drop_first()) + y;
        let p1 = hash::le64(a[0].1.len() as u64) + a[0].1 + p;
        let q1 = hash::le64(b[0].1.len() as u64) + b[0].1 + q;
        lemma_inputs_grouped(a, x);
        lemma_inputs_grouped(b, y);
        hash::law_texts_delimited(
            "input"@,
            hash::framed(a[0].0) + p1,
            "input"@,
            hash::framed(b[0].0) + q1,
        );
        hash::law_texts_delimited(a[0].0, p1, b[0].0, q1);
        hash::law_blobs_delimited(a[0].1, p, b[0].1, q);
        assert forall|k: int| 0 <= k < a.drop_first().len() implies hash::short(
            (#[trigger] a.drop_first()[k]).0,
        ) && a.drop_first()[k].1.len() <= u64::MAX by {
            assert(hash::short(a[k + 1].0));
        }
        assert forall|k: int| 0 <= k < b.drop_first().len() implies hash::short(
            (#[trigger] b.drop_first()[k]).0,
        ) && b.drop_first()[k].1.len() <= u64::MAX by {
            assert(hash::short(b[k + 1].0));
        }
        lemma_inputs_unique(a.drop_first(), x, b.drop_first(), y);
        lemma_first_and_rest(a, b);
    } else {
        assert(b.len() == 0);
        assert(a =~= b);
    }
}

/// The entries from `k` on.
spec fn listing(entries: Seq<DirEntry>, k: int) -> Seq<u8>
    decreases entries.len() - k,
{
    if k >= entries.len() {
        Seq::empty()
    } else {
        hash::framed(content::lossy_text(entries[k].name@)) + content::content_stream(
            entries[k].content,
        ) + listing(entries, k + 1)
    }
}

proof fn lemma_listing(entries: Seq<DirEntry>, k: int)
    requires
        0 <= k <= entries.len(),
    ensures
        content::entries_stream(entries, entries.len() as int) == content::entries_stream(
            entries,
            k,
        ) + listing(entries, k),
    decreases entries.len() - k,
{
    let all = content::entries_stream(entries, entries.len() as int);
    let front = content::entries_stream(entries, k);
    if k < entries.len() {
        lemma_listing(entries, k + 1);
        assert(all =~= front + listing(entries, k));
    } else {
        assert(all =~= front + listing(entries, k));
    }
}

proof fn lemma_comparable_at(x: Seq<DirEntry>, y: Seq<DirEntry>, n: int, k: int)
    requires
        comparable_entries(x, y, n),
        0 <= k < n <= x.len(),
    ensures
        hash::short(content::lossy_text(x[k].name@)),
        hash::short(content::lossy_text(y[k].name@)),
        comparable(x[k].content, y[k].content),
    decreases n,
{
    if k < n - 1 {
        lemma_comparable_at(x, y, n - 1, k);
    }
}

proof fn lemma_listing_unique(
    a: Seq<DirEntry>,
    x: Seq<u8>,
    b: Seq<DirEntry>,
    y: Seq<u8>,
    k: int,
)
    requires
        0 <= k <= a.len() == b.len(),
        comparable_entries(a, b, a.len() as int),
        listing(a, k) + x == listing(b, k) + y,
    ensures
        listing(a, k) == listing(b, k),
        x == y,
    decreases a, a.len() - k,
{
    if k < a.len() {
        lemma_comparable_at(a, b, a.len() as int, k);
        let n = content::lossy_text(a[k].name@);
        let m = content::lossy_text(b[k].name@);
        let c = content::content_stream(a[k].content);
        let d = content::content_stream(b[k].content);
        let s = listing(a, k + 1) + x;
        let t = listing(b, k + 1) + y;
        assert(listing(a, k) + x =~= hash::framed(n) + (c + s));
        assert(listing(b, k) + y =~= hash::framed(m) + (d + t));
        hash::law_texts_delimited(n, c + s, m, d + t);
        law_content_delimited(a[k].content, s, b[k].content, t);
        lemma_listing_unique(a, x, b, y, k + 1);
    } else {
        assert(listing(a, k) + x =~= x);
        assert(listing(b, k) + y =~= y);
    }
}

/// What stands at a path is told from what follows it.
pub proof fn law_content_delimited(c: PathContent, x: Seq<u8>, d: PathContent, y: Seq<u8>)
    requires
        comparable(c, d),
        content::content_stream(c) + x == content::content_stream(d) + y,
    ensures
        content::content_stream(c) == content::content_stream(d),
        x == y,
        (c, d) matches (PathContent::File(u), PathContent::File(v)) ==> u@ == v@,
    decreases c, 0int,
{
    lemma_tags();
    lemma_lead_content(c, x);
    lemma_lead_content(d, y);
    match (c, d) {
        (PathContent::File(u), PathContent::File(v)) => {
            let p = hash::le64(u@.len() as u64) + u@ + x;
            let q = hash::le64(v@.len() as u64) + v@ + y;
            assert(content::content_stream(c) + x =~= hash::framed("file"@) + p);
            assert(content::content_stream(d) + y =~= hash::framed("file"@) + q);
            lemma_lead_text("file"@, 4, Seq::empty());
            hash::law_texts_delimited("file"@, p, "file"@, q);
            hash::law_blobs_delimited(u@, x, v@, y);
        },
        (PathContent::Dir(a), PathContent::Dir(b)) => {
            lemma_listing(a@, 0);
            lemma_listing(b@, 0);
            let p = listing(a@, 0);
            let q = listing(b@, 0);
            assert(content::entries_stream(a@, a@.len() as int) =~= p);
            assert(content::entries_stream(b@, b@.len() as int) =~= q);
            assert(content::content_stream(c) + x =~= hash::framed("dir"@) + (p + x));
            assert(content::content_stream(d) + y =~= hash::framed("dir"@) + (q + y));
            lemma_lead_text("dir"@, 3, Seq::empty());
            hash::law_texts_delimited("dir"@, p + x, "dir"@, q + y);
            lemma_listing_unique(a@, x, b@, y, 0);
        },
        _ => {
            let s = content::content_stream(c);
            assert(s == content::content_stream(d));
            assert((s + x).skip(s.len() as int) =~= x);
            assert((s + y).skip(s.len() as int) =~= y);
        },
    }
}

proof fn lemma_lead_content(c: PathContent, x: Seq<u8>)
    ensures
        lead(content::content_stream(c) + x) == Some(
            match c {
                PathContent::File(_) => 4u64,
                PathContent::Unreadable => 10u64,
                PathContent::Dir(_) => 3u64,
                PathContent::UnreadableDir => 3u64,
                PathContent::Missing => 7u64,
            },
        ),
{
    lemma_tags();
    let s = content::content_stream(c) + x;
    match c {
        PathContent::File(bytes) => {
            let more = hash::le64(bytes@.len() as u64) + bytes@ + x;
            assert(s =~= hash::framed("file"@) + more);
            lemma_lead_text("file"@, 4, more);
        },
        PathContent::Unreadable => {
            lemma_lead_text("unreadable"@, 10, x);
        },
        PathContent::UnreadableDir => {
            assert(s =~= hash::framed("dir"@) + (hash::framed("unreadable"@) + x));
            lemma_lead_text("dir"@, 3, hash::framed("unreadable"@) + x);
        },
        PathContent::Missing => {
            lemma_lead_text("missing"@, 7, x);
        },
        PathContent::Dir(entries) => {
            let more = content::entries_stream(entries@, entries@.len() as int) + x;
            assert(s =~= hash::framed("dir"@) + more);
            lemma_lead_text("dir"@, 3, more);
        },
    }
}

/// The paths from `k` on, with their contents.
spec fn tail_stream(paths: Seq<Seq<char>>, contents: Seq<PathContent>, k: int) -> Seq<u8>
    decreases paths.len() - k,
{
    if k >= paths.len() {
        Seq::empty()
    } else {
        hash::framed("path"@) + hash::framed(paths[k]) + content::content_stream(
            cache::content_at(paths, contents, k),
        ) + tail_stream(paths, contents, k + 1)
    }
}

proof fn lemma_tail_stream(paths: Seq<Seq<char>>, contents: Seq<PathContent>, k: int)
    requires
        0 <= k <= paths.len(),
    ensures
        cache::paths_stream(paths, contents, paths.len() as int) == cache::paths_stream(
            paths,
            contents,
            k,
        ) + tail_stream(paths, contents, k),
    decreases paths.len() - k,
{
    let all = cache::paths_stream(paths, contents, paths.len() as int);
    let front = cache::paths_stream(paths, contents, k);
    if k < paths.len() {
        lemma_tail_stream(paths, contents, k + 1);
        assert(all =~= front + tail_stream(paths, contents, k));
    } else {
        assert(all =~= front + tail_stream(paths, contents, k));
    }
}

proof fn lemma_lead_tail(paths: Seq<Seq<char>>, contents: Seq<PathContent>, k: int)
    requires
        0 <= k <= paths.len(),
    ensures
        lead(tail_stream(paths, contents, k)) == (if k < paths.len() {
            Some(4u64)
        } else {
            None
        }),
{
    lemma_tags();
    if k < paths.len() {
        let more = hash::framed(paths[k]) + content::content_stream(
            cache::content_at(paths, contents, k),
        ) + tail_stream(paths, contents, k + 1);
        assert(tail_stream(paths, contents, k) =~= hash::framed("path"@) + more);
        lemma_lead_text("path"@, 4, more);
    }
}

/// What is taken in for the paths can be told apart, path by path.
pub open spec fn all_comparable(
    p: Seq<Seq<char>>,
    x: Seq<PathContent>,
    q: Seq<Seq<char>>,
    y: Seq<PathContent>,
) -> bool {
    forall|k: int|
        0 <= k < p.len() && k < q.len() ==> comparable(
            #[trigger] cache::content_at(p, x, k),
            cache::content_at(q, y, k),
        )
}

/// The same is taken in for every path.
pub open spec fn same_contents(
    paths: Seq<Seq<char>>,
    x: Seq<PathContent>,
    y: Seq<PathContent>,
) -> bool {
    forall|k: int|
        0 <= k < paths.len() ==> content::content_stream(#[trigger] cache::content_at(paths, x, k))
            == content::content_stream(cache::content_at(paths, y, k))
}

proof fn lemma_tail_unique(
    p: Seq<Seq<char>>,
    x: Seq<PathContent>,
    q: Seq<Seq<char>>,
    y: Seq<PathContent>,
    k: int,
)
    requires
        0 <= k <= p.len(),
        k <= q.len(),
        all_short(p),
        all_short(q),
        all_comparable(p, x, q, y),
        tail_stream(p, x, k) == tail_stream(q, y, k),
    ensures
        p.len() == q.len(),
        forall|j: int|
            k <= j < p.len() ==> #[trigger] p[j] == q[j] && content::content_stream(
                cache::content_at(p, x, j),
            ) == content::content_stream(cache::content_at(q, y, j)),
    decreases p.len() - k,
{
    lemma_tags();
    lemma_lead_tail(p, x, k);
    lemma_lead_tail(q, y, k);
    if k < p.len() {
        let c = cache::content_at(p, x, k);
        let d = cache::content_at(q, y, k);
        let s = content::content_stream(c) + tail_stream(p, x, k + 1);
        let t = content::content_stream(d) + tail_stream(q, y, k + 1);
        assert(tail_stream(p, x, k) =~= hash::framed("path"@) + (hash::framed(p[k]) + s));
        assert(tail_stream(q, y, k) =~= hash::framed("path"@) + (hash::framed(q[k]) + t));
        lemma_lead_text("path"@, 4, Seq::empty());
        hash::law_texts_delimited(
            "path"@,
            hash::framed(p[k]) + s,
            "path"@,
            hash::framed(q[k]) + t,
        );
        hash::law_texts_delimited(p[k], s, q[k], t);
        assert(comparable(c, d));
        law_content_delimited(c, tail_stream(p, x, k + 1), d, tail_stream(q, y, k + 1));
        lemma_tail_unique(p, x, q, y, k + 1);
    }
}

/// What follows the artifacts in the bytes of a key.
spec fn after_inputs(job: JobView, contents: Seq<PathContent>) -> Seq<u8> {
    cache::label_stream(label_of(job)) + tail_stream(cache::declared(job), contents, 0)
}

proof fn lemma_after_inputs(job: JobView, contents: Seq<PathContent>)
    ensures
        cache::cache_stream(job, contents) == after_inputs(job, contents),
        no_input(after_inputs(job, contents)),
        lead(after_inputs(job, contents)) == (if label_of(job) is Some {
            Some(5u64)
        } else if cache::declared(job).len() > 0 {
            Some(4u64)
        } else {
            None
        }),
{
    lemma_tags();
    let paths = cache::declared(job);
    let tail = tail_stream(paths, contents, 0);
    let all = after_inputs(job, contents);
    lemma_tail_stream(paths, contents, 0);
    lemma_lead_tail(paths, contents, 0);
    assert(cache::paths_stream(paths, contents, 0) + tail =~= tail);
    lemma_lead_text("input"@, 5, Seq::empty());
    match label_of(job) {
        Some(l) => {
            let more = hash::framed(l) + tail;
            assert(all =~= hash::framed("label"@) + more);
            lemma_lead_text("label"@, 5, more);
            assert forall|r: Seq<u8>| all != #[trigger] (hash::framed("input"@) + r) by {
                if all == hash::framed("input"@) + r {
                    hash::law_texts_delimited("label"@, more, "input"@, r);
                }
            }
        },
        None => {
            assert(all =~= tail);
            assert forall|r: Seq<u8>| all != #[trigger] (hash::framed("input"@) + r) by {
                lemma_lead_text("input"@, 5, r);
            }
        },
    }
    assert(cache::cache_stream(job, contents) =~= all);
}

/// What follows the time limit in the bytes of a key.
spec fn after_timeout(
    job: JobView,
    contents: Seq<PathContent>,
    inputs: Seq<(Seq<char>, Seq<u8>)>,
    keys: Seq<u64>,
) -> Seq<u8> {
    cache::deps_stream(keys) + (cache::inputs_stream(inputs) + after_inputs(job, contents))
}

/// What follows the needs in the bytes of a key.
spec fn after_needs(
    job: JobView,
    contents: Seq<PathContent>,
    inputs: Seq<(Seq<char>, Seq<u8>)>,
    keys: Seq<u64>,
) -> Seq<u8> {
    hash::le64(cache::flag(job.continue_on_error)) + (cache::timeout_stream(job.timeout)
        + after_timeout(job, contents, inputs, keys))
}

proof fn lemma_after_timeout(
    job: JobView,
    contents: Seq<PathContent>,
    inputs: Seq<(Seq<char>, Seq<u8>)>,
    keys: Seq<u64>,
)
    ensures
        lead(after_timeout(job, contents, inputs, keys)) != Some(7u64),
        lead(cache::inputs_stream(inputs) + after_inputs(job, contents)) != Some(3u64),
{
    lemma_after_inputs(job, contents);
    lemma_lead_inputs(inputs, after_inputs(job, contents));
    lemma_lead_deps(keys, cache::inputs_stream(inputs) + after_inputs(job, contents));
}

/// The bytes of a key, piece by piece.
proof fn lemma_regrouped(
    job: JobView,
    contents: Seq<PathContent>,
    inputs: Seq<(Seq<char>, Seq<u8>)>,
    keys: Seq<u64>,
)
    ensures
        cache::key_stream(job, contents, inputs, keys) == hash::framed("relay-cache-v1"@) + (
        hash::framed(job.name) + (cache::tagged("step"@, job.steps) + (cache::env_stream(job.env)
            + (cache::tagged("needs"@, job.needs) + after_needs(job, contents, inputs, keys))))),
{
    lemma_after_inputs(job, contents);
    lemma_regroup(
        hash::framed("relay-cache-v1"@),
        hash::framed(job.name),
        cache::tagged("step"@, job.steps),
        cache::env_stream(job.env),
        cache::tagged("needs"@, job.needs),
        hash::le64(cache::flag(job.continue_on_error)),
        cache::timeout_stream(job.timeout),
        cache::deps_stream(keys),
        cache::inputs_stream(inputs),
        after_inputs(job, contents),
    );
}

proof fn lemma_regroup(
    a: Seq<u8>,
    b: Seq<u8>,
    c: Seq<u8>,
    d: Seq<u8>,
    e: Seq<u8>,
    f: Seq<u8>,
    g: Seq<u8>,
    h: Seq<u8>,
    i: Seq<u8>,
    j: Seq<u8>,
)
    ensures
        a + b + c + d + e + f + g + h + i + j == a + (b + (c + (d + (e + (f + (g + (h + (i
            + j)))))))),
{
    lemma_associates(a + b + c + d + e + f + g + h, i, j);
    let t = i + j;
    lemma_associates(a + b + c + d + e + f + g, h, t);
    let t = h + t;
    lemma_associates(a + b + c + d + e + f, g, t);
    let t = g + t;
    lemma_associates(a + b + c + d + e, f, t);
    let t = f + t;
    lemma_associates(a + b + c + d, e, t);
    let t = e + t;
    lemma_associates(a + b + c, d, t);
    let t = d + t;
    lemma_associates(a + b, c, t);
    let t = c + t;
    lemma_associates(a, b, t);
}

/// Everything that decides a key but the declared paths is the same.
pub open spec fn same_config(
    j1: JobView,
    i1: Seq<(Seq<char>, Seq<u8>)>,
    k1: Seq<u64>,
    j2: JobView,
    i2: Seq<(Seq<char>, Seq<u8>)>,
    k2: Seq<u64>,
) -> bool {
    &&& j1.name == j2.name
    &&& j1.steps == j2.steps
    &&& j1.env == j2.env
    &&& j1.needs == j2.needs
    &&& j1.continue_on_error == j2.continue_on_error
    &&& j1.timeout == j2.timeout
    &&& k1 == k2
    &&& i1 == i2
    &&& label_of(j1) == label_of(j2)
}

proof fn lemma_timeout_unique(a: Option<Duration>, x: Seq<u8>, b: Option<Duration>, y: Seq<u8>)
    requires
        cache::timeout_stream(a) + x == cache::timeout_stream(b) + y,
        lead(x) != Some(7u64),
        lead(y) != Some(7u64),
    ensures
        a == b,
        x == y,
{
    lemma_tags();
    lemma_lead_timeout(a, x);
    lemma_lead_timeout(b, y);
    match (a, b) {
        (Some(d), Some(e)) => {
            let p = hash::le64(d.nanos as u64) + x;
            let q = hash::le64(e.nanos as u64) + y;
            assert(cache::timeout_stream(a) + x =~= hash::framed("timeout"@) + (hash::le64(d.secs)
                + p));
            assert(cache::timeout_stream(b) + y =~= hash::framed("timeout"@) + (hash::le64(e.secs)
                + q));
            lemma_lead_text("timeout"@, 7, Seq::empty());
            hash::law_texts_delimited(
                "timeout"@,
                hash::le64(d.secs) + p,
                "timeout"@,
                hash::le64(e.secs) + q,
            );
            hash::law_numbers_delimited(d.secs, p, e.secs, q);
            hash::law_numbers_delimited(d.nanos as u64, x, e.nanos as u64, y);
        },
        _ => {},
    }
}

proof fn lemma_lead_timeout(a: Option<Duration>, x: Seq<u8>)
    ensures
        a is Some ==> lead(cache::timeout_stream(a) + x) == Some(7u64),
        a is None ==> cache::timeout_stream(a) + x == x,
{
    lemma_tags();
    match a {
        Some(d) => {
            let more = hash::le64(d.secs) + hash::le64(d.nanos as u64) + x;
            assert(cache::timeout_stream(a) + x =~= hash::framed("timeout"@) + more);
            lemma_lead_text("timeout"@, 7, more);
        },
        None => {
            assert(cache::timeout_stream(a) + x =~= x);
        },
    }
}

proof fn lemma_after_inputs_unique(
    j1: JobView,
    c1: Seq<PathContent>,
    j2: JobView,
    c2: Seq<PathContent>,
)
    requires
        label_of(j1) matches Some(l) ==> hash::short(l),
        label_of(j2) matches Some(l) ==> hash::short(l),
        after_inputs(j1, c1) == after_inputs(j2, c2),
    ensures
        label_of(j1) == label_of(j2),
        tail_stream(cache::declared(j1), c1, 0) == tail_stream(cache::declared(j2), c2, 0),
{
    lemma_tags();
    lemma_after_inputs(j1, c1);
    lemma_after_inputs(j2, c2);
    let p = cache::declared(j1);
    let q = cache::declared(j2);
    let s = tail_stream(p, c1, 0);
    let t = tail_stream(q, c2, 0);
    match (label_of(j1), label_of(j2)) {
        (Some(l), Some(m)) => {
            assert(after_inputs(j1, c1) =~= hash::framed("label"@) + (hash::framed(l) + s));
            assert(after_inputs(j2, c2) =~= hash::framed("label"@) + (hash::framed(m) + t));
            lemma_lead_text("label"@, 5, Seq::empty());
            hash::law_texts_delimited(
                "label"@,
                hash::framed(l) + s,
                "label"@,
                hash::framed(m) + t,
            );
            hash::law_texts_delimited(l, s, m, t);
        },
        _ => {
            assert(label_of(j1) is None && label_of(j2) is None);
            assert(after_inputs(j1, c1) =~= s);
            assert(after_inputs(j2, c2) =~= t);
        },
    }
}

proof fn lemma_after_needs_unique(
    j1: JobView,
    c1: Seq<PathContent>,
    i1: Seq<(Seq<char>, Seq<u8>)>,
    k1: Seq<u64>,
    j2: JobView,
    c2: Seq<PathContent>,
    i2: Seq<(Seq<char>, Seq<u8>)>,
    k2: Seq<u64>,
)
    requires
        writable(j1, i1),
        writable(j2, i2),
        after_needs(j1, c1, i1, k1) == after_needs(j2, c2, i2, k2),
    ensures
        j1.continue_on_error == j2.continue_on_error,
        j1.timeout == j2.timeout,
        k1 == k2,
        i1 == i2,
        label_of(j1) == label_of(j2),
        tail_stream(cache::declared(j1), c1, 0) == tail_stream(cache::declared(j2), c2, 0),
{
    let x = after_timeout(j1, c1, i1, k1);
    let y = after_timeout(j2, c2, i2, k2);
    hash::law_numbers_delimited(
        cache::flag(j1.continue_on_error),
        cache::timeout_stream(j1.timeout) + x,
        cache::flag(j2.continue_on_error),
        cache::timeout_stream(j2.timeout) + y,
    );
    lemma_after_timeout(j1, c1, i1, k1);
    lemma_after_timeout(j2, c2, i2, k2);
    lemma_timeout_unique(j1.timeout, x, j2.timeout, y);
    lemma_deps_unique(
        k1,
        cache::inputs_stream(i1) + after_inputs(j1, c1),
        k2,
        cache::inputs_stream(i2) + after_inputs(j2, c2),
    );
    lemma_after_inputs(j1, c1);
    lemma_after_inputs(j2, c2);
    lemma_inputs_unique(i1, after_inputs(j1, c1), i2, after_inputs(j2, c2));
    lemma_after_inputs_unique(j1, c1, j2, c2);
}

proof fn lemma_lead_after_needs(
    job: JobView,
    contents: Seq<PathContent>,
    inputs: Seq<(Seq<char>, Seq<u8>)>,
    keys: Seq<u64>,
)
    ensures
        lead(after_needs(job, contents, inputs, keys)) == Some(
            cache::flag(job.continue_on_error),
        ),
{
    lemma_lead(
        cache::flag(job.continue_on_error),
        cache::timeout_stream(job.timeout) + after_timeout(job, contents, inputs, keys),
    );
}

/// Two jobs whose config, dependencies or handed-down artifacts differ are hashed
/// from different bytes, whatever stands at their declared paths.
pub proof fn law_config_told_apart(
    j1: JobView,
    c1: Seq<PathContent>,
    i1: Seq<(Seq<char>, Seq<u8>)>,
    k1: Seq<u64>,
    j2: JobView,
    c2: Seq<PathContent>,
    i2: Seq<(Seq<char>, Seq<u8>)>,
    k2: Seq<u64>,
)
    requires
        writable(j1, i1),
        writable(j2, i2),
        cache::key_stream(j1, c1, i1, k1) == cache::key_stream(j2, c2, i2, k2),
    ensures
        same_config(j1, i1, k1, j2, i2, k2),
{
    lemma_config_unique(j1, c1, i1, k1, j2, c2, i2, k2);
}

proof fn lemma_config_unique(
    j1: JobView,
    c1: Seq<PathContent>,
    i1: Seq<(Seq<char>, Seq<u8>)>,
    k1: Seq<u64>,
    j2: JobView,
    c2: Seq<PathContent>,
    i2: Seq<(Seq<char>, Seq<u8>)>,
    k2: Seq<u64>,
)
    requires
        writable(j1, i1),
        writable(j2, i2),
        cache::key_stream(j1, c1, i1, k1) == cache::key_stream(j2, c2, i2, k2),
    ensures
        same_config(j1, i1, k1, j2, i2, k2),
        tail_stream(cache::declared(j1), c1, 0) == tail_stream(cache::declared(j2), c2, 0),
{
    lemma_tags();
    lemma_regrouped(j1, c1, i1, k1);
    lemma_regrouped(j2, c2, i2, k2);
    let r1 = after_needs(j1, c1, i1, k1);
    let r2 = after_needs(j2, c2, i2, k2);
    let n1 = cache::tagged("needs"@, j1.needs) + r1;
    let n2 = cache::tagged("needs"@, j2.needs) + r2;
    let e1 = cache::env_stream(j1.env) + n1;
    let e2 = cache::env_stream(j2.env) + n2;
    let s1 = cache::tagged("step"@, j1.steps) + e1;
    let s2 = cache::tagged("step"@, j2.steps) + e2;
    lemma_lead_text("relay-cache-v1"@, 14, Seq::empty());
    hash::law_texts_delimited(
        "relay-cache-v1"@,
        hash::framed(j1.name) + s1,
        "relay-cache-v1"@,
        hash::framed(j2.name) + s2,
    );
    hash::law_texts_delimited(j1.name, s1, j2.name, s2);
    lemma_lead_after_needs(j1, c1, i1, k1);
    lemma_lead_after_needs(j2, c2, i2, k2);
    lemma_lead_tagged("needs"@, 5, j1.needs, r1);
    lemma_lead_tagged("needs"@, 5, j2.needs, r2);
    lemma_lead_env(j1.env, n1);
    lemma_lead_env(j2.env, n2);
    lemma_tagged_unique("step"@, 4, j1.steps, e1, j2.steps, e2);
    lemma_env_unique(j1.env, n1, j2.env, n2);
    lemma_tagged_unique("needs"@, 5, j1.needs, r1, j2.needs, r2);
    lemma_after_needs_unique(j1, c1, i1, k1, j2, c2, i2, k2);
}

/// Whatever decides a key is written so that it can be told apart: when the declared
/// paths or what stands at them differ, the bytes that are hashed differ too, as long
/// as directories at the same place list as many entries.
pub proof fn law_inputs_told_apart(
    j1: JobView,
    c1: Seq<PathContent>,
    i1: Seq<(Seq<char>, Seq<u8>)>,
    k1: Seq<u64>,
    j2: JobView,
    c2: Seq<PathContent>,
    i2: Seq<(Seq<char>, Seq<u8>)>,
    k2: Seq<u64>,
)
    requires
        writable(j1, i1),
        writable(j2, i2),
        all_comparable(cache::declared(j1), c1, cache::declared(j2), c2),
        cache::key_stream(j1, c1, i1, k1) == cache::key_stream(j2, c2, i2, k2),
    ensures
        cache::declared(j1) == cache::declared(j2),
        same_contents(cache::declared(j1), c1, c2),
        forall|k: int|
            0 <= k < cache::declared(j1).len() ==> reads_alike(
                #[trigger] cache::content_at(cache::declared(j1), c1, k),
                cache::content_at(cache::declared(j2), c2, k),
            ),
{
    lemma_config_unique(j1, c1, i1, k1, j2, c2, i2, k2);
    lemma_tail_unique(cache::declared(j1), c1, cache::declared(j2), c2, 0);
    assert(cache::declared(j1) =~= cache::declared(j2));
    let paths = cache::declared(j1);
    assert forall|k: int| 0 <= k < paths.len() implies reads_alike(
        #[trigger] cache::content_at(paths, c1, k),
        cache::content_at(cache::declared(j2), c2, k),
    ) by {
        law_equal_streams_read_alike(
            cache::content_at(paths, c1, k),
            cache::content_at(paths, c2, k),
        );
    }
}

/// The first `n` entries have names that read as the same text, and contents that read
/// alike.
pub open spec fn entries_alike(x: Seq<DirEntry>, y: Seq<DirEntry>, n: int) -> bool
    decreases x, n,
{
    n <= 0 || n > x.len() || {
        &&& content::lossy_text(x[n - 1].name@) == content::lossy_text(y[n - 1].name@)
        &&& reads_alike(x[n - 1].content, y[n - 1].content)
        &&& entries_alike(x, y, n - 1)
    }
}

/// The same stands there: files with the same bytes, directories with as many entries
/// of the same names and contents, or the same kind of nothing.
pub open spec fn reads_alike(c: PathContent, d: PathContent) -> bool
    decreases c, 0int,
{
    match (c, d) {
        (PathContent::File(u), PathContent::File(v)) => u@ == v@,
        (PathContent::Dir(x), PathContent::Dir(y)) => x@.len() == y@.len() && entries_alike(
            x@,
            y@,
            x@.len() as int,
        ),
        (PathContent::Unreadable, PathContent::Unreadable) => true,
        (PathContent::UnreadableDir, PathContent::UnreadableDir) => true,
        (PathContent::Missing, PathContent::Missing) => true,
        _ => false,
    }
}

proof fn lemma_listing_alike(a: Seq<DirEntry>, b: Seq<DirEntry>, k: int)
    requires
        0 <= k <= a.len() == b.len(),
        comparable_entries(a, b, a.len() as int),
        listing(a, k) == listing(b, k),
    ensures
        forall|m: int|
            k <= m < a.len() ==> content::lossy_text((#[trigger] a[m]).name@)
                == content::lossy_text(b[m].name@) && reads_alike(a[m].content, b[m].content),
    decreases a, a.len() - k,
{
    if k < a.len() {
        lemma_comparable_at(a, b, a.len() as int, k);
        let n = content::lossy_text(a[k].name@);
        let m = content::lossy_text(b[k].name@);
        let c = content::content_stream(a[k].content);
        let d = content::content_stream(b[k].content);
        let s = listing(a, k + 1);
        let t = listing(b, k + 1);
        assert(listing(a, k) =~= hash::framed(n) + (c + s));
        assert(listing(b, k) =~= hash::framed(m) + (d + t));
        hash::law_texts_delimited(n, c + s, m, d + t);
        law_content_delimited(a[k].content, s, b[k].content, t);
        law_equal_streams_read_alike(a[k].content, b[k].content);
        lemma_listing_alike(a, b, k + 1);
    }
}

proof fn lemma_entries_alike(a: Seq<DirEntry>, b: Seq<DirEntry>, n: int)
    requires
        n <= a.len(),
        forall|m: int|
            0 <= m < n ==> content::lossy_text((#[trigger] a[m]).name@) == content::lossy_text(
                b[m].name@,
            ) && reads_alike(a[m].content, b[m].content),
    ensures
        entries_alike(a, b, n),
    decreases n,
{
    if n > 0 {
        lemma_entries_alike(a, b, n - 1);
        assert(reads_alike(a[n - 1].content, b[n - 1].content));
    }
}

/// What is hashed alike reads alike, as far as it is comparable: files have the same
/// bytes; directories have entries of the same names, with contents that read alike;
/// and what is missing or cannot be read is told from what is there.
pub proof fn law_equal_streams_read_alike(c: PathContent, d: PathContent)
    requires
        comparable(c, d),
        content::content_stream(c) == content::content_stream(d),
    ensures
        reads_alike(c, d),
    decreases c, 0int,
{
    let e = Seq::<u8>::empty();
    assert(content::content_stream(c) + e =~= content::content_stream(c));
    assert(content::content_stream(d) + e =~= content::content_stream(d));
    lemma_lead_content(c, e);
    lemma_lead_content(d, e);
    law_content_delimited(c, e, d, e);
    match (c, d) {
        (PathContent::Dir(a), PathContent::Dir(b)) => {
            lemma_tags();
            lemma_listing(a@, 0);
            lemma_listing(b@, 0);
            let p = listing(a@, 0);
            let q = listing(b@, 0);
            assert(content::entries_stream(a@, a@.len() as int) =~= p);
            assert(content::entries_stream(b@, b@.len() as int) =~= q);
            lemma_lead_text("dir"@, 3, e);
            hash::law_texts_delimited("dir"@, p, "dir"@, q);
            lemma_listing_alike(a@, b@, 0);
            lemma_entries_alike(a@, b@, a@.len() as int);
        },
        _ => {},
    }
}

/// Directories that are hashed alike list the same names: entry by entry, as far as
/// they list as many comparable ones.
pub proof fn law_entry_names_told_apart(x: Vec<DirEntry>, y: Vec<DirEntry>, k: int)
    requires
        comparable(PathContent::Dir(x), PathContent::Dir(y)),
        content::content_stream(PathContent::Dir(x)) == content::content_stream(
            PathContent::Dir(y),
        ),
        0 <= k < x@.len(),
    ensures
        content::lossy_text(x@[k].name@) == content::lossy_text(y@[k].name@),
        reads_alike(x@[k].content, y@[k].content),
{
    law_equal_streams_read_alike(PathContent::Dir(x), PathContent::Dir(y));
    lemma_alike_at(x@, y@, x@.len() as int, k);
}

proof fn lemma_alike_at(a: Seq<DirEntry>, b: Seq<DirEntry>, n: int, k: int)
    requires
        entries_alike(a, b, n),
        0 <= k < n <= a.len(),
    ensures
        content::lossy_text(a[k].name@) == content::lossy_text(b[k].name@),
        reads_alike(a[k].content, b[k].content),
    decreases n,
{
    if k < n - 1 {
        lemma_alike_at(a, b, n - 1, k);
    }
}

proof fn lemma_renamed_entries(x: Seq<DirEntry>, y: Seq<DirEntry>, k: int, n: int)
    requires
        x.len() == y.len(),
        0 <= k < n <= x.len(),
        forall|j: int|
            0 <= j < x.len() && j != k ==> (#[trigger] x[j]).name@ == y[j].name@,
        forall|j: int|
            0 <= j < x.len() ==> content::content_stream((#[trigger] x[j]).content)
                == content::content_stream(y[j].content),
        texts_apart(content::lossy_text(x[k].name@), content::lossy_text(y[k].name@)),
    ensures
        one_byte_apart(content::entries_stream(x, n), content::entries_stream(y, n)),
    decreases n,
{
    assert(content::content_stream(x[n - 1].content) == content::content_stream(
        y[n - 1].content,
    ));
    let body = content::content_stream(x[n - 1].content);
    let a = hash::framed(content::lossy_text(x[n - 1].name@));
    let b = hash::framed(content::lossy_text(y[n - 1].name@));
    let u = content::entries_stream(x, n - 1);
    let v = content::entries_stream(y, n - 1);
    if n == k + 1 {
        assert forall|j: int| 0 <= j < k implies (#[trigger] x[j]).name@ == y[j].name@
            && content::content_stream(x[j].content) == content::content_stream(y[j].content) by {}
        lemma_same_entries(x, y, k);
        law_changed_text(content::lossy_text(x[k].name@), content::lossy_text(y[k].name@));
        lemma_apart_after(u, a, b);
        lemma_apart_before(u + a, v + b, body);
    } else {
        lemma_renamed_entries(x, y, k, n - 1);
        assert(x[n - 1].name@ == y[n - 1].name@);
        lemma_apart_before(u, v, a);
        lemma_apart_before(u + a, v + b, body);
    }
}

/// A changed byte of the name of an entry is a changed byte of what is hashed, so that
/// renaming a file below a declared path changes the key.
pub proof fn law_changed_name(x: Vec<DirEntry>, y: Vec<DirEntry>, k: int)
    requires
        x@.len() == y@.len(),
        0 <= k < x@.len(),
        forall|j: int|
            0 <= j < x@.len() && j != k ==> (#[trigger] x@[j]).name@ == y@[j].name@,
        forall|j: int|
            0 <= j < x@.len() ==> content::content_stream((#[trigger] x@[j]).content)
                == content::content_stream(y@[j].content),
        vstd::utf8::valid_utf8(x@[k].name@),
        vstd::utf8::valid_utf8(y@[k].name@),
        one_byte_apart(x@[k].name@, y@[k].name@),
    ensures
        one_byte_apart(
            content::content_stream(PathContent::Dir(x)),
            content::content_stream(PathContent::Dir(y)),
        ),
{
    vstd::utf8::decode_utf8_encode_utf8(x@[k].name@);
    vstd::utf8::decode_utf8_encode_utf8(y@[k].name@);
    let n = x@.len() as int;
    lemma_renamed_entries(x@, y@, k, n);
    lemma_apart_after(
        hash::framed("dir"@),
        content::entries_stream(x@, n),
        content::entries_stream(y@, n),
    );
}

/// The declared paths of a job are those of its cache block, each as often as it is
/// listed there, in ascending order. Without a cache block there are none.
pub proof fn law_declared_paths(job: JobView)
    ensures
        job.cache is None ==> cache::declared(job).len() == 0,
        job.cache matches Some(c) ==> {
            let paths = cache::declared(job);
            &&& paths.len() == c.paths.len()
            &&& paths.to_multiset() =~= c.paths.to_multiset()
            &&& forall|a: int, b: int|
                0 <= a < b < paths.len() ==> !order::text_lt(
                    #[trigger] paths[b],
                    #[trigger] paths[a],
                )
        },
{
    if let Some(c) = job.cache {
        order::law_sorted(c.paths);
    }
}

/// What stands at a path that leaves the workspace has no say in the key; what stands at
/// any other goes in as it was read.
pub proof fn law_content_taken(paths: Seq<Seq<char>>, contents: Seq<PathContent>, k: int)
    requires
        0 <= k < paths.len(),
        contents.len() == paths.len(),
    ensures
        safepath::confined(paths[k]) ==> cache::content_at(paths, contents, k) == contents[k],
        !safepath::confined(paths[k]) ==> cache::content_at(paths, contents, k)
            == PathContent::Missing,
{
}

} // verus!
