//! Path confinement. A declared path (a `produces`, `consumes`, or `cache.paths`
//! entry) must stay inside the job's workspace. Absolute paths and any `..`
//! component can read or clobber files outside of it, so they are rejected.

use vstd::prelude::*;

use crate::text;
use crate::text_laws;

verus! {

/// The components of a path, between its slashes.
pub open spec fn components(p: Seq<char>) -> Seq<Seq<char>> {
    text::split(p, '/')
}

/// `p` is a relative path with no `..` component.
pub open spec fn confined(p: Seq<char>) -> bool {
    &&& !(p.len() > 0 && p[0] == '/')
    &&& forall|k: int| 0 <= k < components(p).len() ==> #[trigger] components(p)[k] != ".."@
}

/// How far below its start a walk along `parts` ends, `..` leading one up and
/// an empty part or `.` nowhere.
pub open spec fn depth(parts: Seq<Seq<char>>) -> int
    decreases parts.len(),
{
    if parts.len() == 0 {
        0
    } else {
        depth(parts.drop_last()) + (if parts.last() == ".."@ {
            -1int
        } else if parts.last().len() == 0 || parts.last() == "."@ {
            0
        } else {
            1
        })
    }
}

/// A walk along a confined path never leaves the directory it starts from.
pub proof fn law_confined_stays_inside(p: Seq<char>, k: int)
    requires
        confined(p),
        0 <= k <= components(p).len(),
    ensures
        depth(components(p).take(k)) >= 0,
    decreases k,
{
    if k > 0 {
        law_confined_stays_inside(p, k - 1);
        assert(components(p).take(k).drop_last() =~= components(p).take(k - 1));
        assert(components(p).take(k).last() == components(p)[k - 1]);
    }
}

/// A path made of components is confined exactly when it does not begin with a slash
/// and none of them is `..`.
pub proof fn law_confined(parts: Seq<Seq<char>>)
    requires
        parts.len() > 0,
        forall|k: int| 0 <= k < parts.len() ==> text_laws::lacks(#[trigger] parts[k], '/'),
    ensures
        confined(text::join(parts, seq!['/'])) <==> !(parts.len() > 1 && parts[0].len() == 0) && (
        forall|k: int| 0 <= k < parts.len() ==> #[trigger] parts[k] != ".."@),
{
    let p = text::join(parts, seq!['/']);
    text_laws::law_joined_is_split(parts, '/');
    assert(components(p) == parts);
    if forall|k: int| 0 <= k < parts.len() ==> #[trigger] parts[k] != ".."@ {
        assert forall|k: int| 0 <= k < components(p).len() implies #[trigger] components(p)[k]
            != ".."@ by {
            assert(parts[k] != ".."@);
        }
    }
    if forall|k: int| 0 <= k < components(p).len() ==> #[trigger] components(p)[k] != ".."@ {
        assert forall|k: int| 0 <= k < parts.len() implies #[trigger] parts[k] != ".."@ by {
            assert(components(p)[k] != ".."@);
        }
    }
    let rest = parts.skip(1);
    assert(parts =~= seq![parts[0]] + rest);
    text_laws::law_join_parts(seq![parts[0]], rest, seq!['/'], parts[0]);
    if parts.len() == 1 {
        assert(parts =~= seq![parts[0]]);
        if p.len() > 0 {
            assert(parts[0][0] != '/');
        }
    } else if parts[0].len() == 0 {
        assert(p[0] == '/');
    } else {
        assert(p[0] == parts[0][0]);
        assert(parts[0][0] != '/');
    }
}

/// True when `p` is a relative path with no `..` component and no root, so
/// joining it onto a directory cannot escape that directory.
pub fn is_confined(p: &str) -> (b: bool)
    ensures
        b == confined(p@),
{
    let v = text::chars_of(p);
    if v.len() > 0 && v[0] == '/' {
        return false;
    }
    let parts = text::split_chars(&v, '/');
    let mut i: usize = 0;
    while i < parts.len()
        invariant
            i <= parts.len(),
            text::char_views(parts@) == components(p@),
            forall|k: int| 0 <= k < i ==> #[trigger] components(p@)[k] != ".."@,
        decreases parts.len() - i,
    {
        assert(text::char_views(parts@)[i as int] == parts@[i as int]@);
        if text::same(&parts[i], "..") {
            return false;
        }
        i += 1;
    }
    assert(parts@.len() == components(p@).len());
    true
}

} // verus!
