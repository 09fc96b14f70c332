//! What stands at a declared input path, and the bytes by which a cache key
//! takes it in.

use vstd::prelude::*;
use vstd::string::*;

use crate::hash;
use crate::hash::Hasher;
use crate::order;

verus! {

/// What stands at a path, links not followed.
pub enum PathContent {
    /// A file with these bytes.
    File(Vec<u8>),
    /// A file that cannot be read.
    Unreadable,
    /// A directory. Its entries stand in the order of their names, as
    /// [`PathContent::dir`] puts them.
    Dir(Vec<DirEntry>),
    /// A directory that cannot be listed.
    UnreadableDir,
    /// Nothing, or neither a file nor a directory.
    Missing,
}

/// One entry of a directory.
pub struct DirEntry {
    /// The name as the file system has it.
    pub name: Vec<u8>,
    pub content: PathContent,
}

/// The text that `String::from_utf8_lossy` reads from bytes.
pub uninterp spec fn utf8_lossy(bytes: Seq<u8>) -> Seq<char>;

/// `String::from_utf8_lossy` of the standard library. Valid UTF-8 is read as the
/// text it encodes. Of other bytes nothing is claimed but that the result depends
/// on them alone.
#[verifier::external_body]
pub(crate) fn text_of_bytes(bytes: &[u8]) -> (s: String)
    ensures
        s@ == utf8_lossy(bytes@),
        vstd::utf8::valid_utf8(bytes@) ==> s@ == vstd::utf8::decode_utf8(bytes@),
{
    String::from_utf8_lossy(bytes).into_owned()
}

/// The text of bytes: what valid UTF-8 encodes, and of other bytes what
/// `String::from_utf8_lossy` makes of them.
pub open spec fn lossy_text(bytes: Seq<u8>) -> Seq<char> {
    if vstd::utf8::valid_utf8(bytes) {
        vstd::utf8::decode_utf8(bytes)
    } else {
        utf8_lossy(bytes)
    }
}

/// The bytes of a text are read as that text.
pub proof fn law_text_round_trip(s: Seq<char>)
    ensures
        lossy_text(vstd::utf8::encode_utf8(s)) == s,
{
    vstd::utf8::encode_utf8_valid_utf8(s);
    vstd::utf8::encode_utf8_decode_utf8(s);
}

/// The names of the entries do not descend.
pub open spec fn in_name_order(entries: Seq<DirEntry>) -> bool {
    forall|a: int, b: int|
        0 <= a < b < entries.len() ==> !order::bytes_lt(
            (#[trigger] entries[b]).name@,
            (#[trigger] entries[a]).name@,
        )
}

impl PathContent {
    /// The directory of `entries`, put in the order of their names.
    pub fn dir(entries: Vec<DirEntry>) -> (r: PathContent)
        ensures
            match r {
                PathContent::Dir(sorted) => in_name_order(sorted@) && sorted@.to_multiset()
                    == entries@.to_multiset(),
                _ => false,
            },
    {
        let ghost all = entries@;
        let mut rest = entries;
        let mut r: Vec<DirEntry> = Vec::new();
        assert(all =~= rest@ + r@);
        proof {
            vstd::seq_lib::lemma_multiset_commutative(rest@, r@);
        }
        while rest.len() > 0
            invariant
                rest@.to_multiset().add(r@.to_multiset()) == all.to_multiset(),
                in_name_order(r@),
            decreases rest.len(),
        {
            let ghost rest0 = rest@;
            let ghost r0 = r@;
            let e = rest.remove(rest.len() - 1);
            let mut k: usize = 0;
            while k < r.len() && order::bytes_before(&r[k].name, &e.name)
                invariant
                    k <= r.len(),
                    r@ == r0,
                    forall|j: int|
                        0 <= j < k ==> order::bytes_lt((#[trigger] r0[j]).name@, e.name@),
                decreases r.len() - k,
            {
                k += 1;
            }
            r.insert(k, e);
            proof {
                assert(rest@ =~= rest0.drop_last());
                assert(rest0 =~= rest@.push(e));
                vstd::seq_lib::to_multiset_build(rest@, e);
                vstd::seq_lib::to_multiset_insert(r0, k as int, e);
                assert(r@ =~= r0.insert(k as int, e));
                assert(rest@.to_multiset().add(r@.to_multiset()) =~= rest0.to_multiset().add(
                    r0.to_multiset(),
                ));
                assert forall|a: int, b: int| 0 <= a < b < r@.len() implies !order::bytes_lt(
                    (#[trigger] r@[b]).name@,
                    (#[trigger] r@[a]).name@,
                ) by {
                    if a < k && b == k {
                        assert(order::bytes_lt(r0[a].name@, e.name@));
                        order::law_bytes_order(r0[a].name@, e.name@, e.name@);
                    } else if a == k {
                        assert(!order::bytes_lt(r0[k as int].name@, e.name@));
                        if b > k + 1 {
                            let x = r0[b - 1].name@;
                            let y = r0[k as int].name@;
                            assert(!order::bytes_lt(x, y));
                            order::law_bytes_order(x, y, e.name@);
                            order::law_bytes_order(y, x, e.name@);
                        }
                    } else {
                        let a0 = if a < k {
                            a
                        } else {
                            a - 1
                        };
                        let b0 = if b < k {
                            b
                        } else {
                            b - 1
                        };
                        assert(!order::bytes_lt(r0[b0].name@, r0[a0].name@));
                    }
                }
            }
        }
        proof {
            assert(rest@ =~= Seq::empty());
            broadcast use vstd::seq_lib::group_to_multiset_ensures;
            assert(rest@.to_multiset().add(r@.to_multiset()) =~= r@.to_multiset());
        }
        PathContent::Dir(r)
    }
}

/// The bytes by which a cache key takes in `c`.
pub open spec fn content_stream(c: PathContent) -> Seq<u8>
    decreases c, 0int,
{
    match c {
        PathContent::File(bytes) => hash::framed("file"@) + hash::le64(bytes@.len() as u64)
            + bytes@,
        PathContent::Unreadable => hash::framed("unreadable"@),
        PathContent::Dir(entries) => hash::framed("dir"@) + entries_stream(
            entries@,
            entries@.len() as int,
        ),
        PathContent::UnreadableDir => hash::framed("dir"@) + hash::framed("unreadable"@),
        PathContent::Missing => hash::framed("missing"@),
    }
}

/// The bytes of the first `n` entries: each by its name and its content.
pub open spec fn entries_stream(entries: Seq<DirEntry>, n: int) -> Seq<u8>
    decreases entries, n,
{
    if n <= 0 || n > entries.len() {
        Seq::empty()
    } else {
        entries_stream(entries, n - 1) + hash::framed(lossy_text(entries[n - 1].name@))
            + content_stream(entries[n - 1].content)
    }
}

/// Takes `c` into the digest.
pub fn hash_content(h: &mut Hasher, c: &PathContent)
    ensures
        final(h)@ == hash::fnv(old(h)@, content_stream(*c)),
    decreases c,
{
    let ghost h0 = h@;
    match c {
        PathContent::File(bytes) => {
            h.write_str("file");
            h.write_u64(bytes.len() as u64);
            h.write(bytes.as_slice());
            proof {
                let a = hash::framed("file"@);
                let b = hash::le64(bytes@.len() as u64);
                hash::law_writes_concatenate(h0, a, b);
                hash::law_writes_concatenate(h0, a + b, bytes@);
            }
        },
        PathContent::Unreadable => h.write_str("unreadable"),
        PathContent::Dir(entries) => {
            h.write_str("dir");
            let ghost tag = hash::framed("dir"@);
            let mut i: usize = 0;
            assert(tag + entries_stream(entries@, 0) =~= tag);
            while i < entries.len()
                invariant
                    i <= entries.len(),
                    *c == PathContent::Dir(*entries),
                    h@ == hash::fnv(h0, tag + entries_stream(entries@, i as int)),
                decreases entries.len() - i,
            {
                let ghost so_far = tag + entries_stream(entries@, i as int);
                let e = &entries[i];
                let name = text_of_bytes(e.name.as_slice());
                h.write_str(name.as_str());
                proof {
                    assert(decreases_to!(*c => c->Dir_0));
                    assert(decreases_to!(c->Dir_0 => entries@));
                    assert(decreases_to!(entries@ => entries@[i as int]));
                    assert(decreases_to!(entries@[i as int] => e.content));
                }
                hash_content(h, &e.content);
                proof {
                    let a = hash::framed(lossy_text(e.name@));
                    let b = content_stream(e.content);
                    hash::law_writes_concatenate(h0, so_far, a);
                    hash::law_writes_concatenate(h0, so_far + a, b);
                    assert(so_far + a + b =~= tag + entries_stream(entries@, i + 1));
                }
                i += 1;
            }
        },
        PathContent::UnreadableDir => {
            h.write_str("dir");
            h.write_str("unreadable");
            proof {
                hash::law_writes_concatenate(h0, hash::framed("dir"@), hash::framed("unreadable"@));
            }
        },
        PathContent::Missing => h.write_str("missing"),
    }
}

} // verus!
