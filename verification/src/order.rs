//! The order of texts and of byte strings: by their first difference, a proper
//! prefix before what it begins. Texts compare by code points, which is also the
//! order of their UTF-8 bytes.

use vstd::prelude::*;

verus! {

/// `a` stands before `b`.
pub open spec fn lex_lt(a: Seq<int>, b: Seq<int>) -> bool
    decreases a.len(),
{
    if b.len() == 0 {
        false
    } else if a.len() == 0 {
        true
    } else if a[0] != b[0] {
        a[0] < b[0]
    } else {
        lex_lt(a.drop_first(), b.drop_first())
    }
}

/// The code points of a text.
pub open spec fn codes(s: Seq<char>) -> Seq<int> {
    s.map_values(|c: char| c as u32 as int)
}

/// The values of a byte string.
pub open spec fn byte_codes(s: Seq<u8>) -> Seq<int> {
    s.map_values(|b: u8| b as int)
}

/// The text `a` stands before the text `b`.
pub open spec fn text_lt(a: Seq<char>, b: Seq<char>) -> bool {
    lex_lt(codes(a), codes(b))
}

/// The byte string `a` stands before the byte string `b`.
pub open spec fn bytes_lt(a: Seq<u8>, b: Seq<u8>) -> bool {
    lex_lt(byte_codes(a), byte_codes(b))
}

pub proof fn lemma_lex_irreflexive(a: Seq<int>)
    ensures
        !lex_lt(a, a),
    decreases a.len(),
{
    if a.len() > 0 {
        lemma_lex_irreflexive(a.drop_first());
    }
}

pub proof fn lemma_lex_transitive(a: Seq<int>, b: Seq<int>, c: Seq<int>)
    requires
        lex_lt(a, b),
        lex_lt(b, c),
    ensures
        lex_lt(a, c),
    decreases a.len(),
{
    if a.len() > 0 && a[0] == b[0] && b[0] == c[0] {
        lemma_lex_transitive(a.drop_first(), b.drop_first(), c.drop_first());
    }
}

pub proof fn lemma_lex_total(a: Seq<int>, b: Seq<int>)
    ensures
        a == b || lex_lt(a, b) || lex_lt(b, a),
    decreases a.len(),
{
    if a.len() == 0 {
        if b.len() == 0 {
            assert(a =~= b);
        }
    } else if b.len() > 0 && a[0] == b[0] {
        lemma_lex_total(a.drop_first(), b.drop_first());
        if a.drop_first() == b.drop_first() {
            assert(a =~= seq![a[0]] + a.drop_first());
            assert(b =~= seq![b[0]] + b.drop_first());
        }
    }
}

proof fn lemma_codes_injective(a: Seq<char>, b: Seq<char>)
    requires
        codes(a) == codes(b),
    ensures
        a == b,
{
    assert(a.len() == codes(a).len());
    assert(b.len() == codes(b).len());
    assert forall|i: int| 0 <= i < a.len() implies a[i] == b[i] by {
        assert(codes(a)[i] == a[i] as u32 as int);
        assert(codes(b)[i] == b[i] as u32 as int);
        vstd::utf8::char_u32_cast(a[i], a[i] as u32);
        vstd::utf8::char_u32_cast(b[i], b[i] as u32);
    }
    assert(a =~= b);
}

proof fn lemma_byte_codes_injective(a: Seq<u8>, b: Seq<u8>)
    requires
        byte_codes(a) == byte_codes(b),
    ensures
        a == b,
{
    assert(a.len() == byte_codes(a).len());
    assert(b.len() == byte_codes(b).len());
    assert forall|i: int| 0 <= i < a.len() implies a[i] == b[i] by {
        assert(byte_codes(a)[i] == a[i] as int);
        assert(byte_codes(b)[i] == b[i] as int);
    }
    assert(a =~= b);
}

/// The order of texts is a strict total order.
pub proof fn law_text_order(a: Seq<char>, b: Seq<char>, c: Seq<char>)
    ensures
        !text_lt(a, a),
        text_lt(a, b) && text_lt(b, c) ==> text_lt(a, c),
        a == b || text_lt(a, b) || text_lt(b, a),
        text_lt(a, b) ==> !text_lt(b, a),
{
    lemma_lex_irreflexive(codes(a));
    if text_lt(a, b) && text_lt(b, c) {
        lemma_lex_transitive(codes(a), codes(b), codes(c));
    }
    if text_lt(a, b) && text_lt(b, a) {
        lemma_lex_transitive(codes(a), codes(b), codes(a));
    }
    lemma_lex_total(codes(a), codes(b));
    if codes(a) == codes(b) {
        lemma_codes_injective(a, b);
    }
}

/// The order of byte strings is a strict total order.
pub proof fn law_bytes_order(a: Seq<u8>, b: Seq<u8>, c: Seq<u8>)
    ensures
        !bytes_lt(a, a),
        bytes_lt(a, b) && bytes_lt(b, c) ==> bytes_lt(a, c),
        a == b || bytes_lt(a, b) || bytes_lt(b, a),
        bytes_lt(a, b) ==> !bytes_lt(b, a),
{
    lemma_lex_irreflexive(byte_codes(a));
    if bytes_lt(a, b) && bytes_lt(b, c) {
        lemma_lex_transitive(byte_codes(a), byte_codes(b), byte_codes(c));
    }
    if bytes_lt(a, b) && bytes_lt(b, a) {
        lemma_lex_transitive(byte_codes(a), byte_codes(b), byte_codes(a));
    }
    lemma_lex_total(byte_codes(a), byte_codes(b));
    if byte_codes(a) == byte_codes(b) {
        lemma_byte_codes_injective(a, b);
    }
}

/// A common prefix decides nothing.
proof fn lemma_lex_skip(a: Seq<int>, b: Seq<int>, k: int)
    requires
        0 <= k <= a.len(),
        k <= b.len(),
        forall|j: int| 0 <= j < k ==> a[j] == b[j],
    ensures
        lex_lt(a, b) == lex_lt(a.skip(k), b.skip(k)),
    decreases k,
{
    if k == 0 {
        assert(a.skip(0) =~= a);
        assert(b.skip(0) =~= b);
    } else {
        lemma_lex_skip(a.drop_first(), b.drop_first(), k - 1);
        assert(a.drop_first().skip(k - 1) =~= a.skip(k));
        assert(b.drop_first().skip(k - 1) =~= b.skip(k));
    }
}

/// True when the text `a` stands before the text `b`.
pub fn text_before(a: &str, b: &str) -> (r: bool)
    ensures
        r == text_lt(a@, b@),
{
    let x = crate::text::chars_of(a);
    let y = crate::text::chars_of(b);
    let mut i: usize = 0;
    while i < x.len() && i < y.len() && x[i] == y[i]
        invariant
            i <= x.len(),
            i <= y.len(),
            forall|j: int| 0 <= j < i ==> x@[j] == y@[j],
        decreases x.len() - i,
    {
        i += 1;
    }
    proof {
        lemma_lex_skip(codes(x@), codes(y@), i as int);
    }
    if i == y.len() {
        false
    } else if i == x.len() {
        true
    } else {
        let c: char = x[i];
        let d: char = y[i];
        proof {
            vstd::utf8::char_u32_cast(c, c as u32);
            vstd::utf8::char_u32_cast(d, d as u32);
            assert(codes(x@).skip(i as int)[0] == c as u32);
            assert(codes(y@).skip(i as int)[0] == d as u32);
        }
        (c as u32) < (d as u32)
    }
}

/// True when the byte string `a` stands before the byte string `b`.
pub fn bytes_before(a: &Vec<u8>, b: &Vec<u8>) -> (r: bool)
    ensures
        r == bytes_lt(a@, b@),
{
    let mut i: usize = 0;
    while i < a.len() && i < b.len() && a[i] == b[i]
        invariant
            i <= a.len(),
            i <= b.len(),
            forall|j: int| 0 <= j < i ==> a@[j] == b@[j],
        decreases a.len() - i,
    {
        i += 1;
    }
    proof {
        lemma_lex_skip(byte_codes(a@), byte_codes(b@), i as int);
    }
    if i == b.len() {
        false
    } else if i == a.len() {
        true
    } else {
        a[i] < b[i]
    }
}

/// `a` stands before `b`, or is the same text.
pub open spec fn text_leq() -> spec_fn(Seq<char>, Seq<char>) -> bool {
    |a: Seq<char>, b: Seq<char>| !text_lt(b, a)
}

/// The texts in ascending order.
pub open spec fn sorted_texts(v: Seq<Seq<char>>) -> Seq<Seq<char>> {
    v.sort_by(text_leq())
}

proof fn lemma_text_leq_total()
    ensures
        vstd::relations::total_ordering(text_leq()),
{
    assert forall|a: Seq<char>, b: Seq<char>, c: Seq<char>|
        #![trigger text_leq()(a, b), text_leq()(b, c)]
        text_leq()(a, b) && text_leq()(b, c) implies text_leq()(a, c) by {
        law_text_order(a, b, c);
        law_text_order(c, a, b);
        law_text_order(b, c, a);
        law_text_order(c, b, a);
        law_text_order(b, a, c);
    }
    assert forall|a: Seq<char>, b: Seq<char>|
        #![trigger text_leq()(a, b), text_leq()(b, a)]
        text_leq()(a, b) && text_leq()(b, a) implies a == b by {
        law_text_order(a, b, b);
    }
    assert forall|a: Seq<char>| #[trigger] text_leq()(a, a) by {
        law_text_order(a, a, a);
    }
    assert forall|a: Seq<char>, b: Seq<char>|
        #![trigger text_leq()(a, b), text_leq()(b, a)]
        text_leq()(a, b) || text_leq()(b, a) by {
        law_text_order(a, b, b);
    }
}

/// Sorting keeps every text as often as it occurs, and puts none before one that it
/// stands behind.
pub proof fn law_sorted(v: Seq<Seq<char>>)
    ensures
        sorted_texts(v).len() == v.len(),
        sorted_texts(v).to_multiset() =~= v.to_multiset(),
        forall|a: int, b: int|
            0 <= a < b < sorted_texts(v).len() ==> !text_lt(
                #[trigger] sorted_texts(v)[b],
                #[trigger] sorted_texts(v)[a],
            ),
{
    broadcast use vstd::seq_lib::group_to_multiset_ensures;

    lemma_text_leq_total();
    v.lemma_sort_by_ensures(text_leq());
    assert(sorted_texts(v).len() == sorted_texts(v).to_multiset().len());
    assert(v.len() == v.to_multiset().len());
    assert forall|a: int, b: int| 0 <= a < b < sorted_texts(v).len() implies !text_lt(
        #[trigger] sorted_texts(v)[b],
        #[trigger] sorted_texts(v)[a],
    ) by {
        assert(text_leq()(sorted_texts(v)[a], sorted_texts(v)[b]));
    }
}

proof fn lemma_lex_at(a: Seq<int>, b: Seq<int>, k: int)
    requires
        0 <= k < b.len(),
        k <= a.len(),
        forall|j: int| 0 <= j < k ==> a[j] == #[trigger] b[j],
        k == a.len() || a[k] < b[k],
    ensures
        lex_lt(a, b),
    decreases k,
{
    if k > 0 {
        assert(a[0] == b[0]);
        assert forall|j: int| 0 <= j < k - 1 implies a.drop_first()[j]
            == #[trigger] b.drop_first()[j] by {
            assert(a[j + 1] == b[j + 1]);
        }
        lemma_lex_at(a.drop_first(), b.drop_first(), k - 1);
    }
}

/// Texts and byte strings are ordered by the first place at which they differ, by the
/// number of the character or byte there; what ends there comes first.
pub proof fn law_order_by_first_difference(a: Seq<char>, b: Seq<char>, k: int)
    requires
        0 <= k < b.len(),
        k <= a.len(),
        forall|j: int| 0 <= j < k ==> a[j] == #[trigger] b[j],
        k == a.len() || (a[k] as u32) < (b[k] as u32),
    ensures
        text_lt(a, b),
{
    assert forall|j: int| 0 <= j < k implies codes(a)[j] == #[trigger] codes(b)[j] by {
        assert(a[j] == b[j]);
    }
    lemma_lex_at(codes(a), codes(b), k);
}

/// The same of byte strings.
pub proof fn law_bytes_by_first_difference(a: Seq<u8>, b: Seq<u8>, k: int)
    requires
        0 <= k < b.len(),
        k <= a.len(),
        forall|j: int| 0 <= j < k ==> a[j] == #[trigger] b[j],
        k == a.len() || a[k] < b[k],
    ensures
        bytes_lt(a, b),
{
    assert forall|j: int| 0 <= j < k implies byte_codes(a)[j] == #[trigger] byte_codes(b)[j] by {
        assert(a[j] == b[j]);
    }
    lemma_lex_at(byte_codes(a), byte_codes(b), k);
}

/// The strings in ascending order.
pub fn sort_strings(v: &Vec<String>) -> (r: Vec<String>)
    ensures
        crate::text::views(r@) == sorted_texts(crate::text::views(v@)),
{
    let ghost all = crate::text::views(v@);
    let mut r: Vec<String> = Vec::new();
    let mut i: usize = 0;
    proof {
        assert(crate::text::views(r@) =~= all.take(0));
        lemma_text_leq_total();
    }
    while i < v.len()
        invariant
            i <= v.len(),
            all == crate::text::views(v@),
            r.len() == i,
            vstd::relations::total_ordering(text_leq()),
            crate::text::views(r@).to_multiset() == all.take(i as int).to_multiset(),
            vstd::relations::sorted_by(crate::text::views(r@), text_leq()),
        decreases v.len() - i,
    {
        let ghost s = crate::text::views(r@);
        let ghost x = v@[i as int]@;
        let mut k: usize = 0;
        while k < r.len() && !text_before(v[i].as_str(), r[k].as_str())
            invariant
                i < v.len(),
                k <= r.len(),
                s == crate::text::views(r@),
                x == v@[i as int]@,
                forall|j: int| 0 <= j < k ==> !text_lt(x, #[trigger] s[j]),
            decreases r.len() - k,
        {
            assert(s[k as int] == r@[k as int]@);
            k += 1;
        }
        r.insert(k, v[i].clone());
        proof {
            let t = crate::text::views(r@);
            assert(t =~= s.insert(k as int, x));
            vstd::seq_lib::to_multiset_insert(s, k as int, x);
            assert(all.take(i + 1) =~= all.take(i as int).push(x));
            vstd::seq_lib::to_multiset_build(all.take(i as int), x);
            assert forall|a: int, b: int| 0 <= a < b < t.len() implies #[trigger] text_leq()(
                t[a],
                t[b],
            ) by {
                if a < k && b == k {
                    assert(!text_lt(x, s[a]));
                } else if a == k {
                    assert(text_lt(x, s[k as int]));
                    law_text_order(x, s[k as int], x);
                    if b > k + 1 {
                        assert(text_leq()(s[k as int], s[b - 1]));
                        assert(text_leq()(x, s[k as int]));
                    }
                } else {
                    let a0 = if a < k {
                        a
                    } else {
                        a - 1
                    };
                    let b0 = if b < k {
                        b
                    } else {
                        b - 1
                    };
                    assert(text_leq()(s[a0], s[b0]));
                }
            }
        }
        i += 1;
    }
    proof {
        assert(all.take(i as int) =~= all);
        all.lemma_sort_by_ensures(text_leq());
        vstd::seq_lib::lemma_sorted_unique(
            crate::text::views(r@),
            sorted_texts(all),
            text_leq(),
        );
    }
    r
}

} // verus!
