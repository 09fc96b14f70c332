//! How a cache entry is kept: what its bytes are, when they are refused, and the name of
//! the file that holds them.

use vstd::prelude::*;

use crate::cache::EntryView;
use crate::entry;
use crate::hash;

verus! {

/// The digits of file names.
pub open spec fn digits() -> Seq<char> {
    "0123456789abcdef"@
}

/// An artifact as it stands among the bytes of an entry: how long its name is, the name,
/// how long its data is, and the data. Numbers have their lowest byte first.
pub open spec fn artifact_bytes(name: Seq<char>, data: Seq<u8>) -> Seq<u8> {
    vstd::bytes::spec_u32_to_le_bytes(vstd::utf8::encode_utf8(name).len() as u32)
        + vstd::utf8::encode_utf8(name) + vstd::bytes::spec_u64_to_le_bytes(data.len() as u64)
        + data
}

/// What stands behind the artifacts of an entry: how long the logs are, and the logs.
pub open spec fn end_bytes(logs: Seq<char>) -> Seq<u8> {
    vstd::bytes::spec_u64_to_le_bytes(vstd::utf8::encode_utf8(logs).len() as u64)
        + vstd::utf8::encode_utf8(logs)
}

/// The entry has one artifact more.
pub open spec fn with_artifact(e: EntryView, name: Seq<char>, data: Seq<u8>) -> EntryView {
    EntryView { artifacts: e.artifacts.push((name, data)), logs: e.logs }
}

/// An entry is kept as the number of its artifacts, then each artifact in order, then the
/// logs: one artifact more stands behind the others and before the logs, and changes
/// nothing else but the number.
pub proof fn law_entry_bytes(e: EntryView, name: Seq<char>, data: Seq<u8>)
    requires
        entry::fits(with_artifact(e, name, data)),
    ensures
        ({
            let less = entry::encoded(e);
            let more = entry::encoded(with_artifact(e, name, data));
            let end = end_bytes(e.logs);
            &&& less.len() >= 4 + end.len()
            &&& less.take(4) == vstd::bytes::spec_u32_to_le_bytes(e.artifacts.len() as u32)
            &&& less.skip(less.len() - end.len()) == end
            &&& e.artifacts.len() == 0 ==> less.len() == 4 + end.len()
            &&& more == vstd::bytes::spec_u32_to_le_bytes((e.artifacts.len() + 1) as u32)
                + less.subrange(4, less.len() - end.len()) + artifact_bytes(name, data) + end
        }),
{
    let w = with_artifact(e, name, data);
    let all = w.artifacts;
    assert(all[e.artifacts.len() as int] == (name, data));
    assert(all.drop_last() =~= e.artifacts);
    let less = entry::encoded(e);
    let more = entry::encoded(w);
    let end = end_bytes(e.logs);
    let items = entry::items_bytes(e.artifacts);
    vstd::bytes::lemma_auto_spec_u32_to_from_le_bytes();
    assert(entry::logs_bytes(e.logs) =~= end);
    assert(entry::item_bytes((name, data)) =~= artifact_bytes(name, data));
    assert(less =~= entry::le32(entry::low32(e.artifacts.len())) + items + end);
    assert(less.take(4) =~= entry::le32(entry::low32(e.artifacts.len())));
    assert(less.skip(less.len() - end.len()) =~= end);
    assert(less.subrange(4, less.len() - end.len()) =~= items);
    assert(more =~= entry::le32(entry::low32((e.artifacts.len() + 1) as nat)) + items
        + artifact_bytes(name, data) + end);
}

proof fn lemma_more_bytes(p: Seq<u8>, q: Seq<u8>, n: nat)
    ensures
        entry::read_bytes(p, n) matches Some((b, rest)) ==> entry::read_bytes(p + q, n) == Some(
            (b, rest + q),
        ),
{
    if n <= p.len() {
        assert((p + q).take(n as int) =~= p.take(n as int));
        assert((p + q).skip(n as int) =~= p.skip(n as int) + q);
    }
}

proof fn lemma_more_item(p: Seq<u8>, q: Seq<u8>)
    ensures
        entry::read_item(p) matches Some((item, rest)) ==> entry::read_item(p + q) == Some(
            (item, rest + q),
        ),
{
    lemma_more_bytes(p, q, 4);
    if let Some((name_len, s1)) = entry::read_u32(p) {
        lemma_more_bytes(s1, q, name_len as nat);
        if let Some((name, s2)) = entry::read_bytes(s1, name_len as nat) {
            lemma_more_bytes(s2, q, 8);
            if let Some((data_len, s3)) = entry::read_u64(s2) {
                lemma_more_bytes(s3, q, data_len as nat);
            }
        }
    }
}

proof fn lemma_more_items(p: Seq<u8>, q: Seq<u8>, n: nat)
    ensures
        entry::read_items(p, n) matches Some((items, rest)) ==> entry::read_items(p + q, n)
            == Some((items, rest + q)),
    decreases n,
{
    if n > 0 {
        lemma_more_items(p, q, (n - 1) as nat);
        if let Some((items, s1)) = entry::read_items(p, (n - 1) as nat) {
            lemma_more_item(s1, q);
        }
    }
}

/// An entry is read from all of its bytes or not at all: bytes that end too early are
/// refused, wherever they end.
pub proof fn law_cut_entry_is_refused(e: EntryView, n: int)
    requires
        entry::fits(e),
        0 <= n < entry::encoded(e).len(),
    ensures
        entry::decoded(entry::encoded(e).take(n)) is None,
{
    let all = entry::encoded(e);
    let p = all.take(n);
    let q = all.skip(n);
    assert(p + q =~= all);
    let logs = vstd::utf8::encode_utf8(e.logs);
    let end = hash::le64(logs.len() as u64) + logs;
    let s1 = entry::items_bytes(e.artifacts) + end;
    assert(all =~= entry::le32(entry::low32(e.artifacts.len())) + s1);
    entry::lemma_read_u32(entry::low32(e.artifacts.len()), s1);
    entry::lemma_read_items(e.artifacts, end);
    entry::lemma_read_u64(logs.len() as u64, logs);
    lemma_more_bytes(p, q, 4);
    if let Some((count, p1)) = entry::read_u32(p) {
        lemma_more_items(p1, q, count as nat);
        if let Some((items, p2)) = entry::read_items(p1, count as nat) {
            lemma_more_bytes(p2, q, 8);
            if let Some((len, p3)) = entry::read_u64(p2) {
                assert(p3 + q == logs);
                assert(p3.len() + q.len() == logs.len());
            }
        }
    }
}

proof fn lemma_hex_at(v: nat, n: nat, k: int)
    requires
        0 <= k < n,
    ensures
        entry::hex(v, n).len() == n,
        entry::hex(v, n)[k] == digits()[(v as int / vstd::arithmetic::power::pow(
            16,
            (n - 1 - k) as nat,
        )) % 16],
    decreases n,
{
    let m = (n - 1) as nat;
    if m > 0 {
        lemma_hex_at(v / 16, m, if k < m {
            k
        } else {
            0
        });
    } else {
        assert(entry::hex(v / 16, m).len() == 0);
    }
    vstd::arithmetic::power::lemma_pow0(16);
    reveal_strlit("0123456789abcdef");
    if k == m {
        lemma_digit(v % 16);
        assert(v as int / 1 == v);
    } else {
        let j = (n - 1 - k) as nat;
        let i = (m - 1 - k) as nat;
        vstd::arithmetic::power::lemma_pow_positive(16, i);
        assert(vstd::arithmetic::power::pow(16, j) == 16 * vstd::arithmetic::power::pow(16, i)) by {
            reveal(vstd::arithmetic::power::pow);
        }
        vstd::arithmetic::div_mod::lemma_div_denominator(
            v as int,
            16,
            vstd::arithmetic::power::pow(16, i),
        );
    }
}

proof fn lemma_digit(d: nat)
    requires
        d < 16,
    ensures
        entry::hex_digit(d) == digits()[d as int],
{
    reveal_strlit("0123456789abcdef");
}

/// The file of a key is named by its sixteen hexadecimal digits, the highest first, and
/// the ending `.entry`.
pub proof fn law_entry_name(key: u64, k: int)
    requires
        0 <= k < 16,
    ensures
        entry::entry_name(key).len() == 22,
        entry::entry_name(key).skip(16) == ".entry"@,
        entry::entry_name(key)[k] == digits()[(key as int / vstd::arithmetic::power::pow(
            16,
            (15 - k) as nat,
        )) % 16],
{
    lemma_hex_at(key as nat, 16, k);
    reveal_strlit(".entry");
    assert(".entry"@.len() == 6);
    assert(entry::entry_name(key).skip(16) =~= ".entry"@);
}

} // verus!
