//! The form in which a cache entry is kept on disk: a simple length-prefixed
//! binary format.

use vstd::prelude::*;
use vstd::string::*;

use crate::cache::{CacheEntry, CacheStore, EntryView};
use crate::content;
use crate::error::{Error, ErrorView};
use crate::executor;
use crate::hash;

verus! {

/// The four bytes of `v`, the lowest first.
pub open spec fn le32(v: u32) -> Seq<u8> {
    vstd::bytes::spec_u32_to_le_bytes(v)
}

/// The number that a count is written as: what is left of it modulo 2^32.
pub open spec fn low32(n: nat) -> u32 {
    (n % 0x1_0000_0000) as u32
}

/// One artifact: its name and its data, each with its length before it.
pub open spec fn item_bytes(item: (Seq<char>, Seq<u8>)) -> Seq<u8> {
    let name = vstd::utf8::encode_utf8(item.0);
    le32(low32(name.len())) + name + hash::le64(item.1.len() as u64) + item.1
}

/// The artifacts one after the other.
pub open spec fn items_bytes(items: Seq<(Seq<char>, Seq<u8>)>) -> Seq<u8>
    decreases items.len(),
{
    if items.len() == 0 {
        Seq::empty()
    } else {
        items_bytes(items.drop_last()) + item_bytes(items.last())
    }
}

/// The logs, with their length before them.
pub open spec fn logs_bytes(logs: Seq<char>) -> Seq<u8> {
    let bytes = vstd::utf8::encode_utf8(logs);
    hash::le64(bytes.len() as u64) + bytes
}

/// An entry as it is kept: the number of artifacts, the artifacts, and the logs.
pub open spec fn encoded(e: EntryView) -> Seq<u8> {
    le32(low32(e.artifacts.len())) + items_bytes(e.artifacts) + logs_bytes(e.logs)
}

/// The first `n` bytes, and the rest.
pub open spec fn read_bytes(s: Seq<u8>, n: nat) -> Option<(Seq<u8>, Seq<u8>)> {
    if n <= s.len() {
        Some((s.take(n as int), s.skip(n as int)))
    } else {
        None
    }
}

/// A number of four bytes, and the rest.
pub open spec fn read_u32(s: Seq<u8>) -> Option<(u32, Seq<u8>)> {
    match read_bytes(s, 4) {
        Some((b, rest)) => Some((vstd::bytes::spec_u32_from_le_bytes(b), rest)),
        None => None,
    }
}

/// A number of eight bytes, and the rest.
pub open spec fn read_u64(s: Seq<u8>) -> Option<(u64, Seq<u8>)> {
    match read_bytes(s, 8) {
        Some((b, rest)) => Some((vstd::bytes::spec_u64_from_le_bytes(b), rest)),
        None => None,
    }
}

/// One artifact, and the rest.
pub open spec fn read_item(s: Seq<u8>) -> Option<((Seq<char>, Seq<u8>), Seq<u8>)> {
    match read_u32(s) {
        None => None,
        Some((name_len, s1)) => match read_bytes(s1, name_len as nat) {
            None => None,
            Some((name, s2)) => match read_u64(s2) {
                None => None,
                Some((data_len, s3)) => match read_bytes(s3, data_len as nat) {
                    None => None,
                    Some((data, rest)) => Some(((content::lossy_text(name), data), rest)),
                },
            },
        },
    }
}

/// `n` artifacts, and the rest.
pub open spec fn read_items(s: Seq<u8>, n: nat) -> Option<(Seq<(Seq<char>, Seq<u8>)>, Seq<u8>)>
    decreases n,
{
    if n == 0 {
        Some((Seq::empty(), s))
    } else {
        match read_items(s, (n - 1) as nat) {
            None => None,
            Some((items, s1)) => match read_item(s1) {
                None => None,
                Some((item, rest)) => Some((items.push(item), rest)),
            },
        }
    }
}

/// Logs, whatever follows them.
pub open spec fn read_logs(s: Seq<u8>) -> Option<Seq<char>> {
    match read_u64(s) {
        None => None,
        Some((n, s1)) => match read_bytes(s1, n as nat) {
            None => None,
            Some((logs, _)) => Some(content::lossy_text(logs)),
        },
    }
}

/// The entry that bytes hold, unless they end too early.
pub open spec fn decoded(s: Seq<u8>) -> Option<EntryView> {
    match read_u32(s) {
        None => None,
        Some((n, s1)) => match read_items(s1, n as nat) {
            None => None,
            Some((artifacts, s2)) => match read_logs(s2) {
                None => None,
                Some(logs) => Some(EntryView { artifacts, logs }),
            },
        },
    }
}

/// The counts and lengths of the entry fit the numbers they are written as.
pub open spec fn fits(e: EntryView) -> bool {
    &&& e.artifacts.len() <= u32::MAX
    &&& forall|k: int|
        0 <= k < e.artifacts.len() ==> vstd::utf8::encode_utf8(
            (#[trigger] e.artifacts[k]).0,
        ).len() <= u32::MAX && e.artifacts[k].1.len() <= u64::MAX
    &&& vstd::utf8::encode_utf8(e.logs).len() <= u64::MAX
}

proof fn lemma_read_bytes(b: Seq<u8>, rest: Seq<u8>)
    ensures
        read_bytes(b + rest, b.len()) == Some((b, rest)),
{
    assert((b + rest).take(b.len() as int) =~= b);
    assert((b + rest).skip(b.len() as int) =~= rest);
}

pub proof fn lemma_read_u32(v: u32, rest: Seq<u8>)
    ensures
        read_u32(le32(v) + rest) == Some((v, rest)),
{
    vstd::bytes::lemma_auto_spec_u32_to_from_le_bytes();
    lemma_read_bytes(le32(v), rest);
}

pub proof fn lemma_read_u64(v: u64, rest: Seq<u8>)
    ensures
        read_u64(hash::le64(v) + rest) == Some((v, rest)),
{
    vstd::bytes::lemma_auto_spec_u64_to_from_le_bytes();
    lemma_read_bytes(hash::le64(v), rest);
}

proof fn lemma_read_item(item: (Seq<char>, Seq<u8>), rest: Seq<u8>)
    requires
        vstd::utf8::encode_utf8(item.0).len() <= u32::MAX,
        item.1.len() <= u64::MAX,
    ensures
        read_item(item_bytes(item) + rest) == Some((item, rest)),
{
    let name = vstd::utf8::encode_utf8(item.0);
    let a = le32(low32(name.len()));
    let c = hash::le64(item.1.len() as u64);
    let s3 = item.1 + rest;
    let s2 = c + s3;
    let s1 = name + s2;
    assert(item_bytes(item) + rest =~= a + s1);
    lemma_read_u32(low32(name.len()), s1);
    lemma_read_bytes(name, s2);
    lemma_read_u64(item.1.len() as u64, s3);
    lemma_read_bytes(item.1, rest);
    content::law_text_round_trip(item.0);
}

pub proof fn lemma_read_items(items: Seq<(Seq<char>, Seq<u8>)>, rest: Seq<u8>)
    requires
        forall|k: int|
            0 <= k < items.len() ==> vstd::utf8::encode_utf8((#[trigger] items[k]).0).len()
                <= u32::MAX && items[k].1.len() <= u64::MAX,
    ensures
        read_items(items_bytes(items) + rest, items.len()) == Some((items, rest)),
    decreases items.len(),
{
    if items.len() == 0 {
        assert(items_bytes(items) + rest =~= rest);
        assert(items =~= Seq::empty());
    } else {
        let front = items.drop_last();
        let last = items.last();
        assert(items[items.len() - 1] == last);
        assert forall|k: int| 0 <= k < front.len() implies vstd::utf8::encode_utf8(
            (#[trigger] front[k]).0,
        ).len() <= u32::MAX && front[k].1.len() <= u64::MAX by {
            assert(front[k] == items[k]);
        }
        lemma_read_items(front, item_bytes(last) + rest);
        lemma_read_item(last, rest);
        assert(items_bytes(items) + rest =~= items_bytes(front) + (item_bytes(last) + rest));
        assert(front.push(last) =~= items);
    }
}

/// What was written is read back: an entry comes back from its bytes as it was,
/// whatever stands behind them.
pub proof fn law_entry_round_trip(e: EntryView, rest: Seq<u8>)
    requires
        fits(e),
    ensures
        decoded(encoded(e) + rest) == Some(e),
{
    let logs = vstd::utf8::encode_utf8(e.logs);
    let s3 = logs + rest;
    let s2 = hash::le64(logs.len() as u64) + s3;
    let s1 = items_bytes(e.artifacts) + s2;
    assert(encoded(e) + rest =~= le32(low32(e.artifacts.len())) + s1);
    lemma_read_u32(low32(e.artifacts.len()), s1);
    lemma_read_items(e.artifacts, s2);
    lemma_read_u64(logs.len() as u64, s3);
    lemma_read_bytes(logs, rest);
    content::law_text_round_trip(e.logs);
}

/// The digit of `d` in hexadecimal, for `d` below sixteen.
pub open spec fn hex_digit(d: nat) -> char {
    if d < 10 {
        (0x30 + d) as char
    } else {
        (0x57 + d) as char
    }
}

/// The last `n` hexadecimal digits of `v`.
pub open spec fn hex(v: nat, n: nat) -> Seq<char>
    decreases n,
{
    if n == 0 {
        Seq::empty()
    } else {
        hex(v / 16, (n - 1) as nat).push(hex_digit(v % 16))
    }
}

/// The name of the file in which the entry of a key is kept.
pub open spec fn entry_name(key: u64) -> Seq<char> {
    hex(key as nat, 16) + ".entry"@
}

proof fn lemma_hex(v: nat, w: nat, n: nat)
    requires
        hex(v, n) == hex(w, n),
        v < vstd::arithmetic::power::pow(16, n),
        w < vstd::arithmetic::power::pow(16, n),
    ensures
        v == w,
    decreases n,
{
    if n == 0 {
        vstd::arithmetic::power::lemma_pow0(16);
    } else {
        let m = (n - 1) as nat;
        let a = hex(v, n);
        let b = hex(w, n);
        assert(a.last() == b.last());
        assert(a.drop_last() =~= hex(v / 16, m));
        assert(b.drop_last() =~= hex(w / 16, m));
        assert(vstd::arithmetic::power::pow(16, n) == 16 * vstd::arithmetic::power::pow(16, m))
            by {
            reveal(vstd::arithmetic::power::pow);
        }
        lemma_hex(v / 16, w / 16, m);
        lemma_hex_digit(v % 16, w % 16);
    }
}

proof fn lemma_hex_digit(a: nat, b: nat)
    requires
        a < 16,
        b < 16,
        hex_digit(a) == hex_digit(b),
    ensures
        a == b,
{
    assert(hex_digit(a) as u32 == (if a < 10 {
        0x30 + a
    } else {
        0x57 + a
    }));
    assert(hex_digit(b) as u32 == (if b < 10 {
        0x30 + b
    } else {
        0x57 + b
    }));
}

proof fn lemma_hex_len(v: nat, n: nat)
    ensures
        hex(v, n).len() == n,
    decreases n,
{
    if n > 0 {
        lemma_hex_len(v / 16, (n - 1) as nat);
    }
}

/// Entries with different keys are kept in different files.
pub proof fn law_names_differ(a: u64, b: u64)
    requires
        a != b,
    ensures
        entry_name(a) != entry_name(b),
{
    if entry_name(a) == entry_name(b) {
        lemma_hex_len(a as nat, 16);
        lemma_hex_len(b as nat, 16);
        assert(entry_name(a).take(16) =~= hex(a as nat, 16));
        assert(entry_name(b).take(16) =~= hex(b as nat, 16));
        assert(vstd::arithmetic::power::pow(16, 16) == 0x1_0000_0000_0000_0000) by {
            reveal_with_fuel(vstd::arithmetic::power::pow, 17);
        }
        lemma_hex(a as nat, b as nat, 16);
    }
}

/// Adds the bytes of `more`.
fn push_all(out: &mut Vec<u8>, more: &[u8])
    ensures
        final(out)@ == old(out)@ + more@,
{
    let ghost before = out@;
    let mut i: usize = 0;
    assert(before + more@.take(0) =~= before);
    while i < more.len()
        invariant
            i <= more.len(),
            out@ == before + more@.take(i as int),
        decreases more.len() - i,
    {
        out.push(more[i]);
        assert(out@ =~= before + more@.take(i + 1));
        i += 1;
    }
    assert(more@.take(i as int) =~= more@);
}

/// The number that a count is written as.
fn count32(n: usize) -> (r: u32)
    ensures
        r == low32(n as nat),
{
    let wide: u64 = n as u64;
    assert(wide % 0x1_0000_0000u64 <= 0xffff_ffffu64) by (bit_vector);
    (wide % 0x1_0000_0000) as u32
}

/// Adds an artifact.
fn push_item(out: &mut Vec<u8>, name: &str, data: &Vec<u8>)
    ensures
        final(out)@ == old(out)@ + item_bytes((name@, data@)),
{
    let ghost before = out@;
    let bytes = name.as_bytes();
    push_all(out, vstd::bytes::u32_to_le_bytes(count32(bytes.len())).as_slice());
    push_all(out, bytes);
    push_all(out, vstd::bytes::u64_to_le_bytes(data.len() as u64).as_slice());
    push_all(out, data.as_slice());
    assert(out@ =~= before + item_bytes((name@, data@)));
}

/// A reader of bytes.
struct Reader<'a> {
    buf: &'a [u8],
    pos: usize,
}

impl<'a> Reader<'a> {
    /// The bytes that were not read yet.
    spec fn rest(&self) -> Seq<u8> {
        self.buf@.skip(self.pos as int)
    }

    spec fn wf(&self) -> bool {
        self.pos <= self.buf@.len()
    }

    fn take(&mut self, n: u64) -> (r: Option<&'a [u8]>)
        requires
            old(self).wf(),
        ensures
            final(self).wf(),
            match r {
                Some(b) => read_bytes(old(self).rest(), n as nat) == Some((b@, final(self).rest())),
                None => read_bytes(old(self).rest(), n as nat) is None,
            },
    {
        let left: usize = self.buf.len() - self.pos;
        if n > left as u64 {
            return None;
        }
        let ghost before = self.rest();
        let end: usize = self.pos + n as usize;
        let slice = vstd::slice::slice_subrange(self.buf, self.pos, end);
        assert(slice@ =~= before.take(n as int));
        self.pos = end;
        assert(self.rest() =~= before.skip(n as int));
        Some(slice)
    }

    fn number32(&mut self) -> (r: Option<u32>)
        requires
            old(self).wf(),
        ensures
            final(self).wf(),
            match r {
                Some(v) => read_u32(old(self).rest()) == Some((v, final(self).rest())),
                None => read_u32(old(self).rest()) is None,
            },
    {
        match self.take(4) {
            Some(b) => Some(vstd::bytes::u32_from_le_bytes(b)),
            None => None,
        }
    }

    fn number64(&mut self) -> (r: Option<u64>)
        requires
            old(self).wf(),
        ensures
            final(self).wf(),
            match r {
                Some(v) => read_u64(old(self).rest()) == Some((v, final(self).rest())),
                None => read_u64(old(self).rest()) is None,
            },
    {
        match self.take(8) {
            Some(b) => Some(vstd::bytes::u64_from_le_bytes(b)),
            None => None,
        }
    }

    fn item(&mut self) -> (r: Option<(String, Vec<u8>)>)
        requires
            old(self).wf(),
        ensures
            final(self).wf(),
            match r {
                Some(item) => read_item(old(self).rest()) == Some(
                    ((item.0@, item.1@), final(self).rest()),
                ),
                None => read_item(old(self).rest()) is None,
            },
    {
        let name_len = match self.number32() {
            Some(n) => n,
            None => {
                return None;
            },
        };
        let name = match self.take(name_len as u64) {
            Some(b) => content::text_of_bytes(b),
            None => {
                return None;
            },
        };
        let data_len = match self.number64() {
            Some(n) => n,
            None => {
                return None;
            },
        };
        match self.take(data_len) {
            Some(b) => {
                let mut data: Vec<u8> = Vec::new();
                push_all(&mut data, b);
                assert(data@ =~= b@);
                Some((name, data))
            },
            None => None,
        }
    }

    fn logs(&mut self) -> (r: Option<String>)
        requires
            old(self).wf(),
        ensures
            final(self).wf(),
            match r {
                Some(logs) => read_logs(old(self).rest()) == Some(logs@),
                None => read_logs(old(self).rest()) is None,
            },
    {
        let n = match self.number64() {
            Some(n) => n,
            None => {
                return None;
            },
        };
        match self.take(n) {
            Some(b) => Some(content::text_of_bytes(b)),
            None => None,
        }
    }
}

proof fn lemma_items_short(s: Seq<u8>, k: nat, n: nat)
    requires
        k <= n,
        read_items(s, k) is None,
    ensures
        read_items(s, n) is None,
    decreases n,
{
    if k < n {
        lemma_items_short(s, k, (n - 1) as nat);
    }
}

/// The error of bytes that end too early.
fn truncated() -> (e: Error)
    ensures
        e@ == ErrorView::Io("truncated cache entry"@),
{
    Error::Io("truncated cache entry".to_owned())
}

impl CacheEntry {
    /// The bytes in which the entry is kept.
    pub fn encode(&self) -> (r: Vec<u8>)
        ensures
            r@ == encoded(self@),
    {
        let mut out: Vec<u8> = vstd::bytes::u32_to_le_bytes(count32(self.artifacts.len()));
        let ghost head = out@;
        let ghost all = executor::blob_views(self.artifacts@);
        let mut i: usize = 0;
        assert(out@ =~= head + items_bytes(all.take(0)));
        while i < self.artifacts.len()
            invariant
                i <= self.artifacts.len(),
                all == executor::blob_views(self.artifacts@),
                out@ == head + items_bytes(all.take(i as int)),
            decreases self.artifacts.len() - i,
        {
            push_item(&mut out, self.artifacts[i].0.as_str(), &self.artifacts[i].1);
            proof {
                let next = all.take(i + 1);
                assert(next.drop_last() =~= all.take(i as int));
                assert(next.last() == (self.artifacts@[i as int].0@, self.artifacts@[i as int].1@));
                assert(out@ =~= head + items_bytes(next));
            }
            i += 1;
        }
        assert(all.take(i as int) =~= all);
        let ghost before = out@;
        let logs = self.logs.as_str().as_bytes();
        push_all(&mut out, vstd::bytes::u64_to_le_bytes(logs.len() as u64).as_slice());
        push_all(&mut out, logs);
        assert(out@ =~= before + logs_bytes(self.logs@));
        out
    }

    /// The entry that is kept in the bytes.
    pub fn decode(bytes: &[u8]) -> (r: Result<CacheEntry, Error>)
        ensures
            match r {
                Ok(entry) => decoded(bytes@) == Some(entry@),
                Err(e) => decoded(bytes@) is None && e@ == ErrorView::Io("truncated cache entry"@),
            },
    {
        let mut reader = Reader { buf: bytes, pos: 0 };
        assert(reader.rest() =~= bytes@);
        let count = match reader.number32() {
            Some(n) => n,
            None => {
                return Err(truncated());
            },
        };
        let ghost s1 = reader.rest();
        let mut artifacts: Vec<(String, Vec<u8>)> = Vec::new();
        let mut i: u32 = 0;
        assert(executor::blob_views(artifacts@) =~= Seq::empty());
        while i < count
            invariant
                i <= count,
                reader.wf(),
                read_u32(bytes@) == Some((count, s1)),
                read_items(s1, i as nat) == Some(
                    (executor::blob_views(artifacts@), reader.rest()),
                ),
            decreases count - i,
        {
            let ghost before = artifacts@;
            match reader.item() {
                Some(item) => {
                    artifacts.push(item);
                    assert(executor::blob_views(artifacts@) =~= executor::blob_views(before).push(
                        (item.0@, item.1@),
                    ));
                },
                None => {
                    proof {
                        lemma_items_short(s1, (i + 1) as nat, count as nat);
                    }
                    return Err(truncated());
                },
            }
            i += 1;
        }
        match reader.logs() {
            Some(logs) => Ok(CacheEntry { artifacts, logs }),
            None => Err(truncated()),
        }
    }
}

/// The name of the file in which the entry of a key is kept.
pub fn entry_file(key: u64) -> (s: String)
    ensures
        s@ == entry_name(key),
{
    let mut s = hex_of(key, 16);
    s.append(".entry");
    s
}

/// The last `n` hexadecimal digits of `v`.
fn hex_of(v: u64, n: u32) -> (s: String)
    ensures
        s@ == hex(v as nat, n as nat),
    decreases n,
{
    if n == 0 {
        String::new()
    } else {
        let mut s = hex_of(v / 16, n - 1);
        let d: u8 = (v % 16) as u8;
        let c: char = if d < 10 {
            (0x30 + d) as char
        } else {
            (0x57 + d) as char
        };
        s.push(c);
        s
    }
}

impl CacheStore {
    /// Takes in the entry that was kept under `key`. Bytes that end too early
    /// change nothing.
    pub fn load(&mut self, key: u64, bytes: &[u8]) -> (r: Result<(), Error>)
        ensures
            match r {
                Ok(_) => decoded(bytes@) is Some && final(self)@ == old(self)@.insert(
                    key,
                    decoded(bytes@)->0,
                ),
                Err(e) => {
                    &&& decoded(bytes@) is None
                    &&& e@ == ErrorView::Io("truncated cache entry"@)
                    &&& *final(self) == *old(self)
                },
            },
    {
        match CacheEntry::decode(bytes) {
            Ok(entry) => {
                self.put(key, entry);
                Ok(())
            },
            Err(e) => Err(e),
        }
    }
}

} // verus!
