//! FNV-1a (64-bit), fully deterministic.

use vstd::prelude::*;
use vstd::string::*;

verus! {

pub const FNV_OFFSET: u64 = 0xcbf29ce484222325;

pub const FNV_PRIME: u64 = 0x0000_0100_0000_01b3;

/// The digest state after one more byte.
pub open spec fn fnv_step(h: u64, b: u8) -> u64 {
    (h ^ (b as u64)).wrapping_mul(FNV_PRIME)
}

/// The digest state after `bytes`, from the state `h`.
pub open spec fn fnv(h: u64, bytes: Seq<u8>) -> u64
    decreases bytes.len(),
{
    if bytes.len() == 0 {
        h
    } else {
        fnv_step(fnv(h, bytes.drop_last()), bytes.last())
    }
}

/// The digest of `bytes`.
pub open spec fn digest(bytes: Seq<u8>) -> u64 {
    fnv(FNV_OFFSET, bytes)
}

/// The eight bytes of `v`, the lowest first.
pub open spec fn le64(v: u64) -> Seq<u8> {
    vstd::bytes::spec_u64_to_le_bytes(v)
}

/// A text with its length in bytes before it.
pub open spec fn framed(s: Seq<char>) -> Seq<u8> {
    le64(vstd::utf8::encode_utf8(s).len() as u64) + vstd::utf8::encode_utf8(s)
}

/// Writing two pieces one after the other is writing them as one.
pub proof fn law_writes_concatenate(h: u64, a: Seq<u8>, b: Seq<u8>)
    ensures
        fnv(fnv(h, a), b) == fnv(h, a + b),
    decreases b.len(),
{
    if b.len() == 0 {
        assert(a + b =~= a);
    } else {
        law_writes_concatenate(h, a, b.drop_last());
        assert((a + b).drop_last() =~= a + b.drop_last());
    }
}

/// No multiple of the prime is a multiple of 2^64, but for those of 2^64 itself.
/// The prime times 0xce965057aff6957b is 887285111055 times 2^64, and one.
proof fn lemma_prime_coprime(d: int, t: int)
    requires
        d * 0x0000_0100_0000_01b3 == t * 0x1_0000_0000_0000_0000,
        -0x1_0000_0000_0000_0000 < d < 0x1_0000_0000_0000_0000,
    ensures
        d == 0,
{
    let w: int = t * 0xce96_5057_aff6_957b - d * 887285111055;
    assert(d == w * 0x1_0000_0000_0000_0000);
}

/// Multiplying by the prime loses nothing.
proof fn lemma_prime_injective(x: u64, y: u64)
    requires
        x.wrapping_mul(FNV_PRIME) == y.wrapping_mul(FNV_PRIME),
    ensures
        x == y,
{
    let a: int = x * 0x0000_0100_0000_01b3;
    let b: int = y * 0x0000_0100_0000_01b3;
    let m: int = 0x1_0000_0000_0000_0000;
    assert(a % m == b % m);
    vstd::arithmetic::div_mod::lemma_fundamental_div_mod(a, m);
    vstd::arithmetic::div_mod::lemma_fundamental_div_mod(b, m);
    lemma_prime_coprime(x - y, a / m - b / m);
}

/// One more byte takes different states to different states.
pub proof fn law_step_injective(h: u64, g: u64, b: u8)
    requires
        h != g,
    ensures
        fnv_step(h, b) != fnv_step(g, b),
{
    if fnv_step(h, b) == fnv_step(g, b) {
        let c = b as u64;
        lemma_prime_injective(h ^ c, g ^ c);
        assert(h ^ c == g ^ c ==> h == g) by (bit_vector);
    }
}

/// The same bytes take different states to different states.
pub proof fn law_bytes_injective(h: u64, g: u64, bytes: Seq<u8>)
    requires
        h != g,
    ensures
        fnv(h, bytes) != fnv(g, bytes),
    decreases bytes.len(),
{
    if bytes.len() > 0 {
        law_bytes_injective(h, g, bytes.drop_last());
        law_step_injective(fnv(h, bytes.drop_last()), fnv(g, bytes.drop_last()), bytes.last());
    }
}

/// Changing one byte changes the digest.
pub proof fn law_one_byte_changes_digest(front: Seq<u8>, a: u8, b: u8, back: Seq<u8>)
    requires
        a != b,
    ensures
        digest(front + seq![a] + back) != digest(front + seq![b] + back),
{
    lemma_one_byte(digest(front), a, b);
    lemma_digest_at(front, a, back);
    lemma_digest_at(front, b, back);
    law_bytes_injective(fnv_step(digest(front), a), fnv_step(digest(front), b), back);
}

proof fn lemma_one_byte(h: u64, a: u8, b: u8)
    requires
        a != b,
    ensures
        fnv_step(h, a) != fnv_step(h, b),
{
    if fnv_step(h, a) == fnv_step(h, b) {
        let x = a as u64;
        let y = b as u64;
        lemma_prime_injective(h ^ x, h ^ y);
        assert(h ^ x == h ^ y ==> x == y) by (bit_vector);
    }
}

proof fn lemma_digest_at(front: Seq<u8>, a: u8, back: Seq<u8>)
    ensures
        digest(front + seq![a] + back) == fnv(fnv_step(digest(front), a), back),
{
    law_writes_concatenate(FNV_OFFSET, front + seq![a], back);
    assert((front + seq![a]).drop_last() =~= front);
}

/// The length of the text in bytes fits the number that it is written as.
pub open spec fn short(s: Seq<char>) -> bool {
    vstd::utf8::encode_utf8(s).len() <= u64::MAX
}

/// Numbers written one after the other are read back as they were.
pub proof fn law_numbers_delimited(a: u64, x: Seq<u8>, b: u64, y: Seq<u8>)
    requires
        le64(a) + x == le64(b) + y,
    ensures
        a == b,
        x == y,
{
    vstd::bytes::lemma_auto_spec_u64_to_from_le_bytes();
    let l = le64(a) + x;
    let r = le64(b) + y;
    assert(l.take(8) =~= le64(a));
    assert(r.take(8) =~= le64(b));
    assert(l.skip(8) =~= x);
    assert(r.skip(8) =~= y);
}

/// Blobs written with their lengths before them are read back as they were.
pub proof fn law_blobs_delimited(a: Seq<u8>, x: Seq<u8>, b: Seq<u8>, y: Seq<u8>)
    requires
        a.len() <= u64::MAX,
        b.len() <= u64::MAX,
        le64(a.len() as u64) + a + x == le64(b.len() as u64) + b + y,
    ensures
        a == b,
        x == y,
{
    assert(le64(a.len() as u64) + a + x =~= le64(a.len() as u64) + (a + x));
    assert(le64(b.len() as u64) + b + y =~= le64(b.len() as u64) + (b + y));
    law_numbers_delimited(a.len() as u64, a + x, b.len() as u64, b + y);
    assert((a + x).take(a.len() as int) =~= a);
    assert((b + y).take(a.len() as int) =~= b);
    assert((a + x).skip(a.len() as int) =~= x);
    assert((b + y).skip(a.len() as int) =~= y);
}

/// Texts are length-delimited: what is written as `a` and then `x` is not written
/// as anything else, so "ab" + "c" cannot collide with "a" + "bc".
pub proof fn law_texts_delimited(a: Seq<char>, x: Seq<u8>, b: Seq<char>, y: Seq<u8>)
    requires
        short(a),
        short(b),
        framed(a) + x == framed(b) + y,
    ensures
        a == b,
        x == y,
{
    law_blobs_delimited(vstd::utf8::encode_utf8(a), x, vstd::utf8::encode_utf8(b), y);
    vstd::utf8::encode_utf8_decode_utf8(a);
    vstd::utf8::encode_utf8_decode_utf8(b);
}

/// One-shot FNV-1a over a byte slice.
pub fn fnv1a(bytes: &[u8]) -> (d: u64)
    ensures
        d == digest(bytes@),
{
    let mut h = Hasher::new();
    h.write(bytes);
    h.finish()
}

/// Incremental accumulator so a cache key can fold together many pieces
/// (config fields plus file contents) into one deterministic digest.
pub struct Hasher {
    state: u64,
}

impl View for Hasher {
    type V = u64;

    /// The digest of what was written so far.
    closed spec fn view(&self) -> u64 {
        self.state
    }
}

impl Hasher {
    pub fn new() -> (h: Self)
        ensures
            h@ == digest(Seq::empty()),
    {
        Hasher { state: FNV_OFFSET }
    }

    pub fn write(&mut self, bytes: &[u8])
        ensures
            final(self)@ == fnv(old(self)@, bytes@),
    {
        let ghost h0 = self@;
        let n = bytes.len();
        let mut i: usize = 0;
        while i < n
            invariant
                i <= n == bytes.len(),
                self@ == fnv(h0, bytes@.take(i as int)),
            decreases n - i,
        {
            self.state = self.state ^ (bytes[i] as u64);
            self.state = self.state.wrapping_mul(FNV_PRIME);
            i += 1;
            assert(bytes@.take(i as int).drop_last() =~= bytes@.take(i - 1));
        }
        assert(bytes@.take(i as int) =~= bytes@);
    }

    /// Length-delimited so "ab" + "c" never collides with "a" + "bc".
    pub fn write_str(&mut self, s: &str)
        ensures
            final(self)@ == fnv(old(self)@, framed(s@)),
    {
        let bytes = s.as_bytes();
        self.write_u64(bytes.len() as u64);
        self.write(bytes);
        proof {
            law_writes_concatenate(old(self)@, le64(bytes@.len() as u64), bytes@);
        }
    }

    pub fn write_u64(&mut self, v: u64)
        ensures
            final(self)@ == fnv(old(self)@, le64(v)),
    {
        let bytes = vstd::bytes::u64_to_le_bytes(v);
        self.write(bytes.as_slice());
    }

    pub fn finish(&self) -> (d: u64)
        ensures
            d == self@,
    {
        self.state
    }
}

impl Clone for Hasher {
    fn clone(&self) -> (r: Self)
        ensures
            r@ == self@,
    {
        Hasher { state: self.state }
    }
}

impl Default for Hasher {
    fn default() -> (h: Self)
        ensures
            h@ == digest(Seq::empty()),
    {
        Hasher::new()
    }
}

} // verus!
