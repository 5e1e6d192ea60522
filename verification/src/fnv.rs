use vstd::prelude::*;
use vstd::string::StringSliceAdditionalSpecFns;

verus! {

/// The FNV-1a offset basis: the hash of no bytes.
pub const FNV_OFFSET: u64 = 0xcbf2_9ce4_8422_2325;

/// The FNV-1a prime.
pub const FNV_PRIME: u64 = 0x0100_0000_01b3;

/// The fingerprint of the rule sources that the hand-written Meadow rules
/// follow.
pub const RULES: u64 = 0x01a5_efac_75d5_6126;

/// One FNV-1a step: mix a byte in, then multiply by the prime modulo 2^64.
pub open spec fn fnv_step(h: u64, b: u8) -> u64 {
    (h ^ (b as u64)).wrapping_mul(FNV_PRIME)
}

/// FNV-1a of `bytes`, starting from the state `h`.
pub open spec fn fnv_from(h: u64, bytes: Seq<u8>) -> u64
    decreases bytes.len(),
{
    if bytes.len() == 0 {
        h
    } else {
        fnv_step(fnv_from(h, bytes.drop_last()), bytes.last())
    }
}

/// FNV-1a of `bytes` from the offset basis.
pub open spec fn fnv1a(bytes: Seq<u8>) -> u64 {
    fnv_from(FNV_OFFSET, bytes)
}

/// FNV-1a over the UTF-8 bytes of `text`: stable across builds and
/// platforms.
pub fn fingerprint(text: &str) -> (h: u64)
    ensures
        h == fnv1a(text.spec_bytes()),
{
    let bytes = text.as_bytes();
    let mut h: u64 = FNV_OFFSET;
    let mut i: usize = 0;
    while i < bytes.len()
        invariant
            0 <= i <= bytes@.len(),
            bytes@ == text.spec_bytes(),
            h == fnv_from(FNV_OFFSET, bytes@.take(i as int)),
        decreases bytes@.len() - i,
    {
        proof {
            assert(bytes@.take(i + 1).drop_last() == bytes@.take(i as int));
        }
        h ^= bytes[i] as u64;
        h = h.wrapping_mul(FNV_PRIME);
        i += 1;
    }
    proof {
        assert(bytes@.take(i as int) == bytes@);
    }
    h
}

/// Whether `rules` (the rule sources, concatenated) are the ones the Meadow
/// translation follows: their fingerprint is `RULES`.
pub fn rules_unchanged(rules: &str) -> (ok: bool)
    ensures
        ok == (fnv1a(rules.spec_bytes()) == RULES),
{
    fingerprint(rules) == RULES
}

/// FNV-1a with its published constants: no bytes hash to the offset basis
/// 0xcbf29ce484222325, and each byte is mixed in by exclusive or and then
/// multiplied by the prime 1099511628211 modulo 2^64.
pub proof fn lemma_fnv_constants(h: u64, b: u8)
    ensures
        fnv1a(seq![]) == 0xcbf2_9ce4_8422_2325u64,
        fnv_from(h, seq![b]) as int == ((h ^ (b as u64)) as int * 1099511628211) % 0x1_0000_0000_0000_0000,
{
    assert(seq![b].drop_last() =~= Seq::<u8>::empty());
    assert(fnv_from(h, Seq::<u8>::empty()) == h);
    assert(seq![b].last() == b);
    assert(fnv_from(h, seq![b]) == fnv_step(h, b));
    let x = h ^ (b as u64);
    assert(fnv_step(h, b) == vstd::wrapping::u64_specs::wrapping_mul(x, FNV_PRIME));
    assert(fnv1a(seq![]) == FNV_OFFSET);
}

/// Hashing in pieces: the hash of `a + b` continues from the state after `a`.
pub proof fn lemma_fnv_concat(h: u64, a: Seq<u8>, b: Seq<u8>)
    ensures
        fnv_from(h, a + b) == fnv_from(fnv_from(h, a), b),
    decreases b.len(),
{
    if b.len() == 0 {
        assert(a + b == a);
    } else {
        assert((a + b).drop_last() == a + b.drop_last());
        lemma_fnv_concat(h, a, b.drop_last());
    }
}

proof fn lemma_wrapping_mul_prime(x: u64)
    ensures
        x.wrapping_mul(FNV_PRIME) == (x * 0x0100_0000_01b3u64) as u64,
{
    assert(x.wrapping_mul(FNV_PRIME) == ((x * 0x0100_0000_01b3u64) % 0x1_0000_0000_0000_0000) as u64);
    assert(((x * 0x0100_0000_01b3u64) % 0x1_0000_0000_0000_0000) as u64 == (x * 0x0100_0000_01b3u64) as u64) by (bit_vector);
}

/// One step is a bijection of the state for a fixed byte: multiplying by
/// the odd prime is undone by multiplying by its inverse modulo 2^64,
/// `0xce96_5057_aff6_957b`.
proof fn lemma_step_injective(g: u64, h: u64, b: u8)
    requires
        g != h,
    ensures
        fnv_step(g, b) != fnv_step(h, b),
{
    let x = g ^ (b as u64);
    let y = h ^ (b as u64);
    assert(g != h ==> g ^ (b as u64) != h ^ (b as u64)) by (bit_vector);
    assert(((x * 0x0100_0000_01b3u64) as u64 * 0xce96_5057_aff6_957bu64) as u64 == x) by (bit_vector);
    assert(((y * 0x0100_0000_01b3u64) as u64 * 0xce96_5057_aff6_957bu64) as u64 == y) by (bit_vector);
    lemma_wrapping_mul_prime(x);
    lemma_wrapping_mul_prime(y);
}

/// Two different bytes move one state to two different states.
proof fn lemma_step_bytes(h: u64, a: u8, b: u8)
    requires
        a != b,
    ensures
        fnv_step(h, a) != fnv_step(h, b),
{
    let x = h ^ (a as u64);
    let y = h ^ (b as u64);
    assert(a != b ==> h ^ (a as u64) != h ^ (b as u64)) by (bit_vector);
    assert(((x * 0x0100_0000_01b3u64) as u64 * 0xce96_5057_aff6_957bu64) as u64 == x) by (bit_vector);
    assert(((y * 0x0100_0000_01b3u64) as u64 * 0xce96_5057_aff6_957bu64) as u64 == y) by (bit_vector);
    lemma_wrapping_mul_prime(x);
    lemma_wrapping_mul_prime(y);
}

/// A one-byte edit always changes the hash: texts of the same length that
/// differ at exactly one byte have different FNV-1a values, from any
/// starting state.
pub proof fn lemma_fnv_one_byte_edit(h: u64, s: Seq<u8>, t: Seq<u8>, k: int)
    requires
        s.len() == t.len(),
        0 <= k < s.len(),
        s[k] != t[k],
        forall|i: int| 0 <= i < s.len() && i != k ==> s[i] == t[i],
    ensures
        fnv_from(h, s) != fnv_from(h, t),
    decreases s.len(),
{
    let n = s.len() - 1;
    if k == n {
        assert(s.drop_last() =~= t.drop_last());
        lemma_step_bytes(fnv_from(h, s.drop_last()), s.last(), t.last());
    } else {
        assert(s[n] == t[n]);
        lemma_fnv_one_byte_edit(h, s.drop_last(), t.drop_last(), k);
        lemma_step_injective(fnv_from(h, s.drop_last()), fnv_from(h, t.drop_last()), s.last());
    }
}

/// A one-byte edit of a text of the same length changes its fingerprint,
/// so editing one byte of the rule sources is always noticed.
pub proof fn lemma_fingerprint_one_byte_edit(s: Seq<u8>, t: Seq<u8>, k: int)
    requires
        s.len() == t.len(),
        0 <= k < s.len(),
        s[k] != t[k],
        forall|i: int| 0 <= i < s.len() && i != k ==> s[i] == t[i],
    ensures
        fnv1a(s) != fnv1a(t),
{
    lemma_fnv_one_byte_edit(FNV_OFFSET, s, t, k);
}

} // verus!
