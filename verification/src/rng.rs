use vstd::prelude::*;

verus! {

/// The xorshift64* multiplier.
pub const SCRAMBLE: u64 = 0x2545_f491_4f6c_dd1d;

/// One xorshift64 step of the state.
pub open spec fn xorshift(s: u64) -> u64 {
    let a = s ^ (s >> 12u64);
    let b = a ^ (a << 25u64);
    b ^ (b >> 27u64)
}

/// What xorshift64* hands out for the state `s` it has just reached.
pub open spec fn scramble(s: u64) -> u64 {
    s.wrapping_mul(SCRAMBLE)
}

/// A small deterministic generator (xorshift64*), so that the cases are
/// the same on every run.
pub struct Rng(pub u64);

impl Rng {
    /// Advances the state one step and returns it scrambled.
    pub fn next(&mut self) -> (r: u64)
        ensures
            final(self).0 == xorshift(old(self).0),
            r == scramble(xorshift(old(self).0)),
    {
        self.0 ^= self.0 >> 12u64;
        self.0 ^= self.0 << 25u64;
        self.0 ^= self.0 >> 27u64;
        self.0.wrapping_mul(SCRAMBLE)
    }

    /// The next number, reduced below `n`.
    pub fn below(&mut self, n: usize) -> (r: usize)
        requires
            n > 0,
        ensures
            final(self).0 == xorshift(old(self).0),
            r == scramble(xorshift(old(self).0)) % (n as u64),
            r < n,
    {
        let x = self.next();
        (x % n as u64) as usize
    }
}

/// The state never falls to zero from a nonzero state, where xorshift would
/// stay forever.
pub proof fn lemma_xorshift_nonzero(s: u64)
    requires
        s != 0,
    ensures
        xorshift(s) != 0,
{
    let a = s ^ (s >> 12u64);
    let b = a ^ (a << 25u64);
    assert(s != 0 ==> s ^ (s >> 12u64) != 0) by (bit_vector);
    assert(a != 0 ==> a ^ (a << 25u64) != 0) by (bit_vector);
    assert(b != 0 ==> b ^ (b >> 27u64) != 0) by (bit_vector);
}

} // verus!
