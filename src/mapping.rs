use vstd::prelude::*;

verus! {

/// `x * k` kept to 32 bits.
pub open spec fn mul_mod(x: u32, k: u32) -> u32 {
    ((x as nat * k as nat) % 0x1_0000_0000nat) as u32
}

/// The 32-bit finaliser used to scramble the generator state: two
/// multiply steps, each preceded and followed by folding the high bits in.
pub open spec fn scramble(x: u32) -> u32 {
    let v1 = x ^ (x >> 16u32);
    let v2 = mul_mod(v1, 0x85eb_ca6b);
    let v3 = v2 ^ (v2 >> 13u32);
    let v4 = mul_mod(v3, 0xc2b2_ae35);
    v4 ^ (v4 >> 16u32)
}

/// Scrambles the bits of `x`.
pub fn hash_u32(x: u32) -> (r: u32)
    ensures
        r == scramble(x),
{
    let mut v = x;
    v ^= v.wrapping_shr(16);
    v = v.wrapping_mul(0x85eb_ca6b);
    v ^= v.wrapping_shr(13);
    v = v.wrapping_mul(0xc2b2_ae35);
    v ^= v.wrapping_shr(16);
    v
}

/// A deterministic stream of pseudo-random numbers: each draw scrambles
/// the previous state.
pub struct Random(u32);

impl Random {
    /// The current state.
    pub closed spec fn state(&self) -> u32 {
        self.0
    }

    pub fn new(seed: u32) -> (r: Random)
        ensures
            r.state() == seed,
    {
        Random(seed)
    }

    /// Draws the next raw number.
    pub fn next_u32(&mut self) -> (r: u32)
        ensures
            r == scramble(old(self).state()),
            final(self).state() == r,
    {
        self.0 = hash_u32(self.0);
        self.0
    }

    /// Draws a coin: true when the next raw number is even.
    pub fn bool(&mut self) -> (r: bool)
        ensures
            final(self).state() == scramble(old(self).state()),
            r == (final(self).state() % 2 == 0),
    {
        self.0 = hash_u32(self.0);
        self.0 % 2 == 0
    }
}

} // verus!
