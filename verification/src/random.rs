//! A small pseudo-random number generator: the Lehmer generator with
//! multiplier 16807 and modulus 2^31 - 1.

use vstd::prelude::*;
use vstd::arithmetic::div_mod::{lemma_fundamental_div_mod, lemma_mod_multiples_vanish, lemma_small_mod};

verus! {

/// The modulus, 2^31 - 1.
pub const MODULUS: u32 = 2147483647;

/// The multiplier.
pub const MULTIPLIER: u64 = 16807;

/// The state of the generator.
pub struct Random {
    seed: u32,
}

/// The seed that follows `seed`.
pub open spec fn next_seed(seed: u32) -> u32 {
    ((seed as int * MULTIPLIER as int) % (MODULUS as int)) as u32
}

impl Random {
    /// The current seed.
    pub closed spec fn seed(&self) -> u32 {
        self.seed
    }

    /// A generator seeded with the low 31 bits of `s`; the two seeds from
    /// which the sequence would never move are replaced by 1.
    pub fn new(s: u32) -> (r: Self)
        ensures
            r.seed() == if s % 0x8000_0000 == 0 || s % 0x8000_0000 == MODULUS {
                1
            } else {
                (s % 0x8000_0000) as u32
            },
            r.seed() <= MODULUS,
    {
        let mut seed: u32 = s % 0x8000_0000;
        if seed == 0 || seed == MODULUS {
            seed = 1;
        }
        Random { seed }
    }

    /// Moves to the next seed, `seed * 16807 mod (2^31 - 1)`, and returns
    /// it.
    pub fn next(&mut self) -> (r: u32)
        ensures
            r == next_seed(old(self).seed()),
            final(self).seed() == r,
            r < MODULUS,
    {
        let product: u64 = self.seed as u64 * MULTIPLIER;
        // 2^31 is 1 modulo the modulus, so the high and the low part of
        // the product add up to the product, modulo it.
        let high: u64 = product / 0x8000_0000;
        let low: u64 = product % 0x8000_0000;
        let mut sum: u64 = high + low;
        proof {
            let m = MODULUS as int;
            lemma_fundamental_div_mod(product as int, 0x8000_0000);
            assert(product == high * m + sum);
            lemma_mod_multiples_vanish(high as int, sum as int, m);
            assert((product as int) % m == (sum as int) % m);
            if sum >= m {
                lemma_mod_multiples_vanish(-1, sum as int, m);
                lemma_small_mod((sum - m) as nat, m as nat);
            } else {
                lemma_small_mod(sum as nat, m as nat);
            }
        }
        if sum >= MODULUS as u64 {
            sum = sum - MODULUS as u64;
        }
        self.seed = sum as u32;
        self.seed
    }

    /// Returns a value in `[0, n)`, each about as likely as the other.
    pub fn uniform(&mut self, n: i32) -> (r: u32)
        requires
            n > 0,
        ensures
            r == next_seed(old(self).seed()) % (n as u32),
            final(self).seed() == next_seed(old(self).seed()),
            r < n,
    {
        self.next() % (n as u32)
    }

    /// Returns true about once in `n` calls.
    pub fn one_in(&mut self, n: i32) -> (r: bool)
        requires
            n > 0,
        ensures
            r == (next_seed(old(self).seed()) % (n as u32) == 0),
            final(self).seed() == next_seed(old(self).seed()),
    {
        self.next() % (n as u32) == 0
    }

    /// Picks a number of bits in `[0, max_log]` and returns a value of that
    /// many bits: a value below `2^max_log`, small ones more likely.
    pub fn skewed(&mut self, max_log: i32) -> (r: u32)
        requires
            0 <= max_log <= 30,
        ensures
            final(self).seed() == next_seed(next_seed(old(self).seed())),
            ({
                let bits = next_seed(old(self).seed()) % ((max_log + 1) as u32);
                r == final(self).seed() % (1u32 << bits)
            }),
    {
        let bits: u32 = self.uniform(max_log + 1);
        assert(bits <= 30 ==> 1 <= (1u32 << bits) <= 0x4000_0000) by (bit_vector);
        let range: u32 = 1u32 << bits;
        self.uniform(range as i32)
    }
}

} // verus!
