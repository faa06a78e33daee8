//! A 256-bit unsigned integer represented as four 64-bit limbs.

use vstd::prelude::*;

verus! {

use vstd::arithmetic::mul::lemma_mul_nonzero;
use vstd::arithmetic::power2::lemma_pow2_pos;
use vstd::arithmetic::power2::pow2;

/// An unsigned integer of exactly 256 bits, stored as four 64-bit limbs in
/// little-endian order: `limbs[0]` holds the least significant 64 bits.
#[derive(Clone, Copy, Debug)]
pub struct U256 {
    pub limbs: [u64; 4],
}

impl U256 {
    /// The numeric value: the limbs combine as base-2^64 digits, least
    /// significant first.
    pub open spec fn as_nat(self) -> nat {
        self.limbs[0] as nat + (self.limbs[1] as nat) * pow2(64)
            + (self.limbs[2] as nat) * pow2(128) + (self.limbs[3] as nat) * pow2(192)
    }

    /// Builds the value from four 64-bit limbs, least significant first.
    pub fn from_limbs(limbs: [u64; 4]) -> (r: U256)
        ensures
            r.limbs == limbs,
    {
        U256 { limbs }
    }

    /// True exactly when the value is zero.
    pub fn is_zero(&self) -> (r: bool)
        ensures
            r <==> self@ == 0,
    {
        proof {
            lemma_pow2_pos(64);
            lemma_pow2_pos(128);
            lemma_pow2_pos(192);
            lemma_mul_nonzero(self.limbs[1] as int, pow2(64) as int);
            lemma_mul_nonzero(self.limbs[2] as int, pow2(128) as int);
            lemma_mul_nonzero(self.limbs[3] as int, pow2(192) as int);
        }
        self.limbs[0] == 0 && self.limbs[1] == 0 && self.limbs[2] == 0 && self.limbs[3] == 0
    }
}

impl View for U256 {
    type V = nat;

    open spec fn view(&self) -> nat {
        self.as_nat()
    }
}

} // verus!
