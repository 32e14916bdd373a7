//! Exact weights.
//!
//! An instruction with declared length `n` weighs `1 / 2^n`. Weights are
//! held as whole numbers of the unit `2^-127`, so that `1 / 2^n` is the
//! integer `2^(127 - n)` and every sum of weights is exact.

use vstd::prelude::*;
use vstd::arithmetic::power2::*;
use vstd::bits::*;

verus! {

/// The greatest declared length that has a weight.
pub const MAX_LEN: i32 = 127;

/// The weight, in units of `2^-127`, of a declared length.
pub open spec fn weight_of_len(max_len: int) -> nat
    recommends
        valid_len(max_len),
{
    pow2((MAX_LEN - max_len) as nat)
}

/// Whether a declared length has a weight: it is positive and at most
/// [`MAX_LEN`].
pub open spec fn valid_len(max_len: int) -> bool {
    1 <= max_len <= MAX_LEN
}

/// Two to the power 64, the base in which a weight's two limbs are read.
pub open spec fn limb_base() -> nat {
    0x1_0000_0000_0000_0000
}

/// The greatest value that a [`Weight`] can hold: `2^192 - 1`.
pub open spec fn weight_max() -> nat {
    (u128::MAX * limb_base() + u64::MAX) as nat
}

/// A non-negative whole number of units of `2^-127`, below `2^192`.
#[derive(Clone, Copy, Debug)]
pub struct Weight {
    pub hi: u128,
    pub lo: u64,
}

impl View for Weight {
    type V = nat;

    open spec fn view(&self) -> nat {
        (self.hi * limb_base() + self.lo) as nat
    }
}

impl Weight {
    /// The weight `1 / 2^max_len`, where the length is valid.
    pub fn from_max_len(max_len: i32) -> (w: Option<Weight>)
        ensures
            w.is_some() <==> valid_len(max_len as int),
            w matches Some(x) ==> x@ == weight_of_len(max_len as int),
    {
        if max_len < 1 || max_len > MAX_LEN {
            return None;
        }
        let e: u64 = (MAX_LEN - max_len) as u64;
        proof {
            lemma2_to64();
            lemma2_to64_rest();
        }
        if e < 64 {
            proof {
                lemma_pow2_strictly_increases(e as nat, 64);
                lemma_u64_shl_is_mul(1, e);
            }
            Some(Weight { hi: 0, lo: 1u64 << e })
        } else {
            let f: u64 = e - 64;
            proof {
                lemma_pow2_strictly_increases(f as nat, 64);
                lemma_u64_shl_is_mul(1, f);
                lemma_pow2_adds(f as nat, 64);
            }
            let top: u64 = 1u64 << f;
            Some(Weight { hi: top as u128, lo: 0 })
        }
    }

    /// The sum of two weights.
    pub fn add(&self, other: &Weight) -> (sum: Weight)
        requires
            self@ + other@ <= weight_max(),
        ensures
            sum@ == self@ + other@,
    {
        let low: u128 = self.lo as u128 + other.lo as u128;
        if low > u64::MAX as u128 {
            let rest: u128 = low - 0x1_0000_0000_0000_0000u128;
            Weight { hi: self.hi + other.hi + 1, lo: rest as u64 }
        } else {
            Weight { hi: self.hi + other.hi, lo: low as u64 }
        }
    }

    /// Whether this weight is strictly less than the other.
    pub fn lt(&self, other: &Weight) -> (less: bool)
        ensures
            less == (self@ < other@),
    {
        self.hi < other.hi || (self.hi == other.hi && self.lo < other.lo)
    }
}

} // verus!
