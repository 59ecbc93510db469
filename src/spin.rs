use vstd::prelude::*;

use crate::closet::{IsObs, IsState};

verus! {

/// The number of sites of the periodic spin chain.
pub const SITES: u32 = 128;

/// Whether site `i` of `bits` is up (1) or down (0).
pub open spec fn spin(bits: u128, i: int) -> int {
    if (bits >> (i as u128)) & 1 == 1 {
        1
    } else {
        0
    }
}

/// The number of up spins among sites `0..n`.
pub open spec fn ups(bits: u128, n: int) -> int
    decreases n,
{
    if n <= 0 {
        0
    } else {
        ups(bits, n - 1) + spin(bits, n - 1)
    }
}

/// The number of sites `i` in `0..n` such that `i` and its right-hand
/// neighbour on the ring are both up.
pub open spec fn up_pairs(bits: u128, n: int) -> int
    decreases n,
{
    if n <= 0 {
        0
    } else {
        up_pairs(bits, n - 1) + spin(bits, n - 1) * spin(bits, n % 128)
    }
}

/// The magnetisation of the chain: the sum of its spins, each `+1` or `-1`.
pub open spec fn magnetisation(bits: u128) -> int {
    2 * ups(bits, 128) - 128
}

/// The nearest-neighbour correlation: the sum over the ring of the product
/// of neighbouring spins, each `+1` or `-1`.
pub open spec fn correlation(bits: u128) -> int {
    4 * up_pairs(bits, 128) - 4 * ups(bits, 128) + 128
}

/// What is measured on a spin chain.
#[derive(Debug, Clone, Copy, PartialEq, Eq)]
pub struct SpinObs {
    pub avg: i64,
    pub corr: i64,
}

impl IsObs for SpinObs {}

/// A ring of 128 spins, site `i` up where bit `i` is set.
#[derive(Debug, Clone, Copy, PartialEq, Eq)]
pub struct SpinState {
    pub state: u128,
}

proof fn lemma_spin_bit(bits: u128, i: u128)
    requires
        i < 128,
    ensures
        (bits >> i) & 1 == 0 || (bits >> i) & 1 == 1,
{
    assert((bits >> i) & 1 == 0 || (bits >> i) & 1 == 1) by (bit_vector);
}

impl SpinState {
    /// Measures the magnetisation and the neighbour correlation.
    pub fn measure(&self) -> (r: SpinObs)
        ensures
            r.avg == magnetisation(self.state),
            r.corr == correlation(self.state),
    {
        let s = self.state;
        let mut avg: i64 = 0;
        let mut corr: i64 = 0;
        let mut i: u32 = 0;
        while i < SITES
            invariant
                i <= 128,
                avg == ups(s, i as int),
                corr == up_pairs(s, i as int),
                0 <= ups(s, i as int) <= i,
                0 <= up_pairs(s, i as int) <= i,
            decreases 128 - i,
        {
            let next: u32 = (i + 1) % SITES;
            proof {
                lemma_spin_bit(s, i as u128);
                lemma_spin_bit(s, next as u128);
            }
            let a = ((s >> i) & 1) as i64;
            let b = ((s >> next) & 1) as i64;
            assert(a == spin(s, i as int));
            assert(b == spin(s, (i + 1) as int % 128));
            avg = avg + a;
            if a == 1 && b == 1 {
                corr = corr + 1;
            }
            i = i + 1;
        }
        SpinObs { avg: 2 * avg - 128, corr: 4 * corr - 4 * avg + 128 }
    }

    /// The chain with the spin at site `k` reversed and all others kept.
    pub fn flipped(&self, k: u32) -> (r: SpinState)
        requires
            k < SITES,
        ensures
            spin(r.state, k as int) == 1 - spin(self.state, k as int),
            forall|i: int| 0 <= i < 128 && i != k ==> spin(r.state, i) == spin(self.state, i),
    {
        let r = SpinState { state: self.state ^ (1u128 << k) };
        proof {
            let s = self.state;
            let kk = k as u128;
            assert forall|i: int| 0 <= i < 128 implies spin(r.state, i) == if i == k {
                1 - spin(s, i)
            } else {
                spin(s, i)
            } by {
                let ii = i as u128;
                if ii == kk {
                    assert(((s ^ (1u128 << kk)) >> ii) & 1 != (s >> ii) & 1) by (bit_vector)
                        requires
                            ii == kk,
                            kk < 128,
                    ;
                } else {
                    assert(((s ^ (1u128 << kk)) >> ii) & 1 == (s >> ii) & 1) by (bit_vector)
                        requires
                            ii != kk,
                            kk < 128,
                            ii < 128,
                    ;
                }
                lemma_spin_bit(s, ii);
                lemma_spin_bit(s ^ (1u128 << kk), ii);
            }
        }
        r
    }
}

impl IsState for SpinState {
    type Obs = SpinObs;

    fn get_obs(&self) -> SpinObs {
        self.measure()
    }
}

} // verus!
