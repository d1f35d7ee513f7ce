use vstd::prelude::*;
use vstd::arithmetic::power2::pow2;

verus! {

/// The base-2 logarithm of `n`, rounded up: the least `k` with `2^k >= n`.
pub fn clog2(n: usize) -> (k: usize)
    requires
        n >= 1,
    ensures
        k <= usize::BITS,
        pow2(k as nat) >= n,
        k == 0 || pow2((k - 1) as nat) < n,
{
    let mut k: usize = 0;
    let mut p: u128 = 1;
    proof {
        vstd::arithmetic::power2::lemma2_to64();
        vstd::arithmetic::power2::lemma2_to64_rest();
    }
    while p < n as u128
        invariant
            p == pow2(k as nat),
            k <= usize::BITS,
            k == 0 || pow2((k - 1) as nat) < n,
            n <= usize::MAX,
            usize::MAX < pow2(usize::BITS as nat),
        decreases usize::BITS - k,
    {
        proof {
            vstd::arithmetic::power2::lemma_pow2_unfold((k + 1) as nat);
        }
        p = p * 2;
        k = k + 1;
    }
    k
}

} // verus!
