use vstd::prelude::*;
use vstd::arithmetic::power2::{pow2, lemma_pow2_unfold, lemma2_to64};

verus! {

/// A grid point `(i, j, k)`; its world position is `origin + res * (i, j, k)`.
pub type Index = [usize; 3];

/// Translates `idx` by `off`.
pub fn offset(idx: Index, off: Index) -> (r: Index)
    requires
        idx[0] + off[0] <= usize::MAX,
        idx[1] + off[1] <= usize::MAX,
        idx[2] + off[2] <= usize::MAX,
    ensures
        r[0] == idx[0] + off[0],
        r[1] == idx[1] + off[1],
        r[2] == idx[2] + off[2],
{
    [idx[0] + off[0], idx[1] + off[1], idx[2] + off[2]]
}

/// Translates `idx` by `-off`.
pub fn neg_offset(idx: Index, off: Index) -> (r: Index)
    requires
        off[0] <= idx[0],
        off[1] <= idx[1],
        off[2] <= idx[2],
    ensures
        r[0] == idx[0] - off[0],
        r[1] == idx[1] - off[1],
        r[2] == idx[2] - off[2],
{
    [idx[0] - off[0], idx[1] - off[1], idx[2] - off[2]]
}

/// The smallest power of two that is at least `x`.
pub fn pow2roundup(x: usize) -> (r: usize)
    requires
        1 <= x <= usize::MAX / 2 + 1,
    ensures
        exists|k: nat| r == pow2(k),
        x <= r,
        r == 1 || r / 2 < x,
{
    let mut p: usize = 1;
    let ghost mut k: nat = 0;
    proof {
        lemma2_to64();
    }
    while p < x
        invariant
            1 <= x <= usize::MAX / 2 + 1,
            p == pow2(k),
            p >= 1,
            p == 1 || p / 2 < x,
        decreases 2 * x - p,
    {
        proof {
            lemma_pow2_unfold(k + 1);
        }
        p = p * 2;
        proof {
            k = k + 1;
        }
    }
    p
}

} // verus!
