use vstd::prelude::*;

verus! {

/// A set of small numbers `0..16` held as a bitmap. It names the corners of a
/// cell whose value is negative, or the edges of a cell that one surface patch
/// crosses.
#[derive(Clone, Copy, Debug, PartialEq, Eq, Hash, Structural)]
pub struct BitSet {
    pub bits: u16,
}

/// Bit `i` of `b` is set.
pub open spec fn bit(b: u16, i: u16) -> bool {
    (b >> i) & 1u16 == 1u16
}

impl BitSet {
    /// `i` is in the set.
    pub open spec fn has(self, i: int) -> bool {
        0 <= i < 16 && bit(self.bits, i as u16)
    }

    /// The set held in the low bits of `bits`.
    pub fn new(bits: u16) -> (r: BitSet)
        ensures
            r.bits == bits,
    {
        BitSet { bits }
    }

    /// Adds `i` to the set.
    pub fn set(&mut self, i: usize)
        requires
            i < 16,
        ensures
            forall|j: int| #[trigger] final(self).has(j) == (old(self).has(j) || j == i),
    {
        let b = self.bits;
        let k = i as u16;
        let nb = b | (1u16 << k);
        assert(forall|j: u16| j < 16 ==> (#[trigger] bit(nb, j) == (bit(b, j) || j == k))) by {
            assert(forall|j: u16|
                j < 16 ==> (((b | (1u16 << k)) >> j) & 1u16 == 1u16) == (((b >> j) & 1u16
                    == 1u16) || j == k)) by (bit_vector)
                requires
                    k < 16,
            ;
        }
        self.bits = nb;
        assert forall|j: int| #[trigger] self.has(j) == (old(self).has(j) || j == i) by {
            if 0 <= j < 16 {
                assert(bit(nb, j as u16) == (bit(b, j as u16) || j as u16 == k));
            }
        }
    }

    /// Whether `i` is in the set.
    pub fn get(&self, i: usize) -> (r: bool)
        requires
            i < 16,
        ensures
            r == self.has(i as int),
    {
        (self.bits >> (i as u16)) & 1u16 == 1u16
    }

    /// The bitmap as a number.
    pub fn as_usize(&self) -> (r: usize)
        ensures
            r == self.bits,
    {
        self.bits as usize
    }

    /// The members of the set, in increasing order.
    pub fn members(&self) -> (r: Vec<usize>)
        ensures
            forall|k: int, l: int| 0 <= k < l < r@.len() ==> r@[k] < r@[l],
            forall|x: usize| #[trigger] r@.contains(x) <==> self.has(x as int),
    {
        let mut r: Vec<usize> = Vec::new();
        let mut i: usize = 0;
        while i < 16
            invariant
                i <= 16,
                forall|k: int, l: int| 0 <= k < l < r@.len() ==> r@[k] < r@[l],
                forall|k: int| 0 <= k < r@.len() ==> #[trigger] r@[k] < i,
                forall|x: usize| #[trigger] r@.contains(x) <==> (x < i && self.has(x as int)),
            decreases 16 - i,
        {
            let ghost r0 = r@;
            if self.get(i) {
                r.push(i);
                assert forall|x: usize| #[trigger] r@.contains(x) <==> (r0.contains(x) || x == i) by {
                    if r@.contains(x) {
                        let k = choose|k: int| 0 <= k < r@.len() && r@[k] == x;
                        if k < r0.len() {
                            assert(r0[k] == x);
                        }
                    }
                    if r0.contains(x) {
                        let k = choose|k: int| 0 <= k < r0.len() && r0[k] == x;
                        assert(r@[k] == x);
                    }
                    if x == i {
                        assert(r@[r0.len() as int] == x);
                    }
                }
            }
            i = i + 1;
        }
        r
    }
}

} // verus!
