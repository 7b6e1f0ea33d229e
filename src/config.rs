use vstd::prelude::*;
use crate::bitset::BitSet;
use crate::cell::{Corner, Edge, edge_offset};
use crate::grid::{Index, offset};

verus! {

/// Corner `c` of cell `idx`, along axis `axis`.
pub open spec fn corner_at(idx: Index, c: Corner, axis: nat) -> int
    recommends
        axis < 3,
{
    idx[axis as int] + c.pos(axis)
}

pub open spec fn corner_of(id: nat) -> Corner {
    if id == 0 {
        Corner::A
    } else if id == 1 {
        Corner::B
    } else if id == 2 {
        Corner::C
    } else if id == 3 {
        Corner::D
    } else if id == 4 {
        Corner::E
    } else if id == 5 {
        Corner::F
    } else if id == 6 {
        Corner::G
    } else {
        Corner::H
    }
}

/// The grid points at the eight corners of cell `idx`, in the order of the corners.
pub fn cell_corners(idx: Index) -> (r: [Index; 8])
    requires
        idx[0] < usize::MAX,
        idx[1] < usize::MAX,
        idx[2] < usize::MAX,
    ensures
        forall|c: int, a: int|
            0 <= c < 8 && 0 <= a < 3 ==> #[trigger] r[c][a] == corner_at(idx, corner_of(c as nat), a as nat),
{
    let (i, j, k) = (idx[0], idx[1], idx[2]);
    let r = [
        [i, j, k],
        [i + 1, j, k],
        [i, j + 1, k],
        [i + 1, j + 1, k],
        [i, j, k + 1],
        [i + 1, j, k + 1],
        [i, j + 1, k + 1],
        [i + 1, j + 1, k + 1],
    ];
    assert forall|c: int, a: int|
        0 <= c < 8 && 0 <= a < 3 implies #[trigger] r[c][a] == corner_at(idx, corner_of(c as nat), a as nat) by {
        if a == 0 {
        } else if a == 1 {
        } else {
        }
    }
    r
}

/// The sign mask of a cell: corner `c` is in it iff `negative[c]`, that is iff
/// the field is negative at that corner.
pub fn sign_mask(negative: [bool; 8]) -> (r: BitSet)
    ensures
        forall|c: int| #[trigger] r.has(c) == (0 <= c < 8 && negative[c]),
        r.bits < 256,
{
    let mut r = BitSet::new(0);
    assert forall|c: int| !(#[trigger] r.has(c)) by {
        if 0 <= c < 16 {
            let k = c as u16;
            assert((0u16 >> k) & 1u16 == 0u16) by (bit_vector);
        }
    }
    let mut c: usize = 0;
    while c < 8
        invariant
            c <= 8,
            forall|d: int| #[trigger] r.has(d) == (0 <= d < c && negative[d]),
        decreases 8 - c,
    {
        if negative[c] {
            r.set(c);
        }
        c = c + 1;
    }
    let b = r.bits;
    assert(b < 256) by {
        assert(forall|k: u16| 8 <= k < 16 ==> #[trigger] crate::bitset::bit(b, k) == r.has(k as int));
        assert(!crate::bitset::bit(b, 8) && !crate::bitset::bit(b, 9) && !crate::bitset::bit(b, 10)
            && !crate::bitset::bit(b, 11) && !crate::bitset::bit(b, 12) && !crate::bitset::bit(b, 13)
            && !crate::bitset::bit(b, 14) && !crate::bitset::bit(b, 15));
        assert(((b >> 8u16) & 1u16 != 1u16 && (b >> 9u16) & 1u16 != 1u16 && (b >> 10u16) & 1u16 != 1u16
            && (b >> 11u16) & 1u16 != 1u16 && (b >> 12u16) & 1u16 != 1u16 && (b >> 13u16) & 1u16 != 1u16
            && (b >> 14u16) & 1u16 != 1u16 && (b >> 15u16) & 1u16 != 1u16) ==> b < 256) by (bit_vector);
    }
    r
}

/// `sets[k]` is the first of `sets` that holds edge `e`.
pub open spec fn first_holding(sets: Seq<BitSet>, e: Edge, k: int) -> bool {
    0 <= k < sets.len() && sets[k].has(e.id() as int) && forall|l: int|
        0 <= l < k ==> !(#[trigger] sets[l]).has(e.id() as int)
}

/// Among the surface patches that `configs` lists for a cell of sign mask
/// `mask`, the one that crosses edge `e`: the first that holds it. `None` where
/// none does, which a well-formed table never gives for a crossed edge: callers
/// treat it as a fatal fault of the table.
pub fn connected_edges(configs: &Vec<Vec<BitSet>>, e: Edge, mask: BitSet) -> (r: Option<BitSet>)
    requires
        mask.bits < configs@.len(),
    ensures
        match r {
            Some(s) => exists|k: int| first_holding(configs@[mask.bits as int]@, e, k)
                && configs@[mask.bits as int]@[k] == s,
            None => forall|k: int|
                0 <= k < configs@[mask.bits as int]@.len() ==> !(#[trigger] configs@[mask.bits as int]@[k]).has(
                    e.id() as int,
                ),
        },
{
    let sets = &configs[mask.as_usize()];
    let ei = e.as_usize();
    let mut k: usize = 0;
    while k < sets.len()
        invariant
            sets@ == configs@[mask.bits as int]@,
            ei == e.id(),
            k <= sets@.len(),
            forall|l: int| 0 <= l < k ==> !(#[trigger] sets@[l]).has(e.id() as int),
        decreases sets@.len() - k,
    {
        if sets[k].get(ei) {
            assert(first_holding(sets@, e, k as int));
            return Some(sets[k]);
        }
        k = k + 1;
    }
    None
}

/// `key` is where the crossing of edge `e` of cell `idx` is stored: edge `e` of
/// cell `idx` is the base edge along its axis at point `idx + edge_offset(e)`.
#[verifier::opaque]
pub open spec fn is_edge_key(key: (Edge, Index), e: Edge, idx: Index) -> bool {
    key.0.id() == e.axis() && key.1[0] == idx[0] + e.ends().0.pos(0) && key.1[1] == idx[1]
        + e.ends().0.pos(1) && key.1[2] == idx[2] + e.ends().0.pos(2)
}

/// `key` is the key of an edge of `set` numbered below `n`.
pub open spec fn key_of_set(key: (Edge, Index), set: BitSet, idx: Index, n: int) -> bool {
    exists|e: Edge| e.id() < n && set.has(e.id() as int) && #[trigger] is_edge_key(key, e, idx)
}

/// Distinct edges of a cell are stored under distinct keys.
pub proof fn lemma_key_determines_edge(key: (Edge, Index), e1: Edge, e2: Edge, idx: Index)
    requires
        is_edge_key(key, e1, idx),
        is_edge_key(key, e2, idx),
    ensures
        e1 == e2,
{
    reveal(is_edge_key);
    let (c1, c2) = (e1.ends().0, e2.ends().0);
    assert(c1.pos(0) == c2.pos(0) && c1.pos(1) == c2.pos(1) && c1.pos(2) == c2.pos(2));
    assert(c1 == c2);
}

/// The keys under which the crossings of the edges of `set` in cell `idx` are
/// stored, one for each edge of `set`.
#[verifier::rlimit(40)]
pub fn patch_edges(set: BitSet, idx: Index) -> (r: Vec<(Edge, Index)>)
    requires
        idx[0] < usize::MAX,
        idx[1] < usize::MAX,
        idx[2] < usize::MAX,
    ensures
        r@.len() <= 12,
        forall|e: Edge| set.has(e.id() as int) <==> exists|k: int|
            0 <= k < r@.len() && #[trigger] is_edge_key(r@[k], e, idx),
        forall|k: int| 0 <= k < r@.len() ==> #[trigger] key_of_set(r@[k], set, idx, 12),
{
    let mut r: Vec<(Edge, Index)> = Vec::new();
    let mut i: usize = 0;
    while i < 12
        invariant
            i <= 12,
            r@.len() <= i,
            idx[0] < usize::MAX,
            idx[1] < usize::MAX,
            idx[2] < usize::MAX,
            forall|k: int| 0 <= k < r@.len() ==> #[trigger] key_of_set(r@[k], set, idx, i as int),
            forall|e: Edge| e.id() < i && set.has(e.id() as int) ==> exists|k: int|
                0 <= k < r@.len() && #[trigger] is_edge_key(r@[k], e, idx),
        decreases 12 - i,
    {
        if set.get(i) {
            let e = Edge::from_usize(i);
            let off = edge_offset(e);
            let key = (e.base(), offset(idx, off));
            let ghost r0 = r@;
            r.push(key);
            assert(is_edge_key(r@[r@.len() - 1], e, idx)) by {
                reveal(is_edge_key);
            }
            assert forall|k: int| 0 <= k < r@.len() implies #[trigger] key_of_set(r@[k], set, idx, i + 1) by {
                if k < r0.len() {
                    assert(r@[k] == r0[k]);
                    assert(key_of_set(r0[k], set, idx, i as int));
                    let e2 = choose|e2: Edge| e2.id() < i && set.has(e2.id() as int) && #[trigger] is_edge_key(r0[k], e2, idx);
                    assert(e2.id() < i + 1);
                } else {
                    assert(is_edge_key(r@[k], e, idx));
                }
            }
            assert forall|e2: Edge| e2.id() < i + 1 && set.has(e2.id() as int) implies exists|k: int|
                0 <= k < r@.len() && #[trigger] is_edge_key(r@[k], e2, idx) by {
                if e2.id() < i {
                    let k = choose|k: int| 0 <= k < r0.len() && #[trigger] is_edge_key(r0[k], e2, idx);
                    assert(r@[k] == r0[k]);
                } else {
                    assert(e2 == e);
                }
            }
        } else {
            assert forall|k: int| 0 <= k < r@.len() implies #[trigger] key_of_set(r@[k], set, idx, i + 1) by {
                assert(key_of_set(r@[k], set, idx, i as int));
                let e2 = choose|e2: Edge| e2.id() < i && set.has(e2.id() as int) && #[trigger] is_edge_key(r@[k], e2, idx);
                assert(e2.id() < i + 1);
            }
            assert forall|e2: Edge| e2.id() < i + 1 && set.has(e2.id() as int) implies exists|k: int|
                0 <= k < r@.len() && #[trigger] is_edge_key(r@[k], e2, idx) by {
                if e2.id() == i {
                    assert(!set.has(i as int));
                }
            }
        }
        i = i + 1;
    }
    assert forall|e: Edge| (exists|k: int| 0 <= k < r@.len() && #[trigger] is_edge_key(r@[k], e, idx))
        implies set.has(e.id() as int) by {
        let k = choose|k: int| 0 <= k < r@.len() && #[trigger] is_edge_key(r@[k], e, idx);
        assert(key_of_set(r@[k], set, idx, 12int));
        let e2 = choose|e2: Edge| e2.id() < 12 && set.has(e2.id() as int) && #[trigger] is_edge_key(r@[k], e2, idx);
        lemma_key_determines_edge(r@[k], e, e2, idx);
    }
    r
}

/// The crossed base edges that leave grid point `idx`: base edge `b` goes to
/// `idx` plus one step along axis `b`, where the field is negative iff
/// `neighbors[b]` is `Some(true)`, or was not sampled where it is `None`. An
/// edge is crossed iff both its ends were sampled and the field differs in sign
/// at them.
pub fn crossed_edges(idx: Index, negative: bool, neighbors: [Option<bool>; 3]) -> (r: Vec<(Edge, Index)>)
    ensures
        forall|b: Edge, i: Index| #[trigger] r@.contains((b, i)) <==> (i == idx && b.id() < 3
            && neighbors[b.id() as int] == Some(!negative)),
{
    let mut r: Vec<(Edge, Index)> = Vec::new();
    let mut a: usize = 0;
    while a < 3
        invariant
            a <= 3,
            forall|b: Edge, i: Index| #[trigger] r@.contains((b, i)) <==> (i == idx && b.id() < a
                && neighbors[b.id() as int] == Some(!negative)),
        decreases 3 - a,
    {
        let ghost r0 = r@;
        let e = Edge::from_usize(a);
        let crossed = match neighbors[a] {
            Some(n) => n != negative,
            None => false,
        };
        if crossed {
            r.push((e, idx));
            assert forall|b: Edge, i: Index| #[trigger] r@.contains((b, i)) <==> (r0.contains((b, i))
                || (b, i) == (e, idx)) by {
                if r@.contains((b, i)) {
                    let k = choose|k: int| 0 <= k < r@.len() && r@[k] == (b, i);
                    if k < r0.len() {
                        assert(r0[k] == (b, i));
                    }
                }
                if r0.contains((b, i)) {
                    let k = choose|k: int| 0 <= k < r0.len() && r0[k] == (b, i);
                    assert(r@[k] == (b, i));
                }
                if (b, i) == (e, idx) {
                    assert(r@[r0.len() as int] == (b, i));
                }
            }
        }
        assert forall|b: Edge, i: Index| #[trigger] r@.contains((b, i)) <==> (i == idx && b.id() < a + 1
            && neighbors[b.id() as int] == Some(!negative)) by {
            if b.id() == a {
                assert(b == e);
            }
        }
        a = a + 1;
    }
    r
}

} // verus!
