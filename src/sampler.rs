use vstd::prelude::*;
use crate::grid::Index;

verus! {

/// What the field is at a grid point, for an octant of a given half size:
/// exactly zero; close enough to zero that the octant may hold a crossing; or
/// so far from zero that it cannot.
#[derive(Clone, Copy, Debug, PartialEq, Eq, Structural)]
pub enum Sample {
    Zero,
    Near,
    Far,
}

/// The probe reported a non-zero value at `idx`.
pub open spec fn probed_nonzero<F: Fn(Index, usize) -> Sample>(probe: F, idx: Index) -> bool {
    exists|h: usize, s: Sample| #[trigger] probe.ensures((idx, h), s) && s != Sample::Zero
}

/// The probe reported zero at `idx`.
pub open spec fn probed_zero<F: Fn(Index, usize) -> Sample>(probe: F, idx: Index) -> bool {
    exists|h: usize| #[trigger] probe.ensures((idx, h), Sample::Zero)
}

/// Every component of `idx` is below `bound`.
pub open spec fn within(idx: Index, bound: nat) -> bool {
    idx[0] < bound && idx[1] < bound && idx[2] < bound
}

/// The points that the probe found non-zero, all inside `[0, bound)^3`.
pub open spec fn good_leaves<F: Fn(Index, usize) -> Sample>(probe: F, leaves: Seq<Index>, bound: nat) -> bool {
    forall|k: int| 0 <= k < leaves.len() ==> probed_nonzero(probe, #[trigger] leaves[k]) && within(leaves[k], bound)
}

/// The probe gives one answer for each point and half size.
pub open spec fn deterministic<F: Fn(Index, usize) -> Sample>(probe: F) -> bool {
    forall|i: Index, h: usize, s1: Sample, s2: Sample|
        #[trigger] probe.ensures((i, h), s1) && #[trigger] probe.ensures((i, h), s2) ==> s1 == s2
}

/// The probe's answer at `i` for half size `h`.
pub open spec fn answer<F: Fn(Index, usize) -> Sample>(probe: F, i: Index, h: usize) -> Sample {
    choose|s: Sample| probe.ensures((i, h), s)
}

/// Corner `c` (numbered as the corners of a cell) of the octants of side
/// `half` of the cube at `idx`: `idx + half * (c & 1, (c >> 1) & 1, c >> 2)`.
pub open spec fn corner(idx: Index, half: usize, c: nat) -> Index {
    [
        (idx[0] + (c % 2) * half) as usize,
        (idx[1] + ((c / 2) % 2) * half) as usize,
        (idx[2] + (c / 4) * half) as usize,
    ]
}

/// The descent into the cube at `idx` of side `size` meets a zero at one of
/// its first `c` octant corners, or below one of them: each corner is probed
/// with the octants' half size, and a corner found near zero is descended
/// into, down to octants of side 1.
pub open spec fn zero_upto<F: Fn(Index, usize) -> Sample>(probe: F, idx: Index, size: usize, c: nat) -> bool
    decreases size, c,
{
    if c == 0 || c > 8 || size < 2 {
        false
    } else {
        let half = size / 2;
        let p = corner(idx, half, (c - 1) as nat);
        let s = answer(probe, p, half);
        zero_upto(probe, idx, size, (c - 1) as nat) || s == Sample::Zero || (s == Sample::Near && half > 1
            && zero_upto(probe, p, half, 8))
    }
}

/// The points that the descent into the cube at `idx` of side `size` records
/// for its first `c` octant corners: a corner found far from zero, or at an
/// octant of side 1, is recorded; one found near zero is descended into.
pub open spec fn leaves_upto<F: Fn(Index, usize) -> Sample>(probe: F, idx: Index, size: usize, c: nat) -> Set<Index>
    decreases size, c,
{
    if c == 0 || c > 8 || size < 2 {
        Set::empty()
    } else {
        let half = size / 2;
        let p = corner(idx, half, (c - 1) as nat);
        let s = answer(probe, p, half);
        leaves_upto(probe, idx, size, (c - 1) as nat).union(
            if s == Sample::Near && half > 1 {
                leaves_upto(probe, p, half, 8)
            } else {
                set![p]
            },
        )
    }
}

proof fn lemma_zero_upto_grows<F: Fn(Index, usize) -> Sample>(probe: F, idx: Index, size: usize, c: nat, d: nat)
    requires
        c <= d <= 8,
        zero_upto(probe, idx, size, c),
    ensures
        zero_upto(probe, idx, size, d),
    decreases d - c,
{
    if c < d {
        lemma_zero_upto_grows(probe, idx, size, c, (d - 1) as nat);
    }
}

/// Samples the field over the cube of `size` steps whose lowest corner is the
/// grid point `(0, 0, 0)`, descending into each octant whose corner the probe
/// finds near zero, down to single cells. Returns the points that were
/// recorded, or the first point at which the probe found zero. Where the probe
/// answers the same for the same point and half size, the result is `Err`
/// exactly when the descent meets a zero, and otherwise holds exactly the
/// points that the descent records.
pub fn sample_octree<F: Fn(Index, usize) -> Sample>(probe: &F, size: usize) -> (r: Result<Vec<Index>, Index>)
    requires
        2 <= size,
        forall|i: Index, h: usize| #[trigger] probe.requires((i, h)),
    ensures
        r matches Ok(leaves) ==> good_leaves(*probe, leaves@, size as nat),
        r matches Err(i) ==> probed_zero(*probe, i) && within(i, size as nat),
        deterministic(*probe) ==> (r is Err <==> zero_upto(*probe, [0, 0, 0], size, 8)),
        deterministic(*probe) ==> (r matches Ok(leaves) ==> leaves@.to_set() == leaves_upto(
            *probe,
            [0, 0, 0],
            size,
            8,
        )),
{
    let mut leaves: Vec<Index> = Vec::new();
    let origin: Index = [0, 0, 0];
    proof {
        assert(leaves@.to_set() =~= Set::empty());
    }
    match descend(probe, origin, size, size, &mut leaves) {
        Ok(()) => {
            proof {
                if deterministic(*probe) {
                    assert(leaves@.to_set() =~= leaves_upto(*probe, [0, 0, 0], size, 8));
                }
            }
            Ok(leaves)
        },
        Err(i) => Err(i),
    }
}

/// Samples the cube at `idx` of side `size`, inside `[0, bound)^3`, appending
/// the points it records to `leaves`: each of its eight octant corners is
/// probed, recorded where far from zero or at octants of side 1, and descended
/// into where near zero. Stops at the first point where the probe finds zero.
/// Where the probe answers the same for the same point and half size, the
/// result is `Err` exactly when the descent meets a zero, and otherwise adds
/// exactly the points that the descent records.
pub fn descend<F: Fn(Index, usize) -> Sample>(
    probe: &F,
    idx: Index,
    size: usize,
    bound: usize,
    leaves: &mut Vec<Index>,
) -> (r: Result<(), Index>)
    requires
        2 <= size,
        idx[0] + size <= bound,
        idx[1] + size <= bound,
        idx[2] + size <= bound,
        forall|i: Index, h: usize| #[trigger] probe.requires((i, h)),
        good_leaves(*probe, old(leaves)@, bound as nat),
    ensures
        good_leaves(*probe, final(leaves)@, bound as nat),
        r matches Err(i) ==> probed_zero(*probe, i) && within(i, bound as nat),
        deterministic(*probe) ==> (r is Err <==> zero_upto(*probe, idx, size, 8)),
        deterministic(*probe) && r is Ok ==> final(leaves)@.to_set() == old(leaves)@.to_set().union(
            leaves_upto(*probe, idx, size, 8),
        ),
    decreases size,
{
    let half = size / 2;
    let ghost entry = leaves@;
    let mut c: usize = 0;
    while c < 8
        invariant
            c <= 8,
            half == size / 2,
            2 <= size,
            idx[0] + size <= bound,
            idx[1] + size <= bound,
            idx[2] + size <= bound,
            forall|i: Index, h: usize| #[trigger] probe.requires((i, h)),
            good_leaves(*probe, leaves@, bound as nat),
            entry == old(leaves)@,
            deterministic(*probe) ==> !zero_upto(*probe, idx, size, c as nat),
            deterministic(*probe) ==> leaves@.to_set() == entry.to_set().union(
                leaves_upto(*probe, idx, size, c as nat),
            ),
        decreases 8 - c,
    {
        let dx: usize = if c % 2 == 1 { half } else { 0 };
        let dy: usize = if (c / 2) % 2 == 1 { half } else { 0 };
        let dz: usize = if c / 4 == 1 { half } else { 0 };
        let cidx: Index = [idx[0] + dx, idx[1] + dy, idx[2] + dz];
        let ghost before = leaves@;
        proof {
            assert(cidx@ =~= corner(idx, half, c as nat)@);
            assert(cidx == corner(idx, half, c as nat));
        }
        let s = probe(cidx, half);
        proof {
            if deterministic(*probe) {
                assert(probe.ensures((cidx, half), answer(*probe, cidx, half)));
                assert(answer(*probe, cidx, half) == s);
            }
        }
        match s {
            Sample::Zero => {
                proof {
                    if deterministic(*probe) {
                        assert(zero_upto(*probe, idx, size, (c + 1) as nat));
                        lemma_zero_upto_grows(*probe, idx, size, (c + 1) as nat, 8);
                    }
                }
                return Err(cidx);
            },
            Sample::Near if half > 1 => {
                let sub = descend(probe, cidx, half, bound, leaves);
                if let Err(i) = sub {
                    proof {
                        if deterministic(*probe) {
                            assert(zero_upto(*probe, idx, size, (c + 1) as nat));
                            lemma_zero_upto_grows(*probe, idx, size, (c + 1) as nat, 8);
                        }
                    }
                    return Err(i);
                }
                proof {
                    if deterministic(*probe) {
                        assert(leaves@.to_set() =~= entry.to_set().union(
                            leaves_upto(*probe, idx, size, (c + 1) as nat),
                        ));
                    }
                }
            },
            _ => {
                leaves.push(cidx);
                assert(probe.ensures((cidx, half), s));
                assert forall|k: int| 0 <= k < leaves@.len() implies probed_nonzero(*probe, #[trigger] leaves@[k])
                    && within(leaves@[k], bound as nat) by {
                    if k < before.len() {
                        assert(leaves@[k] == before[k]);
                    }
                }
                proof {
                    before.lemma_push_to_set_commute(cidx);
                    if deterministic(*probe) {
                        assert(leaves@.to_set() =~= entry.to_set().union(
                            leaves_upto(*probe, idx, size, (c + 1) as nat),
                        ));
                    }
                }
            },
        }
        c = c + 1;
    }
    Ok(())
}

} // verus!
