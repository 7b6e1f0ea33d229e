use std::collections::HashMap;
use vstd::prelude::*;
use crate::bitset::BitSet;
use crate::cell::{Edge, edge_offset, quad_edges, quad_table};
use crate::config::{cell_corners, corner_at, corner_of, connected_edges, first_holding, is_edge_key, key_of_set, patch_edges, sign_mask};
use crate::grid::{Index, neg_offset};

verus! {

broadcast use vstd::std_specs::hash::group_hash_axioms;

/// The four cells around base edge `b` of point `idx`, each with the name that
/// edge has in it, in the order in which the quad visits them. `None` where a
/// cell would fall below index 0 on some axis: such an edge lies on the border
/// of the sampled domain and gets no quad.
pub fn quad_cells(b: Edge, idx: Index) -> (r: Option<[(Edge, Index); 4]>)
    requires
        b.id() < 3,
    ensures
        r.is_some() <==> forall|a: int| 0 <= a < 3 && a != b.id() ==> idx[a] >= 1,
        r matches Some(cells) ==> {
            &&& forall|k: int| 0 <= k < 4 ==> #[trigger] is_edge_key((b, idx), cells[k].0, cells[k].1)
            &&& forall|k: int, a: int| 0 <= k < 4 && 0 <= a < 3 ==> #[trigger] cells[k].1[a] == idx[a]
                - cells[k].0.ends().0.pos(a as nat)
            &&& forall|k: int| 0 <= k < 4 ==> #[trigger] cells[k].0 == quad_table(b)[k]
            &&& forall|k: int, l: int| 0 <= k < l < 4 ==> cells[k].0 != cells[l].0
        },
{
    let a = b.as_usize();
    let (a1, a2) = if a == 0 {
        (1usize, 2usize)
    } else if a == 1 {
        (0usize, 2usize)
    } else {
        (0usize, 1usize)
    };
    if idx[a1] == 0 || idx[a2] == 0 {
        return None;
    }
    let q = quad_edges(b);
    let o0 = edge_offset(q[0]);
    let o1 = edge_offset(q[1]);
    let o2 = edge_offset(q[2]);
    let o3 = edge_offset(q[3]);
    assert(q[0] == q@[0] && q[1] == q@[1] && q[2] == q@[2] && q[3] == q@[3]);
    assert(o0[0] == q[0].ends().0.pos(0) && o0[1] == q[0].ends().0.pos(1) && o0[2] == q[0].ends().0.pos(2));
    let cells = [
        (q[0], neg_offset(idx, o0)),
        (q[1], neg_offset(idx, o1)),
        (q[2], neg_offset(idx, o2)),
        (q[3], neg_offset(idx, o3)),
    ];
    proof {
        reveal(is_edge_key);
        assert(is_edge_key((b, idx), cells[0].0, cells[0].1));
        assert(is_edge_key((b, idx), cells[1].0, cells[1].1));
        assert(is_edge_key((b, idx), cells[2].0, cells[2].1));
        assert(is_edge_key((b, idx), cells[3].0, cells[3].1));
        assert forall|k: int, a: int| 0 <= k < 4 && 0 <= a < 3 implies #[trigger] cells[k].1[a] == idx[a]
            - cells[k].0.ends().0.pos(a as nat) by {
            if k == 0 {
                assert(a == 0 || a == 1 || a == 2);
            }
        }
    }
    Some(cells)
}

/// The quad's vertices in winding order: as given where the field is positive
/// at the edge's lower end, reversed where it is negative.
pub open spec fn quad_loop(p: [usize; 4], negative: bool) -> Seq<usize> {
    if negative {
        seq![p[3], p[2], p[1], p[0]]
    } else {
        seq![p[0], p[1], p[2], p[3]]
    }
}

/// The two triangles of a quad, `(l0, l1, l2)` and `(l2, l3, l0)` over its
/// winding order `l`.
pub open spec fn quad_faces(p: [usize; 4], negative: bool) -> Seq<(usize, usize, usize)> {
    let l = quad_loop(p, negative);
    seq![(l[0], l[1], l[2]), (l[2], l[3], l[0])]
}

/// Flipping the sign of the field at an edge traverses its quad the other way
/// round: the winding of the quad is reversed.
pub proof fn lemma_flip_reverses_winding(p: [usize; 4], negative: bool)
    ensures
        quad_loop(p, !negative) == quad_loop(p, negative).reverse(),
{
    assert(quad_loop(p, !negative) =~= quad_loop(p, negative).reverse());
}

/// `configs` lists, for sign mask `mask`, a patch that holds edge `e`.
pub open spec fn has_patch(configs: Seq<Vec<BitSet>>, e: Edge, mask: BitSet) -> bool {
    exists|k: int| first_holding(configs[mask.bits as int]@, e, k)
}

/// `set` is the patch through edge `e` of a cell of sign mask `mask`: the first
/// that `configs[mask]` lists holding `e`.
pub open spec fn patch_of(configs: Seq<Vec<BitSet>>, e: Edge, mask: BitSet, set: BitSet) -> bool {
    exists|k: int| first_holding(configs[mask.bits as int]@, e, k) && configs[mask.bits as int]@[k] == set
}

/// Every edge of patch `set` of cell `cell` has a crossing that `located`
/// reported found.
pub open spec fn located_patch<G: Fn(Edge, Index) -> bool>(located: G, set: BitSet, cell: Index) -> bool {
    forall|e: Edge| #[trigger] set.has(e.id() as int) ==> exists|key: (Edge, Index)|
        is_edge_key(key, e, cell) && #[trigger] located.ensures((key.0, key.1), true)
}

/// Witness `w = (k, set, e, key)`: `set` is the patch of cell `k` of the quad,
/// `e` an edge of it stored under `key`, and `located` reported no crossing
/// there.
pub open spec fn missing_by<G: Fn(Edge, Index) -> bool>(
    configs: Seq<Vec<BitSet>>,
    cells: [(Edge, Index); 4],
    masks: [BitSet; 4],
    located: G,
    w: (int, BitSet, Edge, (Edge, Index)),
) -> bool {
    &&& 0 <= w.0 < 4
    &&& patch_of(configs, cells[w.0].0, masks[w.0], w.1)
    &&& w.1.has(w.2.id() as int)
    &&& is_edge_key(w.3, w.2, cells[w.0].1)
    &&& located.ensures((w.3.0, w.3.1), false)
}

/// Some edge of the patch of some cell of the quad has no located crossing.
pub open spec fn missing_crossing<G: Fn(Edge, Index) -> bool>(
    configs: Seq<Vec<BitSet>>,
    cells: [(Edge, Index); 4],
    masks: [BitSet; 4],
    located: G,
) -> bool {
    exists|w: (int, BitSet, Edge, (Edge, Index))| #[trigger] missing_by(configs, cells, masks, located, w)
}

/// Only one patch is the first to hold an edge.
pub proof fn lemma_patch_unique(configs: Seq<Vec<BitSet>>, e: Edge, mask: BitSet, s1: BitSet, s2: BitSet)
    requires
        patch_of(configs, e, mask, s1),
        patch_of(configs, e, mask, s2),
    ensures
        s1 == s2,
{
    let sets = configs[mask.bits as int]@;
    let k1 = choose|k: int| first_holding(sets, e, k) && sets[k] == s1;
    let k2 = choose|k: int| first_holding(sets, e, k) && sets[k] == s2;
    if k1 < k2 {
        assert(!sets[k1].has(e.id() as int));
    } else if k2 < k1 {
        assert(!sets[k2].has(e.id() as int));
    }
}

/// Why a quad was left out.
#[derive(Clone, Copy, Debug, PartialEq, Eq, Structural)]
pub enum QuadSkip {
    /// Some cell has no patch through its edge: the configuration table is
    /// faulty.
    NoPatch,
    /// An edge of some cell's patch has no located crossing: the quad lies on
    /// the border of the sampled region.
    MissingCrossing,
}

/// The key under which a cell's vertex for one surface patch is remembered.
pub open spec fn vertex_key(set: BitSet, idx: Index) -> (u16, usize, usize, usize) {
    (set.bits, idx[0], idx[1], idx[2])
}

/// The connectivity of the mesh being built: one vertex for each (patch, cell)
/// met so far, in the order of their ids, and the triangles over those ids.
pub struct MeshTopology {
    keys: Vec<(u16, usize, usize, usize)>,
    faces: Vec<(usize, usize, usize)>,
    // The ids of the vertices whose keys fall in each bucket.
    index: HashMap<u64, Vec<usize>>,
}

/// The bucket of the vertex index that a key falls in.
pub open spec fn bucket_of(k: (u16, usize, usize, usize)) -> u64 {
    (k.1 as u64) ^ ((k.2 as u64) << 21u64) ^ ((k.3 as u64) << 42u64) ^ ((k.0 as u64) << 9u64)
}

fn bucket(k: (u16, usize, usize, usize)) -> (r: u64)
    ensures
        r == bucket_of(k),
{
    (k.1 as u64) ^ ((k.2 as u64) << 21u64) ^ ((k.3 as u64) << 42u64) ^ ((k.0 as u64) << 9u64)
}

impl MeshTopology {
    /// The key of each vertex, by id.
    pub closed spec fn vertex_keys(&self) -> Seq<(u16, usize, usize, usize)> {
        self.keys@
    }

    /// The triangles, in the order they were emitted.
    pub closed spec fn triangles(&self) -> Seq<(usize, usize, usize)> {
        self.faces@
    }

    /// Every vertex is listed in the bucket of its key, and the buckets list
    /// only vertices that exist.
    pub closed spec fn index_ok(&self) -> bool {
        &&& forall|id: int|
            0 <= id < self.keys@.len() ==> self.index@.contains_key(bucket_of(#[trigger] self.keys@[id]))
                && self.index@[bucket_of(self.keys@[id])]@.contains(id as usize)
        &&& forall|h: u64, j: int|
            self.index@.contains_key(h) && 0 <= j < self.index@[h]@.len() ==> #[trigger] self.index@[h]@[j]
                < self.keys@.len()
    }

    /// No (patch, cell) has two vertices, and every triangle refers to
    /// vertices that exist.
    pub open spec fn wf(&self) -> bool {
        &&& self.index_ok()
        &&& self.vertex_keys().no_duplicates()
        &&& forall|t: int|
            0 <= t < self.triangles().len() ==> {
                let f = #[trigger] self.triangles()[t];
                &&& f.0 < self.vertex_keys().len()
                &&& f.1 < self.vertex_keys().len()
                &&& f.2 < self.vertex_keys().len()
            }
    }

    /// An empty mesh.
    pub fn new() -> (r: MeshTopology)
        ensures
            r.wf(),
            r.vertex_keys().len() == 0,
            r.triangles().len() == 0,
    {
        let r = MeshTopology { keys: Vec::new(), faces: Vec::new(), index: HashMap::new() };
        assert(r.index@ =~= Map::empty());
        r
    }

    /// The number of vertices.
    pub fn vertex_count(&self) -> (r: usize)
        ensures
            r == self.vertex_keys().len(),
    {
        self.keys.len()
    }

    /// The triangles, as vertex ids.
    pub fn faces(&self) -> (r: &Vec<(usize, usize, usize)>)
        ensures
            r@ == self.triangles(),
    {
        &self.faces
    }

    /// The id of the vertex of patch `set` in cell `idx`, if it has one.
    pub fn lookup(&self, set: BitSet, idx: Index) -> (r: Option<usize>)
        requires
            self.wf(),
        ensures
            r matches Some(i) ==> i < self.vertex_keys().len() && self.vertex_keys()[i as int]
                == vertex_key(set, idx),
            r is None ==> !self.vertex_keys().contains(vertex_key(set, idx)),
    {
        let key = (set.bits, idx[0], idx[1], idx[2]);
        assert(key == vertex_key(set, idx));
        let count = self.keys.len();
        let h = bucket(key);
        match self.index.get(&h) {
            None => {
                proof {
                    if self.keys@.contains(key) {
                        let id = choose|id: int| 0 <= id < self.keys@.len() && self.keys@[id] == key;
                        assert(self.index@.contains_key(bucket_of(self.keys@[id])));
                    }
                }
                None
            },
            Some(ids) => {
                assert(ids@ == self.index@[h]@);
                let mut j: usize = 0;
                while j < ids.len()
                    invariant
                        j <= ids@.len(),
                        ids@ == self.index@[h]@,
                        self.index@.contains_key(h),
                        self.wf(),
                        h == bucket_of(key),
                        key == vertex_key(set, idx),
                        count == self.keys@.len(),
                        forall|u: int| 0 <= u < j ==> self.keys@[ids@[u] as int] != key,
                    decreases ids@.len() - j,
                {
                    let id = ids[j];
                    assert(id < self.keys@.len());
                    let k = self.keys[id];
                    if k.0 == key.0 && k.1 == key.1 && k.2 == key.2 && k.3 == key.3 {
                        assert(self.keys@[id as int] == key);
                        return Some(id);
                    }
                    j = j + 1;
                }
                proof {
                    if self.keys@.contains(key) {
                        let id = choose|id: int| 0 <= id < self.keys@.len() && self.keys@[id] == key;
                        assert(self.index@[bucket_of(self.keys@[id])]@.contains(id as usize));
                        assert(bucket_of(self.keys@[id]) == h);
                        assert(ids@.contains(id as usize));
                        let u = choose|u: int| 0 <= u < ids@.len() && ids@[u] == id as usize;
                        assert(self.keys@[ids@[u] as int] != key);
                    }
                }
                None
            },
        }
    }

    /// Gives patch `set` of cell `idx`, which has no vertex yet, the next id.
    pub fn add_vertex(&mut self, set: BitSet, idx: Index) -> (r: usize)
        requires
            old(self).wf(),
            !old(self).vertex_keys().contains(vertex_key(set, idx)),
        ensures
            final(self).wf(),
            r == old(self).vertex_keys().len(),
            final(self).vertex_keys() == old(self).vertex_keys().push(vertex_key(set, idx)),
            final(self).triangles() == old(self).triangles(),
    {
        let r = self.keys.len();
        let key = (set.bits, idx[0], idx[1], idx[2]);
        let h = bucket(key);
        let mut ids = match self.index.remove(&h) {
            Some(v) => v,
            None => Vec::new(),
        };
        let ghost old_ids = ids@;
        proof {
            if old(self).index@.contains_key(h) {
                assert(old_ids == old(self).index@[h]@);
            } else {
                assert(old_ids.len() == 0);
            }
        }
        ids.push(r);
        let ghost pushed = ids;
        self.index.insert(h, ids);
        self.keys.push(key);
        proof {
            let oi = old(self).index@;
            let ni = self.index@;
            assert(ni == oi.remove(h).insert(h, pushed));
            assert(pushed@ == old_ids.push(r));
            assert forall|id: int| 0 <= id < self.keys@.len() implies ni.contains_key(bucket_of(#[trigger] self.keys@[id]))
                && ni[bucket_of(self.keys@[id])]@.contains(id as usize) by {
                if id < old(self).keys@.len() {
                    assert(self.keys@[id] == old(self).keys@[id]);
                    let hb = bucket_of(self.keys@[id]);
                    assert(oi[hb]@.contains(id as usize));
                    if hb == h {
                        let u = choose|u: int| 0 <= u < oi[hb]@.len() && oi[hb]@[u] == id as usize;
                        assert(ni[h]@[u] == id as usize);
                    }
                } else {
                    assert(ni[h]@[old_ids.len() as int] == r);
                }
            }
            assert forall|hh: u64, j: int|
                ni.contains_key(hh) && 0 <= j < ni[hh]@.len() implies #[trigger] ni[hh]@[j] < self.keys@.len() by {
                if hh != h {
                    assert(oi.contains_key(hh));
                } else if j < old_ids.len() {
                    assert(oi[h]@[j] == ni[h]@[j]);
                }
            }
            assert(self.index_ok());
        }
        proof {
            let ks = self.keys@;
            let ok = old(self).keys@;
            assert forall|a: int, b: int| 0 <= a < b < ks.len() implies ks[a] != ks[b] by {
                if b == ks.len() - 1 {
                    assert(ok[a] == ks[a]);
                } else {
                    assert(ok[a] == ks[a] && ok[b] == ks[b]);
                }
            }
            assert(self.keys@.no_duplicates());
            assert forall|t: int| 0 <= t < self.faces@.len() implies {
                let f = #[trigger] self.faces@[t];
                &&& f.0 < self.keys@.len()
                &&& f.1 < self.keys@.len()
                &&& f.2 < self.keys@.len()
            } by {
                assert(self.faces@[t] == old(self).faces@[t]);
                let f0 = old(self).triangles()[t];
            }
        }
        r
    }

    /// Emits the quad over vertices `p`, as two triangles wound by the sign of
    /// the field at the edge's lower end.
    pub fn add_quad(&mut self, p: [usize; 4], negative: bool)
        requires
            old(self).wf(),
            forall|k: int| 0 <= k < 4 ==> #[trigger] p[k] < old(self).vertex_keys().len(),
        ensures
            final(self).wf(),
            final(self).vertex_keys() == old(self).vertex_keys(),
            final(self).triangles() == old(self).triangles() + quad_faces(p, negative),
    {
        let l = if negative {
            [p[3], p[2], p[1], p[0]]
        } else {
            p
        };
        assert(p[0] < self.keys@.len() && p[1] < self.keys@.len());
        assert(p[2] < self.keys@.len() && p[3] < self.keys@.len());
        self.faces.push((l[0], l[1], l[2]));
        self.faces.push((l[2], l[3], l[0]));
        assert(self.faces@ =~= old(self).faces@ + quad_faces(p, negative));
        assert forall|t: int| 0 <= t < self.faces@.len() implies {
            let f = #[trigger] self.faces@[t];
            &&& f.0 < self.keys@.len()
            &&& f.1 < self.keys@.len()
            &&& f.2 < self.keys@.len()
        } by {
            if t < old(self).faces@.len() {
                assert(self.faces@[t] == old(self).faces@[t]);
                let f0 = old(self).triangles()[t];
            }
        }
    }
    /// The vertex of the surface patch through edge `e` in cell `cell`, whose
    /// sign mask is `mask`: the patch is the first in `configs[mask]` that holds
    /// `e`; its vertex is the one remembered for (patch, cell), or else a new
    /// one with the next id. Returns the id, the patch and whether the vertex
    /// is new; `None` where no patch holds `e`, and then nothing changes.
    pub fn cell_vertex(&mut self, configs: &Vec<Vec<BitSet>>, e: Edge, cell: Index, mask: BitSet) -> (r:
        Option<(usize, BitSet, bool)>)
        requires
            old(self).wf(),
            mask.bits < configs@.len(),
        ensures
            final(self).wf(),
            final(self).triangles() == old(self).triangles(),
            r is None ==> final(self).vertex_keys() == old(self).vertex_keys() && forall|k: int|
                0 <= k < configs@[mask.bits as int]@.len() ==> !(#[trigger] configs@[mask.bits as int]@[k]).has(
                    e.id() as int,
                ),
            r matches Some((id, set, is_new)) ==> {
                &&& exists|k: int| first_holding(configs@[mask.bits as int]@, e, k)
                    && configs@[mask.bits as int]@[k] == set
                &&& is_new == !old(self).vertex_keys().contains(vertex_key(set, cell))
                &&& is_new ==> final(self).vertex_keys() == old(self).vertex_keys().push(vertex_key(set, cell))
                    && id == old(self).vertex_keys().len()
                &&& !is_new ==> final(self).vertex_keys() == old(self).vertex_keys()
                &&& id < final(self).vertex_keys().len()
                &&& final(self).vertex_keys()[id as int] == vertex_key(set, cell)
            },
    {
        match connected_edges(configs, e, mask) {
            None => None,
            Some(set) => match self.lookup(set, cell) {
                Some(id) => Some((id, set, false)),
                None => {
                    let id = self.add_vertex(set, cell);
                    Some((id, set, true))
                },
            },
        }
    }

    /// Emits the quad around one active edge, given its four cells as
    /// `quad_cells` lists them, the sign mask of each cell, whether the field
    /// is negative at the edge's lower end, and `located`, which tells whether
    /// the crossing of an edge, keyed as `patch_edges` keys it, was found. Each
    /// cell gives the vertex of its patch through the edge, remembered or new.
    /// Returns the vertices that were added, as (id, patch, cell) in order of
    /// id. Nothing changes where some cell has no patch through its edge
    /// (`NoPatch`), or where an edge of some cell's patch has no located
    /// crossing (`MissingCrossing`): such a quad is left out.
    pub fn emit_quad<G: Fn(Edge, Index) -> bool>(
        &mut self,
        configs: &Vec<Vec<BitSet>>,
        cells: [(Edge, Index); 4],
        masks: [BitSet; 4],
        negative: bool,
        located: &G,
    ) -> (r: Result<Vec<(usize, BitSet, Index)>, QuadSkip>)
        requires
            old(self).wf(),
            forall|k: int| 0 <= k < 4 ==> (#[trigger] masks[k]).bits < configs@.len(),
            forall|k: int, a: int| 0 <= k < 4 && 0 <= a < 3 ==> #[trigger] cells[k].1[a] < usize::MAX,
            forall|e: Edge, i: Index| #[trigger] located.requires((e, i)),
        ensures
            final(self).wf(),
            r is Err ==> final(self).vertex_keys() == old(self).vertex_keys() && final(self).triangles()
                == old(self).triangles(),
            r == Err::<Vec<(usize, BitSet, Index)>, QuadSkip>(QuadSkip::NoPatch) <==> exists|k: int|
                0 <= k < 4 && !has_patch(configs@, #[trigger] cells[k].0, masks[k]),
            r == Err::<Vec<(usize, BitSet, Index)>, QuadSkip>(QuadSkip::MissingCrossing) ==> missing_crossing(
                configs@,
                cells,
                masks,
                *located,
            ),
            r is Ok ==> forall|k: int, set: BitSet|
                0 <= k < 4 && #[trigger] patch_of(configs@, cells[k].0, masks[k], set) ==> located_patch(
                    *located,
                    set,
                    cells[k].1,
                ),
            r matches Ok(added) ==> {
                &&& final(self).vertex_keys() == old(self).vertex_keys() + added@.map_values(
                    |v: (usize, BitSet, Index)| vertex_key(v.1, v.2),
                )
                &&& added@.len() <= 4
                &&& forall|j: int| 0 <= j < added@.len() ==> #[trigger] added@[j].0 == old(self).vertex_keys().len() + j
                &&& exists|ids: [usize; 4]|
                    {
                        &&& final(self).triangles() == old(self).triangles() + quad_faces(ids, negative)
                        &&& forall|k: int|
                            0 <= k < 4 ==> #[trigger] ids[k] < final(self).vertex_keys().len() && exists|set: BitSet|
                                patch_of(configs@, cells[k].0, masks[k], set)
                                    && final(self).vertex_keys()[ids[k] as int] == vertex_key(set, cells[k].1)
                        &&& forall|j: int|
                            0 <= j < added@.len() ==> exists|k: int|
                                0 <= k < 4 && ids[k] == (#[trigger] added@[j]).0 && added@[j].2 == cells[k].1
                                    && patch_of(configs@, cells[k].0, masks[k], added@[j].1)
                    }
            },
    {
        let mut sets: [BitSet; 4] = [BitSet::new(0), BitSet::new(0), BitSet::new(0), BitSet::new(0)];
        let mut k: usize = 0;
        while k < 4
            invariant
                k <= 4,
                self.wf(),
                self.vertex_keys() == old(self).vertex_keys(),
                self.triangles() == old(self).triangles(),
                forall|j: int| 0 <= j < 4 ==> (#[trigger] masks[j]).bits < configs@.len(),
                forall|j: int| 0 <= j < k ==> has_patch(configs@, #[trigger] cells[j].0, masks[j]),
                forall|j: int| 0 <= j < k ==> patch_of(configs@, #[trigger] cells[j].0, masks[j], sets[j]),
            decreases 4 - k,
        {
            match connected_edges(configs, cells[k].0, masks[k]) {
                None => {
                    return Err(QuadSkip::NoPatch);
                },
                Some(set) => {
                    sets[k] = set;
                },
            }
            k = k + 1;
        }
        let mut k: usize = 0;
        while k < 4
            invariant
                k <= 4,
                self.wf(),
                self.vertex_keys() == old(self).vertex_keys(),
                self.triangles() == old(self).triangles(),
                forall|j: int| 0 <= j < 4 ==> patch_of(configs@, #[trigger] cells[j].0, masks[j], sets[j]),
                forall|j: int| 0 <= j < 4 ==> has_patch(configs@, #[trigger] cells[j].0, masks[j]),
                forall|j: int| 0 <= j < k ==> located_patch(*located, #[trigger] sets[j], cells[j].1),
                forall|j: int, a: int| 0 <= j < 4 && 0 <= a < 3 ==> #[trigger] cells[j].1[a] < usize::MAX,
                forall|e: Edge, i: Index| #[trigger] located.requires((e, i)),
            decreases 4 - k,
        {
            let cell = cells[k].1;
            assert(cells[k as int].1[0] < usize::MAX && cells[k as int].1[1] < usize::MAX && cells[k as int].1[2] < usize::MAX);
            let keys = patch_edges(sets[k], cell);
            let mut t: usize = 0;
            while t < keys.len()
                invariant
                    t <= keys@.len(),
                    self.wf(),
                    self.vertex_keys() == old(self).vertex_keys(),
                    self.triangles() == old(self).triangles(),
                    forall|j: int| 0 <= j < 4 ==> has_patch(configs@, #[trigger] cells[j].0, masks[j]),
                    forall|j: int| 0 <= j < 4 ==> patch_of(configs@, #[trigger] cells[j].0, masks[j], sets[j]),
                    k < 4,
                    cell == cells[k as int].1,
                    forall|u: int| 0 <= u < keys@.len() ==> #[trigger] key_of_set(keys@[u], sets[k as int], cell, 12),
                    forall|e: Edge, i: Index| #[trigger] located.requires((e, i)),
                    forall|u: int| 0 <= u < t ==> #[trigger] located.ensures((keys@[u].0, keys@[u].1), true),
                decreases keys@.len() - t,
            {
                let (e, i) = keys[t];
                if !located(e, i) {
                    proof {
                        assert(key_of_set(keys@[t as int], sets[k as int], cell, 12));
                        let e2 = choose|e2: Edge| e2.id() < 12 && sets[k as int].has(e2.id() as int)
                            && #[trigger] is_edge_key(keys@[t as int], e2, cell);
                        let w = (k as int, sets[k as int], e2, keys@[t as int]);
                        assert(0 <= w.0 < 4);
                        assert(patch_of(configs@, cells[w.0].0, masks[w.0], w.1));
                        assert(w.1.has(w.2.id() as int));
                        assert(is_edge_key(w.3, w.2, cells[w.0].1));
                        assert(keys@[t as int] == (e, i));
                        assert(located.ensures((w.3.0, w.3.1), false));
                        assert(missing_by(configs@, cells, masks, *located, w));
                    }
                    return Err(QuadSkip::MissingCrossing);
                }
                t = t + 1;
            }
            assert forall|e: Edge| #[trigger] sets[k as int].has(e.id() as int) implies exists|key: (Edge, Index)|
                is_edge_key(key, e, cell) && #[trigger] located.ensures((key.0, key.1), true) by {
                let u = choose|u: int| 0 <= u < keys@.len() && #[trigger] is_edge_key(keys@[u], e, cell);
                assert(located.ensures((keys@[u].0, keys@[u].1), true));
            }
            k = k + 1;
        }
        assert forall|k: int, set: BitSet|
            0 <= k < 4 && #[trigger] patch_of(configs@, cells[k].0, masks[k], set) implies located_patch(
                *located,
                set,
                cells[k].1,
            ) by {
            lemma_patch_unique(configs@, cells[k].0, masks[k], set, sets[k]);
        }
        let mut ids: [usize; 4] = [0, 0, 0, 0];
        let mut added: Vec<(usize, BitSet, Index)> = Vec::new();
        let ghost keys0 = self.vertex_keys();
        let mut k: usize = 0;
        while k < 4
            invariant
                k <= 4,
                self.wf(),
                self.triangles() == old(self).triangles(),
                keys0 == old(self).vertex_keys(),
                forall|j: int| 0 <= j < 4 ==> (#[trigger] masks[j]).bits < configs@.len(),
                forall|j: int| 0 <= j < 4 ==> has_patch(configs@, #[trigger] cells[j].0, masks[j]),
                self.vertex_keys() == keys0 + added@.map_values(|v: (usize, BitSet, Index)| vertex_key(v.1, v.2)),
                added@.len() <= k,
                forall|j: int| 0 <= j < added@.len() ==> #[trigger] added@[j].0 == keys0.len() + j,
                forall|j: int|
                    0 <= j < k ==> #[trigger] ids[j] < self.vertex_keys().len() && exists|set: BitSet|
                        patch_of(configs@, cells[j].0, masks[j], set) && self.vertex_keys()[ids[j] as int]
                            == vertex_key(set, cells[j].1),
                forall|j: int|
                    0 <= j < added@.len() ==> exists|kk: int|
                        0 <= kk < k && ids[kk] == (#[trigger] added@[j]).0 && added@[j].2 == cells[kk].1
                            && patch_of(configs@, cells[kk].0, masks[kk], added@[j].1),
            decreases 4 - k,
        {
            let ghost before = self.vertex_keys();
            let ghost added0 = added@;
            let ghost ids0 = ids;
            let (e, cell) = cells[k];
            match self.cell_vertex(configs, e, cell, masks[k]) {
                None => {
                    proof {
                        assert(has_patch(configs@, cells[k as int].0, masks[k as int]));
                        let kk = choose|kk: int| first_holding(configs@[masks[k as int].bits as int]@, e, kk);
                        assert(configs@[masks[k as int].bits as int]@[kk].has(e.id() as int));
                        assert(false);
                    }
                },
                Some((id, set, is_new)) => {
                    ids[k] = id;
                    assert(patch_of(configs@, cells[k as int].0, masks[k as int], set));
                    if is_new {
                        added.push((id, set, cell));
                        assert(added@.map_values(|v: (usize, BitSet, Index)| vertex_key(v.1, v.2))
                            =~= added0.map_values(|v: (usize, BitSet, Index)| vertex_key(v.1, v.2)).push(
                            vertex_key(set, cell),
                        ));
                    }
                    assert forall|j: int|
                        0 <= j < k + 1 implies #[trigger] ids[j] < self.vertex_keys().len() && exists|set2: BitSet|
                            patch_of(configs@, cells[j].0, masks[j], set2) && self.vertex_keys()[ids[j] as int]
                                == vertex_key(set2, cells[j].1) by {
                        if j < k {
                            let set2 = choose|set2: BitSet|
                                patch_of(configs@, cells[j].0, masks[j], set2) && before[ids[j] as int]
                                    == vertex_key(set2, cells[j].1);
                            assert(self.vertex_keys()[ids[j] as int] == before[ids[j] as int]);
                        }
                    }
                    assert forall|j: int| 0 <= j < added@.len() implies exists|kk: int|
                        0 <= kk < k + 1 && ids[kk] == (#[trigger] added@[j]).0 && added@[j].2 == cells[kk].1
                            && patch_of(configs@, cells[kk].0, masks[kk], added@[j].1) by {
                        if j < added0.len() {
                            assert(added@[j] == added0[j]);
                            let kk = choose|kk: int|
                                0 <= kk < k && ids0[kk] == (#[trigger] added0[j]).0 && added0[j].2 == cells[kk].1
                                    && patch_of(configs@, cells[kk].0, masks[kk], added0[j].1);
                            assert(ids[kk] == ids0[kk]);
                        } else {
                            assert(added@[j] == (id, set, cell));
                            assert(ids[k as int] == id);
                        }
                    }
                },
            }
            k = k + 1;
        }
        self.add_quad(ids, negative);
        Ok(added)
    }
}

/// `cells` are the four cells around base edge `b` of point `idx`, in quad
/// order, all at non-negative indices.
pub open spec fn is_quad_cells(b: Edge, idx: Index, cells: [(Edge, Index); 4]) -> bool {
    &&& forall|a: int| 0 <= a < 3 && a != b.id() ==> idx[a] >= 1
    &&& forall|k: int| 0 <= k < 4 ==> #[trigger] cells[k].0 == quad_table(b)[k]
    &&& forall|k: int, a: int| 0 <= k < 4 && 0 <= a < 3 ==> #[trigger] cells[k].1[a] == idx[a]
        - cells[k].0.ends().0.pos(a as nat)
}

/// `corners` are the eight corners of cell `cell`, in corner order.
pub open spec fn is_cell_corners(cell: Index, corners: [Index; 8]) -> bool {
    forall|c: int, a: int| 0 <= c < 8 && 0 <= a < 3 ==> #[trigger] corners[c][a] == corner_at(cell, corner_of(c as nat), a as nat)
}

/// `m` is the sign mask of cell `cell`: corner `c` is in it iff
/// `negative_at` reported the field negative there.
pub open spec fn is_cell_mask<N: Fn(Index) -> bool>(negative_at: N, cell: Index, m: BitSet) -> bool {
    &&& m.bits < 256
    &&& exists|corners: [Index; 8]| #[trigger] is_cell_corners(cell, corners) && forall|c: int|
        0 <= c < 8 ==> negative_at.ensures((corners[c],), #[trigger] m.has(c))
}

/// Witness `w = (cells, masks, patches, ids, negative)` that the triangles
/// `seg` are the quad of base edge `b` at `idx`: each cell's patch through its
/// edge has all its crossings located, its vertex has id `ids[k]` in `keys`,
/// and the quad is wound by the sign reported at `idx`.
pub open spec fn emitted_by<N: Fn(Index) -> bool, G: Fn(Edge, Index) -> bool>(
    configs: Seq<Vec<BitSet>>,
    negative_at: N,
    located: G,
    edge: (Edge, Index),
    keys: Seq<(u16, usize, usize, usize)>,
    seg: Seq<(usize, usize, usize)>,
    w: ([(Edge, Index); 4], [BitSet; 4], [BitSet; 4], [usize; 4], bool),
) -> bool {
    &&& is_quad_cells(edge.0, edge.1, w.0)
    &&& forall|k: int|
        0 <= k < 4 ==> {
            &&& is_cell_mask(negative_at, w.0[k].1, #[trigger] w.1[k])
            &&& patch_of(configs, w.0[k].0, w.1[k], w.2[k])
            &&& located_patch(located, w.2[k], w.0[k].1)
            &&& w.3[k] < keys.len()
            &&& keys[w.3[k] as int] == vertex_key(w.2[k], w.0[k].1)
        }
    &&& negative_at.ensures((edge.1,), w.4)
    &&& seg == quad_faces(w.3, w.4)
}

/// The quad of base edge `edge` is left out: a cell falls below index 0, or
/// some edge of a cell's patch has no located crossing.
pub open spec fn left_out<N: Fn(Index) -> bool, G: Fn(Edge, Index) -> bool>(
    configs: Seq<Vec<BitSet>>,
    negative_at: N,
    located: G,
    edge: (Edge, Index),
) -> bool {
    ||| !(forall|a: int| 0 <= a < 3 && a != edge.0.id() ==> edge.1[a] >= 1)
    ||| exists|w: ([(Edge, Index); 4], [BitSet; 4])|
        {
            &&& is_quad_cells(edge.0, edge.1, w.0)
            &&& forall|k: int| 0 <= k < 4 ==> is_cell_mask(negative_at, w.0[k].1, #[trigger] w.1[k])
            &&& #[trigger] missing_crossing(configs, w.0, w.1, located)
        }
}

/// What base edge `edge` contributes to the mesh: its quad, or nothing where
/// the quad is left out.
pub open spec fn edge_outcome<N: Fn(Index) -> bool, G: Fn(Edge, Index) -> bool>(
    configs: Seq<Vec<BitSet>>,
    negative_at: N,
    located: G,
    edge: (Edge, Index),
    keys: Seq<(u16, usize, usize, usize)>,
    seg: Seq<(usize, usize, usize)>,
) -> bool {
    ||| seg.len() == 0 && left_out(configs, negative_at, located, edge)
    ||| exists|w: ([(Edge, Index); 4], [BitSet; 4], [BitSet; 4], [usize; 4], bool)|
        #[trigger] emitted_by(configs, negative_at, located, edge, keys, seg, w)
}

/// Some cell around base edge `edge` has no patch through its edge.
pub open spec fn no_patch<N: Fn(Index) -> bool>(configs: Seq<Vec<BitSet>>, negative_at: N, edge: (Edge, Index)) -> bool {
    exists|w: ([(Edge, Index); 4], [BitSet; 4])|
        {
            &&& #[trigger] is_quad_cells(edge.0, edge.1, w.0)
            &&& forall|k: int| 0 <= k < 4 ==> is_cell_mask(negative_at, w.0[k].1, #[trigger] w.1[k])
            &&& exists|k: int| 0 <= k < 4 && !has_patch(configs, #[trigger] w.0[k].0, w.1[k])
        }
}

proof fn lemma_outcome_extends<N: Fn(Index) -> bool, G: Fn(Edge, Index) -> bool>(
    configs: Seq<Vec<BitSet>>,
    negative_at: N,
    located: G,
    edge: (Edge, Index),
    keys: Seq<(u16, usize, usize, usize)>,
    keys2: Seq<(u16, usize, usize, usize)>,
    seg: Seq<(usize, usize, usize)>,
)
    requires
        edge_outcome(configs, negative_at, located, edge, keys, seg),
        keys.len() <= keys2.len(),
        forall|i: int| 0 <= i < keys.len() ==> keys2[i] == keys[i],
    ensures
        edge_outcome(configs, negative_at, located, edge, keys2, seg),
{
    if !(seg.len() == 0 && left_out(configs, negative_at, located, edge)) {
        let w = choose|w: ([(Edge, Index); 4], [BitSet; 4], [BitSet; 4], [usize; 4], bool)|
            #[trigger] emitted_by(configs, negative_at, located, edge, keys, seg, w);
        assert(emitted_by(configs, negative_at, located, edge, keys2, seg, w));
    }
}

/// Emits the quads around the crossed base edges `edges`, in order, into a
/// new mesh. `negative_at` tells whether the field is negative at a grid point
/// (a point that was not sampled counts as non-negative); `located` whether
/// the crossing under a key was found. Each edge contributes, in turn, either
/// exactly the two triangles of its quad over the vertices of its cells'
/// patches, or nothing where its quad is left out (on the border of the
/// sampled region). Returns the mesh and the (patch, cell) of each vertex, by
/// id; or the first edge one of whose cells has no patch through it, a fault
/// of `configs`.
pub fn emit_quads<N: Fn(Index) -> bool, G: Fn(Edge, Index) -> bool>(
    configs: &Vec<Vec<BitSet>>,
    edges: &Vec<(Edge, Index)>,
    negative_at: &N,
    located: &G,
) -> (r: Result<(MeshTopology, Vec<(BitSet, Index)>), (Edge, Index)>)
    requires
        configs@.len() == 256,
        forall|k: int| 0 <= k < edges@.len() ==> (#[trigger] edges@[k]).0.id() < 3,
        forall|k: int, a: int| 0 <= k < edges@.len() && 0 <= a < 3 ==> #[trigger] edges@[k].1[a] < usize::MAX,
        forall|i: Index| #[trigger] negative_at.requires((i,)),
        forall|e: Edge, i: Index| #[trigger] located.requires((e, i)),
    ensures
        r matches Ok((m, verts)) ==> {
            &&& m.wf()
            &&& m.vertex_keys() == verts@.map_values(|v: (BitSet, Index)| vertex_key(v.0, v.1))
            &&& exists|segs: Seq<Seq<(usize, usize, usize)>>|
                {
                    &&& segs.len() == edges@.len()
                    &&& m.triangles() == segs.flatten()
                    &&& forall|n: int|
                        0 <= n < edges@.len() ==> edge_outcome(
                            configs@,
                            *negative_at,
                            *located,
                            #[trigger] edges@[n],
                            m.vertex_keys(),
                            segs[n],
                        )
                }
        },
        r matches Err(e) ==> edges@.contains(e) && no_patch(configs@, *negative_at, e),
        edges@.len() == 0 ==> (r matches Ok((m, verts)) && m.triangles().len() == 0 && verts@.len() == 0),
{
    let mut m = MeshTopology::new();
    let mut verts: Vec<(BitSet, Index)> = Vec::new();
    let ghost mut segs: Seq<Seq<(usize, usize, usize)>> = Seq::empty();
    proof {
        assert(m.triangles() =~= segs.flatten());
    }
    let mut n: usize = 0;
    while n < edges.len()
        invariant
            n <= edges@.len(),
            configs@.len() == 256,
            forall|k: int| 0 <= k < edges@.len() ==> (#[trigger] edges@[k]).0.id() < 3,
            forall|k: int, a: int| 0 <= k < edges@.len() && 0 <= a < 3 ==> #[trigger] edges@[k].1[a] < usize::MAX,
            forall|i: Index| #[trigger] negative_at.requires((i,)),
            forall|e: Edge, i: Index| #[trigger] located.requires((e, i)),
            m.wf(),
            m.vertex_keys() == verts@.map_values(|v: (BitSet, Index)| vertex_key(v.0, v.1)),
            n == 0 ==> verts@.len() == 0,
            segs.len() == n,
            m.triangles() == segs.flatten(),
            forall|j: int|
                0 <= j < n ==> edge_outcome(configs@, *negative_at, *located, #[trigger] edges@[j], m.vertex_keys(), segs[j]),
        decreases edges@.len() - n,
    {
        let (b, idx) = edges[n];
        let ghost edge = edges@[n as int];
        let ghost keys_before = m.vertex_keys();
        let ghost segs_before = segs;
        assert(edges@[n as int].1[0] < usize::MAX && edges@[n as int].1[1] < usize::MAX && edges@[n as int].1[2] < usize::MAX);
        match quad_cells(b, idx) {
            None => {
                proof {
                    assert(left_out(configs@, *negative_at, *located, edge));
                    segs = segs.push(Seq::empty());
                    segs_before.lemma_flatten_push(Seq::empty());
                    assert(m.triangles() =~= segs.flatten());
                }
            },
            Some(cells) => {
                let mut masks: [BitSet; 4] = [BitSet::new(0), BitSet::new(0), BitSet::new(0), BitSet::new(0)];
                let mut k: usize = 0;
                while k < 4
                    invariant
                        k <= 4,
                        forall|j: int| 0 <= j < k ==> is_cell_mask(*negative_at, cells[j].1, #[trigger] masks[j]),
                        forall|j: int, a: int| 0 <= j < 4 && 0 <= a < 3 ==> #[trigger] cells[j].1[a] < usize::MAX,
                        forall|i: Index| #[trigger] negative_at.requires((i,)),
                    decreases 4 - k,
                {
                    let cell = cells[k].1;
                    assert(cells[k as int].1[0] < usize::MAX && cells[k as int].1[1] < usize::MAX && cells[k as int].1[2] < usize::MAX);
                    let corners = cell_corners(cell);
                    let mut negative: [bool; 8] = [false; 8];
                    let mut c: usize = 0;
                    while c < 8
                        invariant
                            c <= 8,
                            forall|i: Index| #[trigger] negative_at.requires((i,)),
                            forall|d: int| 0 <= d < c ==> negative_at.ensures((corners[d],), #[trigger] negative[d]),
                        decreases 8 - c,
                    {
                        negative[c] = negative_at(corners[c]);
                        c = c + 1;
                    }
                    let mask = sign_mask(negative);
                    proof {
                        assert(is_cell_corners(cell, corners));
                        assert forall|d: int| 0 <= d < 8 implies negative_at.ensures((corners[d],), #[trigger] mask.has(d)) by {
                            assert(mask.has(d) == negative[d]);
                        }
                        assert(is_cell_mask(*negative_at, cell, mask));
                    }
                    masks[k] = mask;
                    k = k + 1;
                }
                let low_negative = negative_at(idx);
                proof {
                    assert(is_quad_cells(b, idx, cells));
                }
                match m.emit_quad(configs, cells, masks, low_negative, located) {
                    Ok(added) => {
                        let ghost verts0 = verts@;
                        let mut j: usize = 0;
                        while j < added.len()
                            invariant
                                j <= added@.len(),
                                verts@ == verts0 + added@.subrange(0, j as int).map_values(
                                    |v: (usize, BitSet, Index)| (v.1, v.2),
                                ),
                            decreases added@.len() - j,
                        {
                            let (_, set, cell) = added[j];
                            verts.push((set, cell));
                            assert(added@.subrange(0, j + 1) =~= added@.subrange(0, j as int).push(added@[j as int]));
                            assert(verts@ =~= verts0 + added@.subrange(0, j + 1).map_values(
                                |v: (usize, BitSet, Index)| (v.1, v.2),
                            ));
                            j = j + 1;
                        }
                        proof {
                            assert(added@.subrange(0, added@.len() as int) =~= added@);
                            assert(verts@.map_values(|v: (BitSet, Index)| vertex_key(v.0, v.1)) =~= keys_before
                                + added@.map_values(|v: (usize, BitSet, Index)| vertex_key(v.1, v.2)));
                            let keys = m.vertex_keys();
                            let ids = choose|ids: [usize; 4]|
                                {
                                    &&& m.triangles() == segs_before.flatten() + quad_faces(ids, low_negative)
                                    &&& forall|k: int|
                                        0 <= k < 4 ==> #[trigger] ids[k] < keys.len() && exists|set: BitSet|
                                            patch_of(configs@, cells[k].0, masks[k], set) && keys[ids[k] as int]
                                                == vertex_key(set, cells[k].1)
                                };
                            assert(ids[0] < keys.len() && ids[1] < keys.len() && ids[2] < keys.len() && ids[3] < keys.len());
                            let p0 = choose|set: BitSet| patch_of(configs@, cells[0].0, masks[0], set) && keys[ids[0] as int] == vertex_key(set, cells[0].1);
                            let p1 = choose|set: BitSet| patch_of(configs@, cells[1].0, masks[1], set) && keys[ids[1] as int] == vertex_key(set, cells[1].1);
                            let p2 = choose|set: BitSet| patch_of(configs@, cells[2].0, masks[2], set) && keys[ids[2] as int] == vertex_key(set, cells[2].1);
                            let p3 = choose|set: BitSet| patch_of(configs@, cells[3].0, masks[3], set) && keys[ids[3] as int] == vertex_key(set, cells[3].1);
                            let sets = [p0, p1, p2, p3];
                            let seg = quad_faces(ids, low_negative);
                            let w = (cells, masks, sets, ids, low_negative);
                            assert forall|k: int| 0 <= k < 4 implies {
                                &&& is_cell_mask(*negative_at, w.0[k].1, #[trigger] w.1[k])
                                &&& patch_of(configs@, w.0[k].0, w.1[k], w.2[k])
                                &&& located_patch(*located, w.2[k], w.0[k].1)
                                &&& w.3[k] < keys.len()
                                &&& keys[w.3[k] as int] == vertex_key(w.2[k], w.0[k].1)
                            } by {
                                assert(sets[k] == if k == 0 { p0 } else if k == 1 { p1 } else if k == 2 { p2 } else { p3 });
                                assert(patch_of(configs@, cells[k].0, masks[k], sets[k]));
                            }
                            assert(emitted_by(configs@, *negative_at, *located, edge, keys, seg, w));
                            assert forall|jj: int| 0 <= jj < n implies edge_outcome(configs@, *negative_at, *located, #[trigger] edges@[jj], keys, segs_before[jj]) by {
                                lemma_outcome_extends(configs@, *negative_at, *located, edges@[jj], keys_before, keys, segs_before[jj]);
                            }
                            segs = segs_before.push(seg);
                            segs_before.lemma_flatten_push(seg);
                            assert(m.triangles() =~= segs.flatten());
                            assert forall|jj: int| 0 <= jj < n + 1 implies edge_outcome(configs@, *negative_at, *located, #[trigger] edges@[jj], m.vertex_keys(), segs[jj]) by {
                                if jj < n {
                                    assert(segs[jj] == segs_before[jj]);
                                }
                            }
                        }
                    },
                    Err(QuadSkip::MissingCrossing) => {
                        proof {
                            let w2 = (cells, masks);
                            assert(missing_crossing(configs@, w2.0, w2.1, *located));
                            assert(left_out(configs@, *negative_at, *located, edge));
                            segs = segs.push(Seq::empty());
                            segs_before.lemma_flatten_push(Seq::empty());
                            assert(m.triangles() =~= segs.flatten());
                            assert forall|jj: int| 0 <= jj < n + 1 implies edge_outcome(configs@, *negative_at, *located, #[trigger] edges@[jj], m.vertex_keys(), segs[jj]) by {
                                if jj < n {
                                    assert(segs[jj] == segs_before[jj]);
                                }
                            }
                        }
                    },
                    Err(QuadSkip::NoPatch) => {
                        proof {
                            let w2 = (cells, masks);
                            assert(is_quad_cells(edge.0, edge.1, w2.0));
                            assert(no_patch(configs@, *negative_at, edge));
                        }
                        assert(edges@[n as int] == (b, idx));
                        return Err((b, idx));
                    },
                }
            },
        }
        n = n + 1;
    }
    Ok((m, verts))
}

} // verus!
