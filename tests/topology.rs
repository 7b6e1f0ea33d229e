use dual_marching_cubes::bitset::BitSet;
use dual_marching_cubes::cell::{edge_offset, quad_edges, Corner, Edge};
use dual_marching_cubes::config::{cell_corners, connected_edges, crossed_edges, patch_edges, sign_mask};
use dual_marching_cubes::sampler::{descend, sample_octree, Sample};
use dual_marching_cubes::grid::{neg_offset, offset, pow2roundup};
use dual_marching_cubes::quad::{emit_quads, quad_cells, MeshTopology, QuadSkip};

#[test]
fn edge_from_usize_round_trips() {
    for e in 0..12usize {
        assert_eq!(Edge::from_usize(e).as_usize(), e);
    }
    assert_eq!(Edge::from_usize(0), Edge::A);
    assert_eq!(Edge::from_usize(11), Edge::L);
}

#[test]
fn edge_base_follows_axis() {
    assert_eq!(Edge::A.base(), Edge::A);
    assert_eq!(Edge::D.base(), Edge::A);
    assert_eq!(Edge::E.base(), Edge::B);
    assert_eq!(Edge::I.base(), Edge::C);
    assert_eq!(Edge::L.base(), Edge::C);
    assert_eq!(Edge::J.base(), Edge::A);
}

#[test]
fn corner_numbers() {
    assert_eq!(Corner::A.as_usize(), 0);
    assert_eq!(Corner::H.as_usize(), 7);
}

#[test]
fn edge_offsets() {
    assert_eq!(edge_offset(Edge::A), [0, 0, 0]);
    assert_eq!(edge_offset(Edge::J), [0, 1, 1]);
    assert_eq!(edge_offset(Edge::L), [1, 1, 0]);
    assert_eq!(edge_offset(Edge::K), [1, 0, 1]);
}

#[test]
fn quad_edge_table() {
    assert_eq!(quad_edges(Edge::A), [Edge::A, Edge::G, Edge::J, Edge::D]);
    assert_eq!(quad_edges(Edge::B), [Edge::B, Edge::E, Edge::K, Edge::H]);
    assert_eq!(quad_edges(Edge::C), [Edge::C, Edge::I, Edge::L, Edge::F]);
}

#[test]
fn pow2roundup_values() {
    assert_eq!(pow2roundup(1), 1);
    assert_eq!(pow2roundup(2), 2);
    assert_eq!(pow2roundup(3), 4);
    assert_eq!(pow2roundup(17), 32);
    assert_eq!(pow2roundup(64), 64);
    assert_eq!(pow2roundup(65), 128);
    assert_eq!(pow2roundup(usize::MAX / 2 + 1), usize::MAX / 2 + 1);
}

#[test]
fn offsets_add_and_subtract() {
    assert_eq!(offset([1, 2, 3], [0, 1, 1]), [1, 3, 4]);
    assert_eq!(neg_offset([1, 2, 3], [1, 1, 0]), [0, 1, 3]);
}

#[test]
fn bitset_set_and_get() {
    let mut b = BitSet::new(0);
    assert!(!b.get(3));
    b.set(3);
    b.set(11);
    assert!(b.get(3));
    assert!(b.get(11));
    assert!(!b.get(4));
    assert_eq!(b.as_usize(), (1 << 3) | (1 << 11));
    assert_eq!(b.members(), vec![3, 11]);
}

#[test]
fn cell_corners_in_corner_order() {
    let c = cell_corners([4, 5, 6]);
    assert_eq!(c[0], [4, 5, 6]);
    assert_eq!(c[1], [5, 5, 6]);
    assert_eq!(c[2], [4, 6, 6]);
    assert_eq!(c[4], [4, 5, 7]);
    assert_eq!(c[7], [5, 6, 7]);
}

#[test]
fn sign_mask_sets_negative_corners() {
    let m = sign_mask([true, false, false, false, false, false, false, true]);
    assert_eq!(m.as_usize(), 0b1000_0001);
    assert_eq!(sign_mask([false; 8]).as_usize(), 0);
    assert_eq!(sign_mask([true; 8]).as_usize(), 255);
}

fn table() -> Vec<Vec<BitSet>> {
    let mut t: Vec<Vec<BitSet>> = vec![Vec::new(); 256];
    // Corner A alone negative: one patch over edges A, B, C.
    t[1] = vec![BitSet::new(0b111)];
    // Corners A and H negative: two patches.
    t[0b1000_0001] = vec![BitSet::new(0b111), BitSet::new((1 << 9) | (1 << 10) | (1 << 11))];
    t
}

#[test]
fn connected_edges_finds_the_patch() {
    let t = table();
    assert_eq!(connected_edges(&t, Edge::B, BitSet::new(1)), Some(BitSet::new(0b111)));
    let two = BitSet::new(0b1000_0001);
    assert_eq!(
        connected_edges(&t, Edge::K, two),
        Some(BitSet::new((1 << 9) | (1 << 10) | (1 << 11)))
    );
    assert_eq!(connected_edges(&t, Edge::A, two), Some(BitSet::new(0b111)));
    assert_eq!(connected_edges(&t, Edge::E, two), None);
    assert_eq!(connected_edges(&t, Edge::A, BitSet::new(0)), None);
}

#[test]
fn patch_edges_maps_to_owning_points() {
    let mut s = BitSet::new(0);
    s.set(0);
    s.set(9);
    s.set(11);
    let keys = patch_edges(s, [2, 3, 4]);
    assert_eq!(keys, vec![(Edge::A, [2, 3, 4]), (Edge::A, [2, 4, 5]), (Edge::C, [3, 4, 4])]);
}

#[test]
fn quad_cells_around_an_edge() {
    let cells = quad_cells(Edge::A, [5, 5, 5]).unwrap();
    assert_eq!(cells[0], (Edge::A, [5, 5, 5]));
    assert_eq!(cells[1], (Edge::G, [5, 5, 4]));
    assert_eq!(cells[2], (Edge::J, [5, 4, 4]));
    assert_eq!(cells[3], (Edge::D, [5, 4, 5]));
    let cells = quad_cells(Edge::C, [1, 1, 0]).unwrap();
    assert_eq!(cells[2], (Edge::L, [0, 0, 0]));
}

#[test]
fn quad_cells_skips_border_edges() {
    assert_eq!(quad_cells(Edge::A, [0, 0, 3]), None);
    assert!(quad_cells(Edge::A, [0, 1, 1]).is_some());
    assert_eq!(quad_cells(Edge::B, [3, 3, 0]), None);
    assert_eq!(quad_cells(Edge::C, [0, 3, 3]), None);
}

#[test]
fn empty_field_gives_empty_mesh() {
    let t = table();
    let m = MeshTopology::new();
    assert_eq!(m.vertex_count(), 0);
    assert!(m.faces().is_empty());
    // A cell with every corner positive has no patch.
    let mask = sign_mask([false; 8]);
    assert_eq!(connected_edges(&t, Edge::A, mask), None);
}

#[test]
fn vertices_are_remembered_once() {
    let mut m = MeshTopology::new();
    let s = BitSet::new(0b111);
    assert_eq!(m.lookup(s, [1, 1, 1]), None);
    let a = m.add_vertex(s, [1, 1, 1]);
    assert_eq!(a, 0);
    assert_eq!(m.lookup(s, [1, 1, 1]), Some(0));
    let b = m.add_vertex(BitSet::new(0b1000), [1, 1, 1]);
    assert_eq!(b, 1);
    assert_eq!(m.lookup(BitSet::new(0b1000), [1, 1, 1]), Some(1));
    assert_eq!(m.lookup(s, [1, 1, 2]), None);
    assert_eq!(m.vertex_count(), 2);
}

#[test]
fn quads_are_wound_by_sign() {
    let mut m = MeshTopology::new();
    for k in 0..4usize {
        m.add_vertex(BitSet::new(1), [k, 0, 0]);
    }
    m.add_quad([0, 1, 2, 3], false);
    assert_eq!(m.faces(), &vec![(0, 1, 2), (2, 3, 0)]);
    m.add_quad([0, 1, 2, 3], true);
    assert_eq!(m.faces()[2], (3, 2, 1));
    assert_eq!(m.faces()[3], (1, 0, 3));
}

#[test]
fn crossed_edges_need_opposite_signs() {
    let r = crossed_edges([2, 2, 2], true, [Some(false), Some(true), None]);
    assert_eq!(r, vec![(Edge::A, [2, 2, 2])]);
    let r = crossed_edges([2, 2, 2], false, [Some(true), Some(true), Some(false)]);
    assert_eq!(r, vec![(Edge::A, [2, 2, 2]), (Edge::B, [2, 2, 2])]);
    assert!(crossed_edges([0, 0, 0], false, [None, None, None]).is_empty());
}

#[test]
fn cell_vertex_memoises_per_patch() {
    let t = table();
    let mut m = MeshTopology::new();
    let mask = BitSet::new(0b1000_0001);
    let (a, s, new) = m.cell_vertex(&t, Edge::B, [1, 1, 1], mask).unwrap();
    assert_eq!((a, s, new), (0, BitSet::new(0b111), true));
    let (b, _, new) = m.cell_vertex(&t, Edge::C, [1, 1, 1], mask).unwrap();
    assert_eq!((b, new), (0, false));
    let (c, _, new) = m.cell_vertex(&t, Edge::J, [1, 1, 1], mask).unwrap();
    assert_eq!((c, new), (1, true));
    assert_eq!(m.cell_vertex(&t, Edge::E, [1, 1, 1], mask), None);
    assert_eq!(m.vertex_count(), 2);
}

#[test]
fn emit_quad_shares_vertices() {
    // Every cell has one patch over all twelve edges.
    let t: Vec<Vec<BitSet>> = vec![vec![BitSet::new(0xfff)]; 256];
    let mut m = MeshTopology::new();
    let cells = quad_cells(Edge::A, [1, 1, 1]).unwrap();
    let masks = [BitSet::new(1); 4];
    let all = |_e: Edge, _i: [usize; 3]| true;
    let added = m.emit_quad(&t, cells, masks, false, &all).unwrap();
    assert_eq!(added.len(), 4);
    assert_eq!(added[0], (0, BitSet::new(0xfff), [1, 1, 1]));
    assert_eq!(added[3], (3, BitSet::new(0xfff), [1, 0, 1]));
    assert_eq!(m.faces(), &vec![(0, 1, 2), (2, 3, 0)]);
    // The quad of a neighbouring edge reuses the two cells they share.
    let cells = quad_cells(Edge::A, [1, 2, 1]).unwrap();
    let added = m.emit_quad(&t, cells, masks, true, &all).unwrap();
    assert_eq!(added.len(), 2);
    assert_eq!(m.vertex_count(), 6);
    assert_eq!(m.faces()[2], (0, 1, 5));
    assert_eq!(m.faces()[3], (5, 4, 0));
}

#[test]
fn emit_quad_without_patch_changes_nothing() {
    let t = table();
    let mut m = MeshTopology::new();
    let cells = quad_cells(Edge::A, [1, 1, 1]).unwrap();
    let all = |_e: Edge, _i: [usize; 3]| true;
    assert_eq!(m.emit_quad(&t, cells, [BitSet::new(0); 4], false, &all), Err(QuadSkip::NoPatch));
    assert_eq!(m.vertex_count(), 0);
    assert!(m.faces().is_empty());
}

#[test]
fn sampling_a_far_field_records_the_coarse_corners() {
    let probe = |_i: [usize; 3], _h: usize| Sample::Far;
    let leaves = sample_octree(&probe, 8).unwrap();
    assert_eq!(leaves.len(), 8);
    assert!(leaves.contains(&[0, 0, 0]));
    assert!(leaves.contains(&[4, 4, 4]));
}

#[test]
fn sampling_descends_near_the_surface() {
    // Near zero only at the origin: its octant is refined down to cells.
    let probe = |i: [usize; 3], _h: usize| if i == [0, 0, 0] { Sample::Near } else { Sample::Far };
    let leaves = sample_octree(&probe, 8).unwrap();
    assert_eq!(leaves.len(), 8 + 7 + 7);
    assert!(leaves.contains(&[1, 1, 1]));
    assert!(leaves.contains(&[2, 0, 0]));
    assert!(leaves.contains(&[4, 4, 4]));
}

#[test]
fn sampling_stops_at_a_zero() {
    let probe = |i: [usize; 3], _h: usize| if i == [0, 0, 0] { Sample::Zero } else { Sample::Near };
    assert_eq!(sample_octree(&probe, 16), Err([0, 0, 0]));
    let probe = |i: [usize; 3], _h: usize| if i == [1, 1, 0] { Sample::Zero } else { Sample::Near };
    assert_eq!(sample_octree(&probe, 4), Err([1, 1, 0]));
}

#[test]
fn emit_quad_leaves_out_unlocated_crossings() {
    // Every cell has one patch over all twelve edges.
    let t: Vec<Vec<BitSet>> = vec![vec![BitSet::new(0xfff)]; 256];
    let mut m = MeshTopology::new();
    let cells = quad_cells(Edge::A, [1, 1, 1]).unwrap();
    // Only the crossings of the base edges of point (1, 1, 1) were located.
    let located = |_e: Edge, i: [usize; 3]| i == [1, 1, 1];
    let r = m.emit_quad(&t, cells, [BitSet::new(1); 4], false, &located);
    assert_eq!(r, Err(QuadSkip::MissingCrossing));
    assert_eq!(m.vertex_count(), 0);
    assert!(m.faces().is_empty());
}

#[test]
fn sampling_records_exactly_the_descended_points() {
    // Near everywhere: the descent reaches single cells, and records every
    // point of the grid of side 4 with all coordinates below 4.
    let probe = |_i: [usize; 3], _h: usize| Sample::Near;
    let mut leaves = sample_octree(&probe, 4).unwrap();
    leaves.sort();
    leaves.dedup();
    assert_eq!(leaves.len(), 64);
    assert!(leaves.iter().all(|l| l.iter().all(|x| *x < 4)));
}

#[test]
fn emit_quads_of_no_edges_is_empty() {
    let t: Vec<Vec<BitSet>> = vec![Vec::new(); 256];
    let neg = |_i: [usize; 3]| false;
    let all = |_e: Edge, _i: [usize; 3]| true;
    let (m, verts) = emit_quads(&t, &Vec::new(), &neg, &all).unwrap();
    assert_eq!(m.vertex_count(), 0);
    assert!(m.faces().is_empty());
    assert!(verts.is_empty());
}

#[test]
fn emit_quads_around_a_single_negative_point() {
    // The field is negative at (1, 1, 1) only; each cell touching it has one
    // patch, over the cell's edges that meet that point.
    let mut t: Vec<Vec<BitSet>> = vec![Vec::new(); 256];
    for c in 0..8usize {
        let mut set = BitSet::new(0);
        for e in 0..12usize {
            let (lo, hi) = match e {
                0 => (0, 1), 1 => (0, 2), 2 => (0, 4), 3 => (2, 3), 4 => (1, 3), 5 => (1, 5),
                6 => (4, 5), 7 => (4, 6), 8 => (2, 6), 9 => (6, 7), 10 => (5, 7), _ => (3, 7),
            };
            if lo == c || hi == c {
                set.set(e);
            }
        }
        t[1 << c] = vec![set];
    }
    let neg = |i: [usize; 3]| i == [1, 1, 1];
    let mut edges = Vec::new();
    for b in 0..3usize {
        let mut lo = [1, 1, 1];
        edges.push((Edge::from_usize(b), [1, 1, 1]));
        lo[b] -= 1;
        edges.push((Edge::from_usize(b), lo));
    }
    let located = |e: Edge, i: [usize; 3]| edges.contains(&(e, i));
    let (m, verts) = emit_quads(&t, &edges, &neg, &located).unwrap();
    // A closed box: 8 cells, 6 quads.
    assert_eq!(verts.len(), 8);
    assert_eq!(m.faces().len(), 12);
    assert!(m.faces().iter().all(|f| f.0 < 8 && f.1 < 8 && f.2 < 8));
}

#[test]
fn emit_quads_reports_a_faulty_table() {
    let t: Vec<Vec<BitSet>> = vec![Vec::new(); 256];
    let neg = |i: [usize; 3]| i == [1, 1, 1];
    let all = |_e: Edge, _i: [usize; 3]| true;
    let edges = vec![(Edge::A, [1, 1, 1])];
    assert_eq!(emit_quads(&t, &edges, &neg, &all).err(), Some((Edge::A, [1, 1, 1])));
}

#[test]
fn descending_into_a_sub_cube() {
    let probe = |i: [usize; 3], _h: usize| if i == [5, 4, 4] { Sample::Zero } else { Sample::Far };
    let mut leaves = Vec::new();
    assert_eq!(descend(&probe, [4, 4, 4], 2, 8, &mut leaves), Err([5, 4, 4]));
    let mut leaves = Vec::new();
    assert_eq!(descend(&probe, [0, 0, 0], 2, 8, &mut leaves), Ok(()));
    assert_eq!(leaves.len(), 8);
    assert!(leaves.contains(&[1, 1, 1]));
}
