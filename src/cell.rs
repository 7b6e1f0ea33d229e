use vstd::prelude::*;
use crate::grid::Index;

verus! {

//  Corners of a cell; corner `c` sits at `(c & 1, (c >> 1) & 1, (c >> 2) & 1)`.
//
//      6---------------7
//     /|              /|
//    / |             / |
//   /  |            /  |
//  4---------------5   |
//  |   |           |   |
//  |   2-----------|---3
//  |  /            |  /
//  | /             | /
//  |/              |/
//  0---------------1
/// One of the eight corners of a cell.
#[derive(Clone, Copy, Debug, PartialEq, Eq, Hash, Structural)]
pub enum Corner {
    A,
    B,
    C,
    D,
    E,
    F,
    G,
    H,
}

//  Edges of a cell.
//
//      +-------9-------+
//     /|              /|
//    7 |            10 |              ^
//   /  8            /  11            /
//  +-------6-------+   |     ^    higher indexes in y
//  |   |           |   |     |     /
//  |   +-------3---|---+     |    /
//  2  /            5  /  higher indexes
//  | 1             | 4      in z
//  |/              |/        |/
//  o-------0-------+         +-- higher indexes in x ---->
//
// Point o is the reference point of the cell; every edge runs from its lower
// corner to its higher one.
/// One of the twelve edges of a cell.
#[derive(Clone, Copy, Debug, PartialEq, Eq, Hash, Structural)]
pub enum Edge {
    A,
    B,
    C,
    D,
    E,
    F,
    G,
    H,
    I,
    J,
    K,
    L,
}

impl Corner {
    /// The number of the corner, `0..8`.
    pub open spec fn id(self) -> nat {
        match self {
            Corner::A => 0,
            Corner::B => 1,
            Corner::C => 2,
            Corner::D => 3,
            Corner::E => 4,
            Corner::F => 5,
            Corner::G => 6,
            Corner::H => 7,
        }
    }

    /// Offset of the corner from the cell's reference point, along axis `axis`.
    pub open spec fn pos(self, axis: nat) -> nat {
        if axis == 0 {
            self.id() % 2
        } else if axis == 1 {
            (self.id() / 2) % 2
        } else {
            self.id() / 4
        }
    }

    pub fn as_usize(&self) -> (r: usize)
        ensures
            r == self.id(),
    {
        match self {
            Corner::A => 0,
            Corner::B => 1,
            Corner::C => 2,
            Corner::D => 3,
            Corner::E => 4,
            Corner::F => 5,
            Corner::G => 6,
            Corner::H => 7,
        }
    }
}

impl Edge {
    /// The number of the edge, `0..12`.
    pub open spec fn id(self) -> nat {
        match self {
            Edge::A => 0,
            Edge::B => 1,
            Edge::C => 2,
            Edge::D => 3,
            Edge::E => 4,
            Edge::F => 5,
            Edge::G => 6,
            Edge::H => 7,
            Edge::I => 8,
            Edge::J => 9,
            Edge::K => 10,
            Edge::L => 11,
        }
    }

    /// The axis the edge runs along: 0 for x, 1 for y, 2 for z.
    pub open spec fn axis(self) -> nat {
        self.id() % 3
    }

    /// The lower and the higher corner that the edge joins.
    pub open spec fn ends(self) -> (Corner, Corner) {
        match self {
            Edge::A => (Corner::A, Corner::B),
            Edge::B => (Corner::A, Corner::C),
            Edge::C => (Corner::A, Corner::E),
            Edge::D => (Corner::C, Corner::D),
            Edge::E => (Corner::B, Corner::D),
            Edge::F => (Corner::B, Corner::F),
            Edge::G => (Corner::E, Corner::F),
            Edge::H => (Corner::E, Corner::G),
            Edge::I => (Corner::C, Corner::G),
            Edge::J => (Corner::G, Corner::H),
            Edge::K => (Corner::F, Corner::H),
            Edge::L => (Corner::D, Corner::H),
        }
    }

    pub open spec fn from_id(e: nat) -> Edge {
        if e == 0 {
            Edge::A
        } else if e == 1 {
            Edge::B
        } else if e == 2 {
            Edge::C
        } else if e == 3 {
            Edge::D
        } else if e == 4 {
            Edge::E
        } else if e == 5 {
            Edge::F
        } else if e == 6 {
            Edge::G
        } else if e == 7 {
            Edge::H
        } else if e == 8 {
            Edge::I
        } else if e == 9 {
            Edge::J
        } else if e == 10 {
            Edge::K
        } else {
            Edge::L
        }
    }

    /// The edge numbered `e`.
    pub fn from_usize(e: usize) -> (r: Edge)
        requires
            e < 12,
        ensures
            r.id() == e,
            r == Edge::from_id(e as nat),
    {
        if e == 0 {
            Edge::A
        } else if e == 1 {
            Edge::B
        } else if e == 2 {
            Edge::C
        } else if e == 3 {
            Edge::D
        } else if e == 4 {
            Edge::E
        } else if e == 5 {
            Edge::F
        } else if e == 6 {
            Edge::G
        } else if e == 7 {
            Edge::H
        } else if e == 8 {
            Edge::I
        } else if e == 9 {
            Edge::J
        } else if e == 10 {
            Edge::K
        } else {
            Edge::L
        }
    }

    /// The number of the edge.
    pub fn as_usize(&self) -> (r: usize)
        ensures
            r == self.id(),
    {
        match self {
            Edge::A => 0,
            Edge::B => 1,
            Edge::C => 2,
            Edge::D => 3,
            Edge::E => 4,
            Edge::F => 5,
            Edge::G => 6,
            Edge::H => 7,
            Edge::I => 8,
            Edge::J => 9,
            Edge::K => 10,
            Edge::L => 11,
        }
    }

    /// The base edge (`A`, `B` or `C`, leaving corner `A`) that runs along the
    /// same axis as this one.
    pub fn base(&self) -> (r: Edge)
        ensures
            r.id() == self.id() % 3,
            r.id() < 3,
    {
        Edge::from_usize(self.as_usize() % 3)
    }
}

/// The offset of the lower corner of edge `e` from its cell's reference point:
/// edge `e` of cell `I` is base edge `base(e)` of grid point `I + edge_offset(e)`.
pub fn edge_offset(e: Edge) -> (r: Index)
    ensures
        r[0] == e.ends().0.pos(0),
        r[1] == e.ends().0.pos(1),
        r[2] == e.ends().0.pos(2),
{
    match e {
        Edge::A => [0, 0, 0],
        Edge::B => [0, 0, 0],
        Edge::C => [0, 0, 0],
        Edge::D => [0, 1, 0],
        Edge::E => [1, 0, 0],
        Edge::F => [1, 0, 0],
        Edge::G => [0, 0, 1],
        Edge::H => [0, 0, 1],
        Edge::I => [0, 1, 0],
        Edge::J => [0, 1, 1],
        Edge::K => [1, 0, 1],
        Edge::L => [1, 1, 0],
    }
}

/// The edges that base edge `b` is in the four cells around it, in quad order.
pub open spec fn quad_table(b: Edge) -> Seq<Edge> {
    if b == Edge::A {
        seq![Edge::A, Edge::G, Edge::J, Edge::D]
    } else if b == Edge::B {
        seq![Edge::B, Edge::E, Edge::K, Edge::H]
    } else {
        seq![Edge::C, Edge::I, Edge::L, Edge::F]
    }
}

/// The four edges, one in each cell around it, that a base edge is: the quad
/// dual to base edge `b` of point `I` joins edge `quad_edges(b)[k]` of cell
/// `I - edge_offset(quad_edges(b)[k])`, for `k` in `0..4`.
pub fn quad_edges(b: Edge) -> (r: [Edge; 4])
    requires
        b.id() < 3,
    ensures
        r[0] == b,
        forall|k: int| 0 <= k < 4 ==> #[trigger] r[k].axis() == b.id(),
        r@.no_duplicates(),
        r@ == quad_table(b),
{
    let r = match b {
        Edge::A => [Edge::A, Edge::G, Edge::J, Edge::D],
        Edge::B => [Edge::B, Edge::E, Edge::K, Edge::H],
        _ => [Edge::C, Edge::I, Edge::L, Edge::F],
    };
    assert(r@ =~= quad_table(b));
    r
}

} // verus!
