//! Dual marching cubes on a sparse grid: the combinatorial core of extracting
//! a triangle mesh from the zero set of an implicit field.
//!
//! - `grid`: grid indices and their arithmetic.
//! - `cell`: the corners and edges of a cell, and which point owns each edge.
//! - `bitset`: small bitmaps for sign masks and edge sets.
//! - `config`: cell sign masks, the surface patches of a cell, crossed edges.
//! - `sampler`: the adaptive octree descent that decides where to sample.
//! - `quad`: the four cells around an edge, one vertex per (patch, cell), and
//!   the quads wound by the sign of the field.
pub mod bitset;
pub mod cell;
pub mod config;
pub mod grid;
pub mod quad;
pub mod sampler;
