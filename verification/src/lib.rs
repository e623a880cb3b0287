//! A perfect-maze toolkit on a rectangular grid: randomized spanning-tree
//! generation, wall bitmask encoding, and passage-constrained pathfinding.
//!
//! Cells are identified by row-major indices in `[0, width * height)`. A
//! passage is an open connection between two grid-adjacent cells; the
//! generator produces a passage list that forms a spanning tree of the grid.

use vstd::prelude::*;

pub mod generate;
pub mod passage;
pub mod rng;
pub mod path;
pub mod topology;
pub mod walls;

pub use generate::find_passages;
pub use path::{find_path, next_node_in_path};
pub use walls::find_walls;
pub use passage::there_is_no_passage_here;
pub use topology::find_neighbors;

verus! {

/// The ways an operation over a maze can fail.
#[derive(Clone, Copy, PartialEq, Eq, Debug)]
pub enum MazeError {
    /// The grid has a zero width or height.
    InvalidDimensions,
    /// The passage list does not connect the start cell to the end cell.
    UnreachableTarget,
}

} // verus!
