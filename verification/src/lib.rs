//! A verified solver core for a layered tiling puzzle: pieces, given as
//! multi-layer bit grids, are placed on a flat rectangular or stepped
//! pyramidal board until every cell is covered, and a backtracking search
//! enumerates every solution exactly once in lexicographic order.

pub mod board;
pub mod layer;
pub mod pieces;
pub mod placements;
pub mod solver;
