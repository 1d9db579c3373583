//! Depth-first and breadth-first search over any problem that names an initial
//! state, a goal test and the successors of each state, with a grid maze and an
//! explicit tree as problems to search.

pub mod generic_search;
pub mod maze;
pub mod tree;
