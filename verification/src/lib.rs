//! Tours for the travelling-salesman problem on a dense weighted adjacency
//! matrix: an exact solver by permutation search and the classic
//! MST-based approximation (Prim's algorithm, edge doubling, preorder walk).

pub mod approx;
pub mod cost;
pub mod exact;
pub mod graph;
pub mod loader;
pub mod mst;
