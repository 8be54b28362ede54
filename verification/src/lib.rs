//! A perfect-maze library: a randomized wall-carving generator over a
//! rectangular grid, a depth-first solver with parent-pointer path
//! reconstruction, and text renderers for the grid and the solved path.

pub mod grid;
pub mod rng;
pub mod maze;
pub mod solver;
pub mod render;
