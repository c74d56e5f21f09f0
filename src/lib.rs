//! Conway's Game of Life on a sparse, unbounded grid.
//!
//! Two interchangeable engines advance a population one generation at a
//! time: a snapshot engine that rebuilds its grid every step, and an
//! incremental engine that keeps one map of generation-stamped cells.
//! Both are proved to follow the same rule, stated in `life`.
pub mod coord_map;
pub mod grid;
pub mod life;
pub mod model;
pub mod rle;
