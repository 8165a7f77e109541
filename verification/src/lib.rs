//! Weighted, heuristic-guided shortest-path search over grids of terrain
//! costs.
//!
//! A grid is a flat sequence of cell costs in row-major order (and
//! floor-major order for stacked floors); cost zero marks an impassable
//! cell, any other cost is the toll for entering the cell. Three search
//! variants share one verified engine: `astar2d` enumerates neighbors on
//! demand for each query, `astar2d_cached` consults a neighbor table
//! built once per grid, and `astar3d` extends the cached search across
//! floors connected by fixed vertical links.
//!
//! The engine is specified by a small-step interpreter (`model`) and is
//! proved to return exactly the path that interpreter reconstructs, so
//! every search result is a mathematical function of its inputs. The
//! module `laws` states and proves the library-wide properties on top of
//! that: determinism, agreement between the cached and the on-demand
//! variants, honesty of the failure result, and the Manhattan lower bound
//! on cardinal paths.

pub mod astar2d;
pub mod astar2d_cached;
pub mod astar3d;
pub mod buf;
pub mod coords;
pub mod engine;
pub mod invariants;
pub mod laws;
pub mod model;
pub mod policy;

use vstd::prelude::*;

verus! {

/// True of a cell index that lies inside the grid and carries a nonzero
/// terrain cost, i.e. a cell that an agent may enter.
pub open spec fn passable(grid: Seq<u32>, i: int) -> bool {
    0 <= i < grid.len() && grid[i] > 0
}

} // verus!
