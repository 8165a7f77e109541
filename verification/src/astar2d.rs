//! Heuristic shortest-path search on a two-dimensional grid with
//! neighbors enumerated on demand at every expanded cell.

use vstd::prelude::*;

verus! {

use crate::buf::{NeighborBuf, small_buf_elems, small_buf_new, small_buf_push};
use crate::policy::{omni_nbrs, cardinal_nbrs, sng, lemma_candidate_bounds, policy_table,
    lemma_tables_ok};
use crate::coords::{dims_wf, lemma_dims_bounds};
use crate::model::{Cfg, mk_cfg, fits, path_spec, completes};
use crate::engine::{search, NbrSource};
use crate::passable;

/// The well-formedness a two-dimensional query asks of its inputs: valid
/// dimensions, endpoints inside the grid, and terrain costs small enough
/// for the search arithmetic (a machine limit).
pub open spec fn query_ok(grid: Seq<u32>, width: int, start: int, end: int) -> bool {
    &&& dims_wf(grid.len() as int, width, grid.len() as int)
    &&& 0 <= start < grid.len()
    &&& 0 <= end < grid.len()
    &&& fits(grid)
}

/// The model of an on-demand two-dimensional query: the whole grid is one
/// floor, and the neighbor table is the chosen policy at every cell.
pub open spec fn query_cfg(grid: Seq<u32>, width: int, start: int, end: int, cardinal: bool) -> Cfg {
    mk_cfg(
        grid,
        width,
        grid.len() as int,
        start,
        end,
        policy_table(grid, width, grid.len() as int, cardinal),
    )
}

/// Why a checked query was rejected, or that it found no path.
#[derive(Clone, Copy, Debug, PartialEq, Eq, Structural)]
pub enum PathError {
    /// The width is zero or does not divide the grid length.
    InvalidDimensions,
    /// The start or the goal index lies outside the grid.
    InvalidIndex,
    /// The start or the goal cell is impassable, so no path can exist.
    ImpassableEndpoint,
    /// The whole reachable region was searched without meeting the goal.
    NoPathFound,
}

/// A checked query: validates the dimensions, the endpoint indices and
/// the endpoint cells in that order, then searches; a search that
/// exhausts the frontier reports the failure explicitly.
pub fn try_find_path(
    start: u32,
    end: u32,
    grid: &Vec<u32>,
    width: u32,
    cardinal_directions: bool,
) -> (out: Result<Vec<u32>, PathError>)
    requires
        fits(grid@),
        grid@.len() <= u32::MAX,
    ensures
        (width == 0 || (grid@.len() as int) % (width as int) != 0) <==> out == Err::<
            Vec<u32>,
            PathError,
        >(PathError::InvalidDimensions),
        width >= 1 && (grid@.len() as int) % (width as int) == 0 && (grid@.len() <= start
            || grid@.len() <= end) <==> out == Err::<Vec<u32>, PathError>(PathError::InvalidIndex),
        query_ok(grid@, width as int, start as int, end as int) && (grid@[start as int] == 0
            || grid@[end as int] == 0) <==> out == Err::<Vec<u32>, PathError>(
            PathError::ImpassableEndpoint,
        ),
        query_ok(grid@, width as int, start as int, end as int) && grid@[start as int] != 0
            && grid@[end as int] != 0 ==> {
            let p = path_spec(
                query_cfg(grid@, width as int, start as int, end as int, cardinal_directions),
            );
            &&& completes(
                query_cfg(grid@, width as int, start as int, end as int, cardinal_directions),
            )
            &&& p.len() == 0 <==> out == Err::<Vec<u32>, PathError>(PathError::NoPathFound)
            &&& p.len() > 0 ==> out is Ok && out->Ok_0@ == p
        },
{
    let len = grid.len();
    if width == 0 || len % (width as usize) != 0 {
        return Err(PathError::InvalidDimensions);
    }
    if start as usize >= len || end as usize >= len {
        return Err(PathError::InvalidIndex);
    }
    proof {
        vstd::arithmetic::div_mod::lemma_mod_self_0(len as int);
        assert(query_ok(grid@, width as int, start as int, end as int));
    }
    if grid[start as usize] == 0 || grid[end as usize] == 0 {
        return Err(PathError::ImpassableEndpoint);
    }
    let path = find_path(start, end, grid, width, cardinal_directions);
    if path.len() == 0 {
        Err(PathError::NoPathFound)
    } else {
        Ok(path)
    }
}

/// Searches the grid for a cheapest path from `start` to `end`, with
/// neighbors enumerated on demand at every expanded cell: omnidirectional
/// by default, cardinal-only if `cardinal_directions` is set. Returns the
/// cell indices of the path after the start cell through the goal cell,
/// and the empty vector exactly when the model finds no path.
pub fn find_path(
    start: u32,
    end: u32,
    grid: &Vec<u32>,
    width: u32,
    cardinal_directions: bool,
) -> (out: Vec<u32>)
    requires
        query_ok(grid@, width as int, start as int, end as int),
    ensures
        out@ == path_spec(
            query_cfg(grid@, width as int, start as int, end as int, cardinal_directions),
        ),
        completes(query_cfg(grid@, width as int, start as int, end as int, cardinal_directions)),
{
    proof {
        lemma_tables_ok(grid@, width as int, grid@.len() as int, cardinal_directions);
    }
    let tile_count = grid.len() as u32;
    if cardinal_directions {
        search(start, end, grid, width, tile_count, NbrSource::Cardinal)
    } else {
        search(start, end, grid, width, tile_count, NbrSource::Omni)
    }
}

/// Pushes the passable cells of one candidate row: the cell at `base`,
/// then its west and east neighbors where the boundary allows them.
fn push_row(neighbors: &mut NeighborBuf, grid: &Vec<u32>, base: u32, has_left: bool, has_right: bool)
    requires
        grid@.len() <= u32::MAX,
        (base as int) < grid@.len(),
        has_left ==> base >= 1,
        has_right ==> (base as int) + 1 < grid@.len(),
    ensures
        small_buf_elems(*final(neighbors)) == small_buf_elems(*old(neighbors)) + sng(
            passable(grid@, base as int),
            base as int,
        ) + sng(has_left && passable(grid@, base as int - 1), base as int - 1) + sng(
            has_right && passable(grid@, base as int + 1),
            base as int + 1,
        ),
{
    let ghost e0 = small_buf_elems(*neighbors);
    let ghost g = grid@;
    let ghost b = base as int;
    if grid[base as usize] > 0 {
        small_buf_push(neighbors, base);
    }
    proof {
        assert(small_buf_elems(*neighbors) =~= e0 + sng(passable(g, b), b));
    }
    if has_left && grid[(base - 1) as usize] > 0 {
        small_buf_push(neighbors, base - 1);
    }
    proof {
        assert(small_buf_elems(*neighbors) =~= e0 + sng(passable(g, b), b) + sng(
            has_left && passable(g, b - 1),
            b - 1,
        ));
    }
    if has_right && grid[(base + 1) as usize] > 0 {
        small_buf_push(neighbors, base + 1);
    }
    proof {
        assert(small_buf_elems(*neighbors) =~= e0 + sng(passable(g, b), b) + sng(
            has_left && passable(g, b - 1),
            b - 1,
        ) + sng(has_right && passable(g, b + 1), b + 1));
    }
}

/// The omnidirectional neighbors of `current`, collected into a small
/// buffer in policy order.
#[verifier::rlimit(100)]
#[verifier::spinoff_prover]
pub(crate) fn get_neighbor_coords(current: u32, grid: &Vec<u32>, width: u32, tile_count: u32) -> (r:
    NeighborBuf)
    requires
        dims_wf(grid@.len() as int, width as int, tile_count as int),
        (current as int) < grid@.len(),
    ensures
        small_buf_elems(r) == omni_nbrs(grid@, width as int, tile_count as int, current as int),
{
    let ghost g = grid@;
    let ghost w = width as int;
    let ghost tc = tile_count as int;
    let ghost len = grid@.len() as int;
    let ghost c = current as int;
    proof {
        lemma_dims_bounds(len, w, tc);
        lemma_candidate_bounds(len, w, tc, c);
    }
    let ghost a1 = sng(c % tc >= w && passable(g, c - w), c - w);
    let ghost a2 = sng(c % tc >= w && c % w > 0 && passable(g, c - w - 1), c - w - 1);
    let ghost a3 = sng(c % tc >= w && c % w < w - 1 && passable(g, c - w + 1), c - w + 1);
    let ghost a4 = sng(c % w > 0 && passable(g, c - 1), c - 1);
    let ghost a5 = sng(c % w < w - 1 && passable(g, c + 1), c + 1);
    let ghost a6 = sng(c % tc < tc - w && passable(g, c + w), c + w);
    let ghost a7 = sng(c % tc < tc - w && c % w > 0 && passable(g, c + w - 1), c + w - 1);
    let ghost a8 = sng(c % tc < tc - w && c % w < w - 1 && passable(g, c + w + 1), c + w + 1);
    let idx_in_level = current % tile_count;
    let is_top = idx_in_level < width;
    let is_bottom = idx_in_level >= tile_count - width;
    let x = current % width;
    let is_left = x == 0;
    let is_right = x == width - 1;
    let mut neighbors = small_buf_new();
    if !is_top {
        push_row(&mut neighbors, grid, current - width, !is_left, !is_right);
    }
    proof {
        assert(small_buf_elems(neighbors) =~= a1 + a2 + a3);
    }
    if !is_left && grid[(current - 1) as usize] > 0 {
        small_buf_push(&mut neighbors, current - 1);
    }
    proof {
        assert(small_buf_elems(neighbors) =~= a1 + a2 + a3 + a4);
    }
    if !is_right && grid[(current + 1) as usize] > 0 {
        small_buf_push(&mut neighbors, current + 1);
    }
    proof {
        assert(small_buf_elems(neighbors) =~= a1 + a2 + a3 + a4 + a5);
    }
    if !is_bottom {
        push_row(&mut neighbors, grid, current + width, !is_left, !is_right);
    }
    proof {
        assert(small_buf_elems(neighbors) =~= a1 + a2 + a3 + a4 + a5 + a6 + a7 + a8);
        assert(small_buf_elems(neighbors) =~= omni_nbrs(g, w, tc, c));
    }
    neighbors
}

/// The cardinal neighbors of `current`, collected into a small buffer in
/// policy order.
pub(crate) fn get_cardinal_neighbor_coords(
    current: u32,
    grid: &Vec<u32>,
    width: u32,
    tile_count: u32,
) -> (r: NeighborBuf)
    requires
        dims_wf(grid@.len() as int, width as int, tile_count as int),
        (current as int) < grid@.len(),
    ensures
        small_buf_elems(r) == cardinal_nbrs(grid@, width as int, tile_count as int, current as int),
{
    let ghost g = grid@;
    let ghost w = width as int;
    let ghost tc = tile_count as int;
    let ghost len = grid@.len() as int;
    let ghost c = current as int;
    proof {
        lemma_dims_bounds(len, w, tc);
        lemma_candidate_bounds(len, w, tc, c);
    }
    let ghost b1 = sng(c % tc >= w && passable(g, c - w), c - w);
    let ghost b2 = sng(c % w > 0 && passable(g, c - 1), c - 1);
    let ghost b3 = sng(c % w < w - 1 && passable(g, c + 1), c + 1);
    let ghost b4 = sng(c % tc < tc - w && passable(g, c + w), c + w);
    let idx_in_level = current % tile_count;
    let is_top = idx_in_level < width;
    let is_bottom = idx_in_level >= tile_count - width;
    let x = current % width;
    let is_left = x == 0;
    let is_right = x == width - 1;
    let mut neighbors = small_buf_new();
    if !is_top {
        let top_index = current - width;
        if grid[top_index as usize] > 0 {
            small_buf_push(&mut neighbors, top_index);
        }
    }
    proof {
        assert(small_buf_elems(neighbors) =~= b1);
    }
    if !is_left && grid[(current - 1) as usize] > 0 {
        small_buf_push(&mut neighbors, current - 1);
    }
    proof {
        assert(small_buf_elems(neighbors) =~= b1 + b2);
    }
    if !is_right && grid[(current + 1) as usize] > 0 {
        small_buf_push(&mut neighbors, current + 1);
    }
    proof {
        assert(small_buf_elems(neighbors) =~= b1 + b2 + b3);
    }
    if !is_bottom {
        let bottom_index = current + width;
        if grid[bottom_index as usize] > 0 {
            small_buf_push(&mut neighbors, bottom_index);
        }
    }
    proof {
        assert(small_buf_elems(neighbors) =~= b1 + b2 + b3 + b4);
        assert(small_buf_elems(neighbors) =~= cardinal_nbrs(g, w, tc, c));
    }
    neighbors
}

} // verus!
