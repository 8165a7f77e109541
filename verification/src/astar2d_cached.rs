//! Heuristic shortest-path search on a two-dimensional grid with a
//! precomputed neighbor table, built once per grid and reused across any
//! number of queries.

use vstd::prelude::*;

verus! {

use crate::buf::small_buf_into_vec;
use crate::coords::dims_wf;
use crate::policy::{cache_table, lemma_tables_ok};
use crate::model::{Cfg, mk_cfg, cache_ok, path_spec, completes};
use crate::engine::{search, rows, NbrSource};
use crate::astar2d::{get_neighbor_coords, get_cardinal_neighbor_coords, query_ok, PathError};

/// Builds the omnidirectional neighbor table of the grid: for every
/// passable cell its policy neighbors, for every impassable cell an empty
/// list.
pub fn create_neighbor_idx_cache(grid: &Vec<u32>, width: u32) -> (r: Vec<Vec<u32>>)
    requires
        dims_wf(grid@.len() as int, width as int, grid@.len() as int),
    ensures
        rows(r@) == cache_table(grid@, width as int, grid@.len() as int, false),
        cache_ok(rows(r@), grid@, width as int, grid@.len() as int),
{
    proof {
        lemma_tables_ok(grid@, width as int, grid@.len() as int, false);
    }
    let ghost target = cache_table(grid@, width as int, grid@.len() as int, false);
    let mut neighbor_idx_cache: Vec<Vec<u32>> = Vec::new();
    let len = grid.len();
    let tile_count = grid.len() as u32;
    let mut idx: usize = 0;
    while idx < len
        invariant
            idx <= len,
            len == grid@.len(),
            tile_count as int == grid@.len(),
            dims_wf(grid@.len() as int, width as int, grid@.len() as int),
            target == cache_table(grid@, width as int, grid@.len() as int, false),
            neighbor_idx_cache@.len() == idx,
            forall|i: int| 0 <= i < idx ==> (#[trigger] neighbor_idx_cache@[i])@ == target[i],
        decreases len - idx,
    {
        let neighbors: Vec<u32> = if grid[idx] == 0 {
            Vec::new()
        } else {
            small_buf_into_vec(get_neighbor_coords(idx as u32, grid, width, tile_count))
        };
        neighbor_idx_cache.push(neighbors);
        idx = idx + 1;
    }
    proof {
        assert(rows(neighbor_idx_cache@) =~= target);
    }
    neighbor_idx_cache
}

/// Builds the cardinal neighbor table of the grid in the same manner.
pub fn create_cardinal_neighbor_idx_cache(grid: &Vec<u32>, width: u32) -> (r: Vec<Vec<u32>>)
    requires
        dims_wf(grid@.len() as int, width as int, grid@.len() as int),
    ensures
        rows(r@) == cache_table(grid@, width as int, grid@.len() as int, true),
        cache_ok(rows(r@), grid@, width as int, grid@.len() as int),
{
    proof {
        lemma_tables_ok(grid@, width as int, grid@.len() as int, true);
    }
    let ghost target = cache_table(grid@, width as int, grid@.len() as int, true);
    let mut neighbor_idx_cache: Vec<Vec<u32>> = Vec::new();
    let len = grid.len();
    let tile_count = grid.len() as u32;
    let mut idx: usize = 0;
    while idx < len
        invariant
            idx <= len,
            len == grid@.len(),
            tile_count as int == grid@.len(),
            dims_wf(grid@.len() as int, width as int, grid@.len() as int),
            target == cache_table(grid@, width as int, grid@.len() as int, true),
            neighbor_idx_cache@.len() == idx,
            forall|i: int| 0 <= i < idx ==> (#[trigger] neighbor_idx_cache@[i])@ == target[i],
        decreases len - idx,
    {
        let neighbors: Vec<u32> = if grid[idx] == 0 {
            Vec::new()
        } else {
            small_buf_into_vec(get_cardinal_neighbor_coords(idx as u32, grid, width, tile_count))
        };
        neighbor_idx_cache.push(neighbors);
        idx = idx + 1;
    }
    proof {
        assert(rows(neighbor_idx_cache@) =~= target);
    }
    neighbor_idx_cache
}

/// The model of a cached two-dimensional query: the supplied table is
/// consulted for every expanded cell.
pub open spec fn cached_cfg(grid: Seq<u32>, width: int, start: int, end: int, table: Seq<Seq<u32>>) -> Cfg {
    mk_cfg(grid, width, grid.len() as int, start, end, table)
}

/// A checked cached query: validates the dimensions, the endpoint
/// indices and the endpoint cells in that order, then searches the
/// prebuilt neighbor table; a search that exhausts the frontier reports
/// the failure explicitly.
pub fn try_find_path(
    start: u32,
    end: u32,
    grid: &Vec<u32>,
    width: u32,
    neighbors: &Vec<Vec<u32>>,
) -> (out: Result<Vec<u32>, PathError>)
    requires
        crate::model::fits(grid@),
        grid@.len() <= u32::MAX,
        cache_ok(rows(neighbors@), grid@, width as int, grid@.len() as int),
    ensures
        (width == 0 || (grid@.len() as int) % (width as int) != 0) <==> out == Err::<
            Vec<u32>,
            PathError,
        >(PathError::InvalidDimensions),
        width >= 1 && (grid@.len() as int) % (width as int) == 0 && (grid@.len() <= start
            || grid@.len() <= end) <==> out == Err::<Vec<u32>, PathError>(PathError::InvalidIndex),
        query_ok(grid@, width as int, start as int, end as int) && (grid@[start as int] == 0
            || grid@[end as int] == 0) <==> out == Err::<Vec<u32>, PathError>(
            PathError::ImpassableEndpoint,
        ),
        query_ok(grid@, width as int, start as int, end as int) && grid@[start as int] != 0
            && grid@[end as int] != 0 ==> {
            let p = path_spec(
                cached_cfg(grid@, width as int, start as int, end as int, rows(neighbors@)),
            );
            &&& completes(
                cached_cfg(grid@, width as int, start as int, end as int, rows(neighbors@)),
            )
            &&& p.len() == 0 <==> out == Err::<Vec<u32>, PathError>(PathError::NoPathFound)
            &&& p.len() > 0 ==> out is Ok && out->Ok_0@ == p
        },
{
    let len = grid.len();
    if width == 0 || len % (width as usize) != 0 {
        return Err(PathError::InvalidDimensions);
    }
    if start as usize >= len || end as usize >= len {
        return Err(PathError::InvalidIndex);
    }
    proof {
        vstd::arithmetic::div_mod::lemma_mod_self_0(len as int);
        assert(query_ok(grid@, width as int, start as int, end as int));
    }
    if grid[start as usize] == 0 || grid[end as usize] == 0 {
        return Err(PathError::ImpassableEndpoint);
    }
    let path = find_path(start, end, grid, width, neighbors);
    if path.len() == 0 {
        Err(PathError::NoPathFound)
    } else {
        Ok(path)
    }
}

/// Searches the grid for a cheapest path from `start` to `end`,
/// consulting the prebuilt neighbor table for every expanded cell.
/// Returns the cell indices of the path after the start cell through the
/// goal cell, and the empty vector exactly when the model finds no path.
pub fn find_path(
    start: u32,
    end: u32,
    grid: &Vec<u32>,
    width: u32,
    neighbors: &Vec<Vec<u32>>,
) -> (out: Vec<u32>)
    requires
        query_ok(grid@, width as int, start as int, end as int),
        cache_ok(rows(neighbors@), grid@, width as int, grid@.len() as int),
    ensures
        out@ == path_spec(
            cached_cfg(grid@, width as int, start as int, end as int, rows(neighbors@)),
        ),
        completes(cached_cfg(grid@, width as int, start as int, end as int, rows(neighbors@))),
{
    let tile_count = grid.len() as u32;
    search(start, end, grid, width, tile_count, NbrSource::Table(neighbors))
}

} // verus!
