//! Heuristic shortest-path search over stacked two-dimensional floors.
//!
//! The grid is floor-major: `tile_count = width * height` cells per
//! floor. Fixed vertical links connect single cells to the corresponding
//! cell one floor up or down; a vertical transition requires moving
//! horizontally onto a linked cell first.

use vstd::prelude::*;

verus! {

broadcast use vstd::std_specs::hash::group_hash_axioms;

use std::collections::HashSet;
use crate::buf::small_buf_into_vec;
use crate::coords::{dims_wf, lemma_dims_bounds};
use crate::policy::{
    omni3_nbrs,
    stair_exts,
    sng,
    links_wf,
    cache3_table,
    lemma_policy_props,
    lemma_table3_ok,
};
use crate::model::{Cfg, mk_cfg, fits, cache_ok, path_spec, completes};
use crate::engine::{search, rows, NbrSource};
use crate::astar2d::get_neighbor_coords;

/// The omnidirectional neighbors of `current` on the layered grid: the
/// in-floor neighbors, then for each of them in order the cell one floor
/// up if it carries an up-link and the cell one floor down if it carries
/// a down-link. Like every other candidate, a stair destination is listed
/// only if it is passable.
#[verifier::loop_isolation(false)]
pub fn get_neighbor_idxs(
    current: u32,
    grid: &Vec<u32>,
    dimensions: (u32, u32),
    up_stairs_idxs: &HashSet<u32>,
    down_stairs_idxs: &HashSet<u32>,
) -> (r: Vec<u32>)
    requires
        dims_wf(
            grid@.len() as int,
            dimensions.0 as int,
            (dimensions.0 as int) * (dimensions.1 as int),
        ),
        links_wf(
            up_stairs_idxs@,
            down_stairs_idxs@,
            (dimensions.0 as int) * (dimensions.1 as int),
            grid@.len() as int,
        ),
        (current as int) < grid@.len(),
    ensures
        r@ == omni3_nbrs(
            grid@,
            dimensions.0 as int,
            (dimensions.0 as int) * (dimensions.1 as int),
            up_stairs_idxs@,
            down_stairs_idxs@,
            current as int,
        ),
{
    let (width, height) = dimensions;
    let ghost g = grid@;
    let ghost w = width as int;
    let ghost tc = w * (height as int);
    let ghost len = grid@.len() as int;
    proof {
        lemma_dims_bounds(len, w, tc);
    }
    let tile_count = width * height;
    let mut neighbors = small_buf_into_vec(get_neighbor_coords(current, grid, width, tile_count));
    proof {
        lemma_policy_props(g, w, tc, current as int);
    }
    let ghost base = neighbors@;
    let ghost ups = up_stairs_idxs@;
    let ghost downs = down_stairs_idxs@;
    let mut vertical_neighbors: Vec<u32> = Vec::new();
    let nlen = neighbors.len();
    let mut i: usize = 0;
    proof {
        assert(base.take(0) =~= Seq::<u32>::empty());
    }
    while i < nlen
        invariant
            i <= nlen,
            nlen == base.len(),
            neighbors@ == base,
            vertical_neighbors@ == stair_exts(g, base.take(i as int), ups, downs, tc),
        decreases nlen - i,
    {
        let n = neighbors[i];
        if up_stairs_idxs.contains(&n) {
            let above = n + tile_count;
            if grid[above as usize] > 0 {
                vertical_neighbors.push(above);
            }
        }
        if down_stairs_idxs.contains(&n) {
            let below = n - tile_count;
            if grid[below as usize] > 0 {
                vertical_neighbors.push(below);
            }
        }
        proof {
            assert(base.take(i + 1).drop_last() =~= base.take(i as int));
            assert(base.take(i + 1).last() == n);
            assert(vertical_neighbors@ =~= stair_exts(g, base.take(i as int), ups, downs, tc) + sng(
                ups.contains(n) && crate::passable(g, n + tc),
                n + tc,
            ) + sng(downs.contains(n) && crate::passable(g, n - tc), n - tc));
        }
        i = i + 1;
    }
    neighbors.append(&mut vertical_neighbors);
    proof {
        assert(base.take(nlen as int) =~= base);
        assert(neighbors@ =~= omni3_nbrs(g, w, tc, ups, downs, current as int));
    }
    neighbors
}

/// Builds the layered neighbor table of the grid: for every passable cell
/// its stair-extended policy neighbors, for every impassable cell an
/// empty list.
pub fn create_neighbor_idx_cache(
    grid: &Vec<u32>,
    dimensions: (u32, u32),
    up_stairs_idxs: &HashSet<u32>,
    down_stairs_idxs: &HashSet<u32>,
) -> (r: Vec<Vec<u32>>)
    requires
        dims_wf(
            grid@.len() as int,
            dimensions.0 as int,
            (dimensions.0 as int) * (dimensions.1 as int),
        ),
        links_wf(
            up_stairs_idxs@,
            down_stairs_idxs@,
            (dimensions.0 as int) * (dimensions.1 as int),
            grid@.len() as int,
        ),
    ensures
        rows(r@) == cache3_table(
            grid@,
            dimensions.0 as int,
            (dimensions.0 as int) * (dimensions.1 as int),
            up_stairs_idxs@,
            down_stairs_idxs@,
        ),
        cache_ok(
            rows(r@),
            grid@,
            dimensions.0 as int,
            (dimensions.0 as int) * (dimensions.1 as int),
        ),
{
    proof {
        lemma_table3_ok(
            grid@,
            dimensions.0 as int,
            (dimensions.0 as int) * (dimensions.1 as int),
            up_stairs_idxs@,
            down_stairs_idxs@,
        );
    }
    let ghost target = cache3_table(
        grid@,
        dimensions.0 as int,
        (dimensions.0 as int) * (dimensions.1 as int),
        up_stairs_idxs@,
        down_stairs_idxs@,
    );
    let mut neighbor_idx_cache: Vec<Vec<u32>> = Vec::new();
    let len = grid.len();
    let mut idx: usize = 0;
    while idx < len
        invariant
            idx <= len,
            len == grid@.len(),
            dims_wf(
                grid@.len() as int,
                dimensions.0 as int,
                (dimensions.0 as int) * (dimensions.1 as int),
            ),
            links_wf(
                up_stairs_idxs@,
                down_stairs_idxs@,
                (dimensions.0 as int) * (dimensions.1 as int),
                grid@.len() as int,
            ),
            target == cache3_table(
                grid@,
                dimensions.0 as int,
                (dimensions.0 as int) * (dimensions.1 as int),
                up_stairs_idxs@,
                down_stairs_idxs@,
            ),
            neighbor_idx_cache@.len() == idx,
            forall|i: int| 0 <= i < idx ==> (#[trigger] neighbor_idx_cache@[i])@ == target[i],
        decreases len - idx,
    {
        let neighbors: Vec<u32> = if grid[idx] == 0 {
            Vec::new()
        } else {
            get_neighbor_idxs(idx as u32, grid, dimensions, up_stairs_idxs, down_stairs_idxs)
        };
        neighbor_idx_cache.push(neighbors);
        idx = idx + 1;
    }
    proof {
        assert(rows(neighbor_idx_cache@) =~= target);
    }
    neighbor_idx_cache
}

/// The well-formedness a layered query asks of its inputs.
pub open spec fn query3_ok(
    grid: Seq<u32>,
    width: int,
    tile_count: int,
    start: int,
    end: int,
) -> bool {
    &&& dims_wf(grid.len() as int, width, tile_count)
    &&& 0 <= start < grid.len()
    &&& 0 <= end < grid.len()
    &&& fits(grid)
}

/// The model of a cached layered query.
pub open spec fn cached3_cfg(
    grid: Seq<u32>,
    width: int,
    tile_count: int,
    start: int,
    end: int,
    table: Seq<Seq<u32>>,
) -> Cfg {
    mk_cfg(grid, width, tile_count, start, end, table)
}

/// A checked layered query: validates the dimensions, the endpoint
/// indices and the endpoint cells in that order, then searches the
/// prebuilt neighbor table; a search that exhausts the frontier reports
/// the failure explicitly.
pub fn try_find_path(
    start: u32,
    end: u32,
    grid: &Vec<u32>,
    dimensions: (u32, u32),
    neighbors: &Vec<Vec<u32>>,
) -> (out: Result<Vec<u32>, crate::astar2d::PathError>)
    requires
        fits(grid@),
        grid@.len() <= u32::MAX,
        cache_ok(
            rows(neighbors@),
            grid@,
            dimensions.0 as int,
            (dimensions.0 as int) * (dimensions.1 as int),
        ),
    ensures
        (dimensions.0 == 0 || dimensions.1 == 0 || (grid@.len() as int) % ((dimensions.0 as int)
            * (dimensions.1 as int)) != 0) <==> out == Err::<Vec<u32>, crate::astar2d::PathError>(
            crate::astar2d::PathError::InvalidDimensions,
        ),
        dimensions.0 >= 1 && dimensions.1 >= 1 && (grid@.len() as int) % ((dimensions.0 as int)
            * (dimensions.1 as int)) == 0 && (grid@.len() <= start || grid@.len() <= end) <==> out
            == Err::<Vec<u32>, crate::astar2d::PathError>(crate::astar2d::PathError::InvalidIndex),
        query3_ok(
            grid@,
            dimensions.0 as int,
            (dimensions.0 as int) * (dimensions.1 as int),
            start as int,
            end as int,
        ) && (grid@[start as int] == 0 || grid@[end as int] == 0) <==> out == Err::<
            Vec<u32>,
            crate::astar2d::PathError,
        >(crate::astar2d::PathError::ImpassableEndpoint),
        query3_ok(
            grid@,
            dimensions.0 as int,
            (dimensions.0 as int) * (dimensions.1 as int),
            start as int,
            end as int,
        ) && grid@[start as int] != 0 && grid@[end as int] != 0 ==> {
            let p = path_spec(
                cached3_cfg(
                    grid@,
                    dimensions.0 as int,
                    (dimensions.0 as int) * (dimensions.1 as int),
                    start as int,
                    end as int,
                    rows(neighbors@),
                ),
            );
            &&& completes(
                cached3_cfg(
                    grid@,
                    dimensions.0 as int,
                    (dimensions.0 as int) * (dimensions.1 as int),
                    start as int,
                    end as int,
                    rows(neighbors@),
                ),
            )
            &&& p.len() == 0 <==> out == Err::<Vec<u32>, crate::astar2d::PathError>(
                crate::astar2d::PathError::NoPathFound,
            )
            &&& p.len() > 0 ==> out is Ok && out->Ok_0@ == p
        },
{
    let (width, height) = dimensions;
    let len = grid.len();
    let ghost tc = (width as int) * (height as int);
    if width == 0 || height == 0 {
        proof {
            vstd::arithmetic::mul::lemma_mul_by_zero_is_zero(width as int);
            vstd::arithmetic::mul::lemma_mul_by_zero_is_zero(height as int);
            assert(tc == 0);
        }
        return Err(crate::astar2d::PathError::InvalidDimensions);
    }
    proof {
        assert(1 <= (width as int) * (height as int) <= u64::MAX) by (nonlinear_arith)
            requires
                1 <= width <= u32::MAX,
                1 <= height <= u32::MAX,
        ;
    }
    let tile_count64 = (width as u64) * (height as u64);
    if (len as u64) % tile_count64 != 0 {
        return Err(crate::astar2d::PathError::InvalidDimensions);
    }
    if start as usize >= len || end as usize >= len {
        return Err(crate::astar2d::PathError::InvalidIndex);
    }
    proof {
        assert(tc >= 1) by (nonlinear_arith)
            requires
                width >= 1,
                height >= 1,
                tc == (width as int) * (height as int),
        ;
        assert((tc as int) % (width as int) == 0) by {
            vstd::arithmetic::div_mod::lemma_mod_multiples_basic(height as int, width as int);
            vstd::arithmetic::mul::lemma_mul_is_commutative(height as int, width as int);
        }
        assert(query3_ok(grid@, width as int, tc, start as int, end as int));
    }
    if grid[start as usize] == 0 || grid[end as usize] == 0 {
        return Err(crate::astar2d::PathError::ImpassableEndpoint);
    }
    let path = find_path(start, end, grid, dimensions, neighbors);
    if path.len() == 0 {
        Err(crate::astar2d::PathError::NoPathFound)
    } else {
        Ok(path)
    }
}

/// Searches the layered grid for a cheapest path from `start` to `end`,
/// consulting the prebuilt neighbor table for every expanded cell.
/// Returns the cell indices of the path after the start cell through the
/// goal cell, and the empty vector exactly when the model finds no path.
pub fn find_path(
    start: u32,
    end: u32,
    grid: &Vec<u32>,
    dimensions: (u32, u32),
    neighbors: &Vec<Vec<u32>>,
) -> (out: Vec<u32>)
    requires
        query3_ok(
            grid@,
            dimensions.0 as int,
            (dimensions.0 as int) * (dimensions.1 as int),
            start as int,
            end as int,
        ),
        cache_ok(
            rows(neighbors@),
            grid@,
            dimensions.0 as int,
            (dimensions.0 as int) * (dimensions.1 as int),
        ),
    ensures
        out@ == path_spec(
            cached3_cfg(
                grid@,
                dimensions.0 as int,
                (dimensions.0 as int) * (dimensions.1 as int),
                start as int,
                end as int,
                rows(neighbors@),
            ),
        ),
        completes(
            cached3_cfg(
                grid@,
                dimensions.0 as int,
                (dimensions.0 as int) * (dimensions.1 as int),
                start as int,
                end as int,
                rows(neighbors@),
            ),
        ),
{
    let (width, height) = dimensions;
    proof {
        lemma_dims_bounds(grid@.len() as int, width as int, (width as int) * (height as int));
    }
    let tile_count = width * height;
    search(start, end, grid, width, tile_count, NbrSource::Table(neighbors))
}

} // verus!
