//! Mathematical model of the search.
//!
//! The search engine is specified as a small-step interpreter over a ghost
//! state: a frontier of prioritised entries, a cost-so-far table and a
//! predecessor table. One interpreter step models one pass through the main
//! loop; `run` iterates it under a fuel bound, and `path_spec` names the path
//! that the settled interpreter reconstructs. Every executable search variant
//! is proved to return exactly `path_spec` of its configuration, which makes
//! the result a function of the inputs alone.

use vstd::prelude::*;

verus! {

use crate::coords::{manhattan, dims_wf};
use crate::passable;

/// An entry of the frontier: a candidate cell together with the estimated
/// total cost through it.
#[derive(Clone, Copy, PartialEq, Eq, Structural)]
pub struct FrontierItem {
    pub position: u32,
    pub cost: u32,
}

/// A complete description of one search query: the terrain grid, the
/// dimensions, the endpoints, and the neighbor table consulted for every
/// expanded cell (the on-demand variants are modelled by the table that the
/// enumeration policy would produce for every cell).
pub struct Cfg {
    pub grid: Seq<u32>,
    pub width: int,
    pub tile_count: int,
    pub start: int,
    pub end: int,
    pub table: Seq<Seq<u32>>,
}

/// Assembles a query description from its parts.
pub open spec fn mk_cfg(
    grid: Seq<u32>,
    width: int,
    tile_count: int,
    start: int,
    end: int,
    table: Seq<Seq<u32>>,
) -> Cfg {
    Cfg { grid, width, tile_count, start, end, table }
}

/// The per-query scratch state of the interpreter.
pub struct SState {
    pub frontier: Seq<FrontierItem>,
    pub cost: Seq<u32>,
    pub came: Seq<u32>,
    pub done: bool,
    pub found: bool,
}

/// The largest terrain cost occurring in the grid.
pub open spec fn max_cost(grid: Seq<u32>) -> int
    decreases grid.len(),
{
    if grid.len() == 0 {
        0
    } else {
        let m = max_cost(grid.drop_last());
        if grid.last() > m {
            grid.last() as int
        } else {
            m
        }
    }
}

/// The accumulated costs and priorities of a search on this grid fit in
/// `u32` arithmetic; a machine limit, not a property of the algorithm.
pub open spec fn fits(grid: Seq<u32>) -> bool {
    (grid.len() + 1) * (max_cost(grid) + 3) + 2 * grid.len() + 1 <= u32::MAX
}

/// Every neighbor listed by a table is a grid cell at most one move away
/// (one step inside a floor, possibly diagonal, or one floor up or down).
pub open spec fn cache_ok(table: Seq<Seq<u32>>, grid: Seq<u32>, width: int, tile_count: int) -> bool {
    &&& table.len() == grid.len()
    &&& forall|i: int, j: int|
        0 <= i < table.len() && 0 <= j < table[i].len() ==> (#[trigger] table[i][j] < grid.len()
            && manhattan(width, tile_count, i, table[i][j] as int) <= 3)
}

/// The query's neighbor table is such a table.
pub open spec fn table_wf(cfg: Cfg) -> bool {
    cache_ok(cfg.table, cfg.grid, cfg.width, cfg.tile_count)
}

/// A well-formed query.
pub open spec fn cfg_wf(cfg: Cfg) -> bool {
    &&& dims_wf(cfg.grid.len() as int, cfg.width, cfg.tile_count)
    &&& 0 <= cfg.start < cfg.grid.len()
    &&& 0 <= cfg.end < cfg.grid.len()
    &&& fits(cfg.grid)
    &&& table_wf(cfg)
}

/// The state a search starts from: only the start cell is visited, with the
/// sentinel cost of one, every predecessor defaults to the start cell, and
/// the frontier holds the start cell at priority zero.
pub open spec fn init(cfg: Cfg) -> SState {
    SState {
        frontier: seq![FrontierItem { position: cfg.start as u32, cost: 0u32 }],
        cost: Seq::new(cfg.grid.len(), |i: int| if i == cfg.start { 1u32 } else { 0u32 }),
        came: Seq::new(cfg.grid.len(), |i: int| cfg.start as u32),
        done: false,
        found: false,
    }
}

/// The strict frontier preference: lower estimated cost first, and among
/// equal costs the higher cell index first.
pub open spec fn prefer(a: FrontierItem, b: FrontierItem) -> bool {
    a.cost < b.cost || (a.cost == b.cost && a.position > b.position)
}

/// The index, among the first `n` frontier entries, of the entry extracted
/// next: the first entry that no other strictly beats.
pub open spec fn best_upto(f: Seq<FrontierItem>, n: int) -> int
    decreases n,
{
    if n <= 1 {
        0
    } else {
        let p = best_upto(f, n - 1);
        if prefer(f[n - 1], f[p]) {
            n - 1
        } else {
            p
        }
    }
}

/// The index of the frontier entry extracted next.
pub open spec fn best_idx(f: Seq<FrontierItem>) -> int {
    best_upto(f, f.len() as int)
}

/// One relaxation attempt of the edge from the expanded cell `cur` to its
/// neighbor `n`: the candidate cost is the cost so far plus the neighbor's
/// terrain toll plus the Manhattan length of the move; the neighbor is
/// updated only if unvisited or strictly improved, in which case it is
/// pushed on the frontier with the Manhattan heuristic towards the goal
/// added to its priority.
pub open spec fn relax_one(cfg: Cfg, cur: u32, n: u32, s: SState) -> SState {
    let step_cost = cfg.grid[n as int] + manhattan(cfg.width, cfg.tile_count, cur as int, n as int);
    let cand = (s.cost[cur as int] + step_cost) as u32;
    if s.cost[n as int] == 0 || cand < s.cost[n as int] {
        let prio = (cand + manhattan(cfg.width, cfg.tile_count, cfg.end, n as int)) as u32;
        SState {
            frontier: s.frontier.push(FrontierItem { position: n, cost: prio }),
            cost: s.cost.update(n as int, cand),
            came: s.came.update(n as int, cur),
            ..s
        }
    } else {
        s
    }
}

/// Relaxation of a whole neighbor list, in order.
pub open spec fn relax_list(cfg: Cfg, cur: u32, ns: Seq<u32>, s: SState) -> SState
    decreases ns.len(),
{
    if ns.len() == 0 {
        s
    } else {
        relax_one(cfg, cur, ns.last(), relax_list(cfg, cur, ns.drop_last(), s))
    }
}

/// One pass of the main loop: settle on failure if the frontier is empty,
/// otherwise extract the preferred entry, settle on success if it is the
/// goal, and otherwise relax all its listed neighbors.
pub open spec fn step(cfg: Cfg, s: SState) -> SState {
    if s.done {
        s
    } else if s.frontier.len() == 0 {
        SState { done: true, found: false, ..s }
    } else {
        let b = best_idx(s.frontier);
        let cur = s.frontier[b].position;
        let popped = SState { frontier: s.frontier.remove(b), ..s };
        if cur == cfg.end {
            SState { done: true, found: true, ..popped }
        } else {
            relax_list(cfg, cur, cfg.table[cur as int], popped)
        }
    }
}

/// The interpreter, iterated `fuel` times.
pub open spec fn run(cfg: Cfg, s: SState, fuel: nat) -> SState
    decreases fuel,
{
    if fuel == 0 {
        s
    } else {
        step(cfg, run(cfg, s, (fuel - 1) as nat))
    }
}

/// The search settles: some number of interpreter steps reaches a done
/// state.
pub open spec fn completes(cfg: Cfg) -> bool {
    exists|fuel: nat| (#[trigger] run(cfg, init(cfg), fuel)).done
}

/// The state the search settles in.
pub open spec fn final_state(cfg: Cfg) -> SState {
    run(cfg, init(cfg), choose|fuel: nat| (#[trigger] run(cfg, init(cfg), fuel)).done)
}

/// The walk backwards along predecessor links from `cur` until the
/// predecessor is the start cell, returned in forward order. The fuel only
/// serves termination; any fuel at least the cost of `cur` yields the walk.
pub open spec fn chain(s: SState, start: u32, cur: u32, fuel: nat) -> Seq<u32>
    decreases fuel,
{
    if fuel == 0 {
        Seq::empty()
    } else if s.came[cur as int] == start {
        seq![cur]
    } else {
        chain(s, start, s.came[cur as int], (fuel - 1) as nat).push(cur)
    }
}

/// The path a settled state yields: on failure the empty sequence, on
/// success the predecessor walk from the goal, which excludes the start
/// cell and ends with the goal cell.
pub open spec fn answer(cfg: Cfg, s: SState) -> Seq<u32> {
    if s.found {
        chain(s, cfg.start as u32, cfg.end as u32, s.cost[cfg.end] as nat)
    } else {
        Seq::empty()
    }
}

/// The path of a query: what the settled interpreter reconstructs.
pub open spec fn path_spec(cfg: Cfg) -> Seq<u32> {
    answer(cfg, final_state(cfg))
}

/// Number of visited cells (nonzero cost-so-far entries).
pub open spec fn nvis(cost: Seq<u32>) -> int
    decreases cost.len(),
{
    if cost.len() == 0 {
        0int
    } else {
        nvis(cost.drop_last()) + if cost.last() != 0 {
            1int
        } else {
            0int
        }
    }
}

/// The part of the invariant that the path reconstruction rests on: the
/// predecessor of every visited cell other than the start is a visited
/// cell of strictly smaller cost, and the start cell points at itself.
pub open spec fn came_links_ok(cfg: Cfg, s: SState) -> bool {
    let len = cfg.grid.len() as int;
    &&& s.cost.len() == len
    &&& s.came.len() == len
    &&& s.cost[cfg.start] == 1
    &&& s.came[cfg.start] == cfg.start as u32
    &&& forall|i: int|
        0 <= i < len && #[trigger] s.cost[i] != 0 && i != cfg.start ==> s.came[i] < len
            && s.cost[s.came[i] as int] != 0 && s.cost[s.came[i] as int] < s.cost[i]
}

/// The invariant every reachable interpreter state satisfies: tables have
/// grid length; the start cell keeps its sentinel cost and self
/// predecessor; every other visited cell has a visited predecessor of
/// strictly smaller cost that lists it as a neighbor; frontier entries
/// point at visited cells; costs are bounded by the visit count, which
/// keeps the arithmetic inside `u32`; and success implies a visited goal.
#[verifier::opaque]
pub open spec fn inv(cfg: Cfg, s: SState) -> bool {
    let len = cfg.grid.len() as int;
    &&& s.cost.len() == len
    &&& s.came.len() == len
    &&& s.cost[cfg.start] == 1
    &&& s.came[cfg.start] == cfg.start as u32
    &&& forall|i: int|
        0 <= i < len && #[trigger] s.cost[i] != 0 && i != cfg.start ==> s.came[i] < len
            && s.cost[s.came[i] as int] != 0 && s.cost[s.came[i] as int] < s.cost[i]
            && cfg.table[s.came[i] as int].contains(i as u32)
    &&& forall|k: int|
        0 <= k < s.frontier.len() ==> (#[trigger] s.frontier[k]).position < len
            && s.cost[s.frontier[k].position as int] != 0
    &&& forall|i: int|
        0 <= i < len ==> #[trigger] s.cost[i] <= 1 + nvis(s.cost) * (max_cost(cfg.grid) + 3)
    &&& s.found ==> s.cost[cfg.end] != 0
}

} // verus!
