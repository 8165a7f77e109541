//! Laws of the search, stated and proved over the query model.

use vstd::prelude::*;

verus! {

use crate::passable;
use crate::coords::{manhattan, chebyshev, dims_wf};
use crate::model::{
    Cfg,
    SState,
    mk_cfg,
    cfg_wf,
    fits,
    init,
    step,
    run,
    completes,
    final_state,
    chain,
    answer,
    path_spec,
    inv,
};
use crate::invariants::{
    lemma_run_inv,
    lemma_settles,
    lemma_inv_came_links,
    lemma_best_upto,
};
use crate::model::{best_idx, relax_one, relax_list};
use crate::policy::{policy_table, cache_table, lemma_policy_props, lemma_omni_cheb};
use crate::astar2d::query_cfg;
use crate::astar2d_cached::cached_cfg;

/// One admissible move of the query: `b` stands on the neighbor list of
/// `a`.
pub open spec fn edge(cfg: Cfg, a: int, b: int) -> bool {
    0 <= a < cfg.grid.len() && cfg.table[a].contains(b as u32)
}

/// A walk the query admits: it starts with a move out of the start cell,
/// every later cell is a listed neighbor of its predecessor, and it ends
/// at the goal cell.
pub open spec fn is_path(cfg: Cfg, p: Seq<u32>) -> bool {
    &&& p.len() > 0
    &&& p.last() == cfg.end as u32
    &&& edge(cfg, cfg.start, p[0] as int)
    &&& forall|i: int| 0 <= i < p.len() - 1 ==> #[trigger] edge(cfg, p[i] as int, p[i + 1] as int)
}

/// The goal can be reached from the start: trivially when the two
/// coincide, otherwise by some admissible walk.
pub open spec fn connected(cfg: Cfg) -> bool {
    cfg.start == cfg.end || exists|p: Seq<u32>| is_path(cfg, p)
}

/// The reconstructed predecessor walk of a visited cell other than the
/// start is an admissible walk ending at that cell.
proof fn lemma_chain_is_path(cfg: Cfg, s: SState, cur: u32, fuel: nat)
    requires
        cfg_wf(cfg),
        inv(cfg, s),
        (cur as int) < cfg.grid.len(),
        (cur as int) != cfg.start,
        s.cost[cur as int] != 0,
        fuel >= s.cost[cur as int],
    ensures
        ({
            let p = chain(s, cfg.start as u32, cur, fuel);
            &&& p.len() > 0
            &&& p.last() == cur
            &&& edge(cfg, cfg.start, p[0] as int)
            &&& forall|i: int|
                0 <= i < p.len() - 1 ==> #[trigger] edge(cfg, p[i] as int, p[i + 1] as int)
            &&& forall|i: int| 0 <= i < p.len() ==> #[trigger] p[i] != cfg.start as u32
        }),
    decreases fuel,
{
    reveal(crate::model::inv);
    let start = cfg.start as u32;
    let p = chain(s, start, cur, fuel);
    assert(s.cost[cur as int] >= 1);
    let prev = s.came[cur as int];
    if prev == start {
        assert(p =~= seq![cur]);
        assert(cfg.table[prev as int].contains(cur));
    } else {
        assert((prev as int) != cfg.start) by {
            assert(prev == s.came[cur as int]);
        }
        assert(s.cost[prev as int] < s.cost[cur as int]);
        lemma_chain_is_path(cfg, s, prev, (fuel - 1) as nat);
        let q = chain(s, start, prev, (fuel - 1) as nat);
        assert(p == q.push(cur));
        assert(cfg.table[prev as int].contains(cur));
        assert forall|i: int| 0 <= i < p.len() - 1 implies #[trigger] edge(
            cfg,
            p[i] as int,
            p[i + 1] as int,
        ) by {
            if i < q.len() - 1 {
                assert(p[i] == q[i] && p[i + 1] == q[i + 1]);
                assert(edge(cfg, q[i] as int, q[i + 1] as int));
            } else {
                assert(p[i] == q.last() && p[i + 1] == cur);
                assert(q.last() == prev);
            }
        }
    }
}

/// Shape of every successful result: the returned sequence ends with the
/// goal cell and never contains the start cell — the path excludes the
/// start and includes the goal — and, unless the goal is the start
/// itself, it is an admissible walk of the query.
pub proof fn lemma_path_shape(cfg: Cfg, p: Seq<u32>)
    requires
        cfg_wf(cfg),
        completes(cfg),
        p == path_spec(cfg),
        p.len() > 0,
    ensures
        p.last() == cfg.end as u32,
        cfg.start == cfg.end ==> p == seq![cfg.end as u32],
        cfg.start != cfg.end ==> is_path(cfg, p) && forall|i: int|
            0 <= i < p.len() ==> #[trigger] p[i] != cfg.start as u32,
{
    let f = choose|f: nat| (#[trigger] run(cfg, init(cfg), f)).done;
    lemma_run_inv(cfg, f);
    lemma_settles(cfg, f);
    let s = final_state(cfg);
    assert(s.found);
    lemma_inv_came_links(cfg, s);
    if cfg.start == cfg.end {
        assert(p =~= seq![cfg.end as u32]);
    } else {
        lemma_chain_is_path(cfg, s, cfg.end as u32, s.cost[cfg.end] as nat);
    }
}

/// Determinism: the path of a query is a function of the grid, the
/// neighbor table and the endpoints alone, so repeated searches with
/// unchanged inputs return the same path.
pub proof fn lemma_search_deterministic(cfg: Cfg, first: Seq<u32>, second: Seq<u32>)
    requires
        first == path_spec(cfg),
        second == path_spec(cfg),
    ensures
        first == second,
{
}

/// Failure is honest: when no admissible walk connects the start to the
/// goal, the search returns the empty path, never a fabricated one- or
/// two-cell path.
pub proof fn lemma_no_connection_no_path(cfg: Cfg)
    requires
        cfg_wf(cfg),
        completes(cfg),
        !connected(cfg),
    ensures
        path_spec(cfg) == Seq::<u32>::empty(),
{
    let f = choose|f: nat| (#[trigger] run(cfg, init(cfg), f)).done;
    lemma_run_inv(cfg, f);
    lemma_settles(cfg, f);
    let s = final_state(cfg);
    if s.found {
        lemma_inv_came_links(cfg, s);
        assert(cfg.end != cfg.start);
        lemma_chain_is_path(cfg, s, cfg.end as u32, s.cost[cfg.end] as nat);
        let p = chain(s, cfg.start as u32, cfg.end as u32, s.cost[cfg.end] as nat);
        assert(is_path(cfg, p));
        assert(false);
    }
}

/// Every frontier entry of the state points at a passable cell.
spec fn frontier_passable(cfg: Cfg, s: SState) -> bool {
    forall|k: int|
        0 <= k < s.frontier.len() ==> passable(
            cfg.grid,
            (#[trigger] s.frontier[k]).position as int,
        )
}

/// Two queries that differ only in their neighbor tables, which agree at
/// every passable cell and list passable cells only.
spec fn twin(cfg1: Cfg, cfg2: Cfg) -> bool {
    &&& cfg1.grid == cfg2.grid
    &&& cfg1.width == cfg2.width
    &&& cfg1.tile_count == cfg2.tile_count
    &&& cfg1.start == cfg2.start
    &&& cfg1.end == cfg2.end
    &&& 0 <= cfg1.start < cfg1.grid.len()
    &&& cfg1.grid.len() <= u32::MAX
    &&& forall|i: int|
        0 <= i < cfg1.grid.len() && passable(cfg1.grid, i) ==> #[trigger] cfg1.table[i]
            == cfg2.table[i]
    &&& forall|i: int, j: int|
        0 <= i < cfg1.grid.len() && 0 <= j < cfg1.table[i].len() ==> passable(
            cfg1.grid,
            (#[trigger] cfg1.table[i][j]) as int,
        )
    &&& forall|i: int, j: int|
        0 <= i < cfg2.grid.len() && 0 <= j < cfg2.table[i].len() ==> passable(
            cfg2.grid,
            (#[trigger] cfg2.table[i][j]) as int,
        )
}

/// Relaxation reads the grid, the dimensions and the goal, never the
/// table, so queries that share those relax identically.
proof fn lemma_relax_list_twin(cfg1: Cfg, cfg2: Cfg, cur: u32, ns: Seq<u32>, s: SState)
    requires
        cfg1.grid == cfg2.grid,
        cfg1.width == cfg2.width,
        cfg1.tile_count == cfg2.tile_count,
        cfg1.end == cfg2.end,
    ensures
        relax_list(cfg1, cur, ns, s) == relax_list(cfg2, cur, ns, s),
    decreases ns.len(),
{
    if ns.len() > 0 {
        lemma_relax_list_twin(cfg1, cfg2, cur, ns.drop_last(), s);
        let prev = relax_list(cfg1, cur, ns.drop_last(), s);
        assert(relax_one(cfg1, cur, ns.last(), prev) == relax_one(cfg2, cur, ns.last(), prev));
    }
}

/// Relaxing a list of passable cells keeps every frontier entry passable.
proof fn lemma_relax_list_passable(cfg: Cfg, cur: u32, ns: Seq<u32>, s: SState)
    requires
        frontier_passable(cfg, s),
        forall|j: int| 0 <= j < ns.len() ==> passable(cfg.grid, (#[trigger] ns[j]) as int),
    ensures
        frontier_passable(cfg, relax_list(cfg, cur, ns, s)),
    decreases ns.len(),
{
    if ns.len() > 0 {
        assert(forall|j: int| 0 <= j < ns.len() - 1 ==> ns.drop_last()[j] == ns[j]);
        lemma_relax_list_passable(cfg, cur, ns.drop_last(), s);
        let prev = relax_list(cfg, cur, ns.drop_last(), s);
        let r = relax_one(cfg, cur, ns.last(), prev);
        assert(ns[ns.len() - 1] == ns.last());
        assert forall|k: int| 0 <= k < r.frontier.len() implies passable(
            cfg.grid,
            (#[trigger] r.frontier[k]).position as int,
        ) by {
            if k < prev.frontier.len() {
                assert(r.frontier[k] == prev.frontier[k]);
            } else {
                assert(r.frontier[k].position == ns.last());
            }
        }
    }
}

/// Twin queries run in lockstep: as long as the start cell is passable,
/// only passable cells are ever expanded, where the two tables agree.
proof fn lemma_twin_run(cfg1: Cfg, cfg2: Cfg, fuel: nat)
    requires
        twin(cfg1, cfg2),
        passable(cfg1.grid, cfg1.start),
    ensures
        run(cfg1, init(cfg1), fuel) == run(cfg2, init(cfg2), fuel),
        frontier_passable(cfg1, run(cfg1, init(cfg1), fuel)),
    decreases fuel,
{
    if fuel == 0 {
        assert(init(cfg1).cost =~= init(cfg2).cost);
        assert(init(cfg1).came =~= init(cfg2).came);
        assert(init(cfg1).frontier =~= init(cfg2).frontier);
        assert(init(cfg1) == init(cfg2));
    } else {
        lemma_twin_run(cfg1, cfg2, (fuel - 1) as nat);
        let s = run(cfg1, init(cfg1), (fuel - 1) as nat);
        if !s.done && s.frontier.len() > 0 {
            lemma_best_upto(s.frontier, s.frontier.len() as int);
            let b = best_idx(s.frontier);
            let cur = s.frontier[b].position;
            assert(passable(cfg1.grid, cur as int));
            let popped = SState { frontier: s.frontier.remove(b), ..s };
            assert forall|k: int| 0 <= k < popped.frontier.len() implies passable(
                cfg1.grid,
                (#[trigger] popped.frontier[k]).position as int,
            ) by {
                if k < b {
                    assert(popped.frontier[k] == s.frontier[k]);
                } else {
                    assert(popped.frontier[k] == s.frontier[k + 1]);
                }
            }
            assert(frontier_passable(cfg1, popped));
            if cur == cfg1.end {
                assert(step(cfg1, s) == step(cfg2, s));
                assert(step(cfg1, s).frontier == popped.frontier);
            } else {
                let ns = cfg1.table[cur as int];
                assert(cfg2.table[cur as int] == ns);
                lemma_relax_list_twin(cfg1, cfg2, cur, ns, popped);
                assert(forall|j: int|
                    0 <= j < ns.len() ==> passable(cfg1.grid, (#[trigger] ns[j]) as int)) by {
                    assert(forall|j: int| 0 <= j < ns.len() ==> cfg1.table[cur as int][j] == ns[j]);
                }
                lemma_relax_list_passable(cfg1, cur, ns, popped);
                assert(step(cfg1, s) == relax_list(cfg1, cur, ns, popped));
                assert(step(cfg2, s) == relax_list(cfg2, cur, ns, popped));
            }
            assert(step(cfg1, s) == step(cfg2, s));
            assert(frontier_passable(cfg1, step(cfg1, s)));
        } else {
            assert(step(cfg1, s) == step(cfg2, s));
            assert(frontier_passable(cfg1, step(cfg1, s)));
        }
        assert(run(cfg1, init(cfg1), fuel) == step(cfg1, s));
        assert(run(cfg2, init(cfg2), fuel) == step(cfg2, s));
    }
}

/// Round trip between the two query styles: a search that consults the
/// prebuilt neighbor table returns exactly the path of the search that
/// enumerates neighbors on demand, for the same grid, direction mode and
/// endpoints, whenever the start cell is passable.
pub proof fn lemma_cached_matches_on_demand(
    grid: Seq<u32>,
    width: int,
    start: int,
    end: int,
    cardinal: bool,
)
    requires
        dims_wf(grid.len() as int, width, grid.len() as int),
        0 <= start < grid.len(),
        0 <= end < grid.len(),
        fits(grid),
        passable(grid, start),
        completes(query_cfg(grid, width, start, end, cardinal)),
    ensures
        completes(
            cached_cfg(grid, width, start, end, cache_table(grid, width, grid.len() as int, cardinal)),
        ),
        path_spec(
            cached_cfg(grid, width, start, end, cache_table(grid, width, grid.len() as int, cardinal)),
        ) == path_spec(query_cfg(grid, width, start, end, cardinal)),
{
    let len = grid.len() as int;
    let cfg1 = query_cfg(grid, width, start, end, cardinal);
    let cfg2 = cached_cfg(grid, width, start, end, cache_table(grid, width, len, cardinal));
    assert forall|i: int, j: int| 0 <= i < len && 0 <= j < cfg1.table[i].len() implies passable(
        grid,
        (#[trigger] cfg1.table[i][j]) as int,
    ) by {
        lemma_policy_props(grid, width, len, i);
    }
    assert forall|i: int, j: int| 0 <= i < len && 0 <= j < cfg2.table[i].len() implies passable(
        grid,
        (#[trigger] cfg2.table[i][j]) as int,
    ) by {
        lemma_policy_props(grid, width, len, i);
    }
    assert(twin(cfg1, cfg2));
    let f = choose|f: nat| (#[trigger] run(cfg1, init(cfg1), f)).done;
    lemma_twin_run(cfg1, cfg2, f);
    lemma_settles(cfg1, f);
    lemma_settles(cfg2, f);
    assert(answer(cfg1, final_state(cfg1)) == answer(cfg2, final_state(cfg2)));
}

/// When every listed move covers exactly one unit of Manhattan distance,
/// the reconstructed walk to a cell is at least as long as the Manhattan
/// distance from the start to that cell.
proof fn lemma_chain_at_least_manhattan(cfg: Cfg, s: SState, cur: u32, fuel: nat)
    requires
        cfg_wf(cfg),
        inv(cfg, s),
        forall|i: int, j: int|
            0 <= i < cfg.grid.len() && 0 <= j < cfg.table[i].len() ==> manhattan(
                cfg.width,
                cfg.tile_count,
                i,
                (#[trigger] cfg.table[i][j]) as int,
            ) == 1,
        (cur as int) < cfg.grid.len(),
        (cur as int) != cfg.start,
        s.cost[cur as int] != 0,
        fuel >= s.cost[cur as int],
    ensures
        manhattan(cfg.width, cfg.tile_count, cfg.start, cur as int) <= chain(
            s,
            cfg.start as u32,
            cur,
            fuel,
        ).len(),
    decreases fuel,
{
    reveal(crate::model::inv);
    let start = cfg.start as u32;
    let prev = s.came[cur as int];
    assert(cfg.table[prev as int].contains(cur));
    let j = choose|j: int|
        0 <= j < cfg.table[prev as int].len() && cfg.table[prev as int][j] == cur;
    assert(cfg.table[prev as int][j] == cur);
    assert(manhattan(cfg.width, cfg.tile_count, prev as int, cur as int) == 1);
    if prev == start {
        assert(chain(s, start, cur, fuel) =~= seq![cur]);
    } else {
        assert(s.cost[prev as int] < s.cost[cur as int]);
        lemma_chain_at_least_manhattan(cfg, s, prev, (fuel - 1) as nat);
        crate::coords::lemma_manhattan_triangle(
            cfg.width,
            cfg.tile_count,
            cfg.start,
            prev as int,
            cur as int,
        );
    }
}

/// A cardinal-mode path is never shorter than the Manhattan distance
/// between the endpoints: each cardinal move covers exactly one unit of
/// Manhattan distance, so on a fully open grid no shorter path exists.
pub proof fn lemma_cardinal_path_at_least_manhattan(
    grid: Seq<u32>,
    width: int,
    start: int,
    end: int,
    p: Seq<u32>,
)
    requires
        dims_wf(grid.len() as int, width, grid.len() as int),
        0 <= start < grid.len(),
        0 <= end < grid.len(),
        fits(grid),
        completes(query_cfg(grid, width, start, end, true)),
        p == path_spec(query_cfg(grid, width, start, end, true)),
        p.len() > 0,
    ensures
        manhattan(width, grid.len() as int, start, end) <= p.len(),
{
    let len = grid.len() as int;
    let cfg = query_cfg(grid, width, start, end, true);
    lemma_query_cfg_wf(grid, width, start, end, true);
    let f = choose|f: nat| (#[trigger] run(cfg, init(cfg), f)).done;
    lemma_run_inv(cfg, f);
    lemma_settles(cfg, f);
    let s = final_state(cfg);
    assert(s.found);
    lemma_inv_came_links(cfg, s);
    if end == start {
    } else {
        assert forall|i: int, j: int|
            0 <= i < cfg.grid.len() && 0 <= j < cfg.table[i].len() implies manhattan(
            cfg.width,
            cfg.tile_count,
            i,
            (#[trigger] cfg.table[i][j]) as int,
        ) == 1 by {
            lemma_policy_props(grid, width, len, i);
        }
        lemma_chain_at_least_manhattan(cfg, s, end as u32, s.cost[end] as nat);
    }
}

/// An on-demand query is well formed.
proof fn lemma_query_cfg_wf(grid: Seq<u32>, width: int, start: int, end: int, cardinal: bool)
    requires
        dims_wf(grid.len() as int, width, grid.len() as int),
        0 <= start < grid.len(),
        0 <= end < grid.len(),
        fits(grid),
    ensures
        cfg_wf(query_cfg(grid, width, start, end, cardinal)),
{
    crate::policy::lemma_tables_ok(grid, width, grid.len() as int, cardinal);
}

/// When every listed move covers at most one unit of Chebyshev distance,
/// the reconstructed walk to a cell is at least as long as the Chebyshev
/// distance from the start to that cell.
proof fn lemma_chain_at_least_chebyshev(cfg: Cfg, s: SState, cur: u32, fuel: nat)
    requires
        cfg_wf(cfg),
        inv(cfg, s),
        forall|i: int, j: int|
            0 <= i < cfg.grid.len() && 0 <= j < cfg.table[i].len() ==> chebyshev(
                cfg.width,
                cfg.tile_count,
                i,
                (#[trigger] cfg.table[i][j]) as int,
            ) <= 1,
        (cur as int) < cfg.grid.len(),
        (cur as int) != cfg.start,
        s.cost[cur as int] != 0,
        fuel >= s.cost[cur as int],
    ensures
        chebyshev(cfg.width, cfg.tile_count, cfg.start, cur as int) <= chain(
            s,
            cfg.start as u32,
            cur,
            fuel,
        ).len(),
    decreases fuel,
{
    reveal(crate::model::inv);
    let start = cfg.start as u32;
    let prev = s.came[cur as int];
    assert(cfg.table[prev as int].contains(cur));
    let j = choose|j: int|
        0 <= j < cfg.table[prev as int].len() && cfg.table[prev as int][j] == cur;
    assert(cfg.table[prev as int][j] == cur);
    assert(chebyshev(cfg.width, cfg.tile_count, prev as int, cur as int) <= 1);
    if prev == start {
        assert(chain(s, start, cur, fuel) =~= seq![cur]);
        crate::coords::lemma_chebyshev_triangle(
            cfg.width,
            cfg.tile_count,
            cfg.start,
            prev as int,
            cur as int,
        );
    } else {
        assert(s.cost[prev as int] < s.cost[cur as int]);
        lemma_chain_at_least_chebyshev(cfg, s, prev, (fuel - 1) as nat);
        crate::coords::lemma_chebyshev_triangle(
            cfg.width,
            cfg.tile_count,
            cfg.start,
            prev as int,
            cur as int,
        );
    }
}

/// An omnidirectional path is never shorter than the Chebyshev distance
/// between the endpoints: each omnidirectional move changes each axis by
/// at most one. (That the path is also at most as long as the Manhattan
/// distance on a fully open grid is a minimality claim not stated here.)
pub proof fn lemma_omni_path_at_least_chebyshev(
    grid: Seq<u32>,
    width: int,
    start: int,
    end: int,
    p: Seq<u32>,
)
    requires
        dims_wf(grid.len() as int, width, grid.len() as int),
        0 <= start < grid.len(),
        0 <= end < grid.len(),
        fits(grid),
        completes(query_cfg(grid, width, start, end, false)),
        p == path_spec(query_cfg(grid, width, start, end, false)),
        p.len() > 0,
    ensures
        chebyshev(width, grid.len() as int, start, end) <= p.len(),
{
    let len = grid.len() as int;
    let cfg = query_cfg(grid, width, start, end, false);
    lemma_query_cfg_wf(grid, width, start, end, false);
    let f = choose|f: nat| (#[trigger] run(cfg, init(cfg), f)).done;
    lemma_run_inv(cfg, f);
    lemma_settles(cfg, f);
    let s = final_state(cfg);
    assert(s.found);
    lemma_inv_came_links(cfg, s);
    if end == start {
    } else {
        assert forall|i: int, j: int|
            0 <= i < cfg.grid.len() && 0 <= j < cfg.table[i].len() implies chebyshev(
            cfg.width,
            cfg.tile_count,
            i,
            (#[trigger] cfg.table[i][j]) as int,
        ) <= 1 by {
            lemma_omni_cheb(grid, width, len, i);
        }
        lemma_chain_at_least_chebyshev(cfg, s, end as u32, s.cost[end] as nat);
    }
}

} // verus!
