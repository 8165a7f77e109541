//! Proofs about the interpreter of `model`: the reachable-state invariant,
//! the bounds that keep the cost arithmetic inside `u32`, the measure that
//! shows every query settles after finitely many steps, and the confluence
//! facts that make the settled state independent of the fuel.

use vstd::prelude::*;

verus! {

use crate::coords::{manhattan, lemma_manhattan_bound, lemma_manhattan_zero};
use crate::model::{
    Cfg,
    SState,
    FrontierItem,
    max_cost,
    cfg_wf,
    init,
    prefer,
    best_upto,
    best_idx,
    relax_one,
    relax_list,
    step,
    run,
    completes,
    final_state,
    chain,
    answer,
    path_spec,
    nvis,
    inv,
    came_links_ok,
};
use vstd::arithmetic::mul::{lemma_mul_inequality, lemma_mul_nonnegative};

/// Sentinel weight of an unvisited cell in the settling measure: larger
/// than any storable cost.
pub open spec fn unvisited_weight() -> int {
    0x1_0000_0000
}

/// The settling measure over the cost table: visited cells weigh their
/// cost, unvisited cells weigh more than any cost can. Every successful
/// relaxation strictly lowers it.
pub open spec fn potsum(cost: Seq<u32>) -> int
    decreases cost.len(),
{
    if cost.len() == 0 {
        0int
    } else {
        potsum(cost.drop_last()) + if cost.last() == 0 {
            unvisited_weight()
        } else {
            cost.last() as int
        }
    }
}

/// Every grid entry is bounded by the maximum, which is non-negative.
pub proof fn lemma_max_cost(grid: Seq<u32>)
    ensures
        0 <= max_cost(grid),
        forall|i: int| 0 <= i < grid.len() ==> #[trigger] grid[i] <= max_cost(grid),
    decreases grid.len(),
{
    if grid.len() > 0 {
        lemma_max_cost(grid.drop_last());
        assert forall|i: int| 0 <= i < grid.len() implies #[trigger] grid[i] <= max_cost(grid) by {
            if i < grid.len() - 1 {
                assert(grid.drop_last()[i] == grid[i]);
            }
        }
    }
}

/// The visit count lies between zero and the table length.
pub proof fn lemma_nvis_bounds(cost: Seq<u32>)
    ensures
        0 <= nvis(cost) <= cost.len(),
    decreases cost.len(),
{
    if cost.len() > 0 {
        lemma_nvis_bounds(cost.drop_last());
    }
}

/// Updating one entry to a nonzero value raises the visit count by one
/// exactly if the entry was unvisited.
pub proof fn lemma_nvis_update(cost: Seq<u32>, j: int, v: u32)
    requires
        0 <= j < cost.len(),
        v != 0,
    ensures
        nvis(cost.update(j, v)) == nvis(cost) + if cost[j] == 0 {
            1int
        } else {
            0int
        },
    decreases cost.len(),
{
    let upd = cost.update(j, v);
    if j == cost.len() - 1 {
        assert(upd.drop_last() =~= cost.drop_last());
    } else {
        assert(upd.drop_last() =~= cost.drop_last().update(j, v));
        lemma_nvis_update(cost.drop_last(), j, v);
    }
}

/// The same update law for the settling measure.
pub proof fn lemma_potsum_update(cost: Seq<u32>, j: int, v: u32)
    requires
        0 <= j < cost.len(),
        v != 0,
    ensures
        potsum(cost.update(j, v)) == potsum(cost) - (if cost[j] == 0 {
            unvisited_weight()
        } else {
            cost[j] as int
        }) + v,
    decreases cost.len(),
{
    let upd = cost.update(j, v);
    if j == cost.len() - 1 {
        assert(upd.drop_last() =~= cost.drop_last());
    } else {
        assert(upd.drop_last() =~= cost.drop_last().update(j, v));
        lemma_potsum_update(cost.drop_last(), j, v);
    }
}

/// The settling measure is never negative.
pub proof fn lemma_potsum_nonneg(cost: Seq<u32>)
    ensures
        potsum(cost) >= 0,
    decreases cost.len(),
{
    if cost.len() > 0 {
        lemma_potsum_nonneg(cost.drop_last());
    }
}

/// The preferred index lies in range and no earlier entry beats it.
pub proof fn lemma_best_upto(f: Seq<FrontierItem>, n: int)
    requires
        1 <= n <= f.len(),
    ensures
        0 <= best_upto(f, n) < n,
        forall|j: int| 0 <= j < n ==> !prefer(#[trigger] f[j], f[best_upto(f, n)]),
    decreases n,
{
    if n > 1 {
        lemma_best_upto(f, n - 1);
    }
}

/// The initial state satisfies the invariant.
pub proof fn lemma_init_inv(cfg: Cfg)
    requires
        cfg_wf(cfg),
    ensures
        inv(cfg, init(cfg)),
{
    reveal(crate::model::inv);
    let s = init(cfg);
    lemma_nvis_bounds(s.cost);
    lemma_max_cost(cfg.grid);
    lemma_mul_nonnegative(nvis(s.cost), max_cost(cfg.grid) + 3);
}

/// One relaxation attempt: the invariant is preserved, the cost and
/// priority arithmetic stays within `u32`, visited cells stay visited, and
/// the state either is unchanged or gains one frontier entry while the
/// settling measure strictly drops.
#[verifier::rlimit(100)]
#[verifier::spinoff_prover]
pub proof fn lemma_relax_one_props(cfg: Cfg, cur: u32, n: u32, s: SState)
    requires
        cfg_wf(cfg),
        inv(cfg, s),
        (cur as int) < cfg.grid.len(),
        s.cost[cur as int] != 0,
        (n as int) < cfg.grid.len(),
        manhattan(cfg.width, cfg.tile_count, cur as int, n as int) <= 3,
        cfg.table[cur as int].contains(n),
    ensures
        inv(cfg, relax_one(cfg, cur, n, s)),
        s.cost[cur as int] + cfg.grid[n as int] + manhattan(
            cfg.width,
            cfg.tile_count,
            cur as int,
            n as int,
        ) + manhattan(cfg.width, cfg.tile_count, cfg.end, n as int) <= u32::MAX,
        relax_one(cfg, cur, n, s).done == s.done,
        relax_one(cfg, cur, n, s).found == s.found,
        relax_one(cfg, cur, n, s) == s || (relax_one(cfg, cur, n, s).frontier.len()
            == s.frontier.len() + 1 && potsum(relax_one(cfg, cur, n, s).cost) < potsum(s.cost)),
        forall|i: int|
            0 <= i < cfg.grid.len() && s.cost[i] != 0 ==> #[trigger] relax_one(
                cfg,
                cur,
                n,
                s,
            ).cost[i] != 0,
{
    reveal(crate::model::inv);
    let len = cfg.grid.len() as int;
    let mc = max_cost(cfg.grid);
    let man_step = manhattan(cfg.width, cfg.tile_count, cur as int, n as int);
    let man_h = manhattan(cfg.width, cfg.tile_count, cfg.end, n as int);
    lemma_max_cost(cfg.grid);
    lemma_nvis_bounds(s.cost);
    lemma_manhattan_bound(len, cfg.width, cfg.tile_count, cfg.end, n as int);
    assert(man_step >= 0);
    assert(nvis(s.cost) * (mc + 3) <= len * (mc + 3)) by {
        lemma_mul_inequality(nvis(s.cost), len, mc + 3);
    }
    assert((len + 1) * (mc + 3) == len * (mc + 3) + 1 * (mc + 3)) by {
        vstd::arithmetic::mul::lemma_mul_is_distributive_add_other_way(mc + 3, len, 1);
    }
    let cand_int = s.cost[cur as int] + cfg.grid[n as int] + man_step;
    assert(s.cost[cur as int] <= 1 + nvis(s.cost) * (mc + 3));
    assert(cand_int + man_h <= u32::MAX);
    let cand = cand_int as u32;
    assert(cand == cand_int);
    assert(cand >= 1);
    let r = relax_one(cfg, cur, n, s);
    if s.cost[n as int] == 0 || cand < s.cost[n as int] {
        // a relaxation happens; first, the relaxed cell is neither the
        // expanded cell nor the start cell
        assert(n != cur);
        assert(n as int != cfg.start);
        assert(man_step >= 1) by {
            if man_step == 0 {
                lemma_manhattan_zero(len, cfg.width, cfg.tile_count, cur as int, n as int);
            }
        }
        assert(cand > s.cost[cur as int]);
        let nv = nvis(s.cost);
        lemma_nvis_update(s.cost, n as int, cand);
        let nv2 = nvis(r.cost);
        assert(nv2 * (mc + 3) >= nv * (mc + 3)) by {
            lemma_mul_inequality(nv, nv2, mc + 3);
        }
        assert((nv + 1) * (mc + 3) == nv * (mc + 3) + 1 * (mc + 3)) by {
            vstd::arithmetic::mul::lemma_mul_is_distributive_add_other_way(mc + 3, nv, 1);
        }
        assert forall|i: int| 0 <= i < len implies #[trigger] r.cost[i] <= 1 + nv2 * (mc + 3) by {
            if i == n as int {
                if s.cost[n as int] == 0 {
                    assert(nv2 == nv + 1);
                } else {
                    assert(cand < s.cost[n as int]);
                }
            }
        }
        assert forall|i: int|
            0 <= i < len && #[trigger] r.cost[i] != 0 && i != cfg.start implies r.came[i] < len
            && r.cost[r.came[i] as int] != 0 && r.cost[r.came[i] as int] < r.cost[i]
            && cfg.table[r.came[i] as int].contains(i as u32) by {
            if i == n as int {
                assert(r.came[i] == cur);
                assert(r.cost[cur as int] == s.cost[cur as int]);
                assert(i as u32 == n) by {
                    assert(i < len <= u32::MAX);
                }
            } else {
                assert(r.cost[i] == s.cost[i]);
                assert(s.cost[i] != 0);
                let p = s.came[i] as int;
                if p == n as int {
                    assert(s.cost[p] != 0);
                    assert(cand < s.cost[p]);
                } else {
                    assert(r.cost[p] == s.cost[p]);
                }
            }
        }
        assert forall|k: int| 0 <= k < r.frontier.len() implies (#[trigger] r.frontier[k]).position
            < len && r.cost[r.frontier[k].position as int] != 0 by {
            if k < s.frontier.len() {
                assert(r.frontier[k] == s.frontier[k]);
            } else {
                assert(r.frontier[k] == FrontierItem {
                    position: n,
                    cost: (cand_int + man_h) as u32,
                });
            }
        }
        lemma_potsum_update(s.cost, n as int, cand);
        assert(potsum(r.cost) < potsum(s.cost));
        assert(inv(cfg, r));
    } else {
        assert(r == s);
    }
}

/// Relaxing a whole neighbor list preserves the invariant and the visited
/// set only grows; the state is unchanged unless the settling measure
/// strictly drops, and the frontier never shrinks.
pub proof fn lemma_relax_list_props(cfg: Cfg, cur: u32, ns: Seq<u32>, s: SState)
    requires
        cfg_wf(cfg),
        inv(cfg, s),
        (cur as int) < cfg.grid.len(),
        s.cost[cur as int] != 0,
        forall|j: int|
            0 <= j < ns.len() ==> ((#[trigger] ns[j]) as int) < cfg.grid.len() && manhattan(
                cfg.width,
                cfg.tile_count,
                cur as int,
                ns[j] as int,
            ) <= 3 && cfg.table[cur as int].contains(ns[j]),
    ensures
        inv(cfg, relax_list(cfg, cur, ns, s)),
        relax_list(cfg, cur, ns, s).done == s.done,
        relax_list(cfg, cur, ns, s).found == s.found,
        relax_list(cfg, cur, ns, s) == s || (relax_list(cfg, cur, ns, s).frontier.len()
            > s.frontier.len() && potsum(relax_list(cfg, cur, ns, s).cost) < potsum(s.cost)),
        relax_list(cfg, cur, ns, s).frontier.len() >= s.frontier.len(),
        potsum(relax_list(cfg, cur, ns, s).cost) <= potsum(s.cost),
        forall|i: int|
            0 <= i < cfg.grid.len() && s.cost[i] != 0 ==> #[trigger] relax_list(
                cfg,
                cur,
                ns,
                s,
            ).cost[i] != 0,
    decreases ns.len(),
{
    if ns.len() > 0 {
        let prev = relax_list(cfg, cur, ns.drop_last(), s);
        assert(forall|j: int| 0 <= j < ns.len() - 1 ==> ns.drop_last()[j] == ns[j]);
        lemma_relax_list_props(cfg, cur, ns.drop_last(), s);
        assert(prev.cost[cur as int] != 0);
        assert(ns.last() == ns[ns.len() - 1]);
        lemma_relax_one_props(cfg, cur, ns.last(), prev);
    }
}

/// Extracting the preferred entry keeps the invariant, and the extracted
/// cell is a visited grid cell.
#[verifier::rlimit(100)]
#[verifier::spinoff_prover]
pub proof fn lemma_popped_inv(cfg: Cfg, s: SState)
    requires
        cfg_wf(cfg),
        inv(cfg, s),
        !s.done,
        s.frontier.len() > 0,
    ensures
        ({
            let b = best_idx(s.frontier);
            let cur = s.frontier[b].position;
            &&& 0 <= b < s.frontier.len()
            &&& (cur as int) < cfg.grid.len()
            &&& s.cost[cur as int] != 0
            &&& inv(cfg, (SState { frontier: s.frontier.remove(b), ..s }))
        }),
{
    reveal(crate::model::inv);
    lemma_best_upto(s.frontier, s.frontier.len() as int);
    let b = best_idx(s.frontier);
    let popped = SState { frontier: s.frontier.remove(b), ..s };
    assert forall|k: int| 0 <= k < popped.frontier.len() implies (#[trigger] popped.frontier[k]).position
        < cfg.grid.len() && popped.cost[popped.frontier[k].position as int] != 0 by {
        if k < b {
            assert(popped.frontier[k] == s.frontier[k]);
        } else {
            assert(popped.frontier[k] == s.frontier[k + 1]);
        }
    }
}

/// The shape of one interpreter pass from an unsettled state, spelled out
/// for each of its three cases.
#[verifier::rlimit(100)]
#[verifier::spinoff_prover]
pub proof fn lemma_step_cases(cfg: Cfg, s: SState)
    requires
        cfg_wf(cfg),
        inv(cfg, s),
        !s.done,
    ensures
        s.frontier.len() == 0 ==> step(cfg, s) == (SState { done: true, found: false, ..s }),
        s.frontier.len() > 0 ==> ({
            let b = best_idx(s.frontier);
            let cur = s.frontier[b].position;
            let popped = SState { frontier: s.frontier.remove(b), ..s };
            &&& 0 <= b < s.frontier.len()
            &&& (cur as int) < cfg.grid.len()
            &&& s.cost[cur as int] != 0
            &&& inv(cfg, popped)
            &&& (cur == cfg.end ==> step(cfg, s) == (SState { done: true, found: true, ..popped }))
            &&& (cur != cfg.end ==> step(cfg, s) == relax_list(
                cfg,
                cur,
                cfg.table[cur as int],
                popped,
            ))
        }),
{
    reveal(crate::model::inv);
    if s.frontier.len() > 0 {
        lemma_popped_inv(cfg, s);
    }
}

/// The scratch tables of a state satisfying the invariant have grid
/// length.
pub proof fn lemma_inv_lens(cfg: Cfg, s: SState)
    requires
        inv(cfg, s),
    ensures
        s.cost.len() == cfg.grid.len(),
        s.came.len() == cfg.grid.len(),
{
    reveal(crate::model::inv);
}

/// One interpreter pass preserves the invariant, and every pass that does
/// not settle strictly lowers the lexicographic measure of settling weight
/// and frontier length.
#[verifier::rlimit(100)]
#[verifier::spinoff_prover]
pub proof fn lemma_step_props(cfg: Cfg, s: SState)
    requires
        cfg_wf(cfg),
        inv(cfg, s),
    ensures
        inv(cfg, step(cfg, s)),
        !s.done && !step(cfg, s).done ==> potsum(step(cfg, s).cost) < potsum(s.cost) || (potsum(
            step(cfg, s).cost,
        ) == potsum(s.cost) && step(cfg, s).frontier.len() < s.frontier.len()),
{
    let len = cfg.grid.len() as int;
    if !s.done && s.frontier.len() > 0 {
        lemma_popped_inv(cfg, s);
        let b = best_idx(s.frontier);
        let cur = s.frontier[b].position;
        let popped = SState { frontier: s.frontier.remove(b), ..s };
        if cur == cfg.end as u32 {
            assert(cur as int == cfg.end);
            assert(inv(cfg, step(cfg, s))) by {
                reveal(crate::model::inv);
            }
        } else {
            reveal(crate::model::inv);
            let ns = cfg.table[cur as int];
            assert forall|j: int| 0 <= j < ns.len() implies ((#[trigger] ns[j]) as int) < len
                && manhattan(cfg.width, cfg.tile_count, cur as int, ns[j] as int) <= 3
                && cfg.table[cur as int].contains(ns[j]) by {
                assert(cfg.table[cur as int][j] == ns[j]);
            }
            lemma_relax_list_props(cfg, cur, ns, popped);
        }
    } else if !s.done {
        assert(inv(cfg, step(cfg, s))) by {
            reveal(crate::model::inv);
        }
    }
}

/// Every state the interpreter reaches from the initial state satisfies
/// the invariant.
pub proof fn lemma_run_inv(cfg: Cfg, fuel: nat)
    requires
        cfg_wf(cfg),
    ensures
        inv(cfg, run(cfg, init(cfg), fuel)),
    decreases fuel,
{
    if fuel == 0 {
        lemma_init_inv(cfg);
    } else {
        lemma_run_inv(cfg, (fuel - 1) as nat);
        lemma_step_props(cfg, run(cfg, init(cfg), (fuel - 1) as nat));
    }
}

/// A settled state is a fixed point of the interpreter.
pub proof fn lemma_done_stable(cfg: Cfg, s: SState, fuel: nat)
    requires
        s.done,
    ensures
        run(cfg, s, fuel) == s,
    decreases fuel,
{
    if fuel > 0 {
        lemma_done_stable(cfg, s, (fuel - 1) as nat);
    }
}

/// Fuel composes: running for a sum of fuels is running twice.
pub proof fn lemma_run_add(cfg: Cfg, s: SState, f1: nat, f2: nat)
    ensures
        run(cfg, s, f1 + f2) == run(cfg, run(cfg, s, f1), f2),
    decreases f2,
{
    if f2 > 0 {
        lemma_run_add(cfg, s, f1, (f2 - 1) as nat);
    }
}

/// Any two fuels that settle the search settle it in the same state.
pub proof fn lemma_confluence(cfg: Cfg, f1: nat, f2: nat)
    requires
        run(cfg, init(cfg), f1).done,
        run(cfg, init(cfg), f2).done,
    ensures
        run(cfg, init(cfg), f1) == run(cfg, init(cfg), f2),
{
    if f1 <= f2 {
        lemma_run_add(cfg, init(cfg), f1, (f2 - f1) as nat);
        lemma_done_stable(cfg, run(cfg, init(cfg), f1), (f2 - f1) as nat);
    } else {
        lemma_run_add(cfg, init(cfg), f2, (f1 - f2) as nat);
        lemma_done_stable(cfg, run(cfg, init(cfg), f2), (f1 - f2) as nat);
    }
}

/// A witness fuel that settles the search determines the settled state and
/// hence the path.
pub proof fn lemma_settles(cfg: Cfg, fuel: nat)
    requires
        run(cfg, init(cfg), fuel).done,
    ensures
        completes(cfg),
        final_state(cfg) == run(cfg, init(cfg), fuel),
        path_spec(cfg) == answer(cfg, run(cfg, init(cfg), fuel)),
{
    assert(completes(cfg));
    let fc = choose|f: nat| (#[trigger] run(cfg, init(cfg), f)).done;
    lemma_confluence(cfg, fuel, fc);
}

/// The invariant contains the predecessor-walk facts.
pub proof fn lemma_inv_came_links(cfg: Cfg, s: SState)
    requires
        inv(cfg, s),
    ensures
        came_links_ok(cfg, s),
        s.found ==> s.cost[cfg.end] != 0,
{
    reveal(crate::model::inv);
    assert forall|i: int|
        0 <= i < cfg.grid.len() && #[trigger] s.cost[i] != 0 && i != cfg.start implies s.came[i]
        < cfg.grid.len() && s.cost[s.came[i] as int] != 0 && s.cost[s.came[i] as int]
        < s.cost[i] by {
        assert(s.cost[i] != 0);
    }
}

/// The predecessor walk does not depend on the fuel, once the fuel covers
/// the cost of the cell it starts from.
pub proof fn lemma_chain_fuel(cfg: Cfg, s: SState, cur: u32, f1: nat, f2: nat)
    requires
        came_links_ok(cfg, s),
        0 <= cfg.start < cfg.grid.len(),
        (cur as int) < cfg.grid.len(),
        s.cost[cur as int] != 0,
        f1 >= s.cost[cur as int],
        f2 >= s.cost[cur as int],
    ensures
        chain(s, cfg.start as u32, cur, f1) == chain(s, cfg.start as u32, cur, f2),
    decreases f1,
{
    let start = cfg.start as u32;
    assert(s.cost[cur as int] >= 1);
    if s.came[cur as int] != start {
        assert(cur as int != cfg.start) by {
            if cur as int == cfg.start {
                assert(s.came[cfg.start] == start);
            }
        }
        let p = s.came[cur as int];
        assert(s.cost[p as int] < s.cost[cur as int]);
        lemma_chain_fuel(cfg, s, p, (f1 - 1) as nat, (f2 - 1) as nat);
    }
}

} // verus!
