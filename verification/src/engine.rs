//! The search engine shared by every variant.
//!
//! One executable loop implements the search; it is proved to follow the
//! interpreter of `model` step by step, so its result is exactly
//! `path_spec` of the query configuration.

use vstd::prelude::*;

verus! {

use crate::model::{
    Cfg,
    SState,
    FrontierItem,
    mk_cfg,
    cfg_wf,
    init,
    best_upto,
    best_idx,
    relax_one,
    relax_list,
    step,
    run,
    completes,
    chain,
    answer,
    path_spec,
    inv,
    came_links_ok,
};
use crate::invariants::{
    potsum,
    lemma_init_inv,
    lemma_step_props,
    lemma_relax_one_props,
    lemma_relax_list_props,
    lemma_best_upto,
    lemma_settles,
    lemma_chain_fuel,
    lemma_potsum_nonneg,
};
use crate::policy::policy_table;
use crate::coords::manhattan_u32;
use crate::buf::small_buf_into_vec;
use crate::astar2d::{get_neighbor_coords, get_cardinal_neighbor_coords};
use vstd::pervasive::VecAdditionalExecFns;

/// Where the engine takes the neighbors of an expanded cell from: the
/// omnidirectional or the cardinal policy, enumerated on demand, or a
/// prebuilt table.
pub enum NbrSource<'a> {
    Omni,
    Cardinal,
    Table(&'a Vec<Vec<u32>>),
}

/// The neighbor lists of a sequence of vectors.
pub open spec fn rows(t: Seq<Vec<u32>>) -> Seq<Seq<u32>> {
    Seq::new(t.len(), |i: int| t[i]@)
}

impl<'a> NbrSource<'a> {
    /// The neighbor table this source stands for.
    pub open spec fn table_view(self, grid: Seq<u32>, width: int, tile_count: int) -> Seq<Seq<u32>> {
        match self {
            NbrSource::Omni => policy_table(grid, width, tile_count, false),
            NbrSource::Cardinal => policy_table(grid, width, tile_count, true),
            NbrSource::Table(t) => rows(t@),
        }
    }

}

/// A vector holding `n` copies of `v`.
fn filled(n: usize, v: u32) -> (r: Vec<u32>)
    ensures
        r@ == Seq::new(n as nat, |i: int| v),
{
    let mut r: Vec<u32> = Vec::new();
    let mut i: usize = 0;
    while i < n
        invariant
            i <= n,
            r@ == Seq::new(i as nat, |k: int| v),
        decreases n - i,
    {
        r.push(v);
        i = i + 1;
        proof {
            assert(r@ =~= Seq::new(i as nat, |k: int| v));
        }
    }
    r
}

/// A copy of a neighbor row.
fn copy_row(v: &Vec<u32>) -> (r: Vec<u32>)
    ensures
        r@ == v@,
{
    let mut r: Vec<u32> = Vec::new();
    let mut i: usize = 0;
    while i < v.len()
        invariant
            i <= v@.len(),
            r@ == v@.take(i as int),
        decreases v@.len() - i,
    {
        r.push(v[i]);
        i = i + 1;
        proof {
            assert(r@ =~= v@.take(i as int));
        }
    }
    proof {
        assert(v@.take(v@.len() as int) =~= v@);
    }
    r
}

/// The neighbors the source yields for the expanded cell.
fn neighbors_of(
    src: &NbrSource,
    current: u32,
    grid: &Vec<u32>,
    width: u32,
    tile_count: u32,
) -> (r: Vec<u32>)
    requires
        crate::coords::dims_wf(grid@.len() as int, width as int, tile_count as int),
        (current as int) < grid@.len(),
        src.table_view(grid@, width as int, tile_count as int).len() == grid@.len(),
    ensures
        r@ == src.table_view(grid@, width as int, tile_count as int)[current as int],
{
    match src {
        NbrSource::Omni => small_buf_into_vec(get_neighbor_coords(current, grid, width, tile_count)),
        NbrSource::Cardinal => small_buf_into_vec(
            get_cardinal_neighbor_coords(current, grid, width, tile_count),
        ),
        NbrSource::Table(t) => copy_row(&t[current as usize]),
    }
}

/// The index of the frontier entry to extract next: lowest estimated
/// cost, ties broken towards the higher cell index.
fn pick_best(frontier: &Vec<FrontierItem>) -> (best: usize)
    requires
        frontier@.len() >= 1,
    ensures
        best < frontier@.len(),
        best as int == best_idx(frontier@),
{
    let flen = frontier.len();
    let mut best: usize = 0;
    let mut k: usize = 1;
    while k < flen
        invariant
            1 <= k <= flen,
            flen == frontier@.len(),
            best < k,
            best as int == best_upto(frontier@, k as int),
        decreases flen - k,
    {
        let cand_item = frontier[k];
        let best_item = frontier[best];
        if cand_item.cost < best_item.cost || (cand_item.cost == best_item.cost
            && cand_item.position > best_item.position) {
            best = k;
        }
        k = k + 1;
    }
    best
}

/// Relaxes every neighbor of the expanded cell `current`, in list order,
/// updating the frontier, the cost table and the predecessor table exactly
/// as the interpreter's relaxation does.
#[verifier::rlimit(100)]
#[verifier::spinoff_prover]
#[verifier::loop_isolation(false)]
fn relax_all(
    Ghost(cfg): Ghost<Cfg>,
    Ghost(popped): Ghost<SState>,
    current: u32,
    end: u32,
    grid: &Vec<u32>,
    width: u32,
    tile_count: u32,
    nbr_list: &Vec<u32>,
    frontier: &mut Vec<FrontierItem>,
    cost_so_far: &mut Vec<u32>,
    came_from: &mut Vec<u32>,
)
    requires
        cfg_wf(cfg),
        inv(cfg, popped),
        cfg.grid == grid@,
        cfg.width == width as int,
        cfg.tile_count == tile_count as int,
        cfg.end == end as int,
        (current as int) < cfg.grid.len(),
        popped.cost[current as int] != 0,
        nbr_list@ == cfg.table[current as int],
        popped.frontier == old(frontier)@,
        popped.cost == old(cost_so_far)@,
        popped.came == old(came_from)@,
    ensures
        relax_list(cfg, current, nbr_list@, popped).frontier == final(frontier)@,
        relax_list(cfg, current, nbr_list@, popped).cost == final(cost_so_far)@,
        relax_list(cfg, current, nbr_list@, popped).came == final(came_from)@,
{
    let ghost mut rst = popped;
    proof {
        assert(nbr_list@.take(0) =~= Seq::<u32>::empty());
    }
    let nlen = nbr_list.len();
    let mut j: usize = 0;
    while j < nlen
        invariant
            j <= nlen,
            rst == relax_list(cfg, current, nbr_list@.take(j as int), popped),
            rst.frontier == frontier@,
            rst.cost == cost_so_far@,
            rst.came == came_from@,
            rst.cost[current as int] != 0,
            inv(cfg, rst),
        decreases nlen - j,
    {
        let n = nbr_list[j];
        proof {
            crate::invariants::lemma_inv_lens(cfg, rst);
            assert(cfg.table[current as int][j as int] == n);
            assert(cfg.table[current as int].contains(n));
            lemma_relax_one_props(cfg, current, n, rst);
        }
        let ncost = grid[n as usize];
        let man_step = manhattan_u32(width, tile_count, current, n);
        let cand = cost_so_far[current as usize] + ncost + man_step;
        let ncsf = cost_so_far[n as usize];
        if ncsf == 0 || cand < ncsf {
            cost_so_far.set(n as usize, cand);
            let man_goal = manhattan_u32(width, tile_count, end, n);
            let priority = cand + man_goal;
            frontier.push(FrontierItem { cost: priority, position: n });
            came_from.set(n as usize, current);
        }
        proof {
            assert(nbr_list@.take(j + 1).drop_last() =~= nbr_list@.take(j as int));
            assert(nbr_list@.take(j + 1).last() == n);
            rst = relax_one(cfg, current, n, rst);
        }
        j = j + 1;
    }
    proof {
        assert(nbr_list@.take(nlen as int) =~= nbr_list@);
    }
}

/// Walks the predecessor table back from the goal and returns the path in
/// forward order: the settled state's answer.
#[verifier::rlimit(100)]
#[verifier::spinoff_prover]
#[verifier::loop_isolation(false)]
fn backtrack(
    Ghost(cfg): Ghost<Cfg>,
    Ghost(st): Ghost<SState>,
    came_from: &Vec<u32>,
    start: u32,
    end: u32,
) -> (out: Vec<u32>)
    requires
        came_links_ok(cfg, st),
        0 <= cfg.start < cfg.grid.len(),
        0 <= cfg.end < cfg.grid.len(),
        cfg.grid.len() <= u32::MAX,
        st.found,
        st.cost[cfg.end] != 0,
        st.came == came_from@,
        cfg.start == start as int,
        cfg.end == end as int,
    ensures
        out@ == answer(cfg, st),
{
    let ghost target = chain(st, start, end, st.cost[cfg.end] as nat);
    let mut path: Vec<u32> = Vec::new();
    let mut last = end;
    let mut fin = false;
    proof {
        assert(path@.reverse() =~= Seq::<u32>::empty());
        assert(chain(st, start, end, st.cost[cfg.end] as nat) + path@.reverse() =~= target);
    }
    while !fin
        invariant
            (last as int) < cfg.grid.len(),
            st.cost[last as int] != 0,
            !fin ==> target == chain(st, start, last, st.cost[last as int] as nat)
                + path@.reverse(),
            fin ==> target == path@.reverse(),
        decreases
            st.cost[last as int],
            (if fin {
                0int
            } else {
                1int
            }),
    {
        path.push(last);
        let prev = came_from[last as usize];
        proof {
            assert(st.came[last as int] == prev);
            if prev != start {
                assert(last as int != cfg.start) by {
                    if last as int == cfg.start {
                        assert(st.came[cfg.start] == start);
                    }
                }
                assert(st.cost[prev as int] < st.cost[last as int]);
                let fuel = st.cost[last as int] as nat;
                lemma_chain_fuel(cfg, st, prev, (fuel - 1) as nat, st.cost[prev as int] as nat);
                assert(chain(st, start, last, fuel) == chain(
                    st,
                    start,
                    prev,
                    st.cost[prev as int] as nat,
                ).push(last));
                assert(chain(st, start, prev, st.cost[prev as int] as nat) + path@.reverse()
                    =~= target);
            } else {
                assert(chain(st, start, last, st.cost[last as int] as nat) =~= seq![last]);
                assert(target =~= path@.reverse());
            }
        }
        if prev == start {
            fin = true;
        } else {
            last = prev;
        }
    }
    let out = reverse_vec(&path);
    proof {
        assert(out@ == target);
        assert(start == cfg.start as u32);
        assert(end == cfg.end as u32);
    }
    out
}

/// The elements of a vector in the opposite order.
fn reverse_vec(v: &Vec<u32>) -> (r: Vec<u32>)
    ensures
        r@ == v@.reverse(),
{
    let mut r: Vec<u32> = Vec::new();
    let mut i = v.len();
    proof {
        assert(v@.subrange(i as int, v@.len() as int).reverse() =~= Seq::<u32>::empty());
    }
    while i > 0
        invariant
            i <= v@.len(),
            r@ == v@.subrange(i as int, v@.len() as int).reverse(),
        decreases i,
    {
        i = i - 1;
        r.push(v[i]);
        proof {
            assert(v@.subrange(i as int, v@.len() as int) =~= seq![v@[i as int]] + v@.subrange(
                i + 1,
                v@.len() as int,
            ));
            assert(v@.subrange(i as int, v@.len() as int).reverse() =~= v@.subrange(
                i + 1,
                v@.len() as int,
            ).reverse().push(v@[i as int]));
        }
    }
    proof {
        assert(v@.subrange(0, v@.len() as int) =~= v@);
    }
    r
}

/// The search engine: runs the interpreter's algorithm with the given
/// neighbor source and returns exactly the path the model ascribes to the
/// query.
#[verifier::rlimit(100)]
#[verifier::spinoff_prover]
#[verifier::loop_isolation(false)]
pub(crate) fn search(
    start: u32,
    end: u32,
    grid: &Vec<u32>,
    width: u32,
    tile_count: u32,
    src: NbrSource,
) -> (out: Vec<u32>)
    requires
        cfg_wf(
            mk_cfg(
                grid@,
                width as int,
                tile_count as int,
                start as int,
                end as int,
                src.table_view(grid@, width as int, tile_count as int),
            ),
        ),
    ensures
        out@ == path_spec(
            mk_cfg(
                grid@,
                width as int,
                tile_count as int,
                start as int,
                end as int,
                src.table_view(grid@, width as int, tile_count as int),
            ),
        ),
        completes(
            mk_cfg(
                grid@,
                width as int,
                tile_count as int,
                start as int,
                end as int,
                src.table_view(grid@, width as int, tile_count as int),
            ),
        ),
{
    let ghost cfg = mk_cfg(
        grid@,
        width as int,
        tile_count as int,
        start as int,
        end as int,
        src.table_view(grid@, width as int, tile_count as int),
    );
    let len = grid.len();
    let mut frontier: Vec<FrontierItem> = Vec::new();
    frontier.push(FrontierItem { position: start, cost: 0 });
    let mut cost_so_far: Vec<u32> = filled(len, 0);
    cost_so_far.set(start as usize, 1);
    let mut came_from: Vec<u32> = filled(len, start);
    let mut found = false;
    let mut done = false;
    let ghost mut steps: nat = 0;
    let ghost mut st = init(cfg);
    proof {
        lemma_init_inv(cfg);
        assert(cost_so_far@ =~= st.cost);
        assert(came_from@ =~= st.came);
        assert(frontier@ =~= st.frontier);
    }
    while !done
        invariant
            st == run(cfg, init(cfg), steps),
            st.done == done,
            st.found == found,
            !done ==> found == false,
            st.frontier == frontier@,
            st.cost == cost_so_far@,
            st.came == came_from@,
            inv(cfg, st),
        decreases
            potsum(cost_so_far@),
            frontier@.len(),
            (if done {
                0int
            } else {
                1int
            }),
    {
        proof {
            lemma_potsum_nonneg(cost_so_far@);
            lemma_step_props(cfg, st);
            crate::invariants::lemma_step_cases(cfg, st);
        }
        if frontier.len() == 0 {
            done = true;
            proof {
                st = step(cfg, st);
                steps = steps + 1;
            }
        } else {
            let best = pick_best(&frontier);
            let current = frontier.remove(best).position;
            let ghost popped = SState { frontier: st.frontier.remove(best as int), ..st };
            if current == end {
                found = true;
                done = true;
                proof {
                    st = step(cfg, st);
                    steps = steps + 1;
                }
            } else {
                let nbr_list = neighbors_of(&src, current, grid, width, tile_count);
                relax_all(
                    Ghost(cfg),
                    Ghost(popped),
                    current,
                    end,
                    grid,
                    width,
                    tile_count,
                    &nbr_list,
                    &mut frontier,
                    &mut cost_so_far,
                    &mut came_from,
                );
                proof {
                    lemma_relax_list_props(cfg, current, nbr_list@, popped);
                    assert(step(cfg, st) == relax_list(cfg, current, nbr_list@, popped));
                    st = relax_list(cfg, current, nbr_list@, popped);
                    steps = steps + 1;
                }
            }
        }
        proof {
            lemma_potsum_nonneg(cost_so_far@);
        }
    }
    proof {
        lemma_settles(cfg, steps);
        crate::invariants::lemma_inv_came_links(cfg, st);
    }
    if found {
        backtrack(Ghost(cfg), Ghost(st), &came_from, start, end)
    } else {
        let out: Vec<u32> = Vec::new();
        proof {
            assert(out@ =~= Seq::<u32>::empty());
        }
        out
    }
}

} // verus!
