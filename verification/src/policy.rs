//! Neighbor enumeration policies.
//!
//! For a cell of the grid, a policy names the adjacent cells a path may
//! move to, in a fixed order. The omnidirectional policy admits the four
//! orthogonal and the four diagonal in-floor moves; a diagonal move only
//! requires the diagonal cell itself to be passable, so corners may be cut.
//! The cardinal policy admits the orthogonal moves only. For layered grids
//! the omnidirectional list is extended by stair moves: every listed
//! neighbor that carries an up-link also contributes the cell one floor
//! above it, and likewise below for down-links. No policy ever lists an
//! impassable cell, stair destinations included.

use vstd::prelude::*;

verus! {

use crate::passable;
use crate::coords::{
    manhattan,
    dims_wf,
    col_of,
    row_of,
    lemma_decompose,
    lemma_row_guards,
    lemma_step,
    lemma_floor_step,
};

/// A one-entry piece of a neighbor list, present only under `cond`.
pub open spec fn sng(cond: bool, i: int) -> Seq<u32> {
    if cond {
        seq![i as u32]
    } else {
        Seq::empty()
    }
}

/// The omnidirectional neighbors of cell `c`: north, north-west,
/// north-east, west, east, south, south-west, south-east, keeping only
/// in-grid passable cells.
pub open spec fn omni_nbrs(grid: Seq<u32>, width: int, tile_count: int, c: int) -> Seq<u32> {
    let lvl = c % tile_count;
    let x = c % width;
    let n_ok = lvl >= width;
    let s_ok = lvl < tile_count - width;
    let w_ok = x > 0;
    let e_ok = x < width - 1;
    sng(n_ok && passable(grid, c - width), c - width) + sng(
        n_ok && w_ok && passable(grid, c - width - 1),
        c - width - 1,
    ) + sng(n_ok && e_ok && passable(grid, c - width + 1), c - width + 1) + sng(
        w_ok && passable(grid, c - 1),
        c - 1,
    ) + sng(e_ok && passable(grid, c + 1), c + 1) + sng(
        s_ok && passable(grid, c + width),
        c + width,
    ) + sng(s_ok && w_ok && passable(grid, c + width - 1), c + width - 1) + sng(
        s_ok && e_ok && passable(grid, c + width + 1),
        c + width + 1,
    )
}

/// The cardinal neighbors of cell `c`: north, west, east, south.
pub open spec fn cardinal_nbrs(grid: Seq<u32>, width: int, tile_count: int, c: int) -> Seq<u32> {
    let lvl = c % tile_count;
    let x = c % width;
    let n_ok = lvl >= width;
    let s_ok = lvl < tile_count - width;
    let w_ok = x > 0;
    let e_ok = x < width - 1;
    sng(n_ok && passable(grid, c - width), c - width) + sng(w_ok && passable(grid, c - 1), c - 1)
        + sng(e_ok && passable(grid, c + 1), c + 1) + sng(
        s_ok && passable(grid, c + width),
        c + width,
    )
}

/// The stair moves contributed by a list of in-floor neighbors: for each
/// listed cell, in order, the cell one floor up if it carries an up-link,
/// then the cell one floor down if it carries a down-link. A stair move
/// whose destination cell is impassable is excluded, like any other
/// candidate.
pub open spec fn stair_exts(
    grid: Seq<u32>,
    base: Seq<u32>,
    ups: Set<u32>,
    downs: Set<u32>,
    tile_count: int,
) -> Seq<u32>
    decreases base.len(),
{
    if base.len() == 0 {
        Seq::empty()
    } else {
        stair_exts(grid, base.drop_last(), ups, downs, tile_count) + sng(
            ups.contains(base.last()) && passable(grid, base.last() + tile_count),
            base.last() + tile_count,
        ) + sng(
            downs.contains(base.last()) && passable(grid, base.last() - tile_count),
            base.last() - tile_count,
        )
    }
}

/// The omnidirectional neighbors of `c` on a layered grid: the in-floor
/// list followed by its stair moves.
pub open spec fn omni3_nbrs(
    grid: Seq<u32>,
    width: int,
    tile_count: int,
    ups: Set<u32>,
    downs: Set<u32>,
    c: int,
) -> Seq<u32> {
    let base = omni_nbrs(grid, width, tile_count, c);
    base + stair_exts(grid, base, ups, downs, tile_count)
}

/// The neighbor table that on-demand enumeration effectively consults: the
/// chosen policy applied to every cell.
pub open spec fn policy_table(grid: Seq<u32>, width: int, tile_count: int, cardinal: bool) -> Seq<
    Seq<u32>,
> {
    Seq::new(
        grid.len(),
        |i: int|
            if cardinal {
                cardinal_nbrs(grid, width, tile_count, i)
            } else {
                omni_nbrs(grid, width, tile_count, i)
            },
    )
}

/// The neighbor table a cache builder produces: the policy applied to
/// every passable cell, an empty list at impassable ones.
pub open spec fn cache_table(grid: Seq<u32>, width: int, tile_count: int, cardinal: bool) -> Seq<
    Seq<u32>,
> {
    Seq::new(
        grid.len(),
        |i: int|
            if grid[i] == 0 {
                Seq::<u32>::empty()
            } else if cardinal {
                cardinal_nbrs(grid, width, tile_count, i)
            } else {
                omni_nbrs(grid, width, tile_count, i)
            },
    )
}

/// The layered cache table: stair-extended neighbors for passable cells.
pub open spec fn cache3_table(
    grid: Seq<u32>,
    width: int,
    tile_count: int,
    ups: Set<u32>,
    downs: Set<u32>,
) -> Seq<Seq<u32>> {
    Seq::new(
        grid.len(),
        |i: int|
            if grid[i] == 0 {
                Seq::<u32>::empty()
            } else {
                omni3_nbrs(grid, width, tile_count, ups, downs, i)
            },
    )
}

/// Sane vertical links: an up-link never points above the top floor and a
/// down-link never below the bottom one. Without this the stair move would
/// leave the grid.
pub open spec fn links_wf(ups: Set<u32>, downs: Set<u32>, tile_count: int, len: int) -> bool {
    &&& forall|u: u32| ups.contains(u) && (u as int) < len ==> (u as int) + tile_count < len
    &&& forall|u: u32| downs.contains(u) && (u as int) < len ==> (u as int) >= tile_count
}

/// The candidate cells the enumeration inspects around `c`, under their
/// boundary guards: each lies in the grid, and its Manhattan distance from
/// `c` is one for orthogonal and two for diagonal candidates.
pub proof fn lemma_candidate_cells(len: int, width: int, tile_count: int, c: int)
    requires
        dims_wf(len, width, tile_count),
        0 <= c < len,
    ensures
        c % tile_count >= width ==> {
            &&& 0 <= c - width < len && manhattan(width, tile_count, c, c - width) == 1
            &&& c % width > 0 ==> 0 <= c - width - 1 < len && manhattan(
                width,
                tile_count,
                c,
                c - width - 1,
            ) == 2
            &&& c % width < width - 1 ==> 0 <= c - width + 1 < len && manhattan(
                width,
                tile_count,
                c,
                c - width + 1,
            ) == 2
        },
        c % width > 0 ==> 0 <= c - 1 < len && manhattan(width, tile_count, c, c - 1) == 1,
        c % width < width - 1 ==> 0 <= c + 1 < len && manhattan(width, tile_count, c, c + 1) == 1,
        c % tile_count < tile_count - width ==> {
            &&& 0 <= c + width < len && manhattan(width, tile_count, c, c + width) == 1
            &&& c % width > 0 ==> 0 <= c + width - 1 < len && manhattan(
                width,
                tile_count,
                c,
                c + width - 1,
            ) == 2
            &&& c % width < width - 1 ==> 0 <= c + width + 1 < len && manhattan(
                width,
                tile_count,
                c,
                c + width + 1,
            ) == 2
        },
{
    lemma_decompose(len, width, tile_count, c);
    lemma_row_guards(len, width, tile_count, c);
    let lvl = c % tile_count;
    let x = col_of(width, c);
    if lvl >= width {
        lemma_step(len, width, tile_count, c, 0, -1);
        if x > 0 {
            lemma_step(len, width, tile_count, c, -1, -1);
        }
        if x < width - 1 {
            lemma_step(len, width, tile_count, c, 1, -1);
        }
    }
    if x > 0 {
        lemma_step(len, width, tile_count, c, -1, 0);
    }
    if x < width - 1 {
        lemma_step(len, width, tile_count, c, 1, 0);
    }
    if lvl < tile_count - width {
        lemma_step(len, width, tile_count, c, 0, 1);
        if x > 0 {
            lemma_step(len, width, tile_count, c, -1, 1);
        }
        if x < width - 1 {
            lemma_step(len, width, tile_count, c, 1, 1);
        }
    }
    assert(c + (-1) * width + 0 == c - width);
    assert(c + (-1) * width + (-1) == c - width - 1);
    assert(c + (-1) * width + 1 == c - width + 1);
    assert(c + 0 * width + (-1) == c - 1);
    assert(c + 0 * width + 1 == c + 1);
    assert(c + 1 * width + 0 == c + width);
    assert(c + 1 * width + (-1) == c + width - 1);
    assert(c + 1 * width + 1 == c + width + 1);
}

/// The few candidate bounds that are not immediate from the guards alone:
/// a cell left of the north neighbor exists, and the cells right of `c`
/// and right of the south neighbor stay inside the grid.
pub proof fn lemma_candidate_bounds(len: int, width: int, tile_count: int, c: int)
    requires
        dims_wf(len, width, tile_count),
        0 <= c < len,
    ensures
        c % width > 0 ==> c >= 1,
        c % tile_count >= width ==> c - width >= 0,
        c % width > 0 && c % tile_count >= width ==> c - width - 1 >= 0,
        c % width < width - 1 ==> c + 1 < len,
        c % width < width - 1 && c % tile_count < tile_count - width ==> c + width + 1 < len,
        c % tile_count < tile_count - width ==> c + width < len,
{
    lemma_decompose(len, width, tile_count, c);
    lemma_row_guards(len, width, tile_count, c);
    if c == 0 {
        vstd::arithmetic::div_mod::lemma_fundamental_div_mod_converse(0, width, 0, 0);
    }
    let lvl = c % tile_count;
    let x = col_of(width, c);
    if lvl >= width {
        lemma_step(len, width, tile_count, c, 0, -1);
        assert(c + (-1) * width + 0 == c - width);
        if x > 0 {
            lemma_step(len, width, tile_count, c, -1, -1);
            assert(c + (-1) * width + (-1) == c - width - 1);
        }
    }
    if lvl < tile_count - width {
        lemma_step(len, width, tile_count, c, 0, 1);
        assert(c + 1 * width + 0 == c + width);
    }
    if x < width - 1 {
        lemma_step(len, width, tile_count, c, 1, 0);
        assert(c + 0 * width + 1 == c + 1);
        if lvl < tile_count - width {
            lemma_step(len, width, tile_count, c, 1, 1);
            assert(c + 1 * width + 1 == c + width + 1);
        }
    }
}

/// Every cell an in-floor policy lists is a passable grid cell one move
/// away; cardinal moves have Manhattan length exactly one, arbitrary
/// in-floor moves at most two.
#[verifier::rlimit(100)]
#[verifier::spinoff_prover]
pub proof fn lemma_policy_props(grid: Seq<u32>, width: int, tile_count: int, c: int)
    requires
        dims_wf(grid.len() as int, width, tile_count),
        0 <= c < grid.len(),
    ensures
        forall|j: int|
            0 <= j < omni_nbrs(grid, width, tile_count, c).len() ==> passable(
                grid,
                #[trigger] omni_nbrs(grid, width, tile_count, c)[j] as int,
            ) && 1 <= manhattan(
                width,
                tile_count,
                c,
                omni_nbrs(grid, width, tile_count, c)[j] as int,
            ) <= 2 && crate::coords::floor_of(tile_count, omni_nbrs(grid, width, tile_count, c)[j] as int)
                == crate::coords::floor_of(tile_count, c),
        forall|j: int|
            0 <= j < cardinal_nbrs(grid, width, tile_count, c).len() ==> passable(
                grid,
                #[trigger] cardinal_nbrs(grid, width, tile_count, c)[j] as int,
            ) && manhattan(
                width,
                tile_count,
                c,
                cardinal_nbrs(grid, width, tile_count, c)[j] as int,
            ) == 1,
{
    let len = grid.len() as int;
    lemma_decompose(len, width, tile_count, c);
    lemma_row_guards(len, width, tile_count, c);
    let lvl = c % tile_count;
    let x = col_of(width, c);
    let y = row_of(width, tile_count, c);
    let h = tile_count / width;
    if lvl >= width {
        lemma_step(len, width, tile_count, c, 0, -1);
        if x > 0 {
            lemma_step(len, width, tile_count, c, -1, -1);
        }
        if x < width - 1 {
            lemma_step(len, width, tile_count, c, 1, -1);
        }
    }
    if x > 0 {
        lemma_step(len, width, tile_count, c, -1, 0);
    }
    if x < width - 1 {
        lemma_step(len, width, tile_count, c, 1, 0);
    }
    if lvl < tile_count - width {
        lemma_step(len, width, tile_count, c, 0, 1);
        if x > 0 {
            lemma_step(len, width, tile_count, c, -1, 1);
        }
        if x < width - 1 {
            lemma_step(len, width, tile_count, c, 1, 1);
        }
    }
    assert(c + (-1) * width + 0 == c - width);
    assert(c + (-1) * width + (-1) == c - width - 1);
    assert(c + (-1) * width + 1 == c - width + 1);
    assert(c + 0 * width + (-1) == c - 1);
    assert(c + 0 * width + 1 == c + 1);
    assert(c + 1 * width + 0 == c + width);
    assert(c + 1 * width + (-1) == c + width - 1);
    assert(c + 1 * width + 1 == c + width + 1);
    let n_ok = lvl >= width;
    let s_ok = lvl < tile_count - width;
    let w_ok = x > 0;
    let e_ok = x < width - 1;
    let a1 = sng(n_ok && passable(grid, c - width), c - width);
    let a2 = sng(n_ok && w_ok && passable(grid, c - width - 1), c - width - 1);
    let a3 = sng(n_ok && e_ok && passable(grid, c - width + 1), c - width + 1);
    let a4 = sng(w_ok && passable(grid, c - 1), c - 1);
    let a5 = sng(e_ok && passable(grid, c + 1), c + 1);
    let a6 = sng(s_ok && passable(grid, c + width), c + width);
    let a7 = sng(s_ok && w_ok && passable(grid, c + width - 1), c + width - 1);
    let a8 = sng(s_ok && e_ok && passable(grid, c + width + 1), c + width + 1);
    let r = omni_nbrs(grid, width, tile_count, c);
    assert(r == a1 + a2 + a3 + a4 + a5 + a6 + a7 + a8);
    let c1 = a1.len() as int;
    let c2 = c1 + a2.len();
    let c3 = c2 + a3.len();
    let c4 = c3 + a4.len();
    let c5 = c4 + a5.len();
    let c6 = c5 + a6.len();
    let c7 = c6 + a7.len();
    assert forall|j: int| 0 <= j < r.len() implies passable(grid, #[trigger] r[j] as int) && 1
        <= manhattan(width, tile_count, c, r[j] as int) <= 2 && crate::coords::floor_of(
        tile_count,
        r[j] as int,
    ) == crate::coords::floor_of(tile_count, c) by {
        if j < c1 {
            assert(r[j] == (c - width) as u32);
        } else if j < c2 {
            assert(r[j] == (c - width - 1) as u32);
        } else if j < c3 {
            assert(r[j] == (c - width + 1) as u32);
        } else if j < c4 {
            assert(r[j] == (c - 1) as u32);
        } else if j < c5 {
            assert(r[j] == (c + 1) as u32);
        } else if j < c6 {
            assert(r[j] == (c + width) as u32);
        } else if j < c7 {
            assert(r[j] == (c + width - 1) as u32);
        } else {
            assert(r[j] == (c + width + 1) as u32);
        }
    }
    let b1 = sng(n_ok && passable(grid, c - width), c - width);
    let b2 = sng(w_ok && passable(grid, c - 1), c - 1);
    let b3 = sng(e_ok && passable(grid, c + 1), c + 1);
    let b4 = sng(s_ok && passable(grid, c + width), c + width);
    let rc = cardinal_nbrs(grid, width, tile_count, c);
    assert(rc == b1 + b2 + b3 + b4);
    let d1 = b1.len() as int;
    let d2 = d1 + b2.len();
    let d3 = d2 + b3.len();
    assert forall|j: int| 0 <= j < rc.len() implies passable(grid, #[trigger] rc[j] as int)
        && manhattan(width, tile_count, c, rc[j] as int) == 1 by {
        if j < d1 {
            assert(rc[j] == (c - width) as u32);
        } else if j < d2 {
            assert(rc[j] == (c - 1) as u32);
        } else if j < d3 {
            assert(rc[j] == (c + 1) as u32);
        } else {
            assert(rc[j] == (c + width) as u32);
        }
    }
}

/// Every in-floor move the omnidirectional policy lists covers exactly
/// one unit of Chebyshev distance: each coordinate changes by at most
/// one, and some coordinate changes.
#[verifier::rlimit(100)]
#[verifier::spinoff_prover]
pub proof fn lemma_omni_cheb(grid: Seq<u32>, width: int, tile_count: int, c: int)
    requires
        dims_wf(grid.len() as int, width, tile_count),
        0 <= c < grid.len(),
    ensures
        forall|j: int|
            0 <= j < omni_nbrs(grid, width, tile_count, c).len() ==> crate::coords::chebyshev(
                width,
                tile_count,
                c,
                #[trigger] omni_nbrs(grid, width, tile_count, c)[j] as int,
            ) == 1,
{
    let len = grid.len() as int;
    lemma_decompose(len, width, tile_count, c);
    lemma_row_guards(len, width, tile_count, c);
    let lvl = c % tile_count;
    let x = col_of(width, c);
    if lvl >= width {
        lemma_step(len, width, tile_count, c, 0, -1);
        if x > 0 {
            lemma_step(len, width, tile_count, c, -1, -1);
        }
        if x < width - 1 {
            lemma_step(len, width, tile_count, c, 1, -1);
        }
    }
    if x > 0 {
        lemma_step(len, width, tile_count, c, -1, 0);
    }
    if x < width - 1 {
        lemma_step(len, width, tile_count, c, 1, 0);
    }
    if lvl < tile_count - width {
        lemma_step(len, width, tile_count, c, 0, 1);
        if x > 0 {
            lemma_step(len, width, tile_count, c, -1, 1);
        }
        if x < width - 1 {
            lemma_step(len, width, tile_count, c, 1, 1);
        }
    }
    assert(c + (-1) * width + 0 == c - width);
    assert(c + (-1) * width + (-1) == c - width - 1);
    assert(c + (-1) * width + 1 == c - width + 1);
    assert(c + 0 * width + (-1) == c - 1);
    assert(c + 0 * width + 1 == c + 1);
    assert(c + 1 * width + 0 == c + width);
    assert(c + 1 * width + (-1) == c + width - 1);
    assert(c + 1 * width + 1 == c + width + 1);
    let n_ok = lvl >= width;
    let s_ok = lvl < tile_count - width;
    let w_ok = x > 0;
    let e_ok = x < width - 1;
    let a1 = sng(n_ok && passable(grid, c - width), c - width);
    let a2 = sng(n_ok && w_ok && passable(grid, c - width - 1), c - width - 1);
    let a3 = sng(n_ok && e_ok && passable(grid, c - width + 1), c - width + 1);
    let a4 = sng(w_ok && passable(grid, c - 1), c - 1);
    let a5 = sng(e_ok && passable(grid, c + 1), c + 1);
    let a6 = sng(s_ok && passable(grid, c + width), c + width);
    let a7 = sng(s_ok && w_ok && passable(grid, c + width - 1), c + width - 1);
    let a8 = sng(s_ok && e_ok && passable(grid, c + width + 1), c + width + 1);
    let r = omni_nbrs(grid, width, tile_count, c);
    assert(r == a1 + a2 + a3 + a4 + a5 + a6 + a7 + a8);
    let c1 = a1.len() as int;
    let c2 = c1 + a2.len();
    let c3 = c2 + a3.len();
    let c4 = c3 + a4.len();
    let c5 = c4 + a5.len();
    let c6 = c5 + a6.len();
    let c7 = c6 + a7.len();
    assert forall|j: int| 0 <= j < r.len() implies crate::coords::chebyshev(
        width,
        tile_count,
        c,
        #[trigger] r[j] as int,
    ) == 1 by {
        if j < c1 {
            assert(r[j] == (c - width) as u32);
        } else if j < c2 {
            assert(r[j] == (c - width - 1) as u32);
        } else if j < c3 {
            assert(r[j] == (c - width + 1) as u32);
        } else if j < c4 {
            assert(r[j] == (c - 1) as u32);
        } else if j < c5 {
            assert(r[j] == (c + 1) as u32);
        } else if j < c6 {
            assert(r[j] == (c + width) as u32);
        } else if j < c7 {
            assert(r[j] == (c + width - 1) as u32);
        } else {
            assert(r[j] == (c + width + 1) as u32);
        }
    }
}

/// The layered policy also only lists grid cells at most one move away
/// (Manhattan length at most three: a possibly diagonal in-floor move to a
/// linked cell plus one floor).
pub proof fn lemma_policy3_props(
    grid: Seq<u32>,
    width: int,
    tile_count: int,
    ups: Set<u32>,
    downs: Set<u32>,
    c: int,
)
    requires
        dims_wf(grid.len() as int, width, tile_count),
        0 <= c < grid.len(),
    ensures
        forall|j: int|
            0 <= j < omni3_nbrs(grid, width, tile_count, ups, downs, c).len() ==> passable(
                grid,
                #[trigger] omni3_nbrs(grid, width, tile_count, ups, downs, c)[j] as int,
            ) && 1 <= manhattan(
                width,
                tile_count,
                c,
                omni3_nbrs(grid, width, tile_count, ups, downs, c)[j] as int,
            ) <= 3,
{
    let len = grid.len() as int;
    let base = omni_nbrs(grid, width, tile_count, c);
    lemma_policy_props(grid, width, tile_count, c);
    lemma_stair_exts_props(grid, width, tile_count, ups, downs, c, base);
    let exts = stair_exts(grid, base, ups, downs, tile_count);
    let full = omni3_nbrs(grid, width, tile_count, ups, downs, c);
    assert forall|j: int| 0 <= j < full.len() implies passable(grid, #[trigger] full[j] as int) && 1
        <= manhattan(width, tile_count, c, full[j] as int) <= 3 by {
        if j < base.len() {
            assert(full[j] == base[j]);
        } else {
            assert(full[j] == exts[j - base.len()]);
        }
    }
}

/// Auxiliary fact for the stair extensions of any prefix of the in-floor
/// list: each extension is a passable grid cell at Manhattan distance at
/// most three from `c`.
proof fn lemma_stair_exts_props(
    grid: Seq<u32>,
    width: int,
    tile_count: int,
    ups: Set<u32>,
    downs: Set<u32>,
    c: int,
    base: Seq<u32>,
)
    requires
        dims_wf(grid.len() as int, width, tile_count),
        0 <= c < grid.len(),
        forall|j: int|
            0 <= j < base.len() ==> (#[trigger] base[j] as int) < grid.len() && 0 <= base[j]
                && 1 <= manhattan(width, tile_count, c, base[j] as int) <= 2
                && crate::coords::floor_of(tile_count, base[j] as int)
                == crate::coords::floor_of(tile_count, c),
    ensures
        forall|j: int|
            0 <= j < stair_exts(grid, base, ups, downs, tile_count).len() ==> passable(
                grid,
                #[trigger] stair_exts(grid, base, ups, downs, tile_count)[j] as int,
            ) && 1 <= manhattan(
                width,
                tile_count,
                c,
                stair_exts(grid, base, ups, downs, tile_count)[j] as int,
            ) <= 3,
    decreases base.len(),
{
    let len = grid.len() as int;
    if base.len() > 0 {
        assert(forall|j: int| 0 <= j < base.len() - 1 ==> base.drop_last()[j] == base[j]);
        lemma_stair_exts_props(grid, width, tile_count, ups, downs, c, base.drop_last());
        let b = base.last();
        assert(base[base.len() - 1] == b);
        assert((b as int) < len && 1 <= manhattan(width, tile_count, c, b as int) <= 2);
        if ups.contains(b) && passable(grid, b + tile_count) {
            lemma_floor_step(len, width, tile_count, b as int, 1);
            crate::coords::lemma_manhattan_triangle(
                width,
                tile_count,
                c,
                b as int,
                b as int + tile_count,
            );
            assert(manhattan(width, tile_count, c, b as int + tile_count) >= 1);
        }
        if downs.contains(b) && passable(grid, b - tile_count) {
            lemma_floor_step(len, width, tile_count, b as int, -1);
            crate::coords::lemma_manhattan_triangle(
                width,
                tile_count,
                c,
                b as int,
                b as int - tile_count,
            );
            assert(manhattan(width, tile_count, c, b as int - tile_count) >= 1);
        }
        let prev = stair_exts(grid, base.drop_last(), ups, downs, tile_count);
        let e1 = sng(ups.contains(b) && passable(grid, b + tile_count), b + tile_count);
        let e2 = sng(downs.contains(b) && passable(grid, b - tile_count), b - tile_count);
        let cur = stair_exts(grid, base, ups, downs, tile_count);
        assert(cur == prev + e1 + e2);
        assert forall|j: int| 0 <= j < cur.len() implies passable(grid, #[trigger] cur[j] as int)
            && 1 <= manhattan(width, tile_count, c, cur[j] as int) <= 3 by {
            if j < prev.len() {
                assert(cur[j] == prev[j]);
            } else if j < prev.len() + e1.len() {
                assert(cur[j] == (b + tile_count) as u32);
                assert(ups.contains(b) && passable(grid, b + tile_count));
            } else {
                assert(cur[j] == (b - tile_count) as u32);
                assert(downs.contains(b) && passable(grid, b - tile_count));
            }
        }
    }
}

/// Both on-demand policy tables and both cache tables list only grid
/// cells at most one move away, as searches require of their tables.
pub proof fn lemma_tables_ok(grid: Seq<u32>, width: int, tile_count: int, cardinal: bool)
    requires
        dims_wf(grid.len() as int, width, tile_count),
    ensures
        crate::model::cache_ok(policy_table(grid, width, tile_count, cardinal), grid, width, tile_count),
        crate::model::cache_ok(cache_table(grid, width, tile_count, cardinal), grid, width, tile_count),
{
    let pt = policy_table(grid, width, tile_count, cardinal);
    let ct = cache_table(grid, width, tile_count, cardinal);
    assert forall|i: int, j: int| 0 <= i < pt.len() && 0 <= j < pt[i].len() implies (
    #[trigger] pt[i][j] < grid.len() && manhattan(width, tile_count, i, pt[i][j] as int)
        <= 3) by {
        lemma_policy_props(grid, width, tile_count, i);
    }
    assert forall|i: int, j: int| 0 <= i < ct.len() && 0 <= j < ct[i].len() implies (
    #[trigger] ct[i][j] < grid.len() && manhattan(width, tile_count, i, ct[i][j] as int)
        <= 3) by {
        lemma_policy_props(grid, width, tile_count, i);
    }
}

/// The layered cache table likewise.
pub proof fn lemma_table3_ok(
    grid: Seq<u32>,
    width: int,
    tile_count: int,
    ups: Set<u32>,
    downs: Set<u32>,
)
    requires
        dims_wf(grid.len() as int, width, tile_count),
    ensures
        crate::model::cache_ok(
            cache3_table(grid, width, tile_count, ups, downs),
            grid,
            width,
            tile_count,
        ),
{
    let ct = cache3_table(grid, width, tile_count, ups, downs);
    assert forall|i: int, j: int| 0 <= i < ct.len() && 0 <= j < ct[i].len() implies (
    #[trigger] ct[i][j] < grid.len() && manhattan(width, tile_count, i, ct[i][j] as int)
        <= 3) by {
        lemma_policy3_props(grid, width, tile_count, ups, downs, i);
    }
}

} // verus!
