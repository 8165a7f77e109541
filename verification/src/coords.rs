//! Coordinate arithmetic for flattened grid indices.
//!
//! A cell of a layered rectangular grid is addressed by a single
//! non-negative integer: `index = floor * tile_count + row * width + column`,
//! where `tile_count = width * height` is the number of cells per floor.
//! A plain two-dimensional grid is the special case of a single floor,
//! with `tile_count` equal to the whole grid length.

use vstd::prelude::*;

verus! {

use vstd::arithmetic::div_mod::{
    lemma_fundamental_div_mod,
    lemma_fundamental_div_mod_converse,
};
use vstd::arithmetic::mul::{lemma_mul_inequality, lemma_mul_is_distributive_add_other_way};

/// Absolute difference of two integers.
pub open spec fn dist(a: int, b: int) -> int {
    if a >= b {
        a - b
    } else {
        b - a
    }
}

/// Column of the cell with flattened index `i`.
pub open spec fn col_of(width: int, i: int) -> int {
    i % width
}

/// Row, within its own floor, of the cell with flattened index `i`.
pub open spec fn row_of(width: int, tile_count: int, i: int) -> int {
    (i % tile_count) / width
}

/// Floor of the cell with flattened index `i`.
pub open spec fn floor_of(tile_count: int, i: int) -> int {
    i / tile_count
}

/// Manhattan distance between the cells at flattened indices `a` and `b`:
/// the coordinate-wise absolute differences of column, row and floor, summed.
pub open spec fn manhattan(width: int, tile_count: int, a: int, b: int) -> int {
    dist(col_of(width, a), col_of(width, b)) + dist(
        row_of(width, tile_count, a),
        row_of(width, tile_count, b),
    ) + dist(floor_of(tile_count, a), floor_of(tile_count, b))
}

/// The larger of two integers.
pub open spec fn max_int(a: int, b: int) -> int {
    if a >= b {
        a
    } else {
        b
    }
}

/// Chebyshev distance between the cells at flattened indices `a` and `b`:
/// the largest coordinate-wise absolute difference. One omnidirectional
/// in-floor move covers exactly one unit of it.
pub open spec fn chebyshev(width: int, tile_count: int, a: int, b: int) -> int {
    max_int(
        dist(col_of(width, a), col_of(width, b)),
        max_int(
            dist(row_of(width, tile_count, a), row_of(width, tile_count, b)),
            dist(floor_of(tile_count, a), floor_of(tile_count, b)),
        ),
    )
}

/// Chebyshev distance obeys the triangle inequality.
pub proof fn lemma_chebyshev_triangle(width: int, tile_count: int, a: int, b: int, c: int)
    ensures
        chebyshev(width, tile_count, a, c) <= chebyshev(width, tile_count, a, b) + chebyshev(
            width,
            tile_count,
            b,
            c,
        ),
{
}

/// Well-formed dimensions: a positive row width, a per-floor cell count that
/// is a whole number of rows, and a grid length that is a whole number of
/// floors, everything indexable by `u32`.
pub open spec fn dims_wf(len: int, width: int, tile_count: int) -> bool {
    &&& width >= 1
    &&& tile_count >= 1
    &&& tile_count % width == 0
    &&& len >= 1
    &&& len % tile_count == 0
    &&& len <= u32::MAX
}

/// A cell index decomposes uniquely into floor, row and column.
pub proof fn lemma_compose(width: int, tile_count: int, q: int, y: int, x: int)
    requires
        width >= 1,
        tile_count >= 1,
        tile_count % width == 0,
        0 <= x < width,
        0 <= y < tile_count / width,
        0 <= q,
    ensures
        col_of(width, q * tile_count + y * width + x) == x,
        row_of(width, tile_count, q * tile_count + y * width + x) == y,
        floor_of(tile_count, q * tile_count + y * width + x) == q,
{
    let h = tile_count / width;
    lemma_fundamental_div_mod(tile_count, width);
    assert(tile_count == width * h);
    let r = y * width + x;
    assert(y * width <= (h - 1) * width) by {
        lemma_mul_inequality(y, h - 1, width);
    }
    assert((h - 1) * width == h * width - width) by {
        lemma_mul_is_distributive_add_other_way(width, h - 1, 1);
    }
    assert(0 <= r < tile_count);
    let n = q * tile_count + r;
    lemma_fundamental_div_mod_converse(n, tile_count, q, r);
    assert(n % tile_count == r && n / tile_count == q);
    lemma_fundamental_div_mod_converse(r, width, y, x);
    assert(r % width == x && r / width == y);
    // the global column equals the in-floor column because width divides tile_count
    assert(n == (q * h + y) * width + x) by {
        assert((q * h + y) * width == (q * h) * width + y * width) by {
            lemma_mul_is_distributive_add_other_way(width, q * h, y);
        }
        assert((q * h) * width == q * (h * width)) by {
            vstd::arithmetic::mul::lemma_mul_is_associative(q, h, width);
        }
    }
    lemma_fundamental_div_mod_converse(n, width, q * h + y, x);
}

/// Conversely, floor, row and column recompose into the index, and lie in range.
pub proof fn lemma_decompose(len: int, width: int, tile_count: int, i: int)
    requires
        dims_wf(len, width, tile_count),
        0 <= i < len,
    ensures
        0 <= col_of(width, i) < width,
        0 <= row_of(width, tile_count, i) < tile_count / width,
        0 <= floor_of(tile_count, i) < len / tile_count,
        i == floor_of(tile_count, i) * tile_count + row_of(width, tile_count, i) * width + col_of(
            width,
            i,
        ),
        col_of(width, i) == (i % tile_count) % width,
{
    let h = tile_count / width;
    let f = len / tile_count;
    lemma_fundamental_div_mod(tile_count, width);
    assert(tile_count == width * h);
    lemma_fundamental_div_mod(len, tile_count);
    assert(len == tile_count * f);
    lemma_fundamental_div_mod(i, tile_count);
    let q = i / tile_count;
    let r = i % tile_count;
    assert(0 <= r < tile_count) by {
        vstd::arithmetic::div_mod::lemma_mod_bound(i, tile_count);
    }
    assert(0 <= q) by {
        vstd::arithmetic::div_mod::lemma_div_pos_is_pos(i, tile_count);
    }
    assert(q < f) by {
        if q >= f {
            assert(q * tile_count >= f * tile_count) by {
                lemma_mul_inequality(f, q, tile_count);
            }
            assert(tile_count * q == q * tile_count) by {
                vstd::arithmetic::mul::lemma_mul_is_commutative(tile_count, q);
            }
            assert(tile_count * f == f * tile_count) by {
                vstd::arithmetic::mul::lemma_mul_is_commutative(tile_count, f);
            }
        }
    }
    lemma_fundamental_div_mod(r, width);
    let y = r / width;
    let x = r % width;
    assert(0 <= x < width) by {
        vstd::arithmetic::div_mod::lemma_mod_bound(r, width);
    }
    assert(0 <= y) by {
        vstd::arithmetic::div_mod::lemma_div_pos_is_pos(r, width);
    }
    assert(y < h) by {
        if y >= h {
            assert(y * width >= h * width) by {
                lemma_mul_inequality(h, y, width);
            }
            assert(width * y == y * width && width * h == h * width) by {
                vstd::arithmetic::mul::lemma_mul_is_commutative(width, y);
                vstd::arithmetic::mul::lemma_mul_is_commutative(width, h);
            }
        }
    }
    lemma_compose(width, tile_count, q, y, x);
    assert(i == q * tile_count + y * width + x) by {
        assert(tile_count * q == q * tile_count) by {
            vstd::arithmetic::mul::lemma_mul_is_commutative(tile_count, q);
        }
        assert(width * y == y * width) by {
            vstd::arithmetic::mul::lemma_mul_is_commutative(width, y);
        }
    }
}

/// The boundary tests that the neighbor enumeration performs on the raw
/// index agree with the row coordinate.
pub proof fn lemma_row_guards(len: int, width: int, tile_count: int, i: int)
    requires
        dims_wf(len, width, tile_count),
        0 <= i < len,
    ensures
        (i % tile_count >= width) <==> (row_of(width, tile_count, i) >= 1),
        (i % tile_count < tile_count - width) <==> (row_of(width, tile_count, i) < tile_count
            / width - 1),
{
    let h = tile_count / width;
    lemma_fundamental_div_mod(tile_count, width);
    assert(tile_count == width * h);
    lemma_decompose(len, width, tile_count, i);
    let r = i % tile_count;
    let y = row_of(width, tile_count, i);
    let x = (i % tile_count) % width;
    lemma_fundamental_div_mod(r, width);
    assert(r == width * y + x);
    assert(0 <= x < width) by {
        vstd::arithmetic::div_mod::lemma_mod_bound(r, width);
    }
    assert((r >= width) <==> (y >= 1)) by {
        if y >= 1 {
            assert(width * 1 <= width * y) by {
                lemma_mul_inequality(1, y, width);
                vstd::arithmetic::mul::lemma_mul_is_commutative(width, 1);
                vstd::arithmetic::mul::lemma_mul_is_commutative(width, y);
            }
            assert(r >= width);
        } else {
            assert(y == 0);
            assert(width * y == 0) by {
                vstd::arithmetic::mul::lemma_mul_basics(width);
            }
            assert(r == x);
        }
    }
    if y < h - 1 {
        assert(width * y <= width * (h - 2)) by {
            lemma_mul_inequality(y, h - 2, width);
            vstd::arithmetic::mul::lemma_mul_is_commutative(y, width);
            vstd::arithmetic::mul::lemma_mul_is_commutative(h - 2, width);
        }
        assert(width * (h - 2) == width * h - 2 * width) by {
            vstd::arithmetic::mul::lemma_mul_is_distributive_sub(width, h, 2);
        }
    } else {
        assert(width * (h - 1) <= width * y) by {
            lemma_mul_inequality(h - 1, y, width);
            vstd::arithmetic::mul::lemma_mul_is_commutative(h - 1, width);
            vstd::arithmetic::mul::lemma_mul_is_commutative(y, width);
        }
        assert(width * (h - 1) == width * h - width) by {
            vstd::arithmetic::mul::lemma_mul_is_distributive_sub(width, h, 1);
        }
    }
}

/// A one-cell move inside a floor: stepping by `dy` rows and `dx` columns
/// from `c` lands on `c + dy * width + dx`, stays on the same floor and in
/// range, and covers a Manhattan distance of `|dx| + |dy|`.
pub proof fn lemma_step(len: int, width: int, tile_count: int, c: int, dx: int, dy: int)
    requires
        dims_wf(len, width, tile_count),
        0 <= c < len,
        0 <= col_of(width, c) + dx < width,
        0 <= row_of(width, tile_count, c) + dy < tile_count / width,
    ensures
        0 <= c + dy * width + dx < len,
        col_of(width, c + dy * width + dx) == col_of(width, c) + dx,
        row_of(width, tile_count, c + dy * width + dx) == row_of(width, tile_count, c) + dy,
        floor_of(tile_count, c + dy * width + dx) == floor_of(tile_count, c),
        manhattan(width, tile_count, c, c + dy * width + dx) == dist(0, dx) + dist(0, dy),
{
    let f = len / tile_count;
    lemma_fundamental_div_mod(len, tile_count);
    assert(len == tile_count * f);
    lemma_decompose(len, width, tile_count, c);
    let q = floor_of(tile_count, c);
    let y = row_of(width, tile_count, c);
    let x = col_of(width, c);
    let n = c + dy * width + dx;
    assert(n == q * tile_count + (y + dy) * width + (x + dx)) by {
        assert((y + dy) * width == y * width + dy * width) by {
            lemma_mul_is_distributive_add_other_way(width, y, dy);
        }
    }
    lemma_compose(width, tile_count, q, y + dy, x + dx);
    assert(0 <= n);
    assert(n < len) by {
        let h = tile_count / width;
        lemma_fundamental_div_mod(tile_count, width);
        assert(tile_count == width * h);
        assert((y + dy) * width <= (h - 1) * width) by {
            lemma_mul_inequality(y + dy, h - 1, width);
        }
        assert((h - 1) * width == h * width - width) by {
            lemma_mul_is_distributive_add_other_way(width, h - 1, 1);
        }
        assert(h * width == width * h) by {
            vstd::arithmetic::mul::lemma_mul_is_commutative(h, width);
        }
        assert((y + dy) * width + (x + dx) < tile_count);
        assert((q + 1) * tile_count <= f * tile_count) by {
            lemma_mul_inequality(q + 1, f, tile_count);
        }
        assert((q + 1) * tile_count == q * tile_count + tile_count) by {
            lemma_mul_is_distributive_add_other_way(tile_count, q, 1);
        }
        assert(f * tile_count == tile_count * f) by {
            vstd::arithmetic::mul::lemma_mul_is_commutative(f, tile_count);
        }
    }
}

/// A move of exactly one floor: `c + tile_count` (or `c - tile_count`) keeps
/// the column and the row, changes the floor by one, and covers a Manhattan
/// distance of one.
pub proof fn lemma_floor_step(len: int, width: int, tile_count: int, c: int, df: int)
    requires
        dims_wf(len, width, tile_count),
        0 <= c < len,
        df == 1 || df == -1,
        0 <= c + df * tile_count < len,
    ensures
        col_of(width, c + df * tile_count) == col_of(width, c),
        row_of(width, tile_count, c + df * tile_count) == row_of(width, tile_count, c),
        floor_of(tile_count, c + df * tile_count) == floor_of(tile_count, c) + df,
        manhattan(width, tile_count, c, c + df * tile_count) == 1,
{
    lemma_decompose(len, width, tile_count, c);
    let q = floor_of(tile_count, c);
    let y = row_of(width, tile_count, c);
    let x = col_of(width, c);
    let n = c + df * tile_count;
    assert(n == (q + df) * tile_count + y * width + x) by {
        assert((q + df) * tile_count == q * tile_count + df * tile_count) by {
            lemma_mul_is_distributive_add_other_way(tile_count, q, df);
        }
    }
    assert(q + df >= 0) by {
        if q + df < 0 {
            assert((q + df) * tile_count <= (-1) * tile_count) by {
                lemma_mul_inequality(q + df, -1, tile_count);
            }
            assert(y * width + x < tile_count) by {
                let h = tile_count / width;
                lemma_fundamental_div_mod(tile_count, width);
                assert(y * width <= (h - 1) * width) by {
                    lemma_mul_inequality(y, h - 1, width);
                }
                assert((h - 1) * width == h * width - width) by {
                    lemma_mul_is_distributive_add_other_way(width, h - 1, 1);
                }
                assert(h * width == width * h) by {
                    vstd::arithmetic::mul::lemma_mul_is_commutative(h, width);
                }
            }
        }
    }
    lemma_compose(width, tile_count, q + df, y, x);
}

/// Manhattan distance between two cells of the grid is below the cell count.
pub proof fn lemma_manhattan_bound(len: int, width: int, tile_count: int, a: int, b: int)
    requires
        dims_wf(len, width, tile_count),
        0 <= a < len,
        0 <= b < len,
    ensures
        0 <= manhattan(width, tile_count, a, b) <= len - 1,
{
    let h = tile_count / width;
    let f = len / tile_count;
    lemma_fundamental_div_mod(tile_count, width);
    lemma_fundamental_div_mod(len, tile_count);
    assert(tile_count == width * h);
    assert(len == tile_count * f);
    lemma_decompose(len, width, tile_count, a);
    lemma_decompose(len, width, tile_count, b);
    assert(manhattan(width, tile_count, a, b) <= (width - 1) + (h - 1) + (f - 1));
    assert(width + h + f - 2 <= width * h * f) by (nonlinear_arith)
        requires
            width >= 1,
            h >= 1,
            f >= 1,
    ;
    assert((width * h) * f == width * h * f) by {
        vstd::arithmetic::mul::lemma_mul_is_associative(width, h, f);
    }
}

/// Well-formed dimensions order themselves: a floor holds at least one
/// row, and the grid at least one floor.
pub proof fn lemma_dims_bounds(len: int, width: int, tile_count: int)
    requires
        dims_wf(len, width, tile_count),
    ensures
        width <= tile_count,
        tile_count <= len,
{
    lemma_fundamental_div_mod(tile_count, width);
    let h = tile_count / width;
    assert(tile_count == width * h);
    assert(h >= 1) by {
        if h <= 0 {
            assert(width * h <= 0) by {
                vstd::arithmetic::mul::lemma_mul_by_zero_is_zero(width);
                if h < 0 {
                    vstd::arithmetic::mul::lemma_mul_strict_inequality(h, 0, width);
                    vstd::arithmetic::mul::lemma_mul_is_commutative(h, width);
                }
            }
        }
    }
    assert(width * 1 <= width * h) by {
        vstd::arithmetic::mul::lemma_mul_inequality(1, h, width);
        vstd::arithmetic::mul::lemma_mul_is_commutative(1, width);
        vstd::arithmetic::mul::lemma_mul_is_commutative(h, width);
    }
    lemma_fundamental_div_mod(len, tile_count);
    let f = len / tile_count;
    assert(len == tile_count * f);
    assert(f >= 1) by {
        if f <= 0 {
            assert(tile_count * f <= 0) by {
                vstd::arithmetic::mul::lemma_mul_by_zero_is_zero(tile_count);
                if f < 0 {
                    vstd::arithmetic::mul::lemma_mul_strict_inequality(f, 0, tile_count);
                    vstd::arithmetic::mul::lemma_mul_is_commutative(f, tile_count);
                }
            }
        }
    }
    assert(tile_count * 1 <= tile_count * f) by {
        vstd::arithmetic::mul::lemma_mul_inequality(1, f, tile_count);
        vstd::arithmetic::mul::lemma_mul_is_commutative(1, tile_count);
        vstd::arithmetic::mul::lemma_mul_is_commutative(f, tile_count);
    }
}

/// Two distinct cells are at Manhattan distance at least one.
pub proof fn lemma_manhattan_zero(len: int, width: int, tile_count: int, a: int, b: int)
    requires
        dims_wf(len, width, tile_count),
        0 <= a < len,
        0 <= b < len,
        manhattan(width, tile_count, a, b) == 0,
    ensures
        a == b,
{
    lemma_decompose(len, width, tile_count, a);
    lemma_decompose(len, width, tile_count, b);
}

/// Manhattan distance obeys the triangle inequality.
pub proof fn lemma_manhattan_triangle(width: int, tile_count: int, a: int, b: int, c: int)
    ensures
        manhattan(width, tile_count, a, c) <= manhattan(width, tile_count, a, b) + manhattan(
            width,
            tile_count,
            b,
            c,
        ),
{
}

/// Computes the Manhattan distance between the cells at indices `a` and `b`.
pub(crate) fn manhattan_u32(width: u32, tile_count: u32, a: u32, b: u32) -> (r: u32)
    requires
        width >= 1,
        tile_count >= 1,
        manhattan(width as int, tile_count as int, a as int, b as int) <= u32::MAX,
    ensures
        r as int == manhattan(width as int, tile_count as int, a as int, b as int),
{
    let ax = a % width;
    let ay = (a % tile_count) / width;
    let af = a / tile_count;
    let bx = b % width;
    let by = (b % tile_count) / width;
    let bf = b / tile_count;
    let dx = if ax >= bx {
        ax - bx
    } else {
        bx - ax
    };
    let dy = if ay >= by {
        ay - by
    } else {
        by - ay
    };
    let df = if af >= bf {
        af - bf
    } else {
        bf - af
    };
    dx + dy + df
}

} // verus!
