//! The distance-to-point curve transform.
//!
//! A curve of order `k` visits every cell of a `2^k` by `2^k` grid exactly
//! once, in an order that keeps numerically close distances in nearby
//! cells.  The transform refines the grid quadrant by quadrant: each pair
//! of distance bits, most significant pair first, picks a quadrant, and
//! the lower quadrants are folded (reflected and swapped) so that
//! consecutive distances always land on edge-adjacent cells.

use vstd::prelude::*;

verus! {

use vstd::arithmetic::power2::{
    pow2, lemma_pow2_adds, lemma_pow2_pos, lemma_pow2_unfold, lemma_pow2_strictly_increases,
    lemma2_to64,
};
use vstd::arithmetic::mul::lemma_mul_strictly_positive;
use vstd::arithmetic::div_mod::{
    lemma_fundamental_div_mod, lemma_fundamental_div_mod_converse, lemma_small_mod,
    lemma_basic_div, lemma_div_basics, lemma_mod_division_less_than_divisor, lemma_mod_pos_bound, lemma_multiply_divide_lt, lemma_div_pos_is_pos,
};
use vstd::bits::lemma_u32_shl_is_mul;

/// One quadrant-refinement step: place a point already resolved within an
/// `s` by `s` sub-square into the quadrant selected by `quad`.  The first
/// and last quadrants transpose or reflect the inner point so that the
/// sub-curves of neighbouring quadrants meet at adjacent cells.
pub open spec fn quad_point(quad: int, s: int, p: (int, int)) -> (int, int) {
    if quad == 0 {
        (p.1, p.0)
    } else if quad == 1 {
        (p.0, p.1 + s)
    } else if quad == 2 {
        (p.0 + s, p.1 + s)
    } else {
        (2 * s - 1 - p.1, s - 1 - p.0)
    }
}

/// The point that curve distance `d` reaches on the order-`order` curve.
/// The two most significant of the `2 * order` distance bits choose the
/// outermost quadrant; the remaining bits place the point within it.
pub open spec fn d2xy(order: nat, d: int) -> (int, int)
    decreases order,
{
    if order == 0 {
        (0, 0)
    } else {
        let sub = (order - 1) as nat;
        let s = pow2(sub) as int;
        let cell = s * s;
        quad_point((d / cell) % 4, s, d2xy(sub, d % cell))
    }
}

/// The inverse walk: the curve distance at which the order-`order` curve
/// reaches the point `(x, y)`.
pub open spec fn xy2d(order: nat, x: int, y: int) -> int
    decreases order,
{
    if order == 0 {
        0
    } else {
        let sub = (order - 1) as nat;
        let s = pow2(sub) as int;
        let cell = s * s;
        if x < s && y < s {
            xy2d(sub, y, x)
        } else if x < s {
            cell + xy2d(sub, x, y - s)
        } else if y >= s {
            2 * cell + xy2d(sub, x - s, y - s)
        } else {
            3 * cell + xy2d(sub, s - 1 - y, 2 * s - 1 - x)
        }
    }
}

/// Both coordinates of any reached point lie below the grid side `2^order`.
pub proof fn lemma_d2xy_bounds(order: nat, d: int)
    requires
        0 <= d,
    ensures
        0 <= d2xy(order, d).0 < pow2(order),
        0 <= d2xy(order, d).1 < pow2(order),
    decreases order,
{
    if order == 0 {
        lemma2_to64();
    } else {
        let sub = (order - 1) as nat;
        let s = pow2(sub) as int;
        let cell = s * s;
        lemma_pow2_pos(sub);
        lemma_mul_strictly_positive(s, s);
        lemma_mod_pos_bound(d, cell);
        lemma_div_pos_is_pos(d, cell);
        lemma_mod_pos_bound(d / cell, 4);
        lemma_d2xy_bounds(sub, d % cell);
        lemma_pow2_unfold(order);
    }
}

/// `pow2(2 * order)`, the number of cells of the grid, equals four times
/// the cell count of the next lower order.
proof fn lemma_grid_cells(order: nat)
    requires
        order > 0,
    ensures
        pow2(2 * order) == 4 * (pow2((order - 1) as nat) * pow2((order - 1) as nat)),
{
    let sub = (order - 1) as nat;
    lemma_pow2_adds(sub, sub);
    lemma_pow2_adds(2 * sub, 2);
    lemma2_to64();
}

/// Walking to a point and asking for its distance returns the original
/// distance: the inverse walk undoes the transform.
pub proof fn lemma_xy2d_d2xy(order: nat, d: int)
    requires
        0 <= d < pow2(2 * order),
    ensures
        xy2d(order, d2xy(order, d).0, d2xy(order, d).1) == d,
    decreases order,
{
    if order == 0 {
        lemma2_to64();
    } else {
        let sub = (order - 1) as nat;
        let s = pow2(sub) as int;
        let cell = s * s;
        lemma_pow2_pos(sub);
        lemma_mul_strictly_positive(s, s);
        lemma_grid_cells(order);
        lemma_pow2_adds(sub, sub);
        let quad = (d / cell) % 4;
        let r = d % cell;
        lemma_mod_pos_bound(d, cell);
        lemma_div_pos_is_pos(d, cell);
        lemma_multiply_divide_lt(d, cell, 4);
        lemma_small_mod((d / cell) as nat, 4nat);
        assert(quad == d / cell);
        lemma_fundamental_div_mod(d, cell);
        lemma_d2xy_bounds(sub, r);
        lemma_xy2d_d2xy(sub, r);
        let p = d2xy(sub, r);
        let q = quad_point(quad, s, p);
        assert(d2xy(order, d) == q);
        assert(xy2d(sub, p.0, p.1) == r);
        assert(d == cell * quad + r);
        if quad == 0 {
            assert(d == r) by (nonlinear_arith)
                requires
                    d == cell * quad + r,
                    quad == 0,
            ;
            assert(xy2d(order, q.0, q.1) == xy2d(sub, p.0, p.1));
        } else if quad == 1 {
            assert(d == cell + r) by (nonlinear_arith)
                requires
                    d == cell * quad + r,
                    quad == 1,
            ;
            assert(xy2d(order, q.0, q.1) == cell + xy2d(sub, p.0, p.1));
        } else if quad == 2 {
            assert(d == 2 * cell + r) by (nonlinear_arith)
                requires
                    d == cell * quad + r,
                    quad == 2,
            ;
            assert(xy2d(order, q.0, q.1) == 2 * cell + xy2d(sub, p.0, p.1));
        } else {
            assert(d == 3 * cell + r) by (nonlinear_arith)
                requires
                    d == cell * quad + r,
                    quad == 3,
            ;
            assert(q.0 >= s && q.1 < s);
            assert(xy2d(order, q.0, q.1) == 3 * cell + xy2d(sub, s - 1 - q.1, 2 * s - 1 - q.0));
            assert(s - 1 - q.1 == p.0 && 2 * s - 1 - q.0 == p.1);
        }
        assert(xy2d(order, q.0, q.1) == d);
    }
}

/// Asking for a point's distance and walking back to it returns the
/// original point, and the distance is in range: together with
/// `lemma_xy2d_d2xy` this makes the transform a bijection between
/// distances `[0, 4^order)` and grid points `[0, 2^order)` squared.
pub proof fn lemma_d2xy_xy2d(order: nat, x: int, y: int)
    requires
        0 <= x < pow2(order),
        0 <= y < pow2(order),
    ensures
        0 <= xy2d(order, x, y) < pow2(2 * order),
        d2xy(order, xy2d(order, x, y)) == (x, y),
    decreases order,
{
    if order == 0 {
        lemma2_to64();
    } else {
        let sub = (order - 1) as nat;
        let s = pow2(sub) as int;
        let cell = s * s;
        lemma_pow2_pos(sub);
        lemma_mul_strictly_positive(s, s);
        lemma_grid_cells(order);
        lemma_pow2_adds(sub, sub);
        lemma_pow2_unfold(order);
        let d = xy2d(order, x, y);
        if x < s && y < s {
            lemma_d2xy_xy2d(sub, y, x);
            let r = xy2d(sub, y, x);
            assert(d == r);
            lemma_fundamental_div_mod_converse(d, cell, 0, r);
            lemma_small_mod(0nat, 4nat);
        } else if x < s {
            lemma_d2xy_xy2d(sub, x, y - s);
            let r = xy2d(sub, x, y - s);
            assert(d == cell + r);
            lemma_fundamental_div_mod_converse(d, cell, 1, r);
            lemma_small_mod(1nat, 4nat);
        } else if y >= s {
            lemma_d2xy_xy2d(sub, x - s, y - s);
            let r = xy2d(sub, x - s, y - s);
            assert(d == 2 * cell + r);
            lemma_fundamental_div_mod_converse(d, cell, 2, r);
            lemma_small_mod(2nat, 4nat);
        } else {
            lemma_d2xy_xy2d(sub, s - 1 - y, 2 * s - 1 - x);
            let r = xy2d(sub, s - 1 - y, 2 * s - 1 - x);
            assert(d == 3 * cell + r);
            lemma_fundamental_div_mod_converse(d, cell, 3, r);
            lemma_small_mod(3nat, 4nat);
        }
    }
}

/// Law: for a fixed order, no two distinct in-range distances reach the
/// same point.
pub proof fn lemma_d2xy_injective(order: nat, d1: int, d2: int)
    requires
        0 <= d1 < pow2(2 * order),
        0 <= d2 < pow2(2 * order),
        d2xy(order, d1) == d2xy(order, d2),
    ensures
        d1 == d2,
{
    lemma_xy2d_d2xy(order, d1);
    lemma_xy2d_d2xy(order, d2);
}

/// Law: every grid point is reached by some in-range distance, namely the
/// one the inverse walk names.
pub proof fn lemma_d2xy_surjective(order: nat, x: int, y: int)
    requires
        0 <= x < pow2(order),
        0 <= y < pow2(order),
    ensures
        0 <= xy2d(order, x, y) < pow2(2 * order),
        d2xy(order, xy2d(order, x, y)) == (x, y),
{
    lemma_d2xy_xy2d(order, x, y);
}

/// Two grid points are adjacent when they differ by exactly one step in
/// exactly one coordinate.
pub open spec fn adjacent(p: (int, int), q: (int, int)) -> bool {
    ||| p.0 == q.0 && (p.1 == q.1 + 1 || q.1 == p.1 + 1)
    ||| p.1 == q.1 && (p.0 == q.0 + 1 || q.0 == p.0 + 1)
}

/// Every quadrant placement preserves adjacency: it is a translation
/// composed with at most a transposition and a point reflection.
proof fn lemma_quad_point_adjacent(quad: int, s: int, p: (int, int), q: (int, int))
    requires
        0 <= quad < 4,
        adjacent(p, q),
    ensures
        adjacent(quad_point(quad, s, p), quad_point(quad, s, q)),
{
}

/// The curve enters its grid at the origin.
pub proof fn lemma_d2xy_entry(order: nat)
    ensures
        d2xy(order, 0) == (0int, 0int),
    decreases order,
{
    if order > 0 {
        let sub = (order - 1) as nat;
        let s = pow2(sub) as int;
        let cell = s * s;
        lemma_pow2_pos(sub);
        lemma_mul_strictly_positive(s, s);
        lemma_basic_div(0, cell);
        lemma_small_mod(0nat, cell as nat);
        lemma_small_mod(0nat, 4nat);
        lemma_d2xy_entry(sub);
    }
}

/// The curve leaves its grid at the far corner of the bottom row, so a
/// following quadrant can pick it up at an adjacent cell.
pub proof fn lemma_d2xy_exit(order: nat)
    ensures
        d2xy(order, pow2(2 * order) - 1) == (pow2(order) - 1, 0int),
    decreases order,
{
    if order == 0 {
        lemma2_to64();
    } else {
        let sub = (order - 1) as nat;
        let s = pow2(sub) as int;
        let cell = s * s;
        lemma_pow2_pos(sub);
        lemma_mul_strictly_positive(s, s);
        lemma_grid_cells(order);
        lemma_pow2_unfold(order);
        let d = pow2(2 * order) - 1;
        assert(d == 3 * cell + (cell - 1));
        lemma_fundamental_div_mod_converse(d, cell, 3, cell - 1);
        lemma_small_mod(3nat, 4nat);
        lemma_d2xy_exit(sub);
        lemma_pow2_adds(sub, sub);
        assert(d2xy(sub, cell - 1) == (s - 1, 0int));
    }
}

/// Law: consecutive distances reach edge-adjacent points — the grid walk
/// never jumps.
pub proof fn lemma_d2xy_adjacent(order: nat, d: int)
    requires
        0 <= d,
        d + 1 < pow2(2 * order),
    ensures
        adjacent(d2xy(order, d), d2xy(order, d + 1)),
    decreases order,
{
    if order == 0 {
        lemma2_to64();
    } else {
        let sub = (order - 1) as nat;
        let s = pow2(sub) as int;
        let cell = s * s;
        lemma_pow2_pos(sub);
        lemma_mul_strictly_positive(s, s);
        lemma_grid_cells(order);
        lemma_pow2_adds(sub, sub);
        let q = d / cell;
        let r = d % cell;
        lemma_fundamental_div_mod(d, cell);
        lemma_mod_pos_bound(d, cell);
        lemma_div_pos_is_pos(d, cell);
        lemma_multiply_divide_lt(d, cell, 4);
        lemma_small_mod(q as nat, 4nat);
        if r < cell - 1 {
            lemma_fundamental_div_mod_converse(d + 1, cell, q, r + 1);
            lemma_d2xy_adjacent(sub, r);
            lemma_d2xy_bounds(sub, r);
            lemma_d2xy_bounds(sub, r + 1);
            lemma_quad_point_adjacent(q, s, d2xy(sub, r), d2xy(sub, r + 1));
        } else {
            assert(r == cell - 1);
            assert(d + 1 == (q + 1) * cell) by (nonlinear_arith)
                requires
                    d == q * cell + cell - 1,
            ;
            assert(q + 1 < 4) by {
                lemma_multiply_divide_lt(d + 1, cell, 4);
                lemma_fundamental_div_mod_converse(d + 1, cell, q + 1, 0);
            };
            lemma_fundamental_div_mod_converse(d + 1, cell, q + 1, 0);
            lemma_small_mod((q + 1) as nat, 4nat);
            lemma_small_mod(0nat, cell as nat);
            lemma_d2xy_exit(sub);
            lemma_d2xy_entry(sub);
            assert(d2xy(order, d) == quad_point(q, s, (s - 1, 0int)));
            assert(d2xy(order, d + 1) == quad_point(q + 1, s, (0int, 0int)));
        }
    }
}

/// Maps a curve distance to grid coordinates on the order-`order` curve.
///
/// Only the low `2 * order` bits of `d` are consulted: an out-of-range
/// distance behaves as if reduced modulo `4^order`.  Always returns a
/// point; both coordinates lie below the grid side `2^order`.
pub fn hilbert_d2xy(d: u64, order: u32) -> (r: Option<(u32, u32)>)
    requires
        order <= 31,
    ensures
        r is Some,
        ({
            let (x, y) = r->0;
            &&& x < pow2(order as nat)
            &&& y < pow2(order as nat)
            &&& (x as int, y as int) == d2xy(order as nat, d as int % pow2(2 * order as nat) as int)
            &&& d < pow2(2 * order as nat) ==> (x as int, y as int) == d2xy(order as nat, d as int)
        }),
{
    proof {
        lemma2_to64();
        lemma_pow2_strictly_increases(order as nat, 32nat);
        lemma_u32_shl_is_mul(1u32, order);
    }
    let n: u32 = 1u32 << order;
    let mut x: u32 = 0;
    let mut y: u32 = 0;
    let mut t: u64 = d;
    let mut s: u32 = 1;
    let ghost mut k: nat = 0nat;
    proof {
        lemma_mod_division_less_than_divisor(d as int, 1);
        lemma_div_basics(d as int);
    }
    while s < n
        invariant
            order <= 31,
            k <= order as nat,
            n == pow2(order as nat),
            n <= u32::MAX,
            s == pow2(k),
            t == d as int / pow2(2 * k) as int,
            0 <= x < pow2(k),
            0 <= y < pow2(k),
            (x as int, y as int) == d2xy(k, d as int % pow2(2 * k) as int),
            s < n ==> k < order as nat,
            s >= n ==> k == order as nat,
        decreases order as nat - k,
    {
        proof {
            if k >= order as nat {
                lemma_pow2_strictly_increases(order as nat, k);
            }
            assert(k < order as nat);
            lemma_pow2_unfold((k + 1) as nat);
            if k + 1 < order as nat {
                lemma_pow2_strictly_increases((k + 1) as nat, order as nat);
            }
            // pow2(k + 1) <= pow2(order) == n, so the additions below fit in u32.
            lemma_pow2_pos(k);
            lemma_pow2_pos(2 * k);
        }
        let ghost cell: int = pow2(2 * k) as int;
        let ghost rem: int = d as int % pow2(2 * (k + 1)) as int;
        proof {
            lemma_grid_cells((k + 1) as nat);
            lemma_pow2_adds(k, k);
            // cell == pow2(k) * pow2(k) and pow2(2 * (k + 1)) == 4 * cell
            vstd::arithmetic::div_mod::lemma_breakdown(d as int, cell, 4);
            assert(d as int % (cell * 4) == rem);
            lemma_mod_pos_bound(d as int, cell);
            lemma_div_pos_is_pos(d as int, cell);
            lemma_mod_pos_bound(d as int / cell, 4);
            let quad_g: int = (d as int / cell) % 4;
            vstd::arithmetic::mul::lemma_mul_is_commutative(cell, quad_g);
            lemma_fundamental_div_mod_converse(rem, cell, quad_g, d as int % cell);
            // so rem / cell == quad_g and rem % cell == d % cell
            lemma_small_mod(quad_g as nat, 4nat);
        }
        let quad: u64 = t % 4;
        proof {
            // t == d / pow2(2k), so t % 4 is the quadrant of the next step.
            assert(quad == (d as int / cell) % 4);
        }
        if quad == 0 {
            let tmp: u32 = x;
            x = y;
            y = tmp;
        } else if quad == 1 {
            y = y + s;
        } else if quad == 2 {
            x = x + s;
            y = y + s;
        } else {
            let nx: u32 = 2 * s - 1 - y;
            let ny: u32 = s - 1 - x;
            x = nx;
            y = ny;
        }
        t = t / 4;
        s = s * 2;
        proof {
            // d / pow2(2k) / 4 == d / pow2(2k + 2)
            vstd::arithmetic::div_mod::lemma_div_denominator(d as int, cell, 4);
            k = k + 1;
            lemma_pow2_unfold(k);
            assert(s == pow2(k));
            assert(t == d as int / pow2(2 * k) as int);
            assert((x as int, y as int) == d2xy(k, d as int % pow2(2 * k) as int));
            if s >= n && k != order as nat {
                lemma_pow2_strictly_increases(k, order as nat);
            }
        }
    }
    proof {
        if d < pow2(2 * order as nat) {
            lemma_small_mod(d as nat, pow2(2 * order as nat));
        }
    }
    Some((x, y))
}

} // verus!
