use crate::board::{Board, Pos};
use crate::ratio::{
    ceil_div, lemma_ceil_same, lemma_floor_same, lemma_is_difference, lemma_is_order,
    lemma_is_product, lemma_is_sum, mag, ratio_add, ratio_ceil, ratio_floor, ratio_max, ratio_min,
    ratio_mul, ratio_new, ratio_sub, Frac,
};
use vstd::prelude::*;

verus! {

/// The largest absolute value of a coordinate handed to `pass_cells`.
pub const SIGHT_LIMIT: i64 = 0x1000_0000;

/// Twice the distance from `x1` to the left end of the column `x`, cut off at the
/// segment's start.
pub open spec fn left_twice(x1: int, x: int) -> int {
    if 2 * (x - x1) - 1 > 0 {
        2 * (x - x1) - 1
    } else {
        0
    }
}

/// Twice the distance from `x1` to the right end of the column `x`, cut off at
/// the segment's end.
pub open spec fn right_twice(x1: int, x2: int, x: int) -> int {
    if 2 * (x - x1) + 1 < 2 * (x2 - x1) {
        2 * (x - x1) + 1
    } else {
        2 * (x2 - x1)
    }
}

/// The height of the segment from `(x1, y1)` to `(x2, y2)` at the abscissa
/// `x1 + t / 2`, plus one half, counted in units of `1 / (2 * (x2 - x1))`.
pub open spec fn rise(x1: int, y1: int, x2: int, y2: int, t: int) -> int {
    (2 * y1 + 1) * (x2 - x1) + t * (y2 - y1)
}

/// The lowest ordinate of a cell that the segment touches in the column `x`.
pub open spec fn column_low(x1: int, y1: int, x2: int, y2: int, x: int) -> int {
    let d = 2 * (x2 - x1);
    let a = rise(x1, y1, x2, y2, left_twice(x1, x)) / d;
    let b = rise(x1, y1, x2, y2, right_twice(x1, x2, x)) / d;
    if a <= b {
        a
    } else {
        b
    }
}

/// One more than the highest ordinate of a cell that the segment touches in the
/// column `x`.
pub open spec fn column_high(x1: int, y1: int, x2: int, y2: int, x: int) -> int {
    let d = 2 * (x2 - x1);
    let a = ceil_div(rise(x1, y1, x2, y2, left_twice(x1, x)), d);
    let b = ceil_div(rise(x1, y1, x2, y2, right_twice(x1, x2, x)), d);
    if a >= b {
        a
    } else {
        b
    }
}

/// The cells `(x, lo)`, `(x, lo + 1)`, up to but without `(x, hi)`.
pub open spec fn run(x: int, lo: int, hi: int) -> Seq<(int, int)> {
    Seq::new(
        if hi > lo {
            (hi - lo) as nat
        } else {
            0
        },
        |i: int| (x, lo + i),
    )
}

/// The cells that the segment from `(x1, y1)` to `(x2, y2)`, with `x1 < x2`,
/// touches in the columns `x1` to `upto`, column by column and upwards in each.
pub open spec fn columns(x1: int, y1: int, x2: int, y2: int, upto: int) -> Seq<(int, int)>
    decreases upto - x1 + 1,
{
    if upto < x1 {
        Seq::empty()
    } else {
        columns(x1, y1, x2, y2, upto - 1) + run(
            upto,
            column_low(x1, y1, x2, y2, upto),
            column_high(x1, y1, x2, y2, upto),
        )
    }
}

/// The cells that the straight segment between two cell centres touches.
///
/// A vertical segment touches the cells between its ends, upwards. Any other
/// segment is walked from its left end: in each column it covers the abscissae
/// from half a cell left of the column's centre to half a cell right of it, cut
/// off at the segment's ends, and touches the cells between the heights it has
/// at the two ends of that stretch.
pub open spec fn sight_line(x1: int, y1: int, x2: int, y2: int) -> Seq<(int, int)> {
    if x1 == x2 {
        run(
            x1,
            if y1 <= y2 {
                y1
            } else {
                y2
            },
            if y1 <= y2 {
                y2 + 1
            } else {
                y1 + 1
            },
        )
    } else if x1 > x2 {
        columns(x2, y2, x1, y1, x1)
    } else {
        columns(x1, y1, x2, y2, x2)
    }
}

/// A list of positions as a sequence of pairs of integers.
pub open spec fn as_points(s: Seq<Pos>) -> Seq<(int, int)> {
    Seq::new(s.len(), |i: int| (s[i].0 as int, s[i].1 as int))
}

/// The cells between two ends are one list: two lists that hold the cells of
/// the sight line between the same ends hold the same cells in the same order.
pub proof fn law_one_sight_line(a: Seq<Pos>, b: Seq<Pos>, x1: int, y1: int, x2: int, y2: int)
    requires
        as_points(a) == sight_line(x1, y1, x2, y2),
        as_points(b) == sight_line(x1, y1, x2, y2),
    ensures
        a == b,
{
    assert(a.len() == as_points(a).len());
    assert(b.len() == as_points(b).len());
    assert forall|i: int| 0 <= i < a.len() implies a[i] == b[i] by {
        assert(as_points(a)[i] == as_points(b)[i]);
    }
    assert(a =~= b);
}

/// Whether `(x, y)` lies in the smallest rectangle that holds both ends.
pub open spec fn in_box(x1: int, y1: int, x2: int, y2: int, x: int, y: int) -> bool {
    &&& (x1 <= x <= x2 || x2 <= x <= x1)
    &&& (y1 <= y <= y2 || y2 <= y <= y1)
}

/// In every column the touched cells lie between the ordinates of the two ends.
pub proof fn lemma_column_in_box(x1: int, y1: int, x2: int, y2: int, x: int)
    requires
        x1 < x2,
        x1 <= x <= x2,
    ensures
        column_low(x1, y1, x2, y2, x) >= (if y1 <= y2 {
            y1
        } else {
            y2
        }),
        column_high(x1, y1, x2, y2, x) <= (if y1 <= y2 {
            y2 + 1
        } else {
            y1 + 1
        }),
{
    let dx = x2 - x1;
    let d = 2 * dx;
    let tl = left_twice(x1, x);
    let tr = right_twice(x1, x2, x);
    lemma_rise_in_box(x1, y1, x2, y2, tl);
    lemma_rise_in_box(x1, y1, x2, y2, tr);
}

/// Between the ends of the segment its height lies between their ordinates.
pub proof fn lemma_rise_in_box(x1: int, y1: int, x2: int, y2: int, t: int)
    requires
        x1 < x2,
        0 <= t <= 2 * (x2 - x1),
    ensures
        rise(x1, y1, x2, y2, t) / (2 * (x2 - x1)) >= (if y1 <= y2 {
            y1
        } else {
            y2
        }),
        ceil_div(rise(x1, y1, x2, y2, t), 2 * (x2 - x1)) <= (if y1 <= y2 {
            y2 + 1
        } else {
            y1 + 1
        }),
{
    let dx = x2 - x1;
    let d = 2 * dx;
    let dy = y2 - y1;
    let r = rise(x1, y1, x2, y2, t);
    let lo = if y1 <= y2 {
        y1
    } else {
        y2
    };
    let hi = if y1 <= y2 {
        y2
    } else {
        y1
    };
    // lo * d + dx <= r <= hi * d + dx
    assert((2 * y1 + 1) * dx == y1 * d + dx) by (nonlinear_arith)
        requires
            d == 2 * dx,
    ;
    assert(d * dy == y2 * d - y1 * d) by (nonlinear_arith)
        requires
            dy == y2 - y1,
    ;
    if dy >= 0 {
        assert(0 <= t * dy <= d * dy) by (nonlinear_arith)
            requires
                0 <= t <= d,
                dy >= 0,
        ;
    } else {
        assert(d * dy <= t * dy <= 0) by (nonlinear_arith)
            requires
                0 <= t <= d,
                dy < 0,
        ;
    }
    assert(lo * d + dx <= r <= hi * d + dx);
    assert(d * lo == lo * d && d * (-hi - 1) == -(hi * d) - d) by (nonlinear_arith);
    // the floor
    vstd::arithmetic::div_mod::lemma_fundamental_div_mod_converse(lo * d + dx, d, lo, dx);
    vstd::arithmetic::div_mod::lemma_div_is_ordered(lo * d + dx, r, d);
    // the ceiling
    vstd::arithmetic::div_mod::lemma_fundamental_div_mod_converse(
        -(hi * d + dx),
        d,
        -hi - 1,
        dx,
    );
    vstd::arithmetic::div_mod::lemma_div_is_ordered(-(hi * d + dx), -r, d);
}

/// Every cell that the columns up to `upto` hold lies between the two ends.
pub proof fn lemma_columns_in_box(x1: int, y1: int, x2: int, y2: int, upto: int)
    requires
        x1 < x2,
        upto <= x2,
    ensures
        forall|i: int|
            0 <= i < columns(x1, y1, x2, y2, upto).len() ==> in_box(
                x1,
                y1,
                x2,
                y2,
                (#[trigger] columns(x1, y1, x2, y2, upto)[i]).0,
                columns(x1, y1, x2, y2, upto)[i].1,
            ),
    decreases upto - x1 + 1,
{
    if upto >= x1 {
        lemma_columns_in_box(x1, y1, x2, y2, upto - 1);
        lemma_column_in_box(x1, y1, x2, y2, upto);
        let head = columns(x1, y1, x2, y2, upto - 1);
        let tail = run(
            upto,
            column_low(x1, y1, x2, y2, upto),
            column_high(x1, y1, x2, y2, upto),
        );
        assert forall|i: int| 0 <= i < (head + tail).len() implies in_box(
            x1,
            y1,
            x2,
            y2,
            (#[trigger] (head + tail)[i]).0,
            (head + tail)[i].1,
        ) by {
            if i < head.len() {
                assert((head + tail)[i] == head[i]);
            } else {
                assert((head + tail)[i] == tail[i - head.len()]);
            }
        }
    }
}

/// Every cell that the segment touches lies in the smallest rectangle that
/// holds both ends.
pub proof fn lemma_sight_line_in_box(x1: int, y1: int, x2: int, y2: int)
    ensures
        forall|i: int|
            0 <= i < sight_line(x1, y1, x2, y2).len() ==> in_box(
                x1,
                y1,
                x2,
                y2,
                (#[trigger] sight_line(x1, y1, x2, y2)[i]).0,
                sight_line(x1, y1, x2, y2)[i].1,
            ),
{
    if x1 > x2 {
        lemma_columns_in_box(x2, y2, x1, y1, x1);
    } else if x1 < x2 {
        lemma_columns_in_box(x1, y1, x2, y2, x2);
    }
}

/// The columns up to `a` stand at the head of the columns up to `b`.
pub proof fn lemma_columns_head(x1: int, y1: int, x2: int, y2: int, a: int, b: int, i: int)
    requires
        a <= b,
        0 <= i < columns(x1, y1, x2, y2, a).len(),
    ensures
        i < columns(x1, y1, x2, y2, b).len(),
        columns(x1, y1, x2, y2, b)[i] == columns(x1, y1, x2, y2, a)[i],
    decreases b - a,
{
    if a < b {
        lemma_columns_head(x1, y1, x2, y2, a, b - 1, i);
        if b < x1 {
            assert(columns(x1, y1, x2, y2, b - 1).len() == 0);
        }
    }
}

/// Its height at an end of the segment is the ordinate of that end.
pub proof fn lemma_rise_at_end(x1: int, y1: int, x2: int, y2: int)
    requires
        x1 < x2,
    ensures
        rise(x1, y1, x2, y2, 0) / (2 * (x2 - x1)) == y1,
        ceil_div(rise(x1, y1, x2, y2, 0), 2 * (x2 - x1)) == y1 + 1,
        rise(x1, y1, x2, y2, 2 * (x2 - x1)) / (2 * (x2 - x1)) == y2,
        ceil_div(rise(x1, y1, x2, y2, 2 * (x2 - x1)), 2 * (x2 - x1)) == y2 + 1,
{
    let dx = x2 - x1;
    let d = 2 * dx;
    let dy = y2 - y1;
    assert((2 * y1 + 1) * dx == y1 * d + dx) by (nonlinear_arith)
        requires
            d == 2 * dx,
    ;
    assert((2 * y1 + 1) * dx + d * dy == y2 * d + dx) by (nonlinear_arith)
        requires
            d == 2 * dx,
            dy == y2 - y1,
    ;
    assert(d * y1 == y1 * d && d * y2 == y2 * d && d * (-y1 - 1) == -(y1 * d) - d && d * (-y2 - 1)
        == -(y2 * d) - d) by (nonlinear_arith);
    vstd::arithmetic::div_mod::lemma_fundamental_div_mod_converse(y1 * d + dx, d, y1, dx);
    vstd::arithmetic::div_mod::lemma_fundamental_div_mod_converse(-(y1 * d + dx), d, -y1 - 1, dx);
    vstd::arithmetic::div_mod::lemma_fundamental_div_mod_converse(y2 * d + dx, d, y2, dx);
    vstd::arithmetic::div_mod::lemma_fundamental_div_mod_converse(-(y2 * d + dx), d, -y2 - 1, dx);
}

/// The segment touches the cells at both its ends.
pub proof fn lemma_sight_line_ends(x1: int, y1: int, x2: int, y2: int)
    ensures
        exists|i: int|
            0 <= i < sight_line(x1, y1, x2, y2).len() && #[trigger] sight_line(x1, y1, x2, y2)[i]
                == (x1, y1),
        exists|i: int|
            0 <= i < sight_line(x1, y1, x2, y2).len() && #[trigger] sight_line(x1, y1, x2, y2)[i]
                == (x2, y2),
{
    let line = sight_line(x1, y1, x2, y2);
    if x1 == x2 {
        let lo = if y1 <= y2 {
            y1
        } else {
            y2
        };
        assert(line[y1 - lo] == (x1, y1));
        assert(line[y2 - lo] == (x2, y2));
    } else {
        // the left end `a`, the right end `b`
        let (ax, ay, bx, by) = if x1 < x2 {
            (x1, y1, x2, y2)
        } else {
            (x2, y2, x1, y1)
        };
        lemma_rise_at_end(ax, ay, bx, by);
        // the left end stands in the first column
        let first = columns(ax, ay, bx, by, ax);
        let lo0 = column_low(ax, ay, bx, by, ax);
        let hi0 = column_high(ax, ay, bx, by, ax);
        assert(left_twice(ax, ax) == 0);
        assert(lo0 <= ay < hi0);
        assert(columns(ax, ay, bx, by, ax - 1).len() == 0);
        assert(first =~= run(ax, lo0, hi0));
        assert(first[ay - lo0] == (ax, ay));
        lemma_columns_head(ax, ay, bx, by, ax, bx, ay - lo0);
        // the right end stands in the last column
        let before = columns(ax, ay, bx, by, bx - 1);
        let lo1 = column_low(ax, ay, bx, by, bx);
        let hi1 = column_high(ax, ay, bx, by, bx);
        assert(right_twice(ax, bx, bx) == 2 * (bx - ax));
        assert(lo1 <= by < hi1);
        assert(line == before + run(bx, lo1, hi1));
        assert(line[before.len() + (by - lo1)] == (bx, by));
        assert(line[ay - lo0] == (ax, ay));
    }
}

/// The product of two bounded integers is bounded by the product of the bounds.
pub proof fn lemma_bound_product(x: int, bx: int, y: int, by: int)
    requires
        mag(x) <= bx,
        mag(y) <= by,
    ensures
        mag(x * y) <= bx * by,
        mag(x) * mag(y) <= bx * by,
        mag(x * y) == mag(x) * mag(y),
{
    let ax = mag(x);
    let ay = mag(y);
    assert(ax * ay <= bx * by) by (nonlinear_arith)
        requires
            0 <= ax <= bx,
            0 <= ay <= by,
    ;
    if x >= 0 && y >= 0 {
        assert(x * y >= 0) by (nonlinear_arith)
            requires
                x >= 0,
                y >= 0,
        ;
    } else if x < 0 && y < 0 {
        assert(x * y == (-x) * (-y) && (-x) * (-y) >= 0) by (nonlinear_arith)
            requires
                x < 0,
                y < 0,
        ;
    } else if x < 0 {
        assert(x * y == -((-x) * y) && (-x) * y >= 0) by (nonlinear_arith)
            requires
                x < 0,
                y >= 0,
        ;
    } else {
        assert(x * y == -(x * (-y)) && x * (-y) >= 0) by (nonlinear_arith)
            requires
                x >= 0,
                y < 0,
        ;
    }
}

/// The height of the segment, plus one half, at the abscissa that `l` stands for.
fn edge_height(x1: i64, y1: i64, l: Frac, grad: Frac, half: Frac, Ghost(t): Ghost<int>, Ghost(
    dx,
): Ghost<int>, Ghost(dy): Ghost<int>) -> (r: Frac)
    requires
        -SIGHT_LIMIT <= x1 <= SIGHT_LIMIT,
        -SIGHT_LIMIT <= y1 <= SIGHT_LIMIT,
        0 < dx <= 2 * SIGHT_LIMIT,
        -2 * SIGHT_LIMIT <= dy <= 2 * SIGHT_LIMIT,
        l.is(2 * x1 + t, 2),
        l.within(2 * SIGHT_LIMIT + 1, 2),
        grad.is(dy, dx),
        grad.within(2 * SIGHT_LIMIT as int, 2 * SIGHT_LIMIT as int),
        half.num == 1,
        half.den == 2,
    ensures
        r.is((2 * y1 + 1) * dx + t * dy, 2 * dx),
        mag(r.num as int) + r.den <= i64::MAX,
{
    let lim: Ghost<int> = Ghost(SIGHT_LIMIT as int);
    let fx1: Frac = Frac::from_integer(x1);
    let fy1: Frac = Frac::from_integer(y1);
    proof {
        lemma_bound_product(l.num as int, 2 * lim@ + 1, 1, 1);
        lemma_bound_product(x1 as int, lim@, l.den as int, 2);
    }
    let p: Frac = ratio_sub(l, fx1);
    proof {
        lemma_is_difference(l, 2 * x1 + t, 2, fx1, x1 as int, 1, p);
        assert(p.is(t, 2));
        assert(mag(p.num as int) <= 4 * lim@ + 1);
        assert(p.den <= 2) by (nonlinear_arith)
            requires
                p.den <= l.den * fx1.den,
                fx1.den == 1,
                l.den <= 2,
        ;
        lemma_bound_product(p.num as int, 4 * lim@ + 1, grad.num as int, 2 * lim@);
        lemma_bound_product(p.den as int, 2, grad.den as int, 2 * lim@);
    }
    let q: Frac = ratio_mul(p, grad);
    proof {
        lemma_is_product(p, t, 2, grad, dy, dx, q);
        assert(q.is(t * dy, 2 * dx));
        assert((4 * lim@ + 1) * (2 * lim@) == 8 * lim@ * lim@ + 2 * lim@) by (nonlinear_arith);
        assert(mag(q.num as int) <= 8 * lim@ * lim@ + 2 * lim@);
        assert(q.den <= 4 * lim@);
        lemma_bound_product(y1 as int, lim@, q.den as int, 4 * lim@);
        assert(lim@ * (4 * lim@) == 4 * lim@ * lim@) by (nonlinear_arith);
        lemma_bound_product(q.num as int, 8 * lim@ * lim@ + 2 * lim@, 1, 1);
        assert(fy1.den * q.den == q.den) by (nonlinear_arith)
            requires
                fy1.den == 1,
        ;
    }
    let s: Frac = ratio_add(fy1, q);
    proof {
        lemma_is_sum(fy1, y1 as int, 1, q, t * dy, 2 * dx, s);
        assert(s.is(y1 * (2 * dx) + (t * dy) * 1, 1 * (2 * dx)));
        assert(mag(s.num as int) <= 12 * lim@ * lim@ + 2 * lim@);
        assert(s.den <= 4 * lim@);
        lemma_bound_product(s.num as int, 12 * lim@ * lim@ + 2 * lim@, 2, 2);
        lemma_bound_product(1, 1, s.den as int, 4 * lim@);
        lemma_bound_product(s.den as int, 4 * lim@, 2, 2);
        assert((12 * lim@ * lim@ + 2 * lim@) * 2 == 24 * lim@ * lim@ + 4 * lim@)
            by (nonlinear_arith);
    }
    let r: Frac = ratio_add(s, half);
    proof {
        lemma_is_sum(s, y1 * (2 * dx) + (t * dy) * 1, 1 * (2 * dx), half, 1, 2, r);
        let n = (y1 * (2 * dx) + (t * dy) * 1) * 2 + 1 * (1 * (2 * dx));
        let e = (1 * (2 * dx)) * 2;
        assert(r.is(n, e));
        let m = (2 * y1 + 1) * dx + t * dy;
        assert(n == 2 * m) by (nonlinear_arith)
            requires
                n == (y1 * (2 * dx) + (t * dy) * 1) * 2 + 1 * (1 * (2 * dx)),
                m == (2 * y1 + 1) * dx + t * dy,
        ;
        assert(e == 2 * (2 * dx));
        assert(r.num * e == 2 * (r.num * (2 * dx))) by (nonlinear_arith)
            requires
                e == 2 * (2 * dx),
        ;
        assert((2 * m) * r.den == 2 * (m * r.den)) by (nonlinear_arith);
        assert(r.is(m, 2 * dx));
        assert(mag(r.num as int) <= 24 * lim@ * lim@ + 8 * lim@);
        assert(r.den <= 8 * lim@);
    }
    r
}

/// The cells that the segment from `(x1, y1)` to `(x2, y2)` touches, where the
/// first end lies left of the second.
fn pass_columns(x1: i64, y1: i64, x2: i64, y2: i64) -> (r: Vec<Pos>)
    requires
        -SIGHT_LIMIT <= x1 < x2 <= SIGHT_LIMIT,
        -SIGHT_LIMIT <= y1 <= SIGHT_LIMIT,
        -SIGHT_LIMIT <= y2 <= SIGHT_LIMIT,
    ensures
        as_points(r@) == columns(x1 as int, y1 as int, x2 as int, y2 as int, x2 as int),
        forall|i: int|
            0 <= i < r@.len() ==> in_box(
                x1 as int,
                y1 as int,
                x2 as int,
                y2 as int,
                (#[trigger] r@[i]).0 as int,
                r@[i].1 as int,
            ),
{
    let mut ret: Vec<Pos> = Vec::new();
    let grad: Frac = ratio_new(y2 - y1, x2 - x1);
    let half: Frac = ratio_new(1, 2);
    let fx1: Frac = Frac::from_integer(x1);
    let fx2: Frac = Frac::from_integer(x2);
    let ghost dx: int = x2 - x1;
    let ghost dy: int = y2 - y1;
    let ghost lim: int = SIGHT_LIMIT as int;
    assert(half.num == 1 && half.den == 2);
    let mut x: i64 = x1;
    assert(as_points(ret@) =~= columns(x1 as int, y1 as int, x2 as int, y2 as int, x - 1));
    while x <= x2
        invariant
            -SIGHT_LIMIT <= x1 < x2 <= SIGHT_LIMIT,
            -SIGHT_LIMIT <= y1 <= SIGHT_LIMIT,
            -SIGHT_LIMIT <= y2 <= SIGHT_LIMIT,
            x1 <= x <= x2 + 1,
            dx == x2 - x1,
            dy == y2 - y1,
            lim == SIGHT_LIMIT,
            grad.is(dy, dx),
            grad.within(2 * lim, 2 * lim),
            half.num == 1,
            half.den == 2,
            fx1.num == x1,
            fx1.den == 1,
            fx2.num == x2,
            fx2.den == 1,
            as_points(ret@) == columns(x1 as int, y1 as int, x2 as int, y2 as int, x - 1),
            forall|i: int|
                0 <= i < ret@.len() ==> in_box(
                    x1 as int,
                    y1 as int,
                    x2 as int,
                    y2 as int,
                    (#[trigger] ret@[i]).0 as int,
                    ret@[i].1 as int,
                ),
        decreases x2 + 1 - x,
    {
        let fx: Frac = Frac::from_integer(x);
        let ghost tl: int = left_twice(x1 as int, x as int);
        let ghost tr: int = right_twice(x1 as int, x2 as int, x as int);
        proof {
            lemma_bound_product(x as int, lim, 2, 2);
            lemma_bound_product(1, 1, 1, 1);
        }
        let l0: Frac = ratio_sub(fx, half);
        let r0: Frac = ratio_add(fx, half);
        proof {
            lemma_is_difference(fx, x as int, 1, half, 1, 2, l0);
            lemma_is_sum(fx, x as int, 1, half, 1, 2, r0);
            assert(l0.is(2 * x - 1, 2));
            assert(r0.is(2 * x + 1, 2));
            assert(fx1.is(2 * x1, 2));
            assert(fx2.is(2 * x2, 2));
            lemma_is_order(fx1, 2 * x1, 2, l0, 2 * x - 1, 2);
            lemma_is_order(fx2, 2 * x2, 2, r0, 2 * x + 1, 2);
            assert(l0.den <= 2) by (nonlinear_arith)
                requires
                    l0.den <= fx.den * half.den,
                    fx.den == 1,
                    half.den == 2,
            ;
            assert(r0.den <= 2) by (nonlinear_arith)
                requires
                    r0.den <= fx.den * half.den,
                    fx.den == 1,
                    half.den == 2,
            ;
        }
        let l: Frac = ratio_max(fx1, l0);
        let r: Frac = ratio_min(fx2, r0);
        assert(l.is(2 * x1 + tl, 2));
        assert(r.is(2 * x1 + tr, 2));
        let ly: Frac = edge_height(x1, y1, l, grad, half, Ghost(tl), Ghost(dx), Ghost(dy));
        let ry: Frac = edge_height(x1, y1, r, grad, half, Ghost(tr), Ghost(dx), Ghost(dy));
        let lf: i64 = ratio_floor(ly).num;
        let rf: i64 = ratio_floor(ry).num;
        let lc: i64 = ratio_ceil(ly).num;
        let rc: i64 = ratio_ceil(ry).num;
        let lo: i64 = if lf <= rf {
            lf
        } else {
            rf
        };
        let hi: i64 = if lc >= rc {
            lc
        } else {
            rc
        };
        proof {
            let ghost rl = rise(x1 as int, y1 as int, x2 as int, y2 as int, tl);
            let ghost rr = rise(x1 as int, y1 as int, x2 as int, y2 as int, tr);
            lemma_floor_same(ly.num as int, ly.den as int, rl, 2 * dx);
            lemma_floor_same(ry.num as int, ry.den as int, rr, 2 * dx);
            lemma_ceil_same(ly.num as int, ly.den as int, rl, 2 * dx);
            lemma_ceil_same(ry.num as int, ry.den as int, rr, 2 * dx);
            assert(lo == column_low(x1 as int, y1 as int, x2 as int, y2 as int, x as int));
            assert(hi == column_high(x1 as int, y1 as int, x2 as int, y2 as int, x as int));
            lemma_column_in_box(x1 as int, y1 as int, x2 as int, y2 as int, x as int);
        }
        let ghost before: Seq<Pos> = ret@;
        let mut y: i64 = lo;
        while y < hi
            invariant
                lo <= y,
                hi > lo ==> y <= hi,
                hi <= lo ==> y == lo,
                x1 <= x <= x2,
                lo >= (if y1 <= y2 {
                    y1
                } else {
                    y2
                }),
                hi <= (if y1 <= y2 {
                    y2 + 1
                } else {
                    y1 + 1
                }),
                as_points(ret@) == as_points(before) + run(x as int, lo as int, y as int),
                forall|i: int|
                    0 <= i < ret@.len() ==> in_box(
                        x1 as int,
                        y1 as int,
                        x2 as int,
                        y2 as int,
                        (#[trigger] ret@[i]).0 as int,
                        ret@[i].1 as int,
                    ),
            decreases hi - y,
        {
            let ghost prev: Seq<Pos> = ret@;
            ret.push((x, y));
            proof {
                assert(as_points(ret@) =~= as_points(prev) + seq![(x as int, y as int)]);
                assert(run(x as int, lo as int, y + 1) =~= run(x as int, lo as int, y as int)
                    + seq![(x as int, y as int)]);
            }
            y = y + 1;
        }
        proof {
            assert(run(x as int, lo as int, y as int) =~= run(x as int, lo as int, hi as int));
        }
        x = x + 1;
    }
    ret
}

/// The cells that the straight segment between the centres of `(x1, y1)` and
/// `(x2, y2)` touches, in the order of `sight_line`. Every one of them lies in
/// the smallest rectangle that holds both ends.
pub fn pass_cells(x1: i64, y1: i64, x2: i64, y2: i64) -> (r: Vec<Pos>)
    requires
        -SIGHT_LIMIT <= x1 <= SIGHT_LIMIT,
        -SIGHT_LIMIT <= x2 <= SIGHT_LIMIT,
        -SIGHT_LIMIT <= y1 <= SIGHT_LIMIT,
        -SIGHT_LIMIT <= y2 <= SIGHT_LIMIT,
    ensures
        as_points(r@) == sight_line(x1 as int, y1 as int, x2 as int, y2 as int),
        forall|i: int|
            0 <= i < r@.len() ==> in_box(
                x1 as int,
                y1 as int,
                x2 as int,
                y2 as int,
                (#[trigger] r@[i]).0 as int,
                r@[i].1 as int,
            ),
{
    if x1 == x2 {
        let lo: i64 = if y1 <= y2 {
            y1
        } else {
            y2
        };
        let hi: i64 = if y1 <= y2 {
            y2
        } else {
            y1
        };
        let mut ret: Vec<Pos> = Vec::new();
        let mut y: i64 = lo;
        while y <= hi
            invariant
                lo <= y <= hi + 1,
                -SIGHT_LIMIT <= lo <= hi <= SIGHT_LIMIT,
                lo == (if y1 <= y2 {
                    y1
                } else {
                    y2
                }),
                hi == (if y1 <= y2 {
                    y2
                } else {
                    y1
                }),
                x1 == x2,
                as_points(ret@) == run(x1 as int, lo as int, y as int),
                forall|i: int|
                    0 <= i < ret@.len() ==> in_box(
                        x1 as int,
                        y1 as int,
                        x2 as int,
                        y2 as int,
                        (#[trigger] ret@[i]).0 as int,
                        ret@[i].1 as int,
                    ),
            decreases hi + 1 - y,
        {
            let ghost prev: Seq<Pos> = ret@;
            ret.push((x1, y));
            proof {
                assert(as_points(ret@) =~= as_points(prev) + seq![(x1 as int, y as int)]);
                assert(run(x1 as int, lo as int, y + 1) =~= run(x1 as int, lo as int, y as int)
                    + seq![(x1 as int, y as int)]);
            }
            y = y + 1;
        }
        ret
    } else if x1 > x2 {
        pass_columns(x2, y2, x1, y1)
    } else {
        pass_columns(x1, y1, x2, y2)
    }
}

impl Board {
    /// Whether no wall stands between the two positions.
    ///
    /// Two positions that touch, by a side or a corner, see each other if
    /// neither is a wall. Two others see each other if no cell that the segment
    /// between them touches is a wall.
    pub open spec fn sees(&self, x1: int, y1: int, x2: int, y2: int) -> bool {
        if mag(x1 - x2) <= 1 && mag(y1 - y2) <= 1 {
            !self.at(x1, y1).wall() && !self.at(x2, y2).wall()
        } else {
            forall|i: int|
                0 <= i < sight_line(x1, y1, x2, y2).len() ==> !self.at(
                    (#[trigger] sight_line(x1, y1, x2, y2)[i]).0,
                    sight_line(x1, y1, x2, y2)[i].1,
                ).wall()
        }
    }

    /// What a robot sees is no wall, and it stands on no wall itself.
    pub proof fn lemma_sees_open(&self, x1: int, y1: int, x2: int, y2: int)
        requires
            self.sees(x1, y1, x2, y2),
        ensures
            !self.at(x1, y1).wall(),
            !self.at(x2, y2).wall(),
    {
        lemma_sight_line_ends(x1, y1, x2, y2);
    }

    /// Two boards with the same walls give the same lines of sight.
    pub proof fn lemma_sees_same(&self, other: &Board, x1: int, y1: int, x2: int, y2: int)
        requires
            self.same_size(other),
            self.has(x1, y1),
            self.has(x2, y2),
            forall|x: int, y: int|
                self.has(x, y) ==> (#[trigger] self.at(x, y)).wall() == other.at(x, y).wall(),
        ensures
            self.sees(x1, y1, x2, y2) == other.sees(x1, y1, x2, y2),
    {
        lemma_sight_line_in_box(x1, y1, x2, y2);
        let line = sight_line(x1, y1, x2, y2);
        assert forall|i: int| 0 <= i < line.len() implies self.at(
            (#[trigger] line[i]).0,
            line[i].1,
        ).wall() == other.at(line[i].0, line[i].1).wall() by {
            assert(in_box(x1, y1, x2, y2, line[i].0, line[i].1));
            assert(self.has(line[i].0, line[i].1));
        }
    }

    /// Whether a robot at `(x1, y1)` has an unobstructed line of sight to `(x2, y2)`.
    pub fn can_see(&self, x1: i64, y1: i64, x2: i64, y2: i64) -> (b: bool)
        requires
            self.wf(),
            self.has(x1 as int, y1 as int),
            self.has(x2 as int, y2 as int),
        ensures
            b == self.sees(x1 as int, y1 as int, x2 as int, y2 as int),
    {
        let dx: i64 = if x1 >= x2 {
            x1 - x2
        } else {
            x2 - x1
        };
        let dy: i64 = if y1 >= y2 {
            y1 - y2
        } else {
            y2 - y1
        };
        if dx <= 1 && dy <= 1 {
            return !(self.get(x1, y1).is_wall() || self.get(x2, y2).is_wall());
        }
        let cells: Vec<Pos> = pass_cells(x1, y1, x2, y2);
        let ghost line = sight_line(x1 as int, y1 as int, x2 as int, y2 as int);
        let mut i: usize = 0;
        while i < cells.len()
            invariant
                self.wf(),
                self.has(x1 as int, y1 as int),
                self.has(x2 as int, y2 as int),
                i <= cells@.len(),
                !(mag(x1 - x2) <= 1 && mag(y1 - y2) <= 1),
                line == sight_line(x1 as int, y1 as int, x2 as int, y2 as int),
                as_points(cells@) == line,
                forall|k: int|
                    0 <= k < cells@.len() ==> in_box(
                        x1 as int,
                        y1 as int,
                        x2 as int,
                        y2 as int,
                        (#[trigger] cells@[k]).0 as int,
                        cells@[k].1 as int,
                    ),
                forall|k: int| 0 <= k < i ==> !self.at((#[trigger] line[k]).0, line[k].1).wall(),
            decreases cells@.len() - i,
        {
            let p: Pos = cells[i];
            assert(line[i as int] == (p.0 as int, p.1 as int));
            assert(in_box(
                x1 as int,
                y1 as int,
                x2 as int,
                y2 as int,
                cells@[i as int].0 as int,
                cells@[i as int].1 as int,
            ));
            if self.get(p.0, p.1).is_wall() {
                assert(self.at(line[i as int].0, line[i as int].1).wall());
                return false;
            }
            i = i + 1;
        }
        true
    }
}

} // verus!
