use crate::board::Pos;
use crate::raster::{
    any_crosses_upto, crosses_upto, crossings_upto, edge_crosses, even_rows, in_range,
    next_vertex, obstacle_crossings, outline_crossings, parity_ok, poly_crosses, room_crossings,
    Input,
};
use vstd::prelude::*;

verus! {

/// Whether every edge of the outline is upright or level.
pub open spec fn rectilinear(poly: Seq<Pos>) -> bool {
    &&& poly.len() >= 1
    &&& forall|i: int|
        0 <= i < poly.len() ==> (#[trigger] poly[i]).0 == next_vertex(poly, i).0 || poly[i].1
            == next_vertex(poly, i).1
}

/// Whether the `i`-th edge of the outline crosses the row `y`.
pub open spec fn edge_hits(poly: Seq<Pos>, i: int, y: int) -> bool {
    edge_crosses(poly[i], next_vertex(poly, i), y, poly[i].0 as int)
}

/// How many of the first `n` edges cross the row `y`.
pub open spec fn hits_upto(poly: Seq<Pos>, n: int, y: int) -> nat
    decreases n,
{
    if n <= 0 {
        0
    } else {
        hits_upto(poly, n - 1, y) + (if edge_hits(poly, n - 1, y) {
            1nat
        } else {
            0nat
        })
    }
}

/// How many of the first `n` edges cross the row `y` at the abscissa `x`.
pub open spec fn hits_at(poly: Seq<Pos>, n: int, y: int, x: int) -> nat
    decreases n,
{
    if n <= 0 {
        0
    } else {
        hits_at(poly, n - 1, y, x) + (if edge_crosses(
            poly[n - 1],
            next_vertex(poly, n - 1),
            y,
            x,
        ) {
            1nat
        } else {
            0nat
        })
    }
}

/// How many times the first `n` edges cross the row `y` at abscissae from 0
/// to `upto`.
pub open spec fn hits_sum(poly: Seq<Pos>, n: int, y: int, upto: int) -> nat
    decreases upto + 1,
{
    if upto < 0 {
        0
    } else {
        hits_sum(poly, n, y, upto - 1) + hits_at(poly, n, y, upto)
    }
}

/// Whether no two edges of the outline cross the row `y` at the same abscissa.
pub open spec fn simple_row(poly: Seq<Pos>, y: int) -> bool {
    forall|x: int| #[trigger] hits_at(poly, poly.len() as int, y, x) <= 1
}

/// One edge more adds its crossing to the sum, if it lies in the range.
proof fn lemma_sum_step(poly: Seq<Pos>, n: int, y: int, upto: int)
    requires
        1 <= n <= poly.len(),
    ensures
        hits_sum(poly, n, y, upto) == hits_sum(poly, n - 1, y, upto) + (if edge_hits(
            poly,
            n - 1,
            y,
        ) && 0 <= poly[n - 1].0 <= upto {
            1nat
        } else {
            0nat
        }),
    decreases upto + 1,
{
    if upto >= 0 {
        lemma_sum_step(poly, n, y, upto - 1);
    }
}

/// Where every crossing lies from 0 to `w`, the crossings summed over the
/// abscissae are as many as the edges that cross the row.
proof fn lemma_sum_is_count(poly: Seq<Pos>, n: int, y: int, w: int)
    requires
        0 <= n <= poly.len(),
        forall|x: int| #[trigger] poly_crosses(poly, y, x) ==> 0 <= x <= w,
    ensures
        hits_sum(poly, n, y, w) == hits_upto(poly, n, y),
    decreases n,
{
    if n == 0 {
        lemma_sum_none(poly, y, w);
    } else {
        lemma_sum_is_count(poly, n - 1, y, w);
        lemma_sum_step(poly, n, y, w);
        if edge_hits(poly, n - 1, y) {
            let x = poly[n - 1].0 as int;
            assert(edge_crosses(poly[n - 1], next_vertex(poly, n - 1), y, x));
            assert(crosses_upto(poly, poly.len() as int, y, x));
            assert(poly_crosses(poly, y, x));
        }
    }
}

/// No edges cross nowhere.
proof fn lemma_sum_none(poly: Seq<Pos>, y: int, upto: int)
    ensures
        hits_sum(poly, 0, y, upto) == 0,
    decreases upto + 1,
{
    if upto >= 0 {
        lemma_sum_none(poly, y, upto - 1);
    }
}

/// The row is crossed at an abscissa where at least one edge crosses it there.
proof fn lemma_crossed_where_hit(poly: Seq<Pos>, n: int, y: int, x: int)
    requires
        0 <= n <= poly.len(),
    ensures
        crosses_upto(poly, n, y, x) <==> hits_at(poly, n, y, x) >= 1,
    decreases n,
{
    if n > 0 {
        lemma_crossed_where_hit(poly, n - 1, y, x);
        if crosses_upto(poly, n, y, x) {
            let i = choose|i: int|
                0 <= i < n && edge_crosses(#[trigger] poly[i], next_vertex(poly, i), y, x);
            if i < n - 1 {
                assert(crosses_upto(poly, n - 1, y, x));
            }
        }
        if crosses_upto(poly, n - 1, y, x) {
            let i = choose|i: int|
                0 <= i < n - 1 && edge_crosses(#[trigger] poly[i], next_vertex(poly, i), y, x);
            assert(0 <= i < n);
        }
        if edge_crosses(poly[n - 1], next_vertex(poly, n - 1), y, x) {
            assert(crosses_upto(poly, n, y, x));
        }
    }
}

/// Where no two edges cross the row at the same abscissa, the abscissae at
/// which it is crossed are as many as the crossings.
proof fn lemma_crossings_are_hits(poly: Seq<Pos>, y: int, upto: int)
    requires
        simple_row(poly, y),
    ensures
        crossings_upto(outline_crossings(poly), y, upto) == hits_sum(
            poly,
            poly.len() as int,
            y,
            upto,
        ),
    decreases upto + 1,
{
    if upto >= 0 {
        lemma_crossings_are_hits(poly, y, upto - 1);
        lemma_crossed_where_hit(poly, poly.len() as int, y, upto);
        assert(hits_at(poly, poly.len() as int, y, upto) <= 1);
        assert(outline_crossings(poly)(y, upto) == poly_crosses(poly, y, upto));
    }
}

/// The vertex with the number `n`, counted round the outline.
pub open spec fn vertex(poly: Seq<Pos>, n: int) -> Pos {
    poly[n % (poly.len() as int)]
}

/// Along an outline of upright and level edges, the row is crossed an odd
/// number of times between two vertices if and only if one of them lies above
/// the row and the other does not.
proof fn lemma_sides(poly: Seq<Pos>, n: int, y: int)
    requires
        rectilinear(poly),
        0 <= n <= poly.len(),
    ensures
        (hits_upto(poly, n, y) % 2 == 1) == ((poly[0].1 > y) != (vertex(poly, n).1 > y)),
    decreases n,
{
    let len = poly.len() as int;
    if n == 0 {
        assert(0int % len == 0) by {
            vstd::arithmetic::div_mod::lemma_small_mod(0, len as nat);
        }
    } else {
        lemma_sides(poly, n - 1, y);
        let p = poly[n - 1];
        let q = next_vertex(poly, n - 1);
        assert((n - 1) % len == n - 1) by {
            vstd::arithmetic::div_mod::lemma_small_mod((n - 1) as nat, len as nat);
        }
        assert(vertex(poly, n - 1) == p);
        assert(vertex(poly, n) == q);
        assert(p.0 == q.0 || p.1 == q.1);
        assert(edge_hits(poly, n - 1, y) == ((p.1 > y) != (q.1 > y)));
    }
}

/// A closed outline of upright and level edges crosses each row an even
/// number of times, where no two of its edges cross the row at the same
/// abscissa and every crossing lies from 0 to `w`.
pub proof fn law_closed_outline_even(poly: Seq<Pos>, y: int, w: int)
    requires
        rectilinear(poly),
        simple_row(poly, y),
        forall|x: int| #[trigger] poly_crosses(poly, y, x) ==> 0 <= x <= w,
    ensures
        crossings_upto(outline_crossings(poly), y, w) % 2 == 0,
{
    let len = poly.len() as int;
    lemma_crossings_are_hits(poly, y, w);
    lemma_sum_is_count(poly, len, y, w);
    lemma_sides(poly, len, y);
    assert(len % len == 0) by {
        vstd::arithmetic::div_mod::lemma_mod_self_0(len);
    }
}

/// Where the first `n` outlines cross the rows.
pub open spec fn joint_crossings(polys: Seq<Vec<Pos>>, n: int) -> spec_fn(int, int) -> bool {
    |y: int, x: int| any_crosses_upto(polys, n, y, x)
}

/// Whether no two of the outlines cross the row `y` at the same abscissa.
pub open spec fn apart_on_row(polys: Seq<Vec<Pos>>, y: int) -> bool {
    forall|i: int, j: int, x: int|
        #![trigger poly_crosses(polys[i]@, y, x), poly_crosses(polys[j]@, y, x)]
        0 <= i < j < polys.len() ==> !(poly_crosses(polys[i]@, y, x) && poly_crosses(
            polys[j]@,
            y,
            x,
        ))
}

/// Whether the outline is a closed one that crosses the row `y` as a simple
/// outline does: its edges are upright or level, no two of them cross the row
/// at the same abscissa, and every crossing lies from 0 to `w`.
pub open spec fn closed_on_row(poly: Seq<Pos>, y: int, w: int) -> bool {
    &&& rectilinear(poly)
    &&& simple_row(poly, y)
    &&& forall|x: int| #[trigger] poly_crosses(poly, y, x) ==> 0 <= x <= w
}

/// Rows that are crossed at the same abscissae are crossed as often.
proof fn lemma_same_count(
    a: spec_fn(int, int) -> bool,
    b: spec_fn(int, int) -> bool,
    y: int,
    upto: int,
)
    requires
        forall|x: int| #[trigger] a(y, x) == b(y, x),
    ensures
        crossings_upto(a, y, upto) == crossings_upto(b, y, upto),
    decreases upto + 1,
{
    if upto >= 0 {
        lemma_same_count(a, b, y, upto - 1);
        assert(a(y, upto) == b(y, upto));
    }
}

/// A row that is crossed where one of two outlines crosses it, and nowhere by
/// both, is crossed as often as by the one and by the other together.
proof fn lemma_joint_count(
    a: spec_fn(int, int) -> bool,
    b: spec_fn(int, int) -> bool,
    c: spec_fn(int, int) -> bool,
    y: int,
    upto: int,
)
    requires
        forall|x: int| #[trigger] c(y, x) == (a(y, x) || b(y, x)),
        forall|x: int| !(#[trigger] a(y, x) && b(y, x)),
    ensures
        crossings_upto(c, y, upto) == crossings_upto(a, y, upto) + crossings_upto(b, y, upto),
    decreases upto + 1,
{
    if upto >= 0 {
        lemma_joint_count(a, b, c, y, upto - 1);
        assert(c(y, upto) == (a(y, upto) || b(y, upto)));
        assert(!(a(y, upto) && b(y, upto)));
    }
}

/// The first `n` of some closed outlines that lie apart cross a row an even
/// number of times together.
proof fn lemma_joint_even(polys: Seq<Vec<Pos>>, n: int, y: int, w: int)
    requires
        0 <= n <= polys.len(),
        forall|j: int| 0 <= j < polys.len() ==> closed_on_row((#[trigger] polys[j])@, y, w),
        apart_on_row(polys, y),
    ensures
        crossings_upto(joint_crossings(polys, n), y, w) % 2 == 0,
    decreases n,
{
    if n == 0 {
        lemma_none_crossed(polys, y, w);
    } else {
        lemma_joint_even(polys, n - 1, y, w);
        let a = joint_crossings(polys, n - 1);
        let b = outline_crossings(polys[n - 1]@);
        let c = joint_crossings(polys, n);
        assert(closed_on_row(polys[n - 1]@, y, w));
        law_closed_outline_even(polys[n - 1]@, y, w);
        assert forall|x: int| #[trigger] c(y, x) == (a(y, x) || b(y, x)) by {
            if c(y, x) {
                let j = choose|j: int| 0 <= j < n && poly_crosses((#[trigger] polys[j])@, y, x);
                if j < n - 1 {
                    assert(any_crosses_upto(polys, n - 1, y, x));
                }
            }
            if a(y, x) {
                let j = choose|j: int| 0 <= j < n - 1 && poly_crosses((#[trigger] polys[j])@, y, x);
                assert(0 <= j < n && poly_crosses(polys[j]@, y, x));
            }
            if b(y, x) {
                assert(poly_crosses(polys[n - 1]@, y, x));
                assert(any_crosses_upto(polys, n, y, x));
            }
        }
        assert forall|x: int| !(#[trigger] a(y, x) && b(y, x)) by {
            if a(y, x) && b(y, x) {
                let j = choose|j: int| 0 <= j < n - 1 && poly_crosses((#[trigger] polys[j])@, y, x);
                assert(poly_crosses(polys[j]@, y, x) && poly_crosses(polys[n - 1]@, y, x));
            }
        }
        lemma_joint_count(a, b, c, y, w);
    }
}

/// No outlines cross no row.
proof fn lemma_none_crossed(polys: Seq<Vec<Pos>>, y: int, upto: int)
    ensures
        crossings_upto(joint_crossings(polys, 0), y, upto) == 0,
    decreases upto + 1,
{
    if upto >= 0 {
        lemma_none_crossed(polys, y, upto - 1);
        assert(!any_crosses_upto(polys, 0, y, upto));
    }
}

/// Whether the task is one of closed outlines on a board of `w` by `h`
/// cells: on each row of the board the outline of the room and the outline of
/// each obstacle is closed, and no two obstacles cross the row at the same
/// abscissa.
pub open spec fn closed_task(input: &Input, w: int, h: int) -> bool {
    forall|y: int|
        0 <= y < h ==> {
            &&& #[trigger] closed_on_row(input.map@, y, w)
            &&& forall|j: int|
                0 <= j < input.obstacles@.len() ==> closed_on_row(
                    (#[trigger] input.obstacles@[j])@,
                    y,
                    w,
                )
            &&& apart_on_row(input.obstacles@, y)
        }
}

/// A task of closed outlines crosses every row of its board an even number of
/// times: the outline of the room does, and the outlines of the obstacles
/// together do. A board can be made of such a task if its size and its
/// boosters allow.
pub proof fn law_closed_task_even(input: &Input, w: int, h: int)
    requires
        closed_task(input, w, h),
    ensures
        parity_ok(input, w, h),
        in_range(room_crossings(input), w, h),
        in_range(obstacle_crossings(input), w, h),
{
    let polys = input.obstacles@;
    let n = polys.len() as int;
    assert forall|y: int| 0 <= y < h implies #[trigger] crossings_upto(
        room_crossings(input),
        y,
        w,
    ) % 2 == 0 by {
        assert(closed_on_row(input.map@, y, w));
        law_closed_outline_even(input.map@, y, w);
    }
    assert forall|y: int| 0 <= y < h implies #[trigger] crossings_upto(
        obstacle_crossings(input),
        y,
        w,
    ) % 2 == 0 by {
        assert(closed_on_row(input.map@, y, w));
        lemma_joint_even(polys, n, y, w);
        assert forall|x: int| #[trigger]
            obstacle_crossings(input)(y, x) == joint_crossings(polys, n)(y, x) by {}
        lemma_same_count(obstacle_crossings(input), joint_crossings(polys, n), y, w);
    }
    assert(even_rows(room_crossings(input), w, h));
    assert(even_rows(obstacle_crossings(input), w, h));
    assert forall|y: int, x: int| 0 <= y < h && #[trigger] room_crossings(input)(y, x) implies 0
        <= x <= w by {
        assert(closed_on_row(input.map@, y, w));
        assert(poly_crosses(input.map@, y, x));
    }
    assert forall|y: int, x: int|
        0 <= y < h && #[trigger] obstacle_crossings(input)(y, x) implies 0 <= x <= w by {
        assert(closed_on_row(input.map@, y, w));
        let j = choose|j: int| 0 <= j < n && poly_crosses((#[trigger] polys[j])@, y, x);
        assert(closed_on_row(polys[j]@, y, w));
    }
}

} // verus!
