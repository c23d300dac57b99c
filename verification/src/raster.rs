use crate::board::{lemma_flat, Board, Pos, MAX_SIDE};
use crate::cell::{Booster, Cell};
use crate::sorted::{insert_number, rising};
use vstd::prelude::*;

verus! {

/// A task: the outline of the room, where the robot starts, the obstacles in
/// the room and the boosters that lie in it.
pub struct Input {
    pub map: Vec<Pos>,
    pub init_pos: Pos,
    pub obstacles: Vec<Vec<Pos>>,
    pub boosters: Vec<(Booster, Pos)>,
}

/// Why no board could be made.
#[derive(Debug, Clone, Copy, PartialEq, Eq, Structural)]
pub enum MapError {
    /// The board would have no cell, a side longer than `MAX_SIDE`, or more
    /// cells than can be counted.
    BadSize,
    /// An outline crosses a row of the board outside it, or a booster lies
    /// outside the board.
    OutOfRange,
    /// An outline crosses a row an odd number of times: it is not closed.
    OddCrossings,
}

/// The smaller of two integers.
pub open spec fn least(a: int, b: int) -> int {
    if a <= b {
        a
    } else {
        b
    }
}

/// The larger of two integers.
pub open spec fn most(a: int, b: int) -> int {
    if a >= b {
        a
    } else {
        b
    }
}

/// Whether the edge from `p` to `q` is upright and crosses the row `y` at the
/// abscissa `x`: it stands at `x` and the row lies between its ends, the lower
/// end counted in.
pub open spec fn edge_crosses(p: Pos, q: Pos, y: int, x: int) -> bool {
    p.0 == q.0 && p.0 == x && least(p.1 as int, q.1 as int) <= y < most(p.1 as int, q.1 as int)
}

/// The vertex after the `i`-th, round the outline.
pub open spec fn next_vertex(poly: Seq<Pos>, i: int) -> Pos {
    poly[(i + 1) % (poly.len() as int)]
}

/// Whether one of the first `n` edges of the outline crosses the row `y` at `x`.
pub open spec fn crosses_upto(poly: Seq<Pos>, n: int, y: int, x: int) -> bool {
    exists|i: int| 0 <= i < n && edge_crosses(#[trigger] poly[i], next_vertex(poly, i), y, x)
}

/// Whether the outline crosses the row `y` at `x`.
pub open spec fn poly_crosses(poly: Seq<Pos>, y: int, x: int) -> bool {
    crosses_upto(poly, poly.len() as int, y, x)
}

/// Whether one of the first `n` outlines crosses the row `y` at `x`.
pub open spec fn any_crosses_upto(polys: Seq<Vec<Pos>>, n: int, y: int, x: int) -> bool {
    exists|j: int| 0 <= j < n && poly_crosses((#[trigger] polys[j])@, y, x)
}

/// Where an outline crosses the rows.
pub open spec fn outline_crossings(poly: Seq<Pos>) -> spec_fn(int, int) -> bool {
    |y: int, x: int| poly_crosses(poly, y, x)
}

/// Where the outline of the room crosses the rows.
pub open spec fn room_crossings(input: &Input) -> spec_fn(int, int) -> bool {
    outline_crossings(input.map@)
}

/// Where the outlines of the obstacles cross the rows.
pub open spec fn obstacle_crossings(input: &Input) -> spec_fn(int, int) -> bool {
    |y: int, x: int| any_crosses_upto(input.obstacles@, input.obstacles@.len() as int, y, x)
}

/// At how many abscissae from 0 to `x` the row `y` is crossed.
pub open spec fn crossings_upto(cross: spec_fn(int, int) -> bool, y: int, x: int) -> nat
    decreases x + 1,
{
    if x < 0 {
        0
    } else {
        crossings_upto(cross, y, x - 1) + (if cross(y, x) {
            1nat
        } else {
            0nat
        })
    }
}

/// Whether the cell `(x, y)` lies inside the outlines: the row is crossed an
/// odd number of times up to the cell.
pub open spec fn inside(cross: spec_fn(int, int) -> bool, y: int, x: int) -> bool {
    crossings_upto(cross, y, x) % 2 == 1
}

/// Whether every crossing of a row of the board lies from 0 to `w`.
pub open spec fn in_range(cross: spec_fn(int, int) -> bool, w: int, h: int) -> bool {
    forall|y: int, x: int| 0 <= y < h && #[trigger] cross(y, x) ==> 0 <= x <= w
}

/// Whether every row of the board is crossed an even number of times.
pub open spec fn even_rows(cross: spec_fn(int, int) -> bool, w: int, h: int) -> bool {
    forall|y: int| 0 <= y < h ==> #[trigger] crossings_upto(cross, y, w) % 2 == 0
}

/// Whether every booster lies on the board.
pub open spec fn boosters_on(b: Seq<(Booster, Pos)>, w: int, h: int) -> bool {
    forall|i: int| 0 <= i < b.len() ==> 0 <= (#[trigger] b[i]).1.0 < w && 0 <= b[i].1.1 < h
}

/// The code of the item that the first `n` boosters leave on the cell
/// `(x, y)`: that of the last of them that lies there, 0 if none does.
pub open spec fn stamped(b: Seq<(Booster, Pos)>, n: int, x: int, y: int) -> int
    decreases n,
{
    if n <= 0 {
        0
    } else if b[n - 1].1.0 == x && b[n - 1].1.1 == y {
        b[n - 1].0.code()
    } else {
        stamped(b, n - 1, x, y)
    }
}

/// Whether a board of `w` by `h` cells can be made.
pub open spec fn size_ok(w: int, h: int) -> bool {
    1 <= w <= MAX_SIDE && 1 <= h <= MAX_SIDE && w * h <= usize::MAX
}

/// Whether the outlines and the boosters of the task fit a board of `w` by `h`.
pub open spec fn range_ok(input: &Input, w: int, h: int) -> bool {
    in_range(room_crossings(input), w, h) && in_range(obstacle_crossings(input), w, h)
        && boosters_on(input.boosters@, w, h)
}

/// Whether the outlines of the task cross every row an even number of times.
pub open spec fn parity_ok(input: &Input, w: int, h: int) -> bool {
    even_rows(room_crossings(input), w, h) && even_rows(obstacle_crossings(input), w, h)
}

/// Whether `bd` is the board of the task: a cell is open if it lies inside the
/// outline of the room and outside the obstacles, and a wall if not; it holds
/// the item that the boosters leave on it and is neither painted nor reserved,
/// no portal lies on it, and no other bit of it is set.
pub open spec fn is_map(bd: &Board, input: &Input, w: int, h: int) -> bool {
    &&& bd.wf()
    &&& bd.w == w
    &&& bd.h == h
    &&& forall|x: int, y: int|
        0 <= x < w && 0 <= y < h ==> {
            let c = #[trigger] bd.at(x, y);
            &&& c.wall() == !(inside(room_crossings(input), y, x) && !inside(
                obstacle_crossings(input),
                y,
                x,
            ))
            &&& !c.painted()
            &&& !c.portal()
            &&& !c.spare()
            &&& c.owner_code() == 0
            &&& c.item_code() == stamped(input.boosters@, input.boosters@.len() as int, x, y)
        }
}

/// The board of a room is determined by the room: two boards that are maps
/// of the same room hold the same cells.
pub proof fn law_map_is_one(a: &Board, b: &Board, input: &Input, w: int, h: int)
    requires
        is_map(a, input, w, h),
        is_map(b, input, w, h),
    ensures
        a.cells@ == b.cells@,
{
    assert forall|k: int| 0 <= k < a.cells@.len() implies a.cells@[k] == b.cells@[k] by {
        crate::board::lemma_unflat(w, h, k);
        let x = k % w;
        let y = k / w;
        assert(a.at(x, y) == a.cells@[k]);
        assert(b.at(x, y) == b.cells@[k]);
        crate::cell::lemma_same_cell(a.at(x, y), b.at(x, y));
    }
    assert(a.cells@ =~= b.cells@);
}

/// Adds to a rising list the abscissae at which the outline crosses the row `y`.
fn add_crossings(poly: &Vec<Pos>, y: i64, ss: &mut Vec<i64>)
    requires
        rising(old(ss)@),
    ensures
        rising(final(ss)@),
        forall|x: i64|
            final(ss)@.contains(x) <==> old(ss)@.contains(x) || poly_crosses(
                poly@,
                y as int,
                x as int,
            ),
{
    let n: usize = poly.len();
    let mut i: usize = 0;
    while i < n
        invariant
            i <= n,
            n == poly@.len(),
            rising(ss@),
            forall|x: i64|
                ss@.contains(x) <==> old(ss)@.contains(x) || crosses_upto(
                    poly@,
                    i as int,
                    y as int,
                    x as int,
                ),
        decreases n - i,
    {
        let p: Pos = poly[i];
        let q: Pos = poly[(i + 1) % n];
        let ghost before: Seq<i64> = ss@;
        let mut hit: bool = false;
        if p.0 == q.0 {
            let lo: i64 = if p.1 <= q.1 {
                p.1
            } else {
                q.1
            };
            let hi: i64 = if p.1 >= q.1 {
                p.1
            } else {
                q.1
            };
            if lo <= y && y < hi {
                hit = true;
                insert_number(ss, p.0);
            }
        }
        proof {
            assert(q == next_vertex(poly@, i as int));
            assert(hit == edge_crosses(p, q, y as int, p.0 as int));
            assert forall|x: i64|
                ss@.contains(x) <==> old(ss)@.contains(x) || crosses_upto(
                    poly@,
                    i + 1,
                    y as int,
                    x as int,
                ) by {
                if crosses_upto(poly@, i + 1, y as int, x as int) {
                    let k = choose|k: int|
                        0 <= k < i + 1 && edge_crosses(
                            #[trigger] poly@[k],
                            next_vertex(poly@, k),
                            y as int,
                            x as int,
                        );
                    if k < i {
                        assert(crosses_upto(poly@, i as int, y as int, x as int));
                    }
                }
                if crosses_upto(poly@, i as int, y as int, x as int) {
                    let k = choose|k: int|
                        0 <= k < i && edge_crosses(
                            #[trigger] poly@[k],
                            next_vertex(poly@, k),
                            y as int,
                            x as int,
                        );
                    assert(0 <= k < i + 1);
                }
                if hit && x == p.0 {
                    assert(edge_crosses(poly@[i as int], next_vertex(poly@, i as int), y as int, x as int));
                }
            }
        }
        i = i + 1;
    }
}

/// Whether every crossing of the outline with a row of the board lies from 0
/// to `w`.
fn poly_in_range(poly: &Vec<Pos>, w: i64, h: i64) -> (b: bool)
    requires
        0 <= w,
        0 <= h,
    ensures
        b == (forall|y: int, x: int|
            0 <= y < h && #[trigger] poly_crosses(poly@, y, x) ==> 0 <= x <= w),
{
    let n: usize = poly.len();
    let mut i: usize = 0;
    while i < n
        invariant
            i <= n,
            n == poly@.len(),
            0 <= w,
            0 <= h,
            forall|y: int, x: int|
                0 <= y < h && #[trigger] crosses_upto(poly@, i as int, y, x) ==> 0 <= x <= w,
        decreases n - i,
    {
        let p: Pos = poly[i];
        let q: Pos = poly[(i + 1) % n];
        assert(q == next_vertex(poly@, i as int));
        if p.0 == q.0 {
            let lo: i64 = if p.1 <= q.1 {
                p.1
            } else {
                q.1
            };
            let hi: i64 = if p.1 >= q.1 {
                p.1
            } else {
                q.1
            };
            let from: i64 = if lo >= 0 {
                lo
            } else {
                0
            };
            let to: i64 = if hi <= h {
                hi
            } else {
                h
            };
            if from < to && (p.0 < 0 || p.0 > w) {
                proof {
                    assert(edge_crosses(
                        poly@[i as int],
                        next_vertex(poly@, i as int),
                        from as int,
                        p.0 as int,
                    ));
                    assert(crosses_upto(poly@, n as int, from as int, p.0 as int));
                    assert(poly_crosses(poly@, from as int, p.0 as int));
                }
                return false;
            }
        }
        proof {
            assert forall|y: int, x: int|
                0 <= y < h && #[trigger] crosses_upto(poly@, i + 1, y, x) implies 0 <= x <= w by {
                let k = choose|k: int|
                    0 <= k < i + 1 && edge_crosses(#[trigger] poly@[k], next_vertex(poly@, k), y, x);
                if k < i {
                    assert(crosses_upto(poly@, i as int, y, x));
                }
            }
        }
        i = i + 1;
    }
    true
}

/// Goes along the row `y` of the board and puts `fill` on each cell that lies
/// inside the outlines, whose crossings with the row `ss` holds. Returns the
/// number of crossings.
fn fill_row(bd: &mut Board, y: i64, ss: &Vec<i64>, fill: Cell, Ghost(cross): Ghost<
    spec_fn(int, int) -> bool,
>) -> (total: usize)
    requires
        old(bd).wf(),
        0 <= y < old(bd).h,
        rising(ss@),
        forall|x: i64| #[trigger] ss@.contains(x) <==> cross(y as int, x as int),
        forall|x: int| #[trigger] cross(y as int, x) ==> 0 <= x <= old(bd).w,
    ensures
        final(bd).wf(),
        final(bd).same_size(old(bd)),
        total == crossings_upto(cross, y as int, old(bd).w as int),
        total == ss@.len(),
        forall|cx: int, cy: int|
            old(bd).has(cx, cy) ==> #[trigger] final(bd).at(cx, cy) == (if cy == y && inside(
                cross,
                y as int,
                cx,
            ) {
                fill
            } else {
                old(bd).at(cx, cy)
            }),
{
    let w: i64 = bd.width();
    let mut k: usize = 0;
    let mut x: i64 = 0;
    proof {
        assert forall|j: int| 0 <= j < ss@.len() implies (#[trigger] ss@[j]) >= 0 by {
            assert(ss@.contains(ss@[j]));
        }
    }
    while x < w
        invariant
            0 <= x <= w,
            w == old(bd).w,
            bd.wf(),
            bd.same_size(old(bd)),
            0 <= y < bd.h,
            rising(ss@),
            forall|v: i64| #[trigger] ss@.contains(v) <==> cross(y as int, v as int),
            forall|v: int| #[trigger] cross(y as int, v) ==> 0 <= v <= w,
            k <= ss@.len(),
            k == crossings_upto(cross, y as int, x - 1),
            forall|j: int| 0 <= j < k ==> (#[trigger] ss@[j]) < x,
            forall|j: int| k <= j < ss@.len() ==> (#[trigger] ss@[j]) >= x,
            forall|cx: int, cy: int|
                old(bd).has(cx, cy) ==> #[trigger] bd.at(cx, cy) == (if cy == y && cx < x
                    && inside(cross, y as int, cx) {
                    fill
                } else {
                    old(bd).at(cx, cy)
                }),
        decreases w - x,
    {
        if k < ss.len() && ss[k] == x {
            assert(ss@.contains(ss@[k as int]));
            k = k + 1;
            proof {
                assert forall|j: int| k <= j < ss@.len() implies (#[trigger] ss@[j]) >= x + 1 by {
                    assert(ss@[k - 1] < ss@[j]);
                }
            }
        } else {
            proof {
                if cross(y as int, x as int) {
                    assert(ss@.contains(x));
                    let j = choose|j: int| 0 <= j < ss@.len() && ss@[j] == x;
                    assert(j >= k);
                    if j > k {
                        assert(ss@[k as int] < ss@[j]);
                    }
                }
            }
        }
        if k % 2 == 1 {
            bd.set(x, y, fill);
        }
        x = x + 1;
    }
    // a crossing at the right edge of the board
    if k < ss.len() && ss[k] == w {
        assert(ss@.contains(ss@[k as int]));
        k = k + 1;
    } else {
        proof {
            if cross(y as int, w as int) {
                assert(ss@.contains(w));
                let j = choose|j: int| 0 <= j < ss@.len() && ss@[j] == w;
                if j > k {
                    assert(ss@[k as int] < ss@[j]);
                }
            }
        }
    }
    proof {
        if k < ss@.len() {
            assert(ss@.contains(ss@[k as int]));
            if k > 0 {
                assert(ss@[k - 1] < ss@[k as int]);
            }
        }
    }
    k
}

/// Whether a board of `w` by `h` cells can be made of the task: the size is
/// one that a board can have, every corner and every booster lies in its
/// range, and the outline of the room and the outlines of the obstacles cross
/// each row an even number of times.
pub open spec fn buildable(input: &Input, w: int, h: int) -> bool {
    size_ok(w, h) && range_ok(input, w, h) && parity_ok(input, w, h)
}

/// Why no board of `w` by `h` cells can be made of the task; nothing, where
/// one can be made. A size that no board can have is named first, then a
/// corner or a booster out of range, then a row that is crossed an odd number
/// of times.
pub fn map_fault(input: &Input, w: i64, h: i64) -> (r: Option<MapError>)
    ensures
        match r {
            None => buildable(input, w as int, h as int),
            Some(MapError::BadSize) => !size_ok(w as int, h as int),
            Some(MapError::OutOfRange) => size_ok(w as int, h as int) && !range_ok(
                input,
                w as int,
                h as int,
            ),
            Some(MapError::OddCrossings) => size_ok(w as int, h as int) && range_ok(
                input,
                w as int,
                h as int,
            ) && !parity_ok(input, w as int, h as int),
        },
{
    match try_build(input, w, h) {
        Ok(_) => None,
        Err(e) => Some(e),
    }
}

/// The board of the task, `w` cells wide and `h` cells high.
///
/// Row by row the outline of the room opens the cells that lie inside it, and
/// the outlines of the obstacles close those that lie inside them again. A
/// cell lies inside where the outlines cross its row an odd number of times
/// up to it; crossings at the same abscissa count once. Then each booster is
/// put on its cell.
///
/// A task of which no board can be made is no input: an outline that crosses
/// a row an odd number of times is not closed, and nothing can be made of it.
pub fn build_map(input: &Input, w: i64, h: i64) -> (bd: Board)
    requires
        buildable(input, w as int, h as int),
    ensures
        is_map(&bd, input, w as int, h as int),
        bd.clean(),
{
    match try_build(input, w, h) {
        Ok(bd) => bd,
        Err(_) => vstd::pervasive::unreached(),
    }
}

/// Makes the board of the task, or says why none can be made.
fn try_build(input: &Input, w: i64, h: i64) -> (r: Result<Board, MapError>)
    ensures
        match r {
            Ok(bd) => size_ok(w as int, h as int) && range_ok(input, w as int, h as int)
                && parity_ok(input, w as int, h as int) && is_map(&bd, input, w as int, h as int)
                && bd.clean(),
            Err(MapError::BadSize) => !size_ok(w as int, h as int),
            Err(MapError::OutOfRange) => size_ok(w as int, h as int) && !range_ok(
                input,
                w as int,
                h as int,
            ),
            Err(MapError::OddCrossings) => size_ok(w as int, h as int) && range_ok(
                input,
                w as int,
                h as int,
            ) && !parity_ok(input, w as int, h as int),
        },
{
    if w < 1 || h < 1 || w > MAX_SIDE as i64 || h > MAX_SIDE as i64 {
        return Err(MapError::BadSize);
    }
    let mut bd: Board = match Board::walls(w as usize, h as usize) {
        Some(b) => b,
        None => {
            return Err(MapError::BadSize);
        },
    };
    let ghost rc = room_crossings(input);
    let ghost oc = obstacle_crossings(input);
    // everything has to fit the board
    if !poly_in_range(&input.map, w, h) {
        proof {
            let (y, x) = choose|y: int, x: int|
                0 <= y < h && #[trigger] poly_crosses(input.map@, y, x) && !(0 <= x <= w);
            assert(rc(y, x));
        }
        return Err(MapError::OutOfRange);
    }
    assert(in_range(rc, w as int, h as int));
    let mut j: usize = 0;
    while j < input.obstacles.len()
        invariant
            j <= input.obstacles@.len(),
            0 <= w,
            0 <= h,
            size_ok(w as int, h as int),
            oc == obstacle_crossings(input),
            forall|y: int, x: int|
                0 <= y < h && #[trigger] any_crosses_upto(input.obstacles@, j as int, y, x) ==> 0
                    <= x <= w,
        decreases input.obstacles@.len() - j,
    {
        if !poly_in_range(&input.obstacles[j], w, h) {
            proof {
                let (y, x) = choose|y: int, x: int|
                    0 <= y < h && #[trigger] poly_crosses(input.obstacles@[j as int]@, y, x) && !(0
                        <= x <= w);
                assert(poly_crosses(input.obstacles@[j as int]@, y, x));
                assert(any_crosses_upto(
                    input.obstacles@,
                    input.obstacles@.len() as int,
                    y,
                    x,
                ));
                assert(oc(y, x));
                assert(!in_range(oc, w as int, h as int));
            }
            return Err(MapError::OutOfRange);
        }
        proof {
            assert forall|y: int, x: int|
                0 <= y < h && #[trigger] any_crosses_upto(
                    input.obstacles@,
                    j + 1,
                    y,
                    x,
                ) implies 0 <= x <= w by {
                let k = choose|k: int|
                    0 <= k < j + 1 && poly_crosses((#[trigger] input.obstacles@[k])@, y, x);
                if k < j {
                    assert(any_crosses_upto(input.obstacles@, j as int, y, x));
                }
            }
        }
        j = j + 1;
    }
    proof {
        assert forall|y: int, x: int| 0 <= y < h && #[trigger] oc(y, x) implies 0 <= x <= w by {
            assert(any_crosses_upto(input.obstacles@, input.obstacles@.len() as int, y, x));
        }
    }
    let mut b: usize = 0;
    while b < input.boosters.len()
        invariant
            b <= input.boosters@.len(),
            size_ok(w as int, h as int),
            forall|i: int|
                0 <= i < b ==> 0 <= (#[trigger] input.boosters@[i]).1.0 < w && 0
                    <= input.boosters@[i].1.1 < h,
        decreases input.boosters@.len() - b,
    {
        let p: Pos = input.boosters[b].1;
        if p.0 < 0 || p.0 >= w || p.1 < 0 || p.1 >= h {
            assert(!boosters_on(input.boosters@, w as int, h as int));
            return Err(MapError::OutOfRange);
        }
        b = b + 1;
    }
    assert(range_ok(input, w as int, h as int));
    proof {
        assert forall|cx: int, cy: int| 0 <= cx < w && 0 <= cy < h implies (#[trigger] bd.at(
            cx,
            cy,
        )).0 == 1u16 by {
            lemma_flat(w as int, h as int, cx, cy);
        }
    }
    // the room
    let mut y: i64 = 0;
    while y < h
        invariant
            0 <= y <= h,
            bd.wf(),
            bd.w == w,
            bd.h == h,
            size_ok(w as int, h as int),
            range_ok(input, w as int, h as int),
            rc == room_crossings(input),
            in_range(rc, w as int, h as int),
            forall|yy: int| 0 <= yy < y ==> #[trigger] crossings_upto(rc, yy, w as int) % 2 == 0,
            forall|cx: int, cy: int|
                0 <= cx < w && 0 <= cy < h ==> (#[trigger] bd.at(cx, cy)).0 == (if cy < y
                    && inside(rc, cy, cx) {
                    0u16
                } else {
                    1u16
                }),
        decreases h - y,
    {
        let mut ss: Vec<i64> = Vec::new();
        add_crossings(&input.map, y, &mut ss);
        proof {
            assert forall|x: i64| #[trigger] ss@.contains(x) <==> rc(y as int, x as int) by {}
            assert forall|x: int| #[trigger] rc(y as int, x) implies 0 <= x <= w by {}
        }
        let total: usize = fill_row(&mut bd, y, &ss, Cell::new_empty(), Ghost(rc));
        if total % 2 != 0 {
            assert(crossings_upto(rc, y as int, w as int) % 2 != 0);
            assert(!even_rows(rc, w as int, h as int));
            return Err(MapError::OddCrossings);
        }
        y = y + 1;
    }
    // the obstacles
    let mut y: i64 = 0;
    while y < h
        invariant
            0 <= y <= h,
            bd.wf(),
            bd.w == w,
            bd.h == h,
            size_ok(w as int, h as int),
            range_ok(input, w as int, h as int),
            rc == room_crossings(input),
            oc == obstacle_crossings(input),
            in_range(oc, w as int, h as int),
            even_rows(rc, w as int, h as int),
            forall|yy: int| 0 <= yy < y ==> #[trigger] crossings_upto(oc, yy, w as int) % 2 == 0,
            forall|cx: int, cy: int|
                0 <= cx < w && 0 <= cy < h ==> (#[trigger] bd.at(cx, cy)).0 == (if inside(
                    rc,
                    cy,
                    cx,
                ) && !(cy < y && inside(oc, cy, cx)) {
                    0u16
                } else {
                    1u16
                }),
        decreases h - y,
    {
        let mut ss: Vec<i64> = Vec::new();
        let mut j: usize = 0;
        while j < input.obstacles.len()
            invariant
                j <= input.obstacles@.len(),
                rising(ss@),
                forall|x: i64|
                    ss@.contains(x) <==> any_crosses_upto(
                        input.obstacles@,
                        j as int,
                        y as int,
                        x as int,
                    ),
            decreases input.obstacles@.len() - j,
        {
            let ghost before: Seq<i64> = ss@;
            add_crossings(&input.obstacles[j], y, &mut ss);
            proof {
                assert forall|x: i64|
                    ss@.contains(x) <==> any_crosses_upto(
                        input.obstacles@,
                        j + 1,
                        y as int,
                        x as int,
                    ) by {
                    if any_crosses_upto(input.obstacles@, j + 1, y as int, x as int) {
                        let k = choose|k: int|
                            0 <= k < j + 1 && poly_crosses(
                                (#[trigger] input.obstacles@[k])@,
                                y as int,
                                x as int,
                            );
                        if k < j {
                            assert(any_crosses_upto(
                                input.obstacles@,
                                j as int,
                                y as int,
                                x as int,
                            ));
                        }
                    }
                    if any_crosses_upto(input.obstacles@, j as int, y as int, x as int) {
                        let k = choose|k: int|
                            0 <= k < j && poly_crosses(
                                (#[trigger] input.obstacles@[k])@,
                                y as int,
                                x as int,
                            );
                        assert(0 <= k < j + 1);
                    }
                    if poly_crosses(input.obstacles@[j as int]@, y as int, x as int) {
                        assert(any_crosses_upto(
                            input.obstacles@,
                            j + 1,
                            y as int,
                            x as int,
                        ));
                    }
                }
            }
            j = j + 1;
        }
        proof {
            assert forall|x: i64| #[trigger] ss@.contains(x) <==> oc(y as int, x as int) by {}
            assert forall|x: int| #[trigger] oc(y as int, x) implies 0 <= x <= w by {}
        }
        let total: usize = fill_row(&mut bd, y, &ss, Cell::new_wall(), Ghost(oc));
        if total % 2 != 0 {
            assert(crossings_upto(oc, y as int, w as int) % 2 != 0);
            assert(!even_rows(oc, w as int, h as int));
            return Err(MapError::OddCrossings);
        }
        y = y + 1;
    }
    // the boosters
    let mut b: usize = 0;
    proof {
        assert forall|cx: int, cy: int| 0 <= cx < w && 0 <= cy < h implies ({
            let c = #[trigger] bd.at(cx, cy);
            &&& c.wall() == !(inside(rc, cy, cx) && !inside(oc, cy, cx))
            &&& !c.painted()
            &&& !c.portal()
            &&& !c.spare()
            &&& c.owner_code() == 0
            &&& c.item_code() == 0
        }) by {
            crate::cell::lemma_plain_cells();
            let c = bd.at(cx, cy);
            assert(c == Cell(0) || c == Cell(1));
        }
    }
    while b < input.boosters.len()
        invariant
            b <= input.boosters@.len(),
            bd.wf(),
            bd.w == w,
            bd.h == h,
            boosters_on(input.boosters@, w as int, h as int),
            forall|cx: int, cy: int|
                0 <= cx < w && 0 <= cy < h ==> {
                    let c = #[trigger] bd.at(cx, cy);
                    &&& c.wall() == !(inside(rc, cy, cx) && !inside(oc, cy, cx))
                    &&& !c.painted()
                    &&& !c.portal()
                    &&& !c.spare()
                    &&& c.owner_code() == 0
                    &&& c.item_code() == stamped(input.boosters@, b as int, cx, cy)
                },
        decreases input.boosters@.len() - b,
    {
        let typ: Booster = input.boosters[b].0;
        let p: Pos = input.boosters[b].1;
        let mut c: Cell = bd.get(p.0, p.1);
        c.set_item(Some(typ));
        bd.set(p.0, p.1, c);
        b = b + 1;
    }
    proof {
        assert forall|k: int| 0 <= k < bd.cells@.len() implies (#[trigger] bd.cells@[k]).tidy(
            0,
        ) by {
            crate::board::lemma_unflat(w as int, h as int, k);
            let cx = k % (w as int);
            let cy = k / (w as int);
            assert(bd.at(cx, cy) == bd.cells@[k]);
            lemma_stamped_code(input.boosters@, input.boosters@.len() as int, cx, cy);
        }
    }
    Ok(bd)
}

/// What the boosters leave on a cell is the code of a booster, or nothing.
pub proof fn lemma_stamped_code(b: Seq<(Booster, Pos)>, n: int, x: int, y: int)
    ensures
        0 <= stamped(b, n, x, y) <= 6,
    decreases n,
{
    if n > 0 {
        lemma_stamped_code(b, n - 1, x, y);
    }
}

} // verus!
