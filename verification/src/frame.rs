use crate::board::Pos;
use crate::cell::Booster;
use crate::raster::{least, most, Input};
use vstd::prelude::*;

verus! {

/// The smallest abscissa of the points.
pub open spec fn low_x(s: Seq<Pos>) -> int
    decreases s.len(),
{
    if s.len() <= 1 {
        s[0].0 as int
    } else {
        least(low_x(s.drop_last()), s.last().0 as int)
    }
}

/// The smallest ordinate of the points.
pub open spec fn low_y(s: Seq<Pos>) -> int
    decreases s.len(),
{
    if s.len() <= 1 {
        s[0].1 as int
    } else {
        least(low_y(s.drop_last()), s.last().1 as int)
    }
}

/// The largest abscissa of the points.
pub open spec fn high_x(s: Seq<Pos>) -> int
    decreases s.len(),
{
    if s.len() <= 1 {
        s[0].0 as int
    } else {
        most(high_x(s.drop_last()), s.last().0 as int)
    }
}

/// The largest ordinate of the points.
pub open spec fn high_y(s: Seq<Pos>) -> int
    decreases s.len(),
{
    if s.len() <= 1 {
        s[0].1 as int
    } else {
        most(high_y(s.drop_last()), s.last().1 as int)
    }
}

/// Each point lies in the box between the smallest and the largest abscissa
/// and ordinate, and the box is no larger than that.
pub proof fn lemma_box(s: Seq<Pos>)
    requires
        s.len() >= 1,
    ensures
        forall|i: int|
            0 <= i < s.len() ==> low_x(s) <= (#[trigger] s[i]).0 <= high_x(s) && low_y(s) <= s[i].1
                <= high_y(s),
        exists|i: int| 0 <= i < s.len() && (#[trigger] s[i]).0 == low_x(s),
        exists|i: int| 0 <= i < s.len() && (#[trigger] s[i]).1 == low_y(s),
        exists|i: int| 0 <= i < s.len() && (#[trigger] s[i]).0 == high_x(s),
        exists|i: int| 0 <= i < s.len() && (#[trigger] s[i]).1 == high_y(s),
    decreases s.len(),
{
    if s.len() > 1 {
        let t = s.drop_last();
        lemma_box(t);
        let last = s.len() - 1;
        assert forall|i: int| 0 <= i < s.len() implies low_x(s) <= (#[trigger] s[i]).0 <= high_x(s)
            && low_y(s) <= s[i].1 <= high_y(s) by {
            if i < last {
                assert(t[i] == s[i]);
            }
        }
        let a = choose|i: int| 0 <= i < t.len() && (#[trigger] t[i]).0 == low_x(t);
        let b = choose|i: int| 0 <= i < t.len() && (#[trigger] t[i]).1 == low_y(t);
        let c = choose|i: int| 0 <= i < t.len() && (#[trigger] t[i]).0 == high_x(t);
        let d = choose|i: int| 0 <= i < t.len() && (#[trigger] t[i]).1 == high_y(t);
        assert(s[a] == t[a] && s[b] == t[b] && s[c] == t[c] && s[d] == t[d]);
        assert(s[last].0 == low_x(s) || s[a].0 == low_x(s));
        assert(s[last].1 == low_y(s) || s[b].1 == low_y(s));
        assert(s[last].0 == high_x(s) || s[c].0 == high_x(s));
        assert(s[last].1 == high_y(s) || s[d].1 == high_y(s));
    } else {
        assert(s[0].0 == low_x(s));
    }
}

/// Whether the point can be moved by `(-mx, -my)`: no coordinate leaves the
/// range of the numbers.
pub open spec fn can_move(p: Pos, mx: int, my: int) -> bool {
    i64::MIN <= p.0 - mx <= i64::MAX && i64::MIN <= p.1 - my <= i64::MAX
}

/// The point moved by `(-mx, -my)`.
pub open spec fn moved(p: Pos, mx: int, my: int) -> Pos {
    ((p.0 - mx) as i64, (p.1 - my) as i64)
}

/// The points, each moved by `(-mx, -my)`.
pub open spec fn moved_all(s: Seq<Pos>, mx: int, my: int) -> Seq<Pos> {
    Seq::new(s.len(), |i: int| moved(s[i], mx, my))
}

/// Whether every point of the list can be moved by `(-mx, -my)`.
pub open spec fn can_move_all(s: Seq<Pos>, mx: int, my: int) -> bool {
    forall|i: int| 0 <= i < s.len() ==> can_move(#[trigger] s[i], mx, my)
}

/// Whether the task can be moved to the origin: its outline has a corner, and
/// every point of the task can be moved by the low corner of the box round the
/// outline.
pub open spec fn movable(input: &Input) -> bool {
    let mx = low_x(input.map@);
    let my = low_y(input.map@);
    &&& input.map@.len() >= 1
    &&& can_move_all(input.map@, mx, my)
    &&& can_move(input.init_pos, mx, my)
    &&& forall|i: int|
        0 <= i < input.obstacles@.len() ==> can_move_all((#[trigger] input.obstacles@[i])@, mx, my)
    &&& forall|i: int|
        0 <= i < input.boosters@.len() ==> can_move((#[trigger] input.boosters@[i]).1, mx, my)
}

/// Whether `after` is the task `before` moved to the origin: every point of
/// it, of the outline, of the obstacles, of the boosters, and the place where
/// the robot starts, is the point of `before` moved by the low corner of the
/// box round the outline of `before`. All else is the same.
pub open spec fn at_origin(after: &Input, before: &Input) -> bool {
    let mx = low_x(before.map@);
    let my = low_y(before.map@);
    &&& after.map@ == moved_all(before.map@, mx, my)
    &&& after.init_pos == moved(before.init_pos, mx, my)
    &&& after.obstacles@.len() == before.obstacles@.len()
    &&& forall|i: int|
        0 <= i < before.obstacles@.len() ==> (#[trigger] after.obstacles@[i])@ == moved_all(
            before.obstacles@[i]@,
            mx,
            my,
        )
    &&& after.boosters@.len() == before.boosters@.len()
    &&& forall|i: int|
        0 <= i < before.boosters@.len() ==> #[trigger] after.boosters@[i] == (
            before.boosters@[i].0,
            moved(before.boosters@[i].1, mx, my),
        )
}

/// The low and the high corner of the box round the points.
pub fn corners(s: &Vec<Pos>) -> (r: (Pos, Pos))
    requires
        s@.len() >= 1,
    ensures
        r.0.0 == low_x(s@),
        r.0.1 == low_y(s@),
        r.1.0 == high_x(s@),
        r.1.1 == high_y(s@),
{
    let mut lx: i64 = s[0].0;
    let mut ly: i64 = s[0].1;
    let mut hx: i64 = s[0].0;
    let mut hy: i64 = s[0].1;
    let mut i: usize = 1;
    assert(s@.take(1).len() == 1);
    while i < s.len()
        invariant
            1 <= i <= s@.len(),
            lx == low_x(s@.take(i as int)),
            ly == low_y(s@.take(i as int)),
            hx == high_x(s@.take(i as int)),
            hy == high_y(s@.take(i as int)),
        decreases s@.len() - i,
    {
        let p: Pos = s[i];
        proof {
            let more = s@.take(i + 1);
            assert(more.drop_last() =~= s@.take(i as int));
            assert(more.last() == p);
        }
        if p.0 < lx {
            lx = p.0;
        }
        if p.1 < ly {
            ly = p.1;
        }
        if p.0 > hx {
            hx = p.0;
        }
        if p.1 > hy {
            hy = p.1;
        }
        i = i + 1;
    }
    assert(s@.take(s@.len() as int) =~= s@);
    ((lx, ly), (hx, hy))
}

/// Whether the point can be moved by `(-mx, -my)`.
pub fn fits(p: Pos, mx: i64, my: i64) -> (b: bool)
    ensures
        b == can_move(p, mx as int, my as int),
{
    let dx: i128 = p.0 as i128 - mx as i128;
    let dy: i128 = p.1 as i128 - my as i128;
    dx >= i64::MIN as i128 && dx <= i64::MAX as i128 && dy >= i64::MIN as i128 && dy
        <= i64::MAX as i128
}

/// Whether every point of the list can be moved by `(-mx, -my)`.
pub fn all_fit(s: &Vec<Pos>, mx: i64, my: i64) -> (b: bool)
    ensures
        b == can_move_all(s@, mx as int, my as int),
{
    let mut i: usize = 0;
    while i < s.len()
        invariant
            i <= s@.len(),
            forall|j: int| 0 <= j < i ==> can_move(#[trigger] s@[j], mx as int, my as int),
        decreases s@.len() - i,
    {
        if !fits(s[i], mx, my) {
            return false;
        }
        i = i + 1;
    }
    true
}

/// Whether the task can be moved to the origin.
pub fn can_normalize(input: &Input) -> (b: bool)
    ensures
        b == movable(input),
{
    if input.map.len() == 0 {
        return false;
    }
    let c: (Pos, Pos) = corners(&input.map);
    let mx: i64 = c.0.0;
    let my: i64 = c.0.1;
    if !all_fit(&input.map, mx, my) {
        return false;
    }
    if !fits(input.init_pos, mx, my) {
        return false;
    }
    let mut i: usize = 0;
    while i < input.obstacles.len()
        invariant
            i <= input.obstacles@.len(),
            input.map@.len() >= 1,
            can_move_all(input.map@, mx as int, my as int),
            can_move(input.init_pos, mx as int, my as int),
            mx == low_x(input.map@),
            my == low_y(input.map@),
            forall|j: int|
                0 <= j < i ==> can_move_all((#[trigger] input.obstacles@[j])@, mx as int, my as int),
        decreases input.obstacles@.len() - i,
    {
        if !all_fit(&input.obstacles[i], mx, my) {
            assert(!can_move_all(input.obstacles@[i as int]@, mx as int, my as int));
            return false;
        }
        i = i + 1;
    }
    let mut k: usize = 0;
    while k < input.boosters.len()
        invariant
            k <= input.boosters@.len(),
            input.map@.len() >= 1,
            can_move_all(input.map@, mx as int, my as int),
            can_move(input.init_pos, mx as int, my as int),
            forall|j: int|
                0 <= j < input.obstacles@.len() ==> can_move_all(
                    (#[trigger] input.obstacles@[j])@,
                    mx as int,
                    my as int,
                ),
            mx == low_x(input.map@),
            my == low_y(input.map@),
            forall|j: int|
                0 <= j < k ==> can_move((#[trigger] input.boosters@[j]).1, mx as int, my as int),
        decreases input.boosters@.len() - k,
    {
        if !fits(input.boosters[k].1, mx, my) {
            assert(!can_move(input.boosters@[k as int].1, mx as int, my as int));
            return false;
        }
        k = k + 1;
    }
    true
}

/// The points, each moved by `(-mx, -my)`.
pub fn move_all(s: &Vec<Pos>, mx: i64, my: i64) -> (r: Vec<Pos>)
    requires
        can_move_all(s@, mx as int, my as int),
    ensures
        r@ == moved_all(s@, mx as int, my as int),
{
    let mut r: Vec<Pos> = Vec::new();
    let mut i: usize = 0;
    while i < s.len()
        invariant
            i <= s@.len(),
            can_move_all(s@, mx as int, my as int),
            r@.len() == i,
            forall|j: int| 0 <= j < i ==> #[trigger] r@[j] == moved(s@[j], mx as int, my as int),
        decreases s@.len() - i,
    {
        let p: Pos = s[i];
        assert(can_move(s@[i as int], mx as int, my as int));
        r.push((p.0 - mx, p.1 - my));
        i = i + 1;
    }
    assert(r@ =~= moved_all(s@, mx as int, my as int));
    r
}

/// Moves the task to the origin: every point of it by the low corner of the
/// box round its outline, so that the outline begins at 0 both ways. Returns
/// the width and the height of that box: the size of the board of the task.
pub fn normalize(input: &mut Input) -> (r: (i64, i64))
    requires
        movable(old(input)),
    ensures
        at_origin(final(input), old(input)),
        r.0 == high_x(old(input).map@) - low_x(old(input).map@),
        r.1 == high_y(old(input).map@) - low_y(old(input).map@),
        low_x(final(input).map@) == 0,
        low_y(final(input).map@) == 0,
        high_x(final(input).map@) == r.0,
        high_y(final(input).map@) == r.1,
{
    let c: (Pos, Pos) = corners(&input.map);
    let mx: i64 = c.0.0;
    let my: i64 = c.0.1;
    proof {
        lemma_box(input.map@);
    }
    let w: i64 = c.1.0 - mx;
    let h: i64 = c.1.1 - my;
    let map: Vec<Pos> = move_all(&input.map, mx, my);
    let start: Pos = (input.init_pos.0 - mx, input.init_pos.1 - my);
    let mut obstacles: Vec<Vec<Pos>> = Vec::new();
    let mut i: usize = 0;
    while i < input.obstacles.len()
        invariant
            i <= input.obstacles@.len(),
            *input == *old(input),
            movable(input),
            mx == low_x(input.map@),
            my == low_y(input.map@),
            obstacles@.len() == i,
            forall|j: int|
                0 <= j < i ==> (#[trigger] obstacles@[j])@ == moved_all(
                    input.obstacles@[j]@,
                    mx as int,
                    my as int,
                ),
        decreases input.obstacles@.len() - i,
    {
        let row: Vec<Pos> = move_all(&input.obstacles[i], mx, my);
        obstacles.push(row);
        i = i + 1;
    }
    let mut boosters: Vec<(Booster, Pos)> = Vec::new();
    let mut k: usize = 0;
    while k < input.boosters.len()
        invariant
            k <= input.boosters@.len(),
            *input == *old(input),
            movable(input),
            mx == low_x(input.map@),
            my == low_y(input.map@),
            boosters@.len() == k,
            forall|j: int|
                0 <= j < k ==> #[trigger] boosters@[j] == (
                    input.boosters@[j].0,
                    moved(input.boosters@[j].1, mx as int, my as int),
                ),
        decreases input.boosters@.len() - k,
    {
        let b: (Booster, Pos) = input.boosters[k];
        boosters.push((b.0, (b.1.0 - mx, b.1.1 - my)));
        k = k + 1;
    }
    proof {
        lemma_moved_box(old(input).map@, mx as int, my as int);
    }
    input.map = map;
    input.init_pos = start;
    input.obstacles = obstacles;
    input.boosters = boosters;
    (w, h)
}

/// Moving the points moves the box round them.
pub proof fn lemma_moved_box(s: Seq<Pos>, mx: int, my: int)
    requires
        s.len() >= 1,
        can_move_all(s, mx, my),
    ensures
        low_x(moved_all(s, mx, my)) == low_x(s) - mx,
        low_y(moved_all(s, mx, my)) == low_y(s) - my,
        high_x(moved_all(s, mx, my)) == high_x(s) - mx,
        high_y(moved_all(s, mx, my)) == high_y(s) - my,
    decreases s.len(),
{
    let t = moved_all(s, mx, my);
    assert(can_move(s[0], mx, my));
    if s.len() > 1 {
        let last = s.len() - 1;
        assert(can_move(s[last], mx, my));
        assert(t.drop_last() =~= moved_all(s.drop_last(), mx, my));
        assert forall|i: int| 0 <= i < s.drop_last().len() implies can_move(
            #[trigger] s.drop_last()[i],
            mx,
            my,
        ) by {
            assert(s.drop_last()[i] == s[i]);
        }
        lemma_moved_box(s.drop_last(), mx, my);
        assert(t.last() == moved(s.last(), mx, my));
    }
}

} // verus!
