use crate::board::Pos;
use crate::command::Command;
use crate::region::{holds, lemma_distinct_count, pt};
use crate::state::{has_arm, unit, State, REACH};
use crate::target::{has_point, Goal};
use vstd::prelude::*;

verus! {

/// The switches of the solver. Each stands for itself; they are read when a
/// run starts.
pub struct SolverOption {
    /// Islands below this size are reserved for the robot that finds them.
    pub island_size_threshold: i64,
    /// Robots use extra manipulators.
    pub increase_mop: bool,
    /// Cloned robots face different ways and search in more varied orders.
    pub change_clone_dir: bool,
    /// A robot steps on a useful booster next to it rather than pass it.
    pub aggressive_item: bool,
    /// The first robot fetches a portal before anything else.
    pub aggressive_teleport: bool,
    /// Robots use drills.
    pub use_drill: bool,
    /// The robot nearest to the factory clones, not always the first.
    pub spawn_delegate: bool,
    /// Robots use fast wheels as soon as they have them.
    pub aggressive_fast: bool,
    /// A robot turns its manipulators the way it walks.
    pub mop_direction: bool,
    /// Every robot fetches cloning boosters, not only the first.
    pub aggressive_c_collect: bool,
    /// No robot is cloned.
    pub disable_clone: bool,
    /// Portals are dropped at random moments.
    pub drop_portal_randomly: bool,
}

/// Why a run could not go on.
#[derive(Debug, Clone, Copy, PartialEq, Eq, Structural)]
pub enum SolveError {
    /// A robot had to go to a cell that is out of its reach.
    NoTarget,
    /// A planned step led off the board.
    OffBoard,
    /// A robot was to be cloned, but no further robot can be told apart.
    TooManyRobots,
}

/// How the turn of one robot ended.
#[derive(Debug, Clone, Copy, PartialEq, Eq, Structural)]
pub enum Outcome {
    /// The robot carried out the command.
    Acted(Command),
    /// The first robot found nothing left to paint: the run is over.
    Done,
    /// The run cannot go on.
    Stuck(SolveError),
}

/// The `ii`-th place that is tried for a new manipulator of a robot that
/// faces the way `dir`: beside the manipulators in front of the robot, first
/// two cells to one side, then two to the other, then three, and so on.
pub open spec fn arm_place(dir: Pos, ii: int) -> (int, int) {
    let dd = if ii % 2 == 0 {
        -2 - ii / 2
    } else {
        2 + ii / 2
    };
    if dir.0 == 0 {
        (dd, dir.1 as int)
    } else {
        (dir.0 as int, dd)
    }
}

/// The way a robot with the manipulators `manips` faces: the first of up,
/// right, down and left at which it has a manipulator.
pub open spec fn faces(manips: Seq<Pos>) -> Option<Pos> {
    if holds(manips, (0, 1)) {
        Some((0i64, 1i64))
    } else if holds(manips, (1, 0)) {
        Some((1i64, 0i64))
    } else if holds(manips, (0, -1)) {
        Some((0i64, -1i64))
    } else if holds(manips, (-1, 0)) {
        Some((-1i64, 0i64))
    } else {
        None
    }
}

/// Whether `d` is the place of a new manipulator for a robot with the
/// manipulators `manips` that faces the way `dir`: the first of the places
/// tried at which the robot has none.
pub open spec fn next_arm(manips: Seq<Pos>, dir: Pos, d: Pos) -> bool {
    &&& !holds(manips, pt(d))
    &&& exists|ii: int|
        0 <= ii <= manips.len() && pt(d) == #[trigger] arm_place(dir, ii) && forall|j: int|
            0 <= j < ii ==> holds(manips, #[trigger] arm_place(dir, j))
}

/// The way the robot faces: the first of up, right, down and left at which it
/// has a manipulator.
pub fn facing(manips: &Vec<Pos>) -> (r: Option<Pos>)
    ensures
        has_arm(manips@) ==> r is Some,
        r matches Some(d) ==> unit(d) && holds(manips@, pt(d)),
        r == faces(manips@),
{
    proof {
        if has_arm(manips@) {
            let a = choose|a: int| 0 <= a < manips@.len() && unit(#[trigger] manips@[a]);
            assert(holds(manips@, pt(manips@[a])));
        }
    }
    if has_point(manips, 0, 1) {
        Some((0, 1))
    } else if has_point(manips, 1, 0) {
        Some((1, 0))
    } else if has_point(manips, 0, -1) {
        Some((0, -1))
    } else if has_point(manips, -1, 0) {
        Some((-1, 0))
    } else {
        None
    }
}

/// Among the first places tried, one more than there are manipulators, one is free.
pub proof fn lemma_arm_place_free(manips: Seq<Pos>, dir: Pos)
    requires
        unit(dir),
    ensures
        exists|ii: int| 0 <= ii <= manips.len() && !holds(manips, #[trigger] arm_place(dir, ii)),
{
    if forall|ii: int| 0 <= ii <= manips.len() ==> holds(manips, #[trigger] arm_place(dir, ii)) {
        let n = manips.len() as int;
        let idx = Seq::new(
            (n + 1) as nat,
            |ii: int|
                choose|j: int|
                    0 <= j < manips.len() && pt(#[trigger] manips[j]) == arm_place(dir, ii),
        );
        assert forall|ii: int| 0 <= ii < idx.len() implies 0 <= #[trigger] idx[ii] < n && pt(
            manips[idx[ii]],
        ) == arm_place(dir, ii) by {
            assert(holds(manips, arm_place(dir, ii)));
        }
        assert(idx.no_duplicates()) by {
            assert forall|a: int, b: int|
                0 <= a < idx.len() && 0 <= b < idx.len() && a != b implies idx[a] != idx[b] by {
                assert(pt(manips[idx[a]]) == arm_place(dir, a));
                assert(pt(manips[idx[b]]) == arm_place(dir, b));
                assert(arm_place(dir, a) != arm_place(dir, b));
            }
        }
        lemma_distinct_count(idx, n);
    }
}

/// The place of a new manipulator for a robot that faces the way `dir`: the
/// first of the places tried at which the robot has none.
pub fn next_offset(manips: &Vec<Pos>, dir: Pos) -> (d: Pos)
    requires
        unit(dir),
        manips@.len() < REACH,
    ensures
        next_arm(manips@, dir, d),
        -REACH <= d.0 <= REACH,
        -REACH <= d.1 <= REACH,
{
    let n: usize = manips.len();
    let mut ii: usize = 0;
    while ii <= n
        invariant
            unit(dir),
            n == manips@.len(),
            n < REACH,
            ii <= n + 1,
            forall|j: int| 0 <= j < ii ==> holds(manips@, #[trigger] arm_place(dir, j)),
        decreases n + 1 - ii,
    {
        let half: i64 = (ii / 2) as i64;
        let dd: i64 = if ii % 2 == 0 {
            -2 - half
        } else {
            2 + half
        };
        let d: Pos = if dir.0 == 0 {
            (dd, dir.1)
        } else {
            (dir.0, dd)
        };
        assert(pt(d) == arm_place(dir, ii as int));
        if !has_point(manips, d.0, d.1) {
            return d;
        }
        ii = ii + 1;
    }
    proof {
        lemma_arm_place_free(manips@, dir);
    }
    (0, 0)
}

/// The `k`-th of the four cells at the place `j` of the ring of cells that are
/// `d` steps away from `(x, y)`.
pub open spec fn ring_point(x: int, y: int, d: int, j: int, k: int) -> (int, int) {
    if k == 0 {
        (x + d - j, y - j)
    } else if k == 1 {
        (x - j, y - d + j)
    } else if k == 2 {
        (x - d + j, y + j)
    } else {
        (x + j, y + d - j)
    }
}

/// The first wanted cell on the rings around `(x, y)`, from the place `j` and
/// the `k`-th cell there on the ring of the cells `d` steps away, ring by ring
/// up to `DRILL_REACH` steps.
pub open spec fn ring_search(
    want: spec_fn(int, int) -> bool,
    x: int,
    y: int,
    d: int,
    j: int,
    k: int,
) -> Option<Pos>
    decreases DRILL_REACH + 1 - d, d - j, 4 - k,
{
    if d < 1 || d > DRILL_REACH {
        None
    } else if j < 0 || j >= d {
        ring_search(want, x, y, d + 1, 0, 0)
    } else if k < 0 || k >= 4 {
        ring_search(want, x, y, d, j + 1, 0)
    } else {
        let p = ring_point(x, y, d, j, k);
        if want(p.0, p.1) {
            Some((p.0 as i64, p.1 as i64))
        } else {
            ring_search(want, x, y, d, j, k + 1)
        }
    }
}

/// The number of steps between two cells, walls left aside.
pub open spec fn steps_between(a: (int, int), b: (int, int)) -> int {
    (if a.0 >= b.0 {
        a.0 - b.0
    } else {
        b.0 - a.0
    }) + (if a.1 >= b.1 {
        a.1 - b.1
    } else {
        b.1 - a.1
    })
}

/// How far a drill is to reach.
pub const DRILL_REACH: i64 = 30;

/// From how many turns to the nearest cell on a drill is used.
pub const DRILL_FROM: usize = 60;

/// The command that robot `i` gave in the last turn.
pub fn last_command(sol: &Vec<Vec<Command>>, i: usize) -> (r: Option<Command>)
    ensures
        r == (if sol@.len() > 0 && i < sol@.last()@.len() {
            Some(sol@.last()@[i as int])
        } else {
            None
        }),
{
    if sol.len() == 0 {
        return None;
    }
    let lasts: &Vec<Command> = &sol[sol.len() - 1];
    if lasts.len() <= i {
        return None;
    }
    Some(lasts[i])
}

impl State {
    /// Whether `r` is the robot with the fewest manipulators; among several,
    /// the first.
    pub open spec fn is_shortest(&self, r: usize) -> bool {
        &&& r < self.robots@.len()
        &&& forall|j: int|
            0 <= j < self.robots@.len() ==> self.robots@[r as int].manips@.len() <= (
            #[trigger] self.robots@[j]).manips@.len()
        &&& forall|j: int|
            0 <= j < r ==> self.robots@[r as int].manips@.len() < (
            #[trigger] self.robots@[j]).manips@.len()
    }

    /// The robot with the fewest manipulators; among several, the first.
    pub fn shortest_mop(&self) -> (r: usize)
        requires
            self.robots@.len() >= 1,
        ensures
            self.is_shortest(r),
    {
        let mut best: usize = 0;
        let mut i: usize = 1;
        while i < self.robots.len()
            invariant
                1 <= i <= self.robots@.len(),
                best < i,
                forall|j: int|
                    0 <= j < i ==> self.robots@[best as int].manips@.len() <= (
                    #[trigger] self.robots@[j]).manips@.len(),
                forall|j: int|
                    0 <= j < best ==> self.robots@[best as int].manips@.len() < (
                    #[trigger] self.robots@[j]).manips@.len(),
            decreases self.robots@.len() - i,
        {
            if self.robots[i].manips.len() < self.robots[best].manips.len() {
                best = i;
            }
            i = i + 1;
        }
        best
    }

    /// Whether `r` is the cell for robot `i` to drill to: a cell that the robot
    /// wants, no more than `DRILL_REACH` steps away, walls left aside, and as few
    /// steps away as any such cell; or nothing, where there is no such cell.
    /// Among several such cells it is the first on its ring.
    pub open spec fn drill_is(&self, i: int, r: Option<Pos>) -> bool {
        let here = (self.robots@[i].x as int, self.robots@[i].y as int);
        let want = self.wanted(i, Goal::Unpainted);
        &&& r == ring_search(want, here.0, here.1, 1, 0, 0)
        &&& match r {
            Some(t) => {
                &&& self.bd.has(t.0 as int, t.1 as int)
                &&& want(t.0 as int, t.1 as int)
                &&& 1 <= steps_between(pt(t), here) <= DRILL_REACH
                &&& forall|c: (int, int)|
                    1 <= #[trigger] steps_between(c, here) < steps_between(pt(t), here) ==> !want(
                        c.0,
                        c.1,
                    )
            },
            None => forall|c: (int, int)|
                1 <= #[trigger] steps_between(c, here) <= DRILL_REACH ==> !want(c.0, c.1),
        }
    }

    /// The cell for robot `i` to drill to: a cell that the robot wants, no more
    /// than `DRILL_REACH` steps away, walls left aside, and as few steps away as
    /// any such cell.
    pub fn drill_target(&self, i: usize) -> (r: Option<Pos>)
        requires
            self.wf(),
            i < self.robots@.len(),
        ensures
            self.drill_is(i as int, r),
    {
        assert(self.robots@[i as int].wf(&self.bd));
        let x: i64 = self.robots[i].x;
        let y: i64 = self.robots[i].y;
        let ghost here: (int, int) = (x as int, y as int);
        let ghost want = self.wanted(i as int, Goal::Unpainted);
        let mut d: i64 = 1;
        while d <= DRILL_REACH
            invariant
                1 <= d <= DRILL_REACH + 1,
                self.wf(),
                i < self.robots@.len(),
                x == self.robots@[i as int].x,
                y == self.robots@[i as int].y,
                here == (x as int, y as int),
                want == self.wanted(i as int, Goal::Unpainted),
                self.bd.has(x as int, y as int),
                forall|c: (int, int)| 1 <= #[trigger] steps_between(c, here) < d ==> !want(c.0, c.1),
                ring_search(want, here.0, here.1, d as int, 0, 0) == ring_search(
                    want,
                    here.0,
                    here.1,
                    1,
                    0,
                    0,
                ),
            decreases DRILL_REACH + 1 - d,
        {
            let mut j: i64 = 0;
            while j < d
                invariant
                    0 <= j <= d,
                    1 <= d <= DRILL_REACH,
                    self.wf(),
                    i < self.robots@.len(),
                    x == self.robots@[i as int].x,
                    y == self.robots@[i as int].y,
                    here == (x as int, y as int),
                    want == self.wanted(i as int, Goal::Unpainted),
                    self.bd.has(x as int, y as int),
                    forall|c: (int, int)|
                        1 <= #[trigger] steps_between(c, here) < d ==> !want(c.0, c.1),
                    forall|jj: int, k: int|
                        0 <= jj < j && 0 <= k < 4 ==> !want(
                            (#[trigger] ring_point(x as int, y as int, d as int, jj, k)).0,
                            ring_point(x as int, y as int, d as int, jj, k).1,
                        ),
                    ring_search(want, here.0, here.1, d as int, j as int, 0) == ring_search(
                        want,
                        here.0,
                        here.1,
                        1,
                        0,
                        0,
                    ),
                decreases d - j,
            {
                let mut k: usize = 0;
                while k < 4
                    invariant
                        k <= 4,
                        0 <= j < d,
                        1 <= d <= DRILL_REACH,
                        self.wf(),
                        i < self.robots@.len(),
                        x == self.robots@[i as int].x,
                        y == self.robots@[i as int].y,
                        here == (x as int, y as int),
                        want == self.wanted(i as int, Goal::Unpainted),
                        self.bd.has(x as int, y as int),
                        forall|c: (int, int)|
                            1 <= #[trigger] steps_between(c, here) < d ==> !want(c.0, c.1),
                        forall|kk: int|
                            0 <= kk < k ==> !want(
                                (#[trigger] ring_point(x as int, y as int, d as int, j as int, kk)).0,
                                ring_point(x as int, y as int, d as int, j as int, kk).1,
                            ),
                        ring_search(want, here.0, here.1, d as int, j as int, k as int)
                            == ring_search(want, here.0, here.1, 1, 0, 0),
                    decreases 4 - k,
                {
                    let p: Pos = if k == 0 {
                        (x + d - j, y - j)
                    } else if k == 1 {
                        (x - j, y - d + j)
                    } else if k == 2 {
                        (x - d + j, y + j)
                    } else {
                        (x + j, y + d - j)
                    };
                    assert(pt(p) == ring_point(x as int, y as int, d as int, j as int, k as int));
                    assert(steps_between(pt(p), here) == d);
                    if self.bd.contains(p.0, p.1) {
                        if self.wants(i, Goal::Unpainted, p.0, p.1) {
                            return Some(p);
                        }
                    }
                    k = k + 1;
                }
                j = j + 1;
            }
            proof {
                assert forall|c: (int, int)| 1 <= #[trigger] steps_between(c, here) < d + 1 implies !want(
                    c.0,
                    c.1,
                ) by {
                    if steps_between(c, here) == d {
                        let dx = c.0 - x;
                        let dy = c.1 - y;
                        if dx > 0 && dy <= 0 {
                            assert(c == ring_point(x as int, y as int, d as int, -dy, 0));
                        } else if dx <= 0 && dy < 0 {
                            assert(c == ring_point(x as int, y as int, d as int, -dx, 1));
                        } else if dx < 0 && dy >= 0 {
                            assert(c == ring_point(x as int, y as int, d as int, dy, 2));
                        } else {
                            assert(c == ring_point(x as int, y as int, d as int, dx, 3));
                        }
                    }
                }
            }
            d = d + 1;
        }
        None
    }
}

} // verus!
