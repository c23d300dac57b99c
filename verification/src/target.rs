use crate::board::{Board, Pos};
use crate::cell::{Cell, ITEM_FACTORY};
use crate::region::{holds, pt};
use crate::search::{first_hit, is_nearest, searched, Found};
use crate::setup::item_cells;
use crate::state::{is_order, State};
use vstd::prelude::*;

verus! {

/// What a robot may search for.
#[derive(Clone, Copy)]
pub enum Goal {
    /// A cell that holds the item with the given code.
    Item(usize),
    /// A cell where a cloning booster waits for a robot.
    Pending,
    /// The given cell.
    At(i64, i64),
    /// A cell that is open and not painted; where cells are reserved for the
    /// robot, one of those.
    Unpainted,
}

/// Whether the list holds the position `(x, y)`.
pub fn has_point(v: &Vec<Pos>, x: i64, y: i64) -> (b: bool)
    ensures
        b == holds(v@, (x as int, y as int)),
{
    let mut i: usize = 0;
    while i < v.len()
        invariant
            i <= v@.len(),
            forall|j: int| 0 <= j < i ==> pt(#[trigger] v@[j]) != (x as int, y as int),
        decreases v@.len() - i,
    {
        if v[i].0 == x && v[i].1 == y {
            assert(pt(v@[i as int]) == (x as int, y as int));
            return true;
        }
        i = i + 1;
    }
    false
}

/// Whether the scores never fall along the list.
pub open spec fn scores_rise(scores: Seq<i64>) -> bool {
    forall|a: int, b: int| 0 <= a <= b < scores.len() ==> scores[a] <= scores[b]
}

/// Puts the candidate `c` with the score `sc` into the list of candidates,
/// which is kept in the order of the scores: after the candidates that score
/// no more than it, before those that score more.
pub fn place_by_score(seeds: &mut Vec<Pos>, scores: &mut Vec<i64>, c: Pos, sc: i64) -> (at: usize)
    requires
        old(seeds)@.len() == old(scores)@.len(),
        scores_rise(old(scores)@),
    ensures
        at <= old(seeds)@.len(),
        forall|j: int| 0 <= j < at ==> old(scores)@[j] <= sc,
        forall|j: int| at <= j < old(scores)@.len() ==> old(scores)@[j] > sc,
        final(seeds)@ == old(seeds)@.insert(at as int, c),
        final(scores)@ == old(scores)@.insert(at as int, sc),
        scores_rise(final(scores)@),
{
    let mut at: usize = 0;
    while at < scores.len() && scores[at] <= sc
        invariant
            at <= scores@.len(),
            scores@ == old(scores)@,
            seeds@ == old(seeds)@,
            forall|j: int| 0 <= j < at ==> scores@[j] <= sc,
        decreases scores@.len() - at,
    {
        at = at + 1;
    }
    seeds.insert(at, c);
    scores.insert(at, sc);
    at
}

impl Board {
    /// The cells of the board that are no walls.
    pub open spec fn open_cells(&self) -> spec_fn(int, int) -> bool {
        |x: int, y: int| self.has(x, y) && !self.at(x, y).wall()
    }
}

impl State {
    /// The cells that robot `i` wants when it searches for `goal`.
    pub open spec fn wanted(&self, i: int, goal: Goal) -> spec_fn(int, int) -> bool {
        match goal {
            Goal::Item(k) => |x: int, y: int|
                self.bd.has(x, y) && k != 0 && self.bd.at(x, y).item_code() == k,
            Goal::Pending => |x: int, y: int| self.bd.has(x, y) && holds(self.pending_clone@, (x, y)),
            Goal::At(tx, ty) => |x: int, y: int| self.bd.has(x, y) && x == tx && y == ty,
            Goal::Unpainted => |x: int, y: int|
                self.bd.has(x, y) && !self.bd.at(x, y).painted() && !self.bd.at(x, y).wall() && (
                self.robots@[i].prios > 0 ==> self.bd.at(x, y).owner_code() == i + 1),
        }
    }

    /// Whether the cell at the offset `d` from robot `i` is one it can step on:
    /// a cell of the board that is no wall.
    pub open spec fn can_step(&self, i: int, d: Pos) -> bool {
        self.bd.open_cells()(self.robots@[i].x + d.0, self.robots@[i].y + d.1)
    }

    /// The cells that robot `i` can step on in the first `k` of its directions,
    /// in the order of its directions.
    pub open spec fn steps_upto(&self, i: int, k: int) -> Seq<Pos>
        decreases k,
    {
        if k <= 0 {
            Seq::empty()
        } else if self.can_step(i, self.robots@[i].vect@[k - 1]) {
            self.steps_upto(i, k - 1).push(
                (
                    (self.robots@[i].x + self.robots@[i].vect@[k - 1].0) as i64,
                    (self.robots@[i].y + self.robots@[i].vect@[k - 1].1) as i64,
                ),
            )
        } else {
            self.steps_upto(i, k - 1)
        }
    }

    /// Each cell that robot `i` can step on lies on the board, one step from
    /// the robot.
    pub proof fn lemma_steps_near(&self, i: int, k: int, c: (int, int))
        requires
            self.bd.wf(),
            is_order(self.robots@[i].vect@),
            0 <= k <= 4,
            holds(self.steps_upto(i, k), c),
        ensures
            crate::command::is_step(c.0 - self.robots@[i].x, c.1 - self.robots@[i].y),
            self.bd.has(c.0, c.1),
        decreases k,
    {
        let s = self.steps_upto(i, k);
        let j = choose|j: int| 0 <= j < s.len() && pt(#[trigger] s[j]) == c;
        if k > 0 {
            let d = self.robots@[i].vect@[k - 1];
            assert(crate::state::unit(d));
            let prev = self.steps_upto(i, k - 1);
            if self.can_step(i, d) && j == prev.len() {
            } else {
                assert(pt(prev[j]) == c);
                self.lemma_steps_near(i, k - 1, c);
            }
        }
    }

    /// Where no portal was dropped and the robot does not stand on a wanted
    /// cell, the first cell on its way to the nearest wanted cell lies on the
    /// board, one step from the robot.
    pub proof fn lemma_first_step(&self, i: int, goal: Goal, first: Pos, dist: usize, target: Pos)
        requires
            self.bd.wf(),
            is_order(self.robots@[i].vect@),
            self.portals@.len() == 0,
            !self.wanted(i, goal)(self.robots@[i].x as int, self.robots@[i].y as int),
            self.nearest_is(i, goal, Some((first, dist, target))),
        ensures
            crate::command::is_step(first.0 - self.robots@[i].x, first.1 - self.robots@[i].y),
            self.bd.has(first.0 as int, first.1 as int),
    {
        assert(self.first_steps(i) =~= self.steps_upto(i, 4));
        self.lemma_steps_near(i, 4, pt(first));
    }

    /// The cells where robot `i` can be after one turn: those it can step on,
    /// in the order of its directions, then the portals, to which it can jump.
    pub open spec fn first_steps(&self, i: int) -> Seq<Pos> {
        self.steps_upto(i, 4) + self.portals@
    }

    /// Whether `r` is what a search of robot `i` for `goal` may answer.
    ///
    /// Where the robot stands on a wanted cell, the answer is that cell at
    /// distance 0. Else it is a cell `first` where the robot can be after one
    /// turn, a wanted cell `target` and the distance `dist`: the target is
    /// `dist - 1` steps from `first`, and no wanted cell is fewer steps from
    /// any cell where the robot can be after one turn. The answer is nothing if
    /// and only if no wanted cell is within reach. Among several cells that are
    /// as near, the answer is the one that `nearest_of` gives.
    pub open spec fn nearest_is(&self, i: int, goal: Goal, r: Option<(Pos, usize, Pos)>) -> bool {
        let here = (self.robots@[i].x, self.robots@[i].y);
        &&& r == self.nearest_of(i, goal)
        &&& if self.wanted(i, goal)(here.0 as int, here.1 as int) {
            r == Some((here, 0usize, here))
        } else {
            match r {
                Some((first, dist, target)) => dist >= 1 && is_nearest(
                    self.bd.open_cells(),
                    self.wanted(i, goal),
                    self.first_steps(i),
                    Some(Found { root: first, steps: (dist - 1) as usize, goal: target }),
                ),
                None => is_nearest(
                    self.bd.open_cells(),
                    self.wanted(i, goal),
                    self.first_steps(i),
                    None,
                ),
            }
        }
    }

    /// What a search of robot `i` for `goal` answers: the cell on which the
    /// robot stands, at distance 0, if the robot wants it; else what the
    /// breadth-first search from the cells where the robot can be after one
    /// turn answers, one turn further away.
    pub open spec fn nearest_of(&self, i: int, goal: Goal) -> Option<(Pos, usize, Pos)> {
        let here = (self.robots@[i].x, self.robots@[i].y);
        if self.wanted(i, goal)(here.0 as int, here.1 as int) {
            Some((here, 0usize, here))
        } else {
            match searched(
                self.bd.open_cells(),
                self.wanted(i, goal),
                self.bd.w as int,
                self.bd.h as int,
                self.first_steps(i),
                self.robots@[i].vect@,
            ) {
                Some(f) => Some((f.root, (f.steps + 1) as usize, f.goal)),
                None => None,
            }
        }
    }

    /// Whether the cell `(x, y)` is one that robot `i` wants when it searches
    /// for `goal`.
    pub fn wants(&self, i: usize, goal: Goal, x: i64, y: i64) -> (b: bool)
        requires
            self.bd.wf(),
            self.bd.has(x as int, y as int),
            i < self.robots@.len(),
        ensures
            b == self.wanted(i as int, goal)(x as int, y as int),
    {
        match goal {
            Goal::Item(k) => {
                match self.bd.get(x, y).item() {
                    Some(t) => t == k,
                    None => false,
                }
            },
            Goal::Pending => has_point(&self.pending_clone, x, y),
            Goal::At(tx, ty) => tx == x && ty == y,
            Goal::Unpainted => {
                let c: Cell = self.bd.get(x, y);
                if c.is_painted() || c.is_wall() {
                    false
                } else if self.robots[i].prios > 0 {
                    match c.prio() {
                        Some(o) => o == i,
                        None => false,
                    }
                } else {
                    true
                }
            },
        }
    }

    /// The nearest cell that robot `i` wants when it searches for `goal`: the
    /// cell to go to first, the distance in turns, and the wanted cell.
    ///
    /// The search is breadth first. It starts from the cells the robot can step
    /// on, in the order of its directions, and from the portals, put in the
    /// order of their scores, and goes on in the order of the robot's directions
    /// through cells that are no walls.
    pub fn nearest(&self, i: usize, goal: Goal) -> (r: Option<(Pos, usize, Pos)>)
        requires
            self.wf(),
            i < self.robots@.len(),
        ensures
            self.nearest_is(i as int, goal, r),
            r matches Some((first, dist, target)) ==> self.bd.has(first.0 as int, first.1 as int)
                && self.bd.has(target.0 as int, target.1 as int),
    {
        let ox: i64 = self.robots[i].x;
        let oy: i64 = self.robots[i].y;
        assert(self.robots@[i as int].wf(&self.bd));
        if self.wants(i, goal, ox, oy) {
            return Some(((ox, oy), 0, (ox, oy)));
        }
        let total: usize = self.bd.cells.len();
        let mut seeds: Vec<Pos> = Vec::new();
        let mut scores: Vec<i64> = Vec::new();
        let mut k: usize = 0;
        while k < 4
            invariant
                k <= 4,
                self.wf(),
                i < self.robots@.len(),
                ox == self.robots@[i as int].x,
                oy == self.robots@[i as int].y,
                seeds@ == self.steps_upto(i as int, k as int),
                scores@.len() == seeds@.len(),
                forall|j: int| 0 <= j < scores@.len() ==> scores@[j] == 0,
                forall|j: int|
                    0 <= j < seeds@.len() ==> self.bd.has(
                        (#[trigger] seeds@[j]).0 as int,
                        seeds@[j].1 as int,
                    ),
            decreases 4 - k,
        {
            assert(self.robots@[i as int].wf(&self.bd));
            let d: Pos = self.robots[i].vect[k];
            assert(crate::state::unit(self.robots@[i as int].vect@[k as int]));
            let cx: i64 = ox + d.0;
            let cy: i64 = oy + d.1;
            if self.bd.contains(cx, cy) {
                if !self.bd.get(cx, cy).is_wall() {
                    let sc: i64 = self.overwrap_score(cx, cy, i);
                    let ghost before: Seq<Pos> = seeds@;
                    let ghost marks: Seq<i64> = scores@;
                    let at: usize = place_by_score(&mut seeds, &mut scores, (cx, cy), sc);
                    proof {
                        if at < marks.len() {
                            assert(marks[at as int] == 0);
                        }
                        assert(seeds@ =~= before.push((cx, cy)));
                    }
                }
            }
            k = k + 1;
        }
        let mut p: usize = 0;
        while p < self.portals.len()
            invariant
                p <= self.portals@.len(),
                self.wf(),
                seeds@ == self.steps_upto(i as int, 4) + self.portals@.take(p as int),
                scores@.len() == seeds@.len(),
                forall|j: int| 0 <= j < scores@.len() ==> scores@[j] == 0,
                forall|j: int|
                    0 <= j < seeds@.len() ==> self.bd.has(
                        (#[trigger] seeds@[j]).0 as int,
                        seeds@[j].1 as int,
                    ),
            decreases self.portals@.len() - p,
        {
            let q: Pos = self.portals[p];
            assert(self.bd.has(self.portals@[p as int].0 as int, self.portals@[p as int].1 as int));
            let sc: i64 = self.overwrap_score(q.0, q.1, i);
            let ghost before: Seq<Pos> = seeds@;
            let ghost marks: Seq<i64> = scores@;
            let at: usize = place_by_score(&mut seeds, &mut scores, q, sc);
            proof {
                if at < marks.len() {
                    assert(marks[at as int] == 0);
                }
                assert(seeds@ =~= before.push(q));
            }
            assert(self.portals@.take(p + 1) =~= self.portals@.take(p as int).push(q));
            assert(seeds@ =~= self.steps_upto(i as int, 4) + self.portals@.take(p + 1));
            p = p + 1;
        }
        assert(self.portals@.take(self.portals@.len() as int) =~= self.portals@);
        let passable = |u: i64, v: i64| -> (ok: bool)
            requires
                self.bd.wf(),
                self.bd.has(u as int, v as int),
            ensures
                ok == self.bd.open_cells()(u as int, v as int),
            { !self.bd.get(u, v).is_wall() };
        let wanted = |u: i64, v: i64| -> (ok: bool)
            requires
                self.bd.wf(),
                self.bd.has(u as int, v as int),
                i < self.robots@.len(),
            ensures
                ok == self.wanted(i as int, goal)(u as int, v as int),
            { self.wants(i, goal, u, v) };
        let found: Option<Found> = first_hit(
            self.bd.w,
            self.bd.h,
            &seeds,
            &self.robots[i].vect,
            passable,
            wanted,
            Ghost(self.bd.open_cells()),
            Ghost(self.wanted(i as int, goal)),
        );
        match found {
            Some(f) => {
                proof {
                    let j = choose|j: int|
                        0 <= j < seeds@.len() && pt(#[trigger] seeds@[j]) == pt(f.root);
                    assert(self.bd.has(seeds@[j].0 as int, seeds@[j].1 as int));
                }
                Some((f.root, f.steps + 1, f.goal))
            },
            None => None,
        }
    }

    /// Whether `r` is the distance from `(x, y)` to the nearest cell that robot
    /// `i` wants when it searches for `goal`, counted in steps through cells
    /// that are no walls; nothing, where no wanted cell is within reach.
    pub open spec fn distance_is(&self, x: i64, y: i64, i: int, goal: Goal, r: Option<usize>) -> bool {
        match r {
            Some(d) => exists|g: Pos| #[trigger]
                is_nearest(
                    self.bd.open_cells(),
                    self.wanted(i, goal),
                    seq![(x, y)],
                    Some(Found { root: (x, y), steps: d, goal: g }),
                ),
            None => is_nearest(self.bd.open_cells(), self.wanted(i, goal), seq![(x, y)], None),
        }
    }

    /// The distance from the cell `(x, y)` to the nearest cell that robot `i`
    /// wants when it searches for `goal`: the number of steps, each to a cell
    /// beside that is no wall. The cell `(x, y)` itself is at distance 0,
    /// whether or not it is a wall. The directions of `vect` give the order in
    /// which the search goes on from a cell.
    pub fn nearest_empty_dist(&self, x: i64, y: i64, i: usize, goal: Goal, vect: &Vec<Pos>) -> (r:
        Option<usize>)
        requires
            self.wf(),
            i < self.robots@.len(),
            self.bd.has(x as int, y as int),
            is_order(vect@),
        ensures
            self.distance_is(x, y, i as int, goal, r),
    {
        let total: usize = self.bd.cells.len();
        let mut seeds: Vec<Pos> = Vec::new();
        seeds.push((x, y));
        assert(seeds@ =~= seq![(x, y)]);
        let passable = |u: i64, v: i64| -> (ok: bool)
            requires
                self.bd.wf(),
                self.bd.has(u as int, v as int),
            ensures
                ok == self.bd.open_cells()(u as int, v as int),
            { !self.bd.get(u, v).is_wall() };
        let wanted = |u: i64, v: i64| -> (ok: bool)
            requires
                self.bd.wf(),
                self.bd.has(u as int, v as int),
                i < self.robots@.len(),
            ensures
                ok == self.wanted(i as int, goal)(u as int, v as int),
            { self.wants(i, goal, u, v) };
        let found: Option<Found> = first_hit(
            self.bd.w,
            self.bd.h,
            &seeds,
            vect,
            passable,
            wanted,
            Ghost(self.bd.open_cells()),
            Ghost(self.wanted(i as int, goal)),
        );
        match found {
            Some(f) => {
                proof {
                    let j = choose|j: int|
                        0 <= j < seeds@.len() && pt(#[trigger] seeds@[j]) == pt(f.root);
                    assert(f.root == (x, y));
                    assert(f == Found { root: (x, y), steps: f.steps, goal: f.goal });
                }
                Some(f.steps)
            },
            None => None,
        }
    }

    /// The cells that hold a cloning factory, row by row.
    pub open spec fn factories(&self) -> Seq<Pos> {
        item_cells(&self.bd, ITEM_FACTORY as int, self.bd.cells@.len() as int)
    }

    /// The cells on which a robot stands.
    pub open spec fn robot_cells(&self) -> spec_fn(int, int) -> bool {
        |x: int, y: int|
            exists|j: int|
                0 <= j < self.robots@.len() && (#[trigger] self.robots@[j]).x == x
                    && self.robots@[j].y == y
    }

    /// The robot that stands on the cell `(x, y)`; the last one, if there are
    /// several.
    fn robot_at(&self, x: i64, y: i64) -> (r: Option<usize>)
        ensures
            r is Some <==> self.robot_cells()(x as int, y as int),
            r matches Some(i) ==> i < self.robots@.len() && self.robots@[i as int].x == x
                && self.robots@[i as int].y == y && forall|j: int|
                i < j < self.robots@.len() ==> !((#[trigger] self.robots@[j]).x == x
                    && self.robots@[j].y == y),
    {
        let mut r: Option<usize> = None;
        let mut i: usize = 0;
        while i < self.robots.len()
            invariant
                i <= self.robots@.len(),
                r is None ==> forall|j: int|
                    0 <= j < i ==> !((#[trigger] self.robots@[j]).x == x && self.robots@[j].y == y),
                r matches Some(k) ==> k < i && self.robots@[k as int].x == x
                    && self.robots@[k as int].y == y && forall|j: int|
                    k < j < i ==> !((#[trigger] self.robots@[j]).x == x && self.robots@[j].y == y),
            decreases self.robots@.len() - i,
        {
            if self.robots[i].x == x && self.robots[i].y == y {
                r = Some(i);
            }
            i = i + 1;
        }
        r
    }

    /// Whether `r` is the robot nearest to a cloning factory: it stands on a
    /// cell that is as few steps from a factory as any cell with a robot on it,
    /// and no later robot stands on the same cell. The answer is nothing if and
    /// only if no robot is within reach of a factory. Among several cells that
    /// are as near, the robot stands on the one that `factory_search` finds.
    pub open spec fn closest_is(&self, r: Option<usize>) -> bool {
        &&& match self.factory_search() {
            Some(f) => r matches Some(i) && f.goal == (
                self.robots@[i as int].x,
                self.robots@[i as int].y,
            ),
            None => r is None,
        }
        &&& match r {
            Some(i) => i < self.robots@.len() && (forall|j: int|
                i < j < self.robots@.len() ==> !((#[trigger] self.robots@[j]).x
                    == self.robots@[i as int].x && self.robots@[j].y == self.robots@[i as int].y))
                && exists|f: Found|
                #[trigger] is_nearest(
                    self.bd.open_cells(),
                    self.robot_cells(),
                    self.factories(),
                    Some(f),
                ) && f.goal == (self.robots@[i as int].x, self.robots@[i as int].y),
            None => is_nearest(self.bd.open_cells(), self.robot_cells(), self.factories(), None),
        }
    }

    /// What the search for the robot nearest to a cloning factory answers: a
    /// breadth-first search from all factories at once for a cell with a robot
    /// on it, through cells that are no walls, in the order left, up, right,
    /// down.
    pub open spec fn factory_search(&self) -> Option<Found> {
        searched(
            self.bd.open_cells(),
            self.robot_cells(),
            self.bd.w as int,
            self.bd.h as int,
            self.factories(),
            seq![(-1i64, 0i64), (0i64, 1i64), (1i64, 0i64), (0i64, -1i64)],
        )
    }

    /// The robot that is nearest to a cloning factory.
    ///
    /// The search is breadth first from all factories at once, through cells
    /// that are no walls, in the order left, up, right, down.
    pub fn find_x_closest_bot(&self) -> (r: Option<usize>)
        requires
            self.wf(),
        ensures
            self.closest_is(r),
    {
        let n: usize = self.bd.cells.len();
        let mut seeds: Vec<Pos> = Vec::new();
        let mut k: usize = 0;
        while k < n
            invariant
                k <= n,
                n == self.bd.cells@.len(),
                self.bd.wf(),
                seeds@ == item_cells(&self.bd, ITEM_FACTORY as int, k as int),
                forall|j: int|
                    0 <= j < seeds@.len() ==> self.bd.has(
                        (#[trigger] seeds@[j]).0 as int,
                        seeds@[j].1 as int,
                    ),
            decreases n - k,
        {
            proof {
                crate::board::lemma_unflat(self.bd.w as int, self.bd.h as int, k as int);
            }
            match self.bd.cells[k].item() {
                Some(t) => {
                    if t == ITEM_FACTORY {
                        seeds.push(((k % self.bd.w) as i64, (k / self.bd.w) as i64));
                    }
                },
                None => {},
            }
            k = k + 1;
        }
        let mut order: Vec<Pos> = Vec::new();
        order.push((-1, 0));
        order.push((0, 1));
        order.push((1, 0));
        order.push((0, -1));
        assert(is_order(order@));
        assert(order@ =~= seq![(-1i64, 0i64), (0i64, 1i64), (1i64, 0i64), (0i64, -1i64)]);
        let passable = |u: i64, v: i64| -> (ok: bool)
            requires
                self.bd.wf(),
                self.bd.has(u as int, v as int),
            ensures
                ok == self.bd.open_cells()(u as int, v as int),
            { !self.bd.get(u, v).is_wall() };
        let wanted = |u: i64, v: i64| -> (ok: bool)
            ensures
                ok == self.robot_cells()(u as int, v as int),
            { self.robot_at(u, v).is_some() };
        let found: Option<Found> = first_hit(
            self.bd.w,
            self.bd.h,
            &seeds,
            &order,
            passable,
            wanted,
            Ghost(self.bd.open_cells()),
            Ghost(self.robot_cells()),
        );
        match found {
            Some(f) => {
                let r: Option<usize> = self.robot_at(f.goal.0, f.goal.1);
                proof {
                    assert(is_nearest(
                        self.bd.open_cells(),
                        self.robot_cells(),
                        self.factories(),
                        Some(f),
                    ));
                }
                r
            },
            None => None,
        }
    }
}

} // verus!
