use crate::board::Pos;
use crate::command::{is_step, Command};
use crate::region::{holds, pt};
use crate::rules::{Outcome, SolverOption};
use crate::solve::Rule;
use crate::state::State;
use crate::target::Goal;
use vstd::prelude::*;

verus! {

/// Whether `c` is what a robot does where there are no boosters: a step, a
/// rest, or a quarter turn where robots turn the way they walk.
pub open spec fn walks(c: Command, opt: &SolverOption) -> bool {
    c is Move || c is Nop || (opt.mop_direction && c is Turn)
}

/// Where a robot that stands at `p` stands after the command `c`, if it has
/// no wheels on: a step moves it by its offset, and nothing else moves it.
pub open spec fn after_step(p: (int, int), c: Command) -> (int, int) {
    match c {
        Command::Move(dx, dy) => (p.0 + dx, p.1 + dy),
        _ => p,
    }
}

/// Where a robot that starts at `p` stands after the turns of `sol`, in each
/// of which it alone gave a command.
pub open spec fn trail(p: (int, int), sol: Seq<Vec<Command>>) -> (int, int)
    decreases sol.len(),
{
    if sol.len() == 0 {
        p
    } else {
        after_step(trail(p, sol.drop_last()), sol.last()@[0])
    }
}

/// Whether a robot that starts at `p` and follows the turns of `sol` never
/// leaves a board of `w` by `h` cells: at the start and after each turn it
/// stands on a cell of the board.
pub open spec fn stays_on(p: (int, int), sol: Seq<Vec<Command>>, w: int, h: int) -> bool {
    forall|t: int|
        0 <= t <= sol.len() ==> 0 <= (#[trigger] trail(p, sol.take(t))).0 < w && 0 <= trail(
            p,
            sol.take(t),
        ).1 < h
}

/// A robot that stays on the board for some turns and stands on it after one
/// turn more stays on the board.
pub proof fn lemma_stays_on(p: (int, int), sol: Seq<Vec<Command>>, turn: Vec<Command>, w: int, h: int)
    requires
        stays_on(p, sol, w, h),
        0 <= trail(p, sol.push(turn)).0 < w,
        0 <= trail(p, sol.push(turn)).1 < h,
    ensures
        stays_on(p, sol.push(turn), w, h),
{
    let more = sol.push(turn);
    assert forall|t: int| 0 <= t <= more.len() implies 0 <= (#[trigger] trail(p, more.take(t))).0
        < w && 0 <= trail(p, more.take(t)).1 < h by {
        if t <= sol.len() {
            assert(more.take(t) =~= sol.take(t));
        } else {
            assert(more.take(t) =~= more);
        }
    }
}

impl State {
    /// A robot without wheels that is sent to a cell stands there.
    pub proof fn lemma_place_stepped(&self, pre: &State, i: int, x: int, y: int, detect_island: bool)
        requires
            0 <= i < pre.robots@.len(),
            pre.robots@[i].fast_count == 0,
            self.stepped(pre, i, x, y, detect_island),
        ensures
            self.place(i) == (x, y),
            self.robots@[i].fast_count == 0,
    {
        let mid = choose|mid: State|
            #[trigger] mid.moved(pre, i, x, y, detect_island) && (if is_step(
                x - pre.robots@[i].x,
                y - pre.robots@[i].y,
            ) {
                self.followed(
                    &mid,
                    i,
                    x + x - pre.robots@[i].x,
                    y + y - pre.robots@[i].y,
                    detect_island,
                )
            } else {
                *self == mid
            });
        assert(mid.robots@[i].fast_count == 0);
    }

    /// Whether there is no booster anywhere: none on the board, none in store
    /// and none carried. Then there is one robot only, which heads for no cell,
    /// no cell waits for a robot, and no portal was dropped.
    pub open spec fn bare(&self) -> bool {
        &&& self.bd.bare()
        &&& forall|k: int| 0 <= k < 7 ==> #[trigger] self.items@[k] == 0
        &&& self.robots@.len() == 1
        &&& self.robots@[0].target is None
        &&& self.robots@[0].num_collected_portal == 0
        &&& self.pending_clone@.len() == 0
        &&& self.portal_num == 0
        &&& self.portals@.len() == 0
        &&& self.spawn_bot is None
    }

    /// Whether the plan of robot `i` can be carried out: it holds quarter
    /// turns and at most one step, which is the command taken next and leads to
    /// a cell of the board.
    pub open spec fn ready(&self, i: int) -> bool {
        let me = self.robots@[i];
        forall|j: int|
            0 <= j < me.queue@.len() ==> (#[trigger] me.queue@[j] matches Command::Move(dx, dy)
                ==> j == me.queue@.len() - 1 && self.bd.has(me.x + dx, me.y + dy))
    }

    /// Whether robot `i` has painted the cell on which it stands: one of its
    /// manipulators lies at the robot itself, and the cell is painted or a wall.
    pub open spec fn at_home(&self, i: int) -> bool {
        let c = self.bd.at(self.robots@[i].x as int, self.robots@[i].y as int);
        holds(self.robots@[i].manips@, (0, 0)) && (c.wall() || c.painted())
    }

    /// A robot with a manipulator at the robot itself paints the cell to which
    /// it moves.
    pub proof fn lemma_home_moved(&self, pre: &State, i: int, x: int, y: int, detect_island: bool)
        requires
            0 <= i < pre.robots@.len(),
            pre.bd.has(x, y),
            holds(pre.robots@[i].manips@, (0, 0)),
            self.moved(pre, i, x, y, detect_island),
        ensures
            self.at_home(i),
    {
        let ms = pre.robots@[i].manips@;
        let m = choose|m: int| 0 <= m < ms.len() && pt(#[trigger] ms[m]) == (0int, 0int);
        if !pre.bd.at(x, y).wall() {
            assert(pre.bd.sees(x, y, x, y));
            assert(pre.hit_by(i, x, y, m, x, y));
            assert(pre.hits(i, x, y, x, y));
        }
        assert(self.bd.at(x, y).wall() == pre.bd.at(x, y).wall());
    }

    /// Where there is no booster, a robot that has painted the cell on which it
    /// stands has done so after it went on with its wheels.
    pub proof fn lemma_home_followed(&self, pre: &State, i: int, x: int, y: int, detect_island: bool)
        requires
            pre.bare(),
            pre.at_home(i),
            0 <= i < pre.robots@.len(),
            pre.bd.has(pre.robots@[i].x as int, pre.robots@[i].y as int),
            self.followed(pre, i, x, y, detect_island),
        ensures
            self.at_home(i),
    {
        if pre.robots@[i].fast_count > 0 {
            let mid = choose|mid: State|
                #[trigger] mid.collected(pre, i) && (if pre.bd.has(x, y) && !pre.bd.at(x, y).wall() {
                    self.moved(&mid, i, x, y, detect_island)
                } else {
                    *self == mid
                });
            mid.lemma_bare_collected(pre, i);
            if pre.bd.has(x, y) && !pre.bd.at(x, y).wall() {
                self.lemma_home_moved(&mid, i, x, y, detect_island);
            }
        }
    }

    /// Where there is no booster, a robot with a manipulator at the robot
    /// itself has painted the cell on which it stands after it was sent to a
    /// cell.
    pub proof fn lemma_home_stepped(&self, pre: &State, i: int, x: int, y: int, detect_island: bool)
        requires
            pre.bare(),
            holds(pre.robots@[i].manips@, (0, 0)),
            0 <= i < pre.robots@.len(),
            pre.bd.has(x, y),
            self.stepped(pre, i, x, y, detect_island),
        ensures
            self.at_home(i),
    {
        let mid = choose|mid: State|
            #[trigger] mid.moved(pre, i, x, y, detect_island) && (if is_step(
                x - pre.robots@[i].x,
                y - pre.robots@[i].y,
            ) {
                self.followed(
                    &mid,
                    i,
                    x + x - pre.robots@[i].x,
                    y + y - pre.robots@[i].y,
                    detect_island,
                )
            } else {
                *self == mid
            });
        mid.lemma_home_moved(pre, i, x, y, detect_island);
        mid.lemma_bare_moved(pre, i, x, y, detect_island);
        if is_step(x - pre.robots@[i].x, y - pre.robots@[i].y) {
            self.lemma_home_followed(
                &mid,
                i,
                x + x - pre.robots@[i].x,
                y + y - pre.robots@[i].y,
                detect_island,
            );
        }
    }

    /// A robot with a manipulator at the robot itself has painted the cell on
    /// which it stands after a quarter turn.
    pub proof fn lemma_home_turned(&self, pre: &State, mid: &State, i: int, dir: bool)
        requires
            0 <= i < pre.robots@.len(),
            pre.bd.has(pre.robots@[i].x as int, pre.robots@[i].y as int),
            holds(pre.robots@[i].manips@, (0, 0)),
            mid.turned(pre, i, dir),
            self.moved(mid, i, pre.robots@[i].x as int, pre.robots@[i].y as int, true),
        ensures
            self.at_home(i),
    {
        let ms = pre.robots@[i].manips@;
        let m = choose|m: int| 0 <= m < ms.len() && pt(#[trigger] ms[m]) == (0int, 0int);
        assert(pt(mid.robots@[i].manips@[m]) == State::turned_offset(ms[m], dir));
        assert(holds(mid.robots@[i].manips@, (0, 0)));
        self.lemma_home_moved(mid, i, pre.robots@[i].x as int, pre.robots@[i].y as int, true);
    }

    /// Where there is no booster, a robot picks up nothing.
    pub proof fn lemma_bare_collected(&self, pre: &State, i: int)
        requires
            pre.bare(),
            pre.bd.has(pre.robots@[i].x as int, pre.robots@[i].y as int),
            self.collected(pre, i),
        ensures
            *self == *pre,
    {
    }

    /// Where there is no booster, there is none after a move.
    pub proof fn lemma_bare_moved(&self, pre: &State, i: int, x: int, y: int, detect_island: bool)
        requires
            pre.bare(),
            0 <= i < pre.robots@.len(),
            self.moved(pre, i, x, y, detect_island),
        ensures
            self.bare(),
    {
        assert forall|cx: int, cy: int| self.bd.has(cx, cy) implies (#[trigger] self.bd.at(
            cx,
            cy,
        )).item_code() == 0 by {
            assert(pre.bd.at(cx, cy).item_code() == 0);
        }
    }

    /// Where there is no booster, there is none after a robot went on with its
    /// wheels.
    pub proof fn lemma_bare_followed(&self, pre: &State, i: int, x: int, y: int, detect_island: bool)
        requires
            pre.bare(),
            0 <= i < pre.robots@.len(),
            pre.bd.has(pre.robots@[i].x as int, pre.robots@[i].y as int),
            self.followed(pre, i, x, y, detect_island),
        ensures
            self.bare(),
    {
        if pre.robots@[i].fast_count > 0 {
            let mid = choose|mid: State|
                #[trigger] mid.collected(pre, i) && (if pre.bd.has(x, y) && !pre.bd.at(x, y).wall() {
                    self.moved(&mid, i, x, y, detect_island)
                } else {
                    *self == mid
                });
            mid.lemma_bare_collected(pre, i);
            if pre.bd.has(x, y) && !pre.bd.at(x, y).wall() {
                self.lemma_bare_moved(&mid, i, x, y, detect_island);
            }
        }
    }

    /// Where there is no booster, there is none after a robot was sent to a
    /// cell.
    pub proof fn lemma_bare_stepped(&self, pre: &State, i: int, x: int, y: int, detect_island: bool)
        requires
            pre.bare(),
            0 <= i < pre.robots@.len(),
            pre.bd.has(x, y),
            self.stepped(pre, i, x, y, detect_island),
        ensures
            self.bare(),
    {
        let mid = choose|mid: State|
            #[trigger] mid.moved(pre, i, x, y, detect_island) && (if is_step(
                x - pre.robots@[i].x,
                y - pre.robots@[i].y,
            ) {
                self.followed(
                    &mid,
                    i,
                    x + x - pre.robots@[i].x,
                    y + y - pre.robots@[i].y,
                    detect_island,
                )
            } else {
                *self == mid
            });
        mid.lemma_bare_moved(pre, i, x, y, detect_island);
        if is_step(x - pre.robots@[i].x, y - pre.robots@[i].y) {
            self.lemma_bare_followed(
                &mid,
                i,
                x + x - pre.robots@[i].x,
                y + y - pre.robots@[i].y,
                detect_island,
            );
        }
    }

    /// Where there is no booster, there is none after a quarter turn.
    pub proof fn lemma_bare_turned(&self, pre: &State, mid: &State, i: int, dir: bool)
        requires
            pre.bare(),
            0 <= i < pre.robots@.len(),
            mid.turned(pre, i, dir),
            self.moved(mid, i, pre.robots@[i].x as int, pre.robots@[i].y as int, true),
        ensures
            self.bare(),
    {
        assert(mid.bare());
        self.lemma_bare_moved(mid, i, pre.robots@[i].x as int, pre.robots@[i].y as int, true);
    }

    /// A robot that goes on with its wheels keeps its plan.
    pub proof fn lemma_plan_followed(&self, pre: &State, i: int, x: int, y: int, detect_island: bool)
        requires
            0 <= i < pre.robots@.len(),
            self.followed(pre, i, x, y, detect_island),
        ensures
            self.robots@[i].queue == pre.robots@[i].queue,
            self.bd.same_size(&pre.bd),
    {
        if pre.robots@[i].fast_count > 0 {
            let mid = choose|mid: State|
                #[trigger] mid.collected(pre, i) && (if pre.bd.has(x, y) && !pre.bd.at(x, y).wall() {
                    self.moved(&mid, i, x, y, detect_island)
                } else {
                    *self == mid
                });
            assert(mid.robots@[i].queue == pre.robots@[i].queue);
        }
    }

    /// A robot that is sent to a cell keeps its plan.
    pub proof fn lemma_plan_stepped(&self, pre: &State, i: int, x: int, y: int, detect_island: bool)
        requires
            0 <= i < pre.robots@.len(),
            self.stepped(pre, i, x, y, detect_island),
        ensures
            self.robots@[i].queue == pre.robots@[i].queue,
            self.bd.same_size(&pre.bd),
    {
        let mid = choose|mid: State|
            #[trigger] mid.moved(pre, i, x, y, detect_island) && (if is_step(
                x - pre.robots@[i].x,
                y - pre.robots@[i].y,
            ) {
                self.followed(
                    &mid,
                    i,
                    x + x - pre.robots@[i].x,
                    y + y - pre.robots@[i].y,
                    detect_island,
                )
            } else {
                *self == mid
            });
        if is_step(x - pre.robots@[i].x, y - pre.robots@[i].y) {
            self.lemma_plan_followed(
                &mid,
                i,
                x + x - pre.robots@[i].x,
                y + y - pre.robots@[i].y,
                detect_island,
            );
        }
    }

    /// A robot that makes a quarter turn keeps its plan and its place.
    pub proof fn lemma_plan_turned(&self, pre: &State, mid: &State, i: int, dir: bool)
        requires
            0 <= i < pre.robots@.len(),
            mid.turned(pre, i, dir),
            self.moved(mid, i, pre.robots@[i].x as int, pre.robots@[i].y as int, true),
        ensures
            self.robots@[i].queue == pre.robots@[i].queue,
            self.robots@[i].x == pre.robots@[i].x,
            self.robots@[i].y == pre.robots@[i].y,
            self.bd.same_size(&pre.bd),
    {
    }

    /// Whether the run is a plain one: there is no booster anywhere, the one
    /// robot has painted the cell on which it stands and has no wheels on, and
    /// its plan can be carried out and is empty unless robots turn the way they
    /// walk.
    pub open spec fn plain(&self, opt: &SolverOption) -> bool {
        &&& self.bare()
        &&& self.at_home(0)
        &&& self.ready(0)
        &&& (opt.mop_direction || self.robots@[0].queue@.len() == 0)
        &&& self.robots@[0].fast_count == 0
    }

    /// In a plain run the robot that carries out a planned command leaves the
    /// run plain and does not stop it.
    pub proof fn lemma_plain_carried_out(&self, pre: &State, opt: &SolverOption, o: Outcome)
        requires
            pre.wf(),
            pre.plain(opt),
            pre.robots@[0].queue@.len() > 0,
            self.carried_out(pre, 0, o),
        ensures
            self.plain(opt),
            o matches Outcome::Acted(c) && walks(c, opt) && self.place(0) == after_step(
                pre.place(0),
                c,
            ),
    {
        let q = pre.robots@[0].queue@;
        let cmd = q.last();
        let mid = choose|mid: State| #[trigger] mid.popped(pre, 0) && self.done(&mid, 0, cmd, o);
        assert(pre.robots@[0].wf(&pre.bd));
        assert(mid.bare());
        assert(cmd == q[q.len() - 1]);
        assert forall|j: int| 0 <= j < mid.robots@[0].queue@.len() implies !(
        #[trigger] mid.robots@[0].queue@[j] is Move) by {
            assert(mid.robots@[0].queue@[j] == q[j]);
        }
        match cmd {
            Command::Turn(dir) => {
                let t = choose|t: State|
                    #[trigger] t.turned(&mid, 0, dir) && self.moved(
                        &t,
                        0,
                        mid.place(0).0,
                        mid.place(0).1,
                        true,
                    );
                self.lemma_bare_turned(&mid, &t, 0, dir);
                self.lemma_home_turned(&mid, &t, 0, dir);
                self.lemma_plan_turned(&mid, &t, 0, dir);
            },
            Command::Move(dx, dy) => {
                let x = mid.place(0).0 + dx;
                let y = mid.place(0).1 + dy;
                self.lemma_bare_stepped(&mid, 0, x, y, true);
                self.lemma_home_stepped(&mid, 0, x, y, true);
                self.lemma_plan_stepped(&mid, 0, x, y, true);
                self.lemma_place_stepped(&mid, 0, x, y, true);
            },
            _ => {},
        }
    }

    /// In a plain run the robot that goes on painting leaves the run plain
    /// and does not stop it.
    pub proof fn lemma_plain_painting(
        &self,
        pre: &State,
        opt: &SolverOption,
        last: Option<Command>,
        o: Outcome,
    )
        requires
            pre.wf(),
            pre.plain(opt),
            pre.robots@[0].queue@.len() == 0,
            self.painting(pre, 0, opt, last, o),
        ensures
            self.plain(opt),
            o !is Stuck,
            o matches Outcome::Acted(c) ==> walks(c, opt) && self.place(0) == after_step(
                pre.place(0),
                c,
            ),
            o is Done ==> *self == *pre,
    {
        let found = choose|found: Option<(Pos, usize, Pos)>|
            #[trigger] pre.nearest_is(0, Goal::Unpainted, found) && self.painted_with(
                pre,
                0,
                opt,
                last,
                found,
                o,
            );
        assert(pre.robots@[0].wf(&pre.bd));
        match found {
            None => {},
            Some((first, dist, target)) => {
                pre.lemma_first_step(0, Goal::Unpainted, first, dist, target);
                let d = ((first.0 - pre.robots@[0].x) as i64, (first.1 - pre.robots@[0].y) as i64);
                if is_step(d.0 as int, d.1 as int) && opt.mop_direction && !crate::region::holds(
                    pre.robots@[0].manips@,
                    crate::region::pt(d),
                ) && last == Some(Command::Move(d.0, d.1)) {
                    let way = pre.turns_right(0, crate::region::pt(d));
                    let back = crate::region::holds(pre.robots@[0].manips@, (-d.0, -d.1));
                    let (a, b) = choose|a: State, b: State|
                        #![trigger b.moved(&a, 0, pre.place(0).0, pre.place(0).1, true)]
                        {
                            &&& a.turned(pre, 0, way)
                            &&& b.moved(&a, 0, pre.place(0).0, pre.place(0).1, true)
                            &&& self.step_planned(&b, 0, d, back)
                        };
                    b.lemma_bare_turned(pre, &a, 0, way);
                    b.lemma_home_turned(pre, &a, 0, way);
                    b.lemma_plan_turned(pre, &a, 0, way);
                    assert(self.bare());
                } else {
                    self.lemma_bare_stepped(pre, 0, first.0 as int, first.1 as int, true);
                    self.lemma_home_stepped(pre, 0, first.0 as int, first.1 as int, true);
                    self.lemma_plan_stepped(pre, 0, first.0 as int, first.1 as int, true);
                    self.lemma_place_stepped(pre, 0, first.0 as int, first.1 as int, true);
                }
            },
        }
    }

    /// In a plain run a turn of the robot leaves the run plain and does not
    /// stop it, and what the robot does is a step, a rest or a quarter turn.
    pub proof fn lemma_plain_acted(
        &self,
        pre: &State,
        opt: &SolverOption,
        last: Option<Command>,
        shortest_mop: usize,
        o: Outcome,
    )
        requires
            pre.wf(),
            pre.plain(opt),
            self.acted(pre, 0, opt, last, shortest_mop, o),
        ensures
            self.plain(opt),
            o !is Stuck,
            o matches Outcome::Acted(c) ==> walks(c, opt) && self.place(0) == after_step(
                pre.place(0),
                c,
            ),
            o is Done ==> self.place(0) == pre.place(0),
    {
        if !pre.robots@[0].finished {
            let c = choose|c: State|
                #[trigger] c.begun(pre, 0) && (if c.robots@[0].queue@.len() > 0 {
                    self.carried_out(&c, 0, o)
                } else {
                    self.chosen(&c, 0, opt, last, shortest_mop, o)
                });
            let (a, b) = choose|a: State, b: State|
                #![trigger b.collected(&a, 0)]
                {
                    &&& a.with_robot(pre, 0, State::ticked(pre.robots@[0]))
                    &&& b.collected(&a, 0)
                    &&& c.with_robot(&b, 0, State::settled(b.robots@[0]))
                };
            assert(pre.robots@[0].wf(&pre.bd));
            assert(a.bare() && a.at_home(0) && a.ready(0));
            b.lemma_bare_collected(&a, 0);
            assert(c.plain(opt));
            assert(c.steady(pre));
            c.lemma_steady_wf(pre);
            if c.robots@[0].queue@.len() > 0 {
                self.lemma_plain_carried_out(&c, opt, o);
            } else {
                let (d, roll) = choose|d: State, roll: usize|
                    #![trigger self.decided(&d, 0, opt, last, shortest_mop, roll, o)]
                    {
                        &&& d.spawner_chosen(&c, opt.spawn_delegate)
                        &&& opt.drop_portal_randomly || roll == 0
                        &&& self.decided(&d, 0, opt, last, shortest_mop, roll, o)
                    };
                assert(d == c);
                assert forall|k: int| 0 <= k < 4 implies !c.grab_way(0, opt, k) by {}
                assert(c.rule(0, opt, shortest_mop, roll) == Rule::Paint);
                self.lemma_plain_painting(&c, opt, last, o);
            }
        }
    }
}

} // verus!
