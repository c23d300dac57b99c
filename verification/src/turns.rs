use crate::board::Pos;
use crate::cell::{
    ITEM_DRILL, ITEM_FACTORY, ITEM_MANIPULATOR, ITEM_PORTAL, ITEM_WHEELS, MAX_OWNER,
};
use crate::command::{is_step, Command};
use crate::region::pt;
use crate::rules::{
    faces, facing, next_arm, next_offset, steps_between, Outcome, SolveError, SolverOption,
    DRILL_FROM,
};
use crate::state::{unit, State, REACH};
use crate::steps::DRILL_TURNS;
use crate::target::{has_point, Goal};
use vstd::prelude::*;

verus! {

/// Whether an item with the code `code` is one that a robot steps aside for:
/// an extra manipulator, a portal, and wheels or a drill where the robots use
/// them.
pub open spec fn worth(code: int, opt: &SolverOption) -> bool {
    code == ITEM_MANIPULATOR || code == ITEM_PORTAL || (opt.aggressive_fast && code == ITEM_WHEELS)
        || (opt.use_drill && code == ITEM_DRILL)
}

/// The command that takes a robot from `from` to `to`: a step if the cell is
/// one step away, else a jump.
pub open spec fn way_to(from: (int, int), to: Pos) -> Command {
    if is_step(to.0 - from.0, to.1 - from.1) {
        Command::Move((to.0 - from.0) as i64, (to.1 - from.1) as i64)
    } else {
        Command::Teleport(to.0, to.1)
    }
}

impl State {
    /// Where robot `i` stands.
    pub open spec fn place(&self, i: int) -> (int, int) {
        (self.robots@[i].x as int, self.robots@[i].y as int)
    }

    /// Whether robot `i` stands on a cloning factory.
    pub open spec fn on_factory(&self, i: int) -> bool {
        self.bd.at(self.place(i).0, self.place(i).1).item_code() == ITEM_FACTORY
    }

    /// Whether a useful booster lies next to robot `i` in the `k`-th of its
    /// directions.
    pub open spec fn grab_way(&self, i: int, opt: &SolverOption, k: int) -> bool {
        let d = self.robots@[i].vect@[k];
        let c = (self.place(i).0 + d.0, self.place(i).1 + d.1);
        self.bd.has(c.0, c.1) && worth(self.bd.at(c.0, c.1).item_code(), opt)
    }

    /// Whether the state is `pre` with the command that robot `i` planned
    /// last taken out of its plan.
    pub open spec fn popped(&self, pre: &State, i: int) -> bool {
        &&& self.with_robot(
            pre,
            i,
            (crate::state::RobotState { queue: self.robots@[i].queue, ..pre.robots@[i] }),
        )
        &&& self.robots@[i].queue@ == pre.robots@[i].queue@.drop_last()
    }

    /// What it makes of the state `pre` that robot `i` carries out the
    /// command `cmd`, with the outcome `o`.
    ///
    /// A quarter turn is made. A step is made as a robot is sent to the cell
    /// beside it, unless it leads off the board: then the run stops.
    pub open spec fn done(&self, pre: &State, i: int, cmd: Command, o: Outcome) -> bool {
        match cmd {
            Command::Turn(dir) => o == Outcome::Acted(cmd) && exists|t: State|
                #[trigger] t.turned(pre, i, dir) && self.moved(
                    &t,
                    i,
                    pre.place(i).0,
                    pre.place(i).1,
                    true,
                ),
            Command::Move(dx, dy) => if pre.bd.has(pre.place(i).0 + dx, pre.place(i).1 + dy) {
                o == Outcome::Acted(cmd) && self.stepped(
                    pre,
                    i,
                    pre.place(i).0 + dx,
                    pre.place(i).1 + dy,
                    true,
                )
            } else {
                o == Outcome::Stuck(SolveError::OffBoard) && *self == *pre
            },
            _ => o == Outcome::Acted(Command::Nop) && *self == *pre,
        }
    }

    /// What it makes of the state `pre` that robot `i` carries out the
    /// command that it planned last, with the outcome `o`: the command leaves
    /// the plan and is carried out.
    pub open spec fn carried_out(&self, pre: &State, i: int, o: Outcome) -> bool {
        exists|mid: State|
            #[trigger] mid.popped(pre, i) && self.done(&mid, i, pre.robots@[i].queue@.last(), o)
    }

    /// The robot carries out the command that it planned last, if it planned
    /// any: a quarter turn or a step, and with fast wheels a second step. A
    /// step that leads off the board stops the run.
    pub fn act_plan(&mut self, i: usize) -> (r: Option<Outcome>)
        requires
            old(self).wf(),
            i < old(self).robots@.len(),
        ensures
            final(self).after(old(self)),
            r is None <==> old(self).robots@[i as int].queue@.len() == 0,
            r is None ==> *final(self) == *old(self),
            r matches Some(o) ==> final(self).carried_out(old(self), i as int, o) && (
            o matches Outcome::Acted(c) ==> c.wf() && c.lands(
                old(self).bd.w as int,
                old(self).bd.h as int,
            )),
    {
        let ghost s0: State = *self;
        let planned: Option<Command> = self.pop_plan(i);
        let ghost s1: State = *self;
        match planned {
            None => None,
            Some(cmd) => {
                assert(s1.popped(&s0, i as int));
                match cmd {
                    Command::Turn(b) => {
                        self.spin(b, i);
                        proof {
                            self.lemma_after_chain(&s1, &s0);
                        }
                        Some(Outcome::Acted(cmd))
                    },
                    Command::Move(dx, dy) => {
                        assert(self.robots@[i as int].wf(&self.bd));
                        let nx: i64 = self.robots[i].x + dx;
                        let ny: i64 = self.robots[i].y + dy;
                        if !self.bd.contains(nx, ny) {
                            return Some(Outcome::Stuck(SolveError::OffBoard));
                        }
                        let c: Command = self.step_to(i, nx, ny, true);
                        proof {
                            self.lemma_after_chain(&s1, &s0);
                        }
                        Some(Outcome::Acted(c))
                    },
                    _ => Some(Outcome::Acted(Command::Nop)),
                }
            },
        }
    }

    /// What it makes of the state `pre` that robot `i` searches for `goal` and
    /// goes towards what it found, with the outcome `o`.
    ///
    /// Where the search finds nothing, nothing changes and the run stops. Else
    /// the robot is sent to the first cell on its way, by a step or by a jump.
    pub open spec fn went(&self, pre: &State, i: int, goal: Goal, detect_island: bool, o: Outcome) -> bool {
        exists|found: Option<(Pos, usize, Pos)>|
            #[trigger] pre.nearest_is(i, goal, found) && match found {
                None => o == Outcome::Stuck(SolveError::NoTarget) && *self == *pre,
                Some((first, _, _)) => o == Outcome::Acted(way_to(pre.place(i), first))
                    && self.stepped(pre, i, first.0 as int, first.1 as int, detect_island),
            }
    }

    /// The quarter turns that the robot with the number `id` plans when it is
    /// made: none, one clockwise, two clockwise or one the other way, by turns,
    /// where cloned robots face different ways.
    pub open spec fn first_turns(id: int, opt: &SolverOption) -> Seq<Command> {
        if !opt.change_clone_dir || id % 4 == 0 {
            Seq::empty()
        } else if id % 4 == 1 {
            seq![Command::Turn(true)]
        } else if id % 4 == 2 {
            seq![Command::Turn(true), Command::Turn(true)]
        } else {
            seq![Command::Turn(false)]
        }
    }

    /// What it makes of the state `pre` that robot `i` clones: a new robot
    /// stands where robot `i` stands, with its first quarter turns planned, and
    /// one cloning booster has left the store.
    pub open spec fn cloned(&self, pre: &State, i: int, opt: &SolverOption) -> bool {
        let n = pre.robots@.len() as int;
        exists|a: State, b: State|
            #![trigger a.robot_added(pre, pre.place(i).0, pre.place(i).1), self.spent_clone(&b)]
            {
                &&& a.robot_added(pre, pre.place(i).0, pre.place(i).1)
                &&& b.with_robot(
                    &a,
                    n,
                    (crate::state::RobotState { queue: b.robots@[n].queue, ..a.robots@[n] }),
                )
                &&& b.robots@[n].queue@ == State::first_turns(n, opt)
                &&& self.spent_clone(&b)
            }
    }

    /// What the turn of the robot that is to clone makes of the state `pre`,
    /// with the outcome `o`.
    ///
    /// The robot gives up its target. On a cloning factory it clones, unless
    /// there are as many robots as there can be: then the run stops. Anywhere
    /// else it goes towards the nearest factory.
    pub open spec fn spawned(&self, pre: &State, i: int, opt: &SolverOption, o: Outcome) -> bool {
        exists|mid: State|
            #[trigger] mid.gave_back(pre, i) && (if pre.on_factory(i) {
                if pre.robots@.len() > MAX_OWNER {
                    o == Outcome::Stuck(SolveError::TooManyRobots) && *self == mid
                } else {
                    o == Outcome::Acted(Command::Clone) && self.cloned(&mid, i, opt)
                }
            } else {
                self.went(&mid, i, Goal::Item(ITEM_FACTORY), false, o)
            })
    }

    /// The robot that is to clone gives up its target. On the cloning factory
    /// it clones: the new robot stands where it stands and, where cloned robots
    /// face different ways, plans its quarter turns; one cloning booster leaves
    /// the store. Anywhere else it goes towards the nearest factory.
    pub fn spawn_turn(&mut self, i: usize, opt: &SolverOption) -> (r: Outcome)
        requires
            old(self).wf(),
            i < old(self).robots@.len(),
            old(self).spawn_bot == Some(i),
        ensures
            final(self).after(old(self)),
            r matches Outcome::Acted(c) ==> c.wf() && c.lands(
                old(self).bd.w as int,
                old(self).bd.h as int,
            ),
            final(self).spawned(old(self), i as int, opt, r),
    {
        let ghost s0: State = *self;
        self.give_back_target(i);
        let ghost s2: State = *self;
        assert(self.robots@[i as int].wf(&self.bd));
        let x: i64 = self.robots[i].x;
        let y: i64 = self.robots[i].y;
        let on_factory: bool = match self.bd.get(x, y).item() {
            Some(t) => t == ITEM_FACTORY,
            None => false,
        };
        if on_factory {
            if self.robots.len() > MAX_OWNER {
                return Outcome::Stuck(SolveError::TooManyRobots);
            }
            self.add_robot(x, y);
            let ghost s3: State = *self;
            let id: usize = self.robots.len() - 1;
            proof {
                assert(s3.bd.grown_from(&s2.bd));
                s3.lemma_after_chain(&s2, &s0);
                assert(s3.robots@ =~= s3.robots@.update(id as int, s3.robots@[id as int]));
            }
            if opt.change_clone_dir {
                let quarter: usize = id % 4;
                if quarter == 1 {
                    self.push_plan(id, Command::Turn(true));
                } else if quarter == 2 {
                    self.push_plan(id, Command::Turn(true));
                    let ghost s4: State = *self;
                    proof {
                        s4.lemma_after_chain(&s3, &s0);
                    }
                    self.push_plan(id, Command::Turn(true));
                    proof {
                        self.lemma_after_chain(&s4, &s0);
                        assert(self.robots@ =~= s3.robots@.update(id as int, self.robots@[id as int]));
                    }
                } else if quarter == 3 {
                    self.push_plan(id, Command::Turn(false));
                }
                proof {
                    if quarter == 1 || quarter == 3 {
                        self.lemma_after_chain(&s3, &s0);
                    }
                }
            }
            let ghost s5: State = *self;
            proof {
                assert(s5.robots@[id as int].queue@ =~= State::first_turns(id as int, opt));
                assert(s5.with_robot(
                    &s3,
                    id as int,
                    (crate::state::RobotState {
                        queue: s5.robots@[id as int].queue,
                        ..s3.robots@[id as int]
                    }),
                ));
            }
            self.spend_clone();
            proof {
                self.lemma_after_chain(&s5, &s0);
                assert(s3.robot_added(&s2, s2.place(i as int).0, s2.place(i as int).1));
                assert(self.spent_clone(&s5));
                assert(self.cloned(&s2, i as int, opt));
                assert(s2.gave_back(&s0, i as int));
            }
            Outcome::Acted(Command::Clone)
        } else {
            let r: Outcome = self.walk(i, Goal::Item(ITEM_FACTORY), false);
            proof {
                self.lemma_after_chain(&s2, &s0);
                assert(s2.gave_back(&s0, i as int));
            }
            r
        }
    }

    /// Robot `i` searches for `goal` and goes towards what it found: by a step
    /// if the first cell on its way is one step away, and then on as its wheels
    /// allow, else by a jump. Where it finds nothing, the run stops.
    pub fn walk(&mut self, i: usize, goal: Goal, detect_island: bool) -> (r: Outcome)
        requires
            old(self).wf(),
            i < old(self).robots@.len(),
        ensures
            final(self).after(old(self)),
            r matches Outcome::Acted(c) ==> c.wf() && c.lands(
                old(self).bd.w as int,
                old(self).bd.h as int,
            ),
            final(self).went(old(self), i as int, goal, detect_island, r),
    {
        let found: Option<(Pos, usize, Pos)> = self.nearest(i, goal);
        assert(old(self).nearest_is(i as int, goal, found));
        match found {
            None => Outcome::Stuck(SolveError::NoTarget),
            Some((first, _, _)) => {
                let c: Command = self.step_to(i, first.0, first.1, detect_island);
                Outcome::Acted(c)
            },
        }
    }

    /// What the turn of a robot that fetches a cloning booster makes of the
    /// state `pre`, with the outcome `o`.
    ///
    /// A robot without a target takes the nearest cell that waits for a robot
    /// as its target; where none is within reach, the run stops. Then the robot
    /// goes towards its target.
    pub open spec fn targeted(&self, pre: &State, i: int, o: Outcome) -> bool {
        match pre.robots@[i].target {
            Some(t) => self.went(pre, i, Goal::At(t.0, t.1), false, o),
            None => exists|waiting: Option<(Pos, usize, Pos)>|
                #[trigger] pre.nearest_is(i, Goal::Pending, waiting) && match waiting {
                    None => o == Outcome::Stuck(SolveError::NoTarget) && *self == *pre,
                    Some((_, _, t)) => exists|mid: State|
                        #[trigger] mid.claimed(pre, i, t) && self.went(
                            &mid,
                            i,
                            Goal::At(t.0, t.1),
                            false,
                            o,
                        ),
                },
        }
    }

    /// A robot without a target takes the nearest cloning booster that waits
    /// for a robot as its target. Then it goes towards its target. A target
    /// that is out of reach stops the run.
    pub fn target_turn(&mut self, i: usize) -> (r: Outcome)
        requires
            old(self).wf(),
            i < old(self).robots@.len(),
        ensures
            final(self).after(old(self)),
            r matches Outcome::Acted(c) ==> c.wf() && c.lands(
                old(self).bd.w as int,
                old(self).bd.h as int,
            ),
            final(self).targeted(old(self), i as int, r),
    {
        let ghost s0: State = *self;
        match self.robots[i].target {
            Some(t) => self.walk(i, Goal::At(t.0, t.1), false),
            None => {
                let waiting: Option<(Pos, usize, Pos)> = self.nearest(i, Goal::Pending);
                assert(s0.nearest_is(i as int, Goal::Pending, waiting));
                match waiting {
                    None => Outcome::Stuck(SolveError::NoTarget),
                    Some((_, _, t)) => {
                        self.claim_pending(i, t);
                        let ghost s1: State = *self;
                        let r: Outcome = self.walk(i, Goal::At(t.0, t.1), false);
                        proof {
                            self.lemma_after_chain(&s1, &s0);
                            assert(s1.claimed(&s0, i as int, t));
                        }
                        r
                    },
                }
            },
        }
    }

    /// The robot goes towards the nearest portal booster. Where none is within
    /// reach the run stops.
    pub fn portal_turn(&mut self, i: usize) -> (r: Outcome)
        requires
            old(self).wf(),
            i < old(self).robots@.len(),
        ensures
            final(self).after(old(self)),
            r matches Outcome::Acted(c) ==> c.wf() && c.lands(
                old(self).bd.w as int,
                old(self).bd.h as int,
            ),
            final(self).went(old(self), i as int, Goal::Item(ITEM_PORTAL), false, r),
    {
        self.walk(i, Goal::Item(ITEM_PORTAL), false)
    }

    /// Whether the item with the code `item` is one that a robot steps aside
    /// for.
    pub fn worth_a_step(item: Option<usize>, opt: &SolverOption) -> (b: bool)
        ensures
            b == (item matches Some(t) && worth(t as int, opt)),
    {
        match item {
            Some(t) => t == ITEM_MANIPULATOR || t == ITEM_PORTAL || (opt.aggressive_fast && t
                == ITEM_WHEELS) || (opt.use_drill && t == ITEM_DRILL),
            None => false,
        }
    }

    /// The first of the directions of robot `i` in which a useful booster lies
    /// next to it.
    pub fn grab_index(&self, i: usize, opt: &SolverOption) -> (r: Option<usize>)
        requires
            self.wf(),
            i < self.robots@.len(),
        ensures
            match r {
                Some(k) => k < 4 && self.grab_way(i as int, opt, k as int) && forall|j: int|
                    0 <= j < k ==> !self.grab_way(i as int, opt, j),
                None => forall|j: int| 0 <= j < 4 ==> !self.grab_way(i as int, opt, j),
            },
    {
        let mut k: usize = 0;
        while k < 4
            invariant
                k <= 4,
                self.wf(),
                i < self.robots@.len(),
                forall|j: int| 0 <= j < k ==> !self.grab_way(i as int, opt, j),
            decreases 4 - k,
        {
            assert(self.robots@[i as int].wf(&self.bd));
            let d: Pos = self.robots[i].vect[k];
            assert(unit(self.robots@[i as int].vect@[k as int]));
            let cx: i64 = d.0 + self.robots[i].x;
            let cy: i64 = d.1 + self.robots[i].y;
            if self.bd.contains(cx, cy) {
                let item: Option<usize> = self.bd.get(cx, cy).item();
                if State::worth_a_step(item, opt) {
                    return Some(k);
                }
            }
            k = k + 1;
        }
        None
    }

    /// The robot steps in the `k`-th of its directions, and with fast wheels
    /// a second step.
    pub fn grab_turn(&mut self, i: usize, k: usize) -> (r: Outcome)
        requires
            old(self).wf(),
            i < old(self).robots@.len(),
            k < 4,
            old(self).bd.has(
                old(self).place(i as int).0 + old(self).robots@[i as int].vect@[k as int].0,
                old(self).place(i as int).1 + old(self).robots@[i as int].vect@[k as int].1,
            ),
        ensures
            final(self).after(old(self)),
            r == Outcome::Acted(
                Command::Move(
                    old(self).robots@[i as int].vect@[k as int].0,
                    old(self).robots@[i as int].vect@[k as int].1,
                ),
            ),
            r matches Outcome::Acted(c) ==> c.wf() && c.lands(
                old(self).bd.w as int,
                old(self).bd.h as int,
            ),
            final(self).stepped(
                old(self),
                i as int,
                old(self).place(i as int).0 + old(self).robots@[i as int].vect@[k as int].0,
                old(self).place(i as int).1 + old(self).robots@[i as int].vect@[k as int].1,
                true,
            ),
    {
        assert(self.robots@[i as int].wf(&self.bd));
        let d: Pos = self.robots[i].vect[k];
        assert(unit(self.robots@[i as int].vect@[k as int]));
        let cx: i64 = d.0 + self.robots[i].x;
        let cy: i64 = d.1 + self.robots[i].y;
        let c: Command = self.step_to(i, cx, cy, true);
        Outcome::Acted(c)
    }

    /// What it makes of the state `pre` that robot `i` attaches a manipulator
    /// at the offset `d`: one extra manipulator has left the store, and the
    /// robot has the new one after those it had.
    pub open spec fn grown(&self, pre: &State, i: int, d: Pos) -> bool {
        exists|mid: State|
            #[trigger] mid.spent(pre, ITEM_MANIPULATOR as int) && self.with_robot(
                &mid,
                i,
                (crate::state::RobotState { manips: self.robots@[i].manips, ..pre.robots@[i] }),
            ) && self.robots@[i].manips@ == pre.robots@[i].manips@.push(d)
    }

    /// The way robot `i` faces; to the right, if it has no manipulator one
    /// step from it.
    pub open spec fn heading(&self, i: int) -> Pos {
        match faces(self.robots@[i].manips@) {
            Some(d) => d,
            None => (1i64, 0i64),
        }
    }

    /// The robot attaches a manipulator: beside those in front of it, at the
    /// first place tried at which it has none. One extra manipulator leaves
    /// the store.
    pub fn grow_turn(&mut self, i: usize) -> (r: Outcome)
        requires
            old(self).wf(),
            i < old(self).robots@.len(),
            old(self).items@[ITEM_MANIPULATOR as int] > 0,
            old(self).robots@[i as int].manips@.len() < REACH,
        ensures
            final(self).after(old(self)),
            r matches Outcome::Acted(Command::AttachManip(dx, dy)) && next_arm(
                old(self).robots@[i as int].manips@,
                old(self).heading(i as int),
                (dx, dy),
            ) && final(self).grown(old(self), i as int, (dx, dy)),
    {
        assert(self.robots@[i as int].wf(&self.bd));
        let dir: Pos = match facing(&self.robots[i].manips) {
            Some(d) => d,
            None => (1, 0),
        };
        let d: Pos = next_offset(&self.robots[i].manips, dir);
        let ghost s0: State = *self;
        self.spend(ITEM_MANIPULATOR);
        let ghost s1: State = *self;
        self.attach(i, d);
        proof {
            self.lemma_after_chain(&s1, &s0);
            assert(s1.spent(&s0, ITEM_MANIPULATOR as int));
        }
        Outcome::Acted(Command::AttachManip(d.0, d.1))
    }

    /// The steps planned for the way from `a` to `b`, along the row first and
    /// then along the column, in the order in which they are planned.
    pub open spec fn path(a: (int, int), b: (int, int)) -> Seq<Command>
        decreases steps_between(a, b),
    {
        if a.0 < b.0 {
            seq![Command::Move(1i64, 0i64)] + State::path((a.0 + 1, a.1), b)
        } else if a.0 > b.0 {
            seq![Command::Move(-1i64, 0i64)] + State::path((a.0 - 1, a.1), b)
        } else if a.1 < b.1 {
            seq![Command::Move(0i64, 1i64)] + State::path((a.0, a.1 + 1), b)
        } else if a.1 > b.1 {
            seq![Command::Move(0i64, -1i64)] + State::path((a.0, a.1 - 1), b)
        } else {
            Seq::empty()
        }
    }

    /// Plans the steps of robot `i` from where it stands to `(tx, ty)`: along
    /// the row first, then along the column. The steps are taken from the plan
    /// last one first.
    pub fn plan_path(&mut self, i: usize, tx: i64, ty: i64)
        requires
            old(self).wf(),
            i < old(self).robots@.len(),
            old(self).bd.has(tx as int, ty as int),
        ensures
            final(self).after(old(self)),
            final(self).with_robot(
                old(self),
                i as int,
                (crate::state::RobotState {
                    queue: final(self).robots@[i as int].queue,
                    ..old(self).robots@[i as int]
                }),
            ),
            final(self).robots@[i as int].queue@ == old(self).robots@[i as int].queue@ + State::path(
                old(self).place(i as int),
                (tx as int, ty as int),
            ),
    {
        assert(self.robots@[i as int].wf(&self.bd));
        let mut cx: i64 = self.robots[i].x;
        let mut cy: i64 = self.robots[i].y;
        let ghost s0: State = *self;
        let ghost goal: (int, int) = (tx as int, ty as int);
        proof {
            assert(self.robots@ =~= s0.robots@.update(i as int, self.robots@[i as int]));
            assert(self.robots@[i as int].queue@ + State::path((cx as int, cy as int), goal)
                =~= s0.robots@[i as int].queue@ + State::path(s0.place(i as int), goal));
        }
        while cx != tx || cy != ty
            invariant
                s0 == *old(self),
                s0.wf(),
                self.after(&s0),
                i < s0.robots@.len(),
                goal == (tx as int, ty as int),
                self.with_robot(
                    &s0,
                    i as int,
                    (crate::state::RobotState {
                        queue: self.robots@[i as int].queue,
                        ..s0.robots@[i as int]
                    }),
                ),
                self.robots@[i as int].queue@ + State::path((cx as int, cy as int), goal)
                    == s0.robots@[i as int].queue@ + State::path(s0.place(i as int), goal),
                self.bd.has(tx as int, ty as int),
                self.bd.has(cx as int, cy as int),
            decreases steps_between((cx as int, cy as int), goal),
        {
            let ghost s1: State = *self;
            let ghost from: (int, int) = (cx as int, cy as int);
            let step: Command;
            if cx != tx {
                let dx: i64 = if cx < tx {
                    1
                } else {
                    -1
                };
                step = Command::Move(dx, 0);
                cx = cx + dx;
            } else {
                let dy: i64 = if cy < ty {
                    1
                } else {
                    -1
                };
                step = Command::Move(0, dy);
                cy = cy + dy;
            }
            self.push_plan(i, step);
            proof {
                self.lemma_after_chain(&s1, &s0);
                assert(self.robots@ =~= s0.robots@.update(i as int, self.robots@[i as int]));
                let next = (cx as int, cy as int);
                assert(State::path(from, goal) == seq![step] + State::path(next, goal));
                assert(self.robots@[i as int].queue@ + State::path(next, goal) =~= s1.robots@[i as int].queue@
                    + State::path(from, goal));
            }
        }
        proof {
            assert(State::path(goal, goal) =~= Seq::empty());
            assert(self.robots@[i as int].queue@ + State::path(goal, goal)
                =~= self.robots@[i as int].queue@);
        }
    }

    /// What it makes of the state `pre` that robot `i` starts a drill to get
    /// to `t`: one drill has left the store, the drill of the robot lasts
    /// `DRILL_TURNS` turns longer, and the steps to `t` are planned.
    pub open spec fn drilled(&self, pre: &State, i: int, t: Pos) -> bool {
        exists|mid: State|
            #[trigger] mid.spent(pre, ITEM_DRILL as int) && self.with_robot(
                &mid,
                i,
                (crate::state::RobotState {
                    drill_time: if pre.robots@[i].drill_time + DRILL_TURNS <= usize::MAX {
                        (pre.robots@[i].drill_time + DRILL_TURNS) as usize
                    } else {
                        usize::MAX
                    },
                    queue: self.robots@[i].queue,
                    ..pre.robots@[i]
                }),
            ) && self.robots@[i].queue@ == pre.robots@[i].queue@ + State::path(
                pre.place(i),
                crate::region::pt(t),
            )
    }

    /// Whether robot `i` turns clockwise when it turns to walk by the step
    /// `d`: it does if it has a manipulator behind it, or none to its right.
    pub open spec fn turns_right(&self, i: int, d: (int, int)) -> bool {
        let m = self.robots@[i].manips@;
        crate::region::holds(m, (-d.0, -d.1)) || !crate::region::holds(m, (d.1, -d.0))
    }

    /// Whether the state is `pre` with the step `d` planned for robot `i`,
    /// and before it, where `back` is set, a quarter turn clockwise to be made
    /// after the step.
    pub open spec fn step_planned(&self, pre: &State, i: int, d: Pos, back: bool) -> bool {
        &&& self.with_robot(
            pre,
            i,
            (crate::state::RobotState { queue: self.robots@[i].queue, ..pre.robots@[i] }),
        )
        &&& self.robots@[i].queue@ == (if back {
            pre.robots@[i].queue@.push(Command::Turn(true)).push(Command::Move(d.0, d.1))
        } else {
            pre.robots@[i].queue@.push(Command::Move(d.0, d.1))
        })
    }

    /// What it makes of the state `pre` that robot `i` turns to walk by the
    /// step `d`: the robot makes a quarter turn and plans the step; where it
    /// has a manipulator behind it, it plans a second quarter turn, to be made
    /// after the step.
    pub open spec fn faced(&self, pre: &State, i: int, d: Pos) -> bool {
        exists|a: State, b: State|
            #![trigger b.moved(&a, i, pre.place(i).0, pre.place(i).1, true)]
            {
                &&& a.turned(pre, i, pre.turns_right(i, crate::region::pt(d)))
                &&& b.moved(&a, i, pre.place(i).0, pre.place(i).1, true)
                &&& self.step_planned(
                    &b,
                    i,
                    d,
                    crate::region::holds(pre.robots@[i].manips@, (-d.0, -d.1)),
                )
            }
    }

    /// Robot `i` starts a drill to get to `t`: one drill leaves the store, the
    /// drill of the robot lasts `DRILL_TURNS` turns longer, and the steps to `t`
    /// are planned.
    pub fn drill_turn(&mut self, i: usize, t: Pos)
        requires
            old(self).wf(),
            i < old(self).robots@.len(),
            old(self).items@[ITEM_DRILL as int] > 0,
            old(self).bd.has(t.0 as int, t.1 as int),
        ensures
            final(self).after(old(self)),
            final(self).drilled(old(self), i as int, t),
    {
        let ghost s0: State = *self;
        self.spend(ITEM_DRILL);
        let ghost s1: State = *self;
        self.start_drill(i);
        let ghost s2: State = *self;
        proof {
            s2.lemma_after_chain(&s1, &s0);
        }
        self.plan_path(i, t.0, t.1);
        proof {
            self.lemma_after_chain(&s2, &s0);
            assert(s1.spent(&s0, ITEM_DRILL as int));
            assert(self.robots@ =~= s1.robots@.update(i as int, self.robots@[i as int]));
        }
    }

    /// Robot `i` turns to walk by the step `(dx, dy)`: it makes a quarter
    /// turn, clockwise if it has a manipulator behind it or none to its right,
    /// and plans the step; where it has a manipulator behind it, it plans a
    /// second quarter turn, to be made after the step. Returns whether it turned
    /// clockwise.
    pub fn face_turn(&mut self, i: usize, dx: i64, dy: i64) -> (way: bool)
        requires
            old(self).wf(),
            i < old(self).robots@.len(),
            is_step(dx as int, dy as int),
        ensures
            final(self).after(old(self)),
            way == old(self).turns_right(i as int, (dx as int, dy as int)),
            final(self).faced(old(self), i as int, (dx, dy)),
    {
        let ghost s0: State = *self;
        let back: bool = has_point(&self.robots[i].manips, -dx, -dy);
        let way: bool = back || !has_point(&self.robots[i].manips, dy, -dx);
        self.spin(way, i);
        let ghost s1: State = *self;
        if back {
            self.push_plan(i, Command::Turn(true));
            proof {
                self.lemma_after_chain(&s1, &s0);
            }
        }
        let ghost s2: State = *self;
        self.push_plan(i, Command::Move(dx, dy));
        proof {
            self.lemma_after_chain(&s2, &s0);
            let mid = choose|mid: State|
                #[trigger] mid.turned(&s0, i as int, way) && s1.moved(
                    &mid,
                    i as int,
                    s0.robots@[i as int].x as int,
                    s0.robots@[i as int].y as int,
                    true,
                );
            assert(self.robots@ =~= s1.robots@.update(i as int, self.robots@[i as int]));
            assert(self.step_planned(&s1, i as int, (dx, dy), back));
            assert(pt((dx, dy)) == (dx as int, dy as int));
            assert(mid.turned(&s0, i as int, s0.turns_right(i as int, pt((dx, dy)))));
            assert(s1.moved(&mid, i as int, s0.place(i as int).0, s0.place(i as int).1, true));
        }
        way
    }

    /// What it makes of the state `pre` that robot `i` goes on painting after
    /// its search answered `found`, with the outcome `o`. `last` is the command
    /// of the robot in the last turn.
    ///
    /// Where the search found nothing, the first robot ends the run and any
    /// other robot rests from then on. Else the robot starts a drill, where
    /// drills are used, one is in store, the cell is `DRILL_FROM` turns away or
    /// more and there is a cell to drill to; or turns to walk by its step, where
    /// robots do so, it has no manipulator there and it walked by this step in
    /// the last turn; or is sent to the first cell on its way.
    pub open spec fn painted_with(
        &self,
        pre: &State,
        i: int,
        opt: &SolverOption,
        last: Option<Command>,
        found: Option<(Pos, usize, Pos)>,
        o: Outcome,
    ) -> bool {
        match found {
            None => if i == 0 {
                o is Done && *self == *pre
            } else {
                o == Outcome::Acted(Command::Nop) && self.with_robot(
                    pre,
                    i,
                    (crate::state::RobotState { finished: true, ..pre.robots@[i] }),
                )
            },
            Some((first, dist, _)) => {
                let d = ((first.0 - pre.robots@[i].x) as i64, (first.1 - pre.robots@[i].y) as i64);
                if opt.use_drill && dist >= DRILL_FROM && pre.items@[ITEM_DRILL as int] > 0
                    && !pre.drill_is(i, None) {
                    o == Outcome::Acted(Command::StartDrill) && exists|t: Pos|
                        #[trigger] pre.drill_is(i, Some(t)) && self.drilled(pre, i, t)
                } else if is_step(d.0 as int, d.1 as int) && opt.mop_direction
                    && !crate::region::holds(pre.robots@[i].manips@, crate::region::pt(d))
                    && last == Some(Command::Move(d.0, d.1)) {
                    o == Outcome::Acted(Command::Turn(pre.turns_right(i, crate::region::pt(d))))
                        && self.faced(pre, i, d)
                } else {
                    o == Outcome::Acted(way_to(pre.place(i), first)) && self.stepped(
                        pre,
                        i,
                        first.0 as int,
                        first.1 as int,
                        true,
                    )
                }
            },
        }
    }

    /// What the turn of a robot that goes on painting makes of the state
    /// `pre`, with the outcome `o`: the robot searches for the nearest cell that
    /// it wants, and goes on as `painted_with` says.
    pub open spec fn painting(
        &self,
        pre: &State,
        i: int,
        opt: &SolverOption,
        last: Option<Command>,
        o: Outcome,
    ) -> bool {
        exists|found: Option<(Pos, usize, Pos)>|
            #[trigger] pre.nearest_is(i, Goal::Unpainted, found) && self.painted_with(
                pre,
                i,
                opt,
                last,
                found,
                o,
            )
    }

    /// The robot goes on painting. It searches for the nearest cell that it
    /// wants. Where there is none, the first robot ends the run and any other
    /// robot rests from then on. Else the robot starts a drill, where drills
    /// are used, one is in store and the cell is far; or turns the way it
    /// walks, where robots do so and it walked this way in the last turn; or
    /// goes towards the cell.
    pub fn paint_turn(&mut self, i: usize, opt: &SolverOption, last: Option<Command>) -> (r: Outcome)
        requires
            old(self).wf(),
            i < old(self).robots@.len(),
        ensures
            final(self).after(old(self)),
            r matches Outcome::Acted(c) ==> c.wf() && c.lands(
                old(self).bd.w as int,
                old(self).bd.h as int,
            ),
            final(self).painting(old(self), i as int, opt, last, r),
    {
        let ghost s0: State = *self;
        let found: Option<(Pos, usize, Pos)> = self.nearest(i, Goal::Unpainted);
        assert(s0.nearest_is(i as int, Goal::Unpainted, found));
        match found {
            None => {
                if i == 0 {
                    Outcome::Done
                } else {
                    self.retire(i);
                    Outcome::Acted(Command::Nop)
                }
            },
            Some((first, dist, _)) => {
                if opt.use_drill && dist >= DRILL_FROM && self.items[ITEM_DRILL] > 0 {
                    match self.drill_target(i) {
                        Some(t) => {
                            self.drill_turn(i, t);
                            return Outcome::Acted(Command::StartDrill);
                        },
                        None => {},
                    }
                }
                assert(self.robots@[i as int].wf(&self.bd));
                let dx: i64 = first.0 - self.robots[i].x;
                let dy: i64 = first.1 - self.robots[i].y;
                let one_step: bool = (dx == 0 && (dy == 1 || dy == -1)) || (dy == 0 && (dx == 1
                    || dx == -1));
                if one_step && opt.mop_direction && !has_point(&self.robots[i].manips, dx, dy)
                    && last == Some(Command::Move(dx, dy)) {
                    let way: bool = self.face_turn(i, dx, dy);
                    Outcome::Acted(Command::Turn(way))
                } else {
                    let c: Command = self.step_to(i, first.0, first.1, true);
                    Outcome::Acted(c)
                }
            },
        }
    }
}

} // verus!
