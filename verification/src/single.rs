use crate::board::Pos;
use crate::cell::{ITEM_FACTORY, ITEM_PORTAL};
use crate::command::Command;
use crate::region::{holds, pt};
use crate::rules::{arm_place, next_arm, Outcome, SolverOption};
use crate::solve::Rule;
use crate::state::State;
use crate::target::Goal;
use vstd::prelude::*;

verus! {

impl State {
    /// Whether the two states are alike to a robot that decides what to do:
    /// they agree on the board, on the robots, on the portals, on the cells
    /// that wait for a robot, on the stores and on the robot that is to clone.
    pub open spec fn alike(&self, other: &State) -> bool {
        &&& self.bd.w == other.bd.w
        &&& self.bd.h == other.bd.h
        &&& self.bd.cells@ == other.bd.cells@
        &&& self.robots@ == other.robots@
        &&& self.portals@ == other.portals@
        &&& self.pending_clone@ == other.pending_clone@
        &&& self.items@ == other.items@
        &&& self.spawn_bot == other.spawn_bot
        &&& self.portal_num == other.portal_num
    }

    /// In states that are alike a robot can step on the same cells.
    pub proof fn lemma_same_steps(&self, other: &State, i: int, k: int)
        requires
            self.alike(other),
        ensures
            self.steps_upto(i, k) == other.steps_upto(i, k),
        decreases k,
    {
        if k > 0 {
            self.lemma_same_steps(other, i, k - 1);
        }
    }

    /// In states that are alike a search answers the same.
    pub proof fn lemma_same_search(&self, other: &State, i: int, goal: Goal)
        requires
            self.alike(other),
        ensures
            self.nearest_of(i, goal) == other.nearest_of(i, goal),
    {
        self.lemma_same_steps(other, i, 4);
        assert(self.wanted(i, goal) =~= other.wanted(i, goal));
        assert(self.bd.open_cells() =~= other.bd.open_cells());
        assert(self.first_steps(i) =~= other.first_steps(i));
    }

    /// In states that are alike the same rule applies to a robot.
    pub proof fn lemma_same_rule(
        &self,
        other: &State,
        i: int,
        opt: &SolverOption,
        shortest_mop: usize,
        roll: usize,
    )
        requires
            self.alike(other),
        ensures
            self.rule(i, opt, shortest_mop, roll) == other.rule(i, opt, shortest_mop, roll),
            forall|k: int| self.grab_way(i, opt, k) == other.grab_way(i, opt, k),
    {
        assert forall|k: int| self.grab_way(i, opt, k) == other.grab_way(i, opt, k) by {}
        if exists|k: int| 0 <= k < 4 && self.grab_way(i, opt, k) {
            let k = choose|k: int| 0 <= k < 4 && self.grab_way(i, opt, k);
            assert(other.grab_way(i, opt, k));
        }
        if exists|k: int| 0 <= k < 4 && other.grab_way(i, opt, k) {
            let k = choose|k: int| 0 <= k < 4 && other.grab_way(i, opt, k);
            assert(self.grab_way(i, opt, k));
        }
    }

    /// In states that are alike a robot that searches and goes towards what
    /// it found does the same.
    pub proof fn lemma_one_way(
        &self,
        pre: &State,
        other: &State,
        other_pre: &State,
        i: int,
        goal: Goal,
        detect_island: bool,
        o1: Outcome,
        o2: Outcome,
    )
        requires
            pre.alike(other_pre),
            self.went(pre, i, goal, detect_island, o1),
            other.went(other_pre, i, goal, detect_island, o2),
        ensures
            o1 == o2,
    {
        pre.lemma_same_search(other_pre, i, goal);
    }

    /// In one state a robot without a plan does one thing: two turns that
    /// begin in states that are alike, with the same number drawn, give the
    /// same command, or end or stop the run alike.
    pub proof fn law_one_command(
        &self,
        other: &State,
        pre: &State,
        q: &State,
        i: int,
        opt: &SolverOption,
        last: Option<Command>,
        shortest_mop: usize,
        roll: usize,
        o1: Outcome,
        o2: Outcome,
    )
        requires
            pre.alike(q),
            self.decided(pre, i, opt, last, shortest_mop, roll, o1),
            other.decided(q, i, opt, last, shortest_mop, roll, o2),
        ensures
            o1 == o2,
    {
        pre.lemma_same_rule(q, i, opt, shortest_mop, roll);
        match pre.rule(i, opt, shortest_mop, roll) {
            Rule::Spawn => {
                let m1 = choose|mid: State|
                    #[trigger] mid.gave_back(pre, i) && (if pre.on_factory(i) {
                        if pre.robots@.len() > crate::cell::MAX_OWNER {
                            o1 == Outcome::Stuck(crate::rules::SolveError::TooManyRobots) && *self
                                == mid
                        } else {
                            o1 == Outcome::Acted(Command::Clone) && self.cloned(&mid, i, opt)
                        }
                    } else {
                        self.went(&mid, i, Goal::Item(ITEM_FACTORY), false, o1)
                    });
                let m2 = choose|mid: State|
                    #[trigger] mid.gave_back(q, i) && (if q.on_factory(i) {
                        if q.robots@.len() > crate::cell::MAX_OWNER {
                            o2 == Outcome::Stuck(crate::rules::SolveError::TooManyRobots) && *other
                                == mid
                        } else {
                            o2 == Outcome::Acted(Command::Clone) && other.cloned(&mid, i, opt)
                        }
                    } else {
                        other.went(&mid, i, Goal::Item(ITEM_FACTORY), false, o2)
                    });
                if !pre.on_factory(i) {
                    self.lemma_one_way(&m1, other, &m2, i, Goal::Item(ITEM_FACTORY), false, o1, o2);
                }
            },
            Rule::Target => {
                match pre.robots@[i].target {
                    Some(t) => {
                        self.lemma_one_way(pre, other, q, i, Goal::At(t.0, t.1), false, o1, o2);
                    },
                    None => {
                        let w1 = choose|waiting: Option<(Pos, usize, Pos)>|
                            #[trigger] pre.nearest_is(i, Goal::Pending, waiting) && match waiting {
                                None => o1 == Outcome::Stuck(crate::rules::SolveError::NoTarget)
                                    && *self == *pre,
                                Some((_, _, t)) => exists|mid: State|
                                    #[trigger] mid.claimed(pre, i, t) && self.went(
                                        &mid,
                                        i,
                                        Goal::At(t.0, t.1),
                                        false,
                                        o1,
                                    ),
                            };
                        let w2 = choose|waiting: Option<(Pos, usize, Pos)>|
                            #[trigger] q.nearest_is(i, Goal::Pending, waiting) && match waiting {
                                None => o2 == Outcome::Stuck(crate::rules::SolveError::NoTarget)
                                    && *other == *q,
                                Some((_, _, t)) => exists|mid: State|
                                    #[trigger] mid.claimed(q, i, t) && other.went(
                                        &mid,
                                        i,
                                        Goal::At(t.0, t.1),
                                        false,
                                        o2,
                                    ),
                            };
                        pre.lemma_same_search(q, i, Goal::Pending);
                        assert(w1 == w2);
                        match w1 {
                            None => {},
                            Some((_, _, t)) => {
                                let m1 = choose|mid: State|
                                    #[trigger] mid.claimed(pre, i, t) && self.went(
                                        &mid,
                                        i,
                                        Goal::At(t.0, t.1),
                                        false,
                                        o1,
                                    );
                                let m2 = choose|mid: State|
                                    #[trigger] mid.claimed(q, i, t) && other.went(
                                        &mid,
                                        i,
                                        Goal::At(t.0, t.1),
                                        false,
                                        o2,
                                    );
                                self.lemma_one_way(
                                    &m1,
                                    other,
                                    &m2,
                                    i,
                                    Goal::At(t.0, t.1),
                                    false,
                                    o1,
                                    o2,
                                );
                            },
                        }
                    },
                }
            },
            Rule::Portal => {
                self.lemma_one_way(pre, other, q, i, Goal::Item(ITEM_PORTAL), false, o1, o2);
            },
            Rule::Grab => {
                let k1 = choose|k: int|
                    0 <= k < 4 && #[trigger] pre.grab_way(i, opt, k) && (forall|j: int|
                        0 <= j < k ==> !pre.grab_way(i, opt, j)) && o1 == Outcome::Acted(
                        Command::Move(pre.robots@[i].vect@[k].0, pre.robots@[i].vect@[k].1),
                    );
                let k2 = choose|k: int|
                    0 <= k < 4 && #[trigger] q.grab_way(i, opt, k) && (forall|j: int|
                        0 <= j < k ==> !q.grab_way(i, opt, j)) && o2 == Outcome::Acted(
                        Command::Move(q.robots@[i].vect@[k].0, q.robots@[i].vect@[k].1),
                    );
                assert(k1 == k2);
            },
            Rule::Drop => {},
            Rule::Grow => {
                let m = pre.robots@[i].manips@;
                let dir = pre.heading(i);
                let d1 = choose|d: Pos|
                    #[trigger] next_arm(m, dir, d) && o1 == Outcome::Acted(
                        Command::AttachManip(d.0, d.1),
                    ) && self.grown(pre, i, d);
                let d2 = choose|d: Pos|
                    #[trigger] next_arm(m, dir, d) && o2 == Outcome::Acted(
                        Command::AttachManip(d.0, d.1),
                    ) && other.grown(q, i, d);
                let a = choose|ii: int|
                    0 <= ii <= m.len() && pt(d1) == #[trigger] arm_place(dir, ii) && forall|j: int|
                        0 <= j < ii ==> holds(m, #[trigger] arm_place(dir, j));
                let b = choose|ii: int|
                    0 <= ii <= m.len() && pt(d2) == #[trigger] arm_place(dir, ii) && forall|j: int|
                        0 <= j < ii ==> holds(m, #[trigger] arm_place(dir, j));
                if a < b {
                    assert(holds(m, arm_place(dir, a)));
                }
                if b < a {
                    assert(holds(m, arm_place(dir, b)));
                }
                assert(d1 == d2);
            },
            Rule::Wheels => {},
            Rule::Paint => {
                let f1 = choose|found: Option<(Pos, usize, Pos)>|
                    #[trigger] pre.nearest_is(i, Goal::Unpainted, found) && self.painted_with(
                        pre,
                        i,
                        opt,
                        last,
                        found,
                        o1,
                    );
                let f2 = choose|found: Option<(Pos, usize, Pos)>|
                    #[trigger] q.nearest_is(i, Goal::Unpainted, found) && other.painted_with(
                        q,
                        i,
                        opt,
                        last,
                        found,
                        o2,
                    );
                pre.lemma_same_search(q, i, Goal::Unpainted);
                assert(f1 == f2);
                assert(pre.wanted(i, Goal::Unpainted) =~= q.wanted(i, Goal::Unpainted));
                assert(pre.drill_is(i, None) == q.drill_is(i, None));
            },
        }
    }

    /// Boards that hold the same cells hold an item on the same cells.
    pub proof fn lemma_same_items(&self, other: &State, code: int, upto: int)
        requires
            self.alike(other),
        ensures
            crate::setup::item_cells(&self.bd, code, upto) == crate::setup::item_cells(
                &other.bd,
                code,
                upto,
            ),
        decreases upto,
    {
        if upto > 0 {
            self.lemma_same_items(other, code, upto - 1);
        }
    }

    /// In states that are alike the same robot is nearest to a cloning
    /// factory.
    pub proof fn lemma_one_closest(&self, other: &State, r1: Option<usize>, r2: Option<usize>)
        requires
            self.alike(other),
            self.closest_is(r1),
            other.closest_is(r2),
        ensures
            r1 == r2,
    {
        self.lemma_same_items(other, ITEM_FACTORY as int, self.bd.cells@.len() as int);
        assert(self.bd.open_cells() =~= other.bd.open_cells());
        assert(self.robot_cells() =~= other.robot_cells());
        assert(self.factory_search() == other.factory_search());
        match (r1, r2) {
            (Some(a), Some(b)) => {
                if a < b {
                    assert(self.robots@[b as int].x == self.robots@[a as int].x);
                }
                if b < a {
                    assert(other.robots@[a as int].x == other.robots@[b as int].x);
                }
            },
            _ => {},
        }
    }

    /// Two beginnings of a robot's turn in one state leave states that are
    /// alike.
    pub proof fn lemma_begun_alike(&self, other: &State, pre: &State, i: int)
        requires
            0 <= i < pre.robots@.len(),
            self.begun(pre, i),
            other.begun(pre, i),
        ensures
            self.alike(other),
    {
        let (a1, b1) = choose|a: State, b: State|
            #![trigger b.collected(&a, i)]
            {
                &&& a.with_robot(pre, i, State::ticked(pre.robots@[i]))
                &&& b.collected(&a, i)
                &&& self.with_robot(&b, i, State::settled(b.robots@[i]))
            };
        let (a2, b2) = choose|a: State, b: State|
            #![trigger b.collected(&a, i)]
            {
                &&& a.with_robot(pre, i, State::ticked(pre.robots@[i]))
                &&& b.collected(&a, i)
                &&& other.with_robot(&b, i, State::settled(b.robots@[i]))
            };
        assert(a1.alike(&a2));
        assert(b1.robots@ =~= b2.robots@) by {
            assert(b1.robots@.len() == b2.robots@.len());
            assert forall|j: int| 0 <= j < b1.robots@.len() implies b1.robots@[j] == b2.robots@[j] by {
                if j == i {
                    assert(b1.robots@[i] =~= b2.robots@[i]);
                }
            }
        }
        assert(b1.alike(&b2));
    }

    /// In one state the turn of a robot has one outcome, where no portal is
    /// dropped by chance: two turns of the robot that begin in the same state
    /// give the same command, or end or stop the run alike.
    pub proof fn law_one_turn(
        &self,
        other: &State,
        pre: &State,
        i: int,
        opt: &SolverOption,
        last: Option<Command>,
        shortest_mop: usize,
        o1: Outcome,
        o2: Outcome,
    )
        requires
            0 <= i < pre.robots@.len(),
            !opt.drop_portal_randomly,
            self.acted(pre, i, opt, last, shortest_mop, o1),
            other.acted(pre, i, opt, last, shortest_mop, o2),
        ensures
            o1 == o2,
    {
        if !pre.robots@[i].finished {
            let c1 = choose|c: State|
                #[trigger] c.begun(pre, i) && (if c.robots@[i].queue@.len() > 0 {
                    self.carried_out(&c, i, o1)
                } else {
                    self.chosen(&c, i, opt, last, shortest_mop, o1)
                });
            let c2 = choose|c: State|
                #[trigger] c.begun(pre, i) && (if c.robots@[i].queue@.len() > 0 {
                    other.carried_out(&c, i, o2)
                } else {
                    other.chosen(&c, i, opt, last, shortest_mop, o2)
                });
            c1.lemma_begun_alike(&c2, pre, i);
            if c1.robots@[i].queue@.len() > 0 {
                let cmd = c1.robots@[i].queue@.last();
                let m1 = choose|mid: State|
                    #[trigger] mid.popped(&c1, i) && self.done(&mid, i, cmd, o1);
                let m2 = choose|mid: State|
                    #[trigger] mid.popped(&c2, i) && other.done(&mid, i, cmd, o2);
                assert(m1.bd == c1.bd && m2.bd == c2.bd);
                assert(m1.place(i) == m2.place(i));
            } else {
                let (d1, roll1) = choose|d: State, roll: usize|
                    #![trigger self.decided(&d, i, opt, last, shortest_mop, roll, o1)]
                    {
                        &&& d.spawner_chosen(&c1, opt.spawn_delegate)
                        &&& opt.drop_portal_randomly || roll == 0
                        &&& self.decided(&d, i, opt, last, shortest_mop, roll, o1)
                    };
                let (d2, roll2) = choose|d: State, roll: usize|
                    #![trigger other.decided(&d, i, opt, last, shortest_mop, roll, o2)]
                    {
                        &&& d.spawner_chosen(&c2, opt.spawn_delegate)
                        &&& opt.drop_portal_randomly || roll == 0
                        &&& other.decided(&d, i, opt, last, shortest_mop, roll, o2)
                    };
                if c1.items@[6] > 0 && c1.spawn_bot is None && opt.spawn_delegate {
                    c1.lemma_one_closest(&c2, d1.spawn_bot, d2.spawn_bot);
                }
                assert(d1.alike(&d2));
                self.law_one_command(other, &d1, &d2, i, opt, last, shortest_mop, roll1, o1, o2);
            }
        }
    }
}

} // verus!
