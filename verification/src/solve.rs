use crate::board::{Board, Pos};
use crate::cell::{is_booster_letter, ITEM_FACTORY, ITEM_MANIPULATOR, ITEM_PORTAL, ITEM_WHEELS};
use crate::chance::{may_drop, random_usize};
use crate::command::{all_land, all_wf, Command, Solution};
use crate::encode::writable;
use crate::plain::{after_step, lemma_stays_on, stays_on, trail, walks};
use crate::rules::{last_command, next_arm, Outcome, SolveError, SolverOption};
use crate::setup::{count_code, direction_table, is_order_table};
use crate::state::{State, REACH};
use crate::target::Goal;
use vstd::prelude::*;

verus! {

/// What a robot without a plan does in its turn. The first of these that
/// applies is done.
#[derive(Debug, Clone, Copy, PartialEq, Eq, Structural)]
pub enum Rule {
    /// The robot that is to clone walks to the cloning factory and clones.
    Spawn,
    /// The robot walks to a cloning booster.
    Target,
    /// The first robot fetches a portal booster.
    Portal,
    /// The robot steps on a useful booster next to it.
    Grab,
    /// The robot drops a portal.
    Drop,
    /// The robot attaches a manipulator.
    Grow,
    /// The robot starts its wheels.
    Wheels,
    /// The robot goes on painting.
    Paint,
}

impl State {
    /// Whether robot `i` drops a portal now: it has one to drop and one is in
    /// store, it stands neither on a cloning factory nor on a portal, and the
    /// number drawn allows it.
    pub open spec fn drops_now(&self, i: int, opt: &SolverOption, roll: usize) -> bool {
        &&& self.robots@[i].num_collected_portal > 0
        &&& self.items@[ITEM_PORTAL as int] > 0
        &&& !self.on_factory(i)
        &&& !self.bd.at(self.place(i).0, self.place(i).1).portal()
        &&& (!opt.drop_portal_randomly || roll % 400 == 0)
    }

    /// What robot `i`, which has no plan, does in its turn.
    pub open spec fn rule(&self, i: int, opt: &SolverOption, shortest_mop: usize, roll: usize) -> Rule {
        let me = self.robots@[i];
        if self.spawn_bot == Some(i as usize) {
            Rule::Spawn
        } else if me.target is Some || (self.pending_clone@.len() > 0 && (opt.aggressive_c_collect
            || i == 0)) {
            Rule::Target
        } else if i == 0 && opt.aggressive_teleport && self.portal_num > 0
            && me.num_collected_portal == 0 {
            Rule::Portal
        } else if opt.aggressive_item && exists|k: int| 0 <= k < 4 && self.grab_way(i, opt, k) {
            Rule::Grab
        } else if self.drops_now(i, opt, roll) {
            Rule::Drop
        } else if opt.increase_mop && self.items@[ITEM_MANIPULATOR as int] > 0 && i == shortest_mop
            && me.manips@.len() < REACH {
            Rule::Grow
        } else if opt.aggressive_fast && me.fast_count == 0 && self.items@[ITEM_WHEELS as int] > 0 {
            Rule::Wheels
        } else {
            Rule::Paint
        }
    }

    /// What the turn of robot `i`, which has no plan, makes of the state
    /// `pre`, with the outcome `o`: what the rule that applies says. `last` is
    /// the command of the robot in the last turn and `roll` the number drawn for
    /// this turn.
    pub open spec fn decided(
        &self,
        pre: &State,
        i: int,
        opt: &SolverOption,
        last: Option<Command>,
        shortest_mop: usize,
        roll: usize,
        o: Outcome,
    ) -> bool {
        match pre.rule(i, opt, shortest_mop, roll) {
            Rule::Spawn => self.spawned(pre, i, opt, o),
            Rule::Target => self.targeted(pre, i, o),
            Rule::Portal => self.went(pre, i, Goal::Item(ITEM_PORTAL), false, o),
            Rule::Grab => exists|k: int|
                0 <= k < 4 && #[trigger] pre.grab_way(i, opt, k) && (forall|j: int|
                    0 <= j < k ==> !pre.grab_way(i, opt, j)) && o == Outcome::Acted(
                    Command::Move(pre.robots@[i].vect@[k].0, pre.robots@[i].vect@[k].1),
                ) && self.stepped(
                    pre,
                    i,
                    pre.place(i).0 + pre.robots@[i].vect@[k].0,
                    pre.place(i).1 + pre.robots@[i].vect@[k].1,
                    true,
                ),
            Rule::Drop => o == Outcome::Acted(Command::SetPortal) && self.portal_dropped(pre, i),
            Rule::Grow => exists|d: Pos|
                #[trigger] next_arm(pre.robots@[i].manips@, pre.heading(i), d) && o
                    == Outcome::Acted(Command::AttachManip(d.0, d.1)) && self.grown(pre, i, d),
            Rule::Wheels => o == Outcome::Acted(Command::AttachWheel) && self.wheels_on(pre, i),
            Rule::Paint => self.painting(pre, i, opt, last, o),
        }
    }

    /// What robot `i`, which has no plan, does in its turn, as `rule` says.
    /// `roll` is the number drawn for this turn.
    pub fn decide(
        &mut self,
        i: usize,
        opt: &SolverOption,
        last: Option<Command>,
        shortest_mop: usize,
        roll: usize,
    ) -> (r: Outcome)
        requires
            old(self).wf(),
            i < old(self).robots@.len(),
        ensures
            final(self).after(old(self)),
            r matches Outcome::Acted(c) ==> c.wf() && c.lands(
                old(self).bd.w as int,
                old(self).bd.h as int,
            ),
            final(self).decided(old(self), i as int, opt, last, shortest_mop, roll, r),
    {
        let mine: bool = match self.spawn_bot {
            Some(b) => b == i,
            None => false,
        };
        if mine {
            return self.spawn_turn(i, opt);
        }
        if self.robots[i].target.is_some() || (self.pending_clone.len() > 0 && (
        opt.aggressive_c_collect || i == 0)) {
            return self.target_turn(i);
        }
        if i == 0 && opt.aggressive_teleport && self.portal_num > 0
            && self.robots[i].num_collected_portal == 0 {
            return self.portal_turn(i);
        }
        if opt.aggressive_item {
            match self.grab_index(i, opt) {
                Some(k) => {
                    return self.grab_turn(i, k);
                },
                None => {},
            }
        }
        assert(self.robots@[i as int].wf(&self.bd));
        let x: i64 = self.robots[i].x;
        let y: i64 = self.robots[i].y;
        let here: crate::cell::Cell = self.bd.get(x, y);
        let on_factory: bool = match here.item() {
            Some(t) => t == ITEM_FACTORY,
            None => false,
        };
        if self.robots[i].num_collected_portal > 0 && self.items[ITEM_PORTAL] > 0 && !on_factory
            && !here.has_portal() && may_drop(opt.drop_portal_randomly, roll) {
            self.drop_portal(i);
            return Outcome::Acted(Command::SetPortal);
        }
        if opt.increase_mop && self.items[ITEM_MANIPULATOR] > 0 && i == shortest_mop
            && self.robots[i].manips.len() < REACH as usize {
            return self.grow_turn(i);
        }
        if opt.aggressive_fast && self.robots[i].fast_count == 0 && self.items[ITEM_WHEELS] > 0 {
            let ghost s0: State = *self;
            self.spend(ITEM_WHEELS);
            let ghost s1: State = *self;
            self.start_wheels(i);
            proof {
                self.lemma_after_chain(&s1, &s0);
                assert(s1.spent(&s0, ITEM_WHEELS as int));
            }
            return Outcome::Acted(Command::AttachWheel);
        }
        self.paint_turn(i, opt, last)
    }

    /// Whether the state is `pre` after robot `i` began its turn: its drill
    /// wore off, it picked up what lay where it stands, its wheels wore off and
    /// it forgot a target that it has reached.
    pub open spec fn begun(&self, pre: &State, i: int) -> bool {
        exists|a: State, b: State|
            #![trigger b.collected(&a, i)]
            {
                &&& a.with_robot(pre, i, State::ticked(pre.robots@[i]))
                &&& b.collected(&a, i)
                &&& self.with_robot(&b, i, State::settled(b.robots@[i]))
            }
    }

    /// What the turn of robot `i`, which has no plan, makes of the state
    /// `pre`, with the outcome `o`: a robot is named to walk to the cloning
    /// factory, if none is and a cloning booster is in store; then the robot
    /// does what the rule that applies says. A number is drawn for the turn
    /// where portals are dropped by chance.
    pub open spec fn chosen(
        &self,
        pre: &State,
        i: int,
        opt: &SolverOption,
        last: Option<Command>,
        shortest_mop: usize,
        o: Outcome,
    ) -> bool {
        exists|d: State, roll: usize|
            #![trigger self.decided(&d, i, opt, last, shortest_mop, roll, o)]
            {
                &&& d.spawner_chosen(pre, opt.spawn_delegate)
                &&& opt.drop_portal_randomly || roll == 0
                &&& self.decided(&d, i, opt, last, shortest_mop, roll, o)
            }
    }

    /// What the turn of robot `i` makes of the state `pre`, with the outcome
    /// `o`. `last` is the command of the robot in the last turn.
    ///
    /// A robot that rests does nothing. Any other robot begins its turn as
    /// `begun` says. A robot with a plan then carries out the command that it
    /// planned last; a robot without a plan does what `chosen` says.
    pub open spec fn acted(
        &self,
        pre: &State,
        i: int,
        opt: &SolverOption,
        last: Option<Command>,
        shortest_mop: usize,
        o: Outcome,
    ) -> bool {
        if pre.robots@[i].finished {
            o == Outcome::Acted(Command::Nop) && *self == *pre
        } else {
            exists|c: State|
                #[trigger] c.begun(pre, i) && (if c.robots@[i].queue@.len() > 0 {
                    self.carried_out(&c, i, o)
                } else {
                    self.chosen(&c, i, opt, last, shortest_mop, o)
                })
        }
    }

    /// The turn of robot `i`.
    ///
    /// A robot that rests does nothing. Any other robot first lets its drill
    /// wear off, picks up what lies where it stands, lets its wheels wear off
    /// and forgets a target that it has reached. A robot with a plan then
    /// carries out the command that it planned last. A robot without a plan
    /// does what `decide` says, after a robot was named to walk to the cloning
    /// factory if none was and a cloning booster is in store.
    pub fn act(&mut self, i: usize, opt: &SolverOption, last: Option<Command>, shortest_mop: usize) -> (r:
        Outcome)
        requires
            old(self).wf(),
            i < old(self).robots@.len(),
        ensures
            final(self).after(old(self)),
            r matches Outcome::Acted(c) ==> c.wf() && c.lands(
                old(self).bd.w as int,
                old(self).bd.h as int,
            ),
            final(self).acted(old(self), i as int, opt, last, shortest_mop, r),
    {
        if self.robots[i].finished {
            return Outcome::Acted(Command::Nop);
        }
        let ghost s0: State = *self;
        self.tick(i);
        let ghost s1: State = *self;
        self.pick(i);
        let ghost s2: State = *self;
        proof {
            s2.lemma_after_chain(&s1, &s0);
        }
        self.settle(i);
        let ghost s3: State = *self;
        proof {
            s3.lemma_after_chain(&s2, &s0);
            assert(s2.collected(&s1, i as int));
            assert(s3.begun(&s0, i as int));
        }
        match self.act_plan(i) {
            Some(o) => {
                proof {
                    self.lemma_after_chain(&s3, &s0);
                }
                return o;
            },
            None => {},
        }
        self.choose_spawner(opt.spawn_delegate);
        let ghost s4: State = *self;
        proof {
            s4.lemma_after_chain(&s3, &s0);
        }
        let roll: usize = if opt.drop_portal_randomly {
            random_usize()
        } else {
            0
        };
        let o: Outcome = self.decide(i, opt, last, shortest_mop, roll);
        proof {
            self.lemma_after_chain(&s4, &s0);
            assert(self.decided(&s4, i as int, opt, last, shortest_mop, roll, o));
            assert(self.chosen(&s3, i as int, opt, last, shortest_mop, o));
        }
        o
    }

    /// A turn that ends the run is one of the first robot, which finds
    /// nothing left to paint.
    pub proof fn lemma_done(
        &self,
        pre: &State,
        i: int,
        opt: &SolverOption,
        last: Option<Command>,
        shortest_mop: usize,
    )
        requires
            self.acted(pre, i, opt, last, shortest_mop, Outcome::Done),
        ensures
            i == 0,
            self.nearest_is(0, Goal::Unpainted, None),
    {
        let o = Outcome::Done;
        let c = choose|c: State|
            #[trigger] c.begun(pre, i) && (if c.robots@[i].queue@.len() > 0 {
                self.carried_out(&c, i, o)
            } else {
                self.chosen(&c, i, opt, last, shortest_mop, o)
            });
        let (d, roll) = choose|d: State, roll: usize|
            #![trigger self.decided(&d, i, opt, last, shortest_mop, roll, o)]
            {
                &&& d.spawner_chosen(&c, opt.spawn_delegate)
                &&& opt.drop_portal_randomly || roll == 0
                &&& self.decided(&d, i, opt, last, shortest_mop, roll, o)
            };
    }
}

/// The command that robot `i` gave in the turn with the commands `lasts`, if
/// it gave one.
pub open spec fn last_of(lasts: Seq<Command>, i: int) -> Option<Command> {
    if 0 <= i < lasts.len() {
        Some(lasts[i])
    } else {
        None
    }
}

/// The commands of the last of the turns; none, where there was no turn.
pub open spec fn lasts_of(sol: Seq<Vec<Command>>) -> Seq<Command> {
    if sol.len() > 0 {
        sol.last()@
    } else {
        Seq::empty()
    }
}

impl State {
    /// Whether the first robots, acting one after the other, take the state
    /// `pre` to this one and give the commands `cmds`, one each. `lasts` holds
    /// the commands of the last turn and `mop` is the robot that may attach a
    /// manipulator in this turn.
    pub open spec fn turn_part(
        &self,
        pre: &State,
        cmds: Seq<Command>,
        lasts: Seq<Command>,
        opt: &SolverOption,
        mop: usize,
    ) -> bool
        decreases cmds.len(),
    {
        if cmds.len() == 0 {
            *self == *pre
        } else {
            exists|mid: State|
                mid.turn_part(pre, cmds.drop_last(), lasts, opt, mop) && #[trigger] self.acted(
                    &mid,
                    cmds.len() - 1,
                    opt,
                    last_of(lasts, cmds.len() - 1),
                    mop,
                    Outcome::Acted(cmds.last()),
                )
        }
    }

    /// Whether one turn takes the state `pre` to this one and gives the
    /// commands `cmds`: each robot that `pre` has acts once, in order, and the
    /// robot with the fewest manipulators in `pre` is the one that may attach
    /// one.
    pub open spec fn turn_done(
        &self,
        pre: &State,
        cmds: Seq<Command>,
        lasts: Seq<Command>,
        opt: &SolverOption,
    ) -> bool {
        cmds.len() == pre.robots@.len() && exists|mop: usize|
            pre.is_shortest(mop) && #[trigger] self.turn_part(pre, cmds, lasts, opt, mop)
    }

    /// Whether the turns with the commands `sol`, one after the other, take
    /// the state `pre` to this one.
    pub open spec fn ran(&self, pre: &State, sol: Seq<Vec<Command>>, opt: &SolverOption) -> bool
        decreases sol.len(),
    {
        if sol.len() == 0 {
            *self == *pre
        } else {
            exists|mid: State|
                mid.ran(pre, sol.drop_last(), opt) && #[trigger] self.turn_done(
                    &mid,
                    sol.last()@,
                    lasts_of(sol.drop_last()),
                    opt,
                )
        }
    }

    /// Whether a turn that begins in this state stops the run with the
    /// outcome `o`: after some of the robots have acted, the next one ends the
    /// run or cannot go on.
    pub open spec fn halted(&self, lasts: Seq<Command>, opt: &SolverOption, o: Outcome) -> bool {
        exists|cmds: Seq<Command>, mop: usize, fin: State, after: State|
            #![trigger
                fin.turn_part(self, cmds, lasts, opt, mop),
                after.acted(
                    &fin,
                    cmds.len() as int,
                    opt,
                    last_of(lasts, cmds.len() as int),
                    mop,
                    o,
                ),
            ]
            {
                &&& cmds.len() < self.robots@.len()
                &&& self.is_shortest(mop)
                &&& fin.turn_part(self, cmds, lasts, opt, mop)
                &&& after.acted(
                    &fin,
                    cmds.len() as int,
                    opt,
                    last_of(lasts, cmds.len() as int),
                    mop,
                    o,
                )
            }
    }
}

/// Whether `r` is what a run on the board `bd` may give, with the robot
/// starting at `(sx, sy)` and the boosters `bought` in store.
///
/// The run begins in the state at the start, after the robot has painted
/// what it reaches from where it stands. Turn follows turn. The run gives its
/// commands when the first robot finds nothing left to paint, or when no
/// further turn can be counted; it gives an error when a robot cannot go on.
pub open spec fn is_run(
    bd: &Board,
    sx: int,
    sy: int,
    bought: Seq<char>,
    opt: &SolverOption,
    r: Result<Solution, SolveError>,
) -> bool {
    exists|s0: State, s1: State, end: State, sol: Seq<Vec<Command>>|
        #![trigger s1.moved(&s0, 0, sx, sy, false), end.ran(&s1, sol, opt)]
        {
            &&& s0.started(
                bd,
                sx,
                sy,
                opt.island_size_threshold as int,
                bought,
                s0.vects,
                opt.disable_clone,
            )
            &&& is_order_table(s0.vects@, opt.change_clone_dir)
            &&& s1.moved(&s0, 0, sx, sy, false)
            &&& end.ran(&s1, sol, opt)
            &&& match r {
                Ok(v) => v@ == sol && (sol.len() < usize::MAX ==> end.halted(
                    lasts_of(sol),
                    opt,
                    Outcome::Done,
                )),
                Err(e) => end.halted(lasts_of(sol), opt, Outcome::Stuck(e)),
            }
        }
}

/// Whether there is a state, grown from the board `bd`, in which the first
/// robot finds nothing left to paint.
pub open spec fn ends_painted(bd: &Board) -> bool {
    exists|end: State|
        #[trigger] end.wf() && end.bd.grown_from(bd) && end.nearest_is(0, Goal::Unpainted, None)
}

/// Whether there is a state, grown from the board `bd`, in which the first
/// robot stands at `p` and finds nothing left to paint.
pub open spec fn ends_painted_at(bd: &Board, p: (int, int)) -> bool {
    exists|end: State|
        #[trigger] end.wf() && end.bd.grown_from(bd) && end.place(0) == p && end.nearest_is(
            0,
            Goal::Unpainted,
            None,
        )
}

/// Runs the robots on the board until the first robot has nothing left to
/// paint, and returns their commands turn by turn.
///
/// The run starts with one robot at `(sx, sy)` and the boosters bought in
/// store. In each turn the robots act one after the other, as `State::act`
/// says; what one robot does, the next one finds done. The commands can be
/// written down, and each jump names a cell of the board, in the frame of the
/// board. On a board without boosters, with none bought, the run ends
/// well, one robot gives one command in each turn, each command is a step, a
/// rest, or a quarter turn where robots turn the way they walk, no step takes
/// the robot off the board, and where the steps have taken it the robot finds
/// nothing left to paint.
pub fn solve(bd_org: &Board, sx: i64, sy: i64, bought_boosters: &str, opt: &SolverOption) -> (r:
    Result<Solution, SolveError>)
    requires
        bd_org.wf(),
        bd_org.clean(),
        bd_org.has(sx as int, sy as int),
        forall|i: int|
            0 <= i < bought_boosters@.len() ==> is_booster_letter(#[trigger] bought_boosters@[i]),
    ensures
        is_run(bd_org, sx as int, sy as int, bought_boosters@, opt, r),
        r matches Ok(sol) ==> writable(sol@) && all_land(sol@, bd_org.w as int, bd_org.h as int)
            && (sol@.len() < usize::MAX ==> ends_painted(bd_org)),
        bd_org.bare() && bought_boosters@.len() == 0 ==> (r matches Ok(sol) && (forall|t: int|
            0 <= t < sol@.len() ==> (#[trigger] sol@[t])@.len() == 1 && walks(sol@[t]@[0], opt))
            && stays_on((sx as int, sy as int), sol@, bd_org.w as int, bd_org.h as int) && (
        sol@.len() < usize::MAX ==> ends_painted_at(
            bd_org,
            trail((sx as int, sy as int), sol@),
        ))),
{
    let mut state: State = State::new(
        bd_org,
        sx,
        sy,
        opt.island_size_threshold,
        bought_boosters,
        direction_table(opt.change_clone_dir),
        opt.disable_clone,
    );
    let ghost s0: State = state;
    proof {
        assert forall|x: int, y: int| bd_org.has(x, y) implies ({
            let a = bd_org.at(x, y);
            let b = #[trigger] s0.bd.at(x, y);
            &&& b.wall() == a.wall()
            &&& a.painted() ==> b.painted()
            &&& a.portal() ==> b.portal()
            &&& b.item_code() == a.item_code() || b.item_code() == 0
        }) by {}
    }
    state.go(sx, sy, 0, false);
    let ghost s1: State = state;
    let mut ret: Solution = Vec::new();
    let ghost calm: bool = bd_org.bare() && bought_boosters@.len() == 0;
    proof {
        lemma_grown_chain(&state.bd, &s0.bd, bd_org);
        if calm {
            bd_org.lemma_bare_item_cells(5, bd_org.cells@.len() as int);
            bd_org.lemma_bare_item_cells(6, bd_org.cells@.len() as int);
            assert forall|code: int| 0 <= code < 7 implies #[trigger] s0.items@[code] == 0 by {
                assert(count_code(bought_boosters@, code) == 0);
            }
            assert forall|x: int, y: int| s0.bd.has(x, y) implies (#[trigger] s0.bd.at(
                x,
                y,
            )).item_code() == 0 by {
                assert(s0.bd.at(x, y) == bd_org.at(x, y));
            }
            assert(s0.bare());
            state.lemma_bare_moved(&s0, 0, sx as int, sy as int, false);
            assert(crate::region::pt(s0.robots@[0].manips@[0]) == (0int, 0int));
            state.lemma_home_moved(&s0, 0, sx as int, sy as int, false);
            assert(ret@.take(0) =~= ret@);
            assert(stays_on((sx as int, sy as int), ret@, bd_org.w as int, bd_org.h as int)) by {
                assert forall|t: int| 0 <= t <= ret@.len() implies 0 <= (#[trigger] trail(
                    (sx as int, sy as int),
                    ret@.take(t),
                )).0 < bd_org.w && 0 <= trail((sx as int, sy as int), ret@.take(t)).1
                    < bd_org.h by {
                    assert(ret@.take(t) =~= ret@);
                }
            }
        }
    }
    while ret.len() < usize::MAX
        invariant
            state.wf(),
            state.bd.grown_from(bd_org),
            s0.started(
                bd_org,
                sx as int,
                sy as int,
                opt.island_size_threshold as int,
                bought_boosters@,
                s0.vects,
                opt.disable_clone,
            ),
            is_order_table(s0.vects@, opt.change_clone_dir),
            s1.moved(&s0, 0, sx as int, sy as int, false),
            state.ran(&s1, ret@, opt),
            calm == (bd_org.bare() && bought_boosters@.len() == 0),
            calm ==> state.plain(opt),
            writable(ret@),
            all_land(ret@, bd_org.w as int, bd_org.h as int),
            calm ==> forall|t: int|
                0 <= t < ret@.len() ==> (#[trigger] ret@[t])@.len() == 1 && walks(ret@[t]@[0], opt),
            calm ==> state.place(0) == trail((sx as int, sy as int), ret@),
            calm ==> stays_on((sx as int, sy as int), ret@, bd_org.w as int, bd_org.h as int),
        decreases usize::MAX - ret@.len(),
    {
        let mut cmds: Vec<Command> = Vec::new();
        let robot_num: usize = state.robots.len();
        let shortest_mop: usize = state.shortest_mop();
        let ghost begin: State = state;
        let ghost lasts: Seq<Command> = lasts_of(ret@);
        let mut i: usize = 0;
        while i < robot_num
            invariant
                i <= robot_num,
                robot_num == begin.robots@.len(),
                robot_num <= state.robots@.len(),
                calm ==> robot_num == 1,
                state.wf(),
                state.bd.grown_from(bd_org),
                s0.started(
                    bd_org,
                    sx as int,
                    sy as int,
                    opt.island_size_threshold as int,
                    bought_boosters@,
                    s0.vects,
                    opt.disable_clone,
                ),
                is_order_table(s0.vects@, opt.change_clone_dir),
                s1.moved(&s0, 0, sx as int, sy as int, false),
                begin.ran(&s1, ret@, opt),
                begin.is_shortest(shortest_mop),
                lasts == lasts_of(ret@),
                state.turn_part(&begin, cmds@, lasts, opt, shortest_mop),
                calm == (bd_org.bare() && bought_boosters@.len() == 0),
                calm ==> state.plain(opt),
                cmds@.len() == i,
                all_wf(cmds@),
                forall|j: int|
                    0 <= j < cmds@.len() ==> (#[trigger] cmds@[j]).lands(
                        bd_org.w as int,
                        bd_org.h as int,
                    ),
                writable(ret@),
                all_land(ret@, bd_org.w as int, bd_org.h as int),
                calm ==> forall|t: int|
                    0 <= t < ret@.len() ==> (#[trigger] ret@[t])@.len() == 1 && walks(
                        ret@[t]@[0],
                        opt,
                    ),
                calm ==> forall|t: int| 0 <= t < cmds@.len() ==> walks(#[trigger] cmds@[t], opt),
                calm ==> stays_on((sx as int, sy as int), ret@, bd_org.w as int, bd_org.h as int),
                calm && i == 0 ==> state.place(0) == trail((sx as int, sy as int), ret@),
                calm && i == 1 ==> state.place(0) == after_step(
                    trail((sx as int, sy as int), ret@),
                    cmds@[0],
                ),
            decreases robot_num - i,
        {
            let last: Option<Command> = last_command(&ret, i);
            let ghost before: State = state;
            let o: Outcome = state.act(i, opt, last, shortest_mop);
            proof {
                lemma_grown_chain(&state.bd, &before.bd, bd_org);
                assert(last == last_of(lasts, i as int));
                if calm {
                    state.lemma_plain_acted(&before, opt, last, shortest_mop, o);
                }
            }
            match o {
                Outcome::Acted(c) => {
                    let ghost old_cmds: Seq<Command> = cmds@;
                    cmds.push(c);
                    proof {
                        assert(cmds@.drop_last() =~= old_cmds);
                        assert(before.turn_part(&begin, cmds@.drop_last(), lasts, opt, shortest_mop));
                    }
                },
                Outcome::Done => {
                    proof {
                        state.lemma_done(&before, i as int, opt, last, shortest_mop);
                        assert(state.wf() && state.bd.grown_from(bd_org) && state.nearest_is(
                            0,
                            Goal::Unpainted,
                            None,
                        ));
                        assert(begin.halted(lasts, opt, o));
                        if calm {
                            assert(state.place(0) == trail((sx as int, sy as int), ret@));
                        }
                    }
                    return Ok(ret);
                },
                Outcome::Stuck(e) => {
                    proof {
                        assert(begin.halted(lasts, opt, o));
                    }
                    return Err(e);
                },
            }
            i = i + 1;
        }
        let ghost old_ret: Seq<Vec<Command>> = ret@;
        let ghost turn: Vec<Command> = cmds;
        ret.push(cmds);
        proof {
            assert(ret@.drop_last() =~= old_ret);
            assert(state.turn_done(&begin, ret@.last()@, lasts_of(ret@.drop_last()), opt));
            if calm {
                assert(state.robots@[0].wf(&state.bd));
                assert(ret@ == old_ret.push(turn));
                lemma_stays_on(
                    (sx as int, sy as int),
                    old_ret,
                    turn,
                    bd_org.w as int,
                    bd_org.h as int,
                );
            }
        }
    }
    Ok(ret)
}

/// What has grown from what has grown from a board has grown from that board.
pub proof fn lemma_grown_chain(c: &Board, b: &Board, a: &Board)
    requires
        b.grown_from(a),
        c.grown_from(b),
    ensures
        c.grown_from(a),
{
    assert forall|x: int, y: int| a.has(x, y) implies ({
        let p = a.at(x, y);
        let q = #[trigger] c.at(x, y);
        &&& q.wall() == p.wall()
        &&& p.painted() ==> q.painted()
        &&& p.portal() ==> q.portal()
        &&& q.item_code() == p.item_code() || q.item_code() == 0
    }) by {
        assert(b.at(x, y).wall() == a.at(x, y).wall());
    }
}

} // verus!
