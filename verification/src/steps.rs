use crate::board::{flat, lemma_flat, Board, Pos};
use crate::cell::{Cell, ITEM_CLONE};
use crate::command::{is_step, Command};
use crate::motion::minus;
use crate::pickup::collect_item;
use crate::region::{holds, pt};
use crate::state::{count_owner, lemma_count_owner_update, unit, RobotState, State, REACH};
use crate::target::has_point;
use vstd::prelude::*;

verus! {

/// For how many turns fast wheels last, the turn in which they are attached
/// counted in.
pub const WHEEL_TURNS: usize = 51;

/// For how many turns a drill lasts, the turn in which it is started counted in.
pub const DRILL_TURNS: usize = 31;

impl Board {
    /// Whether the board is `pre` after some turns: the walls are where they
    /// were, what was painted is painted, each portal is still there and each
    /// item is where it was or gone.
    pub open spec fn grown_from(&self, pre: &Board) -> bool {
        &&& self.same_size(pre)
        &&& forall|x: int, y: int|
            pre.has(x, y) ==> {
                let a = pre.at(x, y);
                let b = #[trigger] self.at(x, y);
                &&& b.wall() == a.wall()
                &&& a.painted() ==> b.painted()
                &&& a.portal() ==> b.portal()
                &&& b.item_code() == a.item_code() || b.item_code() == 0
            }
    }
}

/// The positions other than `t`.
pub open spec fn other_than(t: Pos) -> spec_fn(Pos) -> bool {
    |p: Pos| p != t
}

impl State {
    /// Whether the state is well formed and is `pre` after some turns: the
    /// board has grown from that of `pre`, no robot is gone, and the island
    /// threshold and the direction orders on offer are the same.
    pub open spec fn after(&self, pre: &State) -> bool {
        &&& self.wf()
        &&& self.bd.grown_from(&pre.bd)
        &&& self.robots@.len() >= pre.robots@.len()
        &&& self.vects == pre.vects
        &&& self.island_size_threshold == pre.island_size_threshold
    }

    /// What comes after what comes after a state comes after that state.
    pub proof fn lemma_after_chain(&self, mid: &State, pre: &State)
        requires
            mid.after(pre),
            self.after(mid),
        ensures
            self.after(pre),
    {
        assert forall|x: int, y: int| pre.bd.has(x, y) implies ({
            let a = pre.bd.at(x, y);
            let b = #[trigger] self.bd.at(x, y);
            &&& b.wall() == a.wall()
            &&& a.painted() ==> b.painted()
            &&& a.portal() ==> b.portal()
            &&& b.item_code() == a.item_code() || b.item_code() == 0
        }) by {
            let m = mid.bd.at(x, y);
            assert(m.wall() == pre.bd.at(x, y).wall());
        }
    }

    /// The robot `r` with its drill worn off by one turn.
    pub open spec fn ticked(r: RobotState) -> RobotState {
        RobotState { drill_time: minus(r.drill_time as int, 1) as usize, ..r }
    }

    /// The robot `r` with its wheels worn off by one turn, and without its
    /// target if it stands there.
    pub open spec fn settled(r: RobotState) -> RobotState {
        RobotState {
            fast_count: minus(r.fast_count as int, 1) as usize,
            target: if r.target == Some((r.x, r.y)) {
                None
            } else {
                r.target
            },
            ..r
        }
    }

    /// The turn of robot `i` begins: its drill wears off by one turn.
    pub fn tick(&mut self, i: usize)
        requires
            old(self).wf(),
            i < old(self).robots@.len(),
        ensures
            final(self).after(old(self)),
            final(self).with_robot(old(self), i as int, State::ticked(old(self).robots@[i as int])),
    {
        if self.robots[i].drill_time > 0 {
            self.robots[i].drill_time = self.robots[i].drill_time - 1;
        }
        proof {
            self.lemma_steady_wf(old(self));
            assert(self.robots@ =~= old(self).robots@.update(i as int, self.robots@[i as int]));
        }
    }

    /// The wheels of robot `i` wear off by one turn, and a target that the
    /// robot has reached is no longer its target.
    pub fn settle(&mut self, i: usize)
        requires
            old(self).wf(),
            i < old(self).robots@.len(),
        ensures
            final(self).after(old(self)),
            final(self).with_robot(old(self), i as int, State::settled(old(self).robots@[i as int])),
    {
        if self.robots[i].fast_count > 0 {
            self.robots[i].fast_count = self.robots[i].fast_count - 1;
        }
        let x: i64 = self.robots[i].x;
        let y: i64 = self.robots[i].y;
        let reached: bool = match self.robots[i].target {
            Some(t) => t.0 == x && t.1 == y,
            None => false,
        };
        if reached {
            self.robots[i].target = None;
        }
        proof {
            self.lemma_steady_wf(old(self));
            assert(self.robots@ =~= old(self).robots@.update(i as int, self.robots@[i as int]));
        }
    }

    /// Lets robot `i` pick up what lies where it stands.
    pub fn pick(&mut self, i: usize)
        requires
            old(self).wf(),
            i < old(self).robots@.len(),
        ensures
            final(self).after(old(self)),
            final(self).collected(old(self), i as int),
            final(self).robots@.len() == old(self).robots@.len(),
            final(self).robots@[i as int].x == old(self).robots@[i as int].x,
            final(self).robots@[i as int].y == old(self).robots@[i as int].y,
    {
        collect_item(self, i);
        proof {
            let x = old(self).robots@[i as int].x as int;
            let y = old(self).robots@[i as int].y as int;
            assert forall|cx: int, cy: int| old(self).bd.has(cx, cy) implies ({
                let a = old(self).bd.at(cx, cy);
                let b = #[trigger] self.bd.at(cx, cy);
                &&& b.wall() == a.wall()
                &&& a.painted() ==> b.painted()
                &&& a.portal() ==> b.portal()
                &&& b.item_code() == a.item_code() || b.item_code() == 0
            }) by {
                if cx != x || cy != y {
                    assert(self.bd.at(cx, cy) == old(self).bd.at(cx, cy));
                }
            }
        }
    }

    /// Moves robot `i` to `(x, y)`, as `move_to` does.
    pub fn go(&mut self, x: i64, y: i64, i: usize, detect_island: bool)
        requires
            old(self).wf(),
            i < old(self).robots@.len(),
            old(self).bd.has(x as int, y as int),
        ensures
            final(self).after(old(self)),
            final(self).moved(old(self), i as int, x as int, y as int, detect_island),
            final(self).robots@.len() == old(self).robots@.len(),
    {
        self.move_to(x, y, i, detect_island);
    }

    /// Turns robot `i`, as `rotate` does.
    pub fn spin(&mut self, dir: bool, i: usize)
        requires
            old(self).wf(),
            i < old(self).robots@.len(),
        ensures
            final(self).after(old(self)),
            exists|mid: State|
                #[trigger] mid.turned(old(self), i as int, dir) && final(self).moved(
                    &mid,
                    i as int,
                    old(self).robots@[i as int].x as int,
                    old(self).robots@[i as int].y as int,
                    true,
                ),
    {
        self.rotate(dir, i);
        proof {
            let mid = choose|mid: State|
                #[trigger] mid.turned(old(self), i as int, dir) && self.moved(
                    &mid,
                    i as int,
                    old(self).robots@[i as int].x as int,
                    old(self).robots@[i as int].y as int,
                    true,
                );
            assert(mid.bd == old(self).bd);
        }
    }

    /// What it makes of the state `pre` that robot `i`, after a step, goes on
    /// to `(x, y)` if its wheels are on: nothing without wheels; else the robot
    /// picks up what lies where it stands, and moves to `(x, y)` if that is a
    /// cell of the board and no wall.
    pub open spec fn followed(&self, pre: &State, i: int, x: int, y: int, detect_island: bool) -> bool {
        if pre.robots@[i].fast_count > 0 {
            exists|mid: State|
                #[trigger] mid.collected(pre, i) && (if pre.bd.has(x, y) && !pre.bd.at(x, y).wall() {
                    self.moved(&mid, i, x, y, detect_island)
                } else {
                    *self == mid
                })
        } else {
            *self == *pre
        }
    }

    /// What it makes of the state `pre` that robot `i` is sent to `(x, y)`:
    /// the robot moves there and, where that was one step, goes on by the same
    /// step as `followed` says.
    pub open spec fn stepped(&self, pre: &State, i: int, x: int, y: int, detect_island: bool) -> bool {
        exists|mid: State|
            #[trigger] mid.moved(pre, i, x, y, detect_island) && (if is_step(
                x - pre.robots@[i].x,
                y - pre.robots@[i].y,
            ) {
                self.followed(
                    &mid,
                    i,
                    x + x - pre.robots@[i].x,
                    y + y - pre.robots@[i].y,
                    detect_island,
                )
            } else {
                *self == mid
            })
    }

    /// With fast wheels on, robot `i` picks up what lies at `(nx, ny)`, where
    /// it stands, and goes one step further by `(dx, dy)` if a cell of the board
    /// lies there that is no wall.
    pub fn fast_follow(&mut self, i: usize, nx: i64, ny: i64, dx: i64, dy: i64, detect_island: bool)
        requires
            old(self).wf(),
            i < old(self).robots@.len(),
            old(self).bd.has(nx as int, ny as int),
            is_step(dx as int, dy as int),
        ensures
            final(self).after(old(self)),
            final(self).followed(old(self), i as int, nx + dx, ny + dy, detect_island),
    {
        if self.robots[i].fast_count > 0 {
            let ghost s0: State = *self;
            self.pick(i);
            let ghost s1: State = *self;
            let nnx: i64 = nx + dx;
            let nny: i64 = ny + dy;
            proof {
                assert(s1.bd.same_size(&s0.bd));
                if s0.bd.has(nnx as int, nny as int) {
                    assert(s1.bd.at(nnx as int, nny as int).wall() == s0.bd.at(
                        nnx as int,
                        nny as int,
                    ).wall());
                }
            }
            if self.bd.contains(nnx, nny) {
                if !self.bd.get(nnx, nny).is_wall() {
                    self.go(nnx, nny, i, detect_island);
                    proof {
                        self.lemma_after_chain(&s1, &s0);
                    }
                }
            }
            assert(s1.collected(&s0, i as int));
        }
    }

    /// Sends robot `i` to `(nx, ny)`: by one step if the cell is one step away,
    /// and then on as `fast_follow` does, else by a jump. Returns the command.
    pub fn step_to(&mut self, i: usize, nx: i64, ny: i64, detect_island: bool) -> (c: Command)
        requires
            old(self).wf(),
            i < old(self).robots@.len(),
            old(self).bd.has(nx as int, ny as int),
        ensures
            final(self).after(old(self)),
            final(self).stepped(old(self), i as int, nx as int, ny as int, detect_island),
            c.wf(),
            c.lands(old(self).bd.w as int, old(self).bd.h as int),
            c == (if is_step(
                nx - old(self).robots@[i as int].x,
                ny - old(self).robots@[i as int].y,
            ) {
                Command::Move(
                    (nx - old(self).robots@[i as int].x) as i64,
                    (ny - old(self).robots@[i as int].y) as i64,
                )
            } else {
                Command::Teleport(nx, ny)
            }),
    {
        assert(self.robots@[i as int].wf(&self.bd));
        let dx: i64 = nx - self.robots[i].x;
        let dy: i64 = ny - self.robots[i].y;
        let ax: i64 = if dx < 0 {
            -dx
        } else {
            dx
        };
        let ay: i64 = if dy < 0 {
            -dy
        } else {
            dy
        };
        let ghost s0: State = *self;
        if ax + ay == 1 {
            self.go(nx, ny, i, detect_island);
            let ghost s1: State = *self;
            self.fast_follow(i, nx, ny, dx, dy, detect_island);
            proof {
                self.lemma_after_chain(&s1, &s0);
                assert(s1.moved(&s0, i as int, nx as int, ny as int, detect_island));
            }
            Command::Move(dx, dy)
        } else {
            self.go(nx, ny, i, detect_island);
            proof {
                assert(self.moved(&s0, i as int, nx as int, ny as int, detect_island));
            }
            Command::Teleport(nx, ny)
        }
    }

    /// Takes the command that robot `i` planned last out of its plan.
    pub fn pop_plan(&mut self, i: usize) -> (c: Option<Command>)
        requires
            old(self).wf(),
            i < old(self).robots@.len(),
        ensures
            final(self).after(old(self)),
            c is None <==> old(self).robots@[i as int].queue@.len() == 0,
            c is None ==> *final(self) == *old(self),
            c matches Some(cmd) ==> {
                &&& cmd == old(self).robots@[i as int].queue@.last()
                &&& final(self).with_robot(
                    old(self),
                    i as int,
                    (RobotState {
                        queue: final(self).robots@[i as int].queue,
                        ..old(self).robots@[i as int]
                    }),
                )
                &&& final(self).robots@[i as int].queue@ == old(self).robots@[i as int].queue@.drop_last()
                &&& match cmd {
                    Command::Turn(_) => true,
                    Command::Move(dx, dy) => is_step(dx as int, dy as int),
                    _ => false,
                }
            },
    {
        assert(self.robots@[i as int].wf(&self.bd));
        if self.robots[i].queue.len() == 0 {
            return None;
        }
        let c: Option<Command> = self.robots[i].queue.pop();
        proof {
            assert forall|j: int| 0 <= j < self.robots@.len() implies (
            #[trigger] self.robots@[j]).wf(&self.bd) && self.robots@[j].prios
                == self.bd.reserved(j) by {
                assert(old(self).robots@[j].wf(&old(self).bd));
                if j == i {
                    assert forall|q: int|
                        0 <= q < self.robots@[j].queue@.len() implies match (
                    #[trigger] self.robots@[j].queue@[q]) {
                        Command::Turn(_) => true,
                        Command::Move(dx, dy) => is_step(dx as int, dy as int),
                        _ => false,
                    } by {
                        assert(self.robots@[j].queue@[q] == old(self).robots@[j].queue@[q]);
                    }
                }
            }
            let q0 = old(self).robots@[i as int].queue@;
            assert(q0.last() == q0[q0.len() - 1]);
            assert(self.robots@ =~= old(self).robots@.update(i as int, self.robots@[i as int]));
        }
        c
    }

    /// Adds a command to the plan of robot `i`; it will be the next one taken.
    pub fn push_plan(&mut self, i: usize, cmd: Command)
        requires
            old(self).wf(),
            i < old(self).robots@.len(),
            match cmd {
                Command::Turn(_) => true,
                Command::Move(dx, dy) => is_step(dx as int, dy as int),
                _ => false,
            },
        ensures
            final(self).after(old(self)),
            final(self).with_robot(
                old(self),
                i as int,
                (RobotState {
                    queue: final(self).robots@[i as int].queue,
                    ..old(self).robots@[i as int]
                }),
            ),
            final(self).robots@[i as int].queue@ == old(self).robots@[i as int].queue@.push(cmd),
    {
        self.robots[i].queue.push(cmd);
        proof {
            assert(self.robots@ =~= old(self).robots@.update(i as int, self.robots@[i as int]));
            assert forall|j: int| 0 <= j < self.robots@.len() implies (
            #[trigger] self.robots@[j]).wf(&self.bd) && self.robots@[j].prios
                == self.bd.reserved(j) by {
                assert(old(self).robots@[j].wf(&old(self).bd));
                if j == i {
                    assert forall|q: int|
                        0 <= q < self.robots@[j].queue@.len() implies match (
                    #[trigger] self.robots@[j].queue@[q]) {
                        Command::Turn(_) => true,
                        Command::Move(dx, dy) => is_step(dx as int, dy as int),
                        _ => false,
                    } by {
                        if q < old(self).robots@[j].queue@.len() {
                            assert(self.robots@[j].queue@[q] == old(self).robots@[j].queue@[q]);
                        }
                    }
                }
            }
        }
    }

    /// Whether the state is `pre` after the robot that is to walk to the
    /// cloning factory was named, where a cloning booster is in store and no
    /// robot is on its way: the robot nearest to a factory if `delegate` is set,
    /// else the first robot.
    pub open spec fn spawner_chosen(&self, pre: &State, delegate: bool) -> bool {
        &&& *self == (State { spawn_bot: self.spawn_bot, ..*pre })
        &&& if pre.items@[6] > 0 && pre.spawn_bot is None {
            if delegate {
                pre.closest_is(self.spawn_bot)
            } else {
                self.spawn_bot == Some(0usize)
            }
        } else {
            self.spawn_bot == pre.spawn_bot
        }
    }

    /// Names the robot that is to walk to the cloning factory, where a cloning
    /// booster is in store and no robot is on its way: the robot nearest to a
    /// factory if `delegate` is set, else the first robot.
    pub fn choose_spawner(&mut self, delegate: bool)
        requires
            old(self).wf(),
        ensures
            final(self).after(old(self)),
            final(self).spawner_chosen(old(self), delegate),
    {
        if self.items[ITEM_CLONE] > 0 && self.spawn_bot.is_none() {
            if delegate {
                let b: Option<usize> = self.find_x_closest_bot();
                self.spawn_bot = b;
            } else {
                self.spawn_bot = Some(0);
            }
        }
        proof {
            self.lemma_steady_wf(old(self));
        }
    }

    /// Whether the state is `pre` after robot `i` gave up its target: the
    /// robot has none, and the cell that was its target waits for a robot.
    pub open spec fn gave_back(&self, pre: &State, i: int) -> bool {
        &&& *self == (State { robots: self.robots, pending_clone: self.pending_clone, ..*pre })
        &&& self.robots@ == pre.robots@.update(i, (RobotState { target: None, ..pre.robots@[i] }))
        &&& self.pending_clone@ == (match pre.robots@[i].target {
            Some(t) => if holds(pre.pending_clone@, pt(t)) {
                pre.pending_clone@
            } else {
                pre.pending_clone@.push(t)
            },
            None => pre.pending_clone@,
        })
    }

    /// Whether the state is `pre` after robot `i` made the waiting cell `t` its
    /// target: the cell waits no more.
    pub open spec fn claimed(&self, pre: &State, i: int, t: Pos) -> bool {
        &&& *self == (State { robots: self.robots, pending_clone: self.pending_clone, ..*pre })
        &&& self.robots@ == pre.robots@.update(
            i,
            (RobotState { target: Some(t), ..pre.robots@[i] }),
        )
        &&& self.pending_clone@ == pre.pending_clone@.filter(other_than(t))
    }

    /// Whether the state is `pre` with one item less of the code `code` in
    /// store.
    pub open spec fn spent(&self, pre: &State, code: int) -> bool {
        &&& *self == (State { items: self.items, ..*pre })
        &&& self.items@ == pre.items@.update(code, (pre.items@[code] - 1) as usize)
    }

    /// Whether the state is `pre` with one cloning booster less in store;
    /// with the last one gone no robot is on its way to the factory.
    pub open spec fn spent_clone(&self, pre: &State) -> bool {
        &&& *self == (State { items: self.items, spawn_bot: self.spawn_bot, ..*pre })
        &&& self.items@ == pre.items@.update(6, (pre.items@[6] - 1) as usize)
        &&& self.spawn_bot == (if pre.items@[6] == 1 {
            None
        } else {
            pre.spawn_bot
        })
    }

    /// Whether the state is `pre` after robot `i` dropped a portal where it
    /// stands: the cell holds a portal and is a portal to jump to, and the robot
    /// has one less to drop.
    pub open spec fn portal_dropped(&self, pre: &State, i: int) -> bool {
        let x = pre.robots@[i].x;
        let y = pre.robots@[i].y;
        &&& *self == (State { bd: self.bd, robots: self.robots, portals: self.portals, ..*pre })
        &&& self.robots@ == pre.robots@.update(
            i,
            (RobotState {
                num_collected_portal: (pre.robots@[i].num_collected_portal - 1) as usize,
                ..pre.robots@[i]
            }),
        )
        &&& self.portals@ == pre.portals@.push((x, y))
        &&& self.bd.same_size(&pre.bd)
        &&& forall|cx: int, cy: int|
            pre.bd.has(cx, cy) ==> {
                let a = pre.bd.at(cx, cy);
                let b = #[trigger] self.bd.at(cx, cy);
                if cx == x && cy == y {
                    b == a.with_portal()
                } else {
                    b == a
                }
            }
    }

    /// Robot `i` gives up its target: the cell waits for a robot again.
    pub fn give_back_target(&mut self, i: usize)
        requires
            old(self).wf(),
            i < old(self).robots@.len(),
        ensures
            final(self).after(old(self)),
            final(self).gave_back(old(self), i as int),
    {
        match self.robots[i].target {
            Some(t) => {
                if !has_point(&self.pending_clone, t.0, t.1) {
                    self.pending_clone.push(t);
                }
                self.robots[i].target = None;
            },
            None => {},
        }
        proof {
            self.lemma_steady_wf(old(self));
            assert(self.robots@ =~= old(self).robots@.update(i as int, self.robots@[i as int]));
        }
    }

    /// Robot `i` makes the waiting cell `t` its target; the cell waits no more.
    pub fn claim_pending(&mut self, i: usize, t: Pos)
        requires
            old(self).wf(),
            i < old(self).robots@.len(),
        ensures
            final(self).after(old(self)),
            final(self).claimed(old(self), i as int, t),
    {
        self.robots[i].target = Some(t);
        let mut k: usize = 0;
        let mut kept: Vec<Pos> = Vec::new();
        proof {
            reveal(Seq::filter);
            assert(self.robots@ =~= old(self).robots@.update(i as int, self.robots@[i as int]));
            assert(self.pending_clone@.take(0).len() == 0);
        }
        while k < self.pending_clone.len()
            invariant
                k <= self.pending_clone@.len(),
                kept@ == self.pending_clone@.take(k as int).filter(other_than(t)),
            decreases self.pending_clone@.len() - k,
        {
            let p: Pos = self.pending_clone[k];
            proof {
                reveal(Seq::filter);
                let next = self.pending_clone@.take(k + 1);
                assert(next.drop_last() =~= self.pending_clone@.take(k as int));
                assert(next.last() == p);
            }
            if !(p.0 == t.0 && p.1 == t.1) {
                kept.push(p);
            }
            k = k + 1;
        }
        assert(self.pending_clone@.take(k as int) =~= self.pending_clone@);
        self.pending_clone = kept;
        proof {
            self.lemma_steady_wf(old(self));
        }
    }

    /// One cloning booster leaves the store; with the last one the robot on
    /// its way to the factory is free again.
    pub fn spend_clone(&mut self)
        requires
            old(self).wf(),
            old(self).items@[6] > 0,
        ensures
            final(self).after(old(self)),
            final(self).spent_clone(old(self)),
    {
        self.items[ITEM_CLONE] = self.items[ITEM_CLONE] - 1;
        if self.items[ITEM_CLONE] == 0 {
            self.spawn_bot = None;
        }
        proof {
            self.lemma_steady_wf(old(self));
        }
    }

    /// One item with the code `code` leaves the store.
    pub fn spend(&mut self, code: usize)
        requires
            old(self).wf(),
            1 <= code <= 5,
            old(self).items@[code as int] > 0,
        ensures
            final(self).after(old(self)),
            final(self).spent(old(self), code as int),
    {
        self.items[code] = self.items[code] - 1;
        proof {
            self.lemma_steady_wf(old(self));
        }
    }

    /// Whether the state is `pre` after robot `i` attached wheels: one pair
    /// has left the store, and the wheels of the robot last `WHEEL_TURNS` turns.
    pub open spec fn wheels_on(&self, pre: &State, i: int) -> bool {
        exists|mid: State|
            #[trigger] mid.spent(pre, crate::cell::ITEM_WHEELS as int) && self.with_robot(
                &mid,
                i,
                (RobotState { fast_count: WHEEL_TURNS, ..pre.robots@[i] }),
            )
    }

    /// Robot `i` starts its wheels.
    pub fn start_wheels(&mut self, i: usize)
        requires
            old(self).wf(),
            i < old(self).robots@.len(),
        ensures
            final(self).after(old(self)),
            final(self).with_robot(
                old(self),
                i as int,
                (RobotState { fast_count: WHEEL_TURNS, ..old(self).robots@[i as int] }),
            ),
    {
        self.robots[i].fast_count = WHEEL_TURNS;
        proof {
            self.lemma_steady_wf(old(self));
            assert(self.robots@ =~= old(self).robots@.update(i as int, self.robots@[i as int]));
        }
    }

    /// Robot `i` starts its drill.
    pub fn start_drill(&mut self, i: usize)
        requires
            old(self).wf(),
            i < old(self).robots@.len(),
        ensures
            final(self).after(old(self)),
            final(self).with_robot(
                old(self),
                i as int,
                (RobotState {
                    drill_time: if old(self).robots@[i as int].drill_time + DRILL_TURNS
                        <= usize::MAX {
                        (old(self).robots@[i as int].drill_time + DRILL_TURNS) as usize
                    } else {
                        usize::MAX
                    },
                    ..old(self).robots@[i as int]
                }),
            ),
    {
        let t: usize = self.robots[i].drill_time;
        self.robots[i].drill_time = if t <= usize::MAX - DRILL_TURNS {
            t + DRILL_TURNS
        } else {
            usize::MAX
        };
        proof {
            self.lemma_steady_wf(old(self));
            assert(self.robots@ =~= old(self).robots@.update(i as int, self.robots@[i as int]));
        }
    }

    /// Robot `i` rests from now on.
    pub fn retire(&mut self, i: usize)
        requires
            old(self).wf(),
            i < old(self).robots@.len(),
        ensures
            final(self).after(old(self)),
            final(self).with_robot(
                old(self),
                i as int,
                (RobotState { finished: true, ..old(self).robots@[i as int] }),
            ),
    {
        self.robots[i].finished = true;
        proof {
            self.lemma_steady_wf(old(self));
            assert(self.robots@ =~= old(self).robots@.update(i as int, self.robots@[i as int]));
        }
    }

    /// Robot `i` drops a portal where it stands.
    pub fn drop_portal(&mut self, i: usize)
        requires
            old(self).wf(),
            i < old(self).robots@.len(),
            old(self).robots@[i as int].num_collected_portal > 0,
        ensures
            final(self).after(old(self)),
            final(self).portal_dropped(old(self), i as int),
    {
        assert(self.robots@[i as int].wf(&self.bd));
        let x: i64 = self.robots[i].x;
        let y: i64 = self.robots[i].y;
        self.robots[i].num_collected_portal = self.robots[i].num_collected_portal - 1;
        self.portals.push((x, y));
        let mut c: Cell = self.bd.get(x, y);
        c.set_portal();
        let ghost f: int = flat(self.bd.w as int, x as int, y as int);
        proof {
            lemma_flat(self.bd.w as int, self.bd.h as int, x as int, y as int);
            assert forall|j: int| 0 <= j < self.robots@.len() implies count_owner(
                self.bd.cells@.update(f, c),
                j,
            ) == count_owner(self.bd.cells@, j) by {
                lemma_count_owner_update(self.bd.cells@, f, c, j);
            }
        }
        self.bd.set(x, y, c);
        proof {
            assert forall|j: int| 0 <= j < self.robots@.len() implies (
            #[trigger] self.robots@[j]).wf(&self.bd) && self.robots@[j].prios
                == self.bd.reserved(j) by {
                assert(old(self).robots@[j].wf(&old(self).bd));
            }
            assert forall|m: int| 0 <= m < self.bd.cells@.len() implies (
                    #[trigger] self.bd.cells@[m]).tidy(self.robots@.len() as int) by {
                if m != f {
                    assert(self.bd.cells@[m] == old(self).bd.cells@[m]);
                }
            }
            assert forall|m: int| 0 <= m < self.portals@.len() implies self.bd.has(
                (#[trigger] self.portals@[m]).0 as int,
                self.portals@[m].1 as int,
            ) by {
                if m < old(self).portals@.len() {
                    assert(self.portals@[m] == old(self).portals@[m]);
                    assert(old(self).bd.has(
                        old(self).portals@[m].0 as int,
                        old(self).portals@[m].1 as int,
                    ));
                }
            }
            assert forall|cx: int, cy: int| old(self).bd.has(cx, cy) implies ({
                let a = old(self).bd.at(cx, cy);
                let b = #[trigger] self.bd.at(cx, cy);
                &&& b.wall() == a.wall()
                &&& a.painted() ==> b.painted()
                &&& a.portal() ==> b.portal()
                &&& b.item_code() == a.item_code() || b.item_code() == 0
            }) by {
                if cx != x || cy != y {
                    assert(self.bd.at(cx, cy) == old(self).bd.at(cx, cy));
                }
            }
            assert(self.robots@ =~= old(self).robots@.update(i as int, self.robots@[i as int]));
        }
    }

    /// Robot `i` gets one more manipulator, at the offset `d`.
    pub fn attach(&mut self, i: usize, d: Pos)
        requires
            old(self).wf(),
            i < old(self).robots@.len(),
            old(self).robots@[i as int].manips@.len() < REACH,
            -REACH <= d.0 <= REACH,
            -REACH <= d.1 <= REACH,
        ensures
            final(self).after(old(self)),
            final(self).with_robot(
                old(self),
                i as int,
                (RobotState {
                    manips: final(self).robots@[i as int].manips,
                    ..old(self).robots@[i as int]
                }),
            ),
            final(self).robots@[i as int].manips@ == old(self).robots@[i as int].manips@.push(d),
    {
        self.robots[i].manips.push(d);
        proof {
            assert(self.robots@ =~= old(self).robots@.update(i as int, self.robots@[i as int]));
            assert forall|j: int| 0 <= j < self.robots@.len() implies (
            #[trigger] self.robots@[j]).wf(&self.bd) && self.robots@[j].prios
                == self.bd.reserved(j) by {
                assert(old(self).robots@[j].wf(&old(self).bd));
                if j == i {
                    let m0 = old(self).robots@[j].manips@;
                    let m1 = self.robots@[j].manips@;
                    assert forall|q: int| 0 <= q < m1.len() implies -REACH <= (#[trigger] m1[q]).0
                        <= REACH && -REACH <= m1[q].1 <= REACH by {
                        if q < m0.len() {
                            assert(m1[q] == m0[q]);
                        }
                    }
                    let a = choose|a: int| 0 <= a < m0.len() && unit(#[trigger] m0[a]);
                    assert(m1[a] == m0[a]);
                }
            }
        }
    }
}

} // verus!
