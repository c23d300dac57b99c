use crate::board::{flat, lemma_flat, Board, Pos};
use crate::cell::{Cell, MAX_OWNER};
use crate::command::Command;
use crate::region::{flood_region, holds, joined, pt};
use vstd::prelude::*;

verus! {

/// The largest offset, in either direction, of a manipulator from its robot.
pub const REACH: i64 = 0x1000_0000;

/// What one robot holds.
pub struct RobotState {
    /// Where the robot stands.
    pub x: i64,
    pub y: i64,
    /// The offsets of the cells that the robot paints around itself.
    pub manips: Vec<Pos>,
    /// How many cells are reserved for the robot.
    pub prios: usize,
    /// How many portals the robot may still drop.
    pub num_collected_portal: usize,
    /// For how many turns the robot can still pass through walls.
    pub drill_time: usize,
    /// Commands planned ahead; the last one comes first.
    pub queue: Vec<Command>,
    /// The order in which the robot's searches try the four directions.
    pub vect: Vec<Pos>,
    /// For how many turns the robot still moves two steps at a time.
    pub fast_count: usize,
    /// The cell the robot is heading for.
    pub target: Option<Pos>,
    /// Whether the robot found nothing left to do and rests from then on.
    pub finished: bool,
}

/// The cells that were changed, each with its position and what it held before.
pub struct Diff {
    pub bd: Vec<(usize, usize, Cell)>,
}

/// The board, the robots on it and what they share.
pub struct State {
    pub bd: Board,
    pub robots: Vec<RobotState>,
    /// The boosters in store, by item code.
    pub items: Vec<usize>,
    /// How many cells are still to be painted.
    pub rest: usize,
    /// How many cloning boosters still lie on the board.
    pub clone_num: usize,
    /// Where cloning boosters lie that no robot is heading for.
    pub pending_clone: Vec<Pos>,
    /// How many portal boosters still lie on the board.
    pub portal_num: usize,
    /// Where portals were dropped.
    pub portals: Vec<Pos>,
    /// The robot that walks to the cloning factory.
    pub spawn_bot: Option<usize>,
    pub diff: Diff,
    /// Islands below this size are reserved for the robot that finds them.
    pub island_size_threshold: usize,
    /// The direction orders that new robots get in turn.
    pub vects: Vec<Vec<Pos>>,
}

/// Whether `d` is one step up, down, left or right.
pub open spec fn unit(d: Pos) -> bool {
    (d.0 == 0 && (d.1 == 1 || d.1 == -1)) || (d.1 == 0 && (d.0 == 1 || d.0 == -1))
}

/// Whether the list holds each of the four directions once.
pub open spec fn is_order(v: Seq<Pos>) -> bool {
    &&& v.len() == 4
    &&& forall|i: int| 0 <= i < 4 ==> unit(#[trigger] v[i])
    &&& forall|i: int, j: int| 0 <= i < j < 4 ==> v[i] != v[j]
}

/// Whether no manipulator reaches further than `REACH`.
pub open spec fn in_reach(m: Seq<Pos>) -> bool {
    forall|i: int|
        0 <= i < m.len() ==> -REACH <= (#[trigger] m[i]).0 <= REACH && -REACH <= m[i].1 <= REACH
}

/// Whether one of the manipulators lies one step from the robot, and so shows
/// which way the robot faces.
pub open spec fn has_arm(m: Seq<Pos>) -> bool {
    exists|i: int| 0 <= i < m.len() && unit(#[trigger] m[i])
}

/// Whether every command of the list is a quarter turn or one step.
pub open spec fn is_plan(q: Seq<Command>) -> bool {
    forall|i: int|
        0 <= i < q.len() ==> match #[trigger] q[i] {
            Command::Turn(_) => true,
            Command::Move(dx, dy) => crate::command::is_step(dx as int, dy as int),
            _ => false,
        }
}

/// How many of the cells are reserved for robot `i`.
pub open spec fn count_owner(cells: Seq<Cell>, i: int) -> nat
    decreases cells.len(),
{
    if cells.len() == 0 {
        0
    } else {
        count_owner(cells.drop_last(), i) + (if cells.last().owner_code() == i + 1 {
            1nat
        } else {
            0nat
        })
    }
}

/// No more cells are reserved than there are.
pub proof fn lemma_count_owner_bound(cells: Seq<Cell>, i: int)
    ensures
        count_owner(cells, i) <= cells.len(),
    decreases cells.len(),
{
    if cells.len() > 0 {
        lemma_count_owner_bound(cells.drop_last(), i);
    }
}

/// A change of one cell changes the count by what the cell brings and takes.
pub proof fn lemma_count_owner_update(cells: Seq<Cell>, k: int, c: Cell, i: int)
    requires
        0 <= k < cells.len(),
    ensures
        count_owner(cells.update(k, c), i) + (if cells[k].owner_code() == i + 1 {
            1nat
        } else {
            0nat
        }) == count_owner(cells, i) + (if c.owner_code() == i + 1 {
            1nat
        } else {
            0nat
        }),
    decreases cells.len(),
{
    let after = cells.update(k, c);
    if k == cells.len() - 1 {
        assert(after.drop_last() =~= cells.drop_last());
    } else {
        assert(after.drop_last() =~= cells.drop_last().update(k, c));
        lemma_count_owner_update(cells.drop_last(), k, c, i);
    }
}

/// The records of the cells of `list` as they are on the board `bd`.
pub open spec fn records(list: Seq<Pos>, bd: &Board) -> Seq<(usize, usize, Cell)> {
    Seq::new(
        list.len(),
        |k: int| (list[k].0 as usize, list[k].1 as usize, bd.at(list[k].0 as int, list[k].1 as int)),
    )
}

impl Board {
    /// The open, unpainted cells that nobody reserved.
    pub open spec fn free(&self) -> spec_fn(int, int) -> bool {
        |x: int, y: int| self.has(x, y) && self.at(x, y).unclaimed()
    }

    /// The open, unpainted cells reserved for robot `i`.
    pub open spec fn held(&self, i: int) -> spec_fn(int, int) -> bool {
        |x: int, y: int| self.has(x, y) && self.at(x, y).claimed_by(i)
    }

    /// How many cells are reserved for robot `i`.
    pub open spec fn reserved(&self, i: int) -> nat {
        count_owner(self.cells@, i)
    }

    /// Whether every reservation is for one of `n` robots and lies on an open,
    /// unpainted cell, no wall is painted, and every item code is that of a
    /// booster.
    pub open spec fn owners_below(&self, n: int) -> bool {
        forall|k: int| 0 <= k < self.cells@.len() ==> (#[trigger] self.cells@[k]).tidy(n)
    }
}

impl RobotState {
    /// The robot stands on the board. It has no more than `REACH`
    /// manipulators, all within reach, one of them one step from the robot.
    /// Its direction order is one, and its plan holds quarter turns and single
    /// steps only.
    pub open spec fn wf(&self, bd: &Board) -> bool {
        &&& bd.has(self.x as int, self.y as int)
        &&& in_reach(self.manips@)
        &&& has_arm(self.manips@)
        &&& self.manips@.len() <= REACH
        &&& is_order(self.vect@)
        &&& is_plan(self.queue@)
    }

    /// Whether the two robots differ in nothing but the count of cells
    /// reserved for them.
    pub open spec fn same_but_prios(&self, other: &RobotState) -> bool {
        &&& self.x == other.x
        &&& self.y == other.y
        &&& self.manips == other.manips
        &&& self.num_collected_portal == other.num_collected_portal
        &&& self.drill_time == other.drill_time
        &&& self.queue == other.queue
        &&& self.vect == other.vect
        &&& self.fast_count == other.fast_count
        &&& self.target == other.target
        &&& self.finished == other.finished
    }
}

impl State {
    /// What holds of the state between any two operations.
    ///
    /// The board is well formed and there are 1 to 255 robots, each of them
    /// well formed. A reservation lies on an open, unpainted cell, names one of
    /// the robots, and each robot's count is the number of cells reserved for
    /// it. There is a store for each item code, every portal lies on the board,
    /// and each of the direction orders on offer is one. While a robot is on
    /// its way to the cloning factory, a cloning booster is in store.
    pub open spec fn wf(&self) -> bool {
        &&& self.bd.wf()
        &&& 1 <= self.robots@.len() <= MAX_OWNER + 1
        &&& forall|i: int|
            0 <= i < self.robots@.len() ==> (#[trigger] self.robots@[i]).wf(&self.bd)
                && self.robots@[i].prios == self.bd.reserved(i)
        &&& self.bd.owners_below(self.robots@.len() as int)
        &&& self.items@.len() == 7
        &&& forall|i: int|
            0 <= i < self.portals@.len() ==> self.bd.has(
                (#[trigger] self.portals@[i]).0 as int,
                self.portals@[i].1 as int,
            )
        &&& self.vects@.len() >= 1
        &&& forall|i: int| 0 <= i < self.vects@.len() ==> is_order((#[trigger] self.vects@[i])@)
        &&& (self.spawn_bot matches Some(b) ==> b < self.robots@.len() && self.items@[6] > 0)
    }

    /// A state stays well formed when one cell changes and the robots' counts
    /// of reserved cells are kept in step.
    pub proof fn lemma_wf_after_cell(&self, pre: &State, f: int, c: Cell)
        requires
            pre.wf(),
            0 <= f < pre.bd.cells@.len(),
            self.bd.same_size(&pre.bd),
            self.bd.cells@ == pre.bd.cells@.update(f, c),
            c.tidy(pre.robots@.len() as int),
            self.same_stores(pre),
            self.same_robots_but_prios(pre),
            forall|j: int|
                0 <= j < self.robots@.len() ==> (#[trigger] self.robots@[j]).prios == count_owner(
                    self.bd.cells@,
                    j,
                ),
        ensures
            self.wf(),
    {
        assert forall|j: int| 0 <= j < self.robots@.len() implies (#[trigger] self.robots@[j]).wf(
            &self.bd,
        ) by {
            assert(pre.robots@[j].wf(&pre.bd));
            assert(self.robots@[j].same_but_prios(&pre.robots@[j]));
        }
        assert forall|m: int| 0 <= m < self.bd.cells@.len() implies (
        #[trigger] self.bd.cells@[m]).tidy(self.robots@.len() as int) by {
            if m != f {
                assert(self.bd.cells@[m] == pre.bd.cells@[m]);
            }
        }
        assert forall|m: int| 0 <= m < self.portals@.len() implies self.bd.has(
            (#[trigger] self.portals@[m]).0 as int,
            self.portals@[m].1 as int,
        ) by {
            assert(pre.bd.has(pre.portals@[m].0 as int, pre.portals@[m].1 as int));
        }
    }

    /// Whether the state is `pre` but for parts on which its well-formedness
    /// does not rest: what the robots carry and head for, the stores, the
    /// counts and the record of changes.
    pub open spec fn steady(&self, pre: &State) -> bool {
        &&& self.bd == pre.bd
        &&& self.robots@.len() == pre.robots@.len()
        &&& forall|j: int|
            0 <= j < pre.robots@.len() ==> {
                let a = pre.robots@[j];
                let b = #[trigger] self.robots@[j];
                &&& b.x == a.x
                &&& b.y == a.y
                &&& b.manips == a.manips
                &&& b.vect == a.vect
                &&& b.queue == a.queue
                &&& b.prios == a.prios
            }
        &&& self.items@.len() == 7
        &&& self.portals == pre.portals
        &&& self.vects == pre.vects
        &&& self.island_size_threshold == pre.island_size_threshold
        &&& (self.spawn_bot matches Some(b) ==> b < self.robots@.len() && self.items@[6] > 0)
    }

    /// A steady change keeps the state well formed.
    pub proof fn lemma_steady_wf(&self, pre: &State)
        requires
            pre.wf(),
            self.steady(pre),
        ensures
            self.wf(),
    {
        assert forall|j: int| 0 <= j < self.robots@.len() implies (#[trigger] self.robots@[j]).wf(
            &self.bd,
        ) && self.robots@[j].prios == self.bd.reserved(j) by {
            assert(pre.robots@[j].wf(&pre.bd));
        }
    }

    /// Whether the two states differ in nothing but the board, the robots, the
    /// count of cells to paint and the record of changes.
    pub open spec fn same_stores(&self, other: &State) -> bool {
        &&& self.items == other.items
        &&& self.clone_num == other.clone_num
        &&& self.pending_clone == other.pending_clone
        &&& self.portal_num == other.portal_num
        &&& self.portals == other.portals
        &&& self.spawn_bot == other.spawn_bot
        &&& self.island_size_threshold == other.island_size_threshold
        &&& self.vects == other.vects
    }

    /// Whether the state is `pre` but for robot `i`, which is `r` now.
    pub open spec fn with_robot(&self, pre: &State, i: int, r: RobotState) -> bool {
        &&& self.bd == pre.bd
        &&& self.same_stores(pre)
        &&& self.rest == pre.rest
        &&& self.diff == pre.diff
        &&& self.robots@ == pre.robots@.update(i, r)
    }

    /// Whether the robots are those of `other`, but for the counts of cells
    /// reserved for them.
    pub open spec fn same_robots_but_prios(&self, other: &State) -> bool {
        &&& self.robots@.len() == other.robots@.len()
        &&& forall|j: int|
            0 <= j < self.robots@.len() ==> (#[trigger] self.robots@[j]).same_but_prios(
                &other.robots@[j],
            )
    }

    /// The cells that a flood fill for robot `i` may pass through: the free
    /// cells where it claims, the cells reserved for the robot where it releases.
    pub open spec fn fill_cells(&self, i: int, claim: bool) -> spec_fn(int, int) -> bool {
        if claim {
            self.bd.free()
        } else {
            self.bd.held(i)
        }
    }

    /// The cells that a flood fill from `(x, y)` for robot `i` changes, in the
    /// order in which it comes to them: where it claims, no more than are
    /// missing from `acc` to the threshold `th`.
    pub open spec fn fill_list(&self, x: int, y: int, i: int, claim: bool, acc: int, th: int) -> Seq<
        Pos,
    > {
        crate::region::fill_list(
            self.fill_cells(i, claim),
            self.bd.w as int,
            self.bd.h as int,
            if claim {
                Some(th - acc)
            } else {
                None
            },
            (x as i64, y as i64),
        )
    }

    /// What a flood fill from `(x, y)` for robot `i` makes of the state `pre`
    /// when it returns `r`.
    ///
    /// It counts on from `acc`. A claim stops at `th`, so it counts no further
    /// than that. The cells of `fill_list` are changed, and no others: the
    /// reservation of each, nothing else, goes to the robot by a claim, to
    /// nobody by a release. Each of them belongs to the region around `(x, y)`.
    /// The robot's count of reserved cells moves by the number of cells
    /// changed. A fill that did not stop at `th` changed the whole region. If
    /// `diff` is set, each cell is recorded as it was, in the order of the fill.
    pub open spec fn flooded(
        &self,
        pre: &State,
        x: int,
        y: int,
        i: int,
        claim: bool,
        diff: bool,
        acc: int,
        th: int,
        r: int,
    ) -> bool {
        let e = pre.fill_cells(i, claim);
        let code = if claim {
            i + 1
        } else {
            0
        };
        let list = pre.fill_list(x, y, i, claim, acc, th);
        &&& r == acc + list.len()
        &&& forall|cx: int, cy: int|
            pre.bd.has(cx, cy) ==> {
                let a = pre.bd.at(cx, cy);
                let b = #[trigger] self.bd.at(cx, cy);
                if holds(list, (cx, cy)) {
                    b == a.reserved_as(code)
                } else {
                    b == a
                }
            }
        &&& diff ==> self.diff.bd@ == pre.diff.bd@ + records(list, &pre.bd)
        &&& self.bd.same_size(&pre.bd)
        &&& self.same_stores(pre)
        &&& self.same_robots_but_prios(pre)
        &&& self.rest == pre.rest
        &&& r >= acc
        &&& claim ==> r <= th || r == acc
        &&& forall|j: int|
            0 <= j < pre.robots@.len() && j != i ==> (#[trigger] self.robots@[j]).prios
                == pre.robots@[j].prios
        &&& self.robots@[i].prios == (if claim {
            pre.robots@[i].prios + (r - acc)
        } else {
            pre.robots@[i].prios - (r - acc)
        })
        &&& forall|cx: int, cy: int|
            pre.bd.has(cx, cy) ==> {
                let a = pre.bd.at(cx, cy);
                let b = #[trigger] self.bd.at(cx, cy);
                b == a || (joined(e, (x, y), (cx, cy)) && b.same_but_owner(a) && b.owner_code()
                    == code)
            }
        &&& (!claim || r < th) ==> forall|cx: int, cy: int|
            joined(e, (x, y), (cx, cy)) ==> (#[trigger] self.bd.at(cx, cy)).owner_code() == code
        &&& if diff {
            &&& self.diff.bd@.len() == pre.diff.bd@.len() + (r - acc)
            &&& self.diff.bd@.take(pre.diff.bd@.len() as int) == pre.diff.bd@
            &&& forall|k: int|
                pre.diff.bd@.len() <= k < self.diff.bd@.len() ==> {
                    let rec = #[trigger] self.diff.bd@[k];
                    pre.bd.has(rec.0 as int, rec.1 as int) && rec.2 == pre.bd.at(
                        rec.0 as int,
                        rec.1 as int,
                    ) && self.bd.at(rec.0 as int, rec.1 as int) != rec.2
                }
        } else {
            self.diff.bd@ == pre.diff.bd@
        }
    }

    /// Flood-fills the region of `(x, y)` for robot `i` and returns `acc` plus
    /// the number of cells it changed.
    ///
    /// With `b` set the fill claims: it passes through free cells and reserves
    /// each for the robot, but stops once the count has reached `th`. Without
    /// `b` it releases: it passes through the cells reserved for the robot and
    /// frees each. With `diff` set each change is recorded.
    pub fn paint(&mut self, x: i64, y: i64, i: usize, b: bool, diff: bool, acc: usize, th: usize) -> (r:
        usize)
        requires
            old(self).wf(),
            i < old(self).robots@.len(),
            !b ==> acc + old(self).bd.cells@.len() <= usize::MAX,
        ensures
            final(self).wf(),
            final(self).flooded(
                old(self),
                x as int,
                y as int,
                i as int,
                b,
                diff,
                acc as int,
                th as int,
                r as int,
            ),
    {
        if b && acc >= th {
            proof {
                assert(self.diff.bd@.take(self.diff.bd@.len() as int) =~= self.diff.bd@);
                let list = self.fill_list(x as int, y as int, i as int, b, acc as int, th as int);
                assert(list.len() == 0);
                assert(self.diff.bd@ + records(list, &self.bd) =~= self.diff.bd@);
            }
            return acc;
        }
        let total: usize = self.bd.cells.len();
        let limit: Option<usize> = if b {
            Some(th - acc)
        } else {
            None
        };
        let ghost e = self.fill_cells(i as int, b);
        let ghost code: int = if b {
            i + 1
        } else {
            0
        };
        let w: usize = self.bd.w;
        let h: usize = self.bd.h;
        let open = |u: i64, v: i64| -> (ok: bool)
            requires
                self.bd.wf(),
                self.bd.has(u as int, v as int),
            ensures
                ok == self.fill_cells(i as int, b)(u as int, v as int),
            {
                let c: Cell = self.bd.get(u, v);
                if c.is_wall() || c.is_painted() {
                    false
                } else {
                    match c.prio() {
                        None => b,
                        Some(o) => !b && o == i,
                    }
                }
            };
        let cells: Vec<Pos> = flood_region(w, h, x, y, limit, open, Ghost(e));
        let n: usize = cells.len();
        let mut k: usize = 0;
        proof {
            assert(cells@ == self.fill_list(x as int, y as int, i as int, b, acc as int, th as int));
            assert(self.diff.bd@ + records(cells@.take(0), &self.bd) =~= self.diff.bd@);
        }
        while k < n
            invariant
                diff ==> self.diff.bd@ == old(self).diff.bd@ + records(
                    cells@.take(k as int),
                    &old(self).bd,
                ),
                old(self).wf(),
                i < old(self).robots@.len(),
                total == self.bd.cells@.len(),
                n == cells@.len(),
                k <= n,
                e == old(self).fill_cells(i as int, b),
                code == (if b {
                    i + 1
                } else {
                    0
                }),
                crate::region::all_differ(cells@),
                forall|j: int|
                    0 <= j < n ==> e((#[trigger] cells@[j]).0 as int, cells@[j].1 as int) && joined(
                        e,
                        (x as int, y as int),
                        pt(cells@[j]),
                    ),
                self.wf(),
                self.bd.same_size(&old(self).bd),
                self.same_stores(old(self)),
                self.same_robots_but_prios(old(self)),
                self.rest == old(self).rest,
                forall|j: int|
                    0 <= j < self.robots@.len() && j != i ==> (#[trigger] self.robots@[j]).prios
                        == old(self).robots@[j].prios,
                self.robots@[i as int].prios == (if b {
                    old(self).robots@[i as int].prios + k
                } else {
                    old(self).robots@[i as int].prios - k
                }),
                forall|cx: int, cy: int|
                    self.bd.has(cx, cy) ==> {
                        let a = old(self).bd.at(cx, cy);
                        let c = #[trigger] self.bd.at(cx, cy);
                        if holds(cells@.take(k as int), (cx, cy)) {
                            c.same_but_owner(a) && c.owner_code() == code && c != a && c
                                == a.reserved_as(code)
                        } else {
                            c == a
                        }
                    },
                if diff {
                    &&& self.diff.bd@.len() == old(self).diff.bd@.len() + k
                    &&& self.diff.bd@.take(old(self).diff.bd@.len() as int) == old(self).diff.bd@
                    &&& forall|m: int|
                        old(self).diff.bd@.len() <= m < self.diff.bd@.len() ==> {
                            let rec = #[trigger] self.diff.bd@[m];
                            old(self).bd.has(rec.0 as int, rec.1 as int) && rec.2 == old(
                                self,
                            ).bd.at(rec.0 as int, rec.1 as int) && holds(
                                cells@.take(k as int),
                                (rec.0 as int, rec.1 as int),
                            )
                        }
                } else {
                    self.diff.bd@ == old(self).diff.bd@
                },
            decreases n - k,
        {
            let p: Pos = cells[k];
            let ghost before: State = *self;
            let ghost done: Seq<Pos> = cells@.take(k as int);
            let ghost more: Seq<Pos> = cells@.take(k + 1);
            proof {
                assert(e(p.0 as int, p.1 as int));
                assert(more[k as int] == p);
                if holds(done, pt(p)) {
                    let j = choose|j: int| 0 <= j < done.len() && pt(#[trigger] done[j]) == pt(p);
                    assert(cells@[j] == cells@[k as int]);
                }
                assert(self.bd.at(p.0 as int, p.1 as int) == old(self).bd.at(
                    p.0 as int,
                    p.1 as int,
                ));
            }
            let mut c: Cell = self.bd.get(p.0, p.1);
            let ghost was: Cell = c;
            if diff {
                self.diff.bd.push((p.0 as usize, p.1 as usize, c));
            }
            if b {
                c.set_prio(Some(i));
            } else {
                c.set_prio(None);
            }
            let ghost f: int = flat(self.bd.w as int, p.0 as int, p.1 as int);
            proof {
                lemma_flat(self.bd.w as int, self.bd.h as int, p.0 as int, p.1 as int);
                lemma_count_owner_update(self.bd.cells@, f, c, i as int);
                lemma_count_owner_bound(self.bd.cells@.update(f, c), i as int);
                assert forall|j: int| 0 <= j < self.robots@.len() && j != i implies count_owner(
                    self.bd.cells@.update(f, c),
                    j,
                ) == count_owner(self.bd.cells@, j) by {
                    lemma_count_owner_update(self.bd.cells@, f, c, j);
                }
            }
            self.bd.set(p.0, p.1, c);
            if b {
                self.robots[i].prios = self.robots[i].prios + 1;
            } else {
                self.robots[i].prios = self.robots[i].prios - 1;
            }
            proof {
                assert(c != was);
                assert(c == was.reserved_as(code)) by {
                    let v = was.0;
                    let t = code as u16;
                    assert((v & !(0xff00u16)) | (t << 8) == (v & 0x00ffu16) | (t << 8)) by (bit_vector);
                }
                assert forall|q: (int, int)| holds(done, q) implies holds(more, q) by {
                    let j = choose|j: int| 0 <= j < done.len() && pt(#[trigger] done[j]) == q;
                    assert(more[j] == done[j]);
                }
                assert forall|q: (int, int)| holds(more, q) && q != pt(p) implies holds(
                    done,
                    q,
                ) by {
                    let j = choose|j: int| 0 <= j < more.len() && pt(#[trigger] more[j]) == q;
                    assert(done[j] == more[j]);
                }
                assert(holds(more, pt(p)));
                assert forall|j: int| 0 <= j < self.robots@.len() implies (
                #[trigger] self.robots@[j]).wf(&self.bd) && self.robots@[j].prios
                    == self.bd.reserved(j) by {
                    assert(before.robots@[j].wf(&before.bd));
                }
                assert(self.bd.owners_below(self.robots@.len() as int)) by {
                    assert forall|m: int| 0 <= m < self.bd.cells@.len() implies (
        #[trigger] self.bd.cells@[m]).tidy(self.robots@.len() as int) by {
                        if m != f {
                            assert(self.bd.cells@[m] == before.bd.cells@[m]);
                        }
                    }
                }
                assert forall|m: int| 0 <= m < self.portals@.len() implies self.bd.has(
                    (#[trigger] self.portals@[m]).0 as int,
                    self.portals@[m].1 as int,
                ) by {
                    assert(before.bd.has(
                        before.portals@[m].0 as int,
                        before.portals@[m].1 as int,
                    ));
                }
                if diff {
                    let base = old(self).diff.bd@.len() as int;
                    assert(self.diff.bd@ =~= old(self).diff.bd@ + records(more, &old(self).bd)) by {
                        assert(before.diff.bd@ == old(self).diff.bd@ + records(done, &old(self).bd));
                        assert(records(more, &old(self).bd) =~= records(done, &old(self).bd).push(
                            (p.0 as usize, p.1 as usize, was),
                        ));
                    }
                    assert(self.diff.bd@.take(base) =~= before.diff.bd@.take(base));
                    assert forall|m: int| base <= m < self.diff.bd@.len() implies ({
                        let rec = #[trigger] self.diff.bd@[m];
                        old(self).bd.has(rec.0 as int, rec.1 as int) && rec.2 == old(self).bd.at(
                            rec.0 as int,
                            rec.1 as int,
                        ) && holds(more, (rec.0 as int, rec.1 as int))
                    }) by {
                        if m < before.diff.bd@.len() {
                            assert(self.diff.bd@[m] == before.diff.bd@[m]);
                        }
                    }
                }
            }
            k = k + 1;
        }
        proof {
            assert(cells@.take(n as int) == cells@);
            assert(cells@ == old(self).fill_list(
                x as int,
                y as int,
                i as int,
                b,
                acc as int,
                th as int,
            ));
            let start = (x as int, y as int);
            assert forall|cx: int, cy: int| old(self).bd.has(cx, cy) implies ({
                let a = old(self).bd.at(cx, cy);
                let c = #[trigger] self.bd.at(cx, cy);
                c == a || (joined(e, start, (cx, cy)) && c.same_but_owner(a) && c.owner_code()
                    == code)
            }) by {
                if holds(cells@, (cx, cy)) {
                    let j = choose|j: int| 0 <= j < cells@.len() && pt(#[trigger] cells@[j]) == (
                        cx,
                        cy,
                    );
                }
            }
            if !b || acc + n < th {
                assert forall|cx: int, cy: int| joined(e, start, (cx, cy)) implies (
                #[trigger] self.bd.at(cx, cy)).owner_code() == code by {
                    assert(holds(cells@, (cx, cy)));
                    let j = choose|j: int| 0 <= j < cells@.len() && pt(#[trigger] cells@[j]) == (
                        cx,
                        cy,
                    );
                    assert(e(cells@[j].0 as int, cells@[j].1 as int));
                }
            }
            if diff {
                assert forall|m: int|
                    old(self).diff.bd@.len() <= m < self.diff.bd@.len() implies ({
                    let rec = #[trigger] self.diff.bd@[m];
                    self.bd.at(rec.0 as int, rec.1 as int) != rec.2
                }) by {}
            }
        }
        acc + n
    }
}

} // verus!
