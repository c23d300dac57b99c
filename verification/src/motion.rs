use crate::board::{flat, lemma_flat, Pos};
use crate::cell::Cell;
use crate::region::{lemma_walk_ends, walk};
use crate::sorted::{insert_point, rising_points};
use crate::state::{count_owner, lemma_count_owner_update, State};
use vstd::prelude::*;

verus! {

/// `a - b`, or 0 where `b` is the larger.
pub open spec fn minus(a: int, b: int) -> int {
    if a >= b {
        a - b
    } else {
        0
    }
}

impl State {
    /// Whether robot `i`, standing at `(x, y)`, paints `(cx, cy)` through its
    /// manipulator `m`: the cell lies at the manipulator's offset, on the board
    /// and in sight.
    pub open spec fn hit_by(&self, i: int, x: int, y: int, m: int, cx: int, cy: int) -> bool {
        let d = self.robots@[i].manips@[m];
        cx == x + d.0 && cy == y + d.1 && self.bd.has(cx, cy) && self.bd.sees(x, y, cx, cy)
    }

    /// Whether robot `i`, standing at `(x, y)`, paints `(cx, cy)` through one
    /// of its first `j` manipulators.
    pub open spec fn hits_upto(&self, i: int, x: int, y: int, j: int, cx: int, cy: int) -> bool {
        exists|m: int| 0 <= m < j && #[trigger] self.hit_by(i, x, y, m, cx, cy)
    }

    /// Whether robot `i`, standing at `(x, y)`, paints `(cx, cy)`.
    pub open spec fn hits(&self, i: int, x: int, y: int, cx: int, cy: int) -> bool {
        self.hits_upto(i, x, y, self.robots@[i].manips@.len() as int, cx, cy)
    }

    /// The unpainted cells that robot `i`, standing at `(x, y)`, paints through
    /// one of its first `j` manipulators.
    pub open spec fn fresh_upto(&self, i: int, x: int, y: int, j: int) -> Set<(int, int)> {
        Set::new(
            |c: (int, int)| self.hits_upto(i, x, y, j, c.0, c.1) && !self.bd.at(c.0, c.1).painted(),
        )
    }

    /// The unpainted cells that robot `i`, standing at `(x, y)`, paints.
    pub open spec fn fresh_cells(&self, i: int, x: int, y: int) -> Set<(int, int)> {
        self.fresh_upto(i, x, y, self.robots@[i].manips@.len() as int)
    }

    /// Whether `p` lies beside a cell that robot `i`, standing at `(x, y)`,
    /// paints through one of its first `j` manipulators: one step from it, in
    /// one of the robot's directions.
    pub open spec fn marks_upto(&self, i: int, x: int, y: int, j: int, p: (int, int)) -> bool {
        exists|m: int, k: int|
            0 <= m < j && 0 <= k < 4 && #[trigger] self.hit_by(
                i,
                x,
                y,
                m,
                p.0 - self.robots@[i].vect@[k].0,
                p.1 - self.robots@[i].vect@[k].1,
            )
    }

    /// Whether `marks` lists, in rising order and each once, the cells beside
    /// those that robot `i` paints when it stands at `(x, y)`.
    pub open spec fn marks_are(&self, i: int, x: int, y: int, marks: Seq<Pos>) -> bool {
        &&& rising_points(marks)
        &&& forall|q: Pos|
            #[trigger] marks.contains(q) <==> self.marks_upto(
                i,
                x,
                y,
                self.robots@[i].manips@.len() as int,
                crate::region::pt(q),
            )
    }

    /// What it makes of the state `pre` that the cell `p` is looked at for
    /// robot `i`.
    ///
    /// Nothing, unless the cell lies on the board and is reserved for nobody.
    /// Else the region of free cells around it is claimed for the robot, up to
    /// the island threshold, and released again; where the claim stayed below
    /// the threshold, the region is then reserved for the robot, and that is
    /// recorded.
    pub open spec fn probed(&self, pre: &State, p: Pos, i: int) -> bool {
        let th = pre.island_size_threshold as int;
        if pre.bd.has(p.0 as int, p.1 as int) && pre.bd.at(p.0 as int, p.1 as int).owner_code() == 0 {
            exists|a: State, b: State, size: int, freed: int|
                #![trigger
                    a.flooded(pre, p.0 as int, p.1 as int, i, true, false, 0, th, size),
                    b.flooded(&a, p.0 as int, p.1 as int, i, false, false, 0, th, freed),
                ]
                {
                    &&& a.flooded(pre, p.0 as int, p.1 as int, i, true, false, 0, th, size)
                    &&& b.flooded(&a, p.0 as int, p.1 as int, i, false, false, 0, th, freed)
                    &&& if size < th {
                        exists|kept: int|
                            #[trigger] self.flooded(
                                &b,
                                p.0 as int,
                                p.1 as int,
                                i,
                                true,
                                true,
                                0,
                                th,
                                kept,
                            )
                    } else {
                        *self == b
                    }
                }
        } else {
            *self == *pre
        }
    }

    /// What it makes of the state `pre` that the cells of `marks` are looked
    /// at for robot `i`, one after the other.
    pub open spec fn marked(&self, pre: &State, marks: Seq<Pos>, i: int) -> bool
        decreases marks.len(),
    {
        if marks.len() == 0 {
            *self == *pre
        } else {
            exists|mid: State|
                mid.marked(pre, marks.drop_last(), i) && #[trigger] self.probed(
                    &mid,
                    marks.last(),
                    i,
                )
        }
    }

    /// Whether the record of changes begins with that of `pre`.
    pub open spec fn record_grown(&self, pre: &State) -> bool {
        &&& self.diff.bd@.len() >= pre.diff.bd@.len()
        &&& self.diff.bd@.take(pre.diff.bd@.len() as int) == pre.diff.bd@
    }

    /// Whether every cell is as in `pre`, but for its reservation.
    pub open spec fn layers_kept(&self, pre: &State) -> bool {
        &&& self.bd.same_size(&pre.bd)
        &&& forall|cx: int, cy: int|
            pre.bd.has(cx, cy) ==> (#[trigger] self.bd.at(cx, cy)).same_but_owner(
                pre.bd.at(cx, cy),
            )
    }

    /// The records that painting adds when robot `i` stands at `(x, y)` and
    /// has used its first `j` manipulators: one for each cell that it paints and
    /// that was not painted, as the cell was, in the order in which the
    /// manipulators come to them.
    pub open spec fn sweep_records(&self, i: int, x: int, y: int, j: int) -> Seq<
        (usize, usize, Cell),
    >
        decreases j,
    {
        if j <= 0 {
            Seq::empty()
        } else {
            let before = self.sweep_records(i, x, y, j - 1);
            let d = self.robots@[i].manips@[j - 1];
            let t = (x + d.0, y + d.1);
            if self.hit_by(i, x, y, j - 1, t.0, t.1) && !self.hits_upto(i, x, y, j - 1, t.0, t.1)
                && !self.bd.at(t.0, t.1).painted() {
                before.push((t.0 as usize, t.1 as usize, self.bd.at(t.0, t.1)))
            } else {
                before
            }
        }
    }

    /// What painting makes of the state `pre` when robot `i` stands at `(x, y)`
    /// and has used its first `j` manipulators.
    ///
    /// The cells that the robot paints are painted and reserved for nobody;
    /// all else on the board is as it was. The count of cells to paint went
    /// down by the number of cells that were not painted before, but not below
    /// zero. The record of changes has grown by the records of those cells.
    pub open spec fn swept_upto(&self, pre: &State, i: int, x: int, y: int, j: int) -> bool {
        &&& self.bd.same_size(&pre.bd)
        &&& self.same_stores(pre)
        &&& self.same_robots_but_prios(pre)
        &&& forall|cx: int, cy: int|
            pre.bd.has(cx, cy) ==> {
                let a = pre.bd.at(cx, cy);
                let b = #[trigger] self.bd.at(cx, cy);
                &&& b.wall() == a.wall()
                &&& b.portal() == a.portal()
                &&& b.item_code() == a.item_code()
                &&& b.painted() == (a.painted() || pre.hits_upto(i, x, y, j, cx, cy))
                &&& b.owner_code() == (if pre.hits_upto(i, x, y, j, cx, cy) {
                    0
                } else {
                    a.owner_code()
                })
                &&& b == (if pre.hits_upto(i, x, y, j, cx, cy) {
                    a.swept()
                } else {
                    a
                })
            }
        &&& pre.fresh_upto(i, x, y, j).finite()
        &&& self.rest == minus(pre.rest as int, pre.fresh_upto(i, x, y, j).len() as int)
        &&& self.record_grown(pre)
        &&& self.diff.bd@ == pre.diff.bd@ + pre.sweep_records(i, x, y, j)
    }

    /// Paints the cells that robot `i` reaches from `(x, y)` and returns, in
    /// rising order, the cells next to those it reached.
    fn sweep(&mut self, x: i64, y: i64, i: usize) -> (marks: Vec<Pos>)
        requires
            old(self).wf(),
            i < old(self).robots@.len(),
            old(self).bd.has(x as int, y as int),
        ensures
            final(self).wf(),
            final(self).swept_upto(
                old(self),
                i as int,
                x as int,
                y as int,
                old(self).robots@[i as int].manips@.len() as int,
            ),
            old(self).marks_are(i as int, x as int, y as int, marks@),
    {
        let mut marks: Vec<Pos> = Vec::new();
        let n: usize = self.robots[i].manips.len();
        let total: usize = self.bd.cells.len();
        let mut j: usize = 0;
        proof {
            assert(old(self).fresh_upto(i as int, x as int, y as int, 0) =~= Set::empty());
            assert(self.diff.bd@.take(self.diff.bd@.len() as int) =~= self.diff.bd@);
            assert(self.diff.bd@ + old(self).sweep_records(i as int, x as int, y as int, 0)
                =~= self.diff.bd@);
        }
        while j < n
            invariant
                old(self).wf(),
                i < old(self).robots@.len(),
                old(self).bd.has(x as int, y as int),
                n == old(self).robots@[i as int].manips@.len(),
                total == self.bd.cells@.len(),
                j <= n,
                self.wf(),
                self.swept_upto(old(self), i as int, x as int, y as int, j as int),
                rising_points(marks@),
                forall|q: Pos|
                    #[trigger] marks@.contains(q) <==> old(self).marks_upto(
                        i as int,
                        x as int,
                        y as int,
                        j as int,
                        crate::region::pt(q),
                    ),
            decreases n - j,
        {
            let d: Pos = self.robots[i].manips[j];
            assert(d == old(self).robots@[i as int].manips@[j as int]);
            let tx: i64 = x + d.0;
            let ty: i64 = y + d.1;
            let ghost before: State = *self;
            let ghost listed: Seq<Pos> = marks@;
            let mut hit: bool = false;
            if self.bd.contains(tx, ty) {
                proof {
                    self.bd.lemma_sees_same(&old(self).bd, x as int, y as int, tx as int, ty as int);
                }
                if self.bd.can_see(x, y, tx, ty) {
                    hit = true;
                    proof {
                        self.bd.lemma_sees_open(x as int, y as int, tx as int, ty as int);
                    }
                    let prev: Cell = self.bd.get(tx, ty);
                    let mut c: Cell = prev;
                    if !prev.is_painted() {
                        if self.rest > 0 {
                            self.rest = self.rest - 1;
                        }
                    }
                    c.set_painted();
                    let ghost f: int = flat(self.bd.w as int, tx as int, ty as int);
                    proof {
                        lemma_flat(self.bd.w as int, self.bd.h as int, tx as int, ty as int);
                    }
                    match prev.prio() {
                        Some(o) => {
                            c.set_prio(None);
                            proof {
                                lemma_count_owner_update(self.bd.cells@, f, c, o as int);
                                assert forall|q: int|
                                    0 <= q < self.robots@.len() && q != o implies count_owner(
                                    self.bd.cells@.update(f, c),
                                    q,
                                ) == count_owner(self.bd.cells@, q) by {
                                    lemma_count_owner_update(self.bd.cells@, f, c, q);
                                }
                            }
                            self.robots[o].prios = self.robots[o].prios - 1;
                        },
                        None => {
                            proof {
                                assert forall|q: int|
                                    0 <= q < self.robots@.len() implies count_owner(
                                    self.bd.cells@.update(f, c),
                                    q,
                                ) == count_owner(self.bd.cells@, q) by {
                                    lemma_count_owner_update(self.bd.cells@, f, c, q);
                                }
                            }
                        },
                    }
                    proof {
                        let v = prev.0;
                        assert(v >> 8 == 0 ==> v | 2u16 == (v | 2u16) & 0x00ffu16) by (bit_vector);
                        assert(((v | 2u16) & !(0xff00u16)) | (0u16 << 8) == (v | 2u16) & 0x00ffu16)
                            by (bit_vector);
                        assert(c == prev.swept());
                    }
                    self.bd.set(tx, ty, c);
                    if c.0 != prev.0 {
                        self.diff.bd.push((tx as usize, ty as usize, prev));
                    }
                    proof {
                        self.lemma_wf_after_cell(&before, f, c);
                        assert(self.diff.bd@.take(old(self).diff.bd@.len() as int)
                            =~= before.diff.bd@.take(old(self).diff.bd@.len() as int));
                    }
                    let mut k: usize = 0;
                    while k < 4
                        invariant
                            k <= 4,
                            i < self.robots@.len(),
                            self.robots@[i as int].vect@.len() == 4,
                            forall|z: int|
                                0 <= z < 4 ==> crate::state::unit(
                                    #[trigger] self.robots@[i as int].vect@[z],
                                ),
                            0 <= tx <= crate::board::MAX_SIDE,
                            0 <= ty <= crate::board::MAX_SIDE,
                            rising_points(marks@),
                            forall|q: Pos|
                                #[trigger] marks@.contains(q) <==> listed.contains(q) || exists|z: int|
                                    0 <= z < k && q == State::shifted(
                                        #[trigger] self.robots@[i as int].vect@[z],
                                        tx,
                                        ty,
                                    ),
                        decreases 4 - k,
                    {
                        let v: Pos = self.robots[i].vect[k];
                        assert(crate::state::unit(self.robots@[i as int].vect@[k as int]));
                        let ghost had: Seq<Pos> = marks@;
                        let beside: Pos = (v.0 + tx, v.1 + ty);
                        insert_point(&mut marks, beside);
                        proof {
                            let vs = self.robots@[i as int].vect@;
                            let fresh = State::shifted(vs[k as int], tx, ty);
                            assert(fresh == beside);
                            assert forall|q: Pos| #[trigger] marks@.contains(q) <==> listed.contains(q)
                                || exists|z: int|
                                0 <= z < k + 1 && q == State::shifted(#[trigger] vs[z], tx, ty) by {
                                let old_way = exists|z: int|
                                    0 <= z < k && q == State::shifted(#[trigger] vs[z], tx, ty);
                                let new_way = exists|z: int|
                                    0 <= z < k + 1 && q == State::shifted(#[trigger] vs[z], tx, ty);
                                assert(had.contains(q) <==> listed.contains(q) || old_way);
                                assert(marks@.contains(q) <==> had.contains(q) || q == fresh);
                                if old_way {
                                    let z = choose|z: int|
                                        0 <= z < k && q == State::shifted(#[trigger] vs[z], tx, ty);
                                    assert(0 <= z < k + 1 && q == State::shifted(vs[z], tx, ty));
                                    assert(new_way);
                                }
                                if q == fresh {
                                    assert(0 <= k < k + 1 && q == State::shifted(vs[k as int], tx, ty));
                                    assert(new_way);
                                }
                                if new_way {
                                    let z = choose|z: int|
                                        0 <= z < k + 1 && q == State::shifted(
                                            #[trigger] vs[z],
                                            tx,
                                            ty,
                                        );
                                    if z < k {
                                        assert(0 <= z < k && q == State::shifted(vs[z], tx, ty));
                                        assert(old_way);
                                    } else {
                                        assert(q == fresh);
                                    }
                                }
                            }
                        }
                        k = k + 1;
                    }
                    proof {
                        self.lemma_swept_hit(old(self), &before, i as int, x as int, y as int, j as int,
                            tx as int, ty as int);
                        old(self).lemma_marks_hit(i as int, x as int, y as int, j as int, tx, ty,
                            listed, marks@);
                    }
                }
            }
            proof {
                if !hit {
                    self.lemma_swept_miss(old(self), i as int, x as int, y as int, j as int);
                    old(self).lemma_marks_miss(i as int, x as int, y as int, j as int, marks@);
                }
            }
            j = j + 1;
        }
        marks
    }

    /// The position one step by `v` from `(tx, ty)`.
    pub open spec fn shifted(v: Pos, tx: i64, ty: i64) -> Pos {
        ((v.0 + tx) as i64, (v.1 + ty) as i64)
    }

    /// A manipulator that reaches no cell adds no cell to those beside the
    /// cells that the robot paints.
    proof fn lemma_marks_miss(&self, i: int, x: int, y: int, j: int, marks: Seq<Pos>)
        requires
            0 <= j,
            forall|cx: int, cy: int| !self.hit_by(i, x, y, j, cx, cy),
            forall|q: Pos|
                #[trigger] marks.contains(q) <==> self.marks_upto(i, x, y, j, crate::region::pt(q)),
        ensures
            forall|q: Pos|
                #[trigger] marks.contains(q) <==> self.marks_upto(i, x, y, j + 1, crate::region::pt(q)),
    {
        let vs = self.robots@[i].vect@;
        assert forall|q: Pos|
            self.marks_upto(i, x, y, j + 1, crate::region::pt(q)) == self.marks_upto(
                i,
                x,
                y,
                j,
                crate::region::pt(q),
            ) by {
            let p = crate::region::pt(q);
            if self.marks_upto(i, x, y, j + 1, p) {
                let (m, k) = choose|m: int, k: int|
                    0 <= m < j + 1 && 0 <= k < 4 && #[trigger] self.hit_by(
                        i,
                        x,
                        y,
                        m,
                        p.0 - vs[k].0,
                        p.1 - vs[k].1,
                    );
                assert(m < j);
            }
            if self.marks_upto(i, x, y, j, p) {
                let (m, k) = choose|m: int, k: int|
                    0 <= m < j && 0 <= k < 4 && #[trigger] self.hit_by(
                        i,
                        x,
                        y,
                        m,
                        p.0 - vs[k].0,
                        p.1 - vs[k].1,
                    );
                assert(0 <= m < j + 1 && 0 <= k < 4 && self.hit_by(
                    i,
                    x,
                    y,
                    m,
                    p.0 - vs[k].0,
                    p.1 - vs[k].1,
                ));
            }
        }
    }

    /// A manipulator that reaches the cell `(tx, ty)` adds the four cells
    /// around it to those beside the cells that the robot paints.
    proof fn lemma_marks_hit(
        &self,
        i: int,
        x: int,
        y: int,
        j: int,
        tx: i64,
        ty: i64,
        listed: Seq<Pos>,
        marks: Seq<Pos>,
    )
        requires
            0 <= j,
            self.robots@[i].vect@.len() == 4,
            forall|z: int| 0 <= z < 4 ==> crate::state::unit(#[trigger] self.robots@[i].vect@[z]),
            0 <= tx <= crate::board::MAX_SIDE,
            0 <= ty <= crate::board::MAX_SIDE,
            self.hit_by(i, x, y, j, tx as int, ty as int),
            forall|q: Pos|
                #[trigger] listed.contains(q) <==> self.marks_upto(i, x, y, j, crate::region::pt(q)),
            forall|q: Pos|
                #[trigger] marks.contains(q) <==> listed.contains(q) || exists|z: int|
                    0 <= z < 4 && q == State::shifted(#[trigger] self.robots@[i].vect@[z], tx, ty),
        ensures
            forall|q: Pos|
                #[trigger] marks.contains(q) <==> self.marks_upto(i, x, y, j + 1, crate::region::pt(q)),
    {
        let vs = self.robots@[i].vect@;
        assert forall|q: Pos|
            #[trigger] marks.contains(q) <==> self.marks_upto(i, x, y, j + 1, crate::region::pt(q)) by {
            let p = crate::region::pt(q);
            if listed.contains(q) {
                let (m, k) = choose|m: int, k: int|
                    0 <= m < j && 0 <= k < 4 && #[trigger] self.hit_by(
                        i,
                        x,
                        y,
                        m,
                        p.0 - vs[k].0,
                        p.1 - vs[k].1,
                    );
                assert(0 <= m < j + 1 && 0 <= k < 4 && self.hit_by(
                    i,
                    x,
                    y,
                    m,
                    p.0 - vs[k].0,
                    p.1 - vs[k].1,
                ));
            }
            if exists|z: int| 0 <= z < 4 && q == State::shifted(#[trigger] vs[z], tx, ty) {
                let z = choose|z: int| 0 <= z < 4 && q == State::shifted(#[trigger] vs[z], tx, ty);
                assert(crate::state::unit(vs[z]));
                assert(0 <= j < j + 1 && 0 <= z < 4 && self.hit_by(
                    i,
                    x,
                    y,
                    j,
                    p.0 - vs[z].0,
                    p.1 - vs[z].1,
                ));
            }
            if self.marks_upto(i, x, y, j + 1, p) {
                let (m, k) = choose|m: int, k: int|
                    0 <= m < j + 1 && 0 <= k < 4 && #[trigger] self.hit_by(
                        i,
                        x,
                        y,
                        m,
                        p.0 - vs[k].0,
                        p.1 - vs[k].1,
                    );
                if m < j {
                    assert(self.marks_upto(i, x, y, j, p));
                } else {
                    assert(crate::state::unit(vs[k]));
                    assert(q == State::shifted(vs[k], tx, ty));
                }
            }
        }
    }

    /// A manipulator that reaches no cell leaves everything as it is.
    proof fn lemma_swept_miss(&self, pre: &State, i: int, x: int, y: int, j: int)
        requires
            pre.wf(),
            0 <= i < pre.robots@.len(),
            0 <= j < pre.robots@[i].manips@.len(),
            self.swept_upto(pre, i, x, y, j),
            forall|cx: int, cy: int| !pre.hit_by(i, x, y, j, cx, cy),
        ensures
            self.swept_upto(pre, i, x, y, j + 1),
    {
        assert forall|cx: int, cy: int|
            pre.hits_upto(i, x, y, j + 1, cx, cy) == pre.hits_upto(i, x, y, j, cx, cy) by {
            if pre.hits_upto(i, x, y, j + 1, cx, cy) {
                let m = choose|m: int| 0 <= m < j + 1 && #[trigger] pre.hit_by(i, x, y, m, cx, cy);
                assert(m < j);
            }
            if pre.hits_upto(i, x, y, j, cx, cy) {
                let m = choose|m: int| 0 <= m < j && #[trigger] pre.hit_by(i, x, y, m, cx, cy);
                assert(0 <= m < j + 1 && pre.hit_by(i, x, y, m, cx, cy));
            }
        }
        assert(pre.fresh_upto(i, x, y, j + 1) =~= pre.fresh_upto(i, x, y, j));
    }

    /// A manipulator that reaches the cell `(tx, ty)` paints that cell and
    /// releases it; the count of cells to paint goes down if the cell was not
    /// painted.
    proof fn lemma_swept_hit(
        &self,
        pre: &State,
        mid: &State,
        i: int,
        x: int,
        y: int,
        j: int,
        tx: int,
        ty: int,
    )
        requires
            pre.wf(),
            0 <= i < pre.robots@.len(),
            0 <= j < pre.robots@[i].manips@.len(),
            mid.swept_upto(pre, i, x, y, j),
            pre.hit_by(i, x, y, j, tx, ty),
            self.bd.same_size(&pre.bd),
            self.same_stores(pre),
            self.same_robots_but_prios(pre),
            self.record_grown(pre),
            self.rest == (if mid.bd.at(tx, ty).painted() {
                mid.rest as int
            } else {
                minus(mid.rest as int, 1)
            }),
            forall|cx: int, cy: int|
                pre.bd.has(cx, cy) && (cx != tx || cy != ty) ==> #[trigger] self.bd.at(cx, cy)
                    == mid.bd.at(cx, cy),
            self.bd.at(tx, ty).wall() == mid.bd.at(tx, ty).wall(),
            self.bd.at(tx, ty).portal() == mid.bd.at(tx, ty).portal(),
            self.bd.at(tx, ty).item_code() == mid.bd.at(tx, ty).item_code(),
            self.bd.at(tx, ty).painted(),
            self.bd.at(tx, ty).owner_code() == 0,
            self.bd.at(tx, ty) == mid.bd.at(tx, ty).swept(),
            self.diff.bd@ == (if mid.bd.at(tx, ty).painted() {
                mid.diff.bd@
            } else {
                mid.diff.bd@.push((tx as usize, ty as usize, mid.bd.at(tx, ty)))
            }),
        ensures
            self.swept_upto(pre, i, x, y, j + 1),
    {
        let d = pre.robots@[i].manips@[j];
        assert(tx == x + d.0 && ty == y + d.1);
        if mid.bd.at(tx, ty).painted() {
            assert(pre.bd.at(tx, ty).painted() || pre.hits_upto(i, x, y, j, tx, ty));
        } else {
            assert(!pre.hits_upto(i, x, y, j, tx, ty));
            assert(mid.bd.at(tx, ty) == pre.bd.at(tx, ty));
            assert((pre.diff.bd@ + pre.sweep_records(i, x, y, j)).push(
                (tx as usize, ty as usize, pre.bd.at(tx, ty)),
            ) =~= pre.diff.bd@ + pre.sweep_records(i, x, y, j).push(
                (tx as usize, ty as usize, pre.bd.at(tx, ty)),
            ));
        }
        assert(self.diff.bd@ == pre.diff.bd@ + pre.sweep_records(i, x, y, j + 1));
        assert forall|cx: int, cy: int|
            pre.hits_upto(i, x, y, j + 1, cx, cy) == (pre.hits_upto(i, x, y, j, cx, cy) || (cx
                == tx && cy == ty)) by {
            if pre.hits_upto(i, x, y, j + 1, cx, cy) {
                let m = choose|m: int| 0 <= m < j + 1 && #[trigger] pre.hit_by(i, x, y, m, cx, cy);
                if m < j {
                    assert(pre.hits_upto(i, x, y, j, cx, cy));
                }
            }
            if pre.hits_upto(i, x, y, j, cx, cy) {
                let m = choose|m: int| 0 <= m < j && #[trigger] pre.hit_by(i, x, y, m, cx, cy);
                assert(0 <= m < j + 1 && pre.hit_by(i, x, y, m, cx, cy));
            }
            if cx == tx && cy == ty {
                assert(0 <= j < j + 1 && pre.hit_by(i, x, y, j, cx, cy));
            }
        }
        let old_set = pre.fresh_upto(i, x, y, j);
        let new_set = pre.fresh_upto(i, x, y, j + 1);
        if mid.bd.at(tx, ty).painted() {
            assert(new_set =~= old_set);
        } else {
            assert(!pre.bd.at(tx, ty).painted());
            assert(!pre.hits_upto(i, x, y, j, tx, ty));
            assert(!old_set.contains((tx, ty)));
            assert(new_set =~= old_set.insert((tx, ty)));
        }
        assert forall|cx: int, cy: int| pre.bd.has(cx, cy) implies ({
            let a = pre.bd.at(cx, cy);
            let b = #[trigger] self.bd.at(cx, cy);
            &&& b.wall() == a.wall()
            &&& b.portal() == a.portal()
            &&& b.item_code() == a.item_code()
            &&& b.painted() == (a.painted() || pre.hits_upto(i, x, y, j + 1, cx, cy))
            &&& b.owner_code() == (if pre.hits_upto(i, x, y, j + 1, cx, cy) {
                0
            } else {
                a.owner_code()
            })
            &&& b == (if pre.hits_upto(i, x, y, j + 1, cx, cy) {
                a.swept()
            } else {
                a
            })
        }) by {
            if cx == tx && cy == ty && pre.hits_upto(i, x, y, j, tx, ty) {
                let v = pre.bd.at(tx, ty).0;
                assert((((v | 2u16) & 0x00ffu16) | 2u16) & 0x00ffu16 == (v | 2u16) & 0x00ffu16)
                    by (bit_vector);
            }
            if cx != tx || cy != ty {
                assert(self.bd.at(cx, cy) == mid.bd.at(cx, cy));
            }
            let a = pre.bd.at(cx, cy);
            let m = mid.bd.at(cx, cy);
            assert(m.painted() == (a.painted() || pre.hits_upto(i, x, y, j, cx, cy)));
        }
    }

    /// Whether every reservation that differs from `pre` lies on a cell that
    /// was free or reserved for robot `i`, and that is free or reserved for
    /// robot `i` now: the cells reserved for the other robots are as they were.
    pub open spec fn others_kept(&self, pre: &State, i: int) -> bool {
        forall|cx: int, cy: int|
            pre.bd.has(cx, cy) ==> {
                let a = pre.bd.at(cx, cy).owner_code();
                let b = (#[trigger] self.bd.at(cx, cy)).owner_code();
                b == a || ((a == 0 || a == i + 1) && (b == 0 || b == i + 1))
            }
    }

    /// Whether the state is `pre` with nothing changed but reservations of
    /// robot `i`, the robots' counts of them and the record of changes.
    pub open spec fn reserved_only(&self, pre: &State, i: int) -> bool {
        &&& self.layers_kept(pre)
        &&& self.others_kept(pre, i)
        &&& self.same_stores(pre)
        &&& self.same_robots_but_prios(pre)
        &&& self.rest == pre.rest
        &&& self.record_grown(pre)
    }

    /// A flood fill changes reservations only.
    pub proof fn lemma_flooded_reserved_only(
        &self,
        pre: &State,
        x: int,
        y: int,
        i: int,
        claim: bool,
        diff: bool,
        acc: int,
        th: int,
        r: int,
    )
        requires
            self.flooded(pre, x, y, i, claim, diff, acc, th, r),
        ensures
            self.reserved_only(pre, i),
    {
        assert forall|cx: int, cy: int| pre.bd.has(cx, cy) implies (#[trigger] self.bd.at(
            cx,
            cy,
        )).same_but_owner(pre.bd.at(cx, cy)) by {}
        let e = pre.fill_cells(i, claim);
        assert forall|cx: int, cy: int| pre.bd.has(cx, cy) implies ({
            let a = pre.bd.at(cx, cy).owner_code();
            let b = (#[trigger] self.bd.at(cx, cy)).owner_code();
            b == a || ((a == 0 || a == i + 1) && (b == 0 || b == i + 1))
        }) by {
            if self.bd.at(cx, cy) != pre.bd.at(cx, cy) {
                let n = choose|n: nat| walk(e, (x, y), (cx, cy), n);
                lemma_walk_ends(e, (x, y), (cx, cy), n);
            }
        }
        if !diff {
            assert(self.diff.bd@.take(pre.diff.bd@.len() as int) =~= pre.diff.bd@);
        }
    }

    /// Changes of reservations only, one after the other, are such a change.
    pub proof fn lemma_reserved_only_chain(&self, mid: &State, pre: &State, i: int)
        requires
            mid.reserved_only(pre, i),
            self.reserved_only(mid, i),
        ensures
            self.reserved_only(pre, i),
    {
        assert forall|cx: int, cy: int| pre.bd.has(cx, cy) implies ({
            let a = pre.bd.at(cx, cy).owner_code();
            let b = (#[trigger] self.bd.at(cx, cy)).owner_code();
            b == a || ((a == 0 || a == i + 1) && (b == 0 || b == i + 1))
        }) by {
            let m = mid.bd.at(cx, cy).owner_code();
        }
        assert forall|cx: int, cy: int| pre.bd.has(cx, cy) implies (#[trigger] self.bd.at(
            cx,
            cy,
        )).same_but_owner(pre.bd.at(cx, cy)) by {
            assert(mid.bd.at(cx, cy).same_but_owner(pre.bd.at(cx, cy)));
        }
        assert forall|j: int| 0 <= j < self.robots@.len() implies (
        #[trigger] self.robots@[j]).same_but_prios(&pre.robots@[j]) by {
            assert(mid.robots@[j].same_but_prios(&pre.robots@[j]));
        }
        assert(self.diff.bd@.take(pre.diff.bd@.len() as int) =~= mid.diff.bd@.take(
            pre.diff.bd@.len() as int,
        ));
    }

    /// Looks at each of the listed cells that lies free on the board: where the
    /// region of free cells around it is smaller than the island threshold, the
    /// region is reserved for robot `i`.
    fn mark_islands(&mut self, marks: &Vec<Pos>, i: usize)
        requires
            old(self).wf(),
            i < old(self).robots@.len(),
        ensures
            final(self).wf(),
            final(self).reserved_only(old(self), i as int),
            final(self).marked(old(self), marks@, i as int),
    {
        let n: usize = marks.len();
        let total: usize = self.bd.cells.len();
        let mut k: usize = 0;
        proof {
            assert(self.diff.bd@.take(self.diff.bd@.len() as int) =~= self.diff.bd@);
        }
        while k < n
            invariant
                old(self).wf(),
                i < old(self).robots@.len(),
                n == marks@.len(),
                k <= n,
                total == old(self).bd.cells@.len(),
                self.wf(),
                self.reserved_only(old(self), i as int),
                self.marked(old(self), marks@.take(k as int), i as int),
            decreases n - k,
        {
            let p: Pos = marks[k];
            let ghost seen: State = *self;
            proof {
                let next = marks@.take(k + 1);
                assert(next.drop_last() =~= marks@.take(k as int));
                assert(next.last() == p);
            }
            if self.bd.contains(p.0, p.1) {
                if self.bd.get(p.0, p.1).prio().is_none() {
                    let th: usize = self.island_size_threshold;
                    let ghost s0: State = *self;
                    let size: usize = self.paint(p.0, p.1, i, true, false, 0, th);
                    let ghost s1: State = *self;
                    self.paint(p.0, p.1, i, false, false, 0, th);
                    let ghost s2: State = *self;
                    proof {
                        s1.lemma_flooded_reserved_only(&s0, p.0 as int, p.1 as int, i as int, true,
                            false, 0, th as int, size as int);
                        s1.lemma_reserved_only_chain(&s0, old(self), i as int);
                    }
                    if size < th {
                        self.paint(p.0, p.1, i, true, true, 0, th);
                    }
                    proof {
                        let r2 = choose|r2: int|
                            s2.flooded(&s1, p.0 as int, p.1 as int, i as int, false, false, 0,
                                th as int, r2);
                        s2.lemma_flooded_reserved_only(&s1, p.0 as int, p.1 as int, i as int, false,
                            false, 0, th as int, r2);
                        s2.lemma_reserved_only_chain(&s1, old(self), i as int);
                        if size < th {
                            let r3 = choose|r3: int|
                                self.flooded(&s2, p.0 as int, p.1 as int, i as int, true, true, 0,
                                    th as int, r3);
                            self.lemma_flooded_reserved_only(&s2, p.0 as int, p.1 as int, i as int,
                                true, true, 0, th as int, r3);
                            self.lemma_reserved_only_chain(&s2, old(self), i as int);
                        }
                        assert(s1.flooded(&s0, p.0 as int, p.1 as int, i as int, true, false, 0,
                            th as int, size as int));
                        assert(s2.flooded(&s1, p.0 as int, p.1 as int, i as int, false, false, 0,
                            th as int, r2));
                        assert(self.probed(&seen, p, i as int));
                    }
                }
            }
            proof {
                assert(self.probed(&seen, p, i as int));
            }
            k = k + 1;
        }
        proof {
            assert(marks@.take(n as int) =~= marks@);
        }
    }

    /// What a move of robot `i` to `(x, y)` makes of the robots, of the
    /// stores and of each cell of the board, as against the state `pre`.
    ///
    /// The robot stands at `(x, y)`; nothing else of the robots changes but
    /// their counts of reserved cells. Every cell that the robot paints from
    /// there is painted and reserved for nobody; walls, portals and items are as
    /// they were and no other cell is painted. Without the search for islands
    /// every other cell is as it was; with it, a reservation differs only on a
    /// cell that was free or reserved for this robot, and that is free or
    /// reserved for this robot now. The count of cells to paint went down by the
    /// number of cells that were not painted before, but not below zero, and the
    /// record of changes has grown: without the search for islands by the
    /// records of the cells that were painted.
    pub open spec fn swept(&self, pre: &State, i: int, x: int, y: int, detect_island: bool) -> bool {
        &&& self.bd.same_size(&pre.bd)
        &&& self.same_stores(pre)
        &&& self.robots@.len() == pre.robots@.len()
        &&& forall|j: int|
            0 <= j < pre.robots@.len() && j != i ==> (#[trigger] self.robots@[j]).same_but_prios(
                &pre.robots@[j],
            )
        &&& self.robots@[i].x == x
        &&& self.robots@[i].y == y
        &&& self.robots@[i].manips == pre.robots@[i].manips
        &&& self.robots@[i].num_collected_portal == pre.robots@[i].num_collected_portal
        &&& self.robots@[i].drill_time == pre.robots@[i].drill_time
        &&& self.robots@[i].queue == pre.robots@[i].queue
        &&& self.robots@[i].vect == pre.robots@[i].vect
        &&& self.robots@[i].fast_count == pre.robots@[i].fast_count
        &&& self.robots@[i].target == pre.robots@[i].target
        &&& self.robots@[i].finished == pre.robots@[i].finished
        &&& forall|cx: int, cy: int|
            pre.bd.has(cx, cy) ==> {
                let a = pre.bd.at(cx, cy);
                let b = #[trigger] self.bd.at(cx, cy);
                &&& b.wall() == a.wall()
                &&& b.portal() == a.portal()
                &&& b.item_code() == a.item_code()
                &&& b.painted() == (a.painted() || pre.hits(i, x, y, cx, cy))
                &&& pre.hits(i, x, y, cx, cy) ==> b.owner_code() == 0
                &&& !pre.hits(i, x, y, cx, cy) ==> b.owner_code() == a.owner_code() || (detect_island
                    && (a.owner_code() == 0 || a.owner_code() == i + 1) && (b.owner_code() == 0
                    || b.owner_code() == i + 1))
                &&& !detect_island ==> b == (if pre.hits(i, x, y, cx, cy) {
                    a.swept()
                } else {
                    a
                })
            }
        &&& pre.fresh_cells(i, x, y).finite()
        &&& self.rest == minus(pre.rest as int, pre.fresh_cells(i, x, y).len() as int)
        &&& self.record_grown(pre)
        &&& !detect_island ==> self.diff.bd@ == pre.diff.bd@ + pre.sweep_records(
            i,
            x,
            y,
            pre.robots@[i].manips@.len() as int,
        )
    }

    /// What a move of robot `i` to `(x, y)` makes of the state `pre`.
    ///
    /// The robot paints what it reaches from there and stands there, as
    /// `swept` says. With the search for islands the cells beside those it
    /// painted are then looked at, in rising order, as `marked` says.
    pub open spec fn moved(&self, pre: &State, i: int, x: int, y: int, detect_island: bool) -> bool {
        &&& self.swept(pre, i, x, y, detect_island)
        &&& detect_island ==> exists|mid: State, marks: Seq<Pos>|
            #![trigger self.marked(&mid, marks, i)]
            {
                &&& mid.swept(pre, i, x, y, false)
                &&& pre.marks_are(i, x, y, marks)
                &&& self.marked(&mid, marks, i)
            }
    }

    /// Moves robot `i` to `(x, y)` and paints every cell that it reaches from
    /// there: each cell at the offset of one of its manipulators that lies on the
    /// board and in sight. With `detect_island` the free cells next to those it
    /// reached are then looked at, and a region of free cells that is smaller
    /// than the island threshold is reserved for the robot.
    pub fn move_to(&mut self, x: i64, y: i64, i: usize, detect_island: bool)
        requires
            old(self).wf(),
            i < old(self).robots@.len(),
            old(self).bd.has(x as int, y as int),
        ensures
            final(self).wf(),
            final(self).moved(old(self), i as int, x as int, y as int, detect_island),
    {
        let marks: Vec<Pos> = self.sweep(x, y, i);
        let ghost s1: State = *self;
        self.robots[i].x = x;
        self.robots[i].y = y;
        let ghost s2: State = *self;
        proof {
            assert forall|j: int| 0 <= j < self.robots@.len() implies (
            #[trigger] self.robots@[j]).wf(&self.bd) && self.robots@[j].prios
                == self.bd.reserved(j) by {
                assert(s1.robots@[j].wf(&s1.bd));
            }
            assert(self.wf());
            let n = old(self).robots@[i as int].manips@.len() as int;
            assert(s1.swept_upto(old(self), i as int, x as int, y as int, n));
            assert forall|j: int| 0 <= j < old(self).robots@.len() && j != i implies (
            #[trigger] s2.robots@[j]).same_but_prios(&old(self).robots@[j]) by {
                assert(s1.robots@[j].same_but_prios(&old(self).robots@[j]));
                assert(s2.robots@[j] == s1.robots@[j]);
            }
            assert(s1.robots@[i as int].same_but_prios(&old(self).robots@[i as int]));
            assert forall|cx: int, cy: int| old(self).bd.has(cx, cy) implies ({
                let a = old(self).bd.at(cx, cy);
                let b = #[trigger] s2.bd.at(cx, cy);
                &&& b.wall() == a.wall()
                &&& b.portal() == a.portal()
                &&& b.item_code() == a.item_code()
                &&& b.painted() == (a.painted() || old(self).hits(
                    i as int,
                    x as int,
                    y as int,
                    cx,
                    cy,
                ))
                &&& old(self).hits(i as int, x as int, y as int, cx, cy) ==> b.owner_code() == 0
                &&& b == (if old(self).hits(i as int, x as int, y as int, cx, cy) {
                    a.swept()
                } else {
                    a
                })
            }) by {
                assert(s2.bd.at(cx, cy) == s1.bd.at(cx, cy));
            }
            assert(s2.swept(old(self), i as int, x as int, y as int, false));
        }
        if detect_island {
            self.mark_islands(&marks, i);
            proof {
                assert forall|cx: int, cy: int| old(self).bd.has(cx, cy) implies ({
                    let a = old(self).bd.at(cx, cy);
                    let b = #[trigger] self.bd.at(cx, cy);
                    &&& b.wall() == a.wall()
                    &&& b.portal() == a.portal()
                    &&& b.item_code() == a.item_code()
                    &&& b.painted() == (a.painted() || old(self).hits(
                        i as int,
                        x as int,
                        y as int,
                        cx,
                        cy,
                    ))
                    &&& old(self).hits(i as int, x as int, y as int, cx, cy) ==> b.owner_code() == 0
                    &&& !old(self).hits(i as int, x as int, y as int, cx, cy) ==> b.owner_code()
                        == a.owner_code() || ((a.owner_code() == 0 || a.owner_code() == i + 1) && (
                    b.owner_code() == 0 || b.owner_code() == i + 1))
                }) by {
                    assert(self.bd.at(cx, cy).same_but_owner(s2.bd.at(cx, cy)));
                    let m = s2.bd.at(cx, cy);
                    let k = flat(self.bd.w as int, cx, cy);
                    lemma_flat(self.bd.w as int, self.bd.h as int, cx, cy);
                    assert(self.bd.at(cx, cy) == self.bd.cells@[k]);
                }
                assert forall|j: int| 0 <= j < old(self).robots@.len() && j != i implies (
                #[trigger] self.robots@[j]).same_but_prios(&old(self).robots@[j]) by {
                    assert(s2.robots@[j].same_but_prios(&old(self).robots@[j]));
                    assert(self.robots@[j].same_but_prios(&s2.robots@[j]));
                }
                assert(self.robots@[i as int].same_but_prios(&s2.robots@[i as int]));
                assert(self.diff.bd@.take(old(self).diff.bd@.len() as int) =~= s2.diff.bd@.take(
                    old(self).diff.bd@.len() as int,
                ));
                assert(self.swept(old(self), i as int, x as int, y as int, true));
                assert(self.marked(&s2, marks@, i as int));
            }
        }
    }

    /// The offset `d` after a quarter turn, clockwise where `dir` is set.
    pub open spec fn turned_offset(d: Pos, dir: bool) -> (int, int) {
        if dir {
            (d.1 as int, -d.0)
        } else {
            (-d.1, d.0 as int)
        }
    }

    /// Whether the state is `pre` with the manipulators of robot `i` turned by
    /// a quarter, clockwise where `dir` is set.
    pub open spec fn turned(&self, pre: &State, i: int, dir: bool) -> bool {
        &&& self.bd == pre.bd
        &&& self.same_stores(pre)
        &&& self.rest == pre.rest
        &&& self.diff == pre.diff
        &&& self.robots@.len() == pre.robots@.len()
        &&& forall|j: int|
            0 <= j < pre.robots@.len() && j != i ==> #[trigger] self.robots@[j] == pre.robots@[j]
        &&& self.robots@[i].same_but_prios(&State::with_manips(pre.robots@[i], self.robots@[i].manips))
        &&& self.robots@[i].prios == pre.robots@[i].prios
        &&& self.robots@[i].manips@.len() == pre.robots@[i].manips@.len()
        &&& forall|m: int|
            0 <= m < pre.robots@[i].manips@.len() ==> crate::region::pt(
                #[trigger] self.robots@[i].manips@[m],
            ) == State::turned_offset(pre.robots@[i].manips@[m], dir)
    }

    /// The robot `r` with other manipulators.
    pub open spec fn with_manips(r: crate::state::RobotState, manips: Vec<Pos>) -> crate::state::RobotState {
        crate::state::RobotState { manips: manips, ..r }
    }

    /// Turns the manipulators of robot `i` by a quarter, clockwise where `dir`
    /// is set, and lets the robot paint from where it stands.
    pub fn rotate(&mut self, dir: bool, i: usize)
        requires
            old(self).wf(),
            i < old(self).robots@.len(),
        ensures
            final(self).wf(),
            exists|mid: State|
                #[trigger] mid.turned(old(self), i as int, dir) && final(self).moved(
                    &mid,
                    i as int,
                    old(self).robots@[i as int].x as int,
                    old(self).robots@[i as int].y as int,
                    true,
                ),
    {
        let n: usize = self.robots[i].manips.len();
        let mut m: usize = 0;
        while m < n
            invariant
                old(self).wf(),
                i < old(self).robots@.len(),
                m <= n,
                n == old(self).robots@[i as int].manips@.len(),
                self.bd == old(self).bd,
                self.same_stores(old(self)),
                self.rest == old(self).rest,
                self.diff == old(self).diff,
                self.robots@.len() == old(self).robots@.len(),
                forall|j: int|
                    0 <= j < self.robots@.len() && j != i ==> #[trigger] self.robots@[j] == old(
                        self,
                    ).robots@[j],
                self.robots@[i as int].same_but_prios(
                    &State::with_manips(old(self).robots@[i as int], self.robots@[i as int].manips),
                ),
                self.robots@[i as int].prios == old(self).robots@[i as int].prios,
                self.robots@[i as int].manips@.len() == n,
                forall|q: int|
                    0 <= q < m ==> crate::region::pt(#[trigger] self.robots@[i as int].manips@[q])
                        == State::turned_offset(old(self).robots@[i as int].manips@[q], dir),
                forall|q: int|
                    m <= q < n ==> #[trigger] self.robots@[i as int].manips@[q] == old(
                        self,
                    ).robots@[i as int].manips@[q],
            decreases n - m,
        {
            let d: Pos = self.robots[i].manips[m];
            assert(d == old(self).robots@[i as int].manips@[m as int]);
            let t: Pos = if dir {
                (d.1, -d.0)
            } else {
                (-d.1, d.0)
            };
            self.robots[i].manips[m] = t;
            m = m + 1;
        }
        let ghost mid: State = *self;
        proof {
            assert forall|j: int| 0 <= j < self.robots@.len() implies (
            #[trigger] self.robots@[j]).wf(&self.bd) && self.robots@[j].prios
                == self.bd.reserved(j) by {
                assert(old(self).robots@[j].wf(&old(self).bd));
                if j == i {
                    assert forall|q: int| 0 <= q < self.robots@[j].manips@.len() implies -crate::state::REACH
                        <= (#[trigger] self.robots@[j].manips@[q]).0 <= crate::state::REACH
                        && -crate::state::REACH <= self.robots@[j].manips@[q].1
                        <= crate::state::REACH by {
                        let o = old(self).robots@[j].manips@[q];
                        assert(crate::region::pt(self.robots@[j].manips@[q])
                            == State::turned_offset(o, dir));
                    }
                    let a = choose|a: int|
                        0 <= a < old(self).robots@[j].manips@.len() && crate::state::unit(
                            #[trigger] old(self).robots@[j].manips@[a],
                        );
                    assert(crate::region::pt(self.robots@[j].manips@[a]) == State::turned_offset(
                        old(self).robots@[j].manips@[a],
                        dir,
                    ));
                    assert(crate::state::unit(self.robots@[j].manips@[a]));
                }
            }
            assert(self.wf());
            assert(mid.turned(old(self), i as int, dir));
        }
        let x: i64 = self.robots[i].x;
        let y: i64 = self.robots[i].y;
        self.move_to(x, y, i, true);
    }
}

} // verus!
