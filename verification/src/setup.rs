use crate::board::{Board, Pos};
use crate::cell::{
    booster2u16, is_booster_letter, Booster, Cell, ITEM_CLONE, ITEM_FACTORY, ITEM_PORTAL,
    MAX_OWNER,
};
use crate::state::{count_owner, is_order, unit, Diff, RobotState, State};
use vstd::prelude::*;
use vstd::string::*;

verus! {

/// The order in which each robot's searches try the four directions, robot by
/// robot: with `diversified` the fourteen orders that spread cloned robots
/// out, without it the eight orders that keep them in pairs.
pub open spec fn order_table(diversified: bool) -> Seq<Seq<(int, int)>> {
    if diversified {
        seq![
            seq![(-1, 0), (0, 1), (1, 0), (0, -1)],
            seq![(1, 0), (0, 1), (-1, 0), (0, -1)],
            seq![(-1, 0), (0, 1), (0, -1), (1, 0)],
            seq![(1, 0), (-1, 0), (0, 1), (0, -1)],
            seq![(-1, 0), (1, 0), (0, 1), (0, -1)],
            seq![(1, 0), (0, -1), (0, 1), (-1, 0)],
            seq![(-1, 0), (0, 1), (1, 0), (0, -1)],
            seq![(0, -1), (1, 0), (0, 1), (-1, 0)],
            seq![(1, 0), (0, -1), (-1, 0), (0, 1)],
            seq![(0, 1), (-1, 0), (0, -1), (1, 0)],
            seq![(-1, 0), (0, -1), (1, 0), (0, 1)],
            seq![(0, 1), (1, 0), (0, -1), (-1, 0)],
            seq![(1, 0), (0, 1), (-1, 0), (0, -1)],
            seq![(0, -1), (1, 0), (0, 1), (-1, 0)],
        ]
    } else {
        seq![
            seq![(-1, 0), (0, -1), (0, 1), (1, 0)],
            seq![(1, 0), (0, 1), (0, -1), (-1, 0)],
            seq![(-1, 0), (0, 1), (0, -1), (1, 0)],
            seq![(1, 0), (0, -1), (0, 1), (-1, 0)],
            seq![(-1, 0), (1, 0), (0, 1), (0, -1)],
            seq![(1, 0), (-1, 0), (0, -1), (0, 1)],
            seq![(-1, 0), (0, -1), (1, 0), (0, 1)],
            seq![(1, 0), (0, 1), (-1, 0), (0, -1)],
        ]
    }
}

/// Whether the table holds the orders of `order_table(diversified)`.
pub open spec fn is_order_table(t: Seq<Vec<Pos>>, diversified: bool) -> bool {
    &&& t.len() == order_table(diversified).len()
    &&& forall|r: int|
        0 <= r < t.len() ==> (#[trigger] t[r])@.len() == 4 && forall|k: int|
            0 <= k < 4 ==> crate::region::pt(#[trigger] t[r]@[k]) == order_table(diversified)[r][k]
}

/// One direction order.
fn order(a: Pos, b: Pos, c: Pos, d: Pos) -> (v: Vec<Pos>)
    ensures
        v@ == seq![a, b, c, d],
{
    let mut v: Vec<Pos> = Vec::new();
    v.push(a);
    v.push(b);
    v.push(c);
    v.push(d);
    assert(v@ =~= seq![a, b, c, d]);
    v
}

/// The direction orders that the robots get in turn.
pub fn direction_table(diversified: bool) -> (t: Vec<Vec<Pos>>)
    ensures
        is_order_table(t@, diversified),
        t@.len() >= 1,
        forall|r: int| 0 <= r < t@.len() ==> is_order((#[trigger] t@[r])@),
{
    let l: Pos = (-1, 0);
    let r: Pos = (1, 0);
    let u: Pos = (0, 1);
    let d: Pos = (0, -1);
    let mut t: Vec<Vec<Pos>> = Vec::new();
    if diversified {
        t.push(order(l, u, r, d));
        t.push(order(r, u, l, d));
        t.push(order(l, u, d, r));
        t.push(order(r, l, u, d));
        t.push(order(l, r, u, d));
        t.push(order(r, d, u, l));
        t.push(order(l, u, r, d));
        t.push(order(d, r, u, l));
        t.push(order(r, d, l, u));
        t.push(order(u, l, d, r));
        t.push(order(l, d, r, u));
        t.push(order(u, r, d, l));
        t.push(order(r, u, l, d));
        t.push(order(d, r, u, l));
    } else {
        t.push(order(l, d, u, r));
        t.push(order(r, u, d, l));
        t.push(order(l, u, d, r));
        t.push(order(r, d, u, l));
        t.push(order(l, r, u, d));
        t.push(order(r, l, d, u));
        t.push(order(l, d, r, u));
        t.push(order(r, u, l, d));
    }
    t
}

/// A copy of the list.
pub fn copy_points(v: &Vec<Pos>) -> (r: Vec<Pos>)
    ensures
        r@ == v@,
{
    let mut r: Vec<Pos> = Vec::new();
    let mut i: usize = 0;
    while i < v.len()
        invariant
            i <= v@.len(),
            r@ == v@.take(i as int),
        decreases v@.len() - i,
    {
        r.push(v[i]);
        assert(v@.take(i + 1) =~= v@.take(i as int).push(v@[i as int]));
        i = i + 1;
    }
    assert(v@.take(v@.len() as int) =~= v@);
    r
}

/// The four cells that a robot paints when it is made: its own and the three
/// to its right.
pub open spec fn first_manips() -> Seq<Pos> {
    seq![(0i64, 0i64), (1i64, 1i64), (1i64, 0i64), (1i64, -1i64)]
}

/// Where no cell is reserved for a robot, its count is zero.
pub proof fn lemma_count_owner_none(cells: Seq<Cell>, i: int)
    requires
        forall|k: int| 0 <= k < cells.len() ==> (#[trigger] cells[k]).owner_code() != i + 1,
    ensures
        count_owner(cells, i) == 0,
    decreases cells.len(),
{
    if cells.len() > 0 {
        assert(cells.last() == cells[cells.len() - 1]);
        assert forall|k: int| 0 <= k < cells.drop_last().len() implies (
        #[trigger] cells.drop_last()[k]).owner_code() != i + 1 by {
            assert(cells.drop_last()[k] == cells[k]);
        }
        lemma_count_owner_none(cells.drop_last(), i);
    }
}

impl Board {
    /// Whether no cell is reserved, no wall is painted and every item code is
    /// that of a booster.
    pub open spec fn clean(&self) -> bool {
        forall|k: int| 0 <= k < self.cells@.len() ==> (#[trigger] self.cells@[k]).tidy(0)
    }

    /// Whether no booster and no cloning factory lies on the board.
    pub open spec fn bare(&self) -> bool {
        forall|x: int, y: int| self.has(x, y) ==> (#[trigger] self.at(x, y)).item_code() == 0
    }

    /// On a board without boosters no cell holds an item.
    pub proof fn lemma_bare_item_cells(&self, code: int, upto: int)
        requires
            self.wf(),
            self.bare(),
            code != 0,
            upto <= self.cells@.len(),
        ensures
            item_cells(self, code, upto).len() == 0,
        decreases upto,
    {
        if upto > 0 {
            self.lemma_bare_item_cells(code, upto - 1);
            crate::board::lemma_unflat(self.w as int, self.h as int, upto - 1);
            let k = upto - 1;
            assert(self.at(k % (self.w as int), k / (self.w as int)) == self.cells@[k]);
        }
    }

    /// A copy of the board.
    pub fn copy(&self) -> (r: Board)
        ensures
            r.w == self.w,
            r.h == self.h,
            r.cells@ == self.cells@,
    {
        let mut cells: Vec<Cell> = Vec::new();
        let mut i: usize = 0;
        while i < self.cells.len()
            invariant
                i <= self.cells@.len(),
                cells@ == self.cells@.take(i as int),
            decreases self.cells@.len() - i,
        {
            cells.push(self.cells[i]);
            assert(self.cells@.take(i + 1) =~= self.cells@.take(i as int).push(
                self.cells@[i as int],
            ));
            i = i + 1;
        }
        assert(self.cells@.take(self.cells@.len() as int) =~= self.cells@);
        Board { w: self.w, h: self.h, cells }
    }
}

/// The item code that a letter stands for, 0 where it stands for none.
pub open spec fn letter_code(c: char) -> int {
    if c == 'B' {
        1
    } else if c == 'F' {
        2
    } else if c == 'L' {
        3
    } else if c == 'X' {
        4
    } else if c == 'R' {
        5
    } else if c == 'C' {
        6
    } else {
        0
    }
}

/// How many of the letters stand for the item code `code`.
pub open spec fn count_code(s: Seq<char>, code: int) -> nat
    decreases s.len(),
{
    if s.len() == 0 {
        0
    } else {
        count_code(s.drop_last(), code) + (if letter_code(s.last()) == code {
            1nat
        } else {
            0nat
        })
    }
}

/// No more letters stand for a code than there are letters.
pub proof fn lemma_count_code_bound(s: Seq<char>, code: int)
    ensures
        count_code(s, code) <= s.len(),
    decreases s.len(),
{
    if s.len() > 0 {
        lemma_count_code_bound(s.drop_last(), code);
    }
}

/// The positions of the cells that hold the item `code`, among the first
/// `upto` cells of the board row by row, in that order.
pub open spec fn item_cells(bd: &Board, code: int, upto: int) -> Seq<Pos>
    decreases upto,
{
    if upto <= 0 {
        Seq::empty()
    } else if bd.cells@[upto - 1].item_code() == code {
        item_cells(bd, code, upto - 1).push(
            (((upto - 1) % (bd.w as int)) as i64, ((upto - 1) / (bd.w as int)) as i64),
        )
    } else {
        item_cells(bd, code, upto - 1)
    }
}

/// No more cells hold an item than were looked at.
pub proof fn lemma_item_cells_bound(bd: &Board, code: int, upto: int)
    ensures
        item_cells(bd, code, upto).len() <= (if upto > 0 {
            upto
        } else {
            0
        }),
    decreases upto,
{
    if upto > 0 {
        lemma_item_cells_bound(bd, code, upto - 1);
    }
}

/// The number of cells in the region of free cells around `(x, y)`.
pub open spec fn region_size(bd: &Board, x: int, y: int) -> nat {
    Set::new(
        |k: int|
            0 <= k < bd.w * bd.h && crate::region::joined(
                bd.free(),
                (x, y),
                (k % (bd.w as int), k / (bd.w as int)),
            ),
    ).len()
}

/// The most cells that are counted when a state is made.
pub const COUNT_LIMIT: usize = 0x4000_0000;

impl State {
    /// A robot at `(x, y)` with the four manipulators that every robot starts
    /// with and the direction order `vect`.
    pub fn new_robot(x: i64, y: i64, vect: Vec<Pos>) -> (r: RobotState)
        ensures
            r.x == x,
            r.y == y,
            r.manips@ == first_manips(),
            r.prios == 0,
            r.num_collected_portal == 0,
            r.drill_time == 0,
            r.queue@.len() == 0,
            r.vect == vect,
            r.fast_count == 0,
            r.target is None,
            !r.finished,
    {
        let mut manips: Vec<Pos> = Vec::new();
        manips.push((0, 0));
        manips.push((1, 1));
        manips.push((1, 0));
        manips.push((1, -1));
        assert(manips@ =~= first_manips());
        RobotState {
            x,
            y,
            manips,
            prios: 0,
            num_collected_portal: 0,
            drill_time: 0,
            queue: Vec::new(),
            vect,
            fast_count: 0,
            target: None,
            finished: false,
        }
    }

    /// Whether the state is `pre` with one more robot, which stands at
    /// `(x, y)` as a robot at its start and has the direction order that is next
    /// in turn: the one at the number of robots so far, counted round the table.
    pub open spec fn robot_added(&self, pre: &State, x: int, y: int) -> bool {
        let n = pre.robots@.len() as int;
        let r = self.robots@[n];
        &&& *self == (State { robots: self.robots, ..*pre })
        &&& self.robots@.len() == n + 1
        &&& forall|j: int| 0 <= j < n ==> #[trigger] self.robots@[j] == pre.robots@[j]
        &&& r.x == x
        &&& r.y == y
        &&& r.manips@ == first_manips()
        &&& r.prios == 0
        &&& r.num_collected_portal == 0
        &&& r.drill_time == 0
        &&& r.queue@.len() == 0
        &&& r.vect@ == pre.vects@[n % (pre.vects@.len() as int)]@
        &&& r.fast_count == 0
        &&& r.target is None
        &&& !r.finished
    }

    /// Adds a robot at `(x, y)`. It gets the direction order that is next in
    /// turn: the one at the number of robots so far, counted round the table.
    pub fn add_robot(&mut self, x: i64, y: i64)
        requires
            old(self).wf(),
            old(self).bd.has(x as int, y as int),
            old(self).robots@.len() <= MAX_OWNER,
        ensures
            final(self).wf(),
            final(self).robot_added(old(self), x as int, y as int),
    {
        let n: usize = self.robots.len();
        let vect: Vec<Pos> = copy_points(&self.vects[n % self.vects.len()]);
        let r: RobotState = State::new_robot(x, y, vect);
        proof {
            assert(old(self).bd.owners_below(n as int));
            assert forall|k: int| 0 <= k < self.bd.cells@.len() implies (
            #[trigger] self.bd.cells@[k]).owner_code() != n + 1 by {}
            lemma_count_owner_none(self.bd.cells@, n as int);
        }
        proof {
            assert(first_manips()[2] == (1i64, 0i64));
            assert(unit(r.manips@[2]));
        }
        self.robots.push(r);
        proof {
            assert forall|j: int| 0 <= j < self.robots@.len() implies (
            #[trigger] self.robots@[j]).wf(&self.bd) && self.robots@[j].prios
                == self.bd.reserved(j) by {
                if j < n {
                    assert(self.robots@[j] == old(self).robots@[j]);
                    assert(old(self).robots@[j].wf(&old(self).bd));
                }
            }
        }
    }

    /// The tie-break score of the cell `(x, y)` as a first step of robot `i`.
    /// Every cell scores the same: the search falls back on the order in which
    /// the candidates were found.
    pub fn overwrap_score(&self, x: i64, y: i64, i: usize) -> (r: i64)
        ensures
            r == 0,
    {
        0
    }
}

/// The threshold as a count of cells; a negative one stands for no bound.
pub open spec fn threshold_of(t: int) -> int {
    if t < 0 || t > usize::MAX {
        usize::MAX as int
    } else {
        t
    }
}

/// A list that holds cells of the region around `(x, y)`, each once, is no
/// longer than the region is large; one that holds them all is as long.
pub proof fn lemma_region_count(bd: &Board, x: int, y: int, r: Seq<Pos>)
    requires
        bd.wf(),
        crate::region::all_differ(r),
        forall|i: int|
            0 <= i < r.len() ==> crate::region::joined(
                bd.free(),
                (x, y),
                crate::region::pt(#[trigger] r[i]),
            ),
    ensures
        r.len() <= region_size(bd, x, y),
        (forall|b: (int, int)|
            crate::region::joined(bd.free(), (x, y), b) ==> crate::region::holds(r, b))
            ==> r.len() == region_size(bd, x, y),
{
    let w = bd.w as int;
    let h = bd.h as int;
    let e = bd.free();
    let all = Set::new(
        |k: int| 0 <= k < bd.w * bd.h && crate::region::joined(e, (x, y), (k % w, k / w)),
    );
    let ks = Seq::new(r.len(), |i: int| crate::board::flat(w, r[i].0 as int, r[i].1 as int));
    assert forall|i: int| 0 <= i < r.len() implies bd.has(
        (#[trigger] r[i]).0 as int,
        r[i].1 as int,
    ) by {
        let n = choose|n: nat| crate::region::walk(e, (x, y), crate::region::pt(r[i]), n);
        crate::region::lemma_walk_ends(e, (x, y), crate::region::pt(r[i]), n);
    }
    assert(ks.no_duplicates()) by {
        assert forall|i: int, j: int| 0 <= i < ks.len() && 0 <= j < ks.len() && i != j implies ks[i]
            != ks[j] by {
            crate::board::lemma_flat(w, h, r[i].0 as int, r[i].1 as int);
            crate::board::lemma_flat(w, h, r[j].0 as int, r[j].1 as int);
            if i < j {
                assert(r[i] != r[j]);
            } else {
                assert(r[j] != r[i]);
            }
        }
    }
    ks.unique_seq_to_set();
    vstd::set_lib::lemma_int_range(0, w * h);
    assert(all.subset_of(vstd::set_lib::set_int_range(0, w * h)));
    vstd::set_lib::lemma_len_subset(all, vstd::set_lib::set_int_range(0, w * h));
    assert(ks.to_set().subset_of(all)) by {
        assert forall|k: int| ks.to_set().contains(k) implies all.contains(k) by {
            let i = choose|i: int| 0 <= i < ks.len() && ks[i] == k;
            crate::board::lemma_flat(w, h, r[i].0 as int, r[i].1 as int);
            assert(crate::region::pt(r[i]) == (k % w, k / w));
        }
    }
    vstd::set_lib::lemma_len_subset(ks.to_set(), all);
    if forall|b: (int, int)|
        crate::region::joined(e, (x, y), b) ==> crate::region::holds(r, b) {
        assert(all.subset_of(ks.to_set())) by {
            assert forall|k: int| all.contains(k) implies ks.to_set().contains(k) by {
                let b = (k % w, k / w);
                assert(crate::region::holds(r, b));
                let i = choose|i: int| 0 <= i < r.len() && crate::region::pt(#[trigger] r[i]) == b;
                crate::board::lemma_unflat(w, h, k);
                assert(ks[i] == k);
            }
        }
        assert(all =~= ks.to_set());
    }
}

impl State {
    /// Whether the state is the one at the start of a run on the board `bd`
    /// with the robot at `(x, y)`, the island threshold `th`, the boosters
    /// `bought` and the direction orders `vects`.
    ///
    /// The board is as given. There is one robot, at `(x, y)`, with the first
    /// direction order. The cells still to paint are those of the region of
    /// free cells around the robot, counted up to `COUNT_LIMIT`. The boosters
    /// bought are in store. The cloning boosters on the board wait for a robot,
    /// unless the board has no cloning factory or cloning is switched off: then
    /// there are none to fetch, and none in store either.
    pub open spec fn started(
        &self,
        bd: &Board,
        x: int,
        y: int,
        th: int,
        bought: Seq<char>,
        vects: Vec<Vec<Pos>>,
        disable_clone: bool,
    ) -> bool {
        &&& self.bd.w == bd.w
        &&& self.bd.h == bd.h
        &&& self.bd.cells@ == bd.cells@
        &&& self.robots@.len() == 1
        &&& self.robots@[0].x == x
        &&& self.robots@[0].y == y
        &&& self.robots@[0].manips@ == first_manips()
        &&& self.robots@[0].vect@ == vects@[0]@
        &&& self.robots@[0].queue@.len() == 0
        &&& self.robots@[0].target is None
        &&& self.robots@[0].fast_count == 0
        &&& self.robots@[0].drill_time == 0
        &&& self.robots@[0].num_collected_portal == 0
        &&& !self.robots@[0].finished
        &&& self.rest == (if region_size(bd, x, y) < COUNT_LIMIT {
            region_size(bd, x, y) as int
        } else {
            COUNT_LIMIT as int
        })
        &&& self.items@[0] == 0
        &&& forall|code: int| 1 <= code <= 5 ==> #[trigger] self.items@[code] == count_code(
            bought,
            code,
        )
        &&& self.items@[6] == (if State::can_clone(bd, disable_clone) {
            count_code(bought, 6)
        } else {
            0
        })
        &&& self.pending_clone@ == (if State::can_clone(bd, disable_clone) {
            item_cells(bd, 6, bd.cells@.len() as int)
        } else {
            Seq::empty()
        })
        &&& self.clone_num == self.pending_clone@.len()
        &&& self.portal_num == item_cells(bd, 5, bd.cells@.len() as int).len()
        &&& self.portals@.len() == 0
        &&& self.spawn_bot is None
        &&& self.diff.bd@.len() == 0
        &&& self.island_size_threshold == threshold_of(th)
        &&& self.vects == vects
    }

    /// The state at the start of a run: the board as given, one robot at
    /// `(x, y)` with the first direction order, the boosters bought in store.
    ///
    /// The cells still to paint are those of the region of free cells around
    /// the robot, counted up to `COUNT_LIMIT`. The cloning boosters on the board
    /// wait for a robot, unless the board has no cloning factory or cloning is
    /// switched off: then there are none to fetch, and none in store either.
    pub fn new(
        bd: &Board,
        x: i64,
        y: i64,
        island_size_threshold: i64,
        bought_boosters: &str,
        vects: Vec<Vec<Pos>>,
        disable_clone: bool,
    ) -> (s: State)
        requires
            bd.wf(),
            bd.clean(),
            bd.has(x as int, y as int),
            forall|i: int|
                0 <= i < bought_boosters@.len() ==> is_booster_letter(#[trigger] bought_boosters@[i]),
            vects@.len() >= 1,
            forall|r: int| 0 <= r < vects@.len() ==> is_order((#[trigger] vects@[r])@),
        ensures
            s.wf(),
            s.started(
                bd,
                x as int,
                y as int,
                island_size_threshold as int,
                bought_boosters@,
                vects,
                disable_clone,
            ),
    {
        let mut items: Vec<usize> = vec![0usize; 7];
        let len: usize = bought_boosters.unicode_len();
        let mut i: usize = 0;
        while i < len
            invariant
                i <= len,
                len == bought_boosters@.len(),
                items@.len() == 7,
                items@[0] == 0,
                forall|k: int|
                    0 <= k < bought_boosters@.len() ==> is_booster_letter(
                        #[trigger] bought_boosters@[k],
                    ),
                forall|code: int|
                    0 <= code <= 6 ==> #[trigger] items@[code] == count_code(
                        bought_boosters@.take(i as int),
                        code,
                    ),
            decreases len - i,
        {
            let c: char = bought_boosters.get_char(i);
            let b: Booster = crate::cell::char2booster(c);
            let code: usize = booster2u16(b) as usize;
            proof {
                let before = bought_boosters@.take(i as int);
                let after = bought_boosters@.take(i + 1);
                assert(after.drop_last() =~= before);
                assert(after.last() == c);
                lemma_count_code_bound(before, code as int);
            }
            items[code] = items[code] + 1;
            i = i + 1;
        }
        assert(bought_boosters@.take(len as int) =~= bought_boosters@);
        let n: usize = bd.cells.len();
        let mut pending_clone: Vec<Pos> = Vec::new();
        let mut portal_num: usize = 0;
        let mut has_mystery: bool = false;
        let mut k: usize = 0;
        while k < n
            invariant
                k <= n,
                n == bd.cells@.len(),
                bd.wf(),
                pending_clone@ == item_cells(bd, 6, k as int),
                portal_num == item_cells(bd, 5, k as int).len(),
                has_mystery == (item_cells(bd, 4, k as int).len() > 0),
            decreases n - k,
        {
            proof {
                lemma_item_cells_bound(bd, 5, k as int);
                crate::board::lemma_unflat(bd.w as int, bd.h as int, k as int);
            }
            let item: Option<usize> = bd.cells[k].item();
            match item {
                Some(t) => {
                    if t == ITEM_CLONE {
                        pending_clone.push(((k % bd.w) as i64, (k / bd.w) as i64));
                    }
                    if t == ITEM_PORTAL {
                        portal_num = portal_num + 1;
                    }
                    if t == ITEM_FACTORY {
                        has_mystery = true;
                    }
                },
                None => {},
            }
            k = k + 1;
        }
        let mut clone_num: usize = pending_clone.len();
        if disable_clone || !has_mystery {
            clone_num = 0;
            items[6] = 0;
            pending_clone.clear();
        }
        let threshold: usize = if island_size_threshold < 0 || island_size_threshold as u64
            > usize::MAX as u64 {
            usize::MAX
        } else {
            island_size_threshold as usize
        };
        let open = |u: i64, v: i64| -> (ok: bool)
            requires
                bd.wf(),
                bd.has(u as int, v as int),
            ensures
                ok == bd.free()(u as int, v as int),
            {
                let c: Cell = bd.get(u, v);
                !c.is_wall() && !c.is_painted() && c.prio().is_none()
            };
        let region: Vec<Pos> = crate::region::flood_region(
            bd.w,
            bd.h,
            x,
            y,
            Some(COUNT_LIMIT),
            open,
            Ghost(bd.free()),
        );
        proof {
            lemma_region_count(bd, x as int, y as int, region@);
        }
        let rest: usize = region.len();
        let vect: Vec<Pos> = copy_points(&vects[0]);
        let robot: RobotState = State::new_robot(x, y, vect);
        let mut robots: Vec<RobotState> = Vec::new();
        robots.push(robot);
        let s = State {
            bd: bd.copy(),
            robots,
            items,
            rest,
            clone_num,
            pending_clone,
            portal_num,
            portals: Vec::new(),
            spawn_bot: None,
            diff: Diff { bd: Vec::new() },
            island_size_threshold: threshold,
            vects,
        };
        proof {
            assert forall|q: int| 0 <= q < s.bd.cells@.len() implies (
            #[trigger] s.bd.cells@[q]).owner_code() != 0 + 1 by {}
            lemma_count_owner_none(s.bd.cells@, 0);
            assert(first_manips()[0] == (0i64, 0i64));
            assert(first_manips()[1] == (1i64, 1i64));
            assert(first_manips()[2] == (1i64, 0i64));
            assert(first_manips()[3] == (1i64, -1i64));
            assert(unit(s.robots@[0].manips@[2]));
            assert(s.robots@[0].wf(&s.bd));
        }
        s
    }

    /// Whether robots can be cloned on the board: cloning is not switched off
    /// and the board has a cloning factory.
    pub open spec fn can_clone(bd: &Board, disable_clone: bool) -> bool {
        !disable_clone && item_cells(bd, 4, bd.cells@.len() as int).len() > 0
    }
}

} // verus!
