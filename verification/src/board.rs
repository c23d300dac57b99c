use crate::cell::Cell;
use vstd::prelude::*;

verus! {

/// A grid position, or an offset between two positions: `(x, y)`.
pub type Pos = (i64, i64);

/// The largest width and the largest height of a board.
pub const MAX_SIDE: usize = 0x100_0000;

/// A rectangular grid of cells, stored row by row from `y == 0` upwards.
pub struct Board {
    pub w: usize,
    pub h: usize,
    pub cells: Vec<Cell>,
}

/// The place of the cell `(x, y)` in a row-by-row store of width `w`.
pub open spec fn flat(w: int, x: int, y: int) -> int {
    y * w + x
}

/// A position inside a `w` by `h` grid has its place inside the store, and the
/// place gives the position back.
pub proof fn lemma_flat(w: int, h: int, x: int, y: int)
    requires
        0 <= x < w,
        0 <= y < h,
    ensures
        0 <= flat(w, x, y) < w * h,
        flat(w, x, y) % w == x,
        flat(w, x, y) / w == y,
{
    assert(0 <= y * w <= (h - 1) * w) by (nonlinear_arith)
        requires
            0 <= y < h,
            0 < w,
    ;
    assert((h - 1) * w + w == w * h) by (nonlinear_arith);
    vstd::arithmetic::div_mod::lemma_fundamental_div_mod_converse(y * w + x, w, y, x);
}

/// A place inside the store belongs to one position of the grid.
pub proof fn lemma_unflat(w: int, h: int, k: int)
    requires
        0 < w,
        0 <= k < w * h,
    ensures
        0 <= k % w < w,
        0 <= k / w < h,
        flat(w, k % w, k / w) == k,
{
    vstd::arithmetic::div_mod::lemma_fundamental_div_mod(k, w);
    assert(w * (k / w) == (k / w) * w) by (nonlinear_arith);
    if k / w >= h {
        assert((k / w) * w >= h * w) by (nonlinear_arith)
            requires
                k / w >= h,
                w > 0,
        ;
        assert(h * w == w * h) by (nonlinear_arith);
    }
    if k / w < 0 {
        assert((k / w) * w <= -w) by (nonlinear_arith)
            requires
                k / w <= -1,
                w > 0,
        ;
    }
}

impl Board {
    /// The board has at least one cell, no side longer than `MAX_SIDE`, and one
    /// stored cell for each position.
    pub open spec fn wf(&self) -> bool {
        &&& 1 <= self.w <= MAX_SIDE
        &&& 1 <= self.h <= MAX_SIDE
        &&& self.cells@.len() == self.w * self.h
    }

    /// Whether `(x, y)` is a position of the board.
    pub open spec fn has(&self, x: int, y: int) -> bool {
        0 <= x < self.w && 0 <= y < self.h
    }

    /// The cell at `(x, y)`.
    pub open spec fn at(&self, x: int, y: int) -> Cell {
        self.cells@[flat(self.w as int, x, y)]
    }

    /// Whether the two boards have the same size.
    pub open spec fn same_size(&self, other: &Board) -> bool {
        self.w == other.w && self.h == other.h
    }

    /// A board of the given size on which every cell is a wall.
    pub fn walls(w: usize, h: usize) -> (r: Option<Board>)
        ensures
            r is Some <==> 1 <= w <= MAX_SIDE && 1 <= h <= MAX_SIDE && w * h <= usize::MAX,
            r matches Some(b) ==> b.wf() && b.w == w && b.h == h && forall|k: int|
                0 <= k < w * h ==> (#[trigger] b.cells@[k]).0 == 1,
    {
        if w < 1 || w > MAX_SIDE || h < 1 || h > MAX_SIDE {
            return None;
        }
        match w.checked_mul(h) {
            Some(n) => {
                let cells: Vec<Cell> = vec![Cell::new_wall(); n];
                Some(Board { w, h, cells })
            },
            None => None,
        }
    }

    /// The width of the board.
    pub fn width(&self) -> (w: i64)
        requires
            self.wf(),
        ensures
            w == self.w,
    {
        self.w as i64
    }

    /// The height of the board.
    pub fn height(&self) -> (h: i64)
        requires
            self.wf(),
        ensures
            h == self.h,
    {
        self.h as i64
    }

    /// Whether `(x, y)` is a position of the board.
    pub fn contains(&self, x: i64, y: i64) -> (b: bool)
        requires
            self.wf(),
        ensures
            b == self.has(x as int, y as int),
    {
        x >= 0 && x < self.w as i64 && y >= 0 && y < self.h as i64
    }

    /// The place of `(x, y)` in the store.
    pub fn index_of(&self, x: i64, y: i64) -> (k: usize)
        requires
            self.wf(),
            self.has(x as int, y as int),
        ensures
            k == flat(self.w as int, x as int, y as int),
            k < self.cells@.len(),
    {
        let n: usize = self.cells.len();
        proof {
            lemma_flat(self.w as int, self.h as int, x as int, y as int);
            assert(0 <= (y as int) * (self.w as int)) by (nonlinear_arith)
                requires
                    0 <= y,
                    0 <= self.w,
            ;
            assert(flat(self.w as int, x as int, y as int) < n);
        }
        (y as usize) * self.w + (x as usize)
    }

    /// The cell at `(x, y)`.
    pub fn get(&self, x: i64, y: i64) -> (c: Cell)
        requires
            self.wf(),
            self.has(x as int, y as int),
        ensures
            c == self.at(x as int, y as int),
    {
        let k: usize = self.index_of(x, y);
        self.cells[k]
    }

    /// Replaces the cell at `(x, y)`.
    pub fn set(&mut self, x: i64, y: i64, c: Cell)
        requires
            old(self).wf(),
            old(self).has(x as int, y as int),
        ensures
            final(self).wf(),
            final(self).same_size(old(self)),
            final(self).cells@ == old(self).cells@.update(
                flat(old(self).w as int, x as int, y as int),
                c,
            ),
            final(self).at(x as int, y as int) == c,
            forall|x2: int, y2: int|
                old(self).has(x2, y2) && (x2 != x || y2 != y) ==> #[trigger] final(self).at(x2, y2)
                    == old(self).at(x2, y2),
    {
        let k: usize = self.index_of(x, y);
        self.cells[k] = c;
        proof {
            let w = self.w as int;
            let h = self.h as int;
            assert forall|x2: int, y2: int|
                old(self).has(x2, y2) && (x2 != x || y2 != y) implies #[trigger] self.at(x2, y2)
                == old(self).at(x2, y2) by {
                lemma_flat(w, h, x2, y2);
                lemma_flat(w, h, x as int, y as int);
            }
        }
    }

    /// Whether every cell of the board can be shown as one character.
    pub open spec fn showable(&self) -> bool {
        forall|k: int| 0 <= k < self.cells@.len() ==> (#[trigger] self.cells@[k]).showable()
    }

    /// Whether `rows` shows the board: row by row from the top one down, each
    /// cell as its character.
    pub open spec fn shown_as(&self, rows: Seq<Vec<char>>) -> bool {
        &&& rows.len() == self.h
        &&& forall|k: int| 0 <= k < self.h ==> (#[trigger] rows[k])@.len() == self.w
        &&& forall|x: int, y: int|
            self.has(x, y) ==> #[trigger] rows[self.h - 1 - y]@[x] == self.at(x, y).glyph()
    }

    /// Whether every cell of the board can be shown as one character.
    pub fn can_draw(&self) -> (b: bool)
        ensures
            b == self.showable(),
    {
        let mut k: usize = 0;
        while k < self.cells.len()
            invariant
                k <= self.cells@.len(),
                forall|j: int| 0 <= j < k ==> (#[trigger] self.cells@[j]).showable(),
            decreases self.cells@.len() - k,
        {
            let c: Cell = self.cells[k];
            let item: Option<usize> = c.item();
            let held: Option<usize> = c.prio();
            let fine: bool = match item {
                Some(t) => t <= 6,
                None => false,
            } || match held {
                Some(i) => i <= 206,
                None => true,
            };
            if !fine {
                return false;
            }
            k = k + 1;
        }
        true
    }

    /// The board as rows of characters, the top row first.
    pub fn draw(&self) -> (rows: Vec<Vec<char>>)
        requires
            self.wf(),
            self.showable(),
        ensures
            self.shown_as(rows@),
    {
        let mut rows: Vec<Vec<char>> = Vec::new();
        let h: i64 = self.height();
        let w: i64 = self.width();
        let mut k: i64 = 0;
        while k < h
            invariant
                0 <= k <= h,
                h == self.h,
                w == self.w,
                self.wf(),
                self.showable(),
                rows@.len() == k,
                forall|j: int| 0 <= j < k ==> (#[trigger] rows@[j])@.len() == self.w,
                forall|x: int, j: int|
                    0 <= x < self.w && 0 <= j < k ==> #[trigger] rows@[j]@[x] == self.at(
                        x,
                        self.h - 1 - j,
                    ).glyph(),
            decreases h - k,
        {
            let y: i64 = h - 1 - k;
            let mut row: Vec<char> = Vec::new();
            let mut x: i64 = 0;
            while x < w
                invariant
                    0 <= x <= w,
                    w == self.w,
                    0 <= y < self.h,
                    self.wf(),
                    self.showable(),
                    row@.len() == x,
                    forall|j: int| 0 <= j < x ==> #[trigger] row@[j] == self.at(j, y as int).glyph(),
                decreases w - x,
            {
                let c: Cell = self.get(x, y);
                proof {
                    lemma_flat(self.w as int, self.h as int, x as int, y as int);
                }
                row.push(c.to_char());
                x = x + 1;
            }
            rows.push(row);
            k = k + 1;
        }
        proof {
            assert forall|x: int, y: int| self.has(x, y) implies #[trigger] rows@[self.h - 1
                - y]@[x] == self.at(x, y).glyph() by {
                let j = self.h - 1 - y;
                assert(rows@[j]@[x] == self.at(x, self.h - 1 - j).glyph());
            }
        }
        rows
    }
}

} // verus!
