use crate::board::Pos;
use crate::chance::shuffle;
use crate::region::{flood_region, holds, joined, lemma_walk_from, pt, walk};
use vstd::prelude::*;

verus! {

/// Whether the grid has at least one row and every row has the length of the first.
pub open spec fn is_grid(bd: Seq<Vec<char>>) -> bool {
    &&& bd.len() >= 1
    &&& bd.len() <= i64::MAX
    &&& bd[0]@.len() <= i64::MAX
    &&& bd.len() * bd[0]@.len() <= usize::MAX
    &&& forall|y: int| 0 <= y < bd.len() ==> (#[trigger] bd[y])@.len() == bd[0]@.len()
}

/// Whether `(x, y)` is a cell of the grid that holds the character `c`.
pub open spec fn shows(bd: Seq<Vec<char>>, c: char, x: int, y: int) -> bool {
    0 <= y < bd.len() && 0 <= x < bd[0]@.len() && bd[y]@[x] == c
}

/// Whether `after` is `before` with the connected region of `*` cells around
/// `(x, y)` turned into `#` cells, and every other cell as it was.
pub open spec fn repainted(before: Seq<Vec<char>>, after: Seq<Vec<char>>, x: int, y: int) -> bool {
    &&& after.len() == before.len()
    &&& forall|r: int| 0 <= r < before.len() ==> (#[trigger] after[r])@.len() == before[r]@.len()
    &&& forall|cx: int, cy: int|
        0 <= cy < before.len() && 0 <= cx < before[0]@.len() ==> #[trigger] after[cy]@[cx] == (
        if joined(stars(before), (x, y), (cx, cy)) {
            '#'
        } else {
            before[cy]@[cx]
        })
}

/// Turns the connected region of `*` cells around `(x, y)` into `#` cells and
/// leaves every other cell as it is.
pub fn paint_puzzle(bd: &mut Vec<Vec<char>>, x: i64, y: i64)
    requires
        is_grid(old(bd)@),
    ensures
        repainted(old(bd)@, final(bd)@, x as int, y as int),
{
    let h: usize = bd.len();
    let w: usize = bd[0].len();
    if w == 0 {
        return ;
    }
    let ghost e = stars(old(bd)@);
    let open = |u: i64, v: i64| -> (b: bool)
        requires
            0 <= u < w,
            0 <= v < h,
        ensures
            b == shows(bd@, '*', u as int, v as int),
        { bd[v as usize][u as usize] == '*' };
    let cells: Vec<Pos> = flood_region(w, h, x, y, None, open, Ghost(e));
    let mut i: usize = 0;
    while i < cells.len()
        invariant
            i <= cells@.len(),
            h == old(bd)@.len(),
            w == old(bd)@[0]@.len(),
            is_grid(old(bd)@),
            bd@.len() == h,
            forall|r: int| 0 <= r < h ==> (#[trigger] bd@[r])@.len() == w,
            e == stars(old(bd)@),
            forall|k: int|
                0 <= k < cells@.len() ==> e((#[trigger] cells@[k]).0 as int, cells@[k].1 as int),
            forall|cx: int, cy: int|
                0 <= cy < h && 0 <= cx < w ==> #[trigger] bd@[cy]@[cx] == (if holds(
                    cells@.take(i as int),
                    (cx, cy),
                ) {
                    '#'
                } else {
                    old(bd)@[cy]@[cx]
                }),
        decreases cells@.len() - i,
    {
        let p: Pos = cells[i];
        assert(e(p.0 as int, p.1 as int));
        let ghost before: Seq<Vec<char>> = bd@;
        bd[p.1 as usize][p.0 as usize] = '#';
        proof {
            let done = cells@.take(i as int);
            let more = cells@.take(i + 1);
            assert(more[i as int] == p);
            assert forall|cx: int, cy: int| 0 <= cy < h && 0 <= cx < w implies #[trigger] bd@[cy]@[cx]
                == (if holds(more, (cx, cy)) {
                '#'
            } else {
                old(bd)@[cy]@[cx]
            }) by {
                if holds(done, (cx, cy)) {
                    let k = choose|k: int| 0 <= k < done.len() && pt(#[trigger] done[k]) == (cx, cy);
                    assert(more[k] == done[k]);
                }
                if holds(more, (cx, cy)) && !holds(done, (cx, cy)) {
                    let k = choose|k: int| 0 <= k < more.len() && pt(#[trigger] more[k]) == (cx, cy);
                    if k < i {
                        assert(done[k] == more[k]);
                    }
                    assert((cx, cy) == pt(p));
                }
            }
        }
        i = i + 1;
    }
    proof {
        assert(cells@.take(i as int) == cells@);
        assert forall|cx: int, cy: int| 0 <= cy < h && 0 <= cx < w implies (holds(cells@, (cx, cy))
            <==> joined(e, (x as int, y as int), (cx, cy))) by {
            if holds(cells@, (cx, cy)) {
                let k = choose|k: int| 0 <= k < cells@.len() && pt(#[trigger] cells@[k]) == (cx, cy);
            }
        }
    }
}

/// What a room is to be like: how many of each thing it holds, how large it
/// is, how many corners its outline may have, which cells it must hold and
/// which it must not.
#[derive(Debug)]
pub struct PuzzleInput {
    pub b_num: usize,
    pub e_num: usize,
    pub t_size: usize,
    pub v_min: usize,
    pub v_max: usize,
    pub m_num: usize,
    pub f_num: usize,
    pub d_num: usize,
    pub r_num: usize,
    pub c_num: usize,
    pub x_num: usize,
    pub i_sqs: Vec<Pos>,
    pub o_sqs: Vec<Pos>,
}

/// Whether the grid has as many rows as each row has cells, at least one.
pub open spec fn is_square(bd: Seq<Vec<char>>) -> bool {
    &&& 1 <= bd.len() <= 0x4000_0000
    &&& forall|y: int| 0 <= y < bd.len() ==> (#[trigger] bd[y])@.len() == bd.len()
}

/// How many of the characters are no `*`.
pub open spec fn row_free(r: Seq<char>) -> nat
    decreases r.len(),
{
    if r.len() == 0 {
        0
    } else {
        row_free(r.drop_last()) + (if r.last() != '*' {
            1nat
        } else {
            0nat
        })
    }
}

/// How many of the cells are no `*`.
pub open spec fn grid_free(bd: Seq<Vec<char>>) -> nat
    decreases bd.len(),
{
    if bd.len() == 0 {
        0
    } else {
        grid_free(bd.drop_last()) + row_free(bd.last()@)
    }
}

/// A change of one character changes the count by what it brings and takes.
pub proof fn lemma_row_free_update(r: Seq<char>, i: int, c: char)
    requires
        0 <= i < r.len(),
    ensures
        row_free(r.update(i, c)) + (if r[i] != '*' {
            1nat
        } else {
            0nat
        }) == row_free(r) + (if c != '*' {
            1nat
        } else {
            0nat
        }),
    decreases r.len(),
{
    let after = r.update(i, c);
    if i == r.len() - 1 {
        assert(after.drop_last() =~= r.drop_last());
    } else {
        assert(after.drop_last() =~= r.drop_last().update(i, c));
        lemma_row_free_update(r.drop_last(), i, c);
    }
}

/// Rows that hold the same characters count the same.
pub proof fn lemma_grid_free_same(a: Seq<Vec<char>>, b: Seq<Vec<char>>)
    requires
        a.len() == b.len(),
        forall|k: int| 0 <= k < a.len() ==> (#[trigger] a[k])@ == b[k]@,
    ensures
        grid_free(a) == grid_free(b),
    decreases a.len(),
{
    if a.len() > 0 {
        assert(a.last()@ == b.last()@);
        assert forall|k: int| 0 <= k < a.drop_last().len() implies (#[trigger] a.drop_last()[k])@
            == b.drop_last()[k]@ by {
            assert(a.drop_last()[k] == a[k]);
            assert(b.drop_last()[k] == b[k]);
        }
        lemma_grid_free_same(a.drop_last(), b.drop_last());
    }
}

/// A change of one cell changes the count by what it brings and takes.
pub proof fn lemma_grid_free_update(a: Seq<Vec<char>>, b: Seq<Vec<char>>, y: int, x: int, c: char)
    requires
        a.len() == b.len(),
        0 <= y < a.len(),
        0 <= x < a[y]@.len(),
        forall|k: int| 0 <= k < a.len() && k != y ==> (#[trigger] a[k])@ == b[k]@,
        b[y]@ == a[y]@.update(x, c),
    ensures
        grid_free(b) + (if a[y]@[x] != '*' {
            1nat
        } else {
            0nat
        }) == grid_free(a) + (if c != '*' {
            1nat
        } else {
            0nat
        }),
    decreases a.len(),
{
    if y == a.len() - 1 {
        assert forall|k: int| 0 <= k < a.drop_last().len() implies (#[trigger] a.drop_last()[k])@
            == b.drop_last()[k]@ by {
            assert(a.drop_last()[k] == a[k]);
            assert(b.drop_last()[k] == b[k]);
        }
        lemma_grid_free_same(a.drop_last(), b.drop_last());
        lemma_row_free_update(a[y]@, x, c);
        assert(a.last() == a[y] && b.last() == b[y]);
    } else {
        assert(a.last()@ == b.last()@);
        assert forall|k: int|
            0 <= k < a.drop_last().len() && k != y implies (#[trigger] a.drop_last()[k])@
            == b.drop_last()[k]@ by {
            assert(a.drop_last()[k] == a[k]);
            assert(b.drop_last()[k] == b[k]);
        }
        assert(a.drop_last()[y] == a[y] && b.drop_last()[y] == b[y]);
        lemma_grid_free_update(a.drop_last(), b.drop_last(), y, x, c);
    }
}

/// The cells of the grid that hold a `*`.
pub open spec fn stars(bd: Seq<Vec<char>>) -> spec_fn(int, int) -> bool {
    |u: int, v: int| shows(bd, '*', u, v)
}

/// The four directions, as the walk numbers them.
pub open spec fn way(o: int) -> (int, int) {
    if o == 0 {
        (0, 1)
    } else if o == 1 {
        (1, 0)
    } else if o == 2 {
        (0, -1)
    } else {
        (-1, 0)
    }
}

/// The cell next to `(x, y)` in the direction with the number `k`.
pub open spec fn next_to(x: int, y: int, k: int) -> (int, int) {
    (x + way(k).0, y + way(k).1)
}

/// Whether a `*` lies on the cell next to `(nx, ny)` in the direction with the
/// number `k`, and that cell is not `(x, y)`.
pub open spec fn star_on_way(bd: Seq<Vec<char>>, x: int, y: int, nx: int, ny: int, k: int) -> bool {
    let m = next_to(nx, ny, k);
    m != (x, y) && shows(bd, '*', m.0, m.1)
}

/// Whether a `*` lies next to `(nx, ny)` on a cell other than `(x, y)`.
pub open spec fn beside_star(bd: Seq<Vec<char>>, x: int, y: int, nx: int, ny: int) -> bool {
    exists|k: int| 0 <= k < 4 && #[trigger] star_on_way(bd, x, y, nx, ny, k)
}

/// Whether a walk that comes to `q` has come to its end: the grid ends
/// before `q`, or `q` holds a `#`.
pub open spec fn walk_end(bd: Seq<Vec<char>>, q: (int, int)) -> bool {
    !(0 <= q.1 < bd.len() && 0 <= q.0 < bd.len()) || bd[q.1]@[q.0] == '#'
}

/// Whether no walk steps on `q`: it is a cell of the grid that holds `o` or
/// `*`.
pub open spec fn walk_stop(bd: Seq<Vec<char>>, q: (int, int)) -> bool {
    0 <= q.1 < bd.len() && 0 <= q.0 < bd.len() && (bd[q.1]@[q.0] == 'o' || bd[q.1]@[q.0] == '*')
}

/// Whether the walk at `(x, y)` comes to its end by one step in the direction
/// with the number `k`: no `*` lies beside the cell there, and the walk ends
/// there.
pub open spec fn way_out(bd: Seq<Vec<char>>, x: int, y: int, k: int) -> bool {
    let q = next_to(x, y, k);
    !beside_star(bd, x, y, q.0, q.1) && walk_end(bd, q)
}

/// Whether the walk at `(x, y)` cannot go on in the direction with the number
/// `k`: a `*` lies beside the cell there, or no walk steps on it.
pub open spec fn shut(bd: Seq<Vec<char>>, x: int, y: int, k: int) -> bool {
    let q = next_to(x, y, k);
    beside_star(bd, x, y, q.0, q.1) || walk_stop(bd, q)
}

/// Whether `*` cells lead from `(x, y)` to a cell beside which a walk ends.
pub open spec fn arrived(bd: Seq<Vec<char>>, x: int, y: int) -> bool {
    exists|c: (int, int), k: int|
        #![trigger walk_end(bd, next_to(c.0, c.1, k))]
        joined(stars(bd), (x, y), c) && 0 <= k < 4 && walk_end(bd, next_to(c.0, c.1, k))
}

/// What a walk from `(x, y)` that was drawn makes of the grid `before`, and
/// whether it came to an end, `r`.
///
/// Where the walk ends at `(x, y)` itself, it came to an end and the grid is
/// as it was; where no walk steps on `(x, y)`, it came to no end and the grid
/// is as it was. Else `(x, y)` holds `*` after a walk that came to an end, and
/// `*` cells lead from it to a cell beside which the walk ends; after a walk
/// that came to no end it holds a blank. The walk comes to an end if one step
/// takes it there, and to none if it can go on in no direction.
///
/// A cell that held `#`, `o` or `*` holds it still. Any other cell is as it
/// was, or it holds `*` or a blank. A cell that holds a new `*` lies on the
/// walk: `*` cells lead from `(x, y)` to it. A walk that came to no end left
/// no new `*`.
pub open spec fn walked(before: Seq<Vec<char>>, after: Seq<Vec<char>>, x: int, y: int, r: bool) -> bool {
    &&& after.len() == before.len()
    &&& forall|k: int| 0 <= k < before.len() ==> (#[trigger] after[k])@.len() == before[k]@.len()
    &&& forall|cx: int, cy: int|
        0 <= cy < before.len() && 0 <= cx < before[0]@.len() ==> {
            let a = before[cy]@[cx];
            let b = #[trigger] after[cy]@[cx];
            &&& (a == '#' || a == 'o' || a == '*') ==> b == a
            &&& b == a || b == '*' || b == ' '
            &&& (b == '*' && a != '*') ==> r && joined(stars(after), (x, y), (cx, cy))
        }
    &&& !r ==> grid_free(after) == grid_free(before)
    &&& if walk_end(before, (x, y)) {
        r && after == before
    } else if walk_stop(before, (x, y)) {
        !r && after == before
    } else {
        &&& after[y]@[x] == (if r {
            '*'
        } else {
            ' '
        })
        &&& r ==> arrived(after, x, y)
        &&& (exists|k: int| 0 <= k < 4 && #[trigger] way_out(before, x, y, k)) ==> r
        &&& (forall|k: int| 0 <= k < 4 ==> #[trigger] shut(before, x, y, k)) ==> !r
    }
}

/// The direction with the number `o`.
fn way_of(o: usize) -> (d: Pos)
    requires
        o < 4,
    ensures
        pt(d) == way(o as int),
{
    if o == 0 {
        (0, 1)
    } else if o == 1 {
        (1, 0)
    } else if o == 2 {
        (0, -1)
    } else {
        (-1, 0)
    }
}

/// Whether a `*` lies next to `(nx, ny)` on a cell other than `(x, y)`.
fn star_beside(bd: &Vec<Vec<char>>, x: i64, y: i64, nx: i64, ny: i64) -> (b: bool)
    requires
        is_square(bd@),
        -1 <= nx <= bd@.len(),
        -1 <= ny <= bd@.len(),
    ensures
        b == beside_star(bd@, x as int, y as int, nx as int, ny as int),
{
    let n: i64 = bd.len() as i64;
    let mut k: usize = 0;
    while k < 4
        invariant
            k <= 4,
            is_square(bd@),
            n == bd@.len(),
            -1 <= nx <= n,
            -1 <= ny <= n,
            forall|j: int|
                0 <= j < k ==> !#[trigger] star_on_way(
                    bd@,
                    x as int,
                    y as int,
                    nx as int,
                    ny as int,
                    j,
                ),
        decreases 4 - k,
    {
        let e: Pos = way_of(k);
        let mx: i64 = nx + e.0;
        let my: i64 = ny + e.1;
        if !(x == mx && y == my) {
            if mx >= 0 && mx < n && my >= 0 && my < n {
                if bd[my as usize][mx as usize] == '*' {
                    assert(star_on_way(bd@, x as int, y as int, nx as int, ny as int, k as int));
                    return true;
                }
            }
        }
        k = k + 1;
    }
    false
}

/// Walks from `(x, y)` over blank cells, marking its way with `*`, in
/// directions that are drawn, until it comes to a `#` or leaves the grid.
/// Returns whether it did. It does not step on `o`, nor on or beside its own
/// way. Where no direction leads on, it takes the last step back and leaves a
/// blank.
pub fn rec_gen(bd: &mut Vec<Vec<char>>, x: i64, y: i64) -> (r: bool)
    requires
        is_square(old(bd)@),
    ensures
        is_square(final(bd)@),
        walked(old(bd)@, final(bd)@, x as int, y as int, r),
    decreases grid_free(old(bd)@),
{
    let n: i64 = bd.len() as i64;
    if !(x >= 0 && x < n && y >= 0 && y < n) {
        return true;
    }
    let here: char = bd[y as usize][x as usize];
    if here == '#' {
        return true;
    }
    if here == 'o' || here == '*' {
        return false;
    }
    let ghost b0: Seq<Vec<char>> = bd@;
    bd[y as usize][x as usize] = '*';
    let ghost b1: Seq<Vec<char>> = bd@;
    proof {
        lemma_grid_free_update(b0, b1, y as int, x as int, '*');
    }
    let mut ord: Vec<usize> = Vec::new();
    ord.push(0);
    ord.push(1);
    ord.push(2);
    ord.push(3);
    let ghost plain: Seq<usize> = ord@;
    shuffle(&mut ord);
    proof {
        assert(ord@.len() == 4) by {
            ord@.to_multiset_ensures();
            plain.to_multiset_ensures();
        }
        assert forall|k: int| 0 <= k < 4 implies (#[trigger] ord@[k]) < 4 by {
            ord@.to_multiset_ensures();
            plain.to_multiset_ensures();
            assert(ord@.to_multiset().count(ord@[k]) > 0);
            assert(plain.contains(ord@[k]));
        }
        assert forall|d: usize| d < 4 implies #[trigger] ord@.contains(d) by {
            ord@.to_multiset_ensures();
            plain.to_multiset_ensures();
            assert(plain[d as int] == d);
            assert(plain.contains(d));
            assert(plain.to_multiset().count(d) > 0);
        }
    }
    let mut k: usize = 0;
    while k < 4
        invariant
            k <= 4,
            ord@.len() == 4,
            forall|j: int| 0 <= j < 4 ==> (#[trigger] ord@[j]) < 4,
            is_square(b0),
            is_square(bd@),
            n == b0.len(),
            bd@.len() == n,
            0 <= x < n,
            0 <= y < n,
            b0 == old(bd)@,
            b0[y as int]@[x as int] != '#' && b0[y as int]@[x as int] != 'o' && b0[y as int]@[x as int]
                != '*',
            grid_free(b0) == grid_free(b1) + 1,
            grid_free(bd@) == grid_free(b1),
            bd@[y as int]@[x as int] == '*',
            forall|cx: int, cy: int|
                0 <= cy < n && 0 <= cx < n ==> {
                    let a = b0[cy]@[cx];
                    let b = #[trigger] bd@[cy]@[cx];
                    &&& (a == '#' || a == 'o' || a == '*') ==> b == a
                    &&& b == a || b == '*' || b == ' '
                    &&& (b == '*' && a != '*') ==> cx == x && cy == y
                },
            forall|d: usize| d < 4 ==> #[trigger] ord@.contains(d),
            forall|j: int| 0 <= j < k ==> !way_out(b0, x as int, y as int, #[trigger] ord@[j] as int),
        decreases 4 - k,
    {
        let d: Pos = way_of(ord[k]);
        let nx: i64 = x + d.0;
        let ny: i64 = y + d.1;
        let ghost o: int = ord@[k as int] as int;
        let ghost b2: Seq<Vec<char>> = bd@;
        proof {
            assert(next_to(x as int, y as int, o) == (nx as int, ny as int));
            // but for the cell of the walk itself the stars are those of the grid at the start
            assert forall|j: int| 0 <= j < 4 implies star_on_way(
                b2,
                x as int,
                y as int,
                nx as int,
                ny as int,
                j,
            ) == star_on_way(b0, x as int, y as int, nx as int, ny as int, j) by {
                let m = next_to(nx as int, ny as int, j);
                if m != (x as int, y as int) && 0 <= m.1 < n && 0 <= m.0 < n {
                    let a = b0[m.1]@[m.0];
                    let b = b2[m.1]@[m.0];
                    assert(b == '*' <==> a == '*');
                }
            }
            assert(beside_star(b2, x as int, y as int, nx as int, ny as int) == beside_star(
                b0,
                x as int,
                y as int,
                nx as int,
                ny as int,
            )) by {
                if beside_star(b2, x as int, y as int, nx as int, ny as int) {
                    let j = choose|j: int|
                        0 <= j < 4 && #[trigger] star_on_way(
                            b2,
                            x as int,
                            y as int,
                            nx as int,
                            ny as int,
                            j,
                        );
                    assert(star_on_way(b0, x as int, y as int, nx as int, ny as int, j));
                }
                if beside_star(b0, x as int, y as int, nx as int, ny as int) {
                    let j = choose|j: int|
                        0 <= j < 4 && #[trigger] star_on_way(
                            b0,
                            x as int,
                            y as int,
                            nx as int,
                            ny as int,
                            j,
                        );
                    assert(star_on_way(b2, x as int, y as int, nx as int, ny as int, j));
                }
            }
            assert(walk_end(b2, (nx as int, ny as int)) == walk_end(b0, (nx as int, ny as int)));
            assert(walk_stop(b0, (nx as int, ny as int)) ==> walk_stop(b2, (nx as int, ny as int)));
        }
        if !star_beside(bd, x, y, nx, ny) {
            if rec_gen(bd, nx, ny) {
                proof {
                    let fin = bd@;
                    let e = stars(fin);
                    assert(fin[y as int]@[x as int] == '*');
                    assert(e(x as int, y as int));
                    assert(walk(e, (x as int, y as int), (x as int, y as int), 0));
                    assert(!shut(b0, x as int, y as int, o));
                    if walk_end(b2, (nx as int, ny as int)) {
                        assert(fin == b2);
                        assert(joined(e, (x as int, y as int), (x as int, y as int)));
                        assert(walk_end(fin, next_to(x as int, y as int, o)));
                        assert(arrived(fin, x as int, y as int));
                    } else {
                        assert(arrived(fin, nx as int, ny as int));
                        let (c, j) = choose|c: (int, int), j: int|
                            #![trigger walk_end(fin, next_to(c.0, c.1, j))]
                            joined(e, (nx as int, ny as int), c) && 0 <= j < 4 && walk_end(
                                fin,
                                next_to(c.0, c.1, j),
                            );
                        assert(e(nx as int, ny as int));
                        let steps = choose|steps: nat| walk(e, (nx as int, ny as int), c, steps);
                        lemma_walk_from(e, (x as int, y as int), (nx as int, ny as int), c, steps);
                        assert(joined(e, (x as int, y as int), c));
                        assert(walk_end(fin, next_to(c.0, c.1, j)));
                        assert(arrived(fin, x as int, y as int));
                    }
                    assert forall|cx: int, cy: int| 0 <= cy < n && 0 <= cx < n implies ({
                        let a = b0[cy]@[cx];
                        let b = #[trigger] fin[cy]@[cx];
                        &&& (a == '#' || a == 'o' || a == '*') ==> b == a
                        &&& b == a || b == '*' || b == ' '
                        &&& (b == '*' && a != '*') ==> joined(e, (x as int, y as int), (cx, cy))
                    }) by {
                        let a = b0[cy]@[cx];
                        let m = b2[cy]@[cx];
                        let b = fin[cy]@[cx];
                        if b == '*' && a != '*' {
                            if m == '*' {
                                assert(cx == x && cy == y);
                            } else {
                                assert(joined(e, (nx as int, ny as int), (cx, cy)));
                                let steps = choose|steps: nat|
                                    walk(e, (nx as int, ny as int), (cx, cy), steps);
                                lemma_walk_from(
                                    e,
                                    (x as int, y as int),
                                    (nx as int, ny as int),
                                    (cx, cy),
                                    steps,
                                );
                            }
                        }
                    }
                }
                return true;
            }
        }
        proof {
            assert(!way_out(b0, x as int, y as int, o));
        }
        k = k + 1;
    }
    let ghost b3: Seq<Vec<char>> = bd@;
    bd[y as usize][x as usize] = ' ';
    proof {
        lemma_grid_free_update(b3, bd@, y as int, x as int, ' ');
        assert forall|j: int| 0 <= j < 4 implies !#[trigger] way_out(b0, x as int, y as int, j) by {
            assert(ord@.contains(j as usize));
            let at = choose|at: int| 0 <= at < ord@.len() && ord@[at] == j as usize;
            assert(!way_out(b0, x as int, y as int, ord@[at] as int));
        }
    }
    false
}

/// What making a room leaves of the grid: as many rows and cells in each as
/// the room is large, on each cell `#`, `o` or a blank, and `o` on every cell
/// that the room must hold, unless the first cell that it must not hold is
/// among them.
pub open spec fn is_room(input: &PuzzleInput, bd: Seq<Vec<char>>) -> bool {
    &&& bd.len() == input.t_size
    &&& forall|y: int| 0 <= y < bd.len() ==> (#[trigger] bd[y])@.len() == input.t_size
    &&& forall|cx: int, cy: int|
        0 <= cy < bd.len() && 0 <= cx < bd.len() ==> {
            let c = #[trigger] bd[cy]@[cx];
            c == '#' || c == 'o' || c == ' '
        }
    &&& forall|i: int|
        0 <= i < input.i_sqs@.len() && input.i_sqs@[i] != input.o_sqs@[0] ==> bd[(
        #[trigger] input.i_sqs@[i]).1 as int]@[input.i_sqs@[i].0 as int] == 'o'
}

/// Whether the cells that the room must and must not hold lie in the room,
/// and it must not hold one cell at least.
pub open spec fn fits(input: &PuzzleInput) -> bool {
    &&& 1 <= input.t_size <= 0xffff
    &&& input.o_sqs@.len() >= 1
    &&& forall|i: int|
        0 <= i < input.i_sqs@.len() ==> 0 <= (#[trigger] input.i_sqs@[i]).0 < input.t_size && 0
            <= input.i_sqs@[i].1 < input.t_size
    &&& forall|i: int|
        0 <= i < input.o_sqs@.len() ==> 0 <= (#[trigger] input.o_sqs@[i]).0 < input.t_size && 0
            <= input.o_sqs@[i].1 < input.t_size
}

/// Makes a room on a grid: `#` round the grid and on the first cell that the
/// room must not hold, `o` on the cells that it must hold. From each other
/// cell that it must not hold a walk is drawn to the wall, and where it comes
/// to the wall its way becomes wall. Returns the grid after each walk.
pub fn solve_puzzle(input: &PuzzleInput) -> (r: Vec<Vec<Vec<char>>>)
    requires
        fits(input),
    ensures
        r@.len() == input.o_sqs@.len() - 1,
        forall|k: int| 0 <= k < r@.len() ==> is_room(input, (#[trigger] r@[k])@),
{
    let n: usize = input.t_size;
    let mut bd: Vec<Vec<char>> = Vec::new();
    let mut y: usize = 0;
    while y < n
        invariant
            y <= n,
            n <= 0xffff,
            n == input.t_size,
            bd@.len() == y,
            forall|k: int| 0 <= k < y ==> (#[trigger] bd@[k])@.len() == n,
            forall|cx: int, cy: int|
                0 <= cy < y && 0 <= cx < n ==> {
                    let c = #[trigger] bd@[cy]@[cx];
                    c == '#' || c == ' '
                },
        decreases n - y,
    {
        let mut row: Vec<char> = Vec::new();
        let mut x: usize = 0;
        while x < n
            invariant
                x <= n,
                y < n,
                n <= 0xffff,
                row@.len() == x,
                forall|cx: int| 0 <= cx < x ==> #[trigger] row@[cx] == '#' || row@[cx] == ' ',
            decreases n - x,
        {
            if y >= 1 && y + 1 < n && x >= 1 && x + 1 < n {
                row.push(' ');
            } else {
                row.push('#');
            }
            x = x + 1;
        }
        bd.push(row);
        y = y + 1;
    }
    let mut i: usize = 0;
    while i < input.i_sqs.len()
        invariant
            i <= input.i_sqs@.len(),
            fits(input),
            n == input.t_size,
            bd@.len() == n,
            forall|k: int| 0 <= k < n ==> (#[trigger] bd@[k])@.len() == n,
            forall|cx: int, cy: int|
                0 <= cy < n && 0 <= cx < n ==> {
                    let c = #[trigger] bd@[cy]@[cx];
                    c == '#' || c == 'o' || c == ' '
                },
            forall|j: int|
                0 <= j < i ==> bd@[(#[trigger] input.i_sqs@[j]).1 as int]@[input.i_sqs@[j].0 as int]
                    == 'o',
        decreases input.i_sqs@.len() - i,
    {
        let p: Pos = input.i_sqs[i];
        bd[p.1 as usize][p.0 as usize] = 'o';
        i = i + 1;
    }
    let first: Pos = input.o_sqs[0];
    bd[first.1 as usize][first.0 as usize] = '#';
    let mut out: Vec<Vec<Vec<char>>> = Vec::new();
    let mut k: usize = 1;
    while k < input.o_sqs.len()
        invariant
            1 <= k <= input.o_sqs@.len(),
            fits(input),
            n == input.t_size,
            is_room(input, bd@),
            out@.len() == k - 1,
            forall|j: int| 0 <= j < out@.len() ==> is_room(input, (#[trigger] out@[j])@),
        decreases input.o_sqs@.len() - k,
    {
        let p: Pos = input.o_sqs[k];
        let ghost b0: Seq<Vec<char>> = bd@;
        assert(is_square(bd@));
        rec_gen(&mut bd, p.0, p.1);
        let ghost b1: Seq<Vec<char>> = bd@;
        proof {
            assert((n as int) * (n as int) <= 0xffff_ffff) by (nonlinear_arith)
                requires
                    1 <= n <= 0xffff,
            ;
            assert(is_grid(bd@));
        }
        paint_puzzle(&mut bd, p.0, p.1);
        proof {
            let b2 = bd@;
            assert forall|cx: int, cy: int| 0 <= cy < n && 0 <= cx < n implies ({
                let c = #[trigger] b2[cy]@[cx];
                c == '#' || c == 'o' || c == ' '
            }) by {
                let a = b0[cy]@[cx];
                let m = b1[cy]@[cx];
                if m == '*' {
                    assert(a != '*');
                    assert(joined(stars(b1), (p.0 as int, p.1 as int), (cx, cy)));
                } else if joined(stars(b1), (p.0 as int, p.1 as int), (cx, cy)) {
                    let steps = choose|steps: nat|
                        walk(stars(b1), (p.0 as int, p.1 as int), (cx, cy), steps);
                    crate::region::lemma_walk_ends(
                        stars(b1),
                        (p.0 as int, p.1 as int),
                        (cx, cy),
                        steps,
                    );
                }
            }
            assert forall|j: int|
                0 <= j < input.i_sqs@.len() && input.i_sqs@[j] != input.o_sqs@[0] implies b2[(
            #[trigger] input.i_sqs@[j]).1 as int]@[input.i_sqs@[j].0 as int] == 'o' by {
                let q = input.i_sqs@[j];
                assert(b0[q.1 as int]@[q.0 as int] == 'o');
                assert(b1[q.1 as int]@[q.0 as int] == 'o');
                if joined(stars(b1), (p.0 as int, p.1 as int), (q.0 as int, q.1 as int)) {
                    let steps = choose|steps: nat|
                        walk(
                            stars(b1),
                            (p.0 as int, p.1 as int),
                            (q.0 as int, q.1 as int),
                            steps,
                        );
                    crate::region::lemma_walk_ends(
                        stars(b1),
                        (p.0 as int, p.1 as int),
                        (q.0 as int, q.1 as int),
                        steps,
                    );
                }
                assert(b2[q.1 as int]@[q.0 as int] == b1[q.1 as int]@[q.0 as int]);
            }
        }
        out.push(copy_grid(&bd));
        k = k + 1;
    }
    out
}

/// A copy of the grid.
fn copy_grid(bd: &Vec<Vec<char>>) -> (r: Vec<Vec<char>>)
    ensures
        r@.len() == bd@.len(),
        forall|y: int| 0 <= y < bd@.len() ==> (#[trigger] r@[y])@ == bd@[y]@,
{
    let mut r: Vec<Vec<char>> = Vec::new();
    let mut y: usize = 0;
    while y < bd.len()
        invariant
            y <= bd@.len(),
            r@.len() == y,
            forall|k: int| 0 <= k < y ==> (#[trigger] r@[k])@ == bd@[k]@,
        decreases bd@.len() - y,
    {
        let mut row: Vec<char> = Vec::new();
        let mut x: usize = 0;
        while x < bd[y].len()
            invariant
                y < bd@.len(),
                x <= bd@[y as int]@.len(),
                row@ == bd@[y as int]@.take(x as int),
            decreases bd@[y as int]@.len() - x,
        {
            row.push(bd[y][x]);
            assert(bd@[y as int]@.take(x + 1) =~= bd@[y as int]@.take(x as int).push(
                bd@[y as int]@[x as int],
            ));
            x = x + 1;
        }
        assert(bd@[y as int]@.take(bd@[y as int]@.len() as int) =~= bd@[y as int]@);
        r.push(row);
        y = y + 1;
    }
    r
}

} // verus!
