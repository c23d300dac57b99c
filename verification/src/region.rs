use crate::board::{flat, lemma_flat, Pos};
use vstd::prelude::*;

verus! {

/// A position as a pair of integers.
pub open spec fn pt(p: Pos) -> (int, int) {
    (p.0 as int, p.1 as int)
}

/// Whether two positions share a side.
pub open spec fn touching(a: (int, int), b: (int, int)) -> bool {
    ||| (a.0 == b.0 && (a.1 == b.1 + 1 || a.1 + 1 == b.1))
    ||| (a.1 == b.1 && (a.0 == b.0 + 1 || a.0 + 1 == b.0))
}

/// Whether `b` can be reached from `a` in at most `n` steps, each from one cell
/// to a cell that shares a side with it, through cells of `e` only.
pub open spec fn walk(e: spec_fn(int, int) -> bool, a: (int, int), b: (int, int), n: nat) -> bool
    decreases n,
{
    if n == 0 {
        a == b && e(a.0, a.1)
    } else {
        walk(e, a, b, (n - 1) as nat) || (e(b.0, b.1) && exists|c: (int, int)|
            walk(e, a, c, (n - 1) as nat) && #[trigger] touching(c, b))
    }
}

/// Whether `a` and `b` lie in one connected region of `e`.
pub open spec fn joined(e: spec_fn(int, int) -> bool, a: (int, int), b: (int, int)) -> bool {
    exists|n: nat| walk(e, a, b, n)
}

/// Whether the list holds the position `q`.
pub open spec fn holds(s: Seq<Pos>, q: (int, int)) -> bool {
    exists|i: int| 0 <= i < s.len() && pt(#[trigger] s[i]) == q
}

/// Whether no position stands twice in the list.
pub open spec fn all_differ(s: Seq<Pos>) -> bool {
    forall|i: int, j: int| 0 <= i < j < s.len() ==> s[i] != s[j]
}

/// Whether the list holds every cell of `e` that shares a side with one of its own.
pub open spec fn closed_under(e: spec_fn(int, int) -> bool, s: Seq<Pos>) -> bool {
    forall|i: int, q: (int, int)|
        0 <= i < s.len() && #[trigger] touching(pt(s[i]), q) && e(q.0, q.1) ==> holds(s, q)
}

/// Whether the list is the whole region of `e` around `start`, each cell once.
pub open spec fn is_region(e: spec_fn(int, int) -> bool, start: (int, int), s: Seq<Pos>) -> bool {
    &&& all_differ(s)
    &&& forall|i: int| 0 <= i < s.len() ==> joined(e, start, pt(#[trigger] s[i]))
    &&& forall|b: (int, int)| joined(e, start, b) ==> holds(s, b)
}

/// A walk ends in a cell of `e`, and so it began in one.
pub proof fn lemma_walk_ends(e: spec_fn(int, int) -> bool, a: (int, int), b: (int, int), n: nat)
    requires
        walk(e, a, b, n),
    ensures
        e(a.0, a.1),
        e(b.0, b.1),
    decreases n,
{
    if n > 0 {
        if walk(e, a, b, (n - 1) as nat) {
            lemma_walk_ends(e, a, b, (n - 1) as nat);
        } else {
            let c = choose|c: (int, int)|
                walk(e, a, c, (n - 1) as nat) && #[trigger] touching(c, b);
            lemma_walk_ends(e, a, c, (n - 1) as nat);
        }
    }
}

/// A list that holds the start and every eligible neighbour of each of its
/// cells holds every cell that a walk from the start reaches.
pub proof fn lemma_closed_holds_walk(
    e: spec_fn(int, int) -> bool,
    start: (int, int),
    s: Seq<Pos>,
    b: (int, int),
    n: nat,
)
    requires
        closed_under(e, s),
        e(start.0, start.1) ==> holds(s, start),
        walk(e, start, b, n),
    ensures
        holds(s, b),
    decreases n,
{
    if n == 0 {
    } else if walk(e, start, b, (n - 1) as nat) {
        lemma_closed_holds_walk(e, start, s, b, (n - 1) as nat);
    } else {
        let c = choose|c: (int, int)|
            walk(e, start, c, (n - 1) as nat) && #[trigger] touching(c, b);
        lemma_closed_holds_walk(e, start, s, c, (n - 1) as nat);
        let i = choose|i: int| 0 <= i < s.len() && pt(#[trigger] s[i]) == c;
        assert(touching(pt(s[i]), b));
    }
}

/// One more step from a cell that a walk reaches, into a cell of `e`.
pub proof fn lemma_walk_on(
    e: spec_fn(int, int) -> bool,
    a: (int, int),
    c: (int, int),
    b: (int, int),
)
    requires
        joined(e, a, c),
        touching(c, b),
        e(b.0, b.1),
    ensures
        joined(e, a, b),
{
    let n = choose|n: nat| walk(e, a, c, n);
    assert(walk(e, a, c, ((n + 1) - 1) as nat) && touching(c, b));
    assert(walk(e, a, b, n + 1));
}

/// A walk can start one step earlier, from a cell of `e`.
pub proof fn lemma_walk_from(
    e: spec_fn(int, int) -> bool,
    a: (int, int),
    b: (int, int),
    c: (int, int),
    n: nat,
)
    requires
        e(a.0, a.1),
        touching(a, b),
        walk(e, b, c, n),
    ensures
        walk(e, a, c, n + 1),
    decreases n,
{
    if n == 0 {
        assert(walk(e, a, a, 0));
        assert(walk(e, a, a, ((n + 1) - 1) as nat) && touching(a, c));
    } else if walk(e, b, c, (n - 1) as nat) {
        lemma_walk_from(e, a, b, c, (n - 1) as nat);
    } else {
        let m = choose|m: (int, int)| walk(e, b, m, (n - 1) as nat) && #[trigger] touching(m, c);
        lemma_walk_from(e, a, b, m, (n - 1) as nat);
        assert(walk(e, a, m, ((n + 1) - 1) as nat) && touching(m, c));
    }
}

/// Distinct integers from `0` up to but without `n` are at most `n` in number.
pub proof fn lemma_distinct_count(s: Seq<int>, n: int)
    requires
        0 <= n,
        s.no_duplicates(),
        forall|i: int| 0 <= i < s.len() ==> 0 <= #[trigger] s[i] < n,
    ensures
        s.len() <= n,
{
    s.unique_seq_to_set();
    vstd::set_lib::lemma_int_range(0, n);
    assert(s.to_set().subset_of(vstd::set_lib::set_int_range(0, n))) by {
        assert forall|v: int| s.to_set().contains(v) implies vstd::set_lib::set_int_range(
            0,
            n,
        ).contains(v) by {
            let i = choose|i: int| 0 <= i < s.len() && s[i] == v;
            assert(0 <= s[i] < n);
        }
    }
    vstd::set_lib::lemma_len_subset(s.to_set(), vstd::set_lib::set_int_range(0, n));
}

/// The cells that a flood fill lists when it has `stack` yet to look at,
/// has flagged the cells of `seen` and has listed `out`.
///
/// The cell looked at next is the last of `stack`. If it lies on the grid, is
/// not flagged and is eligible, it is flagged and listed, and the cells below,
/// above, left and right of it are to be looked at, the last of them first.
/// The fill ends when nothing is left to look at or `cap` cells are listed.
pub open spec fn filled(
    e: spec_fn(int, int) -> bool,
    w: int,
    h: int,
    cap: Option<int>,
    stack: Seq<Pos>,
    seen: Seq<bool>,
    out: Seq<Pos>,
) -> Seq<Pos>
    decreases w * h - out.len(), stack.len(),
{
    if stack.len() == 0 || (cap matches Some(l) && out.len() >= l) || out.len() >= w * h {
        out
    } else {
        let p = stack.last();
        let rest = stack.drop_last();
        if 0 <= p.0 < w && 0 <= p.1 < h && !seen[flat(w, p.0 as int, p.1 as int)] && e(
            p.0 as int,
            p.1 as int,
        ) {
            filled(
                e,
                w,
                h,
                cap,
                rest.push((p.0, (p.1 - 1) as i64)).push((p.0, (p.1 + 1) as i64)).push(
                    ((p.0 - 1) as i64, p.1),
                ).push(((p.0 + 1) as i64, p.1)),
                seen.update(flat(w, p.0 as int, p.1 as int), true),
                out.push(p),
            )
        } else {
            filled(e, w, h, cap, rest, seen, out)
        }
    }
}

/// The cells that a flood fill from `start` lists, in the order in which it
/// comes to them: `start` first, then what lies to the right of a cell before
/// what lies to the left, above and below it; no more than `cap` cells.
pub open spec fn fill_list(
    e: spec_fn(int, int) -> bool,
    w: int,
    h: int,
    cap: Option<int>,
    start: Pos,
) -> Seq<Pos> {
    filled(e, w, h, cap, seq![start], Seq::new((w * h) as nat, |k: int| false), Seq::empty())
}

/// The limit as a number.
pub open spec fn cap_of(limit: Option<usize>) -> Option<int> {
    match limit {
        Some(l) => Some(l as int),
        None => None,
    }
}

/// The connected region of eligible cells around `(sx, sy)` on a `w` by `h`
/// grid, walked depth first: from each cell to the right, to the left, upwards,
/// downwards. With a `limit`, the walk stops as soon as it has that many cells.
///
/// `open` tells whether a cell is eligible; `e` is what it computes.
pub fn flood_region<F: Fn(i64, i64) -> bool>(
    w: usize,
    h: usize,
    sx: i64,
    sy: i64,
    limit: Option<usize>,
    open: F,
    Ghost(e): Ghost<spec_fn(int, int) -> bool>,
) -> (r: Vec<Pos>)
    requires
        1 <= w <= i64::MAX,
        1 <= h <= i64::MAX,
        w * h <= usize::MAX,
        forall|x: i64, y: i64| 0 <= x < w && 0 <= y < h ==> call_requires(open, (x, y)),
        forall|x: i64, y: i64, b: bool|
            0 <= x < w && 0 <= y < h && call_ensures(open, (x, y), b) ==> b == e(
                x as int,
                y as int,
            ),
        forall|x: int, y: int| #[trigger] e(x, y) ==> 0 <= x < w && 0 <= y < h,
    ensures
        all_differ(r@),
        r@.len() <= w * h,
        forall|i: int| 0 <= i < r@.len() ==> joined(e, (sx as int, sy as int), pt(#[trigger] r@[i])),
        forall|i: int| 0 <= i < r@.len() ==> e((#[trigger] r@[i]).0 as int, r@[i].1 as int),
        limit matches Some(l) ==> r@.len() <= l,
        (limit matches Some(l) ==> r@.len() < l) ==> is_region(e, (sx as int, sy as int), r@),
        r@.len() > 0 ==> r@[0] == (sx, sy),
        r@ == fill_list(e, w as int, h as int, cap_of(limit), (sx, sy)),
{
    let n: usize = w * h;
    let mut seen: Vec<bool> = vec![false; n];
    let mut out: Vec<Pos> = Vec::new();
    let mut stack: Vec<Pos> = Vec::new();
    stack.push((sx, sy));
    let ghost start: (int, int) = (sx as int, sy as int);
    let ghost mut ks: Seq<int> = Seq::empty();
    let ghost answer: Seq<Pos> = fill_list(e, w as int, h as int, cap_of(limit), (sx, sy));
    proof {
        assert(pt(stack@[0]) == start);
        assert(stack@ =~= seq![(sx, sy)]);
        assert(seen@ =~= Seq::new((w * h) as nat, |k: int| false));
        assert(out@ =~= Seq::<Pos>::empty());
    }
    let bounded: bool = limit.is_some();
    let cap: usize = match limit {
        Some(l) => l,
        None => 0,
    };
    while stack.len() > 0 && (!bounded || out.len() < cap)
        invariant
            bounded == (limit is Some),
            limit matches Some(l) ==> cap == l,
            1 <= w <= i64::MAX,
            1 <= h <= i64::MAX,
            n == w * h,
            start == (sx as int, sy as int),
            seen@.len() == n,
            forall|x: i64, y: i64| 0 <= x < w && 0 <= y < h ==> call_requires(open, (x, y)),
            forall|x: i64, y: i64, b: bool|
                0 <= x < w && 0 <= y < h && call_ensures(open, (x, y), b) ==> b == e(
                    x as int,
                    y as int,
                ),
            forall|x: int, y: int| #[trigger] e(x, y) ==> 0 <= x < w && 0 <= y < h,
            ks.len() == out@.len(),
            ks.no_duplicates(),
            forall|k: int|
                0 <= k < n && #[trigger] seen@[k] ==> exists|i: int|
                    0 <= i < ks.len() && ks[i] == k,
            forall|i: int|
                0 <= i < ks.len() ==> 0 <= #[trigger] ks[i] < n && seen@[ks[i]] && ks[i] == flat(
                    w as int,
                    out@[i].0 as int,
                    out@[i].1 as int,
                ),
            forall|i: int|
                0 <= i < out@.len() ==> e((#[trigger] out@[i]).0 as int, out@[i].1 as int)
                    && joined(e, start, pt(out@[i])),
            forall|i: int, q: (int, int)|
                0 <= i < out@.len() && #[trigger] touching(pt(out@[i]), q) && e(q.0, q.1)
                    ==> holds(out@, q) || holds(stack@, q),
            forall|j: int|
                0 <= j < stack@.len() ==> pt(#[trigger] stack@[j]) == start || exists|i: int|
                    0 <= i < out@.len() && touching(pt(#[trigger] out@[i]), pt(stack@[j])),
            e(start.0, start.1) ==> holds(out@, start) || holds(stack@, start),
            limit matches Some(l) ==> out@.len() <= l,
            out@.len() > 0 ==> out@[0] == (sx, sy),
            out@.len() == 0 ==> stack@.len() <= 1,
            out@.len() <= n,
            answer == filled(e, w as int, h as int, cap_of(limit), stack@, seen@, out@),
        decreases n - out@.len(), stack@.len(),
    {
        let ghost old_stack: Seq<Pos> = stack@;
        let ghost old_out: Seq<Pos> = out@;
        let ghost old_seen: Seq<bool> = seen@;
        let ghost old_ks: Seq<int> = ks;
        let top: Option<Pos> = stack.pop();
        let p: Pos = match top {
            Some(p) => p,
            None => (0, 0),
        };
        assert(p == old_stack[old_stack.len() - 1]);
        assert(stack@ == old_stack.drop_last());
        let mut fresh: bool = false;
        proof {
            lemma_distinct_count(ks, n as int);
            assert(old_stack.last() == p);
        }
        if p.0 >= 0 && p.0 < w as i64 && p.1 >= 0 && p.1 < h as i64 {
            proof {
                lemma_flat(w as int, h as int, p.0 as int, p.1 as int);
                assert(0 <= (p.1 as int) * (w as int)) by (nonlinear_arith)
                    requires
                        0 <= p.1,
                        0 <= w,
                ;
            }
            let k: usize = (p.1 as usize) * w + (p.0 as usize);
            if !seen[k] {
                if open(p.0, p.1) {
                    fresh = true;
                    proof {
                        // the cell is new, so there is room for it
                        lemma_distinct_count(ks.push(k as int), n as int);
                        if pt(p) != start {
                            let i = choose|i: int|
                                0 <= i < old_out.len() && touching(
                                    pt(#[trigger] old_out[i]),
                                    pt(p),
                                );
                            lemma_walk_on(e, start, pt(old_out[i]), pt(p));
                        } else {
                            assert(walk(e, start, start, 0));
                        }
                        ks = ks.push(k as int);
                    }
                    seen[k] = true;
                    out.push(p);
                    stack.push((p.0, p.1 - 1));
                    stack.push((p.0, p.1 + 1));
                    stack.push((p.0 - 1, p.1));
                    stack.push((p.0 + 1, p.1));
                    proof {
                        assert(old_out.len() < n);
                        assert(stack@ =~= old_stack.drop_last().push((p.0, (p.1 - 1) as i64)).push(
                            (p.0, (p.1 + 1) as i64),
                        ).push(((p.0 - 1) as i64, p.1)).push(((p.0 + 1) as i64, p.1)));
                    }
                }
            }
        }
        proof {
            let dropped = old_stack.drop_last();
            let last = old_out.len() as int;
            assert forall|k2: int| 0 <= k2 < n && #[trigger] seen@[k2] implies exists|i: int|
                0 <= i < ks.len() && ks[i] == k2 by {
                if fresh && k2 == flat(w as int, p.0 as int, p.1 as int) {
                    assert(ks[last] == k2);
                } else {
                    assert(old_seen[k2]);
                    let i = choose|i: int| 0 <= i < old_ks.len() && old_ks[i] == k2;
                    assert(ks[i] == k2);
                }
            }
            // what the old lists held is still held, but for the popped cell
            assert forall|q: (int, int)| holds(old_out, q) implies holds(out@, q) by {
                let i = choose|i: int| 0 <= i < old_out.len() && pt(#[trigger] old_out[i]) == q;
                assert(out@[i] == old_out[i]);
            }
            assert forall|q: (int, int)| holds(old_stack, q) && q != pt(p) implies holds(
                stack@,
                q,
            ) by {
                let j = choose|j: int|
                    0 <= j < old_stack.len() && pt(#[trigger] old_stack[j]) == q;
                assert(j < old_stack.len() - 1);
                assert(stack@[j] == old_stack[j]);
            }
            if fresh {
                assert(out@[last] == p);
                assert(holds(out@, pt(p)));
                let m = dropped.len() as int;
                assert(stack@[m] == (p.0, (p.1 - 1) as i64));
                assert(stack@[m + 1] == (p.0, (p.1 + 1) as i64));
                assert(stack@[m + 2] == ((p.0 - 1) as i64, p.1));
                assert(stack@[m + 3] == ((p.0 + 1) as i64, p.1));
                assert forall|q: (int, int)| touching(pt(p), q) implies holds(stack@, q) by {
                    if q == pt(stack@[m]) {
                    } else if q == pt(stack@[m + 1]) {
                    } else if q == pt(stack@[m + 2]) {
                    } else {
                        assert(q == pt(stack@[m + 3]));
                    }
                }
                assert forall|j: int| 0 <= j < stack@.len() implies pt(#[trigger] stack@[j])
                    == start || exists|i: int|
                    0 <= i < out@.len() && touching(pt(#[trigger] out@[i]), pt(stack@[j])) by {
                    if j < m {
                        assert(stack@[j] == old_stack[j]);
                        if pt(old_stack[j]) != start {
                            let i = choose|i: int|
                                0 <= i < old_out.len() && touching(
                                    pt(#[trigger] old_out[i]),
                                    pt(old_stack[j]),
                                );
                            assert(out@[i] == old_out[i]);
                        }
                    } else {
                        assert(touching(pt(out@[last]), pt(stack@[j])));
                    }
                }
            } else {
                // a cell that was dropped is held already or is not eligible
                if e(p.0 as int, p.1 as int) {
                    let k = flat(w as int, p.0 as int, p.1 as int);
                    assert(seen@[k]);
                    let i = choose|i: int| 0 <= i < ks.len() && ks[i] == k;
                    lemma_flat(w as int, h as int, p.0 as int, p.1 as int);
                    lemma_flat(w as int, h as int, old_out[i].0 as int, old_out[i].1 as int);
                    assert(old_out[i] == p);
                    assert(holds(old_out, pt(p)));
                }
                assert forall|j: int| 0 <= j < stack@.len() implies pt(#[trigger] stack@[j])
                    == start || exists|i: int|
                    0 <= i < out@.len() && touching(pt(#[trigger] out@[i]), pt(stack@[j])) by {
                    assert(stack@[j] == old_stack[j]);
                }
            }
            assert forall|i: int, q: (int, int)|
                0 <= i < out@.len() && #[trigger] touching(pt(out@[i]), q) && e(
                    q.0,
                    q.1,
                ) implies holds(out@, q) || holds(stack@, q) by {
                if i < old_out.len() {
                    assert(out@[i] == old_out[i]);
                    assert(touching(pt(old_out[i]), q));
                }
            }
        }
    }
    proof {
        let done: bool = match limit {
            Some(l) => out@.len() < l,
            None => true,
        };
        if done {
            assert(stack@.len() == 0);
            assert forall|q: (int, int)| !holds(stack@, q) by {}
            assert(closed_under(e, out@));
            assert forall|b: (int, int)| joined(e, start, b) implies holds(out@, b) by {
                let m = choose|m: nat| walk(e, start, b, m);
                lemma_closed_holds_walk(e, start, out@, b, m);
            }
        }
        assert(all_differ(out@)) by {
            assert forall|i: int, j: int| 0 <= i < j < out@.len() implies out@[i] != out@[j] by {
                assert(ks[i] != ks[j]);
            }
        }
        lemma_distinct_count(ks, n as int);
    }
    out
}

} // verus!
