use crate::board::lemma_unflat;
use crate::cell::Cell;
use crate::region::{joined, lemma_walk_ends, touching, walk};
use crate::state::{count_owner, State};
use vstd::prelude::*;

verus! {

/// A robot that paints only cells that are painted already leaves the count
/// of cells to paint as it is.
pub proof fn law_repaint_keeps_count(
    pre: State,
    post: State,
    i: int,
    x: int,
    y: int,
    detect_island: bool,
)
    requires
        post.moved(&pre, i, x, y, detect_island),
        forall|cx: int, cy: int| pre.hits(i, x, y, cx, cy) ==> pre.bd.at(cx, cy).painted(),
    ensures
        post.rest == pre.rest,
{
    assert forall|c: (int, int)| !pre.fresh_cells(i, x, y).contains(c) by {
        if pre.hits(i, x, y, c.0, c.1) {
            assert(pre.bd.at(c.0, c.1).painted());
        }
    }
    assert(pre.fresh_cells(i, x, y) =~= Set::empty());
}

/// A robot that moves to the cell on which it has just arrived paints
/// nothing new: the count of cells to paint stays as the first move left it.
pub proof fn law_move_twice(pre: State, mid: State, post: State, i: int, x: int, y: int, d1: bool, d2: bool)
    requires
        pre.wf(),
        0 <= i < pre.robots@.len(),
        pre.bd.has(x, y),
        mid.moved(&pre, i, x, y, d1),
        post.moved(&mid, i, x, y, d2),
    ensures
        post.rest == mid.rest,
{
    assert forall|cx: int, cy: int| mid.hits(i, x, y, cx, cy) implies mid.bd.at(cx, cy).painted() by {
        let m = choose|m: int|
            0 <= m < mid.robots@[i].manips@.len() && #[trigger] mid.hit_by(i, x, y, m, cx, cy);
        mid.bd.lemma_sees_same(&pre.bd, x, y, cx, cy);
        assert(pre.hit_by(i, x, y, m, cx, cy));
        assert(pre.hits(i, x, y, cx, cy));
    }
    law_repaint_keeps_count(mid, post, i, x, y, d2);
}

/// Cells that agree on whom they are reserved for count the same.
pub proof fn lemma_count_owner_same(a: Seq<Cell>, b: Seq<Cell>, i: int)
    requires
        a.len() == b.len(),
        forall|k: int| 0 <= k < a.len() ==> (#[trigger] a[k]).owner_code() == b[k].owner_code(),
    ensures
        count_owner(a, i) == count_owner(b, i),
    decreases a.len(),
{
    if a.len() > 0 {
        assert(a.last().owner_code() == b.last().owner_code());
        assert forall|k: int| 0 <= k < a.drop_last().len() implies (
        #[trigger] a.drop_last()[k]).owner_code() == b.drop_last()[k].owner_code() by {
            assert(a.drop_last()[k] == a[k]);
        }
        lemma_count_owner_same(a.drop_last(), b.drop_last(), i);
    }
}

/// Where every cell reserved for the robot in `a` is reserved for it in `b`,
/// `b` counts no fewer.
pub proof fn lemma_count_owner_more(a: Seq<Cell>, b: Seq<Cell>, i: int)
    requires
        a.len() == b.len(),
        forall|k: int|
            0 <= k < a.len() && (#[trigger] a[k]).owner_code() == i + 1 ==> b[k].owner_code() == i
                + 1,
    ensures
        count_owner(a, i) <= count_owner(b, i),
    decreases a.len(),
{
    if a.len() > 0 {
        assert(a.last() == a[a.len() - 1]);
        assert forall|k: int|
            0 <= k < a.drop_last().len() && (#[trigger] a.drop_last()[k]).owner_code() == i
                + 1 implies b.drop_last()[k].owner_code() == i + 1 by {
            assert(a.drop_last()[k] == a[k]);
        }
        lemma_count_owner_more(a.drop_last(), b.drop_last(), i);
    }
}

/// A walk through cells of `e` is a walk through cells of `f`, if `f` holds
/// every cell that can be reached from the start through `e`.
pub proof fn lemma_walk_within(
    e: spec_fn(int, int) -> bool,
    f: spec_fn(int, int) -> bool,
    a: (int, int),
    b: (int, int),
    n: nat,
)
    requires
        forall|c: (int, int)| #[trigger] joined(e, a, c) ==> f(c.0, c.1),
        walk(e, a, b, n),
    ensures
        walk(f, a, b, n),
    decreases n,
{
    assert(joined(e, a, b));
    if n == 0 {
    } else if walk(e, a, b, (n - 1) as nat) {
        lemma_walk_within(e, f, a, b, (n - 1) as nat);
    } else {
        let c = choose|c: (int, int)| walk(e, a, c, (n - 1) as nat) && #[trigger] touching(c, b);
        lemma_walk_within(e, f, a, c, (n - 1) as nat);
        assert(walk(f, a, c, (n - 1) as nat) && touching(c, b));
    }
}

/// A walk through cells of `f` stays in a set that holds its start and every
/// cell of `f` next to one of its own.
pub proof fn lemma_walk_stays(
    f: spec_fn(int, int) -> bool,
    inside: spec_fn((int, int)) -> bool,
    a: (int, int),
    b: (int, int),
    n: nat,
)
    requires
        f(a.0, a.1) ==> inside(a),
        forall|c: (int, int), q: (int, int)|
            inside(c) && #[trigger] touching(c, q) && f(q.0, q.1) ==> inside(q),
        walk(f, a, b, n),
    ensures
        inside(b),
    decreases n,
{
    if n == 0 {
    } else if walk(f, a, b, (n - 1) as nat) {
        lemma_walk_stays(f, inside, a, b, (n - 1) as nat);
    } else {
        let c = choose|c: (int, int)| walk(f, a, c, (n - 1) as nat) && #[trigger] touching(c, b);
        lemma_walk_stays(f, inside, a, c, (n - 1) as nat);
        assert(touching(c, b));
    }
}

/// A flood fill that claims reserves no more cells than its threshold allows:
/// the number of cells reserved for the robot grows by what the fill returns,
/// and that is no more than the threshold.
pub proof fn law_claim_is_bounded(
    pre: State,
    post: State,
    x: int,
    y: int,
    i: int,
    diff: bool,
    th: int,
    r: int,
)
    requires
        pre.wf(),
        post.wf(),
        0 <= i < pre.robots@.len(),
        0 <= th,
        post.flooded(&pre, x, y, i, true, diff, 0, th, r),
    ensures
        post.bd.reserved(i) == pre.bd.reserved(i) + r,
        0 <= r <= th,
{
}

/// A probe that found an island smaller than the threshold, its release and
/// the claim that follows reserve the same cells as the probe did.
///
/// This is stated for a probe that starts on a cell that is not reserved for
/// the robot, where no cell next to the island is reserved for it either.
pub proof fn law_probe_release_claim(
    s0: State,
    s1: State,
    s2: State,
    s3: State,
    x: int,
    y: int,
    i: int,
    th: int,
    r1: int,
    r2: int,
    r3: int,
)
    requires
        s0.wf(),
        s1.wf(),
        s2.wf(),
        s3.wf(),
        0 <= i < s0.robots@.len(),
        s1.flooded(&s0, x, y, i, true, false, 0, th, r1),
        r1 < th,
        s2.flooded(&s1, x, y, i, false, false, 0, th, r2),
        s3.flooded(&s2, x, y, i, true, true, 0, th, r3),
        !s0.bd.held(i)(x, y),
        forall|c: (int, int), q: (int, int)|
            joined(s0.bd.free(), (x, y), c) && #[trigger] touching(c, q) ==> !s0.bd.held(i)(
                q.0,
                q.1,
            ),
    ensures
        r3 == r1,
        forall|cx: int, cy: int|
            s0.bd.has(cx, cy) ==> (#[trigger] s3.bd.at(cx, cy)).owner_code() == s1.bd.at(
                cx,
                cy,
            ).owner_code() && s3.bd.at(cx, cy).same_but_owner(s1.bd.at(cx, cy)),
{
    let start = (x, y);
    let e0 = s0.bd.free();
    let h1 = s1.bd.held(i);
    let e2 = s2.bd.free();
    let island = |c: (int, int)| joined(e0, start, c);
    // every cell of the island is reserved after the probe
    assert forall|c: (int, int)| #[trigger] joined(e0, start, c) implies h1(c.0, c.1) by {
        let n = choose|n: nat| walk(e0, start, c, n);
        lemma_walk_ends(e0, start, c, n);
        assert(s1.bd.at(c.0, c.1).owner_code() == i + 1);
        let a = s0.bd.at(c.0, c.1);
        let b = s1.bd.at(c.0, c.1);
        assert(b == a || b.same_but_owner(a));
    }
    // what the release frees is the island
    assert forall|c: (int, int)| joined(h1, start, c) <==> joined(e0, start, c) by {
        if joined(e0, start, c) {
            let n = choose|n: nat| walk(e0, start, c, n);
            lemma_walk_within(e0, h1, start, c, n);
        }
        if joined(h1, start, c) {
            let n = choose|n: nat| walk(h1, start, c, n);
            lemma_walk_ends(h1, start, c, n);
            assert(h1(x, y));
            // the start is reserved after the probe, so it was free before
            if !e0(x, y) {
                if joined(e0, start, start) {
                    let m = choose|m: nat| walk(e0, start, start, m);
                    lemma_walk_ends(e0, start, start, m);
                }
                assert(s1.bd.at(x, y) == s0.bd.at(x, y));
                assert(false);
            }
            assert(walk(e0, start, start, 0));
            assert(island(start));
            assert forall|p: (int, int), q: (int, int)|
                island(p) && #[trigger] touching(p, q) && h1(q.0, q.1) implies island(q) by {
                let qa = s0.bd.at(q.0, q.1);
                let qb = s1.bd.at(q.0, q.1);
                if qb == qa {
                    assert(s0.bd.held(i)(q.0, q.1));
                } else {
                    assert(joined(e0, start, q));
                }
            }
            lemma_walk_stays(h1, island, start, c, n);
        }
    }
    // after the release every cell is reserved for whom it was before the probe
    assert forall|cx: int, cy: int| s0.bd.has(cx, cy) implies (#[trigger] s2.bd.at(
        cx,
        cy,
    )).owner_code() == s0.bd.at(cx, cy).owner_code() && s2.bd.at(cx, cy).same_but_owner(
        s0.bd.at(cx, cy),
    ) by {
        let a = s0.bd.at(cx, cy);
        let b = s1.bd.at(cx, cy);
        let c = s2.bd.at(cx, cy);
        if joined(e0, start, (cx, cy)) {
            let n = choose|n: nat| walk(e0, start, (cx, cy), n);
            lemma_walk_ends(e0, start, (cx, cy), n);
            assert(joined(h1, start, (cx, cy)));
        } else {
            assert(!joined(h1, start, (cx, cy)));
        }
    }
    assert forall|u: int, v: int| #[trigger] e2(u, v) == e0(u, v) by {
        if s0.bd.has(u, v) {
            assert(s2.bd.at(u, v).same_but_owner(s0.bd.at(u, v)));
        }
    }
    assert(e2 =~= e0);
    // the claim reserves cells of the island only, so it does not stop early
    let w = s0.bd.w as int;
    let h = s0.bd.h as int;
    assert forall|k: int|
        0 <= k < s3.bd.cells@.len() && (#[trigger] s3.bd.cells@[k]).owner_code() == i
            + 1 implies s1.bd.cells@[k].owner_code() == i + 1 by {
        lemma_unflat(w, h, k);
        let cx = k % w;
        let cy = k / w;
        assert(s3.bd.at(cx, cy) == s3.bd.cells@[k]);
        assert(s2.bd.at(cx, cy) == s2.bd.cells@[k]);
        assert(s1.bd.at(cx, cy) == s1.bd.cells@[k]);
        assert(s0.bd.at(cx, cy) == s0.bd.cells@[k]);
        let c2 = s2.bd.at(cx, cy);
        let c3 = s3.bd.at(cx, cy);
        if c3 == c2 {
            assert(s0.bd.at(cx, cy).owner_code() == i + 1);
            assert(!joined(e0, start, (cx, cy))) by {
                if joined(e0, start, (cx, cy)) {
                    let n = choose|n: nat| walk(e0, start, (cx, cy), n);
                    lemma_walk_ends(e0, start, (cx, cy), n);
                }
            }
        } else {
            assert(joined(e2, start, (cx, cy)));
        }
    }
    lemma_count_owner_more(s3.bd.cells@, s1.bd.cells@, i);
    assert forall|k: int| 0 <= k < s2.bd.cells@.len() implies (
    #[trigger] s2.bd.cells@[k]).owner_code() == s0.bd.cells@[k].owner_code() by {
        lemma_unflat(w, h, k);
        let cx = k % w;
        let cy = k / w;
        assert(s2.bd.at(cx, cy) == s2.bd.cells@[k]);
        assert(s0.bd.at(cx, cy) == s0.bd.cells@[k]);
    }
    lemma_count_owner_same(s2.bd.cells@, s0.bd.cells@, i);
    assert(r3 <= r1);
    assert forall|cx: int, cy: int| s0.bd.has(cx, cy) implies (#[trigger] s3.bd.at(
        cx,
        cy,
    )).owner_code() == s1.bd.at(cx, cy).owner_code() && s3.bd.at(cx, cy).same_but_owner(
        s1.bd.at(cx, cy),
    ) by {
        let a = s0.bd.at(cx, cy);
        let b = s1.bd.at(cx, cy);
        let c = s2.bd.at(cx, cy);
        let d = s3.bd.at(cx, cy);
        if joined(e0, start, (cx, cy)) {
            assert(joined(e2, start, (cx, cy)));
        }
    }
    assert forall|k: int| 0 <= k < s3.bd.cells@.len() implies (
    #[trigger] s3.bd.cells@[k]).owner_code() == s1.bd.cells@[k].owner_code() by {
        lemma_unflat(w, h, k);
        let cx = k % w;
        let cy = k / w;
        assert(s3.bd.at(cx, cy) == s3.bd.cells@[k]);
        assert(s1.bd.at(cx, cy) == s1.bd.cells@[k]);
    }
    lemma_count_owner_same(s3.bd.cells@, s1.bd.cells@, i);
}

/// Where the first robot finds nothing left to paint and no cell is reserved
/// for it, nothing is left within its reach: the cell on which it stands and
/// every cell that it can walk or jump to, if it is a cell of the board and no
/// wall, is painted.
pub proof fn law_nothing_left(end: State, m: nat, c: (int, int))
    requires
        end.nearest_is(0, crate::target::Goal::Unpainted, None),
        end.robots@[0].prios == 0,
        c == (end.robots@[0].x as int, end.robots@[0].y as int) || crate::search::reach(
            end.bd.open_cells(),
            end.first_steps(0),
            m,
            c,
        ),
        end.bd.has(c.0, c.1),
        !end.bd.at(c.0, c.1).wall(),
    ensures
        end.bd.at(c.0, c.1).painted(),
{
}

} // verus!
