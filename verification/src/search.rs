use crate::board::{flat, lemma_flat, Pos};
use crate::region::{holds, lemma_distinct_count, pt, touching};
use crate::state::{is_order, unit};
use vstd::prelude::*;

verus! {

/// Whether `c` can be reached in at most `n` steps from one of the cells of
/// `seeds`, each step from one cell to a cell that shares a side with it and
/// that `pass` lets through.
pub open spec fn reach(pass: spec_fn(int, int) -> bool, seeds: Seq<Pos>, n: nat, c: (int, int)) -> bool
    decreases n,
{
    if n == 0 {
        holds(seeds, c)
    } else {
        reach(pass, seeds, (n - 1) as nat, c) || (pass(c.0, c.1) && exists|b: (int, int)|
            reach(pass, seeds, (n - 1) as nat, b) && #[trigger] touching(b, c))
    }
}

/// The position `c` moved by the offset `d`.
pub open spec fn shifted(c: Pos, d: Pos) -> (int, int) {
    (c.0 + d.0, c.1 + d.1)
}

/// A cell of the search with the seed from which the search came to it.
pub type Hop = (Pos, Pos);

/// Whether one of the hops stands at `c`.
pub open spec fn hops_hold(s: Seq<Hop>, c: (int, int)) -> bool {
    exists|j: int| 0 <= j < s.len() && pt((#[trigger] s[j]).0) == c
}

/// Whether the cell is on the grid and flagged.
pub open spec fn marked(w: int, h: int, bits: Seq<bool>, c: (int, int)) -> bool {
    0 <= c.0 < w && 0 <= c.1 < h && bits[flat(w, c.0, c.1)]
}

/// Whether each hop stands on the grid at a flagged cell within `k` steps of
/// its seed, which is one of the seeds.
pub open spec fn hops_sound(
    pass: spec_fn(int, int) -> bool,
    seeds: Seq<Pos>,
    w: int,
    h: int,
    bits: Seq<bool>,
    s: Seq<Hop>,
    k: nat,
) -> bool {
    forall|j: int|
        0 <= j < s.len() ==> {
            let hop = #[trigger] s[j];
            &&& marked(w, h, bits, pt(hop.0))
            &&& holds(seeds, pt(hop.1))
            &&& reach(pass, seq![hop.1], k, pt(hop.0))
            &&& reach(pass, seeds, k, pt(hop.0))
        }
}

/// Whether no cell of `done` is wanted and every cell next to one that may be
/// passed is flagged.
pub open spec fn done_closed(
    pass: spec_fn(int, int) -> bool,
    want: spec_fn(int, int) -> bool,
    w: int,
    h: int,
    bits: Seq<bool>,
    done: Set<(int, int)>,
) -> bool {
    &&& forall|c: (int, int)| #[trigger] done.contains(c) ==> !want(c.0, c.1)
    &&& forall|c: (int, int), q: (int, int)|
        done.contains(c) && #[trigger] touching(c, q) && pass(q.0, q.1) ==> marked(w, h, bits, q)
}

/// What is within reach stays within reach when more steps are allowed.
pub proof fn lemma_reach_more(
    pass: spec_fn(int, int) -> bool,
    seeds: Seq<Pos>,
    n: nat,
    m: nat,
    c: (int, int),
)
    requires
        reach(pass, seeds, n, c),
        n <= m,
    ensures
        reach(pass, seeds, m, c),
    decreases m - n,
{
    if n < m {
        lemma_reach_more(pass, seeds, n, (m - 1) as nat, c);
    }
}

/// What is within reach of one of the seeds is within reach of the seeds.
pub proof fn lemma_reach_of_seed(
    pass: spec_fn(int, int) -> bool,
    seeds: Seq<Pos>,
    root: Pos,
    n: nat,
    c: (int, int),
)
    requires
        holds(seeds, pt(root)),
        reach(pass, seq![root], n, c),
    ensures
        reach(pass, seeds, n, c),
    decreases n,
{
    if n == 0 {
        let j = choose|j: int| 0 <= j < seq![root].len() && pt(#[trigger] seq![root][j]) == c;
        assert(seq![root][j] == root);
    } else if reach(pass, seq![root], (n - 1) as nat, c) {
        lemma_reach_of_seed(pass, seeds, root, (n - 1) as nat, c);
    } else {
        let b = choose|b: (int, int)|
            reach(pass, seq![root], (n - 1) as nat, b) && #[trigger] touching(b, c);
        lemma_reach_of_seed(pass, seeds, root, (n - 1) as nat, b);
    }
}

/// Where every seed is done and every cell next to a done one that may be
/// passed is done too, everything within reach is done.
pub proof fn lemma_closed_holds_reach(
    pass: spec_fn(int, int) -> bool,
    seeds: Seq<Pos>,
    done: Set<(int, int)>,
    n: nat,
    c: (int, int),
)
    requires
        forall|s: (int, int)| holds(seeds, s) ==> done.contains(s),
        forall|a: (int, int), q: (int, int)|
            done.contains(a) && #[trigger] touching(a, q) && pass(q.0, q.1) ==> done.contains(q),
        reach(pass, seeds, n, c),
    ensures
        done.contains(c),
    decreases n,
{
    if n == 0 {
    } else if reach(pass, seeds, (n - 1) as nat, c) {
        lemma_closed_holds_reach(pass, seeds, done, (n - 1) as nat, c);
    } else {
        let b = choose|b: (int, int)|
            reach(pass, seeds, (n - 1) as nat, b) && #[trigger] touching(b, c);
        lemma_closed_holds_reach(pass, seeds, done, (n - 1) as nat, b);
        assert(touching(b, c));
    }
}

/// A direction order holds every direction.
pub proof fn lemma_order_has_all(v: Seq<Pos>, d: Pos)
    requires
        is_order(v),
        unit(d),
    ensures
        exists|j: int| 0 <= j < 4 && v[j] == d,
{
    assert(unit(v[0]) && unit(v[1]) && unit(v[2]) && unit(v[3]));
    assert(v[0] != v[1] && v[0] != v[2] && v[0] != v[3] && v[1] != v[2] && v[1] != v[3] && v[2]
        != v[3]);
    if v[0] != d && v[1] != d && v[2] != d && v[3] != d {
        assert(false);
    }
}

/// What a search found.
pub struct Found {
    /// The seed from which the search came to the goal.
    pub root: Pos,
    /// The number of steps from that seed to the goal.
    pub steps: usize,
    /// The goal.
    pub goal: Pos,
}

/// The flags and the cells to start from after the seeds from the `s`-th on
/// were flagged: each seed that was not flagged is, and is a cell to start
/// from, found from itself.
pub open spec fn sown(w: int, seeds: Seq<Pos>, s: int, bits: Seq<bool>, cur: Seq<Hop>) -> (
    Seq<bool>,
    Seq<Hop>,
)
    decreases seeds.len() - s,
{
    if s < 0 || s >= seeds.len() {
        (bits, cur)
    } else {
        let p = seeds[s];
        let f = flat(w, p.0 as int, p.1 as int);
        if !bits[f] {
            sown(w, seeds, s + 1, bits.update(f, true), cur.push((p, p)))
        } else {
            sown(w, seeds, s + 1, bits, cur)
        }
    }
}

/// The flags and the cells of the next level after the search went on from
/// the cell `c`, found from the seed `root`, in the directions from the `d`-th
/// on: each cell beside `c` on the grid that may be passed and was not flagged
/// is flagged and is a cell of the next level, found from `root`.
pub open spec fn fanned(
    pass: spec_fn(int, int) -> bool,
    w: int,
    h: int,
    order: Seq<Pos>,
    c: Pos,
    root: Pos,
    d: int,
    bits: Seq<bool>,
    next: Seq<Hop>,
) -> (Seq<bool>, Seq<Hop>)
    decreases 4 - d,
{
    if d < 0 || d >= 4 {
        (bits, next)
    } else {
        let q = shifted(c, order[d]);
        let f = flat(w, q.0, q.1);
        if 0 <= q.0 < w && 0 <= q.1 < h && pass(q.0, q.1) && !bits[f] {
            fanned(
                pass,
                w,
                h,
                order,
                c,
                root,
                d + 1,
                bits.update(f, true),
                next.push(((q.0 as i64, q.1 as i64), root)),
            )
        } else {
            fanned(pass, w, h, order, c, root, d + 1, bits, next)
        }
    }
}

/// What the search makes of the cells of one level from the `i`-th on: the
/// first of them that is wanted, if the search comes to one; the flags; and
/// the cells of the next level, as far as they were found.
pub open spec fn combed(
    pass: spec_fn(int, int) -> bool,
    want: spec_fn(int, int) -> bool,
    w: int,
    h: int,
    order: Seq<Pos>,
    cur: Seq<Hop>,
    i: int,
    bits: Seq<bool>,
    next: Seq<Hop>,
    level: int,
) -> (Option<Found>, Seq<bool>, Seq<Hop>)
    decreases cur.len() - i,
{
    if i < 0 || i >= cur.len() {
        (None, bits, next)
    } else if want(cur[i].0.0 as int, cur[i].0.1 as int) {
        (Some(Found { root: cur[i].1, steps: level as usize, goal: cur[i].0 }), bits, next)
    } else {
        let t = fanned(pass, w, h, order, cur[i].0, cur[i].1, 0, bits, next);
        combed(pass, want, w, h, order, cur, i + 1, t.0, t.1, level)
    }
}

/// What the search answers when it has come to the cells `cur`, which lie
/// `level` steps from the seeds: the first of them that is wanted, else what
/// it answers from the cells of the next level.
pub open spec fn hunted(
    pass: spec_fn(int, int) -> bool,
    want: spec_fn(int, int) -> bool,
    w: int,
    h: int,
    order: Seq<Pos>,
    cur: Seq<Hop>,
    bits: Seq<bool>,
    level: int,
) -> Option<Found>
    decreases w * h - level,
{
    if cur.len() == 0 || level < 0 || level >= w * h {
        None
    } else {
        let t = combed(pass, want, w, h, order, cur, 0, bits, Seq::empty(), level);
        if t.0 is Some {
            t.0
        } else {
            hunted(pass, want, w, h, order, t.2, t.1, level + 1)
        }
    }
}

/// What a breadth-first search from `seeds` on a grid of `w` by `h` cells
/// answers: the first wanted cell that it comes to when it looks at the seeds
/// in their order, then at the cells one step from them, and so on, going on
/// from each cell in the directions of `order`.
pub open spec fn searched(
    pass: spec_fn(int, int) -> bool,
    want: spec_fn(int, int) -> bool,
    w: int,
    h: int,
    seeds: Seq<Pos>,
    order: Seq<Pos>,
) -> Option<Found> {
    let start = sown(w, seeds, 0, Seq::new((w * h) as nat, |k: int| false), Seq::empty());
    hunted(pass, want, w, h, order, start.1, start.0, 0)
}

/// Whether `r` is what a search from `seeds` may answer: a wanted cell that is
/// `steps` steps from one of the seeds, with no wanted cell any nearer to a
/// seed; or nothing, where no wanted cell is within reach at all.
pub open spec fn is_nearest(
    pass: spec_fn(int, int) -> bool,
    want: spec_fn(int, int) -> bool,
    seeds: Seq<Pos>,
    r: Option<Found>,
) -> bool {
    match r {
        Some(f) => {
            &&& want(f.goal.0 as int, f.goal.1 as int)
            &&& holds(seeds, pt(f.root))
            &&& reach(pass, seq![f.root], f.steps as nat, pt(f.goal))
            &&& reach(pass, seeds, f.steps as nat, pt(f.goal))
            &&& forall|m: nat, c: (int, int)|
                m < f.steps && #[trigger] reach(pass, seeds, m, c) ==> !want(c.0, c.1)
        },
        None => forall|m: nat, c: (int, int)| #[trigger] reach(pass, seeds, m, c) ==> !want(
            c.0,
            c.1,
        ),
    }
}

/// Searches breadth first from the seeds for the nearest wanted cell.
///
/// The seeds are looked at in their order, then the cells one step from them,
/// and so on; from each cell the search goes on in the directions of `order`
/// to the cells on the grid that may be passed. The first wanted cell that is
/// looked at is the answer.
pub fn first_hit<P: Fn(i64, i64) -> bool, G: Fn(i64, i64) -> bool>(
    w: usize,
    h: usize,
    seeds: &Vec<Pos>,
    order: &Vec<Pos>,
    passable: P,
    goal: G,
    Ghost(pass): Ghost<spec_fn(int, int) -> bool>,
    Ghost(want): Ghost<spec_fn(int, int) -> bool>,
) -> (r: Option<Found>)
    requires
        1 <= w <= crate::board::MAX_SIDE,
        1 <= h <= crate::board::MAX_SIDE,
        w * h <= usize::MAX,
        is_order(order@),
        forall|j: int|
            0 <= j < seeds@.len() ==> 0 <= (#[trigger] seeds@[j]).0 < w && 0 <= seeds@[j].1 < h,
        forall|x: i64, y: i64| 0 <= x < w && 0 <= y < h ==> call_requires(passable, (x, y)),
        forall|x: i64, y: i64| 0 <= x < w && 0 <= y < h ==> call_requires(goal, (x, y)),
        forall|x: i64, y: i64, b: bool|
            0 <= x < w && 0 <= y < h && call_ensures(passable, (x, y), b) ==> b == pass(
                x as int,
                y as int,
            ),
        forall|x: i64, y: i64, b: bool|
            0 <= x < w && 0 <= y < h && call_ensures(goal, (x, y), b) ==> b == want(
                x as int,
                y as int,
            ),
        forall|x: int, y: int| #[trigger] pass(x, y) ==> 0 <= x < w && 0 <= y < h,
    ensures
        is_nearest(pass, want, seeds@, r),
        r matches Some(f) ==> f.steps < w * h,
        r == searched(pass, want, w as int, h as int, seeds@, order@),
{
    let n: usize = w * h;
    let mut bits: Vec<bool> = vec![false; n];
    let mut cur: Vec<Hop> = Vec::new();
    let ghost mut ks: Seq<int> = Seq::empty();
    let ghost wi: int = w as int;
    let ghost hi: int = h as int;
    let ghost answer: Option<Found> = searched(pass, want, wi, hi, seeds@, order@);
    proof {
        assert(bits@ =~= Seq::new((wi * hi) as nat, |k: int| false));
        assert(cur@ =~= Seq::<Hop>::empty());
        assert forall|c: (int, int)| !marked(wi, hi, bits@, c) by {
            if 0 <= c.0 < wi && 0 <= c.1 < hi {
                lemma_flat(wi, hi, c.0, c.1);
            }
        }
    }
    // the seeds, each once
    let mut s: usize = 0;
    while s < seeds.len()
        invariant
            s <= seeds@.len(),
            wi == w,
            hi == h,
            1 <= w <= crate::board::MAX_SIDE,
            1 <= h <= crate::board::MAX_SIDE,
            n == w * h,
            bits@.len() == n,
            forall|j: int|
                0 <= j < seeds@.len() ==> 0 <= (#[trigger] seeds@[j]).0 < w && 0 <= seeds@[j].1
                    < h,
            ks.no_duplicates(),
            ks.len() == cur@.len(),
            forall|i: int| 0 <= i < ks.len() ==> 0 <= #[trigger] ks[i] < n && bits@[ks[i]],
            hops_sound(pass, seeds@, wi, hi, bits@, cur@, 0),
            forall|c: (int, int)| #[trigger] marked(wi, hi, bits@, c) ==> hops_hold(cur@, c),
            forall|j: int| 0 <= j < s ==> hops_hold(cur@, pt(#[trigger] seeds@[j])),
            ({
                let start = sown(wi, seeds@, s as int, bits@, cur@);
                answer == hunted(pass, want, wi, hi, order@, start.1, start.0, 0)
            }),
        decreases seeds@.len() - s,
    {
        let p: Pos = seeds[s];
        proof {
            lemma_flat(wi, hi, p.0 as int, p.1 as int);
            assert(0 <= (p.1 as int) * wi) by (nonlinear_arith)
                requires
                    0 <= p.1,
                    0 <= wi,
            ;
        }
        let f: usize = (p.1 as usize) * w + (p.0 as usize);
        let ghost old_cur: Seq<Hop> = cur@;
        let ghost old_bits: Seq<bool> = bits@;
        if !bits[f] {
            proof {
                lemma_distinct_count(ks.push(f as int), n as int);
                ks = ks.push(f as int);
            }
            bits[f] = true;
            cur.push((p, p));
            proof {
                let last = old_cur.len() as int;
                assert(cur@[last] == (p, p));
                assert(seq![p][0] == p);
                assert(holds(seq![p], pt(p)));
                assert(seeds@[s as int] == p);
                assert(holds(seeds@, pt(p)));
                assert forall|c: (int, int)| marked(wi, hi, bits@, c) implies hops_hold(
                    cur@,
                    c,
                ) by {
                    if marked(wi, hi, old_bits, c) {
                        let j = choose|j: int|
                            0 <= j < old_cur.len() && pt((#[trigger] old_cur[j]).0) == c;
                        assert(cur@[j] == old_cur[j]);
                    } else {
                        lemma_flat(wi, hi, c.0, c.1);
                        assert(c == pt(p));
                    }
                }
                assert forall|j: int| 0 <= j < cur@.len() implies ({
                    let hop = #[trigger] cur@[j];
                    &&& marked(wi, hi, bits@, pt(hop.0))
                    &&& holds(seeds@, pt(hop.1))
                    &&& reach(pass, seq![hop.1], 0, pt(hop.0))
                    &&& reach(pass, seeds@, 0, pt(hop.0))
                }) by {
                    if j < last {
                        assert(cur@[j] == old_cur[j]);
                        assert(marked(wi, hi, old_bits, pt(old_cur[j].0)));
                        lemma_flat(wi, hi, old_cur[j].0.0 as int, old_cur[j].0.1 as int);
                    }
                }
            }
        }
        proof {
            assert(marked(wi, hi, bits@, pt(p)));
            assert forall|j: int| 0 <= j < s + 1 implies hops_hold(cur@, pt(#[trigger] seeds@[j])) by {
                if j < s {
                    let i = choose|i: int|
                        0 <= i < old_cur.len() && pt((#[trigger] old_cur[i]).0) == pt(seeds@[j]);
                    assert(cur@[i] == old_cur[i]);
                }
            }
        }
        s = s + 1;
    }
    let mut level: usize = 0;
    let ghost mut done: Set<(int, int)> = Set::empty();
    proof {
        assert forall|c: (int, int)| reach(pass, seeds@, 0, c) implies done.contains(c)
            || hops_hold(cur@.skip(0), c) by {
            let j = choose|j: int| 0 <= j < seeds@.len() && pt(#[trigger] seeds@[j]) == c;
            assert(hops_hold(cur@, pt(seeds@[j])));
            assert(cur@.skip(0) =~= cur@);
        }
        assert(cur@.skip(0) =~= cur@);
    }
    while cur.len() > 0
        invariant
            wi == w,
            hi == h,
            1 <= w <= crate::board::MAX_SIDE,
            1 <= h <= crate::board::MAX_SIDE,
            n == w * h,
            bits@.len() == n,
            is_order(order@),
            forall|x: i64, y: i64| 0 <= x < w && 0 <= y < h ==> call_requires(passable, (x, y)),
            forall|x: i64, y: i64| 0 <= x < w && 0 <= y < h ==> call_requires(goal, (x, y)),
            forall|x: i64, y: i64, b: bool|
                0 <= x < w && 0 <= y < h && call_ensures(passable, (x, y), b) ==> b == pass(
                    x as int,
                    y as int,
                ),
            forall|x: i64, y: i64, b: bool|
                0 <= x < w && 0 <= y < h && call_ensures(goal, (x, y), b) ==> b == want(
                    x as int,
                    y as int,
                ),
            forall|x: int, y: int| #[trigger] pass(x, y) ==> 0 <= x < w && 0 <= y < h,
            ks.no_duplicates(),
            forall|i: int| 0 <= i < ks.len() ==> 0 <= #[trigger] ks[i] < n && bits@[ks[i]],
            level + cur@.len() <= ks.len(),
            hops_sound(pass, seeds@, wi, hi, bits@, cur@, level as nat),
            done_closed(pass, want, wi, hi, bits@, done),
            forall|c: (int, int)| #[trigger]
                marked(wi, hi, bits@, c) ==> done.contains(c) || hops_hold(cur@, c),
            forall|c: (int, int)|
                #[trigger] reach(pass, seeds@, level as nat, c) ==> done.contains(c) || hops_hold(
                    cur@,
                    c,
                ),
            forall|m: nat, c: (int, int)|
                m < level && #[trigger] reach(pass, seeds@, m, c) ==> !want(c.0, c.1),
            forall|c: (int, int)| #[trigger]
                holds(seeds@, c) ==> done.contains(c) || hops_hold(cur@, c),
            answer == searched(pass, want, wi, hi, seeds@, order@),
            answer == hunted(pass, want, wi, hi, order@, cur@, bits@, level as int),
        decreases n - ks.len(), cur@.len(),
    {
        let mut next: Vec<Hop> = Vec::new();
        let mut i: usize = 0;
        let ghost ks0: Seq<int> = ks;
        let ghost first_bits: Seq<bool> = bits@;
        assert(cur@.skip(0) =~= cur@);
        assert(next@ =~= Seq::<Hop>::empty());
        while i < cur.len()
            invariant
                i <= cur@.len(),
                cur@.len() > 0,
                wi == w,
                hi == h,
                1 <= w <= crate::board::MAX_SIDE,
                1 <= h <= crate::board::MAX_SIDE,
                n == w * h,
                bits@.len() == n,
                is_order(order@),
                forall|x: i64, y: i64|
                    0 <= x < w && 0 <= y < h ==> call_requires(passable, (x, y)),
                forall|x: i64, y: i64| 0 <= x < w && 0 <= y < h ==> call_requires(goal, (x, y)),
                forall|x: i64, y: i64, b: bool|
                    0 <= x < w && 0 <= y < h && call_ensures(passable, (x, y), b) ==> b == pass(
                        x as int,
                        y as int,
                    ),
                forall|x: i64, y: i64, b: bool|
                    0 <= x < w && 0 <= y < h && call_ensures(goal, (x, y), b) ==> b == want(
                        x as int,
                        y as int,
                    ),
                forall|x: int, y: int| #[trigger] pass(x, y) ==> 0 <= x < w && 0 <= y < h,
                ks.no_duplicates(),
                forall|q: int| 0 <= q < ks.len() ==> 0 <= #[trigger] ks[q] < n && bits@[ks[q]],
                ks.len() == ks0.len() + next@.len(),
                level + cur@.len() <= ks0.len(),
                hops_sound(pass, seeds@, wi, hi, bits@, cur@, level as nat),
                hops_sound(pass, seeds@, wi, hi, bits@, next@, (level + 1) as nat),
                done_closed(pass, want, wi, hi, bits@, done),
                forall|c: (int, int)| #[trigger]
                    marked(wi, hi, bits@, c) ==> done.contains(c) || hops_hold(
                        cur@.skip(i as int),
                        c,
                    ) || hops_hold(next@, c),
                forall|c: (int, int)|
                    #[trigger] reach(pass, seeds@, level as nat, c) ==> done.contains(c)
                        || hops_hold(cur@.skip(i as int), c),
                forall|m: nat, c: (int, int)|
                    m < level && #[trigger] reach(pass, seeds@, m, c) ==> !want(c.0, c.1),
                forall|c: (int, int)| #[trigger]
                    holds(seeds@, c) ==> done.contains(c) || hops_hold(cur@.skip(i as int), c),
                answer == searched(pass, want, wi, hi, seeds@, order@),
                answer == hunted(pass, want, wi, hi, order@, cur@, first_bits, level as int),
                combed(pass, want, wi, hi, order@, cur@, i as int, bits@, next@, level as int)
                    == combed(
                    pass,
                    want,
                    wi,
                    hi,
                    order@,
                    cur@,
                    0,
                    first_bits,
                    Seq::empty(),
                    level as int,
                ),
            decreases cur@.len() - i,
        {
            let hop: Hop = cur[i];
            let c: Pos = hop.0;
            let root: Pos = hop.1;
            assert(marked(wi, hi, bits@, pt(c)));
            if goal(c.0, c.1) {
                proof {
                    lemma_distinct_count(ks, n as int);
                    assert(want(cur@[i as int].0.0 as int, cur@[i as int].0.1 as int));
                    let here = combed(
                        pass,
                        want,
                        wi,
                        hi,
                        order@,
                        cur@,
                        i as int,
                        bits@,
                        next@,
                        level as int,
                    );
                    assert(here.0 == Some(Found { root, steps: level, goal: c }));
                    assert(level < wi * hi);
                    assert(n == wi * hi);
                }
                return Some(Found { root, steps: level, goal: c });
            }
            let ghost bits0: Seq<bool> = bits@;
            let ghost next0: Seq<Hop> = next@;
            let mut d: usize = 0;
            while d < 4
                invariant
                    d <= 4,
                    i < cur@.len(),
                    hop == cur@[i as int],
                    c == hop.0,
                    root == hop.1,
                    !want(c.0 as int, c.1 as int),
                    wi == w,
                    hi == h,
                    1 <= w <= crate::board::MAX_SIDE,
                    1 <= h <= crate::board::MAX_SIDE,
                    n == w * h,
                    bits@.len() == n,
                    is_order(order@),
                    forall|x: i64, y: i64|
                        0 <= x < w && 0 <= y < h ==> call_requires(passable, (x, y)),
                    forall|x: i64, y: i64, b: bool|
                        0 <= x < w && 0 <= y < h && call_ensures(passable, (x, y), b) ==> b
                            == pass(x as int, y as int),
                    forall|x: int, y: int| #[trigger] pass(x, y) ==> 0 <= x < w && 0 <= y < h,
                    ks.no_duplicates(),
                    forall|q: int| 0 <= q < ks.len() ==> 0 <= #[trigger] ks[q] < n && bits@[ks[q]],
                    ks.len() == ks0.len() + next@.len(),
                    level <= ks0.len(),
                    hops_sound(pass, seeds@, wi, hi, bits@, cur@, level as nat),
                    hops_sound(pass, seeds@, wi, hi, bits@, next@, (level + 1) as nat),
                    done_closed(pass, want, wi, hi, bits@, done),
                    forall|q: (int, int)| #[trigger]
                        marked(wi, hi, bits@, q) ==> done.contains(q) || hops_hold(
                            cur@.skip(i as int),
                            q,
                        ) || hops_hold(next@, q),
                    forall|q: int|
                        0 <= q < d && pass(shifted(c, order@[q]).0, shifted(c, order@[q]).1)
                            ==> marked(wi, hi, bits@, #[trigger] shifted(c, order@[q])),
                    fanned(pass, wi, hi, order@, c, root, d as int, bits@, next@) == fanned(
                        pass,
                        wi,
                        hi,
                        order@,
                        c,
                        root,
                        0,
                        bits0,
                        next0,
                    ),
                decreases 4 - d,
            {
                let dv: Pos = order[d];
                assert(unit(order@[d as int]));
                let qx: i64 = c.0 + dv.0;
                let qy: i64 = c.1 + dv.1;
                let ghost bits1: Seq<bool> = bits@;
                let ghost next1: Seq<Hop> = next@;
                proof {
                    assert(shifted(c, order@[d as int]) == (qx as int, qy as int));
                    if 0 <= qx < w && 0 <= qy < h {
                        lemma_flat(wi, hi, qx as int, qy as int);
                    }
                }
                if qx >= 0 && qx < w as i64 && qy >= 0 && qy < h as i64 {
                    if passable(qx, qy) {
                        proof {
                            lemma_flat(wi, hi, qx as int, qy as int);
                            assert(0 <= (qy as int) * wi) by (nonlinear_arith)
                                requires
                                    0 <= qy,
                                    0 <= wi,
                            ;
                        }
                        let f: usize = (qy as usize) * w + (qx as usize);
                        if !bits[f] {
                            proof {
                                lemma_distinct_count(ks.push(f as int), n as int);
                                ks = ks.push(f as int);
                            }
                            bits[f] = true;
                            next.push(((qx, qy), root));
                            proof {
                                let last = next1.len() as int;
                                assert(next@[last] == ((qx, qy), root));
                                assert(touching(pt(c), (qx as int, qy as int)));
                                assert(reach(pass, seq![root], (level + 1) as nat, (
                                    qx as int,
                                    qy as int,
                                )));
                                lemma_reach_of_seed(pass, seeds@, root, (level + 1) as nat, (
                                    qx as int,
                                    qy as int,
                                ));
                                lemma_marks_grow(pass, seeds@, wi, hi, bits1, bits@, f as int,
                                    cur@, level as nat);
                                lemma_marks_grow(pass, seeds@, wi, hi, bits1, bits@, f as int,
                                    next1, (level + 1) as nat);
                                assert forall|j: int| 0 <= j < next@.len() implies ({
                                    let hp = #[trigger] next@[j];
                                    &&& marked(wi, hi, bits@, pt(hp.0))
                                    &&& holds(seeds@, pt(hp.1))
                                    &&& reach(pass, seq![hp.1], (level + 1) as nat, pt(hp.0))
                                    &&& reach(pass, seeds@, (level + 1) as nat, pt(hp.0))
                                }) by {
                                    if j < last {
                                        assert(next@[j] == next1[j]);
                                    }
                                }
                                assert forall|q: (int, int)|
                                    marked(wi, hi, bits@, q) implies done.contains(q) || hops_hold(
                                    cur@.skip(i as int),
                                    q,
                                ) || hops_hold(next@, q) by {
                                    if marked(wi, hi, bits1, q) {
                                        if hops_hold(next1, q) {
                                            let j = choose|j: int|
                                                0 <= j < next1.len() && pt(
                                                    (#[trigger] next1[j]).0,
                                                ) == q;
                                            assert(next@[j] == next1[j]);
                                        }
                                    } else {
                                        lemma_flat(wi, hi, q.0, q.1);
                                        assert(q == (qx as int, qy as int));
                                        assert(pt(next@[last].0) == q);
                                    }
                                }
                                assert(done_closed(pass, want, wi, hi, bits@, done)) by {
                                    assert forall|a: (int, int), q: (int, int)|
                                        done.contains(a) && #[trigger] touching(a, q) && pass(
                                            q.0,
                                            q.1,
                                        ) implies marked(wi, hi, bits@, q) by {
                                        assert(marked(wi, hi, bits1, q));
                                        lemma_flat(wi, hi, q.0, q.1);
                                    }
                                }
                            }
                        }
                    }
                }
                proof {
                    assert forall|q: int|
                        0 <= q < d + 1 && pass(
                            shifted(c, order@[q]).0,
                            shifted(c, order@[q]).1,
                        ) implies marked(wi, hi, bits@, #[trigger] shifted(c, order@[q])) by {
                        let t = shifted(c, order@[q]);
                        if q < d {
                            assert(marked(wi, hi, bits1, t));
                        } else {
                            assert(t == (qx as int, qy as int));
                        }
                        lemma_flat(wi, hi, t.0, t.1);
                    }
                }
                d = d + 1;
            }
            proof {
                assert(!want(cur@[i as int].0.0 as int, cur@[i as int].0.1 as int));
                assert(fanned(pass, wi, hi, order@, c, root, 4, bits@, next@) == (bits@, next@));
            }
            proof {
                // the cell is done: it is not wanted and what lies next to it is flagged
                let cc = pt(c);
                let old_done = done;
                done = done.insert(cc);
                assert forall|a: (int, int), q: (int, int)|
                    done.contains(a) && #[trigger] touching(a, q) && pass(q.0, q.1) implies marked(
                    wi,
                    hi,
                    bits@,
                    q,
                ) by {
                    if a == cc {
                        let dd: Pos = ((q.0 - cc.0) as i64, (q.1 - cc.1) as i64);
                        assert(unit(dd));
                        lemma_order_has_all(order@, dd);
                        let j = choose|j: int| 0 <= j < 4 && order@[j] == dd;
                        assert(shifted(c, order@[j]) == q);
                    }
                }
                let rest0 = cur@.skip(i as int);
                let rest1 = cur@.skip(i + 1);
                assert forall|q: (int, int)| hops_hold(rest0, q) implies q == cc || hops_hold(
                    rest1,
                    q,
                ) by {
                    let j = choose|j: int| 0 <= j < rest0.len() && pt((#[trigger] rest0[j]).0) == q;
                    if j > 0 {
                        assert(rest1[j - 1] == rest0[j]);
                    }
                }
            }
            i = i + 1;
        }
        proof {
            // one level further: everything within `level` steps is done
            let lv = level as nat;
            assert(cur@.skip(cur@.len() as int) =~= Seq::<Hop>::empty());
            assert forall|c: (int, int)| #[trigger]
                reach(pass, seeds@, lv, c) implies done.contains(c) by {}
            assert forall|c: (int, int)| #[trigger]
                reach(pass, seeds@, (lv + 1) as nat, c) implies done.contains(c) || hops_hold(
                next@,
                c,
            ) by {
                if !reach(pass, seeds@, lv, c) {
                    let b = choose|b: (int, int)|
                        reach(pass, seeds@, lv, b) && #[trigger] touching(b, c);
                    assert(done.contains(b));
                    assert(touching(b, c));
                    assert(marked(wi, hi, bits@, c));
                }
            }
            assert forall|m: nat, c: (int, int)|
                m < level + 1 && #[trigger] reach(pass, seeds@, m, c) implies !want(c.0, c.1) by {
                lemma_reach_more(pass, seeds@, m, lv, c);
                assert(done.contains(c));
            }
            lemma_distinct_count(ks, n as int);
            assert(answer == hunted(pass, want, wi, hi, order@, next@, bits@, level + 1));
        }
        if next.len() == 0 {
            proof {
                assert(hunted(pass, want, wi, hi, order@, next@, bits@, level + 1) is None);
                assert forall|m: nat, c: (int, int)| #[trigger]
                    reach(pass, seeds@, m, c) implies !want(c.0, c.1) by {
                    assert forall|a: (int, int), q: (int, int)|
                        done.contains(a) && #[trigger] touching(a, q) && pass(
                            q.0,
                            q.1,
                        ) implies done.contains(q) by {
                        assert(marked(wi, hi, bits@, q));
                    }
                    lemma_closed_holds_reach(pass, seeds@, done, m, c);
                }
            }
            return None;
        }
        cur = next;
        level = level + 1;
    }
    proof {
        assert forall|m: nat, c: (int, int)| #[trigger]
            reach(pass, seeds@, m, c) implies !want(c.0, c.1) by {
            assert forall|a: (int, int), q: (int, int)|
                done.contains(a) && #[trigger] touching(a, q) && pass(q.0, q.1) implies done.contains(
                q,
            ) by {
                assert(marked(wi, hi, bits@, q));
            }
            lemma_closed_holds_reach(pass, seeds@, done, m, c);
        }
    }
    None
}

/// Flags once set stay set, so hops that were sound stay sound when one more
/// cell is flagged.
pub proof fn lemma_marks_grow(
    pass: spec_fn(int, int) -> bool,
    seeds: Seq<Pos>,
    w: int,
    h: int,
    before: Seq<bool>,
    after: Seq<bool>,
    f: int,
    s: Seq<Hop>,
    k: nat,
)
    requires
        after == before.update(f, true),
        0 <= f < before.len(),
        hops_sound(pass, seeds, w, h, before, s, k),
        before.len() == w * h,
        w > 0,
    ensures
        hops_sound(pass, seeds, w, h, after, s, k),
{
    assert forall|j: int| 0 <= j < s.len() implies ({
        let hop = #[trigger] s[j];
        &&& marked(w, h, after, pt(hop.0))
        &&& holds(seeds, pt(hop.1))
        &&& reach(pass, seq![hop.1], k, pt(hop.0))
        &&& reach(pass, seeds, k, pt(hop.0))
    }) by {
        let hop = s[j];
        assert(marked(w, h, before, pt(hop.0)));
        lemma_flat(w, h, hop.0.0 as int, hop.0.1 as int);
    }
}

} // verus!
