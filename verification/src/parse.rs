use crate::board::Pos;
use crate::cell::Booster;
use crate::puzzle::PuzzleInput;
use crate::raster::Input;
use vstd::prelude::*;
use vstd::slice::*;

verus! {

/// Whether the byte is one of the ten digits.
pub open spec fn digit_byte(b: u8) -> bool {
    48 <= b <= 57
}

/// The first place from `i` on that holds a digit; the end if none does.
pub open spec fn run_start(s: Seq<u8>, i: int) -> int
    decreases s.len() - i,
{
    if 0 <= i < s.len() && !digit_byte(s[i]) {
        run_start(s, i + 1)
    } else {
        i
    }
}

/// The first place from `i` on that holds no digit; the end if none does.
pub open spec fn run_end(s: Seq<u8>, i: int) -> int
    decreases s.len() - i,
{
    if 0 <= i < s.len() && digit_byte(s[i]) {
        run_end(s, i + 1)
    } else {
        i
    }
}

/// The number that the digits from `i` up to but without `j` stand for.
pub open spec fn run_value(s: Seq<u8>, i: int, j: int) -> nat
    decreases j - i,
{
    if j <= i {
        0
    } else {
        (run_value(s, i, j - 1) * 10 + (s[j - 1] - 48)) as nat
    }
}

/// The position that the text names: the first two numbers in it, each a run
/// of digits. Whatever stands before, between and after them is passed over.
/// There is none where the text holds fewer than two numbers, or where one of
/// the two does not fit in 64 bits.
pub open spec fn pos_of(s: Seq<u8>) -> Option<(int, int)> {
    let a = run_start(s, 0);
    let b = run_end(s, a);
    let c = run_start(s, b);
    let d = run_end(s, c);
    if a < s.len() && c < s.len() && run_value(s, a, b) <= i64::MAX && run_value(s, c, d)
        <= i64::MAX {
        Some((run_value(s, a, b) as int, run_value(s, c, d) as int))
    } else {
        None
    }
}

/// The first place from `i` on that holds the byte `c`; the end if none does.
pub open spec fn find(s: Seq<u8>, i: int, c: u8) -> int
    decreases s.len() - i,
{
    if 0 <= i < s.len() && s[i] != c {
        find(s, i + 1, c)
    } else {
        i
    }
}

/// Whether `),(` stands at the place `i`.
pub open spec fn joint_at(s: Seq<u8>, i: int) -> bool {
    0 <= i && i + 3 <= s.len() && s[i] == 41 && s[i + 1] == 44 && s[i + 2] == 40
}

/// The first place from `i` on at which `),(` stands; the end if there is none.
pub open spec fn find_joint(s: Seq<u8>, i: int) -> int
    decreases s.len() - i,
{
    if 0 <= i < s.len() && !joint_at(s, i) {
        find_joint(s, i + 1)
    } else {
        i
    }
}

/// How many bytes the white space at the place `i` takes, 0 where none stands
/// there: a blank, a tab, a line feed and the like, in UTF-8.
pub open spec fn space_at(s: Seq<u8>, i: int) -> int {
    if !(0 <= i < s.len()) {
        0
    } else if (9 <= s[i] <= 13) || s[i] == 32 {
        1
    } else if s[i] == 0xc2 && i + 1 < s.len() && (s[i + 1] == 0x85 || s[i + 1] == 0xa0) {
        2
    } else if i + 2 < s.len() && ((s[i] == 0xe1 && s[i + 1] == 0x9a && s[i + 2] == 0x80) || (s[i]
        == 0xe2 && s[i + 1] == 0x80 && (0x80 <= s[i + 2] <= 0x8a || s[i + 2] == 0xa8 || s[i + 2]
        == 0xa9 || s[i + 2] == 0xaf)) || (s[i] == 0xe2 && s[i + 1] == 0x81 && s[i + 2] == 0x9f)
        || (s[i] == 0xe3 && s[i + 1] == 0x80 && s[i + 2] == 0x80)) {
        3
    } else {
        0
    }
}

/// Whether white space alone stands from the place `i` on.
pub open spec fn blank_from(s: Seq<u8>, i: int) -> bool
    decreases s.len() - i,
{
    if i >= s.len() || i < 0 {
        true
    } else if space_at(s, i) > 0 {
        blank_from(s, i + space_at(s, i))
    } else {
        false
    }
}

/// Whether the text holds white space alone, or nothing.
pub open spec fn blank(s: Seq<u8>) -> bool {
    blank_from(s, 0)
}

/// The positions that the text from `i` on names: those of its pieces between
/// `),(`, but for the blank pieces. There are none where one of the pieces
/// names no position.
pub open spec fn pos_list_from(s: Seq<u8>, i: int) -> Option<Seq<(int, int)>>
    decreases s.len() - i,
{
    if i > s.len() || i < 0 {
        Some(Seq::empty())
    } else {
        let e = find_joint(s, i);
        let piece = s.subrange(i, e);
        let rest = if i <= e && e + 3 <= s.len() {
            pos_list_from(s, e + 3)
        } else {
            Some(Seq::empty())
        };
        if blank(piece) {
            rest
        } else {
            match (pos_of(piece), rest) {
                (Some(p), Some(r)) => Some(seq![p] + r),
                _ => None,
            }
        }
    }
}

/// The positions that the text names.
pub open spec fn pos_list_of(s: Seq<u8>) -> Option<Seq<(int, int)>> {
    pos_list_from(s, 0)
}

/// The lists of positions that the text from `i` on names: those of its
/// pieces between `;`, but for the blank pieces.
pub open spec fn pos_lists_from(s: Seq<u8>, i: int) -> Option<Seq<Seq<(int, int)>>>
    decreases s.len() - i,
{
    if i > s.len() || i < 0 {
        Some(Seq::empty())
    } else {
        let e = find(s, i, 59);
        let piece = s.subrange(i, e);
        let rest = if i <= e < s.len() {
            pos_lists_from(s, e + 1)
        } else {
            Some(Seq::empty())
        };
        if blank(piece) {
            rest
        } else {
            match (pos_list_of(piece), rest) {
                (Some(p), Some(r)) => Some(seq![p] + r),
                _ => None,
            }
        }
    }
}

/// The booster that the byte stands for.
pub open spec fn booster_byte(b: u8) -> Option<Booster> {
    if b == 66 {
        Some(Booster::B)
    } else if b == 70 {
        Some(Booster::F)
    } else if b == 76 {
        Some(Booster::L)
    } else if b == 88 {
        Some(Booster::X)
    } else if b == 82 {
        Some(Booster::R)
    } else if b == 67 {
        Some(Booster::C)
    } else {
        None
    }
}

/// The booster that the text names and where it lies: the letter of the
/// booster, then its position.
pub open spec fn booster_of(s: Seq<u8>) -> Option<(Booster, (int, int))> {
    if s.len() == 0 {
        None
    } else {
        match (booster_byte(s[0]), pos_of(s.subrange(1, s.len() as int))) {
            (Some(b), Some(p)) => Some((b, p)),
            _ => None,
        }
    }
}

/// The boosters that the text from `i` on names: those of its pieces between
/// `;`, but for the blank pieces.
pub open spec fn boosters_from(s: Seq<u8>, i: int) -> Option<Seq<(Booster, (int, int))>>
    decreases s.len() - i,
{
    if i > s.len() || i < 0 {
        Some(Seq::empty())
    } else {
        let e = find(s, i, 59);
        let piece = s.subrange(i, e);
        let rest = if i <= e < s.len() {
            boosters_from(s, e + 1)
        } else {
            Some(Seq::empty())
        };
        if blank(piece) {
            rest
        } else {
            match (booster_of(piece), rest) {
                (Some(p), Some(r)) => Some(seq![p] + r),
                _ => None,
            }
        }
    }
}

/// A task as it is read: the outline, the start, the obstacles, the boosters.
pub struct InputView {
    pub map: Seq<(int, int)>,
    pub init_pos: (int, int),
    pub obstacles: Seq<Seq<(int, int)>>,
    pub boosters: Seq<(Booster, (int, int))>,
}

/// The task that the text describes: four parts with `#` between them, the
/// outline of the room, the start, the obstacles and the boosters. What
/// follows a fourth `#` is passed over.
pub open spec fn input_of(s: Seq<u8>) -> Option<InputView> {
    let e0 = find(s, 0, 35);
    let e1 = find(s, e0 + 1, 35);
    let e2 = find(s, e1 + 1, 35);
    let e3 = find(s, e2 + 1, 35);
    if !(e0 < s.len() && e1 < s.len() && e2 < s.len()) {
        None
    } else {
        match (
            pos_list_of(s.subrange(0, e0)),
            pos_of(s.subrange(e0 + 1, e1)),
            pos_lists_from(s.subrange(e1 + 1, e2), 0),
            boosters_from(s.subrange(e2 + 1, e3), 0),
        ) {
            (Some(map), Some(init_pos), Some(obstacles), Some(boosters)) => Some(
                InputView { map, init_pos, obstacles, boosters },
            ),
            _ => None,
        }
    }
}

/// The positions as pairs of integers.
pub open spec fn points_of(v: Seq<Pos>) -> Seq<(int, int)> {
    Seq::new(v.len(), |i: int| (v[i].0 as int, v[i].1 as int))
}

/// The lists of positions as lists of pairs of integers.
pub open spec fn point_lists_of(v: Seq<Vec<Pos>>) -> Seq<Seq<(int, int)>> {
    Seq::new(v.len(), |i: int| points_of(v[i]@))
}

/// The boosters with their positions as pairs of integers.
pub open spec fn placed_of(v: Seq<(Booster, Pos)>) -> Seq<(Booster, (int, int))> {
    Seq::new(v.len(), |i: int| (v[i].0, (v[i].1.0 as int, v[i].1.1 as int)))
}

/// What the task holds.
pub open spec fn view_of(input: &Input) -> InputView {
    InputView {
        map: points_of(input.map@),
        init_pos: (input.init_pos.0 as int, input.init_pos.1 as int),
        obstacles: point_lists_of(input.obstacles@),
        boosters: placed_of(input.boosters@),
    }
}

/// Reads the run of digits that begins at or after `i`. Gives where it
/// begins and ends and the number that it stands for, unless that number does
/// not fit in 64 bits.
fn read_run(s: &[u8], i: usize) -> (r: (usize, usize, Option<i64>))
    requires
        i <= s@.len(),
    ensures
        r.0 == run_start(s@, i as int),
        r.1 == run_end(s@, r.0 as int),
        i <= r.0 <= r.1 <= s@.len(),
        r.0 < s@.len() ==> r.0 < r.1,
        match r.2 {
            Some(v) => v == run_value(s@, r.0 as int, r.1 as int),
            None => run_value(s@, r.0 as int, r.1 as int) > i64::MAX,
        },
{
    let n: usize = s.len();
    let mut a: usize = i;
    while a < n && !(s[a] >= 48 && s[a] <= 57)
        invariant
            i <= a <= n,
            n == s@.len(),
            run_start(s@, i as int) == run_start(s@, a as int),
        decreases n - a,
    {
        a = a + 1;
    }
    let mut b: usize = a;
    let mut v: u64 = 0;
    let mut over: bool = false;
    while b < n && s[b] >= 48 && s[b] <= 57
        invariant
            a <= b <= n,
            n == s@.len(),
            run_end(s@, a as int) == run_end(s@, b as int),
            !over ==> v == run_value(s@, a as int, b as int) && v <= i64::MAX,
            over ==> run_value(s@, a as int, b as int) > i64::MAX,
        decreases n - b,
    {
        let d: u64 = (s[b] - 48) as u64;
        if !over {
            if v > (0x7fff_ffff_ffff_ffffu64 - d) / 10 {
                over = true;
            } else {
                v = v * 10 + d;
            }
        } else {
            assert(run_value(s@, a as int, b + 1) >= run_value(s@, a as int, b as int));
        }
        b = b + 1;
    }
    if over {
        (a, b, None)
    } else {
        (a, b, Some(v as i64))
    }
}

/// Reads a position: the first two numbers in the text.
pub fn parse_pos(s: &[u8]) -> (r: Option<Pos>)
    ensures
        match r {
            Some(p) => pos_of(s@) == Some((p.0 as int, p.1 as int)),
            None => pos_of(s@) is None,
        },
{
    let n: usize = s.len();
    let first = read_run(s, 0);
    if first.0 >= n {
        assert(run_start(s@, first.1 as int) >= first.1);
        proof {
            lemma_run_start(s@, first.1 as int);
        }
        return None;
    }
    let second = read_run(s, first.1);
    if second.0 >= n {
        return None;
    }
    match (first.2, second.2) {
        (Some(x), Some(y)) => Some((x, y)),
        _ => None,
    }
}

/// A run begins at or after the place from which it is looked for.
pub proof fn lemma_run_start(s: Seq<u8>, i: int)
    requires
        0 <= i <= s.len(),
    ensures
        i <= run_start(s, i) <= s.len(),
    decreases s.len() - i,
{
    if i < s.len() && !digit_byte(s[i]) {
        lemma_run_start(s, i + 1);
    }
}

/// Finds the byte `c` at or after `i`.
fn find_byte(s: &[u8], i: usize, c: u8) -> (r: usize)
    requires
        i <= s@.len(),
    ensures
        r == find(s@, i as int, c),
        i <= r <= s@.len(),
        r < s@.len() ==> s@[r as int] == c,
{
    let n: usize = s.len();
    let mut k: usize = i;
    while k < n && s[k] != c
        invariant
            i <= k <= n,
            n == s@.len(),
            find(s@, i as int, c) == find(s@, k as int, c),
        decreases n - k,
    {
        k = k + 1;
    }
    k
}

/// Finds `),(` at or after `i`.
fn find_joint_in(s: &[u8], i: usize) -> (r: usize)
    requires
        i <= s@.len(),
    ensures
        r == find_joint(s@, i as int),
        i <= r <= s@.len(),
        r < s@.len() ==> r + 3 <= s@.len(),
{
    let n: usize = s.len();
    let mut k: usize = i;
    while k < n && !(n - k >= 3 && s[k] == 41 && s[k + 1] == 44 && s[k + 2] == 40)
        invariant
            i <= k <= n,
            n == s@.len(),
            find_joint(s@, i as int) == find_joint(s@, k as int),
        decreases n - k,
    {
        k = k + 1;
    }
    k
}

/// Whether the text holds white space alone, or nothing.
pub fn is_blank(s: &[u8]) -> (b: bool)
    ensures
        b == blank(s@),
{
    let n: usize = s.len();
    let mut i: usize = 0;
    while i < n
        invariant
            i <= n,
            n == s@.len(),
            blank(s@) == blank_from(s@, i as int),
        decreases n - i,
    {
        let c: u8 = s[i];
        let step: usize = if (c >= 9 && c <= 13) || c == 32 {
            1
        } else if c == 0xc2 && n - i >= 2 && (s[i + 1] == 0x85 || s[i + 1] == 0xa0) {
            2
        } else if n - i >= 3 && ((c == 0xe1 && s[i + 1] == 0x9a && s[i + 2] == 0x80) || (c == 0xe2
            && s[i + 1] == 0x80 && ((s[i + 2] >= 0x80 && s[i + 2] <= 0x8a) || s[i + 2] == 0xa8
            || s[i + 2] == 0xa9 || s[i + 2] == 0xaf)) || (c == 0xe2 && s[i + 1] == 0x81 && s[i
            + 2] == 0x9f) || (c == 0xe3 && s[i + 1] == 0x80 && s[i + 2] == 0x80)) {
            3
        } else {
            0
        };
        assert(step == space_at(s@, i as int));
        if step == 0 {
            return false;
        }
        i = i + step;
    }
    true
}

/// Reads a list of positions: `(x,y),(x,y)` and so on.
pub fn parse_pos_list(s: &[u8]) -> (r: Option<Vec<Pos>>)
    ensures
        match r {
            Some(v) => pos_list_of(s@) == Some(points_of(v@)),
            None => pos_list_of(s@) is None,
        },
{
    let n: usize = s.len();
    let mut out: Vec<Pos> = Vec::new();
    let mut i: usize = 0;
    loop
        invariant
            i <= n,
            n == s@.len(),
            forall|rest: Seq<(int, int)>|
                pos_list_from(s@, i as int) == Some(rest) ==> #[trigger] pos_list_of(s@) == Some(
                    points_of(out@) + rest,
                ),
            pos_list_from(s@, i as int) is None ==> pos_list_of(s@) is None,
        decreases n - i,
    {
        let e: usize = find_joint_in(s, i);
        let piece: &[u8] = slice_subrange(s, i, e);
        if !is_blank(piece) {
            match parse_pos(piece) {
                None => {
                    return None;
                },
                Some(p) => {
                    let ghost before: Seq<Pos> = out@;
                    out.push(p);
                    proof {
                        assert(points_of(out@) =~= points_of(before) + seq![
                            (p.0 as int, p.1 as int),
                        ]);
                        assert forall|rest: Seq<(int, int)>| #![auto]
                            points_of(before) + (seq![(p.0 as int, p.1 as int)] + rest)
                                == points_of(out@) + rest by {
                            assert(points_of(before) + (seq![(p.0 as int, p.1 as int)] + rest)
                                =~= points_of(out@) + rest);
                        }
                    }
                },
            }
        }
        if e >= n {
            proof {
                assert(points_of(out@) + Seq::<(int, int)>::empty() =~= points_of(out@));
            }
            return Some(out);
        }
        i = e + 3;
    }
}

/// Reads a list of lists of positions, with `;` between the lists.
pub fn parse_pos_list_list(s: &[u8]) -> (r: Option<Vec<Vec<Pos>>>)
    ensures
        match r {
            Some(v) => pos_lists_from(s@, 0) == Some(point_lists_of(v@)),
            None => pos_lists_from(s@, 0) is None,
        },
{
    let n: usize = s.len();
    let mut out: Vec<Vec<Pos>> = Vec::new();
    let mut i: usize = 0;
    loop
        invariant
            i <= n,
            n == s@.len(),
            forall|rest: Seq<Seq<(int, int)>>|
                pos_lists_from(s@, i as int) == Some(rest) ==> #[trigger] pos_lists_from(s@, 0)
                    == Some(point_lists_of(out@) + rest),
            pos_lists_from(s@, i as int) is None ==> pos_lists_from(s@, 0) is None,
        decreases n - i,
    {
        let e: usize = find_byte(s, i, 59);
        let piece: &[u8] = slice_subrange(s, i, e);
        if !is_blank(piece) {
            match parse_pos_list(piece) {
                None => {
                    return None;
                },
                Some(p) => {
                    let ghost before: Seq<Vec<Pos>> = out@;
                    let ghost pv: Seq<(int, int)> = points_of(p@);
                    out.push(p);
                    proof {
                        assert(point_lists_of(out@) =~= point_lists_of(before) + seq![pv]);
                        assert forall|rest: Seq<Seq<(int, int)>>| #![auto]
                            point_lists_of(before) + (seq![pv] + rest) == point_lists_of(out@)
                                + rest by {
                            assert(point_lists_of(before) + (seq![pv] + rest) =~= point_lists_of(
                                out@,
                            ) + rest);
                        }
                    }
                },
            }
        }
        if e >= n {
            proof {
                assert(point_lists_of(out@) + Seq::<Seq<(int, int)>>::empty() =~= point_lists_of(
                    out@,
                ));
            }
            return Some(out);
        }
        i = e + 1;
    }
}

/// Reads a booster: its letter, then its position.
pub fn parse_booster(s: &[u8]) -> (r: Option<(Booster, Pos)>)
    ensures
        match r {
            Some(b) => booster_of(s@) == Some((b.0, (b.1.0 as int, b.1.1 as int))),
            None => booster_of(s@) is None,
        },
{
    if s.len() == 0 {
        return None;
    }
    let c: u8 = s[0];
    let ty: Booster = if c == 66 {
        Booster::B
    } else if c == 70 {
        Booster::F
    } else if c == 76 {
        Booster::L
    } else if c == 88 {
        Booster::X
    } else if c == 82 {
        Booster::R
    } else if c == 67 {
        Booster::C
    } else {
        return None;
    };
    match parse_pos(slice_subrange(s, 1, s.len())) {
        Some(p) => Some((ty, p)),
        None => None,
    }
}

/// Reads a list of boosters, with `;` between them.
pub fn parse_booster_list(s: &[u8]) -> (r: Option<Vec<(Booster, Pos)>>)
    ensures
        match r {
            Some(v) => boosters_from(s@, 0) == Some(placed_of(v@)),
            None => boosters_from(s@, 0) is None,
        },
{
    let n: usize = s.len();
    let mut out: Vec<(Booster, Pos)> = Vec::new();
    let mut i: usize = 0;
    loop
        invariant
            i <= n,
            n == s@.len(),
            forall|rest: Seq<(Booster, (int, int))>|
                boosters_from(s@, i as int) == Some(rest) ==> #[trigger] boosters_from(s@, 0)
                    == Some(placed_of(out@) + rest),
            boosters_from(s@, i as int) is None ==> boosters_from(s@, 0) is None,
        decreases n - i,
    {
        let e: usize = find_byte(s, i, 59);
        let piece: &[u8] = slice_subrange(s, i, e);
        if !is_blank(piece) {
            match parse_booster(piece) {
                None => {
                    return None;
                },
                Some(p) => {
                    let ghost before: Seq<(Booster, Pos)> = out@;
                    let ghost pv: (Booster, (int, int)) = (p.0, (p.1.0 as int, p.1.1 as int));
                    out.push(p);
                    proof {
                        assert(placed_of(out@) =~= placed_of(before) + seq![pv]);
                        assert forall|rest: Seq<(Booster, (int, int))>| #![auto]
                            placed_of(before) + (seq![pv] + rest) == placed_of(out@) + rest by {
                            assert(placed_of(before) + (seq![pv] + rest) =~= placed_of(out@)
                                + rest);
                        }
                    }
                },
            }
        }
        if e >= n {
            proof {
                assert(placed_of(out@) + Seq::<(Booster, (int, int))>::empty() =~= placed_of(
                    out@,
                ));
            }
            return Some(out);
        }
        i = e + 1;
    }
}

/// Reads a task: the outline of the room, the start, the obstacles and the
/// boosters, with `#` between them.
pub fn parse_input(s: &[u8]) -> (r: Option<Input>)
    ensures
        match r {
            Some(input) => input_of(s@) == Some(view_of(&input)),
            None => input_of(s@) is None,
        },
{
    let n: usize = s.len();
    let e0: usize = find_byte(s, 0, 35);
    if e0 >= n {
        return None;
    }
    let e1: usize = find_byte(s, e0 + 1, 35);
    if e1 >= n {
        return None;
    }
    let e2: usize = find_byte(s, e1 + 1, 35);
    if e2 >= n {
        return None;
    }
    let e3: usize = find_byte(s, e2 + 1, 35);
    let map: Vec<Pos> = match parse_pos_list(slice_subrange(s, 0, e0)) {
        Some(v) => v,
        None => {
            return None;
        },
    };
    let init_pos: Pos = match parse_pos(slice_subrange(s, e0 + 1, e1)) {
        Some(v) => v,
        None => {
            return None;
        },
    };
    let obstacles: Vec<Vec<Pos>> = match parse_pos_list_list(slice_subrange(s, e1 + 1, e2)) {
        Some(v) => v,
        None => {
            return None;
        },
    };
    let boosters: Vec<(Booster, Pos)> = match parse_booster_list(slice_subrange(s, e2 + 1, e3)) {
        Some(v) => v,
        None => {
            return None;
        },
    };
    Some(Input { map, init_pos, obstacles, boosters })
}

/// The count that the text is: digits, with or without a plus sign before
/// them, and nothing else. There is none where the number does not fit.
pub open spec fn count_of(s: Seq<u8>) -> Option<nat> {
    let from: int = if s.len() > 0 && s[0] == 43 {
        1
    } else {
        0
    };
    if from < s.len() && run_end(s, from) == s.len() && run_value(s, from, s.len() as int)
        <= usize::MAX {
        Some(run_value(s, from, s.len() as int))
    } else {
        None
    }
}

/// The `k` counts that stand from `i` on with `,` between them. What follows
/// them is passed over.
pub open spec fn counts_from(s: Seq<u8>, i: int, k: nat) -> Option<Seq<nat>>
    decreases k,
{
    if k == 0 {
        Some(Seq::empty())
    } else if !(0 <= i <= s.len()) {
        None
    } else {
        let e = find(s, i, 44);
        let rest = if k == 1 {
            Some(Seq::empty())
        } else if e < s.len() {
            counts_from(s, e + 1, (k - 1) as nat)
        } else {
            None
        };
        match (count_of(s.subrange(i, e)), rest) {
            (Some(v), Some(r)) => Some(seq![v] + r),
            _ => None,
        }
    }
}

/// What is asked of a room, as it is read.
pub struct PuzzleView {
    pub counts: Seq<nat>,
    pub i_sqs: Seq<(int, int)>,
    pub o_sqs: Seq<(int, int)>,
}

/// What the text asks of a room: three parts with `#` between them, eleven
/// counts with `,` between them, the cells that the room must hold and the
/// cells that it must not hold. What follows a third `#` is passed over.
pub open spec fn puzzle_of(s: Seq<u8>) -> Option<PuzzleView> {
    let e0 = find(s, 0, 35);
    let e1 = find(s, e0 + 1, 35);
    let e2 = find(s, e1 + 1, 35);
    if !(e0 < s.len() && e1 < s.len()) {
        None
    } else {
        match (
            counts_from(s.subrange(0, e0), 0, 11),
            pos_list_of(s.subrange(e0 + 1, e1)),
            pos_list_of(s.subrange(e1 + 1, e2)),
        ) {
            (Some(counts), Some(i_sqs), Some(o_sqs)) => Some(PuzzleView { counts, i_sqs, o_sqs }),
            _ => None,
        }
    }
}

/// What is asked of the room.
pub open spec fn puzzle_view(p: &PuzzleInput) -> PuzzleView {
    PuzzleView {
        counts: seq![
            p.b_num as nat,
            p.e_num as nat,
            p.t_size as nat,
            p.v_min as nat,
            p.v_max as nat,
            p.m_num as nat,
            p.f_num as nat,
            p.d_num as nat,
            p.r_num as nat,
            p.c_num as nat,
            p.x_num as nat,
        ],
        i_sqs: points_of(p.i_sqs@),
        o_sqs: points_of(p.o_sqs@),
    }
}

/// Reads a count.
fn parse_count(s: &[u8]) -> (r: Option<usize>)
    ensures
        match r {
            Some(v) => count_of(s@) == Some(v as nat),
            None => count_of(s@) is None,
        },
{
    let n: usize = s.len();
    let from: usize = if n > 0 && s[0] == 43 {
        1
    } else {
        0
    };
    if from >= n {
        return None;
    }
    let mut b: usize = from;
    let mut v: usize = 0;
    let mut over: bool = false;
    while b < n && s[b] >= 48 && s[b] <= 57
        invariant
            from <= b <= n,
            n == s@.len(),
            run_end(s@, from as int) == run_end(s@, b as int),
            !over ==> v == run_value(s@, from as int, b as int),
            over ==> run_value(s@, from as int, b as int) > usize::MAX,
        decreases n - b,
    {
        let d: usize = (s[b] - 48) as usize;
        if !over {
            if v > (usize::MAX - d) / 10 {
                over = true;
            } else {
                v = v * 10 + d;
            }
        } else {
            assert(run_value(s@, from as int, b + 1) >= run_value(s@, from as int, b as int));
        }
        b = b + 1;
    }
    if b < n {
        return None;
    }
    if over {
        None
    } else {
        Some(v)
    }
}

/// Reads what is asked of a room: the counts, the cells that the room must
/// hold and the cells that it must not hold, with `#` between them.
pub fn parse_puzzle(s: &[u8]) -> (r: Option<PuzzleInput>)
    ensures
        match r {
            Some(p) => puzzle_of(s@) == Some(puzzle_view(&p)),
            None => puzzle_of(s@) is None,
        },
{
    let n: usize = s.len();
    let e0: usize = find_byte(s, 0, 35);
    if e0 >= n {
        return None;
    }
    let e1: usize = find_byte(s, e0 + 1, 35);
    if e1 >= n {
        return None;
    }
    let e2: usize = find_byte(s, e1 + 1, 35);
    let head: &[u8] = slice_subrange(s, 0, e0);
    let m: usize = head.len();
    let mut counts: Vec<usize> = Vec::new();
    let ghost mut done: Seq<nat> = Seq::empty();
    let mut i: usize = 0;
    let mut k: usize = 0;
    while k < 11
        invariant
            k <= 11,
            i <= m,
            m == head@.len(),
            counts@.len() == k,
            n == s@.len(),
            e0 == find(s@, 0, 35),
            e0 < n,
            e1 == find(s@, e0 + 1, 35),
            e1 < n,
            head@ == s@.subrange(0, e0 as int),
            done.len() == k,
            forall|j: int| 0 <= j < k ==> #[trigger] done[j] == counts@[j] as nat,
            forall|rest: Seq<nat>|
                counts_from(head@, i as int, (11 - k) as nat) == Some(rest) ==> #[trigger] counts_from(
                    head@,
                    0,
                    11,
                ) == Some(done + rest),
            counts_from(head@, i as int, (11 - k) as nat) is None ==> counts_from(head@, 0, 11)
                is None,
        decreases 11 - k,
    {
        let e: usize = find_byte(head, i, 44);
        let v: usize = match parse_count(slice_subrange(head, i, e)) {
            Some(v) => v,
            None => {
                return None;
            },
        };
        if k < 10 && e >= m {
            return None;
        }
        let ghost before: Seq<usize> = counts@;
        counts.push(v);
        proof {
            let more = done.push(v as nat);
            assert forall|rest: Seq<nat>| #![auto] done + (seq![v as nat] + rest) == more + rest by {
                assert(done + (seq![v as nat] + rest) =~= more + rest);
            }
            done = more;
        }
        k = k + 1;
        if k < 11 {
            i = e + 1;
        }
    }
    let i_sqs: Vec<Pos> = match parse_pos_list(slice_subrange(s, e0 + 1, e1)) {
        Some(v) => v,
        None => {
            return None;
        },
    };
    let o_sqs: Vec<Pos> = match parse_pos_list(slice_subrange(s, e1 + 1, e2)) {
        Some(v) => v,
        None => {
            return None;
        },
    };
    let p = PuzzleInput {
        b_num: counts[0],
        e_num: counts[1],
        t_size: counts[2],
        v_min: counts[3],
        v_max: counts[4],
        m_num: counts[5],
        f_num: counts[6],
        d_num: counts[7],
        r_num: counts[8],
        c_num: counts[9],
        x_num: counts[10],
        i_sqs,
        o_sqs,
    };
    proof {
        assert(done + Seq::<nat>::empty() =~= done);
        assert(done =~= puzzle_view(&p).counts);
    }
    Some(p)
}

} // verus!
