use crate::codec::{all_writable, law_read_is_written, law_round_trip, lemma_text_ascii};
use crate::command::{all_wf, Command, Solution};
use crate::encode::{encoded, text, views, writable};
use vstd::prelude::*;
use vstd::string::*;

verus! {

/// Whether the character is one of the ten digits.
pub open spec fn is_digit(c: char) -> bool {
    '0' <= c <= '9'
}

/// The value of a digit.
pub open spec fn digit_value(c: char) -> int {
    c as int - '0' as int
}

/// Where the run of digits that starts at `i` ends.
pub open spec fn digits_end(s: Seq<char>, i: int) -> int
    decreases s.len() - i,
{
    if 0 <= i < s.len() && is_digit(s[i]) {
        digits_end(s, i + 1)
    } else {
        i
    }
}

/// The number that the digits from `i` up to but without `j` stand for.
pub open spec fn value_of(s: Seq<char>, i: int, j: int) -> nat
    decreases j - i,
{
    if j <= i {
        0
    } else {
        (value_of(s, i, j - 1) * 10 + digit_value(s[j - 1])) as nat
    }
}

/// The largest absolute value of a number that is read.
pub open spec fn most_digits_value(neg: bool) -> int {
    if neg {
        0x8000_0000_0000_0000
    } else {
        0x7fff_ffff_ffff_ffff
    }
}

/// The number that stands at `i`, and where it ends: digits, with a minus sign
/// before them for a negative number. A number has no needless zero before it
/// and no minus sign before a zero, and it fits in 64 bits.
pub open spec fn scan_number(s: Seq<char>, i: int) -> Option<(int, int)> {
    let neg = 0 <= i < s.len() && s[i] == '-';
    let from = if neg {
        i + 1
    } else {
        i
    };
    let to = digits_end(s, from);
    let v = value_of(s, from, to);
    if to == from {
        None
    } else if s[from] == '0' && to > from + 1 {
        None
    } else if neg && v == 0 {
        None
    } else if v > most_digits_value(neg) {
        None
    } else if neg {
        Some((-v, to))
    } else {
        Some((v as int, to))
    }
}

/// The two numbers in round brackets that stand at `i`, and where they end.
pub open spec fn scan_pair(s: Seq<char>, i: int) -> Option<((int, int), int)> {
    if !(0 <= i < s.len() && s[i] == '(') {
        None
    } else {
        match scan_number(s, i + 1) {
            None => None,
            Some((a, j)) => if !(j < s.len() && s[j] == ',') {
                None
            } else {
                match scan_number(s, j + 1) {
                    None => None,
                    Some((b, k)) => if !(k < s.len() && s[k] == ')') {
                        None
                    } else {
                        Some(((a, b), k + 1))
                    },
                }
            },
        }
    }
}

/// The command that stands at `i`, and where it ends.
pub open spec fn scan_token(s: Seq<char>, i: int) -> Option<(Command, int)> {
    if !(0 <= i < s.len()) {
        None
    } else if s[i] == 'W' {
        Some((Command::Move(0, 1), i + 1))
    } else if s[i] == 'S' {
        Some((Command::Move(0, -1i64), i + 1))
    } else if s[i] == 'A' {
        Some((Command::Move(-1i64, 0), i + 1))
    } else if s[i] == 'D' {
        Some((Command::Move(1, 0), i + 1))
    } else if s[i] == 'Z' {
        Some((Command::Nop, i + 1))
    } else if s[i] == 'E' {
        Some((Command::Turn(true), i + 1))
    } else if s[i] == 'Q' {
        Some((Command::Turn(false), i + 1))
    } else if s[i] == 'F' {
        Some((Command::AttachWheel, i + 1))
    } else if s[i] == 'L' {
        Some((Command::StartDrill, i + 1))
    } else if s[i] == 'R' {
        Some((Command::SetPortal, i + 1))
    } else if s[i] == 'C' {
        Some((Command::Clone, i + 1))
    } else if s[i] == 'B' {
        match scan_pair(s, i + 1) {
            Some(((a, b), j)) => Some((Command::AttachManip(a as i64, b as i64), j)),
            None => None,
        }
    } else if s[i] == 'T' {
        match scan_pair(s, i + 1) {
            Some(((a, b), j)) => Some((Command::Teleport(a as i64, b as i64), j)),
            None => None,
        }
    } else {
        None
    }
}

/// The commands of the turn that begins at `i`, and where the turn ends: at
/// the next `#` or at the end.
pub open spec fn scan_turn(s: Seq<char>, i: int) -> Option<(Seq<Command>, int)>
    decreases s.len() - i,
{
    if i >= s.len() || i < 0 || s[i] == '#' {
        Some((Seq::empty(), i))
    } else {
        match scan_token(s, i) {
            None => None,
            Some((c, j)) => if j <= i {
                None
            } else {
                match scan_turn(s, j) {
                    None => None,
                    Some((rest, k)) => Some((seq![c] + rest, k)),
                }
            },
        }
    }
}

/// The turns that begin at `i` and go on to the end.
pub open spec fn scan_all(s: Seq<char>, i: int) -> Option<Seq<Seq<Command>>>
    decreases s.len() - i,
{
    match scan_turn(s, i) {
        None => None,
        Some((turn, j)) => if j >= s.len() || j < i {
            Some(seq![turn])
        } else {
            match scan_all(s, j + 1) {
                None => None,
                Some(rest) => Some(seq![turn] + rest),
            }
        },
    }
}

/// The character at the place `i` of a string of ASCII characters.
fn at(s: &str, i: usize) -> (c: char)
    requires
        s.is_ascii(),
        i < s@.len(),
    ensures
        c == s@[i as int],
{
    let b: u8 = s.get_ascii(i);
    b as char
}

/// Reads the number that stands at `i`.
fn read_number(s: &str, n: usize, i: usize) -> (r: Option<(i64, usize)>)
    requires
        s.is_ascii(),
        n == s@.len(),
        i <= n,
    ensures
        match r {
            Some((v, j)) => scan_number(s@, i as int) == Some((v as int, j as int)) && i < j <= n,
            None => scan_number(s@, i as int) is None,
        },
{
    let neg: bool = i < n && at(s, i) == '-';
    let from: usize = if neg {
        i + 1
    } else {
        i
    };
    let limit: u64 = if neg {
        0x8000_0000_0000_0000
    } else {
        0x7fff_ffff_ffff_ffff
    };
    let mut k: usize = from;
    let mut v: u64 = 0;
    let mut over: bool = false;
    while k < n && is_digit_char(at(s, k))
        invariant
            from <= k <= n,
            n == s@.len(),
            s.is_ascii(),
            digits_end(s@, from as int) == digits_end(s@, k as int),
            limit == most_digits_value(neg),
            !over ==> v == value_of(s@, from as int, k as int) && v <= limit,
            over ==> value_of(s@, from as int, k as int) > limit,
        decreases n - k,
    {
        let c: char = at(s, k);
        let d: u64 = (c as u8 - 48) as u64;
        assert(d == digit_value(c));
        if !over {
            if v > (limit - d) / 10 {
                over = true;
            } else {
                v = v * 10 + d;
            }
        } else {
            assert(value_of(s@, from as int, k + 1) >= value_of(s@, from as int, k as int));
        }
        k = k + 1;
    }
    if k == from {
        return None;
    }
    if at(s, from) == '0' && k > from + 1 {
        return None;
    }
    if over {
        return None;
    }
    if neg && v == 0 {
        return None;
    }
    if neg {
        if v == 0x8000_0000_0000_0000 {
            Some((i64::MIN, k))
        } else {
            Some((-(v as i64), k))
        }
    } else {
        Some((v as i64, k))
    }
}

/// Whether the character is one of the ten digits.
fn is_digit_char(c: char) -> (b: bool)
    ensures
        b == is_digit(c),
{
    c >= '0' && c <= '9'
}

/// Reads the two numbers in round brackets that stand at `i`.
fn read_pair(s: &str, n: usize, i: usize) -> (r: Option<((i64, i64), usize)>)
    requires
        s.is_ascii(),
        n == s@.len(),
        i <= n,
    ensures
        match r {
            Some(((a, b), j)) => scan_pair(s@, i as int) == Some(((a as int, b as int), j as int))
                && i < j <= n,
            None => scan_pair(s@, i as int) is None,
        },
{
    if !(i < n && at(s, i) == '(') {
        return None;
    }
    match read_number(s, n, i + 1) {
        None => None,
        Some((a, j)) => {
            if !(j < n && at(s, j) == ',') {
                return None;
            }
            match read_number(s, n, j + 1) {
                None => None,
                Some((b, k)) => {
                    if !(k < n && at(s, k) == ')') {
                        return None;
                    }
                    Some(((a, b), k + 1))
                },
            }
        },
    }
}

/// Reads the command that stands at `i`.
fn read_token(s: &str, n: usize, i: usize) -> (r: Option<(Command, usize)>)
    requires
        s.is_ascii(),
        n == s@.len(),
        i < n,
    ensures
        match r {
            Some((c, j)) => scan_token(s@, i as int) == Some((c, j as int)) && i < j <= n,
            None => scan_token(s@, i as int) is None,
        },
{
    let c: char = at(s, i);
    if c == 'W' {
        Some((Command::Move(0, 1), i + 1))
    } else if c == 'S' {
        Some((Command::Move(0, -1), i + 1))
    } else if c == 'A' {
        Some((Command::Move(-1, 0), i + 1))
    } else if c == 'D' {
        Some((Command::Move(1, 0), i + 1))
    } else if c == 'Z' {
        Some((Command::Nop, i + 1))
    } else if c == 'E' {
        Some((Command::Turn(true), i + 1))
    } else if c == 'Q' {
        Some((Command::Turn(false), i + 1))
    } else if c == 'F' {
        Some((Command::AttachWheel, i + 1))
    } else if c == 'L' {
        Some((Command::StartDrill, i + 1))
    } else if c == 'R' {
        Some((Command::SetPortal, i + 1))
    } else if c == 'C' {
        Some((Command::Clone, i + 1))
    } else if c == 'B' {
        match read_pair(s, n, i + 1) {
            Some(((a, b), j)) => Some((Command::AttachManip(a, b), j)),
            None => None,
        }
    } else if c == 'T' {
        match read_pair(s, n, i + 1) {
            Some(((a, b), j)) => Some((Command::Teleport(a, b), j)),
            None => None,
        }
    } else {
        None
    }
}

/// Reads the turn that begins at `i`.
fn read_turn(s: &str, n: usize, i: usize) -> (r: Option<(Vec<Command>, usize)>)
    requires
        s.is_ascii(),
        n == s@.len(),
        i <= n,
    ensures
        match r {
            Some((turn, j)) => scan_turn(s@, i as int) == Some((turn@, j as int)) && i <= j <= n
                && (j < n ==> s@[j as int] == '#'),
            None => scan_turn(s@, i as int) is None,
        },
    decreases n - i,
{
    if i >= n || at(s, i) == '#' {
        return Some((Vec::new(), i));
    }
    match read_token(s, n, i) {
        None => None,
        Some((c, j)) => {
            match read_turn(s, n, j) {
                None => None,
                Some((rest, k)) => {
                    let mut turn: Vec<Command> = Vec::new();
                    turn.push(c);
                    let mut m: usize = 0;
                    while m < rest.len()
                        invariant
                            m <= rest@.len(),
                            turn@ == seq![c] + rest@.take(m as int),
                        decreases rest@.len() - m,
                    {
                        turn.push(rest[m]);
                        assert(rest@.take(m + 1) =~= rest@.take(m as int).push(rest@[m as int]));
                        assert(turn@ =~= seq![c] + rest@.take(m + 1));
                        m = m + 1;
                    }
                    assert(rest@.take(rest@.len() as int) =~= rest@);
                    Some((turn, k))
                },
            }
        },
    }
}

/// Reads the commands of a run from a string: turn by turn with `#` between
/// the turns. The commands that it gives are those that are written as the
/// string; where no commands are written so, it gives nothing.
pub fn decode_commands(s: &str) -> (r: Option<Solution>)
    ensures
        match r {
            Some(sol) => sol@.len() >= 1 && writable(sol@) && encoded(sol@) == s@,
            None => forall|turns: Seq<Seq<Command>>|
                turns.len() >= 1 && all_writable(turns) ==> #[trigger] text(turns) != s@,
        },
        r matches Some(sol) ==> scan_all(s@, 0) == Some(views(sol@)),
{
    if !s.is_ascii() {
        proof {
            assert forall|turns: Seq<Seq<Command>>|
                turns.len() >= 1 && all_writable(turns) implies #[trigger] text(turns) != s@ by {
                lemma_text_ascii(turns);
            }
        }
        return None;
    }
    let n: usize = s.unicode_len();
    let mut out: Solution = Vec::new();
    let mut i: usize = 0;
    loop
        invariant
            s.is_ascii(),
            n == s@.len(),
            i <= n,
            // what was read so far, and what is still to be read
            forall|rest: Seq<Seq<Command>>|
                scan_all(s@, i as int) == Some(rest) ==> #[trigger] scan_all(s@, 0) == Some(
                    views(out@) + rest,
                ),
            scan_all(s@, i as int) is None ==> scan_all(s@, 0) is None,
        decreases n - i,
    {
        match read_turn(s, n, i) {
            None => {
                proof {
                    assert forall|turns: Seq<Seq<Command>>|
                        turns.len() >= 1 && all_writable(turns) implies #[trigger] text(turns)
                        != s@ by {
                        law_round_trip(turns);
                    }
                }
                return None;
            },
            Some((turn, j)) => {
                let ghost before: Seq<Vec<Command>> = out@;
                let ghost tv: Seq<Command> = turn@;
                out.push(turn);
                proof {
                    assert(views(out@) =~= views(before) + seq![tv]);
                }
                if j >= n {
                    proof {
                        assert(scan_all(s@, i as int) == Some(seq![tv]));
                        law_read_is_written(s@);
                        assert forall|t: int| 0 <= t < out@.len() implies all_wf(
                            (#[trigger] out@[t])@,
                        ) by {
                            assert(views(out@)[t] == out@[t]@);
                        }
                    }
                    return Some(out);
                }
                proof {
                    assert forall|rest: Seq<Seq<Command>>|
                        scan_all(s@, j + 1) == Some(rest) implies #[trigger] scan_all(s@, 0)
                        == Some(views(out@) + rest) by {
                        assert(scan_all(s@, i as int) == Some(seq![tv] + rest));
                        assert(views(before) + (seq![tv] + rest) =~= views(out@) + rest);
                    }
                }
                i = j + 1;
            },
        }
    }
}

} // verus!
