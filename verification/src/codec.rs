use crate::command::{all_wf, Command};
use crate::decode::{
    digit_value, digits_end, is_digit, scan_all, scan_number, scan_pair, scan_token, scan_turn,
    value_of,
};
use crate::encode::{digit, digits, number, text, token, turn_text, with_pair};
use vstd::prelude::*;

verus! {

/// Whether every command of every turn can be written down.
pub open spec fn all_writable(turns: Seq<Seq<Command>>) -> bool {
    forall|t: int| 0 <= t < turns.len() ==> all_wf(#[trigger] turns[t])
}

/// The digits of a number are digits, begin with a zero only for zero, and
/// stand for the number.
pub proof fn lemma_digits_shape(n: nat)
    ensures
        digits(n).len() >= 1,
        forall|k: int| 0 <= k < digits(n).len() ==> is_digit(#[trigger] digits(n)[k]),
        digits(n)[0] == '0' ==> n == 0,
        n == 0 ==> digits(n) == seq!['0'],
        value_of(digits(n), 0, digits(n).len() as int) == n,
    decreases n,
{
    if n < 10 {
        assert(digits(n) == seq![digit(n as int)]);
        assert(value_of(digits(n), 0, 0) == 0);
        assert(value_of(digits(n), 0, 1) == (value_of(digits(n), 0, 0) * 10 + digit_value(
            digits(n)[0],
        )) as nat);
    } else {
        let m = n / 10;
        let d = (n % 10) as int;
        lemma_digits_shape(m);
        let head = digits(m);
        let all = digits(n);
        assert(all == head.push(digit(d)));
        assert(all[0] == head[0]);
        lemma_value_same(all, head, 0, 0, head.len() as int);
        assert(value_of(all, 0, all.len() as int) == (value_of(all, 0, all.len() - 1) * 10
            + digit_value(all[all.len() - 1])) as nat);
    }
}

/// The value of a run of digits rests on those digits alone.
pub proof fn lemma_value_same(s: Seq<char>, t: Seq<char>, i: int, k: int, n: int)
    requires
        0 <= i,
        0 <= k,
        0 <= n,
        i + n <= s.len(),
        k + n <= t.len(),
        forall|m: int| 0 <= m < n ==> #[trigger] s[i + m] == t[k + m],
    ensures
        value_of(s, i, i + n) == value_of(t, k, k + n),
    decreases n,
{
    if n > 0 {
        lemma_value_same(s, t, i, k, n - 1);
        assert(s[i + (n - 1)] == t[k + (n - 1)]);
    }
}

/// A run of digits ends where a character that is no digit follows, or the string ends.
pub proof fn lemma_digits_end(s: Seq<char>, i: int, j: int)
    requires
        0 <= i <= j <= s.len(),
        forall|m: int| i <= m < j ==> is_digit(#[trigger] s[m]),
        j == s.len() || !is_digit(s[j]),
    ensures
        digits_end(s, i) == j,
    decreases j - i,
{
    if i < j {
        assert(is_digit(s[i]));
        lemma_digits_end(s, i + 1, j);
    }
}

/// A longer run of digits stands for no smaller number.
pub proof fn lemma_value_grows(s: Seq<char>, i: int, j: int, k: int)
    requires
        0 <= i <= j <= k <= s.len(),
        forall|m: int| i <= m < k ==> is_digit(#[trigger] s[m]),
    ensures
        value_of(s, i, j) <= value_of(s, i, k),
        i < j && s[i] != '0' ==> value_of(s, i, j) >= 1,
    decreases k - i,
{
    if j < k {
        lemma_value_grows(s, i, j, k - 1);
        assert(is_digit(s[k - 1]));
    }
    if i < j {
        if j - 1 > i {
            lemma_value_grows(s, i, j - 1, j - 1);
        }
        assert(is_digit(s[j - 1]));
        assert(is_digit(s[i]));
    }
}

/// Where a number is written and no digit follows, that number is read.
pub proof fn lemma_number_scan(s: Seq<char>, i: int, v: int)
    requires
        i64::MIN <= v <= i64::MAX,
        0 <= i,
        i + number(v).len() <= s.len(),
        s.subrange(i, i + number(v).len()) == number(v),
        i + number(v).len() == s.len() || !is_digit(s[i + number(v).len()]),
    ensures
        scan_number(s, i) == Some((v, i + number(v).len())),
        number(v).len() >= 1,
{
    let t = number(v);
    let len = t.len() as int;
    let n: nat = if v < 0 {
        (-v) as nat
    } else {
        v as nat
    };
    lemma_digits_shape(n);
    let ds = digits(n);
    let from = if v < 0 {
        i + 1
    } else {
        i
    };
    assert forall|m: int| 0 <= m < len implies s[i + m] == t[m] by {
        assert(s.subrange(i, i + len)[m] == s[i + m]);
    }
    if v < 0 {
        assert(t == seq!['-'] + ds);
        assert(t[0] == '-');
        assert(s[i] == '-');
        assert forall|m: int| 0 <= m < ds.len() implies s[from + m] == ds[m] by {
            assert(t[m + 1] == ds[m]);
            assert(s[i + (m + 1)] == t[m + 1]);
        }
    } else {
        assert(t == ds);
        assert(is_digit(ds[0]));
        assert(s[i] == t[0]);
        assert(s[i] != '-');
        assert forall|m: int| 0 <= m < ds.len() implies s[from + m] == ds[m] by {
            assert(s[i + m] == t[m]);
        }
    }
    let to = from + ds.len();
    assert forall|m: int| from <= m < to implies is_digit(#[trigger] s[m]) by {
        assert(s[from + (m - from)] == ds[m - from]);
    }
    lemma_digits_end(s, from, to);
    lemma_value_same(s, ds, from, 0, ds.len() as int);
    assert(s[from + 0] == ds[0]);
    if s[from] == '0' {
        assert(n == 0);
        assert(ds.len() == 1);
    }
}

/// Where two numbers are written in brackets, those numbers are read.
pub proof fn lemma_pair_scan(s: Seq<char>, i: int, letter: char, a: int, b: int)
    requires
        i64::MIN <= a <= i64::MAX,
        i64::MIN <= b <= i64::MAX,
        0 <= i,
        i + with_pair(letter, a, b).len() <= s.len(),
        s.subrange(i, i + with_pair(letter, a, b).len()) == with_pair(letter, a, b),
    ensures
        s[i] == letter,
        scan_pair(s, i + 1) == Some(((a, b), i + with_pair(letter, a, b).len())),
{
    let t = with_pair(letter, a, b);
    let na = number(a);
    let nb = number(b);
    let la = na.len() as int;
    let lb = nb.len() as int;
    assert(t.len() == 4 + la + lb);
    assert forall|m: int| 0 <= m < t.len() implies s[i + m] == t[m] by {
        assert(s.subrange(i, i + t.len())[m] == s[i + m]);
    }
    assert(t[0] == letter && t[1] == '(');
    assert(s[i + 0] == t[0]);
    assert(s[i + 1] == t[1]);
    assert forall|m: int| 0 <= m < la implies #[trigger] t[2 + m] == na[m] by {}
    assert(t[2 + la] == ',');
    assert forall|m: int| 0 <= m < lb implies #[trigger] t[3 + la + m] == nb[m] by {}
    assert(t[3 + la + lb] == ')');
    assert(s[i + (2 + la)] == ',');
    assert(s[i + (3 + la + lb)] == ')');
    assert(s.subrange(i + 2, i + 2 + la) =~= na) by {
        assert forall|m: int| 0 <= m < la implies s.subrange(i + 2, i + 2 + la)[m] == na[m] by {
            assert(s[i + (2 + m)] == t[2 + m]);
        }
    }
    lemma_number_scan(s, i + 2, a);
    assert(s.subrange(i + 3 + la, i + 3 + la + lb) =~= nb) by {
        assert forall|m: int| 0 <= m < lb implies s.subrange(i + 3 + la, i + 3 + la + lb)[m]
            == nb[m] by {
            assert(s[i + (3 + la + m)] == t[3 + la + m]);
        }
    }
    lemma_number_scan(s, i + 3 + la, b);
}

/// Where a command is written, that command is read.
pub proof fn lemma_token_scan(s: Seq<char>, i: int, c: Command)
    requires
        c.wf(),
        0 <= i,
        i + token(c).len() <= s.len(),
        s.subrange(i, i + token(c).len()) == token(c),
    ensures
        scan_token(s, i) == Some((c, i + token(c).len())),
        token(c).len() >= 1,
        s[i] != '#',
{
    let t = token(c);
    assert forall|m: int| 0 <= m < t.len() implies s[i + m] == t[m] by {
        assert(s.subrange(i, i + t.len())[m] == s[i + m]);
    }
    match c {
        Command::AttachManip(dx, dy) => {
            lemma_pair_scan(s, i, 'B', dx as int, dy as int);
        },
        Command::Teleport(x, y) => {
            lemma_pair_scan(s, i, 'T', x as int, y as int);
        },
        _ => {
            assert(t.len() == 1);
            assert(s[i + 0] == t[0]);
        },
    }
}

/// The text of a turn is the first command, then the text of the others.
pub proof fn lemma_turn_text_front(cmds: Seq<Command>)
    requires
        cmds.len() > 0,
    ensures
        turn_text(cmds) == token(cmds[0]) + turn_text(cmds.subrange(1, cmds.len() as int)),
    decreases cmds.len(),
{
    let rest = cmds.subrange(1, cmds.len() as int);
    if cmds.len() == 1 {
        assert(cmds.drop_last() =~= Seq::<Command>::empty());
        assert(turn_text(cmds.drop_last()) =~= Seq::<char>::empty());
        assert(turn_text(rest) =~= Seq::<char>::empty());
        assert(turn_text(cmds) =~= token(cmds[0]) + turn_text(rest));
    } else {
        lemma_turn_text_front(cmds.drop_last());
        assert(cmds.drop_last().subrange(1, cmds.len() - 1) =~= rest.drop_last());
        assert(rest.last() == cmds.last());
        assert(cmds.drop_last()[0] == cmds[0]);
        assert(turn_text(cmds) =~= token(cmds[0]) + turn_text(rest));
    }
}

/// Where a turn is written and a `#` follows, or the string ends, that turn is read.
pub proof fn lemma_turn_scan(s: Seq<char>, i: int, cmds: Seq<Command>)
    requires
        all_wf(cmds),
        0 <= i,
        i + turn_text(cmds).len() <= s.len(),
        s.subrange(i, i + turn_text(cmds).len()) == turn_text(cmds),
        i + turn_text(cmds).len() == s.len() || s[i + turn_text(cmds).len()] == '#',
    ensures
        scan_turn(s, i) == Some((cmds, i + turn_text(cmds).len())),
    decreases cmds.len(),
{
    let t = turn_text(cmds);
    if cmds.len() == 0 {
        assert(t.len() == 0);
    } else {
        let c = cmds[0];
        let rest = cmds.subrange(1, cmds.len() as int);
        lemma_turn_text_front(cmds);
        let tk = token(c);
        let tr = turn_text(rest);
        assert(t == tk + tr);
        assert(s.subrange(i, i + tk.len()) =~= tk) by {
            assert forall|m: int| 0 <= m < tk.len() implies s.subrange(i, i + tk.len())[m]
                == tk[m] by {
                assert(s.subrange(i, i + t.len())[m] == s[i + m]);
                assert(t[m] == tk[m]);
            }
        }
        assert(c.wf());
        lemma_token_scan(s, i, c);
        let j = i + tk.len();
        assert(s.subrange(j, j + tr.len()) =~= tr) by {
            assert forall|m: int| 0 <= m < tr.len() implies s.subrange(j, j + tr.len())[m]
                == tr[m] by {
                assert(s.subrange(i, i + t.len())[tk.len() + m] == s[i + (tk.len() + m)]);
                assert(t[tk.len() + m] == tr[m]);
            }
        }
        assert(all_wf(rest)) by {
            assert forall|k: int| 0 <= k < rest.len() implies (#[trigger] rest[k]).wf() by {
                assert(rest[k] == cmds[k + 1]);
            }
        }
        lemma_turn_scan(s, j, rest);
        assert(seq![c] + rest =~= cmds);
    }
}

/// The text of a run is its first turn, then `#` and the text of the others.
pub proof fn lemma_text_front(turns: Seq<Seq<Command>>)
    requires
        turns.len() >= 2,
    ensures
        text(turns) == turn_text(turns[0]) + seq!['#'] + text(
            turns.subrange(1, turns.len() as int),
        ),
    decreases turns.len(),
{
    let rest = turns.subrange(1, turns.len() as int);
    if turns.len() == 2 {
        assert(turns.drop_last() =~= seq![turns[0]]);
        assert(rest =~= seq![turns[1]]);
        assert(text(turns.drop_last()) == turn_text(turns[0]));
        assert(text(rest) == turn_text(turns[1]));
    } else {
        lemma_text_front(turns.drop_last());
        assert(turns.drop_last().subrange(1, turns.len() - 1) =~= rest.drop_last());
        assert(rest.last() == turns.last());
        assert(turns.drop_last()[0] == turns[0]);
        assert(text(turns) =~= turn_text(turns[0]) + seq!['#'] + text(rest));
    }
}

/// Where a run is written up to the end of the string, that run is read.
pub proof fn lemma_all_scan(s: Seq<char>, i: int, turns: Seq<Seq<Command>>)
    requires
        turns.len() >= 1,
        all_writable(turns),
        0 <= i <= s.len(),
        s.subrange(i, s.len() as int) == text(turns),
    ensures
        scan_all(s, i) == Some(turns),
    decreases turns.len(),
{
    let t = text(turns);
    let first = turns[0];
    let tf = turn_text(first);
    assert(all_wf(first));
    if turns.len() == 1 {
        assert(t == tf);
        lemma_turn_scan(s, i, first);
        assert(seq![first] =~= turns);
    } else {
        let rest = turns.subrange(1, turns.len() as int);
        lemma_text_front(turns);
        let tr = text(rest);
        assert(t == tf + seq!['#'] + tr);
        assert(s.subrange(i, i + tf.len()) =~= tf) by {
            assert forall|m: int| 0 <= m < tf.len() implies s.subrange(i, i + tf.len())[m]
                == tf[m] by {
                assert(s.subrange(i, s.len() as int)[m] == s[i + m]);
                assert(t[m] == tf[m]);
            }
        }
        let j = i + tf.len();
        assert(s[j] == '#') by {
            assert(s.subrange(i, s.len() as int)[tf.len() as int] == s[i + tf.len()]);
            assert(t[tf.len() as int] == '#');
        }
        lemma_turn_scan(s, i, first);
        assert(s.subrange(j + 1, s.len() as int) =~= tr) by {
            assert forall|m: int| 0 <= m < tr.len() implies s.subrange(j + 1, s.len() as int)[m]
                == tr[m] by {
                assert(s.subrange(i, s.len() as int)[tf.len() + 1 + m] == s[i + (tf.len() + 1
                    + m)]);
                assert(t[tf.len() + 1 + m] == tr[m]);
            }
        }
        assert(all_writable(rest)) by {
            assert forall|k: int| 0 <= k < rest.len() implies all_wf(#[trigger] rest[k]) by {
                assert(rest[k] == turns[k + 1]);
            }
        }
        lemma_all_scan(s, j + 1, rest);
        assert(seq![first] + rest =~= turns);
    }
}

/// Writing the commands of a run and reading what was written gives the
/// commands back: turn for turn and, in each turn, robot for robot.
pub proof fn law_round_trip(turns: Seq<Seq<Command>>)
    requires
        turns.len() >= 1,
        all_writable(turns),
    ensures
        scan_all(text(turns), 0) == Some(turns),
{
    let s = text(turns);
    assert(s.subrange(0, s.len() as int) =~= s);
    lemma_all_scan(s, 0, turns);
}

/// What is written holds ASCII characters only.
pub proof fn lemma_text_ascii(turns: Seq<Seq<Command>>)
    ensures
        vstd::utf8::is_ascii_chars(text(turns)),
    decreases turns.len(),
{
    if turns.len() == 0 {
    } else if turns.len() == 1 {
        lemma_turn_ascii(turns[0]);
    } else {
        lemma_text_ascii(turns.drop_last());
        lemma_turn_ascii(turns.last());
    }
}

/// What is written for a turn holds ASCII characters only.
pub proof fn lemma_turn_ascii(cmds: Seq<Command>)
    ensures
        vstd::utf8::is_ascii_chars(turn_text(cmds)),
    decreases cmds.len(),
{
    if cmds.len() > 0 {
        lemma_turn_ascii(cmds.drop_last());
        match cmds.last() {
            Command::AttachManip(dx, dy) => {
                lemma_number_ascii(dx as int);
                lemma_number_ascii(dy as int);
            },
            Command::Teleport(x, y) => {
                lemma_number_ascii(x as int);
                lemma_number_ascii(y as int);
            },
            _ => {},
        }
    }
}

/// A number is written in ASCII characters only.
pub proof fn lemma_number_ascii(v: int)
    ensures
        vstd::utf8::is_ascii_chars(number(v)),
{
    let n: nat = if v < 0 {
        (-v) as nat
    } else {
        v as nat
    };
    lemma_digits_shape(n);
}

/// A run of digits lies in the string and holds digits only.
pub proof fn lemma_digits_run(s: Seq<char>, i: int)
    requires
        0 <= i <= s.len(),
    ensures
        i <= digits_end(s, i) <= s.len(),
        forall|m: int| i <= m < digits_end(s, i) ==> is_digit(#[trigger] s[m]),
        digits_end(s, i) == s.len() || !is_digit(s[digits_end(s, i)]),
    decreases s.len() - i,
{
    if i < s.len() && is_digit(s[i]) {
        lemma_digits_run(s, i + 1);
    }
}

/// Digits without a needless zero before them are the digits of the number
/// that they stand for.
pub proof fn lemma_digits_undo(s: Seq<char>, i: int, j: int)
    requires
        0 <= i < j <= s.len(),
        forall|m: int| i <= m < j ==> is_digit(#[trigger] s[m]),
        s[i] != '0' || j == i + 1,
    ensures
        digits(value_of(s, i, j)) == s.subrange(i, j),
    decreases j - i,
{
    let d = digit_value(s[j - 1]);
    assert(is_digit(s[j - 1]));
    assert(digit(d) == s[j - 1]);
    if j == i + 1 {
        assert(value_of(s, i, i) == 0);
        assert(value_of(s, i, j) == d);
        assert(digits(d as nat) =~= s.subrange(i, j));
    } else {
        lemma_value_grows(s, i, j - 1, j - 1);
        let head = value_of(s, i, j - 1);
        assert(head >= 1);
        let v = value_of(s, i, j);
        assert(v == head * 10 + d);
        assert(v / 10 == head && v % 10 == d);
        lemma_digits_undo(s, i, j - 1);
        assert(digits(v) == digits(head).push(digit(d)));
        assert(s.subrange(i, j - 1).push(s[j - 1]) =~= s.subrange(i, j));
    }
}

/// A number that is read is written where it was read.
pub proof fn lemma_number_undo(s: Seq<char>, i: int)
    requires
        0 <= i <= s.len(),
        scan_number(s, i) is Some,
    ensures
        ({
            let (v, j) = scan_number(s, i)->0;
            i < j <= s.len() && i64::MIN <= v <= i64::MAX && s.subrange(i, j) == number(v)
        }),
{
    let neg = i < s.len() && s[i] == '-';
    let from = if neg {
        i + 1
    } else {
        i
    };
    lemma_digits_run(s, from);
    let to = digits_end(s, from);
    let n = value_of(s, from, to);
    lemma_digits_undo(s, from, to);
    let (v, j) = scan_number(s, i)->0;
    if neg {
        assert(v == -n);
        assert(number(v) == seq!['-'] + digits(n));
        assert(s.subrange(i, j) =~= seq!['-'] + s.subrange(from, to));
    } else {
        assert(v == n);
    }
}

/// Two numbers in brackets that are read are written where they were read.
pub proof fn lemma_pair_undo(s: Seq<char>, i: int, letter: char)
    requires
        1 <= i <= s.len(),
        s[i - 1] == letter,
        scan_pair(s, i) is Some,
    ensures
        ({
            let ((a, b), j) = scan_pair(s, i)->0;
            i < j <= s.len() && i64::MIN <= a <= i64::MAX && i64::MIN <= b <= i64::MAX
                && s.subrange(i - 1, j) == with_pair(letter, a, b)
        }),
{
    lemma_number_undo(s, i + 1);
    let (a, m) = scan_number(s, i + 1)->0;
    lemma_number_undo(s, m + 1);
    let (b, k) = scan_number(s, m + 1)->0;
    let ((a2, b2), j) = scan_pair(s, i)->0;
    assert(a2 == a && b2 == b && j == k + 1);
    assert(s.subrange(i - 1, j) =~= seq![letter, '('] + s.subrange(i + 1, m) + seq![','] + s.subrange(
        m + 1,
        k,
    ) + seq![')']);
}

/// A command that is read can be written down, and is written where it was read.
pub proof fn lemma_token_undo(s: Seq<char>, i: int)
    requires
        0 <= i < s.len(),
        scan_token(s, i) is Some,
    ensures
        ({
            let (c, j) = scan_token(s, i)->0;
            i < j <= s.len() && c.wf() && s.subrange(i, j) == token(c)
        }),
{
    let (c, j) = scan_token(s, i)->0;
    if s[i] == 'B' {
        lemma_pair_undo(s, i + 1, 'B');
    } else if s[i] == 'T' {
        lemma_pair_undo(s, i + 1, 'T');
    } else {
        assert(j == i + 1);
        assert(s.subrange(i, j) =~= seq![s[i]]);
    }
}

/// A turn that is read is written where it was read, and ends at a `#` or at
/// the end of the string.
pub proof fn lemma_turn_undo(s: Seq<char>, i: int)
    requires
        0 <= i <= s.len(),
        scan_turn(s, i) is Some,
    ensures
        ({
            let (cmds, j) = scan_turn(s, i)->0;
            i <= j <= s.len() && all_wf(cmds) && s.subrange(i, j) == turn_text(cmds) && (j
                == s.len() || s[j] == '#')
        }),
    decreases s.len() - i,
{
    let (cmds, j) = scan_turn(s, i)->0;
    if i >= s.len() || s[i] == '#' {
        assert(cmds =~= Seq::<Command>::empty());
        assert(s.subrange(i, j) =~= turn_text(cmds));
    } else {
        lemma_token_undo(s, i);
        let (c, m) = scan_token(s, i)->0;
        lemma_turn_undo(s, m);
        let (rest, k) = scan_turn(s, m)->0;
        assert(cmds == seq![c] + rest);
        assert(j == k);
        lemma_turn_text_front(cmds);
        assert(cmds.subrange(1, cmds.len() as int) =~= rest);
        assert(cmds[0] == c);
        assert(s.subrange(i, j) =~= s.subrange(i, m) + s.subrange(m, k));
        assert forall|q: int| 0 <= q < cmds.len() implies (#[trigger] cmds[q]).wf() by {
            if q > 0 {
                assert(cmds[q] == rest[q - 1]);
            }
        }
    }
}

/// A run that is read is written where it was read.
pub proof fn lemma_all_undo(s: Seq<char>, i: int)
    requires
        0 <= i <= s.len(),
        scan_all(s, i) is Some,
    ensures
        ({
            let turns = scan_all(s, i)->0;
            turns.len() >= 1 && all_writable(turns) && s.subrange(i, s.len() as int) == text(turns)
        }),
    decreases s.len() - i,
{
    let turns = scan_all(s, i)->0;
    lemma_turn_undo(s, i);
    let (first, j) = scan_turn(s, i)->0;
    if j >= s.len() {
        assert(turns == seq![first]);
        assert(turns[0] == first);
    } else {
        lemma_all_undo(s, j + 1);
        let rest = scan_all(s, j + 1)->0;
        assert(turns == seq![first] + rest);
        lemma_text_front(turns);
        assert(turns.subrange(1, turns.len() as int) =~= rest);
        assert(turns[0] == first);
        assert(s.subrange(i, s.len() as int) =~= s.subrange(i, j) + seq!['#'] + s.subrange(
            j + 1,
            s.len() as int,
        ));
        assert forall|t: int| 0 <= t < turns.len() implies all_wf(#[trigger] turns[t]) by {
            if t > 0 {
                assert(turns[t] == rest[t - 1]);
            }
        }
    }
}

/// What is read from a string is what is written there: the commands that
/// are read, written down, are the string again.
pub proof fn law_read_is_written(s: Seq<char>)
    requires
        scan_all(s, 0) is Some,
    ensures
        text(scan_all(s, 0)->0) == s,
        all_writable(scan_all(s, 0)->0),
        scan_all(s, 0)->0.len() >= 1,
{
    lemma_all_undo(s, 0);
    assert(s.subrange(0, s.len() as int) =~= s);
}

} // verus!
