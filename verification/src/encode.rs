use crate::command::{all_wf, Command, Solution};
use vstd::prelude::*;

verus! {

/// The digit that stands for `d`, which is below ten.
pub open spec fn digit(d: int) -> char {
    if d == 0 {
        '0'
    } else if d == 1 {
        '1'
    } else if d == 2 {
        '2'
    } else if d == 3 {
        '3'
    } else if d == 4 {
        '4'
    } else if d == 5 {
        '5'
    } else if d == 6 {
        '6'
    } else if d == 7 {
        '7'
    } else if d == 8 {
        '8'
    } else {
        '9'
    }
}

/// The digits of `n`, the highest first, without leading zeros.
pub open spec fn digits(n: nat) -> Seq<char>
    decreases n,
{
    if n < 10 {
        seq![digit(n as int)]
    } else {
        digits(n / 10).push(digit((n % 10) as int))
    }
}

/// The integer `v` in digits, with a minus sign before them if it is negative.
pub open spec fn number(v: int) -> Seq<char> {
    if v < 0 {
        seq!['-'] + digits((-v) as nat)
    } else {
        digits(v as nat)
    }
}

/// A letter, then two numbers in round brackets with a comma between them.
pub open spec fn with_pair(letter: char, a: int, b: int) -> Seq<char> {
    seq![letter, '('] + number(a) + seq![','] + number(b) + seq![')']
}

/// How a command is written: `W`, `S`, `A`, `D` for a step up, down, left,
/// right; `Z` for nothing; `E` and `Q` for a quarter turn clockwise and
/// counterclockwise; `B(dx,dy)` for a new manipulator; `F` for wheels; `L` for
/// the drill; `R` for a portal; `T(x,y)` for a jump; `C` for a clone. The
/// numbers of a jump are written as the command holds them: the cell in the
/// frame of the board, not in that of a task that was moved to the origin.
pub open spec fn token(c: Command) -> Seq<char> {
    match c {
        Command::Move(dx, dy) => if dx == 0 && dy == 1 {
            seq!['W']
        } else if dx == 0 && dy == -1 {
            seq!['S']
        } else if dx == -1 && dy == 0 {
            seq!['A']
        } else {
            seq!['D']
        },
        Command::Nop => seq!['Z'],
        Command::Turn(cw) => if cw {
            seq!['E']
        } else {
            seq!['Q']
        },
        Command::AttachManip(dx, dy) => with_pair('B', dx as int, dy as int),
        Command::AttachWheel => seq!['F'],
        Command::StartDrill => seq!['L'],
        Command::SetPortal => seq!['R'],
        Command::Teleport(x, y) => with_pair('T', x as int, y as int),
        Command::Clone => seq!['C'],
    }
}

/// The commands of one turn, written one after the other.
pub open spec fn turn_text(cmds: Seq<Command>) -> Seq<char>
    decreases cmds.len(),
{
    if cmds.len() == 0 {
        Seq::empty()
    } else {
        turn_text(cmds.drop_last()) + token(cmds.last())
    }
}

/// The turns written one after the other, with `#` between them.
pub open spec fn text(turns: Seq<Seq<Command>>) -> Seq<char>
    decreases turns.len(),
{
    if turns.len() == 0 {
        Seq::empty()
    } else if turns.len() == 1 {
        turn_text(turns[0])
    } else {
        text(turns.drop_last()) + seq!['#'] + turn_text(turns.last())
    }
}

/// The turns as lists of commands.
pub open spec fn views(sol: Seq<Vec<Command>>) -> Seq<Seq<Command>> {
    Seq::new(sol.len(), |t: int| sol[t]@)
}

/// The commands of a run, written turn by turn with `#` between the turns.
pub open spec fn encoded(sol: Seq<Vec<Command>>) -> Seq<char> {
    text(views(sol))
}

/// Whether every command of every turn can be written down.
pub open spec fn writable(sol: Seq<Vec<Command>>) -> bool {
    forall|t: int| 0 <= t < sol.len() ==> all_wf((#[trigger] sol[t])@)
}

/// `String::push`: the string with the character at its end.
pub assume_specification[ String::push ](s: &mut String, c: char)
    ensures
        final(s)@ == old(s)@.push(c),
;

/// Writes the digits of `n` at the end of `out`.
fn push_digits(out: &mut String, n: u64)
    ensures
        final(out)@ == old(out)@ + digits(n as nat),
    decreases n,
{
    if n >= 10 {
        push_digits(out, n / 10);
    }
    let d: u64 = n % 10;
    let c: char = if d == 0 {
        '0'
    } else if d == 1 {
        '1'
    } else if d == 2 {
        '2'
    } else if d == 3 {
        '3'
    } else if d == 4 {
        '4'
    } else if d == 5 {
        '5'
    } else if d == 6 {
        '6'
    } else if d == 7 {
        '7'
    } else if d == 8 {
        '8'
    } else {
        '9'
    };
    out.push(c);
    proof {
        if n >= 10 {
            assert(final(out)@ =~= old(out)@ + digits((n / 10) as nat).push(digit((n % 10) as int)));
        } else {
            assert(final(out)@ =~= old(out)@ + seq![digit(n as int)]);
        }
    }
}

/// Writes `v` at the end of `out`.
fn push_number(out: &mut String, v: i64)
    ensures
        final(out)@ == old(out)@ + number(v as int),
{
    if v < 0 {
        out.push('-');
        let m: u64 = if v == i64::MIN {
            0x8000_0000_0000_0000u64
        } else {
            (-v) as u64
        };
        push_digits(out, m);
        assert(final(out)@ =~= old(out)@ + (seq!['-'] + digits((-v) as nat)));
    } else {
        push_digits(out, v as u64);
    }
}

/// Writes a letter and two numbers in brackets at the end of `out`.
fn push_pair(out: &mut String, letter: char, a: i64, b: i64)
    ensures
        final(out)@ == old(out)@ + with_pair(letter, a as int, b as int),
{
    out.push(letter);
    out.push('(');
    push_number(out, a);
    out.push(',');
    push_number(out, b);
    out.push(')');
    assert(final(out)@ =~= old(out)@ + with_pair(letter, a as int, b as int));
}

/// Writes a command at the end of `out`.
fn push_token(out: &mut String, c: Command)
    requires
        c.wf(),
    ensures
        final(out)@ == old(out)@ + token(c),
{
    match c {
        Command::Move(dx, dy) => {
            if dx == 0 && dy == 1 {
                out.push('W');
            } else if dx == 0 && dy == -1 {
                out.push('S');
            } else if dx == -1 && dy == 0 {
                out.push('A');
            } else {
                out.push('D');
            }
        },
        Command::Nop => {
            out.push('Z');
        },
        Command::Turn(cw) => {
            if cw {
                out.push('E');
            } else {
                out.push('Q');
            }
        },
        Command::AttachManip(dx, dy) => {
            push_pair(out, 'B', dx, dy);
        },
        Command::AttachWheel => {
            out.push('F');
        },
        Command::StartDrill => {
            out.push('L');
        },
        Command::SetPortal => {
            out.push('R');
        },
        Command::Teleport(x, y) => {
            push_pair(out, 'T', x, y);
        },
        Command::Clone => {
            out.push('C');
        },
    }
    assert(final(out)@ =~= old(out)@ + token(c));
}

/// Whether every command of every turn can be written down.
pub fn can_write(ans: &Solution) -> (b: bool)
    ensures
        b == writable(ans@),
{
    let mut t: usize = 0;
    while t < ans.len()
        invariant
            t <= ans@.len(),
            forall|k: int| 0 <= k < t ==> all_wf((#[trigger] ans@[k])@),
        decreases ans@.len() - t,
    {
        let cmds: &Vec<Command> = &ans[t];
        let mut i: usize = 0;
        while i < cmds.len()
            invariant
                i <= cmds@.len(),
                t < ans@.len(),
                cmds@ == ans@[t as int]@,
                forall|k: int| 0 <= k < i ==> (#[trigger] cmds@[k]).wf(),
            decreases cmds@.len() - i,
        {
            match cmds[i] {
                Command::Move(dx, dy) => {
                    if !((dx == 0 && (dy == 1 || dy == -1)) || (dy == 0 && (dx == 1 || dx == -1))) {
                        assert(!cmds@[i as int].wf());
                        assert(!all_wf(ans@[t as int]@));
                        return false;
                    }
                },
                _ => {},
            }
            i = i + 1;
        }
        t = t + 1;
    }
    true
}

/// The commands of a run as one string: turn by turn with `#` between the
/// turns, and in each turn the robots' commands in the order of the robots.
/// A jump is written with the cell that it names, in the frame of the board.
pub fn encode_commands(ans: &Solution) -> (s: String)
    requires
        writable(ans@),
    ensures
        s@ == encoded(ans@),
{
    let mut out: String = String::new();
    let mut t: usize = 0;
    while t < ans.len()
        invariant
            t <= ans@.len(),
            writable(ans@),
            out@ == encoded(ans@.take(t as int)),
        decreases ans@.len() - t,
    {
        if t > 0 {
            out.push('#');
        }
        let ghost head: Seq<char> = out@;
        let cmds: &Vec<Command> = &ans[t];
        let mut i: usize = 0;
        while i < cmds.len()
            invariant
                i <= cmds@.len(),
                all_wf(cmds@),
                out@ == head + turn_text(cmds@.take(i as int)),
            decreases cmds@.len() - i,
        {
            let ghost before: Seq<char> = out@;
            push_token(&mut out, cmds[i]);
            proof {
                let more = cmds@.take(i + 1);
                assert(more.drop_last() =~= cmds@.take(i as int));
                assert(more.last() == cmds@[i as int]);
                assert(out@ =~= head + turn_text(more));
            }
            i = i + 1;
        }
        proof {
            assert(cmds@.take(cmds@.len() as int) =~= cmds@);
            let upto = views(ans@.take(t + 1));
            assert(upto.last() == cmds@);
            assert(upto.drop_last() =~= views(ans@.take(t as int)));
            if t == 0 {
                assert(upto[0] == cmds@);
                assert(out@ =~= turn_text(cmds@));
            } else {
                assert(out@ =~= encoded(ans@.take(t as int)) + seq!['#'] + turn_text(cmds@));
            }
        }
        t = t + 1;
    }
    assert(ans@.take(ans@.len() as int) =~= ans@);
    out
}

} // verus!
