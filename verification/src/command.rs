use vstd::prelude::*;

verus! {

/// What one robot does in one turn.
#[derive(Debug, Clone, Copy, PartialEq, Eq, Structural)]
pub enum Command {
    /// One step by the given offset.
    Move(i64, i64),
    /// Nothing.
    Nop,
    /// A quarter turn of the manipulators, clockwise where the flag is set.
    Turn(bool),
    /// A new manipulator at the given offset.
    AttachManip(i64, i64),
    /// Fast wheels.
    AttachWheel,
    /// The drill.
    StartDrill,
    /// A portal dropped where the robot stands.
    SetPortal,
    /// A jump to the portal on the given cell. The cell is named in the frame
    /// of the board: its column and its row, counted from 0 at the low corner
    /// of the box round the outline of the room.
    Teleport(i64, i64),
    /// A new robot where the robot stands.
    Clone,
}

/// The robots' commands, turn by turn: one list for each turn, which holds
/// the command of each robot that acted in it, in the order of the robots.
pub type Solution = Vec<Vec<Command>>;

/// Whether `(dx, dy)` is one step up, down, left or right.
pub open spec fn is_step(dx: int, dy: int) -> bool {
    (dx == 0 && (dy == 1 || dy == -1)) || (dy == 0 && (dx == 1 || dx == -1))
}

impl Command {
    /// Whether the command can be written down: a move goes one step up,
    /// down, left or right.
    pub open spec fn wf(self) -> bool {
        self matches Command::Move(dx, dy) ==> is_step(dx as int, dy as int)
    }

    /// Whether a jump names a cell of a board of `w` by `h` cells, in the
    /// frame of that board.
    pub open spec fn lands(self, w: int, h: int) -> bool {
        self matches Command::Teleport(x, y) ==> 0 <= x < w && 0 <= y < h
    }
}

/// Whether every jump of the run names a cell of a board of `w` by `h` cells.
pub open spec fn all_land(sol: Seq<Vec<Command>>, w: int, h: int) -> bool {
    forall|t: int, i: int|
        0 <= t < sol.len() && 0 <= i < sol[t]@.len() ==> (#[trigger] sol[t]@[i]).lands(w, h)
}

/// Whether every command of the list can be written down.
pub open spec fn all_wf(cmds: Seq<Command>) -> bool {
    forall|i: int| 0 <= i < cmds.len() ==> (#[trigger] cmds[i]).wf()
}

} // verus!
