use vstd::prelude::*;

verus! {

/// The kinds of booster that can lie on a cell.
#[derive(Debug, Clone, Copy, PartialEq, Eq, Structural)]
pub enum Booster {
    /// Extra manipulator.
    B,
    /// Fast wheels.
    F,
    /// Drill.
    L,
    /// Cloning factory (a marker; never collected).
    X,
    /// Portal spawner.
    R,
    /// Cloning duplicator.
    C,
}

/// Item code of the extra manipulator.
pub const ITEM_MANIPULATOR: usize = 1;

/// Item code of the fast wheels.
pub const ITEM_WHEELS: usize = 2;

/// Item code of the drill.
pub const ITEM_DRILL: usize = 3;

/// Item code of the cloning factory.
pub const ITEM_FACTORY: usize = 4;

/// Item code of the portal spawner.
pub const ITEM_PORTAL: usize = 5;

/// Item code of the cloning duplicator.
pub const ITEM_CLONE: usize = 6;

/// The largest robot index that fits in a cell's reservation field.
pub const MAX_OWNER: usize = 254;

impl Booster {
    /// The code under which the booster is stored in a cell, 1 to 6.
    pub open spec fn code(self) -> int {
        match self {
            Booster::B => 1,
            Booster::F => 2,
            Booster::L => 3,
            Booster::X => 4,
            Booster::R => 5,
            Booster::C => 6,
        }
    }

    /// The letter that stands for the booster in a task description.
    pub open spec fn letter(self) -> char {
        match self {
            Booster::B => 'B',
            Booster::F => 'F',
            Booster::L => 'L',
            Booster::X => 'X',
            Booster::R => 'R',
            Booster::C => 'C',
        }
    }
}

/// Whether `c` is one of the six booster letters.
pub open spec fn is_booster_letter(c: char) -> bool {
    c == 'B' || c == 'F' || c == 'L' || c == 'X' || c == 'R' || c == 'C'
}

/// The booster that a letter stands for, if it stands for one.
pub fn booster_of_char(c: char) -> (r: Option<Booster>)
    ensures
        r is Some <==> is_booster_letter(c),
        r matches Some(b) ==> b.letter() == c,
{
    if c == 'B' {
        Some(Booster::B)
    } else if c == 'F' {
        Some(Booster::F)
    } else if c == 'L' {
        Some(Booster::L)
    } else if c == 'X' {
        Some(Booster::X)
    } else if c == 'R' {
        Some(Booster::R)
    } else if c == 'C' {
        Some(Booster::C)
    } else {
        None
    }
}

/// The booster that a booster letter stands for.
pub fn char2booster(c: char) -> (b: Booster)
    requires
        is_booster_letter(c),
    ensures
        b.letter() == c,
{
    match booster_of_char(c) {
        Some(b) => b,
        None => Booster::B,
    }
}

/// The code under which a booster is stored in a cell.
pub fn booster2u16(typ: Booster) -> (c: u16)
    ensures
        c == typ.code(),
{
    match typ {
        Booster::B => 1,
        Booster::F => 2,
        Booster::L => 3,
        Booster::X => 4,
        Booster::R => 5,
        Booster::C => 6,
    }
}

/// One grid position, packed into sixteen bits.
///
/// Bit 0 is the wall flag, bit 1 the painted flag, bit 2 the portal flag.
/// Bits 4 to 7 hold the item code (0 for none) and bits 8 to 15 hold the
/// reserving robot's index plus one (0 for none).
#[derive(Debug, Clone, Copy, PartialEq, Eq, Structural)]
pub struct Cell(pub u16);

impl Cell {
    /// The wall flag.
    pub open spec fn wall(self) -> bool {
        self.0 & 1 != 0
    }

    /// The painted flag.
    pub open spec fn painted(self) -> bool {
        self.0 & 2 != 0
    }

    /// The portal flag.
    pub open spec fn portal(self) -> bool {
        self.0 & 4 != 0
    }

    /// The bit that stands for nothing.
    pub open spec fn spare(self) -> bool {
        self.0 & 8 != 0
    }

    /// The item code, 0 where the cell holds no item.
    pub open spec fn item_code(self) -> int {
        ((self.0 >> 4) & 0xf) as int
    }

    /// The reserving robot's index plus one, 0 where nobody reserved the cell.
    pub open spec fn owner_code(self) -> int {
        (self.0 >> 8) as int
    }

    /// The robot that reserved the cell.
    pub open spec fn owner(self) -> Option<int> {
        if self.owner_code() == 0 {
            None
        } else {
            Some(self.owner_code() - 1)
        }
    }

    /// An open cell that nobody painted or reserved: what a flood fill may claim.
    pub open spec fn unclaimed(self) -> bool {
        !self.wall() && !self.painted() && self.owner_code() == 0
    }

    /// An open, unpainted cell reserved for robot `i`.
    pub open spec fn claimed_by(self, i: int) -> bool {
        !self.wall() && !self.painted() && self.owner_code() == i + 1
    }

    /// Whether the cell is as a cell of a board with `n` robots can be: a
    /// wall is not painted, a reservation is for one of the robots and lies on
    /// an open, unpainted cell, and the item code is that of a booster.
    pub open spec fn tidy(self, n: int) -> bool {
        &&& self.owner_code() <= n
        &&& self.owner_code() != 0 ==> !self.wall() && !self.painted()
        &&& self.wall() ==> !self.painted()
        &&& self.item_code() <= 6
    }

    /// The cell painted and reserved for nobody.
    pub open spec fn swept(self) -> Cell {
        Cell((self.0 | 2u16) & 0x00ffu16)
    }

    /// The cell with the reservation `code`: a robot's index plus one, or 0
    /// for nobody.
    pub open spec fn reserved_as(self, code: int) -> Cell {
        Cell((self.0 & 0x00ffu16) | ((code as u16) << 8))
    }

    /// The cell with a portal on it.
    pub open spec fn with_portal(self) -> Cell {
        Cell(self.0 | 4u16)
    }

    /// The cell without its item.
    pub open spec fn emptied(self) -> Cell {
        Cell(self.0 & !(0xf0u16))
    }

    /// Whether the two cells agree on everything but the reservation.
    pub open spec fn same_but_owner(self, other: Cell) -> bool {
        &&& self.wall() == other.wall()
        &&& self.painted() == other.painted()
        &&& self.portal() == other.portal()
        &&& self.item_code() == other.item_code()
    }

    /// The cell with the given bits.
    pub fn new(v: u16) -> (c: Cell)
        ensures
            c.0 == v,
    {
        Cell(v)
    }

    /// An open cell with nothing on it.
    pub fn new_empty() -> (c: Cell)
        ensures
            c.0 == 0,
            !c.wall(),
            !c.painted(),
            !c.portal(),
            c.item_code() == 0,
            c.owner_code() == 0,
    {
        assert(0u16 & 1 == 0 && 0u16 & 2 == 0 && 0u16 & 4 == 0 && (0u16 >> 4) & 0xf == 0 && 0u16
            >> 8 == 0) by (bit_vector);
        Cell::new(0)
    }

    /// A wall.
    pub fn new_wall() -> (c: Cell)
        ensures
            c.0 == 1,
            c.wall(),
            !c.painted(),
            !c.portal(),
            c.item_code() == 0,
            c.owner_code() == 0,
    {
        assert(1u16 & 1 == 1 && 1u16 & 2 == 0 && 1u16 & 4 == 0 && (1u16 >> 4) & 0xf == 0 && 1u16
            >> 8 == 0) by (bit_vector);
        Cell::new(1)
    }

    /// The code of the item on the cell.
    pub fn item(&self) -> (r: Option<usize>)
        ensures
            self.item_code() == 0 ==> r is None,
            self.item_code() != 0 ==> r == Some(self.item_code() as usize),
            0 <= self.item_code() < 16,
    {
        let v: u16 = self.0;
        assert((v >> 4) & 0xf < 16) by (bit_vector);
        let t: u16 = (v >> 4) & 0xf;
        if t == 0 {
            None
        } else {
            Some(t as usize)
        }
    }

    /// Puts an item on the cell, or takes the item off it.
    pub fn set_item(&mut self, item: Option<Booster>)
        ensures
            final(self).item_code() == (match item {
                Some(b) => b.code(),
                None => 0,
            }),
            final(self).wall() == old(self).wall(),
            final(self).painted() == old(self).painted(),
            final(self).portal() == old(self).portal(),
            final(self).owner_code() == old(self).owner_code(),
            final(self).spare() == old(self).spare(),
            final(self).0 == (old(self).0 & !(0xf0u16)) | ((match item {
                Some(b) => b.code() as u16,
                None => 0u16,
            }) << 4),
    {
        let c: u16 = match item {
            Some(b) => booster2u16(b),
            None => 0,
        };
        let v: u16 = self.0;
        let r: u16 = (v & !(0xf0u16)) | (c << 4);
        assert(((r >> 4) & 0xf == c) && (r & 1 == v & 1) && (r & 2 == v & 2) && (r & 4 == v & 4)
            && (r & 8 == v & 8) && (r >> 8 == v >> 8)) by (bit_vector)
            requires
                c < 16,
                r == (v & !(0xf0u16)) | (c << 4),
        ;
        self.0 = r;
    }

    /// Drops a portal on the cell.
    pub fn set_portal(&mut self)
        ensures
            final(self).portal(),
            final(self).wall() == old(self).wall(),
            final(self).painted() == old(self).painted(),
            final(self).item_code() == old(self).item_code(),
            final(self).owner_code() == old(self).owner_code(),
            final(self).0 == old(self).0 | 4u16,
    {
        let v: u16 = self.0;
        let r: u16 = v | 4u16;
        assert((r & 4 != 0) && (r & 1 == v & 1) && (r & 2 == v & 2) && ((r >> 4) & 0xf == (v >> 4)
            & 0xf) && (r >> 8 == v >> 8)) by (bit_vector)
            requires
                r == v | 4u16,
        ;
        self.0 = r;
    }

    /// Whether a portal was dropped on the cell.
    pub fn has_portal(&self) -> (b: bool)
        ensures
            b == self.portal(),
    {
        self.0 & 4 != 0
    }

    /// Whether the cell is a wall.
    pub fn is_wall(&self) -> (b: bool)
        ensures
            b == self.wall(),
    {
        self.0 & 1 != 0
    }

    /// Whether the cell is painted.
    pub fn is_painted(&self) -> (b: bool)
        ensures
            b == self.painted(),
    {
        self.0 & 2 != 0
    }

    /// Paints the cell.
    pub fn set_painted(&mut self)
        ensures
            final(self).painted(),
            final(self).wall() == old(self).wall(),
            final(self).portal() == old(self).portal(),
            final(self).item_code() == old(self).item_code(),
            final(self).owner_code() == old(self).owner_code(),
            old(self).painted() ==> *final(self) == *old(self),
            final(self).0 == old(self).0 | 2u16,
    {
        let v: u16 = self.0;
        let r: u16 = v | 2;
        assert((r & 2 != 0) && (r & 1 == v & 1) && (r & 4 == v & 4) && ((r >> 4) & 0xf == (v >> 4)
            & 0xf) && (r >> 8 == v >> 8) && (v & 2 != 0 ==> r == v)) by (bit_vector)
            requires
                r == v | 2,
        ;
        self.0 = r;
    }

    /// The robot that reserved the cell.
    pub fn prio(&self) -> (r: Option<usize>)
        ensures
            self.owner() is None <==> r is None,
            r matches Some(i) ==> self.owner() == Some(i as int),
            0 <= self.owner_code() < 256,
    {
        let v: u16 = self.0;
        assert(v >> 8 < 256) by (bit_vector);
        let t: u16 = v >> 8;
        if t == 0 {
            None
        } else {
            Some((t - 1) as usize)
        }
    }

    /// Reserves the cell for a robot, or releases it.
    pub fn set_prio(&mut self, prio: Option<usize>)
        requires
            prio matches Some(i) ==> i <= MAX_OWNER,
        ensures
            final(self).owner_code() == (match prio {
                Some(i) => i + 1,
                None => 0,
            }),
            final(self).same_but_owner(*old(self)),
            final(self).0 == (old(self).0 & !(0xff00u16)) | ((match prio {
                Some(i) => (i + 1) as u16,
                None => 0u16,
            }) << 8),
    {
        let c: u16 = match prio {
            Some(i) => (i + 1) as u16,
            None => 0,
        };
        let v: u16 = self.0;
        let r: u16 = (v & !(0xff00u16)) | (c << 8);
        assert((r >> 8 == c) && (r & 1 == v & 1) && (r & 2 == v & 2) && (r & 4 == v & 4) && ((r
            >> 4) & 0xf == (v >> 4) & 0xf)) by (bit_vector)
            requires
                c < 256,
                r == (v & !(0xff00u16)) | (c << 8),
        ;
        self.0 = r;
    }

    /// The character that shows the cell in a dump of the board.
    pub open spec fn glyph(self) -> char {
        if self.item_code() == 1 {
            'B'
        } else if self.item_code() == 2 {
            'F'
        } else if self.item_code() == 3 {
            'L'
        } else if self.item_code() == 4 {
            'X'
        } else if self.item_code() == 5 {
            'R'
        } else if self.item_code() == 6 {
            'C'
        } else if self.owner_code() != 0 {
            ((47 + self.owner_code()) as u8) as char
        } else if self.painted() {
            '.'
        } else if self.wall() {
            '#'
        } else {
            ' '
        }
    }

    /// Whether the cell can be shown as one character: it holds an item, or
    /// the robot for which it is reserved has an index of no more than 206.
    pub open spec fn showable(self) -> bool {
        1 <= self.item_code() <= 6 || self.owner_code() <= 207
    }

    /// The character that shows the cell in a dump of the board: the item's
    /// letter, else the reserving robot's index counted from the digit 0, else
    /// a dot on a painted cell, `#` on a wall and a blank on an open cell.
    pub fn to_char(&self) -> (c: char)
        requires
            self.showable(),
        ensures
            c == self.glyph(),
    {
        let v: u16 = self.0;
        assert((v >> 4) & 0xf < 16 && v >> 8 < 256) by (bit_vector);
        let item: u16 = (v >> 4) & 0xf;
        let owner: u16 = v >> 8;
        if item == 1 {
            'B'
        } else if item == 2 {
            'F'
        } else if item == 3 {
            'L'
        } else if item == 4 {
            'X'
        } else if item == 5 {
            'R'
        } else if item == 6 {
            'C'
        } else if owner != 0 {
            let d: u8 = (47 + owner) as u8;
            d as char
        } else if v & 2 != 0 {
            '.'
        } else if v & 1 != 0 {
            '#'
        } else {
            ' '
        }
    }
}

/// The cell with no bit set is an open cell with nothing on it, and the cell
/// with the lowest bit alone is a wall with nothing on it.
pub proof fn lemma_plain_cells()
    ensures
        !Cell(0).wall() && !Cell(0).painted() && !Cell(0).portal() && Cell(0).item_code() == 0
            && Cell(0).owner_code() == 0 && !Cell(0).spare(),
        Cell(1).wall() && !Cell(1).painted() && !Cell(1).portal() && Cell(1).item_code() == 0
            && Cell(1).owner_code() == 0 && !Cell(1).spare(),
{
    assert(0u16 & 1 == 0 && 0u16 & 2 == 0 && 0u16 & 4 == 0 && 0u16 & 8 == 0 && (0u16 >> 4) & 0xf
        == 0 && 0u16 >> 8 == 0) by (bit_vector);
    assert(1u16 & 1 == 1 && 1u16 & 2 == 0 && 1u16 & 4 == 0 && 1u16 & 8 == 0 && (1u16 >> 4) & 0xf
        == 0 && 1u16 >> 8 == 0) by (bit_vector);
}

/// Two cells that agree on the wall, the paint, the portal, the item, the
/// reservation and the bit that stands for nothing are the same cell.
pub proof fn lemma_same_cell(a: Cell, b: Cell)
    requires
        a.wall() == b.wall(),
        a.painted() == b.painted(),
        a.portal() == b.portal(),
        a.spare() == b.spare(),
        a.item_code() == b.item_code(),
        a.owner_code() == b.owner_code(),
    ensures
        a == b,
{
    let v = a.0;
    let w = b.0;
    assert(v == w) by (bit_vector)
        requires
            (v & 1 != 0) == (w & 1 != 0),
            (v & 2 != 0) == (w & 2 != 0),
            (v & 4 != 0) == (w & 4 != 0),
            (v & 8 != 0) == (w & 8 != 0),
            (v >> 4) & 0xf == (w >> 4) & 0xf,
            v >> 8 == w >> 8,
    ;
}

} // verus!
