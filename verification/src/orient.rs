//! The eight orientations of a cell, and what turning a cell does to its pins.

use vstd::prelude::*;
use crate::text::same_text;

verus! {

/// An orientation: a quarter turn or none, and mirrors.
#[derive(Debug, Clone, Copy, PartialEq, Eq, Structural)]
pub enum Orient {
    R0,
    R90,
    R180,
    R270,
    MY,
    MYR90,
    MX,
    MXR90,
}

impl Orient {
    /// The name of the orientation.
    pub open spec fn text(self) -> Seq<char> {
        match self {
            Orient::R0 => "R0"@,
            Orient::R90 => "R90"@,
            Orient::R180 => "R180"@,
            Orient::R270 => "R270"@,
            Orient::MY => "MY"@,
            Orient::MYR90 => "MYR90"@,
            Orient::MX => "MX"@,
            Orient::MXR90 => "MXR90"@,
        }
    }

    /// The orientation of a name, if it is one.
    pub open spec fn of_text(t: Seq<char>) -> Option<Orient> {
        if t == "R0"@ {
            Some(Orient::R0)
        } else if t == "R90"@ {
            Some(Orient::R90)
        } else if t == "R180"@ {
            Some(Orient::R180)
        } else if t == "R270"@ {
            Some(Orient::R270)
        } else if t == "MY"@ {
            Some(Orient::MY)
        } else if t == "MYR90"@ {
            Some(Orient::MYR90)
        } else if t == "MX"@ {
            Some(Orient::MX)
        } else if t == "MXR90"@ {
            Some(Orient::MXR90)
        } else {
            None
        }
    }

    /// The name of the orientation.
    pub fn name(self) -> (r: &'static str)
        ensures
            r@ == self.text(),
    {
        match self {
            Orient::R0 => "R0",
            Orient::R90 => "R90",
            Orient::R180 => "R180",
            Orient::R270 => "R270",
            Orient::MY => "MY",
            Orient::MYR90 => "MYR90",
            Orient::MX => "MX",
            Orient::MXR90 => "MXR90",
        }
    }

    /// The orientation of a name, if it is one.
    pub fn parse(t: &str) -> (r: Option<Orient>)
        ensures
            r == Orient::of_text(t@),
    {
        if same_text(t, "R0") {
            Some(Orient::R0)
        } else if same_text(t, "R90") {
            Some(Orient::R90)
        } else if same_text(t, "R180") {
            Some(Orient::R180)
        } else if same_text(t, "R270") {
            Some(Orient::R270)
        } else if same_text(t, "MY") {
            Some(Orient::MY)
        } else if same_text(t, "MYR90") {
            Some(Orient::MYR90)
        } else if same_text(t, "MX") {
            Some(Orient::MX)
        } else if same_text(t, "MXR90") {
            Some(Orient::MXR90)
        } else {
            None
        }
    }

    /// Whether the orientation has a quarter turn, so that width and height change places.
    pub open spec fn quarter(self) -> bool {
        self == Orient::R90 || self == Orient::MXR90 || self == Orient::R270 || self == Orient::MYR90
    }

    /// Whether the orientation has a quarter turn.
    pub fn is_quarter(self) -> (r: bool)
        ensures
            r == self.quarter(),
    {
        self == Orient::R90 || self == Orient::MXR90 || self == Orient::R270 || self == Orient::MYR90
    }

    /// Whether X keeps its sign, after the quarter turn if there is one.
    pub open spec fn keeps_x(self) -> bool {
        self == Orient::R0 || self == Orient::MX || self == Orient::R90 || self == Orient::MYR90
    }

    /// Whether Y keeps its sign, after the quarter turn if there is one.
    pub open spec fn keeps_y(self) -> bool {
        self == Orient::R0 || self == Orient::MY || self == Orient::R90 || self == Orient::MXR90
    }

    /// Where an offset from the centre of an unturned cell goes in this orientation.
    pub open spec fn turned(self, p: (int, int)) -> (int, int) {
        let q = if self.quarter() { (p.1, -p.0) } else { p };
        (if self.keeps_x() { q.0 } else { -q.0 }, if self.keeps_y() { q.1 } else { -q.1 })
    }

    /// Where an offset in this orientation comes from in the unturned cell.
    pub open spec fn unturned(self, p: (int, int)) -> (int, int) {
        let q = (if self.keeps_x() { p.0 } else { -p.0 }, if self.keeps_y() { p.1 } else { -p.1 });
        if self.quarter() { (-q.1, q.0) } else { q }
    }

    /// An offset in orientation `self` after a change to orientation `to`.
    pub open spec fn carried(self, to: Orient, p: (int, int)) -> (int, int) {
        to.turned(self.unturned(p))
    }

    fn sign_x(self) -> (r: i32)
        ensures
            r == if self.keeps_x() { 1i32 } else { -1i32 },
    {
        if self == Orient::R0 || self == Orient::MX || self == Orient::R90 || self == Orient::MYR90 { 1 } else { -1 }
    }

    fn sign_y(self) -> (r: i32)
        ensures
            r == if self.keeps_y() { 1i32 } else { -1i32 },
    {
        if self == Orient::R0 || self == Orient::MY || self == Orient::R90 || self == Orient::MXR90 { 1 } else { -1 }
    }

    /// An offset in orientation `self` after a change to orientation `to`.
    pub fn carry(self, to: Orient, x: i32, y: i32) -> (r: (i32, i32))
        requires
            x > i32::MIN,
            y > i32::MIN,
        ensures
            (r.0 as int, r.1 as int) == self.carried(to, (x as int, y as int)),
    {
        let a: i32 = if self.sign_x() == 1 { x } else { -x };
        let b: i32 = if self.sign_y() == 1 { y } else { -y };
        let h: (i32, i32) = if self.is_quarter() { (-b, a) } else { (a, b) };
        let q: (i32, i32) = if to.is_quarter() { (h.1, -h.0) } else { h };
        (if to.sign_x() == 1 { q.0 } else { -q.0 }, if to.sign_y() == 1 { q.1 } else { -q.1 })
    }

    /// The orientation flipped about Y within its row, if it has no quarter turn.
    pub open spec fn flipped(self) -> Option<Orient> {
        match self {
            Orient::R0 => Some(Orient::MY),
            Orient::R180 => Some(Orient::MX),
            Orient::MY => Some(Orient::R0),
            Orient::MX => Some(Orient::R180),
            _ => None,
        }
    }

    /// The orientation flipped about Y, if it has no quarter turn.
    pub fn flip(self) -> (r: Option<Orient>)
        ensures
            r == self.flipped(),
    {
        match self {
            Orient::R0 => Some(Orient::MY),
            Orient::R180 => Some(Orient::MX),
            Orient::MY => Some(Orient::R0),
            Orient::MX => Some(Orient::R180),
            _ => None,
        }
    }

    /// The orientation turned over about X, if it has no quarter turn.
    pub open spec fn upended(self) -> Option<Orient> {
        match self {
            Orient::R0 => Some(Orient::MX),
            Orient::MY => Some(Orient::R180),
            Orient::MX => Some(Orient::R0),
            Orient::R180 => Some(Orient::MY),
            _ => None,
        }
    }

    /// The orientation turned over about X, if it has no quarter turn.
    pub fn upend(self) -> (r: Option<Orient>)
        ensures
            r == self.upended(),
    {
        match self {
            Orient::R0 => Some(Orient::MX),
            Orient::MY => Some(Orient::R180),
            Orient::MX => Some(Orient::R0),
            Orient::R180 => Some(Orient::MY),
            _ => None,
        }
    }
}

/// A name that is read is the name of the orientation it gives.
pub proof fn law_names_read_back(o: Orient)
    ensures
        Orient::of_text(o.text()) == Some(o),
{
    reveal_strlit("R0");
    reveal_strlit("R90");
    reveal_strlit("R180");
    reveal_strlit("R270");
    reveal_strlit("MY");
    reveal_strlit("MYR90");
    reveal_strlit("MX");
    reveal_strlit("MXR90");
    assert("R0"@.len() == 2 && "MX"@.len() == 2 && "MY"@.len() == 2 && "R90"@.len() == 3 && "R180"@.len() == 4 && "R270"@.len() == 4);
    assert("MXR90"@.len() == 5 && "MYR90"@.len() == 5);
    assert("R0"@[0] == 'R' && "MX"@[0] == 'M' && "MY"@[0] == 'M' && "MX"@[1] == 'X' && "MY"@[1] == 'Y');
    assert("R180"@[1] == '1' && "R270"@[1] == '2');
    assert("MXR90"@[1] == 'X' && "MYR90"@[1] == 'Y');
    assert("R0"@ != "MX"@ && "R0"@ != "MY"@ && "MX"@ != "MY"@);
    assert("R180"@ != "R270"@ && "MXR90"@ != "MYR90"@);
}

/// Turning in two steps is turning in one, and turning back restores every offset.
pub proof fn law_turns_compose(a: Orient, b: Orient, c: Orient, p: (int, int))
    ensures
        b.carried(c, a.carried(b, p)) == a.carried(c, p),
        a.carried(a, p) == p,
        b.carried(a, a.carried(b, p)) == p,
{
}

/// Flipping about Y twice gives the orientation back, and negates a pin's X offset only.
pub proof fn law_flip_negates_x(o: Orient, p: (int, int))
    requires
        o.flipped() is Some,
    ensures
        o.flipped()->Some_0.flipped() == Some(o),
        o.carried(o.flipped()->Some_0, p) == (-p.0, p.1),
{
}

/// What mirrors a master allows: about X, about Y, and quarter turns.
pub type Symmetry = (bool, bool, bool);

/// Whether a master's symmetry allows an orientation.
pub open spec fn sym_allows(sym: Symmetry, o: Orient) -> bool {
    match o {
        Orient::R0 => true,
        Orient::MX => sym.0,
        Orient::MY => sym.1,
        Orient::R180 => sym.0 && sym.1,
        Orient::R90 | Orient::R270 => sym.2,
        Orient::MXR90 | Orient::MYR90 => sym.2 && sym.0 && sym.1,
    }
}

/// Does a master's symmetry allow an orientation?
pub fn is_legal_sym(sym: Symmetry, o: Orient) -> (r: bool)
    ensures
        r == sym_allows(sym, o),
{
    match o {
        Orient::R0 => true,
        Orient::MX => sym.0,
        Orient::MY => sym.1,
        Orient::R180 => sym.0 && sym.1,
        Orient::R90 | Orient::R270 => sym.2,
        Orient::MXR90 | Orient::MYR90 => sym.2 && sym.0 && sym.1,
    }
}

} // verus!
