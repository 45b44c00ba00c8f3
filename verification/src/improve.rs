//! The state that improving a placement works on.

use vstd::prelude::*;
use crate::orient::Orient;

pub use crate::checks::Checks;
pub use crate::rows::{Arch, Row};
pub use crate::segments::Segment;
pub use crate::setup::{setup, setup_with, Setup, SetupError, SetupInput};

verus! {

/// What a node of the network stands for.
#[derive(Debug, Clone, Copy, PartialEq, Eq, Structural)]
pub enum Kind {
    Cell,
    Terminal,
    Filler,
}

/// A node of the network. Coordinates are relative to the core.
#[derive(Debug)]
pub struct Node {
    pub id: usize,
    pub kind: Kind,
    pub name: String,
    pub master: String,
    pub left: i32,
    pub bottom: i32,
    pub width: i32,
    pub height: i32,
    pub fixed: bool,
    /// The placement group it is in, -1 for none.
    pub group: i32,
    pub orient: Orient,
    /// Whether the instance was placed; true for terminals and fillers.
    pub placed: bool,
}

/// A fixed node that stands for a gap in a row.
pub open spec fn is_filler(n: Node, id: int, lo: int, hi: int, bottom: int, height: int) -> bool {
    &&& n.id == id
    &&& n.kind == Kind::Filler
    &&& n.name@ == "-"@
    &&& n.master@ == Seq::<char>::empty()
    &&& n.left == lo
    &&& n.bottom == bottom
    &&& n.width == hi - lo
    &&& n.height == height
    &&& n.fixed
    &&& n.group == -1
    &&& n.orient == Orient::R0
    &&& n.placed
}

} // verus!
