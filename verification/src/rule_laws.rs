//! What the rules between cells forbid, and which instances they are for.

use vstd::prelude::*;
use crate::drc::{box_clear, class_of, gap_free, layers_clear, padding_conflict, Claims, Class};
use crate::grid::Grid;
use crate::place::{excluded, may_move, movables, stays, PlaceInst};
use crate::text::{has_part, has_prefix};

verus! {

// ── gaps ─────────────────────────────────────────────────────────────────────────────────────

/// A free square beside a cell with a taken one behind it, in any row of the cell and on either side, is a gap.
pub proof fn law_one_free_square_is_a_gap(g: spec_fn(i32, i32) -> Option<bool>, x: int, x_end: int, y: int, y_end: int, gy: i32)
    requires
        y <= gy < y_end,
        (g((x - 1) as i32, gy) == Some(false) && g((x - 2) as i32, gy) == Some(true)) || (g(x_end as i32, gy) == Some(false) && g((x_end + 1) as i32, gy) == Some(true)),
    ensures
        !gap_free(g, x, x_end, y, y_end),
{
    let a = g((x - 1) as i32, gy);
}

/// A side of a cell has no gap: in every row its square there is taken or off the grid, or the next one is not taken.
pub open spec fn no_gap_beside(g: spec_fn(i32, i32) -> Option<bool>, near: i32, far: i32, y: int, y_end: int) -> bool {
    forall|gy: i32| y <= gy < y_end ==> #[trigger] g(near, gy) != Some(false) || g(far, gy) != Some(true)
}

/// Where neither side has a gap of one square, there is none; cells that touch leave none, nor do two free squares.
pub proof fn law_touching_or_two_free_squares_are_no_gap(g: spec_fn(i32, i32) -> Option<bool>, x: int, x_end: int, y: int, y_end: int)
    requires
        no_gap_beside(g, (x - 1) as i32, (x - 2) as i32, y, y_end),
        no_gap_beside(g, x_end as i32, (x_end + 1) as i32, y, y_end),
    ensures
        gap_free(g, x, x_end, y, y_end),
{
    assert forall|gy: i32| #![trigger g((x - 1) as i32, gy)] y <= gy < y_end implies {
        &&& !crate::drc::one_site_gap(g((x - 1) as i32, gy), g((x - 2) as i32, gy))
        &&& !crate::drc::one_site_gap(g(x_end as i32, gy), g((x_end + 1) as i32, gy))
    } by {
        let (a, b) = (g((x - 1) as i32, gy), g(x_end as i32, gy));
        if a is Some {
            assert(a == Some(true) || a == Some(false));
        }
        if b is Some {
            assert(b == Some(true) || b == Some(false));
        }
    }
}

// ── layers ───────────────────────────────────────────────────────────────────────────────────

/// A square of the footprint that blocks a level which the cell uses is in the way, wherever in the footprint it lies.
pub proof fn law_a_blocked_level_is_in_the_way(g: spec_fn(i32, i32) -> Option<u32>, x0: int, x1: int, y0: int, y1: int, used: u32, gx: i32, gy: i32)
    requires
        x0 <= gx < x1,
        y0 <= gy < y1,
        g(gx, gy) is Some,
        g(gx, gy)->Some_0 & used != 0,
    ensures
        !layers_clear(g, x0, x1, y0, y1, used),
{
    let m = g(gx, gy);
}

/// A cell that uses no level meets none, and a footprint that is clear is clear in each of its parts.
pub proof fn law_clear_levels_are_clear_in_parts(g: spec_fn(i32, i32) -> Option<u32>, x0: int, x1: int, y0: int, y1: int, a0: int, a1: int, b0: int, b1: int, used: u32)
    requires
        x0 <= a0 && a1 <= x1 && y0 <= b0 && b1 <= y1,
    ensures
        layers_clear(g, x0, x1, y0, y1, 0),
        layers_clear(g, x0, x1, y0, y1, used) ==> layers_clear(g, a0, a1, b0, b1, used),
{
    assert forall|gx: i32, gy: i32| #![trigger g(gx, gy)] x0 <= gx < x1 && y0 <= gy < y1 implies (g(gx, gy) matches Some(m) ==> m & 0 == 0) by {
        if g(gx, gy) is Some {
            let m = g(gx, gy)->Some_0;
            assert(m & 0 == 0) by (bit_vector);
        }
    }
}

// ── padding ──────────────────────────────────────────────────────────────────────────────────

/// A core cell is in the way of every other core cell, well tap and block that holds or reserves a square of its own.
pub proof fn law_core_cells_keep_their_padding(g: spec_fn(i32, i32) -> Option<Claims>, x0: int, x1: int, y0: int, y1: int, gx: i32, gy: i32, other: Class)
    requires
        x0 <= gx < x1,
        y0 <= gy < y1,
        other is Cr || other is Wt || other is Bl,
        g(gx, gy) is Some,
        g(gx, gy)->Some_0.0 == Some((other, false)) || g(gx, gy)->Some_0.1 == Some((other, false)),
    ensures
        !box_clear(Class::Cr, g, x0, x1, y0, y1),
{
    let c = g(gx, gy);
}

/// No cell is in its own way; two blocks, two well taps, and cells of no class that counts are not in each other's way;
/// and of two cells either is in the way of the other or neither.
pub proof fn law_whose_padding_counts(a: Class, b: Class)
    ensures
        !padding_conflict(a, b, true),
        !padding_conflict(Class::Bl, Class::Bl, false),
        !padding_conflict(Class::Wt, Class::Wt, false),
        (a is Sp || a is Ignored) ==> !padding_conflict(a, b, false),
        padding_conflict(a, b, false) == padding_conflict(b, a, false),
        (a is Cr && (b is Cr || b is Wt || b is Bl)) ==> padding_conflict(a, b, false),
        a is Wt && b is Bl ==> padding_conflict(a, b, false),
{
}

/// Core cells are plain core masters, feed-throughs, ties and antenna cells; well taps and blocks are of their own classes;
/// and nothing but spacers and end caps is of theirs.
pub proof fn law_masters_have_their_class(t: Seq<char>)
    ensures
        class_of(t) is Cr <==> t == "CORE"@ || t == "CORE_FEEDTHRU"@ || t == "CORE_TIEHIGH"@ || t == "CORE_TIELOW"@ || t == "CORE_ANTENNACELL"@,
        class_of(t) is Wt <==> t == "CORE_WELLTAP"@,
        class_of(t) is Bl <==> t == "BLOCK"@ || t == "BLOCK_BLACKBOX"@ || t == "BLOCK_SOFT"@,
        class_of(t) is Sp ==> t == "CORE_SPACER"@ || has_prefix(t, "ENDCAP"@),
        t == "CORE_SPACER"@ ==> class_of(t) is Sp,
{
    reveal_strlit("CORE");
    reveal_strlit("CORE_FEEDTHRU");
    reveal_strlit("CORE_TIEHIGH");
    reveal_strlit("CORE_TIELOW");
    reveal_strlit("CORE_ANTENNACELL");
    reveal_strlit("CORE_WELLTAP");
    reveal_strlit("CORE_SPACER");
    reveal_strlit("BLOCK");
    reveal_strlit("BLOCK_BLACKBOX");
    reveal_strlit("BLOCK_SOFT");
    assert("CORE"@.len() == 4 && "CORE_FEEDTHRU"@.len() == 13 && "CORE_TIEHIGH"@.len() == 12 && "CORE_TIELOW"@.len() == 11);
    assert("CORE_ANTENNACELL"@.len() == 16 && "CORE_WELLTAP"@.len() == 12 && "CORE_SPACER"@.len() == 11 && "BLOCK"@.len() == 5);
    assert("BLOCK_BLACKBOX"@.len() == 14 && "BLOCK_SOFT"@.len() == 10);
    assert("CORE_TIEHIGH"@[5] == 'T' && "CORE_WELLTAP"@[5] == 'W' && "CORE_TIELOW"@[5] == 'T' && "CORE_SPACER"@[5] == 'S');
}

// ── instances ────────────────────────────────────────────────────────────────────────────────

/// How many of the first `n` instances stay.
pub open spec fn staying(insts: Seq<PlaceInst>, n: int) -> int
    decreases n,
{
    if n <= 0 {
        0
    } else {
        let i = insts[n - 1];
        staying(insts, n - 1) + (if i.status@ == "FIRM"@ || i.status@ == "LOCKED"@ || has_part(i.master_type@, "BLOCK"@) { 1int } else { 0 })
    }
}

/// Every instance stays, is a cell to place, or is counted as left out, and none is two of these.
pub proof fn law_every_instance_is_accounted_for(g: Grid, insts: Seq<PlaceInst>, n: int)
    requires
        0 <= n <= insts.len(),
    ensures
        staying(insts, n) + movables(g, insts, n).len() + excluded(insts, n).len() == n,
    decreases n,
{
    if n > 0 {
        law_every_instance_is_accounted_for(g, insts, n - 1);
        let i = insts[n - 1];
        assert(stays(i) ==> !may_move(i));
    }
}

} // verus!
