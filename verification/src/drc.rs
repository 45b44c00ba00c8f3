//! Placement design rules: master classes, the class-pair padding matrix, and the rules that read
//! the squares around a cell.

use vstd::prelude::*;
use crate::text::{has_prefix, same_text, starts_with};

verus! {

/// The master classes the padding matrix is defined over.
#[derive(Debug, Clone, Copy, PartialEq, Eq, Structural)]
pub enum Class {
    /// Core logic: the cells being placed.
    Cr,
    /// Well taps.
    Wt,
    /// Blocks and macros.
    Bl,
    /// Spacers and endcaps.
    Sp,
    /// Covers, rings, pads and anything unknown: ignored by the placer.
    Ignored,
}

/// The class of a master type name.
pub open spec fn class_of(t: Seq<char>) -> Class {
    if t == "CORE"@ || t == "CORE_FEEDTHRU"@ || t == "CORE_TIEHIGH"@ || t == "CORE_TIELOW"@
        || t == "CORE_ANTENNACELL"@ {
        Class::Cr
    } else if t == "CORE_WELLTAP"@ {
        Class::Wt
    } else if t == "BLOCK"@ || t == "BLOCK_BLACKBOX"@ || t == "BLOCK_SOFT"@ {
        Class::Bl
    } else if t == "CORE_SPACER"@ || has_prefix(t, "ENDCAP"@) {
        Class::Sp
    } else {
        Class::Ignored
    }
}

/// Classify a master type name. An unknown type is [`Class::Ignored`].
pub fn classify(master_type: &str) -> (r: Class)
    ensures
        r == class_of(master_type@),
{
    if same_text(master_type, "CORE") || same_text(master_type, "CORE_FEEDTHRU")
        || same_text(master_type, "CORE_TIEHIGH") || same_text(master_type, "CORE_TIELOW")
        || same_text(master_type, "CORE_ANTENNACELL") {
        Class::Cr
    } else if same_text(master_type, "CORE_WELLTAP") {
        Class::Wt
    } else if same_text(master_type, "BLOCK") || same_text(master_type, "BLOCK_BLACKBOX")
        || same_text(master_type, "BLOCK_SOFT") {
        Class::Bl
    } else if same_text(master_type, "CORE_SPACER") || starts_with(master_type, "ENDCAP") {
        Class::Sp
    } else {
        Class::Ignored
    }
}

/// Whether a class takes part in the padding matrix.
pub open spec fn matrix_class(c: Class) -> bool {
    c is Cr || c is Wt || c is Bl
}

/// Whether two classes may overlap once padding is counted.
pub open spec fn padding_overlap_allowed(a: Class, b: Class) -> bool {
    !matrix_class(a) || !matrix_class(b) || (a is Wt && b is Wt)
}

/// Whether two cells of these classes conflict.
pub open spec fn padding_conflict(a: Class, b: Class, same_cell: bool) -> bool {
    !same_cell && !padding_overlap_allowed(a, b) && !(a is Bl && b is Bl)
}

/// Is this class in the padded-overlap matrix at all?
pub fn in_matrix(c: Class) -> (r: bool)
    ensures
        r == matrix_class(c),
{
    matches!(c, Class::Cr | Class::Wt | Class::Bl)
}

/// Pairs of blocks may overlap outright.
pub fn allow_overlap(a: Class, b: Class) -> (r: bool)
    ensures
        r == (a is Bl && b is Bl),
{
    a == Class::Bl && b == Class::Bl
}

/// May these two classes overlap once padding is counted? Two well taps may, though both are in
/// the matrix.
pub fn allow_padding_overlap(a: Class, b: Class) -> (r: bool)
    ensures
        r == padding_overlap_allowed(a, b),
{
    !in_matrix(a) || !in_matrix(b) || (a == Class::Wt && b == Class::Wt)
}

/// Do these two cells conflict? A cell never conflicts with itself.
pub fn has_padding_conflict(a: Class, b: Class, same_cell: bool) -> (r: bool)
    ensures
        r == padding_conflict(a, b, same_cell),
{
    !same_cell && !allow_padding_overlap(a, b) && !allow_overlap(a, b)
}

/// The rule that governs a pair of classes:
///
/// ```text
///     CR WT BL SP
/// CR   P  P  P  O
/// WT   P  O  P  O
/// BL   P  P  -  O
/// SP   O  O  O  O
/// ```
#[derive(Debug, Clone, Copy, PartialEq, Eq, Structural)]
pub enum PairRule {
    /// `P`: the padded footprints may not overlap.
    NoPaddedOverlap,
    /// `O`: the footprints may not overlap, padding ignored.
    NoOverlap,
    /// `-`: overlap is allowed outright.
    OverlapAllowed,
}

/// The table, entry by entry.
pub open spec fn rule_of(a: Class, b: Class) -> PairRule {
    match (a, b) {
        (Class::Bl, Class::Bl) => PairRule::OverlapAllowed,
        (Class::Wt, Class::Wt) => PairRule::NoOverlap,
        (Class::Cr | Class::Wt | Class::Bl, Class::Cr | Class::Wt | Class::Bl) => PairRule::NoPaddedOverlap,
        _ => PairRule::NoOverlap,
    }
}

/// Which rule governs a pair of classes.
pub fn pair_rule(a: Class, b: Class) -> (r: PairRule)
    ensures
        r == rule_of(a, b),
{
    if allow_overlap(a, b) {
        return PairRule::OverlapAllowed;
    }
    if allow_padding_overlap(a, b) {
        PairRule::NoOverlap
    } else {
        PairRule::NoPaddedOverlap
    }
}

/// The matrix is symmetric: neither the rule nor the conflict depends on which cell is asked first.
pub proof fn law_matrix_symmetric(a: Class, b: Class, same_cell: bool)
    ensures
        rule_of(a, b) == rule_of(b, a),
        padding_conflict(a, b, same_cell) == padding_conflict(b, a, same_cell),
{
}

/// Two different cells conflict exactly where the table says that padded footprints may not
/// overlap, and a cell never conflicts with itself.
pub proof fn law_conflict_is_the_padded_rule(a: Class, b: Class)
    ensures
        padding_conflict(a, b, false) <==> rule_of(a, b) is NoPaddedOverlap,
        !padding_conflict(a, b, true),
{
}

/// The occupant of a square and the cell whose padding reserves it, each with its class and
/// whether it is the cell being asked about.
pub type Claims = (Option<(Class, bool)>, Option<(Class, bool)>);

/// Whether a square's claims conflict with a cell of class `cell`. A square off the grid does not.
pub open spec fn claims_conflict(cell: Class, c: Option<Claims>) -> bool {
    match c {
        None => false,
        Some((occupant, reserver)) => {
            ||| (occupant matches Some(o) && padding_conflict(cell, o.0, o.1))
            ||| (reserver matches Some(o) && padding_conflict(cell, o.0, o.1))
        },
    }
}

/// Whether a function value and a mathematical function agree.
pub open spec fn agrees2<R, F: Fn(i32, i32) -> R>(f: F, g: spec_fn(i32, i32) -> R) -> bool {
    forall|x: i32, y: i32, r: R| #[trigger] f.ensures((x, y), r) ==> r == g(x, y)
}

/// Whether no square of the box conflicts with a cell of class `cell`.
pub open spec fn box_clear(cell: Class, g: spec_fn(i32, i32) -> Option<Claims>, x0: int, x1: int, y0: int, y1: int) -> bool {
    forall|gx: i32, gy: i32| #![trigger g(gx, gy)] x0 <= gx < x1 && y0 <= gy < y1 ==> !claims_conflict(cell, g(gx, gy))
}

/// Does a square's content conflict with a cell of class `cell`?
fn conflicts_here(cell: Class, c: &Option<Claims>) -> (r: bool)
    ensures
        r == claims_conflict(cell, *c),
{
    match c {
        None => false,
        Some((occupant, reserver)) => {
            let a = match occupant {
                Some(o) => has_padding_conflict(cell, o.0, o.1),
                None => false,
            };
            let b = match reserver {
                Some(o) => has_padding_conflict(cell, o.0, o.1),
                None => false,
            };
            a || b
        },
    }
}

/// Walk the cell's footprint widened by its padding and look for a conflict; `true` is clean.
///
/// Padding widens the scan in X only; the Y range is the cell's own rows. Both the occupant and
/// the padding reservation of a square are asked. A square off the grid (`None`) is skipped.
pub fn check_padding<F: Fn(i32, i32) -> Option<Claims>>(
    x: i32, x_end: i32, y: i32, y_end: i32, left_pad: i32, right_pad: i32,
    cell: Class,
    at: &F,
) -> (r: bool)
    requires
        i32::MIN <= x - left_pad <= i32::MAX,
        i32::MIN <= x_end + right_pad <= i32::MAX,
        forall|a: i32, b: i32| #[trigger] at.requires((a, b)),
    ensures
        forall|g: spec_fn(i32, i32) -> Option<Claims>| #[trigger] agrees2(*at, g) ==>
            r == box_clear(cell, g, x - left_pad, x_end + right_pad, y as int, y_end as int),
{
    let x0: i32 = x - left_pad;
    let x1: i32 = x_end + right_pad;
    let mut gx: i32 = x0;
    while gx < x1
        invariant
            x0 == x - left_pad,
            x1 == x_end + right_pad,
            x0 <= gx,
            gx <= x1 || x1 < x0,
            forall|a: i32, b: i32| #[trigger] at.requires((a, b)),
            forall|g: spec_fn(i32, i32) -> Option<Claims>| #[trigger] agrees2(*at, g) ==>
                box_clear(cell, g, x0 as int, gx as int, y as int, y_end as int),
        decreases x1 - gx,
    {
        let mut gy: i32 = y;
        while gy < y_end
            invariant
                x0 == x - left_pad,
                x1 == x_end + right_pad,
                x0 <= gx < x1,
                y <= gy,
                gy <= y_end || y_end < y,
                forall|a: i32, b: i32| #[trigger] at.requires((a, b)),
                forall|g: spec_fn(i32, i32) -> Option<Claims>| #[trigger] agrees2(*at, g) ==>
                    box_clear(cell, g, x0 as int, gx as int, y as int, y_end as int),
                forall|g: spec_fn(i32, i32) -> Option<Claims>| #[trigger] agrees2(*at, g) ==>
                    box_clear(cell, g, gx as int, gx + 1, y as int, gy as int),
            decreases y_end - gy,
        {
            let c = at(gx, gy);
            if conflicts_here(cell, &c) {
                assert forall|g: spec_fn(i32, i32) -> Option<Claims>| #[trigger] agrees2(*at, g) implies
                    !box_clear(cell, g, x - left_pad, x_end + right_pad, y as int, y_end as int) by {
                    assert(c == g(gx, gy));
                }
                return false;
            }
            assert forall|g: spec_fn(i32, i32) -> Option<Claims>| #[trigger] agrees2(*at, g) implies
                box_clear(cell, g, gx as int, gx + 1, y as int, gy + 1) by {
                assert(c == g(gx, gy));
                assert(box_clear(cell, g, gx as int, gx + 1, y as int, gy as int));
            }
            gy = gy + 1;
        }
        assert forall|g: spec_fn(i32, i32) -> Option<Claims>| #[trigger] agrees2(*at, g) implies
            box_clear(cell, g, x0 as int, gx + 1, y as int, y_end as int) by {
            assert(box_clear(cell, g, x0 as int, gx as int, y as int, y_end as int));
            assert(box_clear(cell, g, gx as int, gx + 1, y as int, gy as int));
        }
        gx = gx + 1;
    }
    assert forall|g: spec_fn(i32, i32) -> Option<Claims>| #[trigger] agrees2(*at, g) implies
        box_clear(cell, g, x - left_pad, x_end + right_pad, y as int, y_end as int) by {
        assert(box_clear(cell, g, x0 as int, gx as int, y as int, y_end as int));
    }
    true
}

/// A square next to a cell is abutted where it lies off the grid or holds a cell.
pub open spec fn abutted(c: Option<bool>) -> bool {
    c is None || c == Some(true)
}

/// Whether a cell whose edge square is `near` and whose next square is `far` leaves a gap of one
/// site to another cell.
pub open spec fn one_site_gap(near: Option<bool>, far: Option<bool>) -> bool {
    !abutted(near) && far == Some(true)
}

/// Whether no row of the cell has a gap of one site on either side.
pub open spec fn gap_free(g: spec_fn(i32, i32) -> Option<bool>, x: int, x_end: int, y: int, y_end: int) -> bool {
    forall|gy: i32| #![trigger g((x - 1) as i32, gy)] y <= gy < y_end ==> {
        &&& !one_site_gap(g((x - 1) as i32, gy), g((x - 2) as i32, gy))
        &&& !one_site_gap(g(x_end as i32, gy), g((x_end + 1) as i32, gy))
    }
}

/// Does the cell leave no gap of exactly one site to a neighbour? `occupied` says of a square
/// whether it holds a cell, and `None` off the grid, which counts as an abutting edge. Where gaps
/// are allowed, every position passes.
pub fn check_one_site_gap<F: Fn(i32, i32) -> Option<bool>>(
    disallowed: bool, x: i32, x_end: i32, y: i32, y_end: i32, occupied: &F,
) -> (r: bool)
    requires
        i32::MIN + 2 <= x,
        x_end < i32::MAX,
        forall|a: i32, b: i32| #[trigger] occupied.requires((a, b)),
    ensures
        forall|g: spec_fn(i32, i32) -> Option<bool>| #[trigger] agrees2(*occupied, g) ==>
            r == (!disallowed || gap_free(g, x as int, x_end as int, y as int, y_end as int)),
{
    if !disallowed {
        return true;
    }
    let mut gy: i32 = y;
    while gy < y_end
        invariant
            disallowed,
            i32::MIN + 2 <= x,
            x_end < i32::MAX,
            y <= gy,
            gy <= y_end || gy == y,
            forall|a: i32, b: i32| #[trigger] occupied.requires((a, b)),
            forall|g: spec_fn(i32, i32) -> Option<bool>| #[trigger] agrees2(*occupied, g) ==>
                gap_free(g, x as int, x_end as int, y as int, gy as int),
        decreases y_end - gy,
    {
        let l1 = occupied(x - 1, gy);
        let l2 = occupied(x - 2, gy);
        let r1 = occupied(x_end, gy);
        let r2 = occupied(x_end + 1, gy);
        if gap_between(l1, l2) || gap_between(r1, r2) {
            assert forall|g: spec_fn(i32, i32) -> Option<bool>| #[trigger] agrees2(*occupied, g) implies
                !gap_free(g, x as int, x_end as int, y as int, y_end as int) by {
                assert(g((x - 1) as i32, gy) == l1 && g((x - 2) as i32, gy) == l2);
                assert(g(x_end as i32, gy) == r1 && g((x_end + 1) as i32, gy) == r2);
            }
            return false;
        }
        assert forall|g: spec_fn(i32, i32) -> Option<bool>| #[trigger] agrees2(*occupied, g) implies
            gap_free(g, x as int, x_end as int, y as int, gy + 1) by {
            assert(g((x - 1) as i32, gy) == l1 && g((x - 2) as i32, gy) == l2);
            assert(g(x_end as i32, gy) == r1 && g((x_end + 1) as i32, gy) == r2);
            assert(gap_free(g, x as int, x_end as int, y as int, gy as int));
        }
        gy = gy + 1;
    }
    true
}

fn gap_between(near: Option<bool>, far: Option<bool>) -> (r: bool)
    ensures
        r == one_site_gap(near, far),
{
    match (near, far) {
        (Some(false), Some(true)) => true,
        _ => false,
    }
}

/// Whether no square of the box blocks a routing level that a cell uses.
pub open spec fn layers_clear(g: spec_fn(i32, i32) -> Option<u32>, x0: int, x1: int, y0: int, y1: int, used: u32) -> bool {
    forall|gx: i32, gy: i32| #![trigger g(gx, gy)] x0 <= gx < x1 && y0 <= gy < y1 ==> (g(gx, gy) matches Some(m) ==> m & used == 0)
}

/// Does no square of the cell's footprint block a routing level that its pins use? `blocked` gives
/// the levels blocked in a square, and `None` off the grid, which blocks nothing.
pub fn check_blocked_layers<F: Fn(i32, i32) -> Option<u32>>(x: i32, x_end: i32, y: i32, y_end: i32, used: u32, blocked: &F) -> (r: bool)
    requires
        forall|a: i32, b: i32| #[trigger] blocked.requires((a, b)),
    ensures
        forall|g: spec_fn(i32, i32) -> Option<u32>| #[trigger] agrees2(*blocked, g) ==>
            r == layers_clear(g, x as int, x_end as int, y as int, y_end as int, used),
{
    let mut gx: i32 = x;
    while gx < x_end
        invariant
            x <= gx,
            gx <= x_end || gx == x,
            forall|a: i32, b: i32| #[trigger] blocked.requires((a, b)),
            forall|g: spec_fn(i32, i32) -> Option<u32>| #[trigger] agrees2(*blocked, g) ==>
                layers_clear(g, x as int, gx as int, y as int, y_end as int, used),
        decreases x_end - gx,
    {
        let mut gy: i32 = y;
        while gy < y_end
            invariant
                x <= gx < x_end,
                y <= gy,
                gy <= y_end || gy == y,
                forall|a: i32, b: i32| #[trigger] blocked.requires((a, b)),
                forall|g: spec_fn(i32, i32) -> Option<u32>| #[trigger] agrees2(*blocked, g) ==>
                    layers_clear(g, x as int, gx as int, y as int, y_end as int, used),
                forall|g: spec_fn(i32, i32) -> Option<u32>| #[trigger] agrees2(*blocked, g) ==>
                    layers_clear(g, gx as int, gx + 1, y as int, gy as int, used),
            decreases y_end - gy,
        {
            let m = blocked(gx, gy);
            let hit: bool = match m {
                Some(mask) => mask & used != 0,
                None => false,
            };
            if hit {
                assert forall|g: spec_fn(i32, i32) -> Option<u32>| #[trigger] agrees2(*blocked, g) implies
                    !layers_clear(g, x as int, x_end as int, y as int, y_end as int, used) by {
                    assert(m == g(gx, gy));
                }
                return false;
            }
            assert forall|g: spec_fn(i32, i32) -> Option<u32>| #[trigger] agrees2(*blocked, g) implies
                layers_clear(g, gx as int, gx + 1, y as int, gy + 1, used) by {
                assert(m == g(gx, gy));
                assert(layers_clear(g, gx as int, gx + 1, y as int, gy as int, used));
            }
            gy = gy + 1;
        }
        assert forall|g: spec_fn(i32, i32) -> Option<u32>| #[trigger] agrees2(*blocked, g) implies
            layers_clear(g, x as int, gx + 1, y as int, y_end as int, used) by {
            assert(layers_clear(g, x as int, gx as int, y as int, y_end as int, used));
            assert(layers_clear(g, gx as int, gx + 1, y as int, gy as int, used));
        }
        gx = gx + 1;
    }
    assert forall|g: spec_fn(i32, i32) -> Option<u32>| #[trigger] agrees2(*blocked, g) implies
        layers_clear(g, x as int, x_end as int, y as int, y_end as int, used) by {
        assert(layers_clear(g, x as int, gx as int, y as int, y_end as int, used));
    }
    true
}

} // verus!
