//! Where cells start from: the squares they search from, the regions they are drawn to, and the segments they go to.

use vstd::prelude::*;
use crate::arith::{dist, imax, imin, round_quot};
use crate::grid::{is_nearest, lemma_nearest_unique};
use crate::improve::Node;
use crate::land::Land;
use crate::legal::{held_in, Pick};
use crate::place::{cell_named, crosses_left, crossed, crossed_in, group_of_cell, has_member, nearest_point, Diamond, Movable};
use crate::regions::{Box4, Group};

verus! {

// ── squares ──────────────────────────────────────────────────────────────────────────────────

proof fn lemma_round(a: int, b: int)
    requires
        a >= 0,
        b > 0,
    ensures
        round_quot(a, b) >= 0,
        -b <= 2 * (round_quot(a, b) * b - a) <= b,
{
    let q = (2 * a + b) / (2 * b);
    vstd::arithmetic::div_mod::lemma_fundamental_div_mod(2 * a + b, 2 * b);
    assert((2 * b) * q == 2 * (q * b)) by (nonlinear_arith);
    vstd::arithmetic::div_mod::lemma_div_pos_is_pos(2 * a + b, 2 * b);
}

/// A cell wanted on a column and a row, inside the core, starts its search right there.
pub proof fn law_a_cell_on_a_square_starts_there(d: Diamond, gx: int, gy: int, w: int, h: int)
    requires
        d.grid.wf(),
        0 <= gx < d.grid.row_site_count,
        0 <= gy < d.grid.row_count,
        gx * d.grid.site_width + w <= d.grid.row_site_count * d.grid.site_width,
        0 <= d.grid.row_y@[gy],
        d.grid.row_y@[gy] + h <= d.grid.core.3 - d.grid.core.1,
    ensures
        d.start_at(gx * d.grid.site_width, d.grid.row_y@[gy] as int, w, h) == (gx, gy),
{
    let g = d.grid;
    let sw = g.site_width as int;
    let x = gx * sw;
    let y = g.row_y@[gy] as int;
    assert(x >= 0) by (nonlinear_arith)
        requires
            x == gx * sw,
            gx >= 0,
            sw > 0,
    {
    }
    let cx = imin(imax(x, 0), imax(g.row_site_count * sw - w, 0));
    let cy = imin(imax(y, 0), imax(g.core.3 - g.core.1 - h, 0));
    assert(cx == x && cy == y);
    lemma_round(x, sw);
    let q = round_quot(x, sw);
    assert(q == gx) by (nonlinear_arith)
        requires
            -sw <= 2 * (q * sw - gx * sw) <= sw,
            sw > 0,
    {
        if q > gx {
            assert((q - gx) * sw >= sw) by (nonlinear_arith)
                requires
                    q - gx >= 1,
                    sw > 0,
            {
            }
            assert((q - gx) * sw == q * sw - gx * sw) by (nonlinear_arith);
        } else if q < gx {
            assert((gx - q) * sw >= sw) by (nonlinear_arith)
                requires
                    gx - q >= 1,
                    sw > 0,
            {
            }
            assert((gx - q) * sw == gx * sw - q * sw) by (nonlinear_arith);
        }
    }
    let rows = g.row_y@.subrange(0, imax(g.row_count as int, 1));
    assert forall|j: int| 0 <= j < rows.len() && j != gy implies dist(rows[gy] as int, y) < dist(#[trigger] rows[j] as int, y) by {
        assert(rows[j] == g.row_y@[j] && rows[gy] == g.row_y@[gy]);
    }
    assert(is_nearest(rows, y, gy));
    lemma_nearest_unique(rows, y, gy);
}

/// A cell starts at most half a site from where it is wanted, drawn into the core, where there are columns that far.
pub proof fn law_a_cell_starts_within_half_a_site(d: Diamond, x: int, y: int, w: int, h: int)
    requires
        d.grid.wf(),
        0 <= x,
        x + w <= d.grid.row_site_count * d.grid.site_width,
        d.start_at(x, y, w, h).0 < d.grid.row_site_count - 1,
    ensures
        -(d.grid.site_width as int) <= 2 * (d.start_at(x, y, w, h).0 * d.grid.site_width - x) <= d.grid.site_width,
{
    lemma_round(x, d.grid.site_width as int);
}

// ── regions ──────────────────────────────────────────────────────────────────────────────────

/// A cell that crosses a box's left edge is wanted where it does not overlap the box.
pub proof fn law_a_crossing_cell_steps_off_the_box(m: Movable, r: Box4)
    requires
        crosses_left(m, r),
        m.w >= 0,
        m.h >= 0,
    ensures
        ({
            let (x, y) = nearest_point(m, r);
            &&& x + m.w <= r.0 || r.2 <= x || y + m.h <= r.1 || r.3 <= y
            &&& x == m.x || y == m.y
        }),
{
}

/// A cell that crosses no left edge is wanted where it lies in the box, and nowhere in the box is nearer to where it was.
pub proof fn law_drawing_in_is_nearest(m: Movable, r: Box4, x: int, y: int)
    requires
        !crosses_left(m, r),
        0 <= m.w <= r.2 - r.0,
        0 <= m.h <= r.3 - r.1,
        r.0 <= x,
        x + m.w <= r.2,
        r.1 <= y,
        y + m.h <= r.3,
    ensures
        ({
            let (nx, ny) = nearest_point(m, r);
            dist(nx, m.x as int) <= dist(x, m.x as int) && dist(ny, m.y as int) <= dist(y, m.y as int)
        }),
{
}

/// A name stands for the last cell that has it.
pub proof fn law_a_name_is_that_of_the_last_cell(cells: Seq<Movable>, name: Seq<char>, n: int)
    requires
        0 <= n <= cells.len(),
    ensures
        cell_named(cells, name, n) is None <==> forall|k: int| 0 <= k < n ==> (#[trigger] cells[k]).name@ != name,
        cell_named(cells, name, n) matches Some(i) ==> 0 <= i < n && cells[i].name@ == name && forall|k: int| i < k < n ==> (#[trigger] cells[k]).name@ != name,
    decreases n,
{
    if n > 0 {
        law_a_name_is_that_of_the_last_cell(cells, name, n - 1);
    }
}

/// A cell's group is the last that has it as a member; it has none where none does.
pub proof fn law_a_cell_is_in_its_last_group(groups: Seq<Group>, cells: Seq<Movable>, i: int, n: int)
    requires
        0 <= n <= groups.len() <= usize::MAX,
    ensures
        group_of_cell(groups, cells, i, n) is None <==> forall|k: int| 0 <= k < n ==> !has_member(#[trigger] groups[k], cells, i),
        group_of_cell(groups, cells, i, n) matches Some(g) ==> g < n && has_member(groups[g as int], cells, i)
            && forall|k: int| g < k < n ==> !has_member(#[trigger] groups[k], cells, i),
    decreases n,
{
    if n > 0 {
        law_a_cell_is_in_its_last_group(groups, cells, i, n - 1);
    }
}

/// Whether a box of one of the first `n` groups is crossed at its left edge.
pub open spec fn crosses_some(m: Movable, groups: Seq<Group>, n: int) -> bool {
    exists|i: int, k: int| 0 <= i < n && 0 <= k < groups[i].rects@.len() && crosses_left(m, #[trigger] groups[i].rects@[k])
}

proof fn lemma_crossed_in(m: Movable, rects: Seq<Box4>, n: int, other: Option<Box4>)
    requires
        0 <= n <= rects.len(),
    ensures
        (forall|k: int| 0 <= k < n ==> !crosses_left(m, #[trigger] rects[k])) ==> crossed_in(m, rects, n, other) == other,
        (exists|k: int| 0 <= k < n && crosses_left(m, #[trigger] rects[k])) ==> exists|k: int| 0 <= k < n && crosses_left(m, #[trigger] rects[k])
            && crossed_in(m, rects, n, other) == Some(rects[k]),
    decreases n,
{
    if n > 0 {
        lemma_crossed_in(m, rects, n - 1, other);
        if crosses_left(m, rects[n - 1]) {
            assert(crossed_in(m, rects, n, other) == Some(rects[n - 1]));
        }
    }
}

/// A box is crossed at its left edge just where one of some group is, and the box given is such a one.
pub proof fn law_the_crossed_box_is_crossed(m: Movable, groups: Seq<Group>, n: int)
    requires
        0 <= n <= groups.len(),
    ensures
        crossed(m, groups, n) is Some <==> crosses_some(m, groups, n),
        crossed(m, groups, n) matches Some(r) ==> crosses_left(m, r),
    decreases n,
{
    if n > 0 {
        law_the_crossed_box_is_crossed(m, groups, n - 1);
        let v = groups[n - 1].rects@;
        lemma_crossed_in(m, v, v.len() as int, crossed(m, groups, n - 1));
        if exists|k: int| 0 <= k < v.len() && crosses_left(m, #[trigger] v[k]) {
            let k = choose|k: int| 0 <= k < v.len() && crosses_left(m, #[trigger] v[k]);
            assert(crosses_left(m, groups[n - 1].rects@[k]));
        } else if crosses_some(m, groups, n) {
            let (i, k) = choose|i: int, k: int| 0 <= i < n && 0 <= k < groups[i].rects@.len() && crosses_left(m, #[trigger] groups[i].rects@[k]);
            if i == n - 1 {
                assert(crosses_left(m, v[k]));
            }
            assert(crosses_some(m, groups, n - 1));
        }
        if crosses_some(m, groups, n - 1) {
            let (i, k) = choose|i: int, k: int| 0 <= i < n - 1 && 0 <= k < groups[i].rects@.len() && crosses_left(m, #[trigger] groups[i].rects@[k]);
            assert(crosses_left(m, groups[i].rects@[k]));
        }
    }
}

// ── segments ─────────────────────────────────────────────────────────────────────────────────

/// How far a node goes to lie in a segment of a row `away` rows from its own: along the row to where it fits between the
/// segment's ends, and so many row heights.
pub open spec fn way_to(l: Land, n: Node, seg: usize, away: int) -> int {
    let g = l.segments@[seg as int];
    dist(imax(g.min_x as int, imin(g.max_x - n.width, n.left as int)), n.left as int) + away * l.arch.rows@[0].height
}

/// Whether place `k` of a row's list holds a segment that a node may be in, wide enough if that is asked for.
pub open spec fn may_hold(l: Land, n: Node, sym_x: bool, wide: bool, r: int, k: int) -> bool {
    let g = l.segs_in_row@[r]@[k];
    &&& l.admits(n, sym_x, g)
    &&& wide ==> n.width <= l.segments@[g as int].max_x - l.segments@[g as int].min_x
}

/// The pick of the segments wide enough, or of all.
spec fn pick_of(p: Pick, wide: bool) -> Option<(usize, int)> {
    if wide { p.fit } else { p.any }
}

/// A pick has been made from another and from a row's first `m` segments: it is no worse than any, and one of them.
spec fn gathered(l: Land, n: Node, sym_x: bool, wide: bool, a: Option<(usize, int)>, b: Option<(usize, int)>, r: int, away: int, m: int) -> bool {
    &&& a is Some ==> b is Some && b->Some_0.1 <= a->Some_0.1
    &&& forall|k: int| 0 <= k < m && #[trigger] may_hold(l, n, sym_x, wide, r, k) ==> b is Some && b->Some_0.1 <= way_to(l, n, l.segs_in_row@[r]@[k], away)
    &&& b == a || exists|k: int| 0 <= k < m && #[trigger] may_hold(l, n, sym_x, wide, r, k) && b == Some((l.segs_in_row@[r]@[k], way_to(l, n, l.segs_in_row@[r]@[k], away)))
}

proof fn lemma_row_gathered(l: Land, n: Node, sym_x: bool, wide: bool, p: Pick, r: int, away: int, m: int)
    requires
        0 <= m <= l.segs_in_row@[r]@.len(),
    ensures
        gathered(l, n, sym_x, wide, pick_of(p, wide), pick_of(l.row_considered(p, n, sym_x, r, away * l.arch.rows@[0].height, m), wide), r, away, m),
    decreases m,
{
    if m > 0 {
        lemma_row_gathered(l, n, sym_x, wide, p, r, away, m - 1);
        let vert = away * l.arch.rows@[0].height;
        let a = pick_of(p, wide);
        let b = pick_of(l.row_considered(p, n, sym_x, r, vert, m - 1), wide);
        let c = pick_of(l.row_considered(p, n, sym_x, r, vert, m), wide);
        let g = l.segs_in_row@[r]@[m - 1];
        let s = l.segments@[g as int];
        assert(held_in(s.min_x as int, s.max_x as int, n) == imax(s.min_x as int, imin(s.max_x - n.width, n.left as int)));
        let now = may_hold(l, n, sym_x, wide, r, m - 1);
        if c != b {
            assert(now && c == Some((g, way_to(l, n, g, away))));
        } else if b != a {
            let k = choose|k: int| 0 <= k < m - 1 && #[trigger] may_hold(l, n, sym_x, wide, r, k) && b == Some((l.segs_in_row@[r]@[k], way_to(l, n, l.segs_in_row@[r]@[k], away)));
            assert(may_hold(l, n, sym_x, wide, r, k));
        }
    }
}

/// Whether place `k` of row `r` gives a pick.
spec fn picked_at(l: Land, n: Node, sym_x: bool, wide: bool, b: Option<(usize, int)>, row: int, r: int, k: int) -> bool {
    0 <= r < l.arch.rows@.len() && 0 <= k < l.segs_in_row@[r]@.len() && may_hold(l, n, sym_x, wide, r, k)
        && b == Some((l.segs_in_row@[r]@[k], way_to(l, n, l.segs_in_row@[r]@[k], dist(r, row))))
}

/// A pick is the best of all rows up to `d` from a row, and there is one just where one may hold the node.
spec fn best_near(l: Land, n: Node, sym_x: bool, wide: bool, b: Option<(usize, int)>, row: int, d: int) -> bool {
    &&& forall|r: int, k: int| 0 <= r < l.arch.rows@.len() && dist(r, row) <= d && 0 <= k < l.segs_in_row@[r]@.len() && #[trigger] may_hold(l, n, sym_x, wide, r, k)
        ==> b is Some && b->Some_0.1 <= way_to(l, n, l.segs_in_row@[r]@[k], dist(r, row))
    &&& b is Some ==> exists|r: int, k: int| #[trigger] picked_at(l, n, sym_x, wide, b, row, r, k)
}

proof fn lemma_level(l: Land, n: Node, sym_x: bool, wide: bool, p: Pick, row: int, r: int, d: int)
    requires
        d == dist(r, row),
        pick_of(p, wide) is Some ==> exists|r: int, k: int| #[trigger] picked_at(l, n, sym_x, wide, pick_of(p, wide), row, r, k),
    ensures
        ({
            let b = pick_of(l.level_considered(p, n, sym_x, r, d * l.arch.rows@[0].height), wide);
            &&& pick_of(p, wide) is Some ==> b is Some && b->Some_0.1 <= pick_of(p, wide)->Some_0.1
            &&& 0 <= r < l.arch.rows@.len() ==> forall|k: int| 0 <= k < l.segs_in_row@[r]@.len() && #[trigger] may_hold(l, n, sym_x, wide, r, k) ==> b is Some && b->Some_0.1 <= way_to(l, n, l.segs_in_row@[r]@[k], d)
            &&& b is Some ==> exists|r: int, k: int| #[trigger] picked_at(l, n, sym_x, wide, b, row, r, k)
        }),
{
    if 0 <= r < l.arch.rows@.len() {
        let m = l.segs_in_row@[r]@.len() as int;
        lemma_row_gathered(l, n, sym_x, wide, p, r, d, m);
        let a = pick_of(p, wide);
        let b = pick_of(l.level_considered(p, n, sym_x, r, d * l.arch.rows@[0].height), wide);
        if b != a {
            let k = choose|k: int| 0 <= k < m && #[trigger] may_hold(l, n, sym_x, wide, r, k) && b == Some((l.segs_in_row@[r]@[k], way_to(l, n, l.segs_in_row@[r]@[k], d)));
            assert(picked_at(l, n, sym_x, wide, b, row, r, k));
        }
    }
}

proof fn lemma_rings(l: Land, n: Node, sym_x: bool, wide: bool, row: int, d: int)
    requires
        d >= 0,
    ensures
        best_near(l, n, sym_x, wide, pick_of(l.rings_considered(n, sym_x, row, d), wide), row, d),
    decreases d,
{
    let b = pick_of(l.rings_considered(n, sym_x, row, d), wide);
    if d == 0 {
        let p = Pick { any: None, fit: None };
        lemma_level(l, n, sym_x, wide, p, row, row, 0);
        assert(0 * l.arch.rows@[0].height == 0);
        assert forall|r: int, k: int| 0 <= r < l.arch.rows@.len() && dist(r, row) <= 0 && 0 <= k < l.segs_in_row@[r]@.len() && #[trigger] may_hold(l, n, sym_x, wide, r, k)
            implies b is Some && b->Some_0.1 <= way_to(l, n, l.segs_in_row@[r]@[k], dist(r, row)) by {
            assert(r == row);
        }
    } else {
        let p = l.rings_considered(n, sym_x, row, d - 1);
        let vert = d * l.arch.rows@[0].height;
        let q = l.level_considered(p, n, sym_x, row - d, vert);
        lemma_rings(l, n, sym_x, wide, row, d - 1);
        lemma_level(l, n, sym_x, wide, p, row, row - d, d);
        lemma_level(l, n, sym_x, wide, q, row, row + d, d);
        assert forall|r: int, k: int| 0 <= r < l.arch.rows@.len() && dist(r, row) <= d && 0 <= k < l.segs_in_row@[r]@.len() && #[trigger] may_hold(l, n, sym_x, wide, r, k)
            implies b is Some && b->Some_0.1 <= way_to(l, n, l.segs_in_row@[r]@[k], dist(r, row)) by {
            if dist(r, row) < d {
                assert(dist(r, row) <= d - 1);
                assert(pick_of(p, wide) is Some);
            } else if r == row - d {
                assert(pick_of(q, wide) is Some);
            } else {
                assert(r == row + d);
            }
        }
    }
}

/// A node goes to a segment that it may be in and that is wide enough, and none such is nearer; where none is wide enough,
/// to the nearest that it may be in; and to none only where it may be in none.
pub proof fn law_a_node_goes_to_the_nearest_segment(l: Land, n: Node, sym_x: bool, r: int, k: int)
    requires
        0 <= l.arch.closest(n.bottom as int) < l.arch.rows@.len(),
        0 <= r < l.arch.rows@.len(),
        0 <= k < l.segs_in_row@[r]@.len(),
        may_hold(l, n, sym_x, false, r, k),
    ensures
        l.nearest_segment(n, sym_x) is Some,
        ({
            let g = l.nearest_segment(n, sym_x)->Some_0;
            let row = l.arch.closest(n.bottom as int);
            exists|t: int, j: int| 0 <= t < l.arch.rows@.len() && 0 <= j < l.segs_in_row@[t]@.len() && l.segs_in_row@[t]@[j] == g && ({
                &&& #[trigger] may_hold(l, n, sym_x, false, t, j)
                &&& may_hold(l, n, sym_x, true, r, k) ==> may_hold(l, n, sym_x, true, t, j) && way_to(l, n, g, dist(t, row)) <= way_to(l, n, l.segs_in_row@[r]@[k], dist(r, row))
                &&& !may_hold(l, n, sym_x, true, t, j) ==> way_to(l, n, g, dist(t, row)) <= way_to(l, n, l.segs_in_row@[r]@[k], dist(r, row))
            })
        }),
{
    let row = l.arch.closest(n.bottom as int);
    let d = l.arch.rows@.len() as int;
    let p = l.rings_considered(n, sym_x, row, d);
    lemma_rings(l, n, sym_x, true, row, d);
    lemma_rings(l, n, sym_x, false, row, d);
    assert(dist(r, row) < d);
    assert(pick_of(p, false) == p.any && pick_of(p, true) == p.fit);
    assert(p.any is Some);
    if p.fit is Some {
        let (t, j) = choose|t: int, j: int| #[trigger] picked_at(l, n, sym_x, true, p.fit, row, t, j);
        assert(may_hold(l, n, sym_x, true, t, j) && may_hold(l, n, sym_x, false, t, j));
    } else {
        let (t, j) = choose|t: int, j: int| #[trigger] picked_at(l, n, sym_x, false, p.any, row, t, j);
        assert(may_hold(l, n, sym_x, false, t, j));
    }
}

} // verus!
