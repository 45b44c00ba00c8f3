//! What a grid says of its design, in the design's own coordinates.

use vstd::prelude::*;
use crate::arith::{ceil_quot, imax, lemma_quot_bound, trunc_quot};
use crate::grid::{in_box, is_kept, offers, Grid, GridInput};

verus! {

// ── quotients ────────────────────────────────────────────────────────────────────────────────

/// A column starts at or left of a place exactly where its number is at most the place's in sites.
proof fn lemma_floor(a: int, sw: int, k: int)
    requires
        sw > 0,
    ensures
        k <= a / sw <==> k * sw <= a,
        a / sw < k <==> a < k * sw,
{
    assert(a == (a / sw) * sw + a % sw && 0 <= a % sw < sw) by (nonlinear_arith)
        requires sw > 0;
    let q = a / sw;
    if k <= q {
        assert(k * sw <= q * sw) by (nonlinear_arith)
            requires k <= q, sw > 0;
    } else {
        assert(k * sw >= (q + 1) * sw) by (nonlinear_arith)
            requires k >= q + 1, sw > 0;
        assert((q + 1) * sw == q * sw + sw) by (nonlinear_arith);
    }
}

proof fn lemma_ceil(a: int, sw: int, k: int)
    requires
        sw > 0,
    ensures
        k < ceil_quot(a, sw) <==> k * sw < a,
        ceil_quot(a, sw) <= k <==> a <= k * sw,
{
    lemma_floor(-a, sw, -k);
    assert((-k) * sw == -(k * sw)) by (nonlinear_arith);
}

/// The multiple of a number is divided without remainder.
pub proof fn lemma_multiple(k: int, sw: int)
    requires
        sw > 0,
    ensures
        trunc_quot(k * sw, sw) == k,
{
    if k >= 0 {
        lemma_floor(k * sw, sw, k);
        lemma_floor(k * sw, sw, k + 1);
        assert((k + 1) * sw == k * sw + sw) by (nonlinear_arith);
        assert(k * sw >= 0) by (nonlinear_arith)
            requires k >= 0, sw > 0;
    } else {
        let n = -k;
        assert(k * sw == -(n * sw)) by (nonlinear_arith)
            requires n == -k;
        assert(n * sw > 0) by (nonlinear_arith)
            requires n > 0, sw > 0;
        lemma_floor(n * sw, sw, n);
        lemma_floor(n * sw, sw, n + 1);
        assert((n + 1) * sw == n * sw + sw) by (nonlinear_arith);
    }
}

// ── squares and boxes ────────────────────────────────────────────────────────────────────────

/// The box of a square, relative to the core: its left, bottom, right and top.
pub open spec fn square_box(g: Grid, gx: int, gy: int) -> (int, int, int, int) {
    (gx * g.site_width, g.row_y@[gy] as int, (gx + 1) * g.site_width, g.row_y@[gy + 1] as int)
}

/// Whether two boxes, each with its left, bottom, right and top, have a point inside both.
pub open spec fn meet(a: (int, int, int, int), b: (int, int, int, int)) -> bool {
    a.0 < b.2 && b.0 < a.2 && a.1 < b.3 && b.1 < a.3
}

/// Whether a box starts on a column and on a row.
pub open spec fn on_grid(g: Grid, x: int, y: int) -> bool {
    (exists|k: int| x == #[trigger] (k * g.site_width)) && exists|r: int| 0 <= r < g.row_count && #[trigger] g.row_y@[r] == y
}

/// A box of some size that starts on a column and on a row covers the squares of rows that it meets, on the grid and beside it.
pub proof fn lemma_cover_meets(g: Grid, x: int, y: int, w: int, h: int, gx: int, gy: int)
    requires
        g.wf(),
        on_grid(g, x, y),
        w >= 1,
        h >= 1,
        0 <= gy < g.row_count,
    ensures
        in_box(g.cover(x, y, w, h), gx, gy) <==> meet(square_box(g, gx, gy), (x, y, x + w, y + h)),
{
    let sw = g.site_width as int;
    let k = choose|k: int| x == #[trigger] (k * g.site_width);
    let r = choose|r: int| 0 <= r < g.row_count && #[trigger] g.row_y@[r] == y;
    lemma_multiple(k, sw);
    let c = g.cover(x, y, w, h);
    // Columns.
    lemma_ceil(w, sw, 0);
    lemma_ceil(w, sw, gx - k);
    assert((gx - k) * sw == gx * sw - k * sw) by (nonlinear_arith);
    assert(0 * sw == 0);
    assert((gx + 1) * sw == gx * sw + sw) by (nonlinear_arith);
    if gx >= k {
        assert(gx * sw >= k * sw) by (nonlinear_arith)
            requires gx >= k, sw > 0;
    } else {
        assert(k * sw >= (gx + 1) * sw) by (nonlinear_arith)
            requires k >= gx + 1, sw > 0;
    }
    assert(c.0 <= gx < c.2 <==> gx * sw < x + w && x < (gx + 1) * sw);
    // Rows.
    assert(g.row_y@[r] < g.row_y@[r + 1]);
    assert(g.is_snap_down(r, y));
    g.lemma_snap_unique(r, y);
    let top = y + h;
    g.lemma_end_is(top);
    let e = g.end_row(top);
    if e <= r {
        assert(g.row_y@[e] <= g.row_y@[r]);
    }
    if gy < e {
        assert(g.row_y@[gy] < top);
    } else {
        assert(g.row_y@[e] <= g.row_y@[gy]);
    }
    if gy < r {
        assert(g.row_y@[gy + 1] <= g.row_y@[r]);
    } else {
        assert(g.row_y@[gy] >= g.row_y@[r]);
        assert(g.row_y@[gy] < g.row_y@[gy + 1]);
    }
}

/// The squares that a box of some size covers, which starts on a column and on a row, are those that it meets.
pub proof fn law_cover_is_what_the_box_meets(g: Grid, x: int, y: int, w: int, h: int, gx: int, gy: int)
    requires
        g.wf(),
        on_grid(g, x, y),
        w >= 1,
        h >= 1,
        g.inside(gx, gy),
    ensures
        in_box(g.cover(x, y, w, h), gx, gy) <==> meet(square_box(g, gx, gy), (x, y, x + w, y + h)),
{
    lemma_cover_meets(g, x, y, w, h, gx, gy);
}

/// Every square of the grid that a box meets is covered, also by one that starts below the first row or above a row, as
/// far as its row's bottom and its column's left let it reach.
pub proof fn law_cover_holds_its_corner(g: Grid, x: int, y: int, w: int, h: int, gx: int, gy: int)
    requires
        g.wf(),
        w >= 0,
        x >= 0,
        g.inside(gx, gy),
        square_box(g, gx, gy).0 <= x < square_box(g, gx, gy).2,
        square_box(g, gx, gy).1 <= y < square_box(g, gx, gy).3,
    ensures
        in_box(g.cover(x, y, w, h), gx, gy),
{
    let sw = g.site_width as int;
    lemma_floor(x, sw, gx);
    lemma_floor(x, sw, gx + 1);
    lemma_ceil(w, sw, 0);
    assert(0 * sw == 0);
    assert(g.is_snap_down(gy, y));
    g.lemma_snap_unique(gy, y);
}

// ── rows ─────────────────────────────────────────────────────────────────────────────────────

/// Whether the column that starts at `x` ends within the sites of row `r`, in absolute coordinates. A row that starts left
/// of the core counts from the core's left.
pub open spec fn row_reaches(d: GridInput, r: int, sw: int, x: int) -> bool {
    let left = imax(d.rows@[r].x as int, d.core.0 as int);
    left < x + sw <= left + sw * imax(d.rows@[r].site_count as int, 0)
}

/// Whether row `r` of a design is a placement row that starts at the height `y` and has sites at the column that starts
/// at `x`.
pub open spec fn row_has(d: GridInput, r: int, sw: int, x: int, y: int) -> bool {
    &&& 0 <= r < d.rows@.len()
    &&& d.rows@[r].site_class@ != "PAD"@
    &&& d.rows@[r].y == y
    &&& row_reaches(d, r, sw, x)
}

/// The columns of a row are those where it has sites.
proof fn lemma_row_columns(d: GridInput, r: int, sw: int, cols: int, gx: int)
    requires
        0 <= r < d.rows@.len(),
        sw > 0,
        0 <= gx < cols,
    ensures
        d.col_lo(r, sw) <= gx < d.col_hi(r, sw, cols) <==> row_reaches(d, r, sw, gx * sw + d.core.0),
        0 <= d.col_lo(r, sw),
{
    let n = imax(d.rows@[r].site_count as int, 0);
    let a = d.rows@[r].x - d.core.0;
    let lo = d.col_lo(r, sw);
    assert((gx + 1) * sw == gx * sw + sw) by (nonlinear_arith);
    assert(0 <= gx * sw) by (nonlinear_arith)
        requires gx >= 0, sw > 0;
    assert(n * sw == sw * n) by (nonlinear_arith);
    if a >= 0 {
        lemma_floor(a, sw, gx + 1);
        lemma_floor(a, sw, gx - n + 1);
        lemma_floor(a, sw, 0);
        assert(0 * sw == 0);
        assert(lo == a / sw);
        assert((gx - n + 1) * sw == gx * sw + sw - n * sw) by (nonlinear_arith);
    } else {
        let q = (-a) / sw;
        lemma_quot_bound(-a, sw);
        assert(lo == 0);
        if gx < n {
            assert((gx + 1) * sw <= n * sw) by (nonlinear_arith)
                requires gx + 1 <= n, sw > 0;
        } else {
            assert(gx * sw >= n * sw) by (nonlinear_arith)
                requires gx >= n, sw > 0;
        }
    }
}

/// A square is valid exactly where a placement row starts at its bottom and has sites at its column, and no hard blockage
/// meets it.
pub proof fn law_valid_squares_are_row_sites_without_blockage(d: GridInput, g: Grid, gx: int, gy: int)
    requires
        d.makes(g),
        g.inside(gx, gy),
    ensures
        ({
            let b = square_box(g, gx, gy);
            let (x, y) = (b.0 + d.core.0, b.1 + d.core.1);
            g.px(gx, gy).is_valid <==> (exists|r: int| #[trigger] row_has(d, r, g.site_width as int, x, y))
                && forall|j: int| 0 <= j < d.blockages@.len() && !(#[trigger] d.blockages@[j]).1 ==> !meets_square(d, g, d.blockages@[j].0, gx, gy)
        }),
        !g.px(gx, gy).occupied && g.px(gx, gy).cell is None && g.px(gx, gy).group is None && g.px(gx, gy).padding_reserved_by is None,
{
    let sw = g.site_width as int;
    let cols = g.row_site_count as int;
    let n = d.rows@.len() as int;
    let p = g.px(gx, gy);
    let yb = g.row_y@[gy] as int;
    let (x, y) = (gx * sw + d.core.0, yb + d.core.1);
    if d.row_covers(n, sw, cols, gx, yb) {
        let k = choose|k: int| 0 <= k < n && is_kept(#[trigger] d.rows@[k]) && d.rel_y(k) == yb && d.col_lo(k, sw) <= gx < d.col_hi(k, sw, cols);
        lemma_row_columns(d, k, sw, cols, gx);
        assert(row_has(d, k, sw, x, y));
    }
    if exists|r: int| #[trigger] row_has(d, r, sw, x, y) {
        let r = choose|r: int| #[trigger] row_has(d, r, sw, x, y);
        lemma_row_columns(d, r, sw, cols, gx);
        assert(is_kept(d.rows@[r]) && d.rel_y(r) == yb);
    }
    assert forall|j: int| 0 <= j < d.blockages@.len() implies
        d.box_covers((#[trigger] d.blockages@[j]).0, sw, gx, yb, g.row_y@[gy + 1] as int) == meets_square(d, g, d.blockages@[j].0, gx, gy) by {
        lemma_box_covers(d, g, d.blockages@[j].0, gx, gy);
    }
    let m = d.blockages@.len() as int;
    let hi = g.row_y@[gy + 1] as int;
    if d.blocked_upto(m, sw, gx, yb, hi) {
        let j = choose|j: int| 0 <= j < m && !(#[trigger] d.blockages@[j]).1 && d.box_covers(d.blockages@[j].0, sw, gx, yb, hi);
        assert(meets_square(d, g, d.blockages@[j].0, gx, gy));
    } else {
        assert forall|j: int| 0 <= j < m && !(#[trigger] d.blockages@[j]).1 implies !meets_square(d, g, d.blockages@[j].0, gx, gy) by {
            assert(!d.box_covers(d.blockages@[j].0, sw, gx, yb, hi));
        }
    }
    assert(d.row_covers(n, sw, cols, gx, yb) <==> exists|r: int| #[trigger] row_has(d, r, sw, x, y));
    assert(square_box(g, gx, gy).0 + d.core.0 == x && square_box(g, gx, gy).1 + d.core.1 == y);
}

/// Whether an absolute box meets a square.
pub open spec fn meets_square(d: GridInput, g: Grid, b: (i32, i32, i32, i32), gx: int, gy: int) -> bool {
    meet(square_box(g, gx, gy), (b.0 - d.core.0, b.1 - d.core.1, b.2 - d.core.0, b.3 - d.core.1))
}

proof fn lemma_box_covers(d: GridInput, g: Grid, b: (i32, i32, i32, i32), gx: int, gy: int)
    requires
        d.makes(g),
        g.inside(gx, gy),
    ensures
        d.box_covers(b, g.site_width as int, gx, g.row_y@[gy] as int, g.row_y@[gy + 1] as int) == meets_square(d, g, b, gx, gy),
{
    let sw = g.site_width as int;
    let (b0, b2) = (b.0 - d.core.0, b.2 - d.core.0);
    assert((gx + 1) * sw == gx * sw + sw) by (nonlinear_arith);
    assert(0 <= gx * sw) by (nonlinear_arith)
        requires gx >= 0, sw > 0;
    if b0 >= 0 {
        lemma_floor(b0, sw, gx + 1);
    } else {
        lemma_quot_bound(-b0, sw);
    }
    if b2 + sw - 1 >= 0 {
        lemma_floor(b2 + sw - 1, sw, gx + 1);
    } else {
        lemma_quot_bound(-(b2 + sw - 1), sw);
    }
}

/// Whether row `k` is the last placement row of a design that starts at the height `y`.
pub open spec fn last_row_at(d: GridInput, k: int, y: int) -> bool {
    &&& 0 <= k < d.rows@.len()
    &&& d.rows@[k].site_class@ != "PAD"@
    &&& d.rows@[k].y == y
    &&& forall|j: int| k < j < d.rows@.len() && (#[trigger] d.rows@[j]).site_class@ != "PAD"@ ==> d.rows@[j].y != y
}

proof fn lemma_band_orient(d: GridInput, n: int, yb: int, k: int)
    requires
        0 <= k < n <= d.rows@.len(),
        is_kept(d.rows@[k]),
        d.rel_y(k) == yb,
        forall|j: int| k < j < n && is_kept(#[trigger] d.rows@[j]) ==> d.rel_y(j) != yb,
    ensures
        d.band_orient(n, yb) == d.rows@[k].orient@,
    decreases n,
{
    if n - 1 != k {
        if is_kept(d.rows@[n - 1]) {
            assert(d.rel_y(n - 1) != yb);
        }
        lemma_band_orient(d, n - 1, yb, k);
    }
}

/// A row of the grid has the orientation of the design's last placement row that starts there.
pub proof fn law_grid_rows_are_oriented_as_the_design(d: GridInput, g: Grid, gy: int, k: int)
    requires
        d.makes(g),
        0 <= gy < g.row_count,
        last_row_at(d, k, g.row_y@[gy] + d.core.1),
    ensures
        g.row_orient@[gy]@ == d.rows@[k].orient@,
{
    let yb = g.row_y@[gy] as int;
    assert forall|j: int| k < j < d.rows@.len() && is_kept(#[trigger] d.rows@[j]) implies d.rel_y(j) != yb by {
        assert(d.rows@[j].y != yb + d.core.1);
    }
    lemma_band_orient(d, d.rows@.len() as int, yb, k);
}

proof fn lemma_last_row(d: GridInput, y: int, n: int, r: int) -> (k: int)
    requires
        0 <= r < n <= d.rows@.len(),
        d.rows@[r].site_class@ != "PAD"@,
        d.rows@[r].y == y,
        forall|j: int| n <= j < d.rows@.len() && (#[trigger] d.rows@[j]).site_class@ != "PAD"@ ==> d.rows@[j].y != y,
    ensures
        last_row_at(d, k, y),
    decreases n,
{
    if d.rows@[n - 1].site_class@ != "PAD"@ && d.rows@[n - 1].y == y {
        n - 1
    } else {
        lemma_last_row(d, y, n - 1, r)
    }
}

proof fn lemma_band_sites(d: GridInput, n: int, sw: int, cols: int, yb: int, gx: int, site: Seq<char>)
    requires
        sw > 0,
        0 <= gx < cols <= i32::MAX,
        0 <= n <= d.rows@.len(),
    ensures
        offers(d.band_sites(n, sw, cols, yb), gx, site)
            <==> exists|r: int| #[trigger] row_has(d, r, sw, gx * sw + d.core.0, yb + d.core.1) && r < n && d.rows@[r].site@ == site,
    decreases n,
{
    let (x, y) = (gx * sw + d.core.0, yb + d.core.1);
    if n > 0 {
        lemma_band_sites(d, n - 1, sw, cols, yb, gx, site);
        let s = d.band_sites(n - 1, sw, cols, yb);
        let t = d.band_sites(n, sw, cols, yb);
        lemma_row_columns(d, n - 1, sw, cols, gx);
        let r0 = d.rows@[n - 1];
        let (lo, hi) = (d.col_lo(n - 1, sw), d.col_hi(n - 1, sw, cols));
        if is_kept(r0) && d.rel_y(n - 1) == yb {
            let e = (lo as usize, hi as usize, r0.site);
            assert(t == s.push(e));
            assert(hi <= cols);
            if offers(s, gx, site) {
                let k = choose|k: int| 0 <= k < s.len() && (#[trigger] s[k]).0 <= gx < s[k].1 && s[k].2@ == site;
                assert(t[k].0 <= gx < t[k].1 && t[k].2@ == site);
            }
            if lo <= gx < hi && r0.site@ == site {
                assert(t[s.len() as int].0 <= gx < t[s.len() as int].1);
                assert(row_has(d, n - 1, sw, x, y));
            }
            if offers(t, gx, site) {
                let k = choose|k: int| 0 <= k < t.len() && (#[trigger] t[k]).0 <= gx < t[k].1 && t[k].2@ == site;
                if k < s.len() {
                    assert(s[k].0 <= gx < s[k].1 && s[k].2@ == site);
                } else {
                    lemma_hi(d, n - 1, sw, cols, gx);
                    assert(row_has(d, n - 1, sw, x, y));
                }
            }
        }
        if exists|r: int| #[trigger] row_has(d, r, sw, x, y) && r < n && d.rows@[r].site@ == site {
            let r = choose|r: int| #[trigger] row_has(d, r, sw, x, y) && r < n && d.rows@[r].site@ == site;
            if r < n - 1 {
                assert(row_has(d, r, sw, x, y) && r < n - 1);
            } else {
                assert(is_kept(r0) && d.rel_y(n - 1) == yb);
                assert(lo <= gx < hi);
            }
        }
    }
}

/// The end of a row's columns is no negative number where it could be read as one.
proof fn lemma_hi(d: GridInput, r: int, sw: int, cols: int, gx: int)
    requires
        0 <= gx < cols <= i32::MAX,
        0 <= d.col_lo(r, sw),
    ensures
        0 <= d.col_hi(r, sw, cols) <= cols,
        d.col_lo(r, sw) <= usize::MAX ==> (d.col_lo(r, sw) as usize) == d.col_lo(r, sw),
{
}

/// A site is offered at a square exactly where a placement row of the design with that site starts at its bottom and has
/// sites at its column.
pub proof fn law_offered_sites_are_those_of_rows(d: GridInput, g: Grid, gx: int, gy: int, site: Seq<char>)
    requires
        d.makes(g),
        g.inside(gx, gy),
    ensures
        offers(g.row_sites@[gy]@, gx, site)
            <==> exists|r: int| #[trigger] row_has(d, r, g.site_width as int, gx * g.site_width + d.core.0, g.row_y@[gy] + d.core.1) && d.rows@[r].site@ == site,
{
    let sw = g.site_width as int;
    let (x, y) = (gx * sw + d.core.0, g.row_y@[gy] + d.core.1);
    lemma_band_sites(d, d.rows@.len() as int, sw, g.row_site_count as int, g.row_y@[gy] as int, gx, site);
    if exists|r: int| #[trigger] row_has(d, r, sw, x, y) && d.rows@[r].site@ == site {
        let r = choose|r: int| #[trigger] row_has(d, r, sw, x, y) && d.rows@[r].site@ == site;
        assert(row_has(d, r, sw, x, y) && r < d.rows@.len());
    }
}

/// Where a cell of some site sits, in absolute coordinates, with the orientation it is given: a placement row of that site
/// starts at its bottom and has sites at its left, and it is oriented as the last placement row that starts there.
pub open spec fn sits_in_a_row(d: GridInput, sw: int, site: Seq<char>, x: int, y: int, orient: Seq<char>) -> bool {
    &&& exists|r: int| #[trigger] row_has(d, r, sw, x, y) && d.rows@[r].site@ == site
    &&& exists|k: int| #[trigger] last_row_at(d, k, y) && d.rows@[k].orient@ == orient
}

/// A square that offers a site lies in a row of the design, and has that row's orientation.
pub proof fn law_offered_squares_sit_in_a_row(d: GridInput, g: Grid, gx: int, gy: int, site: Seq<char>)
    requires
        d.makes(g),
        g.inside(gx, gy),
        offers(g.row_sites@[gy]@, gx, site),
    ensures
        sits_in_a_row(d, g.site_width as int, site, gx * g.site_width + d.core.0, g.row_y@[gy] + d.core.1, g.row_orient@[gy]@),
{
    law_offered_sites_are_those_of_rows(d, g, gx, gy, site);
    let sw = g.site_width as int;
    let (x, y) = (gx * sw + d.core.0, g.row_y@[gy] + d.core.1);
    let r = choose|r: int| #[trigger] row_has(d, r, sw, x, y) && d.rows@[r].site@ == site;
    let k = lemma_last_row(d, y, d.rows@.len() as int, r);
    law_grid_rows_are_oriented_as_the_design(d, g, gy, k);
}

/// Two boxes that start on columns and rows and meet have a square that both meet.
pub proof fn lemma_common_square(g: Grid, x: int, y: int, w: int, h: int, u: int, v: int, c: int, e: int) -> (r: (int, int))
    requires
        g.wf(),
        0 <= y < g.row_count,
        0 <= v < g.row_count,
        w >= 1 && h >= 1 && c >= 1 && e >= 1,
        meet(
            (x * g.site_width, g.row_y@[y] as int, x * g.site_width + w, g.row_y@[y] + h),
            (u * g.site_width, g.row_y@[v] as int, u * g.site_width + c, g.row_y@[v] + e),
        ),
    ensures
        r.0 == imax(x, u),
        r.1 == imax(y, v),
        meet(square_box(g, r.0, r.1), (x * g.site_width, g.row_y@[y] as int, x * g.site_width + w, g.row_y@[y] + h)),
        meet(square_box(g, r.0, r.1), (u * g.site_width, g.row_y@[v] as int, u * g.site_width + c, g.row_y@[v] + e)),
{
    let sw = g.site_width as int;
    let (gx, gy) = (imax(x, u), imax(y, v));
    assert((gx + 1) * sw == gx * sw + sw) by (nonlinear_arith);
    assert(x <= u ==> x * sw <= u * sw) by (nonlinear_arith)
        requires sw > 0;
    assert(u <= x ==> u * sw <= x * sw) by (nonlinear_arith)
        requires sw > 0;
    assert(g.row_y@[gy] < g.row_y@[gy + 1]);
    if y < v {
        assert(g.row_y@[y] < g.row_y@[v]);
    } else if v < y {
        assert(g.row_y@[v] < g.row_y@[y]);
    }
    (gx, gy)
}

/// What a box covers depends on the frame alone.
pub proof fn lemma_same_cover(a: Grid, b: Grid, x: int, y: int, w: int, h: int)
    requires
        a.rows_ok(),
        a.same_frame(b),
    ensures
        a.cover(x, y, w, h) == b.cover(x, y, w, h),
{
    if a.row_count > 0 {
        a.lemma_same_rows(b, y);
        a.lemma_same_rows(b, a.row_y@[a.snap_down(y)] + h);
    }
}

proof fn lemma_same_increasing(a: Seq<i32>, b: Seq<i32>, k: int)
    requires
        crate::grid::increasing(a),
        crate::grid::increasing(b),
        forall|y: i32| #[trigger] a.contains(y) <==> b.contains(y),
        0 <= k <= a.len(),
    ensures
        k <= b.len(),
        forall|j: int| 0 <= j < k ==> #[trigger] a[j] == b[j],
    decreases k,
{
    if k > 0 {
        lemma_same_increasing(a, b, k - 1);
        let v = a[k - 1];
        assert(a.contains(v));
        assert(b.contains(v));
        let m = choose|m: int| 0 <= m < b.len() && b[m] == v;
        if m < k - 1 {
            assert(a[m] == b[m]);
            assert(a[m] < a[k - 1]);
        }
        let u = b[k - 1];
        assert(b.contains(u));
        assert(a.contains(u));
        let q = choose|q: int| 0 <= q < a.len() && a[q] == u;
        if q < k - 1 {
            assert(a[q] == b[q]);
            assert(b[q] < b[k - 1]);
        }
        if k - 1 < m {
            assert(b[k - 1] < b[m]);
        }
        if k - 1 < q {
            assert(a[k - 1] < a[q]);
        }
    }
}

/// Two grids made of one design have the same rows and columns, and the same squares.
pub proof fn law_a_design_makes_one_grid(d: GridInput, g: Grid, h: Grid, x: int, y: int)
    requires
        d.makes(g),
        d.makes(h),
    ensures
        g.core == h.core,
        g.site_width == h.site_width,
        g.row_site_count == h.row_site_count,
        g.row_count == h.row_count,
        g.row_y@ == h.row_y@,
        g.inside(x, y) ==> g.px(x, y) == h.px(x, y),
        0 <= y < g.row_count ==> g.row_sites@[y]@ == h.row_sites@[y]@ && g.row_orient@[y]@ == h.row_orient@[y]@,
{
    assert forall|v: i32| #[trigger] g.row_y@.contains(v) <==> h.row_y@.contains(v) by {
    }
    lemma_same_increasing(g.row_y@, h.row_y@, g.row_y@.len() as int);
    lemma_same_increasing(h.row_y@, g.row_y@, h.row_y@.len() as int);
    assert(g.row_y@ =~= h.row_y@);
    if 0 <= y < g.row_count {
        assert(g.row_sites@[y]@ == h.row_sites@[y]@);
    }
    if g.inside(x, y) {
        let p = g.px(x, y);
        let q = h.px(x, y);
    }
}

// ── blocked levels ───────────────────────────────────────────────────────────────────────────

proof fn lemma_bits(m: u32, a: u32, b: u32)
    requires
        a < 32,
        b < 32,
    ensures
        m & (1u32 << a) != 0 ==> (m | (1u32 << b)) & (1u32 << a) != 0,
        (m | (1u32 << b)) & (1u32 << b) != 0,
        a != b ==> ((m | (1u32 << b)) & (1u32 << a) != 0 ==> m & (1u32 << a) != 0),
{
    assert(m & (1u32 << a) != 0 ==> (m | (1u32 << b)) & (1u32 << a) != 0) by (bit_vector)
        requires a < 32, b < 32;
    assert((m | (1u32 << b)) & (1u32 << b) != 0) by (bit_vector)
        requires b < 32;
    assert(a != b ==> ((m | (1u32 << b)) & (1u32 << a) != 0 ==> m & (1u32 << a) != 0)) by (bit_vector)
        requires a < 32, b < 32;
}

proof fn lemma_no_bits(a: u32)
    ensures
        0u32 & (1u32 << a) == 0,
{
    assert(0u32 & (1u32 << a) == 0) by (bit_vector);
}

proof fn lemma_levels(d: GridInput, g: Grid, n: int, gx: int, gy: int, level: u32)
    requires
        d.makes(g),
        g.inside(gx, gy),
        0 <= n <= d.straps@.len(),
        level < 32,
        forall|k: int| 0 <= k < d.straps@.len() ==> (#[trigger] d.straps@[k]).0 < 32,
    ensures
        d.levels_upto(n, g.site_width as int, gx, g.row_y@[gy] as int, g.row_y@[gy + 1] as int) & (1u32 << level) != 0
            <==> exists|k: int| 0 <= k < n && (#[trigger] d.straps@[k]).0 == level && meets_square(d, g, d.straps@[k].1, gx, gy),
    decreases n,
{
    let (sw, lo, hi) = (g.site_width as int, g.row_y@[gy] as int, g.row_y@[gy + 1] as int);
    if n > 0 {
        lemma_levels(d, g, n - 1, gx, gy, level);
        let m = d.levels_upto(n - 1, sw, gx, lo, hi);
        let s = d.straps@[n - 1];
        lemma_box_covers(d, g, s.1, gx, gy);
        lemma_bits(m, level, s.0);
        if exists|k: int| 0 <= k < n && (#[trigger] d.straps@[k]).0 == level && meets_square(d, g, d.straps@[k].1, gx, gy) {
            let k = choose|k: int| 0 <= k < n && (#[trigger] d.straps@[k]).0 == level && meets_square(d, g, d.straps@[k].1, gx, gy);
            if k < n - 1 {
                assert(d.straps@[k].0 == level);
            }
        }
    } else {
        lemma_no_bits(level);
    }
}

/// A level is blocked in a square exactly where a strap of that level meets the square.
pub proof fn law_straps_block_the_squares_they_meet(d: GridInput, g: Grid, gx: int, gy: int, level: u32)
    requires
        d.makes(g),
        g.inside(gx, gy),
        level < 32,
        forall|k: int| 0 <= k < d.straps@.len() ==> (#[trigger] d.straps@[k]).0 < 32,
    ensures
        g.px(gx, gy).blocked_layers & (1u32 << level) != 0
            <==> exists|k: int| 0 <= k < d.straps@.len() && (#[trigger] d.straps@[k]).0 == level && meets_square(d, g, d.straps@[k].1, gx, gy),
{
    lemma_levels(d, g, d.straps@.len() as int, gx, gy, level);
    let p = g.px(gx, gy);
}

// ── sizes ────────────────────────────────────────────────────────────────────────────────────

proof fn lemma_width_stays(d: GridInput, a: int, b: int)
    requires
        0 <= a <= b <= d.rows@.len(),
        d.width_upto(a) != 0,
    ensures
        d.width_upto(b) == d.width_upto(a),
    decreases b - a,
{
    if a < b {
        lemma_width_stays(d, a, b - 1);
    }
}

/// The grid's sites are as wide as those of every placement row of some width, and as many columns as there are sites
/// fit in the core.
pub proof fn law_grid_sites_are_the_rows_sites(d: GridInput, g: Grid, k: int)
    requires
        d.makes(g),
        d.makeable(),
        0 <= k < d.rows@.len(),
        d.rows@[k].site_class@ != "PAD"@,
        d.rows@[k].site_width != 0,
    ensures
        g.site_width == d.rows@[k].site_width,
        d.core.2 >= d.core.0 ==> g.row_site_count * g.site_width <= d.core.2 - d.core.0 < (g.row_site_count + 1) * g.site_width,
{
    assert(!d.mismatch(k));
    assert(is_kept(d.rows@[k]));
    assert(d.width_upto(k + 1) == d.rows@[k].site_width);
    lemma_width_stays(d, k + 1, d.rows@.len() as int);
    let w = d.core.2 - d.core.0;
    if w >= 0 {
        lemma_quot_bound(w, g.site_width as int);
        let n = g.row_site_count as int;
        assert((n + 1) * g.site_width == n * g.site_width + g.site_width) by (nonlinear_arith);
    }
}

/// A height is a boundary of the grid exactly where a placement row starts or ends there.
pub proof fn law_boundaries_are_row_edges(d: GridInput, g: Grid, y: i32)
    requires
        d.makes(g),
    ensures
        g.row_y@.contains(y) <==> exists|k: int| 0 <= k < d.rows@.len() && (#[trigger] d.rows@[k]).site_class@ != "PAD"@
            && (d.rows@[k].y - d.core.1 == y || d.rows@[k].y + d.rows@[k].site_height - d.core.1 == y),
{
    let n = d.rows@.len() as int;
    if d.is_edge(n, y as int) {
        let k = choose|k: int| 0 <= k < n && is_kept(#[trigger] d.rows@[k]) && (d.rel_y(k) == y || d.rel_top(k) == y);
        assert(d.rows@[k].site_class@ != "PAD"@);
    }
    if exists|k: int| 0 <= k < n && (#[trigger] d.rows@[k]).site_class@ != "PAD"@ && (d.rows@[k].y - d.core.1 == y || d.rows@[k].y + d.rows@[k].site_height - d.core.1 == y) {
        let k = choose|k: int| 0 <= k < n && (#[trigger] d.rows@[k]).site_class@ != "PAD"@
            && (d.rows@[k].y - d.core.1 == y || d.rows@[k].y + d.rows@[k].site_height - d.core.1 == y);
        assert(is_kept(d.rows@[k]));
    }
}

} // verus!
