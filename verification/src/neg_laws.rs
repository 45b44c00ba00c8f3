//! What the negotiation legalizer gives, in terms of the design it was given.

use vstd::prelude::*;
use crate::arith::{ceil_quot, imax, lemma_quot_bound, round_quot};
use crate::grid::{in_box, Grid};
use crate::grid_laws::{law_cover_is_what_the_box_meets, law_offered_squares_sit_in_a_row, law_valid_squares_are_row_sites_without_blockage, meet, meets_square, on_grid, row_has, sits_in_a_row, square_box};
use crate::neg_grid::{in_foot, Board, NegStamp};
use crate::neg_legalize::{cell_for, fixed_box, insts_fit, inst_fits, intake, is_fixed, is_legalized, law_converged_leaves_every_cell_legal, left_out, legalizes, placed_upto, refusal, refused_upto, replay, rows_tall, seated, sites_wide, start_state, takes_part, write_back, NegInput, NegInst};
use crate::neg_rules::NegRules;
use crate::place::{Legalized, Placed};
use crate::run::{Event, Outcome};
use crate::sweep::{claims, covers, foot, lemma_claims_bound, SweepCell, SweepCtx, COORD_LIMIT};
use crate::negotiate::{clamp0, scan_cost, square_cost, SortKey};
use crate::search::Candidate;
use crate::text::{has_part, has_prefix, texts};

verus! {

// ── what fixed instances take away ───────────────────────────────────────────────────────────

/// The squares that an instance covers.
pub open spec fn covered(g: Grid, i: NegInst) -> (int, int, int, int) {
    g.cover(i.x - g.core.0, i.y - g.core.1, i.width as int, i.height as int)
}

/// Instances that never move: firm or locked ones, and blocks.
pub open spec fn never_moves(i: NegInst) -> bool {
    i.status@ == "FIRM"@ || i.status@ == "LOCKED"@ || has_part(i.master_type@, "BLOCK"@)
}

/// Instances that are legalized: core cells that may move and have a status.
pub open spec fn is_moved(i: NegInst) -> bool {
    !never_moves(i) && has_part(i.master_type@, "CORE"@) && i.status@ != "NONE"@
}

/// Whether one of the first `n` instances is fixed and covers a square.
pub open spec fn taken(g: Grid, insts: Seq<NegInst>, n: int, gx: int, gy: int) -> bool {
    exists|j: int| 0 <= j < n && never_moves(#[trigger] insts[j]) && in_box(covered(g, insts[j]), gx, gy)
}

/// The board of an intake has the size of the grid.
proof fn lemma_intake_size(g: Grid, insts: Seq<NegInst>, n: int)
    ensures
        intake(g, insts, n).board.width == g.row_site_count,
        intake(g, insts, n).board.height == g.row_count,
        intake(g, insts, n).board.pixels.len() == (g.row_site_count * g.row_count) as nat,
    decreases n,
{
    if n > 0 {
        lemma_intake_size(g, insts, n - 1);
    }
}

proof fn lemma_index(w: int, h: int, x: int, y: int)
    requires
        0 <= x < w,
        0 <= y < h,
    ensures
        0 <= y * w + x < w * h,
        (y * w + x) % w == x,
        (y * w + x) / w == y,
{
    assert(0 <= y * w + x < w * h) by (nonlinear_arith)
        requires 0 <= x < w, 0 <= y < h;
    vstd::arithmetic::div_mod::lemma_fundamental_div_mod_converse(y * w + x, w, y, x);
}

/// A stamp reaches the squares of its footprint.
proof fn lemma_stamp_at(b: Board, x: int, y: int, w: int, h: int, s: NegStamp, gx: int, gy: int)
    requires
        b.on(gx, gy),
        b.pixels.len() == b.width * b.height,
    ensures
        b.stamp(x, y, w, h, s).sq(gx, gy) == (if in_foot(x, y, w, h, gx, gy) { crate::neg_grid::neg_stamped(b.sq(gx, gy), s) } else { b.sq(gx, gy) }),
{
    lemma_index(b.width, b.height, gx, gy);
}

/// The rectangle that a fixed instance stamps is what it covers.
proof fn lemma_fixed_box(g: Grid, i: NegInst)
    requires
        g.wf(),
        g.row_count <= COORD_LIMIT,
        inst_fits(g, i),
    ensures
        ({
            let (b, c) = (fixed_box(g, i), covered(g, i));
            b.0 == c.0 && b.1 == c.1 && b.0 + b.2 == c.2 && b.1 + b.3 == c.3
        }),
{
    let sw = g.site_width as int;
    let (x, w) = (i.x - g.core.0, i.width as int);
    assert(ceil_quot(w, sw) <= w + 1) by (nonlinear_arith)
        requires sw > 0, w >= 0, ceil_quot(w, sw) == -((-w) / sw);
    if x >= 0 {
        lemma_quot_bound(x, sw);
    } else {
        lemma_quot_bound(-x, sw);
    }
    if g.row_count > 0 {
        g.lemma_snap_is(i.y - g.core.1);
        g.lemma_end_is(g.row_y@[g.snap_down(i.y - g.core.1)] + i.height);
    }
}

/// After reading in, a square has room for a cell exactly where the grid is valid and no fixed instance covers it.
pub proof fn law_fixed_instances_take_their_squares(g: Grid, insts: Seq<NegInst>, n: int, gx: int, gy: int)
    requires
        g.wf(),
        insts_fit(g, insts),
        0 <= n <= insts.len(),
        g.inside(gx, gy),
    ensures
        intake(g, insts, n).board.sq(gx, gy).capacity == (if g.px(gx, gy).is_valid && !taken(g, insts, n, gx, gy) { 1int } else { 0int }),
    decreases n,
{
    let w = g.row_site_count as int;
    lemma_index(w, g.row_count as int, gx, gy);
    lemma_intake_size(g, insts, n);
    if n > 0 {
        law_fixed_instances_take_their_squares(g, insts, n - 1, gx, gy);
        lemma_intake_size(g, insts, n - 1);
        let p = intake(g, insts, n - 1);
        let i = insts[n - 1];
        assert(inst_fits(g, insts[n - 1]));
        if is_fixed(i) {
            lemma_fixed_box(g, i);
            let b = fixed_box(g, i);
            lemma_stamp_at(p.board, b.0 as int, b.1 as int, b.2 as int, b.3 as int, NegStamp::Blockade, gx, gy);
            assert(in_foot(b.0 as int, b.1 as int, b.2 as int, b.3 as int, gx, gy) == in_box(covered(g, i), gx, gy));
            if in_box(covered(g, i), gx, gy) {
                assert(never_moves(insts[n - 1]));
                assert(taken(g, insts, n, gx, gy));
            }
        } else if takes_part(i) {
            let c = cell_for(g, i);
            lemma_stamp_at(p.board, c.x as int, c.y as int, c.width as int, c.height as int, NegStamp::Claim(1i32), gx, gy);
        }
        if taken(g, insts, n - 1, gx, gy) {
            let j = choose|j: int| 0 <= j < n - 1 && never_moves(#[trigger] insts[j]) && in_box(covered(g, insts[j]), gx, gy);
            assert(taken(g, insts, n, gx, gy));
        } else if taken(g, insts, n, gx, gy) {
            let j = choose|j: int| 0 <= j < n && never_moves(#[trigger] insts[j]) && in_box(covered(g, insts[j]), gx, gy);
            assert(j == n - 1);
        }
    }
}

// ── cells and their instances ────────────────────────────────────────────────────────────────

/// Each cell read in is that of an instance which takes part, and every such instance has one cell.
proof fn lemma_intake_cells(g: Grid, insts: Seq<NegInst>, n: int)
    requires
        0 <= n <= insts.len(),
    ensures
        ({
            let it = intake(g, insts, n);
            &&& it.of.len() == it.cells.len()
            &&& it.cells.len() <= n
            &&& forall|k: int| 0 <= k < it.cells.len() ==> 0 <= #[trigger] it.of[k] < n && takes_part(insts[it.of[k]]) && it.cells[k] == cell_for(g, insts[it.of[k]])
            &&& forall|a: int, b: int| 0 <= a < b < it.cells.len() ==> #[trigger] it.of[a] < #[trigger] it.of[b]
            &&& forall|j: int| 0 <= j < n && takes_part(#[trigger] insts[j]) ==> exists|k: int| 0 <= k < it.cells.len() && #[trigger] it.of[k] == j
        }),
    decreases n,
{
    if n > 0 {
        lemma_intake_cells(g, insts, n - 1);
        let (p, it) = (intake(g, insts, n - 1), intake(g, insts, n));
        assert forall|j: int| 0 <= j < n && takes_part(#[trigger] insts[j]) implies exists|k: int| 0 <= k < it.cells.len() && #[trigger] it.of[k] == j by {
            if j < n - 1 {
                let k = choose|k: int| 0 <= k < p.cells.len() && #[trigger] p.of[k] == j;
                assert(it.of[k] == j);
            } else {
                assert(it.of[p.cells.len() as int] == j);
            }
        }
    }
}

/// Each cell written back is a seated one, in order.
proof fn lemma_placed(rules: NegRules, cells: Seq<SweepCell>, n: int, k: int) -> (i: int)
    requires
        0 <= n <= cells.len(),
        0 <= k < placed_upto(rules, cells, n).len(),
    ensures
        0 <= i < n,
        seated(rules, i, cells[i]),
        placed_upto(rules, cells, n)[k] == write_back(*rules.grid, cells[i]),
        placed_upto(rules, cells, i).len() == k,
    decreases n,
{
    let s = placed_upto(rules, cells, n - 1);
    if k < s.len() {
        lemma_placed(rules, cells, n - 1, k)
    } else {
        n - 1
    }
}

/// A seated cell is written back, and one that is not is refused by its name.
proof fn lemma_all_told(rules: NegRules, cells: Seq<SweepCell>, n: int, i: int)
    requires
        0 <= i < n <= cells.len(),
    ensures
        seated(rules, i, cells[i]) ==> placed_upto(rules, cells, n).contains(write_back(*rules.grid, cells[i])),
        !seated(rules, i, cells[i]) ==> refused_upto(rules, cells, n).contains(refusal(rules, i, cells[i])),
        placed_upto(rules, cells, n).len() + refused_upto(rules, cells, n).len() == n,
    decreases n,
{
    let (s, t) = (placed_upto(rules, cells, n - 1), refused_upto(rules, cells, n - 1));
    if i < n - 1 {
        lemma_all_told(rules, cells, n - 1, i);
        if s.contains(write_back(*rules.grid, cells[i])) {
            let k = choose|k: int| 0 <= k < s.len() && s[k] == write_back(*rules.grid, cells[i]);
            assert(placed_upto(rules, cells, n)[k] == s[k]);
        }
        if t.contains(refusal(rules, i, cells[i])) {
            let k = choose|k: int| 0 <= k < t.len() && t[k] == refusal(rules, i, cells[i]);
            assert(refused_upto(rules, cells, n)[k] == t[k]);
        }
    } else {
        lemma_told_count(rules, cells, n - 1);
        if seated(rules, i, cells[i]) {
            assert(placed_upto(rules, cells, n)[s.len() as int] == write_back(*rules.grid, cells[i]));
        } else {
            assert(refused_upto(rules, cells, n)[t.len() as int] == refusal(rules, i, cells[i]));
        }
    }
}

proof fn lemma_told_count(rules: NegRules, cells: Seq<SweepCell>, n: int)
    requires
        0 <= n <= cells.len(),
    ensures
        placed_upto(rules, cells, n).len() + refused_upto(rules, cells, n).len() == n,
    decreases n,
{
    if n > 0 {
        lemma_told_count(rules, cells, n - 1);
    }
}

// ── the result ───────────────────────────────────────────────────────────────────────────────

/// Whether a cell that was written back takes the squares of a footprint: `w` columns from column `x`, `h` rows from row
/// `y`.
pub open spec fn takes(g: Grid, p: Placed, x: int, y: int, w: int, h: int) -> bool {
    &&& 0 <= x && 1 <= w && x + w <= g.row_site_count
    &&& 0 <= y && 1 <= h && y + h <= g.row_count
    &&& p.x == x * g.site_width + g.core.0
    &&& p.y == g.row_y@[y] + g.core.1
    &&& p.footprint == Some((w as i32, h as i32))
    &&& w <= i32::MAX && h <= i32::MAX
}

/// How wide and how high an instance is in columns and rows: the width to the nearest column, the height up to a row
/// where all rows are equally high; at least one each.
pub open spec fn measures(g: Grid, i: NegInst, w: int, h: int) -> bool {
    &&& w >= 1 && h >= 1
    &&& w == 1 || 2 * w * g.site_width <= 2 * i.width + g.site_width
    &&& 2 * i.width < 2 * w * g.site_width + g.site_width
    &&& forall|r: int| 0 <= r < g.row_count && equal_rows(g) ==> i.height <= h * (#[trigger] g.row_y@[r + 1] - g.row_y@[r])
    &&& h == 1 || forall|r: int| 0 <= r < g.row_count && equal_rows(g) ==> (h - 1) * (#[trigger] g.row_y@[r + 1] - g.row_y@[r]) < i.height
    &&& !equal_rows(g) ==> h == imax(i.row_pattern_len as int, 1)
}

/// Whether a cell of `w` columns and `h` rows starts at a square: the column that its instance's left lies in, and the row
/// boundary nearest to its bottom, as far as the whole cell stays on the grid there.
pub open spec fn starts_at(g: Grid, i: NegInst, w: int, h: int, x: int, y: int) -> bool {
    let (px, py) = (i.x - g.core.0, i.y - g.core.1);
    &&& 0 <= x <= imax(g.row_site_count - w, 0)
    &&& 0 <= y <= imax(g.row_count - h, 0)
    &&& 0 <= px < (g.row_site_count - w + 1) * g.site_width ==> x * g.site_width <= px < (x + 1) * g.site_width
    &&& px < 0 ==> x == 0
    &&& px >= (g.row_site_count - w + 1) * g.site_width ==> x == imax(g.row_site_count - w, 0)
    &&& forall|q: int| 0 <= q <= imax(g.row_count - h, 0) ==> crate::arith::dist(g.row_y@[y] as int, py) <= crate::arith::dist(#[trigger] g.row_y@[q] as int, py)
}

/// Whether all rows are equally high, and there are some.
pub open spec fn equal_rows(g: Grid) -> bool {
    g.row_count >= 1 && forall|r: int, q: int| 0 <= r < g.row_count && 0 <= q < g.row_count ==>
        #[trigger] g.row_y@[r + 1] - g.row_y@[r] == #[trigger] g.row_y@[q + 1] - g.row_y@[q]
}

proof fn lemma_measures(g: Grid, i: NegInst)
    requires
        g.wf(),
        inst_fits(g, i),
    ensures
        measures(g, i, sites_wide(g, i), rows_tall(g, i)),
        sites_wide(g, i) <= COORD_LIMIT,
        rows_tall(g, i) <= COORD_LIMIT,
{
    let (w, sw) = (i.width as int, g.site_width as int);
    let q = round_quot(w, sw);
    let d = 2 * sw;
    lemma_quot_bound(2 * w + sw, d);
    assert(q * d == 2 * q * sw) by (nonlinear_arith)
        requires d == 2 * sw;
    assert(0 <= q <= COORD_LIMIT) by (nonlinear_arith)
        requires q == round_quot(w, sw), 0 <= w <= COORD_LIMIT, sw >= 1;
    assert(2 * 1 * sw == 2 * sw) by (nonlinear_arith);
    if q < 1 {
        assert(2 * q * sw + 2 * sw <= 2 * sw) by (nonlinear_arith)
            requires q <= 0, sw > 0;
    }
    assert(equal_rows(g) == (g.row_height() is Some)) by {
        if equal_rows(g) {
            assert forall|r: int| 0 <= r < g.row_count implies #[trigger] g.row_y@[r + 1] - g.row_y@[r] == g.row_y@[1] - g.row_y@[0] by {
                assert(g.row_y@[r + 1] - g.row_y@[r] == g.row_y@[0int + 1] - g.row_y@[0int]);
            }
        }
        if g.row_height() is Some {
            assert forall|r: int, k: int| 0 <= r < g.row_count && 0 <= k < g.row_count implies
                #[trigger] g.row_y@[r + 1] - g.row_y@[r] == #[trigger] g.row_y@[k + 1] - g.row_y@[k] by {
                assert(g.row_y@[r + 1] - g.row_y@[r] == g.row_y@[1] - g.row_y@[0]);
                assert(g.row_y@[k + 1] - g.row_y@[k] == g.row_y@[1] - g.row_y@[0]);
            }
        }
    }
    if let Some(rh) = g.row_height() {
        let h = i.height as int;
        assert(g.row_y@[0] < g.row_y@[1]);
        let c = ceil_quot(h, rh);
        assert(0 <= c <= COORD_LIMIT) by (nonlinear_arith)
            requires c == ceil_quot(h, rh), 0 <= h <= COORD_LIMIT, rh >= 1;
        assert(h <= c * rh && (c - 1) * rh < h) by (nonlinear_arith)
            requires c == -((-h) / rh), rh >= 1;
        let t = rows_tall(g, i);
        assert(c <= t ==> c * rh <= t * rh) by (nonlinear_arith)
            requires rh >= 1;
    }
}

/// A cell starts at the nearest square to its instance.
proof fn lemma_start(g: Grid, i: NegInst)
    requires
        g.wf(),
        g.row_count <= COORD_LIMIT,
        g.row_site_count <= COORD_LIMIT,
        inst_fits(g, i),
    ensures
        starts_at(g, i, sites_wide(g, i), rows_tall(g, i), cell_for(g, i).x as int, cell_for(g, i).y as int),
{
    lemma_measures(g, i);
    let (w, h) = (sites_wide(g, i), rows_tall(g, i));
    let sw = g.site_width as int;
    let (px, py) = (i.x - g.core.0, i.y - g.core.1);
    let q = px / sw;
    let hi = g.row_site_count - w;
    assert(q * sw <= px < (q + 1) * sw) by (nonlinear_arith)
        requires q == px / sw, sw > 0;
    assert(q < 0 <==> px < 0) by (nonlinear_arith)
        requires q * sw <= px < (q + 1) * sw, sw > 0;
    assert(q > hi <==> px >= (hi + 1) * sw) by (nonlinear_arith)
        requires q * sw <= px < (q + 1) * sw, sw > 0;
    let x = clamp0(q, hi);
    if hi < 0 {
        assert((hi + 1) * sw <= 0) by (nonlinear_arith)
            requires hi + 1 <= 0, sw > 0;
    }
    let m = crate::grid::nearest_ix(g.row_y@, py);
    lemma_some_nearest(g.row_y@, py, g.row_y@.len() as int);
    assert(crate::grid::is_nearest(g.row_y@, py, m));
    let top = imax(g.row_count - h, 0);
    let y = clamp0(m, g.row_count - h);
    assert forall|k: int| 0 <= k <= top implies crate::arith::dist(g.row_y@[y] as int, py) <= crate::arith::dist(#[trigger] g.row_y@[k] as int, py) by {
        if m <= top {
            assert(y == m);
        } else {
            assert(y == top);
            assert(crate::arith::dist(g.row_y@[m] as int, py) <= crate::arith::dist(g.row_y@[y] as int, py));
            assert(g.row_y@[y] < g.row_y@[m]);
            if k < y {
                assert(g.row_y@[k] < g.row_y@[y]);
            }
        }
    }
}

/// Some entry of a list is the first of the nearest to a number.
proof fn lemma_some_nearest(v: Seq<i32>, y: int, n: int) -> (i: int)
    requires
        1 <= n <= v.len(),
    ensures
        0 <= i < n,
        forall|j: int| 0 <= j < n ==> crate::arith::dist(v[i] as int, y) <= crate::arith::dist(#[trigger] v[j] as int, y),
        forall|j: int| 0 <= j < i ==> crate::arith::dist(v[i] as int, y) < crate::arith::dist(#[trigger] v[j] as int, y),
        n == v.len() ==> crate::grid::is_nearest(v, y, i),
    decreases n,
{
    if n == 1 {
        0
    } else {
        let i = lemma_some_nearest(v, y, n - 1);
        if crate::arith::dist(v[n - 1] as int, y) < crate::arith::dist(v[i] as int, y) { n - 1 } else { i }
    }
}

/// Whether a square lies in a row of the design, clear of hard blockages, and no fixed instance covers it.
pub open spec fn clear_square(d: NegInput, g: Grid, gx: int, gy: int) -> bool {
    &&& exists|r: int| #[trigger] row_has(d.grid, r, g.site_width as int, square_box(g, gx, gy).0 + d.grid.core.0, square_box(g, gx, gy).1 + d.grid.core.1)
    &&& forall|b: int| 0 <= b < d.grid.blockages@.len() && !(#[trigger] d.grid.blockages@[b]).1 ==> !meets_square(d.grid, g, d.grid.blockages@[b].0, gx, gy)
    &&& forall|f: int| 0 <= f < d.insts@.len() && never_moves(#[trigger] d.insts@[f]) ==> !in_box(covered(g, d.insts@[f]), gx, gy)
}

/// Whether a cell that was written back is where it may be: it is that of an instance which takes part, of that one's
/// size, it sits in a row of its site with the row's orientation, its start is the nearest to its instance, it is said to
/// have moved exactly if it is not there, and each of its squares is one of a row, clear of hard
/// blockages, that no fixed instance covers.
pub open spec fn rightly_placed(d: NegInput, g: Grid, p: Placed, j: int, x: int, y: int, w: int, h: int) -> bool {
    let i = d.insts@[j];
    &&& 0 <= j < d.insts@.len()
    &&& is_moved(i)
    &&& p.name == i.name
    &&& takes(g, p, x, y, w, h)
    &&& measures(g, i, w, h)
    &&& p.orient matches Some(o) && sits_in_a_row(d.grid, g.site_width as int, i.site@, p.x as int, p.y as int, o@)
    &&& p.init_grid matches Some(q) && starts_at(g, i, w, h, q.0 as int, q.1 as int) && p.moved == (x != q.0 || y != q.1)
    &&& forall|gx: int, gy: int| x <= gx < x + w && y <= gy < y + h ==> #[trigger] clear_square(d, g, gx, gy)
}

/// Whether a result reports that the negotiation converged: nothing but what is always left out is named.
pub open spec fn reports_convergence(out: Legalized) -> bool {
    out.not_done@.len() == left_out().len()
}

/// What the legal place of a cell says of its squares.
proof fn lemma_legal_square<'a>(ctx: SweepCtx<'a, NegRules<'a>>, i: int, c: SweepCell, b: Board, gx: int, gy: int)
    requires
        ctx.legal(i, c, b),
        covers(c, gx, gy),
    ensures
        b.on(gx, gy),
        b.sq(gx, gy).capacity > 0,
        b.sq(gx, gy).usage <= b.sq(gx, gy).capacity,
{
    let (w, h) = (c.width as int, c.height as int);
    let fp = foot(b, w, h, c.x as int, c.y as int);
    lemma_index(w, h, gx - c.x, gy - c.y);
    let k = (gy - c.y) * w + (gx - c.x);
    assert(fp[k] matches Some((usage, capacity, _)) && capacity > 0 && usage <= capacity);
}

/// The cells of a run are where the law says.
proof fn lemma_run_cell<'a>(g: Grid, d: NegInput, ctx: SweepCtx<'a, NegRules<'a>>, t: Seq<Event>, o: Outcome, out: Legalized, i: int)
    requires
        d.grid.makes(g),
        crate::neg_legalize::rows_fit(d.grid),
        insts_fit(g, d.insts@),
        is_legalized(g, d, ctx, t, o, out),
        o is Converged,
        0 <= i < replay(ctx, start_state(g, d, ctx), t).cells.len(),
        seated(*ctx.rules, i, replay(ctx, start_state(g, d, ctx), t).cells[i]),
    ensures
        ({
            let it = intake(g, d.insts@, d.insts@.len() as int);
            let c = replay(ctx, start_state(g, d, ctx), t).cells[i];
            rightly_placed(d, g, write_back(g, c), it.of[i], c.x as int, c.y as int, c.width as int, c.height as int)
        }),
{
    let f = replay(ctx, start_state(g, d, ctx), t);
    let n = d.insts@.len() as int;
    let it = intake(g, d.insts@, n);
    let c = f.cells[i];
    lemma_intake_cells(g, d.insts@, n);
    lemma_intake_size(g, d.insts@, n);
    let j = it.of[i];
    let inst = d.insts@[j];
    assert(inst_fits(g, d.insts@[j]));
    assert(f.cells[i] == (SweepCell { x: f.cells[i].x, y: f.cells[i].y, ..it.cells[i] }));
    lemma_measures(g, inst);
    law_converged_leaves_every_cell_legal(g, d, ctx, t, o, out, i);
    assert(ctx.rules.sites@[i] == inst.site);
    let (x, y, w, h) = (c.x as int, c.y as int, c.width as int, c.height as int);
    crate::neg_legalize::lemma_columns_absolute(d.grid, g, x);
    law_offered_squares_sit_in_a_row(d.grid, g, x, y, inst.site@);
    crate::neg_legalize::lemma_rows_absolute(d.grid, g, y);
    let p = write_back(g, c);
    assert(takes(g, p, x, y, w, h));
    assert forall|gx: int, gy: int| x <= gx < x + w && y <= gy < y + h implies #[trigger] clear_square(d, g, gx, gy) by {
        lemma_legal_square(ctx, i, c, f.board, gx, gy);
        lemma_index(g.row_site_count as int, g.row_count as int, gx, gy);
        law_fixed_instances_take_their_squares(g, d.insts@, n, gx, gy);
        let k = gy * g.row_site_count + gx;
        assert(f.board.pixels[k].capacity == it.board.pixels[k].capacity);
        law_valid_squares_are_row_sites_without_blockage(d.grid, g, gx, gy);
        assert(!taken(g, d.insts@, n, gx, gy));
    }
    assert(takes_part(inst));
    assert(p.name == inst.name);
    assert(w == sites_wide(g, inst) && h == rows_tall(g, inst));
    assert(measures(g, inst, w, h));
    lemma_start(g, inst);
    assert(starts_at(g, inst, w, h, c.init_x as int, c.init_y as int));
    assert(sits_in_a_row(d.grid, g.site_width as int, inst.site@, p.x as int, p.y as int, g.row_orient@[y]@));
}

/// Every cell that a converged run writes back is rightly placed.
pub proof fn law_converged_cells_are_rightly_placed(d: NegInput, out: Legalized, k: int)
    requires
        forall|g: Grid| #[trigger] d.grid.makes(g) ==> insts_fit(g, d.insts@),
        crate::neg_legalize::rows_fit(d.grid),
        legalizes(d, out),
        reports_convergence(out),
        0 <= k < out.placed@.len(),
    ensures
        exists|g: Grid, j: int, x: int, y: int, w: int, h: int| d.grid.makes(g) && #[trigger] rightly_placed(d, g, out.placed@[k], j, x, y, w, h),
{
    let (g, ctx, t, o) = choose|g: Grid, ctx: SweepCtx<NegRules>, t: Seq<Event>, o: Outcome| d.grid.makes(g) && #[trigger] is_legalized(g, d, ctx, t, o, out);
    lemma_converged(g, d, ctx, t, o, out);
    let f = replay(ctx, start_state(g, d, ctx), t);
    let it = intake(g, d.insts@, d.insts@.len() as int);
    let i = lemma_placed(*ctx.rules, f.cells, f.cells.len() as int, k);
    lemma_run_cell(g, d, ctx, t, o, out, i);
    let c = f.cells[i];
    assert(rightly_placed(d, g, out.placed@[k], it.of[i], c.x as int, c.y as int, c.width as int, c.height as int));
}

proof fn lemma_converged<'a>(g: Grid, d: NegInput, ctx: SweepCtx<'a, NegRules<'a>>, t: Seq<Event>, o: Outcome, out: Legalized)
    requires
        is_legalized(g, d, ctx, t, o, out),
    ensures
        reports_convergence(out) == (o is Converged),
{
    assert(texts(out.not_done@).len() == out.not_done@.len());
}

// ── cells apart ──────────────────────────────────────────────────────────────────────────────

proof fn lemma_two_claims(cells: Seq<SweepCell>, n: int, a: int, b: int, gx: int, gy: int)
    requires
        0 <= a < b < n <= cells.len(),
        covers(cells[a], gx, gy),
        covers(cells[b], gx, gy),
    ensures
        claims(cells, n, -1, gx, gy) >= 2,
    decreases n,
{
    lemma_claims_bound(cells, n - 1, -1, gx, gy);
    if b < n - 1 {
        lemma_two_claims(cells, n - 1, a, b, gx, gy);
    } else {
        lemma_one_claim(cells, n - 1, a, gx, gy);
    }
}

proof fn lemma_one_claim(cells: Seq<SweepCell>, n: int, a: int, gx: int, gy: int)
    requires
        0 <= a < n <= cells.len(),
        covers(cells[a], gx, gy),
    ensures
        claims(cells, n, -1, gx, gy) >= 1,
    decreases n,
{
    lemma_claims_bound(cells, n - 1, -1, gx, gy);
    if a < n - 1 {
        lemma_one_claim(cells, n - 1, a, gx, gy);
    }
}

/// Whether two footprints have a square in common.
pub open spec fn share_a_square(a: (int, int, int, int), b: (int, int, int, int)) -> bool {
    a.0 < b.0 + b.2 && b.0 < a.0 + a.2 && a.1 < b.1 + b.3 && b.1 < a.1 + a.3
}

/// No two cells that a converged run writes back take the same square, and they are those of two instances.
pub proof fn law_converged_cells_lie_apart(d: NegInput, out: Legalized, k: int, m: int)
    requires
        forall|g: Grid| #[trigger] d.grid.makes(g) ==> insts_fit(g, d.insts@),
        crate::neg_legalize::rows_fit(d.grid),
        legalizes(d, out),
        reports_convergence(out),
        0 <= k < m < out.placed@.len(),
    ensures
        exists|g: Grid, i: int, j: int, a: (int, int, int, int), b: (int, int, int, int)| d.grid.makes(g) && i < j
            && #[trigger] rightly_placed(d, g, out.placed@[k], i, a.0, a.1, a.2, a.3) && #[trigger] rightly_placed(d, g, out.placed@[m], j, b.0, b.1, b.2, b.3)
            && !share_a_square(a, b),
{
    let (g, ctx, t, o) = choose|g: Grid, ctx: SweepCtx<NegRules>, t: Seq<Event>, o: Outcome| d.grid.makes(g) && #[trigger] is_legalized(g, d, ctx, t, o, out);
    lemma_converged(g, d, ctx, t, o, out);
    let f = replay(ctx, start_state(g, d, ctx), t);
    let n = f.cells.len() as int;
    let it = intake(g, d.insts@, d.insts@.len() as int);
    let i = lemma_placed(*ctx.rules, f.cells, n, k);
    let j = lemma_placed(*ctx.rules, f.cells, n, m);
    lemma_run_cell(g, d, ctx, t, o, out, i);
    lemma_run_cell(g, d, ctx, t, o, out, j);
    lemma_intake_cells(g, d.insts@, d.insts@.len() as int);
    if i >= j {
        lemma_placed_grows(*ctx.rules, f.cells, j, i);
    }
    let (c, e) = (f.cells[i], f.cells[j]);
    let a = (c.x as int, c.y as int, c.width as int, c.height as int);
    let b = (e.x as int, e.y as int, e.width as int, e.height as int);
    if share_a_square(a, b) {
        let gx = imax(a.0, b.0);
        let gy = imax(a.1, b.1);
        law_converged_leaves_every_cell_legal(g, d, ctx, t, o, out, i);
        lemma_legal_square(ctx, i, c, f.board, gx, gy);
        lemma_two_claims(f.cells, n, i, j, gx, gy);
        lemma_intake_size(g, d.insts@, d.insts@.len() as int);
        law_fixed_instances_take_their_squares(g, d.insts@, d.insts@.len() as int, gx, gy);
        lemma_index(g.row_site_count as int, g.row_count as int, gx, gy);
        let q = gy * g.row_site_count + gx;
        assert(f.board.pixels[q].capacity == it.board.pixels[q].capacity);
        assert(f.board.sq(gx, gy).usage == claims(f.cells, n, -1, gx, gy));
    }
    assert(it.of[i] < it.of[j]);
    assert(rightly_placed(d, g, out.placed@[k], it.of[i], a.0, a.1, a.2, a.3));
    assert(rightly_placed(d, g, out.placed@[m], it.of[j], b.0, b.1, b.2, b.3));
}

proof fn lemma_placed_grows(rules: NegRules, cells: Seq<SweepCell>, a: int, b: int)
    requires
        0 <= a <= b <= cells.len(),
    ensures
        placed_upto(rules, cells, a).len() <= placed_upto(rules, cells, b).len(),
    decreases b - a,
{
    if a < b {
        lemma_placed_grows(rules, cells, a, b - 1);
    }
}

/// Every instance that takes part is told of: it is written back under its name, or a failure begins with its name.
pub proof fn law_every_cell_is_told_of(d: NegInput, out: Legalized, j: int)
    requires
        legalizes(d, out),
        0 <= j < d.insts@.len(),
        is_moved(d.insts@[j]),
    ensures
        (exists|k: int| 0 <= k < out.placed@.len() && (#[trigger] out.placed@[k]).name == d.insts@[j].name)
            || exists|k: int| 0 <= k < out.failures@.len() && has_prefix((#[trigger] out.failures@[k])@, d.insts@[j].name@ + ": "@),
{
    let (g, ctx, t, o) = choose|g: Grid, ctx: SweepCtx<NegRules>, t: Seq<Event>, o: Outcome| d.grid.makes(g) && #[trigger] is_legalized(g, d, ctx, t, o, out);
    let f = replay(ctx, start_state(g, d, ctx), t);
    let n = f.cells.len() as int;
    let it = intake(g, d.insts@, d.insts@.len() as int);
    lemma_intake_cells(g, d.insts@, d.insts@.len() as int);
    let i = choose|i: int| 0 <= i < it.cells.len() && #[trigger] it.of[i] == j;
    assert(f.cells[i] == (SweepCell { x: f.cells[i].x, y: f.cells[i].y, ..it.cells[i] }));
    let c = f.cells[i];
    lemma_all_told(*ctx.rules, f.cells, n, i);
    if seated(*ctx.rules, i, c) {
        let w = write_back(*ctx.rules.grid, c);
        let k = choose|k: int| 0 <= k < out.placed@.len() && out.placed@[k] == w;
        assert(out.placed@[k].name == d.insts@[j].name);
    } else {
        let r = refusal(*ctx.rules, i, c);
        let k = choose|k: int| 0 <= k < texts(out.failures@).len() && texts(out.failures@)[k] == r;
        assert(out.failures@[k]@ == r);
        let head = c.name@ + ": "@;
        assert(r.subrange(0, head.len() as int) =~= head);
        assert(has_prefix(out.failures@[k]@, head));
    }
}

// ── distances in coordinates ─────────────────────────────────────────────────────────────────

/// Where a fixed instance stands on a column and on a row, no cell that a converged run writes back meets its box, in
/// coordinates relative to the core.
pub proof fn law_converged_cells_keep_off_fixed_boxes(d: NegInput, g: Grid, p: Placed, j: int, x: int, y: int, w: int, h: int, f: int)
    requires
        d.grid.makes(g),
        rightly_placed(d, g, p, j, x, y, w, h),
        0 <= f < d.insts@.len(),
        never_moves(d.insts@[f]),
        d.insts@[f].width >= 1,
        d.insts@[f].height >= 1,
        on_grid(g, d.insts@[f].x - g.core.0, d.insts@[f].y - g.core.1),
    ensures
        ({
            let i = d.insts@[f];
            !meet(
                (p.x - g.core.0, p.y - g.core.1, p.x - g.core.0 + w * g.site_width, g.row_y@[y + h] as int),
                (i.x - g.core.0, i.y - g.core.1, i.x - g.core.0 + i.width, i.y - g.core.1 + i.height),
            )
        }),
{
    let i = d.insts@[f];
    let sw = g.site_width as int;
    let (fx, fy) = (i.x - g.core.0, i.y - g.core.1);
    let a = (x * sw, g.row_y@[y] as int, x * sw + w * sw, g.row_y@[y + h] as int);
    let b = (fx, fy, fx + i.width, fy + i.height);
    if meet(a, b) {
        let k = choose|k: int| fx == #[trigger] (k * g.site_width);
        let r = choose|r: int| 0 <= r < g.row_count && #[trigger] g.row_y@[r] == fy;
        let gx = imax(x, k);
        let gy = imax(y, r);
        assert((x + w) * sw == x * sw + w * sw) by (nonlinear_arith);
        if k >= x + w {
            assert(k * sw >= (x + w) * sw) by (nonlinear_arith)
                requires k >= x + w, sw > 0;
        }
        if r >= y + h {
            assert(g.row_y@[r] >= g.row_y@[y + h]);
        }
        assert(x <= gx < x + w && y <= gy < y + h);
        assert(clear_square(d, g, gx, gy));
        assert(gx * sw == imax(x * sw, fx)) by {
            if k >= x {
                assert(k * sw >= x * sw) by (nonlinear_arith)
                    requires k >= x, sw > 0;
            } else {
                assert(k * sw <= x * sw) by (nonlinear_arith)
                    requires k <= x, sw > 0;
            }
        }
        assert((gx + 1) * sw == gx * sw + sw) by (nonlinear_arith);
        assert(g.row_y@[gy] < g.row_y@[gy + 1]);
        if r < y {
            assert(g.row_y@[r] < g.row_y@[y]);
        } else if y < r {
            assert(g.row_y@[y] < g.row_y@[r]);
        }
        law_cover_is_what_the_box_meets(g, fx, fy, i.width as int, i.height as int, gx, gy);
        assert(never_moves(d.insts@[f]));
    }
}

// ── one cell's turn ──────────────────────────────────────────────────────────────────────────

/// The sum of what the squares of a footprint cost: for each its price for every claim on it and the asking one, in
/// millionths.
pub open spec fn squares_cost(fp: Seq<Option<(i32, i32, i64)>>) -> int
    decreases fp.len(),
{
    if fp.len() == 0 {
        0
    } else {
        squares_cost(fp.drop_last()) + (match fp.last() {
            Some((usage, capacity, hist)) => 1000000 * (hist * (usage + 1)),
            None => 0,
        })
    }
}

/// Whether every square of a footprint is on the grid and has room.
pub open spec fn usable(fp: Seq<Option<(i32, i32, i64)>>) -> bool {
    forall|k: int| 0 <= k < fp.len() ==> ((#[trigger] fp[k]) matches Some((usage, capacity, hist)) && capacity == 1 && usage >= -1 && hist >= 0)
}

proof fn lemma_cost_head(fp: Seq<Option<(i32, i32, i64)>>)
    requires
        fp.len() > 0,
    ensures
        squares_cost(fp) == squares_cost(fp.skip(1)) + (match fp[0] {
            Some((usage, capacity, hist)) => 1000000 * (hist * (usage + 1)),
            None => 0,
        }),
    decreases fp.len(),
{
    if fp.len() == 1 {
        assert(fp.skip(1) =~= Seq::empty());
        assert(fp.drop_last() =~= Seq::empty());
    } else {
        lemma_cost_head(fp.drop_last());
        assert(fp.skip(1).drop_last() =~= fp.drop_last().skip(1));
    }
}

/// What a scan of a usable footprint finds, within a bound: the whole cost, or that it passes the bound.
proof fn lemma_scan(fp: Seq<Option<(i32, i32, i64)>>, cost: int, bound: int)
    requires
        usable(fp),
    ensures
        squares_cost(fp) >= 0,
        scan_cost(fp, cost, bound) <= cost + squares_cost(fp),
        scan_cost(fp, cost, bound) <= bound ==> scan_cost(fp, cost, bound) == cost + squares_cost(fp),
    decreases fp.len(),
{
    if fp.len() > 0 {
        lemma_cost_head(fp);
        let rest = fp.skip(1);
        assert(fp[0] matches Some((usage, capacity, hist)) && capacity == 1 && usage >= -1 && hist >= 0);
        assert(usable(rest)) by {
            assert forall|k: int| 0 <= k < rest.len() implies ((#[trigger] rest[k]) matches Some((usage, capacity, hist)) && capacity == 1 && usage >= -1 && hist >= 0) by {
                assert(rest[k] == fp[k + 1]);
            }
        }
        if let Some((usage, capacity, hist)) = fp[0] {
            let c = square_cost(usage as int, hist as int);
            assert(hist * (usage + 1) >= 0) by (nonlinear_arith)
                requires hist >= 0, usage >= -1;
            lemma_scan(rest, cost + c, bound);
        }
    }
}

/// What a candidate costs: its displacement, its squares, and the rules it breaks.
pub open spec fn candidate_cost<'a>(ctx: SweepCtx<'a, NegRules<'a>>, i: int, c: SweepCell, b: Board, penalty: int, cand: Candidate) -> int {
    let d = crate::arith::dist(cand.x as int, c.init_x as int) + crate::arith::dist(cand.y as int, c.init_y as int);
    1000000 * d + ctx.max_disp_multiplier * imax(d - ctx.max_disp_threshold, 0) + squares_cost(foot(b, c.width as int, c.height as int, cand.x as int, cand.y as int))
        + penalty * crate::sweep::SweepRules::breaks(ctx.rules, i, c, cand.x as int, cand.y as int, b)
}

/// The place that a cell's turn picks costs no more than any candidate that seats the cell on usable squares, and no more
/// than staying. It is where the cell was or a candidate that seats the cell.
pub proof fn law_turn_picks_the_cheapest<'a>(ctx: SweepCtx<'a, NegRules<'a>>, i: int, c: SweepCell, b: Board, penalty: int, best: crate::sweep::Best, cands: Seq<Candidate>, k: int)
    requires
        0 <= k <= cands.len(),
        penalty >= 0,
    ensures
        ({
            let r = ctx.pick(i, c, b, penalty, best, cands, k);
            &&& r.cost <= best.cost
            &&& forall|j: int| k <= j < cands.len() && ctx.rules.site_ok(i, c.width as int, c.height as int, (#[trigger] cands[j]).x as int, cands[j].y as int)
                && usable(foot(b, c.width as int, c.height as int, cands[j].x as int, cands[j].y as int)) ==> r.cost <= candidate_cost(ctx, i, c, b, penalty, cands[j])
            &&& (r.x == best.x && r.y == best.y) || exists|j: int| k <= j < cands.len() && (#[trigger] cands[j]).x == r.x && cands[j].y == r.y
                && ctx.rules.site_ok(i, c.width as int, c.height as int, r.x as int, r.y as int)
        }),
    decreases cands.len() - k,
{
    if k < cands.len() {
        let cand = cands[k];
        let next = ctx.weigh(i, c, b, penalty, best, cand);
        law_turn_picks_the_cheapest(ctx, i, c, b, penalty, next, cands, k + 1);
        let fp = foot(b, c.width as int, c.height as int, cand.x as int, cand.y as int);
        let d = crate::arith::dist(cand.x as int, c.init_x as int) + crate::arith::dist(cand.y as int, c.init_y as int);
        let target = crate::negotiate::disp_cost(d, ctx.max_disp_multiplier as int, ctx.max_disp_threshold as int);
        let broken = crate::sweep::SweepRules::breaks(ctx.rules, i, c, cand.x as int, cand.y as int, b);
        assert(penalty * broken >= 0) by (nonlinear_arith)
            requires penalty >= 0, broken >= 0;
        if usable(fp) {
            lemma_scan(fp, target, best.cost);
        }
        let r = ctx.pick(i, c, b, penalty, best, cands, k);
        assert(r == ctx.pick(i, c, b, penalty, next, cands, k + 1));
        assert forall|j: int| k <= j < cands.len() && ctx.rules.site_ok(i, c.width as int, c.height as int, (#[trigger] cands[j]).x as int, cands[j].y as int)
            && usable(foot(b, c.width as int, c.height as int, cands[j].x as int, cands[j].y as int)) implies r.cost <= candidate_cost(ctx, i, c, b, penalty, cands[j]) by {
            if j == k {
                assert(next.cost <= candidate_cost(ctx, i, c, b, penalty, cand));
            }
        }
        if r.x == next.x && r.y == next.y {
            if !(next.x == best.x && next.y == best.y) {
                assert(cands[k].x == r.x && cands[k].y == r.y);
            }
        } else {
            let j = choose|j: int| k + 1 <= j < cands.len() && (#[trigger] cands[j]).x == r.x && cands[j].y == r.y
                && ctx.rules.site_ok(i, c.width as int, c.height as int, r.x as int, r.y as int);
            assert(cands[j].x == r.x);
        }
    }
}

/// A sweep visits the cells with most overuse first, then the lower ones, then the narrower ones, then by number.
pub proof fn law_sweep_goes_by_overuse(cells: Seq<SweepCell>, b: Board, active: Seq<usize>, keys: Seq<SortKey>, i: int, j: int)
    requires
        crate::sweep::is_sweep_order(cells, b, active, keys),
        0 <= i < j < keys.len(),
    ensures
        keys[i].overuse >= keys[j].overuse,
        keys[i].overuse == keys[j].overuse ==> keys[i].height <= keys[j].height,
        keys[i].overuse == keys[j].overuse && keys[i].height == keys[j].height ==> keys[i].width <= keys[j].width,
        keys[i].overuse == keys[j].overuse && keys[i].height == keys[j].height && keys[i].width == keys[j].width ==> keys[i].idx <= keys[j].idx,
{
}

/// Prices never fall, and rise exactly on squares under active cells that more than one cell claims, by one for each
/// further claim.
pub proof fn law_contested_squares_get_dearer(b: Board, cells: Seq<SweepCell>, active: Seq<usize>, gx: int, gy: int)
    requires
        b.on(gx, gy),
        b.pixels.len() == b.width * b.height,
        0 <= b.sq(gx, gy).hist_cost,
        b.sq(gx, gy).hist_cost + 0x1_0000_0000 <= i64::MAX,
    ensures
        ({
            let (p, q) = (b.sq(gx, gy), crate::sweep::repriced(b, cells, active).sq(gx, gy));
            let contested = exists|j: int| 0 <= j < active.len() && covers(cells[#[trigger] active[j] as int], gx, gy);
            &&& q.usage == p.usage && q.capacity == p.capacity && q.cell == p.cell
            &&& q.hist_cost == p.hist_cost + (if contested && p.usage > 1 { p.usage - 1 } else { 0 })
        }),
{
    lemma_index(b.width, b.height, gx, gy);
    let k = gy * b.width + gx;
    let (p, q) = (b.pixels[k], crate::sweep::repriced(b, cells, active).pixels[k]);
    assert(k % b.width == gx && k / b.width == gy);
    let on = crate::sweep::active_on(cells, active, gx, gy);
    assert(q.hist_cost == (p.hist_cost + if on { p.over() } else { 0 }) as i64);
}

} // verus!
