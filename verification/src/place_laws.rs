//! What the diamond legalizer keeps: cells sit on free squares, and no two on the same.

use vstd::prelude::*;
use crate::arith::{ceil_quot, imax, trunc_quot};
use crate::grid::{in_box, offers, Grid, GridInput};
use crate::grid_laws::{law_offered_squares_sit_in_a_row, law_valid_squares_are_row_sites_without_blockage, law_cover_is_what_the_box_meets, lemma_common_square, meet, meets_square, on_grid, row_has, sits_in_a_row, square_box};
use crate::neg_legalize::{lemma_columns_absolute, lemma_rows_absolute, rows_fit};
use crate::place::{by_name, cell_named, chain, cleared_step, drawn_step, first_numbers, fixed_chain, fixed_link, group_step, may_move, movable_of, movables, names_of, placement_order, settled_step, stage, stays, tried_step, visits, visits_of, Diamond, Legalized, Movable, Placed, PlaceInput, PlaceInst};
use crate::regions::{grouped_pixel, Group};
use crate::text::texts;

verus! {

/// The squares that a cell takes where it is seated.
pub open spec fn seat_box(d: Diamond, i: int, px: int, py: int) -> (int, int, int, int) {
    let m = d.cells@[i];
    d.grid.cover(px * d.grid.site_width, d.grid.row_y@[py] as int, m.w as int, m.h as int)
}

/// The squares a seated cell takes are those that were asked for.
proof fn lemma_seat_box(d: Diamond, i: int, px: int, py: int)
    requires
        d.wf(),
        0 <= i < d.cells@.len(),
        0 <= px,
        0 <= py < d.grid.row_count,
        d.cells@[i].w >= 1,
        d.grid.row_y@[py] + d.cells@[i].h <= d.grid.row_y@[d.grid.row_count as int],
    ensures
        ({
            let b = seat_box(d, i, px, py);
            &&& b.0 == px
            &&& b.2 == px + d.sites_wide(i)
            &&& b.1 == py
            &&& b.3 == d.grid.end_row(d.grid.row_y@[py] + d.cells@[i].h)
        }),
{
    let g = d.grid;
    let m = d.cells@[i];
    assert(crate::place::movable_ok(d.cells@[i]));
    let (sw, w) = (g.site_width as int, m.w as int);
    assert(0 <= px * sw && (px * sw) / sw == px) by (nonlinear_arith)
        requires px >= 0, sw > 0;
    assert(ceil_quot(w, sw) == (w + sw - 1) / sw && ceil_quot(w, sw) >= 1) by (nonlinear_arith)
        requires w >= 1, sw > 0, ceil_quot(w, sw) == -((-w) / sw);
    let y = g.row_y@[py] as int;
    assert(y < g.row_y@[py + 1]);
    assert(g.is_snap_down(py, y));
    g.lemma_snap_unique(py, y);
    let top = y + m.h;
    let e = g.end_row(top);
    lemma_end(g, 0, top);
    if e <= py {
        assert(g.row_y@[e] <= g.row_y@[py]);
    }
}

/// The row past what a height covers is where it should be.
proof fn lemma_end(g: Grid, k: int, top: int)
    requires
        g.wf(),
        0 <= k <= g.row_count,
        forall|j: int| 0 <= j < k ==> g.row_y@[j] < top,
    ensures
        g.is_end_row(g.end_row(top), top),
    decreases g.row_count - k,
{
    if k == g.row_count || g.row_y@[k] >= top {
        assert(g.is_end_row(k, top));
    } else {
        lemma_end(g, k + 1, top);
    }
}

/// A cell that is seated takes squares that were valid and free, and no square becomes free.
pub proof fn law_a_seat_was_free(after: Diamond, before: Diamond, i: int, px: int, py: int, x: int, y: int)
    requires
        before.wf(),
        0 <= i < before.cells@.len(),
        before.can_sit(i, px, py),
        before.cells@[i].w >= 1,
        after.seats(before, i, px, py),
        before.grid.inside(x, y),
    ensures
        in_box(seat_box(before, i, px, py), x, y) ==> before.grid.px(x, y).is_valid && !before.grid.px(x, y).occupied && after.grid.px(x, y).occupied,
        before.grid.px(x, y).occupied ==> after.grid.px(x, y).occupied,
{
    lemma_seat_box(before, i, px, py);
    let m = before.cells@[i];
    let wide = before.sites_wide(i);
    assert(before.grid.box_free(px, px + wide, py, before.grid.end_row(before.grid.row_y@[py] + m.h)));
    let p = before.grid.px(x, y);
    let q = after.grid.px(x, y);
}

/// A square stays occupied while cells are placed.
proof fn lemma_stays_occupied(trace: Seq<Diamond>, ix: Seq<usize>, a: int, b: int, x: int, y: int)
    requires
        chain(tried_step(), trace, ix),
        0 <= a <= b <= ix.len(),
        trace[a].grid.inside(x, y),
        trace[a].grid.px(x, y).occupied,
    ensures
        trace[b].grid.inside(x, y),
        trace[b].grid.px(x, y).occupied,
    decreases b - a,
{
    if a < b {
        lemma_stays_occupied(trace, ix, a, b - 1, x, y);
        let (o, n, i) = (trace[b - 1], trace[b], ix[b - 1]);
        assert(tried_step()(trace[b - 1 + 1], trace[b - 1], ix[b - 1]));
        assert(n.tried(o, i));
        let q = n.grid.px(x, y);
    }
}

/// No two cells that are placed one after the other take the same square, as long as the later one has some
/// width.
pub proof fn law_no_two_cells_share_a_square(trace: Seq<Diamond>, ix: Seq<usize>, k: int, m: int, p: (int, int), q: (int, int), x: int, y: int)
    requires
        chain(tried_step(), trace, ix),
        0 <= k < m < ix.len(),
        trace[m].wf(),
        ix[m] < trace[m].cells@.len(),
        trace[k + 1].seats(trace[k], ix[k] as int, p.0, p.1),
        trace[m].can_sit(ix[m] as int, q.0, q.1),
        trace[m + 1].seats(trace[m], ix[m] as int, q.0, q.1),
        trace[m].cells@[ix[m] as int].w >= 1,
        trace[k].grid.inside(x, y),
    ensures
        !(in_box(seat_box(trace[k], ix[k] as int, p.0, p.1), x, y) && in_box(seat_box(trace[m], ix[m] as int, q.0, q.1), x, y)),
{
    if in_box(seat_box(trace[k], ix[k] as int, p.0, p.1), x, y) {
        let s = trace[k + 1].grid.px(x, y);
        assert(s.occupied);
        lemma_stays_occupied(trace, ix, k + 1, m, x, y);
        law_a_seat_was_free(trace[m + 1], trace[m], ix[m] as int, q.0, q.1, x, y);
    }
}

// ── seats ────────────────────────────────────────────────────────────────────────────────────

/// Where a cell was seated: the cell, its first column and its first row.
pub ghost struct Seat {
    pub cell: int,
    pub x: int,
    pub y: int,
}

/// The squares a seated cell takes: as many columns as its width needs, and the rows that its height reaches.
pub open spec fn seat_squares(g: Grid, m: Movable, x: int, y: int) -> (int, int, int, int) {
    (x, y, x + ceil_quot(m.w as int, g.site_width as int), g.end_row(g.row_y@[y] + m.h))
}

/// Whether a cell that was written back is the one of a seat: on the grid, where its site is offered, in absolute
/// coordinates, with the row's orientation, and said to have moved if it did.
pub open spec fn seat_right(g: Grid, cells: Seq<Movable>, p: Placed, st: Seat) -> bool {
    let m = cells[st.cell];
    &&& 0 <= st.cell < cells.len()
    &&& g.inside(st.x, st.y)
    &&& st.x + ceil_quot(m.w as int, g.site_width as int) <= g.row_site_count
    &&& g.row_y@[st.y] + m.h <= g.row_y@[g.row_count as int]
    &&& offers(g.row_sites@[st.y]@, st.x, m.site@)
    &&& p.name == m.name
    &&& p.x == st.x * g.site_width + g.core.0
    &&& p.y == g.row_y@[st.y] + g.core.1
    &&& p.orient == Some(g.row_orient@[st.y])
    &&& p.moved == (st.x * g.site_width != m.x || g.row_y@[st.y] != m.y)
}

/// What holds of the seats given since the state `b`: each is right, on squares that were valid and free in `b` and are
/// taken now, no two share a square, and the placed cells are those with a seat.
spec fn seats_ok(g: Grid, b: Diamond, s: Diamond, seats: Seq<Seat>) -> bool {
    &&& s.grid.same_frame(g)
    &&& s.cells == b.cells
    &&& s.placed@.len() == s.cells@.len()
    &&& seats.len() == s.out.placed@.len()
    &&& forall|k: int| 0 <= k < seats.len() ==> seat_right(g, s.cells@, #[trigger] s.out.placed@[k], seats[k])
    &&& forall|k: int, x: int, y: int| 0 <= k < seats.len() && in_box(seat_squares(g, s.cells@[seats[k].cell], seats[k].x, seats[k].y), x, y) ==>
        #[trigger] held(g, b, s, seats[k], x, y)
    &&& forall|k: int, m: int, x: int, y: int| 0 <= k < m < seats.len() ==> !(#[trigger] in_box(seat_squares(g, s.cells@[seats[k].cell], seats[k].x, seats[k].y), x, y)
        && #[trigger] in_box(seat_squares(g, s.cells@[seats[m].cell], seats[m].x, seats[m].y), x, y))
    &&& forall|x: int, y: int| #![trigger s.grid.px(x, y)] g.inside(x, y) ==> {
        &&& s.grid.px(x, y).is_valid == b.grid.px(x, y).is_valid
        &&& b.grid.px(x, y).occupied ==> s.grid.px(x, y).occupied
    }
    &&& forall|k: int| 0 <= k < seats.len() ==> s.placed@[(#[trigger] seats[k]).cell]
    &&& forall|c: int| 0 <= c < s.placed@.len() && #[trigger] s.placed@[c] ==> exists|k: int| 0 <= k < seats.len() && (#[trigger] seats[k]).cell == c
    &&& forall|k: int, m: int| 0 <= k < m < seats.len() ==> (#[trigger] seats[k]).cell != (#[trigger] seats[m]).cell
}

/// Whether a square was valid and free in the state `b` and is taken now.
spec fn held(g: Grid, b: Diamond, s: Diamond, st: Seat, x: int, y: int) -> bool {
    g.inside(x, y) && b.grid.px(x, y).is_valid && !b.grid.px(x, y).occupied && s.grid.px(x, y).occupied
}

/// The width in sites counts up.
proof fn lemma_wide(w: int, sw: int)
    requires
        w >= 0,
        sw > 0,
    ensures
        trunc_quot(w + sw - 1, sw) == ceil_quot(w, sw),
        ceil_quot(w, sw) >= 0,
{
    let q = ceil_quot(w, sw);
    assert(w <= q * sw && (q - 1) * sw < w) by (nonlinear_arith)
        requires q == -((-w) / sw), sw > 0;
    assert((q - 1) * sw == q * sw - sw) by (nonlinear_arith);
    assert(q >= 0) by (nonlinear_arith)
        requires w >= 0, w <= q * sw, sw > 0;
    vstd::arithmetic::div_mod::lemma_fundamental_div_mod_converse(w + sw - 1, sw, q, w + sw - 1 - q * sw);
}

/// A cell that is seated has a seat that is right, apart from the others.
proof fn lemma_seat_step(d: GridInput, g: Grid, b: Diamond, s: Diamond, t: Diamond, seats: Seq<Seat>, i: int, px: int, py: int)
    requires
        d.makes(g),
        rows_fit(d),
        seats_ok(g, b, s, seats),
        0 <= i < s.cells@.len(),
        s.cells@[i].w >= 0,
        s.cells@[i].h >= 1,
        !s.placed@[i],
        s.can_sit(i, px, py),
        t.seats(s, i, px, py),
    ensures
        seats_ok(g, b, t, seats.push(Seat { cell: i, x: px, y: py })),
{
    let m = s.cells@[i];
    let st = Seat { cell: i, x: px, y: py };
    let all = seats.push(st);
    let sw = g.site_width as int;
    let wide = ceil_quot(m.w as int, sw);
    lemma_wide(m.w as int, sw);
    assert(s.grid.rows_ok());
    let top = g.row_y@[py] + m.h;
    s.grid.lemma_same_rows(g, top);
    let ye = g.end_row(top);
    let k0 = choose|k: int| 0 <= k < g.row_sites@[py]@.len() && (#[trigger] g.row_sites@[py]@[k]).0 <= px < g.row_sites@[py]@[k].1 && g.row_sites@[py]@[k].2@ == m.site@;
    assert(g.row_sites@[py]@[k0].1 <= g.row_site_count);
    lemma_columns_absolute(d, g, px);
    lemma_rows_absolute(d, g, py);
    let p = t.out.placed@[seats.len() as int];
    assert(seat_right(g, t.cells@, p, st));
    let (nx, ny) = (px * sw, g.row_y@[py] as int);
    let c = s.grid.cover(nx, ny, m.w as int, m.h as int);
    assert(c.0 == px && c.2 == px + imax(wide, 1)) by {
        assert(0 <= px * sw && (px * sw) / sw == px) by (nonlinear_arith)
            requires px >= 0, sw > 0;
    }
    assert(c.1 == py && c.3 >= ye) by {
        assert(g.row_y@[py] < g.row_y@[py + 1]);
        assert(s.grid.is_snap_down(py, ny));
        s.grid.lemma_snap_unique(py, ny);
    }
    assert(s.grid.box_free(px, px + wide, py, ye));
    assert forall|x: int, y: int| in_box(seat_squares(g, m, px, py), x, y) implies g.inside(x, y) && b.grid.px(x, y).is_valid && !s.grid.px(x, y).occupied
        && !b.grid.px(x, y).occupied && #[trigger] t.grid.px(x, y).occupied by {
        let q = s.grid.px(x, y);
        assert(s.grid.inside(x, y));
        assert(g.inside(x, y));
        let u = t.grid.px(x, y);
        assert(in_box(c, x, y));
    }
    assert forall|x: int, y: int| #![trigger t.grid.px(x, y)] g.inside(x, y) implies {
        &&& t.grid.px(x, y).is_valid == b.grid.px(x, y).is_valid
        &&& b.grid.px(x, y).occupied ==> t.grid.px(x, y).occupied
        &&& s.grid.px(x, y).occupied ==> t.grid.px(x, y).occupied
    } by {
        assert(s.grid.inside(x, y));
        let q = s.grid.px(x, y);
    }
    assert forall|k: int| 0 <= k < all.len() implies seat_right(g, t.cells@, #[trigger] t.out.placed@[k], all[k]) by {
        if k < seats.len() {
            assert(t.out.placed@[k] == s.out.placed@[k]);
            assert(all[k] == seats[k]);
            assert(seat_right(g, s.cells@, s.out.placed@[k], seats[k]));
        }
    }
    assert forall|k: int, x: int, y: int| 0 <= k < all.len() && in_box(seat_squares(g, t.cells@[all[k].cell], all[k].x, all[k].y), x, y) implies
        #[trigger] held(g, b, t, all[k], x, y) by {
        if k < seats.len() {
            assert(all[k] == seats[k]);
            assert(held(g, b, s, seats[k], x, y));
            let u = t.grid.px(x, y);
        } else {
            assert(in_box(seat_squares(g, m, px, py), x, y));
            let u = t.grid.px(x, y);
        }
    }
    assert forall|k: int, n: int, x: int, y: int| 0 <= k < n < all.len() implies !(#[trigger] in_box(seat_squares(g, t.cells@[all[k].cell], all[k].x, all[k].y), x, y)
        && #[trigger] in_box(seat_squares(g, t.cells@[all[n].cell], all[n].x, all[n].y), x, y)) by {
        assert(all[k] == seats[k]);
        if n < seats.len() {
            assert(all[n] == seats[n]);
        } else if in_box(seat_squares(g, t.cells@[all[k].cell], all[k].x, all[k].y), x, y) && in_box(seat_squares(g, m, px, py), x, y) {
            assert(held(g, b, s, seats[k], x, y));
            assert(!s.grid.px(x, y).occupied) by {
                let u = t.grid.px(x, y);
            }
        }
    }
    assert forall|x: int| 0 <= x < t.placed@.len() && #[trigger] t.placed@[x] implies exists|k: int| 0 <= k < all.len() && (#[trigger] all[k]).cell == x by {
        if x == i {
            assert(all[seats.len() as int].cell == x);
        } else {
            assert(s.placed@[x]);
            let k = choose|k: int| 0 <= k < seats.len() && (#[trigger] seats[k]).cell == x;
            assert(all[k].cell == x);
        }
    }
    assert forall|k: int| 0 <= k < all.len() implies t.placed@[(#[trigger] all[k]).cell] by {
        if k < seats.len() {
            assert(s.placed@[seats[k].cell]);
            assert(seat_right(g, s.cells@, s.out.placed@[k], seats[k]));
        }
    }
    assert forall|k: int, n: int| 0 <= k < n < all.len() implies (#[trigger] all[k]).cell != (#[trigger] all[n]).cell by {
        assert(s.placed@[seats[k].cell]);
        if n < seats.len() {
            assert(seats[k].cell != seats[n].cell);
        }
    }
}

/// Whether a state follows another by seating one unplaced cell, or without seating any.
spec fn advances(t: Diamond, s: Diamond) -> bool {
    ||| t.cells == s.cells && t.grid == s.grid && t.out.placed == s.out.placed && t.placed == s.placed
    ||| exists|i: int, x: int, y: int| 0 <= i < s.cells@.len() && !s.placed@[i] && s.can_sit(i, x, y) && #[trigger] t.seats(s, i, x, y)
}

/// Cells of a state have sizes.
spec fn sized(s: Diamond) -> bool {
    forall|i: int| 0 <= i < s.cells@.len() ==> (#[trigger] s.cells@[i]).w >= 0 && s.cells@[i].h >= 1
}

/// A step keeps the seats, and adds one at most.
proof fn lemma_advance(d: GridInput, g: Grid, b: Diamond, s: Diamond, t: Diamond, seats: Seq<Seat>) -> (r: Seq<Seat>)
    requires
        d.makes(g),
        rows_fit(d),
        sized(s),
        seats_ok(g, b, s, seats),
        advances(t, s),
    ensures
        seats_ok(g, b, t, r),
        sized(t),
{
    if t.cells == s.cells && t.grid == s.grid && t.out.placed == s.out.placed && t.placed == s.placed {
        assert forall|k: int, x: int, y: int| 0 <= k < seats.len() && in_box(seat_squares(g, t.cells@[seats[k].cell], seats[k].x, seats[k].y), x, y) implies
            #[trigger] held(g, b, t, seats[k], x, y) by {
            assert(held(g, b, s, seats[k], x, y));
        }
        seats
    } else {
        let (i, x, y) = choose|i: int, x: int, y: int| 0 <= i < s.cells@.len() && !s.placed@[i] && s.can_sit(i, x, y) && #[trigger] t.seats(s, i, x, y);
        assert(s.cells@[i].w >= 0 && s.cells@[i].h >= 1);
        lemma_seat_step(d, g, b, s, t, seats, i, x, y);
        seats.push(Seat { cell: i, x, y })
    }
}

/// A run of steps keeps the seats.
proof fn lemma_advances(d: GridInput, g: Grid, b: Diamond, trace: Seq<Diamond>, n: int, seats: Seq<Seat>) -> (r: Seq<Seat>)
    requires
        d.makes(g),
        rows_fit(d),
        0 <= n < trace.len(),
        sized(trace[0]),
        seats_ok(g, b, trace[0], seats),
        forall|k: int| 0 <= k < n ==> #[trigger] advances(trace[k + 1], trace[k]),
    ensures
        seats_ok(g, b, trace[n], r),
        sized(trace[n]),
    decreases n,
{
    if n == 0 {
        seats
    } else {
        let q = lemma_advances(d, g, b, trace, n - 1, seats);
        assert(advances(trace[n - 1 + 1], trace[n - 1]));
        lemma_advance(d, g, b, trace[n - 1], trace[n], q)
    }
}

/// A move of an unplaced cell is a step.
proof fn lemma_goes(t: Diamond, s: Diamond, i: int, x: int, y: int, ok: bool)
    requires
        t.goes(s, i, x, y, ok),
        0 <= i < s.cells@.len(),
        !s.placed@[i],
    ensures
        advances(t, s),
{
    let m = s.cells@[i];
    let (gx, gy) = s.start_at(x, y, m.w as int, m.h as int);
    let r = choose|r: Option<(int, int)>| {
        &&& #[trigger] s.finds(i, gx, gy, r)
        &&& ok == (r is Some)
        &&& match r {
            Some(p) => t.seats(s, i, p.0, p.1),
            None => t == s,
        }
    };
    if let Some(p) = r {
        assert(s.can_sit(i, p.0, p.1));
    }
}

// ── stages ───────────────────────────────────────────────────────────────────────────────────

proof fn lemma_cell_named(cells: Seq<Movable>, name: Seq<char>, n: int)
    requires
        0 <= n <= cells.len(),
    ensures
        cell_named(cells, name, n) matches Some(i) ==> 0 <= i < n && cells[i].name@ == name,
    decreases n,
{
    if n > 0 && cells[n - 1].name@ != name {
        lemma_cell_named(cells, name, n - 1);
    }
}

proof fn lemma_visits_of(g: Group, gi: usize, cells: Seq<Movable>, n: int)
    requires
        cells.len() <= usize::MAX,
    ensures
        forall|k: int| 0 <= k < visits_of(g, gi, cells, n).len() ==> (#[trigger] visits_of(g, gi, cells, n)[k]).1 < cells.len(),
    decreases n,
{
    if n > 0 {
        lemma_visits_of(g, gi, cells, n - 1);
        lemma_cell_named(cells, g.cells@[n - 1]@, cells.len() as int);
        let (v, w) = (visits_of(g, gi, cells, n - 1), visits_of(g, gi, cells, n));
        assert forall|k: int| 0 <= k < w.len() implies (#[trigger] w[k]).1 < cells.len() by {
            if k < v.len() {
                assert(w[k] == v[k]);
            }
        }
    }
}

proof fn lemma_visits(groups: Seq<Group>, cells: Seq<Movable>, n: int)
    requires
        cells.len() <= usize::MAX,
    ensures
        forall|k: int| 0 <= k < visits(groups, cells, n).len() ==> (#[trigger] visits(groups, cells, n)[k]).1 < cells.len(),
    decreases n,
{
    if n > 0 {
        lemma_visits(groups, cells, n - 1);
        let g = groups[n - 1];
        lemma_visits_of(g, (n - 1) as usize, cells, g.cells@.len() as int);
        let (a, b) = (visits(groups, cells, n - 1), visits_of(g, (n - 1) as usize, cells, g.cells@.len() as int));
        assert forall|k: int| 0 <= k < visits(groups, cells, n).len() implies (#[trigger] visits(groups, cells, n)[k]).1 < cells.len() by {
            if k < a.len() {
                assert((a + b)[k] == a[k]);
            } else {
                assert((a + b)[k] == b[k - a.len()]);
            }
        }
    }
}

/// Grouped cells are drawn in by steps.
proof fn lemma_drawn_stage(d: GridInput, g: Grid, b: Diamond, s: Diamond, t: Diamond, seats: Seq<Seat>) -> (r: Seq<Seat>)
    requires
        d.makes(g),
        rows_fit(d),
        sized(s),
        seats_ok(g, b, s, seats),
        stage(drawn_step(), s, t, visits(s.groups@, s.cells@, s.groups@.len() as int)),
    ensures
        seats_ok(g, b, t, r),
        sized(t),
{
    let items = visits(s.groups@, s.cells@, s.groups@.len() as int);
    let trace = choose|trace: Seq<Diamond>| #[trigger] chain(drawn_step(), trace, items) && trace[0] == s && trace.last() == t;
    assert(s.cells@.len() == s.cells.len());
    lemma_visits(s.groups@, s.cells@, s.groups@.len() as int);
    lemma_drawn_trace(trace, items, items.len() as int);
    lemma_advances(d, g, b, trace, items.len() as int, seats)
}

proof fn lemma_drawn_trace(trace: Seq<Diamond>, items: Seq<(usize, usize)>, n: int)
    requires
        chain(drawn_step(), trace, items),
        0 <= n <= items.len(),
        forall|k: int| 0 <= k < items.len() ==> (#[trigger] items[k]).1 < trace[0].cells@.len(),
    ensures
        forall|k: int| 0 <= k < n ==> #[trigger] advances(trace[k + 1], trace[k]),
        trace[n].cells == trace[0].cells,
    decreases n,
{
    if n > 0 {
        lemma_drawn_trace(trace, items, n - 1);
        let (t, s, v) = (trace[n], trace[n - 1], items[n - 1]);
        assert(drawn_step()(trace[n - 1 + 1], trace[n - 1], items[n - 1]));
        assert(t.drawn(s, v));
        let m = s.cells@[v.1 as int];
        let rects = s.groups@[v.0 as int].rects@;
        if !(s.placed@[v.1 as int] || rects.len() == 0 || crate::place::inside_some(m, rects)) {
            let (q, ok) = choose|q: int, ok: bool| crate::place::is_nearest_rect(m, rects, q)
                && #[trigger] t.goes(s, v.1 as int, crate::place::nearest_point(m, rects[q]).0, crate::place::nearest_point(m, rects[q]).1, ok);
            lemma_goes(t, s, v.1 as int, crate::place::nearest_point(m, rects[q]).0, crate::place::nearest_point(m, rects[q]).1, ok);
        }
        assert(advances(trace[n - 1 + 1], trace[n - 1]));
    }
}

/// Cells clear the regions by steps.
proof fn lemma_cleared_stage(d: GridInput, g: Grid, b: Diamond, s: Diamond, t: Diamond, ix: Seq<usize>, seats: Seq<Seat>) -> (r: Seq<Seat>)
    requires
        d.makes(g),
        rows_fit(d),
        sized(s),
        seats_ok(g, b, s, seats),
        by_name(s.cells@, ix),
        stage(cleared_step(), s, t, ix),
    ensures
        seats_ok(g, b, t, r),
        sized(t),
{
    let trace = choose|trace: Seq<Diamond>| #[trigger] chain(cleared_step(), trace, ix) && trace[0] == s && trace.last() == t;
    let n = s.cells@.len();
    assert(n == s.cells.len());
    let all = crate::network::numbers(names_of(s.cells@).len());
    let below = |i: usize| i < n;
    assert forall|k: int| 0 <= k < all.len() implies below(#[trigger] all[k]) by {
    }
    let o = choose|o: crate::sort::ByName| #[trigger] crate::network::name_order(names_of(s.cells@), o, ix);
    crate::sort::lemma_rearranged(all, ix, below);
    assert forall|k: int| 0 <= k < ix.len() implies #[trigger] ix[k] < n by {
        assert(below(ix[k]));
    }
    lemma_cleared_trace(trace, ix, ix.len() as int);
    lemma_advances(d, g, b, trace, ix.len() as int, seats)
}

proof fn lemma_cleared_trace(trace: Seq<Diamond>, ix: Seq<usize>, n: int)
    requires
        chain(cleared_step(), trace, ix),
        0 <= n <= ix.len(),
        forall|k: int| 0 <= k < ix.len() ==> #[trigger] ix[k] < trace[0].cells@.len(),
    ensures
        forall|k: int| 0 <= k < n ==> #[trigger] advances(trace[k + 1], trace[k]),
        trace[n].cells == trace[0].cells,
    decreases n,
{
    if n > 0 {
        lemma_cleared_trace(trace, ix, n - 1);
        let (t, s, i) = (trace[n], trace[n - 1], ix[n - 1]);
        assert(cleared_step()(trace[n - 1 + 1], trace[n - 1], ix[n - 1]));
        assert(t.cleared(s, i));
        let m = s.cells@[i as int];
        if !(s.group_of@[i as int] is Some || s.placed@[i as int]) {
            match crate::place::crossed(m, s.groups@, s.groups@.len() as int) {
                None => {},
                Some(r) => {
                    let (x, y) = crate::place::nearest_point(m, r);
                    let ok = choose|ok: bool| #[trigger] t.goes(s, i as int, x, y, ok);
                    lemma_goes(t, s, i as int, x, y, ok);
                },
            }
        }
        assert(advances(trace[n - 1 + 1], trace[n - 1]));
    }
}

proof fn lemma_unplaced_members(s: Diamond, g: int, n: int)
    requires
        s.cells@.len() <= usize::MAX,
    ensures
        forall|k: int| 0 <= k < s.unplaced_members(g, n).len() ==> #[trigger] s.unplaced_members(g, n)[k] < s.cells@.len(),
    decreases n,
{
    if n > 0 {
        lemma_unplaced_members(s, g, n - 1);
        lemma_cell_named(s.cells@, s.groups@[g].cells@[n - 1]@, s.cells@.len() as int);
        let (v, w) = (s.unplaced_members(g, n - 1), s.unplaced_members(g, n));
        assert forall|k: int| 0 <= k < w.len() implies #[trigger] w[k] < s.cells@.len() by {
            if k < v.len() {
                assert(w[k] == v[k]);
            }
        }
    }
}

proof fn lemma_settled_trace(trace: Seq<Diamond>, ix: Seq<usize>, n: int)
    requires
        chain(settled_step(), trace, ix),
        0 <= n <= ix.len(),
        forall|k: int| 0 <= k < ix.len() ==> #[trigger] ix[k] < trace[0].cells@.len(),
    ensures
        forall|k: int| 0 <= k < n ==> #[trigger] advances(trace[k + 1], trace[k]),
        trace[n].cells == trace[0].cells,
    decreases n,
{
    if n > 0 {
        lemma_settled_trace(trace, ix, n - 1);
        let (t, s, i) = (trace[n], trace[n - 1], ix[n - 1]);
        assert(settled_step()(trace[n - 1 + 1], trace[n - 1], ix[n - 1]));
        assert(t.settled(s, i));
        let m = s.cells@[i as int];
        if !s.placed@[i as int] {
            lemma_goes(t, s, i as int, m.x as int, m.y as int, true);
        }
        assert(advances(trace[n - 1 + 1], trace[n - 1]));
    }
}

/// The turn of a group keeps the seats.
proof fn lemma_group_turn(d: GridInput, g: Grid, b: Diamond, s: Diamond, t: Diamond, gi: int, seats: Seq<Seat>) -> (r: Seq<Seat>)
    requires
        d.makes(g),
        rows_fit(d),
        sized(s),
        seats_ok(g, b, s, seats),
        t.group_turn(s, gi),
    ensures
        seats_ok(g, b, t, r),
        sized(t),
{
    let (ix, m, mid) = choose|ix: Seq<usize>, m: int, mid: Diamond| #[trigger] t.group_done(s, gi, ix, m, mid);
    let from = s.unplaced_members(gi, s.groups@[gi].cells@.len() as int);
    let o = choose|o: crate::place::ByKey| o.keys@ == crate::place::keys_of(s.cells@) && #[trigger] crate::sort::ascending(o, ix) && ix.to_multiset() == from.to_multiset();
    let n = s.cells@.len();
    assert(n == s.cells.len());
    lemma_unplaced_members(s, gi, s.groups@[gi].cells@.len() as int);
    let below = |i: usize| i < n;
    assert forall|k: int| 0 <= k < from.len() implies below(#[trigger] from[k]) by {
    }
    crate::sort::lemma_rearranged(from, ix, below);
    let part = ix.subrange(0, m);
    let trace = choose|trace: Seq<Diamond>| #[trigger] chain(settled_step(), trace, part) && trace[0] == s && trace.last() == mid;
    assert forall|k: int| 0 <= k < part.len() implies #[trigger] part[k] < n by {
        assert(below(ix[k]));
    }
    lemma_settled_trace(trace, part, m);
    let q = lemma_advances(d, g, b, trace, m, seats);
    assert(advances(t, mid));
    lemma_advance(d, g, b, mid, t, q)
}

proof fn lemma_group_trace(d: GridInput, g: Grid, b: Diamond, trace: Seq<Diamond>, items: Seq<int>, n: int, seats: Seq<Seat>) -> (r: Seq<Seat>)
    requires
        d.makes(g),
        rows_fit(d),
        chain(group_step(), trace, items),
        0 <= n <= items.len(),
        sized(trace[0]),
        seats_ok(g, b, trace[0], seats),
    ensures
        seats_ok(g, b, trace[n], r),
        sized(trace[n]),
    decreases n,
{
    if n == 0 {
        seats
    } else {
        let q = lemma_group_trace(d, g, b, trace, items, n - 1, seats);
        assert(group_step()(trace[n - 1 + 1], trace[n - 1], items[n - 1]));
        lemma_group_turn(d, g, b, trace[n - 1], trace[n], items[n - 1], q)
    }
}

/// Placing the groups keeps the seats.
proof fn lemma_groups_placed(d: GridInput, g: Grid, b: Diamond, s: Diamond, t: Diamond, seats: Seq<Seat>) -> (r: Seq<Seat>)
    requires
        d.makes(g),
        rows_fit(d),
        sized(s),
        seats_ok(g, b, s, seats),
        t.groups_placed(s),
    ensures
        seats_ok(g, b, t, r),
        sized(t),
{
    let (a1, b1, c1, ix) = choose|a: Diamond, b: Diamond, c: Diamond, ix: Seq<usize>| {
        &&& #[trigger] a.regions_assigned(s)
        &&& stage(drawn_step(), a, b, visits(a.groups@, a.cells@, a.groups@.len() as int))
        &&& by_name(b.cells@, ix)
        &&& #[trigger] stage(cleared_step(), b, c, ix)
        &&& stage(group_step(), c, t, first_numbers(c.groups@.len() as int))
    };
    assert(advances(a1, s));
    let q = lemma_advance(d, g, b, s, a1, seats);
    let q = lemma_drawn_stage(d, g, b, a1, b1, q);
    let q = lemma_cleared_stage(d, g, b, b1, c1, ix, q);
    let items = first_numbers(c1.groups@.len() as int);
    let trace = choose|trace: Seq<Diamond>| #[trigger] chain(group_step(), trace, items) && trace[0] == c1 && trace.last() == t;
    lemma_group_trace(d, g, b, trace, items, items.len() as int, q)
}

proof fn lemma_waiting(s: Diamond, n: int)
    requires
        0 <= n <= s.cells@.len() <= usize::MAX,
    ensures
        s.waiting(n).no_duplicates(),
        forall|k: int| 0 <= k < s.waiting(n).len() ==> #[trigger] s.waiting(n)[k] < n && !s.placed@[s.waiting(n)[k] as int] && s.group_of@[s.waiting(n)[k] as int] is None,
        forall|i: int| 0 <= i < n && !s.placed@[i] && #[trigger] s.group_of@[i] is None ==> s.waiting(n).contains(i as usize),
    decreases n,
{
    if n > 0 {
        lemma_waiting(s, n - 1);
        let (v, w) = (s.waiting(n - 1), s.waiting(n));
        assert forall|k: int| 0 <= k < w.len() implies #[trigger] w[k] < n && !s.placed@[w[k] as int] && s.group_of@[w[k] as int] is None by {
            if k < v.len() {
                assert(w[k] == v[k]);
            }
        }
        assert forall|a: int, b: int| 0 <= a < w.len() && 0 <= b < w.len() && a != b implies w[a] != w[b] by {
            if a < v.len() && b < v.len() {
                assert(v[a] != v[b]);
            }
        }
        assert forall|i: int| 0 <= i < n && !s.placed@[i] && #[trigger] s.group_of@[i] is None implies w.contains(i as usize) by {
            if i < n - 1 {
                let k = choose|k: int| 0 <= k < v.len() && v[k] == i as usize;
                assert(w[k] == i as usize);
            } else {
                assert(w[v.len() as int] == i as usize);
            }
        }
    }
}

proof fn lemma_tried_trace(trace: Seq<Diamond>, ix: Seq<usize>, n: int)
    requires
        chain(tried_step(), trace, ix),
        0 <= n <= ix.len(),
        ix.no_duplicates(),
        trace[0].placed@.len() == trace[0].cells@.len(),
        forall|k: int| 0 <= k < ix.len() ==> #[trigger] ix[k] < trace[0].cells@.len() && !trace[0].placed@[ix[k] as int],
    ensures
        forall|k: int| 0 <= k < n ==> #[trigger] advances(trace[k + 1], trace[k]),
        trace[n].cells == trace[0].cells,
        trace[n].placed@.len() == trace[0].placed@.len(),
        forall|k: int| n <= k < ix.len() ==> !trace[n].placed@[#[trigger] ix[k] as int],
    decreases n,
{
    if n > 0 {
        lemma_tried_trace(trace, ix, n - 1);
        let (t, s, i) = (trace[n], trace[n - 1], ix[n - 1]);
        assert(tried_step()(trace[n - 1 + 1], trace[n - 1], ix[n - 1]));
        assert(t.tried(s, i));
        let m = s.cells@[i as int];
        assert(!s.placed@[ix[n - 1] as int]);
        if t.goes(s, i as int, m.x as int, m.y as int, true) {
            lemma_goes(t, s, i as int, m.x as int, m.y as int, true);
            let (gx, gy) = s.start_at(m.x as int, m.y as int, m.w as int, m.h as int);
            let r = choose|r: Option<(int, int)>| {
                &&& #[trigger] s.finds(i as int, gx, gy, r)
                &&& true == (r is Some)
                &&& match r {
                    Some(p) => t.seats(s, i as int, p.0, p.1),
                    None => t == s,
                }
            };
            assert(t.placed@ == s.placed@.update(i as int, true));
        } else {
            assert(t.placed == s.placed);
        }
        assert(advances(trace[n - 1 + 1], trace[n - 1]));
        assert forall|k: int| n <= k < ix.len() implies !trace[n].placed@[#[trigger] ix[k] as int] by {
            assert(ix[k] != ix[n - 1]);
            assert(!s.placed@[ix[k] as int]);
        }
    }
}

/// Placing the waiting cells keeps the seats.
proof fn lemma_placed_all(d: GridInput, g: Grid, b: Diamond, s: Diamond, t: Diamond, seats: Seq<Seat>) -> (r: Seq<Seat>)
    requires
        d.makes(g),
        rows_fit(d),
        sized(s),
        seats_ok(g, b, s, seats),
        t.placed_all(s),
    ensures
        seats_ok(g, b, t, r),
        sized(t),
{
    let n = s.cells@.len() as int;
    assert(n == s.cells.len());
    let from = s.waiting(n);
    let ix = choose|ix: Seq<usize>| placement_order(s.cells@, s.waiting(n), ix) && #[trigger] stage(tried_step(), s, t, ix);
    lemma_waiting(s, n);
    lemma_order_keeps(s, from, ix);
    let trace = choose|trace: Seq<Diamond>| #[trigger] chain(tried_step(), trace, ix) && trace[0] == s && trace.last() == t;
    lemma_tried_trace(trace, ix, ix.len() as int);
    lemma_advances(d, g, b, trace, ix.len() as int, seats)
}

/// The order of placement lists each waiting cell once.
proof fn lemma_order_keeps(s: Diamond, from: Seq<usize>, ix: Seq<usize>)
    requires
        placement_order(s.cells@, from, ix),
        from.no_duplicates(),
        forall|k: int| 0 <= k < from.len() ==> #[trigger] from[k] < s.cells@.len() && !s.placed@[from[k] as int],
    ensures
        ix.no_duplicates(),
        ix.len() == from.len(),
        forall|k: int| 0 <= k < ix.len() ==> #[trigger] ix[k] < s.cells@.len() && !s.placed@[ix[k] as int],
        forall|i: usize| from.contains(i) ==> #[trigger] ix.contains(i),
{
    let o = choose|o: crate::place::ByKey| o.keys@ == crate::place::keys_of(s.cells@) && #[trigger] crate::sort::ascending(o, ix) && ix.to_multiset() == from.to_multiset();
    let ok = |i: usize| i < s.cells@.len() && !s.placed@[i as int];
    assert forall|k: int| 0 <= k < from.len() implies ok(#[trigger] from[k]) by {
    }
    crate::sort::lemma_rearranged(from, ix, ok);
    from.lemma_multiset_has_no_duplicates();
    ix.lemma_multiset_has_no_duplicates_conv();
    assert forall|k: int| 0 <= k < ix.len() implies #[trigger] ix[k] < s.cells@.len() && !s.placed@[ix[k] as int] by {
        assert(ok(ix[k]));
    }
    from.to_multiset_ensures();
    ix.to_multiset_ensures();
    assert forall|i: usize| from.contains(i) implies #[trigger] ix.contains(i) by {
        assert(from.to_multiset().count(i) > 0);
    }
}

// ── from the design to the result ────────────────────────────────────────────────────────────

/// The squares that an instance covers where it is.
pub open spec fn covered(g: Grid, i: PlaceInst) -> (int, int, int, int) {
    g.cover(i.x - g.core.0, i.y - g.core.1, i.w as int, i.h as int)
}

/// Instances that never move: firm or locked ones, and blocks.
pub open spec fn never_moves(i: PlaceInst) -> bool {
    i.status@ == "FIRM"@ || i.status@ == "LOCKED"@ || crate::text::has_part(i.master_type@, "BLOCK"@)
}

/// Instances that are legalized: core cells that may move.
pub open spec fn is_moved(i: PlaceInst) -> bool {
    !never_moves(i) && crate::text::has_part(i.master_type@, "CORE"@)
}

/// Whether one of the first `n` instances stays and covers a square.
pub open spec fn taken(g: Grid, insts: Seq<PlaceInst>, n: int, x: int, y: int) -> bool {
    exists|j: int| 0 <= j < n && never_moves(#[trigger] insts[j]) && in_box(covered(g, insts[j]), x, y)
}

/// Before any cell is placed, a square is occupied exactly where a staying instance covers it, and valid where the grid is.
pub proof fn law_staying_instances_take_their_squares(g: Grid, insts: Seq<PlaceInst>, trace: Seq<Grid>, n: int, x: int, y: int)
    requires
        fixed_chain(g, insts, trace),
        0 <= n <= insts.len(),
        g.inside(x, y),
        !g.px(x, y).occupied,
    ensures
        trace[n].same_frame(g),
        trace[n].px(x, y).is_valid == g.px(x, y).is_valid,
        trace[n].px(x, y).occupied == taken(g, insts, n, x, y),
    decreases n,
{
    if n > 0 {
        law_staying_instances_take_their_squares(g, insts, trace, n - 1, x, y);
        let i = insts[n - 1];
        let (a, b) = (trace[n - 1], trace[n - 1 + 1]);
        assert(fixed_link(g, insts[n - 1], trace[n - 1], trace[n - 1 + 1]));
        assert(a.inside(x, y));
        let q = b.px(x, y);
        if stays(i) && in_box(covered(g, i), x, y) {
            assert(never_moves(insts[n - 1]));
            assert(taken(g, insts, n, x, y));
        }
        if taken(g, insts, n - 1, x, y) {
            let j = choose|j: int| 0 <= j < n - 1 && never_moves(#[trigger] insts[j]) && in_box(covered(g, insts[j]), x, y);
            assert(taken(g, insts, n, x, y));
        } else if taken(g, insts, n, x, y) {
            let j = choose|j: int| 0 <= j < n && never_moves(#[trigger] insts[j]) && in_box(covered(g, insts[j]), x, y);
            assert(j == n - 1);
        }
    }
}

proof fn lemma_grouped_pixel(g: Grid, groups: Seq<Group>, n: int, x: int, y: int)
    ensures
        grouped_pixel(g, groups, n, x, y).occupied == g.px(x, y).occupied,
        groups.len() == 0 && n == 0 ==> grouped_pixel(g, groups, n, x, y) == g.px(x, y),
    decreases n,
{
    if n > 0 {
        lemma_grouped_pixel(g, groups, n - 1, x, y);
    }
}

/// Each movable cell is that of an instance that may move, and every such instance has its cell.
proof fn lemma_movables(g: Grid, insts: Seq<PlaceInst>, n: int, c: int) -> (j: int)
    requires
        0 <= n <= insts.len(),
        0 <= c < movables(g, insts, n).len(),
    ensures
        0 <= j < n,
        may_move(insts[j]),
        movables(g, insts, n)[c] == movable_of(g, insts[j]),
        movables(g, insts, j).len() == c,
    decreases n,
{
    let s = movables(g, insts, n - 1);
    if c < s.len() {
        lemma_movables(g, insts, n - 1, c)
    } else {
        n - 1
    }
}

proof fn lemma_movables_grow(g: Grid, insts: Seq<PlaceInst>, a: int, b: int)
    requires
        0 <= a <= b <= insts.len(),
    ensures
        movables(g, insts, a).len() <= movables(g, insts, b).len(),
    decreases b - a,
{
    if a < b {
        lemma_movables_grow(g, insts, a, b - 1);
    }
}

/// The box of an instance seated at a square: its left, bottom, right and top, relative to the core.
pub open spec fn seat_area(g: Grid, i: PlaceInst, x: int, y: int) -> (int, int, int, int) {
    (x * g.site_width, g.row_y@[y] as int, x * g.site_width + i.w, g.row_y@[y] + i.h)
}

/// Whether a cell that was written back is where it may be: it is that of an instance that may move, on a column and a
/// row of the grid and wholly on the grid, it sits in a row of its site with the row's orientation, it is said to have
/// moved exactly if it did, and no square that its box, if it has some width, meets is covered by a staying instance. Where no group has a
/// region, each of these squares is one of a row, clear of hard blockages.
pub open spec fn rightly_seated(d: PlaceInput, g: Grid, p: Placed, j: int, x: int, y: int) -> bool {
    let i = d.insts@[j];
    &&& 0 <= j < d.insts@.len()
    &&& is_moved(i)
    &&& p.name == i.name
    &&& g.inside(x, y)
    &&& p.x == x * g.site_width + g.core.0
    &&& p.y == g.row_y@[y] + g.core.1
    &&& x * g.site_width + i.w <= g.row_site_count * g.site_width
    &&& g.row_y@[y] + i.h <= g.row_y@[g.row_count as int]
    &&& p.orient matches Some(o) && sits_in_a_row(d.grid, g.site_width as int, i.site@, p.x as int, p.y as int, o@)
    &&& p.moved == (p.x != i.x || p.y != i.y)
    &&& forall|gx: int, gy: int| #![trigger square_box(g, gx, gy)] i.w >= 1 && g.inside(gx, gy) && meet(square_box(g, gx, gy), seat_area(g, i, x, y)) ==> open_square(d, g, gx, gy)
}

/// Whether no staying instance covers a square, and, where no group has a region, it is one of a row, clear of hard
/// blockages.
pub open spec fn open_square(d: PlaceInput, g: Grid, gx: int, gy: int) -> bool {
    &&& forall|f: int| 0 <= f < d.insts@.len() && never_moves(#[trigger] d.insts@[f]) ==> !in_box(covered(g, d.insts@[f]), gx, gy)
    &&& (forall|q: int| 0 <= q < d.groups@.len() ==> !(#[trigger] d.groups@[q]).has_region) ==> {
        &&& exists|r: int| #[trigger] row_has(d.grid, r, g.site_width as int, square_box(g, gx, gy).0 + d.grid.core.0, square_box(g, gx, gy).1 + d.grid.core.1)
        &&& forall|b: int| 0 <= b < d.grid.blockages@.len() && !(#[trigger] d.grid.blockages@[b]).1 ==> !meets_square(d.grid, g, d.grid.blockages@[b].0, gx, gy)
    }
}

proof fn lemma_no_region(groups: Seq<crate::regions::GroupInput>, n: int)
    requires
        0 <= n <= groups.len(),
        forall|q: int| 0 <= q < groups.len() ==> !(#[trigger] groups[q]).has_region,
    ensures
        crate::regions::with_region(groups, n).len() == 0,
    decreases n,
{
    if n > 0 {
        lemma_no_region(groups, n - 1);
        assert(!groups[n - 1].has_region);
    }
}

/// The squares that the box of a seated instance meets are those it takes.
proof fn lemma_meets_its_squares(g: Grid, i: PlaceInst, x: int, y: int, gx: int, gy: int)
    requires
        g.wf(),
        i.w >= 1,
        i.h >= 1,
        g.inside(x, y),
        g.inside(gx, gy),
        meet(square_box(g, gx, gy), seat_area(g, i, x, y)),
    ensures
        in_box(seat_squares(g, movable_of(g, i), x, y), gx, gy),
{
    let sw = g.site_width as int;
    assert(on_grid(g, x * sw, g.row_y@[y] as int)) by {
        assert(x * sw == x * g.site_width);
        assert(g.row_y@[y] == g.row_y@[y]);
    }
    law_cover_is_what_the_box_meets(g, x * sw, g.row_y@[y] as int, i.w as int, i.h as int, gx, gy);
    let c = g.cover(x * sw, g.row_y@[y] as int, i.w as int, i.h as int);
    assert(0 <= x * sw && (x * sw) / sw == x) by (nonlinear_arith)
        requires x >= 0, sw > 0;
    assert(ceil_quot(i.w as int, sw) >= 1) by (nonlinear_arith)
        requires i.w >= 1, sw > 0, ceil_quot(i.w as int, sw) == -((-(i.w as int)) / sw);
    assert(g.row_y@[y] < g.row_y@[y + 1]);
    assert(g.is_snap_down(y, g.row_y@[y] as int));
    g.lemma_snap_unique(y, g.row_y@[y] as int);
    let top = g.row_y@[y] + i.h;
    g.lemma_end_is(top);
    if g.end_row(top) <= y {
        assert(g.row_y@[g.end_row(top)] <= g.row_y@[y]);
    }
}

/// The seats of a whole run, and what is known of the state when the regions have claimed their squares.
proof fn lemma_run_seats(d: PlaceInput, g: Grid, a: Diamond, b: Diamond, c: Diamond, e: Diamond, out: Legalized) -> (r: Seq<Seat>)
    requires
        d.runs(g, a, b, c, e, out),
        d.fits(g),
        rows_fit(d.grid),
    ensures
        seats_ok(g, b, e, r),
        e.cells@ == movables(g, d.insts@, d.insts@.len() as int),
        forall|x: int, y: int| g.inside(x, y) ==> (#[trigger] b.grid.px(x, y)).occupied == taken(g, d.insts@, d.insts@.len() as int, x, y),
        (forall|q: int| 0 <= q < d.groups@.len() ==> !(#[trigger] d.groups@[q]).has_region) ==>
            forall|x: int, y: int| g.inside(x, y) ==> (#[trigger] b.grid.px(x, y)).is_valid == g.px(x, y).is_valid,
{
    let n = d.insts@.len() as int;
    let trace = choose|trace: Seq<Grid>| #[trigger] fixed_chain(g, d.insts@, trace) && trace.last() == a.grid;
    lemma_chain_frame(g, d.insts@, trace, n);
    assert forall|x: int, y: int| g.inside(x, y) implies (#[trigger] b.grid.px(x, y)).occupied == taken(g, d.insts@, n, x, y)
        && (a.groups@.len() == 0 ==> b.grid.px(x, y).is_valid == g.px(x, y).is_valid) by {
        law_valid_squares_are_row_sites_without_blockage(d.grid, g, x, y);
        law_staying_instances_take_their_squares(g, d.insts@, trace, n, x, y);
        assert(a.grid.inside(x, y));
        let q = b.grid.px(x, y);
        lemma_grouped_pixel(a.grid, a.groups@, a.groups@.len() as int, x, y);
    }
    if forall|q: int| 0 <= q < d.groups@.len() ==> !(#[trigger] d.groups@[q]).has_region {
        lemma_no_region(d.groups@, d.groups@.len() as int);
        assert(a.groups@.len() == 0);
    }
    assert(sized(b)) by {
        assert forall|i: int| 0 <= i < b.cells@.len() implies (#[trigger] b.cells@[i]).w >= 0 && b.cells@[i].h >= 1 by {
            let j = lemma_movables(g, d.insts@, n, i);
            assert(crate::place::inst_fits(g, d.insts@[j]));
        }
    }
    assert(seats_ok(g, b, b, Seq::empty()));
    let q = if b.groups@.len() > 0 {
        lemma_groups_placed(d.grid, g, b, b, c, Seq::empty())
    } else {
        Seq::empty()
    };
    lemma_placed_all(d.grid, g, b, c, e, q)
}

proof fn lemma_chain_frame(g: Grid, insts: Seq<PlaceInst>, trace: Seq<Grid>, n: int)
    requires
        fixed_chain(g, insts, trace),
        0 <= n <= insts.len(),
    ensures
        trace[n].same_frame(g),
    decreases n,
{
    if n > 0 {
        lemma_chain_frame(g, insts, trace, n - 1);
        assert(fixed_link(g, insts[n - 1], trace[n - 1], trace[n - 1 + 1]));
    }
}

/// A seat of a run is one where its cell may be.
proof fn lemma_seat_is_right(d: PlaceInput, g: Grid, b: Diamond, e: Diamond, seats: Seq<Seat>, k: int) -> (j: int)
    requires
        d.grid.makes(g),
        d.fits(g),
        seats_ok(g, b, e, seats),
        e.cells@ == movables(g, d.insts@, d.insts@.len() as int),
        forall|x: int, y: int| g.inside(x, y) ==> (#[trigger] b.grid.px(x, y)).occupied == taken(g, d.insts@, d.insts@.len() as int, x, y),
        (forall|q: int| 0 <= q < d.groups@.len() ==> !(#[trigger] d.groups@[q]).has_region) ==>
            forall|x: int, y: int| g.inside(x, y) ==> (#[trigger] b.grid.px(x, y)).is_valid == g.px(x, y).is_valid,
        0 <= k < e.out.placed@.len(),
    ensures
        rightly_seated(d, g, e.out.placed@[k], j, seats[k].x, seats[k].y),
        e.cells@[seats[k].cell] == movable_of(g, d.insts@[j]),
        movables(g, d.insts@, j).len() == seats[k].cell,
{
    let n = d.insts@.len() as int;
    let st = seats[k];
    let p = e.out.placed@[k];
    assert(seat_right(g, e.cells@, e.out.placed@[k], seats[k]));
    let j = lemma_movables(g, d.insts@, n, st.cell);
    let i = d.insts@[j];
    let m = e.cells@[st.cell];
    assert(crate::place::inst_fits(g, d.insts@[j]));
    let sw = g.site_width as int;
    law_offered_squares_sit_in_a_row(d.grid, g, st.x, st.y, i.site@);
    let wide = ceil_quot(i.w as int, sw);
    assert(i.w <= wide * sw) by (nonlinear_arith)
        requires wide == -((-(i.w as int)) / sw), sw > 0;
    assert((st.x + wide) * sw <= g.row_site_count * sw) by (nonlinear_arith)
        requires st.x + wide <= g.row_site_count, sw > 0;
    assert((st.x + wide) * sw == st.x * sw + wide * sw) by (nonlinear_arith);
    assert forall|gx: int, gy: int| #![trigger square_box(g, gx, gy)] i.w >= 1 && g.inside(gx, gy) && meet(square_box(g, gx, gy), seat_area(g, i, st.x, st.y)) implies
        open_square(d, g, gx, gy) by {
        lemma_meets_its_squares(g, i, st.x, st.y, gx, gy);
        assert(in_box(seat_squares(g, m, st.x, st.y), gx, gy));
        assert(held(g, b, e, seats[k], gx, gy));
        let q = b.grid.px(gx, gy);
        assert(!taken(g, d.insts@, n, gx, gy));
        law_valid_squares_are_row_sites_without_blockage(d.grid, g, gx, gy);
    }
    j
}

/// Every cell that is written back is rightly seated.
pub proof fn law_placed_cells_are_rightly_seated(d: PlaceInput, out: Legalized, k: int)
    requires
        forall|g: Grid| #[trigger] d.grid.makes(g) ==> d.fits(g),
        rows_fit(d.grid),
        d.legalized(out),
        0 <= k < out.placed@.len(),
    ensures
        exists|g: Grid, j: int, x: int, y: int| d.grid.makes(g) && #[trigger] rightly_seated(d, g, out.placed@[k], j, x, y),
{
    let (g, a, b, c, e) = choose|g: Grid, a: Diamond, b: Diamond, c: Diamond, e: Diamond| #[trigger] d.runs(g, a, b, c, e, out);
    let seats = lemma_run_seats(d, g, a, b, c, e, out);
    let j = lemma_seat_is_right(d, g, b, e, seats, k);
    assert(rightly_seated(d, g, out.placed@[k], j, seats[k].x, seats[k].y));
}

/// No two cells that are written back meet, and they are those of two instances.
pub proof fn law_placed_cells_lie_apart(d: PlaceInput, out: Legalized, k: int, m: int)
    requires
        forall|g: Grid| #[trigger] d.grid.makes(g) ==> d.fits(g),
        rows_fit(d.grid),
        d.legalized(out),
        0 <= k < m < out.placed@.len(),
    ensures
        exists|g: Grid, i: int, j: int, p: (int, int), q: (int, int)| d.grid.makes(g) && i != j
            && #[trigger] rightly_seated(d, g, out.placed@[k], i, p.0, p.1) && #[trigger] rightly_seated(d, g, out.placed@[m], j, q.0, q.1)
            && (d.insts@[i].w >= 1 && d.insts@[j].w >= 1 ==> !meet(seat_area(g, d.insts@[i], p.0, p.1), seat_area(g, d.insts@[j], q.0, q.1))),
{
    let (g, a, b, c, e) = choose|g: Grid, a: Diamond, b: Diamond, c: Diamond, e: Diamond| #[trigger] d.runs(g, a, b, c, e, out);
    let seats = lemma_run_seats(d, g, a, b, c, e, out);
    let i = lemma_seat_is_right(d, g, b, e, seats, k);
    let j = lemma_seat_is_right(d, g, b, e, seats, m);
    assert(seats[k].cell != seats[m].cell);
    let (p, q) = ((seats[k].x, seats[k].y), (seats[m].x, seats[m].y));
    let (u, v) = (d.insts@[i], d.insts@[j]);
    assert(crate::place::inst_fits(g, d.insts@[i]) && crate::place::inst_fits(g, d.insts@[j]));
    if u.w >= 1 && v.w >= 1 && meet(seat_area(g, u, p.0, p.1), seat_area(g, v, q.0, q.1)) {
        let (gx, gy) = lemma_common_square(g, p.0, p.1, u.w as int, u.h as int, q.0, q.1, v.w as int, v.h as int);
        lemma_meets_its_squares(g, u, p.0, p.1, gx, gy);
        lemma_meets_its_squares(g, v, q.0, q.1, gx, gy);
        assert(in_box(seat_squares(g, e.cells@[seats[k].cell], seats[k].x, seats[k].y), gx, gy));
        assert(in_box(seat_squares(g, e.cells@[seats[m].cell], seats[m].x, seats[m].y), gx, gy));
    }
    assert(rightly_seated(d, g, out.placed@[k], i, p.0, p.1));
    assert(rightly_seated(d, g, out.placed@[m], j, q.0, q.1));
}

/// Where a staying instance stands on a column and on a row, no cell that is written back meets its box.
pub proof fn law_placed_cells_keep_off_staying_boxes(d: PlaceInput, g: Grid, p: Placed, j: int, x: int, y: int, f: int)
    requires
        d.grid.makes(g),
        rightly_seated(d, g, p, j, x, y),
        d.insts@[j].w >= 1,
        d.insts@[j].h >= 1,
        0 <= f < d.insts@.len(),
        never_moves(d.insts@[f]),
        d.insts@[f].w >= 1,
        d.insts@[f].h >= 1,
        on_grid(g, d.insts@[f].x - g.core.0, d.insts@[f].y - g.core.1),
    ensures
        ({
            let i = d.insts@[f];
            !meet(seat_area(g, d.insts@[j], x, y), (i.x - g.core.0, i.y - g.core.1, i.x - g.core.0 + i.w, i.y - g.core.1 + i.h))
        }),
{
    let i = d.insts@[f];
    let (fx, fy) = (i.x - g.core.0, i.y - g.core.1);
    let u = choose|u: int| fx == #[trigger] (u * g.site_width);
    let v = choose|v: int| 0 <= v < g.row_count && #[trigger] g.row_y@[v] == fy;
    let m = d.insts@[j];
    if meet(seat_area(g, m, x, y), (fx, fy, fx + i.w, fy + i.h)) {
        let (gx, gy) = lemma_common_square(g, x, y, m.w as int, m.h as int, u, v, i.w as int, i.h as int);
        let sw = g.site_width as int;
        if gx >= g.row_site_count {
            assert(gx * sw >= g.row_site_count * sw) by (nonlinear_arith)
                requires gx >= g.row_site_count, sw > 0;
        }
        assert(g.inside(gx, gy));
        law_cover_is_what_the_box_meets(g, fx, fy, i.w as int, i.h as int, gx, gy);
        let sq = square_box(g, gx, gy);
        assert(open_square(d, g, gx, gy));
        assert(never_moves(d.insts@[f]));
    }
}

/// Cells of several rows are placed before others, larger cells before smaller ones, those nearer the centre before those
/// further away, and equal ones by name.
pub proof fn law_hard_cells_go_first(a: crate::place::KeyParts, b: crate::place::KeyParts)
    ensures
        a.multi_row && !b.multi_row ==> crate::place::parts_before(a, b),
        a.multi_row == b.multi_row && a.area > b.area ==> crate::place::parts_before(a, b),
        a.multi_row == b.multi_row && a.area == b.area && a.center_dist < b.center_dist ==> crate::place::parts_before(a, b),
        a.multi_row == b.multi_row && a.area == b.area && a.center_dist == b.center_dist && crate::text::text_less(a.name, b.name) ==> crate::place::parts_before(a, b),
{
}

// ── the nearest place ────────────────────────────────────────────────────────────────────────

/// How far a square lies from another, in coordinates: along the row and across the rows.
pub open spec fn far_apart(g: Grid, a: (int, int), b: (int, int)) -> int {
    crate::arith::dist(a.0, b.0) * g.site_width + crate::arith::dist(g.row_y@[a.1] as int, g.row_y@[b.1] as int)
}

/// A cell without a group finds the nearest square within reach where it can sit: one where it can sit is no nearer, as
/// long as it is at most five hundred columns and one hundred rows away.
pub proof fn law_search_finds_the_nearest(s: Diamond, i: int, gx: int, gy: int, p: (int, int), q: (int, int))
    requires
        s.grid.wf(),
        s.group_of@[i] is None,
        s.grid.inside(gx, gy),
        s.finds(i, gx, gy, Some(p)),
        s.grid.inside(q.0, q.1),
        s.can_sit(i, q.0, q.1),
        crate::arith::dist(q.0, gx) <= 500,
        crate::arith::dist(q.1, gy) <= 100,
    ensures
        s.can_sit(i, p.0, p.1),
        far_apart(s.grid, (gx, gy), p) <= far_apart(s.grid, (gx, gy), q),
{
    let d = s.spread(i, gx, gy);
    let n = choose|n: nat| {
        let out = (#[trigger] d.after(n)).out;
        &&& out.len() == n
        &&& n <= crate::place::SEARCH_LIMIT
        &&& n > 0
        &&& out[n - 1] == p
        &&& s.can_sit(i, p.0, p.1)
        &&& forall|k: int| 0 <= k < n - 1 ==> !s.can_sit(i, (#[trigger] out[k]).0, out[k].1)
    };
    let out = d.after(n).out;
    lemma_spread_grows(s, i, gx, gy);
    assert(d.holds(gx, gy) && d.holds(q.0, q.1));
    crate::diamond::law_walk_visits_once(d, n);
    assert(out[n - 1] == p);
    lemma_spread_distance(s, i, gx, gy, p);
    lemma_spread_distance(s, i, gx, gy, q);
    if out.contains(q) {
        let k = choose|k: int| 0 <= k < out.len() && out[k] == q;
        assert(k == n - 1) by {
            if k < n - 1 {
                assert(!s.can_sit(i, out[k].0, out[k].1));
            }
        }
    } else {
        crate::diamond::law_unvisited_points_are_no_nearer(d, n, n - 1, q);
    }
}

/// The distance of a search is that of the squares.
proof fn lemma_spread_distance(s: Diamond, i: int, gx: int, gy: int, p: (int, int))
    requires
        s.grid.inside(gx, gy),
        s.grid.wf(),
        s.grid.inside(p.0, p.1),
    ensures
        crate::diamond::distance_of(s.spread(i, gx, gy), p) == far_apart(s.grid, (gx, gy), p),
{
    if p == (gx, gy) {
        assert(0 * s.grid.site_width == 0);
    }
}

/// The distance of a search never grows on the way in.
proof fn lemma_spread_grows(s: Diamond, i: int, gx: int, gy: int)
    requires
        s.grid.wf(),
        s.group_of@[i] is None,
        s.grid.inside(gx, gy),
    ensures
        crate::diamond::grows_outward(s.spread(i, gx, gy)),
{
    let d = s.spread(i, gx, gy);
    let g = s.grid;
    let sw = g.site_width as int;
    assert forall|p: (int, int)| #![trigger crate::diamond::distance_of(d, p)] d.holds(p.0, p.1) && p != (d.cx, d.cy) implies
        0 <= crate::diamond::distance_of(d, crate::diamond::step_in(d, p)) <= crate::diamond::distance_of(d, p) by {
        let q = crate::diamond::step_in(d, p);
        assert(g.inside(p.0, p.1));
        assert(g.inside(q.0, q.1));
        lemma_spread_distance(s, i, gx, gy, p);
        lemma_spread_distance(s, i, gx, gy, q);
        let (a, b) = (crate::arith::dist(gx, p.0), crate::arith::dist(gx, q.0));
        assert(0 <= b * sw <= a * sw) by (nonlinear_arith)
            requires 0 <= b <= a, sw > 0;
        if p.1 < gy {
            assert(g.row_y@[p.1] <= g.row_y@[q.1] <= g.row_y@[gy]);
        } else if p.1 > gy {
            assert(g.row_y@[gy] <= g.row_y@[q.1] <= g.row_y@[p.1]);
        }
    }
}

// ── every cell is told of ────────────────────────────────────────────────────────────────────

/// Whether a cell of a state is placed, or its name is among the failures.
spec fn told(s: Diamond, c: int) -> bool {
    s.placed@[c] || texts(s.out.failures@).contains(s.cells@[c].name@)
}

/// What is told stays told.
proof fn lemma_told_stays(t: Diamond, s: Diamond, c: int)
    requires
        told(s, c),
        0 <= c < s.placed@.len(),
        t.cells == s.cells,
        forall|x: int| 0 <= x < s.placed@.len() && #[trigger] s.placed@[x] ==> t.placed@[x],
        exists|more: Seq<Seq<char>>| texts(t.out.failures@) == #[trigger] (texts(s.out.failures@) + more),
    ensures
        told(t, c),
{
    if !s.placed@[c] {
        let more = choose|more: Seq<Seq<char>>| texts(t.out.failures@) == #[trigger] (texts(s.out.failures@) + more);
        let k = choose|k: int| 0 <= k < texts(s.out.failures@).len() && texts(s.out.failures@)[k] == s.cells@[c].name@;
        assert(texts(t.out.failures@)[k] == s.cells@[c].name@);
    }
}

/// Every ungrouped cell is told of once the waiting cells have been tried.
proof fn lemma_tried_told(trace: Seq<Diamond>, ix: Seq<usize>, n: int, k: int)
    requires
        chain(tried_step(), trace, ix),
        0 <= k < n <= ix.len(),
        ix.no_duplicates(),
        trace[0].placed@.len() == trace[0].cells@.len(),
        forall|q: int| 0 <= q < ix.len() ==> #[trigger] ix[q] < trace[0].cells@.len() && !trace[0].placed@[ix[q] as int],
    ensures
        told(trace[n], ix[k] as int),
    decreases n,
{
    lemma_tried_trace(trace, ix, n - 1);
    let (t, s, i) = (trace[n], trace[n - 1], ix[n - 1]);
    assert(tried_step()(trace[n - 1 + 1], trace[n - 1], ix[n - 1]));
    assert(t.tried(s, i));
    let m = s.cells@[i as int];
    if t.goes(s, i as int, m.x as int, m.y as int, true) {
        let (gx, gy) = s.start_at(m.x as int, m.y as int, m.w as int, m.h as int);
        let r = choose|r: Option<(int, int)>| {
            &&& #[trigger] s.finds(i as int, gx, gy, r)
            &&& true == (r is Some)
            &&& match r {
                Some(p) => t.seats(s, i as int, p.0, p.1),
                None => t == s,
            }
        };
        assert(t.placed@ == s.placed@.update(i as int, true));
        assert(texts(t.out.failures@) =~= texts(s.out.failures@) + Seq::<Seq<char>>::empty());
    } else {
        let f = texts(s.out.failures@);
        assert(texts(t.out.failures@) == f + seq![m.name@]);
        assert((f + seq![m.name@])[f.len() as int] == m.name@);
    }
    assert(ix[k] < trace[0].cells@.len());
    if k < n - 1 {
        lemma_tried_told(trace, ix, n - 1, k);
        lemma_told_stays(t, s, ix[k] as int);
    }
}

/// In a design whose groups have no regions, every instance that may move is told of: it is written back under its
/// name, or its name is a failure.
pub proof fn law_every_cell_is_told_of(d: PlaceInput, out: Legalized, j: int)
    requires
        d.legalized(out),
        forall|g: Grid| #[trigger] d.grid.makes(g) ==> d.fits(g),
        rows_fit(d.grid),
        forall|q: int| 0 <= q < d.groups@.len() ==> !(#[trigger] d.groups@[q]).has_region,
        0 <= j < d.insts@.len(),
        is_moved(d.insts@[j]),
    ensures
        (exists|k: int| 0 <= k < out.placed@.len() && (#[trigger] out.placed@[k]).name == d.insts@[j].name)
            || exists|k: int| 0 <= k < out.failures@.len() && (#[trigger] out.failures@[k])@ == d.insts@[j].name@,
{
    let (g, a, b, c, e) = choose|g: Grid, a: Diamond, b: Diamond, c: Diamond, e: Diamond| #[trigger] d.runs(g, a, b, c, e, out);
    let seats = lemma_run_seats(d, g, a, b, c, e, out);
    let n = d.insts@.len() as int;
    lemma_no_region(d.groups@, d.groups@.len() as int);
    assert(a.groups@.len() == 0);
    // The cell of the instance.
    let cell = movables(g, d.insts@, j).len() as int;
    lemma_movables_grow(g, d.insts@, j + 1, n);
    lemma_movable_at(g, d.insts@, j + 1, n, cell);
    assert(movables(g, d.insts@, j + 1)[cell] == movable_of(g, d.insts@[j]));
    assert(c.cells@[cell].name == d.insts@[j].name);
    let m = c.cells@.len() as int;
    assert(m == c.cells.len());
    assert(c.group_of@[cell] is None) by {
        assert(a.group_of@[cell] == crate::place::group_of_cell(a.groups@, a.cells@, cell, 0));
    }
    assert(!c.placed@[cell]);
    let from = c.waiting(m);
    let ix = choose|ix: Seq<usize>| placement_order(c.cells@, c.waiting(m), ix) && #[trigger] stage(tried_step(), c, e, ix);
    lemma_waiting(c, m);
    lemma_order_keeps(c, from, ix);
    let trace = choose|trace: Seq<Diamond>| #[trigger] chain(tried_step(), trace, ix) && trace[0] == c && trace.last() == e;
    assert(from.contains(cell as usize));
    assert(ix.contains(cell as usize));
    let k = choose|k: int| 0 <= k < ix.len() && ix[k] == cell as usize;
    lemma_tried_told(trace, ix, ix.len() as int, k);
    if e.placed@[cell] {
        let q = choose|q: int| 0 <= q < seats.len() && (#[trigger] seats[q]).cell == cell;
        assert(seat_right(g, e.cells@, e.out.placed@[q], seats[q]));
        assert(out.placed@[q].name == d.insts@[j].name);
    } else {
        let q = choose|q: int| 0 <= q < texts(out.failures@).len() && texts(out.failures@)[q] == d.insts@[j].name@;
        assert(out.failures@[q]@ == d.insts@[j].name@);
    }
}

proof fn lemma_movable_at(g: Grid, insts: Seq<PlaceInst>, a: int, b: int, c: int)
    requires
        0 <= a <= b <= insts.len(),
        0 <= c < movables(g, insts, a).len(),
    ensures
        c < movables(g, insts, b).len(),
        movables(g, insts, b)[c] == movables(g, insts, a)[c],
    decreases b - a,
{
    if a < b {
        lemma_movable_at(g, insts, a, b - 1, c);
    }
}

} // verus!
