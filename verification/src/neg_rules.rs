//! What a design lets a cell do, as the negotiation sweep asks it.

use vstd::prelude::*;
use crate::arith::{imax, imin};
use crate::drc::{agrees2, check_one_site_gap, gap_free};
use crate::grid::{offers, Grid};
use crate::neg_grid::{Board, NegGrid};
use crate::negotiate::{agrees1, effective_row_cap, Options};
use crate::search::{agrees3, build_search_window, law_reach, law_window_rows_determined, Span, Walk};
use crate::sweep::{SweepCell, SweepRules, COORD_LIMIT};

verus! {

/// The rules of one design. Cells are named by their index.
pub struct NegRules<'a> {
    pub grid: &'a Grid,
    /// Per grid row, whether it has a usable square.
    pub row_has: Vec<bool>,
    /// Per cell, the site it needs.
    pub sites: Vec<String>,
    /// Per cell and grid row, whether the cell's power rails let it start there.
    pub rails: Vec<Vec<bool>>,
    /// Whether gaps of one site are violations.
    pub gaps_disallowed: bool,
    pub opts: Options,
}

/// What of a board a gap check reads: whether a square holds a cell.
pub open spec fn holds_cell(b: Board) -> spec_fn(i32, i32) -> Option<bool> {
    |x: i32, y: i32| if b.on(x as int, y as int) { Some(b.sq(x as int, y as int).cell is Some) } else { None }
}

impl<'a> NegRules<'a> {
    pub open spec fn wf(&self) -> bool {
        &&& self.opts.ok()
        &&& self.grid.wf()
        &&& self.grid.row_count <= COORD_LIMIT
        &&& self.grid.row_site_count <= COORD_LIMIT
        &&& self.row_has@.len() == self.grid.row_count
        &&& self.sites@.len() == self.rails@.len()
        &&& forall|i: int| 0 <= i < self.rails@.len() ==> (#[trigger] self.rails@[i])@.len() == self.grid.row_count
    }

    /// Whether row `r` exists and has a usable square.
    pub open spec fn row_open(&self, r: int) -> bool {
        0 <= r < self.grid.row_count && self.row_has@[r]
    }

    /// Whether cell `i`, `w` sites wide and `h` rows tall, may sit at `(x, y)`: on the grid, every
    /// row with sites, its bottom row offering its site at its own column, its rails matching.
    pub open spec fn site_ok(&self, i: int, w: int, h: int, x: int, y: int) -> bool {
        &&& 0 <= x
        &&& 0 <= y
        &&& y + h <= self.grid.row_count
        &&& x + w <= self.grid.row_site_count
        &&& forall|dy: int| 0 <= dy < h ==> #[trigger] self.row_open(y + dy)
        &&& y < self.grid.row_count
        &&& offers(self.grid.row_sites@[y]@, x, self.sites@[i]@)
        &&& h <= 1 || self.rails@[i]@[y]
    }

    /// Whether row `r` can host the cell in some column of `[lo, hi]`.
    pub open spec fn hosts(&self, i: int, w: int, h: int, r: int, lo: int, hi: int) -> bool {
        exists|x: int| lo <= x <= hi && 0 <= x < self.grid.row_site_count && #[trigger] self.site_ok(i, w, h, x, r)
    }

    /// The vertical limit of a cell of height `h`.
    pub open spec fn row_cap(&self, h: int) -> int {
        let base = self.opts.row_search_window as int;
        imin(if self.opts.disable_window_extension { base } else { h * base }, self.opts.max_displacement_y as int)
    }

    pub open spec fn span(&self, x: int) -> Span {
        Span {
            base: x,
            site_window: self.opts.site_search_window as int,
            max_disp: self.opts.max_displacement_x as int,
            allow_extension: !self.opts.disable_window_extension,
            off_die: |p: int| p < 0 || p >= self.grid.row_site_count,
            open_at: |p: int| 0 <= p < self.grid.row_site_count,
        }
    }

    pub open spec fn walk(&self, i: int, w: int, h: int, y: int, lo: int, hi: int) -> Walk {
        Walk {
            seed: y,
            height: h,
            grid_h: self.grid.row_count as int,
            count: self.opts.row_search_window as int,
            max_scan: self.row_cap(h),
            extended_cap: imin(2 * self.row_cap(h), self.opts.max_displacement_y as int),
            allow_extension: !self.opts.disable_window_extension,
            has_sites: |r: int| self.row_open(r),
            usable: |r: int| self.hosts(i, w, h, r, lo, hi),
        }
    }

    /// Whether `win` is the window of cell `i` around `(x, y)`.
    pub open spec fn is_window(&self, i: int, w: int, h: int, x: int, y: int, win: (int, int, Seq<i32>)) -> bool {
        self.span(x).gives(win.0, win.1) && self.walk(i, w, h, y, x + win.0, x + win.1).gives(win.2)
    }

    proof fn lemma_window_unique(&self, i: int, w: int, h: int, x: int, y: int, a: (int, int, Seq<i32>), b: (int, int, Seq<i32>))
        requires
            self.is_window(i, w, h, x, y, a),
            self.is_window(i, w, h, x, y, b),
        ensures
            a == b,
    {
        law_reach(self.span(x), a.0, a.1, b.0, b.1);
        law_window_rows_determined(self.walk(i, w, h, y, x + a.0, x + a.1), a.2, b.2);
    }

    /// May cell `i` sit at `(x, y)`?
    pub fn may_sit(&self, i: usize, w: i32, h: i32, x: i32, y: i32) -> (r: bool)
        requires
            self.wf(),
            i < self.sites@.len(),
            0 <= w,
            0 <= h,
        ensures
            r == self.site_ok(i as int, w as int, h as int, x as int, y as int),
    {
        if x < 0 || y < 0 || y as i64 + h as i64 > self.grid.row_count as i64 || x as i64 + w as i64 > self.grid.row_site_count as i64 {
            return false;
        }
        let mut dy: i32 = 0;
        while dy < h
            invariant
                self.wf(),
                0 <= y,
                0 <= dy <= h,
                y + h <= self.grid.row_count,
                forall|d: int| 0 <= d < dy ==> #[trigger] self.row_open(y + d),
            decreases h - dy,
        {
            if !self.row_has[(y + dy) as usize] {
                assert(!self.row_open(y + dy));
                return false;
            }
            dy = dy + 1;
        }
        if !self.grid.site_valid_at(x as i64, y as i64, self.sites[i].as_str()) {
            return false;
        }
        h <= 1 || self.rails[i][y as usize]
    }

    /// Can row `r` host the cell in some column of `[lo, hi]`?
    fn row_hosts(&self, i: usize, w: i32, h: i32, r: i32, lo: i32, hi: i32) -> (b: bool)
        requires
            self.wf(),
            i < self.sites@.len(),
            0 <= w,
            0 <= h,
        ensures
            b == self.hosts(i as int, w as int, h as int, r as int, lo as int, hi as int),
    {
        let gw: i64 = self.grid.row_site_count as i64;
        let first: i64 = crate::arith::max64(lo as i64, 0);
        let last: i64 = crate::arith::min64(hi as i64, gw - 1);
        let mut x: i64 = first;
        while x <= last
            invariant
                self.wf(),
                i < self.sites@.len(),
                0 <= w,
                0 <= h,
                gw == self.grid.row_site_count,
                first == imax(lo as int, 0),
                last == imin(hi as int, gw - 1),
                first <= x,
                x <= last + 1 || x == first,
                forall|a: int| first <= a < x ==> !#[trigger] self.site_ok(i as int, w as int, h as int, a, r as int),
            decreases last - x + 1,
        {
            if self.may_sit(i, w, h, x as i32, r) {
                assert(self.site_ok(i as int, w as int, h as int, x as int, r as int));
                return true;
            }
            x = x + 1;
        }
        false
    }
}

impl<'a> SweepRules for NegRules<'a> {
    open spec fn knows(&self, i: int) -> bool {
        self.wf() && 0 <= i < self.sites@.len()
    }

    open spec fn window_of(&self, i: int, c: SweepCell, x: int, y: int) -> (int, int, Seq<i32>) {
        choose|win: (int, int, Seq<i32>)| self.is_window(i, c.width as int, c.height as int, x, y, win)
    }

    open spec fn seats(&self, i: int, c: SweepCell, x: int, y: int) -> bool {
        self.site_ok(i, c.width as int, c.height as int, x, y)
    }

    open spec fn breaks(&self, i: int, c: SweepCell, x: int, y: int, b: Board) -> int {
        if !self.gaps_disallowed || gap_free(holds_cell(b), x, x + c.width, y, y + c.height) { 0 } else { 1 }
    }

    fn window(&self, i: usize, c: &SweepCell, x: i32, y: i32) -> (r: (i32, i32, Vec<i32>)) {
        let (w, h) = (c.width, c.height);
        let gw: i32 = self.grid.row_site_count as i32;
        let gh: i32 = self.grid.row_count as i32;
        let o: Options = self.opts;
        let extend: bool = !o.disable_window_extension;
        proof {
            assert(h * o.row_search_window >= 0) by (nonlinear_arith)
                requires h >= 0, o.row_search_window >= 0;
        }
        let cap: i32 = effective_row_cap(o.row_search_window, h, o.max_displacement_y, extend);
        let off_die = |p: i32| -> (b: bool)
            ensures
                b == (p < 0 || p >= gw),
            { p < 0 || p >= gw };
        let open_at = |p: i32| -> (b: bool)
            ensures
                b == (0 <= p < gw),
            { 0 <= p && p < gw };
        let has_sites = |p: i32| -> (b: bool)
            requires
                self.wf(),
            ensures
                b == self.row_open(p as int),
            { p >= 0 && (p as usize) < self.row_has.len() && self.row_has[p as usize] };
        let usable_in = |p: i32, lo: i32, hi: i32| -> (b: bool)
            requires
                self.wf(),
                i < self.sites@.len(),
                0 <= w,
                0 <= h,
            ensures
                b == self.hosts(i as int, w as int, h as int, p as int, lo as int, hi as int),
            { self.row_hosts(i, w, h, p, lo, hi) };
        let win = build_search_window(
            x, y, o.site_search_window, o.row_search_window, cap, o.max_displacement_x, o.max_displacement_y, extend,
            &off_die, &open_at, h, gh, &has_sites, &usable_in,
        );
        proof {
            let s = self.span(x as int);
            assert(agrees1(off_die, s.off_die));
            assert(agrees1(open_at, s.open_at));
            assert(s.gives(win.dx_lo as int, win.dx_hi as int));
            law_reach(s, win.dx_lo as int, win.dx_hi as int, win.dx_lo as int, win.dx_hi as int);
            let ui = |p: int, lo: int, hi: int| self.hosts(i as int, w as int, h as int, p, lo, hi);
            assert(agrees3(usable_in, ui));
            let k = self.walk(i as int, w as int, h as int, y as int, x + win.dx_lo, x + win.dx_hi);
            assert(agrees1(has_sites, k.has_sites));
            let us = |p: int| ui(p, x + win.dx_lo, x + win.dx_hi);
            assert(us =~= k.usable);
            assert(k.gives(win.rows@));
            let got = (win.dx_lo as int, win.dx_hi as int, win.rows@);
            assert(self.is_window(i as int, w as int, h as int, x as int, y as int, got));
            self.lemma_window_unique(i as int, w as int, h as int, x as int, y as int, got, self.window_of(i as int, *c, x as int, y as int));
        }
        (win.dx_lo, win.dx_hi, win.rows)
    }

    fn placeable(&self, i: usize, c: &SweepCell, x: i32, y: i32) -> (r: bool) {
        self.may_sit(i, c.width, c.height, x, y)
    }

    fn drc_violations(&self, i: usize, c: &SweepCell, x: i32, y: i32, grid: &NegGrid) -> (r: i32) {
        let occupied = |px: i32, py: i32| -> (o: Option<bool>)
            requires
                grid.wf(),
            ensures
                o == holds_cell(grid.board())(px, py),
            {
                if px < 0 || py < 0 || px as usize >= grid.width || py as usize >= grid.height {
                    None
                } else {
                    Some(grid.at(px as usize, py as usize).cell.is_some())
                }
            };
        let ok: bool = check_one_site_gap(self.gaps_disallowed, x, x + c.width, y, y + c.height, &occupied);
        proof {
            assert(agrees2(occupied, holds_cell(grid.board())));
        }
        if ok { 0 } else { 1 }
    }
}

} // verus!
