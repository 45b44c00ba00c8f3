//! Swaps of two cells, and the moves and swaps that hold to the rules.

use vstd::prelude::*;
use crate::arith::{div_trunc, trunc_quot};
use crate::land::{all_below, node_in, Land, Live, St};
use crate::moves::{aligned, cleared, find, find_in, first_at, lemma_found, spacing};
use crate::orient::Orient;
use crate::rows::{Row, COORD_LIMIT};
use crate::shift_dp::{fit_run, fitted, Fit};
use crate::tries::{space_hi, space_lo};

verus! {

/// The sites a cell of a run takes: its width and the padding to the next one, in whole sites.
pub open spec fn wide_in(s: St, cells: Seq<usize>, k: int, sp: int) -> i32 {
    let w = s.nodes[cells[k] as int].width + (if k + 1 < cells.len() { spacing(s, Some(cells[k]), Some(cells[k + 1])) } else { 0 });
    trunc_quot(w, sp) as i32
}

/// The first site of a row at or after `left`, by number.
pub open spec fn site_from(r: Row, left: int) -> int {
    let q = trunc_quot(left - r.left, r.site_spacing as int);
    if r.left + q * r.site_spacing < left { q + 1 } else { q }
}

/// The last site of a row that ends before `right`, by number.
pub open spec fn site_to(r: Row, right: int) -> int {
    let q = trunc_quot(right - r.left, r.site_spacing as int);
    if r.left + q * r.site_spacing + r.site_width >= right { q - 1 } else { q }
}

/// A run of cells to place between two ends of a row.
pub open spec fn run_of(s: St, cells: Seq<usize>, targets: Seq<i32>, left: int, right: int, r: Row) -> Fit {
    Fit {
        row: r,
        i0: site_from(r, left),
        i1: site_to(r, right),
        wide: Seq::new(cells.len(), |k: int| wide_in(s, cells, k, r.site_spacing as int)),
        target: targets,
    }
}

proof fn lemma_site_number(r: Row, x: int)
    requires
        r.ok(),
        -12 * COORD_LIMIT <= x <= 12 * COORD_LIMIT,
    ensures
        -14 * COORD_LIMIT <= trunc_quot(x - r.left, r.site_spacing as int) <= 14 * COORD_LIMIT,
        -13 * COORD_LIMIT <= r.left + trunc_quot(x - r.left, r.site_spacing as int) * r.site_spacing <= 13 * COORD_LIMIT,
{
    let d = x - r.left;
    let sp = r.site_spacing as int;
    let q = trunc_quot(d, sp);
    crate::segments::lemma_site_of(r, x);
    if d >= 0 {
        crate::arith::lemma_quot_bound(d, sp);
    } else {
        crate::arith::lemma_quot_bound(-d, sp);
    }
}

proof fn lemma_run_wf(s: St, cells: Seq<usize>, targets: Seq<i32>, left: int, right: int, r: Row)
    requires
        r.ok(),
        cells.len() == targets.len(),
        cells.len() <= COORD_LIMIT,
        -12 * COORD_LIMIT <= left <= 12 * COORD_LIMIT,
        -12 * COORD_LIMIT <= right <= 12 * COORD_LIMIT,
        forall|k: int| 0 <= k < cells.len() ==> 0 <= #[trigger] wide_in(s, cells, k, r.site_spacing as int) <= 4 * COORD_LIMIT,
    ensures
        run_of(s, cells, targets, left, right, r).wf(),
{
    let f = run_of(s, cells, targets, left, right, r);
    lemma_site_number(r, left);
    lemma_site_number(r, right);
    let sp = r.site_spacing as int;
    let (a, b) = (trunc_quot(left - r.left, sp), trunc_quot(right - r.left, sp));
    assert forall|i: int| 1 <= i <= f.sites() implies i32::MIN <= #[trigger] f.edge(i) <= i32::MAX by {
        let k = f.i0 + i - 1;
        assert(f.i0 <= k <= f.i1);
        assert(k * sp <= b * sp) by (nonlinear_arith)
            requires k <= b, sp > 0;
        assert(a * sp <= k * sp) by (nonlinear_arith)
            requires a <= k, sp > 0;
    }
    assert forall|k: int| 0 <= k < f.wide.len() implies 0 <= #[trigger] f.wide[k] <= 4 * COORD_LIMIT by {
        assert(f.wide[k] == wide_in(s, cells, k, sp));
    }
}

impl Live {
    /// Site-aligned left edges for an ordered run of single-height cells between two ends of a row,
    /// at the least summed distance from their targets.
    pub fn shift_dp(&self, l: &Land, cells: &Vec<usize>, targets: &Vec<i32>, left: i32, right: i32, row: usize) -> (r: Option<Vec<i32>>)
        requires
            l.wf(),
            l.ok(self@),
            row < l.arch.rows@.len(),
            cells@.len() == targets@.len(),
            cells@.len() <= COORD_LIMIT,
            all_below(cells@, l.count()),
            -12 * COORD_LIMIT <= left <= 12 * COORD_LIMIT,
            -12 * COORD_LIMIT <= right <= 12 * COORD_LIMIT,
        ensures
            r is Some <==> fitted(run_of(self@, cells@, targets@, left as int, right as int, l.arch.rows@[row as int])) is Some,
            r matches Some(v) ==> fitted(run_of(self@, cells@, targets@, left as int, right as int, l.arch.rows@[row as int])) == Some(v@)
                && v@.len() == cells@.len(),
    {
        let ghost s = self@;
        let rw: &Row = &l.arch.rows[row];
        assert(l.arch.rows@[row as int].ok());
        let sp: i64 = rw.site_spacing as i64;
        let origin: i64 = rw.left as i64;
        proof {
            lemma_site_number(*rw, left as int);
            lemma_site_number(*rw, right as int);
        }
        let mut i0: i64 = div_trunc(left as i64 - origin, sp);
        let mut i1: i64 = div_trunc(right as i64 - origin, sp);
        proof {
            let (a, b, c) = (i0 as int, i1 as int, sp as int);
            assert(-0x1_0000_0000 * 0x0800_0000 <= a * c <= 0x1_0000_0000 * 0x0800_0000) by (nonlinear_arith)
                requires -0x1_0000_0000 <= a <= 0x1_0000_0000, 0 < c <= 0x0800_0000;
            assert(-0x1_0000_0000 * 0x0800_0000 <= b * c <= 0x1_0000_0000 * 0x0800_0000) by (nonlinear_arith)
                requires -0x1_0000_0000 <= b <= 0x1_0000_0000, 0 < c <= 0x0800_0000;
        }
        if origin + i0 * sp < left as i64 {
            i0 = i0 + 1;
        }
        if origin + i1 * sp + rw.site_width as i64 >= right as i64 {
            i1 = i1 - 1;
        }
        let n: usize = cells.len();
        let mut wide: Vec<i32> = Vec::new();
        let mut k: usize = 0;
        while k < n
            invariant
                l.wf(),
                l.ok(self@),
                s == self@,
                rw.ok(),
                sp == rw.site_spacing,
                n == cells@.len(),
                all_below(cells@, l.count()),
                k <= n,
                wide@.len() == k,
                forall|j: int| 0 <= j < k ==> #[trigger] wide@[j] == wide_in(s, cells@, j, sp as int),
                forall|j: int| 0 <= j < k ==> 0 <= #[trigger] wide_in(s, cells@, j, sp as int) <= 4 * COORD_LIMIT,
            decreases n - k,
        {
            let c: usize = cells[k];
            assert(node_in(s.nodes[c as int]));
            let mut w: i32 = self.nodes[c].width;
            if n - k > 1 {
                w = w + self.cell_spacing(l, Some(c), Some(cells[k + 1]));
            }
            proof {
                crate::arith::lemma_quot_bound(w as int, sp as int);
            }
            wide.push(div_trunc(w as i64, sp) as i32);
            k = k + 1;
        }
        proof {
            let f = run_of(s, cells@, targets@, left as int, right as int, *rw);
            assert(wide@ =~= f.wide);
            lemma_run_wf(s, cells@, targets@, left as int, right as int, *rw);
        }
        fit_run(rw, i0, i1, &wide, targets)
    }
}

/// The cell behind a position of a list.
pub open spec fn after(list: Seq<usize>, ix: int) -> Option<usize> {
    if ix + 1 < list.len() { Some(list[ix + 1]) } else { None }
}

/// The cell before a position of a list.
pub open spec fn before(list: Seq<usize>, ix: int) -> Option<usize> {
    if 0 < ix <= list.len() { Some(list[ix - 1]) } else { None }
}

impl Land {
    /// The place that a cell gets where another one was, between the other's neighbours.
    pub open spec fn swap_place(&self, s: St, nd: usize, seg: usize, ix: int, x: i32) -> Option<int> {
        let list = s.cells[seg as int];
        let g = self.segments@[seg as int];
        let (p, q) = (before(list, ix), after(list, ix));
        let rx = space_hi(s, g, q) - spacing(s, Some(nd), q);
        let lx = space_lo(s, g, p) + spacing(s, p, Some(nd));
        let w = s.nodes[nd as int].width as int;
        if w > rx - lx { None } else { aligned(self.arch.rows@[0], w, x as int, lx, rx) }
    }

    /// The places of two neighbours in the other order: `a` at position `i` comes behind `b`, which is
    /// at position `j = i + 1`. First the place of `b`, then that of `a`.
    pub open spec fn turned_places(&self, s: St, a: usize, b: usize, seg: usize, i: int, xa: i32, xb: i32, row: Row) -> Option<(i32, i32)> {
        let list = s.cells[seg as int];
        let g = self.segments@[seg as int];
        let (p, q) = (before(list, i), after(list, i + 1));
        let rx = space_hi(s, g, q) - spacing(s, Some(a), q);
        let lx = space_lo(s, g, p) + spacing(s, p, Some(b));
        if s.nodes[b as int].width + s.nodes[a as int].width + spacing(s, Some(b), Some(a)) > rx - lx {
            None
        } else {
            match fitted(run_of(s, seq![b, a], seq![xb, xa], lx, rx, row)) {
                Some(v) => Some((v[0], v[1])),
                None => None,
            }
        }
    }

    /// The places of two cells that change places: that of `b`, then that of `a`.
    pub open spec fn swap_places(&self, s: St, a: usize, b: usize, si: usize, sj: usize, i: int, j: int, xi: i32, xj: i32) -> Option<(i32, i32)> {
        let row = self.arch.rows@[self.segments@[si as int].row as int];
        if si == sj && i + 1 == j {
            self.turned_places(s, a, b, si, i, xj, xi, row)
        } else if si == sj && j + 1 == i {
            match self.turned_places(s, b, a, si, j, xi, xj, row) {
                Some(v) => Some((v.1, v.0)),
                None => None,
            }
        } else {
            match (self.swap_place(s, b, si, i, xi), self.swap_place(s, a, sj, j, xj)) {
                (Some(x), Some(y)) => Some((x as i32, y as i32)),
                _ => None,
            }
        }
    }

    /// A cell swapped with the cell at a place of a segment.
    pub open spec fn swapped_with(&self, s0: St, a: usize, xi: i32, si: usize, xj: i32, sj: usize) -> (bool, St) {
        let s = cleared(s0);
        let list = s.cells[sj as int];
        let it = first_at(s.nodes, list, xj as int, 0);
        let b = if it == list.len() { list.last() } else { list[it] };
        let i = find(s.cells[si as int], a, 0);
        let j = find(list, b, 0);
        if list.len() == 0 || b == a || !self.row_takes(self.sym@[b as int].0, self.segments@[si as int].row as int)
            || self.tall(s, a) != 1 || self.tall(s, b) != 1 || i >= s.cells[si as int].len() {
            (false, s)
        } else {
            match self.swap_places(s, a, b, si, sj, i, j, xi, xj) {
                None => (false, s),
                Some(v) => {
                    let (p1, p2) = ((s.nodes[a as int].left, s.nodes[a as int].bottom), (s.nodes[b as int].left, s.nodes[b as int].bottom));
                    let m = self.moved(s, a, p1, seq![si], (v.1, p2.1), seq![sj], true);
                    if !m.0 {
                        m
                    } else {
                        let k = self.moved(m.1, b, p2, seq![sj], (v.0, p1.1), seq![si], true);
                        if k.0 { k } else { (false, self.settled(m.1, b as int)) }
                    }
                },
            }
        }
    }

    /// A move that is held to the rules.
    pub open spec fn tried_move(&self, s: St, nd: usize, si: usize, xj: i32, sj: usize) -> (bool, St) {
        if !self.row_takes(self.sym@[nd as int].0, self.segments@[sj as int].row as int) {
            (false, self.rejected(s))
        } else {
            let m = if self.tall(s, nd) != 1 {
                self.across_rows(s, nd, xj, sj)
            } else if si != sj {
                self.into_segment(s, nd, si, xj, sj)
            } else {
                self.within_segment(s, nd, si, xj, sj)
            };
            if m.0 { self.verified(m.1) } else { (false, self.rejected(m.1)) }
        }
    }

    /// A swap that is held to the rules.
    pub open spec fn tried_swap(&self, s: St, nd: usize, xi: i32, si: usize, xj: i32, sj: usize) -> (bool, St) {
        if !self.row_takes(self.sym@[nd as int].0, self.segments@[sj as int].row as int) {
            (false, self.rejected(s))
        } else {
            let m = self.swapped_with(s, nd, xi, si, xj, sj);
            if m.0 { self.verified(m.1) } else { (false, self.rejected(m.1)) }
        }
    }

    /// Whether a master's symmetry lets its cell stand in a row.
    pub fn master_symmetry_ok(&self, sym_x: bool, row: usize) -> (r: bool)
        requires
            row < self.arch.rows@.len(),
        ensures
            r == self.row_takes(sym_x, row as int),
    {
        match self.arch.rows[row].orient {
            Orient::R0 | Orient::MY => true,
            Orient::MX | Orient::R180 => sym_x,
            _ => false,
        }
    }
}

impl Live {
    fn after_in(&self, l: &Land, seg: usize, ix: usize) -> (r: Option<usize>)
        requires
            l.wf(),
            l.ok(self@),
            seg < l.segments@.len(),
            ix < self@.cells[seg as int].len(),
        ensures
            r == after(self@.cells[seg as int], ix as int),
            r matches Some(i) ==> i < l.count(),
    {
        assert(self@.cells[seg as int] == self.cells_in_seg@[seg as int]@);
        assert(all_below(self@.cells[seg as int], l.count()));
        if self.cells_in_seg[seg].len() - ix > 1 { Some(self.cells_in_seg[seg][ix + 1]) } else { None }
    }

    fn before_in(&self, l: &Land, seg: usize, ix: usize) -> (r: Option<usize>)
        requires
            l.wf(),
            l.ok(self@),
            seg < l.segments@.len(),
            ix < self@.cells[seg as int].len(),
        ensures
            r == before(self@.cells[seg as int], ix as int),
            r matches Some(i) ==> i < l.count(),
    {
        assert(self@.cells[seg as int] == self.cells_in_seg@[seg as int]@);
        assert(all_below(self@.cells[seg as int], l.count()));
        if ix > 0 { Some(self.cells_in_seg[seg][ix - 1]) } else { None }
    }

    fn swap_spot(&self, l: &Land, nd: usize, seg: usize, ix: usize, x: i32) -> (r: Option<i32>)
        requires
            l.wf(),
            l.ok(self@),
            nd < l.count(),
            seg < l.segments@.len(),
            ix < self@.cells[seg as int].len(),
        ensures
            r is Some <==> l.swap_place(self@, nd, seg, ix as int, x) is Some,
            r matches Some(v) ==> l.swap_place(self@, nd, seg, ix as int, x) == Some(v as int),
    {
        let q = self.after_in(l, seg, ix);
        let p = self.before_in(l, seg, ix);
        let rx: i32 = self.hi_of(l, seg, q) - self.cell_spacing(l, Some(nd), q);
        let lx: i32 = self.lo_of(l, seg, p) + self.cell_spacing(l, p, Some(nd));
        if self.nodes[nd].width as i64 > rx as i64 - lx as i64 {
            return None;
        }
        self.align_pos(l, nd, x, lx, rx)
    }

    fn turned_spots(&self, l: &Land, a: usize, b: usize, seg: usize, i: usize, xa: i32, xb: i32) -> (r: Option<(i32, i32)>)
        requires
            l.wf(),
            l.ok(self@),
            a < l.count(),
            b < l.count(),
            seg < l.segments@.len(),
            i + 1 < self@.cells[seg as int].len(),
        ensures
            r == l.turned_places(self@, a, b, seg, i as int, xa, xb, l.arch.rows@[l.segments@[seg as int].row as int]),
    {
        let ghost s = self@;
        assert(s.cells[seg as int] == self.cells_in_seg@[seg as int]@);
        let count: usize = self.cells_in_seg[seg].len();
        let q = self.after_in(l, seg, i + 1);
        let p = self.before_in(l, seg, i);
        assert(node_in(s.nodes[a as int]) && node_in(s.nodes[b as int]));
        let rx: i32 = self.hi_of(l, seg, q) - self.cell_spacing(l, Some(a), q);
        let lx: i32 = self.lo_of(l, seg, p) + self.cell_spacing(l, p, Some(b));
        let need: i64 = self.nodes[b].width as i64 + self.nodes[a].width as i64 + self.cell_spacing(l, Some(b), Some(a)) as i64;
        if need > rx as i64 - lx as i64 {
            return None;
        }
        let mut cells: Vec<usize> = Vec::new();
        cells.push(b);
        cells.push(a);
        let mut targets: Vec<i32> = Vec::new();
        targets.push(xb);
        targets.push(xa);
        assert(cells@ =~= seq![b, a]);
        assert(targets@ =~= seq![xb, xa]);
        match self.shift_dp(l, &cells, &targets, lx, rx, l.segments[seg].row) {
            Some(v) => Some((v[0], v[1])),
            None => None,
        }
    }

    fn swap_spots(&self, l: &Land, a: usize, b: usize, si: usize, sj: usize, i: usize, j: usize, xi: i32, xj: i32) -> (r: Option<(i32, i32)>)
        requires
            l.wf(),
            l.ok(self@),
            a < l.count(),
            b < l.count(),
            si < l.segments@.len(),
            sj < l.segments@.len(),
            i < self@.cells[si as int].len(),
            j < self@.cells[sj as int].len(),
        ensures
            r == l.swap_places(self@, a, b, si, sj, i as int, j as int, xi, xj),
    {
        if si == sj && i < j && j - i == 1 {
            return self.turned_spots(l, a, b, si, i, xj, xi);
        }
        if si == sj && j < i && i - j == 1 {
            return match self.turned_spots(l, b, a, si, j, xi, xj) {
                Some(v) => Some((v.1, v.0)),
                None => None,
            };
        }
        match self.swap_spot(l, b, si, i, xi) {
            Some(x) => match self.swap_spot(l, a, sj, j, xj) {
                Some(y) => Some((x, y)),
                None => None,
            },
            None => None,
        }
    }

    /// Swap a cell with the cell at `xj` in segment `sj`. Neighbours are placed together anew.
    pub fn try_swap1(&mut self, l: &Land, a: usize, xi: i32, si: usize, xj: i32, sj: usize) -> (r: bool)
        requires
            l.wf(),
            l.ok(old(self)@),
            a < l.count(),
            si < l.segments@.len(),
            sj < l.segments@.len(),
        ensures
            l.ok(final(self)@),
            (r, final(self)@) == l.swapped_with(old(self)@, a, xi, si, xj, sj),
    {
        self.clear_move_list(l);
        let ghost s = self@;
        assert(s.cells[sj as int] == self.cells_in_seg@[sj as int]@);
        assert(s.cells[si as int] == self.cells_in_seg@[si as int]@);
        assert(all_below(s.cells[sj as int], l.count()));
        let count: usize = self.cells_in_seg[sj].len();
        if count == 0 {
            return false;
        }
        let it: usize = self.lower_bound_x(l, sj, xj);
        let b: usize = if it == count { self.cells_in_seg[sj][it - 1] } else { self.cells_in_seg[sj][it] };
        if b == a {
            return false;
        }
        if !l.master_symmetry_ok(l.sym[b].0, l.segments[si].row) {
            return false;
        }
        if !self.is_one_high(l, a) || !self.is_one_high(l, b) {
            return false;
        }
        let i: usize = find_in(&self.cells_in_seg[si], a);
        if i >= self.cells_in_seg[si].len() {
            return false;
        }
        let j: usize = find_in(&self.cells_in_seg[sj], b);
        proof {
            lemma_found(s.cells[sj as int], b, if it == count { count - 1 } else { it as int });
        }
        let (x, y) = match self.swap_spots(l, a, b, si, sj, i, j, xi, xj) {
            Some(v) => v,
            None => return false,
        };
        assert(node_in(s.nodes[a as int]) && node_in(s.nodes[b as int]));
        let p1 = (self.nodes[a].left, self.nodes[a].bottom);
        let p2 = (self.nodes[b].left, self.nodes[b].bottom);
        if !self.add_move(l, a, p1, si, (y, p2.1), sj) {
            return false;
        }
        if !self.add_move(l, b, p2, sj, (x, p1.1), si) {
            self.paint_in_grid(l, b);
            return false;
        }
        true
    }

    /// Move a cell toward `xj` in segment `sj`, held to the rules: where it cannot move there or a
    /// touched cell would break a rule, everything is undone.
    pub fn try_move(&mut self, l: &Land, nd: usize, si: usize, xj: i32, sj: usize) -> (r: bool)
        requires
            l.wf(),
            l.ok(old(self)@),
            nd < l.count(),
            si < l.segments@.len(),
            sj < l.segments@.len(),
        ensures
            l.ok(final(self)@),
            (r, final(self)@) == l.tried_move(old(self)@, nd, si, xj, sj),
    {
        if !l.master_symmetry_ok(l.sym[nd].0, l.segments[sj].row) {
            self.reject_move(l);
            return false;
        }
        let ok: bool = if self.is_one_high(l, nd) {
            if si != sj { self.try_move1(l, nd, si, xj, sj) } else { self.try_move2(l, nd, si, xj, sj) }
        } else {
            self.try_move3(l, nd, xj, sj)
        };
        if ok {
            return self.verify_move(l);
        }
        self.reject_move(l);
        false
    }

    /// Swap a cell with the cell at `xj` in segment `sj`, held to the rules.
    pub fn try_swap(&mut self, l: &Land, nd: usize, xi: i32, si: usize, xj: i32, sj: usize) -> (r: bool)
        requires
            l.wf(),
            l.ok(old(self)@),
            nd < l.count(),
            si < l.segments@.len(),
            sj < l.segments@.len(),
        ensures
            l.ok(final(self)@),
            (r, final(self)@) == l.tried_swap(old(self)@, nd, xi, si, xj, sj),
    {
        if !l.master_symmetry_ok(l.sym[nd].0, l.segments[sj].row) {
            self.reject_move(l);
            return false;
        }
        if self.try_swap1(l, nd, xi, si, xj, sj) {
            return self.verify_move(l);
        }
        self.reject_move(l);
        false
    }
}

/// A move or swap that holds breaks no rule: no node it touched violates one.
pub proof fn law_held_moves_break_no_rule(l: Land, s: St, nd: usize, xi: i32, si: usize, xj: i32, sj: usize)
    ensures
        ({
            let m = l.tried_move(s, nd, si, xj, sj);
            m.0 ==> forall|k: int| 0 <= k < m.1.touched.len() ==> !#[trigger] l.violates(m.1, m.1.touched[k] as int)
        }),
        ({
            let m = l.tried_swap(s, nd, xi, si, xj, sj);
            m.0 ==> forall|k: int| 0 <= k < m.1.touched.len() ==> !#[trigger] l.violates(m.1, m.1.touched[k] as int)
        }),
{
}

} // verus!
