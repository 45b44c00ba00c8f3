//! Attempts to move a cell to a target or to swap it with the cell there.

use vstd::prelude::*;
use crate::arith::{div_trunc, imax, imin, trunc_quot};
use crate::improve::Node;
use crate::land::{all_below, node_in, reachable, seg_end, Land, Live, St};
use crate::moves::{aligned, center, cleared, copy_list, find, find_in, first_at, lemma_first_at, spacing};
use crate::orient::Orient;
use crate::rows::{Row, COORD_LIMIT};
use crate::segments::{lists, Segment};

verus! {

// ── the neighbours of a place ────────────────────────────────────────────────────────────────

/// The cell left of a place in a list, and the cell at or right of it.
pub open spec fn beside(nodes: Seq<Node>, list: Seq<usize>, x: int) -> (Option<usize>, Option<usize>) {
    let it = first_at(nodes, list, x, 0);
    (if it > 0 { Some(list[it - 1]) } else { None }, if it < list.len() { Some(list[it]) } else { None })
}

/// The right edge of a node.
pub open spec fn right(n: Node) -> int {
    n.left + n.width
}

/// Where the space right of a cell begins, or of a segment.
pub open spec fn space_lo(s: St, g: Segment, p: Option<usize>) -> int {
    match p {
        Some(i) => right(s.nodes[i as int]),
        None => g.min_x as int,
    }
}

/// Where the space left of a cell ends, or of a segment.
pub open spec fn space_hi(s: St, g: Segment, q: Option<usize>) -> int {
    match q {
        Some(i) => s.nodes[i as int].left as int,
        None => g.max_x as int,
    }
}

/// The site position that a place right of it is pushed to.
pub open spec fn pushed_right(row: Row, x: i32) -> i32 {
    let site = (x - trunc_quot(row.left as int, row.site_spacing as int)) as i32;
    let at = row.left.wrapping_add(site.wrapping_mul(row.site_spacing));
    let next = if x > at { at.wrapping_add(row.site_spacing) } else { at };
    if x < next { next } else { x }
}

/// The site position that a place left of it is pushed to.
pub open spec fn pushed_left(row: Row, x: i32) -> i32 {
    let site = (x - trunc_quot(row.left as int, row.site_spacing as int)) as i32;
    let at = row.left.wrapping_add(site.wrapping_mul(row.site_spacing));
    if x > at { at } else { x }
}

impl Land {
    /// The row of a segment.
    pub open spec fn seg_row(&self, seg: usize) -> Row {
        self.arch.rows@[self.segments@[seg as int].row as int]
    }

    /// Whether a master's symmetry lets its cell stand in a row.
    pub open spec fn row_takes(&self, sym_x: bool, row: int) -> bool {
        match self.arch.rows@[row].orient {
            Orient::R0 | Orient::MY => true,
            Orient::MX | Orient::R180 => sym_x,
            _ => false,
        }
    }

    /// A node's height in rows.
    pub open spec fn tall(&self, s: St, nd: usize) -> int {
        self.arch.rows_high(s.nodes[nd as int].height as int)
    }

    /// The cells from position `ix` on pushed to the right, as far as cell `a` at `x` reaches them,
    /// and whether all could be.
    pub open spec fn push_right(&self, s: St, seg: usize, a: usize, b: usize, x: i32, ix: int, n: int) -> (bool, St)
        decreases n - ix,
    {
        let gap = spacing(s, Some(a), Some(b));
        let far = x + s.nodes[a as int].width + gap;
        if !(s.nodes[b as int].left < far) {
            (true, s)
        } else if self.tall(s, b) != 1 {
            (false, s)
        } else {
            let to = pushed_right(self.seg_row(seg), far as i32);
            let cur = (s.nodes[b as int].left, s.nodes[b as int].bottom);
            let m = self.moved(s, b, cur, seq![seg], (to, cur.1), seq![seg], true);
            if !m.0 {
                m
            } else if to + m.1.nodes[b as int].width + spacing(m.1, Some(b), None) > self.segments@[seg as int].max_x {
                (false, m.1)
            } else if ix >= n || ix + 1 >= m.1.cells[seg as int].len() {
                (true, m.1)
            } else {
                self.push_right(m.1, seg, b, m.1.cells[seg as int][ix + 1], to, ix + 1, n)
            }
        }
    }

    /// The cells from position `ix` down pushed to the left, as far as cell `a` at `x` reaches them,
    /// and whether all could be.
    pub open spec fn push_left(&self, s: St, seg: usize, a: usize, b: usize, x: i32, ix: int) -> (bool, St)
        decreases ix,
    {
        let gap = spacing(s, Some(b), Some(a));
        if !(right(s.nodes[b as int]) + gap > x) {
            (true, s)
        } else if self.tall(s, b) != 1 {
            (false, s)
        } else {
            let to = pushed_left(self.seg_row(seg), (x - gap - s.nodes[b as int].width) as i32);
            let cur = (s.nodes[b as int].left, s.nodes[b as int].bottom);
            let m = self.moved(s, b, cur, seq![seg], (to, cur.1), seq![seg], true);
            if !m.0 {
                m
            } else if to - spacing(m.1, None, Some(b)) < self.segments@[seg as int].min_x {
                (false, m.1)
            } else if ix <= 0 || ix - 1 >= m.1.cells[seg as int].len() {
                (true, m.1)
            } else {
                self.push_left(m.1, seg, b, m.1.cells[seg as int][ix - 1], to, ix - 1)
            }
        }
    }

    /// The cells right of cell `a` at `x` pushed aside, from cell `b` on.
    pub open spec fn shifted_right(&self, s: St, a: usize, x: i32, seg: usize, b: usize) -> (bool, St) {
        let list = s.cells[seg as int];
        let ix = find(list, b, 0);
        if ix >= list.len() { (false, s) } else { self.push_right(s, seg, a, b, x, ix, list.len() - 1) }
    }

    /// The cells left of cell `a` at `x` pushed aside, from cell `b` on.
    pub open spec fn shifted_left(&self, s: St, a: usize, x: i32, seg: usize, b: usize) -> (bool, St) {
        let list = s.cells[seg as int];
        let ix = find(list, b, 0);
        if ix >= list.len() { (false, s) } else { self.push_left(s, seg, a, b, x, ix) }
    }

    /// A cell moved into another segment, its neighbours there pushed aside.
    pub open spec fn into_segment(&self, s0: St, nd: usize, si: usize, xj: i32, sj: usize) -> (bool, St) {
        let s = cleared(s0);
        let g = self.segments@[sj as int];
        let n = s.nodes[nd as int];
        if sj == si || n.group != g.reg || self.tall(s, nd) != 1 {
            (false, s)
        } else {
            let (p, q) = beside(s.nodes, s.cells[sj as int], xj as int);
            let lx = space_lo(s, g, p) + spacing(s, p, Some(nd));
            let rx = space_hi(s, g, q) - spacing(s, Some(nd), q);
            let need = n.width + spacing(s, p, Some(nd)) + spacing(s, Some(nd), q)
                - (if p is Some && q is Some { spacing(s, p, q) } else { 0 });
            let at = aligned(self.arch.rows@[0], n.width as int, xj as int, lx, rx);
            if need + s.util[sj as int] > g.max_x - g.min_x || at is None {
                (false, s)
            } else {
                let x = at->Some_0 as i32;
                let m = self.moved(s, nd, (n.left, n.bottom), seq![si], (x, self.seg_row(sj).bottom), seq![sj], true);
                if !m.0 {
                    m
                } else {
                    let r = match q {
                        Some(b) => self.shifted_right(m.1, nd, x, sj, b),
                        None => m,
                    };
                    if !r.0 {
                        r
                    } else {
                        match p {
                            Some(b) => self.shifted_left(r.1, nd, x, sj, b),
                            None => r,
                        }
                    }
                }
            }
        }
    }

    /// A cell moved within its segment into the space left or right of the cell at a place.
    pub open spec fn within_segment(&self, s0: St, nd: usize, si: usize, xj: i32, sj: usize) -> (bool, St) {
        let s = cleared(s0);
        let g = self.segments@[sj as int];
        let n = s.nodes[nd as int];
        let list = s.cells[sj as int];
        if sj != si || n.group != g.reg || self.tall(s, nd) != 1 || list.len() == 0 {
            (false, s)
        } else {
            let it = first_at(s.nodes, list, xj as int, 0);
            let ix = if it == list.len() { it - 1 } else { it };
            let b = list[ix];
            let p = if ix == 0 { None } else { Some(list[ix - 1]) };
            let q = if ix == list.len() - 1 { None } else { Some(list[ix + 1]) };
            let lx = space_lo(s, g, p) + spacing(s, p, Some(nd));
            let rx = s.nodes[b as int].left - spacing(s, Some(nd), Some(b));
            let lx2 = right(s.nodes[b as int]) + spacing(s, Some(b), Some(nd));
            let rx2 = space_hi(s, g, q) - spacing(s, Some(nd), q);
            let at = if n.width <= rx - lx {
                aligned(self.arch.rows@[0], n.width as int, xj as int, lx, rx)
            } else if n.width <= rx2 - lx2 {
                aligned(self.arch.rows@[0], n.width as int, xj as int, lx2, rx2)
            } else {
                None
            };
            match at {
                None => (false, s),
                Some(x) => self.moved(s, nd, (n.left, n.bottom), seq![si], (x as i32, self.seg_row(sj).bottom), seq![sj], true),
            }
        }
    }
}

// ── pushing neighbours aside ─────────────────────────────────────────────────────────────────

fn wrapped_site(row: &Row, x: i32) -> (r: i32)
    requires
        row.ok(),
        -12 * COORD_LIMIT <= x <= 12 * COORD_LIMIT,
    ensures
        r == row.left.wrapping_add(((x - trunc_quot(row.left as int, row.site_spacing as int)) as i32).wrapping_mul(row.site_spacing)),
{
    let q: i64 = div_trunc(row.left as i64, row.site_spacing as i64);
    proof {
        let (a, b) = (row.left as int, row.site_spacing as int);
        if a >= 0 {
            crate::arith::lemma_quot_bound(a, b);
        } else {
            crate::arith::lemma_quot_bound(-a, b);
        }
    }
    let site: i32 = (x as i64 - q) as i32;
    row.left.wrapping_add(site.wrapping_mul(row.site_spacing))
}

impl Live {
    /// A node's height in rows is one.
    pub fn is_one_high(&self, l: &Land, nd: usize) -> (r: bool)
        requires
            l.wf(),
            l.ok(self@),
            nd < l.count(),
        ensures
            r == (l.tall(self@, nd) == 1),
    {
        assert(node_in(self@.nodes[nd as int]));
        assert(l.arch.rows@[0].ok());
        l.arch.height_in_rows(self.nodes[nd].height) == 1
    }

    /// Push the cells right of cell `a` at `x` aside, from cell `b` on. `false` where one cannot move.
    pub fn shift_right_helper(&mut self, l: &Land, a: usize, x: i32, seg: usize, b: usize) -> (r: bool)
        requires
            l.wf(),
            l.ok(old(self)@),
            a < l.count(),
            b < l.count(),
            seg < l.segments@.len(),
            reachable(x as int),
        ensures
            l.ok(final(self)@),
            (r, final(self)@) == l.shifted_right(old(self)@, a, x, seg, b),
    {
        let ghost s0 = self@;
        assert(s0.cells[seg as int] == self.cells_in_seg@[seg as int]@);
        let mut ix: usize = find_in(&self.cells_in_seg[seg], b);
        if ix >= self.cells_in_seg[seg].len() {
            return false;
        }
        let n: usize = self.cells_in_seg[seg].len() - 1;
        let row: &Row = &l.arch.rows[l.segments[seg].row];
        assert(l.arch.rows@[l.segments@[seg as int].row as int].ok());
        let mut p: usize = a;
        let mut q: usize = b;
        let mut at: i32 = x;
        loop
            invariant
                l.wf(),
                l.ok(self@),
                p < l.count(),
                q < l.count(),
                seg < l.segments@.len(),
                reachable(at as int),
                *row == l.seg_row(seg),
                row.ok(),
                ix <= n,
                l.shifted_right(old(self)@, a, x, seg, b) == l.push_right(self@, seg, p, q, at, ix as int, n as int),
            decreases n - ix,
        {
            let ghost s = self@;
            assert(node_in(s.nodes[p as int]) && node_in(s.nodes[q as int]));
            let far: i32 = at + self.nodes[p].width + self.cell_spacing(l, Some(p), Some(q));
            if !(self.nodes[q].left < far) {
                return true;
            }
            if !self.is_one_high(l, q) {
                return false;
            }
            let site: i32 = wrapped_site(row, far);
            let next: i32 = if far > site { site.wrapping_add(row.site_spacing) } else { site };
            let to: i32 = if far < next { next } else { far };
            assert(to == pushed_right(*row, far));
            let cur = (self.nodes[q].left, self.nodes[q].bottom);
            if !self.add_move(l, q, cur, seg, (to, cur.1), seg) {
                return false;
            }
            assert(node_in(self@.nodes[q as int]));
            if to + self.nodes[q].width + self.cell_spacing(l, Some(q), None) > l.segments[seg].max_x {
                return false;
            }
            assert(self@.cells[seg as int] == self.cells_in_seg@[seg as int]@);
            if ix >= n || ix + 1 >= self.cells_in_seg[seg].len() {
                return true;
            }
            p = q;
            ix = ix + 1;
            assert(all_below(self@.cells[seg as int], l.count()));
            q = self.cells_in_seg[seg][ix];
            at = to;
        }
    }

    /// Push the cells left of cell `a` at `x` aside, from cell `b` on. `false` where one cannot move.
    pub fn shift_left_helper(&mut self, l: &Land, a: usize, x: i32, seg: usize, b: usize) -> (r: bool)
        requires
            l.wf(),
            l.ok(old(self)@),
            a < l.count(),
            b < l.count(),
            seg < l.segments@.len(),
            reachable(x as int),
        ensures
            l.ok(final(self)@),
            (r, final(self)@) == l.shifted_left(old(self)@, a, x, seg, b),
    {
        let ghost s0 = self@;
        assert(s0.cells[seg as int] == self.cells_in_seg@[seg as int]@);
        let mut ix: usize = find_in(&self.cells_in_seg[seg], b);
        if ix >= self.cells_in_seg[seg].len() {
            return false;
        }
        let row: &Row = &l.arch.rows[l.segments[seg].row];
        assert(l.arch.rows@[l.segments@[seg as int].row as int].ok());
        let mut p: usize = a;
        let mut q: usize = b;
        let mut at: i32 = x;
        loop
            invariant
                l.wf(),
                l.ok(self@),
                p < l.count(),
                q < l.count(),
                seg < l.segments@.len(),
                reachable(at as int),
                *row == l.seg_row(seg),
                row.ok(),
                l.shifted_left(old(self)@, a, x, seg, b) == l.push_left(self@, seg, p, q, at, ix as int),
            decreases ix,
        {
            let ghost s = self@;
            assert(node_in(s.nodes[p as int]) && node_in(s.nodes[q as int]));
            let gap: i32 = self.cell_spacing(l, Some(q), Some(p));
            if !(self.right_of(l, q) + gap > at) {
                return true;
            }
            if !self.is_one_high(l, q) {
                return false;
            }
            let near: i32 = at - gap - self.nodes[q].width;
            let site: i32 = wrapped_site(row, near);
            let to: i32 = if near > site { site } else { near };
            assert(to == pushed_left(*row, near));
            let cur = (self.nodes[q].left, self.nodes[q].bottom);
            if !self.add_move(l, q, cur, seg, (to, cur.1), seg) {
                return false;
            }
            if to - self.cell_spacing(l, None, Some(q)) < l.segments[seg].min_x {
                return false;
            }
            assert(self@.cells[seg as int] == self.cells_in_seg@[seg as int]@);
            if ix == 0 || ix - 1 >= self.cells_in_seg[seg].len() {
                return true;
            }
            p = q;
            ix = ix - 1;
            assert(all_below(self@.cells[seg as int], l.count()));
            q = self.cells_in_seg[seg][ix];
            at = to;
        }
    }

    /// The cell left of a place in a segment, and the cell at or right of it.
    fn beside_in(&self, l: &Land, seg: usize, x: i32) -> (r: (Option<usize>, Option<usize>))
        requires
            l.wf(),
            l.ok(self@),
            seg < l.segments@.len(),
        ensures
            r == beside(self@.nodes, self@.cells[seg as int], x as int),
            r.0 matches Some(i) ==> i < l.count(),
            r.1 matches Some(i) ==> i < l.count(),
    {
        let it: usize = self.lower_bound_x(l, seg, x);
        assert(self@.cells[seg as int] == self.cells_in_seg@[seg as int]@);
        assert(all_below(self@.cells[seg as int], l.count()));
        let list = &self.cells_in_seg[seg];
        (if it > 0 { Some(list[it - 1]) } else { None }, if it < list.len() { Some(list[it]) } else { None })
    }

    /// Where the space right of a cell begins, or of a segment.
    pub fn lo_of(&self, l: &Land, seg: usize, p: Option<usize>) -> (r: i32)
        requires
            l.wf(),
            l.ok(self@),
            seg < l.segments@.len(),
            p matches Some(i) ==> i < l.count(),
        ensures
            r == space_lo(self@, l.segments@[seg as int], p),
            -7 * COORD_LIMIT <= r <= 7 * COORD_LIMIT,
    {
        assert(seg_end(l.segments@[seg as int].min_x as int));
        match p {
            Some(i) => self.right_of(l, i),
            None => l.segments[seg].min_x,
        }
    }

    /// Where the space left of a cell ends, or of a segment.
    pub fn hi_of(&self, l: &Land, seg: usize, q: Option<usize>) -> (r: i32)
        requires
            l.wf(),
            l.ok(self@),
            seg < l.segments@.len(),
            q matches Some(i) ==> i < l.count(),
        ensures
            r == space_hi(self@, l.segments@[seg as int], q),
            -6 * COORD_LIMIT <= r <= 6 * COORD_LIMIT,
    {
        assert(seg_end(l.segments@[seg as int].max_x as int));
        match q {
            Some(i) => {
                assert(node_in(self@.nodes[i as int]));
                self.nodes[i].left
            },
            None => l.segments[seg].max_x,
        }
    }

    /// Move a single-height cell into another segment, pushing the cells there aside.
    pub fn try_move1(&mut self, l: &Land, nd: usize, si: usize, xj: i32, sj: usize) -> (r: bool)
        requires
            l.wf(),
            l.ok(old(self)@),
            nd < l.count(),
            si < l.segments@.len(),
            sj < l.segments@.len(),
        ensures
            l.ok(final(self)@),
            (r, final(self)@) == l.into_segment(old(self)@, nd, si, xj, sj),
    {
        self.clear_move_list(l);
        let ghost s = self@;
        let g: &Segment = &l.segments[sj];
        if sj == si || self.nodes[nd].group != g.reg || !self.is_one_high(l, nd) {
            return false;
        }
        assert(node_in(s.nodes[nd as int]));
        assert(seg_end(g.min_x as int) && seg_end(g.max_x as int));
        let (p, q) = self.beside_in(l, sj, xj);
        let sl: i32 = self.cell_spacing(l, p, Some(nd));
        let sr: i32 = self.cell_spacing(l, Some(nd), q);
        let both: i32 = if p.is_some() && q.is_some() { self.cell_spacing(l, p, q) } else { 0 };
        let w: i32 = self.nodes[nd].width;
        let lx: i32 = self.lo_of(l, sj, p) + sl;
        let rx: i32 = self.hi_of(l, sj, q) - sr;
        let need: i64 = w as i64 + sl as i64 + sr as i64 - both as i64;
        if need as i128 + self.seg_util[sj] as i128 > g.max_x as i128 - g.min_x as i128 {
            return false;
        }
        let x: i32 = match self.align_pos(l, nd, xj, lx, rx) {
            Some(x) => x,
            None => return false,
        };
        let y: i32 = l.arch.rows[g.row].bottom;
        let cur = (self.nodes[nd].left, self.nodes[nd].bottom);
        if !self.add_move(l, nd, cur, si, (x, y), sj) {
            return false;
        }
        if let Some(b) = q {
            if !self.shift_right_helper(l, nd, x, sj, b) {
                return false;
            }
        }
        if let Some(b) = p {
            return self.shift_left_helper(l, nd, x, sj, b);
        }
        true
    }

    /// Move a single-height cell within its segment, into the space left or right of the cell at `xj`.
    pub fn try_move2(&mut self, l: &Land, nd: usize, si: usize, xj: i32, sj: usize) -> (r: bool)
        requires
            l.wf(),
            l.ok(old(self)@),
            nd < l.count(),
            si < l.segments@.len(),
            sj < l.segments@.len(),
        ensures
            l.ok(final(self)@),
            (r, final(self)@) == l.within_segment(old(self)@, nd, si, xj, sj),
    {
        self.clear_move_list(l);
        let ghost s = self@;
        let g: &Segment = &l.segments[sj];
        assert(s.cells[sj as int] == self.cells_in_seg@[sj as int]@);
        assert(all_below(s.cells[sj as int], l.count()));
        let count: usize = self.cells_in_seg[sj].len();
        if sj != si || self.nodes[nd].group != g.reg || !self.is_one_high(l, nd) || count == 0 {
            return false;
        }
        assert(node_in(s.nodes[nd as int]));
        let it: usize = self.lower_bound_x(l, sj, xj);
        let ix: usize = if it == count { it - 1 } else { it };
        let b: usize = self.cells_in_seg[sj][ix];
        let p: Option<usize> = if ix == 0 { None } else { Some(self.cells_in_seg[sj][ix - 1]) };
        let q: Option<usize> = if ix == count - 1 { None } else { Some(self.cells_in_seg[sj][ix + 1]) };
        let w: i32 = self.nodes[nd].width;
        assert(node_in(s.nodes[b as int]));
        let lx: i32 = self.lo_of(l, sj, p) + self.cell_spacing(l, p, Some(nd));
        let rx: i32 = self.nodes[b].left - self.cell_spacing(l, Some(nd), Some(b));
        let at: Option<i32> = if w as i64 <= rx as i64 - lx as i64 {
            self.align_pos(l, nd, xj, lx, rx)
        } else {
            let lx2: i32 = self.right_of(l, b) + self.cell_spacing(l, Some(b), Some(nd));
            let rx2: i32 = self.hi_of(l, sj, q) - self.cell_spacing(l, Some(nd), q);
            if w as i64 <= rx2 as i64 - lx2 as i64 { self.align_pos(l, nd, xj, lx2, rx2) } else { None }
        };
        let cur = (self.nodes[nd].left, self.nodes[nd].bottom);
        let y: i32 = l.arch.rows[g.row].bottom;
        match at {
            Some(x) => self.add_move(l, nd, cur, si, (x, y), sj),
            None => false,
        }
    }
}

// ── cells of several rows ────────────────────────────────────────────────────────────────────

impl Land {
    /// Whether a cell's rails fit a row.
    pub open spec fn rails_fit(&self, nd: usize, row: int) -> bool {
        0 <= row < self.rails@[nd as int]@.len() && self.rails@[nd as int]@[row].0
    }

    /// The row a cell of several rows starts in, so that it ends below the highest row.
    pub open spec fn base_row(&self, row: int, tall: int) -> int {
        imin(row, self.arch.rows@.len() - tall - 1)
    }

    /// The first segment of a region over a place in a row, from position `k` on.
    pub open spec fn seg_over(&self, row: int, group: int, x: int, k: int) -> Option<usize>
        decreases self.segs_in_row@[row]@.len() - k,
    {
        let v = self.segs_in_row@[row]@;
        if k < 0 || k >= v.len() {
            None
        } else {
            let g = self.segments@[v[k] as int];
            if g.reg == group && g.min_x <= x <= g.max_x { Some(v[k]) } else { self.seg_over(row, group, x, k + 1) }
        }
    }

    /// The segments of a region over a place in `n` rows from `base` up, if each row has one.
    pub open spec fn stack_over(&self, base: int, n: int, group: int, x: int) -> Option<Seq<usize>>
        decreases n,
    {
        if n <= 0 {
            Some(Seq::empty())
        } else {
            match (self.stack_over(base, n - 1, group, x), self.seg_over(base + n - 1, group, x, 0)) {
                (Some(v), Some(g)) => Some(v.push(g)),
                _ => None,
            }
        }
    }
}

/// The cells left and right of a place in a list, a node itself left out on the left. Past the end of
/// the list the left one is the last cell, whichever it is.
pub open spec fn around(nodes: Seq<Node>, list: Seq<usize>, nd: usize, x: int) -> (Option<usize>, Option<usize>) {
    let it = first_at(nodes, list, x, 0);
    if list.len() == 0 {
        (None, None)
    } else if it == list.len() {
        (Some(list.last()), None)
    } else if it == 0 {
        (None, Some(list[it]))
    } else if list[it - 1] != nd {
        (Some(list[it - 1]), Some(list[it]))
    } else {
        (if it >= 2 { Some(list[it - 2]) } else { None }, Some(list[it]))
    }
}

/// Where the space between two neighbours begins for a node, with padding.
pub open spec fn room_lo(s: St, g: Segment, p: Option<usize>, nd: usize) -> int {
    space_lo(s, g, p) + (if p is Some { spacing(s, p, Some(nd)) } else { 0 })
}

/// Where the space between two neighbours ends for a node, with padding.
pub open spec fn room_hi(s: St, g: Segment, q: Option<usize>, nd: usize) -> int {
    space_hi(s, g, q) - (if q is Some { spacing(s, Some(nd), q) } else { 0 })
}

impl Land {
    /// The space that the first `n` of some segments all have around a place, if a node fits each.
    pub open spec fn common_room(&self, s: St, segs: Seq<usize>, nd: usize, x: int, n: int) -> Option<(int, int)>
        decreases n,
    {
        if n <= 0 {
            Some((i32::MIN as int, i32::MAX as int))
        } else {
            match self.common_room(s, segs, nd, x, n - 1) {
                None => None,
                Some(r) => {
                    let g = self.segments@[segs[n - 1] as int];
                    let (p, q) = around(s.nodes, s.cells[segs[n - 1] as int], nd, x);
                    let (lx, rx) = (room_lo(s, g, p, nd), room_hi(s, g, q, nd));
                    if p == Some(nd) || q == Some(nd) || s.nodes[nd as int].width > rx - lx {
                        None
                    } else {
                        Some((imax(r.0, lx), imin(r.1, rx)))
                    }
                },
            }
        }
    }

    /// A cell of several rows moved to a space that spans them.
    pub open spec fn across_rows(&self, s0: St, nd: usize, xj: i32, sj: usize) -> (bool, St) {
        let s = cleared(s0);
        let n = s.nodes[nd as int];
        let tall = self.tall(s, nd);
        let base = self.base_row(self.segments@[sj as int].row as int, tall);
        if tall <= 1 || tall != s.homes[nd as int].len() || base < 0 || !self.rails_fit(nd, base) {
            (false, s)
        } else {
            match self.stack_over(base, tall, n.group as int, xj as int) {
                None => (false, s),
                Some(segs) => match self.common_room(s, segs, nd, xj as int, tall) {
                    None => (false, s),
                    Some(r) => {
                        let at = aligned(self.arch.rows@[0], n.width as int, xj as int, r.0, r.1);
                        if n.width > r.1 - r.0 || at is None {
                            (false, s)
                        } else {
                            self.moved(s, nd, (n.left, n.bottom), s.homes[nd as int], (at->Some_0 as i32, self.arch.rows@[base].bottom), segs, false)
                        }
                    },
                },
            }
        }
    }
}

proof fn lemma_aligned_reach(row: Row, width: int, xi: int, xl: int, xr: int)
    requires
        row.ok(),
        0 <= width <= COORD_LIMIT,
        seg_end(xi),
        -6 * COORD_LIMIT <= xl <= 5 * COORD_LIMIT,
        -5 * COORD_LIMIT <= xr,
        aligned(row, width, xi, xl, xr) is Some,
    ensures
        reachable(aligned(row, width, xi, xl, xr)->Some_0),
{
    crate::segments::lemma_site_of(row, imax(xl, imin(xr - width, xi)));
}

impl Live {
    fn seg_at(&self, l: &Land, row: usize, group: i32, x: i32) -> (r: Option<usize>)
        requires
            l.wf(),
            row < l.arch.rows@.len(),
        ensures
            r == l.seg_over(row as int, group as int, x as int, 0),
            r matches Some(g) ==> g < l.segments@.len() && seg_end(x as int),
    {
        let v = &l.segs_in_row[row];
        assert(lists(l.segs_in_row@)[row as int] == v@);
        let mut k: usize = 0;
        while k < v.len()
            invariant
                l.wf(),
                row < l.arch.rows@.len(),
                v@ == l.segs_in_row@[row as int]@,
                all_below(v@, l.segments@.len() as int),
                k <= v@.len(),
                l.seg_over(row as int, group as int, x as int, k as int) == l.seg_over(row as int, group as int, x as int, 0),
            decreases v@.len() - k,
        {
            let g: &Segment = &l.segments[v[k]];
            if g.reg == group && x >= g.min_x && x <= g.max_x {
                assert(seg_end(g.min_x as int) && seg_end(g.max_x as int));
                return Some(v[k]);
            }
            k = k + 1;
        }
        None
    }

    fn stack_at(&self, l: &Land, base: usize, n: usize, group: i32, x: i32) -> (r: Option<Vec<usize>>)
        requires
            l.wf(),
            base + n <= l.arch.rows@.len(),
        ensures
            r is Some <==> l.stack_over(base as int, n as int, group as int, x as int) is Some,
            r matches Some(v) ==> l.stack_over(base as int, n as int, group as int, x as int) == Some(v@) && v@.len() == n
                && all_below(v@, l.segments@.len() as int) && (n > 0 ==> seg_end(x as int)),
    {
        let mut out: Vec<usize> = Vec::new();
        let mut k: usize = 0;
        assert(out@ =~= Seq::empty());
        while k < n
            invariant
                l.wf(),
                base + n <= l.arch.rows@.len(),
                k <= n,
                out@.len() == k,
                l.stack_over(base as int, k as int, group as int, x as int) == Some(out@),
                all_below(out@, l.segments@.len() as int),
                k > 0 ==> seg_end(x as int),
            decreases n - k,
        {
            match self.seg_at(l, base + k, group, x) {
                Some(g) => {
                    out.push(g);
                },
                None => {
                    proof {
                        lemma_stack_stops(*l, base as int, k + 1, n as int, group as int, x as int);
                    }
                    return None;
                },
            }
            k = k + 1;
        }
        Some(out)
    }

    fn around_in(&self, l: &Land, seg: usize, nd: usize, x: i32) -> (r: (Option<usize>, Option<usize>))
        requires
            l.wf(),
            l.ok(self@),
            seg < l.segments@.len(),
        ensures
            r == around(self@.nodes, self@.cells[seg as int], nd, x as int),
            r.0 matches Some(i) ==> i < l.count() && center(self@.nodes[i as int]) < x,
            r.1 matches Some(i) ==> i < l.count() && center(self@.nodes[i as int]) >= x,
    {
        let it: usize = self.lower_bound_x(l, seg, x);
        assert(self@.cells[seg as int] == self.cells_in_seg@[seg as int]@);
        assert(all_below(self@.cells[seg as int], l.count()));
        let list = &self.cells_in_seg[seg];
        proof {
            lemma_first_at(self@.nodes, list@, x as int, 0);
        }
        if list.len() == 0 {
            return (None, None);
        }
        if it == list.len() {
            return (Some(list[it - 1]), None);
        }
        if it == 0 {
            return (None, Some(list[it]));
        }
        if list[it - 1] != nd {
            return (Some(list[it - 1]), Some(list[it]));
        }
        (if it >= 2 { Some(list[it - 2]) } else { None }, Some(list[it]))
    }

    fn room_in(&self, l: &Land, segs: &Vec<usize>, nd: usize, x: i32) -> (r: Option<(i32, i32)>)
        requires
            l.wf(),
            l.ok(self@),
            nd < l.count(),
            all_below(segs@, l.segments@.len() as int),
            seg_end(x as int),
            segs@.len() > 0,
        ensures
            r is Some <==> l.common_room(self@, segs@, nd, x as int, segs@.len() as int) is Some,
            r matches Some(p) ==> l.common_room(self@, segs@, nd, x as int, segs@.len() as int) == Some((p.0 as int, p.1 as int))
                && -6 * COORD_LIMIT <= p.0 <= 5 * COORD_LIMIT && -5 * COORD_LIMIT <= p.1 <= 6 * COORD_LIMIT,
    {
        let ghost s = self@;
        let mut lo: i32 = i32::MIN;
        let mut hi: i32 = i32::MAX;
        let mut k: usize = 0;
        assert(node_in(s.nodes[nd as int]));
        while k < segs.len()
            invariant
                l.wf(),
                l.ok(self@),
                s == self@,
                nd < l.count(),
                node_in(s.nodes[nd as int]),
                all_below(segs@, l.segments@.len() as int),
                seg_end(x as int),
                k <= segs@.len(),
                l.common_room(s, segs@, nd, x as int, k as int) == Some((lo as int, hi as int)),
                lo <= 5 * COORD_LIMIT,
                hi >= -5 * COORD_LIMIT,
                k > 0 ==> lo >= -6 * COORD_LIMIT && hi <= 6 * COORD_LIMIT,
            decreases segs@.len() - k,
        {
            let seg: usize = segs[k];
            let (p, q) = self.around_in(l, seg, nd, x);
            let own: bool = (match p { Some(i) => i == nd, None => false }) || (match q { Some(i) => i == nd, None => false });
            if own {
                proof {
                    lemma_room_stops(*l, s, segs@, nd, x as int, k + 1, segs@.len() as int);
                }
                return None;
            }
            proof {
                if let Some(i) = p {
                    assert(node_in(s.nodes[i as int]));
                }
                if let Some(i) = q {
                    assert(node_in(s.nodes[i as int]));
                }
                assert(seg_end(l.segments@[seg as int].min_x as int) && seg_end(l.segments@[seg as int].max_x as int));
            }
            let lx: i32 = self.lo_of(l, seg, p) + (if p.is_some() { self.cell_spacing(l, p, Some(nd)) } else { 0 });
            let rx: i32 = self.hi_of(l, seg, q) - (if q.is_some() { self.cell_spacing(l, Some(nd), q) } else { 0 });
            if self.nodes[nd].width > rx - lx {
                proof {
                    lemma_room_stops(*l, s, segs@, nd, x as int, k + 1, segs@.len() as int);
                }
                return None;
            }
            if lx > lo {
                lo = lx;
            }
            if rx < hi {
                hi = rx;
            }
            k = k + 1;
        }
        Some((lo, hi))
    }

    /// Move a cell of several rows to a space that spans them.
    pub fn try_move3(&mut self, l: &Land, nd: usize, xj: i32, sj: usize) -> (r: bool)
        requires
            l.wf(),
            l.ok(old(self)@),
            nd < l.count(),
            sj < l.segments@.len(),
        ensures
            l.ok(final(self)@),
            (r, final(self)@) == l.across_rows(old(self)@, nd, xj, sj),
    {
        self.clear_move_list(l);
        let ghost s = self@;
        assert(node_in(s.nodes[nd as int]));
        assert(l.arch.rows@[0].ok());
        assert(s.homes[nd as int] == self.cell_segs@[nd as int]@);
        let tall: i32 = l.arch.height_in_rows(self.nodes[nd].height);
        if tall <= 1 || tall as usize != self.cell_segs[nd].len() {
            return false;
        }
        let rows: i64 = l.arch.rows.len() as i64;
        let mut base: i64 = l.segments[sj].row as i64;
        if base > rows - tall as i64 - 1 {
            base = rows - tall as i64 - 1;
        }
        if base < 0 {
            return false;
        }
        let b: usize = base as usize;
        let fits: bool = b < l.rails[nd].len() && l.rails[nd][b].0;
        if !fits {
            return false;
        }
        let segs = match self.stack_at(l, b, tall as usize, self.nodes[nd].group, xj) {
            Some(v) => v,
            None => return false,
        };
        let (lo, hi) = match self.room_in(l, &segs, nd, xj) {
            Some(p) => p,
            None => return false,
        };
        if self.nodes[nd].width > hi - lo {
            return false;
        }
        let x: i32 = match self.align_pos(l, nd, xj, lo, hi) {
            Some(x) => x,
            None => return false,
        };
        proof {
            lemma_aligned_reach(l.arch.rows@[0], s.nodes[nd as int].width as int, xj as int, lo as int, hi as int);
            assert(l.arch.rows@[b as int].ok());
            assert(all_below(s.homes[nd as int], l.segments@.len() as int));
        }
        let cur = (self.nodes[nd].left, self.nodes[nd].bottom);
        let from = copy_list(&self.cell_segs[nd]);
        let y: i32 = l.arch.rows[b].bottom;
        self.add_to_move_list(l, nd, cur, from, (x, y), segs, false)
    }
}

proof fn lemma_stack_stops(l: Land, base: int, k: int, n: int, group: int, x: int)
    requires
        0 <= k <= n,
        l.stack_over(base, k, group, x) is None,
    ensures
        l.stack_over(base, n, group, x) is None,
    decreases n,
{
    if k < n {
        lemma_stack_stops(l, base, k, n - 1, group, x);
    }
}

proof fn lemma_room_stops(l: Land, s: St, segs: Seq<usize>, nd: usize, x: int, k: int, n: int)
    requires
        0 <= k <= n,
        l.common_room(s, segs, nd, x, k) is None,
    ensures
        l.common_room(s, segs, nd, x, n) is None,
    decreases n,
{
    if k < n {
        lemma_room_stops(l, s, segs, nd, x, k, n - 1);
    }
}

} // verus!
