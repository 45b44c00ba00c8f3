//! Gaps of exactly one site between cells, and beside blockages.

use vstd::prelude::*;
use crate::arith::{dist, distance, div_trunc, imax, imin, trunc_quot};
use crate::checks::resorted;
use crate::improve::{Kind, Node};
use crate::land::{all_below, node_in, Land, Live, St};
use crate::rows::COORD_LIMIT;
use crate::segments::Blockage;
use crate::tries::right;

verus! {

/// The first blockage from `i` on that does not end left of `x`.
pub open spec fn first_block(v: Seq<Blockage>, x: int, i: int) -> int
    decreases v.len() - i,
{
    if i >= v.len() || v[i].x_max >= x { i } else { first_block(v, x, i + 1) }
}

/// Whether a blockage covers `x`, ends included: the first one that does not end left of it.
pub open spec fn covers(v: Seq<Blockage>, x: int) -> bool {
    let i = first_block(v, x, 0);
    i < v.len() && v[i].x_min <= x <= v[i].x_max
}

/// Whether two spans of Y, ends included, have a point in common.
pub open spec fn touch_in_y(a: Node, b: Node) -> bool {
    (b.bottom <= a.bottom <= b.bottom + b.height) || (a.bottom <= b.bottom <= a.bottom + a.height)
}

impl Land {
    /// The rows a node's blockages are looked for in: from its lowest row up to below its highest, the
    /// highest row of all left out.
    pub open spec fn block_rows(&self, n: Node) -> (int, int) {
        let r = self.arch.rows@[0];
        (
            imax(trunc_quot(n.bottom - r.bottom, r.height as int), 0),
            imin(trunc_quot(n.bottom + n.height - r.bottom, r.height as int), self.arch.rows@.len() - 1),
        )
    }

    /// Whether a blockage covers `x` in one of a node's rows.
    pub open spec fn in_blockage(&self, n: Node, x: int) -> bool {
        let b = self.block_rows(n);
        exists|r: int| b.0 <= r < b.1 && #[trigger] covers(self.blockages@[r]@, x)
    }

    /// Whether a blockage lies one site beyond one of a node's edges and none at the edge.
    pub open spec fn beside_blockage(&self, n: Node) -> bool {
        let site = self.arch.rows@[0].site_width;
        ||| (self.in_blockage(n, n.left - site) && !self.in_blockage(n, n.left as int))
        ||| (self.in_blockage(n, right(n) + site) && !self.in_blockage(n, right(n)))
    }

    /// How often a node is recorded for cells, from position `k` of a list on, that it has a gap to: once
    /// for each that overlaps it in Y, but only for the first one where the gap could be mended by moving
    /// the node.
    pub open spec fn gap_records(&self, s: St, nd: usize, list: Seq<usize>, k: int) -> int
        decreases list.len() - k,
    {
        if k < 0 || k >= list.len() {
            0
        } else if !touch_in_y(s.nodes[list[k] as int], s.nodes[nd as int]) {
            self.gap_records(s, nd, list, k + 1)
        } else if s.nodes[nd as int].kind == Kind::Terminal || s.nodes[nd as int].fixed || self.tall(s, nd) != 1 {
            1 + self.gap_records(s, nd, list, k + 1)
        } else {
            1
        }
    }
}

/// What a scan along a segment holds: the last cell, the cells that end where it ends, and the cells
/// recorded.
pub ghost struct GapScan {
    pub last: usize,
    pub level: Seq<usize>,
    pub out: Seq<(usize, usize)>,
}

/// A list with a value added some times.
pub open spec fn repeated(v: Seq<(usize, usize)>, x: (usize, usize), n: int) -> Seq<(usize, usize)>
    decreases n,
{
    if n <= 0 { v } else { repeated(v, x, n - 1).push(x) }
}

impl Land {
    /// The scan after one more cell.
    pub open spec fn gap_step(&self, s: St, seg: usize, g: GapScan, nd: usize) -> GapScan {
        let n = s.nodes[nd as int];
        let edge = right(s.nodes[g.last as int]);
        let apart = right(n) != edge;
        let mark = (seg, n.id);
        let hits = if apart && dist(n.left as int, edge) == self.arch.rows@[0].site_width { self.gap_records(s, nd, g.level, 0) } else { 0 };
        let a = repeated(g.out, mark, hits);
        GapScan {
            last: nd,
            level: (if apart { Seq::empty() } else { g.level }).push(nd),
            out: if self.beside_blockage(n) { a.push(mark) } else { a },
        }
    }

    /// The scan after the first `n` cells of a segment.
    pub open spec fn gap_scan(&self, s: St, seg: usize, list: Seq<usize>, n: int, out: Seq<(usize, usize)>) -> GapScan
        decreases n,
    {
        if n <= 0 {
            GapScan { last: list[0], level: seq![list[0]], out }
        } else {
            self.gap_step(s, seg, self.gap_scan(s, seg, list, n - 1, out), list[n - 1])
        }
    }

    /// The cells recorded in the first `n` segments: those of two or more cells.
    pub open spec fn gap_list(&self, s: St, n: int) -> Seq<(usize, usize)>
        decreases n,
    {
        if n <= 0 {
            Seq::empty()
        } else {
            let v = self.gap_list(s, n - 1);
            let list = s.cells[n - 1];
            if list.len() < 2 { v } else { self.gap_scan(s, (n - 1) as usize, list, list.len() as int, v).out }
        }
    }
}

impl Live {
    /// Is a coordinate in a blockage in one of the rows a cell spans?
    pub fn is_inside_a_blockage(&self, l: &Land, nd: usize, x: i32) -> (r: bool)
        requires
            l.wf(),
            l.ok(self@),
            nd < l.count(),
        ensures
            r == l.in_blockage(self@.nodes[nd as int], x as int),
    {
        let n: &Node = &self.nodes[nd];
        assert(node_in(self@.nodes[nd as int]));
        assert(l.arch.rows@[0].ok());
        let r0 = &l.arch.rows[0];
        let h: i64 = r0.height as i64;
        let lo: i64 = div_trunc(n.bottom as i64 - r0.bottom as i64, h);
        let hi: i64 = div_trunc(n.bottom as i64 + n.height as i64 - r0.bottom as i64, h);
        let top: i64 = l.arch.rows.len() as i64 - 1;
        let first: i64 = if lo >= 0 { lo } else { 0 };
        let end: i64 = if hi <= top { hi } else { top };
        let ghost b = l.block_rows(self@.nodes[nd as int]);
        let mut r: i64 = first;
        while r < end
            invariant
                l.wf(),
                b == l.block_rows(self@.nodes[nd as int]),
                b.0 == first,
                b.1 == end,
                0 <= first <= r,
                r <= end || r == first,
                end < l.arch.rows@.len(),
                l.arch.rows@.len() <= COORD_LIMIT,
                forall|q: int| first <= q < r ==> !#[trigger] covers(l.blockages@[q]@, x as int),
            decreases end - r,
        {
            let v = &l.blockages[r as usize];
            let mut i: usize = 0;
            while i < v.len() && v[i].x_max < x
                invariant
                    i <= v@.len(),
                    first_block(v@, x as int, i as int) == first_block(v@, x as int, 0),
                decreases v@.len() - i,
            {
                i = i + 1;
            }
            if i < v.len() && x >= v[i].x_min && x <= v[i].x_max {
                assert(covers(l.blockages@[r as int]@, x as int));
                return true;
            }
            r = r + 1;
        }
        false
    }

    fn is_beside_blockage(&self, l: &Land, nd: usize) -> (r: bool)
        requires
            l.wf(),
            l.ok(self@),
            nd < l.count(),
        ensures
            r == l.beside_blockage(self@.nodes[nd as int]),
    {
        assert(node_in(self@.nodes[nd as int]));
        assert(l.arch.rows@[0].ok());
        let site: i32 = l.arch.rows[0].site_width;
        let a: i32 = self.nodes[nd].left;
        let b: i32 = self.right_of(l, nd);
        (self.is_inside_a_blockage(l, nd, a - site) && !self.is_inside_a_blockage(l, nd, a))
            || (self.is_inside_a_blockage(l, nd, b + site) && !self.is_inside_a_blockage(l, nd, b))
    }

    fn record_gaps(&self, l: &Land, nd: usize, level: &Vec<usize>, mark: (usize, usize), out: &mut Vec<(usize, usize)>)
        requires
            l.wf(),
            l.ok(self@),
            nd < l.count(),
            all_below(level@, l.count()),
        ensures
            final(out)@ == repeated(old(out)@, mark, l.gap_records(self@, nd, level@, 0)),
    {
        let ghost s = self@;
        let ghost o0 = out@;
        let ghost mut done: int = 0;
        let mut k: usize = 0;
        while k < level.len()
            invariant
                l.wf(),
                l.ok(self@),
                s == self@,
                nd < l.count(),
                all_below(level@, l.count()),
                k <= level@.len(),
                0 <= done,
                o0 == old(out)@,
                out@ == repeated(o0, mark, done),
                done + l.gap_records(s, nd, level@, k as int) == l.gap_records(s, nd, level@, 0),
            decreases level@.len() - k,
        {
            let (a, n) = (&self.nodes[level[k]], &self.nodes[nd]);
            assert(node_in(s.nodes[level@[k as int] as int]) && node_in(s.nodes[nd as int]));
            let (at, nt) = (a.bottom + a.height, n.bottom + n.height);
            if (n.bottom <= a.bottom && a.bottom <= nt) || (a.bottom <= n.bottom && n.bottom <= at) {
                out.push(mark);
                proof {
                    done = done + 1;
                }
                if !(n.kind == Kind::Terminal || n.fixed || !self.is_one_high(l, nd)) {
                    return;
                }
            }
            k = k + 1;
        }
    }

    /// The cells with a gap of exactly one site beside them, by segment and node: to the cell before
    /// them, or to a blockage. The segments are put in order first.
    pub fn one_site_gap_violations(&mut self, l: &Land) -> (out: Vec<(usize, usize)>)
        requires
            l.wf(),
            l.ok(old(self)@),
        ensures
            l.ok(final(self)@),
            final(self)@ == resorted(old(self)@, l.segments@.len() as int),
            out@ == l.gap_list(final(self)@, l.segments@.len() as int),
    {
        self.resort_segments(l);
        let ghost s = self@;
        let m: usize = l.segments.len();
        assert(l.arch.rows@[0].ok());
        let site: i64 = l.arch.rows[0].site_width as i64;
        let mut out: Vec<(usize, usize)> = Vec::new();
        let mut i: usize = 0;
        assert(out@ =~= Seq::empty());
        while i < m
            invariant
                l.wf(),
                l.ok(self@),
                s == self@,
                m == l.segments@.len(),
                site == l.arch.rows@[0].site_width,
                i <= m,
                out@ == l.gap_list(s, i as int),
            decreases m - i,
        {
            let list = &self.cells_in_seg[i];
            assert(s.cells[i as int] == list@);
            assert(all_below(s.cells[i as int], l.count()));
            if list.len() >= 2 {
                let ghost v0 = out@;
                let mut last: usize = list[0];
                let mut level: Vec<usize> = Vec::new();
                level.push(list[0]);
                assert(level@ =~= seq![list@[0]]);
                let mut k: usize = 0;
                while k < list.len()
                    invariant
                        l.wf(),
                        l.ok(self@),
                        s == self@,
                        site == l.arch.rows@[0].site_width,
                        all_below(list@, l.count()),
                        list@.len() >= 2,
                        k <= list@.len(),
                        last < l.count(),
                        all_below(level@, l.count()),
                        (GapScan { last, level: level@, out: out@ }) == l.gap_scan(s, i, list@, k as int, v0),
                    decreases list@.len() - k,
                {
                    let ghost g = GapScan { last, level: level@, out: out@ };
                    let nd: usize = list[k];
                    let mark = (i, self.nodes[nd].id);
                    assert(node_in(s.nodes[nd as int]));
                    let edge: i32 = self.right_of(l, last);
                    if self.right_of(l, nd) != edge {
                        if distance(self.nodes[nd].left as i64, edge as i64) == site {
                            self.record_gaps(l, nd, &level, mark, &mut out);
                        }
                        level = Vec::new();
                        assert(level@ =~= Seq::empty());
                    }
                    if self.is_beside_blockage(l, nd) {
                        out.push(mark);
                    }
                    level.push(nd);
                    last = nd;
                    proof {
                        assert((GapScan { last, level: level@, out: out@ }) == l.gap_step(s, i, g, nd));
                    }
                    k = k + 1;
                }
            }
            i = i + 1;
        }
        out
    }
}

} // verus!
