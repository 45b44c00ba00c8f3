//! The order of the cells in their segments, and what is wrong with where they lie.

use vstd::prelude::*;
use crate::arith::{div_trunc, imax, imin, trunc_quot};
use crate::improve::{Kind, Node};
use crate::land::{all_below, lists_below, node_fits, Land, Live, St};
use crate::moves::{center, spacing};
use crate::rows::COORD_LIMIT;
use crate::segments::{lists, site_of, Segment};
use crate::sort::{stable_order, the_order};
use crate::tries::right;

verus! {

/// What is wrong with a placement, by kind.
#[derive(Debug, Clone, Copy, PartialEq, Eq)]
pub struct Checks {
    pub wrong_region: usize,
    pub row_alignment: usize,
    pub site_alignment: u64,
    pub overlaps: usize,
    pub edge_spacing: usize,
    pub padding: usize,
}

// ── order ────────────────────────────────────────────────────────────────────────────────────

/// The values of a list at some positions.
pub open spec fn picked(list: Seq<usize>, order: Seq<usize>) -> Seq<usize> {
    Seq::new(order.len(), |k: int| list[order[k] as int])
}

/// The centres of a list's cells.
pub open spec fn centers(nodes: Seq<Node>, list: Seq<usize>) -> Seq<i64> {
    Seq::new(list.len(), |k: int| center(nodes[list[k] as int]) as i64)
}

/// The left edges of a list's cells.
pub open spec fn edges(nodes: Seq<Node>, list: Seq<usize>) -> Seq<i64> {
    Seq::new(list.len(), |k: int| nodes[list[k] as int].left as i64)
}

/// The cells of a list from left to right by their centres, equal ones in their order.
pub open spec fn by_center(nodes: Seq<Node>, list: Seq<usize>) -> Seq<usize> {
    picked(list, the_order(centers(nodes, list)))
}

/// The cells of a list from left to right by their left edges, equal ones in their order.
pub open spec fn by_edge(nodes: Seq<Node>, list: Seq<usize>) -> Seq<usize> {
    picked(list, the_order(edges(nodes, list)))
}

/// The summed widths of the first `n` cells of a list.
pub open spec fn widths(nodes: Seq<Node>, list: Seq<usize>, n: int) -> i64
    decreases n,
{
    if n <= 0 { 0i64 } else { widths(nodes, list, n - 1).wrapping_add(nodes[list[n - 1] as int].width as i64) }
}

/// The state with the cells of the first `n` segments in order, and their widths summed anew.
pub open spec fn resorted(s: St, n: int) -> St {
    St {
        cells: Seq::new(s.cells.len(), |k: int| if k < n { by_center(s.nodes, s.cells[k]) } else { s.cells[k] }),
        util: Seq::new(s.util.len(), |k: int| if k < n { widths(s.nodes, by_center(s.nodes, s.cells[k]), s.cells[k].len() as int) } else { s.util[k] }),
        ..s
    }
}

/// A state stays in its ranges with other lists of nodes in its segments.
pub proof fn lemma_ok_cells(l: Land, s: St, cells: Seq<Seq<usize>>, util: Seq<i64>)
    requires
        l.ok(s),
        cells.len() == s.cells.len(),
        util.len() == s.util.len(),
        lists_below(cells, l.count()),
    ensures
        l.ok(St { cells, util, ..s }),
{
}

fn take(list: &Vec<usize>, order: &Vec<usize>) -> (r: Vec<usize>)
    requires
        order@.len() == list@.len(),
        all_below(order@, list@.len() as int),
    ensures
        r@ == picked(list@, order@),
{
    let mut out: Vec<usize> = Vec::new();
    let mut k: usize = 0;
    while k < order.len()
        invariant
            order@.len() == list@.len(),
            all_below(order@, list@.len() as int),
            k <= order@.len(),
            out@ == picked(list@, order@).subrange(0, k as int),
        decreases order@.len() - k,
    {
        out.push(list[order[k]]);
        k = k + 1;
        assert(out@ =~= picked(list@, order@).subrange(0, k as int));
    }
    assert(out@ =~= picked(list@, order@));
    out
}

impl Live {
    /// The cells of a list by their centres, equal ones in their order.
    pub fn sort_by_center(&self, l: &Land, list: &Vec<usize>) -> (r: Vec<usize>)
        requires
            l.wf(),
            l.fits(self@),
            all_below(list@, l.count()),
        ensures
            r@ == by_center(self@.nodes, list@),
            r@.len() == list@.len(),
            all_below(r@, l.count()),
            forall|k: int| 0 <= k < r@.len() ==> list@.contains(#[trigger] r@[k]),
    {
        let mut keys: Vec<i64> = Vec::new();
        let mut k: usize = 0;
        while k < list.len()
            invariant
                l.wf(),
                l.fits(self@),
                all_below(list@, l.count()),
                k <= list@.len(),
                keys@ == centers(self@.nodes, list@).subrange(0, k as int),
            decreases list@.len() - k,
        {
            keys.push(self.center_x(l, list[k]) as i64);
            k = k + 1;
            assert(keys@ =~= centers(self@.nodes, list@).subrange(0, k as int));
        }
        assert(keys@ =~= centers(self@.nodes, list@));
        let order = stable_order(&keys);
        let r = take(list, &order);
        assert forall|j: int| 0 <= j < r@.len() implies #[trigger] r@[j] < l.count() && list@.contains(r@[j]) by {
            assert(r@[j] == list@[order@[j] as int]);
        }
        r
    }

    /// The cells of a list by their left edges, equal ones in their order.
    fn sort_by_edge(&self, l: &Land, list: &Vec<usize>) -> (r: Vec<usize>)
        requires
            l.wf(),
            l.fits(self@),
            all_below(list@, l.count()),
        ensures
            r@ == by_edge(self@.nodes, list@),
            r@.len() == list@.len(),
            all_below(r@, l.count()),
    {
        let mut keys: Vec<i64> = Vec::new();
        let mut k: usize = 0;
        while k < list.len()
            invariant
                l.wf(),
                l.fits(self@),
                all_below(list@, l.count()),
                k <= list@.len(),
                keys@ == edges(self@.nodes, list@).subrange(0, k as int),
            decreases list@.len() - k,
        {
            keys.push(self.nodes[list[k]].left as i64);
            k = k + 1;
            assert(keys@ =~= edges(self@.nodes, list@).subrange(0, k as int));
        }
        assert(keys@ =~= edges(self@.nodes, list@));
        let order = stable_order(&keys);
        let r = take(list, &order);
        assert forall|j: int| 0 <= j < r@.len() implies #[trigger] r@[j] < l.count() by {
            assert(r@[j] == list@[order@[j] as int]);
        }
        r
    }

    /// Put the cells of every segment in order and sum their widths anew.
    pub fn resort_segments(&mut self, l: &Land)
        requires
            l.wf(),
            l.ok(old(self)@),
        ensures
            l.ok(final(self)@),
            final(self)@ == resorted(old(self)@, l.segments@.len() as int),
    {
        let ghost s0 = self@;
        let m: usize = l.segments.len();
        let mut i: usize = 0;
        proof {
            assert(self@.cells =~= resorted(s0, 0).cells);
            assert(self@.util =~= resorted(s0, 0).util);
            assert(self@ == resorted(s0, 0));
        }
        while i < m
            invariant
                l.wf(),
                l.ok(self@),
                m == l.segments@.len(),
                s0.cells.len() == m,
                s0.util.len() == m,
                i <= m,
                self@ == resorted(s0, i as int),
            decreases m - i,
        {
            let ghost before = self@;
            assert(before.cells[i as int] == self.cells_in_seg@[i as int]@);
            assert(before.cells[i as int] == s0.cells[i as int]);
            assert(all_below(before.cells[i as int], l.count()));
            let list = self.sort_by_center(l, &self.cells_in_seg[i]);
            let mut sum: i64 = 0;
            let mut k: usize = 0;
            while k < list.len()
                invariant
                    l.ok(self@),
                    self@ == before,
                    all_below(list@, l.count()),
                    k <= list@.len(),
                    sum == widths(before.nodes, list@, k as int),
                decreases list@.len() - k,
            {
                sum = sum.wrapping_add(self.nodes[list[k]].width as i64);
                k = k + 1;
            }
            self.cells_in_seg.set(i, list);
            self.seg_util.set(i, sum);
            proof {
                let t = resorted(s0, i + 1);
                assert forall|k: int| 0 <= k < m implies #[trigger] self@.cells[k] == t.cells[k] && self@.util[k] == t.util[k] by {
                    if k != i {
                        assert(self@.cells[k] == before.cells[k]);
                        assert(self@.util[k] == before.util[k]);
                    }
                }
                assert(self@.cells =~= t.cells);
                assert(self@.util =~= t.util);
                assert(self@ == t);
                assert(lists_below(self@.cells, l.count())) by {
                    assert forall|j: int| 0 <= j < self@.cells.len() implies all_below(#[trigger] self@.cells[j], l.count()) by {
                        if j != i {
                            assert(self@.cells[j] == before.cells[j]);
                        }
                    }
                }
                lemma_ok_cells(*l, before, self@.cells, self@.util);
                assert(self@ == (St { cells: self@.cells, util: self@.util, ..before }));
            }
            i = i + 1;
        }
    }
}

// ── checks ───────────────────────────────────────────────────────────────────────────────────

/// Whether a node may be moved.
pub open spec fn movable(n: Node) -> bool {
    n.kind != Kind::Terminal && !n.fixed
}

/// 1 for true, 0 for false.
pub open spec fn one_if(b: bool) -> int {
    if b { 1 } else { 0 }
}

/// The cells of a region among the first `n` of a list that are in a segment of another.
pub open spec fn strangers(nodes: Seq<Node>, list: Seq<usize>, reg: int, n: int) -> int
    decreases n,
{
    if n <= 0 { 0 } else { strangers(nodes, list, reg, n - 1) + one_if(nodes[list[n - 1] as int].group != reg) }
}

/// The neighbours among the first `n` of a list that overlap.
pub open spec fn overlapping(nodes: Seq<Node>, list: Seq<usize>, n: int) -> int
    decreases n,
{
    if n <= 1 { 0 } else { overlapping(nodes, list, n - 1) + one_if(right(nodes[list[n - 2] as int]) > nodes[list[n - 1] as int].left) }
}

/// The cells among the first `n` of a list that stick out of a segment.
pub open spec fn sticking_out(nodes: Seq<Node>, list: Seq<usize>, g: Segment, n: int) -> int
    decreases n,
{
    if n <= 0 {
        0
    } else {
        let c = nodes[list[n - 1] as int];
        sticking_out(nodes, list, g, n - 1) + one_if(c.left < g.min_x || right(c) > g.max_x)
    }
}

impl Land {
    /// The cells in segments of another region, in the first `n` segments.
    pub open spec fn wrong_regions(&self, s: St, n: int) -> int
        decreases n,
    {
        if n <= 0 {
            0
        } else {
            self.wrong_regions(s, n - 1) + strangers(s.nodes, s.cells[n - 1], self.segments@[n - 1].reg as int, s.cells[n - 1].len() as int)
        }
    }

    /// Whether a node does not fill rows from one bottom to one top.
    pub open spec fn off_rows(&self, n: Node) -> bool {
        let lo = self.arch.closest(n.bottom as int);
        let hi = lo + self.arch.rows_high(n.height as int) - 1;
        let r = self.arch.rows@;
        hi < 0 || hi >= r.len() || n.bottom != r[lo].bottom || n.bottom + n.height != r[hi].bottom + r[hi].height
    }

    /// The movable nodes among the first `n` that do not fill rows.
    pub open spec fn off_rows_upto(&self, s: St, n: int) -> int
        decreases n,
    {
        if n <= 0 { 0 } else { self.off_rows_upto(s, n - 1) + one_if(movable(s.nodes[n - 1]) && self.off_rows(s.nodes[n - 1])) }
    }

    /// The rows from `r` to `top` in which a left edge is on no site.
    pub open spec fn off_sites_in(&self, left: int, r: int, top: int) -> int
        decreases top - r + 1,
    {
        if r > top || r < 0 { 0 } else { one_if(left != site_of(self.arch.rows@[r], left)) + self.off_sites_in(left, r + 1, top) }
    }

    /// The rows a node spans in which it is on no site, and one more if it sticks out of the rows, the
    /// rows taken as stacked.
    pub open spec fn off_sites(&self, n: Node) -> int {
        let h = self.arch.rows@[0].height as int;
        let lo = trunc_quot(n.bottom - self.arch.min_y, h);
        let hi = lo + n.height as int / h - 1;
        one_if(lo < 0 || hi >= self.arch.rows@.len())
            + self.off_sites_in(n.left as int, imax(lo, 0), imin(hi, self.arch.rows@.len() - 1))
    }

    /// The faults of this kind of the movable nodes in segments among the first `n`.
    pub open spec fn off_sites_upto(&self, s: St, n: int) -> int
        decreases n,
    {
        if n <= 0 {
            0
        } else {
            self.off_sites_upto(s, n - 1)
                + (if movable(s.nodes[n - 1]) && s.homes[n - 1].len() > 0 { self.off_sites(s.nodes[n - 1]) } else { 0 })
        }
    }

    /// The overlaps between neighbours and out of segments, in the first `n` segments.
    pub open spec fn overlaps_upto(&self, s: St, n: int) -> int
        decreases n,
    {
        if n <= 0 {
            0
        } else {
            let t = by_center(s.nodes, s.cells[n - 1]);
            self.overlaps_upto(s, n - 1) + overlapping(s.nodes, t, t.len() as int) + sticking_out(s.nodes, t, self.segments@[n - 1], t.len() as int)
        }
    }

    /// The first of each two neighbours that breaks a rule, among the first `n` of a list.
    pub open spec fn breaking(&self, s: St, list: Seq<usize>, n: int) -> int
        decreases n,
    {
        if n <= 1 {
            0
        } else {
            let a = list[n - 2] as int;
            self.breaking(s, list, n - 1) + one_if(s.nodes[a].kind == Kind::Cell && self.violates(s, a))
        }
    }

    /// The neighbours among the first `n` of a list with less between them than their padding.
    pub open spec fn cramped(&self, s: St, list: Seq<usize>, n: int) -> int
        decreases n,
    {
        if n <= 1 {
            0
        } else {
            let (a, b) = (list[n - 2], list[n - 1]);
            self.cramped(s, list, n - 1) + one_if(s.nodes[b as int].left - right(s.nodes[a as int]) < spacing(s, Some(a), Some(b)))
        }
    }

    /// The cells that break a rule, counted as left neighbours, in the first `n` segments.
    pub open spec fn breaking_upto(&self, s: St, n: int) -> int
        decreases n,
    {
        if n <= 0 {
            0
        } else {
            let t = by_edge(s.nodes, s.cells[n - 1]);
            self.breaking_upto(s, n - 1) + self.breaking(s, t, t.len() as int)
        }
    }

    /// The neighbours with less between them than their padding, in the first `n` segments.
    pub open spec fn cramped_upto(&self, s: St, n: int) -> int
        decreases n,
    {
        if n <= 0 {
            0
        } else {
            let t = by_edge(s.nodes, s.cells[n - 1]);
            self.cramped_upto(s, n - 1) + self.cramped(s, t, t.len() as int)
        }
    }

    /// `c` counts what is wrong with a state.
    pub open spec fn counted(&self, s: St, c: Checks) -> bool {
        let m = self.segments@.len() as int;
        &&& c.wrong_region == self.wrong_regions(s, m)
        &&& c.row_alignment == self.off_rows_upto(s, self.count())
        &&& c.site_alignment == self.off_sites_upto(s, self.count())
        &&& c.overlaps == self.overlaps_upto(s, m)
        &&& c.edge_spacing == self.breaking_upto(s, m)
        &&& c.padding == self.cramped_upto(s, m)
    }
}

/// The cells of all segments together.
pub open spec fn seated(s: St, n: int) -> int
    decreases n,
{
    if n <= 0 { 0 } else { seated(s, n - 1) + s.cells[n - 1].len() }
}

impl Live {
    fn count_strangers(&self, l: &Land) -> (r: usize)
        requires
            l.wf(),
            l.fits(self@),
            2 * seated(self@, l.segments@.len() as int) <= usize::MAX,
        ensures
            r == l.wrong_regions(self@, l.segments@.len() as int),
    {
        let ghost s = self@;
        let m: usize = l.segments.len();
        let mut count: usize = 0;
        let mut i: usize = 0;
        while i < m
            invariant
                l.wf(),
                l.fits(self@),
                s == self@,
                m == l.segments@.len(),
                i <= m,
                2 * seated(s, m as int) <= usize::MAX,
                count == l.wrong_regions(s, i as int),
                count <= seated(s, i as int),
            decreases m - i,
        {
            let list = &self.cells_in_seg[i];
            assert(s.cells[i as int] == list@);
            assert(all_below(s.cells[i as int], l.count()));
            let reg: i32 = l.segments[i].reg;
            let ghost c0 = count as int;
            proof {
                lemma_seated(s, i + 1, m as int);
            }
            let mut k: usize = 0;
            while k < list.len()
                invariant
                    l.fits(self@),
                    s == self@,
                    list@ == s.cells[i as int],
                    all_below(list@, l.count()),
                    k <= list@.len(),
                    c0 + list@.len() <= usize::MAX,
                    count == c0 + strangers(s.nodes, list@, reg as int, k as int),
                    c0 <= count <= c0 + k,
                decreases list@.len() - k,
            {
                if self.nodes[list[k]].group != reg {
                    count = count + 1;
                }
                k = k + 1;
            }
            i = i + 1;
        }
        count
    }

    fn count_off_rows(&self, l: &Land) -> (r: usize)
        requires
            l.wf(),
            l.fits(self@),
        ensures
            r == l.off_rows_upto(self@, l.count()),
    {
        let ghost s = self@;
        let n: usize = l.sites.len();
        let rows: i64 = l.arch.rows.len() as i64;
        let mut count: usize = 0;
        let mut k: usize = 0;
        while k < n
            invariant
                l.wf(),
                l.fits(self@),
                s == self@,
                n == l.count(),
                rows == l.arch.rows@.len(),
                rows <= COORD_LIMIT,
                k <= n,
                count == l.off_rows_upto(s, k as int),
                count <= k,
            decreases n - k,
        {
            let nd: &Node = &self.nodes[k];
            assert(node_fits(s.nodes[k as int], s.pad_sites[k as int]));
            if nd.kind != Kind::Terminal && !nd.fixed {
                assert(l.arch.rows@[0].ok());
                let lo: usize = l.arch.find_closest_row(nd.bottom);
                let hi: i64 = lo as i64 + l.arch.height_in_rows(nd.height) as i64 - 1;
                let bad: bool = if hi < 0 || hi >= rows {
                    true
                } else {
                    assert(l.arch.rows@[hi as int].ok());
                    nd.bottom != l.arch.rows[lo].bottom || nd.bottom + nd.height != l.arch.rows[hi as usize].top()
                };
                if bad {
                    count = count + 1;
                }
            }
            k = k + 1;
        }
        count
    }

    fn off_sites_of(&self, l: &Land, k: usize) -> (r: usize)
        requires
            l.wf(),
            l.fits(self@),
            k < l.count(),
        ensures
            r == l.off_sites(self@.nodes[k as int]),
            r <= COORD_LIMIT + 1,
    {
        let nd: &Node = &self.nodes[k];
        assert(node_fits(self@.nodes[k as int], self@.pad_sites[k as int]));
        assert(l.arch.rows@[0].ok());
        let h: i64 = l.arch.rows[0].height as i64;
        let rows: i64 = l.arch.rows.len() as i64;
        let lo: i64 = div_trunc(nd.bottom as i64 - l.arch.min_y as i64, h);
        let span: i64 = nd.height as i64 / h;
        proof {
            let (a, b) = (nd.bottom - l.arch.min_y, h as int);
            if a >= 0 {
                crate::arith::lemma_quot_bound(a, b);
            } else {
                crate::arith::lemma_quot_bound(-a, b);
            }
            crate::arith::lemma_quot_bound(nd.height as int, b);
        }
        let hi: i64 = lo + span - 1;
        let mut count: usize = if lo < 0 || hi >= rows { 1 } else { 0 };
        let first: i64 = if lo >= 0 { lo } else { 0 };
        let last: i64 = if hi <= rows - 1 { hi } else { rows - 1 };
        let mut r: i64 = first;
        let ghost c0 = count as int;
        let ghost all = l.off_sites_in(nd.left as int, first as int, last as int);
        while r <= last
            invariant
                l.wf(),
                nd.left == self@.nodes[k as int].left,
                rows == l.arch.rows@.len(),
                rows <= COORD_LIMIT,
                0 <= first <= r,
                last < rows,
                r <= last + 1 || r == first,
                0 <= c0 <= 1,
                c0 <= count <= c0 + (r - first),
                count + l.off_sites_in(nd.left as int, r as int, last as int) == c0 + all,
            decreases last + 1 - r,
        {
            let row = &l.arch.rows[r as usize];
            assert(l.arch.rows@[r as int].ok());
            proof {
                let (a, b) = (nd.left - row.left, row.site_spacing as int);
                if a >= 0 {
                    crate::arith::lemma_quot_bound(a, b);
                } else {
                    crate::arith::lemma_quot_bound(-a, b);
                }
                let q = trunc_quot(a, b);
                assert(-0x1_0000_0000 * 0x0800_0000 <= q * b <= 0x1_0000_0000 * 0x0800_0000) by (nonlinear_arith)
                    requires -0x1_0000_0000 <= q <= 0x1_0000_0000, 0 < b <= 0x0800_0000;
            }
            let q: i64 = div_trunc(nd.left as i64 - row.left as i64, row.site_spacing as i64);
            if nd.left as i64 != row.left as i64 + q * row.site_spacing as i64 {
                count = count + 1;
            }
            r = r + 1;
        }
        count
    }

    fn count_off_sites(&self, l: &Land) -> (r: u64)
        requires
            l.wf(),
            l.fits(self@),
        ensures
            r == l.off_sites_upto(self@, l.count()),
    {
        let ghost s = self@;
        let n: usize = l.sites.len();
        let mut count: u64 = 0;
        let mut k: usize = 0;
        while k < n
            invariant
                l.wf(),
                l.fits(self@),
                s == self@,
                n == l.count(),
                n <= COORD_LIMIT,
                k <= n,
                count == l.off_sites_upto(s, k as int),
                count <= k * (COORD_LIMIT + 1),
            decreases n - k,
        {
            let nd: &Node = &self.nodes[k];
            assert(s.homes[k as int] == self.cell_segs@[k as int]@);
            proof {
                assert((k + 1) * (COORD_LIMIT + 1) == k * (COORD_LIMIT + 1) + COORD_LIMIT + 1) by (nonlinear_arith);
                assert(k * (COORD_LIMIT + 1) <= COORD_LIMIT * (COORD_LIMIT + 1)) by (nonlinear_arith)
                    requires k <= COORD_LIMIT;
            }
            if nd.kind != Kind::Terminal && !nd.fixed && self.cell_segs[k].len() > 0 {
                count = count + self.off_sites_of(l, k) as u64;
            }
            k = k + 1;
        }
        count
    }

    fn count_overlaps(&self, l: &Land) -> (r: usize)
        requires
            l.wf(),
            l.fits(self@),
            2 * seated(self@, l.segments@.len() as int) <= usize::MAX,
        ensures
            r == l.overlaps_upto(self@, l.segments@.len() as int),
    {
        let ghost s = self@;
        let m: usize = l.segments.len();
        let mut count: usize = 0;
        let mut i: usize = 0;
        while i < m
            invariant
                l.wf(),
                l.fits(self@),
                s == self@,
                m == l.segments@.len(),
                i <= m,
                2 * seated(s, m as int) <= usize::MAX,
                count == l.overlaps_upto(s, i as int),
                count <= 2 * seated(s, i as int),
            decreases m - i,
        {
            assert(s.cells[i as int] == self.cells_in_seg@[i as int]@);
            assert(all_below(s.cells[i as int], l.count()));
            let t = self.sort_by_center(l, &self.cells_in_seg[i]);
            let g: Segment = l.segments[i];
            let ghost c0 = count as int;
            proof {
                lemma_seated(s, i + 1, m as int);
            }
            let mut k: usize = 0;
            while k < t.len()
                invariant
                    l.wf(),
                    l.fits(self@),
                    s == self@,
                    all_below(t@, l.count()),
                    k <= t@.len(),
                    c0 + 2 * t@.len() <= usize::MAX,
                    count == c0 + overlapping(s.nodes, t@, k as int) + sticking_out(s.nodes, t@, g, k as int),
                    c0 <= count <= c0 + 2 * k,
                decreases t@.len() - k,
            {
                let c: usize = t[k];
                if k > 0 {
                    if self.right_of(l, t[k - 1]) > self.nodes[c].left {
                        count = count + 1;
                    }
                }
                if self.nodes[c].left < g.min_x || self.right_of(l, c) > g.max_x {
                    count = count + 1;
                }
                k = k + 1;
            }
            i = i + 1;
        }
        count
    }

    fn count_cramped(&self, l: &Land) -> (r: (usize, usize))
        requires
            l.wf(),
            l.fits(self@),
            2 * seated(self@, l.segments@.len() as int) <= usize::MAX,
        ensures
            r.0 == l.breaking_upto(self@, l.segments@.len() as int),
            r.1 == l.cramped_upto(self@, l.segments@.len() as int),
    {
        let ghost s = self@;
        let m: usize = l.segments.len();
        let mut bad: usize = 0;
        let mut tight: usize = 0;
        let mut i: usize = 0;
        while i < m
            invariant
                l.wf(),
                l.fits(self@),
                s == self@,
                m == l.segments@.len(),
                i <= m,
                2 * seated(s, m as int) <= usize::MAX,
                bad == l.breaking_upto(s, i as int),
                tight == l.cramped_upto(s, i as int),
                bad <= seated(s, i as int),
                tight <= seated(s, i as int),
            decreases m - i,
        {
            assert(s.cells[i as int] == self.cells_in_seg@[i as int]@);
            assert(all_below(s.cells[i as int], l.count()));
            let t = self.sort_by_edge(l, &self.cells_in_seg[i]);
            let ghost b0 = bad as int;
            let ghost t0 = tight as int;
            proof {
                lemma_seated(s, i + 1, m as int);
            }
            let mut k: usize = 1;
            while k < t.len()
                invariant
                    l.wf(),
                    l.fits(self@),
                    s == self@,
                    all_below(t@, l.count()),
                    1 <= k,
                    k <= t@.len() || k == 1,
                    b0 + t@.len() <= usize::MAX,
                    t0 + t@.len() <= usize::MAX,
                    bad == b0 + l.breaking(s, t@, k as int),
                    tight == t0 + l.cramped(s, t@, k as int),
                    b0 <= bad <= b0 + k - 1,
                    t0 <= tight <= t0 + k - 1,
                decreases t@.len() - k,
            {
                let (a, b) = (t[k - 1], t[k]);
                assert(node_fits(s.nodes[a as int], s.pad_sites[a as int]) && node_fits(s.nodes[b as int], s.pad_sites[b as int]));
                if self.nodes[a].kind == Kind::Cell && self.has_placement_violation(l, a) {
                    bad = bad + 1;
                }
                if self.nodes[b].left as i64 - (self.right_of(l, a) as i64) < self.cell_spacing(l, Some(a), Some(b)) as i64 {
                    tight = tight + 1;
                }
                k = k + 1;
            }
            proof {
                if t@.len() <= 1 {
                    assert(l.breaking(s, t@, t@.len() as int) == 0);
                    assert(l.cramped(s, t@, t@.len() as int) == 0);
                }
            }
            i = i + 1;
        }
        (bad, tight)
    }

    /// Count what is wrong with where the cells lie: cells in segments of another region, cells that do
    /// not fill rows, cells on no site, overlaps, and cells that break a rule or have too little between
    /// them.
    pub fn run_checks(&self, l: &Land) -> (c: Checks)
        requires
            l.wf(),
            l.fits(self@),
            2 * seated(self@, l.segments@.len() as int) <= usize::MAX,
        ensures
            l.counted(self@, c),
    {
        let (edge_spacing, padding) = self.count_cramped(l);
        Checks {
            wrong_region: self.count_strangers(l),
            row_alignment: self.count_off_rows(l),
            site_alignment: self.count_off_sites(l),
            overlaps: self.count_overlaps(l),
            edge_spacing,
            padding,
        }
    }
}

/// More segments hold no fewer cells.
pub proof fn lemma_seated(s: St, a: int, b: int)
    requires
        0 <= a <= b,
    ensures
        0 <= seated(s, a) <= seated(s, b),
    decreases b,
{
    if a < b {
        lemma_seated(s, a, b - 1);
    } else if a > 0 {
        lemma_seated(s, a - 1, a - 1);
    }
}

} // verus!
