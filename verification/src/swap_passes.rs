//! Passes that move every cell once toward the middle of its nets.

use vstd::prelude::*;
use crate::arith::{div_floor, imax, imin};
use crate::checks::resorted;
use crate::land::{all_below, node_in, reachable, Land, Live, St};
use crate::moves::copy_list;
use crate::objective::{pin_at, Hpwl, Kept};
use crate::random::{shuffled, Mt19937, Twister};
use crate::rows::COORD_LIMIT;
use crate::segments::{lists, Segment};
use crate::sort::{in_order, sorted, Natural};

verus! {

// ── the middle of a cell's nets ──────────────────────────────────────────────────────────────

/// The box around the first `n` pins of a list that are not on a node, if there are any.
pub open spec fn box_without(s: St, list: Seq<usize>, nd: usize, n: int) -> Option<(int, int, int, int)>
    decreases n,
{
    if n <= 0 {
        None
    } else {
        let b = box_without(s, list, nd, n - 1);
        let (x, y) = pin_at(s, list[n - 1]);
        if s.pins[list[n - 1] as int].node == nd {
            b
        } else {
            match b {
                None => Some((x, x, y, y)),
                Some(r) => Some((imin(r.0, x), imax(r.1, x), imin(r.2, y), imax(r.3, y))),
            }
        }
    }
}

/// A number kept between two others, not below the lower one first.
pub open spec fn low_first(lo: int, hi: int, v: int) -> int {
    imin(imax(lo, v), hi)
}

/// A number kept between two others, not above the upper one first.
pub open spec fn high_first(lo: int, hi: int, v: int) -> int {
    imax(imin(hi, v), lo)
}

/// Numbers in order.
pub open spec fn in_rows(v: Seq<i32>) -> Seq<i32> {
    choose|s: Seq<i32>| in_order(s) && s.to_multiset() == v.to_multiset()
}

impl Land {
    /// The box of the net of a pin without its node's pins, if the net has 2 to 100 pins.
    pub open spec fn net_without(&self, s: St, nd: usize, p: usize) -> Option<(int, int, int, int)> {
        let list = self.edges@[s.pins[p as int].edge as int]@;
        if list.len() <= 1 || list.len() > 100 { None } else { box_without(s, list, nd, list.len() as int) }
    }

    /// The X where a node's centre could be for its first `n` pins: two for each net.
    pub open spec fn wished_x(&self, s: St, nd: usize, n: int) -> Seq<i32>
        decreases n,
    {
        if n <= 0 {
            Seq::empty()
        } else {
            let v = self.wished_x(s, nd, n - 1);
            let p = self.node_pins@[nd as int]@[n - 1];
            let (lo, hi) = (self.arch.min_x as int, self.arch.max_x as int);
            match self.net_without(s, nd, p) {
                None => v,
                Some(b) => v.push(low_first(lo, hi, b.0 - s.pins[p as int].ox) as i32).push(high_first(lo, hi, b.1 - s.pins[p as int].ox) as i32),
            }
        }
    }

    /// The Y where a node's centre could be for its first `n` pins: two for each net.
    pub open spec fn wished_y(&self, s: St, nd: usize, n: int) -> Seq<i32>
        decreases n,
    {
        if n <= 0 {
            Seq::empty()
        } else {
            let v = self.wished_y(s, nd, n - 1);
            let p = self.node_pins@[nd as int]@[n - 1];
            let (lo, hi) = (self.arch.min_y as int, self.arch.max_y as int);
            match self.net_without(s, nd, p) {
                None => v,
                Some(b) => v.push(low_first(lo, hi, b.2 - s.pins[p as int].oy) as i32).push(high_first(lo, hi, b.3 - s.pins[p as int].oy) as i32),
            }
        }
    }

    /// The median box of where a node's nets would have its centre, if it has nets.
    pub open spec fn median_box(&self, s: St, nd: usize) -> Option<(int, int, int, int)> {
        let n = self.node_pins@[nd as int]@.len() as int;
        let (xs, ys) = (in_rows(self.wished_x(s, nd, n)), in_rows(self.wished_y(s, nd, n)));
        let mid = xs.len() as int / 2;
        if xs.len() <= 1 { None } else { Some((xs[mid - 1] as int, ys[mid - 1] as int, xs[mid] as int, ys[mid] as int)) }
    }

    /// Whether a node's centre lies in a box.
    pub open spec fn centred(&self, s: St, nd: usize, b: (int, int, int, int)) -> bool {
        let n = s.nodes[nd as int];
        let (x, y) = (2 * n.left + n.width, 2 * n.bottom + n.height);
        2 * b.0 <= x <= 2 * b.2 && 2 * b.1 <= y <= 2 * b.3
    }

    /// The first segment over a place in a row.
    pub open spec fn seg_holding(&self, row: int, x: int, k: int) -> Option<usize>
        decreases self.segs_in_row@[row]@.len() - k,
    {
        let v = self.segs_in_row@[row]@;
        if k < 0 || k >= v.len() {
            None
        } else if self.segments@[v[k] as int].min_x <= x <= self.segments@[v[k] as int].max_x {
            Some(v[k])
        } else {
            self.seg_holding(row, x, k + 1)
        }
    }

    /// The segment of a node's region over a place in a row: the first one over it, if it is of the
    /// region.
    pub open spec fn own_seg(&self, s: St, nd: usize, row: int, x: int) -> Option<usize> {
        match self.seg_holding(row, x, 0) {
            Some(g) => if s.nodes[nd as int].group == self.segments@[g as int].reg { Some(g) } else { None },
            None => None,
        }
    }
}

/// One side of a box drawn in to a reach: where the reach does not get to the box, the part of the
/// reach toward it.
pub open spec fn drawn_in(lo: int, hi: int, at: int, reach: int) -> (int, int) {
    if at + reach <= lo {
        (at, at + reach)
    } else if at - reach >= hi {
        (at - reach, at)
    } else {
        (imax(lo, at - reach), imin(hi, at + reach))
    }
}

/// The place where a cell of some size is in the middle of a span.
pub open spec fn mid_place(lo: int, hi: int, size: int) -> int {
    (lo + hi - size) / 2
}

impl Land {
    /// Where a global swap takes a cell: the middle of the median box, drawn in to how far the cell may
    /// move. Its segment, the X and the segment there.
    pub open spec fn global_target(&self, s: St, nd: usize) -> Option<(usize, int, usize)> {
        let n = s.nodes[nd as int];
        match self.median_box(s, nd) {
            None => None,
            Some(b) => if self.centred(s, nd, b) || s.homes[nd as int].len() != 1 {
                None
            } else {
                let (x0, x1) = drawn_in(b.0, b.2, n.left as int, self.max_disp.0 as int);
                let (y0, y1) = drawn_in(b.1, b.3, n.bottom as int, self.max_disp.1 as int);
                let x = mid_place(x0, x1, n.width as int);
                let row = self.arch.closest(mid_place(y0, y1, n.height as int));
                match self.own_seg(s, nd, row, x) {
                    Some(g) => Some((s.homes[nd as int][0], x, g)),
                    None => None,
                }
            },
        }
    }

    /// The rows a vertical swap may take a cell to: one or two up, or one or two down.
    pub open spec fn near_rows(&self, row: int, up: bool) -> (int, int) {
        let top = self.arch.rows@.len() - 1;
        if up { (imin(top, row + 1), imin(top, row + 2)) } else { (imax(0, row - 2), imax(0, row - 1)) }
    }

    /// Where a vertical swap takes a cell: toward the middle of the median box, but only one or two
    /// rows, a random one of the two. `None` without a draw, or with one.
    pub open spec fn vertical_target(&self, s: St, t: Twister, nd: usize) -> (Option<(usize, int, usize)>, Twister) {
        let n = s.nodes[nd as int];
        match self.median_box(s, nd) {
            None => (None, t),
            Some(b) => if self.centred(s, nd, b) || s.homes[nd as int].len() != 1 {
                (None, t)
            } else {
                let x = mid_place(b.0, b.2, n.width as int);
                let y = mid_place(b.1, b.3, n.height as int);
                let r = self.near_rows(self.segments@[s.homes[nd as int][0] as int].row as int, 2 * y > 2 * n.bottom + n.height);
                let row = r.0 + t.below(r.1 - r.0 + 1);
                (match self.own_seg(s, nd, row, x) {
                    Some(g) => Some((s.homes[nd as int][0], x, g)),
                    None => None,
                }, t.next())
            },
        }
    }

    /// A cell moved to a target, or swapped with the cell there.
    pub open spec fn moved_or_swapped(&self, s: St, nd: usize, target: Option<(usize, int, usize)>) -> (bool, St) {
        match target {
            None => (false, s),
            Some(g) => {
                let left = s.nodes[nd as int].left;
                let m = self.tried_move(s, nd, g.0, g.1 as i32, g.2);
                if m.0 { m } else { self.tried_swap(m.1, nd, left, g.0, g.1 as i32, g.2) }
            },
        }
    }

    /// The state and the lengths kept after a cell was moved to a target if that holds and does not make
    /// the nets longer.
    pub open spec fn stepped(&self, s: St, k: Kept, nd: usize, target: Option<(usize, int, usize)>) -> (St, Kept) {
        let m = self.moved_or_swapped(s, nd, target);
        if m.0 {
            let d = self.decided(m.1, k);
            (d.0, d.1)
        } else {
            (m.1, k)
        }
    }

    /// The state and the lengths kept after global swaps of the first `n` cells of a list.
    pub open spec fn global_upto(&self, s: St, k: Kept, list: Seq<usize>, n: int) -> (St, Kept)
        decreases n,
    {
        if n <= 0 {
            (s, k)
        } else {
            let p = self.global_upto(s, k, list, n - 1);
            self.stepped(p.0, p.1, list[n - 1], self.global_target(p.0, list[n - 1]))
        }
    }

    /// The same after vertical swaps, with the state of the generator.
    pub open spec fn vertical_upto(&self, s: St, k: Kept, t: Twister, list: Seq<usize>, n: int) -> (St, Kept, Twister)
        decreases n,
    {
        if n <= 0 {
            (s, k, t)
        } else {
            let p = self.vertical_upto(s, k, t, list, n - 1);
            let g = self.vertical_target(p.0, p.2, list[n - 1]);
            let q = self.stepped(p.0, p.1, list[n - 1], g.0);
            (q.0, q.1, g.1)
        }
    }

    /// The lengths at the start of a pass.
    pub open spec fn fresh(&self, s: St) -> Kept {
        Kept { edge: self.measured(s, Seq::new(self.edges@.len(), |e: int| 0u64), self.edges@.len() as int), pending: Seq::empty() }
    }

    /// The state after a pass of global swaps over some cells, and that of the generator: the segments
    /// are put in order, and each cell has its turn, in random order.
    pub open spec fn global_pass(&self, s: St, t: Twister, single: Seq<usize>) -> (St, Twister) {
        let a = resorted(s, self.segments@.len() as int);
        let o = shuffled(t, single, 1, single.len() as int);
        (self.global_upto(a, self.fresh(a), o.0, single.len() as int).0, o.1)
    }

    /// The state after a pass of vertical swaps over some cells, and that of the generator.
    pub open spec fn vertical_pass(&self, s: St, t: Twister, single: Seq<usize>) -> (St, Twister) {
        let a = resorted(s, self.segments@.len() as int);
        let o = shuffled(t, single, 1, single.len() as int);
        let r = self.vertical_upto(a, self.fresh(a), o.1, o.0, single.len() as int);
        (r.0, r.2)
    }
}

// ── execution ────────────────────────────────────────────────────────────────────────────────

fn keep_low_first(lo: i32, hi: i32, v: i32) -> (r: i32)
    ensures
        r == low_first(lo as int, hi as int, v as int),
{
    let a: i32 = if lo >= v { lo } else { v };
    if a <= hi { a } else { hi }
}

fn keep_high_first(lo: i32, hi: i32, v: i32) -> (r: i32)
    ensures
        r == high_first(lo as int, hi as int, v as int),
{
    let a: i32 = if hi <= v { hi } else { v };
    if a >= lo { a } else { lo }
}

fn draw_in(lo: i64, hi: i64, at: i64, reach: i64) -> (r: (i64, i64))
    requires
        -0x1_0000_0000 <= lo <= 0x1_0000_0000,
        -0x1_0000_0000 <= hi <= 0x1_0000_0000,
        -0x1_0000_0000 <= at <= 0x1_0000_0000,
        -0x1_0000_0000 <= reach <= 0x1_0000_0000,
    ensures
        (r.0 as int, r.1 as int) == drawn_in(lo as int, hi as int, at as int, reach as int),
        -0x2_0000_0000 <= r.0 <= 0x2_0000_0000,
        -0x2_0000_0000 <= r.1 <= 0x2_0000_0000,
{
    if at + reach <= lo {
        (at, at + reach)
    } else if at - reach >= hi {
        (at - reach, at)
    } else {
        (if lo >= at - reach { lo } else { at - reach }, if hi <= at + reach { hi } else { at + reach })
    }
}

/// Coordinates between the sides of the box around the rows.
spec fn in_span(v: Seq<i32>, lo: int, hi: int) -> bool {
    forall|k: int| 0 <= k < v.len() ==> imin(lo, hi) <= #[trigger] v[k] <= imax(lo, hi)
}

proof fn lemma_push_span(v: Seq<i32>, x: i32, lo: int, hi: int)
    requires
        in_span(v, lo, hi),
        imin(lo, hi) <= x <= imax(lo, hi),
    ensures
        in_span(v.push(x), lo, hi),
{
}

fn put_in_rows(v: &Vec<i32>, lo: i32, hi: i32) -> (r: Vec<i32>)
    requires
        in_span(v@, lo as int, hi as int),
    ensures
        r@ == in_rows(v@),
        r@.len() == v@.len(),
        in_span(r@, lo as int, hi as int),
{
    let r = sorted(v);
    proof {
        let c = in_rows(v@);
        crate::sort::lemma_ascending_unique(Natural, c, r@);
        let p = |x: i32| imin(lo as int, hi as int) <= x <= imax(lo as int, hi as int);
        crate::sort::lemma_rearranged(v@, r@, p);
        assert forall|k: int| 0 <= k < r@.len() implies imin(lo as int, hi as int) <= #[trigger] r@[k] <= imax(lo as int, hi as int) by {
            assert(p(r@[k]));
        }
    }
    r
}

impl Live {
    /// The box of the net of a pin without its node's pins, if the net has 2 to 100 pins.
    fn others_box(&self, l: &Land, nd: usize, p: usize) -> (r: Option<(i32, i32, i32, i32)>)
        requires
            l.wf(),
            l.ok(self@),
            nd < l.count(),
            p < self@.pins.len(),
        ensures
            r is Some <==> l.net_without(self@, nd, p) is Some,
            r matches Some(b) ==> l.net_without(self@, nd, p) == Some((b.0 as int, b.1 as int, b.2 as int, b.3 as int))
                && -8 * COORD_LIMIT <= b.0 <= 8 * COORD_LIMIT && -8 * COORD_LIMIT <= b.1 <= 8 * COORD_LIMIT
                && -8 * COORD_LIMIT <= b.2 <= 8 * COORD_LIMIT && -8 * COORD_LIMIT <= b.3 <= 8 * COORD_LIMIT,
    {
        let ghost s = self@;
        let e: usize = self.pins[p].edge;
        assert(s.pins[p as int].edge < l.edges@.len());
        let list = &l.edges[e];
        assert(lists(l.edges@)[e as int] == list@);
        if list.len() <= 1 || list.len() > 100 {
            return None;
        }
        let mut b: Option<(i32, i32, i32, i32)> = None;
        let mut k: usize = 0;
        while k < list.len()
            invariant
                l.wf(),
                l.ok(self@),
                s == self@,
                all_below(list@, s.pins.len() as int),
                k <= list@.len(),
                b is Some <==> box_without(s, list@, nd, k as int) is Some,
                b matches Some(q) ==> box_without(s, list@, nd, k as int) == Some((q.0 as int, q.1 as int, q.2 as int, q.3 as int))
                    && -8 * COORD_LIMIT <= q.0 <= 8 * COORD_LIMIT && -8 * COORD_LIMIT <= q.1 <= 8 * COORD_LIMIT
                    && -8 * COORD_LIMIT <= q.2 <= 8 * COORD_LIMIT && -8 * COORD_LIMIT <= q.3 <= 8 * COORD_LIMIT,
            decreases list@.len() - k,
        {
            if self.pins[list[k]].node != nd {
                let (x, y) = self.pin_place(l, list[k]);
                b = match b {
                    None => Some((x, x, y, y)),
                    Some(q) => Some((
                        if q.0 <= x { q.0 } else { x },
                        if q.1 >= x { q.1 } else { x },
                        if q.2 <= y { q.2 } else { y },
                        if q.3 >= y { q.3 } else { y },
                    )),
                };
            }
            k = k + 1;
        }
        b
    }

    /// The median box of where a cell's nets would have its centre, if it has nets: least X and Y, then
    /// greatest X and Y.
    pub fn gs_range(&self, l: &Land, nd: usize) -> (r: Option<(i32, i32, i32, i32)>)
        requires
            l.wf(),
            l.ok(self@),
            nd < l.count(),
        ensures
            r is Some <==> l.median_box(self@, nd) is Some,
            r matches Some(b) ==> l.median_box(self@, nd) == Some((b.0 as int, b.1 as int, b.2 as int, b.3 as int))
                && -COORD_LIMIT <= b.0 <= COORD_LIMIT && -COORD_LIMIT <= b.1 <= COORD_LIMIT
                && -COORD_LIMIT <= b.2 <= COORD_LIMIT && -COORD_LIMIT <= b.3 <= COORD_LIMIT,
    {
        let ghost s = self@;
        let a = &l.arch;
        let pins = &l.node_pins[nd];
        assert(lists(l.node_pins@)[nd as int] == pins@);
        let mut xs: Vec<i32> = Vec::new();
        let mut ys: Vec<i32> = Vec::new();
        let mut k: usize = 0;
        while k < pins.len()
            invariant
                l.wf(),
                l.ok(self@),
                s == self@,
                nd < l.count(),
                *a == l.arch,
                pins@ == l.node_pins@[nd as int]@,
                all_below(pins@, s.pins.len() as int),
                k <= pins@.len(),
                xs@ == l.wished_x(s, nd, k as int),
                ys@ == l.wished_y(s, nd, k as int),
                xs@.len() == ys@.len(),
                in_span(xs@, a.min_x as int, a.max_x as int),
                in_span(ys@, a.min_y as int, a.max_y as int),
            decreases pins@.len() - k,
        {
            let p: usize = pins[k];
            if let Some(b) = self.others_box(l, nd, p) {
                let q = &self.pins[p];
                assert(crate::rows::small(s.pins[p as int].ox as int) && crate::rows::small(s.pins[p as int].oy as int));
                let x0: i32 = keep_low_first(a.min_x, a.max_x, b.0 - q.ox);
                let x1: i32 = keep_high_first(a.min_x, a.max_x, b.1 - q.ox);
                let y0: i32 = keep_low_first(a.min_y, a.max_y, b.2 - q.oy);
                let y1: i32 = keep_high_first(a.min_y, a.max_y, b.3 - q.oy);
                proof {
                    lemma_push_span(xs@, x0, a.min_x as int, a.max_x as int);
                    lemma_push_span(xs@.push(x0), x1, a.min_x as int, a.max_x as int);
                    lemma_push_span(ys@, y0, a.min_y as int, a.max_y as int);
                    lemma_push_span(ys@.push(y0), y1, a.min_y as int, a.max_y as int);
                }
                xs.push(x0);
                xs.push(x1);
                ys.push(y0);
                ys.push(y1);
            }
            k = k + 1;
        }
        let sx = put_in_rows(&xs, a.min_x, a.max_x);
        let sy = put_in_rows(&ys, a.min_y, a.max_y);
        let t: usize = sx.len();
        if t <= 1 {
            return None;
        }
        let mid: usize = t / 2;
        assert(imin(a.min_x as int, a.max_x as int) <= sx@[mid - 1] && imin(a.min_x as int, a.max_x as int) <= sx@[mid as int]);
        assert(imin(a.min_y as int, a.max_y as int) <= sy@[mid - 1] && imin(a.min_y as int, a.max_y as int) <= sy@[mid as int]);
        Some((sx[mid - 1], sy[mid - 1], sx[mid], sy[mid]))
    }

    fn is_centred(&self, l: &Land, nd: usize, b: (i32, i32, i32, i32)) -> (r: bool)
        requires
            l.wf(),
            l.ok(self@),
            nd < l.count(),
        ensures
            r == l.centred(self@, nd, (b.0 as int, b.1 as int, b.2 as int, b.3 as int)),
    {
        let n = &self.nodes[nd];
        let x: i64 = 2 * n.left as i64 + n.width as i64;
        let y: i64 = 2 * n.bottom as i64 + n.height as i64;
        2 * b.0 as i64 <= x && x <= 2 * b.2 as i64 && 2 * b.1 as i64 <= y && y <= 2 * b.3 as i64
    }

    fn own_seg_at(&self, l: &Land, nd: usize, row: usize, x: i32) -> (r: Option<usize>)
        requires
            l.wf(),
            l.ok(self@),
            nd < l.count(),
            row < l.arch.rows@.len(),
        ensures
            r == l.own_seg(self@, nd, row as int, x as int),
            r matches Some(g) ==> g < l.segments@.len(),
    {
        let v = &l.segs_in_row[row];
        assert(lists(l.segs_in_row@)[row as int] == v@);
        let mut k: usize = 0;
        while k < v.len()
            invariant
                l.wf(),
                l.ok(self@),
                nd < l.count(),
                row < l.arch.rows@.len(),
                v@ == l.segs_in_row@[row as int]@,
                all_below(v@, l.segments@.len() as int),
                k <= v@.len(),
                l.seg_holding(row as int, x as int, k as int) == l.seg_holding(row as int, x as int, 0),
            decreases v@.len() - k,
        {
            let g: &Segment = &l.segments[v[k]];
            if x >= g.min_x && x <= g.max_x {
                return if self.nodes[nd].group == g.reg { Some(v[k]) } else { None };
            }
            k = k + 1;
        }
        None
    }

    /// Where a global swap takes a cell: its segment, the X and the segment there.
    pub fn gs_target(&self, l: &Land, nd: usize) -> (r: Option<(usize, i32, usize)>)
        requires
            l.wf(),
            l.ok(self@),
            nd < l.count(),
        ensures
            match l.global_target(self@, nd) {
                None => r is None,
                Some(g) => r == Some((g.0, g.1 as i32, g.2)) && i32::MIN <= g.1 <= i32::MAX,
            },
            r matches Some(g) ==> g.0 < l.segments@.len() && g.2 < l.segments@.len(),
    {
        let ghost s = self@;
        assert(node_in(s.nodes[nd as int]));
        let b = match self.gs_range(l, nd) {
            Some(b) => b,
            None => return None,
        };
        assert(s.homes[nd as int] == self.cell_segs@[nd as int]@);
        if self.is_centred(l, nd, b) || self.cell_segs[nd].len() != 1 {
            return None;
        }
        assert(all_below(s.homes[nd as int], l.segments@.len() as int));
        let n = &self.nodes[nd];
        let (x0, x1) = draw_in(b.0 as i64, b.2 as i64, n.left as i64, l.max_disp.0 as i64);
        let (y0, y1) = draw_in(b.1 as i64, b.3 as i64, n.bottom as i64, l.max_disp.1 as i64);
        let x: i64 = div_floor(x0 + x1 - n.width as i64, 2);
        let y: i64 = div_floor(y0 + y1 - n.height as i64, 2);
        proof {
            lemma_drawn(b.0 as int, b.2 as int, n.left as int, l.max_disp.0 as int);
            lemma_drawn(b.1 as int, b.3 as int, n.bottom as int, l.max_disp.1 as int);
        }
        let row: usize = l.arch.find_closest_row(y as i32);
        match self.own_seg_at(l, nd, row, x as i32) {
            Some(g) => Some((self.cell_segs[nd][0], x as i32, g)),
            None => None,
        }
    }

    /// Where a vertical swap takes a cell. A row is drawn where the cell is not in the middle of its nets
    /// and is in one segment.
    pub fn vs_target(&self, l: &Land, rng: &mut Mt19937, nd: usize) -> (r: Option<(usize, i32, usize)>)
        requires
            l.wf(),
            l.ok(self@),
            nd < l.count(),
            old(rng)@.wf(),
        ensures
            final(rng)@.wf(),
            final(rng)@ == l.vertical_target(self@, old(rng)@, nd).1,
            match l.vertical_target(self@, old(rng)@, nd).0 {
                None => r is None,
                Some(g) => r == Some((g.0, g.1 as i32, g.2)) && i32::MIN <= g.1 <= i32::MAX,
            },
            r matches Some(g) ==> g.0 < l.segments@.len() && g.2 < l.segments@.len(),
    {
        let ghost s = self@;
        assert(node_in(s.nodes[nd as int]));
        let b = match self.gs_range(l, nd) {
            Some(b) => b,
            None => return None,
        };
        assert(s.homes[nd as int] == self.cell_segs@[nd as int]@);
        if self.is_centred(l, nd, b) || self.cell_segs[nd].len() != 1 {
            return None;
        }
        assert(all_below(s.homes[nd as int], l.segments@.len() as int));
        let n = &self.nodes[nd];
        let si: usize = self.cell_segs[nd][0];
        let ri: i64 = l.segments[si].row as i64;
        let x: i64 = div_floor(b.0 as i64 + b.2 as i64 - n.width as i64, 2);
        let y: i64 = div_floor(b.1 as i64 + b.3 as i64 - n.height as i64, 2);
        let top: i64 = l.arch.rows.len() as i64 - 1;
        let (lo, hi): (i64, i64) = if 2 * y > 2 * n.bottom as i64 + n.height as i64 {
            (if top <= ri + 1 { top } else { ri + 1 }, if top <= ri + 2 { top } else { ri + 2 })
        } else {
            (if 0 >= ri - 2 { 0 } else { ri - 2 }, if 0 >= ri - 1 { 0 } else { ri - 1 })
        };
        let row: usize = lo as usize + rng.get_random((hi - lo + 1) as usize);
        match self.own_seg_at(l, nd, row, x as i32) {
            Some(g) => Some((si, x as i32, g)),
            None => None,
        }
    }

    /// Move a cell to a target, or swap it with the cell there.
    pub fn move_or_swap(&mut self, l: &Land, nd: usize, si: usize, x: i32, sj: usize) -> (r: bool)
        requires
            l.wf(),
            l.ok(old(self)@),
            nd < l.count(),
            si < l.segments@.len(),
            sj < l.segments@.len(),
        ensures
            l.ok(final(self)@),
            (r, final(self)@) == l.moved_or_swapped(old(self)@, nd, Some((si, x as int, sj))),
    {
        let left: i32 = self.nodes[nd].left;
        if self.try_move(l, nd, si, x, sj) {
            return true;
        }
        self.try_swap(l, nd, left, si, x, sj)
    }
}

proof fn lemma_drawn(lo: int, hi: int, at: int, reach: int)
    requires
        -COORD_LIMIT <= lo <= COORD_LIMIT,
        -COORD_LIMIT <= hi <= COORD_LIMIT,
        reachable(at),
        -4 * COORD_LIMIT <= reach <= 4 * COORD_LIMIT,
    ensures
        -10 * COORD_LIMIT <= drawn_in(lo, hi, at, reach).0 <= 10 * COORD_LIMIT,
        -10 * COORD_LIMIT <= drawn_in(lo, hi, at, reach).1 <= 10 * COORD_LIMIT,
{
}

/// One pass of global swaps: every cell of a list has its turn once, in random order, and a move stays
/// where it does not make the nets longer.
pub fn global_swap_pass(l: &Land, live: &mut Live, rng: &mut Mt19937, single: &Vec<usize>)
    requires
        l.wf(),
        l.ok(old(live)@),
        old(rng)@.wf(),
        all_below(single@, l.count()),
    ensures
        l.ok(final(live)@),
        final(rng)@.wf(),
        (final(live)@, final(rng)@) == l.global_pass(old(live)@, old(rng)@, single@),
{
    live.resort_segments(l);
    let ghost a = live@;
    let ghost t0 = rng@;
    let mut list = copy_list(single);
    rng.shuffle(&mut list);
    proof {
        let p = |v: usize| v < l.count();
        crate::sort::lemma_rearranged(single@, list@, p);
        assert forall|k: int| 0 <= k < list@.len() implies #[trigger] list@[k] < l.count() by {
            assert(p(list@[k]));
        }
    }
    let mut obj = Hpwl::new(l);
    let start: i64 = obj.curr(l, live);
    assert(obj@.pending =~= Seq::empty());
    assert(obj@ == l.fresh(a));
    let mut k: usize = 0;
    while k < list.len()
        invariant
            l.wf(),
            l.ok(live@),
            l.kept_ok(obj@),
            all_below(list@, l.count()),
            k <= list@.len(),
            (live@, obj@) == l.global_upto(a, l.fresh(a), list@, k as int),
        decreases list@.len() - k,
    {
        let nd: usize = list[k];
        if let Some(g) = live.gs_target(l, nd) {
            if live.move_or_swap(l, nd, g.0, g.1, g.2) {
                let gain: i64 = obj.decide(l, live);
            }
        }
        k = k + 1;
    }
}

/// One pass of vertical swaps: every cell of a list has its turn once, in random order, and a move stays
/// where it does not make the nets longer.
pub fn vertical_swap_pass(l: &Land, live: &mut Live, rng: &mut Mt19937, single: &Vec<usize>)
    requires
        l.wf(),
        l.ok(old(live)@),
        old(rng)@.wf(),
        all_below(single@, l.count()),
    ensures
        l.ok(final(live)@),
        final(rng)@.wf(),
        (final(live)@, final(rng)@) == l.vertical_pass(old(live)@, old(rng)@, single@),
{
    live.resort_segments(l);
    let ghost a = live@;
    let mut list = copy_list(single);
    rng.shuffle(&mut list);
    let ghost t1 = rng@;
    proof {
        let p = |v: usize| v < l.count();
        crate::sort::lemma_rearranged(single@, list@, p);
        assert forall|k: int| 0 <= k < list@.len() implies #[trigger] list@[k] < l.count() by {
            assert(p(list@[k]));
        }
    }
    let mut obj = Hpwl::new(l);
    let start: i64 = obj.curr(l, live);
    assert(obj@.pending =~= Seq::empty());
    assert(obj@ == l.fresh(a));
    let mut k: usize = 0;
    while k < list.len()
        invariant
            l.wf(),
            l.ok(live@),
            l.kept_ok(obj@),
            rng@.wf(),
            all_below(list@, l.count()),
            k <= list@.len(),
            (live@, obj@, rng@) == l.vertical_upto(a, l.fresh(a), t1, list@, k as int),
        decreases list@.len() - k,
    {
        let nd: usize = list[k];
        if let Some(g) = live.vs_target(l, rng, nd) {
            if live.move_or_swap(l, nd, g.0, g.1, g.2) {
                let gain: i64 = obj.decide(l, live);
            }
        }
        k = k + 1;
    }
}

// ── passes until little changes ──────────────────────────────────────────────────────────────

/// How many passes a stage makes at most.
pub const PASSES: usize = 10;

/// The numbers of a list.
pub open spec fn wholes(v: Seq<u64>) -> Seq<int> {
    Seq::new(v.len(), |k: int| v[k] as int)
}

/// Whether a change of length is at most one hundredth.
pub open spec fn little(last: int, now: int) -> bool {
    last == 0 || 100 * crate::arith::dist(now, last) <= last
}

impl Land {
    /// The state after passes of global swaps until the length changes little, at most `n` of them.
    pub open spec fn global_passes(&self, s: St, t: Twister, single: Seq<usize>, n: int) -> (St, Twister)
        decreases n,
    {
        if n <= 0 {
            (s, t)
        } else {
            let p = self.global_pass(s, t, single);
            if little(self.wire_length(s), self.wire_length(p.0)) { p } else { self.global_passes(p.0, p.1, single, n - 1) }
        }
    }

    /// The lengths of the nets after each of these passes.
    pub open spec fn global_lengths(&self, s: St, t: Twister, single: Seq<usize>, n: int) -> Seq<int>
        decreases n,
    {
        if n <= 0 {
            Seq::empty()
        } else {
            let p = self.global_pass(s, t, single);
            let now = self.wire_length(p.0);
            seq![now] + (if little(self.wire_length(s), now) { Seq::empty() } else { self.global_lengths(p.0, p.1, single, n - 1) })
        }
    }

    /// The state after passes of vertical swaps until the length changes little, at most `n` of them.
    pub open spec fn vertical_passes(&self, s: St, t: Twister, single: Seq<usize>, n: int) -> (St, Twister)
        decreases n,
    {
        if n <= 0 {
            (s, t)
        } else {
            let p = self.vertical_pass(s, t, single);
            if little(self.wire_length(s), self.wire_length(p.0)) { p } else { self.vertical_passes(p.0, p.1, single, n - 1) }
        }
    }

    /// The lengths of the nets after each of these passes.
    pub open spec fn vertical_lengths(&self, s: St, t: Twister, single: Seq<usize>, n: int) -> Seq<int>
        decreases n,
    {
        if n <= 0 {
            Seq::empty()
        } else {
            let p = self.vertical_pass(s, t, single);
            let now = self.wire_length(p.0);
            seq![now] + (if little(self.wire_length(s), now) { Seq::empty() } else { self.vertical_lengths(p.0, p.1, single, n - 1) })
        }
    }
}

/// Whether a change of length is at most one hundredth.
pub fn changes_little(last: u64, now: u64) -> (r: bool)
    requires
        last <= COORD_LIMIT * (32 * COORD_LIMIT),
        now <= COORD_LIMIT * (32 * COORD_LIMIT),
    ensures
        r == little(last as int, now as int),
{
    let d: u64 = if now >= last { now - last } else { last - now };
    last == 0 || 100 * (d as u128) <= last as u128
}

/// Passes of global swaps until the length of the nets changes little. Nothing happens where the nets
/// have no length. The lengths of the nets before and after each pass.
pub fn global_swap(l: &Land, live: &mut Live, rng: &mut Mt19937, single: &Vec<usize>) -> (r: Vec<u64>)
    requires
        l.wf(),
        l.ok(old(live)@),
        old(rng)@.wf(),
        all_below(single@, l.count()),
    ensures
        l.ok(final(live)@),
        final(rng)@.wf(),
        (final(live)@, final(rng)@) == (if l.wire_length(old(live)@) == 0 {
            (old(live)@, old(rng)@)
        } else {
            l.global_passes(old(live)@, old(rng)@, single@, PASSES as int)
        }),
        wholes(r@) == seq![l.wire_length(old(live)@)] + (if l.wire_length(old(live)@) == 0 {
            Seq::empty()
        } else {
            l.global_lengths(old(live)@, old(rng)@, single@, PASSES as int)
        }),
{
    let mut last: u64 = live.total_hpwl_xy(l);
    let mut r: Vec<u64> = Vec::new();
    r.push(last);
    let ghost all = l.global_lengths(live@, rng@, single@, PASSES as int);
    if last == 0 {
        assert(wholes(r@) =~= seq![l.wire_length(old(live)@)]);
        return r;
    }
    assert(wholes(r@) + all =~= seq![l.wire_length(old(live)@)] + all);
    let mut left: usize = PASSES;
    while left > 0
        invariant
            l.wf(),
            l.ok(live@),
            rng@.wf(),
            all_below(single@, l.count()),
            last == l.wire_length(live@),
            last <= COORD_LIMIT * (32 * COORD_LIMIT),
            l.wire_length(old(live)@) != 0,
            all == l.global_lengths(old(live)@, old(rng)@, single@, PASSES as int),
            l.global_passes(live@, rng@, single@, left as int) == l.global_passes(old(live)@, old(rng)@, single@, PASSES as int),
            wholes(r@) + l.global_lengths(live@, rng@, single@, left as int) == seq![l.wire_length(old(live)@)] + all,
        decreases left,
    {
        global_swap_pass(l, live, rng, single);
        let now: u64 = live.total_hpwl_xy(l);
        let ghost r0 = r@;
        r.push(now);
        if changes_little(last, now) {
            assert(wholes(r@) =~= wholes(r0) + seq![now as int]);
            return r;
        }
        proof {
            let rest = l.global_lengths(live@, rng@, single@, left - 1);
            assert(wholes(r@) + rest =~= wholes(r0) + (seq![now as int] + rest));
        }
        last = now;
        left = left - 1;
    }
    assert(wholes(r@) + Seq::<int>::empty() =~= wholes(r@));
    r
}

/// Passes of vertical swaps until the length of the nets changes little. Nothing happens where the nets
/// have no length. The lengths of the nets before and after each pass.
pub fn vertical_swap(l: &Land, live: &mut Live, rng: &mut Mt19937, single: &Vec<usize>) -> (r: Vec<u64>)
    requires
        l.wf(),
        l.ok(old(live)@),
        old(rng)@.wf(),
        all_below(single@, l.count()),
    ensures
        l.ok(final(live)@),
        final(rng)@.wf(),
        (final(live)@, final(rng)@) == (if l.wire_length(old(live)@) == 0 {
            (old(live)@, old(rng)@)
        } else {
            l.vertical_passes(old(live)@, old(rng)@, single@, PASSES as int)
        }),
        wholes(r@) == seq![l.wire_length(old(live)@)] + (if l.wire_length(old(live)@) == 0 {
            Seq::empty()
        } else {
            l.vertical_lengths(old(live)@, old(rng)@, single@, PASSES as int)
        }),
{
    let mut last: u64 = live.total_hpwl_xy(l);
    let mut r: Vec<u64> = Vec::new();
    r.push(last);
    let ghost all = l.vertical_lengths(live@, rng@, single@, PASSES as int);
    if last == 0 {
        assert(wholes(r@) =~= seq![l.wire_length(old(live)@)]);
        return r;
    }
    assert(wholes(r@) + all =~= seq![l.wire_length(old(live)@)] + all);
    let mut left: usize = PASSES;
    while left > 0
        invariant
            l.wf(),
            l.ok(live@),
            rng@.wf(),
            all_below(single@, l.count()),
            last == l.wire_length(live@),
            last <= COORD_LIMIT * (32 * COORD_LIMIT),
            l.wire_length(old(live)@) != 0,
            all == l.vertical_lengths(old(live)@, old(rng)@, single@, PASSES as int),
            l.vertical_passes(live@, rng@, single@, left as int) == l.vertical_passes(old(live)@, old(rng)@, single@, PASSES as int),
            wholes(r@) + l.vertical_lengths(live@, rng@, single@, left as int) == seq![l.wire_length(old(live)@)] + all,
        decreases left,
    {
        vertical_swap_pass(l, live, rng, single);
        let now: u64 = live.total_hpwl_xy(l);
        let ghost r0 = r@;
        r.push(now);
        if changes_little(last, now) {
            assert(wholes(r@) =~= wholes(r0) + seq![now as int]);
            return r;
        }
        proof {
            let rest = l.vertical_lengths(live@, rng@, single@, left - 1);
            assert(wholes(r@) + rest =~= wholes(r0) + (seq![now as int] + rest));
        }
        last = now;
        left = left - 1;
    }
    assert(wholes(r@) + Seq::<int>::empty() =~= wholes(r@));
    r
}

} // verus!
