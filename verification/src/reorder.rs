//! Cells next to each other put into the order in which their nets are shortest.

use vstd::prelude::*;
use crate::arith::{dist, distance, imax, imin};
use crate::checks::{by_center, resorted};
use crate::land::{all_below, lists_below, node_in, pad_in, reachable, seg_end, Land, Live, St};
use crate::moves::{aligned, find, find_in, placed};
use crate::objective::SKIP_NETS_LARGER_THAN;
use crate::permute::{law_next_order_is_greater, next_order, next_permutation};
use crate::rows::COORD_LIMIT;
use crate::segments::lists;
use crate::swap_passes::{changes_little, little, wholes, PASSES};
use crate::tries::right;

verus! {

/// How many cells are put in order together.
pub const WINDOW: usize = 3;

/// How many orders four things have.
pub const MAX_ORDERS: usize = 24;

// ── the cost of a window ─────────────────────────────────────────────────────────────────────

/// The least and greatest X of the first `n` pins of a list, for `n > 0`.
pub open spec fn pin_span(s: St, list: Seq<usize>, n: int) -> (int, int)
    decreases n,
{
    let x = crate::objective::pin_at(s, list[n - 1]).0;
    if n <= 1 {
        (x, x)
    } else {
        let b = pin_span(s, list, n - 1);
        (imin(b.0, x), imax(b.1, x))
    }
}

impl Land {
    /// A list of nets with those of a node's first `n` pins that count, each once.
    pub open spec fn with_own_nets(&self, s: St, nets: Seq<usize>, nd: usize, n: int) -> Seq<usize>
        decreases n,
    {
        if n <= 0 {
            nets
        } else {
            let v = self.with_own_nets(s, nets, nd, n - 1);
            let e = s.pins[self.node_pins@[nd as int]@[n - 1] as int].edge;
            if self.net_counts(e as int) && !v.contains(e) { v.push(e) } else { v }
        }
    }

    /// The nets of the first `n` cells of a list that count, each once.
    pub open spec fn nets_of_all(&self, s: St, cells: Seq<usize>, n: int) -> Seq<usize>
        decreases n,
    {
        if n <= 0 {
            Seq::empty()
        } else {
            self.with_own_nets(s, self.nets_of_all(s, cells, n - 1), cells[n - 1], self.node_pins@[cells[n - 1] as int]@.len() as int)
        }
    }

    /// The summed X extents of the first `n` of some nets.
    pub open spec fn extent(&self, s: St, nets: Seq<usize>, n: int) -> int
        decreases n,
    {
        if n <= 0 {
            0
        } else {
            let list = self.edges@[nets[n - 1] as int]@;
            let b = pin_span(s, list, list.len() as int);
            self.extent(s, nets, n - 1) + (b.1 - b.0)
        }
    }

    /// The cost of some cells where they lie: the X extents of their nets, each once. `None`, which is
    /// more than any number, if one of them breaks a rule.
    pub open spec fn window_cost(&self, s: St, cells: Seq<usize>) -> Option<int> {
        if exists|k: int| 0 <= k < cells.len() && #[trigger] self.violates(s, cells[k] as int) {
            None
        } else {
            let v = self.nets_of_all(s, cells, cells.len() as int);
            Some(self.extent(s, v, v.len() as int))
        }
    }
}

/// Whether a cost is below another.
pub open spec fn below(a: Option<int>, b: Option<int>) -> bool {
    match (a, b) {
        (Some(x), Some(y)) => x < y,
        (Some(_), None) => true,
        _ => false,
    }
}

fn is_below(a: Option<i64>, b: Option<i64>) -> (r: bool)
    ensures
        r == below(cost_of(a), cost_of(b)),
{
    match (a, b) {
        (Some(x), Some(y)) => x < y,
        (Some(_), None) => true,
        _ => false,
    }
}

spec fn cost_of(a: Option<i64>) -> Option<int> {
    match a {
        Some(x) => Some(x as int),
        None => None,
    }
}

fn holds(v: &Vec<usize>, e: usize) -> (r: bool)
    ensures
        r == v@.contains(e),
{
    let mut k: usize = 0;
    while k < v.len()
        invariant
            k <= v@.len(),
            forall|j: int| 0 <= j < k ==> v@[j] != e,
        decreases v@.len() - k,
    {
        if v[k] == e {
            return true;
        }
        k = k + 1;
    }
    false
}

impl Live {
    fn add_own_nets(&self, l: &Land, nets: &mut Vec<usize>, nd: usize)
        requires
            l.wf(),
            l.ok(self@),
            nd < l.count(),
            all_below(old(nets)@, l.edges@.len() as int),
            old(nets)@.no_duplicates(),
            forall|k: int| 0 <= k < old(nets)@.len() ==> l.net_counts(#[trigger] old(nets)@[k] as int),
        ensures
            final(nets)@ == l.with_own_nets(self@, old(nets)@, nd, l.node_pins@[nd as int]@.len() as int),
            all_below(final(nets)@, l.edges@.len() as int),
            final(nets)@.no_duplicates(),
            forall|k: int| 0 <= k < final(nets)@.len() ==> l.net_counts(#[trigger] final(nets)@[k] as int),
    {
        let ghost n0 = nets@;
        let pins = &l.node_pins[nd];
        assert(lists(l.node_pins@)[nd as int] == pins@);
        let mut k: usize = 0;
        while k < pins.len()
            invariant
                l.wf(),
                l.ok(self@),
                pins@ == l.node_pins@[nd as int]@,
                all_below(pins@, self@.pins.len() as int),
                k <= pins@.len(),
                nets@ == l.with_own_nets(self@, n0, nd, k as int),
                all_below(nets@, l.edges@.len() as int),
                nets@.no_duplicates(),
                forall|j: int| 0 <= j < nets@.len() ==> l.net_counts(#[trigger] nets@[j] as int),
            decreases pins@.len() - k,
        {
            let e: usize = self.pins[pins[k]].edge;
            assert(self@.pins[pins@[k as int] as int].edge < l.edges@.len());
            let count: usize = l.edges[e].len();
            if count > 1 && count < SKIP_NETS_LARGER_THAN && !holds(nets, e) {
                nets.push(e);
            }
            k = k + 1;
        }
    }

    fn net_width(&self, l: &Land, e: usize) -> (r: i64)
        requires
            l.wf(),
            l.ok(self@),
            e < l.edges@.len(),
            l.edges@[e as int]@.len() > 0,
        ensures
            ({
                let list = l.edges@[e as int]@;
                let b = pin_span(self@, list, list.len() as int);
                r == b.1 - b.0
            }),
            0 <= r <= 16 * COORD_LIMIT,
    {
        let list = &l.edges[e];
        assert(lists(l.edges@)[e as int] == list@);
        let first: (i32, i32) = self.pin_place(l, list[0]);
        let mut lo: i32 = first.0;
        let mut hi: i32 = first.0;
        let mut k: usize = 1;
        while k < list.len()
            invariant
                l.wf(),
                l.ok(self@),
                all_below(list@, self@.pins.len() as int),
                1 <= k <= list@.len(),
                (lo as int, hi as int) == pin_span(self@, list@, k as int),
                -8 * COORD_LIMIT <= lo <= hi <= 8 * COORD_LIMIT,
            decreases list@.len() - k,
        {
            let p: (i32, i32) = self.pin_place(l, list[k]);
            if p.0 < lo {
                lo = p.0;
            }
            if p.0 > hi {
                hi = p.0;
            }
            k = k + 1;
        }
        hi as i64 - lo as i64
    }

    /// The X extents of the nets of some cells, each once; `None` if one of the cells breaks a rule.
    pub fn reorder_cost(&self, l: &Land, cells: &Vec<usize>) -> (r: Option<i64>)
        requires
            l.wf(),
            l.ok(self@),
            all_below(cells@, l.count()),
        ensures
            match l.window_cost(self@, cells@) {
                Some(c) => r matches Some(x) && x == c,
                None => r is None,
            },
    {
        let ghost s = self@;
        let mut nets: Vec<usize> = Vec::new();
        let mut k: usize = 0;
        assert(nets@ =~= Seq::empty());
        while k < cells.len()
            invariant
                l.wf(),
                l.ok(self@),
                s == self@,
                all_below(cells@, l.count()),
                k <= cells@.len(),
                nets@ == l.nets_of_all(s, cells@, k as int),
                all_below(nets@, l.edges@.len() as int),
                nets@.no_duplicates(),
                forall|j: int| 0 <= j < nets@.len() ==> l.net_counts(#[trigger] nets@[j] as int),
                forall|j: int| 0 <= j < k ==> !#[trigger] l.violates(s, cells@[j] as int),
            decreases cells@.len() - k,
        {
            if self.has_placement_violation(l, cells[k]) {
                assert(l.violates(s, cells@[k as int] as int));
                return None;
            }
            self.add_own_nets(l, &mut nets, cells[k]);
            k = k + 1;
        }
        proof {
            crate::clumps::lemma_below_count(nets@, l.edges@.len() as int);
        }
        let mut sum: i64 = 0;
        let mut i: usize = 0;
        while i < nets.len()
            invariant
                l.wf(),
                l.ok(self@),
                s == self@,
                all_below(nets@, l.edges@.len() as int),
                forall|j: int| 0 <= j < nets@.len() ==> l.net_counts(#[trigger] nets@[j] as int),
                nets@.len() <= COORD_LIMIT,
                i <= nets@.len(),
                sum == l.extent(s, nets@, i as int),
                0 <= sum <= i * (16 * COORD_LIMIT),
            decreases nets@.len() - i,
        {
            proof {
                assert((i + 1) * (16 * COORD_LIMIT) == i * (16 * COORD_LIMIT) + 16 * COORD_LIMIT) by (nonlinear_arith);
                assert(i * (16 * COORD_LIMIT) <= COORD_LIMIT * (16 * COORD_LIMIT)) by (nonlinear_arith)
                    requires i <= COORD_LIMIT;
                assert(l.net_counts(nets@[i as int] as int));
            }
            sum = sum + self.net_width(l, nets[i]);
            i = i + 1;
        }
        Some(sum)
    }
}

// ── a window ─────────────────────────────────────────────────────────────────────────────────

/// Some cells to put in order between two ends: the space each takes to its left, for itself, and to its
/// right.
pub ghost struct Pane {
    pub cells: Seq<usize>,
    pub lo: int,
    pub hi: int,
    pub before: Seq<i32>,
    pub wide: Seq<i32>,
    pub behind: Seq<i32>,
}

/// The widths of the first `n` cells of a list.
pub open spec fn own_widths(s: St, cells: Seq<usize>, n: int) -> int
    decreases n,
{
    if n <= 0 { 0 } else { own_widths(s, cells, n - 1) + s.nodes[cells[n - 1] as int].width }
}

/// The padding of the first `n` cells of a list.
pub open spec fn own_pads(s: St, cells: Seq<usize>, n: int) -> int
    decreases n,
{
    if n <= 0 { 0 } else { own_pads(s, cells, n - 1) + s.pads[cells[n - 1] as int].0 + s.pads[cells[n - 1] as int].1 }
}

/// The space given out to the first `n` cells beyond their padding: to the left and to the right of
/// each, `a` and `b` where that leaves some of the `free` space.
pub open spec fn given(free: int, a: int, b: int, n: int) -> (Seq<(int, int)>, int)
    decreases n,
{
    if n <= 0 {
        (Seq::empty(), 0)
    } else {
        let p = given(free, a, b, n - 1);
        let r = if p.1 + b < free { b } else { 0 };
        let l = if p.1 + r + a < free { a } else { 0 };
        (p.0.push((l, r)), p.1 + r + l)
    }
}

impl Land {
    /// The window of some cells between two ends: the space they leave is given out in whole sites.
    pub open spec fn pane(&self, s: St, cells: Seq<usize>, lo: int, hi: int) -> Pane {
        let n = cells.len() as int;
        let site = self.arch.rows@[0].site_width as int;
        let free = hi - lo - own_widths(s, cells, n) - own_pads(s, cells, n);
        let per = (free / n) / site;
        let (a, b) = ((per - per / 2) * site, (per / 2) * site);
        let g = given(free, a, b, n).0;
        Pane {
            cells,
            lo,
            hi,
            before: Seq::new(cells.len(), |k: int| (s.pads[cells[k] as int].0 + g[k].0) as i32),
            wide: Seq::new(cells.len(), |k: int| s.nodes[cells[k] as int].width),
            behind: Seq::new(cells.len(), |k: int| (s.pads[cells[k] as int].1 + g[k].1) as i32),
        }
    }

    /// The state with a node at another X, its squares and its orientation taken anew.
    pub open spec fn repainted(&self, s: St, nd: usize, x: i32) -> St {
        self.settled(placed(self.lifted(s, nd as int), nd, x, s.nodes[nd as int].bottom), nd as int)
    }

    /// The state with the first `n` cells of a list each at an X of its own.
    pub open spec fn repainted_all(&self, s: St, cells: Seq<usize>, at: Seq<i32>, n: int) -> St
        decreases n,
    {
        if n <= 0 { s } else { self.repainted(self.repainted_all(s, cells, at, n - 1), cells[n - 1], at[n - 1]) }
    }

    /// Whether a node's X is no further from where it started than it may be.
    pub open spec fn near_in_x(&self, s: St, nd: usize) -> bool {
        dist(s.nodes[nd as int].left as int, self.orig@[nd as int].0 as int) <= self.max_disp.0
    }
}

/// A window's cells laid out in an order: the state, where the next cell goes, where each cell is, and
/// whether each is near enough to where it started.
pub ghost struct Lay {
    pub s: St,
    pub x: int,
    pub at: Seq<i32>,
    pub near: bool,
}

impl Land {
    /// The first `n` cells of a window laid out in an order.
    pub open spec fn laid(&self, s: St, w: Pane, order: Seq<usize>, at: Seq<i32>, n: int) -> Lay
        decreases n,
    {
        if n <= 0 {
            Lay { s, x: w.lo, at, near: true }
        } else {
            let p = self.laid(s, w, order, at, n - 1);
            let ix = order[n - 1] as int;
            let x = p.x + w.before[ix];
            let t = self.repainted(p.s, w.cells[ix], x as i32);
            Lay { s: t, x: x + w.wide[ix] + w.behind[ix], at: p.at.update(ix, x as i32), near: p.near && self.near_in_x(t, w.cells[ix]) }
        }
    }

    /// The state after the cells of a window were laid out in all orders from one on, and the cheapest
    /// cost and places found that are cheaper than a given cost.
    pub open spec fn tried_orders(&self, s: St, w: Pane, order: Seq<usize>, at: Seq<i32>, best: Option<int>, spot: Option<Seq<i32>>, steps: int) -> (St, Option<Seq<i32>>)
        decreases steps,
    {
        if steps <= 0 {
            (s, spot)
        } else {
            let p = self.laid(s, w, order, at, order.len() as int);
            let c = self.window_cost(p.s, w.cells);
            let take = p.near && below(c, best);
            let (b2, s2) = if take { (c, Some(p.at)) } else { (best, spot) };
            let o = next_order(order);
            if o.1 { self.tried_orders(p.s, w, o.0, p.at, b2, s2, steps - 1) } else { (p.s, s2) }
        }
    }
}

/// The cells of a segment with those from `a` up to `b` in order.
pub open spec fn sorted_part(s: St, seg: int, a: int, b: int) -> St {
    let v = s.cells[seg];
    St { cells: s.cells.update(seg, v.subrange(0, a) + by_center(s.nodes, v.subrange(a, b)) + v.subrange(b, v.len() as int)), ..s }
}

/// Cells put on sites one after the other: the state, where the space of the next one begins, whether
/// one moved, and whether one could not.
pub ghost struct Align {
    pub s: St,
    pub edge: int,
    pub moved: bool,
    pub failed: bool,
}

impl Land {
    /// The first `n` cells of a list put on sites, each behind the one before it. After a failure nothing
    /// more happens.
    pub open spec fn realigned(&self, s: St, cells: Seq<usize>, lo: int, hi: int, n: int) -> Align
        decreases n,
    {
        if n <= 0 {
            Align { s, edge: lo, moved: false, failed: false }
        } else {
            let p = self.realigned(s, cells, lo, hi, n - 1);
            let nd = cells[n - 1];
            let left = p.s.nodes[nd as int].left as int;
            let x = aligned(self.arch.rows@[0], p.s.nodes[nd as int].width as int, left, p.edge, hi);
            if p.failed {
                p
            } else if x is None {
                Align { failed: true, ..p }
            } else {
                let t = self.repainted(p.s, nd, x->Some_0 as i32);
                Align { s: t, edge: right(t.nodes[nd as int]), moved: p.moved || x->Some_0 != left, failed: !self.near_in_x(t, nd) }
            }
        }
    }

    /// The state with the first `n` cells of a list back where they were, by their position in `cells`.
    pub open spec fn put_back(&self, s: St, list: Seq<usize>, cells: Seq<usize>, at: Seq<i32>, n: int) -> St
        decreases n,
    {
        if n <= 0 { s } else { self.repainted(self.put_back(s, list, cells, at, n - 1), list[n - 1], at[find(cells, list[n - 1], 0)]) }
    }

    /// The state after a window of a segment, the positions from `a` up to `b`, was put into its cheapest
    /// order between two ends. Where no order is cheaper, or the cheapest cannot be put on sites without
    /// losing that or breaking a rule, the cells go back.
    pub open spec fn reordered(&self, s: St, seg: usize, a: int, b: int, lo: int, hi: int) -> St {
        let cells = s.cells[seg as int].subrange(a, b);
        let n = cells.len() as int;
        let orig = Seq::new(cells.len(), |k: int| s.nodes[cells[k] as int].left);
        if hi - lo < own_widths(s, cells, n) + own_pads(s, cells, n) {
            s
        } else {
            let w = self.pane(s, cells, lo, hi);
            let c0 = self.window_cost(s, cells);
            let first = Seq::new(cells.len(), |k: int| k as usize);
            let r = self.tried_orders(s, w, first, Seq::new(cells.len(), |k: int| 0i32), c0, None, MAX_ORDERS as int);
            match r.1 {
                None => self.repainted_all(r.0, cells, orig, n),
                Some(at) => {
                    let t = sorted_part(self.repainted_all(r.0, cells, at, n), seg as int, a, b);
                    let g = self.realigned(t, t.cells[seg as int].subrange(a, b), lo, hi, n);
                    let list = g.s.cells[seg as int].subrange(a, b);
                    let bad = g.failed || (g.moved && !below(self.window_cost(g.s, list), c0))
                        || (exists|k: int| 0 <= k < list.len() && #[trigger] self.violates(g.s, list[k] as int));
                    if bad { sorted_part(self.put_back(g.s, list, cells, orig, n), seg as int, a, b) } else { g.s }
                },
            }
        }
    }
}

// ── sums over orders ─────────────────────────────────────────────────────────────────────────

/// The sum of the numbers that a list picks.
spec fn pick_sum(f: Seq<int>, order: Seq<usize>) -> int
    decreases order.len(),
{
    if order.len() == 0 { 0 } else { pick_sum(f, order.drop_last()) + f[order.last() as int] }
}

/// The sum of the first `n` numbers.
spec fn sum_upto(f: Seq<int>, n: int) -> int
    decreases n,
{
    if n <= 0 { 0 } else { sum_upto(f, n - 1) + f[n - 1] }
}

proof fn lemma_pick_remove(f: Seq<int>, order: Seq<usize>, p: int)
    requires
        0 <= p < order.len(),
    ensures
        pick_sum(f, order) == pick_sum(f, order.remove(p)) + f[order[p] as int],
    decreases order.len(),
{
    if p == order.len() - 1 {
        assert(order.remove(p) =~= order.drop_last());
    } else {
        lemma_pick_remove(f, order.drop_last(), p);
        assert(order.remove(p).drop_last() =~= order.drop_last().remove(p));
        assert(order.remove(p).last() == order.last());
    }
}

proof fn lemma_pick_bound(f: Seq<int>, order: Seq<usize>, m: int)
    requires
        0 <= m <= f.len(),
        order.no_duplicates(),
        forall|k: int| 0 <= k < order.len() ==> #[trigger] order[k] < m,
        forall|k: int| 0 <= k < f.len() ==> #[trigger] f[k] >= 0,
    ensures
        0 <= pick_sum(f, order) <= sum_upto(f, m),
    decreases m,
{
    if m == 0 {
        if order.len() > 0 {
            assert(order[0] < 0);
        }
    } else if exists|p: int| 0 <= p < order.len() && order[p] == m - 1 {
        let p = choose|p: int| 0 <= p < order.len() && order[p] == m - 1;
        lemma_pick_remove(f, order, p);
        let rest = order.remove(p);
        assert forall|k: int| 0 <= k < rest.len() implies #[trigger] rest[k] < m - 1 by {
            let j = if k < p { k } else { k + 1 };
            assert(rest[k] == order[j]);
            assert(order[j] != order[p]);
        }
        assert(rest.no_duplicates()) by {
            assert forall|i: int, j: int| 0 <= i < rest.len() && 0 <= j < rest.len() && i != j implies rest[i] != rest[j] by {
                let a = if i < p { i } else { i + 1 };
                let b = if j < p { j } else { j + 1 };
                assert(rest[i] == order[a] && rest[j] == order[b]);
            }
        }
        lemma_pick_bound(f, rest, m - 1);
        assert(f[m - 1] >= 0);
    } else {
        assert forall|k: int| 0 <= k < order.len() implies #[trigger] order[k] < m - 1 by {
            assert(order[k] < m);
            assert(order[k] != m - 1);
        }
        lemma_pick_bound(f, order, m - 1);
        assert(f[m - 1] >= 0);
    }
}

/// What the cells of a window take, each with the space beside it.
spec fn takes(w: Pane) -> Seq<int> {
    Seq::new(w.cells.len(), |k: int| w.before[k] + w.wide[k] + w.behind[k])
}

/// The window's tables fit together and its cells have room.
spec fn pane_ok(l: Land, w: Pane) -> bool {
    let n = w.cells.len() as int;
    &&& 1 <= n <= 4
    &&& w.before.len() == n && w.wide.len() == n && w.behind.len() == n
    &&& all_below(w.cells, l.count())
    &&& seg_end(w.lo) && seg_end(w.hi)
    &&& forall|k: int| 0 <= k < n ==> 0 <= #[trigger] w.before[k] <= 5 * COORD_LIMIT
    &&& forall|k: int| 0 <= k < n ==> 0 <= #[trigger] w.wide[k] <= COORD_LIMIT
    &&& forall|k: int| 0 <= k < n ==> 0 <= #[trigger] w.behind[k] <= 5 * COORD_LIMIT
    &&& w.lo + sum_upto(takes(w), n) <= w.hi
}

/// An order of the positions of a window.
spec fn is_order(order: Seq<usize>, n: int) -> bool {
    order.len() == n && order.no_duplicates() && all_below(order, n)
}

proof fn lemma_laid_x(l: Land, s: St, w: Pane, order: Seq<usize>, at: Seq<i32>, n: int)
    requires
        pane_ok(l, w),
        is_order(order, w.cells.len() as int),
        0 <= n <= order.len(),
        at.len() == w.cells.len(),
    ensures
        l.laid(s, w, order, at, n).x == w.lo + pick_sum(takes(w), order.subrange(0, n)),
        l.laid(s, w, order, at, n).at.len() == w.cells.len(),
        w.lo <= l.laid(s, w, order, at, n).x <= w.hi,
    decreases n,
{
    let o = order.subrange(0, n);
    if n > 0 {
        lemma_laid_x(l, s, w, order, at, n - 1);
        assert(o.drop_last() =~= order.subrange(0, n - 1));
        assert(o.last() == order[n - 1]);
        assert(order[n - 1] < w.cells.len());
    } else {
        assert(o =~= Seq::empty());
    }
    assert(o.no_duplicates());
    assert forall|k: int| 0 <= k < o.len() implies #[trigger] o[k] < w.cells.len() by {
        assert(o[k] == order[k]);
    }
    assert forall|k: int| 0 <= k < takes(w).len() implies #[trigger] takes(w)[k] >= 0 by {
        assert(w.before[k] >= 0 && w.wide[k] >= 0 && w.behind[k] >= 0);
    }
    lemma_pick_bound(takes(w), o, w.cells.len() as int);
}

// ── execution ────────────────────────────────────────────────────────────────────────────────

/// A window: its cells, its ends and the space the cells take.
struct Work {
    cells: Vec<usize>,
    lo: i32,
    hi: i32,
    before: Vec<i32>,
    wide: Vec<i32>,
    behind: Vec<i32>,
}

impl Work {
    spec fn view(&self) -> Pane {
        Pane { cells: self.cells@, lo: self.lo as int, hi: self.hi as int, before: self.before@, wide: self.wide@, behind: self.behind@ }
    }
}

proof fn lemma_given(free: int, a: int, b: int, n: int)
    requires
        0 <= free,
        0 <= a,
        0 <= b,
        0 <= n,
    ensures
        given(free, a, b, n).0.len() == n,
        0 <= given(free, a, b, n).1 <= free,
        forall|k: int| 0 <= k < n ==> 0 <= (#[trigger] given(free, a, b, n).0[k]).0 <= free && 0 <= given(free, a, b, n).0[k].1 <= free,
    decreases n,
{
    if n > 0 {
        lemma_given(free, a, b, n - 1);
    }
}

proof fn lemma_given_prefix(free: int, a: int, b: int, n: int, m: int)
    requires
        0 <= n <= m,
        0 <= free,
        0 <= a,
        0 <= b,
    ensures
        forall|k: int| 0 <= k < n ==> #[trigger] given(free, a, b, m).0[k] == given(free, a, b, n).0[k],
    decreases m - n,
{
    if n < m {
        lemma_given_prefix(free, a, b, n, m - 1);
        lemma_given(free, a, b, m - 1);
    }
}

/// What the first `n` cells of a window take in sum.
proof fn lemma_pane_sum(l: Land, s: St, cells: Seq<usize>, lo: int, hi: int, n: int)
    requires
        l.wf(),
        l.ok(s),
        1 <= cells.len() <= 4,
        all_below(cells, l.count()),
        0 <= n <= cells.len(),
        seg_end(lo),
        seg_end(hi),
        hi - lo >= own_widths(s, cells, cells.len() as int) + own_pads(s, cells, cells.len() as int),
    ensures
        ({
            let m = cells.len() as int;
            let free = hi - lo - own_widths(s, cells, m) - own_pads(s, cells, m);
            let site = l.arch.rows@[0].site_width as int;
            let per = (free / m) / site;
            let (a, b) = ((per - per / 2) * site, (per / 2) * site);
            let w = l.pane(s, cells, lo, hi);
            sum_upto(takes(w), n) == own_widths(s, cells, n) + own_pads(s, cells, n) + given(free, a, b, n).1
        }),
    decreases n,
{
    let m = cells.len() as int;
    let free = hi - lo - own_widths(s, cells, m) - own_pads(s, cells, m);
    let site = l.arch.rows@[0].site_width as int;
    assert(l.arch.rows@[0].ok());
    let per = (free / m) / site;
    lemma_per(free, m, site);
    let (a, b) = ((per - per / 2) * site, (per / 2) * site);
    let w = l.pane(s, cells, lo, hi);
    if n > 0 {
        lemma_pane_sum(l, s, cells, lo, hi, n - 1);
        let g = given(free, a, b, m).0;
        lemma_given(free, a, b, m);
        lemma_given(free, a, b, n);
        lemma_own(l, s, cells, m);
        lemma_given_prefix(free, a, b, n, m);
        assert(g[n - 1] == given(free, a, b, n).0[n - 1]);
        assert(pad_in(s.pads[cells[n - 1] as int]));
        assert(node_in(s.nodes[cells[n - 1] as int]));
    }
}

proof fn lemma_own(l: Land, s: St, cells: Seq<usize>, n: int)
    requires
        l.wf(),
        l.ok(s),
        all_below(cells, l.count()),
        0 <= n <= cells.len(),
        cells.len() <= 4,
    ensures
        0 <= own_widths(s, cells, n) <= n * COORD_LIMIT,
        0 <= own_pads(s, cells, n) <= n * (2 * COORD_LIMIT),
    decreases n,
{
    if n > 0 {
        lemma_own(l, s, cells, n - 1);
        assert(cells[n - 1] < l.count());
        assert(pad_in(s.pads[cells[n - 1] as int]));
        assert(node_in(s.nodes[cells[n - 1] as int]));
    }
}

proof fn lemma_per(free: int, n: int, site: int)
    requires
        0 <= free,
        1 <= n,
        1 <= site,
    ensures
        ({
            let per = (free / n) / site;
            let (a, b) = ((per - per / 2) * site, (per / 2) * site);
            0 <= a <= free && 0 <= b <= free && 0 <= per <= free
        }),
{
    let q = free / n;
    let per = q / site;
    assert(0 <= q <= free) by (nonlinear_arith)
        requires q == free / n, 0 <= free, 1 <= n;
    assert(0 <= per <= q && per * site <= q) by (nonlinear_arith)
        requires per == q / site, 0 <= q, 1 <= site;
    assert(0 <= (per - per / 2) * site <= per * site) by (nonlinear_arith)
        requires 0 <= per, 1 <= site;
    assert(0 <= (per / 2) * site <= per * site) by (nonlinear_arith)
        requires 0 <= per, 1 <= site;
}

impl Live {
    /// Put a node at another X, its squares and its orientation taken anew.
    pub fn repaint_at(&mut self, l: &Land, nd: usize, x: i32)
        requires
            l.wf(),
            l.ok(old(self)@),
            nd < l.count(),
            reachable(x as int),
        ensures
            l.ok(final(self)@),
            final(self)@ == l.repainted(old(self)@, nd, x),
    {
        let y: i32 = self.nodes[nd].bottom;
        assert(node_in(self@.nodes[nd as int]));
        self.erase_from_grid(l, nd);
        self.put(l, nd, x, y);
        self.paint_in_grid(l, nd);
    }

    /// The window of some cells between two ends, if they have room.
    fn make_window(&self, l: &Land, cells: Vec<usize>, lo: i32, hi: i32) -> (r: Option<Work>)
        requires
            l.wf(),
            l.ok(self@),
            1 <= cells@.len() <= 4,
            all_below(cells@, l.count()),
            -2 * COORD_LIMIT <= lo <= 8 * COORD_LIMIT,
            -8 * COORD_LIMIT <= hi <= 2 * COORD_LIMIT,
        ensures
            ({
                let n = cells@.len() as int;
                &&& r is Some <==> hi - lo >= own_widths(self@, cells@, n) + own_pads(self@, cells@, n)
                &&& r matches Some(w) ==> w@ == l.pane(self@, cells@, lo as int, hi as int) && pane_ok(*l, w@)
            }),
    {
        let ghost s = self@;
        let n: usize = cells.len();
        let mut w: i32 = 0;
        let mut p: i32 = 0;
        let mut k: usize = 0;
        while k < n
            invariant
                l.wf(),
                l.ok(self@),
                s == self@,
                n == cells@.len(),
                n <= 4,
                all_below(cells@, l.count()),
                k <= n,
                w == own_widths(s, cells@, k as int),
                p == own_pads(s, cells@, k as int),
                0 <= w <= k * COORD_LIMIT,
                0 <= p <= k * (2 * COORD_LIMIT),
            decreases n - k,
        {
            let c: usize = cells[k];
            assert(pad_in(s.pads[c as int]));
            assert(node_in(s.nodes[c as int]));
            proof {
                assert((k + 1) * COORD_LIMIT == k * COORD_LIMIT + COORD_LIMIT) by (nonlinear_arith);
                assert((k + 1) * (2 * COORD_LIMIT) == k * (2 * COORD_LIMIT) + 2 * COORD_LIMIT) by (nonlinear_arith);
                assert(k * COORD_LIMIT <= 4 * COORD_LIMIT && k * (2 * COORD_LIMIT) <= 8 * COORD_LIMIT) by (nonlinear_arith)
                    requires k <= 4;
            }
            w = w + self.nodes[c].width;
            p = p + self.pads[c].0 + self.pads[c].1;
            k = k + 1;
        }
        proof {
            assert(k * COORD_LIMIT <= 4 * COORD_LIMIT && k * (2 * COORD_LIMIT) <= 8 * COORD_LIMIT) by (nonlinear_arith)
                requires k <= 4;
        }
        if hi - lo < w + p {
            return None;
        }
        let free: i32 = hi - lo - (w + p);
        assert(l.arch.rows@[0].ok());
        let site: i32 = l.arch.rows[0].site_width;
        let per: i32 = (free / n as i32) / site;
        proof {
            lemma_per(free as int, n as int, site as int);
        }
        let b: i32 = (per / 2) * site;
        let a: i32 = (per - per / 2) * site;
        let mut before: Vec<i32> = Vec::new();
        let mut wide: Vec<i32> = Vec::new();
        let mut behind: Vec<i32> = Vec::new();
        let mut used: i32 = 0;
        let ghost pane = l.pane(s, cells@, lo as int, hi as int);
        let mut i: usize = 0;
        proof {
            assert(seg_end(lo as int) && seg_end(hi as int));
            lemma_given(free as int, a as int, b as int, n as int);
        }
        while i < n
            invariant
                l.wf(),
                l.ok(self@),
                s == self@,
                n == cells@.len(),
                1 <= n <= 4,
                all_below(cells@, l.count()),
                0 <= free <= 4 * COORD_LIMIT,
                0 <= a <= free,
                0 <= b <= free,
                i <= n,
                used == given(free as int, a as int, b as int, i as int).1,
                0 <= used <= free,
                pane == l.pane(s, cells@, lo as int, hi as int),
                pane.before == Seq::new(n as nat, |k: int| (s.pads[cells@[k] as int].0 + given(free as int, a as int, b as int, n as int).0[k].0) as i32),
                pane.behind == Seq::new(n as nat, |k: int| (s.pads[cells@[k] as int].1 + given(free as int, a as int, b as int, n as int).0[k].1) as i32),
                pane.wide == Seq::new(n as nat, |k: int| s.nodes[cells@[k] as int].width),
                before@ == pane.before.subrange(0, i as int),
                wide@ == pane.wide.subrange(0, i as int),
                behind@ == pane.behind.subrange(0, i as int),
                forall|k: int| 0 <= k < i ==> 0 <= #[trigger] before@[k] <= 5 * COORD_LIMIT,
                forall|k: int| 0 <= k < i ==> 0 <= #[trigger] wide@[k] <= COORD_LIMIT,
                forall|k: int| 0 <= k < i ==> 0 <= #[trigger] behind@[k] <= 5 * COORD_LIMIT,
            decreases n - i,
        {
            let c: usize = cells[i];
            assert(pad_in(s.pads[c as int]));
            assert(node_in(s.nodes[c as int]));
            let r: i32 = if used + b < free { b } else { 0 };
            let f: i32 = if used + r + a < free { a } else { 0 };
            proof {
                lemma_given_prefix(free as int, a as int, b as int, i + 1, n as int);
                lemma_given(free as int, a as int, b as int, i as int);
                lemma_given(free as int, a as int, b as int, i + 1);
                assert(given(free as int, a as int, b as int, i + 1).0[i as int] == (f as int, r as int));
                assert(given(free as int, a as int, b as int, n as int).0[i as int] == given(free as int, a as int, b as int, i + 1).0[i as int]);
            }
            before.push(self.pads[c].0 + f);
            wide.push(self.nodes[c].width);
            behind.push(self.pads[c].1 + r);
            used = used + r + f;
            i = i + 1;
            assert(before@ =~= pane.before.subrange(0, i as int));
            assert(wide@ =~= pane.wide.subrange(0, i as int));
            assert(behind@ =~= pane.behind.subrange(0, i as int));
        }
        let work = Work { cells, lo, hi, before, wide, behind };
        proof {
            assert(work@.before =~= pane.before);
            assert(work@.wide =~= pane.wide);
            assert(work@.behind =~= pane.behind);
            assert(work@ == pane);
            lemma_pane_sum(*l, s, work.cells@, lo as int, hi as int, n as int);
        }
        Some(work)
    }

    /// Lay the cells of a window out in an order. Whether each is near enough to where it started.
    fn lay_out(&mut self, l: &Land, w: &Work, order: &Vec<usize>, at: &mut Vec<i32>) -> (near: bool)
        requires
            l.wf(),
            l.ok(old(self)@),
            pane_ok(*l, w@),
            is_order(order@, w@.cells.len() as int),
            old(at)@.len() == w@.cells.len(),
        ensures
            l.ok(final(self)@),
            final(at)@.len() == w@.cells.len(),
            ({
                let p = l.laid(old(self)@, w@, order@, old(at)@, order@.len() as int);
                final(self)@ == p.s && final(at)@ == p.at && near == p.near
            }),
            in_reach(old(at)@) ==> in_reach(final(at)@),
            final(self)@.cells == old(self)@.cells,
    {
        let ghost s0 = self@;
        let ghost a0 = at@;
        let mut x: i32 = w.lo;
        let mut near: bool = true;
        let mut i: usize = 0;
        proof {
            lemma_laid_x(*l, s0, w@, order@, a0, 0);
        }
        while i < order.len()
            invariant
                l.wf(),
                l.ok(self@),
                pane_ok(*l, w@),
                is_order(order@, w@.cells.len() as int),
                a0.len() == w@.cells.len(),
                at@.len() == w@.cells.len(),
                i <= order@.len(),
                (Lay { s: self@, x: x as int, at: at@, near }) == l.laid(s0, w@, order@, a0, i as int),
                w@.lo <= x <= w@.hi,
                in_reach(a0) ==> in_reach(at@),
                self@.cells == s0.cells,
            decreases order@.len() - i,
        {
            let ix: usize = order[i];
            let nd: usize = w.cells[ix];
            proof {
                lemma_laid_x(*l, s0, w@, order@, a0, i + 1);
                assert(w@.before[ix as int] >= 0 && w@.wide[ix as int] >= 0 && w@.behind[ix as int] >= 0);
                assert(w@.before[ix as int] <= 5 * COORD_LIMIT);
                assert(x + w@.before[ix as int] + w@.wide[ix as int] + w@.behind[ix as int] <= w@.hi);
            }
            let here: i32 = x + w.before[ix];
            at.set(ix, here);
            self.repaint_at(l, nd, here);
            x = here + w.wide[ix] + w.behind[ix];
            if distance(self.nodes[nd].left as i64, l.orig[nd].0 as i64) > l.max_disp.0 as i64 {
                near = false;
            }
            i = i + 1;
        }
        near
    }
}

/// All places can be reached.
spec fn in_reach(at: Seq<i32>) -> bool {
    forall|k: int| 0 <= k < at.len() ==> reachable(#[trigger] at[k] as int)
}

proof fn lemma_next_is_order(order: Seq<usize>, n: int)
    requires
        is_order(order, n),
    ensures
        is_order(next_order(order).0, n),
{
    law_next_order_is_greater(order);
    let o = next_order(order).0;
    order.lemma_multiset_has_no_duplicates();
    o.lemma_multiset_has_no_duplicates_conv();
    let p = |v: usize| v < n;
    crate::sort::lemma_rearranged(order, o, p);
    assert forall|k: int| 0 <= k < o.len() implies #[trigger] o[k] < n by {
        assert(p(o[k]));
    }
}

impl Live {
    /// Lay the cells of a window out in all orders. The places of the cheapest order that is cheaper than
    /// `cost`, if there is one.
    fn try_orders(&mut self, l: &Land, w: &Work, cost: Option<i64>) -> (spot: Option<Vec<i32>>)
        requires
            l.wf(),
            l.ok(old(self)@),
            pane_ok(*l, w@),
        ensures
            l.ok(final(self)@),
            ({
                let n = w@.cells.len();
                let r = l.tried_orders(old(self)@, w@, Seq::new(n, |k: int| k as usize), Seq::new(n, |k: int| 0i32), cost_of(cost), None, MAX_ORDERS as int);
                &&& final(self)@ == r.0
                &&& match r.1 {
                    Some(v) => spot matches Some(x) && x@ == v,
                    None => spot is None,
                }
            }),
            spot matches Some(x) ==> x@.len() == w@.cells.len() && in_reach(x@),
            final(self)@.cells == old(self)@.cells,
    {
        let ghost s0 = self@;
        let ghost size = w@.cells.len();
        let n: usize = w.cells.len();
        let mut order: Vec<usize> = Vec::new();
        let mut at: Vec<i32> = Vec::new();
        let mut z: usize = 0;
        while z < n
            invariant
                z <= n,
                order@ == Seq::new(z as nat, |k: int| k as usize),
                at@ == Seq::new(z as nat, |k: int| 0i32),
            decreases n - z,
        {
            order.push(z);
            at.push(0);
            z = z + 1;
            assert(order@ =~= Seq::new(z as nat, |k: int| k as usize));
            assert(at@ =~= Seq::new(z as nat, |k: int| 0i32));
        }
        let mut best: Option<i64> = cost;
        let mut spot: Option<Vec<i32>> = None;
        let ghost mut shown: Option<Seq<i32>> = None;
        let ghost want = l.tried_orders(s0, w@, order@, at@, cost_of(cost), None, MAX_ORDERS as int);
        let mut left: usize = MAX_ORDERS;
        assert(in_reach(at@));
        while left > 0
            invariant
                l.wf(),
                l.ok(self@),
                pane_ok(*l, w@),
                n == w@.cells.len(),
                is_order(order@, n as int),
                at@.len() == n,
                in_reach(at@),
                match shown {
                    Some(v) => spot matches Some(x) && x@ == v,
                    None => spot is None,
                },
                spot matches Some(x) ==> x@.len() == n && in_reach(x@),
                self@.cells == old(self)@.cells,
                l.tried_orders(self@, w@, order@, at@, cost_of(best), shown, left as int) == want,
                want == l.tried_orders(old(self)@, w@, Seq::new(n as nat, |k: int| k as usize), Seq::new(n as nat, |k: int| 0i32), cost_of(cost), None, MAX_ORDERS as int),
            decreases left,
        {
            let near: bool = self.lay_out(l, w, &order, &mut at);
            if near {
                let c: Option<i64> = self.reorder_cost(l, &w.cells);
                if is_below(c, best) {
                    best = c;
                    let copy = copy_places(&at);
                    proof {
                        shown = Some(at@);
                    }
                    spot = Some(copy);
                }
            }
            proof {
                lemma_next_is_order(order@, n as int);
            }
            if !next_permutation(&mut order) {
                return spot;
            }
            left = left - 1;
        }
        spot
    }

    /// Put the cells of a list each at an X of its own.
    fn repaint_all(&mut self, l: &Land, cells: &Vec<usize>, at: &Vec<i32>)
        requires
            l.wf(),
            l.ok(old(self)@),
            all_below(cells@, l.count()),
            at@.len() == cells@.len(),
            in_reach(at@),
        ensures
            l.ok(final(self)@),
            final(self)@ == l.repainted_all(old(self)@, cells@, at@, cells@.len() as int),
            final(self)@.cells == old(self)@.cells,
    {
        let ghost s0 = self@;
        let mut k: usize = 0;
        while k < cells.len()
            invariant
                l.wf(),
                l.ok(self@),
                all_below(cells@, l.count()),
                at@.len() == cells@.len(),
                in_reach(at@),
                k <= cells@.len(),
                self@ == l.repainted_all(s0, cells@, at@, k as int),
                self@.cells == s0.cells,
            decreases cells@.len() - k,
        {
            self.repaint_at(l, cells[k], at[k]);
            k = k + 1;
        }
    }

    /// Part of a segment's list.
    fn part(&self, l: &Land, seg: usize, a: usize, b: usize) -> (r: Vec<usize>)
        requires
            l.wf(),
            l.ok(self@),
            seg < l.segments@.len(),
            a <= b <= self@.cells[seg as int].len(),
        ensures
            r@ == self@.cells[seg as int].subrange(a as int, b as int),
            all_below(r@, l.count()),
    {
        let ghost v = self@.cells[seg as int];
        assert(v == self.cells_in_seg@[seg as int]@);
        assert(all_below(v, l.count()));
        let mut out: Vec<usize> = Vec::new();
        let mut k: usize = a;
        while k < b
            invariant
                l.ok(self@),
                v == self@.cells[seg as int],
                v == self.cells_in_seg@[seg as int]@,
                all_below(v, l.count()),
                seg < l.segments@.len(),
                a <= k <= b <= v.len(),
                out@ == v.subrange(a as int, k as int),
                all_below(out@, l.count()),
            decreases b - k,
        {
            out.push(self.cells_in_seg[seg][k]);
            k = k + 1;
            assert(out@ =~= v.subrange(a as int, k as int));
        }
        out
    }

    /// Put part of a segment's list in order.
    pub fn sort_cells_in_seg(&mut self, l: &Land, seg: usize, a: usize, b: usize)
        requires
            l.wf(),
            l.ok(old(self)@),
            seg < l.segments@.len(),
            a <= b <= old(self)@.cells[seg as int].len(),
        ensures
            l.ok(final(self)@),
            final(self)@ == sorted_part(old(self)@, seg as int, a as int, b as int),
            final(self)@.cells[seg as int].len() == old(self)@.cells[seg as int].len(),
            forall|k: int| a <= k < b ==> old(self)@.cells[seg as int].subrange(a as int, b as int).contains(#[trigger] final(self)@.cells[seg as int][k]),
    {
        let ghost s0 = self@;
        let ghost v = s0.cells[seg as int];
        assert(v == self.cells_in_seg@[seg as int]@);
        assert(all_below(v, l.count()));
        let n: usize = self.cells_in_seg[seg].len();
        let head = self.part(l, seg, 0, a);
        let mid = self.part(l, seg, a, b);
        let tail = self.part(l, seg, b, n);
        let order = self.sort_by_center(l, &mid);
        let ghost all = head@ + order@ + tail@;
        let mut out: Vec<usize> = head;
        let mut o2 = order;
        let mut t2 = tail;
        out.append(&mut o2);
        out.append(&mut t2);
        assert(out@ =~= all);
        self.cells_in_seg.set(seg, out);
        proof {
            let t = sorted_part(s0, seg as int, a as int, b as int);
            assert forall|k: int| 0 <= k < s0.cells.len() implies #[trigger] self@.cells[k] == t.cells[k] by {
                if k != seg {
                    assert(self@.cells[k] == s0.cells[k]);
                }
            }
            assert(self@.cells =~= t.cells);
            assert(self@ == t);
            assert forall|j: int| 0 <= j < all.len() implies #[trigger] all[j] < l.count() by {
                if j < a {
                    assert(all[j] == head@[j]);
                } else if j < b {
                    assert(all[j] == order@[j - a]);
                } else {
                    assert(all[j] == tail@[j - b]);
                }
            }
            assert(lists_below(self@.cells, l.count())) by {
                assert forall|k: int| 0 <= k < self@.cells.len() implies all_below(#[trigger] self@.cells[k], l.count()) by {
                    if k != seg {
                        assert(self@.cells[k] == s0.cells[k]);
                    }
                }
            }
            crate::checks::lemma_ok_cells(*l, s0, self@.cells, s0.util);
            assert forall|k: int| a <= k < b implies v.subrange(a as int, b as int).contains(#[trigger] self@.cells[seg as int][k]) by {
                assert(self@.cells[seg as int][k] == order@[k - a]);
            }
        }
    }

    /// Put the cells of a list on sites, each behind the one before it. Whether one moved, and whether
    /// one could not or went too far.
    fn realign(&mut self, l: &Land, cells: &Vec<usize>, lo: i32, hi: i32) -> (r: (bool, bool))
        requires
            l.wf(),
            l.ok(old(self)@),
            all_below(cells@, l.count()),
            seg_end(lo as int),
            seg_end(hi as int),
        ensures
            l.ok(final(self)@),
            ({
                let g = l.realigned(old(self)@, cells@, lo as int, hi as int, cells@.len() as int);
                final(self)@ == g.s && r == (g.moved, g.failed)
            }),
            final(self)@.cells == old(self)@.cells,
    {
        let ghost s0 = self@;
        let mut edge: i32 = lo;
        let mut moved: bool = false;
        let mut k: usize = 0;
        while k < cells.len()
            invariant
                l.wf(),
                l.ok(self@),
                s0 == old(self)@,
                all_below(cells@, l.count()),
                seg_end(lo as int),
                seg_end(hi as int),
                k <= cells@.len(),
                (Align { s: self@, edge: edge as int, moved, failed: false }) == l.realigned(s0, cells@, lo as int, hi as int, k as int),
                -8 * COORD_LIMIT <= edge <= 8 * COORD_LIMIT,
                edge >= -2 * COORD_LIMIT || reachable(edge as int),
                self@.cells == s0.cells,
            decreases cells@.len() - k,
        {
            let nd: usize = cells[k];
            assert(node_in(self@.nodes[nd as int]));
            let left: i32 = self.nodes[nd].left;
            let x: i32 = match self.align_pos(l, nd, left, edge, hi) {
                Some(x) => x,
                None => {
                    proof {
                        lemma_realigned_failed(*l, s0, cells@, lo as int, hi as int, k + 1, cells@.len() as int);
                    }
                    return (moved, true);
                },
            };
            if x != left {
                moved = true;
            }
            assert(edge <= x <= hi);
            self.repaint_at(l, nd, x);
            edge = self.right_of(l, nd);
            if distance(self.nodes[nd].left as i64, l.orig[nd].0 as i64) > l.max_disp.0 as i64 {
                proof {
                    lemma_realigned_failed(*l, s0, cells@, lo as int, hi as int, k + 1, cells@.len() as int);
                }
                return (moved, true);
            }
            k = k + 1;
        }
        (moved, false)
    }

    /// Put the cells of a list back where they were, by their position in `cells`.
    fn restore(&mut self, l: &Land, list: &Vec<usize>, cells: &Vec<usize>, at: &Vec<i32>)
        requires
            l.wf(),
            l.ok(old(self)@),
            all_below(list@, l.count()),
            at@.len() == cells@.len(),
            in_reach(at@),
            forall|k: int| 0 <= k < list@.len() ==> find(cells@, #[trigger] list@[k], 0) < cells@.len(),
        ensures
            l.ok(final(self)@),
            final(self)@ == l.put_back(old(self)@, list@, cells@, at@, list@.len() as int),
            final(self)@.cells == old(self)@.cells,
    {
        let ghost s0 = self@;
        let mut k: usize = 0;
        while k < list.len()
            invariant
                l.wf(),
                l.ok(self@),
                all_below(list@, l.count()),
                at@.len() == cells@.len(),
                in_reach(at@),
                forall|k: int| 0 <= k < list@.len() ==> find(cells@, #[trigger] list@[k], 0) < cells@.len(),
                k <= list@.len(),
                self@ == l.put_back(s0, list@, cells@, at@, k as int),
                self@.cells == s0.cells,
            decreases list@.len() - k,
        {
            let nd: usize = list[k];
            let p: usize = find_in(cells, nd);
            self.repaint_at(l, nd, at[p]);
            k = k + 1;
        }
    }
}

proof fn lemma_realigned_failed(l: Land, s: St, cells: Seq<usize>, lo: int, hi: int, k: int, n: int)
    requires
        0 <= k <= n,
        l.realigned(s, cells, lo, hi, k).failed,
    ensures
        l.realigned(s, cells, lo, hi, n) == l.realigned(s, cells, lo, hi, k),
    decreases n,
{
    if k < n {
        lemma_realigned_failed(l, s, cells, lo, hi, k, n - 1);
    }
}

fn copy_places(v: &Vec<i32>) -> (r: Vec<i32>)
    ensures
        r@ == v@,
{
    let mut out: Vec<i32> = Vec::new();
    let mut k: usize = 0;
    while k < v.len()
        invariant
            k <= v@.len(),
            out@ == v@.subrange(0, k as int),
        decreases v@.len() - k,
    {
        out.push(v[k]);
        k = k + 1;
        assert(out@ =~= v@.subrange(0, k as int));
    }
    assert(out@ =~= v@);
    out
}

impl Live {
    /// Put the cells at positions `a` up to `b` of a segment into their cheapest order between two ends.
    pub fn reorder_window(&mut self, l: &Land, seg: usize, a: usize, b: usize, lo: i32, hi: i32)
        requires
            l.wf(),
            l.ok(old(self)@),
            seg < l.segments@.len(),
            a < b <= old(self)@.cells[seg as int].len(),
            b - a <= 4,
            -2 * COORD_LIMIT <= lo <= 8 * COORD_LIMIT,
            -8 * COORD_LIMIT <= hi <= 2 * COORD_LIMIT,
        ensures
            l.ok(final(self)@),
            final(self)@ == l.reordered(old(self)@, seg, a as int, b as int, lo as int, hi as int),
            final(self)@.cells.len() == old(self)@.cells.len(),
            final(self)@.cells[seg as int].len() == old(self)@.cells[seg as int].len(),
    {
        let ghost s0 = self@;
        let cells = self.part(l, seg, a, b);
        let ghost cv = cells@;
        let n: usize = cells.len();
        let mut orig: Vec<i32> = Vec::new();
        let mut k: usize = 0;
        while k < n
            invariant
                l.ok(self@),
                s0 == self@,
                n == cells@.len(),
                cells@ == cv,
                all_below(cells@, l.count()),
                k <= n,
                orig@ == Seq::new(k as nat, |j: int| s0.nodes[cv[j] as int].left),
                in_reach(orig@),
            decreases n - k,
        {
            assert(node_in(s0.nodes[cv[k as int] as int]));
            orig.push(self.nodes[cells[k]].left);
            k = k + 1;
            assert(orig@ =~= Seq::new(k as nat, |j: int| s0.nodes[cv[j] as int].left));
        }
        assert(orig@ =~= Seq::new(cv.len(), |j: int| s0.nodes[cv[j] as int].left));
        let w: Work = match self.make_window(l, cells, lo, hi) {
            Some(w) => w,
            None => return,
        };
        let c0: Option<i64> = self.reorder_cost(l, &w.cells);
        let spot = self.try_orders(l, &w, c0);
        let at: Vec<i32> = match spot {
            None => {
                self.repaint_all(l, &w.cells, &orig);
                return;
            },
            Some(v) => v,
        };
        self.repaint_all(l, &w.cells, &at);
        self.sort_cells_in_seg(l, seg, a, b);
        let ghost t = self@;
        let line = self.part(l, seg, a, b);
        let (moved, lost) = self.realign(l, &line, lo, hi);
        let ghost g = self@;
        let list = self.part(l, seg, a, b);
        proof {
            assert(list@ == line@);
            assert forall|j: int| 0 <= j < list@.len() implies find(cv, #[trigger] list@[j], 0) < cv.len() by {
                assert(list@[j] == t.cells[seg as int][a + j]);
                assert(cv.contains(list@[j]));
                let i = choose|i: int| 0 <= i < cv.len() && cv[i] == list@[j];
                crate::moves::lemma_found(cv, list@[j], i);
            }
        }
        let mut bad: bool = lost;
        if !bad && moved {
            let c1: Option<i64> = self.reorder_cost(l, &list);
            if !is_below(c1, c0) {
                bad = true;
            }
        }
        if !bad {
            let mut j: usize = 0;
            while j < list.len() && !bad
                invariant
                    l.wf(),
                    l.ok(self@),
                    self@ == g,
                    all_below(list@, l.count()),
                    j <= list@.len(),
                    bad == exists|i: int| 0 <= i < j && #[trigger] l.violates(g, list@[i] as int),
                decreases list@.len() - j,
            {
                if self.has_placement_violation(l, list[j]) {
                    assert(l.violates(g, list@[j as int] as int));
                    bad = true;
                }
                j = j + 1;
            }
        }
        if bad {
            self.restore(l, &list, &w.cells, &orig);
            self.sort_cells_in_seg(l, seg, a, b);
        }
    }
}

// ── passes ───────────────────────────────────────────────────────────────────────────────────

impl Land {
    /// Where a window that ends before position `b` of a segment ends: at the next cell, with its padding,
    /// or at the segment's end.
    pub open spec fn window_hi(&self, s: St, seg: usize, b: int) -> int {
        let v = s.cells[seg as int];
        let hi = self.segments@[seg as int].max_x as int;
        if b < v.len() { imin(s.nodes[v[b] as int].left - s.pads[v[b] as int].0, hi) } else { hi }
    }

    /// Where a window that starts at position `a` of a segment starts: at the cell before, with its
    /// padding, or at the segment's start.
    pub open spec fn window_lo(&self, s: St, seg: usize, a: int) -> int {
        let v = s.cells[seg as int];
        let lo = self.segments@[seg as int].min_x as int;
        if a > 0 { imax(right(s.nodes[v[a - 1] as int]) + s.pads[v[a - 1] as int].1, lo) } else { lo }
    }

    /// The state after the windows of a run of single-height cells, the positions from `i` up to `stop`,
    /// were put in order one after the other. The last cell of the run is in no window.
    pub open spec fn run_reordered(&self, s: St, seg: usize, i: int, stop: int) -> St
        decreases stop - i,
    {
        if i + WINDOW >= stop {
            s
        } else {
            let t = self.reordered(s, seg, i, i + WINDOW, self.window_lo(s, seg, i), self.window_hi(s, seg, i + WINDOW));
            self.run_reordered(t, seg, i + 1, stop)
        }
    }

    /// The first position from `j` on whose cell is single-height, or is not.
    pub open spec fn scan_to(&self, s: St, list: Seq<usize>, single: bool, j: int) -> int
        decreases list.len() - j,
    {
        if j >= list.len() || (self.tall(s, list[j]) == 1) == single { j } else { self.scan_to(s, list, single, j + 1) }
    }

    /// The state after the runs of single-height cells of a segment, from position `j` on, were put in
    /// order. There are `n` cells.
    pub open spec fn runs_reordered(&self, s: St, seg: usize, j: int, n: int) -> St
        decreases n - j,
    {
        let a = self.scan_to(s, s.cells[seg as int], true, j);
        let b = self.scan_to(s, s.cells[seg as int], false, a);
        if j >= n || s.cells[seg as int].len() != n {
            s
        } else {
            let t = self.run_reordered(s, seg, a, b);
            if j < b <= n { self.runs_reordered(t, seg, b, n) } else { t }
        }
    }

    /// The state after the cells of the first `n` segments were put in order.
    pub open spec fn segs_reordered(&self, s: St, n: int) -> St
        decreases n,
    {
        if n <= 0 {
            s
        } else {
            let p = self.segs_reordered(s, n - 1);
            let m = p.cells[n - 1].len() as int;
            if m < 2 { p } else { self.runs_reordered(sorted_part(p, n - 1, 0, m), (n - 1) as usize, 0, m) }
        }
    }

    /// The state after passes of reordering until the length changes little, at most `n` of them.
    pub open spec fn reorder_passes(&self, s: St, n: int) -> St
        decreases n,
    {
        if n <= 0 {
            s
        } else {
            let p = self.segs_reordered(s, self.segments@.len() as int);
            if little(self.wire_length(s), self.wire_length(p)) { p } else { self.reorder_passes(p, n - 1) }
        }
    }

    /// The lengths of the nets after each of these passes.
    pub open spec fn reorder_lengths(&self, s: St, n: int) -> Seq<int>
        decreases n,
    {
        if n <= 0 {
            Seq::empty()
        } else {
            let p = self.segs_reordered(s, self.segments@.len() as int);
            let now = self.wire_length(p);
            seq![now] + (if little(self.wire_length(s), now) { Seq::empty() } else { self.reorder_lengths(p, n - 1) })
        }
    }

    /// The lengths of the nets in reordering: once the segments are in order, and after each pass.
    pub open spec fn stage_lengths(&self, s: St) -> Seq<int> {
        let a = resorted(s, self.segments@.len() as int);
        seq![self.wire_length(a)] + (if self.wire_length(a) == 0 { Seq::empty() } else { self.reorder_lengths(a, PASSES as int) })
    }

    /// The state after reordering: the segments are put in order before and after. Nothing more happens
    /// where the nets have no length.
    pub open spec fn reorder_stage(&self, s: St) -> St {
        let m = self.segments@.len() as int;
        let a = resorted(s, m);
        if self.wire_length(a) == 0 { a } else { resorted(self.reorder_passes(a, PASSES as int), m) }
    }
}

impl Live {
    fn window_end(&self, l: &Land, seg: usize, b: usize) -> (r: i32)
        requires
            l.wf(),
            l.ok(self@),
            seg < l.segments@.len(),
            b <= self@.cells[seg as int].len(),
        ensures
            r == l.window_hi(self@, seg, b as int),
            -8 * COORD_LIMIT <= r <= 2 * COORD_LIMIT,
    {
        assert(seg_end(l.segments@[seg as int].max_x as int));
        assert(self@.cells[seg as int] == self.cells_in_seg@[seg as int]@);
        assert(all_below(self@.cells[seg as int], l.count()));
        let hi: i32 = l.segments[seg].max_x;
        if b < self.cells_in_seg[seg].len() {
            let c: usize = self.cells_in_seg[seg][b];
            assert(node_in(self@.nodes[c as int]) && pad_in(self@.pads[c as int]));
            let x: i32 = self.nodes[c].left - self.pads[c].0;
            if x <= hi { x } else { hi }
        } else {
            hi
        }
    }

    fn window_start(&self, l: &Land, seg: usize, a: usize) -> (r: i32)
        requires
            l.wf(),
            l.ok(self@),
            seg < l.segments@.len(),
            a <= self@.cells[seg as int].len(),
        ensures
            r == l.window_lo(self@, seg, a as int),
            -2 * COORD_LIMIT <= r <= 8 * COORD_LIMIT,
    {
        assert(seg_end(l.segments@[seg as int].min_x as int));
        assert(self@.cells[seg as int] == self.cells_in_seg@[seg as int]@);
        assert(all_below(self@.cells[seg as int], l.count()));
        let lo: i32 = l.segments[seg].min_x;
        if a > 0 {
            let c: usize = self.cells_in_seg[seg][a - 1];
            assert(pad_in(self@.pads[c as int]));
            let x: i32 = self.right_of(l, c) + self.pads[c].1;
            if x >= lo { x } else { lo }
        } else {
            lo
        }
    }

    fn scan(&self, l: &Land, seg: usize, single: bool, j: usize) -> (r: usize)
        requires
            l.wf(),
            l.ok(self@),
            seg < l.segments@.len(),
            j <= self@.cells[seg as int].len(),
        ensures
            r == l.scan_to(self@, self@.cells[seg as int], single, j as int),
            j <= r <= self@.cells[seg as int].len(),
            r < self@.cells[seg as int].len() ==> (l.tall(self@, self@.cells[seg as int][r as int]) == 1) == single,
    {
        let list = &self.cells_in_seg[seg];
        assert(self@.cells[seg as int] == list@);
        assert(all_below(self@.cells[seg as int], l.count()));
        let mut k: usize = j;
        while k < list.len() && self.is_one_high(l, list[k]) != single
            invariant
                l.wf(),
                l.ok(self@),
                list@ == self@.cells[seg as int],
                all_below(list@, l.count()),
                j <= k <= list@.len(),
                l.scan_to(self@, list@, single, k as int) == l.scan_to(self@, list@, single, j as int),
            decreases list@.len() - k,
        {
            k = k + 1;
        }
        k
    }

    /// Put the windows of a run of single-height cells in order, one after the other.
    fn reorder_run(&mut self, l: &Land, seg: usize, start: usize, stop: usize)
        requires
            l.wf(),
            l.ok(old(self)@),
            seg < l.segments@.len(),
            start <= stop <= old(self)@.cells[seg as int].len(),
        ensures
            l.ok(final(self)@),
            final(self)@ == l.run_reordered(old(self)@, seg, start as int, stop as int),
            final(self)@.cells.len() == old(self)@.cells.len(),
            final(self)@.cells[seg as int].len() == old(self)@.cells[seg as int].len(),
    {
        let ghost s0 = self@;
        let mut i: usize = start;
        while stop - i > WINDOW
            invariant
                l.wf(),
                l.ok(self@),
                seg < l.segments@.len(),
                start <= i <= stop,
                stop <= s0.cells[seg as int].len(),
                self@.cells.len() == s0.cells.len(),
                self@.cells[seg as int].len() == s0.cells[seg as int].len(),
                l.run_reordered(self@, seg, i as int, stop as int) == l.run_reordered(s0, seg, start as int, stop as int),
            decreases stop - i,
        {
            let lo: i32 = self.window_start(l, seg, i);
            let hi: i32 = self.window_end(l, seg, i + WINDOW);
            self.reorder_window(l, seg, i, i + WINDOW, lo, hi);
            i = i + 1;
        }
    }

    /// One pass of reordering over all segments, over each run of single-height cells.
    pub fn reorder_pass(&mut self, l: &Land)
        requires
            l.wf(),
            l.ok(old(self)@),
        ensures
            l.ok(final(self)@),
            final(self)@ == l.segs_reordered(old(self)@, l.segments@.len() as int),
    {
        let ghost s0 = self@;
        let m: usize = l.segments.len();
        let mut seg: usize = 0;
        while seg < m
            invariant
                l.wf(),
                l.ok(self@),
                m == l.segments@.len(),
                seg <= m,
                self@ == l.segs_reordered(s0, seg as int),
            decreases m - seg,
        {
            assert(self@.cells[seg as int] == self.cells_in_seg@[seg as int]@);
            let n: usize = self.cells_in_seg[seg].len();
            if n >= 2 {
                self.sort_cells_in_seg(l, seg, 0, n);
                let ghost t = self@;
                let mut j: usize = 0;
                while j < n
                    invariant
                        l.wf(),
                        l.ok(self@),
                        seg < l.segments@.len(),
                        j <= n,
                        self@.cells[seg as int].len() == n,
                        l.runs_reordered(self@, seg, j as int, n as int) == l.runs_reordered(t, seg, 0, n as int),
                    decreases n - j,
                {
                    let a: usize = self.scan(l, seg, true, j);
                    let b: usize = self.scan(l, seg, false, a);
                    assert(j < b);
                    self.reorder_run(l, seg, a, b);
                    j = b;
                }
            }
            seg = seg + 1;
        }
    }

    /// Passes of reordering until the length of the nets changes little. The lengths of the nets before and
    /// after each pass.
    pub fn reorder(&mut self, l: &Land) -> (r: Vec<u64>)
        requires
            l.wf(),
            l.ok(old(self)@),
        ensures
            l.ok(final(self)@),
            final(self)@ == l.reorder_stage(old(self)@),
            wholes(r@) == l.stage_lengths(old(self)@),
    {
        self.resort_segments(l);
        let ghost a = self@;
        let mut last: u64 = self.total_hpwl_xy(l);
        let mut r: Vec<u64> = Vec::new();
        r.push(last);
        let ghost all = l.reorder_lengths(a, PASSES as int);
        if last == 0 {
            assert(wholes(r@) =~= seq![l.wire_length(a)]);
            return r;
        }
        assert(wholes(r@) + all =~= seq![l.wire_length(a)] + all);
        let mut left: usize = PASSES;
        while left > 0
            invariant
                l.wf(),
                l.ok(self@),
                last == l.wire_length(self@),
                last <= COORD_LIMIT * (32 * COORD_LIMIT),
                l.reorder_passes(self@, left as int) == l.reorder_passes(a, PASSES as int),
                wholes(r@) + l.reorder_lengths(self@, left as int) == seq![l.wire_length(a)] + all,
            decreases left,
        {
            let ghost before = self@;
            self.reorder_pass(l);
            let now: u64 = self.total_hpwl_xy(l);
            let ghost r0 = r@;
            r.push(now);
            if changes_little(last, now) {
                proof {
                    assert(wholes(r@) + Seq::<int>::empty() =~= wholes(r0) + (seq![now as int] + Seq::<int>::empty()));
                    assert(l.reorder_passes(before, left as int) == self@);
                    assert(l.reorder_passes(self@, 0) == self@);
                }
                left = 0;
            } else {
                left = left - 1;
                proof {
                    let rest = l.reorder_lengths(self@, left as int);
                    assert(wholes(r@) + rest =~= wholes(r0) + (seq![now as int] + rest));
                }
            }
            last = now;
        }
        assert(wholes(r@) + Seq::<int>::empty() =~= wholes(r@));
        self.resort_segments(l);
        r
    }
}

} // verus!
