//! Moves of cells: the checks they are held to, the journal that undoes them, and the segments that
//! cells leave and join.

use vstd::prelude::*;
use crate::arith::{dist, div_trunc, imax, imin, trunc_quot};
use crate::drc::{agrees2, box_clear, check_blocked_layers, check_one_site_gap, check_padding, gap_free, layers_clear, Claims, Class};
use crate::grid::offers;
use crate::improve::Node;
use crate::land::{all_below, lists_below, node_fits, node_in, ordered, pad_in, reachable, span_fits, square_in, Act, Action, EdgeFault, Land, Live, Square, St};
use crate::rows::{small, Row, COORD_LIMIT};
use crate::segments::{lists, site_of};

verus! {

// ── checks ───────────────────────────────────────────────────────────────────────────────────

/// The routing levels blocked in a square, `None` off the grid.
pub open spec fn levels(l: &Land) -> spec_fn(i32, i32) -> Option<u32> {
    |x: i32, y: i32| if l.grid.inside(x as int, y as int) { Some(l.grid.px(x as int, y as int).blocked_layers) } else { None }
}

/// Whether a square holds a cell, `None` off the grid.
pub open spec fn held(l: &Land, s: St) -> spec_fn(i32, i32) -> Option<bool> {
    |x: i32, y: i32| if l.grid.inside(x as int, y as int) { Some(s.squares[y as int][x as int].cell is Some) } else { None }
}

/// A holder's class, and whether it is the node `nd`.
pub open spec fn holder(l: &Land, nd: int, c: Option<u32>) -> Option<(Class, bool)> {
    match c {
        Some(o) => Some((l.classes@[o as int], o == nd)),
        None => None,
    }
}

/// The claims on a square as node `nd` sees them, `None` off the grid.
pub open spec fn claims_on(l: &Land, s: St, nd: int) -> spec_fn(i32, i32) -> Option<Claims> {
    |x: i32, y: i32| if l.grid.inside(x as int, y as int) {
        Some((holder(l, nd, s.squares[y as int][x as int].cell), holder(l, nd, s.squares[y as int][x as int].padding)))
    } else {
        None
    }
}

impl Land {
    /// Whether two cells lie as a fault says, the first at the place of the grid that it is at.
    pub open spec fn lies_so(&self, s: St, f: EdgeFault) -> bool {
        let (n, o) = (s.nodes[f.node as int], s.nodes[f.other as int]);
        &&& n.orient == f.orient
        &&& o.orient == f.other_orient
        &&& o.left - self.column(n) * self.grid.site_width == f.dx
        &&& o.bottom - self.grid.boundary_y(self.near_row(n)) == f.dy
    }

    /// Whether a node's edges come too close to those of another cell.
    pub open spec fn edges_clash(&self, s: St, nd: int) -> bool {
        exists|k: int| 0 <= k < self.edge_faults@.len() && (#[trigger] self.edge_faults@[k]).node == nd && self.lies_so(s, self.edge_faults@[k])
    }

    /// Whether a node where it lies blocks a routing level its pins use, leaves a gap of one site
    /// where none may be, conflicts with another cell's body or padding, or comes too close to another
    /// cell's edges.
    pub open spec fn violates(&self, s: St, nd: int) -> bool {
        let n = s.nodes[nd];
        let (x, y) = (self.column(n), self.near_row(n));
        let (xe, ye) = (x + self.columns(n), self.grid.end_row(self.grid.boundary_y(y) + n.height));
        let p = s.pad_sites[nd];
        ||| !layers_clear(levels(self), x, xe, y, ye, self.used_layers@[nd])
        ||| (self.disallow_gaps && !gap_free(held(self, s), x, xe, y, ye))
        ||| !box_clear(self.classes@[nd], claims_on(self, s, nd), x - p.0, xe + p.1, y, ye)
        ||| self.edges_clash(s, nd)
    }
}

impl Live {
    /// The square at `(x, y)`, `None` off the grid.
    fn square(&self, l: &Land, x: i32, y: i32) -> (r: Option<Square>)
        requires
            l.wf(),
            l.fits(self@),
        ensures
            r is Some <==> l.grid.inside(x as int, y as int),
            r matches Some(q) ==> q == self@.squares[y as int][x as int],
    {
        if x < 0 || y < 0 || x as usize >= l.grid.row_site_count || y as usize >= l.grid.row_count {
            return None;
        }
        proof {
            assert(self@.squares[y as int].len() == l.grid.row_site_count);
        }
        Some(self.squares[y as usize][x as usize])
    }

    fn who(&self, l: &Land, nd: usize, c: Option<u32>) -> (r: Option<(Class, bool)>)
        requires
            l.wf(),
            c matches Some(o) ==> o < l.count(),
        ensures
            r == holder(l, nd as int, c),
    {
        match c {
            Some(o) => Some((l.classes[o as usize], o as usize == nd)),
            None => None,
        }
    }

    /// Does a node break a placement rule where it lies?
    pub fn has_placement_violation(&self, l: &Land, nd: usize) -> (r: bool)
        requires
            l.wf(),
            l.fits(self@),
            nd < l.count(),
        ensures
            r == l.violates(self@, nd as int),
    {
        let (gx, w) = self.place_of(l, nd);
        let gy: usize = l.grid.grid_round_y(self.nodes[nd].bottom);
        let x: i32 = gx as i32;
        let x_end: i32 = (gx + w) as i32;
        let y: i32 = gy as i32;
        let y_end: i32 = l.grid.grid_end_y(gy as i64, self.nodes[nd].height) as i32;
        let (pl, pr) = self.pad_sites[nd];
        assert(pad_in(self@.pad_sites[nd as int]));
        let blocked = |px: i32, py: i32| -> (o: Option<u32>)
            requires
                l.wf(),
            ensures
                o == levels(l)(px, py),
            {
                match l.grid.pixel(px as i64, py as i64) {
                    Some(p) => Some(p.blocked_layers),
                    None => None,
                }
            };
        let clear: bool = check_blocked_layers(x, x_end, y, y_end, l.used_layers[nd], &blocked);
        proof {
            assert(agrees2(blocked, levels(l)));
        }
        if !clear {
            return true;
        }
        let occupied = |px: i32, py: i32| -> (o: Option<bool>)
            requires
                l.wf(),
                l.fits(self@),
            ensures
                o == held(l, self@)(px, py),
            {
                match self.square(l, px, py) {
                    Some(q) => Some(q.cell.is_some()),
                    None => None,
                }
            };
        let gap_ok: bool = check_one_site_gap(l.disallow_gaps, x, x_end, y, y_end, &occupied);
        proof {
            assert(agrees2(occupied, held(l, self@)));
        }
        if !gap_ok {
            return true;
        }
        let at = |px: i32, py: i32| -> (o: Option<Claims>)
            requires
                l.wf(),
                l.fits(self@),
            ensures
                o == claims_on(l, self@, nd as int)(px, py),
            {
                match self.square(l, px, py) {
                    Some(q) => {
                        assert(square_in(self@.squares[py as int][px as int], l.count()));
                        Some((self.who(l, nd, q.cell), self.who(l, nd, q.padding)))
                    },
                    None => None,
                }
            };
        let free: bool = check_padding(x, x_end, y, y_end, pl, pr, l.classes[nd], &at);
        proof {
            assert(agrees2(at, claims_on(l, self@, nd as int)));
        }
        if !free {
            return true;
        }
        self.has_edge_clash(l, nd, gx, gy)
    }

    /// Does a node, at a column and a row boundary of the grid, come too close to another cell's edges?
    fn has_edge_clash(&self, l: &Land, nd: usize, gx: i64, gy: usize) -> (r: bool)
        requires
            l.wf(),
            l.fits(self@),
            nd < l.count(),
            gx == l.column(self@.nodes[nd as int]),
            gy == l.near_row(self@.nodes[nd as int]),
            -0x8000_0000 <= gx <= 0x7fff_ffff,
        ensures
            r == l.edges_clash(self@, nd as int),
    {
        let ghost s = self@;
        proof {
            let sw = l.grid.site_width as int;
            assert(-0x8000_0000 * 0x8000_0000 <= gx * sw <= 0x8000_0000 * 0x8000_0000) by (nonlinear_arith)
                requires -0x8000_0000 <= gx <= 0x7fff_ffff, 0 <= sw <= 0x7fff_ffff;
        }
        let x: i64 = gx * l.grid.site_width as i64;
        let y: i64 = if gy < l.grid.row_y.len() { l.grid.row_y[gy] as i64 } else { 0 };
        let mut k: usize = 0;
        while k < l.edge_faults.len()
            invariant
                l.wf(),
                l.fits(self@),
                s == self@,
                nd < l.count(),
                k <= l.edge_faults@.len(),
                -0x8000_0000 * 0x8000_0000 <= x <= 0x8000_0000 * 0x8000_0000,
                x == l.column(s.nodes[nd as int]) * l.grid.site_width,
                y == l.grid.boundary_y(l.near_row(s.nodes[nd as int])),
                -0x8000_0000 <= y <= 0x7fff_ffff,
                forall|j: int| 0 <= j < k ==> !((#[trigger] l.edge_faults@[j]).node == nd && l.lies_so(s, l.edge_faults@[j])),
            decreases l.edge_faults@.len() - k,
        {
            let f = l.edge_faults[k];
            assert(l.edge_faults@[k as int].other < l.count());
            let o: &Node = &self.nodes[f.other];
            if f.node == nd && self.nodes[nd].orient == f.orient && o.orient == f.other_orient
                && o.left as i64 - x == f.dx && o.bottom as i64 - y == f.dy {
                assert(l.lies_so(s, l.edge_faults@[k as int]));
                return true;
            }
            k = k + 1;
        }
        false
    }
}

/// The padding between two neighbours, either of which may be missing.
pub open spec fn spacing(s: St, a: Option<usize>, b: Option<usize>) -> int {
    (match a { Some(i) => s.pads[i as int].1 as int, None => 0 }) + (match b { Some(i) => s.pads[i as int].0 as int, None => 0 })
}

/// The site-aligned left edge nearest to `xi` for a cell of a width between `xl` and `xr`, if there
/// is one. Sites are those of the given row.
pub open spec fn aligned(row: Row, width: int, xi: int, xl: int, xr: int) -> Option<int> {
    let hi = xr - width;
    let p = site_of(row, imax(xl, imin(hi, xi)));
    let q = if p < xl { p + row.site_spacing } else if p > hi { p - row.site_spacing } else { p };
    if q < xl || q > hi { None } else { Some(q) }
}

/// An aligned place keeps the cell between the two ends.
pub proof fn law_aligned_fits(row: Row, width: int, xi: int, xl: int, xr: int)
    ensures
        aligned(row, width, xi, xl, xr) matches Some(x) ==> xl <= x && x + width <= xr,
{
}

/// Whether the distance of two coordinates is above a limit.
fn beyond(a: i32, b: i32, limit: i32) -> (r: bool)
    ensures
        r == (dist(a as int, b as int) > limit),
{
    crate::arith::distance(a as i64, b as i64) > limit as i64
}

impl Live {
    /// The padding between two neighbours, either of which may be missing.
    pub fn cell_spacing(&self, l: &Land, a: Option<usize>, b: Option<usize>) -> (r: i32)
        requires
            l.wf(),
            l.fits(self@),
            a matches Some(i) ==> i < l.count(),
            b matches Some(i) ==> i < l.count(),
        ensures
            r == spacing(self@, a, b),
            0 <= r <= 2 * COORD_LIMIT,
    {
        let x: i32 = match a {
            Some(i) => {
                assert(pad_in(self@.pads[i as int]));
                self.pads[i].1
            },
            None => 0,
        };
        let y: i32 = match b {
            Some(i) => {
                assert(pad_in(self@.pads[i as int]));
                self.pads[i].0
            },
            None => 0,
        };
        x + y
    }

    /// The site-aligned left edge nearest to `xi` for a node between `xl` and `xr`, if there is one.
    /// Sites are those of the lowest row, whatever the row.
    pub fn align_pos(&self, l: &Land, nd: usize, xi: i32, xl: i32, xr: i32) -> (r: Option<i32>)
        requires
            l.wf(),
            l.ok(self@),
            nd < l.count(),
            -12 * COORD_LIMIT <= xl <= 12 * COORD_LIMIT,
            -12 * COORD_LIMIT <= xr <= 12 * COORD_LIMIT,
        ensures
            r is Some <==> aligned(l.arch.rows@[0], self@.nodes[nd as int].width as int, xi as int, xl as int, xr as int) is Some,
            r matches Some(x) ==> aligned(l.arch.rows@[0], self@.nodes[nd as int].width as int, xi as int, xl as int, xr as int) == Some(x as int),
    {
        assert(node_in(self@.nodes[nd as int]));
        assert(l.arch.rows@[0].ok());
        let row: &Row = &l.arch.rows[0];
        let sp: i64 = row.site_spacing as i64;
        let origin: i64 = row.left as i64;
        let lo: i64 = xl as i64;
        let hi: i64 = xr as i64 - self.nodes[nd].width as i64;
        let a: i64 = if hi <= xi as i64 { hi } else { xi as i64 };
        let b: i64 = if lo >= a { lo } else { a };
        proof {
            crate::segments::lemma_site_of(*row, b as int);
            let d = b - origin;
            if d >= 0 {
                crate::arith::lemma_quot_bound(d as int, sp as int);
            } else {
                crate::arith::lemma_quot_bound(-d as int, sp as int);
            }
        }
        let q: i64 = div_trunc(b - origin, sp);
        proof {
            let (qq, ss) = (q as int, sp as int);
            assert(-0x1_0000_0000 * 0x0800_0000 <= qq * ss <= 0x1_0000_0000 * 0x0800_0000) by (nonlinear_arith)
                requires -0x1_0000_0000 <= qq <= 0x1_0000_0000, 0 < ss <= 0x0800_0000;
        }
        let mut x: i64 = origin + q * sp;
        if x < lo {
            x = x + sp;
        } else if x > hi {
            x = x - sp;
        }
        if x < lo || x > hi {
            None
        } else {
            Some(x as i32)
        }
    }

    /// Does the grid offer a node's site at a place?
    pub fn check_site_orientation(&self, l: &Land, nd: usize, x: i32, y: i32) -> (r: bool)
        requires
            l.wf(),
            nd < l.count(),
        ensures
            r == l.offered(nd as int, x as int, y as int),
    {
        match l.grid.grid_snap_down_y(y) {
            Some(gy) => self.turn_at(l, nd, div_trunc(x as i64, l.grid.site_width as i64), gy as i64).is_some(),
            None => false,
        }
    }
}

// ── segments ─────────────────────────────────────────────────────────────────────────────────

/// The X of a node's centre.
pub open spec fn center(n: Node) -> int {
    n.left + n.width / 2
}

/// The first position from `i` on whose cell's centre is not left of `x`, the length if none is.
pub open spec fn first_at(nodes: Seq<Node>, list: Seq<usize>, x: int, i: int) -> int
    decreases list.len() - i,
{
    if i >= list.len() || center(nodes[list[i] as int]) >= x { i } else { first_at(nodes, list, x, i + 1) }
}

/// The first position of a number from `i` on, the length if it is not there.
pub open spec fn find(list: Seq<usize>, v: usize, i: int) -> int
    decreases list.len() - i,
{
    if i >= list.len() || list[i] == v { i } else { find(list, v, i + 1) }
}

/// A list without the first occurrence of a number.
pub open spec fn without(list: Seq<usize>, v: usize) -> Seq<usize> {
    if find(list, v, 0) < list.len() { list.remove(find(list, v, 0)) } else { list }
}

/// The first position from `i` on of a number that is not less, the length if there is none.
pub open spec fn slot(list: Seq<usize>, v: usize, i: int) -> int
    decreases list.len() - i,
{
    if i >= list.len() || list[i] >= v { i } else { slot(list, v, i + 1) }
}

/// An ordered list with a number added where it belongs, unless it is there.
pub open spec fn with_id(list: Seq<usize>, v: usize) -> Seq<usize> {
    let k = slot(list, v, 0);
    if k < list.len() && list[k] == v { list } else { list.insert(k, v) }
}

/// The list with the nets of a node's first `n` pins added.
pub open spec fn with_nets(nets: Seq<usize>, s: St, pins: Seq<usize>, n: int) -> Seq<usize>
    decreases n,
{
    if n <= 0 { nets } else { with_id(with_nets(nets, s, pins, n - 1), s.pins[pins[n - 1] as int].edge) }
}

/// The state after a node left a segment.
pub open spec fn leaves(s: St, nd: usize, seg: usize) -> St {
    St {
        cells: s.cells.update(seg as int, without(s.cells[seg as int], nd)),
        homes: s.homes.update(nd as int, without(s.homes[nd as int], seg)),
        util: s.util.update(seg as int, s.util[seg as int].wrapping_sub(s.nodes[nd as int].width as i64)),
        ..s
    }
}

/// The state after a node joined a segment: before the first cell whose centre is not left of its.
pub open spec fn joins(s: St, nd: usize, seg: usize) -> St {
    let list = s.cells[seg as int];
    St {
        cells: s.cells.update(seg as int, list.insert(first_at(s.nodes, list, center(s.nodes[nd as int]), 0), nd)),
        homes: s.homes.update(nd as int, s.homes[nd as int].push(seg)),
        util: s.util.update(seg as int, s.util[seg as int].wrapping_add(s.nodes[nd as int].width as i64)),
        ..s
    }
}

/// The state after a node left the first `n` segments of a list.
pub open spec fn leaves_all(s: St, nd: usize, segs: Seq<usize>, n: int) -> St
    decreases n,
{
    if n <= 0 { s } else { leaves(leaves_all(s, nd, segs, n - 1), nd, segs[n - 1]) }
}

/// The state after a node joined the first `n` segments of a list.
pub open spec fn joins_all(s: St, nd: usize, segs: Seq<usize>, n: int) -> St
    decreases n,
{
    if n <= 0 { s } else { joins(joins_all(s, nd, segs, n - 1), nd, segs[n - 1]) }
}

/// The state with a node at another place.
pub open spec fn placed(s: St, nd: usize, x: i32, y: i32) -> St {
    St { nodes: s.nodes.update(nd as int, Node { left: x, bottom: y, ..s.nodes[nd as int] }), ..s }
}

pub proof fn lemma_first_at(nodes: Seq<Node>, list: Seq<usize>, x: int, i: int)
    requires
        0 <= i <= list.len(),
    ensures
        i <= first_at(nodes, list, x, i) <= list.len(),
        forall|k: int| i <= k < first_at(nodes, list, x, i) ==> center(nodes[#[trigger] list[k] as int]) < x,
        first_at(nodes, list, x, i) < list.len() ==> center(nodes[list[first_at(nodes, list, x, i)] as int]) >= x,
    decreases list.len() - i,
{
    if i < list.len() && center(nodes[list[i] as int]) < x {
        lemma_first_at(nodes, list, x, i + 1);
    }
}

pub proof fn lemma_find(list: Seq<usize>, v: usize, i: int)
    requires
        0 <= i <= list.len(),
    ensures
        i <= find(list, v, i) <= list.len(),
        find(list, v, i) < list.len() ==> list[find(list, v, i)] == v,
    decreases list.len() - i,
{
    if i < list.len() && list[i] != v {
        lemma_find(list, v, i + 1);
    }
}

/// A number of a list is found in it.
pub proof fn lemma_found(list: Seq<usize>, v: usize, k: int)
    requires
        0 <= k < list.len(),
        list[k] == v,
    ensures
        find(list, v, 0) < list.len(),
{
    lemma_found_from(list, v, k, 0);
}

proof fn lemma_found_from(list: Seq<usize>, v: usize, k: int, i: int)
    requires
        0 <= i <= k < list.len(),
        list[k] == v,
    ensures
        find(list, v, i) <= k,
    decreases k - i,
{
    if list[i] != v {
        lemma_found_from(list, v, k, i + 1);
    }
}

proof fn lemma_slot(list: Seq<usize>, v: usize, i: int)
    requires
        0 <= i <= list.len(),
    ensures
        i <= slot(list, v, i) <= list.len(),
        forall|k: int| i <= k < slot(list, v, i) ==> #[trigger] list[k] < v,
        slot(list, v, i) < list.len() ==> list[slot(list, v, i)] >= v,
    decreases list.len() - i,
{
    if i < list.len() && list[i] < v {
        lemma_slot(list, v, i + 1);
    }
}

proof fn lemma_without_below(list: Seq<usize>, v: usize, n: int)
    requires
        all_below(list, n),
    ensures
        all_below(without(list, v), n),
{
    lemma_find(list, v, 0);
    let k = find(list, v, 0);
    if k < list.len() {
        let r = list.remove(k);
        assert forall|j: int| 0 <= j < r.len() implies #[trigger] r[j] < n by {
            assert(r[j] == if j < k { list[j] } else { list[j + 1] });
        }
    }
}

proof fn lemma_insert_below(list: Seq<usize>, k: int, v: usize, n: int)
    requires
        all_below(list, n),
        0 <= k <= list.len(),
        v < n,
    ensures
        all_below(list.insert(k, v), n),
{
    let r = list.insert(k, v);
    assert forall|j: int| 0 <= j < r.len() implies #[trigger] r[j] < n by {
        if j != k {
            assert(r[j] == if j < k { list[j] } else { list[j - 1] });
        }
    }
}

proof fn lemma_lists_update(s: Seq<Seq<usize>>, k: int, t: Seq<usize>, n: int)
    requires
        lists_below(s, n),
        0 <= k < s.len(),
        all_below(t, n),
    ensures
        lists_below(s.update(k, t), n),
{
    assert forall|j: int| 0 <= j < s.len() implies all_below(#[trigger] s.update(k, t)[j], n) by {
        if j != k {
            assert(all_below(s[j], n));
        }
    }
}

/// Leaving a segment keeps the state in its ranges.
pub proof fn lemma_leaves_ok(l: Land, s: St, nd: usize, seg: usize)
    requires
        l.ok(s),
        nd < l.count(),
        seg < l.segments@.len(),
    ensures
        l.ok(leaves(s, nd, seg)),
{
    lemma_without_below(s.cells[seg as int], nd, l.count());
    lemma_without_below(s.homes[nd as int], seg, l.segments@.len() as int);
    lemma_lists_update(s.cells, seg as int, without(s.cells[seg as int], nd), l.count());
    lemma_lists_update(s.homes, nd as int, without(s.homes[nd as int], seg), l.segments@.len() as int);
}

/// Joining a segment keeps the state in its ranges.
pub proof fn lemma_joins_ok(l: Land, s: St, nd: usize, seg: usize)
    requires
        l.ok(s),
        nd < l.count(),
        seg < l.segments@.len(),
    ensures
        l.ok(joins(s, nd, seg)),
{
    let list = s.cells[seg as int];
    lemma_first_at(s.nodes, list, center(s.nodes[nd as int]), 0);
    let k = first_at(s.nodes, list, center(s.nodes[nd as int]), 0);
    lemma_insert_below(list, k, nd, l.count());
    lemma_lists_update(s.cells, seg as int, list.insert(k, nd), l.count());
    lemma_insert_below(s.homes[nd as int], s.homes[nd as int].len() as int, seg, l.segments@.len() as int);
    assert(s.homes[nd as int].push(seg) =~= s.homes[nd as int].insert(s.homes[nd as int].len() as int, seg));
    lemma_lists_update(s.homes, nd as int, s.homes[nd as int].push(seg), l.segments@.len() as int);
}

/// The first position of a number in a list, the length if it is not there.
pub fn find_in(list: &Vec<usize>, v: usize) -> (r: usize)
    ensures
        r == find(list@, v, 0),
        r <= list@.len(),
{
    let mut i: usize = 0;
    while i < list.len() && list[i] != v
        invariant
            i <= list@.len(),
            find(list@, v, i as int) == find(list@, v, 0),
        decreases list@.len() - i,
    {
        i = i + 1;
    }
    i
}

fn insert_id(list: &mut Vec<usize>, v: usize)
    ensures
        final(list)@ == with_id(old(list)@, v),
{
    let mut i: usize = 0;
    while i < list.len() && list[i] < v
        invariant
            i <= list@.len(),
            slot(list@, v, i as int) == slot(list@, v, 0),
        decreases list@.len() - i,
    {
        i = i + 1;
    }
    if i < list.len() && list[i] == v {
        return;
    }
    list.insert(i, v);
}

impl Live {
    /// The X of a node's centre.
    pub fn center_x(&self, l: &Land, nd: usize) -> (r: i32)
        requires
            l.wf(),
            l.fits(self@),
            nd < l.count(),
        ensures
            r == center(self@.nodes[nd as int]),
    {
        assert(node_fits(self@.nodes[nd as int], self@.pad_sites[nd as int]));
        assert(pad_in(self@.pad_sites[nd as int]));
        self.nodes[nd].left + self.nodes[nd].width / 2
    }

    /// The right edge of a node.
    pub fn right_of(&self, l: &Land, nd: usize) -> (r: i32)
        requires
            l.wf(),
            l.fits(self@),
            nd < l.count(),
        ensures
            r == self@.nodes[nd as int].left + self@.nodes[nd as int].width,
            node_in(self@.nodes[nd as int]) ==> -7 * COORD_LIMIT <= r <= 7 * COORD_LIMIT,
    {
        assert(node_fits(self@.nodes[nd as int], self@.pad_sites[nd as int]));
        assert(pad_in(self@.pad_sites[nd as int]));
        self.nodes[nd].left + self.nodes[nd].width
    }

    /// The position of the first cell of a segment whose centre is not left of `x`.
    pub fn lower_bound_x(&self, l: &Land, seg: usize, x: i32) -> (r: usize)
        requires
            l.wf(),
            l.ok(self@),
            seg < l.segments@.len(),
        ensures
            r == first_at(self@.nodes, self@.cells[seg as int], x as int, 0),
            r <= self@.cells[seg as int].len(),
    {
        let list = &self.cells_in_seg[seg];
        assert(self@.cells[seg as int] == list@);
        assert(all_below(self@.cells[seg as int], l.count()));
        let mut i: usize = 0;
        while i < list.len() && self.center_x(l, list[i]) < x
            invariant
                l.wf(),
                l.ok(self@),
                all_below(list@, l.count()),
                i <= list@.len(),
                first_at(self@.nodes, list@, x as int, i as int) == first_at(self@.nodes, list@, x as int, 0),
            decreases list@.len() - i,
        {
            i = i + 1;
        }
        i
    }

    /// Take a node out of a segment.
    pub fn remove_cell_from_segment(&mut self, l: &Land, nd: usize, seg: usize)
        requires
            l.wf(),
            l.ok(old(self)@),
            nd < l.count(),
            seg < l.segments@.len(),
        ensures
            l.ok(final(self)@),
            final(self)@ == leaves(old(self)@, nd, seg),
    {
        let ghost s0 = self@;
        let p: usize = find_in(&self.cells_in_seg[seg], nd);
        assert(s0.cells[seg as int] == self.cells_in_seg@[seg as int]@);
        assert(s0.homes[nd as int] == self.cell_segs@[nd as int]@);
        if p < self.cells_in_seg[seg].len() {
            self.cells_in_seg[seg].remove(p);
        }
        let q: usize = find_in(&self.cell_segs[nd], seg);
        if q < self.cell_segs[nd].len() {
            self.cell_segs[nd].remove(q);
        }
        let u: i64 = self.seg_util[seg].wrapping_sub(self.nodes[nd].width as i64);
        self.seg_util.set(seg, u);
        proof {
            let t = leaves(s0, nd, seg);
            assert(self@.cells =~= t.cells);
            assert(self@.homes =~= t.homes);
            assert(self@.util =~= t.util);
            assert(self@ == t);
            lemma_leaves_ok(*l, s0, nd, seg);
        }
    }

    /// Put a node into a segment, before the first cell whose centre is not left of its.
    pub fn add_cell_to_segment(&mut self, l: &Land, nd: usize, seg: usize)
        requires
            l.wf(),
            l.ok(old(self)@),
            nd < l.count(),
            seg < l.segments@.len(),
        ensures
            l.ok(final(self)@),
            final(self)@ == joins(old(self)@, nd, seg),
    {
        let ghost s0 = self@;
        let x: i32 = self.center_x(l, nd);
        let at: usize = self.lower_bound_x(l, seg, x);
        assert(s0.cells[seg as int] == self.cells_in_seg@[seg as int]@);
        assert(s0.homes[nd as int] == self.cell_segs@[nd as int]@);
        self.cells_in_seg[seg].insert(at, nd);
        self.cell_segs[nd].push(seg);
        let u: i64 = self.seg_util[seg].wrapping_add(self.nodes[nd].width as i64);
        self.seg_util.set(seg, u);
        proof {
            let t = joins(s0, nd, seg);
            assert(self@.cells =~= t.cells);
            assert(self@.homes =~= t.homes);
            assert(self@.util =~= t.util);
            assert(self@ == t);
            lemma_joins_ok(*l, s0, nd, seg);
        }
    }

    /// Take a node out of some segments.
    pub fn leave_all(&mut self, l: &Land, nd: usize, segs: &Vec<usize>)
        requires
            l.wf(),
            l.ok(old(self)@),
            nd < l.count(),
            all_below(segs@, l.segments@.len() as int),
        ensures
            l.ok(final(self)@),
            final(self)@ == leaves_all(old(self)@, nd, segs@, segs@.len() as int),
    {
        let ghost s0 = self@;
        let mut i: usize = 0;
        while i < segs.len()
            invariant
                l.wf(),
                l.ok(self@),
                nd < l.count(),
                all_below(segs@, l.segments@.len() as int),
                i <= segs@.len(),
                self@ == leaves_all(s0, nd, segs@, i as int),
            decreases segs@.len() - i,
        {
            self.remove_cell_from_segment(l, nd, segs[i]);
            i = i + 1;
        }
    }

    /// Put a node into some segments.
    pub fn join_all(&mut self, l: &Land, nd: usize, segs: &Vec<usize>)
        requires
            l.wf(),
            l.ok(old(self)@),
            nd < l.count(),
            all_below(segs@, l.segments@.len() as int),
        ensures
            l.ok(final(self)@),
            final(self)@ == joins_all(old(self)@, nd, segs@, segs@.len() as int),
    {
        let ghost s0 = self@;
        let mut i: usize = 0;
        while i < segs.len()
            invariant
                l.wf(),
                l.ok(self@),
                nd < l.count(),
                all_below(segs@, l.segments@.len() as int),
                i <= segs@.len(),
                self@ == joins_all(s0, nd, segs@, i as int),
            decreases segs@.len() - i,
        {
            self.add_cell_to_segment(l, nd, segs[i]);
            i = i + 1;
        }
    }

    /// Put a node at another place.
    pub fn put(&mut self, l: &Land, nd: usize, x: i32, y: i32)
        requires
            l.wf(),
            l.fits(old(self)@),
            nd < l.count(),
            span_fits(x as int, old(self)@.nodes[nd as int].width as int, old(self)@.pad_sites[nd as int]),
            reachable(y as int),
        ensures
            l.fits(final(self)@),
            l.ok(old(self)@) && reachable(x as int) ==> l.ok(final(self)@),
            final(self)@ == placed(old(self)@, nd, x, y),
    {
        let ghost s0 = self@;
        self.nodes[nd].left = x;
        self.nodes[nd].bottom = y;
        proof {
            assert(node_fits(s0.nodes[nd as int], s0.pad_sites[nd as int]));
            assert(l.ok(s0) ==> node_in(s0.nodes[nd as int]));
            assert(self@.nodes =~= placed(s0, nd, x, y).nodes);
            assert(self@ == placed(s0, nd, x, y));
        }
    }
}

// ── the journal ──────────────────────────────────────────────────────────────────────────────

/// The state with no moves to decide on.
pub open spec fn cleared(s: St) -> St {
    St { journal: Seq::empty(), touched: Seq::empty(), nets: Seq::empty(), ..s }
}

impl Land {
    /// Whether the grid offers a node's site at a place.
    pub open spec fn offered(&self, nd: int, x: int, y: int) -> bool {
        self.grid.row_count > 0 && ({
            let gy = self.grid.snap_down(y);
            0 <= gy < self.grid.row_count && offers(self.grid.row_sites@[gy]@, trunc_quot(x, self.grid.site_width as int), self.sites@[nd]@)
        })
    }

    /// Whether a place is no further from where a node started than it may be.
    pub open spec fn near_start(&self, nd: int, x: int, y: int) -> bool {
        dist(x, self.orig@[nd].0 as int) <= self.max_disp.0 && dist(y, self.orig@[nd].1 as int) <= self.max_disp.1
    }

    /// Whether a move may be listed.
    pub open spec fn listable(&self, s: St, nd: usize, new: (i32, i32), limit: bool) -> bool {
        &&& s.journal.len() < self.move_limit
        &&& self.offered(nd as int, new.0 as int, new.1 as int)
        &&& limit ==> self.near_start(nd as int, new.0 as int, new.1 as int)
    }

    /// The state after a move was made and listed.
    pub open spec fn listed(&self, s: St, nd: usize, cur: (i32, i32), from: Seq<usize>, new: (i32, i32), to: Seq<usize>) -> St {
        let a = leaves_all(self.lifted(s, nd as int), nd, from, from.len() as int);
        let b = self.settled(placed(a, nd, new.0, new.1), nd as int);
        let c = joins_all(b, nd, to, to.len() as int);
        let pins = self.node_pins@[nd as int]@;
        St {
            journal: c.journal.push(Act { node: nd, orig: cur, new, from, to }),
            touched: with_id(c.touched, nd),
            nets: with_nets(c.nets, c, pins, pins.len() as int),
            ..c
        }
    }

    /// A move made if it may be, and whether it was.
    pub open spec fn moved(&self, s: St, nd: usize, cur: (i32, i32), from: Seq<usize>, new: (i32, i32), to: Seq<usize>, limit: bool) -> (bool, St) {
        if self.listable(s, nd, new, limit) { (true, self.listed(s, nd, cur, from, new, to)) } else { (false, s) }
    }

    /// The state after one move was undone.
    pub open spec fn unmade(&self, s: St, a: Act) -> St {
        let b = leaves_all(self.lifted(s, a.node as int), a.node, a.to, a.to.len() as int);
        let c = self.settled_near(placed(b, a.node, a.orig.0, a.orig.1), a.node as int);
        joins_all(c, a.node, a.from, a.from.len() as int)
    }

    /// The state after the first `n` of some moves were undone, the last one first.
    pub open spec fn undone(&self, s: St, acts: Seq<Act>, n: int) -> St
        decreases n,
    {
        if n <= 0 { s } else { self.undone(self.unmade(s, acts[n - 1]), acts, n - 1) }
    }

    /// The state after all listed moves were undone.
    pub open spec fn rejected(&self, s: St) -> St {
        cleared(self.undone(s, s.journal, s.journal.len() as int))
    }

    /// Whether one of the first `n` touched nodes breaks a rule.
    pub open spec fn any_bad(&self, s: St, n: int) -> bool {
        exists|k: int| 0 <= k < n && #[trigger] self.violates(s, s.touched[k] as int)
    }

    /// A move that holds if no node it touches breaks a rule, and is undone otherwise.
    pub open spec fn verified(&self, s: St) -> (bool, St) {
        if self.any_bad(s, s.touched.len() as int) { (false, self.rejected(s)) } else { (true, s) }
    }
}

proof fn lemma_with_id_below(list: Seq<usize>, v: usize, n: int)
    requires
        all_below(list, n),
        ordered(list),
        v < n,
    ensures
        all_below(with_id(list, v), n),
        ordered(with_id(list, v)),
{
    lemma_slot(list, v, 0);
    let k = slot(list, v, 0);
    lemma_insert_below(list, k, v, n);
    let r = with_id(list, v);
    if !(k < list.len() && list[k] == v) {
        assert forall|i: int, j: int| 0 <= i < j < r.len() implies #[trigger] r[i] < #[trigger] r[j] by {
            let a = if i < k { i } else { i - 1 };
            let b = if j < k { j } else { j - 1 };
            if i != k {
                assert(r[i] == list[a]);
            }
            if j != k {
                assert(r[j] == list[b]);
            }
            if i != k && j != k {
                assert(list[a] < list[b]);
            }
            if i == k && b > k {
                assert(list[k] < list[b]);
            }
        }
    }
}

impl Live {
    /// Forget the listed moves.
    pub fn clear_move_list(&mut self, l: &Land)
        requires
            l.wf(),
            l.ok(old(self)@),
        ensures
            l.ok(final(self)@),
            final(self)@ == cleared(old(self)@),
    {
        let ghost s0 = self@;
        self.journal = Vec::new();
        self.affected_nodes = Vec::new();
        self.affected_edges = Vec::new();
        assert(self@.journal =~= Seq::empty());
        assert(self@.touched =~= Seq::empty());
        assert(self@.nets =~= Seq::empty());
        assert(self@ == cleared(s0));
    }

    /// Keep the listed moves.
    pub fn accept_move(&mut self, l: &Land)
        requires
            l.wf(),
            l.ok(old(self)@),
        ensures
            l.ok(final(self)@),
            final(self)@ == cleared(old(self)@),
    {
        self.clear_move_list(l);
    }

    fn note_nets(&mut self, l: &Land, nd: usize)
        requires
            l.wf(),
            l.ok(old(self)@),
            nd < l.count(),
        ensures
            l.ok(final(self)@),
            final(self)@ == (St { nets: with_nets(old(self)@.nets, old(self)@, l.node_pins@[nd as int]@, l.node_pins@[nd as int]@.len() as int), ..old(self)@ }),
    {
        let ghost s0 = self@;
        let pins = &l.node_pins[nd];
        assert(lists(l.node_pins@)[nd as int] == pins@);
        let mut i: usize = 0;
        while i < pins.len()
            invariant
                l.wf(),
                l.ok(self@),
                l.ok(s0),
                all_below(pins@, s0.pins.len() as int),
                i <= pins@.len(),
                self@ == (St { nets: with_nets(s0.nets, s0, pins@, i as int), ..s0 }),
            decreases pins@.len() - i,
        {
            let e: usize = self.pins[pins[i]].edge;
            assert(s0.pins[pins@[i as int] as int].edge < l.edges@.len());
            let ghost before = self@;
            insert_id(&mut self.affected_edges, e);
            proof {
                lemma_with_id_below(before.nets, e, l.edges@.len() as int);
                assert(self@ == (St { nets: with_nets(s0.nets, s0, pins@, i + 1), ..s0 }));
            }
            i = i + 1;
        }
    }

    /// Make a move at once and list it, unless the list is full, the grid does not offer the node's
    /// site there, or, where `limit` says so, the place is too far from where the node started.
    pub fn add_to_move_list(&mut self, l: &Land, nd: usize, cur: (i32, i32), cur_segs: Vec<usize>, new: (i32, i32), new_segs: Vec<usize>, limit: bool) -> (r: bool)
        requires
            l.wf(),
            l.ok(old(self)@),
            nd < l.count(),
            reachable(cur.0 as int),
            reachable(cur.1 as int),
            all_below(cur_segs@, l.segments@.len() as int),
            all_below(new_segs@, l.segments@.len() as int),
            !limit ==> reachable(new.0 as int) && reachable(new.1 as int),
        ensures
            l.ok(final(self)@),
            (r, final(self)@) == l.moved(old(self)@, nd, cur, cur_segs@, new, new_segs@, limit),
            r ==> reachable(new.0 as int) && reachable(new.1 as int),
    {
        let ghost s0 = self@;
        if self.journal.len() >= l.move_limit {
            return false;
        }
        if !self.check_site_orientation(l, nd, new.0, new.1) {
            return false;
        }
        if limit {
            let o = l.orig[nd];
            assert(small(l.orig@[nd as int].0 as int) && small(l.orig@[nd as int].1 as int));
            if beyond(new.0, o.0, l.max_disp.0) || beyond(new.1, o.1, l.max_disp.1) {
                return false;
            }
        }
        self.erase_from_grid(l, nd);
        self.leave_all(l, nd, &cur_segs);
        self.put(l, nd, new.0, new.1);
        self.paint_in_grid(l, nd);
        self.join_all(l, nd, &new_segs);
        let ghost c = self@;
        insert_id(&mut self.affected_nodes, nd);
        proof {
            lemma_with_id_below(c.touched, nd, l.count());
            assert(self@ == (St { touched: with_id(c.touched, nd), ..c }));
        }
        let ghost d = self@;
        self.note_nets(l, nd);
        let ghost e = self@;
        self.journal.push(Action { node: nd, orig: cur, new, orig_segs: cur_segs, new_segs });
        proof {
            let a = Act { node: nd, orig: cur, new, from: cur_segs@, to: new_segs@ };
            assert(self@.journal =~= e.journal.push(a));
            lemma_nets_same(c, d, c.nets, l.node_pins@[nd as int]@, l.node_pins@[nd as int]@.len() as int);
            assert(self@ == l.listed(s0, nd, cur, cur_segs@, new, new_segs@));
            assert(l.act_in(a));
        }
        true
    }

    /// Make a move within or between single segments.
    pub fn add_move(&mut self, l: &Land, nd: usize, cur: (i32, i32), cur_seg: usize, new: (i32, i32), new_seg: usize) -> (r: bool)
        requires
            l.wf(),
            l.ok(old(self)@),
            nd < l.count(),
            reachable(cur.0 as int),
            reachable(cur.1 as int),
            cur_seg < l.segments@.len(),
            new_seg < l.segments@.len(),
        ensures
            l.ok(final(self)@),
            (r, final(self)@) == l.moved(old(self)@, nd, cur, seq![cur_seg], new, seq![new_seg], true),
            r ==> reachable(new.0 as int) && reachable(new.1 as int),
    {
        let mut a: Vec<usize> = Vec::new();
        a.push(cur_seg);
        let mut b: Vec<usize> = Vec::new();
        b.push(new_seg);
        assert(a@ =~= seq![cur_seg]);
        assert(b@ =~= seq![new_seg]);
        self.add_to_move_list(l, nd, cur, a, new, b, true)
    }

    /// Undo the listed moves, the last one first, and forget them.
    pub fn reject_move(&mut self, l: &Land)
        requires
            l.wf(),
            l.ok(old(self)@),
        ensures
            l.ok(final(self)@),
            final(self)@ == l.rejected(old(self)@),
    {
        let ghost s0 = self@;
        let ghost acts = s0.journal;
        let mut n: usize = self.journal.len();
        while n > 0
            invariant
                l.wf(),
                l.ok(self@),
                n <= acts.len(),
                self@.journal == acts,
                l.undone(self@, acts, n as int) == l.undone(s0, acts, acts.len() as int),
            decreases n,
        {
            let nd: usize = self.journal[n - 1].node;
            let orig = self.journal[n - 1].orig;
            let from = copy_list(&self.journal[n - 1].orig_segs);
            let to = copy_list(&self.journal[n - 1].new_segs);
            let ghost before = self@;
            let ghost a = acts[n - 1];
            assert(l.act_in(a));
            assert(before.journal[n - 1] == a);
            self.erase_from_grid(l, nd);
            self.leave_all(l, nd, &to);
            self.put(l, nd, orig.0, orig.1);
            self.paint_in_grid_round(l, nd);
            self.join_all(l, nd, &from);
            proof {
                assert(self@ == l.unmade(before, a));
                lemma_unmade_frame(*l, before, a);
            }
            n = n - 1;
        }
        self.clear_move_list(l);
    }

    /// Hold the listed moves to the rules: keep them listed if no touched node breaks one, undo and
    /// forget them otherwise.
    pub fn verify_move(&mut self, l: &Land) -> (r: bool)
        requires
            l.wf(),
            l.ok(old(self)@),
        ensures
            l.ok(final(self)@),
            (r, final(self)@) == l.verified(old(self)@),
    {
        let mut i: usize = 0;
        while i < self.affected_nodes.len()
            invariant
                l.wf(),
                l.ok(self@),
                self@ == old(self)@,
                i <= self.affected_nodes@.len(),
                !l.any_bad(self@, i as int),
            decreases self.affected_nodes@.len() - i,
        {
            let nd: usize = self.affected_nodes[i];
            assert(self@.touched[i as int] == nd);
            if self.has_placement_violation(l, nd) {
                assert(l.violates(self@, self@.touched[i as int] as int));
                self.reject_move(l);
                return false;
            }
            i = i + 1;
        }
        true
    }
}

/// Leaving segments changes nothing but the segments.
pub proof fn lemma_leaves_frame(s: St, nd: usize, segs: Seq<usize>, n: int)
    ensures
        leaves_all(s, nd, segs, n) == (St {
            cells: leaves_all(s, nd, segs, n).cells,
            homes: leaves_all(s, nd, segs, n).homes,
            util: leaves_all(s, nd, segs, n).util,
            ..s
        }),
    decreases n,
{
    if n > 0 {
        lemma_leaves_frame(s, nd, segs, n - 1);
    }
}

/// Joining segments changes nothing but the segments.
pub proof fn lemma_joins_frame(s: St, nd: usize, segs: Seq<usize>, n: int)
    ensures
        joins_all(s, nd, segs, n) == (St {
            cells: joins_all(s, nd, segs, n).cells,
            homes: joins_all(s, nd, segs, n).homes,
            util: joins_all(s, nd, segs, n).util,
            ..s
        }),
    decreases n,
{
    if n > 0 {
        lemma_joins_frame(s, nd, segs, n - 1);
    }
}

proof fn lemma_unmade_frame(l: Land, s: St, a: Act)
    ensures
        l.unmade(s, a).journal == s.journal,
        l.unmade(s, a).touched == s.touched,
        l.unmade(s, a).nets == s.nets,
{
    let b = leaves_all(l.lifted(s, a.node as int), a.node, a.to, a.to.len() as int);
    lemma_leaves_frame(l.lifted(s, a.node as int), a.node, a.to, a.to.len() as int);
    let c = l.settled_near(placed(b, a.node, a.orig.0, a.orig.1), a.node as int);
    lemma_joins_frame(c, a.node, a.from, a.from.len() as int);
}

/// A copy of a list.
pub fn copy_list(v: &Vec<usize>) -> (r: Vec<usize>)
    ensures
        r@ == v@,
{
    let mut out: Vec<usize> = Vec::new();
    let mut k: usize = 0;
    while k < v.len()
        invariant
            k <= v@.len(),
            out@ == v@.subrange(0, k as int),
        decreases v@.len() - k,
    {
        out.push(v[k]);
        k = k + 1;
        assert(out@ =~= v@.subrange(0, k as int));
    }
    assert(out@ =~= v@);
    out
}

proof fn lemma_nets_same(a: St, b: St, nets: Seq<usize>, pins: Seq<usize>, n: int)
    requires
        a.pins == b.pins,
    ensures
        with_nets(nets, a, pins, n) == with_nets(nets, b, pins, n),
    decreases n,
{
    if n > 0 {
        lemma_nets_same(a, b, nets, pins, n - 1);
    }
}

/// Where the nodes are.
pub open spec fn places(s: St) -> Seq<(i32, i32)> {
    Seq::new(s.nodes.len(), |k: int| (s.nodes[k].left, s.nodes[k].bottom))
}

/// Where the nodes are after the first `n` of some moves were undone.
spec fn retraced(p: Seq<(i32, i32)>, acts: Seq<Act>, n: int) -> Seq<(i32, i32)>
    decreases n,
{
    if n <= 0 { p } else { retraced(p.update(acts[n - 1].node as int, acts[n - 1].orig), acts, n - 1) }
}

proof fn lemma_unmade_places(l: Land, s: St, a: Act)
    requires
        a.node < s.nodes.len(),
    ensures
        places(l.unmade(s, a)) == places(s).update(a.node as int, a.orig),
{
    let x = l.lifted(s, a.node as int);
    lemma_leaves_frame(x, a.node, a.to, a.to.len() as int);
    let b = leaves_all(x, a.node, a.to, a.to.len() as int);
    let c = l.settled_near(placed(b, a.node, a.orig.0, a.orig.1), a.node as int);
    lemma_joins_frame(c, a.node, a.from, a.from.len() as int);
    assert(places(l.unmade(s, a)) =~= places(s).update(a.node as int, a.orig));
}

proof fn lemma_undone_places(l: Land, s: St, acts: Seq<Act>, n: int)
    requires
        0 <= n <= acts.len(),
        forall|k: int| 0 <= k < acts.len() ==> (#[trigger] acts[k]).node < s.nodes.len(),
    ensures
        places(l.undone(s, acts, n)) == retraced(places(s), acts, n),
    decreases n,
{
    if n > 0 {
        let t = l.unmade(s, acts[n - 1]);
        lemma_unmade_places(l, s, acts[n - 1]);
        assert(t.nodes.len() == places(t).len());
        assert(s.nodes.len() == places(s).len());
        lemma_undone_places(l, t, acts, n - 1);
    }
}

proof fn lemma_retraced_prefix(p: Seq<(i32, i32)>, a: Seq<Act>, b: Seq<Act>, n: int)
    requires
        0 <= n <= a.len(),
        n <= b.len(),
        forall|k: int| 0 <= k < n ==> a[k] == b[k],
    ensures
        retraced(p, a, n) == retraced(p, b, n),
    decreases n,
{
    if n > 0 {
        lemma_retraced_prefix(p.update(a[n - 1].node as int, a[n - 1].orig), a, b, n - 1);
    }
}

/// Undoing the listed moves puts every node back where it was before the first of them: with no
/// moves listed nothing moves, and listing one more move from where a node is leaves the places to
/// which undoing leads as they were.
pub proof fn law_rejecting_restores_places(l: Land, s: St, nd: usize, from: Seq<usize>, new: (i32, i32), to: Seq<usize>)
    requires
        l.ok(s),
        nd < l.count(),
    ensures
        s.journal.len() == 0 ==> places(l.rejected(s)) == places(s),
        places(l.rejected(l.listed(s, nd, places(s)[nd as int], from, new, to))) == places(l.rejected(s)),
{
    let cur = places(s)[nd as int];
    let t = l.listed(s, nd, cur, from, new, to);
    let x = l.lifted(s, nd as int);
    lemma_leaves_frame(x, nd, from, from.len() as int);
    let a = leaves_all(x, nd, from, from.len() as int);
    let b = l.settled(placed(a, nd, new.0, new.1), nd as int);
    lemma_joins_frame(b, nd, to, to.len() as int);
    assert(places(t) =~= places(s).update(nd as int, new));
    let act = Act { node: nd, orig: cur, new, from, to };
    assert(t.journal == s.journal.push(act));
    let n = s.journal.len() as int;
    assert forall|k: int| 0 <= k < t.journal.len() implies (#[trigger] t.journal[k]).node < t.nodes.len() by {
        if k < n {
            assert(l.act_in(s.journal[k]));
        }
        assert(t.nodes.len() == places(t).len());
    }
    assert forall|k: int| 0 <= k < s.journal.len() implies (#[trigger] s.journal[k]).node < s.nodes.len() by {
        assert(l.act_in(s.journal[k]));
    }
    lemma_undone_places(l, t, t.journal, n + 1);
    lemma_undone_places(l, s, s.journal, n);
    assert(places(t).update(nd as int, cur) =~= places(s));
    lemma_retraced_prefix(places(s), t.journal, s.journal, n);
    assert(places(l.rejected(t)) =~= places(l.undone(t, t.journal, n + 1)));
    assert(places(l.rejected(s)) =~= places(l.undone(s, s.journal, n)));
}

} // verus!
