//! Orientation of the cells: for the rows they are in, and flipped where that shortens their nets.

use vstd::prelude::*;
use crate::arith::{imax, imin};
use crate::checks::movable;
use crate::improve::Kind;
use crate::land::{all_below, node_in, pad_in, seg_end, Land, Live, St};
use crate::moves::copy_list;
use crate::objective::SKIP_NETS_LARGER_THAN;
use crate::orient::{is_legal_sym, sym_allows, Orient, Symmetry};
use crate::rows::{small, COORD_LIMIT};
use crate::segments::{lists, Segment};
use crate::tries::right;

verus! {

// ── orientation for rows ─────────────────────────────────────────────────────────────────────

/// Whether a single-height cell of an orientation fits a row, and the orientation it then has: one not
/// upside down for the row.
pub open spec fn row_fit(row: Orient, cell: Orient, sym: Symmetry) -> (bool, Orient) {
    match row {
        Orient::R0 | Orient::MY => match cell {
            Orient::R0 | Orient::MY => (sym_allows(sym, cell), cell),
            Orient::MX => (true, Orient::R0),
            Orient::R180 => if sym_allows(sym, Orient::MY) { (true, Orient::MY) } else { (false, cell) },
            _ => (false, cell),
        },
        Orient::MX | Orient::R180 => match cell {
            Orient::MX | Orient::R180 => (sym_allows(sym, cell), cell),
            Orient::R0 => if sym_allows(sym, Orient::MX) { (true, Orient::MX) } else { (false, cell) },
            Orient::MY => if sym_allows(sym, Orient::R180) { (true, Orient::R180) } else { (false, cell) },
            _ => (false, cell),
        },
        _ => (false, cell),
    }
}

/// A cell that fits a row is not upside down for it, and its master's symmetry allows how it lies unless
/// it was turned back to lie unturned.
pub proof fn law_row_fit_is_upright(row: Orient, cell: Orient, sym: Symmetry)
    ensures
        ({
            let f = row_fit(row, cell, sym);
            &&& f.0 ==> sym_allows(sym, f.1)
            &&& f.0 && (row == Orient::R0 || row == Orient::MY) ==> f.1 == Orient::R0 || f.1 == Orient::MY
            &&& f.0 && (row == Orient::MX || row == Orient::R180) ==> f.1 == Orient::MX || f.1 == Orient::R180
            &&& !f.0 ==> f.1 == cell
        }),
{
}

impl Land {
    /// Whether a cell of several rows fits a row, and the orientation it then has: turned over where the
    /// rails ask for it.
    pub open spec fn rails_turn(&self, nd: usize, row: int, cell: Orient) -> (bool, Orient) {
        let sym = self.sym@[nd as int];
        if !self.rails_fit(nd, row) {
            (false, cell)
        } else if self.rails@[nd as int]@[row].1 {
            match cell.upended() {
                Some(o) => if sym_allows(sym, o) { (true, o) } else { (false, cell) },
                None => (false, cell),
            }
        } else {
            (sym_allows(sym, cell), cell)
        }
    }

    /// Whether a node fits its lowest row, and the orientation it then has.
    pub open spec fn fit_of(&self, s: St, nd: usize) -> (bool, Orient) {
        let row = self.low_row(s, nd as int, s.homes[nd as int].len() as int);
        let cell = s.nodes[nd as int].orient;
        if self.tall(s, nd) == 1 { row_fit(self.arch.rows@[row].orient, cell, self.sym@[nd as int]) } else { self.rails_turn(nd, row, cell) }
    }

    /// The state after a node was oriented for its lowest row, whether it does not fit one, and whether
    /// its orientation changed.
    pub open spec fn oriented_one(&self, s: St, nd: usize) -> (St, bool, bool) {
        if !movable(s.nodes[nd as int]) {
            (s, false, false)
        } else if s.homes[nd as int].len() == 0 {
            (s, true, false)
        } else {
            let f = self.fit_of(s, nd);
            let o = s.nodes[nd as int].orient;
            (if f.1 != o { self.turned(s, nd as int, f.1) } else { s }, !f.0, f.1 != o)
        }
    }

    /// The state after the first `n` nodes were oriented, how many fit no row, and how many changed.
    pub open spec fn oriented(&self, s: St, n: int) -> (St, int, int)
        decreases n,
    {
        if n <= 0 {
            (s, 0, 0)
        } else {
            let p = self.oriented(s, n - 1);
            let q = self.oriented_one(p.0, (n - 1) as usize);
            (q.0, p.1 + (if q.1 { 1int } else { 0int }), p.2 + (if q.2 { 1int } else { 0int }))
        }
    }
}

impl Live {
    /// Whether a single-height cell fits a row, and the orientation it then has.
    pub fn orient_single(&self, l: &Land, nd: usize, row: usize) -> (r: (bool, Orient))
        requires
            l.wf(),
            l.ok(self@),
            nd < l.count(),
            row < l.arch.rows@.len(),
        ensures
            r == row_fit(l.arch.rows@[row as int].orient, self@.nodes[nd as int].orient, l.sym@[nd as int]),
    {
        let cell: Orient = self.nodes[nd].orient;
        let sym: Symmetry = l.sym[nd];
        match l.arch.rows[row].orient {
            Orient::R0 | Orient::MY => match cell {
                Orient::R0 | Orient::MY => (is_legal_sym(sym, cell), cell),
                Orient::MX => (true, Orient::R0),
                Orient::R180 => if is_legal_sym(sym, Orient::MY) { (true, Orient::MY) } else { (false, cell) },
                _ => (false, cell),
            },
            Orient::MX | Orient::R180 => match cell {
                Orient::MX | Orient::R180 => (is_legal_sym(sym, cell), cell),
                Orient::R0 => if is_legal_sym(sym, Orient::MX) { (true, Orient::MX) } else { (false, cell) },
                Orient::MY => if is_legal_sym(sym, Orient::R180) { (true, Orient::R180) } else { (false, cell) },
                _ => (false, cell),
            },
            _ => (false, cell),
        }
    }

    /// Whether a cell of several rows fits a row, and the orientation it then has.
    pub fn orient_multi(&self, l: &Land, nd: usize, row: usize) -> (r: (bool, Orient))
        requires
            l.wf(),
            l.ok(self@),
            nd < l.count(),
        ensures
            r == l.rails_turn(nd, row as int, self@.nodes[nd as int].orient),
    {
        let cell: Orient = self.nodes[nd].orient;
        let sym: Symmetry = l.sym[nd];
        if !(row < l.rails[nd].len() && l.rails[nd][row].0) {
            return (false, cell);
        }
        if l.rails[nd][row].1 {
            return match cell.upend() {
                Some(o) => if is_legal_sym(sym, o) { (true, o) } else { (false, cell) },
                None => (false, cell),
            };
        }
        (is_legal_sym(sym, cell), cell)
    }

    /// Orient every movable node for the lowest row it is in. How many fit no row, and how many changed.
    pub fn orient_cells(&mut self, l: &Land) -> (r: (usize, usize))
        requires
            l.wf(),
            l.ok(old(self)@),
        ensures
            l.ok(final(self)@),
            (final(self)@, r.0 as int, r.1 as int) == l.oriented(old(self)@, l.count()),
    {
        let ghost s0 = self@;
        let n: usize = l.sites.len();
        let mut errors: usize = 0;
        let mut changed: usize = 0;
        let mut nd: usize = 0;
        while nd < n
            invariant
                l.wf(),
                l.ok(self@),
                n == l.count(),
                nd <= n,
                (self@, errors as int, changed as int) == l.oriented(s0, nd as int),
                errors <= nd,
                changed <= nd,
            decreases n - nd,
        {
            assert(self@.homes[nd as int] == self.cell_segs@[nd as int]@);
            if self.nodes[nd].kind != Kind::Terminal && !self.nodes[nd].fixed {
                if self.cell_segs[nd].len() == 0 {
                    errors = errors + 1;
                } else {
                    let row: usize = self.lowest_row(l, nd);
                    let f: (bool, Orient) = if self.is_one_high(l, nd) { self.orient_single(l, nd, row) } else { self.orient_multi(l, nd, row) };
                    let o: Orient = self.nodes[nd].orient;
                    if !f.0 {
                        errors = errors + 1;
                    }
                    if f.1 != o {
                        changed = changed + 1;
                        self.adjust_orient(l, nd, f.1);
                    }
                }
            }
            nd = nd + 1;
        }
        (errors, changed)
    }
}

// ── flips ────────────────────────────────────────────────────────────────────────────────────

/// Twice the X of a pin, with its node's width halved exactly.
pub open spec fn twice_x(s: St, p: usize) -> int {
    let q = s.pins[p as int];
    2 * s.nodes[q.node as int].left + s.nodes[q.node as int].width + 2 * q.ox
}

/// Twice the X that a pin has if a node is flipped about Y.
pub open spec fn twice_x_flipped(s: St, p: usize, nd: usize) -> int {
    let q = s.pins[p as int];
    if q.node == nd { 2 * s.nodes[q.node as int].left + s.nodes[q.node as int].width - 2 * q.ox } else { twice_x(s, p) }
}

/// Twice the least and greatest X of the first `n` pins of a list, for `n > 0`, if a node is flipped or
/// not.
pub open spec fn twice_span(s: St, list: Seq<usize>, nd: usize, flip: bool, n: int) -> (int, int)
    decreases n,
{
    let x = if flip { twice_x_flipped(s, list[n - 1], nd) } else { twice_x(s, list[n - 1]) };
    if n <= 1 {
        (x, x)
    } else {
        let b = twice_span(s, list, nd, flip, n - 1);
        (imin(b.0, x), imax(b.1, x))
    }
}

impl Land {
    /// The nets of a node's first `n` pins that count, each once.
    pub open spec fn nets_once(&self, s: St, nd: usize, n: int) -> Seq<usize>
        decreases n,
    {
        if n <= 0 {
            Seq::empty()
        } else {
            let v = self.nets_once(s, nd, n - 1);
            let e = s.pins[self.node_pins@[nd as int]@[n - 1] as int].edge;
            if self.net_counts(e as int) && !v.contains(e) { v.push(e) } else { v }
        }
    }

    /// Twice the summed X extents of the first `n` of some nets, if a node is flipped or not.
    pub open spec fn twice_extent(&self, s: St, nets: Seq<usize>, nd: usize, flip: bool, n: int) -> int
        decreases n,
    {
        if n <= 0 {
            0
        } else {
            let list = self.edges@[nets[n - 1] as int]@;
            let b = twice_span(s, list, nd, flip, list.len() as int);
            self.twice_extent(s, nets, nd, flip, n - 1) + (b.1 - b.0)
        }
    }

    /// Whether flipping a node about Y makes its nets shorter in X.
    pub open spec fn flip_shortens(&self, s: St, nd: usize) -> bool {
        let v = self.nets_once(s, nd, self.node_pins@[nd as int]@.len() as int);
        self.twice_extent(s, v, nd, true, v.len() as int) < self.twice_extent(s, v, nd, false, v.len() as int)
    }
}

/// The neighbour before a position of a list.
pub open spec fn prev_of(list: Seq<usize>, i: int) -> Option<usize> {
    if i <= 0 { None } else { Some(list[i - 1]) }
}

/// The neighbour behind a position of a list.
pub open spec fn next_of(list: Seq<usize>, i: int) -> Option<usize> {
    if i + 1 >= list.len() { None } else { Some(list[i + 1]) }
}

/// Where the space of a cell begins: at its left neighbour, with or without its padding.
pub open spec fn flip_lo(s: St, g: Segment, p: Option<usize>, pad: bool) -> int {
    match p {
        Some(a) => right(s.nodes[a as int]) + (if pad { s.pads[a as int].1 as int } else { 0 }),
        None => g.min_x as int,
    }
}

/// Where the space of a cell ends: at its right neighbour, with or without its padding.
pub open spec fn flip_hi(s: St, g: Segment, q: Option<usize>, pad: bool) -> int {
    match q {
        Some(b) => s.nodes[b as int].left - (if pad { s.pads[b as int].0 as int } else { 0 }),
        None => g.max_x as int,
    }
}

impl Land {
    /// Whether a cell has room to be flipped between its neighbours: its padding changes sides.
    pub open spec fn flip_has_room(&self, s: St, g: Segment, list: Seq<usize>, i: int) -> bool {
        let nd = list[i] as int;
        let n = s.nodes[nd];
        n.left - s.pads[nd].1 >= flip_lo(s, g, prev_of(list, i), true) && right(n) + s.pads[nd].0 <= flip_hi(s, g, next_of(list, i), true)
    }

    /// The state after the cell at a position of a segment had its turn to be flipped, and whether the
    /// flip counts. A flipped cell that is too wide for its space stays flipped and is not counted. A
    /// counted flip sets both paddings of the cell to its left one.
    pub open spec fn flipped_one(&self, s: St, g: Segment, list: Seq<usize>, i: int) -> (St, bool) {
        let nd = list[i];
        let o = s.nodes[nd as int].orient;
        if self.tall(s, nd) != 1 || !self.flip_shortens(s, nd) || !self.flip_has_room(s, g, list, i) || o.flipped() is None {
            (s, false)
        } else {
            let t = self.turned(s, nd as int, o.flipped()->Some_0);
            if self.violates(t, nd as int) {
                (self.turned(t, nd as int, o), false)
            } else if t.nodes[nd as int].width > flip_hi(t, g, next_of(list, i), false) - flip_lo(t, g, prev_of(list, i), false) {
                (t, false)
            } else {
                let (a, b) = (t.pads[nd as int].0, t.pad_sites[nd as int].0);
                (St { pads: t.pads.update(nd as int, (a, a)), pad_sites: t.pad_sites.update(nd as int, (b, b)), ..t }, true)
            }
        }
    }

    /// The state after the first `n` cells of a segment had their turn, and how many flips count.
    pub open spec fn flipped_in(&self, s: St, g: Segment, list: Seq<usize>, n: int) -> (St, int)
        decreases n,
    {
        if n <= 0 {
            (s, 0)
        } else {
            let p = self.flipped_in(s, g, list, n - 1);
            let q = self.flipped_one(p.0, g, list, n - 1);
            (q.0, p.1 + (if q.1 { 1int } else { 0int }))
        }
    }

    /// The state after the cells of the first `n` segments had their turn, and how many flips count. Only
    /// rows whose sites may be mirrored about Y take part.
    pub open spec fn flipped_all(&self, s: St, n: int) -> (St, int)
        decreases n,
    {
        if n <= 0 {
            (s, 0)
        } else {
            let p = self.flipped_all(s, n - 1);
            let g = self.segments@[n - 1];
            if self.arch.rows@[g.row as int].sym_y {
                let q = self.flipped_in(p.0, g, p.0.cells[n - 1], p.0.cells[n - 1].len() as int);
                (q.0, p.1 + q.1)
            } else {
                p
            }
        }
    }
}

fn holds(v: &Vec<usize>, e: usize) -> (r: bool)
    ensures
        r == v@.contains(e),
{
    let mut k: usize = 0;
    while k < v.len()
        invariant
            k <= v@.len(),
            forall|j: int| 0 <= j < k ==> v@[j] != e,
        decreases v@.len() - k,
    {
        if v[k] == e {
            return true;
        }
        k = k + 1;
    }
    false
}

impl Live {
    /// The nets of a node's pins that count, each once.
    pub fn nets_of(&self, l: &Land, nd: usize) -> (r: Vec<usize>)
        requires
            l.wf(),
            l.ok(self@),
            nd < l.count(),
        ensures
            r@ == l.nets_once(self@, nd, l.node_pins@[nd as int]@.len() as int),
            all_below(r@, l.edges@.len() as int),
            forall|k: int| 0 <= k < r@.len() ==> l.net_counts(#[trigger] r@[k] as int),
            r@.no_duplicates(),
    {
        let pins = &l.node_pins[nd];
        assert(lists(l.node_pins@)[nd as int] == pins@);
        let mut out: Vec<usize> = Vec::new();
        let mut k: usize = 0;
        while k < pins.len()
            invariant
                l.wf(),
                l.ok(self@),
                pins@ == l.node_pins@[nd as int]@,
                all_below(pins@, self@.pins.len() as int),
                k <= pins@.len(),
                out@ == l.nets_once(self@, nd, k as int),
                all_below(out@, l.edges@.len() as int),
                forall|j: int| 0 <= j < out@.len() ==> l.net_counts(#[trigger] out@[j] as int),
                out@.no_duplicates(),
            decreases pins@.len() - k,
        {
            let e: usize = self.pins[pins[k]].edge;
            assert(self@.pins[pins@[k as int] as int].edge < l.edges@.len());
            let count: usize = l.edges[e].len();
            if count > 1 && count < SKIP_NETS_LARGER_THAN && !holds(&out, e) {
                out.push(e);
            }
            k = k + 1;
        }
        out
    }

    /// Twice the extent in X of a net's pins, if a node is flipped or not.
    fn twice_width(&self, l: &Land, e: usize, nd: usize, flip: bool) -> (r: i64)
        requires
            l.wf(),
            l.ok(self@),
            nd < l.count(),
            e < l.edges@.len(),
            l.edges@[e as int]@.len() > 0,
        ensures
            ({
                let list = l.edges@[e as int]@;
                let b = twice_span(self@, list, nd, flip, list.len() as int);
                r == b.1 - b.0
            }),
            0 <= r <= 40 * COORD_LIMIT,
    {
        let ghost s = self@;
        let list = &l.edges[e];
        assert(lists(l.edges@)[e as int] == list@);
        let mut lo: i64 = 0;
        let mut hi: i64 = 0;
        let mut k: usize = 0;
        while k < list.len()
            invariant
                l.wf(),
                l.ok(self@),
                s == self@,
                nd < l.count(),
                all_below(list@, s.pins.len() as int),
                k <= list@.len(),
                k > 0 ==> (lo as int, hi as int) == twice_span(s, list@, nd, flip, k as int),
                -20 * COORD_LIMIT <= lo <= hi <= 20 * COORD_LIMIT,
            decreases list@.len() - k,
        {
            let p: usize = list[k];
            let q = &self.pins[p];
            assert(s.pins[p as int].node < l.count() && small(s.pins[p as int].ox as int));
            assert(node_in(s.nodes[q.node as int]));
            let c: i64 = 2 * self.nodes[q.node].left as i64 + self.nodes[q.node].width as i64;
            let x: i64 = if flip && q.node == nd { c - 2 * q.ox as i64 } else { c + 2 * q.ox as i64 };
            if k == 0 || x < lo {
                lo = x;
            }
            if k == 0 || x > hi {
                hi = x;
            }
            k = k + 1;
        }
        hi - lo
    }

    /// Does flipping a node about Y make its nets shorter in X?
    fn would_shorten(&self, l: &Land, nd: usize) -> (r: bool)
        requires
            l.wf(),
            l.ok(self@),
            nd < l.count(),
        ensures
            r == l.flip_shortens(self@, nd),
    {
        let nets = self.nets_of(l, nd);
        let mut old_sum: i64 = 0;
        let mut new_sum: i64 = 0;
        let mut k: usize = 0;
        proof {
            crate::clumps::lemma_below_count(nets@, l.edges@.len() as int);
        }
        while k < nets.len()
            invariant
                l.wf(),
                l.ok(self@),
                nd < l.count(),
                all_below(nets@, l.edges@.len() as int),
                forall|j: int| 0 <= j < nets@.len() ==> l.net_counts(#[trigger] nets@[j] as int),
                nets@.len() <= COORD_LIMIT,
                k <= nets@.len(),
                old_sum == l.twice_extent(self@, nets@, nd, false, k as int),
                new_sum == l.twice_extent(self@, nets@, nd, true, k as int),
                0 <= old_sum <= k * (40 * COORD_LIMIT),
                0 <= new_sum <= k * (40 * COORD_LIMIT),
            decreases nets@.len() - k,
        {
            proof {
                assert((k + 1) * (40 * COORD_LIMIT) == k * (40 * COORD_LIMIT) + 40 * COORD_LIMIT) by (nonlinear_arith);
                assert(k * (40 * COORD_LIMIT) <= COORD_LIMIT * (40 * COORD_LIMIT)) by (nonlinear_arith)
                    requires k <= COORD_LIMIT;
                assert(l.net_counts(nets@[k as int] as int));
            }
            old_sum = old_sum + self.twice_width(l, nets[k], nd, false);
            new_sum = new_sum + self.twice_width(l, nets[k], nd, true);
            k = k + 1;
        }
        new_sum < old_sum
    }

    fn lo_side(&self, l: &Land, g: &Segment, p: Option<usize>, pad: bool) -> (r: i32)
        requires
            l.wf(),
            l.ok(self@),
            seg_end(g.min_x as int),
            p matches Some(a) ==> a < l.count(),
        ensures
            r == flip_lo(self@, *g, p, pad),
            -8 * COORD_LIMIT <= r <= 8 * COORD_LIMIT,
    {
        match p {
            Some(a) => {
                assert(pad_in(self@.pads[a as int]));
                self.right_of(l, a) + (if pad { self.pads[a].1 } else { 0 })
            },
            None => g.min_x,
        }
    }

    fn hi_side(&self, l: &Land, g: &Segment, q: Option<usize>, pad: bool) -> (r: i32)
        requires
            l.wf(),
            l.ok(self@),
            seg_end(g.max_x as int),
            q matches Some(b) ==> b < l.count(),
        ensures
            r == flip_hi(self@, *g, q, pad),
            -8 * COORD_LIMIT <= r <= 8 * COORD_LIMIT,
    {
        match q {
            Some(b) => {
                assert(pad_in(self@.pads[b as int]));
                assert(node_in(self@.nodes[b as int]));
                self.nodes[b].left - (if pad { self.pads[b].0 } else { 0 })
            },
            None => g.max_x,
        }
    }

    /// Flip the cell at a position of a segment's list where that shortens its nets and it has room.
    fn flip_cell(&mut self, l: &Land, g: &Segment, list: &Vec<usize>, i: usize) -> (r: bool)
        requires
            l.wf(),
            l.ok(old(self)@),
            seg_end(g.min_x as int),
            seg_end(g.max_x as int),
            all_below(list@, l.count()),
            i < list@.len(),
        ensures
            l.ok(final(self)@),
            (final(self)@, r) == l.flipped_one(old(self)@, *g, list@, i as int),
    {
        let ghost s = self@;
        let nd: usize = list[i];
        if !self.is_one_high(l, nd) || !self.would_shorten(l, nd) {
            return false;
        }
        let p: Option<usize> = if i == 0 { None } else { Some(list[i - 1]) };
        let q: Option<usize> = if list.len() - i <= 1 { None } else { Some(list[i + 1]) };
        assert(pad_in(s.pads[nd as int]) && pad_in(s.pad_sites[nd as int]));
        assert(node_in(s.nodes[nd as int]));
        if self.nodes[nd].left - self.pads[nd].1 < self.lo_side(l, g, p, true) || self.right_of(l, nd) + self.pads[nd].0 > self.hi_side(l, g, q, true) {
            return false;
        }
        let o: Orient = self.nodes[nd].orient;
        let to: Orient = match o.flip() {
            Some(t) => t,
            None => return false,
        };
        self.adjust_orient(l, nd, to);
        let ghost t = self@;
        if self.has_placement_violation(l, nd) {
            self.adjust_orient(l, nd, o);
            return false;
        }
        if self.nodes[nd].width > self.hi_side(l, g, q, false) - self.lo_side(l, g, p, false) {
            return false;
        }
        let a: i32 = self.pads[nd].0;
        let b: i32 = self.pad_sites[nd].0;
        assert(pad_in(t.pads[nd as int]) && pad_in(t.pad_sites[nd as int]));
        self.pads.set(nd, (a, a));
        self.pad_sites.set(nd, (b, b));
        proof {
            let u = St { pads: t.pads.update(nd as int, (a, a)), pad_sites: t.pad_sites.update(nd as int, (b, b)), ..t };
            assert(self@ == u);
        }
        true
    }

    /// Flip single-height cells about Y where that shortens their nets, in rows whose sites may be
    /// mirrored. How many flips count.
    pub fn flip_cells(&mut self, l: &Land) -> (r: usize)
        requires
            l.wf(),
            l.ok(old(self)@),
            2 * crate::checks::seated(old(self)@, l.segments@.len() as int) <= usize::MAX,
        ensures
            l.ok(final(self)@),
            (final(self)@, r as int) == l.flipped_all(old(self)@, l.segments@.len() as int),
    {
        let ghost s0 = self@;
        let m: usize = l.segments.len();
        let mut count: usize = 0;
        let mut i: usize = 0;
        while i < m
            invariant
                l.wf(),
                l.ok(self@),
                m == l.segments@.len(),
                i <= m,
                self@.cells == s0.cells,
                2 * crate::checks::seated(s0, m as int) <= usize::MAX,
                (self@, count as int) == l.flipped_all(s0, i as int),
                count <= crate::checks::seated(s0, i as int),
            decreases m - i,
        {
            let g: Segment = l.segments[i];
            assert(seg_end(l.segments@[i as int].min_x as int) && seg_end(l.segments@[i as int].max_x as int));
            let ghost before = self@;
            let ghost c0 = count as int;
            proof {
                crate::checks::lemma_seated(s0, i + 1, m as int);
                crate::checks::lemma_seated(s0, i as int, i + 1);
            }
            if l.arch.rows[g.row].sym_y {
                assert(self@.cells[i as int] == self.cells_in_seg@[i as int]@);
                let list = copy_list(&self.cells_in_seg[i]);
                assert(all_below(before.cells[i as int], l.count()));
                let mut k: usize = 0;
                while k < list.len()
                    invariant
                        l.wf(),
                        l.ok(self@),
                        seg_end(g.min_x as int),
                        seg_end(g.max_x as int),
                        all_below(list@, l.count()),
                        list@ == s0.cells[i as int],
                        k <= list@.len(),
                        self@.cells == s0.cells,
                        c0 + list@.len() <= usize::MAX,
                        (self@, count - c0) == l.flipped_in(before, g, list@, k as int),
                        c0 <= count <= c0 + k,
                    decreases list@.len() - k,
                {
                    if self.flip_cell(l, &g, &list, k) {
                        count = count + 1;
                    }
                    k = k + 1;
                }
            }
            i = i + 1;
        }
        count
    }

    /// Orient the cells for their rows, then flip those that shorten their nets. Nothing happens where
    /// the nets have no length. How many cells fit no row, how many changed for it, and how many flips
    /// count.
    pub fn orient(&mut self, l: &Land) -> (r: (usize, usize, usize))
        requires
            l.wf(),
            l.ok(old(self)@),
            2 * crate::checks::seated(old(self)@, l.segments@.len() as int) <= usize::MAX,
        ensures
            l.ok(final(self)@),
            ({
                let s = old(self)@;
                let a = l.oriented(s, l.count());
                let b = l.flipped_all(a.0, l.segments@.len() as int);
                if l.wire_length(s) == 0 {
                    final(self)@ == s && r == (0usize, 0usize, 0usize)
                } else {
                    (final(self)@, r.0 as int, r.1 as int, r.2 as int) == (b.0, a.1, a.2, b.1)
                }
            }),
    {
        let start: u64 = self.total_hpwl_xy(l);
        if start == 0 {
            return (0, 0, 0);
        }
        let ghost s0 = self@;
        let (errors, changed) = self.orient_cells(l);
        proof {
            lemma_oriented_cells(*l, s0, l.count());
            lemma_seated_same(s0, self@, l.segments@.len() as int);
        }
        let flips: usize = self.flip_cells(l);
        (errors, changed, flips)
    }
}

proof fn lemma_oriented_cells(l: Land, s: St, n: int)
    ensures
        l.oriented(s, n).0.cells == s.cells,
    decreases n,
{
    if n > 0 {
        lemma_oriented_cells(l, s, n - 1);
    }
}

proof fn lemma_seated_same(a: St, b: St, n: int)
    requires
        a.cells == b.cells,
    ensures
        crate::checks::seated(a, n) == crate::checks::seated(b, n),
    decreases n,
{
    if n > 0 {
        lemma_seated_same(a, b, n - 1);
    }
}

} // verus!
