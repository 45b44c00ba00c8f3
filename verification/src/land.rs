//! The ground that cells are improved on and the state that moving them changes: their places and
//! orientations, the squares they hold, and the segments they are in.

use vstd::prelude::*;
use crate::arith::{div_trunc, trunc_quot};
use crate::drc::Class;
use crate::grid::{in_box, nearest_ix, offers, Grid};
use crate::improve::Node;
use crate::orient::{Orient, Symmetry};
use crate::rows::{small, Arch, COORD_LIMIT};
use crate::segments::{lists, Blockage, Segment};

verus! {

/// A pin: its node, its net, and its offset from the node's centre.
#[derive(Debug, Clone, Copy, PartialEq, Eq)]
pub struct Pin {
    pub node: usize,
    pub edge: usize,
    pub ox: i32,
    pub oy: i32,
}

/// Who holds a square: a cell's body, and a cell's padding.
#[derive(Debug, Clone, Copy, PartialEq, Eq)]
pub struct Square {
    pub cell: Option<u32>,
    pub padding: Option<u32>,
}

/// A move that was made: a node, where it was and where it went.
#[derive(Debug)]
pub struct Action {
    pub node: usize,
    pub orig: (i32, i32),
    pub new: (i32, i32),
    pub orig_segs: Vec<usize>,
    pub new_segs: Vec<usize>,
}

/// What does not change while cells move.
pub struct Land {
    pub arch: Arch,
    pub blockages: Vec<Vec<Blockage>>,
    pub segments: Vec<Segment>,
    pub segs_in_row: Vec<Vec<usize>>,
    /// The grid: its rows and sites, and the routing levels blocked in its squares.
    pub grid: Grid,
    /// Per node its master's site, symmetry, used routing levels and class.
    pub sites: Vec<String>,
    pub sym: Vec<Symmetry>,
    pub used_layers: Vec<u32>,
    pub classes: Vec<Class>,
    /// Per node and row, whether the rails of a cell and the row fit, and whether the cell must be
    /// turned over for that.
    pub rails: Vec<Vec<(bool, bool)>>,
    /// Per node, the rails at the top and the bottom of its master.
    pub master_rails: Vec<(u8, u8)>,
    /// The pins of each node and of each net.
    pub node_pins: Vec<Vec<usize>>,
    pub edges: Vec<Vec<usize>>,
    /// Where each node started, and how far it may get from there.
    pub orig: Vec<(i32, i32)>,
    pub max_disp: (i32, i32),
    /// How many cells one move may move.
    pub move_limit: usize,
    pub disallow_gaps: bool,
    /// How cells may not lie to each other, for the spacing of their edges.
    pub edge_faults: Vec<EdgeFault>,
}

/// A cell and another that come too close with their edges: in these orientations, with the other's lower left
/// corner this far from the place of the first on the grid.
#[derive(Debug, Clone, Copy, PartialEq, Eq)]
pub struct EdgeFault {
    pub node: usize,
    pub orient: Orient,
    pub other: usize,
    pub other_orient: Orient,
    pub dx: i64,
    pub dy: i64,
}

/// What moving cells changes.
pub struct Live {
    pub nodes: Vec<Node>,
    pub pins: Vec<Pin>,
    pub squares: Vec<Vec<Square>>,
    /// The cells of each segment from left to right, and the segments of each node.
    pub cells_in_seg: Vec<Vec<usize>>,
    pub cell_segs: Vec<Vec<usize>>,
    /// The summed widths of each segment's cells.
    pub seg_util: Vec<i64>,
    /// The padding of each node, in database units and in sites.
    pub pads: Vec<(i32, i32)>,
    pub pad_sites: Vec<(i32, i32)>,
    /// The moves since the last decision, and the nodes and nets they touch, in order.
    pub journal: Vec<Action>,
    pub affected_nodes: Vec<usize>,
    pub affected_edges: Vec<usize>,
}

/// A move that was made.
pub ghost struct Act {
    pub node: usize,
    pub orig: (i32, i32),
    pub new: (i32, i32),
    pub from: Seq<usize>,
    pub to: Seq<usize>,
}

/// The state that moving cells changes.
#[verifier::ext_equal]
pub ghost struct St {
    pub nodes: Seq<Node>,
    pub pins: Seq<Pin>,
    pub squares: Seq<Seq<Square>>,
    pub cells: Seq<Seq<usize>>,
    pub homes: Seq<Seq<usize>>,
    pub util: Seq<i64>,
    pub pads: Seq<(i32, i32)>,
    pub pad_sites: Seq<(i32, i32)>,
    pub journal: Seq<Act>,
    pub touched: Seq<usize>,
    pub nets: Seq<usize>,
}

impl Action {
    pub open spec fn view(&self) -> Act {
        Act { node: self.node, orig: self.orig, new: self.new, from: self.orig_segs@, to: self.new_segs@ }
    }
}

impl Live {
    pub open spec fn view(&self) -> St {
        St {
            nodes: self.nodes@,
            pins: self.pins@,
            squares: Seq::new(self.squares@.len(), |y: int| self.squares@[y]@),
            cells: lists(self.cells_in_seg@),
            homes: lists(self.cell_segs@),
            util: self.seg_util@,
            pads: self.pads@,
            pad_sites: self.pad_sites@,
            journal: Seq::new(self.journal@.len(), |k: int| self.journal@[k]@),
            touched: self.affected_nodes@,
            nets: self.affected_edges@,
        }
    }
}

// ── ranges ───────────────────────────────────────────────────────────────────────────────────

/// Whether a number can be a node's place.
pub open spec fn reachable(v: int) -> bool {
    -6 * COORD_LIMIT <= v <= 6 * COORD_LIMIT
}

/// Whether a number can be the end of a segment.
pub open spec fn seg_end(v: int) -> bool {
    -2 * COORD_LIMIT <= v <= 2 * COORD_LIMIT
}

/// The node's place can be reached, and its size is within the limit.
pub open spec fn node_in(n: Node) -> bool {
    reachable(n.left as int) && reachable(n.bottom as int) && 0 <= n.width <= COORD_LIMIT && 0 <= n.height <= COORD_LIMIT
}

/// A width at a place, with its padding and the two sites on either side that a gap is looked for in, lies
/// between coordinates.
pub open spec fn span_fits(x: int, width: int, pad: (i32, i32)) -> bool {
    i32::MIN <= x - pad.0 - 2 && x + width + pad.1 + 2 <= i32::MAX
}

/// The node lies between coordinates, and its size is within the limit.
pub open spec fn node_fits(n: Node, pad: (i32, i32)) -> bool {
    span_fits(n.left as int, n.width as int, pad) && reachable(n.bottom as int) && 0 <= n.width <= COORD_LIMIT && 0 <= n.height <= COORD_LIMIT
}

/// Padding is not negative and within the limit.
pub open spec fn pad_in(p: (i32, i32)) -> bool {
    0 <= p.0 <= COORD_LIMIT && 0 <= p.1 <= COORD_LIMIT
}

/// Numbers below a bound.
pub open spec fn all_below(s: Seq<usize>, n: int) -> bool {
    forall|k: int| 0 <= k < s.len() ==> #[trigger] s[k] < n
}

/// Lists of numbers below a bound.
pub open spec fn lists_below(s: Seq<Seq<usize>>, n: int) -> bool {
    forall|k: int| 0 <= k < s.len() ==> all_below(#[trigger] s[k], n)
}

/// Numbers that rise.
pub open spec fn ordered(s: Seq<usize>) -> bool {
    forall|i: int, j: int| 0 <= i < j < s.len() ==> #[trigger] s[i] < #[trigger] s[j]
}

/// Rising numbers below a bound are no more than the bound.
pub proof fn lemma_ordered_count(s: Seq<usize>, n: int)
    requires
        ordered(s),
        all_below(s, n),
        0 <= n,
    ensures
        s.len() <= n,
{
    if s.len() > 0 {
        lemma_ordered_at(s, s.len() - 1);
        assert(s[s.len() - 1] < n);
    }
}

proof fn lemma_ordered_at(s: Seq<usize>, k: int)
    requires
        ordered(s),
        0 <= k < s.len(),
    ensures
        s[k] >= k,
    decreases k,
{
    if k > 0 {
        lemma_ordered_at(s, k - 1);
        assert(s[k - 1] < s[k]);
    }
}

/// The square's holders are nodes.
pub open spec fn square_in(q: Square, n: int) -> bool {
    (q.cell matches Some(c) ==> c < n) && (q.padding matches Some(c) ==> c < n)
}

impl Land {
    /// The number of nodes.
    pub open spec fn count(&self) -> int {
        self.sites@.len() as int
    }

    /// The ground's tables fit together and its numbers are within the limit.
    pub open spec fn wf(&self) -> bool {
        let n = self.count();
        &&& self.arch.wf()
        &&& self.grid.wf()
        &&& n <= COORD_LIMIT
        &&& self.sym@.len() == n && self.used_layers@.len() == n && self.classes@.len() == n
        &&& self.rails@.len() == n && self.master_rails@.len() == n
        &&& self.node_pins@.len() == n && self.orig@.len() == n
        &&& self.edges@.len() <= COORD_LIMIT
        &&& self.blockages@.len() == self.arch.rows@.len()
        &&& self.segs_in_row@.len() == self.arch.rows@.len()
        &&& lists_below(lists(self.segs_in_row@), self.segments@.len() as int)
        &&& forall|k: int| 0 <= k < self.segments@.len() ==> (#[trigger] self.segments@[k]).row < self.arch.rows@.len()
            && seg_end(self.segments@[k].min_x as int) && seg_end(self.segments@[k].max_x as int)
        &&& forall|k: int| 0 <= k < n ==> small((#[trigger] self.orig@[k]).0 as int) && small(self.orig@[k].1 as int)
        &&& -4 * COORD_LIMIT <= self.max_disp.0 <= 4 * COORD_LIMIT && -4 * COORD_LIMIT <= self.max_disp.1 <= 4 * COORD_LIMIT
        &&& forall|y: int| 0 <= y < self.grid.row_count ==> Orient::of_text((#[trigger] self.grid.row_orient@[y])@) is Some
        &&& forall|k: int| 0 <= k < self.edge_faults@.len() ==> (#[trigger] self.edge_faults@[k]).node < n && self.edge_faults@[k].other < n
    }

    /// The state fits the ground, and all nodes are at places that can be reached.
    pub open spec fn ok(&self, s: St) -> bool {
        &&& self.shaped(s)
        &&& forall|k: int| 0 <= k < self.count() ==> node_in(#[trigger] s.nodes[k])
    }

    /// The state fits the ground, and all nodes lie between coordinates.
    pub open spec fn fits(&self, s: St) -> bool {
        &&& self.shaped(s)
        &&& forall|k: int| 0 <= k < self.count() ==> node_fits(#[trigger] s.nodes[k], s.pad_sites[k])
    }

    /// The tables of the state fit together and fit the ground.
    pub open spec fn shaped(&self, s: St) -> bool {
        let n = self.count();
        &&& s.nodes.len() == n && s.homes.len() == n && s.pads.len() == n && s.pad_sites.len() == n
        &&& s.cells.len() == self.segments@.len() && s.util.len() == self.segments@.len()
        &&& forall|k: int| 0 <= k < n ==> pad_in(#[trigger] s.pads[k])
        &&& forall|k: int| 0 <= k < n ==> pad_in(#[trigger] s.pad_sites[k])
        &&& forall|k: int| 0 <= k < s.pins.len() ==> (#[trigger] s.pins[k]).node < n && s.pins[k].edge < self.edges@.len()
            && small(s.pins[k].ox as int) && small(s.pins[k].oy as int)
        &&& lists_below(lists(self.node_pins@), s.pins.len() as int)
        &&& lists_below(lists(self.edges@), s.pins.len() as int)
        &&& lists_below(s.cells, n)
        &&& lists_below(s.homes, self.segments@.len() as int)
        &&& s.squares.len() == self.grid.row_count
        &&& forall|y: int| 0 <= y < s.squares.len() ==> (#[trigger] s.squares[y]).len() == self.grid.row_site_count
        &&& forall|y: int, x: int| 0 <= y < s.squares.len() && 0 <= x < s.squares[y].len() ==> square_in(#[trigger] s.squares[y][x], n)
        &&& forall|k: int| 0 <= k < s.journal.len() ==> self.act_in(#[trigger] s.journal[k])
        &&& all_below(s.touched, n)
        &&& all_below(s.nets, self.edges@.len() as int)
        &&& ordered(s.touched)
        &&& ordered(s.nets)
    }

    /// The move is one of a node between reachable places and segments there are.
    pub open spec fn act_in(&self, a: Act) -> bool {
        &&& a.node < self.count()
        &&& reachable(a.orig.0 as int) && reachable(a.orig.1 as int)
        &&& all_below(a.from, self.segments@.len() as int)
        &&& all_below(a.to, self.segments@.len() as int)
    }
}

// ── orientation ──────────────────────────────────────────────────────────────────────────────

/// A node after a change of orientation: a quarter turn changes its width with its height.
pub open spec fn node_turned(n: Node, to: Orient) -> Node {
    if n.orient.quarter() != to.quarter() {
        Node { orient: to, width: n.height, height: n.width, ..n }
    } else {
        Node { orient: to, ..n }
    }
}

/// A pin after its node's change of orientation.
pub open spec fn pin_turned(p: Pin, from: Orient, to: Orient) -> Pin {
    let q = from.carried(to, (p.ox as int, p.oy as int));
    Pin { ox: q.0 as i32, oy: q.1 as i32, ..p }
}

/// The pins after the first `n` of a list were turned.
pub open spec fn pins_turned(pins: Seq<Pin>, list: Seq<usize>, n: int, from: Orient, to: Orient) -> Seq<Pin>
    decreases n,
{
    if n <= 0 {
        pins
    } else {
        let s = pins_turned(pins, list, n - 1, from, to);
        s.update(list[n - 1] as int, pin_turned(s[list[n - 1] as int], from, to))
    }
}

/// A pin whose offset can change its signs.
pub open spec fn can_turn(p: Pin) -> bool {
    p.ox > i32::MIN && p.oy > i32::MIN
}

/// A pin of the same node and net, whose offset is within the limit if that of the other is.
pub open spec fn like_pin(p: Pin, q: Pin) -> bool {
    &&& q.node == p.node && q.edge == p.edge
    &&& small(p.ox as int) && small(p.oy as int) ==> small(q.ox as int) && small(q.oy as int)
}

/// The pins that a list names are turned once, the others are left alone.
proof fn lemma_pins_turned(pins: Seq<Pin>, list: Seq<usize>, n: int, from: Orient, to: Orient)
    requires
        0 <= n <= list.len(),
        all_below(list, pins.len() as int),
        list.no_duplicates(),
    ensures
        pins_turned(pins, list, n, from, to).len() == pins.len(),
        forall|i: int| 0 <= i < n ==> pins_turned(pins, list, n, from, to)[#[trigger] list[i] as int] == pin_turned(pins[list[i] as int], from, to),
        forall|k: int| 0 <= k < pins.len() && (forall|i: int| 0 <= i < n ==> #[trigger] list[i] != k) ==> #[trigger] pins_turned(pins, list, n, from, to)[k] == pins[k],
    decreases n,
{
    if n > 0 {
        lemma_pins_turned(pins, list, n - 1, from, to);
        let s = pins_turned(pins, list, n - 1, from, to);
        let v = list[n - 1] as int;
        assert(s[v] == pins[v]) by {
            assert forall|i: int| 0 <= i < n - 1 implies #[trigger] list[i] != v by {}
        }
        assert forall|i: int| 0 <= i < n implies pins_turned(pins, list, n, from, to)[#[trigger] list[i] as int] == pin_turned(pins[list[i] as int], from, to) by {
            if i < n - 1 {
                assert(list[i] != list[n - 1]);
            }
        }
        assert forall|k: int| 0 <= k < pins.len() && (forall|i: int| 0 <= i < n ==> #[trigger] list[i] != k) implies #[trigger] pins_turned(pins, list, n, from, to)[k] == pins[k] by {
            assert(list[n - 1] != k);
            assert(s[k] == pins[k]);
        }
    }
}

/// A turn and the turn back leave a node and its pins as they were; the pins of other nodes keep their
/// offsets throughout.
pub proof fn law_turning_back(node: Node, pins: Seq<Pin>, list: Seq<usize>, to: Orient)
    requires
        all_below(list, pins.len() as int),
        list.no_duplicates(),
        forall|i: int| 0 <= i < list.len() ==> can_turn(pins[#[trigger] list[i] as int]),
    ensures
        ({
            let there = pins_turned(pins, list, list.len() as int, node.orient, to);
            &&& node_turned(node_turned(node, to), node.orient) == node
            &&& pins_turned(there, list, list.len() as int, to, node.orient) == pins
            &&& forall|k: int| 0 <= k < pins.len() && !list.contains(k as usize) ==> #[trigger] there[k] == pins[k]
        }),
{
    let n = list.len() as int;
    let from = node.orient;
    let there = pins_turned(pins, list, n, from, to);
    let back = pins_turned(there, list, n, to, from);
    lemma_pins_turned(pins, list, n, from, to);
    lemma_pins_turned(there, list, n, to, from);
    assert forall|k: int| 0 <= k < pins.len() implies #[trigger] back[k] == pins[k] && (!list.contains(k as usize) ==> there[k] == pins[k]) by {
        if exists|i: int| 0 <= i < n && #[trigger] list[i] == k {
            let i = choose|i: int| 0 <= i < n && #[trigger] list[i] == k;
            assert(list.contains(list[i]));
            assert(there[list[i] as int] == pin_turned(pins[list[i] as int], from, to));
            assert(back[list[i] as int] == pin_turned(there[list[i] as int], to, from));
            let p = pins[k];
            assert(can_turn(pins[list[i] as int]));
            let q = from.carried(to, (p.ox as int, p.oy as int));
            assert(i32::MIN < q.0 <= i32::MAX && i32::MIN < q.1 <= i32::MAX);
            assert(to.carried(from, q) == (p.ox as int, p.oy as int));
        } else {
            assert(there[k] == pins[k]);
            assert(back[k] == there[k]);
        }
    }
    assert(back =~= pins);
    assert forall|k: int| 0 <= k < pins.len() && !list.contains(k as usize) implies #[trigger] there[k] == pins[k] by {
        assert(back[k] == pins[k]);
    }
}

/// Change a node's orientation, keeping its lower left corner: its pins turn about its centre.
pub fn adjust_curr_orient(node: &mut Node, pins: &mut Vec<Pin>, node_pins: &Vec<usize>, new: Orient)
    requires
        all_below(node_pins@, old(pins)@.len() as int),
        forall|i: int| 0 <= i < node_pins@.len() ==> can_turn(old(pins)@[#[trigger] node_pins@[i] as int]),
    ensures
        *final(node) == node_turned(*old(node), new),
        final(pins)@ == pins_turned(old(pins)@, node_pins@, node_pins@.len() as int, old(node).orient, new),
        final(pins)@.len() == old(pins)@.len(),
        forall|k: int| 0 <= k < old(pins)@.len() ==> like_pin(old(pins)@[k], #[trigger] final(pins)@[k]),
{
    let cur: Orient = node.orient;
    let ghost p0 = pins@;
    let mut i: usize = 0;
    while i < node_pins.len()
        invariant
            i <= node_pins@.len(),
            all_below(node_pins@, pins@.len() as int),
            pins@.len() == p0.len(),
            pins@ == pins_turned(p0, node_pins@, i as int, cur, new),
            forall|j: int| 0 <= j < node_pins@.len() ==> can_turn(pins@[#[trigger] node_pins@[j] as int]),
            forall|k: int| 0 <= k < pins@.len() ==> like_pin(p0[k], #[trigger] pins@[k]),
        decreases node_pins@.len() - i,
    {
        let p: usize = node_pins[i];
        let mut q: Pin = pins[p];
        assert(can_turn(pins@[node_pins@[i as int] as int]));
        assert(like_pin(p0[p as int], pins@[p as int]));
        let (x, y) = cur.carry(new, q.ox, q.oy);
        q.ox = x;
        q.oy = y;
        pins.set(p, q);
        i = i + 1;
    }
    if cur.is_quarter() != new.is_quarter() {
        let w: i32 = node.width;
        node.width = node.height;
        node.height = w;
    }
    node.orient = new;
}

impl Land {
    /// The state after a node's change of orientation.
    pub open spec fn turned(&self, s: St, nd: int, to: Orient) -> St {
        let list = self.node_pins@[nd]@;
        St {
            nodes: s.nodes.update(nd, node_turned(s.nodes[nd], to)),
            pins: pins_turned(s.pins, list, list.len() as int, s.nodes[nd].orient, to),
            ..s
        }
    }
}

impl Live {
    /// Change a node's orientation.
    pub fn adjust_orient(&mut self, l: &Land, nd: usize, new: Orient)
        requires
            l.wf(),
            l.ok(old(self)@),
            nd < l.count(),
        ensures
            l.ok(final(self)@),
            final(self)@ == l.turned(old(self)@, nd as int, new),
    {
        let ghost s0 = self@;
        proof {
            assert(lists(l.node_pins@)[nd as int] == l.node_pins@[nd as int]@);
        }
        adjust_curr_orient(&mut self.nodes[nd], &mut self.pins, &l.node_pins[nd], new);
        proof {
            let t = l.turned(s0, nd as int, new);
            assert(self@.nodes =~= t.nodes);
            assert(self@ == t);
        }
    }
}

// ── squares ──────────────────────────────────────────────────────────────────────────────────

/// A square after a cell took the squares of its body and of its padding.
pub open spec fn square_taken(q: Square, who: int, body: bool, pad: bool) -> Square {
    if body {
        Square { cell: Some(who as u32), ..q }
    } else if pad {
        Square { padding: Some(who as u32), ..q }
    } else {
        q
    }
}

/// A square after a cell gave up what it held there.
pub open spec fn square_freed(q: Square, who: int) -> Square {
    Square {
        cell: if q.cell == Some(who as u32) { None } else { q.cell },
        padding: if q.padding == Some(who as u32) { None } else { q.padding },
    }
}

/// A cell that gives up a square leaves nothing of itself and nothing of another cell changed.
pub proof fn law_freeing_a_square(q: Square, who: int, other: u32)
    requires
        0 <= who <= u32::MAX,
        other != who,
    ensures
        square_freed(q, who).cell != Some(who as u32),
        square_freed(q, who).padding != Some(who as u32),
        q.cell == Some(other) ==> square_freed(q, who).cell == Some(other),
        q.padding == Some(other) ==> square_freed(q, who).padding == Some(other),
        q.cell is None && q.padding != Some(who as u32) ==> square_freed(square_taken(q, who, true, false), who) == q,
{
}

impl Land {
    /// A node's column.
    pub open spec fn column(&self, n: Node) -> int {
        trunc_quot(n.left as int, self.grid.site_width as int)
    }

    /// A node's width in sites, rounded up.
    pub open spec fn columns(&self, n: Node) -> int {
        (n.width + self.grid.site_width - 1) / (self.grid.site_width as int)
    }

    /// Whether a square is in a node's body, or in its padding, with its lowest row at `gy`.
    pub open spec fn in_body(&self, s: St, nd: int, gy: int, x: int, y: int) -> bool {
        let n = s.nodes[nd];
        gy <= y < self.grid.end_row(self.grid.boundary_y(gy) + n.height)
            && self.column(n) <= x < self.column(n) + self.columns(n)
    }

    /// Whether a square is in a node's padding, with its lowest row at `gy`.
    pub open spec fn in_pad(&self, s: St, nd: int, gy: int, x: int, y: int) -> bool {
        let n = s.nodes[nd];
        let (a, b) = (self.column(n), self.column(n) + self.columns(n));
        gy <= y < self.grid.end_row(self.grid.boundary_y(gy) + n.height)
            && (a - s.pad_sites[nd].0 <= x < a || b <= x < b + s.pad_sites[nd].1)
    }

    /// The state after a node took its squares, with its lowest row at `gy`.
    pub open spec fn painted_at(&self, s: St, nd: int, gy: int) -> St {
        St {
            squares: Seq::new(s.squares.len(), |y: int| Seq::new(s.squares[y].len(), |x: int|
                square_taken(s.squares[y][x], nd, self.in_body(s, nd, gy, x, y), self.in_pad(s, nd, gy, x, y)))),
            ..s
        }
    }

    /// The orientation that the grid gives a node at a square, if its site is there.
    pub open spec fn site_turn(&self, nd: int, x: int, y: int) -> Option<Orient> {
        if 0 <= y < self.grid.row_count && offers(self.grid.row_sites@[y]@, x, self.sites@[nd]@) {
            Orient::of_text(self.grid.row_orient@[y]@)
        } else {
            None
        }
    }

    /// The state after a node took its squares from row `gy` up and the orientation its site has there.
    pub open spec fn settled_at(&self, s: St, nd: int, gy: int) -> St {
        let t = self.painted_at(s, nd, gy);
        match self.site_turn(nd, self.column(s.nodes[nd]), gy) {
            Some(o) => self.turned(t, nd, o),
            None => t,
        }
    }

    /// The state after a node took its squares and its orientation, at the row its bottom lies in.
    pub open spec fn settled(&self, s: St, nd: int) -> St {
        if self.grid.row_count == 0 { s } else { self.settled_at(s, nd, self.grid.snap_down(s.nodes[nd].bottom as int)) }
    }

    /// The row nearest to a node's bottom.
    pub open spec fn near_row(&self, n: Node) -> int {
        nearest_ix(self.grid.row_bottoms(), n.bottom as int)
    }

    /// The state after a node took its squares and its orientation, at the row nearest to its bottom.
    pub open spec fn settled_near(&self, s: St, nd: int) -> St {
        self.settled_at(s, nd, self.near_row(s.nodes[nd]))
    }

    /// The squares a node gives up: those it covers, widened by its padding.
    pub open spec fn reach(&self, s: St, nd: int) -> (int, int, int, int) {
        let n = s.nodes[nd];
        let c = self.grid.cover(n.left as int, n.bottom as int, n.width as int, n.height as int);
        (c.0 - s.pad_sites[nd].0, c.1, c.2 + s.pad_sites[nd].1, c.3)
    }

    /// The state after a node gave up its squares.
    pub open spec fn lifted(&self, s: St, nd: int) -> St {
        let b = self.reach(s, nd);
        St {
            squares: Seq::new(s.squares.len(), |y: int| Seq::new(s.squares[y].len(), |x: int|
                if in_box(b, x, y) { square_freed(s.squares[y][x], nd) } else { s.squares[y][x] })),
            ..s
        }
    }
}

/// One change of a range of squares of a row.
#[derive(Clone, Copy)]
enum Mark {
    Body(u32),
    Pad(u32),
    Free(u32),
}

spec fn marked(q: Square, m: Mark) -> Square {
    match m {
        Mark::Body(c) => Square { cell: Some(c), ..q },
        Mark::Pad(c) => Square { padding: Some(c), ..q },
        Mark::Free(c) => square_freed(q, c as int),
    }
}

fn mark(q: Square, m: Mark) -> (r: Square)
    ensures
        r == marked(q, m),
{
    let mut t: Square = q;
    match m {
        Mark::Body(c) => { t.cell = Some(c); },
        Mark::Pad(c) => { t.padding = Some(c); },
        Mark::Free(c) => {
            if let Some(o) = q.cell {
                if o == c {
                    t.cell = None;
                }
            }
            if let Some(o) = q.padding {
                if o == c {
                    t.padding = None;
                }
            }
        },
    }
    t
}

/// The squares after a box of them was marked.
spec fn box_marked(sq: Seq<Seq<Square>>, b: (int, int, int, int), m: Mark) -> Seq<Seq<Square>> {
    Seq::new(sq.len(), |y: int| Seq::new(sq[y].len(), |x: int| if in_box(b, x, y) { marked(sq[y][x], m) } else { sq[y][x] }))
}

fn mark_box(sq: &mut Vec<Vec<Square>>, cols: usize, x0: i64, y0: i64, x1: i64, y1: i64, m: Mark)
    requires
        cols <= i32::MAX,
        old(sq)@.len() <= i32::MAX,
        forall|y: int| 0 <= y < old(sq)@.len() ==> (#[trigger] old(sq)@[y])@.len() == cols,
    ensures
        final(sq)@.len() == old(sq)@.len(),
        forall|y: int| 0 <= y < final(sq)@.len() ==> (#[trigger] final(sq)@[y])@.len() == cols,
        Seq::new(final(sq)@.len(), |y: int| final(sq)@[y]@)
            == box_marked(Seq::new(old(sq)@.len(), |y: int| old(sq)@[y]@), (x0 as int, y0 as int, x1 as int, y1 as int), m),
{
    let ghost s0 = sq@;
    let ghost v0 = Seq::new(s0.len(), |y: int| s0[y]@);
    let ghost b = (x0 as int, y0 as int, x1 as int, y1 as int);
    let rows: usize = sq.len();
    let xa: i64 = if x0 < 0 { 0 } else { x0 };
    let xb: i64 = if x1 > cols as i64 { cols as i64 } else { x1 };
    let ya: i64 = if y0 < 0 { 0 } else { y0 };
    let yb: i64 = if y1 > rows as i64 { rows as i64 } else { y1 };
    let mut y: i64 = ya;
    while y < yb
        invariant
            rows == sq@.len(),
            rows == s0.len(),
            rows <= i32::MAX,
            cols <= i32::MAX,
            0 <= ya <= y,
            y <= yb || y == ya,
            yb <= rows,
            0 <= xa,
            xb <= cols,
            b == (x0 as int, y0 as int, x1 as int, y1 as int),
            xa == if x0 < 0 { 0 } else { x0 },
            xb == if x1 > cols { cols as int } else { x1 as int },
            ya == if y0 < 0 { 0 } else { y0 },
            yb == if y1 > rows { rows as int } else { y1 as int },
            forall|v: int| 0 <= v < rows ==> (#[trigger] sq@[v])@.len() == cols,
            forall|v: int| 0 <= v < rows ==> (#[trigger] s0[v])@.len() == cols,
            forall|v: int, u: int| 0 <= v < rows && 0 <= u < cols ==>
                #[trigger] sq@[v]@[u] == if v < y && in_box(b, u, v) { marked(s0[v]@[u], m) } else { s0[v]@[u] },
        decreases yb - y,
    {
        let ghost s1 = sq@;
        let mut x: i64 = xa;
        while x < xb
            invariant
                rows == sq@.len(),
                rows == s1.len(),
                rows <= i32::MAX,
                cols <= i32::MAX,
                0 <= ya <= y < yb <= rows,
                0 <= xa <= x,
                x <= xb || x == xa,
                xb <= cols,
                forall|v: int| 0 <= v < rows ==> (#[trigger] sq@[v])@.len() == cols,
                forall|v: int, u: int| 0 <= v < rows && 0 <= u < cols ==>
                    #[trigger] sq@[v]@[u] == if v == y && xa <= u < x { marked(s1[v]@[u], m) } else { s1[v]@[u] },
            decreases xb - x,
        {
            let yy: usize = y as usize;
            let xx: usize = x as usize;
            let q: Square = sq[yy][xx];
            sq[yy][xx] = mark(q, m);
            x = x + 1;
        }
        y = y + 1;
    }
    proof {
        let v1 = Seq::new(sq@.len(), |y: int| sq@[y]@);
        let w = box_marked(v0, b, m);
        assert forall|v: int| 0 <= v < rows implies #[trigger] v1[v] == w[v] by {
            assert(v1[v].len() == w[v].len());
            assert forall|u: int| 0 <= u < cols implies v1[v][u] == w[v][u] by {
                let q = sq@[v]@[u];
            }
            assert(v1[v] =~= w[v]);
        }
        assert(v1 =~= w);
    }
}

proof fn lemma_columns(g: Grid, v: int)
    requires
        g.wf(),
        0 <= v <= COORD_LIMIT,
    ensures
        0 <= (v + g.site_width - 1) / (g.site_width as int) <= COORD_LIMIT,
{
    let sw = g.site_width as int;
    assert(0 <= (v + sw - 1) / sw <= v) by (nonlinear_arith)
        requires v >= 0, sw >= 1;
}

impl Live {
    /// A node's column, and its width in sites.
    pub fn place_of(&self, l: &Land, nd: usize) -> (r: (i64, i64))
        requires
            l.wf(),
            l.fits(self@),
            nd < l.count(),
        ensures
            r.0 == l.column(self@.nodes[nd as int]),
            r.1 == l.columns(self@.nodes[nd as int]),
            i32::MIN <= r.0 <= i32::MAX,
            i32::MIN <= r.0 - self@.pad_sites[nd as int].0 - 2,
            r.0 + r.1 + self@.pad_sites[nd as int].1 + 2 <= i32::MAX,
            node_in(self@.nodes[nd as int]) ==> -6 * COORD_LIMIT <= r.0 <= 6 * COORD_LIMIT,
            0 <= r.1 <= COORD_LIMIT,
    {
        let n = &self.nodes[nd];
        assert(node_fits(self@.nodes[nd as int], self@.pad_sites[nd as int]));
        assert(pad_in(self@.pad_sites[nd as int]));
        let sw: i64 = l.grid.site_width as i64;
        proof {
            lemma_columns(l.grid, n.width as int);
            let a = n.left as int;
            if a >= 0 {
                crate::arith::lemma_quot_bound(a, sw as int);
                if sw >= 2 {
                    assert(a / (sw as int) <= a / 2) by (nonlinear_arith)
                        requires a >= 0, sw >= 2;
                }
            } else {
                crate::arith::lemma_quot_bound(-a, sw as int);
            }
        }
        (div_trunc(n.left as i64, sw), (n.width as i64 + sw - 1) / sw)
    }

    /// Take a node's squares, with its lowest row at `gy`.
    pub fn paint_at(&mut self, l: &Land, nd: usize, gy: i64)
        requires
            l.wf(),
            l.ok(old(self)@),
            nd < l.count(),
        ensures
            l.ok(final(self)@),
            final(self)@ == l.painted_at(old(self)@, nd as int, gy as int),
    {
        let ghost s0 = self@;
        let (gx, w) = self.place_of(l, nd);
        let h: i32 = self.nodes[nd].height;
        let (lp, rp) = self.pad_sites[nd];
        assert(pad_in(s0.pad_sites[nd as int]));
        let end: i64 = l.grid.grid_end_y(gy, h);
        let cols: usize = l.grid.row_site_count;
        proof {
            assert forall|y: int| 0 <= y < self.squares@.len() implies (#[trigger] self.squares@[y])@.len() == cols by {
                assert(s0.squares[y].len() == cols);
            }
        }
        mark_box(&mut self.squares, cols, gx, gy, gx + w, end, Mark::Body(nd as u32));
        mark_box(&mut self.squares, cols, gx - lp as i64, gy, gx, end, Mark::Pad(nd as u32));
        mark_box(&mut self.squares, cols, gx + w, gy, gx + w + rp as i64, end, Mark::Pad(nd as u32));
        proof {
            let t = l.painted_at(s0, nd as int, gy as int);
            assert forall|y: int| 0 <= y < s0.squares.len() implies #[trigger] self@.squares[y] == t.squares[y] by {
                assert(s0.squares[y].len() == cols);
                assert(self@.squares[y].len() == t.squares[y].len());
                assert forall|x: int| 0 <= x < cols implies self@.squares[y][x] == t.squares[y][x] by {
                }
                assert(self@.squares[y] =~= t.squares[y]);
            }
            assert(self@.squares =~= t.squares);
            assert forall|y: int, x: int| 0 <= y < t.squares.len() && 0 <= x < t.squares[y].len() implies square_in(#[trigger] t.squares[y][x], l.count()) by {
                assert(square_in(s0.squares[y][x], l.count()));
            }
            assert(self@ == t);
        }
    }

    /// The orientation that the grid gives a node at a square, if its site is there.
    pub fn turn_at(&self, l: &Land, nd: usize, x: i64, y: i64) -> (r: Option<Orient>)
        requires
            l.wf(),
            nd < l.count(),
        ensures
            r == l.site_turn(nd as int, x as int, y as int),
            r is Some <==> (0 <= y < l.grid.row_count && offers(l.grid.row_sites@[y as int]@, x as int, l.sites@[nd as int]@)),
    {
        match l.grid.site_orient_at(x, y, l.sites[nd].as_str()) {
            Some(o) => {
                assert(Orient::of_text(l.grid.row_orient@[y as int]@) is Some);
                Orient::parse(o.as_str())
            },
            None => None,
        }
    }

    /// Take a node's squares from row `gy` up, and the orientation its site has there.
    fn settle_at(&mut self, l: &Land, nd: usize, gy: i64)
        requires
            l.wf(),
            l.ok(old(self)@),
            nd < l.count(),
        ensures
            l.ok(final(self)@),
            final(self)@ == l.settled_at(old(self)@, nd as int, gy as int),
    {
        let (gx, _w) = self.place_of(l, nd);
        let turn = self.turn_at(l, nd, gx, gy);
        self.paint_at(l, nd, gy);
        if let Some(o) = turn {
            self.adjust_orient(l, nd, o);
        }
    }

    /// Take a node's squares and its orientation, at the row its bottom lies in.
    pub fn paint_in_grid(&mut self, l: &Land, nd: usize)
        requires
            l.wf(),
            l.ok(old(self)@),
            nd < l.count(),
        ensures
            l.ok(final(self)@),
            final(self)@ == l.settled(old(self)@, nd as int),
    {
        if let Some(gy) = l.grid.grid_snap_down_y(self.nodes[nd].bottom) {
            self.settle_at(l, nd, gy as i64);
        }
    }

    /// Take a node's squares and its orientation, at the row nearest to its bottom.
    pub fn paint_in_grid_round(&mut self, l: &Land, nd: usize)
        requires
            l.wf(),
            l.ok(old(self)@),
            nd < l.count(),
        ensures
            l.ok(final(self)@),
            final(self)@ == l.settled_near(old(self)@, nd as int),
    {
        let gy: usize = l.grid.grid_round_y(self.nodes[nd].bottom);
        self.settle_at(l, nd, gy as i64);
    }

    /// Give up a node's squares.
    pub fn erase_from_grid(&mut self, l: &Land, nd: usize)
        requires
            l.wf(),
            l.ok(old(self)@),
            nd < l.count(),
        ensures
            l.ok(final(self)@),
            final(self)@ == l.lifted(old(self)@, nd as int),
    {
        let ghost s0 = self@;
        let n = &self.nodes[nd];
        let (x0, y0, x1, y1) = l.grid.covering(n.left, n.bottom, n.width, n.height);
        let (lp, rp) = self.pad_sites[nd];
        assert(pad_in(s0.pad_sites[nd as int]));
        let cols: usize = l.grid.row_site_count;
        proof {
            assert forall|y: int| 0 <= y < self.squares@.len() implies (#[trigger] self.squares@[y])@.len() == cols by {
                assert(s0.squares[y].len() == cols);
            }
        }
        mark_box(&mut self.squares, cols, x0 - lp as i64, y0, x1 + rp as i64, y1, Mark::Free(nd as u32));
        proof {
            let t = l.lifted(s0, nd as int);
            assert forall|y: int| 0 <= y < s0.squares.len() implies #[trigger] self@.squares[y] == t.squares[y] by {
                assert(self@.squares[y] =~= t.squares[y]);
            }
            assert(self@.squares =~= t.squares);
            assert forall|y: int, x: int| 0 <= y < t.squares.len() && 0 <= x < t.squares[y].len() implies square_in(#[trigger] t.squares[y][x], l.count()) by {
                assert(square_in(s0.squares[y][x], l.count()));
            }
            assert(self@ == t);
        }
    }
}

} // verus!
