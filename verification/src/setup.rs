//! From a network, its rows and the rules of its cells to a state that can be improved: cells in
//! segments, without overlaps.

use vstd::prelude::*;
use crate::legal::is_sum;
use crate::text::texts;
use crate::lines::{
    displacement_line, displacement_text, fixed_line, fixed_text, image_line, image_text, multi_lines, multi_texts, seed_line, seed_text,
    single_line, single_text, snap_line, snap_text, wide_line, wide_text,
};
use crate::arith::{imax, imin};
use crate::checks::{movable, seated, Checks};
use crate::drc::Class;
use crate::grid::Grid;
use crate::improve::{Kind, Node};
use crate::land::{adjust_curr_orient, all_below, lists_below, node_turned, pins_turned, EdgeFault, Land, Live, Pin, Square, St};
use crate::netlist::{named, Wiring};
use crate::orient::{Orient, Symmetry};
use crate::random::{seeded, Mt19937, Twister};
use crate::regions::{Box4, Group};
use crate::rows::{small, Arch, COORD_LIMIT};
use crate::segments::{are_blockages, find_blockages, find_segments, lists, node_ok, segments_of, Cuts};

verus! {

// ── kinds of cells ───────────────────────────────────────────────────────────────────────────

/// The fixed ones of the first `n` nodes.
pub open spec fn fixed_upto(nodes: Seq<Node>, n: int) -> Seq<usize>
    decreases n,
{
    if n <= 0 {
        Seq::empty()
    } else if nodes[n - 1].fixed {
        fixed_upto(nodes, n - 1).push((n - 1) as usize)
    } else {
        fixed_upto(nodes, n - 1)
    }
}

/// The movable ones of the first `n` nodes that are some rows high.
pub open spec fn high_upto(a: Arch, nodes: Seq<Node>, rows: int, n: int) -> Seq<usize>
    decreases n,
{
    if n <= 0 {
        Seq::empty()
    } else if movable(nodes[n - 1]) && a.rows_high(nodes[n - 1].height as int) == rows {
        high_upto(a, nodes, rows, n - 1).push((n - 1) as usize)
    } else {
        high_upto(a, nodes, rows, n - 1)
    }
}

/// The length of the table of cells by height: 2, or more if one of the first `n` nodes is higher.
pub open spec fn heights_upto(a: Arch, nodes: Seq<Node>, n: int) -> int
    decreases n,
{
    if n <= 0 {
        2
    } else {
        let h = a.rows_high(nodes[n - 1].height as int);
        imax(heights_upto(a, nodes, n - 1), if movable(nodes[n - 1]) && h != 1 { h + 1 } else { 0 })
    }
}

/// The cells by their height in rows; those of one row are left out.
pub open spec fn by_height(a: Arch, nodes: Seq<Node>, n: int) -> Seq<Seq<usize>> {
    Seq::new(heights_upto(a, nodes, n) as nat, |r: int| if r == 1 { Seq::empty() } else { high_upto(a, nodes, r, n) })
}

/// Lists one after the other, from the third up to the `n`th.
pub open spec fn joined(first: Seq<usize>, v: Seq<Seq<usize>>, n: int) -> Seq<usize>
    decreases n,
{
    if n <= 2 { first } else { joined(first, v, n - 1) + v[n - 1] }
}

/// The sizes are within the limit.
pub open spec fn heights_ok(nodes: Seq<Node>) -> bool {
    forall|k: int| 0 <= k < nodes.len() ==> 0 <= (#[trigger] nodes[k]).height <= COORD_LIMIT
}

/// The fixed nodes.
pub fn collect_fixed_cells(nodes: &Vec<Node>) -> (r: Vec<usize>)
    ensures
        r@ == fixed_upto(nodes@, nodes@.len() as int),
        all_below(r@, nodes@.len() as int),
{
    let mut r: Vec<usize> = Vec::new();
    let mut k: usize = 0;
    while k < nodes.len()
        invariant
            k <= nodes@.len(),
            r@ == fixed_upto(nodes@, k as int),
            all_below(r@, nodes@.len() as int),
        decreases nodes@.len() - k,
    {
        if nodes[k].fixed {
            r.push(k);
        }
        k = k + 1;
    }
    r
}

/// The movable nodes that are one row high.
pub fn collect_single_height_cells(a: &Arch, nodes: &Vec<Node>) -> (r: Vec<usize>)
    requires
        a.wf(),
        heights_ok(nodes@),
    ensures
        r@ == high_upto(*a, nodes@, 1, nodes@.len() as int),
        all_below(r@, nodes@.len() as int),
{
    let mut r: Vec<usize> = Vec::new();
    let mut k: usize = 0;
    while k < nodes.len()
        invariant
            a.wf(),
            heights_ok(nodes@),
            k <= nodes@.len(),
            r@ == high_upto(*a, nodes@, 1, k as int),
            all_below(r@, nodes@.len() as int),
        decreases nodes@.len() - k,
    {
        let n = &nodes[k];
        assert(0 <= nodes@[k as int].height <= COORD_LIMIT);
        assert(a.rows@[0].ok());
        if n.kind != Kind::Terminal && !n.fixed && a.height_in_rows(n.height) == 1 {
            r.push(k);
        }
        k = k + 1;
    }
    r
}

proof fn lemma_none_so_high(a: Arch, nodes: Seq<Node>, rows: int, n: int)
    requires
        0 <= n <= nodes.len(),
        rows >= heights_upto(a, nodes, n),
        rows != 1,
    ensures
        high_upto(a, nodes, rows, n) == Seq::<usize>::empty(),
        heights_upto(a, nodes, n) >= 2,
    decreases n,
{
    if n > 0 {
        lemma_none_so_high(a, nodes, rows, n - 1);
    }
}

/// The movable nodes that are not one row high, by their height in rows.
pub fn collect_multi_height_cells(a: &Arch, nodes: &Vec<Node>) -> (r: Vec<Vec<usize>>)
    requires
        a.wf(),
        heights_ok(nodes@),
    ensures
        lists(r@) == by_height(*a, nodes@, nodes@.len() as int),
        lists_below(lists(r@), nodes@.len() as int),
        r@.len() >= 2,
{
    let mut r: Vec<Vec<usize>> = Vec::new();
    r.push(Vec::new());
    r.push(Vec::new());
    assert(lists(r@) =~= by_height(*a, nodes@, 0)) by {
        assert(r@[0]@ =~= Seq::<usize>::empty());
        assert(r@[1]@ =~= Seq::<usize>::empty());
    }
    let mut k: usize = 0;
    while k < nodes.len()
        invariant
            a.wf(),
            heights_ok(nodes@),
            k <= nodes@.len(),
            lists(r@) == by_height(*a, nodes@, k as int),
            lists_below(lists(r@), nodes@.len() as int),
            r@.len() >= 2,
        decreases nodes@.len() - k,
    {
        let n = &nodes[k];
        assert(0 <= nodes@[k as int].height <= COORD_LIMIT);
        assert(a.rows@[0].ok());
        let h: i32 = a.height_in_rows(n.height);
        let ghost now = by_height(*a, nodes@, k as int);
        let ghost next = by_height(*a, nodes@, k + 1);
        let ghost most = heights_upto(*a, nodes@, k as int);
        assert(now.len() == r@.len()) by {
            assert(lists(r@).len() == r@.len());
        }
        if n.kind != Kind::Terminal && !n.fixed && h != 1 {
            let at: usize = h as usize;
            let ghost old_len = r@.len();
            while r.len() <= at
                invariant
                    r@.len() >= old_len,
                    old_len == now.len(),
                    old_len >= 2,
                    r@.len() <= imax(old_len as int, at + 1),
                    forall|q: int| 0 <= q < old_len ==> (#[trigger] r@[q])@ == now[q],
                    forall|q: int| old_len <= q < r@.len() ==> (#[trigger] r@[q])@ == Seq::<usize>::empty(),
                decreases at + 1 - r@.len(),
            {
                let none: Vec<usize> = Vec::new();
                assert(none@ =~= Seq::empty());
                r.push(none);
            }
            let ghost r0 = r@;
            r[at].push(k);
            proof {
                assert(r@.len() == imax(old_len as int, at + 1));
                assert(next.len() == r@.len());
                assert forall|q: int| 0 <= q < r@.len() implies (#[trigger] r@[q])@ == next[q] by {
                    if q >= old_len {
                        lemma_none_so_high(*a, nodes@, q, k as int);
                    } else {
                        lemma_none_so_high(*a, nodes@, most, k as int);
                    }
                    assert(r0[q]@ == (if q == 1 { Seq::<usize>::empty() } else { high_upto(*a, nodes@, q, k as int) }));
                    if q != at {
                        assert(r@[q] == r0[q]);
                    }
                }
                assert(lists(r@) =~= next);
                assert forall|q: int| 0 <= q < lists(r@).len() implies all_below(#[trigger] lists(r@)[q], nodes@.len() as int) by {
                    if q < old_len {
                        assert(all_below(now[q], nodes@.len() as int));
                        assert(r0[q]@ == now[q]);
                    }
                    if q != at {
                        assert(r@[q] == r0[q]);
                    } else {
                        assert(r@[q]@ == r0[q]@.push(k));
                    }
                }
            }
        } else {
            proof {
                assert(heights_upto(*a, nodes@, k + 1) == most) by {
                    lemma_none_so_high(*a, nodes@, most, k as int);
                }
                assert(next =~= now) by {
                    assert forall|q: int| 0 <= q < now.len() implies now[q] == next[q] by {
                    }
                }
            }
        }
        k = k + 1;
    }
    r
}

/// The cells of one row, then those of two rows and more.
pub fn movers(single: &Vec<usize>, multi: &Vec<Vec<usize>>) -> (r: Vec<usize>)
    ensures
        r@ == joined(single@, lists(multi@), multi@.len() as int),
{
    let mut r: Vec<usize> = crate::moves::copy_list(single);
    let mut k: usize = 2;
    while k < multi.len()
        invariant
            2 <= k,
            k <= multi@.len() || k == 2,
            r@ == joined(single@, lists(multi@), k as int),
        decreases multi@.len() - k,
    {
        let list = &multi[k];
        let ghost r0 = r@;
        let mut j: usize = 0;
        while j < list.len()
            invariant
                j <= list@.len(),
                r@ == r0 + list@.subrange(0, j as int),
            decreases list@.len() - j,
        {
            r.push(list[j]);
            j = j + 1;
            assert(r@ =~= r0 + list@.subrange(0, j as int));
        }
        assert(list@.subrange(0, list@.len() as int) =~= list@);
        assert(lists(multi@)[k as int] == list@);
        k = k + 1;
    }
    r
}

// ── displacement ─────────────────────────────────────────────────────────────────────────────

/// How far a cell may get from where it started along one axis: a request in heights of the lowest row, or
/// as far as twice the rows' greater extent.
pub open spec fn reach_of(a: Arch, request: int) -> int {
    let limit = 2 * imax(a.max_x - a.min_x, a.max_y - a.min_y);
    if request == 0 { limit } else { imin(request * a.rows@[0].height, limit) }
}

/// How far cells may get from where they started.
pub fn max_displacement(a: &Arch, request: (i32, i32)) -> (r: (i32, i32))
    requires
        a.wf(),
        -4 * COORD_LIMIT <= request.0 * a.rows@[0].height <= i32::MAX,
        -4 * COORD_LIMIT <= request.1 * a.rows@[0].height <= i32::MAX,
    ensures
        r.0 == reach_of(*a, request.0 as int),
        r.1 == reach_of(*a, request.1 as int),
{
    let w: i32 = a.max_x - a.min_x;
    let h: i32 = a.max_y - a.min_y;
    let limit: i32 = 2 * (if w >= h { w } else { h });
    let row: i32 = a.rows[0].height;
    let x: i32 = if request.0 != 0 && request.0 * row < limit { request.0 * row } else { limit };
    let y: i32 = if request.1 != 0 && request.1 * row < limit { request.1 * row } else { limit };
    (x, y)
}

// ── groups and orientations ──────────────────────────────────────────────────────────────────

/// The nodes after the first `n` cells of a list were put into a group.
pub open spec fn in_group(nodes: Seq<Node>, names: Seq<String>, g: int, n: int) -> Seq<Node>
    decreases n,
{
    if n <= 0 {
        nodes
    } else {
        let s = in_group(nodes, names, g, n - 1);
        match named(s, Kind::Cell, names[n - 1]@, s.len() as int) {
            Some(i) => s.update(i as int, Node { group: g as i32, ..s[i as int] }),
            None => s,
        }
    }
}

/// The nodes after the cells of the first `n` groups were put into them.
pub open spec fn grouped(nodes: Seq<Node>, groups: Seq<Group>, n: int) -> Seq<Node>
    decreases n,
{
    if n <= 0 {
        nodes
    } else {
        in_group(grouped(nodes, groups, n - 1), groups[n - 1].cells@, n - 1, groups[n - 1].cells@.len() as int)
    }
}

/// The nodes differ at most in their groups.
pub open spec fn same_but_group(a: Seq<Node>, b: Seq<Node>) -> bool {
    a.len() == b.len() && forall|k: int| 0 <= k < a.len() ==> #[trigger] b[k] == (Node { group: b[k].group, ..a[k] })
}

/// Put the groups' cells into them. A later group takes a cell from an earlier one.
pub fn assign_groups(nodes: &mut Vec<Node>, groups: &Vec<Group>)
    requires
        groups@.len() <= i32::MAX,
    ensures
        final(nodes)@ == grouped(old(nodes)@, groups@, groups@.len() as int),
        same_but_group(old(nodes)@, final(nodes)@),
{
    let ghost n0 = nodes@;
    let mut g: usize = 0;
    while g < groups.len()
        invariant
            groups@.len() <= i32::MAX,
            g <= groups@.len(),
            nodes@ == grouped(n0, groups@, g as int),
            same_but_group(n0, nodes@),
        decreases groups@.len() - g,
    {
        let names = &groups[g].cells;
        let ghost n1 = nodes@;
        let mut k: usize = 0;
        while k < names.len()
            invariant
                g <= i32::MAX,
                k <= names@.len(),
                nodes@ == in_group(n1, names@, g as int, k as int),
                same_but_group(n0, nodes@),
            decreases names@.len() - k,
        {
            let ghost n2 = nodes@;
            if let Some(i) = crate::netlist::find_named(nodes, Kind::Cell, names[k].as_str()) {
                nodes[i].group = g as i32;
                assert(nodes@ =~= n2.update(i as int, Node { group: g as i32, ..n2[i as int] }));
            }
            k = k + 1;
        }
        g = g + 1;
    }
}

/// The nodes and pins after the first `n` nodes took their instances' orientations.
pub open spec fn adopted(nodes: Seq<Node>, pins: Seq<Pin>, lists: Seq<Seq<usize>>, turns: Seq<Orient>, n: int) -> (Seq<Node>, Seq<Pin>)
    decreases n,
{
    if n <= 0 {
        (nodes, pins)
    } else {
        let s = adopted(nodes, pins, lists, turns, n - 1);
        let nd = nodes[n - 1];
        if nd.kind == Kind::Cell && nd.placed {
            (s.0.update(n - 1, node_turned(s.0[n - 1], turns[n - 1])), pins_turned(s.1, lists[n - 1], lists[n - 1].len() as int, nd.orient, turns[n - 1]))
        } else {
            s
        }
    }
}

/// Let every placed cell take its instance's orientation.
pub fn adopt_inst_orients(nodes: &mut Vec<Node>, pins: &mut Vec<Pin>, node_pins: &Vec<Vec<usize>>, turns: &Vec<Orient>)
    requires
        node_pins@.len() == old(nodes)@.len(),
        turns@.len() == old(nodes)@.len(),
        lists_below(lists(node_pins@), old(pins)@.len() as int),
        forall|k: int| 0 <= k < old(pins)@.len() ==> small((#[trigger] old(pins)@[k]).ox as int) && small(old(pins)@[k].oy as int),
    ensures
        (final(nodes)@, final(pins)@) == adopted(old(nodes)@, old(pins)@, lists(node_pins@), turns@, old(nodes)@.len() as int),
        final(nodes)@.len() == old(nodes)@.len(),
        final(pins)@.len() == old(pins)@.len(),
        forall|k: int| 0 <= k < old(pins)@.len() ==> small((#[trigger] final(pins)@[k]).ox as int) && small(final(pins)@[k].oy as int)
            && final(pins)@[k].node == old(pins)@[k].node && final(pins)@[k].edge == old(pins)@[k].edge,
        forall|k: int| 0 <= k < old(nodes)@.len() ==> same_but_turn(old(nodes)@[k], #[trigger] final(nodes)@[k]),
{
    let ghost n0 = nodes@;
    let ghost p0 = pins@;
    let mut k: usize = 0;
    while k < nodes.len()
        invariant
            k <= n0.len(),
            nodes@.len() == n0.len(),
            node_pins@.len() == n0.len(),
            turns@.len() == n0.len(),
            lists_below(lists(node_pins@), p0.len() as int),
            pins@.len() == p0.len(),
            (nodes@, pins@) == adopted(n0, p0, lists(node_pins@), turns@, k as int),
            forall|j: int| 0 <= j < p0.len() ==> small((#[trigger] pins@[j]).ox as int) && small(pins@[j].oy as int)
                && pins@[j].node == p0[j].node && pins@[j].edge == p0[j].edge,
            forall|j: int| k <= j < n0.len() ==> #[trigger] nodes@[j] == n0[j],
            forall|j: int| 0 <= j < n0.len() ==> same_but_turn(n0[j], #[trigger] nodes@[j]),
        decreases n0.len() - k,
    {
        let ghost n1 = nodes@;
        assert(lists(node_pins@)[k as int] == node_pins@[k as int]@);
        assert(nodes@[k as int] == n0[k as int]);
        if nodes[k].kind == Kind::Cell && nodes[k].placed {
            adjust_curr_orient(&mut nodes[k], pins, &node_pins[k], turns[k]);
            assert(nodes@ =~= n1.update(k as int, node_turned(n1[k as int], turns@[k as int])));
        }
        k = k + 1;
    }
}

/// The nodes differ at most in their orientation, and in width and height, which may be exchanged.
pub open spec fn same_but_turn(a: Node, b: Node) -> bool {
    &&& b == (Node { orient: b.orient, width: b.width, height: b.height, ..a })
    &&& (b.width == a.width && b.height == a.height) || (b.width == a.height && b.height == a.width)
}

// ── the whole ────────────────────────────────────────────────────────────────────────────────

/// A network with its rows and the rules of its cells. The tables have an entry for every node.
pub struct SetupInput {
    pub nodes: Vec<Node>,
    pub arch: Arch,
    pub grid: Grid,
    /// The pins; nodes past the end of its table have none.
    pub wiring: Wiring,
    pub sites: Vec<String>,
    pub sym: Vec<Symmetry>,
    pub used_layers: Vec<u32>,
    pub classes: Vec<Class>,
    pub rails: Vec<Vec<(bool, bool)>>,
    pub master_rails: Vec<(u8, u8)>,
    pub pad_sites: Vec<(i32, i32)>,
    /// The instances' orientations.
    pub turns: Vec<Orient>,
    /// The hard blockages.
    pub boxes: Vec<Box4>,
    pub groups: Vec<Group>,
    pub disallow_gaps: bool,
    /// How cells may not lie to each other, for the spacing of their edges.
    pub edge_faults: Vec<EdgeFault>,
}

/// Why there is nothing to improve.
#[derive(Debug, Clone, Copy, PartialEq, Eq, Structural)]
pub enum SetupError {
    /// No row takes part.
    NoRows,
    /// More segments, or cells in them, than can be counted.
    TooLarge,
    /// Removing overlaps pushes a cell further out than coordinates go.
    OutOfReach,
}

/// A state that can be improved.
pub struct Setup {
    pub land: Land,
    pub live: Live,
    pub fixed: Vec<usize>,
    pub single: Vec<usize>,
    /// The cells by their height in rows; those of one row are left out.
    pub multi: Vec<Vec<usize>>,
    /// The cells wider than their segment. They are sought before there are segments, so none is found.
    pub wide: Vec<usize>,
    pub checks: Checks,
    /// How far the cells moved in sum when they were put into segments, and whether any moved then or
    /// when overlaps were removed.
    pub movement: (i64, i64),
    pub displaced: bool,
    /// What was said meanwhile.
    pub log: Vec<String>,
    pub rng: Mt19937,
}

/// The node is within the limit however it is turned.
pub open spec fn turns_in(n: Node) -> bool {
    &&& small(n.left as int) && small(n.bottom as int) && 0 <= n.width && 0 <= n.height
    &&& small(n.left + n.width) && small(n.left + n.height) && small(n.bottom + n.width) && small(n.bottom + n.height)
    &&& n.width <= COORD_LIMIT && n.height <= COORD_LIMIT
}

/// Padding in sites as padding in database units.
pub open spec fn pads_of(pad_sites: Seq<(i32, i32)>, site_width: int) -> Seq<(i32, i32)> {
    Seq::new(pad_sites.len(), |k: int| ((pad_sites[k].0 * site_width) as i32, (pad_sites[k].1 * site_width) as i32))
}

/// Padding is within the limit in sites and in database units.
pub open spec fn pad_ok(p: (i32, i32), site_width: int) -> bool {
    0 <= p.0 <= COORD_LIMIT && 0 <= p.1 <= COORD_LIMIT && p.0 * site_width <= COORD_LIMIT && p.1 * site_width <= COORD_LIMIT
}

/// The lists, and empty ones up to a length.
pub open spec fn padded(v: Seq<Seq<usize>>, n: int) -> Seq<Seq<usize>> {
    Seq::new(n as nat, |k: int| if k < v.len() { v[k] } else { Seq::empty() })
}

/// A state with all squares free and no cell in a segment.
pub open spec fn fresh(l: Land, nodes: Seq<Node>, pins: Seq<Pin>, pads: Seq<(i32, i32)>, pad_sites: Seq<(i32, i32)>) -> St {
    let m = l.segments@.len();
    St {
        nodes,
        pins,
        squares: Seq::new(l.grid.row_count as nat, |y: int| Seq::new(l.grid.row_site_count as nat, |x: int| Square { cell: None, padding: None })),
        cells: Seq::new(m, |k: int| Seq::<usize>::empty()),
        homes: Seq::new(nodes.len(), |k: int| Seq::<usize>::empty()),
        util: Seq::new(m, |k: int| 0i64),
        pads,
        pad_sites,
        journal: Seq::empty(),
        touched: Seq::empty(),
        nets: Seq::empty(),
    }
}

impl Land {
    /// The state after the fixed ones of the first `n` nodes took their squares.
    pub open spec fn fixed_painted(&self, s: St, n: int) -> St
        decreases n,
    {
        if n <= 0 {
            s
        } else {
            let t = self.fixed_painted(s, n - 1);
            let nd = t.nodes[n - 1];
            if nd.kind == Kind::Cell && nd.fixed && self.grid.row_count > 0 {
                self.painted_at(t, n - 1, self.grid.snap_down(nd.bottom as int))
            } else {
                t
            }
        }
    }

    /// Whether a movable cell among the first `n` nodes is at another place.
    pub open spec fn some_moved(&self, s: St, t: St, n: int) -> bool {
        exists|k: int| 0 <= k < n && !(#[trigger] t.nodes[k]).fixed && t.nodes[k].kind == Kind::Cell
            && (t.nodes[k].left != s.nodes[k].left || t.nodes[k].bottom != s.nodes[k].bottom)
    }
}

/// The first `n` of a list that are in segments.
pub open spec fn housed(s: St, list: Seq<usize>, n: int) -> Seq<usize>
    decreases n,
{
    if n <= 0 {
        Seq::empty()
    } else if s.homes[list[n - 1] as int].len() > 0 {
        housed(s, list, n - 1).push(list[n - 1])
    } else {
        housed(s, list, n - 1)
    }
}

impl SetupInput {
    /// The tables fit together and the numbers are within the limit.
    pub open spec fn wf(&self) -> bool {
        let n = self.nodes@.len();
        &&& self.arch.rows@.len() > 0 ==> self.arch.wf() && self.arch.rows@.len() * self.arch.rows@[0].height <= COORD_LIMIT
        &&& self.grid.wf()
        &&& n <= COORD_LIMIT
        &&& self.wiring.node_pins@.len() <= n
        &&& self.wiring.wf(self.wiring.node_pins@.len() as int)
        &&& self.wiring.edges@.len() <= COORD_LIMIT
        &&& self.sites@.len() == n && self.sym@.len() == n && self.used_layers@.len() == n && self.classes@.len() == n
        &&& self.rails@.len() == n && self.master_rails@.len() == n && self.pad_sites@.len() == n && self.turns@.len() == n
        &&& forall|k: int| 0 <= k < n ==> turns_in(#[trigger] self.nodes@[k])
        &&& forall|k: int| 0 <= k < n ==> pad_ok(#[trigger] self.pad_sites@[k], self.grid.site_width as int)
        &&& forall|k: int| 0 <= k < self.boxes@.len() ==> small((#[trigger] self.boxes@[k]).0 as int) && small(self.boxes@[k].2 as int)
        &&& self.groups@.len() <= i32::MAX
        &&& forall|i: int, k: int| 0 <= i < self.groups@.len() && 0 <= k < self.groups@[i].rects@.len() ==>
            small((#[trigger] self.groups@[i].rects@[k]).0 as int) && small(self.groups@[i].rects@[k].2 as int)
        &&& forall|y: int| 0 <= y < self.grid.row_count ==> Orient::of_text((#[trigger] self.grid.row_orient@[y])@) is Some
        &&& forall|k: int| 0 <= k < self.edge_faults@.len() ==> (#[trigger] self.edge_faults@[k]).node < n && self.edge_faults@[k].other < n
    }

    /// The pins of each node.
    pub open spec fn pin_lists(&self) -> Seq<Seq<usize>> {
        padded(lists(self.wiring.node_pins@), self.nodes@.len() as int)
    }

    /// The nodes and pins at the start: in their groups and turned.
    pub open spec fn start(&self) -> (Seq<Node>, Seq<Pin>) {
        adopted(grouped(self.nodes@, self.groups@, self.groups@.len() as int), self.wiring.pins@, self.pin_lists(), self.turns@, self.nodes@.len() as int)
    }

    /// The padding in database units.
    pub open spec fn pads(&self) -> Seq<(i32, i32)> {
        pads_of(self.pad_sites@, self.grid.site_width as int)
    }

    /// `l` is the ground of the network.
    pub open spec fn is_land(&self, request: (i32, i32), l: Land) -> bool {
        let (nodes, n) = (self.start().0, self.nodes@.len() as int);
        &&& l.arch == self.arch
        &&& l.grid == self.grid
        &&& are_blockages(self.arch, nodes, fixed_upto(nodes, n), self.pads(), self.boxes@, l.blockages@)
        &&& (Cuts { segs: l.segments@, ids: lists(l.segs_in_row@) }) == segments_of(self.arch, l.blockages@, self.groups@)
        &&& l.sites == self.sites && l.sym == self.sym && l.used_layers == self.used_layers && l.classes == self.classes
        &&& l.rails == self.rails && l.master_rails == self.master_rails
        &&& lists(l.node_pins@) == self.pin_lists()
        &&& l.edges == self.wiring.edges
        &&& l.orig@ == Seq::new(n as nat, |k: int| (self.nodes@[k].left, self.nodes@[k].bottom))
        &&& l.max_disp.0 == reach_of(self.arch, request.0 as int)
        &&& l.max_disp.1 == reach_of(self.arch, request.1 as int)
        &&& l.move_limit == MOVE_LIMIT
        &&& l.disallow_gaps == self.disallow_gaps
        &&& l.edge_faults == self.edge_faults
    }

    /// The state before cells are put into segments.
    pub open spec fn begun(&self, l: Land) -> St {
        l.fixed_painted(fresh(l, self.start().0, self.start().1, self.pads(), self.pad_sites@), self.nodes@.len() as int)
    }

    /// The cells that are put into segments.
    pub open spec fn moving(&self) -> Seq<usize> {
        let (nodes, n) = (self.start().0, self.nodes@.len() as int);
        let multi = by_height(self.arch, nodes, n);
        joined(high_upto(self.arch, nodes, 1, n), multi, multi.len() as int)
    }

    /// What is said of the cells of the lists up to the `n`th that are put into segments, one line for each list
    /// of cells.
    pub open spec fn snap_said(&self, l: Land, n: int) -> Seq<Seq<char>>
        decreases n,
    {
        let (nodes, count) = (self.start().0, self.nodes@.len() as int);
        let (single, multi) = (high_upto(self.arch, nodes, 1, count), by_height(self.arch, nodes, count));
        let (from, to) = (joined(single, multi, n - 1).len() as int, joined(single, multi, n).len() as int);
        if n <= 2 {
            if single.len() > 0 { seq![self.stretch_said(l, 0, single.len() as int)] } else { Seq::empty() }
        } else if from < to {
            self.snap_said(l, n - 1).push(self.stretch_said(l, from, to))
        } else {
            self.snap_said(l, n - 1)
        }
    }

    /// What is said of a stretch of the cells that are put into segments.
    pub open spec fn stretch_said(&self, l: Land, from: int, to: int) -> Seq<char> {
        let (a, m) = (self.begun(l), self.moving());
        let (p, q) = (l.snap_sum(a, m, from), l.snap_sum(a, m, to));
        snap_text(q.2 - p.2, q.0 - p.0, q.1 - p.1)
    }

    /// What is said in all.
    pub open spec fn said(&self, seed: u32, request: (i32, i32), l: Land, fixed: int, single: int, multi: Seq<Seq<usize>>, c: Checks) -> Seq<Seq<char>> {
        let (a, core) = (self.arch, self.grid.core);
        seq![
            seed_text(seed as int),
            displacement_text((request.0 as int, request.1 as int), (l.max_disp.0 as int, l.max_disp.1 as int)),
            fixed_text(fixed),
            single_text(single),
        ] + multi_texts(multi, multi.len() as int) + seq![
            wide_text(0),
            image_text((a.min_x + core.0, a.min_y + core.1), (a.max_x + core.0, a.max_y + core.1)),
        ] + self.snap_said(l, multi.len() as int) + c.said()
    }

    /// `s` is the state that can be improved: the cells are put into segments and their overlaps
    /// removed.
    pub open spec fn is_setup(&self, seed: u32, request: (i32, i32), s: Setup) -> bool {
        let (nodes, n, l) = (self.start().0, self.nodes@.len() as int, s.land);
        let a = self.begun(l);
        let m = self.moving();
        let b = l.snapped(a, m, m.len() as int);
        &&& self.is_land(request, l)
        &&& s.fixed@ == fixed_upto(nodes, n)
        &&& s.single@ == high_upto(self.arch, nodes, 1, n)
        &&& lists(s.multi@) == by_height(self.arch, nodes, n)
        &&& s.wide@.len() == 0
        &&& l.is_shifted(b, housed(b, m, m.len() as int), s.live@)
        &&& (s.movement.0 as int, s.movement.1 as int) == (l.snap_sum(a, m, m.len() as int).0, l.snap_sum(a, m, m.len() as int).1)
        &&& s.displaced == (l.some_moved(a, b, n) || s.live@ != b)
        &&& l.settles() && 2 * seated(s.live@, l.segments@.len() as int) <= usize::MAX
        &&& l.counted(s.live@, s.checks)
        &&& texts(s.log@) == self.said(seed, request, l, s.fixed@.len() as int, s.single@.len() as int, lists(s.multi@), s.checks)
        &&& s.rng@ == (Twister { mt: seeded(seed, 624), idx: 624 })
    }
}

/// How many cells one move may move.
pub const MOVE_LIMIT: usize = 100;

// ── distinct cells ───────────────────────────────────────────────────────────────────────────

proof fn lemma_high(a: Arch, nodes: Seq<Node>, rows: int, n: int)
    requires
        0 <= n <= nodes.len() <= usize::MAX,
    ensures
        forall|k: int| 0 <= k < high_upto(a, nodes, rows, n).len() ==> (#[trigger] high_upto(a, nodes, rows, n)[k]) < n
            && a.rows_high(nodes[high_upto(a, nodes, rows, n)[k] as int].height as int) == rows,
        high_upto(a, nodes, rows, n).no_duplicates(),
    decreases n,
{
    if n > 0 {
        lemma_high(a, nodes, rows, n - 1);
    }
}

proof fn lemma_joined(a: Arch, nodes: Seq<Node>, n: int, r: int)
    requires
        0 <= n <= nodes.len() <= usize::MAX,
        r <= by_height(a, nodes, n).len(),
    ensures
        forall|k: int| 0 <= k < joined(high_upto(a, nodes, 1, n), by_height(a, nodes, n), r).len() ==>
            (#[trigger] joined(high_upto(a, nodes, 1, n), by_height(a, nodes, n), r)[k]) < n
            && a.rows_high(nodes[joined(high_upto(a, nodes, 1, n), by_height(a, nodes, n), r)[k] as int].height as int) < imax(r, 2),
        joined(high_upto(a, nodes, 1, n), by_height(a, nodes, n), r).no_duplicates(),
    decreases r,
{
    let (first, v) = (high_upto(a, nodes, 1, n), by_height(a, nodes, n));
    if r <= 2 {
        lemma_high(a, nodes, 1, n);
    } else {
        lemma_joined(a, nodes, n, r - 1);
        lemma_high(a, nodes, r - 1, n);
        let (x, y) = (joined(first, v, r - 1), high_upto(a, nodes, r - 1, n));
        assert(v[r - 1] == y);
        let z = joined(first, v, r);
        assert(z == x + y);
        assert forall|k: int| 0 <= k < z.len() implies (#[trigger] z[k]) < n && a.rows_high(nodes[z[k] as int].height as int) < imax(r, 2) by {
            if k < x.len() {
                assert(z[k] == x[k]);
            } else {
                assert(z[k] == y[k - x.len()]);
            }
        }
        assert forall|i: int, j: int| 0 <= i < z.len() && 0 <= j < z.len() && i != j implies z[i] != z[j] by {
            let (p, q) = (if i < x.len() { x[i] } else { y[i - x.len()] }, if j < x.len() { x[j] } else { y[j - x.len()] });
            assert(z[i] == p && z[j] == q);
        }
    }
}

/// Distinct numbers below a bound are no more than the bound.
proof fn lemma_few(s: Seq<usize>, n: int)
    requires
        s.no_duplicates(),
        all_below(s, n),
        0 <= n,
    ensures
        s.len() <= n,
{
    let t = s.map_values(|x: usize| x as int);
    assert(t.no_duplicates()) by {
        assert forall|i: int, j: int| 0 <= i < t.len() && 0 <= j < t.len() && i != j implies t[i] != t[j] by {
            assert(s[i] != s[j]);
        }
    }
    t.unique_seq_to_set();
    vstd::set_lib::lemma_int_range(0, n);
    assert forall|x: int| t.to_set().contains(x) implies vstd::set_lib::set_int_range(0, n).contains(x) by {
        let k = choose|k: int| 0 <= k < t.len() && t[k] == x;
        assert(s[k] < n);
    }
    vstd::set_lib::lemma_len_subset(t.to_set(), vstd::set_lib::set_int_range(0, n));
}

proof fn lemma_housed(s: St, list: Seq<usize>, n: int, m: int)
    requires
        0 <= n <= list.len(),
        list.no_duplicates(),
        all_below(list, m),
    ensures
        housed(s, list, n).no_duplicates(),
        all_below(housed(s, list, n), m),
        forall|k: int| 0 <= k < housed(s, list, n).len() ==> s.homes[#[trigger] housed(s, list, n)[k] as int].len() > 0,
        forall|k: int| 0 <= k < housed(s, list, n).len() ==> list.subrange(0, n).contains(#[trigger] housed(s, list, n)[k]),
    decreases n,
{
    if n > 0 {
        lemma_housed(s, list, n - 1, m);
        let (a, b) = (housed(s, list, n - 1), housed(s, list, n));
        let (p, q) = (list.subrange(0, n - 1), list.subrange(0, n));
        assert forall|k: int| 0 <= k < b.len() implies q.contains(#[trigger] b[k]) by {
            if k < a.len() {
                assert(p.contains(a[k]));
                let i = choose|i: int| 0 <= i < p.len() && p[i] == a[k];
                assert(q[i] == b[k]);
            } else {
                assert(q[n - 1] == b[k]);
            }
        }
        if s.homes[list[n - 1] as int].len() > 0 {
            assert forall|i: int, j: int| 0 <= i < b.len() && 0 <= j < b.len() && i != j implies b[i] != b[j] by {
                if i == a.len() {
                    assert(p.contains(a[j]));
                    let t = choose|t: int| 0 <= t < p.len() && p[t] == a[j];
                    assert(list[t] != list[n - 1]);
                } else if j == a.len() {
                    assert(p.contains(a[i]));
                    let t = choose|t: int| 0 <= t < p.len() && p[t] == a[i];
                    assert(list[t] != list[n - 1]);
                }
            }
        }
    }
}

// ── building ─────────────────────────────────────────────────────────────────────────────────

/// Padding in sites as padding in database units.
fn widen_pads(pad_sites: &Vec<(i32, i32)>, site_width: i32) -> (r: Vec<(i32, i32)>)
    requires
        forall|k: int| 0 <= k < pad_sites@.len() ==> pad_ok(#[trigger] pad_sites@[k], site_width as int),
        site_width > 0,
    ensures
        r@ == pads_of(pad_sites@, site_width as int),
        forall|k: int| 0 <= k < r@.len() ==> crate::land::pad_in(#[trigger] r@[k]),
{
    let mut r: Vec<(i32, i32)> = Vec::new();
    let mut k: usize = 0;
    while k < pad_sites.len()
        invariant
            forall|k: int| 0 <= k < pad_sites@.len() ==> pad_ok(#[trigger] pad_sites@[k], site_width as int),
            site_width > 0,
            k <= pad_sites@.len(),
            r@.len() == k,
            forall|j: int| 0 <= j < k ==> #[trigger] r@[j] == pads_of(pad_sites@, site_width as int)[j],
            forall|j: int| 0 <= j < k ==> crate::land::pad_in(#[trigger] r@[j]),
        decreases pad_sites@.len() - k,
    {
        let (a, b) = pad_sites[k];
        assert(pad_ok(pad_sites@[k as int], site_width as int));
        proof {
            assert(a * site_width >= 0) by (nonlinear_arith)
                requires a >= 0, site_width > 0;
            assert(b * site_width >= 0) by (nonlinear_arith)
                requires b >= 0, site_width > 0;
        }
        r.push((a * site_width, b * site_width));
        k = k + 1;
    }
    assert(r@ =~= pads_of(pad_sites@, site_width as int));
    r
}

fn empty_lists(n: usize) -> (r: Vec<Vec<usize>>)
    ensures
        lists(r@) == Seq::new(n as nat, |k: int| Seq::<usize>::empty()),
        r@.len() == n,
{
    let mut r: Vec<Vec<usize>> = Vec::new();
    let mut k: usize = 0;
    while k < n
        invariant
            k <= n,
            r@.len() == k,
            forall|j: int| 0 <= j < k ==> (#[trigger] r@[j])@ == Seq::<usize>::empty(),
        decreases n - k,
    {
        let none: Vec<usize> = Vec::new();
        assert(none@ =~= Seq::empty());
        r.push(none);
        k = k + 1;
    }
    assert(lists(r@) =~= Seq::new(n as nat, |k: int| Seq::<usize>::empty()));
    r
}

/// A table of free squares.
fn free_squares(rows: usize, cols: usize) -> (r: Vec<Vec<Square>>)
    ensures
        r@.len() == rows,
        forall|y: int| 0 <= y < rows ==> (#[trigger] r@[y])@ == Seq::new(cols as nat, |x: int| Square { cell: None, padding: None }),
{
    let mut r: Vec<Vec<Square>> = Vec::new();
    let mut y: usize = 0;
    while y < rows
        invariant
            y <= rows,
            r@.len() == y,
            forall|j: int| 0 <= j < y ==> (#[trigger] r@[j])@ == Seq::new(cols as nat, |x: int| Square { cell: None, padding: None }),
        decreases rows - y,
    {
        let mut row: Vec<Square> = Vec::new();
        let mut x: usize = 0;
        while x < cols
            invariant
                x <= cols,
                row@ == Seq::new(x as nat, |x: int| Square { cell: None, padding: None }),
            decreases cols - x,
        {
            row.push(Square { cell: None, padding: None });
            x = x + 1;
            assert(row@ =~= Seq::new(x as nat, |x: int| Square { cell: None, padding: None }));
        }
        r.push(row);
        y = y + 1;
    }
    r
}

fn places(nodes: &Vec<Node>) -> (r: Vec<(i32, i32)>)
    ensures
        r@ == Seq::new(nodes@.len(), |k: int| (nodes@[k].left, nodes@[k].bottom)),
{
    let mut r: Vec<(i32, i32)> = Vec::new();
    let mut k: usize = 0;
    while k < nodes.len()
        invariant
            k <= nodes@.len(),
            r@.len() == k,
            forall|j: int| 0 <= j < k ==> #[trigger] r@[j] == (nodes@[j].left, nodes@[j].bottom),
        decreases nodes@.len() - k,
    {
        r.push((nodes[k].left, nodes[k].bottom));
        k = k + 1;
    }
    assert(r@ =~= Seq::new(nodes@.len(), |k: int| (nodes@[k].left, nodes@[k].bottom)));
    r
}

impl Live {
    /// Let the fixed cells take their squares.
    pub fn paint_fixed(&mut self, l: &Land)
        requires
            l.wf(),
            l.ok(old(self)@),
        ensures
            l.ok(final(self)@),
            final(self)@ == l.fixed_painted(old(self)@, l.count()),
            final(self)@.nodes == old(self)@.nodes,
            final(self)@.homes == old(self)@.homes,
    {
        let ghost s = self@;
        let n: usize = l.sites.len();
        let mut k: usize = 0;
        while k < n
            invariant
                l.wf(),
                l.ok(self@),
                n == l.count(),
                k <= n,
                self@ == l.fixed_painted(s, k as int),
                self@.nodes == s.nodes,
                self@.homes == s.homes,
            decreases n - k,
        {
            if self.nodes[k].kind == Kind::Cell && self.nodes[k].fixed {
                if let Some(gy) = l.grid.grid_snap_down_y(self.nodes[k].bottom) {
                    self.paint_at(l, k, gy as i64);
                }
            }
            k = k + 1;
        }
    }

    /// Whether a movable cell is not where it was.
    fn any_moved(&self, l: &Land, was: &Vec<(i32, i32)>, Ghost(s): Ghost<St>) -> (r: bool)
        requires
            l.wf(),
            l.ok(self@),
            s.nodes.len() == l.count(),
            was@ == Seq::new(s.nodes.len(), |k: int| (s.nodes[k].left, s.nodes[k].bottom)),
        ensures
            r == l.some_moved(s, self@, l.count()),
    {
        let n: usize = l.sites.len();
        let mut k: usize = 0;
        while k < n
            invariant
                l.wf(),
                l.ok(self@),
                n == l.count(),
                s.nodes.len() == n,
                was@ == Seq::new(s.nodes.len(), |k: int| (s.nodes[k].left, s.nodes[k].bottom)),
                k <= n,
                !l.some_moved(s, self@, k as int),
            decreases n - k,
        {
            let nd = &self.nodes[k];
            if !nd.fixed && nd.kind == Kind::Cell && (nd.left != was[k].0 || nd.bottom != was[k].1) {
                assert(!self@.nodes[k as int].fixed);
                return true;
            }
            k = k + 1;
        }
        false
    }

    /// Whether all nodes are at places that can be reached, as the stages ask.
    pub fn in_reach(&self, l: &Land) -> (r: bool)
        requires
            l.wf(),
            l.fits(self@),
        ensures
            r == l.ok(self@),
    {
        let n: usize = l.sites.len();
        let most: i64 = 6 * COORD_LIMIT as i64;
        let mut k: usize = 0;
        while k < n
            invariant
                l.wf(),
                l.fits(self@),
                n == l.count(),
                most == 6 * COORD_LIMIT,
                k <= n,
                forall|j: int| 0 <= j < k ==> crate::land::node_in(#[trigger] self@.nodes[j]),
            decreases n - k,
        {
            let x: i64 = self.nodes[k].left as i64;
            assert(crate::land::node_fits(self@.nodes[k as int], self@.pad_sites[k as int]));
            if x < -most || most < x {
                assert(!crate::land::node_in(self@.nodes[k as int]));
                return false;
            }
            k = k + 1;
        }
        true
    }

    /// Whether the cells of all segments together can be counted.
    pub fn few_seated(&self, l: &Land) -> (r: bool)
        requires
            l.wf(),
            l.fits(self@),
        ensures
            r == (2 * seated(self@, l.segments@.len() as int) <= usize::MAX),
    {
        let m: usize = l.segments.len();
        let most: usize = usize::MAX / 2;
        let mut sum: usize = 0;
        let mut k: usize = 0;
        while k < m
            invariant
                l.wf(),
                l.fits(self@),
                m == l.segments@.len(),
                most == usize::MAX / 2,
                k <= m,
                sum == seated(self@, k as int),
                sum <= most,
            decreases m - k,
        {
            let c: usize = self.cells_in_seg[k].len();
            assert(self@.cells[k as int].len() == c);
            if c > most - sum {
                proof {
                    crate::checks::lemma_seated(self@, k + 1, m as int);
                }
                return false;
            }
            sum = sum + c;
            k = k + 1;
        }
        true
    }
}

fn housed_of(live: &Live, l: &Land, list: &Vec<usize>) -> (r: Vec<usize>)
    requires
        l.wf(),
        l.ok(live@),
        all_below(list@, l.count()),
    ensures
        r@ == housed(live@, list@, list@.len() as int),
{
    let mut r: Vec<usize> = Vec::new();
    let mut k: usize = 0;
    while k < list.len()
        invariant
            l.wf(),
            l.ok(live@),
            all_below(list@, l.count()),
            k <= list@.len(),
            r@ == housed(live@, list@, k as int),
        decreases list@.len() - k,
    {
        let c: usize = list[k];
        assert(live@.homes[c as int] == live.cell_segs@[c as int]@);
        if live.cell_segs[c].len() > 0 {
            r.push(c);
        }
        k = k + 1;
    }
    r
}

/// The ground of a network and its nodes and pins at the start.
fn build(d: SetupInput, request: (i32, i32)) -> (r: (Land, Live, Vec<usize>, Vec<usize>, Vec<Vec<usize>>))
    requires
        d.wf(),
        d.arch.rows@.len() > 0,
        -4 * COORD_LIMIT <= request.0 * d.arch.rows@[0].height <= i32::MAX,
        -4 * COORD_LIMIT <= request.1 * d.arch.rows@[0].height <= i32::MAX,
    ensures
        d.is_land(request, r.0),
        r.0.wf(),
        r.0.low(),
        r.0.count() == d.nodes@.len(),
        r.0.ok(r.1@),
        r.1@ == fresh(r.0, d.start().0, d.start().1, d.pads(), d.pad_sites@),
        r.2@ == fixed_upto(d.start().0, d.nodes@.len() as int),
        r.3@ == high_upto(d.arch, d.start().0, 1, d.nodes@.len() as int),
        lists(r.4@) == by_height(d.arch, d.start().0, d.nodes@.len() as int),
        r.0.arch == d.arch,
{
    let ghost d0 = d;
    let ghost count = d.nodes@.len() as int;
    let mut nodes: Vec<Node> = d.nodes;
    let mut pins: Vec<Pin> = d.wiring.pins;
    let mut node_pins: Vec<Vec<usize>> = d.wiring.node_pins;
    let edges: Vec<Vec<usize>> = d.wiring.edges;
    let n: usize = nodes.len();
    let orig = places(&nodes);
    assign_groups(&mut nodes, &d.groups);
    let ghost lists0 = lists(node_pins@);
    while node_pins.len() < n
        invariant
            lists0.len() <= node_pins@.len() <= n,
            lists(node_pins@) == padded(lists0, node_pins@.len() as int),
        decreases n - node_pins@.len(),
    {
        let none: Vec<usize> = Vec::new();
        assert(none@ =~= Seq::empty());
        let ghost before = node_pins@;
        node_pins.push(none);
        proof {
            assert forall|k: int| 0 <= k < node_pins@.len() implies #[trigger] lists(node_pins@)[k] == padded(lists0, node_pins@.len() as int)[k] by {
                if k < before.len() {
                    assert(lists(node_pins@)[k] == lists(before)[k]);
                    assert(lists(before)[k] == padded(lists0, before.len() as int)[k]);
                }
            }
            assert(lists(node_pins@) =~= padded(lists0, node_pins@.len() as int));
        }
    }
    proof {
        assert(lists(node_pins@) =~= d0.pin_lists());
        assert(lists_below(lists(node_pins@), pins@.len() as int)) by {
            assert forall|k: int| 0 <= k < lists(node_pins@).len() implies all_below(#[trigger] lists(node_pins@)[k], pins@.len() as int) by {
                if k < lists0.len() {
                    assert(all_below(lists0[k], pins@.len() as int));
                }
            }
        }
        assert forall|k: int| 0 <= k < nodes@.len() implies turns_in(#[trigger] nodes@[k]) by {
            assert(turns_in(d0.nodes@[k]));
        }
    }
    let ghost n1 = nodes@;
    adopt_inst_orients(&mut nodes, &mut pins, &node_pins, &d.turns);
    proof {
        assert((nodes@, pins@) == d0.start());
        assert forall|k: int| 0 <= k < nodes@.len() implies turns_in(#[trigger] nodes@[k]) by {
            assert(same_but_turn(n1[k], nodes@[k]));
            assert(turns_in(n1[k]));
        }
        assert forall|k: int| 0 <= k < nodes@.len() implies 0 <= (#[trigger] nodes@[k]).height <= COORD_LIMIT by {
            assert(turns_in(nodes@[k]));
        }
    }
    let pads = widen_pads(&d.pad_sites, d.grid.site_width);
    let max_disp = max_displacement(&d.arch, request);
    let fixed = collect_fixed_cells(&nodes);
    let single = collect_single_height_cells(&d.arch, &nodes);
    let multi = collect_multi_height_cells(&d.arch, &nodes);
    proof {
        assert forall|k: int| 0 <= k < fixed@.len() implies #[trigger] fixed@[k] < nodes@.len() && node_ok(nodes@[fixed@[k] as int]) by {
            assert(turns_in(nodes@[fixed@[k] as int]));
        }
        assert forall|k: int| 0 <= k < pads@.len() implies small((#[trigger] pads@[k]).0 as int) && small(pads@[k].1 as int) by {
            assert(crate::land::pad_in(pads@[k]));
        }
    }
    let blockages = find_blockages(&d.arch, &nodes, &fixed, &pads, &d.boxes);
    let (segments, segs_in_row) = find_segments(&d.arch, &blockages, &d.groups);
    let m: usize = segments.len();
    let mut util: Vec<i64> = Vec::new();
    while util.len() < m
        invariant
            util@.len() <= m,
            util@ == Seq::new(util@.len(), |k: int| 0i64),
        decreases m - util@.len(),
    {
        util.push(0);
        assert(util@ =~= Seq::new(util@.len(), |k: int| 0i64));
    }
    let squares = free_squares(d.grid.row_count, d.grid.row_site_count);
    let live = Live {
        nodes,
        pins,
        squares,
        cells_in_seg: empty_lists(m),
        cell_segs: empty_lists(n),
        seg_util: util,
        pads,
        pad_sites: d.pad_sites,
        journal: Vec::new(),
        affected_nodes: Vec::new(),
        affected_edges: Vec::new(),
    };
    let land = Land {
        arch: d.arch,
        blockages,
        segments,
        segs_in_row,
        grid: d.grid,
        sites: d.sites,
        sym: d.sym,
        used_layers: d.used_layers,
        classes: d.classes,
        rails: d.rails,
        master_rails: d.master_rails,
        node_pins,
        edges,
        orig,
        max_disp,
        move_limit: MOVE_LIMIT,
        disallow_gaps: d.disallow_gaps,
        edge_faults: d.edge_faults,
    };
    proof {
        assert(live@ =~= fresh(land, d0.start().0, d0.start().1, d0.pads(), d0.pad_sites@));
        assert(land.wf()) by {
            assert forall|k: int| 0 <= k < lists(land.segs_in_row@).len() implies all_below(#[trigger] lists(land.segs_in_row@)[k], m as int) by {
                assert forall|j: int| 0 <= j < lists(land.segs_in_row@)[k].len() implies #[trigger] lists(land.segs_in_row@)[k][j] < m by {
                    assert(land.segs_in_row@[k]@[j] < m);
                }
            }
            assert forall|k: int| 0 <= k < count implies small((#[trigger] land.orig@[k]).0 as int) && small(land.orig@[k].1 as int) by {
                assert(turns_in(d0.nodes@[k]));
            }
        }
        assert(land.ok(live@)) by {
            let s = live@;
            assert forall|k: int| 0 <= k < count implies crate::land::node_in(#[trigger] s.nodes[k]) by {
                assert(turns_in(s.nodes[k]));
            }
            assert forall|k: int| 0 <= k < count implies crate::land::pad_in(#[trigger] s.pad_sites[k]) by {
                assert(pad_ok(d0.pad_sites@[k], d0.grid.site_width as int));
            }
            assert(lists_below(lists(land.edges@), s.pins.len() as int));
        }
    }
    (land, live, fixed, single, multi)
}

/// What is said of the cells that are put into segments, from their sums.
fn snap_lines(sums: &Vec<(i64, i64, usize)>, single: &Vec<usize>, multi: &Vec<Vec<usize>>, Ghost(d): Ghost<SetupInput>, Ghost(l): Ghost<Land>) -> (r: Vec<String>)
    requires
        single@ == high_upto(d.arch, d.start().0, 1, d.nodes@.len() as int),
        lists(multi@) == by_height(d.arch, d.start().0, d.nodes@.len() as int),
        sums@.len() == d.moving().len() + 1,
        forall|k: int| 0 <= k <= d.moving().len() ==> is_sum(#[trigger] sums@[k], l.snap_sum(d.begun(l), d.moving(), k)),
        forall|j: int, k: int| 0 <= j <= k <= d.moving().len() ==> 0 <= (#[trigger] sums@[j]).0 <= (#[trigger] sums@[k]).0
            && 0 <= sums@[j].1 <= sums@[k].1 && sums@[j].2 <= sums@[k].2,
    ensures
        texts(r@) == d.snap_said(l, multi@.len() as int),
{
    let ghost lm = lists(multi@);
    let mut r: Vec<String> = Vec::new();
    let mut at: usize = single.len();
    proof {
        lemma_joined_grows(single@, lm, 2, multi@.len() as int);
        assert(d.moving() == joined(single@, lm, multi@.len() as int));
    }
    if at > 0 {
        r.push(stretch_line(sums, 0, at));
    }
    assert(texts(r@) =~= d.snap_said(l, 2));
    let mut k: usize = 2;
    while k < multi.len()
        invariant
            2 <= k,
            k <= multi@.len() || k == 2,
            lm == lists(multi@),
            single@ == high_upto(d.arch, d.start().0, 1, d.nodes@.len() as int),
            lm == by_height(d.arch, d.start().0, d.nodes@.len() as int),
            d.moving() == joined(single@, lm, multi@.len() as int),
            sums@.len() == d.moving().len() + 1,
            forall|j: int| 0 <= j <= d.moving().len() ==> is_sum(#[trigger] sums@[j], l.snap_sum(d.begun(l), d.moving(), j)),
            forall|i: int, j: int| 0 <= i <= j <= d.moving().len() ==> 0 <= (#[trigger] sums@[i]).0 <= (#[trigger] sums@[j]).0
                && 0 <= sums@[i].1 <= sums@[j].1 && sums@[i].2 <= sums@[j].2,
            at == joined(single@, lm, k as int).len(),
            texts(r@) == d.snap_said(l, k as int),
        decreases multi@.len() - k,
    {
        let n: usize = multi[k].len();
        assert(lm[k as int].len() == n);
        proof {
            lemma_joined_grows(single@, lm, k + 1, multi@.len() as int);
            assert(joined(single@, lm, k + 1).len() == at + n);
            assert(at + n < sums.len());
        }
        if n > 0 {
            let ghost r0 = r@;
            let s = stretch_line(sums, at, at + n);
            r.push(s);
            assert(texts(r@) =~= texts(r0).push(s@));
        }
        at = at + n;
        k = k + 1;
    }
    r
}

/// What is said of a stretch of cells, from their sums.
fn stretch_line(sums: &Vec<(i64, i64, usize)>, from: usize, to: usize) -> (r: String)
    requires
        from < sums@.len(),
        to < sums@.len(),
        0 <= sums@[from as int].0 <= sums@[to as int].0,
        0 <= sums@[from as int].1 <= sums@[to as int].1,
        sums@[from as int].2 <= sums@[to as int].2,
    ensures
        r@ == snap_text(sums@[to as int].2 - sums@[from as int].2, sums@[to as int].0 - sums@[from as int].0, sums@[to as int].1 - sums@[from as int].1),
{
    let (p, q) = (sums[from], sums[to]);
    snap_line(q.2 - p.2, q.0 - p.0, q.1 - p.1)
}

proof fn lemma_joined_grows(first: Seq<usize>, v: Seq<Seq<usize>>, i: int, n: int)
    ensures
        i <= n ==> joined(first, v, i).len() <= joined(first, v, n).len(),
        first.len() <= joined(first, v, n).len(),
    decreases n,
{
    if n > 2 {
        lemma_joined_grows(first, v, i, n - 1);
    }
}

/// All that is said.
fn all_lines(seed: u32, max_disp: (i32, i32), land: &Land, fixed: usize, single: &Vec<usize>, multi: &Vec<Vec<usize>>, sums: &Vec<(i64, i64, usize)>, checks: &Checks, Ghost(d): Ghost<SetupInput>) -> (r: Vec<String>)
    requires
        land.arch == d.arch,
        land.grid == d.grid,
        single@ == high_upto(d.arch, d.start().0, 1, d.nodes@.len() as int),
        lists(multi@) == by_height(d.arch, d.start().0, d.nodes@.len() as int),
        sums@.len() == d.moving().len() + 1,
        forall|k: int| 0 <= k <= d.moving().len() ==> is_sum(#[trigger] sums@[k], land.snap_sum(d.begun(*land), d.moving(), k)),
        forall|j: int, k: int| 0 <= j <= k <= d.moving().len() ==> 0 <= (#[trigger] sums@[j]).0 <= (#[trigger] sums@[k]).0
            && 0 <= sums@[j].1 <= sums@[k].1 && sums@[j].2 <= sums@[k].2,
    ensures
        texts(r@) == d.said(seed, max_disp, *land, fixed as int, single@.len() as int, lists(multi@), *checks),
{
    let mut log: Vec<String> = Vec::new();
    log.push(seed_line(seed));
    log.push(displacement_line(max_disp, land.max_disp));
    log.push(fixed_line(fixed));
    log.push(single_line(single.len()));
    let ghost t1 = texts(log@);
    let mut high = multi_lines(multi);
    let ghost t2 = texts(high@);
    log.append(&mut high);
    let ghost t3 = texts(log@);
    assert(t3 =~= t1 + t2);
    log.push(wide_line(0));
    let ar = &land.arch;
    let core = land.grid.core;
    log.push(image_line(
        (ar.min_x as i64 + core.0 as i64, ar.min_y as i64 + core.1 as i64),
        (ar.max_x as i64 + core.0 as i64, ar.max_y as i64 + core.1 as i64),
    ));
    let ghost t4 = texts(log@);
    let mut snaps = snap_lines(sums, single, multi, Ghost(d), Ghost(*land));
    let ghost t5 = texts(snaps@);
    log.append(&mut snaps);
    assert(texts(log@) =~= t4 + t5);
    let mut found = checks.lines();
    let ghost t6 = texts(found@);
    log.append(&mut found);
    proof {
        let (a, co) = (d.arch, d.grid.core);
        let s1 = seq![
            seed_text(seed as int),
            displacement_text((max_disp.0 as int, max_disp.1 as int), (land.max_disp.0 as int, land.max_disp.1 as int)),
            fixed_text(fixed as int),
            single_text(single@.len() as int),
        ];
        let s2 = seq![wide_text(0), image_text((a.min_x + co.0, a.min_y + co.1), (a.max_x + co.0, a.max_y + co.1))];
        assert(t1 =~= s1);
        assert(t4 =~= t1 + t2 + s2);
        assert(texts(log@) =~= t4 + t5 + t6);
    }
    log
}

/// From a network to a state that can be improved, with a seed and with how far cells may get, in heights of
/// the lowest row (0 for no bound of its own): the fixed cells take their squares, the others are put
/// into segments, their overlaps are removed, and what is wrong then is counted.
pub fn setup_with(d: SetupInput, seed: u32, max_disp: (i32, i32)) -> (r: Result<Setup, SetupError>)
    requires
        d.wf(),
        d.arch.rows@.len() > 0 ==> -4 * COORD_LIMIT <= max_disp.0 * d.arch.rows@[0].height <= i32::MAX
            && -4 * COORD_LIMIT <= max_disp.1 * d.arch.rows@[0].height <= i32::MAX,
    ensures
        r == Err::<Setup, SetupError>(SetupError::NoRows) <==> d.arch.rows@.len() == 0,
        r matches Ok(s) ==> d.is_setup(seed, max_disp, s) && s.land.wf() && s.land.fits(s.live@) && s.rng@.wf(),
        r == Err::<Setup, SetupError>(SetupError::TooLarge) ==> exists|l: Land| #[trigger] d.is_land(max_disp, l) && d.overfills(l),
        r == Err::<Setup, SetupError>(SetupError::OutOfReach) ==> exists|l: Land| #[trigger] d.is_land(max_disp, l) && d.overruns(l),
{
    if d.arch.rows.len() == 0 {
        return Err(SetupError::NoRows);
    }
    let ghost d0 = d;
    let (land, mut live, fixed, single, multi) = build(d, max_disp);
    if land.segments.len() > (8 * COORD_LIMIT as usize - land.sites.len()) / 2 {
        assert(d0.is_land(max_disp, land) && d0.overfills(land));
        return Err(SetupError::TooLarge);
    }
    live.paint_fixed(&land);
    let ghost a = live@;
    let moving = movers(&single, &multi);
    proof {
        let (nodes, n) = (d0.start().0, d0.nodes@.len() as int);
        assert(lists(multi@).len() == multi@.len());
        lemma_joined(d0.arch, nodes, n, by_height(d0.arch, nodes, n).len() as int);
        assert(moving@ == d0.moving());
        lemma_few(moving@, n);
    }
    let was = places(&live.nodes);
    let sums = live.snap(&land, &moving);
    let (mx, my, _count) = sums[moving.len()];
    let ghost b = live@;
    let snapped_some: bool = live.any_moved(&land, &was, Ghost(a));
    let inside = housed_of(&live, &land, &moving);
    proof {
        lemma_housed(b, moving@, moving@.len() as int, land.count());
    }
    let shifted: bool = match live.shift(&land, &inside) {
        Some(moved) => moved,
        None => {
            assert(d0.is_land(max_disp, land) && d0.overruns(land));
            return Err(SetupError::OutOfReach);
        },
    };
    if !live.few_seated(&land) {
        assert(d0.came_to(land, live@));
        assert(d0.is_land(max_disp, land) && d0.overfills(land));
        return Err(SetupError::TooLarge);
    }
    let checks = live.run_checks(&land);
    let rng = Mt19937::new(seed);
    let log = all_lines(seed, max_disp, &land, fixed.len(), &single, &multi, &sums, &checks, Ghost(d0));
    Ok(Setup {
        land,
        live,
        fixed,
        single,
        multi,
        wide: Vec::new(),
        checks,
        movement: (mx, my),
        displaced: snapped_some || shifted,
        log,
        rng,
    })
}

impl SetupInput {
    /// The cells come to the state `t` when they are put into segments and their overlaps removed.
    pub open spec fn came_to(&self, l: Land, t: St) -> bool {
        let m = self.moving();
        let b = l.snapped(self.begun(l), m, m.len() as int);
        l.is_shifted(b, housed(b, m, m.len() as int), t)
    }

    /// There are more segments, or cells in them, than can be counted.
    pub open spec fn overfills(&self, l: Land) -> bool {
        !l.settles() || exists|t: St| #[trigger] self.came_to(l, t) && 2 * seated(t, l.segments@.len() as int) > usize::MAX
    }

    /// A cell comes to lie further out than coordinates go when overlaps are removed.
    pub open spec fn overruns(&self, l: Land) -> bool {
        let m = self.moving();
        let b = l.snapped(self.begun(l), m, m.len() as int);
        l.settles() && l.overrun(b, housed(b, m, m.len() as int))
    }
}

/// From a network to a state that can be improved, with the first seed and no bound of its own on how
/// far cells may get.
pub fn setup(d: SetupInput) -> (r: Result<Setup, SetupError>)
    requires
        d.wf(),
    ensures
        r == Err::<Setup, SetupError>(SetupError::NoRows) <==> d.arch.rows@.len() == 0,
        r matches Ok(s) ==> d.is_setup(1, (0, 0), s) && s.land.wf() && s.land.fits(s.live@) && s.rng@.wf(),
        r == Err::<Setup, SetupError>(SetupError::TooLarge) ==> exists|l: Land| #[trigger] d.is_land((0, 0), l) && d.overfills(l),
        r == Err::<Setup, SetupError>(SetupError::OutOfReach) ==> exists|l: Land| #[trigger] d.is_land((0, 0), l) && d.overruns(l),
{
    assert(0 * d.arch.rows@[0].height == 0) by (nonlinear_arith);
    setup_with(d, 1, (0, 0))
}

} // verus!
