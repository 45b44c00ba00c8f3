//! What the passes of improvement measure and aim at: the extents of nets, the nets of cells, and the middle of a cell's nets.

use vstd::prelude::*;
use crate::flips::{twice_span, twice_x, twice_x_flipped};
use crate::land::{Land, St};
use crate::length_laws::{is_weighed, pin_x, pin_y};
use crate::moves::aligned;
use crate::reorder::pin_span;
use crate::rows::Row;
use crate::sort::{in_order, Natural, Order, Ranked};
use crate::swap_passes::{box_without, drawn_in, in_rows, mid_place};

verus! {

// ── extents ──────────────────────────────────────────────────────────────────────────────────

/// The X of a pin: the centre of its node, moved by its offset.
pub open spec fn x_of(s: St, p: usize) -> int {
    pin_x(s.nodes[s.pins[p as int].node as int], s.pins[p as int])
}

/// The Y of a pin: the middle of its node, moved by its offset.
pub open spec fn y_of(s: St, p: usize) -> int {
    pin_y(s.nodes[s.pins[p as int].node as int], s.pins[p as int])
}

/// The span of the first `n` pins of a list goes from the leftmost of them to the rightmost: it holds each, and has one
/// on both ends.
pub proof fn law_a_net_spans_all_its_pins(s: St, list: Seq<usize>, n: int)
    requires
        1 <= n <= list.len(),
    ensures
        forall|k: int| 0 <= k < n ==> pin_span(s, list, n).0 <= x_of(s, #[trigger] list[k]) <= pin_span(s, list, n).1,
        exists|k: int| 0 <= k < n && x_of(s, #[trigger] list[k]) == pin_span(s, list, n).0,
        exists|k: int| 0 <= k < n && x_of(s, #[trigger] list[k]) == pin_span(s, list, n).1,
    decreases n,
{
    let x = x_of(s, list[n - 1]);
    assert(x == crate::objective::pin_at(s, list[n - 1]).0);
    if n > 1 {
        law_a_net_spans_all_its_pins(s, list, n - 1);
        let b = pin_span(s, list, n - 1);
        let i = choose|k: int| 0 <= k < n - 1 && x_of(s, #[trigger] list[k]) == b.0;
        let j = choose|k: int| 0 <= k < n - 1 && x_of(s, #[trigger] list[k]) == b.1;
        assert(x_of(s, list[i]) == b.0 && x_of(s, list[j]) == b.1);
    }
}

/// Twice the X of a pin with a node flipped or not.
pub open spec fn twice_of(s: St, p: usize, nd: usize, flip: bool) -> int {
    let q = s.pins[p as int];
    let n = s.nodes[q.node as int];
    if flip && q.node == nd { 2 * n.left + n.width - 2 * q.ox } else { 2 * n.left + n.width + 2 * q.ox }
}

/// Flipping a node mirrors its own pins about the middle of its width, and leaves all others.
pub proof fn law_a_flip_mirrors_the_pins(s: St, p: usize, nd: usize)
    ensures
        s.pins[p as int].node == nd ==> twice_x_flipped(s, p, nd) + twice_x(s, p) == 2 * (2 * s.nodes[nd as int].left + s.nodes[nd as int].width),
        s.pins[p as int].node != nd ==> twice_x_flipped(s, p, nd) == twice_x(s, p),
        twice_x(s, p) - 2 * x_of(s, p) == s.nodes[s.pins[p as int].node as int].width % 2,
{
}

/// Twice the span of the first `n` pins of a list, a node flipped or not, holds each of them, and has one on both ends.
pub proof fn law_a_flipped_net_spans_all_its_pins(s: St, list: Seq<usize>, nd: usize, flip: bool, n: int)
    requires
        1 <= n <= list.len(),
    ensures
        forall|k: int| 0 <= k < n ==> twice_span(s, list, nd, flip, n).0 <= twice_of(s, #[trigger] list[k], nd, flip) <= twice_span(s, list, nd, flip, n).1,
        exists|k: int| 0 <= k < n && twice_of(s, #[trigger] list[k], nd, flip) == twice_span(s, list, nd, flip, n).0,
        exists|k: int| 0 <= k < n && twice_of(s, #[trigger] list[k], nd, flip) == twice_span(s, list, nd, flip, n).1,
    decreases n,
{
    let x = twice_of(s, list[n - 1], nd, flip);
    if n > 1 {
        law_a_flipped_net_spans_all_its_pins(s, list, nd, flip, n - 1);
        let b = twice_span(s, list, nd, flip, n - 1);
        let i = choose|k: int| 0 <= k < n - 1 && twice_of(s, #[trigger] list[k], nd, flip) == b.0;
        let j = choose|k: int| 0 <= k < n - 1 && twice_of(s, #[trigger] list[k], nd, flip) == b.1;
        assert(twice_of(s, list[i], nd, flip) == b.0 && twice_of(s, list[j], nd, flip) == b.1);
    }
}

/// The extents of nets add up: those of one more net are its own more.
pub proof fn law_extents_add_up(l: Land, s: St, nets: Seq<usize>, nd: usize, flip: bool, n: int)
    requires
        1 <= n <= nets.len(),
    ensures
        ({
            let list = l.edges@[nets[n - 1] as int]@;
            let (a, b) = (pin_span(s, list, list.len() as int), twice_span(s, list, nd, flip, list.len() as int));
            &&& l.extent(s, nets, n) - l.extent(s, nets, n - 1) == a.1 - a.0
            &&& l.twice_extent(s, nets, nd, flip, n) - l.twice_extent(s, nets, nd, flip, n - 1) == b.1 - b.0
            &&& l.extent(s, nets, 0) == 0 && l.twice_extent(s, nets, nd, flip, 0) == 0
        }),
{
}

// ── the nets of cells ────────────────────────────────────────────────────────────────────────

/// Whether one of a node's first `n` pins is on a net that is weighed.
pub open spec fn is_on(l: Land, s: St, nd: usize, n: int, e: usize) -> bool {
    is_weighed(l, e as int) && exists|k: int| 0 <= k < n && s.pins[(#[trigger] l.node_pins@[nd as int]@[k]) as int].edge == e
}

proof fn lemma_own_nets(l: Land, s: St, nets: Seq<usize>, nd: usize, n: int)
    requires
        nets.no_duplicates(),
    ensures
        l.with_own_nets(s, nets, nd, n).no_duplicates(),
        forall|e: usize| #[trigger] l.with_own_nets(s, nets, nd, n).contains(e) <==> nets.contains(e) || is_on(l, s, nd, n, e),
    decreases n,
{
    if n > 0 {
        lemma_own_nets(l, s, nets, nd, n - 1);
        let v = l.with_own_nets(s, nets, nd, n - 1);
        let t = l.with_own_nets(s, nets, nd, n);
        let f = s.pins[l.node_pins@[nd as int]@[n - 1] as int].edge;
        assert(l.net_counts(f as int) <==> is_weighed(l, f as int));
        assert forall|e: usize| #[trigger] t.contains(e) <==> nets.contains(e) || is_on(l, s, nd, n, e) by {
            assert(v.contains(e) <==> nets.contains(e) || is_on(l, s, nd, n - 1, e));
            if t.len() > v.len() {
                assert(t == v.push(f));
                assert(t[t.len() - 1] == f);
                if v.contains(e) {
                    let i = choose|i: int| 0 <= i < v.len() && v[i] == e;
                    assert(t[i] == e);
                }
                if t.contains(e) {
                    let i = choose|i: int| 0 <= i < t.len() && t[i] == e;
                    if i < v.len() {
                        assert(v[i] == e);
                    }
                }
            }
            if is_on(l, s, nd, n, e) {
                let k = choose|k: int| 0 <= k < n && s.pins[(#[trigger] l.node_pins@[nd as int]@[k]) as int].edge == e;
                if k < n - 1 {
                    assert(is_on(l, s, nd, n - 1, e));
                }
            }
            if is_on(l, s, nd, n - 1, e) {
                let k = choose|k: int| 0 <= k < n - 1 && s.pins[(#[trigger] l.node_pins@[nd as int]@[k]) as int].edge == e;
                assert(is_on(l, s, nd, n, e));
            }
        }
    }
}

/// The nets of some cells are those that a pin of one of them is on, with at least two pins and not too many, each once.
pub proof fn law_nets_of_cells(l: Land, s: St, cells: Seq<usize>, n: int)
    requires
        0 <= n <= cells.len(),
    ensures
        l.nets_of_all(s, cells, n).no_duplicates(),
        forall|e: usize| #[trigger] l.nets_of_all(s, cells, n).contains(e)
            <==> exists|k: int| 0 <= k < n && is_on(l, s, #[trigger] cells[k], l.node_pins@[cells[k] as int]@.len() as int, e),
    decreases n,
{
    if n > 0 {
        law_nets_of_cells(l, s, cells, n - 1);
        let v = l.nets_of_all(s, cells, n - 1);
        let m = l.node_pins@[cells[n - 1] as int]@.len() as int;
        lemma_own_nets(l, s, v, cells[n - 1], m);
        assert forall|e: usize| #[trigger] l.nets_of_all(s, cells, n).contains(e)
            <==> exists|k: int| 0 <= k < n && is_on(l, s, #[trigger] cells[k], l.node_pins@[cells[k] as int]@.len() as int, e) by {
            assert(v.contains(e) <==> exists|k: int| 0 <= k < n - 1 && is_on(l, s, #[trigger] cells[k], l.node_pins@[cells[k] as int]@.len() as int, e));
            if exists|k: int| 0 <= k < n && is_on(l, s, #[trigger] cells[k], l.node_pins@[cells[k] as int]@.len() as int, e) {
                let k = choose|k: int| 0 <= k < n && is_on(l, s, #[trigger] cells[k], l.node_pins@[cells[k] as int]@.len() as int, e);
                if k < n - 1 {
                    assert(v.contains(e));
                }
            }
            if is_on(l, s, cells[n - 1], m, e) {
                assert(cells[n - 1] == cells[n - 1]);
            }
        }
    }
}

/// The nets that a flip of a node is weighed by are those that a pin of the node is on, each once.
pub proof fn law_nets_of_a_node(l: Land, s: St, nd: usize, n: int)
    requires
        0 <= n <= l.node_pins@[nd as int]@.len(),
    ensures
        l.nets_once(s, nd, n).no_duplicates(),
        forall|e: usize| #[trigger] l.nets_once(s, nd, n).contains(e) <==> is_on(l, s, nd, n, e),
{
    lemma_own_nets(l, s, Seq::empty(), nd, n);
    lemma_same_nets(l, s, nd, n);
}

proof fn lemma_same_nets(l: Land, s: St, nd: usize, n: int)
    ensures
        l.nets_once(s, nd, n) == l.with_own_nets(s, Seq::empty(), nd, n),
    decreases n,
{
    if n > 0 {
        lemma_same_nets(l, s, nd, n - 1);
    }
}

// ── the middle of a cell's nets ──────────────────────────────────────────────────────────────

/// Whether the `k`th pin of a list is on another node.
pub open spec fn elsewhere(s: St, list: Seq<usize>, nd: usize, k: int) -> bool {
    s.pins[list[k] as int].node != nd
}

/// The box of a net without a node's pins holds every pin of another node and has one of them on each side; there is
/// none just where all pins are the node's.
pub proof fn law_the_box_of_the_other_pins(s: St, list: Seq<usize>, nd: usize, n: int)
    requires
        0 <= n <= list.len(),
    ensures
        box_without(s, list, nd, n) is None <==> forall|k: int| 0 <= k < n ==> !#[trigger] elsewhere(s, list, nd, k),
        box_without(s, list, nd, n) matches Some(b) ==> {
            &&& forall|k: int| 0 <= k < n && #[trigger] elsewhere(s, list, nd, k) ==> b.0 <= x_of(s, list[k]) <= b.1 && b.2 <= y_of(s, list[k]) <= b.3
            &&& exists|k: int| 0 <= k < n && #[trigger] elsewhere(s, list, nd, k) && x_of(s, list[k]) == b.0
            &&& exists|k: int| 0 <= k < n && #[trigger] elsewhere(s, list, nd, k) && x_of(s, list[k]) == b.1
            &&& exists|k: int| 0 <= k < n && #[trigger] elsewhere(s, list, nd, k) && y_of(s, list[k]) == b.2
            &&& exists|k: int| 0 <= k < n && #[trigger] elsewhere(s, list, nd, k) && y_of(s, list[k]) == b.3
        },
    decreases n,
{
    if n > 0 {
        law_the_box_of_the_other_pins(s, list, nd, n - 1);
        let (x, y) = (x_of(s, list[n - 1]), y_of(s, list[n - 1]));
        assert((x, y) == crate::objective::pin_at(s, list[n - 1]));
        let last = elsewhere(s, list, nd, n - 1);
        match box_without(s, list, nd, n - 1) {
            None => {},
            Some(b) => {
                let i = choose|k: int| 0 <= k < n - 1 && #[trigger] elsewhere(s, list, nd, k) && x_of(s, list[k]) == b.0;
                let j = choose|k: int| 0 <= k < n - 1 && #[trigger] elsewhere(s, list, nd, k) && x_of(s, list[k]) == b.1;
                let u = choose|k: int| 0 <= k < n - 1 && #[trigger] elsewhere(s, list, nd, k) && y_of(s, list[k]) == b.2;
                let v = choose|k: int| 0 <= k < n - 1 && #[trigger] elsewhere(s, list, nd, k) && y_of(s, list[k]) == b.3;
                assert(elsewhere(s, list, nd, i) && elsewhere(s, list, nd, j) && elsewhere(s, list, nd, u) && elsewhere(s, list, nd, v));
            },
        }
    }
}

proof fn lemma_rows(v: Seq<i32>)
    ensures
        in_order(in_rows(v)),
        in_rows(v).to_multiset() == v.to_multiset(),
        in_rows(v).len() == v.len(),
{
    let leq = |a: i32, b: i32| a.leq(b);
    i32::rank_laws();
    let s = v.sort_by(leq);
    v.lemma_sort_by_ensures(leq);
    assert forall|i: int, j: int| 0 <= i < j < s.len() implies <Natural as Order<i32>>::leq(&Natural, #[trigger] s[i], #[trigger] s[j]) by {
        assert(leq(s[i], s[j]));
    }
    assert(in_order(s));
    let t = in_rows(v);
    t.to_multiset_ensures();
    v.to_multiset_ensures();
}

proof fn lemma_as_many_wishes(l: Land, s: St, nd: usize, n: int)
    ensures
        l.wished_x(s, nd, n).len() == l.wished_y(s, nd, n).len(),
    decreases n,
{
    if n > 0 {
        lemma_as_many_wishes(l, s, nd, n - 1);
    }
}

/// The median box has half of the wished places on or left of its left side and the other half on or right of its right
/// side; and half on or below, and half on or above it.
pub proof fn law_the_median_box_halves_the_wishes(l: Land, s: St, nd: usize)
    requires
        l.median_box(s, nd) is Some,
    ensures
        ({
            let n = l.node_pins@[nd as int]@.len() as int;
            let b = l.median_box(s, nd)->Some_0;
            let (vx, vy) = (l.wished_x(s, nd, n), l.wished_y(s, nd, n));
            let m = vx.len() as int / 2;
            &&& exists|xs: Seq<i32>| #[trigger] xs.to_multiset() == vx.to_multiset() && xs.len() == vx.len() && xs[m - 1] == b.0 && xs[m] == b.2
                && (forall|i: int| 0 <= i < m ==> (#[trigger] xs[i]) <= b.0) && (forall|i: int| m <= i < xs.len() ==> b.2 <= #[trigger] xs[i])
            &&& exists|ys: Seq<i32>| #[trigger] ys.to_multiset() == vy.to_multiset() && ys.len() == vy.len() && ys[m - 1] == b.1 && ys[m] == b.3
                && (forall|i: int| 0 <= i < m ==> (#[trigger] ys[i]) <= b.1) && (forall|i: int| m <= i < ys.len() ==> b.3 <= #[trigger] ys[i])
        }),
{
    let n = l.node_pins@[nd as int]@.len() as int;
    let b = l.median_box(s, nd)->Some_0;
    let (vx, vy) = (l.wished_x(s, nd, n), l.wished_y(s, nd, n));
    lemma_rows(vx);
    lemma_rows(vy);
    lemma_as_many_wishes(l, s, nd, n);
    let (xs, ys) = (in_rows(vx), in_rows(vy));
    let m = vx.len() as int / 2;
    assert forall|i: int| 0 <= i < m implies (#[trigger] xs[i]) <= b.0 && (#[trigger] ys[i]) <= b.1 by {
        if i < m - 1 {
            assert(<Natural as Order<i32>>::leq(&Natural, xs[i], xs[m - 1]));
            assert(<Natural as Order<i32>>::leq(&Natural, ys[i], ys[m - 1]));
        }
    }
    assert forall|i: int| m <= i < xs.len() implies b.2 <= (#[trigger] xs[i]) && b.3 <= (#[trigger] ys[i]) by {
        if i > m {
            assert(<Natural as Order<i32>>::leq(&Natural, xs[m], xs[i]));
            assert(<Natural as Order<i32>>::leq(&Natural, ys[m], ys[i]));
        }
    }
}

/// A number kept between two others is the nearest to it of those between them.
pub open spec fn kept_between(lo: int, hi: int, v: int, r: int) -> bool {
    lo <= r <= hi && (v < lo ==> r == lo) && (v > hi ==> r == hi) && (lo <= v <= hi ==> r == v)
}

/// Each pin of a node whose net has two to a hundred pins, some of other nodes, wishes for two places: where the pin would
/// be on the near and on the far side of the box of the others, kept in the core. No other pin does.
pub proof fn law_each_pin_has_two_wishes(l: Land, s: St, nd: usize, n: int)
    requires
        1 <= n <= l.node_pins@[nd as int]@.len(),
        l.arch.min_x <= l.arch.max_x,
        l.arch.min_y <= l.arch.max_y,
    ensures
        ({
            let p = l.node_pins@[nd as int]@[n - 1];
            let q = s.pins[p as int];
            let list = l.edges@[q.edge as int]@;
            let (v, w) = (l.wished_x(s, nd, n), l.wished_x(s, nd, n - 1));
            let (a, c) = (l.wished_y(s, nd, n), l.wished_y(s, nd, n - 1));
            let b = box_without(s, list, nd, list.len() as int);
            if 2 <= list.len() <= 100 && b is Some {
                &&& v.len() == w.len() + 2 && v.subrange(0, w.len() as int) == w
                &&& a.len() == c.len() + 2 && a.subrange(0, c.len() as int) == c
                &&& kept_between(l.arch.min_x as int, l.arch.max_x as int, b->Some_0.0 - q.ox, v[w.len() as int] as int)
                &&& kept_between(l.arch.min_x as int, l.arch.max_x as int, b->Some_0.1 - q.ox, v[w.len() as int + 1] as int)
                &&& kept_between(l.arch.min_y as int, l.arch.max_y as int, b->Some_0.2 - q.oy, a[c.len() as int] as int)
                &&& kept_between(l.arch.min_y as int, l.arch.max_y as int, b->Some_0.3 - q.oy, a[c.len() as int + 1] as int)
            } else {
                v == w && a == c
            }
        }),
{
    let (v, w) = (l.wished_x(s, nd, n), l.wished_x(s, nd, n - 1));
    let (a, c) = (l.wished_y(s, nd, n), l.wished_y(s, nd, n - 1));
    if v.len() > w.len() {
        assert(v.subrange(0, w.len() as int) =~= w);
    }
    if a.len() > c.len() {
        assert(a.subrange(0, c.len() as int) =~= c);
    }
}

// ── places ───────────────────────────────────────────────────────────────────────────────────

/// A span drawn in to a reach goes no further from a place than the reach, where the place's reach and the span are in
/// order; and where the reach gets to the span it stays in it.
pub proof fn law_drawn_in_stays_in_reach(lo: int, hi: int, at: int, reach: int)
    requires
        lo <= hi,
        reach >= 0,
    ensures
        ({
            let r = drawn_in(lo, hi, at, reach);
            &&& r.0 <= r.1
            &&& at - reach <= r.0 && r.1 <= at + reach
            &&& at + reach > lo && at - reach < hi ==> lo <= r.0 && r.1 <= hi
            &&& at + reach <= lo ==> r.1 == at + reach
            &&& at - reach >= hi ==> r.0 == at - reach
        }),
{
}

/// A place in the middle of a span leaves as much of it on one side as on the other, but for one.
pub proof fn law_the_middle_is_in_the_middle(lo: int, hi: int, size: int)
    ensures
        ({
            let p = mid_place(lo, hi, size);
            0 <= (hi - (p + size)) - (p - lo) <= 1
        }),
{
}

/// The first segment over a place is over it, and none before it in the row's list is; there is none where none is.
pub proof fn law_the_first_segment_over_a_place(l: Land, row: int, x: int, k: int)
    requires
        0 <= k <= l.segs_in_row@[row]@.len(),
    ensures
        ({
            let v = l.segs_in_row@[row]@;
            match l.seg_holding(row, x, k) {
                Some(g) => exists|i: int| k <= i < v.len() && #[trigger] v[i] == g && l.segments@[g as int].min_x <= x <= l.segments@[g as int].max_x
                    && forall|j: int| k <= j < i ==> !(l.segments@[(#[trigger] v[j]) as int].min_x <= x <= l.segments@[v[j] as int].max_x),
                None => forall|j: int| k <= j < v.len() ==> !(l.segments@[(#[trigger] v[j]) as int].min_x <= x <= l.segments@[v[j] as int].max_x),
            }
        }),
    decreases l.segs_in_row@[row]@.len() - k,
{
    let v = l.segs_in_row@[row]@;
    if k < v.len() {
        if l.segments@[v[k] as int].min_x <= x <= l.segments@[v[k] as int].max_x {
            assert(v[k] == v[k]);
        } else {
            law_the_first_segment_over_a_place(l, row, x, k + 1);
            if l.seg_holding(row, x, k + 1) is Some {
                let g = l.seg_holding(row, x, k + 1)->Some_0;
                let i = choose|i: int| k + 1 <= i < v.len() && #[trigger] v[i] == g && l.segments@[g as int].min_x <= x <= l.segments@[g as int].max_x
                    && forall|j: int| k + 1 <= j < i ==> !(l.segments@[(#[trigger] v[j]) as int].min_x <= x <= l.segments@[v[j] as int].max_x);
                assert(v[i] == g);
            }
        }
    }
}

/// An aligned place lies on a site of the row.
pub proof fn law_aligned_places_lie_on_sites(row: Row, width: int, xi: int, xl: int, xr: int)
    requires
        row.site_spacing > 0,
    ensures
        aligned(row, width, xi, xl, xr) matches Some(x) ==> (x - row.left) % (row.site_spacing as int) == 0,
{
    let p = row.site_spacing as int;
    let c = crate::arith::imax(xl, crate::arith::imin(xr - width, xi));
    let q = crate::arith::trunc_quot(c - row.left, p);
    assert((q + 1) * p == q * p + p && (q - 1) * p == q * p - p) by (nonlinear_arith);
    vstd::arithmetic::div_mod::lemma_fundamental_div_mod_converse(q * p, p, q, 0);
    vstd::arithmetic::div_mod::lemma_fundamental_div_mod_converse((q + 1) * p, p, q + 1, 0);
    vstd::arithmetic::div_mod::lemma_fundamental_div_mod_converse((q - 1) * p, p, q - 1, 0);
}

} // verus!
