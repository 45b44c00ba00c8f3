//! What the counts of the checks are: the sizes of the sets of what is wrong.

use vstd::prelude::*;
use crate::arith::{imax, imin, trunc_quot};
use crate::checks::{by_center, by_edge, movable, one_if, overlapping, sticking_out, strangers, Checks};
use crate::improve::{Kind, Node};
use crate::land::{Land, St};
use crate::sort::{is_stable_order, lemma_stable_order_unique, the_order};

verus! {

// ── counting ─────────────────────────────────────────────────────────────────────────────────

/// How many of the first `n` places of a list have a property.
spec fn in_list(p: spec_fn(int, int) -> bool, g: int, n: int) -> int
    decreases n,
{
    if n <= 0 { 0 } else { in_list(p, g, n - 1) + one_if(p(g, n - 1)) }
}

/// How many places of the first `n` lists have a property.
spec fn in_lists(p: spec_fn(int, int) -> bool, m: spec_fn(int) -> int, n: int) -> int
    decreases n,
{
    if n <= 0 { 0 } else { in_lists(p, m, n - 1) + in_list(p, n - 1, m(n - 1)) }
}

/// The places of the first `n` lists that have a property.
pub open spec fn places(p: spec_fn(int, int) -> bool, m: spec_fn(int) -> int, n: int) -> Set<(int, int)> {
    Set::new(|e: (int, int)| 0 <= e.0 < n && 0 <= e.1 < m(e.0) && p(e.0, e.1))
}

/// The numbers below `n` that have a property.
pub open spec fn those(p: spec_fn(int) -> bool, n: int) -> Set<int> {
    Set::new(|e: int| 0 <= e < n && p(e))
}

spec fn in_one(p: spec_fn(int, int) -> bool, g: int, n: int) -> Set<(int, int)> {
    Set::new(|e: (int, int)| e.0 == g && 0 <= e.1 < n && p(g, e.1))
}

proof fn lemma_in_one(p: spec_fn(int, int) -> bool, g: int, n: int)
    ensures
        in_one(p, g, n).finite(),
        in_one(p, g, n).len() == in_list(p, g, n),
    decreases n,
{
    if n <= 0 {
        assert(in_one(p, g, n) =~= Set::empty());
    } else {
        lemma_in_one(p, g, n - 1);
        if p(g, n - 1) {
            assert(in_one(p, g, n) =~= in_one(p, g, n - 1).insert((g, n - 1)));
        } else {
            assert(in_one(p, g, n) =~= in_one(p, g, n - 1));
        }
    }
}

proof fn lemma_places(p: spec_fn(int, int) -> bool, m: spec_fn(int) -> int, n: int)
    ensures
        places(p, m, n).finite(),
        places(p, m, n).len() == in_lists(p, m, n),
    decreases n,
{
    if n <= 0 {
        assert(places(p, m, n) =~= Set::empty());
    } else {
        lemma_places(p, m, n - 1);
        lemma_in_one(p, n - 1, m(n - 1));
        let (a, b) = (places(p, m, n - 1), in_one(p, n - 1, m(n - 1)));
        assert(places(p, m, n) =~= a + b);
        assert(a.disjoint(b));
        vstd::set_lib::lemma_set_disjoint_lens(a, b);
    }
}

/// How many of the first `n` numbers have a property.
spec fn tally(p: spec_fn(int) -> bool, n: int) -> int
    decreases n,
{
    if n <= 0 { 0 } else { tally(p, n - 1) + one_if(p(n - 1)) }
}

proof fn lemma_those(p: spec_fn(int) -> bool, n: int)
    ensures
        those(p, n).finite(),
        those(p, n).len() == tally(p, n),
    decreases n,
{
    if n <= 0 {
        assert(those(p, n) =~= Set::empty());
    } else {
        lemma_those(p, n - 1);
        if p(n - 1) {
            assert(those(p, n) =~= those(p, n - 1).insert(n - 1));
        } else {
            assert(those(p, n) =~= those(p, n - 1));
        }
    }
}

// ── orders ───────────────────────────────────────────────────────────────────────────────────

/// Every list of numbers has an order.
proof fn lemma_an_order(keys: Seq<i64>) -> (o: Seq<usize>)
    requires
        keys.len() <= usize::MAX,
    ensures
        is_stable_order(keys, o),
    decreases keys.len(),
{
    if keys.len() == 0 {
        Seq::empty()
    } else {
        let n = keys.len() - 1;
        let o = lemma_an_order(keys.drop_last());
        let p = lemma_split(keys, o, n);
        let r = o.insert(p, n as usize);
        assert forall|i: int| 0 <= i < r.len() implies #[trigger] r[i] < keys.len() by {
            if i < p {
                assert(r[i] == o[i]);
            } else if i > p {
                assert(r[i] == o[i - 1]);
            }
        }
        assert forall|i: int, j: int| 0 <= i < j < r.len() implies keys[#[trigger] r[i] as int] < keys[#[trigger] r[j] as int]
            || keys[r[i] as int] == keys[r[j] as int] && r[i] < r[j] by {
            let a = if i < p { o[i] } else if i == p { n as usize } else { o[i - 1] };
            let b = if j < p { o[j] } else if j == p { n as usize } else { o[j - 1] };
            assert(r[i] == a && r[j] == b);
        }
        r
    }
}

/// Where a number goes in an order.
proof fn lemma_split(keys: Seq<i64>, o: Seq<usize>, n: int) -> (p: int)
    requires
        0 <= n == keys.len() - 1,
        is_stable_order(keys.drop_last(), o),
    ensures
        0 <= p <= o.len(),
        forall|i: int| 0 <= i < p ==> keys[(#[trigger] o[i]) as int] <= keys[n],
        forall|i: int| p <= i < o.len() ==> keys[(#[trigger] o[i]) as int] > keys[n],
{
    lemma_split_upto(keys, o, n, o.len() as int)
}

proof fn lemma_split_upto(keys: Seq<i64>, o: Seq<usize>, n: int, m: int) -> (p: int)
    requires
        0 <= n == keys.len() - 1,
        is_stable_order(keys.drop_last(), o),
        0 <= m <= o.len(),
    ensures
        0 <= p <= m,
        forall|i: int| 0 <= i < p ==> keys[(#[trigger] o[i]) as int] <= keys[n],
        forall|i: int| p <= i < m ==> keys[(#[trigger] o[i]) as int] > keys[n],
    decreases m,
{
    if m == 0 {
        0
    } else if keys[o[m - 1] as int] <= keys[n] {
        assert forall|i: int| 0 <= i < m implies keys[(#[trigger] o[i]) as int] <= keys[n] by {
            if i < m - 1 {
                assert(o[i] < keys.drop_last().len() && o[m - 1] < keys.drop_last().len());
                assert(keys.drop_last()[o[i] as int] <= keys.drop_last()[o[m - 1] as int]);
            }
        }
        m
    } else {
        lemma_split_upto(keys, o, n, m - 1)
    }
}

/// `t` are the nodes of a list by rising number, equal ones in their order.
pub open spec fn is_by(keys: Seq<i64>, list: Seq<usize>, t: Seq<usize>) -> bool {
    exists|order: Seq<usize>| #[trigger] is_stable_order(keys, order) && t == Seq::new(order.len(), |k: int| list[order[k] as int])
}

proof fn lemma_is_by(keys: Seq<i64>, list: Seq<usize>, t: Seq<usize>)
    requires
        keys.len() <= usize::MAX,
        is_by(keys, list, t),
    ensures
        is_stable_order(keys, the_order(keys)),
        t == Seq::new(the_order(keys).len(), |k: int| list[the_order(keys)[k] as int]),
{
    let order = choose|order: Seq<usize>| #[trigger] is_stable_order(keys, order) && t == Seq::new(order.len(), |k: int| list[order[k] as int]);
    lemma_stable_order_unique(keys, order, the_order(keys));
}

/// The middles of a list's nodes, their halves rounded down.
pub open spec fn middles(nodes: Seq<Node>, list: Seq<usize>) -> Seq<i64> {
    Seq::new(list.len(), |k: int| (nodes[list[k] as int].left + nodes[list[k] as int].width / 2) as i64)
}

/// The left edges of a list's nodes.
pub open spec fn left_edges(nodes: Seq<Node>, list: Seq<usize>) -> Seq<i64> {
    Seq::new(list.len(), |k: int| nodes[list[k] as int].left as i64)
}

/// `ts` are the lists of the segments by the middles of their nodes.
pub open spec fn by_middles(s: St, ts: Seq<Seq<usize>>) -> bool {
    &&& ts.len() == s.cells.len()
    &&& forall|g: int| 0 <= g < ts.len() ==> s.cells[g].len() <= usize::MAX && is_by(middles(s.nodes, s.cells[g]), s.cells[g], #[trigger] ts[g])
}

/// `ts` are the lists of the segments by the left edges of their nodes.
pub open spec fn by_left_edges(s: St, ts: Seq<Seq<usize>>) -> bool {
    &&& ts.len() == s.cells.len()
    &&& forall|g: int| 0 <= g < ts.len() ==> s.cells[g].len() <= usize::MAX && is_by(left_edges(s.nodes, s.cells[g]), s.cells[g], #[trigger] ts[g])
}

proof fn lemma_by_middles(s: St, ts: Seq<Seq<usize>>, g: int)
    requires
        by_middles(s, ts),
        0 <= g < ts.len(),
    ensures
        by_center(s.nodes, s.cells[g]) == ts[g],
        ts[g].len() == s.cells[g].len(),
{
    assert(is_by(middles(s.nodes, s.cells[g]), s.cells[g], ts[g]));
    assert(middles(s.nodes, s.cells[g]) =~= crate::checks::centers(s.nodes, s.cells[g]));
    lemma_is_by(middles(s.nodes, s.cells[g]), s.cells[g], ts[g]);
    assert(by_center(s.nodes, s.cells[g]) =~= ts[g]);
}

proof fn lemma_by_left_edges(s: St, ts: Seq<Seq<usize>>, g: int)
    requires
        by_left_edges(s, ts),
        0 <= g < ts.len(),
    ensures
        by_edge(s.nodes, s.cells[g]) == ts[g],
        ts[g].len() == s.cells[g].len(),
{
    assert(is_by(left_edges(s.nodes, s.cells[g]), s.cells[g], ts[g]));
    assert(left_edges(s.nodes, s.cells[g]) =~= crate::checks::edges(s.nodes, s.cells[g]));
    lemma_is_by(left_edges(s.nodes, s.cells[g]), s.cells[g], ts[g]);
    assert(by_edge(s.nodes, s.cells[g]) =~= ts[g]);
}

/// The lists of segments can be put in order by middles and by left edges.
pub proof fn law_lists_have_an_order(s: St) -> (r: (Seq<Seq<usize>>, Seq<Seq<usize>>))
    requires
        forall|g: int| 0 <= g < s.cells.len() ==> (#[trigger] s.cells[g]).len() <= usize::MAX,
    ensures
        by_middles(s, r.0),
        by_left_edges(s, r.1),
{
    let a = Seq::new(s.cells.len(), |g: int| by_center(s.nodes, s.cells[g]));
    let b = Seq::new(s.cells.len(), |g: int| by_edge(s.nodes, s.cells[g]));
    assert forall|g: int| 0 <= g < s.cells.len() implies is_by(middles(s.nodes, s.cells[g]), s.cells[g], #[trigger] a[g]) by {
        let keys = middles(s.nodes, s.cells[g]);
        let o = lemma_an_order(keys);
        assert(keys =~= crate::checks::centers(s.nodes, s.cells[g]));
        assert(is_stable_order(keys, the_order(keys)));
        assert(a[g] =~= Seq::new(the_order(keys).len(), |k: int| s.cells[g][the_order(keys)[k] as int]));
    }
    assert forall|g: int| 0 <= g < s.cells.len() implies is_by(left_edges(s.nodes, s.cells[g]), s.cells[g], #[trigger] b[g]) by {
        let keys = left_edges(s.nodes, s.cells[g]);
        let o = lemma_an_order(keys);
        assert(keys =~= crate::checks::edges(s.nodes, s.cells[g]));
        assert(is_stable_order(keys, the_order(keys)));
        assert(b[g] =~= Seq::new(the_order(keys).len(), |k: int| s.cells[g][the_order(keys)[k] as int]));
    }
    (a, b)
}

// ── cells in segments of another region ──────────────────────────────────────────────────────

/// Whether place `k` of segment `g` holds a node of another region.
pub open spec fn is_stranger(l: Land, s: St, g: int, k: int) -> bool {
    s.nodes[s.cells[g][k] as int].group != l.segments@[g].reg
}

proof fn lemma_strangers(l: Land, s: St, g: int, n: int)
    ensures
        strangers(s.nodes, s.cells[g], l.segments@[g].reg as int, n) == in_list(|g: int, k: int| is_stranger(l, s, g, k), g, n),
    decreases n,
{
    if n > 0 {
        lemma_strangers(l, s, g, n - 1);
    }
}

proof fn lemma_wrong_regions(l: Land, s: St, n: int)
    ensures
        l.wrong_regions(s, n) == in_lists(|g: int, k: int| is_stranger(l, s, g, k), |g: int| s.cells[g].len() as int, n),
    decreases n,
{
    if n > 0 {
        lemma_wrong_regions(l, s, n - 1);
        lemma_strangers(l, s, n - 1, s.cells[n - 1].len() as int);
    }
}

/// As many cells are counted in wrong regions as there are places of segments that hold a node whose group is not the
/// segment's.
pub proof fn law_strangers_are_counted(l: Land, s: St, c: Checks)
    requires
        l.counted(s, c),
    ensures
        c.wrong_region == places(|g: int, k: int| is_stranger(l, s, g, k), |g: int| s.cells[g].len() as int, l.segments@.len() as int).len(),
{
    lemma_wrong_regions(l, s, l.segments@.len() as int);
    lemma_places(|g: int, k: int| is_stranger(l, s, g, k), |g: int| s.cells[g].len() as int, l.segments@.len() as int);
}

// ── overlaps ─────────────────────────────────────────────────────────────────────────────────

/// Whether the node at place `k` of an ordered list begins before the one before it ends.
pub open spec fn runs_into(s: St, ts: Seq<Seq<usize>>, g: int, k: int) -> bool {
    k >= 1 && s.nodes[ts[g][k - 1] as int].left + s.nodes[ts[g][k - 1] as int].width > s.nodes[ts[g][k] as int].left
}

/// Whether the node at place `k` of a segment's list begins before the segment or ends after it.
pub open spec fn sticks_out(l: Land, s: St, ts: Seq<Seq<usize>>, g: int, k: int) -> bool {
    let n = s.nodes[ts[g][k] as int];
    n.left < l.segments@[g].min_x || n.left + n.width > l.segments@[g].max_x
}

proof fn lemma_overlapping(s: St, ts: Seq<Seq<usize>>, g: int, n: int)
    ensures
        overlapping(s.nodes, ts[g], n) == in_list(|g: int, k: int| runs_into(s, ts, g, k), g, n),
    decreases n,
{
    if n > 0 {
        lemma_overlapping(s, ts, g, n - 1);
        if n == 1 {
            assert(overlapping(s.nodes, ts[g], 0) == 0);
        }
    }
}

proof fn lemma_sticking_out(l: Land, s: St, ts: Seq<Seq<usize>>, g: int, n: int)
    ensures
        sticking_out(s.nodes, ts[g], l.segments@[g], n) == in_list(|g: int, k: int| sticks_out(l, s, ts, g, k), g, n),
    decreases n,
{
    if n > 0 {
        lemma_sticking_out(l, s, ts, g, n - 1);
    }
}

proof fn lemma_overlaps(l: Land, s: St, ts: Seq<Seq<usize>>, n: int)
    requires
        by_middles(s, ts),
        n <= ts.len(),
    ensures
        l.overlaps_upto(s, n) == in_lists(|g: int, k: int| runs_into(s, ts, g, k), |g: int| s.cells[g].len() as int, n)
            + in_lists(|g: int, k: int| sticks_out(l, s, ts, g, k), |g: int| s.cells[g].len() as int, n),
    decreases n,
{
    if n > 0 {
        lemma_overlaps(l, s, ts, n - 1);
        lemma_by_middles(s, ts, n - 1);
        lemma_overlapping(s, ts, n - 1, ts[n - 1].len() as int);
        lemma_sticking_out(l, s, ts, n - 1, ts[n - 1].len() as int);
    }
}

/// As many overlaps are counted as there are nodes of segments that begin before the node before them ends, and nodes
/// that stick out of their segment.
pub proof fn law_overlaps_are_counted(l: Land, s: St, c: Checks, ts: Seq<Seq<usize>>)
    requires
        l.counted(s, c),
        by_middles(s, ts),
        s.cells.len() == l.segments@.len(),
    ensures
        c.overlaps == places(|g: int, k: int| runs_into(s, ts, g, k), |g: int| s.cells[g].len() as int, s.cells.len() as int).len()
            + places(|g: int, k: int| sticks_out(l, s, ts, g, k), |g: int| s.cells[g].len() as int, s.cells.len() as int).len(),
{
    lemma_overlaps(l, s, ts, s.cells.len() as int);
    lemma_places(|g: int, k: int| runs_into(s, ts, g, k), |g: int| s.cells[g].len() as int, s.cells.len() as int);
    lemma_places(|g: int, k: int| sticks_out(l, s, ts, g, k), |g: int| s.cells[g].len() as int, s.cells.len() as int);
}

// ── rules and padding ────────────────────────────────────────────────────────────────────────

/// Whether the node at place `k` of an ordered list is closer to the one before it than their padding allows.
pub open spec fn is_cramped(s: St, ts: Seq<Seq<usize>>, g: int, k: int) -> bool {
    let (a, b) = (ts[g][k - 1] as int, ts[g][k] as int);
    k >= 1 && s.nodes[b].left - (s.nodes[a].left + s.nodes[a].width) < s.pads[a].1 + s.pads[b].0
}

/// Whether the node before place `k` of an ordered list is a cell that breaks a rule.
pub open spec fn follows_breaker(l: Land, s: St, ts: Seq<Seq<usize>>, g: int, k: int) -> bool {
    k >= 1 && s.nodes[ts[g][k - 1] as int].kind == Kind::Cell && l.violates(s, ts[g][k - 1] as int)
}

proof fn lemma_cramped(l: Land, s: St, ts: Seq<Seq<usize>>, g: int, n: int)
    ensures
        l.cramped(s, ts[g], n) == in_list(|g: int, k: int| is_cramped(s, ts, g, k), g, n),
        l.breaking(s, ts[g], n) == in_list(|g: int, k: int| follows_breaker(l, s, ts, g, k), g, n),
    decreases n,
{
    if n > 0 {
        lemma_cramped(l, s, ts, g, n - 1);
        if n == 1 {
            assert(l.cramped(s, ts[g], 0) == 0 && l.breaking(s, ts[g], 0) == 0);
        }
    }
}

proof fn lemma_cramped_upto(l: Land, s: St, ts: Seq<Seq<usize>>, n: int)
    requires
        by_left_edges(s, ts),
        n <= ts.len(),
    ensures
        l.cramped_upto(s, n) == in_lists(|g: int, k: int| is_cramped(s, ts, g, k), |g: int| s.cells[g].len() as int, n),
        l.breaking_upto(s, n) == in_lists(|g: int, k: int| follows_breaker(l, s, ts, g, k), |g: int| s.cells[g].len() as int, n),
    decreases n,
{
    if n > 0 {
        lemma_cramped_upto(l, s, ts, n - 1);
        lemma_by_left_edges(s, ts, n - 1);
        lemma_cramped(l, s, ts, n - 1, ts[n - 1].len() as int);
    }
}

/// As many faults of padding are counted as there are nodes of segments closer to the node before them than the padding
/// between the two; and as many faults of spacing as there are nodes whose left neighbour is a cell that breaks a rule.
pub proof fn law_cramped_nodes_are_counted(l: Land, s: St, c: Checks, ts: Seq<Seq<usize>>)
    requires
        l.counted(s, c),
        by_left_edges(s, ts),
        s.cells.len() == l.segments@.len(),
    ensures
        c.padding == places(|g: int, k: int| is_cramped(s, ts, g, k), |g: int| s.cells[g].len() as int, s.cells.len() as int).len(),
        c.edge_spacing == places(|g: int, k: int| follows_breaker(l, s, ts, g, k), |g: int| s.cells[g].len() as int, s.cells.len() as int).len(),
{
    lemma_cramped_upto(l, s, ts, s.cells.len() as int);
    lemma_places(|g: int, k: int| is_cramped(s, ts, g, k), |g: int| s.cells[g].len() as int, s.cells.len() as int);
    lemma_places(|g: int, k: int| follows_breaker(l, s, ts, g, k), |g: int| s.cells[g].len() as int, s.cells.len() as int);
}

// ── rows and sites ───────────────────────────────────────────────────────────────────────────

proof fn lemma_off_rows(l: Land, s: St, n: int)
    ensures
        l.off_rows_upto(s, n) == tally(|i: int| movable(s.nodes[i]) && l.off_rows(s.nodes[i]), n),
    decreases n,
{
    if n > 0 {
        lemma_off_rows(l, s, n - 1);
    }
}

/// As many nodes are counted off their rows as there are nodes that are no terminals, not fixed, and off their rows.
pub proof fn law_nodes_off_rows_are_counted(l: Land, s: St, c: Checks)
    requires
        l.counted(s, c),
    ensures
        c.row_alignment == those(|i: int| s.nodes[i].kind != Kind::Terminal && !s.nodes[i].fixed && l.off_rows(s.nodes[i]), l.count()).len(),
{
    let p = |i: int| movable(s.nodes[i]) && l.off_rows(s.nodes[i]);
    let q = |i: int| s.nodes[i].kind != Kind::Terminal && !s.nodes[i].fixed && l.off_rows(s.nodes[i]);
    lemma_off_rows(l, s, l.count());
    lemma_those(p, l.count());
    assert(those(p, l.count()) =~= those(q, l.count()));
}

/// A node that is not off its rows has the bottom of one row and the top of one.
pub proof fn law_nodes_on_rows_fill_them(l: Land, n: Node)
    requires
        l.arch.rows@.len() > 0,
        0 <= l.arch.closest(n.bottom as int) < l.arch.rows@.len(),
        !l.off_rows(n),
    ensures
        exists|a: int, b: int| 0 <= a < l.arch.rows@.len() && 0 <= b < l.arch.rows@.len() && n.bottom == (#[trigger] l.arch.rows@[a]).bottom
            && n.bottom + n.height == (#[trigger] l.arch.rows@[b]).bottom + l.arch.rows@[b].height,
{
    let lo = l.arch.closest(n.bottom as int);
    let hi = lo + l.arch.rows_high(n.height as int) - 1;
    assert(n.bottom == l.arch.rows@[lo].bottom && n.bottom + n.height == l.arch.rows@[hi].bottom + l.arch.rows@[hi].height);
}

/// The lowest row that a node reaches into, the rows taken as stacked.
pub open spec fn first_row(l: Land, n: Node) -> int {
    trunc_quot(n.bottom - l.arch.min_y, l.arch.rows@[0].height as int)
}

/// The highest row that a node reaches into, the rows taken as stacked.
pub open spec fn last_row(l: Land, n: Node) -> int {
    first_row(l, n) + n.height as int / l.arch.rows@[0].height as int - 1
}

/// Whether a node that may be moved lies in segments.
pub open spec fn at_home(s: St, i: int) -> bool {
    s.nodes[i].kind != Kind::Terminal && !s.nodes[i].fixed && s.homes[i].len() > 0
}

/// Whether a node at home spans a row and its left edge lies on none of the row's sites.
pub open spec fn off_site(l: Land, s: St, i: int, r: int) -> bool {
    let row = l.arch.rows@[r];
    &&& at_home(s, i)
    &&& first_row(l, s.nodes[i]) <= r <= last_row(l, s.nodes[i])
    &&& (s.nodes[i].left - row.left) % row.site_spacing as int != 0
}

/// Whether a node at home reaches below the first row or above the last.
pub open spec fn out_of_the_rows(l: Land, s: St, i: int) -> bool {
    at_home(s, i) && (first_row(l, s.nodes[i]) < 0 || last_row(l, s.nodes[i]) >= l.arch.rows@.len())
}

proof fn lemma_site(row: crate::rows::Row, x: int)
    requires
        row.site_spacing > 0,
    ensures
        x == crate::segments::site_of(row, x) <==> (x - row.left) % row.site_spacing as int == 0,
{
    let (d, w) = (x - row.left, row.site_spacing as int);
    if d >= 0 {
        vstd::arithmetic::div_mod::lemma_fundamental_div_mod(d, w);
        assert(w * (d / w) == (d / w) * w) by (nonlinear_arith);
    } else {
        vstd::arithmetic::div_mod::lemma_fundamental_div_mod(-d, w);
        assert(w * ((-d) / w) == ((-d) / w) * w) by (nonlinear_arith);
        let q = (-d) / w;
        assert((-q) * w == -(q * w)) by (nonlinear_arith);
        if (-d) % w == 0 {
            assert(d == (-q) * w + 0);
            vstd::arithmetic::div_mod::lemma_fundamental_div_mod_converse(d, w, -q, 0);
        }
        if d % w == 0 {
            vstd::arithmetic::div_mod::lemma_fundamental_div_mod(d, w);
            let z = d / w;
            assert(w * z == z * w && (-z) * w == -(z * w)) by (nonlinear_arith);
            assert(-d == (-z) * w + 0);
            vstd::arithmetic::div_mod::lemma_fundamental_div_mod_converse(-d, w, -z, 0);
        }
    }
}

proof fn lemma_in_list_bounds(p: spec_fn(int, int) -> bool, g: int, lo: int, n: int)
    requires
        forall|k: int| k < lo || k >= n ==> !#[trigger] p(g, k),
    ensures
        forall|m: int| m <= lo ==> #[trigger] in_list(p, g, m) == 0,
        forall|m: int| m >= n ==> #[trigger] in_list(p, g, m) == in_list(p, g, n),
{
    assert forall|m: int| m <= lo implies #[trigger] in_list(p, g, m) == 0 by {
        lemma_none_below(p, g, lo, m);
    }
    assert forall|m: int| m >= n implies #[trigger] in_list(p, g, m) == in_list(p, g, n) by {
        lemma_none_above(p, g, n, m);
    }
}

proof fn lemma_none_below(p: spec_fn(int, int) -> bool, g: int, lo: int, m: int)
    requires
        forall|k: int| k < lo ==> !#[trigger] p(g, k),
        m <= lo,
    ensures
        in_list(p, g, m) == 0,
    decreases m,
{
    if m > 0 {
        lemma_none_below(p, g, lo, m - 1);
        assert(!p(g, m - 1));
    }
}

proof fn lemma_none_above(p: spec_fn(int, int) -> bool, g: int, n: int, m: int)
    requires
        forall|k: int| k >= n ==> !#[trigger] p(g, k),
        m >= n,
    ensures
        in_list(p, g, m) == in_list(p, g, n),
    decreases m - n,
{
    if m > n {
        lemma_none_above(p, g, n, m - 1);
        assert(!p(g, m - 1));
    }
}

proof fn lemma_off_sites_in(l: Land, s: St, i: int, r: int, top: int)
    requires
        at_home(s, i),
        0 <= r,
        first_row(l, s.nodes[i]) <= r,
        top <= last_row(l, s.nodes[i]),
        top < l.arch.rows@.len(),
        forall|k: int| 0 <= k < l.arch.rows@.len() ==> (#[trigger] l.arch.rows@[k]).site_spacing > 0,
    ensures
        r <= top + 1 ==> l.off_sites_in(s.nodes[i].left as int, r, top)
            == in_list(|i: int, r: int| off_site(l, s, i, r), i, top + 1) - in_list(|i: int, r: int| off_site(l, s, i, r), i, r),
    decreases top - r + 1,
{
    if r <= top {
        lemma_off_sites_in(l, s, i, r + 1, top);
        lemma_site(l.arch.rows@[r], s.nodes[i].left as int);
    }
}

proof fn lemma_off_sites(l: Land, s: St, i: int)
    requires
        l.arch.rows@.len() > 0,
        forall|k: int| 0 <= k < l.arch.rows@.len() ==> (#[trigger] l.arch.rows@[k]).site_spacing > 0,
    ensures
        (if at_home(s, i) { l.off_sites(s.nodes[i]) } else { 0 })
            == one_if(out_of_the_rows(l, s, i)) + in_list(|i: int, r: int| off_site(l, s, i, r), i, l.arch.rows@.len() as int),
{
    let p = |i: int, r: int| off_site(l, s, i, r);
    let n = l.arch.rows@.len() as int;
    if at_home(s, i) {
        let (a, b) = (first_row(l, s.nodes[i]), last_row(l, s.nodes[i]));
        let (lo, hi) = (imax(a, 0), imin(b, n - 1));
        assert(forall|k: int| k < a || k >= b + 1 ==> !#[trigger] p(i, k));
        lemma_in_list_bounds(p, i, a, b + 1);
        if lo <= hi + 1 {
            lemma_off_sites_in(l, s, i, lo, hi);
            assert(in_list(p, i, lo) == 0) by {
                if a <= 0 {
                    assert(in_list(p, i, 0) == 0);
                }
            }
            assert(in_list(p, i, hi + 1) == in_list(p, i, n)) by {
                if b <= n - 1 {
                    assert(in_list(p, i, n) == in_list(p, i, b + 1));
                }
            }
        } else {
            assert(l.off_sites_in(s.nodes[i].left as int, lo, hi) == 0);
            if a >= n {
                assert(in_list(p, i, n) == 0);
            } else {
                assert(in_list(p, i, n) == in_list(p, i, b + 1));
                if b + 1 <= a {
                    assert(in_list(p, i, b + 1) == 0);
                } else {
                    assert(b + 1 < 0);
                    assert(in_list(p, i, b + 1) == 0);
                }
            }
        }
    } else {
        assert(forall|k: int| k < n || k >= n ==> !#[trigger] p(i, k));
        lemma_in_list_bounds(p, i, n, n);
        assert(in_list(p, i, n) == 0);
    }
}

proof fn lemma_off_sites_upto(l: Land, s: St, n: int)
    requires
        l.arch.rows@.len() > 0,
        forall|k: int| 0 <= k < l.arch.rows@.len() ==> (#[trigger] l.arch.rows@[k]).site_spacing > 0,
    ensures
        l.off_sites_upto(s, n) == tally(|i: int| out_of_the_rows(l, s, i), n)
            + in_lists(|i: int, r: int| off_site(l, s, i, r), |i: int| l.arch.rows@.len() as int, n),
    decreases n,
{
    if n > 0 {
        lemma_off_sites_upto(l, s, n - 1);
        lemma_off_sites(l, s, n - 1);
    }
}

/// As many faults of sites are counted as there are rows that a node in segments spans with its left edge on none of the
/// row's sites, and nodes in segments that reach out of the rows.
pub proof fn law_nodes_off_sites_are_counted(l: Land, s: St, c: Checks)
    requires
        l.counted(s, c),
        l.arch.rows@.len() > 0,
        forall|k: int| 0 <= k < l.arch.rows@.len() ==> (#[trigger] l.arch.rows@[k]).site_spacing > 0,
    ensures
        c.site_alignment == those(|i: int| out_of_the_rows(l, s, i), l.count()).len()
            + places(|i: int, r: int| off_site(l, s, i, r), |i: int| l.arch.rows@.len() as int, l.count()).len(),
{
    lemma_off_sites_upto(l, s, l.count());
    lemma_those(|i: int| out_of_the_rows(l, s, i), l.count());
    lemma_places(|i: int, r: int| off_site(l, s, i, r), |i: int| l.arch.rows@.len() as int, l.count());
}

// ── no faults ────────────────────────────────────────────────────────────────────────────────

proof fn lemma_chain(s: St, ts: Seq<Seq<usize>>, g: int, i: int, j: int)
    requires
        0 <= i < j < ts[g].len(),
        forall|k: int| 0 <= k < ts[g].len() ==> !#[trigger] runs_into(s, ts, g, k),
        forall|k: int| 0 <= k < ts[g].len() ==> s.nodes[(#[trigger] ts[g][k]) as int].width >= 0,
    ensures
        s.nodes[ts[g][i] as int].left + s.nodes[ts[g][i] as int].width <= s.nodes[ts[g][j] as int].left,
    decreases j - i,
{
    assert(!runs_into(s, ts, g, j));
    if i < j - 1 {
        lemma_chain(s, ts, g, i, j - 1);
        assert(s.nodes[ts[g][j - 1] as int].width >= 0);
    }
}

/// Where no overlaps are counted, the nodes of each segment lie inside it, and each ends before the next by their
/// middles begins.
pub proof fn law_no_overlaps_means_apart(l: Land, s: St, c: Checks, ts: Seq<Seq<usize>>, g: int, i: int, j: int)
    requires
        l.counted(s, c),
        by_middles(s, ts),
        s.cells.len() == l.segments@.len(),
        c.overlaps == 0,
        0 <= g < s.cells.len(),
        0 <= i < j < ts[g].len(),
        forall|k: int| 0 <= k < ts[g].len() ==> s.nodes[(#[trigger] ts[g][k]) as int].width >= 0,
    ensures
        s.nodes[ts[g][i] as int].left + s.nodes[ts[g][i] as int].width <= s.nodes[ts[g][j] as int].left,
        l.segments@[g].min_x <= s.nodes[ts[g][i] as int].left,
        s.nodes[ts[g][j] as int].left + s.nodes[ts[g][j] as int].width <= l.segments@[g].max_x,
{
    law_overlaps_are_counted(l, s, c, ts);
    lemma_by_middles(s, ts, g);
    let m = |g: int| s.cells[g].len() as int;
    let p = |g: int, k: int| runs_into(s, ts, g, k);
    let q = |g: int, k: int| sticks_out(l, s, ts, g, k);
    lemma_places(p, m, s.cells.len() as int);
    lemma_places(q, m, s.cells.len() as int);
    let (a, b) = (places(p, m, s.cells.len() as int), places(q, m, s.cells.len() as int));
    assert(a.len() == 0 && b.len() == 0);
    assert forall|k: int| 0 <= k < ts[g].len() implies !#[trigger] runs_into(s, ts, g, k) && !sticks_out(l, s, ts, g, k) by {
        assert(!a.contains((g, k)) && !b.contains((g, k)));
    }
    assert(!runs_into(s, ts, g, i) && !runs_into(s, ts, g, j));
    lemma_chain(s, ts, g, i, j);
}

} // verus!
