//! Where a flow meets a problem, the network simplex method finds one: no artificial arc is needed in
//! the end.

use vstd::prelude::*;
use crate::net::{
    changed, lemma_arc_after, lemma_balance_round, lemma_eligible, lemma_excess_same, lemma_limits, lemma_none_enters, lemma_pivot_tree,
    lemma_pivoted, lemma_preds_differ, lemma_round_values, lemma_same32, lemma_same_i32, lemma_search, lemma_sides, lemma_under_rank, lemma_under_step, lemma_wrap,
    on_path, same32, Ending, Net, Pivot, ART_COST, MAX_PIVOTS, UNLIMITED,
};
use crate::simplex::{
    lemma_chain, lemma_left_over, lemma_outflow, lemma_outflow_lower, lemma_price, lemma_room, lemma_start, outflow, room,
    start_supply, with_lower, NetworkSimplex,
};

verus! {

// ── what the artificial arcs carry ───────────────────────────────────────────────────────────

/// How much the first `k` arcs can carry to and from a node.
spec fn load(t: Net, v: int, k: int) -> int
    decreases k,
{
    if k <= 0 {
        0
    } else {
        load(t, v, k - 1) + (if t.source[k - 1] == v || t.target[k - 1] == v { t.cap[k - 1] as int } else { 0 })
    }
}

/// Whether an arc is the artificial one of its node: from the node to the root for nothing, or from the root to
/// the node at the cost of a missing arc.
spec fn stands_in(t: Net, e: int) -> bool {
    &&& t.cap[e] == UNLIMITED
    &&& (t.source[e] == e - t.m && t.target[e] == t.n && t.cost[e] == 0) || (t.source[e] == t.n && t.target[e] == e - t.m && t.cost[e] == ART_COST)
}

/// The arcs have limits and join nodes, no node's arcs carry more than a number of 32 bits holds, and each node
/// has its artificial arc.
spec fn framed(t: Net) -> bool {
    &&& forall|e: int| 0 <= e < t.m ==> #[trigger] t.cap[e] < UNLIMITED
    &&& forall|e: int| 0 <= e < t.m ==> #[trigger] t.source[e] < t.n
    &&& forall|e: int| 0 <= e < t.m ==> #[trigger] t.target[e] < t.n
    &&& forall|e: int| t.m <= e < t.all() ==> #[trigger] stands_in(t, e)
    &&& forall|v: int| 0 <= v < t.n ==> #[trigger] load(t, v, t.m) <= i32::MAX
}

/// No artificial arc carries less than nothing, and one outside the tree carries nothing.
spec fn spare(t: Net) -> bool {
    forall|e: int| t.m <= e < t.all() ==> 0 <= #[trigger] t.flow[e] && (t.state[e] != 0 ==> t.flow[e] == 0)
}

/// A flow within the limits that sends out of every node what it has, without the artificial arcs.
spec fn feeds(t: Net, sup: Seq<i32>, g: Seq<i32>) -> bool {
    &&& forall|e: int| 0 <= e < t.m ==> 0 <= #[trigger] g[e] <= t.cap[e]
    &&& forall|v: int| 0 <= v < t.n ==> same32(#[trigger] t.excess(g, v, t.m), sup[v] as int)
}

/// Two flows within the limits differ at a node by at most what its arcs carry.
proof fn lemma_between(t: Net, f: Seq<i32>, g: Seq<i32>, v: int, k: int)
    requires
        forall|e: int| 0 <= e < k ==> 0 <= #[trigger] f[e] <= t.cap[e],
        forall|e: int| 0 <= e < k ==> 0 <= #[trigger] g[e] <= t.cap[e],
    ensures
        -load(t, v, k) <= t.excess(f, v, k) - t.excess(g, v, k) <= load(t, v, k),
    decreases k,
{
    if k > 0 {
        lemma_between(t, f, g, v, k - 1);
        assert(0 <= f[k - 1] <= t.cap[k - 1]);
        assert(0 <= g[k - 1] <= t.cap[k - 1]);
    }
}

/// Of the artificial arcs only its own concerns a node.
proof fn lemma_own_arc(t: Net, flow: Seq<i32>, v: int, k: int)
    requires
        framed(t),
        0 <= v < t.n,
        0 <= t.m <= k <= t.all(),
    ensures
        t.excess(flow, v, k) == t.excess(flow, v, t.m) + (if k > t.m + v { t.share(t.m + v, v, flow[t.m + v] as int) } else { 0 }),
    decreases k,
{
    if k > t.m {
        lemma_own_arc(t, flow, v, k - 1);
        assert(stands_in(t, k - 1));
    }
}

/// Two numbers that are the same in 32 bits and differ by less are equal.
proof fn lemma_near(a: int, b: int)
    requires
        same32(a, b),
        -0x1_0000_0000 < a - b < 0x1_0000_0000,
    ensures
        a == b,
{
    let d = a - b;
    assert(d == 0) by (nonlinear_arith)
        requires d % 0x1_0000_0000 == 0, -0x1_0000_0000 < d < 0x1_0000_0000;
}

/// The limits hold on the arcs that have them.
proof fn lemma_within(t: Net, sup: Seq<i32>)
    requires
        t.sound(sup),
        framed(t),
    ensures
        forall|e: int| 0 <= e < t.m ==> 0 <= #[trigger] t.flow[e] <= t.cap[e],
{
    assert forall|e: int| 0 <= e < t.m implies 0 <= #[trigger] t.flow[e] <= t.cap[e] by {
        assert(t.arc_holds(e));
        assert(t.cap[e] < UNLIMITED);
    }
}

/// A node's artificial arc carries what the node misses.
proof fn lemma_missing(t: Net, sup: Seq<i32>, g: Seq<i32>, v: int)
    requires
        t.sound(sup),
        framed(t),
        feeds(t, sup, g),
        0 <= v < t.n,
    ensures
        t.share(t.m + v, v, t.flow[t.m + v] as int) == t.excess(g, v, t.m) - t.excess(t.flow, v, t.m),
{
    let a = t.share(t.m + v, v, t.flow[t.m + v] as int);
    let (x, y) = (t.excess(t.flow, v, t.m), t.excess(g, v, t.m));
    lemma_within(t, sup);
    lemma_between(t, t.flow, g, v, t.m);
    lemma_own_arc(t, t.flow, v, t.all());
    assert(load(t, v, t.m) <= i32::MAX);
    assert(stands_in(t, t.m + v));
    assert(same32(t.excess(t.flow, v, t.all()), sup[v] as int));
    assert(same32(x + a, sup[v] as int));
    assert(same32(y, sup[v] as int));
    lemma_same32(x + a, sup[v] as int, y, sup[v] as int);
    assert(same32(a, y - x));
    lemma_near(a, y - x);
}

/// A pivot keeps what the artificial arcs carry.
proof fn lemma_spare_kept(t: Net, sup: Seq<i32>, g: Seq<i32>, arc: usize, next: int)
    requires
        t.sound(sup),
        framed(t),
        spare(t),
        feeds(t, sup, g),
        arc < t.m,
        t.eligible(arc as int) < 0,
        0 <= next && (next < t.m || next == 0),
        t.pivot(arc, next).limit.delta < UNLIMITED,
    ensures
        spare(t.pivoted(t.pivot(arc, next))),
        framed(t.pivoted(t.pivot(arc, next))),
        feeds(t.pivoted(t.pivot(arc, next)), sup, g),
{
    let p = t.pivot(arc, next);
    let h = t.pivoted(p);
    lemma_pivoted(t, sup, arc, next);
    lemma_same_frame(t, h, sup, g);
    lemma_after(t, sup, arc, next);
    assert forall|e: int| t.m <= e < t.all() implies 0 <= #[trigger] h.flow[e] && (h.state[e] != 0 ==> h.flow[e] == 0) by {
        assert(0 <= t.flow[e]);
        assert(stands_in(t, e));
        lemma_reached(t, sup, arc, next, e);
        if p.flow[e] != t.flow[e] {
            let (u, second) = choose|u: int, second: bool| #[trigger] reaches(t, p, e, u, second);
            lemma_grown(t, sup, g, arc, next, u, second);
        }
        if h.state[e] != 0 && t.state[e] == 0 {
            lemma_left_empty(t, sup, arc, next);
        }
    }
}

/// Whether a change passes the arc from a node to its parent.
spec fn reaches(t: Net, p: Pivot, e: int, u: int, second: bool) -> bool {
    &&& 0 <= u < t.n
    &&& t.pred[u] == e
    &&& p.limit.delta <= t.slack(u, t.grows(u, second))
    &&& p.flow[e] == changed(t, u, second, p.limit.delta)
}

/// The flow of an arc that does not enter changes only where the change passes it.
proof fn lemma_reached(t: Net, sup: Seq<i32>, arc: usize, next: int, e: int)
    requires
        t.sound(sup),
        arc < t.m,
        t.eligible(arc as int) < 0,
        t.m <= e < t.all(),
    ensures
        t.pivot(arc, next).flow[e] != t.flow[e] ==> exists|u: int, second: bool| #[trigger] reaches(t, t.pivot(arc, next), e, u, second),
        t.state[e] != 0 ==> t.pivot(arc, next).flow[e] == t.flow[e],
{
    let p = t.pivot(arc, next);
    lemma_eligible(t, arc as int);
    lemma_sides(t, arc, next);
    lemma_limits(t, arc, next);
    lemma_round_values(t, sup, arc, next);
    lemma_arc_after(t, sup, arc, next, e);
    let (pa, pb) = (t.path(p.first as int, p.join), t.path(p.second as int, p.join));
    if on_path(t, pa, e, pa.len() as int) {
        let i = choose|i: int| 0 <= i < pa.len() && t.pred[#[trigger] pa[i] as int] == e;
        assert(pa[i] < t.n);
        assert(reaches(t, p, e, pa[i] as int, false));
    } else if on_path(t, pb, e, pb.len() as int) {
        let i = choose|i: int| 0 <= i < pb.len() && t.pred[#[trigger] pb[i] as int] == e;
        assert(pb[i] < t.n);
        assert(reaches(t, p, e, pb[i] as int, true));
    } else {
        assert(p.flow[e] == t.flow[e]);
    }
}

/// The flow after a pivot is that of the change, and only the arc that enters and the one that leaves change
/// their states.
proof fn lemma_after(t: Net, sup: Seq<i32>, arc: usize, next: int)
    requires
        t.sound(sup),
        arc < t.m,
        t.eligible(arc as int) < 0,
        0 <= next && (next < t.m || next == 0),
    ensures
        ({
            let p = t.pivot(arc, next);
            let h = t.pivoted(p);
            &&& h.flow == p.flow
            &&& p.flow.len() == t.all()
            &&& forall|e: int| t.m <= e < t.all() && (p.limit.side == 0 || e != t.pred[p.limit.out as int]) ==> #[trigger] h.state[e] == t.state[e]
        }),
{
    let p = t.pivot(arc, next);
    lemma_eligible(t, arc as int);
    lemma_balance_round(t, sup, arc, next);
    if p.limit.side != 0 {
        lemma_pivot_tree(t, sup, arc, next);
    }
}

/// What a problem's numbers say of one network they say of another with the same arcs.
proof fn lemma_same_frame(t: Net, h: Net, sup: Seq<i32>, g: Seq<i32>)
    requires
        framed(t),
        feeds(t, sup, g),
        h.n == t.n,
        h.m == t.m,
        h.source == t.source,
        h.target == t.target,
        h.cap == t.cap,
        h.cost == t.cost,
    ensures
        framed(h),
        feeds(h, sup, g),
{
    assert forall|e: int| h.m <= e < h.all() implies #[trigger] stands_in(h, e) by {
        assert(stands_in(t, e));
    }
    assert forall|v: int| 0 <= v < h.n implies #[trigger] load(h, v, h.m) <= i32::MAX by {
        lemma_load_same(t, h, v, t.m);
        assert(load(t, v, t.m) <= i32::MAX);
    }
    assert forall|v: int| 0 <= v < h.n implies same32(#[trigger] h.excess(g, v, h.m), sup[v] as int) by {
        lemma_excess_same(t, h, g, v, t.m);
        assert(same32(t.excess(g, v, t.m), sup[v] as int));
    }
}

proof fn lemma_load_same(t: Net, h: Net, v: int, k: int)
    requires
        h.source == t.source,
        h.target == t.target,
        h.cap == t.cap,
    ensures
        load(t, v, k) == load(h, v, k),
    decreases k,
{
    if k > 0 {
        lemma_load_same(t, h, v, k - 1);
    }
}

/// An artificial arc on one of the sides of a pivot does not wrap: what it carries is what its node misses.
proof fn lemma_grown(t: Net, sup: Seq<i32>, g: Seq<i32>, arc: usize, next: int, u: int, second: bool)
    requires
        t.sound(sup),
        framed(t),
        spare(t),
        feeds(t, sup, g),
        arc < t.m,
        t.eligible(arc as int) < 0,
        0 <= next && (next < t.m || next == 0),
        t.pivot(arc, next).limit.delta < UNLIMITED,
        0 <= u < t.n,
        t.pred[u] >= t.m,
        t.pivot(arc, next).limit.delta <= t.slack(u, t.grows(u, second)),
        t.pivot(arc, next).flow[t.pred[u] as int] == changed(t, u, second, t.pivot(arc, next).limit.delta),
    ensures
        0 <= t.pivot(arc, next).flow[t.pred[u] as int],
{
    let p = t.pivot(arc, next);
    let h = t.pivoted(p);
    let d = p.limit.delta;
    let e = t.pred[u] as int;
    assert(t.pred[u] < t.all());
    assert(0 <= t.flow[e]);
    assert(stands_in(t, e));
    lemma_pivoted(t, sup, arc, next);
    lemma_same_frame(t, h, sup, g);
    if d > 0 && t.grows(u, second) {
        let v = e - t.m;
        lemma_missing(t, sup, g, v);
        lemma_missing(h, sup, g, v);
        lemma_excess_same(t, h, g, v, t.m);
        lemma_excess_same(t, h, h.flow, v, t.m);
        lemma_within(t, sup);
        lemma_within(h, sup);
        lemma_between(t, t.flow, h.flow, v, t.m);
        assert(load(t, v, t.m) <= i32::MAX);
        lemma_after(t, sup, arc, next);
    }
}

/// An artificial arc that leaves the tree is empty.
proof fn lemma_left_empty(t: Net, sup: Seq<i32>, arc: usize, next: int)
    requires
        t.sound(sup),
        framed(t),
        spare(t),
        arc < t.m,
        t.eligible(arc as int) < 0,
        t.pivot(arc, next).limit.delta < UNLIMITED,
        t.pivot(arc, next).limit.side != 0,
        t.m <= t.pred[t.pivot(arc, next).limit.out as int] < t.all(),
    ensures
        t.pivot(arc, next).flow[t.pred[t.pivot(arc, next).limit.out as int] as int] == 0,
{
    let p = t.pivot(arc, next);
    lemma_eligible(t, arc as int);
    lemma_sides(t, arc, next);
    lemma_limits(t, arc, next);
    lemma_round_values(t, sup, arc, next);
    let (pa, pb) = (t.path(p.first as int, p.join), t.path(p.second as int, p.join));
    let l = p.limit;
    let e = t.pred[l.out as int] as int;
    assert(0 <= t.flow[e]);
    assert(stands_in(t, e));
    if l.side == 1 {
        let i = choose|i: int| 0 <= i < pa.len() && #[trigger] pa[i] == l.out && t.slack(pa[i] as int, t.grows(pa[i] as int, false)) == l.delta;
        assert(p.flow[t.pred[pa[i] as int] as int] == changed(t, pa[i] as int, false, l.delta));
    } else {
        let i = choose|i: int| 0 <= i < pb.len() && #[trigger] pb[i] == l.out && t.slack(pb[i] as int, t.grows(pb[i] as int, true)) == l.delta;
        assert(p.flow[t.pred[pb[i] as int] as int] == changed(t, pb[i] as int, true, l.delta));
    }
}

// ── what the potentials are ──────────────────────────────────────────────────────────────────

/// The absolute value of a number.
pub open spec fn size(x: int) -> int {
    if x < 0 { -x } else { x }
}

/// The costs of the first `k` arcs together, without their signs.
spec fn costs(t: Net, k: int) -> int
    decreases k,
{
    if k <= 0 { 0 } else { costs(t, k - 1) + size(t.cost[k - 1] as int) }
}

/// The costs of those of the first `k` arcs that are in a set.
spec fn costs_in(t: Net, s: Set<int>, k: int) -> int
    decreases k,
{
    if k <= 0 { 0 } else { costs_in(t, s, k - 1) + (if s.contains(k - 1) { size(t.cost[k - 1] as int) } else { 0 }) }
}

/// The arcs of the tree from a node up to the root.
spec fn above(t: Net, u: int) -> Set<int>
    decreases t.rank[u],
{
    if u == t.n || !(0 <= t.rank[t.parent[u] as int] < t.rank[u]) {
        Set::empty()
    } else {
        above(t, t.parent[u] as int).insert(t.pred[u] as int)
    }
}

/// What a node's potential is above that of the root: the costs along the tree.
spec fn level(t: Net, u: int) -> int
    decreases t.rank[u],
{
    if u == t.n || !(0 <= t.rank[t.parent[u] as int] < t.rank[u]) {
        0
    } else if t.up[u] {
        level(t, t.parent[u] as int) - t.cost[t.pred[u] as int]
    } else {
        level(t, t.parent[u] as int) + t.cost[t.pred[u] as int]
    }
}

/// Whether a node hangs below the root by an artificial arc that leads down.
spec fn high(t: Net, u: int) -> bool
    decreases t.rank[u],
{
    if u == t.n || !(0 <= t.rank[t.parent[u] as int] < t.rank[u]) {
        false
    } else if t.pred[u] >= t.m {
        !t.up[u]
    } else {
        high(t, t.parent[u] as int)
    }
}

proof fn lemma_reduced(t: Net, e: int)
    ensures
        same32(t.reduced(e) as int, t.cost[e] + t.pi[t.source[e] as int] - t.pi[t.target[e] as int]),
{
    let (c, a, b) = (t.cost[e], t.pi[t.source[e] as int], t.pi[t.target[e] as int]);
    let x = c.wrapping_add(a);
    lemma_wrap(c, a);
    lemma_wrap(x, b);
    lemma_same32(x as int, c + a, b as int, b as int);
    lemma_chain(t.reduced(e) as int, x - b, c + a - b);
}

/// The potentials are those of the tree, in 32 bits.
proof fn lemma_level(t: Net, sup: Seq<i32>, u: int)
    requires
        t.sound(sup),
        0 <= u <= t.n,
    ensures
        same32(t.pi[u] - t.pi[t.n], level(t, u)),
    decreases t.rank[u],
{
    if u < t.n {
        let e = t.pred[u] as int;
        let q = t.parent[u] as int;
        lemma_under_step(t, u, u);
        lemma_level(t, sup, q);
        assert(t.pred[u] < t.all());
        assert(t.joins(t.pred[u] as int, u, t.parent[u] as int, t.up[u]));
        assert(t.reduced(t.pred[u] as int) == 0);
        lemma_reduced(t, e);
        let (c, x, y, r) = (t.cost[e] as int, t.pi[u] as int, t.pi[q] as int, t.pi[t.n] as int);
        if t.up[u] {
            assert(same32(0, c + x - y));
            assert(same32(x - r, level(t, q) - c)) by {
                let z = y - r - level(t, q);
                lemma_join(z, -(c + x - y));
            }
        } else {
            assert(same32(0, c + y - x));
            assert(same32(x - r, level(t, q) + c)) by {
                let z = y - r - level(t, q);
                lemma_join(z, -(c + y - x));
            }
        }
    }
}

/// The sum and the difference of two numbers that are nothing in 32 bits are nothing.
proof fn lemma_join(a: int, b: int)
    requires
        a % 0x1_0000_0000 == 0,
        b % 0x1_0000_0000 == 0,
    ensures
        (a + b) % 0x1_0000_0000 == 0,
        (a - b) % 0x1_0000_0000 == 0,
{
    lemma_same32(a, 0, b, 0);
}

/// An arc from a node up to the root is that of a node above it, below the same arc of the root.
proof fn lemma_above(t: Net, sup: Seq<i32>, u: int, e: int) -> (w: int)
    requires
        t.sound(sup),
        framed(t),
        0 <= u <= t.n,
        above(t, u).contains(e),
    ensures
        0 <= w < t.n,
        t.under(u, w),
        t.pred[w] == e,
        high(t, w) == high(t, u),
    decreases t.rank[u],
{
    assert(u < t.n);
    lemma_under_step(t, u, u);
    let q = t.parent[u] as int;
    if t.pred[u] == e {
        u
    } else {
        let w = lemma_above(t, sup, q, e);
        lemma_under_step(t, u, w);
        if t.pred[u] >= t.m {
            assert(t.pred[u] < t.all());
            assert(t.joins(t.pred[u] as int, u, t.parent[u] as int, t.up[u]));
            assert(stands_in(t, t.pred[u] as int));
            assert(q == t.n);
        }
        w
    }
}

proof fn lemma_costs_insert(t: Net, s: Set<int>, e: int, k: int)
    requires
        !s.contains(e),
    ensures
        costs_in(t, s.insert(e), k) == costs_in(t, s, k) + (if 0 <= e < k { size(t.cost[e] as int) } else { 0 }),
        costs_in(t, s, k) >= 0,
    decreases k,
{
    if k > 0 {
        lemma_costs_insert(t, s, e, k - 1);
    }
}

/// Two sets of arcs and an arc, apart from each other, cost no more than all arcs.
proof fn lemma_costs_apart(t: Net, a: Set<int>, b: Set<int>, e: int, k: int)
    requires
        forall|x: int| 0 <= x < k ==> !(#[trigger] a.contains(x) && b.contains(x)),
        !a.contains(e),
        !b.contains(e),
    ensures
        costs_in(t, a, k) + costs_in(t, b, k) + (if 0 <= e < k { size(t.cost[e] as int) } else { 0 }) <= costs(t, k),
    decreases k,
{
    if k > 0 {
        lemma_costs_apart(t, a, b, e, k - 1);
        assert(!(a.contains(k - 1) && b.contains(k - 1)));
    }
}

/// A node's potential is near that of the arc of the root above it.
proof fn lemma_level_bound(t: Net, sup: Seq<i32>, u: int)
    requires
        t.sound(sup),
        framed(t),
        0 <= u <= t.n,
    ensures
        size(level(t, u) - (if high(t, u) { ART_COST as int } else { 0 })) <= costs_in(t, above(t, u), t.m),
    decreases t.rank[u],
{
    if u < t.n {
        let e = t.pred[u] as int;
        let q = t.parent[u] as int;
        lemma_under_step(t, u, u);
        assert(t.pred[u] < t.all());
        assert(t.joins(t.pred[u] as int, u, t.parent[u] as int, t.up[u]));
        lemma_level_bound(t, sup, q);
        if above(t, q).contains(e) {
            let w = lemma_above(t, sup, q, e);
            if w != u {
                lemma_preds_differ(t, w, u);
            }
            lemma_under_rank(t, q, w);
        }
        lemma_costs_insert(t, above(t, q), e, t.m);
        if e >= t.m {
            assert(stands_in(t, e));
            assert(q == t.n);
        }
    } else {
        lemma_costs_insert(t, above(t, u), 0, t.m);
    }
}

/// Where no arc enters, an arc from below an arc that stands in for a missing one to elsewhere is empty, and an arc
/// the other way is full.
proof fn lemma_cross(t: Net, sup: Seq<i32>, e: int)
    requires
        t.sound(sup),
        framed(t),
        t.entering() is None,
        costs(t, t.m) < ART_COST,
        0 <= e < t.m,
    ensures
        high(t, t.source[e] as int) && !high(t, t.target[e] as int) ==> t.flow[e] == 0,
        !high(t, t.source[e] as int) && high(t, t.target[e] as int) ==> t.flow[e] == t.cap[e],
{
    let (a, b) = (t.source[e] as int, t.target[e] as int);
    assert(t.source[e] < t.n);
    assert(t.target[e] < t.n);
    if high(t, a) != high(t, b) {
        assert(-1 <= t.state[e] <= 1);
        assert(t.arc_holds(e));
        assert(t.cap[e] < UNLIMITED);
        if t.state[e] == 0 {
            assert(t.has_arc(e));
            let u = choose|u: int| 0 <= u < t.n && #[trigger] t.pred[u] == e;
            assert(t.joins(t.pred[u] as int, u, t.parent[u] as int, t.up[u]));
            lemma_under_step(t, u, u);
        } else {
            lemma_none_enters(t, e);
            lemma_price(t, e);
            lemma_reduced(t, e);
            lemma_level(t, sup, a);
            lemma_level(t, sup, b);
            lemma_level_bound(t, sup, a);
            lemma_level_bound(t, sup, b);
            let (x, y) = (above(t, a), above(t, b));
            if x.contains(e) {
                let w = lemma_above(t, sup, a, e);
                assert(t.state[t.pred[w] as int] == 0);
            }
            if y.contains(e) {
                let w = lemma_above(t, sup, b, e);
                assert(t.state[t.pred[w] as int] == 0);
            }
            assert forall|z: int| 0 <= z < t.m implies !(#[trigger] x.contains(z) && y.contains(z)) by {
                if x.contains(z) && y.contains(z) {
                    let v = lemma_above(t, sup, a, z);
                    let w = lemma_above(t, sup, b, z);
                    if v != w {
                        lemma_preds_differ(t, v, w);
                    }
                }
            }
            lemma_costs_apart(t, x, y, e, t.m);
            let c = t.cost[e] as int;
            let r = c + level(t, a) - level(t, b);
            lemma_same32(t.pi[a] - t.pi[t.n], level(t, a), t.pi[b] - t.pi[t.n], level(t, b));
            lemma_same32(c, c, t.pi[a] - t.pi[b], level(t, a) - level(t, b));
            lemma_chain(t.reduced(e) as int, c + t.pi[a] - t.pi[b], r);
            lemma_near(t.reduced(e) as int, r);
        }
    }
}

// ── what goes in and out of a part of the network ────────────────────────────────────────────

/// How much more the chosen ones of the first `n` nodes send out in one flow than in another, over the first `k`
/// arcs.
spec fn surplus(t: Net, w: spec_fn(int) -> bool, f: Seq<i32>, g: Seq<i32>, n: int, k: int) -> int
    decreases n,
{
    if n <= 0 { 0 } else { surplus(t, w, f, g, n - 1, k) + (if w(n - 1) { t.excess(g, n - 1, k) - t.excess(f, n - 1, k) } else { 0 }) }
}

/// How much more the first `k` arcs carry out of the chosen nodes in one flow than in another.
spec fn crossing(t: Net, w: spec_fn(int) -> bool, f: Seq<i32>, g: Seq<i32>, k: int) -> int
    decreases k,
{
    if k <= 0 {
        0
    } else {
        crossing(t, w, f, g, k - 1) + (if w(t.source[k - 1] as int) { g[k - 1] - f[k - 1] } else { 0 })
            - (if w(t.target[k - 1] as int) { g[k - 1] - f[k - 1] } else { 0 })
    }
}

proof fn lemma_surplus_step(t: Net, w: spec_fn(int) -> bool, f: Seq<i32>, g: Seq<i32>, n: int, k: int)
    requires
        0 <= n,
        k >= 1,
    ensures
        surplus(t, w, f, g, n, k) == surplus(t, w, f, g, n, k - 1)
            + (if t.source[k - 1] < n && w(t.source[k - 1] as int) { g[k - 1] - f[k - 1] } else { 0 })
            - (if t.target[k - 1] < n && w(t.target[k - 1] as int) { g[k - 1] - f[k - 1] } else { 0 }),
    decreases n,
{
    if n > 0 {
        lemma_surplus_step(t, w, f, g, n - 1, k);
    }
}

proof fn lemma_surplus_none(t: Net, w: spec_fn(int) -> bool, f: Seq<i32>, g: Seq<i32>, n: int)
    ensures
        surplus(t, w, f, g, n, 0) == 0,
    decreases n,
{
    if n > 0 {
        lemma_surplus_none(t, w, f, g, n - 1);
    }
}

/// What the chosen nodes send out more is what the arcs carry out of them more.
proof fn lemma_surplus(t: Net, w: spec_fn(int) -> bool, f: Seq<i32>, g: Seq<i32>, k: int)
    requires
        framed(t),
        0 <= t.n,
        0 <= k <= t.m,
    ensures
        surplus(t, w, f, g, t.n, k) == crossing(t, w, f, g, k),
    decreases k,
{
    if k > 0 {
        lemma_surplus(t, w, f, g, k - 1);
        lemma_surplus_step(t, w, f, g, t.n, k);
        assert(t.source[k - 1] < t.n);
        assert(t.target[k - 1] < t.n);
    } else {
        lemma_surplus_none(t, w, f, g, t.n);
    }
}

/// Where no chosen node sends out more, all of them together do not, and send out less if one does.
proof fn lemma_surplus_falls(t: Net, w: spec_fn(int) -> bool, f: Seq<i32>, g: Seq<i32>, n: int, k: int)
    requires
        forall|v: int| 0 <= v < n && w(v) ==> #[trigger] t.excess(g, v, k) <= t.excess(f, v, k),
    ensures
        surplus(t, w, f, g, n, k) <= 0,
        forall|v: int| 0 <= v < n && w(v) && #[trigger] t.excess(g, v, k) < t.excess(f, v, k) ==> surplus(t, w, f, g, n, k) < 0,
    decreases n,
{
    if n > 0 {
        lemma_surplus_falls(t, w, f, g, n - 1, k);
        if w(n - 1) {
            assert(t.excess(g, n - 1, k) <= t.excess(f, n - 1, k));
        }
        assert forall|v: int| 0 <= v < n && w(v) && #[trigger] t.excess(g, v, k) < t.excess(f, v, k) implies surplus(t, w, f, g, n, k) < 0 by {
            if v < n - 1 {
                assert(surplus(t, w, f, g, n - 1, k) < 0);
            }
        }
    }
}

/// All arcs that lead into the nodes below artificial arcs that lead down are full, and all that lead out are
/// empty: no flow carries less out of them.
proof fn lemma_crossing_high(t: Net, sup: Seq<i32>, g: Seq<i32>, k: int)
    requires
        t.sound(sup),
        framed(t),
        feeds(t, sup, g),
        t.entering() is None,
        costs(t, t.m) < ART_COST,
        0 <= k <= t.m,
    ensures
        crossing(t, |v: int| high(t, v), t.flow, g, k) >= 0,
    decreases k,
{
    if k > 0 {
        lemma_crossing_high(t, sup, g, k - 1);
        lemma_cross(t, sup, k - 1);
        assert(0 <= g[k - 1] <= t.cap[k - 1]);
    }
}

proof fn lemma_crossing_all(t: Net, f: Seq<i32>, g: Seq<i32>, k: int)
    ensures
        crossing(t, |v: int| true, f, g, k) == 0,
    decreases k,
{
    if k > 0 {
        lemma_crossing_all(t, f, g, k - 1);
    }
}

/// A node whose artificial arc carries something hangs below the root by it.
proof fn lemma_hangs_by(t: Net, sup: Seq<i32>, v: int)
    requires
        t.sound(sup),
        framed(t),
        spare(t),
        0 <= v < t.n,
        t.flow[t.m + v] != 0,
    ensures
        high(t, v) == (t.target[t.m + v] == v),
{
    let e = t.m + v;
    assert(stands_in(t, e));
    assert(0 <= t.flow[e]);
    assert(t.state[e] == 0);
    assert(t.has_arc(e));
    let u = choose|u: int| 0 <= u < t.n && #[trigger] t.pred[u] == e;
    assert(t.joins(t.pred[u] as int, u, t.parent[u] as int, t.up[u]));
    assert(u == v);
    lemma_under_step(t, u, u);
}

/// Where no arc enters and some flow does without the artificial arcs, these are empty.
proof fn lemma_done_without(t: Net, sup: Seq<i32>, g: Seq<i32>)
    requires
        t.sound(sup),
        framed(t),
        spare(t),
        feeds(t, sup, g),
        t.entering() is None,
        costs(t, t.m) < ART_COST,
    ensures
        forall|e: int| t.m <= e < t.all() ==> #[trigger] t.flow[e] == 0,
{
    let (n, m) = (t.n, t.m);
    let w = |v: int| high(t, v);
    let all = |v: int| true;
    lemma_crossing_high(t, sup, g, m);
    lemma_surplus(t, w, t.flow, g, m);
    assert forall|v: int| 0 <= v < n && w(v) implies #[trigger] t.excess(g, v, m) <= t.excess(t.flow, v, m) by {
        lemma_missing(t, sup, g, v);
        assert(stands_in(t, m + v));
        assert(0 <= t.flow[m + v]);
        if t.flow[m + v] != 0 {
            lemma_hangs_by(t, sup, v);
        }
    }
    lemma_surplus_falls(t, w, t.flow, g, n, m);
    lemma_crossing_all(t, g, t.flow, m);
    lemma_surplus(t, all, g, t.flow, m);
    assert forall|v: int| 0 <= v < n && all(v) implies #[trigger] t.excess(t.flow, v, m) <= t.excess(g, v, m) by {
        lemma_missing(t, sup, g, v);
        assert(stands_in(t, m + v));
        assert(0 <= t.flow[m + v]);
        if t.flow[m + v] != 0 {
            lemma_hangs_by(t, sup, v);
            if t.target[m + v] == v {
                assert(w(v));
                assert(t.excess(g, v, m) < t.excess(t.flow, v, m));
            }
        }
    }
    lemma_surplus_falls(t, all, g, t.flow, n, m);
    assert forall|e: int| m <= e < t.all() implies #[trigger] t.flow[e] == 0 by {
        let v = e - m;
        lemma_missing(t, sup, g, v);
        assert(stands_in(t, m + v));
        assert(0 <= t.flow[e]);
        assert(all(v));
        assert(!(t.excess(t.flow, v, m) < t.excess(g, v, m)));
        assert(t.excess(t.flow, v, m) <= t.excess(g, v, m));
    }
}

// ── the law ──────────────────────────────────────────────────────────────────────────────────

proof fn lemma_costs_same(t: Net, h: Net, k: int)
    requires
        h.cost == t.cost,
    ensures
        costs(t, k) == costs(h, k),
    decreases k,
{
    if k > 0 {
        lemma_costs_same(t, h, k - 1);
    }
}

/// Pivots end without the artificial arcs, unless they are too many.
proof fn lemma_ends(t: Net, sup: Seq<i32>, g: Seq<i32>, steps: int)
    requires
        t.sound(sup),
        framed(t),
        spare(t),
        feeds(t, sup, g),
        costs(t, t.m) < ART_COST,
    ensures
        match t.ending(steps) {
            Ending::Settled(h) => h.m == t.m && h.n == t.n && forall|e: int| h.m <= e < h.all() ==> #[trigger] h.flow[e] == 0,
            Ending::Unlimited(h) => false,
            Ending::Spent(h) => true,
        },
    decreases steps,
{
    if steps > 0 {
        match t.entering() {
            None => {
                lemma_done_without(t, sup, g);
            },
            Some(a) => {
                lemma_search(t, 0, 0, t.block, 0);
                lemma_limits(t, a.0, a.1);
                let p = t.pivot(a.0, a.1);
                assert(t.cap[a.0 as int] < UNLIMITED);
                lemma_pivoted(t, sup, a.0, a.1);
                lemma_spare_kept(t, sup, g, a.0, a.1);
                lemma_costs_same(t, t.pivoted(p), t.m);
                lemma_ends(t.pivoted(p), sup, g, steps - 1);
            },
        }
    }
}

impl NetworkSimplex {
    /// How much the first `k` arcs can carry to and from a node, beyond their lower limits.
    pub open spec fn node_room(&self, v: int, k: int) -> int
        decreases k,
    {
        if k <= 0 {
            0
        } else {
            self.node_room(v, k - 1) + (if self.source@[k - 1] == v || self.target@[k - 1] == v { self.upper@[k - 1] - self.lower@[k - 1] } else { 0 })
        }
    }

    /// The costs of the first `k` arcs together, without their signs.
    pub open spec fn cost_sum(&self, k: int) -> int
        decreases k,
    {
        if k <= 0 { 0 } else { self.cost_sum(k - 1) + size(self.cost@[k - 1] as int) }
    }
}

proof fn lemma_start_sums(p: NetworkSimplex, block: int, v: int, k: int)
    requires
        p.wf(),
        p.limits_ok(),
        forall|e: int| 0 <= e < p.arc_num ==> room(#[trigger] p.lower@[e], p.upper@[e]) < UNLIMITED,
        0 <= k <= p.arc_num,
    ensures
        load(p.start(block), v, k) == p.node_room(v, k),
        costs(p.start(block), k) == p.cost_sum(k),
        p.start(block).excess(p.start(block).flow, v, k) == 0,
    decreases k,
{
    if k > 0 {
        lemma_start_sums(p, block, v, k - 1);
        assert(p.lower@[k - 1] <= p.upper@[k - 1]);
        assert(room(p.lower@[k - 1], p.upper@[k - 1]) < UNLIMITED);
        lemma_room(p.lower@[k - 1], p.upper@[k - 1]);
    }
}

/// What the nodes have together is what a flow that meets the problem sends out of them, in 32 bits.
proof fn lemma_total(p: NetworkSimplex, t: Net, f: Seq<i32>, g: Seq<i32>, k: int)
    requires
        p.wf(),
        p.meets(g),
        0 <= k <= p.node_num,
        forall|e: int| 0 <= e < p.arc_num ==> #[trigger] t.source[e] == p.source@[e],
        forall|e: int| 0 <= e < p.arc_num ==> #[trigger] t.target[e] == p.target@[e],
        forall|v: int| 0 <= v < p.node_num ==> #[trigger] t.excess(f, v, p.arc_num as int) == 0,
    ensures
        same32(p.total(k) as int, surplus(t, |v: int| true, f, g, k, p.arc_num as int)),
    decreases k,
{
    if k > 0 {
        let m = p.arc_num as int;
        lemma_total(p, t, f, g, k - 1);
        lemma_outflow(p, t, g, k - 1, m);
        assert(same32(outflow(p, g, k - 1, m), p.supply@[k - 1] as int));
        assert(t.excess(f, k - 1, m) == 0);
        lemma_wrap(p.total(k - 1), p.supply@[k - 1]);
        let (a, b) = (p.total(k - 1) as int, surplus(t, |v: int| true, f, g, k - 1, m));
        let (x, y) = (p.supply@[k - 1] as int, t.excess(g, k - 1, m));
        lemma_same32(0, 0, y, x);
        lemma_join(0, y - x);
        assert(same32(x, y));
        lemma_same32(a, b, x, y);
        lemma_chain(p.total(k) as int, a + x, b + y);
    }
}

/// Where a flow meets a problem, a flow is found.
///
/// The arcs have limits, and together a node's arcs carry no more than a number of 32 bits holds. The costs together
/// are below that of an arc that stands in for a missing one, which is else the cheaper way. The pivots can be
/// counted.
pub proof fn law_feasible_flow_is_found(p: NetworkSimplex, g: Seq<i32>, block: int)
    requires
        p.wf(),
        p.limits_ok(),
        p.node_num >= 1,
        block >= 1,
        p.meets(g),
        forall|e: int| 0 <= e < p.arc_num ==> room(#[trigger] p.lower@[e], p.upper@[e]) < UNLIMITED,
        forall|v: int| 0 <= v < p.node_num ==> #[trigger] p.node_room(v, p.arc_num as int) <= i32::MAX,
        p.cost_sum(p.arc_num as int) < ART_COST,
        !(p.ending(block) is Spent),
    ensures
        p.finds(block),
{
    let t = p.start(block);
    let sup = start_supply(p, block);
    let (n, m) = (p.node_num as int, p.arc_num as int);
    lemma_start(p, block);
    lemma_left_over(p, m);
    assert(framed(t)) by {
        assert forall|e: int| 0 <= e < t.m implies #[trigger] t.cap[e] < UNLIMITED by {
            assert(room(p.lower@[e], p.upper@[e]) < UNLIMITED);
        }
        assert forall|v: int| 0 <= v < t.n implies #[trigger] load(t, v, t.m) <= i32::MAX by {
            lemma_start_sums(p, block, v, m);
            assert(p.node_room(v, m) <= i32::MAX);
        }
        assert forall|e: int| 0 <= e < t.m implies #[trigger] t.source[e] < t.n by {
            assert(p.source@[e] < n);
        }
        assert forall|e: int| 0 <= e < t.m implies #[trigger] t.target[e] < t.n by {
            assert(p.target@[e] < n);
        }
    }
    let h = Seq::new(m as nat, |e: int| (g[e] - p.lower@[e]) as i32);
    assert forall|e: int| 0 <= e < m implies 0 <= #[trigger] h[e] <= t.cap[e] && h[e] == g[e] - p.lower@[e] by {
        assert(p.lower@[e] <= p.upper@[e]);
        assert(room(p.lower@[e], p.upper@[e]) < UNLIMITED);
        lemma_room(p.lower@[e], p.upper@[e]);
        assert(p.lower@[e] <= g[e] <= p.upper@[e]);
    }
    assert(feeds(t, sup, h)) by {
        assert forall|v: int| 0 <= v < t.n implies same32(#[trigger] t.excess(h, v, t.m), sup[v] as int) by {
            lemma_outflow_lower(p, h, v, m);
            lemma_outflow(p, t, h, v, m);
            lemma_outflow_other(p, g, with_lower(p, h), v, m);
            assert(same32(outflow(p, g, v, m), p.supply@[v] as int));
            let (a, b, l) = (outflow(p, g, v, m), outflow(p, h, v, m), p.left_over(m)[v] as int);
            lemma_same32(a, b + p.supply@[v] - l, a, p.supply@[v] as int);
            assert(same32(0, b - l));
            lemma_same32(0, 0, 0, b - l);
        }
    }
    assert(spare(t)) by {
        assert forall|e: int| t.m <= e < t.all() implies 0 <= #[trigger] t.flow[e] && (t.state[e] != 0 ==> t.flow[e] == 0) by {
            let v = e - m;
            lemma_start_sums(p, block, v, m);
            lemma_between(t, t.flow, h, v, m);
            assert(load(t, v, t.m) <= i32::MAX);
            assert(same32(t.excess(h, v, t.m), sup[v] as int));
            lemma_near(t.excess(h, v, t.m), sup[v] as int);
        }
    }
    lemma_start_sums(p, block, 0, m);
    lemma_ends(t, sup, h, MAX_PIVOTS as int);
    assert forall|v: int| 0 <= v < n implies #[trigger] t.excess(t.flow, v, m) == 0 by {
        lemma_start_sums(p, block, v, m);
    }
    lemma_total(p, t, t.flow, g, n);
    lemma_surplus(t, |v: int| true, t.flow, g, m);
    lemma_crossing_all(t, t.flow, g, m);
    lemma_same_i32(p.total(n), 0);
}

proof fn lemma_outflow_other(p: NetworkSimplex, f: Seq<i32>, g: Seq<i32>, v: int, k: int)
    requires
        forall|e: int| 0 <= e < k ==> #[trigger] f[e] == g[e],
    ensures
        outflow(p, f, v, k) == outflow(p, g, v, k),
    decreases k,
{
    if k > 0 {
        lemma_outflow_other(p, f, g, v, k - 1);
        assert(f[k - 1] == g[k - 1]);
    }
}

} // verus!
