//! What an assignment keeps: it is found, every cell gets one spot, and no two cells the same.

use vstd::prelude::*;
use crate::land::{Land, St};
use crate::lemon::ListDigraph;
use crate::matching::{assigns, graph_of, solvable, spots, Link};
use crate::net::{same32, ART_COST, UNLIMITED};
use crate::simplex::{is_block, is_exact, law_tight_flow_is_cheapest, outflow, price, room, NetworkSimplex};
use crate::simplex_laws::law_feasible_flow_is_found;

verus! {

// ── sums ─────────────────────────────────────────────────────────────────────────────────────

/// The sum of the first `n` numbers.
spec fn total(w: Seq<int>, n: int) -> int
    decreases n,
{
    if n <= 0 { 0 } else { total(w, n - 1) + w[n - 1] }
}

/// The sum of the numbers at the first `k` places of a list.
spec fn along(w: Seq<int>, a: Seq<usize>, k: int) -> int
    decreases k,
{
    if k <= 0 { 0 } else { along(w, a, k - 1) + w[a[k - 1] as int] }
}

/// The sum of the first `n` numbers that are not at the first `k` places of a list.
spec fn beside(w: Seq<int>, a: Seq<usize>, k: int, n: int) -> int
    decreases n,
{
    if n <= 0 { 0 } else { beside(w, a, k, n - 1) + (if listed(a, k, n - 1) { 0 } else { w[n - 1] }) }
}

/// Whether a number is among the first `k` of a list.
spec fn listed(a: Seq<usize>, k: int, e: int) -> bool {
    exists|i: int| 0 <= i < k && #[trigger] a[i] == e
}

spec fn is_order(a: Seq<usize>, n: int) -> bool {
    &&& a.len() == n
    &&& forall|i: int| 0 <= i < n ==> #[trigger] a[i] < n
    &&& forall|i: int, j: int| 0 <= i < j < n ==> #[trigger] a[i] != #[trigger] a[j]
}

proof fn lemma_beside_step(w: Seq<int>, a: Seq<usize>, k: int, n: int)
    requires
        is_order(a, w.len() as int),
        0 <= k < a.len(),
        0 <= n <= w.len(),
    ensures
        beside(w, a, k + 1, n) == beside(w, a, k, n) - (if a[k] < n { w[a[k] as int] } else { 0 }),
    decreases n,
{
    if n > 0 {
        lemma_beside_step(w, a, k, n - 1);
        let e = n - 1;
        if a[k] == e {
            assert(listed(a, k + 1, e));
            if listed(a, k, e) {
                let i = choose|i: int| 0 <= i < k && #[trigger] a[i] == e;
                assert(a[i] != a[k]);
            }
        } else {
            if listed(a, k, e) {
                let i = choose|i: int| 0 <= i < k && #[trigger] a[i] == e;
                assert(a[i] == e);
                assert(listed(a, k + 1, e));
            }
            if listed(a, k + 1, e) {
                let i = choose|i: int| 0 <= i < k + 1 && #[trigger] a[i] == e;
                assert(i < k);
                assert(listed(a, k, e));
            }
        }
    }
}

proof fn lemma_beside_none(w: Seq<int>, a: Seq<usize>, n: int)
    requires
        0 <= n <= w.len(),
    ensures
        beside(w, a, 0, n) == total(w, n),
    decreases n,
{
    if n > 0 {
        lemma_beside_none(w, a, n - 1);
    }
}

proof fn lemma_split(w: Seq<int>, a: Seq<usize>, k: int)
    requires
        is_order(a, w.len() as int),
        0 <= k <= a.len(),
    ensures
        along(w, a, k) + beside(w, a, k, w.len() as int) == total(w, w.len() as int),
    decreases k,
{
    if k > 0 {
        lemma_split(w, a, k - 1);
        lemma_beside_step(w, a, k - 1, w.len() as int);
    } else {
        lemma_beside_none(w, a, w.len() as int);
    }
}

proof fn lemma_ones(a: Seq<usize>, w: Seq<int>, n: int)
    requires
        w == Seq::new(w.len(), |e: int| 1int),
        0 <= n <= w.len(),
    ensures
        total(w, n) == n,
        beside(w, a, a.len() as int, n) >= 0,
        beside(w, a, a.len() as int, n) == 0 ==> forall|e: int| 0 <= e < n ==> listed(a, a.len() as int, e),
    decreases n,
{
    if n > 0 {
        lemma_ones(a, w, n - 1);
    }
}

proof fn lemma_along_ones(a: Seq<usize>, w: Seq<int>, k: int)
    requires
        w == Seq::new(w.len(), |e: int| 1int),
        is_order(a, w.len() as int),
        0 <= k <= a.len(),
    ensures
        along(w, a, k) == k,
    decreases k,
{
    if k > 0 {
        lemma_along_ones(a, w, k - 1);
        assert(a[k - 1] < w.len());
    }
}

/// An order of `n` places leaves none out.
proof fn lemma_all_listed(a: Seq<usize>, n: int)
    requires
        is_order(a, n),
        n >= 0,
    ensures
        forall|e: int| 0 <= e < n ==> listed(a, n, e),
{
    let w = Seq::new(n as nat, |e: int| 1int);
    lemma_split(w, a, n);
    lemma_along_ones(a, w, n);
    lemma_ones(a, w, n);
}

proof fn lemma_beside_all(w: Seq<int>, a: Seq<usize>, n: int)
    requires
        0 <= n <= w.len(),
        forall|e: int| 0 <= e < w.len() ==> listed(a, a.len() as int, e),
    ensures
        beside(w, a, a.len() as int, n) == 0,
    decreases n,
{
    if n > 0 {
        lemma_beside_all(w, a, n - 1);
        assert(listed(a, a.len() as int, n - 1));
    }
}

/// A sum does not depend on the order.
proof fn lemma_any_order(w: Seq<int>, a: Seq<usize>)
    requires
        is_order(a, w.len() as int),
    ensures
        along(w, a, w.len() as int) == total(w, w.len() as int),
{
    lemma_all_listed(a, w.len() as int);
    lemma_split(w, a, w.len() as int);
    lemma_beside_all(w, a, w.len() as int);
}

// ── what goes out of a node and into it ──────────────────────────────────────────────────────

/// What the first `k` arcs carry out of a node.
spec fn sent(links: Seq<Link>, f: Seq<int>, u: int, k: int) -> int
    decreases k,
{
    if k <= 0 { 0 } else { sent(links, f, u, k - 1) + (if links[k - 1].from == u { f[k - 1] } else { 0 }) }
}

/// What the first `k` arcs carry into a node.
spec fn got(links: Seq<Link>, f: Seq<int>, u: int, k: int) -> int
    decreases k,
{
    if k <= 0 { 0 } else { got(links, f, u, k - 1) + (if links[k - 1].to == u { f[k - 1] } else { 0 }) }
}

/// Each of the first `k` arcs carries nothing or one unit.
spec fn unit(f: Seq<int>, k: int) -> bool {
    f.len() == k && forall|i: int| 0 <= i < k ==> 0 <= #[trigger] f[i] <= 1
}

/// What is sent and got, node by node.
spec fn carried(p: NetworkSimplex, flow: Seq<i32>) -> Seq<int> {
    Seq::new(p.arc_num as nat, |k: int| flow[p.arc_id@[k] as int] as int)
}

proof fn lemma_outflow_total(p: NetworkSimplex, flow: Seq<i32>, v: int, w: Seq<int>, k: int)
    requires
        0 <= k <= p.arc_num,
        w == Seq::new(p.arc_num as nat, |e: int| (if p.source@[e] == v { flow[e] as int } else { 0 }) - (if p.target@[e] == v { flow[e] as int } else { 0 })),
    ensures
        outflow(p, flow, v, k) == total(w, k),
    decreases k,
{
    if k > 0 {
        lemma_outflow_total(p, flow, v, w, k - 1);
    }
}

proof fn lemma_along_links(p: NetworkSimplex, g: ListDigraph, links: Seq<Link>, n: int, flow: Seq<i32>, u: int, w: Seq<int>, k: int)
    requires
        graph_of(g, links, n),
        p.wf(),
        p.is_of(g),
        0 <= u < 2 * n + 2,
        0 <= k <= links.len(),
        w == Seq::new(p.arc_num as nat, |e: int| (if p.source@[e] == 2 * n + 1 - u { flow[e] as int } else { 0 }) - (if p.target@[e] == 2 * n + 1 - u { flow[e] as int } else { 0 })),
    ensures
        along(w, p.arc_id@, k) == sent(links, carried(p, flow), u, k) - got(links, carried(p, flow), u, k),
    decreases k,
{
    if k > 0 {
        lemma_along_links(p, g, links, n, flow, u, w, k - 1);
        let e = p.arc_id@[k - 1] as int;
        assert(p.source@[p.arc_id@[k - 1] as int] == 2 * n + 1 - g.src@[k - 1]);
        assert(g.src@[k - 1] == links[k - 1].from);
        assert(g.tgt@[k - 1] == links[k - 1].to);
        assert(carried(p, flow)[k - 1] == flow[e]);
    }
}

/// The balance of a node in terms of the arcs.
proof fn lemma_balance(p: NetworkSimplex, g: ListDigraph, links: Seq<Link>, n: int, flow: Seq<i32>, u: int)
    requires
        graph_of(g, links, n),
        p.wf(),
        p.is_of(g),
        0 <= u < 2 * n + 2,
    ensures
        outflow(p, flow, 2 * n + 1 - u, p.arc_num as int)
            == sent(links, carried(p, flow), u, links.len() as int) - got(links, carried(p, flow), u, links.len() as int),
{
    let v = 2 * n + 1 - u;
    let w = Seq::new(p.arc_num as nat, |e: int| (if p.source@[e] == v { flow[e] as int } else { 0 }) - (if p.target@[e] == v { flow[e] as int } else { 0 }));
    lemma_outflow_total(p, flow, v, w, p.arc_num as int);
    assert(g.src@.len() == links.len());
    assert(is_order(p.arc_id@, w.len() as int));
    lemma_any_order(w, p.arc_id@);
    lemma_along_links(p, g, links, n, flow, u, w, links.len() as int);
}

proof fn lemma_sums_bounded(links: Seq<Link>, f: Seq<int>, u: int, k: int)
    requires
        unit(f, links.len() as int),
        0 <= k <= links.len(),
    ensures
        0 <= sent(links, f, u, k) <= k,
        0 <= got(links, f, u, k) <= k,
    decreases k,
{
    if k > 0 {
        lemma_sums_bounded(links, f, u, k - 1);
        assert(0 <= f[k - 1] <= 1);
    }
}

/// A node that only one arc leaves sends what that arc carries.
proof fn lemma_sent_by_one(links: Seq<Link>, f: Seq<int>, u: int, only: int, k: int)
    requires
        0 <= k <= links.len(),
        forall|i: int| 0 <= i < links.len() ==> ((#[trigger] links[i]).from == u <==> i == only),
    ensures
        sent(links, f, u, k) == (if 0 <= only < k { f[only] } else { 0 }),
    decreases k,
{
    if k > 0 {
        lemma_sent_by_one(links, f, u, only, k - 1);
        assert(links[k - 1].from == u <==> k - 1 == only);
    }
}

/// A node that only one arc enters gets what that arc carries.
proof fn lemma_got_by_one(links: Seq<Link>, f: Seq<int>, u: int, only: int, k: int)
    requires
        0 <= k <= links.len(),
        forall|i: int| 0 <= i < links.len() ==> ((#[trigger] links[i]).to == u <==> i == only),
    ensures
        got(links, f, u, k) == (if 0 <= only < k { f[only] } else { 0 }),
    decreases k,
{
    if k > 0 {
        lemma_got_by_one(links, f, u, only, k - 1);
        assert(links[k - 1].to == u <==> k - 1 == only);
    }
}

/// What two arcs carry out of a node is no more than all that is sent.
proof fn lemma_sent_at_least(links: Seq<Link>, f: Seq<int>, u: int, a: int, b: int, k: int)
    requires
        unit(f, links.len() as int),
        0 <= a < b < links.len(),
        links[a].from == u,
        links[b].from == u,
        0 <= k <= links.len(),
    ensures
        sent(links, f, u, k) >= (if a < k { f[a] } else { 0 }) + (if b < k { f[b] } else { 0 }),
    decreases k,
{
    if k > 0 {
        lemma_sent_at_least(links, f, u, a, b, k - 1);
        assert(0 <= f[k - 1] <= 1);
    }
}

/// What two arcs carry into a node is no more than all that it gets.
proof fn lemma_got_at_least(links: Seq<Link>, f: Seq<int>, u: int, a: int, b: int, k: int)
    requires
        unit(f, links.len() as int),
        0 <= a < b < links.len(),
        links[a].to == u,
        links[b].to == u,
        0 <= k <= links.len(),
    ensures
        got(links, f, u, k) >= (if a < k { f[a] } else { 0 }) + (if b < k { f[b] } else { 0 }),
    decreases k,
{
    if k > 0 {
        lemma_got_at_least(links, f, u, a, b, k - 1);
        assert(0 <= f[k - 1] <= 1);
    }
}

/// Where something is sent, an arc carries it.
proof fn lemma_sent_by_some(links: Seq<Link>, f: Seq<int>, u: int, k: int)
    requires
        unit(f, links.len() as int),
        0 <= k <= links.len(),
        sent(links, f, u, k) > 0,
    ensures
        exists|i: int| 0 <= i < k && (#[trigger] links[i]).from == u && f[i] == 1,
    decreases k,
{
    assert(0 <= f[k - 1] <= 1);
    if links[k - 1].from == u && f[k - 1] == 1 {
        assert(links[k - 1].from == u);
    } else {
        lemma_sent_by_some(links, f, u, k - 1);
    }
}

// ── the shape of the arcs ────────────────────────────────────────────────────────────────────

/// Where the arcs of a cell begin.
spec fn base(l: Land, s: St, nodes: Seq<usize>, i: int) -> int {
    l.links(s, nodes, i).len() as int
}

/// An arc of a cell: into the cell, out of its spot, or from the cell to a spot it may take.
spec fn of_cell(l: Land, s: St, nodes: Seq<usize>, i: int, q: int, link: Link) -> bool {
    let n = nodes.len();
    if q == 0 {
        link.from == 2 * n && link.to == 2 * i && link.pair is None
    } else if q == 1 {
        link.from == 2 * i + 1 && link.to == 2 * n + 1 && link.pair is None
    } else {
        &&& link.from == 2 * i
        &&& link.pair matches Some(c) && c.0 == i && c.1 < n && link.to == 2 * c.1 + 1 && l.may_take(s, nodes, i, c.1 as int)
    }
}

proof fn lemma_cell_links(l: Land, s: St, nodes: Seq<usize>, i: int, j: int)
    requires
        0 <= i < nodes.len(),
        solvable(nodes.len() as int),
        0 <= j <= nodes.len(),
    ensures
        l.cell_links(s, nodes, i, j).len() >= 2,
        forall|q: int| 0 <= q < l.cell_links(s, nodes, i, j).len() ==> of_cell(l, s, nodes, i, q, #[trigger] l.cell_links(s, nodes, i, j)[q]),
    decreases j,
{
    if j > 0 {
        lemma_cell_links(l, s, nodes, i, j - 1);
    }
}

/// An arc is one of a cell.
spec fn in_block(l: Land, s: St, nodes: Seq<usize>, links: Seq<Link>, i: int, k: int) -> bool {
    base(l, s, nodes, i) <= k < base(l, s, nodes, i + 1) && of_cell(l, s, nodes, i, k - base(l, s, nodes, i), links[k])
}

/// An arc is one of the first `n` cells.
spec fn in_some_block(l: Land, s: St, nodes: Seq<usize>, links: Seq<Link>, n: int, k: int) -> bool {
    exists|b: int| 0 <= b < n && #[trigger] in_block(l, s, nodes, links, b, k)
}

proof fn lemma_blocks(l: Land, s: St, nodes: Seq<usize>, i: int)
    requires
        0 <= i <= nodes.len(),
        solvable(nodes.len() as int),
    ensures
        forall|k: int| 0 <= k < base(l, s, nodes, i) ==> #[trigger] in_some_block(l, s, nodes, l.links(s, nodes, i), i, k),
        forall|b: int| 0 <= b < i ==> #[trigger] base(l, s, nodes, b) + 2 <= base(l, s, nodes, b + 1) <= base(l, s, nodes, i),
    decreases i,
{
    if i > 0 {
        lemma_blocks(l, s, nodes, i - 1);
        lemma_cell_links(l, s, nodes, i - 1, nodes.len() as int);
        let (a, c) = (l.links(s, nodes, i - 1), l.cell_links(s, nodes, i - 1, nodes.len() as int));
        let all = l.links(s, nodes, i);
        assert(all == a + c);
        assert forall|k: int| 0 <= k < base(l, s, nodes, i) implies #[trigger] in_some_block(l, s, nodes, all, i, k) by {
            if k < a.len() {
                assert(in_some_block(l, s, nodes, a, i - 1, k));
                assert(all[k] == a[k]);
                let b = choose|b: int| 0 <= b < i - 1 && #[trigger] in_block(l, s, nodes, a, b, k);
                assert(in_block(l, s, nodes, all, b, k));
            } else {
                assert(all[k] == c[k - a.len()]);
                assert(in_block(l, s, nodes, all, i - 1, k));
            }
        }
    }
}

proof fn lemma_base_rises(l: Land, s: St, nodes: Seq<usize>, i: int, j: int)
    requires
        0 <= i < j <= nodes.len(),
        solvable(nodes.len() as int),
    ensures
        base(l, s, nodes, i + 1) <= base(l, s, nodes, j),
        base(l, s, nodes, i) + 2 <= base(l, s, nodes, i + 1),
    decreases j - i,
{
    lemma_blocks(l, s, nodes, j);
}

/// The arc at a place of a cell's arcs is the cell's.
proof fn lemma_own_block(l: Land, s: St, nodes: Seq<usize>, i: int, k: int)
    requires
        0 <= i < nodes.len(),
        solvable(nodes.len() as int),
        base(l, s, nodes, i) <= k < base(l, s, nodes, i + 1),
    ensures
        in_block(l, s, nodes, l.links(s, nodes, nodes.len() as int), i, k),
{
    let n = nodes.len() as int;
    lemma_blocks(l, s, nodes, n);
    assert(base(l, s, nodes, i) + 2 <= base(l, s, nodes, i + 1) <= base(l, s, nodes, n));
    assert(in_some_block(l, s, nodes, l.links(s, nodes, n), n, k));
    let b = choose|b: int| 0 <= b < n && #[trigger] in_block(l, s, nodes, l.links(s, nodes, n), b, k);
    if b < i {
        lemma_base_rises(l, s, nodes, b, i);
    } else if b > i {
        lemma_base_rises(l, s, nodes, i, b);
    }
}

/// Only its first arc enters a cell.
proof fn lemma_one_in(l: Land, s: St, nodes: Seq<usize>, c: int)
    requires
        0 <= c < nodes.len(),
        solvable(nodes.len() as int),
    ensures
        forall|k: int| 0 <= k < l.links(s, nodes, nodes.len() as int).len() ==>
            ((#[trigger] l.links(s, nodes, nodes.len() as int)[k]).to == 2 * c <==> k == base(l, s, nodes, c)),
        base(l, s, nodes, c) + 1 < l.links(s, nodes, nodes.len() as int).len(),
{
    let n = nodes.len() as int;
    let links = l.links(s, nodes, n);
    lemma_blocks(l, s, nodes, n);
    assert(base(l, s, nodes, c) + 2 <= base(l, s, nodes, c + 1) <= base(l, s, nodes, n));
    assert forall|k: int| 0 <= k < links.len() implies ((#[trigger] links[k]).to == 2 * c <==> k == base(l, s, nodes, c)) by {
        assert(in_some_block(l, s, nodes, links, n, k));
        let b = choose|b: int| 0 <= b < n && #[trigger] in_block(l, s, nodes, links, b, k);
        assert(in_block(l, s, nodes, links, b, k));
        if k == base(l, s, nodes, c) {
            lemma_own_block(l, s, nodes, c, k);
        }
    }
}

/// Only its second arc leaves a spot.
proof fn lemma_one_out(l: Land, s: St, nodes: Seq<usize>, c: int)
    requires
        0 <= c < nodes.len(),
        solvable(nodes.len() as int),
    ensures
        forall|k: int| 0 <= k < l.links(s, nodes, nodes.len() as int).len() ==>
            ((#[trigger] l.links(s, nodes, nodes.len() as int)[k]).from == 2 * c + 1 <==> k == base(l, s, nodes, c) + 1),
{
    let n = nodes.len() as int;
    let links = l.links(s, nodes, n);
    lemma_blocks(l, s, nodes, n);
    assert(base(l, s, nodes, c) + 2 <= base(l, s, nodes, c + 1) <= base(l, s, nodes, n));
    assert forall|k: int| 0 <= k < links.len() implies ((#[trigger] links[k]).from == 2 * c + 1 <==> k == base(l, s, nodes, c) + 1) by {
        assert(in_some_block(l, s, nodes, links, n, k));
        let b = choose|b: int| 0 <= b < n && #[trigger] in_block(l, s, nodes, links, b, k);
        assert(in_block(l, s, nodes, links, b, k));
        if k == base(l, s, nodes, c) + 1 {
            lemma_own_block(l, s, nodes, c, k);
        }
    }
}

/// The arcs that stand for a cell stand for one of the list.
proof fn lemma_pair_cells(l: Land, s: St, nodes: Seq<usize>)
    requires
        solvable(nodes.len() as int),
    ensures
        forall|k: int| 0 <= k < l.links(s, nodes, nodes.len() as int).len() ==>
            ((#[trigger] l.links(s, nodes, nodes.len() as int)[k]).pair matches Some(q) ==> q.0 < nodes.len()),
{
    let n = nodes.len() as int;
    let links = l.links(s, nodes, n);
    lemma_blocks(l, s, nodes, n);
    assert forall|k: int| 0 <= k < links.len() implies ((#[trigger] links[k]).pair matches Some(q) ==> q.0 < n) by {
        assert(in_some_block(l, s, nodes, links, n, k));
        let b = choose|b: int| 0 <= b < n && #[trigger] in_block(l, s, nodes, links, b, k);
        assert(in_block(l, s, nodes, links, b, k));
    }
}

/// Within the arcs of a cell, only the first leaves the source.
proof fn lemma_sent_in_block(l: Land, s: St, nodes: Seq<usize>, f: Seq<int>, i: int, k: int)
    requires
        0 <= i < nodes.len(),
        solvable(nodes.len() as int),
        base(l, s, nodes, i) < k <= base(l, s, nodes, i + 1),
    ensures
        sent(l.links(s, nodes, nodes.len() as int), f, 2 * nodes.len() as int, k)
            == sent(l.links(s, nodes, nodes.len() as int), f, 2 * nodes.len() as int, base(l, s, nodes, i)) + f[base(l, s, nodes, i)],
    decreases k,
{
    lemma_own_block(l, s, nodes, i, k - 1);
    if k - 1 > base(l, s, nodes, i) {
        lemma_sent_in_block(l, s, nodes, f, i, k - 1);
    }
}

/// The source sends at most a unit to each cell, and if it sends that many, one to each.
proof fn lemma_source(l: Land, s: St, nodes: Seq<usize>, f: Seq<int>, i: int)
    requires
        0 <= i <= nodes.len(),
        solvable(nodes.len() as int),
        unit(f, l.links(s, nodes, nodes.len() as int).len() as int),
    ensures
        sent(l.links(s, nodes, nodes.len() as int), f, 2 * nodes.len() as int, base(l, s, nodes, i)) <= i,
        sent(l.links(s, nodes, nodes.len() as int), f, 2 * nodes.len() as int, base(l, s, nodes, i)) == i ==>
            forall|c: int| 0 <= c < i ==> f[#[trigger] base(l, s, nodes, c)] == 1,
    decreases i,
{
    if i > 0 {
        lemma_source(l, s, nodes, f, i - 1);
        lemma_blocks(l, s, nodes, nodes.len() as int);
        assert(base(l, s, nodes, i - 1) + 2 <= base(l, s, nodes, i) <= base(l, s, nodes, nodes.len() as int));
        lemma_sent_in_block(l, s, nodes, f, i - 1, base(l, s, nodes, i));
        assert(f[base(l, s, nodes, i - 1)] <= 1);
    }
}

proof fn lemma_spot_count(p: NetworkSimplex, flow: Seq<i32>, links: Seq<Link>, n: int, k: int)
    requires
        0 <= k <= links.len(),
        forall|i: int| 0 <= i < links.len() ==> ((#[trigger] links[i]).pair matches Some(q) ==> q.0 < n),
        0 <= n,
    ensures
        spots(p, flow, links, n, k).len() == n,
    decreases k,
{
    if k > 0 {
        lemma_spot_count(p, flow, links, n, k - 1);
        assert(links[k - 1].pair matches Some(q) ==> q.0 < n);
    }
}

/// The spot of a cell is that of the one arc of the cell that carries something.
proof fn lemma_spot(p: NetworkSimplex, flow: Seq<i32>, links: Seq<Link>, n: int, c: int, only: int, k: int)
    requires
        0 <= only < links.len(),
        0 <= k <= links.len(),
        0 <= c < n,
        forall|i: int| 0 <= i < links.len() ==> ((#[trigger] links[i]).pair matches Some(q) ==> q.0 < n),
        links[only].pair matches Some(q) && q.0 == c,
        flow[p.arc_id@[only] as int] != 0,
        forall|i: int| 0 <= i < links.len() && i != only && ((#[trigger] links[i]).pair matches Some(q) && q.0 == c) ==> flow[p.arc_id@[i] as int] == 0,
    ensures
        k > only ==> spots(p, flow, links, n, k)[c] == links[only].pair->Some_0.1,
    decreases k,
{
    if k > 0 {
        lemma_spot(p, flow, links, n, c, only, k - 1);
        lemma_spot_count(p, flow, links, n, k - 1);
        assert(links[k - 1].pair matches Some(q) ==> q.0 < n);
    }
}

/// The arc that gives a cell its spot: the only one out of the cell that carries something.
spec fn gives(links: Seq<Link>, f: Seq<int>, c: int, k: int) -> bool {
    &&& 0 <= k < links.len()
    &&& links[k].from == 2 * c
    &&& f[k] == 1
    &&& forall|i: int| 0 <= i < links.len() && i != k && (#[trigger] links[i]).from == 2 * c ==> f[i] == 0
}

proof fn lemma_gives(l: Land, s: St, nodes: Seq<usize>, p: NetworkSimplex, g: ListDigraph, flow: Seq<i32>, c: int) -> (k: int)
    requires
        0 <= c < nodes.len(),
        solvable(nodes.len() as int),
        graph_of(g, l.links(s, nodes, nodes.len() as int), nodes.len() as int),
        assigns(p, g, l.links(s, nodes, nodes.len() as int), nodes.len() as int),
        p.meets(flow),
        unit(carried(p, flow), l.links(s, nodes, nodes.len() as int).len() as int),
    ensures
        gives(l.links(s, nodes, nodes.len() as int), carried(p, flow), c, k),
{
    let n = nodes.len() as int;
    let links = l.links(s, nodes, n);
    let f = carried(p, flow);
    let m = links.len() as int;
    assert(g.src@.len() == m);
    // The source sends a unit to every cell.
    lemma_balance(p, g, links, n, flow, 2 * n);
    lemma_degrees(l, s, nodes, f, 2 * n);
    lemma_into_source(l, s, nodes, f, m);
    assert(p.supply@[2 * n + 1 - 2 * n] == n);
    assert(same32(outflow(p, flow, 1, p.arc_num as int), p.supply@[1] as int));
    assert(sent(links, f, 2 * n, m) == n);
    lemma_source(l, s, nodes, f, n);
    assert(f[base(l, s, nodes, c)] == 1);
    // The cell passes it on.
    lemma_balance(p, g, links, n, flow, 2 * c);
    lemma_degrees(l, s, nodes, f, 2 * c);
    assert(p.supply@[2 * n + 1 - 2 * c] == 0);
    assert(same32(outflow(p, flow, 2 * n + 1 - 2 * c, p.arc_num as int), p.supply@[2 * n + 1 - 2 * c] as int));
    lemma_one_in(l, s, nodes, c);
    lemma_got_by_one(links, f, 2 * c, base(l, s, nodes, c), m);
    assert(sent(links, f, 2 * c, m) == 1);
    lemma_sent_by_some(links, f, 2 * c, m);
    let k = choose|i: int| 0 <= i < m && (#[trigger] links[i]).from == 2 * c && f[i] == 1;
    assert forall|i: int| 0 <= i < m && i != k && (#[trigger] links[i]).from == 2 * c implies f[i] == 0 by {
        if i < k {
            lemma_sent_at_least(links, f, 2 * c, i, k, m);
        } else {
            lemma_sent_at_least(links, f, 2 * c, k, i, m);
        }
    }
    k
}

/// No arc enters the source.
proof fn lemma_into_source(l: Land, s: St, nodes: Seq<usize>, f: Seq<int>, k: int)
    requires
        solvable(nodes.len() as int),
        0 <= k <= l.links(s, nodes, nodes.len() as int).len(),
    ensures
        got(l.links(s, nodes, nodes.len() as int), f, 2 * nodes.len() as int, k) == 0,
    decreases k,
{
    if k > 0 {
        let n = nodes.len() as int;
        lemma_into_source(l, s, nodes, f, k - 1);
        lemma_blocks(l, s, nodes, n);
        let links = l.links(s, nodes, n);
        assert(in_some_block(l, s, nodes, links, n, k - 1));
        let b = choose|b: int| 0 <= b < n && #[trigger] in_block(l, s, nodes, links, b, k - 1);
        assert(in_block(l, s, nodes, links, b, k - 1));
    }
}

/// Matching gives every cell one spot that it may take, and no two cells the same spot.
pub proof fn law_matching_is_one_to_one(l: Land, s: St, nodes: Seq<usize>, p: NetworkSimplex, g: ListDigraph, block: int, flow: Seq<i32>)
    requires
        solvable(nodes.len() as int),
        l.solves(s, nodes, p, g, block, flow),
        p.finds(block),
    ensures
        ({
            let links = l.links(s, nodes, nodes.len() as int);
            let to = spots(p, flow, links, nodes.len() as int, links.len() as int);
            &&& to.len() == nodes.len()
            &&& forall|i: int| 0 <= i < nodes.len() ==> #[trigger] to[i] < nodes.len() && l.may_take(s, nodes, i, to[i] as int)
            &&& forall|i: int, j: int| 0 <= i < j < nodes.len() ==> #[trigger] to[i] != #[trigger] to[j]
        }),
{
    let n = nodes.len() as int;
    let links = l.links(s, nodes, n);
    let m = links.len() as int;
    let to = spots(p, flow, links, n, m);
    let f = carried(p, flow);
    lemma_unit(p, g, links, n, flow);
    lemma_pair_cells(l, s, nodes);
    lemma_spot_count(p, flow, links, n, m);
    assert forall|i: int| 0 <= i < n implies #[trigger] to[i] < n && l.may_take(s, nodes, i, to[i] as int) by {
        lemma_spot_of(l, s, nodes, p, g, flow, i);
    }
    assert forall|i: int, j: int| 0 <= i < j < n implies #[trigger] to[i] != #[trigger] to[j] by {
        let a = lemma_spot_of(l, s, nodes, p, g, flow, i);
        let b = lemma_spot_of(l, s, nodes, p, g, flow, j);
        if to[i] == to[j] {
            let c = to[i] as int;
            lemma_one_out(l, s, nodes, c);
            lemma_one_in(l, s, nodes, c);
            lemma_sent_by_one(links, f, 2 * c + 1, base(l, s, nodes, c) + 1, m);
            if a < b {
                lemma_got_at_least(links, f, 2 * c + 1, a, b, m);
            } else {
                lemma_got_at_least(links, f, 2 * c + 1, b, a, m);
            }
            lemma_balance(p, g, links, n, flow, 2 * c + 1);
            lemma_degrees(l, s, nodes, f, 2 * c + 1);
            assert(p.supply@[2 * n + 1 - (2 * c + 1)] == 0);
            assert(same32(outflow(p, flow, 2 * n - 2 * c, p.arc_num as int), p.supply@[2 * n - 2 * c] as int));
            assert(f[base(l, s, nodes, c) + 1] <= 1);
        }
    }
}

proof fn lemma_unit(p: NetworkSimplex, g: ListDigraph, links: Seq<Link>, n: int, flow: Seq<i32>)
    requires
        graph_of(g, links, n),
        assigns(p, g, links, n),
        p.meets(flow),
    ensures
        unit(carried(p, flow), links.len() as int),
{
    assert(g.src@.len() == links.len());
    let f = carried(p, flow);
    assert forall|k: int| 0 <= k < links.len() implies 0 <= #[trigger] f[k] <= 1 by {
        let e = p.arc_id@[k] as int;
        assert(p.lower@[p.arc_id@[k] as int] == 0);
        assert(p.lower@[e] <= flow[e] <= p.upper@[e]);
    }
}

/// The arc that gives a cell its spot, and what follows for the spot.
proof fn lemma_spot_of(l: Land, s: St, nodes: Seq<usize>, p: NetworkSimplex, g: ListDigraph, flow: Seq<i32>, i: int) -> (k: int)
    requires
        0 <= i < nodes.len(),
        solvable(nodes.len() as int),
        graph_of(g, l.links(s, nodes, nodes.len() as int), nodes.len() as int),
        assigns(p, g, l.links(s, nodes, nodes.len() as int), nodes.len() as int),
        p.meets(flow),
        unit(carried(p, flow), l.links(s, nodes, nodes.len() as int).len() as int),
    ensures
        ({
            let links = l.links(s, nodes, nodes.len() as int);
            let to = spots(p, flow, links, nodes.len() as int, links.len() as int);
            &&& gives(links, carried(p, flow), i, k)
            &&& to[i] < nodes.len()
            &&& links[k].to == 2 * to[i] + 1
            &&& l.may_take(s, nodes, i, to[i] as int)
        }),
{
    let n = nodes.len() as int;
    let links = l.links(s, nodes, n);
    let f = carried(p, flow);
    assert(g.src@.len() == links.len());
    let k = lemma_gives(l, s, nodes, p, g, flow, i);
    lemma_blocks(l, s, nodes, n);
    assert(in_some_block(l, s, nodes, links, n, k));
    let b = choose|b: int| 0 <= b < n && #[trigger] in_block(l, s, nodes, links, b, k);
    assert(in_block(l, s, nodes, links, b, k));
    assert(b == i && k - base(l, s, nodes, b) > 1);
    assert(f[k] == flow[p.arc_id@[k] as int]);
    assert forall|q: int| 0 <= q < links.len() && q != k && ((#[trigger] links[q]).pair matches Some(c) && c.0 == i) implies flow[p.arc_id@[q] as int] == 0 by {
        assert(in_some_block(l, s, nodes, links, n, q));
        let d = choose|d: int| 0 <= d < n && #[trigger] in_block(l, s, nodes, links, d, q);
        assert(in_block(l, s, nodes, links, d, q));
        assert(links[q].from == 2 * i);
        assert(f[q] == flow[p.arc_id@[q] as int]);
    }
    lemma_pair_cells(l, s, nodes);
    lemma_spot(p, flow, links, n, i, k, links.len() as int);
    k
}

// ── the cheapest assignment ──────────────────────────────────────────────────────────────────

/// The spots are ones that the cells may take, and no two are the same.
pub open spec fn is_choice(l: Land, s: St, nodes: Seq<usize>, to: Seq<usize>) -> bool {
    &&& to.len() == nodes.len()
    &&& forall|i: int| 0 <= i < nodes.len() ==> #[trigger] to[i] < nodes.len() && l.may_take(s, nodes, i, to[i] as int)
    &&& forall|i: int, j: int| 0 <= i < j < nodes.len() ==> #[trigger] to[i] != #[trigger] to[j]
}

/// What the first `k` cells cost at their spots.
pub open spec fn choice_cost(l: Land, s: St, nodes: Seq<usize>, to: Seq<usize>, k: int) -> int
    decreases k,
{
    if k <= 0 { 0 } else { choice_cost(l, s, nodes, to, k - 1) + l.pair_link(s, nodes, k - 1, to[k - 1] as int).cost }
}

/// Whether an arc carries a unit if the cells take some spots.
spec fn takes(link: Link, to: Seq<usize>) -> bool {
    match link.pair {
        Some((i, j)) => to[i as int] == j,
        None => true,
    }
}

/// The arc of the graph that is kept at a place.
spec fn arc_at(p: NetworkSimplex, e: int) -> int {
    choose|k: int| 0 <= k < p.arc_num && #[trigger] p.arc_id@[k] == e
}

/// The flow of some spots.
spec fn flow_of(p: NetworkSimplex, links: Seq<Link>, to: Seq<usize>) -> Seq<i32> {
    Seq::new(p.arc_num as nat, |e: int| if takes(links[arc_at(p, e)], to) { 1i32 } else { 0i32 })
}

/// What the arcs carry if the cells take some spots.
spec fn taken(links: Seq<Link>, to: Seq<usize>) -> Seq<int> {
    Seq::new(links.len(), |k: int| if takes(links[k], to) { 1int } else { 0 })
}

proof fn lemma_flow_of(p: NetworkSimplex, links: Seq<Link>, to: Seq<usize>)
    requires
        p.wf(),
        p.arc_num == links.len(),
    ensures
        carried(p, flow_of(p, links, to)) == taken(links, to),
{
    let (a, b) = (carried(p, flow_of(p, links, to)), taken(links, to));
    assert forall|k: int| 0 <= k < links.len() implies a[k] == b[k] by {
        let e = p.arc_id@[k] as int;
        let q = arc_at(p, e);
        assert(0 <= q < p.arc_num && p.arc_id@[q] == e);
        if q != k {
            if q < k {
                assert(p.arc_id@[q] != p.arc_id@[k]);
            } else {
                assert(p.arc_id@[k] != p.arc_id@[q]);
            }
        }
    }
    assert(a =~= b);
}

/// The arcs of a cell to spots are in the order of the spots, one for each spot it may take.
proof fn lemma_spot_arcs(l: Land, s: St, nodes: Seq<usize>, i: int, j: int)
    requires
        0 <= i < nodes.len(),
        solvable(nodes.len() as int),
        0 <= j <= nodes.len(),
    ensures
        forall|q: int| 2 <= q < l.cell_links(s, nodes, i, j).len() ==>
            ((#[trigger] l.cell_links(s, nodes, i, j)[q]).pair matches Some(c) && c.1 < j),
        forall|q: int, r: int| 2 <= q < r < l.cell_links(s, nodes, i, j).len() ==>
            (#[trigger] l.cell_links(s, nodes, i, j)[q]).pair->Some_0.1 < (#[trigger] l.cell_links(s, nodes, i, j)[r]).pair->Some_0.1,
    decreases j,
{
    lemma_cell_links(l, s, nodes, i, j);
    if j > 0 {
        lemma_spot_arcs(l, s, nodes, i, j - 1);
        lemma_cell_links(l, s, nodes, i, j - 1);
        let (a, b) = (l.cell_links(s, nodes, i, j - 1), l.cell_links(s, nodes, i, j));
        assert forall|q: int| 2 <= q < b.len() implies ((#[trigger] b[q]).pair matches Some(c) && c.1 < j) by {
            if q < a.len() {
                assert(b[q] == a[q]);
            }
        }
        assert forall|q: int, r: int| 2 <= q < r < b.len() implies (#[trigger] b[q]).pair->Some_0.1 < (#[trigger] b[r]).pair->Some_0.1 by {
            assert(b[q] == a[q]);
            if r < a.len() {
                assert(b[r] == a[r]);
            }
        }
    }
}

proof fn lemma_spot_arc(l: Land, s: St, nodes: Seq<usize>, i: int, j: int, t: int) -> (q: int)
    requires
        0 <= i < nodes.len(),
        solvable(nodes.len() as int),
        0 <= t < j <= nodes.len(),
        l.may_take(s, nodes, i, t),
    ensures
        2 <= q < l.cell_links(s, nodes, i, j).len(),
        l.cell_links(s, nodes, i, j)[q] == l.pair_link(s, nodes, i, t),
    decreases j,
{
    lemma_cell_links(l, s, nodes, i, j - 1);
    if t == j - 1 {
        l.cell_links(s, nodes, i, j - 1).len() as int
    } else {
        lemma_spot_arc(l, s, nodes, i, j - 1, t)
    }
}

proof fn lemma_block_is(l: Land, s: St, nodes: Seq<usize>, i: int, j: int, q: int)
    requires
        0 <= i < j <= nodes.len(),
        solvable(nodes.len() as int),
        0 <= q < l.cell_links(s, nodes, i, nodes.len() as int).len(),
    ensures
        base(l, s, nodes, i) + q < base(l, s, nodes, i + 1),
        base(l, s, nodes, i) + q < base(l, s, nodes, j),
        l.links(s, nodes, j)[base(l, s, nodes, i) + q] == l.cell_links(s, nodes, i, nodes.len() as int)[q],
    decreases j,
{
    if i < j - 1 {
        lemma_block_is(l, s, nodes, i, j - 1, q);
    }
}

/// The one arc from a cell to a spot that it may take.
proof fn lemma_pair_arc(l: Land, s: St, nodes: Seq<usize>, i: int, t: int) -> (k: int)
    requires
        0 <= i < nodes.len(),
        solvable(nodes.len() as int),
        0 <= t < nodes.len(),
        l.may_take(s, nodes, i, t),
    ensures
        base(l, s, nodes, i) + 2 <= k < base(l, s, nodes, i + 1) <= l.links(s, nodes, nodes.len() as int).len(),
        l.links(s, nodes, nodes.len() as int)[k] == l.pair_link(s, nodes, i, t),
        forall|j: int| 0 <= j < l.links(s, nodes, nodes.len() as int).len() && j != k ==>
            (#[trigger] l.links(s, nodes, nodes.len() as int)[j]).pair != Some((i as usize, t as usize)),
{
    let n = nodes.len() as int;
    let links = l.links(s, nodes, n);
    let mine = l.cell_links(s, nodes, i, n);
    let q = lemma_spot_arc(l, s, nodes, i, n, t);
    lemma_block_is(l, s, nodes, i, n, q);
    let k = base(l, s, nodes, i) + q;
    lemma_blocks(l, s, nodes, n);
    assert(base(l, s, nodes, i) + 2 <= base(l, s, nodes, i + 1) <= base(l, s, nodes, n));
    lemma_spot_arcs(l, s, nodes, i, n);
    assert forall|j: int| 0 <= j < links.len() && j != k implies (#[trigger] links[j]).pair != Some((i as usize, t as usize)) by {
        assert(in_some_block(l, s, nodes, links, n, j));
        let b = choose|b: int| 0 <= b < n && #[trigger] in_block(l, s, nodes, links, b, j);
        assert(in_block(l, s, nodes, links, b, j));
        if links[j].pair == Some((i as usize, t as usize)) {
            assert(b == i);
            let r = j - base(l, s, nodes, i);
            assert(base(l, s, nodes, i + 1) == base(l, s, nodes, i) + mine.len());
            lemma_block_is(l, s, nodes, i, n, r);
            assert(mine[r].pair->Some_0.1 == t && mine[q].pair->Some_0.1 == t);
            assert(r >= 2);
            if r < q {
                assert(mine[r].pair->Some_0.1 < mine[q].pair->Some_0.1);
            } else {
                assert(mine[q].pair->Some_0.1 < mine[r].pair->Some_0.1);
            }
        }
    }
    k
}

/// The arcs of a cell are no more than the spots there are, and two.
proof fn lemma_block_len(l: Land, s: St, nodes: Seq<usize>, i: int, j: int)
    requires
        0 <= j,
    ensures
        l.cell_links(s, nodes, i, j).len() <= j + 2,
    decreases j,
{
    if j > 0 {
        lemma_block_len(l, s, nodes, i, j - 1);
    }
}

/// Of the arcs of a cell, at most one enters a node.
proof fn lemma_got_within(l: Land, s: St, nodes: Seq<usize>, f: Seq<int>, u: int, i: int, k: int)
    requires
        0 <= i < nodes.len(),
        solvable(nodes.len() as int),
        unit(f, l.links(s, nodes, nodes.len() as int).len() as int),
        base(l, s, nodes, i) <= k <= base(l, s, nodes, i + 1),
    ensures
        got(l.links(s, nodes, nodes.len() as int), f, u, k) <= got(l.links(s, nodes, nodes.len() as int), f, u, base(l, s, nodes, i)) + 1,
        (forall|q: int| base(l, s, nodes, i) <= q < k ==> (#[trigger] l.links(s, nodes, nodes.len() as int)[q]).to != u)
            ==> got(l.links(s, nodes, nodes.len() as int), f, u, k) == got(l.links(s, nodes, nodes.len() as int), f, u, base(l, s, nodes, i)),
    decreases k,
{
    let n = nodes.len() as int;
    let links = l.links(s, nodes, n);
    let b = base(l, s, nodes, i);
    if k > b {
        lemma_got_within(l, s, nodes, f, u, i, k - 1);
        lemma_blocks(l, s, nodes, n);
        assert(b + 2 <= base(l, s, nodes, i + 1) <= base(l, s, nodes, n));
        assert(0 <= f[k - 1] <= 1);
        if links[k - 1].to == u {
            lemma_own_block(l, s, nodes, i, k - 1);
            assert forall|q: int| b <= q < k - 1 implies (#[trigger] links[q]).to != u by {
                lemma_own_block(l, s, nodes, i, q);
                if links[q].to == u {
                    assert(q - b >= 2);
                    let t = links[q].pair->Some_0.1 as int;
                    let a = lemma_pair_arc(l, s, nodes, i, t);
                    assert(links[q].pair == Some((i as usize, t as usize)));
                    assert(links[k - 1].pair == Some((i as usize, t as usize)));
                    assert(q == a && k - 1 == a);
                }
            }
        }
    }
}

/// A node gets at most a unit from the arcs of each cell.
proof fn lemma_got_bound(l: Land, s: St, nodes: Seq<usize>, f: Seq<int>, u: int, i: int)
    requires
        0 <= i <= nodes.len(),
        solvable(nodes.len() as int),
        unit(f, l.links(s, nodes, nodes.len() as int).len() as int),
    ensures
        got(l.links(s, nodes, nodes.len() as int), f, u, base(l, s, nodes, i)) <= i,
    decreases i,
{
    if i > 0 {
        lemma_got_bound(l, s, nodes, f, u, i - 1);
        lemma_base_rises(l, s, nodes, i - 1, i);
        lemma_got_within(l, s, nodes, f, u, i - 1, base(l, s, nodes, i));
    }
}

/// The arcs of a cell leave only the source, the cell and its spot.
proof fn lemma_sent_within(l: Land, s: St, nodes: Seq<usize>, f: Seq<int>, u: int, i: int, k: int)
    requires
        0 <= i < nodes.len(),
        solvable(nodes.len() as int),
        unit(f, l.links(s, nodes, nodes.len() as int).len() as int),
        base(l, s, nodes, i) <= k <= base(l, s, nodes, i + 1),
        0 <= u < 2 * nodes.len(),
    ensures
        sent(l.links(s, nodes, nodes.len() as int), f, u, k)
            <= sent(l.links(s, nodes, nodes.len() as int), f, u, base(l, s, nodes, i)) + (if u / 2 == i { k - base(l, s, nodes, i) } else { 0 }),
    decreases k,
{
    if k > base(l, s, nodes, i) {
        lemma_sent_within(l, s, nodes, f, u, i, k - 1);
        lemma_blocks(l, s, nodes, nodes.len() as int);
        assert(base(l, s, nodes, i) + 2 <= base(l, s, nodes, i + 1) <= base(l, s, nodes, nodes.len() as int));
        lemma_own_block(l, s, nodes, i, k - 1);
        assert(0 <= f[k - 1] <= 1);
    }
}

/// A cell or a spot sends no more than its own arcs carry.
proof fn lemma_sent_bound(l: Land, s: St, nodes: Seq<usize>, f: Seq<int>, u: int, i: int)
    requires
        0 <= i <= nodes.len(),
        solvable(nodes.len() as int),
        unit(f, l.links(s, nodes, nodes.len() as int).len() as int),
        0 <= u < 2 * nodes.len(),
    ensures
        sent(l.links(s, nodes, nodes.len() as int), f, u, base(l, s, nodes, i)) <= (if u / 2 < i { nodes.len() + 2 } else { 0 }),
    decreases i,
{
    if i > 0 {
        let n = nodes.len() as int;
        lemma_sent_bound(l, s, nodes, f, u, i - 1);
        lemma_base_rises(l, s, nodes, i - 1, i);
        lemma_sent_within(l, s, nodes, f, u, i - 1, base(l, s, nodes, i));
        lemma_block_len(l, s, nodes, i - 1, n);
        assert(l.links(s, nodes, i) == l.links(s, nodes, i - 1) + l.cell_links(s, nodes, i - 1, n));
    }
}

/// What a node sends and gets, where arcs carry at most one unit.
proof fn lemma_degrees(l: Land, s: St, nodes: Seq<usize>, f: Seq<int>, u: int)
    requires
        solvable(nodes.len() as int),
        unit(f, l.links(s, nodes, nodes.len() as int).len() as int),
        0 <= u < 2 * nodes.len() + 2,
    ensures
        0 <= sent(l.links(s, nodes, nodes.len() as int), f, u, base(l, s, nodes, nodes.len() as int)) <= nodes.len() + 2,
        0 <= got(l.links(s, nodes, nodes.len() as int), f, u, base(l, s, nodes, nodes.len() as int)) <= nodes.len(),
{
    let n = nodes.len() as int;
    lemma_sums_bounded(l.links(s, nodes, n), f, u, base(l, s, nodes, n));
    lemma_got_bound(l, s, nodes, f, u, n);
    if u == 2 * n {
        lemma_source(l, s, nodes, f, n);
    } else if u == 2 * n + 1 {
        lemma_out_of_sink(l, s, nodes, f, base(l, s, nodes, n));
    } else {
        lemma_sent_bound(l, s, nodes, f, u, n);
    }
}

proof fn lemma_sent_exactly(links: Seq<Link>, f: Seq<int>, u: int, only: int, k: int)
    requires
        0 <= k <= links.len(),
        0 <= only < links.len(),
        links[only].from == u,
        f[only] == 1,
        forall|i: int| 0 <= i < links.len() && i != only && (#[trigger] links[i]).from == u ==> f[i] == 0,
    ensures
        sent(links, f, u, k) == (if only < k { 1int } else { 0 }),
    decreases k,
{
    if k > 0 {
        lemma_sent_exactly(links, f, u, only, k - 1);
        assert(k - 1 != only && links[k - 1].from == u ==> f[k - 1] == 0);
    }
}

proof fn lemma_got_exactly(links: Seq<Link>, f: Seq<int>, u: int, only: int, k: int)
    requires
        0 <= k <= links.len(),
        0 <= only < links.len(),
        links[only].to == u,
        f[only] == 1,
        forall|i: int| 0 <= i < links.len() && i != only && (#[trigger] links[i]).to == u ==> f[i] == 0,
    ensures
        got(links, f, u, k) == (if only < k { 1int } else { 0 }),
    decreases k,
{
    if k > 0 {
        lemma_got_exactly(links, f, u, only, k - 1);
        assert(k - 1 != only && links[k - 1].to == u ==> f[k - 1] == 0);
    }
}

/// Within the arcs of a cell, only the second enters the sink.
proof fn lemma_got_in_block(l: Land, s: St, nodes: Seq<usize>, f: Seq<int>, i: int, k: int)
    requires
        0 <= i < nodes.len(),
        solvable(nodes.len() as int),
        base(l, s, nodes, i) <= k <= base(l, s, nodes, i + 1),
    ensures
        got(l.links(s, nodes, nodes.len() as int), f, 2 * nodes.len() as int + 1, k)
            == got(l.links(s, nodes, nodes.len() as int), f, 2 * nodes.len() as int + 1, base(l, s, nodes, i))
                + (if k > base(l, s, nodes, i) + 1 { f[base(l, s, nodes, i) + 1] } else { 0 }),
    decreases k,
{
    if k > base(l, s, nodes, i) {
        lemma_own_block(l, s, nodes, i, k - 1);
        lemma_got_in_block(l, s, nodes, f, i, k - 1);
    }
}

/// If every cell's first two arcs carry a unit, the source sends one for each cell, and the sink gets as
/// many.
proof fn lemma_full(l: Land, s: St, nodes: Seq<usize>, f: Seq<int>, i: int)
    requires
        0 <= i <= nodes.len(),
        solvable(nodes.len() as int),
        forall|c: int| 0 <= c < nodes.len() ==> f[#[trigger] base(l, s, nodes, c)] == 1 && f[base(l, s, nodes, c) + 1] == 1,
    ensures
        sent(l.links(s, nodes, nodes.len() as int), f, 2 * nodes.len() as int, base(l, s, nodes, i)) == i,
        got(l.links(s, nodes, nodes.len() as int), f, 2 * nodes.len() as int + 1, base(l, s, nodes, i)) == i,
    decreases i,
{
    if i > 0 {
        lemma_full(l, s, nodes, f, i - 1);
        lemma_blocks(l, s, nodes, nodes.len() as int);
        assert(base(l, s, nodes, i - 1) + 2 <= base(l, s, nodes, i) <= base(l, s, nodes, nodes.len() as int));
        lemma_sent_in_block(l, s, nodes, f, i - 1, base(l, s, nodes, i));
        lemma_got_in_block(l, s, nodes, f, i - 1, base(l, s, nodes, i));
        assert(f[base(l, s, nodes, i - 1)] == 1);
    }
}

/// No arc leaves the sink.
proof fn lemma_out_of_sink(l: Land, s: St, nodes: Seq<usize>, f: Seq<int>, k: int)
    requires
        solvable(nodes.len() as int),
        0 <= k <= l.links(s, nodes, nodes.len() as int).len(),
    ensures
        sent(l.links(s, nodes, nodes.len() as int), f, 2 * nodes.len() as int + 1, k) == 0,
    decreases k,
{
    if k > 0 {
        let n = nodes.len() as int;
        lemma_out_of_sink(l, s, nodes, f, k - 1);
        lemma_blocks(l, s, nodes, n);
        let links = l.links(s, nodes, n);
        assert(in_some_block(l, s, nodes, links, n, k - 1));
        let b = choose|b: int| 0 <= b < n && #[trigger] in_block(l, s, nodes, links, b, k - 1);
        assert(in_block(l, s, nodes, links, b, k - 1));
    }
}

/// With spots that the cells may take, every node sends what it gets, but for the source and the sink.
proof fn lemma_taken_balance(l: Land, s: St, nodes: Seq<usize>, to: Seq<usize>, u: int)
    requires
        solvable(nodes.len() as int),
        is_choice(l, s, nodes, to),
        0 <= u < 2 * nodes.len() + 2,
    ensures
        ({
            let n = nodes.len() as int;
            let links = l.links(s, nodes, n);
            sent(links, taken(links, to), u, links.len() as int) - got(links, taken(links, to), u, links.len() as int)
                == (if u == 2 * n + 1 { -n } else if u == 2 * n { n } else { 0 })
        }),
{
    let n = nodes.len() as int;
    let links = l.links(s, nodes, n);
    let m = links.len() as int;
    let f = taken(links, to);
    assert forall|c: int| 0 <= c < n implies f[#[trigger] base(l, s, nodes, c)] == 1 && f[base(l, s, nodes, c) + 1] == 1 by {
        lemma_one_in(l, s, nodes, c);
        lemma_base_rises(l, s, nodes, c, n);
        lemma_own_block(l, s, nodes, c, base(l, s, nodes, c));
        lemma_own_block(l, s, nodes, c, base(l, s, nodes, c) + 1);
    }
    if u == 2 * n {
        lemma_full(l, s, nodes, f, n);
        lemma_into_source(l, s, nodes, f, m);
    } else if u == 2 * n + 1 {
        lemma_full(l, s, nodes, f, n);
        lemma_out_of_sink(l, s, nodes, f, m);
    } else if u % 2 == 0 {
        let c = u / 2;
        lemma_one_in(l, s, nodes, c);
        lemma_got_by_one(links, f, u, base(l, s, nodes, c), m);
        assert(to[c] < n);
        let k = lemma_pair_arc(l, s, nodes, c, to[c] as int);
        lemma_blocks(l, s, nodes, n);
        assert forall|i: int| 0 <= i < m && i != k && (#[trigger] links[i]).from == u implies f[i] == 0 by {
            assert(in_some_block(l, s, nodes, links, n, i));
            let b = choose|b: int| 0 <= b < n && #[trigger] in_block(l, s, nodes, links, b, i);
            assert(in_block(l, s, nodes, links, b, i));
        }
        lemma_sent_exactly(links, f, u, k, m);
        assert(f[base(l, s, nodes, c)] == 1);
    } else {
        let j = u / 2;
        lemma_one_out(l, s, nodes, j);
        lemma_one_in(l, s, nodes, j);
        lemma_sent_by_one(links, f, u, base(l, s, nodes, j) + 1, m);
        assert(is_order(to, n));
        lemma_all_listed(to, n);
        assert(listed(to, n, j));
        let c = choose|c: int| 0 <= c < n && #[trigger] to[c] == j;
        let k = lemma_pair_arc(l, s, nodes, c, j);
        lemma_blocks(l, s, nodes, n);
        assert forall|i: int| 0 <= i < m && i != k && (#[trigger] links[i]).to == u implies f[i] == 0 by {
            assert(in_some_block(l, s, nodes, links, n, i));
            let b = choose|b: int| 0 <= b < n && #[trigger] in_block(l, s, nodes, links, b, i);
            assert(in_block(l, s, nodes, links, b, i));
            if f[i] != 0 {
                assert(to[b] == j);
                if b < c {
                    assert(to[b] != to[c]);
                } else if c < b {
                    assert(to[c] != to[b]);
                }
            }
        }
        lemma_got_exactly(links, f, u, k, m);
        assert(f[base(l, s, nodes, j)] == 1);
    }
}

/// What the first `k` arcs cost with what they carry.
spec fn value(links: Seq<Link>, f: Seq<int>, k: int) -> int
    decreases k,
{
    if k <= 0 { 0 } else { value(links, f, k - 1) + links[k - 1].cost * f[k - 1] }
}

proof fn lemma_price_total(p: NetworkSimplex, flow: Seq<i32>, w: Seq<int>, k: int)
    requires
        0 <= k <= p.arc_num,
        w == Seq::new(p.arc_num as nat, |e: int| p.cost@[e] * flow[e]),
    ensures
        price(p, flow, k) == total(w, k),
    decreases k,
{
    if k > 0 {
        lemma_price_total(p, flow, w, k - 1);
    }
}

proof fn lemma_price_along(p: NetworkSimplex, g: ListDigraph, links: Seq<Link>, n: int, flow: Seq<i32>, w: Seq<int>, k: int)
    requires
        graph_of(g, links, n),
        assigns(p, g, links, n),
        0 <= k <= links.len(),
        w == Seq::new(p.arc_num as nat, |e: int| p.cost@[e] * flow[e]),
    ensures
        along(w, p.arc_id@, k) == value(links, carried(p, flow), k),
    decreases k,
{
    if k > 0 {
        lemma_price_along(p, g, links, n, flow, w, k - 1);
        assert(g.src@.len() == links.len());
        assert(p.cost@[p.arc_id@[k - 1] as int] == links[k - 1].cost);
        assert(carried(p, flow)[k - 1] == flow[p.arc_id@[k - 1] as int]);
    }
}

/// The cost of a flow in terms of the arcs.
proof fn lemma_price(p: NetworkSimplex, g: ListDigraph, links: Seq<Link>, n: int, flow: Seq<i32>)
    requires
        graph_of(g, links, n),
        assigns(p, g, links, n),
    ensures
        price(p, flow, p.arc_num as int) == value(links, carried(p, flow), links.len() as int),
{
    let w = Seq::new(p.arc_num as nat, |e: int| p.cost@[e] * flow[e]);
    assert(g.src@.len() == links.len());
    lemma_price_total(p, flow, w, p.arc_num as int);
    assert(is_order(p.arc_id@, w.len() as int));
    lemma_any_order(w, p.arc_id@);
    lemma_price_along(p, g, links, n, flow, w, links.len() as int);
}

/// Among the arcs of a cell, only the one that gives it its spot costs something.
proof fn lemma_value_block(l: Land, s: St, nodes: Seq<usize>, f: Seq<int>, i: int, only: int, k: int)
    requires
        0 <= i < nodes.len(),
        solvable(nodes.len() as int),
        base(l, s, nodes, i) <= k <= base(l, s, nodes, i + 1),
        base(l, s, nodes, i) + 2 <= only < base(l, s, nodes, i + 1),
        gives(l.links(s, nodes, nodes.len() as int), f, i, only),
    ensures
        value(l.links(s, nodes, nodes.len() as int), f, k)
            == value(l.links(s, nodes, nodes.len() as int), f, base(l, s, nodes, i))
                + (if only < k { l.links(s, nodes, nodes.len() as int)[only].cost as int } else { 0 }),
    decreases k,
{
    if k > base(l, s, nodes, i) {
        let n = nodes.len() as int;
        let links = l.links(s, nodes, n);
        lemma_value_block(l, s, nodes, f, i, only, k - 1);
        lemma_own_block(l, s, nodes, i, k - 1);
        let q = k - 1 - base(l, s, nodes, i);
        lemma_free_ends(l, s, nodes, i, k - 1);
        lemma_base_rises(l, s, nodes, i, n);
        if k - 1 != only && q >= 2 {
            assert(links[k - 1].from == 2 * i);
            assert(f[k - 1] == 0);
        }
        assert(links[k - 1].cost * 0 == 0);
        assert(links[k - 1].cost * 1 == links[k - 1].cost);
        assert(0 * f[k - 1] == 0);
    }
}

/// A cell's first two arcs cost nothing.
proof fn lemma_free_ends(l: Land, s: St, nodes: Seq<usize>, i: int, k: int)
    requires
        0 <= i < nodes.len(),
        solvable(nodes.len() as int),
        base(l, s, nodes, i) <= k < base(l, s, nodes, i + 1),
    ensures
        k < base(l, s, nodes, i) + 2 ==> l.links(s, nodes, nodes.len() as int)[k].cost == 0,
{
    let q = k - base(l, s, nodes, i);
    let n = nodes.len() as int;
    assert(base(l, s, nodes, i + 1) == base(l, s, nodes, i) + l.cell_links(s, nodes, i, n).len());
    lemma_block_is(l, s, nodes, i, n, q);
    lemma_first_two(l, s, nodes, i, n);
}

proof fn lemma_first_two(l: Land, s: St, nodes: Seq<usize>, i: int, j: int)
    requires
        0 <= j,
    ensures
        l.cell_links(s, nodes, i, j).len() >= 2,
        l.cell_links(s, nodes, i, j)[0].cost == 0,
        l.cell_links(s, nodes, i, j)[1].cost == 0,
    decreases j,
{
    if j > 0 {
        lemma_first_two(l, s, nodes, i, j - 1);
    }
}

/// The cost of what the arcs carry is that of the spots they give.
proof fn lemma_value(l: Land, s: St, nodes: Seq<usize>, f: Seq<int>, to: Seq<usize>, i: int)
    requires
        0 <= i <= nodes.len(),
        solvable(nodes.len() as int),
        is_choice(l, s, nodes, to),
        forall|c: int, k: int| 0 <= c < nodes.len() && 0 <= k < l.links(s, nodes, nodes.len() as int).len()
            && (#[trigger] l.links(s, nodes, nodes.len() as int)[k]).pair == Some((c as usize, #[trigger] to[c])) ==> gives(l.links(s, nodes, nodes.len() as int), f, c, k),
    ensures
        value(l.links(s, nodes, nodes.len() as int), f, base(l, s, nodes, i)) == choice_cost(l, s, nodes, to, i),
    decreases i,
{
    if i > 0 {
        lemma_value(l, s, nodes, f, to, i - 1);
        let c = i - 1;
        assert(to[c] < nodes.len());
        let k = lemma_pair_arc(l, s, nodes, c, to[c] as int);
        assert(l.links(s, nodes, nodes.len() as int)[k].pair == Some((c as usize, to[c])));
        lemma_value_block(l, s, nodes, f, c, k, base(l, s, nodes, i));
    }
}

/// The arc to the spot that a cell takes is the one that gives it.
proof fn lemma_taken_gives(l: Land, s: St, nodes: Seq<usize>, to: Seq<usize>, c: int, k: int)
    requires
        0 <= c < nodes.len(),
        solvable(nodes.len() as int),
        is_choice(l, s, nodes, to),
        0 <= k < l.links(s, nodes, nodes.len() as int).len(),
        l.links(s, nodes, nodes.len() as int)[k].pair == Some((c as usize, to[c])),
    ensures
        gives(l.links(s, nodes, nodes.len() as int), taken(l.links(s, nodes, nodes.len() as int), to), c, k),
{
    let n = nodes.len() as int;
    let links = l.links(s, nodes, n);
    let f = taken(links, to);
    assert(to[c] < n);
    let a = lemma_pair_arc(l, s, nodes, c, to[c] as int);
    assert(a == k);
    lemma_blocks(l, s, nodes, n);
    assert forall|i: int| 0 <= i < links.len() && i != k && (#[trigger] links[i]).from == 2 * c implies f[i] == 0 by {
        assert(in_some_block(l, s, nodes, links, n, i));
        let b = choose|b: int| 0 <= b < n && #[trigger] in_block(l, s, nodes, links, b, i);
        assert(in_block(l, s, nodes, links, b, i));
    }
}

/// Every arc carries at most one unit.
proof fn lemma_limits(p: NetworkSimplex, g: ListDigraph, links: Seq<Link>, n: int)
    requires
        graph_of(g, links, n),
        assigns(p, g, links, n),
    ensures
        forall|e: int| 0 <= e < p.arc_num ==> #[trigger] p.lower@[e] == 0 && p.upper@[e] == 1,
{
    let m = links.len() as int;
    assert(g.src@.len() == m);
    lemma_all_listed(p.arc_id@, m);
    assert forall|e: int| 0 <= e < p.arc_num implies #[trigger] p.lower@[e] == 0 && p.upper@[e] == 1 by {
        assert(listed(p.arc_id@, m, e));
        let k = choose|k: int| 0 <= k < m && #[trigger] p.arc_id@[k] == e;
        assert(p.lower@[p.arc_id@[k] as int] == 0);
    }
}

/// The flow of another choice is within the limits and gives every node the same outflow.
proof fn lemma_other_flow(l: Land, s: St, nodes: Seq<usize>, p: NetworkSimplex, g: ListDigraph, flow: Seq<i32>, other: Seq<usize>)
    requires
        solvable(nodes.len() as int),
        graph_of(g, l.links(s, nodes, nodes.len() as int), nodes.len() as int),
        assigns(p, g, l.links(s, nodes, nodes.len() as int), nodes.len() as int),
        p.meets(flow),
        is_choice(l, s, nodes, other),
    ensures
        p.meets(flow_of(p, l.links(s, nodes, nodes.len() as int), other)),
        forall|v: int| 0 <= v < p.node_num ==> #[trigger] outflow(p, flow, v, p.arc_num as int)
            == outflow(p, flow_of(p, l.links(s, nodes, nodes.len() as int), other), v, p.arc_num as int),
{
    let n = nodes.len() as int;
    let links = l.links(s, nodes, n);
    let m = links.len() as int;
    let f = carried(p, flow);
    let h = flow_of(p, links, other);
    assert(g.src@.len() == m);
    lemma_unit(p, g, links, n, flow);
    lemma_flow_of(p, links, other);
    lemma_limits(p, g, links, n);
    assert forall|v: int| 0 <= v < p.node_num implies outflow(p, h, v, p.arc_num as int) == p.supply@[v]
        && #[trigger] outflow(p, flow, v, p.arc_num as int) == outflow(p, h, v, p.arc_num as int) by {
        let u = 2 * n + 1 - v;
        lemma_balance(p, g, links, n, h, u);
        lemma_taken_balance(l, s, nodes, other, u);
        assert(p.supply@[2 * n + 1 - u] == (if u == 2 * n + 1 { -n } else if u == 2 * n { n } else { 0 }));
        lemma_balance(p, g, links, n, flow, u);
        lemma_degrees(l, s, nodes, f, u);
        if u == 2 * n {
            lemma_into_source(l, s, nodes, f, m);
        } else if u == 2 * n + 1 {
            lemma_out_of_sink(l, s, nodes, f, m);
        }
        assert(same32(outflow(p, flow, v, p.arc_num as int), p.supply@[v] as int));
    }
    assert forall|v: int| 0 <= v < p.node_num implies same32(#[trigger] outflow(p, h, v, p.arc_num as int), p.supply@[v] as int) by {
        assert(outflow(p, flow, v, p.arc_num as int) == outflow(p, h, v, p.arc_num as int));
    }
}

/// The arc to the spot that the flow gives a cell is the one that gives it.
proof fn lemma_solution_gives(l: Land, s: St, nodes: Seq<usize>, p: NetworkSimplex, g: ListDigraph, flow: Seq<i32>, c: int, k: int)
    requires
        0 <= c < nodes.len(),
        solvable(nodes.len() as int),
        graph_of(g, l.links(s, nodes, nodes.len() as int), nodes.len() as int),
        assigns(p, g, l.links(s, nodes, nodes.len() as int), nodes.len() as int),
        p.meets(flow),
        0 <= k < l.links(s, nodes, nodes.len() as int).len(),
        l.links(s, nodes, nodes.len() as int)[k].pair
            == Some((c as usize, spots(p, flow, l.links(s, nodes, nodes.len() as int), nodes.len() as int, l.links(s, nodes, nodes.len() as int).len() as int)[c])),
    ensures
        gives(l.links(s, nodes, nodes.len() as int), carried(p, flow), c, k),
{
    let n = nodes.len() as int;
    let links = l.links(s, nodes, n);
    let to = spots(p, flow, links, n, links.len() as int);
    lemma_unit(p, g, links, n, flow);
    let a = lemma_spot_of(l, s, nodes, p, g, flow, c);
    lemma_blocks(l, s, nodes, n);
    assert(in_some_block(l, s, nodes, links, n, a));
    let b = choose|b: int| 0 <= b < n && #[trigger] in_block(l, s, nodes, links, b, a);
    assert(in_block(l, s, nodes, links, b, a));
    assert(links[a].pair == Some((c as usize, to[c])));
    let d = lemma_pair_arc(l, s, nodes, c, to[c] as int);
    assert(a == d && k == d);
}

/// The spots that matching gives the cells cost no more than any other choice of spots that the cells
/// may take, as long as the solver's potentials stayed small.
pub proof fn law_matching_is_cheapest(l: Land, s: St, nodes: Seq<usize>, p: NetworkSimplex, g: ListDigraph, block: int, flow: Seq<i32>, pi: Seq<i32>, other: Seq<usize>)
    requires
        solvable(nodes.len() as int),
        l.solves(s, nodes, p, g, block, flow),
        p.finds(block),
        p.is_tight(flow, pi),
        is_exact(p, pi),
        is_choice(l, s, nodes, other),
    ensures
        ({
            let links = l.links(s, nodes, nodes.len() as int);
            let to = spots(p, flow, links, nodes.len() as int, links.len() as int);
            choice_cost(l, s, nodes, to, nodes.len() as int) <= choice_cost(l, s, nodes, other, nodes.len() as int)
        }),
{
    let n = nodes.len() as int;
    let links = l.links(s, nodes, n);
    let m = links.len() as int;
    let to = spots(p, flow, links, n, m);
    let f = carried(p, flow);
    let h = flow_of(p, links, other);
    assert(g.src@.len() == m);
    law_matching_is_one_to_one(l, s, nodes, p, g, block, flow);
    lemma_unit(p, g, links, n, flow);
    lemma_flow_of(p, links, other);
    lemma_limits(p, g, links, n);
    lemma_other_flow(l, s, nodes, p, g, flow, other);
    law_tight_flow_is_cheapest(p, pi, flow, h);
    lemma_price(p, g, links, n, flow);
    lemma_price(p, g, links, n, h);
    // The costs of the flows are those of the spots.
    assert forall|c: int, k: int| 0 <= c < n && 0 <= k < m && (#[trigger] links[k]).pair == Some((c as usize, #[trigger] to[c])) implies gives(links, f, c, k) by {
        lemma_solution_gives(l, s, nodes, p, g, flow, c, k);
    }
    lemma_value(l, s, nodes, f, to, n);
    assert forall|c: int, k: int| 0 <= c < n && 0 <= k < m && (#[trigger] links[k]).pair == Some((c as usize, #[trigger] other[c])) implies gives(links, taken(links, other), c, k) by {
        lemma_taken_gives(l, s, nodes, other, c, k);
    }
    lemma_value(l, s, nodes, taken(links, other), other, n);
}

// ── an assignment is found ───────────────────────────────────────────────────────────────────

/// Where every arc carries at most one unit, a node's arcs carry no more than there are arcs.
proof fn lemma_node_room(p: NetworkSimplex, v: int, k: int)
    requires
        0 <= k <= p.arc_num,
        forall|e: int| 0 <= e < p.arc_num ==> #[trigger] p.lower@[e] == 0 && p.upper@[e] == 1,
    ensures
        p.node_room(v, k) <= k,
    decreases k,
{
    if k > 0 {
        lemma_node_room(p, v, k - 1);
        assert(p.lower@[k - 1] == 0);
    }
}

/// Matching finds spots for the cells, since each may stay where it is, as long as the costs together are
/// below that of a missing arc and the arcs and the pivots can be counted.
pub proof fn law_matching_is_found(l: Land, s: St, nodes: Seq<usize>, p: NetworkSimplex, g: ListDigraph, block: int)
    requires
        nodes.len() >= 1,
        solvable(nodes.len() as int),
        graph_of(g, l.links(s, nodes, nodes.len() as int), nodes.len() as int),
        assigns(p, g, l.links(s, nodes, nodes.len() as int), nodes.len() as int),
        is_block(block, p.arc_num as int),
        p.arc_num <= i32::MAX,
        p.cost_sum(p.arc_num as int) < ART_COST,
        !(p.ending(block) is Spent),
    ensures
        p.finds(block),
{
    let n = nodes.len() as int;
    let links = l.links(s, nodes, n);
    let m = links.len() as int;
    let stay = Seq::new(n as nat, |i: int| i as usize);
    assert(is_choice(l, s, nodes, stay));
    let h = flow_of(p, links, stay);
    assert(g.src@.len() == m);
    lemma_flow_of(p, links, stay);
    lemma_limits(p, g, links, n);
    assert forall|e: int| 0 <= e < p.arc_num implies #[trigger] p.lower@[e] <= p.upper@[e] && room(p.lower@[e], p.upper@[e]) < UNLIMITED by {
    }
    assert forall|v: int| 0 <= v < p.node_num implies same32(#[trigger] outflow(p, h, v, p.arc_num as int), p.supply@[v] as int) by {
        let u = 2 * n + 1 - v;
        lemma_balance(p, g, links, n, h, u);
        lemma_taken_balance(l, s, nodes, stay, u);
        assert(p.supply@[2 * n + 1 - u] == (if u == 2 * n + 1 { -n } else if u == 2 * n { n } else { 0 }));
    }
    assert forall|v: int| 0 <= v < p.node_num implies #[trigger] p.node_room(v, p.arc_num as int) <= i32::MAX by {
        lemma_node_room(p, v, p.arc_num as int);
    }
    law_feasible_flow_is_found(p, h, block);
}

} // verus!
