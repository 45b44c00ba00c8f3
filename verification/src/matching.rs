//! Matching: cells that share no net exchange their places so that their nets get as short as
//! possible.

use vstd::prelude::*;
use crate::arith::{dist, distance, imin};
use crate::land::{all_below, lists_below, node_in, reachable, Land, Live, St};
use crate::lemon::ListDigraph;
use crate::moves::{copy_list, joins_all, leaves_all, placed};
use crate::net::Ending;
use crate::random::{shuffled, Mt19937};
use crate::rows::small;
use crate::segments::lists;
use crate::improve::Node;
use crate::simplex::{is_block, with_lower, NetworkSimplex};

verus! {

/// The cells of a matching are no more than this, but for those of the last bin.
pub const MIS_MAX_PROBLEM: usize = 25;

/// How often a cell takes part in a pass.
pub const MIS_MAX_TIMES_USED: u32 = 2;

/// Nets with more pins than this do not count.
pub const MIS_SKIP_EDGES_LARGER_THAN: usize = 100;

// ── colours ──────────────────────────────────────────────────────────────────────────────────

impl Land {
    /// Whether a net counts for matching.
    pub open spec fn net_matters(&self, e: int) -> bool {
        1 < self.edges@[e]@.len() <= MIS_SKIP_EDGES_LARGER_THAN
    }

    /// Whether two pins of a net are on two nodes.
    pub open spec fn net_links(&self, s: St, e: int, u: usize, v: usize) -> bool {
        exists|a: int, b: int| 0 <= a < self.edges@[e]@.len() && 0 <= b < self.edges@[e]@.len()
            && s.pins[#[trigger] self.edges@[e]@[a] as int].node == u && s.pins[#[trigger] self.edges@[e]@[b] as int].node == v
    }

    /// Whether two different candidates share one of the first `n` nets, if it counts.
    pub open spec fn linked(&self, s: St, cands: Seq<usize>, u: usize, v: usize, n: int) -> bool {
        u != v && cands.contains(u) && cands.contains(v) && exists|e: int| 0 <= e < n && self.net_matters(e) && #[trigger] self.net_links(s, e, u, v)
    }

    /// Whether two different candidates share a net that counts.
    pub open spec fn neighbours(&self, s: St, cands: Seq<usize>, u: usize, v: usize) -> bool {
        self.linked(s, cands, u, v, self.edges@.len() as int)
    }

    /// The first `n` nodes have the least colours that none of their neighbours before them has.
    pub open spec fn is_greedy(&self, s: St, cands: Seq<usize>, color: Seq<i32>, n: int) -> bool {
        &&& forall|v: int| 0 <= v < n ==> 0 <= #[trigger] color[v] <= v
        &&& forall|v: int, u: int| 0 <= u < v < n && self.neighbours(s, cands, v as usize, u as usize) ==> #[trigger] color[u] != #[trigger] color[v]
        &&& forall|v: int, c: int| #![trigger color[v], used_before(self, s, cands, color, v, c)] 0 <= v < n && 0 <= c < color[v] ==> used_before(self, s, cands, color, v, c)
    }

    /// `out` are the colours of the candidates, -1 for the other nodes.
    pub open spec fn is_colored(&self, s: St, cands: Seq<usize>, out: Seq<i32>) -> bool {
        exists|color: Seq<i32>| color.len() == self.count() && #[trigger] self.is_greedy(s, cands, color, self.count())
            && out == Seq::new(color.len(), |v: int| if cands.contains(v as usize) { color[v] } else { -1i32 })
    }
}

/// Whether a neighbour before a node has a colour.
pub open spec fn used_before(l: &Land, s: St, cands: Seq<usize>, color: Seq<i32>, v: int, c: int) -> bool {
    exists|u: int| 0 <= u < v && #[trigger] color[u] == c && l.neighbours(s, cands, v as usize, u as usize)
}

/// Candidates that share a net that counts have different colours.
pub proof fn law_neighbours_differ_in_colour(l: Land, s: St, cands: Seq<usize>, out: Seq<i32>, u: usize, v: usize)
    requires
        l.is_colored(s, cands, out),
        u < l.count(),
        v < l.count(),
        l.neighbours(s, cands, u, v),
        l.count() <= usize::MAX,
    ensures
        out[u as int] != out[v as int],
{
    let color = choose|color: Seq<i32>| color.len() == l.count() && #[trigger] l.is_greedy(s, cands, color, l.count())
        && out == Seq::new(color.len(), |v: int| if cands.contains(v as usize) { color[v] } else { -1i32 });
    lemma_neighbours_swap(l, s, cands, u, v);
    if u < v {
        assert(color[u as int] != color[v as int]);
    } else {
        assert(color[v as int] != color[u as int]);
    }
}

proof fn lemma_neighbours_swap(l: Land, s: St, cands: Seq<usize>, u: usize, v: usize)
    requires
        l.neighbours(s, cands, u, v),
    ensures
        l.neighbours(s, cands, v, u),
{
    let e = choose|e: int| 0 <= e < l.edges@.len() && l.net_matters(e) && #[trigger] l.net_links(s, e, u, v);
    let (a, b) = choose|a: int, b: int| 0 <= a < l.edges@[e]@.len() && 0 <= b < l.edges@[e]@.len()
        && s.pins[#[trigger] l.edges@[e]@[a] as int].node == u && s.pins[#[trigger] l.edges@[e]@[b] as int].node == v;
    assert(l.net_links(s, e, v, u));
}

impl Live {
    /// For each node, the candidates it shares a net with that counts; none for nodes that are no
    /// candidates.
    fn links_of(&self, l: &Land, cands: &Vec<usize>, is_cand: &Vec<bool>) -> (adj: Vec<Vec<usize>>)
        requires
            l.wf(),
            l.ok(self@),
            is_cand@.len() == l.count(),
            forall|v: int| 0 <= v < l.count() ==> #[trigger] is_cand@[v] == cands@.contains(v as usize),
        ensures
            adj@.len() == l.count(),
            lists_below(lists(adj@), l.count()),
            forall|u: int, v: int| 0 <= u < l.count() && 0 <= v < l.count() ==>
                (#[trigger] adj@[u]@.contains(v as usize) <==> l.neighbours(self@, cands@, u as usize, v as usize)),
    {
        let ghost s = self@;
        let n: usize = l.sites.len();
        let m: usize = l.edges.len();
        let mut adj: Vec<Vec<usize>> = Vec::new();
        let mut z: usize = 0;
        while z < n
            invariant
                z <= n,
                adj@.len() == z,
                forall|u: int| 0 <= u < z ==> (#[trigger] adj@[u])@ == Seq::<usize>::empty(),
            decreases n - z,
        {
            let none: Vec<usize> = Vec::new();
            assert(none@ =~= Seq::empty());
            adj.push(none);
            z = z + 1;
        }
        let mut e: usize = 0;
        while e < m
            invariant
                l.wf(),
                l.ok(self@),
                s == self@,
                n == l.count(),
                m == l.edges@.len(),
                is_cand@.len() == n,
                forall|v: int| 0 <= v < n ==> #[trigger] is_cand@[v] == cands@.contains(v as usize),
                e <= m,
                adj@.len() == n,
                lists_below(lists(adj@), n as int),
                forall|u: int, v: int| 0 <= u < n && 0 <= v < n ==>
                    (#[trigger] adj@[u]@.contains(v as usize) <==> l.linked(s, cands@, u as usize, v as usize, e as int)),
            decreases m - e,
        {
            let pins = &l.edges[e];
            assert(lists(l.edges@)[e as int] == pins@);
            if pins.len() > 1 && pins.len() <= MIS_SKIP_EDGES_LARGER_THAN {
                let mut a: usize = 0;
                while a < pins.len()
                    invariant
                        l.wf(),
                        l.ok(self@),
                        s == self@,
                        n == l.count(),
                        e < l.edges@.len(),
                        pins@ == l.edges@[e as int]@,
                        all_below(pins@, s.pins.len() as int),
                        is_cand@.len() == n,
                        forall|v: int| 0 <= v < n ==> #[trigger] is_cand@[v] == cands@.contains(v as usize),
                        a <= pins@.len(),
                        adj@.len() == n,
                        lists_below(lists(adj@), n as int),
                        forall|u: int, v: int| 0 <= u < n && 0 <= v < n ==>
                            (#[trigger] adj@[u]@.contains(v as usize) <==> l.linked(s, cands@, u as usize, v as usize, e as int)
                                || joined_by(s, cands@, pins@, u as usize, v as usize, a as int)),
                    decreases pins@.len() - a,
                {
                    let u: usize = self.pins[pins[a]].node;
                    assert(s.pins[pins@[a as int] as int].node < n);
                    let ghost a1 = adj@;
                    if is_cand[u] {
                        let mut b: usize = 0;
                        while b < pins.len()
                            invariant
                                l.wf(),
                                l.ok(self@),
                                s == self@,
                                n == l.count(),
                                pins@ == l.edges@[e as int]@,
                                all_below(pins@, s.pins.len() as int),
                                is_cand@.len() == n,
                                forall|v: int| 0 <= v < n ==> #[trigger] is_cand@[v] == cands@.contains(v as usize),
                                a < pins@.len(),
                                b <= pins@.len(),
                                u < n,
                                u == s.pins[pins@[a as int] as int].node,
                                is_cand@[u as int],
                                adj@.len() == n,
                                a1.len() == n,
                                lists_below(lists(adj@), n as int),
                                forall|x: int, v: int| 0 <= x < n && 0 <= v < n ==>
                                    (#[trigger] adj@[x]@.contains(v as usize) <==> a1[x]@.contains(v as usize)
                                        || (x == u && met_by(s, cands@, pins@, u, v as usize, b as int))),
                            decreases pins@.len() - b,
                        {
                            let v: usize = self.pins[pins[b]].node;
                            assert(s.pins[pins@[b as int] as int].node < n);
                            let ghost a2 = adj@;
                            if v != u && is_cand[v] {
                                let ghost before = adj@[u as int]@;
                                adj[u].push(v);
                                proof {
                                    assert(adj@[u as int]@ == before.push(v));
                                    assert forall|x: int, y: int| 0 <= x < n && 0 <= y < n implies
                                        (#[trigger] adj@[x]@.contains(y as usize) <==> a1[x]@.contains(y as usize)
                                            || (x == u && met_by(s, cands@, pins@, u, y as usize, b + 1))) by {
                                        if x == u {
                                            if adj@[x]@.contains(y as usize) {
                                                let k = choose|k: int| 0 <= k < adj@[x]@.len() && adj@[x]@[k] == y as usize;
                                                if k < before.len() {
                                                    assert(before[k] == y as usize);
                                                    assert(a2[x]@.contains(y as usize));
                                                } else {
                                                    assert(met_by(s, cands@, pins@, u, y as usize, b + 1)) by {
                                                        assert(s.pins[pins@[b as int] as int].node == y as usize);
                                                    }
                                                }
                                                if met_by(s, cands@, pins@, u, y as usize, b as int) {
                                                    lemma_met_more(s, cands@, pins@, u, y as usize, b as int);
                                                }
                                            }
                                            if a1[x]@.contains(y as usize) || met_by(s, cands@, pins@, u, y as usize, b as int) {
                                                assert(a2[x]@.contains(y as usize));
                                                let k = choose|k: int| 0 <= k < before.len() && before[k] == y as usize;
                                                assert(adj@[x]@[k] == y as usize);
                                            } else if met_by(s, cands@, pins@, u, y as usize, b + 1) {
                                                let q = choose|q: int| 0 <= q < b + 1 && s.pins[#[trigger] pins@[q] as int].node == y as usize;
                                                assert(q == b);
                                                assert(adj@[x]@[before.len() as int] == v);
                                            }
                                        } else {
                                            assert(adj@[x] == a2[x]);
                                        }
                                    }
                                    assert forall|k: int| 0 <= k < lists(adj@).len() implies all_below(#[trigger] lists(adj@)[k], n as int) by {
                                        assert(all_below(lists(a2)[k], n as int));
                                        if k == u {
                                            assert(lists(adj@)[k] == lists(a2)[k].push(v));
                                        } else {
                                            assert(lists(adj@)[k] == lists(a2)[k]);
                                        }
                                    }
                                }
                            } else {
                                proof {
                                    assert forall|x: int, y: int| 0 <= x < n && 0 <= y < n implies
                                        (#[trigger] adj@[x]@.contains(y as usize) <==> a1[x]@.contains(y as usize)
                                            || (x == u && met_by(s, cands@, pins@, u, y as usize, b + 1))) by {
                                        if met_by(s, cands@, pins@, u, y as usize, b as int) {
                                            lemma_met_more(s, cands@, pins@, u, y as usize, b as int);
                                        } else if met_by(s, cands@, pins@, u, y as usize, b + 1) {
                                            let q = choose|q: int| 0 <= q < b + 1 && s.pins[#[trigger] pins@[q] as int].node == y as usize;
                                            assert(q == b);
                                        }
                                    }
                                }
                            }
                            b = b + 1;
                        }
                    }
                    proof {
                        assert forall|x: int, y: int| 0 <= x < n && 0 <= y < n implies
                            (#[trigger] adj@[x]@.contains(y as usize) <==> l.linked(s, cands@, x as usize, y as usize, e as int)
                                || joined_by(s, cands@, pins@, x as usize, y as usize, a + 1)) by {
                            let was = a1[x]@.contains(y as usize);
                            lemma_joined_step(s, cands@, pins@, x as usize, y as usize, a as int);
                        }
                    }
                    a = a + 1;
                }
                proof {
                    assert forall|u: int, v: int| 0 <= u < n && 0 <= v < n implies
                        (#[trigger] adj@[u]@.contains(v as usize) <==> l.linked(s, cands@, u as usize, v as usize, e + 1)) by {
                        lemma_linked_step(*l, s, cands@, u as usize, v as usize, e as int);
                    }
                }
            } else {
                proof {
                    assert forall|u: int, v: int| 0 <= u < n && 0 <= v < n implies
                        (#[trigger] adj@[u]@.contains(v as usize) <==> l.linked(s, cands@, u as usize, v as usize, e + 1)) by {
                        lemma_linked_step(*l, s, cands@, u as usize, v as usize, e as int);
                    }
                }
            }
            e = e + 1;
        }
        adj
    }
}

/// Whether one of the first `n` pins of a net is on another candidate.
spec fn met_by(s: St, cands: Seq<usize>, pins: Seq<usize>, u: usize, v: usize, n: int) -> bool {
    v != u && cands.contains(v) && exists|q: int| 0 <= q < n && s.pins[#[trigger] pins[q] as int].node == v
}

/// Whether one of the first `n` pins of a net is on a candidate, and some pin on another.
spec fn joined_by(s: St, cands: Seq<usize>, pins: Seq<usize>, u: usize, v: usize, n: int) -> bool {
    cands.contains(u) && met_by(s, cands, pins, u, v, pins.len() as int) && exists|q: int| 0 <= q < n && s.pins[#[trigger] pins[q] as int].node == u
}

proof fn lemma_met_more(s: St, cands: Seq<usize>, pins: Seq<usize>, u: usize, v: usize, n: int)
    requires
        met_by(s, cands, pins, u, v, n),
    ensures
        met_by(s, cands, pins, u, v, n + 1),
{
    let q = choose|q: int| 0 <= q < n && s.pins[#[trigger] pins[q] as int].node == v;
    assert(s.pins[pins[q] as int].node == v);
}

proof fn lemma_joined_step(s: St, cands: Seq<usize>, pins: Seq<usize>, u: usize, v: usize, a: int)
    requires
        0 <= a < pins.len(),
    ensures
        joined_by(s, cands, pins, u, v, a + 1) <==> joined_by(s, cands, pins, u, v, a)
            || (s.pins[pins[a] as int].node == u && cands.contains(u) && met_by(s, cands, pins, u, v, pins.len() as int)),
{
    if joined_by(s, cands, pins, u, v, a) {
        let q = choose|q: int| 0 <= q < a && s.pins[#[trigger] pins[q] as int].node == u;
        assert(s.pins[pins[q] as int].node == u);
    }
    if s.pins[pins[a] as int].node == u {
        assert(s.pins[pins[a] as int].node == u);
    }
    if joined_by(s, cands, pins, u, v, a + 1) && !joined_by(s, cands, pins, u, v, a) {
        let q = choose|q: int| 0 <= q < a + 1 && s.pins[#[trigger] pins[q] as int].node == u;
        assert(q == a);
    }
}

proof fn lemma_linked_step(l: Land, s: St, cands: Seq<usize>, u: usize, v: usize, e: int)
    requires
        0 <= e < l.edges@.len(),
    ensures
        l.linked(s, cands, u, v, e + 1) <==> l.linked(s, cands, u, v, e)
            || (l.net_matters(e) && joined_by(s, cands, l.edges@[e]@, u, v, l.edges@[e]@.len() as int)),
{
    let pins = l.edges@[e]@;
    if l.linked(s, cands, u, v, e) {
        let q = choose|q: int| 0 <= q < e && l.net_matters(q) && #[trigger] l.net_links(s, q, u, v);
        assert(l.net_links(s, q, u, v));
    }
    if l.net_matters(e) && joined_by(s, cands, pins, u, v, pins.len() as int) {
        let a = choose|q: int| 0 <= q < pins.len() && s.pins[#[trigger] pins[q] as int].node == u;
        let b = choose|q: int| 0 <= q < pins.len() && s.pins[#[trigger] pins[q] as int].node == v;
        assert(s.pins[pins[a] as int].node == u && s.pins[pins[b] as int].node == v);
        assert(l.net_links(s, e, u, v));
    }
    if l.linked(s, cands, u, v, e + 1) && !l.linked(s, cands, u, v, e) {
        let q = choose|q: int| 0 <= q < e + 1 && l.net_matters(q) && #[trigger] l.net_links(s, q, u, v);
        assert(q == e);
        let (a, b) = choose|a: int, b: int| 0 <= a < pins.len() && 0 <= b < pins.len()
            && s.pins[#[trigger] l.edges@[e]@[a] as int].node == u && s.pins[#[trigger] l.edges@[e]@[b] as int].node == v;
        assert(s.pins[pins[a] as int].node == u && s.pins[pins[b] as int].node == v);
    }
}

impl Live {
    /// Give each node the least colour that none of its neighbours before it has, in the order of the
    /// nodes. The colours of the candidates, -1 for other nodes.
    pub fn mis_color(&self, l: &Land, cands: &Vec<usize>) -> (out: Vec<i32>)
        requires
            l.wf(),
            l.ok(self@),
            all_below(cands@, l.count()),
        ensures
            l.is_colored(self@, cands@, out@),
            out@.len() == l.count(),
    {
        let ghost s = self@;
        let n: usize = l.sites.len();
        let mut is_cand: Vec<bool> = Vec::new();
        let mut z: usize = 0;
        while z < n
            invariant
                z <= n,
                is_cand@.len() == z,
                forall|v: int| 0 <= v < z ==> !#[trigger] is_cand@[v],
            decreases n - z,
        {
            is_cand.push(false);
            z = z + 1;
        }
        let mut k: usize = 0;
        while k < cands.len()
            invariant
                n == l.count(),
                all_below(cands@, l.count()),
                k <= cands@.len(),
                is_cand@.len() == n,
                forall|v: int| 0 <= v < n ==> #[trigger] is_cand@[v] == cands@.subrange(0, k as int).contains(v as usize),
            decreases cands@.len() - k,
        {
            let c: usize = cands[k];
            let ghost f0 = is_cand@;
            is_cand.set(c, true);
            proof {
                let (a, b) = (cands@.subrange(0, k as int), cands@.subrange(0, k + 1));
                assert(b =~= a.push(c));
                assert forall|v: int| 0 <= v < n implies #[trigger] is_cand@[v] == b.contains(v as usize) by {
                    assert(f0[v] == a.contains(v as usize));
                    if v == c {
                        assert(b[k as int] == c);
                    } else if a.contains(v as usize) {
                        let q = choose|q: int| 0 <= q < a.len() && a[q] == v as usize;
                        assert(b[q] == v as usize);
                    } else if b.contains(v as usize) {
                        let q = choose|q: int| 0 <= q < b.len() && b[q] == v as usize;
                        assert(q < k ==> a[q] == v as usize);
                    }
                }
            }
            k = k + 1;
        }
        assert(cands@.subrange(0, cands@.len() as int) =~= cands@);
        let adj = self.links_of(l, cands, &is_cand);
        let mut color: Vec<i32> = Vec::new();
        let mut v: usize = 0;
        while v < n
            invariant
                l.wf(),
                n == l.count(),
                adj@.len() == n,
                lists_below(lists(adj@), n as int),
                forall|u: int, w: int| 0 <= u < n && 0 <= w < n ==>
                    (#[trigger] adj@[u]@.contains(w as usize) <==> l.neighbours(s, cands@, u as usize, w as usize)),
                v <= n,
                color@.len() == v,
                l.is_greedy(s, cands@, color@, v as int),
            decreases n - v,
        {
            let mut used: Vec<bool> = Vec::new();
            let mut z: usize = 0;
            while z <= v
                invariant
                    z <= v + 1,
                    v < usize::MAX,
                    used@.len() == z,
                    forall|c: int| 0 <= c < z ==> !#[trigger] used@[c],
                decreases v + 1 - z,
            {
                used.push(false);
                z = z + 1;
            }
            let list = &adj[v];
            assert(lists(adj@)[v as int] == list@);
            let mut k: usize = 0;
            while k < list.len()
                invariant
                    l.wf(),
                    n == l.count(),
                    v < n,
                    all_below(list@, n as int),
                    color@.len() == v,
                    l.is_greedy(s, cands@, color@, v as int),
                    k <= list@.len(),
                    used@.len() == v + 1,
                    !used@[v as int],
                    forall|c: int| 0 <= c <= v ==> #[trigger] used@[c] == marked(color@, list@, c, k as int),
                decreases list@.len() - k,
            {
                let u: usize = list[k];
                let ghost m0 = used@;
                if u < v {
                    assert(0 <= color@[u as int] <= u);
                    used.set(color[u] as usize, true);
                    assert(marked(color@, list@, color@[u as int] as int, k + 1)) by {
                        assert(list@[k as int] == u);
                    }
                }
                proof {
                    assert forall|c: int| 0 <= c <= v implies #[trigger] used@[c] == marked(color@, list@, c, k + 1) by {
                        assert(m0[c] == marked(color@, list@, c, k as int));
                        if marked(color@, list@, c, k as int) {
                            let q = choose|q: int| 0 <= q < k && (#[trigger] list@[q]) < color@.len() && color@[list@[q] as int] == c;
                            assert(list@[q] < color@.len());
                        } else if marked(color@, list@, c, k + 1) {
                            let q = choose|q: int| 0 <= q < k + 1 && (#[trigger] list@[q]) < color@.len() && color@[list@[q] as int] == c;
                            assert(q == k);
                        }
                    }
                }
                k = k + 1;
            }
            let mut c: usize = 0;
            while used[c]
                invariant
                    used@.len() == v + 1,
                    !used@[v as int],
                    c <= v,
                    v < n,
                    forall|d: int| 0 <= d < c ==> #[trigger] used@[d],
                decreases v + 1 - c,
            {
                c = c + 1;
            }
            let ghost c0 = color@;
            color.push(c as i32);
            proof {
                let now = color@;
                assert forall|w: int, u: int| 0 <= u < w < v + 1 && l.neighbours(s, cands@, w as usize, u as usize) implies #[trigger] now[u] != #[trigger] now[w] by {
                    if w == v {
                        assert(adj@[w]@.contains(u as usize));
                        let q = choose|q: int| 0 <= q < list@.len() && list@[q] == u as usize;
                        if now[u] == now[w] {
                            assert(list@[q] < c0.len() && c0[list@[q] as int] == c);
                            assert(marked(c0, list@, c as int, list@.len() as int));
                        }
                    } else {
                        assert(c0[u] != c0[w]);
                    }
                }
                assert forall|w: int, d: int| #![trigger now[w], used_before(l, s, cands@, now, w, d)] 0 <= w < v + 1 && 0 <= d < now[w] implies used_before(l, s, cands@, now, w, d) by {
                    if w == v {
                        assert(used@[d]);
                        let q = choose|q: int| 0 <= q < list@.len() && (#[trigger] list@[q]) < c0.len() && c0[list@[q] as int] == d;
                        let u = list@[q] as int;
                        assert(adj@[w]@.contains(u as usize));
                        assert(now[u] == d);
                    } else {
                        assert(c0[w] == now[w]);
                        assert(used_before(l, s, cands@, c0, w, d));
                        let u = choose|u: int| 0 <= u < w && #[trigger] c0[u] == d && l.neighbours(s, cands@, w as usize, u as usize);
                        assert(now[u] == d);
                    }
                }
                assert forall|w: int| 0 <= w < v + 1 implies 0 <= #[trigger] now[w] <= w by {
                    if w < v {
                        assert(c0[w] == now[w]);
                    }
                }
                assert(l.is_greedy(s, cands@, now, v + 1));
            }
            v = v + 1;
        }
        let mut out: Vec<i32> = Vec::new();
        let mut i: usize = 0;
        while i < n
            invariant
                n == l.count(),
                is_cand@.len() == n,
                forall|v: int| 0 <= v < n ==> #[trigger] is_cand@[v] == cands@.contains(v as usize),
                color@.len() == n,
                i <= n,
                out@.len() == i,
                forall|v: int| 0 <= v < i ==> #[trigger] out@[v] == (if cands@.contains(v as usize) { color@[v] } else { -1i32 }),
            decreases n - i,
        {
            assert(is_cand@[i as int] == cands@.contains(i as usize));
            out.push(if is_cand[i] { color[i] } else { -1 });
            i = i + 1;
        }
        assert(out@ =~= Seq::new(color@.len(), |v: int| if cands@.contains(v as usize) { color@[v] } else { -1i32 }));
        out
    }
}

/// Whether one of the first `n` nodes of a list that have a colour has this one.
spec fn marked(color: Seq<i32>, list: Seq<usize>, c: int, n: int) -> bool {
    exists|q: int| 0 <= q < n && (#[trigger] list[q]) < color.len() && color[list[q] as int] == c
}

// ── gathering ────────────────────────────────────────────────────────────────────────────────

/// The bins that candidates are gathered from: bin `i * rows + j` is in column `i` and row `j`.
pub struct Bins {
    pub cols: usize,
    pub rows: usize,
    /// The bin of each node.
    pub at: Vec<usize>,
}

/// Whether an assignment of `n` cells can be set up: units of flow are counted in 32 bits, arcs and nodes in
/// machine words.
pub open spec fn solvable(n: int) -> bool {
    n <= i32::MAX && n * (n + 4) + 3 <= usize::MAX
}

proof fn lemma_solvable_fits(n: int)
    requires
        0 <= n,
        solvable(n),
    ensures
        n * (n + 2) + (2 * n + 2) < usize::MAX,
        n * (n + 2) >= 0,
{
    assert(n * (n + 4) == n * (n + 2) + 2 * n) by (nonlinear_arith);
    assert(n * (n + 2) >= 0) by (nonlinear_arith)
        requires n >= 0;
}

proof fn lemma_solvable(a: int, b: int)
    requires
        0 <= a <= b,
        solvable(b),
    ensures
        solvable(a),
{
    assert(a * (a + 4) <= b * (b + 4)) by (nonlinear_arith)
        requires 0 <= a <= b;
}

/// The first `n` candidates that are in a bin, in order.
pub open spec fn in_bin(cands: Seq<usize>, at: Seq<usize>, b: int, n: int) -> Seq<usize>
    decreases n,
{
    if n <= 0 {
        Seq::empty()
    } else if at[cands[n - 1] as int] == b {
        in_bin(cands, at, b, n - 1).push(cands[n - 1])
    } else {
        in_bin(cands, at, b, n - 1)
    }
}

impl Bins {
    /// The candidates of a bin.
    pub open spec fn cells(&self, cands: Seq<usize>, b: int) -> Seq<usize> {
        in_bin(cands, self.at@, b, cands.len() as int)
    }

    /// The candidates are in bins there are.
    pub open spec fn hold(&self, cands: Seq<usize>, n: int) -> bool {
        &&& self.cols * self.rows <= usize::MAX
        &&& self.at@.len() == n
        &&& all_below(cands, n)
        &&& forall|k: int| 0 <= k < cands.len() ==> self.at@[#[trigger] cands[k] as int] < self.cols * self.rows
    }

    /// No bin holds more candidates than an assignment can take.
    pub open spec fn small_bins(&self, cands: Seq<usize>) -> bool {
        forall|b: int| 0 <= b < self.cols * self.rows ==> solvable(MIS_MAX_PROBLEM + #[trigger] self.cells(cands, b).len())
    }

    /// The bins left of, right of, below and above a bin, as far as there are any.
    pub open spec fn around(&self, b: int) -> Seq<usize> {
        let (i, j) = (b / self.rows as int, b % self.rows as int);
        let left = if i > 0 { seq![(b - self.rows) as usize] } else { Seq::empty() };
        let right = if i + 1 < self.cols { seq![(b + self.rows) as usize] } else { Seq::empty() };
        let below = if j > 0 { seq![(b - 1) as usize] } else { Seq::empty() };
        let above = if j + 1 < self.rows { seq![(b + 1) as usize] } else { Seq::empty() };
        left + right + below + above
    }
}

/// Whether two cells can stand for each other: of one colour, size, group and with the same rails.
pub open spec fn alike(l: &Land, s: St, colors: Seq<i32>, a: usize, b: usize) -> bool {
    let (x, y) = (s.nodes[a as int], s.nodes[b as int]);
    a != b && colors[a as int] == colors[b as int] && x.width == y.width && x.height == y.height && x.group == y.group
        && l.master_rails@[a as int] == l.master_rails@[b as int]
}

/// The first `n` cells of a list that can stand for a cell.
pub open spec fn likes(l: &Land, s: St, colors: Seq<i32>, nd: usize, list: Seq<usize>, n: int) -> Seq<usize>
    decreases n,
{
    if n <= 0 {
        Seq::empty()
    } else if alike(l, s, colors, nd, list[n - 1]) {
        likes(l, s, colors, nd, list, n - 1).push(list[n - 1])
    } else {
        likes(l, s, colors, nd, list, n - 1)
    }
}

impl Land {
    /// The cells gathered by walking at most `steps` bins of a queue: bins seen before are passed over,
    /// and the walk ends when there are enough cells.
    pub open spec fn gather_walk(&self, s: St, bins: Bins, cands: Seq<usize>, colors: Seq<i32>, nd: usize, queue: Seq<usize>, seen: Seq<bool>, out: Seq<usize>, steps: int) -> Seq<usize>
        decreases steps,
    {
        if steps <= 0 || queue.len() == 0 {
            out
        } else {
            let b = queue[0];
            let rest = queue.subrange(1, queue.len() as int);
            if seen[b as int] {
                self.gather_walk(s, bins, cands, colors, nd, rest, seen, out, steps - 1)
            } else {
                let cells = bins.cells(cands, b as int);
                let more = out + likes(self, s, colors, nd, cells, cells.len() as int);
                if more.len() >= MIS_MAX_PROBLEM {
                    more
                } else {
                    self.gather_walk(s, bins, cands, colors, nd, rest + bins.around(b as int), seen.update(b as int, true), more, steps - 1)
                }
            }
        }
    }

    /// A cell and those that can stand for it, gathered bin by bin from its own outwards.
    pub open spec fn gathered(&self, s: St, bins: Bins, cands: Seq<usize>, colors: Seq<i32>, nd: usize) -> Seq<usize> {
        let n = bins.cols * bins.rows;
        self.gather_walk(s, bins, cands, colors, nd, seq![bins.at@[nd as int]], Seq::new(n as nat, |b: int| false), seq![nd], 4 * n + 1)
    }
}

/// How many of the first `n` bins were not seen.
spec fn unseen(seen: Seq<bool>, n: int) -> int
    decreases n,
{
    if n <= 0 { 0 } else { unseen(seen, n - 1) + (if seen[n - 1] { 0int } else { 1 }) }
}

proof fn lemma_unseen_mark(seen: Seq<bool>, b: int, n: int)
    requires
        0 <= b < seen.len(),
        !seen[b],
        0 <= n <= seen.len(),
    ensures
        unseen(seen.update(b, true), n) == unseen(seen, n) - (if b < n { 1int } else { 0 }),
        unseen(seen, n) >= 0,
        unseen(seen.update(b, true), n) >= 0,
    decreases n,
{
    if n > 0 {
        lemma_unseen_mark(seen, b, n - 1);
    }
}

proof fn lemma_unseen_all(seen: Seq<bool>, n: int)
    requires
        forall|b: int| 0 <= b < seen.len() ==> !#[trigger] seen[b],
        0 <= n <= seen.len(),
    ensures
        unseen(seen, n) == n,
    decreases n,
{
    if n > 0 {
        lemma_unseen_all(seen, n - 1);
    }
}

/// The bins around a bin there is are bins there are.
proof fn lemma_around(bins: Bins, b: int)
    requires
        0 <= b < bins.cols * bins.rows,
        bins.cols * bins.rows <= usize::MAX,
    ensures
        all_below(bins.around(b), bins.cols * bins.rows),
        bins.around(b).len() <= 4,
        bins.rows > 0,
        b / bins.rows as int > 0 ==> b >= bins.rows,
        b / bins.rows as int + 1 < bins.cols ==> b + bins.rows < bins.cols * bins.rows,
        b % bins.rows as int > 0 ==> b >= 1,
        b % bins.rows as int + 1 < bins.rows ==> b + 1 < bins.cols * bins.rows,
        bins.rows <= usize::MAX,
{
    let (c, r) = (bins.cols as int, bins.rows as int);
    assert(r > 0) by (nonlinear_arith)
        requires 0 <= b < c * r, r >= 0, c >= 0;
    assert(c > 0) by (nonlinear_arith)
        requires 0 <= b < c * r, r >= 0, c >= 0;
    let (i, j) = (b / r, b % r);
    assert(b == i * r + j && 0 <= j < r) by (nonlinear_arith)
        requires i == b / r, j == b % r, r > 0;
    assert(i >= 0) by (nonlinear_arith)
        requires i == b / r, b >= 0, r > 0;
    assert(r <= c * r) by (nonlinear_arith)
        requires c >= 1, r > 0;
    assert(i < c) by (nonlinear_arith)
        requires i * r + j < c * r, 0 <= j, r > 0;
    if i > 0 {
        assert(i * r >= r) by (nonlinear_arith)
            requires i >= 1, r > 0;
    }
    if i + 1 < c {
        assert((i + 2) * r <= c * r) by (nonlinear_arith)
            requires i + 2 <= c, r > 0;
        assert((i + 2) * r == i * r + 2 * r) by (nonlinear_arith);
    }
    assert((i + 1) * r <= c * r) by (nonlinear_arith)
        requires i + 1 <= c, r > 0;
    assert((i + 1) * r == i * r + r) by (nonlinear_arith);
    if j > 0 {
        assert(i * r >= 0) by (nonlinear_arith)
            requires i >= 0, r > 0;
    }
}

proof fn lemma_in_bin(cands: Seq<usize>, at: Seq<usize>, b: int, n: int, m: int)
    requires
        all_below(cands, m),
        0 <= n <= cands.len(),
    ensures
        all_below(in_bin(cands, at, b, n), m),
        in_bin(cands, at, b, n).len() <= n,
    decreases n,
{
    if n > 0 {
        lemma_in_bin(cands, at, b, n - 1, m);
    }
}

impl Bins {
    /// The candidates of each bin.
    fn fill(&self, cands: &Vec<usize>, n: usize) -> (grid: Vec<Vec<usize>>)
        requires
            self.hold(cands@, n as int),
        ensures
            grid@.len() == self.cols * self.rows,
            forall|b: int| 0 <= b < grid@.len() ==> (#[trigger] grid@[b])@ == self.cells(cands@, b),
    {
        let ghost at = self.at@;
        assert(self.cols * self.rows >= 0) by (nonlinear_arith);
        let m: usize = self.cols * self.rows;
        let mut grid: Vec<Vec<usize>> = Vec::new();
        let mut z: usize = 0;
        while z < m
            invariant
                z <= m,
                grid@.len() == z,
                forall|b: int| 0 <= b < z ==> (#[trigger] grid@[b])@ == in_bin(cands@, at, b, 0),
            decreases m - z,
        {
            let none: Vec<usize> = Vec::new();
            assert(none@ =~= in_bin(cands@, at, z as int, 0));
            grid.push(none);
            z = z + 1;
        }
        let mut k: usize = 0;
        while k < cands.len()
            invariant
                self.hold(cands@, n as int),
                m == self.cols * self.rows,
                at == self.at@,
                k <= cands@.len(),
                grid@.len() == m,
                forall|b: int| 0 <= b < m ==> (#[trigger] grid@[b])@ == in_bin(cands@, at, b, k as int),
            decreases cands@.len() - k,
        {
            let c: usize = cands[k];
            let b: usize = self.at[c];
            let ghost g0 = grid@;
            grid[b].push(c);
            proof {
                assert forall|d: int| 0 <= d < m implies (#[trigger] grid@[d])@ == in_bin(cands@, at, d, k + 1) by {
                    assert(g0[d]@ == in_bin(cands@, at, d, k as int));
                    if d != b {
                        assert(grid@[d] == g0[d]);
                    }
                }
            }
            k = k + 1;
        }
        grid
    }
}

impl Live {
    /// Gather a cell and those that can stand for it, bin by bin from its own outwards. Once there are
    /// enough, after a whole bin, no more bins are walked.
    fn mis_gather(&self, l: &Land, bins: &Bins, grid: &Vec<Vec<usize>>, Ghost(cands): Ghost<Seq<usize>>, colors: &Vec<i32>, nd: usize) -> (r: Vec<usize>)
        requires
            l.wf(),
            l.ok(self@),
            bins.hold(cands, l.count()),
            grid@.len() == bins.cols * bins.rows,
            forall|b: int| 0 <= b < grid@.len() ==> (#[trigger] grid@[b])@ == bins.cells(cands, b),
            bins.small_bins(cands),
            colors@.len() == l.count(),
            nd < l.count(),
            bins.at@[nd as int] < bins.cols * bins.rows,
        ensures
            r@ == l.gathered(self@, *bins, cands, colors@, nd),
            all_below(r@, l.count()),
            1 <= r@.len(),
            solvable(r@.len() as int),
    {
        let ghost s = self@;
        let m: usize = grid.len();
        let mut seen: Vec<bool> = Vec::new();
        let mut z: usize = 0;
        while z < m
            invariant
                z <= m,
                seen@.len() == z,
                forall|b: int| 0 <= b < z ==> !#[trigger] seen@[b],
            decreases m - z,
        {
            seen.push(false);
            z = z + 1;
        }
        let mut out: Vec<usize> = Vec::new();
        out.push(nd);
        let mut queue: Vec<usize> = Vec::new();
        queue.push(bins.at[nd]);
        let mut head: usize = 0;
        let ghost mut steps: int = 4 * m + 1;
        let ghost goal = l.gathered(s, *bins, cands, colors@, nd);
        proof {
            lemma_unseen_all(seen@, m as int);
            assert(seen@ =~= Seq::new(m as nat, |b: int| false));
            assert(out@ =~= seq![nd]);
            assert(queue@.subrange(0, 1) =~= seq![bins.at@[nd as int]]);
        }
        while head < queue.len()
            invariant
                l.wf(),
                l.ok(self@),
                s == self@,
                bins.hold(cands, l.count()),
                bins.small_bins(cands),
                m == bins.cols * bins.rows,
                grid@.len() == m,
                forall|b: int| 0 <= b < m ==> (#[trigger] grid@[b])@ == bins.cells(cands, b),
                colors@.len() == l.count(),
                nd < l.count(),
                seen@.len() == m,
                head <= queue@.len(),
                all_below(queue@, m as int),
                all_below(out@, l.count()),
                1 <= out@.len() < MIS_MAX_PROBLEM,
                0 <= unseen(seen@, m as int),
                4 * unseen(seen@, m as int) + (queue@.len() - head) <= steps,
                goal == l.gathered(s, *bins, cands, colors@, nd),
                l.gather_walk(s, *bins, cands, colors@, nd, queue@.subrange(head as int, queue@.len() as int), seen@, out@, steps) == goal,
            decreases 4 * unseen(seen@, m as int) + (queue@.len() - head),
        {
            let ghost q0 = queue@;
            let ghost rest = q0.subrange(head + 1, q0.len() as int);
            let b: usize = queue[head];
            proof {
                let q = q0.subrange(head as int, q0.len() as int);
                assert(q[0] == b);
                assert(q.subrange(1, q.len() as int) =~= rest);
            }
            head = head + 1;
            if !seen[b] {
                let ghost seen0 = seen@;
                let ghost out0 = out@;
                seen.set(b, true);
                proof {
                    lemma_unseen_mark(seen0, b as int, m as int);
                    lemma_in_bin(cands, bins.at@, b as int, cands.len() as int, l.count());
                    lemma_around(*bins, b as int);
                }
                let cells = &grid[b];
                assert(cells@ == bins.cells(cands, b as int));
                assert(all_below(cells@, l.count()));
                assert(solvable(MIS_MAX_PROBLEM + cells@.len()));
                let mut k: usize = 0;
                assert(out0 + likes(l, s, colors@, nd, cells@, 0) =~= out0);
                while k < cells.len()
                    invariant
                        l.wf(),
                        l.ok(self@),
                        s == self@,
                        colors@.len() == l.count(),
                        nd < l.count(),
                        all_below(cells@, l.count()),
                        k <= cells@.len(),
                        all_below(out@, l.count()),
                        out@ == out0 + likes(l, s, colors@, nd, cells@, k as int),
                        out0.len() <= out@.len() <= out0.len() + k,
                    decreases cells@.len() - k,
                {
                    let c: usize = cells[k];
                    let (x, y) = (&self.nodes[nd], &self.nodes[c]);
                    if nd != c && colors[nd] == colors[c] && x.width == y.width && x.height == y.height && x.group == y.group
                        && l.master_rails[nd].0 == l.master_rails[c].0 && l.master_rails[nd].1 == l.master_rails[c].1 {
                        out.push(c);
                        assert(out@ =~= out0 + likes(l, s, colors@, nd, cells@, k + 1));
                    }
                    k = k + 1;
                }
                if out.len() >= MIS_MAX_PROBLEM {
                    proof {
                        lemma_solvable(out@.len() as int, MIS_MAX_PROBLEM + cells@.len());
                    }
                    return out;
                }
                let (i, j) = (b / bins.rows, b % bins.rows);
                if i > 0 {
                    queue.push(b - bins.rows);
                }
                if i + 1 < bins.cols {
                    queue.push(b + bins.rows);
                }
                if j > 0 {
                    queue.push(b - 1);
                }
                if j + 1 < bins.rows {
                    queue.push(b + 1);
                }
                proof {
                    assert(queue@ =~= q0 + bins.around(b as int));
                    assert(queue@.subrange(head as int, queue@.len() as int) =~= rest + bins.around(b as int));
                }
            } else {
                assert(queue@.subrange(head as int, queue@.len() as int) =~= rest);
            }
            proof {
                steps = steps - 1;
            }
        }
        assert(queue@.subrange(head as int, queue@.len() as int).len() == 0);
        proof {
            assert(solvable(MIS_MAX_PROBLEM as int));
            lemma_solvable(out@.len() as int, MIS_MAX_PROBLEM as int);
        }
        out
    }
}

// ── the assignment ───────────────────────────────────────────────────────────────────────────

/// An arc of the assignment's graph: its ends, its cost, and the cell and the spot it stands for.
#[derive(Debug, Clone, Copy, PartialEq, Eq)]
pub struct Link {
    pub from: usize,
    pub to: usize,
    pub cost: i32,
    pub pair: Option<(usize, usize)>,
}

impl Land {
    /// The lengths of the nets of the first `n` pins of a node, as far as they count.
    pub open spec fn pin_nets_length(&self, s: St, nd: int, n: int) -> int
        decreases n,
    {
        if n <= 0 {
            0
        } else {
            let e = s.pins[self.node_pins@[nd]@[n - 1] as int].edge as int;
            self.pin_nets_length(s, nd, n - 1) + (if self.net_matters(e) { self.net_length(s, e) } else { 0 })
        }
    }

    /// The length of a cell's nets with the cell at another place, at most the greatest cost.
    pub open spec fn cost_at(&self, s: St, nd: usize, x: i32, y: i32) -> int {
        imin(self.pin_nets_length(placed(s, nd, x, y), nd as int, self.node_pins@[nd as int]@.len() as int), i32::MAX as int)
    }

    /// Whether a cell may take the spot of another of a list: it is its own, or near enough to where
    /// the cell started.
    pub open spec fn may_take(&self, s: St, nodes: Seq<usize>, i: int, j: int) -> bool {
        let (c, p) = (nodes[i] as int, s.nodes[nodes[j] as int]);
        i == j || (dist(p.left as int, self.orig@[c].0 as int) <= self.max_disp.0 && dist(p.bottom as int, self.orig@[c].1 as int) <= self.max_disp.1)
    }

    /// The arc from a cell to a spot.
    pub open spec fn pair_link(&self, s: St, nodes: Seq<usize>, i: int, j: int) -> Link {
        let p = s.nodes[nodes[j] as int];
        Link { from: (2 * i) as usize, to: (2 * j + 1) as usize, cost: self.cost_at(s, nodes[i], p.left, p.bottom) as i32, pair: Some((i as usize, j as usize)) }
    }

    /// The arcs of a cell: into it, out of its spot, and to the first `j` spots it may take.
    pub open spec fn cell_links(&self, s: St, nodes: Seq<usize>, i: int, j: int) -> Seq<Link>
        decreases j,
    {
        let n = nodes.len();
        if j <= 0 {
            seq![
                Link { from: (2 * n) as usize, to: (2 * i) as usize, cost: 0, pair: None },
                Link { from: (2 * i + 1) as usize, to: (2 * n + 1) as usize, cost: 0, pair: None },
            ]
        } else if self.may_take(s, nodes, i, j - 1) {
            self.cell_links(s, nodes, i, j - 1).push(self.pair_link(s, nodes, i, j - 1))
        } else {
            self.cell_links(s, nodes, i, j - 1)
        }
    }

    /// The arcs of the first `i` cells.
    pub open spec fn links(&self, s: St, nodes: Seq<usize>, i: int) -> Seq<Link>
        decreases i,
    {
        if i <= 0 { Seq::empty() } else { self.links(s, nodes, i - 1) + self.cell_links(s, nodes, i - 1, nodes.len() as int) }
    }
}

/// The graph has the arcs, in order, between `n` cells, `n` spots, a source and a sink.
pub open spec fn graph_of(g: ListDigraph, links: Seq<Link>, n: int) -> bool {
    &&& g.wf()
    &&& g.node_count == 2 * n + 2
    &&& g.src@ == Seq::new(links.len(), |k: int| links[k].from)
    &&& g.tgt@ == Seq::new(links.len(), |k: int| links[k].to)
}

/// The problem sends `n` units over the arcs from the source to the sink, at most one over each.
pub open spec fn assigns(p: NetworkSimplex, g: ListDigraph, links: Seq<Link>, n: int) -> bool {
    &&& p.wf()
    &&& p.is_of(g)
    &&& forall|k: int| 0 <= k < links.len() ==> p.lower@[#[trigger] p.arc_id@[k] as int] == 0 && p.upper@[p.arc_id@[k] as int] == 1
        && p.cost@[p.arc_id@[k] as int] == links[k].cost
    &&& forall|u: int| 0 <= u < 2 * n + 2 ==> #[trigger] p.supply@[2 * n + 1 - u] == (if u == 2 * n + 1 { -n } else if u == 2 * n { n } else { 0 })
    &&& p.supply@[2 * n + 2] == 0
}

/// The spots of the cells after the first `k` arcs: an arc that carries something gives its cell its spot.
pub open spec fn spots(p: NetworkSimplex, flow: Seq<i32>, links: Seq<Link>, n: int, k: int) -> Seq<usize>
    decreases k,
{
    if k <= 0 {
        Seq::new(n as nat, |i: int| i as usize)
    } else {
        let before = spots(p, flow, links, n, k - 1);
        match links[k - 1].pair {
            Some((i, j)) => if flow[p.arc_id@[k - 1] as int] != 0 { before.update(i as int, j) } else { before },
            None => before,
        }
    }
}

impl Land {
    /// The state after a cell left its segments and squares for another spot and took that spot's.
    pub open spec fn hopped(&self, s: St, nd: usize, from: Seq<usize>, x: i32, y: i32, to: Seq<usize>) -> St {
        let up = self.lifted(leaves_all(s, nd, from, from.len() as int), nd as int);
        joins_all(self.settled(placed(up, nd, x, y), nd as int), nd, to, to.len() as int)
    }

    /// The state after a cell was put back.
    pub open spec fn unhopped(&self, s: St, nd: usize, from: Seq<usize>, x: i32, y: i32, to: Seq<usize>) -> St {
        let up = leaves_all(self.lifted(s, nd as int), nd, from, from.len() as int);
        joins_all(self.settled_near(placed(up, nd, x, y), nd as int), nd, to, to.len() as int)
    }

    /// The state after the cells from the `k`th on took their spots, the last cell first.
    pub open spec fn exchanged(&self, s: St, nodes: Seq<usize>, to: Seq<usize>, k: int) -> St
        decreases nodes.len() - k,
    {
        if k >= nodes.len() {
            s
        } else {
            let t = self.exchanged(s, nodes, to, k + 1);
            let (a, b) = (nodes[k] as int, nodes[to[k] as int] as int);
            if to[k] == k {
                t
            } else {
                self.hopped(t, nodes[k], s.homes[a], s.nodes[b].left, s.nodes[b].bottom, s.homes[b])
            }
        }
    }

    /// The state after the first `k` cells were put back, the first cell first.
    pub open spec fn brought_back(&self, s: St, t: St, nodes: Seq<usize>, to: Seq<usize>, k: int) -> St
        decreases k,
    {
        if k <= 0 {
            t
        } else {
            let u = self.brought_back(s, t, nodes, to, k - 1);
            let (a, b) = (nodes[k - 1] as int, nodes[to[k - 1] as int] as int);
            if to[k - 1] == k - 1 {
                u
            } else {
                self.unhopped(u, nodes[k - 1], s.homes[b], s.nodes[a].left, s.nodes[a].bottom, s.homes[a])
            }
        }
    }

    /// Whether one of the first `k` cells breaks a rule.
    pub open spec fn some_violates(&self, s: St, nodes: Seq<usize>, k: int) -> bool {
        exists|i: int| 0 <= i < k && self.violates(s, #[trigger] nodes[i] as int)
    }

    /// The state after the cells took their spots, or were put back because one of them broke a rule.
    pub open spec fn matched(&self, s: St, nodes: Seq<usize>, to: Seq<usize>) -> St {
        let t = self.exchanged(s, nodes, to, 0);
        if self.some_violates(t, nodes, nodes.len() as int) {
            self.brought_back(s, t, nodes, to, nodes.len() as int)
        } else {
            t
        }
    }

    /// A run on the assignment's problem ends with `flow`, if it finds one.
    pub open spec fn solves(&self, s: St, nodes: Seq<usize>, p: NetworkSimplex, g: ListDigraph, block: int, flow: Seq<i32>) -> bool {
        let (n, links) = (nodes.len() as int, self.links(s, nodes, nodes.len() as int));
        &&& graph_of(g, links, n)
        &&& assigns(p, g, links, n)
        &&& is_block(block, p.arc_num as int)
        &&& p.finds(block) ==> {
            &&& p.ending(block) matches Ending::Settled(t)
            &&& flow == with_lower(p, t.flow)
            &&& flow.len() >= p.arc_num
            &&& p.meets(flow)
            &&& p.is_tight(flow, t.pi)
        }
    }

    /// The state after an assignment with the help of a solver that ends with `flow`.
    pub open spec fn solved(&self, s: St, nodes: Seq<usize>, p: NetworkSimplex, block: int, flow: Seq<i32>) -> St {
        let (n, links) = (nodes.len() as int, self.links(s, nodes, nodes.len() as int));
        if nodes.len() <= 1 || !p.finds(block) { s } else { self.matched(s, nodes, spots(p, flow, links, n, links.len() as int)) }
    }

    /// Whether assigning the cells of a list to each other's spots leads from one state to another.
    pub open spec fn assigned(&self, s: St, nodes: Seq<usize>, t: St) -> bool {
        if nodes.len() <= 1 {
            t == s
        } else {
            exists|p: NetworkSimplex, g: ListDigraph, block: int, flow: Seq<i32>| #![trigger self.solves(s, nodes, p, g, block, flow)]
                self.solves(s, nodes, p, g, block, flow) && t == self.solved(s, nodes, p, block, flow)
        }
    }
}

impl Live {
    /// The length of a cell's nets with the cell at another place, at most the greatest cost.
    fn mis_hpwl(&mut self, l: &Land, nd: usize, x: i32, y: i32) -> (r: i32)
        requires
            l.wf(),
            l.ok(old(self)@),
            nd < l.count(),
            reachable(x as int),
            reachable(y as int),
        ensures
            l.ok(final(self)@),
            final(self)@ == old(self)@,
            r == l.cost_at(old(self)@, nd, x, y),
            r >= 0,
    {
        let ghost s0 = self@;
        let (x0, y0) = (self.nodes[nd].left, self.nodes[nd].bottom);
        assert(node_in(s0.nodes[nd as int]));
        self.put(l, nd, x, y);
        let ghost s = self@;
        let pins = &l.node_pins[nd];
        assert(lists(l.node_pins@)[nd as int] == pins@);
        let most: u64 = i32::MAX as u64;
        let mut sum: u64 = 0;
        let mut k: usize = 0;
        while k < pins.len()
            invariant
                l.wf(),
                l.ok(self@),
                s == self@,
                nd < l.count(),
                pins@ == l.node_pins@[nd as int]@,
                all_below(pins@, s.pins.len() as int),
                k <= pins@.len(),
                most == i32::MAX,
                sum == imin(l.pin_nets_length(s, nd as int, k as int), i32::MAX as int),
                sum <= most,
                l.pin_nets_length(s, nd as int, k as int) >= 0,
            decreases pins@.len() - k,
        {
            let e: usize = self.pins[pins[k]].edge;
            assert(s.pins[pins@[k as int] as int].edge < l.edges@.len());
            let size: usize = l.edges[e].len();
            if size > 1 && size <= MIS_SKIP_EDGES_LARGER_THAN {
                let h: u64 = self.edge_hpwl(l, e);
                sum = if sum + h > most { most } else { sum + h };
            }
            k = k + 1;
        }
        self.put(l, nd, x0, y0);
        proof {
            let back = Node { left: x0, bottom: y0, ..s.nodes[nd as int] };
            assert(back == s0.nodes[nd as int]);
            assert(self@.nodes =~= s0.nodes);
            assert(self@ == s0);
        }
        sum as i32
    }

    /// The arcs of the assignment, and their graph.
    fn mis_links(&mut self, l: &Land, nodes: &Vec<usize>) -> (r: (ListDigraph, Vec<Link>))
        requires
            l.wf(),
            l.ok(old(self)@),
            all_below(nodes@, l.count()),
            solvable(nodes@.len() as int),
        ensures
            l.ok(final(self)@),
            final(self)@ == old(self)@,
            r.1@ == l.links(old(self)@, nodes@, nodes@.len() as int),
            graph_of(r.0, r.1@, nodes@.len() as int),
            r.1@.len() <= nodes@.len() * (nodes@.len() + 2),
    {
        let ghost s = self@;
        let n: usize = nodes.len();
        proof {
            lemma_solvable_fits(n as int);
        }
        let mut g = ListDigraph::new();
        let mut z: usize = 0;
        while z < 2 * n + 2
            invariant
                2 * n + 2 < usize::MAX,
                z <= 2 * n + 2,
                g.wf(),
                g.node_count == z,
                g.src@.len() == 0,
                g.tgt@.len() == 0,
            decreases 2 * n + 2 - z,
        {
            g.add_node();
            z = z + 1;
        }
        let mut links: Vec<Link> = Vec::new();
        let mut i: usize = 0;
        assert(links@ =~= l.links(s, nodes@, 0));
        assert(graph_of(g, links@, n as int)) by {
            assert(g.src@ =~= Seq::new(0, |k: int| links@[k].from));
            assert(g.tgt@ =~= Seq::new(0, |k: int| links@[k].to));
        }
        while i < n
            invariant
                l.wf(),
                l.ok(self@),
                self@ == s,
                n == nodes@.len(),
                all_below(nodes@, l.count()),
                solvable(n as int),
                2 * n + 2 < usize::MAX,
                i <= n,
                links@ == l.links(s, nodes@, i as int),
                graph_of(g, links@, n as int),
                links@.len() <= i * (n + 2),
            decreases n - i,
        {
            let c: usize = nodes[i];
            let ghost before = links@;
            let into = Link { from: 2 * n, to: 2 * i, cost: 0, pair: None };
            let out = Link { from: 2 * i + 1, to: 2 * n + 1, cost: 0, pair: None };
            add_link(&mut g, &mut links, into, n);
            add_link(&mut g, &mut links, out, n);
            assert(links@ =~= before + l.cell_links(s, nodes@, i as int, 0));
            let mut j: usize = 0;
            while j < n
                invariant
                    l.wf(),
                    l.ok(self@),
                    self@ == s,
                    n == nodes@.len(),
                    all_below(nodes@, l.count()),
                    solvable(n as int),
                    2 * n + 2 < usize::MAX,
                    i < n,
                    c == nodes@[i as int],
                    c < l.count(),
                    j <= n,
                    links@ == before + l.cell_links(s, nodes@, i as int, j as int),
                    graph_of(g, links@, n as int),
                    links@.len() <= before.len() + 2 + j,
                decreases n - j,
            {
                let d: usize = nodes[j];
                let (x, y) = (self.nodes[d].left, self.nodes[d].bottom);
                proof {
                    assert(node_in(s.nodes[d as int]));
                    assert(small(l.orig@[c as int].0 as int) && small(l.orig@[c as int].1 as int));
                }
                let (ox, oy) = l.orig[c];
                let near: bool = distance(x as i64, ox as i64) <= l.max_disp.0 as i64 && distance(y as i64, oy as i64) <= l.max_disp.1 as i64;
                assert((i == j || near) == l.may_take(s, nodes@, i as int, j as int));
                if i == j || near {
                    let cost: i32 = self.mis_hpwl(l, c, x, y);
                    let link = Link { from: 2 * i, to: 2 * j + 1, cost, pair: Some((i, j)) };
                    assert(link == l.pair_link(s, nodes@, i as int, j as int));
                    add_link(&mut g, &mut links, link, n);
                    assert(links@ =~= before + l.cell_links(s, nodes@, i as int, j + 1));
                }
                j = j + 1;
            }
            proof {
                assert((i + 1) * (n + 2) == i * (n + 2) + (n + 2)) by (nonlinear_arith);
            }
            i = i + 1;
        }
        proof {
            assert(i == n);
        }
        (g, links)
    }
}

fn add_link(g: &mut ListDigraph, links: &mut Vec<Link>, link: Link, n: usize)
    requires
        graph_of(*old(g), old(links)@, n as int),
        link.from < 2 * n + 2,
        link.to < 2 * n + 2,
    ensures
        final(links)@ == old(links)@.push(link),
        graph_of(*final(g), final(links)@, n as int),
{
    g.add_arc(link.from, link.to);
    links.push(link);
    assert(g.src@ =~= Seq::new(links@.len(), |k: int| links@[k].from));
    assert(g.tgt@ =~= Seq::new(links@.len(), |k: int| links@[k].to));
}

/// The problem of the arcs: `n` units from the source to the sink.
fn problem_of(g: &ListDigraph, links: &Vec<Link>, n: usize) -> (p: NetworkSimplex)
    requires
        graph_of(*g, links@, n as int),
        links@.len() <= n * (n + 2),
        solvable(n as int),
    ensures
        assigns(p, *g, links@, n as int),
        p.limits_ok(),
{
    proof {
        lemma_solvable_fits(n as int);
    }
    let mut p = NetworkSimplex::new(g);
    let ghost p0 = p;
    let mut k: usize = 0;
    while k < links.len()
        invariant
            graph_of(*g, links@, n as int),
            p.wf(),
            p.same_graph(p0),
            p0.is_of(*g),
            p0.wf(),
            p.supply == p0.supply,
            p.arc_num == links@.len(),
            k <= links@.len(),
            forall|i: int| 0 <= i < k ==> p.lower@[#[trigger] p.arc_id@[i] as int] == 0 && p.upper@[p.arc_id@[i] as int] == 1
                && p.cost@[p.arc_id@[i] as int] == links@[i].cost,
            forall|e: int| 0 <= e < p.arc_num ==> #[trigger] p.lower@[e] <= p.upper@[e],
        decreases links@.len() - k,
    {
        let ghost q = p;
        p.set_arc(k, 0, 1, links[k].cost);
        proof {
            assert forall|i: int| 0 <= i < k + 1 implies p.lower@[#[trigger] p.arc_id@[i] as int] == 0 && p.upper@[p.arc_id@[i] as int] == 1
                && p.cost@[p.arc_id@[i] as int] == links@[i].cost by {
                if i < k {
                    assert(q.arc_id@[i] != q.arc_id@[k as int]);
                    assert(q.lower@[q.arc_id@[i] as int] == 0);
                }
            }
        }
        k = k + 1;
    }
    p.st_supply(2 * n, 2 * n + 1, n as i32);
    proof {
        assert(p.node_id@[2 * n as int] == 1 && p.node_id@[2 * n + 1] == 0);
        assert forall|i: int| 0 <= i < links@.len() implies p.lower@[#[trigger] p.arc_id@[i] as int] == 0 && p.upper@[p.arc_id@[i] as int] == 1
            && p.cost@[p.arc_id@[i] as int] == links@[i].cost by {
        }
        assert forall|a: int| 0 <= a < p.arc_num implies p.source@[#[trigger] p.arc_id@[a] as int] == p.node_num - 1 - g.src@[a]
            && p.target@[p.arc_id@[a] as int] == p.node_num - 1 - g.tgt@[a] by {
            assert(p0.source@[p0.arc_id@[a] as int] == p0.node_num - 1 - g.src@[a]);
        }
        assert(p0.supply@[2 * n + 2] == 0);
    }
    p
}

/// The spots that the flow gives the cells.
fn spots_of(p: &NetworkSimplex, Ghost(asked): Ghost<NetworkSimplex>, links: &Vec<Link>, n: usize) -> (to: Vec<usize>)
    requires
        asked.wf(),
        p.wf_tables(),
        p.kept(asked),
        p.arc_num == links@.len(),
        forall|k: int| 0 <= k < links@.len() ==> ((#[trigger] links@[k]).pair matches Some(q) ==> q.0 < n && q.1 < n),
    ensures
        to@ == spots(asked, p.flow@, links@, n as int, links@.len() as int),
        to@.len() == n,
        all_below(to@, n as int),
{
    let mut to: Vec<usize> = Vec::new();
    let mut z: usize = 0;
    while z < n
        invariant
            z <= n,
            to@.len() == z,
            forall|i: int| 0 <= i < z ==> #[trigger] to@[i] == i,
        decreases n - z,
    {
        to.push(z);
        z = z + 1;
    }
    assert(to@ =~= spots(asked, p.flow@, links@, n as int, 0));
    let mut k: usize = 0;
    while k < links.len()
        invariant
            asked.wf(),
            p.wf_tables(),
            p.kept(asked),
            p.arc_num == links@.len(),
            forall|i: int| 0 <= i < links@.len() ==> ((#[trigger] links@[i]).pair matches Some(q) ==> q.0 < n && q.1 < n),
            k <= links@.len(),
            to@ == spots(asked, p.flow@, links@, n as int, k as int),
            to@.len() == n,
            all_below(to@, n as int),
        decreases links@.len() - k,
    {
        assert(asked.arc_id@[k as int] < asked.arc_num);
        let link: Link = links[k];
        if let Some((i, j)) = link.pair {
            if p.flow[p.arc_id[k]] != 0 {
                to.set(i, j);
            }
        }
        k = k + 1;
    }
    to
}

proof fn lemma_pairs_below(l: Land, s: St, nodes: Seq<usize>, i: int, j: int)
    requires
        0 <= i < nodes.len(),
        solvable(nodes.len() as int),
        0 <= j <= nodes.len(),
    ensures
        forall|k: int| 0 <= k < l.cell_links(s, nodes, i, j).len() ==>
            ((#[trigger] l.cell_links(s, nodes, i, j)[k]).pair matches Some(q) ==> q.0 < nodes.len() && q.1 < nodes.len()),
    decreases j,
{
    if j > 0 {
        lemma_pairs_below(l, s, nodes, i, j - 1);
    }
}

proof fn lemma_links_below(l: Land, s: St, nodes: Seq<usize>, i: int)
    requires
        0 <= i <= nodes.len(),
        solvable(nodes.len() as int),
    ensures
        forall|k: int| 0 <= k < l.links(s, nodes, i).len() ==>
            ((#[trigger] l.links(s, nodes, i)[k]).pair matches Some(q) ==> q.0 < nodes.len() && q.1 < nodes.len()),
    decreases i,
{
    if i > 0 {
        lemma_links_below(l, s, nodes, i - 1);
        lemma_pairs_below(l, s, nodes, i - 1, nodes.len() as int);
        let (a, b) = (l.links(s, nodes, i - 1), l.cell_links(s, nodes, i - 1, nodes.len() as int));
        assert forall|k: int| 0 <= k < (a + b).len() implies ((#[trigger] (a + b)[k]).pair matches Some(q) ==> q.0 < nodes.len() && q.1 < nodes.len()) by {
            if k < a.len() {
                assert((a + b)[k] == a[k]);
            } else {
                assert((a + b)[k] == b[k - a.len()]);
            }
        }
    }
}

impl Live {
    /// Take a cell from its segments and squares to another spot.
    fn hop(&mut self, l: &Land, nd: usize, from: &Vec<usize>, at: (i32, i32), to: &Vec<usize>)
        requires
            l.wf(),
            l.ok(old(self)@),
            nd < l.count(),
            all_below(from@, l.segments@.len() as int),
            all_below(to@, l.segments@.len() as int),
            reachable(at.0 as int),
            reachable(at.1 as int),
        ensures
            l.ok(final(self)@),
            final(self)@ == l.hopped(old(self)@, nd, from@, at.0, at.1, to@),
    {
        self.leave_all(l, nd, from);
        self.erase_from_grid(l, nd);
        self.put(l, nd, at.0, at.1);
        self.paint_in_grid(l, nd);
        self.join_all(l, nd, to);
    }

    /// Put a cell back.
    fn unhop(&mut self, l: &Land, nd: usize, from: &Vec<usize>, at: (i32, i32), to: &Vec<usize>)
        requires
            l.wf(),
            l.ok(old(self)@),
            nd < l.count(),
            all_below(from@, l.segments@.len() as int),
            all_below(to@, l.segments@.len() as int),
            reachable(at.0 as int),
            reachable(at.1 as int),
        ensures
            l.ok(final(self)@),
            final(self)@ == l.unhopped(old(self)@, nd, from@, at.0, at.1, to@),
    {
        self.erase_from_grid(l, nd);
        self.leave_all(l, nd, from);
        self.put(l, nd, at.0, at.1);
        self.paint_in_grid_round(l, nd);
        self.join_all(l, nd, to);
    }

    /// Let the cells take their spots, the last first, and put them back if one of them breaks a rule.
    fn mis_apply(&mut self, l: &Land, nodes: &Vec<usize>, to: &Vec<usize>)
        requires
            l.wf(),
            l.ok(old(self)@),
            all_below(nodes@, l.count()),
            to@.len() == nodes@.len(),
            all_below(to@, nodes@.len() as int),
        ensures
            l.ok(final(self)@),
            final(self)@ == l.matched(old(self)@, nodes@, to@),
    {
        let ghost s = self@;
        let n: usize = nodes.len();
        let mut pos: Vec<(i32, i32)> = Vec::new();
        let mut segs: Vec<Vec<usize>> = Vec::new();
        let mut z: usize = 0;
        while z < n
            invariant
                l.wf(),
                l.ok(self@),
                self@ == s,
                n == nodes@.len(),
                all_below(nodes@, l.count()),
                z <= n,
                pos@.len() == z,
                segs@.len() == z,
                forall|k: int| 0 <= k < z ==> #[trigger] pos@[k] == (s.nodes[nodes@[k] as int].left, s.nodes[nodes@[k] as int].bottom),
                forall|k: int| 0 <= k < z ==> (#[trigger] segs@[k])@ == s.homes[nodes@[k] as int],
            decreases n - z,
        {
            let c: usize = nodes[z];
            pos.push((self.nodes[c].left, self.nodes[c].bottom));
            segs.push(copy_list(&self.cell_segs[c]));
            z = z + 1;
        }
        proof {
            assert forall|k: int| 0 <= k < n implies all_below((#[trigger] segs@[k])@, l.segments@.len() as int) by {
                assert(all_below(s.homes[nodes@[k] as int], l.segments@.len() as int));
            }
            assert forall|k: int| 0 <= k < n implies reachable((#[trigger] pos@[k]).0 as int) && reachable(pos@[k].1 as int) by {
                assert(node_in(s.nodes[nodes@[k] as int]));
            }
        }
        let mut i: usize = n;
        while i > 0
            invariant
                l.wf(),
                l.ok(self@),
                n == nodes@.len(),
                all_below(nodes@, l.count()),
                to@.len() == n,
                all_below(to@, n as int),
                pos@.len() == n,
                segs@.len() == n,
                forall|k: int| 0 <= k < n ==> #[trigger] pos@[k] == (s.nodes[nodes@[k] as int].left, s.nodes[nodes@[k] as int].bottom),
                forall|k: int| 0 <= k < n ==> (#[trigger] segs@[k])@ == s.homes[nodes@[k] as int],
                forall|k: int| 0 <= k < n ==> all_below((#[trigger] segs@[k])@, l.segments@.len() as int),
                forall|k: int| 0 <= k < n ==> reachable((#[trigger] pos@[k]).0 as int) && reachable(pos@[k].1 as int),
                i <= n,
                self@ == l.exchanged(s, nodes@, to@, i as int),
            decreases i,
        {
            i = i - 1;
            let j: usize = to[i];
            if i != j {
                let nd: usize = nodes[i];
                assert(reachable(pos@[j as int].0 as int));
                self.hop(l, nd, &segs[i], pos[j], &segs[j]);
            }
        }
        let ghost t = self@;
        let mut bad: bool = false;
        let mut k: usize = 0;
        while k < n
            invariant
                l.wf(),
                l.ok(self@),
                self@ == t,
                n == nodes@.len(),
                all_below(nodes@, l.count()),
                k <= n,
                bad == l.some_violates(t, nodes@, k as int),
            decreases n - k,
        {
            let v: bool = self.has_placement_violation(l, nodes[k]);
            proof {
                if l.some_violates(t, nodes@, k as int) {
                    let q = choose|q: int| 0 <= q < k && l.violates(t, #[trigger] nodes@[q] as int);
                    assert(l.violates(t, nodes@[q] as int));
                }
                if v {
                    assert(l.violates(t, nodes@[k as int] as int));
                }
                if l.some_violates(t, nodes@, k + 1) {
                    let q = choose|q: int| 0 <= q < k + 1 && l.violates(t, #[trigger] nodes@[q] as int);
                    assert(q < k ==> l.some_violates(t, nodes@, k as int));
                }
            }
            bad = bad || v;
            k = k + 1;
        }
        if bad {
            let mut i: usize = 0;
            while i < n
                invariant
                    l.wf(),
                    l.ok(self@),
                    n == nodes@.len(),
                    all_below(nodes@, l.count()),
                    to@.len() == n,
                    all_below(to@, n as int),
                    pos@.len() == n,
                    segs@.len() == n,
                    forall|k: int| 0 <= k < n ==> #[trigger] pos@[k] == (s.nodes[nodes@[k] as int].left, s.nodes[nodes@[k] as int].bottom),
                    forall|k: int| 0 <= k < n ==> (#[trigger] segs@[k])@ == s.homes[nodes@[k] as int],
                    forall|k: int| 0 <= k < n ==> all_below((#[trigger] segs@[k])@, l.segments@.len() as int),
                    forall|k: int| 0 <= k < n ==> reachable((#[trigger] pos@[k]).0 as int) && reachable(pos@[k].1 as int),
                    i <= n,
                    self@ == l.brought_back(s, t, nodes@, to@, i as int),
                decreases n - i,
            {
                let j: usize = to[i];
                if i != j {
                    let nd: usize = nodes[i];
                    assert(reachable(pos@[i as int].0 as int));
                    self.unhop(l, nd, &segs[j], pos[i], &segs[i]);
                }
                i = i + 1;
            }
        }
    }

    /// Assign cells to each other's spots so that their nets are shortest together. A cell may always
    /// keep its own spot, and another only near where it started. If a cell then breaks a rule, all
    /// are put back.
    pub fn mis_solve(&mut self, l: &Land, nodes: &Vec<usize>)
        requires
            l.wf(),
            l.ok(old(self)@),
            all_below(nodes@, l.count()),
            solvable(nodes@.len() as int),
        ensures
            l.ok(final(self)@),
            l.assigned(old(self)@, nodes@, final(self)@),
    {
        let ghost s = self@;
        let n: usize = nodes.len();
        if n <= 1 {
            return;
        }
        let (g, links) = self.mis_links(l, nodes);
        let mut p = problem_of(&g, &links, n);
        let ghost asked = p;
        proof {
            assert forall|e: int| 0 <= e < asked.arc_num implies #[trigger] asked.lower@[e] <= asked.upper@[e] by {
            }
        }
        let found: bool = p.run();
        let ghost block = choose|block: int| {
            &&& #[trigger] is_block(block, asked.arc_num as int)
            &&& found == asked.finds(block)
            &&& found ==> (asked.ending(block) matches Ending::Settled(t)
                && p.flow@ == with_lower(asked, t.flow) && p.pi@ == t.pi)
        };
        assert(l.solves(s, nodes@, asked, g, block, p.flow@));
        if found {
            proof {
                lemma_links_below(*l, s, nodes@, n as int);
            }
            let to = spots_of(&p, Ghost(asked), &links, n);
            self.mis_apply(l, nodes, &to);
            assert(self@ == l.solved(s, nodes@, asked, block, p.flow@));
        }
        assert(l.assigned(s, nodes@, self@));
    }
}

// ── passes ───────────────────────────────────────────────────────────────────────────────────

/// How often the nodes were used after the first `n` of a list were used once more, counted up to the limit.
pub open spec fn counted(used: Seq<u32>, list: Seq<usize>, n: int) -> Seq<u32>
    decreases n,
{
    if n <= 0 {
        used
    } else {
        let u = counted(used, list, n - 1);
        let c = list[n - 1] as int;
        if u[c] < MIS_MAX_TIMES_USED { u.update(c, (u[c] + 1) as u32) } else { u }
    }
}

impl Land {
    /// Whether a pass over the candidates from the `k`th on, in the order of `list`, leads from one
    /// state to another: each that was not used too often is assigned with those gathered around it.
    pub open spec fn match_pass(&self, bins: Bins, cands: Seq<usize>, colors: Seq<i32>, list: Seq<usize>, k: int, s: St, used: Seq<u32>, t: St) -> bool
        decreases list.len() - k,
    {
        if k >= list.len() {
            t == s
        } else if used[list[k] as int] >= MIS_MAX_TIMES_USED {
            self.match_pass(bins, cands, colors, list, k + 1, s, used, t)
        } else {
            let near = self.gathered(s, bins, cands, colors, list[k]);
            exists|u: St| #[trigger] self.assigned(s, near, u)
                && self.match_pass(bins, cands, colors, list, k + 1, u, counted(used, near, near.len() as int), t)
        }
    }
}

/// One pass of matching: the candidates in random order, each with those gathered around it, until
/// they were used too often. The candidates keep the new order.
pub fn mis_place(l: &Land, live: &mut Live, rng: &mut Mt19937, cands: &mut Vec<usize>, colors: &Vec<i32>, bins: &Bins)
    requires
        l.wf(),
        l.ok(old(live)@),
        old(rng)@.wf(),
        colors@.len() == l.count(),
        bins.hold(old(cands)@, l.count()),
        bins.small_bins(old(cands)@),
    ensures
        l.ok(final(live)@),
        final(rng)@.wf(),
        (final(cands)@, final(rng)@) == shuffled(old(rng)@, old(cands)@, 1, old(cands)@.len() as int),
        final(cands)@.to_multiset() == old(cands)@.to_multiset(),
        l.match_pass(*bins, old(cands)@, colors@, final(cands)@, 0, old(live)@, Seq::new(l.count() as nat, |v: int| 0u32), final(live)@),
{
    let ghost c0 = cands@;
    let n: usize = l.sites.len();
    let grid = bins.fill(cands, n);
    rng.shuffle(cands);
    proof {
        assert forall|k: int| 0 <= k < cands@.len() implies (#[trigger] cands@[k]) < n && bins.at@[cands@[k] as int] < bins.cols * bins.rows by {
            assert(cands@.contains(cands@[k]));
            cands@.to_multiset_ensures();
            c0.to_multiset_ensures();
            assert(cands@.to_multiset().count(cands@[k]) > 0);
            assert(c0.to_multiset().count(cands@[k]) > 0);
            assert(c0.contains(cands@[k]));
            let q = choose|q: int| 0 <= q < c0.len() && c0[q] == cands@[k];
            assert(c0[q] < n);
        }
    }
    let mut used: Vec<u32> = Vec::new();
    let mut z: usize = 0;
    while z < n
        invariant
            z <= n,
            used@ == Seq::new(z as nat, |v: int| 0u32),
        decreases n - z,
    {
        used.push(0);
        z = z + 1;
        assert(used@ =~= Seq::new(z as nat, |v: int| 0u32));
    }
    let ghost s0 = live@;
    let ghost u0 = used@;
    let mut k: usize = 0;
    while k < cands.len()
        invariant
            l.wf(),
            l.ok(live@),
            n == l.count(),
            colors@.len() == n,
            bins.hold(c0, n as int),
            bins.small_bins(c0),
            grid@.len() == bins.cols * bins.rows,
            forall|b: int| 0 <= b < grid@.len() ==> (#[trigger] grid@[b])@ == bins.cells(c0, b),
            forall|i: int| 0 <= i < cands@.len() ==> (#[trigger] cands@[i]) < n && bins.at@[cands@[i] as int] < bins.cols * bins.rows,
            k <= cands@.len(),
            used@.len() == n,
            forall|t: St| #[trigger] l.match_pass(*bins, c0, colors@, cands@, k as int, live@, used@, t)
                ==> l.match_pass(*bins, c0, colors@, cands@, 0, s0, u0, t),
        decreases cands@.len() - k,
    {
        let nd: usize = cands[k];
        let ghost s = live@;
        let ghost u = used@;
        if used[nd] < MIS_MAX_TIMES_USED {
            let near = live.mis_gather(l, bins, &grid, Ghost(c0), colors, nd);
            live.mis_solve(l, &near);
            count_uses(&mut used, &near);
            proof {
                assert forall|t: St| #[trigger] l.match_pass(*bins, c0, colors@, cands@, k + 1, live@, used@, t)
                    implies l.match_pass(*bins, c0, colors@, cands@, 0, s0, u0, t) by {
                    assert(l.assigned(s, near@, live@));
                    assert(l.match_pass(*bins, c0, colors@, cands@, k as int, s, u, t));
                }
            }
        } else {
            proof {
                assert forall|t: St| #[trigger] l.match_pass(*bins, c0, colors@, cands@, k + 1, live@, used@, t)
                    implies l.match_pass(*bins, c0, colors@, cands@, 0, s0, u0, t) by {
                    assert(l.match_pass(*bins, c0, colors@, cands@, k as int, s, u, t));
                }
            }
        }
        k = k + 1;
    }
    assert(l.match_pass(*bins, c0, colors@, cands@, k as int, live@, used@, live@));
}

fn count_uses(used: &mut Vec<u32>, list: &Vec<usize>)
    requires
        all_below(list@, old(used)@.len() as int),
    ensures
        final(used)@ == counted(old(used)@, list@, list@.len() as int),
        final(used)@.len() == old(used)@.len(),
{
    let ghost u0 = used@;
    let mut k: usize = 0;
    while k < list.len()
        invariant
            all_below(list@, u0.len() as int),
            k <= list@.len(),
            used@ == counted(u0, list@, k as int),
            used@.len() == u0.len(),
        decreases list@.len() - k,
    {
        let c: usize = list[k];
        let times: u32 = used[c];
        if times < MIS_MAX_TIMES_USED {
            used.set(c, times + 1);
        }
        k = k + 1;
    }
}

} // verus!
