//! Minimum cost flow by the network simplex method, with the block search pivot rule.
//!
//! Which of several cheapest flows comes out is decided by the order of the arcs and by the pivots.

use vstd::prelude::*;
use crate::lemon::{arcs_of, lemma_mixed_distinct, lemma_mixed_place, mixed, ListDigraph};
use crate::net::{ART_COST, MAX_PIVOTS, UNLIMITED, Ending, Limit, Net, lemma_eligible, lemma_limits, lemma_none_enters, lemma_pivoted, lemma_same32, lemma_same_i32, lemma_search, lemma_sides, lemma_under_step, lemma_wrap, same32};

verus! {

// ── the problem ──────────────────────────────────────────────────────────────────────────────

/// A minimum cost flow problem and, after a run, its solution. Arcs and nodes of the graph have numbers
/// of their own here.
pub struct NetworkSimplex {
    pub node_num: usize,
    pub arc_num: usize,
    /// The numbers here of the graph's arcs and nodes.
    pub arc_id: Vec<usize>,
    pub node_id: Vec<usize>,
    pub source: Vec<usize>,
    pub target: Vec<usize>,
    pub lower: Vec<i32>,
    pub upper: Vec<i32>,
    pub cap: Vec<i32>,
    pub cost: Vec<i32>,
    pub supply: Vec<i32>,
    pub flow: Vec<i32>,
    pub pi: Vec<i32>,
    pub parent: Vec<usize>,
    pub pred: Vec<usize>,
    pub pred_up: Vec<bool>,
    pub state: Vec<i32>,
    pub rank: Ghost<Seq<int>>,
    pub block_size: usize,
    pub next_arc: usize,
}

/// Where the arc that is walked at step `t` is kept.
pub open spec fn place_of(nodes: int, arcs: int, t: int) -> int {
    let skip = if arcs / nodes > 3 { arcs / nodes } else { 3 };
    if nodes > 1 { mixed(arcs, skip, t).0 } else { t }
}

impl NetworkSimplex {
    /// The tables fit together, and arcs join nodes there are.
    pub open spec fn wf(&self) -> bool {
        let (n, m) = (self.node_num as int, self.arc_num as int);
        &&& n + m < usize::MAX
        &&& self.arc_id@.len() == m && self.node_id@.len() == n
        &&& self.source@.len() == m + n && self.target@.len() == m + n
        &&& self.lower@.len() == m && self.upper@.len() == m
        &&& self.cap@.len() == m + n && self.cost@.len() == m + n && self.flow@.len() == m + n && self.state@.len() == m + n
        &&& self.supply@.len() == n + 1 && self.pi@.len() == n + 1
        &&& self.parent@.len() == n + 1 && self.pred@.len() == n + 1 && self.pred_up@.len() == n + 1
        &&& forall|a: int| 0 <= a < m ==> #[trigger] self.arc_id@[a] < m
        &&& forall|a: int, b: int| 0 <= a < b < m ==> #[trigger] self.arc_id@[a] != #[trigger] self.arc_id@[b]
        &&& forall|u: int| 0 <= u < n ==> #[trigger] self.node_id@[u] == n - 1 - u
        &&& forall|e: int| 0 <= e < m ==> #[trigger] self.source@[e] < n
        &&& forall|e: int| 0 <= e < m ==> #[trigger] self.target@[e] < n
    }

    /// The problem is that of a graph: its arcs are kept in mixed order and join the same nodes.
    pub open spec fn is_of(&self, g: ListDigraph) -> bool {
        let (n, m) = (g.node_count as int, g.src@.len() as int);
        let order = arcs_of(g.src@, n);
        &&& self.node_num == n && self.arc_num == m
        &&& forall|t: int| 0 <= t < m ==> self.arc_id@[#[trigger] order[t] as int] == place_of(n, m, t)
        &&& forall|a: int| 0 <= a < m ==> self.source@[#[trigger] self.arc_id@[a] as int] == n - 1 - g.src@[a]
            && self.target@[self.arc_id@[a] as int] == n - 1 - g.tgt@[a]
    }

    /// The problem of a graph: arcs without limits that cost 1, and nodes that have nothing.
    pub fn new(g: &ListDigraph) -> (r: NetworkSimplex)
        requires
            g.wf(),
            g.node_count + g.src@.len() < usize::MAX,
        ensures
            r.wf(),
            r.is_of(*g),
            forall|e: int| 0 <= e < r.arc_num ==> #[trigger] r.lower@[e] == 0 && r.upper@[e] == UNLIMITED && r.cost@[e] == 1,
            forall|u: int| 0 <= u <= r.node_num ==> #[trigger] r.supply@[u] == 0,
            forall|e: int| 0 <= e < r.flow@.len() ==> #[trigger] r.flow@[e] == 0,
    {
        let n: usize = g.node_count;
        let m: usize = g.src.len();
        let order = g.arcs();
        let mut node_id: Vec<usize> = Vec::new();
        let mut k: usize = 0;
        while k < n
            invariant
                k <= n,
                node_id@.len() == k,
                forall|u: int| 0 <= u < k ==> #[trigger] node_id@[u] == n - 1 - u,
            decreases n - k,
        {
            node_id.push(n - 1 - k);
            k = k + 1;
        }
        let mut arc_id = filled_usize(m, 0);
        let mut source = filled_usize(m + n, 0);
        let mut target = filled_usize(m + n, 0);
        let per: usize = if n > 0 { m / n } else { 0 };
        let skip: usize = if per > 3 { per } else { 3 };
        let mut i: usize = 0;
        let mut j: usize = 0;
        let mut t: usize = 0;
        proof {
            if m > 0 {
                assert(g.src@[0] < n);
                assert(m as int / n as int <= m) by (nonlinear_arith)
                    requires m >= 0, n >= 1;
                if n > 1 {
                    lemma_mixed_place(m as int, skip as int, 0);
                }
            }
        }
        while t < m
            invariant
                g.wf(),
                n == g.node_count,
                m == g.src@.len(),
                n + m < usize::MAX,
                m > 0 ==> n > 0,
                m > 0 ==> skip == (if m as int / n as int > 3 { m as int / n as int } else { 3 }),
                3 <= skip,
                skip <= 3 || skip <= m,
                order@ == arcs_of(g.src@, n as int),
                order@.len() == m,
                order@.no_duplicates(),
                forall|q: int| 0 <= q < m ==> #[trigger] order@[q] < m,
                node_id@.len() == n,
                forall|u: int| 0 <= u < n ==> #[trigger] node_id@[u] == n - 1 - u,
                arc_id@.len() == m,
                source@.len() == m + n,
                target@.len() == m + n,
                t <= m,
                t < m ==> i == place_of(n as int, m as int, t as int) && 0 <= i < m,
                n > 1 && t < m ==> (i as int, j as int) == mixed(m as int, skip as int, t as int),
                j <= skip,
                forall|q: int| 0 <= q < t ==> arc_id@[#[trigger] order@[q] as int] == place_of(n as int, m as int, q),
                forall|q: int| 0 <= q < t ==> source@[place_of(n as int, m as int, q)] == n - 1 - g.src@[#[trigger] order@[q] as int],
                forall|q: int| 0 <= q < t ==> target@[place_of(n as int, m as int, q)] == n - 1 - g.tgt@[#[trigger] order@[q] as int],
                forall|e: int| 0 <= e < m && n > 0 ==> #[trigger] source@[e] < n,
                forall|e: int| 0 <= e < m && n > 0 ==> #[trigger] target@[e] < n,
            decreases m - t,
        {
            let a: usize = order[t];
            assert(g.src@[a as int] < n && g.tgt@[a as int] < n);
            proof {
                assert forall|q: int| 0 <= q < t implies #[trigger] order@[q] != a && place_of(n as int, m as int, q) != i && 0 <= place_of(n as int, m as int, q) < m by {
                    if n > 1 {
                        lemma_mixed_distinct(m as int, skip as int, q, t as int);
                    }
                }
            }
            let ghost (s0, t0) = (source@, target@);
            arc_id.set(a, i);
            source.set(i, node_id[g.src[a]]);
            target.set(i, node_id[g.tgt[a]]);
            proof {
                assert forall|q: int| 0 <= q < t + 1 implies source@[place_of(n as int, m as int, q)] == n - 1 - g.src@[#[trigger] order@[q] as int]
                    && target@[place_of(n as int, m as int, q)] == n - 1 - g.tgt@[order@[q] as int] by {
                    if q < t {
                        assert(s0[place_of(n as int, m as int, q)] == n - 1 - g.src@[order@[q] as int]);
                        assert(t0[place_of(n as int, m as int, q)] == n - 1 - g.tgt@[order@[q] as int]);
                    }
                }
            }
            if n > 1 {
                if m - i <= skip {
                    j = j + 1;
                    i = j;
                } else {
                    i = i + skip;
                }
            } else {
                i = i + 1;
            }
            proof {
                if n > 1 {
                    lemma_mixed_place(m as int, skip as int, t as int);
                    if t + 1 < m {
                        lemma_mixed_place(m as int, skip as int, t + 1);
                    }
                }
            }
            t = t + 1;
        }
        let r = NetworkSimplex {
            node_num: n,
            arc_num: m,
            arc_id,
            node_id,
            source,
            target,
            lower: filled(m, 0),
            upper: filled(m, UNLIMITED),
            cap: filled(m + n, 0),
            cost: filled(m + n, 1),
            supply: filled(n + 1, 0),
            flow: filled(m + n, 0),
            pi: filled(n + 1, 0),
            parent: filled_usize(n + 1, 0),
            pred: filled_usize(n + 1, 0),
            pred_up: filled_bool(n + 1),
            state: filled(m + n, 0),
            rank: Ghost(Seq::empty()),
            block_size: 0,
            next_arc: 0,
        };
        proof {
            crate::lemon::law_arcs_are_walked_once(g.src@, n as int);
            assert forall|a: int| 0 <= a < m implies #[trigger] r.arc_id@[a] < m && r.source@[r.arc_id@[a] as int] == n - 1 - g.src@[a]
                && r.target@[r.arc_id@[a] as int] == n - 1 - g.tgt@[a] by {
                assert(g.src@[a] < n);
                assert(order@.contains(a as usize));
                let q = choose|q: int| 0 <= q < order@.len() && order@[q] == a as usize;
                assert(r.arc_id@[order@[q] as int] == place_of(n as int, m as int, q));
                if n > 1 {
                    lemma_mixed_place(m as int, skip as int, q);
                }
            }
            assert forall|a: int, b: int| 0 <= a < b < m implies #[trigger] r.arc_id@[a] != #[trigger] r.arc_id@[b] by {
                assert(g.src@[a] < n && g.src@[b] < n);
                assert(order@.contains(a as usize) && order@.contains(b as usize));
                let p = choose|q: int| 0 <= q < order@.len() && order@[q] == a as usize;
                let q = choose|q: int| 0 <= q < order@.len() && order@[q] == b as usize;
                assert(r.arc_id@[order@[p] as int] == place_of(n as int, m as int, p));
                assert(r.arc_id@[order@[q] as int] == place_of(n as int, m as int, q));
                if n > 1 {
                    if p < q {
                        lemma_mixed_distinct(m as int, skip as int, p, q);
                    } else if q < p {
                        lemma_mixed_distinct(m as int, skip as int, q, p);
                    }
                }
            }
        }
        r
    }

    /// Set an arc's limits and cost.
    pub fn set_arc(&mut self, a: usize, lower: i32, upper: i32, cost: i32)
        requires
            old(self).wf(),
            a < old(self).arc_num,
        ensures
            final(self).wf(),
            final(self).same_graph(*old(self)),
            final(self).supply == old(self).supply,
            final(self).lower@ == old(self).lower@.update(old(self).arc_id@[a as int] as int, lower),
            final(self).upper@ == old(self).upper@.update(old(self).arc_id@[a as int] as int, upper),
            final(self).cost@ == old(self).cost@.update(old(self).arc_id@[a as int] as int, cost),
    {
        let i: usize = self.arc_id[a];
        self.lower.set(i, lower);
        self.upper.set(i, upper);
        self.cost.set(i, cost);
    }

    /// Both problems are of one graph.
    pub open spec fn same_graph(&self, o: NetworkSimplex) -> bool {
        self.node_num == o.node_num && self.arc_num == o.arc_num && self.arc_id == o.arc_id && self.node_id == o.node_id
            && self.source == o.source && self.target == o.target
    }

    /// Let one node have `k` and another miss `k`, and the others nothing.
    pub fn st_supply(&mut self, s: usize, t: usize, k: i32)
        requires
            old(self).wf(),
            s < old(self).node_num,
            t < old(self).node_num,
            k > i32::MIN,
        ensures
            final(self).wf(),
            final(self).same_graph(*old(self)),
            final(self).lower == old(self).lower,
            final(self).upper == old(self).upper,
            final(self).cost == old(self).cost,
            final(self).supply@ == Seq::new(old(self).supply@.len(), |u: int| if u == old(self).node_num {
                old(self).supply@[u]
            } else if u == old(self).node_id@[t as int] {
                (-k) as i32
            } else if u == old(self).node_id@[s as int] {
                k
            } else {
                0
            }),
    {
        let ghost s0 = self.supply@;
        let n: usize = self.node_num;
        let mut i: usize = 0;
        while i < n
            invariant
                n == self.node_num,
                self.supply@.len() == n + 1,
                s0.len() == n + 1,
                self.supply@[n as int] == s0[n as int],
                i <= n,
                forall|u: int| 0 <= u < i ==> #[trigger] self.supply@[u] == 0,
                *self == (NetworkSimplex { supply: self.supply, ..*old(self) }),
            decreases n - i,
        {
            self.supply.set(i, 0);
            i = i + 1;
        }
        assert(self.node_id@[s as int] == n - 1 - s && self.node_id@[t as int] == n - 1 - t);
        let a: usize = self.node_id[s];
        let b: usize = self.node_id[t];
        self.supply.set(a, k);
        self.supply.set(b, -k);
        assert(self.supply@ =~= Seq::new(s0.len(), |u: int| if u == n { s0[u] } else if u == b { (-k) as i32 } else if u == a { k } else { 0 }));
    }

    /// The flow on an arc after a run.
    pub fn flow(&self, a: usize) -> (r: i32)
        requires
            self.wf(),
            a < self.arc_num,
        ensures
            r == self.flow@[self.arc_id@[a as int] as int],
    {
        self.flow[self.arc_id[a]]
    }
}

fn filled(n: usize, v: i32) -> (r: Vec<i32>)
    ensures
        r@ == Seq::new(n as nat, |k: int| v),
{
    let mut out: Vec<i32> = Vec::new();
    let mut k: usize = 0;
    while k < n
        invariant
            k <= n,
            out@ == Seq::new(k as nat, |j: int| v),
        decreases n - k,
    {
        out.push(v);
        k = k + 1;
        assert(out@ =~= Seq::new(k as nat, |j: int| v));
    }
    out
}

fn filled_usize(n: usize, v: usize) -> (r: Vec<usize>)
    ensures
        r@ == Seq::new(n as nat, |k: int| v),
{
    let mut out: Vec<usize> = Vec::new();
    let mut k: usize = 0;
    while k < n
        invariant
            k <= n,
            out@ == Seq::new(k as nat, |j: int| v),
        decreases n - k,
    {
        out.push(v);
        k = k + 1;
        assert(out@ =~= Seq::new(k as nat, |j: int| v));
    }
    out
}

fn filled_bool(n: usize) -> (r: Vec<bool>)
    ensures
        r@.len() == n,
{
    let mut out: Vec<bool> = Vec::new();
    let mut k: usize = 0;
    while k < n
        invariant
            k <= n,
            out@.len() == k,
        decreases n - k,
    {
        out.push(false);
        k = k + 1;
    }
    out
}

// ── the start ────────────────────────────────────────────────────────────────────────────────

/// How much more than its lower limit an arc can carry.
pub open spec fn room(lower: i32, upper: i32) -> i32 {
    if lower >= 0 {
        if upper < UNLIMITED { upper.wrapping_sub(lower) } else { UNLIMITED }
    } else if upper < UNLIMITED.wrapping_add(lower) {
        upper.wrapping_sub(lower)
    } else {
        UNLIMITED
    }
}

impl NetworkSimplex {
    /// What the nodes have once the first `k` arcs carry their lower limits.
    pub open spec fn left_over(&self, k: int) -> Seq<i32>
        decreases k,
    {
        if k <= 0 {
            self.supply@
        } else {
            let v = self.left_over(k - 1);
            let (a, b, c) = (self.source@[k - 1] as int, self.target@[k - 1] as int, self.lower@[k - 1]);
            let w = v.update(a, v[a].wrapping_sub(c));
            w.update(b, w[b].wrapping_add(c))
        }
    }

    /// What the first `k` nodes have together.
    pub open spec fn total(&self, k: int) -> i32
        decreases k,
    {
        if k <= 0 { 0 } else { self.total(k - 1).wrapping_add(self.supply@[k - 1]) }
    }

    /// The network to start from: every arc empty, and every node below the root, to which it sends what
    /// it has or from which it gets what it misses.
    pub open spec fn start(&self, block: int) -> Net {
        let (n, m) = (self.node_num as int, self.arc_num as int);
        let v = self.left_over(m);
        Net {
            n,
            m,
            source: Seq::new((m + n) as nat, |e: int| if e < m { self.source@[e] } else if v[e - m] >= 0 { (e - m) as usize } else { n as usize }),
            target: Seq::new((m + n) as nat, |e: int| if e < m { self.target@[e] } else if v[e - m] >= 0 { n as usize } else { (e - m) as usize }),
            cap: Seq::new((m + n) as nat, |e: int| if e < m { room(self.lower@[e], self.upper@[e]) } else { UNLIMITED }),
            cost: Seq::new((m + n) as nat, |e: int| if e < m { self.cost@[e] } else if v[e - m] >= 0 { 0 } else { ART_COST }),
            flow: Seq::new((m + n) as nat, |e: int| if e < m { 0 } else if v[e - m] >= 0 { v[e - m] } else { 0i32.wrapping_sub(v[e - m]) }),
            pi: Seq::new((n + 1) as nat, |u: int| if u == n || v[u] >= 0 { 0 } else { ART_COST }),
            parent: Seq::new((n + 1) as nat, |u: int| n as usize),
            pred: Seq::new((n + 1) as nat, |u: int| if u == n { 0 } else { (m + u) as usize }),
            up: Seq::new((n + 1) as nat, |u: int| u == n || v[u] >= 0),
            state: Seq::new((m + n) as nat, |e: int| if e < m { 1 } else { 0 }),
            rank: Seq::new((n + 1) as nat, |u: int| if u == n { 0 } else { 1 }),
            next: 0,
            block,
        }
    }

    /// The network as the tables show it.
    pub open spec fn net(&self) -> Net {
        Net {
            n: self.node_num as int,
            m: self.arc_num as int,
            source: self.source@,
            target: self.target@,
            cap: self.cap@,
            cost: self.cost@,
            flow: self.flow@,
            pi: self.pi@,
            parent: self.parent@,
            pred: self.pred@,
            up: self.pred_up@,
            state: self.state@,
            rank: self.rank@,
            next: self.next_arc as int,
            block: self.block_size as int,
        }
    }

    /// No arc's limits are the wrong way round.
    pub open spec fn limits_ok(&self) -> bool {
        forall|e: int| 0 <= e < self.arc_num ==> #[trigger] self.lower@[e] <= self.upper@[e]
    }
}

pub proof fn lemma_left_over(p: NetworkSimplex, k: int)
    requires
        p.wf(),
        0 <= k <= p.arc_num,
    ensures
        p.left_over(k).len() == p.supply@.len(),
    decreases k,
{
    if k > 0 {
        lemma_left_over(p, k - 1);
    }
}

pub proof fn lemma_room(lower: i32, upper: i32)
    requires
        lower <= upper,
    ensures
        0 <= room(lower, upper),
        room(lower, upper) < UNLIMITED ==> room(lower, upper) == upper - lower,
{
}

/// What a node sends out at the start is what it has.
proof fn lemma_start_excess(p: NetworkSimplex, block: int, v: int, k: int)
    requires
        p.wf(),
        0 <= v < p.node_num,
        0 <= k <= p.arc_num + p.node_num,
    ensures
        ({
            let t = p.start(block);
            same32(t.excess(t.flow, v, k), if k > p.arc_num + v { p.left_over(p.arc_num as int)[v] as int } else { 0 })
        }),
    decreases k,
{
    let t = p.start(block);
    let m = p.arc_num as int;
    lemma_left_over(p, m);
    if k > 0 {
        lemma_start_excess(p, block, v, k - 1);
        let e = k - 1;
        let sh = t.share(e, v, t.flow[e] as int);
        let w = p.left_over(m);
        if e < m {
            assert(t.flow[e] == 0);
            assert(sh == 0);
        } else if e == m + v {
            lemma_wrap(0, w[v]);
            if w[v] >= 0 {
                assert(sh == w[v]);
            } else {
                assert(t.target[e] == v && t.source[e] == p.node_num);
                assert(same32(0i32.wrapping_sub(w[v]) as int, -w[v]));
                lemma_same32(0, 0, 0i32.wrapping_sub(w[v]) as int, -w[v]);
                assert(same32(sh, w[v] as int));
            }
            lemma_same32(t.excess(t.flow, v, k - 1), 0, sh, w[v] as int);
        } else {
            assert(sh == 0);
        }
    }
}

/// A number of 32 bits that is the same as a number.
pub open spec fn crop32(x: int) -> i32 {
    ((x + 0x8000_0000) % 0x1_0000_0000 - 0x8000_0000) as i32
}

/// What the nodes of the start have, the root included.
pub open spec fn start_supply(p: NetworkSimplex, block: int) -> Seq<i32> {
    let t = p.start(block);
    Seq::new((p.node_num + 1) as nat, |v: int| if v < p.node_num { p.left_over(p.arc_num as int)[v] } else { crop32(t.excess(t.flow, v, t.all())) })
}

proof fn lemma_crop32(x: int)
    ensures
        same32(x, crop32(x) as int),
{
    let y = (x + 0x8000_0000) % 0x1_0000_0000;
    assert(0 <= y < 0x1_0000_0000);
    assert((x - (y - 0x8000_0000)) % 0x1_0000_0000 == 0);
}

/// The start is sound.
pub proof fn lemma_start(p: NetworkSimplex, block: int)
    requires
        p.wf(),
        p.limits_ok(),
        p.node_num >= 1,
        block >= 1,
    ensures
        p.start(block).sound(start_supply(p, block)),
{
    let t = p.start(block);
    let sup = start_supply(p, block);
    let (n, m) = (p.node_num as int, p.arc_num as int);
    lemma_left_over(p, m);
    assert forall|e: int| 0 <= e < t.all() implies #[trigger] t.source[e] <= t.n by {
        if e < m {
            assert(p.source@[e] < n);
        }
    }
    assert forall|e: int| 0 <= e < t.all() implies #[trigger] t.target[e] <= t.n by {
        if e < m {
            assert(p.target@[e] < n);
        }
    }
    assert forall|e: int| 0 <= e < t.all() && #[trigger] t.state[e] == 0 implies t.has_arc(e) by {
        assert(t.pred[e - m] == e);
    }
    assert forall|e: int| 0 <= e < t.all() implies #[trigger] t.arc_holds(e) by {
        if e < m {
            assert(p.lower@[e] <= p.upper@[e]);
            lemma_room(p.lower@[e], p.upper@[e]);
        }
    }
    assert forall|v: int| 0 <= v <= t.n implies same32(#[trigger] t.excess(t.flow, v, t.all()), sup[v] as int) by {
        if v < n {
            lemma_start_excess(p, block, v, m + n);
        } else {
            lemma_crop32(t.excess(t.flow, v, t.all()));
        }
    }
    assert forall|u: int| 0 <= u < t.n implies t.reduced(#[trigger] t.pred[u] as int) == 0 by {
    }
}

impl NetworkSimplex {
    /// Set the network up to start from. `false` if there are no nodes, or if what the nodes have is not
    /// what they miss.
    fn init(&mut self, block: usize) -> (r: bool)
        requires
            old(self).wf(),
            block >= 1,
        ensures
            final(self).wf_tables(),
            r == (old(self).node_num > 0 && old(self).total(old(self).node_num as int) == 0),
            r ==> final(self).net() == old(self).start(block as int),
            final(self).kept(*old(self)),
    {
        let ghost p = *self;
        let n: usize = self.node_num;
        let m: usize = self.arc_num;
        if n == 0 {
            return false;
        }
        let mut sum: i32 = 0;
        let mut k: usize = 0;
        while k < n
            invariant
                p.wf(),
                *self == p,
                n == p.node_num,
                k <= n,
                sum == p.total(k as int),
            decreases n - k,
        {
            sum = sum.wrapping_add(self.supply[k]);
            k = k + 1;
        }
        if sum != 0 {
            return false;
        }
        let mut i: usize = 0;
        while i < m
            invariant
                p.wf(),
                n == p.node_num,
                m == p.arc_num,
                i <= m,
                self.supply@ == p.left_over(i as int),
                self.supply@.len() == n + 1,
                self.cap@.len() == m + n,
                forall|e: int| 0 <= e < i ==> #[trigger] self.cap@[e] == room(p.lower@[e], p.upper@[e]),
                *self == (NetworkSimplex { supply: self.supply, cap: self.cap, ..p }),
            decreases m - i,
        {
            let c: i32 = self.lower[i];
            let u: i32 = self.upper[i];
            let r: i32 = if c >= 0 {
                if u < UNLIMITED { u.wrapping_sub(c) } else { UNLIMITED }
            } else if u < UNLIMITED.wrapping_add(c) {
                u.wrapping_sub(c)
            } else {
                UNLIMITED
            };
            self.cap.set(i, r);
            let (a, b) = (self.source[i], self.target[i]);
            assert(p.source@[i as int] < n && p.target@[i as int] < n);
            let x: i32 = self.supply[a].wrapping_sub(c);
            self.supply.set(a, x);
            let y: i32 = self.supply[b].wrapping_add(c);
            self.supply.set(b, y);
            i = i + 1;
        }
        let ghost v = p.left_over(m as int);
        let ghost t = p.start(block as int);
        let mut e: usize = 0;
        while e < m
            invariant
                p.wf(),
                n == p.node_num,
                m == p.arc_num,
                e <= m,
                self.flow@.len() == m + n,
                self.state@.len() == m + n,
                forall|q: int| 0 <= q < e ==> #[trigger] self.flow@[q] == 0,
                forall|q: int| 0 <= q < e ==> #[trigger] self.state@[q] == 1,
                self.supply@ == v,
                v.len() == n + 1,
                self.cap@.len() == m + n,
                forall|q: int| 0 <= q < m ==> #[trigger] self.cap@[q] == room(p.lower@[q], p.upper@[q]),
                *self == (NetworkSimplex { supply: self.supply, cap: self.cap, flow: self.flow, state: self.state, ..p }),
            decreases m - e,
        {
            self.flow.set(e, 0);
            self.state.set(e, 1);
            e = e + 1;
        }
        self.parent.set(n, n);
        self.pred.set(n, 0);
        self.pred_up.set(n, true);
        self.pi.set(n, 0);
        self.next_arc = 0;
        self.block_size = block;
        self.rank = Ghost(t.rank);
        let ghost b0 = *self;
        let mut u: usize = 0;
        while u < n
            invariant
                p.wf(),
                n == p.node_num,
                m == p.arc_num,
                u <= n,
                v == p.left_over(m as int),
                v.len() == n + 1,
                t == p.start(block as int),
                self.supply@ == v,
                self.node_num == n,
                self.arc_num == m,
                self.wf_tables(),
                self.kept(p),
                self.next_arc == 0,
                self.block_size == block,
                self.rank@ == t.rank,
                self.parent@[n as int] == n && self.pred@[n as int] == 0 && self.pred_up@[n as int] && self.pi@[n as int] == 0,
                forall|q: int| 0 <= q < m + u ==> #[trigger] self.flow@[q] == t.flow[q],
                forall|q: int| 0 <= q < m + u ==> #[trigger] self.state@[q] == t.state[q],
                forall|q: int| 0 <= q < m + u ==> #[trigger] self.cap@[q] == t.cap[q],
                forall|q: int| 0 <= q < m + u ==> #[trigger] self.cost@[q] == t.cost[q],
                forall|q: int| 0 <= q < m + u ==> #[trigger] self.source@[q] == t.source[q],
                forall|q: int| 0 <= q < m + u ==> #[trigger] self.target@[q] == t.target[q],
                forall|q: int| 0 <= q < u ==> #[trigger] self.pi@[q] == t.pi[q],
                forall|q: int| 0 <= q < u ==> #[trigger] self.parent@[q] == t.parent[q],
                forall|q: int| 0 <= q < u ==> #[trigger] self.pred@[q] == t.pred[q],
                forall|q: int| 0 <= q < u ==> #[trigger] self.pred_up@[q] == t.up[q],
            decreases n - u,
        {
            let a: usize = m + u;
            let h: i32 = self.supply[u];
            self.parent.set(u, n);
            self.pred.set(u, a);
            self.cap.set(a, UNLIMITED);
            self.state.set(a, 0);
            if h >= 0 {
                self.pred_up.set(u, true);
                self.pi.set(u, 0);
                self.source.set(a, u);
                self.target.set(a, n);
                self.flow.set(a, h);
                self.cost.set(a, 0);
            } else {
                self.pred_up.set(u, false);
                self.pi.set(u, ART_COST);
                self.source.set(a, n);
                self.target.set(a, u);
                let z: i32 = 0;
                self.flow.set(a, z.wrapping_sub(h));
                self.cost.set(a, ART_COST);
            }
            u = u + 1;
        }
        proof {
            let f = self.net();
            assert(f.source =~= t.source);
            assert(f.target =~= t.target);
            assert(f.cap =~= t.cap);
            assert(f.cost =~= t.cost);
            assert(f.flow =~= t.flow);
            assert(f.pi =~= t.pi);
            assert(f.parent =~= t.parent);
            assert(f.pred =~= t.pred);
            assert(f.up =~= t.up);
            assert(f.state =~= t.state);
        }
        true
    }

    /// The tables have their lengths.
    pub open spec fn wf_tables(&self) -> bool {
        let (n, m) = (self.node_num as int, self.arc_num as int);
        &&& n + m < usize::MAX
        &&& self.arc_id@.len() == m && self.node_id@.len() == n
        &&& self.source@.len() == m + n && self.target@.len() == m + n
        &&& self.lower@.len() == m && self.upper@.len() == m
        &&& self.cap@.len() == m + n && self.cost@.len() == m + n && self.flow@.len() == m + n && self.state@.len() == m + n
        &&& self.supply@.len() == n + 1 && self.pi@.len() == n + 1
        &&& self.parent@.len() == n + 1 && self.pred@.len() == n + 1 && self.pred_up@.len() == n + 1
    }

    /// The problem's graph, limits and costs are those of another.
    pub open spec fn kept(&self, o: NetworkSimplex) -> bool {
        &&& self.node_num == o.node_num && self.arc_num == o.arc_num && self.arc_id == o.arc_id && self.node_id == o.node_id
        &&& self.lower == o.lower && self.upper == o.upper
        &&& forall|e: int| 0 <= e < o.arc_num ==> #[trigger] self.source@[e] == o.source@[e]
        &&& forall|e: int| 0 <= e < o.arc_num ==> #[trigger] self.target@[e] == o.target@[e]
        &&& forall|e: int| 0 <= e < o.arc_num ==> #[trigger] self.cost@[e] == o.cost@[e]
    }
}

// ── pivots ───────────────────────────────────────────────────────────────────────────────────

impl NetworkSimplex {
    /// How much worse than free a change of an arc's flow is, negative if it is better.
    fn reduced(&self, e: usize) -> (r: i32)
        requires
            self.net().shaped(),
            e < self.arc_num,
        ensures
            r == self.net().eligible(e as int),
    {
        assert(self.net().source[e as int] <= self.node_num && self.net().target[e as int] <= self.node_num);
        let c: i32 = self.cost[e].wrapping_add(self.pi[self.source[e]]).wrapping_sub(self.pi[self.target[e]]);
        self.state[e].wrapping_mul(c)
    }

    /// The arc to enter the tree, and where the next search starts: the best arc of the first block of
    /// arcs that has an eligible one.
    fn find_entering_arc(&self) -> (r: Option<(usize, usize)>)
        requires
            self.net().shaped(),
        ensures
            match self.net().entering() {
                Some(a) => r == Some((a.0, a.1 as usize)) && 0 <= a.1 <= usize::MAX,
                None => r is None,
            },
    {
        let ghost t = self.net();
        let m: usize = self.arc_num;
        let mut min: i32 = 0;
        let mut left: usize = self.block_size;
        let mut arc: usize = 0;
        let mut k: usize = 0;
        while k < m
            invariant
                t == self.net(),
                t.shaped(),
                m == t.m,
                k <= m,
                1 <= left,
                t.search(k as int, min, left as int, arc) == t.entering(),
            decreases m - k,
        {
            let e: usize = if k < m - self.next_arc { self.next_arc + k } else { k - (m - self.next_arc) };
            assert(e == t.turn(k as int));
            let c: i32 = self.reduced(e);
            if c < min {
                min = c;
                arc = e;
            }
            if left == 1 {
                if min < 0 {
                    return Some((arc, e));
                }
                left = self.block_size;
            } else {
                left = left - 1;
            }
            k = k + 1;
        }
        if min < 0 { Some((arc, self.next_arc)) } else { None }
    }

    /// Whether a node is another one or above it.
    fn is_under(&self, v: usize, x: usize) -> (r: bool)
        requires
            self.net().shaped(),
            self.net().rooted(),
            v <= self.node_num,
        ensures
            r == self.net().under(v as int, x as int),
    {
        let ghost t = self.net();
        let mut w: usize = v;
        while w != x && w != self.node_num
            invariant
                t == self.net(),
                t.shaped(),
                t.rooted(),
                w <= t.n,
                t.under(w as int, x as int) == t.under(v as int, x as int),
            decreases t.rank[w as int],
        {
            proof {
                lemma_under_step(t, w as int, x as int);
            }
            w = self.parent[w];
        }
        w == x
    }

    /// The lowest node above two nodes, or one of them.
    fn find_join_node(&self, u: usize, v: usize) -> (r: usize)
        requires
            self.net().shaped(),
            self.net().rooted(),
            u <= self.node_num,
            v <= self.node_num,
        ensures
            r == self.net().joint(u as int, v as int),
            r <= self.node_num,
    {
        let ghost t = self.net();
        let mut w: usize = u;
        while w != self.node_num && !self.is_under(v, w)
            invariant
                t == self.net(),
                t.shaped(),
                t.rooted(),
                v <= t.n,
                w <= t.n,
                t.joint(w as int, v as int) == t.joint(u as int, v as int),
            decreases t.rank[w as int],
        {
            proof {
                lemma_under_step(t, w as int, w as int);
            }
            w = self.parent[w];
        }
        w
    }

    /// The nodes from one up to below another.
    fn path(&self, u: usize, j: usize) -> (r: Vec<usize>)
        requires
            self.net().shaped(),
            self.net().rooted(),
            u <= self.node_num,
        ensures
            r@ == self.net().path(u as int, j as int),
            forall|i: int| 0 <= i < r@.len() ==> #[trigger] r@[i] < self.node_num,
    {
        let ghost t = self.net();
        let mut out: Vec<usize> = Vec::new();
        let mut w: usize = u;
        assert(out@ + t.path(u as int, j as int) =~= t.path(u as int, j as int));
        while w != j && w != self.node_num
            invariant
                t == self.net(),
                t.shaped(),
                t.rooted(),
                w <= t.n,
                out@ + t.path(w as int, j as int) == t.path(u as int, j as int),
                forall|i: int| 0 <= i < out@.len() ==> #[trigger] out@[i] < t.n,
            decreases t.rank[w as int],
        {
            proof {
                lemma_under_step(t, w as int, w as int);
            }
            let ghost o = out@;
            out.push(w);
            let q: usize = self.parent[w];
            assert(out@ + t.path(q as int, j as int) =~= o + (seq![w] + t.path(q as int, j as int)));
            w = q;
        }
        assert(out@ + Seq::<usize>::empty() =~= out@);
        out
    }

    /// By how much the flow to a node's parent can change.
    fn slack(&self, u: usize, grow: bool) -> (r: i32)
        requires
            self.net().shaped(),
            self.net().rooted(),
            u < self.node_num,
        ensures
            r == self.net().slack(u as int, grow),
    {
        assert(self.net().pred[u as int] < self.net().all());
        let e: usize = self.pred[u];
        if grow {
            if self.cap[e] >= UNLIMITED { UNLIMITED } else { self.cap[e].wrapping_sub(self.flow[e]) }
        } else {
            self.flow[e]
        }
    }

    /// The arc that limits a change along the two sides: by how much, below which node it is, and on
    /// which side.
    fn find_leaving_arc(&self, arc: usize, a: &Vec<usize>, b: &Vec<usize>) -> (r: (i32, usize, u8))
        requires
            self.net().shaped(),
            self.net().rooted(),
            arc < self.arc_num,
            forall|i: int| 0 <= i < a@.len() ==> #[trigger] a@[i] < self.node_num,
            forall|i: int| 0 <= i < b@.len() ==> #[trigger] b@[i] < self.node_num,
        ensures
            ({
                let t = self.net();
                let l1 = t.limit(a@, false, Limit { delta: t.cap[arc as int], out: 0, side: 0 }, a@.len() as int);
                (Limit { delta: r.0, out: r.1, side: r.2 as int }) == t.limit(b@, true, l1, b@.len() as int)
            }),
    {
        let ghost t = self.net();
        let ghost start = Limit { delta: t.cap[arc as int], out: 0, side: 0 };
        let mut delta: i32 = self.cap[arc];
        let mut out: usize = 0;
        let mut side: u8 = 0;
        let mut i: usize = 0;
        while i < a.len()
            invariant
                t == self.net(),
                t.shaped(),
                t.rooted(),
                forall|i: int| 0 <= i < a@.len() ==> #[trigger] a@[i] < self.node_num,
                i <= a@.len(),
                (Limit { delta, out, side: side as int }) == t.limit(a@, false, start, i as int),
            decreases a@.len() - i,
        {
            let u: usize = a[i];
            let d: i32 = self.slack(u, !self.pred_up[u]);
            if d < delta {
                delta = d;
                out = u;
                side = 1;
            }
            i = i + 1;
        }
        let ghost l1 = Limit { delta, out, side: side as int };
        let mut j: usize = 0;
        while j < b.len()
            invariant
                t == self.net(),
                t.shaped(),
                t.rooted(),
                forall|i: int| 0 <= i < b@.len() ==> #[trigger] b@[i] < self.node_num,
                j <= b@.len(),
                (Limit { delta, out, side: side as int }) == t.limit(b@, true, l1, j as int),
            decreases b@.len() - j,
        {
            let u: usize = b[j];
            let d: i32 = self.slack(u, self.pred_up[u]);
            if d <= delta {
                delta = d;
                out = u;
                side = 2;
            }
            j = j + 1;
        }
        (delta, out, side)
    }

    /// Change the flow along a path.
    fn push_along(&mut self, path: &Vec<usize>, second: bool, delta: i32)
        requires
            old(self).net().shaped(),
            old(self).net().rooted(),
            forall|i: int| 0 <= i < path@.len() ==> #[trigger] path@[i] < old(self).node_num,
        ensures
            *final(self) == (NetworkSimplex { flow: final(self).flow, ..*old(self) }),
            final(self).flow@ == old(self).net().pushed(old(self).flow@, path@, second, delta, path@.len() as int),
            final(self).flow@.len() == old(self).flow@.len(),
    {
        let ghost t = self.net();
        let ghost f0 = self.flow@;
        let mut i: usize = 0;
        while i < path.len()
            invariant
                t == old(self).net(),
                t.shaped(),
                t.rooted(),
                forall|i: int| 0 <= i < path@.len() ==> #[trigger] path@[i] < t.n,
                i <= path@.len(),
                *self == (NetworkSimplex { flow: self.flow, ..*old(self) }),
                self.flow@ == t.pushed(f0, path@, second, delta, i as int),
                self.flow@.len() == t.all(),
            decreases path@.len() - i,
        {
            let u: usize = path[i];
            assert(t.pred[u as int] < t.all());
            let e: usize = self.pred[u];
            let x: i32 = if self.pred_up[u] == second { self.flow[e].wrapping_add(delta) } else { self.flow[e].wrapping_sub(delta) };
            self.flow.set(e, x);
            i = i + 1;
        }
    }

    /// Change the flow round the cycle that an arc closes.
    fn change_flow(&mut self, arc: usize, a: &Vec<usize>, b: &Vec<usize>, delta: i32)
        requires
            old(self).net().shaped(),
            old(self).net().rooted(),
            arc < old(self).arc_num,
            forall|i: int| 0 <= i < a@.len() ==> #[trigger] a@[i] < old(self).node_num,
            forall|i: int| 0 <= i < b@.len() ==> #[trigger] b@[i] < old(self).node_num,
        ensures
            *final(self) == (NetworkSimplex { flow: final(self).flow, ..*old(self) }),
            final(self).flow@.len() == old(self).flow@.len(),
            ({
                let t = old(self).net();
                let e = arc as int;
                let f0 = t.flow.update(e, t.flow[e].wrapping_add(t.state[e].wrapping_mul(delta)));
                let f1 = t.pushed(f0, a@, false, delta, a@.len() as int);
                let f2 = t.pushed(f1, b@, true, delta, b@.len() as int);
                final(self).flow@ == (if delta > 0 { f2 } else { t.flow })
            }),
    {
        if delta > 0 {
            let ghost t = self.net();
            let x: i32 = self.flow[arc].wrapping_add(self.state[arc].wrapping_mul(delta));
            self.flow.set(arc, x);
            let ghost f0 = self.flow@;
            proof {
                lemma_other_flow(t, self.net());
            }
            self.push_along(a, false, delta);
            let ghost f1 = self.flow@;
            proof {
                lemma_pushed_same(t, Net { flow: f0, ..t }, f0, a@, false, delta, a@.len() as int);
                lemma_other_flow(t, self.net());
            }
            self.push_along(b, true, delta);
            proof {
                lemma_pushed_same(t, Net { flow: f1, ..t }, f1, b@, true, delta, b@.len() as int);
            }
        }
    }

    /// Hang a path the other way round below a node outside it, its first node by an arc of its own.
    fn update_tree_structure(&mut self, stem: &Vec<usize>, p: usize, arc: usize, up: bool)
        requires
            old(self).wf_tables(),
            old(self).net().shaped(),
            forall|i: int| 0 <= i < stem@.len() ==> #[trigger] stem@[i] < old(self).node_num,
            stem@.len() > 0,
            stem@.no_duplicates(),
        ensures
            *final(self) == (NetworkSimplex { parent: final(self).parent, pred: final(self).pred, pred_up: final(self).pred_up, rank: final(self).rank, ..*old(self) }),
            final(self).net() == old(self).net().rehung(stem@, p, arc, up, stem@.len() as int),
            final(self).wf_tables(),
    {
        let ghost t = self.net();
        let mut a: usize = arc;
        let mut d: bool = up;
        let mut q: usize = p;
        let mut k: usize = 0;
        while k < stem.len()
            invariant
                t == old(self).net(),
                t.shaped(),
                self.wf_tables(),
                *self == (NetworkSimplex { parent: self.parent, pred: self.pred, pred_up: self.pred_up, rank: self.rank, ..*old(self) }),
                self.net() == t.rehung(stem@, p, arc, up, k as int),
                forall|i: int| 0 <= i < stem@.len() ==> #[trigger] stem@[i] < t.n,
                stem@.no_duplicates(),
                k <= stem@.len(),
                k == 0 ==> q == p && a == arc && d == up,
                k > 0 ==> q == stem@[k - 1] && a == t.pred[stem@[k - 1] as int] && d == !t.up[stem@[k - 1] as int],
                forall|i: int| k <= i < stem@.len() ==> self.pred@[#[trigger] stem@[i] as int] == t.pred[stem@[i] as int] && self.pred_up@[stem@[i] as int] == t.up[stem@[i] as int],
            decreases stem@.len() - k,
        {
            let x: usize = stem[k];
            let ghost g = self.net();
            let next_arc: usize = self.pred[x];
            let next_up: bool = !self.pred_up[x];
            assert(self.pred@[stem@[k as int] as int] == t.pred[x as int]);
            self.parent.set(x, q);
            self.pred.set(x, a);
            self.pred_up.set(x, d);
            self.rank = Ghost(g.hung(x as int, q, a, d).rank);
            proof {
                assert(self.net() =~= g.hung(x as int, q, a, d));
                assert forall|i: int| k + 1 <= i < stem@.len() implies self.pred@[#[trigger] stem@[i] as int] == t.pred[stem@[i] as int] && self.pred_up@[stem@[i] as int] == t.up[stem@[i] as int] by {
                    assert(stem@[i] != stem@[k as int]);
                }
            }
            a = next_arc;
            d = next_up;
            q = x;
            k = k + 1;
        }
    }

    /// Move the potentials below a node.
    fn update_potential(&mut self, x: usize, by: i32)
        requires
            old(self).wf_tables(),
            old(self).net().shaped(),
            old(self).net().rooted(),
        ensures
            *final(self) == (NetworkSimplex { pi: final(self).pi, ..*old(self) }),
            final(self).net() == old(self).net().lifted(x as int, by),
            final(self).wf_tables(),
    {
        let ghost t = self.net();
        let n: usize = self.node_num;
        let mut v: usize = 0;
        while v <= n
            invariant
                t == old(self).net(),
                t.shaped(),
                t.rooted(),
                n == t.n,
                n < usize::MAX,
                self.wf_tables(),
                *self == (NetworkSimplex { pi: self.pi, ..*old(self) }),
                v <= n + 1,
                forall|w: int| 0 <= w < v ==> #[trigger] self.pi@[w] == t.lifted(x as int, by).pi[w],
                forall|w: int| v <= w <= n ==> #[trigger] self.pi@[w] == t.pi[w],
            decreases n + 1 - v,
        {
            proof {
                let u = self.net();
                assert(u.rooted()) by {
                    assert forall|w: int| 0 <= w < u.n implies u.joins(#[trigger] u.pred[w] as int, w, u.parent[w] as int, u.up[w]) by {
                        assert(t.joins(t.pred[w] as int, w, t.parent[w] as int, t.up[w]));
                    }
                }
                crate::net::lemma_under_same(t, u, v as int, x as int);
            }
            if self.is_under(v, x) {
                let y: i32 = self.pi[v].wrapping_add(by);
                self.pi.set(v, y);
            }
            v = v + 1;
        }
        assert(self.net() =~= t.lifted(x as int, by));
    }
}

proof fn lemma_other_flow(t: Net, u: Net)
    requires
        t.shaped(),
        t.rooted(),
        u == (Net { flow: u.flow, ..t }),
        u.flow.len() == t.flow.len(),
    ensures
        u.shaped(),
        u.rooted(),
{
    assert forall|w: int| 0 <= w < u.n implies u.joins(#[trigger] u.pred[w] as int, w, u.parent[w] as int, u.up[w]) by {
        assert(t.joins(t.pred[w] as int, w, t.parent[w] as int, t.up[w]));
    }
}

proof fn lemma_pushed_same(t: Net, u: Net, flow: Seq<i32>, path: Seq<usize>, second: bool, d: i32, k: int)
    requires
        u.pred == t.pred,
        u.up == t.up,
    ensures
        t.pushed(flow, path, second, d, k) == u.pushed(flow, path, second, d, k),
    decreases k,
{
    if k > 0 {
        lemma_pushed_same(t, u, flow, path, second, d, k - 1);
    }
}

impl NetworkSimplex {
    /// Let an arc enter. `false` if nothing limits the change that this makes.
    fn pivot(&mut self, arc: usize, next: usize, Ghost(sup): Ghost<Seq<i32>>) -> (r: bool)
        requires
            old(self).wf_tables(),
            old(self).net().sound(sup),
            arc < old(self).arc_num,
            old(self).net().eligible(arc as int) < 0,
            next < old(self).arc_num || next == 0,
        ensures
            final(self).wf_tables(),
            ({
                let t = old(self).net();
                let p = t.pivot(arc, next as int);
                &&& r == (p.limit.delta < UNLIMITED)
                &&& r ==> final(self).net() == t.pivoted(p) && final(self).net().sound(sup)
                &&& !r ==> *final(self) == *old(self)
            }),
            final(self).untouched(*old(self)),
    {
        let ghost t = self.net();
        let ghost p = t.pivot(arc, next as int);
        let e: usize = arc;
        assert(t.source[e as int] <= t.n && t.target[e as int] <= t.n);
        proof {
            lemma_eligible(t, e as int);
            lemma_sides(t, arc, next as int);
            lemma_limits(t, arc, next as int);
            crate::net::lemma_balance_round(t, sup, arc, next as int);
        }
        let (a, b) = if self.state[e] == 1 { (self.source[e], self.target[e]) } else { (self.target[e], self.source[e]) };
        let j: usize = self.find_join_node(self.source[e], self.target[e]);
        let pa = self.path(a, j);
        let pb = self.path(b, j);
        let (delta, out, side) = self.find_leaving_arc(arc, &pa, &pb);
        assert(p.limit == (Limit { delta, out, side: side as int }));
        if delta >= UNLIMITED {
            return false;
        }
        proof {
            lemma_pivoted(t, sup, arc, next as int);
            if side != 0 {
                crate::net::lemma_stem(t, sup, arc, next as int);
            }
        }
        let (u_in, v_in) = if side == 1 { (a, b) } else { (b, a) };
        let mut stem: Vec<usize> = Vec::new();
        if side != 0 {
            stem = self.path(u_in, out);
            stem.push(out);
            assert(stem@ == t.stem(p));
        }
        self.change_flow(arc, &pa, &pb, delta);
        self.next_arc = next;
        assert(self.flow@ == p.flow);
        if side == 0 {
            let s: i32 = -self.state[e];
            self.state.set(e, s);
            assert(self.net() =~= t.pivoted(p));
        } else {
            let cut: usize = self.pred[out];
            assert(t.pred[out as int] < t.all());
            self.state.set(e, 0);
            let s: i32 = if self.flow[cut] == 0 { 1 } else { -1 };
            self.state.set(cut, s);
            let ghost b0 = self.net();
            proof {
                assert(b0.shaped()) by {
                    assert forall|q: int| 0 <= q < b0.all() implies -1 <= #[trigger] b0.state[q] <= 1 by {
                        assert(-1 <= t.state[q] <= 1);
                    }
                }
                crate::net::lemma_cut_and_hung(t, sup, arc, next as int);
            }
            let up: bool = u_in == self.source[e];
            self.update_tree_structure(&stem, v_in, arc, up);
            let ghost g = self.net();
            proof {
                assert(g == crate::net::cut_and_hung(t, p));
            }
            let c: i32 = self.cost[e];
            let z: i32 = 0;
            let by: i32 = self.pi[v_in].wrapping_sub(self.pi[u_in]).wrapping_sub(if up { c } else { z.wrapping_sub(c) });
            self.update_potential(u_in, by);
            assert(self.net() == t.pivoted(p));
        }
        true
    }

    /// The problem and the numbers of arcs and nodes are those of another.
    pub open spec fn untouched(&self, o: NetworkSimplex) -> bool {
        &&& self.node_num == o.node_num && self.arc_num == o.arc_num && self.arc_id == o.arc_id && self.node_id == o.node_id
        &&& self.lower == o.lower && self.upper == o.upper && self.supply == o.supply
        &&& self.source == o.source && self.target == o.target && self.cost == o.cost && self.cap == o.cap
    }
}

/// Whether `r` is the whole part of a square root.
pub open spec fn is_root(r: int, m: int) -> bool {
    0 <= r && r * r <= m < (r + 1) * (r + 1)
}

/// How many arcs a block of the search has: the root of their number, at least ten.
pub open spec fn is_block(block: int, m: int) -> bool {
    exists|r: int| #[trigger] is_root(r, m) && block == (if r > 10 { r } else { 10 })
}

fn block_of(m: usize) -> (b: usize)
    ensures
        is_block(b as int, m as int),
        b >= 10,
{
    let mut r: u128 = 0;
    while (r + 1) * (r + 1) <= m as u128
        invariant
            r * r <= m,
            r <= m,
            (r + 1) * (r + 1) <= 0x1_0000_0000_0000_0000,
        decreases m - r,
    {
        proof {
            assert(r < m) by (nonlinear_arith)
                requires (r + 1) * (r + 1) <= m;
            assert(r + 1 < 0x1_0000_0000) by (nonlinear_arith)
                requires (r + 1) * (r + 1) < 0x1_0000_0000_0000_0000;
            assert((r + 2) * (r + 2) <= 0x1_0000_0000_0000_0000) by (nonlinear_arith)
                requires r + 1 < 0x1_0000_0000;
        }
        r = r + 1;
    }
    assert(is_root(r as int, m as int));
    if r > 10 { r as usize } else { 10 }
}

/// The flow of a problem's arcs with their lower limits added.
pub open spec fn with_lower(p: NetworkSimplex, flow: Seq<i32>) -> Seq<i32> {
    Seq::new(flow.len(), |e: int| if e < p.arc_num { flow[e].wrapping_add(p.lower@[e]) } else { flow[e] })
}

/// The outflow of a node less its inflow.
pub open spec fn outflow(p: NetworkSimplex, flow: Seq<i32>, v: int, k: int) -> int
    decreases k,
{
    if k <= 0 {
        0
    } else {
        let x = flow[k - 1] as int;
        outflow(p, flow, v, k - 1) + (if p.source@[k - 1] == v { x } else { 0 }) - (if p.target@[k - 1] == v { x } else { 0 })
    }
}

impl NetworkSimplex {
    /// How a run on this problem ends, with blocks of some size.
    pub open spec fn ending(&self, block: int) -> Ending {
        self.start(block).ending(MAX_PIVOTS as int)
    }

    /// Whether a run finds a flow: what the nodes have is what they miss, the pivots end, and no
    /// artificial arc is needed.
    pub open spec fn finds(&self, block: int) -> bool {
        &&& self.node_num > 0 && self.total(self.node_num as int) == 0
        &&& self.ending(block) matches Ending::Settled(t)
        &&& forall|e: int| t.m <= e < t.all() ==> #[trigger] t.flow[e] == 0
    }

    /// `flow` meets the limits of every arc that has them, and every node sends out what it has.
    pub open spec fn meets(&self, flow: Seq<i32>) -> bool {
        &&& forall|e: int| 0 <= e < self.arc_num && room(self.lower@[e], self.upper@[e]) < UNLIMITED ==>
            self.lower@[e] <= #[trigger] flow[e] <= self.upper@[e]
        &&& forall|v: int| 0 <= v < self.node_num ==> same32(#[trigger] outflow(*self, flow, v, self.arc_num as int), self.supply@[v] as int)
    }

    /// With some potentials, an arc that could carry less does not cost more than they differ by, and one
    /// that could carry more does not cost less.
    pub open spec fn is_tight(&self, flow: Seq<i32>, pi: Seq<i32>) -> bool {
        forall|e: int| 0 <= e < self.arc_num && room(self.lower@[e], self.upper@[e]) < UNLIMITED ==> {
            let c = self.cost@[e].wrapping_add(pi[self.source@[e] as int]).wrapping_sub(pi[self.target@[e] as int]);
            (#[trigger] flow[e] > self.lower@[e] ==> c <= 0) && (flow[e] < self.upper@[e] ==> c >= 0)
        }
    }
}

pub proof fn lemma_outflow(p: NetworkSimplex, t: Net, flow: Seq<i32>, v: int, k: int)
    requires
        0 <= k <= p.arc_num,
        forall|e: int| 0 <= e < p.arc_num ==> #[trigger] t.source[e] == p.source@[e],
        forall|e: int| 0 <= e < p.arc_num ==> #[trigger] t.target[e] == p.target@[e],
    ensures
        outflow(p, flow, v, k) == t.excess(flow, v, k),
    decreases k,
{
    if k > 0 {
        lemma_outflow(p, t, flow, v, k - 1);
        assert(t.source[k - 1] == p.source@[k - 1] && t.target[k - 1] == p.target@[k - 1]);
    }
}

/// Empty arcs add nothing.
proof fn lemma_excess_rest(t: Net, flow: Seq<i32>, v: int, k: int)
    requires
        0 <= t.m <= k <= flow.len(),
        forall|e: int| t.m <= e < k ==> #[trigger] flow[e] == 0,
    ensures
        t.excess(flow, v, k) == t.excess(flow, v, t.m),
    decreases k,
{
    if k > t.m {
        lemma_excess_rest(t, flow, v, k - 1);
        assert(flow[k - 1] == 0);
    }
}

/// Adding the lower limits adds what they took from the nodes.
pub proof fn lemma_outflow_lower(p: NetworkSimplex, flow: Seq<i32>, v: int, k: int)
    requires
        p.wf(),
        0 <= k <= p.arc_num,
        p.arc_num <= flow.len(),
        0 <= v < p.node_num,
    ensures
        same32(outflow(p, with_lower(p, flow), v, k), outflow(p, flow, v, k) + p.supply@[v] - p.left_over(k)[v]),
    decreases k,
{
    if k > 0 {
        lemma_outflow_lower(p, flow, v, k - 1);
        let e = k - 1;
        let c = p.lower@[e];
        lemma_left_over(p, k - 1);
        let l = p.left_over(k - 1);
        let (a, b) = (p.source@[e] as int, p.target@[e] as int);
        assert(p.source@[e] < p.node_num && p.target@[e] < p.node_num);
        let w = l.update(a, l[a].wrapping_sub(c));
        lemma_wrap(flow[e], c);
        lemma_wrap(l[a], c);
        lemma_wrap(w[b], c);
        let x = with_lower(p, flow)[e] as int;
        let y = flow[e] as int;
        assert(same32(x, y + c));
        // What the limit takes from the node.
        let d = l[v] - p.left_over(k)[v];
        let want = (if a == v { c as int } else { 0 }) - (if b == v { c as int } else { 0 });
        assert(same32(d, want)) by {
            if a == v && b == v {
                lemma_same32(l[v] as int, l[v] as int, w[v].wrapping_add(c) as int, w[v] + c);
                lemma_same32(0, 0, w[v] as int, l[v] - c);
            } else if a == v {
            } else if b == v {
            }
        }
        let (x1, y1) = (if a == v { x } else { 0 }, if a == v { y + c } else { 0 });
        let (x2, y2) = (if b == v { x } else { 0 }, if b == v { y + c } else { 0 });
        lemma_same32(x1, y1, x2, y2);
        lemma_same32(x1 - x2, y1 - y2, d, want);
        let prev = outflow(p, with_lower(p, flow), v, k - 1);
        let base = outflow(p, flow, v, k - 1) + p.supply@[v] - l[v];
        lemma_same32(prev, base, x1 - x2, y1 - y2);
        lemma_same32(prev + (x1 - x2), base + (y1 - y2), 0, 0);
        lemma_close(prev + (x1 - x2), base + (y1 - y2), d, want);
    }
}

proof fn lemma_close(a: int, b: int, d: int, w: int)
    requires
        same32(a, b),
        same32(d, w),
    ensures
        same32(a, b - w + d),
{
    lemma_same32(a, b, 0, 0);
    let (x, y) = (a - b, w - d);
    assert((w - d) % 0x1_0000_0000 == 0) by (nonlinear_arith)
        requires (d - w) % 0x1_0000_0000 == 0;
    assert((x + y) % 0x1_0000_0000 == 0) by (nonlinear_arith)
        requires x % 0x1_0000_0000 == 0, y % 0x1_0000_0000 == 0;
}

/// What holds of the network where the pivots end.
proof fn lemma_settled(p: NetworkSimplex, t: Net, sup: Seq<i32>)
    requires
        p.wf(),
        p.limits_ok(),
        t.sound(sup),
        t.entering() is None,
        t.n == p.node_num,
        t.m == p.arc_num,
        forall|e: int| 0 <= e < p.arc_num ==> #[trigger] t.source[e] == p.source@[e],
        forall|e: int| 0 <= e < p.arc_num ==> #[trigger] t.target[e] == p.target@[e],
        forall|e: int| 0 <= e < p.arc_num ==> #[trigger] t.cost[e] == p.cost@[e],
        forall|e: int| 0 <= e < p.arc_num ==> #[trigger] t.cap[e] == room(p.lower@[e], p.upper@[e]),
        forall|e: int| t.m <= e < t.all() ==> #[trigger] t.flow[e] == 0,
        forall|v: int| 0 <= v < p.node_num ==> #[trigger] sup[v] == p.left_over(p.arc_num as int)[v],
    ensures
        p.meets(with_lower(p, t.flow)),
        p.is_tight(with_lower(p, t.flow), t.pi),
{
    let f = with_lower(p, t.flow);
    let m = p.arc_num as int;
    assert forall|e: int| 0 <= e < m && room(p.lower@[e], p.upper@[e]) < UNLIMITED implies p.lower@[e] <= #[trigger] f[e] <= p.upper@[e] by {
        assert(p.lower@[e] <= p.upper@[e]);
        lemma_room(p.lower@[e], p.upper@[e]);
        assert(t.arc_holds(e));
        assert(t.cap[e] == room(p.lower@[e], p.upper@[e]));
    }
    assert forall|v: int| 0 <= v < p.node_num implies same32(#[trigger] outflow(p, f, v, m), p.supply@[v] as int) by {
        lemma_outflow(p, t, t.flow, v, m);
        lemma_excess_rest(t, t.flow, v, t.all());
        assert(same32(t.excess(t.flow, v, t.all()), sup[v] as int));
        lemma_outflow_lower(p, t.flow, v, m);
        let l = p.left_over(m)[v] as int;
        lemma_same32(outflow(p, t.flow, v, m), l, p.supply@[v] - l, p.supply@[v] - l);
        lemma_chain(outflow(p, f, v, m), outflow(p, t.flow, v, m) + p.supply@[v] - l, p.supply@[v] as int);
    }
    assert forall|e: int| 0 <= e < m && room(p.lower@[e], p.upper@[e]) < UNLIMITED implies ({
        let c = p.cost@[e].wrapping_add(t.pi[p.source@[e] as int]).wrapping_sub(t.pi[p.target@[e] as int]);
        (#[trigger] f[e] > p.lower@[e] ==> c <= 0) && (f[e] < p.upper@[e] ==> c >= 0)
    }) by {
        assert(p.lower@[e] <= p.upper@[e]);
        lemma_room(p.lower@[e], p.upper@[e]);
        assert(t.arc_holds(e));
        assert(t.cap[e] == room(p.lower@[e], p.upper@[e]));
        assert(t.source[e] == p.source@[e] && t.target[e] == p.target@[e] && t.cost[e] == p.cost@[e]);
        assert(-1 <= t.state[e] <= 1);
        lemma_none_enters(t, e);
        lemma_price(t, e);
        if t.state[e] == 0 {
            assert(t.has_arc(e));
            let u = choose|u: int| 0 <= u < t.n && #[trigger] t.pred[u] == e;
            assert(t.reduced(t.pred[u] as int) == 0);
        }
    }
}

pub proof fn lemma_chain(a: int, b: int, c: int)
    requires
        same32(a, b),
        same32(b, c),
    ensures
        same32(a, c),
{
    lemma_same32(a, b, b, c);
    assert((a - c) % 0x1_0000_0000 == 0) by (nonlinear_arith)
        requires (a - b) % 0x1_0000_0000 == 0, (b - c) % 0x1_0000_0000 == 0;
}

/// What a change that is no better than free says of the cost.
pub proof fn lemma_price(t: Net, e: int)
    requires
        t.eligible(e) >= 0,
        -1 <= t.state[e] <= 1,
    ensures
        t.state[e] == 1 ==> t.reduced(e) >= 0,
        t.state[e] == -1 ==> t.reduced(e) <= 0,
{
    let r = t.reduced(e);
    let x = t.state[e] * r;
    if t.state[e] == 1 {
        assert(x == r) by (nonlinear_arith)
            requires x == t.state[e] * r, t.state[e] == 1;
    } else if t.state[e] == -1 {
        assert(x == -r) by (nonlinear_arith)
            requires x == t.state[e] * r, t.state[e] == -1;
    }
}

impl NetworkSimplex {
    /// Look for the cheapest flow. `true` where one was found; it is then the flow of the arcs.
    ///
    /// No flow is found where what the nodes have is not what they miss, where a change that lowers the
    /// cost has no limit, where an artificial arc is still needed in the end, or after more pivots than can
    /// be counted.
    pub fn run(&mut self) -> (r: bool)
        requires
            old(self).wf(),
            old(self).limits_ok(),
        ensures
            final(self).wf_tables(),
            final(self).kept(*old(self)),
            exists|block: int| {
                &&& #[trigger] is_block(block, old(self).arc_num as int)
                &&& r == old(self).finds(block)
                &&& r ==> (old(self).ending(block) matches Ending::Settled(t)
                    && final(self).flow@ == with_lower(*old(self), t.flow) && final(self).pi@ == t.pi)
            },
            r ==> old(self).meets(final(self).flow@),
            r ==> old(self).is_tight(final(self).flow@, final(self).pi@),
    {
        let ghost p = *self;
        let m: usize = self.arc_num;
        let n: usize = self.node_num;
        let block: usize = block_of(m);
        if !self.init(block) {
            assert(is_block(block as int, p.arc_num as int));
            assert(!p.finds(block as int));
            return false;
        }
        let ghost sup = start_supply(p, block as int);
        proof {
            lemma_start(p, block as int);
        }
        let ghost t0 = self.net();
        let mut left: u64 = MAX_PIVOTS;
        let mut settled: bool = false;
        while left > 0 && !settled
            invariant
                p.wf(),
                p.limits_ok(),
                is_block(block as int, p.arc_num as int),
                p.node_num > 0 && p.total(p.node_num as int) == 0,
                n == p.node_num,
                m == p.arc_num,
                self.wf_tables(),
                self.net().sound(sup),
                self.kept(p),
                self.cap@ == t0.cap,
                self.source@ == t0.source,
                self.target@ == t0.target,
                t0 == p.start(block as int),
                sup == start_supply(p, block as int),
                *old(self) == p,
                settled ==> self.net().entering() is None && p.ending(block as int) == Ending::Settled(self.net()),
                !settled ==> self.net().ending(left as int) == p.ending(block as int),
            decreases left, (if settled { 0int } else { 1int }),
        {
            match self.find_entering_arc() {
                None => {
                    settled = true;
                },
                Some(a) => {
                    proof {
                        lemma_search(self.net(), 0, 0, self.net().block, 0);
                    }
                    if !self.pivot(a.0, a.1, Ghost(sup)) {
                        assert(p.ending(block as int) is Unlimited);
                        assert(!p.finds(block as int));
                        return false;
                    }
                    left = left - 1;
                },
            }
        }
        if !settled {
            assert(p.ending(block as int) is Spent);
            assert(!p.finds(block as int));
            return false;
        }
        let ghost t = self.net();
        let mut e: usize = m;
        while e < m + n
            invariant
                p.wf(),
                is_block(block as int, p.arc_num as int),
                n == p.node_num,
                m == p.arc_num,
                self.wf_tables(),
                self.kept(p),
                *old(self) == p,
                t == self.net(),
                p.ending(block as int) == Ending::Settled(t),
                m <= e <= m + n,
                forall|q: int| m <= q < e ==> #[trigger] t.flow[q] == 0,
            decreases m + n - e,
        {
            if self.flow[e] != 0 {
                proof {
                    assert(t.m == m && t.all() == m + n);
                    assert(t.flow[e as int] != 0);
                    if p.finds(block as int) {
                        let u = p.ending(block as int)->Settled_0;
                        assert(u == t);
                        assert(u.flow[e as int] == 0);
                    }
                }
                assert(!p.finds(block as int));
                return false;
            }
            e = e + 1;
        }
        proof {
            assert forall|q: int| 0 <= q < m implies #[trigger] t.cap[q] == room(p.lower@[q], p.upper@[q]) by {
                assert(t0.cap[q] == room(p.lower@[q], p.upper@[q]));
            }
            lemma_settled(p, t, sup);
        }
        let mut i: usize = 0;
        while i < m
            invariant
                p.wf(),
                m == p.arc_num,
                n == p.node_num,
                self.wf_tables(),
                self.kept(p),
                t.flow.len() == m + n,
                self.pi@ == t.pi,
                i <= m,
                forall|q: int| 0 <= q < i ==> #[trigger] self.flow@[q] == t.flow[q].wrapping_add(p.lower@[q]),
                forall|q: int| i <= q < m + n ==> #[trigger] self.flow@[q] == t.flow[q],
            decreases m - i,
        {
            let c: i32 = self.lower[i];
            let x: i32 = self.flow[i].wrapping_add(c);
            self.flow.set(i, x);
            i = i + 1;
        }
        assert(self.flow@ =~= with_lower(p, t.flow));
        true
    }
}

// ── the cheapest flow ────────────────────────────────────────────────────────────────────────

/// The cost of a flow over the first `k` arcs.
pub open spec fn price(p: NetworkSimplex, flow: Seq<i32>, k: int) -> int
    decreases k,
{
    if k <= 0 { 0 } else { price(p, flow, k - 1) + p.cost@[k - 1] * flow[k - 1] }
}

/// The potentials of the ends of the first `k` arcs, weighted by a flow.
spec fn drop(p: NetworkSimplex, pi: Seq<i32>, flow: Seq<i32>, k: int) -> int
    decreases k,
{
    if k <= 0 { 0 } else { drop(p, pi, flow, k - 1) + (pi[p.source@[k - 1] as int] - pi[p.target@[k - 1] as int]) * flow[k - 1] }
}

/// The outflows of the first `n` nodes over the first `k` arcs, weighted by their potentials.
spec fn weighed(p: NetworkSimplex, pi: Seq<i32>, flow: Seq<i32>, n: int, k: int) -> int
    decreases n,
{
    if n <= 0 { 0 } else { weighed(p, pi, flow, n - 1, k) + pi[n - 1] * outflow(p, flow, n - 1, k) }
}

proof fn lemma_weighed_step(p: NetworkSimplex, pi: Seq<i32>, flow: Seq<i32>, n: int, k: int)
    requires
        0 <= n,
        k >= 1,
    ensures
        weighed(p, pi, flow, n, k) == weighed(p, pi, flow, n, k - 1)
            + (if p.source@[k - 1] < n { pi[p.source@[k - 1] as int] * flow[k - 1] } else { 0 })
            - (if p.target@[k - 1] < n { pi[p.target@[k - 1] as int] * flow[k - 1] } else { 0 }),
    decreases n,
{
    if n > 0 {
        lemma_weighed_step(p, pi, flow, n - 1, k);
        let x = flow[k - 1] as int;
        let a = pi[n - 1] as int;
        let o = outflow(p, flow, n - 1, k - 1);
        let s = if p.source@[k - 1] == n - 1 { x } else { 0 };
        let t = if p.target@[k - 1] == n - 1 { x } else { 0 };
        assert(a * (o + s - t) == a * o + a * s - a * t) by (nonlinear_arith);
        assert(a * 0 == 0);
    }
}

proof fn lemma_drop_is_weighed(p: NetworkSimplex, pi: Seq<i32>, flow: Seq<i32>, k: int)
    requires
        p.wf(),
        0 <= k <= p.arc_num,
    ensures
        drop(p, pi, flow, k) == weighed(p, pi, flow, p.node_num as int, k),
    decreases k,
{
    if k > 0 {
        lemma_drop_is_weighed(p, pi, flow, k - 1);
        lemma_weighed_step(p, pi, flow, p.node_num as int, k);
        assert(p.source@[k - 1] < p.node_num && p.target@[k - 1] < p.node_num);
        let (a, b, x) = (pi[p.source@[k - 1] as int] as int, pi[p.target@[k - 1] as int] as int, flow[k - 1] as int);
        assert((a - b) * x == a * x - b * x) by (nonlinear_arith);
    } else {
        lemma_weighed_none(p, pi, flow, p.node_num as int);
    }
}

proof fn lemma_weighed_none(p: NetworkSimplex, pi: Seq<i32>, flow: Seq<i32>, n: int)
    ensures
        weighed(p, pi, flow, n, 0) == 0,
    decreases n,
{
    if n > 0 {
        lemma_weighed_none(p, pi, flow, n - 1);
        assert(pi[n - 1] * outflow(p, flow, n - 1, 0) == 0);
    }
}

proof fn lemma_weighed_same(p: NetworkSimplex, pi: Seq<i32>, f: Seq<i32>, g: Seq<i32>, n: int, k: int)
    requires
        forall|v: int| 0 <= v < n ==> #[trigger] outflow(p, f, v, k) == outflow(p, g, v, k),
    ensures
        weighed(p, pi, f, n, k) == weighed(p, pi, g, n, k),
    decreases n,
{
    if n > 0 {
        lemma_weighed_same(p, pi, f, g, n - 1, k);
        assert(outflow(p, f, n - 1, k) == outflow(p, g, n - 1, k));
    }
}

/// Where what leaves a node less what enters it fits in 32 bits, a flow that meets a problem sends out of the
/// node exactly what it has.
pub proof fn law_small_flow_balances(p: NetworkSimplex, flow: Seq<i32>, v: int)
    requires
        p.meets(flow),
        0 <= v < p.node_num,
        i32::MIN <= outflow(p, flow, v, p.arc_num as int) <= i32::MAX,
    ensures
        outflow(p, flow, v, p.arc_num as int) == p.supply@[v],
{
    let out = outflow(p, flow, v, p.arc_num as int);
    assert(same32(out, p.supply@[v] as int));
    lemma_same_i32(out as i32, p.supply@[v]);
}

/// Whether the potentials are small enough for costs less their differences to be exact.
pub open spec fn is_exact(p: NetworkSimplex, pi: Seq<i32>) -> bool {
    forall|e: int| 0 <= e < p.arc_num ==> i32::MIN <= #[trigger] p.cost@[e] + pi[p.source@[e] as int] <= i32::MAX
        && i32::MIN <= p.cost@[e] + pi[p.source@[e] as int] - pi[p.target@[e] as int] <= i32::MAX
}

/// A flow that is tight with some potentials is the cheapest: no flow within the limits that gives
/// every node the same outflow costs less.
pub proof fn law_tight_flow_is_cheapest(p: NetworkSimplex, pi: Seq<i32>, f: Seq<i32>, g: Seq<i32>)
    requires
        p.wf(),
        p.limits_ok(),
        forall|e: int| 0 <= e < p.arc_num ==> room(#[trigger] p.lower@[e], p.upper@[e]) < UNLIMITED,
        f.len() >= p.arc_num,
        g.len() >= p.arc_num,
        p.is_tight(f, pi),
        is_exact(p, pi),
        p.meets(f),
        p.meets(g),
        forall|v: int| 0 <= v < p.node_num ==> #[trigger] outflow(p, f, v, p.arc_num as int) == outflow(p, g, v, p.arc_num as int),
    ensures
        price(p, f, p.arc_num as int) <= price(p, g, p.arc_num as int),
{
    let m = p.arc_num as int;
    lemma_drop_is_weighed(p, pi, f, m);
    lemma_drop_is_weighed(p, pi, g, m);
    lemma_weighed_same(p, pi, f, g, p.node_num as int, m);
    lemma_cheaper_upto(p, pi, f, g, m);
}

proof fn lemma_cheaper_upto(p: NetworkSimplex, pi: Seq<i32>, f: Seq<i32>, g: Seq<i32>, k: int)
    requires
        p.wf(),
        0 <= k <= p.arc_num,
        forall|e: int| 0 <= e < p.arc_num ==> room(#[trigger] p.lower@[e], p.upper@[e]) < UNLIMITED,
        f.len() >= p.arc_num,
        g.len() >= p.arc_num,
        p.is_tight(f, pi),
        is_exact(p, pi),
        p.meets(f),
        p.meets(g),
    ensures
        price(p, f, k) + drop(p, pi, f, k) <= price(p, g, k) + drop(p, pi, g, k),
    decreases k,
{
    if k > 0 {
        lemma_cheaper_upto(p, pi, f, g, k - 1);
        let e = k - 1;
        assert(room(p.lower@[e], p.upper@[e]) < UNLIMITED);
        assert(i32::MIN <= p.cost@[e] + pi[p.source@[e] as int] <= i32::MAX);
        let (c, d) = (p.cost@[e] as int, pi[p.source@[e] as int] - pi[p.target@[e] as int]);
        let r = c + d;
        assert(p.cost@[e].wrapping_add(pi[p.source@[e] as int]).wrapping_sub(pi[p.target@[e] as int]) == r);
        let (x, y) = (f[e] as int, g[e] as int);
        assert(p.lower@[e] <= f[e] <= p.upper@[e]);
        assert(p.lower@[e] <= g[e] <= p.upper@[e]);
        assert(r * x <= r * y) by (nonlinear_arith)
            requires x < y ==> r >= 0, x > y ==> r <= 0;
        assert(c * x + d * x == r * x && c * y + d * y == r * y) by (nonlinear_arith)
            requires r == c + d;
    }
}

} // verus!
