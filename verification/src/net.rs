//! Flow networks with a spanning tree, and the pivots of the network simplex method on them.
//!
//! Numbers are 32 bits wide and wrap.

use vstd::prelude::*;

verus! {

/// What stands for no limit.
pub const UNLIMITED: i32 = 0x7fff_ffff;

/// The cost of an arc that only stands in for a missing one.
pub const ART_COST: i32 = 0x4000_0000;

/// The pivots after which a run gives up.
pub const MAX_PIVOTS: u64 = 0xffff_ffff_ffff_ffff;

/// A flow network with a spanning tree: nodes `0..n` and a root, arcs `0..m` and then one artificial arc
/// per node.
#[verifier::ext_equal]
pub ghost struct Net {
    pub n: int,
    pub m: int,
    pub source: Seq<usize>,
    pub target: Seq<usize>,
    pub cap: Seq<i32>,
    pub cost: Seq<i32>,
    pub flow: Seq<i32>,
    pub pi: Seq<i32>,
    /// The parent of each node, the arc to it, and whether that arc leads up to it.
    pub parent: Seq<usize>,
    pub pred: Seq<usize>,
    pub up: Seq<bool>,
    /// 0 for an arc of the tree, 1 for an empty arc, -1 for a full one.
    pub state: Seq<i32>,
    /// A height that rises from each parent to its children.
    pub rank: Seq<int>,
    pub next: int,
    pub block: int,
}

impl Net {
    /// The root, the node behind the others.
    pub open spec fn root(self) -> int {
        self.n
    }

    /// The number of arcs, artificial ones included.
    pub open spec fn all(self) -> int {
        self.m + self.n
    }

    /// The cost of an arc less what the potentials of its ends differ by.
    pub open spec fn reduced(self, e: int) -> i32 {
        self.cost[e].wrapping_add(self.pi[self.source[e] as int]).wrapping_sub(self.pi[self.target[e] as int])
    }

    /// How much worse than free a change of an arc's flow is, negative if it is better.
    pub open spec fn eligible(self, e: int) -> i32 {
        self.state[e].wrapping_mul(self.reduced(e))
    }

    /// The arc that is looked at in step `k` of a search.
    pub open spec fn turn(self, k: int) -> int {
        if self.next + k < self.m { self.next + k } else { self.next + k - self.m }
    }

    /// The search for an arc to enter from step `k` on: the best arc of the first block that has an
    /// eligible one, and where the next search starts. `min` and `arc` are the best so far, and `left` is
    /// what is left of the block.
    pub open spec fn search(self, k: int, min: i32, left: int, arc: usize) -> Option<(usize, int)>
        decreases self.m - k,
    {
        if k >= self.m {
            if min < 0 { Some((arc, self.next)) } else { None }
        } else {
            let e = self.turn(k);
            let c = self.eligible(e);
            let (min2, arc2) = if c < min { (c, e as usize) } else { (min, arc) };
            if left == 1 {
                if min2 < 0 { Some((arc2, e)) } else { self.search(k + 1, min2, self.block, arc2) }
            } else {
                self.search(k + 1, min2, left - 1, arc2)
            }
        }
    }

    /// The arc to enter the tree, and where the next search starts.
    pub open spec fn entering(self) -> Option<(usize, int)> {
        self.search(0, 0, self.block, 0)
    }

    /// Whether node `x` is `v` or above it.
    pub open spec fn under(self, v: int, x: int) -> bool
        decreases self.rank[v],
    {
        v == x || (v != self.root() && 0 <= self.rank[self.parent[v] as int] < self.rank[v] && self.under(self.parent[v] as int, x))
    }

    /// The nodes from `u` up to below `j`.
    pub open spec fn path(self, u: int, j: int) -> Seq<usize>
        decreases self.rank[u],
    {
        if u == j || u == self.root() || !(0 <= self.rank[self.parent[u] as int] < self.rank[u]) {
            Seq::empty()
        } else {
            seq![u as usize] + self.path(self.parent[u] as int, j)
        }
    }

    /// The lowest node that is above, or is, both `u` and `v`.
    pub open spec fn joint(self, u: int, v: int) -> int
        decreases self.rank[u],
    {
        if self.under(v, u) || u == self.root() || !(0 <= self.rank[self.parent[u] as int] < self.rank[u]) {
            u
        } else {
            self.joint(self.parent[u] as int, v)
        }
    }

    /// By how much the flow to a node's parent can change: grow where `grow` says so, shrink otherwise.
    pub open spec fn slack(self, u: int, grow: bool) -> i32 {
        let e = self.pred[u] as int;
        if grow {
            if self.cap[e] >= UNLIMITED { UNLIMITED } else { self.cap[e].wrapping_sub(self.flow[e]) }
        } else {
            self.flow[e]
        }
    }

    /// Whether the flow to a node's parent grows when flow goes round: on the first side where the arc
    /// leads down, on the second where it leads up.
    pub open spec fn grows(self, u: int, second: bool) -> bool {
        self.up[u] == second
    }
}

/// The arc that limits a change: by how much, below which node it is, and on which side, 0 for none.
pub ghost struct Limit {
    pub delta: i32,
    pub out: usize,
    pub side: int,
}

impl Net {
    /// The limit after the first `k` nodes of a path on one side: the first of equal ones on the first
    /// side, the last on the second.
    pub open spec fn limit(self, path: Seq<usize>, second: bool, start: Limit, k: int) -> Limit
        decreases k,
    {
        if k <= 0 {
            start
        } else {
            let p = self.limit(path, second, start, k - 1);
            let u = path[k - 1] as int;
            let d = self.slack(u, self.grows(u, second));
            if second {
                if d <= p.delta { Limit { delta: d, out: path[k - 1], side: 2 } } else { p }
            } else {
                if d < p.delta { Limit { delta: d, out: path[k - 1], side: 1 } } else { p }
            }
        }
    }

    /// The flow after it changed along the first `k` nodes of a path.
    pub open spec fn pushed(self, flow: Seq<i32>, path: Seq<usize>, second: bool, delta: i32, k: int) -> Seq<i32>
        decreases k,
    {
        if k <= 0 {
            flow
        } else {
            let f = self.pushed(flow, path, second, delta, k - 1);
            let u = path[k - 1] as int;
            let e = self.pred[u] as int;
            f.update(e, if self.grows(u, second) { f[e].wrapping_add(delta) } else { f[e].wrapping_sub(delta) })
        }
    }

    /// A node hung below another one by an arc.
    pub open spec fn hung(self, x: int, p: usize, arc: usize, up: bool) -> Net {
        Net {
            parent: self.parent.update(x, p),
            pred: self.pred.update(x, arc),
            up: self.up.update(x, up),
            rank: Seq::new(self.rank.len(), |v: int| if self.under(v, x) { self.rank[v] + self.rank[p as int] + 1 } else { self.rank[v] }),
            ..self
        }
    }

    /// The tree after the first `k` nodes of a path were hung below the one before them, by the arc that
    /// led from that one to them, the first below `p` by an arc of its own.
    pub open spec fn rehung(self, stem: Seq<usize>, p: usize, arc: usize, up: bool, k: int) -> Net
        decreases k,
    {
        if k <= 0 {
            self
        } else if k == 1 {
            self.hung(stem[0] as int, p, arc, up)
        } else {
            let b = stem[k - 2] as int;
            self.rehung(stem, p, arc, up, k - 1).hung(stem[k - 1] as int, stem[k - 2], self.pred[b], !self.up[b])
        }
    }

    /// The potentials below a node moved by a number.
    pub open spec fn lifted(self, x: int, by: i32) -> Net {
        Net { pi: Seq::new(self.pi.len(), |v: int| if self.under(v, x) { self.pi[v].wrapping_add(by) } else { self.pi[v] }), ..self }
    }
}

/// What a pivot does: the arc that enters, the two ends of the change, the limit, and the flow after it.
pub ghost struct Pivot {
    pub arc: usize,
    pub next: int,
    pub first: usize,
    pub second: usize,
    pub join: int,
    pub limit: Limit,
    pub flow: Seq<i32>,
}

impl Pivot {
    /// The end of the arc that enters below which the tree is hung elsewhere.
    pub open spec fn inside(self) -> usize {
        if self.limit.side == 1 { self.first } else { self.second }
    }

    /// The other end.
    pub open spec fn outside(self) -> usize {
        if self.limit.side == 1 { self.second } else { self.first }
    }
}

impl Net {
    /// The nodes that are hung elsewhere: from the inner end up to the one above which the tree is cut.
    pub open spec fn stem(self, p: Pivot) -> Seq<usize> {
        self.path(p.inside() as int, p.limit.out as int).push(p.limit.out)
    }

    /// The pivot that an arc to enter makes.
    pub open spec fn pivot(self, arc: usize, next: int) -> Pivot {
        let e = arc as int;
        let (a, b) = if self.state[e] == 1 { (self.source[e], self.target[e]) } else { (self.target[e], self.source[e]) };
        let j = self.joint(self.source[e] as int, self.target[e] as int);
        let (pa, pb) = (self.path(a as int, j), self.path(b as int, j));
        let l1 = self.limit(pa, false, Limit { delta: self.cap[e], out: 0, side: 0 }, pa.len() as int);
        let l2 = self.limit(pb, true, l1, pb.len() as int);
        let f0 = self.flow.update(e, self.flow[e].wrapping_add(self.state[e].wrapping_mul(l2.delta)));
        let f1 = self.pushed(f0, pa, false, l2.delta, pa.len() as int);
        let f2 = self.pushed(f1, pb, true, l2.delta, pb.len() as int);
        Pivot { arc, next, first: a, second: b, join: j, limit: l2, flow: if l2.delta > 0 { f2 } else { self.flow } }
    }

    /// The network after a pivot.
    pub open spec fn pivoted(self, p: Pivot) -> Net {
        let e = p.arc as int;
        if p.limit.side == 0 {
            Net { flow: p.flow, next: p.next, state: self.state.update(e, (-self.state[e]) as i32), ..self }
        } else {
            let (u_in, v_in) = (p.inside(), p.outside());
            let out = self.pred[p.limit.out as int] as int;
            let state = self.state.update(e, 0).update(out, if p.flow[out] == 0 { 1i32 } else { -1i32 });
            let stem = self.stem(p);
            let t = Net { flow: p.flow, next: p.next, state, ..self }.rehung(stem, v_in, p.arc, u_in == self.source[e], stem.len() as int);
            let c = t.cost[e];
            let by = t.pi[v_in as int].wrapping_sub(t.pi[u_in as int]).wrapping_sub(if u_in == self.source[e] { c } else { 0i32.wrapping_sub(c) });
            t.lifted(u_in as int, by)
        }
    }
}

/// How a run ends: with no arc to enter, with a change that nothing limits, or after too many pivots.
pub ghost enum Ending {
    Settled(Net),
    Unlimited(Net),
    Spent(Net),
}

impl Net {
    /// How pivots end that go on from here, at most `steps` of them.
    pub open spec fn ending(self, steps: int) -> Ending
        decreases steps,
    {
        if steps <= 0 {
            Ending::Spent(self)
        } else {
            match self.entering() {
                None => Ending::Settled(self),
                Some(a) => {
                    let p = self.pivot(a.0, a.1);
                    if p.limit.delta >= UNLIMITED { Ending::Unlimited(self) } else { self.pivoted(p).ending(steps - 1) }
                },
            }
        }
    }
}

// ── the tree ─────────────────────────────────────────────────────────────────────────────────

impl Net {
    /// The tables fit together.
    pub open spec fn shaped(self) -> bool {
        let a = self.all();
        &&& 1 <= self.n && 0 <= self.m && self.n + self.m < usize::MAX
        &&& self.source.len() == a && self.target.len() == a && self.cap.len() == a && self.cost.len() == a
        &&& self.flow.len() == a && self.state.len() == a
        &&& self.pi.len() == self.n + 1 && self.parent.len() == self.n + 1 && self.pred.len() == self.n + 1
        &&& self.up.len() == self.n + 1 && self.rank.len() == self.n + 1
        &&& 1 <= self.block
        &&& 0 <= self.next && (self.next < self.m || self.next == 0)
        &&& forall|e: int| 0 <= e < a ==> #[trigger] self.source[e] <= self.n
        &&& forall|e: int| 0 <= e < a ==> #[trigger] self.target[e] <= self.n
        &&& forall|e: int| 0 <= e < a ==> -1 <= #[trigger] self.state[e] <= 1
    }

    /// Whether an arc joins a node and its parent, in the given direction.
    pub open spec fn joins(self, e: int, u: int, p: int, up: bool) -> bool {
        if up { self.source[e] == u && self.target[e] == p } else { self.source[e] == p && self.target[e] == u }
    }

    /// Every node but the root hangs below a parent of lower rank, by an arc that joins the two.
    pub open spec fn rooted(self) -> bool {
        &&& forall|u: int| 0 <= u <= self.n ==> 0 <= #[trigger] self.rank[u]
        &&& forall|u: int| 0 <= u < self.n ==> #[trigger] self.parent[u] <= self.n
        &&& forall|u: int| 0 <= u < self.n ==> self.rank[#[trigger] self.parent[u] as int] < self.rank[u]
        &&& forall|u: int| 0 <= u < self.n ==> #[trigger] self.pred[u] < self.all()
        &&& forall|u: int| 0 <= u < self.n ==> self.joins(#[trigger] self.pred[u] as int, u, self.parent[u] as int, self.up[u])
    }
}

pub proof fn lemma_under_step(t: Net, v: int, x: int)
    requires
        t.shaped(),
        t.rooted(),
        0 <= v < t.n,
    ensures
        t.under(v, x) <==> v == x || t.under(t.parent[v] as int, x),
        0 <= t.parent[v] <= t.n,
        0 <= t.rank[t.parent[v] as int] < t.rank[v],
{
    assert(0 <= t.rank[t.parent[v] as int]);
}

pub proof fn lemma_under_root(t: Net, v: int)
    requires
        t.shaped(),
        t.rooted(),
        0 <= v <= t.n,
    ensures
        t.under(v, t.n),
    decreases t.rank[v],
{
    if v != t.n {
        lemma_under_step(t, v, t.n);
        lemma_under_root(t, t.parent[v] as int);
    }
}

pub proof fn lemma_under_trans(t: Net, a: int, b: int, c: int)
    requires
        t.shaped(),
        t.rooted(),
        0 <= a <= t.n,
        t.under(a, b),
        t.under(b, c),
    ensures
        t.under(a, c),
    decreases t.rank[a],
{
    if a != b {
        lemma_under_step(t, a, b);
        lemma_under_trans(t, t.parent[a] as int, b, c);
    }
}

pub proof fn lemma_under_rank(t: Net, v: int, x: int)
    requires
        t.shaped(),
        t.rooted(),
        0 <= v <= t.n,
        t.under(v, x),
    ensures
        0 <= x <= t.n,
        t.rank[x] <= t.rank[v],
        t.rank[x] == t.rank[v] ==> x == v,
    decreases t.rank[v],
{
    if v != x {
        lemma_under_step(t, v, x);
        lemma_under_rank(t, t.parent[v] as int, x);
    }
}

/// Both nodes are below their joint, and a node above both is above it.
pub proof fn lemma_joint(t: Net, u: int, v: int)
    requires
        t.shaped(),
        t.rooted(),
        0 <= u <= t.n,
        0 <= v <= t.n,
    ensures
        0 <= t.joint(u, v) <= t.n,
        t.under(u, t.joint(u, v)),
        t.under(v, t.joint(u, v)),
        forall|x: int| t.under(u, x) && t.under(v, x) ==> #[trigger] t.under(t.joint(u, v), x),
    decreases t.rank[u],
{
    lemma_under_root(t, v);
    if !t.under(v, u) {
        assert(u != t.n);
        lemma_under_step(t, u, u);
        let p = t.parent[u] as int;
        lemma_joint(t, p, v);
        lemma_under_step(t, u, t.joint(u, v));
        assert forall|x: int| t.under(u, x) && t.under(v, x) implies #[trigger] t.under(t.joint(u, v), x) by {
            lemma_under_step(t, u, x);
        }
    }
}

/// The nodes of a path lead from parent to parent to below its end.
pub open spec fn is_way(t: Net, p: Seq<usize>, u: int, j: int) -> bool {
    &&& p.len() == 0 ==> u == j
    &&& p.len() > 0 ==> p[0] == u && t.parent[p.last() as int] == j
    &&& forall|i: int| 0 <= i < p.len() ==> #[trigger] p[i] < t.n
    &&& forall|i: int| 0 <= i < p.len() - 1 ==> t.parent[#[trigger] p[i] as int] == p[i + 1]
    &&& forall|i: int| 0 <= i < p.len() ==> t.under(#[trigger] p[i] as int, j) && p[i] != j
    &&& forall|i: int| 0 <= i < p.len() ==> t.under(u, #[trigger] p[i] as int)
}

pub proof fn lemma_path(t: Net, u: int, j: int)
    requires
        t.shaped(),
        t.rooted(),
        0 <= u <= t.n,
        t.under(u, j),
    ensures
        is_way(t, t.path(u, j), u, j),
    decreases t.rank[u],
{
    if u != j {
        lemma_under_step(t, u, j);
        let q = t.parent[u] as int;
        lemma_path(t, q, j);
        let rest = t.path(q, j);
        let p = t.path(u, j);
        assert(p == seq![u as usize] + rest);
        assert forall|i: int| 0 <= i < p.len() implies #[trigger] p[i] < t.n && t.under(p[i] as int, j) && p[i] != j && t.under(u, p[i] as int) by {
            if i > 0 {
                assert(p[i] == rest[i - 1]);
                lemma_under_step(t, u, p[i] as int);
            }
        }
        assert forall|i: int| 0 <= i < p.len() - 1 implies t.parent[#[trigger] p[i] as int] == p[i + 1] by {
            if i == 0 {
                assert(p[1] == rest[0]);
            } else {
                assert(p[i] == rest[i - 1] && p[i + 1] == rest[i]);
            }
        }
        if rest.len() > 0 {
            assert(p.last() == rest.last());
        }
    }
}

pub proof fn lemma_way_ranks(t: Net, p: Seq<usize>, u: int, j: int, a: int, b: int)
    requires
        t.shaped(),
        t.rooted(),
        is_way(t, p, u, j),
        0 <= a < b < p.len(),
    ensures
        t.rank[p[b] as int] < t.rank[p[a] as int],
        p[a] != p[b],
    decreases b - a,
{
    assert(t.parent[p[b - 1] as int] == p[b]);
    assert(t.rank[t.parent[p[b - 1] as int] as int] < t.rank[p[b - 1] as int]);
    if a < b - 1 {
        lemma_way_ranks(t, p, u, j, a, b - 1);
    }
}

/// Different nodes hang by different arcs.
pub proof fn lemma_preds_differ(t: Net, u: int, v: int)
    requires
        t.shaped(),
        t.rooted(),
        0 <= u < t.n,
        0 <= v < t.n,
        u != v,
    ensures
        t.pred[u] != t.pred[v],
{
    if t.pred[u] == t.pred[v] {
        assert(t.joins(t.pred[u] as int, u, t.parent[u] as int, t.up[u]));
        assert(t.joins(t.pred[v] as int, v, t.parent[v] as int, t.up[v]));
        assert(t.rank[t.parent[u] as int] < t.rank[u]);
        assert(t.rank[t.parent[v] as int] < t.rank[v]);
    }
}

/// Hanging a node elsewhere keeps the tree, the nodes above nodes not below it, and puts it below its
/// new parent.
pub proof fn lemma_hung(t: Net, x: int, p: usize, arc: usize, up: bool)
    requires
        t.shaped(),
        t.rooted(),
        0 <= x < t.n,
        p <= t.n,
        arc < t.all(),
        t.joins(arc as int, x, p as int, up),
        !t.under(p as int, x),
    ensures
        t.hung(x, p, arc, up).shaped(),
        t.hung(x, p, arc, up).rooted(),
        forall|v: int, z: int| 0 <= v <= t.n && !t.under(v, x) ==> #[trigger] t.hung(x, p, arc, up).under(v, z) == t.under(v, z),
        forall|z: int| #[trigger] t.hung(x, p, arc, up).under(x, z) <==> z == x || t.under(p as int, z),
{
    let h = t.hung(x, p, arc, up);
    assert(0 <= t.rank[p as int]);
    assert forall|u: int| 0 <= u <= h.n implies 0 <= #[trigger] h.rank[u] by {
        assert(0 <= t.rank[u]);
    }
    assert forall|u: int| 0 <= u < h.n implies #[trigger] h.parent[u] <= h.n && h.rank[h.parent[u] as int] < h.rank[u]
        && h.pred[u] < h.all() && h.joins(h.pred[u] as int, u, h.parent[u] as int, h.up[u]) by {
        assert(t.parent[u] <= t.n);
        assert(t.rank[t.parent[u] as int] < t.rank[u]);
        assert(t.joins(t.pred[u] as int, u, t.parent[u] as int, t.up[u]));
        lemma_under_step(t, u, x);
        if u == x {
            assert(0 <= t.rank[x]);
            assert(t.rank[x] >= 0);
        }
    }
    assert forall|u: int| 0 <= u < h.n implies #[trigger] h.pred[u] < h.all() by {
        let e = h.parent[u];
    }
    assert forall|u: int| 0 <= u < h.n implies h.joins(#[trigger] h.pred[u] as int, u, h.parent[u] as int, h.up[u]) by {
        let e = h.parent[u];
    }
    assert forall|u: int| 0 <= u < h.n implies h.rank[#[trigger] h.parent[u] as int] < h.rank[u] by {
        let e = h.parent[u];
    }
    assert(h.shaped());
    assert(h.rooted());
    assert forall|v: int, z: int| 0 <= v <= t.n && !t.under(v, x) implies #[trigger] h.under(v, z) == t.under(v, z) by {
        lemma_same_above(t, h, x, v, z);
    }
    assert forall|z: int| #[trigger] h.under(x, z) <==> z == x || t.under(p as int, z) by {
        lemma_under_step(h, x, z);
        lemma_same_above(t, h, x, p as int, z);
    }
}

pub proof fn lemma_same_above(t: Net, h: Net, x: int, v: int, z: int)
    requires
        t.shaped(),
        t.rooted(),
        h.shaped(),
        h.rooted(),
        h.n == t.n,
        0 <= x < t.n,
        forall|u: int| 0 <= u < t.n && u != x ==> h.parent[u] == #[trigger] t.parent[u],
        0 <= v <= t.n,
        !t.under(v, x),
    ensures
        h.under(v, z) == t.under(v, z),
    decreases t.rank[v],
{
    if v != t.n {
        lemma_under_step(t, v, x);
        lemma_under_step(t, v, z);
        lemma_under_step(h, v, z);
        lemma_same_above(t, h, x, t.parent[v] as int, z);
    }
}

/// Two networks that differ in nothing but how the tree hangs together.
pub open spec fn is_relinked(t: Net, h: Net) -> bool {
    &&& h.n == t.n && h.m == t.m && h.source == t.source && h.target == t.target && h.cap == t.cap && h.cost == t.cost
    &&& h.flow == t.flow && h.pi == t.pi && h.state == t.state && h.next == t.next && h.block == t.block
}

/// A path hung the other way round below a node outside it.
#[verifier::spinoff_prover]
#[verifier::rlimit(40)]
pub proof fn lemma_rehung(t: Net, stem: Seq<usize>, p: usize, arc: usize, up: bool, k: int)
    requires
        t.shaped(),
        t.rooted(),
        0 < stem.len(),
        0 <= k <= stem.len(),
        p <= t.n,
        arc < t.all(),
        forall|i: int| 0 <= i < stem.len() ==> #[trigger] stem[i] < t.n,
        forall|i: int| 0 <= i < stem.len() - 1 ==> t.parent[#[trigger] stem[i] as int] == stem[i + 1],
        stem.no_duplicates(),
        forall|i: int| 0 <= i < stem.len() ==> !t.under(p as int, #[trigger] stem[i] as int),
        t.joins(arc as int, stem[0] as int, p as int, up),
    ensures
        t.rehung(stem, p, arc, up, k).shaped(),
        t.rehung(stem, p, arc, up, k).rooted(),
        is_relinked(t, t.rehung(stem, p, arc, up, k)),
        forall|i: int| 0 <= i < stem.len() ==> !t.rehung(stem, p, arc, up, k).under(p as int, #[trigger] stem[i] as int),
        k > 0 ==> forall|i: int| k <= i < stem.len() ==> !t.rehung(stem, p, arc, up, k).under(stem[k - 1] as int, #[trigger] stem[i] as int),
        forall|u: int| 0 <= u < t.n && !stem.contains(u as usize) ==> #[trigger] t.rehung(stem, p, arc, up, k).pred[u] == t.pred[u] && t.rehung(stem, p, arc, up, k).up[u] == t.up[u] && t.rehung(stem, p, arc, up, k).parent[u] == t.parent[u],
        forall|i: int| k <= i < stem.len() ==> t.rehung(stem, p, arc, up, k).pred[#[trigger] stem[i] as int] == t.pred[stem[i] as int] && t.rehung(stem, p, arc, up, k).parent[stem[i] as int] == t.parent[stem[i] as int],
        k > 0 ==> t.rehung(stem, p, arc, up, k).pred[stem[0] as int] == arc && t.rehung(stem, p, arc, up, k).up[stem[0] as int] == up && t.rehung(stem, p, arc, up, k).parent[stem[0] as int] == p,
        forall|i: int| 1 <= i < k ==> t.rehung(stem, p, arc, up, k).pred[#[trigger] stem[i] as int] == t.pred[stem[i - 1] as int],
    decreases k,
{
    if k == 0 {
        assert(t.rehung(stem, p, arc, up, k) == t);
    } else if k == 1 {
        let x = stem[0] as int;
        lemma_hung(t, x, p, arc, up);
        let h = t.hung(x, p, arc, up);
        assert(h == t.rehung(stem, p, arc, up, k));
        assert forall|i: int| 0 <= i < stem.len() implies !h.under(p as int, #[trigger] stem[i] as int) by {
        }
        assert forall|i: int| 1 <= i < stem.len() implies !h.under(x, #[trigger] stem[i] as int) by {
            assert(stem[i] != stem[0]);
        }
        assert forall|u: int| 0 <= u < t.n && !stem.contains(u as usize) implies #[trigger] h.pred[u] == t.pred[u] && h.up[u] == t.up[u] && h.parent[u] == t.parent[u] by {
            if u == x {
                assert(stem.contains(stem[0]));
            }
        }
        assert forall|i: int| 1 <= i < stem.len() implies h.pred[#[trigger] stem[i] as int] == t.pred[stem[i] as int] && h.parent[stem[i] as int] == t.parent[stem[i] as int] by {
            assert(stem[i] != stem[0]);
        }
    } else {
        lemma_rehung(t, stem, p, arc, up, k - 1);
        let g = t.rehung(stem, p, arc, up, k - 1);
        let (b, x) = (stem[k - 2] as int, stem[k - 1] as int);
        let a2 = t.pred[b];
        let u2 = !t.up[b];
        assert(t.joins(t.pred[b] as int, b, t.parent[b] as int, t.up[b]));
        assert(t.parent[stem[k - 2] as int] == stem[k - 1]);
        assert(g.joins(a2 as int, x, b, u2));
        assert(!g.under(stem[k - 2] as int, stem[k - 1] as int));
        lemma_hung(g, x, stem[k - 2], a2, u2);
        let h = g.hung(x, stem[k - 2], a2, u2);
        assert(h == t.rehung(stem, p, arc, up, k));
        assert forall|i: int| 0 <= i < stem.len() implies !h.under(p as int, #[trigger] stem[i] as int) by {
            assert(!g.under(p as int, stem[k - 1] as int));
            assert(!g.under(p as int, stem[i] as int));
        }
        assert forall|i: int| k <= i < stem.len() implies !h.under(x, #[trigger] stem[i] as int) by {
            assert(stem[i] != stem[k - 1]);
            assert(!g.under(stem[k - 2] as int, stem[i] as int));
        }
        assert forall|u: int| 0 <= u < t.n && !stem.contains(u as usize) implies #[trigger] h.pred[u] == t.pred[u] && h.up[u] == t.up[u] && h.parent[u] == t.parent[u] by {
            assert(t.rehung(stem, p, arc, up, k - 1).pred[u] == t.pred[u]);
            assert(g.up[u] == t.up[u]);
            assert(g.parent[u] == t.parent[u]);
            if u == x {
                assert(stem.contains(stem[k - 1]));
            }
        }
        assert forall|i: int| k <= i < stem.len() implies h.pred[#[trigger] stem[i] as int] == t.pred[stem[i] as int] && h.parent[stem[i] as int] == t.parent[stem[i] as int] by {
            assert(stem[i] != stem[k - 1]);
            assert(g.pred[stem[i] as int] == t.pred[stem[i] as int]);
        }
        assert(stem[0] != stem[k - 1]);
        assert forall|i: int| 1 <= i < k implies h.pred[#[trigger] stem[i] as int] == t.pred[stem[i - 1] as int] by {
            if i < k - 1 {
                assert(stem[i] != stem[k - 1]);
                assert(g.pred[stem[i] as int] == t.pred[stem[i - 1] as int]);
            }
        }
    }
}


// ── flow ─────────────────────────────────────────────────────────────────────────────────────

/// Whether two numbers are the same in 32 bits.
pub open spec fn same32(a: int, b: int) -> bool {
    (a - b) % 0x1_0000_0000 == 0
}

pub proof fn lemma_same32(a: int, b: int, c: int, d: int)
    requires
        same32(a, b),
        same32(c, d),
    ensures
        same32(a + c, b + d),
        same32(a - c, b - d),
{
    let (x, y) = (a - b, c - d);
    assert((x + y) % 0x1_0000_0000 == 0) by (nonlinear_arith)
        requires x % 0x1_0000_0000 == 0, y % 0x1_0000_0000 == 0;
    assert((x - y) % 0x1_0000_0000 == 0) by (nonlinear_arith)
        requires x % 0x1_0000_0000 == 0, y % 0x1_0000_0000 == 0;
}

pub proof fn lemma_wrap(x: i32, y: i32)
    ensures
        same32(x.wrapping_add(y) as int, x + y),
        same32(x.wrapping_sub(y) as int, x - y),
{
}

pub proof fn lemma_same_i32(x: i32, y: i32)
    requires
        same32(x as int, y as int),
    ensures
        x == y,
{
    let d = x - y;
    assert(d == 0) by (nonlinear_arith)
        requires d % 0x1_0000_0000 == 0, -0x1_0000_0000 < d < 0x1_0000_0000;
}

impl Net {
    /// What an arc adds to the outflow of a node, less its inflow.
    pub open spec fn share(self, e: int, v: int, x: int) -> int {
        (if self.source[e] == v { x } else { 0 }) - (if self.target[e] == v { x } else { 0 })
    }

    /// The outflow of a node less its inflow, over the first `k` arcs.
    pub open spec fn excess(self, flow: Seq<i32>, v: int, k: int) -> int
        decreases k,
    {
        if k <= 0 { 0 } else { self.excess(flow, v, k - 1) + self.share(k - 1, v, flow[k - 1] as int) }
    }

    /// Every node sends out what it has, but for `d` more at one node and `d` less at another.
    pub open spec fn uneven(self, flow: Seq<i32>, sup: Seq<i32>, a: int, b: int, d: int) -> bool {
        forall|v: int| 0 <= v <= self.n ==> same32(#[trigger] self.excess(flow, v, self.all()),
            sup[v] + (if v == a { d } else { 0 }) - (if v == b { d } else { 0 }))
    }

    /// Every node sends out what it has.
    pub open spec fn balanced(self, flow: Seq<i32>, sup: Seq<i32>) -> bool {
        forall|v: int| 0 <= v <= self.n ==> same32(#[trigger] self.excess(flow, v, self.all()), sup[v] as int)
    }

    /// An arc with a limit keeps to it, and one outside the tree is empty or full, as its state says.
    pub open spec fn arc_holds(self, e: int) -> bool {
        self.cap[e] < UNLIMITED ==> {
            &&& 0 <= self.flow[e] <= self.cap[e]
            &&& self.state[e] == 1 ==> self.flow[e] == 0
            &&& self.state[e] == -1 ==> self.flow[e] == self.cap[e]
        }
    }

    /// The tree's arcs are those of state 0, arcs keep to their limits, nodes send out what they have, and
    /// the arcs of the tree cost what the potentials differ by.
    pub open spec fn sound(self, sup: Seq<i32>) -> bool {
        &&& self.shaped()
        &&& self.rooted()
        &&& sup.len() == self.n + 1
        &&& forall|u: int| 0 <= u < self.n ==> self.state[#[trigger] self.pred[u] as int] == 0
        &&& forall|e: int| 0 <= e < self.all() && #[trigger] self.state[e] == 0 ==> self.has_arc(e)
        &&& forall|e: int| 0 <= e < self.all() ==> #[trigger] self.arc_holds(e)
        &&& self.balanced(self.flow, sup)
        &&& forall|u: int| 0 <= u < self.n ==> self.reduced(#[trigger] self.pred[u] as int) == 0
    }

    /// Whether an arc is in the tree.
    pub open spec fn has_arc(self, e: int) -> bool {
        exists|u: int| 0 <= u < self.n && #[trigger] self.pred[u] == e
    }
}

pub proof fn lemma_excess_update(t: Net, flow: Seq<i32>, e: int, x: i32, v: int, k: int)
    requires
        0 <= k <= flow.len(),
        0 <= e < flow.len(),
    ensures
        t.excess(flow.update(e, x), v, k) == t.excess(flow, v, k) + (if e < k { t.share(e, v, x - flow[e]) } else { 0 }),
    decreases k,
{
    if k > 0 {
        lemma_excess_update(t, flow, e, x, v, k - 1);
    }
}

/// Flow that changes on the arc to a node's parent moves what is uneven from the node to the parent.
pub proof fn lemma_push_one(t: Net, flow: Seq<i32>, sup: Seq<i32>, u: int, other: int, second: bool, d: i32)
    requires
        t.shaped(),
        t.rooted(),
        flow.len() == t.all(),
        0 <= u < t.n,
        second ==> t.uneven(flow, sup, other, u, d as int),
        !second ==> t.uneven(flow, sup, u, other, d as int),
    ensures
        ({
            let e = t.pred[u] as int;
            let f = flow.update(e, if t.grows(u, second) { flow[e].wrapping_add(d) } else { flow[e].wrapping_sub(d) });
            &&& second ==> t.uneven(f, sup, other, t.parent[u] as int, d as int)
            &&& !second ==> t.uneven(f, sup, t.parent[u] as int, other, d as int)
        }),
{
    let e = t.pred[u] as int;
    assert(t.pred[u] < t.all());
    assert(t.joins(t.pred[u] as int, u, t.parent[u] as int, t.up[u]));
    assert(t.rank[t.parent[u] as int] < t.rank[u]);
    let x = if t.grows(u, second) { flow[e].wrapping_add(d) } else { flow[e].wrapping_sub(d) };
    let f = flow.update(e, x);
    lemma_wrap(flow[e], d);
    let q = t.parent[u] as int;
    let diff = x - flow[e];
    assert forall|v: int| 0 <= v <= t.n implies
        (second ==> same32(#[trigger] t.excess(f, v, t.all()), sup[v] + (if v == other { d as int } else { 0 }) - (if v == q { d as int } else { 0 })))
        && (!second ==> same32(t.excess(f, v, t.all()), sup[v] + (if v == q { d as int } else { 0 }) - (if v == other { d as int } else { 0 }))) by {
        lemma_excess_update(t, flow, e, x, v, t.all());
        let old_ex = t.excess(flow, v, t.all());
        let sh = t.share(e, v, diff);
        if t.grows(u, second) {
            assert(same32(diff, d as int));
            assert(same32(-diff, -d));
        } else {
            assert(same32(diff, -d));
            assert(same32(-diff, d as int));
        }
        let was = if second { sup[v] + (if v == other { d as int } else { 0 }) - (if v == u { d as int } else { 0 }) } else { sup[v] + (if v == u { d as int } else { 0 }) - (if v == other { d as int } else { 0 }) };
        assert(same32(old_ex, was));
        assert(same32(0, 0));
        let by = if second { (if v == u { d as int } else { 0 }) - (if v == q { d as int } else { 0 }) } else { (if v == q { d as int } else { 0 }) - (if v == u { d as int } else { 0 }) };
        assert(same32(sh, by));
        lemma_same32(old_ex, was, sh, by);
    }
}

/// Flow that changes along a path moves what is uneven to the path's end.
pub proof fn lemma_pushed(t: Net, flow: Seq<i32>, sup: Seq<i32>, path: Seq<usize>, u: int, j: int, other: int, second: bool, d: i32, k: int)
    requires
        t.shaped(),
        t.rooted(),
        flow.len() == t.all(),
        is_way(t, path, u, j),
        0 <= k <= path.len(),
        second ==> t.uneven(flow, sup, other, u, d as int),
        !second ==> t.uneven(flow, sup, u, other, d as int),
    ensures
        t.pushed(flow, path, second, d, k).len() == flow.len(),
        ({
            let c = if k < path.len() { path[k] as int } else { j };
            let f = t.pushed(flow, path, second, d, k);
            &&& second ==> t.uneven(f, sup, other, c, d as int)
            &&& !second ==> t.uneven(f, sup, c, other, d as int)
        }),
    decreases k,
{
    if k > 0 {
        lemma_pushed(t, flow, sup, path, u, j, other, second, d, k - 1);
        let f = t.pushed(flow, path, second, d, k - 1);
        let x = path[k - 1] as int;
        assert(path[k - 1] < t.n);
        lemma_push_one(t, f, sup, x, other, second, d);
        if k < path.len() {
            assert(t.parent[path[k - 1] as int] == path[k]);
        }
    }
}

/// Whether an arc leads to the parent of one of the first `k` nodes of a path.
pub open spec fn on_path(t: Net, path: Seq<usize>, e: int, k: int) -> bool {
    exists|i: int| 0 <= i < k && t.pred[#[trigger] path[i] as int] == e
}

pub proof fn lemma_pushed_at(t: Net, flow: Seq<i32>, path: Seq<usize>, u: int, j: int, second: bool, d: i32, k: int)
    requires
        t.shaped(),
        t.rooted(),
        flow.len() == t.all(),
        is_way(t, path, u, j),
        0 <= k <= path.len(),
    ensures
        t.pushed(flow, path, second, d, k).len() == flow.len(),
        forall|e: int| 0 <= e < t.all() && !on_path(t, path, e, k) ==> #[trigger] t.pushed(flow, path, second, d, k)[e] == flow[e],
        forall|i: int| 0 <= i < k ==> t.pushed(flow, path, second, d, k)[t.pred[#[trigger] path[i] as int] as int]
            == (if t.grows(path[i] as int, second) { flow[t.pred[path[i] as int] as int].wrapping_add(d) } else { flow[t.pred[path[i] as int] as int].wrapping_sub(d) }),
    decreases k,
{
    if k > 0 {
        lemma_pushed_at(t, flow, path, u, j, second, d, k - 1);
        let f = t.pushed(flow, path, second, d, k - 1);
        let g = t.pushed(flow, path, second, d, k);
        let x = path[k - 1] as int;
        assert(path[k - 1] < t.n);
        assert(t.pred[x] < t.all());
        assert(!on_path(t, path, t.pred[x] as int, k - 1)) by {
            if on_path(t, path, t.pred[x] as int, k - 1) {
                let i = choose|i: int| 0 <= i < k - 1 && t.pred[#[trigger] path[i] as int] == t.pred[x];
                lemma_way_ranks(t, path, u, j, i, k - 1);
                assert(path[i] < t.n);
                lemma_preds_differ(t, path[i] as int, x);
            }
        }
        assert forall|e: int| 0 <= e < t.all() && !on_path(t, path, e, k) implies #[trigger] g[e] == flow[e] by {
            assert(t.pred[path[k - 1] as int] != e);
            if on_path(t, path, e, k - 1) {
                let i = choose|i: int| 0 <= i < k - 1 && t.pred[#[trigger] path[i] as int] == e;
                assert(t.pred[path[i] as int] == e);
            }
        }
        assert forall|i: int| 0 <= i < k implies g[t.pred[#[trigger] path[i] as int] as int]
            == (if t.grows(path[i] as int, second) { flow[t.pred[path[i] as int] as int].wrapping_add(d) } else { flow[t.pred[path[i] as int] as int].wrapping_sub(d) }) by {
            if i < k - 1 {
                lemma_way_ranks(t, path, u, j, i, k - 1);
                assert(path[i] < t.n);
                lemma_preds_differ(t, path[i] as int, x);
            }
        }
    }
}

pub proof fn lemma_limit(t: Net, path: Seq<usize>, second: bool, start: Limit, k: int)
    requires
        0 <= k <= path.len(),
    ensures
        t.limit(path, second, start, k).delta <= start.delta,
        forall|i: int| 0 <= i < k ==> t.limit(path, second, start, k).delta <= #[trigger] t.slack(path[i] as int, t.grows(path[i] as int, second)),
        ({
            let l = t.limit(path, second, start, k);
            l == start || (l.side == (if second { 2int } else { 1int }) && exists|i: int| 0 <= i < k && #[trigger] path[i] == l.out
                && t.slack(path[i] as int, t.grows(path[i] as int, second)) == l.delta)
        }),
    decreases k,
{
    if k > 0 {
        lemma_limit(t, path, second, start, k - 1);
        let l = t.limit(path, second, start, k);
        let p = t.limit(path, second, start, k - 1);
        if l != p {
            assert(path[k - 1] == l.out);
        } else if p != start {
            let i = choose|i: int| 0 <= i < k - 1 && #[trigger] path[i] == p.out && t.slack(path[i] as int, t.grows(path[i] as int, second)) == p.delta;
            assert(path[i] == l.out);
        }
    }
}

pub proof fn lemma_search(t: Net, k: int, min: i32, left: int, arc: usize)
    requires
        t.shaped(),
        0 <= k <= t.m,
        1 <= left,
        min <= 0,
        min < 0 ==> arc < t.m && t.eligible(arc as int) == min,
    ensures
        t.search(k, min, left, arc) matches Some(r) ==> r.0 < t.m && t.eligible(r.0 as int) < 0 && 0 <= r.1 && (r.1 < t.m || r.1 == 0),
        t.search(k, min, left, arc) is None ==> min == 0 && forall|q: int| k <= q < t.m ==> #[trigger] t.eligible(t.turn(q)) >= 0,
    decreases t.m - k,
{
    if k < t.m {
        let e = t.turn(k);
        let c = t.eligible(e);
        let (min2, arc2) = if c < min { (c, e as usize) } else { (min, arc) };
        if left == 1 {
            if !(min2 < 0) {
                lemma_search(t, k + 1, min2, t.block, arc2);
            }
        } else {
            lemma_search(t, k + 1, min2, left - 1, arc2);
        }
        if t.search(k, min, left, arc) is None {
            assert forall|q: int| k <= q < t.m implies #[trigger] t.eligible(t.turn(q)) >= 0 by {
                if q > k {
                    assert(t.eligible(t.turn(q)) >= 0);
                }
            }
        }
    }
}

/// Where no arc enters, no arc is eligible.
pub proof fn lemma_none_enters(t: Net, e: int)
    requires
        t.shaped(),
        t.entering() is None,
        0 <= e < t.m,
    ensures
        t.eligible(e) >= 0,
{
    lemma_search(t, 0, 0, t.block, 0);
    let q = if e >= t.next { e - t.next } else { e - t.next + t.m };
    assert(t.turn(q) == e);
    assert(t.eligible(t.turn(q)) >= 0);
}

// ── a pivot keeps the network sound ──────────────────────────────────────────────────────────

/// The two sides of a pivot are ways to the joint without a common node.
pub proof fn lemma_sides(t: Net, arc: usize, next: int)
    requires
        t.shaped(),
        t.rooted(),
        arc < t.m,
    ensures
        ({
            let p = t.pivot(arc, next);
            let (pa, pb) = (t.path(p.first as int, p.join), t.path(p.second as int, p.join));
            &&& 0 <= p.join <= t.n
            &&& p.first <= t.n && p.second <= t.n
            &&& is_way(t, pa, p.first as int, p.join)
            &&& is_way(t, pb, p.second as int, p.join)
            &&& forall|i: int, k: int| 0 <= i < pa.len() && 0 <= k < pb.len() ==> #[trigger] pa[i] != #[trigger] pb[k]
            &&& forall|i: int| 0 <= i < pa.len() ==> !t.under(p.second as int, #[trigger] pa[i] as int)
            &&& forall|i: int| 0 <= i < pb.len() ==> !t.under(p.first as int, #[trigger] pb[i] as int)
        }),
{
    let e = arc as int;
    let p = t.pivot(arc, next);
    let (x, y) = (t.source[e] as int, t.target[e] as int);
    assert(t.source[e] <= t.n && t.target[e] <= t.n);
    lemma_joint(t, x, y);
    let j = p.join;
    let (pa, pb) = (t.path(p.first as int, j), t.path(p.second as int, j));
    lemma_path(t, p.first as int, j);
    lemma_path(t, p.second as int, j);
    assert forall|i: int| 0 <= i < pa.len() implies !t.under(p.second as int, #[trigger] pa[i] as int) by {
        if t.under(p.second as int, pa[i] as int) {
            assert(t.under(p.first as int, pa[i] as int));
            assert(t.under(j, pa[i] as int));
            assert(pa[i] < t.n);
            lemma_under_rank(t, j, pa[i] as int);
            lemma_under_rank(t, pa[i] as int, j);
        }
    }
    assert forall|i: int| 0 <= i < pb.len() implies !t.under(p.first as int, #[trigger] pb[i] as int) by {
        if t.under(p.first as int, pb[i] as int) {
            assert(t.under(p.second as int, pb[i] as int));
            assert(t.under(j, pb[i] as int));
            assert(pb[i] < t.n);
            lemma_under_rank(t, j, pb[i] as int);
            lemma_under_rank(t, pb[i] as int, j);
        }
    }
    assert forall|i: int, k: int| 0 <= i < pa.len() && 0 <= k < pb.len() implies #[trigger] pa[i] != #[trigger] pb[k] by {
        if pa[i] == pb[k] {
            assert(t.under(p.second as int, pb[k] as int));
        }
    }
}

/// A change of the flow of an arc outside the tree makes its ends uneven.
pub proof fn lemma_start_uneven(t: Net, sup: Seq<i32>, e: int, a: int, b: int, d: i32)
    requires
        t.shaped(),
        t.balanced(t.flow, sup),
        0 <= e < t.m,
        t.state[e] == 1 || t.state[e] == -1,
        d > 0,
        (a, b) == (if t.state[e] == 1 { (t.source[e] as int, t.target[e] as int) } else { (t.target[e] as int, t.source[e] as int) }),
    ensures
        t.uneven(t.flow.update(e, t.flow[e].wrapping_add(t.state[e].wrapping_mul(d))), sup, a, b, d as int),
{
    let by = t.state[e].wrapping_mul(d);
    let x = t.flow[e].wrapping_add(by);
    let f0 = t.flow.update(e, x);
    lemma_wrap(t.flow[e], by);
    lemma_times_sign(t.state[e], d);
    assert forall|v: int| 0 <= v <= t.n implies same32(#[trigger] t.excess(f0, v, t.all()),
        sup[v] + (if v == a { d as int } else { 0 }) - (if v == b { d as int } else { 0 })) by {
        lemma_excess_update(t, t.flow, e, x, v, t.all());
        let diff = x - t.flow[e];
        let sh = t.share(e, v, diff);
        assert(same32(diff, by as int));
        assert(same32(-diff, -by));
        assert(same32(0, 0));
        let want = (if v == a { d as int } else { 0 }) - (if v == b { d as int } else { 0 });
        let (x1, y1) = (if t.source[e] == v { diff } else { 0 }, if t.source[e] == v { by as int } else { 0 });
        let (x2, y2) = (if t.target[e] == v { diff } else { 0 }, if t.target[e] == v { by as int } else { 0 });
        assert(same32(x1, y1));
        assert(same32(x2, y2));
        lemma_same32(x1, y1, x2, y2);
        assert(y1 - y2 == want);
        assert(same32(sh, want));
        assert(same32(t.excess(t.flow, v, t.all()), sup[v] as int));
        lemma_same32(t.excess(t.flow, v, t.all()), sup[v] as int, sh, want);
    }
}

pub proof fn lemma_balance_round(t: Net, sup: Seq<i32>, arc: usize, next: int)
    requires
        t.sound(sup),
        arc < t.m,
        t.state[arc as int] == 1 || t.state[arc as int] == -1,
    ensures
        t.pivot(arc, next).flow.len() == t.all(),
        t.balanced(t.pivot(arc, next).flow, sup),
{
    let e = arc as int;
    let p = t.pivot(arc, next);
    let d = p.limit.delta;
    if d > 0 {
        lemma_sides(t, arc, next);
        lemma_start_uneven(t, sup, e, p.first as int, p.second as int, d);
        let f0 = t.flow.update(e, t.flow[e].wrapping_add(t.state[e].wrapping_mul(d)));
        lemma_push_both(t, f0, sup, p.first as int, p.second as int, p.join, d);
    }
}

pub proof fn lemma_push_both(t: Net, f0: Seq<i32>, sup: Seq<i32>, a: int, b: int, j: int, d: i32)
    requires
        t.shaped(),
        t.rooted(),
        f0.len() == t.all(),
        is_way(t, t.path(a, j), a, j),
        is_way(t, t.path(b, j), b, j),
        t.uneven(f0, sup, a, b, d as int),
    ensures
        ({
            let (pa, pb) = (t.path(a, j), t.path(b, j));
            let f1 = t.pushed(f0, pa, false, d, pa.len() as int);
            let f2 = t.pushed(f1, pb, true, d, pb.len() as int);
            f2.len() == t.all() && t.balanced(f2, sup)
        }),
{
    let (pa, pb) = (t.path(a, j), t.path(b, j));
    lemma_pushed(t, f0, sup, pa, a, j, b, false, d, pa.len() as int);
    let f1 = t.pushed(f0, pa, false, d, pa.len() as int);
    assert(t.uneven(f1, sup, j, b, d as int));
    lemma_pushed(t, f1, sup, pb, b, j, j, true, d, pb.len() as int);
    let f2 = t.pushed(f1, pb, true, d, pb.len() as int);
    assert(t.uneven(f2, sup, j, j, d as int));
    assert forall|v: int| 0 <= v <= t.n implies same32(#[trigger] t.excess(f2, v, t.all()), sup[v] as int) by {
    }
}

pub proof fn lemma_times_sign(s: i32, d: i32)
    requires
        s == 1 || s == -1,
        d > 0,
    ensures
        s.wrapping_mul(d) == signed(s, d),
{
    let x = s * d;
    if s == 1 {
        assert(x == d) by (nonlinear_arith)
            requires x == s * d, s == 1;
    } else {
        assert(x == -d) by (nonlinear_arith)
            requires x == s * d, s == -1;
    }
}

/// A positive number, negative where a sign says so.
pub open spec fn signed(s: i32, d: i32) -> i32 {
    if s == 1 { d } else { (-d) as i32 }
}

/// The flow that a change leaves on an arc to a node's parent.
pub open spec fn changed(t: Net, u: int, second: bool, d: i32) -> i32 {
    let f = t.flow[t.pred[u] as int];
    if d <= 0 {
        f
    } else if t.grows(u, second) {
        f.wrapping_add(d)
    } else {
        f.wrapping_sub(d)
    }
}

/// What the flow of every arc becomes in a change.
pub proof fn lemma_round_values(t: Net, sup: Seq<i32>, arc: usize, next: int)
    requires
        t.sound(sup),
        arc < t.m,
        t.state[arc as int] == 1 || t.state[arc as int] == -1,
    ensures
        ({
            let p = t.pivot(arc, next);
            let d = p.limit.delta;
            let (pa, pb) = (t.path(p.first as int, p.join), t.path(p.second as int, p.join));
            &&& forall|i: int| 0 <= i < pa.len() ==> p.flow[t.pred[#[trigger] pa[i] as int] as int] == changed(t, pa[i] as int, false, d)
            &&& forall|i: int| 0 <= i < pb.len() ==> p.flow[t.pred[#[trigger] pb[i] as int] as int] == changed(t, pb[i] as int, true, d)
            &&& p.flow[arc as int] == (if d > 0 { t.flow[arc as int].wrapping_add(signed(t.state[arc as int], d)) } else { t.flow[arc as int] })
            &&& forall|e: int| 0 <= e < t.all() && e != arc && !on_path(t, pa, e, pa.len() as int) && !on_path(t, pb, e, pb.len() as int) ==> #[trigger] p.flow[e] == t.flow[e]
            &&& !on_path(t, pa, arc as int, pa.len() as int) && !on_path(t, pb, arc as int, pb.len() as int)
        }),
{
    let e0 = arc as int;
    let p = t.pivot(arc, next);
    lemma_sides(t, arc, next);
    let (a, b, j) = (p.first as int, p.second as int, p.join);
    let (pa, pb) = (t.path(a, j), t.path(b, j));
    let d = p.limit.delta;
    assert forall|i: int| 0 <= i < pa.len() implies t.state[t.pred[#[trigger] pa[i] as int] as int] == 0 && t.pred[pa[i] as int] < t.all() by {
        assert(pa[i] < t.n);
    }
    assert forall|i: int| 0 <= i < pb.len() implies t.state[t.pred[#[trigger] pb[i] as int] as int] == 0 && t.pred[pb[i] as int] < t.all() by {
        assert(pb[i] < t.n);
    }
    if d > 0 {
        let f0 = t.flow.update(e0, t.flow[e0].wrapping_add(t.state[e0].wrapping_mul(d)));
        let f1 = t.pushed(f0, pa, false, d, pa.len() as int);
        let f2 = t.pushed(f1, pb, true, d, pb.len() as int);
        lemma_times_sign(t.state[e0], d);
        lemma_pushed_at(t, f0, pa, a, j, false, d, pa.len() as int);
        lemma_pushed_at(t, f1, pb, b, j, true, d, pb.len() as int);
        assert(p.flow == f2);
        assert forall|i: int| 0 <= i < pa.len() implies f2[t.pred[#[trigger] pa[i] as int] as int] == changed(t, pa[i] as int, false, d) by {
            let e = t.pred[pa[i] as int] as int;
            if on_path(t, pb, e, pb.len() as int) {
                let k = choose|k: int| 0 <= k < pb.len() && t.pred[#[trigger] pb[k] as int] == e;
                assert(pa[i] < t.n && pb[k] < t.n && pa[i] != pb[k]);
                lemma_preds_differ(t, pa[i] as int, pb[k] as int);
            }
            assert(f2[e] == f1[e]);
            assert(f0[e] == t.flow[e]);
        }
        assert forall|i: int| 0 <= i < pb.len() implies f2[t.pred[#[trigger] pb[i] as int] as int] == changed(t, pb[i] as int, true, d) by {
            let e = t.pred[pb[i] as int] as int;
            if on_path(t, pa, e, pa.len() as int) {
                let k = choose|k: int| 0 <= k < pa.len() && t.pred[#[trigger] pa[k] as int] == e;
                assert(pb[i] < t.n && pa[k] < t.n && pa[k] != pb[i]);
                lemma_preds_differ(t, pb[i] as int, pa[k] as int);
            }
            assert(f1[e] == f0[e]);
            assert(f0[e] == t.flow[e]);
        }
        assert forall|e: int| 0 <= e < t.all() && e != arc && !on_path(t, pa, e, pa.len() as int) && !on_path(t, pb, e, pb.len() as int) implies #[trigger] f2[e] == t.flow[e] by {
            assert(f1[e] == f0[e]);
        }
        assert(!on_path(t, pa, e0, pa.len() as int));
        assert(!on_path(t, pb, e0, pb.len() as int));
        assert(f1[e0] == f0[e0]);
        assert(f2[e0] == f1[e0]);
    } else {
        assert(p.flow == t.flow);
    }
}

/// A change within what an arc can change keeps the arc to its limit.
pub proof fn lemma_change_holds(t: Net, u: int, second: bool, d: i32)
    requires
        t.arc_holds(t.pred[u] as int),
        t.cap[t.pred[u] as int] < UNLIMITED,
        d <= t.slack(u, t.grows(u, second)),
    ensures
        0 <= changed(t, u, second, d) <= t.cap[t.pred[u] as int],
        d == t.slack(u, t.grows(u, second)) ==> changed(t, u, second, d) == 0 || changed(t, u, second, d) == t.cap[t.pred[u] as int],
{
}

/// Which arc limits a change, and that no arc changes by more than it can.
pub proof fn lemma_limits(t: Net, arc: usize, next: int)
    requires
        t.shaped(),
        t.rooted(),
        arc < t.m,
    ensures
        ({
            let p = t.pivot(arc, next);
            let l = p.limit;
            let (pa, pb) = (t.path(p.first as int, p.join), t.path(p.second as int, p.join));
            &&& l.delta <= t.cap[arc as int]
            &&& forall|i: int| 0 <= i < pa.len() ==> l.delta <= t.slack(#[trigger] pa[i] as int, t.grows(pa[i] as int, false))
            &&& forall|i: int| 0 <= i < pb.len() ==> l.delta <= t.slack(#[trigger] pb[i] as int, t.grows(pb[i] as int, true))
            &&& l.side == 0 || l.side == 1 || l.side == 2
            &&& l.side == 0 ==> l.delta == t.cap[arc as int]
            &&& l.side == 1 ==> exists|i: int| 0 <= i < pa.len() && #[trigger] pa[i] == l.out && t.slack(pa[i] as int, t.grows(pa[i] as int, false)) == l.delta
            &&& l.side == 2 ==> exists|i: int| 0 <= i < pb.len() && #[trigger] pb[i] == l.out && t.slack(pb[i] as int, t.grows(pb[i] as int, true)) == l.delta
        }),
{
    let p = t.pivot(arc, next);
    let (pa, pb) = (t.path(p.first as int, p.join), t.path(p.second as int, p.join));
    let start = Limit { delta: t.cap[arc as int], out: 0, side: 0 };
    let l1 = t.limit(pa, false, start, pa.len() as int);
    lemma_limit(t, pa, false, start, pa.len() as int);
    lemma_limit(t, pb, true, l1, pb.len() as int);
    let l = p.limit;
    assert forall|i: int| 0 <= i < pa.len() implies l.delta <= t.slack(#[trigger] pa[i] as int, t.grows(pa[i] as int, false)) by {
        assert(l1.delta <= t.slack(pa[i] as int, t.grows(pa[i] as int, false)));
    }
    assert forall|i: int| 0 <= i < pb.len() implies l.delta <= t.slack(#[trigger] pb[i] as int, t.grows(pb[i] as int, true)) by {
    }
}

/// After a change an arc keeps to its limit, and has the flow it had if it is outside the tree and does
/// not enter.
pub proof fn lemma_arc_after(t: Net, sup: Seq<i32>, arc: usize, next: int, e: int)
    requires
        t.sound(sup),
        arc < t.m,
        t.state[arc as int] == 1 || t.state[arc as int] == -1,
        0 <= e < t.all(),
    ensures
        e != arc && t.state[e] != 0 ==> t.pivot(arc, next).flow[e] == t.flow[e],
        t.cap[e] < UNLIMITED ==> 0 <= t.pivot(arc, next).flow[e] <= t.cap[e],
{
    let p = t.pivot(arc, next);
    lemma_sides(t, arc, next);
    lemma_limits(t, arc, next);
    lemma_round_values(t, sup, arc, next);
    let (pa, pb) = (t.path(p.first as int, p.join), t.path(p.second as int, p.join));
    let d = p.limit.delta;
    assert(t.arc_holds(e));
    if on_path(t, pa, e, pa.len() as int) {
        let i = choose|i: int| 0 <= i < pa.len() && t.pred[#[trigger] pa[i] as int] == e;
        assert(pa[i] < t.n);
        if t.cap[e] < UNLIMITED {
            lemma_change_holds(t, pa[i] as int, false, d);
        }
    } else if on_path(t, pb, e, pb.len() as int) {
        let i = choose|i: int| 0 <= i < pb.len() && t.pred[#[trigger] pb[i] as int] == e;
        assert(pb[i] < t.n);
        if t.cap[e] < UNLIMITED {
            lemma_change_holds(t, pb[i] as int, true, d);
        }
    } else if e != arc {
        assert(p.flow[e] == t.flow[e]);
    }
}

/// After a change, an arc that entered without leaving another is full or empty, and so is the arc that
/// limits.
pub proof fn lemma_ends_after(t: Net, sup: Seq<i32>, arc: usize, next: int)
    requires
        t.sound(sup),
        arc < t.m,
        t.state[arc as int] == 1 || t.state[arc as int] == -1,
        t.pivot(arc, next).limit.delta < UNLIMITED,
    ensures
        ({
            let p = t.pivot(arc, next);
            let l = p.limit;
            &&& l.side == 0 ==> t.cap[arc as int] < UNLIMITED && p.flow[arc as int] == (if t.state[arc as int] == 1 { t.cap[arc as int] } else { 0i32 })
            &&& l.side != 0 && t.cap[t.pred[l.out as int] as int] < UNLIMITED && p.flow[t.pred[l.out as int] as int] != 0 ==>
                p.flow[t.pred[l.out as int] as int] == t.cap[t.pred[l.out as int] as int]
        }),
{
    let p = t.pivot(arc, next);
    lemma_sides(t, arc, next);
    lemma_limits(t, arc, next);
    lemma_round_values(t, sup, arc, next);
    let (pa, pb) = (t.path(p.first as int, p.join), t.path(p.second as int, p.join));
    let l = p.limit;
    assert(t.arc_holds(arc as int));
    if l.side == 1 {
        let i = choose|i: int| 0 <= i < pa.len() && #[trigger] pa[i] == l.out && t.slack(pa[i] as int, t.grows(pa[i] as int, false)) == l.delta;
        assert(pa[i] < t.n);
        assert(t.arc_holds(t.pred[pa[i] as int] as int));
        if t.cap[t.pred[pa[i] as int] as int] < UNLIMITED {
            lemma_change_holds(t, pa[i] as int, false, l.delta);
        }
    } else if l.side == 2 {
        let i = choose|i: int| 0 <= i < pb.len() && #[trigger] pb[i] == l.out && t.slack(pb[i] as int, t.grows(pb[i] as int, true)) == l.delta;
        assert(pb[i] < t.n);
        assert(t.arc_holds(t.pred[pb[i] as int] as int));
        if t.cap[t.pred[pb[i] as int] as int] < UNLIMITED {
            lemma_change_holds(t, pb[i] as int, true, l.delta);
        }
    }
}

pub proof fn lemma_excess_same(t: Net, h: Net, flow: Seq<i32>, v: int, k: int)
    requires
        t.source == h.source,
        t.target == h.target,
    ensures
        t.excess(flow, v, k) == h.excess(flow, v, k),
    decreases k,
{
    if k > 0 {
        lemma_excess_same(t, h, flow, v, k - 1);
    }
}

pub proof fn lemma_under_same(t: Net, h: Net, v: int, x: int)
    requires
        t.shaped(),
        t.rooted(),
        t.n == h.n,
        t.parent == h.parent,
        t.rank == h.rank,
        0 <= v <= t.n,
    ensures
        t.under(v, x) == h.under(v, x),
    decreases t.rank[v],
{
    if v != t.n {
        lemma_under_step(t, v, x);
        lemma_under_same(t, h, t.parent[v] as int, x);
    }
}

pub proof fn lemma_shift_both(c: i32, x: i32, y: i32, by: i32)
    ensures
        c.wrapping_add(x.wrapping_add(by)).wrapping_sub(y.wrapping_add(by)) == c.wrapping_add(x).wrapping_sub(y),
{
    let l = c.wrapping_add(x.wrapping_add(by)).wrapping_sub(y.wrapping_add(by));
    let r = c.wrapping_add(x).wrapping_sub(y);
    lemma_same_i32(l, r);
}


/// Nodes that lead from parent to parent, none of them above a node outside.
pub open spec fn is_stem(t: Net, stem: Seq<usize>, outside: usize) -> bool {
    &&& stem.no_duplicates()
    &&& forall|i: int| 0 <= i < stem.len() ==> #[trigger] stem[i] < t.n
    &&& forall|i: int| 0 <= i < stem.len() - 1 ==> t.parent[#[trigger] stem[i] as int] == stem[i + 1]
    &&& forall|i: int| 0 <= i < stem.len() ==> !t.under(outside as int, #[trigger] stem[i] as int)
}

/// The nodes that are hung elsewhere in a pivot, and what makes that possible.
pub proof fn lemma_stem(t: Net, sup: Seq<i32>, arc: usize, next: int)
    requires
        t.sound(sup),
        arc < t.m,
        t.state[arc as int] == 1 || t.state[arc as int] == -1,
        t.pivot(arc, next).limit.side != 0,
    ensures
        ({
            let p = t.pivot(arc, next);
            &&& p.limit.out < t.n && p.inside() < t.n && p.outside() <= t.n
            &&& is_stem(t, t.stem(p), p.outside())
            &&& t.stem(p).len() > 0 && t.stem(p)[0] == p.inside() && t.stem(p).last() == p.limit.out
            &&& t.joins(arc as int, p.inside() as int, p.outside() as int, p.inside() == t.source[arc as int])
        }),
{
    let p = t.pivot(arc, next);
    lemma_sides(t, arc, next);
    lemma_limits(t, arc, next);
    let j = p.join;
    let (u_in, v_in) = (p.inside(), p.outside());
    let way = t.path(u_in as int, j);
    let out = p.limit.out;
    let i = choose|i: int| 0 <= i < way.len() && #[trigger] way[i] == out;
    assert(way[i] < t.n);
    assert(t.under(u_in as int, way[i] as int));
    let q = t.path(u_in as int, out as int);
    lemma_path(t, u_in as int, out as int);
    let stem = q.push(out);
    assert(way[0] == u_in);
    assert(!t.under(v_in as int, way[i] as int));
    assert forall|k: int| 0 <= k < stem.len() implies #[trigger] stem[k] < t.n && !t.under(v_in as int, stem[k] as int) by {
        if k < q.len() {
            assert(stem[k] == q[k]);
            assert(t.under(q[k] as int, out as int));
            if t.under(v_in as int, q[k] as int) {
                lemma_under_trans(t, v_in as int, q[k] as int, out as int);
            }
        }
    }
    assert forall|k: int| 0 <= k < stem.len() - 1 implies t.parent[#[trigger] stem[k] as int] == stem[k + 1] by {
        assert(stem[k] == q[k]);
        if k + 1 < q.len() {
            assert(stem[k + 1] == q[k + 1]);
        }
    }
    assert forall|a: int, b: int| 0 <= a < stem.len() && 0 <= b < stem.len() && a != b implies stem[a] != stem[b] by {
        let (x, y) = if a < b { (a, b) } else { (b, a) };
        if y < q.len() {
            lemma_way_ranks(t, q, u_in as int, out as int, x, y);
        } else {
            assert(stem[x] == q[x]);
            assert(q[x] != out);
        }
    }
    // The ends of the arc differ: there is a node between one of them and the joint.
    if p.first == p.second {
        assert(t.under(v_in as int, way[i] as int));
    }
}

/// Whether an arc hangs one of a tree's nodes other than one.
pub open spec fn hangs_other(t: Net, e: int, last: int) -> bool {
    exists|w: int| 0 <= w < t.n && w != last && #[trigger] t.pred[w] == e
}

/// The arcs that nodes hang by after a path was hung the other way round: those of before, but for the
/// last one's, and the new one.
pub proof fn lemma_new_arcs(t: Net, g: Net, stem: Seq<usize>, arc: usize)
    requires
        t.shaped(),
        t.rooted(),
        g.n == t.n,
        stem.len() > 0,
        stem.no_duplicates(),
        forall|i: int| 0 <= i < stem.len() ==> #[trigger] stem[i] < t.n,
        forall|u: int| 0 <= u < t.n && !stem.contains(u as usize) ==> #[trigger] g.pred[u] == t.pred[u],
        g.pred[stem[0] as int] == arc,
        forall|i: int| 1 <= i < stem.len() ==> g.pred[#[trigger] stem[i] as int] == t.pred[stem[i - 1] as int],
    ensures
        forall|u: int| 0 <= u < t.n && u != stem[0] ==> hangs_other(t, #[trigger] g.pred[u] as int, stem.last() as int),
        forall|e: int| e == arc || hangs_other(t, e, stem.last() as int) ==> #[trigger] g.has_arc(e),
{
    let n = stem.len() as int;
    let last = stem.last() as int;
    assert(stem[n - 1] == stem.last());
    assert forall|u: int| 0 <= u < t.n && u != stem[0] implies hangs_other(t, #[trigger] g.pred[u] as int, last) by {
        if !stem.contains(u as usize) {
            assert(u != last);
            assert(t.pred[u] == g.pred[u]);
        } else {
            let i = choose|i: int| 0 <= i < n && stem[i] == u as usize;
            assert(i > 0);
            assert(g.pred[stem[i] as int] == t.pred[stem[i - 1] as int]);
            let w = stem[i - 1] as int;
            assert(stem[i - 1] < t.n);
            assert(stem[i - 1] != stem[n - 1]);
            assert(t.pred[w] == g.pred[u]);
        }
    }
    assert forall|e: int| e == arc || hangs_other(t, e, last) implies #[trigger] g.has_arc(e) by {
        if e == arc {
            assert(stem[0] < t.n);
            assert(g.pred[stem[0] as int] == e);
        } else {
            let w = choose|w: int| 0 <= w < t.n && w != last && #[trigger] t.pred[w] == e;
            if !stem.contains(w as usize) {
                assert(g.pred[w] == e);
            } else {
                let i = choose|i: int| 0 <= i < n && stem[i] == w as usize;
                assert(i < n - 1);
                assert(stem[i + 1] < t.n);
                assert(g.pred[stem[i + 1] as int] == t.pred[stem[i + 1 - 1] as int]);
                assert(g.pred[stem[i + 1] as int] == e);
            }
        }
    }
}

/// The tree after its nodes were hung elsewhere and before the potentials move.
pub open spec fn cut_and_hung(t: Net, p: Pivot) -> Net {
    let e = p.arc as int;
    let out = t.pred[p.limit.out as int] as int;
    let state = t.state.update(e, 0).update(out, if p.flow[out] == 0 { 1i32 } else { -1i32 });
    Net { flow: p.flow, next: p.next, state, ..t }.rehung(t.stem(p), p.outside(), p.arc, p.inside() == t.source[e], t.stem(p).len() as int)
}

pub proof fn lemma_cut_and_hung(t: Net, sup: Seq<i32>, arc: usize, next: int)
    requires
        t.sound(sup),
        arc < t.m,
        t.state[arc as int] == 1 || t.state[arc as int] == -1,
        t.pivot(arc, next).limit.side != 0,
        t.pivot(arc, next).flow.len() == t.all(),
        0 <= next && (next < t.m || next == 0),
    ensures
        ({
            let p = t.pivot(arc, next);
            let g = cut_and_hung(t, p);
            let out = t.pred[p.limit.out as int] as int;
            let last = p.limit.out as int;
            &&& g.shaped()
            &&& g.rooted()
            &&& g.n == t.n && g.m == t.m && g.source == t.source && g.target == t.target && g.cap == t.cap && g.cost == t.cost && g.pi == t.pi
            &&& g.flow == p.flow
            &&& g.block == t.block
            &&& g.state == t.state.update(arc as int, 0).update(out, if p.flow[out] == 0 { 1i32 } else { -1i32 })
            &&& 0 <= out < t.all() && out != arc
            &&& p.inside() < t.n && p.outside() <= t.n
            &&& last < t.n
            &&& g.pred[p.inside() as int] == arc
            &&& g.parent[p.inside() as int] == p.outside()
            &&& g.up[p.inside() as int] == (p.inside() == t.source[arc as int])
            &&& !g.under(p.outside() as int, p.inside() as int)
            &&& forall|u: int| 0 <= u < t.n && u != p.inside() ==> hangs_other(t, #[trigger] g.pred[u] as int, last)
            &&& forall|e: int| e == arc || hangs_other(t, e, last) ==> #[trigger] g.has_arc(e)
        }),
{
    let p = t.pivot(arc, next);
    let e0 = arc as int;
    lemma_stem(t, sup, arc, next);
    let (u_in, v_in) = (p.inside(), p.outside());
    let last = p.limit.out as int;
    let out = t.pred[last] as int;
    assert(t.pred[last] < t.all());
    assert(t.state[t.pred[last] as int] == 0);
    let state = t.state.update(e0, 0).update(out, if p.flow[out] == 0 { 1i32 } else { -1i32 });
    let b = Net { flow: p.flow, next: p.next, state, ..t };
    let stem = t.stem(p);
    let n = stem.len() as int;
    assert(b.shaped()) by {
        assert forall|e: int| 0 <= e < b.all() implies -1 <= #[trigger] b.state[e] <= 1 by {
            assert(-1 <= t.state[e] <= 1);
        }
    }
    assert(b.rooted()) by {
        assert forall|u: int| 0 <= u < b.n implies b.joins(#[trigger] b.pred[u] as int, u, b.parent[u] as int, b.up[u]) by {
            assert(t.joins(t.pred[u] as int, u, t.parent[u] as int, t.up[u]));
        }
    }
    assert forall|i: int| 0 <= i < n implies !b.under(v_in as int, #[trigger] stem[i] as int) by {
        lemma_under_same(t, b, v_in as int, stem[i] as int);
    }
    lemma_rehung(b, stem, v_in, arc, u_in == t.source[e0], n);
    let g = b.rehung(stem, v_in, arc, u_in == t.source[e0], n);
    lemma_new_arcs(t, g, stem, arc);
    assert(!g.under(v_in as int, stem[0] as int));
}

/// The potentials moved below the inner end make the tree's arcs cost what the potentials differ by.
pub proof fn lemma_lifted_fits(t: Net, g: Net, arc: usize, u_in: int, v_in: int, last: int, by: i32)
    requires
        t.shaped(),
        g.shaped(),
        g.rooted(),
        g.n == t.n,
        g.source == t.source && g.target == t.target && g.cost == t.cost && g.pi == t.pi && g.m == t.m,
        forall|u: int| 0 <= u < t.n ==> t.reduced(#[trigger] t.pred[u] as int) == 0,
        0 <= u_in < t.n,
        0 <= v_in <= t.n,
        arc < t.m,
        g.pred[u_in] == arc,
        g.parent[u_in] == v_in,
        g.up[u_in] == (u_in == t.source[arc as int]),
        !g.under(v_in, u_in),
        forall|u: int| 0 <= u < t.n && u != u_in ==> hangs_other(t, #[trigger] g.pred[u] as int, last),
        by == g.pi[v_in].wrapping_sub(g.pi[u_in]).wrapping_sub(if u_in == t.source[arc as int] { g.cost[arc as int] } else { 0i32.wrapping_sub(g.cost[arc as int]) }),
    ensures
        forall|u: int| 0 <= u < t.n ==> g.lifted(u_in, by).reduced(#[trigger] g.pred[u] as int) == 0,
{
    let h = g.lifted(u_in, by);
    assert forall|u: int| 0 <= u < t.n implies h.reduced(#[trigger] g.pred[u] as int) == 0 by {
        let e = g.pred[u] as int;
        assert(g.pred[u] < g.all());
        assert(g.joins(g.pred[u] as int, u, g.parent[u] as int, g.up[u]));
        lemma_under_step(g, u, u_in);
        if u == u_in {
            lemma_fits(g.cost[arc as int], g.pi[u_in], g.pi[v_in], by, u_in == t.source[arc as int]);
        } else {
            assert(hangs_other(t, g.pred[u] as int, last));
            let w = choose|w: int| 0 <= w < t.n && w != last && #[trigger] t.pred[w] == g.pred[u];
            assert(t.reduced(t.pred[w] as int) == 0);
            lemma_shift_both(g.cost[e], g.pi[g.source[e] as int], g.pi[g.target[e] as int], by);
        }
    }
}

/// A pivot keeps the tree and its arcs.
pub proof fn lemma_pivot_tree(t: Net, sup: Seq<i32>, arc: usize, next: int)
    requires
        t.sound(sup),
        arc < t.m,
        t.state[arc as int] == 1 || t.state[arc as int] == -1,
        t.pivot(arc, next).limit.side != 0,
        t.pivot(arc, next).flow.len() == t.all(),
        0 <= next && (next < t.m || next == 0),
    ensures
        ({
            let p = t.pivot(arc, next);
            let h = t.pivoted(p);
            let out = t.pred[p.limit.out as int] as int;
            &&& h.shaped()
            &&& h.rooted()
            &&& h.n == t.n && h.m == t.m && h.source == t.source && h.target == t.target && h.cap == t.cap && h.cost == t.cost
            &&& h.flow == p.flow
            &&& h.block == t.block
            &&& h.state == t.state.update(arc as int, 0).update(out, if p.flow[out] == 0 { 1i32 } else { -1i32 })
            &&& 0 <= out < t.all() && out != arc
            &&& forall|u: int| 0 <= u < h.n ==> h.state[#[trigger] h.pred[u] as int] == 0
            &&& forall|e: int| 0 <= e < h.all() && #[trigger] h.state[e] == 0 ==> h.has_arc(e)
            &&& forall|u: int| 0 <= u < h.n ==> h.reduced(#[trigger] h.pred[u] as int) == 0
        }),
{
    let p = t.pivot(arc, next);
    let e0 = arc as int;
    lemma_cut_and_hung(t, sup, arc, next);
    let g = cut_and_hung(t, p);
    let (u_in, v_in) = (p.inside() as int, p.outside() as int);
    let last = p.limit.out as int;
    let out = t.pred[last] as int;
    let c = g.cost[e0];
    let by = g.pi[v_in].wrapping_sub(g.pi[u_in]).wrapping_sub(if u_in == t.source[e0] { c } else { 0i32.wrapping_sub(c) });
    let h = g.lifted(u_in, by);
    assert(h == t.pivoted(p));
    lemma_lifted_fits(t, g, arc, u_in, v_in, last, by);
    assert(h.rooted()) by {
        assert forall|u: int| 0 <= u < h.n implies h.joins(#[trigger] h.pred[u] as int, u, h.parent[u] as int, h.up[u]) by {
            assert(g.joins(g.pred[u] as int, u, g.parent[u] as int, g.up[u]));
        }
    }
    assert forall|u: int| 0 <= u < h.n implies h.state[#[trigger] h.pred[u] as int] == 0 by {
        if u != u_in {
            assert(hangs_other(t, g.pred[u] as int, last));
            let w = choose|w: int| 0 <= w < t.n && w != last && #[trigger] t.pred[w] == g.pred[u];
            lemma_preds_differ(t, w, last);
            assert(t.state[t.pred[w] as int] == 0);
        }
    }
    assert forall|e: int| 0 <= e < h.all() && #[trigger] h.state[e] == 0 implies h.has_arc(e) by {
        if e != e0 {
            assert(e != out);
            assert(t.state[e] == 0);
            assert(t.has_arc(e));
            let w = choose|w: int| 0 <= w < t.n && #[trigger] t.pred[w] == e;
            assert(w != last);
            assert(hangs_other(t, e, last));
        }
        assert(g.has_arc(e));
        let w = choose|w: int| 0 <= w < g.n && #[trigger] g.pred[w] == e;
        assert(h.pred[w] == e);
    }
}

/// What a potential moves by for an arc to cost what the potentials differ by.
pub proof fn lemma_fits(c: i32, a: i32, b: i32, by: i32, leads_up: bool)
    requires
        by == b.wrapping_sub(a).wrapping_sub(if leads_up { c } else { 0i32.wrapping_sub(c) }),
    ensures
        leads_up ==> c.wrapping_add(a.wrapping_add(by)).wrapping_sub(b) == 0,
        !leads_up ==> c.wrapping_add(b).wrapping_sub(a.wrapping_add(by)) == 0,
{
    if leads_up {
        lemma_same_i32(c.wrapping_add(a.wrapping_add(by)).wrapping_sub(b), 0);
    } else {
        lemma_same_i32(c.wrapping_add(b).wrapping_sub(a.wrapping_add(by)), 0);
    }
}

/// A pivot keeps the network sound.
pub proof fn lemma_pivoted(t: Net, sup: Seq<i32>, arc: usize, next: int)
    requires
        t.sound(sup),
        arc < t.m,
        t.eligible(arc as int) < 0,
        0 <= next && (next < t.m || next == 0),
        t.pivot(arc, next).limit.delta < UNLIMITED,
    ensures
        t.pivoted(t.pivot(arc, next)).sound(sup),
        t.pivoted(t.pivot(arc, next)).n == t.n,
        t.pivoted(t.pivot(arc, next)).m == t.m,
        t.pivoted(t.pivot(arc, next)).source == t.source,
        t.pivoted(t.pivot(arc, next)).target == t.target,
        t.pivoted(t.pivot(arc, next)).cap == t.cap,
        t.pivoted(t.pivot(arc, next)).cost == t.cost,
        t.pivoted(t.pivot(arc, next)).block == t.block,
{
    let e0 = arc as int;
    let p = t.pivot(arc, next);
    let h = t.pivoted(p);
    lemma_eligible(t, e0);
    lemma_balance_round(t, sup, arc, next);
    lemma_ends_after(t, sup, arc, next);
    if p.limit.side == 0 {
        assert forall|e: int| 0 <= e < h.all() implies -1 <= #[trigger] h.state[e] <= 1 by {
            assert(-1 <= t.state[e] <= 1);
        }
        assert(h.rooted()) by {
            assert forall|u: int| 0 <= u < h.n implies h.joins(#[trigger] h.pred[u] as int, u, h.parent[u] as int, h.up[u]) by {
                assert(t.joins(t.pred[u] as int, u, t.parent[u] as int, t.up[u]));
            }
        }
        assert forall|u: int| 0 <= u < h.n implies h.state[#[trigger] h.pred[u] as int] == 0 && h.reduced(h.pred[u] as int) == 0 by {
            assert(t.state[t.pred[u] as int] == 0);
            assert(t.reduced(t.pred[u] as int) == 0);
        }
        assert forall|e: int| 0 <= e < h.all() && #[trigger] h.state[e] == 0 implies h.has_arc(e) by {
            assert(t.state[e] == 0);
            assert(t.has_arc(e));
            let w = choose|w: int| 0 <= w < t.n && #[trigger] t.pred[w] == e;
            assert(h.pred[w] == e);
        }
    } else {
        lemma_pivot_tree(t, sup, arc, next);
    }
    assert forall|e: int| 0 <= e < h.all() implies #[trigger] h.arc_holds(e) by {
        assert(t.arc_holds(e));
        lemma_arc_after(t, sup, arc, next, e);
    }
    assert forall|v: int| 0 <= v <= h.n implies same32(#[trigger] h.excess(h.flow, v, h.all()), sup[v] as int) by {
        lemma_excess_same(t, h, h.flow, v, h.all());
        assert(same32(t.excess(p.flow, v, t.all()), sup[v] as int));
    }
}

pub proof fn lemma_eligible(t: Net, e: int)
    requires
        t.shaped(),
        0 <= e < t.m,
        t.eligible(e) < 0,
    ensures
        t.state[e] == 1 || t.state[e] == -1,
{
    assert(-1 <= t.state[e] <= 1);
    if t.state[e] == 0 {
        assert(t.state[e] * t.reduced(e) == 0) by (nonlinear_arith)
            requires t.state[e] == 0;
    }
}

} // verus!
