//! Directed graphs whose nodes and arcs are walked newest first, and the mixed order in which a
//! network keeps their arcs.
//!
//! The order of nodes and arcs is that of LEMON, a generic C++ optimization library, whose notice
//! reads: Copyright (C) 2003-2013 Egervary Jeno Kombinatorikus Optimalizalasi Kutatocsoport (Egervary
//! Research Group on Combinatorial Optimization, EGRES). Permission to use, modify and distribute this
//! software is granted provided that this copyright notice appears in all copies.

use vstd::prelude::*;

pub use crate::simplex::NetworkSimplex;

verus! {

/// A directed graph. Nodes and arcs are numbered as they come, and the newest is walked first.
#[derive(Debug)]
pub struct ListDigraph {
    pub node_count: usize,
    /// The newest arc out of each node, and for each arc the next older one out of the same node.
    pub first_out: Vec<Option<usize>>,
    pub next_out: Vec<Option<usize>>,
    /// Where each arc comes from and goes to.
    pub src: Vec<usize>,
    pub tgt: Vec<usize>,
}

/// The newest of the first `n` arcs that comes from a node.
pub open spec fn newest_from(src: Seq<usize>, u: usize, n: int) -> Option<usize>
    decreases n,
{
    if n <= 0 {
        None
    } else if src[n - 1] == u {
        Some((n - 1) as usize)
    } else {
        newest_from(src, u, n - 1)
    }
}

/// The first `n` arcs that come from a node, newest first.
pub open spec fn arcs_from(src: Seq<usize>, u: usize, n: int) -> Seq<usize>
    decreases n,
{
    if n <= 0 {
        Seq::empty()
    } else {
        let rest = arcs_from(src, u, n - 1);
        if src[n - 1] == u { seq![(n - 1) as usize] + rest } else { rest }
    }
}

/// The arcs out of the first `n` nodes, node by node from the newest, each node's arcs newest first.
pub open spec fn arcs_of(src: Seq<usize>, n: int) -> Seq<usize>
    decreases n,
{
    if n <= 0 { Seq::empty() } else { arcs_from(src, (n - 1) as usize, src.len() as int) + arcs_of(src, n - 1) }
}

/// The first `n` nodes, newest first.
pub open spec fn nodes_of(n: int) -> Seq<usize> {
    Seq::new(n as nat, |k: int| (n - 1 - k) as usize)
}

proof fn lemma_newest(src: Seq<usize>, u: usize, n: int)
    requires
        0 <= n <= src.len(),
        src.len() <= usize::MAX,
    ensures
        match newest_from(src, u, n) {
            None => arcs_from(src, u, n) == Seq::<usize>::empty(),
            Some(a) => a < n && src[a as int] == u && arcs_from(src, u, n) == seq![a] + arcs_from(src, u, a as int),
        },
    decreases n,
{
    if n > 0 && src[n - 1] != u {
        lemma_newest(src, u, n - 1);
    }
}

proof fn lemma_newest_prefix(a: Seq<usize>, b: Seq<usize>, u: usize, n: int)
    requires
        0 <= n <= a.len(),
        n <= b.len(),
        forall|k: int| 0 <= k < n ==> a[k] == b[k],
    ensures
        newest_from(a, u, n) == newest_from(b, u, n),
    decreases n,
{
    if n > 0 {
        lemma_newest_prefix(a, b, u, n - 1);
    }
}

proof fn lemma_arcs_from(src: Seq<usize>, u: usize, n: int)
    requires
        0 <= n <= src.len(),
        src.len() <= usize::MAX,
    ensures
        arcs_from(src, u, n).no_duplicates(),
        forall|k: int| 0 <= k < arcs_from(src, u, n).len() ==> #[trigger] arcs_from(src, u, n)[k] < n && src[arcs_from(src, u, n)[k] as int] == u,
        forall|a: int| 0 <= a < n && src[a] == u ==> arcs_from(src, u, n).contains(a as usize),
    decreases n,
{
    if n > 0 {
        lemma_arcs_from(src, u, n - 1);
        let rest = arcs_from(src, u, n - 1);
        let all = arcs_from(src, u, n);
        if src[n - 1] == u {
            assert forall|k: int| 0 <= k < all.len() implies #[trigger] all[k] < n && src[all[k] as int] == u by {
                if k > 0 {
                    assert(all[k] == rest[k - 1]);
                }
            }
            assert forall|i: int, j: int| 0 <= i < all.len() && 0 <= j < all.len() && i != j implies all[i] != all[j] by {
                if i > 0 {
                    assert(all[i] == rest[i - 1]);
                }
                if j > 0 {
                    assert(all[j] == rest[j - 1]);
                }
            }
            assert forall|a: int| 0 <= a < n && src[a] == u implies all.contains(a as usize) by {
                if a == n - 1 {
                    assert(all[0] == a as usize);
                } else {
                    assert(rest.contains(a as usize));
                    let k = choose|k: int| 0 <= k < rest.len() && rest[k] == a as usize;
                    assert(all[k + 1] == a as usize);
                }
            }
        }
    }
}

/// Every arc out of the first `n` nodes is walked once, and no other.
pub proof fn law_arcs_are_walked_once(src: Seq<usize>, n: int)
    requires
        0 <= n <= usize::MAX,
        src.len() <= usize::MAX,
    ensures
        arcs_of(src, n).no_duplicates(),
        forall|k: int| 0 <= k < arcs_of(src, n).len() ==> #[trigger] arcs_of(src, n)[k] < src.len() && src[arcs_of(src, n)[k] as int] < n,
        forall|a: int| 0 <= a < src.len() && src[a] < n ==> arcs_of(src, n).contains(a as usize),
    decreases n,
{
    if n > 0 {
        law_arcs_are_walked_once(src, n - 1);
        let u = (n - 1) as usize;
        lemma_arcs_from(src, u, src.len() as int);
        let head = arcs_from(src, u, src.len() as int);
        let tail = arcs_of(src, n - 1);
        let all = arcs_of(src, n);
        assert forall|k: int| 0 <= k < all.len() implies #[trigger] all[k] < src.len() && src[all[k] as int] < n by {
            if k < head.len() {
                assert(all[k] == head[k]);
            } else {
                assert(all[k] == tail[k - head.len()]);
            }
        }
        assert forall|i: int, j: int| 0 <= i < all.len() && 0 <= j < all.len() && i != j implies all[i] != all[j] by {
            let h = head.len() as int;
            if i < h && j < h {
                assert(all[i] == head[i] && all[j] == head[j]);
            } else if i >= h && j >= h {
                assert(all[i] == tail[i - h] && all[j] == tail[j - h]);
            } else if i < h {
                assert(all[i] == head[i] && all[j] == tail[j - h]);
            } else {
                assert(all[i] == tail[i - h] && all[j] == head[j]);
            }
        }
        assert forall|a: int| 0 <= a < src.len() && src[a] < n implies all.contains(a as usize) by {
            if src[a] == u {
                assert(head.contains(a as usize));
                let k = choose|k: int| 0 <= k < head.len() && head[k] == a as usize;
                assert(all[k] == a as usize);
            } else {
                assert(tail.contains(a as usize));
                let k = choose|k: int| 0 <= k < tail.len() && tail[k] == a as usize;
                assert(all[head.len() + k] == a as usize);
            }
        }
    }
}

impl ListDigraph {
    /// Arcs join nodes there are, and the lists of arcs out of a node hold them newest first.
    pub open spec fn wf(&self) -> bool {
        let m = self.src@.len() as int;
        &&& self.first_out@.len() == self.node_count
        &&& self.tgt@.len() == m && self.next_out@.len() == m
        &&& forall|a: int| 0 <= a < m ==> #[trigger] self.src@[a] < self.node_count
        &&& forall|a: int| 0 <= a < m ==> #[trigger] self.tgt@[a] < self.node_count
        &&& forall|u: int| 0 <= u < self.node_count ==> #[trigger] self.first_out@[u] == newest_from(self.src@, u as usize, m)
        &&& forall|a: int| 0 <= a < m ==> #[trigger] self.next_out@[a] == newest_from(self.src@, self.src@[a], a)
    }

    /// An empty graph.
    pub fn new() -> (r: ListDigraph)
        ensures
            r.wf(),
            r.node_count == 0,
            r.src@.len() == 0,
    {
        ListDigraph { node_count: 0, first_out: Vec::new(), next_out: Vec::new(), src: Vec::new(), tgt: Vec::new() }
    }

    /// Add a node. Its number.
    pub fn add_node(&mut self) -> (n: usize)
        requires
            old(self).wf(),
            old(self).node_count < usize::MAX,
        ensures
            final(self).wf(),
            n == old(self).node_count,
            final(self).node_count == n + 1,
            final(self).src == old(self).src,
            final(self).tgt == old(self).tgt,
    {
        let n: usize = self.node_count;
        self.first_out.push(None);
        self.node_count = n + 1;
        proof {
            lemma_no_arcs(self.src@, n, self.src@.len() as int);
        }
        n
    }

    /// Add an arc from one node to another. Its number.
    pub fn add_arc(&mut self, u: usize, v: usize) -> (a: usize)
        requires
            old(self).wf(),
            u < old(self).node_count,
            v < old(self).node_count,
        ensures
            final(self).wf(),
            a == old(self).src@.len(),
            final(self).node_count == old(self).node_count,
            final(self).src@ == old(self).src@.push(u),
            final(self).tgt@ == old(self).tgt@.push(v),
    {
        let ghost s0 = self.src@;
        let ghost m = s0.len() as int;
        let a: usize = self.src.len();
        let before: Option<usize> = self.first_out[u];
        self.src.push(u);
        self.tgt.push(v);
        self.next_out.push(before);
        self.first_out.set(u, Some(a));
        proof {
            let s1 = self.src@;
            assert forall|w: int| 0 <= w < self.node_count implies #[trigger] self.first_out@[w] == newest_from(s1, w as usize, m + 1) by {
                lemma_newest_prefix(s0, s1, w as usize, m);
            }
            assert forall|b: int| 0 <= b < m + 1 implies #[trigger] self.next_out@[b] == newest_from(s1, s1[b], b) by {
                lemma_newest_prefix(s0, s1, s1[b], b);
            }
        }
        a
    }

    /// The nodes, newest first.
    pub fn nodes(&self) -> (r: Vec<usize>)
        requires
            self.wf(),
        ensures
            r@ == nodes_of(self.node_count as int),
    {
        let mut out: Vec<usize> = Vec::new();
        let mut n: usize = self.node_count;
        while n > 0
            invariant
                n <= self.node_count,
                out@ == nodes_of(self.node_count as int).subrange(0, self.node_count - n),
            decreases n,
        {
            n = n - 1;
            out.push(n);
            assert(out@ =~= nodes_of(self.node_count as int).subrange(0, self.node_count - n));
        }
        assert(out@ =~= nodes_of(self.node_count as int));
        out
    }

    /// The arcs: node by node from the newest, each node's outgoing arcs newest first.
    pub fn arcs(&self) -> (r: Vec<usize>)
        requires
            self.wf(),
        ensures
            r@ == arcs_of(self.src@, self.node_count as int),
            r@.len() == self.src@.len(),
            r@.no_duplicates(),
            forall|k: int| 0 <= k < r@.len() ==> #[trigger] r@[k] < self.src@.len(),
    {
        let ghost m = self.src@.len() as int;
        let count: usize = self.src.len();
        let mut out: Vec<usize> = Vec::new();
        let mut n: usize = self.node_count;
        assert(out@ + arcs_of(self.src@, n as int) =~= arcs_of(self.src@, self.node_count as int));
        while n > 0
            invariant
                self.wf(),
                count == self.src@.len(),
                n <= self.node_count,
                out@ + arcs_of(self.src@, n as int) == arcs_of(self.src@, self.node_count as int),
            decreases n,
        {
            let ghost o0 = out@;
            let ghost rest = arcs_of(self.src@, n - 1);
            n = n - 1;
            let mut a: Option<usize> = self.first_out[n];
            let ghost mut below = self.src@.len() as int;
            assert(o0 + (arcs_from(self.src@, n as usize, count as int) + rest) =~= (out@ + arcs_from(self.src@, n, below)) + rest);
            while a.is_some()
                invariant
                    self.wf(),
                    count == self.src@.len(),
                    n < self.node_count,
                    0 <= below <= count,
                    a == newest_from(self.src@, n, below),
                    (out@ + arcs_from(self.src@, n, below)) + rest == arcs_of(self.src@, self.node_count as int),
                decreases below,
            {
                proof {
                    lemma_newest(self.src@, n, below);
                }
                if let Some(e) = a {
                    let ghost o1 = out@;
                    out.push(e);
                    a = self.next_out[e];
                    proof {
                        assert(out@ + arcs_from(self.src@, n, e as int) =~= o1 + (seq![e] + arcs_from(self.src@, n, e as int)));
                        below = e as int;
                    }
                }
            }
            proof {
                lemma_newest(self.src@, n, below);
                assert(out@ + Seq::<usize>::empty() =~= out@);
            }
        }
        proof {
            assert(out@ + Seq::<usize>::empty() =~= out@);
            law_arcs_are_walked_once(self.src@, self.node_count as int);
            assert forall|a: int| 0 <= a < m implies #[trigger] out@.contains(a as usize) by {
                assert(self.src@[a] < self.node_count);
            }
            lemma_all_arcs(out@, m);
        }
        out
    }
}

proof fn lemma_no_arcs(src: Seq<usize>, u: usize, n: int)
    requires
        0 <= n <= src.len(),
        forall|a: int| 0 <= a < src.len() ==> #[trigger] src[a] < u,
    ensures
        newest_from(src, u, n) is None,
    decreases n,
{
    if n > 0 {
        lemma_no_arcs(src, u, n - 1);
    }
}

/// Different numbers below a bound that are all of them are as many as the bound.
proof fn lemma_all_arcs(v: Seq<usize>, m: int)
    requires
        0 <= m <= usize::MAX,
        v.no_duplicates(),
        forall|k: int| 0 <= k < v.len() ==> #[trigger] v[k] < m,
        forall|a: int| 0 <= a < m ==> #[trigger] v.contains(a as usize),
    ensures
        v.len() == m,
{
    let p = v.map_values(|x: usize| x as int);
    assert(p.no_duplicates()) by {
        assert forall|i: int, j: int| 0 <= i < p.len() && 0 <= j < p.len() && i != j implies p[i] != p[j] by {
            assert(v[i] != v[j]);
        }
    }
    p.unique_seq_to_set();
    vstd::set_lib::lemma_int_range(0, m);
    assert(p.to_set() =~= vstd::set_lib::set_int_range(0, m)) by {
        assert forall|x: int| #[trigger] p.to_set().contains(x) <==> vstd::set_lib::set_int_range(0, m).contains(x) by {
            if p.to_set().contains(x) {
                let i = choose|i: int| 0 <= i < p.len() && p[i] == x;
                assert(v[i] < m);
            }
            if 0 <= x < m {
                assert(v.contains(x as usize));
                let i = choose|i: int| 0 <= i < v.len() && v[i] == x as usize;
                assert(p[i] == x);
            }
        }
    }
}

// ── mixing ───────────────────────────────────────────────────────────────────────────────────

/// Where the arc that is walked at step `t` is kept: every `skip`-th place, then from the next start on.
/// The place, and the start it belongs to.
pub open spec fn mixed(m: int, skip: int, t: int) -> (int, int)
    decreases t,
{
    if t <= 0 {
        (0, 0)
    } else {
        let p = mixed(m, skip, t - 1);
        if p.0 + skip >= m { (p.1 + 1, p.1 + 1) } else { (p.0 + skip, p.1) }
    }
}

/// The places of the first `t` steps are those before the current start's class, and in it before the
/// current place.
pub open spec fn passed(m: int, skip: int, i: int, j: int, x: int) -> bool {
    0 <= x < m && (x % skip < j || (x % skip == j && x < i))
}

/// The places before step `t`.
spec fn seen_upto(m: int, skip: int, t: int) -> Set<int>
    decreases t,
{
    if t <= 0 { Set::empty() } else { seen_upto(m, skip, t - 1).insert(mixed(m, skip, t - 1).0) }
}

proof fn lemma_mixed(m: int, skip: int, t: int)
    requires
        1 <= skip,
        0 <= t < m,
    ensures
        0 <= mixed(m, skip, t).0 < m,
        0 <= mixed(m, skip, t).1 < skip,
        mixed(m, skip, t).0 % skip == mixed(m, skip, t).1,
        seen_upto(m, skip, t).finite(),
        seen_upto(m, skip, t).len() == t,
        forall|x: int| #[trigger] seen_upto(m, skip, t).contains(x) <==> passed(m, skip, mixed(m, skip, t).0, mixed(m, skip, t).1, x),
    decreases t,
{
    if t == 0 {
        assert(0int % skip == 0) by (nonlinear_arith)
            requires skip >= 1;
        assert forall|x: int| !passed(m, skip, 0, 0, x) by {
            if 0 <= x {
                assert(0 <= x % skip) by (nonlinear_arith)
                    requires skip >= 1;
            }
        }
    } else {
        lemma_mixed(m, skip, t - 1);
        let (i, j) = mixed(m, skip, t - 1);
        let old_seen = seen_upto(m, skip, t - 1);
        let seen = seen_upto(m, skip, t);
        assert(!old_seen.contains(i));
        let (i2, j2) = mixed(m, skip, t);
        if i + skip >= m {
            // The class of `j` is complete; an unseen place is in a later one.
            assert forall|x: int| #[trigger] seen.contains(x) <==> (0 <= x < m && x % skip <= j) by {
                if 0 <= x < m && x % skip == j && x > i {
                    lemma_next_in_class(x, i, skip);
                }
                if 0 <= x < m && x % skip == j && x == i {
                    assert(seen.contains(i));
                }
            }
            let x = lemma_unseen(seen, m, t);
            assert(0 <= x % skip <= x) by (nonlinear_arith)
                requires 0 <= x, skip >= 1;
            assert(x % skip < skip) by (nonlinear_arith)
                requires 0 <= x, skip >= 1;
            assert(j + 1 < skip && j + 1 < m);
            assert((j + 1) % skip == j + 1) by (nonlinear_arith)
                requires 0 <= j + 1 < skip;
            assert forall|y: int| #[trigger] seen.contains(y) <==> passed(m, skip, i2, j2, y) by {
                if 0 <= y < m && y % skip == j + 1 && y < j + 1 {
                    assert(y % skip <= y) by (nonlinear_arith)
                        requires 0 <= y, skip >= 1;
                }
            }
        } else {
            assert((i + skip) % skip == i % skip) by (nonlinear_arith)
                requires skip >= 1, i >= 0;
            assert forall|x: int| #[trigger] seen.contains(x) <==> passed(m, skip, i2, j2, x) by {
                if 0 <= x < m && x % skip == j && i < x < i + skip {
                    lemma_next_in_class(x, i, skip);
                }
            }
        }
    }
}

proof fn lemma_next_in_class(x: int, i: int, skip: int)
    requires
        1 <= skip,
        0 <= i < x,
        x % skip == i % skip,
    ensures
        x >= i + skip,
{
    let (a, b) = (x / skip, i / skip);
    assert(x == skip * a + x % skip && i == skip * b + i % skip) by (nonlinear_arith)
        requires skip >= 1, a == x / skip, b == i / skip;
    assert(a > b) by (nonlinear_arith)
        requires x > i, x - i == skip * a - skip * b, skip >= 1;
    assert(skip * a >= skip * b + skip) by (nonlinear_arith)
        requires a > b, skip >= 1;
}

proof fn lemma_unseen(s: Set<int>, m: int, t: int) -> (x: int)
    requires
        s.finite(),
        s.len() == t,
        0 <= t < m,
        forall|y: int| #[trigger] s.contains(y) ==> 0 <= y < m,
    ensures
        0 <= x < m,
        !s.contains(x),
{
    if forall|y: int| 0 <= y < m ==> s.contains(y) {
        vstd::set_lib::lemma_int_range(0, m);
        assert(vstd::set_lib::set_int_range(0, m).subset_of(s));
        vstd::set_lib::lemma_len_subset(vstd::set_lib::set_int_range(0, m), s);
    }
    choose|y: int| 0 <= y < m && !s.contains(y)
}

/// Different steps have different places.
pub proof fn lemma_mixed_distinct(m: int, skip: int, a: int, b: int)
    requires
        1 <= skip,
        0 <= a < b < m,
    ensures
        mixed(m, skip, a).0 != mixed(m, skip, b).0,
        0 <= mixed(m, skip, a).0 < m,
        0 <= mixed(m, skip, b).0 < m,
{
    lemma_mixed(m, skip, a);
    lemma_mixed(m, skip, b);
    lemma_seen(m, skip, a, b);
    assert(!seen_upto(m, skip, b).contains(mixed(m, skip, b).0));
}

proof fn lemma_seen(m: int, skip: int, a: int, b: int)
    requires
        0 <= a < b,
    ensures
        seen_upto(m, skip, b).contains(mixed(m, skip, a).0),
    decreases b,
{
    if a < b - 1 {
        lemma_seen(m, skip, a, b - 1);
    }
}

/// A place is within the arcs.
pub proof fn lemma_mixed_place(m: int, skip: int, t: int)
    requires
        1 <= skip,
        0 <= t < m,
    ensures
        0 <= mixed(m, skip, t).0 < m,
        0 <= mixed(m, skip, t).1 < skip,
{
    lemma_mixed(m, skip, t);
}

} // verus!
