//! Overlap removed by clumping: items that lie too close to their left neighbours are joined into
//! clumps that move as one, to the weighted mean of the places that their items ask for.

use vstd::prelude::*;
use crate::rows::COORD_LIMIT;

verus! {

/// The items to place: where each asks to be, how wide and how heavy it is, and its left neighbours.
#[derive(Debug)]
pub struct Items {
    pub x: Vec<i64>,
    pub width: Vec<i64>,
    pub weight: Vec<i64>,
    pub left: Vec<Vec<usize>>,
}

impl Items {
    /// The number of items.
    pub open spec fn len(&self) -> int {
        self.x@.len() as int
    }

    /// The tables fit together, and the numbers are within their limits.
    pub open spec fn wf(&self) -> bool {
        &&& self.width@.len() == self.len() && self.weight@.len() == self.len() && self.left@.len() == self.len()
        &&& self.len() <= 8 * COORD_LIMIT
        &&& forall|u: int| 0 <= u < self.len() ==> -8 * COORD_LIMIT <= #[trigger] self.x@[u] <= 8 * COORD_LIMIT
        &&& forall|u: int| 0 <= u < self.len() ==> 0 <= #[trigger] self.width@[u] <= COORD_LIMIT
        &&& forall|u: int| 0 <= u < self.len() ==> 1 <= #[trigger] self.weight@[u] <= 100_000_000
        &&& forall|u: int, k: int| 0 <= u < self.len() && 0 <= k < self.left@[u]@.len() ==> #[trigger] self.left@[u]@[k] < self.len()
    }
}

/// Clumps of items: the items of each and where it lies, and for each item its clump and its offset
/// in it.
pub ghost struct Clumps {
    pub nodes: Seq<Seq<usize>>,
    pub posn: Seq<int>,
    pub off: Seq<int>,
    pub clump: Seq<Option<usize>>,
}

/// How far an item reaches into the space of its left neighbour's clump, if it does: the distance,
/// negative, that clump, and the offset that would put the item behind the neighbour.
pub open spec fn breach(it: Items, c: Clumps, r: int, item: usize, left: usize) -> Option<(int, usize, int)> {
    match c.clump[left as int] {
        None => None,
        Some(t) => {
            let d = c.posn[r] + c.off[item as int] - (c.posn[t as int] + c.off[left as int] + it.width@[left as int]);
            if t != r && d < 0 { Some((d, t, c.off[left as int] + it.width@[left as int] - c.off[item as int])) } else { None }
        },
    }
}

/// The worse of two breaches, the first of two equal ones.
pub open spec fn worse(a: Option<(int, usize, int)>, b: Option<(int, usize, int)>) -> Option<(int, usize, int)> {
    match (a, b) {
        (Some(x), Some(y)) => if y.0 < x.0 { b } else { a },
        (None, _) => b,
        (_, None) => a,
    }
}

/// The worst of a breach and those of an item against its first `n` left neighbours.
pub open spec fn worst_of(it: Items, c: Clumps, r: int, item: usize, n: int, a: Option<(int, usize, int)>) -> Option<(int, usize, int)>
    decreases n,
{
    if n <= 0 { a } else { worse(worst_of(it, c, r, item, n - 1, a), breach(it, c, r, item, it.left@[item as int]@[n - 1])) }
}

/// The worst breach of the first `n` items of a clump.
pub open spec fn worst_in(it: Items, c: Clumps, r: int, n: int) -> Option<(int, usize, int)>
    decreases n,
{
    if n <= 0 {
        None
    } else {
        let u = c.nodes[r][n - 1];
        worst_of(it, c, r, u, it.left@[u as int]@.len() as int, worst_in(it, c, r, n - 1))
    }
}

/// The worst breach of a clump.
pub open spec fn worst(it: Items, c: Clumps, r: int) -> Option<(int, usize, int)> {
    worst_in(it, c, r, c.nodes[r].len() as int)
}

/// The offsets after those of the first `n` items of a list grew.
pub open spec fn offset_by(off: Seq<int>, list: Seq<usize>, n: int, d: int) -> Seq<int>
    decreases n,
{
    if n <= 0 {
        off
    } else {
        let s = offset_by(off, list, n - 1, d);
        s.update(list[n - 1] as int, s[list[n - 1] as int] + d)
    }
}

/// The clumps of items after the first `n` items of a list went to another.
pub open spec fn reassigned(clump: Seq<Option<usize>>, list: Seq<usize>, n: int, t: usize) -> Seq<Option<usize>>
    decreases n,
{
    if n <= 0 { clump } else { reassigned(clump, list, n - 1, t).update(list[n - 1] as int, Some(t)) }
}

/// The weights of the first `n` items of a list.
pub open spec fn weight_of(it: Items, list: Seq<usize>, n: int) -> int
    decreases n,
{
    if n <= 0 { 0 } else { weight_of(it, list, n - 1) + it.weight@[list[n - 1] as int] }
}

/// The weighted places that the first `n` items of a list ask for their clump.
pub open spec fn asked(it: Items, off: Seq<int>, list: Seq<usize>, n: int) -> int
    decreases n,
{
    if n <= 0 {
        0
    } else {
        let u = list[n - 1] as int;
        asked(it, off, list, n - 1) + it.weight@[u] * (it.x@[u] - off[u])
    }
}

/// The weighted mean of the places that a clump's items ask for it, rounded down.
pub open spec fn mean(it: Items, off: Seq<int>, list: Seq<usize>) -> int {
    asked(it, off, list, list.len() as int) / weight_of(it, list, list.len() as int)
}

/// The clumps after clump `r` went into clump `t`, its items' offsets grown by `d`.
pub open spec fn joined(it: Items, c: Clumps, r: int, t: usize, d: int) -> Clumps {
    let list = c.nodes[r];
    let all = c.nodes[t as int] + list;
    let off = offset_by(c.off, list, list.len() as int, d);
    Clumps {
        nodes: c.nodes.update(r, Seq::empty()).update(t as int, all),
        posn: c.posn.update(t as int, mean(it, off, all)),
        off,
        clump: reassigned(c.clump, list, list.len() as int, t),
    }
}

/// The clumps after clump `r`, and then each clump it goes into, was joined to where its worst breach
/// is, for at most `steps` steps. Every step leaves a clump fewer, so as many steps as clumps suffice.
pub open spec fn settled(it: Items, c: Clumps, r: int, steps: int) -> Clumps
    decreases steps,
{
    if steps <= 0 {
        c
    } else {
        match worst(it, c, r) {
            None => c,
            Some(b) => settled(it, joined(it, c, r, b.1, b.2), b.1 as int, steps - 1),
        }
    }
}

/// The clumps after the first `n` were settled in turn.
pub open spec fn settled_upto(it: Items, c: Clumps, n: int) -> Clumps
    decreases n,
{
    if n <= 0 { c } else { settled(it, settled_upto(it, c, n - 1), n - 1, c.nodes.len() as int) }
}

/// Each item of a list in a clump of its own, at a place of its own.
pub open spec fn singles(it: Items, heads: Seq<usize>, at: Seq<i64>) -> Clumps {
    Clumps {
        nodes: Seq::new(heads.len(), |k: int| seq![heads[k]]),
        posn: Seq::new(at.len(), |k: int| at[k] as int),
        off: Seq::new(it.x@.len(), |u: int| 0int),
        clump: Seq::new(it.x@.len(), |u: int| if heads.contains(u as usize) { Some(choose|k: usize| k < heads.len() && heads[k as int] == u) } else { None }),
    }
}

// ── ranges ───────────────────────────────────────────────────────────────────────────────────

/// The items of the first `n` clumps.
pub open spec fn total(nodes: Seq<Seq<usize>>, n: int) -> int
    decreases n,
{
    if n <= 0 { 0 } else { total(nodes, n - 1) + nodes[n - 1].len() }
}

/// Whether a number is within a distance.
pub open spec fn within(v: int, d: int) -> bool {
    -d <= v <= d
}

/// Every item is in the clump that lists it, and offsets in a clump differ by no more than its items
/// are wide.
pub open spec fn sound(it: Items, c: Clumps) -> bool {
    let h = c.nodes.len() as int;
    let lim = COORD_LIMIT as int;
    &&& c.posn.len() == h
    &&& h <= it.len()
    &&& c.off.len() == it.len() && c.clump.len() == it.len()
    &&& total(c.nodes, h) == h
    &&& forall|k: int| 0 <= k < h ==> (#[trigger] c.nodes[k]).no_duplicates()
    &&& forall|k: int, i: int| 0 <= k < h && 0 <= i < c.nodes[k].len() ==> (#[trigger] c.nodes[k][i]) < it.len() && c.clump[c.nodes[k][i] as int] == Some(k as usize)
    &&& forall|u: int| 0 <= u < it.len() ==> (#[trigger] c.clump[u] matches Some(k) ==> k < h && c.nodes[k as int].contains(u as usize))
    &&& forall|u: int| 0 <= u < it.len() ==> (#[trigger] c.clump[u] matches Some(k) ==> within(c.off[u], (c.nodes[k as int].len() - 1) * lim))
    &&& forall|u: int, v: int| 0 <= u < it.len() && 0 <= v < it.len() && c.clump[u] is Some && #[trigger] c.clump[u] == #[trigger] c.clump[v] ==>
        within(c.off[u] - c.off[v], (c.nodes[c.clump[u]->Some_0 as int].len() - 1) * lim)
    &&& forall|k: int| 0 <= k < h ==> within(#[trigger] c.posn[k], (8 + h) * lim)
}

proof fn lemma_total_update(nodes: Seq<Seq<usize>>, k: int, s: Seq<usize>, n: int)
    requires
        0 <= k < nodes.len(),
        0 <= n <= nodes.len(),
    ensures
        total(nodes.update(k, s), n) == total(nodes, n) + (if k < n { s.len() - nodes[k].len() } else { 0 }),
    decreases n,
{
    if n > 0 {
        lemma_total_update(nodes, k, s, n - 1);
    }
}

proof fn lemma_total_bound(nodes: Seq<Seq<usize>>, k: int, n: int)
    requires
        0 <= k < n <= nodes.len(),
    ensures
        nodes[k].len() <= total(nodes, n),
        0 <= total(nodes, n - 1),
    decreases n,
{
    lemma_total_nonneg(nodes, n - 1);
    if k < n - 1 {
        lemma_total_bound(nodes, k, n - 1);
    }
}

proof fn lemma_total_nonneg(nodes: Seq<Seq<usize>>, n: int)
    requires
        0 <= n <= nodes.len(),
    ensures
        0 <= total(nodes, n),
    decreases n,
{
    if n > 0 {
        lemma_total_nonneg(nodes, n - 1);
    }
}

proof fn lemma_total_pair(nodes: Seq<Seq<usize>>, a: int, b: int, n: int)
    requires
        0 <= a < n,
        0 <= b < n,
        a != b,
        n <= nodes.len(),
    ensures
        nodes[a].len() + nodes[b].len() <= total(nodes, n),
    decreases n,
{
    if a == n - 1 {
        lemma_total_bound(nodes, b, n - 1);
    } else if b == n - 1 {
        lemma_total_bound(nodes, a, n - 1);
    } else {
        lemma_total_pair(nodes, a, b, n - 1);
    }
}

proof fn lemma_offset_by(off: Seq<int>, list: Seq<usize>, n: int, d: int, u: int)
    requires
        0 <= n <= list.len(),
        list.no_duplicates(),
        forall|i: int| 0 <= i < list.len() ==> #[trigger] list[i] < off.len(),
        0 <= u < off.len(),
        off.len() <= usize::MAX,
    ensures
        offset_by(off, list, n, d).len() == off.len(),
        (exists|i: int| 0 <= i < n && list[i] == u) ==> offset_by(off, list, n, d)[u] == off[u] + d,
        !(exists|i: int| 0 <= i < n && list[i] == u) ==> offset_by(off, list, n, d)[u] == off[u],
    decreases n,
{
    if n > 0 {
        lemma_offset_by(off, list, n - 1, d, u);
        let v = list[n - 1] as int;
        if v == u {
            assert(list[n - 1] == u);
            if exists|i: int| 0 <= i < n - 1 && list[i] == u {
                let i = choose|i: int| 0 <= i < n - 1 && list[i] == u;
                assert(list[i] == list[n - 1]);
            }
        } else {
            if exists|i: int| 0 <= i < n && list[i] == u {
                let i = choose|i: int| 0 <= i < n && list[i] == u;
                assert(0 <= i < n - 1 && list[i] == u);
            }
        }
    }
}

proof fn lemma_reassigned(clump: Seq<Option<usize>>, list: Seq<usize>, n: int, t: usize, u: int)
    requires
        0 <= n <= list.len(),
        forall|i: int| 0 <= i < list.len() ==> #[trigger] list[i] < clump.len(),
        0 <= u < clump.len(),
        clump.len() <= usize::MAX,
    ensures
        reassigned(clump, list, n, t).len() == clump.len(),
        (exists|i: int| 0 <= i < n && list[i] == u) ==> reassigned(clump, list, n, t)[u] == Some(t),
        !(exists|i: int| 0 <= i < n && list[i] == u) ==> reassigned(clump, list, n, t)[u] == clump[u],
    decreases n,
{
    if n > 0 {
        lemma_reassigned(clump, list, n - 1, t, u);
        if list[n - 1] == u {
            assert(list[n - 1] == u);
        } else if exists|i: int| 0 <= i < n && list[i] == u {
            let i = choose|i: int| 0 <= i < n && list[i] == u;
            assert(0 <= i < n - 1 && list[i] == u);
        }
    }
}

proof fn lemma_mean(it: Items, off: Seq<int>, list: Seq<usize>, n: int, d: int)
    requires
        it.wf(),
        0 <= n <= list.len(),
        off.len() == it.len(),
        0 <= d,
        forall|i: int| 0 <= i < list.len() ==> (#[trigger] list[i]) < it.len() && within(off[list[i] as int], d),
    ensures
        n <= weight_of(it, list, n) <= n * 100_000_000,
        within(asked(it, off, list, n), weight_of(it, list, n) * (8 * COORD_LIMIT + d)),
    decreases n,
{
    if n > 0 {
        lemma_mean(it, off, list, n - 1, d);
        let u = list[n - 1] as int;
        let w = it.weight@[u] as int;
        let p = it.x@[u] - off[u];
        let b = 8 * COORD_LIMIT + d;
        assert(within(off[list[n - 1] as int], d));
        assert(within(p, b));
        assert(1 <= w <= 100_000_000);
        assert(within(w * p, w * b)) by (nonlinear_arith)
            requires within(p, b), w >= 1;
        let a = weight_of(it, list, n - 1);
        assert((a + w) * b == a * b + w * b) by (nonlinear_arith);
        assert(n * 100_000_000 == (n - 1) * 100_000_000 + 100_000_000) by (nonlinear_arith);
    } else {
        assert(0 * (8 * COORD_LIMIT + d) == 0);
        assert(0 * 100_000_000 == 0);
    }
}

proof fn lemma_mean_bound(a: int, w: int, b: int)
    requires
        w >= 1,
        b >= 0,
        within(a, w * b),
    ensures
        within(a / w, b),
{
    assert(-b <= a / w <= b) by (nonlinear_arith)
        requires w >= 1, -(w * b) <= a <= w * b, b >= 0;
}

/// Joining two clumps at a breach keeps the clumps sound.
proof fn lemma_joined(it: Items, c: Clumps, r: int, item: usize, left: usize, t: usize)
    requires
        it.wf(),
        sound(it, c),
        0 <= r < c.nodes.len(),
        t != r,
        item < it.len(),
        left < it.len(),
        c.clump[item as int] == Some(r as usize),
        c.clump[left as int] == Some(t),
    ensures
        sound(it, joined(it, c, r, t, c.off[left as int] + it.width@[left as int] - c.off[item as int])),
        ({
            let d = c.off[left as int] + it.width@[left as int] - c.off[item as int];
            let list = c.nodes[r];
            let off = offset_by(c.off, list, list.len() as int, d);
            let all = c.nodes[t as int] + list;
            &&& off.len() == it.len()
            &&& all.len() > 0
            &&& forall|i: int| 0 <= i < all.len() ==> (#[trigger] all[i]) < it.len() && within(off[all[i] as int], it.len() * COORD_LIMIT)
        }),
{
    let lim = COORD_LIMIT as int;
    let h = c.nodes.len() as int;
    let d = c.off[left as int] + it.width@[left as int] - c.off[item as int];
    let j = joined(it, c, r, t, d);
    let list = c.nodes[r];
    let all = c.nodes[t as int] + list;
    let n = list.len() as int;
    let off = j.off;
    let (lr, lt) = (c.nodes[r].len() as int, c.nodes[t as int].len() as int);
    assert(c.nodes[t as int].contains(left));
    assert(c.nodes[r].contains(item));
    lemma_total_pair(c.nodes, r, t as int, h);
    lemma_total_update(c.nodes, r, Seq::empty(), h);
    lemma_total_update(c.nodes.update(r, Seq::empty()), t as int, all, h);
    assert forall|u: int| 0 <= u < it.len() implies
        #[trigger] off[u] == (if c.clump[u] == Some(r as usize) { c.off[u] + d } else { c.off[u] })
        && j.clump[u] == (if c.clump[u] == Some(r as usize) { Some(t) } else { c.clump[u] }) by {
        lemma_offset_by(c.off, list, n, d, u);
        lemma_reassigned(c.clump, list, n, t, u);
        if c.clump[u] == Some(r as usize) {
            assert(c.nodes[r].contains(u as usize));
            let i = choose|i: int| 0 <= i < list.len() && list[i] == u as usize;
            assert(0 <= i < n && list[i] == u);
        } else if exists|i: int| 0 <= i < n && list[i] == u {
            let i = choose|i: int| 0 <= i < n && list[i] == u;
            assert(c.clump[c.nodes[r][i] as int] == Some(r as usize));
        }
    }
    lemma_offset_by(c.off, list, n, d, 0);
    lemma_reassigned(c.clump, list, n, t, 0);
    // The items of the joined clump.
    assert forall|i: int| 0 <= i < all.len() implies (#[trigger] all[i]) < it.len() && j.clump[all[i] as int] == Some(t) by {
        if i < lt {
            assert(all[i] == c.nodes[t as int][i]);
            assert(c.clump[all[i] as int] == Some(t));
        } else {
            assert(all[i] == c.nodes[r][i - lt]);
            assert(c.clump[all[i] as int] == Some(r as usize));
        }
        let q = off[all[i] as int];
    }
    assert(all.no_duplicates()) by {
        assert forall|a: int, b: int| 0 <= a < all.len() && 0 <= b < all.len() && a != b implies all[a] != all[b] by {
            if a < lt && b < lt {
                assert(all[a] == c.nodes[t as int][a] && all[b] == c.nodes[t as int][b]);
            } else if a >= lt && b >= lt {
                assert(all[a] == c.nodes[r][a - lt] && all[b] == c.nodes[r][b - lt]);
            } else if a < lt {
                assert(c.clump[c.nodes[t as int][a] as int] == Some(t));
                assert(c.clump[c.nodes[r][b - lt] as int] == Some(r as usize));
            } else {
                assert(c.clump[c.nodes[r][a - lt] as int] == Some(r as usize));
                assert(c.clump[c.nodes[t as int][b] as int] == Some(t));
            }
        }
    }
    assert forall|k: int| 0 <= k < h implies (#[trigger] j.nodes[k]).no_duplicates() by {
        if k == t {
            assert(j.nodes[k] == all);
        } else if k == r {
            assert(j.nodes[k] == Seq::<usize>::empty());
        } else {
            assert(j.nodes[k] == c.nodes[k]);
        }
    }
    assert forall|k: int, i: int| 0 <= k < h && 0 <= i < j.nodes[k].len() implies (#[trigger] j.nodes[k][i]) < it.len() && j.clump[j.nodes[k][i] as int] == Some(k as usize) by {
        if k == t {
            assert(j.nodes[k] == all);
        } else if k != r {
            assert(j.nodes[k] == c.nodes[k]);
            assert(c.clump[c.nodes[k][i] as int] == Some(k as usize));
            let q = off[c.nodes[k][i] as int];
        }
    }
    assert((lr + lt - 1) * lim == (lr - 1) * lim + (lt - 1) * lim + lim) by (nonlinear_arith);
    assert(0 <= (lr - 1) * lim && 0 <= (lt - 1) * lim) by (nonlinear_arith)
        requires lr >= 1, lt >= 1, lim > 0;
    assert forall|u: int| 0 <= u < it.len() implies (#[trigger] j.clump[u] matches Some(k) ==> k < h && j.nodes[k as int].contains(u as usize)) by {
        let q = off[u];
        if let Some(k) = j.clump[u] {
            if c.clump[u] == Some(r as usize) {
                let i = choose|i: int| 0 <= i < list.len() && list[i] == u as usize;
                assert(all[lt + i] == u as usize);
                assert(j.nodes[k as int] == all);
            } else {
                assert(c.nodes[k as int].contains(u as usize));
                if k == t {
                    let i = choose|i: int| 0 <= i < lt && c.nodes[t as int][i] == u as usize;
                    assert(all[i] == u as usize);
                    assert(j.nodes[k as int] == all);
                } else {
                    assert(j.nodes[k as int] == c.nodes[k as int]);
                }
            }
        }
    }
    assert forall|u: int| 0 <= u < it.len() implies (#[trigger] j.clump[u] matches Some(k) ==> within(off[u], (j.nodes[k as int].len() - 1) * lim)) by {
        let q = off[u];
        let was = c.clump[u];
        if let Some(k) = j.clump[u] {
            if was == Some(r as usize) {
                assert(c.clump[u] == c.clump[item as int]);
                assert(within(c.off[u] - c.off[item as int], (lr - 1) * lim));
                let e = c.clump[left as int];
                assert(within(c.off[left as int], (lt - 1) * lim));
                assert(j.nodes[k as int].len() == lr + lt);
            } else if k == t {
                assert(within(c.off[u], (lt - 1) * lim));
                assert(j.nodes[k as int].len() == lr + lt);
            } else {
                assert(j.nodes[k as int] == c.nodes[k as int]);
            }
        }
    }
    assert forall|u: int, v: int| 0 <= u < it.len() && 0 <= v < it.len() && j.clump[u] is Some && #[trigger] j.clump[u] == #[trigger] j.clump[v] implies
        within(off[u] - off[v], (j.nodes[j.clump[u]->Some_0 as int].len() - 1) * lim) by {
        let (q1, q2) = (off[u], off[v]);
        let (wu, wv) = (c.clump[u], c.clump[v]);
        let k = j.clump[u]->Some_0;
        let e1 = c.clump[left as int];
        let e2 = c.clump[item as int];
        if wu == Some(r as usize) && wv == Some(r as usize) {
            assert(within(c.off[u] - c.off[v], (lr - 1) * lim));
        } else if wu == Some(r as usize) {
            assert(within(c.off[u] - c.off[item as int], (lr - 1) * lim));
            assert(within(c.off[left as int] - c.off[v], (lt - 1) * lim));
        } else if wv == Some(r as usize) {
            assert(within(c.off[item as int] - c.off[v], (lr - 1) * lim));
            assert(within(c.off[u] - c.off[left as int], (lt - 1) * lim));
        } else if k == t {
            assert(within(c.off[u] - c.off[v], (lt - 1) * lim));
        } else {
            assert(j.nodes[k as int] == c.nodes[k as int]);
        }
        if k == t {
            assert(j.nodes[k as int].len() == lr + lt);
        }
    }
    // Where the joined clump lies.
    let big = (h - 1) * lim;
    assert((lr + lt - 1) * lim <= big) by (nonlinear_arith)
        requires lr + lt <= h, lim > 0, big == (h - 1) * lim;
    assert(big <= it.len() * lim) by (nonlinear_arith)
        requires h <= it.len(), lim > 0, big == (h - 1) * lim;
    assert forall|i: int| 0 <= i < all.len() implies (#[trigger] all[i]) < it.len() && within(off[all[i] as int], big) by {
        assert(j.clump[all[i] as int] == Some(t));
        assert(j.nodes[t as int].len() == lr + lt);
    }
    assert(0 <= big) by (nonlinear_arith)
        requires h >= 1, lim > 0, big == (h - 1) * lim;
    lemma_mean(it, off, all, all.len() as int, big);
    lemma_mean_bound(asked(it, off, all, all.len() as int), weight_of(it, all, all.len() as int), 8 * COORD_LIMIT + big);
    assert((8 + h) * lim == 8 * lim + big + lim) by (nonlinear_arith)
        requires big == (h - 1) * lim;
}

// ── execution ────────────────────────────────────────────────────────────────────────────────

/// Clumps of items.
struct Heap {
    nodes: Vec<Vec<usize>>,
    posn: Vec<i64>,
    off: Vec<i64>,
    clump: Vec<Option<usize>>,
}

impl Heap {
    spec fn view(&self) -> Clumps {
        Clumps {
            nodes: Seq::new(self.nodes@.len(), |k: int| self.nodes@[k]@),
            posn: Seq::new(self.posn@.len(), |k: int| self.posn@[k] as int),
            off: Seq::new(self.off@.len(), |k: int| self.off@[k] as int),
            clump: self.clump@,
        }
    }

    /// The worst breach of a clump, with the item and the left neighbour that make it.
    fn find_worst(&self, it: &Items, r: usize) -> (b: Option<(i64, usize, i64, usize, usize)>)
        requires
            it.wf(),
            sound(*it, self@),
            r < self@.nodes.len(),
        ensures
            b is Some <==> worst(*it, self@, r as int) is Some,
            b matches Some(p) ==> {
                &&& worst(*it, self@, r as int) == Some((p.0 as int, p.1, p.2 as int))
                &&& p.3 < it.len() && p.4 < it.len()
                &&& p.1 != r
                &&& self@.clump[p.3 as int] == Some(r)
                &&& self@.clump[p.4 as int] == Some(p.1)
                &&& p.2 == self@.off[p.4 as int] + it.width@[p.4 as int] - self@.off[p.3 as int]
            },
    {
        let ghost c = self@;
        let ghost lim = COORD_LIMIT as int;
        let ghost h = c.nodes.len() as int;
        let mut best: Option<(i64, usize, i64, usize, usize)> = None;
        let list = &self.nodes[r];
        assert(c.nodes[r as int] == list@);
        let mut a: usize = 0;
        while a < list.len()
            invariant
                it.wf(),
                sound(*it, c),
                c == self@,
                h == c.nodes.len(),
                lim == COORD_LIMIT,
                r < h,
                c.nodes[r as int] == list@,
                a <= list@.len(),
                best is Some <==> worst_in(*it, c, r as int, a as int) is Some,
                best matches Some(p) ==> {
                    &&& worst_in(*it, c, r as int, a as int) == Some((p.0 as int, p.1, p.2 as int))
                    &&& p.3 < it.len() && p.4 < it.len()
                    &&& p.1 != r
                    &&& c.clump[p.3 as int] == Some(r)
                    &&& c.clump[p.4 as int] == Some(p.1)
                    &&& p.2 == c.off[p.4 as int] + it.width@[p.4 as int] - c.off[p.3 as int]
                },
            decreases list@.len() - a,
        {
            let item: usize = list[a];
            assert(c.nodes[r as int][a as int] == item);
            let ghost before = worst_in(*it, c, r as int, a as int);
            let lefts = &it.left[item];
            let mut k: usize = 0;
            while k < lefts.len()
                invariant
                    it.wf(),
                    sound(*it, c),
                    c == self@,
                    h == c.nodes.len(),
                    lim == COORD_LIMIT,
                    r < h,
                    item < it.len(),
                    c.clump[item as int] == Some(r),
                    lefts@ == it.left@[item as int]@,
                    k <= lefts@.len(),
                    best is Some <==> worst_of(*it, c, r as int, item, k as int, before) is Some,
                    best matches Some(p) ==> {
                        &&& worst_of(*it, c, r as int, item, k as int, before) == Some((p.0 as int, p.1, p.2 as int))
                        &&& p.3 < it.len() && p.4 < it.len()
                        &&& p.1 != r
                        &&& c.clump[p.3 as int] == Some(r)
                        &&& c.clump[p.4 as int] == Some(p.1)
                        &&& p.2 == c.off[p.4 as int] + it.width@[p.4 as int] - c.off[p.3 as int]
                    },
                decreases lefts@.len() - k,
            {
                let left: usize = lefts[k];
                assert(it.left@[item as int]@[k as int] < it.len());
                if let Some(t) = self.clump[left] {
                    proof {
                        let e = c.clump[left as int];
                        lemma_ranges(*it, c, item as int, r as int);
                        lemma_ranges(*it, c, left as int, t as int);
                    }
                    assert(0 <= it.width@[left as int] <= COORD_LIMIT);
                    let d: i64 = self.posn[r] + self.off[item] - (self.posn[t] + self.off[left] + it.width[left]);
                    if t != r && d < 0 {
                        let by: i64 = self.off[left] + it.width[left] - self.off[item];
                        let take: bool = match best {
                            Some(p) => d < p.0,
                            None => true,
                        };
                        if take {
                            best = Some((d, t, by, item, left));
                        }
                    }
                }
                k = k + 1;
            }
            a = a + 1;
        }
        best
    }

    /// Join clump `r` to clump `t`.
    fn join(&mut self, it: &Items, r: usize, t: usize, d: i64, item: usize, left: usize)
        requires
            it.wf(),
            sound(*it, old(self)@),
            r < old(self)@.nodes.len(),
            t != r,
            item < it.len(),
            left < it.len(),
            old(self)@.clump[item as int] == Some(r),
            old(self)@.clump[left as int] == Some(t),
            d == old(self)@.off[left as int] + it.width@[left as int] - old(self)@.off[item as int],
        ensures
            sound(*it, final(self)@),
            final(self)@ == joined(*it, old(self)@, r as int, t, d as int),
            t < old(self)@.nodes.len(),
            forall|u: int| 0 <= u < it.len() && old(self)@.clump[u] is Some ==> (#[trigger] final(self)@.clump[u]) is Some,
    {
        let ghost c = self@;
        let ghost list = c.nodes[r as int];
        let ghost h = c.nodes.len() as int;
        assert(c.clump[left as int] == Some(t));
        assert(self@.nodes[t as int].contains(left));
        proof {
            lemma_joined(*it, c, r as int, item, left, t);
            lemma_total_pair(c.nodes, r as int, t as int, h);
        }
        let mut own: Vec<usize> = crate::moves::copy_list(&self.nodes[r]);
        assert(own@ == list);
        let mut i: usize = 0;
        while i < own.len()
            invariant
                it.wf(),
                sound(*it, c),
                r < h,
                t < h,
                h == c.nodes.len(),
                own@ == list,
                list == c.nodes[r as int],
                i <= own@.len(),
                self.nodes@.len() == h,
                self.posn@.len() == h,
                self@.nodes == c.nodes,
                self@.posn == c.posn,
                self.off@.len() == it.len(),
                self.clump@.len() == it.len(),
                c.off.len() == it.len(),
                self@.off == offset_by(c.off, list, i as int, d as int),
                self.clump@ == reassigned(c.clump, list, i as int, t),
                sound(*it, joined(*it, c, r as int, t, d as int)),
                item < it.len(),
                left < it.len(),
                c.clump[item as int] == Some(r),
                c.clump[left as int] == Some(t),
                d == c.off[left as int] + it.width@[left as int] - c.off[item as int],
            decreases own@.len() - i,
        {
            let u: usize = own[i];
            assert(c.nodes[r as int][i as int] == u);
            proof {
                lemma_offset_by(c.off, list, i as int, d as int, u as int);
                if exists|k: int| 0 <= k < i && list[k] == u {
                    let k = choose|k: int| 0 <= k < i && list[k] == u;
                    assert(list[k] == list[i as int]);
                    assert(c.nodes[r as int].no_duplicates());
                }
                lemma_ranges(*it, c, u as int, r as int);
                lemma_ranges(*it, c, item as int, r as int);
                lemma_ranges(*it, c, left as int, t as int);
                assert(self@.off[u as int] == c.off[u as int]);
            }
            assert(0 <= it.width@[left as int] <= COORD_LIMIT);
            let v: i64 = self.off[u] + d;
            self.off.set(u, v);
            self.clump.set(u, Some(t));
            proof {
                assert(self@.off =~= offset_by(c.off, list, i + 1, d as int));
            }
            i = i + 1;
        }
        let ghost all = c.nodes[t as int] + list;
        let none: Vec<usize> = Vec::new();
        self.nodes.set(r, none);
        assert(self@.nodes =~= c.nodes.update(r as int, Seq::empty()));
        self.nodes[t].append(&mut own);
        assert(self@.nodes =~= c.nodes.update(r as int, Seq::empty()).update(t as int, all));
        let m: i64 = self.place(it, t, Ghost(all));
        self.posn.set(t, m);
        proof {
            let j = joined(*it, c, r as int, t, d as int);
            assert(self@.posn =~= j.posn);
            assert(self@.off =~= j.off);
            assert(self@ == j);
            assert forall|u: int| 0 <= u < it.len() && c.clump[u] is Some implies (#[trigger] j.clump[u]) is Some by {
                lemma_reassigned(c.clump, list, list.len() as int, t, u);
            }
        }
    }

    /// The weighted mean of the places that a clump's items ask for.
    fn place(&self, it: &Items, t: usize, Ghost(all): Ghost<Seq<usize>>) -> (m: i64)
        requires
            it.wf(),
            t < self.nodes@.len(),
            self.nodes@[t as int]@ == all,
            self.off@.len() == it.len(),
            0 < all.len() <= it.len(),
            forall|i: int| 0 <= i < all.len() ==> (#[trigger] all[i]) < it.len() && within(self@.off[all[i] as int], it.len() * COORD_LIMIT),
        ensures
            m == mean(*it, self@.off, all),
    {
        let ghost d = it.len() * COORD_LIMIT;
        let list = &self.nodes[t];
        let mut sum: i128 = 0;
        let mut weight: i128 = 0;
        let mut i: usize = 0;
        proof {
            assert(0 <= d <= 8 * COORD_LIMIT * COORD_LIMIT) by (nonlinear_arith)
                requires d == it.len() * COORD_LIMIT, 0 <= it.len() <= 8 * COORD_LIMIT;
        }
        while i < list.len()
            invariant
                it.wf(),
                list@ == all,
                self.off@.len() == it.len(),
                0 < all.len() <= it.len(),
                d == it.len() * COORD_LIMIT,
                0 <= d <= 8 * COORD_LIMIT * COORD_LIMIT,
                forall|i: int| 0 <= i < all.len() ==> (#[trigger] all[i]) < it.len() && within(self@.off[all[i] as int], d),
                i <= all.len(),
                sum == asked(*it, self@.off, all, i as int),
                weight == weight_of(*it, all, i as int),
            decreases all.len() - i,
        {
            let u: usize = list[i];
            assert(all[i as int] == u);
            proof {
                lemma_mean(*it, self@.off, all, i as int, d);
                lemma_product_bound(*it, i as int, weight as int, d, sum as int);
                let (w, p) = (it.weight@[u as int] as int, it.x@[u as int] - self@.off[u as int]);
                assert(1 <= it.weight@[u as int] <= 100_000_000);
                assert(-8 * COORD_LIMIT <= it.x@[u as int] <= 8 * COORD_LIMIT);
                assert(within(p, 0x0400_0000_0000_0000));
                assert(within(w * p, 0x0400_0000_0000_0000int * 100_000_000)) by (nonlinear_arith)
                    requires 1 <= w <= 100_000_000, within(p, 0x0400_0000_0000_0000);
            }
            sum = sum + it.weight[u] as i128 * (it.x[u] as i128 - self.off[u] as i128);
            weight = weight + it.weight[u] as i128;
            i = i + 1;
        }
        proof {
            lemma_mean(*it, self@.off, all, all.len() as int, d);
            lemma_mean_bound(sum as int, weight as int, 8 * COORD_LIMIT + d);
            lemma_product_bound(*it, all.len() as int, weight as int, d, sum as int);
        }
        floor_div(sum, weight)
    }

    /// Settle a clump: join it to where its worst breach is, and go on with the clump it joined.
    fn settle(&mut self, it: &Items, r: usize, steps: usize)
        requires
            it.wf(),
            sound(*it, old(self)@),
            r < old(self)@.nodes.len(),
        ensures
            sound(*it, final(self)@),
            final(self)@ == settled(*it, old(self)@, r as int, steps as int),
            final(self)@.nodes.len() == old(self)@.nodes.len(),
            forall|u: int| 0 <= u < it.len() && old(self)@.clump[u] is Some ==> (#[trigger] final(self)@.clump[u]) is Some,
    {
        let ghost c = self@;
        let mut at: usize = r;
        let mut left: usize = steps;
        while left > 0
            invariant
                it.wf(),
                sound(*it, self@),
                at < self@.nodes.len(),
                c == old(self)@,
                self@.nodes.len() == c.nodes.len(),
                forall|u: int| 0 <= u < it.len() && c.clump[u] is Some ==> (#[trigger] self@.clump[u]) is Some,
                settled(*it, self@, at as int, left as int) == settled(*it, c, r as int, steps as int),
            decreases left,
        {
            match self.find_worst(it, at) {
                None => {
                    return;
                },
                Some(b) => {
                    let ghost before = self@;
                    self.join(it, at, b.1, b.2, b.3, b.4);
                    assert(self@.nodes.len() == before.nodes.len());
                    at = b.1;
                },
            }
            left = left - 1;
        }
    }
}

/// An item's offset and its clump's place are within bounds.
proof fn lemma_ranges(it: Items, c: Clumps, u: int, k: int)
    requires
        it.wf(),
        sound(it, c),
        0 <= u < it.len(),
        0 <= k <= usize::MAX,
        c.clump[u] == Some(k as usize),
    ensures
        within(c.off[u], 0x0400_0000_0000_0000),
        within(c.posn[k], 0x0400_0000_0000_0000),
        0 <= k < c.nodes.len(),
{
    let lim = COORD_LIMIT as int;
    let h = c.nodes.len() as int;
    lemma_total_bound(c.nodes, k, h);
    let n = c.nodes[k].len() as int;
    assert((n - 1) * lim <= 8 * COORD_LIMIT * COORD_LIMIT) by (nonlinear_arith)
        requires n <= 8 * COORD_LIMIT, lim == COORD_LIMIT;
    assert((8 + h) * lim <= (8 + 8 * COORD_LIMIT) * COORD_LIMIT) by (nonlinear_arith)
        requires h <= 8 * COORD_LIMIT, lim == COORD_LIMIT;
}

proof fn lemma_product_bound(it: Items, i: int, w: int, d: int, sum: int)
    requires
        it.wf(),
        0 <= i <= it.len(),
        i <= w <= i * 100_000_000,
        0 <= d <= 8 * COORD_LIMIT * COORD_LIMIT,
        within(sum, w * (8 * COORD_LIMIT + d)),
    ensures
        0 <= w <= 0x4000_0000 * 100_000_000,
        within(sum, 0x4000_0000int * 100_000_000 * 0x0400_0000_0000_0000),
{
    assert(i * 100_000_000 <= 0x4000_0000 * 100_000_000) by (nonlinear_arith)
        requires i <= 0x4000_0000;
    let b = 8 * COORD_LIMIT + d;
    assert(w * b <= (0x4000_0000 * 100_000_000) * 0x0400_0000_0000_0000) by (nonlinear_arith)
        requires 0 <= w <= 0x4000_0000 * 100_000_000, 0 <= b <= 0x0400_0000_0000_0000;
}

fn floor_div(a: i128, b: i128) -> (r: i64)
    requires
        b > 0,
        i64::MIN <= a as int / b as int <= i64::MAX,
        a > i128::MIN,
    ensures
        r == a as int / b as int,
{
    let q: i128 = if a >= 0 {
        a / b
    } else {
        let m: i128 = -a;
        let d: i128 = m / b;
        let e: i128 = m % b;
        proof {
            let (x, y) = (m as int, b as int);
            assert(x == y * (x / y) + x % y) by (nonlinear_arith)
                requires y > 0;
            assert(0 <= x % y < y) by (nonlinear_arith)
                requires y > 0;
            assert(0 <= x / y <= x) by (nonlinear_arith)
                requires y > 0, x >= 0;
            if e == 0 {
                assert((-x) / y == -(x / y)) by (nonlinear_arith)
                    requires y > 0, x == y * (x / y);
            } else {
                assert((-x) / y == -(x / y) - 1) by (nonlinear_arith)
                    requires y > 0, x == y * (x / y) + x % y, 0 < x % y < y;
            }
        }
        if e == 0 { -d } else { -d - 1 }
    };
    q as i64
}

/// Where no item reaches into its left neighbour's space, nothing moves.
pub proof fn law_without_overlap_nothing_moves(it: Items, c: Clumps, n: int)
    requires
        forall|r: int| 0 <= r < n ==> #[trigger] worst(it, c, r) is None,
    ensures
        settled_upto(it, c, n) == c,
    decreases n,
{
    if n > 0 {
        law_without_overlap_nothing_moves(it, c, n - 1);
        assert(worst(it, c, n - 1) is None);
    }
}

/// Remove the overlaps of some items: each starts in a clump of its own at a place of its own, and
/// the clumps are settled in turn. Where each item of the list ends up.
pub fn remove_overlaps(it: &Items, heads: &Vec<usize>, at: &Vec<i64>) -> (r: Vec<i64>)
    requires
        it.wf(),
        at@.len() == heads@.len(),
        heads@.no_duplicates(),
        forall|k: int| 0 <= k < heads@.len() ==> #[trigger] heads@[k] < it.len(),
        forall|k: int| 0 <= k < at@.len() ==> within(#[trigger] at@[k] as int, 8 * COORD_LIMIT as int),
    ensures
        r@.len() == heads@.len(),
        ({
            let c = settled_upto(*it, singles(*it, heads@, at@), heads@.len() as int);
            forall|k: int| 0 <= k < heads@.len() ==> c.clump[#[trigger] heads@[k] as int] is Some
                && r@[k] == c.posn[c.clump[heads@[k] as int]->Some_0 as int] + c.off[heads@[k] as int]
        }),
{
    let n: usize = it.x.len();
    let h: usize = heads.len();
    let mut clump: Vec<Option<usize>> = Vec::new();
    let mut off: Vec<i64> = Vec::new();
    let mut u: usize = 0;
    while u < n
        invariant
            u <= n,
            clump@.len() == u,
            off@.len() == u,
            forall|v: int| 0 <= v < u ==> #[trigger] clump@[v] == None::<usize>,
            forall|v: int| 0 <= v < u ==> #[trigger] off@[v] == 0,
        decreases n - u,
    {
        clump.push(None);
        off.push(0);
        u = u + 1;
    }
    let mut nodes: Vec<Vec<usize>> = Vec::new();
    let mut posn: Vec<i64> = Vec::new();
    let mut k: usize = 0;
    while k < h
        invariant
            n == it.len(),
            h == heads@.len(),
            h == at@.len(),
            heads@.no_duplicates(),
            forall|j: int| 0 <= j < h ==> #[trigger] heads@[j] < n,
            k <= h,
            clump@.len() == n,
            nodes@.len() == k,
            posn@.len() == k,
            forall|j: int| 0 <= j < k ==> (#[trigger] nodes@[j])@ == seq![heads@[j]],
            forall|j: int| 0 <= j < k ==> #[trigger] posn@[j] == at@[j],
            forall|v: int| 0 <= v < n ==> (#[trigger] clump@[v] matches Some(j) ==> j < k && heads@[j as int] == v),
            forall|j: int| 0 <= j < k ==> clump@[#[trigger] heads@[j] as int] == Some(j as usize),
        decreases h - k,
    {
        let item: usize = heads[k];
        let mut one: Vec<usize> = Vec::new();
        one.push(item);
        assert(one@ =~= seq![item]);
        nodes.push(one);
        posn.push(at[k]);
        clump.set(item, Some(k));
        k = k + 1;
    }
    let mut heap = Heap { nodes, posn, off, clump };
    let ghost c0 = singles(*it, heads@, at@);
    proof {
        lemma_start(*it, heads@, at@, heap);
    }
    let mut s: usize = 0;
    while s < h
        invariant
            it.wf(),
            h == heads@.len(),
            s <= h,
            sound(*it, heap@),
            heap@.nodes.len() == h,
            c0.nodes.len() == h,
            heap@ == settled_upto(*it, c0, s as int),
            forall|j: int| 0 <= j < h ==> #[trigger] heads@[j] < it.len(),
            forall|j: int| 0 <= j < h ==> heap@.clump[#[trigger] heads@[j] as int] is Some,
        decreases h - s,
    {
        let ghost before = heap@;
        heap.settle(it, s, h);
        proof {
            assert forall|j: int| 0 <= j < h implies heap@.clump[#[trigger] heads@[j] as int] is Some by {
                let e = before.clump[heads@[j] as int];
                assert(heap@.clump[heads@[j] as int] is Some);
            }
        }
        s = s + 1;
    }
    let mut out: Vec<i64> = Vec::new();
    let mut j: usize = 0;
    while j < h
        invariant
            it.wf(),
            h == heads@.len(),
            j <= h,
            sound(*it, heap@),
            forall|q: int| 0 <= q < h ==> #[trigger] heads@[q] < it.len(),
            forall|q: int| 0 <= q < h ==> heap@.clump[#[trigger] heads@[q] as int] is Some,
            out@.len() == j,
            forall|q: int| 0 <= q < j ==> #[trigger] out@[q] == heap@.posn[heap@.clump[heads@[q] as int]->Some_0 as int] + heap@.off[heads@[q] as int],
        decreases h - j,
    {
        let item: usize = heads[j];
        assert(heap@.clump[heads@[j as int] as int] is Some);
        match heap.clump[item] {
            Some(t) => {
                proof {
                    let e = heap@.clump[item as int];
                    lemma_ranges(*it, heap@, item as int, t as int);
                }
                out.push(heap.posn[t] + heap.off[item]);
            },
            None => {
                out.push(0);
            },
        }
        j = j + 1;
    }
    out
}

proof fn lemma_start(it: Items, heads: Seq<usize>, at: Seq<i64>, heap: Heap)
    requires
        it.wf(),
        at.len() == heads.len(),
        heads.no_duplicates(),
        heads.len() <= usize::MAX,
        forall|k: int| 0 <= k < heads.len() ==> #[trigger] heads[k] < it.len(),
        forall|k: int| 0 <= k < at.len() ==> within(#[trigger] at[k] as int, 8 * COORD_LIMIT as int),
        heap.nodes@.len() == heads.len(),
        heap.posn@.len() == heads.len(),
        heap.off@.len() == it.len(),
        heap.clump@.len() == it.len(),
        forall|j: int| 0 <= j < heads.len() ==> (#[trigger] heap.nodes@[j])@ == seq![heads[j]],
        forall|j: int| 0 <= j < heads.len() ==> #[trigger] heap.posn@[j] == at[j],
        forall|v: int| 0 <= v < it.len() ==> #[trigger] heap.off@[v] == 0,
        forall|v: int| 0 <= v < it.len() ==> (#[trigger] heap.clump@[v] matches Some(j) ==> j < heads.len() && heads[j as int] == v),
        forall|j: int| 0 <= j < heads.len() ==> heap.clump@[#[trigger] heads[j] as int] == Some(j as usize),
    ensures
        heap@ == singles(it, heads, at),
        sound(it, heap@),
        forall|j: int| 0 <= j < heads.len() ==> heap@.clump[#[trigger] heads[j] as int] is Some,
{
    let c = singles(it, heads, at);
    let h = heads.len() as int;
    assert(heap@.nodes =~= c.nodes);
    assert(heap@.posn =~= c.posn);
    assert(heap@.off =~= c.off);
    assert forall|u: int| 0 <= u < it.len() implies #[trigger] heap.clump@[u] == c.clump[u] by {
        if heads.contains(u as usize) {
            let i = choose|i: int| 0 <= i < heads.len() && heads[i] == u as usize;
            assert(heap.clump@[heads[i] as int] == Some(i as usize));
            let k = choose|k: usize| k < heads.len() && heads[k as int] == u;
            assert((i as usize) < heads.len() && heads[(i as usize) as int] == u);
            assert(heads[k as int] == heads[i]);
            assert(k == i);
        } else if let Some(j) = heap.clump@[u] {
            assert(heads[j as int] == u as usize);
        }
    }
    assert(heap.clump@ =~= c.clump);
    lemma_total_ones(c.nodes, h);
    // Heads are different numbers below the number of items.
    lemma_below_count(heads, it.len());
    let b = heap@;
    assert forall|k: int, i: int| 0 <= k < h && 0 <= i < b.nodes[k].len() implies (#[trigger] b.nodes[k][i]) < it.len() && b.clump[b.nodes[k][i] as int] == Some(k as usize) by {
        assert(b.nodes[k] == seq![heads[k]]);
    }
    assert forall|u: int| 0 <= u < it.len() implies (#[trigger] b.clump[u] matches Some(k) ==> k < h && b.nodes[k as int].contains(u as usize)) by {
        if let Some(k) = b.clump[u] {
            assert(b.nodes[k as int] == seq![heads[k as int]]);
            assert(seq![heads[k as int]][0] == u as usize);
        }
    }
    assert forall|u: int, v: int| 0 <= u < it.len() && 0 <= v < it.len() && b.clump[u] is Some && #[trigger] b.clump[u] == #[trigger] b.clump[v] implies
        within(b.off[u] - b.off[v], (b.nodes[b.clump[u]->Some_0 as int].len() - 1) * COORD_LIMIT) by {
        assert(b.nodes[b.clump[u]->Some_0 as int] == seq![heads[b.clump[u]->Some_0 as int]]);
        assert((1 - 1) * COORD_LIMIT == 0);
    }
    assert forall|u: int| 0 <= u < it.len() implies (#[trigger] b.clump[u] matches Some(k) ==> within(b.off[u], (b.nodes[k as int].len() - 1) * COORD_LIMIT)) by {
        if let Some(k) = b.clump[u] {
            assert(b.nodes[k as int] == seq![heads[k as int]]);
            assert((1 - 1) * COORD_LIMIT == 0);
        }
    }
    assert forall|k: int| 0 <= k < h implies (#[trigger] b.nodes[k]).no_duplicates() by {
        assert(b.nodes[k] == seq![heads[k]]);
    }
    assert forall|k: int| 0 <= k < h implies within(#[trigger] b.posn[k], (8 + h) * COORD_LIMIT) by {
        assert(within(at[k] as int, 8 * COORD_LIMIT as int));
        assert((8 + h) * COORD_LIMIT >= 8 * COORD_LIMIT) by (nonlinear_arith)
            requires h >= 0;
    }
}

proof fn lemma_total_ones(nodes: Seq<Seq<usize>>, n: int)
    requires
        0 <= n <= nodes.len(),
        forall|k: int| 0 <= k < nodes.len() ==> (#[trigger] nodes[k]).len() == 1,
    ensures
        total(nodes, n) == n,
    decreases n,
{
    if n > 0 {
        lemma_total_ones(nodes, n - 1);
    }
}

/// Different numbers below a bound are no more than the bound.
pub proof fn lemma_below_count(heads: Seq<usize>, n: int)
    requires
        0 <= n,
        heads.no_duplicates(),
        forall|k: int| 0 <= k < heads.len() ==> #[trigger] heads[k] < n,
    ensures
        heads.len() <= n,
{
    let p = heads.map_values(|x: usize| x as int);
    assert(p.no_duplicates()) by {
        assert forall|i: int, j: int| 0 <= i < p.len() && 0 <= j < p.len() && i != j implies p[i] != p[j] by {
            assert(heads[i] != heads[j]);
        }
    }
    p.unique_seq_to_set();
    if heads.len() > 0 {
        assert(heads[0] < n);
        vstd::set_lib::lemma_int_range(0, n);
        assert(p.to_set().subset_of(vstd::set_lib::set_int_range(0, n))) by {
            assert forall|x: int| #[trigger] p.to_set().contains(x) implies vstd::set_lib::set_int_range(0, n).contains(x) by {
                let i = choose|i: int| 0 <= i < p.len() && p[i] == x;
                assert(heads[i] < n);
            }
        }
        vstd::set_lib::lemma_len_subset(p.to_set(), vstd::set_lib::set_int_range(0, n));
    }
}

} // verus!
