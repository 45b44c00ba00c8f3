//! The diamond search: a best-first walk over grid points, nearest first, ties in the order in which
//! points were found.

use vstd::prelude::*;
use std::collections::HashSet;
use crate::arith::{dist, imax, imin};

verus! {

/// What a walk is about: its centre, its bounds (inclusive), and the distance of a point from the
/// centre.
pub struct Spread {
    pub cx: int,
    pub cy: int,
    pub bounds: (int, int, int, int),
    pub far: spec_fn(int, int) -> int,
}

/// Where a walk stands: the points found and not yet visited, with their distance and in the order
/// found; the points found so far; the points visited.
pub struct Front {
    pub heap: Seq<(int, int, int)>,
    pub seen: Set<(int, int)>,
    pub out: Seq<(int, int)>,
}

/// `k` is the first entry of least distance.
pub open spec fn is_first_min(h: Seq<(int, int, int)>, k: int) -> bool {
    &&& 0 <= k < h.len()
    &&& forall|j: int| 0 <= j < h.len() ==> h[k].0 <= (#[trigger] h[j]).0
    &&& forall|j: int| 0 <= j < k ==> h[k].0 < (#[trigger] h[j]).0
}

/// The first entry of least distance.
pub open spec fn first_min(h: Seq<(int, int, int)>) -> int {
    choose|k: int| is_first_min(h, k)
}

proof fn lemma_first_min_unique(h: Seq<(int, int, int)>, k: int)
    requires
        is_first_min(h, k),
    ensures
        first_min(h) == k,
{
    let m = first_min(h);
    if m < k {
        assert(h[k].0 < h[m].0);
    } else if k < m {
        assert(h[m].0 < h[k].0);
    }
}

proof fn lemma_first_min_exists(h: Seq<(int, int, int)>)
    requires
        h.len() > 0,
    ensures
        is_first_min(h, first_min(h)),
    decreases h.len(),
{
    if h.len() == 1 {
        assert(is_first_min(h, 0));
    } else {
        let t = h.drop_last();
        lemma_first_min_exists(t);
        let k = first_min(t);
        if h.last().0 < t[k].0 {
            assert forall|j: int| 0 <= j < h.len() implies h[h.len() - 1].0 <= (#[trigger] h[j]).0 by {
                if j < t.len() { assert(t[j] == h[j]); }
            }
            assert forall|j: int| 0 <= j < h.len() - 1 implies h[h.len() - 1].0 < (#[trigger] h[j]).0 by {
                assert(t[j] == h[j]);
            }
            assert(is_first_min(h, h.len() - 1));
        } else {
            assert forall|j: int| 0 <= j < h.len() implies h[k].0 <= (#[trigger] h[j]).0 by {
                if j < t.len() { assert(t[j] == h[j]); }
            }
            assert forall|j: int| 0 <= j < k implies h[k].0 < (#[trigger] h[j]).0 by {
                assert(t[j] == h[j]);
            }
            assert(is_first_min(h, k));
        }
    }
}

impl Spread {
    /// Whether a point lies within the bounds.
    pub open spec fn holds(self, x: int, y: int) -> bool {
        self.bounds.0 <= x <= self.bounds.2 && self.bounds.1 <= y <= self.bounds.3
    }

    pub open spec fn start(self) -> Front {
        Front { heap: seq![(0, self.cx, self.cy)], seen: set![(self.cx, self.cy)], out: Seq::empty() }
    }

    /// A point is found, unless it was found before or lies outside the bounds.
    pub open spec fn find(self, f: Front, x: int, y: int) -> Front {
        if f.seen.contains((x, y)) || !self.holds(x, y) {
            f
        } else {
            Front { heap: f.heap.push(((self.far)(x, y), x, y)), seen: f.seen.insert((x, y)), ..f }
        }
    }

    /// A point's neighbours are found: west, east, south, north.
    pub open spec fn find_around(self, f: Front, x: int, y: int) -> Front {
        self.find(self.find(self.find(self.find(f, x - 1, y), x + 1, y), x, y - 1), x, y + 1)
    }

    /// The nearest point is visited.
    pub open spec fn visit(self, f: Front) -> Front {
        if f.heap.len() == 0 {
            f
        } else {
            let k = first_min(f.heap);
            let (d, x, y) = f.heap[k];
            self.find_around(Front { heap: f.heap.remove(k), out: f.out.push((x, y)), ..f }, x, y)
        }
    }

    /// The walk after `n` visits.
    pub open spec fn after(self, n: nat) -> Front
        decreases n,
    {
        if n == 0 { self.start() } else { self.visit(self.after((n - 1) as nat)) }
    }

    /// Whether `pts` are the points visited by a walk that ends when `limit` points are visited or
    /// none is left; the centre is visited in any case.
    pub open spec fn gives(self, pts: Seq<(int, int)>, limit: int) -> bool {
        let n = pts.len();
        &&& 1 <= n <= imax(limit, 1)
        &&& self.after(n).out == pts
        &&& n >= limit || self.after(n).heap.len() == 0
    }
}

// ── what every walk keeps ────────────────────────────────────────────────────────────────────

/// Everything found is on the heap or visited, and nothing twice; distances are those of the points.
spec fn tidy(d: Spread, f: Front) -> bool {
    &&& forall|i: int, j: int| 0 <= i < j < f.out.len() ==> f.out[i] != f.out[j]
    &&& forall|i: int, j: int| 0 <= i < j < f.heap.len() ==> ((#[trigger] f.heap[i]).1, f.heap[i].2) != ((#[trigger] f.heap[j]).1, f.heap[j].2)
    &&& forall|i: int, j: int| 0 <= i < f.out.len() && 0 <= j < f.heap.len() ==> #[trigger] f.out[i] != ((#[trigger] f.heap[j]).1, f.heap[j].2)
    &&& forall|i: int| 0 <= i < f.out.len() ==> f.seen.contains(#[trigger] f.out[i])
    &&& forall|j: int| 0 <= j < f.heap.len() ==> f.seen.contains(((#[trigger] f.heap[j]).1, f.heap[j].2))
    &&& forall|p: (int, int)| #[trigger] f.seen.contains(p) ==> p == (d.cx, d.cy) || d.holds(p.0, p.1)
    &&& forall|j: int| 0 <= j < f.heap.len() ==> (#[trigger] f.heap[j]).0 == if (f.heap[j].1, f.heap[j].2) == (d.cx, d.cy) { 0 } else { (d.far)(f.heap[j].1, f.heap[j].2) }
    &&& forall|p: (int, int)| #[trigger] f.seen.contains(p) ==> f.out.contains(p) || exists|j: int| 0 <= j < f.heap.len() && ((#[trigger] f.heap[j]).1, f.heap[j].2) == p
}

proof fn lemma_find_tidy(d: Spread, f: Front, x: int, y: int)
    requires
        tidy(d, f),
        f.seen.contains((d.cx, d.cy)),
    ensures
        tidy(d, d.find(f, x, y)),
        d.find(f, x, y).out == f.out,
        d.find(f, x, y).seen.contains((d.cx, d.cy)),
        d.holds(x, y) ==> d.find(f, x, y).seen.contains((x, y)),
        forall|p: (int, int)| #[trigger] f.seen.contains(p) ==> d.find(f, x, y).seen.contains(p),
{
    let g = d.find(f, x, y);
    if !(f.seen.contains((x, y)) || !d.holds(x, y)) {
        assert forall|i: int, j: int| 0 <= i < j < g.heap.len() implies ((#[trigger] g.heap[i]).1, g.heap[i].2) != ((#[trigger] g.heap[j]).1, g.heap[j].2) by {
            assert(g.heap[i] == f.heap[i]);
            if j < f.heap.len() {
                assert(g.heap[j] == f.heap[j]);
            }
        }
        assert forall|p: (int, int)| #[trigger] g.seen.contains(p) implies g.out.contains(p) || exists|j: int| 0 <= j < g.heap.len() && ((#[trigger] g.heap[j]).1, g.heap[j].2) == p by {
            if p == (x, y) {
                assert((g.heap[f.heap.len() as int].1, g.heap[f.heap.len() as int].2) == p);
            } else if !f.out.contains(p) {
                assert(f.seen.contains(p));
                let j = choose|j: int| 0 <= j < f.heap.len() && ((#[trigger] f.heap[j]).1, f.heap[j].2) == p;
                assert(g.heap[j] == f.heap[j]);
            }
        }
    }
}

proof fn lemma_pop_tidy(d: Spread, f: Front)
    requires
        tidy(d, f),
        f.heap.len() > 0,
    ensures
        ({
            let k = first_min(f.heap);
            let g = Front { heap: f.heap.remove(k), out: f.out.push((f.heap[k].1, f.heap[k].2)), ..f };
            tidy(d, g) && 0 <= k < f.heap.len()
        }),
{
    lemma_first_min_exists(f.heap);
    let k = first_min(f.heap);
    let p = (f.heap[k].1, f.heap[k].2);
    let g = Front { heap: f.heap.remove(k), out: f.out.push(p), ..f };
    assert forall|j: int| 0 <= j < g.heap.len() implies #[trigger] g.heap[j] == f.heap[if j < k { j } else { j + 1 }] by {}
    assert forall|i: int, j: int| 0 <= i < j < g.heap.len() implies ((#[trigger] g.heap[i]).1, g.heap[i].2) != ((#[trigger] g.heap[j]).1, g.heap[j].2) by {
        let a = if i < k { i } else { i + 1 };
        let b = if j < k { j } else { j + 1 };
        assert(f.heap[a] == g.heap[i] && f.heap[b] == g.heap[j] && a < b);
    }
    assert forall|i: int, j: int| 0 <= i < g.out.len() && 0 <= j < g.heap.len() implies #[trigger] g.out[i] != ((#[trigger] g.heap[j]).1, g.heap[j].2) by {
        let b = if j < k { j } else { j + 1 };
        assert(f.heap[b] == g.heap[j]);
        if i < f.out.len() {
            assert(g.out[i] == f.out[i]);
        } else {
            if b < k { assert((f.heap[b].1, f.heap[b].2) != (f.heap[k].1, f.heap[k].2)); } else { assert((f.heap[k].1, f.heap[k].2) != (f.heap[b].1, f.heap[b].2)); }
        }
    }
    assert forall|i: int, j: int| 0 <= i < j < g.out.len() implies g.out[i] != g.out[j] by {
        assert(g.out[i] == f.out[i]);
        if j == f.out.len() {
            assert(f.out[i] != (f.heap[k].1, f.heap[k].2));
        }
    }
    assert forall|q: (int, int)| #[trigger] g.seen.contains(q) implies g.out.contains(q) || exists|j: int| 0 <= j < g.heap.len() && ((#[trigger] g.heap[j]).1, g.heap[j].2) == q by {
        if f.out.contains(q) {
            let i = choose|i: int| 0 <= i < f.out.len() && f.out[i] == q;
            assert(g.out[i] == q);
        } else {
            let j = choose|j: int| 0 <= j < f.heap.len() && ((#[trigger] f.heap[j]).1, f.heap[j].2) == q;
            if j == k {
                assert(g.out[f.out.len() as int] == q);
            } else {
                let b = if j < k { j } else { j - 1 };
                assert(g.heap[b] == f.heap[j]);
            }
        }
    }
}

proof fn lemma_around_tidy(d: Spread, f: Front, x: int, y: int)
    requires
        tidy(d, f),
        f.seen.contains((d.cx, d.cy)),
    ensures
        tidy(d, d.find_around(f, x, y)),
        d.find_around(f, x, y).out == f.out,
        d.find_around(f, x, y).seen.contains((d.cx, d.cy)),
        forall|p: (int, int)| #[trigger] f.seen.contains(p) ==> d.find_around(f, x, y).seen.contains(p),
        d.holds(x - 1, y) ==> d.find_around(f, x, y).seen.contains((x - 1, y)),
        d.holds(x + 1, y) ==> d.find_around(f, x, y).seen.contains((x + 1, y)),
        d.holds(x, y - 1) ==> d.find_around(f, x, y).seen.contains((x, y - 1)),
        d.holds(x, y + 1) ==> d.find_around(f, x, y).seen.contains((x, y + 1)),
{
    lemma_find_tidy(d, f, x - 1, y);
    let f1 = d.find(f, x - 1, y);
    lemma_find_tidy(d, f1, x + 1, y);
    let f2 = d.find(f1, x + 1, y);
    lemma_find_tidy(d, f2, x, y - 1);
    let f3 = d.find(f2, x, y - 1);
    lemma_find_tidy(d, f3, x, y + 1);
}

proof fn lemma_after_tidy(d: Spread, n: nat)
    ensures
        tidy(d, d.after(n)),
        d.after(n).seen.contains((d.cx, d.cy)),
    decreases n,
{
    if n == 0 {
        let f = d.start();
        assert((f.heap[0].1, f.heap[0].2) == (d.cx, d.cy));
    } else {
        lemma_after_tidy(d, (n - 1) as nat);
        let f = d.after((n - 1) as nat);
        if f.heap.len() > 0 {
            lemma_pop_tidy(d, f);
            let k = first_min(f.heap);
            let g = Front { heap: f.heap.remove(k), out: f.out.push((f.heap[k].1, f.heap[k].2)), ..f };
            lemma_around_tidy(d, g, f.heap[k].1, f.heap[k].2);
        }
    }
}

/// A walk visits no point twice, and none outside its bounds but the centre.
pub proof fn law_walk_visits_once(d: Spread, n: nat)
    ensures
        d.after(n).out.no_duplicates(),
        forall|i: int| 0 <= i < d.after(n).out.len() ==> ({
            let p = #[trigger] d.after(n).out[i];
            p == (d.cx, d.cy) || d.holds(p.0, p.1)
        }),
{
    lemma_after_tidy(d, n);
    let f = d.after(n);
    assert forall|i: int, j: int| 0 <= i < f.out.len() && 0 <= j < f.out.len() && i != j implies f.out[i] != f.out[j] by {
        if i < j { assert(f.out[i] != f.out[j]); } else { assert(f.out[j] != f.out[i]); }
    }
    assert forall|i: int| 0 <= i < f.out.len() implies ({
        let p = #[trigger] f.out[i];
        p == (d.cx, d.cy) || d.holds(p.0, p.1)
    }) by {
        assert(f.seen.contains(f.out[i]));
    }
}

/// The distance of a visited point.
pub open spec fn distance_of(d: Spread, p: (int, int)) -> int {
    if p == (d.cx, d.cy) { 0 } else { (d.far)(p.0, p.1) }
}

/// The point one step nearer the centre: along x first.
pub open spec fn step_in(d: Spread, p: (int, int)) -> (int, int) {
    if p.0 < d.cx {
        (p.0 + 1, p.1)
    } else if p.0 > d.cx {
        (p.0 - 1, p.1)
    } else if p.1 < d.cy {
        (p.0, p.1 + 1)
    } else {
        (p.0, p.1 - 1)
    }
}

/// The distance never grows on the way in to the centre, and is never negative.
pub open spec fn grows_outward(d: Spread) -> bool {
    forall|p: (int, int)| #![trigger distance_of(d, p)] d.holds(p.0, p.1) && p != (d.cx, d.cy) ==> 0 <= distance_of(d, step_in(d, p)) <= distance_of(d, p)
}

/// Everything next to a visited point is found, and no point on the heap is nearer than the last
/// point visited, nor any visited point further.
spec fn settled(d: Spread, f: Front) -> bool {
    &&& forall|i: int, q: (int, int)| 0 <= i < f.out.len() && d.holds(q.0, q.1) && #[trigger] next_point(f.out[i], q) ==> f.seen.contains(q)
    &&& forall|i: int, j: int| 0 <= i < f.out.len() && 0 <= j < f.heap.len() ==> distance_of(d, #[trigger] f.out[i]) <= (#[trigger] f.heap[j]).0
    &&& forall|i: int, j: int| 0 <= i < j < f.out.len() ==> distance_of(d, #[trigger] f.out[i]) <= distance_of(d, #[trigger] f.out[j])
}

/// Two points one step apart.
pub open spec fn next_point(a: (int, int), b: (int, int)) -> bool {
    ||| a.1 == b.1 && (b.0 == a.0 - 1 || b.0 == a.0 + 1)
    ||| a.0 == b.0 && (b.1 == a.1 - 1 || b.1 == a.1 + 1)
}

/// A point not yet found is no nearer than some point on the heap.
proof fn lemma_unseen_is_further(d: Spread, f: Front, p: (int, int), rank: nat) -> (j: int)
    requires
        tidy(d, f),
        settled(d, f),
        f.seen.contains((d.cx, d.cy)),
        grows_outward(d),
        d.holds(d.cx, d.cy),
        d.holds(p.0, p.1),
        !f.seen.contains(p),
        rank == dist(p.0, d.cx) + dist(p.1, d.cy),
    ensures
        0 <= j < f.heap.len(),
        f.heap[j].0 <= distance_of(d, p),
    decreases rank,
{
    let q = step_in(d, p);
    assert(d.holds(q.0, q.1));
    assert(distance_of(d, q) <= distance_of(d, p));
    if f.seen.contains(q) {
        if f.out.contains(q) {
            let i = choose|i: int| 0 <= i < f.out.len() && f.out[i] == q;
            assert(next_point(f.out[i], p));
            assert(false);
            0
        } else {
            let j = choose|j: int| 0 <= j < f.heap.len() && ((#[trigger] f.heap[j]).1, f.heap[j].2) == q;
            assert(f.heap[j].0 == distance_of(d, q));
            j
        }
    } else {
        lemma_unseen_is_further(d, f, q, (rank - 1) as nat)
    }
}

/// Finding a point keeps the heap at least as far as the points visited.
proof fn lemma_find_far(d: Spread, f: Front, x: int, y: int, floor: int)
    requires
        forall|j: int| 0 <= j < f.heap.len() ==> floor <= (#[trigger] f.heap[j]).0,
        d.holds(x, y) && !f.seen.contains((x, y)) ==> floor <= (d.far)(x, y),
    ensures
        forall|j: int| 0 <= j < d.find(f, x, y).heap.len() ==> floor <= (#[trigger] d.find(f, x, y).heap[j]).0,
{
}

proof fn lemma_after_settled(d: Spread, n: nat)
    requires
        grows_outward(d),
        d.holds(d.cx, d.cy),
    ensures
        settled(d, d.after(n)),
    decreases n,
{
    if n > 0 {
        let f = d.after((n - 1) as nat);
        lemma_after_settled(d, (n - 1) as nat);
        lemma_after_tidy(d, (n - 1) as nat);
        if f.heap.len() > 0 {
            lemma_pop_tidy(d, f);
            lemma_first_min_exists(f.heap);
            let k = first_min(f.heap);
            let p = (f.heap[k].1, f.heap[k].2);
            let floor = f.heap[k].0;
            let g = Front { heap: f.heap.remove(k), out: f.out.push(p), ..f };
            assert(floor == distance_of(d, p));
            assert forall|q: (int, int)| d.holds(q.0, q.1) && !f.seen.contains(q) implies floor <= #[trigger] distance_of(d, q) by {
                let j = lemma_unseen_is_further(d, f, q, (dist(q.0, d.cx) + dist(q.1, d.cy)) as nat);
                assert(f.heap[k].0 <= f.heap[j].0);
            }
            assert forall|j: int| 0 <= j < g.heap.len() implies floor <= (#[trigger] g.heap[j]).0 by {
                assert(g.heap[j] == f.heap[if j < k { j } else { j + 1 }]);
            }
            let (x, y) = p;
            lemma_around_tidy(d, g, x, y);
            lemma_find_tidy(d, g, x - 1, y);
            let f1 = d.find(g, x - 1, y);
            lemma_find_tidy(d, f1, x + 1, y);
            let f2 = d.find(f1, x + 1, y);
            lemma_find_tidy(d, f2, x, y - 1);
            let f3 = d.find(f2, x, y - 1);
            assert(distance_of(d, (x - 1, y)) == distance_of(d, (x - 1, y)));
            assert forall|a: int, b: int| d.holds(a, b) && !f.seen.contains((a, b)) implies floor <= #[trigger] (d.far)(a, b) by {
                assert(floor <= distance_of(d, (a, b)));
            }
            lemma_find_far(d, g, x - 1, y, floor);
            lemma_find_far(d, f1, x + 1, y, floor);
            lemma_find_far(d, f2, x, y - 1, floor);
            lemma_find_far(d, f3, x, y + 1, floor);
            let h = d.find_around(g, x, y);
            assert(h == d.after(n));
            assert forall|i: int, q: (int, int)| 0 <= i < h.out.len() && d.holds(q.0, q.1) && #[trigger] next_point(h.out[i], q) implies h.seen.contains(q) by {
                if i < f.out.len() {
                    assert(h.out[i] == f.out[i]);
                    assert(next_point(f.out[i], q));
                    assert(f.seen.contains(q));
                    assert(g.seen.contains(q));
                } else {
                    assert(h.out[i] == p);
                }
            }
            assert forall|i: int, j: int| 0 <= i < h.out.len() && 0 <= j < h.heap.len() implies distance_of(d, #[trigger] h.out[i]) <= (#[trigger] h.heap[j]).0 by {
                assert(floor <= h.heap[j].0);
                if i < f.out.len() {
                    assert(h.out[i] == f.out[i]);
                    assert(distance_of(d, f.out[i]) <= f.heap[k].0);
                } else {
                    assert(h.out[i] == p);
                }
            }
            assert forall|i: int, j: int| 0 <= i < j < h.out.len() implies distance_of(d, #[trigger] h.out[i]) <= distance_of(d, #[trigger] h.out[j]) by {
                assert(h.out[i] == f.out[i]);
                if j < f.out.len() {
                    assert(h.out[j] == f.out[j]);
                } else {
                    assert(h.out[j] == p);
                    assert(distance_of(d, f.out[i]) <= f.heap[k].0);
                }
            }
        }
    }
}

/// Where distance never grows toward the centre, points are visited in order of distance.
pub proof fn law_walk_goes_outward(d: Spread, n: nat, i: int, j: int)
    requires
        grows_outward(d),
        d.holds(d.cx, d.cy),
        0 <= i < j < d.after(n).out.len(),
    ensures
        distance_of(d, d.after(n).out[i]) <= distance_of(d, d.after(n).out[j]),
{
    lemma_after_settled(d, n);
    let f = d.after(n);
    assert(distance_of(d, f.out[i]) <= distance_of(d, f.out[j]));
}

/// A point within the bounds that is not visited is no nearer than any point visited.
pub proof fn law_unvisited_points_are_no_nearer(d: Spread, n: nat, i: int, q: (int, int))
    requires
        grows_outward(d),
        d.holds(d.cx, d.cy),
        d.holds(q.0, q.1),
        0 <= i < d.after(n).out.len(),
        !d.after(n).out.contains(q),
    ensures
        distance_of(d, d.after(n).out[i]) <= distance_of(d, q),
{
    lemma_after_settled(d, n);
    lemma_after_tidy(d, n);
    let f = d.after(n);
    if f.seen.contains(q) {
        let j = choose|j: int| 0 <= j < f.heap.len() && ((#[trigger] f.heap[j]).1, f.heap[j].2) == q;
        assert(distance_of(d, f.out[i]) <= f.heap[j].0);
    } else {
        let j = lemma_unseen_is_further(d, f, q, (dist(q.0, d.cx) + dist(q.1, d.cy)) as nat);
        assert(distance_of(d, f.out[i]) <= f.heap[j].0);
    }
}

/// Each visit adds one point and leaves the earlier ones.
pub proof fn law_walk_extends(d: Spread, n: nat, m: nat)
    requires
        n <= m,
    ensures
        d.after(n).out.len() <= n,
        d.after(n).out.len() <= d.after(m).out.len(),
        forall|i: int| 0 <= i < d.after(n).out.len() ==> #[trigger] d.after(m).out[i] == d.after(n).out[i],
        d.after(n).heap.len() == 0 ==> d.after(m) == d.after(n),
    decreases m,
{
    if n < m {
        law_walk_extends(d, n, (m - 1) as nat);
        let f = d.after((m - 1) as nat);
        if f.heap.len() > 0 {
            let k = first_min(f.heap);
            let g = Front { heap: f.heap.remove(k), out: f.out.push((f.heap[k].1, f.heap[k].2)), ..f };
            assert(d.after(m).out == g.out);
        }
    } else if n > 0 {
        law_walk_extends(d, (n - 1) as nat, (n - 1) as nat);
        let f = d.after((n - 1) as nat);
        if f.heap.len() > 0 {
            let k = first_min(f.heap);
            let g = Front { heap: f.heap.remove(k), out: f.out.push((f.heap[k].1, f.heap[k].2)), ..f };
            assert(d.after(n).out == g.out);
        }
    }
}

/// Everything next to a visited point is found.
spec fn opened(d: Spread, f: Front) -> bool {
    forall|i: int, q: (int, int)| 0 <= i < f.out.len() && d.holds(q.0, q.1) && #[trigger] next_point(f.out[i], q) ==> f.seen.contains(q)
}

proof fn lemma_after_opened(d: Spread, n: nat)
    ensures
        opened(d, d.after(n)),
    decreases n,
{
    if n > 0 {
        lemma_after_opened(d, (n - 1) as nat);
        let f = d.after((n - 1) as nat);
        if f.heap.len() > 0 {
            let k = first_min(f.heap);
            let (x, y) = (f.heap[k].1, f.heap[k].2);
            let g = Front { heap: f.heap.remove(k), out: f.out.push((x, y)), ..f };
            let g1 = d.find(g, x - 1, y);
            let g2 = d.find(g1, x + 1, y);
            let g3 = d.find(g2, x, y - 1);
            let g4 = d.find(g3, x, y + 1);
            assert(d.after(n) == g4);
            assert forall|i: int, q: (int, int)| 0 <= i < g4.out.len() && d.holds(q.0, q.1) && #[trigger] next_point(g4.out[i], q) implies g4.seen.contains(q) by {
                if i < f.out.len() {
                    assert(next_point(f.out[i], q));
                    assert(f.seen.contains(q));
                }
            }
        }
    }
}

/// Where no point is left, every point within the bounds was found.
proof fn lemma_all_found(d: Spread, f: Front, p: (int, int), rank: nat)
    requires
        tidy(d, f),
        opened(d, f),
        f.heap.len() == 0,
        f.seen.contains((d.cx, d.cy)),
        d.holds(d.cx, d.cy),
        d.holds(p.0, p.1),
        rank == dist(p.0, d.cx) + dist(p.1, d.cy),
    ensures
        f.out.contains(p),
    decreases rank,
{
    if p != (d.cx, d.cy) {
        let q = step_in(d, p);
        assert(d.holds(q.0, q.1));
        lemma_all_found(d, f, q, (rank - 1) as nat);
        let i = choose|i: int| 0 <= i < f.out.len() && f.out[i] == q;
        assert(next_point(f.out[i], p));
    }
    assert(f.seen.contains(p));
}

/// A walk that ends before its limit has visited every point within its bounds.
pub proof fn law_walk_covers(d: Spread, pts: Seq<(int, int)>, limit: int, p: (int, int))
    requires
        d.gives(pts, limit),
        pts.len() < limit,
        d.holds(d.cx, d.cy),
        d.holds(p.0, p.1),
    ensures
        pts.contains(p),
{
    let n = pts.len();
    lemma_after_tidy(d, n);
    lemma_after_opened(d, n);
    lemma_all_found(d, d.after(n), p, (dist(p.0, d.cx) + dist(p.1, d.cy)) as nat);
}

impl Spread {
    /// How many points lie within the bounds.
    pub open spec fn room(self) -> int {
        (self.bounds.2 - self.bounds.0 + 1) * (self.bounds.3 - self.bounds.1 + 1)
    }
}

/// The place of a point among those within the bounds, column by column.
spec fn place_in(d: Spread, p: (int, int)) -> int {
    (p.0 - d.bounds.0) * (d.bounds.3 - d.bounds.1 + 1) + (p.1 - d.bounds.1)
}

proof fn lemma_place_in(d: Spread, p: (int, int), q: (int, int))
    requires
        d.holds(p.0, p.1),
        d.holds(q.0, q.1),
    ensures
        0 <= place_in(d, p) < d.room(),
        place_in(d, p) == place_in(d, q) ==> p == q,
{
    let (w, h) = (d.bounds.2 - d.bounds.0 + 1, d.bounds.3 - d.bounds.1 + 1);
    let (a, b) = (p.0 - d.bounds.0, p.1 - d.bounds.1);
    let (e, g) = (q.0 - d.bounds.0, q.1 - d.bounds.1);
    assert(0 <= a * h + b < w * h) by (nonlinear_arith)
        requires 0 <= a < w, 0 <= b < h;
    if a * h + b == e * h + g {
        assert(a == e) by (nonlinear_arith)
            requires a * h + b == e * h + g, 0 <= b < h, 0 <= g < h;
    }
}

/// A walk gives as many points as its limit, or all there are within its bounds if they are fewer.
pub proof fn law_walk_gives_all_it_may(d: Spread, pts: Seq<(int, int)>, limit: int)
    requires
        d.gives(pts, limit),
        d.holds(d.cx, d.cy),
        limit >= 1,
    ensures
        pts.len() == imin(limit, d.room()),
{
    law_walk_visits_once(d, pts.len());
    let w = d.room();
    let h = d.bounds.3 - d.bounds.1 + 1;
    let at = Seq::new(pts.len(), |i: int| place_in(d, pts[i]));
    let all = vstd::set_lib::set_int_range(0, w);
    assert forall|i: int| 0 <= i < pts.len() implies d.holds((#[trigger] pts[i]).0, pts[i].1) by {
        let p = d.after(pts.len()).out[i];
        assert(p == pts[i]);
    }
    assert forall|i: int, j: int| 0 <= i < at.len() && 0 <= j < at.len() && i != j implies at[i] != at[j] by {
        lemma_place_in(d, pts[i], pts[j]);
    }
    lemma_place_in(d, (d.cx, d.cy), (d.cx, d.cy));
    vstd::set_lib::lemma_int_range(0, w);
    at.unique_seq_to_set();
    assert(at.to_set().subset_of(all)) by {
        assert forall|v: int| at.to_set().contains(v) implies all.contains(v) by {
            let i = choose|i: int| 0 <= i < at.len() && at[i] == v;
            lemma_place_in(d, pts[i], pts[i]);
        }
    }
    vstd::set_lib::lemma_len_subset(at.to_set(), all);
    if pts.len() < limit {
        assert(all.subset_of(at.to_set())) by {
            assert forall|v: int| all.contains(v) implies at.to_set().contains(v) by {
                let p = (d.bounds.0 + v / h, d.bounds.1 + v % h);
                assert(h >= 1);
                assert(0 <= v / h < d.bounds.2 - d.bounds.0 + 1 && 0 <= v % h < h && (v / h) * h + v % h == v) by (nonlinear_arith)
                    requires 0 <= v < (d.bounds.2 - d.bounds.0 + 1) * h, h >= 1;
                law_walk_covers(d, pts, limit, p);
                let i = choose|i: int| 0 <= i < pts.len() && pts[i] == p;
                assert(at[i] == v);
            }
        }
        assert(all =~= at.to_set());
    }
}

// ── the walk itself ──────────────────────────────────────────────────────────────────────────

/// A walk under way.
pub struct DiamondWalk {
    heap: Vec<(i64, i64, i64)>,
    seen: HashSet<i128>,
    cx: i64,
    cy: i64,
    bounds: (i64, i64, i64, i64),
}

/// One number per point.
pub open spec fn code(x: int, y: int) -> int {
    x * 0x1_0000_0000_0000_0000 + y
}

/// Coordinates a walk can handle.
pub open spec fn in_reach(x: int, y: int) -> bool {
    -0x4000_0000_0000_0000 <= x <= 0x4000_0000_0000_0000 && -0x4000_0000_0000_0000 <= y <= 0x4000_0000_0000_0000
}

/// Whether a distance function gives the distances of a walk.
pub open spec fn agrees_far<F: Fn((i64, i64), (i64, i64)) -> i64>(f: F, d: Spread) -> bool {
    forall|a: (i64, i64), b: (i64, i64), r: i64| #[trigger] f.ensures((a, b), r) && a.0 == d.cx && a.1 == d.cy ==> r == (d.far)(b.0 as int, b.1 as int)
}

/// Points as mathematical ones.
pub open spec fn points(v: Seq<(i64, i64)>) -> Seq<(int, int)> {
    Seq::new(v.len(), |k: int| (v[k].0 as int, v[k].1 as int))
}

fn point_code(x: i64, y: i64) -> (r: i128)
    requires
        in_reach(x as int, y as int),
    ensures
        r == code(x as int, y as int),
{
    x as i128 * 0x1_0000_0000_0000_0000i128 + y as i128
}

proof fn lemma_code_injective(x: int, y: int, a: int, b: int)
    requires
        in_reach(x, y),
        in_reach(a, b),
        code(x, y) == code(a, b),
    ensures
        x == a,
        y == b,
{
}

/// Whether a distance function can be asked about every point of a walk.
pub open spec fn callable<F: Fn((i64, i64), (i64, i64)) -> i64>(f: F, w: &DiamondWalk) -> bool {
    forall|a: (i64, i64), b: (i64, i64)| w.asks(a, b) ==> #[trigger] f.requires((a, b))
}

impl DiamondWalk {
    /// Whether the walk may ask for the distance of `b` from `a`.
    pub closed spec fn asks(&self, a: (i64, i64), b: (i64, i64)) -> bool {
        a == (self.cx, self.cy) && self.bounds.0 <= b.0 <= self.bounds.2 && self.bounds.1 <= b.1 <= self.bounds.3
    }

    /// Two walks about the same thing.
    pub closed spec fn same_setting(&self, o: &DiamondWalk) -> bool {
        self.cx == o.cx && self.cy == o.cy && self.bounds == o.bounds
    }

    /// Walks about the same thing ask for the same distances.
    pub proof fn lemma_same_asks<F: Fn((i64, i64), (i64, i64)) -> i64>(f: F, a: &DiamondWalk, b: &DiamondWalk)
        requires
            a.same_setting(b),
            callable(f, b),
        ensures
            callable(f, a),
    {
    }

    /// The walk's centre, bounds and points are in range.
    pub closed spec fn wf(&self) -> bool {
        &&& in_reach(self.cx as int, self.cy as int)
        &&& in_reach(self.bounds.0 as int, self.bounds.1 as int)
        &&& in_reach(self.bounds.2 as int, self.bounds.3 as int)
        &&& forall|k: int| 0 <= k < self.heap@.len() ==> in_reach((#[trigger] self.heap@[k]).1 as int, self.heap@[k].2 as int)
    }

    /// Whether the walk stands where a mathematical one does.
    pub closed spec fn stands(&self, d: Spread, f: Front) -> bool {
        &&& self.cx == d.cx
        &&& self.cy == d.cy
        &&& (self.bounds.0 as int, self.bounds.1 as int, self.bounds.2 as int, self.bounds.3 as int) == d.bounds
        &&& f.heap == Seq::new(self.heap@.len(), |k: int| (self.heap@[k].0 as int, self.heap@[k].1 as int, self.heap@[k].2 as int))
        &&& forall|x: i64, y: i64| #![trigger f.seen.contains((x as int, y as int))] in_reach(x as int, y as int) ==>
            (self.seen@.contains(code(x as int, y as int) as i128) <==> f.seen.contains((x as int, y as int)))
    }

    /// A walk that begins.
    pub fn new(cx: i64, cy: i64, bounds: (i64, i64, i64, i64)) -> (r: DiamondWalk)
        requires
            in_reach(cx as int, cy as int),
            in_reach(bounds.0 as int, bounds.1 as int),
            in_reach(bounds.2 as int, bounds.3 as int),
        ensures
            r.wf(),
            forall|a: (i64, i64), b: (i64, i64)| r.asks(a, b) <==> a == (cx, cy) && bounds.0 <= b.0 <= bounds.2 && bounds.1 <= b.1 <= bounds.3,
            forall|d: Spread| #![trigger d.start()] d.cx == cx && d.cy == cy && d.bounds == (bounds.0 as int, bounds.1 as int, bounds.2 as int, bounds.3 as int) ==> r.stands(d, d.start()),
    {
        broadcast use vstd::std_specs::hash::group_hash_axioms;
        let mut heap: Vec<(i64, i64, i64)> = Vec::new();
        heap.push((0, cx, cy));
        let mut seen: HashSet<i128> = HashSet::new();
        seen.insert(point_code(cx, cy));
        let r = DiamondWalk { heap, seen, cx, cy, bounds };
        assert forall|d: Spread| #![trigger d.start()] d.cx == cx && d.cy == cy && d.bounds == (bounds.0 as int, bounds.1 as int, bounds.2 as int, bounds.3 as int) implies r.stands(d, d.start()) by {
            let f = d.start();
            assert(f.heap =~= Seq::new(r.heap@.len(), |k: int| (r.heap@[k].0 as int, r.heap@[k].1 as int, r.heap@[k].2 as int)));
            assert forall|x: i64, y: i64| #![trigger f.seen.contains((x as int, y as int))] in_reach(x as int, y as int) implies
                (r.seen@.contains(code(x as int, y as int) as i128) <==> f.seen.contains((x as int, y as int))) by {
                if code(x as int, y as int) == code(cx as int, cy as int) {
                    lemma_code_injective(x as int, y as int, cx as int, cy as int);
                }
            }
        }
        r
    }

    /// A point is found.
    fn find<F: Fn((i64, i64), (i64, i64)) -> i64>(&mut self, x: i64, y: i64, far: &F)
        requires
            old(self).wf(),
            -0x4000_0000_0000_0001 <= x <= 0x4000_0000_0000_0001,
            -0x4000_0000_0000_0001 <= y <= 0x4000_0000_0000_0001,
            callable(*far, old(self)),
        ensures
            final(self).wf(),
            final(self).same_setting(old(self)),
            forall|d: Spread, f: Front| #![trigger d.find(f, x as int, y as int)] agrees_far(*far, d) && old(self).stands(d, f) ==> final(self).stands(d, d.find(f, x as int, y as int)),
    {
        broadcast use vstd::std_specs::hash::group_hash_axioms;
        if x < self.bounds.0 || x > self.bounds.2 || y < self.bounds.1 || y > self.bounds.3 {
            return;
        }
        let c: i128 = point_code(x, y);
        if self.seen.contains(&c) {
            return;
        }
        let ghost w0 = *self;
        let dd: i64 = far((self.cx, self.cy), (x, y));
        self.seen.insert(c);
        self.heap.push((dd, x, y));
        assert forall|d: Spread, f: Front| #![trigger d.find(f, x as int, y as int)] agrees_far(*far, d) && w0.stands(d, f) implies self.stands(d, d.find(f, x as int, y as int)) by {
            assert(!f.seen.contains((x as int, y as int)));
            let g = d.find(f, x as int, y as int);
            assert(dd == (d.far)(x as int, y as int));
            assert(g.heap =~= Seq::new(self.heap@.len(), |k: int| (self.heap@[k].0 as int, self.heap@[k].1 as int, self.heap@[k].2 as int)));
            assert forall|a: i64, b: i64| #![trigger g.seen.contains((a as int, b as int))] in_reach(a as int, b as int) implies
                (self.seen@.contains(code(a as int, b as int) as i128) <==> g.seen.contains((a as int, b as int))) by {
                assert(w0.seen@.contains(code(a as int, b as int) as i128) <==> f.seen.contains((a as int, b as int)));
                if code(a as int, b as int) == code(x as int, y as int) {
                    lemma_code_injective(a as int, b as int, x as int, y as int);
                }
            }
        }
    }

    /// Visit the nearest point found and find its neighbours. `None` when none is left.
    pub fn next<F: Fn((i64, i64), (i64, i64)) -> i64>(&mut self, far: &F) -> (r: Option<(i64, i64)>)
        requires
            old(self).wf(),
            callable(*far, old(self)),
        ensures
            final(self).wf(),
            final(self).same_setting(old(self)),
            forall|d: Spread, f: Front| #![trigger old(self).stands(d, f)] agrees_far(*far, d) && old(self).stands(d, f) ==> match r {
                None => f.heap.len() == 0,
                Some(p) => f.heap.len() > 0 && final(self).stands(d, d.visit(f)) && d.visit(f).out == f.out.push((p.0 as int, p.1 as int)),
            },
            r matches Some(p) ==> in_reach(p.0 as int, p.1 as int),
    {
        if self.heap.len() == 0 {
            return None;
        }
        let ghost w0 = *self;
        let ghost h = Seq::new(self.heap@.len(), |k: int| (self.heap@[k].0 as int, self.heap@[k].1 as int, self.heap@[k].2 as int));
        let mut best: usize = 0;
        let mut i: usize = 1;
        while i < self.heap.len()
            invariant
                *self == w0,
                1 <= i <= self.heap@.len(),
                best < i,
                forall|j: int| 0 <= j < i ==> self.heap@[best as int].0 <= (#[trigger] self.heap@[j]).0,
                forall|j: int| 0 <= j < best ==> self.heap@[best as int].0 < (#[trigger] self.heap@[j]).0,
            decreases self.heap@.len() - i,
        {
            if self.heap[i].0 < self.heap[best].0 {
                best = i;
            }
            i = i + 1;
        }
        proof {
            assert forall|j: int| 0 <= j < h.len() implies h[best as int].0 <= (#[trigger] h[j]).0 by {
                assert(self.heap@[best as int].0 <= self.heap@[j].0);
            }
            assert forall|j: int| 0 <= j < best implies h[best as int].0 < (#[trigger] h[j]).0 by {
                assert(self.heap@[best as int].0 < self.heap@[j].0);
            }
            assert(is_first_min(h, best as int));
            lemma_first_min_unique(h, best as int);
        }
        let (_, x, y) = self.heap.remove(best);
        let ghost w1 = *self;
        proof {
            assert forall|k: int| 0 <= k < w1.heap@.len() implies in_reach((#[trigger] w1.heap@[k]).1 as int, w1.heap@[k].2 as int) by {
                assert(w1.heap@[k] == w0.heap@[if k < best { k } else { k + 1 }]);
            }
        }
        self.find(x - 1, y, far);
        let ghost w2 = *self;
        self.find(x + 1, y, far);
        let ghost w3 = *self;
        self.find(x, y - 1, far);
        let ghost w4 = *self;
        self.find(x, y + 1, far);
        assert forall|d: Spread, f: Front| #![trigger w0.stands(d, f)] agrees_far(*far, d) && w0.stands(d, f) implies
            self.stands(d, d.visit(f)) && d.visit(f).out == f.out.push((x as int, y as int)) && f.heap.len() > 0 by {
            assert(f.heap == h);
            let g = Front { heap: f.heap.remove(best as int), out: f.out.push((x as int, y as int)), ..f };
            assert(f.heap[best as int] == (w0.heap@[best as int].0 as int, x as int, y as int));
            assert(g.heap =~= Seq::new(w1.heap@.len(), |k: int| (w1.heap@[k].0 as int, w1.heap@[k].1 as int, w1.heap@[k].2 as int)));
            assert(w1.stands(d, g));
            let g1 = d.find(g, x - 1, y as int);
            assert(w2.stands(d, g1));
            let g2 = d.find(g1, x + 1, y as int);
            assert(w3.stands(d, g2));
            let g3 = d.find(g2, x as int, y - 1);
            assert(w4.stands(d, g3));
            let g4 = d.find(g3, x as int, y + 1);
            assert(self.stands(d, g4));
            assert(g4 == d.visit(f));
        }
        Some((x, y))
    }
}

/// The points a diamond search visits around `(cx, cy)`, in order: nearest first, equally near ones
/// in the order found, neighbours being found west, east, south, north. It ends after `limit` points
/// or when none is left within `bounds`, which are inclusive.
pub fn diamond_points<F: Fn((i64, i64), (i64, i64)) -> i64>(
    cx: i64,
    cy: i64,
    bounds: (i64, i64, i64, i64),
    dist: &F,
    limit: usize,
) -> (r: Vec<(i64, i64)>)
    requires
        in_reach(cx as int, cy as int),
        in_reach(bounds.0 as int, bounds.1 as int),
        in_reach(bounds.2 as int, bounds.3 as int),
        forall|b: (i64, i64)| bounds.0 <= b.0 <= bounds.2 && bounds.1 <= b.1 <= bounds.3 ==> #[trigger] dist.requires(((cx, cy), b)),
    ensures
        forall|d: Spread| #[trigger] agrees_far(*dist, d) && d.cx == cx && d.cy == cy && d.bounds == (bounds.0 as int, bounds.1 as int, bounds.2 as int, bounds.3 as int) ==>
            d.gives(points(r@), limit as int),
{
    let mut w = DiamondWalk::new(cx, cy, bounds);
    let mut out: Vec<(i64, i64)> = Vec::new();
    let ghost mine = |d: Spread| agrees_far(*dist, d) && d.cx == cx && d.cy == cy && d.bounds == (bounds.0 as int, bounds.1 as int, bounds.2 as int, bounds.3 as int);
    proof {
        assert forall|d: Spread| #[trigger] agrees_far(*dist, d) && mine(d) implies w.stands(d, d.after(out@.len())) && d.after(out@.len()).out == points(out@) by {
            assert(d.after(0) == d.start());
            assert(points(out@) =~= Seq::<(int, int)>::empty());
        }
    }
    loop
        invariant
            w.wf(),
            callable(*dist, &w),
            mine == (|d: Spread| agrees_far(*dist, d) && d.cx == cx && d.cy == cy && d.bounds == (bounds.0 as int, bounds.1 as int, bounds.2 as int, bounds.3 as int)),
            out@.len() == 0 || out@.len() < limit,
            forall|d: Spread| #[trigger] agrees_far(*dist, d) && mine(d) ==> w.stands(d, d.after(out@.len())) && d.after(out@.len()).out == points(out@),
        decreases imax(limit as int, 1) - out@.len(),
    {
        let ghost w0 = w;
        let ghost o0 = out@;
        match w.next(dist) {
            None => {
                proof {
                    assert forall|d: Spread| #[trigger] agrees_far(*dist, d) && mine(d) implies d.gives(points(out@), limit as int) by {
                        assert(w0.stands(d, d.after(o0.len())));
                        assert(d.after(o0.len()).heap.len() == 0);
                        if o0.len() == 0 {
                            assert(d.after(0).heap.len() == 1);
                        }
                    }
                }
                return out;
            },
            Some(p) => {
                out.push(p);
                proof {
                    DiamondWalk::lemma_same_asks(*dist, &w, &w0);
                    assert forall|d: Spread| #[trigger] agrees_far(*dist, d) && mine(d) implies w.stands(d, d.after(out@.len())) && d.after(out@.len()).out == points(out@) by {
                        assert(w0.stands(d, d.after(o0.len())));
                        assert(points(out@) =~= points(o0).push((p.0 as int, p.1 as int)));
                    }
                }
                if out.len() >= limit {
                    return out;
                }
            },
        }
    }
}

} // verus!
