//! The length of the nets, and the decision whether a move stays.

use vstd::prelude::*;
use crate::arith::{imax, imin};
use crate::improve::Node;
use crate::length_laws::{hugs, law_length_is_that_of_the_box_around_all_pins};
use crate::land::{all_below, lemma_ordered_count, node_in, Land, Live, St};
use crate::moves::{center, cleared};
use crate::rows::{small, COORD_LIMIT};
use crate::segments::lists;

verus! {

/// Nets with this many pins or more do not count.
pub const SKIP_NETS_LARGER_THAN: usize = 100;

/// The Y of a node's centre.
pub open spec fn middle(n: Node) -> int {
    n.bottom + n.height / 2
}

/// Where a pin lies.
pub open spec fn pin_at(s: St, p: usize) -> (int, int) {
    let q = s.pins[p as int];
    (center(s.nodes[q.node as int]) + q.ox, middle(s.nodes[q.node as int]) + q.oy)
}

/// The box around the first `n` pins of a list, for `n > 0`: least and greatest X, then Y.
pub open spec fn pin_box(s: St, list: Seq<usize>, n: int) -> (int, int, int, int)
    decreases n,
{
    let (x, y) = pin_at(s, list[n - 1]);
    if n <= 1 {
        (x, x, y, y)
    } else {
        let b = pin_box(s, list, n - 1);
        (imin(b.0, x), imax(b.1, x), imin(b.2, y), imax(b.3, y))
    }
}

impl Land {
    /// The half perimeter of the box around a net's pins, 0 without pins.
    pub open spec fn net_length(&self, s: St, e: int) -> int {
        let list = self.edges@[e]@;
        if list.len() == 0 {
            0
        } else {
            let b = pin_box(s, list, list.len() as int);
            (b.1 - b.0) + (b.3 - b.2)
        }
    }

    /// The lengths of the first `n` nets with more than `least` pins.
    pub open spec fn lengths(&self, s: St, least: int, n: int) -> int
        decreases n,
    {
        if n <= 0 {
            0
        } else {
            self.lengths(s, least, n - 1) + (if self.edges@[n - 1]@.len() > least { self.net_length(s, n - 1) } else { 0 })
        }
    }

    /// The length of all nets.
    pub open spec fn wire_length(&self, s: St) -> int {
        self.lengths(s, 1, self.edges@.len() as int)
    }

    /// Whether a net counts for decisions: it has pins to connect and not too many.
    pub open spec fn net_counts(&self, e: int) -> bool {
        1 < self.edges@[e]@.len() < SKIP_NETS_LARGER_THAN
    }
}

/// A net of one pin has no length, so that it does not matter whether it is counted.
pub proof fn law_single_pins_have_no_length(l: Land, s: St, n: int)
    requires
        0 <= n <= l.edges@.len(),
    ensures
        l.lengths(s, 0, n) == l.lengths(s, 1, n),
    decreases n,
{
    if n > 0 {
        law_single_pins_have_no_length(l, s, n - 1);
    }
}

impl Live {
    /// Where a pin lies.
    pub fn pin_place(&self, l: &Land, p: usize) -> (r: (i32, i32))
        requires
            l.wf(),
            l.ok(self@),
            p < self@.pins.len(),
        ensures
            (r.0 as int, r.1 as int) == pin_at(self@, p),
            -8 * COORD_LIMIT <= r.0 <= 8 * COORD_LIMIT,
            -8 * COORD_LIMIT <= r.1 <= 8 * COORD_LIMIT,
    {
        let q = &self.pins[p];
        assert(self@.pins[p as int].node < l.count() && small(self@.pins[p as int].ox as int) && small(self@.pins[p as int].oy as int));
        assert(node_in(self@.nodes[q.node as int]));
        let n: &Node = &self.nodes[q.node];
        (n.left + n.width / 2 + q.ox, n.bottom + n.height / 2 + q.oy)
    }

    /// The half perimeter of the box around a net's pins, 0 without pins.
    pub fn edge_hpwl(&self, l: &Land, e: usize) -> (r: u64)
        requires
            l.wf(),
            l.ok(self@),
            e < l.edges@.len(),
        ensures
            r == l.net_length(self@, e as int),
            forall|b: (int, int, int, int)| #[trigger] hugs(*l, self@, e as int, b) ==> r == (b.1 - b.0) + (b.3 - b.2),
            r <= 32 * COORD_LIMIT,
    {
        let list = &l.edges[e];
        assert(lists(l.edges@)[e as int] == list@);
        proof {
            if list@.len() > 0 {
                law_length_is_that_of_the_box_around_all_pins(*l, self@, e as int);
            }
        }
        if list.len() == 0 {
            return 0;
        }
        let (x, y) = self.pin_place(l, list[0]);
        let mut x0: i32 = x;
        let mut x1: i32 = x;
        let mut y0: i32 = y;
        let mut y1: i32 = y;
        let mut k: usize = 1;
        while k < list.len()
            invariant
                l.wf(),
                l.ok(self@),
                all_below(list@, self@.pins.len() as int),
                1 <= k <= list@.len(),
                (x0 as int, x1 as int, y0 as int, y1 as int) == pin_box(self@, list@, k as int),
                -8 * COORD_LIMIT <= x0 <= x1 <= 8 * COORD_LIMIT,
                -8 * COORD_LIMIT <= y0 <= y1 <= 8 * COORD_LIMIT,
            decreases list@.len() - k,
        {
            let (x, y) = self.pin_place(l, list[k]);
            if x < x0 {
                x0 = x;
            }
            if x > x1 {
                x1 = x;
            }
            if y < y0 {
                y0 = y;
            }
            if y > y1 {
                y1 = y;
            }
            k = k + 1;
        }
        (x1 as i64 - x0 as i64 + (y1 as i64 - y0 as i64)) as u64
    }

    /// The lengths of all nets with more than `least` pins.
    fn sum_lengths(&self, l: &Land, least: usize) -> (r: u64)
        requires
            l.wf(),
            l.ok(self@),
        ensures
            r == l.lengths(self@, least as int, l.edges@.len() as int),
    {
        let n: usize = l.edges.len();
        let mut sum: u64 = 0;
        let mut e: usize = 0;
        while e < n
            invariant
                l.wf(),
                l.ok(self@),
                n == l.edges@.len(),
                n <= COORD_LIMIT,
                e <= n,
                sum == l.lengths(self@, least as int, e as int),
                sum <= e * (32 * COORD_LIMIT),
            decreases n - e,
        {
            proof {
                assert((e + 1) * (32 * COORD_LIMIT) == e * (32 * COORD_LIMIT) + 32 * COORD_LIMIT) by (nonlinear_arith);
                assert(e * (32 * COORD_LIMIT) <= COORD_LIMIT * (32 * COORD_LIMIT)) by (nonlinear_arith)
                    requires e <= COORD_LIMIT;
            }
            if l.edges[e].len() > least {
                sum = sum + self.edge_hpwl(l, e);
            }
            e = e + 1;
        }
        sum
    }

    /// The length of all nets.
    pub fn total_hpwl(&self, l: &Land) -> (r: u64)
        requires
            l.wf(),
            l.ok(self@),
        ensures
            r == l.wire_length(self@),
    {
        proof {
            law_single_pins_have_no_length(*l, self@, l.edges@.len() as int);
        }
        self.sum_lengths(l, 0)
    }

    /// The length of the nets of more than one pin.
    pub fn total_hpwl_xy(&self, l: &Land) -> (r: u64)
        requires
            l.wf(),
            l.ok(self@),
        ensures
            r == l.wire_length(self@),
            r <= COORD_LIMIT * (32 * COORD_LIMIT),
    {
        proof {
            lemma_lengths_bound(*l, self, l.edges@.len() as int);
        }
        self.sum_lengths(l, 1)
    }
}

proof fn lemma_pin_box(l: Land, s: St, list: Seq<usize>, n: int)
    requires
        l.wf(),
        l.ok(s),
        all_below(list, s.pins.len() as int),
        1 <= n <= list.len(),
    ensures
        ({
            let b = pin_box(s, list, n);
            -8 * COORD_LIMIT <= b.0 <= b.1 <= 8 * COORD_LIMIT && -8 * COORD_LIMIT <= b.2 <= b.3 <= 8 * COORD_LIMIT
        }),
    decreases n,
{
    let p = list[n - 1];
    let q = s.pins[p as int];
    assert(q.node < l.count() && small(q.ox as int) && small(q.oy as int));
    assert(node_in(s.nodes[q.node as int]));
    if n > 1 {
        lemma_pin_box(l, s, list, n - 1);
    }
}

proof fn lemma_net_bound(l: Land, s: St, e: int)
    requires
        l.wf(),
        l.ok(s),
        0 <= e < l.edges@.len(),
    ensures
        0 <= l.net_length(s, e) <= 32 * COORD_LIMIT,
{
    let list = l.edges@[e]@;
    assert(lists(l.edges@)[e] == list);
    if list.len() > 0 {
        lemma_pin_box(l, s, list, list.len() as int);
    }
}

proof fn lemma_lengths_bound(l: Land, live: &Live, n: int)
    requires
        l.wf(),
        l.ok(live@),
        0 <= n <= l.edges@.len(),
    ensures
        0 <= l.lengths(live@, 1, n) <= n * (32 * COORD_LIMIT),
        n * (32 * COORD_LIMIT) <= COORD_LIMIT * (32 * COORD_LIMIT),
    decreases n,
{
    assert(n * (32 * COORD_LIMIT) <= COORD_LIMIT * (32 * COORD_LIMIT)) by (nonlinear_arith)
        requires n <= COORD_LIMIT;
    if n > 0 {
        lemma_lengths_bound(l, live, n - 1);
        lemma_net_bound(l, live@, n - 1);
        assert(n * (32 * COORD_LIMIT) == (n - 1) * (32 * COORD_LIMIT) + 32 * COORD_LIMIT) by (nonlinear_arith);
    } else {
        assert(0 * (32 * COORD_LIMIT) == 0);
    }
}

// ── decisions ────────────────────────────────────────────────────────────────────────────────

/// The length of each net at the last decision, and the nets to measure at the next one that keeps a
/// move: nets of moves that were undone wait for it too.
#[derive(Debug)]
pub struct Hpwl {
    pub edge: Vec<u64>,
    pub pending: Vec<usize>,
}

/// The lengths kept for decisions.
pub ghost struct Kept {
    pub edge: Seq<u64>,
    pub pending: Seq<usize>,
}

impl Hpwl {
    pub open spec fn view(&self) -> Kept {
        Kept { edge: self.edge@, pending: self.pending@ }
    }
}

impl Land {
    /// The lengths kept are those of nets there are.
    pub open spec fn kept_ok(&self, k: Kept) -> bool {
        &&& k.edge.len() == self.edges@.len()
        &&& forall|e: int| 0 <= e < k.edge.len() ==> #[trigger] k.edge[e] <= 32 * COORD_LIMIT
        &&& all_below(k.pending, self.edges@.len() as int)
    }

    /// The first `n` nets that count measured anew, the others as they were.
    pub open spec fn measured(&self, s: St, edge: Seq<u64>, n: int) -> Seq<u64> {
        Seq::new(edge.len(), |e: int| if e < n && self.net_counts(e) { self.net_length(s, e) as u64 } else { edge[e] })
    }

    /// The lengths of the first `n` nets that count.
    pub open spec fn counted_length(&self, s: St, n: int) -> int
        decreases n,
    {
        if n <= 0 { 0 } else { self.counted_length(s, n - 1) + (if self.net_counts(n - 1) { self.net_length(s, n - 1) } else { 0 }) }
    }

    /// By how much the first `n` touched nets that count got shorter since they were measured.
    pub open spec fn saved(&self, s: St, k: Kept, n: int) -> int
        decreases n,
    {
        if n <= 0 {
            0
        } else {
            let e = s.nets[n - 1] as int;
            self.saved(s, k, n - 1) + (if self.net_counts(e) { k.edge[e] - self.net_length(s, e) } else { 0 })
        }
    }

    /// The nets to measure, with the first `n` touched nets that count.
    pub open spec fn noted(&self, s: St, k: Kept, n: int) -> Seq<usize>
        decreases n,
    {
        if n <= 0 {
            k.pending
        } else {
            let v = self.noted(s, k, n - 1);
            if self.net_counts(s.nets[n - 1] as int) { v.push(s.nets[n - 1]) } else { v }
        }
    }

    /// The lengths after the first `n` nets of a list were measured.
    pub open spec fn updated(&self, s: St, edge: Seq<u64>, list: Seq<usize>, n: int) -> Seq<u64>
        decreases n,
    {
        if n <= 0 { edge } else { self.updated(s, edge, list, n - 1).update(list[n - 1] as int, self.net_length(s, list[n - 1] as int) as u64) }
    }

    /// The decision on the listed moves: they stay where they do not make the nets longer. The state
    /// and the lengths kept after it, and by how much the nets got shorter.
    pub open spec fn decided(&self, s: St, k: Kept) -> (St, Kept, int) {
        let n = s.nets.len() as int;
        let gain = self.saved(s, k, n);
        let pending = self.noted(s, k, n);
        if gain >= 0 {
            (cleared(s), Kept { edge: self.updated(s, k.edge, pending, pending.len() as int), pending: Seq::empty() }, gain)
        } else {
            (self.rejected(s), Kept { edge: k.edge, pending }, 0)
        }
    }
}

/// A decision never makes the nets longer than they were measured.
pub proof fn law_decisions_never_lengthen(l: Land, s: St, k: Kept)
    ensures
        l.decided(s, k).2 >= 0,
        l.saved(s, k, s.nets.len() as int) < 0 ==> l.decided(s, k).0 == l.rejected(s),
{
}

impl Hpwl {
    /// Nothing measured yet.
    pub fn new(l: &Land) -> (r: Hpwl)
        ensures
            l.kept_ok(r@),
            r@.edge == Seq::new(l.edges@.len(), |e: int| 0u64),
            r@.pending.len() == 0,
    {
        let n: usize = l.edges.len();
        let mut edge: Vec<u64> = Vec::new();
        let mut k: usize = 0;
        while k < n
            invariant
                k <= n,
                edge@.len() == k,
                forall|e: int| 0 <= e < k ==> #[trigger] edge@[e] == 0,
            decreases n - k,
        {
            edge.push(0);
            k = k + 1;
        }
        assert(edge@ =~= Seq::new(l.edges@.len(), |e: int| 0u64));
        Hpwl { edge, pending: Vec::new() }
    }

    /// Measure every net that counts. Their length.
    pub fn curr(&mut self, l: &Land, live: &Live) -> (r: i64)
        requires
            l.wf(),
            l.ok(live@),
            l.kept_ok(old(self)@),
        ensures
            l.kept_ok(final(self)@),
            final(self)@.edge == l.measured(live@, old(self)@.edge, l.edges@.len() as int),
            final(self)@.pending == old(self)@.pending,
            r == l.counted_length(live@, l.edges@.len() as int),
            0 <= r <= COORD_LIMIT * (32 * COORD_LIMIT),
    {
        let ghost e0 = self@.edge;
        let n: usize = l.edges.len();
        let mut sum: i64 = 0;
        let mut e: usize = 0;
        assert(self.edge@ =~= l.measured(live@, e0, 0));
        while e < n
            invariant
                l.wf(),
                l.ok(live@),
                l.kept_ok(self@),
                e0.len() == n,
                n == l.edges@.len(),
                n <= COORD_LIMIT,
                e <= n,
                self.edge@ == l.measured(live@, e0, e as int),
                self.pending == old(self).pending,
                sum == l.counted_length(live@, e as int),
                0 <= sum <= e * (32 * COORD_LIMIT),
                e * (32 * COORD_LIMIT) <= COORD_LIMIT * (32 * COORD_LIMIT),
            decreases n - e,
        {
            proof {
                assert((e + 1) * (32 * COORD_LIMIT) == e * (32 * COORD_LIMIT) + 32 * COORD_LIMIT) by (nonlinear_arith);
                assert((e + 1) * (32 * COORD_LIMIT) <= COORD_LIMIT * (32 * COORD_LIMIT)) by (nonlinear_arith)
                    requires e + 1 <= COORD_LIMIT;
            }
            let pins: usize = l.edges[e].len();
            if pins > 1 && pins < SKIP_NETS_LARGER_THAN {
                let h: u64 = live.edge_hpwl(l, e);
                self.edge.set(e, h);
                sum = sum + h as i64;
            }
            e = e + 1;
            assert(self.edge@ =~= l.measured(live@, e0, e as int));
        }
        sum
    }

    /// By how much the touched nets that count got shorter since they were measured. They are noted to
    /// be measured.
    pub fn delta(&mut self, l: &Land, live: &Live) -> (r: i64)
        requires
            l.wf(),
            l.ok(live@),
            l.kept_ok(old(self)@),
        ensures
            l.kept_ok(final(self)@),
            r == l.saved(live@, old(self)@, live@.nets.len() as int),
            final(self)@ == (Kept { edge: old(self)@.edge, pending: l.noted(live@, old(self)@, live@.nets.len() as int) }),
            -(COORD_LIMIT * (32 * COORD_LIMIT)) <= r <= COORD_LIMIT * (32 * COORD_LIMIT),
    {
        let ghost k0 = self@;
        proof {
            lemma_ordered_count(live@.nets, l.edges@.len() as int);
        }
        let mut sum: i64 = 0;
        let mut i: usize = 0;
        while i < live.affected_edges.len()
            invariant
                l.wf(),
                l.ok(live@),
                l.kept_ok(k0),
                l.kept_ok(self@),
                live@.nets.len() <= COORD_LIMIT,
                i <= live@.nets.len(),
                self@ == (Kept { edge: k0.edge, pending: l.noted(live@, k0, i as int) }),
                sum == l.saved(live@, k0, i as int),
                -(i * (32 * COORD_LIMIT)) <= sum <= i * (32 * COORD_LIMIT),
                i * (32 * COORD_LIMIT) <= COORD_LIMIT * (32 * COORD_LIMIT),
            decreases live@.nets.len() - i,
        {
            let e: usize = live.affected_edges[i];
            assert(live@.nets[i as int] == e);
            proof {
                assert((i + 1) * (32 * COORD_LIMIT) == i * (32 * COORD_LIMIT) + 32 * COORD_LIMIT) by (nonlinear_arith);
                assert((i + 1) * (32 * COORD_LIMIT) <= COORD_LIMIT * (32 * COORD_LIMIT)) by (nonlinear_arith)
                    requires i + 1 <= COORD_LIMIT;
            }
            let pins: usize = l.edges[e].len();
            if pins > 1 && pins < SKIP_NETS_LARGER_THAN {
                self.pending.push(e);
                assert(k0.edge[e as int] <= 32 * COORD_LIMIT);
                sum = sum + (self.edge[e] as i64 - live.edge_hpwl(l, e) as i64);
            }
            i = i + 1;
        }
        sum
    }

    /// Measure the noted nets.
    pub fn accept(&mut self, l: &Land, live: &Live)
        requires
            l.wf(),
            l.ok(live@),
            l.kept_ok(old(self)@),
        ensures
            l.kept_ok(final(self)@),
            final(self)@ == (Kept { edge: l.updated(live@, old(self)@.edge, old(self)@.pending, old(self)@.pending.len() as int), pending: Seq::empty() }),
    {
        let ghost k0 = self@;
        let mut i: usize = 0;
        while i < self.pending.len()
            invariant
                l.wf(),
                l.ok(live@),
                l.kept_ok(self@),
                self.pending@ == k0.pending,
                i <= k0.pending.len(),
                self.edge@ == l.updated(live@, k0.edge, k0.pending, i as int),
            decreases k0.pending.len() - i,
        {
            let e: usize = self.pending[i];
            let h: u64 = live.edge_hpwl(l, e);
            self.edge.set(e, h);
            i = i + 1;
        }
        self.pending = Vec::new();
        assert(self.pending@ =~= Seq::empty());
    }

    /// Decide on the listed moves: keep them where they do not make the nets longer, undo them
    /// otherwise. By how much the nets got shorter.
    pub fn decide(&mut self, l: &Land, live: &mut Live) -> (r: i64)
        requires
            l.wf(),
            l.ok(old(live)@),
            l.kept_ok(old(self)@),
        ensures
            l.ok(final(live)@),
            l.kept_ok(final(self)@),
            (final(live)@, final(self)@, r as int) == l.decided(old(live)@, old(self)@),
            r >= 0,
    {
        let gain: i64 = self.delta(l, live);
        if gain >= 0 {
            self.accept(l, live);
            live.accept_move(l);
            gain
        } else {
            live.reject_move(l);
            0
        }
    }
}

} // verus!
