//! What the length of nets is, and what a decision on it keeps.

use vstd::prelude::*;
use crate::improve::Node;
use crate::land::{ordered, Land, Pin, St};
use crate::objective::{pin_box, Kept, SKIP_NETS_LARGER_THAN};

verus! {

/// A node's centre in X, moved by the offset of a pin.
pub open spec fn pin_x(n: Node, p: Pin) -> int {
    n.left + n.width / 2 + p.ox
}

/// A node's centre in Y, moved by the offset of a pin.
pub open spec fn pin_y(n: Node, p: Pin) -> int {
    n.bottom + n.height / 2 + p.oy
}

/// Where the `k`th pin of a net lies.
pub open spec fn place_in_net(l: Land, s: St, e: int, k: int) -> (int, int) {
    let p = s.pins[l.edges@[e]@[k] as int];
    (pin_x(s.nodes[p.node as int], p), pin_y(s.nodes[p.node as int], p))
}

/// Whether a box holds every pin of a net, and has a pin on each of its four sides.
pub open spec fn hugs(l: Land, s: St, e: int, b: (int, int, int, int)) -> bool {
    let n = l.edges@[e]@.len() as int;
    &&& forall|k: int| 0 <= k < n ==> b.0 <= (#[trigger] place_in_net(l, s, e, k)).0 <= b.1 && b.2 <= place_in_net(l, s, e, k).1 <= b.3
    &&& exists|k: int| 0 <= k < n && (#[trigger] place_in_net(l, s, e, k)).0 == b.0
    &&& exists|k: int| 0 <= k < n && (#[trigger] place_in_net(l, s, e, k)).0 == b.1
    &&& exists|k: int| 0 <= k < n && (#[trigger] place_in_net(l, s, e, k)).1 == b.2
    &&& exists|k: int| 0 <= k < n && (#[trigger] place_in_net(l, s, e, k)).1 == b.3
}

/// The box around the first `n` pins of a net holds them and has a pin on each side.
proof fn lemma_box_hugs(l: Land, s: St, e: int, n: int) -> (w: (int, int, int, int))
    requires
        1 <= n <= l.edges@[e]@.len(),
    ensures
        ({
            let b = pin_box(s, l.edges@[e]@, n);
            &&& forall|k: int| 0 <= k < n ==> b.0 <= (#[trigger] place_in_net(l, s, e, k)).0 <= b.1 && b.2 <= place_in_net(l, s, e, k).1 <= b.3
            &&& 0 <= w.0 < n && 0 <= w.1 < n && 0 <= w.2 < n && 0 <= w.3 < n
            &&& place_in_net(l, s, e, w.0).0 == b.0
            &&& place_in_net(l, s, e, w.1).0 == b.1
            &&& place_in_net(l, s, e, w.2).1 == b.2
            &&& place_in_net(l, s, e, w.3).1 == b.3
        }),
    decreases n,
{
    let list = l.edges@[e]@;
    let p = place_in_net(l, s, e, n - 1);
    assert(p == crate::objective::pin_at(s, list[n - 1]));
    if n == 1 {
        (0, 0, 0, 0)
    } else {
        let w = lemma_box_hugs(l, s, e, n - 1);
        let b = pin_box(s, list, n - 1);
        (
            if b.0 <= p.0 { w.0 } else { n - 1 },
            if b.1 >= p.0 { w.1 } else { n - 1 },
            if b.2 <= p.1 { w.2 } else { n - 1 },
            if b.3 >= p.1 { w.3 } else { n - 1 },
        )
    }
}

/// A net's length is the width and the height of the box that holds all its pins and has a pin on each side.
pub proof fn law_length_is_that_of_the_box_around_all_pins(l: Land, s: St, e: int)
    requires
        0 <= e < l.edges@.len(),
        l.edges@[e]@.len() > 0,
    ensures
        exists|b: (int, int, int, int)| #[trigger] hugs(l, s, e, b) && l.net_length(s, e) == (b.1 - b.0) + (b.3 - b.2),
        forall|b: (int, int, int, int)| #[trigger] hugs(l, s, e, b) ==> l.net_length(s, e) == (b.1 - b.0) + (b.3 - b.2),
{
    let n = l.edges@[e]@.len() as int;
    let w = lemma_box_hugs(l, s, e, n);
    let c = pin_box(s, l.edges@[e]@, n);
    assert(hugs(l, s, e, c));
    assert forall|b: (int, int, int, int)| #[trigger] hugs(l, s, e, b) implies l.net_length(s, e) == (b.1 - b.0) + (b.3 - b.2) by {
        assert(b.0 <= place_in_net(l, s, e, w.0).0 && place_in_net(l, s, e, w.1).0 <= b.1);
        assert(b.2 <= place_in_net(l, s, e, w.2).1 && place_in_net(l, s, e, w.3).1 <= b.3);
    }
}

/// A net is at least as long as any two of its pins lie apart, in X and Y together for the two outermost pairs, and has
/// no length without pins.
pub proof fn law_length_spans_any_two_pins(l: Land, s: St, e: int, j: int, k: int)
    requires
        0 <= e < l.edges@.len(),
        0 <= j < l.edges@[e]@.len(),
        0 <= k < l.edges@[e]@.len(),
    ensures
        place_in_net(l, s, e, j).0 - place_in_net(l, s, e, k).0 + (place_in_net(l, s, e, j).1 - place_in_net(l, s, e, k).1) <= l.net_length(s, e),
        place_in_net(l, s, e, j).0 - place_in_net(l, s, e, k).0 <= l.net_length(s, e),
        place_in_net(l, s, e, j).1 - place_in_net(l, s, e, k).1 <= l.net_length(s, e),
        0 <= l.net_length(s, e),
{
    let n = l.edges@[e]@.len() as int;
    let w = lemma_box_hugs(l, s, e, n);
    let (a, b) = (place_in_net(l, s, e, j), place_in_net(l, s, e, k));
}

// ── totals ───────────────────────────────────────────────────────────────────────────────────

proof fn lemma_totals(l: Land, s: St, t: St, f: int, n: int)
    requires
        0 <= n <= l.edges@.len(),
        forall|e: int| 0 <= e < l.edges@.len() && e != f ==> #[trigger] l.net_length(s, e) == l.net_length(t, e),
    ensures
        l.lengths(s, 1, n) - l.lengths(t, 1, n)
            == (if 0 <= f < n && l.edges@[f]@.len() > 1 { l.net_length(s, f) - l.net_length(t, f) } else { 0 }),
        l.counted_length(s, n) - l.counted_length(t, n)
            == (if 0 <= f < n && 1 < l.edges@[f]@.len() < 100 { l.net_length(s, f) - l.net_length(t, f) } else { 0 }),
    decreases n,
{
    if n > 0 {
        lemma_totals(l, s, t, f, n - 1);
        if n - 1 != f {
            assert(l.net_length(s, n - 1) == l.net_length(t, n - 1));
        }
    }
}

/// Where two states differ in the length of one net, the length of all nets differs by as much. What decisions count
/// differs by as much too, for a net of two to ninety-nine pins, and not at all for another.
pub proof fn law_total_follows_each_net(l: Land, s: St, t: St, f: int)
    requires
        0 <= f < l.edges@.len(),
        forall|e: int| 0 <= e < l.edges@.len() && e != f ==> #[trigger] l.net_length(s, e) == l.net_length(t, e),
    ensures
        l.wire_length(s) - l.wire_length(t) == l.net_length(s, f) - l.net_length(t, f),
        1 < l.edges@[f]@.len() < 100 ==>
            l.counted_length(s, l.edges@.len() as int) - l.counted_length(t, l.edges@.len() as int) == l.net_length(s, f) - l.net_length(t, f),
        !(1 < l.edges@[f]@.len() < 100) ==> l.counted_length(s, l.edges@.len() as int) == l.counted_length(t, l.edges@.len() as int),
{
    lemma_totals(l, s, t, f, l.edges@.len() as int);
    if l.edges@[f]@.len() == 1 {
        let a = lemma_box_hugs(l, s, f, 1);
        let b = lemma_box_hugs(l, t, f, 1);
    }
}

proof fn lemma_no_length(l: Land, s: St, n: int)
    requires
        0 <= n <= l.edges@.len(),
        forall|e: int| 0 <= e < l.edges@.len() ==> #[trigger] l.net_length(s, e) == 0,
    ensures
        l.lengths(s, 1, n) == 0,
        l.counted_length(s, n) == 0,
    decreases n,
{
    if n > 0 {
        lemma_no_length(l, s, n - 1);
        assert(l.net_length(s, n - 1) == 0);
    }
}

/// Nets without length have none together.
pub proof fn law_nothing_adds_up_to_nothing(l: Land, s: St)
    requires
        forall|e: int| 0 <= e < l.edges@.len() ==> #[trigger] l.net_length(s, e) == 0,
    ensures
        l.wire_length(s) == 0,
        l.counted_length(s, l.edges@.len() as int) == 0,
{
    lemma_no_length(l, s, l.edges@.len() as int);
}

// ── decisions ────────────────────────────────────────────────────────────────────────────────

/// Whether a net has more than one pin and not too many.
pub open spec fn is_weighed(l: Land, e: int) -> bool {
    2 <= l.edges@[e]@.len() <= SKIP_NETS_LARGER_THAN - 1
}

/// The lengths kept are those of a state, of the nets that are weighed.
pub open spec fn keeps_lengths_of(l: Land, k: Kept, s: St) -> bool {
    &&& k.edge.len() == l.edges@.len()
    &&& forall|e: int| 0 <= e < l.edges@.len() && is_weighed(l, e) ==> (#[trigger] k.edge[e]) == l.net_length(s, e)
}

/// From one state to another, only the nets that the second lists have another length.
pub open spec fn others_keep_their_length(l: Land, s0: St, s: St) -> bool {
    forall|e: int| 0 <= e < l.edges@.len() && is_weighed(l, e) && !s.nets.contains(e as usize) ==> #[trigger] l.net_length(s, e) == l.net_length(s0, e)
}

/// The lengths of the first `n` nets that are weighed, added up.
pub open spec fn weighed_length(l: Land, s: St, n: int) -> int
    decreases n,
{
    if n <= 0 { 0 } else { weighed_length(l, s, n - 1) + (if is_weighed(l, n - 1) { l.net_length(s, n - 1) } else { 0 }) }
}

proof fn lemma_gap(l: Land, s0: St, s: St, a: int, b: int)
    requires
        0 <= a <= b <= l.edges@.len(),
        others_keep_their_length(l, s0, s),
        forall|e: int| a <= e < b ==> !#[trigger] s.nets.contains(e as usize),
    ensures
        weighed_length(l, s0, b) - weighed_length(l, s0, a) == weighed_length(l, s, b) - weighed_length(l, s, a),
    decreases b,
{
    if a < b {
        lemma_gap(l, s0, s, a, b - 1);
        assert(!s.nets.contains((b - 1) as usize));
    }
}

proof fn lemma_saved(l: Land, s0: St, s: St, k: Kept, n: int, b: int)
    requires
        l.edges@.len() <= usize::MAX,
        keeps_lengths_of(l, k, s0),
        others_keep_their_length(l, s0, s),
        ordered(s.nets),
        0 <= n <= s.nets.len(),
        0 <= b <= l.edges@.len(),
        n > 0 ==> s.nets[n - 1] < b,
        n < s.nets.len() ==> b <= s.nets[n],
    ensures
        l.saved(s, k, n) == weighed_length(l, s0, b) - weighed_length(l, s, b),
    decreases n,
{
    if n == 0 {
        assert forall|e: int| 0 <= e < b implies !#[trigger] s.nets.contains(e as usize) by {
            if s.nets.contains(e as usize) {
                let i = choose|i: int| 0 <= i < s.nets.len() && s.nets[i] == e as usize;
                if i > 0 {
                    assert(s.nets[0] < s.nets[i]);
                }
            }
        }
        lemma_gap(l, s0, s, 0, b);
    } else {
        let e = s.nets[n - 1] as int;
        if n > 1 {
            assert(s.nets[n - 2] < s.nets[n - 1]);
        }
        lemma_saved(l, s0, s, k, n - 1, e);
        assert forall|f: int| e + 1 <= f < b implies !#[trigger] s.nets.contains(f as usize) by {
            if s.nets.contains(f as usize) {
                let i = choose|i: int| 0 <= i < s.nets.len() && s.nets[i] == f as usize;
                if i < n - 1 {
                    assert(s.nets[i] < s.nets[n - 1]);
                } else if i > n {
                    assert(s.nets[n] < s.nets[i]);
                }
            }
        }
        lemma_gap(l, s0, s, e + 1, b);
        assert(k.edge[e] == k.edge[e]);
    }
}

/// With the lengths of a state kept, and moves listed that list every net whose length they change, the moves stay just
/// where all nets that are weighed together are no longer after them than before; and what is said to be gained is by how
/// much they are shorter. Moves that do not stay gain nothing.
pub proof fn law_moves_stay_where_nothing_gets_longer(l: Land, s0: St, s: St, k: Kept)
    requires
        l.edges@.len() <= usize::MAX,
        keeps_lengths_of(l, k, s0),
        others_keep_their_length(l, s0, s),
        ordered(s.nets),
        forall|i: int| 0 <= i < s.nets.len() ==> #[trigger] s.nets[i] < l.edges@.len(),
    ensures
        ({
            let m = l.edges@.len() as int;
            let (before, after) = (weighed_length(l, s0, m), weighed_length(l, s, m));
            let d = l.decided(s, k);
            &&& after <= before ==> d.2 == before - after && d.0.nodes == s.nodes && d.0.pins == s.pins
            &&& after > before ==> d.2 == 0 && d.0 == l.rejected(s)
        }),
{
    if s.nets.len() > 0 {
        assert(s.nets[s.nets.len() - 1] < l.edges@.len());
    }
    lemma_saved(l, s0, s, k, s.nets.len() as int, l.edges@.len() as int);
}

} // verus!
