//! What mirroring keeps: which nets count, which cells are tried, and when a flip stays.

use vstd::prelude::*;
use crate::fillers::turned;
use crate::mirror::{candidates_of, inst_of, is_ignored, is_longest_first, is_orient, length_keys, length_of, length_upto, measured, mirrored, pin_candidate, pins_seen, remeasured, with_new, MirrorNet, NetBox, NetPin};
use crate::regions::Box4;
use crate::sort::{in_order, Keyed, Ranked};

verus! {

// ── lengths ──────────────────────────────────────────────────────────────────────────────────

proof fn lemma_length_prefix(boxes: Seq<NetBox>, a: Seq<usize>, b: Seq<usize>, n: int)
    requires
        0 <= n <= a.len(),
    ensures
        length_upto(boxes, a + b, n) == length_upto(boxes, a, n),
    decreases n,
{
    if n > 0 {
        lemma_length_prefix(boxes, a, b, n - 1);
        assert((a + b)[n - 1] == a[n - 1]);
    }
}

proof fn lemma_length_suffix(boxes: Seq<NetBox>, a: Seq<usize>, b: Seq<usize>, n: int)
    requires
        0 <= n <= b.len(),
    ensures
        length_upto(boxes, a + b, a.len() + n) == length_of(boxes, a) + length_upto(boxes, b, n),
    decreases n,
{
    if n > 0 {
        lemma_length_suffix(boxes, a, b, n - 1);
        assert((a + b)[a.len() + n - 1] == b[n - 1]);
    } else {
        lemma_length_prefix(boxes, a, b, a.len() as int);
    }
}

/// The nets of two lists of pins are as long as those of the one and those of the other. No pin has no length. One pin
/// has the length of its net, or none where the net does not count.
pub proof fn law_lengths_add_up(boxes: Seq<NetBox>, a: Seq<usize>, b: Seq<usize>, p: usize)
    ensures
        length_of(boxes, a + b) == length_of(boxes, a) + length_of(boxes, b),
        length_of(boxes, Seq::empty()) == 0,
        length_of(boxes, seq![p]) == (if boxes[p as int].ignore { 0 } else { boxes[p as int].hpwl as int }),
{
    lemma_length_suffix(boxes, a, b, b.len() as int);
    assert(length_upto(boxes, seq![p], 0) == 0);
    assert(length_upto(boxes, seq![p], 1) == length_upto(boxes, seq![p], 0) + (if boxes[p as int].ignore { 0 } else { boxes[p as int].hpwl as int }));
}

proof fn lemma_length_grows(old_boxes: Seq<NetBox>, new_boxes: Seq<NetBox>, pins: Seq<usize>, n: int, j: int)
    requires
        0 <= n <= pins.len(),
        forall|k: int| 0 <= k < pins.len() ==> new_boxes[#[trigger] pins[k] as int].ignore == old_boxes[pins[k] as int].ignore
            && (!old_boxes[pins[k] as int].ignore ==> new_boxes[pins[k] as int].hpwl >= old_boxes[pins[k] as int].hpwl),
        0 <= j < pins.len(),
    ensures
        length_upto(new_boxes, pins, n) >= length_upto(old_boxes, pins, n),
        j < n && !old_boxes[pins[j] as int].ignore && new_boxes[pins[j] as int].hpwl > old_boxes[pins[j] as int].hpwl ==>
            length_upto(new_boxes, pins, n) > length_upto(old_boxes, pins, n),
    decreases n,
{
    if n > 0 {
        lemma_length_grows(old_boxes, new_boxes, pins, n - 1, j);
        assert(new_boxes[pins[n - 1] as int].ignore == old_boxes[pins[n - 1] as int].ignore);
    }
}

proof fn lemma_measured_keeps_mark(b: NetBox, net: int, pins: Seq<usize>, fresh: Seq<(Box4, i64)>, n: int)
    ensures
        measured(b, net, pins, fresh, n).ignore == b.ignore,
        b.ignore ==> measured(b, net, pins, fresh, n) == b,
        (forall|j: int| 0 <= j < n ==> #[trigger] pins[j] != net) ==> measured(b, net, pins, fresh, n) == b,
    decreases n,
{
    if n > 0 && !b.ignore {
        lemma_measured_keeps_mark(b, net, pins, fresh, n - 1);
        assert(pins[n - 1] == net || pins[n - 1] != net);
    }
}

proof fn lemma_measured_is_last(b: NetBox, net: int, pins: Seq<usize>, fresh: Seq<(Box4, i64)>, n: int, j: int)
    requires
        0 <= j < n <= pins.len(),
        !b.ignore,
        pins[j] == net,
        forall|k: int| j < k < n ==> #[trigger] pins[k] != net,
    ensures
        measured(b, net, pins, fresh, n).hpwl == fresh[j].1,
        measured(b, net, pins, fresh, n).bbox == fresh[j].0,
    decreases n,
{
    if n - 1 != j {
        assert(pins[n - 1] != net);
        lemma_measured_is_last(b, net, pins, fresh, n - 1, j);
    }
}

/// After a flip a net that counts has the box and the length measured last at one of the instance's pins. A net that does
/// not count, or that the instance is not on, is as it was.
pub proof fn law_measuring_reaches_the_nets_of_the_pins(boxes: Seq<NetBox>, pins: Seq<usize>, fresh: Seq<(Box4, i64)>, net: int, j: int)
    requires
        0 <= net < boxes.len(),
        fresh.len() == pins.len(),
    ensures
        remeasured(boxes, pins, fresh).len() == boxes.len(),
        remeasured(boxes, pins, fresh)[net].ignore == boxes[net].ignore,
        boxes[net].ignore || (forall|k: int| 0 <= k < pins.len() ==> #[trigger] pins[k] != net) ==> remeasured(boxes, pins, fresh)[net] == boxes[net],
        !boxes[net].ignore && 0 <= j < pins.len() && pins[j] == net && (forall|k: int| j < k < pins.len() ==> #[trigger] pins[k] != net) ==>
            remeasured(boxes, pins, fresh)[net].hpwl == fresh[j].1 && remeasured(boxes, pins, fresh)[net].bbox == fresh[j].0,
{
    lemma_measured_keeps_mark(boxes[net], net, pins, fresh, pins.len() as int);
    if !boxes[net].ignore && 0 <= j < pins.len() && pins[j] == net && (forall|k: int| j < k < pins.len() ==> #[trigger] pins[k] != net) {
        lemma_measured_is_last(boxes[net], net, pins, fresh, pins.len() as int, j);
    }
}

/// A flip that makes no net of the instance shorter, and one that counts longer, lengthens its nets: it is never kept. One
/// that makes none longer is.
pub proof fn law_lengthening_flip_lengthens(boxes: Seq<NetBox>, pins: Seq<usize>, fresh: Seq<(Box4, i64)>, j: int)
    requires
        fresh.len() == pins.len(),
        forall|k: int| 0 <= k < pins.len() ==> #[trigger] pins[k] < boxes.len(),
        0 <= j < pins.len(),
    ensures
        (forall|k: int| 0 <= k < pins.len() ==> (#[trigger] fresh[k]).1 >= boxes[pins[k] as int].hpwl)
            && !boxes[pins[j] as int].ignore && (forall|k: int| 0 <= k < pins.len() && pins[k] == pins[j] ==> (#[trigger] fresh[k]).1 > boxes[pins[j] as int].hpwl)
            ==> length_of(remeasured(boxes, pins, fresh), pins) > length_of(boxes, pins),
        (forall|k: int| 0 <= k < pins.len() ==> (#[trigger] fresh[k]).1 <= boxes[pins[k] as int].hpwl)
            ==> length_of(remeasured(boxes, pins, fresh), pins) <= length_of(boxes, pins),
{
    let after = remeasured(boxes, pins, fresh);
    let n = pins.len() as int;
    assert forall|k: int| 0 <= k < n implies after[#[trigger] pins[k] as int].ignore == boxes[pins[k] as int].ignore && (!boxes[pins[k] as int].ignore ==> exists|i: int|
        0 <= i < n && pins[i] == pins[k] && after[pins[k] as int].hpwl == (#[trigger] fresh[i]).1) by {
        let net = pins[k] as int;
        lemma_measured_keeps_mark(boxes[net], net, pins, fresh, n);
        if !boxes[net].ignore {
            let i = lemma_last_of(pins, net, n, k);
            lemma_measured_is_last(boxes[net], net, pins, fresh, n, i);
            assert(after[net].hpwl == fresh[i].1);
        }
    }
    if forall|k: int| 0 <= k < pins.len() ==> (#[trigger] fresh[k]).1 >= boxes[pins[k] as int].hpwl {
        assert forall|k: int| 0 <= k < n implies after[#[trigger] pins[k] as int].ignore == boxes[pins[k] as int].ignore
            && (!boxes[pins[k] as int].ignore ==> after[pins[k] as int].hpwl >= boxes[pins[k] as int].hpwl) by {
        }
        lemma_length_grows(boxes, after, pins, n, j);
    }
    if forall|k: int| 0 <= k < pins.len() ==> (#[trigger] fresh[k]).1 <= boxes[pins[k] as int].hpwl {
        assert forall|k: int| 0 <= k < n implies boxes[#[trigger] pins[k] as int].ignore == after[pins[k] as int].ignore
            && (!after[pins[k] as int].ignore ==> boxes[pins[k] as int].hpwl >= after[pins[k] as int].hpwl) by {
        }
        lemma_length_grows(after, boxes, pins, n, j);
    }
}

/// The last pin on the net of a pin.
proof fn lemma_last_of(pins: Seq<usize>, net: int, n: int, k: int) -> (i: int)
    requires
        0 <= k < n <= pins.len(),
        pins[k] == net,
    ensures
        k <= i < n,
        pins[i] == net,
        forall|j: int| i < j < n ==> #[trigger] pins[j] != net,
    decreases n - k,
{
    if pins[n - 1] == net {
        n - 1
    } else {
        lemma_last_of(pins, net, n - 1, k)
    }
}

// ── candidates ───────────────────────────────────────────────────────────────────────────────

/// Whether a pin lets an instance be tried: the instance is an unfixed core cell, and the pin lies on a side of the box of
/// the net, which counts.
pub open spec fn tries(nets: Seq<MirrorNet>, boxes: Seq<NetBox>, net: int, pin: int, inst: Seq<char>) -> bool {
    let (p, b) = (nets[net].pins@[pin], boxes[net].bbox);
    &&& 0 <= pin < nets[net].pins@.len()
    &&& !boxes[net].ignore
    &&& inst_of(p.iterm@) == Some(inst)
    &&& p.is_core && !p.is_fixed
    &&& p.at matches Some(q) && (q.0 == b.0 || q.0 == b.2 || q.1 == b.1 || q.1 == b.3)
}

proof fn lemma_pins_seen(pins: Seq<NetPin>, b: Box4, n: int, before: Seq<Seq<char>>, inst: Seq<char>)
    requires
        0 <= n <= pins.len(),
    ensures
        pins_seen(pins, b, n, before).contains(inst) <==> before.contains(inst) || exists|k: int| 0 <= k < n && #[trigger] pin_candidate(pins[k], b) == Some(inst),
    decreases n,
{
    if n > 0 {
        lemma_pins_seen(pins, b, n - 1, before, inst);
        let s = pins_seen(pins, b, n - 1, before);
        let c = pin_candidate(pins[n - 1], b);
        assert(with_new(s, c).contains(inst) <==> s.contains(inst) || c == Some(inst)) by {
            if let Some(x) = c {
                if !s.contains(x) {
                    let t = s.push(x);
                    assert(t[s.len() as int] == x);
                    if s.contains(inst) {
                        let i = choose|i: int| 0 <= i < s.len() && s[i] == inst;
                        assert(t[i] == inst);
                    }
                    if t.contains(inst) {
                        let i = choose|i: int| 0 <= i < t.len() && t[i] == inst;
                        if i < s.len() {
                            assert(s[i] == inst);
                        }
                    }
                }
            }
        }
        if exists|k: int| 0 <= k < n && #[trigger] pin_candidate(pins[k], b) == Some(inst) {
            let k = choose|k: int| 0 <= k < n && #[trigger] pin_candidate(pins[k], b) == Some(inst);
            assert(pin_candidate(pins[k], b) == Some(inst));
        }
    }
}

/// An instance is a candidate of the first `n` nets of an order exactly where a pin of one of them lets it be tried.
pub proof fn law_candidates_have_a_pin_on_a_box(nets: Seq<MirrorNet>, boxes: Seq<NetBox>, order: Seq<usize>, n: int, inst: Seq<char>)
    requires
        0 <= n <= order.len(),
    ensures
        candidates_of(nets, boxes, order, n).contains(inst) <==> exists|i: int, pin: int| 0 <= i < n && #[trigger] tries(nets, boxes, order[i] as int, pin, inst),
    decreases n,
{
    if n > 0 {
        law_candidates_have_a_pin_on_a_box(nets, boxes, order, n - 1, inst);
        let k = order[n - 1] as int;
        let s = candidates_of(nets, boxes, order, n - 1);
        let pins = nets[k].pins@;
        if !boxes[k].ignore {
            lemma_pins_seen(pins, boxes[k].bbox, pins.len() as int, s, inst);
            if exists|q: int| 0 <= q < pins.len() && #[trigger] pin_candidate(pins[q], boxes[k].bbox) == Some(inst) {
                let q = choose|q: int| 0 <= q < pins.len() && #[trigger] pin_candidate(pins[q], boxes[k].bbox) == Some(inst);
                assert(tries(nets, boxes, order[n - 1] as int, q, inst));
            }
        }
        if exists|i: int, pin: int| 0 <= i < n && #[trigger] tries(nets, boxes, order[i] as int, pin, inst) {
            let (i, pin) = choose|i: int, pin: int| 0 <= i < n && #[trigger] tries(nets, boxes, order[i] as int, pin, inst);
            if i == n - 1 {
                assert(pin_candidate(pins[pin], boxes[k].bbox) == Some(inst));
            } else {
                assert(tries(nets, boxes, order[i] as int, pin, inst));
            }
        }
    }
}

// ── nets and orientations ────────────────────────────────────────────────────────────────────

/// A net does not count if it is power or ground, if it is special, or if it has more than a hundred pins; all others do.
pub proof fn law_supplies_and_large_nets_are_ignored(n: MirrorNet)
    ensures
        n.sig_type@ == "POWER"@ ==> is_ignored(n),
        n.sig_type@ == "GROUND"@ ==> is_ignored(n),
        n.is_special ==> is_ignored(n),
        n.pins@.len() >= 101 ==> is_ignored(n),
        n.sig_type@ != "POWER"@ && n.sig_type@ != "GROUND"@ && !n.is_special && n.pins@.len() <= 100 ==> !is_ignored(n),
{
}

/// The order of nets lists every net once, none before a longer one, and of two equal ones the earlier one first.
pub proof fn law_long_nets_come_first(boxes: Seq<NetBox>, order: Seq<usize>)
    requires
        boxes.len() <= usize::MAX,
        forall|k: int| 0 <= k < boxes.len() ==> (#[trigger] boxes[k]).hpwl > i64::MIN,
        is_longest_first(boxes, order),
    ensures
        order.len() == boxes.len(),
        forall|i: int| 0 <= i < order.len() ==> #[trigger] order[i] < boxes.len(),
        forall|i: int, j: int| 0 <= i < j < order.len() ==> boxes[(#[trigger] order[i]) as int].hpwl > boxes[(#[trigger] order[j]) as int].hpwl
            || boxes[order[i] as int].hpwl == boxes[order[j] as int].hpwl && order[i] < order[j],
        forall|n: usize| n < boxes.len() ==> #[trigger] order.contains(n),
{
    let kk = length_keys(boxes);
    let ks = choose|ks: Seq<Keyed>| #[trigger] in_order(ks) && ks.to_multiset() == kk.to_multiset()
        && order == Seq::new(ks.len(), |k: int| ks[k].pos);
    ks.to_multiset_ensures();
    kk.to_multiset_ensures();
    assert forall|i: int| 0 <= i < ks.len() implies (#[trigger] ks[i]).pos < boxes.len() && ks[i].key == -boxes[ks[i].pos as int].hpwl by {
        assert(ks.to_multiset().contains(ks[i]));
        assert(kk.to_multiset().contains(ks[i]));
        assert(kk.contains(ks[i]));
        let k = choose|k: int| 0 <= k < kk.len() && kk[k] == ks[i];
    }
    assert forall|i: int, j: int| 0 <= i < kk.len() && 0 <= j < kk.len() && i != j implies kk[i] != kk[j] by {
        assert(kk[i].pos == i && kk[j].pos == j);
    }
    assert(kk.no_duplicates());
    kk.lemma_multiset_has_no_duplicates();
    assert(ks.no_duplicates()) by {
        ks.lemma_multiset_has_no_duplicates_conv();
    }
    assert forall|i: int, j: int| 0 <= i < j < order.len() implies boxes[(#[trigger] order[i]) as int].hpwl > boxes[(#[trigger] order[j]) as int].hpwl
        || boxes[order[i] as int].hpwl == boxes[order[j] as int].hpwl && order[i] < order[j] by {
        assert(ks[i].leq(ks[j]));
        assert(ks[i] != ks[j]);
    }
    assert forall|n: usize| n < boxes.len() implies #[trigger] order.contains(n) by {
        let e = kk[n as int];
        assert(kk.contains(e));
        assert(kk.to_multiset().contains(e));
        assert(ks.contains(e));
        let k = choose|k: int| 0 <= k < ks.len() && ks[k] == e;
        assert(order[k] == n);
    }
}

/// No two orientations have one name.
pub(crate) proof fn lemma_names_differ()
    ensures
        "R0"@ != "MX"@ && "R0"@ != "MY"@ && "MX"@ != "MY"@ && "R180"@ != "R270"@ && "MXR90"@ != "MYR90"@,
        "R0"@.len() == 2 && "MX"@.len() == 2 && "MY"@.len() == 2 && "R90"@.len() == 3 && "R180"@.len() == 4 && "R270"@.len() == 4,
        "MXR90"@.len() == 5 && "MYR90"@.len() == 5,
{
    reveal_strlit("R0");
    reveal_strlit("R90");
    reveal_strlit("R180");
    reveal_strlit("R270");
    reveal_strlit("MY");
    reveal_strlit("MYR90");
    reveal_strlit("MX");
    reveal_strlit("MXR90");
    assert("R0"@[0] == 'R' && "MX"@[0] == 'M' && "MY"@[0] == 'M' && "MX"@[1] == 'X' && "MY"@[1] == 'Y');
    assert("R180"@[1] == '1' && "R270"@[1] == '2' && "MXR90"@[1] == 'X' && "MYR90"@[1] == 'Y');
}

/// A mirrored orientation turns every point to where the orientation does, mirrored about Y.
pub proof fn law_mirroring_negates_x(o: Seq<char>, x: int, y: int)
    requires
        is_orient(o),
    ensures
        is_orient(mirrored(o)),
        turned(mirrored(o), x, y).0 == -turned(o, x, y).0,
        turned(mirrored(o), x, y).1 == turned(o, x, y).1,
{
    lemma_names_differ();
}

} // verus!
