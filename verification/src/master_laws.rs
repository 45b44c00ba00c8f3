//! Which masters fill and what wires connect: what the lists made of libraries and nets hold.

use vstd::prelude::*;
use crate::fillers::{all_matches, cannot_fill, fitting, implant_of, matches_of, unmatched, FillerMaster, LibMaster, Obstruction};
use crate::globs::glob;
use crate::improve::{Kind, Node};
use crate::netlist::{named, terms_taken, wires_of, InstPin, NetInput, TermInput, TermPin, Wires};

verus! {

// ── masters that fill ────────────────────────────────────────────────────────────────────────

/// A master's implant is the layer of its first obstruction on an implant layer; it has none without such an obstruction.
pub proof fn law_the_first_implant_layer_counts(obs: Seq<Obstruction>, i: int)
    requires
        0 <= i <= obs.len(),
    ensures
        implant_of(obs, i) is None <==> forall|k: int| i <= k < obs.len() ==> (#[trigger] obs[k]).layer_type@ != "IMPLANT"@,
        implant_of(obs, i) matches Some(l) ==> exists|k: int| i <= k < obs.len() && (#[trigger] obs[k]).layer_type@ == "IMPLANT"@ && obs[k].layer == l
            && forall|j: int| i <= j < k ==> (#[trigger] obs[j]).layer_type@ != "IMPLANT"@,
    decreases obs.len() - i,
{
    if i < obs.len() {
        law_the_first_implant_layer_counts(obs, i + 1);
        if obs[i].layer_type@ != "IMPLANT"@ && implant_of(obs, i) is Some {
            let l = implant_of(obs, i)->Some_0;
            let k = choose|k: int| i + 1 <= k < obs.len() && (#[trigger] obs[k]).layer_type@ == "IMPLANT"@ && obs[k].layer == l
                && forall|j: int| i + 1 <= j < k ==> (#[trigger] obs[j]).layer_type@ != "IMPLANT"@;
            assert(obs[k].layer == l);
        }
    }
}

proof fn lemma_matches(lib: Seq<LibMaster>, pattern: Seq<char>, n: int)
    requires
        0 <= n <= lib.len(),
    ensures
        forall|i: int| #[trigger] matches_of(lib, pattern, n).contains(i) <==> 0 <= i < n && glob(pattern, lib[i].name@),
        matches_of(lib, pattern, n).no_duplicates(),
    decreases n,
{
    if n > 0 {
        lemma_matches(lib, pattern, n - 1);
        let s = matches_of(lib, pattern, n - 1);
        let t = matches_of(lib, pattern, n);
        assert forall|i: int| #[trigger] t.contains(i) <==> 0 <= i < n && glob(pattern, lib[i].name@) by {
            assert(s.contains(i) <==> 0 <= i < n - 1 && glob(pattern, lib[i].name@));
            if s.contains(i) {
                let k = choose|k: int| 0 <= k < s.len() && s[k] == i;
                assert(t[k] == i);
            }
            if t.contains(i) {
                let k = choose|k: int| 0 <= k < t.len() && t[k] == i;
                if k < s.len() {
                    assert(s[k] == i);
                }
            }
            if i == n - 1 && glob(pattern, lib[i].name@) {
                assert(t[t.len() - 1] == i);
            }
        }
        assert(!s.contains(n - 1));
    } else {
        assert(matches_of(lib, pattern, n) =~= Seq::empty());
    }
}

/// The masters asked for are all that a pattern matches by name, and no others.
pub proof fn law_masters_asked_for_match_a_pattern(lib: Seq<LibMaster>, patterns: Seq<String>, n: int, i: int)
    requires
        0 <= n <= patterns.len(),
    ensures
        all_matches(lib, patterns, n).contains(i) <==> 0 <= i < lib.len() && exists|p: int| 0 <= p < n && glob((#[trigger] patterns[p])@, lib[i].name@),
    decreases n,
{
    if n > 0 {
        law_masters_asked_for_match_a_pattern(lib, patterns, n - 1, i);
        lemma_matches(lib, patterns[n - 1]@, lib.len() as int);
        let (s, w) = (all_matches(lib, patterns, n - 1), matches_of(lib, patterns[n - 1]@, lib.len() as int));
        let t = all_matches(lib, patterns, n);
        assert(w.contains(i) <==> 0 <= i < lib.len() && glob(patterns[n - 1]@, lib[i].name@));
        if s.contains(i) {
            let k = choose|k: int| 0 <= k < s.len() && s[k] == i;
            assert(t[k] == i);
        }
        if w.contains(i) {
            let k = choose|k: int| 0 <= k < w.len() && w[k] == i;
            assert(t[s.len() + k] == i);
        }
        if t.contains(i) {
            let k = choose|k: int| 0 <= k < t.len() && t[k] == i;
            if k < s.len() {
                assert(s[k] == i);
                assert(s.contains(i));
            } else {
                assert(w[k - s.len()] == i);
                assert(w.contains(i));
                assert(glob(patterns[n - 1]@, lib[i].name@));
            }
        }
        if 0 <= i < lib.len() && exists|p: int| 0 <= p < n && glob((#[trigger] patterns[p])@, lib[i].name@) {
            let p = choose|p: int| 0 <= p < n && glob((#[trigger] patterns[p])@, lib[i].name@);
            if p < n - 1 {
                assert(exists|p: int| 0 <= p < n - 1 && glob((#[trigger] patterns[p])@, lib[i].name@));
            }
        }
    } else {
        assert(all_matches(lib, patterns, n) =~= Seq::empty());
    }
}

/// The patterns reported are those that match no master, and no others.
pub proof fn law_patterns_reported_match_nothing(lib: Seq<LibMaster>, patterns: Seq<String>, n: int)
    requires
        0 <= n <= patterns.len(),
    ensures
        forall|p: int| 0 <= p < n && (forall|i: int| 0 <= i < lib.len() ==> !glob(patterns[p]@, (#[trigger] lib[i]).name@)) ==> unmatched(lib, patterns, n).contains(#[trigger] patterns[p]),
        forall|k: int, i: int| 0 <= k < unmatched(lib, patterns, n).len() && 0 <= i < lib.len() ==> !glob((#[trigger] unmatched(lib, patterns, n)[k])@, (#[trigger] lib[i]).name@),
    decreases n,
{
    if n > 0 {
        law_patterns_reported_match_nothing(lib, patterns, n - 1);
        lemma_matches(lib, patterns[n - 1]@, lib.len() as int);
        let w = matches_of(lib, patterns[n - 1]@, lib.len() as int);
        let s = unmatched(lib, patterns, n - 1);
        let t = unmatched(lib, patterns, n);
        assert forall|p: int| 0 <= p < n && (forall|i: int| 0 <= i < lib.len() ==> !glob(patterns[p]@, (#[trigger] lib[i]).name@)) implies t.contains(#[trigger] patterns[p]) by {
            if p < n - 1 {
                assert(s.contains(patterns[p]));
                let k = choose|k: int| 0 <= k < s.len() && s[k] == patterns[p];
                assert(t[k] == patterns[p]);
            } else {
                if w.len() > 0 {
                    assert(w.contains(w[0]));
                    assert(!glob(patterns[p]@, lib[w[0]].name@));
                }
                assert(t[t.len() - 1] == patterns[p]);
            }
        }
        assert forall|k: int, i: int| 0 <= k < t.len() && 0 <= i < lib.len() implies !glob((#[trigger] t[k])@, (#[trigger] lib[i]).name@) by {
            if k < s.len() {
                assert(t[k] == s[k]);
            } else {
                assert(t[k] == patterns[n - 1]);
                if glob(patterns[n - 1]@, lib[i].name@) {
                    assert(w.contains(i));
                }
            }
        }
    }
}

proof fn lemma_cannot_fill(lib: Seq<LibMaster>, name: Seq<char>, i: int)
    requires
        0 <= i <= lib.len(),
    ensures
        cannot_fill(lib, name, i) <==> exists|k: int| i <= k < lib.len() && (#[trigger] lib[k]).name@ == name && (lib[k].is_pad || lib[k].is_block)
            && forall|j: int| i <= j < k ==> (#[trigger] lib[j]).name@ != name,
    decreases lib.len() - i,
{
    if i < lib.len() {
        lemma_cannot_fill(lib, name, i + 1);
        if lib[i].name@ == name {
            if exists|k: int| i <= k < lib.len() && (#[trigger] lib[k]).name@ == name && (lib[k].is_pad || lib[k].is_block)
                && forall|j: int| i <= j < k ==> (#[trigger] lib[j]).name@ != name {
                let k = choose|k: int| i <= k < lib.len() && (#[trigger] lib[k]).name@ == name && (lib[k].is_pad || lib[k].is_block)
                    && forall|j: int| i <= j < k ==> (#[trigger] lib[j]).name@ != name;
                if k > i {
                    assert(lib[i].name@ != name);
                }
            }
        } else if cannot_fill(lib, name, i + 1) {
            let k = choose|k: int| i + 1 <= k < lib.len() && (#[trigger] lib[k]).name@ == name && (lib[k].is_pad || lib[k].is_block)
                && forall|j: int| i + 1 <= j < k ==> (#[trigger] lib[j]).name@ != name;
            assert(lib[k].name@ == name);
        }
    }
}

/// Whether the first master of a name is a pad or a block.
pub open spec fn is_pad_or_block_by_name(lib: Seq<LibMaster>, name: Seq<char>) -> bool {
    exists|k: int| 0 <= k < lib.len() && (#[trigger] lib[k]).name@ == name && (lib[k].is_pad || lib[k].is_block)
        && forall|j: int| 0 <= j < k ==> (#[trigger] lib[j]).name@ != name
}

/// Pads and blocks do not fill: of the masters given, all others are kept, and none of those.
pub proof fn law_pads_and_blocks_do_not_fill(lib: Seq<LibMaster>, masters: Seq<FillerMaster>, n: int)
    requires
        0 <= n <= masters.len(),
    ensures
        forall|i: int| 0 <= i < n && !is_pad_or_block_by_name(lib, (#[trigger] masters[i]).name@) ==> fitting(lib, masters, n).contains(masters[i]),
        forall|k: int| 0 <= k < fitting(lib, masters, n).len() ==> !is_pad_or_block_by_name(lib, (#[trigger] fitting(lib, masters, n)[k]).name@)
            && masters.contains(fitting(lib, masters, n)[k]),
    decreases n,
{
    if n > 0 {
        law_pads_and_blocks_do_not_fill(lib, masters, n - 1);
        lemma_cannot_fill(lib, masters[n - 1].name@, 0);
        let s = fitting(lib, masters, n - 1);
        let t = fitting(lib, masters, n);
        assert forall|i: int| 0 <= i < n && !is_pad_or_block_by_name(lib, (#[trigger] masters[i]).name@) implies t.contains(masters[i]) by {
            if i < n - 1 {
                assert(s.contains(masters[i]));
                let k = choose|k: int| 0 <= k < s.len() && s[k] == masters[i];
                assert(t[k] == masters[i]);
            } else {
                assert(t[t.len() - 1] == masters[i]);
            }
        }
        assert forall|k: int| 0 <= k < t.len() implies !is_pad_or_block_by_name(lib, (#[trigger] t[k]).name@) && masters.contains(t[k]) by {
            if k < s.len() {
                assert(t[k] == s[k]);
            } else {
                assert(t[k] == masters[n - 1]);
            }
        }
    }
}

// ── wires ────────────────────────────────────────────────────────────────────────────────────

/// A name of a kind stands for the last node that has it.
pub proof fn law_a_name_is_that_of_the_last_node(nodes: Seq<Node>, kind: Kind, name: Seq<char>, n: int)
    requires
        0 <= n <= nodes.len() <= usize::MAX,
    ensures
        named(nodes, kind, name, n) is None <==> forall|k: int| 0 <= k < n ==> !((#[trigger] nodes[k]).kind == kind && nodes[k].name@ == name),
        named(nodes, kind, name, n) matches Some(i) ==> i < n && nodes[i as int].kind == kind && nodes[i as int].name@ == name
            && forall|k: int| i < k < n ==> !((#[trigger] nodes[k]).kind == kind && nodes[k].name@ == name),
    decreases n,
{
    if n > 0 {
        law_a_name_is_that_of_the_last_node(nodes, kind, name, n - 1);
    }
}

/// The terminals that become nodes are the placed ones on a net that is no supply, and no others.
pub proof fn law_placed_terminals_on_signals_are_nodes(v: Seq<TermInput>, n: int)
    requires
        0 <= n <= v.len(),
    ensures
        forall|i: int| 0 <= i < n && (#[trigger] v[i]).has_net && !v[i].supply && v[i].placed ==> terms_taken(v, n).contains(v[i]),
        forall|k: int| 0 <= k < terms_taken(v, n).len() ==> (#[trigger] terms_taken(v, n)[k]).has_net && !terms_taken(v, n)[k].supply && terms_taken(v, n)[k].placed
            && v.contains(terms_taken(v, n)[k]),
    decreases n,
{
    if n > 0 {
        law_placed_terminals_on_signals_are_nodes(v, n - 1);
        let s = terms_taken(v, n - 1);
        let t = terms_taken(v, n);
        assert forall|i: int| 0 <= i < n && (#[trigger] v[i]).has_net && !v[i].supply && v[i].placed implies t.contains(v[i]) by {
            if i < n - 1 {
                assert(s.contains(v[i]));
                let k = choose|k: int| 0 <= k < s.len() && s[k] == v[i];
                assert(t[k] == v[i]);
            } else {
                assert(t[t.len() - 1] == v[i]);
            }
        }
        assert forall|k: int| 0 <= k < t.len() implies (#[trigger] t[k]).has_net && !t[k].supply && t[k].placed && v.contains(t[k]) by {
            if k < s.len() {
                assert(t[k] == s[k]);
            } else {
                assert(t[k] == v[n - 1]);
            }
        }
    }
}

/// The pins of a net: those of a net that is done, and those of the net at work.
pub open spec fn net_pins(w: Wires, e: int) -> Seq<usize> {
    if e == w.edges.len() { w.open } else { w.edges[e] }
}

/// Every pin is listed with its node and with its net, and every list holds pins of its own.
pub open spec fn agrees(w: Wires) -> bool {
    &&& forall|p: int| 0 <= p < w.pins.len() ==> (#[trigger] w.pins[p]).node < w.node_pins.len() && w.node_pins[w.pins[p].node as int].contains(p as usize)
    &&& forall|p: int| 0 <= p < w.pins.len() ==> (#[trigger] w.pins[p]).edge <= w.edges.len() && net_pins(w, w.pins[p].edge as int).contains(p as usize)
    &&& forall|n: int, k: int| 0 <= n < w.node_pins.len() && 0 <= k < w.node_pins[n].len() ==> (#[trigger] w.node_pins[n][k]) < w.pins.len() && w.pins[w.node_pins[n][k] as int].node == n
    &&& forall|e: int, k: int| 0 <= e <= w.edges.len() && 0 <= k < net_pins(w, e).len() ==> (#[trigger] net_pins(w, e)[k]) < w.pins.len() && w.pins[net_pins(w, e)[k] as int].edge == e
}

proof fn lemma_with_pin(w: Wires, nd: usize, ox: int, oy: int)
    requires
        agrees(w),
        nd < w.node_pins.len(),
        w.pins.len() < usize::MAX,
        w.edges.len() <= usize::MAX,
    ensures
        agrees(w.with_pin(nd, ox, oy)),
{
    let v = w.with_pin(nd, ox, oy);
    let p = w.pins.len() as usize;
    let m = w.edges.len() as int;
    assert(v.node_pins[nd as int][w.node_pins[nd as int].len() as int] == p);
    assert(v.open[w.open.len() as int] == p);
    assert forall|q: int| 0 <= q < v.pins.len() implies (#[trigger] v.pins[q]).node < v.node_pins.len() && v.node_pins[v.pins[q].node as int].contains(q as usize) by {
        if q < w.pins.len() {
            assert(v.pins[q] == w.pins[q]);
            let n = w.pins[q].node as int;
            let k = choose|k: int| 0 <= k < w.node_pins[n].len() && w.node_pins[n][k] == q as usize;
            assert(v.node_pins[n][k] == q as usize);
        }
    }
    assert forall|q: int| 0 <= q < v.pins.len() implies (#[trigger] v.pins[q]).edge <= v.edges.len() && net_pins(v, v.pins[q].edge as int).contains(q as usize) by {
        if q < w.pins.len() {
            assert(v.pins[q] == w.pins[q]);
            let e = w.pins[q].edge as int;
            let k = choose|k: int| 0 <= k < net_pins(w, e).len() && net_pins(w, e)[k] == q as usize;
            assert(net_pins(v, e)[k] == q as usize);
        } else {
            assert(v.pins[q].edge == m);
        }
    }
    assert forall|n: int, k: int| 0 <= n < v.node_pins.len() && 0 <= k < v.node_pins[n].len() implies (#[trigger] v.node_pins[n][k]) < v.pins.len() && v.pins[v.node_pins[n][k] as int].node == n by {
        if n != nd || k < w.node_pins[n].len() {
            assert(v.node_pins[n][k] == w.node_pins[n][k]);
        }
    }
    assert forall|e: int, k: int| 0 <= e <= v.edges.len() && 0 <= k < net_pins(v, e).len() implies (#[trigger] net_pins(v, e)[k]) < v.pins.len() && v.pins[net_pins(v, e)[k] as int].edge == e by {
        if e != m || k < w.open.len() {
            assert(net_pins(v, e)[k] == net_pins(w, e)[k]);
        }
    }
}

proof fn lemma_insts_grow(w: Wires, nodes: Seq<Node>, v: Seq<InstPin>, n: int)
    ensures
        w.pins.len() <= w.with_insts(nodes, v, n).pins.len(),
        w.with_insts(nodes, v, n).edges == w.edges,
        w.with_insts(nodes, v, n).node_pins.len() == w.node_pins.len() || nodes.len() != w.node_pins.len() || nodes.len() > usize::MAX,
    decreases n,
{
    if n > 0 {
        lemma_insts_grow(w, nodes, v, n - 1);
        if nodes.len() <= usize::MAX {
            law_a_name_is_that_of_the_last_node(nodes, Kind::Cell, v[n - 1].inst@, nodes.len() as int);
        }
    }
}

proof fn lemma_insts_agree(w: Wires, nodes: Seq<Node>, v: Seq<InstPin>, n: int)
    requires
        agrees(w),
        w.node_pins.len() == nodes.len() <= usize::MAX,
        w.edges.len() <= usize::MAX,
        w.with_insts(nodes, v, n).pins.len() <= usize::MAX,
    ensures
        agrees(w.with_insts(nodes, v, n)),
        w.with_insts(nodes, v, n).node_pins.len() == nodes.len(),
        w.with_insts(nodes, v, n).edges == w.edges,
    decreases n,
{
    if n > 0 {
        let a = w.with_insts(nodes, v, n - 1);
        lemma_insts_grow(w, nodes, v, n - 1);
        law_a_name_is_that_of_the_last_node(nodes, Kind::Cell, v[n - 1].inst@, nodes.len() as int);
        assert(a.pins.len() <= w.with_insts(nodes, v, n).pins.len());
        lemma_insts_agree(w, nodes, v, n - 1);
        match named(nodes, Kind::Cell, v[n - 1].inst@, nodes.len() as int) {
            Some(nd) => {
                if v[n - 1].auto_placeable {
                    assert(w.with_insts(nodes, v, n).pins.len() == a.pins.len() + 1);
                    lemma_with_pin(a, nd, v[n - 1].offset().0, v[n - 1].offset().1);
                }
            },
            None => {},
        }
    }
}

proof fn lemma_terms_agree(w: Wires, nodes: Seq<Node>, v: Seq<TermPin>, n: int)
    requires
        agrees(w),
        w.node_pins.len() == nodes.len() <= usize::MAX,
        w.edges.len() <= usize::MAX,
        w.with_terms(nodes, v, n).pins.len() <= usize::MAX,
    ensures
        agrees(w.with_terms(nodes, v, n)),
        w.with_terms(nodes, v, n).node_pins.len() == nodes.len(),
        w.with_terms(nodes, v, n).edges == w.edges,
        w.pins.len() <= w.with_terms(nodes, v, n).pins.len(),
    decreases n,
{
    if n > 0 {
        let a = w.with_terms(nodes, v, n - 1);
        law_a_name_is_that_of_the_last_node(nodes, Kind::Terminal, v[n - 1].term@, nodes.len() as int);
        assert(a.pins.len() <= w.with_terms(nodes, v, n).pins.len());
        lemma_terms_agree(w, nodes, v, n - 1);
        match named(nodes, Kind::Terminal, v[n - 1].term@, nodes.len() as int) {
            Some(nd) => {
                if v[n - 1].placed {
                    lemma_with_pin(a, nd, 0, 0);
                }
            },
            None => {},
        }
    }
}

proof fn lemma_terms_grow(w: Wires, nodes: Seq<Node>, v: Seq<TermPin>, n: int)
    ensures
        w.pins.len() <= w.with_terms(nodes, v, n).pins.len(),
    decreases n,
{
    if n > 0 {
        lemma_terms_grow(w, nodes, v, n - 1);
    }
}

/// The wires of some nets list every pin with its node and with its net, and nothing else; and there is a net for each that
/// is no supply.
pub proof fn law_wires_list_every_pin_twice(nodes: Seq<Node>, nets: Seq<NetInput>, n: int)
    requires
        0 <= n <= nets.len() <= usize::MAX,
        nodes.len() <= usize::MAX,
        wires_of(nodes, nets, n).pins.len() <= usize::MAX,
    ensures
        agrees(wires_of(nodes, nets, n)),
        wires_of(nodes, nets, n).open.len() == 0,
        wires_of(nodes, nets, n).node_pins.len() == nodes.len(),
        wires_of(nodes, nets, n).edges.len() <= n,
        n > 0 ==> wires_of(nodes, nets, n).edges.len() == wires_of(nodes, nets, n - 1).edges.len() + (if nets[n - 1].supply { 0int } else { 1 }),
    decreases n,
{
    let z = wires_of(nodes, nets, n);
    if n > 0 {
        let w = wires_of(nodes, nets, n - 1);
        let net = nets[n - 1];
        let a = w.with_insts(nodes, net.insts@, net.insts@.len() as int);
        let b = a.with_terms(nodes, net.terms@, net.terms@.len() as int);
        lemma_insts_grow(w, nodes, net.insts@, net.insts@.len() as int);
        lemma_terms_grow(a, nodes, net.terms@, net.terms@.len() as int);
        assert(w.pins.len() <= z.pins.len());
        law_wires_list_every_pin_twice(nodes, nets, n - 1);
        if !net.supply {
            lemma_insts_agree(w, nodes, net.insts@, net.insts@.len() as int);
            lemma_terms_agree(a, nodes, net.terms@, net.terms@.len() as int);
            let m = w.edges.len() as int;
            assert(z.edges == b.edges.push(b.open));
            assert forall|e: int| 0 <= e <= m implies #[trigger] net_pins(z, e) == net_pins(b, e) by {}
            assert forall|q: int| 0 <= q < z.pins.len() implies (#[trigger] z.pins[q]).edge <= z.edges.len() && net_pins(z, z.pins[q].edge as int).contains(q as usize) by {
                assert(b.pins[q].edge <= m);
                assert(net_pins(b, b.pins[q].edge as int).contains(q as usize));
            }
            assert forall|e: int, k: int| 0 <= e <= z.edges.len() && 0 <= k < net_pins(z, e).len() implies (#[trigger] net_pins(z, e)[k]) < z.pins.len() && z.pins[net_pins(z, e)[k] as int].edge == e by {
                if e <= m {
                    assert(net_pins(z, e) == net_pins(b, e));
                    assert(net_pins(b, e)[k] < b.pins.len());
                }
            }
        }
    }
}

/// A connection adds a pin: that of an instance with its node and the offset of its centre, where the instance may be
/// placed and is a node; that of a placed terminal in the terminal's corner.
pub proof fn law_connections_become_pins(w: Wires, nodes: Seq<Node>, v: Seq<InstPin>, t: Seq<TermPin>, n: int)
    requires
        n >= 1,
    ensures
        ({
            let (a, b) = (w.with_insts(nodes, v, n - 1), w.with_insts(nodes, v, n));
            let (c, nd) = (v[n - 1], named(nodes, Kind::Cell, v[n - 1].inst@, nodes.len() as int));
            &&& c.auto_placeable && nd is Some ==> b.pins.len() == a.pins.len() + 1 && b.pins.last().node == nd->Some_0 && b.pins.last().ox == c.offset().0 as i32 && b.pins.last().oy == c.offset().1 as i32
            &&& !c.auto_placeable || nd is None ==> b == a
        }),
        ({
            let (a, b) = (w.with_terms(nodes, t, n - 1), w.with_terms(nodes, t, n));
            let nd = named(nodes, Kind::Terminal, t[n - 1].term@, nodes.len() as int);
            &&& t[n - 1].placed && nd is Some ==> b.pins.len() == a.pins.len() + 1 && b.pins.last().node == nd->Some_0 && b.pins.last().ox == 0 && b.pins.last().oy == 0
            &&& !t[n - 1].placed || nd is None ==> b == a
        }),
{
}

/// A pin of an instance is offset from the middle of its master by no more than a unit from where the middle of its
/// terminal's box is, for boxes that are not left of or below the master's origin.
pub proof fn law_pins_are_offset_from_the_middle(c: InstPin)
    requires
        c.x_min + c.x_max >= 0,
        c.y_min + c.y_max >= 0,
        c.width >= 0,
        c.height >= 0,
    ensures
        -1 <= 2 * c.offset().0 - ((c.x_min + c.x_max) - c.width) <= 1,
        -1 <= 2 * c.offset().1 - ((c.y_min + c.y_max) - c.height) <= 1,
{
}

} // verus!
