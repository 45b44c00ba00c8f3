//! What the lists of a network hold: the cells, the rows of the outline, the fixed nodes, the cells by height, and the padding.

use vstd::prelude::*;
use crate::gaps::{covers, first_block};
use crate::globs::glob;
use crate::improve::{Kind, Node};
use crate::network::{cell_names, in_network, name_order, names_of, numbers, placement_rows, NetInst, OuterShell};
use crate::padding::{by_name, by_pattern, Padding};
use crate::regions::Box4;
use crate::rows::Arch;
use crate::segments::Blockage;
use crate::setup::{adopted, by_height, fixed_upto, heights_upto, high_upto, housed, joined};
use crate::land::{Pin, St};
use crate::orient::Orient;
use crate::sort::{ByName, Order};
use crate::text::{has_part, text_less};

verus! {

// ── the network ──────────────────────────────────────────────────────────────────────────────

/// The rows of an outline are the boxes of the rows whose site is no pad site.
pub proof fn law_the_outline_is_of_rows_without_pads(rows: Seq<(Box4, String)>, n: int)
    requires
        0 <= n <= rows.len(),
    ensures
        forall|k: int| 0 <= k < n && (#[trigger] rows[k]).1@ != "PAD"@ ==> placement_rows(rows, n).contains(rows[k].0),
        forall|b: Box4| #[trigger] placement_rows(rows, n).contains(b) ==> exists|k: int| 0 <= k < n && (#[trigger] rows[k]).0 == b && rows[k].1@ != "PAD"@,
    decreases n,
{
    if n > 0 {
        law_the_outline_is_of_rows_without_pads(rows, n - 1);
        let s = placement_rows(rows, n - 1);
        let t = placement_rows(rows, n);
        assert forall|k: int| 0 <= k < n && (#[trigger] rows[k]).1@ != "PAD"@ implies t.contains(rows[k].0) by {
            if k < n - 1 {
                assert(s.contains(rows[k].0));
                let i = choose|i: int| 0 <= i < s.len() && s[i] == rows[k].0;
                assert(t[i] == rows[k].0);
            } else {
                assert(t[t.len() - 1] == rows[k].0);
            }
        }
        assert forall|b: Box4| #[trigger] t.contains(b) implies exists|k: int| 0 <= k < n && (#[trigger] rows[k]).0 == b && rows[k].1@ != "PAD"@ by {
            let i = choose|i: int| 0 <= i < t.len() && t[i] == b;
            if i < s.len() {
                assert(s[i] == b);
                assert(s.contains(b));
                let k = choose|k: int| 0 <= k < n - 1 && (#[trigger] rows[k]).0 == b && rows[k].1@ != "PAD"@;
                assert(rows[k].0 == b);
            } else {
                assert(rows[n - 1].0 == b);
            }
        }
    }
}

proof fn lemma_cell_names(shell: OuterShell, insts: Seq<NetInst>, ix: Seq<usize>, n: int) -> (from: Seq<int>)
    requires
        0 <= n <= ix.len(),
    ensures
        from.len() == cell_names(shell, insts, ix, n).len(),
        forall|i: int| 0 <= i < from.len() ==> 0 <= #[trigger] from[i] < n && in_network(shell, insts[ix[from[i]] as int]) && cell_names(shell, insts, ix, n)[i] == insts[ix[from[i]] as int].name,
        forall|i: int, j: int| 0 <= i < j < from.len() ==> #[trigger] from[i] < #[trigger] from[j],
        forall|k: int| 0 <= k < n && in_network(shell, insts[(#[trigger] ix[k]) as int]) ==> from.contains(k),
    decreases n,
{
    if n <= 0 {
        Seq::empty()
    } else {
        let f = lemma_cell_names(shell, insts, ix, n - 1);
        if in_network(shell, insts[ix[n - 1] as int]) {
            let g = f.push(n - 1);
            assert forall|k: int| 0 <= k < n && in_network(shell, insts[(#[trigger] ix[k]) as int]) implies g.contains(k) by {
                if k < n - 1 {
                    assert(f.contains(k));
                    let i = choose|i: int| 0 <= i < f.len() && f[i] == k;
                    assert(g[i] == k);
                } else {
                    assert(g[g.len() - 1] == k);
                }
            }
            g
        } else {
            f
        }
    }
}

/// Whether an instance becomes a cell: it may be placed, and, if it is fixed and has a box, the box meets the outline.
pub open spec fn becomes_a_cell(shell: OuterShell, i: NetInst) -> bool {
    i.auto_placeable && (i.fixed && i.bbox is Some ==> shell.touches(i.bbox->Some_0))
}

/// Whether a name is that of an instance that becomes a cell.
pub open spec fn names_a_cell(shell: OuterShell, insts: Seq<NetInst>, name: String) -> bool {
    exists|i: int| 0 <= i < insts.len() && becomes_a_cell(shell, #[trigger] insts[i]) && insts[i].name == name
}

/// The cells of a network are the instances that may be placed, without the fixed ones that lie off the outline: each of
/// those is there, nothing else is, and their names rise.
pub proof fn law_the_network_holds_what_may_be_placed(shell: OuterShell, insts: Seq<NetInst>, o: ByName, ix: Seq<usize>)
    requires
        insts.len() <= usize::MAX,
        name_order(names_of(insts), o, ix),
    ensures
        ({
            let r = cell_names(shell, insts, ix, ix.len() as int);
            &&& forall|i: int| 0 <= i < insts.len() && becomes_a_cell(shell, #[trigger] insts[i]) ==> r.contains(insts[i].name)
            &&& forall|k: int| 0 <= k < r.len() ==> names_a_cell(shell, insts, #[trigger] r[k])
            &&& forall|j: int, k: int| 0 <= j < k < r.len() ==> text_less((#[trigger] r[j])@, (#[trigger] r[k])@) || r[j]@ == r[k]@
        }),
{
    let r = cell_names(shell, insts, ix, ix.len() as int);
    let from = lemma_cell_names(shell, insts, ix, ix.len() as int);
    let all = numbers(insts.len());
    ix.to_multiset_ensures();
    all.to_multiset_ensures();
    assert forall|k: int| 0 <= k < ix.len() implies #[trigger] ix[k] < insts.len() by {
        assert(ix.to_multiset().contains(ix[k]));
        assert(all.to_multiset().contains(ix[k]));
        assert(all.contains(ix[k]));
        let i = choose|i: int| 0 <= i < all.len() && all[i] == ix[k];
    }
    assert forall|i: int| 0 <= i < insts.len() && becomes_a_cell(shell, #[trigger] insts[i]) implies r.contains(insts[i].name) by {
        assert(all[i] == i as usize);
        assert(all.to_multiset().contains(i as usize));
        assert(ix.to_multiset().contains(i as usize));
        assert(ix.contains(i as usize));
        let k = choose|k: int| 0 <= k < ix.len() && ix[k] == i as usize;
        assert(in_network(shell, insts[ix[k] as int]));
        assert(from.contains(k));
        let j = choose|j: int| 0 <= j < from.len() && from[j] == k;
        assert(r[j] == insts[i].name);
    }
    assert forall|k: int| 0 <= k < r.len() implies names_a_cell(shell, insts, #[trigger] r[k]) by {
        let i = ix[from[k]] as int;
        assert(becomes_a_cell(shell, insts[i]) && insts[i].name == r[k]);
    }
    assert forall|j: int, k: int| 0 <= j < k < r.len() implies text_less((#[trigger] r[j])@, (#[trigger] r[k])@) || r[j]@ == r[k]@ by {
        let (a, b) = (from[j], from[k]);
        assert(a < b);
        assert(o.leq(ix[a], ix[b]));
        assert(names_of(insts)[ix[a] as int] == insts[ix[a] as int].name);
    }
}

// ── kinds of nodes ───────────────────────────────────────────────────────────────────────────

/// The fixed nodes listed are all that are fixed, each once, in their order.
pub proof fn law_fixed_nodes_are_listed(nodes: Seq<Node>, n: int)
    requires
        0 <= n <= nodes.len() <= usize::MAX,
    ensures
        forall|i: int| 0 <= i < n && (#[trigger] nodes[i]).fixed ==> fixed_upto(nodes, n).contains(i as usize),
        forall|k: int| 0 <= k < fixed_upto(nodes, n).len() ==> (#[trigger] fixed_upto(nodes, n)[k]) < n && nodes[fixed_upto(nodes, n)[k] as int].fixed,
        forall|j: int, k: int| 0 <= j < k < fixed_upto(nodes, n).len() ==> (#[trigger] fixed_upto(nodes, n)[j]) < (#[trigger] fixed_upto(nodes, n)[k]),
    decreases n,
{
    if n > 0 {
        law_fixed_nodes_are_listed(nodes, n - 1);
        let s = fixed_upto(nodes, n - 1);
        let t = fixed_upto(nodes, n);
        assert forall|i: int| 0 <= i < n && (#[trigger] nodes[i]).fixed implies t.contains(i as usize) by {
            if i < n - 1 {
                assert(s.contains(i as usize));
                let k = choose|k: int| 0 <= k < s.len() && s[k] == i as usize;
                assert(t[k] == i as usize);
            } else {
                assert(t[t.len() - 1] == i as usize);
            }
        }
    }
}

/// The cells of a height listed are the nodes that are no terminals, not fixed and that many rows high, each once, in
/// their order.
pub proof fn law_cells_of_a_height_are_listed(a: Arch, nodes: Seq<Node>, rows: int, n: int)
    requires
        0 <= n <= nodes.len() <= usize::MAX,
    ensures
        forall|i: int| 0 <= i < n && (#[trigger] nodes[i]).kind != Kind::Terminal && !nodes[i].fixed && a.rows_high(nodes[i].height as int) == rows
            ==> high_upto(a, nodes, rows, n).contains(i as usize),
        forall|k: int| 0 <= k < high_upto(a, nodes, rows, n).len() ==> ({
            let i = #[trigger] high_upto(a, nodes, rows, n)[k];
            i < n && nodes[i as int].kind != Kind::Terminal && !nodes[i as int].fixed && a.rows_high(nodes[i as int].height as int) == rows
        }),
        forall|j: int, k: int| 0 <= j < k < high_upto(a, nodes, rows, n).len() ==> (#[trigger] high_upto(a, nodes, rows, n)[j]) < (#[trigger] high_upto(a, nodes, rows, n)[k]),
    decreases n,
{
    if n > 0 {
        law_cells_of_a_height_are_listed(a, nodes, rows, n - 1);
        let s = high_upto(a, nodes, rows, n - 1);
        let t = high_upto(a, nodes, rows, n);
        assert forall|i: int| 0 <= i < n && (#[trigger] nodes[i]).kind != Kind::Terminal && !nodes[i].fixed && a.rows_high(nodes[i].height as int) == rows implies t.contains(i as usize) by {
            if i < n - 1 {
                assert(s.contains(i as usize));
                let k = choose|k: int| 0 <= k < s.len() && s[k] == i as usize;
                assert(t[k] == i as usize);
            } else {
                assert(t[t.len() - 1] == i as usize);
            }
        }
    }
}

proof fn lemma_heights(a: Arch, nodes: Seq<Node>, n: int)
    requires
        0 <= n <= nodes.len(),
    ensures
        heights_upto(a, nodes, n) >= 2,
        forall|i: int| 0 <= i < n && (#[trigger] nodes[i]).kind != Kind::Terminal && !nodes[i].fixed ==> a.rows_high(nodes[i].height as int) < heights_upto(a, nodes, n),
    decreases n,
{
    if n > 0 {
        lemma_heights(a, nodes, n - 1);
    }
}

/// Every movable cell that is not one row high, nor none, is in the list of its height.
pub proof fn law_every_tall_cell_is_in_its_list(a: Arch, nodes: Seq<Node>, i: int)
    requires
        nodes.len() <= usize::MAX,
        0 <= i < nodes.len(),
        nodes[i].kind != Kind::Terminal,
        !nodes[i].fixed,
        a.rows_high(nodes[i].height as int) >= 0,
        a.rows_high(nodes[i].height as int) != 1,
    ensures
        a.rows_high(nodes[i].height as int) < by_height(a, nodes, nodes.len() as int).len(),
        by_height(a, nodes, nodes.len() as int)[a.rows_high(nodes[i].height as int)].contains(i as usize),
        by_height(a, nodes, nodes.len() as int)[1].len() == 0,
{
    let h = a.rows_high(nodes[i].height as int);
    lemma_heights(a, nodes, nodes.len() as int);
    law_cells_of_a_height_are_listed(a, nodes, h, nodes.len() as int);
}

/// The lists from the third on come behind the first, whole and in their order.
pub proof fn law_the_joined_list_holds_all(first: Seq<usize>, v: Seq<Seq<usize>>, n: int, c: usize)
    requires
        n <= v.len(),
    ensures
        joined(first, v, n).contains(c) <==> first.contains(c) || exists|k: int| 2 <= k < n && (#[trigger] v[k]).contains(c),
    decreases n,
{
    if n > 2 {
        law_the_joined_list_holds_all(first, v, n - 1, c);
        let (s, w) = (joined(first, v, n - 1), v[n - 1]);
        let t = joined(first, v, n);
        if t.contains(c) {
            let i = choose|i: int| 0 <= i < t.len() && t[i] == c;
            if i < s.len() {
                assert(s[i] == c);
                assert(s.contains(c));
            } else {
                assert(w[i - s.len()] == c);
                assert(v[n - 1].contains(c));
            }
        }
        if s.contains(c) {
            let i = choose|i: int| 0 <= i < s.len() && s[i] == c;
            assert(t[i] == c);
        }
        if w.contains(c) {
            let i = choose|i: int| 0 <= i < w.len() && w[i] == c;
            assert(t[s.len() + i] == c);
        }
        if exists|k: int| 2 <= k < n && (#[trigger] v[k]).contains(c) {
            let k = choose|k: int| 2 <= k < n && (#[trigger] v[k]).contains(c);
            if k < n - 1 {
                assert(exists|k: int| 2 <= k < n - 1 && (#[trigger] v[k]).contains(c));
            }
        }
    }
}

/// Of a list, the nodes in segments are kept, and no others.
pub proof fn law_housed_nodes_have_a_segment(s: St, list: Seq<usize>, n: int, c: usize)
    requires
        0 <= n <= list.len(),
    ensures
        housed(s, list, n).contains(c) <==> s.homes[c as int].len() > 0 && exists|k: int| 0 <= k < n && #[trigger] list[k] == c,
    decreases n,
{
    if n > 0 {
        law_housed_nodes_have_a_segment(s, list, n - 1, c);
        let v = housed(s, list, n - 1);
        let t = housed(s, list, n);
        if t.contains(c) {
            let i = choose|i: int| 0 <= i < t.len() && t[i] == c;
            if i < v.len() {
                assert(v[i] == c);
                assert(v.contains(c));
            } else {
                assert(list[n - 1] == c);
            }
        }
        if v.contains(c) {
            let i = choose|i: int| 0 <= i < v.len() && v[i] == c;
            assert(t[i] == c);
        }
        if list[n - 1] == c && s.homes[c as int].len() > 0 {
            assert(t[t.len() - 1] == c);
        }
        if exists|k: int| 0 <= k < n && #[trigger] list[k] == c {
            let k = choose|k: int| 0 <= k < n && #[trigger] list[k] == c;
            if k < n - 1 {
                assert(exists|k: int| 0 <= k < n - 1 && #[trigger] list[k] == c);
            }
        }
    } else {
        assert(!housed(s, list, n).contains(c));
    }
}

/// Every placed cell takes the orientation of its instance; all other nodes stay as they are.
pub proof fn law_placed_cells_take_their_orientation(nodes: Seq<Node>, pins: Seq<Pin>, lists: Seq<Seq<usize>>, turns: Seq<Orient>, n: int, k: int)
    requires
        0 <= n <= nodes.len(),
        0 <= k < nodes.len(),
    ensures
        adopted(nodes, pins, lists, turns, n).0.len() == nodes.len(),
        k < n && nodes[k].kind == Kind::Cell && nodes[k].placed ==> adopted(nodes, pins, lists, turns, n).0[k].orient == turns[k],
        k >= n || nodes[k].kind != Kind::Cell || !nodes[k].placed ==> adopted(nodes, pins, lists, turns, n).0[k] == nodes[k],
        adopted(nodes, pins, lists, turns, n).0[k].left == nodes[k].left,
        adopted(nodes, pins, lists, turns, n).0[k].bottom == nodes[k].bottom,
    decreases n,
{
    if n > 0 {
        law_placed_cells_take_their_orientation(nodes, pins, lists, turns, n - 1, k);
    }
}

// ── padding ──────────────────────────────────────────────────────────────────────────────────

proof fn lemma_by_name(list: Seq<(String, (i32, i32))>, name: Seq<char>, n: int)
    requires
        0 <= n <= list.len(),
    ensures
        by_name(list, name, n) is None <==> forall|k: int| 0 <= k < n ==> (#[trigger] list[k]).0@ != name,
        by_name(list, name, n) matches Some(v) ==> exists|k: int| 0 <= k < n && (#[trigger] list[k]).0@ == name && list[k].1 == v
            && forall|j: int| k < j < n ==> (#[trigger] list[j]).0@ != name,
    decreases n,
{
    if n > 0 {
        lemma_by_name(list, name, n - 1);
        if list[n - 1].0@ != name && by_name(list, name, n) is Some {
            let v = by_name(list, name, n)->Some_0;
            let k = choose|k: int| 0 <= k < n - 1 && (#[trigger] list[k]).0@ == name && list[k].1 == v
                && forall|j: int| k < j < n - 1 ==> (#[trigger] list[j]).0@ != name;
            assert(list[k].0@ == name);
        }
    }
}

proof fn lemma_by_pattern(list: Seq<(String, (i32, i32))>, name: Seq<char>, n: int)
    requires
        0 <= n <= list.len(),
    ensures
        by_pattern(list, name, n) is None <==> forall|k: int| 0 <= k < n ==> !glob((#[trigger] list[k]).0@, name),
        by_pattern(list, name, n) matches Some(v) ==> exists|k: int| 0 <= k < n && glob((#[trigger] list[k]).0@, name) && list[k].1 == v
            && forall|j: int| k < j < n ==> !glob((#[trigger] list[j]).0@, name),
    decreases n,
{
    if n > 0 {
        lemma_by_pattern(list, name, n - 1);
        if !glob(list[n - 1].0@, name) && by_pattern(list, name, n) is Some {
            let v = by_pattern(list, name, n)->Some_0;
            let k = choose|k: int| 0 <= k < n - 1 && glob((#[trigger] list[k]).0@, name) && list[k].1 == v
                && forall|j: int| k < j < n - 1 ==> !glob((#[trigger] list[j]).0@, name);
            assert(glob(list[k].0@, name));
        }
    }
}

/// A core cell has the padding of its instance, the last given; without one that of the last pattern that its master
/// matches; without one that of every cell. Other cells have none.
pub proof fn law_padding_of_the_instance_comes_first(p: Padding, inst: Seq<char>, master: Seq<char>, master_type: Seq<char>)
    ensures
        ({
            let r = p.sites_of(inst, master, master_type);
            let own = exists|k: int| 0 <= k < p.insts@.len() && (#[trigger] p.insts@[k]).0@ == inst;
            let matched = exists|k: int| 0 <= k < p.masters@.len() && glob((#[trigger] p.masters@[k]).0@, master);
            &&& !has_part(master_type, "CORE"@) ==> r == (0i32, 0i32)
            &&& has_part(master_type, "CORE"@) && own ==> exists|k: int| 0 <= k < p.insts@.len() && (#[trigger] p.insts@[k]).0@ == inst && p.insts@[k].1 == r
                && forall|j: int| k < j < p.insts@.len() ==> (#[trigger] p.insts@[j]).0@ != inst
            &&& has_part(master_type, "CORE"@) && !own && matched ==> exists|k: int| 0 <= k < p.masters@.len() && glob((#[trigger] p.masters@[k]).0@, master) && p.masters@[k].1 == r
                && forall|j: int| k < j < p.masters@.len() ==> !glob((#[trigger] p.masters@[j]).0@, master)
            &&& has_part(master_type, "CORE"@) && !own && !matched ==> r == p.global
        }),
{
    lemma_by_name(p.insts@, inst, p.insts@.len() as int);
    lemma_by_pattern(p.masters@, master, p.masters@.len() as int);
}

// ── blockages beside cells ───────────────────────────────────────────────────────────────────

proof fn lemma_first_block(v: Seq<Blockage>, x: int, i: int)
    requires
        0 <= i <= v.len(),
    ensures
        i <= first_block(v, x, i) <= v.len(),
        forall|k: int| i <= k < first_block(v, x, i) ==> (#[trigger] v[k]).x_max < x,
        first_block(v, x, i) < v.len() ==> v[first_block(v, x, i)].x_max >= x,
    decreases v.len() - i,
{
    if i < v.len() && v[i].x_max < x {
        lemma_first_block(v, x, i + 1);
    }
}

/// A coordinate is covered just where a blockage has it between its ends, for blockages that begin one behind the other.
pub proof fn law_covered_means_in_a_blockage(v: Seq<Blockage>, x: int)
    requires
        forall|i: int, j: int| 0 <= i < j < v.len() ==> (#[trigger] v[i]).x_min <= (#[trigger] v[j]).x_min,
    ensures
        covers(v, x) ==> exists|k: int| 0 <= k < v.len() && (#[trigger] v[k]).x_min <= x <= v[k].x_max,
        (exists|k: int| 0 <= k < v.len() && (#[trigger] v[k]).x_min <= x <= v[k].x_max) ==> covers(v, x),
{
    lemma_first_block(v, x, 0);
    let i = first_block(v, x, 0);
    if covers(v, x) {
        assert(v[i].x_min <= x <= v[i].x_max);
    }
    if exists|k: int| 0 <= k < v.len() && (#[trigger] v[k]).x_min <= x <= v[k].x_max {
        let k = choose|k: int| 0 <= k < v.len() && (#[trigger] v[k]).x_min <= x <= v[k].x_max;
        assert(k >= i);
        if k > i {
            assert(v[i].x_min <= v[k].x_min);
        }
    }
}

} // verus!
