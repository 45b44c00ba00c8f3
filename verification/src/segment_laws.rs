//! What the segments are, coordinate by coordinate: the parts of rows that nothing blocks, each in its region.

use vstd::prelude::*;
use crate::arith::{imax, imin};
use crate::improve::{Kind, Node};
use crate::regions::{Box4, Group};
use crate::rows::{fused, lemma_sorted_spans, small, sorted_spans, union_of, Arch, Row, Span};
use crate::segments::{are_blockages, block_keys, blocks_ok, box_spans, cut_at, cut_groups, cut_row, cut_rows_by, cut_upto, is_by_left, is_joined, joined, node_blockages, node_ok, raw_blockages, region_spans, row_segments, segments_of, site_of, site_past, space, spans_row, with_spaces, Blockage, Cuts, Segment};
use crate::sort::{in_order, is_stable_order, Ranked};

verus! {

// ── blockages ────────────────────────────────────────────────────────────────────────────────

/// Whether a coordinate lies in one of some blockages, their padding with them.
pub open spec fn shut(v: Seq<Blockage>, x: int) -> bool {
    exists|k: int| 0 <= k < v.len() && #[trigger] v[k].x_min - v[k].pad_left <= x < v[k].x_max + v[k].pad_right
}

/// Whether a fixed node, drawn into the core and padded, keeps cells off a coordinate of a row.
pub open spec fn node_shuts(a: Arch, n: Node, pad: (i32, i32), r: Row, x: int) -> bool {
    &&& n.kind != Kind::Terminal
    &&& imax(a.min_y as int, n.bottom as int) < r.bottom + r.height
    &&& imin(a.max_y as int, n.bottom + n.height) > r.bottom
    &&& imax(a.min_x as int, n.left as int) - pad.0 <= x < imin(a.max_x as int, n.left + n.width) + pad.1
}

/// Whether a box, drawn into the core, keeps cells off a coordinate of a row.
pub open spec fn box_shuts(a: Arch, b: Box4, r: Row, x: int) -> bool {
    &&& imax(a.min_y as int, b.1 as int) < r.bottom + r.height
    &&& imin(a.max_y as int, b.3 as int) > r.bottom
    &&& imax(a.min_x as int, b.0 as int) <= x < imin(a.max_x as int, b.2 as int)
}

proof fn lemma_node_blockages(a: Arch, nodes: Seq<Node>, fixed: Seq<usize>, pads: Seq<(i32, i32)>, r: Row, n: int, x: int)
    requires
        a.wf(),
        0 <= n <= fixed.len(),
        pads.len() == nodes.len(),
        forall|k: int| 0 <= k < fixed.len() ==> #[trigger] fixed[k] < nodes.len() && node_ok(nodes[fixed[k] as int]),
        forall|k: int| 0 <= k < pads.len() ==> small((#[trigger] pads[k]).0 as int) && small(pads[k].1 as int),
    ensures
        blocks_ok(node_blockages(a, nodes, fixed, pads, r, n)),
        shut(node_blockages(a, nodes, fixed, pads, r, n), x)
            <==> exists|k: int| 0 <= k < n && node_shuts(a, nodes[(#[trigger] fixed[k]) as int], pads[fixed[k] as int], r, x),
    decreases n,
{
    let t = node_blockages(a, nodes, fixed, pads, r, n);
    if n > 0 {
        lemma_node_blockages(a, nodes, fixed, pads, r, n - 1, x);
        let s = node_blockages(a, nodes, fixed, pads, r, n - 1);
        let f = fixed[n - 1] as int;
        assert(node_ok(nodes[f]) && small(pads[f].0 as int));
        if t.len() > s.len() {
            assert(t.drop_last() =~= s);
            assert(forall|k: int| 0 <= k < s.len() ==> t[k] == s[k]);
        }
        if shut(t, x) {
            let k = choose|k: int| 0 <= k < t.len() && #[trigger] t[k].x_min - t[k].pad_left <= x < t[k].x_max + t[k].pad_right;
            if k < s.len() {
                assert(s[k].x_min - s[k].pad_left <= x < s[k].x_max + s[k].pad_right);
                assert(shut(s, x));
            } else {
                assert(node_shuts(a, nodes[f], pads[f], r, x));
            }
        }
        if exists|k: int| 0 <= k < n && node_shuts(a, nodes[(#[trigger] fixed[k]) as int], pads[fixed[k] as int], r, x) {
            let k = choose|k: int| 0 <= k < n && node_shuts(a, nodes[(#[trigger] fixed[k]) as int], pads[fixed[k] as int], r, x);
            if k < n - 1 {
                assert(shut(s, x));
                let j = choose|j: int| 0 <= j < s.len() && #[trigger] s[j].x_min - s[j].pad_left <= x < s[j].x_max + s[j].pad_right;
                assert(t[j].x_min - t[j].pad_left <= x < t[j].x_max + t[j].pad_right);
            } else {
                let j = t.len() - 1;
                assert(t[j].x_min - t[j].pad_left <= x < t[j].x_max + t[j].pad_right);
            }
        }
    }
}

proof fn lemma_raw_blockages(a: Arch, nodes: Seq<Node>, fixed: Seq<usize>, pads: Seq<(i32, i32)>, boxes: Seq<Box4>, r: Row, n: int, x: int)
    requires
        a.wf(),
        0 <= n <= boxes.len(),
        pads.len() == nodes.len(),
        forall|k: int| 0 <= k < fixed.len() ==> #[trigger] fixed[k] < nodes.len() && node_ok(nodes[fixed[k] as int]),
        forall|k: int| 0 <= k < pads.len() ==> small((#[trigger] pads[k]).0 as int) && small(pads[k].1 as int),
        forall|k: int| 0 <= k < boxes.len() ==> small((#[trigger] boxes[k]).0 as int) && small(boxes[k].2 as int),
    ensures
        blocks_ok(raw_blockages(a, nodes, fixed, pads, boxes, r, n)),
        shut(raw_blockages(a, nodes, fixed, pads, boxes, r, n), x)
            <==> (exists|k: int| 0 <= k < fixed.len() && node_shuts(a, nodes[(#[trigger] fixed[k]) as int], pads[fixed[k] as int], r, x))
                || (exists|k: int| 0 <= k < n && box_shuts(a, #[trigger] boxes[k], r, x)),
    decreases n,
{
    let t = raw_blockages(a, nodes, fixed, pads, boxes, r, n);
    if n <= 0 {
        lemma_node_blockages(a, nodes, fixed, pads, r, fixed.len() as int, x);
    } else {
        lemma_raw_blockages(a, nodes, fixed, pads, boxes, r, n - 1, x);
        let s = raw_blockages(a, nodes, fixed, pads, boxes, r, n - 1);
        let b = boxes[n - 1];
        assert(small(b.0 as int) && small(b.2 as int));
        if t.len() > s.len() {
            assert(forall|k: int| 0 <= k < s.len() ==> t[k] == s[k]);
        }
        if shut(t, x) {
            let k = choose|k: int| 0 <= k < t.len() && #[trigger] t[k].x_min - t[k].pad_left <= x < t[k].x_max + t[k].pad_right;
            if k < s.len() {
                assert(s[k].x_min - s[k].pad_left <= x < s[k].x_max + s[k].pad_right);
                assert(shut(s, x));
            } else {
                assert(box_shuts(a, b, r, x));
            }
        }
        if shut(s, x) {
            let j = choose|j: int| 0 <= j < s.len() && #[trigger] s[j].x_min - s[j].pad_left <= x < s[j].x_max + s[j].pad_right;
            assert(t[j].x_min - t[j].pad_left <= x < t[j].x_max + t[j].pad_right);
        }
        if box_shuts(a, b, r, x) {
            let j = t.len() - 1;
            assert(t[j].x_min - t[j].pad_left <= x < t[j].x_max + t[j].pad_right);
        }
    }
}

/// Blockages from left to right by their padded left ends.
spec fn by_left(s: Seq<Blockage>) -> bool {
    forall|i: int, j: int| 0 <= i < j < s.len() ==> (#[trigger] s[i]).lo() <= (#[trigger] s[j]).lo()
}

/// Each of some blockages ends before the next begins.
pub open spec fn parted(s: Seq<Blockage>) -> bool {
    forall|i: int, j: int| 0 <= i && j == i + 1 && j < s.len() ==> (#[trigger] s[i]).hi() < (#[trigger] s[j]).lo()
}

proof fn lemma_joined(s: Seq<Blockage>, n: int, x: int)
    requires
        by_left(s),
        0 <= n <= s.len(),
    ensures
        n > 0 ==> joined(s, n).len() > 0 && joined(s, n).last().lo() <= s[n - 1].lo(),
        parted(joined(s, n)),
        by_left(joined(s, n)),
        shut(joined(s, n), x) <==> shut(s.subrange(0, n), x),
    decreases n,
{
    let f = joined(s, n);
    let b = s.subrange(0, n);
    if n == 1 {
        assert(b =~= seq![s[0]]);
    } else if n > 1 {
        lemma_joined(s, n - 1, x);
        let t = joined(s, n - 1);
        let a = s.subrange(0, n - 1);
        let c = s[n - 1];
        assert(s[n - 2].lo() <= c.lo());
        assert(b =~= a.push(c));
        let m = t.len() - 1;
        assert forall|i: int, j: int| 0 <= i && j == i + 1 && j < f.len() implies (#[trigger] f[i]).hi() < (#[trigger] f[j]).lo() by {
            if j < t.len() {
                assert(t[i].hi() < t[j].lo());
            }
        }
        assert forall|i: int, j: int| 0 <= i < j < f.len() implies (#[trigger] f[i]).lo() <= (#[trigger] f[j]).lo() by {
            if j < t.len() {
                assert(t[i].lo() <= t[j].lo());
            } else if i < m {
                assert(t[i].lo() <= t[m].lo());
            }
        }
        if shut(f, x) {
            let k = choose|k: int| 0 <= k < f.len() && #[trigger] f[k].x_min - f[k].pad_left <= x < f[k].x_max + f[k].pad_right;
            if k < t.len() && t[k].x_min - t[k].pad_left <= x < t[k].x_max + t[k].pad_right {
                assert(shut(t, x));
                let j = choose|j: int| 0 <= j < a.len() && #[trigger] a[j].x_min - a[j].pad_left <= x < a[j].x_max + a[j].pad_right;
                assert(b[j].x_min - b[j].pad_left <= x < b[j].x_max + b[j].pad_right);
            } else {
                assert(b[n - 1].x_min - b[n - 1].pad_left <= x < b[n - 1].x_max + b[n - 1].pad_right);
            }
        }
        if shut(b, x) {
            let j = choose|j: int| 0 <= j < b.len() && #[trigger] b[j].x_min - b[j].pad_left <= x < b[j].x_max + b[j].pad_right;
            if j < n - 1 {
                assert(a[j].x_min - a[j].pad_left <= x < a[j].x_max + a[j].pad_right);
                assert(shut(t, x));
                let k = choose|k: int| 0 <= k < t.len() && #[trigger] t[k].x_min - t[k].pad_left <= x < t[k].x_max + t[k].pad_right;
                assert(f[k].x_min - f[k].pad_left <= x < f[k].x_max + f[k].pad_right);
            } else {
                let k = f.len() - 1;
                assert(f[k].x_min - f[k].pad_left <= x < f[k].x_max + f[k].pad_right);
            }
        }
    } else {
        assert(b =~= Seq::empty());
    }
}

proof fn lemma_is_joined(v: Seq<Blockage>, out: Seq<Blockage>, x: int)
    requires
        blocks_ok(v),
        v.len() <= usize::MAX,
        is_joined(v, out),
    ensures
        parted(out),
        by_left(out),
        shut(out, x) <==> shut(v, x),
{
    let s = choose|s: Seq<Blockage>| #[trigger] is_by_left(v, s) && out == joined(s, s.len() as int);
    let order = choose|order: Seq<usize>| #[trigger] is_stable_order(block_keys(v), order) && s == Seq::new(order.len(), |k: int| v[order[k] as int]);
    let keys = block_keys(v);
    assert forall|i: int, j: int| 0 <= i < j < s.len() implies (#[trigger] s[i]).lo() <= (#[trigger] s[j]).lo() by {
        let (p, q) = (order[i] as int, order[j] as int);
        assert(keys[p] <= keys[q]);
        assert(v[p].ok() && v[q].ok());
    }
    lemma_joined(s, s.len() as int, x);
    assert(s.subrange(0, s.len() as int) =~= s);
    if shut(s, x) {
        let k = choose|k: int| 0 <= k < s.len() && #[trigger] s[k].x_min - s[k].pad_left <= x < s[k].x_max + s[k].pad_right;
        let p = order[k] as int;
        assert(v[p].x_min - v[p].pad_left <= x < v[p].x_max + v[p].pad_right);
    }
    if shut(v, x) {
        let p = choose|p: int| 0 <= p < v.len() && #[trigger] v[p].x_min - v[p].pad_left <= x < v[p].x_max + v[p].pad_right;
        let k = lemma_listed(keys, order, p);
        assert(s[k].x_min - s[k].pad_left <= x < s[k].x_max + s[k].pad_right);
    }
}

/// An order lists every place.
pub(crate) proof fn lemma_listed(keys: Seq<i64>, order: Seq<usize>, p: int) -> (k: int)
    requires
        is_stable_order(keys, order),
        keys.len() <= usize::MAX,
        0 <= p < keys.len(),
    ensures
        0 <= k < order.len(),
        order[k] == p,
{
    assert forall|i: int, j: int| 0 <= i < order.len() && 0 <= j < order.len() && i != j implies order[i] != order[j] by {
        if i < j {
            assert(keys[order[i] as int] <= keys[order[j] as int]);
        } else {
            assert(keys[order[j] as int] <= keys[order[i] as int]);
        }
    }
    assert(order.no_duplicates());
    let all = Seq::new(keys.len(), |i: int| i as usize);
    assert(all.no_duplicates());
    order.unique_seq_to_set();
    all.unique_seq_to_set();
    assert(order.to_set().subset_of(all.to_set())) by {
        assert forall|e: usize| #[trigger] order.to_set().contains(e) implies all.to_set().contains(e) by {
            let i = choose|i: int| 0 <= i < order.len() && order[i] == e;
            assert(all[e as int] == e);
        }
    }
    vstd::set_lib::lemma_subset_equality(order.to_set(), all.to_set());
    assert(all[p] == p as usize);
    assert(all.to_set().contains(p as usize));
    assert(order.to_set().contains(p as usize));
    choose|k: int| 0 <= k < order.len() && order[k] == p
}

/// The blockages of a row shut a coordinate just where a fixed node that reaches into the row, padded, or a box that
/// reaches into it does; and each ends before the next begins.
pub proof fn law_blockages_are_fixed_nodes_and_boxes(a: Arch, nodes: Seq<Node>, fixed: Seq<usize>, pads: Seq<(i32, i32)>, boxes: Seq<Box4>, out: Seq<Vec<Blockage>>, r: int, x: int)
    requires
        a.wf(),
        pads.len() == nodes.len(),
        fixed.len() + boxes.len() <= usize::MAX,
        forall|k: int| 0 <= k < fixed.len() ==> #[trigger] fixed[k] < nodes.len() && node_ok(nodes[fixed[k] as int]),
        forall|k: int| 0 <= k < pads.len() ==> small((#[trigger] pads[k]).0 as int) && small(pads[k].1 as int),
        forall|k: int| 0 <= k < boxes.len() ==> small((#[trigger] boxes[k]).0 as int) && small(boxes[k].2 as int),
        are_blockages(a, nodes, fixed, pads, boxes, out),
        0 <= r < out.len(),
    ensures
        parted(out[r]@),
        shut(out[r]@, x)
            <==> (exists|k: int| 0 <= k < fixed.len() && node_shuts(a, nodes[(#[trigger] fixed[k]) as int], pads[fixed[k] as int], a.rows@[r], x))
                || (exists|k: int| 0 <= k < boxes.len() && box_shuts(a, #[trigger] boxes[k], a.rows@[r], x)),
{
    let v = raw_blockages(a, nodes, fixed, pads, boxes, a.rows@[r], boxes.len() as int);
    assert(is_joined(v, out[r]@));
    lemma_raw_blockages(a, nodes, fixed, pads, boxes, a.rows@[r], boxes.len() as int, x);
    lemma_raw_len(a, nodes, fixed, pads, boxes, a.rows@[r], boxes.len() as int);
    lemma_is_joined(v, out[r]@, x);
}

proof fn lemma_raw_len(a: Arch, nodes: Seq<Node>, fixed: Seq<usize>, pads: Seq<(i32, i32)>, boxes: Seq<Box4>, r: Row, n: int)
    requires
        0 <= n <= boxes.len(),
    ensures
        raw_blockages(a, nodes, fixed, pads, boxes, r, n).len() <= fixed.len() + n,
    decreases n,
{
    if n > 0 {
        lemma_raw_len(a, nodes, fixed, pads, boxes, r, n - 1);
    } else {
        lemma_node_len(a, nodes, fixed, pads, r, fixed.len() as int);
    }
}

proof fn lemma_node_len(a: Arch, nodes: Seq<Node>, fixed: Seq<usize>, pads: Seq<(i32, i32)>, r: Row, n: int)
    requires
        0 <= n <= fixed.len(),
    ensures
        node_blockages(a, nodes, fixed, pads, r, n).len() <= n,
    decreases n,
{
    if n > 0 {
        lemma_node_len(a, nodes, fixed, pads, r, n - 1);
    }
}

// ── segments ─────────────────────────────────────────────────────────────────────────────────

/// Whether a segment of a row, of a region, has a coordinate.
pub open spec fn found(c: Cuts, row: int, x: int, q: int) -> bool {
    exists|k: int| 0 <= k < c.ids[row].len() && found_at(c, row, x, q, k)
}

/// Whether segment `k` of a row is of a region and has a coordinate.
pub open spec fn found_at(c: Cuts, row: int, x: int, q: int, k: int) -> bool {
    let g = c.segs[c.ids[row][k] as int];
    g.min_x <= x < g.max_x && g.reg == q
}

/// Every row lists segments of its own, each once.
spec fn tidy(c: Cuts, rows: int) -> bool {
    &&& c.ids.len() == rows
    &&& c.segs.len() <= usize::MAX
    &&& forall|r: int, k: int| 0 <= r < rows && 0 <= k < c.ids[r].len() ==> (#[trigger] c.ids[r][k]) < c.segs.len() && c.segs[c.ids[r][k] as int].row == r
    &&& forall|r: int, j: int, k: int| 0 <= r < rows && 0 <= j < k < c.ids[r].len() ==> (#[trigger] c.ids[r][j]) != (#[trigger] c.ids[r][k])
}

/// Rows other than one have what they had.
spec fn others_stay(c: Cuts, d: Cuts, row: int) -> bool {
    &&& c.ids.len() == d.ids.len()
    &&& forall|r: int, x: int, q: int| 0 <= r < c.ids.len() && r != row ==> (#[trigger] found(d, r, x, q) <==> found(c, r, x, q))
}

/// Whether a segment of a row that is none of some numbers of its list has a coordinate.
spec fn else_found(c: Cuts, row: int, x: int, q: int, but: Set<int>) -> bool {
    exists|k: int| 0 <= k < c.ids[row].len() && !but.contains(k) && found_at(c, row, x, q, k)
}

/// Numbers of a row's list.
spec fn listed(c: Cuts, row: int, but: Set<int>) -> bool {
    forall|k: int| #[trigger] but.contains(k) ==> 0 <= k < c.ids[row].len()
}

proof fn lemma_else_none(c: Cuts, row: int, x: int, q: int)
    ensures
        else_found(c, row, x, q, Set::empty()) <==> found(c, row, x, q),
{
    if found(c, row, x, q) {
        let k = choose|k: int| 0 <= k < c.ids[row].len() && found_at(c, row, x, q, k);
        assert(!Set::<int>::empty().contains(k));
    }
}

proof fn lemma_with(c: Cuts, rows: int, row: int, lo: int, hi: int, reg: int)
    requires
        tidy(c, rows),
        0 <= row < rows,
        rows <= usize::MAX,
        i32::MIN <= lo <= i32::MAX,
        i32::MIN <= hi <= i32::MAX,
        i32::MIN <= reg <= i32::MAX,
        c.segs.len() < usize::MAX,
    ensures
        tidy(c.with(row, lo, hi, reg), rows),
        others_stay(c, c.with(row, lo, hi, reg), row),
        grows(c, c.with(row, lo, hi, reg), row),
        forall|k: int| 0 <= k < c.segs.len() ==> #[trigger] c.with(row, lo, hi, reg).segs[k] == c.segs[k],
        forall|x: int, q: int, but: Set<int>| listed(c, row, but) ==>
            (#[trigger] else_found(c.with(row, lo, hi, reg), row, x, q, but) <==> else_found(c, row, x, q, but) || (lo <= x < hi && q == reg)),
{
    let d = c.with(row, lo, hi, reg);
    let n = c.ids[row].len() as int;
    assert(d.ids[row] == c.ids[row].push(c.segs.len() as usize));
    assert forall|r: int, k: int| 0 <= r < rows && 0 <= k < d.ids[r].len() implies (#[trigger] d.ids[r][k]) < d.segs.len() && d.segs[d.ids[r][k] as int].row == r by {
        if r != row || k < n {
            assert(d.ids[r][k] == c.ids[r][k]);
        }
    }
    assert forall|r: int, j: int, k: int| 0 <= r < rows && 0 <= j < k < d.ids[r].len() implies (#[trigger] d.ids[r][j]) != (#[trigger] d.ids[r][k]) by {
        assert(d.ids[r][j] == c.ids[r][j]);
        if r != row || k < n {
            assert(d.ids[r][k] == c.ids[r][k]);
        }
    }
    assert forall|r: int, x: int, q: int| 0 <= r < c.ids.len() && r != row implies (#[trigger] found(d, r, x, q) <==> found(c, r, x, q)) by {
        assert(d.ids[r] == c.ids[r]);
        assert forall|k: int| 0 <= k < c.ids[r].len() implies (found_at(d, r, x, q, k) <==> #[trigger] found_at(c, r, x, q, k)) by {
            assert(c.ids[r][k] < c.segs.len());
        }
        if found(d, r, x, q) {
            let k = choose|k: int| 0 <= k < d.ids[r].len() && found_at(d, r, x, q, k);
            assert(found_at(c, r, x, q, k));
        }
        if found(c, r, x, q) {
            let k = choose|k: int| 0 <= k < c.ids[r].len() && found_at(c, r, x, q, k);
            assert(found_at(d, r, x, q, k));
        }
    }
    assert forall|x: int, q: int, but: Set<int>| listed(c, row, but) implies
        (#[trigger] else_found(d, row, x, q, but) <==> else_found(c, row, x, q, but) || (lo <= x < hi && q == reg)) by {
        assert forall|k: int| 0 <= k < n implies (found_at(d, row, x, q, k) <==> #[trigger] found_at(c, row, x, q, k)) by {
            assert(c.ids[row][k] < c.segs.len() && d.ids[row][k] == c.ids[row][k]);
        }
        assert(d.segs[d.ids[row][n] as int] == d.segs[c.segs.len() as int]);
        assert(found_at(d, row, x, q, n) <==> lo <= x < hi && q == reg);
        assert(!but.contains(n));
        if else_found(d, row, x, q, but) {
            let k = choose|k: int| 0 <= k < d.ids[row].len() && !but.contains(k) && found_at(d, row, x, q, k);
            if k < n {
                assert(found_at(c, row, x, q, k));
            }
        }
        if else_found(c, row, x, q, but) {
            let k = choose|k: int| 0 <= k < c.ids[row].len() && !but.contains(k) && found_at(c, row, x, q, k);
            assert(found_at(d, row, x, q, k));
        }
    }
}

proof fn lemma_set(c: Cuts, rows: int, row: int, m: int, lo: int, hi: int, reg: int)
    requires
        tidy(c, rows),
        0 <= row < rows,
        0 <= m < c.ids[row].len(),
        i32::MIN <= lo <= i32::MAX,
        i32::MIN <= hi <= i32::MAX,
        i32::MIN <= reg <= i32::MAX,
    ensures
        tidy(c.set(c.ids[row][m] as int, lo, hi, reg), rows),
        others_stay(c, c.set(c.ids[row][m] as int, lo, hi, reg), row),
        forall|x: int, q: int, but: Set<int>| !but.contains(m) ==>
            (#[trigger] else_found(c.set(c.ids[row][m] as int, lo, hi, reg), row, x, q, but) <==> else_found(c, row, x, q, but.insert(m)) || (lo <= x < hi && q == reg)),
{
    let sid = c.ids[row][m] as int;
    let d = c.set(sid, lo, hi, reg);
    assert(sid < c.segs.len());
    assert forall|r: int, k: int| 0 <= r < rows && 0 <= k < d.ids[r].len() implies (#[trigger] d.ids[r][k]) < d.segs.len() && d.segs[d.ids[r][k] as int].row == r by {
        assert(c.ids[r][k] < c.segs.len());
    }
    assert forall|r: int, j: int, k: int| 0 <= r < rows && 0 <= j < k < d.ids[r].len() implies (#[trigger] d.ids[r][j]) != (#[trigger] d.ids[r][k]) by {
        assert(c.ids[r][j] != c.ids[r][k]);
    }
    assert forall|r: int, x: int, q: int| 0 <= r < c.ids.len() && r != row implies (#[trigger] found(d, r, x, q) <==> found(c, r, x, q)) by {
        assert forall|k: int| 0 <= k < c.ids[r].len() implies (found_at(d, r, x, q, k) <==> #[trigger] found_at(c, r, x, q, k)) by {
            assert(c.segs[c.ids[r][k] as int].row == r && c.segs[sid].row == row);
            assert(c.ids[r][k] != sid);
        }
        if found(d, r, x, q) {
            let k = choose|k: int| 0 <= k < d.ids[r].len() && found_at(d, r, x, q, k);
            assert(found_at(c, r, x, q, k));
        }
        if found(c, r, x, q) {
            let k = choose|k: int| 0 <= k < c.ids[r].len() && found_at(c, r, x, q, k);
            assert(found_at(d, r, x, q, k));
        }
    }
    assert forall|x: int, q: int, but: Set<int>| !but.contains(m) implies
        (#[trigger] else_found(d, row, x, q, but) <==> else_found(c, row, x, q, but.insert(m)) || (lo <= x < hi && q == reg)) by {
        assert forall|k: int| 0 <= k < c.ids[row].len() && k != m implies (found_at(d, row, x, q, k) <==> #[trigger] found_at(c, row, x, q, k)) by {
            if k < m {
                assert(c.ids[row][k] != c.ids[row][m]);
            } else {
                assert(c.ids[row][m] != c.ids[row][k]);
            }
            assert(c.ids[row][k] < c.segs.len());
        }
        assert(found_at(d, row, x, q, m) <==> lo <= x < hi && q == reg);
        if else_found(d, row, x, q, but) {
            let k = choose|k: int| 0 <= k < d.ids[row].len() && !but.contains(k) && found_at(d, row, x, q, k);
            if k != m {
                assert(found_at(c, row, x, q, k) && !but.insert(m).contains(k));
            }
        }
        if else_found(c, row, x, q, but.insert(m)) {
            let k = choose|k: int| 0 <= k < c.ids[row].len() && !but.insert(m).contains(k) && found_at(c, row, x, q, k);
            assert(found_at(d, row, x, q, k) && !but.contains(k));
        }
    }
}

/// A cut only adds segments, at the end of its row's list.
spec fn grows(c: Cuts, d: Cuts, row: int) -> bool {
    &&& c.segs.len() <= d.segs.len()
    &&& c.ids[row].len() <= d.ids[row].len()
    &&& forall|k: int| 0 <= k < c.ids[row].len() ==> #[trigger] d.ids[row][k] == c.ids[row][k]
}

/// Whether a segment that is cut at a span has a coordinate, in a region: in the span that of the span.
spec fn once_cut(g: Segment, iv: Span, reg: int, x: int, q: int) -> bool {
    g.min_x <= x < g.max_x && q == (if iv.lo <= x < iv.hi { reg } else { g.reg as int })
}

proof fn lemma_cut_at(c: Cuts, rows: int, row: int, m: int, iv: Span, reg: int)
    requires
        tidy(c, rows),
        0 <= row < rows,
        rows <= usize::MAX,
        0 <= m < c.ids[row].len(),
        i32::MIN <= reg <= i32::MAX,
        cut_at(c, row, c.ids[row][m] as int, iv, reg).segs.len() <= usize::MAX,
    ensures
        ({
            let sid = c.ids[row][m] as int;
            let d = cut_at(c, row, sid, iv, reg);
            &&& tidy(d, rows)
            &&& others_stay(c, d, row)
            &&& grows(c, d, row)
            &&& forall|k: int| 0 <= k < c.segs.len() && k != sid ==> #[trigger] d.segs[k] == c.segs[k]
            &&& forall|x: int, q: int, but: Set<int>| listed(c, row, but) && !but.contains(m) ==>
                (#[trigger] else_found(d, row, x, q, but) <==> else_found(c, row, x, q, but.insert(m)) || once_cut(c.segs[sid], iv, reg, x, q))
        }),
{
    let sid = c.ids[row][m] as int;
    assert(sid < c.segs.len());
    let g = c.segs[sid];
    let (sl, sr) = (g.min_x as int, g.max_x as int);
    let (il, ir) = (iv.lo as int, iv.hi as int);
    let d = cut_at(c, row, sid, iv, reg);
    if ir <= sl || il >= sr {
        assert forall|x: int, q: int, but: Set<int>| listed(c, row, but) && !but.contains(m) implies
            (#[trigger] else_found(d, row, x, q, but) <==> else_found(c, row, x, q, but.insert(m)) || once_cut(g, iv, reg, x, q)) by {
            assert(found_at(c, row, x, q, m) <==> once_cut(g, iv, reg, x, q));
            if else_found(c, row, x, q, but) {
                let k = choose|k: int| 0 <= k < c.ids[row].len() && !but.contains(k) && found_at(c, row, x, q, k);
                if k != m {
                    assert(!but.insert(m).contains(k));
                }
            }
            if else_found(c, row, x, q, but.insert(m)) {
                let k = choose|k: int| 0 <= k < c.ids[row].len() && !but.insert(m).contains(k) && found_at(c, row, x, q, k);
                assert(!but.contains(k));
            }
        }
    } else if il <= sl && ir >= sr {
        lemma_set(c, rows, row, m, sl, sr, reg);
    } else if il > sl && ir >= sr {
        let e = c.set(sid, sl, il, g.reg as int);
        lemma_set(c, rows, row, m, sl, il, g.reg as int);
        lemma_with(e, rows, row, il, sr, reg);
        assert forall|x: int, q: int, but: Set<int>| listed(c, row, but) && !but.contains(m) implies
            (#[trigger] else_found(d, row, x, q, but) <==> else_found(c, row, x, q, but.insert(m)) || once_cut(g, iv, reg, x, q)) by {
            assert(listed(e, row, but));
            assert(else_found(e, row, x, q, but) <==> else_found(c, row, x, q, but.insert(m)) || (sl <= x < il && q == g.reg));
        }
        lemma_stay_stay(c, e, d, row);
    } else if ir < sr && il <= sl {
        let e = c.set(sid, ir, sr, g.reg as int);
        lemma_set(c, rows, row, m, ir, sr, g.reg as int);
        lemma_with(e, rows, row, sl, ir, reg);
        assert forall|x: int, q: int, but: Set<int>| listed(c, row, but) && !but.contains(m) implies
            (#[trigger] else_found(d, row, x, q, but) <==> else_found(c, row, x, q, but.insert(m)) || once_cut(g, iv, reg, x, q)) by {
            assert(listed(e, row, but));
            assert(else_found(e, row, x, q, but) <==> else_found(c, row, x, q, but.insert(m)) || (ir <= x < sr && q == g.reg));
        }
        lemma_stay_stay(c, e, d, row);
    } else {
        let e = c.set(sid, sl, il, g.reg as int);
        let f = e.with(row, il, ir, reg);
        lemma_set(c, rows, row, m, sl, il, g.reg as int);
        lemma_with(e, rows, row, il, ir, reg);
        lemma_with(f, rows, row, ir, sr, g.reg as int);
        assert forall|x: int, q: int, but: Set<int>| listed(c, row, but) && !but.contains(m) implies
            (#[trigger] else_found(d, row, x, q, but) <==> else_found(c, row, x, q, but.insert(m)) || once_cut(g, iv, reg, x, q)) by {
            assert(listed(e, row, but) && listed(f, row, but));
            assert(else_found(e, row, x, q, but) <==> else_found(c, row, x, q, but.insert(m)) || (sl <= x < il && q == g.reg));
            assert(else_found(f, row, x, q, but) <==> else_found(e, row, x, q, but) || (il <= x < ir && q == reg));
        }
        lemma_stay_stay(c, e, f, row);
        lemma_stay_stay(c, f, d, row);
        assert forall|k: int| 0 <= k < c.ids[row].len() implies #[trigger] d.ids[row][k] == c.ids[row][k] by {
            assert(f.ids[row][k] == e.ids[row][k]);
        }
        assert forall|k: int| 0 <= k < c.segs.len() && k != sid implies #[trigger] d.segs[k] == c.segs[k] by {
            assert(f.segs[k] == e.segs[k]);
        }
    }
}

proof fn lemma_stay_stay(c: Cuts, d: Cuts, e: Cuts, row: int)
    requires
        others_stay(c, d, row),
        others_stay(d, e, row),
    ensures
        others_stay(c, e, row),
{
    assert forall|r: int, x: int, q: int| 0 <= r < c.ids.len() && r != row implies (#[trigger] found(e, r, x, q) <==> found(c, r, x, q)) by {
        assert(found(d, r, x, q) <==> found(c, r, x, q));
    }
}

/// What a row has, but for some numbers of its list, after the first `n` of its segments were cut at a span.
spec fn half_cut(c: Cuts, row: int, n: int, iv: Span, reg: int, x: int, q: int, but: Set<int>) -> bool {
    exists|k: int| 0 <= k < c.ids[row].len() && !but.contains(k) && half_cut_at(c, row, n, iv, reg, x, q, k)
}

spec fn half_cut_at(c: Cuts, row: int, n: int, iv: Span, reg: int, x: int, q: int, k: int) -> bool {
    if k < n { once_cut(c.segs[c.ids[row][k] as int], iv, reg, x, q) } else { found_at(c, row, x, q, k) }
}

/// The rows list segments there are.
spec fn in_range(c: Cuts, rows: int) -> bool {
    &&& c.ids.len() == rows
    &&& forall|r: int, k: int| 0 <= r < rows && 0 <= k < c.ids[r].len() ==> (#[trigger] c.ids[r][k]) < c.segs.len()
}

proof fn lemma_with_in_range(c: Cuts, rows: int, row: int, lo: int, hi: int, reg: int)
    requires
        in_range(c, rows),
        0 <= row < rows,
    ensures
        in_range(c.with(row, lo, hi, reg), rows),
        grows(c, c.with(row, lo, hi, reg), row),
{
    let d = c.with(row, lo, hi, reg);
    assert forall|r: int, k: int| 0 <= r < rows && 0 <= k < d.ids[r].len() implies (#[trigger] d.ids[r][k]) < d.segs.len() by {
        if r != row || k < c.ids[row].len() {
            assert(d.ids[r][k] == c.ids[r][k]);
        }
    }
}

proof fn lemma_cut_in_range(c: Cuts, rows: int, row: int, m: int, iv: Span, reg: int)
    requires
        in_range(c, rows),
        0 <= row < rows,
        0 <= m < c.ids[row].len(),
    ensures
        in_range(cut_at(c, row, c.ids[row][m] as int, iv, reg), rows),
        grows(c, cut_at(c, row, c.ids[row][m] as int, iv, reg), row),
{
    let sid = c.ids[row][m] as int;
    assert(sid < c.segs.len());
    let g = c.segs[sid];
    let (sl, sr) = (g.min_x as int, g.max_x as int);
    let (il, ir) = (iv.lo as int, iv.hi as int);
    assert forall|lo: int, hi: int, q: int| in_range(#[trigger] c.set(sid, lo, hi, q), rows) by {
        let d = c.set(sid, lo, hi, q);
        assert forall|r: int, k: int| 0 <= r < rows && 0 <= k < d.ids[r].len() implies (#[trigger] d.ids[r][k]) < d.segs.len() by {
            assert(c.ids[r][k] < c.segs.len());
        }
    }
    if ir <= sl || il >= sr {
    } else if il <= sl && ir >= sr {
        assert(in_range(c.set(sid, sl, sr, reg), rows));
    } else if il > sl && ir >= sr {
        lemma_with_in_range(c.set(sid, sl, il, g.reg as int), rows, row, il, sr, reg);
    } else if ir < sr && il <= sl {
        lemma_with_in_range(c.set(sid, ir, sr, g.reg as int), rows, row, sl, ir, reg);
    } else {
        let e = c.set(sid, sl, il, g.reg as int);
        lemma_with_in_range(e, rows, row, il, ir, reg);
        let f = e.with(row, il, ir, reg);
        lemma_with_in_range(f, rows, row, ir, sr, g.reg as int);
        let d = f.with(row, ir, sr, g.reg as int);
        assert forall|k: int| 0 <= k < c.ids[row].len() implies #[trigger] d.ids[row][k] == c.ids[row][k] by {
            assert(f.ids[row][k] == c.ids[row][k]);
        }
    }
}

proof fn lemma_cuts_grow(c: Cuts, rows: int, row: int, n: int, iv: Span, reg: int)
    requires
        in_range(c, rows),
        0 <= row < rows,
        n <= c.ids[row].len(),
    ensures
        in_range(cut_upto(c, row, n, iv, reg), rows),
        grows(c, cut_upto(c, row, n, iv, reg), row),
    decreases n,
{
    if n > 0 {
        lemma_cuts_grow(c, rows, row, n - 1, iv, reg);
        let d = cut_upto(c, row, n - 1, iv, reg);
        lemma_cut_in_range(d, rows, row, n - 1, iv, reg);
        let e = cut_upto(c, row, n, iv, reg);
        assert forall|k: int| 0 <= k < c.ids[row].len() implies #[trigger] e.ids[row][k] == c.ids[row][k] by {
            assert(d.ids[row][k] == c.ids[row][k]);
        }
    }
}

/// Numbers of a row's list from `n` on.
spec fn later(c: Cuts, row: int, n: int, but: Set<int>) -> bool {
    forall|k: int| #[trigger] but.contains(k) ==> n <= k < c.ids[row].len()
}

proof fn lemma_cut_upto(c: Cuts, rows: int, row: int, n: int, iv: Span, reg: int)
    requires
        tidy(c, rows),
        0 <= row < rows,
        rows <= usize::MAX,
        0 <= n <= c.ids[row].len(),
        i32::MIN <= reg <= i32::MAX,
        cut_upto(c, row, n, iv, reg).segs.len() <= usize::MAX,
    ensures
        ({
            let d = cut_upto(c, row, n, iv, reg);
            &&& tidy(d, rows)
            &&& others_stay(c, d, row)
            &&& grows(c, d, row)
            &&& forall|k: int| n <= k < c.ids[row].len() ==> d.segs[(#[trigger] c.ids[row][k]) as int] == c.segs[c.ids[row][k] as int]
            &&& forall|x: int, q: int, but: Set<int>| later(c, row, n, but) ==> (#[trigger] else_found(d, row, x, q, but) <==> half_cut(c, row, n, iv, reg, x, q, but))
        }),
    decreases n,
{
    let e = cut_upto(c, row, n, iv, reg);
    if n <= 0 {
        assert forall|x: int, q: int, but: Set<int>| later(c, row, n, but) implies (#[trigger] else_found(e, row, x, q, but) <==> half_cut(c, row, n, iv, reg, x, q, but)) by {
            if else_found(e, row, x, q, but) {
                let k = choose|k: int| 0 <= k < c.ids[row].len() && !but.contains(k) && found_at(c, row, x, q, k);
                assert(half_cut_at(c, row, n, iv, reg, x, q, k));
            }
            if half_cut(c, row, n, iv, reg, x, q, but) {
                let k = choose|k: int| 0 <= k < c.ids[row].len() && !but.contains(k) && half_cut_at(c, row, n, iv, reg, x, q, k);
                assert(found_at(c, row, x, q, k));
            }
        }
    } else {
        let d = cut_upto(c, row, n - 1, iv, reg);
        lemma_cuts_grow(c, rows, row, n - 1, iv, reg);
        lemma_cut_in_range(d, rows, row, n - 1, iv, reg);
        assert(d.segs.len() <= e.segs.len());
        lemma_cut_upto(c, rows, row, n - 1, iv, reg);
        lemma_cut_at(d, rows, row, n - 1, iv, reg);
        lemma_stay_stay(c, d, e, row);
        let sid = d.ids[row][n - 1] as int;
        assert(d.ids[row][n - 1] == c.ids[row][n - 1]);
        assert(d.segs[sid] == c.segs[sid]);
        assert forall|k: int| n <= k < c.ids[row].len() implies e.segs[(#[trigger] c.ids[row][k]) as int] == c.segs[c.ids[row][k] as int] by {
            assert(c.ids[row][n - 1] != c.ids[row][k]);
            assert(d.segs[c.ids[row][k] as int] == c.segs[c.ids[row][k] as int]);
        }
        assert forall|k: int| 0 <= k < c.ids[row].len() implies #[trigger] e.ids[row][k] == c.ids[row][k] by {
            assert(d.ids[row][k] == c.ids[row][k]);
        }
        assert forall|x: int, q: int, but: Set<int>| later(c, row, n, but) implies (#[trigger] else_found(e, row, x, q, but) <==> half_cut(c, row, n, iv, reg, x, q, but)) by {
            let more = but.insert(n - 1);
            assert(listed(d, row, but) && !but.contains(n - 1));
            assert(later(c, row, n - 1, more));
            assert(else_found(e, row, x, q, but) <==> else_found(d, row, x, q, more) || once_cut(d.segs[sid], iv, reg, x, q));
            assert(else_found(d, row, x, q, more) <==> half_cut(c, row, n - 1, iv, reg, x, q, more));
            assert(half_cut_at(c, row, n, iv, reg, x, q, n - 1) <==> once_cut(c.segs[sid], iv, reg, x, q));
            if half_cut(c, row, n - 1, iv, reg, x, q, more) {
                let k = choose|k: int| 0 <= k < c.ids[row].len() && !more.contains(k) && half_cut_at(c, row, n - 1, iv, reg, x, q, k);
                assert(k != n - 1 && !but.contains(k));
                assert(half_cut_at(c, row, n, iv, reg, x, q, k));
            }
            if half_cut(c, row, n, iv, reg, x, q, but) {
                let k = choose|k: int| 0 <= k < c.ids[row].len() && !but.contains(k) && half_cut_at(c, row, n, iv, reg, x, q, k);
                if k != n - 1 {
                    assert(!more.contains(k));
                    assert(half_cut_at(c, row, n - 1, iv, reg, x, q, k));
                }
            }
        }
    }
}

/// After a row was cut at a span, what it has in the span is of the span's region, and the rest as before.
spec fn cut_at_span(c: Cuts, d: Cuts, row: int, iv: Span, reg: int) -> bool {
    forall|x: int, q: int| #[trigger] found(d, row, x, q) <==>
        (if iv.lo <= x < iv.hi { q == reg && exists|p: int| #[trigger] found(c, row, x, p) } else { found(c, row, x, q) })
}

proof fn lemma_cut_whole(c: Cuts, rows: int, row: int, iv: Span, reg: int)
    requires
        tidy(c, rows),
        0 <= row < rows,
        rows <= usize::MAX,
        i32::MIN <= reg <= i32::MAX,
        cut_upto(c, row, c.ids[row].len() as int, iv, reg).segs.len() <= usize::MAX,
    ensures
        tidy(cut_upto(c, row, c.ids[row].len() as int, iv, reg), rows),
        others_stay(c, cut_upto(c, row, c.ids[row].len() as int, iv, reg), row),
        cut_at_span(c, cut_upto(c, row, c.ids[row].len() as int, iv, reg), row, iv, reg),
{
    let n = c.ids[row].len() as int;
    let d = cut_upto(c, row, n, iv, reg);
    lemma_cut_upto(c, rows, row, n, iv, reg);
    assert forall|x: int, q: int| #[trigger] found(d, row, x, q) <==>
        (if iv.lo <= x < iv.hi { q == reg && exists|p: int| #[trigger] found(c, row, x, p) } else { found(c, row, x, q) }) by {
        let none = Set::<int>::empty();
        lemma_else_none(d, row, x, q);
        assert(later(c, row, n, none));
        assert(else_found(d, row, x, q, none) <==> half_cut(c, row, n, iv, reg, x, q, none));
        if half_cut(c, row, n, iv, reg, x, q, none) {
            let k = choose|k: int| 0 <= k < n && !none.contains(k) && half_cut_at(c, row, n, iv, reg, x, q, k);
            let g = c.segs[c.ids[row][k] as int];
            assert(found_at(c, row, x, g.reg as int, k));
            assert(found(c, row, x, g.reg as int));
        }
        if iv.lo <= x < iv.hi {
            if q == reg && exists|p: int| #[trigger] found(c, row, x, p) {
                let p = choose|p: int| #[trigger] found(c, row, x, p);
                let k = choose|k: int| 0 <= k < n && found_at(c, row, x, p, k);
                assert(half_cut_at(c, row, n, iv, reg, x, q, k) && !none.contains(k));
            }
        } else if found(c, row, x, q) {
            let k = choose|k: int| 0 <= k < n && found_at(c, row, x, q, k);
            assert(half_cut_at(c, row, n, iv, reg, x, q, k) && !none.contains(k));
        }
    }
}

// ── regions ──────────────────────────────────────────────────────────────────────────────────

/// Whether a coordinate lies in one of the first `n` spans, their right ends left out.
pub open spec fn spanned(v: Seq<Span>, n: int, x: int) -> bool {
    exists|k: int| 0 <= k < n && (#[trigger] v[k]).lo <= x < v[k].hi
}

/// After a row was cut by a region, what it has where the region is, is of the region, and the rest as before.
spec fn painted(c: Cuts, d: Cuts, row: int, v: Seq<Span>, n: int, reg: int) -> bool {
    forall|x: int, q: int| #[trigger] found(d, row, x, q) <==>
        (if spanned(v, n, x) { q == reg && exists|p: int| #[trigger] found(c, row, x, p) } else { found(c, row, x, q) })
}

proof fn lemma_row_grows(c: Cuts, rows: int, row: int, v: Seq<Span>, n: int, reg: int)
    requires
        in_range(c, rows),
        0 <= row < rows,
    ensures
        in_range(cut_row(c, row, v, n, reg), rows),
        c.segs.len() <= cut_row(c, row, v, n, reg).segs.len(),
    decreases n,
{
    if n > 0 {
        lemma_row_grows(c, rows, row, v, n - 1, reg);
        let d = cut_row(c, row, v, n - 1, reg);
        lemma_cuts_grow(d, rows, row, d.ids[row].len() as int, v[n - 1], reg);
    }
}

proof fn lemma_cut_row(c: Cuts, rows: int, row: int, v: Seq<Span>, n: int, reg: int)
    requires
        tidy(c, rows),
        0 <= row < rows,
        rows <= usize::MAX,
        0 <= n <= v.len(),
        i32::MIN <= reg <= i32::MAX,
        cut_row(c, row, v, n, reg).segs.len() <= usize::MAX,
    ensures
        tidy(cut_row(c, row, v, n, reg), rows),
        others_stay(c, cut_row(c, row, v, n, reg), row),
        painted(c, cut_row(c, row, v, n, reg), row, v, n, reg),
    decreases n,
{
    if n > 0 {
        let d = cut_row(c, row, v, n - 1, reg);
        let e = cut_row(c, row, v, n, reg);
        lemma_row_grows(c, rows, row, v, n - 1, reg);
        lemma_cuts_grow(d, rows, row, d.ids[row].len() as int, v[n - 1], reg);
        lemma_cut_row(c, rows, row, v, n - 1, reg);
        lemma_cut_whole(d, rows, row, v[n - 1], reg);
        lemma_stay_stay(c, d, e, row);
        let iv = v[n - 1];
        assert forall|x: int, q: int| #[trigger] found(e, row, x, q) <==>
            (if spanned(v, n, x) { q == reg && exists|p: int| #[trigger] found(c, row, x, p) } else { found(c, row, x, q) }) by {
            assert(found(d, row, x, q) <==> (if spanned(v, n - 1, x) { q == reg && exists|p: int| #[trigger] found(c, row, x, p) } else { found(c, row, x, q) }));
            assert(found(d, row, x, reg) <==> (if spanned(v, n - 1, x) { exists|p: int| #[trigger] found(c, row, x, p) } else { found(c, row, x, reg) }));
            if exists|p: int| #[trigger] found(d, row, x, p) {
                let p = choose|p: int| #[trigger] found(d, row, x, p);
                assert(exists|p: int| #[trigger] found(c, row, x, p));
            }
            if exists|p: int| #[trigger] found(c, row, x, p) {
                let p = choose|p: int| #[trigger] found(c, row, x, p);
                if !spanned(v, n - 1, x) {
                    assert(found(d, row, x, p));
                } else {
                    assert(found(d, row, x, reg));
                }
            }
            if iv.lo <= x < iv.hi {
                assert(v[n - 1] == iv);
                assert(spanned(v, n, x));
            } else if spanned(v, n, x) {
                let k = choose|k: int| 0 <= k < n && (#[trigger] v[k]).lo <= x < v[k].hi;
                assert(k < n - 1);
                assert(spanned(v, n - 1, x));
            } else if spanned(v, n - 1, x) {
                let k = choose|k: int| 0 <= k < n - 1 && (#[trigger] v[k]).lo <= x < v[k].hi;
                assert(spanned(v, n, x));
            }
        }
    }
}

proof fn lemma_rows_grow(c: Cuts, rows: int, a: Arch, g: Group, n: int, reg: int)
    requires
        in_range(c, rows),
        n <= rows,
    ensures
        in_range(cut_rows_by(c, a, g, n, reg), rows),
        c.segs.len() <= cut_rows_by(c, a, g, n, reg).segs.len(),
    decreases n,
{
    if n > 0 {
        lemma_rows_grow(c, rows, a, g, n - 1, reg);
        let v = region_spans(a, g, n - 1);
        lemma_row_grows(cut_rows_by(c, a, g, n - 1, reg), rows, n - 1, v, v.len() as int, reg);
    }
}

proof fn lemma_cut_rows(c: Cuts, rows: int, a: Arch, g: Group, n: int, reg: int)
    requires
        tidy(c, rows),
        rows <= usize::MAX,
        0 <= n <= rows,
        i32::MIN <= reg <= i32::MAX,
        cut_rows_by(c, a, g, n, reg).segs.len() <= usize::MAX,
    ensures
        tidy(cut_rows_by(c, a, g, n, reg), rows),
        forall|r: int| 0 <= r < n ==> painted(c, #[trigger] cut_rows_by(c, a, g, n, reg), r, region_spans(a, g, r), region_spans(a, g, r).len() as int, reg),
        forall|r: int, x: int, q: int| n <= r < rows ==> (#[trigger] found(cut_rows_by(c, a, g, n, reg), r, x, q) <==> found(c, r, x, q)),
    decreases n,
{
    if n > 0 {
        let d = cut_rows_by(c, a, g, n - 1, reg);
        let e = cut_rows_by(c, a, g, n, reg);
        let v = region_spans(a, g, n - 1);
        lemma_rows_grow(c, rows, a, g, n - 1, reg);
        lemma_row_grows(d, rows, n - 1, v, v.len() as int, reg);
        lemma_cut_rows(c, rows, a, g, n - 1, reg);
        lemma_cut_row(d, rows, n - 1, v, v.len() as int, reg);
        assert forall|r: int, x: int, q: int| n <= r < rows implies (#[trigger] found(e, r, x, q) <==> found(c, r, x, q)) by {
            assert(found(d, r, x, q) <==> found(c, r, x, q));
        }
        assert forall|r: int| 0 <= r < n implies painted(c, e, r, #[trigger] region_spans(a, g, r), region_spans(a, g, r).len() as int, reg) by {
            let w = region_spans(a, g, r);
            if r == n - 1 {
                assert forall|x: int, q: int| #[trigger] found(e, r, x, q) <==>
                    (if spanned(w, w.len() as int, x) { q == reg && exists|p: int| #[trigger] found(c, r, x, p) } else { found(c, r, x, q) }) by {
                    assert(forall|p: int| #[trigger] found(d, r, x, p) <==> found(c, r, x, p));
                    if exists|p: int| #[trigger] found(c, r, x, p) {
                        let p = choose|p: int| #[trigger] found(c, r, x, p);
                        assert(found(d, r, x, p));
                    }
                }
            } else {
                assert(painted(c, d, r, w, w.len() as int, reg));
                assert forall|x: int, q: int| #[trigger] found(e, r, x, q) <==>
                    (if spanned(w, w.len() as int, x) { q == reg && exists|p: int| #[trigger] found(c, r, x, p) } else { found(c, r, x, q) }) by {
                    assert(found(d, r, x, q) <==> found(e, r, x, q));
                }
            }
        }
    }
}

proof fn lemma_groups_grow(c: Cuts, rows: int, a: Arch, groups: Seq<Group>, n: int)
    requires
        in_range(c, rows),
        a.rows@.len() == rows,
    ensures
        in_range(cut_groups(c, a, groups, n), rows),
        c.segs.len() <= cut_groups(c, a, groups, n).segs.len(),
    decreases n,
{
    if n > 0 {
        lemma_groups_grow(c, rows, a, groups, n - 1);
        lemma_rows_grow(cut_groups(c, a, groups, n - 1), rows, a, groups[n - 1], rows, n - 1);
    }
}

/// Whether group `g`'s spans of a row have a coordinate.
spec fn in_group(a: Arch, g: Group, r: int, x: int) -> bool {
    spanned(region_spans(a, g, r), region_spans(a, g, r).len() as int, x)
}

proof fn lemma_cut_groups(c: Cuts, rows: int, a: Arch, groups: Seq<Group>, n: int, r: int, x: int, q: int)
    requires
        tidy(c, rows),
        rows <= usize::MAX,
        a.rows@.len() == rows,
        0 <= r < rows,
        0 <= n <= groups.len() <= i32::MAX,
        forall|q: int| #[trigger] found(c, r, x, q) ==> q == -1,
        cut_groups(c, a, groups, n).segs.len() <= usize::MAX,
    ensures
        tidy(cut_groups(c, a, groups, n), rows),
        found(cut_groups(c, a, groups, n), r, x, q) <==> found(c, r, x, -1) && -1 <= q < n
            && (q >= 0 ==> in_group(a, groups[q], r, x)) && (forall|j: int| q < j < n ==> !in_group(a, #[trigger] groups[j], r, x)),
    decreases n,
{
    if n > 0 {
        let d = cut_groups(c, a, groups, n - 1);
        let e = cut_groups(c, a, groups, n);
        let g = groups[n - 1];
        lemma_groups_grow(c, rows, a, groups, n - 1);
        lemma_rows_grow(d, rows, a, g, rows, n - 1);
        lemma_cut_groups(c, rows, a, groups, n - 1, r, x, q);
        lemma_cut_rows(d, rows, a, g, rows, n - 1);
        let w = region_spans(a, g, r);
        assert(painted(d, e, r, w, w.len() as int, n - 1));
        assert(found(e, r, x, q) <==> (if spanned(w, w.len() as int, x) { q == n - 1 && exists|p: int| #[trigger] found(d, r, x, p) } else { found(d, r, x, q) }));
        if in_group(a, g, r, x) {
            if found(c, r, x, -1) {
                let p = lemma_last_group(a, groups, n - 1, r, x);
                lemma_cut_groups(c, rows, a, groups, n - 1, r, x, p);
                assert(found(d, r, x, p));
            }
            if exists|p: int| #[trigger] found(d, r, x, p) {
                let p = choose|p: int| #[trigger] found(d, r, x, p);
                lemma_cut_groups(c, rows, a, groups, n - 1, r, x, p);
            }
            if q < n - 1 {
                assert(in_group(a, groups[n - 1], r, x));
            }
        } else {
            assert(!in_group(a, groups[n - 1], r, x));
            if q == n - 1 {
                assert(!found(d, r, x, q));
            }
        }
    } else {
        if found(c, r, x, q) {
            assert(q == -1);
        }
    }
}

/// The last of the first `n` groups that has a coordinate of a row, -1 if none has.
proof fn lemma_last_group(a: Arch, groups: Seq<Group>, n: int, r: int, x: int) -> (q: int)
    requires
        0 <= n <= groups.len(),
    ensures
        -1 <= q < n,
        q >= 0 ==> in_group(a, groups[q], r, x),
        forall|j: int| q < j < n ==> !in_group(a, #[trigger] groups[j], r, x),
    decreases n,
{
    if n <= 0 {
        -1
    } else if in_group(a, groups[n - 1], r, x) {
        n - 1
    } else {
        lemma_last_group(a, groups, n - 1, r, x)
    }
}

// ── free space ───────────────────────────────────────────────────────────────────────────────

/// Each of some blockages begins before it ends.
pub open spec fn upright(b: Seq<Blockage>) -> bool {
    forall|k: int| 0 <= k < b.len() ==> (#[trigger] b[k]).lo() <= b[k].hi()
}

proof fn lemma_in_turn(b: Seq<Blockage>, i: int, j: int)
    requires
        parted(b),
        upright(b),
        0 <= i < j < b.len(),
    ensures
        b[i].hi() < b[j].lo(),
    decreases j - i,
{
    assert(b[j - 1].hi() < b[j].lo());
    if i < j - 1 {
        lemma_in_turn(b, i, j - 1);
        assert(b[j - 1].lo() <= b[j - 1].hi());
    }
}

/// The first blockage that ends after a coordinate, the number of blockages if none does.
proof fn lemma_first_after(b: Seq<Blockage>, x: int, n: int) -> (k: int)
    requires
        parted(b),
        upright(b),
        0 <= n <= b.len(),
        forall|j: int| n <= j < b.len() ==> x < (#[trigger] b[j]).hi(),
    ensures
        0 <= k <= n,
        k > 0 ==> b[k - 1].hi() <= x,
        k < b.len() ==> x < b[k].hi(),
    decreases n,
{
    if n > 0 && x < b[n - 1].hi() {
        lemma_first_after(b, x, n - 1)
    } else {
        n
    }
}

proof fn lemma_spaces(lo: int, hi: int, b: Seq<Blockage>, x: int)
    requires
        parted(b),
        upright(b),
    ensures
        (exists|k: int| 0 <= k <= b.len() && (#[trigger] space(lo, hi, b, k)).0 <= x < space(lo, hi, b, k).1) <==> lo <= x < hi && !shut(b, x),
{
    if exists|k: int| 0 <= k <= b.len() && (#[trigger] space(lo, hi, b, k)).0 <= x < space(lo, hi, b, k).1 {
        let k = choose|k: int| 0 <= k <= b.len() && (#[trigger] space(lo, hi, b, k)).0 <= x < space(lo, hi, b, k).1;
        if shut(b, x) {
            let j = choose|j: int| 0 <= j < b.len() && #[trigger] b[j].x_min - b[j].pad_left <= x < b[j].x_max + b[j].pad_right;
            assert(b[j].lo() <= x < b[j].hi());
            if j < k - 1 {
                lemma_in_turn(b, j, k - 1);
                assert(b[k - 1].lo() <= b[k - 1].hi());
            } else if j > k {
                lemma_in_turn(b, k, j);
                assert(b[k].lo() <= b[k].hi());
            }
        }
    }
    if lo <= x < hi && !shut(b, x) {
        let k = lemma_first_after(b, x, b.len() as int);
        if k < b.len() {
            if b[k].lo() <= x {
                assert(b[k].x_min - b[k].pad_left <= x < b[k].x_max + b[k].pad_right);
            }
        }
        assert(space(lo, hi, b, k).0 <= x < space(lo, hi, b, k).1);
    }
}

/// Whether one of the first `n` spaces of a row has a coordinate.
spec fn in_spaces(lo: int, hi: int, b: Seq<Blockage>, n: int, x: int) -> bool {
    exists|k: int| 0 <= k < n && (#[trigger] space(lo, hi, b, k)).0 <= x < space(lo, hi, b, k).1
}

proof fn lemma_spaces_grow(c: Cuts, rows: int, row: int, lo: int, hi: int, b: Seq<Blockage>, n: int)
    requires
        in_range(c, rows),
        0 <= row < rows,
    ensures
        in_range(with_spaces(c, row, lo, hi, b, n), rows),
        c.segs.len() <= with_spaces(c, row, lo, hi, b, n).segs.len(),
    decreases n,
{
    if n > 0 {
        lemma_spaces_grow(c, rows, row, lo, hi, b, n - 1);
        let w = space(lo, hi, b, n - 1);
        lemma_with_in_range(with_spaces(c, row, lo, hi, b, n - 1), rows, row, w.0, w.1, -1);
    }
}

proof fn lemma_with_spaces(c: Cuts, rows: int, row: int, lo: int, hi: int, b: Seq<Blockage>, n: int)
    requires
        tidy(c, rows),
        0 <= row < rows,
        rows <= usize::MAX,
        0 <= n <= b.len() + 1,
        i32::MIN <= lo <= i32::MAX,
        i32::MIN <= hi <= i32::MAX,
        with_spaces(c, row, lo, hi, b, n).segs.len() <= usize::MAX,
    ensures
        tidy(with_spaces(c, row, lo, hi, b, n), rows),
        others_stay(c, with_spaces(c, row, lo, hi, b, n), row),
        forall|x: int, q: int| #[trigger] found(with_spaces(c, row, lo, hi, b, n), row, x, q) <==> found(c, row, x, q) || (q == -1 && in_spaces(lo, hi, b, n, x)),
    decreases n,
{
    if n > 0 {
        let d = with_spaces(c, row, lo, hi, b, n - 1);
        let e = with_spaces(c, row, lo, hi, b, n);
        let w = space(lo, hi, b, n - 1);
        lemma_spaces_grow(c, rows, row, lo, hi, b, n - 1);
        lemma_with_in_range(d, rows, row, w.0, w.1, -1);
        lemma_with_spaces(c, rows, row, lo, hi, b, n - 1);
        if w.1 > w.0 {
            assert(e.segs.len() == d.segs.len() + 1);
            lemma_with(d, rows, row, w.0, w.1, -1);
            lemma_stay_stay(c, d, e, row);
        }
        assert forall|x: int, q: int| #[trigger] found(e, row, x, q) <==> found(c, row, x, q) || (q == -1 && in_spaces(lo, hi, b, n, x)) by {
            let none = Set::<int>::empty();
            lemma_else_none(d, row, x, q);
            lemma_else_none(e, row, x, q);
            assert(listed(d, row, none));
            assert(found(d, row, x, q) <==> found(c, row, x, q) || (q == -1 && in_spaces(lo, hi, b, n - 1, x)));
            if w.1 > w.0 {
                assert(else_found(e, row, x, q, none) <==> else_found(d, row, x, q, none) || (w.0 <= x < w.1 && q == -1));
            }
            if in_spaces(lo, hi, b, n, x) {
                let k = choose|k: int| 0 <= k < n && (#[trigger] space(lo, hi, b, k)).0 <= x < space(lo, hi, b, k).1;
                if k < n - 1 {
                    assert(in_spaces(lo, hi, b, n - 1, x));
                }
            }
            if in_spaces(lo, hi, b, n - 1, x) {
                let k = choose|k: int| 0 <= k < n - 1 && (#[trigger] space(lo, hi, b, k)).0 <= x < space(lo, hi, b, k).1;
                assert(in_spaces(lo, hi, b, n, x));
            }
            if w.0 <= x < w.1 {
                assert(in_spaces(lo, hi, b, n, x));
            }
        }
    } else {
        assert forall|x: int, q: int| #[trigger] found(with_spaces(c, row, lo, hi, b, n), row, x, q) <==> found(c, row, x, q) || (q == -1 && in_spaces(lo, hi, b, n, x)) by {
            assert(!in_spaces(lo, hi, b, n, x));
        }
    }
}

proof fn lemma_row_segments_grow(a: Arch, blocks: Seq<Vec<Blockage>>, n: int)
    requires
        n <= a.rows@.len(),
    ensures
        in_range(row_segments(a, blocks, n), a.rows@.len() as int),
    decreases n,
{
    if n > 0 {
        lemma_row_segments_grow(a, blocks, n - 1);
        let r = a.rows@[n - 1];
        lemma_spaces_grow(row_segments(a, blocks, n - 1), a.rows@.len() as int, n - 1, imax(a.min_x as int, r.left as int), imin(a.max_x as int, r.end()), blocks[n - 1]@,
            blocks[n - 1]@.len() as int + 1);
    }
}

proof fn lemma_row_segments(a: Arch, blocks: Seq<Vec<Blockage>>, n: int, r: int, x: int, q: int)
    requires
        a.wf(),
        blocks.len() == a.rows@.len(),
        0 <= n <= a.rows@.len(),
        0 <= r < a.rows@.len(),
        parted(blocks[r]@),
        upright(blocks[r]@),
        row_segments(a, blocks, n).segs.len() <= usize::MAX,
    ensures
        tidy(row_segments(a, blocks, n), a.rows@.len() as int),
        found(row_segments(a, blocks, n), r, x, q) <==> q == -1 && r < n
            && imax(a.min_x as int, a.rows@[r].left as int) <= x < imin(a.max_x as int, a.rows@[r].end()) && !shut(blocks[r]@, x),
    decreases n,
{
    let rows = a.rows@.len() as int;
    let e = row_segments(a, blocks, n);
    if n > 0 {
        let d = row_segments(a, blocks, n - 1);
        let w = a.rows@[n - 1];
        let (lo, hi) = (imax(a.min_x as int, w.left as int), imin(a.max_x as int, w.end()));
        let b = blocks[n - 1]@;
        assert(w.ok());
        lemma_row_segments_grow(a, blocks, n - 1);
        lemma_spaces_grow(d, rows, n - 1, lo, hi, b, b.len() as int + 1);
        lemma_row_segments(a, blocks, n - 1, r, x, q);
        lemma_with_spaces(d, rows, n - 1, lo, hi, b, b.len() as int + 1);
        if r == n - 1 {
            lemma_spaces(lo, hi, b, x);
            assert(in_spaces(lo, hi, b, b.len() as int + 1, x) <==> lo <= x < hi && !shut(b, x)) by {
                if in_spaces(lo, hi, b, b.len() as int + 1, x) {
                    let k = choose|k: int| 0 <= k < b.len() + 1 && (#[trigger] space(lo, hi, b, k)).0 <= x < space(lo, hi, b, k).1;
                }
            }
        } else {
            assert(found(e, r, x, q) <==> found(d, r, x, q));
        }
    } else {
        assert(e.ids[r].len() == 0);
    }
}

// ── spans of regions ─────────────────────────────────────────────────────────────────────────

proof fn lemma_fused_spans(s: Seq<Span>, n: int, x: int)
    requires
        in_order(s),
        0 <= n <= s.len(),
    ensures
        n > 0 ==> fused(s, n).len() > 0 && fused(s, n).last().lo <= s[n - 1].lo,
        spanned(fused(s, n), fused(s, n).len() as int, x) <==> spanned(s, n, x),
    decreases n,
{
    let f = fused(s, n);
    if n == 1 {
        if spanned(s, n, x) {
            assert(f[0].lo <= x < f[0].hi);
        }
        if spanned(f, 1, x) {
            assert(s[0].lo <= x < s[0].hi);
        }
    } else if n > 1 {
        lemma_fused_spans(s, n - 1, x);
        let t = fused(s, n - 1);
        let iv = s[n - 1];
        assert(s[n - 2].leq(iv));
        if spanned(f, f.len() as int, x) {
            let k = choose|k: int| 0 <= k < f.len() && (#[trigger] f[k]).lo <= x < f[k].hi;
            if k < t.len() && t[k].lo <= x < t[k].hi {
                assert(spanned(t, t.len() as int, x));
                let j = choose|j: int| 0 <= j < n - 1 && (#[trigger] s[j]).lo <= x < s[j].hi;
            } else {
                assert(s[n - 1].lo <= x < s[n - 1].hi);
            }
        }
        if spanned(s, n, x) {
            let j = choose|j: int| 0 <= j < n && (#[trigger] s[j]).lo <= x < s[j].hi;
            if j < n - 1 {
                assert(spanned(s, n - 1, x));
                let k = choose|k: int| 0 <= k < t.len() && (#[trigger] t[k]).lo <= x < t[k].hi;
                assert(f[k].lo <= x < f[k].hi);
            } else {
                let m = f.len() - 1;
                assert(f[m].lo <= x < f[m].hi);
            }
        }
    }
}

proof fn lemma_union_spans(v: Seq<Span>, x: int)
    ensures
        spanned(union_of(v), union_of(v).len() as int, x) <==> spanned(v, v.len() as int, x),
{
    lemma_sorted_spans(v);
    let s = sorted_spans(v);
    lemma_fused_spans(s, s.len() as int, x);
    v.to_multiset_ensures();
    s.to_multiset_ensures();
    if spanned(v, v.len() as int, x) {
        let k = choose|k: int| 0 <= k < v.len() && (#[trigger] v[k]).lo <= x < v[k].hi;
        assert(v.to_multiset().contains(v[k]));
        assert(s.to_multiset().contains(v[k]));
        assert(s.contains(v[k]));
        let j = choose|j: int| 0 <= j < s.len() && s[j] == v[k];
        assert(s[j].lo <= x < s[j].hi);
    }
    if spanned(s, s.len() as int, x) {
        let k = choose|k: int| 0 <= k < s.len() && (#[trigger] s[k]).lo <= x < s[k].hi;
        assert(s.to_multiset().contains(s[k]));
        assert(v.to_multiset().contains(s[k]));
        assert(v.contains(s[k]));
        let j = choose|j: int| 0 <= j < v.len() && v[j] == s[k];
        assert(v[j].lo <= x < v[j].hi);
    }
}

/// Whether a box covers a row's whole height, the rows taken as stacked, and a coordinate lies on the sites from the one
/// that its left edge is on to the one that its right edge is on.
pub open spec fn box_claims(a: Arch, b: Box4, r: int, x: int) -> bool {
    let bottom = a.min_y + r * a.rows@[0].height;
    &&& b.1 <= bottom && bottom + a.rows@[0].height <= b.3
    &&& site_of(a.rows@[r], b.0 as int) <= x < site_past(a.rows@[r], b.2 as int)
}

proof fn lemma_box_spans(a: Arch, rects: Seq<Box4>, r: int, n: int, x: int)
    requires
        a.wf(),
        0 <= r < a.rows@.len(),
        0 <= n <= rects.len(),
        forall|k: int| 0 <= k < rects.len() ==> small((#[trigger] rects[k]).0 as int) && small(rects[k].2 as int),
    ensures
        spanned(box_spans(a, rects, r, n), box_spans(a, rects, r, n).len() as int, x) <==> exists|k: int| 0 <= k < n && box_claims(a, #[trigger] rects[k], r, x),
    decreases n,
{
    let t = box_spans(a, rects, r, n);
    if n > 0 {
        lemma_box_spans(a, rects, r, n - 1, x);
        let s = box_spans(a, rects, r, n - 1);
        let b = rects[n - 1];
        let w = a.rows@[r];
        let (lo, hi) = (site_of(w, b.0 as int), site_past(w, b.2 as int));
        assert(w.ok() && small(b.0 as int) && small(b.2 as int));
        lemma_site_bounds(w, b.0 as int);
        lemma_site_bounds(w, b.2 as int);
        if spanned(t, t.len() as int, x) {
            let k = choose|k: int| 0 <= k < t.len() && (#[trigger] t[k]).lo <= x < t[k].hi;
            if k < s.len() {
                assert(s[k].lo <= x < s[k].hi);
                assert(spanned(s, s.len() as int, x));
            } else {
                assert(box_claims(a, b, r, x));
            }
        }
        if spanned(s, s.len() as int, x) {
            let k = choose|k: int| 0 <= k < s.len() && (#[trigger] s[k]).lo <= x < s[k].hi;
            assert(t[k].lo <= x < t[k].hi);
        }
        if box_claims(a, b, r, x) {
            assert(spans_row(a, b, r) && hi > lo);
            let m = t.len() - 1;
            assert(t[m].lo <= x < t[m].hi);
        }
    }
}

proof fn lemma_site_bounds(w: Row, x: int)
    requires
        w.ok(),
        small(x),
    ensures
        i32::MIN <= site_of(w, x) <= i32::MAX,
        i32::MIN <= site_past(w, x) <= i32::MAX,
        -(w.site_spacing as int) < x - site_of(w, x) < w.site_spacing,
        x >= w.left ==> site_of(w, x) <= x,
        x <= w.left ==> site_of(w, x) >= x,
        (site_of(w, x) - w.left) % (w.site_spacing as int) == 0,
{
    let (d, p) = (x - w.left, w.site_spacing as int);
    let q = crate::arith::trunc_quot(d, p);
    if d >= 0 {
        vstd::arithmetic::div_mod::lemma_fundamental_div_mod(d, p);
        assert(p * (d / p) == (d / p) * p) by (nonlinear_arith);
        assert(q == d / p);
    } else {
        vstd::arithmetic::div_mod::lemma_fundamental_div_mod(-d, p);
        let z = (-d) / p;
        assert(p * z == z * p && (-z) * p == -(z * p)) by (nonlinear_arith);
        assert(q == -z);
    }
    assert(site_of(w, x) - w.left == q * p + 0);
    vstd::arithmetic::div_mod::lemma_fundamental_div_mod_converse(q * p, p, q, 0);
}

// ── laws ─────────────────────────────────────────────────────────────────────────────────────

/// Whether a box of a group claims a coordinate of a row.
pub open spec fn group_claims(a: Arch, g: Group, r: int, x: int) -> bool {
    exists|k: int| 0 <= k < g.rects@.len() && box_claims(a, #[trigger] g.rects@[k], r, x)
}

/// Before their ends are put on sites, the segments of a row have a coordinate just where it lies in the core and the row
/// and no blockage shuts it; and in the region of the last group that claims it, in none if none does.
pub proof fn law_segments_are_the_free_space(a: Arch, blocks: Seq<Vec<Blockage>>, groups: Seq<Group>, r: int, x: int, q: int)
    requires
        a.wf(),
        blocks.len() == a.rows@.len(),
        groups.len() <= i32::MAX,
        0 <= r < a.rows@.len(),
        parted(blocks[r]@),
        upright(blocks[r]@),
        forall|i: int, k: int| 0 <= i < groups.len() && 0 <= k < groups[i].rects@.len() ==>
            small((#[trigger] groups[i].rects@[k]).0 as int) && small(groups[i].rects@[k].2 as int),
        segments_of(a, blocks, groups).segs.len() <= usize::MAX,
    ensures
        found(cut_groups(row_segments(a, blocks, a.rows@.len() as int), a, groups, groups.len() as int), r, x, q)
            <==> a.min_x <= x < a.max_x && a.rows@[r].left <= x < a.rows@[r].end() && !shut(blocks[r]@, x)
                && -1 <= q < groups.len() && (q >= 0 ==> group_claims(a, groups[q], r, x))
                && (forall|j: int| q < j < groups.len() ==> !group_claims(a, #[trigger] groups[j], r, x)),
{
    let rows = a.rows@.len() as int;
    let c = row_segments(a, blocks, rows);
    lemma_row_segments_grow(a, blocks, rows);
    lemma_groups_grow(c, rows, a, groups, groups.len() as int);
    lemma_row_segments(a, blocks, rows, r, x, -1);
    assert forall|p: int| #[trigger] found(c, r, x, p) implies p == -1 by {
        lemma_row_segments(a, blocks, rows, r, x, p);
    }
    lemma_cut_groups(c, rows, a, groups, groups.len() as int, r, x, q);
    assert forall|j: int| 0 <= j < groups.len() implies (in_group(a, #[trigger] groups[j], r, x) <==> group_claims(a, groups[j], r, x)) by {
        assert forall|k: int| 0 <= k < groups[j].rects@.len() implies small((#[trigger] groups[j].rects@[k]).0 as int) && small(groups[j].rects@[k].2 as int) by {}
        lemma_box_spans(a, groups[j].rects@, r, groups[j].rects@.len() as int, x);
        lemma_union_spans(box_spans(a, groups[j].rects@, r, groups[j].rects@.len() as int), x);
    }
    if q >= 0 && q < groups.len() {
        assert(in_group(a, groups[q], r, x) <==> group_claims(a, groups[q], r, x));
    }
}

/// The segments found end on sites of their rows: the left end of each on the first site not left of where its free space
/// begins, its right end on the last not right of where that ends. Its row and region stay.
pub proof fn law_segments_end_on_sites(a: Arch, blocks: Seq<Vec<Blockage>>, groups: Seq<Group>, k: int)
    requires
        a.wf(),
        0 <= k < segments_of(a, blocks, groups).segs.len(),
        ({
            let s = cut_groups(row_segments(a, blocks, a.rows@.len() as int), a, groups, groups.len() as int).segs[k];
            s.row < a.rows@.len() && small(s.min_x as int) && small(s.max_x as int) && a.rows@[s.row as int].left <= s.min_x <= s.max_x
        }),
    ensures
        segments_of(a, blocks, groups).ids == cut_groups(row_segments(a, blocks, a.rows@.len() as int), a, groups, groups.len() as int).ids,
        ({
            let s = cut_groups(row_segments(a, blocks, a.rows@.len() as int), a, groups, groups.len() as int).segs[k];
            let t = segments_of(a, blocks, groups).segs[k];
            let w = a.rows@[s.row as int];
            &&& t.row == s.row && t.reg == s.reg && t.id == s.id
            &&& (t.min_x - w.left) % (w.site_spacing as int) == 0
            &&& s.min_x <= t.min_x < s.min_x + w.site_spacing
            &&& (t.max_x - w.left) % (w.site_spacing as int) == 0
            &&& s.max_x - w.site_spacing < t.max_x <= s.max_x
        }),
{
    let s = cut_groups(row_segments(a, blocks, a.rows@.len() as int), a, groups, groups.len() as int).segs[k];
    let w = a.rows@[s.row as int];
    assert(w.ok());
    lemma_site_bounds(w, s.min_x as int);
    lemma_site_bounds(w, s.max_x as int);
    let d = site_of(w, s.min_x as int) - w.left;
    let p = w.site_spacing as int;
    vstd::arithmetic::div_mod::lemma_fundamental_div_mod(d, p);
    let z = d / p;
    assert((z + 1) * p == p * z + p) by (nonlinear_arith);
    vstd::arithmetic::div_mod::lemma_fundamental_div_mod_converse(d + p, p, z + 1, 0);
}

} // verus!
