//! What regions are: which groups have one, which squares lie in it, and which box a cell goes to.

use vstd::prelude::*;
use crate::arith::trunc_quot;
use crate::grid::{in_box, Grid};
use crate::regions::{box_holds, chosen_rect, claim, claim_sum, claimed_by, fence_named, fenced, foot_inside, grouped_pixel, looked_up, members, merged, names_hold, on_an_edge, tree_of, trunc_rem, wholly_covered, with_region, within, Box4, Group, GroupInput, RegionInput};

verus! {

// ── squares ──────────────────────────────────────────────────────────────────────────────────

proof fn lemma_down(g: Grid, y: int, i: int)
    requires
        g.rows_ok(),
        0 <= i <= g.row_count,
    ensures
        0 <= g.boundary_down(y, i) <= i,
        g.boundary_down(y, i) > 0 ==> g.row_y@[g.boundary_down(y, i)] <= y,
        forall|j: int| g.boundary_down(y, i) < j <= i ==> g.row_y@[j] > y,
    decreases i,
{
    if i > 0 && g.row_y@[i] > y {
        lemma_down(g, y, i - 1);
    }
}

/// The squares within a box are those whose own box, from column to column and from row boundary to row boundary, lies in it.
pub proof fn law_squares_within_lie_inside(g: Grid, r: Box4, x: int, y: int)
    requires
        g.wf(),
        0 <= y < g.row_count,
    ensures
        in_box(within(g, r), x, y) <==> r.0 <= x * g.site_width && (x + 1) * g.site_width <= r.2 && r.1 <= g.row_y@[y] && g.row_y@[y + 1] <= r.3,
{
    let sw = g.site_width as int;
    let a = r.0 as int;
    let b = r.2 as int;
    let w = within(g, r);
    vstd::arithmetic::div_mod::lemma_fundamental_div_mod(-a, sw);
    vstd::arithmetic::div_mod::lemma_fundamental_div_mod(b, sw);
    let p = (-a) / sw;
    let q = b / sw;
    assert(w.0 == -p && w.2 == q);
    assert(-p <= x <==> a <= x * sw) by (nonlinear_arith)
        requires
            -a == sw * p + (-a) % sw,
            0 <= (-a) % sw < sw,
            sw > 0,
    {
        if -p <= x {
            assert((x + p) * sw >= 0) by (nonlinear_arith)
                requires
                    x + p >= 0,
                    sw > 0,
            {
            }
            assert((x + p) * sw == x * sw + sw * p) by (nonlinear_arith);
        } else {
            assert((x + p) * sw <= -sw) by (nonlinear_arith)
                requires
                    x + p <= -1,
                    sw > 0,
            {
            }
            assert((x + p) * sw == x * sw + sw * p) by (nonlinear_arith);
        }
    }
    assert(x < q <==> (x + 1) * sw <= b) by (nonlinear_arith)
        requires
            b == sw * q + b % sw,
            0 <= b % sw < sw,
            sw > 0,
    {
        if x < q {
            assert((q - x - 1) * sw >= 0) by (nonlinear_arith)
                requires
                    q - x - 1 >= 0,
                    sw > 0,
            {
            }
            assert((q - x - 1) * sw == sw * q - (x + 1) * sw) by (nonlinear_arith);
        } else {
            assert((x + 1 - q) * sw >= sw) by (nonlinear_arith)
                requires
                    x + 1 - q >= 1,
                    sw > 0,
            {
            }
            assert((x + 1 - q) * sw == (x + 1) * sw - sw * q) by (nonlinear_arith);
        }
    }
    g.lemma_end_is(r.1 as int);
    let lo = g.end_row(r.1 as int);
    assert(lo <= y <==> r.1 <= g.row_y@[y]) by {
        if y < lo {
            assert(g.row_y@[y] < r.1);
        } else if lo < y {
            assert(g.row_y@[lo] < g.row_y@[y]);
        }
    }
    lemma_down(g, r.3 as int, g.row_count as int);
    let hi = g.boundary_down(r.3 as int, g.row_count as int);
    assert(y < hi <==> g.row_y@[y + 1] <= r.3) by {
        if y < hi {
            if y + 1 < hi {
                assert(g.row_y@[y + 1] < g.row_y@[hi]);
            }
        } else {
            assert(g.row_y@[y + 1] > r.3);
        }
    }
}

/// Whether the boxes of every group begin and end on columns.
pub open spec fn on_columns(g: Grid, groups: Seq<Group>) -> bool {
    forall|i: int, k: int| 0 <= i < groups.len() && 0 <= k < groups[i].rects@.len() ==>
        (#[trigger] groups[i].rects@[k]).0 as int % g.site_width as int == 0 && groups[i].rects@[k].2 as int % g.site_width as int == 0
}

proof fn lemma_no_rest(a: int, b: int)
    requires
        b > 0,
        a % b == 0,
    ensures
        trunc_rem(a, b) == 0,
        trunc_rem(b - a, b) == 0,
{
    vstd::arithmetic::div_mod::lemma_fundamental_div_mod(a, b);
    let q = a / b;
    assert(b * q == q * b && (-q) * b == -(q * b) && (1 - q) * b == b - q * b && (q - 1) * b == q * b - b) by (nonlinear_arith);
    if a >= 0 {
        assert(trunc_quot(a, b) == q);
    } else {
        vstd::arithmetic::div_mod::lemma_fundamental_div_mod_converse(-a, b, -q, 0);
        assert(trunc_quot(a, b) == q);
    }
    if b - a >= 0 {
        vstd::arithmetic::div_mod::lemma_fundamental_div_mod_converse(b - a, b, 1 - q, 0);
        assert(trunc_quot(b - a, b) == 1 - q);
    } else {
        vstd::arithmetic::div_mod::lemma_fundamental_div_mod_converse(a - b, b, q - 1, 0);
        assert(trunc_quot(b - a, b) == 1 - q);
    }
}

proof fn lemma_claim(g: Grid, groups: Seq<Group>, i: int, k: int, x: int, y: int)
    requires
        g.site_width > 0,
        on_columns(g, groups),
        0 <= i < groups.len(),
        0 <= k < groups[i].rects@.len(),
    ensures
        claim(g, groups[i].rects@[k], x, y) == if in_box(within(g, groups[i].rects@[k]), x, y) { g.site_width as int } else { 0 },
{
    let r = groups[i].rects@[k];
    lemma_no_rest(r.0 as int, g.site_width as int);
    lemma_no_rest(r.2 as int, g.site_width as int);
}

proof fn lemma_sum_none(g: Grid, groups: Seq<Group>, i: int, n: int, x: int, y: int)
    requires
        g.site_width > 0,
        on_columns(g, groups),
        0 <= i < groups.len(),
        0 <= n <= groups[i].rects@.len(),
        forall|k: int| 0 <= k < n ==> !in_box(within(g, #[trigger] groups[i].rects@[k]), x, y),
    ensures
        claim_sum(g, groups[i].rects@, n, x, y) == 0,
    decreases n,
{
    if n > 0 {
        lemma_sum_none(g, groups, i, n - 1, x, y);
        lemma_claim(g, groups, i, n - 1, x, y);
        assert(!in_box(within(g, groups[i].rects@[n - 1]), x, y));
    }
}

proof fn lemma_sum_one(g: Grid, groups: Seq<Group>, i: int, m: int, n: int, x: int, y: int)
    requires
        g.site_width > 0,
        on_columns(g, groups),
        0 <= i < groups.len(),
        0 <= m < n <= groups[i].rects@.len(),
        in_box(within(g, groups[i].rects@[m]), x, y),
        forall|k: int| 0 <= k < n && k != m ==> !in_box(within(g, #[trigger] groups[i].rects@[k]), x, y),
    ensures
        claim_sum(g, groups[i].rects@, n, x, y) == g.site_width,
    decreases n,
{
    lemma_claim(g, groups, i, n - 1, x, y);
    if m == n - 1 {
        lemma_sum_none(g, groups, i, n - 1, x, y);
    } else {
        lemma_sum_one(g, groups, i, m, n - 1, x, y);
        assert(!in_box(within(g, groups[i].rects@[n - 1]), x, y));
    }
}

/// Whether no group with cells, of those from `a` up to `b`, covers a square.
pub open spec fn uncovered(g: Grid, groups: Seq<Group>, a: int, b: int, x: int, y: int) -> bool {
    forall|i: int, k: int| a <= i < b && 0 <= i < groups.len() && groups[i].cells@.len() > 0 && 0 <= k < groups[i].rects@.len() ==>
        !in_box(within(g, #[trigger] groups[i].rects@[k]), x, y)
}

proof fn lemma_unclaimed(g: Grid, groups: Seq<Group>, n: int, x: int, y: int)
    requires
        g.site_width > 0,
        on_columns(g, groups),
        0 <= n <= groups.len(),
        uncovered(g, groups, 0, n, x, y),
    ensures
        claimed_by(g, groups, n, x, y) == 0,
        grouped_pixel(g, groups, n, x, y) == grouped_pixel(g, groups, 0, x, y),
    decreases n,
{
    if n > 0 {
        lemma_unclaimed(g, groups, n - 1, x, y);
        if groups[n - 1].cells@.len() > 0 {
            lemma_sum_none(g, groups, n - 1, groups[n - 1].rects@.len() as int, x, y);
            assert(!wholly_covered(g, groups[n - 1].rects@, x, y));
        }
    }
}

proof fn lemma_claimed(g: Grid, groups: Seq<Group>, i: int, m: int, n: int, x: int, y: int)
    requires
        g.site_width > 0,
        on_columns(g, groups),
        0 <= i < n <= groups.len() <= usize::MAX,
        groups[i].cells@.len() > 0,
        0 <= m < groups[i].rects@.len(),
        in_box(within(g, groups[i].rects@[m]), x, y),
        forall|k: int| 0 <= k < groups[i].rects@.len() && k != m ==> !in_box(within(g, #[trigger] groups[i].rects@[k]), x, y),
        uncovered(g, groups, 0, i, x, y),
        uncovered(g, groups, i + 1, n, x, y),
    ensures
        grouped_pixel(g, groups, n, x, y).group == Some(i as usize),
        grouped_pixel(g, groups, n, x, y).is_valid,
    decreases n,
{
    if n == i + 1 {
        lemma_unclaimed(g, groups, i, x, y);
        lemma_sum_one(g, groups, i, m, groups[i].rects@.len() as int, x, y);
        assert(wholly_covered(g, groups[i].rects@, x, y));
    } else {
        lemma_claimed(g, groups, i, m, n - 1, x, y);
        if groups[n - 1].cells@.len() > 0 {
            assert forall|k: int| 0 <= k < groups[n - 1].rects@.len() implies !in_box(within(g, #[trigger] groups[n - 1].rects@[k]), x, y) by {}
            assert(!wholly_covered(g, groups[n - 1].rects@, x, y));
        }
    }
}

/// Where the regions' boxes begin and end on columns, a square that one box of one group with cells covers, and no other
/// box of a group with cells, is valid and the group's.
pub proof fn law_covered_squares_are_the_groups(g: Grid, groups: Seq<Group>, i: int, m: int, x: int, y: int)
    requires
        g.site_width > 0,
        on_columns(g, groups),
        0 <= i < groups.len() <= usize::MAX,
        groups[i].cells@.len() > 0,
        0 <= m < groups[i].rects@.len(),
        in_box(within(g, groups[i].rects@[m]), x, y),
        forall|k: int| 0 <= k < groups[i].rects@.len() && k != m ==> !in_box(within(g, #[trigger] groups[i].rects@[k]), x, y),
        uncovered(g, groups, 0, i, x, y),
        uncovered(g, groups, i + 1, groups.len() as int, x, y),
    ensures
        grouped_pixel(g, groups, groups.len() as int, x, y).group == Some(i as usize),
        grouped_pixel(g, groups, groups.len() as int, x, y).is_valid,
{
    lemma_claimed(g, groups, i, m, groups.len() as int, x, y);
}

/// Where the regions' boxes begin and end on columns, a square that no group with cells covers stays as it is, but that it
/// is not valid where a box of some group overlaps it without holding it.
pub proof fn law_squares_on_edges_are_blocked(g: Grid, groups: Seq<Group>, x: int, y: int)
    requires
        g.site_width > 0,
        on_columns(g, groups),
        uncovered(g, groups, 0, groups.len() as int, x, y),
    ensures
        ({
            let p = grouped_pixel(g, groups, groups.len() as int, x, y);
            let cut = exists|i: int, k: int| 0 <= i < groups.len() && 0 <= k < groups[i].rects@.len() && ({
                let r = #[trigger] groups[i].rects@[k];
                &&& r.0 < (x + 1) * g.site_width && x * g.site_width < r.2 && r.1 < g.row_y@[y + 1] && g.row_y@[y] < r.3
                &&& !(r.0 <= x * g.site_width && (x + 1) * g.site_width <= r.2 && r.1 <= g.row_y@[y] && g.row_y@[y + 1] <= r.3)
            });
            &&& cut ==> !p.is_valid
            &&& !cut ==> p == g.px(x, y)
            &&& p.group == g.px(x, y).group
        }),
{
    lemma_unclaimed(g, groups, groups.len() as int, x, y);
    if on_an_edge(g, groups, x, y) {
        let (i, k) = choose|i: int, k: int| 0 <= i < groups.len() && 0 <= k < groups[i].rects@.len()
            && crate::regions::straddles(#[trigger] groups[i].rects@[k], crate::regions::square_box(g, x, y));
        assert(0 <= k < groups[i].rects@.len());
    }
}

// ── groups and names ─────────────────────────────────────────────────────────────────────────

/// The groups kept are those that have a region, each once and in their order.
pub proof fn law_groups_kept_have_a_region(groups: Seq<GroupInput>, n: int)
    requires
        0 <= n <= groups.len(),
    ensures
        forall|i: int| 0 <= i < n && (#[trigger] groups[i]).has_region ==> with_region(groups, n).contains(i),
        forall|k: int| 0 <= k < with_region(groups, n).len() ==> 0 <= #[trigger] with_region(groups, n)[k] < n && groups[with_region(groups, n)[k]].has_region,
        forall|j: int, k: int| 0 <= j < k < with_region(groups, n).len() ==> #[trigger] with_region(groups, n)[j] < #[trigger] with_region(groups, n)[k],
    decreases n,
{
    if n > 0 {
        law_groups_kept_have_a_region(groups, n - 1);
        let s = with_region(groups, n - 1);
        let t = with_region(groups, n);
        assert forall|i: int| 0 <= i < n && (#[trigger] groups[i]).has_region implies t.contains(i) by {
            if i < n - 1 {
                assert(s.contains(i));
                let k = choose|k: int| 0 <= k < s.len() && s[k] == i;
                assert(t[k] == i);
            } else {
                assert(t[t.len() - 1] == i);
            }
        }
        assert forall|k: int| 0 <= k < t.len() implies 0 <= #[trigger] t[k] < n && groups[t[k]].has_region by {
            if k < s.len() {
                assert(t[k] == s[k]);
            }
        }
        assert forall|j: int, k: int| 0 <= j < k < t.len() implies #[trigger] t[j] < #[trigger] t[k] by {
            assert(t[j] == s[j]);
            if k < s.len() {
                assert(t[k] == s[k]);
            }
        }
    }
}

/// A group's cells are those of its instances that are in the network, in their order.
pub proof fn law_group_cells_are_in_the_network(insts: Seq<String>, network: Seq<String>, n: int)
    requires
        0 <= n <= insts.len(),
    ensures
        forall|i: int| 0 <= i < n && names_hold(network, (#[trigger] insts[i])@) ==> members(insts, network, n).contains(insts[i]),
        forall|k: int| 0 <= k < members(insts, network, n).len() ==> names_hold(network, (#[trigger] members(insts, network, n)[k])@)
            && insts.subrange(0, n).contains(members(insts, network, n)[k]),
    decreases n,
{
    if n > 0 {
        law_group_cells_are_in_the_network(insts, network, n - 1);
        let s = members(insts, network, n - 1);
        let t = members(insts, network, n);
        let a = insts.subrange(0, n);
        assert forall|i: int| 0 <= i < n && names_hold(network, (#[trigger] insts[i])@) implies t.contains(insts[i]) by {
            if i < n - 1 {
                assert(s.contains(insts[i]));
                let k = choose|k: int| 0 <= k < s.len() && s[k] == insts[i];
                assert(t[k] == insts[i]);
            } else {
                assert(t[t.len() - 1] == insts[i]);
            }
        }
        assert forall|k: int| 0 <= k < t.len() implies names_hold(network, (#[trigger] t[k])@) && a.contains(t[k]) by {
            if k < s.len() {
                assert(t[k] == s[k]);
                let b = insts.subrange(0, n - 1);
                let j = choose|j: int| 0 <= j < b.len() && b[j] == s[k];
                assert(a[j] == t[k]);
            } else {
                assert(a[n - 1] == t[k]);
            }
        }
    }
}

/// A table gives a name the value of its last entry under it, and none without such an entry.
pub proof fn law_the_last_entry_counts<T>(v: Seq<(String, T)>, name: Seq<char>, n: int)
    requires
        0 <= n <= v.len(),
    ensures
        looked_up(v, name, n) is None <==> forall|k: int| 0 <= k < n ==> (#[trigger] v[k]).0@ != name,
        forall|k: int| 0 <= k < n && (#[trigger] v[k]).0@ == name && (forall|j: int| k < j < n ==> (#[trigger] v[j]).0@ != name) ==> looked_up(v, name, n) == Some(v[k].1),
    decreases n,
{
    if n > 0 {
        law_the_last_entry_counts(v, name, n - 1);
        if v[n - 1].0@ == name {
            assert forall|k: int| 0 <= k < n && (#[trigger] v[k]).0@ == name && (forall|j: int| k < j < n ==> (#[trigger] v[j]).0@ != name) implies looked_up(v, name, n) == Some(v[k].1) by {
                if k < n - 1 {
                    assert(v[n - 1].0@ != name);
                }
            }
        } else {
            assert forall|k: int| 0 <= k < n && (#[trigger] v[k]).0@ == name && (forall|j: int| k < j < n ==> (#[trigger] v[j]).0@ != name) implies looked_up(v, name, n) == Some(v[k].1) by {
                assert(k != n - 1);
                assert(forall|j: int| k < j < n - 1 ==> (#[trigger] v[j]).0@ != name);
            }
        }
    }
}

/// A cell goes to the last box that holds its footprint, edges included; to the other one if none does.
pub proof fn law_a_cell_goes_to_a_box_that_holds_it(rects: Seq<Box4>, f: Box4, other: Box4, n: int)
    requires
        0 <= n <= rects.len(),
    ensures
        (forall|k: int| 0 <= k < n ==> !foot_inside(f, #[trigger] rects[k])) ==> chosen_rect(rects, f, other, n) == other,
        forall|k: int| 0 <= k < n && foot_inside(f, #[trigger] rects[k]) ==> ({
            let c = chosen_rect(rects, f, other, n);
            c.0 <= f.0 && f.0 + f.2 <= c.2 && c.1 <= f.1 && f.1 + f.3 <= c.3
        }),
        forall|k: int| 0 <= k < n && foot_inside(f, #[trigger] rects[k]) && (forall|j: int| k < j < n ==> !foot_inside(f, #[trigger] rects[j])) ==> chosen_rect(rects, f, other, n) == rects[k],
    decreases n,
{
    if n > 0 {
        law_a_cell_goes_to_a_box_that_holds_it(rects, f, other, n - 1);
        if !foot_inside(f, rects[n - 1]) {
            assert forall|k: int| 0 <= k < n && foot_inside(f, #[trigger] rects[k]) && (forall|j: int| k < j < n ==> !foot_inside(f, #[trigger] rects[j])) implies chosen_rect(rects, f, other, n) == rects[k] by {
                assert(k != n - 1);
                assert(forall|j: int| k < j < n - 1 ==> !foot_inside(f, #[trigger] rects[j]));
            }
        } else {
            assert forall|k: int| 0 <= k < n && foot_inside(f, #[trigger] rects[k]) && (forall|j: int| k < j < n ==> !foot_inside(f, #[trigger] rects[j])) implies chosen_rect(rects, f, other, n) == rects[k] by {
                if k < n - 1 {
                    assert(!foot_inside(f, rects[n - 1]));
                }
            }
        }
    }
}

/// The box around some boxes holds each of them, and each of its sides is a side of one.
pub proof fn law_bbox_is_tight(rects: Seq<Box4>, n: int)
    requires
        0 < n <= rects.len(),
    ensures
        exists|k: int| 0 <= k < n && (#[trigger] rects[k]).0 == merged(rects, n).0,
        exists|k: int| 0 <= k < n && (#[trigger] rects[k]).1 == merged(rects, n).1,
        exists|k: int| 0 <= k < n && (#[trigger] rects[k]).2 == merged(rects, n).2,
        exists|k: int| 0 <= k < n && (#[trigger] rects[k]).3 == merged(rects, n).3,
        forall|k: int| 0 <= k < n ==> box_holds(merged(rects, n), #[trigger] rects[k]),
    decreases n,
{
    if n > 1 {
        law_bbox_is_tight(rects, n - 1);
        let b = rects[n - 1];
    } else {
        let b = rects[0];
    }
}

/// The checker's boxes are those of all groups, each with its high edges drawn in by one.
pub proof fn law_every_box_is_searched(groups: Seq<Group>, n: int, i: int, k: int)
    requires
        0 <= i < n <= groups.len(),
        0 <= k < groups[i].rects@.len(),
        groups[i].rects@[k].2 > i32::MIN,
        groups[i].rects@[k].3 > i32::MIN,
    ensures
        exists|j: int| 0 <= j < tree_of(groups, n).len() && ({
            let b = #[trigger] tree_of(groups, n)[j];
            let r = groups[i].rects@[k];
            b.0 == r.0 && b.1 == r.1 && b.2 == r.2 - 1 && b.3 == r.3 - 1
        }),
    decreases n,
{
    let t = tree_of(groups, n);
    let s = tree_of(groups, n - 1);
    if i == n - 1 {
        let j = s.len() + k;
        assert(t[j] == crate::regions::shrunk(groups[i].rects@[k]));
    } else {
        law_every_box_is_searched(groups, n - 1, i, k);
        let r = groups[i].rects@[k];
        let j = choose|j: int| 0 <= j < s.len() && (#[trigger] s[j]).0 == r.0 && s[j].1 == r.1 && s[j].2 == r.2 - 1 && s[j].3 == r.3 - 1;
        assert(t[j] == s[j]);
    }
}

// ── fences ───────────────────────────────────────────────────────────────────────────────────

/// Every region with boundaries is a fence, in their order.
pub proof fn law_regions_with_boundaries_are_fences(regions: Seq<RegionInput>, n: int)
    requires
        0 <= n <= regions.len(),
    ensures
        forall|i: int| 0 <= i < n && (#[trigger] regions[i]).boundaries@.len() > 0 ==> fenced(regions, n).contains(i),
        forall|k: int| 0 <= k < fenced(regions, n).len() ==> 0 <= #[trigger] fenced(regions, n)[k] < n && regions[fenced(regions, n)[k]].boundaries@.len() > 0,
        forall|j: int, k: int| 0 <= j < k < fenced(regions, n).len() ==> #[trigger] fenced(regions, n)[j] < #[trigger] fenced(regions, n)[k],
    decreases n,
{
    if n > 0 {
        law_regions_with_boundaries_are_fences(regions, n - 1);
        let s = fenced(regions, n - 1);
        let t = fenced(regions, n);
        assert forall|i: int| 0 <= i < n && (#[trigger] regions[i]).boundaries@.len() > 0 implies t.contains(i) by {
            if i < n - 1 {
                assert(s.contains(i));
                let k = choose|k: int| 0 <= k < s.len() && s[k] == i;
                assert(t[k] == i);
            } else {
                assert(t[t.len() - 1] == i);
            }
        }
        assert forall|k: int| 0 <= k < t.len() implies 0 <= #[trigger] t[k] < n && regions[t[k]].boundaries@.len() > 0 by {
            if k < s.len() {
                assert(t[k] == s[k]);
            }
        }
        assert forall|j: int, k: int| 0 <= j < k < t.len() implies #[trigger] t[j] < #[trigger] t[k] by {
            assert(t[j] == s[j]);
            if k < s.len() {
                assert(t[k] == s[k]);
            }
        }
    }
}

/// A name's fence is the last one whose region has it; there is none where none has.
pub proof fn law_a_name_has_its_last_fence(regions: Seq<RegionInput>, ix: Seq<int>, name: Seq<char>, n: int)
    requires
        0 <= n <= ix.len(),
    ensures
        fence_named(regions, ix, name, n) is None <==> forall|k: int| 0 <= k < n ==> regions[#[trigger] ix[k]].name@ != name,
        fence_named(regions, ix, name, n) matches Some(f) ==> 0 <= f < n && regions[ix[f]].name@ == name && forall|k: int| f < k < n ==> regions[#[trigger] ix[k]].name@ != name,
    decreases n,
{
    if n > 0 {
        law_a_name_has_its_last_fence(regions, ix, name, n - 1);
    }
}

} // verus!
