//! What a report says of the cells of a design, in coordinates.

use vstd::prelude::*;
use crate::check::{cell_box, fault, fault_if, faults, is_block, least_site, least_x, overlap_faults, pads_of, CheckCell, CheckInput, Failure, Fault, Report};
use crate::grid::{in_box, offers, Grid, GridError, RowInfo};
use crate::grid_laws::{law_a_design_makes_one_grid, law_cover_is_what_the_box_meets, law_offered_sites_are_those_of_rows, law_valid_squares_are_row_sites_without_blockage, lemma_common_square, lemma_cover_meets, lemma_same_cover, meet, meets_square, on_grid, row_has, square_box};
use crate::regions::Regions;
use crate::text::has_part;

verus! {

// ── reports ──────────────────────────────────────────────────────────────────────────────────

/// Whether a report names a cell for a family of failures.
pub open spec fn names(r: Report, family: Seq<char>, cell: Seq<char>) -> bool {
    exists|k: int| 0 <= k < r.failures@.len() && (#[trigger] r.failures@[k]).family@ == family && r.failures@[k].cell@ == cell
}

/// What is found is reported, and nothing else.
proof fn lemma_reported(found: Seq<Failure>, r: Report, f: Fault)
    requires
        r.failures@.to_multiset() == found.to_multiset(),
    ensures
        faults(found).contains(f) ==> names(r, f.family, f.cell),
        faults(r.failures@).contains(f) ==> faults(found).contains(f),
        found.len() == r.failures@.len(),
{
    found.to_multiset_ensures();
    r.failures@.to_multiset_ensures();
    if faults(found).contains(f) {
        let k = choose|k: int| 0 <= k < faults(found).len() && faults(found)[k] == f;
        assert(found.contains(found[k]));
        assert(found.to_multiset().count(found[k]) > 0);
        assert(r.failures@.contains(found[k]));
        let q = choose|q: int| 0 <= q < r.failures@.len() && r.failures@[q] == found[k];
        assert(r.failures@[q].family@ == f.family && r.failures@[q].cell@ == f.cell);
    }
    if faults(r.failures@).contains(f) {
        let k = choose|k: int| 0 <= k < faults(r.failures@).len() && faults(r.failures@)[k] == f;
        assert(r.failures@.contains(r.failures@[k]));
        assert(r.failures@.to_multiset().count(r.failures@[k]) > 0);
        assert(found.contains(r.failures@[k]));
        let q = choose|q: int| 0 <= q < found.len() && found[q] == r.failures@[k];
        assert(faults(found)[q] == f);
    }
}

proof fn lemma_in_concat<T>(a: Seq<T>, b: Seq<T>, f: T)
    ensures
        (a + b).contains(f) <==> a.contains(f) || b.contains(f),
{
    let c = a + b;
    if a.contains(f) {
        let k = choose|k: int| 0 <= k < a.len() && a[k] == f;
        assert(c[k] == f);
    }
    if b.contains(f) {
        let k = choose|k: int| 0 <= k < b.len() && b[k] == f;
        assert(c[a.len() + k] == f);
    }
    if c.contains(f) {
        let k = choose|k: int| 0 <= k < c.len() && c[k] == f;
        if k < a.len() {
            assert(a[k] == f);
        } else {
            assert(b[k - a.len()] == f);
        }
    }
}

/// What a cell is found guilty of is among what the first `n` cells are, and the other way round.
proof fn lemma_faults_of(d: CheckInput, g: Grid, regions: Regions, pv: Option<Seq<(i32, i32)>>, hs: Seq<Grid>, bodies: Seq<Grid>, n: int, f: Fault)
    requires
        0 <= n <= d.cells@.len(),
    ensures
        d.faults_upto(g, regions, pv, hs, bodies, n).contains(f)
            <==> exists|i: int| 0 <= i < n && (#[trigger] d.faults_of(g, regions, hs[i], bodies[i], i, pads_of(pv, i))).contains(f),
    decreases n,
{
    if n > 0 {
        lemma_faults_of(d, g, regions, pv, hs, bodies, n - 1, f);
        lemma_in_concat(d.faults_upto(g, regions, pv, hs, bodies, n - 1), d.faults_of(g, regions, hs[n - 1], bodies[n - 1], n - 1, pads_of(pv, n - 1)), f);
        if exists|i: int| 0 <= i < n && (#[trigger] d.faults_of(g, regions, hs[i], bodies[i], i, pads_of(pv, i))).contains(f) {
            let i = choose|i: int| 0 <= i < n && (#[trigger] d.faults_of(g, regions, hs[i], bodies[i], i, pads_of(pv, i))).contains(f);
            assert(d.faults_of(g, regions, hs[i], bodies[i], i, pads_of(pv, i)).contains(f));
        }
    }
}

/// What a cell is found guilty of where no grid can be made.
spec fn bare_faults_of(d: CheckInput, i: int) -> Seq<Fault> {
    let c = d.cells@[i];
    if d.misaligned(i) {
        seq![fault("site_align"@, c.name@)]
    } else {
        fault_if(!c.placed, "placed"@, c.name@)
            + overlap_faults(c.name@, match d.earlier_overlap(i, 0) { Some(o) => Some(d.cells@[o].name@), None => None })
    }
}

proof fn lemma_bare_faults(d: CheckInput, n: int, f: Fault)
    requires
        0 <= n <= d.cells@.len(),
    ensures
        d.bare_faults(n).contains(f) <==> exists|i: int| 0 <= i < n && (#[trigger] bare_faults_of(d, i)).contains(f),
    decreases n,
{
    if n > 0 {
        lemma_bare_faults(d, n - 1, f);
        lemma_in_concat(d.bare_faults(n - 1), bare_faults_of(d, n - 1), f);
        if exists|i: int| 0 <= i < n && (#[trigger] bare_faults_of(d, i)).contains(f) {
            let i = choose|i: int| 0 <= i < n && (#[trigger] bare_faults_of(d, i)).contains(f);
            assert(bare_faults_of(d, i).contains(f));
        }
    }
}

proof fn lemma_gaps(d: CheckInput, h: Grid, n: int, f: Fault)
    requires
        0 <= n,
        d.gaps_upto(h, n).contains(f),
    ensures
        f.family == "one_site_gap"@,
    decreases n,
{
    if n > 0 {
        let c = d.covered(h, n - 1);
        let b = fault_if(crate::check::gap_upto(crate::check::squares_of(h), c.0, c.1, c.2, c.3), "one_site_gap"@, d.cells@[n - 1].name@);
        lemma_in_concat(d.gaps_upto(h, n - 1), b, f);
        if d.gaps_upto(h, n - 1).contains(f) {
            lemma_gaps(d, h, n - 1, f);
        }
    }
}

/// The names of the families differ.
proof fn lemma_families()
    ensures
        "site_align"@ != "in_rows"@,
        "site_align"@ != "region_placement"@,
        "site_align"@ != "placed"@,
        "site_align"@ != "overlap"@,
        "site_align"@ != "padding"@,
        "site_align"@ != "edge_spacing"@,
        "site_align"@ != "blocked_layers"@,
        "site_align"@ != "one_site_gap"@,
{
    reveal_strlit("site_align");
    reveal_strlit("in_rows");
    reveal_strlit("region_placement");
    reveal_strlit("placed");
    reveal_strlit("overlap");
    reveal_strlit("padding");
    reveal_strlit("edge_spacing");
    reveal_strlit("blocked_layers");
    reveal_strlit("one_site_gap");
    assert("site_align"@.len() == 10);
    assert("in_rows"@.len() == 7 && "region_placement"@.len() == 16 && "placed"@.len() == 6 && "overlap"@.len() == 7 && "padding"@.len() == 7);
    assert("edge_spacing"@.len() == 12 && "blocked_layers"@.len() == 14 && "one_site_gap"@.len() == 12);
}

/// A cell that is aligned is not found off the sites.
proof fn lemma_aligned_is_not_named(d: CheckInput, g: Grid, regions: Regions, h: Grid, h1: Grid, i: int, pads: (int, int), f: Fault)
    requires
        d.faults_of(g, regions, h, h1, i, pads).contains(f),
        f.family == "site_align"@,
    ensures
        d.misaligned(i),
        f.cell == d.cells@[i].name@,
{
    lemma_families();
    let c = d.cells@[i];
    let n = c.name@;
    if !d.misaligned(i) {
        let a1 = fault_if(!is_block(c) && !d.in_rows(g, i), "in_rows"@, n);
        let a2 = fault_if(!is_block(c) && !regions.well_placed(n, c.x - g.core.0, c.y - g.core.1, c.w as int, c.h as int, g.site_width as int, g.row_y@, g.core.3 as int), "region_placement"@, n);
        let a3 = fault_if(!c.placed, "placed"@, n);
        let a4 = overlap_faults(n, match d.overlapped(h, i) { Some(o) => Some(d.cells@[o].name@), None => None });
        let a5 = fault_if(!d.padding_kept(h1, i, pads), "padding"@, n);
        let a6 = fault_if(!c.edges_ok, "edge_spacing"@, n);
        let a7 = fault_if(!d.levels_clear(h, i), "blocked_layers"@, n);
        lemma_in_concat(a1, a2, f);
        lemma_in_concat(a1 + a2, a3, f);
        lemma_in_concat(a1 + a2 + a3, a4, f);
        lemma_in_concat(a1 + a2 + a3 + a4, a5, f);
        lemma_in_concat(a1 + a2 + a3 + a4 + a5, a6, f);
        lemma_in_concat(a1 + a2 + a3 + a4 + a5 + a6, a7, f);
    } else {
        let s = seq![fault("site_align"@, n)];
        let k = choose|k: int| 0 <= k < s.len() && s[k] == f;
    }
}

// ── sites and rows ───────────────────────────────────────────────────────────────────────────

/// Whether `left` is the least X of the rows.
pub open spec fn leftmost(rows: Seq<RowInfo>, left: int) -> bool {
    &&& exists|k: int| 0 <= k < rows.len() && (#[trigger] rows[k]).x == left
    &&& forall|k: int| 0 <= k < rows.len() ==> left <= (#[trigger] rows[k]).x
}

/// Whether `sw` is the least of the rows' positive site widths.
pub open spec fn narrowest(rows: Seq<RowInfo>, sw: int) -> bool {
    &&& sw > 0
    &&& exists|k: int| 0 <= k < rows.len() && (#[trigger] rows[k]).site_width == sw
    &&& forall|k: int| 0 <= k < rows.len() && (#[trigger] rows[k]).site_width > 0 ==> sw <= rows[k].site_width
}

/// Whether a cell stands on a row and on a site: a row starts at its Y, and it is some number of sites right of the
/// leftmost row's start.
pub open spec fn stands_on_a_site(d: CheckInput, c: CheckCell, left: int, sw: int) -> bool {
    &&& exists|k: int| 0 <= k < d.grid.rows@.len() && (#[trigger] d.grid.rows@[k]).y == c.y
    &&& exists|q: int| c.x == left + #[trigger] (q * sw)
}

proof fn lemma_least_x(rows: Seq<RowInfo>, n: int)
    requires
        1 <= n <= rows.len(),
    ensures
        forall|k: int| 0 <= k < n ==> least_x(rows, n) <= (#[trigger] rows[k]).x,
        exists|k: int| 0 <= k < n && (#[trigger] rows[k]).x == least_x(rows, n),
    decreases n,
{
    if n > 1 {
        lemma_least_x(rows, n - 1);
        let k = choose|k: int| 0 <= k < n - 1 && (#[trigger] rows[k]).x == least_x(rows, n - 1);
        if least_x(rows, n) == least_x(rows, n - 1) {
            assert(rows[k].x == least_x(rows, n));
        } else {
            assert(rows[n - 1].x == least_x(rows, n));
        }
    } else {
        assert(rows[0].x == least_x(rows, 1));
    }
}

proof fn lemma_least_site(rows: Seq<RowInfo>, n: int)
    requires
        0 <= n <= rows.len(),
    ensures
        least_site(rows, n) >= 0,
        forall|k: int| 0 <= k < n && (#[trigger] rows[k]).site_width > 0 ==> 0 < least_site(rows, n) <= rows[k].site_width,
        least_site(rows, n) > 0 ==> exists|k: int| 0 <= k < n && (#[trigger] rows[k]).site_width == least_site(rows, n),
    decreases n,
{
    if n > 0 {
        lemma_least_site(rows, n - 1);
        let w = least_site(rows, n - 1);
        if least_site(rows, n) != w {
            assert(rows[n - 1].site_width == least_site(rows, n));
        } else if w > 0 {
            let k = choose|k: int| 0 <= k < n - 1 && (#[trigger] rows[k]).site_width == w;
            assert(rows[k].site_width == least_site(rows, n));
        }
    }
}

/// The yardsticks of a check are those of the rows.
proof fn lemma_yardsticks(d: CheckInput, left: int, sw: int)
    requires
        leftmost(d.grid.rows@, left),
        narrowest(d.grid.rows@, sw),
    ensures
        d.left() == left,
        d.site() == sw,
{
    let rows = d.grid.rows@;
    lemma_least_x(rows, rows.len() as int);
    lemma_least_site(rows, rows.len() as int);
    let a = choose|k: int| 0 <= k < rows.len() && (#[trigger] rows[k]).x == left;
    let b = choose|k: int| 0 <= k < rows.len() && (#[trigger] rows[k]).x == least_x(rows, rows.len() as int);
    let e = choose|k: int| 0 <= k < rows.len() && (#[trigger] rows[k]).site_width == sw;
    assert(least_site(rows, rows.len() as int) > 0);
    let f = choose|k: int| 0 <= k < rows.len() && (#[trigger] rows[k]).site_width == least_site(rows, rows.len() as int);
}

/// A cell is misaligned exactly where it is no block and does not stand on a site.
proof fn lemma_misaligned(d: CheckInput, i: int, left: int, sw: int)
    requires
        leftmost(d.grid.rows@, left),
        narrowest(d.grid.rows@, sw),
        0 <= i < d.cells@.len(),
    ensures
        d.misaligned(i) == (!has_part(d.cells@[i].master_type@, "BLOCK"@) && !stands_on_a_site(d, d.cells@[i], left, sw)),
{
    lemma_yardsticks(d, left, sw);
    let c = d.cells@[i];
    let x = c.x - left;
    if x % sw == 0 {
        assert(x == (x / sw) * sw) by (nonlinear_arith)
            requires x % sw == 0, sw > 0;
        let q = x / sw;
        assert(c.x == left + q * sw);
    }
    if exists|q: int| c.x == left + #[trigger] (q * sw) {
        let q = choose|q: int| c.x == left + #[trigger] (q * sw);
        assert((q * sw) % sw == 0) by (nonlinear_arith)
            requires sw > 0;
    }
}

/// A report names a cell for its place exactly where a cell of that name is no block and does not stand on a site.
pub proof fn law_cells_off_their_sites_are_named(d: CheckInput, disallow: bool, padding: Option<Seq<(i32, i32)>>, r: Report, left: int, sw: int, name: Seq<char>)
    requires
        d.reported(disallow, padding, r),
        leftmost(d.grid.rows@, left),
        narrowest(d.grid.rows@, sw),
    ensures
        names(r, "site_align"@, name) <==> exists|i: int| 0 <= i < d.cells@.len() && (#[trigger] d.cells@[i]).name@ == name
            && !has_part(d.cells@[i].master_type@, "BLOCK"@) && !stands_on_a_site(d, d.cells@[i], left, sw),
{
    lemma_families();
    let n = d.cells@.len() as int;
    let f = fault("site_align"@, name);
    if exists|i: int| 0 <= i < n && (#[trigger] d.cells@[i]).name@ == name && !has_part(d.cells@[i].master_type@, "BLOCK"@) && !stands_on_a_site(d, d.cells@[i], left, sw) {
        let i = choose|i: int| 0 <= i < n && (#[trigger] d.cells@[i]).name@ == name && !has_part(d.cells@[i].master_type@, "BLOCK"@)
            && !stands_on_a_site(d, d.cells@[i], left, sw);
        lemma_misaligned(d, i, left, sw);
        lemma_misaligned_is_named(d, disallow, padding, r, i);
    }
    if names(r, "site_align"@, name) {
        let k = choose|k: int| 0 <= k < r.failures@.len() && (#[trigger] r.failures@[k]).family@ == "site_align"@ && r.failures@[k].cell@ == name;
        let e = r.failures@[k].fault();
        assert(faults(r.failures@)[k] == e);
        assert(faults(r.failures@).contains(e));
        let i = lemma_named_is_misaligned(d, disallow, padding, r, e);
        lemma_misaligned(d, i, left, sw);
        assert(d.cells@[i].name@ == name);
    }
}

proof fn lemma_misaligned_is_named(d: CheckInput, disallow: bool, padding: Option<Seq<(i32, i32)>>, r: Report, i: int)
    requires
        d.reported(disallow, padding, r),
        0 <= i < d.cells@.len(),
        d.misaligned(i),
    ensures
        names(r, "site_align"@, d.cells@[i].name@),
{
    let n = d.cells@.len() as int;
    let f = fault("site_align"@, d.cells@[i].name@);
    if d.grid.makeable() {
        let (g, regions, hs, bodies, found) = choose|g: Grid, regions: Regions, hs: Seq<Grid>, bodies: Seq<Grid>, found: Seq<Failure>| #[trigger] d.checked(disallow, padding, g, regions, hs, bodies, found, r);
        let s = d.faults_of(g, regions, hs[i], bodies[i], i, pads_of(padding, i));
        assert(s[0] == f);
        assert(s.contains(f));
        lemma_faults_of(d, g, regions, padding, hs, bodies, n, f);
        lemma_in_concat(d.faults_upto(g, regions, padding, hs, bodies, n), if disallow { d.gaps_upto(hs[n], n) } else { Seq::empty() }, f);
        lemma_reported(found, r, f);
    } else {
        let (e, found) = choose|e: GridError, found: Seq<Failure>| #[trigger] d.checked_bare(disallow, e, found, r);
        let s = bare_faults_of(d, i);
        assert(s[0] == f);
        assert(s.contains(f));
        lemma_bare_faults(d, n, f);
        lemma_reported(found, r, f);
    }
}

proof fn lemma_named_is_misaligned(d: CheckInput, disallow: bool, padding: Option<Seq<(i32, i32)>>, r: Report, f: Fault) -> (i: int)
    requires
        d.reported(disallow, padding, r),
        faults(r.failures@).contains(f),
        f.family == "site_align"@,
    ensures
        0 <= i < d.cells@.len(),
        d.misaligned(i),
        d.cells@[i].name@ == f.cell,
{
    lemma_families();
    let n = d.cells@.len() as int;
    if d.grid.makeable() {
        let (g, regions, hs, bodies, found) = choose|g: Grid, regions: Regions, hs: Seq<Grid>, bodies: Seq<Grid>, found: Seq<Failure>| #[trigger] d.checked(disallow, padding, g, regions, hs, bodies, found, r);
        lemma_reported(found, r, f);
        let gaps = if disallow { d.gaps_upto(hs[n], n) } else { Seq::<Fault>::empty() };
        lemma_in_concat(d.faults_upto(g, regions, padding, hs, bodies, n), gaps, f);
        if gaps.contains(f) {
            lemma_gaps(d, hs[n], n, f);
        }
        lemma_faults_of(d, g, regions, padding, hs, bodies, n, f);
        let i = choose|i: int| 0 <= i < n && (#[trigger] d.faults_of(g, regions, hs[i], bodies[i], i, pads_of(padding, i))).contains(f);
        lemma_aligned_is_not_named(d, g, regions, hs[i], bodies[i], i, pads_of(padding, i), f);
        i
    } else {
        let (e, found) = choose|e: GridError, found: Seq<Failure>| #[trigger] d.checked_bare(disallow, e, found, r);
        lemma_reported(found, r, f);
        lemma_bare_faults(d, n, f);
        let i = choose|i: int| 0 <= i < n && (#[trigger] bare_faults_of(d, i)).contains(f);
        let c = d.cells@[i];
        if !d.misaligned(i) {
            lemma_in_concat(fault_if(!c.placed, "placed"@, c.name@), overlap_faults(c.name@, match d.earlier_overlap(i, 0) { Some(o) => Some(d.cells@[o].name@), None => None }), f);
        } else {
            let s = bare_faults_of(d, i);
            let k = choose|k: int| 0 <= k < s.len() && s[k] == f;
        }
        i
    }
}

/// In a clean report every cell that is no block stands on a site, whatever its height, and every cell is placed.
pub proof fn law_clean_means_on_sites(d: CheckInput, disallow: bool, padding: Option<Seq<(i32, i32)>>, r: Report, left: int, sw: int, i: int)
    requires
        d.reported(disallow, padding, r),
        r.failures@.len() == 0,
        leftmost(d.grid.rows@, left),
        narrowest(d.grid.rows@, sw),
        0 <= i < d.cells@.len(),
    ensures
        has_part(d.cells@[i].master_type@, "BLOCK"@) || stands_on_a_site(d, d.cells@[i], left, sw),
        d.cells@[i].placed,
{
    lemma_misaligned(d, i, left, sw);
    if d.misaligned(i) {
        lemma_misaligned_is_named(d, disallow, padding, r, i);
    } else {
        let n = d.cells@.len() as int;
        let f = fault("placed"@, d.cells@[i].name@);
        if !d.cells@[i].placed {
            lemma_unplaced_is_named(d, disallow, padding, r, i);
        }
    }
}

proof fn lemma_unplaced_is_named(d: CheckInput, disallow: bool, padding: Option<Seq<(i32, i32)>>, r: Report, i: int)
    requires
        d.reported(disallow, padding, r),
        0 <= i < d.cells@.len(),
        !d.misaligned(i),
        !d.cells@[i].placed,
    ensures
        names(r, "placed"@, d.cells@[i].name@),
{
    let n = d.cells@.len() as int;
    let c = d.cells@[i];
    let f = fault("placed"@, c.name@);
    let a3 = fault_if(!c.placed, "placed"@, c.name@);
    assert(a3[0] == f);
    assert(a3.contains(f));
    if d.grid.makeable() {
        let (g, regions, hs, bodies, found) = choose|g: Grid, regions: Regions, hs: Seq<Grid>, bodies: Seq<Grid>, found: Seq<Failure>| #[trigger] d.checked(disallow, padding, g, regions, hs, bodies, found, r);
        let pads = pads_of(padding, i);
        let s = d.faults_of(g, regions, hs[i], bodies[i], i, pads);
        let a1 = fault_if(!is_block(c) && !d.in_rows(g, i), "in_rows"@, c.name@);
        let a2 = fault_if(!is_block(c) && !regions.well_placed(c.name@, c.x - g.core.0, c.y - g.core.1, c.w as int, c.h as int, g.site_width as int, g.row_y@, g.core.3 as int), "region_placement"@, c.name@);
        let a4 = overlap_faults(c.name@, match d.overlapped(hs[i], i) { Some(o) => Some(d.cells@[o].name@), None => None });
        let a5 = fault_if(!d.padding_kept(bodies[i], i, pads), "padding"@, c.name@);
        let a6 = fault_if(!c.edges_ok, "edge_spacing"@, c.name@);
        let a7 = fault_if(!d.levels_clear(hs[i], i), "blocked_layers"@, c.name@);
        lemma_in_concat(a1 + a2, a3, f);
        lemma_in_concat(a1 + a2 + a3, a4, f);
        lemma_in_concat(a1 + a2 + a3 + a4, a5, f);
        lemma_in_concat(a1 + a2 + a3 + a4 + a5, a6, f);
        lemma_in_concat(a1 + a2 + a3 + a4 + a5 + a6, a7, f);
        assert(s == a1 + a2 + a3 + a4 + a5 + a6 + a7);
        lemma_faults_of(d, g, regions, padding, hs, bodies, n, f);
        lemma_in_concat(d.faults_upto(g, regions, padding, hs, bodies, n), if disallow { d.gaps_upto(hs[n], n) } else { Seq::empty() }, f);
        lemma_reported(found, r, f);
    } else {
        let (e, found) = choose|e: GridError, found: Seq<Failure>| #[trigger] d.checked_bare(disallow, e, found, r);
        let s = bare_faults_of(d, i);
        lemma_in_concat(a3, overlap_faults(c.name@, match d.earlier_overlap(i, 0) { Some(o) => Some(d.cells@[o].name@), None => None }), f);
        assert(s.contains(f));
        lemma_bare_faults(d, n, f);
        lemma_reported(found, r, f);
    }
}

// ── overlaps ─────────────────────────────────────────────────────────────────────────────────

/// Where no cell is misaligned, a square holds the first cell that covers it.
proof fn lemma_first_painter(d: CheckInput, padding: Option<Seq<(i32, i32)>>, hs: Seq<Grid>, bodies: Seq<Grid>, n: int, k: int, x: int, y: int)
    requires
        d.visited(padding, hs, bodies, n),
        n == d.cells@.len(),
        n <= 0x7fff_ffff,
        d.grid.makes(hs[0]),
        forall|i: int| 0 <= i < n ==> !#[trigger] d.misaligned(i),
        0 <= k <= n,
        hs[0].inside(x, y),
    ensures
        hs[k].same_frame(hs[0]),
        match hs[k].px(x, y).cell {
            None => forall|q: int| 0 <= q < k ==> !in_box(#[trigger] d.covered(hs[0], q), x, y),
            Some(o) => o < k && in_box(d.covered(hs[0], o as int), x, y) && forall|q: int| 0 <= q < o ==> !in_box(#[trigger] d.covered(hs[0], q), x, y),
        },
    decreases k,
{
    if k == 0 {
        law_valid_squares_are_row_sites_without_blockage(d.grid, hs[0], x, y);
    } else {
        lemma_first_painter(d, padding, hs, bodies, n, k - 1, x, y);
        let (h, h1, h2) = (hs[k - 1], bodies[k - 1], hs[k - 1 + 1]);
        assert(d.painted(hs[k - 1], bodies[k - 1], hs[k - 1 + 1], k - 1, pads_of(padding, k - 1)));
        assert(!d.misaligned(k - 1));
        let c = d.cells@[k - 1];
        lemma_same_cover(hs[0], h, c.x - h.core.0, c.y - h.core.1, c.w as int, c.h as int);
        assert(h.inside(x, y) && h1.inside(x, y));
        let p = h1.px(x, y);
        let q = h2.px(x, y);
        assert(q.cell == p.cell);
        assert(p.cell == (if in_box(d.covered(hs[0], k - 1), x, y) && h.px(x, y).cell is None { Some((k - 1) as u32) } else { h.px(x, y).cell }));
    }
}

proof fn lemma_partner_in_column(d: CheckInput, h: Grid, i: int, gx: int, y0: int, y: int, prev: Option<int>, gy: int)
    requires
        y0 <= gy < y || prev is Some,
        prev is None ==> d.partner(h, i, gx, gy) is Some,
    ensures
        d.partner_in_column(h, i, gx, y0, y, prev) is Some,
    decreases y - y0,
{
    if y > y0 {
        match d.partner(h, i, gx, y - 1) {
            Some(o) => {},
            None => {
                if prev is None && gy == y - 1 {
                } else {
                    lemma_partner_in_column(d, h, i, gx, y0, y - 1, prev, gy);
                }
            },
        }
    }
}

proof fn lemma_partner_in(d: CheckInput, h: Grid, i: int, x0: int, x: int, y0: int, y1: int, gx: int, gy: int)
    requires
        x0 <= gx < x,
        y0 <= gy < y1,
        d.partner(h, i, gx, gy) is Some,
    ensures
        d.partner_in(h, i, x0, x, y0, y1) is Some,
    decreases x - x0,
{
    if gx < x - 1 {
        lemma_partner_in(d, h, i, x0, x - 1, y0, y1, gx, gy);
        lemma_partner_in_column(d, h, i, x - 1, y0, y1, d.partner_in(h, i, x0, x - 1, y0, y1), gy);
    } else {
        lemma_partner_in_column(d, h, i, x - 1, y0, y1, d.partner_in(h, i, x0, x - 1, y0, y1), gy);
    }
}

/// The box of a cell, relative to the core: left, bottom, right and top.
pub open spec fn area(d: CheckInput, c: CheckCell) -> (int, int, int, int) {
    (c.x - d.grid.core.0, c.y - d.grid.core.1, c.x - d.grid.core.0 + c.w, c.y - d.grid.core.1 + c.h)
}

/// Whether every cell has some size and stands on a column and a row of the grid.
pub open spec fn all_on_grid(d: CheckInput, g: Grid) -> bool {
    forall|k: int| 0 <= k < d.cells@.len() ==> (#[trigger] d.cells@[k]).w >= 1 && d.cells@[k].h >= 1
        && on_grid(g, d.cells@[k].x - g.core.0, d.cells@[k].y - g.core.1)
}

/// A square that two cells on the grid cover lies in both of their boxes.
proof fn lemma_both_hold(d: CheckInput, g: Grid, i: int, j: int, gx: int, gy: int)
    requires
        d.grid.makes(g),
        all_on_grid(d, g),
        0 <= i < d.cells@.len(),
        0 <= j < d.cells@.len(),
        g.inside(gx, gy),
        in_box(d.covered(g, i), gx, gy),
        in_box(d.covered(g, j), gx, gy),
    ensures
        crate::check::boxes_overlap(cell_box(d.cells@[i]), cell_box(d.cells@[j])),
{
    lemma_holds_corner(d, g, i, gx, gy);
    lemma_holds_corner(d, g, j, gx, gy);
}

/// A cell on the grid that covers a square holds the square's lower left corner.
proof fn lemma_holds_corner(d: CheckInput, g: Grid, i: int, gx: int, gy: int)
    requires
        d.grid.makes(g),
        all_on_grid(d, g),
        0 <= i < d.cells@.len(),
        g.inside(gx, gy),
        in_box(d.covered(g, i), gx, gy),
    ensures
        ({
            let a = area(d, d.cells@[i]);
            a.0 <= gx * g.site_width < a.2 && a.1 <= g.row_y@[gy] < a.3
        }),
{
    let c = d.cells@[i];
    assert(c.w >= 1 && c.h >= 1 && on_grid(g, d.cells@[i].x - g.core.0, d.cells@[i].y - g.core.1));
    let (x, y) = (c.x - g.core.0, c.y - g.core.1);
    law_cover_is_what_the_box_meets(g, x, y, c.w as int, c.h as int, gx, gy);
    let sw = g.site_width as int;
    let k = choose|k: int| x == #[trigger] (k * g.site_width);
    let r = choose|r: int| 0 <= r < g.row_count && #[trigger] g.row_y@[r] == y;
    assert((gx + 1) * sw == gx * sw + sw) by (nonlinear_arith);
    if gx < k {
        assert((gx + 1) * sw <= k * sw) by (nonlinear_arith)
            requires gx + 1 <= k, sw > 0;
    } else {
        assert(k * sw <= gx * sw) by (nonlinear_arith)
            requires k <= gx, sw > 0;
    }
    if gy < r {
        assert(g.row_y@[gy + 1] <= g.row_y@[r]);
    } else {
        assert(g.row_y@[r] <= g.row_y@[gy]);
    }
}

/// In a clean report no two cells overlap, unless both are blocks, as long as all cells stand on columns and rows. At
/// least one of the two is in rows, so that what they share lies on the grid.
pub proof fn law_clean_cells_lie_apart(d: CheckInput, disallow: bool, padding: Option<Seq<(i32, i32)>>, r: Report, i: int, j: int)
    requires
        d.reported(disallow, padding, r),
        d.grid.makeable(),
        d.cells@.len() <= 0x7fff_ffff,
        r.failures@.len() == 0,
        forall|g: Grid| #[trigger] d.grid.makes(g) ==> all_on_grid(d, g),
        0 <= i < j < d.cells@.len(),
        !(has_part(d.cells@[i].master_type@, "BLOCK"@) && has_part(d.cells@[j].master_type@, "BLOCK"@)),
    ensures
        !meet(area(d, d.cells@[i]), area(d, d.cells@[j])),
{
    let n = d.cells@.len() as int;
    let (g0, regions, hs, bodies, found) = choose|g: Grid, regions: Regions, hs: Seq<Grid>, bodies: Seq<Grid>, found: Seq<Failure>| #[trigger] d.checked(disallow, padding, g, regions, hs, bodies, found, r);
    let g = hs[0];
    assert forall|q: int| 0 <= q < n implies !#[trigger] d.misaligned(q) && (is_block(d.cells@[q]) || d.in_rows(g0, q)) && d.overlapped(hs[q], q) is None by {
        crate::check::law_clean_report_vouches(d, disallow, padding, g0, regions, hs, bodies, found, r, q);
    }
    let (a, b) = (d.cells@[i], d.cells@[j]);
    if meet(area(d, a), area(d, b)) {
        assert(d.grid.makes(g));
        assert(all_on_grid(d, g));
        assert(a.w >= 1 && a.h >= 1 && on_grid(g, d.cells@[i].x - g.core.0, d.cells@[i].y - g.core.1));
        assert(b.w >= 1 && b.h >= 1 && on_grid(g, d.cells@[j].x - g.core.0, d.cells@[j].y - g.core.1));
        let (ax, ay) = (a.x - g.core.0, a.y - g.core.1);
        let (bx, by) = (b.x - g.core.0, b.y - g.core.1);
        let x = choose|k: int| ax == #[trigger] (k * g.site_width);
        let u = choose|k: int| bx == #[trigger] (k * g.site_width);
        let y = choose|q: int| 0 <= q < g.row_count && #[trigger] g.row_y@[q] == ay;
        let v = choose|q: int| 0 <= q < g.row_count && #[trigger] g.row_y@[q] == by;
        let (gx, gy) = lemma_common_square(g, x, y, a.w as int, a.h as int, u, v, b.w as int, b.h as int);
        // One of the two is in rows, so the square is one of the grid.
        let s = if is_block(a) { j } else { i };
        let c = d.cells@[s];
        assert(!d.misaligned(s));
        lemma_in_rows_reaches(d, g0, g, s, gx, gy);
        law_cover_is_what_the_box_meets(g, ax, ay, a.w as int, a.h as int, gx, gy);
        law_cover_is_what_the_box_meets(g, bx, by, b.w as int, b.h as int, gx, gy);
        lemma_first_painter(d, padding, hs, bodies, n, j, gx, gy);
        assert(in_box(d.covered(g, i), gx, gy));
        let o = hs[j].px(gx, gy).cell->Some_0 as int;
        assert(hs[j].px(gx, gy).cell is Some);
        lemma_both_hold(d, g, j, o, gx, gy);
        let later = if is_block(b) && is_block(d.cells@[o]) { i } else { j };
        // The first cell on the square is met by the one that is no block with it.
        if later == i {
            assert(o <= i) by {
                if i < o {
                    assert(!in_box(d.covered(g, i), gx, gy));
                }
            }
            assert(o != i);
            lemma_first_painter(d, padding, hs, bodies, n, i, gx, gy);
            assert(in_box(d.covered(g, o), gx, gy));
            let p = hs[i].px(gx, gy).cell;
            assert(p is Some);
            let p = p->Some_0 as int;
            if p < o {
                assert(!in_box(d.covered(g, p), gx, gy));
            } else if o < p {
                assert(!in_box(d.covered(g, o), gx, gy));
            }
            lemma_both_hold(d, g, i, o, gx, gy);
        }
        let h = hs[later];
        lemma_first_painter(d, padding, hs, bodies, n, later, gx, gy);
        let e = d.cells@[later];
        lemma_same_cover(g, h, e.x - g.core.0, e.y - g.core.1, e.w as int, e.h as int);
        assert(d.partner(h, later, gx, gy) is Some);
        let w = d.covered(h, later);
        lemma_partner_in(d, h, later, w.0, w.2, w.1, w.3, gx, gy);
        assert(d.overlapped(hs[later], later) is None) by {
            assert(!d.misaligned(later));
        }
    }
}

/// A square that the box of a cell in rows meets is one of the grid.
proof fn lemma_in_rows_reaches(d: CheckInput, g0: Grid, g: Grid, i: int, gx: int, gy: int)
    requires
        d.grid.makes(g0),
        d.grid.makes(g),
        all_on_grid(d, g),
        0 <= i < d.cells@.len(),
        d.in_rows(g0, i),
        0 <= gy < g.row_count,
        meet(square_box(g, gx, gy), area(d, d.cells@[i])),
    ensures
        g.inside(gx, gy),
        g.px(gx, gy).is_valid,
{
    let c = d.cells@[i];
    assert(c.w >= 1 && c.h >= 1 && on_grid(g, d.cells@[i].x - g.core.0, d.cells@[i].y - g.core.1));
    let (x, y) = (c.x - g.core.0, c.y - g.core.1);
    law_a_design_makes_one_grid(d.grid, g0, g, gx, gy);
    lemma_cover_meets(g, x, y, c.w as int, c.h as int, gx, gy);
    lemma_cover_of_frame(g0, g, x, y, c.w as int, c.h as int);
    assert(in_box(g0.cover(x, y, c.w as int, c.h as int), gx, gy));
    let p = g0.px(gx, gy);
}

/// What a box covers depends on the rows and the site width.
proof fn lemma_cover_of_frame(a: Grid, b: Grid, x: int, y: int, w: int, h: int)
    requires
        a.rows_ok(),
        b.rows_ok(),
        a.row_count == b.row_count,
        a.row_y@ == b.row_y@,
        a.site_width == b.site_width,
    ensures
        a.cover(x, y, w, h) == b.cover(x, y, w, h),
{
    if a.row_count > 0 {
        a.lemma_snap_is(y);
        let r = a.snap_down(y);
        assert(b.is_snap_down(r, y));
        b.lemma_snap_unique(r, y);
        let top = a.row_y@[r] + h;
        a.lemma_end_is(top);
        let e = a.end_row(top);
        assert(b.is_end_row(e, top));
        b.lemma_end_unique(e, top);
    }
}

/// In a clean report a cell that is no block and stands on a column and a row lies wholly in rows: each square that it
/// meets is one of a placement row, clear of hard blockages, and a row of its site starts at its bottom and has sites at
/// every column that it meets.
pub proof fn law_clean_cells_lie_in_rows(d: CheckInput, disallow: bool, padding: Option<Seq<(i32, i32)>>, r: Report, g: Grid, i: int, gx: int, gy: int)
    requires
        d.reported(disallow, padding, r),
        d.grid.makes(g),
        d.grid.makeable(),
        r.failures@.len() == 0,
        all_on_grid(d, g),
        0 <= i < d.cells@.len(),
        !has_part(d.cells@[i].master_type@, "BLOCK"@),
        0 <= gy < g.row_count,
        meet(square_box(g, gx, gy), area(d, d.cells@[i])),
    ensures
        g.inside(gx, gy),
        exists|k: int| #[trigger] row_has(d.grid, k, g.site_width as int, square_box(g, gx, gy).0 + d.grid.core.0, square_box(g, gx, gy).1 + d.grid.core.1),
        forall|b: int| 0 <= b < d.grid.blockages@.len() && !(#[trigger] d.grid.blockages@[b]).1 ==> !meets_square(d.grid, g, d.grid.blockages@[b].0, gx, gy),
        g.row_y@[gy] == d.cells@[i].y - g.core.1 ==> exists|k: int| #[trigger] row_has(d.grid, k, g.site_width as int, gx * g.site_width + d.grid.core.0, d.cells@[i].y as int)
            && d.grid.rows@[k].site@ == d.cells@[i].site@,
{
    let (g0, regions, hs, bodies, found) = choose|g: Grid, regions: Regions, hs: Seq<Grid>, bodies: Seq<Grid>, found: Seq<Failure>| #[trigger] d.checked(disallow, padding, g, regions, hs, bodies, found, r);
    crate::check::law_clean_report_vouches(d, disallow, padding, g0, regions, hs, bodies, found, r, i);
    lemma_in_rows_reaches(d, g0, g, i, gx, gy);
    law_valid_squares_are_row_sites_without_blockage(d.grid, g, gx, gy);
    let c = d.cells@[i];
    let (x, y) = (c.x - g.core.0, c.y - g.core.1);
    if g.row_y@[gy] == y {
        law_a_design_makes_one_grid(d.grid, g0, g, gx, gy);
        lemma_cover_meets(g, x, y, c.w as int, c.h as int, gx, gy);
        lemma_cover_of_frame(g0, g, x, y, c.w as int, c.h as int);
        let e = g0.cover(x, y, c.w as int, c.h as int);
        let p = g0.px(gx, gy);
        assert(g.row_y@[gy] < g.row_y@[gy + 1]);
        assert(g.is_snap_down(gy, y));
        g.lemma_snap_unique(gy, y);
        assert(gy == e.1);
        law_offered_sites_are_those_of_rows(d.grid, g, gx, gy, c.site@);
    }
}

// ── levels ───────────────────────────────────────────────────────────────────────────────────

/// Painting cells changes no square's blocked levels.
proof fn lemma_levels_stay(d: CheckInput, padding: Option<Seq<(i32, i32)>>, hs: Seq<Grid>, bodies: Seq<Grid>, n: int, k: int, x: int, y: int)
    requires
        d.visited(padding, hs, bodies, n),
        0 <= k <= n,
        hs[0].inside(x, y),
    ensures
        hs[k].same_frame(hs[0]),
        hs[k].px(x, y).blocked_layers == hs[0].px(x, y).blocked_layers,
    decreases k,
{
    if k > 0 {
        lemma_levels_stay(d, padding, hs, bodies, n, k - 1, x, y);
        let (h, h1, h2) = (hs[k - 1], bodies[k - 1], hs[k - 1 + 1]);
        assert(d.painted(hs[k - 1], bodies[k - 1], hs[k - 1 + 1], k - 1, pads_of(padding, k - 1)));
        assert(h.inside(x, y));
        if !d.misaligned(k - 1) {
            assert(h1.inside(x, y));
            let p = h1.px(x, y);
            let q = h2.px(x, y);
        }
    }
}

proof fn lemma_no_common_bit(m: u32, used: u32, level: u32)
    requires
        m & used == 0,
        m & (1u32 << level) != 0,
        level < 32,
    ensures
        used & (1u32 << level) == 0,
{
    assert(used & (1u32 << level) == 0) by (bit_vector)
        requires m & used == 0, m & (1u32 << level) != 0, level < 32;
}

/// In a clean report no strap of a level that a cell's pins use meets a square of the grid that the cell meets, if the
/// cell stands on a column and a row.
pub proof fn law_clean_cells_keep_off_straps(d: CheckInput, disallow: bool, padding: Option<Seq<(i32, i32)>>, r: Report, g: Grid, i: int, gx: int, gy: int, s: int)
    requires
        d.reported(disallow, padding, r),
        d.grid.makes(g),
        d.grid.makeable(),
        d.grid.in_range(),
        r.failures@.len() == 0,
        all_on_grid(d, g),
        0 <= i < d.cells@.len(),
        g.inside(gx, gy),
        meet(square_box(g, gx, gy), area(d, d.cells@[i])),
        0 <= s < d.grid.straps@.len(),
        meets_square(d.grid, g, d.grid.straps@[s].1, gx, gy),
    ensures
        d.cells@[i].used_layers & (1u32 << d.grid.straps@[s].0) == 0,
{
    let n = d.cells@.len() as int;
    let (g0, regions, hs, bodies, found) = choose|g: Grid, regions: Regions, hs: Seq<Grid>, bodies: Seq<Grid>, found: Seq<Failure>| #[trigger] d.checked(disallow, padding, g, regions, hs, bodies, found, r);
    crate::check::law_clean_report_vouches(d, disallow, padding, g0, regions, hs, bodies, found, r, i);
    let h = hs[i];
    let c = d.cells@[i];
    law_a_design_makes_one_grid(d.grid, g, hs[0], gx, gy);
    lemma_levels_stay(d, padding, hs, bodies, n, i, gx, gy);
    assert(c.w >= 1 && c.h >= 1 && on_grid(g, d.cells@[i].x - g.core.0, d.cells@[i].y - g.core.1));
    lemma_cover_meets(g, c.x - g.core.0, c.y - g.core.1, c.w as int, c.h as int, gx, gy);
    lemma_cover_of_frame(g, h, c.x - g.core.0, c.y - g.core.1, c.w as int, c.h as int);
    assert(in_box(d.covered(h, i), gx, gy));
    let level = d.grid.straps@[s].0;
    assert(d.grid.straps@[s].0 < 32);
    crate::grid_laws::law_straps_block_the_squares_they_meet(d.grid, g, gx, gy, level);
    let f = crate::check::blocked_in(h);
    assert(h.inside(gx, gy));
    assert(f(gx as i32, gy as i32) == Some(h.px(gx, gy).blocked_layers));
    lemma_no_common_bit(h.px(gx, gy).blocked_layers, c.used_layers, level);
}

// ── padding ──────────────────────────────────────────────────────────────────────────────────

/// In a clean report a core cell keeps as many sites free of every core cell before it as its padding asks, on either
/// side, as long as all cells stand on columns and rows: its box, so widened, does not meet theirs on the grid.
pub proof fn law_clean_core_cells_keep_their_padding(d: CheckInput, disallow: bool, padding: Option<Seq<(i32, i32)>>, r: Report, i: int, j: int)
    requires
        d.reported(disallow, padding, r),
        d.grid.makeable(),
        d.cells@.len() <= 0x7fff_ffff,
        r.failures@.len() == 0,
        forall|g: Grid| #[trigger] d.grid.makes(g) ==> all_on_grid(d, g),
        0 <= i < j < d.cells@.len(),
        d.cells@[i].master_type@ == "CORE"@,
        d.cells@[j].master_type@ == "CORE"@,
        pads_of(padding, j).0 >= 0,
        pads_of(padding, j).1 >= 0,
    ensures
        exists|g: Grid| #[trigger] d.grid.makes(g) && ({
            let (a, p, sw) = (area(d, d.cells@[j]), pads_of(padding, j), g.site_width as int);
            !meet(area(d, d.cells@[i]), (a.0 - p.0 * sw, a.1, a.2 + p.1 * sw, a.3))
        }),
{
    let n = d.cells@.len() as int;
    let (g0, regions, hs, bodies, found) = choose|g: Grid, regions: Regions, hs: Seq<Grid>, bodies: Seq<Grid>, found: Seq<Failure>| #[trigger] d.checked(disallow, padding, g, regions, hs, bodies, found, r);
    let g = hs[0];
    let sw = g.site_width as int;
    let pads = pads_of(padding, j);
    assert forall|q: int| 0 <= q < n implies !#[trigger] d.misaligned(q) && (is_block(d.cells@[q]) || d.in_rows(g0, q)) && d.padding_kept(bodies[q], q, pads_of(padding, q)) by {
        crate::check::law_clean_report_vouches(d, disallow, padding, g0, regions, hs, bodies, found, r, q);
    }
    assert(d.grid.makes(g));
    assert(all_on_grid(d, g));
    let (a, b) = (d.cells@[i], d.cells@[j]);
    assert(a.w >= 1 && a.h >= 1 && on_grid(g, d.cells@[i].x - g.core.0, d.cells@[i].y - g.core.1));
    assert(b.w >= 1 && b.h >= 1 && on_grid(g, d.cells@[j].x - g.core.0, d.cells@[j].y - g.core.1));
    let (ax, ay) = (a.x - g.core.0, a.y - g.core.1);
    let (bx, by) = (b.x - g.core.0, b.y - g.core.1);
    let e = (bx - pads.0 * sw, by, bx + b.w + pads.1 * sw, by + b.h);
    lemma_core_is_no_block();
    if meet(area(d, a), e) {
        let x = choose|k: int| ax == #[trigger] (k * g.site_width);
        let u = choose|k: int| bx == #[trigger] (k * g.site_width);
        let y = choose|q: int| 0 <= q < g.row_count && #[trigger] g.row_y@[q] == ay;
        let v = choose|q: int| 0 <= q < g.row_count && #[trigger] g.row_y@[q] == by;
        let u2 = u - pads.0;
        assert(u2 * sw == u * sw - pads.0 * sw) by (nonlinear_arith)
            requires u2 == u - pads.0;
        assert(pads.0 * sw >= 0 && pads.1 * sw >= 0) by (nonlinear_arith)
            requires pads.0 >= 0, pads.1 >= 0, sw > 0;
        let wide = b.w + pads.0 * sw + pads.1 * sw;
        let (gx, gy) = lemma_common_square(g, x, y, a.w as int, a.h as int, u2, v, wide, b.h as int);
        assert(!d.misaligned(i));
        lemma_in_rows_reaches(d, g0, g, i, gx, gy);
        law_cover_is_what_the_box_meets(g, ax, ay, a.w as int, a.h as int, gx, gy);
        assert(in_box(d.covered(g, i), gx, gy));
        // The square lies in the widened columns and the rows of the later cell.
        let cov = d.covered(g, j);
        lemma_padded_square(g, u, v, b.w as int, b.h as int, pads, gx, gy);
        assert(u * sw == bx);
        assert(cov.0 - pads.0 <= gx < cov.2 + pads.1 && cov.1 <= gy < cov.3);
        // The first cell on it is the earlier one.
        lemma_first_painter(d, padding, hs, bodies, n, j, gx, gy);
        assert(hs[j].px(gx, gy).cell is Some);
        let o = hs[j].px(gx, gy).cell->Some_0 as int;
        if o != i {
            lemma_both_hold(d, g, i, o, gx, gy);
            if i < o {
                assert(!in_box(d.covered(g, i), gx, gy));
            }
            law_clean_cells_lie_apart(d, disallow, padding, r, o, i);
        }
        let h1 = bodies[j];
        assert(d.painted(hs[j], bodies[j], hs[j + 1], j, pads_of(padding, j)));
        assert(!d.misaligned(j));
        assert(hs[j].inside(gx, gy));
        let p = h1.px(gx, gy);
        assert(p.cell == Some(i as u32));
        let f = d.claims(h1, j);
        lemma_same_cover(g, h1, bx, by, b.w as int, b.h as int);
        assert(h1.inside(gx, gy));
        let k = f(gx as i32, gy as i32);
        assert(crate::drc::claims_conflict(crate::drc::class_of("CORE"@), k));
        assert(d.padding_kept(bodies[j], j, pads_of(padding, j)));
    }
}

/// A core cell is no block.
proof fn lemma_core_is_no_block()
    ensures
        !has_part("CORE"@, "BLOCK"@),
{
    reveal_strlit("CORE");
    reveal_strlit("BLOCK");
    assert("CORE"@.len() == 4 && "BLOCK"@.len() == 5);
}

/// A square in the widened box of a cell lies in its columns, widened, and in its rows.
proof fn lemma_padded_square(g: Grid, u: int, v: int, w: int, h: int, pads: (int, int), gx: int, gy: int)
    requires
        g.wf(),
        0 <= v < g.row_count,
        w >= 1,
        h >= 1,
        0 <= gy < g.row_count,
        pads.0 >= 0,
        pads.1 >= 0,
        u - pads.0 <= gx,
        v <= gy,
        meet(square_box(g, gx, gy), ((u - pads.0) * g.site_width, g.row_y@[v] as int, (u - pads.0) * g.site_width + (w + pads.0 * g.site_width + pads.1 * g.site_width), g.row_y@[v] + h)),
    ensures
        ({
            let c = g.cover(u * g.site_width, g.row_y@[v] as int, w, h);
            c.0 - pads.0 <= gx < c.2 + pads.1 && c.1 <= gy < c.3
        }),
{
    let sw = g.site_width as int;
    let (x, y) = (u * sw, g.row_y@[v] as int);
    assert(on_grid(g, x, y)) by {
        assert(x == u * g.site_width);
        assert(g.row_y@[v] == y);
    }
    assert((u - pads.0) * sw == u * sw - pads.0 * sw) by (nonlinear_arith);
    // In the cell's own columns the cover decides.
    lemma_cover_meets(g, x, y, w, h, u, gy);
    assert((u + 1) * sw == u * sw + sw) by (nonlinear_arith);
    let c = g.cover(x, y, w, h);
    let last = gx - pads.1;
    assert(last * sw == gx * sw - pads.1 * sw) by (nonlinear_arith)
        requires last == gx - pads.1;
    if last >= u {
        lemma_cover_meets(g, x, y, w, h, last, gy);
        assert((last + 1) * sw == last * sw + sw) by (nonlinear_arith);
        assert(last * sw >= u * sw) by (nonlinear_arith)
            requires last >= u, sw > 0;
        assert(in_box(c, last, gy));
    }
    assert(in_box(c, u, gy));
    lemma_first_column(g, u, v, w, h);
}

proof fn lemma_first_column(g: Grid, u: int, v: int, w: int, h: int)
    requires
        g.wf(),
    ensures
        g.cover(u * g.site_width, g.row_y@[v] as int, w, h).0 == u,
{
    crate::grid_laws::lemma_multiple(u, g.site_width as int);
}

// ── what a failure says ──────────────────────────────────────────────────────────────────────

/// No two families have one name.
proof fn lemma_all_families()
    ensures
        "in_rows"@ != "overlap"@ && "in_rows"@ != "padding"@ && "in_rows"@ != "placed"@ && "in_rows"@ != "region_placement"@,
        "overlap"@ != "padding"@ && "overlap"@ != "placed"@ && "overlap"@ != "region_placement"@ && "padding"@ != "placed"@,
        "in_rows"@ != "edge_spacing"@ && "in_rows"@ != "blocked_layers"@ && "in_rows"@ != "one_site_gap"@,
        "overlap"@ != "edge_spacing"@ && "overlap"@ != "blocked_layers"@ && "overlap"@ != "one_site_gap"@,
        "placed"@ != "edge_spacing"@ && "placed"@ != "blocked_layers"@ && "placed"@ != "one_site_gap"@ && "placed"@ != "region_placement"@,
        "padding"@ != "edge_spacing"@ && "padding"@ != "blocked_layers"@ && "padding"@ != "one_site_gap"@ && "padding"@ != "region_placement"@,
        "blocked_layers"@ != "edge_spacing"@ && "blocked_layers"@ != "one_site_gap"@ && "blocked_layers"@ != "region_placement"@,
        "edge_spacing"@ != "one_site_gap"@ && "edge_spacing"@ != "region_placement"@ && "one_site_gap"@ != "region_placement"@,
{
    reveal_strlit("in_rows");
    reveal_strlit("region_placement");
    reveal_strlit("placed");
    reveal_strlit("overlap");
    reveal_strlit("padding");
    reveal_strlit("edge_spacing");
    reveal_strlit("blocked_layers");
    reveal_strlit("one_site_gap");
    assert("in_rows"@.len() == 7 && "region_placement"@.len() == 16 && "placed"@.len() == 6 && "overlap"@.len() == 7 && "padding"@.len() == 7);
    assert("edge_spacing"@.len() == 12 && "blocked_layers"@.len() == 14 && "one_site_gap"@.len() == 12);
    assert("in_rows"@[0] == 'i' && "overlap"@[0] == 'o' && "padding"@[0] == 'p' && "edge_spacing"@[0] == 'e' && "one_site_gap"@[0] == 'o');
}

/// What a fault of a cell says of it, by the fault's family.
spec fn says(d: CheckInput, g: Grid, regions: Regions, h: Grid, h1: Grid, i: int, pads: (int, int), f: Fault) -> bool {
    let c = d.cells@[i];
    &&& f.cell == c.name@
    &&& f.family == "site_align"@ <==> d.misaligned(i)
    &&& f.family == "in_rows"@ ==> !is_block(c) && !d.in_rows(g, i)
    &&& f.family == "placed"@ ==> !c.placed
    &&& f.family == "overlap"@ ==> d.overlapped(h, i) is Some && f.with == Some(d.cells@[d.overlapped(h, i)->Some_0].name@)
    &&& f.family == "padding"@ ==> !d.padding_kept(h1, i, pads)
    &&& f.family == "edge_spacing"@ ==> !c.edges_ok
    &&& f.family == "blocked_layers"@ ==> !d.levels_clear(h, i)
    &&& f.family == "region_placement"@ ==> !is_block(c)
        && !regions.well_placed(c.name@, c.x - g.core.0, c.y - g.core.1, c.w as int, c.h as int, g.site_width as int, g.row_y@, g.core.3 as int)
    &&& f.family != "one_site_gap"@
}

proof fn lemma_says(d: CheckInput, g: Grid, regions: Regions, h: Grid, h1: Grid, i: int, pads: (int, int), f: Fault)
    requires
        d.faults_of(g, regions, h, h1, i, pads).contains(f),
    ensures
        says(d, g, regions, h, h1, i, pads, f),
{
    lemma_families();
    lemma_all_families();
    let c = d.cells@[i];
    let n = c.name@;
    if !d.misaligned(i) {
        let a1 = fault_if(!is_block(c) && !d.in_rows(g, i), "in_rows"@, n);
        let a2 = fault_if(!is_block(c) && !regions.well_placed(n, c.x - g.core.0, c.y - g.core.1, c.w as int, c.h as int, g.site_width as int, g.row_y@, g.core.3 as int), "region_placement"@, n);
        let a3 = fault_if(!c.placed, "placed"@, n);
        let a4 = overlap_faults(n, match d.overlapped(h, i) { Some(o) => Some(d.cells@[o].name@), None => None });
        let a5 = fault_if(!d.padding_kept(h1, i, pads), "padding"@, n);
        let a6 = fault_if(!c.edges_ok, "edge_spacing"@, n);
        let a7 = fault_if(!d.levels_clear(h, i), "blocked_layers"@, n);
        lemma_in_concat(a1, a2, f);
        lemma_in_concat(a1 + a2, a3, f);
        lemma_in_concat(a1 + a2 + a3, a4, f);
        lemma_in_concat(a1 + a2 + a3 + a4, a5, f);
        lemma_in_concat(a1 + a2 + a3 + a4 + a5, a6, f);
        lemma_in_concat(a1 + a2 + a3 + a4 + a5 + a6, a7, f);
    } else {
        let s = seq![fault("site_align"@, n)];
        let k = choose|k: int| 0 <= k < s.len() && s[k] == f;
    }
}

/// A mark in a square names a cell visited before.
proof fn lemma_painters_are_earlier(d: CheckInput, padding: Option<Seq<(i32, i32)>>, hs: Seq<Grid>, bodies: Seq<Grid>, n: int, k: int, x: int, y: int)
    requires
        d.visited(padding, hs, bodies, n),
        d.grid.makes(hs[0]),
        0 <= k <= n <= 0x7fff_ffff,
        hs[0].inside(x, y),
    ensures
        hs[k].same_frame(hs[0]),
        hs[k].px(x, y).cell matches Some(o) ==> o < k,
    decreases k,
{
    if k == 0 {
        law_valid_squares_are_row_sites_without_blockage(d.grid, hs[0], x, y);
    } else {
        lemma_painters_are_earlier(d, padding, hs, bodies, n, k - 1, x, y);
        let (h, h1, h2) = (hs[k - 1], bodies[k - 1], hs[k - 1 + 1]);
        assert(d.painted(hs[k - 1], bodies[k - 1], hs[k - 1 + 1], k - 1, pads_of(padding, k - 1)));
        assert(h.inside(x, y));
        if !d.misaligned(k - 1) {
            assert(h1.inside(x, y));
            let p = h1.px(x, y);
            let q = h2.px(x, y);
        }
    }
}

proof fn lemma_column_partner(d: CheckInput, h: Grid, i: int, gx: int, y0: int, y: int, prev: Option<int>)
    ensures
        d.partner_in_column(h, i, gx, y0, y, prev) matches Some(o) ==> prev == Some(o) || exists|gy: int| #[trigger] d.partner(h, i, gx, gy) == Some(o),
    decreases y - y0,
{
    if y > y0 {
        match d.partner(h, i, gx, y - 1) {
            Some(o) => {},
            None => {
                lemma_column_partner(d, h, i, gx, y0, y - 1, prev);
            },
        }
    }
}

proof fn lemma_some_partner(d: CheckInput, h: Grid, i: int, x0: int, x: int, y0: int, y1: int)
    ensures
        d.partner_in(h, i, x0, x, y0, y1) matches Some(o) ==> exists|gx: int, gy: int| #[trigger] d.partner(h, i, gx, gy) == Some(o),
    decreases x - x0,
{
    if x > x0 {
        lemma_some_partner(d, h, i, x0, x - 1, y0, y1);
        lemma_column_partner(d, h, i, x - 1, y0, y1, d.partner_in(h, i, x0, x - 1, y0, y1));
    }
}

/// Each failure is one of a cell: an unplaced one is not placed; an overlap names a cell before it whose box its own
/// overlaps, not both being blocks; a cell not in rows is no block and has a square that is none of a row, is blocked or
/// does not offer its site, or starts in a row that its rails do not match.
pub proof fn law_failures_are_true(d: CheckInput, disallow: bool, padding: Option<Seq<(i32, i32)>>, r: Report, k: int)
    requires
        d.reported(disallow, padding, r),
        d.grid.makeable(),
        d.cells@.len() <= 0x7fff_ffff,
        0 <= k < r.failures@.len(),
    ensures
        r.failures@[k].family@ == "placed"@ ==> exists|i: int| 0 <= i < d.cells@.len() && (#[trigger] d.cells@[i]).name@ == r.failures@[k].cell@ && !d.cells@[i].placed,
        r.failures@[k].family@ == "overlap"@ ==> exists|i: int, o: int| 0 <= o < i < d.cells@.len() && (#[trigger] d.cells@[i]).name@ == r.failures@[k].cell@
            && r.failures@[k].with is Some && r.failures@[k].with->Some_0@ == (#[trigger] d.cells@[o]).name@
            && meet(area(d, d.cells@[i]), area(d, d.cells@[o]))
            && !(has_part(d.cells@[i].master_type@, "BLOCK"@) && has_part(d.cells@[o].master_type@, "BLOCK"@)),
        r.failures@[k].family@ == "in_rows"@ ==> exists|i: int, g: Grid| 0 <= i < d.cells@.len() && (#[trigger] d.cells@[i]).name@ == r.failures@[k].cell@
            && !has_part(d.cells@[i].master_type@, "BLOCK"@) && #[trigger] d.grid.makes(g) && out_of_rows(d, g, i),
{
    let n = d.cells@.len() as int;
    let (g, regions, hs, bodies, found) = choose|g: Grid, regions: Regions, hs: Seq<Grid>, bodies: Seq<Grid>, found: Seq<Failure>| #[trigger] d.checked(disallow, padding, g, regions, hs, bodies, found, r);
    let e = r.failures@[k];
    let f = e.fault();
    assert(faults(r.failures@)[k] == f);
    assert(faults(r.failures@).contains(f));
    lemma_reported(found, r, f);
    let gaps = if disallow { d.gaps_upto(hs[n], n) } else { Seq::<Fault>::empty() };
    lemma_in_concat(d.faults_upto(g, regions, padding, hs, bodies, n), gaps, f);
    lemma_all_families();
    if gaps.contains(f) {
        lemma_gaps(d, hs[n], n, f);
    } else {
        lemma_faults_of(d, g, regions, padding, hs, bodies, n, f);
        let i = choose|i: int| 0 <= i < n && (#[trigger] d.faults_of(g, regions, hs[i], bodies[i], i, pads_of(padding, i))).contains(f);
        lemma_says(d, g, regions, hs[i], bodies[i], i, pads_of(padding, i), f);
        assert(d.cells@[i].name@ == e.cell@);
        if f.family == "overlap"@ {
            let h = hs[i];
            let o = d.overlapped(h, i)->Some_0;
            let c = d.covered(h, i);
            lemma_some_partner(d, h, i, c.0, c.2, c.1, c.3);
            let (gx, gy) = choose|gx: int, gy: int| #[trigger] d.partner(h, i, gx, gy) == Some(o);
            lemma_levels_stay_frame(d, padding, hs, bodies, n, i);
            lemma_painters_are_earlier(d, padding, hs, bodies, n, i, gx, gy);
            assert(d.cells@[o].name@ == e.with->Some_0@);
        }
        if f.family == "in_rows"@ {
            lemma_out_of_rows(d, g, i);
            assert(d.grid.makes(g));
        }
    }
}

proof fn lemma_levels_stay_frame(d: CheckInput, padding: Option<Seq<(i32, i32)>>, hs: Seq<Grid>, bodies: Seq<Grid>, n: int, k: int)
    requires
        d.visited(padding, hs, bodies, n),
        0 <= k <= n,
    ensures
        hs[k].same_frame(hs[0]),
    decreases k,
{
    if k > 0 {
        lemma_levels_stay_frame(d, padding, hs, bodies, n, k - 1);
        assert(d.painted(hs[k - 1], bodies[k - 1], hs[k - 1 + 1], k - 1, pads_of(padding, k - 1)));
    }
}

/// Whether a cell lies out of rows: a square that it covers is none of a row or is blocked, or one of its first row does
/// not offer its site, or its rails do not match its first row; or there are no rows.
pub open spec fn out_of_rows(d: CheckInput, g: Grid, i: int) -> bool {
    let c = d.cells@[i];
    let b = g.cover(c.x - g.core.0, c.y - g.core.1, c.w as int, c.h as int);
    ||| g.row_count == 0
    ||| exists|gx: int, gy: int| in_box(b, gx, gy) && !#[trigger] good_square(g, gx, gy, b.1, c.site@)
    ||| c.multi_row && 0 <= b.1 < c.rails@.len() && !c.rails@[b.1]
}

/// Whether a square is one of the grid, valid, and, in the row `first`, offers a site.
pub open spec fn good_square(g: Grid, gx: int, gy: int, first: int, site: Seq<char>) -> bool {
    g.inside(gx, gy) && g.px(gx, gy).is_valid && (gy == first ==> offers(g.row_sites@[gy]@, gx, site))
}

proof fn lemma_out_of_rows(d: CheckInput, g: Grid, i: int)
    requires
        !d.in_rows(g, i),
    ensures
        out_of_rows(d, g, i),
{
    let c = d.cells@[i];
    let b = g.cover(c.x - g.core.0, c.y - g.core.1, c.w as int, c.h as int);
    if g.row_count > 0 && forall|gx: int, gy: int| in_box(b, gx, gy) ==> #[trigger] good_square(g, gx, gy, b.1, c.site@) {
        assert forall|gx: int, gy: int| #![trigger g.px(gx, gy)] in_box(b, gx, gy) implies g.inside(gx, gy) && g.px(gx, gy).is_valid
            && (gy == b.1 ==> offers(g.row_sites@[gy]@, gx, c.site@)) by {
            assert(good_square(g, gx, gy, b.1, c.site@));
        }
    }
}

} // verus!
