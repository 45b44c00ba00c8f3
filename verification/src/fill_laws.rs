//! What filling gives: fillers on every empty site and nowhere else, each once.

use vstd::prelude::*;
use crate::arith::lemma_quot_bound;
use crate::fillers::{fresh_names, gap_fill, group_by, has_overlap, holder_upto, holds, is_filling, is_group, is_split, keyed_of, law_gap_is_filled_exactly, moved, names_holder, rows_filled, shows_holders, sites_of, turned, Fill, FillInst, FillerMaster, Row};
use crate::globs::{law_made_names_are_new, made, Names};
use crate::grid::{height_of, Grid};
use crate::mirror_laws::lemma_names_differ;
use crate::regions::Box4;
use crate::sort::Keyed;
use crate::text::decimal;

verus! {

/// Where a filler lies: its first column, how many it takes, and the run of empty columns that it lies in.
pub ghost struct Stretch {
    pub at: int,
    pub w: int,
    pub a: int,
    pub b: int,
}

/// Whether columns `a` to `b` are a whole run of empty columns.
pub open spec fn is_run(r: Row, a: int, b: int) -> bool {
    &&& 0 <= a < b <= r.grid.row_site_count
    &&& forall|x: int| a <= x < b ==> #[trigger] r.empty_at(x)
    &&& a == 0 || !r.empty_at(a - 1)
    &&& b == r.grid.row_site_count || !r.empty_at(b)
}

/// Whether a site is offered at a column, by an interval of the row.
pub open spec fn site_there(r: Row, q: int, x: int) -> bool {
    0 <= q < r.grid.row_sites@[r.row]@.len() && r.grid.row_sites@[r.row]@[q].0 <= x < r.grid.row_sites@[r.row]@[q].1
}

/// The implant that a run asks for: that of the cell on its left, or at the row's start of the cell on its right, if that
/// has one, else that of the first masters.
pub open spec fn asked_implant(r: Row, a: int, b: int) -> Option<i64> {
    let left = r.cells[r.row]@[a - 1];
    let right = r.cells[r.row]@[b];
    if a > 0 && left is Some && left->Some_0.1 is Some {
        left->Some_0.1
    } else if a == 0 && b < r.grid.row_site_count && right is Some && right->Some_0.1 is Some {
        right->Some_0.1
    } else {
        r.groups[0].0
    }
}

/// Whether a master may fill a run: it is one of the masters, of the implant that the run asks for, and as high as the
/// lowest site offered at the run's start.
pub open spec fn suits(r: Row, m: FillerMaster, a: int, b: int) -> bool {
    &&& exists|g: int, i: int| 0 <= g < r.groups.len() && 0 <= i < r.groups[g].1@.len() && #[trigger] r.groups[g].1@[i] == m
    &&& m.implant == asked_implant(r, a, b)
    &&& exists|q: int| #[trigger] site_there(r, q, a) && m.height == height_of(r.heights, r.grid.row_sites@[r.row]@[q].2@)
    &&& forall|q: int| #[trigger] site_there(r, q, a) ==> m.height <= height_of(r.heights, r.grid.row_sites@[r.row]@[q].2@)
}

/// Whether a filler lies on a stretch of a row: at its absolute place, as the row is oriented, of a master that suits the
/// run and is as wide as the columns it takes, short of one more.
pub open spec fn lies(r: Row, f: Fill, s: Stretch) -> bool {
    let sw = r.grid.site_width as int;
    &&& f.x == r.grid.core.0 + s.at * sw
    &&& f.y == r.grid.core.1 + r.grid.row_y@[r.row]
    &&& f.orient == r.grid.row_orient@[r.row]@
    &&& s.w >= 1
    &&& is_run(r, s.a, s.b)
    &&& s.a <= s.at && s.at + s.w <= s.b
    &&& exists|m: FillerMaster| #[trigger] suits(r, m, s.a, s.b) && m.name@ == f.master && s.w * sw <= m.width < (s.w + 1) * sw
}

/// Whether fillers cover every empty column of a row from `j` on and no other, each once, from left to right.
pub open spec fn tiles(r: Row, fs: Seq<Fill>, t: Seq<Stretch>, j: int) -> bool {
    &&& t.len() == fs.len()
    &&& forall|k: int| 0 <= k < t.len() ==> lies(r, fs[k], #[trigger] t[k]) && j <= t[k].at
    &&& forall|k: int, m: int| 0 <= k < m < t.len() ==> (#[trigger] t[k]).at + t[k].w <= (#[trigger] t[m]).at
    &&& forall|x: int| j <= x < r.grid.row_site_count ==> (#[trigger] r.empty_at(x) <==> exists|k: int| 0 <= k < t.len() && (#[trigger] t[k]).at <= x < t[k].at + t[k].w)
}

// ── masters ──────────────────────────────────────────────────────────────────────────────────

proof fn lemma_keyed_implant(masters: Seq<FillerMaster>, implant: Option<i64>, n: int)
    requires
        0 <= n <= masters.len(),
        masters.len() <= usize::MAX,
    ensures
        forall|k: int| 0 <= k < keyed_of(masters, implant, n).len() ==> {
            let e = #[trigger] keyed_of(masters, implant, n)[k];
            e.pos < n && masters[e.pos as int].implant == implant
        },
    decreases n,
{
    if n > 0 {
        lemma_keyed_implant(masters, implant, n - 1);
        let (v, w) = (keyed_of(masters, implant, n - 1), keyed_of(masters, implant, n));
        assert forall|k: int| 0 <= k < w.len() implies (#[trigger] w[k]).pos < n && masters[w[k].pos as int].implant == implant by {
            if k < v.len() {
                assert(w[k] == v[k]);
            }
        }
    }
}

/// The masters of a group have the group's implant, are widest first, and are among the masters that were split.
pub proof fn law_groups_hold_their_implant_widest_first(masters: Seq<FillerMaster>, implant: Option<i64>, group: Seq<FillerMaster>, i: int, j: int)
    requires
        masters.len() <= usize::MAX,
        is_group(masters, implant, group),
        0 <= i <= j < group.len(),
    ensures
        group[i].implant == implant,
        masters.contains(group[i]),
        group[i].width >= group[j].width,
{
    let ks = choose|ks: Seq<Keyed>| #[trigger] group_by(masters, implant, group, ks);
    let all = keyed_of(masters, implant, masters.len() as int);
    let ok = |e: Keyed| e.pos < masters.len() && masters[e.pos as int].implant == implant && e.key == -masters[e.pos as int].width;
    lemma_keyed_implant(masters, implant, masters.len() as int);
    lemma_keyed_width(masters, implant, masters.len() as int);
    assert forall|k: int| 0 <= k < all.len() implies ok(#[trigger] all[k]) by {
    }
    crate::sort::lemma_rearranged(all, ks, ok);
    assert(ok(ks[i]) && ok(ks[j]));
    assert(masters[ks[i].pos as int] == group[i]);
    assert(masters[ks[j].pos as int] == group[j]);
    if i < j {
        lemma_sorted_keys(ks, i, j);
    }
}

/// Sorted keys rise.
proof fn lemma_sorted_keys(ks: Seq<Keyed>, i: int, j: int)
    requires
        crate::sort::in_order(ks),
        0 <= i < j < ks.len(),
    ensures
        ks[i].key <= ks[j].key,
{
}

proof fn lemma_keyed_width(masters: Seq<FillerMaster>, implant: Option<i64>, n: int)
    requires
        0 <= n <= masters.len(),
        masters.len() <= usize::MAX,
    ensures
        forall|k: int| 0 <= k < keyed_of(masters, implant, n).len() ==> {
            let e = #[trigger] keyed_of(masters, implant, n)[k];
            e.key == -masters[e.pos as int].width
        },
    decreases n,
{
    if n > 0 {
        lemma_keyed_width(masters, implant, n - 1);
        let (v, w) = (keyed_of(masters, implant, n - 1), keyed_of(masters, implant, n));
        assert forall|k: int| 0 <= k < w.len() implies (#[trigger] w[k]).key == -masters[w[k].pos as int].width by {
            if k < v.len() {
                assert(w[k] == v[k]);
            }
        }
    }
}

// ── runs ─────────────────────────────────────────────────────────────────────────────────────

/// Where masters that fill a stretch from column `at` on lie.
proof fn lemma_laid(r: Row, group: Seq<FillerMaster>, list: Seq<usize>, at: int, nm: Names, h: int, a: int, b: int) -> (t: Seq<Stretch>)
    requires
        r.grid.wf(),
        is_filling(group, list, h, r.grid.site_width as int),
        is_run(r, a, b),
        a <= at,
        at + crate::fillers::filled(group, list, r.grid.site_width as int) <= b,
        forall|i: int| 0 <= i < group.len() && group[i].height == h ==> suits(r, #[trigger] group[i], a, b),
    ensures
        ({
            let fs = r.laid(group, list, at, r.grid.row_orient@[r.row]@, nm).0;
            let end = at + crate::fillers::filled(group, list, r.grid.site_width as int);
            &&& t.len() == fs.len()
            &&& at <= end
            &&& forall|k: int| 0 <= k < t.len() ==> lies(r, fs[k], #[trigger] t[k]) && at <= t[k].at && t[k].at + t[k].w <= end
            &&& forall|k: int, m: int| 0 <= k < m < t.len() ==> (#[trigger] t[k]).at + t[k].w <= (#[trigger] t[m]).at
            &&& forall|x: int| at <= x < end ==> #[trigger] covers_column(t, x)
        }),
    decreases list.len(),
{
    let sw = r.grid.site_width as int;
    let orient = r.grid.row_orient@[r.row]@;
    if list.len() == 0 {
        Seq::empty()
    } else {
        let m = group[list[0] as int];
        let w = sites_of(m, sw);
        assert(list[0] < group.len() && group[list[0] as int].height == h && w > 0);
        let n = made(nm, r.prefix + decimal(r.row as nat) + seq!['_'] + decimal(at as nat));
        let tail = list.skip(1);
        assert(is_filling(group, tail, h, sw)) by {
            assert forall|k: int| 0 <= k < tail.len() implies (#[trigger] tail[k]) < group.len() && group[tail[k] as int].height == h && sites_of(group[tail[k] as int], sw) > 0 by {
                assert(tail[k] == list[k + 1]);
            }
            assert forall|k: int| 0 <= k < tail.len() - 1 implies (#[trigger] tail[k]) <= tail[k + 1] by {
                assert(tail[k] == list[k + 1] && tail[k + 1] == list[k + 1 + 1]);
                assert(list[k + 1] <= list[k + 1 + 1]);
            }
        }
        let rest = lemma_laid(r, group, tail, at + w, n.1, h, a, b);
        let s = Stretch { at, w, a, b };
        let t = seq![s] + rest;
        let fs = r.laid(group, list, at, orient, nm).0;
        let f = Fill { name: n.0, master: m.name@, x: r.x_of(at), y: r.y_of(), orient };
        let gs = r.laid(group, tail, at + w, orient, n.1).0;
        assert(fs == seq![f] + gs);
        let end = at + crate::fillers::filled(group, list, sw);
        assert(suits(r, group[list[0] as int], a, b));
        assert(w * sw <= m.width < (w + 1) * sw) by {
            if m.width >= 0 {
                lemma_quot_bound(m.width as int, sw);
                assert((w + 1) * sw == w * sw + sw) by (nonlinear_arith);
            } else {
                lemma_quot_bound(-(m.width as int), sw);
            }
        }
        assert(lies(r, f, s));
        assert forall|k: int| 0 <= k < t.len() implies lies(r, fs[k], #[trigger] t[k]) && at <= t[k].at && t[k].at + t[k].w <= end by {
            if k > 0 {
                assert(t[k] == rest[k - 1] && fs[k] == gs[k - 1]);
            }
        }
        assert forall|k: int, q: int| 0 <= k < q < t.len() implies (#[trigger] t[k]).at + t[k].w <= (#[trigger] t[q]).at by {
            assert(t[q] == rest[q - 1]);
            if k > 0 {
                assert(t[k] == rest[k - 1]);
            }
        }
        assert forall|x: int| at <= x < end implies #[trigger] covers_column(t, x) by {
            if x < at + w {
                assert(t[0].at <= x < t[0].at + t[0].w);
            } else {
                assert(covers_column(rest, x));
                let k = choose|k: int| 0 <= k < rest.len() && (#[trigger] rest[k]).at <= x < rest[k].at + rest[k].w;
                assert(t[k + 1] == rest[k]);
            }
        }
        t
    }
}

/// Whether one of the stretches covers a column.
pub open spec fn covers_column(t: Seq<Stretch>, x: int) -> bool {
    exists|k: int| 0 <= k < t.len() && (#[trigger] t[k]).at <= x < t[k].at + t[k].w
}

proof fn lemma_run(r: Row, j: int)
    requires
        0 <= j <= r.grid.row_site_count,
    ensures
        j <= r.run_end(j) <= r.grid.row_site_count,
        forall|x: int| j <= x < r.run_end(j) ==> #[trigger] r.empty_at(x),
        r.run_end(j) < r.grid.row_site_count ==> !r.empty_at(r.run_end(j)),
    decreases r.grid.row_site_count - j,
{
    if j < r.grid.row_site_count && r.empty_at(j) {
        lemma_run(r, j + 1);
    }
}

proof fn lemma_shortest(g: Grid, x: int, row: int, heights: Seq<(String, i32)>, n: int)
    requires
        0 <= n <= g.row_sites@[row]@.len(),
    ensures
        match g.shortest_upto(x, row, heights, n) {
            None => true,
            Some(k) => {
                &&& 0 <= k < n
                &&& g.row_sites@[row]@[k].0 <= x < g.row_sites@[row]@[k].1
                &&& forall|q: int| 0 <= q < n && (#[trigger] g.row_sites@[row]@[q]).0 <= x < g.row_sites@[row]@[q].1 ==>
                    height_of(heights, g.row_sites@[row]@[k].2@) <= height_of(heights, g.row_sites@[row]@[q].2@)
            },
        },
        g.shortest_upto(x, row, heights, n) is None ==> forall|q: int| 0 <= q < n ==> !((#[trigger] g.row_sites@[row]@[q]).0 <= x < g.row_sites@[row]@[q].1),
    decreases n,
{
    if n > 0 {
        lemma_shortest(g, x, row, heights, n - 1);
    }
}

proof fn lemma_group_of(r: Row, implant: Option<i64>, i: int)
    requires
        0 <= i,
    ensures
        r.group_of(implant, i) matches Some(g) ==> i <= g < r.groups.len() && r.groups[g].0 == implant,
    decreases r.groups.len() - i,
{
    if i < r.groups.len() && r.groups[i].0 != implant {
        lemma_group_of(r, implant, i + 1);
    }
}

/// A row that is filled from a column on is tiled.
proof fn lemma_row_tiled(r: Row, masters: Seq<FillerMaster>, j: int, nm: Names) -> (t: Seq<Stretch>)
    requires
        r.grid.wf(),
        masters.len() <= usize::MAX,
        is_split(masters, r.groups),
        r.groups.len() > 0,
        0 <= j <= r.grid.row_site_count,
        j == 0 || j == r.grid.row_site_count || !r.empty_at(j) || !r.empty_at(j - 1),
        r.filled_from(j, nm).0 is Ok,
    ensures
        tiles(r, r.filled_from(j, nm).0->Ok_0, t, j),
    decreases r.grid.row_site_count - j,
{
    let cols = r.grid.row_site_count as int;
    let sw = r.grid.site_width as int;
    if j >= cols {
        Seq::empty()
    } else if !r.empty_at(j) {
        let t = lemma_row_tiled(r, masters, j + 1, nm);
        let fs = r.filled_from(j, nm).0->Ok_0;
        assert forall|x: int| j <= x < cols implies (#[trigger] r.empty_at(x) <==> exists|k: int| 0 <= k < t.len() && (#[trigger] t[k]).at <= x < t[k].at + t[k].w) by {
            if x == j {
                if exists|k: int| 0 <= k < t.len() && (#[trigger] t[k]).at <= x < t[k].at + t[k].w {
                    let k = choose|k: int| 0 <= k < t.len() && (#[trigger] t[k]).at <= x < t[k].at + t[k].w;
                    assert(j + 1 <= t[k].at);
                }
            }
        }
        assert forall|k: int| 0 <= k < t.len() implies lies(r, fs[k], #[trigger] t[k]) && j <= t[k].at by {
        }
        t
    } else {
        lemma_run(r, j);
        let k = r.run_end(j);
        assert(r.run_end(j + 1) == k);
        lemma_run(r, j + 1);
        assert(is_run(r, j, k));
        let head = r.run_filled(j, k, nm);
        let s = r.grid.shortest(j, r.row, r.heights)->Some_0;
        lemma_shortest(r.grid, j, r.row, r.heights, r.grid.row_sites@[r.row]@.len() as int);
        let h = height_of(r.heights, r.grid.row_sites@[r.row]@[s].2@);
        let implant = r.implant_at(j, k);
        lemma_group_of(r, implant, 0);
        let g = r.group_of(implant, 0)->Some_0;
        let group = r.groups[g].1@;
        let list = gap_fill(group, k - j, h, sw);
        assert(group.len() == r.groups[g].1.len());
        law_gap_is_filled_exactly(group, k - j, h, sw);
        assert(is_group(masters, r.groups[g].0, r.groups[g].1@));
        assert(asked_implant(r, j, k) == implant);
        assert forall|i: int| 0 <= i < group.len() && group[i].height == h implies suits(r, #[trigger] group[i], j, k) by {
            law_groups_hold_their_implant_widest_first(masters, r.groups[g].0, group, i, i);
            assert(r.groups[g].1@[i] == group[i]);
            assert(site_there(r, s, j));
            assert forall|q: int| #[trigger] site_there(r, q, j) implies group[i].height <= height_of(r.heights, r.grid.row_sites@[r.row]@[q].2@) by {
                let e = r.grid.row_sites@[r.row]@[q];
            }
        }
        let a = lemma_laid(r, group, list, j, nm, h, j, k);
        let fs = head.0->Ok_0;
        let b = lemma_row_tiled(r, masters, k, head.1);
        let gs = r.filled_from(k, head.1).0->Ok_0;
        let t = a + b;
        let all = fs + gs;
        assert(r.filled_from(j, nm).0->Ok_0 == all);
        assert forall|q: int| 0 <= q < t.len() implies lies(r, all[q], #[trigger] t[q]) && j <= t[q].at by {
            if q < a.len() {
                assert(t[q] == a[q] && all[q] == fs[q]);
            } else {
                assert(t[q] == b[q - a.len()] && all[q] == gs[q - a.len()]);
            }
        }
        assert forall|p: int, q: int| 0 <= p < q < t.len() implies (#[trigger] t[p]).at + t[p].w <= (#[trigger] t[q]).at by {
            if q < a.len() {
                assert(t[p] == a[p] && t[q] == a[q]);
            } else {
                assert(t[q] == b[q - a.len()]);
                if p < a.len() {
                    assert(t[p] == a[p]);
                } else {
                    assert(t[p] == b[p - a.len()]);
                }
            }
        }
        assert forall|x: int| j <= x < cols implies (#[trigger] r.empty_at(x) <==> exists|q: int| 0 <= q < t.len() && (#[trigger] t[q]).at <= x < t[q].at + t[q].w) by {
            if x < k {
                assert(covers_column(a, x));
                let q = choose|q: int| 0 <= q < a.len() && (#[trigger] a[q]).at <= x < a[q].at + a[q].w;
                assert(t[q] == a[q]);
            } else {
                if r.empty_at(x) {
                    let q = choose|q: int| 0 <= q < b.len() && (#[trigger] b[q]).at <= x < b[q].at + b[q].w;
                    assert(t[a.len() + q] == b[q]);
                }
                if exists|q: int| 0 <= q < t.len() && (#[trigger] t[q]).at <= x < t[q].at + t[q].w {
                    let q = choose|q: int| 0 <= q < t.len() && (#[trigger] t[q]).at <= x < t[q].at + t[q].w;
                    if q < a.len() {
                        assert(t[q] == a[q]);
                    } else {
                        assert(b[q - a.len()] == t[q]);
                    }
                }
            }
        }
        t
    }
}

/// A row that is filled has fillers on every empty site and nowhere else, each once, from left to right, of masters that
/// suit their run.
pub proof fn law_filled_rows_are_tiled(r: Row, masters: Seq<FillerMaster>, nm: Names)
    requires
        r.grid.wf(),
        masters.len() <= usize::MAX,
        is_split(masters, r.groups),
        r.fill(nm).0 is Ok,
    ensures
        exists|t: Seq<Stretch>| #[trigger] tiles(r, r.fill(nm).0->Ok_0, t, 0),
{
    let t = lemma_row_tiled(r, masters, 0, nm);
    assert(tiles(r, r.fill(nm).0->Ok_0, t, 0));
}

/// What the rows are filled with is what each of them is filled with, one after the other.
pub proof fn law_rows_are_filled_one_by_one(r: Row, masters: Seq<FillerMaster>, n: int, nm: Names, row: int)
    requires
        r.grid.wf(),
        masters.len() <= usize::MAX,
        is_split(masters, r.groups),
        0 <= row < n <= r.grid.row_count,
        rows_filled(r, n, nm).0 is Ok,
    ensures
        exists|i: int, j: int, t: Seq<Stretch>| 0 <= i <= j <= rows_filled(r, n, nm).0->Ok_0.len()
            && #[trigger] tiles(Row { row, ..r }, rows_filled(r, n, nm).0->Ok_0.subrange(i, j), t, 0),
    decreases n,
{
    let s = rows_filled(r, n - 1, nm).0->Ok_0;
    let here = Row { row: n - 1, ..r };
    let before = rows_filled(r, n - 1, nm).1;
    let now = here.fill(before).0->Ok_0;
    let all = rows_filled(r, n, nm).0->Ok_0;
    assert(all == s + now);
    if row < n - 1 {
        law_rows_are_filled_one_by_one(r, masters, n - 1, nm, row);
        let (i, j, t) = choose|i: int, j: int, t: Seq<Stretch>| 0 <= i <= j <= s.len() && #[trigger] tiles(Row { row, ..r }, s.subrange(i, j), t, 0);
        assert(all.subrange(i, j) =~= s.subrange(i, j));
        assert(tiles(Row { row, ..r }, all.subrange(i, j), t, 0));
    } else {
        let t = lemma_row_tiled(here, masters, 0, before);
        assert(all.subrange(s.len() as int, all.len() as int) =~= now);
        assert(tiles(Row { row, ..r }, all.subrange(s.len() as int, all.len() as int), t, 0));
    }
}

// ── empty squares ────────────────────────────────────────────────────────────────────────────

proof fn lemma_holder(insts: Seq<FillInst>, g: Grid, n: int, x: int, y: int)
    requires
        0 <= n <= insts.len(),
    ensures
        holder_upto(insts, g, n, x, y) is None <==> forall|i: int| 0 <= i < n ==> !#[trigger] holds(insts[i], g, x, y),
        holder_upto(insts, g, n, x, y) matches Some(i) ==> 0 <= i < n && holds(insts[i], g, x, y) && forall|k: int| i < k < n ==> !#[trigger] holds(insts[k], g, x, y),
    decreases n,
{
    if n > 0 {
        lemma_holder(insts, g, n - 1, x, y);
        assert(holds(insts[n - 1], g, x, y) || !holds(insts[n - 1], g, x, y));
    }
}

/// A square of a fill is empty exactly where the grid is valid and no instance holds it; a held one shows the last
/// instance that holds it.
pub proof fn law_empty_squares_are_held_by_no_instance(r: Row, insts: Seq<FillInst>, x: int)
    requires
        shows_holders(r.cells, insts, r.grid),
        r.grid.inside(x, r.row),
    ensures
        r.empty_at(x) <==> r.grid.px(x, r.row).is_valid && forall|i: int| 0 <= i < insts.len() ==> !#[trigger] holds(insts[i], r.grid, x, r.row),
        r.cells[r.row]@[x] matches Some(h) ==> exists|i: int| 0 <= i < insts.len() && h.0 == insts[i].name && #[trigger] holds(insts[i], r.grid, x, r.row)
            && forall|k: int| i < k < insts.len() ==> !#[trigger] holds(insts[k], r.grid, x, r.row),
{
    let n = insts.len() as int;
    lemma_holder(insts, r.grid, n, x, r.row);
    assert(names_holder(r.cells[r.row]@[x], insts, holder_upto(insts, r.grid, n, x, r.row)));
    if let Some(i) = holder_upto(insts, r.grid, n, x, r.row) {
        assert(holds(insts[i], r.grid, x, r.row));
    }
}

/// An instance without overlap shapes whose box starts on a column and on a row holds the squares that its box meets.
pub proof fn law_instances_hold_what_their_boxes_meet(i: FillInst, g: Grid, x: int, y: int)
    requires
        g.wf(),
        g.inside(x, y),
        i.bbox is Some,
        forall|k: int| 0 <= k < i.obstructions@.len() ==> (#[trigger] i.obstructions@[k]).layer_type@ != "OVERLAP"@,
        i.bbox->Some_0.2 > i.bbox->Some_0.0,
        i.bbox->Some_0.3 > i.bbox->Some_0.1,
        crate::grid_laws::on_grid(g, i.bbox->Some_0.0 - g.core.0, i.bbox->Some_0.1 - g.core.1),
    ensures
        ({
            let b = i.bbox->Some_0;
            holds(i, g, x, y) <==> crate::grid_laws::meet(crate::grid_laws::square_box(g, x, y), (b.0 - g.core.0, b.1 - g.core.1, b.2 - g.core.0, b.3 - g.core.1))
        }),
{
    let b = i.bbox->Some_0;
    assert(!has_overlap(i.obstructions@));
    crate::grid_laws::law_cover_is_what_the_box_meets(g, b.0 - g.core.0, b.1 - g.core.1, b.2 - b.0, b.3 - b.1, x, y);
}

// ── names ────────────────────────────────────────────────────────────────────────────────────

/// What the names of fillers made since a store of names keep: they were free in it, no two are the same, and they are
/// taken after.
spec fn new_names(nm: Names, fs: Seq<Fill>, after: Names) -> bool {
    &&& after.taken.finite()
    &&& forall|s: Seq<char>| #[trigger] nm.taken.contains(s) ==> after.taken.contains(s)
    &&& forall|k: int| 0 <= k < fs.len() ==> !nm.taken.contains((#[trigger] fs[k]).name) && after.taken.contains(fs[k].name)
    &&& forall|k: int, m: int| 0 <= k < m < fs.len() ==> (#[trigger] fs[k]).name != (#[trigger] fs[m]).name
}

proof fn lemma_names_join(a: Names, f: Seq<Fill>, b: Names, h: Seq<Fill>, c: Names)
    requires
        new_names(a, f, b),
        new_names(b, h, c),
    ensures
        new_names(a, f + h, c),
{
    let all = f + h;
    assert forall|k: int| 0 <= k < all.len() implies !a.taken.contains((#[trigger] all[k]).name) && c.taken.contains(all[k].name) by {
        if k < f.len() {
            assert(all[k] == f[k]);
            assert(b.taken.contains(f[k].name));
        } else {
            assert(all[k] == h[k - f.len()]);
            if a.taken.contains(all[k].name) {
                assert(b.taken.contains(all[k].name));
            }
        }
    }
    assert forall|k: int, m: int| 0 <= k < m < all.len() implies (#[trigger] all[k]).name != (#[trigger] all[m]).name by {
        if m < f.len() {
            assert(all[k] == f[k] && all[m] == f[m]);
        } else {
            assert(all[m] == h[m - f.len()]);
            if k < f.len() {
                assert(all[k] == f[k]);
                assert(b.taken.contains(f[k].name));
            } else {
                assert(all[k] == h[k - f.len()]);
            }
        }
    }
    assert forall|s: Seq<char>| #[trigger] a.taken.contains(s) implies c.taken.contains(s) by {
        assert(b.taken.contains(s));
    }
}

proof fn lemma_laid_names(r: Row, group: Seq<FillerMaster>, list: Seq<usize>, at: int, orient: Seq<char>, nm: Names)
    requires
        nm.taken.finite(),
    ensures
        new_names(nm, r.laid(group, list, at, orient, nm).0, r.laid(group, list, at, orient, nm).1),
    decreases list.len(),
{
    if list.len() > 0 {
        let m = group[list[0] as int];
        let name = r.prefix + decimal(r.row as nat) + seq!['_'] + decimal(at as nat);
        let n = made(nm, name);
        law_made_names_are_new(nm, name);
        let f = Fill { name: n.0, master: m.name@, x: r.x_of(at), y: r.y_of(), orient };
        let next = at + sites_of(m, r.grid.site_width as int);
        lemma_laid_names(r, group, list.skip(1), next, orient, n.1);
        assert(new_names(nm, seq![f], n.1));
        lemma_names_join(nm, seq![f], n.1, r.laid(group, list.skip(1), next, orient, n.1).0, r.laid(group, list.skip(1), next, orient, n.1).1);
    }
}

proof fn lemma_row_names(r: Row, j: int, nm: Names)
    requires
        nm.taken.finite(),
        r.filled_from(j, nm).0 is Ok,
    ensures
        new_names(nm, r.filled_from(j, nm).0->Ok_0, r.filled_from(j, nm).1),
    decreases r.grid.row_site_count - j,
{
    if j < r.grid.row_site_count {
        if !r.empty_at(j) {
            lemma_row_names(r, j + 1, nm);
        } else {
            let k = r.run_end(j);
            let head = r.run_filled(j, k, nm);
            let g = r.group_of(r.implant_at(j, k), 0)->Some_0;
            let s = r.grid.shortest(j, r.row, r.heights)->Some_0;
            let h = height_of(r.heights, r.grid.row_sites@[r.row]@[s].2@);
            let group = r.groups[g].1@;
            let list = gap_fill(group, k - j, h, r.grid.site_width as int);
            lemma_laid_names(r, group, list, j, r.grid.row_orient@[r.row]@, nm);
            if j < k <= r.grid.row_site_count {
                lemma_row_names(r, k, head.1);
                lemma_names_join(nm, head.0->Ok_0, head.1, r.filled_from(k, head.1).0->Ok_0, r.filled_from(k, head.1).1);
            }
        }
    }
}

proof fn lemma_rows_names(r: Row, n: int, nm: Names)
    requires
        nm.taken.finite(),
        rows_filled(r, n, nm).0 is Ok,
    ensures
        new_names(nm, rows_filled(r, n, nm).0->Ok_0, rows_filled(r, n, nm).1),
    decreases n,
{
    if n > 0 {
        lemma_rows_names(r, n - 1, nm);
        let before = rows_filled(r, n - 1, nm);
        let here = Row { row: n - 1, ..r };
        lemma_row_names(here, 0, before.1);
        lemma_names_join(nm, before.0->Ok_0, before.1, here.fill(before.1).0->Ok_0, here.fill(before.1).1);
    }
}

/// Every filler has a name of its own, which no instance had.
pub proof fn law_fillers_have_new_names(r: Row, n: int, inst_names: Seq<String>, k: int, m: int)
    requires
        rows_filled(r, n, fresh_names(inst_names)).0 is Ok,
        0 <= k < m < rows_filled(r, n, fresh_names(inst_names)).0->Ok_0.len(),
    ensures
        rows_filled(r, n, fresh_names(inst_names)).0->Ok_0[k].name != rows_filled(r, n, fresh_names(inst_names)).0->Ok_0[m].name,
        forall|i: int| 0 <= i < inst_names.len() ==> (#[trigger] inst_names[i])@ != rows_filled(r, n, fresh_names(inst_names)).0->Ok_0[m].name,
        forall|i: int| 0 <= i < inst_names.len() ==> (#[trigger] inst_names[i])@ != rows_filled(r, n, fresh_names(inst_names)).0->Ok_0[k].name,
{
    let nm = fresh_names(inst_names);
    let views = inst_names.map_values(|s: String| s@);
    views.lemma_cardinality_of_set();
    assert(nm.taken =~= views.to_set()) by {
        assert forall|s: Seq<char>| nm.taken.contains(s) <==> views.to_set().contains(s) by {
            if nm.taken.contains(s) {
                let q = choose|q: int| 0 <= q < inst_names.len() && (#[trigger] inst_names[q])@ == s;
                assert(views[q] == s);
            }
            if views.to_set().contains(s) {
                let q = choose|q: int| 0 <= q < views.len() && views[q] == s;
                assert(inst_names[q]@ == s);
            }
        }
    }
    lemma_rows_names(r, n, nm);
    let fs = rows_filled(r, n, nm).0->Ok_0;
    assert(fs[k].name != fs[m].name);
    assert forall|i: int| 0 <= i < inst_names.len() implies (#[trigger] inst_names[i])@ != fs[m].name && inst_names[i]@ != fs[k].name by {
        assert(nm.taken.contains(inst_names[i]@));
    }
}

// ── shapes of placed masters ─────────────────────────────────────────────────────────────────

/// R0 turns nothing; MY negates x; two quarter turns are a half turn, three are R270 and four are none; MX is MY and a
/// half turn; MYR90 and MXR90 are MY and MX and then a quarter turn.
pub proof fn law_turns_follow_the_quarter_turn(x: int, y: int)
    ensures
        turned("R0"@, x, y) == (x, y),
        turned("MY"@, x, y) == (-x, y),
        turned("R90"@, 1, 0) == (0int, 1int),
        ({
            let q = turned("R90"@, x, y);
            let h = turned("R90"@, q.0, q.1);
            let t = turned("R90"@, h.0, h.1);
            &&& turned("R180"@, x, y) == h
            &&& turned("R270"@, x, y) == t
            &&& turned("R90"@, t.0, t.1) == (x, y)
        }),
        ({
            let m = turned("MY"@, x, y);
            let n = turned("MX"@, x, y);
            &&& n == turned("R180"@, m.0, m.1)
            &&& turned("MYR90"@, x, y) == turned("R90"@, m.0, m.1)
            &&& turned("MXR90"@, x, y) == turned("R90"@, n.0, n.1)
        }),
{
    lemma_names_differ();
}

/// A point lies in a master's box just where the point, turned and moved, lies in the instance's box.
pub proof fn law_moved_boxes_hold_the_moved_points(orient: Seq<char>, origin: (i32, i32), r: Box4, x: int, y: int)
    requires
        r.0 <= r.2,
        r.1 <= r.3,
    ensures
        ({
            let b = moved(orient, origin, r);
            let p = turned(orient, x, y);
            (r.0 <= x <= r.2 && r.1 <= y <= r.3) <==> (b.0 <= p.0 + origin.0 <= b.2 && b.1 <= p.1 + origin.1 <= b.3)
        }),
{
    lemma_names_differ();
}

} // verus!
