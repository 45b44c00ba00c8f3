//! Putting the cells into segments: each into the nearest segment, or run of segments, it can take.

use vstd::prelude::*;
use crate::arith::{dist, distance, imax, imin};
use crate::improve::Node;
use crate::land::{all_below, node_in, seg_end, Land, Live, St};
use crate::moves::{center, joins_all, placed};
use crate::rows::COORD_LIMIT;
use crate::segments::{lists, Segment};

verus! {

// ── the nearest segment ──────────────────────────────────────────────────────────────────────

/// The nearest segments so far: of all, and of those wide enough, each with its distance.
pub ghost struct Pick {
    pub any: Option<(usize, int)>,
    pub fit: Option<(usize, int)>,
}

/// The left edge nearest to a node's that keeps it between two ends.
pub open spec fn held_in(lo: int, hi: int, n: Node) -> int {
    imax(lo, imin(hi - n.width, n.left as int))
}

/// The nearer of a pick and a candidate; the pick where they are equally near.
pub open spec fn nearer(a: Option<(usize, int)>, seg: usize, d: int) -> Option<(usize, int)> {
    match a {
        Some(p) => if d < p.1 { Some((seg, d)) } else { a },
        None => Some((seg, d)),
    }
}

impl Land {
    /// Whether a node may be in a segment: of its region, in a row its master's symmetry allows.
    pub open spec fn admits(&self, n: Node, sym_x: bool, seg: usize) -> bool {
        let g = self.segments@[seg as int];
        n.group == g.reg && self.row_takes(sym_x, g.row as int)
    }

    /// The pick after a segment `vert` away was considered.
    pub open spec fn considered(&self, p: Pick, n: Node, sym_x: bool, seg: usize, vert: int) -> Pick {
        let g = self.segments@[seg as int];
        let d = dist(held_in(g.min_x as int, g.max_x as int, n), n.left as int) + vert;
        if !self.admits(n, sym_x, seg) {
            p
        } else {
            Pick { any: nearer(p.any, seg, d), fit: if n.width <= g.max_x - g.min_x { nearer(p.fit, seg, d) } else { p.fit } }
        }
    }

    /// The pick after the first `k` segments of a row were considered.
    pub open spec fn row_considered(&self, p: Pick, n: Node, sym_x: bool, row: int, vert: int, k: int) -> Pick
        decreases k,
    {
        if k <= 0 {
            p
        } else {
            self.considered(self.row_considered(p, n, sym_x, row, vert, k - 1), n, sym_x, self.segs_in_row@[row]@[k - 1], vert)
        }
    }

    /// The pick after all segments of a row were considered, if there is such a row.
    pub open spec fn level_considered(&self, p: Pick, n: Node, sym_x: bool, row: int, vert: int) -> Pick {
        if 0 <= row < self.arch.rows@.len() { self.row_considered(p, n, sym_x, row, vert, self.segs_in_row@[row]@.len() as int) } else { p }
    }

    /// The pick after the rows up to `k` below and above a row were considered, those below first.
    pub open spec fn rings_considered(&self, n: Node, sym_x: bool, row: int, k: int) -> Pick
        decreases k,
    {
        if k <= 0 {
            self.level_considered(Pick { any: None, fit: None }, n, sym_x, row, 0)
        } else {
            let vert = k * self.arch.rows@[0].height;
            let p = self.rings_considered(n, sym_x, row, k - 1);
            self.level_considered(self.level_considered(p, n, sym_x, row - k, vert), n, sym_x, row + k, vert)
        }
    }

    /// The segment nearest to a node that it may be in, one it fits if there is one.
    pub open spec fn nearest_segment(&self, n: Node, sym_x: bool) -> Option<usize> {
        let p = self.rings_considered(n, sym_x, self.arch.closest(n.bottom as int), self.arch.rows@.len() as int);
        match (p.fit, p.any) {
            (Some(a), _) => Some(a.0),
            (None, Some(a)) => Some(a.0),
            (None, None) => None,
        }
    }

    /// The rows stacked from the lowest are within the limit.
    pub open spec fn low(&self) -> bool {
        self.arch.rows@.len() * self.arch.rows@[0].height <= COORD_LIMIT
    }
}

/// A pick as numbers: the distance is `i32::MAX` where nothing is picked.
spec fn shows(p: Pick, any: Option<usize>, d1: i64, fit: Option<usize>, d2: i64) -> bool {
    &&& match p.any {
        Some(a) => any == Some(a.0) && d1 == a.1,
        None => any is None && d1 == i32::MAX,
    }
    &&& match p.fit {
        Some(a) => fit == Some(a.0) && d2 == a.1,
        None => fit is None && d2 == i32::MAX,
    }
}

/// A row further away than both picks changes neither.
proof fn lemma_far_row(l: Land, p: Pick, n: Node, sym_x: bool, row: int, vert: int, k: int)
    requires
        p.any matches Some(a) && a.1 < vert,
        p.fit matches Some(a) && a.1 < vert,
    ensures
        l.row_considered(p, n, sym_x, row, vert, k) == p,
    decreases k,
{
    if k > 0 {
        lemma_far_row(l, p, n, sym_x, row, vert, k - 1);
    }
}

/// The nearest segments so far, as numbers.
struct Best {
    any: Option<usize>,
    d1: i64,
    fit: Option<usize>,
    d2: i64,
}

impl Live {
    fn consider_row(&self, l: &Land, nd: usize, sym_x: bool, row: usize, vert: i64, b: Best, Ghost(p): Ghost<Pick>) -> (r: Best)
        requires
            l.wf(),
            l.ok(self@),
            nd < l.count(),
            row < l.arch.rows@.len(),
            0 <= vert <= COORD_LIMIT,
            shows(p, b.any, b.d1, b.fit, b.d2),
            b.any matches Some(s) ==> s < l.segments@.len(),
            b.fit matches Some(s) ==> s < l.segments@.len(),
        ensures
            ({
                let q = l.level_considered(p, self@.nodes[nd as int], sym_x, row as int, vert as int);
                shows(q, r.any, r.d1, r.fit, r.d2)
            }),
            r.any matches Some(s) ==> s < l.segments@.len(),
            r.fit matches Some(s) ==> s < l.segments@.len(),
    {
        let ghost n = self@.nodes[nd as int];
        assert(node_in(n));
        let node: &Node = &self.nodes[nd];
        let v = &l.segs_in_row[row];
        assert(lists(l.segs_in_row@)[row as int] == v@);
        let mut out: Best = b;
        let mut k: usize = 0;
        while k < v.len()
            invariant
                l.wf(),
                node_in(n),
                *node == n,
                row < l.arch.rows@.len(),
                v@ == l.segs_in_row@[row as int]@,
                all_below(v@, l.segments@.len() as int),
                0 <= vert <= COORD_LIMIT,
                k <= v@.len(),
                shows(l.row_considered(p, n, sym_x, row as int, vert as int, k as int), out.any, out.d1, out.fit, out.d2),
                out.any matches Some(s) ==> s < l.segments@.len(),
                out.fit matches Some(s) ==> s < l.segments@.len(),
            decreases v@.len() - k,
        {
            let seg: usize = v[k];
            let g: &Segment = &l.segments[seg];
            assert(seg_end(g.min_x as int) && seg_end(g.max_x as int));
            if node.group == g.reg && l.master_symmetry_ok(sym_x, g.row) {
                let a: i32 = if g.max_x - node.width <= node.left { g.max_x - node.width } else { node.left };
                let x: i32 = if g.min_x >= a { g.min_x } else { a };
                let d: i64 = distance(x as i64, node.left as i64) + vert;
                if out.any.is_none() || d < out.d1 {
                    out.any = Some(seg);
                    out.d1 = d;
                }
                if node.width <= g.max_x - g.min_x && (out.fit.is_none() || d < out.d2) {
                    out.fit = Some(seg);
                    out.d2 = d;
                }
            }
            k = k + 1;
        }
        out
    }

    /// The segment nearest to a node that it may be in, one it fits if there is one.
    pub fn find_closest_segment(&self, l: &Land, nd: usize) -> (r: Option<usize>)
        requires
            l.wf(),
            l.ok(self@),
            l.low(),
            nd < l.count(),
        ensures
            r == l.nearest_segment(self@.nodes[nd as int], l.sym@[nd as int].0),
            r matches Some(s) ==> s < l.segments@.len(),
    {
        let ghost n = self@.nodes[nd as int];
        let sym_x: bool = l.sym[nd].0;
        let rows: usize = l.arch.rows.len();
        let row: usize = l.arch.find_closest_row(self.nodes[nd].bottom);
        let h: i64 = l.arch.rows[0].height as i64;
        assert(l.arch.rows@[0].ok());
        let none = Best { any: None, d1: i32::MAX as i64, fit: None, d2: i32::MAX as i64 };
        let mut b: Best = self.consider_row(l, nd, sym_x, row, 0, none, Ghost(Pick { any: None, fit: None }));
        let mut k: usize = 1;
        while k <= rows
            invariant
                l.wf(),
                l.ok(self@),
                l.low(),
                nd < l.count(),
                n == self@.nodes[nd as int],
                rows == l.arch.rows@.len(),
                row < rows,
                h == l.arch.rows@[0].height,
                h > 0,
                1 <= k <= rows + 1,
                shows(l.rings_considered(n, sym_x, row as int, k - 1), b.any, b.d1, b.fit, b.d2),
                b.any matches Some(s) ==> s < l.segments@.len(),
                b.fit matches Some(s) ==> s < l.segments@.len(),
            decreases rows + 1 - k,
        {
            let ghost p = l.rings_considered(n, sym_x, row as int, k - 1);
            proof {
                let (a, c, e) = (k as int, rows as int, h as int);
                assert(0 <= a * e <= c * e) by (nonlinear_arith)
                    requires 0 <= a <= c, e > 0;
            }
            let vert: i64 = k as i64 * h;
            if row >= k {
                if vert <= b.d1 || vert <= b.d2 {
                    b = self.consider_row(l, nd, sym_x, row - k, vert, b, Ghost(p));
                } else {
                    proof {
                        lemma_far_row(*l, p, n, sym_x, row - k, vert as int, l.segs_in_row@[row - k]@.len() as int);
                    }
                }
            }
            let ghost q = l.level_considered(p, n, sym_x, row - k, vert as int);
            if k < rows - row {
                if vert <= b.d1 || vert <= b.d2 {
                    b = self.consider_row(l, nd, sym_x, row + k, vert, b, Ghost(q));
                } else {
                    proof {
                        lemma_far_row(*l, q, n, sym_x, row + k, vert as int, l.segs_in_row@[row + k]@.len() as int);
                    }
                }
            }
            k = k + 1;
        }
        if b.fit.is_some() { b.fit } else { b.any }
    }
}

// ── the nearest run of segments ──────────────────────────────────────────────────────────────

impl Land {
    /// The runs of segments, one per row from `row` to `top`, that start with `path` and a segment and
    /// share a span of X.
    pub open spec fn stacks(&self, row: int, top: int, seg: usize, lo: int, hi: int, path: Seq<usize>) -> Seq<Seq<usize>>
        decreases top - row, 0int, 0int,
    {
        if row < top { self.stacks_above(row, top, lo, hi, path.push(seg), 0) } else { seq![path.push(seg)] }
    }

    /// The runs that go on with one of the segments of the row above, from position `k` on.
    pub open spec fn stacks_above(&self, row: int, top: int, lo: int, hi: int, path: Seq<usize>, k: int) -> Seq<Seq<usize>>
        decreases top - row - 1, 1int, self.segs_in_row@[row + 1]@.len() - k,
    {
        let v = self.segs_in_row@[row + 1]@;
        if row >= top || k < 0 || k >= v.len() {
            Seq::empty()
        } else {
            let g = self.segments@[v[k] as int];
            let (a, b) = (imax(lo, g.min_x as int), imin(hi, g.max_x as int));
            let here = if b - a > 0 { self.stacks(row + 1, top, v[k], a, b, path) } else { Seq::empty() };
            here + self.stacks_above(row, top, lo, hi, path, k + 1)
        }
    }

    /// The span of X that the first `n` segments of a run share.
    pub open spec fn shared(&self, run: Seq<usize>, n: int) -> (int, int)
        decreases n,
    {
        let g = self.segments@[run[n - 1] as int];
        if n <= 1 {
            (g.min_x as int, g.max_x as int)
        } else {
            let p = self.shared(run, n - 1);
            (imax(p.0, g.min_x as int), imin(p.1, g.max_x as int))
        }
    }
}

/// The nearest runs so far: of all, and of those wide enough, each with its distance.
pub ghost struct RunPick {
    pub any: Option<(Seq<usize>, int)>,
    pub fit: Option<(Seq<usize>, int)>,
}

/// The nearer of a pick and a run; the pick where they are equally near.
pub open spec fn nearer_run(a: Option<(Seq<usize>, int)>, run: Seq<usize>, d: int) -> Option<(Seq<usize>, int)> {
    match a {
        Some(p) => if d < p.1 { Some((run, d)) } else { a },
        None => Some((run, d)),
    }
}

impl Land {
    /// How far a node is from a run of segments.
    pub open spec fn run_distance(&self, n: Node, run: Seq<usize>) -> int {
        let (lo, hi) = self.shared(run, run.len() as int);
        let w = imin(n.width as int, hi - lo);
        let (lx, rx) = (lo + crate::arith::trunc_quot(w, 2), hi - crate::arith::trunc_quot(w, 2));
        dist(center(n), imax(lx, imin(rx, center(n))))
            + dist(n.bottom as int, self.arch.rows@[self.segments@[run[0] as int].row as int].bottom as int)
    }

    /// The pick after a run was considered.
    pub open spec fn run_considered(&self, p: RunPick, n: Node, run: Seq<usize>) -> RunPick {
        let (lo, hi) = self.shared(run, run.len() as int);
        let d = self.run_distance(n, run);
        if exists|k: int| 0 <= k < run.len() && self.segments@[#[trigger] run[k] as int].reg != n.group {
            p
        } else {
            RunPick { any: nearer_run(p.any, run, d), fit: if n.width <= hi - lo { nearer_run(p.fit, run, d) } else { p.fit } }
        }
    }

    /// The pick after the first `k` of some runs were considered.
    pub open spec fn runs_considered(&self, p: RunPick, n: Node, runs: Seq<Seq<usize>>, k: int) -> RunPick
        decreases k,
    {
        if k <= 0 { p } else { self.run_considered(self.runs_considered(p, n, runs, k - 1), n, runs[k - 1]) }
    }

    /// The pick after the runs that start in the first `k` segments of a row were considered.
    pub open spec fn starts_considered(&self, p: RunPick, n: Node, row: int, top: int, k: int) -> RunPick
        decreases k,
    {
        if k <= 0 {
            p
        } else {
            let seg = self.segs_in_row@[row]@[k - 1];
            let g = self.segments@[seg as int];
            let runs = self.stacks(row, top, seg, g.min_x as int, g.max_x as int, Seq::empty());
            self.runs_considered(self.starts_considered(p, n, row, top, k - 1), n, runs, runs.len() as int)
        }
    }

    /// The pick after the runs that start in the first `r` rows were considered.
    pub open spec fn rows_considered(&self, nd: usize, n: Node, sym_x: bool, tall: int, r: int) -> RunPick
        decreases r,
    {
        if r <= 0 {
            RunPick { any: None, fit: None }
        } else {
            let p = self.rows_considered(nd, n, sym_x, tall, r - 1);
            let top = r - 1 + tall - 1;
            if self.rails_fit(nd, r - 1) && self.row_takes(sym_x, r - 1) && top < self.arch.rows@.len() {
                self.starts_considered(p, n, r - 1, top, self.segs_in_row@[r - 1]@.len() as int)
            } else {
                p
            }
        }
    }

    /// The run of segments nearest to a node of several rows, one it fits if there is one.
    pub open spec fn nearest_run(&self, nd: usize, n: Node) -> Option<Seq<usize>> {
        let tall = self.arch.rows_high(n.height as int);
        let p = self.rows_considered(nd, n, self.sym@[nd as int].0, tall, self.arch.rows@.len() as int);
        if tall <= 1 {
            None
        } else {
            match (p.fit, p.any) {
                (Some(a), _) => Some(a.0),
                (None, Some(a)) => Some(a.0),
                (None, None) => None,
            }
        }
    }
}

/// All runs are of `n` segments there are.
spec fn runs_in(v: Seq<Vec<usize>>, n: int) -> bool {
    forall|k: int| 0 <= k < v.len() ==> (#[trigger] v[k])@.len() > 0 && all_below(v[k]@, n)
}

/// Add the runs of segments from a row up to `top` that start with `path` and a segment.
fn span_dfs(l: &Land, row: usize, top: usize, seg: usize, lo: i32, hi: i32, path: &mut Vec<usize>, out: &mut Vec<Vec<usize>>)
    requires
        l.wf(),
        row <= top < l.arch.rows@.len(),
        seg < l.segments@.len(),
        seg_end(lo as int),
        seg_end(hi as int),
        all_below(old(path)@, l.segments@.len() as int),
        runs_in(old(out)@, l.segments@.len() as int),
    ensures
        final(path)@ == old(path)@,
        lists(final(out)@) == lists(old(out)@) + l.stacks(row as int, top as int, seg, lo as int, hi as int, old(path)@),
        runs_in(final(out)@, l.segments@.len() as int),
    decreases top - row,
{
    let ghost p0 = path@;
    let ghost o0 = lists(out@);
    path.push(seg);
    let ghost p1 = path@;
    if row < top {
        let v = &l.segs_in_row[row + 1];
        assert(lists(l.segs_in_row@)[row + 1] == v@);
        let mut k: usize = 0;
        assert(o0 + l.stacks(row as int, top as int, seg, lo as int, hi as int, p0)
            == lists(out@) + l.stacks_above(row as int, top as int, lo as int, hi as int, p1, 0));
        while k < v.len()
            invariant
                l.wf(),
                row < top < l.arch.rows@.len(),
                seg_end(lo as int),
                seg_end(hi as int),
                v@ == l.segs_in_row@[row + 1]@,
                all_below(v@, l.segments@.len() as int),
                k <= v@.len(),
                path@ == p1,
                all_below(p1, l.segments@.len() as int),
                runs_in(out@, l.segments@.len() as int),
                lists(out@) + l.stacks_above(row as int, top as int, lo as int, hi as int, p1, k as int)
                    == o0 + l.stacks(row as int, top as int, seg, lo as int, hi as int, p0),
            decreases v@.len() - k,
        {
            let next: usize = v[k];
            let g: &Segment = &l.segments[next];
            assert(seg_end(g.min_x as int) && seg_end(g.max_x as int));
            let a: i32 = if lo >= g.min_x { lo } else { g.min_x };
            let b: i32 = if hi <= g.max_x { hi } else { g.max_x };
            let ghost o1 = lists(out@);
            let ghost rest = l.stacks_above(row as int, top as int, lo as int, hi as int, p1, k + 1);
            if b - a > 0 {
                span_dfs(l, row + 1, top, next, a, b, path, out);
                proof {
                    let here = l.stacks(row + 1, top as int, next, a as int, b as int, p1);
                    assert((o1 + here) + rest =~= o1 + (here + rest));
                }
            } else {
                proof {
                    assert(Seq::<Seq<usize>>::empty() + rest =~= rest);
                }
            }
            k = k + 1;
        }
        proof {
            assert(lists(out@) + Seq::<Seq<usize>>::empty() =~= lists(out@));
        }
    } else {
        let done = crate::moves::copy_list(path);
        let ghost before = out@;
        out.push(done);
        assert(lists(out@) =~= o0 + seq![p1]);
    }
    let last = path.pop();
    assert(path@ =~= p0);
}

/// The nearest runs so far, as numbers.
struct BestRun {
    any: Option<Vec<usize>>,
    d1: i64,
    fit: Option<Vec<usize>>,
    d2: i64,
}

spec fn run_shows(p: RunPick, b: BestRun) -> bool {
    &&& match p.any {
        Some(a) => b.any matches Some(v) && v@ == a.0 && b.d1 == a.1,
        None => b.any is None,
    }
    &&& match p.fit {
        Some(a) => b.fit matches Some(v) && v@ == a.0 && b.d2 == a.1,
        None => b.fit is None,
    }
}

spec fn run_ok(l: &Land, b: BestRun) -> bool {
    &&& b.any matches Some(v) ==> v@.len() > 0 && all_below(v@, l.segments@.len() as int)
    &&& b.fit matches Some(v) ==> v@.len() > 0 && all_below(v@, l.segments@.len() as int)
}

/// The span of X that the segments of a run share.
pub fn shared_span(l: &Land, run: &Vec<usize>) -> (r: (i32, i32))
    requires
        l.wf(),
        run@.len() > 0,
        all_below(run@, l.segments@.len() as int),
    ensures
        (r.0 as int, r.1 as int) == l.shared(run@, run@.len() as int),
        seg_end(r.0 as int),
        seg_end(r.1 as int),
{
    assert(seg_end(l.segments@[run@[0] as int].min_x as int) && seg_end(l.segments@[run@[0] as int].max_x as int));
    let mut lo: i32 = l.segments[run[0]].min_x;
    let mut hi: i32 = l.segments[run[0]].max_x;
    let mut k: usize = 1;
    while k < run.len()
        invariant
            l.wf(),
            all_below(run@, l.segments@.len() as int),
            1 <= k <= run@.len(),
            (lo as int, hi as int) == l.shared(run@, k as int),
            seg_end(lo as int),
            seg_end(hi as int),
        decreases run@.len() - k,
    {
        let g: &Segment = &l.segments[run[k]];
        assert(seg_end(g.min_x as int) && seg_end(g.max_x as int));
        if g.min_x > lo {
            lo = g.min_x;
        }
        if g.max_x < hi {
            hi = g.max_x;
        }
        k = k + 1;
    }
    (lo, hi)
}

impl Live {
    fn consider_run(&self, l: &Land, nd: usize, run: &Vec<usize>, b: BestRun, Ghost(p): Ghost<RunPick>) -> (r: BestRun)
        requires
            l.wf(),
            l.ok(self@),
            nd < l.count(),
            run@.len() > 0,
            all_below(run@, l.segments@.len() as int),
            run_shows(p, b),
            run_ok(l, b),
        ensures
            run_shows(l.run_considered(p, self@.nodes[nd as int], run@), r),
            run_ok(l, r),
    {
        let ghost n = self@.nodes[nd as int];
        assert(node_in(n));
        let node: &Node = &self.nodes[nd];
        let mut k: usize = 0;
        while k < run.len()
            invariant
                l.wf(),
                all_below(run@, l.segments@.len() as int),
                *node == n,
                n == self@.nodes[nd as int],
                run_shows(p, b),
                run_ok(l, b),
                k <= run@.len(),
                forall|j: int| 0 <= j < k ==> l.segments@[#[trigger] run@[j] as int].reg == n.group,
            decreases run@.len() - k,
        {
            if l.segments[run[k]].reg != node.group {
                assert(l.segments@[run@[k as int] as int].reg != n.group);
                return b;
            }
            k = k + 1;
        }
        let (lo, hi) = shared_span(l, run);
        let first: &Segment = &l.segments[run[0]];
        assert(l.arch.rows@[l.segments@[run@[0] as int].row as int].ok());
        let dy: i64 = distance(node.bottom as i64, l.arch.rows[first.row].bottom as i64);
        let w: i32 = if node.width <= hi - lo { node.width } else { hi - lo };
        let half: i32 = w / 2;
        let lx: i32 = lo + half;
        let rx: i32 = hi - half;
        let xc: i32 = self.center_x(l, nd);
        let a: i32 = if rx <= xc { rx } else { xc };
        let x: i32 = if lx >= a { lx } else { a };
        let d: i64 = distance(xc as i64, x as i64) + dy;
        assert(d == l.run_distance(n, run@));
        let mut out: BestRun = b;
        if out.any.is_none() || d < out.d1 {
            out.any = Some(crate::moves::copy_list(run));
            out.d1 = d;
        }
        if node.width <= hi - lo && (out.fit.is_none() || d < out.d2) {
            out.fit = Some(crate::moves::copy_list(run));
            out.d2 = d;
        }
        out
    }

    fn consider_starts(&self, l: &Land, nd: usize, row: usize, top: usize, b: BestRun, Ghost(p): Ghost<RunPick>) -> (r: BestRun)
        requires
            l.wf(),
            l.ok(self@),
            nd < l.count(),
            row <= top < l.arch.rows@.len(),
            run_shows(p, b),
            run_ok(l, b),
        ensures
            run_shows(l.starts_considered(p, self@.nodes[nd as int], row as int, top as int, l.segs_in_row@[row as int]@.len() as int), r),
            run_ok(l, r),
    {
        let ghost n = self@.nodes[nd as int];
        let v = &l.segs_in_row[row];
        assert(lists(l.segs_in_row@)[row as int] == v@);
        let mut out: BestRun = b;
        let mut k: usize = 0;
        while k < v.len()
            invariant
                l.wf(),
                l.ok(self@),
                nd < l.count(),
                n == self@.nodes[nd as int],
                row <= top < l.arch.rows@.len(),
                v@ == l.segs_in_row@[row as int]@,
                all_below(v@, l.segments@.len() as int),
                k <= v@.len(),
                run_shows(l.starts_considered(p, n, row as int, top as int, k as int), out),
                run_ok(l, out),
            decreases v@.len() - k,
        {
            let seg: usize = v[k];
            let g: &Segment = &l.segments[seg];
            assert(seg_end(g.min_x as int) && seg_end(g.max_x as int));
            let ghost q = l.starts_considered(p, n, row as int, top as int, k as int);
            let mut path: Vec<usize> = Vec::new();
            let mut runs: Vec<Vec<usize>> = Vec::new();
            assert(path@ =~= Seq::empty());
            span_dfs(l, row, top, seg, g.min_x, g.max_x, &mut path, &mut runs);
            let ghost all = l.stacks(row as int, top as int, seg, g.min_x as int, g.max_x as int, Seq::empty());
            assert(lists(runs@) =~= all) by {
                assert(lists(Seq::<Vec<usize>>::empty()) =~= Seq::empty());
            }
            let mut j: usize = 0;
            while j < runs.len()
                invariant
                    l.wf(),
                    l.ok(self@),
                    nd < l.count(),
                    n == self@.nodes[nd as int],
                    runs_in(runs@, l.segments@.len() as int),
                    lists(runs@) == all,
                    j <= runs@.len(),
                    run_shows(l.runs_considered(q, n, all, j as int), out),
                    run_ok(l, out),
                decreases runs@.len() - j,
            {
                assert(lists(runs@)[j as int] == runs@[j as int]@);
                out = self.consider_run(l, nd, &runs[j], out, Ghost(l.runs_considered(q, n, all, j as int)));
                j = j + 1;
            }
            k = k + 1;
        }
        out
    }

    /// The run of segments nearest to a cell of several rows, all in its region, with rails and
    /// symmetry that fit at the lowest row, one it fits if there is one.
    pub fn find_closest_span(&self, l: &Land, nd: usize) -> (r: Option<Vec<usize>>)
        requires
            l.wf(),
            l.ok(self@),
            nd < l.count(),
        ensures
            r is Some <==> l.nearest_run(nd, self@.nodes[nd as int]) is Some,
            r matches Some(v) ==> l.nearest_run(nd, self@.nodes[nd as int]) == Some(v@) && v@.len() > 0
                && all_below(v@, l.segments@.len() as int),
    {
        let ghost n = self@.nodes[nd as int];
        assert(node_in(n));
        assert(l.arch.rows@[0].ok());
        let tall: i32 = l.arch.height_in_rows(self.nodes[nd].height);
        if tall <= 1 {
            return None;
        }
        let sym_x: bool = l.sym[nd].0;
        let rows: usize = l.arch.rows.len();
        let up: usize = tall as usize - 1;
        let mut b = BestRun { any: None, d1: 0, fit: None, d2: 0 };
        let mut r: usize = 0;
        while r < rows
            invariant
                l.wf(),
                l.ok(self@),
                nd < l.count(),
                n == self@.nodes[nd as int],
                rows == l.arch.rows@.len(),
                rows <= COORD_LIMIT,
                tall == l.arch.rows_high(n.height as int),
                up == tall - 1,
                1 <= up <= COORD_LIMIT,
                r <= rows,
                run_shows(l.rows_considered(nd, n, sym_x, tall as int, r as int), b),
                run_ok(l, b),
            decreases rows - r,
        {
            let fits: bool = r < l.rails[nd].len() && l.rails[nd][r].0;
            if fits && l.master_symmetry_ok(sym_x, r) && r + up < rows {
                b = self.consider_starts(l, nd, r, r + up, b, Ghost(l.rows_considered(nd, n, sym_x, tall as int, r as int)));
            }
            r = r + 1;
        }
        if b.fit.is_some() { b.fit } else { b.any }
    }
}

// ── snapping ─────────────────────────────────────────────────────────────────────────────────

impl Land {
    /// The state after a cell was put into some segments and moved to the place in them nearest to its
    /// own.
    pub open spec fn put_into(&self, s: St, nd: usize, run: Seq<usize>) -> St {
        let n = s.nodes[nd as int];
        let (lo, hi) = self.shared(run, run.len() as int);
        let t = joins_all(s, nd, run, run.len() as int);
        let y = self.arch.rows@[self.segments@[run[0] as int].row as int].bottom;
        self.settled(placed(t, nd, held_in(lo, hi, n) as i32, y), nd as int)
    }

    /// The segments a cell goes into, if there are any.
    pub open spec fn goes_to(&self, s: St, nd: usize) -> Option<Seq<usize>> {
        if self.tall(s, nd) == 1 {
            match self.nearest_segment(s.nodes[nd as int], self.sym@[nd as int].0) {
                Some(g) => Some(seq![g]),
                None => None,
            }
        } else {
            self.nearest_run(nd, s.nodes[nd as int])
        }
    }

    /// The state after a cell was put into its nearest segments; a cell without any stays.
    pub open spec fn snapped_one(&self, s: St, nd: usize) -> St {
        match self.goes_to(s, nd) {
            Some(run) => self.put_into(s, nd, run),
            None => s,
        }
    }

    /// The state after the first `n` cells of a list were put into segments.
    pub open spec fn snapped(&self, s: St, list: Seq<usize>, n: int) -> St
        decreases n,
    {
        if n <= 0 { s } else { self.snapped_one(self.snapped(s, list, n - 1), list[n - 1]) }
    }

    /// How far a cell moves, in X and in Y, when it is put into its nearest segments.
    pub open spec fn snap_way(&self, s: St, nd: usize) -> (int, int) {
        match self.goes_to(s, nd) {
            Some(run) => {
                let n = s.nodes[nd as int];
                let (lo, hi) = self.shared(run, run.len() as int);
                let y = self.arch.rows@[self.segments@[run[0] as int].row as int].bottom as int;
                (dist(n.left as int, held_in(lo, hi, n)), dist(n.bottom as int, y))
            },
            None => (0, 0),
        }
    }

    /// How far the first `n` cells of a list move in sum, and how many go into segments.
    pub open spec fn snap_sum(&self, s: St, list: Seq<usize>, n: int) -> (int, int, int)
        decreases n,
    {
        if n <= 0 {
            (0, 0, 0)
        } else {
            let p = self.snap_sum(s, list, n - 1);
            let t = self.snapped(s, list, n - 1);
            let w = self.snap_way(t, list[n - 1]);
            (p.0 + w.0, p.1 + w.1, p.2 + (if self.goes_to(t, list[n - 1]) is Some { 1int } else { 0int }))
        }
    }
}

/// Whether three numbers are those of a sum.
pub open spec fn is_sum(x: (i64, i64, usize), s: (int, int, int)) -> bool {
    x.0 == s.0 && x.1 == s.1 && x.2 == s.2
}

impl Live {
    /// Put a cell into its nearest segments. How far it moved in X and in Y, and whether it went into
    /// any.
    pub fn snap_cell(&mut self, l: &Land, nd: usize) -> (r: (i64, i64, bool))
        requires
            l.wf(),
            l.ok(old(self)@),
            l.low(),
            nd < l.count(),
        ensures
            l.ok(final(self)@),
            final(self)@ == l.snapped_one(old(self)@, nd),
            (r.0 as int, r.1 as int) == l.snap_way(old(self)@, nd),
            r.2 == (l.goes_to(old(self)@, nd) is Some),
            0 <= r.0 <= 16 * COORD_LIMIT,
            0 <= r.1 <= 16 * COORD_LIMIT,
    {
        let ghost s0 = self@;
        assert(node_in(s0.nodes[nd as int]));
        let run: Vec<usize> = if self.is_one_high(l, nd) {
            match self.find_closest_segment(l, nd) {
                Some(g) => {
                    let mut v: Vec<usize> = Vec::new();
                    v.push(g);
                    assert(v@ =~= seq![g]);
                    v
                },
                None => return (0, 0, false),
            }
        } else {
            match self.find_closest_span(l, nd) {
                Some(v) => v,
                None => return (0, 0, false),
            }
        };
        let (lo, hi) = shared_span(l, &run);
        let (w, left, bottom) = (self.nodes[nd].width, self.nodes[nd].left, self.nodes[nd].bottom);
        let a: i32 = if hi - w <= left { hi - w } else { left };
        let x: i32 = if lo >= a { lo } else { a };
        let row: usize = l.segments[run[0]].row;
        assert(l.arch.rows@[row as int].ok());
        let y: i32 = l.arch.rows[row].bottom;
        self.join_all(l, nd, &run);
        self.put(l, nd, x, y);
        self.paint_in_grid(l, nd);
        (distance(left as i64, x as i64), distance(bottom as i64, y as i64), true)
    }

    /// Put the cells of a list into their nearest segments, one after the other. For each number of them,
    /// from none to all, how far so many moved in sum, in X and in Y, and how many went into segments.
    pub fn snap(&mut self, l: &Land, list: &Vec<usize>) -> (r: Vec<(i64, i64, usize)>)
        requires
            l.wf(),
            l.ok(old(self)@),
            l.low(),
            all_below(list@, l.count()),
            list@.len() <= COORD_LIMIT,
        ensures
            l.ok(final(self)@),
            final(self)@ == l.snapped(old(self)@, list@, list@.len() as int),
            r@.len() == list@.len() + 1,
            forall|k: int| 0 <= k <= list@.len() ==> is_sum(#[trigger] r@[k], l.snap_sum(old(self)@, list@, k)),
            forall|j: int, k: int| 0 <= j <= k <= list@.len() ==> 0 <= (#[trigger] r@[j]).0 <= (#[trigger] r@[k]).0 && 0 <= r@[j].1 <= r@[k].1 && r@[j].2 <= r@[k].2,
    {
        let ghost s0 = self@;
        let mut mx: i64 = 0;
        let mut my: i64 = 0;
        let mut count: usize = 0;
        let mut sums: Vec<(i64, i64, usize)> = Vec::new();
        sums.push((mx, my, count));
        let mut k: usize = 0;
        while k < list.len()
            invariant
                l.wf(),
                l.ok(self@),
                l.low(),
                all_below(list@, l.count()),
                list@.len() <= COORD_LIMIT,
                k <= list@.len(),
                self@ == l.snapped(s0, list@, k as int),
                (mx as int, my as int, count as int) == l.snap_sum(s0, list@, k as int),
                0 <= mx <= k * (16 * COORD_LIMIT),
                0 <= my <= k * (16 * COORD_LIMIT),
                count <= k,
                sums@.len() == k + 1,
                sums@[k as int] == (mx, my, count),
                forall|j: int| 0 <= j <= k ==> is_sum(#[trigger] sums@[j], l.snap_sum(s0, list@, j)),
                forall|i: int, j: int| 0 <= i <= j <= k ==> 0 <= (#[trigger] sums@[i]).0 <= (#[trigger] sums@[j]).0 && 0 <= sums@[i].1 <= sums@[j].1
                    && sums@[i].2 <= sums@[j].2,
            decreases list@.len() - k,
        {
            let (x, y, went) = self.snap_cell(l, list[k]);
            proof {
                assert((k + 1) * (16 * COORD_LIMIT) == k * (16 * COORD_LIMIT) + 16 * COORD_LIMIT) by (nonlinear_arith);
                assert(k * (16 * COORD_LIMIT) <= COORD_LIMIT * (16 * COORD_LIMIT)) by (nonlinear_arith)
                    requires k <= COORD_LIMIT;
            }
            mx = mx + x;
            my = my + y;
            if went {
                count = count + 1;
            }
            sums.push((mx, my, count));
            k = k + 1;
        }
        sums
    }
}

} // verus!
