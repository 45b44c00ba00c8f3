//! The rows that cells are improved in, and the spans they cover.

use vstd::prelude::*;
use crate::arith::{dist, div_trunc, imax, imin, round_quot, trunc_quot};
use crate::grid::{is_nearest, nearest_ix};
use crate::improve::{is_filler, Kind, Node};
use crate::orient::Orient;
use crate::sort::{in_order, is_stable_order, sorted, stable_order, Natural, Ranked};
use crate::text::same_text;

verus! {

/// Coordinates stay within this distance of the core's corner, so that the sums that moving cells
/// takes are coordinates too.
pub const COORD_LIMIT: i32 = 0x0800_0000;

/// Whether a number is within the limit.
pub open spec fn small(v: int) -> bool {
    -COORD_LIMIT <= v <= COORD_LIMIT
}

// ── spans ────────────────────────────────────────────────────────────────────────────────────

/// A span of X coordinates, both ends included.
#[derive(Debug, Clone, Copy, PartialEq, Eq, Structural)]
pub struct Span {
    pub lo: i32,
    pub hi: i32,
}

impl Ranked for Span {
    open spec fn leq(self, other: Span) -> bool {
        self.lo < other.lo || self.lo == other.lo && self.hi <= other.hi
    }

    proof fn rank_laws() {
    }

    fn at_most(self, other: Span) -> (r: bool) {
        self.lo < other.lo || (self.lo == other.lo && self.hi <= other.hi)
    }
}

/// The spans in order.
pub open spec fn sorted_spans(v: Seq<Span>) -> Seq<Span> {
    choose|s: Seq<Span>| in_order(s) && s.to_multiset() == v.to_multiset()
}

/// The first `n` of some ordered spans, those that touch made one.
pub open spec fn fused(s: Seq<Span>, n: int) -> Seq<Span>
    decreases n,
{
    if n <= 0 {
        Seq::empty()
    } else if n == 1 {
        seq![s[0]]
    } else {
        let t = fused(s, n - 1);
        let top = t.last();
        let iv = s[n - 1];
        if top.hi < iv.lo {
            t.push(iv)
        } else if top.hi < iv.hi {
            t.update(t.len() - 1, Span { lo: top.lo, hi: iv.hi })
        } else {
            t
        }
    }
}

/// The spans in order, those that touch made one.
pub open spec fn union_of(v: Seq<Span>) -> Seq<Span> {
    fused(sorted_spans(v), sorted_spans(v).len() as int)
}

/// Whether a coordinate lies in one of some spans.
pub open spec fn covered(s: Seq<Span>, x: int) -> bool {
    exists|k: int| 0 <= k < s.len() && (#[trigger] s[k]).lo <= x <= s[k].hi
}

/// Spans that lie apart from left to right.
pub open spec fn apart(s: Seq<Span>) -> bool {
    forall|i: int, j: int| 0 <= i < j < s.len() ==> (#[trigger] s[i]).hi < (#[trigger] s[j]).lo
}

/// Spans whose ends are in order.
pub open spec fn proper(s: Seq<Span>) -> bool {
    forall|i: int| 0 <= i < s.len() ==> (#[trigger] s[i]).lo <= s[i].hi
}

proof fn lemma_fused(s: Seq<Span>, n: int)
    requires
        in_order(s),
        0 <= n <= s.len(),
    ensures
        n > 0 ==> fused(s, n).len() > 0,
        fused(s, n).len() <= n,
        n > 0 ==> fused(s, n).last().lo <= s[n - 1].lo,
        n > 0 ==> fused(s, n)[0].lo == s[0].lo,
        forall|k: int| 0 <= k < fused(s, n).len() ==> exists|a: int, b: int| 0 <= a < n && 0 <= b < n && (#[trigger] fused(s, n)[k]).lo == (#[trigger] s[a]).lo && fused(s, n)[k].hi == (#[trigger] s[b]).hi,
    decreases n,
{
    if n == 1 {
        assert(fused(s, n)[0].lo == s[0].lo && fused(s, n)[0].hi == s[0].hi);
    } else if n > 1 {
        lemma_fused(s, n - 1);
        let t = fused(s, n - 1);
        let f = fused(s, n);
        assert(s[n - 2].leq(s[n - 1]));
        assert forall|k: int| 0 <= k < f.len() implies exists|a: int, b: int| 0 <= a < n && 0 <= b < n && (#[trigger] f[k]).lo == (#[trigger] s[a]).lo && f[k].hi == (#[trigger] s[b]).hi by {
            if k < t.len() {
                let (a, b) = choose|a: int, b: int| 0 <= a < n - 1 && 0 <= b < n - 1 && (#[trigger] t[k]).lo == (#[trigger] s[a]).lo && t[k].hi == (#[trigger] s[b]).hi;
                if f[k] == t[k] {
                    assert(f[k].lo == s[a].lo && f[k].hi == s[b].hi);
                } else {
                    assert(f[k].lo == s[a].lo && f[k].hi == s[n - 1].hi);
                }
            } else {
                assert(f[k].lo == s[n - 1].lo && f[k].hi == s[n - 1].hi);
            }
        }
    }
}

proof fn lemma_fused_covers(s: Seq<Span>, n: int, x: int)
    requires
        in_order(s),
        proper(s),
        0 <= n <= s.len(),
    ensures
        apart(fused(s, n)),
        proper(fused(s, n)),
        covered(fused(s, n), x) <==> covered(s.subrange(0, n), x),
    decreases n,
{
    if n == 1 {
        assert(s.subrange(0, 1) =~= seq![s[0]]);
    } else if n > 1 {
        lemma_fused_covers(s, n - 1, x);
        lemma_fused(s, n - 1);
        let t = fused(s, n - 1);
        let f = fused(s, n);
        let a = s.subrange(0, n - 1);
        let b = s.subrange(0, n);
        let iv = s[n - 1];
        assert(s[n - 2].leq(iv));
        assert(b =~= a.push(iv));
        if covered(f, x) {
            let k = choose|k: int| 0 <= k < f.len() && (#[trigger] f[k]).lo <= x <= f[k].hi;
            if k < t.len() && t[k].lo <= x <= t[k].hi {
                assert(covered(t, x));
                let j = choose|j: int| 0 <= j < a.len() && (#[trigger] a[j]).lo <= x <= a[j].hi;
                assert(b[j].lo <= x <= b[j].hi);
            } else {
                assert(b[n - 1].lo <= x <= b[n - 1].hi);
            }
        }
        if covered(b, x) {
            let j = choose|j: int| 0 <= j < b.len() && (#[trigger] b[j]).lo <= x <= b[j].hi;
            if j < n - 1 {
                assert(a[j].lo <= x <= a[j].hi);
                assert(covered(t, x));
                let k = choose|k: int| 0 <= k < t.len() && (#[trigger] t[k]).lo <= x <= t[k].hi;
                assert(f[k].lo <= x <= f[k].hi);
            } else {
                let m = f.len() - 1;
                assert(f[m].lo <= x <= f[m].hi);
            }
        }
    } else {
        assert(s.subrange(0, 0) =~= Seq::empty());
    }
}

/// The union of some spans covers what they cover, with spans that lie apart.
pub proof fn law_union_covers_the_same(v: Seq<Span>, x: int)
    requires
        proper(v),
    ensures
        apart(union_of(v)),
        proper(union_of(v)),
        covered(union_of(v), x) <==> covered(v, x),
{
    lemma_sorted_spans(v);
    let s = sorted_spans(v);
    let p = |i: Span| i.lo <= i.hi;
    crate::sort::lemma_rearranged(v, s, p);
    assert forall|i: int| 0 <= i < s.len() implies (#[trigger] s[i]).lo <= s[i].hi by {
        assert(p(s[i]));
    }
    lemma_fused_covers(s, s.len() as int, x);
    assert(s.subrange(0, s.len() as int) =~= s);
    if covered(s, x) {
        let k = choose|k: int| 0 <= k < s.len() && (#[trigger] s[k]).lo <= x <= s[k].hi;
        s.to_multiset_ensures();
        v.to_multiset_ensures();
        assert(s.to_multiset().count(s[k]) > 0);
        assert(v.to_multiset().count(s[k]) > 0);
        assert(v.contains(s[k]));
    }
    if covered(v, x) {
        let k = choose|k: int| 0 <= k < v.len() && (#[trigger] v[k]).lo <= x <= v[k].hi;
        s.to_multiset_ensures();
        v.to_multiset_ensures();
        assert(v.to_multiset().count(v[k]) > 0);
        assert(s.to_multiset().count(v[k]) > 0);
        assert(s.contains(v[k]));
    }
}

/// Some spans can be put in order.
pub proof fn lemma_sorted_spans(v: Seq<Span>)
    ensures
        in_order(sorted_spans(v)),
        sorted_spans(v).to_multiset() == v.to_multiset(),
        sorted_spans(v).len() == v.len(),
{
    let leq = |a: Span, b: Span| a.leq(b);
    Span::rank_laws();
    let s = v.sort_by(leq);
    v.lemma_sort_by_ensures(leq);
    assert(in_order(s)) by {
        assert forall|i: int, j: int| 0 <= i < j < s.len() implies (#[trigger] s[i]).leq(#[trigger] s[j]) by {
            assert(leq(s[i], s[j]));
        }
    }
    s.to_multiset_ensures();
    v.to_multiset_ensures();
    let c = sorted_spans(v);
    c.to_multiset_ensures();
}

proof fn lemma_sorted_spans_unique(v: Seq<Span>, s: Seq<Span>)
    requires
        in_order(s),
        s.to_multiset() == v.to_multiset(),
    ensures
        sorted_spans(v) == s,
{
    let c = sorted_spans(v);
    crate::sort::lemma_ascending_unique(Natural, c, s);
}

/// The union of some spans: in order, those that touch made one.
pub fn fuse(v: &Vec<Span>) -> (r: Vec<Span>)
    ensures
        r@ == union_of(v@),
        v@.len() > 0 ==> r@.len() > 0,
{
    let s = sorted(v);
    proof {
        lemma_sorted_spans_unique(v@, s@);
    }
    let mut out: Vec<Span> = Vec::new();
    if s.len() == 0 {
        assert(out@ =~= union_of(v@));
        return out;
    }
    out.push(s[0]);
    let mut n: usize = 1;
    assert(out@ =~= fused(s@, 1));
    while n < s.len()
        invariant
            1 <= n <= s@.len(),
            in_order(s@),
            out@ == fused(s@, n as int),
            out@.len() > 0,
        decreases s@.len() - n,
    {
        let last: usize = out.len() - 1;
        let top: Span = out[last];
        let iv: Span = s[n];
        if top.hi < iv.lo {
            out.push(iv);
        } else if top.hi < iv.hi {
            out.set(last, Span { lo: top.lo, hi: iv.hi });
        }
        n = n + 1;
    }
    out
}

// ── rows ─────────────────────────────────────────────────────────────────────────────────────

/// A row of sites. `left` is where it starts; it ends `num_sites` site spacings further.
#[derive(Debug, Clone, Copy, PartialEq, Eq)]
pub struct Row {
    pub left: i32,
    pub num_sites: i32,
    pub site_spacing: i32,
    pub site_width: i32,
    /// Whether the site may be mirrored about Y.
    pub sym_y: bool,
    pub bottom: i32,
    pub height: i32,
    pub orient: Orient,
}

impl Row {
    /// Where the row ends.
    pub open spec fn end(self) -> int {
        self.left + self.num_sites * self.site_spacing
    }

    /// The row's numbers are within the limit, and its sites have a size.
    pub open spec fn ok(self) -> bool {
        &&& small(self.left as int)
        &&& small(self.end())
        &&& small(self.bottom as int)
        &&& small(self.bottom + self.height)
        &&& 0 < self.site_spacing <= COORD_LIMIT
        &&& 0 < self.site_width <= COORD_LIMIT
        &&& 0 < self.height <= COORD_LIMIT
    }

    /// Where the row ends.
    pub fn right(&self) -> (r: i32)
        requires
            self.ok(),
        ensures
            r == self.end(),
    {
        proof {
            assert(-2 * COORD_LIMIT <= self.num_sites * self.site_spacing <= 2 * COORD_LIMIT);
        }
        self.left + self.num_sites * self.site_spacing
    }

    /// Where the row's upper edge lies.
    pub fn top(&self) -> (r: i32)
        requires
            self.ok(),
        ensures
            r == self.bottom + self.height,
    {
        self.bottom + self.height
    }
}

/// The rows and the box around them.
#[derive(Debug)]
pub struct Arch {
    pub rows: Vec<Row>,
    pub min_x: i32,
    pub max_x: i32,
    pub min_y: i32,
    pub max_y: i32,
}

impl Default for Arch {
    /// No rows.
    fn default() -> (r: Arch)
        ensures
            r.rows@.len() == 0,
            r.min_x == 0,
            r.max_x == 0,
            r.min_y == 0,
            r.max_y == 0,
    {
        Arch { rows: Vec::new(), min_x: 0, max_x: 0, min_y: 0, max_y: 0 }
    }
}

/// The least left end of the first `n` rows.
pub open spec fn least_left(rows: Seq<Row>, n: int) -> int
    decreases n,
{
    if n <= 0 { i32::MAX as int } else { imin(least_left(rows, n - 1), rows[n - 1].left as int) }
}

/// The greatest right end of the first `n` rows.
pub open spec fn greatest_right(rows: Seq<Row>, n: int) -> int
    decreases n,
{
    if n <= 0 { i32::MIN as int } else { imax(greatest_right(rows, n - 1), rows[n - 1].end()) }
}

/// The least bottom of the first `n` rows.
pub open spec fn least_bottom(rows: Seq<Row>, n: int) -> int
    decreases n,
{
    if n <= 0 { i32::MAX as int } else { imin(least_bottom(rows, n - 1), rows[n - 1].bottom as int) }
}

/// The greatest top of the first `n` rows.
pub open spec fn greatest_top(rows: Seq<Row>, n: int) -> int
    decreases n,
{
    if n <= 0 { i32::MIN as int } else { imax(greatest_top(rows, n - 1), rows[n - 1].bottom + rows[n - 1].height) }
}

/// Every row's numbers are within the limit.
pub open spec fn rows_ok(rows: Seq<Row>) -> bool {
    forall|k: int| 0 <= k < rows.len() ==> (#[trigger] rows[k]).ok()
}

/// Rows from the bottom up, no two at one height.
pub open spec fn rising(rows: Seq<Row>) -> bool {
    forall|i: int, j: int| 0 <= i < j < rows.len() ==> (#[trigger] rows[i]).bottom < (#[trigger] rows[j]).bottom
}

/// The bottoms of some rows.
pub open spec fn bottoms(rows: Seq<Row>) -> Seq<i32> {
    Seq::new(rows.len(), |k: int| rows[k].bottom)
}

impl Arch {
    /// The box is that of the rows.
    pub open spec fn bounded(&self) -> bool {
        let n = self.rows@.len() as int;
        &&& self.min_x == least_left(self.rows@, n)
        &&& self.max_x == greatest_right(self.rows@, n)
        &&& self.min_y == least_bottom(self.rows@, n)
        &&& self.max_y == greatest_top(self.rows@, n)
    }

    /// There are rows, from the bottom up, and their numbers and those of the box are within the limit.
    pub open spec fn wf(&self) -> bool {
        &&& self.rows@.len() > 0
        &&& self.rows@.len() <= COORD_LIMIT
        &&& rows_ok(self.rows@)
        &&& rising(self.rows@)
        &&& small(self.min_x as int) && small(self.max_x as int) && small(self.min_y as int) && small(self.max_y as int)
    }

    /// Set the box to that of the rows.
    pub fn bound(&mut self)
        requires
            rows_ok(old(self).rows@),
        ensures
            final(self).rows == old(self).rows,
            final(self).bounded(),
    {
        let mut x0: i32 = i32::MAX;
        let mut x1: i32 = i32::MIN;
        let mut y0: i32 = i32::MAX;
        let mut y1: i32 = i32::MIN;
        let mut k: usize = 0;
        while k < self.rows.len()
            invariant
                rows_ok(self.rows@),
                k <= self.rows@.len(),
                x0 == least_left(self.rows@, k as int),
                x1 == greatest_right(self.rows@, k as int),
                y0 == least_bottom(self.rows@, k as int),
                y1 == greatest_top(self.rows@, k as int),
            decreases self.rows@.len() - k,
        {
            let r: Row = self.rows[k];
            let e: i32 = r.right();
            let t: i32 = r.top();
            if r.left < x0 {
                x0 = r.left;
            }
            if e > x1 {
                x1 = e;
            }
            if r.bottom < y0 {
                y0 = r.bottom;
            }
            if t > y1 {
                y1 = t;
            }
            k = k + 1;
        }
        self.min_x = x0;
        self.max_x = x1;
        self.min_y = y0;
        self.max_y = y1;
    }

    /// The row whose bottom is nearest to a Y, the lower one of two.
    pub open spec fn closest(&self, y: int) -> int {
        nearest_ix(bottoms(self.rows@), y)
    }

    /// The row whose bottom is nearest to `y`; of two equally near rows the lower one.
    pub fn find_closest_row(&self, y: i32) -> (r: usize)
        requires
            self.rows@.len() > 0,
            rising(self.rows@),
        ensures
            r < self.rows@.len(),
            is_nearest(bottoms(self.rows@), y as int, r as int),
            r == self.closest(y as int),
    {
        let n: usize = self.rows.len();
        let ghost b = bottoms(self.rows@);
        let mut lo: usize = 0;
        let mut hi: usize = n;
        // The number of rows below `y`.
        while lo < hi
            invariant
                n == self.rows@.len(),
                lo <= hi <= n,
                rising(self.rows@),
                forall|i: int| 0 <= i < lo ==> (#[trigger] self.rows@[i]).bottom < y,
                forall|i: int| hi <= i < n ==> (#[trigger] self.rows@[i]).bottom >= y,
            decreases hi - lo,
        {
            let mid: usize = lo + (hi - lo) / 2;
            if self.rows[mid].bottom < y {
                assert forall|i: int| 0 <= i < mid + 1 implies (#[trigger] self.rows@[i]).bottom < y by {
                    if i < mid {
                        assert(self.rows@[i].bottom < self.rows@[mid as int].bottom);
                    }
                }
                lo = mid + 1;
            } else {
                assert forall|i: int| mid <= i < n implies (#[trigger] self.rows@[i]).bottom >= y by {
                    if i > mid {
                        assert(self.rows@[mid as int].bottom < self.rows@[i].bottom);
                    }
                }
                hi = mid;
            }
        }
        let r: usize = if lo == 0 {
            0
        } else if lo == n {
            lo - 1
        } else {
            let above: i64 = self.rows[lo].bottom as i64 - y as i64;
            let below: i64 = y as i64 - self.rows[lo - 1].bottom as i64;
            if above < below { lo } else { lo - 1 }
        };
        proof {
            assert forall|j: int| 0 <= j < n implies dist(b[r as int] as int, y as int) <= dist(#[trigger] b[j] as int, y as int)
                && (j < r ==> dist(b[r as int] as int, y as int) < dist(b[j] as int, y as int)) by {
                if j < r {
                    assert(self.rows@[j].bottom < self.rows@[r as int].bottom);
                }
                if j > r {
                    assert(self.rows@[r as int].bottom < self.rows@[j].bottom);
                }
                if lo > 0 && j < lo - 1 {
                    assert(self.rows@[j].bottom < self.rows@[lo - 1].bottom);
                }
                if lo < n && j > lo {
                    assert(self.rows@[lo as int].bottom < self.rows@[j].bottom);
                }
                if lo > 0 {
                    assert(self.rows@[lo - 1].bottom < y);
                }
                if lo < n {
                    assert(self.rows@[lo as int].bottom >= y);
                }
            }
            assert(is_nearest(b, y as int, r as int));
            crate::grid::lemma_nearest_unique(b, y as int, r as int);
        }
        r
    }

    /// A height in rows of the first row's height, to the nearest number.
    pub open spec fn rows_high(&self, height: int) -> int {
        round_quot(height, self.rows@[0].height as int)
    }

    /// A cell's height in rows, to the nearest number.
    pub fn height_in_rows(&self, height: i32) -> (r: i32)
        requires
            self.rows@.len() > 0,
            self.rows@[0].height > 0,
            0 <= height <= COORD_LIMIT,
        ensures
            r == self.rows_high(height as int),
            0 <= r <= COORD_LIMIT + 1,
    {
        let h: i64 = self.rows[0].height as i64;
        let q: i64 = crate::arith::div_round(height as i64, h);
        proof {
            let (a, b) = (height as int, h as int);
            assert(0 <= (2 * a + b) / (2 * b) <= a + 1) by (nonlinear_arith)
                requires a >= 0, b >= 1;
        }
        q as i32
    }
}

// ── merging the rows ─────────────────────────────────────────────────────────────────────────

/// The first row from `e` on that does not lie at `bottom`.
pub open spec fn run_to(s: Seq<Row>, bottom: i32, e: int) -> int
    decreases s.len() - e,
{
    if e >= s.len() || s[e].bottom != bottom { e } else { run_to(s, bottom, e + 1) }
}

/// The end of the run of rows that lie as high as row `i`.
pub open spec fn level_end(s: Seq<Row>, i: int) -> int {
    run_to(s, s[i].bottom, i + 1)
}

/// The spans of some rows.
pub open spec fn spans_of(s: Seq<Row>, i: int, e: int) -> Seq<Span> {
    Seq::new((e - i) as nat, |k: int| Span { lo: s[i + k].left, hi: s[i + k].end() as i32 })
}

/// The row that the rows `i..e` at one height become.
pub open spec fn merged_row(s: Seq<Row>, i: int, e: int) -> Row {
    let u = union_of(spans_of(s, i, e));
    if e - i > 1 {
        Row { left: u[0].lo, num_sites: trunc_quot(u.last().hi - u[0].lo, s[i].site_spacing as int) as i32, ..s[i] }
    } else {
        s[i]
    }
}

/// The rows from `i` on, those at one height made one.
pub open spec fn merged_from(s: Seq<Row>, i: int) -> Seq<Row>
    decreases s.len() - i,
{
    if i < 0 || i >= s.len() {
        Seq::empty()
    } else {
        let e = level_end(s, i);
        if i < e <= s.len() { seq![merged_row(s, i, e)] + merged_from(s, e) } else { Seq::empty() }
    }
}

/// A gap in a row: its ends, its bottom and its height.
pub ghost struct RowGap {
    pub lo: int,
    pub hi: int,
    pub bottom: int,
    pub height: int,
}

/// The gaps between the first `n` spans.
pub open spec fn gaps_between(u: Seq<Span>, n: int) -> Seq<(int, int)>
    decreases n,
{
    if n <= 1 {
        Seq::empty()
    } else {
        let g = gaps_between(u, n - 1);
        if u[n - 1].lo > u[n - 2].hi { g.push((u[n - 2].hi as int, u[n - 1].lo as int)) } else { g }
    }
}

/// The gaps that some spans leave between `lo` and `hi`.
pub open spec fn gaps_of(u: Seq<Span>, lo: int, hi: int) -> Seq<(int, int)> {
    let a = if lo < u[0].lo { seq![(lo, u[0].lo as int)] } else { Seq::empty() };
    let b = a + gaps_between(u, u.len() as int);
    if hi > u.last().hi { b.push((u.last().hi as int, hi)) } else { b }
}

/// The gaps of a row, with its height.
pub open spec fn level_gaps(s: Seq<Row>, i: int, e: int, lo: int, hi: int) -> Seq<RowGap> {
    let g = gaps_of(union_of(spans_of(s, i, e)), lo, hi);
    Seq::new(g.len(), |k: int| RowGap { lo: g[k].0, hi: g[k].1, bottom: s[i].bottom as int, height: s[i].height as int })
}

/// The gaps of the rows from `i` on.
pub open spec fn gaps_from(s: Seq<Row>, i: int, lo: int, hi: int) -> Seq<RowGap>
    decreases s.len() - i,
{
    if i < 0 || i >= s.len() {
        Seq::empty()
    } else {
        let e = level_end(s, i);
        if i < e <= s.len() { level_gaps(s, i, e, lo, hi) + gaps_from(s, e, lo, hi) } else { Seq::empty() }
    }
}

/// `after` is `before` with a filler behind it for every gap.
pub open spec fn with_fillers(before: Seq<Node>, gaps: Seq<RowGap>, after: Seq<Node>) -> bool {
    &&& after.len() == before.len() + gaps.len()
    &&& forall|k: int| 0 <= k < before.len() ==> #[trigger] after[k] == before[k]
    &&& forall|k: int| 0 <= k < gaps.len() ==>
        is_filler(#[trigger] after[before.len() + k], before.len() + k, gaps[k].lo, gaps[k].hi, gaps[k].bottom, gaps[k].height)
}

/// The bottoms of some rows, to sort them by.
pub open spec fn bottom_keys(rows: Seq<Row>) -> Seq<i64> {
    Seq::new(rows.len(), |k: int| rows[k].bottom as i64)
}

/// The rows in the order of their bottoms, equal ones in their order.
pub open spec fn is_by_bottom(rows: Seq<Row>, s: Seq<Row>) -> bool {
    exists|order: Seq<usize>| #[trigger] is_stable_order(bottom_keys(rows), order)
        && s == Seq::new(order.len(), |k: int| rows[order[k] as int])
}

proof fn lemma_run_to(s: Seq<Row>, bottom: i32, e: int)
    requires
        0 <= e <= s.len(),
    ensures
        e <= run_to(s, bottom, e) <= s.len(),
        forall|k: int| e <= k < run_to(s, bottom, e) ==> (#[trigger] s[k]).bottom == bottom,
        run_to(s, bottom, e) < s.len() ==> s[run_to(s, bottom, e)].bottom != bottom,
    decreases s.len() - e,
{
    if e < s.len() && s[e].bottom == bottom {
        lemma_run_to(s, bottom, e + 1);
    }
}

proof fn lemma_union_small(s: Seq<Row>, i: int, e: int)
    requires
        rows_ok(s),
        0 <= i < e <= s.len(),
    ensures
        union_of(spans_of(s, i, e)).len() > 0,
        forall|k: int| 0 <= k < union_of(spans_of(s, i, e)).len() ==>
            small((#[trigger] union_of(spans_of(s, i, e))[k]).lo as int) && small(union_of(spans_of(s, i, e))[k].hi as int),
{
    let v = spans_of(s, i, e);
    lemma_sorted_spans(v);
    let t = sorted_spans(v);
    let p = |x: Span| small(x.lo as int) && small(x.hi as int);
    assert forall|k: int| 0 <= k < v.len() implies p(#[trigger] v[k]) by {
        assert(s[i + k].ok());
    }
    crate::sort::lemma_rearranged(v, t, p);
    lemma_fused(t, t.len() as int);
    let u = union_of(v);
    assert forall|k: int| 0 <= k < u.len() implies small((#[trigger] u[k]).lo as int) && small(u[k].hi as int) by {
        let (a, b) = choose|a: int, b: int| 0 <= a < t.len() && 0 <= b < t.len() && (#[trigger] u[k]).lo == (#[trigger] t[a]).lo && u[k].hi == (#[trigger] t[b]).hi;
        assert(p(t[a]) && p(t[b]));
    }
}

proof fn lemma_merged_row_ok(s: Seq<Row>, i: int, e: int)
    requires
        rows_ok(s),
        0 <= i < e <= s.len(),
    ensures
        merged_row(s, i, e).ok(),
        merged_row(s, i, e).bottom == s[i].bottom,
        e - i > 1 ==> ({
            let u = union_of(spans_of(s, i, e));
            -0x7fff_ffff <= trunc_quot(u.last().hi - u[0].lo, s[i].site_spacing as int) <= 0x7fff_ffff
        }),
{
    lemma_union_small(s, i, e);
    assert(s[i].ok());
    let u = union_of(spans_of(s, i, e));
    let d = u.last().hi - u[0].lo;
    let sp = s[i].site_spacing as int;
    let q = trunc_quot(d, sp);
    assert(u[u.len() - 1] == u.last());
    if d >= 0 {
        crate::arith::lemma_quot_bound(d, sp);
    } else {
        crate::arith::lemma_quot_bound(-d, sp);
    }
    if e - i > 1 {
        let r = merged_row(s, i, e);
        assert(r.num_sites * r.site_spacing == q * sp);
        if d >= 0 {
            assert(0 <= q * sp <= d);
        } else {
            assert(q == -((-d) / sp));
            assert(q * sp == -(((-d) / sp) * sp)) by (nonlinear_arith)
                requires q == -((-d) / sp);
            assert(d <= q * sp <= 0);
        }
    }
}

/// A filler node for each gap that some spans leave.
fn fill_gaps(u: &Vec<Span>, lo: i32, hi: i32, bottom: i32, height: i32, nodes: &mut Vec<Node>)
    requires
        u@.len() > 0,
        small(lo as int),
        small(hi as int),
        forall|k: int| 0 <= k < u@.len() ==> small((#[trigger] u@[k]).lo as int) && small(u@[k].hi as int),
    ensures
        ({
            let g = gaps_of(u@, lo as int, hi as int);
            with_fillers(old(nodes)@, Seq::new(g.len(), |k: int| RowGap { lo: g[k].0, hi: g[k].1, bottom: bottom as int, height: height as int }), final(nodes)@)
        }),
{
    let ghost n0 = nodes@;
    let ghost mut g: Seq<(int, int)> = Seq::empty();
    if lo < u[0].lo {
        push_filler(nodes, lo, u[0].lo, bottom, height);
        proof {
            g = g.push((lo as int, u@[0].lo as int));
        }
    }
    let ghost a = g;
    assert(a =~= (if lo < u@[0].lo { seq![(lo as int, u@[0].lo as int)] } else { Seq::empty() }));
    let mut n: usize = 1;
    assert(a + gaps_between(u@, 1) =~= a);
    while n < u.len()
        invariant
            1 <= n <= u@.len(),
            forall|k: int| 0 <= k < u@.len() ==> small((#[trigger] u@[k]).lo as int) && small(u@[k].hi as int),
            g == a + gaps_between(u@, n as int),
            nodes@.len() == n0.len() + g.len(),
            forall|k: int| 0 <= k < n0.len() ==> #[trigger] nodes@[k] == n0[k],
            forall|k: int| 0 <= k < g.len() ==>
                is_filler(#[trigger] nodes@[n0.len() + k], n0.len() + k, g[k].0, g[k].1, bottom as int, height as int),
        decreases u@.len() - n,
    {
        if u[n].lo > u[n - 1].hi {
            push_filler(nodes, u[n - 1].hi, u[n].lo, bottom, height);
            proof {
                let e = (u@[n - 1].hi as int, u@[n as int].lo as int);
                assert(a + gaps_between(u@, n + 1) =~= g.push(e));
                g = g.push(e);
            }
        }
        n = n + 1;
    }
    let last: Span = u[u.len() - 1];
    if hi > last.hi {
        push_filler(nodes, last.hi, hi, bottom, height);
        proof {
            g = g.push((last.hi as int, hi as int));
        }
    }
    proof {
        assert(g =~= gaps_of(u@, lo as int, hi as int));
        let t = Seq::new(g.len(), |k: int| RowGap { lo: g[k].0, hi: g[k].1, bottom: bottom as int, height: height as int });
        assert forall|k: int| 0 <= k < t.len() implies
            is_filler(#[trigger] nodes@[n0.len() + k], n0.len() + k, t[k].lo, t[k].hi, t[k].bottom, t[k].height) by {
            assert(is_filler(nodes@[n0.len() + k], n0.len() + k, g[k].0, g[k].1, bottom as int, height as int));
        }
    }
}

fn push_filler(nodes: &mut Vec<Node>, lo: i32, hi: i32, bottom: i32, height: i32)
    requires
        small(lo as int),
        small(hi as int),
    ensures
        final(nodes)@.len() == old(nodes)@.len() + 1,
        forall|k: int| 0 <= k < old(nodes)@.len() ==> #[trigger] final(nodes)@[k] == old(nodes)@[k],
        is_filler(final(nodes)@[old(nodes)@.len() as int], old(nodes)@.len() as int, lo as int, hi as int, bottom as int, height as int),
{
    let id: usize = nodes.len();
    let none = String::new();
    assert(none@ =~= Seq::<char>::empty());
    nodes.push(Node {
        id,
        kind: Kind::Filler,
        name: "-".to_owned(),
        master: none,
        left: lo,
        bottom,
        width: hi - lo,
        height,
        fixed: true,
        group: -1,
        orient: Orient::R0,
        placed: true,
    });
}

proof fn lemma_fillers_join(a: Seq<Node>, g: Seq<RowGap>, b: Seq<Node>, h: Seq<RowGap>, c: Seq<Node>)
    requires
        with_fillers(a, g, b),
        with_fillers(b, h, c),
    ensures
        with_fillers(a, g + h, c),
{
    let t = g + h;
    assert forall|k: int| 0 <= k < t.len() implies
        is_filler(#[trigger] c[a.len() + k], a.len() + k, t[k].lo, t[k].hi, t[k].bottom, t[k].height) by {
        if k < g.len() {
            assert(c[a.len() + k] == b[a.len() + k]);
        } else {
            let j = k - g.len();
            assert(c[b.len() + j] == c[a.len() + k]);
        }
    }
}

proof fn lemma_bounds(rows: Seq<Row>, n: int)
    requires
        rows_ok(rows),
        0 < n <= rows.len(),
    ensures
        small(least_left(rows, n)),
        small(greatest_right(rows, n)),
        small(least_bottom(rows, n)),
        small(greatest_top(rows, n)),
    decreases n,
{
    assert(rows[n - 1].ok());
    if n > 1 {
        lemma_bounds(rows, n - 1);
    } else {
        assert(least_left(rows, 0) == i32::MAX && greatest_right(rows, 0) == i32::MIN);
        assert(least_bottom(rows, 0) == i32::MAX && greatest_top(rows, 0) == i32::MIN);
    }
}

/// The rows that lie as high as row `r`: where they end, the row they become and the union of their
/// spans.
fn merge_level(rows: &Vec<Row>, r: usize) -> (out: (usize, Row, Vec<Span>))
    requires
        rows_ok(rows@),
        r < rows@.len(),
    ensures
        out.0 == level_end(rows@, r as int),
        r < out.0 <= rows@.len(),
        out.1 == merged_row(rows@, r as int, out.0 as int),
        out.1.ok(),
        out.1.bottom == rows@[r as int].bottom,
        out.2@ == union_of(spans_of(rows@, r as int, out.0 as int)),
        out.2@.len() > 0,
        forall|k: int| 0 <= k < out.2@.len() ==> small((#[trigger] out.2@[k]).lo as int) && small(out.2@[k].hi as int),
        out.0 < rows@.len() ==> rows@[out.0 as int].bottom != rows@[r as int].bottom,
{
    let first: Row = rows[r];
    let all: usize = rows.len();
    let mut e: usize = r + 1;
    let mut spans: Vec<Span> = Vec::new();
    assert(rows@[r as int].ok());
    spans.push(Span { lo: first.left, hi: first.right() });
    assert(spans@ =~= spans_of(rows@, r as int, e as int));
    while e < all && rows[e].bottom == first.bottom
        invariant
            all == rows@.len(),
            rows_ok(rows@),
            r < e <= rows@.len(),
            first == rows@[r as int],
            spans@ == spans_of(rows@, r as int, e as int),
            run_to(rows@, first.bottom, e as int) == level_end(rows@, r as int),
        decreases rows@.len() - e,
    {
        assert(rows@[e as int].ok());
        spans.push(Span { lo: rows[e].left, hi: rows[e].right() });
        e = e + 1;
        assert(spans@ =~= spans_of(rows@, r as int, e as int));
    }
    let u = fuse(&spans);
    proof {
        assert(level_end(rows@, r as int) == e);
        lemma_run_to(rows@, first.bottom, r + 1);
        lemma_union_small(rows@, r as int, e as int);
        lemma_merged_row_ok(rows@, r as int, e as int);
    }
    let mut row: Row = first;
    if e - r > 1 {
        let (lx, rx) = (u[0].lo, u[u.len() - 1].hi);
        row.num_sites = div_trunc(rx as i64 - lx as i64, first.site_spacing as i64) as i32;
        row.left = lx;
    }
    (e, row, u)
}

/// Put the rows in order, make one of those at one height, and add a filler node for every gap
/// between the box around the rows and the rows.
pub fn post_process(arch: &mut Arch, nodes: &mut Vec<Node>)
    requires
        rows_ok(old(arch).rows@),
    ensures
        exists|s: Seq<Row>| {
            &&& #[trigger] is_by_bottom(old(arch).rows@, s)
            &&& final(arch).rows@ == merged_from(s, 0)
            &&& with_fillers(old(nodes)@, gaps_from(s, 0, final(arch).min_x as int, final(arch).max_x as int), final(nodes)@)
            &&& final(arch).min_x == least_left(s, s.len() as int)
            &&& final(arch).max_x == greatest_right(s, s.len() as int)
            &&& final(arch).min_y == least_bottom(s, s.len() as int)
            &&& final(arch).max_y == greatest_top(s, s.len() as int)
        },
        rows_ok(final(arch).rows@),
        rising(final(arch).rows@),
        final(arch).rows@.len() <= old(arch).rows@.len(),
        old(arch).rows@.len() > 0 ==> final(arch).rows@.len() > 0 && small(final(arch).min_x as int) && small(final(arch).max_x as int)
            && small(final(arch).min_y as int) && small(final(arch).max_y as int),
{
    let ghost r0 = arch.rows@;
    let mut keys: Vec<i64> = Vec::new();
    let mut k: usize = 0;
    while k < arch.rows.len()
        invariant
            k <= arch.rows@.len(),
            keys@.len() == k,
            forall|j: int| 0 <= j < k ==> #[trigger] keys@[j] == arch.rows@[j].bottom as i64,
        decreases arch.rows@.len() - k,
    {
        keys.push(arch.rows[k].bottom as i64);
        k = k + 1;
    }
    let order = stable_order(&keys);
    let mut s: Vec<Row> = Vec::new();
    let mut i: usize = 0;
    while i < order.len()
        invariant
            is_stable_order(keys@, order@),
            keys@.len() == arch.rows@.len(),
            i <= order@.len(),
            rows_ok(arch.rows@),
            rows_ok(s@),
            s@ == Seq::new(i as nat, |k: int| arch.rows@[order@[k] as int]),
        decreases order@.len() - i,
    {
        let at: usize = order[i];
        let r: Row = arch.rows[at];
        assert(arch.rows@[at as int].ok());
        s.push(r);
        i = i + 1;
        assert(s@ =~= Seq::new(i as nat, |k: int| arch.rows@[order@[k] as int]));
    }
    proof {
        assert(keys@ =~= bottom_keys(r0));
        assert(s@ =~= Seq::new(order@.len(), |k: int| r0[order@[k] as int]));
        assert(is_by_bottom(r0, s@));
        assert forall|a: int, b: int| 0 <= a < b < s@.len() implies (#[trigger] s@[a]).bottom <= (#[trigger] s@[b]).bottom by {
            assert(keys@[order@[a] as int] <= keys@[order@[b] as int]);
        }
        if s@.len() > 0 {
            lemma_bounds(s@, s@.len() as int);
        }
    }
    let ghost sv = s@;
    arch.rows = s;
    arch.bound();
    let lo: i32 = arch.min_x;
    let hi: i32 = arch.max_x;
    let mut merged: Vec<Row> = Vec::new();
    let mut r: usize = 0;
    let ghost n0 = nodes@;
    let ghost mut done: Seq<RowGap> = Seq::empty();
    assert(merged@ + merged_from(sv, 0) =~= merged_from(sv, 0));
    assert(done + gaps_from(sv, 0, lo as int, hi as int) =~= gaps_from(sv, 0, lo as int, hi as int));
    while r < arch.rows.len()
        invariant
            arch.rows@ == sv,
            rows_ok(sv),
            sv.len() > 0 ==> small(lo as int) && small(hi as int),
            forall|a: int, b: int| 0 <= a < b < sv.len() ==> (#[trigger] sv[a]).bottom <= (#[trigger] sv[b]).bottom,
            r <= sv.len(),
            arch.min_x == lo,
            arch.max_x == hi,
            arch.bounded(),
            merged@ + merged_from(sv, r as int) == merged_from(sv, 0),
            done + gaps_from(sv, r as int, lo as int, hi as int) == gaps_from(sv, 0, lo as int, hi as int),
            with_fillers(n0, done, nodes@),
            rows_ok(merged@),
            rising(merged@),
            merged@.len() <= r,
            r > 0 ==> merged@.len() > 0,
            forall|a: int| 0 <= a < merged@.len() && r < sv.len() ==> (#[trigger] merged@[a]).bottom < sv[r as int].bottom,
        decreases sv.len() - r,
    {
        let first: Row = arch.rows[r];
        let (e, row, u) = merge_level(&arch.rows, r);
        let ghost before = nodes@;
        fill_gaps(&u, lo, hi, first.bottom, first.height, nodes);
        proof {
            let g = level_gaps(sv, r as int, e as int, lo as int, hi as int);
            lemma_fillers_join(n0, done, before, g, nodes@);
            assert((done + g) + gaps_from(sv, e as int, lo as int, hi as int) =~= done + (g + gaps_from(sv, e as int, lo as int, hi as int)));
            done = done + g;
        }
        let ghost m0 = merged@;
        merged.push(row);
        proof {
            assert(merged@ + merged_from(sv, e as int) =~= m0 + (seq![row] + merged_from(sv, e as int)));
            assert forall|a: int| 0 <= a < merged@.len() && e < sv.len() implies (#[trigger] merged@[a]).bottom < sv[e as int].bottom by {
                assert(sv[r as int].bottom <= sv[e as int].bottom);
            }
        }
        r = e;
    }
    assert(merged@ + merged_from(sv, r as int) =~= merged@);
    assert(done + gaps_from(sv, r as int, lo as int, hi as int) =~= done);
    arch.rows = merged;
}

// ── from a design ────────────────────────────────────────────────────────────────────────────

/// A row of the design, absolute.
#[derive(Debug)]
pub struct ArchRow {
    pub site_class: String,
    pub direction: String,
    pub x: i32,
    pub y: i32,
    pub spacing: i32,
    pub site_count: i32,
    pub site_width: i32,
    pub site_height: i32,
    pub sym_y: bool,
    pub orient: Orient,
}

/// The least site height of the first `n` rows.
pub open spec fn least_height(v: Seq<ArchRow>, n: int) -> int
    decreases n,
{
    if n <= 0 { i32::MAX as int } else { imin(least_height(v, n - 1), v[n - 1].site_height as int) }
}

/// Whether cells are improved in a row: a horizontal row of core sites, of the least height.
pub open spec fn takes_part(v: Seq<ArchRow>, r: ArchRow) -> bool {
    r.site_class@ != "PAD"@ && r.direction@ == "HORIZONTAL"@ && r.site_height <= least_height(v, v.len() as int)
}

/// A row of the design made relative to a corner.
pub open spec fn row_of(r: ArchRow, x0: int, y0: int) -> Row {
    Row {
        left: (r.x - x0) as i32,
        num_sites: r.site_count,
        site_spacing: r.spacing,
        site_width: r.site_width,
        sym_y: r.sym_y,
        bottom: (r.y - y0) as i32,
        height: r.site_height,
        orient: r.orient,
    }
}

/// The rows that take part among the first `n`.
pub open spec fn rows_taken(v: Seq<ArchRow>, x0: int, y0: int, n: int) -> Seq<Row>
    decreases n,
{
    if n <= 0 {
        Seq::empty()
    } else {
        let s = rows_taken(v, x0, y0, n - 1);
        if takes_part(v, v[n - 1]) { s.push(row_of(v[n - 1], x0, y0)) } else { s }
    }
}

/// A row whose last site ends past the box, cut to the sites that end in it.
pub open spec fn cut(r: Row, hi: int) -> Row {
    let gap = r.site_width - r.site_spacing;
    if r.end() + gap > hi { Row { num_sites: trunc_quot(hi - gap - r.left, r.site_spacing as int) as i32, ..r } } else { r }
}

/// The rows cut to the box around them.
pub open spec fn cut_rows(rows: Seq<Row>) -> Seq<Row> {
    Seq::new(rows.len(), |k: int| cut(rows[k], greatest_right(rows, rows.len() as int)))
}

/// The rows of a design are within the limit.
pub open spec fn design_ok(v: Seq<ArchRow>, x0: int, y0: int) -> bool {
    forall|k: int| 0 <= k < v.len() ==> small((#[trigger] v[k]).x - x0) && small(v[k].y - y0) && row_of(v[k], x0, y0).ok()
        && small(row_of(v[k], x0, y0).end() - (v[k].site_width - v[k].spacing))
}

proof fn lemma_right_bound(rows: Seq<Row>, n: int, k: int)
    requires
        0 <= k < n <= rows.len(),
    ensures
        rows[k].end() <= greatest_right(rows, n),
    decreases n,
{
    if k < n - 1 {
        lemma_right_bound(rows, n - 1, k);
    }
}

proof fn lemma_cut_ok(r: Row, hi: int)
    requires
        r.ok(),
        small(r.end() - (r.site_width - r.site_spacing)),
        small(hi),
        r.end() <= hi,
    ensures
        cut(r, hi).ok(),
        -0x7fff_ffff <= trunc_quot(hi - (r.site_width - r.site_spacing) - r.left, r.site_spacing as int) <= 0x7fff_ffff,
{
    let gap = r.site_width - r.site_spacing;
    let d = hi - gap - r.left;
    let sp = r.site_spacing as int;
    let q = trunc_quot(d, sp);
    if d >= 0 {
        crate::arith::lemma_quot_bound(d, sp);
    } else {
        crate::arith::lemma_quot_bound(-d, sp);
        assert(q * sp == -(((-d) / sp) * sp)) by (nonlinear_arith)
            requires q == -((-d) / sp);
    }
    if r.end() + gap > hi {
        let c = cut(r, hi);
        assert(c.num_sites == q);
        assert(c.end() == r.left + q * sp);
        assert(gap > 0);
        if d >= 0 {
            assert(0 <= q * sp <= d);
        } else {
            assert(d <= q * sp <= 0);
            assert(hi - gap >= r.end() - gap);
        }
    }
}

/// The rows that cells are improved in: the design's rows made relative to the core's corner, cut to
/// the box around them, in order and merged. A filler node is added for every gap.
pub fn create_architecture(v: &Vec<ArchRow>, x0: i32, y0: i32, nodes: &mut Vec<Node>) -> (arch: Arch)
    requires
        design_ok(v@, x0 as int, y0 as int),
    ensures
        exists|s: Seq<Row>| {
            &&& #[trigger] is_by_bottom(cut_rows(rows_taken(v@, x0 as int, y0 as int, v@.len() as int)), s)
            &&& arch.rows@ == merged_from(s, 0)
            &&& with_fillers(old(nodes)@, gaps_from(s, 0, arch.min_x as int, arch.max_x as int), final(nodes)@)
            &&& arch.min_x == least_left(s, s.len() as int)
            &&& arch.max_x == greatest_right(s, s.len() as int)
            &&& arch.min_y == least_bottom(s, s.len() as int)
            &&& arch.max_y == greatest_top(s, s.len() as int)
        },
        v@.len() <= COORD_LIMIT && rows_taken(v@, x0 as int, y0 as int, v@.len() as int).len() > 0 ==> arch.wf(),
        rows_taken(v@, x0 as int, y0 as int, v@.len() as int).len() == 0 ==> arch.rows@.len() == 0,
{
    let ghost n = v@.len() as int;
    let mut least: i32 = i32::MAX;
    let mut k: usize = 0;
    while k < v.len()
        invariant
            k <= v@.len(),
            least == least_height(v@, k as int),
        decreases v@.len() - k,
    {
        if v[k].site_height < least {
            least = v[k].site_height;
        }
        k = k + 1;
    }
    let mut rows: Vec<Row> = Vec::new();
    let mut i: usize = 0;
    while i < v.len()
        invariant
            i <= v@.len(),
            least == least_height(v@, v@.len() as int),
            design_ok(v@, x0 as int, y0 as int),
            rows@ == rows_taken(v@, x0 as int, y0 as int, i as int),
            rows@.len() <= i,
            rows_ok(rows@),
            forall|j: int| 0 <= j < rows@.len() ==> small((#[trigger] rows@[j]).end() - (rows@[j].site_width - rows@[j].site_spacing)),
        decreases v@.len() - i,
    {
        let r = &v[i];
        assert(small(v@[i as int].x - x0));
        if !same_text(r.site_class.as_str(), "PAD") && same_text(r.direction.as_str(), "HORIZONTAL") && r.site_height <= least {
            rows.push(Row {
                left: r.x - x0,
                num_sites: r.site_count,
                site_spacing: r.spacing,
                site_width: r.site_width,
                sym_y: r.sym_y,
                bottom: r.y - y0,
                height: r.site_height,
                orient: r.orient,
            });
        }
        i = i + 1;
    }
    let ghost taken = rows@;
    let mut arch = Arch { rows, min_x: 0, max_x: 0, min_y: 0, max_y: 0 };
    arch.bound();
    let hi: i32 = arch.max_x;
    proof {
        if taken.len() > 0 {
            lemma_bounds(taken, taken.len() as int);
        }
    }
    let mut cuts: Vec<Row> = Vec::new();
    let mut c: usize = 0;
    while c < arch.rows.len()
        invariant
            arch.rows@ == taken,
            rows_ok(taken),
            forall|j: int| 0 <= j < taken.len() ==> small((#[trigger] taken[j]).end() - (taken[j].site_width - taken[j].site_spacing)),
            hi == greatest_right(taken, taken.len() as int),
            taken.len() > 0 ==> small(hi as int),
            c <= taken.len(),
            cuts@ == cut_rows(taken).subrange(0, c as int),
            rows_ok(cuts@),
        decreases taken.len() - c,
    {
        let mut r: Row = arch.rows[c];
        let gap: i32 = r.site_width - r.site_spacing;
        proof {
            assert(taken[c as int].ok());
            lemma_right_bound(taken, taken.len() as int, c as int);
            lemma_cut_ok(taken[c as int], hi as int);
        }
        if r.right() as i64 + gap as i64 > hi as i64 {
            r.num_sites = div_trunc(hi as i64 - gap as i64 - r.left as i64, r.site_spacing as i64) as i32;
        }
        cuts.push(r);
        c = c + 1;
        assert(cuts@ =~= cut_rows(taken).subrange(0, c as int));
    }
    assert(cuts@ =~= cut_rows(taken));
    arch.rows = cuts;
    post_process(&mut arch, nodes);
    arch
}

} // verus!
