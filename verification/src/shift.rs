//! Overlap removed from the segments: the cells of all segments are clumped between the segments'
//! ends.

use vstd::prelude::*;
use crate::arith::{imax, imin};
use crate::clumps::{breach, law_without_overlap_nothing_moves, lemma_below_count, remove_overlaps, settled_upto, singles, within, worst, worst_in, worst_of, Clumps, Items};
use crate::land::{all_below, node_in, pad_in, reachable, seg_end, span_fits, Land, Live, St};
use crate::moves::placed;
use crate::rows::COORD_LIMIT;

verus! {

/// How much heavier the end of a segment is than a cell, so that it hardly moves.
pub const END_WEIGHT: i64 = 100_000_000;

impl Land {
    /// A segment's left end, its cells and its right end, as items: the ends come behind the nodes.
    pub open spec fn row_items(&self, s: St, i: int) -> Seq<usize> {
        let (n, m) = (self.count(), self.segments@.len() as int);
        seq![(n + i) as usize] + s.cells[i] + seq![(n + m + i) as usize]
    }

    /// The items before `u` among the first `k` steps along a segment's items.
    pub open spec fn left_along(&self, items: Seq<usize>, u: usize, k: int) -> Seq<usize>
        decreases k,
    {
        if k <= 0 {
            Seq::empty()
        } else {
            let v = self.left_along(items, u, k - 1);
            if items[k] == u { v.push(items[k - 1]) } else { v }
        }
    }

    /// The left neighbours of an item in the first `i` segments.
    pub open spec fn left_items(&self, s: St, u: usize, i: int) -> Seq<usize>
        decreases i,
    {
        if i <= 0 {
            Seq::empty()
        } else {
            let r = self.row_items(s, i - 1);
            self.left_items(s, u, i - 1) + self.left_along(r, u, r.len() - 1)
        }
    }

    /// `it` are the cells and the ends of the segments.
    pub open spec fn are_items(&self, s: St, it: Items) -> bool {
        let (n, m) = (self.count(), self.segments@.len() as int);
        &&& it.x@.len() == n + 2 * m && it.width@.len() == n + 2 * m && it.weight@.len() == n + 2 * m && it.left@.len() == n + 2 * m
        &&& forall|u: int| 0 <= u < n ==> #[trigger] it.x@[u] == s.nodes[u].left && it.width@[u] == s.nodes[u].width && it.weight@[u] == 1
        &&& forall|u: int| n <= u < n + m ==> #[trigger] it.x@[u] == self.segments@[u - n].min_x && it.width@[u] == 0 && it.weight@[u] == END_WEIGHT
        &&& forall|u: int| n + m <= u < n + 2 * m ==> #[trigger] it.x@[u] == self.segments@[u - n - m].max_x && it.width@[u] == 0 && it.weight@[u] == END_WEIGHT
        &&& forall|u: int| 0 <= u < n + 2 * m ==> (#[trigger] it.left@[u])@ == self.left_items(s, u as usize, m)
    }

    /// A node's left edge kept between the ends of its first `k` segments, one after the other.
    pub open spec fn kept_in(&self, s: St, nd: int, k: int) -> int
        decreases k,
    {
        if k <= 0 {
            s.nodes[nd].left as int
        } else {
            let g = self.segments@[s.homes[nd][k - 1] as int];
            imin(imax(self.kept_in(s, nd, k - 1), g.min_x as int), g.max_x - s.nodes[nd].width)
        }
    }

    /// The items in the order in which they are settled: the left ends, the cells, the right ends.
    pub open spec fn heads_of(&self, cells: Seq<usize>) -> Seq<usize> {
        let (n, m, c) = (self.count(), self.segments@.len() as int, cells.len() as int);
        Seq::new((2 * m + c) as nat, |k: int| if k < m { (n + k) as usize } else if k < m + c { cells[k - m] } else { (n + k - c) as usize })
    }

    /// Where the items start.
    pub open spec fn starts_of(&self, s: St, cells: Seq<usize>) -> Seq<i64> {
        let (m, c) = (self.segments@.len() as int, cells.len() as int);
        Seq::new((2 * m + c) as nat, |k: int| if k < m {
            self.segments@[k].min_x as i64
        } else if k < m + c {
            self.kept_in(s, cells[k - m] as int, s.homes[cells[k - m] as int].len() as int) as i64
        } else {
            self.segments@[k - m - c].max_x as i64
        })
    }

    /// The lowest row of a node's first `k` segments.
    pub open spec fn low_row(&self, s: St, nd: int, k: int) -> int
        decreases k,
    {
        let r = self.segments@[s.homes[nd][k - 1] as int].row as int;
        if k <= 1 { r } else { imin(self.low_row(s, nd, k - 1), r) }
    }

    /// Where the clumps put a cell.
    pub open spec fn put_at(&self, c: Clumps, nd: usize) -> int {
        c.posn[c.clump[nd as int]->Some_0 as int] + c.off[nd as int]
    }

    /// The state after the first `k` cells went where the clumps put them.
    pub open spec fn released(&self, s: St, cells: Seq<usize>, c: Clumps, k: int) -> St
        decreases k,
    {
        if k <= 0 {
            s
        } else {
            let t = self.released(s, cells, c, k - 1);
            let nd = cells[k - 1];
            let row = self.low_row(s, nd as int, s.homes[nd as int].len() as int);
            placed(t, nd, self.put_at(c, nd) as i32, self.arch.rows@[row].bottom)
        }
    }

    /// The clumps of the items of some cells.
    pub open spec fn clumped(&self, s: St, cells: Seq<usize>, it: Items) -> Clumps {
        settled_upto(it, singles(it, self.heads_of(cells), self.starts_of(s, cells)), 2 * (self.segments@.len() as int) + cells.len() as int)
    }

    /// All cells come to lie between coordinates.
    pub open spec fn all_fit(&self, s: St, cells: Seq<usize>, c: Clumps) -> bool {
        forall|k: int| 0 <= k < cells.len() ==> self.fits_at(s, c, #[trigger] cells[k])
    }

    /// A cell comes to lie between coordinates.
    pub open spec fn fits_at(&self, s: St, c: Clumps, nd: usize) -> bool {
        span_fits(self.put_at(c, nd), s.nodes[nd as int].width as int, s.pad_sites[nd as int])
    }

    /// `t` is the state `s` with the overlaps of some cells removed.
    pub open spec fn is_shifted(&self, s: St, cells: Seq<usize>, t: St) -> bool {
        exists|it: Items| #[trigger] self.are_items(s, it) && self.all_fit(s, cells, self.clumped(s, cells, it))
            && t == self.released(s, cells, self.clumped(s, cells, it), cells.len() as int)
    }

    /// Removing the overlaps of some cells puts one of them further out than coordinates go.
    pub open spec fn overrun(&self, s: St, cells: Seq<usize>) -> bool {
        exists|it: Items| #[trigger] self.are_items(s, it) && !self.all_fit(s, cells, self.clumped(s, cells, it))
    }

    /// Where an item starts.
    pub open spec fn item_x(&self, s: St, u: usize) -> int {
        let (n, m) = (self.count(), self.segments@.len() as int);
        if u < n {
            s.nodes[u as int].left as int
        } else if u < n + m {
            self.segments@[u - n].min_x as int
        } else {
            self.segments@[u - n - m].max_x as int
        }
    }

    /// How wide an item is: the ends of segments have no width.
    pub open spec fn item_width(&self, s: St, u: usize) -> int {
        if u < self.count() { s.nodes[u as int].width as int } else { 0 }
    }

    /// The cells of a segment lie between its ends, from left to right, and none reaches into the next.
    pub open spec fn apart(&self, s: St, i: int) -> bool {
        let r = self.row_items(s, i);
        forall|k: int| 1 <= k < r.len() ==> self.item_x(s, r[k - 1]) + self.item_width(s, r[k - 1]) <= self.item_x(s, #[trigger] r[k])
    }

    /// A cell lies between the ends of all its segments, on the bottom of the lowest of their rows.
    pub open spec fn lies_in(&self, s: St, nd: usize) -> bool {
        let (v, h) = (s.nodes[nd as int], s.homes[nd as int]);
        &&& forall|k: int| 0 <= k < h.len() ==> self.segments@[#[trigger] h[k] as int].min_x <= v.left && v.left + v.width <= self.segments@[h[k] as int].max_x
        &&& v.bottom == self.arch.rows@[self.low_row(s, nd as int, h.len() as int)].bottom
    }

    /// The placement is legal as far as the segments and some cells go.
    pub open spec fn at_rest(&self, s: St, cells: Seq<usize>) -> bool {
        &&& forall|i: int| 0 <= i < self.segments@.len() ==> #[trigger] self.apart(s, i)
        &&& forall|k: int| 0 <= k < cells.len() ==> self.lies_in(s, #[trigger] cells[k])
    }

    /// The cells and the ends of the segments are few enough that their weighted places sum up in 128 bits.
    pub open spec fn settles(&self) -> bool {
        self.count() + 2 * self.segments@.len() <= 8 * COORD_LIMIT
    }
}

/// The left neighbours of every item.
fn neighbours(l: &Land, live: &Live) -> (left: Vec<Vec<usize>>)
    requires
        l.wf(),
        l.ok(live@),
        l.settles(),
    ensures
        left@.len() == l.count() + 2 * l.segments@.len(),
        forall|u: int| 0 <= u < left@.len() ==> (#[trigger] left@[u])@ == l.left_items(live@, u as usize, l.segments@.len() as int),
        forall|u: int, k: int| 0 <= u < left@.len() && 0 <= k < left@[u]@.len() ==> #[trigger] left@[u]@[k] < left@.len(),
{
    let n: usize = l.sites.len();
    let m: usize = l.segments.len();
    let ghost s = live@;
    let total: usize = n + 2 * m;
    let mut left: Vec<Vec<usize>> = Vec::new();
    let mut z: usize = 0;
    while z < total
        invariant
            z <= total,
            left@.len() == z,
            forall|u: int| 0 <= u < z ==> (#[trigger] left@[u])@ == Seq::<usize>::empty(),
        decreases total - z,
    {
        let none: Vec<usize> = Vec::new();
        assert(none@ =~= Seq::empty());
        left.push(none);
        z = z + 1;
    }
    let mut i: usize = 0;
    while i < m
        invariant
            l.wf(),
            l.ok(live@),
            s == live@,
            n == l.count(),
            m == l.segments@.len(),
            n + 2 * m <= 8 * COORD_LIMIT,
            total == n + 2 * m,
            i <= m,
            left@.len() == total,
            forall|u: int| 0 <= u < total ==> (#[trigger] left@[u])@ == l.left_items(s, u as usize, i as int),
            forall|u: int, k: int| 0 <= u < total && 0 <= k < left@[u]@.len() ==> #[trigger] left@[u]@[k] < total,
        decreases m - i,
    {
        let list = &live.cells_in_seg[i];
        let ghost items = l.row_items(s, i as int);
        let ghost l0 = left@;
        assert(s.cells[i as int] == list@);
        assert(all_below(s.cells[i as int], n as int));
        let c: usize = list.len();
        let mut k: usize = 0;
        let mut prev: usize = n + i;
        proof {
            assert(items.len() == c + 2);
            assert forall|u: int| 0 <= u < total implies (#[trigger] left@[u])@ == l.left_items(s, u as usize, i as int) + l.left_along(items, u as usize, 0) by {
                assert(l.left_items(s, u as usize, i as int) + Seq::<usize>::empty() =~= l.left_items(s, u as usize, i as int));
            }
        }
        loop
            invariant_except_break
                k <= c,
                prev == items[k as int],
                forall|u: int| 0 <= u < total ==> (#[trigger] left@[u])@ == l.left_items(s, u as usize, i as int) + l.left_along(items, u as usize, k as int),
            invariant
                n == l.count(),
                m == l.segments@.len(),
                n + 2 * m <= 8 * COORD_LIMIT,
                total == n + 2 * m,
                i < m,
                c == list@.len(),
                s.cells[i as int] == list@,
                all_below(list@, n as int),
                items == l.row_items(s, i as int),
                items.len() == c + 2,
                prev < total,
                left@.len() == total,
                forall|u: int, k: int| 0 <= u < total && 0 <= k < left@[u]@.len() ==> #[trigger] left@[u]@[k] < total,
            ensures
                forall|u: int| 0 <= u < total ==> (#[trigger] left@[u])@ == l.left_items(s, u as usize, i as int) + l.left_along(items, u as usize, c + 1),
            decreases c - k,
        {
            let here: usize = if k < c { list[k] } else { n + m + i };
            assert(items[k + 1] == here);
            let ghost l1 = left@;
            left[here].push(prev);
            proof {
                assert forall|u: int| 0 <= u < total implies (#[trigger] left@[u])@ == l.left_items(s, u as usize, i as int) + l.left_along(items, u as usize, k + 1) by {
                    assert(l1[u]@ == l.left_items(s, u as usize, i as int) + l.left_along(items, u as usize, k as int));
                    if u == here {
                        assert(left@[u]@ =~= l.left_items(s, u as usize, i as int) + l.left_along(items, u as usize, k as int).push(prev));
                    } else {
                        assert(left@[u] == l1[u]);
                    }
                }
                assert forall|u: int, k: int| 0 <= u < total && 0 <= k < left@[u]@.len() implies #[trigger] left@[u]@[k] < total by {
                    if u != here {
                        assert(left@[u] == l1[u]);
                    } else if k < l1[u]@.len() {
                        assert(left@[u]@[k] == l1[u]@[k]);
                    }
                }
            }
            prev = here;
            if k == c {
                break;
            }
            k = k + 1;
        }
        i = i + 1;
    }
    left
}

/// The cells and the ends of the segments as items.
fn make_items(l: &Land, live: &Live) -> (it: Items)
    requires
        l.wf(),
        l.ok(live@),
        l.settles(),
    ensures
        l.are_items(live@, it),
        it.wf(),
{
    let n: usize = l.sites.len();
    let m: usize = l.segments.len();
    let ghost s = live@;
    let left = neighbours(l, live);
    let mut x: Vec<i64> = Vec::new();
    let mut width: Vec<i64> = Vec::new();
    let mut weight: Vec<i64> = Vec::new();
    let mut u: usize = 0;
    while u < n
        invariant
            l.wf(),
            l.ok(live@),
            s == live@,
            n == l.count(),
            u <= n,
            x@.len() == u && width@.len() == u && weight@.len() == u,
            forall|v: int| 0 <= v < u ==> #[trigger] x@[v] == s.nodes[v].left && width@[v] == s.nodes[v].width && weight@[v] == 1,
        decreases n - u,
    {
        x.push(live.nodes[u].left as i64);
        width.push(live.nodes[u].width as i64);
        weight.push(1);
        u = u + 1;
    }
    let mut i: usize = 0;
    while i < m
        invariant
            n == l.count(),
            m == l.segments@.len(),
            i <= m,
            x@.len() == n + i && width@.len() == n + i && weight@.len() == n + i,
            forall|v: int| 0 <= v < n ==> #[trigger] x@[v] == s.nodes[v].left && width@[v] == s.nodes[v].width && weight@[v] == 1,
            forall|v: int| n <= v < n + i ==> #[trigger] x@[v] == l.segments@[v - n].min_x && width@[v] == 0 && weight@[v] == END_WEIGHT,
        decreases m - i,
    {
        let ghost (x0, w0, g0) = (x@, width@, weight@);
        x.push(l.segments[i].min_x as i64);
        width.push(0);
        weight.push(END_WEIGHT);
        proof {
            assert forall|v: int| n <= v < n + i + 1 implies #[trigger] x@[v] == l.segments@[v - n].min_x && width@[v] == 0 && weight@[v] == END_WEIGHT by {
                if v < n + i {
                    assert(x0[v] == l.segments@[v - n].min_x);
                    assert(w0[v] == 0);
                    assert(g0[v] == END_WEIGHT);
                }
            }
        }
        i = i + 1;
    }
    let mut j: usize = 0;
    while j < m
        invariant
            n == l.count(),
            m == l.segments@.len(),
            j <= m,
            x@.len() == n + m + j && width@.len() == n + m + j && weight@.len() == n + m + j,
            forall|v: int| 0 <= v < n ==> #[trigger] x@[v] == s.nodes[v].left && width@[v] == s.nodes[v].width && weight@[v] == 1,
            forall|v: int| n <= v < n + m ==> #[trigger] x@[v] == l.segments@[v - n].min_x && width@[v] == 0 && weight@[v] == END_WEIGHT,
            forall|v: int| n + m <= v < n + m + j ==> #[trigger] x@[v] == l.segments@[v - n - m].max_x && width@[v] == 0 && weight@[v] == END_WEIGHT,
        decreases m - j,
    {
        let ghost (x0, w0, g0) = (x@, width@, weight@);
        x.push(l.segments[j].max_x as i64);
        width.push(0);
        weight.push(END_WEIGHT);
        proof {
            assert forall|v: int| n <= v < n + m implies #[trigger] x@[v] == l.segments@[v - n].min_x && width@[v] == 0 && weight@[v] == END_WEIGHT by {
                assert(x0[v] == l.segments@[v - n].min_x);
                assert(w0[v] == 0);
                assert(g0[v] == END_WEIGHT);
            }
            assert forall|v: int| n + m <= v < n + m + j + 1 implies #[trigger] x@[v] == l.segments@[v - n - m].max_x && width@[v] == 0 && weight@[v] == END_WEIGHT by {
                if v < n + m + j {
                    assert(x0[v] == l.segments@[v - n - m].max_x);
                    assert(w0[v] == 0);
                    assert(g0[v] == END_WEIGHT);
                }
            }
        }
        j = j + 1;
    }
    let it = Items { x, width, weight, left };
    proof {
        assert forall|v: int| 0 <= v < it.len() implies -8 * COORD_LIMIT <= #[trigger] it.x@[v] <= 8 * COORD_LIMIT by {
            if v < n {
                assert(node_in(s.nodes[v]));
            } else if v < n + m {
                assert(seg_end(l.segments@[v - n].min_x as int));
            } else {
                assert(seg_end(l.segments@[v - n - m].max_x as int));
            }
        }
        assert forall|v: int| 0 <= v < it.len() implies 0 <= #[trigger] it.width@[v] <= COORD_LIMIT by {
            let e = it.x@[v];
            if v < n {
                assert(node_in(s.nodes[v]));
            }
        }
        assert forall|v: int| 0 <= v < it.len() implies 1 <= #[trigger] it.weight@[v] <= 100_000_000 by {
            let e = it.x@[v];
        }
    }
    it
}

impl Live {
    /// A node's left edge kept between the ends of its segments, one after the other.
    fn keep_in(&self, l: &Land, nd: usize) -> (r: i32)
        requires
            l.wf(),
            l.ok(self@),
            nd < l.count(),
        ensures
            r == self.kept(l, nd),
            -8 * COORD_LIMIT <= r <= 8 * COORD_LIMIT,
    {
        let ghost s = self@;
        assert(node_in(s.nodes[nd as int]));
        let list = &self.cell_segs[nd];
        assert(s.homes[nd as int] == list@);
        assert(all_below(s.homes[nd as int], l.segments@.len() as int));
        let w: i32 = self.nodes[nd].width;
        let mut x: i32 = self.nodes[nd].left;
        let mut k: usize = 0;
        while k < list.len()
            invariant
                l.wf(),
                s == self@,
                s.homes[nd as int] == list@,
                all_below(list@, l.segments@.len() as int),
                w == s.nodes[nd as int].width,
                0 <= w <= COORD_LIMIT,
                k <= list@.len(),
                x == l.kept_in(s, nd as int, k as int),
                reachable(x as int),
            decreases list@.len() - k,
        {
            let g = l.segments[list[k]];
            assert(seg_end(l.segments@[list@[k as int] as int].min_x as int) && seg_end(l.segments@[list@[k as int] as int].max_x as int));
            let a: i32 = if x >= g.min_x { x } else { g.min_x };
            let b: i32 = g.max_x - w;
            x = if a <= b { a } else { b };
            k = k + 1;
        }
        x
    }

    spec fn kept(&self, l: &Land, nd: usize) -> int {
        l.kept_in(self@, nd as int, self@.homes[nd as int].len() as int)
    }

    /// The lowest row of a node's segments.
    pub fn lowest_row(&self, l: &Land, nd: usize) -> (r: usize)
        requires
            l.wf(),
            l.fits(self@),
            nd < l.count(),
            self@.homes[nd as int].len() > 0,
        ensures
            r == l.low_row(self@, nd as int, self@.homes[nd as int].len() as int),
            r < l.arch.rows@.len(),
    {
        let ghost s = self@;
        let list = &self.cell_segs[nd];
        assert(s.homes[nd as int] == list@);
        assert(all_below(s.homes[nd as int], l.segments@.len() as int));
        let mut r: usize = l.segments[list[0]].row;
        let mut k: usize = 1;
        while k < list.len()
            invariant
                l.wf(),
                s == self@,
                s.homes[nd as int] == list@,
                all_below(list@, l.segments@.len() as int),
                1 <= k <= list@.len(),
                r == l.low_row(s, nd as int, k as int),
                r < l.arch.rows@.len(),
            decreases list@.len() - k,
        {
            let q: usize = l.segments[list[k]].row;
            if q < r {
                r = q;
            }
            k = k + 1;
        }
        r
    }

    /// Remove the overlaps of cells that are in segments: the cells are clumped between the segments'
    /// ends. The squares are left as they are. Whether any cell moved, or `None`, with nothing changed, where
    /// a cell would come to lie further out than coordinates go.
    pub fn shift(&mut self, l: &Land, cells: &Vec<usize>) -> (r: Option<bool>)
        requires
            l.wf(),
            l.ok(old(self)@),
            l.settles(),
            all_below(cells@, l.count()),
            cells@.no_duplicates(),
            forall|k: int| 0 <= k < cells@.len() ==> old(self)@.homes[#[trigger] cells@[k] as int].len() > 0,
        ensures
            l.fits(final(self)@),
            match r {
                Some(moved) => l.is_shifted(old(self)@, cells@, final(self)@) && (moved <==> final(self)@ != old(self)@),
                None => final(self)@ == old(self)@ && l.overrun(old(self)@, cells@),
            },
            l.at_rest(old(self)@, cells@) ==> r == Some(false) && final(self)@ == old(self)@,
    {
        let ghost s = self@;
        let n: usize = l.sites.len();
        let m: usize = l.segments.len();
        let c: usize = cells.len();
        let it = make_items(l, self);
        let mut heads: Vec<usize> = Vec::new();
        let mut at: Vec<i64> = Vec::new();
        let ghost hs = l.heads_of(cells@);
        let ghost st = l.starts_of(s, cells@);
        let mut i: usize = 0;
        while i < m
            invariant
                l.wf(),
                n == l.count(),
                m == l.segments@.len(),
                n + 2 * m <= 8 * COORD_LIMIT,
                c == cells@.len(),
                hs == l.heads_of(cells@),
                st == l.starts_of(s, cells@),
                i <= m,
                heads@ == hs.subrange(0, i as int),
                at@ == st.subrange(0, i as int),
            decreases m - i,
        {
            heads.push(n + i);
            at.push(l.segments[i].min_x as i64);
            i = i + 1;
            assert(heads@ =~= hs.subrange(0, i as int));
            assert(at@ =~= st.subrange(0, i as int));
        }
        let mut j: usize = 0;
        while j < c
            invariant
                l.wf(),
                l.ok(self@),
                s == self@,
                n == l.count(),
                m == l.segments@.len(),
                c == cells@.len(),
                all_below(cells@, l.count()),
                hs == l.heads_of(cells@),
                st == l.starts_of(s, cells@),
                j <= c,
                heads@ == hs.subrange(0, m + j),
                at@ == st.subrange(0, m + j),
            decreases c - j,
        {
            heads.push(cells[j]);
            at.push(self.keep_in(l, cells[j]) as i64);
            j = j + 1;
            assert(heads@ =~= hs.subrange(0, m + j));
            assert(at@ =~= st.subrange(0, m + j));
        }
        let mut k: usize = 0;
        while k < m
            invariant
                l.wf(),
                n == l.count(),
                m == l.segments@.len(),
                n + 2 * m <= 8 * COORD_LIMIT,
                c == cells@.len(),
                hs == l.heads_of(cells@),
                st == l.starts_of(s, cells@),
                k <= m,
                heads@ == hs.subrange(0, m + c + k),
                at@ == st.subrange(0, m + c + k),
            decreases m - k,
        {
            heads.push(n + m + k);
            at.push(l.segments[k].max_x as i64);
            k = k + 1;
            assert(heads@ =~= hs.subrange(0, m + c + k));
            assert(at@ =~= st.subrange(0, m + c + k));
        }
        proof {
            assert(heads@ =~= hs);
            assert(at@ =~= st);
            lemma_heads(*l, s, cells@);
        }
        let r = remove_overlaps(&it, &heads, &at);
        let ghost cl = l.clumped(s, cells@, it);
        let all: usize = r.len();
        let mut p: usize = 0;
        while p < c
            invariant
                self@ == s,
                l.wf(),
                l.settles(),
                cells@.no_duplicates(),
                m == l.segments@.len(),
                c == cells@.len(),
                all_below(cells@, l.count()),
                hs == l.heads_of(cells@),
                heads@ == hs,
                r@.len() == 2 * m + c,
                all == 2 * m + c,
                l.are_items(s, it),
                cl == l.clumped(s, cells@, it),
                l.ok(self@),
                s == old(self)@,
                forall|k: int| 0 <= k < heads@.len() ==> cl.clump[#[trigger] heads@[k] as int] is Some
                    && r@[k] == cl.posn[cl.clump[heads@[k] as int]->Some_0 as int] + cl.off[heads@[k] as int],
                p <= c,
                forall|k: int| 0 <= k < p ==> l.fits_at(s, cl, #[trigger] cells@[k]),
            decreases c - p,
        {
            let x: i64 = r[m + p];
            assert(heads@[m + p] == cells@[p as int]);
            assert(x == l.put_at(cl, cells@[p as int]));
            let nd: usize = cells[p];
            assert(node_in(s.nodes[nd as int]) && pad_in(s.pad_sites[nd as int]));
            let least: i64 = i32::MIN as i64 + 2 + self.pad_sites[nd].0 as i64;
            let most: i64 = i32::MAX as i64 - 2 - self.pad_sites[nd].1 as i64 - self.nodes[nd].width as i64;
            if x < least || most < x {
                assert(!l.fits_at(s, cl, cells@[p as int]));
                assert(!l.all_fit(s, cells@, cl));
                proof {
                    if l.at_rest(s, cells@) {
                        law_legal_placement_stays(*l, s, cells@, s);
                    }
                }
                return None;
            }
            p = p + 1;
        }
        assert(l.all_fit(s, cells@, cl));
        let mut any: bool = false;
        let ghost mut at_first: int = 0;
        let mut q: usize = 0;
        while q < c
            invariant
                l.wf(),
                l.ok(s),
                l.fits(self@),
                m == l.segments@.len(),
                c == cells@.len(),
                all_below(cells@, l.count()),
                forall|k: int| 0 <= k < cells@.len() ==> s.homes[#[trigger] cells@[k] as int].len() > 0,
                self@.homes == s.homes,
                hs == l.heads_of(cells@),
                heads@ == hs,
                r@.len() == 2 * m + c,
                all == 2 * m + c,
                forall|k: int| 0 <= k < heads@.len() ==> cl.clump[#[trigger] heads@[k] as int] is Some
                    && r@[k] == cl.posn[cl.clump[heads@[k] as int]->Some_0 as int] + cl.off[heads@[k] as int],
                q <= c,
                self@ == l.released(s, cells@, cl, q as int),
                l.all_fit(s, cells@, cl),
                self@.pad_sites == s.pad_sites,
                !any ==> self@ == s,
                any ==> 0 <= at_first < q && self@.nodes[cells@[at_first] as int] != s.nodes[cells@[at_first] as int],
                cells@.no_duplicates(),
                forall|j: int| q <= j < c ==> self@.nodes[#[trigger] cells@[j] as int] == s.nodes[cells@[j] as int],
            decreases c - q,
        {
            let nd: usize = cells[q];
            assert(heads@[m + q] == nd);
            let x: i64 = r[m + q];
            assert(s.homes[cells@[q as int] as int].len() > 0);
            let row: usize = self.lowest_row(l, nd);
            proof {
                lemma_low_row(*l, s, self@, nd as int, s.homes[nd as int].len() as int);
                assert(l.arch.rows@[row as int].ok());
            }
            assert(x == l.put_at(cl, cells@[q as int]));
            assert(l.fits_at(s, cl, cells@[q as int]));
            assert(self@.nodes[cells@[q as int] as int] == s.nodes[cells@[q as int] as int]);
            let y: i32 = l.arch.rows[row].bottom;
            let ghost before = self@;
            if x as i32 != self.nodes[nd].left || y != self.nodes[nd].bottom {
                any = true;
                proof {
                    at_first = q as int;
                }
            }
            self.put(l, nd, x as i32, y);
            proof {
                assert(self@.nodes[nd as int].left == x && self@.nodes[nd as int].bottom == y);
                if !any {
                    assert(self@.nodes =~= before.nodes);
                    assert(self@ == before);
                }
            }
            q = q + 1;
        }
        proof {
            if l.at_rest(s, cells@) {
                law_legal_placement_stays(*l, s, cells@, self@);
            }
        }
        Some(any)
    }
}

proof fn lemma_low_row(l: Land, a: St, b: St, nd: int, k: int)
    requires
        a.homes == b.homes,
    ensures
        l.low_row(a, nd, k) == l.low_row(b, nd, k),
    decreases k,
{
    if k > 1 {
        lemma_low_row(l, a, b, nd, k - 1);
    }
}

proof fn lemma_heads(l: Land, s: St, cells: Seq<usize>)
    requires
        l.wf(),
        l.ok(s),
        l.settles(),
        all_below(cells, l.count()),
        cells.no_duplicates(),
    ensures
        l.heads_of(cells).no_duplicates(),
        forall|k: int| 0 <= k < l.heads_of(cells).len() ==> #[trigger] l.heads_of(cells)[k] < l.count() + 2 * l.segments@.len(),
        forall|k: int| 0 <= k < l.starts_of(s, cells).len() ==> within(#[trigger] l.starts_of(s, cells)[k] as int, 8 * COORD_LIMIT as int),
{
    let h = l.heads_of(cells);
    let (n, m, c) = (l.count(), l.segments@.len() as int, cells.len() as int);
    assert forall|k: int| 0 <= k < h.len() implies #[trigger] h[k] < n + 2 * m by {
        if m <= k < m + c {
            assert(cells[k - m] < n);
        }
    }
    assert forall|i: int, j: int| 0 <= i < h.len() && 0 <= j < h.len() && i != j implies h[i] != h[j] by {
        if m <= i < m + c {
            assert(cells[i - m] < n);
        }
        if m <= j < m + c {
            assert(cells[j - m] < n);
        }
        if m <= i < m + c && m <= j < m + c {
            assert(cells[i - m] != cells[j - m]);
        }
    }
    let st = l.starts_of(s, cells);
    assert forall|k: int| 0 <= k < st.len() implies within(#[trigger] st[k] as int, 8 * COORD_LIMIT as int) by {
        if k < m {
            assert(seg_end(l.segments@[k].min_x as int));
        } else if k < m + c {
            assert(cells[k - m] < n);
            lemma_kept(l, s, cells[k - m] as int, s.homes[cells[k - m] as int].len() as int);
        } else {
            assert(seg_end(l.segments@[k - m - c].max_x as int));
        }
    }
}

// ── a legal placement ────────────────────────────────────────────────────────────────────────

proof fn lemma_left_along(l: Land, s: St, i: int, u: usize, k: int)
    requires
        0 <= k < l.row_items(s, i).len(),
        l.apart(s, i),
        0 <= i < l.segments@.len(),
    ensures
        forall|q: int| 0 <= q < l.left_along(l.row_items(s, i), u, k).len() ==> {
            let v = #[trigger] l.left_along(l.row_items(s, i), u, k)[q];
            l.item_x(s, v) + l.item_width(s, v) <= l.item_x(s, u)
        },
    decreases k,
{
    if k > 0 {
        lemma_left_along(l, s, i, u, k - 1);
        let r = l.row_items(s, i);
        assert(l.item_x(s, r[k - 1]) + l.item_width(s, r[k - 1]) <= l.item_x(s, r[k]));
        let (a, b) = (l.left_along(r, u, k - 1), l.left_along(r, u, k));
        assert forall|q: int| 0 <= q < b.len() implies {
            let v = #[trigger] b[q];
            l.item_x(s, v) + l.item_width(s, v) <= l.item_x(s, u)
        } by {
            if q < a.len() {
                assert(b[q] == a[q]);
            }
        }
    }
}

/// In a legal placement no left neighbour of an item reaches into it.
proof fn lemma_left_items(l: Land, s: St, u: usize, i: int)
    requires
        0 <= i <= l.segments@.len(),
        forall|j: int| 0 <= j < l.segments@.len() ==> #[trigger] l.apart(s, j),
    ensures
        forall|q: int| 0 <= q < l.left_items(s, u, i).len() ==> {
            let v = #[trigger] l.left_items(s, u, i)[q];
            l.item_x(s, v) + l.item_width(s, v) <= l.item_x(s, u)
        },
    decreases i,
{
    if i > 0 {
        lemma_left_items(l, s, u, i - 1);
        let r = l.row_items(s, i - 1);
        assert(l.apart(s, i - 1));
        lemma_left_along(l, s, i - 1, u, r.len() - 1);
        let (a, b) = (l.left_items(s, u, i - 1), l.left_along(r, u, r.len() - 1));
        assert forall|q: int| 0 <= q < (a + b).len() implies {
            let v = #[trigger] (a + b)[q];
            l.item_x(s, v) + l.item_width(s, v) <= l.item_x(s, u)
        } by {
            if q < a.len() {
                assert((a + b)[q] == a[q]);
            } else {
                assert((a + b)[q] == b[q - a.len()]);
            }
        }
    }
}

proof fn lemma_kept_where_it_is(l: Land, s: St, nd: usize, k: int)
    requires
        l.lies_in(s, nd),
        0 <= k <= s.homes[nd as int].len(),
    ensures
        l.kept_in(s, nd as int, k) == s.nodes[nd as int].left,
    decreases k,
{
    if k > 0 {
        lemma_kept_where_it_is(l, s, nd, k - 1);
        assert(l.segments@[s.homes[nd as int][k - 1] as int].min_x <= s.nodes[nd as int].left);
    }
}

proof fn lemma_no_worst(it: Items, c: Clumps, r: int, u: usize, n: int)
    requires
        forall|j: int| 0 <= j < n ==> breach(it, c, r, u, #[trigger] it.left@[u as int]@[j]) is None,
    ensures
        worst_of(it, c, r, u, n, None) is None,
    decreases n,
{
    if n > 0 {
        lemma_no_worst(it, c, r, u, n - 1);
        assert(breach(it, c, r, u, it.left@[u as int]@[n - 1]) is None);
    }
}

/// The clumps of a legal placement stay as they start, each cell where it lies.
proof fn lemma_clumps_stay(l: Land, s: St, cells: Seq<usize>, it: Items)
    requires
        l.wf(),
        l.ok(s),
        l.settles(),
        all_below(cells, l.count()),
        cells.no_duplicates(),
        l.at_rest(s, cells),
        l.are_items(s, it),
    ensures
        forall|k: int| 0 <= k < cells.len() ==> l.put_at(l.clumped(s, cells, it), #[trigger] cells[k]) == s.nodes[cells[k] as int].left,
{
    let (n, m, w) = (l.count(), l.segments@.len() as int, cells.len() as int);
    let (h, st) = (l.heads_of(cells), l.starts_of(s, cells));
    let c = singles(it, h, st);
    lemma_heads(l, s, cells);
    lemma_below_count(h, n + 2 * m);
    assert forall|k: int| 0 <= k < h.len() implies #[trigger] st[k] == l.item_x(s, h[k]) by {
        if m <= k < m + w {
            let nd = cells[k - m];
            assert(l.lies_in(s, nd));
            lemma_kept_where_it_is(l, s, nd, s.homes[nd as int].len() as int);
            assert(nd < n);
        }
    }
    assert forall|v: int| 0 <= v < it.len() implies (#[trigger] c.clump[v] matches Some(t) ==> t < h.len() && h[t as int] == v) by {
        if h.contains(v as usize) {
            let i = choose|i: int| 0 <= i < h.len() && h[i] == v as usize;
            assert((i as usize) < h.len() && h[(i as usize) as int] == v);
        }
    }
    assert forall|r: int| 0 <= r < h.len() implies #[trigger] worst(it, c, r) is None by {
        let u = h[r];
        assert(c.nodes[r] == seq![u]);
        assert(it.left@[u as int]@ == l.left_items(s, u, m));
        lemma_left_items(l, s, u, m);
        assert forall|j: int| 0 <= j < it.left@[u as int]@.len() implies breach(it, c, r, u, #[trigger] it.left@[u as int]@[j]) is None by {
            let v = it.left@[u as int]@[j];
            assert(v == l.left_items(s, u, m)[j]);
            assert(st[r] == l.item_x(s, u));
            if v < it.len() {
                if let Some(t) = c.clump[v as int] {
                    assert(h[t as int] == v);
                    assert(st[t as int] == l.item_x(s, v));
                    assert(it.x@[v as int] == l.item_x(s, v));
                    assert(it.width@[v as int] == l.item_width(s, v));
                }
            } else {
                lemma_left_below(l, s, u, m, j);
            }
        }
        lemma_no_worst(it, c, r, u, it.left@[u as int]@.len() as int);
        reveal_with_fuel(worst_in, 2);
    }
    law_without_overlap_nothing_moves(it, c, h.len() as int);
    assert(l.clumped(s, cells, it) == c);
    assert forall|k: int| 0 <= k < cells.len() implies l.put_at(c, #[trigger] cells[k]) == s.nodes[cells[k] as int].left by {
        let nd = cells[k];
        assert(h[m + k] == nd);
        assert(h.contains(nd));
        assert(nd < n);
        let t = c.clump[nd as int]->Some_0;
        assert(c.clump[nd as int] is Some);
        assert(h[t as int] == nd);
        assert(st[t as int] == l.item_x(s, nd));
    }
}

/// The left neighbours of items are items.
proof fn lemma_left_below(l: Land, s: St, u: usize, i: int, q: int)
    requires
        l.wf(),
        l.ok(s),
        l.settles(),
        0 <= i <= l.segments@.len(),
        0 <= q < l.left_items(s, u, i).len(),
    ensures
        l.left_items(s, u, i)[q] < l.count() + 2 * l.segments@.len(),
    decreases i,
{
    if i > 0 {
        let r = l.row_items(s, i - 1);
        let v = l.left_items(s, u, i - 1);
        assert(all_below(s.cells[i - 1], l.count()));
        assert forall|k: int| 0 <= k < r.len() implies #[trigger] r[k] < l.count() + 2 * l.segments@.len() by {
            if 1 <= k < r.len() - 1 {
                assert(r[k] == s.cells[i - 1][k - 1]);
            }
        }
        if q < v.len() {
            lemma_left_below(l, s, u, i - 1, q);
        } else {
            lemma_along_below(l, r, u, r.len() - 1, l.count() + 2 * l.segments@.len());
            assert(l.left_items(s, u, i)[q] == l.left_along(r, u, r.len() - 1)[q - v.len()]);
        }
    }
}

proof fn lemma_along_below(l: Land, items: Seq<usize>, u: usize, k: int, n: int)
    requires
        0 <= k < items.len(),
        all_below(items, n),
    ensures
        all_below(l.left_along(items, u, k), n),
    decreases k,
{
    if k > 0 {
        lemma_along_below(l, items, u, k - 1, n);
        assert(items[k - 1] < n);
    }
}

proof fn lemma_released_same(l: Land, s: St, cells: Seq<usize>, c: Clumps, k: int)
    requires
        0 <= k <= cells.len(),
        all_below(cells, s.nodes.len() as int),
        forall|j: int| 0 <= j < cells.len() ==> l.put_at(c, #[trigger] cells[j]) == s.nodes[cells[j] as int].left && l.lies_in(s, cells[j]),
    ensures
        l.released(s, cells, c, k) == s,
    decreases k,
{
    if k > 0 {
        lemma_released_same(l, s, cells, c, k - 1);
        let nd = cells[k - 1];
        assert(l.put_at(c, nd) == s.nodes[nd as int].left && l.lies_in(s, nd));
        assert(placed(s, nd, s.nodes[nd as int].left, s.nodes[nd as int].bottom).nodes =~= s.nodes);
    }
}

/// On a legal placement nothing moves: removing overlaps succeeds and gives every cell the place it has.
pub proof fn law_legal_placement_stays(l: Land, s: St, cells: Seq<usize>, t: St)
    requires
        l.wf(),
        l.ok(s),
        l.settles(),
        all_below(cells, l.count()),
        cells.no_duplicates(),
        l.at_rest(s, cells),
    ensures
        !l.overrun(s, cells),
        l.is_shifted(s, cells, t) ==> t == s,
{
    assert forall|it: Items| #[trigger] l.are_items(s, it) implies l.all_fit(s, cells, l.clumped(s, cells, it))
        && l.released(s, cells, l.clumped(s, cells, it), cells.len() as int) == s by {
        lemma_clumps_stay(l, s, cells, it);
        let c = l.clumped(s, cells, it);
        assert forall|k: int| 0 <= k < cells.len() implies l.fits_at(s, c, #[trigger] cells[k]) by {
            assert(l.put_at(c, cells[k]) == s.nodes[cells[k] as int].left);
            assert(node_in(s.nodes[cells[k] as int]) && pad_in(s.pad_sites[cells[k] as int]));
        }
        assert forall|j: int| 0 <= j < cells.len() implies l.put_at(c, #[trigger] cells[j]) == s.nodes[cells[j] as int].left && l.lies_in(s, cells[j]) by {
        }
        lemma_released_same(l, s, cells, c, cells.len() as int);
    }
}

proof fn lemma_kept(l: Land, s: St, nd: int, k: int)
    requires
        l.wf(),
        l.ok(s),
        0 <= nd < l.count(),
        0 <= k <= s.homes[nd].len(),
    ensures
        reachable(l.kept_in(s, nd, k)),
    decreases k,
{
    assert(node_in(s.nodes[nd]));
    if k > 0 {
        lemma_kept(l, s, nd, k - 1);
        assert(all_below(s.homes[nd], l.segments@.len() as int));
        let g = l.segments@[s.homes[nd][k - 1] as int];
        assert(seg_end(g.min_x as int) && seg_end(g.max_x as int));
    }
}

} // verus!
